//! How the command-line words decide the options: each option is set only by
//! its own word, and a switch once set stays set.
use vstd::prelude::*;
use crate::arg::{ArgScan, scan};

verus! {

/// No word of `a` is `w`.
pub open spec fn absent(a: Seq<Seq<char>>, w: Seq<char>) -> bool {
    forall|j: int| 0 <= j < a.len() ==> a[j] != w
}

proof fn lemma_absent_skip(a: Seq<Seq<char>>, w: Seq<char>, k: int)
    requires
        absent(a, w),
        0 <= k <= a.len(),
    ensures
        absent(a.skip(k), w),
{
    assert forall|j: int| 0 <= j < a.skip(k).len() implies a.skip(k)[j] != w by {
        assert(a.skip(k)[j] == a[j + k]);
    }
}

proof fn lemma_words_differ()
    ensures
        "help"@ != "summary"@,
        "help"@ != "-r"@,
        "help"@ != "-t"@,
        "help"@ != "-s"@,
        "help"@ != "-d"@,
        "summary"@ != "-r"@,
        "summary"@ != "-t"@,
        "summary"@ != "-s"@,
        "summary"@ != "-d"@,
        "-r"@ != "-t"@,
        "-r"@ != "-s"@,
        "-r"@ != "-d"@,
        "-t"@ != "-s"@,
        "-t"@ != "-d"@,
        "-s"@ != "-d"@,
{
    reveal_strlit("help");
    reveal_strlit("summary");
    reveal_strlit("-r");
    reveal_strlit("-t");
    reveal_strlit("-s");
    reveal_strlit("-d");
    assert("help"@.len() != "summary"@.len());
    assert("help"@.len() != "-r"@.len());
    assert("help"@.len() != "-t"@.len());
    assert("help"@.len() != "-s"@.len());
    assert("help"@.len() != "-d"@.len());
    assert("summary"@.len() != "-r"@.len());
    assert("summary"@.len() != "-t"@.len());
    assert("summary"@.len() != "-s"@.len());
    assert("summary"@.len() != "-d"@.len());
    assert("-r"@[1] != "-t"@[1]);
    assert("-r"@[1] != "-s"@[1]);
    assert("-r"@[1] != "-d"@[1]);
    assert("-t"@[1] != "-s"@[1]);
    assert("-t"@[1] != "-d"@[1]);
    assert("-s"@[1] != "-d"@[1]);
}

/// Each option is changed only by its own word: without `help`, `summary` or
/// `-r` among the words their switch stays as it was, and without `-t`, `-s` or
/// `-d` the tag, status or description filter stays as it was.  A switch that
/// is set stays set, whatever words follow.
pub proof fn lemma_options_set_by_own_word(a: Seq<Seq<char>>, st: ArgScan)
    ensures
        absent(a, "help"@) ==> scan(a, st).help == st.help,
        absent(a, "summary"@) ==> scan(a, st).summary == st.summary,
        absent(a, "-r"@) ==> scan(a, st).no_rec == st.no_rec,
        absent(a, "-t"@) ==> scan(a, st).tag == st.tag,
        absent(a, "-s"@) ==> scan(a, st).status == st.status,
        absent(a, "-d"@) ==> scan(a, st).desc == st.desc,
        st.help ==> scan(a, st).help,
        st.summary ==> scan(a, st).summary,
        st.no_rec ==> scan(a, st).no_rec,
    decreases a.len(),
{
    lemma_words_differ();
    if a.len() > 0 {
        let k: int = if a[0] == "-t"@ || a[0] == "-s"@ || a[0] == "-d"@ {
            2
        } else {
            1
        };
        if k <= a.len() {
            lemma_absent_skip_all(a, k);
        }
        if a[0] == "-t"@ || a[0] == "-s"@ || a[0] == "-d"@ {
            if a.len() >= 2 {
                if a[0] == "-t"@ {
                    lemma_options_set_by_own_word(a.skip(2), ArgScan { tag: a[1], ..st });
                } else if a[0] == "-s"@ {
                    lemma_options_set_by_own_word(a.skip(2), ArgScan { status: a[1], ..st });
                } else {
                    lemma_options_set_by_own_word(a.skip(2), ArgScan { desc: a[1], ..st });
                }
            }
        } else if a[0] == "help"@ {
            lemma_options_set_by_own_word(a.skip(1), ArgScan { help: true, ..st });
        } else if a[0] == "summary"@ {
            lemma_options_set_by_own_word(a.skip(1), ArgScan { summary: true, ..st });
        } else if a[0] == "-r"@ {
            lemma_options_set_by_own_word(a.skip(1), ArgScan { no_rec: true, ..st });
        }
    }
}

proof fn lemma_absent_skip_all(a: Seq<Seq<char>>, k: int)
    requires
        0 <= k <= a.len(),
    ensures
        absent(a, "help"@) ==> absent(a.skip(k), "help"@),
        absent(a, "summary"@) ==> absent(a.skip(k), "summary"@),
        absent(a, "-r"@) ==> absent(a.skip(k), "-r"@),
        absent(a, "-t"@) ==> absent(a.skip(k), "-t"@),
        absent(a, "-s"@) ==> absent(a.skip(k), "-s"@),
        absent(a, "-d"@) ==> absent(a.skip(k), "-d"@),
{
    if absent(a, "help"@) {
        lemma_absent_skip(a, "help"@, k);
    }
    if absent(a, "summary"@) {
        lemma_absent_skip(a, "summary"@, k);
    }
    if absent(a, "-r"@) {
        lemma_absent_skip(a, "-r"@, k);
    }
    if absent(a, "-t"@) {
        lemma_absent_skip(a, "-t"@, k);
    }
    if absent(a, "-s"@) {
        lemma_absent_skip(a, "-s"@, k);
    }
    if absent(a, "-d"@) {
        lemma_absent_skip(a, "-d"@, k);
    }
}

/// Words that are all switches (`help`, `summary`, `-r`) set exactly the
/// switches that they name.
pub proof fn lemma_switch_words_set_their_switches(a: Seq<Seq<char>>, st: ArgScan)
    requires
        forall|j: int|
            0 <= j < a.len() ==> #[trigger] a[j] == "help"@ || a[j] == "summary"@ || a[j] == "-r"@,
    ensures
        scan(a, st).help == (st.help || a.contains("help"@)),
        scan(a, st).summary == (st.summary || a.contains("summary"@)),
        scan(a, st).no_rec == (st.no_rec || a.contains("-r"@)),
    decreases a.len(),
{
    lemma_words_differ();
    if a.len() > 0 {
        let r = a.skip(1);
        assert forall|j: int| 0 <= j < r.len() implies #[trigger] r[j] == "help"@ || r[j]
            == "summary"@ || r[j] == "-r"@ by {
            assert(r[j] == a[j + 1]);
        }
        assert forall|w: Seq<char>| #[trigger] a.contains(w) <==> (a[0] == w || r.contains(w)) by {
            if a.contains(w) {
                let j = choose|j: int| 0 <= j < a.len() && a[j] == w;
                if j > 0 {
                    assert(r[j - 1] == w);
                }
            }
            if r.contains(w) {
                let j = choose|j: int| 0 <= j < r.len() && r[j] == w;
                assert(a[j + 1] == w);
            }
        }
        assert(a[0] == "help"@ || a[0] == "summary"@ || a[0] == "-r"@);
        if a[0] == "help"@ {
            lemma_switch_words_set_their_switches(r, ArgScan { help: true, ..st });
        } else if a[0] == "summary"@ {
            lemma_switch_words_set_their_switches(r, ArgScan { summary: true, ..st });
        } else {
            lemma_switch_words_set_their_switches(r, ArgScan { no_rec: true, ..st });
        }
    }
}

} // verus!
