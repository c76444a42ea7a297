//! Command-line arguments: what the user asked for, read from the words that
//! follow the program name.
use vstd::prelude::*;
use crate::status::{IssueStatus, status_named, status_from_text};
use crate::text::{chars_eq, chars_of, string_of, trim, trim_chars};

verus! {

/// The options of one run.
pub struct Arguments {
    /// Show the help text.
    pub help: bool,
    /// Show the tag and status counts in place of the list.
    pub summary: bool,
    /// Keep only issues whose tag holds this text (when not empty).
    pub filter_tag: String,
    /// Keep only issues whose description holds this text (when not empty).
    pub filter_desc: String,
    /// Keep only issues of this status.
    pub filter_status: Option<IssueStatus>,
    /// The directory to search, when one was named.
    pub opt_dir: String,
    /// The id of an issue and the status to give it.
    pub change_status: (u32, Option<IssueStatus>),
    /// The id of the issue to copy to the clipboard (0: none).
    pub copy_id: u32,
    /// Search the target directory only, not its subdirectories.
    pub no_rec: bool,
}

/// What the scan of the words has gathered so far.
pub struct ArgScan {
    pub tag: Seq<char>,
    pub status: Seq<char>,
    pub desc: Seq<char>,
    pub help: bool,
    pub summary: bool,
    pub no_rec: bool,
    pub dir: Seq<char>,
    /// A flag that takes a value stood last, with no value after it.
    pub missing: bool,
}

/// The state before any word is read.
pub open spec fn scan_start() -> ArgScan {
    ArgScan {
        tag: Seq::empty(),
        status: Seq::empty(),
        desc: Seq::empty(),
        help: false,
        summary: false,
        no_rec: false,
        dir: Seq::empty(),
        missing: false,
    }
}

/// Reads the words in order: `-t`, `-s` and `-d` take the next word as the tag,
/// status and description filter; `help`, `summary` and `-r` set their switch; the first
/// other word is the directory to search, and ends the scan.
pub open spec fn scan(a: Seq<Seq<char>>, st: ArgScan) -> ArgScan
    decreases a.len(),
{
    if a.len() == 0 {
        st
    } else if a[0] == "-t"@ || a[0] == "-s"@ || a[0] == "-d"@ {
        if a.len() < 2 {
            ArgScan { missing: true, ..st }
        } else if a[0] == "-t"@ {
            scan(a.skip(2), ArgScan { tag: a[1], ..st })
        } else if a[0] == "-s"@ {
            scan(a.skip(2), ArgScan { status: a[1], ..st })
        } else {
            scan(a.skip(2), ArgScan { desc: a[1], ..st })
        }
    } else if a[0] == "help"@ {
        scan(a.skip(1), ArgScan { help: true, ..st })
    } else if a[0] == "summary"@ {
        scan(a.skip(1), ArgScan { summary: true, ..st })
    } else if a[0] == "-r"@ {
        scan(a.skip(1), ArgScan { no_rec: true, ..st })
    } else {
        ArgScan { dir: a[0], ..st }
    }
}

/// The views of a list of words.
pub open spec fn words_view(a: Seq<String>) -> Seq<Seq<char>> {
    a.map_values(|s: String| s@)
}

/// The words would leave a flag without its value, on which the reading fails.
pub open spec fn lacks_value(a: Seq<Seq<char>>) -> bool {
    scan(a, scan_start()).missing
}

/// The arguments that the words give.
pub open spec fn arguments_of(a: Seq<Seq<char>>, r: Arguments) -> bool {
    let st = scan(a, scan_start());
    &&& r.help == st.help
    &&& r.summary == st.summary
    &&& r.filter_tag@ == trim(st.tag)
    &&& r.filter_desc@ == trim(st.desc)
    &&& r.filter_status == status_named(st.status)
    &&& r.opt_dir@ == st.dir
    &&& r.change_status == (0u32, None::<IssueStatus>)
    &&& r.copy_id == 0
    &&& r.no_rec == st.no_rec
}

/// The reading position and what has been gathered.
struct Scanner {
    i: usize,
    tag: Vec<char>,
    status: Vec<char>,
    desc: Vec<char>,
    help: bool,
    summary: bool,
    no_rec: bool,
    dir: Vec<char>,
    missing: bool,
    done: bool,
}

impl Scanner {
    spec fn model(&self) -> ArgScan {
        ArgScan {
            tag: self.tag@,
            status: self.status@,
            desc: self.desc@,
            help: self.help,
            summary: self.summary,
            no_rec: self.no_rec,
            dir: self.dir@,
            missing: self.missing,
        }
    }
}

/// Reads all the words.
fn run_scan(args: &Vec<String>) -> (r: Scanner)
    ensures
        r.model() == scan(words_view(args@), scan_start()),
{
    let ghost w = words_view(args@);
    let t = chars_of("-t");
    let s = chars_of("-s");
    let d = chars_of("-d");
    let h = chars_of("help");
    let su = chars_of("summary");
    let nr = chars_of("-r");
    let mut sc = Scanner {
        i: 0,
        tag: Vec::new(),
        status: Vec::new(),
        desc: Vec::new(),
        help: false,
        summary: false,
        no_rec: false,
        dir: Vec::new(),
        missing: false,
        done: false,
    };
    assert(w.skip(0) =~= w);
    let n = args.len();
    while sc.i < n && !sc.done
        invariant
            n == args@.len(),
            w == words_view(args@),
            t@ == "-t"@,
            s@ == "-s"@,
            d@ == "-d"@,
            h@ == "help"@,
            su@ == "summary"@,
            nr@ == "-r"@,
            sc.i <= n,
            !sc.done ==> scan(w, scan_start()) == scan(w.skip(sc.i as int), sc.model()),
            sc.done ==> scan(w, scan_start()) == sc.model(),
        decreases 2 * (n - sc.i) + (if sc.done { 0int } else { 1int }),
    {
        let i = sc.i;
        let ghost rest = w.skip(i as int);
        assert(rest[0] == args@[i as int]@);
        let word = chars_of(args[i].as_str());
        let is_t = chars_eq(word.as_slice(), t.as_slice());
        let is_s = chars_eq(word.as_slice(), s.as_slice());
        let is_d = chars_eq(word.as_slice(), d.as_slice());
        if is_t || is_s || is_d {
            if i + 1 >= n {
                sc.missing = true;
                sc.done = true;
            } else {
                let value = chars_of(args[i + 1].as_str());
                assert(rest[1] == args@[i + 1]@);
                assert(rest.skip(2) =~= w.skip(i + 2));
                if is_t {
                    sc.tag = value;
                } else if is_s {
                    sc.status = value;
                } else {
                    sc.desc = value;
                }
                sc.i = i + 2;
            }
        } else if chars_eq(word.as_slice(), h.as_slice()) {
            assert(rest.skip(1) =~= w.skip(i + 1));
            sc.help = true;
            sc.i = i + 1;
        } else if chars_eq(word.as_slice(), su.as_slice()) {
            assert(rest.skip(1) =~= w.skip(i + 1));
            sc.summary = true;
            sc.i = i + 1;
        } else if chars_eq(word.as_slice(), nr.as_slice()) {
            assert(rest.skip(1) =~= w.skip(i + 1));
            sc.no_rec = true;
            sc.i = i + 1;
        } else {
            sc.dir = word;
            sc.done = true;
        }
    }
    if !sc.done {
        assert(w.skip(n as int) =~= Seq::<Seq<char>>::empty());
    }
    sc
}

/// The words leave `-t`, `-s` or `-d` without a value: it is the last word, and
/// the scan reaches it. Reading such words fails.
pub fn lacks_flag_value(args: &Vec<String>) -> (r: bool)
    ensures
        r == lacks_value(words_view(args@)),
{
    run_scan(args).missing
}

/// The options that the words after the program name give.
pub fn parse(args: &Vec<String>) -> (r: Arguments)
    requires
        !lacks_value(words_view(args@)),
    ensures
        arguments_of(words_view(args@), r),
{
    let sc = run_scan(args);
    let status = status_from_text(sc.status.as_slice());
    let tag = trim_chars(sc.tag.as_slice());
    let desc = trim_chars(sc.desc.as_slice());
    Arguments {
        help: sc.help,
        summary: sc.summary,
        filter_tag: string_of(tag.as_slice()),
        filter_desc: string_of(desc.as_slice()),
        filter_status: status,
        opt_dir: string_of(sc.dir.as_slice()),
        change_status: (0, None),
        copy_id: 0,
        no_rec: sc.no_rec,
    }
}

} // verus!
