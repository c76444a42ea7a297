//! Character-level text handling: the views of `str` and `String` as `Seq<char>`
//! and the string operations that the issue tracker relies on, each stated over
//! `Seq<char>` and implemented over vectors of characters.
use vstd::prelude::*;

verus! {

// ---------------------------------------------------------------------------
// Specifications
// ---------------------------------------------------------------------------

/// `char::is_whitespace`: the Unicode `White_Space` property.
pub open spec fn is_ws(c: char) -> bool {
    let u = c as u32;
    ||| 0x9 <= u <= 0xd
    ||| u == 0x20
    ||| u == 0x85
    ||| u == 0xa0
    ||| u == 0x1680
    ||| 0x2000 <= u <= 0x200a
    ||| u == 0x2028
    ||| u == 0x2029
    ||| u == 0x202f
    ||| u == 0x205f
    ||| u == 0x3000
}

/// `str::trim_start`: drops the leading whitespace.
pub open spec fn trim_start(s: Seq<char>) -> Seq<char>
    decreases s.len(),
{
    if s.len() > 0 && is_ws(s[0]) {
        trim_start(s.drop_first())
    } else {
        s
    }
}

/// `str::trim_end`: drops the trailing whitespace.
pub open spec fn trim_end(s: Seq<char>) -> Seq<char>
    decreases s.len(),
{
    if s.len() > 0 && is_ws(s.last()) {
        trim_end(s.drop_last())
    } else {
        s
    }
}

/// `str::trim`: drops leading and trailing whitespace.
pub open spec fn trim(s: Seq<char>) -> Seq<char> {
    trim_end(trim_start(s))
}

/// `p` occurs in `s` starting at index `i`.
pub open spec fn occurs_at(s: Seq<char>, p: Seq<char>, i: int) -> bool {
    0 <= i && i + p.len() <= s.len() && s.subrange(i, i + p.len()) == p
}

/// The first index at or after `i` where `p` occurs in `s` (`str::find` from `i`).
pub open spec fn find_from(s: Seq<char>, p: Seq<char>, i: nat) -> Option<nat>
    decreases s.len() - i,
{
    if i + p.len() > s.len() {
        None
    } else if s.subrange(i as int, (i + p.len()) as int) == p {
        Some(i)
    } else {
        proof {
            if p.len() == 0 {
                assert(s.subrange(i as int, i as int) =~= p);
            }
        }
        find_from(s, p, i + 1)
    }
}

/// `str::find`: the index of the first occurrence of `p` in `s`.
pub open spec fn find(s: Seq<char>, p: Seq<char>) -> Option<nat> {
    find_from(s, p, 0)
}

/// `str::contains`: `p` occurs somewhere in `s`.
pub open spec fn contains(s: Seq<char>, p: Seq<char>) -> bool {
    find(s, p) is Some
}

/// `str::split` on one character: the pieces between the separators.
pub open spec fn split(s: Seq<char>, c: char) -> Seq<Seq<char>>
    decreases s.len(),
{
    if s.len() == 0 {
        seq![Seq::empty()]
    } else {
        let r = split(s.drop_last(), c);
        if s.last() == c {
            r.push(Seq::empty())
        } else {
            r.update(r.len() - 1, r.last().push(s.last()))
        }
    }
}

/// `str::split_once` on one character: the text before and after its first occurrence.
pub open spec fn split_once(s: Seq<char>, c: char) -> Option<(Seq<char>, Seq<char>)> {
    match find(s, seq![c]) {
        Some(i) => Some((s.take(i as int), s.skip((i + 1) as int))),
        None => None,
    }
}

/// The index of the last occurrence of `c` in `s`.
pub open spec fn rfind_char(s: Seq<char>, c: char) -> Option<nat>
    decreases s.len(),
{
    if s.len() == 0 {
        None
    } else if s.last() == c {
        Some((s.len() - 1) as nat)
    } else {
        rfind_char(s.drop_last(), c)
    }
}

/// `str::rsplit_once` on one character: the text before and after its last occurrence.
pub open spec fn rsplit_once(s: Seq<char>, c: char) -> Option<(Seq<char>, Seq<char>)> {
    match rfind_char(s, c) {
        Some(i) => Some((s.take(i as int), s.skip((i + 1) as int))),
        None => None,
    }
}

/// Drops one trailing carriage return.
pub open spec fn strip_cr(s: Seq<char>) -> Seq<char> {
    if s.len() > 0 && s.last() == '\r' {
        s.drop_last()
    } else {
        s
    }
}

/// `str::lines`: the lines of `s`, split at `\n` or `\r\n`; a final line
/// ending yields no extra empty line, and a bare `\r` at the very end stays.
pub open spec fn lines(s: Seq<char>) -> Seq<Seq<char>> {
    let parts = split(s, '\n');
    let ended = parts.drop_last().map_values(|l: Seq<char>| strip_cr(l));
    if parts.last().len() == 0 {
        ended
    } else {
        ended.push(parts.last())
    }
}

/// `char::to_ascii_lowercase`.
pub open spec fn lower(c: char) -> char {
    if 'A' <= c <= 'Z' {
        ((c as u32) + 32) as char
    } else {
        c
    }
}

/// Every character of `s` lowered with `lower`.
pub open spec fn lower_all(s: Seq<char>) -> Seq<char> {
    s.map_values(|c: char| lower(c))
}

/// The character of a decimal digit.
pub open spec fn digit_char(d: nat) -> char {
    ((d + 48) as u32) as char
}

/// `c` is one of `0`..=`9`.
pub open spec fn is_digit(c: char) -> bool {
    '0' <= c <= '9'
}

/// The value of a decimal digit.
pub open spec fn digit_value(c: char) -> nat {
    ((c as u32) - 48) as nat
}

/// The number that a string of decimal digits denotes.
pub open spec fn digits_value(d: Seq<char>) -> nat
    decreases d.len(),
{
    if d.len() == 0 {
        0
    } else {
        digits_value(d.drop_last()) * 10 + digit_value(d.last())
    }
}

/// The text after an optional leading `+`.
pub open spec fn unsigned_part(s: Seq<char>) -> Seq<char> {
    if s.len() > 0 && s[0] == '+' {
        s.drop_first()
    } else {
        s
    }
}

/// One or more decimal digits whose value fits in a `u32`.
pub open spec fn parse_digits(d: Seq<char>) -> Option<u32> {
    if d.len() > 0 && (forall|i: int| 0 <= i < d.len() ==> is_digit(#[trigger] d[i]))
        && digits_value(d) <= u32::MAX {
        Some(digits_value(d) as u32)
    } else {
        None
    }
}

/// `u32::from_str`: an optional `+`, then one or more decimal digits whose value fits.
pub open spec fn parse_u32(s: Seq<char>) -> Option<u32> {
    parse_digits(unsigned_part(s))
}

/// The decimal text of a natural number, as `Display` writes it.
pub open spec fn decimal(n: nat) -> Seq<char>
    decreases n,
{
    if n < 10 {
        seq![digit_char(n)]
    } else {
        decimal(n / 10).push(digit_char(n % 10))
    }
}

/// The decimal text of an integer, with a leading `-` when it is negative.
pub open spec fn signed_decimal(n: int) -> Seq<char> {
    if n < 0 {
        seq!['-'] + decimal((-n) as nat)
    } else {
        decimal(n as nat)
    }
}

/// `c` does not occur in `s`.
pub open spec fn free_of(s: Seq<char>, c: char) -> bool {
    forall|j: int| 0 <= j < s.len() ==> s[j] != c
}

/// Splitting text that holds no separator gives the text itself.
pub proof fn lemma_split_free(b: Seq<char>, c: char)
    requires
        free_of(b, c),
    ensures
        split(b, c) == seq![b],
    decreases b.len(),
{
    if b.len() > 0 {
        assert(free_of(b.drop_last(), c));
        lemma_split_free(b.drop_last(), c);
        assert(b.drop_last().push(b.last()) =~= b);
    } else {
        assert(b =~= Seq::<char>::empty());
    }
}

/// Splitting `a`, a separator, then text free of separators gives the pieces of
/// `a` followed by that text.
pub proof fn lemma_split_after_sep(a: Seq<char>, b: Seq<char>, c: char)
    requires
        free_of(b, c),
    ensures
        split(a + seq![c] + b, c) == split(a, c).push(b),
    decreases b.len(),
{
    if b.len() == 0 {
        assert(a + seq![c] + b =~= a.push(c));
        assert(a.push(c).drop_last() =~= a);
        assert(b =~= Seq::<char>::empty());
    } else {
        let b0 = b.drop_last();
        assert(b0.push(b.last()) =~= b);
        assert(free_of(b0, c));
        lemma_split_after_sep(a, b0, c);
        assert((a + seq![c] + b).drop_last() =~= a + seq![c] + b0);
        assert((a + seq![c] + b).last() == b.last());
        assert(split(a, c).push(b0).update(split(a, c).len() as int, b0.push(b.last())) =~= split(
            a,
            c,
        ).push(b));
    }
}

/// No piece of a split holds the separator.
pub proof fn lemma_split_pieces_free(s: Seq<char>, c: char)
    ensures
        forall|i: int| 0 <= i < split(s, c).len() ==> free_of(#[trigger] split(s, c)[i], c),
        split(s, c).len() >= 1,
    decreases s.len(),
{
    if s.len() > 0 {
        lemma_split_pieces_free(s.drop_last(), c);
        let r = split(s.drop_last(), c);
        if s.last() != c {
            assert forall|i: int| 0 <= i < split(s, c).len() implies free_of(
                #[trigger] split(s, c)[i],
                c,
            ) by {
                if i == r.len() - 1 {
                    assert(free_of(r[i], c));
                    assert(split(s, c)[i] =~= r[i].push(s.last()));
                }
            }
        }
    }
}

/// No line holds a line feed.
pub proof fn lemma_lines_free(s: Seq<char>)
    ensures
        forall|i: int| 0 <= i < lines(s).len() ==> free_of(#[trigger] lines(s)[i], '\n'),
{
    lemma_split_pieces_free(s, '\n');
    let parts = split(s, '\n');
    assert forall|i: int| 0 <= i < lines(s).len() implies free_of(#[trigger] lines(s)[i], '\n') by {
        if i < parts.len() - 1 {
            assert(lines(s)[i] == strip_cr(parts[i]));
            assert(free_of(parts[i], '\n'));
        } else {
            assert(lines(s)[i] == parts.last());
        }
    }
}

// ---------------------------------------------------------------------------
// Conversions
// ---------------------------------------------------------------------------

/// Appends one character to a `String` (`String::push`).
#[verifier::external_body]
fn string_push(s: &mut String, c: char)
    ensures
        final(s)@ == old(s)@.push(c),
{
    s.push(c);
}

/// The characters of a string slice, in order.
pub fn chars_of(s: &str) -> (v: Vec<char>)
    ensures
        v@ == s@,
{
    let mut v: Vec<char> = Vec::new();
    for c in it: s.chars()
        invariant
            v@ == it.seq().take(it.index() as int),
    {
        v.push(c);
    }
    v
}

/// A `String` holding exactly the given characters.
pub fn string_of(v: &[char]) -> (s: String)
    ensures
        s@ == v@,
{
    let mut s = String::new();
    for i in 0..v.len()
        invariant
            s@ == v@.take(i as int),
    {
        string_push(&mut s, v[i]);
        assert(v@.take(i as int).push(v@[i as int]) =~= v@.take(i + 1));
    }
    assert(v@.take(v.len() as int) =~= v@);
    s
}

/// The characters `s[a..b]`.
pub fn slice_range(s: &[char], a: usize, b: usize) -> (r: Vec<char>)
    requires
        a <= b <= s@.len(),
    ensures
        r@ == s@.subrange(a as int, b as int),
{
    let mut r: Vec<char> = Vec::new();
    let mut i = a;
    while i < b
        invariant
            a <= i <= b <= s@.len(),
            r@ == s@.subrange(a as int, i as int),
        decreases b - i,
    {
        r.push(s[i]);
        assert(s@.subrange(a as int, i as int).push(s@[i as int]) =~= s@.subrange(
            a as int,
            i + 1,
        ));
        i += 1;
    }
    r
}

/// The characters of `a` followed by those of `b`.
pub fn concat(a: &[char], b: &[char]) -> (r: Vec<char>)
    ensures
        r@ == a@ + b@,
{
    let mut r = slice_range(a, 0, a.len());
    assert(a@.subrange(0, a@.len() as int) =~= a@);
    for i in 0..b.len()
        invariant
            r@ == a@ + b@.take(i as int),
    {
        r.push(b[i]);
        assert(a@ + b@.take(i as int).push(b@[i as int]) =~= a@ + b@.take(i + 1));
    }
    assert(b@.take(b.len() as int) =~= b@);
    r
}

/// Two character sequences are equal.
pub fn chars_eq(a: &[char], b: &[char]) -> (r: bool)
    ensures
        r == (a@ == b@),
{
    if a.len() != b.len() {
        return false;
    }
    for i in 0..a.len()
        invariant
            a@.len() == b@.len(),
            forall|j: int| 0 <= j < i ==> a@[j] == b@[j],
    {
        if a[i] != b[i] {
            return false;
        }
    }
    assert(a@ =~= b@);
    true
}

// ---------------------------------------------------------------------------
// Operations
// ---------------------------------------------------------------------------

/// `char::is_whitespace`.
pub fn is_whitespace(c: char) -> (r: bool)
    ensures
        r == is_ws(c),
{
    let u = c as u32;
    (0x9 <= u && u <= 0xd) || u == 0x20 || u == 0x85 || u == 0xa0 || u == 0x1680 || (0x2000 <= u
        && u <= 0x200a) || u == 0x2028 || u == 0x2029 || u == 0x202f || u == 0x205f || u == 0x3000
}

proof fn lemma_trim_start_skip(s: Seq<char>, i: int)
    requires
        0 <= i < s.len(),
        is_ws(s[i]),
    ensures
        trim_start(s.skip(i)) == trim_start(s.skip(i + 1)),
{
    assert(s.skip(i).drop_first() =~= s.skip(i + 1));
}

proof fn lemma_trim_end_take(s: Seq<char>, j: int)
    requires
        0 < j <= s.len(),
        is_ws(s[j - 1]),
    ensures
        trim_end(s.take(j)) == trim_end(s.take(j - 1)),
{
    assert(s.take(j).drop_last() =~= s.take(j - 1));
}

/// `str::trim` on characters.
pub fn trim_chars(s: &[char]) -> (r: Vec<char>)
    ensures
        r@ == trim(s@),
{
    let mut i: usize = 0;
    assert(s@.skip(0) =~= s@);
    while i < s.len() && is_whitespace(s[i])
        invariant
            i <= s@.len(),
            trim_start(s@) == trim_start(s@.skip(i as int)),
        decreases s@.len() - i,
    {
        proof {
            lemma_trim_start_skip(s@, i as int);
        }
        i += 1;
    }
    let ghost start = s@.skip(i as int);
    assert(trim_start(start) == start);
    let mut j: usize = s.len();
    assert(start.take(start.len() as int) =~= start);
    while j > i && is_whitespace(s[j - 1])
        invariant
            i <= j <= s@.len(),
            start == s@.skip(i as int),
            trim_end(start) == trim_end(start.take(j - i)),
        decreases j,
    {
        proof {
            lemma_trim_end_take(start, (j - i) as int);
        }
        j -= 1;
    }
    assert(start.take(j - i) =~= s@.subrange(i as int, j as int));
    slice_range(s, i, j)
}

/// `p` occurs in `s` at index `i`.
pub fn occurs_at_exec(s: &[char], p: &[char], i: usize) -> (r: bool)
    requires
        i + p@.len() <= s@.len(),
    ensures
        r == (s@.subrange(i as int, i + p@.len()) == p@),
{
    let n = s.len();
    for k in 0..p.len()
        invariant
            i + p@.len() <= s@.len(),
            n == s@.len(),
            k <= p@.len(),
            forall|m: int| 0 <= m < k ==> s@[i + m] == p@[m],
    {
        if s[i + k] != p[k] {
            assert(s@.subrange(i as int, i + p@.len())[k as int] != p@[k as int]);
            return false;
        }
    }
    assert(s@.subrange(i as int, i + p@.len()) =~= p@);
    true
}

/// `str::find` on characters.
pub fn find_chars(s: &[char], p: &[char]) -> (r: Option<usize>)
    ensures
        match r {
            Some(i) => find(s@, p@) == Some(i as nat),
            None => find(s@, p@) is None,
        },
{
    if p.len() > s.len() {
        return None;
    }
    if p.len() == 0 {
        assert(s@.subrange(0, 0) =~= p@);
        return Some(0);
    }
    let mut i: usize = 0;
    let n = s.len();
    while i <= n - p.len()
        invariant
            n == s@.len(),
            1 <= p@.len() <= s@.len(),
            i + p@.len() <= s@.len() + 1,
            find(s@, p@) == find_from(s@, p@, i as nat),
        decreases s@.len() + 1 - i,
    {
        if occurs_at_exec(s, p, i) {
            return Some(i);
        }
        i += 1;
    }
    None
}

/// `str::contains` on characters.
pub fn contains_chars(s: &[char], p: &[char]) -> (r: bool)
    ensures
        r == contains(s@, p@),
{
    find_chars(s, p).is_some()
}

/// `str::split` on one character.
pub fn split_chars(s: &[char], c: char) -> (r: Vec<Vec<char>>)
    ensures
        r@.map_values(|v: Vec<char>| v@) == split(s@, c),
{
    let mut done: Vec<Vec<char>> = Vec::new();
    let mut cur: Vec<char> = Vec::new();
    assert(s@.take(0) =~= Seq::<char>::empty());
    assert(done@.map_values(|v: Vec<char>| v@).push(cur@) =~= split(s@.take(0), c));
    for i in 0..s.len()
        invariant
            done@.map_values(|v: Vec<char>| v@).push(cur@) == split(s@.take(i as int), c),
    {
        let ghost before = s@.take(i as int);
        assert(s@.take(i + 1).drop_last() =~= before);
        proof {
            lemma_split_pieces_free(before, c);
        }
        if s[i] == c {
            let mut piece: Vec<char> = Vec::new();
            std::mem::swap(&mut piece, &mut cur);
            done.push(piece);
            assert(done@.map_values(|v: Vec<char>| v@) =~= split(before, c));
            assert(done@.map_values(|v: Vec<char>| v@).push(cur@) =~= split(
                s@.take(i + 1),
                c,
            ));
        } else {
            cur.push(s[i]);
            assert(done@.map_values(|v: Vec<char>| v@).push(cur@) =~= split(
                s@.take(i + 1),
                c,
            ));
        }
    }
    assert(s@.take(s.len() as int) =~= s@);
    done.push(cur);
    done
}

/// `str::split_once` on one character.
pub fn split_once_chars(s: &[char], c: char) -> (r: Option<(Vec<char>, Vec<char>)>)
    ensures
        match (r, split_once(s@, c)) {
            (Some((a, b)), Some((x, y))) => a@ == x && b@ == y,
            (None, None) => true,
            _ => false,
        },
{
    let pat = vec![c];
    assert(pat@ =~= seq![c]);
    let n = s.len();
    match find_chars(s, pat.as_slice()) {
        Some(i) => {
            proof {
                lemma_find_bounds(s@, seq![c], 0);
            }
            assert(i + 1 <= s@.len());
            let a = slice_range(s, 0, i);
            let b = slice_range(s, i + 1, n);
            assert(a@ =~= s@.take(i as int));
            assert(b@ =~= s@.skip(i + 1));
            Some((a, b))
        },
        None => None,
    }
}

/// A found occurrence lies inside the text, at or after the start of the search.
pub proof fn lemma_find_bounds(s: Seq<char>, p: Seq<char>, i: nat)
    ensures
        find_from(s, p, i) matches Some(k) ==> i <= k && k + p.len() <= s.len() && s.subrange(
            k as int,
            (k + p.len()) as int,
        ) == p,
    decreases s.len() - i,
{
    if i + p.len() > s.len() {
    } else if s.subrange(i as int, (i + p.len()) as int) == p {
    } else {
        if p.len() == 0 {
            assert(s.subrange(i as int, i as int) =~= p);
        }
        lemma_find_bounds(s, p, i + 1);
    }
}

/// `find_from` finds an occurrence at or before any given one.
pub proof fn lemma_find_some(s: Seq<char>, p: Seq<char>, i: nat, k: int)
    requires
        i <= k,
        occurs_at(s, p, k),
    ensures
        find_from(s, p, i) matches Some(m) && m <= k,
    decreases s.len() - i,
{
    if s.subrange(i as int, (i + p.len()) as int) != p {
        if i == k {
        } else {
            lemma_find_some(s, p, i + 1, k);
        }
    }
}

/// `find_from` finds nothing where nothing occurs.
pub proof fn lemma_find_none(s: Seq<char>, p: Seq<char>, i: nat)
    requires
        forall|j: int| i <= j ==> !occurs_at(s, p, j),
    ensures
        find_from(s, p, i) is None,
    decreases s.len() - i,
{
    if i + p.len() <= s.len() {
        assert(!occurs_at(s, p, i as int));
        if p.len() == 0 {
            assert(s.subrange(i as int, i as int) =~= p);
        }
        lemma_find_none(s, p, i + 1);
    }
}

/// What `find_from` finds is the first occurrence from `i` on.
pub proof fn lemma_find_first(s: Seq<char>, p: Seq<char>, i: nat)
    ensures
        find_from(s, p, i) matches Some(m) ==> occurs_at(s, p, m as int) && i <= m && forall|j: int|
            i <= j < m ==> !occurs_at(s, p, j),
    decreases s.len() - i,
{
    if i + p.len() > s.len() {
    } else if s.subrange(i as int, (i + p.len()) as int) == p {
    } else {
        if p.len() == 0 {
            assert(s.subrange(i as int, i as int) =~= p);
        }
        lemma_find_first(s, p, i + 1);
    }
}

/// `str::rsplit_once` on one character.
pub fn rsplit_once_chars(s: &[char], c: char) -> (r: Option<(Vec<char>, Vec<char>)>)
    ensures
        match (r, rsplit_once(s@, c)) {
            (Some((a, b)), Some((x, y))) => a@ == x && b@ == y,
            (None, None) => true,
            _ => false,
        },
{
    let mut j: usize = s.len();
    assert(s@.take(j as int) =~= s@);
    while j > 0 && s[j - 1] != c
        invariant
            j <= s@.len(),
            rfind_char(s@, c) == rfind_char(s@.take(j as int), c),
        decreases j,
    {
        assert(s@.take(j as int).drop_last() =~= s@.take(j - 1));
        j -= 1;
    }
    if j == 0 {
        assert(s@.take(0) =~= Seq::<char>::empty());
        None
    } else {
        let a = slice_range(s, 0, j - 1);
        let b = slice_range(s, j, s.len());
        assert(a@ =~= s@.take(j - 1));
        assert(b@ =~= s@.skip(j as int));
        Some((a, b))
    }
}

/// Drops one trailing carriage return.
fn strip_cr_chars(v: Vec<char>) -> (r: Vec<char>)
    ensures
        r@ == strip_cr(v@),
{
    let mut v = v;
    if v.len() > 0 && v[v.len() - 1] == '\r' {
        v.pop();
    }
    v
}

/// `str::lines` on characters.
pub fn lines_chars(s: &[char]) -> (r: Vec<Vec<char>>)
    ensures
        r@.map_values(|v: Vec<char>| v@) == lines(s@),
{
    let parts = split_chars(s, '\n');
    let ghost pv = parts@.map_values(|v: Vec<char>| v@);
    proof {
        lemma_split_pieces_free(s@, '\n');
    }
    let n = parts.len();
    let mut out: Vec<Vec<char>> = Vec::new();
    let mut last: Vec<char> = Vec::new();
    let mut k: usize = 0;
    for piece in it: parts.into_iter()
        invariant
            k == it.index(),
            n == pv.len(),
            n >= 1,
            pv == it.seq().map_values(|v: Vec<char>| v@),
            it.index() < n ==> out@.map_values(|v: Vec<char>| v@) == pv.take(
                it.index() as int,
            ).map_values(|l: Seq<char>| strip_cr(l)),
            it.index() == n ==> out@.map_values(|v: Vec<char>| v@) == pv.drop_last().map_values(
                |l: Seq<char>| strip_cr(l),
            ) && last@ == pv.last(),
    {
        assert(piece == it.seq()[k as int]);
        if k + 1 < n {
            let ghost before = out@.map_values(|v: Vec<char>| v@);
            assert(k < n);
            assert(before == pv.take(k as int).map_values(|l: Seq<char>| strip_cr(l)));
            let l = strip_cr_chars(piece);
            assert(l@ == strip_cr(pv[k as int]));
            out.push(l);
            assert(out@.map_values(|v: Vec<char>| v@) =~= before.push(l@));
            assert(out@.map_values(|v: Vec<char>| v@) =~= pv.take(k + 1).map_values(
                |l: Seq<char>| strip_cr(l),
            ));
            if k + 2 == n {
                assert(pv.take(k + 1) =~= pv.drop_last());
            }
        } else {
            last = piece;
            assert(pv.take(k as int) =~= pv.drop_last());
        }
        k += 1;
    }
    if last.len() > 0 {
        out.push(last);
        assert(out@.map_values(|v: Vec<char>| v@) =~= lines(s@));
    } else {
        assert(out@.map_values(|v: Vec<char>| v@) =~= lines(s@));
    }
    out
}

/// `char::to_ascii_lowercase`.
pub fn lower_char(c: char) -> (r: char)
    ensures
        r == lower(c),
{
    if 'A' <= c && c <= 'Z' {
        let u = (c as u32) + 32;
        let b = u as u8;
        assert(b as u32 == u);
        b as char
    } else {
        c
    }
}

/// Every character lowered with `lower_char`.
pub fn lower_chars(s: &[char]) -> (r: Vec<char>)
    ensures
        r@ == lower_all(s@),
{
    let mut r: Vec<char> = Vec::new();
    for i in 0..s.len()
        invariant
            r@ == lower_all(s@.take(i as int)),
    {
        r.push(lower_char(s[i]));
        assert(lower_all(s@.take(i + 1)) =~= lower_all(s@.take(i as int)).push(lower(s@[i as int])));
    }
    assert(s@.take(s.len() as int) =~= s@);
    r
}

/// `u32::from_str` on characters.
pub fn parse_u32_chars(s: &[char]) -> (r: Option<u32>)
    ensures
        r == parse_u32(s@),
{
    let start: usize = if s.len() > 0 && s[0] == '+' { 1 } else { 0 };
    let ghost d = unsigned_part(s@);
    assert(d =~= s@.skip(start as int));
    if start == s.len() {
        return None;
    }
    let mut v: u64 = 0;
    let mut over = false;
    let mut i = start;
    assert(d.take(0) =~= Seq::<char>::empty());
    while i < s.len()
        invariant
            start <= i <= s@.len(),
            d == s@.skip(start as int),
            d == unsigned_part(s@),
            v <= u32::MAX,
            forall|j: int| 0 <= j < i - start ==> is_digit(#[trigger] d[j]),
            !over ==> v == digits_value(d.take(i - start)),
            over ==> digits_value(d.take(i - start)) > u32::MAX,
        decreases s@.len() - i,
    {
        let c = s[i];
        if !('0' <= c && c <= '9') {
            assert(c == d[i - start]);
            assert(!is_digit(d[i - start]));
            return None;
        }
        let dv = (c as u32 - 48) as u64;
        let ghost prev = d.take(i - start);
        assert(d.take(i + 1 - start).drop_last() =~= prev);
        assert(digits_value(d.take(i + 1 - start)) == digits_value(prev) * 10 + dv);
        if over {
            assert(digits_value(prev) * 10 + dv > u32::MAX) by (nonlinear_arith)
                requires
                    digits_value(prev) > u32::MAX,
            ;
        } else {
            assert(v * 10 + dv <= 10 * 0xffff_ffffu64 + 9) by (nonlinear_arith)
                requires
                    v <= 0xffff_ffffu64,
                    dv <= 9,
            ;
            let w = v * 10 + dv;
            if w > 0xffff_ffffu64 {
                over = true;
            } else {
                v = w;
            }
        }
        i += 1;
    }
    assert(d.take(s@.len() - start) =~= d);
    if over {
        None
    } else {
        Some(v as u32)
    }
}

/// The decimal text of `n`.
pub fn decimal_chars(n: u64) -> (r: Vec<char>)
    ensures
        r@ == decimal(n as nat),
    decreases n,
{
    if n < 10 {
        vec![digit(n)]
    } else {
        let mut r = decimal_chars(n / 10);
        r.push(digit(n % 10));
        r
    }
}

fn digit(d: u64) -> (c: char)
    requires
        d < 10,
    ensures
        c == digit_char(d as nat),
{
    let b = (d as u8) + 48;
    b as char
}

/// The decimal text of `n`, with a leading `-` when it is negative.
pub fn signed_decimal_chars(n: i64) -> (r: Vec<char>)
    ensures
        r@ == signed_decimal(n as int),
{
    if n < 0 {
        let m: u64 = if n == i64::MIN { 0x8000_0000_0000_0000u64 } else { (-n) as u64 };
        let digits = decimal_chars(m);
        concat(&['-'], digits.as_slice())
    } else {
        decimal_chars(n as u64)
    }
}

} // verus!
