//! File selection and path display: which files are searched, which entries are
//! skipped, and how paths under the home directory are shortened.
use vstd::prelude::*;
use crate::text::{
    chars_eq, chars_of, concat, lines, lines_chars, rsplit_once, rsplit_once_chars, slice_range,
    string_of, trim, trim_chars,
};

verus! {

/// The file extensions that are searched for issues, one per line.
pub const VALID_FILE_EXT: &'static str = "rs
c
h
cpp
hpp
cc
cs
go
java
kt
js
jsx
ts
tsx
py
rb
lua
sh
bash
zsh
fish
swift
php
pl
hs
ml
ex
exs
erl
clj
scala
dart
r
jl
nim
zig
vim
sql
html
css
scss
toml
yaml
yml
json
md
txt
";

/// The searched extensions: the trimmed lines of `VALID_FILE_EXT`.
pub fn get_valid_file_ext() -> (r: Vec<String>)
    ensures
        r@.map_values(|s: String| s@) == lines(VALID_FILE_EXT@).map_values(|l: Seq<char>| trim(l)),
{
    let text = chars_of(VALID_FILE_EXT);
    let ls = lines_chars(text.as_slice());
    let ghost lv = ls@.map_values(|v: Vec<char>| v@);
    let mut r: Vec<String> = Vec::new();
    for i in 0..ls.len()
        invariant
            lv == ls@.map_values(|v: Vec<char>| v@),
            lv == lines(VALID_FILE_EXT@),
            r@.map_values(|s: String| s@) == lv.take(i as int).map_values(|l: Seq<char>| trim(l)),
    {
        let t = trim_chars(ls[i].as_slice());
        let ghost before = r@.map_values(|s: String| s@);
        r.push(string_of(t.as_slice()));
        assert(r@.map_values(|s: String| s@) =~= before.push(trim(lv[i as int])));
        assert(lv.take(i + 1).map_values(|l: Seq<char>| trim(l)) =~= lv.take(i as int).map_values(
            |l: Seq<char>| trim(l),
        ).push(trim(lv[i as int])));
    }
    assert(lv.take(ls.len() as int) =~= lv);
    r
}

/// `Path::extension` of a file name: the text after its last dot, when there is
/// a dot with something before it (so `.bashrc` and `..` have none).
pub open spec fn extension_of(name: Seq<char>) -> Option<Seq<char>> {
    if name == ".."@ {
        None
    } else {
        match rsplit_once(name, '.') {
            Some(parts) => if parts.0.len() == 0 {
                None
            } else {
                Some(parts.1)
            },
            None => None,
        }
    }
}

/// Some word of `words` is `w`.
pub open spec fn holds_word(words: Seq<String>, w: Seq<char>) -> bool {
    exists|j: int| 0 <= j < words.len() && words[j]@ == w
}

/// A file with this name is searched: its extension is one of `exts`.
pub fn has_valid_extension(name: &str, exts: &Vec<String>) -> (r: bool)
    ensures
        r == (extension_of(name@) matches Some(e) && holds_word(exts@, e)),
{
    let n = chars_of(name);
    let dots = chars_of("..");
    if chars_eq(n.as_slice(), dots.as_slice()) {
        return false;
    }
    match rsplit_once_chars(n.as_slice(), '.') {
        None => false,
        Some((before, after)) => {
            if before.len() == 0 {
                false
            } else {
                is_listed(after.as_slice(), exts)
            }
        },
    }
}

/// Some word of `words` is `w`.
fn is_listed(w: &[char], words: &Vec<String>) -> (r: bool)
    ensures
        r == holds_word(words@, w@),
{
    for j in 0..words.len()
        invariant
            forall|m: int| 0 <= m < j ==> words@[m]@ != w@,
    {
        let c = chars_of(words[j].as_str());
        if chars_eq(c.as_slice(), w) {
            return true;
        }
    }
    false
}

/// A directory entry with this name is skipped, together with all that is under
/// it: the name is one of the blacklist.
pub fn should_ignore(name: &str, blacklist: &Vec<String>) -> (r: bool)
    ensures
        r == holds_word(blacklist@, name@),
{
    let n = chars_of(name);
    is_listed(n.as_slice(), blacklist)
}

/// `path` as shown to the user when the home directory is `home`: a path that
/// starts with the home directory has that part replaced by `~`.
pub open spec fn shortened(path: Seq<char>, home: Option<Seq<char>>) -> Seq<char> {
    match home {
        Some(h) => if h.len() <= path.len() && path.take(h.len() as int) == h {
            "~"@ + path.skip(h.len() as int)
        } else {
            path
        },
        None => path,
    }
}

/// `dirs::home_dir`, as text (lossily converted where it is not Unicode).
/// It reads the environment (`HOME`) and the user database, so which directory
/// it gives is not stated; what is stated is that a directory it gives is not
/// the empty text: the source takes `HOME` and the user database's entry only
/// where they are not empty, and a lossy conversion of non-empty text is not
/// empty.
#[verifier::external_body]
pub(crate) fn home_dir_text() -> (r: Option<String>)
    ensures
        r matches Some(h) ==> h@.len() > 0,
{
    match dirs::home_dir() {
        Some(h) => Some(h.to_string_lossy().into_owned()),
        None => None,
    }
}

/// `path` as shown when the home directory is `home` (see `shortened`).
pub fn shorten_path_with_home(path: &str, home: &Option<String>) -> (r: String)
    ensures
        r@ == shortened(
            path@,
            match home {
                Some(h) => Some(h@),
                None => None,
            },
        ),
{
    let p = chars_of(path);
    match home {
        None => string_of(p.as_slice()),
        Some(h) => {
            let hc = chars_of(h.as_str());
            if hc.len() <= p.len() {
                let head = slice_range(p.as_slice(), 0, hc.len());
                if chars_eq(head.as_slice(), hc.as_slice()) {
                    let rest = slice_range(p.as_slice(), hc.len(), p.len());
                    let t = concat(chars_of("~").as_slice(), rest.as_slice());
                    return string_of(t.as_slice());
                }
            }
            string_of(p.as_slice())
        },
    }
}

/// `path` with the home directory of the running user replaced by `~`.
pub fn shorten_path(path: String) -> (r: String)
    ensures
        exists|home: Option<Seq<char>>|
            (home matches Some(h) ==> h.len() > 0) && r@ == shortened(path@, home),
{
    let home = home_dir_text();
    let r = shorten_path_with_home(path.as_str(), &home);
    let ghost h = match home {
        Some(h) => Some(h@),
        None => None,
    };
    assert(r@ == shortened(path@, h));
    r
}

} // verus!
