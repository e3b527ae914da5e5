//! File paths as text: the schema name that a path stands for, and the
//! paths of the files beside it. `/` parts the components of a path.

use crate::text::{chars_of, slice_chars, spells, string_of};
use vstd::prelude::*;

verus! {

/// The place after the last `c` in `s`; 0 where `s` holds no `c`.
pub open spec fn after_last(s: Seq<char>, c: char) -> int
    decreases s.len(),
{
    if s.len() == 0 {
        0
    } else if s.last() == c {
        s.len() as int
    } else {
        after_last(s.drop_last(), c)
    }
}

/// The place after the last `c` lies in the sequence, a `c` stands before
/// it unless it is 0, and no `c` follows it.
pub proof fn lemma_after_last(s: Seq<char>, c: char)
    ensures
        0 <= after_last(s, c) <= s.len(),
        after_last(s, c) > 0 ==> s[after_last(s, c) - 1] == c,
        forall|i: int| after_last(s, c) <= i < s.len() ==> s[i] != c,
    decreases s.len(),
{
    if s.len() > 0 && s.last() != c {
        lemma_after_last(s.drop_last(), c);
        assert forall|i: int| after_last(s, c) <= i < s.len() implies s[i] != c by {
            if i < s.len() - 1 {
                assert(s.drop_last()[i] == s[i]);
            }
        }
    }
}

/// The path up to and with its last `/`: the directory of the file, as a
/// prefix for the names of the files beside it.
pub open spec fn directory_prefix(path: Seq<char>) -> Seq<char> {
    path.take(after_last(path, '/'))
}

/// The last component of a path.
pub open spec fn file_name(path: Seq<char>) -> Seq<char> {
    path.skip(after_last(path, '/'))
}

/// A file name without its extension: what stands before the last `.`,
/// unless no `.` follows the first character.
pub open spec fn file_stem(name: Seq<char>) -> Seq<char> {
    if after_last(name, '.') <= 1 {
        name
    } else {
        name.take(after_last(name, '.') - 1)
    }
}

/// The schema name that a path stands for: the last component without its
/// extension. A path that ends in `/`, `.` or `..` names no file.
pub open spec fn schema_name_of(path: Seq<char>) -> Option<Seq<char>> {
    let name = file_name(path);
    if name.len() == 0 || name == "."@ || name == ".."@ {
        None
    } else {
        Some(file_stem(name))
    }
}

/// The path of the file of the schema `name` in the directory `prefix`.
pub open spec fn csv_path(prefix: Seq<char>, name: Seq<char>) -> Seq<char> {
    prefix + name + ".csv"@
}

/// Different schemas have different files.
pub proof fn lemma_csv_path_injective(prefix: Seq<char>, a: Seq<char>, b: Seq<char>)
    requires
        csv_path(prefix, a) == csv_path(prefix, b),
    ensures
        a == b,
{
    let ext = ".csv"@;
    let pa = csv_path(prefix, a);
    let pb = csv_path(prefix, b);
    assert(pa.len() == prefix.len() + a.len() + ext.len());
    assert(pb.len() == prefix.len() + b.len() + ext.len());
    assert(a =~= pa.subrange(prefix.len() as int, (prefix.len() + a.len()) as int));
    assert(b =~= pb.subrange(prefix.len() as int, (prefix.len() + b.len()) as int));
}

/// The place after the last `c` in `s`; 0 where `s` holds no `c`.
pub fn after_last_index(s: &Vec<char>, c: char) -> (r: usize)
    ensures
        r == after_last(s@, c),
{
    let mut i: usize = s.len();
    assert(s@.take(i as int) =~= s@);
    while i > 0
        invariant
            i <= s.len(),
            after_last(s@, c) == after_last(s@.take(i as int), c),
        decreases i,
    {
        if s[i - 1] == c {
            assert(s@.take(i as int).last() == c);
            return i;
        }
        proof {
            assert(s@.take(i as int).drop_last() =~= s@.take(i - 1));
        }
        i = i - 1;
    }
    i
}

/// The path up to and with its last `/`.
pub fn directory_prefix_chars(path: &Vec<char>) -> (r: Vec<char>)
    ensures
        r@ == directory_prefix(path@),
{
    proof {
        lemma_after_last(path@, '/');
    }
    let cut = after_last_index(path, '/');
    let r = slice_chars(path, 0, cut);
    assert(r@ =~= path@.take(cut as int));
    r
}

/// The schema name that a path stands for.
pub fn schema_name_chars(path: &Vec<char>) -> (r: Option<Vec<char>>)
    ensures
        r.is_some() == schema_name_of(path@).is_some(),
        r.is_some() ==> r.unwrap()@ == schema_name_of(path@).unwrap(),
{
    proof {
        lemma_after_last(path@, '/');
    }
    let cut = after_last_index(path, '/');
    let name = slice_chars(path, cut, path.len());
    assert(name@ =~= file_name(path@));
    if name.len() == 0 || spells(&name, ".") || spells(&name, "..") {
        return None;
    }
    proof {
        lemma_after_last(name@, '.');
    }
    let dot = after_last_index(&name, '.');
    if dot <= 1 {
        Some(name)
    } else {
        let stem = slice_chars(&name, 0, dot - 1);
        assert(stem@ =~= name@.take(dot - 1));
        Some(stem)
    }
}

/// The path of the file of the schema `name` in the directory `prefix`.
pub fn csv_path_chars(prefix: &Vec<char>, name: &Vec<char>) -> (r: Vec<char>)
    ensures
        r@ == csv_path(prefix@, name@),
{
    let mut r: Vec<char> = Vec::new();
    append_chars(&mut r, prefix);
    append_chars(&mut r, name);
    let ext = chars_of(".csv");
    append_chars(&mut r, &ext);
    assert(r@ =~= csv_path(prefix@, name@));
    r
}

/// Writes `tail` after what `out` holds.
pub fn append_chars(out: &mut Vec<char>, tail: &Vec<char>)
    ensures
        final(out)@ == old(out)@ + tail@,
{
    let mut i: usize = 0;
    while i < tail.len()
        invariant
            i <= tail.len(),
            out@ =~= old(out)@ + tail@.take(i as int),
        decreases tail.len() - i,
    {
        out.push(tail[i]);
        i = i + 1;
    }
    assert(tail@.take(i as int) =~= tail@);
}

/// The schema name that a file path stands for: the name of the file
/// without its extension.
pub fn extract_schema_name_from_path(path: &str) -> (r: Option<String>)
    ensures
        r.is_some() == schema_name_of(path@).is_some(),
        r.is_some() ==> r.unwrap()@ == schema_name_of(path@).unwrap(),
{
    match schema_name_chars(&chars_of(path)) {
        Some(name) => Some(string_of(&name)),
        None => None,
    }
}

/// The directory of a file as a prefix for the names of the files beside
/// it: the path up to and with its last `/`.
pub fn directory_prefix_of(path: &str) -> (r: String)
    ensures
        r@ == directory_prefix(path@),
{
    string_of(&directory_prefix_chars(&chars_of(path)))
}

/// The path of the file of the schema `name` beside the file `entry_path`.
pub fn sibling_csv_path(entry_path: &str, name: &str) -> (r: String)
    ensures
        r@ == csv_path(directory_prefix(entry_path@), name@),
{
    let prefix = directory_prefix_chars(&chars_of(entry_path));
    string_of(&csv_path_chars(&prefix, &chars_of(name)))
}

} // verus!
