//! The CSV files that a resolution pass reads: a directory held in memory,
//! and the reader that splits the bytes of a file into rows of cells.

use crate::text::{chars_equal, chars_of, texts};
use vstd::prelude::*;

verus! {

/// The rows of cells that the CSV reader makes of the bytes of a file, read
/// without a header row and with all rows of one width; `None` where the
/// reader fails.
pub uninterp spec fn csv_records(data: Seq<u8>) -> Option<Seq<Seq<Seq<char>>>>;

/// The rows of cells that a list of rows holds.
pub open spec fn table(rows: Seq<Vec<Vec<char>>>) -> Seq<Seq<Seq<char>>> {
    Seq::new(rows.len(), |i: int| texts(rows[i]@))
}

/// Reads all records of a CSV file with `csv::ReaderBuilder` (no header
/// row), `Reader::records` and `StringRecord::iter`. The rows and the
/// failure depend on the bytes alone; they are what `csv_records` names.
#[verifier::external_body]
pub(crate) fn read_records(data: &[u8]) -> (r: Result<Vec<Vec<Vec<char>>>, csv::Error>)
    ensures
        match r {
            Ok(rows) => csv_records(data@) == Some(table(rows@)),
            Err(_) => csv_records(data@).is_none(),
        },
{
    let mut reader = csv::ReaderBuilder::new().has_headers(false).from_reader(data);
    let mut rows = Vec::new();
    for record in reader.records() {
        rows.push(record?.iter().map(|cell| cell.chars().collect()).collect());
    }
    Ok(rows)
}

/// A directory of CSV files held in memory: the bytes of each file under
/// its path. A path is stored once.
pub struct CsvDirectory {
    files: Vec<CsvFile>,
}

/// One file of a directory.
struct CsvFile {
    path: Vec<char>,
    data: Vec<u8>,
}

impl View for CsvDirectory {
    type V = Map<Seq<char>, Seq<u8>>;

    closed spec fn view(&self) -> Map<Seq<char>, Seq<u8>> {
        Map::new(
            |p: Seq<char>| self.paths().contains(p),
            |p: Seq<char>| self.files@[self.paths().index_of(p)].data@,
        )
    }
}

impl CsvDirectory {
    /// The stored paths, in the order in which they were added.
    closed spec fn paths(&self) -> Seq<Seq<char>> {
        Seq::new(self.files@.len(), |i: int| self.files@[i].path@)
    }

    /// No path is stored twice.
    #[verifier::type_invariant]
    pub closed spec fn wf(&self) -> bool {
        self.paths().no_duplicates()
    }

    /// A directory holds finitely many files.
    pub proof fn lemma_finite(&self)
        ensures
            self@.dom().finite(),
    {
        vstd::seq_lib::seq_to_set_is_finite(self.paths());
        assert(self@.dom() =~= self.paths().to_set());
    }

    /// A directory without files.
    pub fn new() -> (r: Self)
        ensures
            r@ == Map::<Seq<char>, Seq<u8>>::empty(),
            r.wf(),
    {
        let r = CsvDirectory { files: Vec::new() };
        assert(r@ =~= Map::<Seq<char>, Seq<u8>>::empty());
        r
    }

    /// The number of files.
    pub fn len(&self) -> (r: usize)
        ensures
            r == self@.dom().len(),
    {
        proof {
            use_type_invariant(self);
            self.paths().unique_seq_to_set();
            assert(self@.dom() =~= self.paths().to_set());
        }
        self.files.len()
    }

    /// The place at which `path` is stored.
    fn find(&self, path: &Vec<char>) -> (r: Option<usize>)
        ensures
            r.is_some() == self.paths().contains(path@),
            r.is_some() ==> r.unwrap() < self.paths().len() && self.paths()[r.unwrap() as int]
                == path@,
    {
        let mut i: usize = 0;
        while i < self.files.len()
            invariant
                i <= self.files.len(),
                forall|k: int| 0 <= k < i ==> self.paths()[k] != path@,
            decreases self.files.len() - i,
        {
            if chars_equal(&self.files[i].path, path) {
                assert(self.paths()[i as int] == path@);
                return Some(i);
            }
            i = i + 1;
        }
        None
    }

    /// The bytes of the file under the path that `path` spells, where
    /// there is one.
    pub fn get_chars(&self, path: &Vec<char>) -> (r: Option<&Vec<u8>>)
        ensures
            r.is_some() == self@.contains_key(path@),
            r.is_some() ==> r.unwrap()@ == self@[path@],
    {
        proof {
            use_type_invariant(self);
        }
        match self.find(path) {
            Some(i) => {
                proof {
                    let c = self.paths().index_of(path@);
                    assert(self.paths()[c] == path@);
                    assert(c == i);
                }
                Some(&self.files[i].data)
            },
            None => None,
        }
    }

    /// The bytes of the file under `path`, where there is one.
    pub fn get(&self, path: &str) -> (r: Option<&Vec<u8>>)
        ensures
            r.is_some() == self@.contains_key(path@),
            r.is_some() ==> r.unwrap()@ == self@[path@],
    {
        self.get_chars(&chars_of(path))
    }

    /// Whether a file is stored under `path`.
    pub fn contains(&self, path: &str) -> (r: bool)
        ensures
            r == self@.contains_key(path@),
    {
        self.get(path).is_some()
    }

    /// Stores a file under `path`, unless the path is taken: a stored file
    /// is never replaced.
    pub fn add_file(&mut self, path: &str, data: Vec<u8>) -> (added: bool)
        ensures
            added == !old(self)@.contains_key(path@),
            added ==> final(self)@ == old(self)@.insert(path@, data@),
            !added ==> final(self)@ == old(self)@,
            final(self).wf(),
    {
        proof {
            use_type_invariant(&*self);
        }
        let key = chars_of(path);
        if self.find(&key).is_some() {
            return false;
        }
        let ghost before = self.paths();
        let ghost stored = self.files@;
        let mut files: Vec<CsvFile> = Vec::new();
        std::mem::swap(&mut self.files, &mut files);
        files.push(CsvFile { path: key, data });
        proof {
            let after = Seq::new(files@.len(), |i: int| files@[i].path@);
            assert(after =~= before.push(path@));
            assert(after.no_duplicates()) by {
                assert forall|i: int, j: int|
                    0 <= i < after.len() && 0 <= j < after.len() && i != j implies after[i]
                    != after[j] by {
                    if i < before.len() {
                        assert(after[i] == before[i]);
                    }
                    if j < before.len() {
                        assert(after[j] == before[j]);
                    }
                }
            }
        }
        self.files = files;
        proof {
            let after = self.paths();
            assert(after =~= before.push(path@));
            let m = old(self)@.insert(path@, data@);
            let now = self@;
            assert forall|p: Seq<char>| #[trigger] now.dom().contains(p) == m.dom().contains(p) by {
                if before.contains(p) {
                    let i = choose|i: int| 0 <= i < before.len() && before[i] == p;
                    assert(after[i] == p);
                }
                if after.contains(p) && p != path@ {
                    let i = choose|i: int| 0 <= i < after.len() && after[i] == p;
                    assert(before[i] == p);
                }
                assert(after[before.len() as int] == path@);
            }
            assert forall|p: Seq<char>| now.dom().contains(p) implies #[trigger] now[p] == m[p] by {
                let c = after.index_of(p);
                assert(0 <= c < after.len() && after[c] == p);
                if p == path@ {
                    assert(after[before.len() as int] == p);
                    assert(c == before.len());
                } else {
                    assert(c < before.len());
                    assert(before[c] == p);
                    let d = before.index_of(p);
                    assert(before[d] == p);
                    assert(d == c);
                    assert(self.files@[c] == stored[c]);
                }
            }
            assert(now =~= m);
        }
        true
    }
}

} // verus!
