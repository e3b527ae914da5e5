//! The header locator: finds the three header rows of a file by what their
//! first cell holds, wherever in the file they stand.

use crate::error::{SchemaError, SchemaErrorView};
use crate::text::{slice_chars, spells, string_of, texts, trim_chars, trimmed};
use crate::utils::{basic_type_of, basic_type_of_chars};
use vstd::prelude::*;

verus! {

/// The three header rows of a file.
#[derive(Clone, Copy, Debug, PartialEq, Eq, Structural)]
pub enum HeaderKind {
    /// The row of field identifiers: its first cell is `key`.
    Names,
    /// The row of field descriptions: its first cell is `#`.
    Descriptions,
    /// The row of field types: its first cell names a basic type.
    Types,
}

/// How many byte order marks a cell starts with.
pub open spec fn leading_marks(s: Seq<char>) -> nat
    decreases s.len(),
{
    if s.len() > 0 && s[0] == '\u{feff}' {
        1 + leading_marks(s.drop_first())
    } else {
        0
    }
}

/// The cell without the byte order marks that it starts with.
pub open spec fn without_marks(s: Seq<char>) -> Seq<char> {
    s.skip(leading_marks(s) as int)
}

/// A cell starts with `i` byte order marks where its first `i` characters
/// are marks and the next one is none.
pub proof fn lemma_leading_marks(s: Seq<char>, i: int)
    requires
        0 <= i <= s.len(),
        forall|k: int| 0 <= k < i ==> s[k] == '\u{feff}',
        i == s.len() || s[i] != '\u{feff}',
    ensures
        leading_marks(s) == i,
    decreases i,
{
    if i > 0 {
        lemma_leading_marks(s.drop_first(), i - 1);
    }
}

/// Whether a row is the header row of the given kind.
pub open spec fn is_header_row(kind: HeaderKind, row: Seq<Seq<char>>) -> bool {
    row.len() > 0 && match kind {
        HeaderKind::Names => trimmed(without_marks(row[0])) == "key"@,
        HeaderKind::Descriptions => trimmed(row[0]) == "#"@,
        HeaderKind::Types => basic_type_of(trimmed(row[0])).is_some(),
    }
}

/// How many rows are header rows of the given kind.
pub open spec fn count_header_rows(kind: HeaderKind, rows: Seq<Seq<Seq<char>>>) -> nat
    decreases rows.len(),
{
    if rows.len() == 0 {
        0
    } else {
        count_header_rows(kind, rows.drop_last()) + if is_header_row(kind, rows.last()) {
            1nat
        } else {
            0nat
        }
    }
}

/// The header row of the given kind, where there is one.
pub open spec fn header_row(kind: HeaderKind, rows: Seq<Seq<Seq<char>>>) -> Seq<Seq<char>> {
    rows[header_index(kind, rows)]
}

/// The place of a header row of the given kind, where there is one.
pub open spec fn header_index(kind: HeaderKind, rows: Seq<Seq<Seq<char>>>) -> int {
    choose|i: int| 0 <= i < rows.len() && is_header_row(kind, #[trigger] rows[i])
}

/// The name of a kind of header row in messages.
pub open spec fn header_label(kind: HeaderKind) -> Seq<char> {
    match kind {
        HeaderKind::Names => "key"@,
        HeaderKind::Descriptions => "#"@,
        HeaderKind::Types => "field types (basic type)"@,
    }
}

/// The failure to find exactly one header row of the given kind: `None`
/// where exactly one row is such a header row.
pub open spec fn header_failure(kind: HeaderKind, rows: Seq<Seq<Seq<char>>>, path: Seq<char>) -> Option<
    SchemaErrorView,
> {
    let n = count_header_rows(kind, rows);
    if n == 0 {
        Some(SchemaErrorView::MissingCsvHeader { header: header_label(kind), path })
    } else if n == 1 {
        None
    } else {
        Some(SchemaErrorView::DuplicateCsvHeader { header: header_label(kind), path })
    }
}

/// No row is a header row exactly where none is counted.
pub proof fn lemma_count_zero(kind: HeaderKind, rows: Seq<Seq<Seq<char>>>)
    ensures
        count_header_rows(kind, rows) == 0 <==> forall|i: int|
            0 <= i < rows.len() ==> !is_header_row(kind, #[trigger] rows[i]),
    decreases rows.len(),
{
    if rows.len() > 0 {
        let head = rows.drop_last();
        lemma_count_zero(kind, head);
        if count_header_rows(kind, rows) == 0 {
            assert forall|i: int| 0 <= i < rows.len() implies !is_header_row(
                kind,
                #[trigger] rows[i],
            ) by {
                if i < head.len() {
                    assert(head[i] == rows[i]);
                }
            }
        } else if !is_header_row(kind, rows.last()) {
            let i = choose|i: int| 0 <= i < head.len() && is_header_row(kind, #[trigger] head[i]);
            assert(rows[i] == head[i]);
        }
    }
}

/// One row is counted exactly where one row is a header row and no other.
pub proof fn lemma_count_one(kind: HeaderKind, rows: Seq<Seq<Seq<char>>>, at: int)
    requires
        0 <= at < rows.len(),
        is_header_row(kind, rows[at]),
    ensures
        count_header_rows(kind, rows) >= 1,
        count_header_rows(kind, rows) == 1 <==> forall|i: int|
            0 <= i < rows.len() && i != at ==> !is_header_row(kind, #[trigger] rows[i]),
    decreases rows.len(),
{
    let head = rows.drop_last();
    if at == rows.len() - 1 {
        lemma_count_zero(kind, head);
        if count_header_rows(kind, head) == 0 {
            assert forall|i: int| 0 <= i < rows.len() && i != at implies !is_header_row(
                kind,
                #[trigger] rows[i],
            ) by {
                assert(head[i] == rows[i]);
            }
        } else {
            let i = choose|i: int| 0 <= i < head.len() && is_header_row(kind, #[trigger] head[i]);
            assert(rows[i] == head[i]);
        }
    } else {
        assert(head[at] == rows[at]);
        lemma_count_one(kind, head, at);
        if is_header_row(kind, rows.last()) {
            assert(is_header_row(kind, rows[rows.len() - 1]));
        } else if count_header_rows(kind, head) == 1 {
            assert forall|i: int| 0 <= i < rows.len() && i != at implies !is_header_row(
                kind,
                #[trigger] rows[i],
            ) by {
                if i < head.len() {
                    assert(head[i] == rows[i]);
                }
            }
        } else {
            let i = choose|i: int|
                0 <= i < head.len() && i != at && is_header_row(kind, #[trigger] head[i]);
            assert(rows[i] == head[i]);
        }
    }
}

/// Whether a row is the header row of the given kind.
pub fn row_is_header(kind: HeaderKind, row: &Vec<Vec<char>>) -> (r: bool)
    ensures
        r == is_header_row(kind, texts(row@)),
{
    if row.len() == 0 {
        return false;
    }
    let cell = &row[0];
    assert(texts(row@)[0] == cell@);
    match kind {
        HeaderKind::Names => {
            let mut i: usize = 0;
            while i < cell.len() && cell[i] == '\u{feff}'
                invariant
                    i <= cell.len(),
                    forall|k: int| 0 <= k < i ==> cell@[k] == '\u{feff}',
                decreases cell.len() - i,
            {
                i = i + 1;
            }
            proof {
                lemma_leading_marks(cell@, i as int);
            }
            let rest = slice_chars(cell, i, cell.len());
            assert(rest@ =~= without_marks(cell@));
            spells(&trim_chars(&rest), "key")
        },
        HeaderKind::Descriptions => spells(&trim_chars(cell), "#"),
        HeaderKind::Types => basic_type_of_chars(&trim_chars(cell)).is_some(),
    }
}

/// The label of a kind of header row.
pub fn label_of(kind: HeaderKind) -> (r: String)
    ensures
        r@ == header_label(kind),
{
    match kind {
        HeaderKind::Names => "key".to_owned(),
        HeaderKind::Descriptions => "#".to_owned(),
        HeaderKind::Types => "field types (basic type)".to_owned(),
    }
}

/// The place of the one header row of the given kind; a failure where no
/// row or more than one row is such a header row.
pub fn find_header_row(kind: HeaderKind, rows: &Vec<Vec<Vec<char>>>, path: &Vec<char>) -> (r: Result<
    usize,
    SchemaError,
>)
    ensures
        match r {
            Ok(i) => header_failure(kind, crate::source::table(rows@), path@).is_none() && i
                < rows.len() && i == header_index(kind, crate::source::table(rows@))
                && is_header_row(kind, crate::source::table(rows@)[i as int]),
            Err(e) => header_failure(kind, crate::source::table(rows@), path@) == Some(e@),
        },
{
    let ghost t = crate::source::table(rows@);
    let mut found: usize = 0;
    let mut count: usize = 0;
    let mut i: usize = 0;
    assert(t.take(0) =~= Seq::<Seq<Seq<char>>>::empty());
    while i < rows.len()
        invariant
            i <= rows.len(),
            t == crate::source::table(rows@),
            count <= 2,
            count < 2 ==> count == count_header_rows(kind, t.take(i as int)),
            count == 2 ==> count_header_rows(kind, t.take(i as int)) >= 2,
            count >= 1 ==> found < i && is_header_row(kind, t[found as int]),
        decreases rows.len() - i,
    {
        proof {
            assert(t.take(i + 1).drop_last() =~= t.take(i as int));
            assert(t.take(i + 1).last() == t[i as int]);
            assert(t[i as int] == texts(rows@[i as int]@));
        }
        if row_is_header(kind, &rows[i]) {
            if count == 0 {
                found = i;
                count = 1;
            } else {
                count = 2;
            }
        }
        i = i + 1;
    }
    assert(t.take(i as int) =~= t);
    if count == 0 {
        Err(SchemaError::MissingCsvHeader { header: label_of(kind), path: string_of(path) })
    } else if count == 1 {
        proof {
            lemma_count_one(kind, t, found as int);
            let c = header_index(kind, t);
            assert(0 <= c < t.len() && is_header_row(kind, t[c]));
        }
        Ok(found)
    } else {
        Err(SchemaError::DuplicateCsvHeader { header: label_of(kind), path: string_of(path) })
    }
}

} // verus!
