//! The field builder: from the rows of one file to its schema.

use crate::error::{SchemaError, SchemaErrorView};
use crate::header::{find_header_row, header_failure, header_row, HeaderKind};
use crate::naming::{derived_name, derived_name_chars, unique_name, unique_name_chars};
use crate::source::{csv_records, read_records, table};
use crate::text::{copy_chars, spells, string_of, texts, trim_chars, trimmed};
use crate::types::{field_views, Field, FieldType, FieldTypeView, FieldView, Schema, SchemaView};
use crate::utils::{basic_type_of, basic_type_of_chars, bit_value_of, bit_value_of_chars};
use crate::utils::{is_bit_token, likely_custom, likely_custom_chars, special_type_of};
use crate::utils::special_type_of_chars;
use vstd::prelude::*;

verus! {

/// What a type token denotes. The kinds are tried in a fixed order: basic
/// type, special type, bit flag, reference to another schema; a token of
/// none of these kinds is a string.
pub open spec fn classify(token: Seq<char>) -> Result<FieldTypeView, SchemaErrorView> {
    let t = trimmed(token);
    if basic_type_of(t).is_some() {
        Ok(basic_type_of(t).unwrap())
    } else if special_type_of(t).is_some() {
        Ok(special_type_of(t).unwrap())
    } else if is_bit_token(t) {
        match bit_value_of(t) {
            Some(v) => Ok(FieldTypeView::Bit(v)),
            None => Err(SchemaErrorView::InvalidBitValue { input: t }),
        }
    } else if likely_custom(t) {
        Ok(FieldTypeView::Custom(t))
    } else {
        Ok(FieldTypeView::String)
    }
}

/// What a type token denotes.
pub fn classify_chars(token: &Vec<char>) -> (r: Result<FieldType, SchemaError>)
    ensures
        r.is_ok() == classify(token@).is_ok(),
        r.is_ok() ==> r.unwrap()@ == classify(token@)->Ok_0,
        r.is_err() ==> r.unwrap_err()@ == classify(token@)->Err_0,
{
    let t = trim_chars(token);
    match basic_type_of_chars(&t) {
        Some(basic) => {
            return Ok(basic);
        },
        None => {},
    }
    match special_type_of_chars(&t) {
        Some(special) => {
            return Ok(special);
        },
        None => {},
    }
    if crate::text::starts_with(&t, "bit&") {
        match bit_value_of_chars(&t) {
            Some(v) => Ok(FieldType::Bit(v)),
            None => Err(SchemaError::InvalidBitValue { input: string_of(&t) }),
        }
    } else if likely_custom_chars(&t) {
        Ok(FieldType::Custom(string_of(&t)))
    } else {
        Ok(FieldType::String)
    }
}

/// The type of a column: `Key` where the description is `Key`, whatever
/// the type cell holds; else what the type cell denotes.
pub open spec fn column_type(description: Seq<char>, type_cell: Seq<char>) -> Result<
    FieldTypeView,
    SchemaErrorView,
> {
    if description == "Key"@ {
        Ok(FieldTypeView::Key)
    } else {
        classify(type_cell)
    }
}

/// The names of the first `n` columns: each column gets its derived name,
/// told apart from the names of the columns before it.
pub open spec fn column_names(ids: Seq<Seq<char>>, descriptions: Seq<Seq<char>>, n: nat) -> Seq<
    Seq<char>,
>
    decreases n,
{
    if n == 0 {
        Seq::empty()
    } else {
        let before = column_names(ids, descriptions, (n - 1) as nat);
        before.push(unique_name(before, derived_name(ids[n - 1], descriptions[n - 1])))
    }
}

/// The first of the first `n` columns whose type cell is refused; `n`
/// where none is.
pub open spec fn first_refused(descriptions: Seq<Seq<char>>, types: Seq<Seq<char>>, n: nat) -> nat
    decreases n,
{
    if n == 0 {
        0
    } else {
        let before = first_refused(descriptions, types, (n - 1) as nat);
        if before < n - 1 {
            before
        } else if column_type(descriptions[n - 1], types[n - 1]).is_err() {
            (n - 1) as nat
        } else {
            n
        }
    }
}

/// The field of column `j`.
pub open spec fn column_field(
    ids: Seq<Seq<char>>,
    descriptions: Seq<Seq<char>>,
    types: Seq<Seq<char>>,
    j: int,
) -> FieldView {
    FieldView {
        name: column_names(ids, descriptions, (j + 1) as nat)[j],
        field_type: column_type(descriptions[j], types[j])->Ok_0,
    }
}

/// The fields of the first `n` columns.
pub open spec fn column_fields(
    ids: Seq<Seq<char>>,
    descriptions: Seq<Seq<char>>,
    types: Seq<Seq<char>>,
    n: nat,
) -> Seq<FieldView> {
    Seq::new(n, |j: int| column_field(ids, descriptions, types, j))
}

/// What the rows of one file give: the fields of the columns before the
/// first whose type cell is refused, and the failure of that column, if
/// there is one.
pub struct ParsedView {
    pub schema: SchemaView,
    pub failure: Option<SchemaErrorView>,
}

/// The number of columns of a file: the identifier row and the description
/// row are read side by side, as far as both go.
pub open spec fn column_count(ids: Seq<Seq<char>>, descriptions: Seq<Seq<char>>) -> nat {
    if ids.len() <= descriptions.len() {
        ids.len()
    } else {
        descriptions.len()
    }
}

/// The message for a file of fewer than three rows.
pub open spec fn too_few_rows() -> Seq<char> {
    "CSV file must have at least 3 rows (names, descriptions, types)"@
}

/// The message for an identifier row and a type row of different width.
pub open spec fn count_mismatch() -> Seq<char> {
    "Field names and types count mismatch"@
}

/// The schema that the rows of a file stand for.
///
/// A file of fewer than three rows is refused. Then the three header rows
/// are looked for, in the order identifiers, descriptions, types; each must
/// be there once. The identifier row and the type row must be of one width.
pub open spec fn parsed_rows(rows: Seq<Seq<Seq<char>>>, name: Seq<char>, path: Seq<char>) -> Result<
    ParsedView,
    SchemaErrorView,
> {
    if rows.len() < 3 {
        Err(SchemaErrorView::InvalidFormat { reason: too_few_rows() })
    } else if header_failure(HeaderKind::Names, rows, path).is_some() {
        Err(header_failure(HeaderKind::Names, rows, path).unwrap())
    } else if header_failure(HeaderKind::Descriptions, rows, path).is_some() {
        Err(header_failure(HeaderKind::Descriptions, rows, path).unwrap())
    } else if header_failure(HeaderKind::Types, rows, path).is_some() {
        Err(header_failure(HeaderKind::Types, rows, path).unwrap())
    } else {
        let ids = header_row(HeaderKind::Names, rows);
        let descriptions = header_row(HeaderKind::Descriptions, rows);
        let types = header_row(HeaderKind::Types, rows);
        if ids.len() != types.len() {
            Err(SchemaErrorView::InvalidFormat { reason: count_mismatch() })
        } else {
            let n = column_count(ids, descriptions);
            let m = first_refused(descriptions, types, n);
            Ok(
                ParsedView {
                    schema: SchemaView { name, fields: column_fields(ids, descriptions, types, m) },
                    failure: if m < n {
                        Some(column_type(descriptions[m as int], types[m as int])->Err_0)
                    } else {
                        None
                    },
                },
            )
        }
    }
}

/// What the rows of one file give.
#[derive(Debug)]
pub struct ParsedFile {
    /// The fields of the columns before the first whose type cell is
    /// refused: all columns, where none is.
    pub schema: Schema,
    /// The failure of the first column whose type cell is refused.
    pub failure: Option<SchemaError>,
}

impl View for ParsedFile {
    type V = ParsedView;

    open spec fn view(&self) -> ParsedView {
        ParsedView {
            schema: self.schema@,
            failure: match self.failure {
                Some(e) => Some(e@),
                None => None,
            },
        }
    }
}

/// The first `n` names are the start of any longer list of names.
pub proof fn lemma_column_names_prefix(
    ids: Seq<Seq<char>>,
    descriptions: Seq<Seq<char>>,
    n: nat,
    m: nat,
)
    requires
        n <= m,
    ensures
        column_names(ids, descriptions, n).len() == n,
        column_names(ids, descriptions, m).len() == m,
        column_names(ids, descriptions, m).take(n as int) == column_names(ids, descriptions, n),
    decreases m,
{
    if m == 0 {
        assert(column_names(ids, descriptions, m).take(0) =~= column_names(ids, descriptions, 0));
    } else if n == m {
        lemma_column_names_prefix(ids, descriptions, (m - 1) as nat, (m - 1) as nat);
        assert(column_names(ids, descriptions, m).take(n as int) =~= column_names(
            ids,
            descriptions,
            n,
        ));
    } else {
        lemma_column_names_prefix(ids, descriptions, n, (m - 1) as nat);
        assert(column_names(ids, descriptions, m).take(n as int) =~= column_names(
            ids,
            descriptions,
            (m - 1) as nat,
        ).take(n as int));
    }
}

/// The names of the columns of a schema differ from each other.
pub proof fn lemma_column_names_distinct(ids: Seq<Seq<char>>, descriptions: Seq<Seq<char>>, n: nat)
    ensures
        column_names(ids, descriptions, n).no_duplicates(),
    decreases n,
{
    if n > 0 {
        let before = column_names(ids, descriptions, (n - 1) as nat);
        lemma_column_names_distinct(ids, descriptions, (n - 1) as nat);
        lemma_column_names_prefix(ids, descriptions, (n - 1) as nat, n);
        let name = unique_name(before, derived_name(ids[n - 1], descriptions[n - 1]));
        crate::naming::lemma_unique_name(before, derived_name(ids[n - 1], descriptions[n - 1]));
        let names = column_names(ids, descriptions, n);
        assert forall|i: int, j: int| 0 <= i < names.len() && 0 <= j < names.len() && i != j implies names[i]
            != names[j] by {
            if i < n - 1 && j < n - 1 {
                assert(names[i] == before[i] && names[j] == before[j]);
            } else if i < n - 1 {
                assert(names[i] == before[i]);
            } else {
                assert(names[j] == before[j]);
            }
        }
    }
}

/// The fields of a schema have names that differ from each other.
pub proof fn lemma_field_names_distinct(rows: Seq<Seq<Seq<char>>>, name: Seq<char>, path: Seq<char>)
    requires
        parsed_rows(rows, name, path).is_ok(),
    ensures
        forall|i: int, j: int|
            #![trigger parsed_rows(rows, name, path)->Ok_0.schema.fields[i], parsed_rows(rows, name, path)->Ok_0.schema.fields[j]]
            0 <= i < j < parsed_rows(rows, name, path)->Ok_0.schema.fields.len() ==> parsed_rows(
                rows,
                name,
                path,
            )->Ok_0.schema.fields[i].name != parsed_rows(rows, name, path)->Ok_0.schema.fields[j].name,
{
    let ids = header_row(HeaderKind::Names, rows);
    let descriptions = header_row(HeaderKind::Descriptions, rows);
    let fields = parsed_rows(rows, name, path)->Ok_0.schema.fields;
    assert forall|i: int, j: int| 0 <= i < j < fields.len() implies fields[i].name
        != fields[j].name by {
        lemma_column_names_distinct(ids, descriptions, (j + 1) as nat);
        lemma_column_names_prefix(ids, descriptions, (i + 1) as nat, (j + 1) as nat);
        let longer = column_names(ids, descriptions, (j + 1) as nat);
        assert(longer.take(i + 1)[i] == longer[i]);
    }
}

/// Two columns whose derived names are the same and are no other column's
/// name get the name and the name followed by `1`.
pub proof fn lemma_colliding_pair(ids: Seq<Seq<char>>, descriptions: Seq<Seq<char>>)
    requires
        derived_name(ids[0], descriptions[0]) == derived_name(ids[1], descriptions[1]),
    ensures
        column_names(ids, descriptions, 2) == seq![
            derived_name(ids[0], descriptions[0]),
            derived_name(ids[0], descriptions[0]) + crate::naming::decimal(1),
        ],
{
    let base = derived_name(ids[0], descriptions[0]);
    let none = column_names(ids, descriptions, 0);
    let one = column_names(ids, descriptions, 1);
    crate::naming::lemma_unique_name(none, base);
    assert(one =~= seq![base]);
    crate::naming::lemma_decimal_value(1);
    assert((base + crate::naming::decimal(1)).len() > base.len());
    assert(one[0] == base);
    assert(!one.contains(base + crate::naming::decimal(1)));
    crate::naming::lemma_unique_name(one, base);
    assert(column_names(ids, descriptions, 2) =~= seq![base, base + crate::naming::decimal(1)]);
}

/// The fields that the three header rows stand for.
pub fn build_fields(
    ids: &Vec<Vec<char>>,
    descriptions: &Vec<Vec<char>>,
    types: &Vec<Vec<char>>,
) -> (r: (Vec<Field>, Option<SchemaError>))
    requires
        ids.len() == types.len(),
    ensures
        ({
            let n = column_count(texts(ids@), texts(descriptions@));
            let m = first_refused(texts(descriptions@), texts(types@), n);
            &&& field_views(r.0@) == column_fields(
                texts(ids@),
                texts(descriptions@),
                texts(types@),
                m,
            )
            &&& m < n ==> r.1.is_some() && r.1.unwrap()@ == column_type(
                texts(descriptions@)[m as int],
                texts(types@)[m as int],
            )->Err_0
            &&& m >= n ==> r.1.is_none()
        }),
{
    let n: usize = if ids.len() <= descriptions.len() {
        ids.len()
    } else {
        descriptions.len()
    };
    let ghost i_t = texts(ids@);
    let ghost d_t = texts(descriptions@);
    let ghost t_t = texts(types@);
    let mut fields: Vec<Field> = Vec::new();
    let mut used: Vec<Vec<char>> = Vec::new();
    let mut j: usize = 0;
    assert(field_views(fields@) =~= column_fields(i_t, d_t, t_t, 0));
    assert(texts(used@) =~= column_names(i_t, d_t, 0));
    while j < n
        invariant
            j <= n,
            n == column_count(i_t, d_t),
            n <= ids.len(),
            n <= descriptions.len(),
            ids.len() == types.len(),
            i_t == texts(ids@),
            d_t == texts(descriptions@),
            t_t == texts(types@),
            first_refused(d_t, t_t, j as nat) == j,
            fields.len() == j,
            used.len() == j,
            field_views(fields@) == column_fields(i_t, d_t, t_t, j as nat),
            texts(used@) == column_names(i_t, d_t, j as nat),
        decreases n - j,
    {
        let description = &descriptions[j];
        assert(d_t[j as int] == description@);
        assert(t_t[j as int] == types@[j as int]@);
        assert(i_t[j as int] == ids@[j as int]@);
        let field_type = if spells(description, "Key") {
            FieldType::Key
        } else {
            match classify_chars(&types[j]) {
                Ok(t) => t,
                Err(e) => {
                    proof {
                        lemma_first_refused_stays(d_t, t_t, j as nat, n as nat);
                    }
                    return (fields, Some(e));
                },
            }
        };
        assert(column_type(d_t[j as int], t_t[j as int]) == Ok::<FieldTypeView, SchemaErrorView>(
            field_type@,
        ));
        let base = derived_name_chars(&ids[j], description);
        let name = unique_name_chars(&used, &base);
        proof {
            lemma_column_names_prefix(i_t, d_t, j as nat, (j + 1) as nat);
            let names = column_names(i_t, d_t, (j + 1) as nat);
            assert(names[j as int] == name@);
            assert forall|k: int| 0 <= k < j implies #[trigger] column_field(i_t, d_t, t_t, k)
                == field_views(fields@)[k] by {}
        }
        let ghost before = fields@;
        used.push(copy_chars(&name));
        fields.push(Field { name: string_of(&name), field_type });
        proof {
            assert(texts(used@) =~= column_names(i_t, d_t, (j + 1) as nat));
            assert(field_views(fields@) =~= column_fields(i_t, d_t, t_t, (j + 1) as nat)) by {
                assert forall|k: int| 0 <= k < j + 1 implies field_views(fields@)[k]
                    == column_fields(i_t, d_t, t_t, (j + 1) as nat)[k] by {
                    if k < j {
                        assert(fields@[k] == before[k]);
                        assert(field_views(before)[k] == column_field(i_t, d_t, t_t, k));
                    } else {
                        assert(fields@[k]@.name == name@);
                    }
                }
            }
        }
        j = j + 1;
    }
    (fields, None)
}

/// Once a column is refused, it stays the first refused column however
/// many columns follow.
pub proof fn lemma_first_refused_stays(
    descriptions: Seq<Seq<char>>,
    types: Seq<Seq<char>>,
    j: nat,
    n: nat,
)
    requires
        j < n,
        first_refused(descriptions, types, j) == j,
        column_type(descriptions[j as int], types[j as int]).is_err(),
    ensures
        first_refused(descriptions, types, n) == j,
    decreases n,
{
    if n > j + 1 {
        lemma_first_refused_stays(descriptions, types, j, (n - 1) as nat);
    }
}

/// The schema that the rows of a file stand for, under the given name;
/// `path` is the path of the file, for the messages.
pub fn parse_rows(rows: &Vec<Vec<Vec<char>>>, name: &Vec<char>, path: &Vec<char>) -> (r: Result<
    ParsedFile,
    SchemaError,
>)
    ensures
        r.is_ok() == parsed_rows(table(rows@), name@, path@).is_ok(),
        r.is_ok() ==> r.unwrap()@ == parsed_rows(table(rows@), name@, path@)->Ok_0,
        r.is_err() ==> r.unwrap_err()@ == parsed_rows(table(rows@), name@, path@)->Err_0,
{
    if rows.len() < 3 {
        return Err(
            SchemaError::InvalidFormat {
                reason: "CSV file must have at least 3 rows (names, descriptions, types)".to_owned(),
            },
        );
    }
    let ids_at = match find_header_row(HeaderKind::Names, rows, path) {
        Ok(i) => i,
        Err(e) => {
            return Err(e);
        },
    };
    let descriptions_at = match find_header_row(HeaderKind::Descriptions, rows, path) {
        Ok(i) => i,
        Err(e) => {
            return Err(e);
        },
    };
    let types_at = match find_header_row(HeaderKind::Types, rows, path) {
        Ok(i) => i,
        Err(e) => {
            return Err(e);
        },
    };
    let ids = &rows[ids_at];
    let descriptions = &rows[descriptions_at];
    let types = &rows[types_at];
    proof {
        let t = table(rows@);
        assert(t[ids_at as int] == texts(ids@));
        assert(t[descriptions_at as int] == texts(descriptions@));
        assert(t[types_at as int] == texts(types@));
    }
    if ids.len() != types.len() {
        return Err(
            SchemaError::InvalidFormat { reason: "Field names and types count mismatch".to_owned() },
        );
    }
    let (fields, failure) = build_fields(ids, descriptions, types);
    Ok(ParsedFile { schema: Schema { name: string_of(name), fields }, failure })
}

/// The schema that the bytes of a file stand for: the rows are what the
/// CSV reader makes of the bytes.
pub open spec fn parsed_file(data: Seq<u8>, name: Seq<char>, path: Seq<char>) -> Result<
    ParsedView,
    SchemaErrorView,
> {
    match csv_records(data) {
        None => Err(SchemaErrorView::CsvError),
        Some(rows) => parsed_rows(rows, name, path),
    }
}

/// The models of what the parsing of a file returns.
pub open spec fn parsed_view(r: Result<ParsedFile, SchemaError>) -> Result<ParsedView, SchemaErrorView> {
    match r {
        Ok(p) => Ok(p@),
        Err(e) => Err(e@),
    }
}

/// Reads the bytes of a file as CSV and builds its schema.
pub fn parse_bytes(data: &[u8], name: &Vec<char>, path: &Vec<char>) -> (r: Result<
    ParsedFile,
    SchemaError,
>)
    ensures
        parsed_view(r) == parsed_file(data@, name@, path@),
{
    match read_records(data) {
        Ok(rows) => parse_rows(&rows, name, path),
        Err(e) => Err(SchemaError::CsvError(e)),
    }
}

/// The rows of cells that rows of strings hold.
pub open spec fn string_table(rows: Seq<Vec<String>>) -> Seq<Seq<Seq<char>>> {
    Seq::new(rows.len(), |i: int| Seq::new(rows[i]@.len(), |j: int| rows[i]@[j]@))
}

/// The rows of strings as rows of characters.
pub fn char_rows(rows: &Vec<Vec<String>>) -> (r: Vec<Vec<Vec<char>>>)
    ensures
        table(r@) == string_table(rows@),
{
    let mut out: Vec<Vec<Vec<char>>> = Vec::new();
    let mut i: usize = 0;
    while i < rows.len()
        invariant
            i <= rows.len(),
            out.len() == i,
            forall|k: int| 0 <= k < i ==> texts(#[trigger] out@[k]@) == string_table(rows@)[k],
        decreases rows.len() - i,
    {
        let row = &rows[i];
        let mut cells: Vec<Vec<char>> = Vec::new();
        let mut j: usize = 0;
        while j < row.len()
            invariant
                j <= row.len(),
                cells.len() == j,
                forall|k: int| 0 <= k < j ==> #[trigger] cells@[k]@ == row@[k]@,
            decreases row.len() - j,
        {
            cells.push(crate::text::chars_of(row[j].as_str()));
            j = j + 1;
        }
        assert(texts(cells@) =~= string_table(rows@)[i as int]);
        out.push(cells);
        i = i + 1;
    }
    assert(table(out@) =~= string_table(rows@));
    out
}

/// Whether `permuted` holds the rows of `rows` in another order: row `i`
/// of `rows` is row `to[i]` of `permuted`, and row `q` of `permuted` is
/// row `from[q]` of `rows`.
pub open spec fn is_rearrangement(
    rows: Seq<Seq<Seq<char>>>,
    permuted: Seq<Seq<Seq<char>>>,
    to: Seq<int>,
    from: Seq<int>,
) -> bool {
    &&& permuted.len() == rows.len()
    &&& to.len() == rows.len()
    &&& from.len() == rows.len()
    &&& forall|i: int|
        0 <= i < rows.len() ==> 0 <= #[trigger] to[i] < rows.len() && permuted[to[i]] == rows[i]
            && from[to[i]] == i
    &&& forall|q: int|
        0 <= q < rows.len() ==> 0 <= #[trigger] from[q] < rows.len() && rows[from[q]] == permuted[q]
            && to[from[q]] == q
}

/// The header row of a kind, and the failure to find it, do not depend on
/// the order of the rows.
pub proof fn lemma_header_order_independent(
    kind: HeaderKind,
    rows: Seq<Seq<Seq<char>>>,
    permuted: Seq<Seq<Seq<char>>>,
    to: Seq<int>,
    from: Seq<int>,
    path: Seq<char>,
)
    requires
        is_rearrangement(rows, permuted, to, from),
    ensures
        header_failure(kind, rows, path) == header_failure(kind, permuted, path),
        header_failure(kind, rows, path).is_none() ==> header_row(kind, rows) == header_row(
            kind,
            permuted,
        ),
{
    crate::header::lemma_count_zero(kind, rows);
    crate::header::lemma_count_zero(kind, permuted);
    if crate::header::count_header_rows(kind, rows) == 0 {
        assert forall|q: int| 0 <= q < permuted.len() implies !crate::header::is_header_row(
            kind,
            #[trigger] permuted[q],
        ) by {
            assert(rows[from[q]] == permuted[q]);
        }
    } else {
        let at = choose|at: int|
            0 <= at < rows.len() && crate::header::is_header_row(kind, #[trigger] rows[at]);
        assert(permuted[to[at]] == rows[at]);
        crate::header::lemma_count_one(kind, rows, at);
        crate::header::lemma_count_one(kind, permuted, to[at]);
        if crate::header::count_header_rows(kind, rows) == 1 {
            assert forall|q: int| 0 <= q < permuted.len() && q != to[at] implies !crate::header::is_header_row(
                kind,
                #[trigger] permuted[q],
            ) by {
                assert(rows[from[q]] == permuted[q]);
                assert(to[from[q]] == q);
            }
            let a = crate::header::header_index(kind, rows);
            let b = crate::header::header_index(kind, permuted);
            assert(0 <= a < rows.len() && crate::header::is_header_row(kind, rows[a]));
            assert(0 <= b < permuted.len() && crate::header::is_header_row(kind, permuted[b]));
            assert(a == at);
            assert(b == to[at]);
        } else {
            if crate::header::count_header_rows(kind, permuted) == 1 {
                assert forall|i: int| 0 <= i < rows.len() && i != at implies !crate::header::is_header_row(
                    kind,
                    #[trigger] rows[i],
                ) by {
                    assert(permuted[to[i]] == rows[i]);
                    assert(from[to[i]] == i);
                    assert(from[to[at]] == at);
                }
            }
        }
    }
}

/// The schema of a file does not depend on where its header rows and its
/// data rows stand: any rearrangement of the rows gives the same schema,
/// or the same failure.
pub proof fn lemma_rows_order_independent(
    rows: Seq<Seq<Seq<char>>>,
    permuted: Seq<Seq<Seq<char>>>,
    to: Seq<int>,
    from: Seq<int>,
    name: Seq<char>,
    path: Seq<char>,
)
    requires
        is_rearrangement(rows, permuted, to, from),
    ensures
        parsed_rows(rows, name, path) == parsed_rows(permuted, name, path),
{
    lemma_header_order_independent(HeaderKind::Names, rows, permuted, to, from, path);
    lemma_header_order_independent(HeaderKind::Descriptions, rows, permuted, to, from, path);
    lemma_header_order_independent(HeaderKind::Types, rows, permuted, to, from, path);
}

} // verus!
