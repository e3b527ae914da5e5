//! The type classifier: what a raw type token denotes.
//!
//! A token is looked at in a fixed order: basic type, special type, bit
//! flag, reference to another schema, and, failing all of these, a string.
//!
//! The module also holds the search for the files that the references of
//! an entry file lack.

use crate::error::{SchemaError, SchemaErrorView};
use crate::paths::{csv_path, csv_path_chars, directory_prefix, directory_prefix_chars};
use crate::source::{csv_records, read_records, table, CsvDirectory};
use crate::text::{chars_of, contains, copy_chars, has_prefix, has_substring, slice_chars};
use crate::text::{spells, starts_with, string_of, texts, trim_chars, trimmed};
use crate::types::{FieldType, FieldTypeView};
use vstd::prelude::*;

verus! {

/// The basic type that a trimmed token names.
pub open spec fn basic_type_of(t: Seq<char>) -> Option<FieldTypeView> {
    if t == "str"@ {
        Some(FieldTypeView::String)
    } else if t == "int32"@ {
        Some(FieldTypeView::Int32)
    } else if t == "uint32"@ {
        Some(FieldTypeView::Uint32)
    } else if t == "int16"@ {
        Some(FieldTypeView::Int16)
    } else if t == "uint16"@ {
        Some(FieldTypeView::Uint16)
    } else if t == "byte"@ {
        Some(FieldTypeView::Byte)
    } else if t == "sbyte"@ {
        Some(FieldTypeView::SByte)
    } else if t == "float"@ {
        Some(FieldTypeView::Float)
    } else if t == "bool"@ {
        Some(FieldTypeView::Bool)
    } else {
        None
    }
}

/// The special type that a trimmed token names.
pub open spec fn special_type_of(t: Seq<char>) -> Option<FieldTypeView> {
    if t == "Image"@ {
        Some(FieldTypeView::Image)
    } else if t == "Row"@ {
        Some(FieldTypeView::Row)
    } else if t == "Key"@ {
        Some(FieldTypeView::Key)
    } else if t == "Color"@ {
        Some(FieldTypeView::Color)
    } else {
        None
    }
}

/// Whether the token starts with `bit&`.
pub open spec fn is_bit_token(t: Seq<char>) -> bool {
    has_prefix(t, "bit&"@)
}

/// Whether the token holds one of the words that mark a schema name.
pub open spec fn has_custom_pattern(t: Seq<char>) -> bool {
    ||| has_substring(t, "Category"@)
    ||| has_substring(t, "Action"@)
    ||| has_substring(t, "Level"@)
    ||| has_substring(t, "Param"@)
    ||| has_substring(t, "Job"@)
    ||| has_substring(t, "Company"@)
    ||| has_substring(t, "Series"@)
}

/// Whether a character has the Unicode property `Uppercase`, as
/// `char::is_uppercase` tells it.
pub uninterp spec fn unicode_uppercase(c: char) -> bool;

/// `char::is_uppercase` tells whether a character has the Unicode property
/// `Uppercase`; of the ASCII characters exactly `A` to `Z` have it.
pub assume_specification[ char::is_uppercase ](c: char) -> (r: bool)
    ensures
        r == unicode_uppercase(c),
        c <= '\u{7F}' ==> r == ('A' <= c && c <= 'Z'),
;

/// Whether a token is taken for the name of another schema, given whether
/// the first character of the trimmed token is an uppercase letter.
pub open spec fn likely_custom_given(token: Seq<char>, first_is_uppercase: bool) -> bool {
    let t = trimmed(token);
    &&& basic_type_of(t).is_none()
    &&& !is_bit_token(t)
    &&& special_type_of(t).is_none()
    &&& (has_custom_pattern(t) || first_is_uppercase)
}

/// Whether a token is taken for the name of another schema.
pub open spec fn likely_custom(token: Seq<char>) -> bool {
    let t = trimmed(token);
    likely_custom_given(token, t.len() > 0 && unicode_uppercase(t[0]))
}

/// The value of one hexadecimal digit.
pub open spec fn hex_digit_value(c: char) -> Option<nat> {
    if '0' <= c && c <= '9' {
        Some((c as nat - '0' as nat) as nat)
    } else if 'a' <= c && c <= 'f' {
        Some((c as nat - 'a' as nat + 10) as nat)
    } else if 'A' <= c && c <= 'F' {
        Some((c as nat - 'A' as nat + 10) as nat)
    } else {
        None
    }
}

/// Whether every character is a hexadecimal digit.
pub open spec fn all_hex_digits(s: Seq<char>) -> bool {
    forall|i: int| 0 <= i < s.len() ==> (#[trigger] hex_digit_value(s[i])).is_some()
}

/// The number that a sequence of hexadecimal digits writes.
pub open spec fn hex_value(s: Seq<char>) -> nat
    decreases s.len(),
{
    if s.len() == 0 {
        0
    } else {
        hex_value(s.drop_last()) * 16 + hex_digit_value(s.last()).unwrap_or(0)
    }
}

/// The mask value of a bit-flag token: what follows `bit&`, read as a
/// hexadecimal number of at least one digit, where it is at most 255.
pub open spec fn bit_value_of(token: Seq<char>) -> Option<u8> {
    if is_bit_token(token) {
        let digits = token.skip("bit&"@.len() as int);
        if digits.len() > 0 && all_hex_digits(digits) && hex_value(digits) <= 255 {
            Some(hex_value(digits) as u8)
        } else {
            None
        }
    } else {
        None
    }
}

/// The basic type named by a token, white space around it aside.
pub fn classify_basic_type(token: &str) -> (r: Option<FieldType>)
    ensures
        r.is_some() == basic_type_of(trimmed(token@)).is_some(),
        r.is_some() ==> r.unwrap()@ == basic_type_of(trimmed(token@)).unwrap(),
{
    let t = trim_chars(&chars_of(token));
    basic_type_of_chars(&t)
}

/// The basic type that a trimmed token names.
pub fn basic_type_of_chars(t: &Vec<char>) -> (r: Option<FieldType>)
    ensures
        r.is_some() == basic_type_of(t@).is_some(),
        r.is_some() ==> r.unwrap()@ == basic_type_of(t@).unwrap(),
{
    if spells(t, "str") {
        Some(FieldType::String)
    } else if spells(t, "int32") {
        Some(FieldType::Int32)
    } else if spells(t, "uint32") {
        Some(FieldType::Uint32)
    } else if spells(t, "int16") {
        Some(FieldType::Int16)
    } else if spells(t, "uint16") {
        Some(FieldType::Uint16)
    } else if spells(t, "byte") {
        Some(FieldType::Byte)
    } else if spells(t, "sbyte") {
        Some(FieldType::SByte)
    } else if spells(t, "float") {
        Some(FieldType::Float)
    } else if spells(t, "bool") {
        Some(FieldType::Bool)
    } else {
        None
    }
}

/// The special type that a trimmed token names.
pub fn special_type_of_chars(t: &Vec<char>) -> (r: Option<FieldType>)
    ensures
        r.is_some() == special_type_of(t@).is_some(),
        r.is_some() ==> r.unwrap()@ == special_type_of(t@).unwrap(),
{
    if spells(t, "Image") {
        Some(FieldType::Image)
    } else if spells(t, "Row") {
        Some(FieldType::Row)
    } else if spells(t, "Key") {
        Some(FieldType::Key)
    } else if spells(t, "Color") {
        Some(FieldType::Color)
    } else {
        None
    }
}

/// Whether a token, white space around it aside, names a special type.
pub fn is_special_type(type_str: &str) -> (r: bool)
    ensures
        r == special_type_of(trimmed(type_str@)).is_some(),
{
    let t = trim_chars(&chars_of(type_str));
    special_type_of_chars(&t).is_some()
}

/// Whether a token starts with `bit&`.
pub fn is_bit_type(type_str: &str) -> (r: bool)
    ensures
        r == is_bit_token(type_str@),
{
    starts_with(&chars_of(type_str), "bit&")
}

/// Whether the token holds one of the words that mark a schema name.
pub fn has_custom_pattern_chars(t: &Vec<char>) -> (r: bool)
    ensures
        r == has_custom_pattern(t@),
{
    contains(t, "Category") || contains(t, "Action") || contains(t, "Level") || contains(
        t,
        "Param",
    ) || contains(t, "Job") || contains(t, "Company") || contains(t, "Series")
}

/// Whether a token is taken for the name of another schema, where the
/// caller says whether the first character of the trimmed token is an
/// uppercase letter.
pub fn is_likely_custom_type_given(type_str: &str, first_is_uppercase: bool) -> (r: bool)
    ensures
        r == likely_custom_given(type_str@, first_is_uppercase),
{
    likely_custom_given_chars(&chars_of(type_str), first_is_uppercase)
}

/// Whether a token is taken for the name of another schema, given whether
/// the first character of the trimmed token is an uppercase letter.
pub fn likely_custom_given_chars(token: &Vec<char>, first_is_uppercase: bool) -> (r: bool)
    ensures
        r == likely_custom_given(token@, first_is_uppercase),
{
    let t = trim_chars(token);
    if basic_type_of_chars(&t).is_some() {
        return false;
    }
    if starts_with(&t, "bit&") {
        return false;
    }
    if special_type_of_chars(&t).is_some() {
        return false;
    }
    if has_custom_pattern_chars(&t) {
        return true;
    }
    first_is_uppercase
}

/// Whether a token is taken for the name of another schema: it is none of
/// the basic, bit and special types, and it holds one of the marking words
/// or starts with an uppercase letter.
pub fn is_likely_custom_type(type_str: &str) -> (r: bool)
    ensures
        r == likely_custom(type_str@),
{
    likely_custom_chars(&chars_of(type_str))
}

/// Whether a token is taken for the name of another schema.
pub fn likely_custom_chars(token: &Vec<char>) -> (r: bool)
    ensures
        r == likely_custom(token@),
{
    let t = trim_chars(token);
    let first_is_uppercase = t.len() > 0 && t[0].is_uppercase();
    likely_custom_given_chars(token, first_is_uppercase)
}

/// The value of one hexadecimal digit.
pub fn hex_digit_of(c: char) -> (r: Option<u8>)
    ensures
        r.is_some() == hex_digit_value(c).is_some(),
        r.is_some() ==> r.unwrap() == hex_digit_value(c).unwrap() && r.unwrap() < 16,
{
    if '0' <= c && c <= '9' {
        Some((c as u8) - 48)
    } else if 'a' <= c && c <= 'f' {
        Some((c as u8) - 97 + 10)
    } else if 'A' <= c && c <= 'F' {
        Some((c as u8) - 65 + 10)
    } else {
        None
    }
}

/// The mask value of a bit-flag token such as `bit&01`.
pub fn parse_bit_value(bit_str: &str) -> (r: Result<u8, SchemaError>)
    ensures
        match r {
            Ok(v) => bit_value_of(bit_str@) == Some(v),
            Err(e) => bit_value_of(bit_str@).is_none() && e@ == (SchemaErrorView::InvalidBitValue {
                input: bit_str@,
            }),
        },
{
    let t = chars_of(bit_str);
    match bit_value_of_chars(&t) {
        Some(v) => Ok(v),
        None => Err(SchemaError::InvalidBitValue { input: string_of(&t) }),
    }
}

/// The mask value of a bit-flag token.
pub fn bit_value_of_chars(t: &Vec<char>) -> (r: Option<u8>)
    ensures
        r == bit_value_of(t@),
{
    if !starts_with(t, "bit&") {
        return None;
    }
    proof {
        reveal_strlit("bit&");
    }
    let digits = slice_chars(t, 4, t.len());
    assert(digits@ =~= t@.skip(4));
    if digits.len() == 0 {
        return None;
    }
    let mut acc: u16 = 0;
    let mut i: usize = 0;
    assert(digits@.take(0) =~= Seq::<char>::empty());
    while i < digits.len()
        invariant
            i <= digits.len(),
            digits.len() > 0,
            is_bit_token(t@),
            digits@ == t@.skip("bit&"@.len() as int),
            forall|k: int| 0 <= k < i ==> (#[trigger] hex_digit_value(digits@[k])).is_some(),
            acc <= 256,
            hex_value(digits@.take(i as int)) <= 255 ==> acc == hex_value(digits@.take(i as int)),
            hex_value(digits@.take(i as int)) > 255 ==> acc == 256,
        decreases digits.len() - i,
    {
        let d = match hex_digit_of(digits[i]) {
            Some(d) => d,
            None => {
                assert(hex_digit_value(digits@[i as int]).is_none());
                return None;
            },
        };
        proof {
            assert(digits@.take(i + 1).drop_last() =~= digits@.take(i as int));
            assert(digits@.take(i + 1).last() == digits@[i as int]);
        }
        if acc > 255 {
            acc = 256;
        } else {
            acc = acc * 16 + d as u16;
            if acc > 255 {
                acc = 256;
            }
        }
        i = i + 1;
    }
    assert(digits@.take(i as int) =~= digits@);
    if acc > 255 {
        None
    } else {
        Some(acc as u8)
    }
}

/// A directory name as a prefix for the names of its files: with `/` at
/// its end, unless it is empty.
pub open spec fn join_prefix(base_dir: Seq<char>) -> Seq<char> {
    if base_dir.len() == 0 || base_dir.last() == '/' {
        base_dir
    } else {
        base_dir.push('/')
    }
}

/// A directory name as a prefix for the names of its files.
pub fn join_prefix_chars(base_dir: &Vec<char>) -> (r: Vec<char>)
    ensures
        r@ == join_prefix(base_dir@),
{
    let mut r = copy_chars(base_dir);
    if r.len() > 0 && r[r.len() - 1] != '/' {
        r.push('/');
    }
    r
}

/// Whether the directory holds the file `<base_dir>/<schema_name>.csv`.
pub fn file_exists(base_dir: &str, schema_name: &str, dir: &CsvDirectory) -> (r: bool)
    ensures
        r == dir@.contains_key(csv_path(join_prefix(base_dir@), schema_name@)),
{
    let prefix = join_prefix_chars(&chars_of(base_dir));
    let path = csv_path_chars(&prefix, &chars_of(schema_name));
    dir.get_chars(&path).is_some()
}

/// Whether a type token names a schema whose file the directory lacks.
pub open spec fn is_missing(token: Seq<char>, prefix: Seq<char>, dir: Map<Seq<char>, Seq<u8>>) -> bool {
    likely_custom(trimmed(token)) && !dir.contains_key(csv_path(prefix, trimmed(token)))
}

/// The trimmed tokens of a type row that name schemas whose files the
/// directory lacks, in the order of the columns.
pub open spec fn missing_files(
    types: Seq<Seq<char>>,
    prefix: Seq<char>,
    dir: Map<Seq<char>, Seq<u8>>,
) -> Seq<Seq<char>>
    decreases types.len(),
{
    if types.len() == 0 {
        Seq::empty()
    } else {
        let before = missing_files(types.drop_last(), prefix, dir);
        if is_missing(types.last(), prefix, dir) {
            before.push(trimmed(types.last()))
        } else {
            before
        }
    }
}

/// The character sequences that a list of strings holds.
pub open spec fn string_texts(v: Seq<String>) -> Seq<Seq<char>> {
    Seq::new(v.len(), |i: int| v[i]@)
}

/// The trimmed tokens of a type row that name schemas whose files the
/// directory lacks.
pub fn missing_in_row(types: &Vec<Vec<char>>, prefix: &Vec<char>, dir: &CsvDirectory) -> (r: Vec<
    String,
>)
    ensures
        string_texts(r@) == missing_files(texts(types@), prefix@, dir@),
{
    let mut r: Vec<String> = Vec::new();
    let mut i: usize = 0;
    let ghost t = texts(types@);
    assert(t.take(0) =~= Seq::<Seq<char>>::empty());
    assert(string_texts(r@) =~= Seq::<Seq<char>>::empty());
    while i < types.len()
        invariant
            i <= types.len(),
            t == texts(types@),
            string_texts(r@) == missing_files(t.take(i as int), prefix@, dir@),
        decreases types.len() - i,
    {
        let token = trim_chars(&types[i]);
        proof {
            assert(t.take(i + 1).drop_last() =~= t.take(i as int));
            assert(t.take(i + 1).last() == types@[i as int]@);
        }
        if likely_custom_chars(&token) {
            let path = csv_path_chars(prefix, &token);
            if dir.get_chars(&path).is_none() {
                let ghost before = string_texts(r@);
                r.push(string_of(&token));
                assert(string_texts(r@) =~= before.push(token@));
            }
        }
        i = i + 1;
    }
    assert(t.take(i as int) =~= t);
    r
}

/// The schemas that a row of type tokens names and whose files
/// `<base_dir>/<name>.csv` the directory lacks.
pub fn find_missing_files_in_types(field_types: &Vec<String>, base_dir: &str, dir: &CsvDirectory) -> (r:
    Vec<String>)
    ensures
        string_texts(r@) == missing_files(string_texts(field_types@), join_prefix(base_dir@), dir@),
{
    let mut types: Vec<Vec<char>> = Vec::new();
    let mut i: usize = 0;
    while i < field_types.len()
        invariant
            i <= field_types.len(),
            types.len() == i,
            forall|k: int| 0 <= k < i ==> types@[k]@ == field_types@[k]@,
        decreases field_types.len() - i,
    {
        types.push(chars_of(field_types[i].as_str()));
        i = i + 1;
    }
    assert(texts(types@) =~= string_texts(field_types@));
    let prefix = join_prefix_chars(&chars_of(base_dir));
    missing_in_row(&types, &prefix, dir)
}

/// What the analysis of an entry file for missing files gives: the schemas
/// that the third row of the file names and whose files the directory
/// lacks beside the entry file; none where the file has fewer rows.
pub open spec fn missing_analysis(path: Seq<char>, dir: Map<Seq<char>, Seq<u8>>) -> Result<
    Seq<Seq<char>>,
    SchemaErrorView,
> {
    if !dir.contains_key(path) {
        Err(SchemaErrorView::FileNotFound { path, source_file: path })
    } else {
        match csv_records(dir[path]) {
            None => Err(SchemaErrorView::CsvError),
            Some(rows) => if rows.len() >= 3 {
                Ok(missing_files(rows[2], directory_prefix(path), dir))
            } else {
                Ok(Seq::empty())
            },
        }
    }
}

/// The schemas that an entry file refers to and whose files are missing.
pub fn analyze_missing_files(file_path: &str, dir: &CsvDirectory) -> (r: Result<
    Vec<String>,
    SchemaError,
>)
    ensures
        match r {
            Ok(names) => missing_analysis(file_path@, dir@) == Ok::<
                Seq<Seq<char>>,
                SchemaErrorView,
            >(string_texts(names@)),
            Err(e) => missing_analysis(file_path@, dir@) == Err::<Seq<Seq<char>>, SchemaErrorView>(
                e@,
            ),
        },
{
    let path = chars_of(file_path);
    let data = match dir.get_chars(&path) {
        Some(data) => data,
        None => {
            return Err(
                SchemaError::FileNotFound {
                    path: string_of(&path),
                    source_file: string_of(&path),
                },
            );
        },
    };
    let rows = match read_records(data.as_slice()) {
        Ok(rows) => rows,
        Err(e) => {
            return Err(SchemaError::CsvError(e));
        },
    };
    if rows.len() >= 3 {
        let prefix = directory_prefix_chars(&path);
        assert(table(rows@)[2] == texts(rows@[2]@));
        Ok(missing_in_row(&rows[2], &prefix, dir))
    } else {
        let names: Vec<String> = Vec::new();
        assert(string_texts(names@) =~= Seq::<Seq<char>>::empty());
        Ok(names)
    }
}

} // verus!
