//! The graph of the schemas of a directory: which schema refers to which,
//! and which sets of schemas can be resolved together.

use crate::error::SchemaErrorView;
use crate::parse::{parsed_rows, ParsedView};
use crate::paths::{csv_path, lemma_csv_path_injective};
use crate::source::csv_records;
use crate::types::{FieldTypeView, FieldView, SchemaView};
use vstd::prelude::*;

verus! {

/// Why the file of a schema gives no fields at all: it is missing, it is
/// not CSV, or its header rows are refused. `source_file` is the file that
/// refers to the schema.
pub open spec fn node_failure(
    dir: Map<Seq<char>, Seq<u8>>,
    prefix: Seq<char>,
    name: Seq<char>,
    source_file: Seq<char>,
) -> Option<SchemaErrorView> {
    let path = csv_path(prefix, name);
    if !dir.contains_key(path) {
        Some(SchemaErrorView::FileNotFound { path, source_file })
    } else {
        match csv_records(dir[path]) {
            None => Some(SchemaErrorView::CsvError),
            Some(rows) => match parsed_rows(rows, name, path) {
                Err(e) => Some(e),
                Ok(_) => None,
            },
        }
    }
}

/// What the file of a schema gives, where it gives fields.
pub open spec fn node_parsed(dir: Map<Seq<char>, Seq<u8>>, prefix: Seq<char>, name: Seq<char>) -> ParsedView {
    let path = csv_path(prefix, name);
    parsed_rows(csv_records(dir[path]).unwrap(), name, path)->Ok_0
}

/// The schema that the file of `name` stands for; `None` where the file is
/// missing or refused in any way.
pub open spec fn node_schema(dir: Map<Seq<char>, Seq<u8>>, prefix: Seq<char>, name: Seq<char>) -> Option<
    SchemaView,
> {
    if node_failure(dir, prefix, name, Seq::empty()).is_none() && node_parsed(
        dir,
        prefix,
        name,
    ).failure.is_none() {
        Some(node_parsed(dir, prefix, name).schema)
    } else {
        None
    }
}

/// Whether a field of the schema has the type `Custom(target)`.
pub open spec fn refers_to(schema: SchemaView, target: Seq<char>) -> bool {
    exists|j: int|
        0 <= j < schema.fields.len() && #[trigger] schema.fields[j].field_type
            == FieldTypeView::Custom(target)
}

/// Whether the schema `name` has a good file and refers only to schemas of
/// `set` and of `known`.
pub open spec fn node_closed(
    set: Set<Seq<char>>,
    known: Set<Seq<char>>,
    dir: Map<Seq<char>, Seq<u8>>,
    prefix: Seq<char>,
    name: Seq<char>,
) -> bool {
    &&& node_schema(dir, prefix, name).is_some()
    &&& forall|t: Seq<char>| #[trigger]
        refers_to(node_schema(dir, prefix, name).unwrap(), t) ==> set.contains(t) || known.contains(
            t,
        )
}

/// Whether every schema of `set` has a good file and refers only to
/// schemas of `set` and of `known`.
pub open spec fn closed_under(
    set: Set<Seq<char>>,
    known: Set<Seq<char>>,
    dir: Map<Seq<char>, Seq<u8>>,
    prefix: Seq<char>,
) -> bool {
    forall|n: Seq<char>| #[trigger] set.contains(n) ==> node_closed(set, known, dir, prefix, n)
}

/// Whether `set` is a set of schemas with good files, closed under
/// reference but for the known schemas, by which `name` can be resolved.
pub open spec fn supports(
    set: Set<Seq<char>>,
    known: Set<Seq<char>>,
    dir: Map<Seq<char>, Seq<u8>>,
    prefix: Seq<char>,
    name: Seq<char>,
) -> bool {
    closed_under(set, known, dir, prefix) && (set.contains(name) || known.contains(name))
}

/// Whether `name` can be resolved: it is known, or it and every schema
/// that is reached from it by references, not passing through a known
/// schema, has a good file.
pub open spec fn resolvable(
    known: Set<Seq<char>>,
    dir: Map<Seq<char>, Seq<u8>>,
    prefix: Seq<char>,
    name: Seq<char>,
) -> bool {
    exists|set: Set<Seq<char>>| supports(set, known, dir, prefix, name)
}

/// Whether every reference of every schema of the map is to a schema of
/// the map.
pub open spec fn closed_graph(graph: Map<Seq<char>, SchemaView>) -> bool {
    forall|k: Seq<char>, t: Seq<char>|
        graph.contains_key(k) && #[trigger] refers_to(graph[k], t) ==> graph.contains_key(t)
}

/// The names that a pass has met: the known schemas, those added by the
/// pass, and those in progress.
pub open spec fn seen_names(
    known: Set<Seq<char>>,
    added: Set<Seq<char>>,
    stack: Seq<Seq<char>>,
) -> Set<Seq<char>> {
    Set::new(|n: Seq<char>| known.contains(n) || added.contains(n) || stack.contains(n))
}

/// Whether a path is the file of none of the names that were met.
pub open spec fn is_unvisited(path: Seq<char>, prefix: Seq<char>, seen: Set<Seq<char>>) -> bool {
    forall|n: Seq<char>| seen.contains(n) ==> path != #[trigger] csv_path(prefix, n)
}

/// The files of the directory that are files of names that were not met.
pub open spec fn unvisited_files(
    dir: Map<Seq<char>, Seq<u8>>,
    prefix: Seq<char>,
    seen: Set<Seq<char>>,
) -> Set<Seq<char>> {
    dir.dom().filter(|path: Seq<char>| is_unvisited(path, prefix, seen))
}

/// Meeting more names leaves no more files unvisited.
pub proof fn lemma_unvisited_monotone(
    dir: Map<Seq<char>, Seq<u8>>,
    prefix: Seq<char>,
    seen: Set<Seq<char>>,
    more: Set<Seq<char>>,
)
    requires
        dir.dom().finite(),
        seen.subset_of(more),
    ensures
        unvisited_files(dir, prefix, more).len() <= unvisited_files(dir, prefix, seen).len(),
{
    let before = unvisited_files(dir, prefix, seen);
    let after = unvisited_files(dir, prefix, more);
    dir.dom().lemma_len_filter(|path: Seq<char>| is_unvisited(path, prefix, seen));
    assert forall|p: Seq<char>| after.contains(p) implies before.contains(p) by {
        assert forall|n: Seq<char>| seen.contains(n) implies p != #[trigger] csv_path(prefix, n) by {
            assert(more.contains(n));
        }
    }
    vstd::set_lib::lemma_len_subset(after, before);
}

/// Meeting a new name whose file is in the directory leaves fewer files
/// unvisited.
pub proof fn lemma_unvisited_strict(
    dir: Map<Seq<char>, Seq<u8>>,
    prefix: Seq<char>,
    seen: Set<Seq<char>>,
    more: Set<Seq<char>>,
    name: Seq<char>,
)
    requires
        dir.dom().finite(),
        seen.subset_of(more),
        more.contains(name),
        !seen.contains(name),
        dir.contains_key(csv_path(prefix, name)),
    ensures
        unvisited_files(dir, prefix, more).len() < unvisited_files(dir, prefix, seen).len(),
{
    let before = unvisited_files(dir, prefix, seen);
    let after = unvisited_files(dir, prefix, more);
    let file = csv_path(prefix, name);
    dir.dom().lemma_len_filter(|path: Seq<char>| is_unvisited(path, prefix, seen));
    assert forall|p: Seq<char>| after.contains(p) implies before.contains(p) by {
        assert forall|n: Seq<char>| seen.contains(n) implies p != #[trigger] csv_path(prefix, n) by {
            assert(more.contains(n));
        }
    }
    assert(before.contains(file)) by {
        assert forall|n: Seq<char>| seen.contains(n) implies file != #[trigger] csv_path(prefix, n) by {
            if file == csv_path(prefix, n) {
                lemma_csv_path_injective(prefix, n, name);
            }
        }
    }
    assert(!after.contains(file));
    after.lemma_subset_not_in_lt(before, file);
}

/// The schema that a field type refers to.
pub open spec fn target_of(field_type: FieldTypeView) -> Option<Seq<char>> {
    match field_type {
        FieldTypeView::Custom(name) => Some(name),
        _ => None,
    }
}

/// The resolution of one schema, depth first: where the names `seen` were
/// met and `name` is referred to by the file `source_file`, the names met
/// after `name` is resolved, or the failure that ends the pass.
///
/// A name that was met is not looked at again. Else its file is read; the
/// references of its fields are resolved in the order of the columns, up
/// to the first column whose type cell is refused; then that refusal, if
/// there is one, ends the pass.
pub open spec fn visit(
    dir: Map<Seq<char>, Seq<u8>>,
    prefix: Seq<char>,
    seen: Set<Seq<char>>,
    name: Seq<char>,
    source_file: Seq<char>,
) -> Result<Set<Seq<char>>, SchemaErrorView>
    decreases unvisited_files(dir, prefix, seen).len(), 0nat,
    when dir.dom().finite()
{
    if seen.contains(name) {
        Ok(seen)
    } else if node_failure(dir, prefix, name, source_file).is_some() {
        Err(node_failure(dir, prefix, name, source_file).unwrap())
    } else {
        let parsed = node_parsed(dir, prefix, name);
        proof {
            lemma_unvisited_strict(dir, prefix, seen, seen.insert(name), name);
        }
        match visit_fields(
            dir,
            prefix,
            seen.insert(name),
            parsed.schema.fields,
            0,
            csv_path(prefix, name),
        ) {
            Err(e) => Err(e),
            Ok(met) => match parsed.failure {
                Some(e) => Err(e),
                None => Ok(met),
            },
        }
    }
}

/// The resolution of the references of the fields from column `from` on.
pub open spec fn visit_fields(
    dir: Map<Seq<char>, Seq<u8>>,
    prefix: Seq<char>,
    seen: Set<Seq<char>>,
    fields: Seq<FieldView>,
    from: nat,
    source_file: Seq<char>,
) -> Result<Set<Seq<char>>, SchemaErrorView>
    decreases unvisited_files(dir, prefix, seen).len(), fields.len() - from + 1,
    when dir.dom().finite()
{
    if from >= fields.len() {
        Ok(seen)
    } else {
        match target_of(fields[from as int].field_type) {
            None => visit_fields(dir, prefix, seen, fields, from + 1, source_file),
            Some(target) => match visit(dir, prefix, seen, target, source_file) {
                Err(e) => Err(e),
                Ok(met) => {
                    proof {
                        lemma_unvisited_monotone(dir, prefix, seen, seen.union(met));
                    }
                    visit_fields(dir, prefix, seen.union(met), fields, from + 1, source_file)
                },
            },
        }
    }
}

/// A name that was met is accepted as it is and its file is not read
/// again: a reference back into a circle of references, or of a schema to
/// itself, is no failure.
pub proof fn lemma_met_name_is_accepted(
    dir: Map<Seq<char>, Seq<u8>>,
    prefix: Seq<char>,
    seen: Set<Seq<char>>,
    name: Seq<char>,
    source_file: Seq<char>,
)
    requires
        dir.dom().finite(),
        seen.contains(name),
    ensures
        visit(dir, prefix, seen, name, source_file) == Ok::<Set<Seq<char>>, SchemaErrorView>(seen),
{
}

/// Where the file of a name that was not met is missing or refused, that
/// is the failure of the resolution of the name; a missing file is
/// reported with the file that refers to it.
pub proof fn lemma_own_failure_comes_first(
    dir: Map<Seq<char>, Seq<u8>>,
    prefix: Seq<char>,
    seen: Set<Seq<char>>,
    name: Seq<char>,
    source_file: Seq<char>,
)
    requires
        dir.dom().finite(),
        !seen.contains(name),
        node_failure(dir, prefix, name, source_file).is_some(),
    ensures
        visit(dir, prefix, seen, name, source_file) == Err::<Set<Seq<char>>, SchemaErrorView>(
            node_failure(dir, prefix, name, source_file).unwrap(),
        ),
        !dir.contains_key(csv_path(prefix, name)) ==> visit(dir, prefix, seen, name, source_file)
            == Err::<Set<Seq<char>>, SchemaErrorView>(
            SchemaErrorView::FileNotFound { path: csv_path(prefix, name), source_file },
        ),
{
}

/// A schema with a good file that refers only to itself and to known
/// schemas is resolvable.
pub proof fn lemma_self_reference_is_resolvable(
    known: Set<Seq<char>>,
    dir: Map<Seq<char>, Seq<u8>>,
    prefix: Seq<char>,
    name: Seq<char>,
)
    requires
        node_schema(dir, prefix, name).is_some(),
        forall|t: Seq<char>| #[trigger]
            refers_to(node_schema(dir, prefix, name).unwrap(), t) ==> t == name || known.contains(t),
    ensures
        resolvable(known, dir, prefix, name),
{
    let set = Set::<Seq<char>>::empty().insert(name);
    assert(node_closed(set, known, dir, prefix, name));
    assert(supports(set, known, dir, prefix, name));
}

/// Two schemas with good files that refer only to each other, to
/// themselves and to known schemas are resolvable, each of them.
pub proof fn lemma_circle_is_resolvable(
    known: Set<Seq<char>>,
    dir: Map<Seq<char>, Seq<u8>>,
    prefix: Seq<char>,
    one: Seq<char>,
    other: Seq<char>,
)
    requires
        node_schema(dir, prefix, one).is_some(),
        node_schema(dir, prefix, other).is_some(),
        forall|t: Seq<char>| #[trigger]
            refers_to(node_schema(dir, prefix, one).unwrap(), t) ==> t == one || t == other
                || known.contains(t),
        forall|t: Seq<char>| #[trigger]
            refers_to(node_schema(dir, prefix, other).unwrap(), t) ==> t == one || t == other
                || known.contains(t),
    ensures
        resolvable(known, dir, prefix, one),
        resolvable(known, dir, prefix, other),
{
    let set = Set::<Seq<char>>::empty().insert(one).insert(other);
    assert(node_closed(set, known, dir, prefix, one));
    assert(node_closed(set, known, dir, prefix, other));
    assert(supports(set, known, dir, prefix, one));
    assert(supports(set, known, dir, prefix, other));
}

} // verus!
