//! The schema resolver: builds the graph of the schemas that an entry file
//! reaches, reading each file once and accepting references in a circle.

use crate::error::{SchemaError, SchemaErrorView};
use crate::graph::{closed_graph, closed_under};
use crate::graph::{lemma_unvisited_strict, node_closed, node_failure, node_parsed, node_schema};
use crate::graph::{refers_to, resolvable, seen_names, supports, target_of, unvisited_files};
use crate::graph::{visit, visit_fields};
use crate::header::{find_header_row, header_failure, header_index, HeaderKind};
use crate::naming::{camel_case, camel_case_chars, is_identifier, sanitized, sanitized_chars};
use crate::parse::{char_rows, classify, classify_chars, parse_bytes, parse_rows, parsed_file};
use crate::parse::{parsed_view, string_table, ParsedFile};
use crate::paths::{csv_path, csv_path_chars, directory_prefix, directory_prefix_chars};
use crate::paths::{schema_name_chars, schema_name_of};
use crate::schema_map::SchemaMap;
use crate::source::{read_records, CsvDirectory};
use crate::text::{chars_of, copy_chars, list_contains, string_of, texts};
use crate::types::{FieldType, FieldTypeView, SchemaView};
use vstd::prelude::*;

verus! {

/// What holds of the schemas that a pass has added so far: none was known
/// before or is still in progress, each is what its file stands for, and
/// each refers only to schemas that the pass has met.
pub open spec fn pass_invariant(
    known: Map<Seq<char>, SchemaView>,
    added: Map<Seq<char>, SchemaView>,
    stack: Seq<Seq<char>>,
    dir: Map<Seq<char>, Seq<u8>>,
    prefix: Seq<char>,
) -> bool {
    &&& forall|k: Seq<char>| #[trigger]
        added.contains_key(k) ==> !known.contains_key(k) && !stack.contains(k) && node_schema(
            dir,
            prefix,
            k,
        ) == Some(added[k])
    &&& forall|k: Seq<char>, t: Seq<char>|
        added.contains_key(k) && #[trigger] refers_to(added[k], t) ==> known.contains_key(t)
            || added.contains_key(t) || stack.contains(t)
}

/// The message for a path that names no file.
pub open spec fn no_schema_name() -> Seq<char> {
    "Cannot extract schema name from file path"@
}

/// The schemas that a pass adds to `old` to make `new`.
pub open spec fn added_names(
    old: Map<Seq<char>, SchemaView>,
    new: Map<Seq<char>, SchemaView>,
) -> Set<Seq<char>> {
    new.dom().difference(old.dom())
}

/// What one resolution pass does: from the schemas `old`, for the entry
/// file `path` in the directory `dir`, it makes the schemas `new` and
/// returns `result`.
///
/// The name of the entry schema is taken from the path. The pass succeeds
/// exactly where that schema is resolvable. It then adds the least set of
/// schemas by which the entry schema can be resolved, each as its file
/// gives it, and changes no schema that was there. Where it fails it
/// changes nothing, and the failure is the first that the resolution
/// meets, depth first and in the order of the columns.
pub open spec fn resolution(
    old: Map<Seq<char>, SchemaView>,
    dir: Map<Seq<char>, Seq<u8>>,
    path: Seq<char>,
    new: Map<Seq<char>, SchemaView>,
    result: Result<Seq<char>, SchemaErrorView>,
) -> bool {
    match schema_name_of(path) {
        None => new == old && result == Err::<Seq<char>, SchemaErrorView>(
            SchemaErrorView::InvalidFormat { reason: no_schema_name() },
        ),
        Some(name) => {
            let prefix = directory_prefix(path);
            let walk = visit(dir, prefix, old.dom(), name, path);
            if resolvable(old.dom(), dir, prefix, name) {
                &&& result == Ok::<Seq<char>, SchemaErrorView>(name)
                &&& walk == Ok::<Set<Seq<char>>, SchemaErrorView>(new.dom())
                &&& forall|k: Seq<char>|
                    old.contains_key(k) ==> #[trigger] new.contains_key(k) && new[k] == old[k]
                &&& new.contains_key(name)
                &&& forall|k: Seq<char>| #[trigger]
                    added_names(old, new).contains(k) ==> node_schema(dir, prefix, k) == Some(new[k])
                &&& supports(added_names(old, new), old.dom(), dir, prefix, name)
                &&& forall|c: Set<Seq<char>>|
                    #![trigger supports(c, old.dom(), dir, prefix, name)]
                    supports(c, old.dom(), dir, prefix, name) ==> added_names(old, new).subset_of(c)
            } else {
                &&& new == old
                &&& walk.is_err()
                &&& result == Err::<Seq<char>, SchemaErrorView>(walk->Err_0)
            }
        },
    }
}

/// The model of what a resolution pass returns.
pub open spec fn result_view(r: Result<String, SchemaError>) -> Result<Seq<char>, SchemaErrorView> {
    match r {
        Ok(name) => Ok(name@),
        Err(e) => Err(e@),
    }
}

/// Builds the graph of schemas from CSV files.
pub struct SchemaBuilder {
    schemas: SchemaMap,
}

impl View for SchemaBuilder {
    type V = Map<Seq<char>, SchemaView>;

    closed spec fn view(&self) -> Map<Seq<char>, SchemaView> {
        self.schemas@
    }
}

impl SchemaBuilder {
    /// Every reference of a resolved schema is to a resolved schema.
    #[verifier::type_invariant]
    pub closed spec fn wf(&self) -> bool {
        closed_graph(self.schemas@) && self.schemas.wf()
    }

    /// A builder without schemas.
    pub fn new() -> (r: Self)
        ensures
            r@ == Map::<Seq<char>, SchemaView>::empty(),
            r.wf(),
    {
        SchemaBuilder { schemas: SchemaMap::new() }
    }

    /// The schemas resolved so far.
    pub fn get_all_schemas(&self) -> (r: &SchemaMap)
        ensures
            r@ == self@,
            closed_graph(r@),
            r.wf(),
    {
        proof {
            use_type_invariant(self);
        }
        &self.schemas
    }

    /// Resolves the schema of the entry file `file_path` and every schema
    /// that it reaches by references, from the files of `dir` that stand
    /// beside the entry file.
    pub fn build_schema_from_file(&mut self, file_path: &str, dir: &CsvDirectory) -> (r: Result<
        String,
        SchemaError,
    >)
        ensures
            resolution(old(self)@, dir@, file_path@, final(self)@, result_view(r)),
            final(self).wf(),
    {
        proof {
            use_type_invariant(&*self);
        }
        let path = chars_of(file_path);
        let name = match schema_name_chars(&path) {
            Some(name) => name,
            None => {
                return Err(
                    SchemaError::InvalidFormat {
                        reason: "Cannot extract schema name from file path".to_owned(),
                    },
                );
            },
        };
        let prefix = directory_prefix_chars(&path);
        let mut added = SchemaMap::new();
        let mut stack: Vec<Vec<char>> = Vec::new();
        let ghost old_map = self.schemas@;
        let ghost known = old_map.dom();
        match Self::build_schema_recursive(
            &self.schemas,
            &mut added,
            &mut stack,
            dir,
            &prefix,
            &name,
            &path,
        ) {
            Err(e) => {
                proof {
                    if resolvable(known, dir@, prefix@, name@) {
                        let c = choose|c: Set<Seq<char>>| supports(c, known, dir@, prefix@, name@);
                        assert(supports(c, known, dir@, prefix@, name@));
                    }
                    assert(seen_names(
                        known,
                        Map::<Seq<char>, SchemaView>::empty().dom(),
                        texts(Seq::<Vec<char>>::empty()),
                    ) =~= known);
                }
                Err(e)
            },
            Ok(()) => {
                let ghost extra = added@;
                let mut schemas = SchemaMap::new();
                std::mem::swap(&mut self.schemas, &mut schemas);
                schemas.absorb(added);
                proof {
                    let new_map = schemas@;
                    let fresh = added_names(old_map, new_map);
                    assert(fresh =~= extra.dom());
                    assert(seen_names(
                        known,
                        Map::<Seq<char>, SchemaView>::empty().dom(),
                        texts(Seq::<Vec<char>>::empty()),
                    ) =~= known);
                    assert(seen_names(known, extra.dom(), texts(Seq::<Vec<char>>::empty()))
                        =~= new_map.dom());
                    assert forall|k: Seq<char>| #[trigger] fresh.contains(k) implies node_schema(
                        dir@,
                        prefix@,
                        k,
                    ) == Some(new_map[k]) by {
                        assert(extra.contains_key(k));
                    }
                    assert(closed_under(fresh, known, dir@, prefix@)) by {
                        assert forall|n: Seq<char>| #[trigger] fresh.contains(n) implies node_closed(
                            fresh,
                            known,
                            dir@,
                            prefix@,
                            n,
                        ) by {
                            assert(extra.contains_key(n));
                            assert forall|t: Seq<char>| #[trigger]
                                refers_to(
                                    node_schema(dir@, prefix@, n).unwrap(),
                                    t,
                                ) implies fresh.contains(t) || known.contains(t) by {
                                assert(refers_to(extra[n], t));
                                assert(!texts(Seq::<Vec<char>>::empty()).contains(t));
                            }
                        }
                    }
                    assert(fresh.contains(name@) || known.contains(name@)) by {
                        assert(!texts(Seq::<Vec<char>>::empty()).contains(name@));
                    }
                    assert(supports(fresh, known, dir@, prefix@, name@));
                    assert forall|c: Set<Seq<char>>|
                        #![trigger supports(c, known, dir@, prefix@, name@)]
                        supports(c, known, dir@, prefix@, name@) implies fresh.subset_of(c) by {
                        assert forall|k: Seq<char>| fresh.contains(k) implies c.contains(k) by {
                            assert(extra.contains_key(k));
                        }
                    }
                    assert(closed_graph(new_map)) by {
                        assert forall|k: Seq<char>, t: Seq<char>|
                            new_map.contains_key(k) && #[trigger] refers_to(
                                new_map[k],
                                t,
                            ) implies new_map.contains_key(t) by {
                            if old_map.contains_key(k) {
                                assert(refers_to(old_map[k], t));
                            } else {
                                assert(extra.contains_key(k));
                                assert(refers_to(extra[k], t));
                                assert(!texts(Seq::<Vec<char>>::empty()).contains(t));
                            }
                        }
                    }
                }
                self.schemas = schemas;
                Ok(string_of(&name))
            },
        }
    }

    /// Resolves `name` and what it refers to, for the pass that has added
    /// `added` to the schemas `known` and has `stack` in progress.
    fn build_schema_recursive(
        known: &SchemaMap,
        added: &mut SchemaMap,
        stack: &mut Vec<Vec<char>>,
        dir: &CsvDirectory,
        prefix: &Vec<char>,
        name: &Vec<char>,
        source_file: &Vec<char>,
    ) -> (r: Result<(), SchemaError>)
        requires
            pass_invariant(known@, old(added)@, texts(old(stack)@), dir@, prefix@),
        ensures
            r.is_ok() ==> {
                &&& texts(final(stack)@) == texts(old(stack)@)
                &&& pass_invariant(known@, final(added)@, texts(old(stack)@), dir@, prefix@)
                &&& forall|k: Seq<char>|
                    old(added)@.contains_key(k) ==> #[trigger] final(added)@.contains_key(k)
                        && final(added)@[k] == old(added)@[k]
                &&& seen_names(known@.dom(), final(added)@.dom(), texts(old(stack)@)).contains(name@)
                &&& visit(
                    dir@,
                    prefix@,
                    seen_names(known@.dom(), old(added)@.dom(), texts(old(stack)@)),
                    name@,
                    source_file@,
                ) == Ok::<Set<Seq<char>>, SchemaErrorView>(
                    seen_names(known@.dom(), final(added)@.dom(), texts(old(stack)@)),
                )
                &&& forall|c: Set<Seq<char>>, k: Seq<char>| #[trigger]
                    supports(c, known@.dom(), dir@, prefix@, name@)
                        && #[trigger] final(added)@.contains_key(k)
                        && !old(added)@.contains_key(k) ==> c.contains(k)
            },
            r.is_err() ==> {
                &&& forall|c: Set<Seq<char>>| !#[trigger] supports(c, known@.dom(), dir@, prefix@, name@)
                &&& visit(
                    dir@,
                    prefix@,
                    seen_names(known@.dom(), old(added)@.dom(), texts(old(stack)@)),
                    name@,
                    source_file@,
                ) == Err::<Set<Seq<char>>, SchemaErrorView>(r->Err_0@)
            },
        decreases
            unvisited_files(
                dir@,
                prefix@,
                seen_names(known@.dom(), old(added)@.dom(), texts(old(stack)@)),
            ).len(),
    {
        let ghost known_set = known@.dom();
        let ghost old_added = added@;
        let ghost old_stack = texts(stack@);
        let ghost seen0 = seen_names(known_set, old_added.dom(), old_stack);
        proof {
            dir.lemma_finite();
        }
        if known.contains_chars(name) || added.contains_chars(name) || list_contains(stack, name) {
            return Ok(());
        }
        assert(!seen0.contains(name@));
        let path = csv_path_chars(prefix, name);
        let data = match dir.get_chars(&path) {
            Some(d) => d,
            None => {
                proof {
                    assert forall|c: Set<Seq<char>>| !#[trigger] supports(
                        c,
                        known_set,
                        dir@,
                        prefix@,
                        name@,
                    ) by {
                        if supports(c, known_set, dir@, prefix@, name@) {
                            assert(c.contains(name@));
                            assert(node_closed(c, known_set, dir@, prefix@, name@));
                        }
                    }
                }
                return Err(
                    SchemaError::FileNotFound {
                        path: string_of(&path),
                        source_file: string_of(source_file),
                    },
                );
            },
        };
        let rows = match read_records(data.as_slice()) {
            Ok(rows) => rows,
            Err(e) => {
                proof {
                    assert forall|c: Set<Seq<char>>| !#[trigger] supports(
                        c,
                        known_set,
                        dir@,
                        prefix@,
                        name@,
                    ) by {
                        if supports(c, known_set, dir@, prefix@, name@) {
                            assert(c.contains(name@));
                            assert(node_closed(c, known_set, dir@, prefix@, name@));
                        }
                    }
                }
                return Err(SchemaError::CsvError(e));
            },
        };
        let parsed = match parse_rows(&rows, name, &path) {
            Ok(p) => p,
            Err(e) => {
                proof {
                    assert forall|c: Set<Seq<char>>| !#[trigger] supports(
                        c,
                        known_set,
                        dir@,
                        prefix@,
                        name@,
                    ) by {
                        if supports(c, known_set, dir@, prefix@, name@) {
                            assert(c.contains(name@));
                            assert(node_closed(c, known_set, dir@, prefix@, name@));
                        }
                    }
                }
                return Err(e);
            },
        };
        assert(node_failure(dir@, prefix@, name@, source_file@).is_none());
        assert(node_failure(dir@, prefix@, name@, Seq::empty()).is_none());
        assert(node_parsed(dir@, prefix@, name@) == parsed@);
        stack.push(copy_chars(name));
        let ghost in_stack = old_stack.push(name@);
        proof {
            assert(texts(stack@) =~= in_stack);
            let seen1 = seen_names(known_set, old_added.dom(), in_stack);
            assert(in_stack[old_stack.len() as int] == name@);
            assert forall|n: Seq<char>| seen0.contains(n) implies seen1.contains(n) by {
                if old_stack.contains(n) {
                    let i = choose|i: int| 0 <= i < old_stack.len() && old_stack[i] == n;
                    assert(in_stack[i] == n);
                }
            }
            lemma_unvisited_strict(dir@, prefix@, seen0, seen1, name@);
            assert(seen1 =~= seen0.insert(name@));
            assert forall|k: Seq<char>| #[trigger] old_added.contains_key(k) implies !in_stack.contains(
                k,
            ) by {
                if in_stack.contains(k) {
                    let i = choose|i: int| 0 <= i < in_stack.len() && in_stack[i] == k;
                    if i < old_stack.len() {
                        assert(old_stack[i] == k);
                    }
                }
            }
            assert forall|k: Seq<char>, t: Seq<char>|
                old_added.contains_key(k) && #[trigger] refers_to(
                    old_added[k],
                    t,
                ) implies known@.contains_key(t) || old_added.contains_key(t) || in_stack.contains(
                t,
            ) by {
                if old_stack.contains(t) {
                    let i = choose|i: int| 0 <= i < old_stack.len() && old_stack[i] == t;
                    assert(in_stack[i] == t);
                }
            }
        }
        let mut j: usize = 0;
        while j < parsed.schema.fields.len()
            invariant
                j <= parsed.schema.fields.len(),
                known_set == known@.dom(),
                old_added == old(added)@,
                old_stack == texts(old(stack)@),
                seen0 == seen_names(known_set, old_added.dom(), old_stack),
                texts(stack@) == in_stack,
                in_stack == old_stack.push(name@),
                path@ == csv_path(prefix@, name@),
                !known@.contains_key(name@),
                !old_stack.contains(name@),
                node_failure(dir@, prefix@, name@, Seq::empty()).is_none(),
                node_parsed(dir@, prefix@, name@) == parsed@,
                pass_invariant(known@, added@, in_stack, dir@, prefix@),
                forall|k: Seq<char>|
                    old_added.contains_key(k) ==> #[trigger] added@.contains_key(k) && added@[k]
                        == old_added[k],
                dir@.dom().finite(),
                seen0.subset_of(seen_names(known_set, added@.dom(), in_stack)),
                seen_names(known_set, added@.dom(), in_stack).contains(name@),
                dir@.contains_key(csv_path(prefix@, name@)),
                !seen0.contains(name@),
                visit_fields(
                    dir@,
                    prefix@,
                    seen_names(known_set, added@.dom(), in_stack),
                    parsed@.schema.fields,
                    j as nat,
                    path@,
                ) == visit_fields(
                    dir@,
                    prefix@,
                    seen0.insert(name@),
                    parsed@.schema.fields,
                    0,
                    path@,
                ),
                forall|c: Set<Seq<char>>, k: Seq<char>| #[trigger]
                    supports(c, known_set, dir@, prefix@, name@) && #[trigger] added@.contains_key(k)
                        && !old_added.contains_key(k) ==> c.contains(k),
                forall|i: int|
                    0 <= i < j && (#[trigger] target_of(
                        parsed@.schema.fields[i].field_type,
                    )).is_some() ==> known@.contains_key(
                        target_of(parsed@.schema.fields[i].field_type).unwrap(),
                    ) || added@.contains_key(target_of(parsed@.schema.fields[i].field_type).unwrap())
                        || in_stack.contains(
                        target_of(parsed@.schema.fields[i].field_type).unwrap(),
                    ),
            decreases parsed.schema.fields.len() - j,
        {
            let ghost before = added@;
            let ghost seen_here = seen_names(known_set, before.dom(), in_stack);
            assert(parsed@.schema.fields[j as int] == parsed.schema.fields@[j as int]@);
            proof {
                lemma_unvisited_strict(dir@, prefix@, seen0, seen_here, name@);
            }
            match &parsed.schema.fields[j].field_type {
                FieldType::Custom(target) => {
                    let t = chars_of(target.as_str());
                    assert(parsed.schema.fields@[j as int]@.field_type == FieldTypeView::Custom(t@));
                    assert(target_of(parsed@.schema.fields[j as int].field_type) == Some(t@));
                    match Self::build_schema_recursive(known, added, stack, dir, prefix, &t, &path) {
                        Ok(()) => {
                            proof {
                                let seen_next = seen_names(known_set, added@.dom(), in_stack);
                                assert(seen_here.union(seen_next) =~= seen_next);
                                assert(seen0.subset_of(seen_next));
                                assert forall|c: Set<Seq<char>>, k: Seq<char>| #[trigger]
                                    supports(c, known_set, dir@, prefix@, name@)
                                        && #[trigger] added@.contains_key(k)
                                        && !old_added.contains_key(k) implies c.contains(k) by {
                                    if !before.contains_key(k) {
                                        assert(c.contains(name@));
                                        assert(node_closed(c, known_set, dir@, prefix@, name@));
                                        assert(node_schema(dir@, prefix@, name@) == Some(
                                            parsed@.schema,
                                        ));
                                        assert(refers_to(parsed@.schema, t@));
                                        assert(refers_to(
                                            node_schema(dir@, prefix@, name@).unwrap(),
                                            t@,
                                        ));
                                        assert(c.contains(t@) || known_set.contains(t@));
                                        assert(supports(c, known_set, dir@, prefix@, t@));
                                    }
                                }
                                assert forall|i: int|
                                    0 <= i < j + 1 && (#[trigger] target_of(
                                        parsed@.schema.fields[i].field_type,
                                    )).is_some() implies known@.contains_key(
                                    target_of(parsed@.schema.fields[i].field_type).unwrap(),
                                ) || added@.contains_key(
                                    target_of(parsed@.schema.fields[i].field_type).unwrap(),
                                ) || in_stack.contains(
                                    target_of(parsed@.schema.fields[i].field_type).unwrap(),
                                ) by {
                                    let u = target_of(parsed@.schema.fields[i].field_type).unwrap();
                                    if i < j {
                                        assert(known@.contains_key(u) || before.contains_key(u)
                                            || in_stack.contains(u));
                                    }
                                }
                            }
                        },
                        Err(e) => {
                            proof {
                                assert forall|c: Set<Seq<char>>| !#[trigger] supports(
                                    c,
                                    known_set,
                                    dir@,
                                    prefix@,
                                    name@,
                                ) by {
                                    if supports(c, known_set, dir@, prefix@, name@) {
                                        assert(c.contains(name@));
                                        assert(node_closed(c, known_set, dir@, prefix@, name@));
                                        assert(node_schema(dir@, prefix@, name@) == Some(
                                            parsed@.schema,
                                        ));
                                        assert(refers_to(parsed@.schema, t@));
                                        assert(refers_to(
                                            node_schema(dir@, prefix@, name@).unwrap(),
                                            t@,
                                        ));
                                        assert(c.contains(t@) || known_set.contains(t@));
                                        assert(supports(c, known_set, dir@, prefix@, t@));
                                    }
                                }
                            }
                            return Err(e);
                        },
                    }
                },
                _ => {
                    assert(target_of(parsed@.schema.fields[j as int].field_type).is_none());
                },
            }
            j = j + 1;
        }
        let ghost parsed_view = parsed@;
        let ParsedFile { schema, failure } = parsed;
        match failure {
            Some(e) => {
                proof {
                    assert forall|c: Set<Seq<char>>| !#[trigger] supports(
                        c,
                        known_set,
                        dir@,
                        prefix@,
                        name@,
                    ) by {
                        if supports(c, known_set, dir@, prefix@, name@) {
                            assert(c.contains(name@));
                            assert(node_closed(c, known_set, dir@, prefix@, name@));
                        }
                    }
                }
                return Err(e);
            },
            None => {},
        }
        assert(node_schema(dir@, prefix@, name@) == Some(schema@));
        let ghost full = stack@;
        stack.pop();
        assert(texts(stack@) =~= old_stack) by {
            assert(stack@ == full.drop_last());
            assert(texts(full).len() == in_stack.len());
            assert forall|i: int| 0 <= i < stack@.len() implies texts(stack@)[i] == old_stack[i] by {
                assert(texts(full)[i] == in_stack[i]);
            }
        }
        let ghost before = added@;
        assert(!before.contains_key(name@)) by {
            assert(in_stack[old_stack.len() as int] == name@);
        }
        let inserted = added.insert(schema);
        proof {
            assert(schema@.name == name@);
            assert(added@ == before.insert(name@, schema@));
            assert forall|k: Seq<char>| #[trigger] added@.contains_key(k) implies !known@.contains_key(
                k,
            ) && !old_stack.contains(k) && node_schema(dir@, prefix@, k) == Some(added@[k]) by {
                if k != name@ {
                    assert(before.contains_key(k));
                    if old_stack.contains(k) {
                        let i = choose|i: int| 0 <= i < old_stack.len() && old_stack[i] == k;
                        assert(in_stack[i] == k);
                    }
                }
            }
            assert forall|k: Seq<char>, t: Seq<char>|
                added@.contains_key(k) && #[trigger] refers_to(added@[k], t) implies known@.contains_key(
                t,
            ) || added@.contains_key(t) || old_stack.contains(t) by {
                if k != name@ {
                    assert(before.contains_key(k) && refers_to(before[k], t));
                } else {
                    let i = choose|i: int|
                        0 <= i < schema@.fields.len() && #[trigger] schema@.fields[i].field_type
                            == FieldTypeView::Custom(t);
                    assert(target_of(parsed_view.schema.fields[i].field_type) == Some(t));
                }
                if in_stack.contains(t) {
                    let i = choose|i: int| 0 <= i < in_stack.len() && in_stack[i] == t;
                    if i < old_stack.len() {
                        assert(old_stack[i] == t);
                    }
                }
            }
            let seen_in = seen_names(known_set, before.dom(), in_stack);
            let seen_out = seen_names(known_set, added@.dom(), old_stack);
            assert forall|n: Seq<char>| seen_in.contains(n) == seen_out.contains(n) by {
                if in_stack.contains(n) {
                    let i = choose|i: int| 0 <= i < in_stack.len() && in_stack[i] == n;
                    if i < old_stack.len() {
                        assert(old_stack[i] == n);
                    }
                }
                if old_stack.contains(n) {
                    let i = choose|i: int| 0 <= i < old_stack.len() && old_stack[i] == n;
                    assert(in_stack[i] == n);
                }
                if n == name@ {
                    assert(in_stack[old_stack.len() as int] == n);
                }
            }
            assert(seen_in =~= seen_out);
        }
        Ok(())
    }
}

/// The model of a classified type token.
pub open spec fn field_type_view(r: Result<FieldType, SchemaError>) -> Result<
    FieldTypeView,
    SchemaErrorView,
> {
    match r {
        Ok(t) => Ok(t@),
        Err(e) => Err(e@),
    }
}

/// The place of the one header row of a kind in rows of strings, or the
/// failure to find exactly one.
pub open spec fn located_header(kind: HeaderKind, rows: Seq<Vec<String>>, path: Seq<char>) -> Result<
    int,
    SchemaErrorView,
> {
    match header_failure(kind, string_table(rows), path) {
        Some(e) => Err(e),
        None => Ok(header_index(kind, string_table(rows))),
    }
}

/// The model of a located header row.
pub open spec fn located_view(r: Result<usize, SchemaError>) -> Result<int, SchemaErrorView> {
    match r {
        Ok(i) => Ok(i as int),
        Err(e) => Err(e@),
    }
}

impl SchemaBuilder {
    /// The fields that the bytes of the file `csv_path` give for the schema
    /// `schema_name`. No reference is followed.
    pub fn parse_csv_file(data: &[u8], schema_name: &str, csv_path: &str) -> (r: Result<
        ParsedFile,
        SchemaError,
    >)
        ensures
            parsed_view(r) == parsed_file(data@, schema_name@, csv_path@),
    {
        parse_bytes(data, &chars_of(schema_name), &chars_of(csv_path))
    }

    /// What a type token denotes.
    pub fn parse_field_type(type_str: &str) -> (r: Result<FieldType, SchemaError>)
        ensures
            field_type_view(r) == classify(type_str@),
    {
        classify_chars(&chars_of(type_str))
    }

    /// The place of the row of field identifiers.
    pub fn find_field_names_row(records: &Vec<Vec<String>>, csv_path: &str) -> (r: Result<
        usize,
        SchemaError,
    >)
        ensures
            located_view(r) == located_header(HeaderKind::Names, records@, csv_path@),
            r.is_ok() ==> r.unwrap() < records.len(),
    {
        find_header_row(HeaderKind::Names, &char_rows(records), &chars_of(csv_path))
    }

    /// The place of the row of field descriptions.
    pub fn find_field_descriptions_row(records: &Vec<Vec<String>>, csv_path: &str) -> (r: Result<
        usize,
        SchemaError,
    >)
        ensures
            located_view(r) == located_header(HeaderKind::Descriptions, records@, csv_path@),
            r.is_ok() ==> r.unwrap() < records.len(),
    {
        find_header_row(HeaderKind::Descriptions, &char_rows(records), &chars_of(csv_path))
    }

    /// The place of the row of field types.
    pub fn find_field_types_row(records: &Vec<Vec<String>>, csv_path: &str) -> (r: Result<
        usize,
        SchemaError,
    >)
        ensures
            located_view(r) == located_header(HeaderKind::Types, records@, csv_path@),
            r.is_ok() ==> r.unwrap() < records.len(),
    {
        find_header_row(HeaderKind::Types, &char_rows(records), &chars_of(csv_path))
    }

    /// The field name made of a description: an identifier in camel case.
    pub fn sanitize_field_name(name: &str) -> (r: String)
        ensures
            r@ == sanitized(name@),
            is_identifier(r@),
    {
        string_of(&sanitized_chars(&chars_of(name)))
    }

    /// The camel-case form of a name.
    pub fn to_camel_case(name: &str) -> (r: String)
        ensures
            r@ == camel_case(name@),
    {
        string_of(&camel_case_chars(&chars_of(name)))
    }
}

impl Default for SchemaBuilder {
    fn default() -> (r: Self)
        ensures
            r@ == Map::<Seq<char>, SchemaView>::empty(),
    {
        SchemaBuilder::new()
    }
}

/// Resolving an entry file again, after a pass that succeeded, changes
/// nothing and gives the same name, whatever the directory then holds: a
/// resolved schema is not read again.
pub proof fn lemma_resolution_idempotent(
    before: Map<Seq<char>, SchemaView>,
    dir: Map<Seq<char>, Seq<u8>>,
    path: Seq<char>,
    once: Map<Seq<char>, SchemaView>,
    first: Result<Seq<char>, SchemaErrorView>,
    later_dir: Map<Seq<char>, Seq<u8>>,
    twice: Map<Seq<char>, SchemaView>,
    second: Result<Seq<char>, SchemaErrorView>,
)
    requires
        resolution(before, dir, path, once, first),
        first.is_ok(),
        resolution(once, later_dir, path, twice, second),
    ensures
        twice == once,
        second == first,
{
    let name = schema_name_of(path).unwrap();
    let prefix = directory_prefix(path);
    let none = Set::<Seq<char>>::empty();
    assert(once.contains_key(name));
    assert(supports(none, once.dom(), later_dir, prefix, name));
    assert(added_names(once, twice).subset_of(none));
    assert forall|k: Seq<char>| twice.contains_key(k) implies once.contains_key(k) by {
        if !once.contains_key(k) {
            assert(added_names(once, twice).contains(k));
        }
    }
    assert(twice =~= once);
}

/// What a pass makes of the schemas is fixed by the schemas before it, the
/// directory and the entry path; so is what it returns where it succeeds.
pub proof fn lemma_resolution_determined(
    before: Map<Seq<char>, SchemaView>,
    dir: Map<Seq<char>, Seq<u8>>,
    path: Seq<char>,
    one: Map<Seq<char>, SchemaView>,
    one_result: Result<Seq<char>, SchemaErrorView>,
    other: Map<Seq<char>, SchemaView>,
    other_result: Result<Seq<char>, SchemaErrorView>,
)
    requires
        resolution(before, dir, path, one, one_result),
        resolution(before, dir, path, other, other_result),
    ensures
        one == other,
        one_result == other_result,
{
    if schema_name_of(path).is_some() {
        let name = schema_name_of(path).unwrap();
        let prefix = directory_prefix(path);
        if resolvable(before.dom(), dir, prefix, name) {
            let a = added_names(before, one);
            let b = added_names(before, other);
            assert(a.subset_of(b));
            assert(b.subset_of(a));
            assert forall|k: Seq<char>| #[trigger] one.dom().contains(k) == other.dom().contains(k) by {
                if one.contains_key(k) && !before.contains_key(k) {
                    assert(a.contains(k));
                    assert(b.contains(k));
                }
                if other.contains_key(k) && !before.contains_key(k) {
                    assert(b.contains(k));
                    assert(a.contains(k));
                }
            }
            assert forall|k: Seq<char>| one.dom().contains(k) implies #[trigger] one[k] == other[k] by {
                if !before.contains_key(k) {
                    assert(a.contains(k));
                    assert(b.contains(k));
                }
            }
            assert(one =~= other);
        }
    }
}

/// A pass keeps the graph closed: where every reference was to a schema of
/// the graph before the pass, every reference is to a schema of the graph
/// after it. A pass never removes or changes a schema.
pub proof fn lemma_resolution_keeps_graph_closed(
    before: Map<Seq<char>, SchemaView>,
    dir: Map<Seq<char>, Seq<u8>>,
    path: Seq<char>,
    after: Map<Seq<char>, SchemaView>,
    result: Result<Seq<char>, SchemaErrorView>,
)
    requires
        resolution(before, dir, path, after, result),
        closed_graph(before),
    ensures
        closed_graph(after),
        before.submap_of(after),
        result.is_ok() ==> after.contains_key(result->Ok_0),
        result.is_err() ==> after == before,
{
    if schema_name_of(path).is_some() {
        let name = schema_name_of(path).unwrap();
        let prefix = directory_prefix(path);
        if resolvable(before.dom(), dir, prefix, name) {
            let fresh = added_names(before, after);
            assert forall|k: Seq<char>, t: Seq<char>|
                after.contains_key(k) && #[trigger] refers_to(after[k], t) implies after.contains_key(
                t,
            ) by {
                if before.contains_key(k) {
                    assert(after.contains_key(k) && after[k] == before[k]);
                    assert(refers_to(before[k], t));
                    assert(before.contains_key(t));
                    assert(after.contains_key(t));
                } else {
                    assert(fresh.contains(k));
                    assert(node_closed(fresh, before.dom(), dir, prefix, k));
                    assert(refers_to(node_schema(dir, prefix, k).unwrap(), t));
                    if before.contains_key(t) {
                        assert(after.contains_key(t));
                    }
                }
            }
            assert forall|k: Seq<char>| before.dom().contains(k) implies #[trigger] after.dom().contains(
                k,
            ) && before[k] == after[k] by {
                assert(after.contains_key(k) && after[k] == before[k]);
            }
        }
    }
}

} // verus!
