//! The schema graph: a map from schema name to schema, kept in name order.

use crate::text::{chars_lt, chars_of, chars_equal, text_lt};
use crate::text::{lemma_text_lt_irreflexive, lemma_text_lt_total, lemma_text_lt_transitive};
use crate::types::{Schema, SchemaView};
use vstd::prelude::*;

verus! {

/// Whether the names of the schemas strictly increase along the sequence.
pub open spec fn sorted_by_name(s: Seq<SchemaView>) -> bool {
    forall|i: int, j: int| 0 <= i < j < s.len() ==> text_lt(#[trigger] s[i].name, #[trigger] s[j].name)
}

/// Whether some schema of the sequence has the name `k`.
pub open spec fn names_key(s: Seq<SchemaView>, k: Seq<char>) -> bool {
    exists|i: int| 0 <= i < s.len() && #[trigger] s[i].name == k
}

/// The position of the schema named `k`, where there is one.
pub open spec fn position_of(s: Seq<SchemaView>, k: Seq<char>) -> int {
    choose|i: int| 0 <= i < s.len() && #[trigger] s[i].name == k
}

/// The map from name to schema that a sequence of schemas stands for.
pub open spec fn as_map(s: Seq<SchemaView>) -> Map<Seq<char>, SchemaView> {
    Map::new(|k: Seq<char>| names_key(s, k), |k: Seq<char>| s[position_of(s, k)])
}

/// The schemas of a map in the order of their names.
pub open spec fn sorted_schemas(m: Map<Seq<char>, SchemaView>) -> Seq<SchemaView> {
    choose|s: Seq<SchemaView>| sorted_by_name(s) && as_map(s) == m
}

/// In a sequence sorted by name, a name is found at one position only.
pub proof fn lemma_sorted_position(s: Seq<SchemaView>, i: int)
    requires
        sorted_by_name(s),
        0 <= i < s.len(),
    ensures
        names_key(s, s[i].name),
        position_of(s, s[i].name) == i,
        as_map(s).contains_key(s[i].name),
        as_map(s)[s[i].name] == s[i],
{
    let j = position_of(s, s[i].name);
    assert(0 <= j < s.len() && s[j].name == s[i].name);
    lemma_text_lt_irreflexive(s[i].name);
    if j < i {
        assert(text_lt(s[j].name, s[i].name));
    } else if i < j {
        assert(text_lt(s[i].name, s[j].name));
    }
}

/// Two sequences sorted by name that stand for the same map are equal.
pub proof fn lemma_sorted_unique(s: Seq<SchemaView>, t: Seq<SchemaView>)
    requires
        sorted_by_name(s),
        sorted_by_name(t),
        as_map(s) == as_map(t),
    ensures
        s == t,
    decreases s.len(),
{
    if s.len() == 0 {
        if t.len() > 0 {
            lemma_sorted_position(t, 0);
            assert(as_map(s).contains_key(t[0].name));
        }
        assert(s =~= t);
    } else {
        lemma_sorted_position(s, 0);
        assert(as_map(t).contains_key(s[0].name));
        let j = position_of(t, s[0].name);
        assert(0 <= j < t.len() && t[j].name == s[0].name);
        lemma_sorted_position(t, 0);
        assert(as_map(s).contains_key(t[0].name));
        let i = position_of(s, t[0].name);
        assert(0 <= i < s.len() && s[i].name == t[0].name);
        if j > 0 {
            assert(text_lt(t[0].name, t[j].name));
            if i > 0 {
                assert(text_lt(s[0].name, s[i].name));
                lemma_text_lt_transitive(t[0].name, s[0].name, t[0].name);
            }
            lemma_text_lt_irreflexive(t[0].name);
        }
        assert(j == 0);
        assert(s[0] == t[0]);
        let s1 = s.drop_first();
        let t1 = t.drop_first();
        assert(sorted_by_name(s1)) by {
            assert forall|a: int, b: int| 0 <= a < b < s1.len() implies text_lt(
                #[trigger] s1[a].name,
                #[trigger] s1[b].name,
            ) by {
                assert(text_lt(s[a + 1].name, s[b + 1].name));
            }
        }
        assert(sorted_by_name(t1)) by {
            assert forall|a: int, b: int| 0 <= a < b < t1.len() implies text_lt(
                #[trigger] t1[a].name,
                #[trigger] t1[b].name,
            ) by {
                assert(text_lt(t[a + 1].name, t[b + 1].name));
            }
        }
        lemma_drop_first_map(s);
        lemma_drop_first_map(t);
        assert(as_map(s1) =~= as_map(t1));
        lemma_sorted_unique(s1, t1);
        assert(s =~= seq![s[0]] + s1);
        assert(t =~= seq![t[0]] + t1);
    }
}

/// Dropping the first schema of a sorted sequence removes its name from the map.
pub proof fn lemma_drop_first_map(s: Seq<SchemaView>)
    requires
        sorted_by_name(s),
        s.len() > 0,
    ensures
        as_map(s.drop_first()) == as_map(s).remove(s[0].name),
{
    let s1 = s.drop_first();
    let m = as_map(s).remove(s[0].name);
    assert(sorted_by_name(s1)) by {
        assert forall|a: int, b: int| 0 <= a < b < s1.len() implies text_lt(
            #[trigger] s1[a].name,
            #[trigger] s1[b].name,
        ) by {
            assert(text_lt(s[a + 1].name, s[b + 1].name));
        }
    }
    assert forall|k: Seq<char>| #[trigger] as_map(s1).dom().contains(k) == m.dom().contains(k) by {
        if names_key(s1, k) {
            let i = position_of(s1, k);
            assert(0 <= i < s1.len() && s1[i].name == k);
            assert(s[i + 1].name == k);
            assert(text_lt(s[0].name, s[i + 1].name));
            lemma_text_lt_irreflexive(k);
        }
        if names_key(s, k) && k != s[0].name {
            let i = position_of(s, k);
            assert(0 <= i < s.len() && s[i].name == k);
            assert(s1[i - 1].name == k);
        }
    }
    assert forall|k: Seq<char>| as_map(s1).dom().contains(k) implies #[trigger] as_map(s1)[k]
        == m[k] by {
        let i = position_of(s1, k);
        assert(0 <= i < s1.len() && s1[i].name == k);
        assert(s[i + 1].name == k);
        lemma_sorted_position(s, i + 1);
        lemma_sorted_position(s1, i);
    }
    assert(as_map(s1) =~= m);
}

/// The schemas of a map listed by name are the one sorted sequence that
/// stands for it.
pub proof fn lemma_sorted_schemas(s: Seq<SchemaView>)
    requires
        sorted_by_name(s),
    ensures
        sorted_schemas(as_map(s)) == s,
{
    let t = sorted_schemas(as_map(s));
    assert(sorted_by_name(t) && as_map(t) == as_map(s));
    lemma_sorted_unique(t, s);
}

/// Putting a schema into a sorted sequence at the place that its name asks
/// for keeps the sequence sorted and adds the schema to the map.
pub proof fn lemma_insert_map(s: Seq<SchemaView>, at: int, v: SchemaView)
    requires
        sorted_by_name(s),
        0 <= at <= s.len(),
        forall|i: int| 0 <= i < at ==> text_lt(#[trigger] s[i].name, v.name),
        forall|i: int| at <= i < s.len() ==> text_lt(v.name, #[trigger] s[i].name),
    ensures
        sorted_by_name(s.insert(at, v)),
        !as_map(s).contains_key(v.name),
        as_map(s.insert(at, v)) == as_map(s).insert(v.name, v),
{
    let t = s.insert(at, v);
    lemma_text_lt_irreflexive(v.name);
    assert forall|i: int, j: int| 0 <= i < j < t.len() implies text_lt(
        #[trigger] t[i].name,
        #[trigger] t[j].name,
    ) by {
        let a = if i < at { i } else { i - 1 };
        let b = if j < at { j } else { j - 1 };
        if i == at {
            assert(text_lt(v.name, s[b].name));
        } else if j == at {
            assert(text_lt(s[a].name, v.name));
        } else {
            assert(text_lt(s[a].name, s[b].name));
        }
    }
    if names_key(s, v.name) {
        let i = position_of(s, v.name);
        assert(0 <= i < s.len() && s[i].name == v.name);
        assert(text_lt(s[i].name, v.name) || text_lt(v.name, s[i].name));
    }
    let m = as_map(s).insert(v.name, v);
    assert forall|k: Seq<char>| #[trigger] as_map(t).dom().contains(k) == m.dom().contains(k) by {
        if names_key(t, k) {
            let i = position_of(t, k);
            assert(0 <= i < t.len() && t[i].name == k);
            if i != at {
                let a = if i < at { i } else { i - 1 };
                assert(s[a].name == k);
            }
        }
        if names_key(s, k) {
            let i = position_of(s, k);
            assert(0 <= i < s.len() && s[i].name == k);
            let a = if i < at { i } else { i + 1 };
            assert(t[a].name == k);
        }
        if k == v.name {
            assert(t[at].name == k);
        }
    }
    assert forall|k: Seq<char>| as_map(t).dom().contains(k) implies #[trigger] as_map(t)[k]
        == m[k] by {
        let i = position_of(t, k);
        assert(0 <= i < t.len() && t[i].name == k);
        lemma_sorted_position(t, i);
        if i != at {
            let a = if i < at { i } else { i - 1 };
            assert(s[a] == t[i]);
            lemma_sorted_position(s, a);
        }
    }
    assert(as_map(t) =~= m);
}

/// A sequence sorted by name stands for a map of as many schemas.
pub proof fn lemma_map_size(s: Seq<SchemaView>)
    requires
        sorted_by_name(s),
    ensures
        as_map(s).dom().finite(),
        as_map(s).dom().len() == s.len(),
{
    let names = Seq::new(s.len(), |i: int| s[i].name);
    assert(names.no_duplicates()) by {
        assert forall|i: int, j: int|
            0 <= i < names.len() && 0 <= j < names.len() && i != j implies names[i] != names[j] by {
            lemma_text_lt_irreflexive(s[i].name);
            if i < j {
                assert(text_lt(s[i].name, s[j].name));
            } else {
                assert(text_lt(s[j].name, s[i].name));
            }
        }
    }
    names.unique_seq_to_set();
    vstd::seq_lib::seq_to_set_is_finite(names);
    assert(as_map(s).dom() =~= names.to_set()) by {
        assert forall|k: Seq<char>| as_map(s).dom().contains(k) == names.to_set().contains(k) by {
            if names_key(s, k) {
                let i = position_of(s, k);
                assert(0 <= i < s.len() && s[i].name == k);
                assert(names[i] == k);
            }
            if names.contains(k) {
                let i = choose|i: int| 0 <= i < names.len() && names[i] == k;
                assert(s[i].name == k);
            }
        }
    }
}

/// The models of a sequence of schemas, in order.
pub open spec fn schema_views(entries: Seq<Schema>) -> Seq<SchemaView> {
    Seq::new(entries.len(), |i: int| entries[i]@)
}

/// A map from schema name to schema.
///
/// Each schema is stored under its own name; a name is stored once, and a
/// stored schema is never replaced. The schemas are kept in the order of
/// their names.
pub struct SchemaMap {
    entries: Vec<Schema>,
}

impl View for SchemaMap {
    type V = Map<Seq<char>, SchemaView>;

    closed spec fn view(&self) -> Map<Seq<char>, SchemaView> {
        as_map(self.ordered())
    }
}

impl SchemaMap {
    /// The schemas in storage order.
    pub closed spec fn ordered(&self) -> Seq<SchemaView> {
        schema_views(self.entries@)
    }

    /// The stored schemas are sorted by name, so every name occurs once.
    #[verifier::type_invariant]
    pub closed spec fn wf(&self) -> bool {
        sorted_by_name(self.ordered())
    }

    /// A well-formed map lists its schemas in the order of their names, and
    /// each schema is found under its own name.
    pub proof fn lemma_ordered(&self)
        requires
            self.wf(),
        ensures
            self.ordered() == sorted_schemas(self@),
            sorted_by_name(self.ordered()),
            self@ == as_map(self.ordered()),
            forall|k: Seq<char>| #[trigger] self@.contains_key(k) ==> self@[k].name == k,
    {
        lemma_sorted_schemas(self.ordered());
        assert forall|k: Seq<char>| #[trigger] self@.contains_key(k) implies self@[k].name
            == k by {
            let i = position_of(self.ordered(), k);
            assert(0 <= i < self.ordered().len() && self.ordered()[i].name == k);
        }
    }

    /// A map without schemas.
    pub fn new() -> (r: Self)
        ensures
            r@ == Map::<Seq<char>, SchemaView>::empty(),
            r.ordered() == Seq::<SchemaView>::empty(),
            r.wf(),
    {
        let r = SchemaMap { entries: Vec::new() };
        assert(r.ordered() =~= Seq::<SchemaView>::empty());
        assert(r@ =~= Map::<Seq<char>, SchemaView>::empty());
        r
    }

    /// The number of schemas.
    pub fn len(&self) -> (r: usize)
        ensures
            r == self@.dom().len(),
            r == sorted_schemas(self@).len(),
    {
        proof {
            use_type_invariant(self);
            self.lemma_ordered();
            lemma_map_size(self.ordered());
        }
        self.entries.len()
    }

    /// The schema at place `index` in the order of the names.
    pub fn schema_at(&self, index: usize) -> (r: Option<&Schema>)
        ensures
            index < sorted_schemas(self@).len() ==> r.is_some() && r.unwrap()@ == sorted_schemas(
                self@,
            )[index as int],
            index >= sorted_schemas(self@).len() ==> r.is_none(),
    {
        proof {
            use_type_invariant(self);
            self.lemma_ordered();
        }
        if index < self.entries.len() {
            Some(&self.entries[index])
        } else {
            None
        }
    }

    /// Where `name` stands, or would stand, in the order of the names, and
    /// whether it is there.
    fn locate(&self, name: &Vec<char>) -> (r: (usize, bool))
        ensures
            r.0 <= self.ordered().len(),
            forall|i: int| 0 <= i < r.0 ==> text_lt(#[trigger] self.ordered()[i].name, name@),
            r.1 ==> r.0 < self.ordered().len() && self.ordered()[r.0 as int].name == name@,
            !r.1 ==> forall|i: int|
                r.0 <= i < self.ordered().len() ==> text_lt(name@, #[trigger] self.ordered()[i].name),
    {
        proof {
            use_type_invariant(self);
        }
        let mut i: usize = 0;
        while i < self.entries.len()
            invariant
                i <= self.entries.len(),
                sorted_by_name(self.ordered()),
                forall|k: int| 0 <= k < i ==> text_lt(#[trigger] self.ordered()[k].name, name@),
            decreases self.entries.len() - i,
        {
            let here = chars_of(self.entries[i].name.as_str());
            assert(here@ == self.ordered()[i as int].name);
            if chars_equal(&here, name) {
                return (i, true);
            }
            if !chars_lt(&here, name) {
                proof {
                    lemma_text_lt_total(here@, name@);
                    assert forall|k: int| i <= k < self.ordered().len() implies text_lt(
                        name@,
                        #[trigger] self.ordered()[k].name,
                    ) by {
                        if k > i {
                            assert(text_lt(self.ordered()[i as int].name, self.ordered()[k].name));
                            lemma_text_lt_transitive(name@, here@, self.ordered()[k].name);
                        }
                    }
                }
                return (i, false);
            }
            i = i + 1;
        }
        (i, false)
    }

    /// Whether a schema is stored under `name`.
    pub fn contains_key(&self, name: &str) -> (r: bool)
        ensures
            r == self@.contains_key(name@),
    {
        self.get(name).is_some()
    }

    /// The schema stored under `name`.
    pub fn get(&self, name: &str) -> (r: Option<&Schema>)
        ensures
            r.is_some() == self@.contains_key(name@),
            r.is_some() ==> r.unwrap()@ == self@[name@] && r.unwrap()@.name == name@,
    {
        self.get_chars(&chars_of(name))
    }

    /// Whether a schema is stored under the name that `name` spells.
    pub fn contains_chars(&self, name: &Vec<char>) -> (r: bool)
        ensures
            r == self@.contains_key(name@),
    {
        self.get_chars(name).is_some()
    }

    /// The schema stored under the name that `name` spells.
    pub fn get_chars(&self, name: &Vec<char>) -> (r: Option<&Schema>)
        ensures
            r.is_some() == self@.contains_key(name@),
            r.is_some() ==> r.unwrap()@ == self@[name@] && r.unwrap()@.name == name@,
    {
        proof {
            use_type_invariant(self);
        }
        let (at, found) = self.locate(name);
        if found {
            proof {
                lemma_sorted_position(self.ordered(), at as int);
            }
            Some(&self.entries[at])
        } else {
            proof {
                lemma_text_lt_irreflexive(name@);
                if names_key(self.ordered(), name@) {
                    let i = position_of(self.ordered(), name@);
                    assert(0 <= i < self.ordered().len() && self.ordered()[i].name == name@);
                }
            }
            None
        }
    }

    /// Stores `schema` under its name, unless a schema of that name is
    /// stored already: a stored schema is never replaced.
    pub fn insert(&mut self, schema: Schema) -> (added: bool)
        ensures
            added == !old(self)@.contains_key(schema@.name),
            added ==> final(self)@ == old(self)@.insert(schema@.name, schema@),
            !added ==> final(self)@ == old(self)@,
            final(self).wf(),
    {
        proof {
            use_type_invariant(&*self);
        }
        let key = chars_of(schema.name.as_str());
        let (at, found) = self.locate(&key);
        if found {
            proof {
                lemma_sorted_position(self.ordered(), at as int);
            }
            false
        } else {
            proof {
                lemma_insert_map(self.ordered(), at as int, schema@);
                assert(schema_views(self.entries@.insert(at as int, schema)) =~= self.ordered().insert(
                    at as int,
                    schema@,
                ));
            }
            let mut entries: Vec<Schema> = Vec::new();
            proof {
                assert(schema_views(entries@) =~= Seq::<SchemaView>::empty());
            }
            std::mem::swap(&mut self.entries, &mut entries);
            entries.insert(at, schema);
            self.entries = entries;
            true
        }
    }

    /// Stores every schema of `other` whose name is not stored yet.
    pub fn absorb(&mut self, other: SchemaMap)
        ensures
            forall|k: Seq<char>|
                #[trigger] final(self)@.contains_key(k) == (old(self)@.contains_key(k)
                    || other@.contains_key(k)),
            forall|k: Seq<char>|
                old(self)@.contains_key(k) ==> #[trigger] final(self)@[k] == old(self)@[k],
            forall|k: Seq<char>|
                other@.contains_key(k) && !old(self)@.contains_key(k) ==> #[trigger] final(self)@[k]
                    == other@[k],
            final(self).wf(),
    {
        proof {
            use_type_invariant(&*self);
            use_type_invariant(&other);
        }
        let ghost views = other.ordered();
        let mut entries = other.entries;
        assert(schema_views(entries@) == views);
        while entries.len() > 0
            invariant
                self.wf(),
                sorted_by_name(views),
                entries.len() <= views.len(),
                schema_views(entries@) == views.take(entries.len() as int),
                forall|k: Seq<char>|
                    #[trigger] self@.contains_key(k) == (old(self)@.contains_key(k) || exists|i: int|
                        entries.len() <= i < views.len() && #[trigger] views[i].name == k),
                forall|k: Seq<char>|
                    old(self)@.contains_key(k) ==> #[trigger] self@[k] == old(self)@[k],
                forall|i: int|
                    entries.len() <= i < views.len() && !old(self)@.contains_key(views[i].name)
                        ==> #[trigger] self@[views[i].name] == views[i],
            decreases entries.len(),
        {
            let ghost n = entries.len() - 1;
            let ghost before = self@;
            let ghost stored = entries@;
            let schema = entries.pop().unwrap();
            assert(schema@ == views[n]) by {
                assert(schema_views(stored)[n] == views.take(n + 1)[n]);
            }
            assert(schema_views(entries@) =~= views.take(n));
            let added = self.insert(schema);
            proof {
                assert forall|k: Seq<char>| #[trigger]
                    self@.contains_key(k) == (old(self)@.contains_key(k) || exists|i: int|
                        n <= i < views.len() && #[trigger] views[i].name == k) by {
                    if k == views[n].name {
                        assert(n <= n < views.len() && views[n].name == k);
                    }
                    if exists|i: int| n + 1 <= i < views.len() && #[trigger] views[i].name == k {
                        let i = choose|i: int| n + 1 <= i < views.len() && #[trigger] views[i].name == k;
                        assert(n <= i < views.len() && views[i].name == k);
                    }
                    if exists|i: int| n <= i < views.len() && #[trigger] views[i].name == k {
                        let i = choose|i: int| n <= i < views.len() && #[trigger] views[i].name == k;
                        if i != n {
                            assert(n + 1 <= i < views.len() && views[i].name == k);
                        }
                    }
                }
                assert forall|i: int|
                    n <= i < views.len() && !old(self)@.contains_key(views[i].name) implies #[trigger] self@[views[i].name]
                    == views[i] by {
                    if i != n {
                        assert(before[views[i].name] == views[i]);
                        lemma_text_lt_irreflexive(views[i].name);
                        assert(text_lt(views[n].name, views[i].name));
                    } else {
                        if before.contains_key(views[n].name) {
                            let j = choose|j: int|
                                n + 1 <= j < views.len() && #[trigger] views[j].name == views[n].name;
                            lemma_text_lt_irreflexive(views[n].name);
                            assert(text_lt(views[n].name, views[j].name));
                        }
                    }
                }
            }
        }
        proof {
            assert forall|k: Seq<char>|
                other@.contains_key(k) && !old(self)@.contains_key(k) implies #[trigger] self@[k]
                == other@[k] by {
                let i = position_of(views, k);
                assert(0 <= i < views.len() && views[i].name == k);
                lemma_sorted_position(views, i);
            }
            assert forall|k: Seq<char>| #[trigger]
                self@.contains_key(k) == (old(self)@.contains_key(k) || other@.contains_key(k)) by {
                if other@.contains_key(k) {
                    let i = position_of(views, k);
                    assert(0 <= i < views.len() && views[i].name == k);
                }
                if exists|i: int| 0 <= i < views.len() && #[trigger] views[i].name == k {
                    let i = choose|i: int| 0 <= i < views.len() && #[trigger] views[i].name == k;
                    assert(names_key(views, k));
                }
            }
        }
    }
}

} // verus!
