//! A container: entities kept under their identifiers, with the matching,
//! query and delete rules.

use vstd::prelude::*;
use crate::value::{
    Value, Json, fields_model, lemma_fields_model, items_model, lemma_items_model, uid_key,
    first_field, has_field, field_value, set_field, lemma_first_field, find_field, uid_name, put_field,
};

verus! {

/// The model of a container, and of an object's fields: named values in order.
pub type Entries = Seq<(Seq<char>, Json)>;

/// No two entries share a name.
pub open spec fn keys_unique(c: Entries) -> bool {
    forall|i: int, j: int| 0 <= i < c.len() && 0 <= j < c.len() && i != j ==> c[i].0 != c[j].0
}

/// The identifier an entity carries: its `uid` field, where that is a non-empty text.
pub open spec fn usable_uid(e: Json) -> Option<Seq<char>> {
    match e {
        Json::Object(fs) => match field_value(fs, uid_key()) {
            Some(Json::Text(t)) => if t.len() > 0 {
                Some(t)
            } else {
                None
            },
            _ => None,
        },
        _ => None,
    }
}

/// Every entity is an object whose identifier is the name it is kept under,
/// and no name is used twice.
pub open spec fn container_wf(c: Entries) -> bool {
    &&& keys_unique(c)
    &&& forall|i: int| 0 <= i < c.len() ==> #[trigger] usable_uid(c[i].1) == Some(c[i].0)
}

/// The name an inserted entity is kept under, with `g` the fresh identifier
/// drawn for it.
pub open spec fn stored_key(e: Json, g: Seq<char>) -> Seq<char> {
    match usable_uid(e) {
        Some(t) => t,
        None => g,
    }
}

/// The entity as it is kept: unchanged where it carries an identifier, else
/// with its `uid` field set to the fresh identifier `g`.
pub open spec fn stored_entity(e: Json, g: Seq<char>) -> Json {
    match usable_uid(e) {
        Some(_) => e,
        None => match e {
            Json::Object(fs) => Json::Object(set_field(fs, uid_key(), Json::Text(g))),
            _ => e,
        },
    }
}

/// All entities of the container, in its order.
pub open spec fn all_entities(c: Entries) -> Seq<Json> {
    c.map_values(|p: (Seq<char>, Json)| p.1)
}

/// The entity kept under `u`, as a sequence of zero or one.
pub open spec fn lookup(c: Entries, u: Seq<char>) -> Seq<Json> {
    match field_value(c, u) {
        Some(e) => seq![e],
        None => Seq::empty(),
    }
}

/// An entity matches a predicate where it is a non-empty object that has a
/// field of each name the predicate holds. The predicate's values are not
/// compared: matching goes by the presence of fields.
pub open spec fn matches(e: Json, qf: Entries) -> bool {
    match e {
        Json::Object(fs) => fs.len() > 0 && forall|j: int|
            0 <= j < qf.len() ==> #[trigger] has_field(fs, qf[j].0),
        _ => false,
    }
}

/// The entities that match the predicate, in the container's order.
pub open spec fn matching(c: Entries, qf: Entries) -> Seq<Json>
    decreases c.len(),
{
    if c.len() == 0 {
        Seq::empty()
    } else if matches(c.last().1, qf) {
        matching(c.drop_last(), qf).push(c.last().1)
    } else {
        matching(c.drop_last(), qf)
    }
}

/// The entries whose entity does not match the predicate, in order.
pub open spec fn not_matching(c: Entries, qf: Entries) -> Entries
    decreases c.len(),
{
    if c.len() == 0 {
        Seq::empty()
    } else if matches(c.last().1, qf) {
        not_matching(c.drop_last(), qf)
    } else {
        not_matching(c.drop_last(), qf).push(c.last())
    }
}

/// The predicate names the `uid` field alone.
pub open spec fn is_uid_only(qf: Entries) -> bool {
    qf.len() == 1 && qf[0].0 == uid_key()
}

/// What a query returns: all entities for an empty predicate; for a `uid`
/// predicate, the entity kept under that identifier; else the matching
/// entities. A predicate that is not an object selects nothing.
pub open spec fn query_result(c: Entries, q: Json) -> Seq<Json> {
    match q {
        Json::Object(qf) => if qf.len() == 0 {
            all_entities(c)
        } else if is_uid_only(qf) {
            match qf[0].1 {
                Json::Text(u) => lookup(c, u),
                _ => Seq::empty(),
            }
        } else {
            matching(c, qf)
        },
        _ => Seq::empty(),
    }
}

/// The entry under `u` taken out, where there is one.
pub open spec fn without_key(c: Entries, u: Seq<char>) -> Entries {
    if has_field(c, u) {
        c.remove(choose|i: int| first_field(c, u, i))
    } else {
        c
    }
}

/// The container after a delete: empty for an empty predicate; for a `uid`
/// predicate, without the entity kept under that identifier; else without
/// the matching entities. A predicate that is not an object deletes nothing.
pub open spec fn delete_result(c: Entries, q: Json) -> Entries {
    match q {
        Json::Object(qf) => if qf.len() == 0 {
            Seq::empty()
        } else if is_uid_only(qf) {
            match qf[0].1 {
                Json::Text(u) => without_key(c, u),
                _ => c,
            }
        } else {
            not_matching(c, qf)
        },
        _ => c,
    }
}

/// Reading a field just set gives the value it was set to.
pub proof fn lemma_set_then_get(fs: Entries, k: Seq<char>, v: Json)
    ensures
        field_value(set_field(fs, k, v), k) == Some(v),
{
    lemma_first_field(fs, k);
    let r = set_field(fs, k, v);
    if has_field(fs, k) {
        let i = choose|i: int| first_field(fs, k, i);
        assert(first_field(r, k, i));
        lemma_first_field(r, k);
    } else {
        assert(first_field(r, k, fs.len() as int));
        lemma_first_field(r, k);
    }
}

/// An object without an identifier, given a non-empty fresh one, carries it.
pub proof fn lemma_stored_entity(e: Json, g: Seq<char>)
    requires
        e is Object,
        g.len() > 0,
    ensures
        usable_uid(stored_entity(e, g)) == Some(stored_key(e, g)),
{
    if usable_uid(e) is None {
        lemma_set_then_get(e->Object_0, uid_key(), Json::Text(g));
    }
}

/// Keeping an entity under the identifier it carries keeps a container well formed.
pub proof fn lemma_put_wf(c: Entries, k: Seq<char>, e: Json)
    requires
        container_wf(c),
        usable_uid(e) == Some(k),
    ensures
        container_wf(set_field(c, k, e)),
{
    lemma_first_field(c, k);
    let r = set_field(c, k, e);
    if has_field(c, k) {
        let i = choose|i: int| first_field(c, k, i);
        assert(forall|j: int| 0 <= j < r.len() ==> #[trigger] r[j].0 == c[j].0);
        assert forall|j: int| 0 <= j < r.len() implies #[trigger] usable_uid(r[j].1) == Some(
            r[j].0,
        ) by {
            if j != i {
                assert(r[j] == c[j]);
            }
        }
    } else {
        assert forall|j: int| 0 <= j < r.len() implies #[trigger] usable_uid(r[j].1) == Some(
            r[j].0,
        ) by {
            if j < c.len() {
                assert(r[j] == c[j]);
            }
        }
    }
}

/// A delete under a predicate keeps a container well formed.
proof fn lemma_not_matching_wf(c: Entries, qf: Entries)
    requires
        container_wf(c),
    ensures
        container_wf(not_matching(c, qf)),
        forall|i: int|
            0 <= i < not_matching(c, qf).len() ==> exists|j: int|
                0 <= j < c.len() && #[trigger] not_matching(c, qf)[i] == c[j],
    decreases c.len(),
{
    if c.len() > 0 {
        let d = c.drop_last();
        assert forall|i: int, j: int|
            0 <= i < d.len() && 0 <= j < d.len() && i != j implies d[i].0 != d[j].0 by {
            assert(d[i] == c[i] && d[j] == c[j]);
        }
        assert forall|i: int| 0 <= i < d.len() implies #[trigger] usable_uid(d[i].1) == Some(
            d[i].0,
        ) by {
            assert(d[i] == c[i]);
        }
        lemma_not_matching_wf(d, qf);
        let r = not_matching(c, qf);
        let p = not_matching(d, qf);
        if !matches(c.last().1, qf) {
            assert(r == p.push(c.last()));
            assert forall|i: int, j: int|
                0 <= i < r.len() && 0 <= j < r.len() && i != j implies r[i].0 != r[j].0 by {
                if i < p.len() && j < p.len() {
                } else if i < p.len() {
                    let a = choose|a: int| 0 <= a < d.len() && #[trigger] p[i] == d[a];
                    assert(c[a] == d[a]);
                } else if j < p.len() {
                    let a = choose|a: int| 0 <= a < d.len() && #[trigger] p[j] == d[a];
                    assert(c[a] == d[a]);
                }
            }
            assert forall|i: int| 0 <= i < r.len() implies exists|j: int|
                0 <= j < c.len() && #[trigger] r[i] == c[j] by {
                if i < p.len() {
                    let a = choose|a: int| 0 <= a < d.len() && #[trigger] p[i] == d[a];
                    assert(c[a] == d[a]);
                } else {
                    assert(r[i] == c[c.len() - 1]);
                }
            }
            assert forall|i: int| 0 <= i < r.len() implies #[trigger] usable_uid(r[i].1) == Some(
                r[i].0,
            ) by {
                if i < p.len() {
                    assert(r[i] == p[i]);
                }
            }
        } else {
            assert forall|i: int| 0 <= i < r.len() implies exists|j: int|
                0 <= j < c.len() && #[trigger] r[i] == c[j] by {
                let a = choose|a: int| 0 <= a < d.len() && #[trigger] p[i] == d[a];
                assert(c[a] == d[a]);
            }
        }
    }
}

/// A delete keeps a container well formed.
pub proof fn lemma_delete_wf(c: Entries, q: Json)
    requires
        container_wf(c),
    ensures
        container_wf(delete_result(c, q)),
{
    match q {
        Json::Object(qf) => {
            if qf.len() == 0 {
            } else if is_uid_only(qf) {
                match qf[0].1 {
                    Json::Text(u) => {
                        if has_field(c, u) {
                            lemma_first_field(c, u);
                            let i = choose|i: int| first_field(c, u, i);
                            let r = c.remove(i);
                            assert forall|a: int| 0 <= a < r.len() implies r[a] == (if a < i {
                                c[a]
                            } else {
                                c[a + 1]
                            }) by {}
                            assert forall|a: int| 0 <= a < r.len() implies #[trigger] usable_uid(
                                r[a].1,
                            ) == Some(r[a].0) by {
                                if a < i {
                                    assert(r[a] == c[a]);
                                } else {
                                    assert(r[a] == c[a + 1]);
                                }
                            }
                            assert forall|a: int, b: int|
                                0 <= a < r.len() && 0 <= b < r.len() && a != b implies r[a].0
                                != r[b].0 by {
                                let a1 = if a < i {
                                    a
                                } else {
                                    a + 1
                                };
                                let b1 = if b < i {
                                    b
                                } else {
                                    b + 1
                                };
                                assert(r[a] == c[a1] && r[b] == c[b1]);
                            }
                        }
                    },
                    _ => {},
                }
            } else {
                lemma_not_matching_wf(c, qf);
            }
        },
        _ => {},
    }
}

/// Entities kept by identifier.
pub struct Container {
    pub entries: Vec<(String, Value)>,
}

impl View for Container {
    type V = Entries;

    open spec fn view(&self) -> Entries {
        fields_model(self.entries@)
    }
}


/// Whether the entity matches the predicate's fields.
pub fn entity_matches(e: &Value, qf: &Vec<(String, Value)>) -> (r: bool)
    ensures
        r == matches(e@, fields_model(qf@)),
{
    match e {
        Value::Object(fs) => {
            proof {
                lemma_fields_model(fs@);
                lemma_fields_model(qf@);
            }
            if fs.len() == 0 {
                return false;
            }
            let mut j: usize = 0;
            while j < qf.len()
                invariant
                    j <= qf.len(),
                    e@ == Json::Object(fields_model(fs@)),
                    fields_model(fs@).len() > 0,
                    fields_model(qf@).len() == qf@.len(),
                    forall|m: int|
                        0 <= m < qf.len() ==> #[trigger] fields_model(qf@)[m] == (
                        qf@[m].0@,
                        qf@[m].1@,
                    ),
                    forall|m: int|
                        0 <= m < j ==> #[trigger] has_field(
                            fields_model(fs@),
                            fields_model(qf@)[m].0,
                        ),
                decreases qf.len() - j,
            {
                let found = find_field(fs, &qf[j].0);
                if found.is_none() {
                    proof {
                        assert(!has_field(fields_model(fs@), fields_model(qf@)[j as int].0));
                        assert(!matches(e@, fields_model(qf@)));
                    }
                    return false;
                }
                proof {
                    let i = found->0 as int;
                    assert(0 <= i < fields_model(fs@).len() && fields_model(fs@)[i].0
                        == fields_model(qf@)[j as int].0);
                }
                j = j + 1;
            }
            true
        },
        _ => false,
    }
}

impl Container {
    /// An empty container.
    pub fn new() -> (r: Container)
        ensures
            r@ == Seq::<(Seq<char>, Json)>::empty(),
    {
        let r = Container { entries: Vec::new() };
        proof {
            assert(r.entries@ =~= Seq::<(String, Value)>::empty());
        }
        r
    }

    /// The number of entities kept.
    pub fn len(&self) -> (r: usize)
        ensures
            r == self@.len(),
    {
        proof {
            lemma_fields_model(self.entries@);
        }
        self.entries.len()
    }

    /// Keeps `e` under `k`, in place of the entity kept there, if any.
    pub fn put(&mut self, k: String, e: Value)
        ensures
            final(self)@ == set_field(old(self)@, k@, e@),
    {
        put_field(&mut self.entries, k, e);
    }

    /// Copies of all entities, in order.
    pub fn all(&self) -> (r: Vec<Value>)
        ensures
            items_model(r@) == all_entities(self@),
    {
        proof {
            lemma_fields_model(self.entries@);
        }
        let mut out: Vec<Value> = Vec::new();
        let mut i: usize = 0;
        while i < self.entries.len()
            invariant
                i <= self.entries.len(),
                out@.len() == i,
                forall|j: int| 0 <= j < i ==> #[trigger] out@[j]@ == self.entries@[j].1@,
            decreases self.entries.len() - i,
        {
            let c = self.entries[i].1.deep_copy();
            out.push(c);
            i = i + 1;
        }
        proof {
            lemma_items_model(out@);
            assert(items_model(out@) =~= all_entities(self@));
        }
        out
    }

    /// A copy of the entity kept under `u`, if any.
    pub fn lookup(&self, u: &String) -> (r: Vec<Value>)
        ensures
            items_model(r@) == lookup(self@, u@),
    {
        let found = find_field(&self.entries, u);
        proof {
            lemma_first_field(self@, u@);
            lemma_fields_model(self.entries@);
        }
        match found {
            Some(i) => {
                let c = self.entries[i].1.deep_copy();
                let r = vec![c];
                proof {
                    lemma_items_model(r@);
                    assert(items_model(r@) =~= lookup(self@, u@));
                }
                r
            },
            None => {
                let r: Vec<Value> = Vec::new();
                proof {
                    lemma_items_model(r@);
                    assert(items_model(r@) =~= lookup(self@, u@));
                }
                r
            },
        }
    }

    /// Copies of the entities that match the predicate's fields, in order.
    pub fn select(&self, qf: &Vec<(String, Value)>) -> (r: Vec<Value>)
        ensures
            items_model(r@) == matching(self@, fields_model(qf@)),
    {
        proof {
            lemma_fields_model(self.entries@);
        }
        let ghost c = self@;
        let ghost q = fields_model(qf@);
        let mut out: Vec<Value> = Vec::new();
        let mut i: usize = 0;
        proof {
            assert(c.take(0) =~= Seq::<(Seq<char>, Json)>::empty());
        }
        while i < self.entries.len()
            invariant
                i <= self.entries.len(),
                c == self@,
                q == fields_model(qf@),
                c.len() == self.entries@.len(),
                forall|j: int|
                    0 <= j < self.entries.len() ==> #[trigger] c[j] == (
                        self.entries@[j].0@,
                        self.entries@[j].1@,
                    ),
                items_model(out@) == matching(c.take(i as int), q),
            decreases self.entries.len() - i,
        {
            let ghost before = out@;
            proof {
                assert(c.take(i + 1).drop_last() =~= c.take(i as int));
            }
            if entity_matches(&self.entries[i].1, qf) {
                let v = self.entries[i].1.deep_copy();
                out.push(v);
                proof {
                    assert(out@.drop_last() =~= before);
                }
            }
            i = i + 1;
        }
        proof {
            assert(c.take(i as int) =~= c);
        }
        out
    }

    /// The entries whose entity does not match the predicate's fields, copied.
    fn unmatched(&self, qf: &Vec<(String, Value)>) -> (r: Vec<(String, Value)>)
        ensures
            fields_model(r@) == not_matching(self@, fields_model(qf@)),
    {
        proof {
            lemma_fields_model(self.entries@);
        }
        let ghost c = self@;
        let ghost q = fields_model(qf@);
        let mut out: Vec<(String, Value)> = Vec::new();
        let mut i: usize = 0;
        proof {
            assert(c.take(0) =~= Seq::<(Seq<char>, Json)>::empty());
        }
        while i < self.entries.len()
            invariant
                i <= self.entries.len(),
                c == self@,
                q == fields_model(qf@),
                c.len() == self.entries@.len(),
                forall|j: int|
                    0 <= j < self.entries.len() ==> #[trigger] c[j] == (
                        self.entries@[j].0@,
                        self.entries@[j].1@,
                    ),
                fields_model(out@) == not_matching(c.take(i as int), q),
            decreases self.entries.len() - i,
        {
            let ghost before = out@;
            proof {
                assert(c.take(i + 1).drop_last() =~= c.take(i as int));
            }
            if !entity_matches(&self.entries[i].1, qf) {
                let name = self.entries[i].0.clone();
                let v = self.entries[i].1.deep_copy();
                out.push((name, v));
                proof {
                    assert(out@.drop_last() =~= before);
                }
            }
            i = i + 1;
        }
        proof {
            assert(c.take(i as int) =~= c);
        }
        out
    }

    /// Copies of the entities that the predicate selects.
    pub fn query(&self, q: &Value) -> (r: Vec<Value>)
        ensures
            items_model(r@) == query_result(self@, q@),
    {
        match q {
            Value::Object(qf) => {
                proof {
                    lemma_fields_model(qf@);
                }
                if qf.len() == 0 {
                    return self.all();
                }
                let u = uid_name();
                if qf.len() == 1 && qf[0].0 == u {
                    match &qf[0].1 {
                        Value::Text(t) => self.lookup(t),
                        _ => {
                            let r: Vec<Value> = Vec::new();
                            proof {
                                lemma_items_model(r@);
                                assert(items_model(r@) =~= Seq::<Json>::empty());
                            }
                            r
                        },
                    }
                } else {
                    self.select(qf)
                }
            },
            _ => {
                let r: Vec<Value> = Vec::new();
                proof {
                    lemma_items_model(r@);
                    assert(items_model(r@) =~= Seq::<Json>::empty());
                }
                r
            },
        }
    }

    /// Takes out the entities that the predicate selects.
    pub fn delete(&mut self, q: &Value)
        ensures
            final(self)@ == delete_result(old(self)@, q@),
    {
        match q {
            Value::Object(qf) => {
                proof {
                    lemma_fields_model(qf@);
                }
                if qf.len() == 0 {
                    self.entries = Vec::new();
                    proof {
                        lemma_fields_model(self.entries@);
                        assert(self@ =~= Seq::<(Seq<char>, Json)>::empty());
                    }
                    return;
                }
                let u = uid_name();
                if qf.len() == 1 && qf[0].0 == u {
                    match &qf[0].1 {
                        Value::Text(t) => {
                            let found = find_field(&self.entries, t);
                            proof {
                                lemma_first_field(self@, t@);
                                lemma_fields_model(self.entries@);
                            }
                            if let Some(i) = found {
                                self.entries.remove(i);
                                proof {
                                    lemma_fields_model(self.entries@);
                                    assert(self@ =~= old(self)@.remove(i as int));
                                }
                            }
                        },
                        _ => {},
                    }
                } else {
                    let kept = self.unmatched(qf);
                    self.entries = kept;
                }
            },
            _ => {},
        }
    }
}

} // verus!
