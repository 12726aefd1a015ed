//! The document store: named containers, created on first use.

use vstd::prelude::*;
use crate::value::{
    Value, Json, fields_model, lemma_fields_model, items_model, uid_key, first_field, has_field,
    set_field, lemma_first_field, find_field, uid_name, put_field, copy_fields,
};
use crate::container::{
    Entries, Container, container_wf, usable_uid, stored_key, stored_entity,
    query_result, delete_result, lemma_stored_entity, lemma_put_wf, lemma_delete_wf,
};
use crate::ident::{fresh_uuid, is_canonical_v4};

verus! {

/// The model of the store: container names with their entries, in order.
pub type Tree = Seq<(Seq<char>, Entries)>;

/// No two containers share a name.
pub open spec fn names_unique(t: Tree) -> bool {
    forall|i: int, j: int| 0 <= i < t.len() && 0 <= j < t.len() && i != j ==> t[i].0 != t[j].0
}

/// Container names are unique and every container is well formed.
pub open spec fn tree_wf(t: Tree) -> bool {
    &&& names_unique(t)
    &&& forall|i: int| 0 <= i < t.len() ==> #[trigger] container_wf(t[i].1)
}

/// Some container is named `name`.
pub open spec fn has_container(t: Tree, name: Seq<char>) -> bool {
    exists|i: int| 0 <= i < t.len() && t[i].0 == name
}

/// The position of the container named `name`.
pub open spec fn container_index(t: Tree, name: Seq<char>) -> int {
    choose|i: int| 0 <= i < t.len() && t[i].0 == name
}

/// The tree with a container named `name`: unchanged where there is one,
/// else with an empty one added at the end.
pub open spec fn resolve(t: Tree, name: Seq<char>) -> Tree {
    if has_container(t, name) {
        t
    } else {
        t.push((name, Seq::empty()))
    }
}

/// The entries of the container named `name`; none where there is no such container.
pub open spec fn entries_of(t: Tree, name: Seq<char>) -> Entries {
    if has_container(t, name) {
        t[container_index(t, name)].1
    } else {
        Seq::empty()
    }
}

/// The tree with the container named `name` (created if need be) holding `c`.
pub open spec fn with_entries(t: Tree, name: Seq<char>, c: Entries) -> Tree {
    let r = resolve(t, name);
    r.update(container_index(r, name), (name, c))
}

/// Under unique names, the container named `name` sits at its one position.
pub proof fn lemma_index_unique(t: Tree, name: Seq<char>, i: int)
    requires
        names_unique(t),
        0 <= i < t.len(),
        t[i].0 == name,
    ensures
        has_container(t, name),
        container_index(t, name) == i,
{
}

/// Resolving a name keeps names unique, and the named container sits at
/// the end where it was created.
pub proof fn lemma_resolve(t: Tree, name: Seq<char>)
    requires
        tree_wf(t),
    ensures
        tree_wf(resolve(t, name)),
        has_container(resolve(t, name), name),
        !has_container(t, name) ==> container_index(resolve(t, name), name) == t.len(),
        has_container(t, name) ==> resolve(t, name) == t,
{
    let r = resolve(t, name);
    if !has_container(t, name) {
        assert(container_wf(Seq::<(Seq<char>, Json)>::empty()));
        assert(r[t.len() as int].0 == name);
        lemma_index_unique(r, name, t.len() as int);
    }
}

/// Setting the entries of a container keeps the tree well formed, gives
/// that container those entries and leaves the others as they were.
pub proof fn lemma_with_entries(t: Tree, name: Seq<char>, c: Entries)
    requires
        tree_wf(t),
        container_wf(c),
    ensures
        tree_wf(with_entries(t, name, c)),
        has_container(with_entries(t, name, c), name),
        entries_of(with_entries(t, name, c), name) == c,
        forall|other: Seq<char>|
            other != name ==> #[trigger] entries_of(with_entries(t, name, c), other)
                == entries_of(t, other),
        forall|other: Seq<char>|
            other != name ==> #[trigger] has_container(with_entries(t, name, c), other)
                == has_container(t, other),
{
    lemma_resolve(t, name);
    let r = resolve(t, name);
    let i = container_index(r, name);
    let w = with_entries(t, name, c);
    lemma_index_unique(w, name, i);
    assert forall|other: Seq<char>| other != name implies #[trigger] has_container(w, other)
        == has_container(t, other) && entries_of(w, other) == entries_of(t, other) by {
        if has_container(t, other) {
            let j = container_index(t, other);
            assert(w[j] == t[j]);
            lemma_index_unique(w, other, j);
        }
        if has_container(w, other) {
            let j = container_index(w, other);
            assert(r[j] == w[j]);
            assert(j < t.len());
            assert(t[j] == r[j]);
        }
    }
}

/// Giving a container back its own entries leaves only its creation.
pub proof fn lemma_with_own_entries(t: Tree, name: Seq<char>)
    requires
        tree_wf(t),
    ensures
        with_entries(t, name, entries_of(t, name)) == resolve(t, name),
{
    lemma_resolve(t, name);
    let r = resolve(t, name);
    let i = container_index(r, name);
    assert(r.update(i, (name, entries_of(t, name))) =~= r);
}

/// Resolving a container changes neither its entries nor what a second
/// resolution or a later setting of its entries gives.
pub proof fn lemma_resolve_entries(t: Tree, name: Seq<char>, c: Entries)
    requires
        tree_wf(t),
    ensures
        entries_of(resolve(t, name), name) == entries_of(t, name),
        resolve(resolve(t, name), name) == resolve(t, name),
        with_entries(resolve(t, name), name, c) == with_entries(t, name, c),
{
    lemma_resolve(t, name);
    lemma_resolve(resolve(t, name), name);
}

/// A well-formed tree holds well-formed containers only.
pub proof fn lemma_entries_wf(t: Tree, name: Seq<char>)
    requires
        tree_wf(t),
    ensures
        container_wf(entries_of(t, name)),
{
    if !has_container(t, name) {
        assert(container_wf(Seq::<(Seq<char>, Json)>::empty()));
    }
}

/// How many identifiers an insert draws, at most, before it gives up.
pub const MAX_DRAWS: usize = 8;

/// The identifier the entity carries, if it is a non-empty text.
fn carried_uid(e: &Value) -> (r: Option<String>)
    ensures
        match r {
            Some(t) => usable_uid(e@) == Some(t@),
            None => usable_uid(e@) is None,
        },
{
    match e {
        Value::Object(fs) => {
            let u = uid_name();
            let found = find_field(fs, &u);
            proof {
                lemma_first_field(fields_model(fs@), uid_key());
                lemma_fields_model(fs@);
            }
            match found {
                Some(i) => match &fs[i].1 {
                    Value::Text(t) => {
                        if t.as_str().is_empty() {
                            None
                        } else {
                            Some(t.clone())
                        }
                    },
                    _ => None,
                },
                None => None,
            }
        },
        _ => None,
    }
}

/// The entity with its `uid` field set to `g`.
fn with_uid(e: Value, g: String) -> (r: Value)
    requires
        e is Object,
    ensures
        r@ == Json::Object(set_field(fields_model(e->Object_0@), uid_key(), Json::Text(g@))),
{
    match e {
        Value::Object(fs) => {
            let mut fs = fs;
            put_field(&mut fs, uid_name(), Value::Text(g));
            Value::Object(fs)
        },
        _ => e,
    }
}

/// The entries of an object of entities as a container, where every entity
/// carries the name it stands under as identifier and no name is used twice.
fn import_entries(es: &Vec<(String, Value)>) -> (r: Option<Container>)
    ensures
        match r {
            Some(c) => container_wf(fields_model(es@)) && c@ == fields_model(es@),
            None => !container_wf(fields_model(es@)),
        },
{
    let ghost fm = fields_model(es@);
    proof {
        lemma_fields_model(es@);
    }
    let mut i: usize = 0;
    while i < es.len()
        invariant
            i <= es.len(),
            fm == fields_model(es@),
            fm.len() == es@.len(),
            forall|j: int| 0 <= j < es.len() ==> #[trigger] fm[j] == (es@[j].0@, es@[j].1@),
            forall|a: int, b: int| 0 <= a < i && 0 <= b < i && a != b ==> fm[a].0 != fm[b].0,
            forall|a: int| 0 <= a < i ==> #[trigger] usable_uid(fm[a].1) == Some(fm[a].0),
        decreases es.len() - i,
    {
        match carried_uid(&es[i].1) {
            Some(t) => {
                if !(t == es[i].0) {
                    proof {
                        assert(usable_uid(fm[i as int].1) != Some(fm[i as int].0));
                    }
                    return None;
                }
            },
            None => {
                proof {
                    assert(usable_uid(fm[i as int].1) != Some(fm[i as int].0));
                }
                return None;
            },
        }
        match find_field(es, &es[i].0) {
            Some(j) => {
                if j < i {
                    proof {
                        assert(fm[j as int].0 == fm[i as int].0);
                    }
                    return None;
                }
                proof {
                    assert(first_field(fm, fm[i as int].0, i as int));
                }
            },
            None => {
                proof {
                    assert(has_field(fm, fm[i as int].0));
                }
                return None;
            },
        }
        i = i + 1;
    }
    let entries = copy_fields(es);
    Some(Container { entries })
}

/// The exported form of the tree: an object of containers, each an object
/// of entities by identifier.
pub open spec fn export_model(t: Tree) -> Json {
    Json::Object(t.map_values(|p: (Seq<char>, Entries)| (p.0, Json::Object(p.1))))
}

/// Reading an exported value back as a tree of containers.
pub open spec fn read_tree(j: Json) -> Tree {
    match j {
        Json::Object(cs) => cs.map_values(
            |p: (Seq<char>, Json)|
                (
                    p.0,
                    match p.1 {
                        Json::Object(es) => es,
                        _ => Seq::empty(),
                    },
                ),
        ),
        _ => Seq::empty(),
    }
}

/// A value that reads back as a well-formed tree: an object whose every
/// member is an object of entities.
pub open spec fn importable(j: Json) -> bool {
    match j {
        Json::Object(cs) => {
            &&& forall|i: int| 0 <= i < cs.len() ==> #[trigger] cs[i].1 is Object
            &&& tree_wf(read_tree(j))
        },
        _ => false,
    }
}

/// Why an entity was not stored.
#[derive(Debug, Clone, Copy, PartialEq, Eq)]
pub enum InsertError {
    /// The entity is not an object.
    ShapeError,
    /// Every identifier drawn was already in use in the container.
    NoFreshIdentifier,
}

/// The store: a document tree of named containers.
pub struct RungoDB {
    pub containers: Vec<(String, Container)>,
    pub single_file: bool,
}

impl View for RungoDB {
    type V = Tree;

    open spec fn view(&self) -> Tree {
        self.containers@.map_values(|p: (String, Container)| (p.0@, p.1@))
    }
}

impl RungoDB {
    pub open spec fn wf(&self) -> bool {
        tree_wf(self@)
    }

    /// An empty store.
    #[allow(non_snake_case)]
    pub fn New() -> (r: RungoDB)
        ensures
            r@ == Seq::<(Seq<char>, Entries)>::empty(),
            r.wf(),
            r.single_file,
    {
        let r = RungoDB { containers: Vec::new(), single_file: true };
        proof {
            assert(r@ =~= Seq::<(Seq<char>, Entries)>::empty());
        }
        r
    }

    /// The position of the container named `name`, if any.
    fn find_container(&self, name: &String) -> (r: Option<usize>)
        ensures
            match r {
                Some(i) => i < self@.len() && self@[i as int].0 == name@,
                None => !has_container(self@, name@),
            },
    {
        let mut i: usize = 0;
        while i < self.containers.len()
            invariant
                i <= self.containers.len(),
                forall|j: int| 0 <= j < i ==> self@[j].0 != name@,
            decreases self.containers.len() - i,
        {
            if self.containers[i].0 == *name {
                return Some(i);
            }
            i = i + 1;
        }
        None
    }

    /// The store that an exported value describes: containers in the order
    /// the value lists them. None where the value is not importable.
    #[allow(non_snake_case)]
    pub fn FromJson(v: &Value) -> (r: Option<RungoDB>)
        ensures
            match r {
                Some(db) => {
                    &&& importable(v@)
                    &&& db@ == read_tree(v@)
                    &&& db.wf()
                    &&& db.single_file
                },
                None => !importable(v@),
            },
    {
        match v {
            Value::Object(cs) => {
                let ghost rt = read_tree(v@);
                let ghost cm = fields_model(cs@);
                proof {
                    lemma_fields_model(cs@);
                }
                let mut db = RungoDB { containers: Vec::new(), single_file: true };
                let mut i: usize = 0;
                proof {
                    assert(db@ =~= rt.take(0));
                }
                while i < cs.len()
                    invariant
                        i <= cs.len(),
                        rt == read_tree(v@),
                        v@ == Json::Object(cm),
                        cm == fields_model(cs@),
                        cm.len() == cs@.len(),
                        rt.len() == cm.len(),
                        forall|j: int| 0 <= j < cs.len() ==> #[trigger] cm[j] == (
                            cs@[j].0@,
                            cs@[j].1@,
                        ),
                        forall|j: int| 0 <= j < i ==> #[trigger] cm[j].1 is Object,
                        db@ == rt.take(i as int),
                        db.wf(),
                        db.single_file,
                    decreases cs.len() - i,
                {
                    match &cs[i].1 {
                        Value::Object(es) => {
                            proof {
                                assert(rt[i as int] == (cm[i as int].0, fields_model(es@)));
                            }
                            let imported = import_entries(es);
                            if imported.is_none() {
                                proof {
                                    assert(!container_wf(rt[i as int].1));
                                }
                                return None;
                            }
                            let c = imported.unwrap();
                            if let Some(j) = db.find_container(&cs[i].0) {
                                proof {
                                    assert(rt[j as int] == db@[j as int]);
                                    assert(rt[j as int].0 == rt[i as int].0);
                                }
                                return None;
                            }
                            let ghost before = db@;
                            db.containers.push((cs[i].0.clone(), c));
                            proof {
                                assert(db@ =~= before.push(rt[i as int]));
                                assert(db@ =~= rt.take(i + 1));
                                assert forall|a: int, b: int|
                                    0 <= a < db@.len() && 0 <= b < db@.len() && a
                                        != b implies db@[a].0 != db@[b].0 by {
                                    if a < i && b < i {
                                        assert(db@[a] == before[a] && db@[b] == before[b]);
                                    } else if a < i {
                                        assert(db@[a] == before[a]);
                                    } else if b < i {
                                        assert(db@[b] == before[b]);
                                    }
                                }
                                assert forall|a: int| 0 <= a < db@.len() implies #[trigger] container_wf(
                                    db@[a].1,
                                ) by {
                                    if a < i {
                                        assert(db@[a] == before[a]);
                                    }
                                }
                            }
                        },
                        _ => {
                            proof {
                                assert(!(cm[i as int].1 is Object));
                            }
                            return None;
                        },
                    }
                    i = i + 1;
                }
                proof {
                    assert(db@ =~= rt);
                }
                Some(db)
            },
            _ => None,
        }
    }

    /// Stores an object that carries no usable identifier under the given
    /// identifier `g`, written into its `uid` field, in the container named
    /// `container` (created if need be). Refused, with nothing changed, where
    /// an entity of that container is already kept under `g`.
    pub fn insert_with_identifier(&mut self, container: &String, entity: Value, g: String) -> (r:
        Result<String, InsertError>)
        requires
            old(self).wf(),
            entity@ is Object,
            usable_uid(entity@) is None,
            g@.len() > 0,
        ensures
            final(self).wf(),
            final(self).single_file == old(self).single_file,
            r is Ok <==> !has_field(entries_of(old(self)@, container@), g@),
            r is Ok ==> r->Ok_0@ == g@ && final(self)@ == with_entries(
                old(self)@,
                container@,
                set_field(entries_of(old(self)@, container@), g@, stored_entity(entity@, g@)),
            ),
            r is Err ==> r->Err_0 is NoFreshIdentifier && final(self)@ == old(self)@,
    {
        let ghost ev = entity@;
        if let Some(ci) = self.find_container(container) {
            proof {
                lemma_index_unique(self@, container@, ci as int);
            }
            if find_field(&self.containers[ci].1.entries, &g).is_some() {
                return Err(InsertError::NoFreshIdentifier);
            }
        }
        let k = g.clone();
        let stored = with_uid(entity, g);
        proof {
            lemma_stored_entity(ev, k@);
            assert(stored@ == stored_entity(ev, k@));
            lemma_entries_wf(self@, container@);
            lemma_put_wf(entries_of(self@, container@), k@, stored@);
            lemma_with_entries(
                self@,
                container@,
                set_field(entries_of(self@, container@), k@, stored@),
            );
        }
        let key = k.clone();
        let c = self.GetOrCreateContainer(container);
        c.put(key, stored);
        Ok(k)
    }

    /// The container named `name`, created empty where there is none.
    #[allow(non_snake_case)]
    pub fn GetOrCreateContainer(&mut self, name: &String) -> (r: &mut Container)
        requires
            old(self).wf(),
        ensures
            r@ == entries_of(old(self)@, name@),
            final(self)@ == with_entries(old(self)@, name@, final(r)@),
            final(self).single_file == old(self).single_file,
    {
        proof {
            lemma_resolve(self@, name@);
        }
        let i = match self.find_container(name) {
            Some(i) => {
                proof {
                    lemma_index_unique(self@, name@, i as int);
                }
                i
            },
            None => {
                let c = Container::new();
                self.containers.push((name.clone(), c));
                proof {
                    assert(self@ =~= old(self)@.push((name@, Seq::<(Seq<char>, Json)>::empty())));
                }
                self.containers.len() - 1
            },
        };
        proof {
            assert(self@ == resolve(old(self)@, name@));
            assert(container_index(resolve(old(self)@, name@), name@) == i);
        }
        &mut self.containers[i].1
    }

    /// Stores an entity in the container named `container`, created if need be,
    /// and returns the identifier it is kept under. An entity whose `uid`
    /// field is a non-empty text is kept under it, as it is; any other object
    /// gets a fresh identifier, a random version 4 UUID that no entity of the
    /// container is kept under, written into its `uid` field (see
    /// `insert_with_identifier`, called after each draw). An entity that is
    /// not an object is refused; so is an object for which `MAX_DRAWS`
    /// random identifiers in a row were all taken, which takes a non-empty
    /// container and a collision of random 122-bit values each time. Either
    /// way the container is created where it was missing, and nothing else
    /// changes.
    #[allow(non_snake_case)]
    pub fn InsertEntity(&mut self, container: &String, entity: Value) -> (r: Result<
        String,
        InsertError,
    >)
        requires
            old(self).wf(),
        ensures
            final(self).wf(),
            final(self).single_file == old(self).single_file,
            !(entity@ is Object) ==> r is Err && r->Err_0 is ShapeError && final(self)@ == resolve(
                old(self)@,
                container@,
            ),
            usable_uid(entity@) is Some ==> r is Ok && r->Ok_0@ == usable_uid(entity@)->Some_0,
            entity@ is Object ==> match r {
                Ok(k) => {
                    &&& final(self)@ == with_entries(
                        old(self)@,
                        container@,
                        set_field(
                            entries_of(old(self)@, container@),
                            k@,
                            stored_entity(entity@, k@),
                        ),
                    )
                    &&& k@ == stored_key(entity@, k@)
                    &&& usable_uid(entity@) is None ==> is_canonical_v4(k@) && !has_field(
                        entries_of(old(self)@, container@),
                        k@,
                    )
                },
                Err(err) => {
                    &&& err is NoFreshIdentifier
                    &&& usable_uid(entity@) is None
                    &&& entries_of(old(self)@, container@).len() > 0
                    &&& final(self)@ == resolve(old(self)@, container@)
                },
            },
    {
        let ghost ev = entity@;
        proof {
            lemma_with_own_entries(self@, container@);
            lemma_resolve(self@, container@);
        }
        self.GetOrCreateContainer(container);
        let ghost t1 = self@;
        proof {
            assert(t1 == resolve(old(self)@, container@));
            lemma_resolve_entries(old(self)@, container@, Seq::empty());
            assert forall|c: Entries| #[trigger] with_entries(t1, container@, c) == with_entries(
                old(self)@,
                container@,
                c,
            ) by {
                lemma_resolve_entries(old(self)@, container@, c);
            }
        }
        match &entity {
            Value::Object(_) => {},
            _ => {
                return Err(InsertError::ShapeError);
            },
        }
        match carried_uid(&entity) {
            Some(t) => {
                proof {
                    assert(stored_entity(ev, t@) == ev);
                    lemma_entries_wf(self@, container@);
                    lemma_put_wf(entries_of(self@, container@), t@, ev);
                    lemma_with_entries(
                        self@,
                        container@,
                        set_field(entries_of(self@, container@), t@, ev),
                    );
                }
                let k = t.clone();
                let c = self.GetOrCreateContainer(container);
                c.put(t, entity);
                Ok(k)
            },
            None => {
                let mut n: usize = 0;
                while n < MAX_DRAWS
                    invariant
                        self.wf(),
                        self@ == t1,
                        t1 == resolve(old(self)@, container@),
                        entries_of(t1, container@) == entries_of(old(self)@, container@),
                        forall|c: Entries| #[trigger]
                            with_entries(t1, container@, c) == with_entries(
                                old(self)@,
                                container@,
                                c,
                            ),
                        n > 0 ==> entries_of(old(self)@, container@).len() > 0,
                        self.single_file == old(self).single_file,
                        entity@ == ev,
                        ev is Object,
                        usable_uid(ev) is None,
                    decreases MAX_DRAWS - n,
                {
                    let g = fresh_uuid();
                    let ghost gv = g@;
                    let attempt = self.insert_with_identifier(container, entity.deep_copy(), g);
                    if attempt.is_ok() {
                        proof {
                            assert(attempt->Ok_0@ == gv);
                        }
                        return attempt;
                    }
                    proof {
                        assert(has_field(entries_of(old(self)@, container@), gv));
                    }
                    n = n + 1;
                }
                Err(InsertError::NoFreshIdentifier)
            },
        }
    }

    /// Copies of the entities of the container named `container_key` that the
    /// predicate selects (see `query_result`). The container is created,
    /// empty, where there is none.
    #[allow(non_snake_case)]
    pub fn QueryEntities(&mut self, container_key: &String, query: &Value) -> (r: Vec<Value>)
        requires
            old(self).wf(),
        ensures
            final(self).wf(),
            final(self).single_file == old(self).single_file,
            final(self)@ == resolve(old(self)@, container_key@),
            items_model(r@) == query_result(entries_of(old(self)@, container_key@), query@),
    {
        proof {
            lemma_with_own_entries(self@, container_key@);
            lemma_resolve(self@, container_key@);
        }
        let c = self.GetOrCreateContainer(container_key);
        c.query(query)
    }

    /// Takes out of the container named `container_key` the entities that the
    /// predicate selects (see `delete_result`). The container is created,
    /// empty, where there is none, and is never removed.
    #[allow(non_snake_case)]
    pub fn DeleteEntities(&mut self, container_key: &String, query: &Value)
        requires
            old(self).wf(),
        ensures
            final(self).wf(),
            final(self).single_file == old(self).single_file,
            final(self)@ == with_entries(
                old(self)@,
                container_key@,
                delete_result(entries_of(old(self)@, container_key@), query@),
            ),
    {
        proof {
            lemma_entries_wf(self@, container_key@);
            lemma_delete_wf(entries_of(self@, container_key@), query@);
            lemma_with_entries(
                self@,
                container_key@,
                delete_result(entries_of(self@, container_key@), query@),
            );
        }
        let c = self.GetOrCreateContainer(container_key);
        c.delete(query);
    }

    /// A copy of the whole tree as one value: an object of containers, each
    /// an object of entities by identifier.
    #[allow(non_snake_case)]
    pub fn ToJson(&self) -> (r: Value)
        ensures
            r@ == export_model(self@),
    {
        let mut out: Vec<(String, Value)> = Vec::new();
        let mut i: usize = 0;
        while i < self.containers.len()
            invariant
                i <= self.containers.len(),
                out@.len() == i,
                forall|j: int|
                    0 <= j < i ==> #[trigger] out@[j].0@ == self.containers@[j].0@ && out@[j].1@
                        == Json::Object(self.containers@[j].1@),
            decreases self.containers.len() - i,
        {
            let name = self.containers[i].0.clone();
            let es = copy_fields(&self.containers[i].1.entries);
            out.push((name, Value::Object(es)));
            i = i + 1;
        }
        proof {
            lemma_fields_model(out@);
            assert(fields_model(out@) =~= self@.map_values(
                |p: (Seq<char>, Entries)| (p.0, Json::Object(p.1)),
            ));
        }
        Value::Object(out)
    }
}

} // verus!
