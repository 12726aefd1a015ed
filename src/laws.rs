//! Properties that tie the store's operations together.

use vstd::prelude::*;
use crate::value::{Json, uid_key, first_field, has_field, field_value, set_field, lemma_first_field};
use crate::container::{
    Entries, container_wf, usable_uid, stored_entity, all_entities, lookup,
    query_result, delete_result, lemma_stored_entity, lemma_put_wf,
};
use crate::store::{
    Tree, tree_wf, has_container, entries_of, resolve, with_entries, export_model, lemma_resolve,
    lemma_with_entries, read_tree, importable,
};

verus! {

/// The predicate that names one identifier.
pub open spec fn uid_predicate(u: Seq<char>) -> Json {
    Json::Object(seq![(uid_key(), Json::Text(u))])
}

/// The container after inserting each entity of `es` in turn, the one at
/// position `i` given the fresh identifier `gs[i]`.
pub open spec fn inserted(c: Entries, es: Seq<Json>, gs: Seq<Seq<char>>) -> Entries
    decreases es.len(),
{
    if es.len() == 0 || gs.len() != es.len() {
        c
    } else {
        set_field(
            inserted(c, es.drop_last(), gs.drop_last()),
            gs.last(),
            stored_entity(es.last(), gs.last()),
        )
    }
}

/// Inserting entities that carry no identifier, each under an identifier not
/// yet in use, keeps every one of them: the identifiers are pairwise
/// distinct, each is kept, and the container holds as many more entities as
/// were inserted.
pub proof fn law_fresh_identifiers(c: Entries, es: Seq<Json>, gs: Seq<Seq<char>>)
    requires
        container_wf(c),
        es.len() == gs.len(),
        forall|i: int|
            0 <= i < es.len() ==> #[trigger] es[i] is Object && usable_uid(es[i]) is None,
        forall|i: int| 0 <= i < gs.len() ==> #[trigger] gs[i].len() > 0,
        forall|i: int|
            0 <= i < gs.len() ==> !has_field(
                inserted(c, es.take(i), gs.take(i)),
                #[trigger] gs[i],
            ),
    ensures
        container_wf(inserted(c, es, gs)),
        inserted(c, es, gs).len() == c.len() + es.len(),
        all_entities(inserted(c, es, gs)).len() == c.len() + es.len(),
        forall|i: int, j: int| 0 <= i < j < gs.len() ==> gs[i] != gs[j],
        forall|i: int| 0 <= i < gs.len() ==> has_field(inserted(c, es, gs), #[trigger] gs[i]),
    decreases es.len(),
{
    if es.len() > 0 {
        let n = es.len() - 1;
        let es2 = es.drop_last();
        let gs2 = gs.drop_last();
        assert forall|i: int| 0 <= i < gs2.len() implies !has_field(
            inserted(c, es2.take(i), gs2.take(i)),
            #[trigger] gs2[i],
        ) by {
            assert(es2.take(i) =~= es.take(i));
            assert(gs2.take(i) =~= gs.take(i));
            assert(gs2[i] == gs[i]);
        }
        assert forall|i: int| 0 <= i < es2.len() implies #[trigger] es2[i] is Object && usable_uid(
            es2[i],
        ) is None by {
            assert(es2[i] == es[i]);
        }
        assert forall|i: int| 0 <= i < gs2.len() implies #[trigger] gs2[i].len() > 0 by {
            assert(gs2[i] == gs[i]);
        }
        law_fresh_identifiers(c, es2, gs2);
        let prev = inserted(c, es2, gs2);
        let g = gs.last();
        let e = es.last();
        assert(es.take(n) =~= es2);
        assert(gs.take(n) =~= gs2);
        assert(!has_field(prev, gs[n]));
        assert(e is Object && usable_uid(e) is None && g.len() > 0) by {
            assert(es[n] == e && gs[n] == g);
        }
        lemma_fresh_step(prev, e, g);
        let r = inserted(c, es, gs);
        assert forall|i: int, j: int| 0 <= i < j < gs.len() implies gs[i] != gs[j] by {
            assert(gs2[i] == gs[i]);
            if j < n {
                assert(gs2[j] == gs[j]);
            } else {
                assert(has_field(prev, gs2[i]));
            }
        }
        assert forall|i: int| 0 <= i < gs.len() implies has_field(r, #[trigger] gs[i]) by {
            if i < n {
                assert(gs2[i] == gs[i]);
                assert(has_field(prev, gs2[i]));
            }
        }
    }
}

/// One insert under a fresh identifier adds one entity and keeps the rest.
proof fn lemma_fresh_step(prev: Entries, e: Json, g: Seq<char>)
    requires
        container_wf(prev),
        e is Object,
        usable_uid(e) is None,
        g.len() > 0,
        !has_field(prev, g),
    ensures
        container_wf(set_field(prev, g, stored_entity(e, g))),
        set_field(prev, g, stored_entity(e, g)).len() == prev.len() + 1,
        has_field(set_field(prev, g, stored_entity(e, g)), g),
        forall|k: Seq<char>|
            has_field(prev, k) ==> #[trigger] has_field(set_field(prev, g, stored_entity(e, g)), k),
{
    lemma_stored_entity(e, g);
    lemma_put_wf(prev, g, stored_entity(e, g));
    let r = set_field(prev, g, stored_entity(e, g));
    assert(r == prev.push((g, stored_entity(e, g))));
    assert(r[prev.len() as int].0 == g);
    assert forall|k: Seq<char>| has_field(prev, k) implies #[trigger] has_field(r, k) by {
        let m = choose|m: int| 0 <= m < prev.len() && prev[m].0 == k;
        assert(r[m] == prev[m]);
    }
}

/// In a well-formed container, selecting the entities whose identifier is
/// `u` gives what the look-up by `u` gives.
pub proof fn lemma_filter_uid(c: Entries, u: Seq<char>)
    requires
        container_wf(c),
    ensures
        all_entities(c).filter(|x: Json| usable_uid(x) == Some(u)) == lookup(c, u),
    decreases c.len(),
{
    reveal(Seq::filter);
    let p = |x: Json| usable_uid(x) == Some(u);
    lemma_first_field(c, u);
    if c.len() == 0 {
        assert(!has_field(c, u));
    } else {
        let d = c.drop_last();
        let last = c.len() - 1;
        assert forall|i: int| 0 <= i < d.len() implies #[trigger] usable_uid(d[i].1) == Some(
            d[i].0,
        ) by {
            assert(d[i] == c[i]);
        }
        assert(container_wf(d));
        lemma_filter_uid(d, u);
        lemma_first_field(d, u);
        assert(all_entities(c).drop_last() =~= all_entities(d));
        assert(all_entities(c).last() == c[last].1);
        assert(usable_uid(c[last].1) == Some(c[last].0));
        if c[last].0 == u {
            assert forall|i: int| 0 <= i < d.len() implies d[i].0 != u by {
                assert(d[i] == c[i]);
            }
            assert(!has_field(d, u));
            assert(first_field(c, u, last));
            assert(lookup(c, u) == seq![c[last].1]);
            assert(all_entities(c).filter(p) =~= seq![c[last].1]);
        } else {
            assert forall|i: int| 0 <= i < c.len() implies first_field(c, u, i) == first_field(
                d,
                u,
                i,
            ) by {
                if i < d.len() {
                    assert forall|j: int| 0 <= j < i implies d[j] == c[j] by {}
                    assert(d[i] == c[i]);
                }
            }
            assert(has_field(c, u) == has_field(d, u)) by {
                if has_field(d, u) {
                    let i = choose|i: int| 0 <= i < d.len() && d[i].0 == u;
                    assert(d[i] == c[i]);
                }
                if has_field(c, u) {
                    let i = choose|i: int| 0 <= i < c.len() && c[i].0 == u;
                    assert(d[i] == c[i]);
                }
            }
            if has_field(c, u) {
                let i = choose|i: int| first_field(c, u, i);
                assert(first_field(d, u, i));
                assert(d[i] == c[i]);
            }
            assert(lookup(c, u) == lookup(d, u));
        }
    }
}

/// An entity kept under `u` is what a query by `u` returns, alone, and what
/// a full query filtered to the identifier `u` returns.
pub proof fn law_uid_fast_path(c: Entries, u: Seq<char>, e: Json)
    requires
        container_wf(c),
        field_value(c, u) == Some(e),
    ensures
        query_result(c, uid_predicate(u)) == seq![e],
        query_result(c, Json::Object(Seq::empty())).filter(|x: Json| usable_uid(x) == Some(u))
            == seq![e],
{
    lemma_filter_uid(c, u);
    assert(lookup(c, u) == seq![e]);
    let qf = seq![(uid_key(), Json::Text(u))];
    assert(qf[0].0 == uid_key());
}

/// Resolving a container twice is resolving it once: at most one container
/// is added, under that name, and where it exists the tree is unchanged.
pub proof fn law_resolve_idempotent(t: Tree, name: Seq<char>)
    requires
        tree_wf(t),
    ensures
        resolve(resolve(t, name), name) == resolve(t, name),
        has_container(t, name) ==> export_model(resolve(t, name)) == export_model(t),
        forall|other: Seq<char>|
            #[trigger] has_container(resolve(t, name), other) == (has_container(t, other)
                || other == name),
{
    lemma_resolve(t, name);
    let r = resolve(t, name);
    assert forall|other: Seq<char>| #[trigger] has_container(r, other) == (has_container(
        t,
        other,
    ) || other == name) by {
        if !has_container(t, name) {
            if has_container(t, other) {
                let i = choose|i: int| 0 <= i < t.len() && t[i].0 == other;
                assert(r[i] == t[i]);
            }
            if has_container(r, other) && other != name {
                let i = choose|i: int| 0 <= i < r.len() && r[i].0 == other;
                assert(i < t.len());
                assert(r[i] == t[i]);
            }
        }
    }
}

/// Deleting with the empty predicate empties the container but keeps it:
/// a full query then returns nothing, the container still exists, every
/// other container is as it was, and it holds no entity, so no identifier
/// is taken in it and an insert of any object into it succeeds.
pub proof fn law_delete_all(t: Tree, name: Seq<char>)
    requires
        tree_wf(t),
    ensures
        ({
            let after = with_entries(
                t,
                name,
                delete_result(entries_of(t, name), Json::Object(Seq::empty())),
            );
            &&& tree_wf(after)
            &&& query_result(entries_of(after, name), Json::Object(Seq::empty())) == Seq::<
                Json,
            >::empty()
            &&& has_container(after, name)
            &&& resolve(after, name) == after
            &&& entries_of(after, name).len() == 0
            &&& forall|g: Seq<char>| !#[trigger] has_field(entries_of(after, name), g)
            &&& forall|other: Seq<char>|
                other != name ==> #[trigger] entries_of(after, other) == entries_of(t, other)
                    && has_container(after, other) == has_container(t, other)
        }),
{
    let c = delete_result(entries_of(t, name), Json::Object(Seq::empty()));
    assert(c =~= Seq::<(Seq<char>, Json)>::empty());
    assert(container_wf(c));
    lemma_with_entries(t, name, c);
    let after = with_entries(t, name, c);
    assert(all_entities(c) =~= Seq::<Json>::empty());
}

/// Reading the exported value back gives the tree: every container, with
/// every entity under its identifier, in order; and the export of a
/// well-formed store is accepted back.
pub proof fn law_export_round_trip(t: Tree)
    ensures
        read_tree(export_model(t)) == t,
        tree_wf(t) ==> importable(export_model(t)),
{
    assert(read_tree(export_model(t)) =~= t);
}

} // verus!
