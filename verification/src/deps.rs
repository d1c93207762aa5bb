//! The order in which workshop items are installed: what an item needs comes
//! before it.
use vstd::prelude::*;

use crate::table::{at, lemma_slot_of, slot, Table};
use crate::text::holds;

verus! {

/// The items of `ids`, each where it first occurs.
pub open spec fn firsts(ids: Seq<Seq<char>>) -> Seq<Seq<char>>
    decreases ids.len(),
{
    if ids.len() == 0 {
        seq![]
    } else {
        let r = firsts(ids.drop_last());
        if r.contains(ids.last()) {
            r
        } else {
            r.push(ids.last())
        }
    }
}

/// Removing repetitions keeps every item, and each once.
pub proof fn law_firsts(ids: Seq<Seq<char>>)
    ensures
        firsts(ids).no_duplicates(),
        firsts(ids).len() <= ids.len(),
        forall|x: Seq<char>| #[trigger] firsts(ids).contains(x) <==> ids.contains(x),
        ids.no_duplicates() ==> firsts(ids) == ids,
    decreases ids.len(),
{
    if ids.len() > 0 {
        let t = ids.drop_last();
        law_firsts(t);
        let r = firsts(t);
        assert forall|x: Seq<char>| #[trigger] firsts(ids).contains(x) <==> ids.contains(x) by {
            if ids.contains(x) {
                let i = choose|i: int| 0 <= i < ids.len() && ids[i] == x;
                if i < t.len() {
                    assert(t[i] == x);
                    assert(r.contains(x));
                    let k = choose|k: int| 0 <= k < r.len() && r[k] == x;
                    assert(firsts(ids)[k] == x);
                } else if !r.contains(x) {
                    assert(firsts(ids)[r.len() as int] == x);
                }
            }
            if firsts(ids).contains(x) {
                let k = choose|k: int| 0 <= k < firsts(ids).len() && firsts(ids)[k] == x;
                if k < r.len() {
                    assert(r[k] == x);
                    assert(r.contains(x));
                    let i = choose|i: int| 0 <= i < t.len() && t[i] == x;
                    assert(ids[i] == x);
                } else {
                    assert(ids[ids.len() - 1] == x);
                }
            }
        }
        if ids.no_duplicates() {
            assert(t.no_duplicates());
            if t.contains(ids.last()) {
                let i = choose|i: int| 0 <= i < t.len() && t[i] == ids.last();
                assert(ids[i] == ids[ids.len() - 1]);
            }
            assert(ids =~= t.push(ids.last()));
        }
    } else {
        assert(ids =~= seq![]);
    }
}

/// The items of `ids`, each where it first occurs.
pub fn dedup_ids(ids: &Vec<String>) -> (r: Vec<String>)
    ensures
        r.deep_view() == firsts(ids.deep_view()),
{
    let mut r: Vec<String> = Vec::new();
    let ghost all = ids.deep_view();
    let mut i: usize = 0;
    assert(r.deep_view() =~= seq![]);
    while i < ids.len()
        invariant
            i <= ids.len(),
            all == ids.deep_view(),
            r.deep_view() == firsts(all.take(i as int)),
        decreases ids.len() - i,
    {
        proof {
            assert(all.take(i + 1).drop_last() =~= all.take(i as int));
        }
        if !holds(&r, ids[i].as_str()) {
            let ghost before = r.deep_view();
            r.push(ids[i].clone());
            assert(r.deep_view() =~= before.push(ids@[i as int]@));
        }
        i += 1;
    }
    assert(all.take(ids.len() as int) =~= all);
    r
}

/// What items need: under each id that is known, the ids that it needs.
pub open spec fn unseen(graph: Seq<(Seq<char>, Seq<Seq<char>>)>, seen: Seq<Seq<char>>) -> nat
    decreases graph.len(),
{
    if graph.len() == 0 {
        0
    } else {
        let r = unseen(graph.drop_last(), seen);
        if seen.contains(graph.last().0) {
            r
        } else {
            r + 1
        }
    }
}

pub open spec fn within(a: Seq<Seq<char>>, b: Seq<Seq<char>>) -> bool {
    forall|x: Seq<char>| #[trigger] a.contains(x) ==> b.contains(x)
}

proof fn lemma_unseen_shrinks(
    graph: Seq<(Seq<char>, Seq<Seq<char>>)>,
    a: Seq<Seq<char>>,
    b: Seq<Seq<char>>,
)
    requires
        within(a, b),
    ensures
        unseen(graph, b) <= unseen(graph, a),
    decreases graph.len(),
{
    if graph.len() > 0 {
        lemma_unseen_shrinks(graph.drop_last(), a, b);
    }
}

proof fn lemma_unseen_drops(
    graph: Seq<(Seq<char>, Seq<Seq<char>>)>,
    seen: Seq<Seq<char>>,
    id: Seq<char>,
    k: int,
)
    requires
        0 <= k < graph.len(),
        graph[k].0 == id,
        !seen.contains(id),
    ensures
        unseen(graph, seen.push(id)) < unseen(graph, seen),
    decreases graph.len(),
{
    lemma_push(seen, id);
    if k < graph.len() - 1 {
        assert(graph.drop_last()[k].0 == id);
        lemma_unseen_drops(graph.drop_last(), seen, id, k);
    } else {
        lemma_unseen_shrinks(graph.drop_last(), seen, seen.push(id));
    }
}

proof fn lemma_push(s: Seq<Seq<char>>, x: Seq<char>)
    ensures
        forall|y: Seq<char>| #[trigger] s.push(x).contains(y) <==> s.contains(y) || y == x,
{
    assert forall|y: Seq<char>| #[trigger] s.push(x).contains(y) <==> s.contains(y) || y == x by {
        if s.push(x).contains(y) {
            let i = choose|i: int| 0 <= i < s.push(x).len() && s.push(x)[i] == y;
            if i < s.len() {
                assert(s[i] == y);
            }
        }
        if s.contains(y) {
            let i = choose|i: int| 0 <= i < s.len() && s[i] == y;
            assert(s.push(x)[i] == y);
        }
        if y == x {
            assert(s.push(x)[s.len() as int] == y);
        }
    }
}

/// How far a walk over what items need has come: the items that were reached,
/// and those that are placed, in order.
#[verifier::ext_equal]
pub struct Visit {
    pub seen: Seq<Seq<char>>,
    pub order: Seq<Seq<char>>,
}

/// The walk after `id`: what it needs is placed first, then `id`, unless it was
/// reached before.
pub open spec fn visit(graph: Seq<(Seq<char>, Seq<Seq<char>>)>, id: Seq<char>, v: Visit) -> Visit
    decreases unseen(graph, v.seen), 0nat,
    via visit_decreases
{
    if v.seen.contains(id) {
        v
    } else {
        let w = Visit { seen: v.seen.push(id), ..v };
        let r = match at(graph, id) {
            Some(needs) => visit_all(graph, needs, needs.len(), w),
            None => w,
        };
        Visit { order: r.order.push(id), ..r }
    }
}

/// The walk after the first `n` of `ids`.
pub open spec fn visit_all(
    graph: Seq<(Seq<char>, Seq<Seq<char>>)>,
    ids: Seq<Seq<char>>,
    n: nat,
    v: Visit,
) -> Visit
    decreases unseen(graph, v.seen), n,
    via visit_all_decreases
{
    if n == 0 || n > ids.len() {
        v
    } else {
        let r = visit_all(graph, ids, (n - 1) as nat, v);
        if within(v.seen, r.seen) {
            visit(graph, ids[n - 1], r)
        } else {
            r
        }
    }
}

#[via_fn]
proof fn visit_decreases(graph: Seq<(Seq<char>, Seq<Seq<char>>)>, id: Seq<char>, v: Visit) {
    if !v.seen.contains(id) {
        lemma_slot_of(graph, id, 0);
        match slot(graph, id, 0) {
            Some(k) => {
                lemma_unseen_drops(graph, v.seen, id, k);
            },
            None => {},
        }
    }
}

#[via_fn]
proof fn visit_all_decreases(
    graph: Seq<(Seq<char>, Seq<Seq<char>>)>,
    ids: Seq<Seq<char>>,
    n: nat,
    v: Visit,
) {
    assert forall|b: Seq<Seq<char>>| #[trigger] within(v.seen, b) implies unseen(graph, b)
        <= unseen(graph, v.seen) by {
        lemma_unseen_shrinks(graph, v.seen, b);
    }
}


/// A walk only adds: what was reached stays reached, and what was placed stays
/// in its place.
proof fn lemma_visit_grows(graph: Seq<(Seq<char>, Seq<Seq<char>>)>, id: Seq<char>, v: Visit)
    ensures
        within(v.seen, visit(graph, id, v).seen),
        visit(graph, id, v).seen.contains(id),
        v.order.is_prefix_of(visit(graph, id, v).order),
    decreases unseen(graph, v.seen), 0nat,
{
    if !v.seen.contains(id) {
        let w = Visit { seen: v.seen.push(id), ..v };
        lemma_push(v.seen, id);
        match at(graph, id) {
            Some(needs) => {
                lemma_slot_of(graph, id, 0);
                lemma_unseen_drops(graph, v.seen, id, slot(graph, id, 0)->Some_0);
                lemma_visit_all_grows(graph, needs, needs.len(), w);
                assert(w.seen.contains(id));
                assert forall|x: Seq<char>| #[trigger] v.seen.contains(x) implies visit(
                    graph,
                    id,
                    v,
                ).seen.contains(x) by {
                    assert(w.seen.contains(x));
                }
            },
            None => {},
        }
    }
}

proof fn lemma_visit_all_grows(
    graph: Seq<(Seq<char>, Seq<Seq<char>>)>,
    ids: Seq<Seq<char>>,
    n: nat,
    v: Visit,
)
    ensures
        within(v.seen, visit_all(graph, ids, n, v).seen),
        v.order.is_prefix_of(visit_all(graph, ids, n, v).order),
        n <= ids.len() ==> forall|k: int|
            0 <= k < n ==> visit_all(graph, ids, n, v).seen.contains(#[trigger] ids[k]),
    decreases unseen(graph, v.seen), n,
{
    if n > 0 && n <= ids.len() {
        lemma_visit_all_grows(graph, ids, (n - 1) as nat, v);
        let r = visit_all(graph, ids, (n - 1) as nat, v);
        lemma_unseen_shrinks(graph, v.seen, r.seen);
        lemma_visit_grows(graph, ids[n - 1], r);
        let q = visit(graph, ids[n - 1], r);
        assert forall|x: Seq<char>| #[trigger] v.seen.contains(x) implies q.seen.contains(x) by {
            assert(r.seen.contains(x));
        }
    }
}

/// Whether the item `x` is known to need `d`.
pub open spec fn has_need(
    graph: Seq<(Seq<char>, Seq<Seq<char>>)>,
    x: Seq<char>,
    d: Seq<char>,
) -> bool {
    at(graph, x) matches Some(needs) && needs.contains(d)
}

/// Everything that is placed was reached, and stands in one place only.
pub open spec fn orderly(v: Visit) -> bool {
    &&& v.order.no_duplicates()
    &&& within(v.order, v.seen)
}

/// Every id that a placed item needs was reached.
pub open spec fn needs_reached(
    graph: Seq<(Seq<char>, Seq<Seq<char>>)>,
    v: Visit,
    from: int,
) -> bool {
    forall|i: int, d: Seq<char>|
        from <= i < v.order.len() && #[trigger] has_need(graph, v.order[i], d) ==> v.seen.contains(d)
}

/// What a walk keeps: nothing is placed twice, what was reached and not placed
/// is what it was before, and what the newly placed items need was reached.
proof fn lemma_visit_orderly(graph: Seq<(Seq<char>, Seq<Seq<char>>)>, id: Seq<char>, v: Visit)
    requires
        orderly(v),
    ensures
        ({
            let r = visit(graph, id, v);
            &&& orderly(r)
            &&& forall|x: Seq<char>|
                #[trigger] r.seen.contains(x) ==> r.order.contains(x) || v.seen.contains(x)
            &&& forall|x: Seq<char>|
                v.seen.contains(x) && !v.order.contains(x) ==> !#[trigger] r.order.contains(x)
            &&& needs_reached(graph, r, v.order.len() as int)
        }),
    decreases unseen(graph, v.seen), 0nat,
{
    lemma_visit_grows(graph, id, v);
    if !v.seen.contains(id) {
        let w = Visit { seen: v.seen.push(id), ..v };
        lemma_push(v.seen, id);
        let q = match at(graph, id) {
            Some(needs) => visit_all(graph, needs, needs.len(), w),
            None => w,
        };
        assert(orderly(w));
        match at(graph, id) {
            Some(needs) => {
                lemma_slot_of(graph, id, 0);
                lemma_unseen_drops(graph, v.seen, id, slot(graph, id, 0)->Some_0);
                lemma_visit_all_orderly(graph, needs, needs.len(), w);
                lemma_visit_all_grows(graph, needs, needs.len(), w);
            },
            None => {},
        }
        let r = visit(graph, id, v);
        lemma_push(q.order, id);
        assert(w.seen.contains(id));
        assert(!v.order.contains(id));
        assert(!q.order.contains(id));
        assert forall|i: int, d: Seq<char>|
            v.order.len() <= i < r.order.len() && #[trigger] has_need(graph, r.order[i], d) implies r.seen.contains(d) by {
            if i < q.order.len() {
                assert(q.order[i] == r.order[i]);
                assert(has_need(graph, q.order[i], d));
            } else {
                let needs = at(graph, id)->Some_0;
                let k = choose|k: int| 0 <= k < needs.len() && needs[k] == d;
                assert(q.seen.contains(needs[k]));
            }
        }
        assert forall|x: Seq<char>| #[trigger] r.seen.contains(x) implies r.order.contains(x)
            || v.seen.contains(x) by {
            assert(q.order.contains(x) || w.seen.contains(x));
            assert(r.order.contains(x) <==> q.order.contains(x) || x == id);
        }
        assert forall|x: Seq<char>| v.seen.contains(x) && !v.order.contains(x) implies !#[trigger] r.order.contains(
        x) by {
            assert(w.seen.contains(x));
            assert(!q.order.contains(x));
        }
    }
}

proof fn lemma_visit_all_orderly(
    graph: Seq<(Seq<char>, Seq<Seq<char>>)>,
    ids: Seq<Seq<char>>,
    n: nat,
    v: Visit,
)
    requires
        orderly(v),
    ensures
        ({
            let r = visit_all(graph, ids, n, v);
            &&& orderly(r)
            &&& forall|x: Seq<char>|
                #[trigger] r.seen.contains(x) ==> r.order.contains(x) || v.seen.contains(x)
            &&& forall|x: Seq<char>|
                v.seen.contains(x) && !v.order.contains(x) ==> !#[trigger] r.order.contains(x)
            &&& needs_reached(graph, r, v.order.len() as int)
        }),
    decreases unseen(graph, v.seen), n,
{
    if n > 0 && n <= ids.len() {
        lemma_visit_all_orderly(graph, ids, (n - 1) as nat, v);
        lemma_visit_all_grows(graph, ids, (n - 1) as nat, v);
        let q = visit_all(graph, ids, (n - 1) as nat, v);
        lemma_unseen_shrinks(graph, v.seen, q.seen);
        lemma_visit_orderly(graph, ids[n - 1], q);
        lemma_visit_grows(graph, ids[n - 1], q);
        let r = visit(graph, ids[n - 1], q);
        assert forall|x: Seq<char>| #[trigger] r.seen.contains(x) implies r.order.contains(x)
            || v.seen.contains(x) by {
            if !r.order.contains(x) {
                assert(q.seen.contains(x));
                if q.order.contains(x) {
                    let k = choose|k: int| 0 <= k < q.order.len() && q.order[k] == x;
                    assert(r.order[k] == x);
                }
            }
        }
        assert forall|x: Seq<char>| v.seen.contains(x) && !v.order.contains(x) implies !#[trigger] r.order.contains(
        x) by {
            assert(q.seen.contains(x));
            assert(!q.order.contains(x));
        }
        assert forall|i: int, d: Seq<char>|
            v.order.len() <= i < r.order.len() && #[trigger] has_need(graph, r.order[i], d) implies r.seen.contains(d) by {
            if i < q.order.len() {
                assert(q.order[i] == r.order[i]);
                assert(has_need(graph, q.order[i], d));
                assert(q.seen.contains(d));
            }
        }
    }
}

/// No item needs itself, directly or through others: what an item needs is
/// ranked lower.
pub open spec fn ranked(
    graph: Seq<(Seq<char>, Seq<Seq<char>>)>,
    rank: spec_fn(Seq<char>) -> nat,
) -> bool {
    forall|x: Seq<char>, d: Seq<char>|
        #[trigger] has_need(graph, x, d) ==> rank(d)
            < rank(x)
}

/// From a position on, what a placed item needs is placed before it.
pub open spec fn needs_first(
    graph: Seq<(Seq<char>, Seq<Seq<char>>)>,
    order: Seq<Seq<char>>,
    from: int,
) -> bool {
    forall|i: int, d: Seq<char>|
        from <= i < order.len() && #[trigger] has_need(graph, order[i], d) ==> order.take(i).contains(d)
}

proof fn lemma_take_contains(a: Seq<Seq<char>>, b: Seq<Seq<char>>, n: int, x: Seq<char>)
    requires
        0 <= n <= a.len() <= b.len(),
        a.is_prefix_of(b),
        a.take(n).contains(x),
    ensures
        b.take(n).contains(x),
{
    let k = choose|k: int| 0 <= k < a.take(n).len() && a.take(n)[k] == x;
    assert(b.take(n)[k] == x);
}

proof fn lemma_visit_ranked(
    graph: Seq<(Seq<char>, Seq<Seq<char>>)>,
    id: Seq<char>,
    v: Visit,
    rank: spec_fn(Seq<char>) -> nat,
)
    requires
        orderly(v),
        ranked(graph, rank),
        forall|x: Seq<char>|
            #[trigger] v.seen.contains(x) && !v.order.contains(x) ==> rank(x) > rank(id),
    ensures
        needs_first(graph, visit(graph, id, v).order, v.order.len() as int),
    decreases unseen(graph, v.seen), 0nat,
{
    if !v.seen.contains(id) {
        let w = Visit { seen: v.seen.push(id), ..v };
        lemma_push(v.seen, id);
        let q = match at(graph, id) {
            Some(needs) => visit_all(graph, needs, needs.len(), w),
            None => w,
        };
        assert(orderly(w));
        match at(graph, id) {
            Some(needs) => {
                lemma_slot_of(graph, id, 0);
                lemma_unseen_drops(graph, v.seen, id, slot(graph, id, 0)->Some_0);
                assert forall|x: Seq<char>, k: int|
                    #[trigger] w.seen.contains(x) && !w.order.contains(x) && 0 <= k
                        < needs.len() implies rank(x) > rank(#[trigger] needs[k]) by {
                    assert(has_need(graph, id, needs[k]));
                }
                lemma_visit_all_ranked(graph, needs, needs.len(), w, rank);
                lemma_visit_all_orderly(graph, needs, needs.len(), w);
                lemma_visit_all_grows(graph, needs, needs.len(), w);
            },
            None => {},
        }
        let r = visit(graph, id, v);
        assert forall|i: int, d: Seq<char>|
            v.order.len() <= i < r.order.len() && #[trigger] has_need(graph, r.order[i], d) implies r.order.take(i).contains(d) by {
            if i < q.order.len() {
                assert(q.order[i] == r.order[i]);
                assert(has_need(graph, q.order[i], d));
                lemma_take_contains(q.order, r.order, i, d);
            } else {
                let needs = at(graph, id)->Some_0;
                let k = choose|k: int| 0 <= k < needs.len() && needs[k] == d;
                assert(q.seen.contains(needs[k]));
                assert(has_need(graph, id, d));
                if !q.order.contains(d) {
                    assert(w.seen.contains(d));
                    if v.order.contains(d) {
                        let h = choose|h: int| 0 <= h < v.order.len() && v.order[h] == d;
                        assert(q.order[h] == d);
                    }
                }
                assert(q.order.contains(d));
                let h = choose|h: int| 0 <= h < q.order.len() && q.order[h] == d;
                assert(r.order.take(i)[h] == d);
            }
        }
    }
}

proof fn lemma_visit_all_ranked(
    graph: Seq<(Seq<char>, Seq<Seq<char>>)>,
    ids: Seq<Seq<char>>,
    n: nat,
    v: Visit,
    rank: spec_fn(Seq<char>) -> nat,
)
    requires
        orderly(v),
        ranked(graph, rank),
        forall|x: Seq<char>, k: int|
            #[trigger] v.seen.contains(x) && !v.order.contains(x) && 0 <= k < ids.len() ==> rank(x)
                > rank(#[trigger] ids[k]),
    ensures
        needs_first(graph, visit_all(graph, ids, n, v).order, v.order.len() as int),
    decreases unseen(graph, v.seen), n,
{
    if n > 0 && n <= ids.len() {
        lemma_visit_all_ranked(graph, ids, (n - 1) as nat, v, rank);
        lemma_visit_all_orderly(graph, ids, (n - 1) as nat, v);
        lemma_visit_all_grows(graph, ids, (n - 1) as nat, v);
        let q = visit_all(graph, ids, (n - 1) as nat, v);
        lemma_unseen_shrinks(graph, v.seen, q.seen);
        let id = ids[n - 1];
        assert forall|x: Seq<char>|
            #[trigger] q.seen.contains(x) && !q.order.contains(x) implies rank(x) > rank(id) by {
            assert(v.seen.contains(x));
            if v.order.contains(x) {
                let h = choose|h: int| 0 <= h < v.order.len() && v.order[h] == x;
                assert(q.order[h] == x);
            }
        }
        lemma_visit_ranked(graph, id, q, rank);
        lemma_visit_grows(graph, id, q);
        let r = visit(graph, id, q);
        assert forall|i: int, d: Seq<char>|
            v.order.len() <= i < r.order.len() && #[trigger] has_need(graph, r.order[i], d) implies r.order.take(i).contains(d) by {
            if i < q.order.len() {
                assert(q.order[i] == r.order[i]);
                assert(has_need(graph, q.order[i], d));
                lemma_take_contains(q.order, r.order, i, d);
            }
        }
    }
}

/// The order in which `ids` and everything that they need is installed.
pub open spec fn install_order(
    graph: Seq<(Seq<char>, Seq<Seq<char>>)>,
    ids: Seq<Seq<char>>,
) -> Seq<Seq<char>> {
    visit_all(graph, ids, ids.len(), Visit { seen: seq![], order: seq![] }).order
}

/// Every requested item is installed, with everything that an installed item
/// needs, and each once.
pub proof fn law_install_order_is_complete(
    graph: Seq<(Seq<char>, Seq<Seq<char>>)>,
    ids: Seq<Seq<char>>,
)
    ensures
        install_order(graph, ids).no_duplicates(),
        forall|k: int| 0 <= k < ids.len() ==> install_order(graph, ids).contains(#[trigger] ids[k]),
        forall|x: Seq<char>, d: Seq<char>|
            install_order(graph, ids).contains(x) && #[trigger] has_need(graph, x, d) ==> install_order(graph, ids).contains(d),
{
    let v = Visit { seen: seq![], order: seq![] };
    lemma_visit_all_orderly(graph, ids, ids.len(), v);
    lemma_visit_all_grows(graph, ids, ids.len(), v);
    let r = visit_all(graph, ids, ids.len(), v);
    assert forall|k: int| 0 <= k < ids.len() implies r.order.contains(#[trigger] ids[k]) by {
        assert(r.seen.contains(ids[k]));
        assert(!v.seen.contains(ids[k]));
    }
    assert forall|x: Seq<char>, d: Seq<char>|
        r.order.contains(x) && #[trigger] has_need(graph, x, d) implies r.order.contains(d) by {
        let i = choose|i: int| 0 <= i < r.order.len() && r.order[i] == x;
        assert(has_need(graph, r.order[i], d));
        assert(r.seen.contains(d));
        assert(!v.seen.contains(d));
    }
}

/// Where no item needs itself, directly or through others, what an item needs is
/// installed before it.
pub proof fn law_dependencies_come_first(
    graph: Seq<(Seq<char>, Seq<Seq<char>>)>,
    ids: Seq<Seq<char>>,
    rank: spec_fn(Seq<char>) -> nat,
)
    requires
        ranked(graph, rank),
    ensures
        needs_first(graph, install_order(graph, ids), 0),
{
    lemma_visit_all_ranked(
        graph,
        ids,
        ids.len(),
        Visit { seen: seq![], order: seq![] },
        rank,
    );
}

/// What an item with a property needs has it too.
pub open spec fn passes_on(
    graph: Seq<(Seq<char>, Seq<Seq<char>>)>,
    p: spec_fn(Seq<char>) -> bool,
) -> bool {
    forall|x: Seq<char>, d: Seq<char>| #[trigger] has_need(graph, x, d) && p(x) ==> p(d)
}

proof fn lemma_visit_within(
    graph: Seq<(Seq<char>, Seq<Seq<char>>)>,
    id: Seq<char>,
    v: Visit,
    p: spec_fn(Seq<char>) -> bool,
)
    requires
        passes_on(graph, p),
        p(id),
        forall|x: Seq<char>| #[trigger] v.order.contains(x) ==> p(x),
    ensures
        forall|x: Seq<char>| #[trigger] visit(graph, id, v).order.contains(x) ==> p(x),
    decreases unseen(graph, v.seen), 0nat,
{
    if !v.seen.contains(id) {
        let w = Visit { seen: v.seen.push(id), ..v };
        let q = match at(graph, id) {
            Some(needs) => visit_all(graph, needs, needs.len(), w),
            None => w,
        };
        if let Some(needs) = at(graph, id) {
            lemma_slot_of(graph, id, 0);
            lemma_unseen_drops(graph, v.seen, id, slot(graph, id, 0)->Some_0);
            assert forall|k: int| 0 <= k < needs.len() implies p(#[trigger] needs[k]) by {
                assert(has_need(graph, id, needs[k]));
            }
            lemma_visit_all_within(graph, needs, needs.len(), w, p);
        }
        lemma_push(q.order, id);
    }
}

proof fn lemma_visit_all_within(
    graph: Seq<(Seq<char>, Seq<Seq<char>>)>,
    ids: Seq<Seq<char>>,
    n: nat,
    v: Visit,
    p: spec_fn(Seq<char>) -> bool,
)
    requires
        passes_on(graph, p),
        forall|k: int| 0 <= k < ids.len() ==> p(#[trigger] ids[k]),
        forall|x: Seq<char>| #[trigger] v.order.contains(x) ==> p(x),
    ensures
        forall|x: Seq<char>| #[trigger] visit_all(graph, ids, n, v).order.contains(x) ==> p(x),
    decreases unseen(graph, v.seen), n,
{
    if n > 0 && n <= ids.len() {
        lemma_visit_all_within(graph, ids, (n - 1) as nat, v, p);
        lemma_visit_all_grows(graph, ids, (n - 1) as nat, v);
        let q = visit_all(graph, ids, (n - 1) as nat, v);
        lemma_unseen_shrinks(graph, v.seen, q.seen);
        lemma_visit_within(graph, ids[n - 1], q, p);
        assert(visit_all(graph, ids, n, v) == visit(graph, ids[n - 1], q));
    } else {
        assert(visit_all(graph, ids, n, v) == v);
    }
}

/// Nothing is installed but what was requested and what that needs, directly or
/// through others: a property that the requested items have and that is passed on
/// to what an item needs is one of every item that is installed.
pub proof fn law_install_order_holds_nothing_else(
    graph: Seq<(Seq<char>, Seq<Seq<char>>)>,
    ids: Seq<Seq<char>>,
    p: spec_fn(Seq<char>) -> bool,
)
    requires
        passes_on(graph, p),
        forall|k: int| 0 <= k < ids.len() ==> p(#[trigger] ids[k]),
    ensures
        forall|x: Seq<char>| #[trigger] install_order(graph, ids).contains(x) ==> p(x),
{
    lemma_visit_all_within(graph, ids, ids.len(), Visit { seen: seq![], order: seq![] }, p);
}

/// Places what `id` needs, then `id`, unless it was reached before.
pub fn post_order(
    id: &str,
    graph: &Table<Vec<String>>,
    seen: &mut Vec<String>,
    order: &mut Vec<String>,
)
    ensures
        (Visit { seen: final(seen).deep_view(), order: final(order).deep_view() }) == visit(
            graph.deep_view(),
            id@,
            Visit { seen: old(seen).deep_view(), order: old(order).deep_view() },
        ),
    decreases unseen(graph.deep_view(), old(seen).deep_view()),
{
    let ghost g = graph.deep_view();
    let ghost v = Visit { seen: seen.deep_view(), order: order.deep_view() };
    if holds(seen, id) {
        return;
    }
    seen.push(id.to_string());
    assert(seen.deep_view() =~= v.seen.push(id@));
    let ghost w = Visit { seen: v.seen.push(id@), ..v };
    match graph.get(id) {
        Some(needs) => {
            let ghost ids = needs.deep_view();
            proof {
                lemma_slot_of(g, id@, 0);
                lemma_unseen_drops(g, v.seen, id@, slot(g, id@, 0)->Some_0);
            }
            let mut n: usize = 0;
            while n < needs.len()
                invariant
                    n <= needs.len(),
                    g == graph.deep_view(),
                    ids == needs.deep_view(),
                    unseen(g, w.seen) < unseen(g, v.seen),
                    (Visit { seen: seen.deep_view(), order: order.deep_view() }) == visit_all(
                        g,
                        ids,
                        n as nat,
                        w,
                    ),
                    v.seen == old(seen).deep_view(),
                decreases needs.len() - n,
            {
                proof {
                    lemma_visit_all_grows(g, ids, n as nat, w);
                    lemma_unseen_shrinks(g, w.seen, seen.deep_view());
                }
                post_order(needs[n].as_str(), graph, seen, order);
                n += 1;
            }
        },
        None => {},
    }
    let ghost before = order.deep_view();
    order.push(id.to_string());
    assert(order.deep_view() =~= before.push(id@));
}

/// `ids` and everything that they need, what an item needs before it.
pub fn place_all(ids: &Vec<String>, graph: &Table<Vec<String>>) -> (r: Vec<String>)
    ensures
        r.deep_view() == install_order(graph.deep_view(), ids.deep_view()),
{
    let mut seen: Vec<String> = Vec::new();
    let mut order: Vec<String> = Vec::new();
    let ghost v = Visit { seen: seq![], order: seq![] };
    let ghost g = graph.deep_view();
    let ghost all = ids.deep_view();
    let mut n: usize = 0;
    assert(seen.deep_view() =~= seq![]);
    assert(order.deep_view() =~= seq![]);
    while n < ids.len()
        invariant
            n <= ids.len(),
            g == graph.deep_view(),
            all == ids.deep_view(),
            v == (Visit { seen: seq![], order: seq![] }),
            (Visit { seen: seen.deep_view(), order: order.deep_view() }) == visit_all(
                g,
                all,
                n as nat,
                v,
            ),
        decreases ids.len() - n,
    {
        proof {
            lemma_visit_all_grows(g, all, n as nat, v);
        }
        post_order(ids[n].as_str(), graph, &mut seen, &mut order);
        n += 1;
    }
    order
}

} // verus!
