//! A walk comes to an end, whatever it is told on the way.
use vstd::prelude::*;

use crate::json::JsonView;
use crate::modinfo::SourceView;
use crate::names::lowercase;
use crate::table::{at, lemma_slot_of, slot};
use crate::walk::{
    below, described, downloaded, resolved, stepped, AskView, FrameView, StageView, WalkView,
    WALK_DEPTH,
};
use crate::walk_laws::{
    is_open, law_replies_keep_the_walk_sound, law_steps_keep_the_walk_sound, law_walk_begins_sound,
    sound,
};

verus! {

/// What an open item has before it: the mod ids that it has not gone through, and
/// the stages that follow.
pub open spec fn stages_left(f: FrameView) -> nat {
    match f.stage {
        StageView::Needs => if f.next < f.required.len() {
            (5 + f.required.len() - f.next) as nat
        } else {
            5
        },
        StageView::Resolve => 4,
        StageView::Describe(_) => 3,
        StageView::Fetch(_) => 2,
        StageView::Items(_, _) => 1,
    }
}

/// The items that an open item has still to walk.
pub open spec fn items_left(f: FrameView) -> nat {
    match f.stage {
        StageView::Items(items, n) => if n < items.len() {
            (items.len() - n) as nat
        } else {
            0
        },
        _ => 0,
    }
}

/// What the open items on the level `depth` have before them.
pub open spec fn stages_at(frames: Seq<FrameView>, depth: nat) -> nat
    decreases frames.len(),
{
    if frames.len() == 0 {
        0
    } else {
        let rest = stages_at(frames.drop_last(), depth);
        if frames.last().depth == depth {
            rest + stages_left(frames.last())
        } else {
            rest
        }
    }
}

/// The items that the open items on the level `depth` have still to walk.
pub open spec fn items_at(frames: Seq<FrameView>, depth: nat) -> nat
    decreases frames.len(),
{
    if frames.len() == 0 {
        0
    } else {
        let rest = items_at(frames.drop_last(), depth);
        if frames.last().depth == depth {
            rest + items_left(frames.last())
        } else {
            rest
        }
    }
}

/// How many of the downloaded items were not reached.
pub open spec fn not_reached(sources: Seq<(Seq<char>, SourceView)>, seen: Seq<Seq<char>>) -> nat
    decreases sources.len(),
{
    if sources.len() == 0 {
        0
    } else {
        let rest = not_reached(sources.drop_last(), seen);
        if seen.contains(sources.last().0) {
            rest
        } else {
            rest + 1
        }
    }
}

/// The levels up to `depth` have less before them in `w` than in `v`: what is above
/// counts first, and on a level its stages before its items. Below the last level
/// nothing is looked for, so that the downloaded items are all that it can reach.
pub open spec fn less_below(w: WalkView, v: WalkView, depth: nat) -> bool
    decreases depth,
{
    if depth == 0 {
        let a = not_reached(w.sources, w.seen);
        let b = not_reached(v.sources, v.seen);
        a < b || (a == b && stages_at(w.frames, 0) < stages_at(v.frames, 0))
    } else {
        let (a, b) = (stages_at(w.frames, depth), stages_at(v.frames, depth));
        let (i, j) = (items_at(w.frames, depth), items_at(v.frames, depth));
        a < b || (a == b && (i < j || (i == j && less_below(w, v, (depth - 1) as nat))))
    }
}

/// The items of the request that were not reached yet.
pub open spec fn todo_left(v: WalkView) -> nat {
    if v.position < v.todo.len() {
        (v.todo.len() - v.position) as nat
    } else {
        0
    }
}

/// `w` has less before it than `v`.
pub open spec fn is_nearer(w: WalkView, v: WalkView) -> bool {
    todo_left(w) < todo_left(v) || (todo_left(w) == todo_left(v) && less_below(
        w,
        v,
        WALK_DEPTH as nat,
    ))
}

/// An item on the last level goes through what it requires and looks for nothing.
pub open spec fn ends_below(v: WalkView) -> bool {
    forall|i: int|
        0 <= i < v.frames.len() && (#[trigger] v.frames[i]).depth == 0 ==> v.frames[i].stage is Needs
            && v.frames[i].pending.len() == 0
}

/// `w` is the walk `v` one step and, where it asked something, one answer later;
/// lines that were told may have been taken off.
pub open spec fn goes_on(v: WalkView, w: WalkView) -> bool {
    let u = stepped(v).0;
    match stepped(v).1 {
        AskView::Go => w == (WalkView { progress: w.progress, ..u }),
        AskView::Resolve(_) => exists|
            reply: Result<Seq<(Seq<char>, Seq<char>)>, Seq<char>>,
            cache: Seq<(Seq<char>, Option<Seq<char>>)>,
        |
            w == (WalkView { progress: w.progress, ..#[trigger] resolved(u, reply, cache) }),
        AskView::Describe(_, _) => exists|
            titles: Seq<(Seq<char>, JsonView)>,
            items: Seq<Seq<char>>,
            lines: Seq<Seq<char>>,
        |
            w == (WalkView { progress: w.progress, ..#[trigger] described(u, titles, items, lines) }),
        AskView::Download(_) => exists|got: Seq<(Seq<char>, SourceView)>|
            w == (WalkView { progress: w.progress, ..#[trigger] downloaded(u, got) }),
        AskView::Done => false,
    }
}

proof fn lemma_pushed(frames: Seq<FrameView>, f: FrameView, depth: nat)
    ensures
        stages_at(frames.push(f), depth) == stages_at(frames, depth) + (if f.depth == depth {
            stages_left(f)
        } else {
            0
        }),
        items_at(frames.push(f), depth) == items_at(frames, depth) + (if f.depth == depth {
            items_left(f)
        } else {
            0
        }),
{
    assert(frames.push(f).drop_last() =~= frames);
}

proof fn lemma_reached(sources: Seq<(Seq<char>, SourceView)>, seen: Seq<Seq<char>>, id: Seq<char>)
    ensures
        not_reached(sources, seen.push(id)) <= not_reached(sources, seen),
        !seen.contains(id) && (exists|k: int|
            0 <= k < sources.len() && (#[trigger] sources[k]).0 == id) ==> not_reached(
            sources,
            seen.push(id),
        ) < not_reached(sources, seen),
    decreases sources.len(),
{
    if sources.len() > 0 {
        let t = sources.drop_last();
        lemma_reached(t, seen, id);
        let x = sources.last().0;
        let more = seen.push(id);
        assert(seen.contains(x) ==> more.contains(x)) by {
            if seen.contains(x) {
                let i = choose|i: int| 0 <= i < seen.len() && seen[i] == x;
                assert(more[i] == x);
            }
        }
        assert(more[seen.len() as int] == id);
        if exists|k: int| 0 <= k < sources.len() && (#[trigger] sources[k]).0 == id {
            let k = choose|k: int| 0 <= k < sources.len() && (#[trigger] sources[k]).0 == id;
            if k < t.len() {
                assert(t[k].0 == id);
            }
        }
    }
}

/// Less on one level and the same above it is less.
proof fn lemma_less_above(w: WalkView, v: WalkView, depth: nat, top: nat)
    requires
        0 < depth <= top,
        forall|e: nat|
            depth < e <= top ==> #[trigger] stages_at(w.frames, e) == stages_at(v.frames, e)
                && items_at(w.frames, e) == items_at(v.frames, e),
        stages_at(w.frames, depth) < stages_at(v.frames, depth) || (stages_at(w.frames, depth)
            == stages_at(v.frames, depth) && items_at(w.frames, depth) < items_at(
            v.frames,
            depth,
        )),
    ensures
        less_below(w, v, top),
    decreases top,
{
    if depth < top {
        lemma_less_above(w, v, depth, (top - 1) as nat);
    }
}

proof fn lemma_less_at_the_end(w: WalkView, v: WalkView, top: nat)
    requires
        forall|e: nat|
            0 < e <= top ==> #[trigger] stages_at(w.frames, e) == stages_at(v.frames, e)
                && items_at(w.frames, e) == items_at(v.frames, e),
        less_below(w, v, 0),
    ensures
        less_below(w, v, top),
    decreases top,
{
    if top > 0 {
        lemma_less_at_the_end(w, v, (top - 1) as nat);
    }
}

/// The uppermost open item has less before it; above its level nothing is new.
proof fn lemma_top_falls(v: WalkView, w: WalkView, g: FrameView)
    requires
        v.frames.len() > 0,
        0 < v.frames.last().depth <= WALK_DEPTH,
        g.depth == v.frames.last().depth,
        stages_left(g) < stages_left(v.frames.last()) || (stages_left(g) == stages_left(
            v.frames.last(),
        ) && items_left(g) < items_left(v.frames.last())),
        w.frames == v.frames.drop_last().push(g) || exists|h: FrameView|
            w.frames == #[trigger] v.frames.drop_last().push(g).push(h) && h.depth < g.depth,
        w.todo == v.todo,
        w.position == v.position,
    ensures
        is_nearer(w, v),
{
    let f = v.frames.last();
    let rest = v.frames.drop_last();
    let d = f.depth;
    assert(v.frames =~= rest.push(f));
    assert forall|e: nat| d <= e implies #[trigger] stages_at(w.frames, e) + (if e == d {
        stages_left(f)
    } else {
        0
    }) == stages_at(v.frames, e) + (if e == d {
        stages_left(g)
    } else {
        0
    }) && items_at(w.frames, e) + (if e == d {
        items_left(f)
    } else {
        0
    }) == items_at(v.frames, e) + (if e == d {
        items_left(g)
    } else {
        0
    }) by {
        lemma_pushed(rest, f, e);
        lemma_pushed(rest, g, e);
        if w.frames != rest.push(g) {
            let h = choose|h: FrameView|
                w.frames == #[trigger] rest.push(g).push(h) && h.depth < g.depth;
            lemma_pushed(rest.push(g), h, e);
        }
    }
    assert(stages_at(w.frames, d) + stages_left(f) == stages_at(v.frames, d) + stages_left(g));
    lemma_less_above(w, v, d, WALK_DEPTH as nat);
}

/// The uppermost open item is placed.
proof fn lemma_placed_falls(v: WalkView, w: WalkView)
    requires
        v.frames.len() > 0,
        v.frames.last().depth <= WALK_DEPTH,
        w.frames == v.frames.drop_last(),
        w.todo == v.todo,
        w.position == v.position,
        v.frames.last().depth == 0 ==> w.sources == v.sources && w.seen == v.seen,
    ensures
        is_nearer(w, v),
{
    let f = v.frames.last();
    let rest = v.frames.drop_last();
    assert(v.frames =~= rest.push(f));
    assert forall|e: nat| e != f.depth implies #[trigger] stages_at(w.frames, e) == stages_at(
        v.frames,
        e,
    ) && items_at(w.frames, e) == items_at(v.frames, e) by {
        lemma_pushed(rest, f, e);
    }
    lemma_pushed(rest, f, f.depth);
    if f.depth == 0 {
        lemma_less_at_the_end(w, v, WALK_DEPTH as nat);
    } else {
        lemma_less_above(w, v, f.depth, WALK_DEPTH as nat);
    }
}

/// One mod id of the uppermost open item is gone through.
proof fn lemma_need_falls(v: WalkView, w: WalkView)
    requires
        sound(v),
        ends_below(v),
        v.frames.len() > 0,
        v.frames.last().stage is Needs,
        v.frames.last().next < v.frames.last().required.len(),
        w == (WalkView { progress: w.progress, ..stepped(v).0 }),
    ensures
        is_nearer(w, v),
{
    let f = v.frames.last();
    let rest = v.frames.drop_last();
    let key = lowercase(f.required[f.next as int]);
    let n = v.frames.len() - 1;
    assert(v.frames[n].depth <= WALK_DEPTH);
    let g = match at(v.providers, key) {
        Some(_) => FrameView { next: f.next + 1, ..f },
        None => FrameView {
            next: f.next + 1,
            pending: if f.depth > 0 {
                f.pending.push(f.required[f.next as int])
            } else {
                f.pending
            },
            ..f
        },
    };
    assert(stages_left(g) < stages_left(f));
    let opens = at(v.providers, key) matches Some(p) && at(v.sources, p) is Some && !v.seen.contains(
        p,
    );
    if f.depth > 0 {
        if opens {
            let h = w.frames.last();
            assert(w.frames == rest.push(g).push(h));
            assert(h.depth == below(f.depth));
        } else {
            assert(w.frames == rest.push(g));
        }
        lemma_top_falls(v, w, g);
    } else {
        assert(v.frames =~= rest.push(f));
        assert forall|e: nat| 0 < e <= WALK_DEPTH implies #[trigger] stages_at(w.frames, e)
            == stages_at(v.frames, e) && items_at(w.frames, e) == items_at(v.frames, e) by {
            lemma_pushed(rest, f, e);
            lemma_pushed(rest, g, e);
            if opens {
                lemma_pushed(rest.push(g), w.frames.last(), e);
                assert(w.frames == rest.push(g).push(w.frames.last()));
            }
        }
        if opens {
            let p = at(v.providers, key)->Some_0;
            lemma_slot_of(v.sources, p, 0);
            let k = slot(v.sources, p, 0)->Some_0;
            assert(v.sources[k].0 == p);
            lemma_reached(v.sources, v.seen, p);
            assert(w.seen == v.seen.push(p));
        } else {
            lemma_pushed(rest, f, 0);
            lemma_pushed(rest, g, 0);
            assert(w.frames == rest.push(g));
        }
        lemma_less_at_the_end(w, v, WALK_DEPTH as nat);
    }
}

/// Every step, with the answer to what it asks, brings a walk nearer to its end,
/// whatever the answer is.
pub proof fn law_every_step_brings_a_walk_nearer_to_its_end(v: WalkView, w: WalkView)
    requires
        sound(v),
        ends_below(v),
        goes_on(v, w),
    ensures
        is_nearer(w, v),
        sound(w),
        ends_below(w),
{
    let u = stepped(v).0;
    let ask = stepped(v).1;
    law_steps_keep_the_walk_sound(v);
    if v.frames.len() == 0 {
        assert(todo_left(w) < todo_left(v));
        lemma_same_but_lines(u, w);
    } else {
        let n = v.frames.len() - 1;
        let f = v.frames.last();
        let rest = v.frames.drop_last();
        assert(v.frames[n] == f);
        assert(f.depth <= WALK_DEPTH);
        assert forall|i: int| 0 <= i < rest.len() && (#[trigger] rest[i]).depth == 0 implies rest[i].stage is Needs
            && rest[i].pending.len() == 0 by {
            assert(v.frames[i] == rest[i]);
        }
        match f.stage {
            StageView::Needs => {
                if f.next < f.required.len() {
                    lemma_need_falls(v, w);
                    lemma_same_but_lines(u, w);
                } else if f.pending.len() == 0 {
                    lemma_placed_falls(v, w);
                    lemma_same_but_lines(u, w);
                } else {
                    lemma_resolved_falls(v, u, w);
                }
            },
            StageView::Resolve => {
                lemma_resolved_falls(v, u, w);
            },
            StageView::Describe(added) => {
                let (titles, items, lines) = choose|
                    titles: Seq<(Seq<char>, JsonView)>,
                    items: Seq<Seq<char>>,
                    lines: Seq<Seq<char>>,
                |
                    w == (WalkView {
                        progress: w.progress,
                        ..#[trigger] described(u, titles, items, lines)
                    });
                let r = described(u, titles, items, lines);
                law_replies_keep_the_walk_sound(u, Err(seq![]), seq![], titles, items, lines, seq![]);
                lemma_top_falls(v, w, r.frames.last());
                lemma_same_but_lines(r, w);
            },
            StageView::Fetch(items) => {
                let got = choose|got: Seq<(Seq<char>, SourceView)>|
                    w == (WalkView { progress: w.progress, ..#[trigger] downloaded(u, got) });
                let r = downloaded(u, got);
                law_replies_keep_the_walk_sound(
                    u,
                    Err(seq![]),
                    seq![],
                    seq![],
                    seq![],
                    seq![],
                    got,
                );
                lemma_top_falls(v, w, r.frames.last());
                lemma_same_but_lines(r, w);
            },
            StageView::Items(items, k) => {
                if k < items.len() {
                    let g = FrameView { stage: StageView::Items(items, k + 1), ..f };
                    if v.seen.contains(items[k as int]) {
                        assert(w.frames == rest.push(g));
                    } else {
                        assert(w.frames == rest.push(g).push(w.frames.last()));
                    }
                    lemma_top_falls(v, w, g);
                } else {
                    lemma_placed_falls(v, w);
                }
                lemma_same_but_lines(u, w);
            },
        }
    }
}

proof fn lemma_resolved_falls(v: WalkView, u: WalkView, w: WalkView)
    requires
        sound(v),
        sound(u),
        ends_below(v),
        v.frames.len() > 0,
        u == stepped(v).0,
        stepped(v).1 is Resolve,
        goes_on(v, w),
    ensures
        is_nearer(w, v),
        sound(w),
        ends_below(w),
{
    let n = v.frames.len() - 1;
    let f = v.frames.last();
    let rest = v.frames.drop_last();
    assert(v.frames[n] == f);
    let (reply, cache) = choose|
        reply: Result<Seq<(Seq<char>, Seq<char>)>, Seq<char>>,
        cache: Seq<(Seq<char>, Option<Seq<char>>)>,
    |
        w == (WalkView { progress: w.progress, ..#[trigger] resolved(u, reply, cache) });
    let r = resolved(u, reply, cache);
    law_replies_keep_the_walk_sound(u, reply, cache, seq![], seq![], seq![], seq![]);
    assert(u.frames.drop_last() =~= rest);
    assert(u.frames.last().depth == f.depth);
    if r.frames.len() == rest.len() {
        assert(r.frames == rest);
        lemma_placed_falls(v, w);
    } else {
        assert(r.frames == rest.push(r.frames.last()));
        lemma_top_falls(v, w, r.frames.last());
    }
    assert forall|i: int| 0 <= i < rest.len() && (#[trigger] rest[i]).depth == 0 implies rest[i].stage is Needs
        && rest[i].pending.len() == 0 by {
        assert(v.frames[i] == rest[i]);
    }
    lemma_same_but_lines(r, w);
}

/// Lines that are taken off change nothing of how far a walk has come.
proof fn lemma_same_but_lines(u: WalkView, w: WalkView)
    requires
        sound(u),
        w == (WalkView { progress: w.progress, ..u }),
    ensures
        sound(w),
{
    assert forall|x: Seq<char>| #[trigger] w.seen.contains(x) implies w.order.contains(x)
        || is_open(w, x) by {
        assert(u.seen.contains(x));
        if !u.order.contains(x) {
            assert(is_open(u, x));
            let i = choose|i: int| 0 <= i < u.frames.len() && (#[trigger] u.frames[i]).id == x;
            assert(w.frames[i].id == x);
        }
    }
}

proof fn lemma_walk_ends(run: spec_fn(nat) -> WalkView, i: nat)
    requires
        sound(run(i)),
        ends_below(run(i)),
        forall|k: nat|
            #![trigger run(k)]
            stepped(run(k)).1 is Done || goes_on(run(k), run(k + 1)),
    ensures
        exists|n: nat| i <= n && stepped(#[trigger] run(n)).1 is Done,
    decreases
        todo_left(run(i)),
        stages_at(run(i).frames, 4),
        items_at(run(i).frames, 4),
        stages_at(run(i).frames, 3),
        items_at(run(i).frames, 3),
        stages_at(run(i).frames, 2),
        items_at(run(i).frames, 2),
        stages_at(run(i).frames, 1),
        items_at(run(i).frames, 1),
        not_reached(run(i).sources, run(i).seen),
        stages_at(run(i).frames, 0),
{
    if !(stepped(run(i)).1 is Done) {
        assert(goes_on(run(i), run(i + 1)));
        law_every_step_brings_a_walk_nearer_to_its_end(run(i), run(i + 1));
        reveal_with_fuel(less_below, 5);
        lemma_walk_ends(run, i + 1);
    }
}

/// A walk comes to an end: a run of states in which each follows from the one
/// before, by a step and an answer, comes to one that asks nothing more.
pub proof fn law_a_walk_comes_to_an_end(run: spec_fn(nat) -> WalkView)
    requires
        run(0).seen.len() == 0,
        run(0).order.len() == 0,
        run(0).frames.len() == 0,
        run(0).position == 0,
        forall|k: nat|
            #![trigger run(k)]
            stepped(run(k)).1 is Done || goes_on(run(k), run(k + 1)),
    ensures
        exists|n: nat| stepped(#[trigger] run(n)).1 is Done,
{
    law_walk_begins_sound(run(0));
    lemma_walk_ends(run, 0);
}

} // verus!
