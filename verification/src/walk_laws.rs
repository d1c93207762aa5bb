//! What a walk promises as a whole: it places every item that it reaches, each
//! once, and what an item led to before the item itself.
use vstd::prelude::*;

use crate::deps::within;
use crate::modinfo::SourceView;
use crate::json::JsonView;
use crate::names::lowercase;
use crate::table::at;
use crate::walk::{
    below, described, downloaded, entered, need_met, placed, resolved, stepped, with_top,
    AskView, FrameView, StageView, WalkView, WALK_DEPTH,
};

verus! {

/// Whether the item is open.
pub open spec fn is_open(v: WalkView, id: Seq<char>) -> bool {
    exists|i: int| 0 <= i < v.frames.len() && (#[trigger] v.frames[i]).id == id
}

/// Every item that was reached is open or placed, and not both, and stands once.
pub open spec fn sound(v: WalkView) -> bool {
    &&& v.order.no_duplicates()
    &&& within(v.order, v.seen)
    &&& forall|i: int, j: int|
        0 <= i < j < v.frames.len() ==> (#[trigger] v.frames[i]).id != (#[trigger] v.frames[j]).id
    &&& forall|i: int|
        0 <= i < v.frames.len() ==> v.seen.contains((#[trigger] v.frames[i]).id)
            && !v.order.contains(v.frames[i].id)
    &&& forall|x: Seq<char>|
        #[trigger] v.seen.contains(x) ==> v.order.contains(x) || is_open(v, x)
    &&& forall|i: int| 0 <= i < v.frames.len() ==> (#[trigger] v.frames[i]).depth <= WALK_DEPTH
    &&& v.position <= v.todo.len()
    &&& forall|k: int| 0 <= k < v.position ==> v.seen.contains(#[trigger] v.todo[k])
}

proof fn lemma_push_item(s: Seq<Seq<char>>, x: Seq<char>)
    ensures
        forall|y: Seq<char>| #[trigger] s.push(x).contains(y) <==> s.contains(y) || y == x,
{
    assert forall|y: Seq<char>| #[trigger] s.push(x).contains(y) <==> s.contains(y) || y == x by {
        if s.push(x).contains(y) {
            let i = choose|i: int| 0 <= i < s.push(x).len() && s.push(x)[i] == y;
            if i < s.len() {
                assert(s[i] == y);
            }
        }
        if s.contains(y) {
            let i = choose|i: int| 0 <= i < s.len() && s[i] == y;
            assert(s.push(x)[i] == y);
        }
        if y == x {
            assert(s.push(x)[s.len() as int] == y);
        }
    }
}

proof fn lemma_entered(v: WalkView, id: Seq<char>, depth: nat)
    requires
        sound(v),
        depth <= WALK_DEPTH,
    ensures
        sound(entered(v, id, depth)),
        entered(v, id, depth).seen.contains(id),
{
    if !v.seen.contains(id) {
        let w = entered(v, id, depth);
        lemma_push_item(v.seen, id);
        let n = v.frames.len() as int;
        assert(w.frames[n].id == id);
        assert forall|x: Seq<char>| #[trigger] w.seen.contains(x) implies w.order.contains(x)
            || is_open(w, x) by {
            if x != id && !v.order.contains(x) {
                assert(is_open(v, x));
                let i = choose|i: int| 0 <= i < v.frames.len() && (#[trigger] v.frames[i]).id == x;
                assert(w.frames[i].id == x);
            }
        }
        assert forall|i: int| 0 <= i < w.frames.len() implies w.seen.contains(
            (#[trigger] w.frames[i]).id,
        ) && !w.order.contains(w.frames[i].id) by {
            if i < n {
                assert(w.frames[i] == v.frames[i]);
            }
        }
        assert forall|i: int, j: int| 0 <= i < j < w.frames.len() implies (
        #[trigger] w.frames[i]).id != (#[trigger] w.frames[j]).id by {
            assert(w.frames[i] == v.frames[i]);
            if j < n {
                assert(w.frames[j] == v.frames[j]);
            } else {
                assert(v.seen.contains(v.frames[i].id));
            }
        }
        assert forall|i: int| 0 <= i < w.frames.len() implies (#[trigger] w.frames[i]).depth
            <= WALK_DEPTH by {
            if i < n {
                assert(w.frames[i] == v.frames[i]);
            }
        }
        assert forall|k: int| 0 <= k < w.position implies w.seen.contains(#[trigger] w.todo[k]) by {
            assert(v.seen.contains(v.todo[k]));
        }
    }
}

/// Changing what the uppermost open item waits for changes nothing else.
proof fn lemma_with_top(v: WalkView, w: WalkView, f: FrameView)
    requires
        sound(v),
        v.frames.len() > 0,
        f.id == v.frames.last().id,
        f.depth == v.frames.last().depth,
        w.frames == v.frames.drop_last().push(f),
        w.seen == v.seen,
        w.order == v.order,
        w.todo == v.todo,
        w.position == v.position,
    ensures
        sound(w),
{
    let n = v.frames.len() - 1;
    assert forall|i: int| 0 <= i < v.frames.len() implies (#[trigger] w.frames[i]).id
        == v.frames[i].id && w.frames[i].depth == v.frames[i].depth by {}
    assert forall|i: int, j: int| 0 <= i < j < w.frames.len() implies (#[trigger] w.frames[i]).id
        != (#[trigger] w.frames[j]).id by {
        assert(v.frames[i].id != v.frames[j].id);
    }
    assert forall|i: int| 0 <= i < w.frames.len() implies w.seen.contains(
        (#[trigger] w.frames[i]).id,
    ) && !w.order.contains(w.frames[i].id) by {
        assert(v.seen.contains(v.frames[i].id));
    }
    assert forall|x: Seq<char>| #[trigger] w.seen.contains(x) implies w.order.contains(x)
        || is_open(w, x) by {
        if !v.order.contains(x) {
            assert(is_open(v, x));
            let i = choose|i: int| 0 <= i < v.frames.len() && (#[trigger] v.frames[i]).id == x;
            assert(w.frames[i].id == x);
        }
    }
    assert forall|i: int| 0 <= i < w.frames.len() implies (#[trigger] w.frames[i]).depth
        <= WALK_DEPTH by {
        assert(v.frames[i].depth <= WALK_DEPTH);
    }
}

proof fn lemma_placed(v: WalkView, w: WalkView)
    requires
        sound(v),
        v.frames.len() > 0,
        w.order == v.order.push(v.frames.last().id),
        w.frames == v.frames.drop_last(),
        w.seen == v.seen,
        w.todo == v.todo,
        w.position == v.position,
    ensures
        sound(w),
{
    let n = v.frames.len() - 1;
    let x0 = v.frames[n].id;
    lemma_push_item(v.order, x0);
    assert(!v.order.contains(x0));
    assert forall|i: int| 0 <= i < w.frames.len() implies w.seen.contains(
        (#[trigger] w.frames[i]).id,
    ) && !w.order.contains(w.frames[i].id) by {
        assert(w.frames[i] == v.frames[i]);
        assert(v.frames[i].id != v.frames[n].id);
    }
    assert forall|i: int, j: int| 0 <= i < j < w.frames.len() implies (#[trigger] w.frames[i]).id
        != (#[trigger] w.frames[j]).id by {
        assert(v.frames[i].id != v.frames[j].id);
    }
    assert forall|x: Seq<char>| #[trigger] w.seen.contains(x) implies w.order.contains(x)
        || is_open(w, x) by {
        if !v.order.contains(x) && x != x0 {
            assert(is_open(v, x));
            let i = choose|i: int| 0 <= i < v.frames.len() && (#[trigger] v.frames[i]).id == x;
            assert(w.frames[i].id == x);
        }
    }
    assert forall|i: int| 0 <= i < w.frames.len() implies (#[trigger] w.frames[i]).depth
        <= WALK_DEPTH by {
        assert(w.frames[i] == v.frames[i]);
    }
    assert(within(w.order, w.seen)) by {
        assert forall|x: Seq<char>| #[trigger] w.order.contains(x) implies w.seen.contains(x) by {
            if x == x0 {
                assert(v.seen.contains(v.frames[n].id));
            } else {
                assert(v.order.contains(x));
            }
        }
    }
}

/// A step keeps the walk sound: every item that was reached is open or placed,
/// none is placed twice, and no more than the allowed levels are followed.
pub proof fn law_steps_keep_the_walk_sound(v: WalkView)
    requires
        sound(v),
    ensures
        sound(stepped(v).0),
{
    if v.frames.len() == 0 {
        if v.position < v.todo.len() {
            let id = v.todo[v.position as int];
            let u = WalkView { position: v.position + 1, ..v };
            let w = stepped(v).0;
            // The position counts the item as reached only once it is.
            lemma_entered(v, id, WALK_DEPTH as nat);
            let e = entered(v, id, WALK_DEPTH as nat);
            assert(w.seen == e.seen && w.order == e.order && w.frames =~= e.frames);
            assert forall|k: int| 0 <= k < w.position implies w.seen.contains(
                #[trigger] w.todo[k],
            ) by {
                if k < v.position {
                    assert(e.seen.contains(e.todo[k]));
                }
            }
            assert forall|x: Seq<char>| #[trigger] w.seen.contains(x) implies w.order.contains(x)
                || is_open(w, x) by {
                assert(e.seen.contains(x));
                if !e.order.contains(x) {
                    assert(is_open(e, x));
                    let i = choose|i: int|
                        0 <= i < e.frames.len() && (#[trigger] e.frames[i]).id == x;
                    assert(w.frames[i].id == x);
                }
            }
        }
    } else {
        let f = v.frames.last();
        match f.stage {
            StageView::Needs => {
                if f.next < f.required.len() {
                    lemma_need(v);
                } else if f.pending.len() == 0 {
                    lemma_placed(v, placed(v));
                } else {
                    let g = FrameView { stage: StageView::Resolve, ..f };
                    lemma_with_top(v, with_top(v, g), g);
                }
            },
            StageView::Items(items, n) => {
                if n < items.len() {
                    let g = FrameView { stage: StageView::Items(items, n + 1), ..f };
                    lemma_with_top(v, with_top(v, g), g);
                    lemma_entered(with_top(v, g), items[n as int], below(f.depth));
                } else {
                    lemma_placed(v, placed(v));
                }
            },
            _ => {},
        }
    }
}

proof fn lemma_need(v: WalkView)
    requires
        sound(v),
        v.frames.len() > 0,
        v.frames.last().next < v.frames.last().required.len(),
    ensures
        sound(need_met(v)),
{
    let f = v.frames.last();
    let modid = f.required[f.next as int];
    let key = lowercase(modid);
    match at(v.providers, key) {
        Some(p) => {
            let g = FrameView { next: f.next + 1, ..f };
            let w = WalkView {
                cache: crate::table::set_at(v.cache, key, Some(p)),
                ..with_top(v, g)
            };
            lemma_with_top(v, w, g);
            if at(v.sources, p) is Some {
                lemma_entered(w, p, below(f.depth));
            }
        },
        None => {
            let g = FrameView {
                next: f.next + 1,
                pending: if f.depth > 0 {
                    f.pending.push(modid)
                } else {
                    f.pending
                },
                ..f
            };
            lemma_with_top(v, with_top(v, g), g);
        },
    }
}

/// What the walk is told keeps it sound.
pub proof fn law_replies_keep_the_walk_sound(
    v: WalkView,
    reply: Result<Seq<(Seq<char>, Seq<char>)>, Seq<char>>,
    cache: Seq<(Seq<char>, Option<Seq<char>>)>,
    titles: Seq<(Seq<char>, JsonView)>,
    items: Seq<Seq<char>>,
    lines: Seq<Seq<char>>,
    got: Seq<(Seq<char>, SourceView)>,
)
    requires
        sound(v),
        v.frames.len() > 0,
    ensures
        sound(resolved(v, reply, cache)),
        sound(described(v, titles, items, lines)),
        sound(downloaded(v, got)),
{
    let f = v.frames.last();
    let w = resolved(v, reply, cache);
    match reply {
        Err(_) => {
            lemma_placed(v, w);
        },
        Ok(found) => {
            if found.len() == 0 {
                lemma_placed(v, w);
            } else {
                lemma_with_top(v, w, w.frames.last());
            }
        },
    }
    let d = described(v, titles, items, lines);
    if f.stage is Describe {
        lemma_with_top(v, d, d.frames.last());
    }
    let e = downloaded(v, got);
    if f.stage is Fetch {
        lemma_with_top(v, e, e.frames.last());
    }
}

/// A walk over `todo` begins sound.
pub proof fn law_walk_begins_sound(v: WalkView)
    requires
        v.seen.len() == 0,
        v.order.len() == 0,
        v.frames.len() == 0,
        v.position == 0,
    ensures
        sound(v),
{
    assert forall|x: Seq<char>| !v.seen.contains(x) by {}
    assert forall|x: Seq<char>| !v.order.contains(x) by {}
}

/// A walk that is over has placed everything that it reached, each item once,
/// and every item that it was to walk among them.
pub proof fn law_walk_places_everything(v: WalkView)
    requires
        sound(v),
        stepped(v).1 is Done,
    ensures
        v.order.no_duplicates(),
        forall|x: Seq<char>| #[trigger] v.order.contains(x) <==> v.seen.contains(x),
        forall|k: int| 0 <= k < v.todo.len() ==> v.order.contains(#[trigger] v.todo[k]),
{
    assert(v.frames.len() == 0);
    assert forall|x: Seq<char>| #[trigger] v.order.contains(x) <==> v.seen.contains(x) by {
        if v.seen.contains(x) {
            assert(!is_open(v, x));
        }
    }
    assert forall|k: int| 0 <= k < v.todo.len() implies v.order.contains(#[trigger] v.todo[k]) by {
        assert(v.seen.contains(v.todo[k]));
    }
}

/// `c` comes before `p`: it is open above it, or placed while `p` is open, or
/// placed before it.
pub open spec fn comes_before(v: WalkView, c: Seq<char>, p: Seq<char>) -> bool {
    ||| exists|i: int, j: int|
        0 <= i < j < v.frames.len() && (#[trigger] v.frames[i]).id == p && (
        #[trigger] v.frames[j]).id == c
    ||| v.order.contains(c) && is_open(v, p)
    ||| exists|i: int, j: int|
        0 <= i < j < v.order.len() && #[trigger] v.order[i] == c && #[trigger] v.order[j] == p
}

proof fn lemma_before_grows(v: WalkView, w: WalkView, c: Seq<char>, p: Seq<char>)
    requires
        comes_before(v, c, p),
        w.order == v.order,
        v.frames.len() <= w.frames.len(),
        forall|i: int| 0 <= i < v.frames.len() ==> (#[trigger] w.frames[i]).id == v.frames[i].id,
    ensures
        comes_before(w, c, p),
{
    if exists|i: int, j: int|
        0 <= i < j < v.frames.len() && (#[trigger] v.frames[i]).id == p && (
        #[trigger] v.frames[j]).id == c {
        let (i, j) = choose|i: int, j: int|
            0 <= i < j < v.frames.len() && (#[trigger] v.frames[i]).id == p && (
            #[trigger] v.frames[j]).id == c;
        assert(w.frames[i].id == p && w.frames[j].id == c);
    } else if v.order.contains(c) && is_open(v, p) {
        let i = choose|i: int| 0 <= i < v.frames.len() && (#[trigger] v.frames[i]).id == p;
        assert(w.frames[i].id == p);
        assert(is_open(w, p));
    }
}

proof fn lemma_before_placed(v: WalkView, w: WalkView, c: Seq<char>, p: Seq<char>)
    requires
        sound(v),
        comes_before(v, c, p),
        v.frames.len() > 0,
        w.order == v.order.push(v.frames.last().id),
        w.frames == v.frames.drop_last(),
    ensures
        comes_before(w, c, p),
{
    let n = v.frames.len() - 1;
    lemma_push_item(v.order, v.frames[n].id);
    if exists|i: int, j: int|
        0 <= i < j < v.frames.len() && (#[trigger] v.frames[i]).id == p && (
        #[trigger] v.frames[j]).id == c {
        let (i, j) = choose|i: int, j: int|
            0 <= i < j < v.frames.len() && (#[trigger] v.frames[i]).id == p && (
            #[trigger] v.frames[j]).id == c;
        assert(w.frames[i].id == p);
        if j == n {
            assert(w.order.contains(c));
            assert(is_open(w, p));
        } else {
            assert(w.frames[j].id == c);
        }
    } else if v.order.contains(c) && is_open(v, p) {
        let i = choose|i: int| 0 <= i < v.frames.len() && (#[trigger] v.frames[i]).id == p;
        if i == n {
            let k = choose|k: int| 0 <= k < v.order.len() && v.order[k] == c;
            assert(w.order[k] == c);
            assert(w.order[v.order.len() as int] == p);
        } else {
            assert(w.frames[i].id == p);
            assert(is_open(w, p));
            assert(w.order.contains(c));
        }
    } else {
        let (i, j) = choose|i: int, j: int|
            0 <= i < j < v.order.len() && #[trigger] v.order[i] == c && #[trigger] v.order[j] == p;
        assert(w.order[i] == c && w.order[j] == p);
    }
}

/// What comes before an item goes on coming before it, whatever step the walk
/// takes and whatever it is told; in the end it is placed before it.
pub proof fn law_what_comes_before_stays_before(
    v: WalkView,
    c: Seq<char>,
    p: Seq<char>,
    reply: Result<Seq<(Seq<char>, Seq<char>)>, Seq<char>>,
    cache: Seq<(Seq<char>, Option<Seq<char>>)>,
    titles: Seq<(Seq<char>, JsonView)>,
    items: Seq<Seq<char>>,
    lines: Seq<Seq<char>>,
    got: Seq<(Seq<char>, SourceView)>,
)
    requires
        sound(v),
        comes_before(v, c, p),
    ensures
        comes_before(stepped(v).0, c, p),
        v.frames.len() > 0 ==> comes_before(resolved(v, reply, cache), c, p),
        v.frames.len() > 0 ==> comes_before(described(v, titles, items, lines), c, p),
        v.frames.len() > 0 ==> comes_before(downloaded(v, got), c, p),
        v.frames.len() == 0 ==> exists|i: int, j: int|
            0 <= i < j < v.order.len() && #[trigger] v.order[i] == c && #[trigger] v.order[j] == p,
{
    let s = stepped(v).0;
    if v.frames.len() == 0 {
        lemma_before_grows(v, s, c, p);
    } else {
        let f = v.frames.last();
        let n = v.frames.len() - 1;
        assert(v.frames[n] == f);
        if f.stage is Needs && f.next >= f.required.len() && f.pending.len() == 0 {
            lemma_before_placed(v, s, c, p);
        } else if f.stage matches StageView::Items(list, k) && k >= list.len() {
            lemma_before_placed(v, s, c, p);
        } else {
            lemma_before_grows(v, s, c, p);
        }
        let r = resolved(v, reply, cache);
        match reply {
            Err(_) => {
                lemma_before_placed(v, r, c, p);
            },
            Ok(found) => {
                if found.len() == 0 {
                    lemma_before_placed(v, r, c, p);
                } else {
                    lemma_before_grows(v, r, c, p);
                }
            },
        }
        lemma_before_grows(v, described(v, titles, items, lines), c, p);
        lemma_before_grows(v, downloaded(v, got), c, p);
    }
}

/// The item that the next step leads to, if it leads to one: a downloaded item
/// that is known to provide what the uppermost open item requires, or the next
/// of the items that were found for it.
pub open spec fn led_to(v: WalkView) -> Option<Seq<char>> {
    let f = v.frames.last();
    match f.stage {
        StageView::Needs => if f.next < f.required.len() {
            match at(v.providers, lowercase(f.required[f.next as int])) {
                Some(p) => if at(v.sources, p) is Some {
                    Some(p)
                } else {
                    None
                },
                None => None,
            }
        } else {
            None
        },
        StageView::Items(items, n) => if n < items.len() {
            Some(items[n as int])
        } else {
            None
        },
        _ => None,
    }
}

/// An item that provides what another requires comes before it, unless it was
/// open already, so that the two lead to each other.
pub proof fn law_providers_come_first(v: WalkView)
    requires
        sound(v),
        v.frames.len() > 0,
        led_to(v) is Some,
    ensures
        stepped(v).0.seen.contains(led_to(v)->Some_0),
        is_open(v, led_to(v)->Some_0) || comes_before(
            stepped(v).0,
            led_to(v)->Some_0,
            v.frames.last().id,
        ),
{
    let f = v.frames.last();
    let n = v.frames.len() - 1;
    let c = led_to(v)->Some_0;
    let w = stepped(v).0;
    lemma_push_item(v.seen, c);
    assert(w.frames.len() >= v.frames.len());
    assert(w.frames[n].id == f.id);
    if v.seen.contains(c) {
        if !is_open(v, c) {
            assert(v.order.contains(c));
            assert(w.order.contains(c));
            assert(is_open(w, f.id));
        }
    } else {
        assert(w.frames[n + 1].id == c);
    }
}

/// Nothing is looked for below the last level.
pub open spec fn capped(v: WalkView) -> bool {
    forall|i: int|
        0 <= i < v.frames.len() ==> (#[trigger] v.frames[i]).depth > 0 || (v.frames[i].pending.len()
            == 0 && v.frames[i].stage is Needs)
}

/// Mod ids are looked for down to the last level and no further: what is found is
/// walked one level below what it was looked for, and on the last level nothing is
/// looked for.
pub proof fn law_search_ends_at_the_last_level(
    v: WalkView,
    reply: Result<Seq<(Seq<char>, Seq<char>)>, Seq<char>>,
    cache: Seq<(Seq<char>, Option<Seq<char>>)>,
    titles: Seq<(Seq<char>, JsonView)>,
    items: Seq<Seq<char>>,
    lines: Seq<Seq<char>>,
    got: Seq<(Seq<char>, SourceView)>,
)
    requires
        capped(v),
    ensures
        capped(stepped(v).0),
        stepped(v).1 is Resolve ==> v.frames.last().depth > 0,
        stepped(v).1 matches AskView::Describe(_, levels) ==> levels + 1 == v.frames.last().depth,
        stepped(v).0.frames.len() > v.frames.len() && v.frames.len() > 0 ==> stepped(
            v,
        ).0.frames.last().depth == below(v.frames.last().depth),
        v.frames.len() > 0 && v.frames.last().stage is Resolve ==> capped(
            resolved(v, reply, cache),
        ),
        v.frames.len() > 0 ==> capped(described(v, titles, items, lines)),
        v.frames.len() > 0 ==> capped(downloaded(v, got)),
{
    if v.frames.len() > 0 {
        assert(v.frames[v.frames.len() - 1] == v.frames.last());
    }
}

} // verus!
