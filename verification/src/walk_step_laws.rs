//! How a walk goes on: every item is walked, every mod id that it requires is followed,
//! and what is told is heard.
use vstd::prelude::*;

use crate::flow_laws::lemma_between;
use crate::json::JsonView;
use crate::levels::{blocked_lines, next_batch, unknown, LevelsView, ReplyView};
use crate::modinfo::{scan_of, SourceView};
use crate::names::lowercase;
use crate::table::{at, law_set_at};
use crate::text::{contains, joined};
use crate::text_laws::law_joining_keeps_every_text;
use crate::walk::{
    added_lines, begun, described, downloaded, entered, not_downloaded, resolved, stepped,
    title_of, AskView, StageView, WalkView,
};

verus! {

/// An item that is reached for the first time is opened: what its files require is gone
/// through from the first on. What is warned of is told, and so is that it cannot be
/// read. One that was reached before is passed over.
pub proof fn law_a_reached_item_is_opened(v: WalkView, id: Seq<char>, depth: nat)
    ensures
        v.seen.contains(id) ==> entered(v, id, depth) == v,
        !v.seen.contains(id) ==> ({
            let w = entered(v, id, depth);
            let f = w.frames.last();
            &&& w.seen == v.seen.push(id)
            &&& w.frames.len() == v.frames.len() + 1
            &&& w.frames.drop_last() == v.frames
            &&& f.id == id && f.depth == depth && f.next == 0 && f.pending.len() == 0 && f.stage
                == StageView::Needs
            &&& w.order == v.order && w.position == v.position && w.sources == v.sources
                && w.providers == v.providers && w.cache == v.cache
            &&& match at(v.sources, id) {
                Some(s) => {
                    &&& w.progress == v.progress + scan_of(s).warnings
                    &&& (scan_of(s).metadata matches Ok(m) ==> f.required == m.required && w.log
                        == v.log)
                    &&& (scan_of(s).metadata matches Err(e) ==> f.required.len() == 0
                        && w.log.len() == v.log.len() + 1 && contains(w.log.last(), id) && contains(
                        w.log.last(),
                        e,
                    ))
                },
                None => f.required.len() == 0 && w.log == v.log && w.progress == v.progress,
            }
        }),
{
    if !v.seen.contains(id) {
        let w = entered(v, id, depth);
        assert(w.frames.drop_last() =~= v.frames);
        match at(v.sources, id) {
            Some(s) => {
                if let Err(e) = scan_of(s).metadata {
                    let line = "! "@ + id + ": không đọc được mod.info ("@ + e + ")"@;
                    lemma_between("! "@, id, ": không đọc được mod.info ("@ + e + ")"@);
                    assert("! "@ + id + (": không đọc được mod.info ("@ + e + ")"@) =~= line);
                    lemma_between("! "@ + id + ": không đọc được mod.info ("@, e, ")"@);
                } else {
                    assert(v.log + seq![] =~= v.log);
                }
            },
            None => {
                assert(v.log + seq![] =~= v.log);
                assert(v.progress + seq![] =~= v.progress);
            },
        }
    }
}

/// A walk goes through its items in order, and follows what each requires four levels
/// deep; it is over where none is left.
pub proof fn law_every_item_is_walked(v: WalkView)
    requires
        v.frames.len() == 0,
    ensures
        v.position >= v.todo.len() ==> stepped(v) == (v, AskView::Done),
        v.position < v.todo.len() ==> ({
            let (w, ask) = stepped(v);
            let id = v.todo[v.position as int];
            &&& ask == AskView::Go
            &&& w.position == v.position + 1
            &&& w.todo == v.todo
            &&& w.seen.contains(id)
            &&& !v.seen.contains(id) ==> w.frames.len() == 1 && w.frames[0].id == id
                && w.frames[0].depth == 4
        }),
{
    if v.position < v.todo.len() {
        let id = v.todo[v.position as int];
        if !v.seen.contains(id) {
            assert(v.seen.push(id)[v.seen.len() as int] == id);
        }
    }
}

/// Each mod id that an item requires is followed: where an item is known to provide it,
/// whatever the case, this is remembered, and that item is walked if it was downloaded;
/// where none is known, it is looked for, unless the walk is deep enough.
pub proof fn law_every_required_mod_id_is_followed(v: WalkView)
    requires
        v.frames.len() > 0,
        v.frames.last().stage == StageView::Needs,
        v.frames.last().next < v.frames.last().required.len(),
    ensures
        ({
            let (w, ask) = stepped(v);
            let f = v.frames.last();
            let n = v.frames.len() - 1;
            let modid = f.required[f.next as int];
            let g = w.frames[n];
            &&& ask == AskView::Go
            &&& g.id == f.id && g.required == f.required && g.next == f.next + 1 && g.depth
                == f.depth && g.stage == StageView::Needs
            &&& match at(v.providers, lowercase(modid)) {
                Some(p) => {
                    &&& at(w.cache, lowercase(modid)) == Some(Some(p))
                    &&& g.pending == f.pending
                    &&& at(v.sources, p) is Some ==> w.seen.contains(p)
                    &&& at(v.sources, p) is Some && !v.seen.contains(p) ==> w.frames.len()
                        == v.frames.len() + 1 && w.frames.last().id == p && w.frames.last().depth
                        == (if f.depth > 0 {
                        f.depth - 1
                    } else {
                        0
                    })
                    &&& at(v.sources, p) is None ==> w.frames.len() == v.frames.len()
                },
                None => {
                    &&& w.frames.len() == v.frames.len()
                    &&& w.cache == v.cache
                    &&& f.depth > 0 ==> g.pending == f.pending.push(modid)
                    &&& f.depth == 0 ==> g.pending == f.pending
                },
            }
        }),
{
    let f = v.frames.last();
    let modid = f.required[f.next as int];
    if let Some(p) = at(v.providers, lowercase(modid)) {
        law_set_at(v.cache, lowercase(modid), Some(p));
        if at(v.sources, p) is Some && !v.seen.contains(p) {
            assert(v.seen.push(p)[v.seen.len() as int] == p);
        }
    }
}

/// Once everything that an item requires was gone through, all that is not provided is
/// looked for at once; and an item that waits for nothing is placed.
pub proof fn law_what_is_not_provided_is_looked_for(v: WalkView)
    requires
        v.frames.len() > 0,
        v.frames.last().stage == StageView::Needs,
        v.frames.last().next >= v.frames.last().required.len(),
    ensures
        ({
            let (w, ask) = stepped(v);
            let f = v.frames.last();
            &&& f.pending.len() > 0 ==> ask == AskView::Resolve(f.pending) && w.order == v.order
            &&& f.pending.len() == 0 ==> ask == AskView::Go && w.order == v.order.push(f.id)
                && w.frames == v.frames.drop_last()
        }),
{
}

/// What was found for the mod ids of an item is asked about, every item of it, one level
/// less deep; where nothing was found the item is placed; and where it could not be looked
/// for this is told, with each of the mod ids and the reason.
pub proof fn law_what_was_found_is_asked_about(
    v: WalkView,
    reply: Result<Seq<(Seq<char>, Seq<char>)>, Seq<char>>,
    cache: Seq<(Seq<char>, Option<Seq<char>>)>,
    k: int,
)
    requires
        v.frames.len() > 0,
    ensures
        ({
            let f = v.frames.last();
            let w = resolved(v, reply, cache);
            &&& w.cache == cache
            &&& match reply {
                Ok(found) => {
                    &&& found.len() > 0 ==> (stepped(w).1 matches AskView::Describe(ids, levels)
                        && ids.len() == found.len() && levels == (if f.depth > 0 {
                        f.depth - 1
                    } else {
                        0
                    }) && (0 <= k < found.len() ==> ids[k] == found[k].1))
                    &&& found.len() == 0 ==> w.order == v.order.push(f.id)
                    &&& w.log == v.log
                },
                Err(why) => {
                    &&& w.order == v.order.push(f.id)
                    &&& w.log.len() == v.log.len() + 1
                    &&& contains(w.log.last(), why)
                    &&& 0 <= k < f.pending.len() ==> contains(w.log.last(), f.pending[k])
                },
            }
        }),
{
    let f = v.frames.last();
    if let Err(why) = reply {
        let list = joined(f.pending, ", "@);
        let tail = ": không dò được workshop id ("@ + why + ")"@;
        let line = "! "@ + list + ": không dò được workshop id ("@ + why + ")"@;
        lemma_between("! "@ + list + ": không dò được workshop id ("@, why, ")"@);
        if 0 <= k < f.pending.len() {
            law_joining_keeps_every_text(f.pending, ", "@, k);
            crate::flow_laws::lemma_contains_in("! "@, list, f.pending[k]);
            lemma_contains_before("! "@ + list, tail, f.pending[k]);
            assert("! "@ + list + tail =~= line);
        }
    }
}

/// What the first of two texts contains the whole contains.
proof fn lemma_contains_before(a: Seq<char>, b: Seq<char>, x: Seq<char>)
    requires
        contains(a, x),
    ensures
        contains(a + b, x),
{
    let i = choose|i: int| crate::text::occurs_at(a, x, i);
    assert((a + b).subrange(i, i + x.len()) =~= a.subrange(i, i + x.len()));
    assert(crate::text::occurs_at(a + b, x, i));
}

/// Those of some items that were not downloaded, in their order.
pub proof fn law_what_is_not_there_is_downloaded(
    items: Seq<Seq<char>>,
    sources: Seq<(Seq<char>, SourceView)>,
)
    ensures
        not_downloaded(items, sources) == items.filter(|id: Seq<char>| at(sources, id) is None),
    decreases items.len(),
{
    reveal(Seq::filter);
    if items.len() > 0 {
        law_what_is_not_there_is_downloaded(items.drop_last(), sources);
    }
}

/// Every item that was found is told, by its title and its id; then what it and what it
/// needs is downloaded, as far as it is not there; and then all of it is walked, in the
/// order that was found.
pub proof fn law_what_was_found_is_walked(
    v: WalkView,
    added: Seq<Seq<char>>,
    titles: Seq<(Seq<char>, JsonView)>,
    items: Seq<Seq<char>>,
    lines: Seq<Seq<char>>,
    k: int,
)
    requires
        v.frames.len() > 0,
        v.frames.last().stage == StageView::Describe(added),
    ensures
        ({
            let w = described(v, titles, items, lines);
            let missing = items.filter(|id: Seq<char>| at(v.sources, id) is None);
            &&& w.log.len() == v.log.len() + added.len() + lines.len()
            &&& v.log.is_prefix_of(w.log)
            &&& 0 <= k < added.len() ==> contains(
                w.log[v.log.len() + k],
                title_of(titles, added[k]),
            ) && contains(w.log[v.log.len() + k], added[k])
            &&& 0 <= k < lines.len() ==> w.log[v.log.len() + added.len() + k] == lines[k]
            &&& missing.len() > 0 ==> w.frames.last().stage == StageView::Fetch(items) && stepped(
                w,
            ).1 == AskView::Download(missing)
            &&& missing.len() == 0 ==> w.frames.last().stage == StageView::Items(items, 0)
        }),
{
    law_what_is_not_there_is_downloaded(items, v.sources);
    let w = described(v, titles, items, lines);
    if 0 <= k < added.len() {
        let t = title_of(titles, added[k]);
        let line = "kèm mod bắt buộc: "@ + t + " ("@ + added[k] + ")"@;
        assert(added_lines(added, titles)[k] == line);
        assert(w.log[v.log.len() + k] == line);
        lemma_between("kèm mod bắt buộc: "@, t, " ("@ + added[k] + ")"@);
        assert("kèm mod bắt buộc: "@ + t + (" ("@ + added[k] + ")"@) =~= line);
        lemma_between("kèm mod bắt buộc: "@ + t + " ("@, added[k], ")"@);
    }
}

/// What was downloaded is added to what there is, and the items are then walked from the
/// first on.
pub proof fn law_what_was_downloaded_is_walked(
    v: WalkView,
    items: Seq<Seq<char>>,
    got: Seq<(Seq<char>, SourceView)>,
    id: Seq<char>,
)
    requires
        v.frames.len() > 0,
        v.frames.last().stage == StageView::Fetch(items),
    ensures
        ({
            let w = downloaded(v, got);
            &&& w.frames.last().stage == StageView::Items(items, 0)
            &&& w.frames.len() == v.frames.len()
            &&& (forall|i: int| 0 <= i < got.len() ==> (#[trigger] got[i]).0 != id) ==> at(
                w.sources,
                id,
            ) == at(v.sources, id)
            &&& forall|k: int|
                0 <= k < got.len() && (#[trigger] got[k]).0 == id && (forall|i: int|
                    k < i < got.len() ==> (#[trigger] got[i]).0 != id) ==> at(w.sources, id) == Some(
                    got[k].1,
                )
            &&& w.log == v.log && w.order == v.order
        }),
{
    crate::flow_laws::law_what_is_learned_is_added(v.sources, got, id);
}

/// The items that were found are walked one after the other, and then the item that led
/// to them is placed.
pub proof fn law_found_items_are_walked_in_order(v: WalkView, items: Seq<Seq<char>>, n: nat)
    requires
        v.frames.len() > 0,
        v.frames.last().stage == StageView::Items(items, n),
    ensures
        ({
            let (w, ask) = stepped(v);
            let f = v.frames.last();
            &&& ask == AskView::Go
            &&& n >= items.len() ==> w.order == v.order.push(f.id) && w.frames
                == v.frames.drop_last()
            &&& n < items.len() ==> {
                &&& w.seen.contains(items[n as int])
                &&& w.frames[v.frames.len() - 1].stage == StageView::Items(items, n + 1)
                &&& !v.seen.contains(items[n as int]) ==> w.frames.len() == v.frames.len() + 1
                    && w.frames.last().id == items[n as int] && w.frames.last().depth == (
                if f.depth > 0 {
                    f.depth - 1
                } else {
                    0
                })
            }
        }),
{
    if n < items.len() && !v.seen.contains(items[n as int]) {
        assert(v.seen.push(items[n as int])[v.seen.len() as int] == items[n as int]);
    }
}

/// A walk begins with nothing reached and nothing placed, at the first item, with what
/// was downloaded and what is remembered.
pub proof fn law_a_walk_begins(
    todo: Seq<Seq<char>>,
    sources: Seq<(Seq<char>, SourceView)>,
    installed: Seq<(Seq<char>, Seq<char>)>,
    cache: Seq<(Seq<char>, Option<Seq<char>>)>,
)
    ensures
        ({
            let v = begun(todo, sources, installed, cache);
            &&& v.todo == todo && v.position == 0 && v.sources == sources && v.cache == cache
            &&& v.seen.len() == 0 && v.order.len() == 0 && v.log.len() == 0 && v.frames.len() == 0
            &&& forall|key: Seq<char>|
                (#[trigger] at(installed, key)) is Some ==> at(v.providers, key) == at(
                    installed,
                    key,
                )
        }),
{
    assert forall|key: Seq<char>| (#[trigger] at(installed, key)) is Some implies at(
        begun(todo, sources, installed, cache).providers,
        key,
    ) == at(installed, key) by {
        crate::resolve_laws::law_what_is_downloaded_provides(installed, sources, key);
    }
}

/// The items of a level that are asked are those that are not known, in their order; none
/// where no level is left.
pub proof fn law_what_is_not_known_of_a_level_is_asked(v: LevelsView)
    ensures
        v.left > 0 ==> next_batch(v) == v.level.filter(|x: Seq<char>| at(v.graph, x) is None),
        v.left == 0 ==> next_batch(v).len() == 0,
{
    lemma_unknown_is_filter(v.level, v.graph);
}

proof fn lemma_unknown_is_filter(
    list: Seq<Seq<char>>,
    graph: Seq<(Seq<char>, Seq<Seq<char>>)>,
)
    ensures
        unknown(list, graph) == list.filter(|x: Seq<char>| at(graph, x) is None),
    decreases list.len(),
{
    reveal(Seq::filter);
    if list.len() > 0 {
        lemma_unknown_is_filter(list.drop_last(), graph);
    }
}

/// Of every item that could not be asked it is told, with its id and the reason, and of
/// no other.
pub proof fn law_what_could_not_be_asked_is_told(replies: Seq<ReplyView>)
    ensures
        blocked_lines(replies).len() == replies.filter(|r: ReplyView| r.found is Err).len(),
        forall|k: int|
            0 <= k < blocked_lines(replies).len() ==> tells_of_reply(
                #[trigger] blocked_lines(replies)[k],
                replies.filter(|r: ReplyView| r.found is Err)[k],
            ),
    decreases replies.len(),
{
    reveal(Seq::filter);
    let p = |r: ReplyView| r.found is Err;
    if replies.len() > 0 {
        let t = replies.drop_last();
        let last = replies.last();
        law_what_could_not_be_asked_is_told(t);
        if let Err(e) = last.found {
            let line = "~ "@ + last.id + ": chưa kiểm được mod bắt buộc ("@ + e
                + ") - vẫn cài tiếp"@;
            let tail = ": chưa kiểm được mod bắt buộc ("@ + e + ") - vẫn cài tiếp"@;
            lemma_between("~ "@, last.id, tail);
            assert("~ "@ + last.id + tail =~= line);
            lemma_between("~ "@ + last.id + ": chưa kiểm được mod bắt buộc ("@, e, ") - vẫn cài tiếp"@);
            assert forall|k: int| 0 <= k < blocked_lines(replies).len() implies tells_of_reply(
                #[trigger] blocked_lines(replies)[k],
                replies.filter(p)[k],
            ) by {
                if k < blocked_lines(t).len() {
                    assert(blocked_lines(replies)[k] == blocked_lines(t)[k]);
                    assert(replies.filter(p)[k] == t.filter(p)[k]);
                }
            }
        }
    }
}

/// A line tells of a reply that could not be had: it has the id and the reason.
pub open spec fn tells_of_reply(line: Seq<char>, reply: ReplyView) -> bool {
    contains(line, reply.id) && (reply.found matches Err(e) && contains(line, e))
}

} // verus!
