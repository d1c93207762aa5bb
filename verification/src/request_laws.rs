//! How a request to install or to update goes on: what each answer leads to.
use vstd::prelude::*;

use crate::flow::{error_line, unsaved_line};
use crate::flow_laws::{
    is_up_to_date, law_every_item_has_its_label, law_the_latest_is_all_there,
    law_what_comes_along_was_not_asked_for, law_what_is_not_known_is_asked_about,
    lemma_contains_in,
};
use crate::folder::Disk;
use crate::installing::{
    asked, next_action, told, InstallActionView, InstallEvent, InstallStage, InstallingView,
};
use crate::json::{lookup, pairs_of, Json, JsonView};
use crate::table::{at, Table};
use crate::text::{contains, decimal, occurs_at};
use crate::text_laws::law_joining_keeps_every_text;
use crate::updating::{UpdateActionView, UpdateEvent, UpdateStage, UpdatingView};
use crate::walk::title_of;

verus! {

/// A request begins with asking what the item is; it went well so far, and nothing is
/// told yet. Then it is asked what the item consists of.
pub proof fn law_an_install_begins(id: Seq<char>, force: bool, t: Table<Json>)
    ensures
        next_action(asked(id, force)) == InstallActionView::Describe(seq![id]),
        asked(id, force).log.len() == 0,
        asked(id, force).ok,
        asked(id, force).failure is None,
        ({
            let w = told(asked(id, force), InstallEvent::Details(Ok(t))).0;
            &&& next_action(w) == InstallActionView::Children(id)
            &&& w.force == force
            &&& w.known == t.deep_view()
        }),
{
}

/// The items of a collection are installed where it has some, else the item itself, with
/// what they need up to four levels deep. Of a collection its title and the number of its
/// items are told.
pub proof fn law_a_collection_is_its_items(v: InstallingView, children: Vec<String>)
    requires
        v.stage == InstallStage::Children,
    ensures
        ({
            let w = told(v, InstallEvent::Children(Ok(children))).0;
            &&& children.deep_view().len() == 0 ==> next_action(w) == InstallActionView::Levels(
                seq![v.id],
                4,
            ) && w.log.len() == 0
            &&& children.deep_view().len() > 0 ==> next_action(w) == InstallActionView::Levels(
                children.deep_view(),
                4,
            ) && w.log.len() == 1 && contains(w.log[0], title_of(v.known, v.id)) && contains(
                w.log[0],
                decimal(children.deep_view().len()),
            )
            &&& w.ok
        }),
{
    let c = children.deep_view();
    if c.len() > 0 {
        let title = title_of(v.known, v.id);
        let n = decimal(c.len());
        let line = "collection "@ + title + ": "@ + n + " mod"@;
        let a = "collection "@;
        assert(line.subrange(a.len() as int, (a.len() + title.len()) as int) =~= title);
        assert(occurs_at(line, title, a.len() as int));
        let b = "collection "@ + title + ": "@;
        assert(line.subrange(b.len() as int, (b.len() + n.len()) as int) =~= n);
        assert(occurs_at(line, n, b.len() as int));
    }
}

/// What is needed comes along: the order that was found is taken as it is, what was told
/// on the way is told, and where items are in it that were not asked for it is asked what
/// they are called, and only of them.
pub proof fn law_what_is_needed_comes_along(
    v: InstallingView,
    order: Vec<String>,
    lines: Vec<String>,
)
    requires
        v.stage == InstallStage::Levels,
    ensures
        ({
            let (w, now) = told(v, InstallEvent::Ordered(order, lines));
            let more = order.deep_view().filter(|id: Seq<char>| !v.todo.contains(id));
            &&& w.order == order.deep_view()
            &&& w.log == v.log + lines.deep_view()
            &&& now == w.log
            &&& more.len() == 0 ==> next_action(w) == InstallActionView::ReadState
            &&& more.len() > 0 ==> next_action(w) == InstallActionView::Describe(more)
        }),
{
    law_what_comes_along_was_not_asked_for(order.deep_view(), v.todo);
}

/// What comes along is told, each by what it is called, and how many there are.
pub proof fn law_what_comes_along_is_told(v: InstallingView, t: Table<Json>, k: int)
    requires
        v.stage == InstallStage::Extra,
        0 <= k < v.extra.len(),
    ensures
        ({
            let (w, now) = told(v, InstallEvent::Details(Ok(t)));
            &&& next_action(w) == InstallActionView::ReadState
            &&& w.order == v.order
            &&& now.len() == 1
            &&& w.log == v.log + now
            &&& contains(now[0], title_of(t.deep_view(), v.extra[k]))
            &&& contains(now[0], decimal(v.extra.len()))
        }),
{
    let titles = crate::flow::titles_of(v.extra, t.deep_view());
    let n = decimal(v.extra.len());
    let head = "kèm "@ + n + " mod bắt buộc: "@;
    let list = crate::text::joined(titles, ", "@);
    law_joining_keeps_every_text(titles, ", "@, k);
    assert(titles[k] == title_of(t.deep_view(), v.extra[k]));
    lemma_contains_in(head, list, titles[k]);
    let a = "kèm "@;
    let line = head + list;
    assert(line.subrange(a.len() as int, (a.len() + n.len()) as int) =~= n);
    assert(occurs_at(line, n, a.len() as int));
}

/// All items of the order are asked about, and then downloaded, all at once: anew where
/// it is asked for or where one of them is installed. Each has what it is called.
pub proof fn law_the_whole_order_is_downloaded(
    v: InstallingView,
    state: Vec<(String, Json)>,
    t: Table<Json>,
)
    requires
        v.stage == InstallStage::State,
    ensures
        ({
            let w = told(v, InstallEvent::State(state)).0;
            let x = told(w, InstallEvent::Details(Ok(t))).0;
            let anew = v.force || exists|i: int|
                0 <= i < v.order.len() && lookup(pairs_of(state@), #[trigger] v.order[i]) is Some;
            &&& next_action(w) == InstallActionView::Describe(v.order)
            &&& x.known == t.deep_view()
            &&& next_action(x) matches InstallActionView::Download(ids, again, labels) && ids
                == v.order && again == anew && forall|i: int|
                0 <= i < v.order.len() ==> at(labels, #[trigger] v.order[i]) == Some(
                    title_of(t.deep_view(), v.order[i]),
                )
            &&& next_action(told(x, InstallEvent::Downloaded(Ok(()))).0)
                == InstallActionView::Expand(v.order)
        }),
{
    assert forall|i: int| 0 <= i < v.order.len() implies at(
        crate::flow::labels_of(v.order, t.deep_view()),
        #[trigger] v.order[i],
    ) == Some(title_of(t.deep_view(), v.order[i])) by {
        law_every_item_has_its_label(v.order, t.deep_view(), v.order[i]);
    }
}

/// What required mod ids lead to comes along: the order that was found is installed from
/// its first item on, once it was asked about the items of which nothing was known.
pub proof fn law_what_mod_ids_lead_to_comes_along(
    v: InstallingView,
    order: Vec<String>,
    lines: Vec<String>,
)
    requires
        v.stage == InstallStage::Expand,
    ensures
        ({
            let (w, now) = told(v, InstallEvent::Expanded(Ok((order, lines))));
            let unknown = order.deep_view().filter(|id: Seq<char>| at(v.known, id) is None);
            &&& w.order == order.deep_view()
            &&& w.position == 0
            &&& now == lines.deep_view()
            &&& w.log == v.log + now
            &&& unknown.len() > 0 ==> next_action(w) == InstallActionView::Describe(unknown)
            &&& unknown.len() == 0 ==> w.stage == InstallStage::Items
        }),
{
    law_what_is_not_known_is_asked_about(order.deep_view(), v.known);
}

/// Each item of the order is installed with what is known of it; what is told of it is
/// told; and one that the workshop does not know is told of. After the last one what was
/// found out is written down, and the missing mod ids are looked for.
pub proof fn law_each_item_of_the_order_is_installed(
    v: InstallingView,
    lines: Vec<String>,
    missing: Vec<String>,
)
    requires
        v.stage == InstallStage::Items,
    ensures
        v.position < v.order.len() ==> match at(v.known, v.order[v.position as int]) {
            Some(d) => {
                let (w, now) = told(v, InstallEvent::Installed(Ok(lines)));
                &&& next_action(v) == InstallActionView::Install(v.order[v.position as int], d)
                &&& w.position == v.position + 1
                &&& w.stage == InstallStage::Items
                &&& now == lines.deep_view()
                &&& w.log == v.log + now
                &&& w.ok == v.ok
            },
            None => {
                let (w, now) = told(v, InstallEvent::Go);
                &&& next_action(v) == InstallActionView::Go
                &&& w.position == v.position + 1
                &&& w.stage == InstallStage::Items
                &&& now.len() == 1
                &&& w.log == v.log + now
                &&& contains(now[0], v.order[v.position as int])
                &&& !w.ok
            },
        },
        v.position >= v.order.len() ==> ({
            let w = told(v, InstallEvent::Go).0;
            let x = told(w, InstallEvent::Persisted(Ok(()))).0;
            let y = told(x, InstallEvent::Missing(missing)).0;
            &&& next_action(w) == InstallActionView::Persist
            &&& next_action(x) == InstallActionView::Missing
            &&& next_action(y) == InstallActionView::Finish
            &&& missing.deep_view().len() == 0 ==> y.log == v.log && y.ok == v.ok
        }),
{
    if v.position < v.order.len() {
        let id = v.order[v.position as int];
        crate::flow_laws::law_a_failure_is_named(id, seq![], seq![], 0);
        assert(v.log.push(crate::flow::gone_line(id)) =~= v.log + seq![crate::flow::gone_line(id)]);
    }
}

/// A request that cannot go on fails as a whole, with the reason.
pub proof fn law_a_request_fails_with_its_reason(v: InstallingView, why: String)
    ensures
        v.stage == InstallStage::Item || v.stage == InstallStage::Extra || v.stage
            == InstallStage::Metadata || v.stage == InstallStage::Rest ==> {
            let w = told(v, InstallEvent::Details(Err(why))).0;
            w.failure == Some(why@) && next_action(w) == InstallActionView::Finish
        },
        v.stage == InstallStage::Children ==> {
            let w = told(v, InstallEvent::Children(Err(why))).0;
            w.failure == Some(why@) && next_action(w) == InstallActionView::Finish
        },
        v.stage == InstallStage::Download ==> {
            let w = told(v, InstallEvent::Downloaded(Err(why))).0;
            w.failure == Some(why@) && next_action(w) == InstallActionView::Finish
        },
        v.stage == InstallStage::Expand ==> {
            let w = told(v, InstallEvent::Expanded(Err(why))).0;
            w.failure == Some(why@) && next_action(w) == InstallActionView::Finish
        },
{
}

/// What could not be written down is told, with the reason, and the request goes on.
pub proof fn law_what_was_not_written_is_told(v: InstallingView, why: String)
    requires
        v.stage == InstallStage::Persist,
    ensures
        ({
            let (w, now) = told(v, InstallEvent::Persisted(Err(why)));
            &&& next_action(w) == InstallActionView::Missing
            &&& now.len() == 1
            &&& w.log == v.log + now
            &&& contains(now[0], why@)
            &&& !w.ok
            &&& w.failure == v.failure
        }),
{
    crate::flow_laws::law_a_failure_is_named(seq![], why@, seq![], 0);
    assert(v.log.push(unsaved_line(why@)) =~= v.log + seq![unsaved_line(why@)]);
}

/// An update asks about every installed item, and goes through them from the first one
/// on. Without items it is over, and this is told.
pub proof fn law_an_update_begins(state: Seq<(Seq<char>, JsonView)>, t: Table<Json>)
    ensures
        ({
            let v = crate::updating::asked(state);
            let w = crate::updating::told(v, UpdateEvent::Details(Ok(t))).0;
            &&& v.ok && v.failure is None
            &&& state.len() == 0 ==> crate::updating::next_action(v) == UpdateActionView::Finish
                && v.log == seq!["không có mod để cập nhật"@]
            &&& state.len() > 0 ==> {
                &&& v.log.len() == 0
                &&& (crate::updating::next_action(v) matches UpdateActionView::Describe(ids)
                    && ids.len() == state.len() && forall|k: int|
                    0 <= k < ids.len() ==> #[trigger] ids[k] == state[k].0)
                &&& w.state == state
                &&& w.known == t.deep_view()
                &&& w.position == 0
                &&& w.stage == UpdateStage::Items
            }
        }),
{
}

/// An installed item that the workshop knows is looked at. Where it is up to date this is
/// told, by its title, and the next one is at hand; else it is installed with what is
/// known of it. One that the workshop does not know any more is told of and left as it is.
pub proof fn law_an_outdated_item_is_installed(v: UpdatingView, disk: Disk)
    requires
        v.stage == UpdateStage::Items,
        v.position < v.state.len(),
    ensures
        ({
            let (id, entry) = v.state[v.position as int];
            let title = crate::remove::entry_title(entry, id);
            match at(v.known, id) {
                Some(d) => {
                    let (w, now) = crate::updating::told(v, UpdateEvent::Seen(disk));
                    &&& crate::updating::next_action(v) == UpdateActionView::Look(id)
                    &&& is_up_to_date(entry, d, disk) ==> w.position == v.position + 1 && w.stage
                        == UpdateStage::Items && w.ok == v.ok && now.len() == 1 && w.log == v.log
                        + now && contains(now[0], title)
                    &&& !is_up_to_date(entry, d, disk) ==> w.position == v.position
                        && crate::updating::next_action(w) == UpdateActionView::Install(id, d)
                        && now.len() == 0 && w.log == v.log && w.ok == v.ok
                },
                None => {
                    let (w, now) = crate::updating::told(v, UpdateEvent::Go);
                    &&& crate::updating::next_action(v) == UpdateActionView::Go
                    &&& w.position == v.position + 1
                    &&& w.stage == UpdateStage::Items
                    &&& now.len() == 1
                    &&& w.log == v.log + now
                    &&& contains(now[0], title)
                    &&& !w.ok
                },
            }
        }),
{
    let (id, entry) = v.state[v.position as int];
    let title = crate::remove::entry_title(entry, id);
    if let Some(d) = at(v.known, id) {
        law_the_latest_is_all_there(entry, d, disk);
    }
    let line = "= "@ + title;
    let a = "= "@;
    assert(line.subrange(a.len() as int, (a.len() + title.len()) as int) =~= title);
    assert(occurs_at(line, title, a.len() as int));
    assert(v.log.push(line) =~= v.log + seq![line]);
    let gone = crate::flow::vanished_line(title);
    crate::flow_laws::law_a_failure_is_named(title, seq![], seq![], 0);
    assert(v.log.push(gone) =~= v.log + seq![gone]);
}

/// What came of an item that was installed anew is told, and the next one is at hand;
/// a failure is told with its title and the reason.
pub proof fn law_what_came_of_an_item_is_told(v: UpdatingView, lines: Vec<String>, why: String)
    requires
        v.stage == UpdateStage::Item,
        v.position < v.state.len(),
        at(v.known, v.state[v.position as int].0) is Some,
    ensures
        ({
            let (w, now) = crate::updating::told(v, UpdateEvent::Installed(Ok(lines)));
            &&& w.position == v.position + 1
            &&& w.stage == UpdateStage::Items
            &&& now == lines.deep_view()
            &&& w.log == v.log + now
            &&& w.ok == v.ok
        }),
        ({
            let (id, entry) = v.state[v.position as int];
            let (w, now) = crate::updating::told(v, UpdateEvent::Installed(Err(why)));
            &&& w.position == v.position + 1
            &&& w.stage == UpdateStage::Items
            &&& now.len() == 1
            &&& w.log == v.log + now
            &&& contains(now[0], crate::remove::entry_title(entry, id))
            &&& contains(now[0], why@)
            &&& !w.ok
        }),
{
    let (id, entry) = v.state[v.position as int];
    let title = crate::remove::entry_title(entry, id);
    crate::flow_laws::law_a_failure_is_named(title, why@, seq![], 0);
    let line = error_line(title, why@);
    assert(v.log.push(line) =~= v.log + seq![line]);
}

/// After the last item the missing mod ids are looked for; each of them is told, and then
/// it is over. An update that cannot ask about its items fails with the reason.
pub proof fn law_an_update_ends(v: UpdatingView, missing: Vec<String>, k: int, why: String)
    ensures
        v.stage == UpdateStage::Items && v.position >= v.state.len() ==> {
            let w = crate::updating::told(v, UpdateEvent::Go).0;
            crate::updating::next_action(w) == UpdateActionView::Missing && w.log == v.log && w.ok
                == v.ok
        },
        v.stage == UpdateStage::Missing ==> {
            let (w, now) = crate::updating::told(v, UpdateEvent::Missing(missing));
            &&& crate::updating::next_action(w) == UpdateActionView::Finish
            &&& w.log == v.log + now
            &&& missing.deep_view().len() == 0 ==> now.len() == 0 && w.ok == v.ok
            &&& 0 <= k < missing.deep_view().len() ==> now.len() == 1 && contains(
                now[0],
                missing.deep_view()[k],
            ) && !w.ok
        },
        v.stage == UpdateStage::Metadata ==> {
            let w = crate::updating::told(v, UpdateEvent::Details(Err(why))).0;
            w.failure == Some(why@) && crate::updating::next_action(w) == UpdateActionView::Finish
        },
{
    let m = missing.deep_view();
    let line = crate::flow::missing_line(m);
    crate::flow_laws::law_a_failure_is_named(seq![], seq![], m, k);
    assert(v.log.push(line) =~= v.log + seq![line]);
    assert(v.log + seq![] =~= v.log);
}

} // verus!
