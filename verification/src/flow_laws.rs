//! What installing and updating come to, item by item.
use vstd::prelude::*;

use crate::flow::{
    error_line, extras, gone_line, goes_well, has_warning, is_latest, is_warning, labels_of,
    missing_line, not_known, one_step, titles_of, unsaved_line, vanished_line, OneStep,
};
use crate::folder::Disk;
use crate::json::JsonView;
use crate::state_laws::{law_complete_is_every_folder, stands};
use crate::table::{at, law_set_at, merged};
use crate::text::{contains, is_white_space, joined, occurs_at, trim_start};
use crate::text_laws::law_joining_keeps_every_text;
use crate::walk::title_of;

verus! {

/// An item that is installed is what the workshop has: it is from the same time, it has
/// folders, and each of them stands.
pub open spec fn is_up_to_date(entry: JsonView, detail: JsonView, disk: Disk) -> bool {
    &&& entry.number("updated"@) == detail.number("time_updated"@)
    &&& entry.strings("folders"@).len() > 0
    &&& forall|k: int|
        0 <= k < entry.strings("folders"@).len() ==> stands(
            #[trigger] entry.strings("folders"@)[k],
            disk,
        )
}

/// An installed item is the latest exactly where it is from the same time as that of the
/// workshop and all of it is there.
pub proof fn law_the_latest_is_all_there(entry: JsonView, detail: JsonView, disk: Disk)
    ensures
        is_latest(entry, detail, disk) <==> is_up_to_date(entry, detail, disk),
{
    law_complete_is_every_folder(entry, disk);
}

/// What is done with an item: one of another game is refused. One that is up to date is
/// left, unless it is asked for anew. Else it is installed from what was downloaded; where
/// it is not there it is downloaded, once, and anew where it was installed or is asked for
/// anew.
pub proof fn law_an_item_is_dealt_with(
    r: Result<OneStep, String>,
    d: JsonView,
    force: bool,
    previous: Option<JsonView>,
    disk: Disk,
    downloaded: bool,
    attempted: bool,
)
    requires
        one_step(r, d, force, previous, disk, downloaded, attempted),
    ensures
        ({
            let ours = d.number("consumer_app_id"@) == 108600;
            let left = ours && !force && (previous matches Some(entry) && is_up_to_date(
                entry,
                d,
                disk,
            ));
            &&& r is Err <==> !ours || (!left && !downloaded && attempted)
            &&& (r matches Ok(OneStep::Latest(_))) <==> left
            &&& (r matches Ok(OneStep::Install)) <==> ours && !left && downloaded
            &&& (r matches Ok(OneStep::Download { .. })) <==> ours && !left && !downloaded
                && !attempted
            &&& (r matches Ok(OneStep::Download { force: f, label }) ==> f == (force || previous
                is Some) && (label is Some <==> d.string("title"@).len() > 0) && (label matches Some(
                l,
            ) ==> l@ == d.string("title"@)))
            &&& (r matches Ok(OneStep::Latest(line)) ==> contains(line@, d.string("title"@)))
        }),
{
    if let Some(entry) = previous {
        law_the_latest_is_all_there(entry, d, disk);
    }
    if let Ok(OneStep::Latest(line)) = r {
        lemma_between("= "@, d.string("title"@), " đã là bản mới nhất"@);
    }
}

/// What stands between two texts is in the whole.
pub proof fn lemma_between(a: Seq<char>, b: Seq<char>, c: Seq<char>)
    ensures
        contains(a + b + c, b),
{
    let s = a + b + c;
    assert(s.subrange(a.len() as int, (a.len() + b.len()) as int) =~= b);
    assert(occurs_at(s, b, a.len() as int));
}

/// The items that come along are those of the order that were not asked for.
pub proof fn law_what_comes_along_was_not_asked_for(order: Seq<Seq<char>>, todo: Seq<Seq<char>>)
    ensures
        extras(order, todo) == order.filter(|id: Seq<char>| !todo.contains(id)),
    decreases order.len(),
{
    reveal(Seq::filter);
    if order.len() > 0 {
        law_what_comes_along_was_not_asked_for(order.drop_last(), todo);
    }
}

/// The items that are asked about are those of which nothing is known.
pub proof fn law_what_is_not_known_is_asked_about(
    order: Seq<Seq<char>>,
    known: Seq<(Seq<char>, JsonView)>,
)
    ensures
        not_known(order, known) == order.filter(|id: Seq<char>| at(known, id) is None),
    decreases order.len(),
{
    reveal(Seq::filter);
    if order.len() > 0 {
        law_what_is_not_known_is_asked_about(order.drop_last(), known);
    }
}

/// An item is called by its title, or by its id where it has none or none is known.
pub proof fn law_an_item_is_called_by_its_title(
    known: Seq<(Seq<char>, JsonView)>,
    id: Seq<char>,
)
    ensures
        at(known, id) is None ==> title_of(known, id) == id,
        (at(known, id) matches Some(item) ==> (item.string("title"@).len() > 0 ==> title_of(
            known,
            id,
        ) == item.string("title"@)) && (item.string("title"@).len() == 0 ==> title_of(known, id)
            == id)),
{
}

/// Every item of the order has what it is called under its id.
pub proof fn law_every_item_has_its_label(
    order: Seq<Seq<char>>,
    known: Seq<(Seq<char>, JsonView)>,
    id: Seq<char>,
)
    ensures
        at(labels_of(order, known), id) == (if order.contains(id) {
            Some(title_of(known, id))
        } else {
            None
        }),
    decreases order.len(),
{
    if order.len() > 0 {
        let t = order.drop_last();
        law_every_item_has_its_label(t, known, id);
        law_set_at(labels_of(t, known), order.last(), title_of(known, order.last()));
        if order.contains(id) && !t.contains(id) {
            let i = choose|i: int| 0 <= i < order.len() && order[i] == id;
            if i < t.len() {
                assert(t[i] == id);
            }
        }
        if t.contains(id) {
            let i = choose|i: int| 0 <= i < t.len() && t[i] == id;
            assert(order[i] == id);
        }
        assert(order[order.len() - 1] == order.last());
    }
}

/// A line is a warning exactly where the first of it that is no white space is an
/// exclamation mark.
pub proof fn law_a_warning_begins_with_its_mark(line: Seq<char>)
    ensures
        is_warning(line) <==> exists|k: int|
            0 <= k < line.len() && #[trigger] line[k] == '!' && forall|j: int|
                0 <= j < k ==> is_white_space(#[trigger] line[j]),
    decreases line.len(),
{
    if line.len() > 0 && is_white_space(line[0]) {
        let t = line.drop_first();
        law_a_warning_begins_with_its_mark(t);
        assert(trim_start(line) == trim_start(t));
        if is_warning(line) {
            let k = choose|k: int|
                0 <= k < t.len() && #[trigger] t[k] == '!' && forall|j: int|
                    0 <= j < k ==> is_white_space(#[trigger] t[j]);
            assert(line[k + 1] == '!');
            assert forall|j: int| 0 <= j < k + 1 implies is_white_space(#[trigger] line[j]) by {
                if j > 0 {
                    assert(t[j - 1] == line[j]);
                }
            }
        }
        if exists|k: int|
            0 <= k < line.len() && #[trigger] line[k] == '!' && forall|j: int|
                0 <= j < k ==> is_white_space(#[trigger] line[j]) {
            let k = choose|k: int|
                0 <= k < line.len() && #[trigger] line[k] == '!' && forall|j: int|
                    0 <= j < k ==> is_white_space(#[trigger] line[j]);
            assert(k > 0);
            assert(t[k - 1] == '!');
            assert forall|j: int| 0 <= j < k - 1 implies is_white_space(#[trigger] t[j]) by {
                assert(line[j + 1] == t[j]);
            }
        }
    } else if line.len() > 0 {
        if is_warning(line) {
            assert(line[0] == '!');
        }
        if exists|k: int|
            0 <= k < line.len() && #[trigger] line[k] == '!' && forall|j: int|
                0 <= j < k ==> is_white_space(#[trigger] line[j]) {
            let k = choose|k: int|
                0 <= k < line.len() && #[trigger] line[k] == '!' && forall|j: int|
                    0 <= j < k ==> is_white_space(#[trigger] line[j]);
            if k > 0 {
                assert(is_white_space(line[0]));
            }
        }
    }
}

/// A request went well exactly where nothing failed and none of its lines is a warning.
pub proof fn law_a_request_goes_well_without_warnings(ok: bool, log: Seq<Seq<char>>)
    ensures
        goes_well(ok, log) <==> ok && forall|i: int|
            0 <= i < log.len() ==> !is_warning(#[trigger] log[i]),
{
    if forall|i: int| 0 <= i < log.len() ==> !is_warning(#[trigger] log[i]) {
        assert(!has_warning(log));
    }
}

/// A line that tells of a failure names the item and the reason; one that tells of missing
/// mod ids names each of them.
pub proof fn law_a_failure_is_named(
    name: Seq<char>,
    why: Seq<char>,
    missing: Seq<Seq<char>>,
    k: int,
)
    ensures
        contains(error_line(name, why), name),
        contains(error_line(name, why), why),
        contains(gone_line(name), name),
        contains(vanished_line(name), name),
        contains(unsaved_line(why), why),
        0 <= k < missing.len() ==> contains(missing_line(missing), missing[k]),
{
    lemma_between("! "@, name, ": "@ + why);
    assert("! "@ + name + (": "@ + why) =~= error_line(name, why));
    lemma_between("! "@ + name + ": "@, why, seq![]);
    assert("! "@ + name + ": "@ + why + seq![] =~= error_line(name, why));
    lemma_between("! "@, name, ": mod đã bị xoá hoặc đặt riêng tư"@);
    lemma_between("! "@, name, ": đã biến mất khỏi workshop, giữ nguyên bản cục bộ"@);
    lemma_between("! không lưu được ánh xạ mod id ("@, why, ")"@);
    if 0 <= k < missing.len() {
        let head = "! thiếu mod bắt buộc: "@;
        let list = joined(missing, ", "@);
        law_joining_keeps_every_text(missing, ", "@, k);
        lemma_contains_in(head, list, missing[k]);
    }
}

/// What the second of two texts contains the whole contains.
pub proof fn lemma_contains_in(a: Seq<char>, b: Seq<char>, x: Seq<char>)
    requires
        contains(b, x),
    ensures
        contains(a + b, x),
{
    let i = choose|i: int| occurs_at(b, x, i);
    assert((a + b).subrange(a.len() + i, a.len() + i + x.len()) =~= b.subrange(i, i + x.len()));
    assert(occurs_at(a + b, x, a.len() + i));
}

/// What is called in order: the title of each, one for one.
pub proof fn law_titles_are_in_order(
    ids: Seq<Seq<char>>,
    known: Seq<(Seq<char>, JsonView)>,
    k: int,
)
    requires
        0 <= k < ids.len(),
    ensures
        titles_of(ids, known).len() == ids.len(),
        titles_of(ids, known)[k] == title_of(known, ids[k]),
{
}

/// What is learned adds to what is known: what was learned last of an item counts, and
/// what was known of others stays.
pub proof fn law_what_is_learned_is_added<V>(
    a: Seq<(Seq<char>, V)>,
    b: Seq<(Seq<char>, V)>,
    key: Seq<char>,
)
    ensures
        (forall|i: int| 0 <= i < b.len() ==> (#[trigger] b[i]).0 != key) ==> at(merged(a, b), key)
            == at(a, key),
        forall|k: int|
            0 <= k < b.len() && (#[trigger] b[k]).0 == key && (forall|i: int|
                k < i < b.len() ==> (#[trigger] b[i]).0 != key) ==> at(merged(a, b), key) == Some(
                b[k].1,
            ),
    decreases b.len(),
{
    if b.len() > 0 {
        let t = b.drop_last();
        law_what_is_learned_is_added(a, t, key);
        law_set_at(merged(a, t), b.last().0, b.last().1);
        assert(b[b.len() - 1] == b.last());
        assert forall|i: int| 0 <= i < t.len() implies #[trigger] t[i] == b[i] by {}
        if forall|i: int| 0 <= i < b.len() ==> (#[trigger] b[i]).0 != key {
            assert forall|i: int| 0 <= i < t.len() implies (#[trigger] t[i]).0 != key by {
                assert(b[i].0 != key);
            }
        }
        assert forall|k: int|
            0 <= k < b.len() && (#[trigger] b[k]).0 == key && (forall|i: int|
                k < i < b.len() ==> (#[trigger] b[i]).0 != key) implies at(merged(a, b), key)
            == Some(b[k].1) by {
            if k < t.len() {
                assert(t[k].0 == key);
                assert forall|i: int| k < i < t.len() implies (#[trigger] t[i]).0 != key by {
                    assert(b[i].0 != key);
                }
                assert(b[b.len() - 1].0 != key);
            }
        }
    }
}

} // verus!
