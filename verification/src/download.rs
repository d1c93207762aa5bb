//! Downloading items with steamcmd: its arguments, what its lines tell, and what
//! a download comes to.
use std::collections::VecDeque;
use vstd::prelude::*;

use crate::deps::{dedup_ids, firsts};
use crate::json::{json_object, object_of, pairs_of, Json, JsonView};
use crate::table::{at, Table};
use crate::text::{
    chars_of, copy_texts, decimal, decimal_text, find, find_from, holds, is_id, is_white_space,
    is_workshop_id, join_texts, joined, lemma_find_from, text_of, trim, trimmed, white_space,
};
use crate::workshop::app_id;

verus! {

/// The arguments that download one item after the other.
pub open spec fn item_args(ids: Seq<Seq<char>>) -> Seq<Seq<char>>
    decreases ids.len(),
{
    if ids.len() == 0 {
        seq![]
    } else {
        item_args(ids.drop_last()) + seq!["+workshop_download_item"@, app_id(), ids.last()]
    }
}

/// The arguments with which steamcmd downloads the items.
pub open spec fn args_of(ids: Seq<Seq<char>>) -> Seq<Seq<char>> {
    seq!["+login"@, "anonymous"@] + item_args(ids) + seq!["+quit"@]
}

/// The arguments with which steamcmd downloads the items, all in one session.
pub fn steamcmd_args(ids: &Vec<String>) -> (r: Vec<String>)
    ensures
        r.deep_view() == args_of(ids.deep_view()),
{
    let mut r: Vec<String> = Vec::new();
    r.push("+login".to_string());
    r.push("anonymous".to_string());
    let ghost head = seq!["+login"@, "anonymous"@];
    let ghost all = ids.deep_view();
    let mut i: usize = 0;
    assert(r.deep_view() =~= head + item_args(all.take(0)));
    while i < ids.len()
        invariant
            i <= ids.len(),
            all == ids.deep_view(),
            r.deep_view() == head + item_args(all.take(i as int)),
        decreases ids.len() - i,
    {
        let ghost before = r.deep_view();
        assert(all.take(i + 1).drop_last() =~= all.take(i as int));
        r.push("+workshop_download_item".to_string());
        r.push("108600".to_string());
        r.push(ids[i].clone());
        proof {
            let three = seq!["+workshop_download_item"@, app_id(), ids@[i as int]@];
            assert(r.deep_view() =~= before + three);
            assert(before + three =~= head + item_args(all.take(i + 1)));
        }
        i += 1;
    }
    assert(all.take(ids.len() as int) =~= all);
    let ghost before = r.deep_view();
    r.push("+quit".to_string());
    assert(r.deep_view() =~= before + seq!["+quit"@]);
    r
}

/// The first position from `i` on that holds white space, or none, as `white`
/// says.
pub open spec fn run_end(s: Seq<char>, i: int, white: bool) -> int
    decreases s.len() - i,
{
    if i < 0 || i >= s.len() {
        s.len() as int
    } else if is_white_space(s[i]) != white {
        i
    } else {
        run_end(s, i + 1, white)
    }
}

/// The first word of `s`, if it has one.
pub open spec fn first_word(s: Seq<char>) -> Option<Seq<char>> {
    let a = run_end(s, 0, true);
    if a >= s.len() {
        None
    } else {
        Some(s.subrange(a, run_end(s, a, false)))
    }
}

/// The item that a line of steamcmd reports as downloaded.
pub open spec fn reported(line: Seq<char>) -> Option<Seq<char>> {
    let marker = "Success. Downloaded item "@;
    match find_from(line, marker, 0) {
        None => None,
        Some(k) => first_word(line.subrange(k + marker.len(), line.len() as int)),
    }
}

fn skip_run(chars: &Vec<char>, from: usize, white: bool) -> (r: usize)
    requires
        from <= chars.len(),
    ensures
        r == run_end(chars@, from as int, white),
        from <= r <= chars.len(),
{
    let mut i: usize = from;
    while i < chars.len() && white_space(chars[i]) == white
        invariant
            from <= i <= chars.len(),
            run_end(chars@, from as int, white) == run_end(chars@, i as int, white),
        decreases chars.len() - i,
    {
        i += 1;
    }
    i
}

/// The item that a line of steamcmd reports as downloaded, if it reports one.
pub fn steamcmd_success_id(line: &str) -> (r: Option<String>)
    ensures
        r.deep_view() == reported(line@),
{
    let chars = chars_of(line);
    let marker = chars_of("Success. Downloaded item ");
    match find(&chars, &marker, 0) {
        None => None,
        Some(k) => {
            proof {
                lemma_find_from(line@, marker@, 0);
            }
            let rest_text = text_of(&chars, k + marker.len(), chars.len());
            let rest = chars_of(rest_text.as_str());
            let a = skip_run(&rest, 0, true);
            if a >= rest.len() {
                None
            } else {
                let b = skip_run(&rest, a, false);
                Some(text_of(&rest, a, b))
            }
        },
    }
}

/// How many of the last lines are told where nothing was downloaded.
pub const TAIL: usize = 4;

/// A session of steamcmd: the items that are downloaded, what they are called,
/// those that were reported, and the last lines.
pub struct Download {
    pub ids: Vec<String>,
    pub labels: Table<String>,
    pub completed: Vec<String>,
    pub tail: Vec<String>,
}

#[verifier::ext_equal]
pub struct DownloadView {
    pub ids: Seq<Seq<char>>,
    pub labels: Seq<(Seq<char>, Seq<char>)>,
    pub completed: Seq<Seq<char>>,
    pub tail: Seq<Seq<char>>,
}

impl DeepView for Download {
    type V = DownloadView;

    open spec fn deep_view(&self) -> DownloadView {
        DownloadView {
            ids: self.ids.deep_view(),
            labels: self.labels.deep_view(),
            completed: self.completed.deep_view(),
            tail: self.tail.deep_view(),
        }
    }
}

pub open spec fn all_ids(ids: Seq<Seq<char>>) -> bool {
    forall|i: int| 0 <= i < ids.len() ==> is_id(#[trigger] ids[i])
}

fn are_ids(ids: &Vec<String>) -> (r: bool)
    ensures
        r == all_ids(ids.deep_view()),
{
    let ghost all = ids.deep_view();
    let mut i: usize = 0;
    while i < ids.len()
        invariant
            i <= ids.len(),
            all == ids.deep_view(),
            forall|k: int| 0 <= k < i ==> is_id(#[trigger] all[k]),
        decreases ids.len() - i,
    {
        assert(all[i as int] == ids@[i as int]@);
        if !is_workshop_id(ids[i].as_str()) {
            return false;
        }
        i += 1;
    }
    true
}

/// A session that downloads `ids`, which are called as `labels` says. Refused
/// where one is no workshop id: nothing else reaches the command line.
pub fn download_items_labeled(ids: &Vec<String>, labels: Table<String>) -> (r: Result<
    Download,
    String,
>)
    ensures
        if all_ids(ids.deep_view()) {
            r matches Ok(d) && d.deep_view() == (DownloadView {
                ids: ids.deep_view(),
                labels: labels.deep_view(),
                completed: seq![],
                tail: seq![],
            })
        } else {
            r matches Err(e) && e@ == "Workshop id không hợp lệ"@
        },
{
    if !are_ids(ids) {
        return Err("Workshop id không hợp lệ".to_string());
    }
    let d = Download {
        ids: copy_texts(ids),
        labels,
        completed: Vec::new(),
        tail: Vec::new(),
    };
    assert(d.completed.deep_view() =~= seq![]);
    assert(d.tail.deep_view() =~= seq![]);
    Ok(d)
}

/// A session that downloads `ids`.
pub fn download_items(ids: &Vec<String>) -> (r: Result<Download, String>)
    ensures
        if all_ids(ids.deep_view()) {
            r matches Ok(d) && d.deep_view() == (DownloadView {
                ids: ids.deep_view(),
                labels: seq![],
                completed: seq![],
                tail: seq![],
            })
        } else {
            r matches Err(e) && e@ == "Workshop id không hợp lệ"@
        },
{
    let labels: Table<String> = Table::new();
    download_items_labeled(ids, labels)
}

/// A session that downloads one item, which is called `label`, or by its id where
/// that is empty.
pub fn download_item_labeled(id: &str, label: Option<&str>) -> (r: Result<Download, String>)
    ensures
        if is_id(id@) {
            r matches Ok(d) && d.deep_view() == (DownloadView {
                ids: seq![id@],
                labels: seq![
                    (
                        id@,
                        match label {
                            Some(l) => if l@.len() > 0 {
                                l@
                            } else {
                                id@
                            },
                            None => id@,
                        },
                    ),
                ],
                completed: seq![],
                tail: seq![],
            })
        } else {
            r matches Err(e) && e@ == "Workshop id không hợp lệ"@
        },
{
    let name = match label {
        Some(l) => {
            if l.is_empty() {
                id.to_string()
            } else {
                l.to_string()
            }
        },
        None => id.to_string(),
    };
    let mut labels: Table<String> = Table::new();
    labels.set(id.to_string(), name);
    let mut ids: Vec<String> = Vec::new();
    ids.push(id.to_string());
    proof {
        assert(ids.deep_view() =~= seq![id@]);
        assert(labels.deep_view() =~= seq![(id@, name@)]);
        if is_id(id@) {
            assert(all_ids(ids.deep_view()));
        } else {
            assert(!is_id(ids.deep_view()[0]));
        }
    }
    download_items_labeled(&ids, labels)
}

/// A session that downloads one item.
pub fn download_item(id: &str) -> (r: Result<Download, String>)
    ensures
        if is_id(id@) {
            r matches Ok(d) && d.deep_view() == (DownloadView {
                ids: seq![id@],
                labels: seq![(id@, id@)],
                completed: seq![],
                tail: seq![],
            })
        } else {
            r matches Err(e) && e@ == "Workshop id không hợp lệ"@
        },
{
    download_item_labeled(id, None)
}

/// The item that a line newly reports, of those that are downloaded.
pub open spec fn newly_reported(v: DownloadView, line: Seq<char>) -> Option<Seq<char>> {
    match reported(line) {
        Some(id) => if v.ids.contains(id) && !v.completed.contains(id) {
            Some(id)
        } else {
            None
        },
        None => None,
    }
}

pub open spec fn with_tail(tail: Seq<Seq<char>>, line: Seq<char>) -> Seq<Seq<char>> {
    if trimmed(line).len() == 0 {
        tail
    } else if tail.len() == TAIL {
        tail.drop_first().push(line)
    } else {
        tail.push(line)
    }
}

/// The session after a line of steamcmd.
pub open spec fn line_read(v: DownloadView, line: Seq<char>) -> DownloadView {
    DownloadView {
        completed: match newly_reported(v, line) {
            Some(id) => v.completed.push(id),
            None => v.completed,
        },
        tail: with_tail(v.tail, line),
        ..v
    }
}

/// What is told after a line of steamcmd: that an item is there, and how many
/// are.
pub open spec fn line_told(v: DownloadView, line: Seq<char>) -> Seq<Seq<char>> {
    match newly_reported(v, line) {
        Some(id) => seq![
            "steamcmd: tải xong "@ + id,
            "tải xong "@ + (match at(v.labels, id) {
                Some(l) => l,
                None => id,
            }) + " ("@ + decimal(v.completed.len() + 1) + "/"@ + decimal(v.ids.len()) + ")"@,
        ],
        None => seq![],
    }
}

/// What is told once steamcmd is done of the items that are not there.
pub open spec fn absent_lines(ids: Seq<Seq<char>>, there: Seq<Seq<char>>) -> Seq<Seq<char>>
    decreases ids.len(),
{
    if ids.len() == 0 {
        seq![]
    } else {
        let r = absent_lines(ids.drop_last(), there);
        if there.contains(ids.last()) {
            r
        } else {
            r.push("! "@ + ids.last() + ": steamcmd không tải được mục này"@)
        }
    }
}

/// Those of `ids` that are there.
pub open spec fn there_of(ids: Seq<Seq<char>>, there: Seq<Seq<char>>) -> Seq<Seq<char>>
    decreases ids.len(),
{
    if ids.len() == 0 {
        seq![]
    } else {
        let r = there_of(ids.drop_last(), there);
        if there.contains(ids.last()) {
            r.push(ids.last())
        } else {
            r
        }
    }
}

/// What is told once steamcmd is done.
pub open spec fn finish_told(v: DownloadView, there: Seq<Seq<char>>) -> Seq<Seq<char>> {
    let lines = absent_lines(v.ids, there);
    if there_of(v.ids, there).len() == 0 && v.ids.len() > 0 {
        lines.push("! steamcmd không tải được mục nào: "@ + joined(v.tail, " | "@))
    } else {
        lines
    }
}

/// What a session came to: the items that are there, and what is told.
pub struct Downloaded {
    pub ids: Vec<String>,
    pub progress: Vec<String>,
}

impl Download {
    /// Takes a line of steamcmd. Gives what is told.
    pub fn read_line(&mut self, line: String) -> (r: Vec<String>)
        ensures
            final(self).deep_view() == line_read(old(self).deep_view(), line@),
            r.deep_view() == line_told(old(self).deep_view(), line@),
    {
        let ghost v = self.deep_view();
        let mut told: Vec<String> = Vec::new();
        assert(told.deep_view() =~= seq![]);
        match steamcmd_success_id(line.as_str()) {
            Some(id) => {
                if holds(&self.ids, id.as_str()) && !holds(&self.completed, id.as_str()) {
                    let label = match self.labels.get(id.as_str()) {
                        Some(l) => l.clone(),
                        None => id.clone(),
                    };
                    let a = "steamcmd: tải xong ".to_string().concat(id.as_str());
                    self.completed.push(id.clone());
                    assert(self.completed.deep_view() =~= v.completed.push(id@));
                    let n = decimal_text(self.completed.len() as u64);
                    let m = decimal_text(self.ids.len() as u64);
                    let b = "tải xong ".to_string().concat(label.as_str()).concat(" (").concat(
                        n.as_str(),
                    ).concat("/").concat(m.as_str()).concat(")");
                    told.push(a);
                    told.push(b);
                    assert(told.deep_view() =~= seq![a@, b@]);
                }
            },
            None => {},
        }
        let words = trim(line.as_str());
        if words.unicode_len() > 0 {
            if self.tail.len() == TAIL {
                self.tail.remove(0);
                assert(self.tail.deep_view() =~= v.tail.drop_first());
            }
            let ghost kept = self.tail.deep_view();
            self.tail.push(line);
            assert(self.tail.deep_view() =~= kept.push(line@));
        }
        told
    }

    /// What the session came to, given the items that are there now: only those
    /// count, whatever was reported.
    pub fn finish(&self, there: &Vec<String>) -> (r: Downloaded)
        ensures
            r.ids.deep_view() == there_of(self.ids.deep_view(), there.deep_view()),
            r.progress.deep_view() == finish_told(self.deep_view(), there.deep_view()),
    {
        let mut ids: Vec<String> = Vec::new();
        let mut progress: Vec<String> = Vec::new();
        let ghost all = self.ids.deep_view();
        let ghost t = there.deep_view();
        let mut i: usize = 0;
        assert(ids.deep_view() =~= seq![]);
        assert(progress.deep_view() =~= seq![]);
        while i < self.ids.len()
            invariant
                i <= self.ids.len(),
                all == self.ids.deep_view(),
                t == there.deep_view(),
                ids.deep_view() == there_of(all.take(i as int), t),
                progress.deep_view() == absent_lines(all.take(i as int), t),
            decreases self.ids.len() - i,
        {
            assert(all.take(i + 1).drop_last() =~= all.take(i as int));
            if holds(there, self.ids[i].as_str()) {
                let ghost before = ids.deep_view();
                ids.push(self.ids[i].clone());
                assert(ids.deep_view() =~= before.push(self.ids@[i as int]@));
            } else {
                let ghost before = progress.deep_view();
                let line = "! ".to_string().concat(self.ids[i].as_str()).concat(
                    ": steamcmd không tải được mục này",
                );
                progress.push(line);
                assert(progress.deep_view() =~= before.push(line@));
            }
            i += 1;
        }
        assert(all.take(self.ids.len() as int) =~= all);
        if ids.len() == 0 && self.ids.len() > 0 {
            let ghost before = progress.deep_view();
            let tail = join_texts(&self.tail, " | ");
            let line = "! steamcmd không tải được mục nào: ".to_string().concat(tail.as_str());
            progress.push(line);
            assert(progress.deep_view() =~= before.push(line@));
        }
        Downloaded { ids, progress }
    }
}

/// Whether the one item of a session is there, or what is said where it is not.
pub fn one_item(id: &str, downloaded: &Downloaded) -> (r: Result<(), String>)
    ensures
        if downloaded.ids.deep_view().contains(id@) {
            r is Ok
        } else {
            r matches Err(e) && e@ == "steamcmd thất bại với "@ + id@
        },
{
    if holds(&downloaded.ids, id) {
        Ok(())
    } else {
        Err("steamcmd thất bại với ".to_string().concat(id))
    }
}

/// The items that are there already, and those that are downloaded.
pub struct Reuse {
    pub have: Vec<String>,
    pub missing: Vec<String>,
}

/// Those of `ids` that are not there.
pub open spec fn missing_of(ids: Seq<Seq<char>>, there: Seq<Seq<char>>) -> Seq<Seq<char>>
    decreases ids.len(),
{
    if ids.len() == 0 {
        seq![]
    } else {
        let r = missing_of(ids.drop_last(), there);
        if there.contains(ids.last()) {
            r
        } else {
            r.push(ids.last())
        }
    }
}

/// Splits `ids` into those that are there already and those that have to be
/// downloaded, each once. A session is started only for the latter.
pub fn download_items_reuse(ids: &Vec<String>, there: &Vec<String>) -> (r: Reuse)
    ensures
        r.have.deep_view() == there_of(firsts(ids.deep_view()), there.deep_view()),
        r.missing.deep_view() == missing_of(firsts(ids.deep_view()), there.deep_view()),
{
    let once = dedup_ids(ids);
    let mut have: Vec<String> = Vec::new();
    let mut missing: Vec<String> = Vec::new();
    let ghost all = once.deep_view();
    let ghost t = there.deep_view();
    let mut i: usize = 0;
    assert(have.deep_view() =~= seq![]);
    assert(missing.deep_view() =~= seq![]);
    while i < once.len()
        invariant
            i <= once.len(),
            all == once.deep_view(),
            t == there.deep_view(),
            have.deep_view() == there_of(all.take(i as int), t),
            missing.deep_view() == missing_of(all.take(i as int), t),
        decreases once.len() - i,
    {
        assert(all.take(i + 1).drop_last() =~= all.take(i as int));
        if holds(there, once[i].as_str()) {
            let ghost before = have.deep_view();
            have.push(once[i].clone());
            assert(have.deep_view() =~= before.push(once@[i as int]@));
        } else {
            let ghost before = missing.deep_view();
            missing.push(once[i].clone());
            assert(missing.deep_view() =~= before.push(once@[i as int]@));
        }
        i += 1;
    }
    assert(all.take(once.len() as int) =~= all);
    Reuse { have, missing }
}

/// The pages that are fetched ahead, with one more, unless it waits already or is
/// no page of an item.
pub open spec fn queued(queue: Seq<Seq<char>>, id: Seq<char>) -> Seq<Seq<char>> {
    let t = trimmed(id);
    if is_id(t) && !queue.contains(t) {
        queue.push(t)
    } else {
        queue
    }
}

pub open spec fn all_queued(queue: Seq<Seq<char>>, ids: Seq<Seq<char>>) -> Seq<Seq<char>>
    decreases ids.len(),
{
    if ids.len() == 0 {
        queue
    } else {
        queued(all_queued(queue, ids.drop_last()), ids.last())
    }
}

fn waits(queue: &VecDeque<String>, id: &str) -> (r: bool)
    ensures
        r == queue.deep_view().contains(id@),
{
    let ghost all = queue.deep_view();
    let mut i: usize = 0;
    while i < queue.len()
        invariant
            i <= queue@.len(),
            all == queue.deep_view(),
            forall|k: int| 0 <= k < i ==> #[trigger] all[k] != id@,
        decreases queue@.len() - i,
    {
        assert(all[i as int] == queue@[i as int]@);
        if crate::text::same(queue[i].as_str(), id) {
            return true;
        }
        i += 1;
    }
    false
}

/// Lets the pages of items wait to be fetched ahead. What is no id is passed
/// over, and none waits twice.
pub fn queue_prefetch(queue: &mut VecDeque<String>, ids: &Vec<String>)
    ensures
        final(queue).deep_view() == all_queued(old(queue).deep_view(), ids.deep_view()),
{
    let ghost q0 = queue.deep_view();
    let ghost all = ids.deep_view();
    let mut i: usize = 0;
    while i < ids.len()
        invariant
            i <= ids.len(),
            all == ids.deep_view(),
            queue.deep_view() == all_queued(q0, all.take(i as int)),
        decreases ids.len() - i,
    {
        assert(all.take(i + 1).drop_last() =~= all.take(i as int));
        let id = trim(ids[i].as_str());
        if is_workshop_id(id.as_str()) && !waits(queue, id.as_str()) {
            let ghost before = queue.deep_view();
            queue.push_back(id);
            assert(queue.deep_view() =~= before.push(id@));
        }
        i += 1;
    }
    assert(all.take(ids.len() as int) =~= all);
}

/// Lets the pages of items wait to be fetched ahead, and says so.
pub fn prefetch(queue: &mut VecDeque<String>, ids: &Vec<String>) -> (r: Json)
    ensures
        final(queue).deep_view() == all_queued(old(queue).deep_view(), ids.deep_view()),
        r.model() == object_of(seq![("ok"@, JsonView::Bool(true))]),
{
    queue_prefetch(queue, ids);
    let mut f: Vec<(String, Json)> = Vec::new();
    f.push(("ok".to_string(), Json::Bool(true)));
    assert(pairs_of(f@) =~= seq![("ok"@, JsonView::Bool(true))]);
    json_object(f)
}

/// Whether a word of the command line is one of those that are always the same.
pub open spec fn is_fixed_word(word: Seq<char>) -> bool {
    word == "+login"@ || word == "anonymous"@ || word == "+workshop_download_item"@ || word
        == app_id() || word == "+quit"@
}

/// Nothing but workshop ids gets into the command line, beside the words that are
/// always the same.
pub proof fn law_only_ids_reach_the_command_line(ids: Seq<Seq<char>>)
    requires
        all_ids(ids),
    ensures
        forall|i: int|
            0 <= i < args_of(ids).len() ==> is_fixed_word(#[trigger] args_of(ids)[i]) || is_id(
                args_of(ids)[i],
            ),
{
    lemma_item_args(ids);
    let args = args_of(ids);
    let items = item_args(ids);
    assert forall|i: int| 0 <= i < args.len() implies is_fixed_word(#[trigger] args[i]) || is_id(
        args[i],
    ) by {
        if 2 <= i < 2 + items.len() {
            assert(args[i] == items[i - 2]);
        }
    }
}

proof fn lemma_item_args(ids: Seq<Seq<char>>)
    requires
        all_ids(ids),
    ensures
        forall|i: int|
            0 <= i < item_args(ids).len() ==> is_fixed_word(#[trigger] item_args(ids)[i]) || is_id(
                item_args(ids)[i],
            ),
    decreases ids.len(),
{
    if ids.len() > 0 {
        let t = ids.drop_last();
        assert forall|i: int| 0 <= i < t.len() implies is_id(#[trigger] t[i]) by {
            assert(t[i] == ids[i]);
        }
        lemma_item_args(t);
        assert(is_id(ids[ids.len() - 1]));
        let all = item_args(ids);
        let before = item_args(t);
        assert forall|i: int| 0 <= i < all.len() implies is_fixed_word(#[trigger] all[i]) || is_id(
            all[i],
        ) by {
            if i < before.len() {
                assert(all[i] == before[i]);
            }
        }
    }
}

} // verus!
