//! What a download comes to: every item is asked for, every report is heard, and every
//! item that is not there is told of.
use vstd::prelude::*;

use crate::download::{
    absent_lines, all_queued, args_of, finish_told, item_args, line_read, line_told, missing_of,
    newly_reported, queued, reported, run_end, there_of, with_tail, DownloadView,
};
use crate::flow_laws::{lemma_between, lemma_contains_in};
use crate::table::at;
use crate::text::{
    contains, decimal, find_from, is_id, is_white_space, joined, lemma_find_from, occurs_at,
    trimmed,
};
use crate::text_laws::law_joining_keeps_every_text;

verus! {

/// The command logs in without a name, downloads each item of the game, one after the
/// other, and ends.
pub proof fn law_every_item_is_on_the_command_line(ids: Seq<Seq<char>>, k: int)
    requires
        0 <= k < ids.len(),
    ensures
        args_of(ids).len() == 3 * ids.len() + 3,
        args_of(ids)[0] == "+login"@,
        args_of(ids)[1] == "anonymous"@,
        args_of(ids)[3 * k + 2] == "+workshop_download_item"@,
        args_of(ids)[3 * k + 3] == "108600"@,
        args_of(ids)[3 * k + 4] == ids[k],
        args_of(ids).last() == "+quit"@,
{
    lemma_item_args(ids, k);
}

proof fn lemma_item_args(ids: Seq<Seq<char>>, k: int)
    requires
        0 <= k < ids.len(),
    ensures
        item_args(ids).len() == 3 * ids.len(),
        item_args(ids)[3 * k] == "+workshop_download_item"@,
        item_args(ids)[3 * k + 1] == "108600"@,
        item_args(ids)[3 * k + 2] == ids[k],
    decreases ids.len(),
{
    let t = ids.drop_last();
    if t.len() > 0 {
        if k < t.len() {
            lemma_item_args(t, k);
        } else {
            lemma_item_args(t, 0);
        }
    } else {
        assert(item_args(t).len() == 0);
    }
    assert(item_args(ids) == item_args(t) + seq![
        "+workshop_download_item"@,
        crate::workshop::app_id(),
        ids.last(),
    ]);
}

proof fn lemma_run_end(s: Seq<char>, i: int, n: int, white: bool)
    requires
        0 <= i <= n <= s.len(),
        forall|j: int| i <= j < n ==> is_white_space(#[trigger] s[j]) == white,
        n < s.len() ==> is_white_space(s[n]) != white,
    ensures
        run_end(s, i, white) == n,
    decreases n - i,
{
    if i < n {
        assert(is_white_space(s[i]) == white);
        lemma_run_end(s, i + 1, n, white);
    }
}

/// A line reports the item whose id is the first word after the words that tell of
/// success, where they stand first.
pub proof fn law_a_report_is_heard(line: Seq<char>, a: int, b: int, c: int)
    requires
        ({
            let marker = "Success. Downloaded item "@;
            &&& 0 <= a
            &&& occurs_at(line, marker, a)
            &&& forall|j: int| 0 <= j < a ==> !#[trigger] occurs_at(line, marker, j)
            &&& a + marker.len() <= b < c <= line.len()
            &&& forall|j: int| a + marker.len() <= j < b ==> is_white_space(#[trigger] line[j])
            &&& forall|j: int| b <= j < c ==> !is_white_space(#[trigger] line[j])
            &&& c < line.len() ==> is_white_space(line[c])
        }),
    ensures
        reported(line) == Some(line.subrange(b, c)),
{
    let marker = "Success. Downloaded item "@;
    lemma_find_from(line, marker, 0);
    let k = find_from(line, marker, 0);
    assert(k == Some(a)) by {
        if let Some(x) = k {
            if x < a {
                assert(!occurs_at(line, marker, x));
            }
        }
    }
    let s = line.subrange(a + marker.len(), line.len() as int);
    let m = a + marker.len();
    assert forall|j: int| 0 <= j < b - m implies is_white_space(#[trigger] s[j]) by {
        assert(s[j] == line[m + j]);
    }
    assert(s[b - m] == line[b]);
    lemma_run_end(s, 0, b - m, true);
    assert forall|j: int| b - m <= j < c - m implies !is_white_space(#[trigger] s[j]) by {
        assert(s[j] == line[m + j]);
    }
    if c < line.len() {
        assert(s[c - m] == line[c]);
    }
    lemma_run_end(s, b - m, c - m, false);
    assert(s.subrange(b - m, c - m) =~= line.subrange(b, c));
}

/// A line without those words reports nothing.
pub proof fn law_other_lines_report_nothing(line: Seq<char>)
    requires
        !contains(line, "Success. Downloaded item "@),
    ensures
        reported(line) is None,
{
    lemma_find_from(line, "Success. Downloaded item "@, 0);
}

/// A report counts exactly where it is of an item that is downloaded and was not reported
/// before; it is then told by what it is called, with how many are there and how many
/// there are.
pub proof fn law_reports_are_counted_once(v: DownloadView, line: Seq<char>)
    ensures
        ({
            let w = line_read(v, line);
            &&& w.ids == v.ids && w.labels == v.labels
            &&& (reported(line) matches Some(id) && v.ids.contains(id) && !v.completed.contains(
                id,
            )) ==> {
                let id = reported(line)->Some_0;
                let told = line_told(v, line);
                &&& w.completed == v.completed.push(id)
                &&& told.len() == 2
                &&& contains(told[0], id)
                &&& contains(
                    told[1],
                    match at(v.labels, id) {
                        Some(l) => l,
                        None => id,
                    },
                )
                &&& contains(told[1], decimal(w.completed.len()) + "/"@ + decimal(v.ids.len()))
            }
            &&& !(reported(line) matches Some(id) && v.ids.contains(id) && !v.completed.contains(
                id,
            )) ==> w.completed == v.completed && line_told(v, line).len() == 0
        }),
{
    if let Some(id) = newly_reported(v, line) {
        let label = match at(v.labels, id) {
            Some(l) => l,
            None => id,
        };
        let n = decimal(v.completed.len() + 1);
        let m = decimal(v.ids.len());
        let told = line_told(v, line);
        lemma_between("steamcmd: tải xong "@, id, seq![]);
        assert("steamcmd: tải xong "@ + id + seq![] =~= told[0]);
        lemma_between("tải xong "@, label, " ("@ + n + "/"@ + m + ")"@);
        assert("tải xong "@ + label + (" ("@ + n + "/"@ + m + ")"@) =~= told[1]);
        lemma_between("tải xong "@ + label + " ("@, n + "/"@ + m, ")"@);
        assert("tải xong "@ + label + " ("@ + (n + "/"@ + m) + ")"@ =~= told[1]);
    }
}

/// The last four lines are kept, blank ones apart.
pub proof fn law_the_last_four_lines_are_kept(tail: Seq<Seq<char>>, line: Seq<char>)
    requires
        tail.len() <= 4,
    ensures
        with_tail(tail, line).len() <= 4,
        (forall|i: int| 0 <= i < line.len() ==> is_white_space(#[trigger] line[i])) ==> with_tail(
            tail,
            line,
        ) == tail,
        (exists|i: int| 0 <= i < line.len() && !is_white_space(#[trigger] line[i])) ==> ({
            let all = tail.push(line);
            with_tail(tail, line) == if all.len() <= 4 {
                all
            } else {
                all.subrange(all.len() - 4, all.len() as int)
            }
        }),
{
    let (a, b) = crate::text_laws::law_trimming_leaves_the_middle(line);
    let all = tail.push(line);
    if tail.len() == 4 {
        assert(tail.drop_first().push(line) =~= all.subrange(1, 5));
    }
    if exists|i: int| 0 <= i < line.len() && !is_white_space(#[trigger] line[i]) {
        let i = choose|i: int| 0 <= i < line.len() && !is_white_space(#[trigger] line[i]);
        assert(a <= i < b);
        assert(trimmed(line).len() > 0);
    }
    if forall|i: int| 0 <= i < line.len() ==> is_white_space(#[trigger] line[i]) {
        if a < b {
            assert(is_white_space(line[a]));
        }
        assert(trimmed(line).len() == 0);
    }
}

/// Only what is there counts, whatever was reported, and every item that is not there is
/// told of, in their order.
pub proof fn law_only_what_is_there_counts(ids: Seq<Seq<char>>, there: Seq<Seq<char>>)
    ensures
        there_of(ids, there) == ids.filter(|id: Seq<char>| there.contains(id)),
        missing_of(ids, there) == ids.filter(|id: Seq<char>| !there.contains(id)),
        absent_lines(ids, there).len() == missing_of(ids, there).len(),
        forall|k: int|
            0 <= k < missing_of(ids, there).len() ==> contains(
                #[trigger] absent_lines(ids, there)[k],
                missing_of(ids, there)[k],
            ),
    decreases ids.len(),
{
    reveal(Seq::filter);
    if ids.len() > 0 {
        let t = ids.drop_last();
        law_only_what_is_there_counts(t, there);
        lemma_between("! "@, ids.last(), ": steamcmd không tải được mục này"@);
        assert forall|k: int| 0 <= k < missing_of(ids, there).len() implies contains(
            #[trigger] absent_lines(ids, there)[k],
            missing_of(ids, there)[k],
        ) by {
            if k < missing_of(t, there).len() {
                assert(absent_lines(ids, there)[k] == absent_lines(t, there)[k]);
            }
        }
    }
}

/// What is told in the end: of each item that is not there; and where none is, the last
/// lines of the session.
pub proof fn law_an_empty_download_tells_the_last_lines(
    v: DownloadView,
    there: Seq<Seq<char>>,
    k: int,
)
    ensures
        ({
            let told = finish_told(v, there);
            let lines = absent_lines(v.ids, there);
            &&& lines.is_prefix_of(told)
            &&& (exists|i: int| 0 <= i < v.ids.len() && there.contains(#[trigger] v.ids[i])) ==> told
                == lines
            &&& v.ids.len() > 0 && (forall|i: int|
                0 <= i < v.ids.len() ==> !there.contains(#[trigger] v.ids[i])) ==> told.len()
                == lines.len() + 1 && (0 <= k < v.tail.len() ==> contains(told.last(), v.tail[k]))
        }),
{
    lemma_none_there(v.ids, there);
    if 0 <= k < v.tail.len() {
        law_joining_keeps_every_text(v.tail, " | "@, k);
        lemma_contains_in(
            "! steamcmd không tải được mục nào: "@,
            joined(v.tail, " | "@),
            v.tail[k],
        );
    }
}

proof fn lemma_none_there(ids: Seq<Seq<char>>, there: Seq<Seq<char>>)
    ensures
        there_of(ids, there).len() == 0 <==> forall|i: int|
            0 <= i < ids.len() ==> !there.contains(#[trigger] ids[i]),
    decreases ids.len(),
{
    if ids.len() > 0 {
        let t = ids.drop_last();
        lemma_none_there(t, there);
        assert(ids[ids.len() - 1] == ids.last());
        if there_of(ids, there).len() == 0 {
            assert forall|i: int| 0 <= i < ids.len() implies !there.contains(#[trigger] ids[i]) by {
                if i < t.len() {
                    assert(t[i] == ids[i]);
                }
            }
        }
        if forall|i: int| 0 <= i < ids.len() ==> !there.contains(#[trigger] ids[i]) {
            assert forall|i: int| 0 <= i < t.len() implies !there.contains(#[trigger] t[i]) by {
                assert(ids[i] == t[i]);
            }
        }
    }
}

/// Every page that is asked for waits to be fetched ahead: each once, behind those that
/// wait already, and nothing that is no id.
pub proof fn law_every_page_waits(queue: Seq<Seq<char>>, ids: Seq<Seq<char>>)
    ensures
        queue.is_prefix_of(all_queued(queue, ids)),
        queue.no_duplicates() ==> all_queued(queue, ids).no_duplicates(),
        forall|x: Seq<char>|
            #[trigger] all_queued(queue, ids).contains(x) <==> queue.contains(x) || is_id(x)
                && exists|i: int| 0 <= i < ids.len() && trimmed(#[trigger] ids[i]) == x,
    decreases ids.len(),
{
    if ids.len() > 0 {
        let t = ids.drop_last();
        law_every_page_waits(queue, t);
        let before = all_queued(queue, t);
        let all = all_queued(queue, ids);
        let x0 = trimmed(ids.last());
        assert(all == queued(before, ids.last()));
        assert(ids[ids.len() - 1] == ids.last());
        assert forall|x: Seq<char>| #[trigger] all.contains(x) <==> queue.contains(x) || is_id(x)
            && exists|i: int| 0 <= i < ids.len() && trimmed(#[trigger] ids[i]) == x by {
            assert(before.contains(x) <==> queue.contains(x) || is_id(x) && exists|i: int|
                0 <= i < t.len() && trimmed(#[trigger] t[i]) == x);
            if all.contains(x) {
                let i = choose|i: int| 0 <= i < all.len() && all[i] == x;
                if i < before.len() {
                    assert(before[i] == x);
                    assert(before.contains(x));
                    if !queue.contains(x) {
                        let j = choose|j: int| 0 <= j < t.len() && trimmed(#[trigger] t[j]) == x;
                        assert(ids[j] == t[j]);
                    }
                } else {
                    assert(trimmed(ids[ids.len() - 1]) == x);
                }
            }
            if before.contains(x) {
                let i = choose|i: int| 0 <= i < before.len() && before[i] == x;
                assert(all[i] == x);
            }
            if is_id(x) && exists|i: int| 0 <= i < ids.len() && trimmed(#[trigger] ids[i]) == x {
                let i = choose|i: int| 0 <= i < ids.len() && trimmed(#[trigger] ids[i]) == x;
                if i < t.len() {
                    assert(trimmed(t[i]) == x);
                    assert(before.contains(x));
                } else if !before.contains(x) {
                    assert(all[before.len() as int] == x);
                }
            }
        }
        if queue.no_duplicates() && all.len() > before.len() {
            assert forall|i: int, j: int|
                0 <= i < all.len() && 0 <= j < all.len() && i != j implies all[i] != all[j] by {
                if i < before.len() && j < before.len() {
                    assert(before[i] != before[j]);
                } else if i < before.len() {
                    assert(before.contains(before[i]));
                } else if j < before.len() {
                    assert(before.contains(before[j]));
                }
            }
        }
    }
}

} // verus!
