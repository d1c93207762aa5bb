//! The lines that are told while a job runs, for whoever asks from time to time.
use std::collections::VecDeque;
use vstd::prelude::*;

verus! {

/// How many lines are kept.
pub const PROGRESS_CAP: usize = 500;

/// The lines that were told last, how many there were in all, and whether a job
/// runs.
pub struct ProgressStore {
    pub seq: usize,
    pub lines: VecDeque<String>,
    pub active: bool,
}

/// What is answered to whoever asks.
pub struct ProgressReply {
    pub seq: usize,
    pub lines: Vec<String>,
    pub active: bool,
}

/// The lines with one more; the first one goes where there are too many.
pub open spec fn with_line(lines: Seq<Seq<char>>, line: Seq<char>) -> Seq<Seq<char>> {
    if lines.len() == PROGRESS_CAP {
        lines.drop_first().push(line)
    } else {
        lines.push(line)
    }
}

/// How many of the kept lines have been seen by someone who has seen `since` in
/// all.
pub open spec fn seen_lines(seq: usize, kept: nat, since: usize) -> int {
    let first = if seq >= kept {
        seq - kept
    } else {
        0
    };
    let offset = if since >= first {
        since - first
    } else {
        0
    };
    if offset <= kept {
        offset
    } else {
        kept as int
    }
}

pub open spec fn next_seq(seq: usize) -> usize {
    if seq == usize::MAX {
        seq
    } else {
        (seq + 1) as usize
    }
}

impl Default for ProgressStore {
    /// Nothing was told yet, and no job runs.
    fn default() -> (r: ProgressStore)
        ensures
            r.wf(),
            r.seq == 0,
            r.lines.deep_view() == Seq::<Seq<char>>::empty(),
            !r.active,
    {
        let lines: VecDeque<String> = VecDeque::new();
        assert(lines.deep_view() =~= Seq::<Seq<char>>::empty());
        ProgressStore { seq: 0, lines, active: false }
    }
}

impl ProgressStore {
    /// At most as many lines as are kept, and no more than there were.
    pub open spec fn wf(&self) -> bool {
        self.lines@.len() <= PROGRESS_CAP && self.lines@.len() <= self.seq
    }

    /// Adds a line.
    pub fn push(&mut self, line: String)
        ensures
            old(self).wf() ==> final(self).wf(),
            final(self).seq == next_seq(old(self).seq),
            final(self).lines.deep_view() == with_line(old(self).lines.deep_view(), line@),
            final(self).active == old(self).active,
    {
        let ghost before = self.lines.deep_view();
        self.seq = if self.seq == usize::MAX {
            self.seq
        } else {
            self.seq + 1
        };
        if self.lines.len() == PROGRESS_CAP {
            self.lines.pop_front();
            assert(self.lines.deep_view() =~= before.drop_first());
        }
        let ghost kept = self.lines.deep_view();
        self.lines.push_back(line);
        assert(self.lines.deep_view() =~= kept.push(line@));
    }

    /// What is answered to someone who has seen the first `since` lines.
    pub fn snapshot(&self, since: usize) -> (r: ProgressReply)
        ensures
            r.seq == self.seq,
            r.active == self.active,
            r.lines.deep_view() == self.lines.deep_view().skip(
                seen_lines(self.seq, self.lines@.len(), since),
            ),
    {
        let kept = self.lines.len();
        let first = if self.seq >= kept {
            self.seq - kept
        } else {
            0
        };
        let offset = if since >= first {
            since - first
        } else {
            0
        };
        let start = if offset <= kept {
            offset
        } else {
            kept
        };
        let mut lines: Vec<String> = Vec::new();
        let ghost all = self.lines.deep_view();
        let mut i: usize = start;
        while i < kept
            invariant
                start <= i <= kept,
                kept == self.lines@.len(),
                all == self.lines.deep_view(),
                lines.deep_view() == all.subrange(start as int, i as int),
            decreases kept - i,
        {
            let ghost before = lines.deep_view();
            lines.push(self.lines[i].clone());
            assert(lines.deep_view() =~= before.push(self.lines@[i as int]@));
            assert(lines.deep_view() =~= all.subrange(start as int, i + 1));
            i += 1;
        }
        assert(all.subrange(start as int, kept as int) =~= all.skip(start as int));
        ProgressReply { seq: self.seq, lines, active: self.active }
    }
}

/// Adds one line.
pub fn progress_push(store: &mut ProgressStore, line: &str)
    ensures
        old(store).wf() ==> final(store).wf(),
        final(store).seq == next_seq(old(store).seq),
        final(store).lines.deep_view() == with_line(old(store).lines.deep_view(), line@),
        final(store).active == old(store).active,
{
    store.push(line.to_string());
}

pub open spec fn with_lines(lines: Seq<Seq<char>>, more: Seq<Seq<char>>) -> Seq<Seq<char>>
    decreases more.len(),
{
    if more.len() == 0 {
        lines
    } else {
        with_line(with_lines(lines, more.drop_last()), more.last())
    }
}

/// Adds lines, one after the other.
pub fn progress_lines(store: &mut ProgressStore, lines: &Vec<String>)
    ensures
        old(store).wf() ==> final(store).wf(),
        final(store).seq == (if old(store).seq + lines.len() >= usize::MAX {
            usize::MAX as int
        } else {
            old(store).seq + lines.len()
        }),
        final(store).lines.deep_view() == with_lines(
            old(store).lines.deep_view(),
            lines.deep_view(),
        ),
        final(store).active == old(store).active,
{
    let ghost before = store.lines.deep_view();
    let ghost n0 = store.seq;
    let ghost all = lines.deep_view();
    let mut i: usize = 0;
    while i < lines.len()
        invariant
            i <= lines.len(),
            all == lines.deep_view(),
            old(store).wf() ==> store.wf(),
            store.seq == (if n0 + i >= usize::MAX {
                usize::MAX as int
            } else {
                n0 + i
            }),
            store.lines.deep_view() == with_lines(before, all.take(i as int)),
            store.active == old(store).active,
        decreases lines.len() - i,
    {
        assert(all.take(i + 1).drop_last() =~= all.take(i as int));
        progress_push(store, lines[i].as_str());
        i += 1;
    }
    assert(all.take(lines.len() as int) =~= all);
}

/// A job that tells its progress.
pub struct ProgressJob;

impl ProgressJob {
    /// A job begins: the lines of the one before are gone, their number is not.
    pub fn start(store: &mut ProgressStore) -> (r: ProgressJob)
        ensures
            final(store).wf(),
            final(store).seq == old(store).seq,
            final(store).lines.deep_view() == Seq::<Seq<char>>::empty(),
            final(store).active,
    {
        store.lines.clear();
        assert(store.lines.deep_view() =~= Seq::<Seq<char>>::empty());
        store.active = true;
        ProgressJob
    }

    /// The job is over.
    pub fn finish(self, store: &mut ProgressStore)
        ensures
            final(store).seq == old(store).seq,
            final(store).lines == old(store).lines,
            !final(store).active,
    {
        store.active = false;
    }
}

/// Whoever asks with the number of the last answer gets exactly the lines that
/// were told since, as long as they are not more than are kept.
pub proof fn law_answers_are_incremental(
    lines: Seq<Seq<char>>,
    seq: usize,
    more: Seq<Seq<char>>,
)
    requires
        lines.len() <= PROGRESS_CAP,
        lines.len() <= seq,
        more.len() <= PROGRESS_CAP,
        seq + more.len() < usize::MAX,
    ensures
        ({
            let kept = with_lines(lines, more);
            let now = (seq + more.len()) as usize;
            kept.skip(seen_lines(now, kept.len(), seq)) == more
        }),
{
    lemma_with_lines(lines, more);
    let kept = with_lines(lines, more);
    let n = kept.len() - more.len();
    assert(kept.skip(n) =~= more);
}

proof fn lemma_with_lines(lines: Seq<Seq<char>>, more: Seq<Seq<char>>)
    requires
        lines.len() <= PROGRESS_CAP,
        more.len() <= PROGRESS_CAP,
    ensures
        ({
            let kept = with_lines(lines, more);
            &&& more.len() <= kept.len() <= PROGRESS_CAP
            &&& kept.len() <= lines.len() + more.len()
            &&& kept.len() == lines.len() + more.len() || kept.len() == PROGRESS_CAP
            &&& kept.skip(kept.len() - more.len()) == more
        }),
    decreases more.len(),
{
    if more.len() > 0 {
        let t = more.drop_last();
        lemma_with_lines(lines, t);
        let a = with_lines(lines, t);
        let kept = with_lines(lines, more);
        let n = a.len() - t.len();
        assert(a.skip(n) == t);
        assert forall|i: int| 0 <= i < more.len() implies kept[kept.len() - more.len() + i]
            == #[trigger] more[i] by {
            if i < t.len() {
                assert(t[i] == a.skip(n)[i]);
                assert(a.skip(n)[i] == a[n + i]);
            }
        }
        assert(kept.skip(kept.len() - more.len()) =~= more);
    } else {
        assert(with_lines(lines, more).skip(lines.len() as int) =~= more);
    }
}

} // verus!
