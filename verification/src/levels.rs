//! Finding out what items need, one level of needs after the other.
use vstd::prelude::*;

use crate::deps::{
    dedup_ids, firsts, has_need, install_order, law_firsts, law_install_order_holds_nothing_else,
    law_install_order_is_complete, place_all,
};
use crate::table::{at, law_set_at, set_at, Table};
use crate::text::copy_texts;

verus! {

/// What the page of an item told: the ids that it needs, or why it could not be
/// asked.
pub struct Reply {
    pub id: String,
    pub found: Result<Vec<String>, String>,
}

pub struct ReplyView {
    pub id: Seq<char>,
    pub found: Result<Seq<Seq<char>>, Seq<char>>,
}

impl DeepView for Reply {
    type V = ReplyView;

    open spec fn deep_view(&self) -> ReplyView {
        ReplyView {
            id: self.id@,
            found: match self.found {
                Ok(v) => Ok(v.deep_view()),
                Err(e) => Err(e@),
            },
        }
    }
}

/// What the replies tell of what items need.
pub open spec fn found_in(replies: Seq<ReplyView>) -> Seq<(Seq<char>, Seq<Seq<char>>)>
    decreases replies.len(),
{
    if replies.len() == 0 {
        seq![]
    } else {
        let r = found_in(replies.drop_last());
        match replies.last().found {
            Ok(needs) => set_at(r, replies.last().id, needs),
            Err(_) => r,
        }
    }
}

/// What is told of the items that could not be asked.
pub open spec fn blocked_lines(replies: Seq<ReplyView>) -> Seq<Seq<char>>
    decreases replies.len(),
{
    if replies.len() == 0 {
        seq![]
    } else {
        let r = blocked_lines(replies.drop_last());
        match replies.last().found {
            Ok(_) => r,
            Err(e) => r.push(
                "~ "@ + replies.last().id + ": chưa kiểm được mod bắt buộc ("@ + e
                    + ") - vẫn cài tiếp"@,
            ),
        }
    }
}

/// What the replies tell of what items need, and what is told of those that
/// could not be asked.
pub struct Found {
    pub needs: Table<Vec<String>>,
    pub log: Vec<String>,
}

/// Takes the replies to one level together. An item that could not be asked
/// drops out, and does not keep the others from being installed.
pub fn required_ids_many(replies: &Vec<Reply>) -> (r: Found)
    ensures
        r.needs.deep_view() == found_in(replies.deep_view()),
        r.log.deep_view() == blocked_lines(replies.deep_view()),
{
    let mut needs: Table<Vec<String>> = Table::new();
    let mut log: Vec<String> = Vec::new();
    let ghost all = replies.deep_view();
    let mut i: usize = 0;
    assert(log.deep_view() =~= seq![]);
    while i < replies.len()
        invariant
            i <= replies.len(),
            all == replies.deep_view(),
            needs.deep_view() == found_in(all.take(i as int)),
            log.deep_view() == blocked_lines(all.take(i as int)),
        decreases replies.len() - i,
    {
        assert(all.take(i + 1).drop_last() =~= all.take(i as int));
        match &replies[i].found {
            Ok(v) => {
                needs.set(replies[i].id.clone(), copy_texts(v));
            },
            Err(e) => {
                let ghost before = log.deep_view();
                let line = "~ ".to_string().concat(replies[i].id.as_str()).concat(
                    ": chưa kiểm được mod bắt buộc (",
                ).concat(e.as_str()).concat(") - vẫn cài tiếp");
                log.push(line);
                assert(log.deep_view() =~= before.push(line@));
            },
        }
        i += 1;
    }
    assert(all.take(replies.len() as int) =~= all);
    Found { needs, log }
}

/// Those of `list` that are not known yet.
pub open spec fn unknown(
    list: Seq<Seq<char>>,
    graph: Seq<(Seq<char>, Seq<Seq<char>>)>,
) -> Seq<Seq<char>>
    decreases list.len(),
{
    if list.len() == 0 {
        seq![]
    } else {
        let r = unknown(list.drop_last(), graph);
        if at(graph, list.last()) is Some {
            r
        } else {
            r.push(list.last())
        }
    }
}

fn unknown_of(list: &Vec<String>, graph: &Table<Vec<String>>) -> (r: Vec<String>)
    ensures
        r.deep_view() == unknown(list.deep_view(), graph.deep_view()),
{
    let mut r: Vec<String> = Vec::new();
    let ghost all = list.deep_view();
    let ghost g = graph.deep_view();
    let mut i: usize = 0;
    assert(r.deep_view() =~= seq![]);
    while i < list.len()
        invariant
            i <= list.len(),
            all == list.deep_view(),
            g == graph.deep_view(),
            r.deep_view() == unknown(all.take(i as int), g),
        decreases list.len() - i,
    {
        assert(all.take(i + 1).drop_last() =~= all.take(i as int));
        if !graph.has(list[i].as_str()) {
            let ghost before = r.deep_view();
            r.push(list[i].clone());
            assert(r.deep_view() =~= before.push(list@[i as int]@));
        }
        i += 1;
    }
    assert(all.take(list.len() as int) =~= all);
    r
}

/// How far the items are known: the items that were asked for, what the known
/// ones need, the level that is next, and how many levels are left.
pub struct Levels {
    pub ids: Vec<String>,
    pub graph: Table<Vec<String>>,
    pub level: Vec<String>,
    pub left: usize,
}

#[verifier::ext_equal]
pub struct LevelsView {
    pub ids: Seq<Seq<char>>,
    pub graph: Seq<(Seq<char>, Seq<Seq<char>>)>,
    pub level: Seq<Seq<char>>,
    pub left: nat,
}

impl DeepView for Levels {
    type V = LevelsView;

    open spec fn deep_view(&self) -> LevelsView {
        LevelsView {
            ids: self.ids.deep_view(),
            graph: self.graph.deep_view(),
            level: self.level.deep_view(),
            left: self.left as nat,
        }
    }
}

/// The items that are asked next: those of the level that are not known. None
/// where no level is left.
pub open spec fn next_batch(v: LevelsView) -> Seq<Seq<char>> {
    if v.left == 0 {
        seq![]
    } else {
        unknown(v.level, v.graph)
    }
}

/// What items need and the level that follows, after the first `n` of a batch.
pub open spec fn batch_known(
    batch: Seq<Seq<char>>,
    n: nat,
    found: Seq<(Seq<char>, Seq<Seq<char>>)>,
    graph: Seq<(Seq<char>, Seq<Seq<char>>)>,
) -> (Seq<(Seq<char>, Seq<Seq<char>>)>, Seq<Seq<char>>)
    decreases n,
{
    if n == 0 || n > batch.len() {
        (graph, seq![])
    } else {
        let (g, next) = batch_known(batch, (n - 1) as nat, found, graph);
        let id = batch[n - 1];
        let needs = match at(found, id) {
            Some(d) => d,
            None => seq![],
        };
        (set_at(g, id, needs), next + unknown(needs, g))
    }
}

/// How far the items are known after the replies to a batch.
pub open spec fn with_replies(v: LevelsView, replies: Seq<ReplyView>) -> LevelsView {
    let batch = next_batch(v);
    let (g, next) = batch_known(batch, batch.len(), found_in(replies), v.graph);
    LevelsView { ids: v.ids, graph: g, level: firsts(next), left: (v.left - 1) as nat }
}

impl Levels {
    /// Nothing is known yet of `ids`; `depth` levels are asked.
    pub fn start(ids: &Vec<String>, depth: usize) -> (r: Levels)
        ensures
            r.deep_view() == (LevelsView {
                ids: firsts(ids.deep_view()),
                graph: seq![],
                level: firsts(ids.deep_view()),
                left: depth as nat,
            }),
    {
        let once = dedup_ids(ids);
        let level = copy_texts(&once);
        let graph: Table<Vec<String>> = Table::new();
        Levels { ids: once, graph, level, left: depth }
    }

    /// The items that are to be asked next; none where everything is known that
    /// will be.
    pub fn batch(&self) -> (r: Vec<String>)
        ensures
            r.deep_view() == next_batch(self.deep_view()),
    {
        if self.left == 0 {
            let r: Vec<String> = Vec::new();
            assert(r.deep_view() =~= seq![]);
            r
        } else {
            unknown_of(&self.level, &self.graph)
        }
    }

    /// Takes the replies to the batch. Gives what is told of the items that
    /// could not be asked.
    pub fn record(&mut self, replies: &Vec<Reply>) -> (log: Vec<String>)
        requires
            next_batch(old(self).deep_view()).len() > 0,
        ensures
            final(self).deep_view() == with_replies(old(self).deep_view(), replies.deep_view()),
            log.deep_view() == blocked_lines(replies.deep_view()),
    {
        let ghost v = self.deep_view();
        let batch = self.batch();
        let found = required_ids_many(replies);
        let ghost b = batch.deep_view();
        let ghost f = found.needs.deep_view();
        let mut next: Vec<String> = Vec::new();
        let mut n: usize = 0;
        assert(next.deep_view() =~= seq![]);
        while n < batch.len()
            invariant
                n <= batch.len(),
                b == batch.deep_view(),
                f == found.needs.deep_view(),
                v.graph == old(self).graph.deep_view(),
                v == old(self).deep_view(),
                self.ids == old(self).ids,
                self.left == old(self).left,
                (self.graph.deep_view(), next.deep_view()) == batch_known(b, n as nat, f, v.graph),
            decreases batch.len() - n,
        {
            let needs: Vec<String> = match found.needs.get(batch[n].as_str()) {
                Some(d) => copy_texts(d),
                None => {
                    let none: Vec<String> = Vec::new();
                    assert(none.deep_view() =~= seq![]);
                    none
                },
            };
            let ghost g = self.graph.deep_view();
            let mut more = unknown_of(&needs, &self.graph);
            let ghost added = more.deep_view();
            let ghost before = next.deep_view();
            next.append(&mut more);
            assert(next.deep_view() =~= before + added);
            self.graph.set(batch[n].clone(), needs);
            n += 1;
        }
        self.level = dedup_ids(&next);
        self.left = self.left - 1;
        found.log
    }
}

/// The order in which the items and everything that they are known to need are
/// installed.
pub fn dependency_order(levels: &Levels) -> (r: Vec<String>)
    ensures
        r.deep_view() == install_order(levels.deep_view().graph, levels.deep_view().ids),
{
    place_all(&levels.ids, &levels.graph)
}

proof fn lemma_unknown(list: Seq<Seq<char>>, graph: Seq<(Seq<char>, Seq<Seq<char>>)>)
    ensures
        forall|x: Seq<char>|
            #[trigger] unknown(list, graph).contains(x) <==> list.contains(x) && at(graph, x) is None,
    decreases list.len(),
{
    if list.len() > 0 {
        let t = list.drop_last();
        lemma_unknown(t, graph);
        let c = unknown(t, graph);
        let r = unknown(list, graph);
        assert forall|x: Seq<char>| #[trigger] r.contains(x) <==> list.contains(x) && at(
            graph,
            x,
        ) is None by {
            if r.contains(x) {
                let i = choose|i: int| 0 <= i < r.len() && r[i] == x;
                if i < c.len() {
                    assert(c[i] == x);
                    assert(c.contains(x));
                    let j = choose|j: int| 0 <= j < t.len() && t[j] == x;
                    assert(list[j] == x);
                } else {
                    assert(list[t.len() as int] == x);
                }
            }
            if list.contains(x) && at(graph, x) is None {
                let j = choose|j: int| 0 <= j < list.len() && list[j] == x;
                if j < t.len() {
                    assert(t[j] == x);
                    assert(c.contains(x));
                    let i = choose|i: int| 0 <= i < c.len() && c[i] == x;
                    assert(r[i] == x);
                } else {
                    assert(r[c.len() as int] == x);
                }
            }
        }
    }
}

proof fn lemma_batch_known(
    batch: Seq<Seq<char>>,
    n: nat,
    found: Seq<(Seq<char>, Seq<Seq<char>>)>,
    graph: Seq<(Seq<char>, Seq<Seq<char>>)>,
)
    requires
        n <= batch.len(),
    ensures
        ({
            let (g, next) = batch_known(batch, n, found, graph);
            &&& forall|k: int| 0 <= k < n ==> at(g, #[trigger] batch[k]) == Some(
                match at(found, batch[k]) {
                    Some(d) => d,
                    None => seq![],
                },
            )
            &&& forall|x: Seq<char>|
                !batch.contains(x) ==> #[trigger] at(g, x) == at(graph, x)
        }),
    decreases n,
{
    if n > 0 {
        lemma_batch_known(batch, (n - 1) as nat, found, graph);
        let (g, next) = batch_known(batch, (n - 1) as nat, found, graph);
        let id = batch[n - 1];
        let needs = match at(found, id) {
            Some(d) => d,
            None => seq![],
        };
        law_set_at(g, id, needs);
        assert(batch.contains(id));
    }
}

/// One level: every item of the batch is known after it, and was not before, so
/// none is asked twice; what was known stays known; and one level less is left,
/// so that no more levels are asked than were allowed.
pub proof fn law_each_level_is_asked_once(v: LevelsView, replies: Seq<ReplyView>)
    requires
        next_batch(v).len() > 0,
    ensures
        forall|x: Seq<char>| #[trigger] next_batch(v).contains(x) ==> at(v.graph, x) is None,
        forall|x: Seq<char>|
            next_batch(v).contains(x) ==> #[trigger] at(with_replies(v, replies).graph, x) == Some(
                match at(found_in(replies), x) {
                    Some(d) => d,
                    None => seq![],
                },
            ),
        forall|x: Seq<char>|
            at(v.graph, x) is Some ==> #[trigger] at(with_replies(v, replies).graph, x) == at(
                v.graph,
                x,
            ),
        with_replies(v, replies).left < v.left,
{
    let batch = next_batch(v);
    lemma_unknown(v.level, v.graph);
    lemma_batch_known(batch, batch.len(), found_in(replies), v.graph);
    let w = with_replies(v, replies);
    assert forall|x: Seq<char>| batch.contains(x) implies #[trigger] at(w.graph, x) == Some(
        match at(found_in(replies), x) {
            Some(d) => d,
            None => seq![],
        },
    ) by {
        let k = choose|k: int| 0 <= k < batch.len() && batch[k] == x;
        assert(at(w.graph, batch[k]) is Some);
    }
    assert forall|x: Seq<char>| at(v.graph, x) is Some implies #[trigger] at(w.graph, x) == at(
        v.graph,
        x,
    ) by {
        assert(!batch.contains(x));
    }
}

/// Whether `x` is among `ids` or is reached from them by at most `n` steps from an
/// item to one that it is known to need.
pub open spec fn near(
    graph: Seq<(Seq<char>, Seq<Seq<char>>)>,
    ids: Seq<Seq<char>>,
    x: Seq<char>,
    n: nat,
) -> bool
    decreases n,
{
    ids.contains(x) || n > 0 && exists|y: Seq<char>|
        #[trigger] has_need(graph, y, x) && near(graph, ids, y, (n - 1) as nat)
}

/// What is near stays near, with more steps and with more items known.
proof fn lemma_near_grows(
    a: Seq<(Seq<char>, Seq<Seq<char>>)>,
    b: Seq<(Seq<char>, Seq<Seq<char>>)>,
    ids: Seq<Seq<char>>,
    x: Seq<char>,
    m: nat,
    n: nat,
)
    requires
        near(a, ids, x, m),
        m <= n,
        forall|y: Seq<char>| at(a, y) is Some ==> #[trigger] at(b, y) == at(a, y),
    ensures
        near(b, ids, x, n),
    decreases m,
{
    if !ids.contains(x) {
        let y = choose|y: Seq<char>|
            #[trigger] has_need(a, y, x) && near(a, ids, y, (m - 1) as nat);
        lemma_near_grows(a, b, ids, y, (m - 1) as nat, (n - 1) as nat);
        assert(at(b, y) == at(a, y));
        assert(has_need(b, y, x));
    }
}

/// With `depth` levels allowed, every item that was asked is less than as many steps
/// away as levels were asked, and every item of the next level at most as many.
pub open spec fn within_depth(v: LevelsView, depth: nat) -> bool {
    &&& v.left <= depth
    &&& forall|x: Seq<char>|
        #[trigger] at(v.graph, x) is Some ==> v.left < depth && near(
            v.graph,
            v.ids,
            x,
            (depth - v.left - 1) as nat,
        )
    &&& forall|x: Seq<char>|
        #[trigger] v.level.contains(x) ==> near(v.graph, v.ids, x, (depth - v.left) as nat)
}

/// A search for what items need begins within its depth.
pub proof fn law_start_is_within_depth(ids: Seq<Seq<char>>, depth: nat)
    ensures
        within_depth(
            LevelsView { ids: firsts(ids), graph: seq![], level: firsts(ids), left: depth },
            depth,
        ),
{
}

proof fn lemma_next_level(
    batch: Seq<Seq<char>>,
    n: nat,
    found: Seq<(Seq<char>, Seq<Seq<char>>)>,
    graph: Seq<(Seq<char>, Seq<Seq<char>>)>,
)
    requires
        n <= batch.len(),
    ensures
        ({
            let (g, next) = batch_known(batch, n, found, graph);
            forall|x: Seq<char>|
                #[trigger] next.contains(x) ==> exists|k: int|
                    0 <= k < n && (#[trigger] at(found, batch[k]) matches Some(d) && d.contains(x))
        }),
    decreases n,
{
    if n > 0 {
        lemma_next_level(batch, (n - 1) as nat, found, graph);
        let (g, next) = batch_known(batch, (n - 1) as nat, found, graph);
        let id = batch[n - 1];
        let needs = match at(found, id) {
            Some(d) => d,
            None => seq![],
        };
        let more = unknown(needs, g);
        lemma_unknown(needs, g);
        let all = next + more;
        assert forall|x: Seq<char>| #[trigger] all.contains(x) implies exists|k: int|
            0 <= k < n && (#[trigger] at(found, batch[k]) matches Some(d) && d.contains(x)) by {
            let i = choose|i: int| 0 <= i < all.len() && all[i] == x;
            if i < next.len() {
                assert(next[i] == x);
                assert(next.contains(x));
            } else {
                assert(more[i - next.len()] == x);
                assert(more.contains(x));
                assert(needs.contains(x));
                assert(at(found, batch[n - 1]) == Some(needs));
            }
        }
    }
}

/// The replies to a batch leave a search within its depth.
pub proof fn law_replies_stay_within_depth(v: LevelsView, replies: Seq<ReplyView>, depth: nat)
    requires
        within_depth(v, depth),
        next_batch(v).len() > 0,
    ensures
        within_depth(with_replies(v, replies), depth),
{
    let batch = next_batch(v);
    let w = with_replies(v, replies);
    let (g, next) = batch_known(batch, batch.len(), found_in(replies), v.graph);
    let k = (depth - v.left) as nat;
    law_each_level_is_asked_once(v, replies);
    lemma_unknown(v.level, v.graph);
    lemma_batch_known(batch, batch.len(), found_in(replies), v.graph);
    assert forall|x: Seq<char>| #[trigger] at(w.graph, x) is Some implies w.left < depth && near(
        w.graph,
        w.ids,
        x,
        (depth - w.left - 1) as nat,
    ) by {
        if batch.contains(x) {
            assert(v.level.contains(x));
            lemma_near_grows(v.graph, w.graph, v.ids, x, k, k);
        } else {
            assert(at(v.graph, x) is Some);
            lemma_near_grows(v.graph, w.graph, v.ids, x, (k - 1) as nat, k);
        }
    }
    lemma_next_level(batch, batch.len(), found_in(replies), v.graph);
    law_firsts(next);
    assert forall|x: Seq<char>| #[trigger] w.level.contains(x) implies near(
        w.graph,
        w.ids,
        x,
        (depth - w.left) as nat,
    ) by {
        assert(next.contains(x));
        let j = choose|j: int|
            0 <= j < batch.len() && (#[trigger] at(found_in(replies), batch[j]) matches Some(d)
                && d.contains(x));
        let y = batch[j];
        assert(batch.contains(y));
        assert(v.level.contains(y));
        lemma_near_grows(v.graph, w.graph, v.ids, y, k, k);
        assert(at(w.graph, y) is Some);
        assert(has_need(w.graph, y, x));
    }
}

/// Nothing is installed from beyond the depth: every item of the order is reached
/// from the requested ones by at most as many steps as levels were allowed.
pub proof fn law_order_stays_within_depth(v: LevelsView, depth: nat)
    requires
        within_depth(v, depth),
    ensures
        forall|x: Seq<char>|
            #[trigger] install_order(v.graph, v.ids).contains(x) ==> near(
                v.graph,
                v.ids,
                x,
                depth,
            ),
{
    let p = |x: Seq<char>| near(v.graph, v.ids, x, depth);
    assert forall|x: Seq<char>, d: Seq<char>| #[trigger] has_need(v.graph, x, d) && p(
        x,
    ) implies p(d) by {
        assert(at(v.graph, x) is Some);
        lemma_near_grows(
            v.graph,
            v.graph,
            v.ids,
            x,
            (depth - v.left - 1) as nat,
            (depth - 1) as nat,
        );
    }
    assert forall|k: int| 0 <= k < v.ids.len() implies p(#[trigger] v.ids[k]) by {
        assert(v.ids.contains(v.ids[k]));
    }
    law_install_order_holds_nothing_else(v.graph, v.ids, p);
    assert forall|x: Seq<char>| #[trigger] install_order(v.graph, v.ids).contains(x) implies near(
        v.graph,
        v.ids,
        x,
        depth,
    ) by {
        assert(p(x));
    }
}

/// What an item needs by `web`; nothing where `web` does not tell.
pub open spec fn needs_of(web: Seq<(Seq<char>, Seq<Seq<char>>)>, x: Seq<char>) -> Seq<Seq<char>> {
    match at(web, x) {
        Some(needs) => needs,
        None => seq![],
    }
}

/// The replies to a batch tell of each of its items what it needs by `web`.
pub open spec fn tells_of(
    v: LevelsView,
    replies: Seq<ReplyView>,
    web: Seq<(Seq<char>, Seq<Seq<char>>)>,
) -> bool {
    forall|x: Seq<char>|
        #[trigger] next_batch(v).contains(x) ==> needs_of(found_in(replies), x) == needs_of(web, x)
}

/// Whether `x` was asked, or is to be asked on the next level.
pub open spec fn is_met(v: LevelsView, x: Seq<char>) -> bool {
    at(v.graph, x) is Some || v.level.contains(x)
}

/// What is known is what `web` tells; everything that a known item needs was met;
/// and everything that is less steps away than levels were asked is known.
pub open spec fn is_explored(
    v: LevelsView,
    web: Seq<(Seq<char>, Seq<Seq<char>>)>,
    depth: nat,
) -> bool {
    &&& v.left <= depth
    &&& forall|x: Seq<char>|
        #[trigger] at(v.graph, x) is Some ==> at(v.graph, x) == Some(needs_of(web, x))
    &&& forall|x: Seq<char>| #[trigger] v.ids.contains(x) ==> is_met(v, x)
    &&& forall|y: Seq<char>, x: Seq<char>| #[trigger] has_need(v.graph, y, x) ==> is_met(v, x)
    &&& v.left < depth ==> forall|x: Seq<char>|
        #[trigger] near(web, v.ids, x, (depth - v.left - 1) as nat) ==> at(v.graph, x) is Some
}

/// A search for what items need begins with nothing explored.
pub proof fn law_start_is_explored(
    ids: Seq<Seq<char>>,
    web: Seq<(Seq<char>, Seq<Seq<char>>)>,
    depth: nat,
)
    ensures
        is_explored(
            LevelsView { ids: firsts(ids), graph: seq![], level: firsts(ids), left: depth },
            web,
            depth,
        ),
{
}

/// What the items of a batch need and is not known after it is on the next level.
proof fn lemma_next_level_is_complete(
    batch: Seq<Seq<char>>,
    n: nat,
    found: Seq<(Seq<char>, Seq<Seq<char>>)>,
    graph: Seq<(Seq<char>, Seq<Seq<char>>)>,
)
    requires
        n <= batch.len(),
    ensures
        ({
            let (g, next) = batch_known(batch, n, found, graph);
            &&& forall|k: int, x: Seq<char>|
                0 <= k < n && #[trigger] needs_of(found, batch[k]).contains(x) ==> at(g, x) is Some
                    || next.contains(x)
            &&& forall|x: Seq<char>| at(graph, x) is Some ==> #[trigger] at(g, x) is Some
        }),
    decreases n,
{
    if n > 0 {
        lemma_next_level_is_complete(batch, (n - 1) as nat, found, graph);
        let (g, next) = batch_known(batch, (n - 1) as nat, found, graph);
        let (h, all) = batch_known(batch, n, found, graph);
        let id = batch[n - 1];
        let needs = needs_of(found, id);
        let more = unknown(needs, g);
        lemma_unknown(needs, g);
        law_set_at(g, id, needs);
        assert(all == next + more);
        assert forall|k: int, x: Seq<char>|
            0 <= k < n && #[trigger] needs_of(found, batch[k]).contains(x) implies at(h, x) is Some
            || all.contains(x) by {
            if at(g, x) is Some {
                assert(at(h, x) is Some);
            } else if k < n - 1 {
                let i = choose|i: int| 0 <= i < next.len() && next[i] == x;
                assert(all[i] == x);
            } else {
                assert(more.contains(x));
                let i = choose|i: int| 0 <= i < more.len() && more[i] == x;
                assert(all[next.len() + i] == x);
            }
        }
    }
}

/// The replies to a batch explore one level more.
pub proof fn law_replies_explore_a_level(
    v: LevelsView,
    replies: Seq<ReplyView>,
    web: Seq<(Seq<char>, Seq<Seq<char>>)>,
    depth: nat,
)
    requires
        is_explored(v, web, depth),
        next_batch(v).len() > 0,
        tells_of(v, replies, web),
    ensures
        is_explored(with_replies(v, replies), web, depth),
{
    let batch = next_batch(v);
    let found = found_in(replies);
    let w = with_replies(v, replies);
    let (g, next) = batch_known(batch, batch.len(), found, v.graph);
    let k = (depth - v.left) as nat;
    law_each_level_is_asked_once(v, replies);
    lemma_unknown(v.level, v.graph);
    lemma_batch_known(batch, batch.len(), found, v.graph);
    lemma_next_level_is_complete(batch, batch.len(), found, v.graph);
    law_firsts(next);
    assert forall|x: Seq<char>| is_met(v, x) implies #[trigger] at(w.graph, x) is Some by {
        if at(v.graph, x) is None {
            assert(batch.contains(x));
        }
    }
    assert forall|x: Seq<char>| #[trigger] at(w.graph, x) is Some implies at(w.graph, x) == Some(
        needs_of(web, x),
    ) by {
        if batch.contains(x) {
            assert(needs_of(found, x) == needs_of(web, x));
        } else {
            assert(at(w.graph, x) == at(v.graph, x));
        }
    }
    assert forall|x: Seq<char>| #[trigger] w.ids.contains(x) implies is_met(w, x) by {
        assert(is_met(v, x));
        assert(at(w.graph, x) is Some);
    }
    assert forall|y: Seq<char>, x: Seq<char>| #[trigger] has_need(w.graph, y, x) implies is_met(
        w,
        x,
    ) by {
        if batch.contains(y) {
            let j = choose|j: int| 0 <= j < batch.len() && batch[j] == y;
            assert(needs_of(found, batch[j]).contains(x));
        } else {
            assert(at(w.graph, y) == at(v.graph, y));
            assert(has_need(v.graph, y, x));
            assert(is_met(v, x));
            assert(at(w.graph, x) is Some);
        }
    }
    assert forall|x: Seq<char>| #[trigger] near(web, w.ids, x, k) implies at(w.graph, x) is Some by {
        if v.ids.contains(x) {
            assert(is_met(v, x));
        } else {
            let y = choose|y: Seq<char>|
                #[trigger] has_need(web, y, x) && near(web, v.ids, y, (k - 1) as nat);
            assert(at(v.graph, y) is Some);
            assert(has_need(v.graph, y, x));
            assert(is_met(v, x));
        }
    }
}

/// What is near by some needs is near by more of them.
proof fn lemma_near_by_more(
    a: Seq<(Seq<char>, Seq<Seq<char>>)>,
    b: Seq<(Seq<char>, Seq<Seq<char>>)>,
    ids: Seq<Seq<char>>,
    x: Seq<char>,
    n: nat,
)
    requires
        near(a, ids, x, n),
        forall|y: Seq<char>, z: Seq<char>| #[trigger] has_need(a, y, z) ==> has_need(b, y, z),
    ensures
        near(b, ids, x, n),
    decreases n,
{
    if !ids.contains(x) {
        let y = choose|y: Seq<char>|
            #[trigger] has_need(a, y, x) && near(a, ids, y, (n - 1) as nat);
        lemma_near_by_more(a, b, ids, y, (n - 1) as nat);
        assert(has_need(b, y, x));
    }
}

/// Once nothing is left to be asked, what is near enough is in the order, and known
/// where it is nearer than the depth.
proof fn lemma_near_is_ordered(
    v: LevelsView,
    web: Seq<(Seq<char>, Seq<Seq<char>>)>,
    depth: nat,
    x: Seq<char>,
    n: nat,
)
    requires
        is_explored(v, web, depth),
        next_batch(v).len() == 0,
        n <= depth,
        near(web, v.ids, x, n),
    ensures
        install_order(v.graph, v.ids).contains(x),
        n < depth ==> at(v.graph, x) is Some,
    decreases n,
{
    let order = install_order(v.graph, v.ids);
    law_install_order_is_complete(v.graph, v.ids);
    lemma_unknown(v.level, v.graph);
    let rest = unknown(v.level, v.graph);
    if v.left > 0 && v.level.contains(x) && at(v.graph, x) is None {
        assert(rest.contains(x));
    }
    if v.ids.contains(x) {
        let k = choose|k: int| 0 <= k < v.ids.len() && v.ids[k] == x;
        assert(order.contains(v.ids[k]));
        assert(is_met(v, x));
    } else {
        let y = choose|y: Seq<char>|
            #[trigger] has_need(web, y, x) && near(web, v.ids, y, (n - 1) as nat);
        lemma_near_is_ordered(v, web, depth, y, (n - 1) as nat);
        assert(at(v.graph, y) is Some);
        assert(has_need(v.graph, y, x));
        assert(is_met(v, x));
    }
    if v.left == 0 && n < depth {
        lemma_near_grows(web, web, v.ids, x, n, (depth - 1) as nat);
        assert(near(web, v.ids, x, (depth - v.left - 1) as nat));
    }
}

/// Once nothing is left to be asked, the order holds the requested items and what
/// is reached from them by at most as many steps as levels were allowed: all of it,
/// and nothing else.
pub proof fn law_order_holds_what_is_within_depth(
    v: LevelsView,
    web: Seq<(Seq<char>, Seq<Seq<char>>)>,
    depth: nat,
)
    requires
        within_depth(v, depth),
        is_explored(v, web, depth),
        next_batch(v).len() == 0,
    ensures
        forall|x: Seq<char>|
            #[trigger] install_order(v.graph, v.ids).contains(x) <==> near(web, v.ids, x, depth),
{
    law_order_stays_within_depth(v, depth);
    assert forall|x: Seq<char>| #[trigger] install_order(v.graph, v.ids).contains(x) <==> near(
        web,
        v.ids,
        x,
        depth,
    ) by {
        if install_order(v.graph, v.ids).contains(x) {
            assert forall|y: Seq<char>, z: Seq<char>| #[trigger] has_need(
                v.graph,
                y,
                z,
            ) implies has_need(web, y, z) by {
                assert(at(v.graph, y) == Some(needs_of(web, y)));
            }
            lemma_near_by_more(v.graph, web, v.ids, x, depth);
        }
        if near(web, v.ids, x, depth) {
            lemma_near_is_ordered(v, web, depth, x, depth);
        }
    }
}

} // verus!
