//! What is seen of a search for a faulty mod: how it stands, and whom it found.
use vstd::arithmetic::power2::pow2;
use vstd::prelude::*;

use crate::bisect::{
    common, mark_view, minus, op_of, reply_document, remaining, shown, split_state, start_view,
    state_view, view_document, BisectOp, MarkModel, ViewModel,
};
use crate::bisect_laws::{
    after_true_answers, law_found_state_fields, law_search_ends_at_the_culprit,
    law_split_state_fields,
};
use crate::json::{
    lemma_fields_lookup, object_of, text_array, JsonView, NumberView,
};
use crate::names::listed;

verus! {

proof fn lemma_common_is_filter(a: Seq<Seq<char>>, b: Seq<Seq<char>>)
    ensures
        common(a, b) == a.filter(|x: Seq<char>| b.contains(x)),
        minus(a, b) == a.filter(|x: Seq<char>| !b.contains(x)),
    decreases a.len(),
{
    reveal(Seq::filter);
    if a.len() > 0 {
        lemma_common_is_filter(a.drop_last(), b);
    }
}

/// What is seen of a session is what its document says: the suspect and whether the
/// search is over, the round and the candidates; of these the ones that are enabled are
/// under test, and the others are not. It runs while there are candidates and the
/// search is not over.
pub proof fn law_a_session_is_seen_as_it_stands(m: JsonView, enabled: Seq<Seq<char>>)
    ensures
        ({
            let v = shown(state_view(Some(m), enabled));
            let c = m.strings("candidates"@);
            &&& m.field("suspect"@) matches Some(s) ==> v.suspect == s
            &&& m.field("suspect"@) is None ==> v.suspect == JsonView::Null
            &&& v.done <==> m.field("done"@) == Some(JsonView::Bool(true))
            &&& m.field("round"@) matches Some(JsonView::Number(NumberView::Unsigned(n)))
                ==> v.round == n
            &&& v.candidates == c
            &&& v.tested == c.filter(|x: Seq<char>| enabled.contains(x))
            &&& v.untested == c.filter(|x: Seq<char>| !enabled.contains(x))
            &&& v.enabled_now == enabled
            &&& v.running <==> c.len() > 0 && !v.done
        }),
{
    let c = m.strings("candidates"@);
    lemma_common_is_filter(c, enabled);
    let v = shown(state_view(Some(m), enabled));
    if m.field("candidates"@) is None {
        assert(crate::json::strings_among(seq![]) =~= seq![]);
    }
    assert(v.candidates =~= c);
}

/// Without a session nothing runs, nothing is suspected, and what is enabled is seen.
pub proof fn law_without_a_session_nothing_is_suspected(enabled: Seq<Seq<char>>)
    ensures
        ({
            let v = shown(state_view(None, enabled));
            &&& !v.running && !v.done
            &&& v.round == 0
            &&& v.suspect == JsonView::Null
            &&& v.candidates.len() == 0 && v.tested.len() == 0 && v.untested.len() == 0
            &&& v.enabled_now == enabled
        }),
{
    let v = shown(state_view(None, enabled));
    assert(v.candidates =~= seq![]);
}

/// An answer that leaves one candidate ends the search, and what is seen then names
/// that candidate.
pub proof fn law_the_last_candidate_is_the_suspect(
    m: JsonView,
    bad: bool,
    enabled: Seq<Seq<char>>,
)
    requires
        m.wf(),
        mark_view(m, bad) is Ok,
        !m.flag("done"@),
        remaining(m, bad).len() == 1,
    ensures
        mark_view(m, bad) matches Ok(MarkModel::Found { state }) && {
            let v = shown(state_view(Some(state), enabled));
            &&& v.done && !v.running
            &&& v.suspect == JsonView::Str(remaining(m, bad)[0])
            &&& v.candidates == seq![remaining(m, bad)[0]]
        },
{
    let c = remaining(m, bad);
    if !(m is Object) {
        assert(m.list("current_tested"@) =~= seq![]);
        assert(m.list("current_untested"@) =~= seq![]);
    }
    law_found_state_fields(m, c[0]);
    let s = mark_view(m, bad)->Ok_0->Found_state;
    law_a_session_is_seen_as_it_stands(s, enabled);
}

/// An answer that leaves more goes on: what is seen then has the candidates that are
/// left, in their listing order, no suspect where there was none, and the next round.
pub proof fn law_the_next_round_is_seen(m: JsonView, bad: bool, enabled: Seq<Seq<char>>)
    requires
        m.wf(),
        mark_view(m, bad) is Ok,
        !m.flag("done"@),
        remaining(m, bad).len() > 1,
    ensures
        mark_view(m, bad) matches Ok(MarkModel::Split { state, moves }) && {
            let v = shown(state_view(Some(state), enabled));
            &&& !v.done && v.running
            &&& v.candidates == listed(remaining(m, bad))
            &&& v.suspect == shown(state_view(Some(m), enabled)).suspect
            &&& m.field("round"@) matches Some(JsonView::Number(NumberView::Unsigned(n))) ==> (n
                == u64::MAX || v.round == n + 1)
        },
{
    let c = remaining(m, bad);
    if !(m is Object) {
        assert(m.list("current_tested"@) =~= seq![]);
        assert(m.list("current_untested"@) =~= seq![]);
    }
    crate::names::law_listed_keeps_names(c);
    law_split_state_fields(m, listed(c));
    law_a_session_is_seen_as_it_stands(split_state(m, listed(c)), enabled);
}

/// At its end a search names the culprit: once as many true answers were given as it
/// takes to halve the candidates down to one, what is seen has the culprit as its
/// suspect.
pub proof fn law_the_culprit_is_seen(
    names: Option<Seq<Seq<char>>>,
    on: Seq<Seq<char>>,
    off: Seq<Seq<char>>,
    culprit: Seq<char>,
    k: nat,
    enabled: Seq<Seq<char>>,
)
    requires
        start_view(names, false, on, off) matches Ok(s) && s.state.strings("candidates"@).contains(
            culprit,
        ) && s.state.strings("candidates"@).len() <= pow2(k),
    ensures
        start_view(names, false, on, off) matches Ok(s) && {
            let v = shown(state_view(Some(after_true_answers(s.state, culprit, k)), enabled));
            v.done && v.suspect == JsonView::Str(culprit)
        },
{
    law_search_ends_at_the_culprit(names, on, off, culprit, k);
    let m = after_true_answers(start_view(names, false, on, off)->Ok_0.state, culprit, k);
    law_a_session_is_seen_as_it_stands(m, enabled);
}

proof fn lemma_view_keys()
    ensures
        "ready"@.len() == 5,
        "running"@.len() == 7,
        "round"@.len() == 5,
        "candidates"@.len() == 10,
        "tested"@.len() == 6,
        "untested"@.len() == 8,
        "suspect"@.len() == 7,
        "enabled_now"@.len() == 11,
        "done"@.len() == 4,
        "ready"@ != "round"@,
        "running"@ != "suspect"@,
{
    reveal_strlit("ready");
    reveal_strlit("running");
    reveal_strlit("round");
    reveal_strlit("candidates");
    reveal_strlit("tested");
    reveal_strlit("untested");
    reveal_strlit("suspect");
    reveal_strlit("enabled_now");
    reveal_strlit("done");
    assert("ready"@[1] != "round"@[1]);
    assert("running"@[0] != "suspect"@[0]);
}

/// The document tells the whole view, each part under its name.
pub open spec fn tells_view(m: JsonView, v: ViewModel) -> bool {
    &&& m.field("ready"@) == Some(JsonView::Bool(true))
    &&& m.field("running"@) == Some(JsonView::Bool(v.running))
    &&& m.field("round"@) == Some(JsonView::Number(NumberView::Unsigned(v.round)))
    &&& m.field("candidates"@) == Some(text_array(v.candidates))
    &&& m.field("tested"@) == Some(text_array(v.tested))
    &&& m.field("untested"@) == Some(text_array(v.untested))
    &&& m.field("suspect"@) == Some(v.suspect)
    &&& m.field("enabled_now"@) == Some(text_array(v.enabled_now))
    &&& m.field("done"@) == Some(JsonView::Bool(v.done))
}

/// What is answered tells the whole view; where something was done, under `state`, and
/// that it went well.
pub proof fn law_the_answer_tells_the_view(op: BisectOp, v: ViewModel)
    ensures
        ({
            let r = reply_document(op, v);
            if op == BisectOp::View {
                tells_view(r, v)
            } else {
                r.field("ok"@) == Some(JsonView::Bool(true)) && (r.field("state"@) matches Some(s)
                    && tells_view(s, v))
            }
        }),
{
    lemma_view_keys();
    let f = seq![
        ("ready"@, JsonView::Bool(true)),
        ("running"@, JsonView::Bool(v.running)),
        ("round"@, JsonView::Number(NumberView::Unsigned(v.round))),
        ("candidates"@, text_array(v.candidates)),
        ("tested"@, text_array(v.tested)),
        ("untested"@, text_array(v.untested)),
        ("suspect"@, v.suspect),
        ("enabled_now"@, text_array(v.enabled_now)),
        ("done"@, JsonView::Bool(v.done)),
    ];
    assert(view_document(v) == object_of(f));
    lemma_fields_lookup(f, 0);
    lemma_fields_lookup(f, 1);
    lemma_fields_lookup(f, 2);
    lemma_fields_lookup(f, 3);
    lemma_fields_lookup(f, 4);
    lemma_fields_lookup(f, 5);
    lemma_fields_lookup(f, 6);
    lemma_fields_lookup(f, 7);
    lemma_fields_lookup(f, 8);
    reveal_strlit("ok");
    reveal_strlit("state");
    let g = seq![("ok"@, JsonView::Bool(true)), ("state"@, view_document(v))];
    lemma_fields_lookup(g, 0);
    lemma_fields_lookup(g, 1);
}

/// Each word asks for what it says, and no other word asks for anything.
pub proof fn law_every_word_asks_for_what_it_says(op: Seq<char>)
    ensures
        op == "start"@ <==> op_of(op) == Ok::<BisectOp, Seq<char>>(BisectOp::Start),
        op == "bad"@ <==> op_of(op) == Ok::<BisectOp, Seq<char>>(BisectOp::Mark(true)),
        op == "good"@ <==> op_of(op) == Ok::<BisectOp, Seq<char>>(BisectOp::Mark(false)),
        op == "stop"@ <==> op_of(op) == Ok::<BisectOp, Seq<char>>(BisectOp::Stop),
        op == "view"@ || op.len() == 0 <==> op_of(op) == Ok::<BisectOp, Seq<char>>(BisectOp::View),
{
    reveal_strlit("view");
    reveal_strlit("start");
    reveal_strlit("bad");
    reveal_strlit("good");
    reveal_strlit("stop");
    assert("view"@[0] != "good"@[0] && "view"@[0] != "stop"@[0] && "good"@[0] != "stop"@[0]);
}

} // verus!
