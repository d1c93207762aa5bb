//! What a search for a faulty mod promises as a whole: it ends at the culprit,
//! and stopping it puts every folder back.
use vstd::arithmetic::power2::{lemma2_to64, lemma_pow2_unfold, pow2};
use vstd::prelude::*;

use crate::bisect::{
    absent, asked_for, both, common, enabled_names, first_fault, first_state, first_stray, found_state, half,
    installed_view, left_half, mark_view, moved, next_round, object_fields, recorded, remaining, right_half,
    round_moves, split_state, start_candidates, start_view, stop_moves, stop_view, touched,
    MarkModel, lemma_keys, lemma_mark_keeps_documents,
};
use crate::deps::{firsts, law_firsts};
use crate::folder::{folder_check, Direction};
use crate::json::{
    law_with_field, lemma_fields_lookup, lemma_fields_of_sound, lemma_text_array, lookup,
    object_of, sound, text_array, with_field, JsonView, NumberView, MAX_NESTING,
};
use crate::layout::{
    after_moves, is_bare, law_checked_names_are_bare, law_moves_take_folders_where_asked, wanted,
    Layout,
};
use crate::names::{law_listed_keeps_names, law_listing_order_is_a_permutation, listed, listing_order};
use crate::state::lemma_nests_more;
use crate::text::trimmed;

verus! {

/// `on` and `off` list the folders of `l`.
pub open spec fn lists(l: Layout, on: Seq<Seq<char>>, off: Seq<Seq<char>>) -> bool {
    &&& forall|f: Seq<char>| #[trigger] on.contains(f) <==> l.mods.contains(f)
    &&& forall|f: Seq<char>| #[trigger] off.contains(f) <==> l.off.contains(f)
}

pub proof fn lemma_common(a: Seq<Seq<char>>, b: Seq<Seq<char>>)
    ensures
        forall|x: Seq<char>|
            #[trigger] common(a, b).contains(x) <==> a.contains(x) && b.contains(x),
    decreases a.len(),
{
    if a.len() > 0 {
        let t = a.drop_last();
        lemma_common(t, b);
        let c = common(t, b);
        let r = common(a, b);
        assert forall|x: Seq<char>| #[trigger] r.contains(x) <==> a.contains(x) && b.contains(
            x,
        ) by {
            if r.contains(x) {
                let i = choose|i: int| 0 <= i < r.len() && r[i] == x;
                if i < c.len() {
                    assert(c[i] == x);
                    assert(c.contains(x));
                    let j = choose|j: int| 0 <= j < t.len() && t[j] == x;
                    assert(a[j] == x);
                } else {
                    assert(a[a.len() - 1] == x);
                }
            }
            if a.contains(x) && b.contains(x) {
                let j = choose|j: int| 0 <= j < a.len() && a[j] == x;
                if j < t.len() {
                    assert(t[j] == x);
                    assert(c.contains(x));
                    let i = choose|i: int| 0 <= i < c.len() && c[i] == x;
                    assert(r[i] == x);
                } else {
                    assert(r[c.len() as int] == x);
                }
            }
        }
    }
}

pub proof fn lemma_enabled_names(installed: Seq<(Seq<char>, bool)>)
    ensures
        forall|f: Seq<char>|
            #[trigger] enabled_names(installed).contains(f) <==> installed.contains((f, true)),
    decreases installed.len(),
{
    if installed.len() > 0 {
        let t = installed.drop_last();
        lemma_enabled_names(t);
        let c = enabled_names(t);
        let r = enabled_names(installed);
        assert forall|f: Seq<char>| #[trigger] r.contains(f) <==> installed.contains((f, true)) by {
            if r.contains(f) {
                let i = choose|i: int| 0 <= i < r.len() && r[i] == f;
                if i < c.len() {
                    assert(c[i] == f);
                    assert(c.contains(f));
                    let j = choose|j: int| 0 <= j < t.len() && t[j] == (f, true);
                    assert(installed[j] == (f, true));
                } else {
                    assert(installed[installed.len() - 1] == (f, true));
                }
            }
            if installed.contains((f, true)) {
                let j = choose|j: int| 0 <= j < installed.len() && installed[j] == (f, true);
                if j < t.len() {
                    assert(t[j] == (f, true));
                    assert(t.contains((f, true)));
                    assert(c.contains(f));
                    let i = choose|i: int| 0 <= i < c.len() && c[i] == f;
                    assert(r[i] == f);
                } else {
                    assert(r[c.len() as int] == f);
                }
            }
        }
    }
}

/// What is listed as installed is what stands on disk: every folder, with the
/// place where it stands.
pub proof fn law_installed_is_the_layout(l: Layout, on: Seq<Seq<char>>, off: Seq<Seq<char>>)
    requires
        l.apart(),
        lists(l, on, off),
    ensures
        installed_view(on, off) == Ok::<Seq<(Seq<char>, bool)>, Seq<char>>(both(on, off)),
        forall|f: Seq<char>| #[trigger] both(on, off).contains((f, true)) <==> l.mods.contains(f),
        forall|f: Seq<char>| #[trigger] both(on, off).contains((f, false)) <==> l.off.contains(f),
        forall|f: Seq<char>|
            #[trigger] enabled_names(both(on, off)).contains(f) <==> l.mods.contains(f),
{
    law_firsts(on);
    law_firsts(off);
    lemma_common(firsts(on), off);
    let clash = common(firsts(on), off);
    if clash.len() > 0 {
        assert(clash.contains(clash[0]));
        assert(l.mods.contains(clash[0]) && l.off.contains(clash[0]));
    }
    let a = firsts(on);
    let b = firsts(off);
    let names = a + b;
    let o = listing_order(names);
    let r = both(on, off);
    law_listing_order_is_a_permutation(names);
    assert forall|f: Seq<char>| #[trigger] r.contains((f, true)) <==> l.mods.contains(f) by {
        if r.contains((f, true)) {
            let i = choose|i: int| 0 <= i < r.len() && r[i] == (f, true);
            assert(0 <= o[i] < names.len());
            assert(a[o[i]] == f);
            assert(a.contains(f));
        }
        if l.mods.contains(f) {
            assert(on.contains(f) && a.contains(f));
            let k = choose|k: int| 0 <= k < a.len() && a[k] == f;
            assert(o.contains(k));
            let i = choose|i: int| 0 <= i < o.len() && o[i] == k;
            assert(r[i] == (f, true));
        }
    }
    assert forall|f: Seq<char>| #[trigger] r.contains((f, false)) <==> l.off.contains(f) by {
        if r.contains((f, false)) {
            let i = choose|i: int| 0 <= i < r.len() && r[i] == (f, false);
            assert(0 <= o[i] < names.len());
            assert(b[o[i] - a.len()] == f);
            assert(b.contains(f));
        }
        if l.off.contains(f) {
            assert(off.contains(f) && b.contains(f));
            let k = choose|k: int| 0 <= k < b.len() && b[k] == f;
            assert(names[k + a.len()] == f);
            assert(o.contains(k + a.len()));
            let i = choose|i: int| 0 <= i < o.len() && o[i] == k + a.len();
            assert(r[i] == (f, false));
        }
    }
    lemma_enabled_names(r);
}

/// The document of a first round tells what it was made of.
pub proof fn law_first_state_fields(c: Seq<Seq<char>>, original: Seq<Seq<char>>)
    ensures
        ({
            let m = first_state(c, original);
            &&& sound(m, 2)
            &&& m.field("original_enabled"@) == Some(text_array(original))
            &&& m.strings("original_enabled"@) == original
            &&& m.strings("candidates"@) == c
            &&& m.strings("current_tested"@) == left_half(c)
            &&& m.strings("current_untested"@) == right_half(c)
            &&& m.strings("snapshot"@) == c
            &&& m.field("suspect"@) == Some(JsonView::Null)
            &&& !m.flag("done"@)
        }),
{
    lemma_keys();
    let f = seq![
        ("round"@, JsonView::Number(NumberView::Unsigned(1))),
        ("candidates"@, text_array(c)),
        ("current_tested"@, text_array(left_half(c))),
        ("current_untested"@, text_array(right_half(c))),
        ("original_enabled"@, text_array(original)),
        ("snapshot"@, text_array(c)),
        ("suspect"@, JsonView::Null),
        ("done"@, JsonView::Bool(false)),
    ];
    assert(first_state(c, original) == object_of(f));
    lemma_text_array(c);
    lemma_text_array(left_half(c));
    lemma_text_array(right_half(c));
    lemma_text_array(original);
    lemma_fields_of_sound(f, 1);
    lemma_fields_lookup(f, 1);
    lemma_fields_lookup(f, 2);
    lemma_fields_lookup(f, 3);
    lemma_fields_lookup(f, 4);
    lemma_fields_lookup(f, 5);
    lemma_fields_lookup(f, 6);
    lemma_fields_lookup(f, 7);
}

/// The document of a later round: the candidates and their halves are new, and
/// what was enabled at the start, and who was ever a candidate, is kept.
pub proof fn law_split_state_fields(m: JsonView, c: Seq<Seq<char>>)
    requires
        m is Object,
        m.wf(),
    ensures
        ({
            let s = split_state(m, c);
            &&& s.field("original_enabled"@) == m.field("original_enabled"@)
            &&& s.field("snapshot"@) == m.field("snapshot"@)
            &&& s.field("suspect"@) == m.field("suspect"@)
            &&& s.field("done"@) == m.field("done"@)
            &&& s.field("round"@) == Some(JsonView::Number(NumberView::Unsigned(next_round(m))))
            &&& s.strings("candidates"@) == c
            &&& s.strings("current_tested"@) == left_half(c)
            &&& s.strings("current_untested"@) == right_half(c)
        }),
{
    lemma_keys();
    lemma_text_array(c);
    lemma_text_array(left_half(c));
    lemma_text_array(right_half(c));
    let r = JsonView::Number(NumberView::Unsigned(next_round(m)));
    let p0 = object_fields(m);
    law_with_field(p0, "round"@, r);
    let p1 = with_field(p0, "round"@, r);
    law_with_field(p1, "candidates"@, text_array(c));
    let p2 = with_field(p1, "candidates"@, text_array(c));
    law_with_field(p2, "current_tested"@, text_array(left_half(c)));
    let p3 = with_field(p2, "current_tested"@, text_array(left_half(c)));
    law_with_field(p3, "current_untested"@, text_array(right_half(c)));
    let p4 = with_field(p3, "current_untested"@, text_array(right_half(c)));
    assert(lookup(p4, "original_enabled"@) == lookup(p3, "original_enabled"@));
    assert(lookup(p4, "candidates"@) == lookup(p3, "candidates"@));
    assert(lookup(p3, "candidates"@) == lookup(p2, "candidates"@));
    assert(lookup(p4, "current_tested"@) == lookup(p3, "current_tested"@));
}

/// The document of a session that has ended: its suspect, and what it needs to
/// put the folders back.
pub proof fn law_found_state_fields(m: JsonView, suspect: Seq<char>)
    requires
        m is Object,
        m.wf(),
    ensures
        ({
            let s = found_state(m, suspect);
            &&& s.field("original_enabled"@) == m.field("original_enabled"@)
            &&& s.field("snapshot"@) == m.field("snapshot"@)
            &&& s.field("suspect"@) == Some(JsonView::Str(suspect))
            &&& s.flag("done"@)
            &&& s.strings("candidates"@) == seq![suspect]
            &&& s.strings("current_tested"@) == Seq::<Seq<char>>::empty()
            &&& s.strings("current_untested"@) == Seq::<Seq<char>>::empty()
        }),
{
    lemma_keys();
    lemma_text_array(seq![suspect]);
    lemma_text_array(seq![]);
    let a = text_array(seq![suspect]);
    let e = text_array(seq![]);
    let p0 = object_fields(m);
    law_with_field(p0, "candidates"@, a);
    let p1 = with_field(p0, "candidates"@, a);
    law_with_field(p1, "current_tested"@, e);
    let p2 = with_field(p1, "current_tested"@, e);
    law_with_field(p2, "current_untested"@, e);
    let p3 = with_field(p2, "current_untested"@, e);
    law_with_field(p3, "suspect"@, JsonView::Str(suspect));
    let p4 = with_field(p3, "suspect"@, JsonView::Str(suspect));
    law_with_field(p4, "done"@, JsonView::Bool(true));
    let p5 = with_field(p4, "done"@, JsonView::Bool(true));
    assert(lookup(p5, "candidates"@) == lookup(p4, "candidates"@));
    assert(lookup(p4, "candidates"@) == lookup(p3, "candidates"@));
    assert(lookup(p3, "candidates"@) == lookup(p2, "candidates"@));
    assert(lookup(p5, "current_tested"@) == lookup(p4, "current_tested"@));
    assert(lookup(p4, "current_tested"@) == lookup(p3, "current_tested"@));
    assert(lookup(p5, "current_untested"@) == lookup(p4, "current_untested"@));
    assert(lookup(p5, "suspect"@) == lookup(p4, "suspect"@));
    assert(lookup(p5, "original_enabled"@) == lookup(p4, "original_enabled"@));
    assert(lookup(p4, "original_enabled"@) == lookup(p3, "original_enabled"@));
}

/// A document with something under a field is an object.
proof fn lemma_strings_of_object(m: JsonView, key: Seq<char>)
    requires
        m.strings(key).len() > 0,
    ensures
        m is Object,
{
    if !(m is Object) {
        assert(m.list(key) =~= seq![]);
    }
}

/// The two halves of a round: together the candidates, the first at most one
/// greater than the second, and neither empty while there are two candidates.
pub proof fn law_halves(c: Seq<Seq<char>>)
    ensures
        left_half(c) + right_half(c) == c,
        left_half(c).len() == half(c.len()),
        left_half(c).len() - right_half(c).len() <= 1,
        right_half(c).len() <= left_half(c).len(),
        c.len() >= 2 ==> 1 <= left_half(c).len() < c.len() && 1 <= right_half(c).len() < c.len(),
        forall|f: Seq<char>|
            c.contains(f) <==> #[trigger] left_half(c).contains(f) || right_half(c).contains(f),
        c.no_duplicates() ==> forall|f: Seq<char>|
            !(#[trigger] left_half(c).contains(f) && right_half(c).contains(f)),
{
    let n = half(c.len()) as int;
    assert(left_half(c) + right_half(c) =~= c);
    assert forall|f: Seq<char>|
        c.contains(f) <==> #[trigger] left_half(c).contains(f) || right_half(c).contains(f) by {
        if c.contains(f) {
            let i = choose|i: int| 0 <= i < c.len() && c[i] == f;
            if i < n {
                assert(left_half(c)[i] == f);
            } else {
                assert(right_half(c)[i - n] == f);
            }
        }
        if left_half(c).contains(f) {
            let i = choose|i: int| 0 <= i < left_half(c).len() && left_half(c)[i] == f;
            assert(c[i] == f);
        }
        if right_half(c).contains(f) {
            let i = choose|i: int| 0 <= i < right_half(c).len() && right_half(c)[i] == f;
            assert(c[i + n] == f);
        }
    }
    if c.no_duplicates() {
        assert forall|f: Seq<char>|
            !(#[trigger] left_half(c).contains(f) && right_half(c).contains(f)) by {
            if left_half(c).contains(f) && right_half(c).contains(f) {
                let i = choose|i: int| 0 <= i < left_half(c).len() && left_half(c)[i] == f;
                let j = choose|j: int| 0 <= j < right_half(c).len() && right_half(c)[j] == f;
                assert(c[i] == c[j + n]);
            }
        }
    }
}

/// The fault is among the candidates of the round: in the half under test or in
/// the other one, and in one of them only.
pub open spec fn hunts(m: JsonView, culprit: Seq<char>) -> bool {
    let t = m.strings("current_tested"@);
    let u = m.strings("current_untested"@);
    &&& t.no_duplicates() && u.no_duplicates()
    &&& t.contains(culprit) != u.contains(culprit)
}

/// A true answer keeps the culprit: where one candidate is left it is the
/// culprit, and else the next round still hunts it, among half as many.
pub proof fn law_true_answers_lead_to_the_culprit(m: JsonView, bad: bool, culprit: Seq<char>)
    requires
        m.wf(),
        hunts(m, culprit),
        bad == m.strings("current_tested"@).contains(culprit),
    ensures
        mark_view(m, bad) matches Ok(MarkModel::Found { state }) ==> state.field("suspect"@)
            == Some(JsonView::Str(culprit)) && state.flag("done"@) && state.strings("candidates"@)
            == seq![culprit],
        mark_view(m, bad) matches Ok(MarkModel::Split { state, moves }) ==> hunts(state, culprit)
            && state.strings("candidates"@).contains(culprit)
            && state.strings("current_tested"@).len() == half(remaining(m, bad).len())
            && state.strings("current_untested"@).len() + state.strings("current_tested"@).len()
            == remaining(m, bad).len(),
{
    let c = remaining(m, bad);
    assert(c.contains(culprit));
    lemma_strings_of_object(m, if bad { "current_tested"@ } else { "current_untested"@ });
    law_found_state_fields(m, c[0]);
    let l = listed(c);
    law_listed_keeps_names(c);
    law_split_state_fields(m, l);
    law_halves(l);
    assert(l.contains(culprit));
    assert(left_half(l).contains(culprit) || right_half(l).contains(culprit));
    assert(left_half(l).no_duplicates() && right_half(l).no_duplicates());
    if c.len() == 1 {
        let i = choose|i: int| 0 <= i < c.len() && c[i] == culprit;
        assert(i == 0);
    }
}

/// The two lists of a round are the halves of its candidates.
pub open spec fn is_halved(m: JsonView) -> bool {
    &&& m.strings("current_tested"@) == left_half(m.strings("candidates"@))
    &&& m.strings("current_untested"@) == right_half(m.strings("candidates"@))
}

/// Every answer leaves at most the greater half of the candidates, and the lists of
/// the next round are again the halves of what is left.
pub proof fn law_every_answer_halves_the_candidates(m: JsonView, bad: bool)
    requires
        m.wf(),
        is_halved(m),
    ensures
        mark_view(m, bad) matches Ok(MarkModel::Found { state }) ==> state.strings(
            "candidates"@,
        ).len() == 1,
        mark_view(m, bad) matches Ok(MarkModel::Split { state, moves }) ==> is_halved(state)
            && state.strings("candidates"@).len() <= half(m.strings("candidates"@).len()),
{
    let c = remaining(m, bad);
    law_halves(m.strings("candidates"@));
    if c.len() > 0 {
        lemma_strings_of_object(m, if bad { "current_tested"@ } else { "current_untested"@ });
        law_found_state_fields(m, c[0]);
        law_listed_keeps_names(c);
        law_split_state_fields(m, listed(c));
    }
}

/// The first round of a session tests one half of its candidates.
pub proof fn law_start_halves_the_candidates(c: Seq<Seq<char>>, original: Seq<Seq<char>>)
    ensures
        is_halved(first_state(c, original)),
{
    law_first_state_fields(c, original);
}

/// A session that just began hunts every one of its candidates.
pub proof fn law_start_hunts_every_candidate(c: Seq<Seq<char>>, original: Seq<Seq<char>>, f: Seq<char>)
    requires
        c.no_duplicates(),
        c.contains(f),
    ensures
        hunts(first_state(c, original), f),
{
    law_first_state_fields(c, original);
    law_halves(c);
    assert(left_half(c).contains(f) || right_half(c).contains(f));
}

/// A session over the layout `l0`, with the folders standing as in `l` now:
/// its document tells what was enabled at the start, and a folder that stands
/// elsewhere than at the start was once a candidate.
pub open spec fn in_session(l0: Layout, l: Layout, m: JsonView) -> bool {
    &&& m.wf()
    &&& l0.apart()
    &&& l.apart()
    &&& m.field("original_enabled"@) matches Some(JsonView::Array(_))
    &&& forall|f: Seq<char>|
        #[trigger] m.strings("original_enabled"@).contains(f) <==> l0.mods.contains(f)
    &&& forall|f: Seq<char>|
        #[trigger] m.strings("snapshot"@).contains(f) ==> l0.has(f) && is_bare(f)
    &&& forall|f: Seq<char>|
        #[trigger] m.strings("candidates"@).contains(f) ==> m.strings("snapshot"@).contains(f)
    &&& forall|f: Seq<char>|
        #[trigger] m.strings("current_tested"@).contains(f) ==> m.strings("snapshot"@).contains(f)
    &&& forall|f: Seq<char>|
        #[trigger] m.strings("current_untested"@).contains(f) ==> m.strings("snapshot"@).contains(
            f,
        )
    &&& forall|f: Seq<char>|
        l0.has(f) && #[trigger] l.has(f) && l.mods.contains(f) != l0.mods.contains(f)
            ==> m.strings("snapshot"@).contains(f)
}

proof fn lemma_wanted(moves: Seq<(Seq<char>, Direction)>, f: Seq<char>)
    ensures
        match wanted(moves, f) {
            Some(d) => moves.contains((f, d)),
            None => forall|i: int| 0 <= i < moves.len() ==> (#[trigger] moves[i]).0 != f,
        },
    decreases moves.len(),
{
    if moves.len() > 0 {
        let t = moves.drop_last();
        lemma_wanted(t, f);
        if moves.last().0 == f {
            assert(moves[moves.len() - 1] == (f, moves.last().1));
        } else {
            match wanted(t, f) {
                Some(d) => {
                    let i = choose|i: int| 0 <= i < t.len() && t[i] == (f, d);
                    assert(moves[i] == (f, d));
                },
                None => {
                    assert forall|i: int| 0 <= i < moves.len() implies (#[trigger] moves[i]).0
                        != f by {
                        if i < t.len() {
                            assert(t[i] == moves[i]);
                        }
                    }
                },
            }
        }
    }
}

proof fn lemma_round_moves(c: Seq<Seq<char>>, i: int)
    requires
        0 <= i < round_moves(c).len(),
    ensures
        round_moves(c).len() == c.len(),
        round_moves(c)[i].0 == c[i],
        round_moves(c)[i].1 == (if i < half(c.len()) {
            Direction::Enable
        } else {
            Direction::Disable
        }),
{
    law_halves(c);
}

/// Moves of candidates, as many as were made, leave the session as it is.
proof fn lemma_moves_stay_in_session(
    l0: Layout,
    l: Layout,
    m: JsonView,
    moves: Seq<(Seq<char>, Direction)>,
)
    requires
        in_session(l0, l, m),
        forall|i: int|
            0 <= i < moves.len() ==> m.strings("snapshot"@).contains((#[trigger] moves[i]).0),
    ensures
        in_session(l0, after_moves(l, moves), m),
{
    assert forall|i: int| 0 <= i < moves.len() implies is_bare((#[trigger] moves[i]).0) by {
        assert(m.strings("snapshot"@).contains(moves[i].0));
    }
    law_moves_take_folders_where_asked(l, moves);
    let r = after_moves(l, moves);
    assert forall|f: Seq<char>|
        l0.has(f) && #[trigger] r.has(f) && r.mods.contains(f) != l0.mods.contains(f) implies
        m.strings("snapshot"@).contains(f) by {
        lemma_wanted(moves, f);
        assert(l.has(f));
        match wanted(moves, f) {
            Some(d) => {
                let i = choose|i: int| 0 <= i < moves.len() && moves[i] == (f, d);
                assert(m.strings("snapshot"@).contains(moves[i].0));
            },
            None => {},
        }
    }
}

/// The moves of a round enable the half under test, disable the other half and
/// leave every other folder where it is.
pub proof fn law_round_enables_the_half_under_test(l: Layout, c: Seq<Seq<char>>)
    requires
        l.apart(),
        c.no_duplicates(),
        forall|f: Seq<char>| #[trigger] c.contains(f) ==> l.has(f) && is_bare(f),
    ensures
        ({
            let r = after_moves(l, round_moves(c));
            &&& forall|f: Seq<char>| #[trigger] left_half(c).contains(f) ==> r.mods.contains(f)
            &&& forall|f: Seq<char>| #[trigger] right_half(c).contains(f) ==> r.off.contains(f)
            &&& forall|f: Seq<char>|
                !c.contains(f) ==> (#[trigger] r.mods.contains(f) <==> l.mods.contains(f))
            &&& forall|f: Seq<char>| #[trigger] r.has(f) <==> l.has(f)
        }),
{
    let moves = round_moves(c);
    let r = after_moves(l, moves);
    law_halves(c);
    assert forall|i: int| 0 <= i < moves.len() implies is_bare((#[trigger] moves[i]).0) by {
        lemma_round_moves(c, i);
        assert(c.contains(moves[i].0));
    }
    law_moves_take_folders_where_asked(l, moves);
    assert forall|f: Seq<char>| #[trigger] left_half(c).contains(f) implies r.mods.contains(f) by {
        let i = choose|i: int| 0 <= i < left_half(c).len() && left_half(c)[i] == f;
        lemma_round_moves(c, i);
        lemma_wanted(moves, f);
        assert(moves[i].0 == f);
        assert(c[i] == f);
        assert(c.contains(f));
        assert(l.has(f));
        let d = wanted(moves, f)->Some_0;
        let j = choose|j: int| 0 <= j < moves.len() && moves[j] == (f, d);
        lemma_round_moves(c, j);
        assert(c[j] == c[i]);
    }
    assert forall|f: Seq<char>| #[trigger] right_half(c).contains(f) implies r.off.contains(f) by {
        let i = choose|i: int| 0 <= i < right_half(c).len() && right_half(c)[i] == f;
        let k = i + half(c.len());
        lemma_round_moves(c, k);
        lemma_wanted(moves, f);
        assert(moves[k].0 == f);
        assert(c[k] == f);
        assert(c.contains(f));
        assert(l.has(f));
        let d = wanted(moves, f)->Some_0;
        let j = choose|j: int| 0 <= j < moves.len() && moves[j] == (f, d);
        lemma_round_moves(c, j);
        assert(c[j] == c[k]);
        assert(r.has(f));
    }
    assert forall|f: Seq<char>| !c.contains(f) implies (#[trigger] r.mods.contains(f)
        <==> l.mods.contains(f)) by {
        lemma_wanted(moves, f);
        assert(r.has(f) <==> l.has(f));
        match wanted(moves, f) {
            Some(d) => {
                let j = choose|j: int| 0 <= j < moves.len() && moves[j] == (f, d);
                lemma_round_moves(c, j);
                assert(c[j] == f);
            },
            None => {},
        }
    }
}

pub proof fn lemma_first_fault(names: Seq<Seq<char>>)
    ensures
        first_fault(names) is None <==> forall|i: int|
            0 <= i < names.len() ==> folder_check(#[trigger] names[i]) is Ok,
    decreases names.len(),
{
    if names.len() > 0 {
        let t = names.drop_first();
        lemma_first_fault(t);
        if forall|i: int| 0 <= i < names.len() ==> folder_check(#[trigger] names[i]) is Ok {
            assert(folder_check(names[0]) is Ok);
            assert forall|i: int| 0 <= i < t.len() implies folder_check(#[trigger] t[i]) is Ok by {
                assert(t[i] == names[i + 1]);
            }
        }
        if first_fault(names) is None {
            assert forall|i: int| 0 <= i < names.len() implies folder_check(
                #[trigger] names[i],
            ) is Ok by {
                if i > 0 {
                    assert(names[i] == t[i - 1]);
                }
            }
        }
    }
}

proof fn lemma_asked_for(list: Seq<Seq<char>>, known: Seq<Seq<char>>)
    ensures
        asked_for(list, known) matches Ok(r) ==> forall|f: Seq<char>|
            #[trigger] r.contains(f) ==> known.contains(f) && is_bare(f),
    decreases list.len(),
{
    if list.len() > 0 {
        lemma_asked_for(list.drop_last(), known);
        match asked_for(list, known) {
            Ok(r) => {
                let t = asked_for(list.drop_last(), known)->Ok_0;
                law_checked_names_are_bare(list.last());
                assert forall|f: Seq<char>| #[trigger] r.contains(f) implies known.contains(f)
                    && is_bare(f) by {
                    let i = choose|i: int| 0 <= i < r.len() && r[i] == f;
                    if i < t.len() {
                        assert(t[i] == f);
                        assert(t.contains(f));
                    }
                }
            },
            Err(_) => {},
        }
    }
}

pub proof fn lemma_first_stray(names: Seq<Seq<char>>)
    ensures
        first_stray(names) is None <==> forall|i: int|
            0 <= i < names.len() ==> trimmed(#[trigger] names[i]) == names[i],
    decreases names.len(),
{
    if names.len() > 0 {
        let t = names.drop_first();
        lemma_first_stray(t);
        if forall|i: int| 0 <= i < names.len() ==> trimmed(#[trigger] names[i]) == names[i] {
            assert(trimmed(names[0]) == names[0]);
            assert forall|i: int| 0 <= i < t.len() implies trimmed(#[trigger] t[i]) == t[i] by {
                assert(t[i] == names[i + 1]);
            }
        }
        if first_stray(names) is None {
            assert forall|i: int| 0 <= i < names.len() implies trimmed(#[trigger] names[i])
                == names[i] by {
                if i > 0 {
                    assert(names[i] == t[i - 1]);
                }
            }
        }
    }
}

/// The candidates of a new session are folders that are installed and can be
/// moved by their names, each once, and at least two.
pub proof fn law_candidates_are_installed(
    names: Option<Seq<Seq<char>>>,
    l: Layout,
    on: Seq<Seq<char>>,
    off: Seq<Seq<char>>,
)
    requires
        l.apart(),
        lists(l, on, off),
    ensures
        start_candidates(names, both(on, off)) matches Ok(c) ==> {
            &&& c.len() >= 2
            &&& c.no_duplicates()
            &&& forall|f: Seq<char>| #[trigger] c.contains(f) ==> l.has(f) && is_bare(f)
            &&& names is None ==> forall|f: Seq<char>| #[trigger] c.contains(f) <==> l.mods.contains(f)
        },
{
    law_installed_is_the_layout(l, on, off);
    let installed = both(on, off);
    let known = installed.map_values(|p: (Seq<char>, bool)| p.0);
    assert forall|f: Seq<char>| #[trigger] known.contains(f) implies l.has(f) by {
        let i = choose|i: int| 0 <= i < known.len() && known[i] == f;
        assert(installed[i].0 == f);
        assert(installed.contains((f, installed[i].1)));
    }
    match names {
        None => {
            let c = enabled_names(installed);
            lemma_enabled_distinct(on, off);
            law_listed_keeps_names(c);
            lemma_first_fault(c);
            lemma_first_stray(c);
            assert(start_candidates(names, installed) is Ok ==> forall|f: Seq<char>|
                #[trigger] c.contains(f) ==> is_bare(f)) by {
                assert forall|f: Seq<char>|
                    start_candidates(names, installed) is Ok && #[trigger] c.contains(
                        f,
                    ) implies is_bare(f) by {
                    let i = choose|i: int| 0 <= i < c.len() && c[i] == f;
                    assert(folder_check(c[i]) is Ok && trimmed(c[i]) == c[i]);
                    law_checked_names_are_bare(f);
                }
            }
        },
        Some(list) => {
            lemma_asked_for(list, known);
            match asked_for(list, known) {
                Ok(r) => {
                    law_firsts(r);
                    law_listed_keeps_names(firsts(r));
                    assert forall|f: Seq<char>| #[trigger] listed(firsts(r)).contains(f) implies l.has(
                        f,
                    ) && is_bare(f) by {
                        assert(firsts(r).contains(f));
                        assert(r.contains(f));
                        assert(known.contains(f));
                    }
                },
                Err(_) => {},
            }
        },
    }
}

pub proof fn lemma_enabled_distinct(on: Seq<Seq<char>>, off: Seq<Seq<char>>)
    ensures
        enabled_names(both(on, off)).no_duplicates(),
{
    law_firsts(on);
    law_firsts(off);
    let names = firsts(on) + firsts(off);
    let o = listing_order(names);
    law_listing_order_is_a_permutation(names);
    let r = both(on, off);
    assert forall|i: int, j: int| 0 <= i < j < r.len() && r[i].1 && r[j].1 implies r[i].0
        != r[j].0 by {
        assert(o[i] != o[j]);
        assert(0 <= o[i] < names.len() && 0 <= o[j] < names.len());
        assert(firsts(on)[o[i]] == r[i].0);
        assert(firsts(on)[o[j]] == r[j].0);
    }
    lemma_enabled_distinct_of(r);
}

proof fn lemma_enabled_distinct_of(r: Seq<(Seq<char>, bool)>)
    requires
        forall|i: int, j: int| 0 <= i < j < r.len() && r[i].1 && r[j].1 ==> r[i].0 != r[j].0,
    ensures
        enabled_names(r).no_duplicates(),
    decreases r.len(),
{
    if r.len() > 0 {
        let t = r.drop_last();
        lemma_enabled_distinct_of(t);
        lemma_enabled_names(t);
        if r.last().1 {
            let c = enabled_names(t);
            assert(!c.contains(r.last().0)) by {
                if c.contains(r.last().0) {
                    assert(t.contains((r.last().0, true)));
                    let i = choose|i: int| 0 <= i < t.len() && t[i] == (r.last().0, true);
                    assert(r[i].0 == r[r.len() - 1].0);
                }
            }
        }
    }
}

/// The document after the answer `bad`; an answer that is refused changes nothing,
/// nor does one to a session that has ended.
pub open spec fn after_answer(m: JsonView, bad: bool) -> JsonView {
    match mark_view(m, bad) {
        Ok(MarkModel::Found { state }) => state,
        Ok(MarkModel::Split { state, moves }) => state,
        _ => m,
    }
}

/// The document after `k` answers that are true of `culprit`: the fault is there
/// just where the half under test holds it.
pub open spec fn after_true_answers(m: JsonView, culprit: Seq<char>, k: nat) -> JsonView
    decreases k,
{
    if k == 0 {
        m
    } else {
        after_true_answers(
            after_answer(m, m.strings("current_tested"@).contains(culprit)),
            culprit,
            (k - 1) as nat,
        )
    }
}

/// Answers to a session that has ended change nothing.
proof fn lemma_ended_stays(m: JsonView, culprit: Seq<char>, k: nat)
    requires
        m.flag("done"@),
    ensures
        after_true_answers(m, culprit, k) == m,
    decreases k,
{
    if k > 0 {
        lemma_ended_stays(m, culprit, (k - 1) as nat);
    }
}

/// Every name under `key` is accepted as that of a folder.
spec fn accepted(m: JsonView, key: Seq<char>) -> bool {
    forall|f: Seq<char>| #[trigger] m.strings(key).contains(f) ==> folder_check(f) is Ok
}

proof fn lemma_true_answers_end(m: JsonView, culprit: Seq<char>, k: nat)
    requires
        m.wf(),
        hunts(m, culprit),
        !m.flag("done"@),
        accepted(m, "current_tested"@),
        accepted(m, "current_untested"@),
        k > 0,
        m.strings("current_tested"@).len() <= pow2((k - 1) as nat),
        m.strings("current_untested"@).len() <= pow2((k - 1) as nat),
    ensures
        ({
            let s = after_true_answers(m, culprit, k);
            s.flag("done"@) && s.field("suspect"@) == Some(JsonView::Str(culprit))
        }),
    decreases k,
{
    let bad = m.strings("current_tested"@).contains(culprit);
    let c = remaining(m, bad);
    let next = (k - 1) as nat;
    assert(c.contains(culprit));
    lemma_strings_of_object(m, if bad { "current_tested"@ } else { "current_untested"@ });
    assert forall|i: int| 0 <= i < c.len() implies folder_check(#[trigger] c[i]) is Ok by {
        assert(c.contains(c[i]));
    }
    lemma_first_fault(c);
    law_true_answers_lead_to_the_culprit(m, bad, culprit);
    lemma_mark_keeps_documents(m, bad);
    let s = after_answer(m, bad);
    if c.len() == 1 {
        lemma_ended_stays(s, culprit, next);
    } else {
        assert(next > 0) by {
            lemma2_to64();
        }
        lemma_pow2_unfold(next);
        let l = listed(c);
        law_listed_keeps_names(c);
        law_split_state_fields(m, l);
        law_halves(l);
        assert(s.flag("done"@) == m.flag("done"@));
        assert forall|f: Seq<char>|
            #[trigger] s.strings("current_tested"@).contains(f) implies folder_check(f) is Ok by {
            assert(left_half(l).contains(f));
            assert(l.contains(f) && c.contains(f));
        }
        assert forall|f: Seq<char>|
            #[trigger] s.strings("current_untested"@).contains(f) implies folder_check(f) is Ok by {
            assert(right_half(l).contains(f));
            let left = left_half(l).contains(f);
            assert(l.contains(f) && c.contains(f));
        }
        lemma_true_answers_end(s, culprit, next);
    }
}

/// A search ends at the culprit: among n candidates, as many true answers as it
/// takes to halve n down to one are enough. The suspect that is then named is the
/// culprit, and no further answer moves anything.
pub proof fn law_search_ends_at_the_culprit(
    names: Option<Seq<Seq<char>>>,
    on: Seq<Seq<char>>,
    off: Seq<Seq<char>>,
    culprit: Seq<char>,
    k: nat,
)
    requires
        start_view(names, false, on, off) matches Ok(s) && s.state.strings("candidates"@).contains(
            culprit,
        ) && s.state.strings("candidates"@).len() <= pow2(k),
    ensures
        start_view(names, false, on, off) matches Ok(s) && {
            let m = after_true_answers(s.state, culprit, k);
            &&& m.flag("done"@)
            &&& m.field("suspect"@) == Some(JsonView::Str(culprit))
            &&& forall|bad: bool|
                #[trigger] mark_view(m, bad) == Ok::<MarkModel, Seq<char>>(MarkModel::Finished)
        },
{
    let installed = both(on, off);
    let original = enabled_names(installed);
    let c = start_candidates(names, installed)->Ok_0;
    let asked = match names {
        None => original,
        Some(list) => firsts(
            asked_for(list, installed.map_values(|p: (Seq<char>, bool)| p.0))->Ok_0,
        ),
    };
    lemma_enabled_distinct(on, off);
    if let Some(list) = names {
        law_firsts(asked_for(list, installed.map_values(|p: (Seq<char>, bool)| p.0))->Ok_0);
    }
    law_listed_keeps_names(asked);
    lemma_first_fault(asked);
    law_first_state_fields(c, original);
    law_halves(c);
    law_start_hunts_every_candidate(c, original, culprit);
    let m = first_state(c, original);
    assert forall|f: Seq<char>| #[trigger] c.contains(f) implies folder_check(f) is Ok by {
        assert(asked.contains(f));
        let i = choose|i: int| 0 <= i < asked.len() && asked[i] == f;
        assert(folder_check(asked[i]) is Ok);
    }
    assert forall|f: Seq<char>| #[trigger] m.strings("current_untested"@).contains(f) implies
        folder_check(f) is Ok by {
        let left = left_half(c).contains(f);
        assert(c.contains(f));
    }
    assert(k > 0) by {
        lemma2_to64();
    }
    lemma_pow2_unfold(k);
    lemma_true_answers_end(m, culprit, k);
}

/// Starting a session opens one: once its moves are made and its document is
/// written, stopping it will find what it needs.
pub proof fn law_start_opens_a_session(
    names: Option<Seq<Seq<char>>>,
    l0: Layout,
    on: Seq<Seq<char>>,
    off: Seq<Seq<char>>,
)
    requires
        l0.apart(),
        lists(l0, on, off),
    ensures
        start_view(names, false, on, off) matches Ok(s) ==> in_session(
            l0,
            after_moves(l0, s.moves),
            s.state,
        ),
{
    law_installed_is_the_layout(l0, on, off);
    law_candidates_are_installed(names, l0, on, off);
    match start_candidates(names, both(on, off)) {
        Ok(c) => {
            let original = enabled_names(both(on, off));
            law_first_state_fields(c, original);
            law_halves(c);
            let m = first_state(c, original);
            assert(in_session(l0, l0, m));
            let moves = round_moves(c);
            assert forall|i: int| 0 <= i < moves.len() implies m.strings("snapshot"@).contains(
                (#[trigger] moves[i]).0,
            ) by {
                lemma_round_moves(c, i);
                assert(c[i] == moves[i].0);
            }
            lemma_moves_stay_in_session(l0, l0, m, moves);
        },
        Err(_) => {},
    }
}

/// An answer keeps the session: after any number of its moves with the old
/// document, and after all of them with the new one.
pub proof fn law_answers_stay_in_session(l0: Layout, l: Layout, m: JsonView, bad: bool)
    requires
        in_session(l0, l, m),
    ensures
        mark_view(m, bad) matches Ok(MarkModel::Found { state }) ==> in_session(l0, l, state),
        mark_view(m, bad) matches Ok(MarkModel::Split { state, moves }) ==> {
            &&& in_session(l0, after_moves(l, moves), state)
            &&& forall|k: int|
                0 <= k <= moves.len() ==> in_session(
                    l0,
                    #[trigger] after_moves(l, moves.take(k)),
                    m,
                )
        },
{
    let c = remaining(m, bad);
    lemma_mark_keeps_documents(m, bad);
    assert(m is Object);
    if c.len() >= 1 {
        law_found_state_fields(m, c[0]);
        assert(c.contains(c[0]));
        let l2 = listed(c);
        law_listed_keeps_names(c);
        law_split_state_fields(m, l2);
        law_halves(l2);
        match mark_view(m, bad) {
            Ok(MarkModel::Split { state, moves }) => {
                assert forall|i: int| 0 <= i < moves.len() implies m.strings("snapshot"@).contains(
                    (#[trigger] moves[i]).0,
                ) by {
                    lemma_round_moves(l2, i);
                    assert(l2[i] == moves[i].0);
                    assert(l2.contains(moves[i].0));
                    assert(c.contains(moves[i].0));
                }
                lemma_moves_stay_in_session(l0, l, m, moves);
                let r = after_moves(l, moves);
                assert forall|f: Seq<char>| #[trigger] state.strings("candidates"@).contains(
                    f,
                ) implies state.strings("snapshot"@).contains(f) by {
                    assert(c.contains(f));
                }
                assert forall|f: Seq<char>| #[trigger] state.strings("current_tested"@).contains(
                    f,
                ) implies state.strings("snapshot"@).contains(f) by {
                    assert(l2.contains(f) && c.contains(f));
                }
                assert forall|f: Seq<char>| #[trigger] state.strings("current_untested"@).contains(
                    f,
                ) implies state.strings("snapshot"@).contains(f) by {
                    let left = left_half(l2).contains(f);
                    assert(right_half(l2).contains(f));
                    assert(l2.contains(f));
                    assert(c.contains(f));
                }
                assert(state.strings("original_enabled"@) == m.strings("original_enabled"@));
                assert(in_session(l0, r, state));
                assert forall|k: int| 0 <= k <= moves.len() implies in_session(
                    l0,
                    #[trigger] after_moves(l, moves.take(k)),
                    m,
                ) by {
                    let part = moves.take(k);
                    assert forall|i: int| 0 <= i < part.len() implies m.strings(
                        "snapshot"@,
                    ).contains((#[trigger] part[i]).0) by {
                        assert(part[i] == moves[i]);
                    }
                    lemma_moves_stay_in_session(l0, l, m, part);
                }
            },
            Ok(MarkModel::Found { state }) => {
                let one = seq![c[0]];
                assert forall|f: Seq<char>| #[trigger] state.strings("candidates"@).contains(
                    f,
                ) implies state.strings("snapshot"@).contains(f) by {
                    let i = choose|i: int| 0 <= i < one.len() && one[i] == f;
                    assert(f == c[0]);
                }
                assert(state.strings("original_enabled"@) == m.strings("original_enabled"@));
                assert(in_session(l0, l, state));
            },
            _ => {},
        }
    }
}

/// A folder that is installed while a session runs does not disturb it.
pub proof fn law_new_folder_stays_in_session(l0: Layout, l: Layout, m: JsonView, f: Seq<char>)
    requires
        in_session(l0, l, m),
        !l0.has(f),
        !l.has(f),
    ensures
        in_session(l0, Layout { mods: l.mods.insert(f), off: l.off }, m),
{
    let r = Layout { mods: l.mods.insert(f), off: l.off };
    assert forall|g: Seq<char>| !(#[trigger] r.mods.contains(g) && r.off.contains(g)) by {
        assert(!(l.mods.contains(g) && l.off.contains(g)));
    }
    assert forall|g: Seq<char>|
        l0.has(g) && #[trigger] r.has(g) && r.mods.contains(g) != l0.mods.contains(g) implies
        m.strings("snapshot"@).contains(g) by {
        assert(g != f);
        assert(l.has(g));
    }
}

proof fn lemma_stop_moves(
    installed: Seq<(Seq<char>, bool)>,
    original: Seq<Seq<char>>,
    pool: Seq<Seq<char>>,
    f: Seq<char>,
    d: Direction,
)
    ensures
        stop_moves(installed, original, pool).contains((f, d)) <==> match d {
            Direction::Enable => installed.contains((f, false)) && original.contains(f),
            Direction::Disable => installed.contains((f, true)) && !original.contains(f)
                && pool.contains(f),
        },
    decreases installed.len(),
{
    if installed.len() > 0 {
        let t = installed.drop_last();
        lemma_stop_moves(t, original, pool, f, d);
        let a = stop_moves(t, original, pool);
        let r = stop_moves(installed, original, pool);
        let last = installed.last();
        assert(forall|x: (Seq<char>, bool)|
            #[trigger] installed.contains(x) <==> t.contains(x) || x == last) by {
            assert forall|x: (Seq<char>, bool)| #[trigger]
                installed.contains(x) <==> t.contains(x) || x == last by {
                if installed.contains(x) {
                    let i = choose|i: int| 0 <= i < installed.len() && installed[i] == x;
                    if i < t.len() {
                        assert(t[i] == x);
                    }
                }
                if t.contains(x) {
                    let i = choose|i: int| 0 <= i < t.len() && t[i] == x;
                    assert(installed[i] == x);
                }
                if x == last {
                    assert(installed[installed.len() - 1] == x);
                }
            }
        }
        if r.len() > a.len() {
            let y = r[a.len() as int];
            assert(r.contains((f, d)) <==> a.contains((f, d)) || y == (f, d)) by {
                if r.contains((f, d)) {
                    let i = choose|i: int| 0 <= i < r.len() && r[i] == (f, d);
                    if i < a.len() {
                        assert(a[i] == (f, d));
                    }
                }
                if a.contains((f, d)) {
                    let i = choose|i: int| 0 <= i < a.len() && a[i] == (f, d);
                    assert(r[i] == (f, d));
                }
            }
        }
    }
}

proof fn lemma_absent(names: Seq<Seq<char>>, on: Seq<Seq<char>>, off: Seq<Seq<char>>)
    ensures
        forall|f: Seq<char>|
            #[trigger] absent(names, on, off).contains(f) ==> names.contains(f) && !on.contains(f)
                && !off.contains(f),
    decreases names.len(),
{
    if names.len() > 0 {
        let t = names.drop_last();
        lemma_absent(t, on, off);
        let a = absent(t, on, off);
        let r = absent(names, on, off);
        assert forall|f: Seq<char>| #[trigger] r.contains(f) implies names.contains(f)
            && !on.contains(f) && !off.contains(f) by {
            let i = choose|i: int| 0 <= i < r.len() && r[i] == f;
            if i < a.len() {
                assert(a[i] == f);
                assert(a.contains(f));
                let j = choose|j: int| 0 <= j < t.len() && t[j] == f;
                assert(names[j] == f);
            } else {
                assert(names[names.len() - 1] == f);
            }
        }
    }
}

/// Stopping a session puts every folder back: whatever answers were given, and
/// in the middle of a round too, each folder that was there when the session
/// began stands where it stood then, and a folder that came later stays where
/// it is. A folder that was taken away since must have had a name that is accepted.
pub proof fn law_stop_restores_the_layout(
    l0: Layout,
    l: Layout,
    m: JsonView,
    on: Seq<Seq<char>>,
    off: Seq<Seq<char>>,
)
    requires
        in_session(l0, l, m),
        lists(l, on, off),
        forall|f: Seq<char>|
            #[trigger] l0.mods.contains(f) && !l.has(f) ==> folder_check(f) is Ok,
    ensures
        stop_view(m, on, off) matches Ok(s) && {
            let r = after_moves(l, s.moves);
            &&& forall|f: Seq<char>| #[trigger] r.has(f) <==> l.has(f)
            &&& forall|f: Seq<char>|
                l.has(f) && l0.has(f) ==> (#[trigger] r.mods.contains(f) <==> l0.mods.contains(f))
            &&& forall|f: Seq<char>|
                l.has(f) && !l0.has(f) ==> (#[trigger] r.mods.contains(f) <==> l.mods.contains(f))
            &&& (forall|f: Seq<char>| #[trigger] l.has(f) <==> l0.has(f)) ==> r == l0
        },
{
    let original = m.strings("original_enabled"@);
    let pool = touched(m);
    let snap = m.strings("snapshot"@);
    law_installed_is_the_layout(l, on, off);
    let installed = both(on, off);
    let (a, b, c, d) = (
        m.strings("candidates"@),
        m.strings("current_tested"@),
        m.strings("current_untested"@),
        snap,
    );
    assert forall|f: Seq<char>| #[trigger] pool.contains(f) implies l0.has(f) by {
        let i = choose|i: int| 0 <= i < pool.len() && pool[i] == f;
        let n0 = original.len() as int;
        let n1 = n0 + a.len();
        let n2 = n1 + b.len();
        let n3 = n2 + c.len();
        if i < n0 {
            assert(original[i] == f);
            assert(original.contains(f));
        } else if i < n1 {
            assert(a[i - n0] == f);
            assert(a.contains(f));
        } else if i < n2 {
            assert(b[i - n1] == f);
            assert(b.contains(f));
        } else if i < n3 {
            assert(c[i - n2] == f);
            assert(c.contains(f));
        } else {
            assert(d[i - n3] == f);
            assert(d.contains(f));
        }
    }
    assert forall|f: Seq<char>| snap.contains(f) implies #[trigger] pool.contains(f) by {
        let i = choose|i: int| 0 <= i < snap.len() && snap[i] == f;
        let n3 = original.len() + a.len() + b.len() + c.len();
        assert(pool[i + n3] == f);
    }
    lemma_absent(original, on, off);
    let names = recorded(m, on, off);
    let gone = absent(original, on, off);
    assert forall|i: int| 0 <= i < names.len() implies folder_check(#[trigger] names[i]) is Ok by {
        let n0 = gone.len() as int;
        let n1 = n0 + a.len();
        let n2 = n1 + b.len();
        if i < n0 {
            assert(gone.contains(gone[i]));
            assert(original.contains(gone[i]));
            assert(l0.mods.contains(gone[i]));
            assert(!on.contains(gone[i]) && !off.contains(gone[i]));
        } else if i < n1 {
            assert(a.contains(a[i - n0]));
            assert(snap.contains(names[i]));
        } else if i < n2 {
            assert(b.contains(b[i - n1]));
            assert(snap.contains(names[i]));
        } else {
            assert(c.contains(c[i - n2]));
            assert(snap.contains(names[i]));
        }
    }
    lemma_first_fault(names);
    let moves = stop_moves(installed, original, pool);
    assert forall|i: int| 0 <= i < moves.len() implies is_bare((#[trigger] moves[i]).0) by {
        let (f, dir) = moves[i];
        lemma_stop_moves(installed, original, pool, f, dir);
        assert(moves.contains((f, dir)));
        assert(l.has(f));
        assert(original.contains(f) <==> l0.mods.contains(f));
        assert(!(l.mods.contains(f) && l.off.contains(f)));
        if dir == Direction::Disable {
            assert(pool.contains(f));
        }
        assert(l0.has(f) && l.mods.contains(f) != l0.mods.contains(f));
        assert(snap.contains(f));
    }
    assert forall|i: int| 0 <= i < moved(moves).len() implies folder_check(
        #[trigger] moved(moves)[i],
    ) is Ok by {
        assert(is_bare(moves[i].0));
    }
    lemma_first_fault(moved(moves));
    law_moves_take_folders_where_asked(l, moves);
    let r = after_moves(l, moves);
    assert forall|f: Seq<char>| l.has(f) && l0.has(f) implies (#[trigger] r.mods.contains(f)
        <==> l0.mods.contains(f)) by {
        lemma_wanted(moves, f);
        lemma_stop_moves(installed, original, pool, f, Direction::Enable);
        lemma_stop_moves(installed, original, pool, f, Direction::Disable);
        assert(original.contains(f) <==> l0.mods.contains(f));
        assert(!(l.mods.contains(f) && l.off.contains(f)));
        if moves.contains((f, Direction::Enable)) || moves.contains((f, Direction::Disable)) {
            assert(wanted(moves, f) is Some);
        }
        if wanted(moves, f) is None && l.mods.contains(f) != l0.mods.contains(f) {
            assert(snap.contains(f));
            assert(pool.contains(f));
        }
    }
    assert forall|f: Seq<char>| l.has(f) && !l0.has(f) implies (#[trigger] r.mods.contains(f)
        <==> l.mods.contains(f)) by {
        lemma_wanted(moves, f);
        lemma_stop_moves(installed, original, pool, f, Direction::Enable);
        lemma_stop_moves(installed, original, pool, f, Direction::Disable);
        assert(original.contains(f) <==> l0.mods.contains(f));
        assert(!pool.contains(f));
    }
    if forall|f: Seq<char>| #[trigger] l.has(f) <==> l0.has(f) {
        assert forall|f: Seq<char>| r.mods.contains(f) <==> l0.mods.contains(f) by {
            assert(r.has(f) <==> l.has(f));
            assert(l.has(f) <==> l0.has(f));
        }
        assert forall|f: Seq<char>| r.off.contains(f) <==> l0.off.contains(f) by {
            assert(r.has(f) <==> l.has(f));
            assert(l.has(f) <==> l0.has(f));
            assert(!(r.mods.contains(f) && r.off.contains(f)));
            assert(!(l0.mods.contains(f) && l0.off.contains(f)));
            assert(r.mods.contains(f) <==> l0.mods.contains(f));
        }
        assert(r.mods =~= l0.mods);
        assert(r.off =~= l0.off);
    }
}

/// Where the folders stand and what the document is after some answers; an answer
/// that is refused changes nothing.
pub open spec fn after_answers(l: Layout, m: JsonView, answers: Seq<bool>) -> (Layout, JsonView)
    decreases answers.len(),
{
    if answers.len() == 0 {
        (l, m)
    } else {
        let (k, d) = after_answers(l, m, answers.drop_last());
        match mark_view(d, answers.last()) {
            Ok(MarkModel::Found { state }) => (k, state),
            Ok(MarkModel::Split { state, moves }) => (after_moves(k, moves), state),
            _ => (k, d),
        }
    }
}

proof fn lemma_answers_keep_folders(l0: Layout, l: Layout, m: JsonView, answers: Seq<bool>)
    requires
        in_session(l0, l, m),
        sound(m, 2),
        forall|f: Seq<char>| #[trigger] l.has(f) <==> l0.has(f),
    ensures
        ({
            let (k, d) = after_answers(l, m, answers);
            &&& in_session(l0, k, d)
            &&& sound(d, 2)
            &&& forall|f: Seq<char>| #[trigger] k.has(f) <==> l0.has(f)
        }),
    decreases answers.len(),
{
    if answers.len() > 0 {
        lemma_answers_keep_folders(l0, l, m, answers.drop_last());
        let (k, d) = after_answers(l, m, answers.drop_last());
        let bad = answers.last();
        law_answers_stay_in_session(l0, k, d, bad);
        lemma_mark_keeps_documents(d, bad);
        if let Ok(MarkModel::Split { state, moves }) = mark_view(d, bad) {
            let c = listed(remaining(d, bad));
            law_listed_keeps_names(remaining(d, bad));
            assert forall|i: int| 0 <= i < moves.len() implies is_bare((#[trigger] moves[i]).0) by {
                lemma_round_moves(c, i);
                assert(c[i] == moves[i].0);
                assert(c.contains(moves[i].0));
                assert(remaining(d, bad).contains(moves[i].0));
                assert(d.strings("snapshot"@).contains(moves[i].0));
            }
            law_moves_take_folders_where_asked(k, moves);
        }
    }
}

/// A session leaves no trace: however it was started and whatever was answered,
/// stopping it succeeds and puts every folder exactly where it stood before the
/// start. Each of its documents is read back as it was written.
pub proof fn law_a_session_leaves_no_trace(
    names: Option<Seq<Seq<char>>>,
    l0: Layout,
    on: Seq<Seq<char>>,
    off: Seq<Seq<char>>,
    answers: Seq<bool>,
    on_now: Seq<Seq<char>>,
    off_now: Seq<Seq<char>>,
)
    requires
        l0.apart(),
        lists(l0, on, off),
        start_view(names, false, on, off) matches Ok(s) && lists(
            after_answers(after_moves(l0, s.moves), s.state, answers).0,
            on_now,
            off_now,
        ),
    ensures
        start_view(names, false, on, off) matches Ok(s) && {
            let (l, m) = after_answers(after_moves(l0, s.moves), s.state, answers);
            &&& m.readable()
            &&& stop_view(m, on_now, off_now) matches Ok(p) && after_moves(l, p.moves) == l0
        },
{
    let s = start_view(names, false, on, off)->Ok_0;
    law_start_opens_a_session(names, l0, on, off);
    law_candidates_are_installed(names, l0, on, off);
    law_installed_is_the_layout(l0, on, off);
    let c = start_candidates(names, both(on, off))->Ok_0;
    law_first_state_fields(c, enabled_names(both(on, off)));
    assert forall|i: int| 0 <= i < s.moves.len() implies is_bare((#[trigger] s.moves[i]).0) by {
        lemma_round_moves(c, i);
        assert(c[i] == s.moves[i].0);
        assert(c.contains(s.moves[i].0));
    }
    law_moves_take_folders_where_asked(l0, s.moves);
    let l1 = after_moves(l0, s.moves);
    lemma_answers_keep_folders(l0, l1, s.state, answers);
    let (l, m) = after_answers(l1, s.state, answers);
    lemma_nests_more(m, 2, MAX_NESTING as nat);
    law_stop_restores_the_layout(l0, l, m, on_now, off_now);
}

} // verus!
