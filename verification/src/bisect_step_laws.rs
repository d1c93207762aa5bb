//! When a search for a faulty mod begins, goes on and ends, and when it is refused.
use vstd::prelude::*;

use crate::bisect::{
    asked_for, both, common, document, enabled_names, first_fault, first_state, installed_view,
    is_running, mark_matches, mark_view, moved, next_round, recorded, remaining, start_view,
    stop_moves, stop_view, touched, MarkModel, MarkStep,
};
use crate::bisect_laws::{
    law_first_state_fields, law_split_state_fields, lemma_common, lemma_enabled_distinct,
    lemma_enabled_names, lemma_first_fault, lemma_first_stray,
};
use crate::deps::{firsts, law_firsts};
use crate::folder::{folder_check, Direction};
use crate::json::{json_of, JsonView, NumberView};
use crate::layout::{is_bare, law_checked_names_are_bare};
use crate::names::{law_listed_keeps_names, law_listing_order_is_a_permutation, listed, listing_order};
use crate::text::{contains, joined, trimmed};
use crate::text_laws::law_joining_keeps_every_text;

verus! {

/// No folder is in both places.
pub open spec fn are_apart(on: Seq<Seq<char>>, off: Seq<Seq<char>>) -> bool {
    forall|f: Seq<char>| !(#[trigger] on.contains(f) && off.contains(f))
}

/// What is installed is listed exactly where no folder is in both places; else each that
/// is gets named. Every folder is listed once, with where it is.
pub proof fn law_what_is_installed_is_listed(on: Seq<Seq<char>>, off: Seq<Seq<char>>)
    ensures
        installed_view(on, off) is Ok <==> are_apart(on, off),
        (installed_view(on, off) matches Ok(all) ==> {
            &&& forall|f: Seq<char>| #[trigger] all.contains((f, true)) <==> on.contains(f)
            &&& forall|f: Seq<char>| #[trigger] all.contains((f, false)) <==> off.contains(f)
        }),
        (installed_view(on, off) matches Err(e) ==> forall|f: Seq<char>|
            #[trigger] on.contains(f) && off.contains(f) ==> contains(e, f)),
{
    law_firsts(on);
    law_firsts(off);
    let a = firsts(on);
    let b = firsts(off);
    let clash = common(a, off);
    lemma_common(a, off);
    if clash.len() > 0 {
        assert(clash.contains(clash[0]));
        assert(a.contains(clash[0]) && off.contains(clash[0]));
        assert(on.contains(clash[0]));
    }
    if !are_apart(on, off) {
        let f = choose|f: Seq<char>| #[trigger] on.contains(f) && off.contains(f);
        assert(a.contains(f));
        assert(clash.contains(f));
    }
    if let Err(e) = installed_view(on, off) {
        assert forall|f: Seq<char>| #[trigger] on.contains(f) && off.contains(f) implies contains(
            e,
            f,
        ) by {
            assert(a.contains(f));
            assert(clash.contains(f));
            let k = choose|k: int| 0 <= k < clash.len() && clash[k] == f;
            law_joining_keeps_every_text(clash, ", "@, k);
            crate::flow_laws::lemma_contains_in(
                "Xung đột tên mod: tồn tại đồng thời ở cả mods/ và mods_off/: "@,
                joined(clash, ", "@),
                f,
            );
        }
    }
    if let Ok(all) = installed_view(on, off) {
        let names = a + b;
        let o = listing_order(names);
        law_listing_order_is_a_permutation(names);
        assert forall|f: Seq<char>| #[trigger] all.contains((f, true)) <==> on.contains(f) by {
            if all.contains((f, true)) {
                let i = choose|i: int| 0 <= i < all.len() && all[i] == (f, true);
                assert(0 <= o[i] < names.len());
                assert(a[o[i]] == f);
                assert(a.contains(f));
            }
            if on.contains(f) {
                assert(a.contains(f));
                let k = choose|k: int| 0 <= k < a.len() && a[k] == f;
                assert(o.contains(k));
                let i = choose|i: int| 0 <= i < o.len() && o[i] == k;
                assert(all[i] == (f, true));
            }
        }
        assert forall|f: Seq<char>| #[trigger] all.contains((f, false)) <==> off.contains(f) by {
            if all.contains((f, false)) {
                let i = choose|i: int| 0 <= i < all.len() && all[i] == (f, false);
                assert(0 <= o[i] < names.len());
                assert(b[o[i] - a.len()] == f);
                assert(b.contains(f));
            }
            if off.contains(f) {
                assert(b.contains(f));
                let k = choose|k: int| 0 <= k < b.len() && b[k] == f;
                assert(o.contains(a.len() + k));
                let i = choose|i: int| 0 <= i < o.len() && o[i] == a.len() + k;
                assert(all[i] == (f, false));
            }
        }
    }
}

proof fn lemma_known(on: Seq<Seq<char>>, off: Seq<Seq<char>>, f: Seq<char>)
    requires
        are_apart(on, off),
    ensures
        both(on, off).map_values(|p: (Seq<char>, bool)| p.0).contains(f) <==> on.contains(f)
            || off.contains(f),
{
    law_what_is_installed_is_listed(on, off);
    let all = both(on, off);
    let listing = installed_view(on, off)->Ok_0;
    assert(listing == all);
    assert(listing.contains((f, true)) <==> on.contains(f));
    assert(listing.contains((f, false)) <==> off.contains(f));
    let known = all.map_values(|p: (Seq<char>, bool)| p.0);
    if known.contains(f) {
        let i = choose|i: int| 0 <= i < known.len() && known[i] == f;
        assert(all[i] == (f, all[i].1));
        assert(all.contains((f, all[i].1)));
    }
    if on.contains(f) {
        assert(all.contains((f, true)));
        let i = choose|i: int| 0 <= i < all.len() && all[i] == (f, true);
        assert(known[i] == f);
    } else if off.contains(f) {
        assert(all.contains((f, false)));
        let i = choose|i: int| 0 <= i < all.len() && all[i] == (f, false);
        assert(known[i] == f);
    }
}

/// The name can be that of a folder, and the folder is known.
pub open spec fn is_one_of(name: Seq<char>, known: Seq<Seq<char>>) -> bool {
    folder_check(name) matches Ok(f) && known.contains(f)
}

proof fn lemma_asked(list: Seq<Seq<char>>, known: Seq<Seq<char>>)
    ensures
        asked_for(list, known) is Ok <==> forall|i: int|
            0 <= i < list.len() ==> is_one_of(#[trigger] list[i], known),
        asked_for(list, known) matches Ok(r) ==> r == list.map_values(|s: Seq<char>| trimmed(s)),
    decreases list.len(),
{
    let g = |s: Seq<char>| trimmed(s);
    if list.len() > 0 {
        let t = list.drop_last();
        lemma_asked(t, known);
        assert(list[list.len() - 1] == list.last());
        law_checked_names_are_bare(list.last());
        if asked_for(list, known) is Ok {
            assert forall|i: int| 0 <= i < list.len() implies is_one_of(
                #[trigger] list[i],
                known,
            ) by {
                if i < t.len() {
                    assert(is_one_of(t[i], known));
                }
            }
            assert(list.map_values(g) =~= t.map_values(g).push(trimmed(list.last())));
        }
        if forall|i: int| 0 <= i < list.len() ==> is_one_of(#[trigger] list[i], known) {
            assert forall|i: int| 0 <= i < t.len() implies is_one_of(#[trigger] t[i], known) by {
                assert(list[i] == t[i]);
            }
            assert(is_one_of(list[list.len() - 1], known));
        }
    } else {
        assert(list.map_values(g) =~= seq![]);
    }
}

/// A search over chosen folders begins exactly where none runs, no folder is in both
/// places, each name is that of an installed folder, and two of them differ. Its
/// candidates are those folders, all of them, and no others.
pub proof fn law_a_search_begins_over_the_chosen(
    list: Seq<Seq<char>>,
    running: bool,
    on: Seq<Seq<char>>,
    off: Seq<Seq<char>>,
)
    ensures
        start_view(Some(list), running, on, off) is Ok <==> {
            &&& !running
            &&& are_apart(on, off)
            &&& forall|i: int|
                0 <= i < list.len() ==> (folder_check(#[trigger] list[i]) matches Ok(f) && (
                on.contains(f) || off.contains(f)))
            &&& exists|i: int, j: int|
                0 <= i < j < list.len() && trimmed(#[trigger] list[i]) != trimmed(
                    #[trigger] list[j],
                )
        },
        start_view(Some(list), running, on, off) matches Ok(s) ==> forall|f: Seq<char>|
            #[trigger] s.state.strings("candidates"@).contains(f) <==> exists|i: int|
                0 <= i < list.len() && trimmed(#[trigger] list[i]) == f,
{
    law_what_is_installed_is_listed(on, off);
    if !running && are_apart(on, off) {
        let installed = both(on, off);
        let known = installed.map_values(|p: (Seq<char>, bool)| p.0);
        lemma_asked(list, known);
        assert forall|i: int| 0 <= i < list.len() implies is_one_of(#[trigger] list[i], known) == (
        folder_check(list[i]) matches Ok(f) && (on.contains(f) || off.contains(f))) by {
            if let Ok(f) = folder_check(list[i]) {
                lemma_known(on, off, f);
            }
        }
        if let Ok(r) = asked_for(list, known) {
            let c = firsts(r);
            law_firsts(r);
            lemma_two(r, list);
            lemma_first_fault(c);
            lemma_first_stray(c);
            assert forall|i: int| 0 <= i < c.len() implies folder_check(#[trigger] c[i]) is Ok
                && trimmed(c[i]) == c[i] by {
                assert(c.contains(c[i]));
                assert(r.contains(c[i]));
                let j = choose|j: int| 0 <= j < r.len() && r[j] == c[i];
                assert(is_one_of(list[j], known));
                law_checked_names_are_bare(list[j]);
                law_checked_names_are_bare(c[i]);
            }
            if c.len() >= 2 {
                let l = listed(c);
                law_listed_keeps_names(c);
                law_first_state_fields(l, enabled_names(installed));
                let s = start_view(Some(list), running, on, off)->Ok_0;
                assert forall|f: Seq<char>| #[trigger] s.state.strings("candidates"@).contains(
                    f,
                ) <==> exists|i: int| 0 <= i < list.len() && trimmed(#[trigger] list[i]) == f by {
                    assert(l.contains(f) <==> r.contains(f));
                    if r.contains(f) {
                        let i = choose|i: int| 0 <= i < r.len() && r[i] == f;
                        assert(trimmed(list[i]) == f);
                    }
                    if exists|i: int| 0 <= i < list.len() && trimmed(#[trigger] list[i]) == f {
                        let i = choose|i: int| 0 <= i < list.len() && trimmed(#[trigger] list[i]) == f;
                        assert(r[i] == f);
                    }
                }
            }
        }
    }
}

/// There are two different names among some where two of them differ.
proof fn lemma_two(r: Seq<Seq<char>>, list: Seq<Seq<char>>)
    requires
        r == list.map_values(|s: Seq<char>| trimmed(s)),
    ensures
        firsts(r).len() >= 2 <==> exists|i: int, j: int|
            0 <= i < j < list.len() && trimmed(#[trigger] list[i]) != trimmed(#[trigger] list[j]),
{
    let c = firsts(r);
    law_firsts(r);
    if c.len() >= 2 {
        assert(c[0] != c[1]);
        assert(c.contains(c[0]) && c.contains(c[1]));
        assert(r.contains(c[0]) && r.contains(c[1]));
        let i = choose|i: int| 0 <= i < r.len() && r[i] == c[0];
        let j = choose|j: int| 0 <= j < r.len() && r[j] == c[1];
        if i < j {
            assert(trimmed(list[i]) != trimmed(list[j]));
        } else {
            assert(trimmed(list[j]) != trimmed(list[i]));
        }
    }
    if exists|i: int, j: int|
        0 <= i < j < list.len() && trimmed(#[trigger] list[i]) != trimmed(#[trigger] list[j]) {
        let (i, j) = choose|i: int, j: int|
            0 <= i < j < list.len() && trimmed(#[trigger] list[i]) != trimmed(#[trigger] list[j]);
        assert(r[i] != r[j]);
        assert(r.contains(r[i]) && r.contains(r[j]));
        assert(c.contains(r[i]) && c.contains(r[j]));
        let x = choose|x: int| 0 <= x < c.len() && c[x] == r[i];
        let y = choose|y: int| 0 <= y < c.len() && c[y] == r[j];
        assert(x != y);
    }
}

/// A search over what is enabled begins exactly where none runs, no folder is in both
/// places, two folders are enabled, and each of them can be moved by its name. All of
/// them are its candidates.
pub proof fn law_a_search_begins_over_the_enabled(
    running: bool,
    on: Seq<Seq<char>>,
    off: Seq<Seq<char>>,
)
    ensures
        start_view(None, running, on, off) is Ok <==> {
            &&& !running
            &&& are_apart(on, off)
            &&& firsts(on).len() >= 2
            &&& forall|i: int| 0 <= i < on.len() ==> is_bare(#[trigger] on[i])
        },
        start_view(None, running, on, off) matches Ok(s) ==> forall|f: Seq<char>|
            #[trigger] s.state.strings("candidates"@).contains(f) <==> on.contains(f),
{
    law_what_is_installed_is_listed(on, off);
    if !running && are_apart(on, off) {
        let installed = both(on, off);
        let c = enabled_names(installed);
        lemma_enabled_names(installed);
        lemma_enabled_distinct(on, off);
        law_firsts(on);
        lemma_first_fault(c);
        lemma_first_stray(c);
        assert forall|f: Seq<char>| #[trigger] c.contains(f) <==> on.contains(f) by {}
        lemma_same_len(c, firsts(on));
        assert((forall|i: int| 0 <= i < on.len() ==> is_bare(#[trigger] on[i])) <==> (forall|i: int|
            0 <= i < c.len() ==> folder_check(#[trigger] c[i]) is Ok && trimmed(c[i]) == c[i])) by {
            if forall|i: int| 0 <= i < on.len() ==> is_bare(#[trigger] on[i]) {
                assert forall|i: int| 0 <= i < c.len() implies folder_check(#[trigger] c[i]) is Ok
                    && trimmed(c[i]) == c[i] by {
                    assert(c.contains(c[i]));
                    let j = choose|j: int| 0 <= j < on.len() && on[j] == c[i];
                    assert(is_bare(on[j]));
                    law_checked_names_are_bare(c[i]);
                }
            }
            if forall|i: int|
                0 <= i < c.len() ==> folder_check(#[trigger] c[i]) is Ok && trimmed(c[i]) == c[i] {
                assert forall|i: int| 0 <= i < on.len() implies is_bare(#[trigger] on[i]) by {
                    assert(on.contains(on[i]));
                    assert(c.contains(on[i]));
                    let j = choose|j: int| 0 <= j < c.len() && c[j] == on[i];
                    assert(folder_check(c[j]) is Ok && trimmed(c[j]) == c[j]);
                    law_checked_names_are_bare(on[i]);
                }
            }
        }
        law_listed_keeps_names(c);
        law_first_state_fields(listed(c), c);
    }
}

/// Two lists of the same names, each once, are as long.
proof fn lemma_same_len(a: Seq<Seq<char>>, b: Seq<Seq<char>>)
    requires
        a.no_duplicates(),
        b.no_duplicates(),
        forall|x: Seq<char>| #[trigger] a.contains(x) <==> b.contains(x),
    ensures
        a.len() == b.len(),
{
    assert(a.to_set() =~= b.to_set()) by {
        assert forall|x: Seq<char>| a.to_set().contains(x) <==> b.to_set().contains(x) by {
            assert(a.contains(x) <==> b.contains(x));
        }
    }
    a.unique_seq_to_set();
    b.unique_seq_to_set();
}

/// A search runs where its file can be read and does not say that it is done.
pub proof fn law_a_search_runs_until_it_is_done(text: &str, m: JsonView)
    ensures
        !is_running(None),
        json_of(text@) == Ok::<JsonView, Seq<char>>(m) ==> (is_running(Some(text)) <==> m.field(
            "done"@,
        ) != Some(JsonView::Bool(true))),
        json_of(text@) is Err ==> !is_running(Some(text)),
        document(None) == Ok::<Option<JsonView>, Seq<char>>(None),
        json_of(text@) == Ok::<JsonView, Seq<char>>(m) ==> document(Some(text)) == Ok::<
            Option<JsonView>,
            Seq<char>,
        >(Some(m)),
        json_of(text@) is Err ==> document(Some(text)) is Err,
{
}

/// The fault is there: those under test are left. It is not: the others are.
pub proof fn law_an_answer_tells_the_halves_apart(m: JsonView)
    ensures
        remaining(m, true) == m.strings("current_tested"@),
        remaining(m, false) == m.strings("current_untested"@),
{
}

/// An answer is taken exactly where the search is done already, or where candidates are
/// left and each has a name that a folder can have. With one left the search is done;
/// with more the next round begins with exactly those.
pub proof fn law_an_answer_leaves_its_half(m: JsonView, bad: bool)
    requires
        m.wf(),
    ensures
        ({
            let left = remaining(m, bad);
            let done = m.field("done"@) == Some(JsonView::Bool(true));
            &&& mark_view(m, bad) is Ok <==> done || (left.len() > 0 && forall|i: int|
                0 <= i < left.len() ==> folder_check(#[trigger] left[i]) is Ok)
            &&& done ==> mark_view(m, bad) == Ok::<MarkModel, Seq<char>>(MarkModel::Finished)
            &&& (mark_view(m, bad) matches Ok(MarkModel::Found { state }) ==> !done && left.len()
                == 1)
            &&& (mark_view(m, bad) matches Ok(MarkModel::Split { state, moves }) ==> {
                &&& !done && left.len() > 1
                &&& state.strings("candidates"@).len() == left.len()
                &&& forall|f: Seq<char>|
                    #[trigger] state.strings("candidates"@).contains(f) <==> left.contains(f)
                &&& moves.len() == left.len()
                &&& forall|f: Seq<char>|
                    state.strings("current_tested"@).contains(f) ==> #[trigger] moves.contains(
                        (f, Direction::Enable),
                    )
                &&& forall|f: Seq<char>|
                    state.strings("current_untested"@).contains(f) ==> #[trigger] moves.contains(
                        (f, Direction::Disable),
                    )
            })
        }),
{
    let c = remaining(m, bad);
    lemma_first_fault(c);
    let l = listed(c);
    law_listed_keeps_names(c);
    if c.len() > 1 {
        if !(m is Object) {
            assert(m.list("current_tested"@) =~= seq![]);
            assert(m.list("current_untested"@) =~= seq![]);
        }
        law_split_state_fields(m, l);
        let moves = crate::bisect::round_moves(l);
        let a = crate::bisect::left_half(l);
        let b = crate::bisect::right_half(l);
        assert forall|f: Seq<char>| a.contains(f) implies #[trigger] moves.contains(
            (f, Direction::Enable),
        ) by {
            let i = choose|i: int| 0 <= i < a.len() && a[i] == f;
            assert(moves[i] == (f, Direction::Enable));
        }
        assert forall|f: Seq<char>| b.contains(f) implies #[trigger] moves.contains(
            (f, Direction::Disable),
        ) by {
            let i = choose|i: int| 0 <= i < b.len() && b[i] == f;
            assert(moves[a.len() + i] == (f, Direction::Disable));
        }
    }
}

/// What an answer comes to is done: nothing moves where the search is done or where it
/// ends, and every folder of the next round is moved.
pub proof fn law_an_answer_is_acted_on(
    r: Result<MarkStep, String>,
    v: Result<MarkModel, Seq<char>>,
)
    requires
        mark_matches(r, v),
    ensures
        r is Err <==> v is Err,
        (r matches Err(e) ==> v == Err::<MarkModel, Seq<char>>(e@)),
        (r matches Ok(MarkStep::Finished)) <==> (v matches Ok(MarkModel::Finished)),
        (v matches Ok(MarkModel::Found { state }) ==> (r matches Ok(MarkStep::Step(s))
            && s.state.model() == state && s.moves.deep_view().len() == 0)),
        (v matches Ok(MarkModel::Split { state, moves }) ==> (r matches Ok(MarkStep::Step(s))
            && s.state.model() == state && s.moves.deep_view() == moves)),
{
}

/// Rounds are counted: the first one is number one, and each is one more than the last.
pub proof fn law_rounds_are_counted(
    m: JsonView,
    n: u64,
    c: Seq<Seq<char>>,
    original: Seq<Seq<char>>,
)
    requires
        n < u64::MAX,
    ensures
        m.field("round"@) == Some(JsonView::Number(NumberView::Unsigned(n))) ==> next_round(m) == n
            + 1,
        m.field("round"@) is None ==> next_round(m) == 2,
        first_state(c, original).field("round"@) == Some(JsonView::Number(NumberView::Unsigned(1))),
{
    crate::bisect::lemma_keys();
    let f = seq![
        ("round"@, JsonView::Number(NumberView::Unsigned(1))),
        ("candidates"@, crate::json::text_array(c)),
        ("current_tested"@, crate::json::text_array(crate::bisect::left_half(c))),
        ("current_untested"@, crate::json::text_array(crate::bisect::right_half(c))),
        ("original_enabled"@, crate::json::text_array(original)),
        ("snapshot"@, crate::json::text_array(c)),
        ("suspect"@, JsonView::Null),
        ("done"@, JsonView::Bool(false)),
    ];
    crate::json::lemma_fields_lookup(f, 0);
}

/// The names that a search has written down, but for what was enabled and is there, are
/// those of folders.
pub open spec fn records_folders(m: JsonView, on: Seq<Seq<char>>, off: Seq<Seq<char>>) -> bool {
    &&& forall|f: Seq<char>|
        #[trigger] m.strings("original_enabled"@).contains(f) && !on.contains(f) && !off.contains(f)
            ==> folder_check(f) is Ok
    &&& forall|f: Seq<char>| #[trigger] m.strings("candidates"@).contains(f) ==> folder_check(f) is Ok
    &&& forall|f: Seq<char>|
        #[trigger] m.strings("current_tested"@).contains(f) ==> folder_check(f) is Ok
    &&& forall|f: Seq<char>|
        #[trigger] m.strings("current_untested"@).contains(f) ==> folder_check(f) is Ok
}

proof fn lemma_absent(names: Seq<Seq<char>>, on: Seq<Seq<char>>, off: Seq<Seq<char>>)
    ensures
        forall|f: Seq<char>|
            #[trigger] crate::bisect::absent(names, on, off).contains(f) <==> names.contains(f)
                && !on.contains(f) && !off.contains(f),
    decreases names.len(),
{
    if names.len() > 0 {
        let t = names.drop_last();
        lemma_absent(t, on, off);
        let r = crate::bisect::absent(t, on, off);
        let all = crate::bisect::absent(names, on, off);
        assert(names[names.len() - 1] == names.last());
        assert forall|f: Seq<char>| #[trigger] all.contains(f) <==> names.contains(f)
            && !on.contains(f) && !off.contains(f) by {
            assert(r.contains(f) <==> t.contains(f) && !on.contains(f) && !off.contains(f));
            if all.contains(f) {
                let i = choose|i: int| 0 <= i < all.len() && all[i] == f;
                if i < r.len() {
                    assert(r[i] == f);
                    let j = choose|j: int| 0 <= j < t.len() && t[j] == f;
                    assert(names[j] == f);
                }
            }
            if names.contains(f) && !on.contains(f) && !off.contains(f) {
                let j = choose|j: int| 0 <= j < names.len() && names[j] == f;
                if j < t.len() {
                    assert(t[j] == f);
                    let i = choose|i: int| 0 <= i < r.len() && r[i] == f;
                    assert(all[i] == f);
                } else {
                    assert(all[r.len() as int] == f);
                }
            }
        }
    }
}

proof fn lemma_recorded(m: JsonView, on: Seq<Seq<char>>, off: Seq<Seq<char>>)
    ensures
        first_fault(recorded(m, on, off)) is None <==> records_folders(m, on, off),
{
    let a = crate::bisect::absent(m.strings("original_enabled"@), on, off);
    let b = m.strings("candidates"@);
    let c = m.strings("current_tested"@);
    let d = m.strings("current_untested"@);
    let all = recorded(m, on, off);
    lemma_absent(m.strings("original_enabled"@), on, off);
    lemma_first_fault(all);
    let n1 = a.len() as int;
    let n2 = n1 + b.len();
    let n3 = n2 + c.len();
    if first_fault(all) is None {
        assert forall|f: Seq<char>| #[trigger] m.strings("original_enabled"@).contains(f)
            && !on.contains(f) && !off.contains(f) implies folder_check(f) is Ok by {
            assert(a.contains(f));
            let i = choose|i: int| 0 <= i < a.len() && a[i] == f;
            assert(all[i] == f);
        }
        assert forall|f: Seq<char>| #[trigger] b.contains(f) implies folder_check(f) is Ok by {
            let i = choose|i: int| 0 <= i < b.len() && b[i] == f;
            assert(all[n1 + i] == f);
        }
        assert forall|f: Seq<char>| #[trigger] c.contains(f) implies folder_check(f) is Ok by {
            let i = choose|i: int| 0 <= i < c.len() && c[i] == f;
            assert(all[n2 + i] == f);
        }
        assert forall|f: Seq<char>| #[trigger] d.contains(f) implies folder_check(f) is Ok by {
            let i = choose|i: int| 0 <= i < d.len() && d[i] == f;
            assert(all[n3 + i] == f);
        }
    }
    if records_folders(m, on, off) {
        assert forall|i: int| 0 <= i < all.len() implies folder_check(#[trigger] all[i]) is Ok by {
            if i < n1 {
                assert(a[i] == all[i]);
                assert(a.contains(all[i]));
            } else if i < n2 {
                assert(b[i - n1] == all[i]);
                assert(b.contains(all[i]));
            } else if i < n3 {
                assert(c[i - n2] == all[i]);
                assert(c.contains(all[i]));
            } else {
                assert(d[i - n3] == all[i]);
                assert(d.contains(all[i]));
            }
        }
    }
}

/// A search is stopped exactly where its file tells what was enabled, records names of
/// folders only, no folder is in both places, and what has to move can be moved. What it
/// says to be restored is what was enabled, each once.
pub proof fn law_a_search_is_stopped_where_it_can_be(
    m: JsonView,
    on: Seq<Seq<char>>,
    off: Seq<Seq<char>>,
)
    ensures
        stop_view(m, on, off) is Ok <==> {
            &&& m.field("original_enabled"@) matches Some(JsonView::Array(_))
            &&& records_folders(m, on, off)
            &&& are_apart(on, off)
            &&& forall|i: int|
                0 <= i < moved(
                    stop_moves(both(on, off), m.strings("original_enabled"@), touched(m)),
                ).len() ==> folder_check(
                    #[trigger] moved(
                        stop_moves(both(on, off), m.strings("original_enabled"@), touched(m)),
                    )[i],
                ) is Ok
        },
        stop_view(m, on, off) matches Ok(s) ==> {
            &&& s.restored.no_duplicates()
            &&& forall|f: Seq<char>|
                #[trigger] s.restored.contains(f) <==> m.strings("original_enabled"@).contains(f)
        },
{
    law_what_is_installed_is_listed(on, off);
    lemma_recorded(m, on, off);
    let original = m.strings("original_enabled"@);
    lemma_first_fault(moved(stop_moves(both(on, off), original, touched(m))));
    law_firsts(original);
}

/// What moves when a search is stopped: a folder that was enabled and is not any more is
/// enabled, one that the search had to do with and that was not enabled is disabled, and
/// no other moves.
pub proof fn law_what_moves_when_a_search_is_stopped(
    installed: Seq<(Seq<char>, bool)>,
    original: Seq<Seq<char>>,
    pool: Seq<Seq<char>>,
    f: Seq<char>,
)
    ensures
        stop_moves(installed, original, pool).contains((f, Direction::Enable)) <==> original.contains(
            f,
        ) && installed.contains((f, false)),
        stop_moves(installed, original, pool).contains((f, Direction::Disable)) <==> pool.contains(
            f,
        ) && !original.contains(f) && installed.contains((f, true)),
    decreases installed.len(),
{
    if installed.len() > 0 {
        let t = installed.drop_last();
        law_what_moves_when_a_search_is_stopped(t, original, pool, f);
        let r = stop_moves(t, original, pool);
        let all = stop_moves(installed, original, pool);
        let (g, enabled) = installed.last();
        lemma_in_list(installed, (f, true));
        lemma_in_list(installed, (f, false));
        if all.len() > r.len() {
            lemma_in_list(all, (f, Direction::Enable));
            lemma_in_list(all, (f, Direction::Disable));
            assert(all.drop_last() =~= r);
        }
    }
}

proof fn lemma_in_list<A>(list: Seq<A>, x: A)
    requires
        list.len() > 0,
    ensures
        list.contains(x) <==> list.drop_last().contains(x) || x == list.last(),
{
    let t = list.drop_last();
    if list.contains(x) {
        let i = choose|i: int| 0 <= i < list.len() && list[i] == x;
        if i < t.len() {
            assert(t[i] == x);
        }
    }
    if t.contains(x) {
        let i = choose|i: int| 0 <= i < t.len() && t[i] == x;
        assert(list[i] == x);
    }
    assert(list[list.len() - 1] == list.last());
}

} // verus!
