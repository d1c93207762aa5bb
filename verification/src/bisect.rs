//! The search for one faulty mod: halve the candidates, enable one half, ask
//! whether the fault is still there, and narrow down.
use vstd::prelude::*;

use crate::deps::{dedup_ids, firsts};
use crate::folder::{check_folder, folder_check, Direction};
use crate::json::{
    fields_of, json_number, json_object, json_of, json_text, json_texts, lemma_fields_of_sound,
    lemma_object_model, lemma_short_key, lemma_text_array, lemma_with_field_sound, model_of,
    object_of, pairs_of, put, raw_key, read_json, reread, sound, strings_among, text_array,
    with_field, write_json, Json, JsonView, NumberView,
};
use crate::names::{list_names, list_order, listed, listing_order};
use crate::text::{
    copy_texts, decimal, decimal_text, holds, join_texts, joined, same, trim, trimmed,
};

verus! {

/// A folder to move, and where to.
pub struct Move {
    pub folder: String,
    pub direction: Direction,
}

impl DeepView for Move {
    type V = (Seq<char>, Direction);

    open spec fn deep_view(&self) -> (Seq<char>, Direction) {
        (self.folder@, self.direction)
    }
}

/// The members of `a` that are in `b` too.
pub open spec fn common(a: Seq<Seq<char>>, b: Seq<Seq<char>>) -> Seq<Seq<char>>
    decreases a.len(),
{
    if a.len() == 0 {
        seq![]
    } else if b.contains(a.last()) {
        common(a.drop_last(), b).push(a.last())
    } else {
        common(a.drop_last(), b)
    }
}

/// The members of `a` that are not in `b`.
pub open spec fn minus(a: Seq<Seq<char>>, b: Seq<Seq<char>>) -> Seq<Seq<char>>
    decreases a.len(),
{
    if a.len() == 0 {
        seq![]
    } else if b.contains(a.last()) {
        minus(a.drop_last(), b)
    } else {
        minus(a.drop_last(), b).push(a.last())
    }
}

/// The members of `a` that are in `b`, or that are not.
fn select(a: &Vec<String>, b: &Vec<String>, inside: bool) -> (r: Vec<String>)
    ensures
        inside ==> r.deep_view() == common(a.deep_view(), b.deep_view()),
        !inside ==> r.deep_view() == minus(a.deep_view(), b.deep_view()),
{
    let mut r: Vec<String> = Vec::new();
    let ghost all = a.deep_view();
    let mut i: usize = 0;
    assert(r.deep_view() =~= seq![]);
    while i < a.len()
        invariant
            i <= a.len(),
            all == a.deep_view(),
            inside ==> r.deep_view() == common(all.take(i as int), b.deep_view()),
            !inside ==> r.deep_view() == minus(all.take(i as int), b.deep_view()),
        decreases a.len() - i,
    {
        proof {
            assert(all.take(i + 1).drop_last() =~= all.take(i as int));
        }
        if holds(b, a[i].as_str()) == inside {
            let ghost before = r.deep_view();
            r.push(a[i].clone());
            assert(r.deep_view() =~= before.push(a@[i as int]@));
        }
        i += 1;
    }
    assert(all.take(a.len() as int) =~= all);
    r
}

/// The folders of both places, with whether they are enabled.
pub open spec fn both(on: Seq<Seq<char>>, off: Seq<Seq<char>>) -> Seq<(Seq<char>, bool)> {
    let names = firsts(on) + firsts(off);
    Seq::new(
        names.len(),
        |i: int|
            {
                let k = listing_order(names)[i];
                (names[k], k < firsts(on).len())
            },
    )
}

/// The folders that are installed, in the order of listing, or the refusal
/// where a name stands in both places.
pub open spec fn installed_view(on: Seq<Seq<char>>, off: Seq<Seq<char>>) -> Result<
    Seq<(Seq<char>, bool)>,
    Seq<char>,
> {
    let clash = common(firsts(on), off);
    if clash.len() > 0 {
        Err(
            "Xung đột tên mod: tồn tại đồng thời ở cả mods/ và mods_off/: "@ + joined(
                clash,
                ", "@,
            ),
        )
    } else {
        Ok(both(on, off))
    }
}

pub open spec fn installed_result(r: Result<Vec<(String, bool)>, String>) -> Result<
    Seq<(Seq<char>, bool)>,
    Seq<char>,
> {
    match r {
        Ok(v) => Ok(v.deep_view()),
        Err(e) => Err(e@),
    }
}

/// The folders in `mods` and in `mods_off`, in the order of listing.
pub fn installed_folders_rs(on: &Vec<String>, off: &Vec<String>) -> (r: Result<
    Vec<(String, bool)>,
    String,
>)
    ensures
        installed_result(r) == installed_view(on.deep_view(), off.deep_view()),
{
    let on_set = dedup_ids(on);
    let off_set = dedup_ids(off);
    let collisions = select(&on_set, off, true);
    if collisions.len() > 0 {
        return Err(
            "Xung đột tên mod: tồn tại đồng thời ở cả mods/ và mods_off/: ".to_string().concat(
                join_texts(&collisions, ", ").as_str(),
            ),
        );
    }
    let mut names = copy_texts(&on_set);
    let mut i: usize = 0;
    let ghost first = on_set.deep_view();
    let ghost second = off_set.deep_view();
    while i < off_set.len()
        invariant
            i <= off_set.len(),
            second == off_set.deep_view(),
            names.deep_view() == first + second.take(i as int),
        decreases off_set.len() - i,
    {
        let ghost before = names.deep_view();
        names.push(off_set[i].clone());
        i += 1;
        assert(names.deep_view() =~= before.push(second[i - 1]));
        assert(names.deep_view() =~= first + second.take(i as int));
    }
    assert(second.take(off_set.len() as int) =~= second);
    let order = list_order(&names);
    let ghost all = names.deep_view();
    let ghost want = both(on.deep_view(), off.deep_view());
    let mut res: Vec<(String, bool)> = Vec::new();
    let mut j: usize = 0;
    while j < order.len()
        invariant
            j <= order.len(),
            order.len() == names.len(),
            all == names.deep_view(),
            first == on_set.deep_view(),
            first == firsts(on.deep_view()),
            all == first + firsts(off.deep_view()),
            want == both(on.deep_view(), off.deep_view()),
            order@.map_values(|i: usize| i as int) == listing_order(all),
            forall|i: int| 0 <= i < order.len() ==> (#[trigger] order@[i]) < names.len(),
            res.deep_view() == want.take(j as int),
        decreases order.len() - j,
    {
        let k = order[j];
        let ghost before = res.deep_view();
        res.push((names[k].clone(), k < on_set.len()));
        assert(listing_order(all)[j as int] == k);
        j += 1;
        assert(res.deep_view() =~= before.push((all[k as int], k < first.len())));
        assert(res.deep_view() =~= want.take(j as int));
    }
    assert(want.take(order.len() as int) =~= want);
    Ok(res)
}

/// The names among `installed` that are enabled.
pub open spec fn enabled_names(installed: Seq<(Seq<char>, bool)>) -> Seq<Seq<char>>
    decreases installed.len(),
{
    if installed.len() == 0 {
        seq![]
    } else if installed.last().1 {
        enabled_names(installed.drop_last()).push(installed.last().0)
    } else {
        enabled_names(installed.drop_last())
    }
}

fn enabled_of(installed: &Vec<(String, bool)>) -> (r: Vec<String>)
    ensures
        r.deep_view() == enabled_names(installed.deep_view()),
{
    let mut r: Vec<String> = Vec::new();
    let ghost all = installed.deep_view();
    let mut i: usize = 0;
    assert(r.deep_view() =~= seq![]);
    while i < installed.len()
        invariant
            i <= installed.len(),
            all == installed.deep_view(),
            r.deep_view() == enabled_names(all.take(i as int)),
        decreases installed.len() - i,
    {
        proof {
            assert(all.take(i + 1).drop_last() =~= all.take(i as int));
            assert(all[i as int] == (installed@[i as int].0@, installed@[i as int].1));
        }
        if installed[i].1 {
            let ghost before = r.deep_view();
            r.push(installed[i].0.clone());
            assert(r.deep_view() =~= before.push(all[i as int].0));
        }
        i += 1;
    }
    assert(all.take(installed.len() as int) =~= all);
    r
}

/// A session as its file tells it.
pub struct BisectState {
    pub round: u64,
    pub candidates: Json,
    pub enabled_now: Vec<String>,
    pub suspect: Json,
    pub done: bool,
}

pub struct StateModel {
    pub round: u64,
    pub candidates: JsonView,
    pub enabled_now: Seq<Seq<char>>,
    pub suspect: JsonView,
    pub done: bool,
}

impl BisectState {
    pub open spec fn model(&self) -> StateModel {
        StateModel {
            round: self.round,
            candidates: self.candidates.model(),
            enabled_now: self.enabled_now.deep_view(),
            suspect: self.suspect.model(),
            done: self.done,
        }
    }
}

/// The state of the session with the document `m`, or of none.
pub open spec fn state_view(m: Option<JsonView>, enabled: Seq<Seq<char>>) -> StateModel {
    match m {
        None => StateModel {
            round: 0,
            candidates: JsonView::Array(seq![]),
            enabled_now: enabled,
            suspect: JsonView::Null,
            done: false,
        },
        Some(m) => StateModel {
            round: match m.field("round"@) {
                Some(v) => match v.as_unsigned() {
                    Some(n) => n,
                    None => 0,
                },
                None => 0,
            },
            candidates: match m.field("candidates"@) {
                Some(v) => v,
                None => JsonView::Array(seq![]),
            },
            enabled_now: enabled,
            suspect: match m.field("suspect"@) {
                Some(v) => v,
                None => JsonView::Null,
            },
            done: m.flag("done"@),
        },
    }
}

/// The state of the session with the document `st`, or of none.
pub fn state_of(st: Option<&Json>, enabled_now: Vec<String>) -> (r: BisectState)
    ensures
        r.model() == state_view(model_of(st), enabled_now.deep_view()),
{
    let empty: Vec<Json> = Vec::new();
    let none = Json::Array(empty);
    assert(none.model()->Array_0 =~= seq![]);
    match st {
        None => BisectState {
            round: 0,
            candidates: none,
            enabled_now,
            suspect: Json::Null,
            done: false,
        },
        Some(st) => BisectState {
            round: match st.get("round") {
                Some(v) => match v.as_u64() {
                    Some(n) => n,
                    None => 0,
                },
                None => 0,
            },
            candidates: match st.get("candidates") {
                Some(v) => v.copy(),
                None => none,
            },
            enabled_now,
            suspect: match st.get("suspect") {
                Some(v) => v.copy(),
                None => Json::Null,
            },
            done: st.flag("done"),
        },
    }
}

/// The document of a session file; `None` where there is no file.
pub open spec fn document(state: Option<&str>) -> Result<Option<JsonView>, Seq<char>> {
    match state {
        None => Ok(None),
        Some(text) => match json_of(text@) {
            Ok(m) => Ok(Some(m)),
            Err(e) => Err(e),
        },
    }
}

/// The state of the session in the file `state`, with the folders that are in
/// `mods` and `mods_off` now.
pub fn bisect_state_internal(state: Option<&str>, on: &Vec<String>, off: &Vec<String>) -> (r:
    Result<BisectState, String>)
    ensures
        match installed_view(on.deep_view(), off.deep_view()) {
            Err(e) => r matches Err(x) && x@ == e,
            Ok(installed) => match document(state) {
                Err(e) => r matches Err(x) && x@
                    == "File .pzbisect.json chứa JSON không hợp lệ: "@ + e,
                Ok(m) => r matches Ok(s) && s.model() == state_view(m, enabled_names(installed)),
            },
        },
{
    let installed = match installed_folders_rs(on, off) {
        Err(e) => {
            return Err(e);
        },
        Ok(v) => v,
    };
    let enabled = enabled_of(&installed);
    match state {
        None => Ok(state_of(None, enabled)),
        Some(text) => match read_json(text) {
            Err(e) => Err(
                "File .pzbisect.json chứa JSON không hợp lệ: ".to_string().concat(e.as_str()),
            ),
            Ok(st) => Ok(state_of(Some(&st), enabled)),
        },
    }
}

/// What is shown of a session.
pub struct BisectView {
    pub running: bool,
    pub round: u64,
    pub candidates: Vec<String>,
    pub tested: Vec<String>,
    pub untested: Vec<String>,
    pub suspect: Json,
    pub enabled_now: Vec<String>,
    pub done: bool,
}

pub struct ViewModel {
    pub running: bool,
    pub round: u64,
    pub candidates: Seq<Seq<char>>,
    pub tested: Seq<Seq<char>>,
    pub untested: Seq<Seq<char>>,
    pub suspect: JsonView,
    pub enabled_now: Seq<Seq<char>>,
    pub done: bool,
}

impl BisectView {
    pub open spec fn model(&self) -> ViewModel {
        ViewModel {
            running: self.running,
            round: self.round,
            candidates: self.candidates.deep_view(),
            tested: self.tested.deep_view(),
            untested: self.untested.deep_view(),
            suspect: self.suspect.model(),
            enabled_now: self.enabled_now.deep_view(),
            done: self.done,
        }
    }
}

/// What is shown of a session in the state `s`: it runs while candidates are
/// left and none was found, and a candidate is under test while enabled.
pub open spec fn shown(s: StateModel) -> ViewModel {
    let c = strings_among(s.candidates.items());
    ViewModel {
        running: c.len() > 0 && !s.done,
        round: s.round,
        candidates: c,
        tested: common(c, s.enabled_now),
        untested: minus(c, s.enabled_now),
        suspect: s.suspect,
        enabled_now: s.enabled_now,
        done: s.done,
    }
}

/// What is shown of a session.
pub fn view_of(s: BisectState) -> (r: BisectView)
    ensures
        r.model() == shown(s.model()),
{
    let candidates = s.candidates.string_items();
    let tested = select(&candidates, &s.enabled_now, true);
    let untested = select(&candidates, &s.enabled_now, false);
    let running = candidates.len() > 0 && !s.done;
    BisectView {
        running,
        round: s.round,
        candidates,
        tested,
        untested,
        suspect: s.suspect,
        enabled_now: s.enabled_now,
        done: s.done,
    }
}

/// What is shown of the session in the file `state`.
pub fn bisect_view_internal(state: Option<&str>, on: &Vec<String>, off: &Vec<String>) -> (r: Result<
    BisectView,
    String,
>)
    ensures
        match installed_view(on.deep_view(), off.deep_view()) {
            Err(e) => r matches Err(x) && x@ == e,
            Ok(installed) => match document(state) {
                Err(e) => r matches Err(x) && x@
                    == "File .pzbisect.json chứa JSON không hợp lệ: "@ + e,
                Ok(m) => r matches Ok(v) && v.model() == shown(
                    state_view(m, enabled_names(installed)),
                ),
            },
        },
{
    match bisect_state_internal(state, on, off) {
        Err(e) => Err(e),
        Ok(s) => Ok(view_of(s)),
    }
}

/// Why the first of `names` that is refused is refused.
pub open spec fn first_fault(names: Seq<Seq<char>>) -> Option<Seq<char>>
    decreases names.len(),
{
    if names.len() == 0 {
        None
    } else {
        match folder_check(names[0]) {
            Err(e) => Some(e),
            Ok(_) => first_fault(names.drop_first()),
        }
    }
}

/// Fails with the refusal of the first name that is refused.
pub fn check_all(names: &Vec<String>) -> (r: Result<(), String>)
    ensures
        match r {
            Ok(_) => first_fault(names.deep_view()) is None,
            Err(e) => first_fault(names.deep_view()) == Some(e@),
        },
{
    let ghost all = names.deep_view();
    let mut i: usize = 0;
    assert(all.skip(0) =~= all);
    while i < names.len()
        invariant
            i <= names.len(),
            all == names.deep_view(),
            first_fault(all) == first_fault(all.skip(i as int)),
        decreases names.len() - i,
    {
        assert(all.skip(i as int)[0] == names@[i as int]@);
        assert(all.skip(i as int).drop_first() =~= all.skip(i + 1));
        match check_folder(names[i].as_str()) {
            Err(e) => {
                return Err(e);
            },
            Ok(_) => {},
        }
        i += 1;
    }
    Ok(())
}

/// The first of `names` that is not the one under which the folder is looked up.
pub open spec fn first_stray(names: Seq<Seq<char>>) -> Option<Seq<char>>
    decreases names.len(),
{
    if names.len() == 0 {
        None
    } else if trimmed(names[0]) != names[0] {
        Some(names[0])
    } else {
        first_stray(names.drop_first())
    }
}

fn find_stray(names: &Vec<String>) -> (r: Option<String>)
    ensures
        r.deep_view() == first_stray(names.deep_view()),
{
    let ghost all = names.deep_view();
    let mut i: usize = 0;
    assert(all.skip(0) =~= all);
    while i < names.len()
        invariant
            i <= names.len(),
            all == names.deep_view(),
            first_stray(all) == first_stray(all.skip(i as int)),
        decreases names.len() - i,
    {
        assert(all.skip(i as int)[0] == names@[i as int]@);
        assert(all.skip(i as int).drop_first() =~= all.skip(i + 1));
        let bare = trim(names[i].as_str());
        if !same(bare.as_str(), names[i].as_str()) {
            return Some(names[i].clone());
        }
        i += 1;
    }
    None
}

/// The bare names that `list` asks for, all of them among `known`.
pub open spec fn asked_for(list: Seq<Seq<char>>, known: Seq<Seq<char>>) -> Result<
    Seq<Seq<char>>,
    Seq<char>,
>
    decreases list.len(),
{
    if list.len() == 0 {
        Ok(seq![])
    } else {
        match asked_for(list.drop_last(), known) {
            Err(e) => Err(e),
            Ok(r) => match folder_check(list.last()) {
                Err(e) => Err(e),
                Ok(f) => if known.contains(f) {
                    Ok(r.push(f))
                } else {
                    Err("Mod '"@ + f + "' không tồn tại trong danh sách cài đặt."@)
                },
            },
        }
    }
}

pub open spec fn texts_result(r: Result<Vec<String>, String>) -> Result<
    Seq<Seq<char>>,
    Seq<char>,
> {
    match r {
        Ok(v) => Ok(v.deep_view()),
        Err(e) => Err(e@),
    }
}

/// Once a prefix of the list is refused, the whole of it is, for that reason.
proof fn lemma_asked_for_prefix(list: Seq<Seq<char>>, known: Seq<Seq<char>>, k: int)
    requires
        0 <= k <= list.len(),
        asked_for(list.take(k), known) is Err,
    ensures
        asked_for(list, known) == asked_for(list.take(k), known),
    decreases list.len(),
{
    if k < list.len() {
        assert(list.drop_last().take(k) =~= list.take(k));
        lemma_asked_for_prefix(list.drop_last(), known, k);
    } else {
        assert(list.take(k) =~= list);
    }
}

fn ask_for(list: &Vec<String>, known: &Vec<String>) -> (r: Result<Vec<String>, String>)
    ensures
        texts_result(r) == asked_for(list.deep_view(), known.deep_view()),
{
    let ghost all = list.deep_view();
    let ghost k = known.deep_view();
    let mut out: Vec<String> = Vec::new();
    let mut i: usize = 0;
    assert(out.deep_view() =~= seq![]);
    while i < list.len()
        invariant
            i <= list.len(),
            all == list.deep_view(),
            k == known.deep_view(),
            asked_for(all.take(i as int), k) == Ok::<Seq<Seq<char>>, Seq<char>>(out.deep_view()),
        decreases list.len() - i,
    {
        proof {
            assert(all.take(i + 1).drop_last() =~= all.take(i as int));
            assert(all.take(i + 1).last() == list@[i as int]@);
            if asked_for(all.take(i + 1), k) is Err {
                lemma_asked_for_prefix(all, k, i + 1);
            }
        }
        match check_folder(list[i].as_str()) {
            Err(e) => {
                return Err(e);
            },
            Ok(f) => {
                if !holds(known, f.as_str()) {
                    return Err(
                        "Mod '".to_string().concat(f.as_str()).concat(
                            "' không tồn tại trong danh sách cài đặt.",
                        ),
                    );
                }
                let ghost before = out.deep_view();
                out.push(f);
                assert(out.deep_view() =~= before.push(f@));
            },
        }
        i += 1;
    }
    assert(all.take(list.len() as int) =~= all);
    Ok(out)
}

/// The size of the half that is tested: the greater one.
pub open spec fn half(n: nat) -> nat {
    (n - n / 2) as nat
}

/// The half of the candidates that a round tests.
pub open spec fn left_half(c: Seq<Seq<char>>) -> Seq<Seq<char>> {
    c.take(half(c.len()) as int)
}

/// The half of the candidates that a round leaves out.
pub open spec fn right_half(c: Seq<Seq<char>>) -> Seq<Seq<char>> {
    c.skip(half(c.len()) as int)
}

/// The moves of a round: the half under test on, the other one off.
pub open spec fn round_moves(c: Seq<Seq<char>>) -> Seq<(Seq<char>, Direction)> {
    left_half(c).map_values(|f: Seq<char>| (f, Direction::Enable)) + right_half(c).map_values(
        |f: Seq<char>| (f, Direction::Disable),
    )
}

fn sub_list(names: &Vec<String>, from: usize, to: usize) -> (r: Vec<String>)
    requires
        from <= to <= names.len(),
    ensures
        r.deep_view() == names.deep_view().subrange(from as int, to as int),
{
    let mut r: Vec<String> = Vec::new();
    let ghost all = names.deep_view();
    let mut i: usize = from;
    while i < to
        invariant
            from <= i <= to <= names.len(),
            all == names.deep_view(),
            r.deep_view() == all.subrange(from as int, i as int),
        decreases to - i,
    {
        let ghost before = r.deep_view();
        r.push(names[i].clone());
        i += 1;
        assert(r.deep_view() =~= before.push(all[i - 1]));
        assert(r.deep_view() =~= all.subrange(from as int, i as int));
    }
    r
}

/// A round: what it tests, what it leaves out, and the moves to get there.
struct Round {
    left: Vec<String>,
    right: Vec<String>,
    moves: Vec<Move>,
}

fn split_round(c: &Vec<String>) -> (r: Round)
    ensures
        r.left.deep_view() == left_half(c.deep_view()),
        r.right.deep_view() == right_half(c.deep_view()),
        r.moves.deep_view() == round_moves(c.deep_view()),
{
    let ghost all = c.deep_view();
    let mid = c.len() - c.len() / 2;
    let left = sub_list(c, 0, mid);
    let right = sub_list(c, mid, c.len());
    assert(left.deep_view() =~= left_half(all));
    assert(right.deep_view() =~= right_half(all));
    let ghost want = round_moves(all);
    let mut moves: Vec<Move> = Vec::new();
    let mut i: usize = 0;
    while i < c.len()
        invariant
            i <= c.len(),
            all == c.deep_view(),
            mid == half(all.len()),
            mid <= c.len(),
            want == round_moves(all),
            moves.deep_view() == want.take(i as int),
        decreases c.len() - i,
    {
        let ghost before = moves.deep_view();
        let direction = if i < mid { Direction::Enable } else { Direction::Disable };
        moves.push(Move { folder: c[i].clone(), direction });
        proof {
            assert(moves.deep_view() =~= before.push((all[i as int], direction)));
            assert(want[i as int] == (all[i as int], direction));
        }
        i += 1;
        assert(moves.deep_view() =~= want.take(i as int));
    }
    assert(want.take(c.len() as int) =~= want);
    Round { left, right, moves }
}

/// The candidates of a new session, or why there is none. Every candidate can be
/// moved: a folder whose name is not the one that it is looked up by is not found.
pub open spec fn start_candidates(
    names: Option<Seq<Seq<char>>>,
    installed: Seq<(Seq<char>, bool)>,
) -> Result<Seq<Seq<char>>, Seq<char>> {
    let asked = match names {
        None => Ok(enabled_names(installed)),
        Some(list) => match asked_for(list, installed.map_values(|p: (Seq<char>, bool)| p.0)) {
            Err(e) => Err(e),
            Ok(r) => Ok(firsts(r)),
        },
    };
    match asked {
        Err(e) => Err(e),
        Ok(c) => if c.len() < 2 {
            Err(
                "Bisect cần tối thiểu 2 candidates để bắt đầu (hiện có "@ + decimal(c.len())
                    + ")."@,
            )
        } else {
            match first_fault(c) {
                Some(e) => Err(e),
                None => match first_stray(c) {
                    Some(f) => Err(
                        "Không tìm thấy thư mục mod '"@ + trimmed(f)
                            + "' trong mods/ hoặc mods_off/"@,
                    ),
                    None => Ok(listed(c)),
                },
            }
        },
    }
}

/// The document of a session in its first round.
pub open spec fn first_state(c: Seq<Seq<char>>, original: Seq<Seq<char>>) -> JsonView {
    object_of(
        seq![
            ("round"@, JsonView::Number(NumberView::Unsigned(1))),
            ("candidates"@, text_array(c)),
            ("current_tested"@, text_array(left_half(c))),
            ("current_untested"@, text_array(right_half(c))),
            ("original_enabled"@, text_array(original)),
            ("snapshot"@, text_array(c)),
            ("suspect"@, JsonView::Null),
            ("done"@, JsonView::Bool(false)),
        ],
    )
}

/// What a new session writes down and moves.
pub struct StartModel {
    pub state: JsonView,
    pub moves: Seq<(Seq<char>, Direction)>,
}

/// A session may start where none is running, no name stands in both places,
/// and there are two candidates.
pub open spec fn start_view(
    names: Option<Seq<Seq<char>>>,
    running: bool,
    on: Seq<Seq<char>>,
    off: Seq<Seq<char>>,
) -> Result<StartModel, Seq<char>> {
    if running {
        Err(
            "Đang có phiên bisect hoạt động. Hãy bấm 'Dừng' trong tab Dò mod lỗi trước khi bắt đầu phiên mới."@,
        )
    } else {
        match installed_view(on, off) {
            Err(e) => Err(e),
            Ok(installed) => match start_candidates(names, installed) {
                Err(e) => Err(e),
                Ok(c) => Ok(
                    StartModel {
                        state: first_state(c, enabled_names(installed)),
                        moves: round_moves(c),
                    },
                ),
            },
        }
    }
}

/// A change of a session: the new document, and the moves that go before it
/// is written.
pub struct SessionStep {
    pub state: Json,
    pub moves: Vec<Move>,
}

pub open spec fn opt_texts(names: Option<Vec<String>>) -> Option<Seq<Seq<char>>> {
    match names {
        Some(v) => Some(v.deep_view()),
        None => None,
    }
}

fn names_of(installed: &Vec<(String, bool)>) -> (r: Vec<String>)
    ensures
        r.deep_view() == installed.deep_view().map_values(|p: (Seq<char>, bool)| p.0),
{
    let mut r: Vec<String> = Vec::new();
    let ghost want = installed.deep_view().map_values(|p: (Seq<char>, bool)| p.0);
    let mut i: usize = 0;
    while i < installed.len()
        invariant
            i <= installed.len(),
            want == installed.deep_view().map_values(|p: (Seq<char>, bool)| p.0),
            r.deep_view() == want.take(i as int),
        decreases installed.len() - i,
    {
        let ghost before = r.deep_view();
        r.push(installed[i].0.clone());
        i += 1;
        assert(r.deep_view() =~= before.push(installed@[i - 1].0@));
        assert(r.deep_view() =~= want.take(i as int));
    }
    assert(want.take(installed.len() as int) =~= want);
    r
}

/// Starts a session over the folders `names`, or over those that are enabled.
pub fn start_session(
    names: Option<Vec<String>>,
    running: bool,
    on: &Vec<String>,
    off: &Vec<String>,
) -> (r: Result<SessionStep, String>)
    ensures
        match start_view(opt_texts(names), running, on.deep_view(), off.deep_view()) {
            Err(e) => r matches Err(x) && x@ == e,
            Ok(m) => r matches Ok(s) && s.state.model() == m.state && s.moves.deep_view()
                == m.moves && sound(m.state, 2),
        },
{
    if running {
        return Err(
            "Đang có phiên bisect hoạt động. Hãy bấm 'Dừng' trong tab Dò mod lỗi trước khi bắt đầu phiên mới.".to_string(),
        );
    }
    let installed = match installed_folders_rs(on, off) {
        Err(e) => {
            return Err(e);
        },
        Ok(v) => v,
    };
    let original = enabled_of(&installed);
    let asked = match names {
        None => copy_texts(&original),
        Some(list) => {
            let known = names_of(&installed);
            match ask_for(&list, &known) {
                Err(e) => {
                    return Err(e);
                },
                Ok(v) => dedup_ids(&v),
            }
        },
    };
    if asked.len() < 2 {
        return Err(
            "Bisect cần tối thiểu 2 candidates để bắt đầu (hiện có ".to_string().concat(
                decimal_text(asked.len() as u64).as_str(),
            ).concat(")."),
        );
    }
    match check_all(&asked) {
        Err(e) => {
            return Err(e);
        },
        Ok(_) => {},
    }
    if let Some(f) = find_stray(&asked) {
        return Err(
            "Không tìm thấy thư mục mod '".to_string().concat(trim(f.as_str()).as_str()).concat(
                "' trong mods/ hoặc mods_off/",
            ),
        );
    }
    let candidates = list_names(&asked);
    let round = split_round(&candidates);
    let mut pairs: Vec<(String, Json)> = Vec::new();
    assert(pairs_of(pairs@) =~= seq![]);
    put(&mut pairs, "round", json_number(1));
    put(&mut pairs, "candidates", json_texts(&candidates));
    put(&mut pairs, "current_tested", json_texts(&round.left));
    put(&mut pairs, "current_untested", json_texts(&round.right));
    put(&mut pairs, "original_enabled", json_texts(&original));
    put(&mut pairs, "snapshot", json_texts(&candidates));
    put(&mut pairs, "suspect", Json::Null);
    put(&mut pairs, "done", Json::Bool(false));
    let state = Json::Object(pairs);
    proof {
        lemma_object_model(pairs);
        lemma_first_state(candidates.deep_view(), original.deep_view());
    }
    Ok(SessionStep { state, moves: round.moves })
}

/// The field names of a session's document are all different, and short.
pub proof fn lemma_keys()
    ensures
        "round"@.len() == 5,
        "candidates"@.len() == 10,
        "current_tested"@.len() == 14,
        "current_untested"@.len() == 16,
        "original_enabled"@.len() == 16,
        "current_untested"@ != "original_enabled"@,
        "snapshot"@.len() == 8,
        "suspect"@.len() == 7,
        "done"@.len() == 4,
        forall|key: Seq<char>| #![trigger key.len()] key.len() <= 16 ==> key != raw_key(),
{
    reveal_strlit("round");
    reveal_strlit("candidates");
    reveal_strlit("current_tested");
    reveal_strlit("current_untested");
    reveal_strlit("original_enabled");
    reveal_strlit("snapshot");
    reveal_strlit("suspect");
    reveal_strlit("done");
    assert("current_untested"@[0] != "original_enabled"@[0]);
    assert forall|key: Seq<char>| #![trigger key.len()] key.len() <= 16 implies key != raw_key() by {
        lemma_short_key(key);
    }
}

/// The document of a first round, field by field.
proof fn lemma_first_state(c: Seq<Seq<char>>, original: Seq<Seq<char>>)
    ensures
        first_state(c, original) == JsonView::Object(
            with_field(
                with_field(
                    with_field(
                        with_field(
                            with_field(
                                with_field(
                                    with_field(
                                        with_field(
                                            seq![],
                                            "round"@,
                                            JsonView::Number(NumberView::Unsigned(1)),
                                        ),
                                        "candidates"@,
                                        text_array(c),
                                    ),
                                    "current_tested"@,
                                    text_array(left_half(c)),
                                ),
                                "current_untested"@,
                                text_array(right_half(c)),
                            ),
                            "original_enabled"@,
                            text_array(original),
                        ),
                        "snapshot"@,
                        text_array(c),
                    ),
                    "suspect"@,
                    JsonView::Null,
                ),
                "done"@,
                JsonView::Bool(false),
            ),
        ),
        sound(first_state(c, original), 2),
{
    let f = seq![
        ("round"@, JsonView::Number(NumberView::Unsigned(1))),
        ("candidates"@, text_array(c)),
        ("current_tested"@, text_array(left_half(c))),
        ("current_untested"@, text_array(right_half(c))),
        ("original_enabled"@, text_array(original)),
        ("snapshot"@, text_array(c)),
        ("suspect"@, JsonView::Null),
        ("done"@, JsonView::Bool(false)),
    ];
    lemma_keys();
    reveal_with_fuel(fields_of, 9);
    assert(f.drop_last().drop_last().drop_last().drop_last().drop_last().drop_last().drop_last().drop_last()
        =~= seq![]);
    lemma_text_array(c);
    lemma_text_array(left_half(c));
    lemma_text_array(right_half(c));
    lemma_text_array(original);
    lemma_fields_of_sound(f, 1);
}

/// What an answer to a round comes to.
pub enum MarkModel {
    /// The session has found its suspect already.
    Finished,
    /// One candidate is left.
    Found { state: JsonView },
    /// The candidates are halved once more.
    Split { state: JsonView, moves: Seq<(Seq<char>, Direction)> },
}

/// The fields of a document that is an object.
pub open spec fn object_fields(m: JsonView) -> Seq<(Seq<char>, JsonView)> {
    match m {
        JsonView::Object(pairs) => pairs,
        _ => seq![],
    }
}

/// The document of a session that has found `suspect`.
pub open spec fn found_state(m: JsonView, suspect: Seq<char>) -> JsonView {
    let p = object_fields(m);
    let p = with_field(p, "candidates"@, text_array(seq![suspect]));
    let p = with_field(p, "current_tested"@, text_array(seq![]));
    let p = with_field(p, "current_untested"@, text_array(seq![]));
    let p = with_field(p, "suspect"@, JsonView::Str(suspect));
    JsonView::Object(with_field(p, "done"@, JsonView::Bool(true)))
}

/// The number of the round after that of the document `m`.
pub open spec fn next_round(m: JsonView) -> u64 {
    let n = match m.field("round"@) {
        Some(v) => match v.as_unsigned() {
            Some(n) => n,
            None => 1,
        },
        None => 1,
    };
    if n == u64::MAX {
        0
    } else {
        (n + 1) as u64
    }
}

/// The document of a session that goes on with the candidates `c`.
pub open spec fn split_state(m: JsonView, c: Seq<Seq<char>>) -> JsonView {
    let p = object_fields(m);
    let p = with_field(p, "round"@, JsonView::Number(NumberView::Unsigned(next_round(m))));
    let p = with_field(p, "candidates"@, text_array(c));
    let p = with_field(p, "current_tested"@, text_array(left_half(c)));
    JsonView::Object(with_field(p, "current_untested"@, text_array(right_half(c))))
}

/// The candidates that an answer leaves: those under test where the fault is
/// still there, else the others.
pub open spec fn remaining(m: JsonView, bad: bool) -> Seq<Seq<char>> {
    if bad {
        m.strings("current_tested"@)
    } else {
        m.strings("current_untested"@)
    }
}

/// What the answer `bad` to the round of the document `m` comes to. Names are
/// checked before anything moves.
pub open spec fn mark_view(m: JsonView, bad: bool) -> Result<MarkModel, Seq<char>> {
    let c = remaining(m, bad);
    if m.flag("done"@) {
        Ok(MarkModel::Finished)
    } else if c.len() == 0 {
        Err("Lỗi logic bisect: danh sách candidates bị rỗng."@)
    } else {
        match first_fault(c) {
            Some(e) => Err(e),
            None => if c.len() == 1 {
                Ok(MarkModel::Found { state: found_state(m, c[0]) })
            } else {
                Ok(
                    MarkModel::Split {
                        state: split_state(m, listed(c)),
                        moves: round_moves(listed(c)),
                    },
                )
            },
        }
    }
}

pub enum MarkStep {
    Finished,
    Step(SessionStep),
}

pub open spec fn mark_matches(r: Result<MarkStep, String>, v: Result<MarkModel, Seq<char>>) -> bool {
    match v {
        Err(e) => r matches Err(x) && x@ == e,
        Ok(MarkModel::Finished) => r matches Ok(MarkStep::Finished),
        Ok(MarkModel::Found { state }) => r matches Ok(MarkStep::Step(s)) && s.state.model()
            == state && s.moves.len() == 0,
        Ok(MarkModel::Split { state, moves }) => r matches Ok(MarkStep::Step(s)) && s.state.model()
            == state && s.moves.deep_view() == moves,
    }
}

/// Every document that an answer leads to is as well-formed, and as exact, as
/// the one before.
pub proof fn lemma_mark_keeps_documents(m: JsonView, bad: bool)
    requires
        m.wf(),
    ensures
        mark_view(m, bad) matches Ok(MarkModel::Found { state }) ==> state.wf() && (m.exact()
            ==> state.exact()) && (m.nests(2) ==> state.nests(2)) && (m.plain() ==> state.plain()),
        mark_view(m, bad) matches Ok(MarkModel::Split { state, moves }) ==> state.wf() && (
        m.exact() ==> state.exact()) && (m.nests(2) ==> state.nests(2)) && (m.plain()
            ==> state.plain()),
{
    lemma_keys();
    let c = remaining(m, bad);
    let p0 = object_fields(m);
    if c.len() >= 1 {
        assert(m is Object) by {
            if !(m is Object) {
                assert(strings_among(seq![]) =~= seq![]);
            }
        }
        let s = c[0];
        lemma_text_array(seq![s]);
        lemma_text_array(seq![]);
        let a = text_array(seq![s]);
        let e = text_array(seq![]);
        lemma_with_field_sound(p0, "candidates"@, a, 1);
        let p1 = with_field(p0, "candidates"@, a);
        lemma_with_field_sound(p1, "current_tested"@, e, 1);
        let p2 = with_field(p1, "current_tested"@, e);
        lemma_with_field_sound(p2, "current_untested"@, e, 1);
        let p3 = with_field(p2, "current_untested"@, e);
        lemma_with_field_sound(p3, "suspect"@, JsonView::Str(s), 1);
        let p4 = with_field(p3, "suspect"@, JsonView::Str(s));
        lemma_with_field_sound(p4, "done"@, JsonView::Bool(true), 1);
        let l = listed(c);
        lemma_text_array(l);
        lemma_text_array(left_half(l));
        lemma_text_array(right_half(l));
        let r = JsonView::Number(NumberView::Unsigned(next_round(m)));
        lemma_with_field_sound(p0, "round"@, r, 1);
        let q1 = with_field(p0, "round"@, r);
        lemma_with_field_sound(q1, "candidates"@, text_array(l), 1);
        let q2 = with_field(q1, "candidates"@, text_array(l));
        lemma_with_field_sound(q2, "current_tested"@, text_array(left_half(l)), 1);
        let q3 = with_field(q2, "current_tested"@, text_array(left_half(l)));
        lemma_with_field_sound(q3, "current_untested"@, text_array(right_half(l)), 1);
    }
}

/// Takes the answer to a round: whether the fault is still there.
pub fn mark_session(st: Json, bad: bool) -> (r: Result<MarkStep, String>)
    ensures
        mark_matches(r, mark_view(st.model(), bad)),
{
    if st.flag("done") {
        return Ok(MarkStep::Finished);
    }
    let c = if bad {
        st.strings("current_tested")
    } else {
        st.strings("current_untested")
    };
    if c.len() == 0 {
        return Err("Lỗi logic bisect: danh sách candidates bị rỗng.".to_string());
    }
    match check_all(&c) {
        Err(e) => {
            return Err(e);
        },
        Ok(_) => {},
    }
    let n = match st.get("round") {
        Some(v) => match v.as_u64() {
            Some(n) => n,
            None => 1,
        },
        None => 1,
    };
    let round_number: u64 = if n == u64::MAX { 0 } else { n + 1 };
    let ghost m = st.model();
    let mut pairs: Vec<(String, Json)> = match st {
        Json::Object(pairs) => pairs,
        _ => Vec::new(),
    };
    proof {
        if let JsonView::Object(p) = m {
            lemma_object_model(pairs);
        }
        assert(pairs_of(pairs@) =~= object_fields(m));
    }
    let none: Vec<String> = Vec::new();
    assert(none.deep_view() =~= seq![]);
    if c.len() == 1 {
        assert(c.deep_view() =~= seq![c@[0]@]);
        let suspect = c[0].clone();
        put(&mut pairs, "candidates", json_texts(&c));
        put(&mut pairs, "current_tested", json_texts(&none));
        put(&mut pairs, "current_untested", json_texts(&none));
        put(&mut pairs, "suspect", Json::Str(suspect));
        put(&mut pairs, "done", Json::Bool(true));
        let state = Json::Object(pairs);
        proof {
            lemma_object_model(pairs);
        }
        let moves: Vec<Move> = Vec::new();
        Ok(MarkStep::Step(SessionStep { state, moves }))
    } else {
        let candidates = list_names(&c);
        let round = split_round(&candidates);
        put(&mut pairs, "round", json_number(round_number));
        put(&mut pairs, "candidates", json_texts(&candidates));
        put(&mut pairs, "current_tested", json_texts(&round.left));
        put(&mut pairs, "current_untested", json_texts(&round.right));
        let state = Json::Object(pairs);
        proof {
            lemma_object_model(pairs);
        }
        Ok(MarkStep::Step(SessionStep { state, moves: round.moves }))
    }
}

/// The folders that a session may have moved: those that were enabled when it
/// began, and every candidate that it has had.
pub open spec fn touched(m: JsonView) -> Seq<Seq<char>> {
    m.strings("original_enabled"@) + m.strings("candidates"@) + m.strings("current_tested"@)
        + m.strings("current_untested"@) + m.strings("snapshot"@)
}

/// The moves that put `installed` back: what was enabled on, and what the
/// session touched besides off.
pub open spec fn stop_moves(
    installed: Seq<(Seq<char>, bool)>,
    original: Seq<Seq<char>>,
    pool: Seq<Seq<char>>,
) -> Seq<(Seq<char>, Direction)>
    decreases installed.len(),
{
    if installed.len() == 0 {
        seq![]
    } else {
        let r = stop_moves(installed.drop_last(), original, pool);
        let (f, enabled) = installed.last();
        if original.contains(f) && !enabled {
            r.push((f, Direction::Enable))
        } else if pool.contains(f) && !original.contains(f) && enabled {
            r.push((f, Direction::Disable))
        } else {
            r
        }
    }
}

/// What stopping a session comes to.
pub struct StopModel {
    pub moves: Seq<(Seq<char>, Direction)>,
    pub restored: Seq<Seq<char>>,
}

/// The folders that `moves` move.
pub open spec fn moved(moves: Seq<(Seq<char>, Direction)>) -> Seq<Seq<char>> {
    moves.map_values(|p: (Seq<char>, Direction)| p.0)
}

/// Those of `names` that stand in neither place.
pub open spec fn absent(
    names: Seq<Seq<char>>,
    on: Seq<Seq<char>>,
    off: Seq<Seq<char>>,
) -> Seq<Seq<char>>
    decreases names.len(),
{
    if names.len() == 0 {
        seq![]
    } else {
        let r = absent(names.drop_last(), on, off);
        if on.contains(names.last()) || off.contains(names.last()) {
            r
        } else {
            r.push(names.last())
        }
    }
}

/// Those of `names` that stand in neither place.
fn absent_names(names: &Vec<String>, on: &Vec<String>, off: &Vec<String>) -> (r: Vec<String>)
    ensures
        r.deep_view() == absent(names.deep_view(), on.deep_view(), off.deep_view()),
{
    let ghost all = names.deep_view();
    let mut r: Vec<String> = Vec::new();
    let mut i: usize = 0;
    assert(r.deep_view() =~= seq![]);
    while i < names.len()
        invariant
            i <= names.len(),
            all == names.deep_view(),
            r.deep_view() == absent(all.take(i as int), on.deep_view(), off.deep_view()),
        decreases names.len() - i,
    {
        assert(all.take(i + 1).drop_last() =~= all.take(i as int));
        if !holds(on, names[i].as_str()) && !holds(off, names[i].as_str()) {
            let ghost before = r.deep_view();
            r.push(names[i].clone());
            assert(r.deep_view() =~= before.push(names@[i as int]@));
        }
        i += 1;
    }
    assert(all.take(names.len() as int) =~= all);
    r
}

/// The names in a document that must be those of folders: the candidates, and what
/// was enabled, unless it stands there under that name. A folder that the session
/// leaves alone may have any name.
pub open spec fn recorded(m: JsonView, on: Seq<Seq<char>>, off: Seq<Seq<char>>) -> Seq<Seq<char>> {
    absent(m.strings("original_enabled"@), on, off) + m.strings("candidates"@) + m.strings(
        "current_tested"@,
    ) + m.strings("current_untested"@)
}

/// A session is stopped by its document `m`. A document that does not tell
/// what was enabled or that records a name that is refused stops nothing, and
/// neither does one by which a folder with such a name would have to move.
pub open spec fn stop_view(m: JsonView, on: Seq<Seq<char>>, off: Seq<Seq<char>>) -> Result<
    StopModel,
    Seq<char>,
> {
    if !(m.field("original_enabled"@) matches Some(JsonView::Array(_))) {
        Err(
            "File trạng thái .pzbisect.json bị hỏng (thiếu trường 'original_enabled'). Dừng khôi phục để tránh tắt nhầm mod. Hãy khôi phục thủ công."@,
        )
    } else {
        let original = m.strings("original_enabled"@);
        match first_fault(recorded(m, on, off)) {
            Some(e) => Err(e),
            None => match installed_view(on, off) {
                Err(e) => Err(e),
                Ok(installed) => {
                    let moves = stop_moves(installed, original, touched(m));
                    match first_fault(moved(moves)) {
                        Some(e) => Err(e),
                        None => Ok(StopModel { moves, restored: firsts(original) }),
                    }
                },
            },
        }
    }
}

pub struct StopStep {
    pub moves: Vec<Move>,
    pub restored: Vec<String>,
}

fn append_texts(out: &mut Vec<String>, more: &Vec<String>)
    ensures
        final(out).deep_view() == old(out).deep_view() + more.deep_view(),
{
    let ghost start = out.deep_view();
    let ghost all = more.deep_view();
    let mut i: usize = 0;
    assert(start + all.take(0) =~= start);
    while i < more.len()
        invariant
            i <= more.len(),
            all == more.deep_view(),
            out.deep_view() == start + all.take(i as int),
        decreases more.len() - i,
    {
        let ghost before = out.deep_view();
        out.push(more[i].clone());
        i += 1;
        assert(out.deep_view() =~= before.push(all[i - 1]));
        assert(out.deep_view() =~= start + all.take(i as int));
    }
    assert(all.take(more.len() as int) =~= all);
}

/// Stops the session with the document `st`: the moves that put every folder
/// back where it stood when the session began.
pub fn stop_session(st: &Json, on: &Vec<String>, off: &Vec<String>) -> (r: Result<StopStep, String>)
    ensures
        match stop_view(st.model(), on.deep_view(), off.deep_view()) {
            Err(e) => r matches Err(x) && x@ == e,
            Ok(m) => r matches Ok(s) && s.moves.deep_view() == m.moves && s.restored.deep_view()
                == m.restored,
        },
{
    let has_original = match st.get("original_enabled") {
        Some(v) => v.array().is_some(),
        None => false,
    };
    if !has_original {
        return Err(
            "File trạng thái .pzbisect.json bị hỏng (thiếu trường 'original_enabled'). Dừng khôi phục để tránh tắt nhầm mod. Hãy khôi phục thủ công.".to_string(),
        );
    }
    let original = st.strings("original_enabled");
    let mut names = absent_names(&original, on, off);
    append_texts(&mut names, &st.strings("candidates"));
    append_texts(&mut names, &st.strings("current_tested"));
    append_texts(&mut names, &st.strings("current_untested"));
    match check_all(&names) {
        Err(e) => {
            return Err(e);
        },
        Ok(_) => {},
    }
    let mut pool = copy_texts(&original);
    append_texts(&mut pool, &st.strings("candidates"));
    append_texts(&mut pool, &st.strings("current_tested"));
    append_texts(&mut pool, &st.strings("current_untested"));
    append_texts(&mut pool, &st.strings("snapshot"));
    let installed = match installed_folders_rs(on, off) {
        Err(e) => {
            return Err(e);
        },
        Ok(v) => v,
    };
    let ghost all = installed.deep_view();
    let mut moves: Vec<Move> = Vec::new();
    let mut folders: Vec<String> = Vec::new();
    let mut i: usize = 0;
    assert(moves.deep_view() =~= seq![]);
    assert(folders.deep_view() =~= moved(seq![]));
    while i < installed.len()
        invariant
            i <= installed.len(),
            all == installed.deep_view(),
            moves.deep_view() == stop_moves(
                all.take(i as int),
                original.deep_view(),
                pool.deep_view(),
            ),
            folders.deep_view() == moved(moves.deep_view()),
        decreases installed.len() - i,
    {
        proof {
            assert(all.take(i + 1).drop_last() =~= all.take(i as int));
            assert(all[i as int] == (installed@[i as int].0@, installed@[i as int].1));
        }
        let was_on = holds(&original, installed[i].0.as_str());
        let ghost before = moves.deep_view();
        let ghost names = folders.deep_view();
        if was_on && !installed[i].1 {
            folders.push(installed[i].0.clone());
            assert(folders.deep_view() =~= names.push(all[i as int].0));
            moves.push(Move { folder: installed[i].0.clone(), direction: Direction::Enable });
            assert(moves.deep_view() =~= before.push((all[i as int].0, Direction::Enable)));
        } else if !was_on && installed[i].1 && holds(&pool, installed[i].0.as_str()) {
            folders.push(installed[i].0.clone());
            assert(folders.deep_view() =~= names.push(all[i as int].0));
            moves.push(Move { folder: installed[i].0.clone(), direction: Direction::Disable });
            assert(moves.deep_view() =~= before.push((all[i as int].0, Direction::Disable)));
        }
        i += 1;
        assert(folders.deep_view() =~= moved(moves.deep_view()));
    }
    assert(all.take(installed.len() as int) =~= all);
    match check_all(&folders) {
        Err(e) => {
            return Err(e);
        },
        Ok(_) => {},
    }
    let restored = dedup_ids(&original);
    Ok(StopStep { moves, restored })
}

/// A change of a session, with the text for its file.
pub struct SessionPlan {
    pub moves: Vec<Move>,
    /// Written once the moves are done; an error is then the answer.
    pub body: Result<String, String>,
}

pub enum MarkPlan {
    Finished,
    Plan(SessionPlan),
}

/// The text for the file of a session with the document `m`, which is read back
/// where it is one that comes back as it is.
pub open spec fn body_of(m: JsonView, body: Result<String, String>) -> bool {
    &&& body matches Ok(s)
    &&& s@ == json_text(reread(m))
    &&& m.readable() ==> json_of(s@) == Ok::<JsonView, Seq<char>>(m)
}

fn session_body(state: &Json) -> (r: Result<String, String>)
    requires
        state.model().wf(),
    ensures
        body_of(state.model(), r),
{
    match write_json(state) {
        Ok(s) => Ok(s),
        Err(e) => Err("Không serialize được JSON: ".to_string().concat(e.as_str())),
    }
}

/// Whether the file of a session tells of one that has not found its suspect.
pub open spec fn is_running(state: Option<&str>) -> bool {
    match document(state) {
        Ok(Some(m)) => !m.flag("done"@),
        _ => false,
    }
}

/// Starts a session, given the text of the session file where it could be read.
pub fn bisect_start_internal(
    names: Option<Vec<String>>,
    state: Option<&str>,
    on: &Vec<String>,
    off: &Vec<String>,
) -> (r: Result<SessionPlan, String>)
    ensures
        match start_view(opt_texts(names), is_running(state), on.deep_view(), off.deep_view()) {
            Err(e) => r matches Err(x) && x@ == e,
            Ok(m) => r matches Ok(p) && p.moves.deep_view() == m.moves && body_of(m.state, p.body)
                && sound(m.state, 2),
        },
{
    let running = match state {
        None => false,
        Some(text) => match read_json(text) {
            Ok(st) => !st.flag("done"),
            Err(_) => false,
        },
    };
    match start_session(names, running, on, off) {
        Err(e) => Err(e),
        Ok(step) => {
            let body = session_body(&step.state);
            Ok(SessionPlan { moves: step.moves, body })
        },
    }
}

/// Takes the answer to a round, given the text of the session file.
pub fn bisect_mark_internal(state: Option<&str>, bad: bool) -> (r: Result<MarkPlan, String>)
    ensures
        match document(state) {
            Ok(None) => r matches Err(x) && x@ == "Không có phiên bisect nào đang hoạt động."@,
            Err(e) => r matches Err(x) && x@ == "JSON không hợp lệ: "@ + e,
            Ok(Some(m)) => match mark_view(m, bad) {
                Err(e) => r matches Err(x) && x@ == e,
                Ok(MarkModel::Finished) => r matches Ok(MarkPlan::Finished),
                Ok(MarkModel::Found { state }) => r matches Ok(MarkPlan::Plan(p)) && p.moves.len()
                    == 0 && body_of(state, p.body),
                Ok(MarkModel::Split { state, moves }) => r matches Ok(MarkPlan::Plan(p))
                    && p.moves.deep_view() == moves && body_of(state, p.body),
            },
        },
{
    match state {
        None => Err("Không có phiên bisect nào đang hoạt động.".to_string()),
        Some(text) => match read_json(text) {
            Err(e) => Err("JSON không hợp lệ: ".to_string().concat(e.as_str())),
            Ok(st) => {
                proof {
                    lemma_mark_keeps_documents(st.model(), bad);
                }
                match mark_session(st, bad) {
                    Err(e) => Err(e),
                    Ok(MarkStep::Finished) => Ok(MarkPlan::Finished),
                    Ok(MarkStep::Step(step)) => {
                        let body = session_body(&step.state);
                        Ok(MarkPlan::Plan(SessionPlan { moves: step.moves, body }))
                    },
                }
            },
        },
    }
}

pub enum StopPlan {
    NotRunning,
    Restore(StopStep),
}

/// Stops the session whose file has the text `state`.
pub fn bisect_stop_internal(state: Option<&str>, on: &Vec<String>, off: &Vec<String>) -> (r: Result<
    StopPlan,
    String,
>)
    ensures
        match document(state) {
            Ok(None) => r matches Ok(StopPlan::NotRunning),
            Err(e) => r matches Err(x) && x@ == "JSON không hợp lệ: "@ + e,
            Ok(Some(m)) => match stop_view(m, on.deep_view(), off.deep_view()) {
                Err(e) => r matches Err(x) && x@ == e,
                Ok(v) => r matches Ok(StopPlan::Restore(s)) && s.moves.deep_view() == v.moves
                    && s.restored.deep_view() == v.restored,
            },
        },
{
    match state {
        None => Ok(StopPlan::NotRunning),
        Some(text) => match read_json(text) {
            Err(e) => Err("JSON không hợp lệ: ".to_string().concat(e.as_str())),
            Ok(st) => match stop_session(&st, on, off) {
                Err(e) => Err(e),
                Ok(step) => Ok(StopPlan::Restore(step)),
            },
        },
    }
}

/// What is asked of a search for a faulty mod.
#[derive(Clone, Copy, PartialEq, Eq, Structural)]
pub enum BisectOp {
    View,
    Start,
    /// An answer: whether the fault is still there.
    Mark(bool),
    Stop,
}

/// What is asked, or what is said where it is nothing that can be.
pub open spec fn op_of(op: Seq<char>) -> Result<BisectOp, Seq<char>> {
    if op.len() == 0 || op == "view"@ {
        Ok(BisectOp::View)
    } else if op == "start"@ {
        Ok(BisectOp::Start)
    } else if op == "bad"@ {
        Ok(BisectOp::Mark(true))
    } else if op == "good"@ {
        Ok(BisectOp::Mark(false))
    } else if op == "stop"@ {
        Ok(BisectOp::Stop)
    } else {
        Err("Lệnh bisect không hợp lệ: "@ + op)
    }
}

/// What is asked; without a word, to see how the search stands.
pub fn bisect(op: Option<&str>) -> (r: Result<BisectOp, String>)
    ensures
        match op {
            None => r == Ok::<BisectOp, String>(BisectOp::View),
            Some(word) => match op_of(word@) {
                Ok(o) => r == Ok::<BisectOp, String>(o),
                Err(e) => r matches Err(x) && x@ == e,
            },
        },
{
    match op {
        None => Ok(BisectOp::View),
        Some(word) => {
            if word.is_empty() || same(word, "view") {
                Ok(BisectOp::View)
            } else if same(word, "start") {
                Ok(BisectOp::Start)
            } else if same(word, "bad") {
                Ok(BisectOp::Mark(true))
            } else if same(word, "good") {
                Ok(BisectOp::Mark(false))
            } else if same(word, "stop") {
                Ok(BisectOp::Stop)
            } else {
                Err("Lệnh bisect không hợp lệ: ".to_string().concat(word))
            }
        },
    }
}

/// The document that shows a session.
pub open spec fn view_document(v: ViewModel) -> JsonView {
    object_of(
        seq![
            ("ready"@, JsonView::Bool(true)),
            ("running"@, JsonView::Bool(v.running)),
            ("round"@, JsonView::Number(NumberView::Unsigned(v.round))),
            ("candidates"@, text_array(v.candidates)),
            ("tested"@, text_array(v.tested)),
            ("untested"@, text_array(v.untested)),
            ("suspect"@, v.suspect),
            ("enabled_now"@, text_array(v.enabled_now)),
            ("done"@, JsonView::Bool(v.done)),
        ],
    )
}

/// What is answered: how the session stands, and, where something was done, that
/// it went well.
pub open spec fn reply_document(op: BisectOp, v: ViewModel) -> JsonView {
    if op == BisectOp::View {
        view_document(v)
    } else {
        object_of(seq![("ok"@, JsonView::Bool(true)), ("state"@, view_document(v))])
    }
}

/// What is answered: how the session stands, and, where something was done, that
/// it went well.
pub fn bisect_reply(op: BisectOp, view: BisectView) -> (r: Json)
    ensures
        r.model() == reply_document(op, view.model()),
{
    let mut f: Vec<(String, Json)> = Vec::new();
    f.push(("ready".to_string(), Json::Bool(true)));
    f.push(("running".to_string(), Json::Bool(view.running)));
    f.push(("round".to_string(), json_number(view.round)));
    f.push(("candidates".to_string(), json_texts(&view.candidates)));
    f.push(("tested".to_string(), json_texts(&view.tested)));
    f.push(("untested".to_string(), json_texts(&view.untested)));
    f.push(("suspect".to_string(), view.suspect));
    f.push(("enabled_now".to_string(), json_texts(&view.enabled_now)));
    f.push(("done".to_string(), Json::Bool(view.done)));
    proof {
        let v = view.model();
        assert(pairs_of(f@) =~= seq![
            ("ready"@, JsonView::Bool(true)),
            ("running"@, JsonView::Bool(v.running)),
            ("round"@, JsonView::Number(NumberView::Unsigned(v.round))),
            ("candidates"@, text_array(v.candidates)),
            ("tested"@, text_array(v.tested)),
            ("untested"@, text_array(v.untested)),
            ("suspect"@, v.suspect),
            ("enabled_now"@, text_array(v.enabled_now)),
            ("done"@, JsonView::Bool(v.done)),
        ]);
    }
    let document = json_object(f);
    match op {
        BisectOp::View => document,
        _ => {
            let mut g: Vec<(String, Json)> = Vec::new();
            g.push(("ok".to_string(), Json::Bool(true)));
            g.push(("state".to_string(), document));
            proof {
                assert(pairs_of(g@) =~= seq![
                    ("ok"@, JsonView::Bool(true)),
                    ("state"@, view_document(view.model())),
                ]);
            }
            json_object(g)
        },
    }
}

} // verus!
