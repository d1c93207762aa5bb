//! What is answered: what was found out, as it was found out.
use vstd::prelude::*;

use crate::browse::known_tags;
use crate::detail::commands;
use crate::flow_laws::lemma_between;
use crate::folder::{move_matches, move_view, Direction, MoveStep, MoveView};
use crate::install::{plan_matches, with_leftover, Plan, PlanView};
use crate::json::{json_of, json_text, reread, JsonView};
use crate::remove::{removal_lines, removal_matches, RemovalView, Remove};
use crate::state::{body_of, state_pairs};
use crate::text::contains;
use crate::workshop::{collection_in, collection_told, details_in, details_told};

verus! {

/// The answer to a request to move a folder: the refusal with its reason; or that it went
/// well, with the name of the folder and one line that names it.
pub proof fn law_a_move_is_answered(
    r: Result<MoveStep, String>,
    folder: Seq<char>,
    src: bool,
    dst: bool,
    d: Direction,
)
    requires
        move_matches(r, move_view(folder, src, dst, d)),
    ensures
        match move_view(folder, src, dst, d) {
            MoveView::Refused(why) => r matches Err(e) && e@ == why,
            MoveView::Step { folder: f, rename, line } => r matches Ok(step) && step.folder@ == f
                && step.rename == rename && step.done.ok && step.done.log.len() == 1
                && step.done.log@[0]@ == line && contains(line, f) && contains(line, d.word()),
        },
{
    if let MoveView::Step { folder: f, rename, line } = move_view(folder, src, dst, d) {
        lemma_between("'"@, f, "' đã "@ + d.word() + " sẵn."@);
        assert("'"@ + f + ("' đã "@ + d.word() + " sẵn."@) =~= "'"@ + f + "' đã "@ + d.word()
            + " sẵn."@);
        lemma_between("'"@ + f + "' đã "@, d.word(), " sẵn."@);
        lemma_between("Đã "@ + d.word() + " '"@, f, "'."@);
        lemma_between("Đã "@, d.word(), " '"@ + f + "'."@);
        assert("Đã "@ + d.word() + (" '"@ + f + "'."@) =~= "Đã "@ + d.word() + " '"@ + f + "'."@);
    }
}

/// The two ways to move a folder have different words.
pub proof fn law_the_two_ways_differ()
    ensures
        Direction::Enable.word() != Direction::Disable.word(),
{
    reveal_strlit("bật");
    reveal_strlit("tắt");
    assert("bật"@[0] != "tắt"@[0]);
}

/// The answer to a request to remove an item: the refusal with its reason; that it is not
/// installed, which names it and is no failure; or how it is removed.
pub proof fn law_a_removal_is_answered(
    r: Result<Remove, String>,
    v: Result<Option<RemovalView>, Seq<char>>,
    id: Seq<char>,
)
    requires
        removal_matches(r, v, id),
    ensures
        match v {
            Err(why) => r matches Err(e) && e@ == why,
            Ok(None) => r matches Ok(Remove::Nothing(d)) && d.ok && d.log.deep_view().len() == 1
                && contains(d.log.deep_view()[0], id),
            Ok(Some(p)) => r matches Ok(Remove::Plan(m)) && m.steps.deep_view() == p.steps
                && m.line@ == p.line && body_of(p.state, m.body),
        },
{
    lemma_between("? "@, id, " chưa được pzmod cài"@);
}

/// What is told of a removal: its line; and where something could not be cleaned up, a
/// warning with where it is and why.
pub proof fn law_a_removal_is_told(
    line: Seq<char>,
    transaction: Seq<char>,
    leftover: Option<Seq<char>>,
)
    ensures
        removal_lines(line, transaction, leftover)[0] == line,
        leftover is None ==> removal_lines(line, transaction, leftover).len() == 1,
        (leftover matches Some(e) ==> {
            let last = removal_lines(line, transaction, leftover)[1];
            &&& removal_lines(line, transaction, leftover).len() == 2
            &&& last[0] == '!'
            &&& contains(last, transaction)
            &&& contains(last, e)
        }),
{
    if let Some(e) = leftover {
        let head = "! Đã gỡ state nhưng không dọn được "@;
        let last = head + transaction + ": "@ + e;
        reveal_strlit("! Đã gỡ state nhưng không dọn được ");
        lemma_between(head, transaction, ": "@ + e);
        assert(head + transaction + (": "@ + e) =~= last);
        lemma_between(head + transaction + ": "@, e, seq![]);
        assert(head + transaction + ": "@ + e + seq![] =~= last);
    }
}

/// The answer to a request to install an item: the refusal with its reason, or the steps,
/// the file that is written, what is kept and the new folders.
pub proof fn law_an_install_is_answered(r: Result<Plan, String>, v: Result<PlanView, Seq<char>>)
    requires
        plan_matches(r, v),
    ensures
        match v {
            Err(why) => r matches Err(e) && e@ == why,
            Ok(p) => r matches Ok(plan) && plan.steps.deep_view() == p.steps
                && plan.kept.deep_view() == p.kept && plan.folders.deep_view() == p.folders
                && body_of(p.state, plan.body),
        },
{
}

/// What could not be cleaned up after an install is told by a warning, with where it is
/// and why.
pub proof fn law_what_is_left_over_is_told(
    told: Seq<Seq<char>>,
    transaction: Seq<char>,
    leftover: Option<Seq<char>>,
)
    ensures
        leftover is None ==> with_leftover(told, transaction, leftover) == told,
        (leftover matches Some(e) ==> {
            let all = with_leftover(told, transaction, leftover);
            &&& all.len() == told.len() + 1
            &&& told.is_prefix_of(all)
            &&& all.last()[0] == '!'
            &&& contains(all.last(), transaction)
            &&& contains(all.last(), e)
        }),
{
    if let Some(e) = leftover {
        let head = "! Không dọn được transaction "@;
        let last = head + transaction + ": "@ + e;
        reveal_strlit("! Không dọn được transaction ");
        lemma_between(head, transaction, ": "@ + e);
        assert(head + transaction + (": "@ + e) =~= last);
        lemma_between(head + transaction + ": "@, e, seq![]);
        assert(head + transaction + ": "@ + e + seq![] =~= last);
    }
}

/// The entries are those of the object that the state file holds; there are none where it
/// holds nothing else, cannot be read, or is not there. A file that was written gives its
/// entries back, where they can be read back.
pub proof fn law_the_state_file_gives_its_entries(
    text: Seq<char>,
    pairs: Seq<(Seq<char>, JsonView)>,
    r: Result<String, String>,
)
    ensures
        state_pairs(None).len() == 0,
        json_of(text) == Ok::<JsonView, Seq<char>>(JsonView::Object(pairs)) ==> state_pairs(
            Some(text),
        ) == pairs,
        json_of(text) is Err ==> state_pairs(Some(text)).len() == 0,
        (json_of(text) matches Ok(m) && !(m is Object)) ==> state_pairs(Some(text)).len() == 0,
        body_of(pairs, r) ==> (r matches Ok(s) && s@ == json_text(reread(JsonView::Object(pairs)))
            && (JsonView::Object(pairs).readable() ==> state_pairs(Some(s@)) == pairs)),
{
}

/// What the workshop answers is heard where it can be read; else it is said why not.
pub proof fn law_an_answer_of_the_workshop_is_heard(text: Seq<char>, m: JsonView)
    ensures
        json_of(text) == Ok::<JsonView, Seq<char>>(m) ==> details_told(text) == Ok::<
            Seq<(Seq<char>, JsonView)>,
            Seq<char>,
        >(details_in(m)) && collection_told(text) == Ok::<Seq<Seq<char>>, Seq<char>>(
            collection_in(m),
        ),
        (json_of(text) matches Err(e) ==> (details_told(text) matches Err(x) && contains(x, e)) && (
        collection_told(text) matches Err(y) && contains(y, e))),
{
    if let Err(e) = json_of(text) {
        lemma_between("Steam API trả JSON lỗi: "@, e, seq![]);
        assert("Steam API trả JSON lỗi: "@ + e + seq![] =~= "Steam API trả JSON lỗi: "@ + e);
    }
}

/// The tags that the workshop has for the game: its builds, and what mods are about.
pub proof fn law_the_tags_are_those_of_the_workshop()
    ensures
        known_tags() == seq!["Build 40"@, "Build 41"@, "Build 42"@] + seq![
            "Animals"@,
            "Audio"@,
            "Balance"@,
            "Building"@,
            "Clothing/Armor"@,
            "Farming"@,
            "Food"@,
            "Framework"@,
            "Hardmode"@,
            "Interface"@,
            "Items"@,
            "Language/Translation"@,
            "Literature"@,
            "Map"@,
            "Military"@,
            "Misc"@,
            "Models"@,
            "Multiplayer"@,
            "Pop Culture"@,
            "Realistic"@,
            "Silly/Fun"@,
            "Skills"@,
            "Textures"@,
            "Traits"@,
            "Vehicles"@,
        ] + seq!["QoL"@, "WIP"@, "Weapons"@],
{
}

/// Everything that can be asked of the library is among the commands.
pub proof fn law_every_command_is_offered()
    ensures
        commands().len() == 11,
        commands().take(3) == seq!["state"@, "enable"@, "disable"@],
        commands().subrange(3, 6) == seq!["browse"@, "detail"@, "bisect"@],
        commands().subrange(6, 9) == seq!["install"@, "remove"@, "update"@],
        commands().skip(9) == seq!["prefetch"@, "progress"@],
{
    let c = commands();
    assert(c.take(3) =~= seq!["state"@, "enable"@, "disable"@]);
    assert(c.subrange(3, 6) =~= seq!["browse"@, "detail"@, "bisect"@]);
    assert(c.subrange(6, 9) =~= seq!["install"@, "remove"@, "update"@]);
    assert(c.skip(9) =~= seq!["prefetch"@, "progress"@]);
}

} // verus!
