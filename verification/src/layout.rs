//! Where the folders stand, and what moves do to it.
use vstd::prelude::*;

use crate::folder::{
    folder_check, has_path_char, is_device, move_view, Direction, MoveView,
};
use crate::text::{law_trim_is_idempotent, trimmed};

verus! {

/// The names of the directories in `mods` and in `mods_off`.
#[verifier::ext_equal]
pub struct Layout {
    pub mods: Set<Seq<char>>,
    pub off: Set<Seq<char>>,
}

impl Layout {
    pub open spec fn has(self, f: Seq<char>) -> bool {
        self.mods.contains(f) || self.off.contains(f)
    }

    /// No folder stands in both places.
    pub open spec fn apart(self) -> bool {
        forall|f: Seq<char>| !(#[trigger] self.mods.contains(f) && self.off.contains(f))
    }
}

/// A name that stands for itself.
pub open spec fn is_bare(f: Seq<char>) -> bool {
    folder_check(f) == Ok::<Seq<char>, Seq<char>>(f)
}

/// What `move_folder` decides on the layout `l`.
pub open spec fn move_on(l: Layout, folder: Seq<char>, d: Direction) -> MoveView {
    match folder_check(folder) {
        Err(e) => MoveView::Refused(e),
        Ok(f) => match d {
            Direction::Enable => move_view(folder, l.off.contains(f), l.mods.contains(f), d),
            Direction::Disable => move_view(folder, l.mods.contains(f), l.off.contains(f), d),
        },
    }
}

/// The layout after the move, which stays as it is where the move is refused
/// or there is nothing to rename.
pub open spec fn after_move(l: Layout, folder: Seq<char>, d: Direction) -> Layout {
    match move_on(l, folder, d) {
        MoveView::Step { folder: f, rename: true, line } => match d {
            Direction::Enable => Layout { mods: l.mods.insert(f), off: l.off.remove(f) },
            Direction::Disable => Layout { mods: l.mods.remove(f), off: l.off.insert(f) },
        },
        _ => l,
    }
}

/// The layout after `moves`, one after the other.
pub open spec fn after_moves(l: Layout, moves: Seq<(Seq<char>, Direction)>) -> Layout
    decreases moves.len(),
{
    if moves.len() == 0 {
        l
    } else {
        after_move(after_moves(l, moves.drop_last()), moves.last().0, moves.last().1)
    }
}

/// The last direction in which `moves` take `f`.
pub open spec fn wanted(moves: Seq<(Seq<char>, Direction)>, f: Seq<char>) -> Option<Direction>
    decreases moves.len(),
{
    if moves.len() == 0 {
        None
    } else if moves.last().0 == f {
        Some(moves.last().1)
    } else {
        wanted(moves.drop_last(), f)
    }
}

/// The name that stands for an accepted one stands for itself.
pub proof fn law_checked_names_are_bare(folder: Seq<char>)
    ensures
        folder_check(folder) matches Ok(f) ==> is_bare(f) && !has_path_char(f) && !is_device(f)
            && f == trimmed(folder),
{
    law_trim_is_idempotent(folder);
}

/// A move loses no folder and makes none, and puts none in both places.
pub proof fn law_move_keeps_folders(l: Layout, folder: Seq<char>, d: Direction)
    requires
        l.apart(),
    ensures
        after_move(l, folder, d).apart(),
        forall|f: Seq<char>| #[trigger] after_move(l, folder, d).has(f) <==> l.has(f),
{
    law_checked_names_are_bare(folder);
    let m = after_move(l, folder, d);
    assert forall|f: Seq<char>| #[trigger] m.has(f) <==> l.has(f) by {
        assert(!(l.mods.contains(f) && l.off.contains(f)));
    }
    assert forall|f: Seq<char>| !(#[trigger] m.mods.contains(f) && m.off.contains(f)) by {
        assert(!(l.mods.contains(f) && l.off.contains(f)));
    }
}

/// Asking for the same move again changes nothing more.
pub proof fn law_move_is_idempotent(l: Layout, folder: Seq<char>, d: Direction)
    ensures
        after_move(after_move(l, folder, d), folder, d) == after_move(l, folder, d),
{
}

/// A folder that was moved and moved back stands where it stood, where its name is
/// the one under which it is looked up.
pub proof fn law_move_can_be_undone(l: Layout, folder: Seq<char>)
    requires
        l.apart(),
        is_bare(folder),
    ensures
        l.mods.contains(folder) ==> after_move(
            after_move(l, folder, Direction::Disable),
            folder,
            Direction::Enable,
        ) == l,
        l.off.contains(folder) ==> after_move(
            after_move(l, folder, Direction::Enable),
            folder,
            Direction::Disable,
        ) == l,
{
    assert(!(l.mods.contains(folder) && l.off.contains(folder)));
    if l.mods.contains(folder) {
        let m = after_move(l, folder, Direction::Disable);
        let back = after_move(m, folder, Direction::Enable);
        assert(back.mods =~= l.mods);
        assert(back.off =~= l.off);
    }
    if l.off.contains(folder) {
        let m = after_move(l, folder, Direction::Enable);
        let back = after_move(m, folder, Direction::Disable);
        assert(back.mods =~= l.mods);
        assert(back.off =~= l.off);
    }
}

/// A folder that stands in both places is left alone, whichever way it is asked
/// to go.
pub proof fn law_collision_is_left_alone(l: Layout, folder: Seq<char>, d: Direction)
    requires
        folder_check(folder) matches Ok(f) && l.mods.contains(f) && l.off.contains(f),
    ensures
        move_on(l, folder, d) is Refused,
        after_move(l, folder, d) == l,
{
}

/// A name that is refused moves nothing.
pub proof fn law_refused_name_moves_nothing(l: Layout, folder: Seq<char>, d: Direction)
    requires
        folder_check(folder) is Err,
    ensures
        move_on(l, folder, d) is Refused,
        after_move(l, folder, d) == l,
{
}

/// A folder that is there, in one place only, can always be moved by the name under
/// which it is looked up.
pub proof fn law_present_folder_can_move(l: Layout, folder: Seq<char>, d: Direction)
    requires
        l.apart(),
        is_bare(folder),
        l.has(folder),
    ensures
        move_on(l, folder, d) is Step,
{
    assert(!(l.mods.contains(folder) && l.off.contains(folder)));
}

/// After a run of moves every folder stands where the last of its moves took
/// it, and a folder without a move where it stood.
pub proof fn law_moves_take_folders_where_asked(l: Layout, moves: Seq<(Seq<char>, Direction)>)
    requires
        l.apart(),
        forall|i: int| 0 <= i < moves.len() ==> is_bare((#[trigger] moves[i]).0),
    ensures
        after_moves(l, moves).apart(),
        forall|f: Seq<char>| #[trigger] after_moves(l, moves).has(f) <==> l.has(f),
        forall|f: Seq<char>|
            l.has(f) ==> (#[trigger] after_moves(l, moves).mods.contains(f) <==> match wanted(
                moves,
                f,
            ) {
                Some(Direction::Enable) => true,
                Some(Direction::Disable) => false,
                None => l.mods.contains(f),
            }),
    decreases moves.len(),
{
    if moves.len() > 0 {
        let t = moves.drop_last();
        assert forall|i: int| 0 <= i < t.len() implies is_bare((#[trigger] t[i]).0) by {
            assert(t[i] == moves[i]);
        }
        law_moves_take_folders_where_asked(l, t);
        let m = after_moves(l, t);
        let (f0, d) = moves.last();
        assert(is_bare(moves[moves.len() - 1].0));
        law_move_keeps_folders(m, f0, d);
        assert forall|f: Seq<char>| l.has(f) implies (#[trigger] after_moves(
            l,
            moves,
        ).mods.contains(f) <==> match wanted(moves, f) {
            Some(Direction::Enable) => true,
            Some(Direction::Disable) => false,
            None => l.mods.contains(f),
        }) by {
            assert(m.has(f) <==> l.has(f));
            assert(after_moves(l, moves).has(f) <==> m.has(f));
            assert(!(m.mods.contains(f) && m.off.contains(f)));
        }
    }
}

} // verus!
