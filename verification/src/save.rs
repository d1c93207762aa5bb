//! Replacing the state file: the new text is written beside it, the old file is
//! set aside, and the new one takes its place.
use vstd::prelude::*;

use crate::flow_laws::lemma_between;
use crate::text::{contains, opt_view};

verus! {

/// The steps of replacing the file.
#[derive(Clone, Copy, PartialEq, Eq, Structural)]
pub enum SaveStep {
    /// Writes the new text to a temporary file.
    WriteTemp,
    /// Renames the file to its backup.
    SetAside,
    /// Renames the temporary file to the file.
    Publish,
    /// Renames the backup to the file.
    PutBack,
}

/// A file to be removed in the end; it does not matter whether that succeeds.
#[derive(Clone, Copy, PartialEq, Eq, Structural)]
pub enum Cleanup {
    Nothing,
    DropTemp,
    DropBackup,
}

/// What comes after a step.
pub enum SaveNext {
    Go(SaveStep),
    Finish(Cleanup, Result<(), String>),
}

pub enum SaveNextView {
    Go(SaveStep),
    Finish(Cleanup, Result<(), Seq<char>>),
}

impl SaveNext {
    pub open spec fn model(self) -> SaveNextView {
        match self {
            SaveNext::Go(s) => SaveNextView::Go(s),
            SaveNext::Finish(c, Ok(_)) => SaveNextView::Finish(c, Ok(())),
            SaveNext::Finish(c, Err(e)) => SaveNextView::Finish(c, Err(e@)),
        }
    }
}

/// What comes after a step that failed with `error`, or did not fail. `had_state`
/// tells whether there was a file, `cause` why the new one could not take its
/// place, and `backup` where the old one is.
pub open spec fn save_after(
    step: SaveStep,
    had_state: bool,
    error: Option<Seq<char>>,
    cause: Seq<char>,
    backup: Seq<char>,
) -> SaveNextView {
    match (step, error) {
        (SaveStep::WriteTemp, Some(e)) => SaveNextView::Finish(
            Cleanup::Nothing,
            Err("Không ghi được state tạm: "@ + e),
        ),
        (SaveStep::WriteTemp, None) => if had_state {
            SaveNextView::Go(SaveStep::SetAside)
        } else {
            SaveNextView::Go(SaveStep::Publish)
        },
        (SaveStep::SetAside, Some(e)) => SaveNextView::Finish(
            Cleanup::DropTemp,
            Err("Không backup được .pzmod.json: "@ + e),
        ),
        (SaveStep::SetAside, None) => SaveNextView::Go(SaveStep::Publish),
        (SaveStep::Publish, Some(e)) => if had_state {
            SaveNextView::Go(SaveStep::PutBack)
        } else {
            SaveNextView::Finish(Cleanup::Nothing, Err("Không lưu được .pzmod.json: "@ + e))
        },
        (SaveStep::Publish, None) => SaveNextView::Finish(
            if had_state {
                Cleanup::DropBackup
            } else {
                Cleanup::Nothing
            },
            Ok(()),
        ),
        (SaveStep::PutBack, Some(e)) => SaveNextView::Finish(
            Cleanup::Nothing,
            Err(
                "Không lưu được state ("@ + cause + ") và không khôi phục được "@ + backup + " ("@ + e
                    + ")"@,
            ),
        ),
        (SaveStep::PutBack, None) => SaveNextView::Finish(
            Cleanup::Nothing,
            Err("Không lưu được .pzmod.json: "@ + cause),
        ),
    }
}

/// What comes after a step of replacing the state file.
pub fn write_managed_state(
    step: SaveStep,
    had_state: bool,
    error: Option<&str>,
    cause: &str,
    backup: &str,
) -> (r: SaveNext)
    ensures
        r.model() == save_after(step, had_state, opt_view(error), cause@, backup@),
{
    match (step, error) {
        (SaveStep::WriteTemp, Some(e)) => SaveNext::Finish(
            Cleanup::Nothing,
            Err("Không ghi được state tạm: ".to_string().concat(e)),
        ),
        (SaveStep::WriteTemp, None) => {
            if had_state {
                SaveNext::Go(SaveStep::SetAside)
            } else {
                SaveNext::Go(SaveStep::Publish)
            }
        },
        (SaveStep::SetAside, Some(e)) => SaveNext::Finish(
            Cleanup::DropTemp,
            Err("Không backup được .pzmod.json: ".to_string().concat(e)),
        ),
        (SaveStep::SetAside, None) => SaveNext::Go(SaveStep::Publish),
        (SaveStep::Publish, Some(e)) => {
            if had_state {
                SaveNext::Go(SaveStep::PutBack)
            } else {
                SaveNext::Finish(
                    Cleanup::Nothing,
                    Err("Không lưu được .pzmod.json: ".to_string().concat(e)),
                )
            }
        },
        (SaveStep::Publish, None) => {
            let cleanup = if had_state {
                Cleanup::DropBackup
            } else {
                Cleanup::Nothing
            };
            SaveNext::Finish(cleanup, Ok(()))
        },
        (SaveStep::PutBack, Some(e)) => SaveNext::Finish(
            Cleanup::Nothing,
            Err(
                "Không lưu được state (".to_string().concat(cause).concat(
                    ") và không khôi phục được ",
                ).concat(backup).concat(" (").concat(e).concat(")"),
            ),
        ),
        (SaveStep::PutBack, None) => SaveNext::Finish(
            Cleanup::Nothing,
            Err("Không lưu được .pzmod.json: ".to_string().concat(cause)),
        ),
    }
}

/// The file, the temporary file and the backup, each with what it holds.
pub struct SaveFiles<T> {
    pub file: Option<T>,
    pub temp: Option<T>,
    pub backup: Option<T>,
}

/// The files after a step that did not fail.
pub open spec fn step_done<T>(f: SaveFiles<T>, step: SaveStep, new: T) -> SaveFiles<T> {
    match step {
        SaveStep::WriteTemp => SaveFiles { temp: Some(new), ..f },
        SaveStep::SetAside => SaveFiles { file: None, backup: f.file, ..f },
        SaveStep::Publish => SaveFiles { file: f.temp, temp: None, ..f },
        SaveStep::PutBack => SaveFiles { file: f.backup, backup: None, ..f },
    }
}

pub open spec fn cleaned<T>(f: SaveFiles<T>, cleanup: Cleanup) -> SaveFiles<T> {
    match cleanup {
        Cleanup::Nothing => f,
        Cleanup::DropTemp => SaveFiles { temp: None, ..f },
        Cleanup::DropBackup => SaveFiles { backup: None, ..f },
    }
}

pub open spec fn rank(step: SaveStep) -> nat {
    match step {
        SaveStep::WriteTemp => 3,
        SaveStep::SetAside => 2,
        SaveStep::Publish => 1,
        SaveStep::PutBack => 0,
    }
}

/// Where replacing the file leads from a step on, and whether it was replaced;
/// `fails` tells which steps fail.
pub open spec fn saved<T>(
    step: SaveStep,
    had_state: bool,
    f: SaveFiles<T>,
    new: T,
    fails: spec_fn(SaveStep) -> bool,
) -> (SaveFiles<T>, bool)
    decreases rank(step),
{
    let error = if fails(step) {
        Some(Seq::<char>::empty())
    } else {
        None
    };
    let g = if fails(step) {
        f
    } else {
        step_done(f, step, new)
    };
    match save_after(step, had_state, error, seq![], seq![]) {
        SaveNextView::Go(next) => if rank(next) < rank(step) {
            saved(next, had_state, g, new, fails)
        } else {
            (g, false)
        },
        SaveNextView::Finish(cleanup, result) => (cleaned(g, cleanup), result is Ok),
    }
}

/// The state file is replaced as a whole or not at all: it holds the new text
/// where that is reported, and the old one where it is not; only where the old
/// one could not be put back is it in its backup instead.
pub proof fn law_state_file_is_replaced_or_kept<T>(
    old_text: Option<T>,
    new: T,
    fails: spec_fn(SaveStep) -> bool,
)
    ensures
        ({
            let f = SaveFiles { file: old_text, temp: None::<T>, backup: None::<T> };
            let (g, ok) = saved(SaveStep::WriteTemp, old_text is Some, f, new, fails);
            &&& ok ==> g.file == Some(new)
            &&& !ok ==> g.file == old_text || (fails(SaveStep::PutBack) && g.backup == old_text)
            &&& !fails(SaveStep::WriteTemp) && !fails(SaveStep::SetAside) && !fails(SaveStep::Publish)
                ==> ok
        }),
{
    reveal_with_fuel(saved, 4);
}

/// What was written beside the state file and what was set aside is gone once it is
/// replaced; and a failure is told with its reason.
pub proof fn law_nothing_is_left_behind<T>(
    old_text: Option<T>,
    new: T,
    fails: spec_fn(SaveStep) -> bool,
    step: SaveStep,
    e: Seq<char>,
    cause: Seq<char>,
    backup: Seq<char>,
)
    ensures
        ({
            let f = SaveFiles { file: old_text, temp: None::<T>, backup: None::<T> };
            let (g, ok) = saved(SaveStep::WriteTemp, old_text is Some, f, new, fails);
            ok ==> g.temp is None && g.backup is None
        }),
        (save_after(step, true, Some(e), cause, backup) matches SaveNextView::Finish(_, r) ==> (r
            matches Err(line) && contains(line, e))),
        (save_after(SaveStep::PutBack, true, None, cause, backup) matches SaveNextView::Finish(_, r)
            && r matches Err(line) && contains(line, cause)),
{
    reveal_with_fuel(saved, 4);
    lemma_between("Không ghi được state tạm: "@, e, seq![]);
    assert("Không ghi được state tạm: "@ + e + seq![] =~= "Không ghi được state tạm: "@ + e);
    lemma_between("Không backup được .pzmod.json: "@, e, seq![]);
    assert("Không backup được .pzmod.json: "@ + e + seq![] =~= "Không backup được .pzmod.json: "@ + e);
    lemma_between("Không lưu được .pzmod.json: "@, cause, seq![]);
    assert("Không lưu được .pzmod.json: "@ + cause + seq![] =~= "Không lưu được .pzmod.json: "@
        + cause);
    lemma_between(
        "Không lưu được state ("@ + cause + ") và không khôi phục được "@ + backup + " ("@,
        e,
        ")"@,
    );
}

/// A file that was there is set aside before the new one takes its place, and put back
/// where the new one cannot; one that was not there is neither. It is saved exactly where
/// the new one is in its place, and else it is told what went wrong.
pub proof fn law_what_was_there_is_set_aside_first(
    step: SaveStep,
    had_state: bool,
    error: Option<Seq<char>>,
    cause: Seq<char>,
    backup: Seq<char>,
)
    ensures
        ({
            let next = save_after(step, had_state, error, cause, backup);
            &&& next == SaveNextView::Go(SaveStep::SetAside) <==> had_state && step is WriteTemp
                && error is None
            &&& next == SaveNextView::Go(SaveStep::Publish) <==> error is None && (step is SetAside
                || (step is WriteTemp && !had_state))
            &&& next == SaveNextView::Go(SaveStep::PutBack) <==> had_state && step is Publish
                && error is Some
            &&& next != SaveNextView::Go(SaveStep::WriteTemp)
            &&& (next matches SaveNextView::Finish(c, r) ==> {
                &&& r is Ok <==> step is Publish && error is None
                &&& c is DropBackup <==> r is Ok && had_state
                &&& c is DropTemp <==> step is SetAside
                &&& (r matches Err(why) ==> {
                    &&& (error matches Some(e) ==> contains(why, e))
                    &&& (step is PutBack ==> contains(why, cause))
                    &&& (step is PutBack && error is Some ==> contains(why, backup))
                })
            })
        }),
{
    if let Some(e) = error {
        let a = "Không ghi được state tạm: "@;
        lemma_between(a, e, seq![]);
        assert(a + e + seq![] =~= a + e);
        let b = "Không backup được .pzmod.json: "@;
        lemma_between(b, e, seq![]);
        assert(b + e + seq![] =~= b + e);
        let c = "Không lưu được .pzmod.json: "@;
        lemma_between(c, e, seq![]);
        assert(c + e + seq![] =~= c + e);
        let head = "Không lưu được state ("@;
        let mid = ") và không khôi phục được "@;
        let all = head + cause + mid + backup + " ("@ + e + ")"@;
        lemma_between(head + cause + mid + backup + " ("@, e, ")"@);
        lemma_between(head + cause + mid, backup, " ("@ + e + ")"@);
        assert(head + cause + mid + backup + (" ("@ + e + ")"@) =~= all);
        lemma_between(head, cause, mid + backup + " ("@ + e + ")"@);
        assert(head + cause + (mid + backup + " ("@ + e + ")"@) =~= all);
    }
    let c = "Không lưu được .pzmod.json: "@;
    lemma_between(c, cause, seq![]);
    assert(c + cause + seq![] =~= c + cause);
}

} // verus!
