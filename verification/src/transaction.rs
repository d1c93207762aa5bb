//! Changes to the mod folders that are made as a whole or not at all: the
//! steps, what is noted of them, and how they are undone.
use vstd::prelude::*;

use crate::text::{decimal, decimal_text};

verus! {

/// The two places where a mod folder can stand.
#[derive(Clone, Copy, PartialEq, Eq, Structural)]
pub enum Place {
    Mods,
    Off,
}

impl Place {
    pub open spec fn name(self) -> Seq<char> {
        match self {
            Place::Mods => "mods"@,
            Place::Off => "mods_off"@,
        }
    }

    /// The name of the directory.
    pub fn label(&self) -> (r: &'static str)
        ensures
            r@ == self.name(),
    {
        match self {
            Place::Mods => "mods",
            Place::Off => "mods_off",
        }
    }
}

impl DeepView for Place {
    type V = Place;

    open spec fn deep_view(&self) -> Place {
        *self
    }
}

/// How many names are tried for the directory in which a change is prepared.
pub const ATTEMPTS: usize = 20;

/// The name of the directory in which a change is prepared.
pub open spec fn change_name(
    label: Seq<char>,
    process: Seq<char>,
    moment: Seq<char>,
    attempt: usize,
) -> Seq<char> {
    ".pzmod-"@ + label + "-"@ + process + "-"@ + moment + "-"@ + decimal(attempt as nat)
}

/// The name of the directory in which a change is prepared: what it is for, the
/// process, the moment and how many names were tried before.
pub fn transaction_name(label: &str, process: &str, moment: &str, attempt: usize) -> (r: String)
    ensures
        r@ == change_name(label@, process@, moment@, attempt),
{
    let n = decimal_text(attempt as u64);
    ".pzmod-".to_string().concat(label).concat("-").concat(process).concat("-").concat(
        moment,
    ).concat("-").concat(n.as_str())
}

/// What came of making a directory.
pub enum Made {
    New,
    /// Something with that name is there.
    Taken,
    /// It could not be made, for this reason.
    Failed(String),
}

/// The attempt with this number comes to `r`.
pub open spec fn is_there(attempt: usize, made: Made, r: Result<bool, String>) -> bool {
    match made {
        Made::New => r == Ok::<bool, String>(true),
        Made::Taken => if attempt + 1 < ATTEMPTS {
            r == Ok::<bool, String>(false)
        } else {
            r matches Err(e) && e@ == "Không tạo được tên transaction duy nhất"@
        },
        Made::Failed(why) => r matches Err(e) && e@ == "Không tạo được transaction: "@ + why@,
    }
}

/// Whether the directory of a change is there after the attempt with this number.
/// If it is not, the next name is tried; after the last one it is given up.
pub fn transaction_dir(attempt: usize, made: Made) -> (r: Result<bool, String>)
    ensures
        is_there(attempt, made, r),
{
    match made {
        Made::New => Ok(true),
        Made::Taken => if attempt < ATTEMPTS - 1 {
            Ok(false)
        } else {
            Err("Không tạo được tên transaction duy nhất".to_string())
        },
        Made::Failed(why) => Err("Không tạo được transaction: ".to_string().concat(why.as_str())),
    }
}

/// One step of a change.
pub enum Step {
    /// Copies the directory at `path` to where new folders are prepared.
    Stage { folder: String, path: String },
    /// Moves a folder aside, if it is there.
    Backup { place: Place, folder: String },
    /// Moves a prepared folder to its place.
    Put { place: Place, folder: String },
    /// Copies a folder that was moved aside from `from` into `mods_off`.
    Keep { from: Place, folder: String },
    /// Writes the state file.
    Save,
}

pub enum StepView {
    Stage { folder: Seq<char>, path: Seq<char> },
    Backup { place: Place, folder: Seq<char> },
    Put { place: Place, folder: Seq<char> },
    Keep { from: Place, folder: Seq<char> },
    Save,
}

impl DeepView for Step {
    type V = StepView;

    open spec fn deep_view(&self) -> StepView {
        match *self {
            Step::Stage { folder, path } => StepView::Stage { folder: folder@, path: path@ },
            Step::Backup { place, folder } => StepView::Backup { place, folder: folder@ },
            Step::Put { place, folder } => StepView::Put { place, folder: folder@ },
            Step::Keep { from, folder } => StepView::Keep { from, folder: folder@ },
            Step::Save => StepView::Save,
        }
    }
}

/// What became of a step: it was done, there was nothing to move aside, or it
/// failed.
#[derive(Clone, Copy, PartialEq, Eq, Structural)]
pub enum Outcome {
    Done,
    Absent,
    Failed,
}

/// What has to be undone should a later step fail: the folders that were put
/// somewhere, and those that were moved aside.
pub struct Journal {
    pub installed: Vec<(Place, String)>,
    pub moved: Vec<(Place, String)>,
}

#[verifier::ext_equal]
pub struct JournalView {
    pub installed: Seq<(Place, Seq<char>)>,
    pub moved: Seq<(Place, Seq<char>)>,
}

impl DeepView for Journal {
    type V = JournalView;

    open spec fn deep_view(&self) -> JournalView {
        JournalView { installed: self.installed.deep_view(), moved: self.moved.deep_view() }
    }
}

/// The journal after a step. A copy into `mods_off` counts as put there even
/// where it failed: part of it may be there.
pub open spec fn noted(j: JournalView, step: StepView, outcome: Outcome) -> JournalView {
    match step {
        StepView::Backup { place, folder } => if outcome is Done {
            JournalView { moved: j.moved.push((place, folder)), ..j }
        } else {
            j
        },
        StepView::Put { place, folder } => if outcome is Done {
            JournalView { installed: j.installed.push((place, folder)), ..j }
        } else {
            j
        },
        StepView::Keep { from, folder } => JournalView {
            installed: j.installed.push((Place::Off, folder)),
            ..j
        },
        _ => j,
    }
}

impl Journal {
    pub fn new() -> (r: Journal)
        ensures
            r.deep_view() == (JournalView { installed: seq![], moved: seq![] }),
    {
        let r = Journal { installed: Vec::new(), moved: Vec::new() };
        assert(r.deep_view() =~= (JournalView { installed: seq![], moved: seq![] }));
        r
    }

    /// Notes what became of a step.
    pub fn note(&mut self, step: &Step, outcome: Outcome)
        ensures
            final(self).deep_view() == noted(old(self).deep_view(), step.deep_view(), outcome),
    {
        let ghost before = self.deep_view();
        match step {
            Step::Backup { place, folder } => {
                if outcome == Outcome::Done {
                    self.moved.push((*place, folder.clone()));
                }
            },
            Step::Put { place, folder } => {
                if outcome == Outcome::Done {
                    self.installed.push((*place, folder.clone()));
                }
            },
            Step::Keep { folder, .. } => {
                self.installed.push((Place::Off, folder.clone()));
            },
            _ => {},
        }
        assert(self.deep_view() =~= noted(before, step.deep_view(), outcome));
    }
}

/// One step of undoing a change.
pub enum Undo {
    /// Removes a folder that was put somewhere.
    Remove { place: Place, folder: String },
    /// Moves a folder back from where it was put aside.
    Restore { place: Place, folder: String },
}

pub enum UndoView {
    Remove { place: Place, folder: Seq<char> },
    Restore { place: Place, folder: Seq<char> },
}

impl DeepView for Undo {
    type V = UndoView;

    open spec fn deep_view(&self) -> UndoView {
        match *self {
            Undo::Remove { place, folder } => UndoView::Remove { place, folder: folder@ },
            Undo::Restore { place, folder } => UndoView::Restore { place, folder: folder@ },
        }
    }
}

pub open spec fn removals(installed: Seq<(Place, Seq<char>)>) -> Seq<UndoView>
    decreases installed.len(),
{
    if installed.len() == 0 {
        seq![]
    } else {
        let x = installed.last();
        seq![UndoView::Remove { place: x.0, folder: x.1 }] + removals(installed.drop_last())
    }
}

pub open spec fn restores(moved: Seq<(Place, Seq<char>)>) -> Seq<UndoView>
    decreases moved.len(),
{
    if moved.len() == 0 {
        seq![]
    } else {
        let x = moved.last();
        seq![UndoView::Restore { place: x.0, folder: x.1 }] + restores(moved.drop_last())
    }
}

/// How a change is undone: what was put somewhere is removed, last first, then
/// what was moved aside is moved back, last first.
pub open spec fn undo_steps(j: JournalView) -> Seq<UndoView> {
    removals(j.installed) + restores(j.moved)
}

/// How the change in the journal is undone.
pub fn rollback_files(journal: &Journal) -> (r: Vec<Undo>)
    ensures
        r.deep_view() == undo_steps(journal.deep_view()),
{
    let ghost installed = journal.installed.deep_view();
    let ghost moved = journal.moved.deep_view();
    let mut r: Vec<Undo> = Vec::new();
    let mut i: usize = journal.installed.len();
    proof {
        assert(installed.take(i as int) =~= installed);
        assert(r.deep_view() + removals(installed) =~= removals(installed));
    }
    while i > 0
        invariant
            i <= journal.installed.len(),
            installed == journal.installed.deep_view(),
            r.deep_view() + removals(installed.take(i as int)) == removals(installed),
        decreases i,
    {
        let ghost before = r.deep_view();
        let ghost part = installed.take(i as int);
        let x = &journal.installed[i - 1];
        r.push(Undo::Remove { place: x.0, folder: x.1.clone() });
        proof {
            assert(part.drop_last() =~= installed.take(i - 1));
            let u = UndoView::Remove { place: x.0, folder: x.1@ };
            assert(part.last() == (x.0, x.1@));
            assert(r.deep_view() =~= before.push(u));
            assert(before.push(u) + removals(part.drop_last()) =~= before + removals(part));
        }
        i -= 1;
    }
    assert(installed.take(0) =~= seq![]);
    assert(r.deep_view() =~= removals(installed));
    let mut k: usize = journal.moved.len();
    proof {
        assert(moved.take(k as int) =~= moved);
    }
    while k > 0
        invariant
            k <= journal.moved.len(),
            moved == journal.moved.deep_view(),
            r.deep_view() + restores(moved.take(k as int)) == removals(installed) + restores(
                moved,
            ),
        decreases k,
    {
        let ghost before = r.deep_view();
        let ghost part = moved.take(k as int);
        let x = &journal.moved[k - 1];
        r.push(Undo::Restore { place: x.0, folder: x.1.clone() });
        proof {
            assert(part.drop_last() =~= moved.take(k - 1));
            let u = UndoView::Restore { place: x.0, folder: x.1@ };
            assert(part.last() == (x.0, x.1@));
            assert(r.deep_view() =~= before.push(u));
            assert(before.push(u) + restores(part.drop_last()) =~= before + restores(part));
        }
        k -= 1;
    }
    assert(moved.take(0) =~= seq![]);
    assert(r.deep_view() + seq![] =~= r.deep_view());
    r
}

/// What is to be done for one step of undoing.
#[derive(Clone, Copy, PartialEq, Eq, Structural)]
pub enum UndoAction {
    RemoveTree,
    PutBack,
    Nothing,
}

/// What is found before a step of undoing: whether there is a directory at the
/// folder's place, whether there is anything, and whether the folder stands
/// where it was put aside.
pub struct UndoFacts {
    pub target_is_dir: bool,
    pub target_exists: bool,
    pub backup_is_dir: bool,
}

/// What a step of undoing comes to, or why it cannot be done. Nothing is
/// overwritten, and only directories are removed.
pub open spec fn undo_decision(
    undo: UndoView,
    facts: UndoFacts,
    target: Seq<char>,
) -> Result<UndoAction, Seq<char>> {
    match undo {
        UndoView::Remove { .. } => if facts.target_is_dir {
            Ok(UndoAction::RemoveTree)
        } else if facts.target_exists {
            Err("Đích rollback không còn là thư mục: "@ + target)
        } else {
            Ok(UndoAction::Nothing)
        },
        UndoView::Restore { .. } => if !facts.backup_is_dir {
            Ok(UndoAction::Nothing)
        } else if facts.target_exists {
            Err("Đích rollback đã tồn tại: "@ + target)
        } else {
            Ok(UndoAction::PutBack)
        },
    }
}

/// What a step of undoing comes to; `target` is the path of the folder's place.
pub fn undo_step(undo: &Undo, facts: &UndoFacts, target: &str) -> (r: Result<UndoAction, String>)
    ensures
        match undo_decision(undo.deep_view(), *facts, target@) {
            Ok(a) => r == Ok::<UndoAction, String>(a),
            Err(e) => r matches Err(x) && x@ == e,
        },
{
    match undo {
        Undo::Remove { .. } => {
            if facts.target_is_dir {
                Ok(UndoAction::RemoveTree)
            } else if facts.target_exists {
                Err("Đích rollback không còn là thư mục: ".to_string().concat(target))
            } else {
                Ok(UndoAction::Nothing)
            }
        },
        Undo::Restore { .. } => {
            if !facts.backup_is_dir {
                Ok(UndoAction::Nothing)
            } else if facts.target_exists {
                Err("Đích rollback đã tồn tại: ".to_string().concat(target))
            } else {
                Ok(UndoAction::PutBack)
            }
        },
    }
}

/// What is said where a change failed: why, and, where it could not be undone
/// either, where the copies are.
pub open spec fn failure(
    error: Seq<char>,
    rollback: Option<Seq<char>>,
    transaction: Seq<char>,
) -> Seq<char> {
    match rollback {
        None => error,
        Some(why) => error + "; KHÔNG KHÔI PHỤC ĐƯỢC, bản sao còn tại "@ + transaction + " ("@ + why
            + ")"@,
    }
}

/// What is said where a change failed with `error`, and undoing it with
/// `rollback` if it failed too.
pub fn failure_text(error: &str, rollback: Option<&str>, transaction: &str) -> (r: String)
    ensures
        r@ == failure(error@, crate::text::opt_view(rollback), transaction@),
{
    match rollback {
        None => error.to_string(),
        Some(why) => error.to_string().concat("; KHÔNG KHÔI PHỤC ĐƯỢC, bản sao còn tại ").concat(
            transaction,
        ).concat(" (").concat(why).concat(")"),
    }
}

/// The directories that a change works on, and what they hold: the two places,
/// the folders that are prepared, and those that were moved aside from either
/// place.
#[verifier::ext_equal]
pub struct Files<C> {
    pub mods: Map<Seq<char>, C>,
    pub off: Map<Seq<char>, C>,
    pub fresh: Map<Seq<char>, C>,
    pub saved_mods: Map<Seq<char>, C>,
    pub saved_off: Map<Seq<char>, C>,
}

impl<C> Files<C> {
    pub open spec fn at(self, place: Place) -> Map<Seq<char>, C> {
        match place {
            Place::Mods => self.mods,
            Place::Off => self.off,
        }
    }

    pub open spec fn saved(self, place: Place) -> Map<Seq<char>, C> {
        match place {
            Place::Mods => self.saved_mods,
            Place::Off => self.saved_off,
        }
    }

    pub open spec fn with_at(self, place: Place, m: Map<Seq<char>, C>) -> Files<C> {
        match place {
            Place::Mods => Files { mods: m, ..self },
            Place::Off => Files { off: m, ..self },
        }
    }

    pub open spec fn with_saved(self, place: Place, m: Map<Seq<char>, C>) -> Files<C> {
        match place {
            Place::Mods => Files { saved_mods: m, ..self },
            Place::Off => Files { saved_off: m, ..self },
        }
    }

    /// Nothing is prepared or moved aside yet.
    pub open spec fn clean(self) -> bool {
        &&& self.fresh == Map::<Seq<char>, C>::empty()
        &&& self.saved_mods == Map::<Seq<char>, C>::empty()
        &&& self.saved_off == Map::<Seq<char>, C>::empty()
    }
}

/// Whether a step can be done.
pub open spec fn can_do<C>(f: Files<C>, step: StepView) -> bool {
    match step {
        StepView::Stage { folder, .. } => !f.fresh.contains_key(folder),
        StepView::Backup { place, folder } => f.at(place).contains_key(folder) && !f.saved(
            place,
        ).contains_key(folder),
        StepView::Put { place, folder } => f.fresh.contains_key(folder) && !f.at(
            place,
        ).contains_key(folder),
        StepView::Keep { from, folder } => f.saved(from).contains_key(folder)
            && !f.off.contains_key(folder),
        StepView::Save => true,
    }
}

/// The directories after a step that was done; `source` tells what the
/// directory at a path holds.
pub open spec fn done<C>(f: Files<C>, step: StepView, source: spec_fn(Seq<char>) -> C) -> Files<
    C,
> {
    match step {
        StepView::Stage { folder, path } => Files {
            fresh: f.fresh.insert(folder, source(path)),
            ..f
        },
        StepView::Backup { place, folder } => f.with_saved(
            place,
            f.saved(place).insert(folder, f.at(place)[folder]),
        ).with_at(place, f.at(place).remove(folder)),
        StepView::Put { place, folder } => {
            let g = Files { fresh: f.fresh.remove(folder), ..f };
            g.with_at(place, f.at(place).insert(folder, f.fresh[folder]))
        },
        StepView::Keep { from, folder } => Files {
            off: f.off.insert(folder, f.saved(from)[folder]),
            ..f
        },
        StepView::Save => f,
    }
}

/// Whether the directories `f` can be `g` after a step with this outcome. A
/// copy that failed may have left anything where it was to go, unless something
/// was there already; a move that failed has changed nothing.
pub open spec fn may_follow<C>(
    f: Files<C>,
    step: StepView,
    outcome: Outcome,
    g: Files<C>,
    source: spec_fn(Seq<char>) -> C,
) -> bool {
    match outcome {
        Outcome::Done => can_do(f, step) && g == done(f, step, source),
        Outcome::Absent => match step {
            StepView::Backup { place, folder } => !f.at(place).contains_key(folder) && g == f,
            _ => false,
        },
        Outcome::Failed => match step {
            StepView::Stage { .. } => g == (Files { fresh: g.fresh, ..f }),
            StepView::Keep { folder, .. } => g == f || (!f.off.contains_key(folder) && exists|
                part: C,
            |
                g == (Files { off: #[trigger] f.off.insert(folder, part), ..f })),
            _ => g == f,
        },
    }
}

/// The directories after one step of undoing.
pub open spec fn undone<C>(f: Files<C>, undo: UndoView) -> Files<C> {
    match undo {
        UndoView::Remove { place, folder } => f.with_at(place, f.at(place).remove(folder)),
        UndoView::Restore { place, folder } => if f.saved(place).contains_key(folder) && !f.at(
            place,
        ).contains_key(folder) {
            f.with_at(place, f.at(place).insert(folder, f.saved(place)[folder])).with_saved(
                place,
                f.saved(place).remove(folder),
            )
        } else {
            f
        },
    }
}

pub open spec fn all_undone<C>(f: Files<C>, undos: Seq<UndoView>) -> Files<C>
    decreases undos.len(),
{
    if undos.len() == 0 {
        f
    } else {
        all_undone(undone(f, undos[0]), undos.drop_first())
    }
}

/// The journal after the first steps of a change, with these outcomes.
pub open spec fn journal_of(steps: Seq<StepView>, outcomes: Seq<Outcome>) -> JournalView
    decreases outcomes.len(),
{
    if outcomes.len() == 0 {
        JournalView { installed: seq![], moved: seq![] }
    } else {
        noted(
            journal_of(steps, outcomes.drop_last()),
            steps[outcomes.len() - 1],
            outcomes.last(),
        )
    }
}

/// The directories `run[0]`, `run[1]` and so on are those before the first step,
/// after it and so on; a step that failed is the last one.
pub open spec fn is_run<C>(
    run: Seq<Files<C>>,
    steps: Seq<StepView>,
    outcomes: Seq<Outcome>,
    source: spec_fn(Seq<char>) -> C,
) -> bool {
    &&& run.len() == outcomes.len() + 1
    &&& outcomes.len() <= steps.len()
    &&& forall|i: int| 0 <= i < outcomes.len() - 1 ==> #[trigger] outcomes[i] != Outcome::Failed
    &&& forall|i: int|
        0 <= i < outcomes.len() ==> may_follow(
            run[i],
            steps[i],
            #[trigger] outcomes[i],
            run[i + 1],
            source,
        )
}

/// What goes into `mods_off` as a copy never goes where something stands.
pub open spec fn keeps_are_free<C>(run: Seq<Files<C>>, steps: Seq<StepView>) -> bool {
    forall|i: int|
        0 <= i < run.len() - 1 ==> (#[trigger] steps[i] matches StepView::Keep { from, folder }
            ==> !run[i].off.contains_key(folder))
}

/// What the journal says of the directories: a folder that is in it as moved
/// aside is there, a folder that was put somewhere stands where nothing stood or
/// whatever stood was moved aside, and every other folder is as it was.
pub open spec fn accounts<C>(f0: Files<C>, f: Files<C>, j: JournalView) -> bool {
    &&& j.moved.no_duplicates()
    &&& forall|p: Place, n: Seq<char>|
        #[trigger] j.moved.contains((p, n)) ==> f0.at(p).contains_key(n) && f.saved(
            p,
        ).contains_key(n) && f.saved(p)[n] == f0.at(p)[n] && (f.at(p).contains_key(n)
            ==> j.installed.contains((p, n)))
    &&& forall|p: Place, n: Seq<char>|
        #[trigger] j.installed.contains((p, n)) ==> j.moved.contains((p, n)) || !f0.at(
            p,
        ).contains_key(n)
    &&& forall|p: Place, n: Seq<char>|
        !j.moved.contains((p, n)) && !j.installed.contains((p, n)) ==> (#[trigger] f.at(
            p,
        ).contains_key(n) <==> f0.at(p).contains_key(n)) && (f.at(p).contains_key(n) ==> f.at(p)[n]
            == f0.at(p)[n])
}

proof fn lemma_push_contains<T>(s: Seq<T>, x: T)
    ensures
        forall|y: T| #[trigger] s.push(x).contains(y) <==> s.contains(y) || y == x,
{
    assert forall|y: T| #[trigger] s.push(x).contains(y) <==> s.contains(y) || y == x by {
        if s.push(x).contains(y) {
            let i = choose|i: int| 0 <= i < s.push(x).len() && s.push(x)[i] == y;
            if i < s.len() {
                assert(s[i] == y);
            }
        }
        if s.contains(y) {
            let i = choose|i: int| 0 <= i < s.len() && s[i] == y;
            assert(s.push(x)[i] == y);
        }
        if y == x {
            assert(s.push(x)[s.len() as int] == y);
        }
    }
}

/// A step keeps the account.
proof fn lemma_step_keeps_account<C>(
    f0: Files<C>,
    f: Files<C>,
    j: JournalView,
    step: StepView,
    outcome: Outcome,
    g: Files<C>,
    source: spec_fn(Seq<char>) -> C,
)
    requires
        accounts(f0, f, j),
        may_follow(f, step, outcome, g, source),
        step is Backup ==> j.installed.len() == 0,
        step matches StepView::Keep { from, folder } ==> !f.off.contains_key(folder),
    ensures
        accounts(f0, g, noted(j, step, outcome)),
{
    let k = noted(j, step, outcome);
    match step {
        StepView::Backup { place, folder } => {
            if outcome is Done {
                lemma_push_contains(j.moved, (place, folder));
                assert(f.at(place).contains_key(folder));
                assert(!j.installed.contains((place, folder)));
                assert(!j.moved.contains((place, folder)));
            }
        },
        StepView::Put { place, folder } => {
            if outcome is Done {
                lemma_push_contains(j.installed, (place, folder));
                assert(!f.at(place).contains_key(folder));
            }
        },
        StepView::Keep { from, folder } => {
            lemma_push_contains(j.installed, (Place::Off, folder));
            assert(!f.at(Place::Off).contains_key(folder));
        },
        _ => {},
    }
    assert forall|p: Place, n: Seq<char>|
        !k.moved.contains((p, n)) && !k.installed.contains((p, n)) implies (#[trigger] g.at(
        p,
    ).contains_key(n) <==> f0.at(p).contains_key(n)) && (g.at(p).contains_key(n) ==> g.at(p)[n]
        == f0.at(p)[n]) by {
        assert(!j.moved.contains((p, n)) && !j.installed.contains((p, n)));
        assert(f.at(p).contains_key(n) <==> f0.at(p).contains_key(n));
    }
}

/// Folders are moved aside before any is put somewhere.
pub open spec fn backups_first(steps: Seq<StepView>) -> bool {
    forall|i: int, k: int|
        0 <= i < k < steps.len() && (#[trigger] steps[i] is Put || steps[i] is Keep) ==> !(
        #[trigger] steps[k] is Backup)
}

proof fn lemma_run_keeps_account<C>(
    run: Seq<Files<C>>,
    steps: Seq<StepView>,
    outcomes: Seq<Outcome>,
    source: spec_fn(Seq<char>) -> C,
)
    requires
        is_run(run, steps, outcomes, source),
        keeps_are_free(run, steps),
        backups_first(steps),
    ensures
        accounts(run[0], run.last(), journal_of(steps, outcomes)),
        journal_of(steps, outcomes).installed.len() > 0 ==> exists|i: int|
            0 <= i < outcomes.len() && (#[trigger] steps[i] is Put || steps[i] is Keep),
    decreases outcomes.len(),
{
    if outcomes.len() > 0 {
        let n = outcomes.len() - 1;
        let r = run.drop_last();
        let o = outcomes.drop_last();
        assert forall|i: int| 0 <= i < o.len() implies may_follow(
            r[i],
            steps[i],
            #[trigger] o[i],
            r[i + 1],
            source,
        ) by {
            assert(may_follow(run[i], steps[i], outcomes[i], run[i + 1], source));
        }
        assert forall|i: int| 0 <= i < r.len() - 1 implies (#[trigger] steps[i] matches StepView::Keep {
            from,
            folder,
        } ==> !r[i].off.contains_key(folder)) by {
            assert(r[i] == run[i]);
        }
        assert forall|i: int| 0 <= i < o.len() - 1 implies #[trigger] o[i] != Outcome::Failed by {
            assert(outcomes[i] != Outcome::Failed);
        }
        lemma_run_keeps_account(r, steps, o, source);
        let j = journal_of(steps, o);
        assert(r.last() == run[n]);
        assert(may_follow(run[n], steps[n], outcomes[n], run[n + 1], source));
        if steps[n] is Backup && j.installed.len() > 0 {
            let i = choose|i: int|
                0 <= i < o.len() && (#[trigger] steps[i] is Put || steps[i] is Keep);
            assert(i < n);
        }
        lemma_step_keeps_account(run[0], run[n], j, steps[n], outcomes[n], run[n + 1], source);
    } else {
        assert(run.last() == run[0]);
    }
}

proof fn lemma_undone_in_two<C>(f: Files<C>, a: Seq<UndoView>, b: Seq<UndoView>)
    ensures
        all_undone(f, a + b) == all_undone(all_undone(f, a), b),
    decreases a.len(),
{
    if a.len() == 0 {
        assert(a + b =~= b);
    } else {
        assert((a + b).drop_first() =~= a.drop_first() + b);
        lemma_undone_in_two(undone(f, a[0]), a.drop_first(), b);
    }
}

proof fn lemma_removals<C>(f: Files<C>, installed: Seq<(Place, Seq<char>)>)
    ensures
        ({
            let g = all_undone(f, removals(installed));
            &&& g.saved_mods == f.saved_mods
            &&& g.saved_off == f.saved_off
            &&& forall|p: Place, n: Seq<char>|
                #[trigger] g.at(p).contains_key(n) <==> f.at(p).contains_key(n)
                    && !installed.contains((p, n))
            &&& forall|p: Place, n: Seq<char>|
                #[trigger] g.at(p).contains_key(n) ==> g.at(p)[n] == f.at(p)[n]
        }),
    decreases installed.len(),
{
    if installed.len() > 0 {
        let x = installed.last();
        let t = installed.drop_last();
        let u = UndoView::Remove { place: x.0, folder: x.1 };
        let f1 = undone(f, u);
        assert(removals(installed)[0] == u);
        assert(removals(installed).drop_first() =~= removals(t));
        lemma_removals(f1, t);
        lemma_push_contains(t, x);
        assert(t.push(x) =~= installed);
        let g = all_undone(f, removals(installed));
        assert forall|p: Place, n: Seq<char>| #[trigger] g.at(p).contains_key(n) <==> f.at(
            p,
        ).contains_key(n) && !installed.contains((p, n)) by {
            assert(f1.at(p).contains_key(n) <==> f.at(p).contains_key(n) && (p, n) != x);
        }
    } else {
        assert forall|p: Place, n: Seq<char>| !installed.contains((p, n)) by {}
    }
}

proof fn lemma_restores<C>(f0: Files<C>, f: Files<C>, moved: Seq<(Place, Seq<char>)>)
    requires
        moved.no_duplicates(),
        forall|p: Place, n: Seq<char>|
            #[trigger] moved.contains((p, n)) ==> f0.at(p).contains_key(n) && !f.at(
                p,
            ).contains_key(n) && f.saved(p).contains_key(n) && f.saved(p)[n] == f0.at(p)[n],
        forall|p: Place, n: Seq<char>|
            !moved.contains((p, n)) ==> (#[trigger] f.at(p).contains_key(n) <==> f0.at(
                p,
            ).contains_key(n)) && (f.at(p).contains_key(n) ==> f.at(p)[n] == f0.at(p)[n]),
    ensures
        all_undone(f, restores(moved)).mods == f0.mods,
        all_undone(f, restores(moved)).off == f0.off,
    decreases moved.len(),
{
    if moved.len() > 0 {
        let x = moved.last();
        let t = moved.drop_last();
        let u = UndoView::Restore { place: x.0, folder: x.1 };
        let f1 = undone(f, u);
        assert(restores(moved)[0] == u);
        assert(restores(moved).drop_first() =~= restores(t));
        lemma_push_contains(t, x);
        assert(t.push(x) =~= moved);
        assert(moved.contains(x));
        assert(moved.contains((x.0, x.1)));
        assert(!t.contains(x)) by {
            if t.contains(x) {
                let i = choose|i: int| 0 <= i < t.len() && t[i] == x;
                assert(moved[i] == moved[moved.len() - 1]);
            }
        }
        assert forall|p: Place, n: Seq<char>| #[trigger] t.contains((p, n)) implies f0.at(
            p,
        ).contains_key(n) && !f1.at(p).contains_key(n) && f1.saved(p).contains_key(n) && f1.saved(
            p,
        )[n] == f0.at(p)[n] by {
            assert(moved.contains((p, n)));
            assert((p, n) != x);
        }
        assert forall|p: Place, n: Seq<char>| !t.contains((p, n)) implies (#[trigger] f1.at(
            p,
        ).contains_key(n) <==> f0.at(p).contains_key(n)) && (f1.at(p).contains_key(n) ==> f1.at(
            p,
        )[n] == f0.at(p)[n]) by {
            if (p, n) != x {
                assert(!moved.contains((p, n)));
                assert(f.at(p).contains_key(n) <==> f0.at(p).contains_key(n));
            }
        }
        lemma_restores(f0, f1, t);
    } else {
        assert forall|n: Seq<char>| f.mods.contains_key(n) <==> f0.mods.contains_key(n) by {
            assert(!moved.contains((Place::Mods, n)));
            assert(f.at(Place::Mods).contains_key(n) <==> f0.at(Place::Mods).contains_key(n));
        }
        assert forall|n: Seq<char>| f.mods.contains_key(n) implies f.mods[n] == f0.mods[n] by {
            assert(!moved.contains((Place::Mods, n)));
            assert(f.at(Place::Mods).contains_key(n));
        }
        assert forall|n: Seq<char>| f.off.contains_key(n) <==> f0.off.contains_key(n) by {
            assert(!moved.contains((Place::Off, n)));
            assert(f.at(Place::Off).contains_key(n) <==> f0.at(Place::Off).contains_key(n));
        }
        assert forall|n: Seq<char>| f.off.contains_key(n) implies f.off[n] == f0.off[n] by {
            assert(!moved.contains((Place::Off, n)));
            assert(f.at(Place::Off).contains_key(n));
        }
        assert(f.mods =~= f0.mods);
        assert(f.off =~= f0.off);
    }
}

/// A change that stopped anywhere can be undone: whatever was done of it, and
/// whatever a copy that failed has left, undoing it gives both places back as
/// they were, folder by folder.
pub proof fn law_rollback_restores<C>(
    run: Seq<Files<C>>,
    steps: Seq<StepView>,
    outcomes: Seq<Outcome>,
    source: spec_fn(Seq<char>) -> C,
)
    requires
        is_run(run, steps, outcomes, source),
        keeps_are_free(run, steps),
        backups_first(steps),
    ensures
        ({
            let g = all_undone(run.last(), undo_steps(journal_of(steps, outcomes)));
            g.mods == run[0].mods && g.off == run[0].off
        }),
{
    lemma_run_keeps_account(run, steps, outcomes, source);
    let j = journal_of(steps, outcomes);
    let f0 = run[0];
    let f = run.last();
    lemma_undone_in_two(f, removals(j.installed), restores(j.moved));
    lemma_removals(f, j.installed);
    let g = all_undone(f, removals(j.installed));
    assert forall|p: Place, n: Seq<char>| #[trigger] j.moved.contains((p, n)) implies f0.at(
        p,
    ).contains_key(n) && !g.at(p).contains_key(n) && g.saved(p).contains_key(n) && g.saved(p)[n]
        == f0.at(p)[n] by {
        assert(g.saved(p) == f.saved(p));
        assert(g.at(p).contains_key(n) <==> f.at(p).contains_key(n) && !j.installed.contains(
            (p, n),
        ));
    }
    assert forall|p: Place, n: Seq<char>| !j.moved.contains((p, n)) implies (#[trigger] g.at(
        p,
    ).contains_key(n) <==> f0.at(p).contains_key(n)) && (g.at(p).contains_key(n) ==> g.at(p)[n]
        == f0.at(p)[n]) by {
        if j.installed.contains((p, n)) {
            assert(!f0.at(p).contains_key(n));
        } else {
            assert(f.at(p).contains_key(n) <==> f0.at(p).contains_key(n));
        }
    }
    lemma_restores(f0, g, j.moved);
}

/// The directories after a step that did not fail.
pub open spec fn completed<C>(f: Files<C>, step: StepView, source: spec_fn(Seq<char>) -> C) -> Files<
    C,
> {
    match step {
        StepView::Backup { place, folder } => if f.at(place).contains_key(folder) {
            done(f, step, source)
        } else {
            f
        },
        _ => done(f, step, source),
    }
}

pub open spec fn all_completed<C>(
    f: Files<C>,
    steps: Seq<StepView>,
    source: spec_fn(Seq<char>) -> C,
) -> Files<C>
    decreases steps.len(),
{
    if steps.len() == 0 {
        f
    } else {
        completed(all_completed(f, steps.drop_last(), source), steps.last(), source)
    }
}

pub proof fn lemma_completed_in_two<C>(
    f: Files<C>,
    a: Seq<StepView>,
    b: Seq<StepView>,
    source: spec_fn(Seq<char>) -> C,
)
    ensures
        all_completed(f, a + b, source) == all_completed(all_completed(f, a, source), b, source),
    decreases b.len(),
{
    if b.len() == 0 {
        assert(a + b =~= a);
    } else {
        assert((a + b).drop_last() =~= a + b.drop_last());
        lemma_completed_in_two(f, a, b.drop_last(), source);
    }
}

/// A run in which no step failed ends where the steps lead.
pub proof fn lemma_run_completes<C>(
    run: Seq<Files<C>>,
    steps: Seq<StepView>,
    outcomes: Seq<Outcome>,
    source: spec_fn(Seq<char>) -> C,
    n: int,
)
    requires
        is_run(run, steps, outcomes, source),
        forall|i: int| 0 <= i < outcomes.len() ==> #[trigger] outcomes[i] != Outcome::Failed,
        0 <= n <= outcomes.len(),
    ensures
        run[n] == all_completed(run[0], steps.take(n), source),
    decreases n,
{
    if n > 0 {
        lemma_run_completes(run, steps, outcomes, source, n - 1);
        assert(may_follow(run[n - 1], steps[n - 1], outcomes[n - 1], run[n], source));
        assert(steps.take(n).drop_last() =~= steps.take(n - 1));
    }
}

/// What stands nowhere, or was moved aside, is not in `mods_off` until a step
/// puts it there.
pub proof fn lemma_stays_out<C>(
    run: Seq<Files<C>>,
    steps: Seq<StepView>,
    outcomes: Seq<Outcome>,
    source: spec_fn(Seq<char>) -> C,
    folder: Seq<char>,
    n: int,
)
    requires
        is_run(run, steps, outcomes, source),
        0 <= n < outcomes.len(),
        forall|k: int|
            0 <= k < n ==> #[trigger] steps[k] != (StepView::Put { place: Place::Off, folder })
                && (steps[k] matches StepView::Keep { from, folder: other } ==> other != folder),
        !run[0].off.contains_key(folder) || exists|k: int|
            0 <= k < n && #[trigger] steps[k] == (StepView::Backup { place: Place::Off, folder }),
    ensures
        !run[n].off.contains_key(folder),
    decreases n,
{
    if n > 0 {
        let s = steps[n - 1];
        assert(may_follow(run[n - 1], s, outcomes[n - 1], run[n], source));
        assert(outcomes[n - 1] != Outcome::Failed);
        if s == (StepView::Backup { place: Place::Off, folder }) {
        } else {
            if run[0].off.contains_key(folder) {
                let k = choose|k: int|
                    0 <= k < n && #[trigger] steps[k] == (StepView::Backup {
                        place: Place::Off,
                        folder,
                    });
                assert(k < n - 1);
            }
            lemma_stays_out(run, steps, outcomes, source, folder, n - 1);
        }
    }
}

} // verus!
