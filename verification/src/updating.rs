//! A request to bring every installed item to the state of the workshop, from
//! beginning to end. The machine says what is to be done next, and goes on when it
//! is told what came of it.
use vstd::prelude::*;

use crate::flow::{
    error_line, goes_well, has_warning, is_latest, is_warning, law_failures_are_warnings, lemma_warning_stays,
    missing_line, tells_failures, title_text, vanished_line, Report,
};
use crate::folder::{Disk, Done};
use crate::json::{pairs_of, value_u64, Json, JsonView};
use crate::remove::entry_title;
use crate::state::entry_complete;
use crate::table::{at, Table};

verus! {

/// What a request waits for.
#[derive(Clone, Copy, PartialEq, Eq, Structural)]
pub enum UpdateStage {
    /// What is known of the items.
    Metadata,
    /// What there is of an item.
    Items,
    /// An item, installed anew.
    Item,
    /// The mod ids that are missing.
    Missing,
    /// It is over.
    Over,
}

pub struct Updating {
    pub state: Vec<(String, Json)>,
    pub stage: UpdateStage,
    pub known: Table<Json>,
    pub position: usize,
    pub report: Report,
    pub failure: Option<String>,
}

#[verifier::ext_equal]
pub struct UpdatingView {
    pub state: Seq<(Seq<char>, JsonView)>,
    pub stage: UpdateStage,
    pub known: Seq<(Seq<char>, JsonView)>,
    pub position: nat,
    pub ok: bool,
    pub log: Seq<Seq<char>>,
    pub failure: Option<Seq<char>>,
}

impl DeepView for Updating {
    type V = UpdatingView;

    open spec fn deep_view(&self) -> UpdatingView {
        UpdatingView {
            state: pairs_of(self.state@),
            stage: self.stage,
            known: self.known.deep_view(),
            position: self.position as nat,
            ok: self.report.ok,
            log: self.report.log.deep_view(),
            failure: self.failure.deep_view(),
        }
    }
}

/// What is to be done next.
pub enum UpdateAction {
    /// Ask what is known of these items.
    Describe(Vec<String>),
    /// Look what there is of this item.
    Look(String),
    /// Download this item anew and install it; this is known of it.
    Install(String, Json),
    /// Nothing: go on.
    Go,
    /// Find the mod ids that are missing.
    Missing,
    /// It is over.
    Finish,
}

pub enum UpdateActionView {
    Describe(Seq<Seq<char>>),
    Look(Seq<char>),
    Install(Seq<char>, JsonView),
    Go,
    Missing,
    Finish,
}

impl UpdateAction {
    pub open spec fn model(self) -> UpdateActionView {
        match self {
            UpdateAction::Describe(v) => UpdateActionView::Describe(v.deep_view()),
            UpdateAction::Look(id) => UpdateActionView::Look(id@),
            UpdateAction::Install(id, detail) => UpdateActionView::Install(id@, detail.model()),
            UpdateAction::Go => UpdateActionView::Go,
            UpdateAction::Missing => UpdateActionView::Missing,
            UpdateAction::Finish => UpdateActionView::Finish,
        }
    }
}

/// The ids of the items of a state.
pub open spec fn item_ids(state: Seq<(Seq<char>, JsonView)>) -> Seq<Seq<char>> {
    state.map_values(|p: (Seq<char>, JsonView)| p.0)
}

/// What is to be done next.
pub open spec fn next_action(v: UpdatingView) -> UpdateActionView {
    let i = v.position as int;
    match v.stage {
        UpdateStage::Metadata => UpdateActionView::Describe(item_ids(v.state)),
        UpdateStage::Items => if i < v.state.len() && at(v.known, v.state[i].0) is Some {
            UpdateActionView::Look(v.state[i].0)
        } else {
            UpdateActionView::Go
        },
        UpdateStage::Item => if i < v.state.len() && at(v.known, v.state[i].0) is Some {
            UpdateActionView::Install(v.state[i].0, at(v.known, v.state[i].0)->Some_0)
        } else {
            UpdateActionView::Go
        },
        UpdateStage::Missing => UpdateActionView::Missing,
        UpdateStage::Over => UpdateActionView::Finish,
    }
}

/// What came of it.
pub enum UpdateEvent {
    Details(Result<Table<Json>, String>),
    Seen(Disk),
    Installed(Result<Vec<String>, String>),
    Go,
    Missing(Vec<String>),
}

/// A line is told of the item that is at hand, and the next one is at hand.
pub open spec fn passed(v: UpdatingView, line: Seq<char>, ok: bool) -> (
    UpdatingView,
    Seq<Seq<char>>,
) {
    (
        UpdatingView {
            stage: UpdateStage::Items,
            position: v.position + 1,
            ok,
            log: v.log.push(line),
            ..v
        },
        seq![line],
    )
}

/// Where the request is after what came of it, and the lines that are told at
/// once. What it did not wait for changes nothing.
pub open spec fn told(v: UpdatingView, e: UpdateEvent) -> (UpdatingView, Seq<Seq<char>>) {
    let i = v.position as int;
    let entry = v.state[i].1;
    let title = entry_title(entry, v.state[i].0);
    match (v.stage, e) {
        (UpdateStage::Metadata, UpdateEvent::Details(Ok(t))) => (
            UpdatingView { stage: UpdateStage::Items, known: t.deep_view(), ..v },
            seq![],
        ),
        (UpdateStage::Metadata, UpdateEvent::Details(Err(why))) => (
            UpdatingView { stage: UpdateStage::Over, failure: Some(why@), ..v },
            seq![],
        ),
        (UpdateStage::Items, UpdateEvent::Go) => if next_action(v) is Look {
            (v, seq![])
        } else if i < v.state.len() {
            passed(v, vanished_line(title), false)
        } else {
            (UpdatingView { stage: UpdateStage::Missing, ..v }, seq![])
        },
        (UpdateStage::Items, UpdateEvent::Seen(disk)) => if next_action(v) !is Look {
            (v, seq![])
        } else if is_latest(entry, at(v.known, v.state[i].0)->Some_0, disk) {
            passed(v, "= "@ + title, v.ok)
        } else {
            (UpdatingView { stage: UpdateStage::Item, ..v }, seq![])
        },
        (UpdateStage::Item, UpdateEvent::Installed(result)) => if next_action(v) !is Install {
            (v, seq![])
        } else {
            match result {
                Ok(lines) => (
                    UpdatingView {
                        stage: UpdateStage::Items,
                        position: v.position + 1,
                        log: v.log + lines.deep_view(),
                        ..v
                    },
                    lines.deep_view(),
                ),
                Err(why) => passed(v, error_line(title, why@), false),
            }
        },
        (UpdateStage::Missing, UpdateEvent::Missing(m)) => if m.len() == 0 {
            (UpdatingView { stage: UpdateStage::Over, ..v }, seq![])
        } else {
            let line = missing_line(m.deep_view());
            (
                UpdatingView { stage: UpdateStage::Over, ok: false, log: v.log.push(line), ..v },
                seq![line],
            )
        },
        _ => (v, seq![]),
    }
}

/// A request that has just been made. Without items it is over at once.
pub open spec fn asked(state: Seq<(Seq<char>, JsonView)>) -> UpdatingView {
    UpdatingView {
        state,
        stage: if state.len() == 0 {
            UpdateStage::Over
        } else {
            UpdateStage::Metadata
        },
        known: seq![],
        position: 0,
        ok: true,
        log: if state.len() == 0 {
            seq!["không có mod để cập nhật"@]
        } else {
            seq![]
        },
        failure: None,
    }
}

/// A request to update the items of `state`, and the lines that are told at once.
/// Without items there is nothing to do.
pub fn update_internal(state: Vec<(String, Json)>) -> (r: (Updating, Vec<String>))
    ensures
        r.0.deep_view() == asked(pairs_of(state@)),
        r.1.deep_view() == asked(pairs_of(state@)).log,
{
    let mut log: Vec<String> = Vec::new();
    let mut lines: Vec<String> = Vec::new();
    let ghost expected: Seq<Seq<char>> = if state.len() == 0 {
        seq!["không có mod để cập nhật"@]
    } else {
        seq![]
    };
    let stage = if state.len() == 0 {
        log.push("không có mod để cập nhật".to_string());
        lines.push("không có mod để cập nhật".to_string());
        UpdateStage::Over
    } else {
        UpdateStage::Metadata
    };
    assert(log.deep_view() =~= expected);
    assert(lines.deep_view() =~= expected);
    let r = Updating {
        state,
        stage,
        known: Table::new(),
        position: 0,
        report: Report::start(log),
        failure: None,
    };
    (r, lines)
}

fn update_ids(state: &Vec<(String, Json)>) -> (r: Vec<String>)
    ensures
        r.deep_view() == item_ids(pairs_of(state@)),
{
    let mut r: Vec<String> = Vec::new();
    let mut i: usize = 0;
    while i < state.len()
        invariant
            i <= state.len(),
            r.len() == i,
            forall|k: int| 0 <= k < i ==> (#[trigger] r@[k])@ == state@[k].0@,
        decreases state.len() - i,
    {
        r.push(state[i].0.clone());
        i += 1;
    }
    assert(r.deep_view() =~= item_ids(pairs_of(state@)));
    r
}

impl Updating {
    fn at_hand(&self) -> (r: Option<&Json>)
        ensures
            match r {
                Some(d) => self.position < self.state.len() && at(
                    self.known.deep_view(),
                    self.state@[self.position as int].0@,
                ) == Some(d.model()),
                None => self.position >= self.state.len() || at(
                    self.known.deep_view(),
                    self.state@[self.position as int].0@,
                ) is None,
            },
    {
        if self.position < self.state.len() {
            self.known.get(self.state[self.position].0.as_str())
        } else {
            None
        }
    }

    /// What is to be done next.
    pub fn action(&self) -> (r: UpdateAction)
        ensures
            r.model() == next_action(self.deep_view()),
    {
        match self.stage {
            UpdateStage::Metadata => UpdateAction::Describe(update_ids(&self.state)),
            UpdateStage::Items => match self.at_hand() {
                Some(_) => UpdateAction::Look(self.state[self.position].0.clone()),
                None => UpdateAction::Go,
            },
            UpdateStage::Item => match self.at_hand() {
                Some(d) => UpdateAction::Install(self.state[self.position].0.clone(), d.copy()),
                None => UpdateAction::Go,
            },
            UpdateStage::Missing => UpdateAction::Missing,
            UpdateStage::Over => UpdateAction::Finish,
        }
    }

    /// Takes what came of the last action. Gives the lines that are told at once.
    pub fn tell(&mut self, event: UpdateEvent) -> (r: Vec<String>)
        ensures
            (final(self).deep_view(), r.deep_view()) == told(old(self).deep_view(), event),
    {
        let ghost v = self.deep_view();
        let mut lines: Vec<String> = Vec::new();
        assert(lines.deep_view() =~= seq![]);
        match event {
            UpdateEvent::Details(result) => {
                if self.stage == UpdateStage::Metadata {
                    match result {
                        Ok(t) => {
                            self.known = t;
                            self.stage = UpdateStage::Items;
                        },
                        Err(why) => {
                            self.failure = Some(why);
                            self.stage = UpdateStage::Over;
                        },
                    }
                }
            },
            UpdateEvent::Go => {
                if self.stage == UpdateStage::Items && self.at_hand().is_none() {
                    if self.position < self.state.len() {
                        let title = title_text(
                            &self.state[self.position].1,
                            self.state[self.position].0.as_str(),
                        );
                        let line = self.report.note_vanished(title.as_str());
                        lines.push(line);
                        assert(lines.deep_view() =~= seq![line@]);
                        self.position = self.position + 1;
                    } else {
                        self.stage = UpdateStage::Missing;
                    }
                }
            },
            UpdateEvent::Seen(disk) => {
                if self.stage == UpdateStage::Items {
                    let latest = match self.at_hand() {
                        Some(d) => Some(
                            value_u64(d, "time_updated") == value_u64(
                                &self.state[self.position].1,
                                "updated",
                            ) && entry_complete(&self.state[self.position].1, &disk),
                        ),
                        None => None,
                    };
                    match latest {
                        Some(true) => {
                            let title = title_text(
                                &self.state[self.position].1,
                                self.state[self.position].0.as_str(),
                            );
                            let line = "= ".to_string().concat(title.as_str());
                            lines.push(line);
                            assert(lines.deep_view() =~= seq![line@]);
                            self.report.tell(&lines);
                            assert(self.report.log.deep_view() =~= v.log.push(line@));
                            self.position = self.position + 1;
                        },
                        Some(false) => {
                            self.stage = UpdateStage::Item;
                        },
                        None => {},
                    }
                }
            },
            UpdateEvent::Installed(result) => {
                if self.stage == UpdateStage::Item && self.at_hand().is_some() {
                    match result {
                        Ok(more) => {
                            self.report.tell(&more);
                            lines = more;
                        },
                        Err(why) => {
                            let title = title_text(
                                &self.state[self.position].1,
                                self.state[self.position].0.as_str(),
                            );
                            let line = self.report.note_error(title.as_str(), why.as_str());
                            lines.push(line);
                            assert(lines.deep_view() =~= seq![line@]);
                        },
                    }
                    self.position = self.position + 1;
                    self.stage = UpdateStage::Items;
                }
            },
            UpdateEvent::Missing(missing) => {
                if self.stage == UpdateStage::Missing {
                    match self.report.note_missing(&missing) {
                        Some(line) => {
                            lines.push(line);
                            assert(lines.deep_view() =~= seq![line@]);
                        },
                        None => {},
                    }
                    self.stage = UpdateStage::Over;
                }
            },
        }
        proof {
            assert(self.deep_view() =~= told(v, event).0);
        }
        lines
    }

    /// What is answered in the end.
    pub fn finish(self) -> (r: Result<Done, String>)
        ensures
            match self.deep_view().failure {
                Some(e) => r matches Err(x) && x@ == e,
                None => r matches Ok(d) && d.log.deep_view() == self.deep_view().log && d.ok
                    == goes_well(self.deep_view().ok, self.deep_view().log),
            },
    {
        match self.failure {
            Some(e) => Err(e),
            None => Ok(self.report.finish()),
        }
    }
}

/// An item that the workshop no longer knows, or that is what the workshop has, is
/// never installed anew.
pub proof fn law_only_outdated_items_are_installed(v: UpdatingView, e: UpdateEvent)
    requires
        v.stage == UpdateStage::Items,
        told(v, e).0.stage == UpdateStage::Item,
    ensures
        ({
            let id = v.state[v.position as int].0;
            &&& v.position < v.state.len()
            &&& at(v.known, id) is Some
            &&& e matches UpdateEvent::Seen(disk) && !is_latest(
                v.state[v.position as int].1,
                at(v.known, id)->Some_0,
                disk,
            )
            &&& next_action(told(v, e).0) == UpdateActionView::Install(id, at(v.known, id)->Some_0)
        }),
{
}

/// The items are gone through in order, one at a time, whatever came of the ones
/// before, and what was told stays told.
pub proof fn law_every_item_has_its_turn(v: UpdatingView, e: UpdateEvent)
    requires
        v.stage == UpdateStage::Items || v.stage == UpdateStage::Item,
    ensures
        ({
            let w = told(v, e).0;
            &&& w.state == v.state && w.known == v.known && w.failure == v.failure
            &&& w.position == v.position || w.position == v.position + 1
            &&& w.position != v.position ==> v.position < v.state.len()
            &&& w.stage == UpdateStage::Missing ==> w.position >= v.state.len()
            &&& w.stage != UpdateStage::Over
            &&& v.log.is_prefix_of(w.log)
            &&& !v.ok ==> !w.ok
        }),
{
}

/// No failure goes untold: however a request goes on, it went well where no line is
/// a warning, and only there.
pub proof fn law_no_failure_goes_untold(v: UpdatingView, e: UpdateEvent)
    requires
        tells_failures(v.ok, v.log),
    ensures
        ({
            let w = told(v, e).0;
            &&& tells_failures(w.ok, w.log)
            &&& (w.ok && !has_warning(w.log)) <==> !has_warning(w.log)
        }),
{
    let w = told(v, e).0;
    if v.log.is_prefix_of(w.log) {
        let more = w.log.skip(v.log.len() as int);
        assert(w.log =~= v.log + more);
        lemma_warning_stays(v.log, more);
    }
    if w.ok != v.ok && !w.ok {
        let title = entry_title(v.state[v.position as int].1, v.state[v.position as int].0);
        match e {
            UpdateEvent::Installed(Err(why)) => {
                law_failures_are_warnings(title, why@, seq![]);
            },
            UpdateEvent::Missing(m) => {
                law_failures_are_warnings(seq![], seq![], m.deep_view());
            },
            _ => {
                law_failures_are_warnings(title, seq![], seq![]);
            },
        }
        assert(is_warning(w.log[w.log.len() - 1]));
    }
}

/// How far from the end a request is: the items that are left, then the stage.
pub open spec fn steps_left(v: UpdatingView) -> nat {
    let items = if v.position < v.state.len() {
        (v.state.len() - v.position) as nat
    } else {
        0
    };
    match v.stage {
        UpdateStage::Metadata => 2 * items + 4,
        UpdateStage::Items => 2 * items + 3,
        UpdateStage::Item => 2 * items + 2,
        UpdateStage::Missing => 1,
        UpdateStage::Over => 0,
    }
}

/// Whether an event is an answer to what is to be done.
pub open spec fn is_answer(action: UpdateActionView, e: UpdateEvent) -> bool {
    match action {
        UpdateActionView::Describe(_) => e is Details,
        UpdateActionView::Look(_) => e is Seen,
        UpdateActionView::Install(_, _) => e is Installed,
        UpdateActionView::Go => e is Go,
        UpdateActionView::Missing => e is Missing,
        UpdateActionView::Finish => false,
    }
}

/// An item is only installed anew where the workshop knows it.
pub open spec fn is_sound(v: UpdatingView) -> bool {
    v.stage == UpdateStage::Item ==> next_action(v) is Install
}

/// An update comes to an end: every answer leaves fewer steps to go.
pub proof fn law_an_update_comes_to_an_end(v: UpdatingView, e: UpdateEvent)
    requires
        is_sound(v),
    ensures
        is_sound(told(v, e).0),
        told(v, e).0 == v || steps_left(told(v, e).0) < steps_left(v),
        is_answer(next_action(v), e) ==> steps_left(told(v, e).0) < steps_left(v),
{
}

} // verus!
