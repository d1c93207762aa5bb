//! A request to install an item, from beginning to end. The machine says what is
//! to be done next, and goes on when it is told what came of it.
use vstd::prelude::*;

use crate::flow::{
    collection_line, error_line, extra_items, extra_line, extras, goes_well, gone_line, has_warning,
    install_labels, is_warning, labels_of, law_failures_are_warnings, lemma_warning_stays,
    missing_line, missing_metadata, not_known, refresh_cache, tells_failures, titles_of,
    unsaved_line, Report,
};
use crate::folder::Done;
use crate::json::{lookup, pairs_of, Json, JsonView};
use crate::table::{at, merged, Table};
use crate::text::{copy_texts, decimal, is_id, is_workshop_id, joined};
use crate::walk::title_of;

verus! {

/// How many levels of needed items are followed.
pub const LEVELS: usize = 4;

/// What a request waits for.
#[derive(Clone, Copy, PartialEq, Eq, Structural)]
pub enum InstallStage {
    /// What is known of the item.
    Item,
    /// The items of the collection that it is.
    Children,
    /// The order of what is needed.
    Levels,
    /// What the needed items are called.
    Extra,
    /// The state file.
    State,
    /// What is known of all items.
    Metadata,
    /// The items, downloaded.
    Download,
    /// The order with what required mod ids lead to.
    Expand,
    /// What is known of the items that were added.
    Rest,
    /// The items are installed, one after the other.
    Items,
    /// What was found out of mod ids is written down.
    Persist,
    /// The mod ids that are missing.
    Missing,
    /// It is over.
    Over,
}

pub struct Installing {
    pub id: String,
    pub force: bool,
    pub stage: InstallStage,
    pub todo: Vec<String>,
    pub order: Vec<String>,
    pub extra: Vec<String>,
    pub refresh: bool,
    pub known: Table<Json>,
    pub position: usize,
    pub report: Report,
    pub failure: Option<String>,
}

#[verifier::ext_equal]
pub struct InstallingView {
    pub id: Seq<char>,
    pub force: bool,
    pub stage: InstallStage,
    pub todo: Seq<Seq<char>>,
    pub order: Seq<Seq<char>>,
    pub extra: Seq<Seq<char>>,
    pub refresh: bool,
    pub known: Seq<(Seq<char>, JsonView)>,
    pub position: nat,
    pub ok: bool,
    pub log: Seq<Seq<char>>,
    pub failure: Option<Seq<char>>,
}

impl DeepView for Installing {
    type V = InstallingView;

    open spec fn deep_view(&self) -> InstallingView {
        InstallingView {
            id: self.id@,
            force: self.force,
            stage: self.stage,
            todo: self.todo.deep_view(),
            order: self.order.deep_view(),
            extra: self.extra.deep_view(),
            refresh: self.refresh,
            known: self.known.deep_view(),
            position: self.position as nat,
            ok: self.report.ok,
            log: self.report.log.deep_view(),
            failure: self.failure.deep_view(),
        }
    }
}

/// What is to be done next.
pub enum InstallAction {
    /// Ask what is known of these items.
    Describe(Vec<String>),
    /// Ask for the items of a collection.
    Children(String),
    /// Find out in which order these items and what they need are installed, as
    /// many levels deep.
    Levels(Vec<String>, usize),
    /// Read the state file.
    ReadState,
    /// Download these items, anew where asked for; they are called so.
    Download(Vec<String>, bool, Table<String>),
    /// Follow the mod ids that these items require.
    Expand(Vec<String>),
    /// Install this item, of which this is known.
    Install(String, Json),
    /// Nothing: go on.
    Go,
    /// Write down what was found out of mod ids.
    Persist,
    /// Find the mod ids that are missing.
    Missing,
    /// It is over.
    Finish,
}

pub enum InstallActionView {
    Describe(Seq<Seq<char>>),
    Children(Seq<char>),
    Levels(Seq<Seq<char>>, nat),
    ReadState,
    Download(Seq<Seq<char>>, bool, Seq<(Seq<char>, Seq<char>)>),
    Expand(Seq<Seq<char>>),
    Install(Seq<char>, JsonView),
    Go,
    Persist,
    Missing,
    Finish,
}

impl InstallAction {
    pub open spec fn model(self) -> InstallActionView {
        match self {
            InstallAction::Describe(v) => InstallActionView::Describe(v.deep_view()),
            InstallAction::Children(id) => InstallActionView::Children(id@),
            InstallAction::Levels(v, n) => InstallActionView::Levels(v.deep_view(), n as nat),
            InstallAction::ReadState => InstallActionView::ReadState,
            InstallAction::Download(v, refresh, labels) => InstallActionView::Download(
                v.deep_view(),
                refresh,
                labels.deep_view(),
            ),
            InstallAction::Expand(v) => InstallActionView::Expand(v.deep_view()),
            InstallAction::Install(id, detail) => InstallActionView::Install(id@, detail.model()),
            InstallAction::Go => InstallActionView::Go,
            InstallAction::Persist => InstallActionView::Persist,
            InstallAction::Missing => InstallActionView::Missing,
            InstallAction::Finish => InstallActionView::Finish,
        }
    }
}

/// What is to be done next.
pub open spec fn next_action(v: InstallingView) -> InstallActionView {
    match v.stage {
        InstallStage::Item => InstallActionView::Describe(seq![v.id]),
        InstallStage::Children => InstallActionView::Children(v.id),
        InstallStage::Levels => InstallActionView::Levels(v.todo, LEVELS as nat),
        InstallStage::Extra => InstallActionView::Describe(v.extra),
        InstallStage::State => InstallActionView::ReadState,
        InstallStage::Metadata => InstallActionView::Describe(v.order),
        InstallStage::Download => InstallActionView::Download(
            v.order,
            v.refresh,
            labels_of(v.order, v.known),
        ),
        InstallStage::Expand => InstallActionView::Expand(v.order),
        InstallStage::Rest => InstallActionView::Describe(not_known(v.order, v.known)),
        InstallStage::Items => if v.position < v.order.len() {
            match at(v.known, v.order[v.position as int]) {
                Some(d) => InstallActionView::Install(v.order[v.position as int], d),
                None => InstallActionView::Go,
            }
        } else {
            InstallActionView::Go
        },
        InstallStage::Persist => InstallActionView::Persist,
        InstallStage::Missing => InstallActionView::Missing,
        InstallStage::Over => InstallActionView::Finish,
    }
}

/// What came of it.
pub enum InstallEvent {
    Details(Result<Table<Json>, String>),
    Children(Result<Vec<String>, String>),
    /// The order, and what was told on the way.
    Ordered(Vec<String>, Vec<String>),
    State(Vec<(String, Json)>),
    Downloaded(Result<(), String>),
    /// The order with what was added, and what was told on the way.
    Expanded(Result<(Vec<String>, Vec<String>), String>),
    Installed(Result<Vec<String>, String>),
    Go,
    Persisted(Result<(), String>),
    Missing(Vec<String>),
}

/// The request failed as a whole.
pub open spec fn failed(v: InstallingView, why: Seq<char>) -> InstallingView {
    InstallingView { stage: InstallStage::Over, failure: Some(why), ..v }
}

pub open spec fn at_stage(v: InstallingView, stage: InstallStage) -> InstallingView {
    InstallingView { stage, ..v }
}

/// Where the request is after what came of it, and the lines that are told at
/// once. What it did not wait for changes nothing.
pub open spec fn told(v: InstallingView, e: InstallEvent) -> (InstallingView, Seq<Seq<char>>) {
    match (v.stage, e) {
        (InstallStage::Item, InstallEvent::Details(Ok(t))) => (
            InstallingView { stage: InstallStage::Children, known: t.deep_view(), ..v },
            seq![],
        ),
        (InstallStage::Item, InstallEvent::Details(Err(why))) => (failed(v, why@), seq![]),
        (InstallStage::Children, InstallEvent::Children(Ok(c))) => (
            InstallingView {
                stage: InstallStage::Levels,
                todo: if c.len() == 0 {
                    seq![v.id]
                } else {
                    c.deep_view()
                },
                log: if c.len() == 0 {
                    seq![]
                } else {
                    seq![
                        "collection "@ + title_of(v.known, v.id) + ": "@ + decimal(
                            c.deep_view().len(),
                        ) + " mod"@,
                    ]
                },
                ok: true,
                ..v
            },
            seq![],
        ),
        (InstallStage::Children, InstallEvent::Children(Err(why))) => (failed(v, why@), seq![]),
        (InstallStage::Levels, InstallEvent::Ordered(order, lines)) => {
            let extra = extras(order.deep_view(), v.todo);
            let log = v.log + lines.deep_view();
            (
                InstallingView {
                    stage: if extra.len() == 0 {
                        InstallStage::State
                    } else {
                        InstallStage::Extra
                    },
                    order: order.deep_view(),
                    extra,
                    log,
                    ..v
                },
                log,
            )
        },
        (InstallStage::Extra, InstallEvent::Details(Ok(t))) => {
            let line = "kèm "@ + decimal(v.extra.len()) + " mod bắt buộc: "@ + joined(
                titles_of(v.extra, t.deep_view()),
                ", "@,
            );
            (
                InstallingView { stage: InstallStage::State, log: v.log + seq![line], ..v },
                seq![line],
            )
        },
        (InstallStage::Extra, InstallEvent::Details(Err(why))) => (failed(v, why@), seq![]),
        (InstallStage::State, InstallEvent::State(state)) => (
            InstallingView {
                stage: InstallStage::Metadata,
                refresh: v.force || exists|i: int|
                    0 <= i < v.order.len() && lookup(
                        pairs_of(state@),
                        #[trigger] v.order[i],
                    ) is Some,
                ..v
            },
            seq![],
        ),
        (InstallStage::Metadata, InstallEvent::Details(Ok(t))) => (
            InstallingView { stage: InstallStage::Download, known: t.deep_view(), ..v },
            seq![],
        ),
        (InstallStage::Metadata, InstallEvent::Details(Err(why))) => (failed(v, why@), seq![]),
        (InstallStage::Download, InstallEvent::Downloaded(Ok(_))) => (
            at_stage(v, InstallStage::Expand),
            seq![],
        ),
        (InstallStage::Download, InstallEvent::Downloaded(Err(why))) => (failed(v, why@), seq![]),
        (InstallStage::Expand, InstallEvent::Expanded(Ok(p))) => {
            let order = p.0.deep_view();
            (
                InstallingView {
                    stage: if not_known(order, v.known).len() == 0 {
                        InstallStage::Items
                    } else {
                        InstallStage::Rest
                    },
                    order,
                    log: v.log + p.1.deep_view(),
                    position: 0,
                    ..v
                },
                p.1.deep_view(),
            )
        },
        (InstallStage::Expand, InstallEvent::Expanded(Err(why))) => (failed(v, why@), seq![]),
        (InstallStage::Rest, InstallEvent::Details(Ok(t))) => (
            InstallingView {
                stage: InstallStage::Items,
                known: merged(v.known, t.deep_view()),
                ..v
            },
            seq![],
        ),
        (InstallStage::Rest, InstallEvent::Details(Err(why))) => (failed(v, why@), seq![]),
        (InstallStage::Items, InstallEvent::Installed(result)) => if next_action(v) is Install {
            let item = v.order[v.position as int];
            match result {
                Ok(lines) => (
                    InstallingView {
                        position: v.position + 1,
                        log: v.log + lines.deep_view(),
                        ..v
                    },
                    lines.deep_view(),
                ),
                Err(why) => (
                    InstallingView {
                        position: v.position + 1,
                        ok: false,
                        log: v.log.push(error_line(item, why@)),
                        ..v
                    },
                    seq![error_line(item, why@)],
                ),
            }
        } else {
            (v, seq![])
        },
        (InstallStage::Items, InstallEvent::Go) => if next_action(v) is Install {
            (v, seq![])
        } else if v.position < v.order.len() {
            let line = gone_line(v.order[v.position as int]);
            (
                InstallingView {
                    position: v.position + 1,
                    ok: false,
                    log: v.log.push(line),
                    ..v
                },
                seq![line],
            )
        } else {
            (at_stage(v, InstallStage::Persist), seq![])
        },
        (InstallStage::Persist, InstallEvent::Persisted(Ok(_))) => (
            at_stage(v, InstallStage::Missing),
            seq![],
        ),
        (InstallStage::Persist, InstallEvent::Persisted(Err(why))) => (
            InstallingView {
                stage: InstallStage::Missing,
                ok: false,
                log: v.log.push(unsaved_line(why@)),
                ..v
            },
            seq![unsaved_line(why@)],
        ),
        (InstallStage::Missing, InstallEvent::Missing(m)) => if m.len() == 0 {
            (at_stage(v, InstallStage::Over), seq![])
        } else {
            let line = missing_line(m.deep_view());
            (
                InstallingView {
                    stage: InstallStage::Over,
                    ok: false,
                    log: v.log.push(line),
                    ..v
                },
                seq![line],
            )
        },
        _ => (v, seq![]),
    }
}

/// A request that has just been made.
pub open spec fn asked(id: Seq<char>, force: bool) -> InstallingView {
    InstallingView {
        id,
        force,
        stage: InstallStage::Item,
        todo: seq![],
        order: seq![],
        extra: seq![],
        refresh: false,
        known: seq![],
        position: 0,
        ok: true,
        log: seq![],
        failure: None,
    }
}

/// A request to install `id`. Refused where that is no workshop id.
pub fn install_internal(id: &str, force: bool) -> (r: Result<Installing, String>)
    ensures
        if is_id(id@) {
            r matches Ok(s) && s.deep_view() == asked(id@, force)
        } else {
            r matches Err(e) && e@ == "bad id"@
        },
{
    if !is_workshop_id(id) {
        return Err("bad id".to_string());
    }
    let s = Installing {
        id: id.to_string(),
        force,
        stage: InstallStage::Item,
        todo: Vec::new(),
        order: Vec::new(),
        extra: Vec::new(),
        refresh: false,
        known: Table::new(),
        position: 0,
        report: Report::start(Vec::new()),
        failure: None,
    };
    proof {
        assert(s.todo.deep_view() =~= seq![]);
        assert(s.order.deep_view() =~= seq![]);
        assert(s.extra.deep_view() =~= seq![]);
        assert(s.report.log.deep_view() =~= seq![]);
    }
    Ok(s)
}

impl Installing {
    /// What is to be done next.
    pub fn action(&self) -> (r: InstallAction)
        ensures
            r.model() == next_action(self.deep_view()),
    {
        match self.stage {
            InstallStage::Item => {
                let mut ids: Vec<String> = Vec::new();
                ids.push(self.id.clone());
                assert(ids.deep_view() =~= seq![self.id@]);
                InstallAction::Describe(ids)
            },
            InstallStage::Children => InstallAction::Children(self.id.clone()),
            InstallStage::Levels => InstallAction::Levels(copy_texts(&self.todo), LEVELS),
            InstallStage::Extra => InstallAction::Describe(copy_texts(&self.extra)),
            InstallStage::State => InstallAction::ReadState,
            InstallStage::Metadata => InstallAction::Describe(copy_texts(&self.order)),
            InstallStage::Download => InstallAction::Download(
                copy_texts(&self.order),
                self.refresh,
                install_labels(&self.order, &self.known),
            ),
            InstallStage::Expand => InstallAction::Expand(copy_texts(&self.order)),
            InstallStage::Rest => InstallAction::Describe(
                missing_metadata(&self.order, &self.known),
            ),
            InstallStage::Items => {
                if self.position < self.order.len() {
                    match self.known.get(self.order[self.position].as_str()) {
                        Some(d) => InstallAction::Install(
                            self.order[self.position].clone(),
                            d.copy(),
                        ),
                        None => InstallAction::Go,
                    }
                } else {
                    InstallAction::Go
                }
            },
            InstallStage::Persist => InstallAction::Persist,
            InstallStage::Missing => InstallAction::Missing,
            InstallStage::Over => InstallAction::Finish,
        }
    }

    fn fail(&mut self, why: String)
        ensures
            final(self).deep_view() == failed(old(self).deep_view(), why@),
    {
        self.stage = InstallStage::Over;
        self.failure = Some(why);
    }

    /// Takes what came of the last action. Gives the lines that are told at once.
    pub fn tell(&mut self, event: InstallEvent) -> (r: Vec<String>)
        ensures
            (final(self).deep_view(), r.deep_view()) == told(old(self).deep_view(), event),
    {
        let ghost v = self.deep_view();
        let mut lines: Vec<String> = Vec::new();
        assert(lines.deep_view() =~= seq![]);
        match event {
            InstallEvent::Details(result) => match result {
                Ok(t) => match self.stage {
                    InstallStage::Item => {
                        self.known = t;
                        self.stage = InstallStage::Children;
                    },
                    InstallStage::Extra => {
                        let line = extra_line(&self.extra, &t);
                        lines.push(line.clone());
                        assert(lines.deep_view() =~= seq![line@]);
                        self.report.tell(&lines);
                        self.stage = InstallStage::State;
                    },
                    InstallStage::Metadata => {
                        self.known = t;
                        self.stage = InstallStage::Download;
                    },
                    InstallStage::Rest => {
                        self.known.extend(t);
                        self.stage = InstallStage::Items;
                    },
                    _ => {},
                },
                Err(why) => match self.stage {
                    InstallStage::Item => self.fail(why),
                    InstallStage::Extra => self.fail(why),
                    InstallStage::Metadata => self.fail(why),
                    InstallStage::Rest => self.fail(why),
                    _ => {},
                },
            },
            InstallEvent::Children(result) => {
                if self.stage == InstallStage::Children {
                    match result {
                        Ok(children) => {
                            self.begin(children);
                        },
                        Err(why) => self.fail(why),
                    }
                }
            },
            InstallEvent::Ordered(order, more) => {
                if self.stage == InstallStage::Levels {
                    self.extra = extra_items(&order, &self.todo);
                    self.order = order;
                    self.report.tell(&more);
                    lines = copy_texts(&self.report.log);
                    self.stage = if self.extra.len() == 0 {
                        InstallStage::State
                    } else {
                        InstallStage::Extra
                    };
                }
            },
            InstallEvent::State(state) => {
                if self.stage == InstallStage::State {
                    self.refresh = refresh_cache(&self.order, &state, self.force);
                    self.stage = InstallStage::Metadata;
                }
            },
            InstallEvent::Downloaded(result) => {
                if self.stage == InstallStage::Download {
                    match result {
                        Ok(_) => {
                            self.stage = InstallStage::Expand;
                        },
                        Err(why) => self.fail(why),
                    }
                }
            },
            InstallEvent::Expanded(result) => {
                if self.stage == InstallStage::Expand {
                    match result {
                        Ok((order, more)) => {
                            let unknown = missing_metadata(&order, &self.known);
                            self.order = order;
                            self.position = 0;
                            self.report.tell(&more);
                            self.stage = if unknown.len() == 0 {
                                InstallStage::Items
                            } else {
                                InstallStage::Rest
                            };
                            lines = more;
                        },
                        Err(why) => self.fail(why),
                    }
                }
            },
            InstallEvent::Installed(result) => {
                if self.stage == InstallStage::Items && self.position < self.order.len()
                    && self.known.has(self.order[self.position].as_str()) {
                    let item = self.order[self.position].clone();
                    self.position = self.position + 1;
                    match result {
                        Ok(more) => {
                            self.report.tell(&more);
                            lines = more;
                        },
                        Err(why) => {
                            let line = self.report.note_error(item.as_str(), why.as_str());
                            lines.push(line);
                            assert(lines.deep_view() =~= seq![line@]);
                        },
                    }
                }
            },
            InstallEvent::Go => {
                if self.stage == InstallStage::Items {
                    if self.position < self.order.len() {
                        if !self.known.has(self.order[self.position].as_str()) {
                            let item = self.order[self.position].clone();
                            self.position = self.position + 1;
                            let line = self.report.note_gone(item.as_str());
                            lines.push(line);
                            assert(lines.deep_view() =~= seq![line@]);
                        }
                    } else {
                        self.stage = InstallStage::Persist;
                    }
                }
            },
            InstallEvent::Persisted(result) => {
                if self.stage == InstallStage::Persist {
                    match result {
                        Ok(_) => {},
                        Err(why) => {
                            let line = self.report.note_unsaved(why.as_str());
                            lines.push(line);
                            assert(lines.deep_view() =~= seq![line@]);
                        },
                    }
                    self.stage = InstallStage::Missing;
                }
            },
            InstallEvent::Missing(missing) => {
                if self.stage == InstallStage::Missing {
                    match self.report.note_missing(&missing) {
                        Some(line) => {
                            lines.push(line);
                            assert(lines.deep_view() =~= seq![line@]);
                        },
                        None => {},
                    }
                    self.stage = InstallStage::Over;
                }
            },
        }
        proof {
            assert(self.deep_view() =~= told(v, event).0);
        }
        lines
    }

    fn begin(&mut self, children: Vec<String>)
        requires
            old(self).stage == InstallStage::Children,
        ensures
            final(self).deep_view() == told(
                old(self).deep_view(),
                InstallEvent::Children(Ok(children)),
            ).0,
    {
        let ghost v = self.deep_view();
        let mut log: Vec<String> = Vec::new();
        if children.len() == 0 {
            let mut todo: Vec<String> = Vec::new();
            todo.push(self.id.clone());
            assert(todo.deep_view() =~= seq![v.id]);
            assert(log.deep_view() =~= seq![]);
            self.todo = todo;
        } else {
            let line = collection_line(self.id.as_str(), &self.known, &children);
            log.push(line);
            assert(log.deep_view() =~= seq![line@]);
            self.todo = children;
        }
        self.report = Report::start(log);
        self.stage = InstallStage::Levels;
        assert(self.deep_view() =~= told(v, InstallEvent::Children(Ok(children))).0);
    }

    /// What is answered in the end.
    pub fn finish(self) -> (r: Result<Done, String>)
        ensures
            match self.deep_view().failure {
                Some(e) => r matches Err(x) && x@ == e,
                None => r matches Ok(d) && d.log.deep_view() == self.deep_view().log && d.ok
                    == goes_well(self.deep_view().ok, self.deep_view().log),
            },
    {
        match self.failure {
            Some(e) => Err(e),
            None => Ok(self.report.finish()),
        }
    }
}

/// The items are gone through in order, one at a time: an answer to the item that
/// is being installed goes on to the next one, and nothing else does.
pub proof fn law_items_are_installed_in_order(v: InstallingView, e: InstallEvent)
    requires
        v.stage == InstallStage::Items,
    ensures
        ({
            let w = told(v, e).0;
            &&& w.order == v.order && w.known == v.known
            &&& w.position == v.position || w.position == v.position + 1
            &&& w.position != v.position ==> v.position < v.order.len()
            &&& w.stage != InstallStage::Items ==> v.position >= v.order.len() && w.stage
                == InstallStage::Persist
            &&& v.log.is_prefix_of(w.log)
            &&& !v.ok ==> !w.ok
        }),
{
}

/// An item that cannot be installed does not keep the others from being
/// installed, and is told of.
pub proof fn law_one_failure_does_not_stop_the_rest(v: InstallingView, why: String)
    requires
        v.stage == InstallStage::Items,
        next_action(v) is Install,
    ensures
        ({
            let w = told(v, InstallEvent::Installed(Err(why))).0;
            &&& w.stage == InstallStage::Items
            &&& w.position == v.position + 1
            &&& w.log == v.log.push(error_line(v.order[v.position as int], why@))
            &&& !w.ok
        }),
{
}

/// Mod ids that are missing in the end are told of, and the answer does not say
/// that it went well.
pub proof fn law_missing_mod_ids_are_told(v: InstallingView, m: Vec<String>)
    requires
        v.stage == InstallStage::Missing,
        m.len() > 0,
    ensures
        ({
            let w = told(v, InstallEvent::Missing(m)).0;
            &&& w.stage == InstallStage::Over
            &&& w.log.last() == missing_line(m.deep_view())
            &&& !w.ok
        }),
{
}

/// No failure goes untold: however a request goes on, it went well where no line is
/// a warning, and only there.
pub proof fn law_no_failure_goes_untold(v: InstallingView, e: InstallEvent)
    requires
        tells_failures(v.ok, v.log),
    ensures
        ({
            let w = told(v, e).0;
            &&& tells_failures(w.ok, w.log)
            &&& (w.ok && !has_warning(w.log)) <==> !has_warning(w.log)
        }),
{
    let w = told(v, e).0;
    if v.log.is_prefix_of(w.log) {
        let more = w.log.skip(v.log.len() as int);
        assert(w.log =~= v.log + more);
        lemma_warning_stays(v.log, more);
    }
    if w.ok != v.ok && !w.ok {
        match e {
            InstallEvent::Installed(Err(why)) => {
                law_failures_are_warnings(v.order[v.position as int], why@, seq![]);
            },
            InstallEvent::Persisted(Err(why)) => {
                law_failures_are_warnings(seq![], why@, seq![]);
            },
            InstallEvent::Missing(m) => {
                law_failures_are_warnings(seq![], seq![], m.deep_view());
            },
            _ => {
                law_failures_are_warnings(v.order[v.position as int], seq![], seq![]);
            },
        }
        assert(is_warning(w.log[w.log.len() - 1]));
    }
}

/// How far from the end a stage is.
pub open spec fn stage_rank(stage: InstallStage) -> nat {
    match stage {
        InstallStage::Item => 12,
        InstallStage::Children => 11,
        InstallStage::Levels => 10,
        InstallStage::Extra => 9,
        InstallStage::State => 8,
        InstallStage::Metadata => 7,
        InstallStage::Download => 6,
        InstallStage::Expand => 5,
        InstallStage::Rest => 4,
        InstallStage::Items => 3,
        InstallStage::Persist => 2,
        InstallStage::Missing => 1,
        InstallStage::Over => 0,
    }
}

/// Whether an event is an answer to what is to be done.
pub open spec fn is_answer(action: InstallActionView, e: InstallEvent) -> bool {
    match action {
        InstallActionView::Describe(_) => e is Details,
        InstallActionView::Children(_) => e is Children,
        InstallActionView::Levels(_, _) => e is Ordered,
        InstallActionView::ReadState => e is State,
        InstallActionView::Download(_, _, _) => e is Downloaded,
        InstallActionView::Expand(_) => e is Expanded,
        InstallActionView::Install(_, _) => e is Installed,
        InstallActionView::Go => e is Go,
        InstallActionView::Persist => e is Persisted,
        InstallActionView::Missing => e is Missing,
        InstallActionView::Finish => false,
    }
}

/// An install comes to an end: every answer leads to a later stage or to the next
/// item, and nothing leads back.
pub proof fn law_an_install_comes_to_an_end(v: InstallingView, e: InstallEvent)
    ensures
        ({
            let w = told(v, e).0;
            let onwards = stage_rank(w.stage) < stage_rank(v.stage) || (w.stage == v.stage
                && v.stage == InstallStage::Items && v.position < v.order.len() && w.position
                == v.position + 1 && w.order == v.order);
            &&& w == v || onwards
            &&& is_answer(next_action(v), e) ==> onwards
        }),
{
}

} // verus!
