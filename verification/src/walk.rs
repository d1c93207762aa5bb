//! Following the mod ids that items require: each item is placed after the
//! items that provide what it requires.
//!
//! The walk is a machine: it says what it needs to know next, and goes on when
//! it is told.
use vstd::prelude::*;

use crate::folder::Disk;
use crate::json::{pairs_of, value_string, Json, JsonView};
use crate::modinfo::{scan_of, source_metadata, Source, SourceView};
use crate::names::{lowercase, to_lower};
use crate::resolve::{all_warnings, index_sources, with_sources};
use crate::state::{installed_providers, providers_of, resolution_cache, resolutions};
use crate::table::{at, merged, set_at, Table};
use crate::text::{copy_texts, holds, join_texts, joined};

verus! {

/// How many levels of required mod ids are followed.
pub const WALK_DEPTH: usize = 4;

/// What an open item waits for.
pub enum Stage {
    /// The mod ids that it requires are gone through.
    Needs,
    /// Items are looked for that provide what nothing known provides.
    Resolve,
    /// These items were found; what is known of them is asked for.
    Describe(Vec<String>),
    /// These items are to be walked; some are downloaded first.
    Fetch(Vec<String>),
    /// These items are walked, from this position on.
    Items(Vec<String>, usize),
}

pub enum StageView {
    Needs,
    Resolve,
    Describe(Seq<Seq<char>>),
    Fetch(Seq<Seq<char>>),
    Items(Seq<Seq<char>>, nat),
}

impl Stage {
    pub open spec fn model(self) -> StageView {
        match self {
            Stage::Needs => StageView::Needs,
            Stage::Resolve => StageView::Resolve,
            Stage::Describe(v) => StageView::Describe(v.deep_view()),
            Stage::Fetch(v) => StageView::Fetch(v.deep_view()),
            Stage::Items(v, n) => StageView::Items(v.deep_view(), n as nat),
        }
    }
}

/// An item that was reached and is not placed yet.
pub struct Frame {
    pub id: String,
    pub depth: usize,
    pub required: Vec<String>,
    pub next: usize,
    pub pending: Vec<String>,
    pub stage: Stage,
}

#[verifier::ext_equal]
pub struct FrameView {
    pub id: Seq<char>,
    pub depth: nat,
    pub required: Seq<Seq<char>>,
    pub next: nat,
    pub pending: Seq<Seq<char>>,
    pub stage: StageView,
}

impl DeepView for Frame {
    type V = FrameView;

    open spec fn deep_view(&self) -> FrameView {
        FrameView {
            id: self.id@,
            depth: self.depth as nat,
            required: self.required.deep_view(),
            next: self.next as nat,
            pending: self.pending.deep_view(),
            stage: self.stage.model(),
        }
    }
}

/// How far a walk has come: the items to walk and the position among them, what
/// was downloaded, which items provide which mod ids, what is remembered of mod
/// ids, the items that were reached, those that are placed, what is told, and
/// the open items, each below those that it led to.
pub struct Walk {
    pub todo: Vec<String>,
    pub position: usize,
    pub sources: Table<Source>,
    pub providers: Table<String>,
    pub cache: Table<Option<String>>,
    pub seen: Vec<String>,
    pub order: Vec<String>,
    pub log: Vec<String>,
    pub progress: Vec<String>,
    pub frames: Vec<Frame>,
}

#[verifier::ext_equal]
pub struct WalkView {
    pub todo: Seq<Seq<char>>,
    pub position: nat,
    pub sources: Seq<(Seq<char>, SourceView)>,
    pub providers: Seq<(Seq<char>, Seq<char>)>,
    pub cache: Seq<(Seq<char>, Option<Seq<char>>)>,
    pub seen: Seq<Seq<char>>,
    pub order: Seq<Seq<char>>,
    pub log: Seq<Seq<char>>,
    pub progress: Seq<Seq<char>>,
    pub frames: Seq<FrameView>,
}

impl DeepView for Walk {
    type V = WalkView;

    open spec fn deep_view(&self) -> WalkView {
        WalkView {
            todo: self.todo.deep_view(),
            position: self.position as nat,
            sources: self.sources.deep_view(),
            providers: self.providers.deep_view(),
            cache: self.cache.deep_view(),
            seen: self.seen.deep_view(),
            order: self.order.deep_view(),
            log: self.log.deep_view(),
            progress: self.progress.deep_view(),
            frames: self.frames.deep_view(),
        }
    }
}

/// What the walk needs next.
pub enum Ask {
    /// Nothing: it goes on by itself.
    Go,
    /// The items that provide these mod ids.
    Resolve(Vec<String>),
    /// What is known of these items, and the order of what they need, to so many
    /// levels.
    Describe(Vec<String>, usize),
    /// These items, downloaded.
    Download(Vec<String>),
    /// Nothing: it is over.
    Done,
}

pub enum AskView {
    Go,
    Resolve(Seq<Seq<char>>),
    Describe(Seq<Seq<char>>, nat),
    Download(Seq<Seq<char>>),
    Done,
}

impl Ask {
    pub open spec fn model(self) -> AskView {
        match self {
            Ask::Go => AskView::Go,
            Ask::Resolve(v) => AskView::Resolve(v.deep_view()),
            Ask::Describe(v, n) => AskView::Describe(v.deep_view(), n as nat),
            Ask::Download(v) => AskView::Download(v.deep_view()),
            Ask::Done => AskView::Done,
        }
    }
}

/// What an item requires, as far as it can be read.
pub open spec fn required_by(v: WalkView, id: Seq<char>) -> Seq<Seq<char>> {
    match at(v.sources, id) {
        Some(s) => match scan_of(s).metadata {
            Ok(m) => m.required,
            Err(_) => seq![],
        },
        None => seq![],
    }
}

/// What is told where an item cannot be read.
pub open spec fn unreadable_lines(v: WalkView, id: Seq<char>) -> Seq<Seq<char>> {
    match at(v.sources, id) {
        Some(s) => match scan_of(s).metadata {
            Ok(_) => seq![],
            Err(e) => seq!["! "@ + id + ": không đọc được mod.info ("@ + e + ")"@],
        },
        None => seq![],
    }
}

pub open spec fn enter_warnings(v: WalkView, id: Seq<char>) -> Seq<Seq<char>> {
    match at(v.sources, id) {
        Some(s) => scan_of(s).warnings,
        None => seq![],
    }
}

/// The walk after the item `id` was reached: it is opened, unless it was reached
/// before.
pub open spec fn entered(v: WalkView, id: Seq<char>, depth: nat) -> WalkView {
    if v.seen.contains(id) {
        v
    } else {
        WalkView {
            seen: v.seen.push(id),
            log: v.log + unreadable_lines(v, id),
            progress: v.progress + enter_warnings(v, id),
            frames: v.frames.push(
                FrameView {
                    id,
                    depth,
                    required: required_by(v, id),
                    next: 0,
                    pending: seq![],
                    stage: StageView::Needs,
                },
            ),
            ..v
        }
    }
}

/// The walk with its uppermost open item changed.
pub open spec fn with_top(v: WalkView, f: FrameView) -> WalkView {
    WalkView { frames: v.frames.drop_last().push(f), ..v }
}

/// The walk after its uppermost open item was placed.
pub open spec fn placed(v: WalkView) -> WalkView {
    WalkView {
        order: v.order.push(v.frames.last().id),
        frames: v.frames.drop_last(),
        ..v
    }
}

/// The level below one: there is none below the last.
pub open spec fn below(depth: nat) -> nat {
    if depth > 0 {
        (depth - 1) as nat
    } else {
        0
    }
}

/// One mod id that the uppermost open item requires. Where an item is known to
/// provide it, that is remembered, and the item is walked if it was downloaded;
/// else it is looked for later, unless the walk is deep enough.
pub open spec fn need_met(v: WalkView) -> WalkView {
    let f = v.frames.last();
    let modid = f.required[f.next as int];
    let key = lowercase(modid);
    match at(v.providers, key) {
        Some(p) => {
            let w = WalkView {
                cache: set_at(v.cache, key, Some(p)),
                ..with_top(v, FrameView { next: f.next + 1, ..f })
            };
            if at(v.sources, p) is Some {
                entered(w, p, below(f.depth))
            } else {
                w
            }
        },
        None => with_top(
            v,
            FrameView {
                next: f.next + 1,
                pending: if f.depth > 0 {
                    f.pending.push(modid)
                } else {
                    f.pending
                },
                ..f
            },
        ),
    }
}

/// One step of the walk, and what it needs then.
pub open spec fn stepped(v: WalkView) -> (WalkView, AskView) {
    if v.frames.len() == 0 {
        if v.position < v.todo.len() {
            (
                entered(
                    WalkView { position: v.position + 1, ..v },
                    v.todo[v.position as int],
                    WALK_DEPTH as nat,
                ),
                AskView::Go,
            )
        } else {
            (v, AskView::Done)
        }
    } else {
        let f = v.frames.last();
        match f.stage {
            StageView::Needs => if f.next < f.required.len() {
                (need_met(v), AskView::Go)
            } else if f.pending.len() == 0 {
                (placed(v), AskView::Go)
            } else {
                (
                    with_top(v, FrameView { stage: StageView::Resolve, ..f }),
                    AskView::Resolve(f.pending),
                )
            },
            StageView::Resolve => (v, AskView::Resolve(f.pending)),
            StageView::Describe(added) => (v, AskView::Describe(added, below(f.depth))),
            StageView::Fetch(items) => (v, AskView::Download(not_downloaded(items, v.sources))),
            StageView::Items(items, n) => if n < items.len() {
                (
                    entered(
                        with_top(v, FrameView { stage: StageView::Items(items, n + 1), ..f }),
                        items[n as int],
                        below(f.depth),
                    ),
                    AskView::Go,
                )
            } else {
                (placed(v), AskView::Go)
            },
        }
    }
}

/// Those of `items` that were not downloaded.
pub open spec fn not_downloaded(
    items: Seq<Seq<char>>,
    sources: Seq<(Seq<char>, SourceView)>,
) -> Seq<Seq<char>>
    decreases items.len(),
{
    if items.len() == 0 {
        seq![]
    } else {
        let r = not_downloaded(items.drop_last(), sources);
        if at(sources, items.last()) is Some {
            r
        } else {
            r.push(items.last())
        }
    }
}

fn to_download(items: &Vec<String>, sources: &Table<Source>) -> (r: Vec<String>)
    ensures
        r.deep_view() == not_downloaded(items.deep_view(), sources.deep_view()),
{
    let mut r: Vec<String> = Vec::new();
    let ghost all = items.deep_view();
    let ghost s = sources.deep_view();
    let mut i: usize = 0;
    assert(r.deep_view() =~= seq![]);
    while i < items.len()
        invariant
            i <= items.len(),
            all == items.deep_view(),
            s == sources.deep_view(),
            r.deep_view() == not_downloaded(all.take(i as int), s),
        decreases items.len() - i,
    {
        assert(all.take(i + 1).drop_last() =~= all.take(i as int));
        if !sources.has(items[i].as_str()) {
            let ghost before = r.deep_view();
            r.push(items[i].clone());
            assert(r.deep_view() =~= before.push(items@[i as int]@));
        }
        i += 1;
    }
    assert(all.take(items.len() as int) =~= all);
    r
}

pub open spec fn ids_among(found: Seq<(Seq<char>, Seq<char>)>) -> Seq<Seq<char>> {
    found.map_values(|x: (Seq<char>, Seq<char>)| x.1)
}

/// The walk after it was told which items provide what it looked for. Where they
/// could not be looked for, that is told, and the walk goes on without them.
pub open spec fn resolved(
    v: WalkView,
    reply: Result<Seq<(Seq<char>, Seq<char>)>, Seq<char>>,
    cache: Seq<(Seq<char>, Option<Seq<char>>)>,
) -> WalkView {
    let f = v.frames.last();
    let w = WalkView { cache, ..v };
    match reply {
        Err(e) => placed(
            WalkView {
                log: v.log.push(
                    "! "@ + joined(f.pending, ", "@) + ": không dò được workshop id ("@ + e + ")"@,
                ),
                ..w
            },
        ),
        Ok(found) => if found.len() == 0 {
            placed(w)
        } else {
            with_top(w, FrameView { stage: StageView::Describe(ids_among(found)), ..f })
        },
    }
}

/// The title of an item, or its id where none is known.
pub open spec fn title_of(titles: Seq<(Seq<char>, JsonView)>, id: Seq<char>) -> Seq<char> {
    match at(titles, id) {
        Some(item) => if item.string("title"@).len() > 0 {
            item.string("title"@)
        } else {
            id
        },
        None => id,
    }
}

pub open spec fn added_lines(added: Seq<Seq<char>>, titles: Seq<(Seq<char>, JsonView)>) -> Seq<
    Seq<char>,
> {
    added.map_values(
        |id: Seq<char>|
            "kèm mod bắt buộc: "@ + title_of(titles, id) + " ("@ + id + ")"@,
    )
}

/// The walk after it was told what the found items are called and in which order
/// they and what they need are to be walked; `lines` is what was told on the way.
pub open spec fn described(
    v: WalkView,
    titles: Seq<(Seq<char>, JsonView)>,
    items: Seq<Seq<char>>,
    lines: Seq<Seq<char>>,
) -> WalkView {
    let f = v.frames.last();
    match f.stage {
        StageView::Describe(added) => with_top(
            WalkView { log: v.log + added_lines(added, titles) + lines, ..v },
            FrameView {
                stage: if not_downloaded(items, v.sources).len() == 0 {
                    StageView::Items(items, 0)
                } else {
                    StageView::Fetch(items)
                },
                ..f
            },
        ),
        _ => v,
    }
}

/// The walk after items were downloaded.
pub open spec fn downloaded(v: WalkView, got: Seq<(Seq<char>, SourceView)>) -> WalkView {
    let f = v.frames.last();
    match f.stage {
        StageView::Fetch(items) => {
            let sources = merged(v.sources, got);
            with_top(
                WalkView {
                    sources,
                    providers: with_sources(v.providers, sources),
                    progress: v.progress + all_warnings(sources),
                    ..v
                },
                FrameView { stage: StageView::Items(items, 0), ..f },
            )
        },
        _ => v,
    }
}

/// A walk over `todo` that has just begun, with what was downloaded, what installed
/// items provide, and what is remembered.
pub open spec fn begun(
    todo: Seq<Seq<char>>,
    sources: Seq<(Seq<char>, SourceView)>,
    installed: Seq<(Seq<char>, Seq<char>)>,
    cache: Seq<(Seq<char>, Option<Seq<char>>)>,
) -> WalkView {
    WalkView {
        todo,
        position: 0,
        sources,
        providers: with_sources(installed, sources),
        cache,
        seen: seq![],
        order: seq![],
        log: seq![],
        progress: all_warnings(sources),
        frames: seq![],
    }
}

impl Walk {
    /// A walk over `todo`, with what was downloaded, what installed items
    /// provide, and what is remembered.
    pub fn start(
        todo: Vec<String>,
        sources: Table<Source>,
        installed: Table<String>,
        cache: Table<Option<String>>,
    ) -> (r: Walk)
        ensures
            r.deep_view() == begun(
                todo.deep_view(),
                sources.deep_view(),
                installed.deep_view(),
                cache.deep_view(),
            ),
    {
        let mut providers = installed;
        let progress = index_sources(&sources, &mut providers);
        let r = Walk {
            todo,
            position: 0,
            sources,
            providers,
            cache,
            seen: Vec::new(),
            order: Vec::new(),
            log: Vec::new(),
            progress,
            frames: Vec::new(),
        };
        assert(r.seen.deep_view() =~= seq![]);
        assert(r.order.deep_view() =~= seq![]);
        assert(r.log.deep_view() =~= seq![]);
        assert(r.frames.deep_view() =~= seq![]);
        r
    }

    fn enter(&mut self, id: &str, depth: usize)
        ensures
            final(self).deep_view() == entered(old(self).deep_view(), id@, depth as nat),
    {
        let ghost v = self.deep_view();
        if holds(&self.seen, id) {
            return;
        }
        self.seen.push(id.to_string());
        assert(self.seen.deep_view() =~= v.seen.push(id@));
        let mut required: Vec<String> = Vec::new();
        assert(required.deep_view() =~= seq![]);
        match self.sources.get(id) {
            Some(source) => {
                let scan = source_metadata(source);
                let mut more = scan.warnings;
                let ghost added = more.deep_view();
                self.progress.append(&mut more);
                assert(self.progress.deep_view() =~= v.progress + added);
                match scan.metadata {
                    Ok(m) => {
                        required = m.required;
                        assert(v.log + seq![] =~= v.log);
                    },
                    Err(e) => {
                        let line = "! ".to_string().concat(id).concat(
                            ": không đọc được mod.info (",
                        ).concat(e.as_str()).concat(")");
                        self.log.push(line);
                        assert(self.log.deep_view() =~= v.log + seq![line@]);
                    },
                }
            },
            None => {
                assert(v.log + seq![] =~= v.log);
                assert(v.progress + seq![] =~= v.progress);
            },
        }
        let frame = Frame {
            id: id.to_string(),
            depth,
            required,
            next: 0,
            pending: Vec::new(),
            stage: Stage::Needs,
        };
        assert(frame.pending.deep_view() =~= seq![]);
        self.frames.push(frame);
        assert(self.frames.deep_view() =~= v.frames.push(frame.deep_view()));
    }
}

impl Walk {
    /// Puts the uppermost open item back, as it is now.
    fn put_top(&mut self, frame: Frame)
        ensures
            final(self).deep_view() == (WalkView {
                frames: old(self).deep_view().frames.push(frame.deep_view()),
                ..old(self).deep_view()
            }),
    {
        let ghost before = self.frames.deep_view();
        self.frames.push(frame);
        assert(self.frames.deep_view() =~= before.push(frame.deep_view()));
    }

    /// Takes the uppermost open item off.
    fn take_top(&mut self) -> (r: Frame)
        requires
            old(self).frames.len() > 0,
        ensures
            r.deep_view() == old(self).deep_view().frames.last(),
            final(self).deep_view() == (WalkView {
                frames: old(self).deep_view().frames.drop_last(),
                ..old(self).deep_view()
            }),
    {
        let ghost before = self.frames.deep_view();
        match self.frames.pop() {
            Some(frame) => {
                assert(self.frames.deep_view() =~= before.drop_last());
                frame
            },
            None => Frame {
                id: String::new(),
                depth: 0,
                required: Vec::new(),
                next: 0,
                pending: Vec::new(),
                stage: Stage::Needs,
            },
        }
    }

    fn place(&mut self, frame: Frame)
        ensures
            final(self).deep_view() == (WalkView {
                order: old(self).deep_view().order.push(frame.deep_view().id),
                ..old(self).deep_view()
            }),
    {
        let ghost before = self.order.deep_view();
        self.order.push(frame.id);
        assert(self.order.deep_view() =~= before.push(frame.deep_view().id));
    }

    fn meet_need(&mut self)
        requires
            old(self).frames.len() > 0,
            ({
                let f = old(self).deep_view().frames.last();
                f.next < f.required.len()
            }),
        ensures
            final(self).deep_view() == need_met(old(self).deep_view()),
    {
        let ghost v = self.deep_view();
        let mut frame = self.take_top();
        let ghost f = frame.deep_view();
        let modid = frame.required[frame.next].clone();
        let depth = frame.depth;
        assert(modid@ == f.required[f.next as int]);
        assert(frame.next < frame.required.len());
        frame.next = frame.next + 1;
        let key = to_lower(modid.as_str());
        let provider: Option<String> = match self.providers.get(key.as_str()) {
            Some(p) => Some(p.clone()),
            None => None,
        };
        match provider {
            Some(p) => {
                assert(frame.deep_view() =~= (FrameView { next: f.next + 1, ..f }));
                self.put_top(frame);
                self.cache.set(key, Some(p.clone()));
                let ghost w = WalkView {
                    cache: set_at(v.cache, key@, Some(p@)),
                    ..with_top(v, FrameView { next: f.next + 1, ..f })
                };
                assert(self.deep_view() =~= w);
                if self.sources.has(p.as_str()) {
                    let lower = if depth > 0 {
                        depth - 1
                    } else {
                        0
                    };
                    self.enter(p.as_str(), lower);
                }
            },
            None => {
                if depth > 0 {
                    let ghost pending = frame.pending.deep_view();
                    frame.pending.push(modid);
                    assert(frame.pending.deep_view() =~= pending.push(modid@));
                }
                self.put_top(frame);
                assert(self.deep_view() =~= need_met(v));
            },
        }
    }

    /// Tells which items provide what was looked for, or why they could not be
    /// looked for, and what is remembered of mod ids now.
    pub fn tell_resolved(
        &mut self,
        reply: Result<Vec<(String, String)>, String>,
        cache: Table<Option<String>>,
    )
        requires
            old(self).frames.len() > 0,
        ensures
            final(self).deep_view() == resolved(
                old(self).deep_view(),
                match reply {
                    Ok(found) => Ok(found.deep_view()),
                    Err(e) => Err(e@),
                },
                cache.deep_view(),
            ),
    {
        let ghost v = self.deep_view();
        self.cache = cache;
        let mut frame = self.take_top();
        let ghost f = frame.deep_view();
        match reply {
            Err(e) => {
                let list = join_texts(&frame.pending, ", ");
                let line = "! ".to_string().concat(list.as_str()).concat(
                    ": không dò được workshop id (",
                ).concat(e.as_str()).concat(")");
                self.log.push(line);
                assert(self.log.deep_view() =~= v.log.push(line@));
                self.place(frame);
                assert(self.deep_view() =~= resolved(
                    v,
                    Err::<Seq<(Seq<char>, Seq<char>)>, Seq<char>>(e@),
                    cache.deep_view(),
                ));
            },
            Ok(found) => {
                if found.len() == 0 {
                    self.place(frame);
                    assert(self.deep_view() =~= resolved(
                        v,
                        Ok::<Seq<(Seq<char>, Seq<char>)>, Seq<char>>(found.deep_view()),
                        cache.deep_view(),
                    ));
                } else {
                    let mut added: Vec<String> = Vec::new();
                    let ghost all = ids_among(found.deep_view());
                    let mut i: usize = 0;
                    while i < found.len()
                        invariant
                            i <= found.len(),
                            all == ids_among(found.deep_view()),
                            added.deep_view() == all.take(i as int),
                        decreases found.len() - i,
                    {
                        let ghost before = added.deep_view();
                        added.push(found[i].1.clone());
                        assert(added.deep_view() =~= before.push(found@[i as int].1@));
                        assert(added.deep_view() =~= all.take(i + 1));
                        i += 1;
                    }
                    assert(all.take(found.len() as int) =~= all);
                    frame.stage = Stage::Describe(added);
                    self.put_top(frame);
                    assert(self.deep_view() =~= resolved(
                        v,
                        Ok::<Seq<(Seq<char>, Seq<char>)>, Seq<char>>(found.deep_view()),
                        cache.deep_view(),
                    ));
                }
            },
        }
    }

    /// Tells what the found items are called and in which order they and what
    /// they need are to be walked, with what was told on the way.
    pub fn tell_described(&mut self, titles: &Table<Json>, items: Vec<String>, lines: Vec<String>)
        requires
            old(self).frames.len() > 0,
            old(self).deep_view().frames.last().stage is Describe,
        ensures
            final(self).deep_view() == described(
                old(self).deep_view(),
                titles.deep_view(),
                items.deep_view(),
                lines.deep_view(),
            ),
    {
        let ghost v = self.deep_view();
        let ghost t = titles.deep_view();
        let mut frame = self.take_top();
        let ghost f = frame.deep_view();
        let stage = frame.stage;
        match stage {
            Stage::Describe(added) => {
                let ghost all = added_lines(added.deep_view(), t);
                let mut i: usize = 0;
                assert(self.log.deep_view() =~= v.log + all.take(0));
                let ghost base = WalkView { frames: v.frames.drop_last(), ..v };
                while i < added.len()
                    invariant
                        i <= added.len(),
                        t == titles.deep_view(),
                        all == added_lines(added.deep_view(), t),
                        self.deep_view() == (WalkView { log: v.log + all.take(i as int), ..base }),
                    decreases added.len() - i,
                {
                    let ghost before = self.log.deep_view();
                    let id = added[i].as_str();
                    let title = item_title(titles, id);
                    let line = "kèm mod bắt buộc: ".to_string().concat(title.as_str()).concat(
                        " (",
                    ).concat(id).concat(")");
                    self.log.push(line);
                    proof {
                        assert(self.log.deep_view() =~= before.push(line@));
                        assert(all[i as int] == line@);
                        assert(before.push(line@) =~= v.log + all.take(i + 1));
                        assert(self.deep_view() =~= (WalkView {
                            log: v.log + all.take(i + 1),
                            ..base
                        }));
                    }
                    i += 1;
                }
                assert(all.take(added.len() as int) =~= all);
                let mut lines = lines;
                let ghost more = lines.deep_view();
                self.log.append(&mut lines);
                assert(self.log.deep_view() =~= v.log + all + more);
                let missing = to_download(&items, &self.sources);
                frame.stage = if missing.len() == 0 {
                    Stage::Items(items, 0)
                } else {
                    Stage::Fetch(items)
                };
                self.put_top(frame);
                assert(self.deep_view() =~= described(v, t, items.deep_view(), more));
            },
            other => {
                frame.stage = other;
                self.put_top(frame);
            },
        }
    }

    /// Tells what was downloaded.
    pub fn tell_downloaded(&mut self, got: Table<Source>)
        requires
            old(self).frames.len() > 0,
            old(self).deep_view().frames.last().stage is Fetch,
        ensures
            final(self).deep_view() == downloaded(old(self).deep_view(), got.deep_view()),
    {
        let ghost v = self.deep_view();
        let ghost all = got.deep_view();
        let mut frame = self.take_top();
        let stage = frame.stage;
        match stage {
            Stage::Fetch(items) => {
                self.sources.extend(got);
                let mut warnings = index_sources(&self.sources, &mut self.providers);
                let ghost more = warnings.deep_view();
                self.progress.append(&mut warnings);
                assert(self.progress.deep_view() =~= v.progress + more);
                frame.stage = Stage::Items(items, 0);
                self.put_top(frame);
                assert(self.deep_view() =~= downloaded(v, all));
            },
            other => {
                frame.stage = other;
                self.put_top(frame);
            },
        }
    }

    /// Takes the lines that are to be told now.
    pub fn drain(&mut self) -> (r: Vec<String>)
        ensures
            r.deep_view() == old(self).deep_view().progress,
            final(self).deep_view() == (WalkView { progress: seq![], ..old(self).deep_view() }),
    {
        let ghost v = self.deep_view();
        let mut r: Vec<String> = Vec::new();
        let ghost before = self.progress.deep_view();
        r.append(&mut self.progress);
        assert(r.deep_view() =~= before);
        assert(self.progress.deep_view() =~= seq![]);
        r
    }
}

/// The title of an item, or its id where none is known.
pub fn item_title(titles: &Table<Json>, id: &str) -> (r: String)
    ensures
        r@ == title_of(titles.deep_view(), id@),
{
    match titles.get(id) {
        Some(item) => {
            let title = value_string(item, "title");
            if title.unicode_len() > 0 {
                title
            } else {
                id.to_string()
            }
        },
        None => id.to_string(),
    }
}

/// One step of the walk. Gives what it needs then.
pub fn walk_mod_dependencies(walk: &mut Walk) -> (r: Ask)
    ensures
        (final(walk).deep_view(), r.model()) == stepped(old(walk).deep_view()),
{
    let ghost v = walk.deep_view();
    if walk.frames.len() == 0 {
        if walk.position < walk.todo.len() {
            let id = walk.todo[walk.position].clone();
            walk.position = walk.position + 1;
            assert(id@ == v.todo[v.position as int]);
            assert(walk.deep_view() =~= (WalkView { position: v.position + 1, ..v }));
            walk.enter(id.as_str(), WALK_DEPTH);
            return Ask::Go;
        }
        return Ask::Done;
    }
    let ghost f = v.frames.last();
    let last = walk.frames.len() - 1;
    assert(f == walk.frames@[last as int].deep_view());
    let needs = match &walk.frames[last].stage {
        Stage::Needs => true,
        _ => false,
    };
    if needs && walk.frames[last].next < walk.frames[last].required.len() {
        walk.meet_need();
        return Ask::Go;
    }
    let mut frame = walk.take_top();
    let stage = frame.stage;
    match stage {
        Stage::Needs => {
            if frame.pending.len() == 0 {
                frame.stage = Stage::Needs;
                walk.place(frame);
                assert(walk.deep_view() =~= placed(v));
                Ask::Go
            } else {
                frame.stage = Stage::Resolve;
                let pending = copy_texts(&frame.pending);
                walk.put_top(frame);
                assert(walk.deep_view() =~= with_top(
                    v,
                    FrameView { stage: StageView::Resolve, ..f },
                ));
                Ask::Resolve(pending)
            }
        },
        Stage::Resolve => {
            frame.stage = Stage::Resolve;
            let pending = copy_texts(&frame.pending);
            walk.put_top(frame);
            proof {
                assert(walk.deep_view().frames =~= v.frames);
            }
            Ask::Resolve(pending)
        },
        Stage::Describe(added) => {
            let list = copy_texts(&added);
            frame.stage = Stage::Describe(added);
            let lower = if frame.depth > 0 {
                frame.depth - 1
            } else {
                0
            };
            walk.put_top(frame);
            assert(walk.deep_view().frames =~= v.frames);
            Ask::Describe(list, lower)
        },
        Stage::Fetch(items) => {
            let list = to_download(&items, &walk.sources);
            frame.stage = Stage::Fetch(items);
            walk.put_top(frame);
            assert(walk.deep_view().frames =~= v.frames);
            Ask::Download(list)
        },
        Stage::Items(items, n) => {
            if n < items.len() {
                let id = items[n].clone();
                let lower = if frame.depth > 0 {
                    frame.depth - 1
                } else {
                    0
                };
                frame.stage = Stage::Items(items, n + 1);
                walk.put_top(frame);
                assert(walk.deep_view() =~= with_top(
                    v,
                    FrameView {
                        stage: StageView::Items(items.deep_view(), (n + 1) as nat),
                        ..f
                    },
                ));
                walk.enter(id.as_str(), lower);
                Ask::Go
            } else {
                frame.stage = Stage::Items(items, n);
                walk.place(frame);
                assert(walk.deep_view() =~= placed(v));
                Ask::Go
            }
        },
    }
}

/// The walk over the items of an install, with what was downloaded, given the
/// entries of the state file and what stands on disk.
pub fn expand_mod_dependencies(
    initial: Vec<String>,
    state: &Vec<(String, Json)>,
    disk: &Disk,
    sources: Table<Source>,
) -> (r: Walk)
    ensures
        r.deep_view() == begun(
            initial.deep_view(),
            sources.deep_view(),
            providers_of(pairs_of(state@), *disk),
            resolutions(pairs_of(state@)),
        ),
{
    let cache = resolution_cache(state);
    let installed = installed_providers(state, disk);
    Walk::start(initial, sources, installed, cache)
}

} // verus!
