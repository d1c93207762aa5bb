//! Installing one item from what was downloaded: the checks, the steps and
//! what is written into the state file.
use vstd::prelude::*;

use crate::deps::{dedup_ids, firsts};
use crate::folder::{check_folder, folder_check, Disk};
use crate::json::{
    find_pair, json_number, json_object, json_texts, lemma_key_from, lemma_object_model,
    lemma_text_array, lemma_with_field_sound, lookup, object_of, pairs_of, put, text_array,
    value_string, value_u64, with_field, Json, JsonView, NumberView,
};
use crate::modinfo::{
    all_infos, metadata_of, mod_metadata, mod_roots, roots_of, MetadataView, ModRoot, RootView,
    Source, SourceView,
};
use crate::names::{list_names, listed};
use crate::state::{body_of, state_body};
use crate::text::{decimal, decimal_text, holds, opt_view, same, trim, trimmed};
use crate::transaction::{Place, Step, StepView};

verus! {

/// `list` without the items that equal the one before.
pub open spec fn drop_repeats(list: Seq<Seq<char>>) -> Seq<Seq<char>>
    decreases list.len(),
{
    if list.len() == 0 {
        seq![]
    } else {
        let r = drop_repeats(list.drop_last());
        if r.len() > 0 && r.last() == list.last() {
            r
        } else {
            r.push(list.last())
        }
    }
}

/// The folders of the entry that an item has so far, in order of listing.
pub open spec fn olds_of(previous: JsonView) -> Seq<Seq<char>> {
    drop_repeats(listed(previous.strings("folders"@)))
}

fn old_folders(previous: &Json) -> (r: Vec<String>)
    ensures
        r.deep_view() == olds_of(previous.model()),
{
    let found = previous.strings("folders");
    let names = list_names(&found);
    let ghost all = names.deep_view();
    let mut r: Vec<String> = Vec::new();
    let mut i: usize = 0;
    assert(r.deep_view() =~= seq![]);
    while i < names.len()
        invariant
            i <= names.len(),
            all == names.deep_view(),
            r.deep_view() == drop_repeats(all.take(i as int)),
        decreases names.len() - i,
    {
        assert(all.take(i + 1).drop_last() =~= all.take(i as int));
        let ghost before = r.deep_view();
        let repeated = r.len() > 0 && same(r[r.len() - 1].as_str(), names[i].as_str());
        if !repeated {
            r.push(names[i].clone());
            assert(r.deep_view() =~= before.push(names@[i as int]@));
        }
        i += 1;
    }
    assert(all.take(names.len() as int) =~= all);
    r
}

/// Why a folder of the entry cannot be replaced, if it cannot: its name is none
/// that a folder can have, it stands in both places, or a file has its name.
pub open spec fn old_fault(folder: Seq<char>, disk: Disk) -> Option<Seq<char>> {
    match folder_check(folder) {
        Err(e) => Some(e),
        Ok(n) => if disk.in_mods(n) && disk.in_off(n) {
            Some(n + " có ở cả mods và mods_off; giữ nguyên để người dùng xử lý"@)
        } else if disk.file_in_mods(n) || disk.file_in_off(n) {
            Some(n + " trùng với một file; giữ nguyên"@)
        } else {
            None
        },
    }
}

pub open spec fn first_old_fault(olds: Seq<Seq<char>>, disk: Disk) -> Option<Seq<char>>
    decreases olds.len(),
{
    if olds.len() == 0 {
        None
    } else {
        match first_old_fault(olds.drop_last(), disk) {
            Some(e) => Some(e),
            None => old_fault(olds.last(), disk),
        }
    }
}

/// Whether a folder is anywhere on the disk, or a file with its name.
pub open spec fn on_disk(disk: Disk, n: Seq<char>) -> bool {
    disk.in_mods(n) || disk.in_off(n) || disk.file_in_mods(n) || disk.file_in_off(n)
}

/// Why a new folder cannot be put anywhere, if it cannot: it is there and is not
/// of the entry.
pub open spec fn foreign_fault(folder: Seq<char>, olds: Seq<Seq<char>>, disk: Disk) -> Option<
    Seq<char>,
> {
    if !olds.contains(folder) && on_disk(disk, folder) {
        Some("thư mục "@ + folder + " đã tồn tại và không thuộc bản cài này"@)
    } else {
        None
    }
}

pub open spec fn first_foreign(
    news: Seq<Seq<char>>,
    olds: Seq<Seq<char>>,
    disk: Disk,
) -> Option<Seq<char>>
    decreases news.len(),
{
    if news.len() == 0 {
        None
    } else {
        match first_foreign(news.drop_last(), olds, disk) {
            Some(e) => Some(e),
            None => foreign_fault(news.last(), olds, disk),
        }
    }
}

proof fn lemma_first_old_fault(olds: Seq<Seq<char>>, disk: Disk, m: int)
    requires
        0 <= m <= olds.len(),
        first_old_fault(olds.take(m), disk) is Some,
    ensures
        first_old_fault(olds, disk) == first_old_fault(olds.take(m), disk),
    decreases olds.len(),
{
    if m == olds.len() {
        assert(olds.take(m) =~= olds);
    } else {
        assert(olds.drop_last().take(m) =~= olds.take(m));
        lemma_first_old_fault(olds.drop_last(), disk, m);
    }
}

proof fn lemma_first_foreign(news: Seq<Seq<char>>, olds: Seq<Seq<char>>, disk: Disk, m: int)
    requires
        0 <= m <= news.len(),
        first_foreign(news.take(m), olds, disk) is Some,
    ensures
        first_foreign(news, olds, disk) == first_foreign(news.take(m), olds, disk),
    decreases news.len(),
{
    if m == news.len() {
        assert(news.take(m) =~= news);
    } else {
        assert(news.drop_last().take(m) =~= news.take(m));
        lemma_first_foreign(news.drop_last(), olds, disk, m);
    }
}

fn check_old(olds: &Vec<String>, disk: &Disk) -> (r: Result<(), String>)
    ensures
        match first_old_fault(olds.deep_view(), *disk) {
            Some(e) => r matches Err(x) && x@ == e,
            None => r is Ok,
        },
{
    let ghost all = olds.deep_view();
    let mut i: usize = 0;
    while i < olds.len()
        invariant
            i <= olds.len(),
            all == olds.deep_view(),
            first_old_fault(all.take(i as int), *disk) is None,
        decreases olds.len() - i,
    {
        proof {
            assert(all.take(i + 1).drop_last() =~= all.take(i as int));
            assert(all.take(i + 1).last() == olds@[i as int]@);
            if first_old_fault(all.take(i + 1), *disk) is Some {
                lemma_first_old_fault(all, *disk, i + 1);
            }
        }
        match check_folder(olds[i].as_str()) {
            Err(e) => {
                return Err(e);
            },
            Ok(n) => {
                if holds(&disk.mods, n.as_str()) && holds(&disk.off, n.as_str()) {
                    return Err(
                        n.concat(" có ở cả mods và mods_off; giữ nguyên để người dùng xử lý"),
                    );
                }
                if holds(&disk.mods_files, n.as_str()) || holds(&disk.off_files, n.as_str()) {
                    return Err(n.concat(" trùng với một file; giữ nguyên"));
                }
            },
        }
        i += 1;
    }
    assert(all.take(olds.len() as int) =~= all);
    Ok(())
}

fn check_foreign(news: &Vec<String>, olds: &Vec<String>, disk: &Disk) -> (r: Result<(), String>)
    ensures
        match first_foreign(news.deep_view(), olds.deep_view(), *disk) {
            Some(e) => r matches Err(x) && x@ == e,
            None => r is Ok,
        },
{
    let ghost all = news.deep_view();
    let ghost known = olds.deep_view();
    let mut i: usize = 0;
    while i < news.len()
        invariant
            i <= news.len(),
            all == news.deep_view(),
            known == olds.deep_view(),
            first_foreign(all.take(i as int), known, *disk) is None,
        decreases news.len() - i,
    {
        proof {
            assert(all.take(i + 1).drop_last() =~= all.take(i as int));
            assert(all.take(i + 1).last() == news@[i as int]@);
            if first_foreign(all.take(i + 1), known, *disk) is Some {
                lemma_first_foreign(all, known, *disk, i + 1);
            }
        }
        let n = news[i].as_str();
        if !holds(olds, n) && (holds(&disk.mods, n) || holds(&disk.off, n) || holds(
            &disk.mods_files,
            n,
        ) || holds(&disk.off_files, n)) {
            return Err(
                "thư mục ".to_string().concat(n).concat(
                    " đã tồn tại và không thuộc bản cài này",
                ),
            );
        }
        i += 1;
    }
    assert(all.take(news.len() as int) =~= all);
    Ok(())
}

pub open spec fn trim_all(list: Seq<Seq<char>>) -> Seq<Seq<char>> {
    list.map_values(|s: Seq<char>| trimmed(s))
}

/// Where a folder of the entry stands, if it stands anywhere.
pub open spec fn old_place(olds: Seq<Seq<char>>, disk: Disk, n: Seq<char>) -> Option<Place> {
    if !trim_all(olds).contains(n) {
        None
    } else if disk.in_mods(n) {
        Some(Place::Mods)
    } else if disk.in_off(n) {
        Some(Place::Off)
    } else {
        None
    }
}

/// Where a new folder goes: where it stood, else into `mods`.
pub open spec fn put_place(olds: Seq<Seq<char>>, disk: Disk, n: Seq<char>) -> Place {
    match old_place(olds, disk, n) {
        Some(p) => p,
        None => Place::Mods,
    }
}

pub open spec fn folders_of(roots: Seq<RootView>) -> Seq<Seq<char>> {
    roots.map_values(|r: RootView| r.folder)
}

pub open spec fn stages(roots: Seq<RootView>) -> Seq<StepView> {
    roots.map_values(|r: RootView| StepView::Stage { folder: r.folder, path: r.path })
}

pub open spec fn backups(olds: Seq<Seq<char>>) -> Seq<StepView>
    decreases olds.len(),
{
    if olds.len() == 0 {
        seq![]
    } else {
        backups(olds.drop_last()) + seq![
            StepView::Backup { place: Place::Mods, folder: olds.last() },
            StepView::Backup { place: Place::Off, folder: olds.last() },
        ]
    }
}

pub open spec fn puts(roots: Seq<RootView>, olds: Seq<Seq<char>>, disk: Disk) -> Seq<StepView> {
    roots.map_values(
        |r: RootView|
            StepView::Put { place: put_place(olds, disk, r.folder), folder: r.folder },
    )
}

/// The folders of the entry that the new version no longer has, and where they
/// stand.
pub open spec fn retired(
    list: Seq<Seq<char>>,
    news: Seq<Seq<char>>,
    olds: Seq<Seq<char>>,
    disk: Disk,
) -> Seq<(Place, Seq<char>)>
    decreases list.len(),
{
    if list.len() == 0 {
        seq![]
    } else {
        let r = retired(list.drop_last(), news, olds, disk);
        match old_place(olds, disk, list.last()) {
            Some(p) => if news.contains(list.last()) {
                r
            } else {
                r.push((p, list.last()))
            },
            None => r,
        }
    }
}

pub open spec fn keeps(list: Seq<(Place, Seq<char>)>) -> Seq<StepView> {
    list.map_values(|x: (Place, Seq<char>)| StepView::Keep { from: x.0, folder: x.1 })
}

/// The steps of an install: the new folders are prepared, the old ones moved
/// aside, the new ones put in place, those that are no longer part of the item
/// kept in `mods_off`, and the state file written.
pub open spec fn install_steps(roots: Seq<RootView>, olds: Seq<Seq<char>>, disk: Disk) -> Seq<
    StepView,
> {
    stages(roots) + backups(olds) + puts(roots, olds, disk) + keeps(
        retired(firsts(olds), folders_of(roots), olds, disk),
    ) + seq![StepView::Save]
}

/// The entry that an item has so far; an empty object where it has none.
pub open spec fn previous_entry(pairs: Seq<(Seq<char>, JsonView)>, id: Seq<char>) -> JsonView {
    match lookup(pairs, id) {
        Some(v) => v,
        None => JsonView::Object(seq![]),
    }
}

pub open spec fn title_or(title: Seq<char>, id: Seq<char>) -> Seq<char> {
    if title.len() == 0 {
        id
    } else {
        title
    }
}

/// The fields of the entry for an item that was installed.
pub open spec fn entry_fields(
    id: Seq<char>,
    detail: JsonView,
    folders: Seq<Seq<char>>,
    meta: MetadataView,
    previous: JsonView,
) -> Seq<(Seq<char>, JsonView)> {
    seq![
        ("title"@, JsonView::Str(title_or(detail.string("title"@), id))),
        ("updated"@, JsonView::Number(NumberView::Unsigned(detail.number("time_updated"@)))),
        ("size"@, JsonView::Number(NumberView::Unsigned(detail.number("file_size"@)))),
        ("folders"@, text_array(folders)),
        ("modids"@, text_array(meta.modids)),
        ("require"@, text_array(meta.required)),
        (
            "resolved"@,
            match previous.field("resolved"@) {
                Some(v) => v,
                None => JsonView::Object(seq![]),
            },
        ),
    ]
}

/// How an install is to go.
#[verifier::ext_equal]
pub struct PlanView {
    pub steps: Seq<StepView>,
    pub state: Seq<(Seq<char>, JsonView)>,
    pub kept: Seq<Seq<char>>,
    pub folders: Seq<Seq<char>>,
}

pub open spec fn names_kept(list: Seq<(Place, Seq<char>)>) -> Seq<Seq<char>> {
    list.map_values(|x: (Place, Seq<char>)| x.1)
}

/// How the item `id` is installed from `source`, or why it is not. Nothing on
/// disk is touched before every check was passed.
pub open spec fn install_view(
    id: Seq<char>,
    detail: JsonView,
    source: SourceView,
    pairs: Seq<(Seq<char>, JsonView)>,
    disk: Disk,
) -> Result<PlanView, Seq<char>> {
    match roots_of(source).roots {
        Err(e) => Err(e),
        Ok(roots) => {
            let previous = previous_entry(pairs, id);
            let olds = olds_of(previous);
            let news = folders_of(roots);
            if roots.len() == 0 {
                Err("không tìm thấy mods/<ModName>/mod.info"@)
            } else {
                match first_old_fault(olds, disk) {
                    Some(e) => Err(e),
                    None => match first_foreign(news, olds, disk) {
                        Some(e) => Err(e),
                        None => match metadata_of(all_infos(roots)) {
                            Err(e) => Err(e),
                            Ok(meta) => Ok(
                                PlanView {
                                    steps: install_steps(roots, olds, disk),
                                    state: with_field(
                                        pairs,
                                        id,
                                        object_of(entry_fields(id, detail, news, meta, previous)),
                                    ),
                                    kept: names_kept(retired(firsts(olds), news, olds, disk)),
                                    folders: news,
                                },
                            ),
                        },
                    },
                }
            }
        },
    }
}

/// How an install is to go: the steps, the text of the state file that the last
/// one writes, the folders that are kept in `mods_off`, and the new folders.
pub struct Plan {
    pub steps: Vec<Step>,
    pub body: Result<String, String>,
    pub kept: Vec<String>,
    pub folders: Vec<String>,
}

/// What looking at a downloaded item comes to: the warnings, and how it is
/// installed.
pub struct Install {
    pub warnings: Vec<String>,
    pub plan: Result<Plan, String>,
}

pub open spec fn plan_matches(r: Result<Plan, String>, v: Result<PlanView, Seq<char>>) -> bool {
    match v {
        Err(e) => r matches Err(x) && x@ == e,
        Ok(p) => r matches Ok(plan) && plan.steps.deep_view() == p.steps && body_of(
            p.state,
            plan.body,
        ) && plan.kept.deep_view() == p.kept && plan.folders.deep_view() == p.folders,
    }
}

fn root_folders(roots: &Vec<ModRoot>) -> (r: Vec<String>)
    ensures
        r.deep_view() == folders_of(roots.deep_view()),
{
    let mut r: Vec<String> = Vec::new();
    let mut i: usize = 0;
    while i < roots.len()
        invariant
            i <= roots.len(),
            r.len() == i,
            forall|k: int| 0 <= k < i ==> (#[trigger] r@[k])@ == roots@[k].folder@,
        decreases roots.len() - i,
    {
        r.push(roots[i].folder.clone());
        i += 1;
    }
    assert(r.deep_view() =~= folders_of(roots.deep_view()));
    r
}

fn trim_texts(list: &Vec<String>) -> (r: Vec<String>)
    ensures
        r.deep_view() == trim_all(list.deep_view()),
{
    let mut r: Vec<String> = Vec::new();
    let mut i: usize = 0;
    while i < list.len()
        invariant
            i <= list.len(),
            r.len() == i,
            forall|k: int| 0 <= k < i ==> (#[trigger] r@[k])@ == trimmed(list@[k]@),
        decreases list.len() - i,
    {
        r.push(trim(list[i].as_str()));
        i += 1;
    }
    assert(r.deep_view() =~= trim_all(list.deep_view()));
    r
}

fn place_of(names: &Vec<String>, disk: &Disk, n: &str, Ghost(olds): Ghost<Seq<Seq<char>>>) -> (r:
    Option<Place>)
    requires
        names.deep_view() == trim_all(olds),
    ensures
        r == old_place(olds, *disk, n@),
{
    if !holds(names, n) {
        None
    } else if holds(&disk.mods, n) {
        Some(Place::Mods)
    } else if holds(&disk.off, n) {
        Some(Place::Off)
    } else {
        None
    }
}

/// The folders that are retired, with the steps that keep them.
struct Kept {
    names: Vec<String>,
    steps: Vec<Step>,
}

fn keep_steps(olds: &Vec<String>, news: &Vec<String>, disk: &Disk) -> (r: Kept)
    ensures
        ({
            let o = olds.deep_view();
            let list = retired(firsts(o), news.deep_view(), o, *disk);
            r.names.deep_view() == names_kept(list) && r.steps.deep_view() == keeps(list)
        }),
{
    let once = dedup_ids(olds);
    let names = trim_texts(olds);
    let ghost o = olds.deep_view();
    let ghost all = once.deep_view();
    let ghost n = news.deep_view();
    let mut kept: Vec<String> = Vec::new();
    let mut steps: Vec<Step> = Vec::new();
    let mut i: usize = 0;
    proof {
        assert(kept.deep_view() =~= names_kept(seq![]));
        assert(steps.deep_view() =~= keeps(seq![]));
    }
    while i < once.len()
        invariant
            i <= once.len(),
            o == olds.deep_view(),
            all == once.deep_view(),
            n == news.deep_view(),
            names.deep_view() == trim_all(o),
            kept.deep_view() == names_kept(retired(all.take(i as int), n, o, *disk)),
            steps.deep_view() == keeps(retired(all.take(i as int), n, o, *disk)),
        decreases once.len() - i,
    {
        assert(all.take(i + 1).drop_last() =~= all.take(i as int));
        let ghost list = retired(all.take(i as int), n, o, *disk);
        let f = once[i].as_str();
        match place_of(&names, disk, f, Ghost(o)) {
            Some(p) => {
                if !holds(news, f) {
                    let ghost a = kept.deep_view();
                    let ghost b = steps.deep_view();
                    kept.push(once[i].clone());
                    steps.push(Step::Keep { from: p, folder: once[i].clone() });
                    proof {
                        let x = (p, f@);
                        assert(kept.deep_view() =~= a.push(f@));
                        assert(steps.deep_view() =~= b.push(
                            StepView::Keep { from: p, folder: f@ },
                        ));
                        assert(names_kept(list.push(x)) =~= names_kept(list).push(f@));
                        assert(keeps(list.push(x)) =~= keeps(list).push(
                            StepView::Keep { from: p, folder: f@ },
                        ));
                    }
                }
            },
            None => {},
        }
        i += 1;
    }
    assert(all.take(once.len() as int) =~= all);
    Kept { names: kept, steps }
}

fn push_stages(steps: &mut Vec<Step>, roots: &Vec<ModRoot>)
    ensures
        final(steps).deep_view() == old(steps).deep_view() + stages(roots.deep_view()),
{
    let ghost before = steps.deep_view();
    let ghost all = stages(roots.deep_view());
    let mut i: usize = 0;
    assert(before + all.take(0) =~= before);
    while i < roots.len()
        invariant
            i <= roots.len(),
            all == stages(roots.deep_view()),
            steps.deep_view() == before + all.take(i as int),
        decreases roots.len() - i,
    {
        let ghost was = steps.deep_view();
        let step = Step::Stage { folder: roots[i].folder.clone(), path: roots[i].path.clone() };
        steps.push(step);
        proof {
            assert(steps.deep_view() =~= was.push(step.deep_view()));
            assert(all[i as int] == step.deep_view());
            assert(was.push(step.deep_view()) =~= before + all.take(i + 1));
        }
        i += 1;
    }
    assert(all.take(roots.len() as int) =~= all);
}

fn push_backups(steps: &mut Vec<Step>, olds: &Vec<String>)
    ensures
        final(steps).deep_view() == old(steps).deep_view() + backups(olds.deep_view()),
{
    let ghost before = steps.deep_view();
    let ghost all = olds.deep_view();
    let mut i: usize = 0;
    assert(before + backups(all.take(0)) =~= before);
    while i < olds.len()
        invariant
            i <= olds.len(),
            all == olds.deep_view(),
            steps.deep_view() == before + backups(all.take(i as int)),
        decreases olds.len() - i,
    {
        let ghost was = steps.deep_view();
        assert(all.take(i + 1).drop_last() =~= all.take(i as int));
        let a = Step::Backup { place: Place::Mods, folder: olds[i].clone() };
        let b = Step::Backup { place: Place::Off, folder: olds[i].clone() };
        steps.push(a);
        steps.push(b);
        proof {
            assert(steps.deep_view() =~= was.push(a.deep_view()).push(b.deep_view()));
            assert(steps.deep_view() =~= before + backups(all.take(i + 1)));
        }
        i += 1;
    }
    assert(all.take(olds.len() as int) =~= all);
}

fn push_puts(steps: &mut Vec<Step>, roots: &Vec<ModRoot>, olds: &Vec<String>, disk: &Disk)
    ensures
        final(steps).deep_view() == old(steps).deep_view() + puts(
            roots.deep_view(),
            olds.deep_view(),
            *disk,
        ),
{
    let ghost before = steps.deep_view();
    let ghost o = olds.deep_view();
    let ghost all = puts(roots.deep_view(), o, *disk);
    let names = trim_texts(olds);
    let mut i: usize = 0;
    assert(before + all.take(0) =~= before);
    while i < roots.len()
        invariant
            i <= roots.len(),
            o == olds.deep_view(),
            names.deep_view() == trim_all(o),
            all == puts(roots.deep_view(), o, *disk),
            steps.deep_view() == before + all.take(i as int),
        decreases roots.len() - i,
    {
        let ghost was = steps.deep_view();
        let place = match place_of(&names, disk, roots[i].folder.as_str(), Ghost(o)) {
            Some(p) => p,
            None => Place::Mods,
        };
        let step = Step::Put { place, folder: roots[i].folder.clone() };
        steps.push(step);
        proof {
            assert(steps.deep_view() =~= was.push(step.deep_view()));
            assert(all[i as int] == step.deep_view());
            assert(was.push(step.deep_view()) =~= before + all.take(i + 1));
        }
        i += 1;
    }
    assert(all.take(roots.len() as int) =~= all);
}

/// What is found in a well-formed object is well formed.
pub proof fn lemma_lookup_wf(pairs: Seq<(Seq<char>, JsonView)>, key: Seq<char>)
    requires
        JsonView::Object(pairs).wf(),
    ensures
        lookup(pairs, key) matches Some(v) ==> v.wf(),
{
    lemma_key_from(pairs, key, 0);
    match lookup(pairs, key) {
        Some(v) => {
            let k = crate::json::key_from(pairs, key, 0)->Some_0;
            assert(pairs[k].1.wf());
        },
        None => {},
    }
}

proof fn lemma_field_wf(m: JsonView, key: Seq<char>)
    requires
        m.wf(),
    ensures
        m.field(key) matches Some(v) ==> v.wf(),
{
    match m {
        JsonView::Object(pairs) => {
            lemma_lookup_wf(pairs, key);
        },
        _ => {},
    }
}

/// An object of well-formed fields is well formed.
proof fn lemma_fields_wf(fields: Seq<(Seq<char>, JsonView)>)
    requires
        forall|i: int| 0 <= i < fields.len() ==> (#[trigger] fields[i]).1.wf(),
    ensures
        object_of(fields).wf(),
    decreases fields.len(),
{
    if fields.len() > 0 {
        let t = fields.drop_last();
        assert forall|i: int| 0 <= i < t.len() implies (#[trigger] t[i]).1.wf() by {
            assert(t[i] == fields[i]);
        }
        lemma_fields_wf(t);
        assert(fields[fields.len() - 1].1.wf());
        lemma_with_field_sound(crate::json::fields_of(t), fields.last().0, fields.last().1, 0);
    }
}

/// How the item `id` is installed from what was downloaded, given the entries of
/// the state file and what stands on disk.
pub fn install_from_source(
    id: &str,
    detail: &Json,
    source: &Source,
    state: Vec<(String, Json)>,
    disk: &Disk,
) -> (r: Install)
    requires
        JsonView::Object(pairs_of(state@)).wf(),
    ensures
        r.warnings.deep_view() == roots_of(source.deep_view()).warnings,
        plan_matches(
            r.plan,
            install_view(id@, detail.model(), source.deep_view(), pairs_of(state@), *disk),
        ),
{
    let found = mod_roots(source);
    let warnings = found.warnings;
    let roots = match found.roots {
        Err(e) => {
            return Install { warnings, plan: Err(e) };
        },
        Ok(v) => v,
    };
    if roots.len() == 0 {
        return Install {
            warnings,
            plan: Err("không tìm thấy mods/<ModName>/mod.info".to_string()),
        };
    }
    let ghost pairs = pairs_of(state@);
    let previous = match find_pair(&state, id) {
        Some(v) => v.copy(),
        None => {
            let none: Vec<(String, Json)> = Vec::new();
            proof {
                lemma_object_model(none);
                assert(pairs_of(none@) =~= seq![]);
            }
            Json::Object(none)
        },
    };
    let olds = old_folders(&previous);
    let news = root_folders(&roots);
    match check_old(&olds, disk) {
        Err(e) => {
            return Install { warnings, plan: Err(e) };
        },
        Ok(_) => {},
    }
    match check_foreign(&news, &olds, disk) {
        Err(e) => {
            return Install { warnings, plan: Err(e) };
        },
        Ok(_) => {},
    }
    let meta = match mod_metadata(&roots) {
        Err(e) => {
            return Install { warnings, plan: Err(e) };
        },
        Ok(m) => m,
    };
    let mut steps: Vec<Step> = Vec::new();
    assert(steps.deep_view() =~= seq![]);
    push_stages(&mut steps, &roots);
    push_backups(&mut steps, &olds);
    push_puts(&mut steps, &roots, &olds, disk);
    let kept = keep_steps(&olds, &news, disk);
    let ghost before = steps.deep_view();
    let mut more = kept.steps;
    let ghost keep_part = more.deep_view();
    steps.append(&mut more);
    assert(steps.deep_view() =~= before + keep_part);
    let ghost almost = steps.deep_view();
    steps.push(Step::Save);
    assert(steps.deep_view() =~= almost.push(StepView::Save));
    assert(steps.deep_view() =~= install_steps(roots.deep_view(), olds.deep_view(), *disk));

    let title = value_string(detail, "title");
    let title = if title.unicode_len() == 0 {
        id.to_string()
    } else {
        title
    };
    let resolved = match previous.get("resolved") {
        Some(v) => v.copy(),
        None => {
            let none: Vec<(String, Json)> = Vec::new();
            proof {
                lemma_object_model(none);
                assert(pairs_of(none@) =~= seq![]);
            }
            Json::Object(none)
        },
    };
    let mut fields: Vec<(String, Json)> = Vec::new();
    fields.push(("title".to_string(), Json::Str(title)));
    fields.push(("updated".to_string(), json_number(value_u64(detail, "time_updated"))));
    fields.push(("size".to_string(), json_number(value_u64(detail, "file_size"))));
    fields.push(("folders".to_string(), json_texts(&news)));
    fields.push(("modids".to_string(), json_texts(&meta.modids)));
    fields.push(("require".to_string(), json_texts(&meta.required)));
    fields.push(("resolved".to_string(), resolved));
    proof {
        let want = entry_fields(
            id@,
            detail.model(),
            news.deep_view(),
            meta.deep_view(),
            previous.model(),
        );
        assert(pairs_of(fields@) =~= want);
        lemma_lookup_wf(pairs, id@);
        assert(previous.model().wf());
        lemma_field_wf(previous.model(), "resolved"@);
        lemma_text_array(news.deep_view());
        lemma_text_array(meta.modids.deep_view());
        lemma_text_array(meta.required.deep_view());
        assert forall|i: int| 0 <= i < want.len() implies (#[trigger] want[i]).1.wf() by {}
        lemma_fields_wf(want);
        lemma_with_field_sound(pairs, id@, object_of(want), 0);
    }
    let entry = json_object(fields);
    let mut state = state;
    put(&mut state, id, entry);
    let body = state_body(state);
    Install { warnings, plan: Ok(Plan { steps, body, kept: kept.names, folders: news }) }
}

pub open spec fn kept_lines(kept: Seq<Seq<char>>) -> Seq<Seq<char>> {
    kept.map_values(
        |f: Seq<char>| "! "@ + f + " không còn trong bản mới, đã chuyển sang mods_off"@,
    )
}

/// What is told of an install that was done.
pub open spec fn install_lines(kept: Seq<Seq<char>>, title: Seq<char>, count: nat, size: Seq<char>) -> Seq<
    Seq<char>,
> {
    kept_lines(kept).push(
        "+ "@ + title + " -> "@ + decimal(count) + " thư mục ("@ + size + " KB)"@,
    )
}

/// What is told, with what could not be cleaned up.
pub open spec fn with_leftover(
    told: Seq<Seq<char>>,
    transaction: Seq<char>,
    leftover: Option<Seq<char>>,
) -> Seq<Seq<char>> {
    match leftover {
        None => told,
        Some(e) => told.push("! Không dọn được transaction "@ + transaction + ": "@ + e),
    }
}

/// What is told of an install that was done; `size` is the item's size in
/// kilobytes, with one decimal. Where what was moved aside could not be cleaned
/// up, `leftover` tells why.
pub fn install_log(
    plan: &Plan,
    detail: &Json,
    size: &str,
    transaction: &str,
    leftover: Option<&str>,
) -> (r: Vec<String>)
    ensures
        ({
            let told = install_lines(
                plan.kept.deep_view(),
                detail.model().string("title"@),
                plan.folders.deep_view().len(),
                size@,
            );
            r.deep_view() == with_leftover(told, transaction@, opt_view(leftover))
        }),
{
    let mut r: Vec<String> = Vec::new();
    let ghost all = kept_lines(plan.kept.deep_view());
    let mut i: usize = 0;
    while i < plan.kept.len()
        invariant
            i <= plan.kept.len(),
            all == kept_lines(plan.kept.deep_view()),
            r.deep_view() == all.take(i as int),
        decreases plan.kept.len() - i,
    {
        let ghost before = r.deep_view();
        let line = "! ".to_string().concat(plan.kept[i].as_str()).concat(
            " không còn trong bản mới, đã chuyển sang mods_off",
        );
        r.push(line);
        proof {
            assert(r.deep_view() =~= before.push(line@));
            assert(all[i as int] == line@);
            assert(before.push(line@) =~= all.take(i + 1));
        }
        i += 1;
    }
    assert(all.take(plan.kept.len() as int) =~= all);
    let title = value_string(detail, "title");
    let line = "+ ".to_string().concat(title.as_str()).concat(" -> ").concat(
        decimal_text(plan.folders.len() as u64).as_str(),
    ).concat(" thư mục (").concat(size).concat(" KB)");
    r.push(line);
    assert(r.deep_view() =~= all.push(line@));
    match leftover {
        None => {},
        Some(e) => {
            let ghost told = r.deep_view();
            let line = "! Không dọn được transaction ".to_string().concat(transaction).concat(
                ": ",
            ).concat(e);
            r.push(line);
            assert(r.deep_view() =~= told.push(line@));
        },
    }
    r
}

} // verus!
