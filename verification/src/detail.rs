//! What is shown of one item, and of everything that is installed.
use vstd::prelude::*;

use crate::browse::{
    card_fields, description_text, known_tags, number_field, periods, plain_description,
    sort_labels, sorts, tag_names, windows,
};
use crate::folder::{Disk, FolderStatus};
use crate::json::{
    find_pair, json_number, json_object, lemma_object_model, lookup, object_of, pairs_of,
    value_u64, Json, JsonView, NumberView,
};
use crate::names::{law_listed_keeps_names, list_names, listed};
use crate::remove::entry_title;
use crate::state::{entry_folders, missing_modids, missing_of};
use crate::table::Table;
use crate::text::{holds, is_id, is_workshop_id};
use crate::walk::{item_title, title_of};

verus! {

/// A folder of an entry and its status.
pub open spec fn folder_view(folder: Seq<char>, disk: Disk) -> JsonView {
    object_of(
        seq![
            ("name"@, JsonView::Str(folder)),
            ("status"@, JsonView::Str(disk.status(folder).name())),
        ],
    )
}

pub open spec fn folders_view(folders: Seq<Seq<char>>, disk: Disk) -> JsonView {
    JsonView::Array(folders.map_values(|f: Seq<char>| folder_view(f, disk)))
}

fn folder_json(folder: &str, disk: &Disk) -> (r: Json)
    ensures
        r.model() == folder_view(folder@, *disk),
{
    let status = disk.folder_status(folder);
    let mut f: Vec<(String, Json)> = Vec::new();
    f.push(("name".to_string(), Json::Str(folder.to_string())));
    f.push(("status".to_string(), Json::Str(status.label().to_string())));
    assert(pairs_of(f@) =~= seq![
        ("name"@, JsonView::Str(folder@)),
        ("status"@, JsonView::Str(disk.status(folder@).name())),
    ]);
    json_object(f)
}

fn folders_json(folders: &Vec<String>, disk: &Disk) -> (r: Json)
    ensures
        r.model() == folders_view(folders.deep_view(), *disk),
{
    let mut v: Vec<Json> = Vec::new();
    let mut i: usize = 0;
    while i < folders.len()
        invariant
            i <= folders.len(),
            v.len() == i,
            forall|k: int|
                0 <= k < i ==> (#[trigger] v@[k]).model() == folder_view(folders@[k]@, *disk),
        decreases folders.len() - i,
    {
        v.push(folder_json(folders[i].as_str(), disk));
        i += 1;
    }
    let r = Json::Array(v);
    assert(r.model()->Array_0 =~= folders_view(folders.deep_view(), *disk)->Array_0);
    r
}

/// What is known of what an item needs: nothing, since its page could not be had,
/// or the items, with what is known of them.
pub enum Needs {
    Blocked,
    Known(Vec<String>, Table<Json>),
}

/// An item that another needs.
pub open spec fn need_view(
    id: Seq<char>,
    titles: Seq<(Seq<char>, JsonView)>,
    pairs: Seq<(Seq<char>, JsonView)>,
) -> JsonView {
    object_of(
        seq![
            ("id"@, JsonView::Str(id)),
            ("title"@, JsonView::Str(title_of(titles, id))),
            ("installed"@, JsonView::Bool(lookup(pairs, id) is Some)),
        ],
    )
}

pub open spec fn needs_view(
    ids: Seq<Seq<char>>,
    titles: Seq<(Seq<char>, JsonView)>,
    pairs: Seq<(Seq<char>, JsonView)>,
) -> JsonView {
    JsonView::Array(ids.map_values(|id: Seq<char>| need_view(id, titles, pairs)))
}

fn need_json(id: &str, titles: &Table<Json>, state: &Vec<(String, Json)>) -> (r: Json)
    ensures
        r.model() == need_view(id@, titles.deep_view(), pairs_of(state@)),
{
    let mut f: Vec<(String, Json)> = Vec::new();
    f.push(("id".to_string(), Json::Str(id.to_string())));
    f.push(("title".to_string(), Json::Str(item_title(titles, id))));
    f.push(("installed".to_string(), Json::Bool(find_pair(state, id).is_some())));
    assert(pairs_of(f@) =~= seq![
        ("id"@, JsonView::Str(id@)),
        ("title"@, JsonView::Str(title_of(titles.deep_view(), id@))),
        ("installed"@, JsonView::Bool(lookup(pairs_of(state@), id@) is Some)),
    ]);
    json_object(f)
}

fn needs_json(ids: &Vec<String>, titles: &Table<Json>, state: &Vec<(String, Json)>) -> (r: Json)
    ensures
        r.model() == needs_view(ids.deep_view(), titles.deep_view(), pairs_of(state@)),
{
    let mut v: Vec<Json> = Vec::new();
    let ghost t = titles.deep_view();
    let ghost p = pairs_of(state@);
    let mut i: usize = 0;
    while i < ids.len()
        invariant
            i <= ids.len(),
            v.len() == i,
            t == titles.deep_view(),
            p == pairs_of(state@),
            forall|k: int| 0 <= k < i ==> (#[trigger] v@[k]).model() == need_view(ids@[k]@, t, p),
        decreases ids.len() - i,
    {
        v.push(need_json(ids[i].as_str(), titles, state));
        i += 1;
    }
    let r = Json::Array(v);
    assert(r.model()->Array_0 =~= needs_view(ids.deep_view(), t, p)->Array_0);
    r
}

/// The entry of an item, or null where it has none.
pub open spec fn entry_or_null(pairs: Seq<(Seq<char>, JsonView)>, id: Seq<char>) -> JsonView {
    match lookup(pairs, id) {
        Some(v) => v,
        None => JsonView::Null,
    }
}

/// The value under `key`, or `other` where there is none.
pub open spec fn field_or(m: JsonView, key: Seq<char>, other: JsonView) -> JsonView {
    match m.field(key) {
        Some(v) => v,
        None => other,
    }
}

/// What the page of an item shows beyond its card.
pub open spec fn more_fields(
    item: JsonView,
    children: u64,
    entry: JsonView,
    disk: Disk,
    pairs: Seq<(Seq<char>, JsonView)>,
    needs: Needs,
) -> Seq<(Seq<char>, JsonView)> {
    seq![
        ("description"@, JsonView::Str(plain_description(item))),
        ("children"@, JsonView::Number(NumberView::Unsigned(children))),
        ("created"@, number_field(item, "time_created"@)),
        ("views"@, number_field(item, "views"@)),
        ("favorited"@, number_field(item, "favorited"@)),
        ("folders"@, folders_view(entry.strings("folders"@), disk)),
        ("modids"@, field_or(entry, "modids"@, JsonView::Array(seq![]))),
    ] + match needs {
        Needs::Known(ids, titles) => seq![
            ("required"@, needs_view(ids.deep_view(), titles.deep_view(), pairs)),
        ],
        Needs::Blocked => seq![
            ("required"@, JsonView::Array(seq![])),
            ("req_blocked"@, JsonView::Bool(true)),
        ],
    }
}

pub open spec fn error_view(why: Seq<char>) -> JsonView {
    object_of(seq![("error"@, JsonView::Str(why))])
}

/// What is shown of the item `id`, which is `found` where the workshop knows it.
pub open spec fn detail_view(
    id: Seq<char>,
    found: Option<JsonView>,
    children: u64,
    pairs: Seq<(Seq<char>, JsonView)>,
    disk: Disk,
    needs: Needs,
) -> JsonView {
    if !is_id(id) {
        error_view("bad id"@)
    } else {
        match found {
            None => error_view("not found"@),
            Some(item) => object_of(
                card_fields(item) + more_fields(
                    item,
                    children,
                    entry_or_null(pairs, id),
                    disk,
                    pairs,
                    needs,
                ),
            ),
        }
    }
}

fn error_json(why: &str) -> (r: Json)
    ensures
        r.model() == error_view(why@),
{
    let mut f: Vec<(String, Json)> = Vec::new();
    f.push(("error".to_string(), Json::Str(why.to_string())));
    assert(pairs_of(f@) =~= seq![("error"@, JsonView::Str(why@))]);
    json_object(f)
}

fn copy_or(m: &Json, key: &str, other: Json) -> (r: Json)
    ensures
        r.model() == field_or(m.model(), key@, other.model()),
{
    match m.get(key) {
        Some(v) => v.copy(),
        None => other,
    }
}

fn empty_array() -> (r: Json)
    ensures
        r.model() == JsonView::Array(seq![]),
{
    let v: Vec<Json> = Vec::new();
    let r = Json::Array(v);
    assert(r.model()->Array_0 =~= seq![]);
    r
}

fn empty_object() -> (r: Json)
    ensures
        r.model() == JsonView::Object(seq![]),
{
    let v: Vec<(String, Json)> = Vec::new();
    proof {
        lemma_object_model(v);
        assert(pairs_of(v@) =~= seq![]);
    }
    Json::Object(v)
}

/// Puts further fields into an object.
fn add_field(fields: &mut Vec<(String, Json)>, key: &str, value: Json)
    ensures
        pairs_of(final(fields)@) == pairs_of(old(fields)@).push((key@, value.model())),
{
    let ghost before = pairs_of(fields@);
    fields.push((key.to_string(), value));
    assert(pairs_of(fields@) =~= before.push((key@, value.model())));
}

/// What is shown of the item `id`: what the workshop tells, which of its folders
/// are there, and what it needs.
pub fn detail(
    id: &str,
    found: Option<&Json>,
    children: u64,
    state: &Vec<(String, Json)>,
    disk: &Disk,
    needs: &Needs,
) -> (r: Json)
    ensures
        r.model() == detail_view(
            id@,
            crate::json::model_of(found),
            children,
            pairs_of(state@),
            *disk,
            *needs,
        ),
{
    if !is_workshop_id(id) {
        return error_json("bad id");
    }
    let item = match found {
        None => {
            return error_json("not found");
        },
        Some(item) => item,
    };
    let entry = match find_pair(state, id) {
        Some(e) => e.copy(),
        None => Json::Null,
    };
    let folders = entry_folders(&entry);
    let mut extra: Vec<(String, Json)> = Vec::new();
    assert(pairs_of(extra@) =~= seq![]);
    add_field(&mut extra, "description", Json::Str(description_text(item)));
    add_field(&mut extra, "children", json_number(children));
    add_field(&mut extra, "created", json_number(value_u64(item, "time_created")));
    add_field(&mut extra, "views", json_number(value_u64(item, "views")));
    add_field(&mut extra, "favorited", json_number(value_u64(item, "favorited")));
    add_field(&mut extra, "folders", folders_json(&folders, disk));
    add_field(&mut extra, "modids", copy_or(&entry, "modids", empty_array()));
    match needs {
        Needs::Known(ids, titles) => {
            add_field(&mut extra, "required", needs_json(ids, titles, state));
        },
        Needs::Blocked => {
            add_field(&mut extra, "required", empty_array());
            add_field(&mut extra, "req_blocked", Json::Bool(true));
        },
    }
    proof {
        assert(pairs_of(extra@) =~= more_fields(
            item.model(),
            children,
            entry.model(),
            *disk,
            pairs_of(state@),
            *needs,
        ));
    }
    let mut all = crate::browse::card_parts(item);
    let ghost head = pairs_of(all@);
    let ghost tail = pairs_of(extra@);
    all.append(&mut extra);
    assert(pairs_of(all@) =~= head + tail);
    json_object(all)
}

/// A folder that no entry accounts for.
pub struct Folder {
    pub name: String,
    pub status: String,
    pub enabled: bool,
}

#[verifier::ext_equal]
pub struct FolderView {
    pub name: Seq<char>,
    pub status: Seq<char>,
    pub enabled: bool,
}

impl DeepView for Folder {
    type V = FolderView;

    open spec fn deep_view(&self) -> FolderView {
        FolderView { name: self.name@, status: self.status@, enabled: self.enabled }
    }
}

/// The folders of both places: those in `mods`, then those that are only in
/// `mods_off`.
pub open spec fn found_names(on: Seq<Seq<char>>, off: Seq<Seq<char>>) -> Seq<Seq<char>> {
    on + only_in(off, on)
}

/// Those of `list` that are not in `other`.
pub open spec fn only_in(list: Seq<Seq<char>>, other: Seq<Seq<char>>) -> Seq<Seq<char>>
    decreases list.len(),
{
    if list.len() == 0 {
        seq![]
    } else {
        let r = only_in(list.drop_last(), other);
        if other.contains(list.last()) {
            r
        } else {
            r.push(list.last())
        }
    }
}

/// How a folder stands: enabled, disabled, or in both places.
pub open spec fn standing(name: Seq<char>, on: Seq<Seq<char>>, off: Seq<Seq<char>>) -> FolderView {
    FolderView {
        name,
        status: if !on.contains(name) {
            "disabled"@
        } else if off.contains(name) {
            "collision"@
        } else {
            "enabled"@
        },
        enabled: on.contains(name),
    }
}

/// The folders that entries account for.
pub open spec fn owned(pairs: Seq<(Seq<char>, JsonView)>) -> Seq<Seq<char>>
    decreases pairs.len(),
{
    if pairs.len() == 0 {
        seq![]
    } else {
        owned(pairs.drop_last()) + pairs.last().1.strings("folders"@)
    }
}

pub open spec fn standings(names: Seq<Seq<char>>, on: Seq<Seq<char>>, off: Seq<Seq<char>>) -> Seq<
    FolderView,
> {
    names.map_values(|n: Seq<char>| standing(n, on, off))
}

/// The folders on disk that no entry accounts for, in order of listing.
pub open spec fn loose_folders(
    on: Seq<Seq<char>>,
    off: Seq<Seq<char>>,
    pairs: Seq<(Seq<char>, JsonView)>,
) -> Seq<FolderView> {
    standings(
        only_in(listed(found_names(listed(on), listed(off))), owned(pairs)),
        listed(on),
        listed(off),
    )
}

/// Whether one of the folders is there, in whatever place.
pub open spec fn any_present(folders: Seq<Seq<char>>, disk: Disk) -> bool {
    exists|i: int|
        0 <= i < folders.len() && (disk.status(#[trigger] folders[i]).settled() || disk.status(
            folders[i],
        ) is Collision)
}

/// What is shown of an installed item.
pub open spec fn installed_view(id: Seq<char>, entry: JsonView, disk: Disk) -> JsonView {
    let folders = entry.strings("folders"@);
    object_of(
        seq![
            ("title"@, JsonView::Str(entry_title(entry, id))),
            ("size"@, number_field(entry, "size"@)),
            ("updated"@, number_field(entry, "updated"@)),
            ("modids"@, field_or(entry, "modids"@, JsonView::Array(seq![]))),
            ("require"@, field_or(entry, "require"@, JsonView::Array(seq![]))),
            ("resolved"@, field_or(entry, "resolved"@, JsonView::Object(seq![]))),
            ("folders"@, folders_view(folders, disk)),
            ("present"@, JsonView::Bool(any_present(folders, disk))),
        ],
    )
}

pub open spec fn installed_items(pairs: Seq<(Seq<char>, JsonView)>, disk: Disk) -> Seq<
    (Seq<char>, JsonView),
> {
    pairs.map_values(
        |p: (Seq<char>, JsonView)| (p.0, installed_view(p.0, p.1, disk)),
    )
}

/// Everything that is shown at the start.
pub struct State {
    pub installed: Vec<(String, Json)>,
    pub loose: Vec<Folder>,
    pub missing: Vec<String>,
    pub sorts: Vec<(String, String)>,
    pub periods: Vec<(String, String)>,
    pub tags: Vec<String>,
    pub bisect_ready: bool,
    pub commands: Vec<String>,
}

/// The commands that there are.
pub open spec fn commands() -> Seq<Seq<char>> {
    seq![
        "state"@,
        "enable"@,
        "disable"@,
        "browse"@,
        "detail"@,
        "bisect"@,
        "install"@,
        "remove"@,
        "update"@,
        "prefetch"@,
        "progress"@,
    ]
}

fn command_names() -> (r: Vec<String>)
    ensures
        r.deep_view() == commands(),
{
    let mut r: Vec<String> = Vec::new();
    r.push("state".to_string());
    r.push("enable".to_string());
    r.push("disable".to_string());
    r.push("browse".to_string());
    r.push("detail".to_string());
    r.push("bisect".to_string());
    r.push("install".to_string());
    r.push("remove".to_string());
    r.push("update".to_string());
    r.push("prefetch".to_string());
    r.push("progress".to_string());
    assert(r.deep_view() =~= commands());
    r
}

fn texts_only_in(list: &Vec<String>, other: &Vec<String>) -> (r: Vec<String>)
    ensures
        r.deep_view() == only_in(list.deep_view(), other.deep_view()),
{
    let mut r: Vec<String> = Vec::new();
    let ghost all = list.deep_view();
    let mut i: usize = 0;
    assert(r.deep_view() =~= seq![]);
    while i < list.len()
        invariant
            i <= list.len(),
            all == list.deep_view(),
            r.deep_view() == only_in(all.take(i as int), other.deep_view()),
        decreases list.len() - i,
    {
        assert(all.take(i + 1).drop_last() =~= all.take(i as int));
        if !holds(other, list[i].as_str()) {
            let ghost before = r.deep_view();
            r.push(list[i].clone());
            assert(r.deep_view() =~= before.push(list@[i as int]@));
        }
        i += 1;
    }
    assert(all.take(list.len() as int) =~= all);
    r
}

fn owned_folders(state: &Vec<(String, Json)>) -> (r: Vec<String>)
    ensures
        r.deep_view() == owned(pairs_of(state@)),
{
    let mut r: Vec<String> = Vec::new();
    let ghost all = pairs_of(state@);
    let mut i: usize = 0;
    assert(r.deep_view() =~= seq![]);
    while i < state.len()
        invariant
            i <= state.len(),
            all == pairs_of(state@),
            r.deep_view() == owned(all.take(i as int)),
        decreases state.len() - i,
    {
        assert(all.take(i + 1).drop_last() =~= all.take(i as int));
        let mut more = entry_folders(&state[i].1);
        let ghost before = r.deep_view();
        let ghost added = more.deep_view();
        r.append(&mut more);
        assert(r.deep_view() =~= before + added);
        i += 1;
    }
    assert(all.take(state.len() as int) =~= all);
    r
}

fn is_present(folders: &Vec<String>, disk: &Disk) -> (r: bool)
    ensures
        r == any_present(folders.deep_view(), *disk),
{
    let ghost all = folders.deep_view();
    let mut i: usize = 0;
    while i < folders.len()
        invariant
            i <= folders.len(),
            all == folders.deep_view(),
            forall|k: int|
                0 <= k < i ==> !(disk.status(#[trigger] all[k]).settled() || disk.status(
                    all[k],
                ) is Collision),
        decreases folders.len() - i,
    {
        assert(all[i as int] == folders@[i as int]@);
        let status = disk.folder_status(folders[i].as_str());
        let collision = match status {
            FolderStatus::Collision => true,
            _ => false,
        };
        if collision || status.is_settled() {
            return true;
        }
        i += 1;
    }
    false
}

fn installed_json(id: &str, entry: &Json, disk: &Disk) -> (r: Json)
    ensures
        r.model() == installed_view(id@, entry.model(), *disk),
{
    let folders = entry_folders(entry);
    let title = match entry.get("title") {
        Some(Json::Str(s)) => s.clone(),
        _ => id.to_string(),
    };
    let mut f: Vec<(String, Json)> = Vec::new();
    assert(pairs_of(f@) =~= seq![]);
    add_field(&mut f, "title", Json::Str(title));
    add_field(&mut f, "size", json_number(value_u64(entry, "size")));
    add_field(&mut f, "updated", json_number(value_u64(entry, "updated")));
    add_field(&mut f, "modids", copy_or(entry, "modids", empty_array()));
    add_field(&mut f, "require", copy_or(entry, "require", empty_array()));
    add_field(&mut f, "resolved", copy_or(entry, "resolved", empty_object()));
    add_field(&mut f, "folders", folders_json(&folders, disk));
    add_field(&mut f, "present", Json::Bool(is_present(&folders, disk)));
    let r = json_object(f);
    proof {
        let m = entry.model();
        let fs = m.strings("folders"@);
        assert(pairs_of(f@) =~= seq![
            ("title"@, JsonView::Str(entry_title(m, id@))),
            ("size"@, number_field(m, "size"@)),
            ("updated"@, number_field(m, "updated"@)),
            ("modids"@, field_or(m, "modids"@, JsonView::Array(seq![]))),
            ("require"@, field_or(m, "require"@, JsonView::Array(seq![]))),
            ("resolved"@, field_or(m, "resolved"@, JsonView::Object(seq![]))),
            ("folders"@, folders_view(fs, *disk)),
            ("present"@, JsonView::Bool(any_present(fs, *disk))),
        ]);
    }
    r
}

/// Everything that is shown at the start: the installed items, the folders that
/// none of them accounts for, and the mod ids that are missing. `on` and `off`
/// are the names of the directories in the two places.
pub fn state_internal(
    state: &Vec<(String, Json)>,
    on: &Vec<String>,
    off: &Vec<String>,
    disk: &Disk,
) -> (r: State)
    ensures
        pairs_of(r.installed@) == installed_items(pairs_of(state@), *disk),
        r.loose.deep_view() == loose_folders(on.deep_view(), off.deep_view(), pairs_of(state@)),
        r.missing.deep_view() == missing_of(pairs_of(state@), *disk),
        r.sorts.deep_view() == sorts(),
        r.periods.deep_view() == windows(),
        r.tags.deep_view() == known_tags(),
        r.bisect_ready,
        r.commands.deep_view() == commands(),
{
    let on = list_names(on);
    let off = list_names(off);
    let mut all = crate::text::copy_texts(&on);
    let mut rest = texts_only_in(&off, &on);
    let ghost a = all.deep_view();
    let ghost b = rest.deep_view();
    all.append(&mut rest);
    assert(all.deep_view() =~= found_names(on.deep_view(), off.deep_view()));
    let names = list_names(&all);
    let known = owned_folders(state);
    let loose_names = texts_only_in(&names, &known);
    let mut loose: Vec<Folder> = Vec::new();
    let ghost want = standings(loose_names.deep_view(), on.deep_view(), off.deep_view());
    let mut i: usize = 0;
    while i < loose_names.len()
        invariant
            i <= loose_names.len(),
            want == standings(loose_names.deep_view(), on.deep_view(), off.deep_view()),
            loose.deep_view() == want.take(i as int),
        decreases loose_names.len() - i,
    {
        let ghost before = loose.deep_view();
        let n = loose_names[i].as_str();
        let enabled = holds(&on, n);
        let status = if !enabled {
            "disabled".to_string()
        } else if holds(&off, n) {
            "collision".to_string()
        } else {
            "enabled".to_string()
        };
        let f = Folder { name: loose_names[i].clone(), status, enabled };
        loose.push(f);
        proof {
            assert(loose.deep_view() =~= before.push(f.deep_view()));
            assert(want[i as int] == f.deep_view());
            assert(loose.deep_view() =~= want.take(i + 1));
        }
        i += 1;
    }
    assert(want.take(loose_names.len() as int) =~= want);
    let mut installed: Vec<(String, Json)> = Vec::new();
    let ghost items = installed_items(pairs_of(state@), *disk);
    let mut k: usize = 0;
    assert(pairs_of(installed@) =~= items.take(0));
    while k < state.len()
        invariant
            k <= state.len(),
            items == installed_items(pairs_of(state@), *disk),
            pairs_of(installed@) == items.take(k as int),
        decreases state.len() - k,
    {
        let item = installed_json(state[k].0.as_str(), &state[k].1, disk);
        add_field(&mut installed, state[k].0.as_str(), item);
        proof {
            assert(items[k as int] == (state@[k as int].0@, item.model()));
            assert(pairs_of(installed@) =~= items.take(k + 1));
        }
        k += 1;
    }
    assert(items.take(state.len() as int) =~= items);
    State {
        installed,
        loose,
        missing: missing_modids(state, disk),
        sorts: sort_labels(),
        periods: periods(),
        tags: tag_names(),
        bisect_ready: true,
        commands: command_names(),
    }
}

proof fn lemma_only_in(list: Seq<Seq<char>>, other: Seq<Seq<char>>)
    ensures
        forall|n: Seq<char>|
            #[trigger] only_in(list, other).contains(n) <==> list.contains(n) && !other.contains(n),
    decreases list.len(),
{
    if list.len() > 0 {
        let t = list.drop_last();
        lemma_only_in(t, other);
        let r = only_in(t, other);
        let x = list.last();
        assert forall|n: Seq<char>|
            #[trigger] only_in(list, other).contains(n) <==> list.contains(n) && !other.contains(
                n,
            ) by {
            assert(list.contains(n) <==> t.contains(n) || n == x) by {
                if list.contains(n) {
                    let i = choose|i: int| 0 <= i < list.len() && list[i] == n;
                    if i < t.len() {
                        assert(t[i] == n);
                    }
                }
                if t.contains(n) {
                    let i = choose|i: int| 0 <= i < t.len() && t[i] == n;
                    assert(list[i] == n);
                }
                assert(list[list.len() - 1] == x);
            }
            if !other.contains(x) {
                let p = r.push(x);
                assert(p.contains(n) <==> r.contains(n) || n == x) by {
                    if p.contains(n) {
                        let i = choose|i: int| 0 <= i < p.len() && p[i] == n;
                        if i < r.len() {
                            assert(r[i] == n);
                        }
                    }
                    if r.contains(n) {
                        let i = choose|i: int| 0 <= i < r.len() && r[i] == n;
                        assert(p[i] == n);
                    }
                    assert(p[r.len() as int] == x);
                }
            }
        }
    }
}

/// No folder on disk goes unseen: it belongs to an installed item, or it is shown
/// among the loose ones. And only folders are shown there that are on disk and
/// belong to no item.
pub proof fn law_every_folder_is_seen(
    on: Seq<Seq<char>>,
    off: Seq<Seq<char>>,
    pairs: Seq<(Seq<char>, JsonView)>,
)
    ensures
        forall|n: Seq<char>|
            (on.contains(n) || off.contains(n)) && !owned(pairs).contains(n) ==> #[trigger] loose_folders(
                on,
                off,
                pairs,
            ).contains(standing(n, on, off)),
        forall|i: int|
            0 <= i < loose_folders(on, off, pairs).len() ==> ({
                let f = #[trigger] loose_folders(on, off, pairs)[i];
                &&& on.contains(f.name) || off.contains(f.name)
                &&& !owned(pairs).contains(f.name)
                &&& f == standing(f.name, on, off)
            }),
{
    let a = listed(on);
    let b = listed(off);
    law_listed_keeps_names(on);
    law_listed_keeps_names(off);
    lemma_only_in(b, a);
    let all = found_names(a, b);
    law_listed_keeps_names(all);
    lemma_only_in(listed(all), owned(pairs));
    let names = only_in(listed(all), owned(pairs));
    let loose = loose_folders(on, off, pairs);
    assert forall|n: Seq<char>| #[trigger] standing(n, a, b) == standing(n, on, off) by {}
    assert forall|n: Seq<char>| all.contains(n) <==> on.contains(n) || off.contains(n) by {
        let rest = only_in(b, a);
        if all.contains(n) {
            let i = choose|i: int| 0 <= i < all.len() && all[i] == n;
            if i < a.len() {
                assert(a[i] == n);
            } else {
                assert(rest[i - a.len()] == n);
                assert(rest.contains(n));
            }
        }
        if a.contains(n) {
            let i = choose|i: int| 0 <= i < a.len() && a[i] == n;
            assert(all[i] == n);
        } else if b.contains(n) {
            assert(rest.contains(n));
            let i = choose|i: int| 0 <= i < rest.len() && rest[i] == n;
            assert(all[a.len() + i] == n);
        }
    }
    assert forall|n: Seq<char>|
        (on.contains(n) || off.contains(n)) && !owned(pairs).contains(n) implies #[trigger] loose.contains(
        standing(n, on, off),
    ) by {
        assert(all.contains(n));
        assert(names.contains(n));
        let i = choose|i: int| 0 <= i < names.len() && names[i] == n;
        assert(loose[i] == standing(n, a, b));
    }
    assert forall|i: int| 0 <= i < loose.len() implies ({
        let f = #[trigger] loose[i];
        &&& on.contains(f.name) || off.contains(f.name)
        &&& !owned(pairs).contains(f.name)
        &&& f == standing(f.name, on, off)
    }) by {
        assert(loose[i] == standing(names[i], a, b));
        assert(names.contains(names[i]));
        assert(all.contains(names[i]));
    }
}

} // verus!
