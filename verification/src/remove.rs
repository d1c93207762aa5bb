//! Removing an installed item.
use vstd::prelude::*;

use crate::folder::{check_folder, folder_check, Disk, Done};
use crate::json::{
    find_pair, keys_ascend, law_without_field, lookup, pairs_of, take_out, without_field, Json,
    JsonView,
};
use crate::state::{body_of, entry_folders, state_body};
use crate::text::{holds, is_id, is_workshop_id, opt_view, same, trimmed};
use crate::transaction::{
    all_completed, all_undone, backups_first, is_run, journal_of, keeps_are_free,
    law_rollback_restores, lemma_run_completes, undo_steps, Files, Outcome, Place, Step, StepView,
};
use crate::install_laws::matches_disk;

verus! {

/// The paths of the two places, each with the separator that follows it.
pub struct Dirs {
    pub mods: String,
    pub off: String,
}

/// Why a folder cannot be removed, if it cannot: its name is none that a folder
/// can have, or what stands in a place under its name is no directory.
pub open spec fn remove_fault(folder: Seq<char>, disk: Disk, dirs: Dirs) -> Option<Seq<char>> {
    match folder_check(folder) {
        Err(e) => Some(e),
        Ok(n) => if disk.file_in_mods(n) {
            Some("Từ chối xoá vì không phải thư mục: "@ + dirs.mods@ + n)
        } else if disk.file_in_off(n) {
            Some("Từ chối xoá vì không phải thư mục: "@ + dirs.off@ + n)
        } else {
            None
        },
    }
}

pub open spec fn first_remove_fault(folders: Seq<Seq<char>>, disk: Disk, dirs: Dirs) -> Option<
    Seq<char>,
>
    decreases folders.len(),
{
    if folders.len() == 0 {
        None
    } else {
        match first_remove_fault(folders.drop_last(), disk, dirs) {
            Some(e) => Some(e),
            None => remove_fault(folders.last(), disk, dirs),
        }
    }
}

proof fn lemma_first_remove_fault(folders: Seq<Seq<char>>, disk: Disk, dirs: Dirs, m: int)
    requires
        0 <= m <= folders.len(),
        first_remove_fault(folders.take(m), disk, dirs) is Some,
    ensures
        first_remove_fault(folders, disk, dirs) == first_remove_fault(folders.take(m), disk, dirs),
    decreases folders.len(),
{
    if m == folders.len() {
        assert(folders.take(m) =~= folders);
    } else {
        assert(folders.drop_last().take(m) =~= folders.take(m));
        lemma_first_remove_fault(folders.drop_last(), disk, dirs, m);
    }
}

/// `list` with `x` at its end, unless it is there.
pub open spec fn with_target(list: Seq<(Place, Seq<char>)>, x: (Place, Seq<char>)) -> Seq<
    (Place, Seq<char>),
> {
    if list.contains(x) {
        list
    } else {
        list.push(x)
    }
}

/// What one folder adds to what is removed: where it stands, in `mods` first.
pub open spec fn with_folder(
    list: Seq<(Place, Seq<char>)>,
    n: Seq<char>,
    disk: Disk,
) -> Seq<(Place, Seq<char>)> {
    let a = if disk.in_mods(n) {
        with_target(list, (Place::Mods, n))
    } else {
        list
    };
    if disk.in_off(n) {
        with_target(a, (Place::Off, n))
    } else {
        a
    }
}

/// What is removed with these folders, each once.
pub open spec fn targets(folders: Seq<Seq<char>>, disk: Disk) -> Seq<(Place, Seq<char>)>
    decreases folders.len(),
{
    if folders.len() == 0 {
        seq![]
    } else {
        with_folder(targets(folders.drop_last(), disk), trimmed(folders.last()), disk)
    }
}

/// The steps of a removal: everything is moved aside, and the state file is
/// written.
pub open spec fn remove_steps(list: Seq<(Place, Seq<char>)>) -> Seq<StepView> {
    list.map_values(|x: (Place, Seq<char>)| StepView::Backup { place: x.0, folder: x.1 }).push(
        StepView::Save,
    )
}

#[verifier::ext_equal]
pub struct RemovalView {
    pub steps: Seq<StepView>,
    pub state: Seq<(Seq<char>, JsonView)>,
    pub line: Seq<char>,
}

/// The title of an entry, or the id of its item where it has none.
pub open spec fn entry_title(entry: JsonView, id: Seq<char>) -> Seq<char> {
    match entry.field("title"@) {
        Some(JsonView::Str(s)) => s,
        _ => id,
    }
}

/// How the item `id` is removed; `None` where it is not installed.
pub open spec fn remove_view(
    id: Seq<char>,
    pairs: Seq<(Seq<char>, JsonView)>,
    disk: Disk,
    dirs: Dirs,
) -> Result<Option<RemovalView>, Seq<char>> {
    if !is_id(id) {
        Err("bad id"@)
    } else {
        match lookup(pairs, id) {
            None => Ok(None),
            Some(entry) => {
                let folders = entry.strings("folders"@);
                match first_remove_fault(folders, disk, dirs) {
                    Some(e) => Err(e),
                    None => Ok(
                        Some(
                            RemovalView {
                                steps: remove_steps(targets(folders, disk)),
                                state: without_field(pairs, id),
                                line: "- "@ + entry_title(entry, id) + " đã xoá"@,
                            },
                        ),
                    ),
                }
            },
        }
    }
}

/// How an item is removed: the steps, the text of the state file that the last
/// one writes, and what is told where it was done.
pub struct Removal {
    pub steps: Vec<Step>,
    pub body: Result<String, String>,
    pub line: String,
}

/// What a request to remove an item comes to.
pub enum Remove {
    /// The item is not installed.
    Nothing(Done),
    Plan(Removal),
}

pub open spec fn removal_matches(
    r: Result<Remove, String>,
    v: Result<Option<RemovalView>, Seq<char>>,
    id: Seq<char>,
) -> bool {
    match v {
        Err(e) => r matches Err(x) && x@ == e,
        Ok(None) => r matches Ok(Remove::Nothing(d)) && d.ok && d.log.deep_view() == seq![
            "? "@ + id + " chưa được pzmod cài"@,
        ],
        Ok(Some(p)) => r matches Ok(Remove::Plan(m)) && m.steps.deep_view() == p.steps && body_of(
            p.state,
            m.body,
        ) && m.line@ == p.line,
    }
}

fn add_target(list: &mut Vec<(Place, String)>, place: Place, n: &str)
    ensures
        final(list).deep_view() == with_target(old(list).deep_view(), (place, n@)),
{
    let ghost all = list.deep_view();
    let ghost x = (place, n@);
    let mut i: usize = 0;
    while i < list.len()
        invariant
            i <= list.len(),
            all == list.deep_view(),
            x == (place, n@),
            forall|k: int| 0 <= k < i ==> #[trigger] all[k] != x,
        decreases list.len() - i,
    {
        assert(all[i as int] == (list@[i as int].0, list@[i as int].1@));
        if list[i].0 == place && same(list[i].1.as_str(), n) {
            assert(all.contains(x));
            return;
        }
        i += 1;
    }
    list.push((place, n.to_string()));
    assert(list.deep_view() =~= all.push(x));
}

fn backup_steps(list: &Vec<(Place, String)>) -> (r: Vec<Step>)
    ensures
        r.deep_view() == remove_steps(list.deep_view()),
{
    let mut r: Vec<Step> = Vec::new();
    let ghost all = remove_steps(list.deep_view());
    let mut i: usize = 0;
    while i < list.len()
        invariant
            i <= list.len(),
            all == remove_steps(list.deep_view()),
            r.deep_view() == all.take(i as int),
        decreases list.len() - i,
    {
        let ghost before = r.deep_view();
        let step = Step::Backup { place: list[i].0, folder: list[i].1.clone() };
        r.push(step);
        proof {
            assert(r.deep_view() =~= before.push(step.deep_view()));
            assert(all[i as int] == step.deep_view());
            assert(before.push(step.deep_view()) =~= all.take(i + 1));
        }
        i += 1;
    }
    let ghost before = r.deep_view();
    r.push(Step::Save);
    assert(r.deep_view() =~= before.push(StepView::Save));
    assert(r.deep_view() =~= all);
    r
}

/// Taking a field out leaves a well-formed object well formed.
proof fn lemma_without_field_wf(pairs: Seq<(Seq<char>, JsonView)>, key: Seq<char>)
    requires
        JsonView::Object(pairs).wf(),
    ensures
        JsonView::Object(without_field(pairs, key)).wf(),
{
    law_without_field(pairs, key);
    let out = without_field(pairs, key);
    crate::json::lemma_key_from(pairs, key, 0);
    assert forall|i: int| 0 <= i < out.len() implies (#[trigger] out[i]).1.wf() by {
        match crate::json::key_from(pairs, key, 0) {
            Some(k) => {
                assert(out[i] == pairs[if i < k { i } else { i + 1 }]);
            },
            None => {
                assert(out[i] == pairs[i]);
            },
        }
    }
}

/// How the item `id` is removed, given the entries of the state file and what
/// stands on disk.
pub fn remove_internal(id: &str, state: Vec<(String, Json)>, disk: &Disk, dirs: &Dirs) -> (r: Result<
    Remove,
    String,
>)
    requires
        JsonView::Object(pairs_of(state@)).wf(),
    ensures
        removal_matches(r, remove_view(id@, pairs_of(state@), *disk, *dirs), id@),
{
    if !is_workshop_id(id) {
        return Err("bad id".to_string());
    }
    let entry = match find_pair(&state, id) {
        None => {
            let line = "? ".to_string().concat(id).concat(" chưa được pzmod cài");
            let mut log: Vec<String> = Vec::new();
            log.push(line);
            assert(log.deep_view() =~= seq![line@]);
            return Ok(Remove::Nothing(Done { ok: true, log }));
        },
        Some(e) => e.copy(),
    };
    let folders = entry_folders(&entry);
    let ghost all = folders.deep_view();
    let mut list: Vec<(Place, String)> = Vec::new();
    let mut i: usize = 0;
    assert(list.deep_view() =~= seq![]);
    while i < folders.len()
        invariant
            i <= folders.len(),
            all == folders.deep_view(),
            is_id(id@),
            lookup(pairs_of(state@), id@) == Some(entry.model()),
            all == entry.model().strings("folders"@),
            first_remove_fault(all.take(i as int), *disk, *dirs) is None,
            list.deep_view() == targets(all.take(i as int), *disk),
        decreases folders.len() - i,
    {
        proof {
            assert(all.take(i + 1).drop_last() =~= all.take(i as int));
            assert(all.take(i + 1).last() == folders@[i as int]@);
            if first_remove_fault(all.take(i + 1), *disk, *dirs) is Some {
                lemma_first_remove_fault(all, *disk, *dirs, i + 1);
            }
        }
        match check_folder(folders[i].as_str()) {
            Err(e) => {
                return Err(e);
            },
            Ok(n) => {
                if holds(&disk.mods_files, n.as_str()) {
                    return Err(
                        "Từ chối xoá vì không phải thư mục: ".to_string().concat(
                            dirs.mods.as_str(),
                        ).concat(n.as_str()),
                    );
                }
                if holds(&disk.off_files, n.as_str()) {
                    return Err(
                        "Từ chối xoá vì không phải thư mục: ".to_string().concat(
                            dirs.off.as_str(),
                        ).concat(n.as_str()),
                    );
                }
                if holds(&disk.mods, n.as_str()) {
                    add_target(&mut list, Place::Mods, n.as_str());
                }
                if holds(&disk.off, n.as_str()) {
                    add_target(&mut list, Place::Off, n.as_str());
                }
            },
        }
        i += 1;
    }
    assert(all.take(folders.len() as int) =~= all);
    let title = match entry.get("title") {
        Some(Json::Str(s)) => s.clone(),
        _ => id.to_string(),
    };
    let line = "- ".to_string().concat(title.as_str()).concat(" đã xoá");
    let steps = backup_steps(&list);
    proof {
        lemma_without_field_wf(pairs_of(state@), id@);
    }
    let mut state = state;
    take_out(&mut state, id);
    let body = state_body(state);
    Ok(Remove::Plan(Removal { steps, body, line }))
}

/// What is told of a removal that was done.
pub open spec fn removal_lines(
    line: Seq<char>,
    transaction: Seq<char>,
    leftover: Option<Seq<char>>,
) -> Seq<Seq<char>> {
    match leftover {
        None => seq![line],
        Some(e) => seq![
            line,
            "! Đã gỡ state nhưng không dọn được "@ + transaction + ": "@ + e,
        ],
    }
}

/// What is told of a removal that was done, where `leftover` tells why what was
/// moved aside could not be cleaned up, if it could not.
pub fn remove_done(removal: &Removal, transaction: &str, leftover: Option<&str>) -> (r: Done)
    ensures
        r.ok == (leftover is None),
        r.log.deep_view() == removal_lines(removal.line@, transaction@, opt_view(leftover)),
{
    let mut log: Vec<String> = Vec::new();
    log.push(removal.line.clone());
    match leftover {
        None => {
            assert(log.deep_view() =~= seq![removal.line@]);
            Done { ok: true, log }
        },
        Some(e) => {
            let line = "! Đã gỡ state nhưng không dọn được ".to_string().concat(
                transaction,
            ).concat(": ").concat(e);
            log.push(line);
            assert(log.deep_view() =~= seq![removal.line@, line@]);
            Done { ok: false, log }
        },
    }
}

proof fn lemma_with_target(list: Seq<(Place, Seq<char>)>, x: (Place, Seq<char>))
    ensures
        forall|y: (Place, Seq<char>)|
            #[trigger] with_target(list, x).contains(y) <==> list.contains(y) || y == x,
{
    let r = with_target(list, x);
    assert forall|y: (Place, Seq<char>)| #[trigger] r.contains(y) <==> list.contains(y) || y == x by {
        if r.contains(y) {
            let i = choose|i: int| 0 <= i < r.len() && r[i] == y;
            if i < list.len() {
                assert(list[i] == y);
            }
        }
        if list.contains(y) {
            let i = choose|i: int| 0 <= i < list.len() && list[i] == y;
            assert(r[i] == y);
        }
        if y == x && !list.contains(x) {
            assert(r[list.len() as int] == y);
        }
    }
}

proof fn lemma_targets(folders: Seq<Seq<char>>, disk: Disk)
    ensures
        forall|p: Place, n: Seq<char>|
            #[trigger] targets(folders, disk).contains((p, n)) <==> (exists|i: int|
                0 <= i < folders.len() && trimmed(#[trigger] folders[i]) == n) && (match p {
                Place::Mods => disk.in_mods(n),
                Place::Off => disk.in_off(n),
            }),
    decreases folders.len(),
{
    if folders.len() > 0 {
        let t = folders.drop_last();
        lemma_targets(t, disk);
        let x = trimmed(folders.last());
        let l0 = targets(t, disk);
        lemma_with_target(l0, (Place::Mods, x));
        let l1 = if disk.in_mods(x) {
            with_target(l0, (Place::Mods, x))
        } else {
            l0
        };
        lemma_with_target(l1, (Place::Off, x));
        assert forall|p: Place, n: Seq<char>| #[trigger] targets(folders, disk).contains((p, n)) <==> (
        exists|i: int| 0 <= i < folders.len() && trimmed(#[trigger] folders[i]) == n) && (match p {
            Place::Mods => disk.in_mods(n),
            Place::Off => disk.in_off(n),
        }) by {
            assert(l1.contains((p, n)) <==> l0.contains((p, n)) || (disk.in_mods(x) && (p, n) == (
                Place::Mods,
                x,
            )));
            if exists|i: int| 0 <= i < t.len() && trimmed(#[trigger] t[i]) == n {
                let i = choose|i: int| 0 <= i < t.len() && trimmed(#[trigger] t[i]) == n;
                assert(trimmed(folders[i]) == n);
            }
            if exists|i: int| 0 <= i < folders.len() && trimmed(#[trigger] folders[i]) == n {
                let i = choose|i: int| 0 <= i < folders.len() && trimmed(#[trigger] folders[i]) == n;
                if i < t.len() {
                    assert(trimmed(t[i]) == n);
                }
            }
            assert(trimmed(folders[folders.len() - 1]) == x);
        }
    }
}

/// Whatever step of a removal fails, undoing it gives both places back as they
/// were.
pub proof fn law_failed_remove_changes_nothing<C>(
    id: Seq<char>,
    pairs: Seq<(Seq<char>, JsonView)>,
    disk: Disk,
    dirs: Dirs,
    run: Seq<Files<C>>,
    outcomes: Seq<Outcome>,
    source: spec_fn(Seq<char>) -> C,
)
    requires
        remove_view(id, pairs, disk, dirs) matches Ok(Some(_)),
        run.len() > 0,
        is_run(run, remove_view(id, pairs, disk, dirs)->Ok_0->Some_0.steps, outcomes, source),
    ensures
        ({
            let steps = remove_view(id, pairs, disk, dirs)->Ok_0->Some_0.steps;
            let g = all_undone(run.last(), undo_steps(journal_of(steps, outcomes)));
            g.mods == run[0].mods && g.off == run[0].off
        }),
{
    let steps = remove_view(id, pairs, disk, dirs)->Ok_0->Some_0.steps;
    assert forall|i: int| 0 <= i < steps.len() implies #[trigger] steps[i] is Backup
        || steps[i] is Save by {}
    assert(backups_first(steps));
    assert(keeps_are_free(run, steps));
    law_rollback_restores(run, steps, outcomes, source);
}

proof fn lemma_backups_only<C>(
    f: Files<C>,
    list: Seq<(Place, Seq<char>)>,
    source: spec_fn(Seq<char>) -> C,
)
    ensures
        ({
            let steps = list.map_values(
                |x: (Place, Seq<char>)| StepView::Backup { place: x.0, folder: x.1 },
            );
            let g = all_completed(f, steps, source);
            &&& forall|p: Place, n: Seq<char>|
                #[trigger] g.at(p).contains_key(n) <==> f.at(p).contains_key(n) && !list.contains(
                    (p, n),
                )
            &&& forall|p: Place, n: Seq<char>|
                #[trigger] g.at(p).contains_key(n) ==> g.at(p)[n] == f.at(p)[n]
        }),
    decreases list.len(),
{
    let steps = list.map_values(
        |x: (Place, Seq<char>)| StepView::Backup { place: x.0, folder: x.1 },
    );
    if list.len() > 0 {
        let t = list.drop_last();
        let x = list.last();
        let ts = t.map_values(|x: (Place, Seq<char>)| StepView::Backup { place: x.0, folder: x.1 });
        assert(steps.drop_last() =~= ts);
        lemma_backups_only(f, t, source);
        let h = all_completed(f, ts, source);
        let g = all_completed(f, steps, source);
        assert(steps.last() == (StepView::Backup { place: x.0, folder: x.1 }));
        assert forall|y: (Place, Seq<char>)| #[trigger] list.contains(y) <==> t.contains(y) || y
            == x by {
            if list.contains(y) {
                let i = choose|i: int| 0 <= i < list.len() && list[i] == y;
                if i < t.len() {
                    assert(t[i] == y);
                }
            }
            if t.contains(y) {
                let i = choose|i: int| 0 <= i < t.len() && t[i] == y;
                assert(list[i] == y);
            }
            if y == x {
                assert(list[list.len() - 1] == y);
            }
        }
        assert forall|p: Place, n: Seq<char>| #[trigger] g.at(p).contains_key(n) <==> f.at(
            p,
        ).contains_key(n) && !list.contains((p, n)) by {
            assert(h.at(p).contains_key(n) <==> f.at(p).contains_key(n) && !t.contains((p, n)));
            assert(list.contains((p, n)) <==> t.contains((p, n)) || (p, n) == x);
        }
        assert forall|p: Place, n: Seq<char>| #[trigger] g.at(p).contains_key(n) implies g.at(p)[n]
            == f.at(p)[n] by {
            assert(h.at(p).contains_key(n));
        }
    } else {
        assert forall|p: Place, n: Seq<char>| !list.contains((p, n)) by {}
        assert(steps =~= seq![]);
    }
}

/// A removal that was done: the item's folders stand in neither place, enabled
/// or disabled, every other folder is as it was, and the state file has every
/// entry but that of the item.
pub proof fn law_remove_takes_only_its_folders<C>(
    id: Seq<char>,
    pairs: Seq<(Seq<char>, JsonView)>,
    disk: Disk,
    dirs: Dirs,
    run: Seq<Files<C>>,
    outcomes: Seq<Outcome>,
    source: spec_fn(Seq<char>) -> C,
)
    requires
        keys_ascend(pairs),
        remove_view(id, pairs, disk, dirs) matches Ok(Some(_)),
        run.len() > 0,
        matches_disk(run[0], disk),
        is_run(run, remove_view(id, pairs, disk, dirs)->Ok_0->Some_0.steps, outcomes, source),
        outcomes.len() == remove_view(id, pairs, disk, dirs)->Ok_0->Some_0.steps.len(),
        forall|i: int| 0 <= i < outcomes.len() ==> #[trigger] outcomes[i] != Outcome::Failed,
    ensures
        ({
            let names = lookup(pairs, id)->Some_0.strings("folders"@).map_values(
                |f: Seq<char>| trimmed(f),
            );
            let state = remove_view(id, pairs, disk, dirs)->Ok_0->Some_0.state;
            let g = run.last();
            &&& forall|n: Seq<char>|
                #[trigger] names.contains(n) ==> !g.mods.contains_key(n) && !g.off.contains_key(n)
            &&& forall|p: Place, n: Seq<char>|
                !names.contains(n) ==> (#[trigger] g.at(p).contains_key(n) <==> run[0].at(
                    p,
                ).contains_key(n)) && (g.at(p).contains_key(n) ==> g.at(p)[n] == run[0].at(p)[n])
            &&& lookup(state, id) is None
            &&& forall|other: Seq<char>|
                other != id ==> #[trigger] lookup(state, other) == lookup(pairs, other)
        }),
{
    let v = remove_view(id, pairs, disk, dirs)->Ok_0->Some_0;
    let folders = lookup(pairs, id)->Some_0.strings("folders"@);
    let names = folders.map_values(|f: Seq<char>| trimmed(f));
    let list = targets(folders, disk);
    let f0 = run[0];
    let g = run.last();
    law_without_field(pairs, id);
    lemma_targets(folders, disk);
    lemma_run_completes(run, v.steps, outcomes, source, outcomes.len() as int);
    assert(v.steps.take(outcomes.len() as int) =~= v.steps);
    let steps = list.map_values(
        |x: (Place, Seq<char>)| StepView::Backup { place: x.0, folder: x.1 },
    );
    assert(v.steps.drop_last() =~= steps);
    lemma_backups_only(f0, list, source);
    assert(g == all_completed(f0, steps, source));
    assert forall|n: Seq<char>| #[trigger] names.contains(n) <==> (exists|i: int|
        0 <= i < folders.len() && trimmed(#[trigger] folders[i]) == n) by {
        if names.contains(n) {
            let i = choose|i: int| 0 <= i < names.len() && names[i] == n;
            assert(trimmed(folders[i]) == n);
        }
        if exists|i: int| 0 <= i < folders.len() && trimmed(#[trigger] folders[i]) == n {
            let i = choose|i: int| 0 <= i < folders.len() && trimmed(#[trigger] folders[i]) == n;
            assert(names[i] == n);
        }
    }
    assert forall|n: Seq<char>| #[trigger] names.contains(n) implies !g.mods.contains_key(n)
        && !g.off.contains_key(n) by {
        assert(g.at(Place::Mods).contains_key(n) <==> f0.at(Place::Mods).contains_key(n)
            && !list.contains((Place::Mods, n)));
        assert(g.at(Place::Off).contains_key(n) <==> f0.at(Place::Off).contains_key(n)
            && !list.contains((Place::Off, n)));
        assert(f0.mods.contains_key(n) <==> disk.in_mods(n));
        assert(f0.off.contains_key(n) <==> disk.in_off(n));
    }
    assert forall|p: Place, n: Seq<char>| !names.contains(n) implies (#[trigger] g.at(
        p,
    ).contains_key(n) <==> f0.at(p).contains_key(n)) && (g.at(p).contains_key(n) ==> g.at(p)[n]
        == f0.at(p)[n]) by {
        assert(!list.contains((p, n)));
    }
}

} // verus!
