//! When items are installed and removed, when they are not, and what is told of it.
use vstd::prelude::*;

use crate::flow_laws::lemma_between;
use crate::folder::{folder_check, Disk};
use crate::install::{
    drop_repeats, first_foreign, first_old_fault, folders_of, foreign_fault, install_lines,
    install_view, kept_lines, old_fault, olds_of, previous_entry,
};
use crate::json::{lookup, JsonView};
use crate::modinfo::{all_infos, metadata_of, roots_of, SourceView};
use crate::names::{law_listed_keeps_names, listed};
use crate::remove::{
    entry_title, first_remove_fault, remove_fault, remove_view, Dirs,
};
use crate::text::{contains, decimal, is_id};
use crate::transaction::{
    change_name, failure, is_there, undo_decision, Made, UndoAction, UndoFacts, UndoView,
};

verus! {

/// A folder cannot be removed: its name can be none of a folder, or a file has its name.
pub open spec fn is_stuck(folder: Seq<char>, disk: Disk) -> bool {
    match folder_check(folder) {
        Ok(n) => disk.mods_files.deep_view().contains(n) || disk.off_files.deep_view().contains(n),
        Err(_) => true,
    }
}

proof fn lemma_remove_fault(folders: Seq<Seq<char>>, disk: Disk, dirs: Dirs)
    ensures
        first_remove_fault(folders, disk, dirs) is Some <==> exists|k: int|
            0 <= k < folders.len() && is_stuck(#[trigger] folders[k], disk),
    decreases folders.len(),
{
    if folders.len() > 0 {
        let t = folders.drop_last();
        lemma_remove_fault(t, disk, dirs);
        assert(folders[folders.len() - 1] == folders.last());
        assert(remove_fault(folders.last(), disk, dirs) is Some <==> is_stuck(
            folders.last(),
            disk,
        ));
        if exists|k: int| 0 <= k < t.len() && is_stuck(#[trigger] t[k], disk) {
            let k = choose|k: int| 0 <= k < t.len() && is_stuck(#[trigger] t[k], disk);
            assert(folders[k] == t[k]);
        }
        if exists|k: int| 0 <= k < folders.len() && is_stuck(#[trigger] folders[k], disk) {
            let k = choose|k: int| 0 <= k < folders.len() && is_stuck(#[trigger] folders[k], disk);
            if k < t.len() {
                assert(t[k] == folders[k]);
            }
        }
    }
}

/// An item is removed exactly where it is installed and each of its folders can be. What
/// is no id is refused, and nothing is done where the item is not installed. What was
/// done is told by the title.
pub proof fn law_an_installed_item_is_removed(
    id: Seq<char>,
    pairs: Seq<(Seq<char>, JsonView)>,
    disk: Disk,
    dirs: Dirs,
)
    ensures
        ({
            let r = remove_view(id, pairs, disk, dirs);
            match lookup(pairs, id) {
                None => {
                    &&& r is Err <==> !is_id(id)
                    &&& is_id(id) ==> (r matches Ok(x) && x is None)
                },
                Some(entry) => {
                    let folders = entry.strings("folders"@);
                    &&& r is Err <==> !is_id(id) || exists|k: int|
                        0 <= k < folders.len() && is_stuck(#[trigger] folders[k], disk)
                    &&& (r matches Ok(x) ==> (x matches Some(p) && contains(
                        p.line,
                        entry_title(entry, id),
                    )))
                },
            }
        }),
{
    if let Some(entry) = lookup(pairs, id) {
        lemma_remove_fault(entry.strings("folders"@), disk, dirs);
        lemma_between("- "@, entry_title(entry, id), " đã xoá"@);
    }
}

/// An entry is called by its title, or by the id of its item where it has none.
pub proof fn law_an_entry_is_called_by_its_title(entry: JsonView, id: Seq<char>)
    ensures
        (entry.field("title"@) matches Some(JsonView::Str(s)) ==> entry_title(entry, id) == s),
        !(entry.field("title"@) matches Some(JsonView::Str(_))) ==> entry_title(entry, id) == id,
{
}

proof fn lemma_repeats(list: Seq<Seq<char>>)
    ensures
        forall|x: Seq<char>| #[trigger] drop_repeats(list).contains(x) <==> list.contains(x),
        list.len() > 0 ==> drop_repeats(list).len() > 0 && drop_repeats(list).last() == list.last(),
    decreases list.len(),
{
    if list.len() > 0 {
        let t = list.drop_last();
        lemma_repeats(t);
        let r = drop_repeats(t);
        let all = drop_repeats(list);
        assert(list[list.len() - 1] == list.last());
        assert forall|x: Seq<char>| #[trigger] all.contains(x) <==> list.contains(x) by {
            assert(r.contains(x) <==> t.contains(x));
            if all.contains(x) {
                let i = choose|i: int| 0 <= i < all.len() && all[i] == x;
                if i < r.len() {
                    assert(r[i] == x);
                    let j = choose|j: int| 0 <= j < t.len() && t[j] == x;
                    assert(list[j] == x);
                }
            }
            if list.contains(x) {
                let j = choose|j: int| 0 <= j < list.len() && list[j] == x;
                if j < t.len() {
                    assert(t[j] == x);
                    let i = choose|i: int| 0 <= i < r.len() && r[i] == x;
                    assert(all[i] == x);
                } else {
                    assert(all[all.len() - 1] == x);
                }
            }
        }
    }
}

/// The folders that an install replaces are those of the entry, all of them.
pub proof fn law_the_old_folders_are_those_of_the_entry(entry: JsonView, folder: Seq<char>)
    ensures
        olds_of(entry).contains(folder) <==> entry.strings("folders"@).contains(folder),
{
    let all = entry.strings("folders"@);
    law_listed_keeps_names(all);
    lemma_repeats(listed(all));
}

/// A folder of the entry stands in the way of an install: its name can be none of a
/// folder, it is in both places, or a file has its name.
pub open spec fn is_in_the_way(folder: Seq<char>, disk: Disk) -> bool {
    match folder_check(folder) {
        Ok(n) => {
            ||| disk.mods.deep_view().contains(n) && disk.off.deep_view().contains(n)
            ||| disk.mods_files.deep_view().contains(n)
            ||| disk.off_files.deep_view().contains(n)
        },
        Err(_) => true,
    }
}

/// Something has the name of a new folder, and is not of the entry.
pub open spec fn is_foreign(folder: Seq<char>, entry: JsonView, disk: Disk) -> bool {
    !entry.strings("folders"@).contains(folder) && (disk.mods.deep_view().contains(folder)
        || disk.off.deep_view().contains(folder) || disk.mods_files.deep_view().contains(folder)
        || disk.off_files.deep_view().contains(folder))
}

proof fn lemma_old_fault(olds: Seq<Seq<char>>, disk: Disk)
    ensures
        first_old_fault(olds, disk) is Some <==> exists|k: int|
            0 <= k < olds.len() && is_in_the_way(#[trigger] olds[k], disk),
    decreases olds.len(),
{
    if olds.len() > 0 {
        let t = olds.drop_last();
        lemma_old_fault(t, disk);
        assert(olds[olds.len() - 1] == olds.last());
        assert(old_fault(olds.last(), disk) is Some <==> is_in_the_way(olds.last(), disk));
        if exists|k: int| 0 <= k < t.len() && is_in_the_way(#[trigger] t[k], disk) {
            let k = choose|k: int| 0 <= k < t.len() && is_in_the_way(#[trigger] t[k], disk);
            assert(olds[k] == t[k]);
        }
        if exists|k: int| 0 <= k < olds.len() && is_in_the_way(#[trigger] olds[k], disk) {
            let k = choose|k: int| 0 <= k < olds.len() && is_in_the_way(#[trigger] olds[k], disk);
            if k < t.len() {
                assert(t[k] == olds[k]);
            }
        }
    }
}

proof fn lemma_foreign(news: Seq<Seq<char>>, entry: JsonView, disk: Disk)
    ensures
        first_foreign(news, olds_of(entry), disk) is Some <==> exists|k: int|
            0 <= k < news.len() && is_foreign(#[trigger] news[k], entry, disk),
    decreases news.len(),
{
    if news.len() > 0 {
        let t = news.drop_last();
        lemma_foreign(t, entry, disk);
        let last = news.last();
        law_the_old_folders_are_those_of_the_entry(entry, last);
        assert(news[news.len() - 1] == last);
        assert(foreign_fault(last, olds_of(entry), disk) is Some <==> is_foreign(
            last,
            entry,
            disk,
        ));
        if exists|k: int| 0 <= k < t.len() && is_foreign(#[trigger] t[k], entry, disk) {
            let k = choose|k: int| 0 <= k < t.len() && is_foreign(#[trigger] t[k], entry, disk);
            assert(news[k] == t[k]);
        }
        if exists|k: int| 0 <= k < news.len() && is_foreign(#[trigger] news[k], entry, disk) {
            let k = choose|k: int| 0 <= k < news.len() && is_foreign(#[trigger] news[k], entry, disk);
            if k < t.len() {
                assert(t[k] == news[k]);
            }
        }
    }
}

/// What an item has so far is its entry; nothing where it has none.
pub proof fn law_what_an_item_has_so_far(pairs: Seq<(Seq<char>, JsonView)>, id: Seq<char>)
    ensures
        (lookup(pairs, id) matches Some(entry) ==> previous_entry(pairs, id) == entry),
        lookup(pairs, id) is None ==> previous_entry(pairs, id).strings("folders"@).len() == 0,
{
}

/// An item is installed exactly where it can be read and has a mod folder, no folder that
/// it has so far stands in the way, no new one would replace what is not its own, and
/// each of its files can be read.
pub proof fn law_an_item_is_installed_where_it_can_be(
    id: Seq<char>,
    detail: JsonView,
    source: SourceView,
    pairs: Seq<(Seq<char>, JsonView)>,
    disk: Disk,
)
    ensures
        match roots_of(source).roots {
            Err(_) => install_view(id, detail, source, pairs, disk) is Err,
            Ok(roots) => {
                let entry = previous_entry(pairs, id);
                let olds = entry.strings("folders"@);
                install_view(id, detail, source, pairs, disk) is Ok <==> {
                    &&& roots.len() > 0
                    &&& forall|k: int| 0 <= k < olds.len() ==> !is_in_the_way(#[trigger] olds[k], disk)
                    &&& forall|k: int|
                        0 <= k < roots.len() ==> !is_foreign(
                            (#[trigger] roots[k]).folder,
                            entry,
                            disk,
                        )
                    &&& metadata_of(all_infos(roots)) is Ok
                }
            },
        },
{
    if let Ok(roots) = roots_of(source).roots {
        let entry = previous_entry(pairs, id);
        let olds = entry.strings("folders"@);
        let o = olds_of(entry);
        let news = folders_of(roots);
        lemma_old_fault(o, disk);
        lemma_foreign(news, entry, disk);
        assert((exists|k: int| 0 <= k < o.len() && is_in_the_way(#[trigger] o[k], disk)) <==> (
        exists|k: int| 0 <= k < olds.len() && is_in_the_way(#[trigger] olds[k], disk))) by {
            if exists|k: int| 0 <= k < o.len() && is_in_the_way(#[trigger] o[k], disk) {
                let k = choose|k: int| 0 <= k < o.len() && is_in_the_way(#[trigger] o[k], disk);
                law_the_old_folders_are_those_of_the_entry(entry, o[k]);
                assert(o.contains(o[k]));
                let j = choose|j: int| 0 <= j < olds.len() && olds[j] == o[k];
                assert(is_in_the_way(olds[j], disk));
            }
            if exists|k: int| 0 <= k < olds.len() && is_in_the_way(#[trigger] olds[k], disk) {
                let k = choose|k: int| 0 <= k < olds.len() && is_in_the_way(#[trigger] olds[k], disk);
                law_the_old_folders_are_those_of_the_entry(entry, olds[k]);
                assert(olds.contains(olds[k]));
                let j = choose|j: int| 0 <= j < o.len() && o[j] == olds[k];
                assert(is_in_the_way(o[j], disk));
            }
        }
        assert((exists|k: int| 0 <= k < news.len() && is_foreign(#[trigger] news[k], entry, disk)) <==> (
        exists|k: int|
            0 <= k < roots.len() && is_foreign((#[trigger] roots[k]).folder, entry, disk))) by {
            if exists|k: int| 0 <= k < news.len() && is_foreign(#[trigger] news[k], entry, disk) {
                let k = choose|k: int|
                    0 <= k < news.len() && is_foreign(#[trigger] news[k], entry, disk);
                assert(roots[k].folder == news[k]);
            }
            if exists|k: int|
                0 <= k < roots.len() && is_foreign((#[trigger] roots[k]).folder, entry, disk) {
                let k = choose|k: int|
                    0 <= k < roots.len() && is_foreign((#[trigger] roots[k]).folder, entry, disk);
                assert(news[k] == roots[k].folder);
            }
        }
    }
}

/// What is told of an install: each folder that was kept in `mods_off`, by a warning; and
/// in the end the title, how many folders there are and how large it is.
pub proof fn law_an_install_is_told(
    kept: Seq<Seq<char>>,
    title: Seq<char>,
    count: nat,
    size: Seq<char>,
    k: int,
)
    ensures
        install_lines(kept, title, count, size).len() == kept.len() + 1,
        0 <= k < kept.len() ==> contains(install_lines(kept, title, count, size)[k], kept[k])
            && install_lines(kept, title, count, size)[k][0] == '!',
        contains(install_lines(kept, title, count, size).last(), title),
        contains(install_lines(kept, title, count, size).last(), decimal(count)),
        contains(install_lines(kept, title, count, size).last(), size),
{
    let all = install_lines(kept, title, count, size);
    if 0 <= k < kept.len() {
        reveal_strlit("! ");
        assert(all[k] == kept_lines(kept)[k]);
        lemma_between("! "@, kept[k], " không còn trong bản mới, đã chuyển sang mods_off"@);
    }
    let n = decimal(count);
    let last = "+ "@ + title + " -> "@ + n + " thư mục ("@ + size + " KB)"@;
    lemma_between("+ "@, title, " -> "@ + n + " thư mục ("@ + size + " KB)"@);
    assert("+ "@ + title + (" -> "@ + n + " thư mục ("@ + size + " KB)"@) =~= last);
    lemma_between("+ "@ + title + " -> "@, n, " thư mục ("@ + size + " KB)"@);
    assert("+ "@ + title + " -> "@ + n + (" thư mục ("@ + size + " KB)"@) =~= last);
    lemma_between("+ "@ + title + " -> "@ + n + " thư mục ("@, size, " KB)"@);
}

/// Twenty names are tried for the directory of a change: one that is taken leads to the
/// next, and anything else ends it.
pub proof fn law_twenty_names_are_tried(attempt: usize, made: Made, r: Result<bool, String>)
    requires
        is_there(attempt, made, r),
    ensures
        r == Ok::<bool, String>(true) <==> made is New,
        r == Ok::<bool, String>(false) <==> made is Taken && attempt < 19,
        (made matches Made::Failed(why) ==> (r matches Err(e) && contains(e@, why@))),
{
    if let Made::Failed(why) = made {
        lemma_between("Không tạo được transaction: "@, why@, seq![]);
        assert("Không tạo được transaction: "@ + why@ + seq![] =~= "Không tạo được transaction: "@
            + why@);
    }
}

/// The directories of two attempts at one change have different names.
pub proof fn law_every_attempt_has_its_name(
    label: Seq<char>,
    process: Seq<char>,
    moment: Seq<char>,
    a: usize,
    b: usize,
)
    requires
        change_name(label, process, moment, a) == change_name(label, process, moment, b),
    ensures
        a == b,
{
    let head = ".pzmod-"@ + label + "-"@ + process + "-"@ + moment + "-"@;
    let n = head.len() as int;
    let x = change_name(label, process, moment, a);
    let y = change_name(label, process, moment, b);
    assert(x.skip(n) =~= decimal(a as nat));
    assert(y.skip(n) =~= decimal(b as nat));
    crate::text_laws::law_decimals_differ(a as nat, b as nat);
}

/// Undoing overwrites nothing and removes nothing but directories: a folder that was put
/// somewhere is removed where it is a directory, one that was moved aside is moved back
/// where its place is free, what is gone already is left, and all else stops it.
pub proof fn law_undoing_overwrites_nothing(undo: UndoView, facts: UndoFacts, target: Seq<char>)
    ensures
        ({
            let r = undo_decision(undo, facts, target);
            let removes = undo is Remove;
            &&& r == Ok::<UndoAction, Seq<char>>(UndoAction::RemoveTree) <==> removes
                && facts.target_is_dir
            &&& r == Ok::<UndoAction, Seq<char>>(UndoAction::PutBack) <==> !removes
                && facts.backup_is_dir && !facts.target_exists
            &&& r is Err <==> (removes && !facts.target_is_dir && facts.target_exists) || (!removes
                && facts.backup_is_dir && facts.target_exists)
            &&& (r matches Err(e) ==> contains(e, target))
        }),
{
    lemma_between("Đích rollback không còn là thư mục: "@, target, seq![]);
    assert("Đích rollback không còn là thư mục: "@ + target + seq![]
        =~= "Đích rollback không còn là thư mục: "@ + target);
    lemma_between("Đích rollback đã tồn tại: "@, target, seq![]);
    assert("Đích rollback đã tồn tại: "@ + target + seq![] =~= "Đích rollback đã tồn tại: "@
        + target);
}

/// What is said of a change that failed has the reason; and where it could not be undone
/// either, why, and where the copies are.
pub proof fn law_a_failed_change_is_told(
    error: Seq<char>,
    rollback: Option<Seq<char>>,
    transaction: Seq<char>,
)
    ensures
        rollback is None ==> failure(error, rollback, transaction) == error,
        (rollback matches Some(why) ==> contains(failure(error, rollback, transaction), error)
            && contains(failure(error, rollback, transaction), why) && contains(
            failure(error, rollback, transaction),
            transaction,
        )),
{
    if let Some(why) = rollback {
        let all = failure(error, rollback, transaction);
        let mid = "; KHÔNG KHÔI PHỤC ĐƯỢC, bản sao còn tại "@;
        lemma_between(seq![], error, mid + transaction + " ("@ + why + ")"@);
        assert(seq![] + error + (mid + transaction + " ("@ + why + ")"@) =~= all);
        lemma_between(error + mid, transaction, " ("@ + why + ")"@);
        assert(error + mid + transaction + (" ("@ + why + ")"@) =~= all);
        lemma_between(error + mid + transaction + " ("@, why, ")"@);
    }
}

} // verus!
