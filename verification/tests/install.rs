use std::collections::BTreeMap;

use pzmod::flow::{install_one_with_source, OneStep};
use pzmod::folder::Disk;
use pzmod::install::{install_from_source, install_log};
use pzmod::json::{read_json, value_string, value_u64, Json};
use pzmod::modinfo::{
    collect_modinfo, mod_metadata, mod_roots, normalize_required, parse_modinfo, source_metadata,
    source_provides_modid, Entry, Node, Source,
};
use pzmod::remove::{remove_done, remove_internal, Dirs, Remove};
use pzmod::save::{write_managed_state, Cleanup, SaveNext, SaveStep};
use pzmod::state::managed_state;
use pzmod::transaction::{
    failure_text, rollback_files, transaction_dir, transaction_name, undo_step, Journal, Made,
    Outcome, Place, Step, Undo, UndoAction, UndoFacts,
};

fn dir(name: &str, entries: Vec<Entry>) -> Entry {
    Entry { name: name.to_string(), unicode: true, path: name.to_string(), node: Node::Dir(entries) }
}

fn info(text: &str) -> Entry {
    Entry {
        name: "mod.info".to_string(),
        unicode: true,
        path: "mod.info".to_string(),
        node: Node::File(text.as_bytes().to_vec()),
    }
}

fn source(mods: Vec<Entry>) -> Source {
    Source { path: "item".to_string(), mods: Some(Node::Dir(mods)) }
}

fn json(text: &str) -> Json {
    read_json(text).unwrap_or_else(|e| panic!("{e}"))
}

type Folders = BTreeMap<String, String>;

/// The user folder, in memory: each mod folder holds one text.
#[derive(Clone, PartialEq, Debug)]
struct User {
    mods: Folders,
    off: Folders,
    blockers: Vec<String>,
    state: Option<String>,
}

/// Where a change is prepared.
#[derive(Default)]
struct Transaction {
    new: Folders,
    old_mods: Folders,
    old_off: Folders,
}

impl User {
    fn disk(&self) -> Disk {
        Disk {
            mods: self.mods.keys().cloned().collect(),
            off: self.off.keys().cloned().collect(),
            mods_files: self.blockers.clone(),
            off_files: Vec::new(),
        }
    }

    fn at(&mut self, place: Place) -> &mut Folders {
        match place {
            Place::Mods => &mut self.mods,
            Place::Off => &mut self.off,
        }
    }

    /// Makes the steps of a change; the one at `failing` fails.
    fn run(
        &mut self,
        steps: &[Step],
        body: &Result<String, String>,
        fresh: &Folders,
        failing: usize,
    ) -> Result<(), String> {
        let mut t = Transaction::default();
        let mut journal = Journal::new();
        for (i, step) in steps.iter().enumerate() {
            let outcome = if i == failing {
                Outcome::Failed
            } else {
                self.make(step, body, fresh, &mut t)
            };
            journal.note(step, outcome);
            if outcome == Outcome::Failed {
                let rollback = self.undo(&journal, &mut t).err();
                return Err(failure_text("hỏng", rollback.as_deref(), "T"));
            }
        }
        Ok(())
    }

    fn make(
        &mut self,
        step: &Step,
        body: &Result<String, String>,
        fresh: &Folders,
        t: &mut Transaction,
    ) -> Outcome {
        match step {
            Step::Stage { folder, path } => {
                t.new.insert(folder.clone(), fresh[path].clone());
            }
            Step::Backup { place, folder } => match self.at(*place).remove(folder) {
                None => return Outcome::Absent,
                Some(text) => {
                    match place {
                        Place::Mods => t.old_mods.insert(folder.clone(), text),
                        Place::Off => t.old_off.insert(folder.clone(), text),
                    };
                }
            },
            Step::Put { place, folder } => {
                let text = t.new.remove(folder).unwrap();
                assert!(self.at(*place).insert(folder.clone(), text).is_none());
            }
            Step::Keep { from, folder } => {
                let text = match from {
                    Place::Mods => t.old_mods[folder].clone(),
                    Place::Off => t.old_off[folder].clone(),
                };
                assert!(self.off.insert(folder.clone(), text).is_none());
            }
            Step::Save => match body {
                Ok(text) => self.state = Some(text.clone()),
                Err(_) => return Outcome::Failed,
            },
        }
        Outcome::Done
    }

    fn undo(&mut self, journal: &Journal, t: &mut Transaction) -> Result<(), String> {
        for undo in rollback_files(journal) {
            let (place, folder) = match &undo {
                Undo::Remove { place, folder } => (*place, folder.clone()),
                Undo::Restore { place, folder } => (*place, folder.clone()),
            };
            let there = self.at(place).contains_key(&folder);
            let saved = match place {
                Place::Mods => &mut t.old_mods,
                Place::Off => &mut t.old_off,
            };
            let facts = UndoFacts {
                target_is_dir: there,
                target_exists: there,
                backup_is_dir: saved.contains_key(&folder),
            };
            match undo_step(&undo, &facts, &folder)? {
                UndoAction::RemoveTree => {
                    self.at(place).remove(&folder);
                }
                UndoAction::PutBack => {
                    let text = saved.remove(&folder).unwrap();
                    self.at(place).insert(folder, text);
                }
                UndoAction::Nothing => {}
            }
        }
        Ok(())
    }
}

fn folders(list: &[(&str, &str)]) -> Folders {
    list.iter().map(|(k, v)| (k.to_string(), v.to_string())).collect()
}

fn old_user() -> User {
    User {
        mods: folders(&[("Retired", "retired"), ("Other", "other")]),
        off: folders(&[("Keep", "old")]),
        blockers: Vec::new(),
        state: Some(
            r#"{"10": {"title": "Old", "updated": 1, "size": 1,
                "folders": ["Keep", "Retired"], "modids": ["Old"], "require": []}}"#
                .to_string(),
        ),
    }
}

fn new_source() -> Source {
    source(vec![dir(
        "Keep",
        vec![
            dir("42.20", vec![info("id=keepid\nrequire=/OtherID\n")]),
            info("id=KeepID\nrequire=\\BaseID\n"),
        ],
    )])
}

fn new_detail() -> Json {
    json(r#"{"title": "New", "time_updated": 2, "file_size": 100, "consumer_app_id": 108600}"#)
}

fn dirs() -> Dirs {
    Dirs { mods: "U/mods/".to_string(), off: "U/mods_off/".to_string() }
}

#[test]
fn install_preserves_disabled_and_retired_folders() {
    let mut user = old_user();
    let state = managed_state(user.state.as_deref());
    let install = install_from_source("10", &new_detail(), &new_source(), state, &user.disk());
    assert!(install.warnings.is_empty());
    let plan = install.plan.unwrap_or_else(|e| panic!("{e}"));
    let fresh = folders(&[("Keep", "new")]);
    user.run(&plan.steps, &plan.body, &fresh, usize::MAX).unwrap();
    let log = install_log(&plan, &new_detail(), "0.1", "T", None);

    assert_eq!(user.off["Keep"], "new");
    assert!(!user.mods.contains_key("Keep"));
    assert_eq!(user.off["Retired"], "retired");
    assert_eq!(user.mods["Other"], "other");
    assert!(log.iter().any(|line| line.contains("Retired không còn")));
    let state = json(user.state.as_deref().unwrap());
    let entry = state.get("10").unwrap();
    assert_eq!(entry.strings("folders"), ["Keep"]);
    assert_eq!(entry.strings("modids"), ["KeepID"]);
    assert_eq!(entry.strings("require"), ["BaseID", "OtherID"]);

    user.blockers.push("Blocker".to_string());
    user.state = Some(
        r#"{"10": {"title": "New", "folders": ["Keep", "Blocker"]}}"#.to_string(),
    );
    let state = managed_state(user.state.as_deref());
    assert!(remove_internal("10", state, &user.disk(), &dirs()).is_err());
    user.blockers.clear();
    let state = managed_state(user.state.as_deref());
    match remove_internal("10", state, &user.disk(), &dirs()).unwrap_or_else(|e| panic!("{e}")) {
        Remove::Nothing(_) => panic!("it is installed"),
        Remove::Plan(removal) => {
            user.run(&removal.steps, &removal.body, &Folders::new(), usize::MAX).unwrap();
            let done = remove_done(&removal, "T", None);
            assert!(done.ok);
            assert_eq!(done.log, ["- New đã xoá"]);
        }
    }
    assert!(!user.off.contains_key("Keep"));
    assert!(managed_state(user.state.as_deref()).is_empty());
    assert!(user.off.contains_key("Retired"), "retired folder is loose, not deleted");
}

#[test]
fn a_failed_install_changes_nothing() {
    let before = old_user();
    for failing in 0..20 {
        let mut user = before.clone();
        let state = managed_state(user.state.as_deref());
        let install = install_from_source("10", &new_detail(), &new_source(), state, &user.disk());
        let plan = install.plan.unwrap_or_else(|e| panic!("{e}"));
        if failing >= plan.steps.len() {
            return;
        }
        let fresh = folders(&[("Keep", "new")]);
        assert_eq!(user.run(&plan.steps, &plan.body, &fresh, failing), Err("hỏng".to_string()));
        assert_eq!(user, before, "step {failing}");
    }
    panic!("there are more steps than expected");
}

#[test]
fn a_failed_removal_changes_nothing() {
    let before = old_user();
    for failing in 0..3 {
        let mut user = before.clone();
        let state = managed_state(user.state.as_deref());
        match remove_internal("10", state, &user.disk(), &dirs()).unwrap_or_else(|e| panic!("{e}")) {
            Remove::Nothing(_) => panic!("it is installed"),
            Remove::Plan(removal) => {
                assert_eq!(removal.steps.len(), 3);
                let r = user.run(&removal.steps, &removal.body, &Folders::new(), failing);
                assert_eq!(r, Err("hỏng".to_string()));
                assert_eq!(user, before, "step {failing}");
            }
        }
    }
}

#[test]
fn an_installed_item_is_the_latest() {
    let mut user = old_user();
    let state = managed_state(user.state.as_deref());
    let install = install_from_source("10", &new_detail(), &new_source(), state, &user.disk());
    let plan = install.plan.unwrap_or_else(|e| panic!("{e}"));
    let fresh = folders(&[("Keep", "new")]);
    user.run(&plan.steps, &plan.body, &fresh, usize::MAX).unwrap();
    let state = managed_state(user.state.as_deref());
    match install_one_with_source("10", &new_detail(), false, &state, &user.disk(), true, true) {
        Ok(OneStep::Latest(line)) => assert_eq!(line, "= New đã là bản mới nhất"),
        _ => panic!("it is the latest"),
    }
    match install_one_with_source("10", &new_detail(), true, &state, &user.disk(), true, true) {
        Ok(OneStep::Install) => {}
        _ => panic!("it is forced"),
    }
    match install_one_with_source("10", &new_detail(), true, &state, &user.disk(), false, true) {
        Err(e) => assert_eq!(e, "steamcmd không tải được mục này"),
        _ => panic!("it is not there"),
    }
    match install_one_with_source("10", &new_detail(), true, &state, &user.disk(), false, false) {
        Ok(OneStep::Download { force, label }) => {
            assert!(force);
            assert_eq!(label, Some("New".to_string()));
        }
        _ => panic!("it has to be downloaded"),
    }
    let foreign = json(r#"{"consumer_app_id": "4000"}"#);
    match install_one_with_source("11", &foreign, false, &state, &user.disk(), true, true) {
        Err(e) => assert_eq!(e, "thuộc app 4000, không phải Project Zomboid"),
        _ => panic!("it is for another game"),
    }
}

#[test]
fn an_install_tells_what_it_did() {
    let user = old_user();
    let state = managed_state(user.state.as_deref());
    let install = install_from_source("10", &new_detail(), &new_source(), state, &user.disk());
    let plan = install.plan.unwrap_or_else(|e| panic!("{e}"));
    assert_eq!(
        install_log(&plan, &new_detail(), "0.1", "T", Some("denied")),
        [
            "! Retired không còn trong bản mới, đã chuyển sang mods_off",
            "+ New -> 1 thư mục (0.1 KB)",
            "! Không dọn được transaction T: denied",
        ]
    );
    let body = json(&plan.body.unwrap());
    let entry = body.get("10").unwrap();
    assert_eq!(value_string(entry, "title"), "New");
    assert_eq!(value_u64(entry, "updated"), 2);
    assert_eq!(value_u64(entry, "size"), 100);
}

#[test]
fn an_install_is_refused_before_anything_is_touched() {
    let user = old_user();
    let empty = || managed_state(None);
    let refusal = |source: &Source, state, disk: &Disk| {
        match install_from_source("10", &new_detail(), source, state, disk).plan {
            Err(e) => e,
            Ok(_) => panic!("it must be refused"),
        }
    };
    let none = Source { path: "item".to_string(), mods: None };
    assert_eq!(
        refusal(&none, empty(), &user.disk()),
        "không tìm thấy mods/<ModName>/mod.info"
    );
    assert_eq!(
        refusal(&new_source(), empty(), &user.disk()),
        "thư mục Keep đã tồn tại và không thuộc bản cài này"
    );
    let mut both = user.clone();
    both.mods.insert("Keep".to_string(), "twice".to_string());
    assert_eq!(
        refusal(&new_source(), managed_state(user.state.as_deref()), &both.disk()),
        "Keep có ở cả mods và mods_off; giữ nguyên để người dùng xử lý"
    );
    let mut blocked = user.clone();
    blocked.blockers.push("Retired".to_string());
    blocked.mods.remove("Retired");
    assert_eq!(
        refusal(&new_source(), managed_state(user.state.as_deref()), &blocked.disk()),
        "Retired trùng với một file; giữ nguyên"
    );
    let dirty = managed_state(Some(r#"{"10": {"folders": ["../x"]}}"#));
    assert!(refusal(&new_source(), dirty, &user.disk()).contains("../x"));
}

#[test]
fn only_installed_items_are_removed() {
    let user = old_user();
    let state = || managed_state(user.state.as_deref());
    match remove_internal("11", state(), &user.disk(), &dirs()) {
        Ok(Remove::Nothing(done)) => {
            assert!(done.ok);
            assert_eq!(done.log, ["? 11 chưa được pzmod cài"]);
        }
        _ => panic!("it is not installed"),
    }
    match remove_internal("x", state(), &user.disk(), &dirs()) {
        Err(e) => assert_eq!(e, "bad id"),
        Ok(_) => panic!("no id"),
    }
    let mut blocked = user.clone();
    blocked.blockers.push("Retired".to_string());
    match remove_internal("10", state(), &blocked.disk(), &dirs()) {
        Err(e) => assert_eq!(e, "Từ chối xoá vì không phải thư mục: U/mods/Retired"),
        Ok(_) => panic!("it is a file"),
    }
    match remove_internal("10", state(), &user.disk(), &dirs()) {
        Ok(Remove::Plan(removal)) => {
            let done = remove_done(&removal, "T", Some("denied"));
            assert!(!done.ok);
            assert_eq!(
                done.log,
                ["- Old đã xoá", "! Đã gỡ state nhưng không dọn được T: denied"]
            );
        }
        _ => panic!("it is installed"),
    }
}

#[test]
fn mod_roots_skips_invalid_folder_without_aborting_the_item() {
    let item = source(vec![
        dir("Bad\u{FF0F}Mod", vec![info("id=BadMod\n")]),
        dir("GoodMod", vec![info("id=GoodMod\n")]),
    ]);
    let found = mod_roots(&item);
    assert_eq!(found.warnings.len(), 1);
    let roots = found.roots.unwrap_or_else(|e| panic!("{e}"));
    let names: Vec<&str> = roots.iter().map(|root| root.folder.as_str()).collect();
    assert_eq!(names, ["GoodMod"]);
    let meta = mod_metadata(&roots).unwrap_or_else(|e| panic!("{e}"));
    assert_eq!(meta.modids, ["GoodMod"]);
    assert!(meta.required.is_empty());
}

#[test]
fn mod_info_files_are_read_line_by_line() {
    let parsed = parse_modinfo(&"\u{feff}name=A\nid = First \r\nbroken\n#id=No\nid=Second=x\n=y\n".as_bytes().to_vec());
    assert_eq!(parsed.get("name").map(|s| s.as_str()), Some("A"));
    assert_eq!(parsed.get("id").map(|s| s.as_str()), Some("Second=x"));
    assert_eq!(parsed.entries.len(), 2);
    assert!(!parsed.has("broken"));
    // bytes that are no text are replaced
    let parsed = parse_modinfo(&b"id=a\xffb\n".to_vec());
    assert_eq!(parsed.get("id").map(|s| s.as_str()), Some("a\u{FFFD}b"));
    assert_eq!(normalize_required(" \\\\Base "), "Base");
    assert_eq!(normalize_required("/Base"), "Base");
}

#[test]
fn mod_info_files_are_found_in_every_depth() {
    let tree = Node::Dir(vec![
        dir("b", vec![dir("c", vec![info("id=deep\n")])]),
        info("id=top\n"),
    ]);
    match collect_modinfo("root", &tree) {
        Ok(found) => assert_eq!(found.len(), 2),
        Err(e) => panic!("{e}"),
    }
    match collect_modinfo("root", &Node::Broken("denied".to_string())) {
        Ok(_) => panic!("it cannot be read"),
        Err(e) => assert!(e.contains("root") && e.contains("denied"), "{e}"),
    }
}

#[test]
fn an_item_provides_the_mod_ids_of_its_folders() {
    let item = source(vec![dir("A", vec![info("id=NeatUI\nrequire=Base\n")])]);
    assert!(source_provides_modid(&item, "NeatUI").found.unwrap());
    assert!(!source_provides_modid(&item, "neatui").found.unwrap());
    assert!(!source_provides_modid(&item, "Base").found.unwrap());
    assert!(!source_provides_modid(&item, "").found.unwrap());
    let scan = source_metadata(&item);
    let meta = scan.metadata.unwrap_or_else(|e| panic!("{e}"));
    assert_eq!(meta.modids, ["NeatUI"]);
    assert_eq!(meta.required, ["Base"]);
}

#[test]
fn every_mod_info_gives_its_own_mod_id() {
    let item = source(vec![
        dir("A", vec![info("id=foo\n")]),
        dir("B", vec![info("id=Foo\n")]),
    ]);
    assert!(source_provides_modid(&item, "foo").found.unwrap());
    assert!(source_provides_modid(&item, "Foo").found.unwrap());
    assert!(!source_provides_modid(&item, "FOO").found.unwrap());
    match source_metadata(&item).metadata {
        Ok(meta) => assert_eq!(meta.modids, ["foo"]),
        Err(e) => panic!("{e}"),
    }
    let broken = source(vec![dir("A", vec![Entry {
        name: "mod.info".to_string(),
        unicode: true,
        path: "mod.info".to_string(),
        node: Node::Unread("denied".to_string()),
    }])]);
    assert!(source_provides_modid(&broken, "foo").found.is_err());
}

/// Replaces a state file; the steps in `failing` fail.
fn save(had_state: bool, failing: &[SaveStep]) -> (Option<&'static str>, bool, Result<(), String>) {
    let mut file = if had_state { Some("old") } else { None };
    let mut temp = None;
    let mut backup = None;
    let mut step = SaveStep::WriteTemp;
    loop {
        let error = if failing.contains(&step) { Some("denied") } else { None };
        if error.is_none() {
            match step {
                SaveStep::WriteTemp => temp = Some("new"),
                SaveStep::SetAside => backup = file.take(),
                SaveStep::Publish => file = temp.take(),
                SaveStep::PutBack => file = backup.take(),
            }
        }
        match write_managed_state(step, had_state, error, "full", "B") {
            SaveNext::Go(next) => step = next,
            SaveNext::Finish(cleanup, result) => {
                if cleanup == Cleanup::DropBackup {
                    backup = None;
                }
                return (file, backup.is_some(), result);
            }
        }
    }
}

#[test]
fn the_state_file_is_replaced_or_kept() {
    assert_eq!(save(true, &[]), (Some("new"), false, Ok(())));
    assert_eq!(save(false, &[]), (Some("new"), false, Ok(())));
    assert_eq!(
        save(true, &[SaveStep::WriteTemp]),
        (Some("old"), false, Err("Không ghi được state tạm: denied".to_string()))
    );
    assert_eq!(
        save(true, &[SaveStep::SetAside]),
        (Some("old"), false, Err("Không backup được .pzmod.json: denied".to_string()))
    );
    assert_eq!(
        save(true, &[SaveStep::Publish]),
        (Some("old"), false, Err("Không lưu được .pzmod.json: full".to_string()))
    );
    assert_eq!(
        save(false, &[SaveStep::Publish]),
        (None, false, Err("Không lưu được .pzmod.json: denied".to_string()))
    );
    assert_eq!(
        save(true, &[SaveStep::Publish, SaveStep::PutBack]),
        (
            None,
            true,
            Err("Không lưu được state (full) và không khôi phục được B (denied)".to_string())
        )
    );
}

#[test]
fn nothing_is_overwritten_when_a_change_is_undone() {
    let remove = Undo::Remove { place: Place::Mods, folder: "A".to_string() };
    let restore = Undo::Restore { place: Place::Mods, folder: "A".to_string() };
    let facts = |dir, there, saved| UndoFacts {
        target_is_dir: dir,
        target_exists: there,
        backup_is_dir: saved,
    };
    assert!(undo_step(&remove, &facts(true, true, false), "P") == Ok(UndoAction::RemoveTree));
    assert!(undo_step(&remove, &facts(false, false, false), "P") == Ok(UndoAction::Nothing));
    assert!(
        undo_step(&remove, &facts(false, true, false), "P")
            == Err("Đích rollback không còn là thư mục: P".to_string())
    );
    assert!(undo_step(&restore, &facts(false, false, true), "P") == Ok(UndoAction::PutBack));
    assert!(undo_step(&restore, &facts(true, true, false), "P") == Ok(UndoAction::Nothing));
    assert!(
        undo_step(&restore, &facts(true, true, true), "P")
            == Err("Đích rollback đã tồn tại: P".to_string())
    );
    assert_eq!(
        failure_text("hỏng", Some("đầy"), "T"),
        "hỏng; KHÔNG KHÔI PHỤC ĐƯỢC, bản sao còn tại T (đầy)"
    );
}

#[test]
fn a_change_has_a_directory_of_its_own() {
    assert_eq!(transaction_name("install-10", "7", "99", 3), ".pzmod-install-10-7-99-3");
    assert_eq!(transaction_dir(0, Made::New), Ok(true));
    assert_eq!(transaction_dir(18, Made::Taken), Ok(false));
    assert_eq!(
        transaction_dir(19, Made::Taken),
        Err("Không tạo được tên transaction duy nhất".to_string())
    );
    assert_eq!(
        transaction_dir(0, Made::Failed("denied".to_string())),
        Err("Không tạo được transaction: denied".to_string())
    );
}
