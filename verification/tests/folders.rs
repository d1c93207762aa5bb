use pzmod::folder::{check_folder, move_folder, rename_error, Direction, Disk, FolderStatus};
use pzmod::folder::folder_status_at;
use pzmod::names::{list_names, list_order};

fn texts(list: &[&str]) -> Vec<String> {
    list.iter().map(|s| s.to_string()).collect()
}

/// The two places, as directories in memory.
struct Places {
    mods: Vec<String>,
    off: Vec<String>,
}

impl Places {
    fn toggle(&mut self, folder: &str, direction: Direction) -> Result<Vec<String>, String> {
        let name = match check_folder(folder) {
            Ok(n) => n,
            Err(e) => return Err(e),
        };
        let (from, to) = match direction {
            Direction::Enable => (&mut self.off, &mut self.mods),
            Direction::Disable => (&mut self.mods, &mut self.off),
        };
        let step = move_folder(folder, from.contains(&name), to.contains(&name), direction)?;
        if step.rename {
            from.retain(|n| *n != step.folder);
            to.push(step.folder.clone());
        }
        assert!(step.done.ok);
        Ok(step.done.log)
    }
}

#[test]
fn folder_names_are_sandboxed() {
    assert!(check_folder("ZBPopFix").is_ok());
    assert!(check_folder("  ZBPopFix  ").is_ok());
    for bad in [
        "",
        ".",
        "..",
        "../evil",
        r"..\evil",
        r"C:\Windows",
        "a/b",
        "CON",
        "nul",
        "Com1.txt",
        "LPT9",
        "ab\0cd",
        "a\u{2215}b",
        "a\u{FF3C}b",
    ] {
        assert!(check_folder(bad).is_err(), "phải chặn: {bad:?}");
    }
    // COM10 is not a device — only COM1..COM9 are.
    assert!(check_folder("COM10").is_ok());
}

#[test]
fn move_folder_rejects_names_from_a_hand_edited_state_file() {
    let mut places = Places { mods: Vec::new(), off: Vec::new() };
    assert!(places.toggle(r"..\evil", Direction::Disable).is_err());
    assert!(places.toggle("sub/ModA", Direction::Disable).is_err());
    assert!(move_folder(r"..\evil", true, false, Direction::Disable).is_err());
    assert!(move_folder("sub/ModA", true, false, Direction::Disable).is_err());
}

#[test]
fn toggle_moves_folder_and_is_idempotent() {
    let mut places = Places { mods: texts(&["ModA"]), off: Vec::new() };
    places.toggle("ModA", Direction::Disable).unwrap();
    assert_eq!(places.off, ["ModA"]);
    assert!(places.mods.is_empty());

    // second call must not fail and must not create a second copy
    places.toggle("ModA", Direction::Disable).unwrap();
    assert!(places.mods.is_empty());
    assert_eq!(places.off, ["ModA"]);

    places.toggle("ModA", Direction::Enable).unwrap();
    assert_eq!(places.mods, ["ModA"]);
    assert!(places.off.is_empty());

    // both sides present = refuse, never delete
    places.off.push("ModA".to_string());
    assert!(places.toggle("ModA", Direction::Disable).is_err());
    assert_eq!(places.mods, ["ModA"]);
    assert_eq!(places.off, ["ModA"]);
}

#[test]
fn a_move_tells_what_it_did() {
    let step = move_folder(" ModA ", true, false, Direction::Disable).unwrap_or_else(|e| panic!("{e}"));
    assert_eq!(step.folder, "ModA");
    assert!(step.rename);
    assert_eq!(step.done.log, ["Đã tắt 'ModA'."]);
    assert_eq!(
        rename_error(&step, Direction::Disable, "denied"),
        "Không tắt được 'ModA': denied"
    );

    let step = move_folder("ModA", false, true, Direction::Enable).unwrap_or_else(|e| panic!("{e}"));
    assert!(!step.rename);
    assert_eq!(step.done.log, ["'ModA' đã bật sẵn."]);

    match move_folder("ModA", false, false, Direction::Enable) {
        Err(e) => assert_eq!(e, "Không tìm thấy thư mục mod 'ModA' trong mods/ hoặc mods_off/"),
        Ok(_) => panic!("nothing to move"),
    }
    match move_folder("ModA", true, true, Direction::Enable) {
        Err(e) => assert_eq!(
            e,
            "'ModA' có ở cả mods và mods_off — dọn tay một bên trước, pzmod không đoán bản nào đúng."
        ),
        Ok(_) => panic!("it stands in both places"),
    }
}

#[test]
fn refused_names_are_shown_as_they_are() {
    match check_folder("a\nb/c") {
        Err(e) => assert!(e.contains(r#""a\nb/c""#), "{e}"),
        Ok(_) => panic!("a separator must be refused"),
    }
}

#[test]
fn a_folder_stands_in_one_place_or_both() {
    assert_eq!(folder_status_at("A", true, false).label(), "enabled");
    assert_eq!(folder_status_at("A", false, true).label(), "disabled");
    assert_eq!(folder_status_at("A", true, true).label(), "collision");
    assert_eq!(folder_status_at("A", false, false).label(), "missing");
    assert_eq!(folder_status_at("../A", true, false).label(), "invalid");
    assert!(folder_status_at("A", true, false).is_settled());
    assert!(!folder_status_at("A", true, true).is_settled());
    let disk = Disk {
        mods: texts(&["A"]),
        off: texts(&["B"]),
        mods_files: Vec::new(),
        off_files: Vec::new(),
    };
    assert!(matches!(disk.folder_status("A"), FolderStatus::Enabled));
    assert!(matches!(disk.folder_status("B"), FolderStatus::Disabled));
    assert!(matches!(disk.folder_status("C"), FolderStatus::Missing));
}

#[test]
fn names_are_listed_without_regard_to_case() {
    let names = texts(&["beta", "Alpha", "BETA", "ÉCLAIR", "éclair", "alpha"]);
    assert_eq!(
        list_names(&names),
        ["Alpha", "alpha", "beta", "BETA", "ÉCLAIR", "éclair"]
    );
    assert_eq!(list_order(&names), [1, 5, 0, 2, 3, 4]);
}
