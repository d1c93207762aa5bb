use pzmod::bisect::{
    bisect, bisect_mark_internal, bisect_reply, bisect_start_internal, bisect_state_internal,
    bisect_stop_internal, bisect_view_internal, installed_folders_rs, BisectOp, MarkPlan, Move,
    StopPlan,
};
use pzmod::folder::{check_folder, Direction};
use pzmod::json::{read_json, value_u64, Json};

fn texts(list: &[&str]) -> Vec<String> {
    list.iter().map(|s| s.to_string()).collect()
}

/// The two places and the session file, in memory.
struct User {
    mods: Vec<String>,
    off: Vec<String>,
    file: Option<String>,
}

impl User {
    fn new(mods: &[&str], off: &[&str]) -> User {
        User { mods: texts(mods), off: texts(off), file: None }
    }

    fn make(&mut self, moves: Vec<Move>) {
        for m in moves {
            let name = check_folder(&m.folder).unwrap();
            let (from, to) = match m.direction {
                Direction::Enable => (&mut self.off, &mut self.mods),
                Direction::Disable => (&mut self.mods, &mut self.off),
            };
            if from.contains(&name) {
                assert!(!to.contains(&name));
                from.retain(|n| *n != name);
                to.push(name);
            }
        }
        self.mods.sort();
        self.off.sort();
    }

    fn start(&mut self, names: Option<&[&str]>) -> Result<Json, String> {
        let names = names.map(texts);
        let plan = bisect_start_internal(names, self.file.as_deref(), &self.mods, &self.off)?;
        self.make(plan.moves);
        let body = plan.body?;
        let document = read_json(&body)?;
        self.file = Some(body);
        Ok(document)
    }

    fn mark(&mut self, bad: bool) -> Result<Option<Json>, String> {
        match bisect_mark_internal(self.file.as_deref(), bad)? {
            MarkPlan::Finished => Ok(None),
            MarkPlan::Plan(plan) => {
                self.make(plan.moves);
                let body = plan.body?;
                let document = read_json(&body)?;
                self.file = Some(body);
                Ok(Some(document))
            }
        }
    }

    fn stop(&mut self) -> Result<Option<Vec<String>>, String> {
        match bisect_stop_internal(self.file.as_deref(), &self.mods, &self.off)? {
            StopPlan::NotRunning => Ok(None),
            StopPlan::Restore(step) => {
                self.make(step.moves);
                self.file = None;
                Ok(Some(step.restored))
            }
        }
    }
}

#[test]
fn test_bisect_start_refusal_when_active() {
    let mut user = User::new(&["ModA", "ModB"], &[]);
    let st = user.start(None).unwrap_or_else(|e| panic!("{e}"));
    assert_eq!(value_u64(&st, "round"), 1);

    // Calling start again while active must fail
    assert!(user.start(None).is_err());

    user.stop().unwrap();
}

#[test]
fn test_bisect_stop_refusal_on_corrupted_state() {
    let mut user = User::new(&["ModA", "ModB"], &[]);
    user.file = Some(r#"{"round": 1, "candidates": ["ModA", "ModB"]}"#.to_string());

    // Must refuse to stop and not touch the folders
    assert!(user.stop().is_err());
    assert_eq!(user.mods, ["ModA", "ModB"]);
}

#[test]
fn test_bisect_stop_preserves_newly_installed_mod() {
    let mut user = User::new(&["ModA", "ModB"], &["ModC"]);
    user.start(None).unwrap_or_else(|e| panic!("{e}"));

    // Install new mod mid-way
    user.mods.push("NewMod".to_string());

    user.stop().unwrap();
    assert_eq!(user.mods, ["ModA", "ModB", "NewMod"]);
    assert_eq!(user.off, ["ModC"]);
}

#[test]
fn test_bisect_hand_edited_dirty_name_in_state_fails_cleanly_without_partial_move() {
    let mut user = User::new(&["ModA", "ModB"], &[]);
    user.file = Some(
        r#"{
            "round": 1,
            "candidates": ["ModA", "../evil_traversal"],
            "current_tested": ["ModA"],
            "current_untested": ["../evil_traversal"],
            "original_enabled": ["ModA", "ModB"],
            "suspect": null,
            "done": false
        }"#
        .to_string(),
    );

    // Must fail upfront and not move ModA
    assert!(user.mark(false).is_err());
    assert_eq!(user.mods, ["ModA", "ModB"], "ModA không được dời dở dang khi gặp tên bẩn");
}

/// Marks every round truthfully until the search is over.
fn hunt(user: &mut User, culprit: &str) -> String {
    for _ in 0..20 {
        let bad = user.mods.contains(&culprit.to_string());
        match user.mark(bad).unwrap_or_else(|e| panic!("{e}")) {
            None => panic!("it was over before"),
            Some(document) => {
                if document.flag("done") {
                    return match document.get("suspect") {
                        Some(Json::Str(s)) => s.clone(),
                        _ => panic!("no suspect"),
                    };
                }
            }
        }
    }
    panic!("it never ends");
}

#[test]
fn true_answers_lead_to_the_culprit() {
    for culprit in ["A", "B", "C", "D", "E"] {
        let mut user = User::new(&["A", "B", "C", "D", "E"], &["F"]);
        user.start(None).unwrap_or_else(|e| panic!("{e}"));
        assert_eq!(hunt(&mut user, culprit), culprit);
        // another answer changes nothing
        assert!(user.mark(true).unwrap_or_else(|e| panic!("{e}")).is_none());
        assert_eq!(
            user.stop().unwrap(),
            Some(texts(&["A", "B", "C", "D", "E"]))
        );
        assert_eq!(user.mods, ["A", "B", "C", "D", "E"]);
        assert_eq!(user.off, ["F"]);
    }
}

#[test]
fn stopping_restores_what_was_disabled_among_chosen_names() {
    let mut user = User::new(&["A", "B"], &["C", "D"]);
    user.start(Some(&["A", "C", "D"])).unwrap_or_else(|e| panic!("{e}"));
    user.mark(false).unwrap_or_else(|e| panic!("{e}"));
    user.stop().unwrap();
    assert_eq!(user.mods, ["A", "B"]);
    assert_eq!(user.off, ["C", "D"]);
}

#[test]
fn a_search_takes_no_more_answers_than_halving_does() {
    let names = ["A", "B", "C", "D", "E", "F", "G", "H", "I"];
    for n in 2..=names.len() {
        let mut limit = 0;
        while 1 << limit < n {
            limit += 1;
        }
        for culprit in &names[..n] {
            let mut user = User::new(&names[..n], &[]);
            user.start(None).unwrap_or_else(|e| panic!("{e}"));
            let mut document = None;
            for _ in 0..limit {
                let bad = user.mods.contains(&culprit.to_string());
                if let Some(next) = user.mark(bad).unwrap_or_else(|e| panic!("{e}")) {
                    document = Some(next);
                }
            }
            let document = document.unwrap();
            assert!(document.flag("done"), "{n} candidates, {culprit}");
            assert!(matches!(document.get("suspect"), Some(Json::Str(s)) if s == culprit));
        }
    }
}

#[test]
fn a_folder_outside_the_search_may_have_any_name() {
    let odd = ["A", "B", "Bad\u{FF0F}Mod", " Untrimmed"];
    let mut user = User::new(&odd, &["C"]);
    user.start(Some(&["A", "B"])).unwrap_or_else(|e| panic!("{e}"));
    user.mark(true).unwrap_or_else(|e| panic!("{e}"));
    user.stop().unwrap();
    user.mods.sort();
    let mut before = texts(&odd);
    before.sort();
    assert_eq!(user.mods, before);
    assert_eq!(user.off, ["C"]);
}

#[test]
fn a_folder_that_cannot_be_moved_is_no_candidate() {
    let mut user = User::new(&["A", " B"], &[]);
    match user.start(None) {
        Err(e) => assert_eq!(e, "Không tìm thấy thư mục mod 'B' trong mods/ hoặc mods_off/"),
        Ok(_) => panic!("it cannot be moved"),
    }
    assert_eq!(user.mods, ["A", " B"]);
    assert!(user.file.is_none());
}

#[test]
fn a_name_that_is_refused_keeps_a_session_from_being_stopped() {
    for recorded in [
        "\"original_enabled\": [\"A\", \"../x\"]",
        "\"original_enabled\": [\"A\"], \"candidates\": [\"../x\"]",
        "\"original_enabled\": [\"A\"], \"current_tested\": [\"../x\"]",
        "\"original_enabled\": [\"A\"], \"current_untested\": [\"../x\"]",
    ] {
        let mut user = User::new(&[], &["A"]);
        user.file = Some(format!("{{{recorded}}}"));
        assert!(user.stop().is_err(), "{recorded}");
        assert_eq!(user.off, ["A"]);
    }
    // A folder that stands there under such a name is in the way only where it moves.
    let mut user = User::new(&["B\u{FF0F}C"], &["A"]);
    user.file = Some("{\"original_enabled\": [\"A\", \"B\u{FF0F}C\"]}".to_string());
    assert_eq!(user.stop().unwrap(), Some(texts(&["A", "B\u{FF0F}C"])));
    assert_eq!(user.mods, ["A", "B\u{FF0F}C"]);
    let mut user = User::new(&["A"], &["B\u{FF0F}C"]);
    user.file = Some("{\"original_enabled\": [\"B\u{FF0F}C\"]}".to_string());
    assert!(user.stop().is_err());
    assert_eq!(user.off, ["B\u{FF0F}C"]);
}

#[test]
fn there_is_nothing_to_stop_or_mark_without_a_session() {
    let mut user = User::new(&["A", "B"], &[]);
    assert!(user.stop().unwrap().is_none());
    match user.mark(true) {
        Err(e) => assert_eq!(e, "Không có phiên bisect nào đang hoạt động."),
        Ok(_) => panic!("no session"),
    }
    user.file = Some("{".to_string());
    match user.mark(true) {
        Err(e) => assert!(e.starts_with("JSON không hợp lệ: EOF"), "{e}"),
        Ok(_) => panic!("no document"),
    }
    assert!(user.stop().is_err());
}

#[test]
fn a_session_can_be_seen() {
    let mut user = User::new(&["A", "B", "C"], &[]);
    let view = bisect_view_internal(None, &user.mods, &user.off).unwrap_or_else(|e| panic!("{e}"));
    assert!(!view.running);
    user.start(None).unwrap_or_else(|e| panic!("{e}"));
    let view = bisect_view_internal(user.file.as_deref(), &user.mods, &user.off)
        .unwrap_or_else(|e| panic!("{e}"));
    assert!(view.running);
    assert_eq!(view.round, 1);
    assert_eq!(view.candidates, ["A", "B", "C"]);
    let mut halves = view.tested.clone();
    halves.extend(view.untested.clone());
    assert_eq!(halves, ["A", "B", "C"]);
    assert_eq!(view.enabled_now, view.tested);
    let state = bisect_state_internal(user.file.as_deref(), &user.mods, &user.off)
        .unwrap_or_else(|e| panic!("{e}"));
    assert_eq!(state.round, 1);
    assert!(!state.done);
}

#[test]
fn folders_in_both_places_are_refused() {
    assert!(installed_folders_rs(&texts(&["A"]), &texts(&["A"])).is_err());
    match installed_folders_rs(&texts(&["b", "A"]), &texts(&["c"])) {
        Ok(found) => assert_eq!(found.len(), 3),
        Err(e) => panic!("{e}"),
    }
}

#[test]
fn words_say_what_to_do() {
    assert!(bisect(None) == Ok(BisectOp::View));
    assert!(bisect(Some("")) == Ok(BisectOp::View));
    assert!(bisect(Some("view")) == Ok(BisectOp::View));
    assert!(bisect(Some("start")) == Ok(BisectOp::Start));
    assert!(bisect(Some("bad")) == Ok(BisectOp::Mark(true)));
    assert!(bisect(Some("good")) == Ok(BisectOp::Mark(false)));
    assert!(bisect(Some("stop")) == Ok(BisectOp::Stop));
    assert!(bisect(Some("x")) == Err("Lệnh bisect không hợp lệ: x".to_string()));
}

#[test]
fn a_session_is_answered_as_a_document() {
    let mut user = User::new(&["A", "B"], &[]);
    user.start(None).unwrap_or_else(|e| panic!("{e}"));
    let view = || {
        bisect_view_internal(user.file.as_deref(), &user.mods, &user.off)
            .unwrap_or_else(|e| panic!("{e}"))
    };
    let shown = bisect_reply(BisectOp::View, view());
    assert!(shown.flag("ready"));
    assert!(shown.flag("running"));
    assert_eq!(shown.strings("tested"), ["A"]);
    assert_eq!(shown.strings("untested"), ["B"]);
    assert!(matches!(shown.get("suspect"), Some(Json::Null)));
    let shown = bisect_reply(BisectOp::Start, view());
    assert!(shown.flag("ok"));
    assert_eq!(value_u64(shown.get("state").unwrap(), "round"), 1);
}
