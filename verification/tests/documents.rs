use pzmod::detail::{detail, state_internal, Needs};
use pzmod::folder::Disk;
use pzmod::json::{read_json, value_string, value_u64, write_json, Json, Number};
use pzmod::paths::{
    detect_user_dir, launch, launch_reply, paths, pz_user_rank, pz_user_touched, setting,
    Candidate, Launched, Root, Setting, UserDir,
};
use pzmod::state::{
    installed_providers, managed_state, missing_modids, persist_resolutions, resolution_cache,
    state_body,
};
use pzmod::table::Table;

fn texts(list: &[&str]) -> Vec<String> {
    list.iter().map(|s| s.to_string()).collect()
}

fn json(text: &str) -> Json {
    read_json(text).unwrap_or_else(|e| panic!("{e}"))
}

fn disk(mods: &[&str], off: &[&str]) -> Disk {
    Disk { mods: texts(mods), off: texts(off), mods_files: Vec::new(), off_files: Vec::new() }
}

fn owned_state() -> Vec<(String, Json)> {
    managed_state(Some(
        r#"{"10": {"title": "Owned item", "updated": 2, "size": 3,
            "folders": ["Owned"], "modids": ["OwnedID"], "require": ["MissingID"]}}"#,
    ))
}

#[test]
fn state_reads_the_python_schema() {
    let mut state = owned_state();
    let mut cache: Table<Option<String>> = Table::new();
    cache.set("missingid".to_string(), None);
    assert!(persist_resolutions(&mut state, &cache));
    let text = state_body(state).unwrap();
    let mut state = managed_state(Some(&text));
    assert!(!persist_resolutions(&mut state, &cache), "it is written down already");

    let snapshot = state_internal(
        &state,
        &texts(&["Owned"]),
        &texts(&["Loose"]),
        &disk(&["Owned"], &["Loose"]),
    );
    assert_eq!(snapshot.installed.len(), 1);
    let (id, item) = &snapshot.installed[0];
    assert_eq!(id, "10");
    assert_eq!(value_string(item, "title"), "Owned item");
    let folders = item.get("folders").unwrap().array().unwrap();
    assert_eq!(value_string(&folders[0], "status"), "enabled");
    assert_eq!(snapshot.loose.len(), 1);
    assert_eq!(snapshot.loose[0].name, "Loose");
    assert_eq!(snapshot.loose[0].status, "disabled");
    assert!(!snapshot.loose[0].enabled);
    assert_eq!(snapshot.missing, ["MissingID"]);
    assert!(matches!(item.get("resolved").unwrap().get("MissingID"), Some(Json::Null)));
    assert_eq!(snapshot.sorts[0], ("trend".to_string(), "Thịnh hành tuần".to_string()));
    assert!(snapshot.tags.len() > 20);
    assert!(snapshot.bisect_ready);
}

#[test]
fn every_folder_is_seen() {
    let state = owned_state();
    let on = texts(&["Owned", "both", "Free"]);
    let off = texts(&["both", "away"]);
    let shown = state_internal(&state, &on, &off, &disk(&["Owned", "both", "Free"], &["both", "away"]));
    let loose: Vec<(&str, &str)> =
        shown.loose.iter().map(|f| (f.name.as_str(), f.status.as_str())).collect();
    assert_eq!(loose, [("away", "disabled"), ("both", "collision"), ("Free", "enabled")]);
}

#[test]
fn missing_mod_ids_are_those_that_nothing_supplies() {
    let state = managed_state(Some(
        r#"{"1": {"folders": ["A"], "modids": ["Alpha"], "require": ["beta", "Gamma"]},
            "2": {"folders": ["B"], "modids": ["Beta"], "require": []},
            "3": {"folders": ["C"], "modids": ["Gamma"], "require": []}}"#,
    ));
    // what is not on disk supplies nothing
    assert_eq!(missing_modids(&state, &disk(&["A", "B"], &[])), ["Gamma"]);
    assert!(missing_modids(&state, &disk(&["A", "B"], &["C"])).is_empty());
    let providers = installed_providers(&state, &disk(&["A", "B"], &[]));
    assert_eq!(providers.get("alpha").map(|s| s.as_str()), Some("1"));
    assert!(!providers.has("gamma"));
}

#[test]
fn what_was_found_out_of_mod_ids_is_remembered() {
    let state = managed_state(Some(
        r#"{"1": {"require": ["Beta", "Gamma"], "resolved": {"Beta": "22", "Gamma": null}}}"#,
    ));
    let cache = resolution_cache(&state);
    assert_eq!(cache.get("beta"), Some(&Some("22".to_string())));
    assert_eq!(cache.get("gamma"), Some(&None));
    assert_eq!(cache.get("delta"), None);

    let mut state = managed_state(Some(r#"{"1": {"require": ["\\Beta", "Gamma", "Delta"]}}"#));
    assert!(persist_resolutions(&mut state, &cache));
    let again = resolution_cache(&managed_state(Some(&state_body(state).unwrap())));
    assert_eq!(again.get("beta"), Some(&Some("22".to_string())));
    assert_eq!(again.get("gamma"), Some(&None));
    assert_eq!(again.get("delta"), None);
}

#[test]
fn what_no_entry_requires_is_forgotten() {
    let mut state = managed_state(Some(
        r#"{"1": {"require": ["Beta"], "resolved": {"Beta": "22", "Old": "33"}}, "2": 5}"#,
    ));
    let cache = resolution_cache(&state);
    assert_eq!(cache.get("old"), Some(&Some("33".to_string())));
    assert!(persist_resolutions(&mut state, &cache));
    let again = resolution_cache(&state);
    assert_eq!(again.get("beta"), Some(&Some("22".to_string())));
    assert_eq!(again.get("old"), None);
}

#[test]
fn a_state_that_cannot_be_read_is_empty() {
    assert!(managed_state(None).is_empty());
    assert!(managed_state(Some("{")).is_empty());
    assert!(managed_state(Some("[1]")).is_empty());
}

#[test]
fn documents_are_written_and_read_back() {
    let text = r#"{"b": [1, -2, "x\n", null, true], "a": {"k": 18446744073709551615}}"#;
    let document = json(text);
    let written = write_json(&document).unwrap();
    assert!(written.starts_with("{\n  \"a\": {\n"), "{written}");
    assert!(json(&written).equals(&document));
    assert!(!json("{}").equals(&document));
    assert!(matches!(
        document.get("b").unwrap().array().unwrap()[1],
        Json::Number(Number::Negative(-2))
    ));
    assert_eq!(value_u64(document.get("a").unwrap(), "k"), u64::MAX);
    assert!(matches!(json("1.5"), Json::Number(Number::Float(_))));
    assert_eq!(write_json(&json("[1.5]")).unwrap(), "[\n  1.5\n]");
    match read_json("{\"a\"}") {
        Err(e) => assert_eq!(e, "expected `:` at line 1 column 5"),
        Ok(_) => panic!("no document"),
    }
}

#[test]
fn an_item_is_shown_with_what_it_needs() {
    let item = json(
        r#"{"publishedfileid": "10", "title": "New", "description": "[b]x[/b]\r", "views": 4,
            "time_created": 5, "favorited": 6}"#,
    );
    let mut titles: Table<Json> = Table::new();
    titles.set("11".to_string(), json(r#"{"title": "Eleven"}"#));
    let needs = Needs::Known(texts(&["11", "12"]), titles);
    let state = owned_state();
    let shown = detail("10", Some(&item), 2, &state, &disk(&["Owned"], &[]), &needs);
    assert_eq!(value_string(&shown, "description"), "x");
    assert_eq!(value_u64(&shown, "children"), 2);
    assert_eq!(value_u64(&shown, "views"), 4);
    assert_eq!(shown.strings("modids"), ["OwnedID"]);
    let required = shown.get("required").unwrap().array().unwrap();
    assert_eq!(value_string(&required[0], "title"), "Eleven");
    assert_eq!(value_string(&required[1], "title"), "12");
    assert!(!shown.flag("req_blocked"));
    let shown = detail("10", Some(&item), 0, &state, &disk(&[], &[]), &Needs::Blocked);
    assert!(shown.flag("req_blocked"));
    assert!(shown.get("required").unwrap().array().unwrap().is_empty());
    let shown = detail("10", None, 0, &state, &disk(&[], &[]), &Needs::Blocked);
    assert_eq!(value_string(&shown, "error"), "not found");
    let shown = detail("x", Some(&item), 0, &state, &disk(&[], &[]), &Needs::Blocked);
    assert_eq!(value_string(&shown, "error"), "bad id");
}

#[test]
fn pz_user_rank_prefers_the_folder_the_game_wrote() {
    assert_eq!(pz_user_rank(true, Some(0)), 2);
    assert!(pz_user_touched(&vec![7]) > pz_user_touched(&Vec::new()));
    assert_eq!(pz_user_rank(false, Some(1)), 1);
    // What a fresh tree has: mods/ and mods_off/, both empty.
    assert_eq!(pz_user_rank(false, Some(0)), 0);
    // A folder that is not there has no mods/ to list.
    assert_eq!(pz_user_rank(false, None), 0);
}

#[test]
fn the_user_folder_is_the_one_that_was_used_last() {
    let folder = |path: &str, rank, touched| Candidate { path: path.to_string(), rank, touched };
    assert_eq!(pz_user_touched(&vec![3, 9, 4]), 9);
    assert_eq!(
        detect_user_dir(vec![folder("a", 1, 0), folder("b", 2, 5), folder("c", 2, 8), folder("d", 2, 8)]),
        Some("c".to_string())
    );
    assert_eq!(detect_user_dir(vec![folder("a", 0, 0)]), None);
}

#[test]
fn what_is_set_counts_before_what_is_found() {
    let set = |path: &str| Some(Setting { path: path.to_string(), length: path.len() });
    let found = paths(None, None, Some("c".to_string()), set("h"));
    assert!(matches!(found.game, Root::Fixed("D:\\ProjectZomboid")));
    assert!(matches!(found.user, UserDir::At(p) if p == "c"));
    let found = paths(set("g"), None, None, set("h"));
    assert!(matches!(found.game, Root::Given(p) if p == "g"));
    assert!(matches!(found.user, UserDir::Under(Root::Given(p)) if p == "h"));
    let found = paths(None, set("u"), Some("c".to_string()), None);
    assert!(matches!(found.user, UserDir::At(p) if p == "u"));
    // What is empty is not set.
    let found = paths(set(""), set(""), None, set(""));
    assert!(matches!(found.game, Root::Fixed("D:\\ProjectZomboid")));
    assert!(matches!(found.user, UserDir::Under(Root::Fixed("C:\\"))));
    assert_eq!(setting(set("")), None);
    assert_eq!(setting(set("u")), Some("u".to_string()));
}

#[test]
fn the_game_is_started_by_its_file() {
    assert_eq!(launch(None), "PZ-D.bat");
    assert_eq!(launch(Some(true)), "PZ-D-nosteam.bat");
    match launch_reply("PZ-D.bat", "G", Launched::Missing) {
        Err(e) => assert_eq!(e, "không thấy PZ-D.bat trong G"),
        Ok(_) => panic!("it is not there"),
    }
    match launch_reply("PZ-D.bat", "G", Launched::Failed("denied".to_string())) {
        Err(e) => assert_eq!(e, "không chạy được PZ-D.bat: denied"),
        Ok(_) => panic!("it did not run"),
    }
    match launch_reply("PZ-D.bat", "G", Launched::Started) {
        Ok(reply) => {
            assert!(reply.flag("ok"));
            assert_eq!(value_string(&reply, "log"), "đang mở game bằng PZ-D.bat");
        }
        Err(e) => panic!("{e}"),
    }
}
