use pzmod::deps::{dedup_ids, post_order};
use pzmod::folder::Disk;
use pzmod::installing::{install_internal, InstallAction, InstallEvent, Installing};
use pzmod::json::{read_json, Json};
use pzmod::levels::{dependency_order, required_ids_many, Levels, Reply};
use pzmod::modinfo::{Entry, Node, Source};
use pzmod::page::extract_listing_ids;
use pzmod::resolve::{index_sources, matching_candidate, resolve_modids, Resolver};
use pzmod::state::managed_state;
use pzmod::table::Table;
use pzmod::updating::{update_internal, UpdateAction, UpdateEvent};
use pzmod::walk::{expand_mod_dependencies, walk_mod_dependencies, Ask, Walk};

fn texts(list: &[&str]) -> Vec<String> {
    list.iter().map(|s| s.to_string()).collect()
}

fn json(text: &str) -> Json {
    read_json(text).unwrap_or_else(|e| panic!("{e}"))
}

fn disk(mods: &[&str], off: &[&str]) -> Disk {
    Disk { mods: texts(mods), off: texts(off), mods_files: Vec::new(), off_files: Vec::new() }
}

/// A downloaded item with one mod folder.
fn source(folder: &str, info: &str) -> Source {
    let file = Entry {
        name: "mod.info".to_string(),
        unicode: true,
        path: "mod.info".to_string(),
        node: Node::File(info.as_bytes().to_vec()),
    };
    let dir = Entry {
        name: folder.to_string(),
        unicode: true,
        path: folder.to_string(),
        node: Node::Dir(vec![file]),
    };
    Source { path: "item".to_string(), mods: Some(Node::Dir(vec![dir])) }
}

fn known(items: &[(&str, &str)]) -> Table<Json> {
    let mut table = Table::new();
    for (id, title) in items {
        table.set(
            id.to_string(),
            json(&format!(
                r#"{{"publishedfileid": "{id}", "title": "{title}", "time_updated": 2, "consumer_app_id": 108600}}"#
            )),
        );
    }
    table
}

fn candidate_sources() -> Table<Source> {
    let mut sources = Table::new();
    for (id, modid) in [
        ("11", "Wrong"),
        ("22", "NeatUI_Framework"),
        ("33", "AlsoWrong"),
        ("44", "OnlyFourth"),
    ] {
        sources.set(id.to_string(), source("Fixture", &format!("id={modid}\n")));
    }
    sources
}

#[test]
fn dependencies_come_out_deepest_first_without_revisiting() {
    let mut graph: Table<Vec<String>> = Table::new();
    for (id, deps) in [
        ("1", vec!["2", "3"]),
        ("2", vec!["4"]),
        ("3", vec!["4"]),
        ("4", vec![]),
    ] {
        graph.set(id.to_string(), texts(&deps));
    }
    let mut seen = Vec::new();
    let mut order = Vec::new();
    post_order("1", &graph, &mut seen, &mut order);
    assert_eq!(order, ["4", "2", "3", "1"]);
    assert_eq!(dedup_ids(&texts(&["1", "2", "1"])), ["1", "2"]);
}

#[test]
fn circles_of_needs_come_to_an_end() {
    let mut graph: Table<Vec<String>> = Table::new();
    graph.set("1".to_string(), texts(&["2"]));
    graph.set("2".to_string(), texts(&["1"]));
    let mut seen = Vec::new();
    let mut order = Vec::new();
    post_order("1", &graph, &mut seen, &mut order);
    assert_eq!(order, ["2", "1"]);
}

#[test]
fn each_level_is_asked_once() {
    let needs = |id: &str| match id {
        "1" => Ok(texts(&["2", "3"])),
        "2" => Ok(texts(&["3"])),
        "3" => Err("chặn".to_string()),
        _ => Ok(Vec::new()),
    };
    let mut levels = Levels::start(&texts(&["1", "1"]), 4);
    let mut asked = Vec::new();
    let mut log = Vec::new();
    loop {
        let batch = levels.batch();
        if batch.is_empty() {
            break;
        }
        let replies: Vec<Reply> = batch
            .iter()
            .map(|id| Reply { id: id.clone(), found: needs(id) })
            .collect();
        asked.push(batch.clone());
        log.extend(levels.record(&replies));
    }
    assert_eq!(asked, [texts(&["1"]), texts(&["2", "3"])]);
    assert_eq!(dependency_order(&levels), ["3", "2", "1"]);
    assert_eq!(log.len(), 1);
    assert!(log[0].contains('3') && log[0].contains("chặn"), "{}", log[0]);
    let found = required_ids_many(&vec![Reply { id: "1".to_string(), found: needs("1") }]);
    assert_eq!(found.needs.get("1"), Some(&texts(&["2", "3"])));
    assert!(found.log.is_empty());
    // no level, no question
    assert!(Levels::start(&texts(&["1"]), 0).batch().is_empty());
}

#[test]
fn nothing_beyond_the_depth_is_ordered() {
    for depth in 0..4 {
        let mut levels = Levels::start(&texts(&["0"]), depth);
        loop {
            let batch = levels.batch();
            if batch.is_empty() {
                break;
            }
            let replies = batch
                .iter()
                .map(|id| {
                    let n: usize = id.parse().unwrap();
                    Reply { id: id.clone(), found: Ok(vec![(n + 1).to_string()]) }
                })
                .collect();
            levels.record(&replies);
        }
        let expected: Vec<String> = (0..=depth).rev().map(|n| n.to_string()).collect();
        assert_eq!(dependency_order(&levels), expected);
    }
}

#[test]
fn modid_resolver_checks_only_three_exact_candidates() {
    let html = ["11", "22", "33", "44"]
        .map(|id| format!("<a href=\"sharedfiles/filedetails/?id={id}\">x</a>"))
        .join("");
    let candidates = extract_listing_ids(&html);
    let mut sources = candidate_sources();
    let matched = |wanted: &str, sources: &Table<Source>| {
        matching_candidate(wanted, &candidates, sources).found
    };
    assert_eq!(matched("NeatUI_Framework", &sources), Some("22".to_string()));
    assert_eq!(matched("neatui_framework", &sources), None, "mod.info id matching must be exact");
    assert_eq!(matched("OnlyFourth", &sources), None, "rank four must never be installed");

    sources.set(
        "55".to_string(),
        source("Equipment", "id=Equipment\nrequire=NeatUI_Framework\n"),
    );
    let mut walk = expand_mod_dependencies(texts(&["55"]), &Vec::new(), &disk(&[], &[]), sources);
    loop {
        match walk_mod_dependencies(&mut walk) {
            Ask::Go => {}
            Ask::Done => break,
            _ => panic!("everything is there"),
        }
    }
    assert_eq!(walk.order, ["22", "55"]);
    assert_eq!(walk.cache.get("neatui_framework"), Some(&Some("22".to_string())));
}

/// Resolves mod ids against these candidates and sources.
fn resolve(
    modids: &[&str],
    cache: &mut Table<Option<String>>,
    candidates: &[&str],
    sources: &Table<Source>,
) -> Vec<(String, String)> {
    let mut search = Resolver::start(&texts(modids));
    search.check(cache, sources);
    while search.next_search().is_some() {
        search.note_candidates(texts(candidates));
    }
    search.settle(cache, sources);
    resolve_modids(&search)
}

#[test]
fn mod_ids_are_found_among_what_was_seen() {
    let sources = candidate_sources();
    let mut cache: Table<Option<String>> = Table::new();
    let search = Resolver::start(&texts(&["NeatUI_Framework", "\\neatui_framework"]));
    assert_eq!(search.asking_line(), "đang dò mod bắt buộc: NeatUI_Framework");
    let found = resolve(&["NeatUI_Framework", "Nowhere"], &mut cache, &["11", "22", "33", "44"], &sources);
    assert_eq!(found, [("NeatUI_Framework".to_string(), "22".to_string())]);
    assert_eq!(cache.get("neatui_framework"), Some(&Some("22".to_string())));
    assert_eq!(cache.get("nowhere"), Some(&None));
    // what is remembered is looked at again, and used
    let search = Resolver::start(&texts(&["NeatUI_Framework"]));
    assert_eq!(search.remembered(&cache), ["22"]);
    let found = resolve(&["NeatUI_Framework"], &mut cache, &[], &sources);
    assert_eq!(found, [("NeatUI_Framework".to_string(), "22".to_string())]);
    let mut providers: Table<String> = Table::new();
    index_sources(&sources, &mut providers);
    assert_eq!(providers.get("wrong").map(|s| s.as_str()), Some("11"));
}

/// Walks to the end; what is looked for is found as `found` says.
fn walk_on(walk: &mut Walk, found: &[(&str, &str)], downloads: &[(&str, &str)]) {
    for _ in 0..1000 {
        match walk_mod_dependencies(walk) {
            Ask::Go => {}
            Ask::Done => return,
            Ask::Resolve(modids) => {
                let reply: Vec<(String, String)> = found
                    .iter()
                    .filter(|(modid, _)| modids.contains(&modid.to_string()))
                    .map(|(modid, id)| (modid.to_string(), id.to_string()))
                    .collect();
                walk.tell_resolved(Ok(reply), Table::new());
            }
            Ask::Describe(ids, _) => {
                let titles = known(&[("70", "Seventy")]);
                walk.tell_described(&titles, ids, Vec::new());
            }
            Ask::Download(ids) => {
                let mut got = Table::new();
                for (id, info) in downloads {
                    if ids.contains(&id.to_string()) {
                        got.set(id.to_string(), source(id, info));
                    }
                }
                walk.tell_downloaded(got);
            }
        }
    }
    panic!("it never ends");
}

#[test]
fn what_is_required_comes_before_what_requires_it() {
    let mut sources = Table::new();
    sources.set("50".to_string(), source("A", "id=A\nrequire=B\n"));
    sources.set("60".to_string(), source("C", "id=C\n"));
    let mut walk = expand_mod_dependencies(texts(&["50", "60"]), &Vec::new(), &disk(&[], &[]), sources);
    walk_on(&mut walk, &[("B", "70")], &[("70", "id=B\nrequire=C\n")]);
    assert_eq!(walk.order, ["60", "70", "50"]);
    assert!(walk.log.iter().any(|line| line.contains("Seventy")), "{:?}", walk.log);
    walk.drain();
    assert!(walk.drain().is_empty());
}

#[test]
fn nothing_is_looked_for_below_the_last_level() {
    let mut sources = Table::new();
    sources.set("50".to_string(), source("A", "id=A\nrequire=M1\n"));
    let mut walk = expand_mod_dependencies(texts(&["50"]), &Vec::new(), &disk(&[], &[]), sources);
    walk_on(
        &mut walk,
        &[("M1", "61"), ("M2", "62"), ("M3", "63"), ("M4", "64"), ("M5", "65")],
        &[
            ("61", "id=M1\nrequire=M2\n"),
            ("62", "id=M2\nrequire=M3\n"),
            ("63", "id=M3\nrequire=M4\n"),
            ("64", "id=M4\nrequire=M5\n"),
            ("65", "id=M5\n"),
        ],
    );
    assert_eq!(walk.order, ["64", "63", "62", "61", "50"]);
}

#[test]
fn installed_mods_are_not_fetched_again() {
    let state = managed_state(Some(
        r#"{"70": {"folders": ["B"], "modids": ["B"], "require": []}}"#,
    ));
    let mut sources = Table::new();
    sources.set("50".to_string(), source("A", "id=A\nrequire=B\n"));
    let mut walk = expand_mod_dependencies(texts(&["50"]), &state, &disk(&["B"], &[]), sources);
    walk_on(&mut walk, &[], &[]);
    assert_eq!(walk.order, ["50"]);
}

#[test]
fn an_install_goes_through_its_items_in_order() {
    let mut run = install_internal("1", false).unwrap_or_else(|e| panic!("{e}"));
    let mut told = Vec::new();
    let mut done = Vec::new();
    for _ in 0..100 {
        let event = match run.action() {
            InstallAction::Describe(ids) => {
                let mut t = Table::new();
                for id in ids {
                    if id != "3" {
                        t.set(id.clone(), json(&format!(r#"{{"title": "T{id}"}}"#)));
                    }
                }
                InstallEvent::Details(Ok(t))
            }
            InstallAction::Children(id) => {
                assert_eq!(id, "1");
                InstallEvent::Children(Ok(Vec::new()))
            }
            InstallAction::Levels(ids, depth) => {
                assert_eq!(ids, ["1"]);
                assert_eq!(depth, 4);
                InstallEvent::Ordered(texts(&["2", "1"]), texts(&["? 2"]))
            }
            InstallAction::ReadState => InstallEvent::State(Vec::new()),
            InstallAction::Download(ids, refresh, labels) => {
                assert_eq!(ids, ["2", "1"]);
                assert!(!refresh);
                assert_eq!(labels.get("2").map(|s| s.as_str()), Some("T2"));
                InstallEvent::Downloaded(Ok(()))
            }
            InstallAction::Expand(ids) => {
                assert_eq!(ids, ["2", "1"]);
                InstallEvent::Expanded(Ok((texts(&["3", "2", "1"]), texts(&["kèm"]))))
            }
            InstallAction::Install(id, _) => {
                done.push(id.clone());
                if id == "2" {
                    InstallEvent::Installed(Err("hỏng".to_string()))
                } else {
                    InstallEvent::Installed(Ok(vec![format!("+ {id}")]))
                }
            }
            InstallAction::Go => InstallEvent::Go,
            InstallAction::Persist => InstallEvent::Persisted(Err("đầy".to_string())),
            InstallAction::Missing => InstallEvent::Missing(texts(&["X", "Y"])),
            InstallAction::Finish => break,
        };
        told.extend(run.tell(event));
    }
    assert_eq!(done, ["2", "1"]);
    let log = [
        "? 2",
        "kèm 1 mod bắt buộc: T2",
        "kèm",
        "! 3: mod đã bị xoá hoặc đặt riêng tư",
        "! 2: hỏng",
        "+ 1",
        "! không lưu được ánh xạ mod id (đầy)",
        "! thiếu mod bắt buộc: X, Y",
    ];
    assert_eq!(told, log);
    match run.finish() {
        Ok(answer) => {
            assert!(!answer.ok);
            assert_eq!(answer.log, log);
        }
        Err(e) => panic!("{e}"),
    }
}

#[test]
fn a_collection_is_installed_as_its_items() {
    let mut run = install_internal("9", true).unwrap_or_else(|e| panic!("{e}"));
    run.tell(InstallEvent::Details(Ok(known(&[("9", "Pack")]))));
    run.tell(InstallEvent::Children(Ok(texts(&["1", "2"]))));
    let told = run.tell(InstallEvent::Ordered(texts(&["1", "2"]), Vec::new()));
    assert_eq!(told, ["collection Pack: 2 mod"]);
    // what it does not wait for changes nothing
    assert!(run.tell(InstallEvent::Missing(texts(&["X"]))).is_empty());
    run.tell(InstallEvent::State(Vec::new()));
    run.tell(InstallEvent::Details(Ok(known(&[("1", "One"), ("2", "")]))));
    match run.action() {
        InstallAction::Download(_, refresh, labels) => {
            assert!(refresh);
            assert_eq!(labels.get("1").map(|s| s.as_str()), Some("One"));
            assert_eq!(labels.get("2").map(|s| s.as_str()), Some("2"));
        }
        _ => panic!("it is to be downloaded"),
    }
    run.tell(InstallEvent::Downloaded(Ok(())));
    run.tell(InstallEvent::Expanded(Ok((texts(&["1", "2"]), Vec::new()))));
    run.tell(InstallEvent::Installed(Ok(texts(&["+ One"]))));
    run.tell(InstallEvent::Installed(Ok(texts(&["+ Two"]))));
    run.tell(InstallEvent::Go);
    run.tell(InstallEvent::Persisted(Ok(())));
    run.tell(InstallEvent::Missing(Vec::new()));
    match run.finish() {
        Ok(answer) => {
            assert!(answer.ok);
            assert_eq!(answer.log, ["collection Pack: 2 mod", "+ One", "+ Two"]);
        }
        Err(e) => panic!("{e}"),
    }
}

#[test]
fn an_install_fails_as_a_whole_where_nothing_can_be_asked() {
    match install_internal("1x", false) {
        Err(e) => assert_eq!(e, "bad id"),
        Ok(_) => panic!("no id"),
    }
    let mut run = install_internal("1", false).unwrap_or_else(|e| panic!("{e}"));
    run.tell(InstallEvent::Details(Err("mạng".to_string())));
    assert!(matches!(run.action(), InstallAction::Finish));
    match run.finish() {
        Err(e) => assert_eq!(e, "mạng"),
        Ok(_) => panic!("it failed"),
    }
}

#[test]
fn no_failure_goes_untold() {
    let fails: [fn(&mut Installing); 2] = [
        |run| {
            run.tell(InstallEvent::Installed(Err("chặn".to_string())));
            run.tell(InstallEvent::Go);
            run.tell(InstallEvent::Persisted(Ok(())));
            run.tell(InstallEvent::Missing(Vec::new()));
        },
        |run| {
            run.tell(InstallEvent::Installed(Ok(Vec::new())));
            run.tell(InstallEvent::Go);
            run.tell(InstallEvent::Persisted(Err("đầy".to_string())));
            run.tell(InstallEvent::Missing(Vec::new()));
        },
    ];
    for fail in fails {
        let mut run = install_internal("1", false).unwrap_or_else(|e| panic!("{e}"));
        run.tell(InstallEvent::Details(Ok(Table::new())));
        run.tell(InstallEvent::Children(Ok(Vec::new())));
        run.tell(InstallEvent::Ordered(texts(&["1"]), Vec::new()));
        run.tell(InstallEvent::State(Vec::new()));
        run.tell(InstallEvent::Details(Ok(known(&[("1", "One")]))));
        run.tell(InstallEvent::Downloaded(Ok(())));
        run.tell(InstallEvent::Expanded(Ok((texts(&["1"]), Vec::new()))));
        fail(&mut run);
        match run.finish() {
            Ok(answer) => {
                assert!(!answer.ok);
                assert!(answer.log.iter().any(|line| line.starts_with('!')), "{:?}", answer.log);
            }
            Err(e) => panic!("{e}"),
        }
    }
}

#[test]
fn warnings_on_the_way_spoil_the_answer() {
    let mut run = install_internal("1", false).unwrap_or_else(|e| panic!("{e}"));
    run.tell(InstallEvent::Details(Ok(Table::new())));
    run.tell(InstallEvent::Children(Ok(Vec::new())));
    run.tell(InstallEvent::Ordered(texts(&["1"]), texts(&["  ! chặn"])));
    run.tell(InstallEvent::State(Vec::new()));
    run.tell(InstallEvent::Details(Ok(known(&[("1", "One")]))));
    run.tell(InstallEvent::Downloaded(Ok(())));
    run.tell(InstallEvent::Expanded(Ok((texts(&["1"]), Vec::new()))));
    run.tell(InstallEvent::Installed(Ok(Vec::new())));
    run.tell(InstallEvent::Go);
    run.tell(InstallEvent::Persisted(Ok(())));
    run.tell(InstallEvent::Missing(Vec::new()));
    match run.finish() {
        Ok(answer) => assert!(!answer.ok),
        Err(e) => panic!("{e}"),
    }
}

#[test]
fn only_outdated_items_are_updated() {
    let state = managed_state(Some(
        r#"{"1": {"title": "One", "updated": 2, "folders": ["A"]},
            "2": {"title": "Two", "updated": 1, "folders": ["B"]},
            "3": {"updated": 2, "folders": ["C"]},
            "4": {"title": "Four", "updated": 2, "folders": ["D"]}}"#,
    ));
    let (mut run, told) = update_internal(state);
    assert!(told.is_empty());
    let mut installed = Vec::new();
    for _ in 0..100 {
        let event = match run.action() {
            UpdateAction::Describe(ids) => {
                assert_eq!(ids, ["1", "2", "3", "4"]);
                UpdateEvent::Details(Ok(known(&[("1", "x"), ("2", "x"), ("4", "x")])))
            }
            UpdateAction::Look(_) => UpdateEvent::Seen(disk(&["A", "B"], &[])),
            UpdateAction::Install(id, _) => {
                installed.push(id.clone());
                if id == "2" {
                    UpdateEvent::Installed(Ok(texts(&["+ Two"])))
                } else {
                    UpdateEvent::Installed(Err("hỏng".to_string()))
                }
            }
            UpdateAction::Go => UpdateEvent::Go,
            UpdateAction::Missing => UpdateEvent::Missing(Vec::new()),
            UpdateAction::Finish => break,
        };
        run.tell(event);
    }
    assert_eq!(installed, ["2", "4"]);
    match run.finish() {
        Ok(answer) => {
            assert!(!answer.ok);
            assert_eq!(
                answer.log,
                [
                    "= One",
                    "+ Two",
                    "! 3: đã biến mất khỏi workshop, giữ nguyên bản cục bộ",
                    "! Four: hỏng",
                ]
            );
        }
        Err(e) => panic!("{e}"),
    }
}

#[test]
fn there_may_be_nothing_to_update() {
    let (run, told) = update_internal(Vec::new());
    assert_eq!(told, ["không có mod để cập nhật"]);
    assert!(matches!(run.action(), UpdateAction::Finish));
    match run.finish() {
        Ok(answer) => {
            assert!(answer.ok);
            assert_eq!(answer.log, ["không có mod để cập nhật"]);
        }
        Err(e) => panic!("{e}"),
    }
}
