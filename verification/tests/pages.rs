use std::collections::VecDeque;

use pzmod::browse::{
    asked_item, browse, browse_result, card, has_tags, next_modid_search, periods, search_hits,
    search_ids, search_modid_candidates, sort_days, sort_labels, tag_names, wanted_tags, BrowseAsk,
};
use pzmod::cache::{
    cache_name, cache_path, cached, cached_listing, cached_page, community_error, fall_back,
    fetch_page, page_or_kept, required_ids_background, FetchStep, Fetched, Listing, Revalidating,
    BROWSE_TTL, REQUIRES_TTL,
};
use pzmod::download::{
    download_item, download_item_labeled, download_items, download_items_labeled,
    download_items_reuse, one_item, prefetch, queue_prefetch, steamcmd_args, steamcmd_success_id,
};
use pzmod::json::{read_json, value_string, value_u64, Json};
use pzmod::page::{extract_listing_ids, ids_after, is_valid_workshop_html, required_ids};
use pzmod::table::Table;
use pzmod::url::{form_body, url_encode};
use pzmod::workshop::{
    collection_children, collection_reply, details, details_reply, maybe_id, strip_bb,
};

fn texts(list: &[&str]) -> Vec<String> {
    list.iter().map(|s| s.to_string()).collect()
}

fn json(text: &str) -> Json {
    read_json(text).unwrap_or_else(|e| panic!("{e}"))
}

#[test]
fn steamcmd_argv_batches_requested_items() {
    let args = steamcmd_args(&texts(&["123", "456"]));
    assert_eq!(
        args,
        [
            "+login",
            "anonymous",
            "+workshop_download_item",
            "108600",
            "123",
            "+workshop_download_item",
            "108600",
            "456",
            "+quit"
        ]
    );
    assert_eq!(
        steamcmd_success_id("Success. Downloaded item 456 to x"),
        Some("456".to_string())
    );
    assert_eq!(steamcmd_success_id("ERROR! Download item 456 failed"), None);
}

#[test]
fn every_sort_but_mostrecent_carries_a_time_window() {
    assert_eq!(sort_days("trend"), Some("7"));
    assert_eq!(sort_days("totaluniquesubscriptions"), Some("3650"));
    assert_eq!(sort_days("mostrecent"), None);
    // the picker offers exactly the windows Steam ranks over
    let periods = periods();
    let values: Vec<&str> = periods.iter().map(|(value, _)| value.as_str()).collect();
    assert_eq!(values, ["7", "30", "90", "180", "365", "3650"]);
}

#[test]
fn a_window_goes_with_every_sort_that_takes_one() {
    for (sort, _) in sort_labels() {
        let window = sort_days(&sort);
        assert_eq!(window.is_none(), sort == "mostrecent" || sort == "toprated", "{sort}");
        assert!(window.map_or(true, |w| periods().iter().any(|(value, _)| value == w)), "{sort}");
    }
    assert_eq!(sort_days("num_parent_items"), Some("3650"));
    assert_eq!(sort_days("textsearch"), Some("3650"));
    assert_eq!(sort_days("?"), None);
}

#[test]
fn tag_filter_drops_the_pinned_notice() {
    let pinned = json(r#"{"tags": [{"tag": "Modding or Configuration"}]}"#);
    let car = json(r#"{"tags": [{"tag": "Build 42"}, {"tag": "Vehicles"}]}"#);
    let wanted = texts(&["Vehicles"]);
    assert!(!has_tags(&pinned, &wanted));
    assert!(has_tags(&car, &wanted));
    assert!(has_tags(&pinned, &Vec::new()));
    // every requested tag has to be present, not just one of them
    assert!(!has_tags(&car, &texts(&["Vehicles", "Map"])));
}

#[test]
fn parses_cached_workshop_listing_fixture() {
    let html = r#"<div class="workshopBrowseItems">
        <a href="https://steamcommunity.com/sharedfiles/filedetails/?id=111&searchtext=">one</a>
        <a href="https://steamcommunity.com/sharedfiles/filedetails/?id=111">one again</a>
        <a href="https://steamcommunity.com/sharedfiles/filedetails/?id=222">two</a>
        </div>"#;
    assert_eq!(extract_listing_ids(html), ["111", "222"]);
}

#[test]
fn the_pinned_policy_notice_never_reaches_the_grid() {
    let html = r#"<a href="sharedfiles/filedetails/?id=2872282653">policy</a>
            <a href="sharedfiles/filedetails/?id=111">a real mod</a>"#;
    assert_eq!(extract_listing_ids(html), ["111"]);
}

#[test]
fn parses_required_block_without_leaking_other_links() {
    let html = r#"<div id="RequiredItems">
            <a href="filedetails/?id=10">self</a>
            <a href="filedetails/?id=20">dependency</a>
            <a href="filedetails/?id=20">duplicate</a>
            <!-- next panel --><a href="filedetails/?id=30">unrelated</a>"#;
    let start = html.find("id=\"RequiredItems\"").unwrap();
    let block = &html[start..html[start..].find("<!--").unwrap() + start];
    let ids: Vec<_> = ids_after(block, "filedetails/?id=")
        .into_iter()
        .filter(|id| id != "10")
        .collect();
    assert_eq!(ids, ["20"]);
    assert_eq!(required_ids(html, "10"), ["20"]);
}

#[test]
fn strips_long_bounded_bbcode() {
    let tag = format!("[url=https://example.invalid/{}]", "x".repeat(80));
    assert_eq!(strip_bb(&format!("a {tag}link[/url] b")), "a link b");
    assert_eq!(strip_bb("keep [ unmatched text"), "keep [ unmatched text");
}

#[test]
fn cached_listing_serves_fresh_and_stale_and_rejects_block_page() {
    // 1. Fresh valid listing
    let good_html = "sharedfiles/filedetails/?id=111 sharedfiles/filedetails/?id=222";
    let good = || Some(good_html.to_string());
    assert_eq!(cached(good(), Some(0), Some(BROWSE_TTL)).as_deref(), Some(good_html));
    match cached_listing(good(), Some(0)) {
        Listing::Fresh(html) => assert_eq!(html, good_html),
        _ => panic!("it is fresh"),
    }

    // 2. Block page in cache -> must NOT be served
    let block = Some("You've made too many requests recently".to_string());
    assert!(cached(block, Some(0), None).is_none());

    // 3. Page without required marker -> must NOT be served
    let other = Some("<html>random text</html>".to_string());
    assert!(cached(other, Some(0), None).is_none());

    // 4. Valid listing in stale cache -> cached_listing serves it (SWR)
    assert_eq!(cached(good(), Some(BROWSE_TTL), None).as_deref(), Some(good_html));
    match cached_listing(good(), Some(BROWSE_TTL)) {
        Listing::Stale(html) => assert_eq!(html, good_html),
        _ => panic!("it is stale"),
    }

    // 5. TTL expired + refresh impossible (nothing listening) ->
    //    cached_page still serves the stale copy instead of failing.
    assert_eq!(cached_page(good(), Some(0), 0), None);
    match fetch_page(Fetched::Unreachable("refused".to_string())) {
        FetchStep::Keep(_) => panic!("no page came"),
        FetchStep::FallBack { why, limited } => {
            assert!(!limited);
            let fetched = fall_back(good(), why);
            assert_eq!(page_or_kept(fetched, good()).unwrap(), good_html);
        }
    }
}

#[test]
fn prefetch_command_accepts_ids() {
    let mut queue = VecDeque::new();
    let res = prefetch(&mut queue, &texts(&["123", "456", "invalid"]));
    assert!(matches!(res.get("ok"), Some(Json::Bool(true))));
    assert_eq!(queue, ["123", "456"]);
    queue_prefetch(&mut queue, &texts(&[" 456 ", "789", ""]));
    assert_eq!(queue, ["123", "456", "789"]);
}

#[test]
fn too_many_requests_are_noticed() {
    let limit = "Steam chặn vì hỏi quá nhiều - chờ 10-30 phút. IP Warp là IP dùng chung nên dễ dính hơn IP nhà";
    let told = |fetched| match fetch_page(fetched) {
        FetchStep::Keep(html) => (html, false),
        FetchStep::FallBack { why, limited } => (why, limited),
    };
    let page = "sharedfiles/filedetails/?id=1".to_string();
    assert_eq!(told(Fetched::Page(page.clone())), (page, false));
    assert_eq!(told(Fetched::Status(429)), (limit.to_string(), true));
    let block = "<p>Too Many Requests</p> sharedfiles/filedetails/?id=1".to_string();
    assert_eq!(told(Fetched::Page(block)), (limit.to_string(), true));
    assert_eq!(
        told(Fetched::Status(503)),
        ("steamcommunity.com trả HTTP 503".to_string(), false)
    );
    assert_eq!(
        told(Fetched::Page("<html>".to_string())),
        ("Steam không trả trang workshop hợp lệ".to_string(), false)
    );
    assert_eq!(told(Fetched::Unread("cut".to_string())), ("cut".to_string(), false));
    assert_eq!(
        community_error(None, "dns"),
        "không nối được steamcommunity.com (dns) - Warp/VPN đã bật chưa?"
    );
    assert_eq!(fall_back(None, "cut".to_string()), Err("cut".to_string()));
    assert!(is_valid_workshop_html("sharedfiles/filedetails/?id=1"));
}

#[test]
fn pages_have_files_of_their_own() {
    assert_eq!(cache_name(0xdeadbeef), "00000000deadbeef.html");
    let a = cache_path("https://example.invalid/a");
    assert_eq!(a.len(), 21);
    assert_eq!(a, cache_path("https://example.invalid/a"));
    assert_ne!(a, cache_path("https://example.invalid/b"));
    let page = || Some("sharedfiles/filedetails/?id=1 id=\"RequiredItems\"".to_string());
    assert!(!required_ids_background(page(), Some(REQUIRES_TTL - 1)));
    assert!(required_ids_background(page(), Some(REQUIRES_TTL)));
    assert!(required_ids_background(None, None));
    let mut busy = Revalidating { urls: Vec::new() };
    assert!(busy.begin("u"));
    assert!(!busy.begin("u"));
    busy.finish("u");
    assert!(busy.begin("u"));
}

#[test]
fn addresses_are_encoded() {
    assert_eq!(url_encode("a b&c=ệ~"), "a%20b%26c%3D%E1%BB%87~");
    let fields = vec![
        ("p".to_string(), "1".to_string()),
        ("requiredtags[]".to_string(), "Build 42".to_string()),
    ];
    assert_eq!(form_body(&fields), "p=1&requiredtags%5B%5D=Build%2042");
}

#[test]
fn items_are_asked_for_together() {
    assert!(details(&Vec::new()).is_none());
    let fields = details(&texts(&["1", "2"])).unwrap();
    assert_eq!(
        form_body(&fields),
        "itemcount=2&publishedfileids%5B0%5D=1&publishedfileids%5B1%5D=2"
    );
    assert_eq!(
        form_body(&collection_children("7")),
        "collectioncount=1&publishedfileids%5B0%5D=7"
    );
    let known = details_reply(
        r#"{"response": {"publishedfiledetails": [
            {"publishedfileid": "1", "result": 1, "title": "One"},
            {"publishedfileid": "2", "result": 9},
            {"result": 1}]}}"#,
    )
    .unwrap_or_else(|e| panic!("{e}"));
    assert_eq!(value_string(known.get("1").unwrap(), "title"), "One");
    assert!(!known.has("2"));
    match details_reply("[") {
        Err(e) => assert!(e.starts_with("Steam API trả JSON lỗi: EOF"), "{e}"),
        Ok(_) => panic!("no document"),
    }
    let children = collection_reply(
        r#"{"response": {"collectiondetails": [
            {"result": 9},
            {"result": 1, "children": [{"publishedfileid": "5"}, {"publishedfileid": "6"}]}]}}"#,
    );
    assert_eq!(children, Ok(texts(&["5", "6"])));
    assert_eq!(collection_reply("{}"), Ok(Vec::new()));
    assert!(collection_reply("").is_err());
}

#[test]
fn ids_are_found_in_what_is_looked_for() {
    assert_eq!(maybe_id(" 498441420 "), Some("498441420".to_string()));
    assert_eq!(
        maybe_id("https://steamcommunity.com/sharedfiles/filedetails/?id=42&searchtext=x"),
        Some("42".to_string())
    );
    assert_eq!(maybe_id("https://example.invalid/?id=x"), None);
    assert_eq!(maybe_id("cars"), None);
}

#[test]
fn a_listing_is_asked_for_as_wished() {
    let url = |q: &str, sort: &str, page, tags: &[&str], days| match browse(q, sort, page, &texts(tags), days).ask {
        BrowseAsk::Item(id) => id,
        BrowseAsk::Listing(url) => url.replace("https://steamcommunity.com/workshop/browse/?", ""),
    };
    assert_eq!(
        url("", "trend", 1, &[], None),
        "appid=108600&section=readytouseitems&browsesort=trend&p=1&days=7"
    );
    assert_eq!(
        url("", "totaluniquesubscriptions", 99, &["Map", "Nonsense"], Some("30")),
        "appid=108600&section=readytouseitems&browsesort=totaluniquesubscriptions&p=50&days=30&requiredtags%5B%5D=Map"
    );
    assert_eq!(
        url("", "mostrecent", 0, &[], Some("30")),
        "appid=108600&section=readytouseitems&browsesort=mostrecent&p=1"
    );
    assert_eq!(
        url("", "num_parent_items", 2, &[], None),
        "appid=108600&section=readytouseitems&browsesort=num_parent_items&p=2&special_filter=6&days=3650"
    );
    assert_eq!(
        url("a b", "toprated", 1, &[], None),
        "appid=108600&section=readytouseitems&browsesort=textsearch&p=1&searchtext=a%20b&days=3650"
    );
    assert_eq!(
        url("", "?", 1, &[], Some("8")),
        "appid=108600&section=readytouseitems&browsesort=trend&p=1&days=7"
    );
    assert_eq!(url("498441420", "trend", 1, &[], None), "498441420");
    let asked = browse("car", "trend", 1, &texts(&["Map", "Nonsense"]), None);
    assert_eq!(asked.wanted, ["Map"]);
    assert_eq!(wanted_tags(&texts(&["Nonsense"])), Vec::<String>::new());
    assert_eq!(sort_labels()[0], ("trend".to_string(), "Thịnh hành tuần".to_string()));
    assert!(tag_names().len() > 20);
}

#[test]
fn known_items_are_shown_in_order() {
    let mut known: Table<Json> = Table::new();
    known.set(
        "1".to_string(),
        json(
            r#"{"publishedfileid": "1", "title": "One", "preview_url": "https://x", "subscriptions": 5,
               "file_size": "7", "time_updated": 9, "tags": [{"tag": "Map"}],
               "description": " [b]bold[/b]\r\ntext "}"#,
        ),
    );
    known.set("2".to_string(), json(r#"{"publishedfileid": "2", "title": "Two"}"#));
    let shown = browse_result(&texts(&["2", "3", "1"]), &known, &Vec::new(), 4);
    assert_eq!(value_u64(&shown, "page"), 4);
    let items = shown.get("items").unwrap().array().unwrap();
    let titles: Vec<String> = items.iter().map(|item| value_string(item, "title")).collect();
    assert_eq!(titles, ["Two", "One"]);
    let shown = browse_result(&texts(&["2", "1"]), &known, &texts(&["Map"]), 1);
    assert_eq!(shown.get("items").unwrap().array().unwrap().len(), 1);
    let one = card(known.get("1").unwrap());
    assert_eq!(value_string(&one, "id"), "1");
    assert_eq!(value_string(&one, "preview"), "https://x");
    assert_eq!(value_u64(&one, "subs"), 5);
    assert_eq!(value_u64(&one, "size"), 7);
    assert_eq!(value_string(&one, "summary"), "bold\ntext");
    assert_eq!(one.strings("tags"), ["Map"]);
    assert_eq!(asked_item("1", &known), ["1"]);
    assert!(asked_item("3", &known).is_empty());
}

#[test]
fn mod_ids_are_searched_for_by_their_words() {
    let search = search_modid_candidates("NeatUI_Framework");
    assert_eq!(search.first, "NeatUI Framework");
    assert_eq!(search.second, Some("NeatUI_Framework".to_string()));
    assert_eq!(next_modid_search(&search, &Vec::new()), Some("NeatUI_Framework".to_string()));
    assert_eq!(next_modid_search(&search, &texts(&["1"])), None);
    let plain = search_modid_candidates("Plain");
    assert_eq!(plain.second, None);
    assert_eq!(next_modid_search(&plain, &Vec::new()), None);
    assert!(search_ids("NeatUI Framework").ends_with(
        "browsesort=textsearch&p=1&searchtext=NeatUI%20Framework"
    ));
    let html: String = (1..6)
        .map(|n| format!("<a href=\"sharedfiles/filedetails/?id={n}\">x</a>"))
        .collect();
    assert_eq!(search_hits(&html), ["1", "2", "3"]);
}

#[test]
fn a_download_is_followed_line_by_line() {
    let mut labels: Table<String> = Table::new();
    labels.set("1".to_string(), "One".to_string());
    let mut session = download_items_labeled(&texts(&["1", "2"]), labels).unwrap_or_else(|e| panic!("{e}"));
    assert!(session.read_line("Loading".to_string()).is_empty());
    assert_eq!(
        session.read_line("Success. Downloaded item 1 to \"x\"".to_string()),
        ["steamcmd: tải xong 1", "tải xong One (1/2)"]
    );
    assert!(session.read_line("Success. Downloaded item 1 to \"x\"".to_string()).is_empty());
    assert!(session.read_line("Success. Downloaded item 9 to \"x\"".to_string()).is_empty());
    let end = session.finish(&texts(&["1"]));
    assert_eq!(end.ids, ["1"]);
    assert_eq!(end.progress, ["! 2: steamcmd không tải được mục này"]);
    assert_eq!(one_item("1", &end), Ok(()));
    assert_eq!(one_item("2", &end), Err("steamcmd thất bại với 2".to_string()));
}

#[test]
fn the_last_lines_are_told_where_nothing_came() {
    let mut session = download_item("1").unwrap_or_else(|e| panic!("{e}"));
    for line in ["a", "b", " ", "c", "d", "e"] {
        session.read_line(line.to_string());
    }
    let end = session.finish(&Vec::new());
    assert_eq!(
        end.progress,
        [
            "! 1: steamcmd không tải được mục này",
            "! steamcmd không tải được mục nào: b | c | d | e"
        ]
    );
    assert!(download_items(&texts(&["1", "x"])).is_err());
    assert!(download_item("").is_err());
    let mut session = download_item_labeled("1", Some("One")).unwrap_or_else(|e| panic!("{e}"));
    assert_eq!(
        session.read_line("Success. Downloaded item 1 to x".to_string())[1],
        "tải xong One (1/1)"
    );
    let reuse = download_items_reuse(&texts(&["1", "2", "1"]), &texts(&["1"]));
    assert_eq!(reuse.have, ["1"]);
    assert_eq!(reuse.missing, ["2"]);
}
