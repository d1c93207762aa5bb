//! Looking for items: the listings, and what is shown of an item.
use vstd::prelude::*;

use crate::json::{
    json_number, json_object, json_texts, object_of, pairs_of, text_array, value_string, value_u64,
    Json, JsonView, NumberView,
};
use crate::page::{at_most, extract_listing_ids, listing_ids, take_texts};
use crate::table::{at, Table};
use crate::text::{
    chars_of, decimal, decimal_text, holds, opt_view, remove_char, replace_char, replaced, same,
    text_of, trim_bounds, trimmed, without,
};
use crate::url::{fields_form, form_body};
use crate::workshop::{app_id, maybe_id, meant_id, strip_bb, stripped, strings_under};

verus! {

/// How many characters of the description are shown in a listing.
pub const SUMMARY: usize = 220;

/// The description of an item as it is shown.
pub open spec fn plain_description(item: JsonView) -> Seq<char> {
    without(stripped(item.string("description"@)), '\r')
}

/// The beginning of the description of an item.
pub open spec fn summary_of(item: JsonView) -> Seq<char> {
    let t = trimmed(plain_description(item));
    if t.len() <= SUMMARY {
        t
    } else {
        t.take(SUMMARY as int)
    }
}

pub open spec fn number_field(item: JsonView, key: Seq<char>) -> JsonView {
    JsonView::Number(NumberView::Unsigned(item.number(key)))
}

/// What is shown of an item in a listing.
pub open spec fn card_fields(item: JsonView) -> Seq<(Seq<char>, JsonView)> {
    seq![
        ("id"@, JsonView::Str(item.string("publishedfileid"@))),
        ("title"@, JsonView::Str(item.string("title"@))),
        ("preview"@, JsonView::Str(item.string("preview_url"@))),
        ("subs"@, number_field(item, "subscriptions"@)),
        ("size"@, number_field(item, "file_size"@)),
        ("updated"@, number_field(item, "time_updated"@)),
        ("tags"@, text_array(strings_under(item.list("tags"@), "tag"@))),
        ("summary"@, JsonView::Str(summary_of(item))),
    ]
}

/// The description of an item as it is shown.
pub fn description_text(item: &Json) -> (r: String)
    ensures
        r@ == plain_description(item.model()),
{
    let raw = value_string(item, "description");
    let plain = strip_bb(raw.as_str());
    remove_char(plain.as_str(), '\r')
}

fn summary_text(item: &Json) -> (r: String)
    ensures
        r@ == summary_of(item.model()),
{
    let text = description_text(item);
    let chars = chars_of(text.as_str());
    let (a, b) = trim_bounds(&chars, 0, chars.len());
    let ghost t = trimmed(plain_description(item.model()));
    assert(chars@.subrange(0, chars.len() as int) =~= text@);
    if b - a <= SUMMARY {
        text_of(&chars, a, b)
    } else {
        assert(chars@.subrange(a as int, a + SUMMARY) =~= t.take(SUMMARY as int));
        text_of(&chars, a, a + SUMMARY)
    }
}

fn tag_texts(item: &Json) -> (r: Vec<String>)
    ensures
        r.deep_view() == strings_under(item.model().list("tags"@), "tag"@),
{
    let mut r: Vec<String> = Vec::new();
    assert(r.deep_view() =~= seq![]);
    match item.get("tags") {
        Some(x) => match x.array() {
            Some(tags) => {
                let ghost all = tags.deep_view();
                let mut i: usize = 0;
                while i < tags.len()
                    invariant
                        i <= tags.len(),
                        all == tags.deep_view(),
                        r.deep_view() == strings_under(all.take(i as int), "tag"@),
                    decreases tags.len() - i,
                {
                    assert(all.take(i + 1).drop_last() =~= all.take(i as int));
                    let s = value_string(&tags[i], "tag");
                    if s.unicode_len() > 0 {
                        let ghost before = r.deep_view();
                        r.push(s);
                        assert(r.deep_view() =~= before.push(s@));
                    }
                    i += 1;
                }
                assert(all.take(tags.len() as int) =~= all);
            },
            None => {},
        },
        None => {},
    }
    r
}

/// The fields of what is shown of an item in a listing.
pub fn card_parts(detail: &Json) -> (r: Vec<(String, Json)>)
    ensures
        pairs_of(r@) == card_fields(detail.model()),
{
    let tags = tag_texts(detail);
    let mut f: Vec<(String, Json)> = Vec::new();
    f.push(("id".to_string(), Json::Str(value_string(detail, "publishedfileid"))));
    f.push(("title".to_string(), Json::Str(value_string(detail, "title"))));
    f.push(("preview".to_string(), Json::Str(value_string(detail, "preview_url"))));
    f.push(("subs".to_string(), json_number(value_u64(detail, "subscriptions"))));
    f.push(("size".to_string(), json_number(value_u64(detail, "file_size"))));
    f.push(("updated".to_string(), json_number(value_u64(detail, "time_updated"))));
    f.push(("tags".to_string(), json_texts(&tags)));
    f.push(("summary".to_string(), Json::Str(summary_text(detail))));
    assert(pairs_of(f@) =~= card_fields(detail.model()));
    f
}

/// What is shown of an item in a listing.
pub fn card(detail: &Json) -> (r: Json)
    ensures
        r.model() == object_of(card_fields(detail.model())),
{
    json_object(card_parts(detail))
}

/// Whether one of `tags` is the tag `tag`.
pub open spec fn tag_stands(tags: Seq<JsonView>, tag: Seq<char>) -> bool {
    exists|i: int|
        0 <= i < tags.len() && (#[trigger] tags[i]).field("tag"@) == Some(JsonView::Str(tag))
}

/// Whether an item has every one of the tags.
pub open spec fn tagged(item: JsonView, wanted: Seq<Seq<char>>) -> bool {
    forall|k: int| 0 <= k < wanted.len() ==> tag_stands(item.list("tags"@), #[trigger] wanted[k])
}

fn has_tag(item: &Json, tag: &str) -> (r: bool)
    ensures
        r == tag_stands(item.model().list("tags"@), tag@),
{
    match item.get("tags") {
        Some(x) => match x.array() {
            Some(tags) => {
                let ghost all = tags.deep_view();
                let mut i: usize = 0;
                while i < tags.len()
                    invariant
                        i <= tags.len(),
                        all == tags.deep_view(),
                        all == item.model().list("tags"@),
                        forall|k: int|
                            0 <= k < i ==> (#[trigger] all[k]).field("tag"@) != Some(
                                JsonView::Str(tag@),
                            ),
                    decreases tags.len() - i,
                {
                    assert(all[i as int] == tags@[i as int].model());
                    match tags[i].get("tag") {
                        Some(Json::Str(s)) => {
                            if same(s.as_str(), tag) {
                                return true;
                            }
                        },
                        _ => {},
                    }
                    i += 1;
                }
                false
            },
            None => false,
        },
        None => false,
    }
}

/// Whether an item has every one of the tags.
pub fn has_tags(item: &Json, wanted: &Vec<String>) -> (r: bool)
    ensures
        r == tagged(item.model(), wanted.deep_view()),
{
    let ghost all = wanted.deep_view();
    let mut i: usize = 0;
    while i < wanted.len()
        invariant
            i <= wanted.len(),
            all == wanted.deep_view(),
            forall|k: int|
                0 <= k < i ==> tag_stands(item.model().list("tags"@), #[trigger] all[k]),
        decreases wanted.len() - i,
    {
        assert(all[i as int] == wanted@[i as int]@);
        if !has_tag(item, wanted[i].as_str()) {
            return false;
        }
        i += 1;
    }
    true
}

/// The ways to sort a listing, each with its label.
pub open spec fn sorts() -> Seq<(Seq<char>, Seq<char>)> {
    seq![
        ("trend"@, "Thịnh hành tuần"@),
        ("totaluniquesubscriptions"@, "Nhiều sub nhất"@),
        ("toprated"@, "Đánh giá cao nhất"@),
        ("num_parent_items"@, "Được cần nhiều nhất"@),
        ("mostrecent"@, "Mới nhất"@),
        ("textsearch"@, "Khớp từ khoá"@),
    ]
}

/// The ways to sort a listing, each with its label.
pub fn sort_labels() -> (r: Vec<(String, String)>)
    ensures
        r.deep_view() == sorts(),
{
    let mut r: Vec<(String, String)> = Vec::new();
    r.push(("trend".to_string(), "Thịnh hành tuần".to_string()));
    r.push(("totaluniquesubscriptions".to_string(), "Nhiều sub nhất".to_string()));
    r.push(("toprated".to_string(), "Đánh giá cao nhất".to_string()));
    r.push(("num_parent_items".to_string(), "Được cần nhiều nhất".to_string()));
    r.push(("mostrecent".to_string(), "Mới nhất".to_string()));
    r.push(("textsearch".to_string(), "Khớp từ khoá".to_string()));
    assert(r.deep_view() =~= sorts());
    r
}

/// The time windows that can be asked for, each with its label.
pub open spec fn windows() -> Seq<(Seq<char>, Seq<char>)> {
    seq![
        ("7"@, "1 tuần"@),
        ("30"@, "1 tháng"@),
        ("90"@, "3 tháng"@),
        ("180"@, "6 tháng"@),
        ("365"@, "1 năm"@),
        ("3650"@, "Tất cả"@),
    ]
}

/// The time windows that can be asked for, each with its label.
pub fn periods() -> (r: Vec<(String, String)>)
    ensures
        r.deep_view() == windows(),
{
    let mut r: Vec<(String, String)> = Vec::new();
    r.push(("7".to_string(), "1 tuần".to_string()));
    r.push(("30".to_string(), "1 tháng".to_string()));
    r.push(("90".to_string(), "3 tháng".to_string()));
    r.push(("180".to_string(), "6 tháng".to_string()));
    r.push(("365".to_string(), "1 năm".to_string()));
    r.push(("3650".to_string(), "Tất cả".to_string()));
    assert(r.deep_view() =~= windows());
    r
}

/// The tags that can be asked for.
pub open spec fn known_tags() -> Seq<Seq<char>> {
    seq![
        "Build 40"@,
        "Build 41"@,
        "Build 42"@,
        "Animals"@,
        "Audio"@,
        "Balance"@,
        "Building"@,
        "Clothing/Armor"@,
        "Farming"@,
        "Food"@,
        "Framework"@,
        "Hardmode"@,
        "Interface"@,
        "Items"@,
        "Language/Translation"@,
        "Literature"@,
        "Map"@,
        "Military"@,
        "Misc"@,
        "Models"@,
        "Multiplayer"@,
        "Pop Culture"@,
        "Realistic"@,
        "Silly/Fun"@,
        "Skills"@,
        "Textures"@,
        "Traits"@,
        "Vehicles"@,
        "QoL"@,
        "WIP"@,
        "Weapons"@,
    ]
}

/// The tags that can be asked for.
pub fn tag_names() -> (r: Vec<String>)
    ensures
        r.deep_view() == known_tags(),
{
    let mut r: Vec<String> = Vec::new();
    r.push("Build 40".to_string());
    r.push("Build 41".to_string());
    r.push("Build 42".to_string());
    r.push("Animals".to_string());
    r.push("Audio".to_string());
    r.push("Balance".to_string());
    r.push("Building".to_string());
    r.push("Clothing/Armor".to_string());
    r.push("Farming".to_string());
    r.push("Food".to_string());
    r.push("Framework".to_string());
    r.push("Hardmode".to_string());
    r.push("Interface".to_string());
    r.push("Items".to_string());
    r.push("Language/Translation".to_string());
    r.push("Literature".to_string());
    r.push("Map".to_string());
    r.push("Military".to_string());
    r.push("Misc".to_string());
    r.push("Models".to_string());
    r.push("Multiplayer".to_string());
    r.push("Pop Culture".to_string());
    r.push("Realistic".to_string());
    r.push("Silly/Fun".to_string());
    r.push("Skills".to_string());
    r.push("Textures".to_string());
    r.push("Traits".to_string());
    r.push("Vehicles".to_string());
    r.push("QoL".to_string());
    r.push("WIP".to_string());
    r.push("Weapons".to_string());
    assert(r.deep_view() =~= known_tags());
    r
}

/// The time window that goes with a way to sort where none is asked for. Without
/// one the workshop forgets how to sort; it takes none with the newest items, and
/// ranks the best rated ones alike over every window.
pub open spec fn window_of(sort: Seq<char>) -> Option<Seq<char>> {
    if sort == "trend"@ {
        Some("7"@)
    } else if sort == "totaluniquesubscriptions"@ || sort == "num_parent_items"@ || sort
        == "textsearch"@ {
        Some("3650"@)
    } else {
        None
    }
}

/// The time window that goes with a way to sort where none is asked for.
pub fn sort_days(browse_sort: &str) -> (r: Option<&'static str>)
    ensures
        opt_view(r) == window_of(browse_sort@),
{
    if same(browse_sort, "trend") {
        Some("7")
    } else if same(browse_sort, "totaluniquesubscriptions") || same(browse_sort, "num_parent_items")
        || same(browse_sort, "textsearch") {
        Some("3650")
    } else {
        None
    }
}

pub open spec fn first_parts(pairs: Seq<(Seq<char>, Seq<char>)>) -> Seq<Seq<char>> {
    pairs.map_values(|p: (Seq<char>, Seq<char>)| p.0)
}

fn names_pair(pairs: &Vec<(String, String)>, name: &str) -> (r: bool)
    ensures
        r == first_parts(pairs.deep_view()).contains(name@),
{
    let ghost all = first_parts(pairs.deep_view());
    let mut i: usize = 0;
    while i < pairs.len()
        invariant
            i <= pairs.len(),
            all == first_parts(pairs.deep_view()),
            forall|k: int| 0 <= k < i ==> #[trigger] all[k] != name@,
        decreases pairs.len() - i,
    {
        assert(all[i as int] == pairs@[i as int].0@);
        if same(pairs[i].0.as_str(), name) {
            return true;
        }
        i += 1;
    }
    false
}

/// Those of the tags that can be asked for.
pub open spec fn usable_tags(tags: Seq<Seq<char>>) -> Seq<Seq<char>>
    decreases tags.len(),
{
    if tags.len() == 0 {
        seq![]
    } else {
        let r = usable_tags(tags.drop_last());
        if known_tags().contains(tags.last()) {
            r.push(tags.last())
        } else {
            r
        }
    }
}

/// Those of the tags that can be asked for.
pub fn wanted_tags(tags: &Vec<String>) -> (r: Vec<String>)
    ensures
        r.deep_view() == usable_tags(tags.deep_view()),
{
    let known = tag_names();
    let mut r: Vec<String> = Vec::new();
    let ghost all = tags.deep_view();
    let mut i: usize = 0;
    assert(r.deep_view() =~= seq![]);
    while i < tags.len()
        invariant
            i <= tags.len(),
            all == tags.deep_view(),
            known.deep_view() == known_tags(),
            r.deep_view() == usable_tags(all.take(i as int)),
        decreases tags.len() - i,
    {
        assert(all.take(i + 1).drop_last() =~= all.take(i as int));
        if holds(&known, tags[i].as_str()) {
            let ghost before = r.deep_view();
            r.push(tags[i].clone());
            assert(r.deep_view() =~= before.push(tags@[i as int]@));
        }
        i += 1;
    }
    assert(all.take(tags.len() as int) =~= all);
    r
}

/// A page number that the workshop has.
pub open spec fn page_number(page: u32) -> u32 {
    if page < 1 {
        1
    } else if page > 50 {
        50
    } else {
        page
    }
}

/// The way in which a listing is sorted: a search by relevance, else as asked,
/// or by trend where it is asked for in no known way.
pub open spec fn listing_sort(q: Seq<char>, sort: Seq<char>) -> Seq<char> {
    if q.len() > 0 {
        "textsearch"@
    } else if first_parts(sorts()).contains(sort) {
        sort
    } else {
        "trend"@
    }
}

/// The time window of a listing.
pub open spec fn listing_window(sort: Seq<char>, days: Option<Seq<char>>) -> Option<Seq<char>> {
    match window_of(sort) {
        None => None,
        Some(fallback) => match days {
            Some(asked) => if first_parts(windows()).contains(asked) {
                Some(asked)
            } else {
                Some(fallback)
            },
            None => Some(fallback),
        },
    }
}

/// Every way to sort that is offered carries a time window, the newest and the best
/// rated items apart, and the window of a listing is one that is offered.
pub proof fn law_sorts_carry_offered_windows(sort: Seq<char>, days: Option<Seq<char>>)
    requires
        first_parts(sorts()).contains(sort),
    ensures
        listing_window(sort, days) is None <==> sort == "mostrecent"@ || sort == "toprated"@,
        listing_window(sort, days) matches Some(w) ==> first_parts(windows()).contains(w),
        days matches Some(asked) ==> first_parts(windows()).contains(asked) && listing_window(
            sort,
            days,
        ) is Some ==> listing_window(sort, days) == Some(asked),
{
    reveal_strlit("trend");
    reveal_strlit("totaluniquesubscriptions");
    reveal_strlit("toprated");
    reveal_strlit("num_parent_items");
    reveal_strlit("mostrecent");
    reveal_strlit("textsearch");
    assert("mostrecent"@[0] != "textsearch"@[0]);
    let k = choose|k: int| 0 <= k < first_parts(sorts()).len() && first_parts(sorts())[k] == sort;
    assert(sorts()[k].0 == sort);
    assert(first_parts(windows())[0] == "7"@);
    assert(first_parts(windows())[5] == "3650"@);
}

/// The fields that ask for a listing. The sort by how many need an item works
/// only with a filter of its own.
pub open spec fn listing_fields(
    q: Seq<char>,
    sort: Seq<char>,
    page: u32,
    wanted: Seq<Seq<char>>,
    days: Option<Seq<char>>,
) -> Seq<(Seq<char>, Seq<char>)> {
    let s = listing_sort(q, sort);
    let head = seq![
        ("appid"@, app_id()),
        ("section"@, "readytouseitems"@),
        ("browsesort"@, s),
        ("p"@, decimal(page as nat)),
    ];
    let search = if q.len() > 0 {
        seq![("searchtext"@, q)]
    } else {
        seq![]
    };
    let filter = if s == "num_parent_items"@ {
        seq![("special_filter"@, "6"@)]
    } else {
        seq![]
    };
    let window = match listing_window(s, days) {
        Some(w) => seq![("days"@, w)],
        None => seq![],
    };
    head + search + filter + window + wanted.map_values(
        |t: Seq<char>| ("requiredtags[]"@, t),
    )
}

pub open spec fn browse_url(fields: Seq<(Seq<char>, Seq<char>)>) -> Seq<char> {
    "https://steamcommunity.com/workshop/browse/?"@ + fields_form(fields)
}

/// What is asked of the workshop: one item, or a listing at an address.
pub enum BrowseAsk {
    Item(String),
    Listing(String),
}

/// A request for a listing: what is asked, the page, and the tags that every item
/// must have.
pub struct Browse {
    pub ask: BrowseAsk,
    pub page: u32,
    pub wanted: Vec<String>,
}

fn push_field(fields: &mut Vec<(String, String)>, key: &str, value: &str)
    ensures
        final(fields).deep_view() == old(fields).deep_view().push((key@, value@)),
{
    let ghost before = fields.deep_view();
    fields.push((key.to_string(), value.to_string()));
    assert(fields.deep_view() =~= before.push((key@, value@)));
}

fn listing_request(q: &str, sort: &str, page: u32, wanted: &Vec<String>, days: Option<&str>) -> (r:
    Vec<(String, String)>)
    ensures
        r.deep_view() == listing_fields(q@, sort@, page, wanted.deep_view(), opt_view(days)),
{
    let empty = q.is_empty();
    let known = sort_labels();
    let s: &str = if !empty {
        "textsearch"
    } else if names_pair(&known, sort) {
        sort
    } else {
        "trend"
    };
    let mut f: Vec<(String, String)> = Vec::new();
    assert(f.deep_view() =~= seq![]);
    push_field(&mut f, "appid", "108600");
    push_field(&mut f, "section", "readytouseitems");
    push_field(&mut f, "browsesort", s);
    let number = decimal_text(page as u64);
    push_field(&mut f, "p", number.as_str());
    let ghost head = f.deep_view();
    if !empty {
        push_field(&mut f, "searchtext", q);
    }
    let ghost with_search = f.deep_view();
    if same(s, "num_parent_items") {
        push_field(&mut f, "special_filter", "6");
    }
    let ghost with_filter = f.deep_view();
    match sort_days(s) {
        Some(fallback) => {
            let offered = periods();
            let window: &str = match days {
                Some(asked) => {
                    if names_pair(&offered, asked) {
                        asked
                    } else {
                        fallback
                    }
                },
                None => fallback,
            };
            push_field(&mut f, "days", window);
        },
        None => {},
    }
    let ghost with_window = f.deep_view();
    let ghost all = wanted.deep_view().map_values(|t: Seq<char>| ("requiredtags[]"@, t));
    let mut i: usize = 0;
    assert(with_window + all.take(0) =~= with_window);
    while i < wanted.len()
        invariant
            i <= wanted.len(),
            all == wanted.deep_view().map_values(|t: Seq<char>| ("requiredtags[]"@, t)),
            f.deep_view() == with_window + all.take(i as int),
        decreases wanted.len() - i,
    {
        push_field(&mut f, "requiredtags[]", wanted[i].as_str());
        proof {
            assert(all[i as int] == ("requiredtags[]"@, wanted@[i as int]@));
            assert(f.deep_view() =~= with_window + all.take(i + 1));
        }
        i += 1;
    }
    assert(all.take(wanted.len() as int) =~= all);
    assert(f.deep_view() =~= listing_fields(
        q@,
        sort@,
        page,
        wanted.deep_view(),
        opt_view(days),
    ));
    f
}

/// What is asked of the workshop for a listing is `r`.
pub open spec fn is_request(
    r: Browse,
    q: Seq<char>,
    sort: Seq<char>,
    page: u32,
    tags: Seq<Seq<char>>,
    days: Option<Seq<char>>,
) -> bool {
    &&& r.page == page_number(page)
    &&& r.wanted.deep_view() == usable_tags(tags)
    &&& match meant_id(q) {
        Some(id) => r.ask matches BrowseAsk::Item(x) && x@ == id,
        None => r.ask matches BrowseAsk::Listing(x) && x@ == browse_url(
            listing_fields(q, sort, page_number(page), usable_tags(tags), days),
        ),
    }
}

/// What is asked of the workshop for a listing. Where the words that are looked
/// for mean an item, that item is asked for.
pub fn browse(q: &str, sort: &str, page: u32, tags: &Vec<String>, days: Option<&str>) -> (r: Browse)
    ensures
        is_request(r, q@, sort@, page, tags.deep_view(), opt_view(days)),
{
    let page = if page < 1 {
        1
    } else if page > 50 {
        50
    } else {
        page
    };
    let wanted = wanted_tags(tags);
    let ask = match maybe_id(q) {
        Some(id) => BrowseAsk::Item(id),
        None => {
            let fields = listing_request(q, sort, page, &wanted, days);
            let body = form_body(&fields);
            BrowseAsk::Listing(
                "https://steamcommunity.com/workshop/browse/?".to_string().concat(body.as_str()),
            )
        },
    };
    Browse { ask, page, wanted }
}

/// The ids that are shown: of an item that is known its own, of one that is not
/// none.
pub fn asked_item(id: &str, known: &Table<Json>) -> (r: Vec<String>)
    ensures
        r.deep_view() == (if at(known.deep_view(), id@) is Some {
            seq![id@]
        } else {
            seq![]
        }),
{
    let mut r: Vec<String> = Vec::new();
    if known.has(id) {
        r.push(id.to_string());
        assert(r.deep_view() =~= seq![id@]);
    } else {
        assert(r.deep_view() =~= seq![]);
    }
    r
}

/// The cards of the items that are known and have the tags, in order.
pub open spec fn cards(
    ids: Seq<Seq<char>>,
    known: Seq<(Seq<char>, JsonView)>,
    wanted: Seq<Seq<char>>,
) -> Seq<JsonView>
    decreases ids.len(),
{
    if ids.len() == 0 {
        seq![]
    } else {
        let r = cards(ids.drop_last(), known, wanted);
        match at(known, ids.last()) {
            Some(item) => if tagged(item, wanted) {
                r.push(object_of(card_fields(item)))
            } else {
                r
            },
            None => r,
        }
    }
}

/// What is shown for a request: the items and the page.
pub open spec fn listing_view(items: Seq<JsonView>, page: u32) -> JsonView {
    object_of(
        seq![
            ("items"@, JsonView::Array(items)),
            ("page"@, JsonView::Number(NumberView::Unsigned(page as u64))),
        ],
    )
}

/// What is shown for a request, given the ids of the listing and what is known of
/// them.
pub fn browse_result(ids: &Vec<String>, known: &Table<Json>, wanted: &Vec<String>, page: u32) -> (r:
    Json)
    ensures
        r.model() == listing_view(
            cards(ids.deep_view(), known.deep_view(), wanted.deep_view()),
            page,
        ),
{
    let mut items: Vec<Json> = Vec::new();
    let ghost all = ids.deep_view();
    let ghost k = known.deep_view();
    let ghost w = wanted.deep_view();
    let mut i: usize = 0;
    assert(items.deep_view() =~= seq![]);
    while i < ids.len()
        invariant
            i <= ids.len(),
            all == ids.deep_view(),
            k == known.deep_view(),
            w == wanted.deep_view(),
            items.deep_view() == cards(all.take(i as int), k, w),
        decreases ids.len() - i,
    {
        assert(all.take(i + 1).drop_last() =~= all.take(i as int));
        match known.get(ids[i].as_str()) {
            Some(item) => {
                if has_tags(item, wanted) {
                    let ghost before = items.deep_view();
                    let c = card(item);
                    items.push(c);
                    assert(items.deep_view() =~= before.push(c.model()));
                }
            },
            None => {},
        }
        i += 1;
    }
    assert(all.take(ids.len() as int) =~= all);
    let list = Json::Array(items);
    assert(list.model()->Array_0 =~= items.deep_view());
    let mut f: Vec<(String, Json)> = Vec::new();
    f.push(("items".to_string(), list));
    f.push(("page".to_string(), json_number(page as u64)));
    assert(pairs_of(f@) =~= seq![
        ("items"@, JsonView::Array(cards(all, k, w))),
        ("page"@, JsonView::Number(NumberView::Unsigned(page as u64))),
    ]);
    json_object(f)
}

/// How many of a search are looked at.
pub const SEARCH_HITS: usize = 3;

/// The address of a search for `query`.
pub open spec fn search_url(query: Seq<char>) -> Seq<char> {
    browse_url(
        seq![
            ("appid"@, app_id()),
            ("section"@, "readytouseitems"@),
            ("browsesort"@, "textsearch"@),
            ("p"@, "1"@),
            ("searchtext"@, query),
        ],
    )
}

/// The address of a search for `query`.
pub fn search_ids(query: &str) -> (r: String)
    ensures
        r@ == search_url(query@),
{
    let mut f: Vec<(String, String)> = Vec::new();
    assert(f.deep_view() =~= seq![]);
    push_field(&mut f, "appid", "108600");
    push_field(&mut f, "section", "readytouseitems");
    push_field(&mut f, "browsesort", "textsearch");
    push_field(&mut f, "p", "1");
    push_field(&mut f, "searchtext", query);
    assert(f.deep_view() =~= seq![
        ("appid"@, app_id()),
        ("section"@, "readytouseitems"@),
        ("browsesort"@, "textsearch"@),
        ("p"@, "1"@),
        ("searchtext"@, query@),
    ]);
    let body = form_body(&f);
    "https://steamcommunity.com/workshop/browse/?".to_string().concat(body.as_str())
}

/// The items that a search brought, as far as they are looked at.
pub fn search_hits(html: &str) -> (r: Vec<String>)
    ensures
        r.deep_view() == at_most(listing_ids(html@), SEARCH_HITS as int),
{
    let ids = extract_listing_ids(html);
    take_texts(ids, SEARCH_HITS)
}

/// What is searched for to find a mod id: the id with spaces for its underscores,
/// and the id itself where that brings nothing.
pub struct ModidSearch {
    pub first: String,
    pub second: Option<String>,
}

/// What is searched for to find a mod id is `r`.
pub open spec fn are_searches(r: ModidSearch, modid: Seq<char>) -> bool {
    &&& r.first@ == replaced(modid, '_', ' ')
    &&& match r.second {
        Some(s) => s@ == modid && replaced(modid, '_', ' ') != modid,
        None => replaced(modid, '_', ' ') == modid,
    }
}

/// What is searched for to find a mod id; the second search is made only where
/// the first one brings nothing, and only where it differs.
pub fn search_modid_candidates(modid: &str) -> (r: ModidSearch)
    ensures
        are_searches(r, modid@),
{
    let spaced = replace_char(modid, '_', ' ');
    let second = if same(spaced.as_str(), modid) {
        None
    } else {
        Some(modid.to_string())
    };
    ModidSearch { first: spaced, second }
}

/// What is searched for after the first search brought `found`; nothing where it
/// brought something.
pub fn next_modid_search(search: &ModidSearch, found: &Vec<String>) -> (r: Option<String>)
    ensures
        r.deep_view() == (if found.len() == 0 {
            search.second.deep_view()
        } else {
            None
        }),
{
    if found.len() > 0 {
        return None;
    }
    match &search.second {
        Some(words) => Some(words.clone()),
        None => None,
    }
}

} // verus!
