//! What asking the workshop promises: a request says what was wished, and nothing of
//! what comes back is lost on the way to what is shown.
use vstd::prelude::*;
use vstd::utf8::{encode_utf8, encode_utf8_decode_utf8};

use crate::browse::{
    are_searches, browse_url, card_fields, cards, first_parts, is_request, known_tags,
    listing_fields, listing_sort, listing_view, listing_window, page_number, plain_description,
    search_url, sorts, summary_of, tag_stands, tagged, usable_tags, windows, Browse, BrowseAsk,
    ModidSearch, SEARCH_HITS,
};
use crate::json::{lemma_fields_lookup, object_of, text_array, JsonView, NumberView};
use crate::page::{at_most, listing_ids};
use crate::table::at;
use crate::text::{decimal, index_of, joined, lemma_index_of, split, split_from};
use crate::text_laws::{is_middle, law_decimals_differ, law_trimming_leaves_the_middle};
use crate::url::{
    bytes_meant, field_form, fields_form, is_plain, law_url_form_can_be_read_back,
    law_url_form_is_plain, url_form,
};
use crate::workshop::{app_id, meant_id, strings_under};

verus! {

/// The one value that the fields have under `key` is `value`.
pub open spec fn says(
    fields: Seq<(Seq<char>, Seq<char>)>,
    key: Seq<char>,
    value: Seq<char>,
) -> bool {
    &&& fields.contains((key, value))
    &&& forall|i: int| 0 <= i < fields.len() && (#[trigger] fields[i]).0 == key ==> fields[i].1 == value
}

/// The fields have nothing under `key`.
pub open spec fn says_nothing(fields: Seq<(Seq<char>, Seq<char>)>, key: Seq<char>) -> bool {
    forall|i: int| 0 <= i < fields.len() ==> (#[trigger] fields[i]).0 != key
}

proof fn lemma_listing_keys()
    ensures
        "appid"@.len() == 5,
        "section"@.len() == 7,
        "browsesort"@.len() == 10,
        "p"@.len() == 1,
        "searchtext"@.len() == 10,
        "special_filter"@.len() == 14,
        "days"@.len() == 4,
        "requiredtags[]"@.len() == 14,
        "browsesort"@ != "searchtext"@,
        "special_filter"@ != "requiredtags[]"@,
{
    reveal_strlit("appid");
    reveal_strlit("section");
    reveal_strlit("browsesort");
    reveal_strlit("p");
    reveal_strlit("searchtext");
    reveal_strlit("special_filter");
    reveal_strlit("days");
    reveal_strlit("requiredtags[]");
    assert("browsesort"@[0] != "searchtext"@[0]);
    assert("special_filter"@[0] != "requiredtags[]"@[0]);
}

/// What a listing is asked for: the words that are looked for, if any, the page, the
/// way to sort, the time window and every tag, each under its key.
pub proof fn law_a_listing_is_asked_for_as_wished(
    q: Seq<char>,
    sort: Seq<char>,
    page: u32,
    wanted: Seq<Seq<char>>,
    days: Option<Seq<char>>,
)
    ensures
        ({
            let f = listing_fields(q, sort, page, wanted, days);
            let by = if q.len() > 0 {
                "textsearch"@
            } else if first_parts(sorts()).contains(sort) {
                sort
            } else {
                "trend"@
            };
            &&& says(f, "appid"@, "108600"@)
            &&& says(f, "section"@, "readytouseitems"@)
            &&& says(f, "browsesort"@, by)
            &&& says(f, "p"@, decimal(page as nat))
            &&& if q.len() > 0 {
                says(f, "searchtext"@, q)
            } else {
                says_nothing(f, "searchtext"@)
            }
            &&& if by == "num_parent_items"@ {
                says(f, "special_filter"@, "6"@)
            } else {
                says_nothing(f, "special_filter"@)
            }
            &&& match listing_window(by, days) {
                Some(w) => says(f, "days"@, w),
                None => says_nothing(f, "days"@),
            }
            &&& forall|t: Seq<char>|
                #[trigger] f.contains(("requiredtags[]"@, t)) <==> wanted.contains(t)
        }),
{
    lemma_listing_keys();
    let s = listing_sort(q, sort);
    let head = seq![
        ("appid"@, app_id()),
        ("section"@, "readytouseitems"@),
        ("browsesort"@, s),
        ("p"@, decimal(page as nat)),
    ];
    let search = if q.len() > 0 {
        seq![("searchtext"@, q)]
    } else {
        seq![]
    };
    let filter = if s == "num_parent_items"@ {
        seq![("special_filter"@, "6"@)]
    } else {
        seq![]
    };
    let window = match listing_window(s, days) {
        Some(w) => seq![("days"@, w)],
        None => seq![],
    };
    let tags = wanted.map_values(|t: Seq<char>| ("requiredtags[]"@, t));
    let f = listing_fields(q, sort, page, wanted, days);
    let n1 = head.len() as int;
    let n2 = n1 + search.len();
    let n3 = n2 + filter.len();
    let n4 = n3 + window.len();
    assert(f =~= head + search + filter + window + tags);
    assert forall|i: int| 0 <= i < f.len() implies #[trigger] f[i] == (if i < n1 {
        head[i]
    } else if i < n2 {
        search[i - n1]
    } else if i < n3 {
        filter[i - n2]
    } else if i < n4 {
        window[i - n3]
    } else {
        tags[i - n4]
    }) by {}
    assert(f[0] == ("appid"@, "108600"@));
    assert(f[1] == ("section"@, "readytouseitems"@));
    assert(f[2] == ("browsesort"@, s));
    assert(f[3] == ("p"@, decimal(page as nat)));
    if q.len() > 0 {
        assert(f[n1] == ("searchtext"@, q));
    }
    if s == "num_parent_items"@ {
        assert(f[n2] == ("special_filter"@, "6"@));
    }
    if let Some(w) = listing_window(s, days) {
        assert(f[n3] == ("days"@, w));
    }
    assert forall|t: Seq<char>| #[trigger] f.contains(("requiredtags[]"@, t)) <==> wanted.contains(
        t,
    ) by {
        if f.contains(("requiredtags[]"@, t)) {
            let i = choose|i: int| 0 <= i < f.len() && f[i] == ("requiredtags[]"@, t);
            assert(i >= n4);
            assert(wanted[i - n4] == t);
        }
        if wanted.contains(t) {
            let i = choose|i: int| 0 <= i < wanted.len() && wanted[i] == t;
            assert(f[n4 + i] == tags[i]);
        }
    }
}

/// The page that is asked for is the page that was wished, as far as there is one: the
/// workshop has the pages from one to fifty.
pub proof fn law_the_wished_page_is_asked_for(page: u32)
    ensures
        1 <= page_number(page) <= 50,
        1 <= page <= 50 ==> page_number(page) == page,
        page < 1 ==> page_number(page) == 1,
        page > 50 ==> page_number(page) == 50,
{
}

/// A search for a mod id asks for the first page of what the words bring.
pub proof fn law_a_search_asks_for_its_words(query: Seq<char>) -> (f: Seq<(Seq<char>, Seq<char>)>)
    ensures
        search_url(query) == "https://steamcommunity.com/workshop/browse/?"@ + fields_form(f),
        says(f, "appid"@, "108600"@),
        says(f, "section"@, "readytouseitems"@),
        says(f, "browsesort"@, "textsearch"@),
        says(f, "p"@, "1"@),
        says(f, "searchtext"@, query),
{
    lemma_listing_keys();
    let f = seq![
        ("appid"@, app_id()),
        ("section"@, "readytouseitems"@),
        ("browsesort"@, "textsearch"@),
        ("p"@, "1"@),
        ("searchtext"@, query),
    ];
    assert(f[0] == ("appid"@, "108600"@));
    assert(f[1] == ("section"@, "readytouseitems"@));
    assert(f[2] == ("browsesort"@, "textsearch"@));
    assert(f[3] == ("p"@, "1"@));
    assert(f[4] == ("searchtext"@, query));
    f
}

/// Of a search the three first items are looked at.
pub proof fn law_three_hits_are_looked_at(html: Seq<char>)
    ensures
        ({
            let all = listing_ids(html);
            let hits = at_most(all, SEARCH_HITS as int);
            &&& hits.len() == (if all.len() < 3 {
                all.len()
            } else {
                3
            })
            &&& forall|i: int| 0 <= i < hits.len() ==> #[trigger] hits[i] == all[i]
        }),
{
}

proof fn lemma_split_of_joined(list: Seq<Seq<char>>, c: char, s: Seq<char>, i: int)
    requires
        list.len() > 0,
        forall|k: int| 0 <= k < list.len() ==> !(#[trigger] list[k]).contains(c),
        0 <= i <= s.len(),
        s.subrange(i, s.len() as int) == joined(list, seq![c]),
    ensures
        split_from(s, c, i) == list,
    decreases list.len(),
{
    let first = list[0];
    let rest = list.drop_first();
    let n = s.len() as int;
    lemma_joined_first(list, seq![c]);
    let tail = s.subrange(i, n);
    lemma_index_of(s, c, i);
    let j = index_of(s, c, i);
    if list.len() == 1 {
        if j < n {
            assert(first[j - i] == s[j]);
        }
        assert(split_from(s, c, i) =~= list);
    } else {
        let m = i + first.len();
        assert(tail == first + seq![c] + joined(rest, seq![c]));
        assert(tail[first.len() as int] == c);
        assert(s[m] == c);
        if j < m {
            assert(tail[j - i] == first[j - i]);
            assert(first[j - i] == c);
        }
        assert(j == m);
        assert(s.subrange(i, m) =~= first) by {
            assert forall|k: int| 0 <= k < first.len() implies s.subrange(i, m)[k] == first[k] by {
                assert(tail[k] == first[k]);
            }
        }
        assert(s.subrange(m + 1, n) =~= joined(rest, seq![c])) by {
            let r = joined(rest, seq![c]);
            assert(tail.len() == first.len() + 1 + r.len());
            assert forall|k: int| 0 <= k < r.len() implies s.subrange(m + 1, n)[k] == r[k] by {
                assert(tail[first.len() + 1 + k] == r[k]);
            }
        }
        assert forall|k: int| 0 <= k < rest.len() implies !(#[trigger] rest[k]).contains(c) by {
            assert(rest[k] == list[k + 1]);
        }
        lemma_split_of_joined(rest, c, s, m + 1);
        assert(seq![first] + rest =~= list);
    }
}

proof fn lemma_joined_first(list: Seq<Seq<char>>, sep: Seq<char>)
    requires
        list.len() > 0,
    ensures
        list.len() == 1 ==> joined(list, sep) == list[0],
        list.len() > 1 ==> joined(list, sep) == list[0] + sep + joined(list.drop_first(), sep),
    decreases list.len(),
{
    if list.len() > 1 {
        let t = list.drop_last();
        lemma_joined_first(t, sep);
        let rest = list.drop_first();
        if t.len() == 1 {
            assert(joined(rest, sep) == rest[0]);
        } else {
            assert(t.drop_first() =~= rest.drop_last());
            assert(rest.last() == list.last());
            assert(list[0] + sep + joined(t.drop_first(), sep) + sep + list.last() =~= list[0] + sep
                + (joined(t.drop_first(), sep) + sep + list.last()));
        }
    }
}

/// Texts that were joined are found again by splitting, where none of them holds what
/// stands between them.
pub proof fn law_joined_texts_can_be_split(list: Seq<Seq<char>>, c: char)
    requires
        list.len() > 0,
        forall|k: int| 0 <= k < list.len() ==> !(#[trigger] list[k]).contains(c),
    ensures
        split(joined(list, seq![c]), c) == list,
{
    let s = joined(list, seq![c]);
    assert(s.subrange(0, s.len() as int) =~= s);
    lemma_split_of_joined(list, c, s, 0);
}

proof fn lemma_no_separator(t: Seq<char>, c: char)
    requires
        c == '&' || c == '=',
    ensures
        !url_form(t).contains(c),
{
    let u = url_form(t);
    law_url_form_is_plain(encode_utf8(t));
    if u.contains(c) {
        let i = choose|i: int| 0 <= i < u.len() && u[i] == c;
        assert(u[i] == '%' || (u[i] as int) < 128 && is_plain(u[i] as u8));
    }
}

/// A form can be read back: between the ampersands stand its fields, in their order,
/// and around the equals sign of each its key and its value, of which no byte is lost.
pub proof fn law_a_form_can_be_read_back(fields: Seq<(Seq<char>, Seq<char>)>)
    requires
        fields.len() > 0,
    ensures
        split(fields_form(fields), '&').len() == fields.len(),
        forall|i: int|
            0 <= i < fields.len() ==> ({
                let parts = split(#[trigger] split(fields_form(fields), '&')[i], '=');
                &&& parts.len() == 2
                &&& bytes_meant(parts[0]) == encode_utf8(fields[i].0)
                &&& bytes_meant(parts[1]) == encode_utf8(fields[i].1)
            }),
{
    let list = fields.map_values(|f: (Seq<char>, Seq<char>)| field_form(f));
    reveal_strlit("=");
    reveal_strlit("&");
    assert("="@ =~= seq!['=']);
    assert("&"@ =~= seq!['&']);
    assert forall|k: int| 0 <= k < list.len() implies !(#[trigger] list[k]).contains('&') by {
        let (a, b) = fields[k];
        let p = list[k];
        lemma_no_separator(a, '&');
        lemma_no_separator(b, '&');
        if p.contains('&') {
            let i = choose|i: int| 0 <= i < p.len() && p[i] == '&';
            let n = url_form(a).len() as int;
            if i < n {
                assert(url_form(a)[i] == '&');
            } else if i > n {
                assert(url_form(b)[i - n - 1] == '&');
            }
        }
    }
    law_joined_texts_can_be_split(list, '&');
    assert forall|i: int| 0 <= i < fields.len() implies ({
        let parts = split(#[trigger] split(fields_form(fields), '&')[i], '=');
        &&& parts.len() == 2
        &&& bytes_meant(parts[0]) == encode_utf8(fields[i].0)
        &&& bytes_meant(parts[1]) == encode_utf8(fields[i].1)
    }) by {
        let (a, b) = fields[i];
        let two = seq![url_form(a), url_form(b)];
        lemma_no_separator(a, '=');
        lemma_no_separator(b, '=');
        assert(two.drop_last() =~= seq![url_form(a)]);
        assert(joined(two.drop_last(), seq!['=']) == url_form(a));
        assert(joined(two, seq!['=']) == field_form(fields[i]));
        assert forall|k: int| 0 <= k < two.len() implies !(#[trigger] two[k]).contains('=') by {}
        law_joined_texts_can_be_split(two, '=');
        law_url_form_can_be_read_back(encode_utf8(a));
        law_url_form_can_be_read_back(encode_utf8(b));
    }
}

/// Forms with different fields are different texts.
pub proof fn law_forms_differ(a: Seq<(Seq<char>, Seq<char>)>, b: Seq<(Seq<char>, Seq<char>)>)
    requires
        a.len() > 0,
        b.len() > 0,
        fields_form(a) == fields_form(b),
    ensures
        a == b,
{
    law_a_form_can_be_read_back(a);
    law_a_form_can_be_read_back(b);
    let parts = split(fields_form(a), '&');
    assert forall|i: int| 0 <= i < a.len() implies a[i] == b[i] by {
        let p = split(parts[i], '=');
        assert(bytes_meant(p[0]) == encode_utf8(a[i].0) && bytes_meant(p[0]) == encode_utf8(b[i].0));
        assert(bytes_meant(p[1]) == encode_utf8(a[i].1) && bytes_meant(p[1]) == encode_utf8(b[i].1));
        encode_utf8_decode_utf8(a[i].0);
        encode_utf8_decode_utf8(b[i].0);
        encode_utf8_decode_utf8(a[i].1);
        encode_utf8_decode_utf8(b[i].1);
    }
    assert(a =~= b);
}

/// Every page has an address of its own: whatever is looked for and however it is
/// sorted, requests for two pages ask at two addresses.
pub proof fn law_every_page_has_its_address(
    q: Seq<char>,
    sort: Seq<char>,
    wanted: Seq<Seq<char>>,
    days: Option<Seq<char>>,
    m: u32,
    n: u32,
)
    requires
        1 <= m <= 50,
        1 <= n <= 50,
        m != n,
    ensures
        browse_url(listing_fields(q, sort, page_number(m), wanted, days)) != browse_url(
            listing_fields(q, sort, page_number(n), wanted, days),
        ),
{
    let a = listing_fields(q, sort, page_number(m), wanted, days);
    let b = listing_fields(q, sort, page_number(n), wanted, days);
    let base = "https://steamcommunity.com/workshop/browse/?"@;
    law_a_listing_is_asked_for_as_wished(q, sort, m, wanted, days);
    law_a_listing_is_asked_for_as_wished(q, sort, n, wanted, days);
    if browse_url(a) == browse_url(b) {
        let (x, y) = (fields_form(a), fields_form(b));
        assert(x =~= (base + x).skip(base.len() as int));
        assert(y =~= (base + y).skip(base.len() as int));
        law_forms_differ(a, b);
        let i = choose|i: int| 0 <= i < a.len() && a[i] == ("p"@, decimal(m as nat));
        assert(b[i].0 == "p"@);
        law_decimals_differ(m as nat, n as nat);
    }
}

/// The tags that are asked for are those of the wished ones that the workshop has.
pub proof fn law_known_tags_are_asked_for(tags: Seq<Seq<char>>)
    ensures
        usable_tags(tags) == tags.filter(|t: Seq<char>| known_tags().contains(t)),
    decreases tags.len(),
{
    reveal(Seq::filter);
    if tags.len() > 0 {
        law_known_tags_are_asked_for(tags.drop_last());
    }
}

/// The windows that can be asked for, in days.
pub proof fn law_the_windows_are_those_of_the_workshop()
    ensures
        first_parts(windows()) == seq!["7"@, "30"@, "90"@, "180"@, "365"@, "3650"@],
{
    assert(first_parts(windows()) =~= seq!["7"@, "30"@, "90"@, "180"@, "365"@, "3650"@]);
}

proof fn lemma_card_keys()
    ensures
        "id"@.len() == 2,
        "title"@.len() == 5,
        "preview"@.len() == 7,
        "subs"@.len() == 4,
        "size"@.len() == 4,
        "updated"@.len() == 7,
        "tags"@.len() == 4,
        "summary"@.len() == 7,
        "subs"@ != "size"@,
        "subs"@ != "tags"@,
        "size"@ != "tags"@,
        "preview"@ != "updated"@,
        "preview"@ != "summary"@,
        "updated"@ != "summary"@,
{
    reveal_strlit("id");
    reveal_strlit("title");
    reveal_strlit("preview");
    reveal_strlit("subs");
    reveal_strlit("size");
    reveal_strlit("updated");
    reveal_strlit("tags");
    reveal_strlit("summary");
    assert("subs"@[1] != "size"@[1]);
    assert("subs"@[0] != "tags"@[0]);
    assert("size"@[0] != "tags"@[0]);
    assert("preview"@[0] != "updated"@[0]);
    assert("preview"@[0] != "summary"@[0]);
    assert("updated"@[0] != "summary"@[0]);
}

/// A card shows of an item what the workshop tells of it.
pub proof fn law_a_card_shows_the_item(item: JsonView)
    ensures
        ({
            let card = object_of(card_fields(item));
            &&& card.field("id"@) == Some(JsonView::Str(item.string("publishedfileid"@)))
            &&& card.field("title"@) == Some(JsonView::Str(item.string("title"@)))
            &&& card.field("preview"@) == Some(JsonView::Str(item.string("preview_url"@)))
            &&& card.field("subs"@) == Some(
                JsonView::Number(NumberView::Unsigned(item.number("subscriptions"@))),
            )
            &&& card.field("size"@) == Some(
                JsonView::Number(NumberView::Unsigned(item.number("file_size"@))),
            )
            &&& card.field("updated"@) == Some(
                JsonView::Number(NumberView::Unsigned(item.number("time_updated"@))),
            )
            &&& card.field("tags"@) == Some(text_array(strings_under(item.list("tags"@), "tag"@)))
            &&& card.field("summary"@) == Some(JsonView::Str(summary_of(item)))
        }),
{
    lemma_card_keys();
    let f = card_fields(item);
    lemma_fields_lookup(f, 0);
    lemma_fields_lookup(f, 1);
    lemma_fields_lookup(f, 2);
    lemma_fields_lookup(f, 3);
    lemma_fields_lookup(f, 4);
    lemma_fields_lookup(f, 5);
    lemma_fields_lookup(f, 6);
    lemma_fields_lookup(f, 7);
}

/// The summary is the beginning of the description, without white space around it: all
/// of it up to two hundred and twenty characters.
pub proof fn law_the_summary_begins_the_description(item: JsonView)
    ensures
        exists|a: int, b: int|
            {
                &&& #[trigger] is_middle(plain_description(item), a, b)
                &&& summary_of(item) == plain_description(item).subrange(
                    a,
                    if b - a <= 220 {
                        b
                    } else {
                        a + 220
                    },
                )
            },
{
    let d = plain_description(item);
    let (a, b) = law_trimming_leaves_the_middle(d);
    assert(is_middle(d, a, b));
    if b - a > 220 {
        assert(d.subrange(a, b).take(220) =~= d.subrange(a, a + 220));
    }
}

/// What is shown for a request has the items and the page.
pub proof fn law_what_is_shown_has_items_and_page(items: Seq<JsonView>, page: u32)
    ensures
        listing_view(items, page).list("items"@) == items,
        listing_view(items, page).field("page"@) == Some(
            JsonView::Number(NumberView::Unsigned(page as u64)),
        ),
{
    reveal_strlit("items");
    reveal_strlit("page");
    let f = seq![
        ("items"@, JsonView::Array(items)),
        ("page"@, JsonView::Number(NumberView::Unsigned(page as u64))),
    ];
    lemma_fields_lookup(f, 0);
    lemma_fields_lookup(f, 1);
}

/// One of the tags that the workshop tells of the item is `tag`.
pub open spec fn wears(item: JsonView, tag: Seq<char>) -> bool {
    exists|i: int|
        0 <= i < item.list("tags"@).len() && (#[trigger] item.list("tags"@)[i]).field("tag"@)
            == Some(JsonView::Str(tag))
}

/// The item is to be shown: the workshop tells of it, and it has every wished tag.
pub open spec fn is_shown(
    known: Seq<(Seq<char>, JsonView)>,
    wanted: Seq<Seq<char>>,
    id: Seq<char>,
) -> bool {
    at(known, id) matches Some(item) && forall|k: int|
        0 <= k < wanted.len() ==> wears(item, #[trigger] wanted[k])
}

/// Every listed item that is known and has the wished tags is shown, in the order of
/// the listing, and no other.
pub proof fn law_every_fitting_item_is_shown(
    ids: Seq<Seq<char>>,
    known: Seq<(Seq<char>, JsonView)>,
    wanted: Seq<Seq<char>>,
)
    ensures
        cards(ids, known, wanted) == ids.filter(
            |id: Seq<char>| is_shown(known, wanted, id),
        ).map_values(|id: Seq<char>| object_of(card_fields(at(known, id)->Some_0))),
    decreases ids.len(),
{
    reveal(Seq::filter);
    let keep = |id: Seq<char>| is_shown(known, wanted, id);
    let f = |id: Seq<char>| object_of(card_fields(at(known, id)->Some_0));
    if ids.len() > 0 {
        law_every_fitting_item_is_shown(ids.drop_last(), known, wanted);
        let a = ids.drop_last().filter(keep);
        let last = ids.last();
        if let Some(item) = at(known, last) {
            lemma_tagged(item, wanted);
            assert(keep(last) <==> tagged(item, wanted));
        }
        assert(a.push(last).map_values(f) =~= a.map_values(f).push(f(last)));
    } else {
        assert(ids.filter(keep).map_values(f) =~= seq![]);
    }
}

proof fn lemma_tagged(item: JsonView, wanted: Seq<Seq<char>>)
    ensures
        tagged(item, wanted) <==> forall|k: int|
            0 <= k < wanted.len() ==> wears(item, #[trigger] wanted[k]),
{
    assert forall|t: Seq<char>| #[trigger] wears(item, t) <==> tag_stands(
        item.list("tags"@),
        t,
    ) by {}
    if tagged(item, wanted) {
        assert forall|k: int| 0 <= k < wanted.len() implies wears(item, #[trigger] wanted[k]) by {
            assert(tag_stands(item.list("tags"@), wanted[k]));
        }
    }
    if forall|k: int| 0 <= k < wanted.len() ==> wears(item, #[trigger] wanted[k]) {
        assert forall|k: int| 0 <= k < wanted.len() implies tag_stands(
            item.list("tags"@),
            #[trigger] wanted[k],
        ) by {
            assert(wears(item, wanted[k]));
        }
    }
}

/// A request asks for the item that the words mean; where they mean none, for the listing
/// with the words, the way to sort, the page, the tags that the workshop has and the
/// window that were wished.
pub proof fn law_a_request_asks_for_what_is_wished(
    r: Browse,
    q: Seq<char>,
    sort: Seq<char>,
    page: u32,
    tags: Seq<Seq<char>>,
    days: Option<Seq<char>>,
)
    requires
        is_request(r, q, sort, page, tags, days),
    ensures
        ({
            let wanted = tags.filter(|t: Seq<char>| known_tags().contains(t));
            &&& 1 <= r.page <= 50
            &&& 1 <= page <= 50 ==> r.page == page
            &&& r.wanted.deep_view() == wanted
            &&& (meant_id(q) matches Some(id) ==> (r.ask matches BrowseAsk::Item(x) && x@ == id))
            &&& meant_id(q) is None ==> (r.ask matches BrowseAsk::Listing(x) && x@
                == "https://steamcommunity.com/workshop/browse/?"@ + fields_form(
                listing_fields(q, sort, r.page, wanted, days),
            ))
        }),
{
    law_known_tags_are_asked_for(tags);
}

/// The window where none that is offered is wished: a week for what is in trend, ten years
/// for the most subscribed, the most needed and what words bring.
pub proof fn law_every_sort_has_its_window(days: Option<Seq<char>>)
    requires
        days matches Some(d) ==> !first_parts(windows()).contains(d),
    ensures
        listing_window("trend"@, days) == Some("7"@),
        listing_window("totaluniquesubscriptions"@, days) == Some("3650"@),
        listing_window("num_parent_items"@, days) == Some("3650"@),
        listing_window("textsearch"@, days) == Some("3650"@),
        listing_window("mostrecent"@, days) is None,
        listing_window("toprated"@, days) is None,
{
    reveal_strlit("trend");
    reveal_strlit("totaluniquesubscriptions");
    reveal_strlit("toprated");
    reveal_strlit("num_parent_items");
    reveal_strlit("mostrecent");
    reveal_strlit("textsearch");
    assert("mostrecent"@[0] != "textsearch"@[0]);
    assert("trend"@.len() == 5 && "toprated"@.len() == 8 && "textsearch"@.len() == 10);
    assert("mostrecent"@.len() == 10 && "num_parent_items"@.len() == 16);
    assert("totaluniquesubscriptions"@.len() == 24);
}

/// The ways to sort that the workshop has.
pub proof fn law_the_sorts_are_those_of_the_workshop()
    ensures
        first_parts(sorts()) == seq![
            "trend"@,
            "totaluniquesubscriptions"@,
            "toprated"@,
            "num_parent_items"@,
            "mostrecent"@,
            "textsearch"@,
        ],
{
    assert(first_parts(sorts()) =~= seq![
        "trend"@,
        "totaluniquesubscriptions"@,
        "toprated"@,
        "num_parent_items"@,
        "mostrecent"@,
        "textsearch"@,
    ]);
}

/// A mod id is searched for with spaces for its underscores; and, where it has any, as it
/// is written.
pub proof fn law_a_mod_id_is_searched_for_both_ways(r: ModidSearch, modid: Seq<char>)
    requires
        are_searches(r, modid),
    ensures
        r.first@.len() == modid.len(),
        forall|i: int|
            0 <= i < modid.len() ==> #[trigger] r.first@[i] == (if modid[i] == '_' {
                ' '
            } else {
                modid[i]
            }),
        r.second is Some <==> modid.contains('_'),
        (r.second matches Some(s) ==> s@ == modid),
{
    let x = crate::text::replaced(modid, '_', ' ');
    if modid.contains('_') {
        let i = choose|i: int| 0 <= i < modid.len() && modid[i] == '_';
        assert(x[i] == ' ');
    } else {
        assert forall|i: int| 0 <= i < modid.len() implies x[i] == modid[i] by {
            assert(modid.contains(modid[i]));
        }
        assert(x =~= modid);
    }
}

/// The description is shown without tags and carriage returns: one that has neither is
/// shown as it is.
pub proof fn law_a_plain_description_is_shown_as_it_is(item: JsonView)
    requires
        !item.string("description"@).contains('['),
        !item.string("description"@).contains('\r'),
    ensures
        plain_description(item) == item.string("description"@),
{
    let d = item.string("description"@);
    crate::workshop_laws::law_text_without_tags_stays(d);
    lemma_nothing_to_take_out(d, '\r');
}

proof fn lemma_nothing_to_take_out(s: Seq<char>, c: char)
    requires
        !s.contains(c),
    ensures
        crate::text::without(s, c) == s,
    decreases s.len(),
{
    if s.len() > 0 {
        let t = s.drop_last();
        assert(!t.contains(c)) by {
            if t.contains(c) {
                let i = choose|i: int| 0 <= i < t.len() && t[i] == c;
                assert(s[i] == c);
            }
        }
        lemma_nothing_to_take_out(t, c);
        assert(s[s.len() - 1] == s.last());
        assert(s.contains(s.last()));
        assert(t.push(s.last()) =~= s);
    }
}

} // verus!
