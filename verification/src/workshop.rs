//! The workshop: what is asked of it, and what its answers tell.
use vstd::prelude::*;

use crate::json::{json_of, read_json, value_string, value_u64, Json, JsonView};
use crate::table::{at, set_at, Table};
use crate::text::{
    chars_of, decimal, decimal_text, index_of, is_id, is_workshop_id, lemma_index_of, position,
    replace_char, replaced, split, split_text, starts_with, text_of, trim, trimmed, utf8_len,
};

verus! {

pub open spec fn app_id() -> Seq<char> {
    "108600"@
}

/// The fields that ask what is known of `ids`.
pub open spec fn details_fields(ids: Seq<Seq<char>>) -> Seq<(Seq<char>, Seq<char>)> {
    seq![("itemcount"@, decimal(ids.len()))] + Seq::new(
        ids.len(),
        |i: int| ("publishedfileids["@ + decimal(i as nat) + "]"@, ids[i]),
    )
}

/// The fields that ask what is known of `ids`; none where there is nothing to
/// ask.
pub fn details(ids: &Vec<String>) -> (r: Option<Vec<(String, String)>>)
    ensures
        match r {
            None => ids.len() == 0,
            Some(f) => ids.len() > 0 && f.deep_view() == details_fields(ids.deep_view()),
        },
{
    if ids.len() == 0 {
        return None;
    }
    let ghost all = details_fields(ids.deep_view());
    let mut r: Vec<(String, String)> = Vec::new();
    r.push(("itemcount".to_string(), decimal_text(ids.len() as u64)));
    let mut i: usize = 0;
    assert(r.deep_view() =~= all.take(1));
    while i < ids.len()
        invariant
            i <= ids.len(),
            all == details_fields(ids.deep_view()),
            r.deep_view() == all.take(i + 1),
        decreases ids.len() - i,
    {
        let ghost before = r.deep_view();
        let key = "publishedfileids[".to_string().concat(decimal_text(i as u64).as_str()).concat(
            "]",
        );
        r.push((key, ids[i].clone()));
        proof {
            assert(r.deep_view() =~= before.push((key@, ids@[i as int]@)));
            assert(all[i + 1] == (key@, ids@[i as int]@));
            assert(r.deep_view() =~= all.take(i + 2));
        }
        i += 1;
    }
    assert(all.take(ids.len() + 1) =~= all);
    Some(r)
}

/// The value under `a` and then under `b`, if it is an array.
pub open spec fn nested_items(m: JsonView, a: Seq<char>, b: Seq<char>) -> Seq<JsonView> {
    match m.field(a) {
        Some(x) => x.list(b),
        None => seq![],
    }
}

/// The items that the workshop knows, under their ids. Of two with one id the
/// last counts.
pub open spec fn known_items(items: Seq<JsonView>) -> Seq<(Seq<char>, JsonView)>
    decreases items.len(),
{
    if items.len() == 0 {
        seq![]
    } else {
        let r = known_items(items.drop_last());
        let item = items.last();
        let id = item.string("publishedfileid"@);
        if item.number("result"@) == 1 && id.len() > 0 {
            set_at(r, id, item)
        } else {
            r
        }
    }
}

/// What a document tells of items.
pub open spec fn details_in(m: JsonView) -> Seq<(Seq<char>, JsonView)> {
    known_items(nested_items(m, "response"@, "publishedfiledetails"@))
}

/// What an answer tells of the items, or why it cannot be read.
pub open spec fn details_told(text: Seq<char>) -> Result<Seq<(Seq<char>, JsonView)>, Seq<char>> {
    match json_of(text) {
        Ok(m) => Ok(details_in(m)),
        Err(e) => Err("Steam API trả JSON lỗi: "@ + e),
    }
}

fn nested_array<'a>(m: &'a Json, a: &str, b: &str) -> (r: Option<&'a Vec<Json>>)
    ensures
        match r {
            Some(v) => nested_items(m.model(), a@, b@) == v.deep_view(),
            None => nested_items(m.model(), a@, b@).len() == 0,
        },
{
    match m.get(a) {
        Some(x) => match x.get(b) {
            Some(y) => y.array(),
            None => None,
        },
        None => None,
    }
}

/// What a document tells of items: those that the workshop knows, by their ids.
pub fn details_of(m: &Json) -> (r: Table<Json>)
    ensures
        r.deep_view() == details_in(m.model()),
{
    let mut out: Table<Json> = Table::new();
    match nested_array(m, "response", "publishedfiledetails") {
        Some(items) => {
            let ghost all = items.deep_view();
            let mut i: usize = 0;
            while i < items.len()
                invariant
                    i <= items.len(),
                    all == items.deep_view(),
                    out.deep_view() == known_items(all.take(i as int)),
                decreases items.len() - i,
            {
                assert(all.take(i + 1).drop_last() =~= all.take(i as int));
                if value_u64(&items[i], "result") == 1 {
                    let id = value_string(&items[i], "publishedfileid");
                    if id.unicode_len() > 0 {
                        out.set(id, items[i].copy());
                    }
                }
                i += 1;
            }
            assert(all.take(items.len() as int) =~= all);
        },
        None => {
            assert(nested_items(m.model(), "response"@, "publishedfiledetails"@) =~= seq![]);
        },
    }
    out
}

/// What an answer tells of items.
pub fn details_reply(text: &str) -> (r: Result<Table<Json>, String>)
    ensures
        match details_told(text@) {
            Ok(t) => r matches Ok(x) && x.deep_view() == t,
            Err(e) => r matches Err(x) && x@ == e,
        },
{
    match read_json(text) {
        Err(e) => Err("Steam API trả JSON lỗi: ".to_string().concat(e.as_str())),
        Ok(m) => Ok(details_of(&m)),
    }
}

/// The fields that ask for the items of a collection.
pub open spec fn collection_fields(id: Seq<char>) -> Seq<(Seq<char>, Seq<char>)> {
    seq![("collectioncount"@, "1"@), ("publishedfileids[0]"@, id)]
}

/// The fields that ask for the items of a collection.
pub fn collection_children(id: &str) -> (r: Vec<(String, String)>)
    ensures
        r.deep_view() == collection_fields(id@),
{
    let mut r: Vec<(String, String)> = Vec::new();
    r.push(("collectioncount".to_string(), "1".to_string()));
    r.push(("publishedfileids[0]".to_string(), id.to_string()));
    assert(r.deep_view() =~= collection_fields(id@));
    r
}

/// The strings under `key` in `items`, without the empty ones.
pub open spec fn strings_under(items: Seq<JsonView>, key: Seq<char>) -> Seq<Seq<char>>
    decreases items.len(),
{
    if items.len() == 0 {
        seq![]
    } else {
        let r = strings_under(items.drop_last(), key);
        let s = items.last().string(key);
        if s.len() > 0 {
            r.push(s)
        } else {
            r
        }
    }
}

/// The items of the first collection from position `i` on that the workshop
/// knows.
pub open spec fn children_from(collections: Seq<JsonView>, i: int) -> Seq<Seq<char>>
    decreases collections.len() - i,
{
    if i < 0 || i >= collections.len() {
        seq![]
    } else if collections[i].number("result"@) == 1 {
        strings_under(collections[i].list("children"@), "publishedfileid"@)
    } else {
        children_from(collections, i + 1)
    }
}

/// The items of a collection that a document tells.
pub open spec fn collection_in(m: JsonView) -> Seq<Seq<char>> {
    children_from(nested_items(m, "response"@, "collectiondetails"@), 0)
}

/// The items of a collection that an answer tells, or why it cannot be read.
pub open spec fn collection_told(text: Seq<char>) -> Result<Seq<Seq<char>>, Seq<char>> {
    match json_of(text) {
        Ok(m) => Ok(collection_in(m)),
        Err(e) => Err("Steam API trả JSON lỗi: "@ + e),
    }
}

fn texts_under(items: &Vec<Json>, key: &str) -> (r: Vec<String>)
    ensures
        r.deep_view() == strings_under(items.deep_view(), key@),
{
    let mut r: Vec<String> = Vec::new();
    let ghost all = items.deep_view();
    let mut i: usize = 0;
    assert(r.deep_view() =~= seq![]);
    while i < items.len()
        invariant
            i <= items.len(),
            all == items.deep_view(),
            r.deep_view() == strings_under(all.take(i as int), key@),
        decreases items.len() - i,
    {
        assert(all.take(i + 1).drop_last() =~= all.take(i as int));
        let s = value_string(&items[i], key);
        if s.unicode_len() > 0 {
            let ghost before = r.deep_view();
            r.push(s);
            assert(r.deep_view() =~= before.push(s@));
        }
        i += 1;
    }
    assert(all.take(items.len() as int) =~= all);
    r
}

fn list_texts(m: &Json, list: &str, key: &str) -> (r: Vec<String>)
    ensures
        r.deep_view() == strings_under(m.model().list(list@), key@),
{
    let none: Vec<String> = Vec::new();
    assert(none.deep_view() =~= seq![]);
    match m.get(list) {
        Some(x) => match x.array() {
            Some(v) => texts_under(v, key),
            None => none,
        },
        None => none,
    }
}

/// The items of a collection that a document tells; none where it is no
/// collection.
pub fn collection_of(m: &Json) -> (r: Vec<String>)
    ensures
        r.deep_view() == collection_in(m.model()),
{
    match nested_array(m, "response", "collectiondetails") {
        Some(collections) => {
            let ghost all = collections.deep_view();
            let mut i: usize = 0;
            while i < collections.len()
                invariant
                    i <= collections.len(),
                    all == collections.deep_view(),
                    all == nested_items(m.model(), "response"@, "collectiondetails"@),
                    children_from(all, 0) == children_from(all, i as int),
                decreases collections.len() - i,
            {
                if value_u64(&collections[i], "result") == 1 {
                    return list_texts(&collections[i], "children", "publishedfileid");
                }
                i += 1;
            }
        },
        None => {
            assert(nested_items(m.model(), "response"@, "collectiondetails"@) =~= seq![]);
        },
    }
    let none: Vec<String> = Vec::new();
    assert(none.deep_view() =~= seq![]);
    none
}

/// The items of a collection that an answer tells.
pub fn collection_reply(text: &str) -> (r: Result<Vec<String>, String>)
    ensures
        match collection_told(text@) {
            Ok(t) => r matches Ok(x) && x.deep_view() == t,
            Err(e) => r matches Err(x) && x@ == e,
        },
{
    match read_json(text) {
        Err(e) => Err("Steam API trả JSON lỗi: ".to_string().concat(e.as_str())),
        Ok(m) => Ok(collection_of(&m)),
    }
}

/// What follows `id=` in the first of `parts` from `i` on that begins with it.
pub open spec fn id_part(parts: Seq<Seq<char>>, i: int) -> Option<Seq<char>>
    decreases parts.len() - i,
{
    if i < 0 || i >= parts.len() {
        None
    } else if starts_with(parts[i], "id="@) {
        Some(parts[i].subrange(3, parts[i].len() as int))
    } else {
        id_part(parts, i + 1)
    }
}

/// The workshop id that is meant, if one is: digits alone, or the `id` of an
/// address.
pub open spec fn meant_id(value: Seq<char>) -> Option<Seq<char>> {
    let v = trimmed(value);
    if is_id(v) {
        Some(v)
    } else {
        match id_part(split(replaced(v, '?', '&'), '&'), 0) {
            Some(id) => if is_id(id) {
                Some(id)
            } else {
                None
            },
            None => None,
        }
    }
}

/// The workshop id that is meant, if one is.
pub fn maybe_id(value: &str) -> (r: Option<String>)
    ensures
        r.deep_view() == meant_id(value@),
{
    let v = trim(value);
    if is_workshop_id(v.as_str()) {
        return Some(v);
    }
    let unified = replace_char(v.as_str(), '?', '&');
    let parts = split_text(unified.as_str(), '&');
    let ghost all = parts.deep_view();
    proof {
        reveal_strlit("id=");
    }
    let mut i: usize = 0;
    while i < parts.len()
        invariant
            i <= parts.len(),
            all == parts.deep_view(),
            all == split(replaced(trimmed(value@), '?', '&'), '&'),
            !is_id(trimmed(value@)),
            id_part(all, 0) == id_part(all, i as int),
            "id="@.len() == 3,
            "id="@[0] == 'i',
            "id="@[1] == 'd',
            "id="@[2] == '=',
        decreases parts.len() - i,
    {
        let chars = chars_of(parts[i].as_str());
        assert(all[i as int] == chars@);
        let found = chars.len() >= 3 && chars[0] == 'i' && chars[1] == 'd' && chars[2] == '=';
        proof {
            if found {
                assert(chars@.subrange(0, 3) =~= "id="@);
            }
        }
        if found {
            let id = text_of(&chars, 3, chars.len());
            return if is_workshop_id(id.as_str()) {
                Some(id)
            } else {
                None
            };
        }
        i += 1;
    }
    None
}

/// How long a tag in brackets can be, in bytes.
pub const MAX_TAG: usize = 200;

/// `s` without its tags in brackets. A bracket that is not closed soon enough is
/// no tag, and stays.
pub open spec fn stripped(s: Seq<char>) -> Seq<char>
    decreases s.len(),
    via stripped_decreases
{
    let i = index_of(s, '[', 0);
    if i >= s.len() {
        s
    } else {
        let after = s.subrange(i + 1, s.len() as int);
        let j = index_of(after, ']', 0);
        if j < after.len() && utf8_len(after.subrange(0, j)) <= MAX_TAG {
            s.subrange(0, i) + stripped(after.subrange(j + 1, after.len() as int))
        } else {
            s.subrange(0, i).push('[') + stripped(after)
        }
    }
}

#[via_fn]
proof fn stripped_decreases(s: Seq<char>) {
    lemma_index_of(s, '[', 0);
    let i = index_of(s, '[', 0);
    if i < s.len() {
        lemma_index_of(s.subrange(i + 1, s.len() as int), ']', 0);
    }
}

fn append(out: &mut String, chars: &Vec<char>, from: usize, to: usize)
    requires
        from <= to <= chars.len(),
    ensures
        final(out)@ == old(out)@ + chars@.subrange(from as int, to as int),
{
    let ghost before = out@;
    let mut i: usize = from;
    assert(before + chars@.subrange(from as int, from as int) =~= before);
    while i < to
        invariant
            from <= i <= to <= chars.len(),
            out@ == before + chars@.subrange(from as int, i as int),
        decreases to - i,
    {
        out.push(chars[i]);
        assert(out@ =~= before + chars@.subrange(from as int, i + 1));
        i += 1;
    }
}

/// Shifts a search for `c` to the part of `s` that it is in.
proof fn lemma_index_of_part(s: Seq<char>, c: char, from: int, i: int)
    requires
        0 <= from <= i <= s.len(),
    ensures
        index_of(s.subrange(from, s.len() as int), c, i - from) == index_of(s, c, i) - from,
    decreases s.len() - i,
{
    let part = s.subrange(from, s.len() as int);
    if i < s.len() {
        assert(part[i - from] == s[i]);
        if s[i] != c {
            lemma_index_of_part(s, c, from, i + 1);
        }
    }
}

/// `text` without its tags in brackets.
pub fn strip_bb(text: &str) -> (r: String)
    ensures
        r@ == stripped(text@),
{
    let chars = chars_of(text);
    let mut out = String::new();
    let mut at: usize = 0;
    let ghost whole = stripped(text@);
    assert(chars@.subrange(0, chars.len() as int) =~= text@);
    assert(out@ + stripped(text@) =~= whole);
    loop
        invariant
            at <= chars.len(),
            chars@ == text@,
            whole == stripped(text@),
            out@ + stripped(chars@.subrange(at as int, chars.len() as int)) == whole,
        decreases chars.len() - at,
    {
        let ghost rest = chars@.subrange(at as int, chars.len() as int);
        let ghost before = out@;
        let i = position(&chars, '[', at);
        proof {
            lemma_index_of_part(chars@, '[', at as int, at as int);
            lemma_index_of(chars@, '[', at as int);
        }
        if i >= chars.len() {
            append(&mut out, &chars, at, chars.len());
            return out;
        }
        let ghost after = rest.subrange(i - at + 1, rest.len() as int);
        let j = position(&chars, ']', i + 1);
        proof {
            assert(after =~= chars@.subrange(i + 1, chars.len() as int));
            lemma_index_of_part(chars@, ']', i + 1, i + 1);
            lemma_index_of(chars@, ']', i + 1);
            assert(rest.subrange(0, i - at) =~= chars@.subrange(at as int, i as int));
        }
        append(&mut out, &chars, at, i);
        let tag = j < chars.len() && {
            let inside = text_of(&chars, i + 1, j);
            proof {
                assert(inside@ =~= after.subrange(0, j - i - 1));
            }
            inside.as_str().as_bytes().len() <= MAX_TAG
        };
        if tag {
            proof {
                assert(after.subrange(j - i - 1 + 1, after.len() as int) =~= chars@.subrange(
                    j + 1,
                    chars.len() as int,
                ));
                assert(out@ + stripped(chars@.subrange(j + 1, chars.len() as int)) =~= before
                    + stripped(rest));
            }
            at = j + 1;
        } else {
            out.push('[');
            proof {
                assert(out@ + stripped(after) =~= before + stripped(rest));
            }
            at = i + 1;
        }
    }
}

} // verus!
