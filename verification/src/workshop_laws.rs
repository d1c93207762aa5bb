//! What talking to the workshop promises: everything is asked about that was to be, and
//! everything that it tells is heard.
use vstd::prelude::*;

use crate::browse_laws::says;
use crate::json::JsonView;
use crate::table::{at, law_set_at};
use crate::text::{
    contains, decimal, index_of, is_digit, is_id, lemma_index_of, occurs_at, replaced, split,
    starts_with, trimmed, utf8_len,
};
use crate::text_laws::{is_piece, is_piece_of, law_splitting_gives_the_pieces, law_trimming_leaves_the_middle};
use crate::workshop::{
    children_from, collection_fields, collection_in, details_fields, details_in, id_part,
    known_items, meant_id, strings_under, stripped,
};

verus! {

/// A request asks about every one of the items, and says how many they are.
pub proof fn law_every_item_is_asked_about(ids: Seq<Seq<char>>)
    ensures
        details_fields(ids).len() == ids.len() + 1,
        details_fields(ids).contains(("itemcount"@, decimal(ids.len()))),
        forall|i: int|
            0 <= i < ids.len() ==> details_fields(ids).contains(
                ("publishedfileids["@ + decimal(i as nat) + "]"@, #[trigger] ids[i]),
            ),
{
    let f = details_fields(ids);
    assert(f[0] == ("itemcount"@, decimal(ids.len())));
    assert forall|i: int| 0 <= i < ids.len() implies f.contains(
        ("publishedfileids["@ + decimal(i as nat) + "]"@, #[trigger] ids[i]),
    ) by {
        assert(f[i + 1] == ("publishedfileids["@ + decimal(i as nat) + "]"@, ids[i]));
    }
}

/// A request for a collection asks for that one.
pub proof fn law_the_collection_is_asked_for(id: Seq<char>)
    ensures
        says(collection_fields(id), "publishedfileids[0]"@, id),
        says(collection_fields(id), "collectioncount"@, "1"@),
{
    reveal_strlit("collectioncount");
    reveal_strlit("publishedfileids[0]");
    let f = collection_fields(id);
    assert("collectioncount"@.len() != "publishedfileids[0]"@.len());
    assert(f.len() == 2);
    assert(f[0] == ("collectioncount"@, "1"@) && f.contains(f[0]));
    assert(f[1] == ("publishedfileids[0]"@, id) && f.contains(f[1]));
}

/// The workshop knows the item and tells its id.
pub open spec fn is_known(item: JsonView, id: Seq<char>) -> bool {
    item.number("result"@) == 1 && id.len() > 0 && item.string("publishedfileid"@) == id
}

/// Everything that is told of items is heard: an item that the workshop knows is found
/// under its id, the last one where two have it; and nothing else is found.
pub proof fn law_every_known_item_is_heard(items: Seq<JsonView>, id: Seq<char>)
    ensures
        match at(known_items(items), id) {
            Some(item) => exists|k: int|
                0 <= k < items.len() && #[trigger] items[k] == item && is_known(item, id)
                    && forall|j: int| k < j < items.len() ==> !is_known(#[trigger] items[j], id),
            None => forall|k: int| 0 <= k < items.len() ==> !is_known(#[trigger] items[k], id),
        },
    decreases items.len(),
{
    if items.len() > 0 {
        let t = items.drop_last();
        law_every_known_item_is_heard(t, id);
        let last = items[items.len() - 1];
        let own = last.string("publishedfileid"@);
        law_set_at(known_items(t), own, last);
        if is_known(last, id) {
            assert(at(known_items(items), id) == Some(last));
        } else {
            assert(at(known_items(items), id) == at(known_items(t), id));
            if let Some(item) = at(known_items(t), id) {
                let k = choose|k: int|
                    0 <= k < t.len() && #[trigger] t[k] == item && is_known(item, id) && forall|
                        j: int,
                    | k < j < t.len() ==> !is_known(#[trigger] t[j], id);
                assert(items[k] == item);
                assert forall|j: int| k < j < items.len() implies !is_known(
                    #[trigger] items[j],
                    id,
                ) by {
                    if j < t.len() {
                        assert(t[j] == items[j]);
                    }
                }
            } else {
                assert forall|k: int| 0 <= k < items.len() implies !is_known(
                    #[trigger] items[k],
                    id,
                ) by {
                    if k < t.len() {
                        assert(t[k] == items[k]);
                    }
                }
            }
        }
    }
}

/// The items stand in the answer under `response` and `publishedfiledetails`.
pub proof fn law_items_are_read_where_they_stand(m: JsonView, x: JsonView, items: Seq<JsonView>)
    requires
        m.field("response"@) == Some(x),
        x.field("publishedfiledetails"@) == Some(JsonView::Array(items)),
    ensures
        details_in(m) == known_items(items),
{
}

/// The texts under a key are found in their order, the empty ones apart.
pub proof fn law_texts_under_a_key_are_found(items: Seq<JsonView>, key: Seq<char>)
    ensures
        strings_under(items, key) == items.map_values(|m: JsonView| m.string(key)).filter(
            |s: Seq<char>| s.len() > 0,
        ),
    decreases items.len(),
{
    reveal(Seq::filter);
    let f = |m: JsonView| m.string(key);
    if items.len() > 0 {
        law_texts_under_a_key_are_found(items.drop_last(), key);
        assert(items.map_values(f).drop_last() =~= items.drop_last().map_values(f));
    } else {
        assert(items.map_values(f).len() == 0);
    }
}

/// The children of a collection are those of the first one that the workshop knows:
/// all of them, in their order. Where it knows none there are none.
pub proof fn law_every_child_is_heard(
    m: JsonView,
    x: JsonView,
    collections: Seq<JsonView>,
)
    requires
        m.field("response"@) == Some(x),
        x.field("collectiondetails"@) == Some(JsonView::Array(collections)),
    ensures
        forall|k: int|
            0 <= k < collections.len() && (#[trigger] collections[k]).number("result"@) == 1 && (
            forall|j: int| 0 <= j < k ==> (#[trigger] collections[j]).number("result"@) != 1)
                ==> collection_in(m) == collections[k].list("children"@).map_values(
                |c: JsonView| c.string("publishedfileid"@),
            ).filter(|s: Seq<char>| s.len() > 0),
        (forall|k: int|
            0 <= k < collections.len() ==> (#[trigger] collections[k]).number("result"@) != 1)
            ==> collection_in(m).len() == 0,
{
    assert forall|k: int|
        0 <= k < collections.len() && (#[trigger] collections[k]).number("result"@) == 1 && (forall|
            j: int,
        | 0 <= j < k ==> (#[trigger] collections[j]).number("result"@) != 1) implies collection_in(m)
        == collections[k].list("children"@).map_values(
        |c: JsonView| c.string("publishedfileid"@),
    ).filter(|s: Seq<char>| s.len() > 0) by {
        lemma_children(collections, 0, k);
        law_texts_under_a_key_are_found(collections[k].list("children"@), "publishedfileid"@);
    }
    if forall|k: int|
        0 <= k < collections.len() ==> (#[trigger] collections[k]).number("result"@) != 1 {
        lemma_no_children(collections, 0);
    }
}

proof fn lemma_children(collections: Seq<JsonView>, i: int, k: int)
    requires
        0 <= i <= k < collections.len(),
        collections[k].number("result"@) == 1,
        forall|j: int| i <= j < k ==> (#[trigger] collections[j]).number("result"@) != 1,
    ensures
        children_from(collections, i) == strings_under(
            collections[k].list("children"@),
            "publishedfileid"@,
        ),
    decreases k - i,
{
    if i < k {
        assert(collections[i].number("result"@) != 1);
        lemma_children(collections, i + 1, k);
    }
}

proof fn lemma_no_children(collections: Seq<JsonView>, i: int)
    requires
        0 <= i,
        forall|k: int|
            0 <= k < collections.len() ==> (#[trigger] collections[k]).number("result"@) != 1,
    ensures
        children_from(collections, i).len() == 0,
    decreases collections.len() - i,
{
    if i < collections.len() {
        assert(collections[i].number("result"@) != 1);
        lemma_no_children(collections, i + 1);
    }
}

/// Digits alone mean the item with that id.
pub proof fn law_digits_mean_an_item(value: Seq<char>)
    requires
        is_id(trimmed(value)),
    ensures
        meant_id(value) == Some(trimmed(value)),
{
}

proof fn lemma_id_part(parts: Seq<Seq<char>>, i: int, k: int)
    requires
        0 <= i <= k < parts.len(),
        starts_with(parts[k], "id="@),
        forall|j: int| i <= j < k ==> !starts_with(#[trigger] parts[j], "id="@),
    ensures
        id_part(parts, i) == Some(parts[k].subrange(3, parts[k].len() as int)),
    decreases k - i,
{
    if i < k {
        assert(!starts_with(parts[i], "id="@));
        lemma_id_part(parts, i + 1, k);
    }
}

/// What is meant is an id that stands in the text.
pub proof fn law_what_is_meant_was_written(value: Seq<char>)
    ensures
        meant_id(value) matches Some(id) ==> is_id(id) && contains(value, id),
{
    if let Some(id) = meant_id(value) {
        let v = trimmed(value);
        let (a, b) = law_trimming_leaves_the_middle(value);
        if is_id(v) {
            assert(value.subrange(a, a + id.len()) =~= id);
            assert(occurs_at(value, id, a));
        } else {
            let r = replaced(v, '?', '&');
            let parts = split(r, '&');
            law_splitting_gives_the_pieces(r, '&');
            lemma_id_part_is_one(parts, 0);
            let k = choose|k: int|
                0 <= k < parts.len() && starts_with(#[trigger] parts[k], "id="@) && id
                    == parts[k].subrange(3, parts[k].len() as int);
            assert(is_piece_of(r, '&', parts[k]));
            let (x, y) = choose|x: int, y: int|
                #[trigger] is_piece(r, '&', x, y) && parts[k] == r.subrange(x, y);
            reveal_strlit("id=");
            assert(value.subrange(a + x + 3, a + x + 3 + id.len()) =~= id) by {
                assert forall|i: int| 0 <= i < id.len() implies value[a + x + 3 + i] == id[i] by {
                    assert(id[i] == r[x + 3 + i]);
                    assert(v[x + 3 + i] == value[a + x + 3 + i]);
                    assert(is_digit(id[i]));
                }
            }
            assert(occurs_at(value, id, a + x + 3));
        }
    }
}

proof fn lemma_id_part_is_one(parts: Seq<Seq<char>>, i: int)
    requires
        0 <= i,
    ensures
        id_part(parts, i) matches Some(id) ==> exists|k: int|
            0 <= k < parts.len() && starts_with(#[trigger] parts[k], "id="@) && id
                == parts[k].subrange(3, parts[k].len() as int),
    decreases parts.len() - i,
{
    if i < parts.len() && !starts_with(parts[i], "id="@) {
        lemma_id_part_is_one(parts, i + 1);
    }
}

/// An address means the item whose id it gives: the digits after the first `id=` that
/// follows a question mark or an ampersand, up to the next of them or the end.
pub proof fn law_an_address_means_its_item(value: Seq<char>, a: int, b: int)
    requires
        ({
            let v = trimmed(value);
            &&& 0 < a <= b <= v.len()
            &&& v[a - 1] == '?' || v[a - 1] == '&'
            &&& a + 3 <= b
            &&& v.subrange(a, a + 3) == "id="@
            &&& is_id(v.subrange(a + 3, b))
            &&& b == v.len() || v[b] == '?' || v[b] == '&'
            &&& forall|j: int|
                0 <= j < a && (j == 0 || v[j - 1] == '?' || v[j - 1] == '&') ==> !(
                #[trigger] occurs_at(v, "id="@, j))
        }),
    ensures
        meant_id(value) == Some(trimmed(value).subrange(a + 3, b)),
{
    let v = trimmed(value);
    let r = replaced(v, '?', '&');
    let parts = split(r, '&');
    reveal_strlit("id=");
    assert(!is_digit(v[a - 1]));
    assert(!is_id(v));
    assert forall|i: int| a <= i < b implies #[trigger] r[i] != '&' by {
        if i < a + 3 {
            assert(v.subrange(a, a + 3)[i - a] == v[i]);
        } else {
            assert(is_digit(v.subrange(a + 3, b)[i - a - 3]));
        }
    }
    assert(is_piece(r, '&', a, b));
    lemma_pieces_in_order(r, '&', 0, a, b);
    let k = choose|k: int|
        0 <= k < parts.len() && #[trigger] parts[k] == r.subrange(a, b) && forall|j: int|
            0 <= j < k ==> exists|x: int, y: int|
                x < a && #[trigger] is_piece(r, '&', x, y) && #[trigger] parts[j] == r.subrange(x, y);
    let p = parts[k];
    assert(p.subrange(0, 3) =~= "id="@) by {
        assert forall|i: int| 0 <= i < 3 implies p[i] == "id="@[i] by {
            assert(v.subrange(a, a + 3)[i] == v[a + i]);
        }
    }
    assert(starts_with(p, "id="@));
    assert forall|j: int| 0 <= j < k implies !starts_with(#[trigger] parts[j], "id="@) by {
        let (x, y) = choose|x: int, y: int|
            x < a && #[trigger] is_piece(r, '&', x, y) && parts[j] == r.subrange(x, y);
        if starts_with(parts[j], "id="@) {
            assert(v.subrange(x, x + 3) =~= "id="@) by {
                assert forall|i: int| 0 <= i < 3 implies v[x + i] == "id="@[i] by {
                    assert(parts[j].subrange(0, 3)[i] == parts[j][i]);
                    assert(r[x + i] == parts[j][i]);
                }
            }
            assert(occurs_at(v, "id="@, x));
        }
    }
    lemma_id_part(parts, 0, k);
    assert(p.subrange(3, p.len() as int) =~= v.subrange(a + 3, b)) by {
        assert forall|i: int| 0 <= i < b - a - 3 implies #[trigger] p[3 + i] == v[a + 3 + i] by {
            assert(is_digit(v.subrange(a + 3, b)[i]));
        }
    }
}

proof fn lemma_pieces_in_order(s: Seq<char>, c: char, i: int, a: int, b: int)
    requires
        0 <= i <= a,
        i <= s.len(),
        i == 0 || s[i - 1] == c,
        is_piece(s, c, a, b),
    ensures
        exists|k: int|
            0 <= k < crate::text::split_from(s, c, i).len() && #[trigger] crate::text::split_from(
                s,
                c,
                i,
            )[k] == s.subrange(a, b) && forall|j: int|
                0 <= j < k ==> exists|x: int, y: int|
                    x < a && #[trigger] is_piece(s, c, x, y)
                        && #[trigger] crate::text::split_from(s, c, i)[j] == s.subrange(x, y),
    decreases s.len() - i,
{
    let all = crate::text::split_from(s, c, i);
    lemma_index_of(s, c, i);
    let n = index_of(s, c, i);
    assert(is_piece(s, c, i, n));
    if a <= n {
        if i < a {
            assert(s[a - 1] == c);
        }
        if b < n {
            assert(s[b] == c);
        }
        if n < b {
            assert(s[n] != c);
        }
        assert(all[0] == s.subrange(a, b));
    } else {
        assert(n < s.len());
        lemma_pieces_in_order(s, c, n + 1, a, b);
        let rest = crate::text::split_from(s, c, n + 1);
        assert(all =~= seq![s.subrange(i, n)] + rest);
        let k = choose|k: int|
            0 <= k < rest.len() && #[trigger] rest[k] == s.subrange(a, b) && forall|j: int|
                0 <= j < k ==> exists|x: int, y: int|
                    x < a && #[trigger] is_piece(s, c, x, y) && #[trigger] rest[j] == s.subrange(x, y);
        assert(all[k + 1] == s.subrange(a, b));
        assert forall|j: int| 0 <= j < k + 1 implies exists|x: int, y: int|
            x < a && #[trigger] is_piece(s, c, x, y) && #[trigger] all[j] == s.subrange(x, y) by {
            if j > 0 {
                assert(all[j] == rest[j - 1]);
            }
        }
    }
}

/// A text without brackets stays as it is.
pub proof fn law_text_without_tags_stays(s: Seq<char>)
    requires
        !s.contains('['),
    ensures
        stripped(s) == s,
{
    lemma_index_of(s, '[', 0);
    let i = index_of(s, '[', 0);
    if i < s.len() {
        assert(s.contains(s[i]));
    }
}

proof fn lemma_first(s: Seq<char>, c: char, i: int)
    requires
        0 <= i < s.len(),
        s[i] == c,
        forall|k: int| 0 <= k < i ==> s[k] != c,
    ensures
        index_of(s, c, 0) == i,
{
    lemma_index_of(s, c, 0);
}

/// A tag is taken out of a text, and what stands around it stays: a tag is what stands
/// between a bracket and the next closing one, up to two hundred bytes of it.
pub proof fn law_a_tag_is_taken_out(a: Seq<char>, tag: Seq<char>, b: Seq<char>)
    requires
        !a.contains('['),
        !tag.contains(']'),
        utf8_len(tag) <= 200,
    ensures
        stripped(a + seq!['['] + tag + seq![']'] + b) == a + stripped(b),
{
    let s = a + seq!['['] + tag + seq![']'] + b;
    let i = a.len() as int;
    assert forall|k: int| 0 <= k < i implies s[k] != '[' by {
        assert(s[k] == a[k]);
    }
    lemma_first(s, '[', i);
    let after = s.subrange(i + 1, s.len() as int);
    let j = tag.len() as int;
    assert(after =~= tag + seq![']'] + b);
    assert forall|k: int| 0 <= k < j implies after[k] != ']' by {
        assert(after[k] == tag[k]);
    }
    lemma_first(after, ']', j);
    assert(after.subrange(0, j) =~= tag);
    assert(after.subrange(j + 1, after.len() as int) =~= b);
    assert(s.subrange(0, i) =~= a);
}

/// A bracket that is no tag stays: one that is never closed, or closed after more than
/// two hundred bytes.
pub proof fn law_a_bracket_that_is_no_tag_stays(a: Seq<char>, rest: Seq<char>, j: int)
    requires
        !a.contains('['),
        0 <= j <= rest.len(),
        forall|k: int| 0 <= k < j ==> rest[k] != ']',
        j < rest.len() ==> rest[j] == ']' && utf8_len(rest.subrange(0, j)) > 200,
    ensures
        stripped(a + seq!['['] + rest) == a.push('[') + stripped(rest),
{
    let s = a + seq!['['] + rest;
    let i = a.len() as int;
    assert forall|k: int| 0 <= k < i implies s[k] != '[' by {
        assert(s[k] == a[k]);
    }
    lemma_first(s, '[', i);
    assert(s.subrange(i + 1, s.len() as int) =~= rest);
    assert(s.subrange(0, i) =~= a);
    lemma_index_of(rest, ']', 0);
    if j < rest.len() {
        lemma_first(rest, ']', j);
    }
}

} // verus!
