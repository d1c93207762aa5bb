//! What the workshop's pages tell, and when a page that was kept is good enough.
use vstd::prelude::*;

use crate::deps::{dedup_ids, firsts, law_firsts};
use crate::names::{lowercase, to_lower};
use crate::text::{
    chars_of, contains, contains_text, digit, find, find_from, is_digit, is_id, lemma_find_from,
    same, text_of,
};

verus! {

/// The digits from position `i` on.
pub open spec fn digits_at(s: Seq<char>, i: int) -> Seq<char>
    decreases s.len() - i,
{
    if i < 0 || i >= s.len() || !is_digit(s[i]) {
        seq![]
    } else {
        seq![s[i]] + digits_at(s, i + 1)
    }
}

/// The digits that follow the occurrences of `marker` from position `i` on, where
/// any do.
pub open spec fn ids_from(s: Seq<char>, marker: Seq<char>, i: int) -> Seq<Seq<char>>
    decreases s.len() - i,
    when 0 <= i && marker.len() > 0
    via ids_from_decreases
{
    match find_from(s, marker, i) {
        None => seq![],
        Some(k) => {
            let d = digits_at(s, k + marker.len());
            let rest = ids_from(s, marker, k + marker.len());
            if d.len() > 0 {
                seq![d] + rest
            } else {
                rest
            }
        },
    }
}

#[via_fn]
proof fn ids_from_decreases(s: Seq<char>, marker: Seq<char>, i: int) {
    lemma_find_from(s, marker, i);
}

/// The ids that follow `marker` in a page, each where it first stands.
pub open spec fn marked_ids(html: Seq<char>, marker: Seq<char>) -> Seq<Seq<char>> {
    firsts(ids_from(html, marker, 0))
}

fn read_digits(chars: &Vec<char>, from: usize) -> (r: String)
    requires
        from <= chars.len(),
    ensures
        r@ == digits_at(chars@, from as int),
{
    let mut i: usize = from;
    assert(chars@.subrange(from as int, i as int) + digits_at(chars@, i as int) =~= digits_at(
        chars@,
        from as int,
    ));
    while i < chars.len() && digit(chars[i])
        invariant
            from <= i <= chars.len(),
            chars@.subrange(from as int, i as int) + digits_at(chars@, i as int) == digits_at(
                chars@,
                from as int,
            ),
        decreases chars.len() - i,
    {
        proof {
            let a = chars@.subrange(from as int, i as int);
            assert(chars@.subrange(from as int, i + 1) =~= a.push(chars@[i as int]));
            assert(a.push(chars@[i as int]) + digits_at(chars@, i + 1) =~= a + digits_at(
                chars@,
                i as int,
            ));
        }
        i += 1;
    }
    assert(chars@.subrange(from as int, i as int) + seq![] =~= chars@.subrange(
        from as int,
        i as int,
    ));
    text_of(chars, from, i)
}

/// The ids that follow `marker` in a page, each once.
pub fn ids_after(html: &str, marker: &str) -> (r: Vec<String>)
    requires
        marker@.len() > 0,
    ensures
        r.deep_view() == marked_ids(html@, marker@),
{
    let chars = chars_of(html);
    let pat = chars_of(marker);
    let mut all: Vec<String> = Vec::new();
    let mut i: usize = 0;
    let ghost whole = ids_from(html@, marker@, 0);
    assert(all.deep_view() =~= seq![]);
    assert(all.deep_view() + whole =~= whole);
    loop
        invariant
            i <= chars.len(),
            chars@ == html@,
            pat@ == marker@,
            marker@.len() > 0,
            whole == ids_from(html@, marker@, 0),
            all.deep_view() + ids_from(html@, marker@, i as int) == whole,
        decreases chars.len() - i,
    {
        match find(&chars, &pat, i) {
            None => {
                assert(all.deep_view() + seq![] =~= all.deep_view());
                return dedup_ids(&all);
            },
            Some(k) => {
                proof {
                    lemma_find_from(html@, marker@, i as int);
                }
                let next = k + pat.len();
                let d = read_digits(&chars, next);
                let ghost before = all.deep_view();
                let ghost rest = ids_from(html@, marker@, next as int);
                if d.unicode_len() > 0 {
                    all.push(d);
                    assert(all.deep_view() =~= before.push(d@));
                    assert(before.push(d@) + rest =~= before + (seq![d@] + rest));
                }
                i = next;
            },
        }
    }
}

/// The notice that stands at the top of every listing; it is no mod.
pub open spec fn is_pinned(id: Seq<char>) -> bool {
    id == "2872282653"@
}

/// Those of `ids` that are mods.
pub open spec fn unpinned(ids: Seq<Seq<char>>) -> Seq<Seq<char>>
    decreases ids.len(),
{
    if ids.len() == 0 {
        seq![]
    } else {
        let r = unpinned(ids.drop_last());
        if is_pinned(ids.last()) {
            r
        } else {
            r.push(ids.last())
        }
    }
}

/// The ids in a listing.
pub open spec fn listing_ids(html: Seq<char>) -> Seq<Seq<char>> {
    unpinned(marked_ids(html, "sharedfiles/filedetails/?id="@))
}

/// The ids in a listing, without the notice that stands at its top.
pub fn extract_listing_ids(html: &str) -> (r: Vec<String>)
    ensures
        r.deep_view() == listing_ids(html@),
{
    proof {
        reveal_strlit("sharedfiles/filedetails/?id=");
    }
    let ids = ids_after(html, "sharedfiles/filedetails/?id=");
    let ghost all = ids.deep_view();
    let mut r: Vec<String> = Vec::new();
    let mut i: usize = 0;
    assert(r.deep_view() =~= seq![]);
    while i < ids.len()
        invariant
            i <= ids.len(),
            all == ids.deep_view(),
            r.deep_view() == unpinned(all.take(i as int)),
        decreases ids.len() - i,
    {
        assert(all.take(i + 1).drop_last() =~= all.take(i as int));
        if !same(ids[i].as_str(), "2872282653") {
            let ghost before = r.deep_view();
            r.push(ids[i].clone());
            assert(r.deep_view() =~= before.push(ids@[i as int]@));
        }
        i += 1;
    }
    assert(all.take(ids.len() as int) =~= all);
    r
}

proof fn lemma_unpinned(ids: Seq<Seq<char>>)
    ensures
        forall|x: Seq<char>|
            #[trigger] unpinned(ids).contains(x) <==> ids.contains(x) && !is_pinned(x),
        ids.no_duplicates() ==> unpinned(ids).no_duplicates(),
    decreases ids.len(),
{
    if ids.len() > 0 {
        let t = ids.drop_last();
        lemma_unpinned(t);
        let c = unpinned(t);
        let r = unpinned(ids);
        assert forall|x: Seq<char>| #[trigger] r.contains(x) <==> ids.contains(x) && !is_pinned(
            x,
        ) by {
            if r.contains(x) {
                let i = choose|i: int| 0 <= i < r.len() && r[i] == x;
                if i < c.len() {
                    assert(c[i] == x);
                    assert(c.contains(x));
                    let j = choose|j: int| 0 <= j < t.len() && t[j] == x;
                    assert(ids[j] == x);
                } else {
                    assert(ids[t.len() as int] == x);
                }
            }
            if ids.contains(x) && !is_pinned(x) {
                let j = choose|j: int| 0 <= j < ids.len() && ids[j] == x;
                if j < t.len() {
                    assert(t[j] == x);
                    assert(c.contains(x));
                    let i = choose|i: int| 0 <= i < c.len() && c[i] == x;
                    assert(r[i] == x);
                } else {
                    assert(r[c.len() as int] == x);
                }
            }
        }
        if ids.no_duplicates() {
            assert(t.no_duplicates());
            if t.contains(ids.last()) {
                let j = choose|j: int| 0 <= j < t.len() && t[j] == ids.last();
                assert(ids[j] == ids[ids.len() - 1]);
            }
            assert(!c.contains(ids.last()));
        }
    }
}

proof fn lemma_digits_at(s: Seq<char>, i: int)
    ensures
        digits_at(s, i).len() > 0 ==> is_id(digits_at(s, i)),
    decreases s.len() - i,
{
    if 0 <= i < s.len() && is_digit(s[i]) {
        lemma_digits_at(s, i + 1);
        let rest = digits_at(s, i + 1);
        let d = digits_at(s, i);
        assert forall|k: int| 0 <= k < d.len() implies is_digit(#[trigger] d[k]) by {
            if k > 0 {
                assert(d[k] == rest[k - 1]);
            }
        }
    }
}

proof fn lemma_ids_from(s: Seq<char>, marker: Seq<char>, i: int)
    requires
        0 <= i,
        marker.len() > 0,
    ensures
        forall|k: int| 0 <= k < ids_from(s, marker, i).len() ==> is_id(
            #[trigger] ids_from(s, marker, i)[k],
        ),
    decreases s.len() - i,
{
    lemma_find_from(s, marker, i);
    match find_from(s, marker, i) {
        None => {},
        Some(j) => {
            let n = j + marker.len();
            lemma_digits_at(s, n);
            lemma_ids_from(s, marker, n);
            let d = digits_at(s, n);
            let rest = ids_from(s, marker, n);
            let all = ids_from(s, marker, i);
            assert forall|k: int| 0 <= k < all.len() implies is_id(#[trigger] all[k]) by {
                if d.len() > 0 {
                    if k > 0 {
                        assert(all[k] == rest[k - 1]);
                    }
                } else {
                    assert(all[k] == rest[k]);
                }
            }
        },
    }
}

/// A listing gives workshop ids, each once, and never the pinned notice.
pub proof fn law_listing_gives_mods(html: Seq<char>)
    ensures
        listing_ids(html).no_duplicates(),
        forall|x: Seq<char>| #[trigger] listing_ids(html).contains(x) ==> is_id(x) && !is_pinned(x),
{
    let marker = "sharedfiles/filedetails/?id="@;
    reveal_strlit("sharedfiles/filedetails/?id=");
    let all = ids_from(html, marker, 0);
    lemma_ids_from(html, marker, 0);
    law_firsts(all);
    lemma_unpinned(firsts(all));
    assert forall|x: Seq<char>| #[trigger] listing_ids(html).contains(x) implies is_id(x)
        && !is_pinned(x) by {
        assert(firsts(all).contains(x));
        assert(all.contains(x));
        let k = choose|k: int| 0 <= k < all.len() && all[k] == x;
        assert(is_id(all[k]));
    }
}

/// The smaller of two positions, as far as there are any.
pub open spec fn nearer(a: Option<int>, b: Option<int>) -> Option<int> {
    match (a, b) {
        (Some(x), Some(y)) => Some(if x <= y { x } else { y }),
        (Some(x), None) => Some(x),
        (None, b) => b,
    }
}

/// The part of an item's page that lists what it needs, if there is one: from its
/// heading to the next comment or panel.
pub open spec fn needs_block(html: Seq<char>) -> Option<Seq<char>> {
    match find_from(html, "id=\"RequiredItems\""@, 0) {
        None => None,
        Some(start) => {
            let rest = html.subrange(start, html.len() as int);
            let end = nearer(
                find_from(rest, "<!--"@, 0),
                find_from(rest, "rightSectionTopTitle"@, 0),
            );
            Some(
                rest.subrange(
                    0,
                    match end {
                        Some(e) => e,
                        None => rest.len() as int,
                    },
                ),
            )
        },
    }
}

/// Those of `ids` that are not `id`.
pub open spec fn others(ids: Seq<Seq<char>>, id: Seq<char>) -> Seq<Seq<char>>
    decreases ids.len(),
{
    if ids.len() == 0 {
        seq![]
    } else {
        let r = others(ids.drop_last(), id);
        if ids.last() == id {
            r
        } else {
            r.push(ids.last())
        }
    }
}

/// At most so many items are taken to be needed.
pub const MAX_REQUIRED: usize = 20;

pub open spec fn at_most(ids: Seq<Seq<char>>, n: int) -> Seq<Seq<char>> {
    if ids.len() <= n {
        ids
    } else {
        ids.take(n)
    }
}

/// The items that the page of the item `id` says it needs.
pub open spec fn required_in(html: Seq<char>, id: Seq<char>) -> Seq<Seq<char>> {
    match needs_block(html) {
        None => seq![],
        Some(block) => at_most(
            others(marked_ids(block, "filedetails/?id="@), id),
            MAX_REQUIRED as int,
        ),
    }
}

/// The items that the page of the item `id` says it needs: the links in the part
/// of the page that lists them, but not to the item itself.
pub fn required_ids(html: &str, id: &str) -> (r: Vec<String>)
    ensures
        r.deep_view() == required_in(html@, id@),
{
    let chars = chars_of(html);
    let heading = chars_of("id=\"RequiredItems\"");
    let start = match find(&chars, &heading, 0) {
        None => {
            let none: Vec<String> = Vec::new();
            assert(none.deep_view() =~= seq![]);
            return none;
        },
        Some(k) => k,
    };
    proof {
        lemma_find_from(html@, heading@, 0);
    }
    let rest_text = text_of(&chars, start, chars.len());
    let rest = chars_of(rest_text.as_str());
    let comment = chars_of("<!--");
    let panel = chars_of("rightSectionTopTitle");
    let a = find(&rest, &comment, 0);
    let b = find(&rest, &panel, 0);
    proof {
        lemma_find_from(rest@, comment@, 0);
        lemma_find_from(rest@, panel@, 0);
    }
    let end = match (a, b) {
        (Some(x), Some(y)) => {
            if x <= y {
                x
            } else {
                y
            }
        },
        (Some(x), None) => x,
        (None, Some(y)) => y,
        (None, None) => rest.len(),
    };
    let block = text_of(&rest, 0, end);
    proof {
        reveal_strlit("filedetails/?id=");
    }
    let ids = ids_after(block.as_str(), "filedetails/?id=");
    let ghost all = ids.deep_view();
    let mut r: Vec<String> = Vec::new();
    let mut i: usize = 0;
    assert(r.deep_view() =~= seq![]);
    while i < ids.len()
        invariant
            i <= ids.len(),
            all == ids.deep_view(),
            r.deep_view() == others(all.take(i as int), id@),
        decreases ids.len() - i,
    {
        assert(all.take(i + 1).drop_last() =~= all.take(i as int));
        if !same(ids[i].as_str(), id) {
            let ghost before = r.deep_view();
            r.push(ids[i].clone());
            assert(r.deep_view() =~= before.push(ids@[i as int]@));
        }
        i += 1;
    }
    assert(all.take(ids.len() as int) =~= all);
    take_texts(r, MAX_REQUIRED)
}

/// The first `n` of `list`.
pub fn take_texts(list: Vec<String>, n: usize) -> (r: Vec<String>)
    ensures
        r.deep_view() == at_most(list.deep_view(), n as int),
{
    let mut r = list;
    if r.len() > n {
        let ghost all = r.deep_view();
        r.truncate(n);
        assert(r.deep_view() =~= all.take(n as int));
    }
    r
}

/// An item never needs itself, and never more items than are allowed.
pub proof fn law_required_items_are_others(html: Seq<char>, id: Seq<char>)
    ensures
        !required_in(html, id).contains(id),
        required_in(html, id).len() <= MAX_REQUIRED,
{
    match needs_block(html) {
        None => {},
        Some(block) => {
            let ids = marked_ids(block, "filedetails/?id="@);
            lemma_others(ids, id);
            let r = required_in(html, id);
            if r.contains(id) {
                let k = choose|k: int| 0 <= k < r.len() && r[k] == id;
                assert(others(ids, id)[k] == id);
                assert(others(ids, id).contains(id));
            }
        },
    }
}

proof fn lemma_others(ids: Seq<Seq<char>>, id: Seq<char>)
    ensures
        !others(ids, id).contains(id),
    decreases ids.len(),
{
    if ids.len() > 0 {
        lemma_others(ids.drop_last(), id);
        let c = others(ids.drop_last(), id);
        let r = others(ids, id);
        if r.contains(id) {
            let k = choose|k: int| 0 <= k < r.len() && r[k] == id;
            if k < c.len() {
                assert(c[k] == id);
                assert(c.contains(id));
            }
        }
    }
}

/// Whether a page says that there were too many requests.
pub open spec fn is_block_page(html: Seq<char>) -> bool {
    contains(lowercase(html), "too many requests"@)
}

/// Whether a page is one of the workshop's.
pub open spec fn is_workshop_page(html: Seq<char>) -> bool {
    contains(html, "filedetails/?id="@) && !is_block_page(html)
}

fn says_too_many(html: &str) -> (r: bool)
    ensures
        r == is_block_page(html@),
{
    let lower = to_lower(html);
    contains_text(lower.as_str(), "too many requests")
}

/// Whether a page is one of the workshop's: it links to an item, and does not say
/// that there were too many requests.
pub fn is_valid_workshop_html(html: &str) -> (r: bool)
    ensures
        r == is_workshop_page(html@),
{
    contains_text(html, "filedetails/?id=") && !says_too_many(html)
}

} // verus!
