//! What reading a page of the workshop promises: every link that counts is followed,
//! in the order in which the links stand.
use vstd::prelude::*;

use crate::deps::{firsts, law_firsts};
use crate::page::{
    at_most, digits_at, ids_from, listing_ids, marked_ids, needs_block, others, required_in,
    unpinned,
};
use crate::text::{contains, find_from, is_digit, lemma_find_from, occurs_at};

verus! {

/// The digits `d` follow `marker` directly where it stands at `k`: all of them up to
/// something else or the end.
pub open spec fn is_link(s: Seq<char>, marker: Seq<char>, k: int, d: Seq<char>) -> bool {
    let n = k + marker.len();
    &&& occurs_at(s, marker, k)
    &&& d.len() > 0
    &&& n + d.len() <= s.len()
    &&& forall|i: int| 0 <= i < d.len() ==> #[trigger] d[i] == s[n + i] && is_digit(d[i])
    &&& n + d.len() == s.len() || !is_digit(s[n + d.len()])
}

/// The marker cannot begin inside itself: its last character stands in it once.
spec fn stands_apart(marker: Seq<char>) -> bool {
    marker.len() > 0 && forall|i: int|
        0 <= i < marker.len() - 1 ==> #[trigger] marker[i] != marker.last()
}

proof fn lemma_digits(s: Seq<char>, n: int)
    requires
        0 <= n <= s.len(),
    ensures
        n + digits_at(s, n).len() <= s.len(),
        forall|i: int|
            0 <= i < digits_at(s, n).len() ==> #[trigger] digits_at(s, n)[i] == s[n + i] && is_digit(
                s[n + i],
            ),
        n + digits_at(s, n).len() == s.len() || !is_digit(s[n + digits_at(s, n).len()]),
    decreases s.len() - n,
{
    if n < s.len() && is_digit(s[n]) {
        lemma_digits(s, n + 1);
        let rest = digits_at(s, n + 1);
        let d = digits_at(s, n);
        assert(d =~= seq![s[n]] + rest);
        assert forall|i: int| 0 <= i < d.len() implies #[trigger] d[i] == s[n + i] && is_digit(
            s[n + i],
        ) by {
            if i > 0 {
                assert(d[i] == rest[i - 1]);
            }
        }
    }
}

/// The digits that follow a marker are the only ones that do.
proof fn lemma_link_is_one(s: Seq<char>, marker: Seq<char>, k: int, d: Seq<char>)
    requires
        occurs_at(s, marker, k),
    ensures
        is_link(s, marker, k, d) <==> d.len() > 0 && d == digits_at(s, k + marker.len()),
{
    let n = k + marker.len();
    lemma_digits(s, n);
    let e = digits_at(s, n);
    if is_link(s, marker, k, d) {
        if d.len() < e.len() {
            assert(e[d.len() as int] == s[n + d.len()]);
        }
        if e.len() < d.len() {
            assert(is_digit(d[e.len() as int]));
        }
        assert forall|i: int| 0 <= i < d.len() implies d[i] == e[i] by {
            assert(d[i] == s[n + i]);
            assert(e[i] == s[n + i]);
        }
        assert(d =~= e);
    }
    if d.len() > 0 && d == e {
        assert forall|i: int| 0 <= i < d.len() implies #[trigger] d[i] == s[n + i] && is_digit(
            d[i],
        ) by {
            assert(e[i] == s[n + i]);
        }
    }
}

/// The links from `i` on, each with its position.
spec fn links_from(s: Seq<char>, marker: Seq<char>, i: int) -> Seq<(int, Seq<char>)>
    decreases s.len() - i,
    when 0 <= i && marker.len() > 0
    via links_from_decreases
{
    match find_from(s, marker, i) {
        None => seq![],
        Some(k) => {
            let d = digits_at(s, k + marker.len());
            let rest = links_from(s, marker, k + marker.len());
            if d.len() > 0 {
                seq![(k, d)] + rest
            } else {
                rest
            }
        },
    }
}

#[via_fn]
proof fn links_from_decreases(s: Seq<char>, marker: Seq<char>, i: int) {
    lemma_find_from(s, marker, i);
}

proof fn lemma_links(s: Seq<char>, marker: Seq<char>, i: int)
    requires
        0 <= i,
        stands_apart(marker),
    ensures
        ({
            let l = links_from(s, marker, i);
            &&& ids_from(s, marker, i) == l.map_values(|x: (int, Seq<char>)| x.1)
            &&& forall|p: int|
                0 <= p < l.len() ==> i <= (#[trigger] l[p]).0 && is_link(s, marker, l[p].0, l[p].1)
            &&& forall|p: int, q: int|
                0 <= p < q < l.len() ==> (#[trigger] l[p]).0 < (#[trigger] l[q]).0
            &&& forall|k: int, d: Seq<char>|
                i <= k && #[trigger] is_link(s, marker, k, d) ==> l.contains((k, d))
        }),
    decreases s.len() - i,
{
    lemma_find_from(s, marker, i);
    let l = links_from(s, marker, i);
    match find_from(s, marker, i) {
        None => {
            assert(ids_from(s, marker, i) =~= l.map_values(|x: (int, Seq<char>)| x.1));
        },
        Some(j) => {
            let n = j + marker.len();
            lemma_links(s, marker, n);
            let d = digits_at(s, n);
            let rest = links_from(s, marker, n);
            lemma_link_is_one(s, marker, j, d);
            let head: Seq<(int, Seq<char>)> = if d.len() > 0 {
                seq![(j, d)]
            } else {
                seq![]
            };
            assert(l =~= head + rest);
            assert(ids_from(s, marker, i) =~= l.map_values(|x: (int, Seq<char>)| x.1)) by {
                let a = rest.map_values(|x: (int, Seq<char>)| x.1);
                assert(ids_from(s, marker, n) == a);
            }
            assert forall|p: int| 0 <= p < l.len() implies i <= (#[trigger] l[p]).0 && is_link(
                s,
                marker,
                l[p].0,
                l[p].1,
            ) by {
                if p >= head.len() {
                    assert(l[p] == rest[p - head.len()]);
                }
            }
            assert forall|p: int, q: int| 0 <= p < q < l.len() implies (#[trigger] l[p]).0 < (
            #[trigger] l[q]).0 by {
                assert(l[q] == rest[q - head.len()]);
                if p >= head.len() {
                    assert(l[p] == rest[p - head.len()]);
                }
            }
            assert forall|k: int, e: Seq<char>| i <= k && #[trigger] is_link(
                s,
                marker,
                k,
                e,
            ) implies l.contains((k, e)) by {
                if k < j {
                    assert(!occurs_at(s, marker, k));
                } else if k == j {
                    lemma_link_is_one(s, marker, j, e);
                    assert(l[0] == (k, e));
                } else if k < n {
                    // The last character of the marker would stand in its middle.
                    let m = marker.len() as int;
                    let a = s.subrange(j, j + m);
                    let b = s.subrange(k, k + m);
                    assert(a[m - 1] == s[j + m - 1]);
                    assert(b[j + m - 1 - k] == s[j + m - 1]);
                    assert(marker[j + m - 1 - k] == marker.last());
                } else {
                    assert(rest.contains((k, e)));
                    let p = choose|p: int| 0 <= p < rest.len() && rest[p] == (k, e);
                    assert(l[p + head.len()] == (k, e));
                }
            }
        },
    }
}

/// Wherever `y` is linked to, `x` was linked to before.
pub open spec fn is_linked_before(
    s: Seq<char>,
    marker: Seq<char>,
    x: Seq<char>,
    y: Seq<char>,
) -> bool {
    forall|k: int|
        #[trigger] is_link(s, marker, k, y) ==> exists|j: int| j < k && #[trigger] is_link(s, marker, j, x)
}

/// Some link leads to `x`.
pub open spec fn is_linked(s: Seq<char>, marker: Seq<char>, x: Seq<char>) -> bool {
    exists|k: int| #[trigger] is_link(s, marker, k, x)
}

/// Each item stands where it first stood: before everything that came later.
pub proof fn law_firsts_keep_their_order(ids: Seq<Seq<char>>, i: int, j: int, q: int)
    requires
        0 <= i < j < firsts(ids).len(),
        0 <= q < ids.len(),
        ids[q] == firsts(ids)[j],
    ensures
        exists|p: int| 0 <= p < q && #[trigger] ids[p] == firsts(ids)[i],
    decreases ids.len(),
{
    let t = ids.drop_last();
    let f = firsts(t);
    law_firsts(t);
    if j < f.len() {
        assert(firsts(ids)[i] == f[i] && firsts(ids)[j] == f[j]);
        if q < t.len() {
            law_firsts_keep_their_order(t, i, j, q);
            let p = choose|p: int| 0 <= p < q && #[trigger] t[p] == f[i];
            assert(ids[p] == firsts(ids)[i]);
        } else {
            assert(f.contains(f[i]));
            assert(t.contains(f[i]));
            let p = choose|p: int| 0 <= p < t.len() && t[p] == f[i];
            assert(ids[p] == firsts(ids)[i]);
        }
    } else {
        assert(firsts(ids)[i] == f[i]);
        assert(f.contains(f[i]));
        assert(t.contains(f[i]));
        if q < t.len() {
            assert(t[q] == ids.last());
            assert(t.contains(ids.last()));
            assert(f.contains(ids.last()));
        }
        let p = choose|p: int| 0 <= p < t.len() && t[p] == f[i];
        assert(ids[p] == firsts(ids)[i]);
    }
}

proof fn lemma_marked(s: Seq<char>, marker: Seq<char>)
    requires
        stands_apart(marker),
    ensures
        marked_ids(s, marker).no_duplicates(),
        forall|x: Seq<char>|
            #[trigger] marked_ids(s, marker).contains(x) <==> is_linked(s, marker, x),
        forall|i: int, j: int|
            0 <= i < j < marked_ids(s, marker).len() ==> is_linked_before(
                s,
                marker,
                #[trigger] marked_ids(s, marker)[i],
                #[trigger] marked_ids(s, marker)[j],
            ),
{
    lemma_links(s, marker, 0);
    let l = links_from(s, marker, 0);
    let ids = ids_from(s, marker, 0);
    let f = marked_ids(s, marker);
    law_firsts(ids);
    assert forall|x: Seq<char>| #[trigger] f.contains(x) <==> is_linked(s, marker, x) by {
        if f.contains(x) {
            assert(ids.contains(x));
            let p = choose|p: int| 0 <= p < ids.len() && ids[p] == x;
            assert(is_link(s, marker, l[p].0, l[p].1));
        }
        if is_linked(s, marker, x) {
            let k = choose|k: int| #[trigger] is_link(s, marker, k, x);
            assert(l.contains((k, x)));
            let p = choose|p: int| 0 <= p < l.len() && l[p] == (k, x);
            assert(ids[p] == x);
        }
    }
    assert forall|i: int, j: int| 0 <= i < j < f.len() implies is_linked_before(
        s,
        marker,
        #[trigger] f[i],
        #[trigger] f[j],
    ) by {
        assert forall|k: int| #[trigger] is_link(s, marker, k, f[j]) implies exists|m: int|
            m < k && #[trigger] is_link(s, marker, m, f[i]) by {
            assert(l.contains((k, f[j])));
            let q = choose|q: int| 0 <= q < l.len() && l[q] == (k, f[j]);
            assert(ids[q] == f[j]);
            law_firsts_keep_their_order(ids, i, j, q);
            let p = choose|p: int| 0 <= p < q && #[trigger] ids[p] == f[i];
            assert(l[p].0 < l[q].0);
            assert(is_link(s, marker, l[p].0, l[p].1));
        }
    }
}

proof fn lemma_others(ids: Seq<Seq<char>>, id: Seq<char>)
    ensures
        others(ids, id) == ids.filter(|x: Seq<char>| x != id),
    decreases ids.len(),
{
    reveal(Seq::filter);
    if ids.len() > 0 {
        lemma_others(ids.drop_last(), id);
    }
}

proof fn lemma_kept(ids: Seq<Seq<char>>, keep: spec_fn(Seq<char>) -> bool)
    ensures
        forall|x: Seq<char>| #[trigger] ids.filter(keep).contains(x) <==> ids.contains(x) && keep(x),
        forall|i: int, j: int|
            0 <= i < j < ids.filter(keep).len() ==> stand_so(
                ids,
                #[trigger] ids.filter(keep)[i],
                #[trigger] ids.filter(keep)[j],
            ),
        ids.no_duplicates() ==> ids.filter(keep).no_duplicates(),
    decreases ids.len(),
{
    reveal(Seq::filter);
    if ids.len() > 0 {
        let t = ids.drop_last();
        lemma_kept(t, keep);
        let a = t.filter(keep);
        let r = ids.filter(keep);
        let last = ids.last();
        assert forall|x: Seq<char>| #[trigger] r.contains(x) <==> ids.contains(x) && keep(x) by {
            if r.contains(x) {
                let i = choose|i: int| 0 <= i < r.len() && r[i] == x;
                if i < a.len() {
                    assert(a[i] == x);
                    assert(a.contains(x));
                    let j = choose|j: int| 0 <= j < t.len() && t[j] == x;
                    assert(ids[j] == x);
                } else {
                    assert(ids[ids.len() - 1] == x);
                }
            }
            if ids.contains(x) && keep(x) {
                let j = choose|j: int| 0 <= j < ids.len() && ids[j] == x;
                if j < t.len() {
                    assert(t[j] == x);
                    assert(a.contains(x));
                    let i = choose|i: int| 0 <= i < a.len() && a[i] == x;
                    assert(r[i] == x);
                } else {
                    assert(r[a.len() as int] == x);
                }
            }
        }
        assert forall|i: int, j: int| 0 <= i < j < r.len() implies stand_so(
            ids,
            #[trigger] r[i],
            #[trigger] r[j],
        ) by {
            assert(r[i] == a[i]);
            if j < a.len() {
                assert(r[j] == a[j]);
                assert(stand_so(t, a[i], a[j]));
                let (p, q) = choose|p: int, q: int|
                    0 <= p < q < t.len() && #[trigger] t[p] == a[i] && #[trigger] t[q] == a[j];
                assert(ids[p] == r[i] && ids[q] == r[j]);
            } else {
                assert(a.contains(a[i]));
                let p = choose|p: int| 0 <= p < t.len() && t[p] == a[i];
                assert(ids[p] == r[i] && ids[ids.len() - 1] == r[j]);
            }
        }
        if ids.no_duplicates() {
            assert(t.no_duplicates());
            if a.contains(last) {
                assert(t.contains(last));
                let p = choose|p: int| 0 <= p < t.len() && t[p] == last;
                assert(ids[p] == ids[ids.len() - 1]);
            }
        }
    }
}

/// `x` stands before `y` in the list.
spec fn stand_so(list: Seq<Seq<char>>, x: Seq<char>, y: Seq<char>) -> bool {
    exists|p: int, q: int| 0 <= p < q < list.len() && #[trigger] list[p] == x && #[trigger] list[q] == y
}

proof fn lemma_kept_order(s: Seq<char>, marker: Seq<char>, keep: spec_fn(Seq<char>) -> bool)
    requires
        stands_apart(marker),
    ensures
        ({
            let r = marked_ids(s, marker).filter(keep);
            &&& r.no_duplicates()
            &&& forall|x: Seq<char>|
                #[trigger] r.contains(x) <==> is_linked(s, marker, x) && keep(x)
            &&& forall|i: int, j: int|
                0 <= i < j < r.len() ==> is_linked_before(
                    s,
                    marker,
                    #[trigger] r[i],
                    #[trigger] r[j],
                )
        }),
{
    let f = marked_ids(s, marker);
    let r = f.filter(keep);
    lemma_marked(s, marker);
    lemma_kept(f, keep);
    assert forall|x: Seq<char>| #[trigger] r.contains(x) <==> is_linked(s, marker, x) && keep(x) by {
        assert(f.contains(x) <==> is_linked(s, marker, x));
    }
    assert forall|i: int, j: int| 0 <= i < j < r.len() implies is_linked_before(
        s,
        marker,
        #[trigger] r[i],
        #[trigger] r[j],
    ) by {
        assert(stand_so(f, r[i], r[j]));
        let (p, q) = choose|p: int, q: int|
            0 <= p < q < f.len() && #[trigger] f[p] == r[i] && #[trigger] f[q] == r[j];
        assert(is_linked_before(s, marker, f[p], f[q]));
    }
}

proof fn lemma_links_apart()
    ensures
        stands_apart("filedetails/?id="@),
        stands_apart("sharedfiles/filedetails/?id="@),
{
    reveal_strlit("filedetails/?id=");
    reveal_strlit("sharedfiles/filedetails/?id=");
}

/// The part of a page that lists what an item needs begins at the first heading and
/// ends before the next comment or panel, or with the page.
pub proof fn law_the_needs_stand_under_their_heading(html: Seq<char>)
    ensures
        needs_block(html) is None <==> !contains(html, "id=\"RequiredItems\""@),
        needs_block(html) matches Some(block) ==> exists|a: int, b: int|
            #[trigger] is_block(html, a, b) && block == html.subrange(a, b),
{
    let heading = "id=\"RequiredItems\""@;
    lemma_find_from(html, heading, 0);
    match find_from(html, heading, 0) {
        None => {
            assert forall|i: int| !occurs_at(html, heading, i) by {}
        },
        Some(a) => {
            assert(contains(html, heading));
            let rest = html.subrange(a, html.len() as int);
            let (c, p) = ("<!--"@, "rightSectionTopTitle"@);
            lemma_find_from(rest, c, 0);
            lemma_find_from(rest, p, 0);
            let n = needs_block(html)->Some_0.len() as int;
            assert forall|j: int, m: Seq<char>| a <= j implies (#[trigger] occurs_at(html, m, j)
                <==> occurs_at(rest, m, j - a)) by {
                if j + m.len() <= html.len() {
                    assert(html.subrange(j, j + m.len()) =~= rest.subrange(j - a, j - a + m.len()));
                }
            }
            assert(needs_block(html)->Some_0 =~= html.subrange(a, a + n));
            assert(is_block(html, a, a + n));
        },
    }
}

/// The stretch from `a` to `b` is the part of a page that lists what an item needs.
pub open spec fn is_block(html: Seq<char>, a: int, b: int) -> bool {
    &&& 0 <= a <= b <= html.len()
    &&& occurs_at(html, "id=\"RequiredItems\""@, a)
    &&& forall|j: int| 0 <= j < a ==> !(#[trigger] occurs_at(html, "id=\"RequiredItems\""@, j))
    &&& forall|j: int|
        a <= j < b ==> !(#[trigger] occurs_at(html, "<!--"@, j)) && !(#[trigger] occurs_at(
            html,
            "rightSectionTopTitle"@,
            j,
        ))
    &&& b == html.len() || occurs_at(html, "<!--"@, b) || occurs_at(
        html,
        "rightSectionTopTitle"@,
        b,
    )
}

/// Every item that is linked to in the part that lists what an item needs is needed,
/// the item itself apart, each once and in the order of the links; where there are
/// more than twenty, the twenty that are linked to first.
pub proof fn law_every_required_item_is_seen(html: Seq<char>, id: Seq<char>)
    ensures
        match needs_block(html) {
            None => required_in(html, id).len() == 0,
            Some(block) => {
                let r = required_in(html, id);
                let marker = "filedetails/?id="@;
                &&& r.no_duplicates()
                &&& r.len() <= 20
                &&& forall|i: int|
                    0 <= i < r.len() ==> is_linked(block, marker, #[trigger] r[i]) && r[i] != id
                &&& forall|x: Seq<char>|
                    #[trigger] is_linked(block, marker, x) && x != id && !r.contains(x) ==> r.len()
                        == 20 && forall|i: int|
                        0 <= i < r.len() ==> is_linked_before(block, marker, #[trigger] r[i], x)
                &&& forall|i: int, j: int|
                    0 <= i < j < r.len() ==> is_linked_before(
                        block,
                        marker,
                        #[trigger] r[i],
                        #[trigger] r[j],
                    )
            },
        },
{
    if let Some(block) = needs_block(html) {
        let marker = "filedetails/?id="@;
        let keep = |x: Seq<char>| x != id;
        let all = marked_ids(block, marker);
        let o = others(all, id);
        let r = required_in(html, id);
        lemma_links_apart();
        lemma_others(all, id);
        assert(o == all.filter(keep));
        lemma_kept_order(block, marker, keep);
        assert(r == at_most(o, 20));
        assert forall|i: int| 0 <= i < r.len() implies is_linked(block, marker, #[trigger] r[i])
            && r[i] != id by {
            assert(r[i] == o[i]);
            assert(o.contains(o[i]));
        }
        assert forall|i: int, j: int| 0 <= i < j < r.len() implies is_linked_before(
            block,
            marker,
            #[trigger] r[i],
            #[trigger] r[j],
        ) by {
            assert(r[i] == o[i] && r[j] == o[j]);
        }
        assert forall|x: Seq<char>| #[trigger] is_linked(block, marker, x) && x != id && !r.contains(
            x,
        ) implies r.len() == 20 && forall|i: int|
            0 <= i < r.len() ==> is_linked_before(block, marker, #[trigger] r[i], x) by {
            assert(o.contains(x));
            let n = choose|n: int| 0 <= n < o.len() && o[n] == x;
            if n < r.len() {
                assert(r[n] == x);
            }
            assert forall|i: int| 0 <= i < r.len() implies is_linked_before(
                block,
                marker,
                #[trigger] r[i],
                x,
            ) by {
                assert(r[i] == o[i]);
                assert(is_linked_before(block, marker, o[i], o[n]));
            }
        }
    }
}

proof fn lemma_unpinned(ids: Seq<Seq<char>>)
    ensures
        unpinned(ids) == ids.filter(|x: Seq<char>| x != "2872282653"@),
    decreases ids.len(),
{
    reveal(Seq::filter);
    if ids.len() > 0 {
        lemma_unpinned(ids.drop_last());
    }
}

/// Every item that a listing links to is in it, the pinned notice apart, each once and
/// in the order of the links, and nothing else is.
pub proof fn law_every_listed_item_is_seen(html: Seq<char>)
    ensures
        ({
            let r = listing_ids(html);
            let marker = "sharedfiles/filedetails/?id="@;
            &&& r.no_duplicates()
            &&& forall|x: Seq<char>|
                #[trigger] r.contains(x) <==> is_linked(html, marker, x) && x != "2872282653"@
            &&& forall|i: int, j: int|
                0 <= i < j < r.len() ==> is_linked_before(
                    html,
                    marker,
                    #[trigger] r[i],
                    #[trigger] r[j],
                )
        }),
{
    let marker = "sharedfiles/filedetails/?id="@;
    let keep = |x: Seq<char>| x != "2872282653"@;
    lemma_links_apart();
    lemma_unpinned(marked_ids(html, marker));
    assert(listing_ids(html) == marked_ids(html, marker).filter(keep));
    lemma_kept_order(html, marker, keep);
}

} // verus!
