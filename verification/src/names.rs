//! The order in which names are listed: by their lower-case form, and names
//! that agree in it as they came.
use vstd::prelude::*;

use crate::text::chars_of;

verus! {

/// What `str::to_lowercase` returns.
pub uninterp spec fn lowercase(s: Seq<char>) -> Seq<char>;

/// The lower-case form of an ASCII character.
pub open spec fn ascii_low(c: char) -> char {
    if 'A' <= c <= 'Z' {
        (c as u32 + 32) as char
    } else {
        c
    }
}

pub open spec fn is_ascii_text(s: Seq<char>) -> bool {
    forall|i: int| 0 <= i < s.len() ==> (#[trigger] s[i]) <= '\u{7f}'
}

/// `str::to_lowercase`: the lower-case form of `s`, which depends on `s` alone.
/// Unicode gives the letters of ASCII their ASCII lower-case letters, and leaves
/// the rest of ASCII as it is.
#[verifier::external_body]
pub(crate) fn to_lower(s: &str) -> (r: String)
    ensures
        r@ == lowercase(s@),
        is_ascii_text(s@) ==> r@ == s@.map_values(|c: char| ascii_low(c)),
{
    s.to_lowercase()
}

/// The lexicographic order of strings by the code points of their characters.
pub open spec fn text_lt(a: Seq<char>, b: Seq<char>) -> bool
    decreases a.len(),
{
    if b.len() == 0 {
        false
    } else if a.len() == 0 {
        true
    } else if a[0] != b[0] {
        a[0] < b[0]
    } else {
        text_lt(a.drop_first(), b.drop_first())
    }
}

pub proof fn lemma_text_lt_irreflexive(a: Seq<char>)
    ensures
        !text_lt(a, a),
    decreases a.len(),
{
    if a.len() > 0 {
        lemma_text_lt_irreflexive(a.drop_first());
    }
}

pub proof fn lemma_text_lt_transitive(a: Seq<char>, b: Seq<char>, c: Seq<char>)
    requires
        text_lt(a, b),
        text_lt(b, c),
    ensures
        text_lt(a, c),
    decreases a.len(),
{
    if a.len() > 0 && a[0] == b[0] && b[0] == c[0] {
        lemma_text_lt_transitive(a.drop_first(), b.drop_first(), c.drop_first());
    }
}

pub proof fn lemma_text_lt_total(a: Seq<char>, b: Seq<char>)
    ensures
        text_lt(a, b) || text_lt(b, a) || a == b,
    decreases a.len(),
{
    if a.len() > 0 && b.len() > 0 {
        if a[0] == b[0] {
            lemma_text_lt_total(a.drop_first(), b.drop_first());
            if a.drop_first() == b.drop_first() {
                assert(a =~= seq![a[0]] + a.drop_first());
                assert(b =~= seq![b[0]] + b.drop_first());
            }
        }
    } else {
        assert(a.len() == 0 && b.len() == 0 ==> a =~= b);
    }
}

pub proof fn lemma_text_lt_common_head(a: Seq<char>, b: Seq<char>, k: int)
    requires
        0 <= k <= a.len(),
        k <= b.len(),
        forall|i: int| 0 <= i < k ==> a[i] == b[i],
    ensures
        text_lt(a, b) == text_lt(a.skip(k), b.skip(k)),
    decreases k,
{
    if k > 0 {
        let x = a.drop_first();
        let y = b.drop_first();
        assert forall|i: int| 0 <= i < k - 1 implies x[i] == y[i] by {
            assert(a[i + 1] == b[i + 1]);
        }
        lemma_text_lt_common_head(x, y, k - 1);
        assert(x.skip(k - 1) =~= a.skip(k));
        assert(y.skip(k - 1) =~= b.skip(k));
    } else {
        assert(a.skip(0) =~= a);
        assert(b.skip(0) =~= b);
    }
}

/// Whether `a` comes before `b`.
pub fn less(a: &str, b: &str) -> (r: bool)
    ensures
        r == text_lt(a@, b@),
{
    let x = chars_of(a);
    let y = chars_of(b);
    let mut k: usize = 0;
    while k < x.len() && k < y.len() && x[k] == y[k]
        invariant
            k <= x.len(),
            k <= y.len(),
            forall|i: int| 0 <= i < k ==> x@[i] == y@[i],
        decreases x.len() - k,
    {
        k += 1;
    }
    proof {
        lemma_text_lt_common_head(x@, y@, k as int);
    }
    if k == y.len() {
        false
    } else if k == x.len() {
        true
    } else {
        assert(x@.skip(k as int)[0] == x@[k as int]);
        assert(y@.skip(k as int)[0] == y@[k as int]);
        x[k] < y[k]
    }
}

/// `x` put into `order` behind every position whose name does not come after
/// that of `x`.
pub open spec fn insert_position(names: Seq<Seq<char>>, order: Seq<int>, x: int) -> Seq<int>
    decreases order.len(),
{
    if order.len() > 0 && text_lt(lowercase(names[x]), lowercase(names[order.last()])) {
        insert_position(names, order.drop_last(), x).push(order.last())
    } else {
        order.push(x)
    }
}

/// The positions of `names` in the order of listing.
pub open spec fn listing_order(names: Seq<Seq<char>>) -> Seq<int>
    decreases names.len(),
{
    if names.len() == 0 {
        seq![]
    } else {
        insert_position(names, listing_order(names.drop_last()), names.len() - 1)
    }
}

/// `names` in the order of listing.
pub open spec fn listed(names: Seq<Seq<char>>) -> Seq<Seq<char>> {
    Seq::new(names.len(), |i: int| names[listing_order(names)[i]])
}

proof fn lemma_insert_position(names: Seq<Seq<char>>, order: Seq<int>, x: int) -> (p: int)
    ensures
        0 <= p <= order.len(),
        insert_position(names, order, x) == order.insert(p, x),
        forall|i: int|
            p <= i < order.len() ==> text_lt(
                lowercase(names[x]),
                lowercase(names[#[trigger] order[i]]),
            ),
        p > 0 ==> !text_lt(lowercase(names[x]), lowercase(names[order[p - 1]])),
    decreases order.len(),
{
    if order.len() > 0 && text_lt(lowercase(names[x]), lowercase(names[order.last()])) {
        let t = order.drop_last();
        let p = lemma_insert_position(names, t, x);
        assert(t.insert(p, x).push(order.last()) =~= order.insert(p, x));
        assert forall|i: int| p <= i < order.len() implies text_lt(
            lowercase(names[x]),
            lowercase(names[#[trigger] order[i]]),
        ) by {
            if i < t.len() {
                assert(t[i] == order[i]);
            }
        }
        p
    } else {
        assert(order.push(x) =~= order.insert(order.len() as int, x));
        order.len() as int
    }
}

proof fn lemma_insert_position_is(names: Seq<Seq<char>>, order: Seq<int>, x: int, p: int)
    requires
        0 <= p <= order.len(),
        forall|i: int|
            p <= i < order.len() ==> text_lt(
                lowercase(names[x]),
                lowercase(names[#[trigger] order[i]]),
            ),
        p > 0 ==> !text_lt(lowercase(names[x]), lowercase(names[order[p - 1]])),
    ensures
        insert_position(names, order, x) == order.insert(p, x),
    decreases order.len(),
{
    if p < order.len() {
        assert(text_lt(lowercase(names[x]), lowercase(names[order[order.len() - 1]])));
        let t = order.drop_last();
        lemma_insert_position_is(names, t, x, p);
        assert(t.insert(p, x).push(order.last()) =~= order.insert(p, x));
    } else {
        assert(order.push(x) =~= order.insert(p, x));
    }
}

/// Listing loses nothing and invents nothing: every position occurs once.
pub proof fn law_listing_order_is_a_permutation(names: Seq<Seq<char>>)
    ensures
        listing_order(names).len() == names.len(),
        listing_order(names).no_duplicates(),
        forall|i: int|
            0 <= i < names.len() ==> 0 <= #[trigger] listing_order(names)[i] < names.len(),
        forall|k: int| 0 <= k < names.len() ==> #[trigger] listing_order(names).contains(k),
    decreases names.len(),
{
    if names.len() > 0 {
        let t = names.drop_last();
        law_listing_order_is_a_permutation(t);
        let o = listing_order(t);
        let x = names.len() - 1;
        let p = lemma_insert_position(names, o, x);
        let r = o.insert(p, x);
        assert(r == listing_order(names));
        assert forall|i: int| 0 <= i < names.len() implies 0 <= #[trigger] r[i] < names.len() by {
            if i < p {
                assert(r[i] == o[i]);
            } else if i > p {
                assert(r[i] == o[i - 1]);
            }
        }
        assert forall|i: int, j: int| 0 <= i < r.len() && 0 <= j < r.len() && i != j implies r[i]
            != r[j] by {
            let a = if i < p { i } else { i - 1 };
            let b = if j < p { j } else { j - 1 };
            if i == p {
                assert(r[j] == o[b]);
                assert(0 <= o[b] < t.len());
            } else if j == p {
                assert(r[i] == o[a]);
                assert(0 <= o[a] < t.len());
            } else {
                assert(r[i] == o[a]);
                assert(r[j] == o[b]);
            }
        }
        assert forall|k: int| 0 <= k < names.len() implies #[trigger] r.contains(k) by {
            if k == x {
                assert(r[p] == x);
            } else {
                assert(o.contains(k));
                let i = choose|i: int| 0 <= i < o.len() && o[i] == k;
                if i < p {
                    assert(r[i] == k);
                } else {
                    assert(r[i + 1] == k);
                }
            }
        }
    }
}

/// `i` is listed before `j`: its lower-case form comes first, or both agree in
/// it and `i` came first.
pub open spec fn listed_before(names: Seq<Seq<char>>, i: int, j: int) -> bool {
    ||| text_lt(lowercase(names[i]), lowercase(names[j]))
    ||| lowercase(names[i]) == lowercase(names[j]) && i < j
}

/// Names are listed by their lower-case form, and names that agree in it keep
/// the order in which they came.
pub proof fn law_listing_is_sorted_and_stable(names: Seq<Seq<char>>)
    ensures
        forall|i: int, j: int|
            0 <= i < j < names.len() ==> listed_before(
                names,
                #[trigger] listing_order(names)[i],
                #[trigger] listing_order(names)[j],
            ),
    decreases names.len(),
{
    if names.len() > 0 {
        let t = names.drop_last();
        law_listing_is_sorted_and_stable(t);
        law_listing_order_is_a_permutation(t);
        let o = listing_order(t);
        let x = names.len() - 1;
        let p = lemma_insert_position(names, o, x);
        let r = o.insert(p, x);
        assert(r == listing_order(names));
        assert forall|i: int, j: int| 0 <= i < j < names.len() implies listed_before(
            names,
            #[trigger] r[i],
            #[trigger] r[j],
        ) by {
            let a = if i < p { i } else { i - 1 };
            let b = if j < p { j } else { j - 1 };
            if i == p {
                assert(r[j] == o[b]);
                assert(text_lt(lowercase(names[x]), lowercase(names[o[b]])));
            } else if j == p {
                assert(r[i] == o[a]);
                assert(0 <= o[a] < t.len() && 0 <= o[p - 1] < t.len());
                assert(names[o[a]] == t[o[a]] && names[o[p - 1]] == t[o[p - 1]]);
                let ka = lowercase(names[o[a]]);
                let kp = lowercase(names[o[p - 1]]);
                let kx = lowercase(names[x]);
                if a < p - 1 {
                    assert(listed_before(t, o[a], o[p - 1]));
                }
                lemma_text_lt_total(kp, kx);
                if kp != kx && ka != kp {
                    lemma_text_lt_transitive(ka, kp, kx);
                }
            } else {
                assert(r[i] == o[a] && r[j] == o[b]);
                assert(listed_before(t, o[a], o[b]));
                assert(0 <= o[a] < t.len() && 0 <= o[b] < t.len());
                assert(names[o[a]] == t[o[a]] && names[o[b]] == t[o[b]]);
            }
        }
    }
}

/// Listing keeps the names: what is listed is what was given.
pub proof fn law_listed_keeps_names(names: Seq<Seq<char>>)
    ensures
        listed(names).len() == names.len(),
        forall|n: Seq<char>| #[trigger] listed(names).contains(n) <==> names.contains(n),
        names.no_duplicates() ==> listed(names).no_duplicates(),
{
    law_listing_order_is_a_permutation(names);
    let o = listing_order(names);
    assert forall|n: Seq<char>| #[trigger] listed(names).contains(n) <==> names.contains(n) by {
        if listed(names).contains(n) {
            let i = choose|i: int| 0 <= i < listed(names).len() && listed(names)[i] == n;
            assert(names[o[i]] == n);
        }
        if names.contains(n) {
            let k = choose|k: int| 0 <= k < names.len() && names[k] == n;
            assert(o.contains(k));
            let i = choose|i: int| 0 <= i < o.len() && o[i] == k;
            assert(listed(names)[i] == n);
        }
    }
    if names.no_duplicates() {
        assert forall|i: int, j: int|
            0 <= i < listed(names).len() && 0 <= j < listed(names).len() && i != j implies listed(
            names,
        )[i] != listed(names)[j] by {
            assert(o[i] != o[j]);
            assert(0 <= o[i] < names.len() && 0 <= o[j] < names.len());
        }
    }
}

/// The positions of `names` in the order of listing.
pub fn list_order(names: &Vec<String>) -> (r: Vec<usize>)
    ensures
        r@.map_values(|i: usize| i as int) == listing_order(names.deep_view()),
        r.len() == names.len(),
        forall|i: int| 0 <= i < r.len() ==> (#[trigger] r@[i]) < names.len(),
{
    let mut keys: Vec<String> = Vec::new();
    let mut r: Vec<usize> = Vec::new();
    let ghost all = names.deep_view();
    let mut x: usize = 0;
    proof {
        assert(all.take(0).len() == 0);
        assert(r@.map_values(|i: usize| i as int) =~= listing_order(all.take(0)));
    }
    while x < names.len()
        invariant
            x <= names.len(),
            all == names.deep_view(),
            keys.len() == x,
            forall|i: int| 0 <= i < x ==> (#[trigger] keys@[i])@ == lowercase(all[i]),
            r.len() == x,
            forall|i: int| 0 <= i < x ==> (#[trigger] r@[i]) < x,
            r@.map_values(|i: usize| i as int) == listing_order(all.take(x as int)),
        decreases names.len() - x,
    {
        let key = to_lower(names[x].as_str());
        let ghost order = listing_order(all.take(x as int));
        let ghost up = all.take(x + 1);
        let mut p: usize = x;
        while p > 0 && less(key.as_str(), keys[r[p - 1]].as_str())
            invariant
                p <= x,
                x < names.len(),
                keys.len() == x,
                r.len() == x,
                key@ == lowercase(all[x as int]),
                all == names.deep_view(),
                up == all.take(x + 1),
                order == r@.map_values(|i: usize| i as int),
                forall|i: int| 0 <= i < x ==> (#[trigger] keys@[i])@ == lowercase(all[i]),
                forall|i: int| 0 <= i < x ==> (#[trigger] r@[i]) < x,
                forall|i: int|
                    p <= i < x ==> text_lt(
                        lowercase(up[x as int]),
                        lowercase(up[#[trigger] order[i]]),
                    ),
            decreases p,
        {
            p -= 1;
            assert(order[p as int] == r@[p as int]);
        }
        proof {
            if p > 0 {
                assert(order[p - 1] == r@[p - 1]);
            }
            lemma_insert_position_is(up, order, x as int, p as int);
            assert(up.drop_last() =~= all.take(x as int));
        }
        let ghost before = r@;
        r.insert(p, x);
        keys.push(key);
        proof {
            assert(r@.map_values(|i: usize| i as int) =~= order.insert(p as int, x as int));
            assert forall|i: int| 0 <= i < x + 1 implies (#[trigger] r@[i]) < x + 1 by {
                if i < p {
                    assert(r@[i] == before[i]);
                } else if i > p {
                    assert(r@[i] == before[i - 1]);
                }
            }
        }
        x += 1;
    }
    assert(all.take(names.len() as int) =~= all);
    r
}

/// `names` in the order of listing.
pub fn list_names(names: &Vec<String>) -> (r: Vec<String>)
    ensures
        r.deep_view() == listed(names.deep_view()),
{
    let order = list_order(names);
    let ghost all = names.deep_view();
    let mut r: Vec<String> = Vec::new();
    let mut i: usize = 0;
    while i < order.len()
        invariant
            i <= order.len(),
            all == names.deep_view(),
            order.len() == names.len(),
            order@.map_values(|i: usize| i as int) == listing_order(all),
            forall|i: int| 0 <= i < order.len() ==> (#[trigger] order@[i]) < names.len(),
            r.deep_view() == listed(all).take(i as int),
        decreases order.len() - i,
    {
        let ghost before = r.deep_view();
        r.push(names[order[i]].clone());
        proof {
            assert(r.deep_view() =~= before.push(all[order@[i as int] as int]));
            assert(listing_order(all)[i as int] == order@[i as int]);
        }
        i += 1;
        assert(r.deep_view() =~= listed(all).take(i as int));
    }
    assert(listed(all).take(order.len() as int) =~= listed(all));
    r
}

/// A text comes before another where the first character in which they differ comes
/// before the other's, or where it ends there and the other goes on; and only there.
pub proof fn law_the_first_difference_decides(a: Seq<char>, b: Seq<char>, k: int)
    requires
        0 <= k <= a.len(),
        k <= b.len(),
        forall|i: int| 0 <= i < k ==> a[i] == b[i],
        k < a.len() && k < b.len() ==> a[k] != b[k],
    ensures
        text_lt(a, b) <==> k < b.len() && (k == a.len() || (a[k] as int) < (b[k] as int)),
{
    lemma_text_lt_common_head(a, b, k);
    if k < a.len() {
        assert(a.skip(k)[0] == a[k]);
    }
    if k < b.len() {
        assert(b.skip(k)[0] == b[k]);
    }
}

} // verus!
