//! What the operations on texts promise: which part of a text is left, and how
//! pieces and numbers are found again.
use vstd::prelude::*;

use crate::json::digits_value;
use crate::text::{
    contains, decimal, index_of, is_digit, is_white_space, joined, lemma_index_of, occurs_at,
    split, split_from, trim_end, trim_start, trimmed, without,
};

verus! {

/// Trimming leaves a middle part: only white space stands around it, and it neither
/// begins nor ends with any.
pub open spec fn is_middle(s: Seq<char>, a: int, b: int) -> bool {
    &&& 0 <= a <= b <= s.len()
    &&& forall|i: int| 0 <= i < a ==> is_white_space(#[trigger] s[i])
    &&& forall|i: int| b <= i < s.len() ==> is_white_space(#[trigger] s[i])
    &&& a < b ==> !is_white_space(s[a]) && !is_white_space(s[b - 1])
}

proof fn lemma_start(s: Seq<char>) -> (a: int)
    ensures
        0 <= a <= s.len(),
        trim_start(s) == s.subrange(a, s.len() as int),
        forall|i: int| 0 <= i < a ==> is_white_space(#[trigger] s[i]),
        a < s.len() ==> !is_white_space(s[a]),
    decreases s.len(),
{
    if s.len() > 0 && is_white_space(s[0]) {
        let t = s.drop_first();
        let a = lemma_start(t);
        assert(t.subrange(a, t.len() as int) =~= s.subrange(a + 1, s.len() as int));
        assert forall|i: int| 0 <= i < a + 1 implies is_white_space(#[trigger] s[i]) by {
            if i > 0 {
                assert(is_white_space(t[i - 1]));
            }
        }
        a + 1
    } else {
        assert(s.subrange(0, s.len() as int) =~= s);
        0
    }
}

proof fn lemma_end(s: Seq<char>) -> (b: int)
    ensures
        0 <= b <= s.len(),
        trim_end(s) == s.subrange(0, b),
        forall|i: int| b <= i < s.len() ==> is_white_space(#[trigger] s[i]),
        0 < b ==> !is_white_space(s[b - 1]),
    decreases s.len(),
{
    if s.len() > 0 && is_white_space(s.last()) {
        let t = s.drop_last();
        let b = lemma_end(t);
        assert(t.subrange(0, b) =~= s.subrange(0, b));
        assert forall|i: int| b <= i < s.len() implies is_white_space(#[trigger] s[i]) by {
            if i < t.len() {
                assert(is_white_space(t[i]));
            }
        }
        b
    } else {
        assert(s.subrange(0, s.len() as int) =~= s);
        s.len() as int
    }
}

/// What trimming leaves of a text is its middle part.
pub proof fn law_trimming_leaves_the_middle(s: Seq<char>) -> (r: (int, int))
    ensures
        is_middle(s, r.0, r.1),
        trimmed(s) == s.subrange(r.0, r.1),
{
    let a = lemma_start(s);
    let t = trim_start(s);
    let b = lemma_end(t);
    assert(t.subrange(0, b) =~= s.subrange(a, a + b));
    assert forall|i: int| a + b <= i < s.len() implies is_white_space(#[trigger] s[i]) by {
        assert(is_white_space(t[i - a]));
    }
    if 0 < b {
        assert(t[0] == s[a]);
        assert(t[b - 1] == s[a + b - 1]);
    }
    (a, a + b)
}

/// A text has one middle part: whatever is found to be it is what trimming leaves.
pub proof fn law_the_middle_is_what_trimming_leaves(s: Seq<char>, a: int, b: int)
    requires
        is_middle(s, a, b),
    ensures
        trimmed(s) == s.subrange(a, b),
{
    let (x, y) = law_trimming_leaves_the_middle(s);
    if a == b {
        if x < y {
            assert(is_white_space(s[x]));
        }
        assert(s.subrange(a, b) =~= s.subrange(x, y));
    } else {
        if x == y {
            assert(is_white_space(s[a]));
        }
        if x < a {
            assert(is_white_space(s[x]));
        }
        if a < x {
            assert(is_white_space(s[a]));
        }
        if y < b {
            assert(is_white_space(s[b - 1]));
        }
        if b < y {
            assert(is_white_space(s[y - 1]));
        }
    }
}

/// The stretch of `s` from `a` to `b` lies between two `c`, or between one and an end
/// of `s`.
pub open spec fn is_piece(s: Seq<char>, c: char, a: int, b: int) -> bool {
    &&& 0 <= a <= b <= s.len()
    &&& forall|i: int| a <= i < b ==> #[trigger] s[i] != c
    &&& a == 0 || s[a - 1] == c
    &&& b == s.len() || s[b] == c
}

/// `p` is such a stretch of `s`.
pub open spec fn is_piece_of(s: Seq<char>, c: char, p: Seq<char>) -> bool {
    exists|a: int, b: int| #[trigger] is_piece(s, c, a, b) && p == s.subrange(a, b)
}

proof fn lemma_pieces_from(s: Seq<char>, c: char, i: int)
    requires
        0 <= i <= s.len(),
        i == 0 || s[i - 1] == c,
    ensures
        split_from(s, c, i).len() > 0,
        forall|k: int|
            0 <= k < split_from(s, c, i).len() ==> is_piece_of(
                s,
                c,
                #[trigger] split_from(s, c, i)[k],
            ),
        forall|a: int, b: int|
            i <= a && #[trigger] is_piece(s, c, a, b) ==> split_from(s, c, i).contains(
                s.subrange(a, b),
            ),
    decreases s.len() - i,
{
    lemma_index_of(s, c, i);
    let j = index_of(s, c, i);
    let all = split_from(s, c, i);
    assert(is_piece(s, c, i, j));
    assert(all[0] == s.subrange(i, j));
    if j < s.len() {
        lemma_pieces_from(s, c, j + 1);
        let rest = split_from(s, c, j + 1);
        assert(all =~= seq![s.subrange(i, j)] + rest);
        assert forall|k: int| 0 <= k < all.len() implies is_piece_of(s, c, #[trigger] all[k]) by {
            if k > 0 {
                assert(all[k] == rest[k - 1]);
            }
        }
        assert forall|a: int, b: int| i <= a && #[trigger] is_piece(s, c, a, b) implies all.contains(
            s.subrange(a, b),
        ) by {
            if a > j {
                assert(rest.contains(s.subrange(a, b)));
                let k = choose|k: int| 0 <= k < rest.len() && rest[k] == s.subrange(a, b);
                assert(all[k + 1] == s.subrange(a, b));
            } else {
                if a > i {
                    assert(s[a - 1] == c);
                }
                if b > j {
                    assert(s[j] != c);
                }
                if b < j {
                    assert(s[b] == c);
                }
            }
        }
    } else {
        assert forall|a: int, b: int| i <= a && #[trigger] is_piece(s, c, a, b) implies all.contains(
            s.subrange(a, b),
        ) by {
            if a > i {
                assert(s[a - 1] == c);
            }
            if b < j {
                assert(s[b] == c);
            }
        }
    }
}

/// Splitting at `c` gives the stretches between one `c` and the next, each of them
/// and nothing else.
pub proof fn law_splitting_gives_the_pieces(s: Seq<char>, c: char)
    ensures
        forall|k: int|
            0 <= k < split(s, c).len() ==> is_piece_of(s, c, #[trigger] split(s, c)[k]),
        forall|a: int, b: int|
            #[trigger] is_piece(s, c, a, b) ==> split(s, c).contains(s.subrange(a, b)),
{
    lemma_pieces_from(s, c, 0);
}

proof fn lemma_joined_front(first: Seq<char>, rest: Seq<Seq<char>>, sep: Seq<char>)
    requires
        rest.len() > 0,
    ensures
        joined(seq![first] + rest, sep) == first + sep + joined(rest, sep),
    decreases rest.len(),
{
    let all = seq![first] + rest;
    if rest.len() == 1 {
        assert(all.drop_last() =~= seq![first]);
        assert(joined(seq![first], sep) == first);
        assert(joined(rest, sep) == rest[0]);
        assert(all.last() == rest[0]);
    } else {
        assert(all.drop_last() =~= seq![first] + rest.drop_last());
        lemma_joined_front(first, rest.drop_last(), sep);
        assert(joined(all, sep) =~= first + sep + joined(rest, sep));
    }
}

/// The pieces with the character between them again are the text: nothing of it is
/// lost, and the pieces stand in their order.
pub proof fn law_pieces_make_the_text(s: Seq<char>, c: char)
    ensures
        joined(split(s, c), seq![c]) == s,
        forall|k: int| 0 <= k < split(s, c).len() ==> !(#[trigger] split(s, c)[k]).contains(c),
{
    lemma_pieces_join(s, c, 0);
    assert(s.subrange(0, s.len() as int) =~= s);
    law_splitting_gives_the_pieces(s, c);
    assert forall|k: int| 0 <= k < split(s, c).len() implies !(#[trigger] split(s, c)[k]).contains(
        c,
    ) by {
        let p = split(s, c)[k];
        assert(is_piece_of(s, c, p));
        let (a, b) = choose|a: int, b: int|
            #[trigger] is_piece(s, c, a, b) && p == s.subrange(a, b);
        if p.contains(c) {
            let i = choose|i: int| 0 <= i < p.len() && p[i] == c;
            assert(s[a + i] == c);
        }
    }
}

proof fn lemma_pieces_join(s: Seq<char>, c: char, i: int)
    requires
        0 <= i <= s.len(),
    ensures
        split_from(s, c, i).len() > 0,
        joined(split_from(s, c, i), seq![c]) == s.subrange(i, s.len() as int),
    decreases s.len() - i,
{
    lemma_index_of(s, c, i);
    let j = index_of(s, c, i);
    if j < s.len() {
        lemma_pieces_join(s, c, j + 1);
        lemma_joined_front(s.subrange(i, j), split_from(s, c, j + 1), seq![c]);
        assert(s.subrange(i, j) + seq![c] + s.subrange(j + 1, s.len() as int) =~= s.subrange(
            i,
            s.len() as int,
        ));
    }
}

/// Each of the joined texts stands in what they make.
pub proof fn law_joining_keeps_every_text(list: Seq<Seq<char>>, sep: Seq<char>, k: int)
    requires
        0 <= k < list.len(),
    ensures
        contains(joined(list, sep), list[k]),
    decreases list.len(),
{
    let all = joined(list, sep);
    if list.len() == 1 {
        assert(all.subrange(0, all.len() as int) =~= list[k]);
        assert(occurs_at(all, list[k], 0));
    } else {
        let t = list.drop_last();
        let head = joined(t, sep);
        if k == list.len() - 1 {
            let i = (head + sep).len() as int;
            assert(all.subrange(i, i + list[k].len()) =~= list[k]);
            assert(occurs_at(all, list[k], i));
        } else {
            law_joining_keeps_every_text(t, sep, k);
            let i = choose|i: int| occurs_at(head, t[k], i);
            assert(all.subrange(i, i + list[k].len()) =~= head.subrange(i, i + list[k].len()));
            assert(occurs_at(all, list[k], i));
        }
    }
}

/// A number is found again in its decimal text, which has digits only and none to
/// spare.
pub proof fn law_decimal_stands_for_its_number(n: nat)
    ensures
        digits_value(decimal(n)) == n,
        decimal(n).len() > 0,
        forall|i: int| 0 <= i < decimal(n).len() ==> is_digit(#[trigger] decimal(n)[i]),
        n > 0 ==> decimal(n)[0] != '0',
    decreases n,
{
    reveal_with_fuel(digits_value, 2);
    if n < 10 {
        assert(decimal(n).drop_last() =~= seq![]);
    } else {
        law_decimal_stands_for_its_number(n / 10);
        let d = decimal(n);
        assert(d.drop_last() =~= decimal(n / 10));
        assert(d.last() as nat - '0' as nat == n % 10);
    }
}

/// Different numbers have different decimal texts.
pub proof fn law_decimals_differ(m: nat, n: nat)
    requires
        decimal(m) == decimal(n),
    ensures
        m == n,
{
    law_decimal_stands_for_its_number(m);
    law_decimal_stands_for_its_number(n);
}

/// Of a text without one character everything else is left, in its order.
pub proof fn law_only_that_character_is_taken_out(s: Seq<char>, c: char)
    ensures
        !without(s, c).contains(c),
        without(s, c) == s.filter(|x: char| x != c),
    decreases s.len(),
{
    reveal(Seq::filter);
    if s.len() > 0 {
        law_only_that_character_is_taken_out(s.drop_last(), c);
        let w = without(s.drop_last(), c);
        if without(s, c).contains(c) {
            let i = choose|i: int| 0 <= i < without(s, c).len() && without(s, c)[i] == c;
            if i < w.len() {
                assert(w[i] == c);
            }
        }
    } else {
        assert(s.filter(|x: char| x != c) =~= s);
    }
}

} // verus!
