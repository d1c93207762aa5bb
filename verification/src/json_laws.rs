//! What reading a document gives: what stands in it.
use vstd::prelude::*;

use crate::json::{lemma_key_from, lookup, parse_u64, strings_among, JsonView, NumberView};
use crate::text::{decimal, is_digit};
use crate::text_laws::law_decimal_stands_for_its_number;

verus! {

/// What is found under a key is what stands under it, first where two fields have it.
pub proof fn law_what_stands_under_a_key_is_found(
    pairs: Seq<(Seq<char>, JsonView)>,
    key: Seq<char>,
)
    ensures
        forall|k: int|
            0 <= k < pairs.len() && (#[trigger] pairs[k]).0 == key && (forall|j: int|
                0 <= j < k ==> (#[trigger] pairs[j]).0 != key) ==> lookup(pairs, key) == Some(
                pairs[k].1,
            ),
        lookup(pairs, key) is None <==> forall|k: int|
            0 <= k < pairs.len() ==> (#[trigger] pairs[k]).0 != key,
{
    lemma_key_from(pairs, key, 0);
}

/// The texts of a list are found in their order, and whatever is no text is passed over.
pub proof fn law_every_text_of_a_list_is_found(items: Seq<JsonView>)
    ensures
        strings_among(items) == items.filter(|m: JsonView| m is Str).map_values(
            |m: JsonView| m->Str_0,
        ),
    decreases items.len(),
{
    reveal(Seq::filter);
    let p = |m: JsonView| m is Str;
    let f = |m: JsonView| m->Str_0;
    if items.len() > 0 {
        let t = items.drop_last();
        law_every_text_of_a_list_is_found(t);
        if items.last() is Str {
            assert(items.filter(p) == t.filter(p).push(items.last()));
            assert(items.filter(p).map_values(f) =~= t.filter(p).map_values(f).push(
                items.last()->Str_0,
            ));
        }
    } else {
        assert(items.filter(p).map_values(f) =~= seq![]);
    }
}

/// A number that was written is read: in digits, a plus sign before them or not.
/// Whatever has another character is no number.
pub proof fn law_a_written_number_is_read(n: u64)
    ensures
        parse_u64(decimal(n as nat)) == Some(n),
        parse_u64(seq!['+'] + decimal(n as nat)) == Some(n),
{
    law_decimal_stands_for_its_number(n as nat);
    let d = decimal(n as nat);
    assert(is_digit(d[0]));
    assert((seq!['+'] + d).drop_first() =~= d);
}

/// What has anything but digits is no number, but for a plus sign before them; nor is
/// the empty text.
pub proof fn law_only_digits_are_a_number(s: Seq<char>, i: int)
    ensures
        s.len() == 0 ==> parse_u64(s) is None,
        0 <= i < s.len() && !('0' <= s[i] <= '9') && (i > 0 || s[i] != '+') ==> parse_u64(s)
            is None,
{
    if 0 <= i < s.len() && !('0' <= s[i] <= '9') && (i > 0 || s[i] != '+') {
        if s[0] == '+' {
            assert(s.drop_first()[i - 1] == s[i]);
            assert(!is_digit(s.drop_first()[i - 1]));
        } else {
            assert(!is_digit(s[i]));
        }
    }
}

/// What is read under a key: a text as it is, a number whether it is written as one or as
/// a text, the items of a list; and nothing, zero or the empty text where there is
/// something else.
pub proof fn law_values_are_read(m: JsonView, key: Seq<char>, n: u64)
    ensures
        (m.field(key) matches Some(JsonView::Str(s)) ==> m.string(key) == s),
        !(m.field(key) matches Some(JsonView::Str(_))) ==> m.string(key).len() == 0,
        m.field(key) == Some(JsonView::Number(NumberView::Unsigned(n))) ==> m.number(key) == n,
        m.field(key) == Some(JsonView::Str(decimal(n as nat))) ==> m.number(key) == n,
        m.field(key) is None ==> m.number(key) == 0,
        (m.field(key) matches Some(JsonView::Array(a)) ==> m.list(key) == a),
        !(m.field(key) matches Some(JsonView::Array(_))) ==> m.list(key).len() == 0,
        m.flag(key) <==> m.field(key) == Some(JsonView::Bool(true)),
{
    law_a_written_number_is_read(n);
}

} // verus!
