//! Texts as they stand in web addresses and form bodies.
use vstd::prelude::*;
use vstd::utf8::encode_utf8;

use crate::text::{join_texts, joined};

verus! {

/// The bytes that stand for themselves: letters, digits and `-_.~`.
pub open spec fn is_plain(b: u8) -> bool {
    ||| 0x30 <= b <= 0x39
    ||| 0x41 <= b <= 0x5a
    ||| 0x61 <= b <= 0x7a
    ||| b == 0x2d
    ||| b == 0x5f
    ||| b == 0x2e
    ||| b == 0x7e
}

/// A hexadecimal digit, in upper case.
pub open spec fn hex_digit(d: u8) -> char {
    if d < 10 {
        (0x30 + d) as char
    } else {
        (0x37 + d) as char
    }
}

/// How one byte is written.
pub open spec fn byte_form(b: u8) -> Seq<char> {
    if is_plain(b) {
        seq![b as char]
    } else {
        seq!['%', hex_digit((b / 16) as u8), hex_digit((b % 16) as u8)]
    }
}

/// How bytes are written.
pub open spec fn bytes_form(bytes: Seq<u8>) -> Seq<char>
    decreases bytes.len(),
{
    if bytes.len() == 0 {
        seq![]
    } else {
        byte_form(bytes[0]) + bytes_form(bytes.drop_first())
    }
}

/// `s` as it stands in an address.
pub open spec fn url_form(s: Seq<char>) -> Seq<char> {
    bytes_form(encode_utf8(s))
}

fn hex(d: u8) -> (r: char)
    requires
        d < 16,
    ensures
        r == hex_digit(d),
{
    if d < 10 {
        (0x30 + d) as char
    } else {
        (0x37 + d) as char
    }
}

/// `value` as it stands in an address: each byte that does not stand for itself
/// as a percent sign and two digits.
pub fn url_encode(value: &str) -> (r: String)
    ensures
        r@ == url_form(value@),
{
    let bytes = value.as_bytes();
    let ghost all = encode_utf8(value@);
    let mut out = String::new();
    let mut i: usize = 0;
    assert(all.subrange(0, all.len() as int) =~= all);
    assert(out@ + bytes_form(all) =~= bytes_form(all));
    while i < bytes.len()
        invariant
            i <= bytes.len(),
            bytes@ == all,
            out@ + bytes_form(all.subrange(i as int, all.len() as int)) == bytes_form(all),
        decreases bytes.len() - i,
    {
        let b = bytes[i];
        let ghost before = out@;
        let ghost rest = all.subrange(i as int, all.len() as int);
        if (0x30 <= b && b <= 0x39) || (0x41 <= b && b <= 0x5a) || (0x61 <= b && b <= 0x7a) || b
            == 0x2d || b == 0x5f || b == 0x2e || b == 0x7e {
            out.push(b as char);
        } else {
            out.push('%');
            out.push(hex(b / 16));
            out.push(hex(b % 16));
        }
        proof {
            assert(rest[0] == b);
            assert(rest.drop_first() =~= all.subrange(i + 1, all.len() as int));
            assert(out@ =~= before + byte_form(b));
            assert(out@ + bytes_form(rest.drop_first()) =~= before + bytes_form(rest));
        }
        i += 1;
    }
    assert(all.subrange(all.len() as int, all.len() as int) =~= seq![]);
    assert(out@ + seq![] =~= out@);
    out
}

/// The number that a hexadecimal digit in upper case stands for.
pub open spec fn hex_value(c: char) -> int {
    if c <= '9' {
        c as int - 0x30
    } else {
        c as int - 0x37
    }
}

/// The bytes that a text in an address stands for.
pub open spec fn bytes_meant(s: Seq<char>) -> Seq<u8>
    decreases s.len(),
{
    if s.len() == 0 {
        seq![]
    } else if s[0] == '%' && s.len() >= 3 {
        seq![(hex_value(s[1]) * 16 + hex_value(s[2])) as u8] + bytes_meant(
            s.subrange(3, s.len() as int),
        )
    } else {
        seq![s[0] as u8] + bytes_meant(s.drop_first())
    }
}

/// Nothing is lost: the bytes that were written are those that are meant.
pub proof fn law_url_form_can_be_read_back(bytes: Seq<u8>)
    ensures
        bytes_meant(bytes_form(bytes)) == bytes,
    decreases bytes.len(),
{
    if bytes.len() > 0 {
        let b = bytes[0];
        let rest = bytes_form(bytes.drop_first());
        let all = bytes_form(bytes);
        law_url_form_can_be_read_back(bytes.drop_first());
        if is_plain(b) {
            assert(all[0] == b as char);
            assert(all.drop_first() =~= rest);
        } else {
            assert(all[0] == '%');
            assert(all.subrange(3, all.len() as int) =~= rest);
            assert(hex_value(all[1]) == b / 16);
            assert(hex_value(all[2]) == b % 16);
        }
        assert(bytes_meant(all) =~= seq![b] + bytes.drop_first());
        assert(seq![b] + bytes.drop_first() =~= bytes);
    } else {
        assert(bytes =~= seq![]);
    }
}

/// Nothing of what has a meaning in an address is left in what is written there.
pub proof fn law_url_form_is_plain(bytes: Seq<u8>)
    ensures
        forall|i: int|
            0 <= i < bytes_form(bytes).len() ==> #[trigger] bytes_form(bytes)[i] == '%' || (
            bytes_form(bytes)[i] as int) < 128 && is_plain(bytes_form(bytes)[i] as u8),
    decreases bytes.len(),
{
    if bytes.len() > 0 {
        law_url_form_is_plain(bytes.drop_first());
        let b = bytes[0];
        let head = byte_form(b);
        let rest = bytes_form(bytes.drop_first());
        let all = bytes_form(bytes);
        assert forall|i: int| 0 <= i < all.len() implies #[trigger] all[i] == '%' || (all[i] as int)
            < 128 && is_plain(all[i] as u8) by {
            if i >= head.len() {
                assert(all[i] == rest[i - head.len()]);
            } else {
                assert(all[i] == head[i]);
            }
        }
    }
}

/// How one field of a form is written.
pub open spec fn field_form(f: (Seq<char>, Seq<char>)) -> Seq<char> {
    url_form(f.0) + "="@ + url_form(f.1)
}

pub open spec fn fields_form(fields: Seq<(Seq<char>, Seq<char>)>) -> Seq<char> {
    joined(fields.map_values(|f: (Seq<char>, Seq<char>)| field_form(f)), "&"@)
}

/// A form with these fields.
pub fn form_body(fields: &Vec<(String, String)>) -> (r: String)
    ensures
        r@ == fields_form(fields.deep_view()),
{
    let mut parts: Vec<String> = Vec::new();
    let ghost all = fields.deep_view().map_values(|f: (Seq<char>, Seq<char>)| field_form(f));
    let mut i: usize = 0;
    while i < fields.len()
        invariant
            i <= fields.len(),
            all == fields.deep_view().map_values(|f: (Seq<char>, Seq<char>)| field_form(f)),
            parts.deep_view() == all.take(i as int),
        decreases fields.len() - i,
    {
        let ghost before = parts.deep_view();
        let part = url_encode(fields[i].0.as_str()).concat("=").concat(
            url_encode(fields[i].1.as_str()).as_str(),
        );
        parts.push(part);
        assert(parts.deep_view() =~= before.push(part@));
        assert(all[i as int] == part@);
        assert(parts.deep_view() =~= all.take(i + 1));
        i += 1;
    }
    assert(all.take(fields.len() as int) =~= all);
    join_texts(&parts, "&")
}

} // verus!
