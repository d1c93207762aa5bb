//! Pages that are kept on disk: when one is served, and what is done where a new
//! one cannot be had.
use std::collections::hash_map::DefaultHasher;
use std::hash::{BuildHasher, BuildHasherDefault};
use vstd::prelude::*;

use crate::page::{is_block_page, is_valid_workshop_html, is_workshop_page};
use crate::names::to_lower;
use crate::text::{contains_text, decimal, decimal_text, holds, same};

verus! {

/// How long a listing is fresh, in nanoseconds.
pub const BROWSE_TTL: u64 = 1_800_000_000_000;

/// How long the page of an item is fresh, in nanoseconds.
pub const REQUIRES_TTL: u64 = 604_800_000_000_000;

/// The hash of a text, as the hasher of the standard library makes it.
pub uninterp spec fn text_hash(text: Seq<char>) -> u64;

/// `std::hash::BuildHasher::hash_one`, with the `DefaultHasher` of the standard
/// library: the hash of `url`. Every hasher that `DefaultHasher::default` makes is
/// documented to be the same, so the hash depends on the text alone. How it hashes
/// is left open there, and nothing is claimed of it here.
#[verifier::external_body]
fn hash_of(url: &str) -> (r: u64)
    ensures
        r == text_hash(url@),
{
    BuildHasherDefault::<DefaultHasher>::default().hash_one(url)
}

/// A hexadecimal digit, in lower case.
pub open spec fn low_hex(d: int) -> char {
    if d < 10 {
        (0x30 + d) as char
    } else {
        (0x57 + d) as char
    }
}

/// The last `n` hexadecimal digits of a number.
pub open spec fn hex_text(h: nat, n: nat) -> Seq<char>
    decreases n,
{
    if n == 0 {
        seq![]
    } else {
        hex_text(h / 16, (n - 1) as nat).push(low_hex((h % 16) as int))
    }
}

/// The name of the file that keeps the page with this hash.
pub open spec fn cache_file(h: u64) -> Seq<char> {
    hex_text(h as nat, 16) + ".html"@
}

fn low_digit(d: u8) -> (r: char)
    requires
        d < 16,
    ensures
        r == low_hex(d as int),
{
    if d < 10 {
        (0x30 + d) as char
    } else {
        (0x57 + d) as char
    }
}

fn hex_digits(h: u64, n: usize) -> (r: String)
    ensures
        r@ == hex_text(h as nat, n as nat),
    decreases n,
{
    if n == 0 {
        String::new()
    } else {
        let mut s = hex_digits(h / 16, n - 1);
        s.push(low_digit((h % 16) as u8));
        s
    }
}

/// The name of the file that keeps the page with this hash.
pub fn cache_name(h: u64) -> (r: String)
    ensures
        r@ == cache_file(h),
{
    let digits = hex_digits(h, 16);
    digits.concat(".html")
}

/// The name of the file that keeps the page at `url`.
pub fn cache_path(url: &str) -> (r: String)
    ensures
        r@ == cache_file(text_hash(url@)),
{
    let h = hash_of(url);
    cache_name(h)
}

proof fn lemma_hex_text(h: nat, n: nat)
    ensures
        hex_text(h, n).len() == n,
    decreases n,
{
    if n > 0 {
        lemma_hex_text(h / 16, (n - 1) as nat);
    }
}

/// The number that hexadecimal digits in lower case stand for.
pub open spec fn hex_number(s: Seq<char>) -> nat
    decreases s.len(),
{
    if s.len() == 0 {
        0
    } else {
        hex_number(s.drop_last()) * 16 + (if s.last() <= '9' {
            s.last() as int - 0x30
        } else {
            s.last() as int - 0x57
        }) as nat
    }
}

proof fn lemma_hex_number(h: nat, n: nat, bound: nat)
    requires
        h < bound,
        n == 0 ==> bound <= 1,
        n > 0 ==> bound <= 16 * pow16((n - 1) as nat),
    ensures
        hex_number(hex_text(h, n)) == h,
    decreases n,
{
    if n > 0 {
        let t = hex_text(h / 16, (n - 1) as nat);
        let s = hex_text(h, n);
        assert(s.drop_last() =~= t);
        lemma_hex_number(h / 16, (n - 1) as nat, pow16((n - 1) as nat));
        assert(h == (h / 16) * 16 + h % 16);
    } else {
        assert(hex_text(h, n) =~= seq![]);
    }
}

pub open spec fn pow16(n: nat) -> nat
    decreases n,
{
    if n == 0 {
        1
    } else {
        16 * pow16((n - 1) as nat)
    }
}

/// Pages with different hashes are kept in different files.
pub proof fn law_cache_files_differ(a: u64, b: u64)
    requires
        cache_file(a) == cache_file(b),
    ensures
        a == b,
{
    lemma_hex_text(a as nat, 16);
    lemma_hex_text(b as nat, 16);
    assert(hex_text(a as nat, 16) =~= cache_file(a).take(16));
    assert(hex_text(b as nat, 16) =~= cache_file(b).take(16));
    assert(16 * pow16(15) == 0x1_0000_0000_0000_0000) by {
        reveal_with_fuel(pow16, 16);
    }
    lemma_hex_number(a as nat, 16, 0x1_0000_0000_0000_0000);
    lemma_hex_number(b as nat, 16, 0x1_0000_0000_0000_0000);
}

/// The page that is kept, if it is one of the workshop's and, where it must be
/// fresh, its age is known and less than `ttl`.
pub open spec fn served(
    text: Option<Seq<char>>,
    age: Option<u64>,
    ttl: Option<u64>,
) -> Option<Seq<char>> {
    match text {
        Some(html) => if (ttl matches Some(t) ==> age matches Some(a) && a < t) && is_workshop_page(
            html,
        ) {
            Some(html)
        } else {
            None
        },
        None => None,
    }
}

/// The page that is kept, if it can be served.
pub fn cached(text: Option<String>, age: Option<u64>, ttl: Option<u64>) -> (r: Option<String>)
    ensures
        r.deep_view() == served(text.deep_view(), age, ttl),
{
    match ttl {
        Some(t) => match age {
            Some(a) => {
                if a >= t {
                    return None;
                }
            },
            None => {
                return None;
            },
        },
        None => {},
    }
    match text {
        Some(html) => {
            if is_valid_workshop_html(html.as_str()) {
                Some(html)
            } else {
                None
            }
        },
        None => None,
    }
}

/// What asking for a page came to: a page, an answer with an error code, none at
/// all, or one that could not be read.
pub enum Fetched {
    Page(String),
    Status(u16),
    Unreachable(String),
    Unread(String),
}

pub open spec fn rate_limited() -> Seq<char> {
    "Steam chặn vì hỏi quá nhiều - chờ 10-30 phút. IP Warp là IP dùng chung nên dễ dính hơn IP nhà"@
}

/// What is said where no page came.
pub open spec fn refusal(status: Option<u16>, why: Seq<char>) -> Seq<char> {
    match status {
        Some(code) => if code == 429 {
            rate_limited()
        } else {
            "steamcommunity.com trả HTTP "@ + decimal(code as nat)
        },
        None => "không nối được steamcommunity.com ("@ + why + ") - Warp/VPN đã bật chưa?"@,
    }
}

fn rate_limited_text() -> (r: String)
    ensures
        r@ == rate_limited(),
{
    "Steam chặn vì hỏi quá nhiều - chờ 10-30 phút. IP Warp là IP dùng chung nên dễ dính hơn IP nhà".to_string()
}

/// What is said where no page came: the code of the answer, or why there was no
/// answer.
pub fn community_error(status: Option<u16>, why: &str) -> (r: String)
    ensures
        r@ == refusal(status, why@),
{
    match status {
        Some(code) => {
            if code == 429 {
                rate_limited_text()
            } else {
                let n = decimal_text(code as u64);
                "steamcommunity.com trả HTTP ".to_string().concat(n.as_str())
            }
        },
        None => "không nối được steamcommunity.com (".to_string().concat(why).concat(
            ") - Warp/VPN đã bật chưa?",
        ),
    }
}

/// What is made of the answer: a page of the workshop's, or why it is none.
pub open spec fn judged(fetched: Fetched) -> Result<Seq<char>, Seq<char>> {
    match fetched {
        Fetched::Page(html) => if is_block_page(html@) {
            Err(rate_limited())
        } else if !is_workshop_page(html@) {
            Err("Steam không trả trang workshop hợp lệ"@)
        } else {
            Ok(html@)
        },
        Fetched::Status(code) => Err(refusal(Some(code), seq![])),
        Fetched::Unreachable(why) => Err(refusal(None, why@)),
        Fetched::Unread(why) => Err(why@),
    }
}

/// What is done with an answer: the page is kept and served, or the one that is
/// kept is served instead; `limited` tells that there were too many requests.
pub enum FetchStep {
    Keep(String),
    FallBack { why: String, limited: bool },
}

/// What is done with an answer is `r`.
pub open spec fn answers(fetched: Fetched, r: FetchStep) -> bool {
    match judged(fetched) {
        Ok(html) => r matches FetchStep::Keep(x) && x@ == html,
        Err(e) => r matches FetchStep::FallBack { why, limited } && why@ == e && limited == (e
            == rate_limited()),
    }
}

/// What is done with an answer.
pub fn fetch_page(fetched: Fetched) -> (r: FetchStep)
    ensures
        answers(fetched, r),
{
    let why = match fetched {
        Fetched::Page(html) => {
            let lower = to_lower(html.as_str());
            if contains_text(lower.as_str(), "too many requests") {
                rate_limited_text()
            } else if !is_valid_workshop_html(html.as_str()) {
                "Steam không trả trang workshop hợp lệ".to_string()
            } else {
                return FetchStep::Keep(html);
            }
        },
        Fetched::Status(code) => {
            proof {
                reveal_strlit("");
            }
            community_error(Some(code), "")
        },
        Fetched::Unreachable(why) => community_error(None, why.as_str()),
        Fetched::Unread(why) => why,
    };
    let limited = same(why.as_str(), rate_limited_text().as_str());
    FetchStep::FallBack { why, limited }
}

/// Where a new page cannot be had because of `why`, `r` is had instead.
pub open spec fn stands_in(
    kept: Option<Seq<char>>,
    why: Seq<char>,
    r: Result<String, String>,
) -> bool {
    match served(kept, None, None) {
        Some(html) => r matches Ok(x) && x@ == html,
        None => r matches Err(e) && e@ == why,
    }
}

/// The page that is kept where a new one cannot be had, or why it cannot.
pub fn fall_back(kept: Option<String>, why: String) -> (r: Result<String, String>)
    ensures
        stands_in(kept.deep_view(), why@, r),
{
    match cached(kept, None, None) {
        Some(html) => Ok(html),
        None => Err(why),
    }
}

/// How a listing is had.
pub enum Listing {
    /// The one that is kept is fresh.
    Fresh(String),
    /// The one that is kept is served, and a new one is fetched in the
    /// background.
    Stale(String),
    /// A new one is fetched.
    Fetch,
}

/// A listing of which this is kept, of this age, is had as `r` says.
pub open spec fn is_had(text: Option<Seq<char>>, age: Option<u64>, r: Listing) -> bool {
    match served(text, age, Some(BROWSE_TTL)) {
        Some(html) => r matches Listing::Fresh(x) && x@ == html,
        None => match served(text, None, None) {
            Some(html) => r matches Listing::Stale(x) && x@ == html,
            None => r is Fetch,
        },
    }
}

/// How a listing is had, given the one that is kept and its age.
pub fn cached_listing(text: Option<String>, age: Option<u64>) -> (r: Listing)
    ensures
        is_had(text.deep_view(), age, r),
{
    let fresh = match age {
        Some(a) => a < BROWSE_TTL,
        None => false,
    };
    match cached(text, None, None) {
        Some(html) => {
            if fresh {
                Listing::Fresh(html)
            } else {
                Listing::Stale(html)
            }
        },
        None => Listing::Fetch,
    }
}

/// The page that is kept, where it is fresh; else a new one is fetched.
pub fn cached_page(text: Option<String>, age: Option<u64>, ttl: u64) -> (r: Option<String>)
    ensures
        r.deep_view() == served(text.deep_view(), age, Some(ttl)),
{
    cached(text, age, Some(ttl))
}

/// What a page that was fetched comes to: the page, or the one that is kept where
/// it could not be had.
pub fn page_or_kept(fetched: Result<String, String>, kept: Option<String>) -> (r: Result<
    String,
    String,
>)
    ensures
        match fetched {
            Ok(html) => r matches Ok(x) && x@ == html@,
            Err(why) => stands_in(kept.deep_view(), why@, r),
        },
{
    match fetched {
        Ok(html) => Ok(html),
        Err(why) => fall_back(kept, why),
    }
}

/// The page of an item that is kept is not fresh.
pub open spec fn is_fetched_ahead(text: Option<Seq<char>>, age: Option<u64>) -> bool {
    served(text, age, Some(REQUIRES_TTL)) is None
}

/// Whether the page of an item is fetched in the background before it is read:
/// where the one that is kept is not fresh.
pub fn required_ids_background(text: Option<String>, age: Option<u64>) -> (r: bool)
    ensures
        r == is_fetched_ahead(text.deep_view(), age),
{
    cached(text, age, Some(REQUIRES_TTL)).is_none()
}

/// Every page that is served, from the answer or from what is kept, is one of the
/// workshop's: never one that says that there were too many requests.
pub proof fn law_only_workshop_pages_are_served(
    fetched: Fetched,
    kept: Option<Seq<char>>,
    age: Option<u64>,
    ttl: Option<u64>,
)
    ensures
        judged(fetched) matches Ok(html) ==> is_workshop_page(html) && !is_block_page(html),
        served(kept, age, ttl) matches Some(html) ==> is_workshop_page(html) && !is_block_page(
            html,
        ) && kept == Some(html),
{
}

/// A page that can be served while it is fresh can be served later where no new
/// one can be had.
pub proof fn law_stale_pages_stand_in(kept: Option<Seq<char>>, age: Option<u64>, ttl: Option<u64>)
    ensures
        served(kept, age, ttl) is Some ==> served(kept, None, None) == served(kept, age, ttl),
{
}

/// The listings that are being fetched in the background.
pub struct Revalidating {
    pub urls: Vec<String>,
}

impl Revalidating {
    pub open spec fn has(&self, url: Seq<char>) -> bool {
        self.urls.deep_view().contains(url)
    }

    /// Notes that a listing is being fetched. Gives whether it was not before:
    /// only then is it fetched.
    pub fn begin(&mut self, url: &str) -> (r: bool)
        ensures
            r == !old(self).has(url@),
            forall|u: Seq<char>|
                #[trigger] final(self).has(u) <==> old(self).has(u) || u == url@,
    {
        let ghost before = self.urls.deep_view();
        if holds(&self.urls, url) {
            return false;
        }
        self.urls.push(url.to_string());
        proof {
            assert(self.urls.deep_view() =~= before.push(url@));
            assert forall|u: Seq<char>| #[trigger] self.has(u) <==> before.contains(u) || u
                == url@ by {
                if before.push(url@).contains(u) {
                    let i = choose|i: int|
                        0 <= i < before.push(url@).len() && before.push(url@)[i] == u;
                    if i < before.len() {
                        assert(before[i] == u);
                    }
                }
                if before.contains(u) {
                    let i = choose|i: int| 0 <= i < before.len() && before[i] == u;
                    assert(before.push(url@)[i] == u);
                }
                if u == url@ {
                    assert(before.push(url@)[before.len() as int] == u);
                }
            }
        }
        true
    }

    /// Notes that a listing was fetched.
    pub fn finish(&mut self, url: &str)
        ensures
            forall|u: Seq<char>|
                #[trigger] final(self).has(u) <==> old(self).has(u) && u != url@,
    {
        let mut left: Vec<String> = Vec::new();
        let ghost all = self.urls.deep_view();
        let mut i: usize = 0;
        proof {
            assert forall|u: Seq<char>| #[trigger] left.deep_view().contains(u) <==> all.take(
                0,
            ).contains(u) && u != url@ by {}
        }
        while i < self.urls.len()
            invariant
                i <= self.urls.len(),
                *self == *old(self),
                all == self.urls.deep_view(),
                forall|u: Seq<char>|
                    #[trigger] left.deep_view().contains(u) <==> all.take(i as int).contains(u) && u
                        != url@,
            decreases self.urls.len() - i,
        {
            let ghost before = left.deep_view();
            let ghost x = self.urls@[i as int]@;
            if !same(self.urls[i].as_str(), url) {
                left.push(self.urls[i].clone());
                assert(left.deep_view() =~= before.push(x));
            }
            proof {
                let t = all.take(i as int);
                assert(all.take(i + 1) =~= t.push(x));
                assert forall|u: Seq<char>| #[trigger] left.deep_view().contains(u) <==> all.take(
                    i + 1,
                ).contains(u) && u != url@ by {
                    assert(before.contains(u) <==> t.contains(u) && u != url@);
                    lemma_push_has(before, x, u);
                    lemma_push_has(t, x, u);
                }
            }
            i += 1;
        }
        assert(all.take(self.urls.len() as int) =~= all);
        self.urls = left;
    }
}

proof fn lemma_push_has(s: Seq<Seq<char>>, x: Seq<char>, y: Seq<char>)
    ensures
        s.push(x).contains(y) <==> s.contains(y) || y == x,
{
    if s.push(x).contains(y) {
        let i = choose|i: int| 0 <= i < s.push(x).len() && s.push(x)[i] == y;
        if i < s.len() {
            assert(s[i] == y);
        }
    }
    if s.contains(y) {
        let i = choose|i: int| 0 <= i < s.len() && s[i] == y;
        assert(s.push(x)[i] == y);
    }
    if y == x {
        assert(s.push(x)[s.len() as int] == y);
    }
}

} // verus!
