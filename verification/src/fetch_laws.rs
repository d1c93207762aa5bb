//! When pages are asked for, when those that are kept are served, and what is told
//! meanwhile.
use vstd::prelude::*;

use crate::cache::{
    answers, hex_text, is_fetched_ahead, is_had, low_hex, rate_limited, refusal, served, stands_in,
    cache_file, FetchStep, Fetched, Listing, REQUIRES_TTL,
};
use crate::flow_laws::lemma_between;
use crate::names::lowercase;
use crate::page::{is_block_page, is_workshop_page};
use crate::progress::{next_seq, seen_lines, with_line, with_lines};
use crate::rate::{
    floor_now, gap_now, gap_step, nap, GapStep, BROWSE_GAP, ITEM_GAP, RATE_LIMIT_COOLDOWN,
};
use crate::text::{contains, decimal};

verus! {

/// A page that links to an item is one of the workshop's, unless it says, in whatever
/// case, that there were too many requests; no other page is.
pub proof fn law_pages_of_the_workshop_link_to_items(a: Seq<char>, b: Seq<char>, html: Seq<char>)
    ensures
        ({
            let page = a + "filedetails/?id="@ + b;
            is_workshop_page(page) <==> !contains(lowercase(page), "too many requests"@)
        }),
        !contains(html, "filedetails/?id="@) ==> !is_workshop_page(html),
        contains(lowercase(html), "too many requests"@) <==> is_block_page(html),
{
    lemma_between(a, "filedetails/?id="@, b);
}

/// A listing is served without asking for half an hour. After that, or where its age is
/// not known, it is served all the same, and a new one is fetched behind it; and where
/// none is kept that can be served, one is fetched.
pub proof fn law_a_listing_is_fresh_for_half_an_hour(
    kept: Option<Seq<char>>,
    age: Option<u64>,
    r: Listing,
)
    requires
        is_had(kept, age, r),
    ensures
        ({
            let good = kept matches Some(html) && is_workshop_page(html);
            let young = age matches Some(a) && a < 1_800_000_000_000;
            &&& r is Fresh <==> good && young
            &&& r is Stale <==> good && !young
            &&& r is Fetch <==> !good
            &&& (r matches Listing::Fresh(x) ==> Some(x@) == kept)
            &&& (r matches Listing::Stale(x) ==> Some(x@) == kept)
        }),
{
}

/// The page of an item is served without asking for a week.
pub proof fn law_the_page_of_an_item_is_fresh_for_a_week(
    kept: Option<Seq<char>>,
    age: Option<u64>,
)
    ensures
        is_fetched_ahead(kept, age) <==> !(kept matches Some(html) && is_workshop_page(html) && (age
            matches Some(a) && a < 604_800_000_000_000)),
        served(kept, age, Some(REQUIRES_TTL)) is Some <==> !is_fetched_ahead(kept, age),
{
}

/// A page that is kept is served as it is, where it is one of the workshop's and younger
/// than what is asked for.
pub proof fn law_a_page_is_served_while_it_is_fresh(
    kept: Option<Seq<char>>,
    age: Option<u64>,
    ttl: Option<u64>,
)
    ensures
        served(kept, age, ttl) == (if (kept matches Some(html) && is_workshop_page(html)) && (ttl is None
            || (age is Some && age->Some_0 < ttl->Some_0)) {
            kept
        } else {
            None
        }),
{
}

/// Where a page cannot be had, the one that is kept is served, however old; and where
/// there is none it is said why.
pub proof fn law_what_is_kept_stands_in(
    kept: Option<Seq<char>>,
    why: Seq<char>,
    r: Result<String, String>,
)
    requires
        stands_in(kept, why, r),
    ensures
        (kept matches Some(html) && is_workshop_page(html)) ==> (r matches Ok(x) && Some(x@) == kept),
        !(kept matches Some(html) && is_workshop_page(html)) ==> (r matches Err(e) && e@ == why),
{
}

/// A page of the workshop's is kept and served as it came. Anything else is not kept: it
/// is said why, and that there were too many requests exactly where the page or the code
/// of the answer says so.
pub proof fn law_only_pages_of_the_workshop_are_kept(fetched: Fetched, r: FetchStep)
    requires
        answers(fetched, r),
        fetched !is Unread,
    ensures
        match fetched {
            Fetched::Page(html) => {
                &&& r is Keep <==> is_workshop_page(html@) && !is_block_page(html@)
                &&& (r matches FetchStep::Keep(x) ==> x@ == html@)
                &&& (r matches FetchStep::FallBack { why, limited } ==> limited == is_block_page(
                    html@,
                ))
            },
            Fetched::Status(code) => r matches FetchStep::FallBack { why, limited } && (limited
                <==> code == 429) && (code != 429 ==> contains(why@, decimal(code as nat))),
            Fetched::Unreachable(reason) => r matches FetchStep::FallBack { why, limited }
                && !limited && contains(why@, reason@),
            Fetched::Unread(_) => true,
        },
{
    reveal_strlit(
        "Steam chặn vì hỏi quá nhiều - chờ 10-30 phút. IP Warp là IP dùng chung nên dễ dính hơn IP nhà",
    );
    reveal_strlit("Steam không trả trang workshop hợp lệ");
    reveal_strlit("steamcommunity.com trả HTTP ");
    reveal_strlit("không nối được steamcommunity.com (");
    match fetched {
        Fetched::Page(html) => {
            assert("Steam không trả trang workshop hợp lệ"@.len() != rate_limited().len());
        },
        Fetched::Status(code) => {
            if code != 429 {
                let n = decimal(code as nat);
                let line = "steamcommunity.com trả HTTP "@ + n;
                lemma_between("steamcommunity.com trả HTTP "@, n, seq![]);
                assert("steamcommunity.com trả HTTP "@ + n + seq![] =~= line);
                assert(line[0] != rate_limited()[0]);
            }
        },
        Fetched::Unreachable(reason) => {
            let line = refusal(None, reason@);
            lemma_between(
                "không nối được steamcommunity.com ("@,
                reason@,
                ") - Warp/VPN đã bật chưa?"@,
            );
            assert(line[0] != rate_limited()[0]);
        },
        Fetched::Unread(_) => {},
    }
}

proof fn lemma_hex(h: nat, n: nat, i: int)
    requires
        0 <= i < n,
    ensures
        hex_text(h, n).len() == n,
        '0' <= hex_text(h, n)[i] <= '9' || 'a' <= hex_text(h, n)[i] <= 'f',
    decreases n,
{
    let t = hex_text(h / 16, (n - 1) as nat);
    if n > 1 {
        if i < n - 1 {
            lemma_hex(h / 16, (n - 1) as nat, i);
        } else {
            lemma_hex(h / 16, (n - 1) as nat, 0);
        }
    }
    let d = (h % 16) as int;
    assert(low_hex(d) as int == (if d < 10 {
        0x30 + d
    } else {
        0x57 + d
    }));
}

/// The file of a page has a name of sixteen hexadecimal digits in lower case, and is an
/// HTML file.
pub proof fn law_pages_are_kept_in_plain_files(h: u64, i: int)
    requires
        0 <= i < 16,
    ensures
        cache_file(h).len() == 21,
        '0' <= cache_file(h)[i] <= '9' || 'a' <= cache_file(h)[i] <= 'f',
        cache_file(h).subrange(16, 21) == ".html"@,
{
    reveal_strlit(".html");
    lemma_hex(h as nat, 16, i);
    assert(cache_file(h).subrange(16, 21) =~= ".html"@);
}

/// A page goes ahead exactly where it is its turn: none waits in the foreground, unless it
/// is there itself, and more than the gap has passed since the last one. Else it waits for
/// as long as is left of the gap.
pub proof fn law_a_page_waits_for_its_turn(
    last: Option<u64>,
    foreground: usize,
    is_foreground: bool,
    gap: u64,
    now: u64,
)
    ensures
        ({
            let step = gap_step(last, foreground, is_foreground, gap, now);
            let first = is_foreground || foreground == 0;
            &&& step is Go <==> first && (last matches Some(t) ==> now > t + gap)
            &&& step is Yield <==> !first
            &&& (step matches GapStep::Wait(w) ==> last is Some && w <= gap && (now
                >= last->Some_0 ==> now + w == last->Some_0 + gap))
        }),
{
}

/// Listings are two seconds apart, and pages of items eight tenths of a second. After too
/// many requests everything is two seconds apart for twenty minutes, and after that as
/// before.
pub proof fn law_the_gaps_are_kept(noted: u64, gap: u64, now: u64)
    requires
        noted + RATE_LIMIT_COOLDOWN <= u64::MAX,
    ensures
        BROWSE_GAP == 2_000_000_000,
        ITEM_GAP == 800_000_000,
        ({
            let until = Some((noted + RATE_LIMIT_COOLDOWN) as u64);
            let slow = now < noted + 1_200_000_000_000;
            &&& gap_now(until, gap, now) == (if slow && gap < 2_000_000_000 {
                2_000_000_000
            } else {
                gap
            })
            &&& floor_now(until, now) == (if slow {
                until
            } else {
                None
            })
            &&& gap_now(None, gap, now) == gap
        }),
{
}

/// A page in the background sleeps a twentieth of a second at a time, never longer than
/// it has to wait, and stops where it has waited or where the foreground wants to go
/// first. It gives way for a tenth of a second.
pub proof fn law_the_background_sleeps_shortly(
    wait: u64,
    elapsed: u64,
    foreground: usize,
    last: Option<u64>,
    gap: u64,
    now: u64,
)
    ensures
        nap(wait, elapsed, foreground) is None <==> elapsed >= wait || foreground > 0,
        (nap(wait, elapsed, foreground) matches Some(n) ==> 0 < n <= 50_000_000 && elapsed + n
            <= wait && (n < 50_000_000 ==> elapsed + n == wait)),
        foreground > 0 ==> gap_step(last, foreground, false, gap, now) == GapStep::Yield(
            100_000_000,
        ),
{
}

/// The last `n` of a list, or all of it where there are fewer.
pub open spec fn last_of(lines: Seq<Seq<char>>, n: int) -> Seq<Seq<char>> {
    if lines.len() <= n {
        lines
    } else {
        lines.subrange(lines.len() - n, lines.len() as int)
    }
}

/// The last five hundred lines are kept, in the order in which they were told.
pub proof fn law_the_last_lines_are_kept(lines: Seq<Seq<char>>, more: Seq<Seq<char>>)
    requires
        lines.len() <= 500,
    ensures
        with_lines(lines, more) == last_of(lines + more, 500),
    decreases more.len(),
{
    if more.len() > 0 {
        let t = more.drop_last();
        law_the_last_lines_are_kept(lines, t);
        let a = with_lines(lines, t);
        let all = lines + more;
        assert(all.drop_last() =~= lines + t);
        assert(with_lines(lines, more) == with_line(a, more.last()));
        if a.len() == 500 {
            assert(a.drop_first().push(more.last()) =~= last_of(all, 500));
        } else {
            assert(a.push(more.last()) =~= last_of(all, 500));
        }
    } else {
        assert(lines + more =~= lines);
    }
}

/// Whoever has seen the first `since` lines gets those of the rest that are kept: all of
/// them where the first ones are gone, and none where all were seen.
pub proof fn law_what_was_not_seen_is_told(kept: Seq<Seq<char>>, seq: usize, since: usize)
    requires
        kept.len() <= seq,
    ensures
        ({
            let now = kept.skip(seen_lines(seq, kept.len(), since));
            &&& since <= seq - kept.len() ==> now == kept
            &&& since >= seq ==> now.len() == 0
            &&& seq - kept.len() <= since <= seq ==> now == kept.subrange(
                kept.len() - (seq - since),
                kept.len() as int,
            )
        }),
{
    let n = seen_lines(seq, kept.len(), since);
    if since <= seq - kept.len() {
        assert(kept.skip(0) =~= kept);
    }
    if seq - kept.len() <= since <= seq {
        assert(kept.skip(n) =~= kept.subrange(kept.len() - (seq - since), kept.len() as int));
    }
}

/// Every line that is told is counted, as far as a number can count.
pub proof fn law_every_line_is_counted(seq: usize)
    ensures
        seq < usize::MAX ==> next_seq(seq) == seq + 1,
        next_seq(usize::MAX) == usize::MAX,
{
}

} // verus!
