//! What a search for mod ids promises: every one is looked for, every item that is
//! remembered or comes up is looked at, and the first that provides it is taken.
use vstd::prelude::*;

use crate::flow_laws::lemma_between;
use crate::modinfo::{key_of, lower_all, scan_of, SourceView};
use crate::resolve::{
    all_checked, all_settled, all_warnings, checked, found_line, in_order, keys_of, look_warnings,
    match_warnings, matched, not_found_line, pool_of, remembered_of, source_has, wanted_of,
    with_sources, SearchView, SearchedView,
};
use crate::table::{at, keys_differ, law_drop_at, law_set_at};
use crate::text::contains;

verus! {

/// The first of the first three candidates that provides the mod id is taken, and none
/// where none of the three does.
pub proof fn law_the_first_that_provides_is_taken(
    wanted: Seq<char>,
    candidates: Seq<Seq<char>>,
    sources: Seq<(Seq<char>, SourceView)>,
    k: int,
)
    ensures
        0 <= k < 3 && k < candidates.len() && source_has(sources, candidates[k], wanted) && (forall|
            j: int,
        |
            0 <= j < k ==> !source_has(sources, #[trigger] candidates[j], wanted)) ==> matched(
            wanted,
            candidates,
            sources,
            0,
        ) == Some(candidates[k]),
        (forall|j: int|
            0 <= j < 3 && j < candidates.len() ==> !source_has(
                sources,
                #[trigger] candidates[j],
                wanted,
            )) ==> matched(wanted, candidates, sources, 0) is None,
{
    reveal_with_fuel(matched, 5);
    if candidates.len() > 0 {
        let a = source_has(sources, candidates[0], wanted);
    }
    if candidates.len() > 1 {
        let a = source_has(sources, candidates[1], wanted);
    }
    if candidates.len() > 2 {
        let a = source_has(sources, candidates[2], wanted);
    }
}

/// Whatever is warned of when a candidate is looked at is told: of each of the first
/// three up to the one that is taken.
pub proof fn law_every_warning_is_told(
    wanted: Seq<char>,
    candidates: Seq<Seq<char>>,
    sources: Seq<(Seq<char>, SourceView)>,
    k: int,
    w: Seq<char>,
)
    requires
        0 <= k < 3,
        k < candidates.len(),
        forall|j: int| 0 <= j < k ==> !source_has(sources, #[trigger] candidates[j], wanted),
        at(sources, candidates[k]) matches Some(s) && scan_of(s).warnings.contains(w),
    ensures
        match_warnings(wanted, candidates, sources, 0).contains(w),
{
    lemma_warning_told(wanted, candidates, sources, 0, k, w);
}

proof fn lemma_warning_told(
    wanted: Seq<char>,
    candidates: Seq<Seq<char>>,
    sources: Seq<(Seq<char>, SourceView)>,
    i: int,
    k: int,
    w: Seq<char>,
)
    requires
        0 <= i <= k < 3,
        k < candidates.len(),
        forall|j: int| i <= j < k ==> !source_has(sources, #[trigger] candidates[j], wanted),
        look_warnings(sources, candidates[k]).contains(w),
    ensures
        match_warnings(wanted, candidates, sources, i).contains(w),
    decreases k - i,
{
    let here = look_warnings(sources, candidates[i]);
    let rest = match_warnings(wanted, candidates, sources, i + 1);
    if i < k {
        assert(!source_has(sources, candidates[i], wanted));
        lemma_warning_told(wanted, candidates, sources, i + 1, k, w);
        let n = choose|n: int| 0 <= n < rest.len() && rest[n] == w;
        assert((here + rest)[here.len() + n] == w);
    } else {
        let n = choose|n: int| 0 <= n < here.len() && here[n] == w;
        assert((here + rest)[n] == w);
    }
}

/// Every mod id that is one is looked for, under its key: each key once, as the mod id is
/// first written.
pub proof fn law_every_mod_id_is_looked_for(modids: Seq<Seq<char>>)
    ensures
        forall|i: int|
            0 <= i < modids.len() && key_of(#[trigger] modids[i]).len() > 0 ==> keys_of(
                wanted_of(modids),
            ).contains(key_of(modids[i])),
        forall|i: int|
            0 <= i < modids.len() && key_of(#[trigger] modids[i]).len() > 0 && (forall|j: int|
                0 <= j < i ==> key_of(#[trigger] modids[j]) != key_of(modids[i])) ==> wanted_of(
                modids,
            ).contains((key_of(modids[i]), modids[i])),
        forall|k: int|
            0 <= k < wanted_of(modids).len() ==> modids.contains(
                (#[trigger] wanted_of(modids)[k]).1,
            ) && wanted_of(modids)[k].0 == key_of(wanted_of(modids)[k].1)
                && wanted_of(modids)[k].0.len() > 0,
        keys_differ(wanted_of(modids)),
    decreases modids.len(),
{
    if modids.len() > 0 {
        let t = modids.drop_last();
        law_every_mod_id_is_looked_for(t);
        let r = wanted_of(t);
        let all = wanted_of(modids);
        let last = modids.last();
        let key = key_of(last);
        assert(modids[modids.len() - 1] == last);
        assert(r.is_prefix_of(all));
        assert forall|x: Seq<char>| keys_of(r).contains(x) implies #[trigger] keys_of(all).contains(
            x,
        ) by {
            let i = choose|i: int| 0 <= i < keys_of(r).len() && keys_of(r)[i] == x;
            assert(all[i] == r[i]);
            assert(keys_of(all)[i] == x);
        }
        if key.len() > 0 && !keys_of(r).contains(key) {
            assert(keys_of(all)[r.len() as int] == key);
            assert(all[r.len() as int] == (key, last));
        }
        assert forall|i: int|
            0 <= i < modids.len() && key_of(#[trigger] modids[i]).len() > 0 implies keys_of(
            all,
        ).contains(key_of(modids[i])) by {
            if i < t.len() {
                assert(t[i] == modids[i]);
                assert(keys_of(r).contains(key_of(t[i])));
            }
        }
        assert forall|i: int|
            0 <= i < modids.len() && key_of(#[trigger] modids[i]).len() > 0 && (forall|j: int|
                0 <= j < i ==> key_of(#[trigger] modids[j]) != key_of(modids[i])) implies all.contains(
            (key_of(modids[i]), modids[i]),
        ) by {
            if i < t.len() {
                assert(t[i] == modids[i]);
                assert forall|j: int| 0 <= j < i implies key_of(#[trigger] t[j]) != key_of(
                    t[i],
                ) by {
                    assert(t[j] == modids[j]);
                }
                assert(r.contains((key_of(t[i]), t[i])));
                let n = choose|n: int| 0 <= n < r.len() && r[n] == (key_of(t[i]), t[i]);
                assert(all[n] == r[n]);
            } else {
                assert(!keys_of(r).contains(key)) by {
                    if keys_of(r).contains(key) {
                        let n = choose|n: int| 0 <= n < keys_of(r).len() && keys_of(r)[n] == key;
                        let m = r[n].1;
                        assert(t.contains(m));
                        let j = choose|j: int| 0 <= j < t.len() && t[j] == m;
                        assert(key_of(modids[j]) != key);
                    }
                }
            }
        }
        assert forall|k: int| 0 <= k < all.len() implies modids.contains((#[trigger] all[k]).1)
            && all[k].0 == key_of(all[k].1) && all[k].0.len() > 0 by {
            if k < r.len() {
                assert(all[k] == r[k]);
                assert(t.contains(r[k].1));
                let j = choose|j: int| 0 <= j < t.len() && t[j] == r[k].1;
                assert(modids[j] == r[k].1);
            }
        }
        assert forall|i: int, j: int| 0 <= i < j < all.len() implies (#[trigger] all[i]).0
            != (#[trigger] all[j]).0 by {
            assert(all[i] == r[i]);
            if j < r.len() {
                assert(all[j] == r[j]);
            } else {
                assert(keys_of(r)[i] == r[i].0);
            }
        }
    }
}

/// Every item that is remembered of what is looked for is looked at again.
pub proof fn law_everything_remembered_is_looked_at(
    wanted: Seq<(Seq<char>, Seq<char>)>,
    cache: Seq<(Seq<char>, Option<Seq<char>>)>,
    id: Seq<char>,
)
    ensures
        remembered_of(wanted, cache).contains(id) <==> exists|k: int|
            0 <= k < wanted.len() && at(cache, (#[trigger] wanted[k]).0) == Some(Some(id)),
    decreases wanted.len(),
{
    if wanted.len() > 0 {
        let t = wanted.drop_last();
        law_everything_remembered_is_looked_at(t, cache, id);
        let r = remembered_of(t, cache);
        let all = remembered_of(wanted, cache);
        if all.contains(id) {
            let i = choose|i: int| 0 <= i < all.len() && all[i] == id;
            if i < r.len() {
                assert(r[i] == id);
                let k = choose|k: int|
                    0 <= k < t.len() && at(cache, (#[trigger] t[k]).0) == Some(Some(id));
                assert(wanted[k] == t[k]);
            } else {
                assert(at(cache, wanted[wanted.len() - 1].0) == Some(Some(id)));
            }
        }
        if exists|k: int|
            0 <= k < wanted.len() && at(cache, (#[trigger] wanted[k]).0) == Some(Some(id)) {
            let k = choose|k: int|
                0 <= k < wanted.len() && at(cache, (#[trigger] wanted[k]).0) == Some(Some(id));
            if k < t.len() {
                assert(t[k] == wanted[k]);
                let i = choose|i: int| 0 <= i < r.len() && r[i] == id;
                assert(all[i] == id);
            } else {
                assert(all[r.len() as int] == id);
            }
        }
    }
}

/// What is known of a mod id before anything is searched for: that there is none is
/// believed and told; an item that is remembered is taken where it still provides it; and
/// everything else is forgotten and searched for.
pub open spec fn is_checked(
    s: SearchView,
    cache: Seq<(Seq<char>, Option<Seq<char>>)>,
    w: (Seq<char>, Seq<char>),
    verified: Seq<(Seq<char>, SourceView)>,
) -> bool {
    match at(cache, w.0) {
        Some(None) => {
            &&& at(s.cache, w.0) == Some(None::<Seq<char>>)
            &&& !s.unresolved.contains(w)
            &&& s.progress.contains(not_found_line(w.1))
        },
        Some(Some(id)) => if source_has(verified, id, w.1) {
            &&& at(s.cache, w.0) == Some(Some(id))
            &&& s.found.contains((w.1, id))
            &&& !s.unresolved.contains(w)
            &&& s.progress.contains(found_line(w.1, id))
        } else {
            at(s.cache, w.0) is None && s.unresolved.contains(w)
        },
        None => at(s.cache, w.0) is None && s.unresolved.contains(w),
    }
}

proof fn lemma_in_sum<A>(a: Seq<A>, b: Seq<A>, x: A)
    requires
        a.contains(x) || b.contains(x),
    ensures
        (a + b).contains(x),
{
    if a.contains(x) {
        let i = choose|i: int| 0 <= i < a.len() && a[i] == x;
        assert((a + b)[i] == x);
    } else {
        let i = choose|i: int| 0 <= i < b.len() && b[i] == x;
        assert((a + b)[a.len() + i] == x);
    }
}

proof fn lemma_push<A>(a: Seq<A>, y: A, x: A)
    ensures
        a.push(y).contains(x) <==> a.contains(x) || x == y,
{
    if a.push(y).contains(x) {
        let i = choose|i: int| 0 <= i < a.push(y).len() && a.push(y)[i] == x;
        if i < a.len() {
            assert(a[i] == x);
        }
    }
    if a.contains(x) {
        let i = choose|i: int| 0 <= i < a.len() && a[i] == x;
        assert(a.push(y)[i] == x);
    }
    assert(a.push(y)[a.len() as int] == y);
}

/// What one mod id is checked to does not touch what is known of another.
proof fn lemma_check_other(
    s: SearchView,
    w: (Seq<char>, Seq<char>),
    verified: Seq<(Seq<char>, SourceView)>,
    cache: Seq<(Seq<char>, Option<Seq<char>>)>,
    v: (Seq<char>, Seq<char>),
)
    requires
        v.0 != w.0,
        keys_differ(s.cache),
    ensures
        is_checked(s, cache, v, verified) ==> is_checked(
            checked(s, w, verified),
            cache,
            v,
            verified,
        ),
        at(checked(s, w, verified).cache, v.0) == at(s.cache, v.0),
        checked(s, w, verified).unresolved.contains(v) <==> s.unresolved.contains(v),
        keys_differ(checked(s, w, verified).cache),
{
    law_drop_at(s.cache, w.0);
    lemma_push(s.unresolved, w, v);
    let r = checked(s, w, verified);
    assert forall|x: Seq<char>| s.progress.contains(x) implies r.progress.contains(x) by {
        match at(s.cache, w.0) {
            Some(None) => {
                lemma_push(s.progress, not_found_line(w.1), x);
            },
            Some(Some(id)) => {
                lemma_in_sum(s.progress, look_warnings(verified, id), x);
                let warned = s.progress + look_warnings(verified, id);
                lemma_push(warned, found_line(w.1, id), x);
            },
            None => {},
        }
    }
    assert forall|x: (Seq<char>, Seq<char>)| s.found.contains(x) implies r.found.contains(x) by {
        if let Some(Some(id)) = at(s.cache, w.0) {
            lemma_push(s.found, (w.1, id), x);
        }
    }
}

/// Each mod id that is looked for is checked.
pub proof fn law_every_mod_id_is_checked(
    cache: Seq<(Seq<char>, Option<Seq<char>>)>,
    wanted: Seq<(Seq<char>, Seq<char>)>,
    verified: Seq<(Seq<char>, SourceView)>,
)
    requires
        keys_differ(cache),
        keys_differ(wanted),
    ensures
        forall|k: int|
            0 <= k < wanted.len() ==> is_checked(
                all_checked(cache, wanted, verified),
                cache,
                #[trigger] wanted[k],
                verified,
            ),
        forall|key: Seq<char>|
            (forall|k: int| 0 <= k < wanted.len() ==> (#[trigger] wanted[k]).0 != key)
                ==> #[trigger] at(all_checked(cache, wanted, verified).cache, key) == at(cache, key),
        forall|u: int|
            0 <= u < all_checked(cache, wanted, verified).unresolved.len() ==> wanted.contains(
                #[trigger] all_checked(cache, wanted, verified).unresolved[u],
            ),
        keys_differ(all_checked(cache, wanted, verified).cache),
    decreases wanted.len(),
{
    if wanted.len() > 0 {
        let t = wanted.drop_last();
        assert forall|i: int, j: int| 0 <= i < j < t.len() implies (#[trigger] t[i]).0
            != (#[trigger] t[j]).0 by {
            assert(wanted[i].0 != wanted[j].0);
        }
        law_every_mod_id_is_checked(cache, t, verified);
        let s = all_checked(cache, t, verified);
        let w = wanted.last();
        let r = all_checked(cache, wanted, verified);
        let n = t.len() as int;
        assert(wanted[n] == w);
        assert forall|k: int| 0 <= k < t.len() implies (#[trigger] t[k]).0 != w.0 by {
            assert(wanted[k].0 != wanted[n].0);
        }
        assert(at(s.cache, w.0) == at(cache, w.0));
        assert(!s.unresolved.contains(w)) by {
            if s.unresolved.contains(w) {
                let u = choose|u: int| 0 <= u < s.unresolved.len() && s.unresolved[u] == w;
                assert(t.contains(s.unresolved[u]));
                let k = choose|k: int| 0 <= k < t.len() && t[k] == w;
                assert(t[k].0 != w.0);
            }
        }
        law_drop_at(s.cache, w.0);
        lemma_push(s.unresolved, w, w);
        assert(is_checked(r, cache, w, verified)) by {
            match at(s.cache, w.0) {
                Some(None) => {
                    lemma_push(s.progress, not_found_line(w.1), not_found_line(w.1));
                },
                Some(Some(id)) => {
                    let warned = s.progress + look_warnings(verified, id);
                    lemma_push(warned, found_line(w.1, id), found_line(w.1, id));
                    lemma_push(s.found, (w.1, id), (w.1, id));
                },
                None => {},
            }
        }
        assert forall|k: int| 0 <= k < wanted.len() implies is_checked(
            r,
            cache,
            #[trigger] wanted[k],
            verified,
        ) by {
            if k < n {
                assert(t[k] == wanted[k]);
                assert(is_checked(s, cache, t[k], verified));
                lemma_check_other(s, w, verified, cache, t[k]);
            }
        }
        assert forall|key: Seq<char>|
            (forall|k: int| 0 <= k < wanted.len() ==> (#[trigger] wanted[k]).0
                != key) implies #[trigger] at(r.cache, key) == at(cache, key) by {
            assert(wanted[n].0 != key);
            assert forall|k: int| 0 <= k < t.len() implies (#[trigger] t[k]).0 != key by {
                assert(wanted[k].0 != key);
            }
            assert(at(s.cache, key) == at(cache, key));
        }
        assert forall|u: int| 0 <= u < r.unresolved.len() implies wanted.contains(
            #[trigger] r.unresolved[u],
        ) by {
            if u < s.unresolved.len() {
                assert(r.unresolved[u] == s.unresolved[u]);
                assert(t.contains(s.unresolved[u]));
                let k = choose|k: int| 0 <= k < t.len() && t[k] == s.unresolved[u];
                assert(wanted[k] == t[k]);
            }
        }
    }
}

/// Every candidate that came up is looked at.
pub proof fn law_every_candidate_is_looked_at(searched: Seq<SearchedView>, id: Seq<char>)
    ensures
        pool_of(searched).contains(id) <==> exists|k: int|
            0 <= k < searched.len() && (#[trigger] searched[k]).candidates.contains(id),
    decreases searched.len(),
{
    if searched.len() > 0 {
        let t = searched.drop_last();
        law_every_candidate_is_looked_at(t, id);
        let a = pool_of(t);
        let b = searched.last().candidates;
        if pool_of(searched).contains(id) {
            let i = choose|i: int| 0 <= i < (a + b).len() && (a + b)[i] == id;
            if i < a.len() {
                assert(a[i] == id);
                let k = choose|k: int|
                    0 <= k < t.len() && (#[trigger] t[k]).candidates.contains(id);
                assert(searched[k] == t[k]);
            } else {
                assert(b[i - a.len()] == id);
                assert(searched[searched.len() - 1].candidates.contains(id));
            }
        }
        if exists|k: int|
            0 <= k < searched.len() && (#[trigger] searched[k]).candidates.contains(id) {
            let k = choose|k: int|
                0 <= k < searched.len() && (#[trigger] searched[k]).candidates.contains(id);
            if k < t.len() {
                assert(t[k] == searched[k]);
            }
            lemma_in_sum(a, b, id);
        }
    }
}

/// What every search came to is kept and told: the item that was taken, or that there is
/// none; what was found before stays found.
pub proof fn law_every_search_is_settled(
    s: SearchView,
    searched: Seq<SearchedView>,
    sources: Seq<(Seq<char>, SourceView)>,
)
    requires
        forall|i: int, j: int|
            0 <= i < j < searched.len() ==> (#[trigger] searched[i]).key != (#[trigger] searched[j]).key,
    ensures
        forall|k: int|
            0 <= k < searched.len() ==> is_settled(
                all_settled(s, searched, sources),
                #[trigger] searched[k],
                sources,
            ),
        forall|key: Seq<char>|
            (forall|k: int| 0 <= k < searched.len() ==> (#[trigger] searched[k]).key != key)
                ==> #[trigger] at(all_settled(s, searched, sources).cache, key) == at(s.cache, key),
        s.found.is_prefix_of(all_settled(s, searched, sources).found),
    decreases searched.len(),
{
    if searched.len() > 0 {
        let t = searched.drop_last();
        assert forall|i: int, j: int| 0 <= i < j < t.len() implies (#[trigger] t[i]).key
            != (#[trigger] t[j]).key by {
            assert(searched[i].key != searched[j].key);
        }
        law_every_search_is_settled(s, t, sources);
        let u = all_settled(s, t, sources);
        let x = searched.last();
        let r = all_settled(s, searched, sources);
        let m = matched(x.modid, x.candidates, sources, 0);
        let warned = u.progress + match_warnings(x.modid, x.candidates, sources, 0);
        let n = t.len() as int;
        assert(searched[n] == x);
        law_set_at(u.cache, x.key, m);
        let line = match m {
            Some(id) => found_line(x.modid, id),
            None => not_found_line(x.modid),
        };
        lemma_push(warned, line, line);
        assert(is_settled(r, x, sources)) by {
            if let Some(id) = m {
                lemma_push(u.found, (x.modid, id), (x.modid, id));
            }
        }
        assert forall|k: int| 0 <= k < searched.len() implies is_settled(
            r,
            #[trigger] searched[k],
            sources,
        ) by {
            if k < n {
                assert(t[k] == searched[k]);
                assert(is_settled(u, t[k], sources));
                assert(searched[k].key != searched[n].key);
                let y = t[k];
                match matched(y.modid, y.candidates, sources, 0) {
                    Some(id) => {
                        if let Some(other) = m {
                            lemma_push(u.found, (x.modid, other), (y.modid, id));
                        }
                        lemma_in_sum(
                            u.progress,
                            match_warnings(x.modid, x.candidates, sources, 0),
                            found_line(y.modid, id),
                        );
                        lemma_push(warned, line, found_line(y.modid, id));
                    },
                    None => {
                        lemma_in_sum(
                            u.progress,
                            match_warnings(x.modid, x.candidates, sources, 0),
                            not_found_line(y.modid),
                        );
                        lemma_push(warned, line, not_found_line(y.modid));
                    },
                }
            }
        }
        assert forall|key: Seq<char>|
            (forall|k: int| 0 <= k < searched.len() ==> (#[trigger] searched[k]).key
                != key) implies #[trigger] at(r.cache, key) == at(s.cache, key) by {
            assert(searched[n].key != key);
            assert forall|k: int| 0 <= k < t.len() implies (#[trigger] t[k]).key != key by {
                assert(searched[k].key != key);
            }
            assert(at(u.cache, key) == at(s.cache, key));
        }
    }
}

/// What a search came to is kept and told.
pub open spec fn is_settled(
    s: SearchView,
    x: SearchedView,
    sources: Seq<(Seq<char>, SourceView)>,
) -> bool {
    match matched(x.modid, x.candidates, sources, 0) {
        Some(id) => {
            &&& at(s.cache, x.key) == Some(Some(id))
            &&& s.found.contains((x.modid, id))
            &&& s.progress.contains(found_line(x.modid, id))
        },
        None => {
            &&& at(s.cache, x.key) == Some(None::<Seq<char>>)
            &&& s.progress.contains(not_found_line(x.modid))
        },
    }
}

/// What was found is answered: of everything that was looked for and found, and of
/// nothing else, in the order in which it was asked for.
pub proof fn law_everything_found_is_answered(
    wanted: Seq<(Seq<char>, Seq<char>)>,
    found: Seq<(Seq<char>, Seq<char>)>,
    modid: Seq<char>,
    id: Seq<char>,
)
    ensures
        in_order(wanted, found).contains((modid, id)) <==> at(found, modid) == Some(id) && exists|
            k: int,
        |
            0 <= k < wanted.len() && (#[trigger] wanted[k]).1 == modid,
        in_order(wanted, found).map_values(|p: (Seq<char>, Seq<char>)| p.0) == wanted.map_values(
            |w: (Seq<char>, Seq<char>)| w.1,
        ).filter(|m: Seq<char>| at(found, m) is Some),
    decreases wanted.len(),
{
    reveal(Seq::filter);
    let f = |w: (Seq<char>, Seq<char>)| w.1;
    let g = |p: (Seq<char>, Seq<char>)| p.0;
    let p = |m: Seq<char>| at(found, m) is Some;
    if wanted.len() > 0 {
        let t = wanted.drop_last();
        law_everything_found_is_answered(t, found, modid, id);
        let r = in_order(t, found);
        let w = wanted.last();
        assert(wanted.map_values(f).drop_last() =~= t.map_values(f));
        assert(wanted[wanted.len() - 1] == w);
        if let Some(x) = at(found, w.1) {
            lemma_push(r, (w.1, x), (modid, id));
            assert(r.push((w.1, x)).map_values(g) =~= r.map_values(g).push(w.1));
        }
        if exists|k: int| 0 <= k < wanted.len() && (#[trigger] wanted[k]).1 == modid {
            let k = choose|k: int| 0 <= k < wanted.len() && (#[trigger] wanted[k]).1 == modid;
            if k < t.len() {
                assert(t[k] == wanted[k]);
            }
        }
        if exists|k: int| 0 <= k < t.len() && (#[trigger] t[k]).1 == modid {
            let k = choose|k: int| 0 <= k < t.len() && (#[trigger] t[k]).1 == modid;
            assert(wanted[k] == t[k]);
        }
    } else {
        assert(wanted.map_values(f).filter(p) =~= seq![]);
        assert(in_order(wanted, found).map_values(g) =~= seq![]);
    }
}

/// What is told of a mod id names it, and the item where one was found.
pub proof fn law_what_is_told_names_the_mod_id(modid: Seq<char>, id: Seq<char>)
    ensures
        contains(found_line(modid, id), modid),
        contains(found_line(modid, id), id),
        contains(not_found_line(modid), modid),
{
    lemma_between("đã tìm thấy "@, modid, " ("@ + id + ")"@);
    assert("đã tìm thấy "@ + modid + (" ("@ + id + ")"@) =~= found_line(modid, id));
    lemma_between("đã tìm thấy "@ + modid + " ("@, id, ")"@);
    lemma_between("không tìm thấy workshop id cho "@, modid, seq![]);
    assert("không tìm thấy workshop id cho "@ + modid + seq![] =~= not_found_line(modid));
}

/// The source at `k` can be read and gives a mod id with this key.
pub open spec fn gives(
    sources: Seq<(Seq<char>, SourceView)>,
    k: int,
    key: Seq<char>,
) -> bool {
    scan_of(sources[k].1).metadata matches Ok(m) && lower_all(m.modids).contains(key)
}

/// What was downloaded provides the mod ids that it gives: the first one that gives a mod
/// id provides it, unless it is provided already; and every warning on the way is told.
pub proof fn law_what_is_downloaded_provides(
    providers: Seq<(Seq<char>, Seq<char>)>,
    sources: Seq<(Seq<char>, SourceView)>,
    key: Seq<char>,
)
    ensures
        at(providers, key) is Some ==> at(with_sources(providers, sources), key) == at(
            providers,
            key,
        ),
        at(providers, key) is None ==> forall|k: int|
            0 <= k < sources.len() && #[trigger] gives(sources, k, key) && (forall|j: int|
                0 <= j < k ==> !#[trigger] gives(sources, j, key)) ==> at(
                with_sources(providers, sources),
                key,
            ) == Some(sources[k].0),
        at(providers, key) is None && (forall|k: int|
            0 <= k < sources.len() ==> !#[trigger] gives(sources, k, key)) ==> at(
            with_sources(providers, sources),
            key,
        ) is None,
    decreases sources.len(),
{
    if sources.len() > 0 {
        let t = sources.drop_last();
        law_what_is_downloaded_provides(providers, t, key);
        let n = t.len() as int;
        let r = with_sources(providers, t);
        if let Ok(m) = scan_of(sources[n].1).metadata {
            crate::state_laws::lemma_with_modids(r, sources[n].0, m.modids, key);
        }
        assert forall|k: int| 0 <= k < n implies #[trigger] gives(sources, k, key) == gives(
            t,
            k,
            key,
        ) by {
            assert(t[k] == sources[k]);
        }
        if at(providers, key) is None {
            assert forall|k: int|
                0 <= k < sources.len() && #[trigger] gives(sources, k, key) && (forall|j: int|
                    0 <= j < k ==> !#[trigger] gives(sources, j, key)) implies at(
                with_sources(providers, sources),
                key,
            ) == Some(sources[k].0) by {
                if k < n {
                    assert(gives(t, k, key));
                    assert forall|j: int| 0 <= j < k implies !#[trigger] gives(t, j, key) by {
                        assert(!gives(sources, j, key));
                    }
                    assert(at(r, key) == Some(t[k].0));
                } else {
                    assert forall|j: int| 0 <= j < t.len() implies !#[trigger] gives(t, j, key) by {
                        assert(!gives(sources, j, key));
                    }
                    assert(at(r, key) is None);
                }
            }
            if forall|k: int| 0 <= k < sources.len() ==> !#[trigger] gives(sources, k, key) {
                assert forall|j: int| 0 <= j < t.len() implies !#[trigger] gives(t, j, key) by {
                    assert(!gives(sources, j, key));
                }
                assert(!gives(sources, n, key));
            }
        }
    }
}

/// Every warning of every source is told.
pub proof fn law_every_source_is_heard(sources: Seq<(Seq<char>, SourceView)>, w: Seq<char>)
    ensures
        all_warnings(sources).contains(w) <==> exists|k: int|
            0 <= k < sources.len() && scan_of((#[trigger] sources[k]).1).warnings.contains(w),
    decreases sources.len(),
{
    if sources.len() > 0 {
        let t = sources.drop_last();
        law_every_source_is_heard(t, w);
        let a = all_warnings(t);
        let b = scan_of(sources.last().1).warnings;
        if all_warnings(sources).contains(w) {
            let i = choose|i: int| 0 <= i < (a + b).len() && (a + b)[i] == w;
            if i < a.len() {
                assert(a[i] == w);
                let k = choose|k: int|
                    0 <= k < t.len() && scan_of((#[trigger] t[k]).1).warnings.contains(w);
                assert(sources[k] == t[k]);
            } else {
                assert(b[i - a.len()] == w);
                assert(scan_of(sources[sources.len() - 1].1).warnings.contains(w));
            }
        }
        if exists|k: int|
            0 <= k < sources.len() && scan_of((#[trigger] sources[k]).1).warnings.contains(w) {
            let k = choose|k: int|
                0 <= k < sources.len() && scan_of((#[trigger] sources[k]).1).warnings.contains(w);
            if k < t.len() {
                assert(t[k] == sources[k]);
            }
            lemma_in_sum(a, b, w);
        }
    }
}

} // verus!
