//! Finding the workshop items that provide required mod ids. An item is taken
//! only where its `mod.info` has exactly the id.
use vstd::prelude::*;

use crate::modinfo::{
    key_of, modid_key, provides, scan_of, source_metadata, source_provides_modid, Source,
    SourceView,
};
use crate::state::{provide, with_modids};
use crate::table::{at, drop_at, lemma_slot_of, set_at, slot, Table};
use crate::text::{copy_texts, join_texts, joined, same};

verus! {

/// Whether the item `id` is among the sources and provides the mod id `wanted`.
pub open spec fn source_has(
    sources: Seq<(Seq<char>, SourceView)>,
    id: Seq<char>,
    wanted: Seq<char>,
) -> bool {
    at(sources, id) matches Some(s) && provides(s, wanted)
}

/// What is warned of when the item `id` is looked at.
pub open spec fn look_warnings(sources: Seq<(Seq<char>, SourceView)>, id: Seq<char>) -> Seq<
    Seq<char>,
> {
    match at(sources, id) {
        Some(s) => scan_of(s).warnings,
        None => seq![],
    }
}

/// How many candidates are looked at.
pub const CANDIDATES: usize = 3;

/// The first of the candidates from `i` on that provides `wanted`, among those
/// that are looked at.
pub open spec fn matched(
    wanted: Seq<char>,
    candidates: Seq<Seq<char>>,
    sources: Seq<(Seq<char>, SourceView)>,
    i: int,
) -> Option<Seq<char>>
    decreases CANDIDATES - i,
{
    if i < 0 || i >= CANDIDATES || i >= candidates.len() {
        None
    } else if source_has(sources, candidates[i], wanted) {
        Some(candidates[i])
    } else {
        matched(wanted, candidates, sources, i + 1)
    }
}

/// What is warned of on the way.
pub open spec fn match_warnings(
    wanted: Seq<char>,
    candidates: Seq<Seq<char>>,
    sources: Seq<(Seq<char>, SourceView)>,
    i: int,
) -> Seq<Seq<char>>
    decreases CANDIDATES - i,
{
    if i < 0 || i >= CANDIDATES || i >= candidates.len() {
        seq![]
    } else if source_has(sources, candidates[i], wanted) {
        look_warnings(sources, candidates[i])
    } else {
        look_warnings(sources, candidates[i]) + match_warnings(wanted, candidates, sources, i + 1)
    }
}

/// Whether the item `id` provides `wanted`, with the warnings of looking at it.
fn look(sources: &Table<Source>, id: &str, wanted: &str, warnings: &mut Vec<String>) -> (r: bool)
    ensures
        r == source_has(sources.deep_view(), id@, wanted@),
        final(warnings).deep_view() == old(warnings).deep_view() + look_warnings(
            sources.deep_view(),
            id@,
        ),
{
    let ghost before = warnings.deep_view();
    match sources.get(id) {
        Some(source) => {
            let p = source_provides_modid(source, wanted);
            let mut more = p.warnings;
            let ghost added = more.deep_view();
            warnings.append(&mut more);
            assert(warnings.deep_view() =~= before + added);
            match p.found {
                Ok(b) => b,
                Err(_) => false,
            }
        },
        None => {
            assert(before + seq![] =~= before);
            false
        },
    }
}

/// The candidate that was taken, if any, and what was warned of on the way.
pub struct Match {
    pub found: Option<String>,
    pub warnings: Vec<String>,
}

/// The first of the candidates that provides exactly the mod id `wanted`. Only
/// the first three are looked at.
pub fn matching_candidate(wanted: &str, candidates: &Vec<String>, sources: &Table<Source>) -> (r:
    Match)
    ensures
        r.found.deep_view() == matched(wanted@, candidates.deep_view(), sources.deep_view(), 0),
        r.warnings.deep_view() == match_warnings(
            wanted@,
            candidates.deep_view(),
            sources.deep_view(),
            0,
        ),
{
    let mut warnings: Vec<String> = Vec::new();
    let ghost c = candidates.deep_view();
    let ghost s = sources.deep_view();
    let ghost whole = match_warnings(wanted@, c, s, 0);
    let mut i: usize = 0;
    assert(warnings.deep_view() =~= seq![]);
    assert(warnings.deep_view() + match_warnings(wanted@, c, s, 0) =~= whole);
    while i < CANDIDATES && i < candidates.len()
        invariant
            i <= CANDIDATES,
            c == candidates.deep_view(),
            s == sources.deep_view(),
            whole == match_warnings(wanted@, c, s, 0),
            matched(wanted@, c, s, 0) == matched(wanted@, c, s, i as int),
            warnings.deep_view() + match_warnings(wanted@, c, s, i as int) == whole,
        decreases CANDIDATES - i,
    {
        let ghost before = warnings.deep_view();
        assert(c[i as int] == candidates@[i as int]@);
        if look(sources, candidates[i].as_str(), wanted, &mut warnings) {
            return Match { found: Some(candidates[i].clone()), warnings };
        }
        proof {
            let here = look_warnings(s, c[i as int]);
            assert(before + here + match_warnings(wanted@, c, s, i + 1) =~= before + (here
                + match_warnings(wanted@, c, s, i + 1)));
        }
        i += 1;
    }
    assert(warnings.deep_view() + seq![] =~= warnings.deep_view());
    Match { found: None, warnings }
}

/// A candidate is taken only where it provides exactly the mod id, and only from
/// the first three.
pub proof fn law_no_guess_is_taken(
    wanted: Seq<char>,
    candidates: Seq<Seq<char>>,
    sources: Seq<(Seq<char>, SourceView)>,
)
    ensures
        matched(wanted, candidates, sources, 0) matches Some(id) ==> source_has(
            sources,
            id,
            wanted,
        ) && exists|k: int|
            0 <= k < candidates.len() && k < CANDIDATES && #[trigger] candidates[k] == id,
        matched(wanted, candidates, sources, 0) is None ==> forall|k: int|
            0 <= k < candidates.len() && k < CANDIDATES ==> !source_has(
                sources,
                #[trigger] candidates[k],
                wanted,
            ),
{
    lemma_matched(wanted, candidates, sources, 0);
}

proof fn lemma_matched(
    wanted: Seq<char>,
    candidates: Seq<Seq<char>>,
    sources: Seq<(Seq<char>, SourceView)>,
    i: int,
)
    requires
        0 <= i <= CANDIDATES,
    ensures
        matched(wanted, candidates, sources, i) matches Some(id) ==> source_has(
            sources,
            id,
            wanted,
        ) && exists|k: int|
            i <= k < candidates.len() && k < CANDIDATES && #[trigger] candidates[k] == id,
        matched(wanted, candidates, sources, i) is None ==> forall|k: int|
            i <= k < candidates.len() && k < CANDIDATES ==> !source_has(
                sources,
                #[trigger] candidates[k],
                wanted,
            ),
    decreases CANDIDATES - i,
{
    if i < CANDIDATES && i < candidates.len() {
        if source_has(sources, candidates[i], wanted) {
            assert(candidates[i] == candidates[i]);
        } else {
            lemma_matched(wanted, candidates, sources, i + 1);
        }
    }
}

/// The providers with what the sources provide added, first come.
pub open spec fn with_sources(
    providers: Seq<(Seq<char>, Seq<char>)>,
    sources: Seq<(Seq<char>, SourceView)>,
) -> Seq<(Seq<char>, Seq<char>)>
    decreases sources.len(),
{
    if sources.len() == 0 {
        providers
    } else {
        let r = with_sources(providers, sources.drop_last());
        match scan_of(sources.last().1).metadata {
            Ok(m) => with_modids(r, sources.last().0, m.modids),
            Err(_) => r,
        }
    }
}

pub open spec fn all_warnings(sources: Seq<(Seq<char>, SourceView)>) -> Seq<Seq<char>>
    decreases sources.len(),
{
    if sources.len() == 0 {
        seq![]
    } else {
        all_warnings(sources.drop_last()) + scan_of(sources.last().1).warnings
    }
}

/// Names the sources as providers of the mod ids that they provide, as far as
/// these have none. Gives what was warned of.
pub fn index_sources(sources: &Table<Source>, providers: &mut Table<String>) -> (r: Vec<String>)
    ensures
        final(providers).deep_view() == with_sources(
            old(providers).deep_view(),
            sources.deep_view(),
        ),
        r.deep_view() == all_warnings(sources.deep_view()),
{
    let mut warnings: Vec<String> = Vec::new();
    let ghost before = providers.deep_view();
    let ghost all = sources.deep_view();
    let mut i: usize = 0;
    assert(warnings.deep_view() =~= seq![]);
    while i < sources.entries.len()
        invariant
            i <= sources.entries.len(),
            all == sources.deep_view(),
            providers.deep_view() == with_sources(before, all.take(i as int)),
            warnings.deep_view() == all_warnings(all.take(i as int)),
        decreases sources.entries.len() - i,
    {
        assert(all.take(i + 1).drop_last() =~= all.take(i as int));
        let scan = source_metadata(&sources.entries[i].1);
        let mut more = scan.warnings;
        let ghost was = warnings.deep_view();
        let ghost added = more.deep_view();
        warnings.append(&mut more);
        assert(warnings.deep_view() =~= was + added);
        match scan.metadata {
            Ok(m) => {
                provide(providers, sources.entries[i].0.as_str(), &m.modids);
            },
            Err(_) => {},
        }
        i += 1;
    }
    assert(all.take(sources.entries.len() as int) =~= all);
    warnings
}

/// A mod id that is looked for, under its key.
pub open spec fn keys_of(wanted: Seq<(Seq<char>, Seq<char>)>) -> Seq<Seq<char>> {
    wanted.map_values(|w: (Seq<char>, Seq<char>)| w.0)
}

pub open spec fn modids_of(wanted: Seq<(Seq<char>, Seq<char>)>) -> Seq<Seq<char>> {
    wanted.map_values(|w: (Seq<char>, Seq<char>)| w.1)
}

/// The mod ids that are looked for: each key once, as it is first written.
pub open spec fn wanted_of(modids: Seq<Seq<char>>) -> Seq<(Seq<char>, Seq<char>)>
    decreases modids.len(),
{
    if modids.len() == 0 {
        seq![]
    } else {
        let r = wanted_of(modids.drop_last());
        let key = key_of(modids.last());
        if key.len() == 0 || keys_of(r).contains(key) {
            r
        } else {
            r.push((key, modids.last()))
        }
    }
}

/// The items that were found before for what is looked for.
pub open spec fn remembered_of(
    wanted: Seq<(Seq<char>, Seq<char>)>,
    cache: Seq<(Seq<char>, Option<Seq<char>>)>,
) -> Seq<Seq<char>>
    decreases wanted.len(),
{
    if wanted.len() == 0 {
        seq![]
    } else {
        let r = remembered_of(wanted.drop_last(), cache);
        match at(cache, wanted.last().0) {
            Some(Some(id)) => r.push(id),
            _ => r,
        }
    }
}

/// How far a search has come.
#[verifier::ext_equal]
pub struct SearchView {
    pub cache: Seq<(Seq<char>, Option<Seq<char>>)>,
    pub found: Seq<(Seq<char>, Seq<char>)>,
    pub unresolved: Seq<(Seq<char>, Seq<char>)>,
    pub progress: Seq<Seq<char>>,
}

pub open spec fn found_line(modid: Seq<char>, id: Seq<char>) -> Seq<char> {
    "đã tìm thấy "@ + modid + " ("@ + id + ")"@
}

pub open spec fn not_found_line(modid: Seq<char>) -> Seq<char> {
    "không tìm thấy workshop id cho "@ + modid
}

/// What is remembered of one mod id: that it was not found, or an item that
/// still provides it. Anything else is forgotten, and it is searched for.
pub open spec fn checked(
    s: SearchView,
    w: (Seq<char>, Seq<char>),
    verified: Seq<(Seq<char>, SourceView)>,
) -> SearchView {
    let forgotten = SearchView {
        cache: drop_at(s.cache, w.0),
        unresolved: s.unresolved.push(w),
        ..s
    };
    match at(s.cache, w.0) {
        Some(None) => SearchView { progress: s.progress.push(not_found_line(w.1)), ..s },
        Some(Some(id)) => {
            let warned = s.progress + look_warnings(verified, id);
            if source_has(verified, id, w.1) {
                SearchView {
                    found: s.found.push((w.1, id)),
                    progress: warned.push(found_line(w.1, id)),
                    ..s
                }
            } else {
                SearchView { progress: warned, ..forgotten }
            }
        },
        None => forgotten,
    }
}

pub open spec fn all_checked(
    cache: Seq<(Seq<char>, Option<Seq<char>>)>,
    wanted: Seq<(Seq<char>, Seq<char>)>,
    verified: Seq<(Seq<char>, SourceView)>,
) -> SearchView
    decreases wanted.len(),
{
    if wanted.len() == 0 {
        SearchView { cache, found: seq![], unresolved: seq![], progress: seq![] }
    } else {
        checked(all_checked(cache, wanted.drop_last(), verified), wanted.last(), verified)
    }
}

/// A mod id that was searched for, and the candidates that came up.
pub struct Searched {
    pub key: String,
    pub modid: String,
    pub candidates: Vec<String>,
}

pub struct SearchedView {
    pub key: Seq<char>,
    pub modid: Seq<char>,
    pub candidates: Seq<Seq<char>>,
}

impl DeepView for Searched {
    type V = SearchedView;

    open spec fn deep_view(&self) -> SearchedView {
        SearchedView {
            key: self.key@,
            modid: self.modid@,
            candidates: self.candidates.deep_view(),
        }
    }
}

/// All candidates.
pub open spec fn pool_of(searched: Seq<SearchedView>) -> Seq<Seq<char>>
    decreases searched.len(),
{
    if searched.len() == 0 {
        seq![]
    } else {
        pool_of(searched.drop_last()) + searched.last().candidates
    }
}

/// What a search for one mod id comes to: the item that provides it, or that
/// there is none, is remembered.
pub open spec fn settled(
    s: SearchView,
    x: SearchedView,
    sources: Seq<(Seq<char>, SourceView)>,
) -> SearchView {
    let m = matched(x.modid, x.candidates, sources, 0);
    let warned = s.progress + match_warnings(x.modid, x.candidates, sources, 0);
    let cache = set_at(s.cache, x.key, m);
    match m {
        Some(id) => SearchView {
            cache,
            found: s.found.push((x.modid, id)),
            progress: warned.push(found_line(x.modid, id)),
            ..s
        },
        None => SearchView { cache, progress: warned.push(not_found_line(x.modid)), ..s },
    }
}

pub open spec fn all_settled(
    s: SearchView,
    searched: Seq<SearchedView>,
    sources: Seq<(Seq<char>, SourceView)>,
) -> SearchView
    decreases searched.len(),
{
    if searched.len() == 0 {
        s
    } else {
        settled(all_settled(s, searched.drop_last(), sources), searched.last(), sources)
    }
}

/// What was found, in the order in which it was asked for.
pub open spec fn in_order(
    wanted: Seq<(Seq<char>, Seq<char>)>,
    found: Seq<(Seq<char>, Seq<char>)>,
) -> Seq<(Seq<char>, Seq<char>)>
    decreases wanted.len(),
{
    if wanted.len() == 0 {
        seq![]
    } else {
        let r = in_order(wanted.drop_last(), found);
        match at(found, wanted.last().1) {
            Some(id) => r.push((wanted.last().1, id)),
            None => r,
        }
    }
}

/// A search for the items that provide some mod ids.
pub struct Resolver {
    pub wanted: Vec<(String, String)>,
    pub found: Table<String>,
    pub unresolved: Vec<(String, String)>,
    pub searched: Vec<Searched>,
}

fn key_stands(list: &Vec<(String, String)>, key: &str) -> (r: bool)
    ensures
        r == keys_of(list.deep_view()).contains(key@),
{
    let ghost all = keys_of(list.deep_view());
    let mut i: usize = 0;
    while i < list.len()
        invariant
            i <= list.len(),
            all == keys_of(list.deep_view()),
            forall|k: int| 0 <= k < i ==> #[trigger] all[k] != key@,
        decreases list.len() - i,
    {
        assert(all[i as int] == list@[i as int].0@);
        if same(list[i].0.as_str(), key) {
            return true;
        }
        i += 1;
    }
    false
}

impl Resolver {
    /// A search for `modids`.
    pub fn start(modids: &Vec<String>) -> (r: Resolver)
        ensures
            r.wanted.deep_view() == wanted_of(modids.deep_view()),
            r.found.deep_view() == Seq::<(Seq<char>, Seq<char>)>::empty(),
            r.unresolved.deep_view() == Seq::<(Seq<char>, Seq<char>)>::empty(),
            r.searched.deep_view() == Seq::<SearchedView>::empty(),
    {
        let mut wanted: Vec<(String, String)> = Vec::new();
        let ghost all = modids.deep_view();
        let mut i: usize = 0;
        assert(wanted.deep_view() =~= seq![]);
        while i < modids.len()
            invariant
                i <= modids.len(),
                all == modids.deep_view(),
                wanted.deep_view() == wanted_of(all.take(i as int)),
            decreases modids.len() - i,
        {
            assert(all.take(i + 1).drop_last() =~= all.take(i as int));
            let key = modid_key(modids[i].as_str());
            if key.unicode_len() > 0 && !key_stands(&wanted, key.as_str()) {
                let ghost before = wanted.deep_view();
                wanted.push((key, modids[i].clone()));
                assert(wanted.deep_view() =~= before.push((key@, modids@[i as int]@)));
            }
            i += 1;
        }
        assert(all.take(modids.len() as int) =~= all);
        let unresolved: Vec<(String, String)> = Vec::new();
        let searched: Vec<Searched> = Vec::new();
        assert(unresolved.deep_view() =~= Seq::<(Seq<char>, Seq<char>)>::empty());
        assert(searched.deep_view() =~= Seq::<SearchedView>::empty());
        Resolver { wanted, found: Table::new(), unresolved, searched }
    }

    /// What is told where there is anything to look for.
    pub fn asking_line(&self) -> (r: String)
        ensures
            r@ == "đang dò mod bắt buộc: "@ + joined(modids_of(self.wanted.deep_view()), ", "@),
    {
        let mut names: Vec<String> = Vec::new();
        let ghost all = modids_of(self.wanted.deep_view());
        let mut i: usize = 0;
        while i < self.wanted.len()
            invariant
                i <= self.wanted.len(),
                all == modids_of(self.wanted.deep_view()),
                names.deep_view() == all.take(i as int),
            decreases self.wanted.len() - i,
        {
            let ghost before = names.deep_view();
            names.push(self.wanted[i].1.clone());
            assert(names.deep_view() =~= before.push(self.wanted@[i as int].1@));
            assert(names.deep_view() =~= all.take(i + 1));
            i += 1;
        }
        assert(all.take(self.wanted.len() as int) =~= all);
        let list = join_texts(&names, ", ");
        "đang dò mod bắt buộc: ".to_string().concat(list.as_str())
    }

    /// The items that were found before; they are looked at again.
    pub fn remembered(&self, cache: &Table<Option<String>>) -> (r: Vec<String>)
        ensures
            r.deep_view() == remembered_of(self.wanted.deep_view(), cache.deep_view()),
    {
        let mut r: Vec<String> = Vec::new();
        let ghost all = self.wanted.deep_view();
        let ghost c = cache.deep_view();
        let mut i: usize = 0;
        assert(r.deep_view() =~= seq![]);
        while i < self.wanted.len()
            invariant
                i <= self.wanted.len(),
                all == self.wanted.deep_view(),
                c == cache.deep_view(),
                r.deep_view() == remembered_of(all.take(i as int), c),
            decreases self.wanted.len() - i,
        {
            assert(all.take(i + 1).drop_last() =~= all.take(i as int));
            match cache.get(self.wanted[i].0.as_str()) {
                Some(Some(id)) => {
                    let ghost before = r.deep_view();
                    r.push(id.clone());
                    assert(r.deep_view() =~= before.push(id@));
                },
                _ => {},
            }
            i += 1;
        }
        assert(all.take(self.wanted.len() as int) =~= all);
        r
    }
}

impl Resolver {
    fn push_found(&mut self, modid: String, id: String)
        ensures
            final(self).found.deep_view() == old(self).found.deep_view().push((modid@, id@)),
            final(self).wanted == old(self).wanted,
            final(self).unresolved == old(self).unresolved,
            final(self).searched == old(self).searched,
    {
        let ghost before = self.found.deep_view();
        self.found.entries.push((modid, id));
        assert(self.found.deep_view() =~= before.push((modid@, id@)));
    }

    /// Goes through what is remembered, given the items that were found before
    /// as they are now. Gives what is told on the way.
    pub fn check(&mut self, cache: &mut Table<Option<String>>, verified: &Table<Source>) -> (r: Vec<
        String,
    >)
        requires
            old(self).found.deep_view().len() == 0,
            old(self).unresolved.deep_view().len() == 0,
        ensures
            (SearchView {
                cache: final(cache).deep_view(),
                found: final(self).found.deep_view(),
                unresolved: final(self).unresolved.deep_view(),
                progress: r.deep_view(),
            }) == all_checked(
                old(cache).deep_view(),
                old(self).wanted.deep_view(),
                verified.deep_view(),
            ),
            final(self).wanted == old(self).wanted,
            final(self).searched == old(self).searched,
    {
        let mut progress: Vec<String> = Vec::new();
        let ghost all = self.wanted.deep_view();
        let ghost c0 = cache.deep_view();
        let ghost v = verified.deep_view();
        let mut i: usize = 0;
        proof {
            assert(progress.deep_view() =~= seq![]);
            assert(self.found.deep_view() =~= seq![]);
            assert(self.unresolved.deep_view() =~= seq![]);
        }
        while i < self.wanted.len()
            invariant
                i <= self.wanted.len(),
                self.wanted == old(self).wanted,
                self.searched == old(self).searched,
                all == self.wanted.deep_view(),
                v == verified.deep_view(),
                (SearchView {
                    cache: cache.deep_view(),
                    found: self.found.deep_view(),
                    unresolved: self.unresolved.deep_view(),
                    progress: progress.deep_view(),
                }) == all_checked(c0, all.take(i as int), v),
            decreases self.wanted.len() - i,
        {
            proof {
                assert(all.take(i + 1).drop_last() =~= all.take(i as int));
                assert(all.take(i + 1).last() == (
                    self.wanted@[i as int].0@,
                    self.wanted@[i as int].1@,
                ));
            }
            let key = self.wanted[i].0.clone();
            let modid = self.wanted[i].1.clone();
            let ghost before = progress.deep_view();
            let known: Option<Option<String>> = match cache.get(key.as_str()) {
                Some(Some(id)) => Some(Some(id.clone())),
                Some(None) => Some(None),
                None => None,
            };
            let mut open = true;
            match known {
                Some(None) => {
                    let line = "không tìm thấy workshop id cho ".to_string().concat(
                        modid.as_str(),
                    );
                    progress.push(line);
                    assert(progress.deep_view() =~= before.push(line@));
                    open = false;
                },
                Some(Some(id)) => {
                    if look(verified, id.as_str(), modid.as_str(), &mut progress) {
                        let ghost warned = progress.deep_view();
                        let line = "đã tìm thấy ".to_string().concat(modid.as_str()).concat(
                            " (",
                        ).concat(id.as_str()).concat(")");
                        progress.push(line);
                        assert(progress.deep_view() =~= warned.push(line@));
                        self.push_found(modid.clone(), id);
                        open = false;
                    }
                },
                None => {},
            }
            if open {
                let ghost left = self.unresolved.deep_view();
                cache.unset(key.as_str());
                self.unresolved.push((key, modid));
                assert(self.unresolved.deep_view() =~= left.push((key@, modid@)));
            }
            i += 1;
        }
        assert(all.take(self.wanted.len() as int) =~= all);
        progress
    }

    /// The mod id that is to be searched for next.
    pub fn next_search(&self) -> (r: Option<String>)
        ensures
            r.deep_view() == (if self.searched.len() < self.unresolved.len() {
                Some(self.unresolved.deep_view()[self.searched.len() as int].1)
            } else {
                None
            }),
    {
        if self.searched.len() < self.unresolved.len() {
            Some(self.unresolved[self.searched.len()].1.clone())
        } else {
            None
        }
    }

    /// Takes the candidates that came up in the search.
    pub fn note_candidates(&mut self, candidates: Vec<String>)
        requires
            old(self).searched.len() < old(self).unresolved.len(),
        ensures
            final(self).searched.deep_view() == old(self).searched.deep_view().push(
                SearchedView {
                    key: old(self).unresolved.deep_view()[old(self).searched.len() as int].0,
                    modid: old(self).unresolved.deep_view()[old(self).searched.len() as int].1,
                    candidates: candidates.deep_view(),
                },
            ),
            final(self).wanted == old(self).wanted,
            final(self).found == old(self).found,
            final(self).unresolved == old(self).unresolved,
    {
        let ghost before = self.searched.deep_view();
        let n = self.searched.len();
        let x = Searched {
            key: self.unresolved[n].0.clone(),
            modid: self.unresolved[n].1.clone(),
            candidates,
        };
        self.searched.push(x);
        assert(self.searched.deep_view() =~= before.push(x.deep_view()));
    }

    /// All candidates; they are looked at.
    pub fn pool(&self) -> (r: Vec<String>)
        ensures
            r.deep_view() == pool_of(self.searched.deep_view()),
    {
        let mut r: Vec<String> = Vec::new();
        let ghost all = self.searched.deep_view();
        let mut i: usize = 0;
        assert(r.deep_view() =~= seq![]);
        while i < self.searched.len()
            invariant
                i <= self.searched.len(),
                all == self.searched.deep_view(),
                r.deep_view() == pool_of(all.take(i as int)),
            decreases self.searched.len() - i,
        {
            assert(all.take(i + 1).drop_last() =~= all.take(i as int));
            let mut more = copy_texts(&self.searched[i].candidates);
            let ghost before = r.deep_view();
            let ghost added = more.deep_view();
            r.append(&mut more);
            assert(r.deep_view() =~= before + added);
            i += 1;
        }
        assert(all.take(self.searched.len() as int) =~= all);
        r
    }

    /// Settles what was searched for, given the candidates as they are. Gives
    /// what is told on the way.
    pub fn settle(&mut self, cache: &mut Table<Option<String>>, sources: &Table<Source>) -> (r: Vec<
        String,
    >)
        ensures
            (SearchView {
                cache: final(cache).deep_view(),
                found: final(self).found.deep_view(),
                unresolved: final(self).unresolved.deep_view(),
                progress: r.deep_view(),
            }) == all_settled(
                SearchView {
                    cache: old(cache).deep_view(),
                    found: old(self).found.deep_view(),
                    unresolved: old(self).unresolved.deep_view(),
                    progress: seq![],
                },
                old(self).searched.deep_view(),
                sources.deep_view(),
            ),
            final(self).wanted == old(self).wanted,
            final(self).searched == old(self).searched,
            final(self).unresolved == old(self).unresolved,
    {
        let mut progress: Vec<String> = Vec::new();
        let ghost all = self.searched.deep_view();
        let ghost v = sources.deep_view();
        let ghost s0 = SearchView {
            cache: cache.deep_view(),
            found: self.found.deep_view(),
            unresolved: self.unresolved.deep_view(),
            progress: seq![],
        };
        let mut i: usize = 0;
        assert(progress.deep_view() =~= seq![]);
        while i < self.searched.len()
            invariant
                i <= self.searched.len(),
                self.wanted == old(self).wanted,
                self.searched == old(self).searched,
                self.unresolved == old(self).unresolved,
                all == self.searched.deep_view(),
                v == sources.deep_view(),
                (SearchView {
                    cache: cache.deep_view(),
                    found: self.found.deep_view(),
                    unresolved: self.unresolved.deep_view(),
                    progress: progress.deep_view(),
                }) == all_settled(s0, all.take(i as int), v),
            decreases self.searched.len() - i,
        {
            proof {
                assert(all.take(i + 1).drop_last() =~= all.take(i as int));
                assert(all.take(i + 1).last() == self.searched@[i as int].deep_view());
            }
            let key = self.searched[i].key.clone();
            let modid = self.searched[i].modid.clone();
            let m = matching_candidate(modid.as_str(), &self.searched[i].candidates, sources);
            let ghost before = progress.deep_view();
            let mut more = m.warnings;
            let ghost added = more.deep_view();
            progress.append(&mut more);
            assert(progress.deep_view() =~= before + added);
            let ghost warned = progress.deep_view();
            match m.found {
                Some(id) => {
                    cache.set(key, Some(id.clone()));
                    let line = "đã tìm thấy ".to_string().concat(modid.as_str()).concat(
                        " (",
                    ).concat(id.as_str()).concat(")");
                    progress.push(line);
                    assert(progress.deep_view() =~= warned.push(line@));
                    self.push_found(modid, id);
                },
                None => {
                    cache.set(key, None);
                    let line = "không tìm thấy workshop id cho ".to_string().concat(
                        modid.as_str(),
                    );
                    progress.push(line);
                    assert(progress.deep_view() =~= warned.push(line@));
                },
            }
            i += 1;
        }
        assert(all.take(self.searched.len() as int) =~= all);
        progress
    }
}

/// What a search has found: each mod id with the item that provides it, in the
/// order in which they were asked for.
pub fn resolve_modids(search: &Resolver) -> (r: Vec<(String, String)>)
    ensures
        r.deep_view() == in_order(search.wanted.deep_view(), search.found.deep_view()),
{
    let mut r: Vec<(String, String)> = Vec::new();
    let ghost all = search.wanted.deep_view();
    let ghost f = search.found.deep_view();
    let mut i: usize = 0;
    assert(r.deep_view() =~= seq![]);
    while i < search.wanted.len()
        invariant
            i <= search.wanted.len(),
            all == search.wanted.deep_view(),
            f == search.found.deep_view(),
            r.deep_view() == in_order(all.take(i as int), f),
        decreases search.wanted.len() - i,
    {
        assert(all.take(i + 1).drop_last() =~= all.take(i as int));
        let modid = search.wanted[i].1.clone();
        match search.found.get(modid.as_str()) {
            Some(id) => {
                let ghost before = r.deep_view();
                r.push((modid, id.clone()));
                assert(r.deep_view() =~= before.push((modid@, id@)));
            },
            None => {},
        }
        i += 1;
    }
    assert(all.take(search.wanted.len() as int) =~= all);
    r
}

/// Everything that is found was seen to provide its mod id: among the items that
/// were remembered, or among the candidates.
pub open spec fn all_seen(
    found: Seq<(Seq<char>, Seq<char>)>,
    verified: Seq<(Seq<char>, SourceView)>,
    sources: Seq<(Seq<char>, SourceView)>,
) -> bool {
    forall|i: int|
        0 <= i < found.len() ==> source_has(verified, (#[trigger] found[i]).1, found[i].0)
            || source_has(sources, found[i].1, found[i].0)
}

/// A mod id is answered with an item only where the item's `mod.info` was seen to
/// have exactly that id.
pub proof fn law_answers_were_seen(
    cache: Seq<(Seq<char>, Option<Seq<char>>)>,
    wanted: Seq<(Seq<char>, Seq<char>)>,
    verified: Seq<(Seq<char>, SourceView)>,
    searched: Seq<SearchedView>,
    sources: Seq<(Seq<char>, SourceView)>,
)
    ensures
        ({
            let a = all_checked(cache, wanted, verified);
            let b = all_settled(SearchView { progress: seq![], ..a }, searched, sources);
            all_seen(b.found, verified, sources) && all_seen(
                in_order(wanted, b.found),
                verified,
                sources,
            )
        }),
{
    let a = all_checked(cache, wanted, verified);
    lemma_checked_seen(cache, wanted, verified, sources);
    lemma_settled_seen(SearchView { progress: seq![], ..a }, searched, verified, sources);
    let b = all_settled(SearchView { progress: seq![], ..a }, searched, sources);
    lemma_in_order_seen(wanted, b.found, verified, sources);
}

proof fn lemma_checked_seen(
    cache: Seq<(Seq<char>, Option<Seq<char>>)>,
    wanted: Seq<(Seq<char>, Seq<char>)>,
    verified: Seq<(Seq<char>, SourceView)>,
    sources: Seq<(Seq<char>, SourceView)>,
)
    ensures
        all_seen(all_checked(cache, wanted, verified).found, verified, sources),
    decreases wanted.len(),
{
    if wanted.len() > 0 {
        lemma_checked_seen(cache, wanted.drop_last(), verified, sources);
    }
}

proof fn lemma_settled_seen(
    s: SearchView,
    searched: Seq<SearchedView>,
    verified: Seq<(Seq<char>, SourceView)>,
    sources: Seq<(Seq<char>, SourceView)>,
)
    requires
        all_seen(s.found, verified, sources),
    ensures
        all_seen(all_settled(s, searched, sources).found, verified, sources),
    decreases searched.len(),
{
    if searched.len() > 0 {
        lemma_settled_seen(s, searched.drop_last(), verified, sources);
        let x = searched.last();
        law_no_guess_is_taken(x.modid, x.candidates, sources);
    }
}

proof fn lemma_in_order_seen(
    wanted: Seq<(Seq<char>, Seq<char>)>,
    found: Seq<(Seq<char>, Seq<char>)>,
    verified: Seq<(Seq<char>, SourceView)>,
    sources: Seq<(Seq<char>, SourceView)>,
)
    requires
        all_seen(found, verified, sources),
    ensures
        all_seen(in_order(wanted, found), verified, sources),
    decreases wanted.len(),
{
    if wanted.len() > 0 {
        lemma_in_order_seen(wanted.drop_last(), found, verified, sources);
        let modid = wanted.last().1;
        lemma_slot_of(found, modid, 0);
        match slot(found, modid, 0) {
            Some(k) => {
                assert(source_has(verified, found[k].1, found[k].0) || source_has(
                    sources,
                    found[k].1,
                    found[k].0,
                ));
            },
            None => {},
        }
    }
}

} // verus!
