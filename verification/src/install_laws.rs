//! What an install promises as a whole: it is undone where it fails, and where
//! it succeeds every folder stands where it should.
use vstd::prelude::*;

use crate::deps::{firsts, law_firsts};
use crate::folder::{folder_check, Disk};
use crate::install::{
    backups, entry_fields, first_foreign, first_old_fault, folders_of, foreign_fault,
    install_steps, install_view, keeps, old_fault, old_place, olds_of, previous_entry, put_place,
    puts, retired, stages, title_or, trim_all,
};
use crate::flow::is_latest;
use crate::json::{law_with_field, lemma_fields_lookup, lemma_text_array, lookup, JsonView};
use crate::modinfo::{all_infos, metadata_of, roots_of, RootView, SourceView};
use crate::state::all_settled;
use crate::text::trimmed;
use crate::transaction::{
    all_completed, all_undone, backups_first, can_do, completed, is_run, journal_of,
    keeps_are_free, law_rollback_restores, lemma_completed_in_two, lemma_run_completes,
    lemma_stays_out, may_follow, undo_steps, Files, Outcome, Place, StepView,
};

verus! {

/// The directories are those that were found on disk.
pub open spec fn matches_disk<C>(f: Files<C>, disk: Disk) -> bool {
    &&& forall|n: Seq<char>| #[trigger] f.mods.contains_key(n) <==> disk.in_mods(n)
    &&& forall|n: Seq<char>| #[trigger] f.off.contains_key(n) <==> disk.in_off(n)
}

proof fn lemma_backups(olds: Seq<Seq<char>>)
    ensures
        backups(olds).len() == 2 * olds.len(),
        forall|j: int|
            0 <= j < olds.len() ==> backups(olds)[2 * j] == (StepView::Backup {
                place: Place::Mods,
                folder: #[trigger] olds[j],
            }) && backups(olds)[2 * j + 1] == (StepView::Backup {
                place: Place::Off,
                folder: olds[j],
            }),
        forall|i: int| 0 <= i < backups(olds).len() ==> #[trigger] backups(olds)[i] is Backup,
    decreases olds.len(),
{
    if olds.len() > 0 {
        let t = olds.drop_last();
        lemma_backups(t);
        let b = backups(olds);
        assert forall|j: int| 0 <= j < olds.len() implies b[2 * j] == (StepView::Backup {
            place: Place::Mods,
            folder: #[trigger] olds[j],
        }) && b[2 * j + 1] == (StepView::Backup { place: Place::Off, folder: olds[j] }) by {
            if j < t.len() {
                assert(t[j] == olds[j]);
                assert(b[2 * j] == backups(t)[2 * j]);
                assert(b[2 * j + 1] == backups(t)[2 * j + 1]);
            }
        }
        assert forall|i: int| 0 <= i < b.len() implies #[trigger] b[i] is Backup by {
            if i < backups(t).len() {
                assert(b[i] == backups(t)[i]);
            }
        }
    }
}

proof fn lemma_retired(
    list: Seq<Seq<char>>,
    news: Seq<Seq<char>>,
    olds: Seq<Seq<char>>,
    disk: Disk,
)
    requires
        list.no_duplicates(),
    ensures
        forall|i: int|
            0 <= i < retired(list, news, olds, disk).len() ==> {
                let x = #[trigger] retired(list, news, olds, disk)[i];
                &&& list.contains(x.1)
                &&& !news.contains(x.1)
                &&& old_place(olds, disk, x.1) == Some(x.0)
            },
        forall|i: int, j: int|
            0 <= i < j < retired(list, news, olds, disk).len() ==> (#[trigger] retired(
                list,
                news,
                olds,
                disk,
            )[i]).1 != (#[trigger] retired(list, news, olds, disk)[j]).1,
        forall|f: Seq<char>|
            list.contains(f) && !news.contains(f) && #[trigger] old_place(olds, disk, f) is Some
                ==> retired(list, news, olds, disk).contains((old_place(olds, disk, f)->Some_0, f)),
    decreases list.len(),
{
    if list.len() > 0 {
        let t = list.drop_last();
        lemma_retired(t, news, olds, disk);
        let r = retired(t, news, olds, disk);
        let q = retired(list, news, olds, disk);
        assert forall|f: Seq<char>| t.contains(f) implies list.contains(f) by {
            let k = choose|k: int| 0 <= k < t.len() && t[k] == f;
            assert(list[k] == f);
        }
        assert(list[list.len() - 1] == list.last());
        assert(!t.contains(list.last())) by {
            if t.contains(list.last()) {
                let k = choose|k: int| 0 <= k < t.len() && t[k] == list.last();
                assert(list[k] == list[list.len() - 1]);
            }
        }
        assert forall|i: int| 0 <= i < q.len() implies ({
            let x = #[trigger] q[i];
            &&& list.contains(x.1)
            &&& !news.contains(x.1)
            &&& old_place(olds, disk, x.1) == Some(x.0)
        }) by {
            if i < r.len() {
                assert(q[i] == r[i]);
            }
        }
        assert forall|i: int, j: int| 0 <= i < j < q.len() implies (#[trigger] q[i]).1 != (
        #[trigger] q[j]).1 by {
            assert(q[i] == r[i]);
            if j < r.len() {
                assert(q[j] == r[j]);
            } else {
                assert(t.contains(r[i].1));
            }
        }
        assert forall|f: Seq<char>|
            list.contains(f) && !news.contains(f) && #[trigger] old_place(
                olds,
                disk,
                f,
            ) is Some implies q.contains((old_place(olds, disk, f)->Some_0, f)) by {
            let x = (old_place(olds, disk, f)->Some_0, f);
            let k = choose|k: int| 0 <= k < list.len() && list[k] == f;
            if k < t.len() {
                assert(t[k] == f);
                assert(r.contains(x));
                let i = choose|i: int| 0 <= i < r.len() && r[i] == x;
                assert(q[i] == x);
            } else {
                assert(q[r.len() as int] == x);
            }
        }
    }
}

proof fn lemma_first_old_fault_none(olds: Seq<Seq<char>>, disk: Disk)
    requires
        first_old_fault(olds, disk) is None,
    ensures
        forall|i: int| 0 <= i < olds.len() ==> old_fault(#[trigger] olds[i], disk) is None,
    decreases olds.len(),
{
    if olds.len() > 0 {
        let t = olds.drop_last();
        lemma_first_old_fault_none(t, disk);
        assert forall|i: int| 0 <= i < olds.len() implies old_fault(#[trigger] olds[i], disk) is None by {
            if i < t.len() {
                assert(t[i] == olds[i]);
            }
        }
    }
}

proof fn lemma_first_foreign_none(news: Seq<Seq<char>>, olds: Seq<Seq<char>>, disk: Disk)
    requires
        first_foreign(news, olds, disk) is None,
    ensures
        forall|i: int|
            0 <= i < news.len() ==> foreign_fault(#[trigger] news[i], olds, disk) is None,
    decreases news.len(),
{
    if news.len() > 0 {
        let t = news.drop_last();
        lemma_first_foreign_none(t, olds, disk);
        assert forall|i: int| 0 <= i < news.len() implies foreign_fault(
            #[trigger] news[i],
            olds,
            disk,
        ) is None by {
            if i < t.len() {
                assert(t[i] == news[i]);
            }
        }
    }
}

/// A folder of the entry that stands somewhere does not stand in both places.
proof fn lemma_old_place_is_one(olds: Seq<Seq<char>>, disk: Disk, n: Seq<char>)
    requires
        first_old_fault(olds, disk) is None,
        trim_all(olds).contains(n),
    ensures
        !(disk.in_mods(n) && disk.in_off(n)),
        !disk.file_in_mods(n),
        !disk.file_in_off(n),
{
    lemma_first_old_fault_none(olds, disk);
    let i = choose|i: int| 0 <= i < trim_all(olds).len() && trim_all(olds)[i] == n;
    assert(old_fault(olds[i], disk) is None);
    assert(folder_check(olds[i]) == Ok::<Seq<char>, Seq<char>>(n));
}

/// The steps of an install one after the other.
proof fn lemma_install_steps(roots: Seq<RootView>, olds: Seq<Seq<char>>, disk: Disk)
    ensures
        ({
            let s = install_steps(roots, olds, disk);
            let k = retired(firsts(olds), folders_of(roots), olds, disk);
            let a = roots.len() as int;
            let b = a + 2 * olds.len();
            let c = b + a;
            let d = c + k.len();
            &&& s.len() == d + 1
            &&& forall|i: int| 0 <= i < a ==> #[trigger] s[i] is Stage
            &&& forall|i: int| a <= i < b ==> #[trigger] s[i] is Backup
            &&& forall|i: int|
                b <= i < c ==> #[trigger] s[i] == (StepView::Put {
                    place: put_place(olds, disk, roots[i - b].folder),
                    folder: roots[i - b].folder,
                })
            &&& forall|i: int|
                c <= i < d ==> #[trigger] s[i] == (StepView::Keep {
                    from: k[i - c].0,
                    folder: k[i - c].1,
                })
            &&& s[d] is Save
            &&& forall|j: int|
                0 <= j < olds.len() ==> s[a + 2 * j + 1] == (StepView::Backup {
                    place: Place::Off,
                    folder: #[trigger] olds[j],
                })
        }),
{
    lemma_backups(olds);
    let s = install_steps(roots, olds, disk);
    let k = retired(firsts(olds), folders_of(roots), olds, disk);
    let a = roots.len() as int;
    let b = a + 2 * olds.len();
    let c = b + a;
    assert forall|i: int| a <= i < b implies #[trigger] s[i] is Backup by {
        assert(s[i] == backups(olds)[i - a]);
    }
    assert forall|i: int| b <= i < c implies #[trigger] s[i] == (StepView::Put {
        place: put_place(olds, disk, roots[i - b].folder),
        folder: roots[i - b].folder,
    }) by {
        assert(s[i] == puts(roots, olds, disk)[i - b]);
    }
    assert forall|i: int| c <= i < c + k.len() implies #[trigger] s[i] == (StepView::Keep {
        from: k[i - c].0,
        folder: k[i - c].1,
    }) by {
        assert(s[i] == keeps(k)[i - c]);
    }
    assert forall|j: int| 0 <= j < olds.len() implies s[a + 2 * j + 1] == (StepView::Backup {
        place: Place::Off,
        folder: #[trigger] olds[j],
    }) by {
        assert(s[a + 2 * j + 1] == backups(olds)[2 * j + 1]);
    }
}

/// Whatever step of an install fails, undoing it gives both places back as they
/// were: every folder that was there, with what it held, and nothing else.
pub proof fn law_failed_install_changes_nothing<C>(
    id: Seq<char>,
    detail: JsonView,
    item: SourceView,
    pairs: Seq<(Seq<char>, JsonView)>,
    disk: Disk,
    run: Seq<Files<C>>,
    outcomes: Seq<Outcome>,
    source: spec_fn(Seq<char>) -> C,
)
    requires
        install_view(id, detail, item, pairs, disk) is Ok,
        run.len() > 0,
        matches_disk(run[0], disk),
        is_run(run, install_view(id, detail, item, pairs, disk)->Ok_0.steps, outcomes, source),
    ensures
        ({
            let steps = install_view(id, detail, item, pairs, disk)->Ok_0.steps;
            let g = all_undone(run.last(), undo_steps(journal_of(steps, outcomes)));
            g.mods == run[0].mods && g.off == run[0].off
        }),
{
    let roots = roots_of(item).roots->Ok_0;
    let olds = olds_of(previous_entry(pairs, id));
    let news = folders_of(roots);
    let s = install_steps(roots, olds, disk);
    let list = firsts(olds);
    let k = retired(list, news, olds, disk);
    let a = roots.len() as int;
    let b = a + 2 * olds.len();
    let c = b + a;
    lemma_install_steps(roots, olds, disk);
    law_firsts(olds);
    lemma_retired(list, news, olds, disk);
    assert(backups_first(s)) by {
        assert forall|i: int, j: int|
            0 <= i < j < s.len() && (#[trigger] s[i] is Put || s[i] is Keep) implies !(
        #[trigger] s[j] is Backup) by {
            assert(i >= b);
        }
    }
    assert(keeps_are_free(run, s)) by {
        assert forall|i: int| 0 <= i < run.len() - 1 implies (#[trigger] s[i] matches StepView::Keep {
            from,
            folder,
        } ==> !run[i].off.contains_key(folder)) by {
            if s[i] is Keep {
                assert(c <= i < c + k.len());
                let x = k[i - c];
                let folder = x.1;
                assert(list.contains(folder));
                assert(olds.contains(folder));
                assert forall|m: int| 0 <= m < i implies #[trigger] s[m] != (StepView::Put {
                    place: Place::Off,
                    folder,
                }) && (s[m] matches StepView::Keep { from, folder: other } ==> other != folder) by {
                    if b <= m < c {
                        assert(news[m - b] == roots[m - b].folder);
                        assert(news.contains(roots[m - b].folder));
                    }
                    if c <= m {
                        assert(k[m - c].1 != k[i - c].1);
                    }
                }
                lemma_old_place_is_one(olds, disk, folder);
                if run[0].off.contains_key(folder) {
                    let j = choose|j: int| 0 <= j < olds.len() && olds[j] == folder;
                    assert(s[a + 2 * j + 1] == (StepView::Backup { place: Place::Off, folder }));
                }
                lemma_stays_out(run, s, outcomes, source, folder, i);
            }
        }
    }
    law_rollback_restores(run, s, outcomes, source);
}

proof fn lemma_stages_done<C>(f: Files<C>, roots: Seq<RootView>, source: spec_fn(Seq<char>) -> C)
    requires
        folders_of(roots).no_duplicates(),
    ensures
        ({
            let g = all_completed(f, stages(roots), source);
            &&& g == (Files { fresh: g.fresh, ..f })
            &&& forall|i: int|
                0 <= i < roots.len() ==> g.fresh.contains_key((#[trigger] roots[i]).folder)
                    && g.fresh[roots[i].folder] == source(roots[i].path)
        }),
    decreases roots.len(),
{
    if roots.len() > 0 {
        let t = roots.drop_last();
        let n = roots.len() - 1;
        assert(stages(roots).drop_last() =~= stages(t));
        assert(folders_of(t).no_duplicates()) by {
            assert forall|i: int, j: int| 0 <= i < t.len() && 0 <= j < t.len() && i != j implies folders_of(
                t,
            )[i] != folders_of(t)[j] by {
                assert(folders_of(roots)[i] != folders_of(roots)[j]);
            }
        }
        lemma_stages_done(f, t, source);
        let g = all_completed(f, stages(roots), source);
        assert forall|i: int| 0 <= i < roots.len() implies g.fresh.contains_key(
            (#[trigger] roots[i]).folder,
        ) && g.fresh[roots[i].folder] == source(roots[i].path) by {
            if i < n {
                assert(t[i] == roots[i]);
                assert(folders_of(roots)[i] != folders_of(roots)[n]);
            }
        }
    }
}

proof fn lemma_backups_done<C>(f: Files<C>, olds: Seq<Seq<char>>, source: spec_fn(Seq<char>) -> C)
    ensures
        ({
            let g = all_completed(f, backups(olds), source);
            &&& g.fresh == f.fresh
            &&& forall|p: Place, n: Seq<char>|
                #[trigger] g.at(p).contains_key(n) <==> f.at(p).contains_key(n) && !olds.contains(n)
            &&& forall|p: Place, n: Seq<char>|
                #[trigger] g.at(p).contains_key(n) ==> g.at(p)[n] == f.at(p)[n]
            &&& forall|p: Place, n: Seq<char>|
                f.at(p).contains_key(n) && olds.contains(n) ==> #[trigger] g.saved(p).contains_key(n) && g.saved(p)[n] == f.at(p)[n]
        }),
    decreases olds.len(),
{
    if olds.len() > 0 {
        let t = olds.drop_last();
        let x = olds.last();
        lemma_backups_done(f, t, source);
        let h = all_completed(f, backups(t), source);
        let s1 = StepView::Backup { place: Place::Mods, folder: x };
        let s2 = StepView::Backup { place: Place::Off, folder: x };
        let two = seq![s1, s2];
        lemma_completed_in_two(f, backups(t), two, source);
        assert(two.drop_last() =~= seq![s1]);
        assert(seq![s1].drop_last() =~= seq![]);
        assert(all_completed(h, seq![], source) == h);
        let h1 = completed(h, s1, source);
        assert(all_completed(h, seq![s1], source) == h1);
        let g = completed(h1, s2, source);
        assert(all_completed(h, two, source) == g);
        assert(g == all_completed(f, backups(olds), source));
        assert forall|n: Seq<char>| #[trigger] olds.contains(n) <==> t.contains(n) || n == x by {
            if olds.contains(n) {
                let k = choose|k: int| 0 <= k < olds.len() && olds[k] == n;
                if k < t.len() {
                    assert(t[k] == n);
                }
            }
            if t.contains(n) {
                let k = choose|k: int| 0 <= k < t.len() && t[k] == n;
                assert(olds[k] == n);
            }
            if n == x {
                assert(olds[olds.len() - 1] == n);
            }
        }
        assert forall|p: Place, n: Seq<char>| #[trigger] g.at(p).contains_key(n) <==> f.at(
            p,
        ).contains_key(n) && !olds.contains(n) by {
            assert(h.at(p).contains_key(n) <==> f.at(p).contains_key(n) && !t.contains(n));
            assert(olds.contains(n) <==> t.contains(n) || n == x);
        }
        assert forall|p: Place, n: Seq<char>| #[trigger] g.at(p).contains_key(n) implies g.at(p)[n]
            == f.at(p)[n] by {
            assert(h.at(p).contains_key(n));
        }
        assert forall|p: Place, n: Seq<char>|
            f.at(p).contains_key(n) && olds.contains(n) implies #[trigger] g.saved(p).contains_key(n) && g.saved(p)[n] == f.at(p)[n] by {
            assert(h.at(p).contains_key(n) <==> f.at(p).contains_key(n) && !t.contains(n));
            let known = h.saved(p);
            if t.contains(n) {
                assert(known.contains_key(n));
                assert(!h.at(p).contains_key(n));
            }
        }
    } else {
        assert forall|n: Seq<char>| !olds.contains(n) by {}
    }
}

proof fn lemma_puts_done<C>(
    f: Files<C>,
    roots: Seq<RootView>,
    olds: Seq<Seq<char>>,
    disk: Disk,
    source: spec_fn(Seq<char>) -> C,
)
    requires
        folders_of(roots).no_duplicates(),
    ensures
        ({
            let g = all_completed(f, puts(roots, olds, disk), source);
            &&& g.saved_mods == f.saved_mods
            &&& g.saved_off == f.saved_off
            &&& forall|p: Place, n: Seq<char>|
                !folders_of(roots).contains(n) ==> (#[trigger] g.at(p).contains_key(n) <==> f.at(
                    p,
                ).contains_key(n)) && (g.at(p).contains_key(n) ==> g.at(p)[n] == f.at(p)[n])
            &&& forall|n: Seq<char>|
                !folders_of(roots).contains(n) ==> (#[trigger] g.fresh.contains_key(n)
                    <==> f.fresh.contains_key(n)) && (g.fresh.contains_key(n) ==> g.fresh[n]
                    == f.fresh[n])
            &&& forall|i: int|
                0 <= i < roots.len() ==> ({
                    let n = (#[trigger] roots[i]).folder;
                    let p = put_place(olds, disk, n);
                    &&& g.at(p).contains_key(n)
                    &&& g.at(p)[n] == f.fresh[n]
                })
            &&& forall|i: int, q: Place|
                0 <= i < roots.len() && q != put_place(olds, disk, roots[i].folder) ==> (
                #[trigger] g.at(q).contains_key((#[trigger] roots[i]).folder) <==> f.at(
                    q,
                ).contains_key(roots[i].folder))
        }),
    decreases roots.len(),
{
    if roots.len() > 0 {
        let t = roots.drop_last();
        let m = roots.len() - 1;
        let x = roots.last().folder;
        let px = put_place(olds, disk, x);
        assert(puts(roots, olds, disk).drop_last() =~= puts(t, olds, disk));
        assert(folders_of(roots).drop_last() =~= folders_of(t));
        assert(folders_of(t).no_duplicates()) by {
            assert forall|i: int, j: int| 0 <= i < t.len() && 0 <= j < t.len() && i != j implies folders_of(
                t,
            )[i] != folders_of(t)[j] by {
                assert(folders_of(roots)[i] != folders_of(roots)[j]);
            }
        }
        lemma_puts_done(f, t, olds, disk, source);
        let h = all_completed(f, puts(t, olds, disk), source);
        let g = all_completed(f, puts(roots, olds, disk), source);
        assert(!folders_of(t).contains(x)) by {
            if folders_of(t).contains(x) {
                let i = choose|i: int| 0 <= i < folders_of(t).len() && folders_of(t)[i] == x;
                assert(folders_of(roots)[i] == folders_of(roots)[m]);
            }
        }
        assert(folders_of(roots)[m] == x);
        assert(h.fresh.contains_key(x) <==> f.fresh.contains_key(x));
        assert(h.fresh.contains_key(x) ==> h.fresh[x] == f.fresh[x]);
        assert forall|n: Seq<char>| !folders_of(roots).contains(n) implies !folders_of(t).contains(n)
            && n != x by {
            if folders_of(t).contains(n) {
                let i = choose|i: int| 0 <= i < folders_of(t).len() && folders_of(t)[i] == n;
                assert(folders_of(roots)[i] == n);
            }
        }
        assert forall|p: Place, n: Seq<char>| !folders_of(roots).contains(n) implies (
        #[trigger] g.at(p).contains_key(n) <==> f.at(p).contains_key(n)) && (g.at(p).contains_key(n)
            ==> g.at(p)[n] == f.at(p)[n]) by {
            assert(h.at(p).contains_key(n) <==> f.at(p).contains_key(n));
        }
        assert forall|i: int| 0 <= i < roots.len() implies ({
            let n = (#[trigger] roots[i]).folder;
            let p = put_place(olds, disk, n);
            &&& g.at(p).contains_key(n)
            &&& g.at(p)[n] == f.fresh[n]
        }) by {
            if i < m {
                assert(t[i] == roots[i]);
                assert(folders_of(roots)[i] != folders_of(roots)[m]);
            } else {
                lemma_fresh_value(f, t, olds, disk, source, x);
            }
        }
        assert forall|i: int, q: Place|
            0 <= i < roots.len() && q != put_place(olds, disk, roots[i].folder) implies (
        #[trigger] g.at(q).contains_key((#[trigger] roots[i]).folder) <==> f.at(q).contains_key(
            roots[i].folder,
        )) by {
            let n = roots[i].folder;
            if i < m {
                assert(t[i] == roots[i]);
                assert(folders_of(roots)[i] != folders_of(roots)[m]);
                assert(h.at(q).contains_key(t[i].folder) <==> f.at(q).contains_key(t[i].folder));
            } else {
                assert(h.at(q).contains_key(n) <==> f.at(q).contains_key(n));
            }
        }
    } else {
        assert forall|n: Seq<char>| !folders_of(roots).contains(n) by {}
    }
}

/// What is prepared under a name stays prepared while other names are put in
/// place.
proof fn lemma_fresh_value<C>(
    f: Files<C>,
    roots: Seq<RootView>,
    olds: Seq<Seq<char>>,
    disk: Disk,
    source: spec_fn(Seq<char>) -> C,
    n: Seq<char>,
)
    requires
        !folders_of(roots).contains(n),
    ensures
        all_completed(f, puts(roots, olds, disk), source).fresh[n] == f.fresh[n],
    decreases roots.len(),
{
    if roots.len() > 0 {
        let t = roots.drop_last();
        assert(puts(roots, olds, disk).drop_last() =~= puts(t, olds, disk));
        assert(folders_of(roots)[roots.len() - 1] == roots.last().folder);
        if folders_of(t).contains(n) {
            let i = choose|i: int| 0 <= i < folders_of(t).len() && folders_of(t)[i] == n;
            assert(folders_of(roots)[i] == n);
        }
        lemma_fresh_value(f, t, olds, disk, source, n);
        let h = all_completed(f, puts(t, olds, disk), source);
        assert(h.fresh.remove(roots.last().folder)[n] == h.fresh[n]);
    }
}

proof fn lemma_keeps_done<C>(
    f: Files<C>,
    list: Seq<(Place, Seq<char>)>,
    source: spec_fn(Seq<char>) -> C,
)
    requires
        forall|i: int, j: int|
            0 <= i < j < list.len() ==> (#[trigger] list[i]).1 != (#[trigger] list[j]).1,
    ensures
        ({
            let g = all_completed(f, keeps(list), source);
            &&& g == (Files { off: g.off, ..f })
            &&& forall|n: Seq<char>|
                (forall|i: int| 0 <= i < list.len() ==> (#[trigger] list[i]).1 != n) ==> (
                #[trigger] g.off.contains_key(n) <==> f.off.contains_key(n)) && (g.off.contains_key(n)
                    ==> g.off[n] == f.off[n])
            &&& forall|i: int|
                0 <= i < list.len() ==> g.off.contains_key((#[trigger] list[i]).1)
                    && g.off[list[i].1] == f.saved(list[i].0)[list[i].1]
        }),
    decreases list.len(),
{
    if list.len() > 0 {
        let t = list.drop_last();
        assert(keeps(list).drop_last() =~= keeps(t));
        assert forall|i: int, j: int| 0 <= i < j < t.len() implies (#[trigger] t[i]).1 != (
        #[trigger] t[j]).1 by {
            assert(list[i].1 != list[j].1);
        }
        lemma_keeps_done(f, t, source);
        let h = all_completed(f, keeps(t), source);
        let g = all_completed(f, keeps(list), source);
        assert forall|n: Seq<char>|
            (forall|i: int| 0 <= i < list.len() ==> (#[trigger] list[i]).1 != n) implies (
        #[trigger] g.off.contains_key(n) <==> f.off.contains_key(n)) && (g.off.contains_key(n)
            ==> g.off[n] == f.off[n]) by {
            assert(list[list.len() - 1].1 != n);
            assert forall|i: int| 0 <= i < t.len() implies (#[trigger] t[i]).1 != n by {
                assert(list[i].1 != n);
            }
            assert(h.off.contains_key(n) <==> f.off.contains_key(n));
        }
        assert forall|i: int| 0 <= i < list.len() implies g.off.contains_key(
            (#[trigger] list[i]).1,
        ) && g.off[list[i].1] == f.saved(list[i].0)[list[i].1] by {
            if i < t.len() {
                assert(t[i] == list[i]);
                assert(list[i].1 != list[list.len() - 1].1);
            }
        }
    }
}

/// Each new folder stands where the old one stood, or in `mods`, and not in the
/// other place.
pub open spec fn new_folders_in_place<C>(
    roots: Seq<RootView>,
    olds: Seq<Seq<char>>,
    disk: Disk,
    g: Files<C>,
    source: spec_fn(Seq<char>) -> C,
) -> bool {
    &&& forall|i: int|
        0 <= i < roots.len() ==> ({
            let n = (#[trigger] roots[i]).folder;
            let p = put_place(olds, disk, n);
            &&& g.at(p).contains_key(n)
            &&& g.at(p)[n] == source(roots[i].path)
            &&& disk.in_off(n) ==> p == Place::Off
        })
    &&& forall|i: int, q: Place|
        0 <= i < roots.len() && q != put_place(olds, disk, roots[i].folder) ==> !(
        #[trigger] g.at(q).contains_key((#[trigger] roots[i]).folder))
}

/// A folder that is no longer part of the item is in `mods_off`, with what it
/// held, wherever it stood.
pub open spec fn retired_folders_kept<C>(
    news: Seq<Seq<char>>,
    olds: Seq<Seq<char>>,
    disk: Disk,
    f0: Files<C>,
    g: Files<C>,
) -> bool {
    &&& forall|f: Seq<char>|
        #[trigger] olds.contains(f) && !news.contains(f) && disk.in_mods(f) ==> !g.mods.contains_key(f)
            && g.off.contains_key(f) && g.off[f] == f0.mods[f]
    &&& forall|f: Seq<char>|
        #[trigger] olds.contains(f) && !news.contains(f) && disk.in_off(f) ==> !g.mods.contains_key(f)
            && g.off.contains_key(f) && g.off[f] == f0.off[f]
}

/// A folder that the item neither had nor has is as it was.
pub open spec fn others_untouched<C>(
    news: Seq<Seq<char>>,
    olds: Seq<Seq<char>>,
    f0: Files<C>,
    g: Files<C>,
) -> bool {
    forall|p: Place, n: Seq<char>|
        !olds.contains(n) && !news.contains(n) ==> (#[trigger] g.at(p).contains_key(n) <==> f0.at(
            p,
        ).contains_key(n)) && (g.at(p).contains_key(n) ==> g.at(p)[n] == f0.at(p)[n])
}

/// A run that staged the first `n` folders found each of them not staged yet, so no
/// two of them have the same name.
proof fn lemma_staged_once<C>(
    run: Seq<Files<C>>,
    steps: Seq<StepView>,
    outcomes: Seq<Outcome>,
    source: spec_fn(Seq<char>) -> C,
    roots: Seq<RootView>,
    n: int,
)
    requires
        is_run(run, steps, outcomes, source),
        forall|i: int| 0 <= i < outcomes.len() ==> #[trigger] outcomes[i] != Outcome::Failed,
        roots.len() <= outcomes.len(),
        forall|i: int|
            0 <= i < roots.len() ==> (#[trigger] steps[i] matches StepView::Stage { folder, path }
                && folder == roots[i].folder),
        0 <= n <= roots.len(),
    ensures
        forall|i: int| 0 <= i < n ==> run[n].fresh.contains_key((#[trigger] roots[i]).folder),
        forall|i: int, j: int|
            0 <= i < j < n ==> (#[trigger] roots[i]).folder != (#[trigger] roots[j]).folder,
    decreases n,
{
    if n > 0 {
        lemma_staged_once(run, steps, outcomes, source, roots, n - 1);
        assert(may_follow(run[n - 1], steps[n - 1], outcomes[n - 1], run[n], source));
        assert(can_do(run[n - 1], steps[n - 1]));
    }
}

/// An install that was done: each new folder stands where the old one stood, so
/// that what was disabled stays disabled, or in `mods` where there was none, and
/// not in the other place; a folder that the new version no longer has is in
/// `mods_off`, with what it held; and every other folder is as it was.
pub proof fn law_install_puts_folders_in_place<C>(
    id: Seq<char>,
    detail: JsonView,
    item: SourceView,
    pairs: Seq<(Seq<char>, JsonView)>,
    disk: Disk,
    run: Seq<Files<C>>,
    outcomes: Seq<Outcome>,
    source: spec_fn(Seq<char>) -> C,
)
    requires
        install_view(id, detail, item, pairs, disk) is Ok,
        run.len() > 0,
        matches_disk(run[0], disk),
        run[0].clean(),
        is_run(run, install_view(id, detail, item, pairs, disk)->Ok_0.steps, outcomes, source),
        outcomes.len() == install_view(id, detail, item, pairs, disk)->Ok_0.steps.len(),
        forall|i: int| 0 <= i < outcomes.len() ==> #[trigger] outcomes[i] != Outcome::Failed,
        ({
            let olds = olds_of(previous_entry(pairs, id));
            forall|i: int| 0 <= i < olds.len() ==> trimmed(#[trigger] olds[i]) == olds[i]
        }),
    ensures
        ({
            let roots = roots_of(item).roots->Ok_0;
            let olds = olds_of(previous_entry(pairs, id));
            &&& new_folders_in_place(roots, olds, disk, run.last(), source)
            &&& retired_folders_kept(folders_of(roots), olds, disk, run[0], run.last())
            &&& others_untouched(folders_of(roots), olds, run[0], run.last())
        }),
{
    let roots = roots_of(item).roots->Ok_0;
    let olds = olds_of(previous_entry(pairs, id));
    let news = folders_of(roots);
    let s = install_steps(roots, olds, disk);
    let list = retired(firsts(olds), news, olds, disk);
    let f0 = run[0];
    law_firsts(olds);
    lemma_retired(firsts(olds), news, olds, disk);
    lemma_first_foreign_none(news, olds, disk);
    lemma_run_completes(run, s, outcomes, source, outcomes.len() as int);
    assert(s.take(outcomes.len() as int) =~= s);
    let s1 = stages(roots);
    assert forall|i: int| 0 <= i < roots.len() implies (
    #[trigger] s[i] matches StepView::Stage { folder, path } && folder == roots[i].folder) by {
        assert(s[i] == s1[i]);
    }
    lemma_staged_once(run, s, outcomes, source, roots, roots.len() as int);
    assert forall|i: int, j: int| 0 <= i < news.len() && 0 <= j < news.len() && i != j implies news[i]
        != news[j] by {
        assert(news[i] == roots[i].folder && news[j] == roots[j].folder);
    }
    let s2 = backups(olds);
    let s3 = puts(roots, olds, disk);
    let s4 = keeps(list);
    let save = seq![StepView::Save];
    lemma_completed_in_two(f0, s1 + s2 + s3 + s4, save, source);
    lemma_completed_in_two(f0, s1 + s2 + s3, s4, source);
    lemma_completed_in_two(f0, s1 + s2, s3, source);
    lemma_completed_in_two(f0, s1, s2, source);
    let f1 = all_completed(f0, s1, source);
    let f2 = all_completed(f1, s2, source);
    let f3 = all_completed(f2, s3, source);
    let f4 = all_completed(f3, s4, source);
    assert(save.drop_last() =~= seq![]);
    assert(all_completed(f4, seq![], source) == f4);
    assert(all_completed(f4, save, source) == f4);
    let g = run.last();
    assert(g == f4);
    lemma_stages_done(f0, roots, source);
    lemma_backups_done(f1, olds, source);
    lemma_puts_done(f2, roots, olds, disk, source);
    lemma_keeps_done(f3, list, source);
    assert(f1.mods == f0.mods && f1.off == f0.off);
    assert(trim_all(olds) =~= olds);
    assert forall|i: int| 0 <= i < roots.len() implies !f2.at(Place::Mods).contains_key(
        (#[trigger] roots[i]).folder,
    ) && !f2.at(Place::Off).contains_key(roots[i].folder) by {
        let n = roots[i].folder;
        assert(news[i] == n);
        assert(foreign_fault(news[i], olds, disk) is None);
        assert(f2.at(Place::Mods).contains_key(n) <==> f1.at(Place::Mods).contains_key(n)
            && !olds.contains(n));
        assert(f2.at(Place::Off).contains_key(n) <==> f1.at(Place::Off).contains_key(n)
            && !olds.contains(n));
        assert(f0.mods.contains_key(n) <==> disk.in_mods(n));
        assert(f0.off.contains_key(n) <==> disk.in_off(n));
    }
    // No retired folder has the name of a new one.
    assert forall|i: int, j: int| 0 <= i < roots.len() && 0 <= j < list.len() implies (
    #[trigger] list[j]).1 != (#[trigger] roots[i]).folder by {
        assert(news[i] == roots[i].folder);
        assert(news.contains(roots[i].folder));
    }
    assert forall|i: int| 0 <= i < roots.len() implies ({
        let n = (#[trigger] roots[i]).folder;
        let p = put_place(olds, disk, n);
        &&& g.at(p).contains_key(n)
        &&& g.at(p)[n] == source(roots[i].path)
        &&& disk.in_off(n) ==> p == Place::Off
    }) by {
        let n = roots[i].folder;
        let p = put_place(olds, disk, n);
        assert(news[i] == n);
        assert(f3.at(p).contains_key(n) && f3.at(p)[n] == f2.fresh[n]);
        assert(f2.fresh == f1.fresh);
        assert(f1.fresh[roots[i].folder] == source(roots[i].path));
        assert(f3.off.contains_key(n) <==> f4.off.contains_key(n));
        assert(foreign_fault(news[i], olds, disk) is None);
        if disk.in_off(n) {
            assert(olds.contains(n));
            lemma_old_place_is_one(olds, disk, n);
        }
    }
    assert forall|i: int, q: Place|
        0 <= i < roots.len() && q != put_place(olds, disk, roots[i].folder) implies !(#[trigger] g.at(
        q,
    ).contains_key((#[trigger] roots[i]).folder)) by {
        let n = roots[i].folder;
        assert(f3.at(q).contains_key(roots[i].folder) <==> f2.at(q).contains_key(roots[i].folder));
        assert(f4.off.contains_key(n) <==> f3.off.contains_key(n));
    }
    assert forall|f: Seq<char>|
        #[trigger] olds.contains(f) && !news.contains(f) && disk.in_mods(f) implies !g.mods.contains_key(f)
        && g.off.contains_key(f) && g.off[f] == f0.mods[f] by {
        lemma_retired_folder(f0, f1, f2, f3, f4, disk, olds, news, list, f, Place::Mods);
    }
    assert forall|f: Seq<char>|
        #[trigger] olds.contains(f) && !news.contains(f) && disk.in_off(f) implies !g.mods.contains_key(f)
        && g.off.contains_key(f) && g.off[f] == f0.off[f] by {
        lemma_retired_folder(f0, f1, f2, f3, f4, disk, olds, news, list, f, Place::Off);
    }
    assert forall|p: Place, n: Seq<char>| !olds.contains(n) && !news.contains(n) implies (
    #[trigger] g.at(p).contains_key(n) <==> f0.at(p).contains_key(n)) && (g.at(p).contains_key(n)
        ==> g.at(p)[n] == f0.at(p)[n]) by {
        assert forall|j: int| 0 <= j < list.len() implies (#[trigger] list[j]).1 != n by {
            assert(firsts(olds).contains(list[j].1));
        }
        assert(f4.off.contains_key(n) <==> f3.off.contains_key(n));
        assert(f3.at(p).contains_key(n) <==> f2.at(p).contains_key(n));
        assert(f2.at(p).contains_key(n) <==> f1.at(p).contains_key(n) && !olds.contains(n));
    }
}

proof fn lemma_retired_folder<C>(
    f0: Files<C>,
    f1: Files<C>,
    f2: Files<C>,
    f3: Files<C>,
    f4: Files<C>,
    disk: Disk,
    olds: Seq<Seq<char>>,
    news: Seq<Seq<char>>,
    list: Seq<(Place, Seq<char>)>,
    f: Seq<char>,
    p: Place,
)
    requires
        first_old_fault(olds, disk) is None,
        trim_all(olds) == olds,
        matches_disk(f0, disk),
        f1.mods == f0.mods && f1.off == f0.off,
        olds.contains(f),
        !news.contains(f),
        p == Place::Mods ==> disk.in_mods(f),
        p == Place::Off ==> disk.in_off(f),
        forall|q: Place, n: Seq<char>|
            #[trigger] f2.at(q).contains_key(n) <==> f1.at(q).contains_key(n) && !olds.contains(n),
        forall|q: Place, n: Seq<char>|
            f1.at(q).contains_key(n) && olds.contains(n) ==> #[trigger] f2.saved(q).contains_key(n) && f2.saved(q)[n] == f1.at(q)[n],
        f3.saved_mods == f2.saved_mods,
        f3.saved_off == f2.saved_off,
        forall|q: Place, n: Seq<char>|
            !news.contains(n) ==> (#[trigger] f3.at(q).contains_key(n) <==> f2.at(q).contains_key(n)),
        f4 == (Files { off: f4.off, ..f3 }),
        forall|i: int|
            0 <= i < list.len() ==> f4.off.contains_key((#[trigger] list[i]).1)
                && f4.off[list[i].1] == f3.saved(list[i].0)[list[i].1],
        firsts(olds).contains(f),
        forall|x: Seq<char>|
            firsts(olds).contains(x) && !news.contains(x) && #[trigger] old_place(olds, disk, x) is Some
                ==> list.contains((old_place(olds, disk, x)->Some_0, x)),
    ensures
        !f4.mods.contains_key(f),
        f4.off.contains_key(f),
        f4.off[f] == f0.at(p)[f],
{
    lemma_old_place_is_one(olds, disk, f);
    assert(old_place(olds, disk, f) == Some(p));
    assert(list.contains((p, f)));
    let i = choose|i: int| 0 <= i < list.len() && list[i] == (p, f);
    assert(f4.off.contains_key(list[i].1));
    assert(f0.mods.contains_key(f) <==> disk.in_mods(f));
    assert(f0.off.contains_key(f) <==> disk.in_off(f));
    assert(f1.at(p).contains_key(f));
    assert(f2.saved(p).contains_key(f));
    assert(f3.saved(p) == f2.saved(p));
    assert(f3.at(Place::Mods).contains_key(f) <==> f2.at(Place::Mods).contains_key(f));
    assert(!f2.at(Place::Mods).contains_key(f));
}

proof fn lemma_entry_keys()
    ensures
        "title"@.len() == 5,
        "updated"@.len() == 7,
        "size"@.len() == 4,
        "folders"@.len() == 7,
        "modids"@.len() == 6,
        "require"@.len() == 7,
        "resolved"@.len() == 8,
        "updated"@ != "folders"@,
        "updated"@ != "require"@,
        "folders"@ != "require"@,
{
    reveal_strlit("title");
    reveal_strlit("updated");
    reveal_strlit("size");
    reveal_strlit("folders");
    reveal_strlit("modids");
    reveal_strlit("require");
    reveal_strlit("resolved");
    assert("updated"@[0] == 'u');
    assert("folders"@[0] == 'f');
    assert("require"@[0] == 'r');
}

/// An install writes down what it installed: the title, version and size that the
/// workshop tells, the folders, and the mod ids that they have and require. What
/// was found out of required mod ids is kept, and so are all other items.
pub proof fn law_install_records_the_item(
    id: Seq<char>,
    detail: JsonView,
    source: SourceView,
    pairs: Seq<(Seq<char>, JsonView)>,
    disk: Disk,
)
    requires
        JsonView::Object(pairs).wf(),
        install_view(id, detail, source, pairs, disk) is Ok,
    ensures
        ({
            let p = install_view(id, detail, source, pairs, disk)->Ok_0;
            let roots = roots_of(source).roots->Ok_0;
            let meta = metadata_of(all_infos(roots))->Ok_0;
            &&& lookup(p.state, id) matches Some(entry) && {
                &&& entry.string("title"@) == title_or(detail.string("title"@), id)
                &&& entry.number("updated"@) == detail.number("time_updated"@)
                &&& entry.number("size"@) == detail.number("file_size"@)
                &&& entry.strings("folders"@) == folders_of(roots)
                &&& entry.strings("modids"@) == meta.modids
                &&& entry.strings("require"@) == meta.required
                &&& entry.field("resolved"@) == Some(
                    match previous_entry(pairs, id).field("resolved"@) {
                        Some(v) => v,
                        None => JsonView::Object(seq![]),
                    },
                )
            }
            &&& forall|other: Seq<char>|
                other != id ==> #[trigger] lookup(p.state, other) == lookup(pairs, other)
        }),
{
    let roots = roots_of(source).roots->Ok_0;
    let meta = metadata_of(all_infos(roots))->Ok_0;
    let news = folders_of(roots);
    let f = entry_fields(id, detail, news, meta, previous_entry(pairs, id));
    lemma_entry_keys();
    law_with_field(pairs, id, crate::json::object_of(f));
    lemma_fields_lookup(f, 0);
    lemma_fields_lookup(f, 1);
    lemma_fields_lookup(f, 2);
    lemma_fields_lookup(f, 3);
    lemma_fields_lookup(f, 4);
    lemma_fields_lookup(f, 5);
    lemma_fields_lookup(f, 6);
    lemma_text_array(news);
    lemma_text_array(meta.modids);
    lemma_text_array(meta.required);
}

/// An item that was just installed is the latest, as long as its folders stand
/// where they were put: it is not installed again.
pub proof fn law_installed_item_is_latest(
    id: Seq<char>,
    detail: JsonView,
    source: SourceView,
    pairs: Seq<(Seq<char>, JsonView)>,
    disk: Disk,
    after: Disk,
)
    requires
        JsonView::Object(pairs).wf(),
        install_view(id, detail, source, pairs, disk) is Ok,
        all_settled(install_view(id, detail, source, pairs, disk)->Ok_0.folders, after),
    ensures
        lookup(install_view(id, detail, source, pairs, disk)->Ok_0.state, id) matches Some(entry)
            && is_latest(entry, detail, after),
{
    law_install_records_the_item(id, detail, source, pairs, disk);
}

} // verus!
