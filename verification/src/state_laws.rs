//! What follows from the entries: nothing that they tell is passed over, and nothing is
//! made up.
use vstd::prelude::*;

use crate::folder::{folder_check, Disk};
use crate::json::{keys_ascend, law_with_field, lookup, JsonView};
use crate::modinfo::{distinct, key_of, law_distinct, lower_all, normal_parts, normalized};
use crate::names::{law_listed_keeps_names, lowercase};
use crate::state::{
    all_needs, complete, lacking, law_missing_is_what_nothing_supplies, missing_of, providers_of,
    resolutions, resolved_fields, resolved_pairs, supplied, with_modids, with_resolution,
    with_resolutions,
};
use crate::table::{at, law_set_at, lemma_slot_of, or_set};
use crate::text::is_id;

verus! {

/// A folder stands in one of the two places, and in one only.
pub open spec fn stands(folder: Seq<char>, disk: Disk) -> bool {
    folder_check(folder) is Ok && disk.mods.deep_view().contains(folder)
        != disk.off.deep_view().contains(folder)
}

/// An entry is complete exactly where it has folders and each of them stands.
pub proof fn law_complete_is_every_folder(entry: JsonView, disk: Disk)
    ensures
        complete(entry, disk) <==> entry.strings("folders"@).len() > 0 && forall|k: int|
            0 <= k < entry.strings("folders"@).len() ==> stands(
                #[trigger] entry.strings("folders"@)[k],
                disk,
            ),
{
    let folders = entry.strings("folders"@);
    assert forall|f: Seq<char>| #[trigger] disk.status(f).settled() <==> stands(f, disk) by {}
    if forall|k: int| 0 <= k < folders.len() ==> stands(#[trigger] folders[k], disk) {
        assert forall|i: int| 0 <= i < folders.len() implies disk.status(
            #[trigger] folders[i],
        ).settled() by {
            assert(stands(folders[i], disk));
        }
    }
    if complete(entry, disk) {
        assert forall|k: int| 0 <= k < folders.len() implies stands(
            #[trigger] folders[k],
            disk,
        ) by {
            assert(disk.status(folders[k]).settled());
        }
    }
}

/// One of the entries requires `modid`, which is written there in whatever way.
pub open spec fn is_required_by_one(pairs: Seq<(Seq<char>, JsonView)>, modid: Seq<char>) -> bool {
    modid.len() > 0 && exists|k: int, j: int|
        0 <= k < pairs.len() && 0 <= j < pairs[k].1.strings("require"@).len() && normalized(
            #[trigger] pairs[k].1.strings("require"@)[j],
        ) == modid
}

/// One of the entries has a mod id that is `modid` but for case, and one of its folders
/// stands.
pub open spec fn is_had_by_one(
    pairs: Seq<(Seq<char>, JsonView)>,
    disk: Disk,
    modid: Seq<char>,
) -> bool {
    exists|k: int|
        0 <= k < pairs.len() && has_standing(#[trigger] pairs[k].1, disk) && has_modid(
            pairs[k].1,
            modid,
        )
}

pub open spec fn has_standing(entry: JsonView, disk: Disk) -> bool {
    exists|j: int|
        0 <= j < entry.strings("folders"@).len() && stands(
            #[trigger] entry.strings("folders"@)[j],
            disk,
        )
}

pub open spec fn has_modid(entry: JsonView, modid: Seq<char>) -> bool {
    exists|j: int|
        0 <= j < entry.strings("modids"@).len() && lowercase(
            #[trigger] entry.strings("modids"@)[j],
        ) == lowercase(modid)
}

proof fn lemma_normal_parts(parts: Seq<Seq<char>>, x: Seq<char>)
    ensures
        normal_parts(parts).contains(x) <==> x.len() > 0 && exists|j: int|
            0 <= j < parts.len() && normalized(#[trigger] parts[j]) == x,
    decreases parts.len(),
{
    if parts.len() > 0 {
        let t = parts.drop_last();
        lemma_normal_parts(t, x);
        let r = normal_parts(t);
        let n = normalized(parts.last());
        let all = normal_parts(parts);
        if all.contains(x) {
            let i = choose|i: int| 0 <= i < all.len() && all[i] == x;
            if i < r.len() {
                assert(r[i] == x);
                let j = choose|j: int| 0 <= j < t.len() && normalized(#[trigger] t[j]) == x;
                assert(parts[j] == t[j]);
            } else {
                assert(normalized(parts[parts.len() - 1]) == x);
            }
        }
        if x.len() > 0 && exists|j: int| 0 <= j < parts.len() && normalized(#[trigger] parts[j]) == x {
            let j = choose|j: int| 0 <= j < parts.len() && normalized(#[trigger] parts[j]) == x;
            if j < t.len() {
                assert(t[j] == parts[j]);
                let i = choose|i: int| 0 <= i < r.len() && r[i] == x;
                assert(all[i] == x);
            } else {
                assert(all[r.len() as int] == x);
            }
        }
    }
}

proof fn lemma_all_needs(pairs: Seq<(Seq<char>, JsonView)>, x: Seq<char>)
    ensures
        all_needs(pairs).contains(x) <==> is_required_by_one(pairs, x),
    decreases pairs.len(),
{
    if pairs.len() > 0 {
        let t = pairs.drop_last();
        lemma_all_needs(t, x);
        let parts = pairs.last().1.strings("require"@);
        lemma_normal_parts(parts, x);
        let a = all_needs(t);
        let b = normal_parts(parts);
        if all_needs(pairs).contains(x) {
            let i = choose|i: int| 0 <= i < (a + b).len() && (a + b)[i] == x;
            if i < a.len() {
                assert(a[i] == x);
                let (k, j) = choose|k: int, j: int|
                    0 <= k < t.len() && 0 <= j < t[k].1.strings("require"@).len() && normalized(
                        #[trigger] t[k].1.strings("require"@)[j],
                    ) == x;
                assert(pairs[k].1.strings("require"@)[j] == t[k].1.strings("require"@)[j]);
            } else {
                assert(b[i - a.len()] == x);
                let j = choose|j: int| 0 <= j < parts.len() && normalized(#[trigger] parts[j]) == x;
                assert(pairs[pairs.len() - 1].1.strings("require"@)[j] == parts[j]);
            }
        }
        if is_required_by_one(pairs, x) {
            let (k, j) = choose|k: int, j: int|
                0 <= k < pairs.len() && 0 <= j < pairs[k].1.strings("require"@).len() && normalized(
                    #[trigger] pairs[k].1.strings("require"@)[j],
                ) == x;
            if k < t.len() {
                assert(t[k].1.strings("require"@)[j] == pairs[k].1.strings("require"@)[j]);
                let i = choose|i: int| 0 <= i < a.len() && a[i] == x;
                assert((a + b)[i] == x);
            } else {
                assert(parts[j] == pairs[k].1.strings("require"@)[j]);
                let i = choose|i: int| 0 <= i < b.len() && b[i] == x;
                assert((a + b)[a.len() + i] == x);
            }
        }
    }
}

proof fn lemma_supplied(pairs: Seq<(Seq<char>, JsonView)>, disk: Disk, x: Seq<char>)
    ensures
        supplied(pairs, disk).contains(lowercase(x)) <==> is_had_by_one(pairs, disk, x),
    decreases pairs.len(),
{
    if pairs.len() > 0 {
        let t = pairs.drop_last();
        lemma_supplied(t, disk, x);
        let entry = pairs.last().1;
        let folders = entry.strings("folders"@);
        let ids = entry.strings("modids"@);
        let a = supplied(t, disk);
        let b = lower_all(ids);
        let all = supplied(pairs, disk);
        let key = lowercase(x);
        assert(crate::state::any_settled(folders, disk) <==> has_standing(entry, disk)) by {
            if crate::state::any_settled(folders, disk) {
                let i = choose|i: int|
                    0 <= i < folders.len() && disk.status(#[trigger] folders[i]).settled();
                assert(stands(folders[i], disk));
            }
            if has_standing(entry, disk) {
                let i = choose|i: int| 0 <= i < folders.len() && stands(#[trigger] folders[i], disk);
                assert(disk.status(folders[i]).settled());
            }
        }
        if all.contains(key) {
            let i = choose|i: int| 0 <= i < all.len() && all[i] == key;
            if i < a.len() {
                assert(a[i] == key);
                let k = choose|k: int|
                    0 <= k < t.len() && has_standing(#[trigger] t[k].1, disk) && has_modid(
                        t[k].1,
                        x,
                    );
                assert(pairs[k].1 == t[k].1);
            } else {
                assert(b[i - a.len()] == key);
                assert(lowercase(ids[i - a.len()]) == key);
                assert(has_modid(pairs[pairs.len() - 1].1, x));
            }
        }
        if is_had_by_one(pairs, disk, x) {
            let k = choose|k: int|
                0 <= k < pairs.len() && has_standing(#[trigger] pairs[k].1, disk) && has_modid(
                    pairs[k].1,
                    x,
                );
            if k < t.len() {
                assert(t[k].1 == pairs[k].1);
                let i = choose|i: int| 0 <= i < a.len() && a[i] == key;
                assert(all[i] == key);
            } else {
                let j = choose|j: int| 0 <= j < ids.len() && lowercase(#[trigger] ids[j]) == key;
                assert(b[j] == key);
                assert(all[a.len() + j] == key);
            }
        }
    }
}

/// A mod id is told to be missing exactly where an entry requires it and no entry that
/// has it, in whatever case, has a folder that stands. Of those that are one but for case
/// one is told.
pub proof fn law_missing_mod_ids_are_what_no_item_has(
    pairs: Seq<(Seq<char>, JsonView)>,
    disk: Disk,
    modid: Seq<char>,
)
    ensures
        missing_of(pairs, disk).contains(modid) ==> is_required_by_one(pairs, modid)
            && !is_had_by_one(pairs, disk, modid),
        is_required_by_one(pairs, modid) && !is_had_by_one(pairs, disk, modid) ==> exists|k: int|
            0 <= k < missing_of(pairs, disk).len() && lowercase(
                #[trigger] missing_of(pairs, disk)[k],
            ) == lowercase(modid),
        forall|i: int, j: int|
            0 <= i < j < missing_of(pairs, disk).len() ==> #[trigger] missing_of(pairs, disk)[i]
                != #[trigger] missing_of(pairs, disk)[j],
{
    law_missing_is_what_nothing_supplies(pairs, disk);
    lemma_all_needs(pairs, modid);
    lemma_supplied(pairs, disk, modid);
    let m = missing_of(pairs, disk);
    if is_required_by_one(pairs, modid) && !is_had_by_one(pairs, disk, modid) {
        assert(lower_all(m).contains(lowercase(modid)));
        let k = choose|k: int| 0 <= k < lower_all(m).len() && lower_all(m)[k] == lowercase(modid);
        assert(lowercase(m[k]) == lowercase(modid));
    }
    let d = distinct(all_needs(pairs));
    law_distinct(all_needs(pairs));
    let l = lacking(d, supplied(pairs, disk));
    assert(d.no_duplicates()) by {
        assert forall|i: int, j: int| 0 <= i < d.len() && 0 <= j < d.len() && i != j implies d[i]
            != d[j] by {
            assert(lower_all(d)[i] != lower_all(d)[j]);
        }
    }
    lemma_lacking_once(d, supplied(pairs, disk));
    law_listed_keeps_names(l);
}

proof fn lemma_lacking_once(list: Seq<Seq<char>>, have: Seq<Seq<char>>)
    requires
        list.no_duplicates(),
    ensures
        lacking(list, have).no_duplicates(),
        forall|x: Seq<char>| #[trigger] lacking(list, have).contains(x) ==> list.contains(x),
    decreases list.len(),
{
    if list.len() > 0 {
        let t = list.drop_last();
        assert(t.no_duplicates());
        lemma_lacking_once(t, have);
        let r = lacking(t, have);
        let all = lacking(list, have);
        assert(!r.contains(list.last())) by {
            if r.contains(list.last()) {
                let i = choose|i: int| 0 <= i < t.len() && t[i] == list.last();
                assert(list[i] == list[list.len() - 1]);
            }
        }
        assert forall|x: Seq<char>| #[trigger] all.contains(x) implies list.contains(x) by {
            let i = choose|i: int| 0 <= i < all.len() && all[i] == x;
            if i < r.len() {
                assert(r[i] == x);
                assert(r.contains(x));
                let j = choose|j: int| 0 <= j < t.len() && t[j] == x;
                assert(list[j] == x);
            } else {
                assert(list[list.len() - 1] == x);
            }
        }
        assert forall|i: int, j: int| 0 <= i < all.len() && 0 <= j < all.len() && i != j implies all[i]
            != all[j] by {
            if i < r.len() && j < r.len() {
            } else if i < r.len() {
                assert(r.contains(r[i]));
            } else if j < r.len() {
                assert(r.contains(r[j]));
            }
        }
    }
}

/// A value that is put under a key unless one is there.
proof fn lemma_or_set<V>(t: Seq<(Seq<char>, V)>, key: Seq<char>, value: V)
    ensures
        at(t, key) is Some ==> or_set(t, key, value) == t,
        at(t, key) is None ==> at(or_set(t, key, value), key) == Some(value),
        forall|other: Seq<char>|
            other != key ==> #[trigger] at(or_set(t, key, value), other) == at(t, other),
{
    law_set_at(t, key, value);
    lemma_slot_of(t, key, 0);
}

/// The entry at `k` is complete and has a mod id with this key.
pub open spec fn offers(
    pairs: Seq<(Seq<char>, JsonView)>,
    disk: Disk,
    k: int,
    key: Seq<char>,
) -> bool {
    complete(pairs[k].1, disk) && lower_all(pairs[k].1.strings("modids"@)).contains(key)
}

pub proof fn lemma_with_modids(
    t: Seq<(Seq<char>, Seq<char>)>,
    id: Seq<char>,
    modids: Seq<Seq<char>>,
    key: Seq<char>,
)
    ensures
        at(with_modids(t, id, modids), key) == (if at(t, key) is Some {
            at(t, key)
        } else if lower_all(modids).contains(key) {
            Some(id)
        } else {
            None
        }),
    decreases modids.len(),
{
    if modids.len() > 0 {
        let front = modids.drop_last();
        lemma_with_modids(t, id, front, key);
        lemma_or_set(with_modids(t, id, front), lowercase(modids.last()), id);
        let all = lower_all(modids);
        assert(all =~= lower_all(front).push(lowercase(modids.last())));
        assert(all.contains(key) <==> lower_all(front).contains(key) || key == lowercase(
            modids.last(),
        )) by {
            if all.contains(key) {
                let i = choose|i: int| 0 <= i < all.len() && all[i] == key;
                if i < front.len() {
                    assert(lower_all(front)[i] == key);
                }
            }
            if lower_all(front).contains(key) {
                let i = choose|i: int| 0 <= i < front.len() && lower_all(front)[i] == key;
                assert(all[i] == key);
            }
            assert(all[front.len() as int] == lowercase(modids.last()));
        }
    }
}

/// A mod id is provided by the first item that has it, in whatever case, and is complete;
/// and by none where there is none.
pub proof fn law_the_first_complete_item_provides(
    pairs: Seq<(Seq<char>, JsonView)>,
    disk: Disk,
    key: Seq<char>,
)
    ensures
        forall|k: int|
            0 <= k < pairs.len() && #[trigger] offers(pairs, disk, k, key) && (forall|j: int|
                0 <= j < k ==> !#[trigger] offers(pairs, disk, j, key)) ==> at(
                providers_of(pairs, disk),
                key,
            ) == Some(pairs[k].0),
        at(providers_of(pairs, disk), key) is None <==> forall|k: int|
            0 <= k < pairs.len() ==> !#[trigger] offers(pairs, disk, k, key),
    decreases pairs.len(),
{
    if pairs.len() > 0 {
        let t = pairs.drop_last();
        law_the_first_complete_item_provides(t, disk, key);
        let last = pairs.len() - 1;
        lemma_with_modids(
            providers_of(t, disk),
            pairs[last].0,
            pairs[last].1.strings("modids"@),
            key,
        );
        assert forall|k: int| 0 <= k < last implies #[trigger] offers(pairs, disk, k, key) == offers(
            t,
            disk,
            k,
            key,
        ) by {
            assert(t[k] == pairs[k]);
        }
        assert forall|k: int|
            0 <= k < pairs.len() && #[trigger] offers(pairs, disk, k, key) && (forall|j: int|
                0 <= j < k ==> !#[trigger] offers(pairs, disk, j, key)) implies at(
            providers_of(pairs, disk),
            key,
        ) == Some(pairs[k].0) by {
            if k < last {
                assert(offers(t, disk, k, key));
                assert forall|j: int| 0 <= j < k implies !#[trigger] offers(t, disk, j, key) by {
                    assert(!offers(pairs, disk, j, key));
                }
                assert(at(providers_of(t, disk), key) == Some(t[k].0));
            } else {
                assert forall|j: int| 0 <= j < t.len() implies !#[trigger] offers(
                    t,
                    disk,
                    j,
                    key,
                ) by {
                    assert(!offers(pairs, disk, j, key));
                }
                assert(at(providers_of(t, disk), key) is None);
            }
        }
        if at(providers_of(pairs, disk), key) is None {
            assert(at(providers_of(t, disk), key) is None);
            assert forall|k: int| 0 <= k < pairs.len() implies !#[trigger] offers(
                pairs,
                disk,
                k,
                key,
            ) by {
                if k < last {
                    assert(!offers(t, disk, k, key));
                }
            }
        }
        if forall|k: int| 0 <= k < pairs.len() ==> !#[trigger] offers(pairs, disk, k, key) {
            assert forall|j: int| 0 <= j < t.len() implies !#[trigger] offers(t, disk, j, key) by {
                assert(!offers(pairs, disk, j, key));
            }
            assert(!offers(pairs, disk, last, key));
        }
    }
}

/// A field tells of a mod id with this key that the item `id` provides it, or that none
/// does.
pub open spec fn field_tells(
    field: (Seq<char>, JsonView),
    key: Seq<char>,
    what: Option<Seq<char>>,
) -> bool {
    key_of(field.0) == key && key.len() > 0 && match what {
        Some(id) => field.1 == JsonView::Str(id) && is_id(id),
        None => field.1 == JsonView::Null,
    }
}

/// An entry tells it in what it has as resolved.
pub open spec fn entry_tells(
    entry: JsonView,
    key: Seq<char>,
    what: Option<Seq<char>>,
) -> bool {
    entry.field("resolved"@) matches Some(JsonView::Object(fields)) && exists|j: int|
        0 <= j < fields.len() && field_tells(#[trigger] fields[j], key, what)
}

/// One of the entries tells it.
pub open spec fn is_told(
    pairs: Seq<(Seq<char>, JsonView)>,
    key: Seq<char>,
    what: Option<Seq<char>>,
) -> bool {
    exists|k: int| 0 <= k < pairs.len() && entry_tells(#[trigger] pairs[k].1, key, what)
}

/// What is known after more was told: an item where one was told, and that there is none
/// where only that was.
spec fn knows(
    before: Option<Option<Seq<char>>>,
    after: Option<Option<Seq<char>>>,
    fields: Seq<(Seq<char>, JsonView)>,
    key: Seq<char>,
) -> bool {
    match after {
        Some(Some(id)) => before == Some(Some(id)) || exists|j: int|
            0 <= j < fields.len() && field_tells(#[trigger] fields[j], key, Some(id)),
        Some(None) => (before == Some(None::<Seq<char>>) || exists|j: int|
            0 <= j < fields.len() && field_tells(#[trigger] fields[j], key, None)) && !(before
            matches Some(Some(_))) && forall|j: int, id: Seq<char>|
            0 <= j < fields.len() ==> !#[trigger] field_tells(fields[j], key, Some(id)),
        None => before is None && forall|j: int, what: Option<Seq<char>>|
            0 <= j < fields.len() ==> !#[trigger] field_tells(fields[j], key, what),
    }
}

proof fn lemma_with_resolutions(
    r: Seq<(Seq<char>, Option<Seq<char>>)>,
    fields: Seq<(Seq<char>, JsonView)>,
    key: Seq<char>,
)
    requires
        key.len() > 0,
    ensures
        knows(at(r, key), at(with_resolutions(r, fields), key), fields, key),
    decreases fields.len(),
{
    if fields.len() > 0 {
        let t = fields.drop_last();
        lemma_with_resolutions(r, t, key);
        let u = with_resolutions(r, t);
        let f = fields.last();
        let before = at(r, key);
        let mid = at(u, key);
        let after = at(with_resolutions(r, fields), key);
        assert(fields[fields.len() - 1] == f);
        assert forall|j: int| 0 <= j < t.len() implies #[trigger] t[j] == fields[j] by {}
        match f.1 {
            JsonView::Null => {
                lemma_or_set(u, key_of(f.0), None);
            },
            JsonView::Str(id) => {
                law_set_at(u, key_of(f.0), Some(id));
            },
            _ => {},
        }
        if key_of(f.0) == key {
            match f.1 {
                JsonView::Null => {
                    assert(field_tells(fields[fields.len() - 1], key, None));
                },
                JsonView::Str(id) => {
                    if is_id(id) {
                        assert(field_tells(fields[fields.len() - 1], key, Some(id)));
                    }
                },
                _ => {},
            }
        }
        match after {
            Some(Some(id)) => {
                if mid == after && before != after {
                    let j = choose|j: int|
                        0 <= j < t.len() && field_tells(#[trigger] t[j], key, Some(id));
                    assert(field_tells(fields[j], key, Some(id)));
                }
            },
            Some(None) => {
                if mid == after && before != after {
                    let j = choose|j: int| 0 <= j < t.len() && field_tells(#[trigger] t[j], key, None);
                    assert(field_tells(fields[j], key, None));
                }
                assert forall|j: int, id: Seq<char>|
                    0 <= j < fields.len() implies !#[trigger] field_tells(
                    fields[j],
                    key,
                    Some(id),
                ) by {
                    if j < t.len() {
                        assert(!field_tells(t[j], key, Some(id)));
                    }
                }
            },
            None => {
                assert forall|j: int, what: Option<Seq<char>>|
                    0 <= j < fields.len() implies !#[trigger] field_tells(fields[j], key, what) by {
                    if j < t.len() {
                        assert(!field_tells(t[j], key, what));
                    }
                }
            },
        }
    }
}

/// What is known of a mod id is what the entries tell: an item where one of them names
/// it, that there is none where they say only that, and nothing where none tells of it.
pub proof fn law_what_is_told_of_a_mod_id_is_known(
    pairs: Seq<(Seq<char>, JsonView)>,
    key: Seq<char>,
)
    requires
        key.len() > 0,
    ensures
        match at(resolutions(pairs), key) {
            Some(Some(id)) => is_told(pairs, key, Some(id)),
            Some(None) => is_told(pairs, key, None) && forall|id: Seq<char>|
                !#[trigger] is_told(pairs, key, Some(id)),
            None => forall|what: Option<Seq<char>>| !#[trigger] is_told(pairs, key, what),
        },
    decreases pairs.len(),
{
    if pairs.len() > 0 {
        let t = pairs.drop_last();
        law_what_is_told_of_a_mod_id_is_known(t, key);
        let entry = pairs.last().1;
        assert(pairs[pairs.len() - 1].1 == entry);
        assert forall|what: Option<Seq<char>>| #[trigger] is_told(pairs, key, what) <==> is_told(
            t,
            key,
            what,
        ) || entry_tells(entry, key, what) by {
            if is_told(pairs, key, what) {
                let k = choose|k: int|
                    0 <= k < pairs.len() && entry_tells(#[trigger] pairs[k].1, key, what);
                if k < t.len() {
                    assert(t[k].1 == pairs[k].1);
                }
            }
            if is_told(t, key, what) {
                let k = choose|k: int| 0 <= k < t.len() && entry_tells(#[trigger] t[k].1, key, what);
                assert(pairs[k].1 == t[k].1);
            }
        }
        if let Some(JsonView::Object(fields)) = entry.field("resolved"@) {
            lemma_with_resolutions(resolutions(t), fields, key);
        }
    }
}

/// What is told last of a mod id counts.
pub proof fn law_what_is_told_last_counts(
    pairs: Seq<(Seq<char>, JsonView)>,
    fields: Seq<(Seq<char>, JsonView)>,
    id: Seq<char>,
)
    requires
        pairs.len() > 0,
        pairs.last().1.field("resolved"@) == Some(JsonView::Object(fields)),
        fields.len() > 0,
        fields.last().1 == JsonView::Str(id),
        is_id(id),
        key_of(fields.last().0).len() > 0,
    ensures
        at(resolutions(pairs), key_of(fields.last().0)) == Some(Some(id)),
{
    let u = with_resolutions(resolutions(pairs.drop_last()), fields.drop_last());
    law_set_at(u, key_of(fields.last().0), Some(id));
    assert(with_resolutions(resolutions(pairs.drop_last()), fields) == with_resolution(
        u,
        fields.last(),
    ));
}

/// What is known of the mod ids that an entry requires is written down in it, under each
/// of them: the item, or null where there is none, and nothing where nothing is known. Of
/// other mod ids nothing is written down.
pub proof fn law_what_is_known_is_written_down(
    cache: Seq<(Seq<char>, Option<Seq<char>>)>,
    needs: Seq<Seq<char>>,
    modid: Seq<char>,
)
    ensures
        keys_ascend(resolved_fields(cache, needs)),
        lookup(resolved_fields(cache, needs), modid) == (if needs.contains(modid) {
            match at(cache, key_of(modid)) {
                Some(Some(id)) => Some(JsonView::Str(id)),
                Some(None) => Some(JsonView::Null),
                None => None,
            }
        } else {
            None
        }),
    decreases needs.len(),
{
    if needs.len() > 0 {
        let t = needs.drop_last();
        let last = needs.last();
        law_what_is_known_is_written_down(cache, t, modid);
        let r = resolved_fields(cache, t);
        match at(cache, key_of(last)) {
            Some(Some(id)) => {
                law_with_field(r, last, JsonView::Str(id));
            },
            Some(None) => {
                law_with_field(r, last, JsonView::Null);
            },
            None => {},
        }
        assert(needs.contains(modid) <==> t.contains(modid) || modid == last) by {
            if needs.contains(modid) {
                let i = choose|i: int| 0 <= i < needs.len() && needs[i] == modid;
                if i < t.len() {
                    assert(t[i] == modid);
                }
            }
            if t.contains(modid) {
                let i = choose|i: int| 0 <= i < t.len() && t[i] == modid;
                assert(needs[i] == modid);
            }
            assert(needs[needs.len() - 1] == last);
        }
    }
}

/// Writing down what is known leaves every entry where it is, and everything else of it
/// as it is.
pub proof fn law_writing_down_changes_nothing_else(
    cache: Seq<(Seq<char>, Option<Seq<char>>)>,
    pairs: Seq<(Seq<char>, JsonView)>,
    k: int,
    key: Seq<char>,
)
    requires
        JsonView::Object(pairs).wf(),
        0 <= k < pairs.len(),
    ensures
        resolved_pairs(cache, pairs).len() == pairs.len(),
        resolved_pairs(cache, pairs)[k].0 == pairs[k].0,
        key != "resolved"@ ==> resolved_pairs(cache, pairs)[k].1.field(key) == pairs[k].1.field(key),
        pairs[k].1 is Object ==> resolved_pairs(cache, pairs)[k].1.field("resolved"@) == Some(
            JsonView::Object(resolved_fields(cache, pairs[k].1.strings("require"@))),
        ),
        !(pairs[k].1 is Object) ==> resolved_pairs(cache, pairs)[k].1 == pairs[k].1,
{
    let entry = pairs[k].1;
    assert(JsonView::Object(pairs)->Object_0[k].1.wf());
    if let JsonView::Object(fields) = entry {
        assert(keys_ascend(fields));
        let value = JsonView::Object(resolved_fields(cache, entry.strings("require"@)));
        law_with_field(fields, "resolved"@, value);
    }
}

} // verus!
