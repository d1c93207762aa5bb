//! The file that tells which items are installed, and what follows from it.
use vstd::prelude::*;

use crate::folder::Disk;
use crate::json::{
    json_of, json_text, key_from, law_with_field, lemma_key_from, lemma_object_model,
    lemma_short_key, lemma_with_field_sound, lemma_with_field_values, lookup, pairs_of, put,
    raw_key, read_json, reread, with_field, write_json, Json, JsonView,
};
use crate::modinfo::{
    distinct, key_of, law_distinct, lower_all, modid_key, normal_parts, normalize_required,
};
use crate::names::{
    law_listed_keeps_names, list_names, listed, lowercase, to_lower,
};
use crate::table::{at, law_set_at, or_set, set_at, Table};
use crate::text::{holds, is_id, is_workshop_id, opt_view};

verus! {

/// The entries of a state file with this text: none where there is no file, or
/// where it does not hold an object.
pub open spec fn state_pairs(text: Option<Seq<char>>) -> Seq<(Seq<char>, JsonView)> {
    match text {
        Some(t) => match json_of(t) {
            Ok(JsonView::Object(p)) => p,
            _ => seq![],
        },
        None => seq![],
    }
}

/// The entries of the state file.
pub fn managed_state(text: Option<&str>) -> (r: Vec<(String, Json)>)
    ensures
        pairs_of(r@) == state_pairs(opt_view(text)),
        JsonView::Object(pairs_of(r@)).wf(),
{
    match text {
        Some(t) => match read_json(t) {
            Ok(json) => match json {
                Json::Object(pairs) => {
                    proof {
                        lemma_object_model(pairs);
                    }
                    return pairs;
                },
                _ => {},
            },
            Err(_) => {},
        },
        None => {},
    }
    let r: Vec<(String, Json)> = Vec::new();
    assert(pairs_of(r@) =~= seq![]);
    r
}

/// What the text of a state file with these entries is: it gives the entries back
/// where they can be read back.
pub open spec fn body_of(pairs: Seq<(Seq<char>, JsonView)>, r: Result<String, String>) -> bool {
    let m = JsonView::Object(pairs);
    &&& r matches Ok(s)
    &&& s@ == json_text(reread(m))
    &&& m.readable() ==> state_pairs(Some(s@)) == pairs
}

/// The text of a state file with these entries.
pub fn state_body(state: Vec<(String, Json)>) -> (r: Result<String, String>)
    requires
        JsonView::Object(pairs_of(state@)).wf(),
    ensures
        body_of(pairs_of(state@), r),
{
    let json = Json::Object(state);
    proof {
        lemma_object_model(state);
    }
    match write_json(&json) {
        Ok(s) => Ok(s),
        Err(e) => Err("Không serialize được .pzmod.json: ".to_string().concat(e.as_str())),
    }
}

/// The folders of an entry.
pub fn entry_folders(entry: &Json) -> (r: Vec<String>)
    ensures
        r.deep_view() == entry.model().strings("folders"@),
{
    entry.strings("folders")
}

/// Whether each of the folders stands in one of the two places, and in one only.
pub open spec fn all_settled(folders: Seq<Seq<char>>, disk: Disk) -> bool {
    forall|i: int| 0 <= i < folders.len() ==> disk.status(#[trigger] folders[i]).settled()
}

/// Whether one of the folders stands in one of the two places, and in one only.
pub open spec fn any_settled(folders: Seq<Seq<char>>, disk: Disk) -> bool {
    exists|i: int| 0 <= i < folders.len() && disk.status(#[trigger] folders[i]).settled()
}

/// Whether everything that an entry installed is there.
pub open spec fn complete(entry: JsonView, disk: Disk) -> bool {
    entry.strings("folders"@).len() > 0 && all_settled(entry.strings("folders"@), disk)
}

/// Whether everything that an entry installed is there.
pub fn entry_complete(entry: &Json, disk: &Disk) -> (r: bool)
    ensures
        r == complete(entry.model(), *disk),
{
    let folders = entry_folders(entry);
    let ghost all = folders.deep_view();
    if folders.len() == 0 {
        return false;
    }
    let mut i: usize = 0;
    while i < folders.len()
        invariant
            i <= folders.len(),
            all == folders.deep_view(),
            all == entry.model().strings("folders"@),
            forall|k: int| 0 <= k < i ==> disk.status(#[trigger] all[k]).settled(),
        decreases folders.len() - i,
    {
        assert(all[i as int] == folders@[i as int]@);
        if !disk.folder_status(folders[i].as_str()).is_settled() {
            return false;
        }
        i += 1;
    }
    true
}

fn some_settled(folders: &Vec<String>, disk: &Disk) -> (r: bool)
    ensures
        r == any_settled(folders.deep_view(), *disk),
{
    let ghost all = folders.deep_view();
    let mut i: usize = 0;
    while i < folders.len()
        invariant
            i <= folders.len(),
            all == folders.deep_view(),
            forall|k: int| 0 <= k < i ==> !disk.status(#[trigger] all[k]).settled(),
        decreases folders.len() - i,
    {
        assert(all[i as int] == folders@[i as int]@);
        if disk.folder_status(folders[i].as_str()).is_settled() {
            return true;
        }
        i += 1;
    }
    false
}

/// The keys of the mod ids that installed entries supply.
pub open spec fn supplied(pairs: Seq<(Seq<char>, JsonView)>, disk: Disk) -> Seq<Seq<char>>
    decreases pairs.len(),
{
    if pairs.len() == 0 {
        seq![]
    } else {
        let r = supplied(pairs.drop_last(), disk);
        let entry = pairs.last().1;
        if any_settled(entry.strings("folders"@), disk) {
            r + lower_all(entry.strings("modids"@))
        } else {
            r
        }
    }
}

/// The mod ids that entries require, in order.
pub open spec fn all_needs(pairs: Seq<(Seq<char>, JsonView)>) -> Seq<Seq<char>>
    decreases pairs.len(),
{
    if pairs.len() == 0 {
        seq![]
    } else {
        all_needs(pairs.drop_last()) + normal_parts(pairs.last().1.strings("require"@))
    }
}

/// Those of `list` whose key is not among `have`.
pub open spec fn lacking(list: Seq<Seq<char>>, have: Seq<Seq<char>>) -> Seq<Seq<char>>
    decreases list.len(),
{
    if list.len() == 0 {
        seq![]
    } else {
        let r = lacking(list.drop_last(), have);
        if have.contains(lowercase(list.last())) {
            r
        } else {
            r.push(list.last())
        }
    }
}

/// The mod ids that are required and not supplied, each once, in order of
/// listing.
pub open spec fn missing_of(pairs: Seq<(Seq<char>, JsonView)>, disk: Disk) -> Seq<Seq<char>> {
    listed(lacking(distinct(all_needs(pairs)), supplied(pairs, disk)))
}

proof fn lemma_lacking(list: Seq<Seq<char>>, have: Seq<Seq<char>>)
    ensures
        forall|x: Seq<char>|
            #[trigger] lacking(list, have).contains(x) <==> list.contains(x) && !have.contains(
                lowercase(x),
            ),
    decreases list.len(),
{
    if list.len() > 0 {
        let t = list.drop_last();
        lemma_lacking(t, have);
        let c = lacking(t, have);
        let r = lacking(list, have);
        assert forall|x: Seq<char>| #[trigger] r.contains(x) <==> list.contains(x)
            && !have.contains(lowercase(x)) by {
            if r.contains(x) {
                let i = choose|i: int| 0 <= i < r.len() && r[i] == x;
                if i < c.len() {
                    assert(c[i] == x);
                    assert(c.contains(x));
                    let j = choose|j: int| 0 <= j < t.len() && t[j] == x;
                    assert(list[j] == x);
                } else {
                    assert(list[t.len() as int] == x);
                }
            }
            if list.contains(x) && !have.contains(lowercase(x)) {
                let j = choose|j: int| 0 <= j < list.len() && list[j] == x;
                if j < t.len() {
                    assert(t[j] == x);
                    assert(c.contains(x));
                    let i = choose|i: int| 0 <= i < c.len() && c[i] == x;
                    assert(r[i] == x);
                } else {
                    assert(r[c.len() as int] == x);
                }
            }
        }
    }
}

/// A required mod id is reported as missing exactly where no installed entry
/// supplies it, whatever the case in which it is written.
pub proof fn law_missing_is_what_nothing_supplies(pairs: Seq<(Seq<char>, JsonView)>, disk: Disk)
    ensures
        forall|x: Seq<char>|
            #[trigger] missing_of(pairs, disk).contains(x) ==> all_needs(pairs).contains(x)
                && !supplied(pairs, disk).contains(lowercase(x)),
        forall|x: Seq<char>|
            all_needs(pairs).contains(x) && !supplied(pairs, disk).contains(lowercase(x))
                ==> #[trigger] lower_all(missing_of(pairs, disk)).contains(lowercase(x)),
{
    let needs = all_needs(pairs);
    let have = supplied(pairs, disk);
    let d = distinct(needs);
    let l = lacking(d, have);
    let m = listed(l);
    law_distinct(needs);
    lemma_lacking(d, have);
    law_listed_keeps_names(l);
    assert forall|x: Seq<char>| #[trigger] m.contains(x) implies needs.contains(x)
        && !have.contains(lowercase(x)) by {
        assert(l.contains(x));
        assert(d.contains(x));
    }
    assert forall|x: Seq<char>| needs.contains(x) && !have.contains(
        lowercase(x),
    ) implies #[trigger] lower_all(m).contains(lowercase(x)) by {
        let k = lowercase(x);
        let j = choose|j: int| 0 <= j < needs.len() && needs[j] == x;
        assert(lower_all(needs)[j] == k);
        assert(lower_all(needs).contains(k));
        assert(lower_all(d).contains(k));
        let i = choose|i: int| 0 <= i < lower_all(d).len() && lower_all(d)[i] == k;
        let y = d[i];
        assert(d.contains(y));
        assert(l.contains(y));
        assert(m.contains(y));
        let h = choose|h: int| 0 <= h < m.len() && m[h] == y;
        assert(lower_all(m)[h] == k);
    }
}

fn lower_texts(list: &Vec<String>) -> (r: Vec<String>)
    ensures
        r.deep_view() == lower_all(list.deep_view()),
{
    let mut r: Vec<String> = Vec::new();
    let mut i: usize = 0;
    while i < list.len()
        invariant
            i <= list.len(),
            r.len() == i,
            forall|k: int| 0 <= k < i ==> (#[trigger] r@[k])@ == lowercase(list@[k]@),
        decreases list.len() - i,
    {
        r.push(to_lower(list[i].as_str()));
        i += 1;
    }
    assert(r.deep_view() =~= lower_all(list.deep_view()));
    r
}

fn normal_texts(parts: &Vec<String>) -> (r: Vec<String>)
    ensures
        r.deep_view() == normal_parts(parts.deep_view()),
{
    let mut r: Vec<String> = Vec::new();
    let ghost all = parts.deep_view();
    let mut i: usize = 0;
    assert(r.deep_view() =~= seq![]);
    while i < parts.len()
        invariant
            i <= parts.len(),
            all == parts.deep_view(),
            r.deep_view() == normal_parts(all.take(i as int)),
        decreases parts.len() - i,
    {
        assert(all.take(i + 1).drop_last() =~= all.take(i as int));
        let n = normalize_required(parts[i].as_str());
        if n.unicode_len() > 0 {
            let ghost before = r.deep_view();
            r.push(n);
            assert(r.deep_view() =~= before.push(n@));
        }
        i += 1;
    }
    assert(all.take(parts.len() as int) =~= all);
    r
}

/// The items of `list` without those that an earlier one equals but for case.
fn distinct_texts(list: &Vec<String>) -> (r: Vec<String>)
    ensures
        r.deep_view() == distinct(list.deep_view()),
{
    let mut r: Vec<String> = Vec::new();
    let mut keys: Vec<String> = Vec::new();
    let ghost all = list.deep_view();
    let mut i: usize = 0;
    assert(r.deep_view() =~= seq![]);
    assert(keys.deep_view() =~= lower_all(seq![]));
    while i < list.len()
        invariant
            i <= list.len(),
            all == list.deep_view(),
            r.deep_view() == distinct(all.take(i as int)),
            keys.deep_view() == lower_all(r.deep_view()),
        decreases list.len() - i,
    {
        assert(all.take(i + 1).drop_last() =~= all.take(i as int));
        let key = to_lower(list[i].as_str());
        if !holds(&keys, key.as_str()) {
            let ghost before = r.deep_view();
            let ghost known = keys.deep_view();
            keys.push(key);
            r.push(list[i].clone());
            assert(r.deep_view() =~= before.push(list@[i as int]@));
            assert(keys.deep_view() =~= known.push(key@));
            assert(lower_all(r.deep_view()) =~= known.push(key@));
        }
        i += 1;
    }
    assert(all.take(list.len() as int) =~= all);
    r
}

fn lacking_texts(list: &Vec<String>, have: &Vec<String>) -> (r: Vec<String>)
    ensures
        r.deep_view() == lacking(list.deep_view(), have.deep_view()),
{
    let mut r: Vec<String> = Vec::new();
    let ghost all = list.deep_view();
    let mut i: usize = 0;
    assert(r.deep_view() =~= seq![]);
    while i < list.len()
        invariant
            i <= list.len(),
            all == list.deep_view(),
            r.deep_view() == lacking(all.take(i as int), have.deep_view()),
        decreases list.len() - i,
    {
        assert(all.take(i + 1).drop_last() =~= all.take(i as int));
        let key = to_lower(list[i].as_str());
        if !holds(have, key.as_str()) {
            let ghost before = r.deep_view();
            r.push(list[i].clone());
            assert(r.deep_view() =~= before.push(list@[i as int]@));
        }
        i += 1;
    }
    assert(all.take(list.len() as int) =~= all);
    r
}

/// The mod ids that entries require and no installed entry supplies.
pub fn missing_modids(state: &Vec<(String, Json)>, disk: &Disk) -> (r: Vec<String>)
    ensures
        r.deep_view() == missing_of(pairs_of(state@), *disk),
{
    let mut have: Vec<String> = Vec::new();
    let mut needs: Vec<String> = Vec::new();
    let ghost all = pairs_of(state@);
    let mut i: usize = 0;
    assert(have.deep_view() =~= seq![]);
    assert(needs.deep_view() =~= seq![]);
    while i < state.len()
        invariant
            i <= state.len(),
            all == pairs_of(state@),
            have.deep_view() == supplied(all.take(i as int), *disk),
            needs.deep_view() == all_needs(all.take(i as int)),
        decreases state.len() - i,
    {
        assert(all.take(i + 1).drop_last() =~= all.take(i as int));
        let entry = &state[i].1;
        let folders = entry_folders(entry);
        if some_settled(&folders, disk) {
            let ghost before = have.deep_view();
            let modids = entry.strings("modids");
            let mut keys = lower_texts(&modids);
            let ghost more = keys.deep_view();
            have.append(&mut keys);
            assert(have.deep_view() =~= before + more);
        }
        let parts = entry.strings("require");
        let mut normal = normal_texts(&parts);
        let ghost before = needs.deep_view();
        let ghost more = normal.deep_view();
        needs.append(&mut normal);
        assert(needs.deep_view() =~= before + more);
        i += 1;
    }
    assert(all.take(state.len() as int) =~= all);
    let once = distinct_texts(&needs);
    let left = lacking_texts(&once, &have);
    list_names(&left)
}

/// What one field of a `resolved` object adds to what is known: null that
/// nothing was found, unless something was; an id that it was found.
pub open spec fn with_resolution(
    cache: Seq<(Seq<char>, Option<Seq<char>>)>,
    field: (Seq<char>, JsonView),
) -> Seq<(Seq<char>, Option<Seq<char>>)> {
    let key = key_of(field.0);
    if key.len() == 0 {
        cache
    } else {
        match field.1 {
            JsonView::Null => or_set(cache, key, None),
            JsonView::Str(id) => if is_id(id) {
                set_at(cache, key, Some(id))
            } else {
                cache
            },
            _ => cache,
        }
    }
}

pub open spec fn with_resolutions(
    cache: Seq<(Seq<char>, Option<Seq<char>>)>,
    fields: Seq<(Seq<char>, JsonView)>,
) -> Seq<(Seq<char>, Option<Seq<char>>)>
    decreases fields.len(),
{
    if fields.len() == 0 {
        cache
    } else {
        with_resolution(with_resolutions(cache, fields.drop_last()), fields.last())
    }
}

/// What the entries tell of which workshop item provides a mod id.
pub open spec fn resolutions(pairs: Seq<(Seq<char>, JsonView)>) -> Seq<
    (Seq<char>, Option<Seq<char>>),
>
    decreases pairs.len(),
{
    if pairs.len() == 0 {
        seq![]
    } else {
        let r = resolutions(pairs.drop_last());
        match pairs.last().1.field("resolved"@) {
            Some(JsonView::Object(fields)) => with_resolutions(r, fields),
            _ => r,
        }
    }
}

/// What the entries tell of which workshop item provides a mod id: the item, or
/// that none was found.
pub fn resolution_cache(state: &Vec<(String, Json)>) -> (r: Table<Option<String>>)
    ensures
        r.deep_view() == resolutions(pairs_of(state@)),
{
    let mut cache: Table<Option<String>> = Table::new();
    let ghost all = pairs_of(state@);
    let mut i: usize = 0;
    while i < state.len()
        invariant
            i <= state.len(),
            all == pairs_of(state@),
            cache.deep_view() == resolutions(all.take(i as int)),
        decreases state.len() - i,
    {
        let ghost before = cache.deep_view();
        assert(all.take(i + 1).drop_last() =~= all.take(i as int));
        match state[i].1.get("resolved") {
            Some(resolved) => match resolved.object() {
                Some(fields) => {
                    let ghost fs = pairs_of(fields@);
                    let mut j: usize = 0;
                    while j < fields.len()
                        invariant
                            j <= fields.len(),
                            fs == pairs_of(fields@),
                            cache.deep_view() == with_resolutions(before, fs.take(j as int)),
                        decreases fields.len() - j,
                    {
                        assert(fs.take(j + 1).drop_last() =~= fs.take(j as int));
                        let key = modid_key(fields[j].0.as_str());
                        if key.unicode_len() > 0 {
                            match &fields[j].1 {
                                Json::Null => {
                                    cache.set_missing(key, None);
                                },
                                Json::Str(id) => {
                                    if is_workshop_id(id.as_str()) {
                                        cache.set(key, Some(id.clone()));
                                    }
                                },
                                _ => {},
                            }
                        }
                        j += 1;
                    }
                    assert(fs.take(fields.len() as int) =~= fs);
                },
                None => {},
            },
            None => {},
        }
        i += 1;
    }
    assert(all.take(state.len() as int) =~= all);
    cache
}

/// The `resolved` object for the mod ids that an entry requires: those that are
/// known.
pub open spec fn resolved_fields(
    cache: Seq<(Seq<char>, Option<Seq<char>>)>,
    needs: Seq<Seq<char>>,
) -> Seq<(Seq<char>, JsonView)>
    decreases needs.len(),
{
    if needs.len() == 0 {
        seq![]
    } else {
        let r = resolved_fields(cache, needs.drop_last());
        match at(cache, key_of(needs.last())) {
            Some(Some(id)) => with_field(r, needs.last(), JsonView::Str(id)),
            Some(None) => with_field(r, needs.last(), JsonView::Null),
            None => r,
        }
    }
}

/// An entry with what is known of the mod ids that it requires.
pub open spec fn resolved_entry(
    cache: Seq<(Seq<char>, Option<Seq<char>>)>,
    entry: JsonView,
) -> JsonView {
    match entry {
        JsonView::Object(fields) => JsonView::Object(
            with_field(
                fields,
                "resolved"@,
                JsonView::Object(resolved_fields(cache, entry.strings("require"@))),
            ),
        ),
        _ => entry,
    }
}

/// Whether an entry already tells what is known.
pub open spec fn tells(cache: Seq<(Seq<char>, Option<Seq<char>>)>, entry: JsonView) -> bool {
    entry is Object ==> entry.field("resolved"@) == Some(
        JsonView::Object(resolved_fields(cache, entry.strings("require"@))),
    )
}

/// The entries with what is known; an entry that tells it is left as it is.
pub open spec fn resolved_pairs(
    cache: Seq<(Seq<char>, Option<Seq<char>>)>,
    pairs: Seq<(Seq<char>, JsonView)>,
) -> Seq<(Seq<char>, JsonView)> {
    Seq::new(
        pairs.len(),
        |i: int|
            (
                pairs[i].0,
                if tells(cache, pairs[i].1) {
                    pairs[i].1
                } else {
                    resolved_entry(cache, pairs[i].1)
                },
            ),
    )
}

proof fn lemma_resolved_fields(cache: Seq<(Seq<char>, Option<Seq<char>>)>, needs: Seq<Seq<char>>)
    ensures
        JsonView::Object(resolved_fields(cache, needs)).wf(),
        JsonView::Object(resolved_fields(cache, needs)).exact(),
        JsonView::Object(resolved_fields(cache, needs)).nests(1),
        !needs.contains(raw_key()) ==> JsonView::Object(resolved_fields(cache, needs)).plain(),
    decreases needs.len(),
{
    if needs.len() > 0 {
        lemma_resolved_fields(cache, needs.drop_last());
        let r = resolved_fields(cache, needs.drop_last());
        assert(!needs.contains(raw_key()) ==> needs.last() != raw_key()
            && !needs.drop_last().contains(raw_key())) by {
            assert(needs[needs.len() - 1] == needs.last());
            assert forall|i: int| 0 <= i < needs.len() - 1 implies #[trigger] needs.drop_last()[i]
                == needs[i] by {}
        }
        match at(cache, key_of(needs.last())) {
            Some(Some(id)) => {
                lemma_with_field_sound(r, needs.last(), JsonView::Str(id), 0);
            },
            Some(None) => {
                lemma_with_field_sound(r, needs.last(), JsonView::Null, 0);
            },
            None => {},
        }
    }
}

/// Writing down what is known keeps the file readable: entries stay in order,
/// and nothing is added that could not be read back, where no mod id that is
/// required is the key that `serde_json` keeps to itself.
pub proof fn law_resolved_pairs_stay_sound(
    cache: Seq<(Seq<char>, Option<Seq<char>>)>,
    pairs: Seq<(Seq<char>, JsonView)>,
    n: nat,
)
    ensures
        JsonView::Object(pairs).wf() ==> JsonView::Object(resolved_pairs(cache, pairs)).wf(),
        JsonView::Object(pairs).exact() ==> JsonView::Object(resolved_pairs(cache, pairs)).exact(),
        n >= 3 && JsonView::Object(pairs).nests(n) ==> JsonView::Object(
            resolved_pairs(cache, pairs),
        ).nests(n),
        JsonView::Object(pairs).plain() && (forall|i: int|
            0 <= i < pairs.len() ==> !(#[trigger] pairs[i]).1.strings("require"@).contains(
                raw_key(),
            )) ==> JsonView::Object(resolved_pairs(cache, pairs)).plain(),
{
    let out = resolved_pairs(cache, pairs);
    assert forall|i: int| 0 <= i < out.len() implies (pairs[i].1.wf() ==> (#[trigger] out[i]).1.wf())
        && (pairs[i].1.exact() ==> out[i].1.exact()) && (n >= 3 && pairs[i].1.nests((n - 1) as nat)
        ==> out[i].1.nests((n - 1) as nat)) && (pairs[i].1.plain() && !pairs[i].1.strings(
        "require"@,
    ).contains(raw_key()) ==> out[i].1.plain()) by {
        assert("resolved"@ != raw_key()) by {
            reveal_strlit("resolved");
            lemma_short_key("resolved"@);
        }
        lemma_resolved_fields(cache, pairs[i].1.strings("require"@));
        let value = JsonView::Object(resolved_fields(cache, pairs[i].1.strings("require"@)));
        match pairs[i].1 {
            JsonView::Object(fields) => {
                if n >= 3 {
                    lemma_nests_more(value, 1, (n - 2) as nat);
                    lemma_with_field_sound(fields, "resolved"@, value, (n - 2) as nat);
                } else {
                    lemma_with_field_sound(fields, "resolved"@, value, 1);
                }
            },
            _ => {},
        }
    }
    let named = forall|i: int|
        0 <= i < pairs.len() ==> !(#[trigger] pairs[i]).1.strings("require"@).contains(raw_key());
    if JsonView::Object(pairs).plain() && named {
        assert forall|i: int| 0 <= i < out.len() implies (#[trigger] out[i]).0 != raw_key()
            && out[i].1.plain() by {
            let doc = JsonView::Object(pairs);
            assert(doc->Object_0 == pairs);
            assert(pairs[i].0 != raw_key() && pairs[i].1.plain());
            assert(!pairs[i].1.strings("require"@).contains(raw_key()));
        }
    }
    if JsonView::Object(pairs).wf() {
        assert forall|i: int, j: int| 0 <= i < j < out.len() implies crate::names::text_lt(
            #[trigger] out[i].0,
            #[trigger] out[j].0,
        ) by {
            assert(crate::names::text_lt(pairs[i].0, pairs[j].0));
        }
    }
}

/// A table tells nothing but what another one tells.
spec fn agrees(
    r: Seq<(Seq<char>, Option<Seq<char>>)>,
    cache: Seq<(Seq<char>, Option<Seq<char>>)>,
) -> bool {
    forall|k: Seq<char>| #[trigger] at(r, k) is Some ==> at(r, k) == at(cache, k)
}

/// A field tells what is known of its mod id.
spec fn field_agrees(
    field: (Seq<char>, JsonView),
    cache: Seq<(Seq<char>, Option<Seq<char>>)>,
) -> bool {
    match at(cache, key_of(field.0)) {
        Some(Some(id)) => field.1 == JsonView::Str(id) && is_id(id),
        Some(None) => field.1 == JsonView::Null,
        None => false,
    }
}

/// The items that are remembered have workshop ids.
pub open spec fn all_have_ids(cache: Seq<(Seq<char>, Option<Seq<char>>)>) -> bool {
    forall|k: Seq<char>|
        (#[trigger] at(cache, k)) matches Some(x) ==> (x matches Some(id) ==> is_id(id))
}

/// What stands before the last one of a list is in the list.
proof fn lemma_in_front(list: Seq<Seq<char>>, x: Seq<char>)
    requires
        list.len() > 0,
        list.drop_last().contains(x),
    ensures
        list.contains(x),
{
    let t = list.drop_last();
    let i = choose|i: int| 0 <= i < t.len() && t[i] == x;
    assert(list[i] == x);
}

proof fn lemma_resolved_fields_agree(
    cache: Seq<(Seq<char>, Option<Seq<char>>)>,
    needs: Seq<Seq<char>>,
)
    requires
        all_have_ids(cache),
    ensures
        forall|j: int|
            0 <= j < resolved_fields(cache, needs).len() ==> field_agrees(
                #[trigger] resolved_fields(cache, needs)[j],
                cache,
            ) && needs.contains(resolved_fields(cache, needs)[j].0),
        forall|i: int|
            0 <= i < needs.len() && at(cache, key_of(#[trigger] needs[i])) is Some ==> lookup(
                resolved_fields(cache, needs),
                needs[i],
            ) is Some,
    decreases needs.len(),
{
    if needs.len() > 0 {
        let t = needs.drop_last();
        lemma_resolved_fields_agree(cache, t);
        lemma_resolved_fields(cache, t);
        let r = resolved_fields(cache, t);
        let all = resolved_fields(cache, needs);
        let last = needs.last();
        let known = at(cache, key_of(last));
        if known is Some {
            let value = match known->Some_0 {
                Some(id) => JsonView::Str(id),
                None => JsonView::Null,
            };
            assert(all == with_field(r, last, value));
            law_with_field(r, last, value);
            assert(needs[needs.len() - 1] == last);
            assert forall|j: int| 0 <= j < all.len() implies field_agrees(
                #[trigger] all[j],
                cache,
            ) && needs.contains(all[j].0) by {
                lemma_with_field_values(r, last, value, j);
                if all[j] != (last, value) {
                    let i = choose|i: int| 0 <= i < r.len() && #[trigger] r[i] == all[j];
                    lemma_in_front(needs, r[i].0);
                }
            }
        } else {
            assert forall|j: int| 0 <= j < all.len() implies field_agrees(
                #[trigger] all[j],
                cache,
            ) && needs.contains(all[j].0) by {
                lemma_in_front(needs, r[j].0);
            }
        }
        assert forall|i: int|
            0 <= i < needs.len() && at(cache, key_of(#[trigger] needs[i])) is Some implies lookup(
            all,
            needs[i],
        ) is Some by {
            if i < t.len() {
                assert(t[i] == needs[i]);
                assert(lookup(r, t[i]) is Some);
            }
        }
    }
}

proof fn lemma_with_resolutions(
    r: Seq<(Seq<char>, Option<Seq<char>>)>,
    fields: Seq<(Seq<char>, JsonView)>,
    cache: Seq<(Seq<char>, Option<Seq<char>>)>,
)
    requires
        agrees(r, cache),
        forall|j: int| 0 <= j < fields.len() ==> field_agrees(#[trigger] fields[j], cache),
    ensures
        agrees(with_resolutions(r, fields), cache),
        forall|k: Seq<char>|
            at(r, k) is Some ==> #[trigger] at(with_resolutions(r, fields), k) is Some,
        forall|j: int|
            0 <= j < fields.len() && key_of((#[trigger] fields[j]).0).len() > 0 ==> at(
                with_resolutions(r, fields),
                key_of(fields[j].0),
            ) is Some,
        forall|k: Seq<char>|
            #[trigger] at(with_resolutions(r, fields), k) is Some ==> at(r, k) is Some || k.len()
                > 0 && exists|j: int| 0 <= j < fields.len() && key_of((#[trigger] fields[j]).0) == k,
    decreases fields.len(),
{
    if fields.len() > 0 {
        let t = fields.drop_last();
        assert forall|j: int| 0 <= j < t.len() implies field_agrees(#[trigger] t[j], cache) by {
            assert(t[j] == fields[j]);
        }
        lemma_with_resolutions(r, t, cache);
        let u = with_resolutions(r, t);
        let w = with_resolutions(r, fields);
        let f = fields.last();
        let key = key_of(f.0);
        assert(field_agrees(fields[fields.len() - 1], cache));
        match f.1 {
            JsonView::Null => {
                law_set_at(u, key, None);
            },
            JsonView::Str(id) => {
                law_set_at(u, key, Some(id));
            },
            _ => {},
        }
        assert forall|k: Seq<char>| #[trigger] at(w, k) is Some implies at(w, k) == at(
            cache,
            k,
        ) by {
            assert(at(u, k) is Some ==> at(u, k) == at(cache, k));
        }
        assert forall|k: Seq<char>| at(r, k) is Some implies #[trigger] at(w, k) is Some by {
            assert(at(u, k) is Some);
        }
        assert forall|j: int|
            0 <= j < fields.len() && key_of((#[trigger] fields[j]).0).len() > 0 implies at(
            w,
            key_of(fields[j].0),
        ) is Some by {
            if j < t.len() {
                assert(t[j] == fields[j]);
                assert(at(u, key_of(t[j].0)) is Some);
            }
        }
        assert forall|k: Seq<char>| #[trigger] at(w, k) is Some && at(r, k) is None implies k.len()
            > 0 && exists|j: int|
            0 <= j < fields.len() && key_of((#[trigger] fields[j]).0) == k by {
            if at(u, k) is Some {
                let j = choose|j: int| 0 <= j < t.len() && key_of((#[trigger] t[j]).0) == k;
                assert(key_of(fields[j].0) == k);
            } else {
                assert(key_of(fields[fields.len() - 1].0) == k);
            }
        }
    }
}

/// One of the first `n` entries requires a mod id with the key `key`.
pub open spec fn requires_key(pairs: Seq<(Seq<char>, JsonView)>, n: int, key: Seq<char>) -> bool {
    exists|i: int, modid: Seq<char>|
        0 <= i < n && i < pairs.len() && #[trigger] pairs[i].1.strings("require"@).contains(modid)
            && key_of(modid) == key
}

proof fn lemma_resolutions(
    cache: Seq<(Seq<char>, Option<Seq<char>>)>,
    pairs: Seq<(Seq<char>, JsonView)>,
    n: int,
)
    requires
        all_have_ids(cache),
        JsonView::Object(pairs).wf(),
        0 <= n <= pairs.len(),
    ensures
        agrees(resolutions(resolved_pairs(cache, pairs).take(n)), cache),
        forall|i: int, modid: Seq<char>|
            0 <= i < n && #[trigger] pairs[i].1.strings("require"@).contains(modid) && key_of(
                modid,
            ).len() > 0 && at(cache, key_of(modid)) is Some ==> #[trigger] at(
                resolutions(resolved_pairs(cache, pairs).take(n)),
                key_of(modid),
            ) is Some,
        forall|k: Seq<char>|
            #[trigger] at(resolutions(resolved_pairs(cache, pairs).take(n)), k) is Some ==> k.len()
                > 0 && requires_key(pairs, n, k),
    decreases n,
{
    let out = resolved_pairs(cache, pairs);
    if n == 0 {
        assert(out.take(0).len() == 0);
    } else {
        lemma_resolutions(cache, pairs, n - 1);
        assert(out.take(n).drop_last() =~= out.take(n - 1));
        let before = resolutions(out.take(n - 1));
        let after = resolutions(out.take(n));
        let entry = pairs[n - 1].1;
        assert(out.take(n).last() == out[n - 1]);
        assert(entry.wf());
        let needs = entry.strings("require"@);
        let fields = resolved_fields(cache, needs);
        lemma_resolved_fields_agree(cache, needs);
        if entry is Object {
            law_with_field(entry->Object_0, "resolved"@, JsonView::Object(fields));
            assert(out[n - 1].1.field("resolved"@) == Some(JsonView::Object(fields)));
            lemma_with_resolutions(before, fields, cache);
            assert(after == with_resolutions(before, fields));
        }
        assert forall|i: int, modid: Seq<char>|
            0 <= i < n && #[trigger] pairs[i].1.strings("require"@).contains(modid) && key_of(
                modid,
            ).len() > 0 && at(cache, key_of(modid)) is Some implies #[trigger] at(
            after,
            key_of(modid),
        ) is Some by {
            if i < n - 1 {
                assert(at(before, key_of(modid)) is Some);
            } else {
                let k = choose|k: int| 0 <= k < needs.len() && needs[k] == modid;
                assert(lookup(fields, needs[k]) is Some);
                lemma_key_from(fields, modid, 0);
                let j = key_from(fields, modid, 0)->Some_0;
                assert(fields[j].0 == modid);
                assert(at(with_resolutions(before, fields), key_of(fields[j].0)) is Some);
            }
        }
        assert forall|k: Seq<char>| #[trigger] at(after, k) is Some implies k.len() > 0
            && requires_key(pairs, n, k) by {
            if at(before, k) is Some {
                let (i, modid) = choose|i: int, modid: Seq<char>|
                    0 <= i < n - 1 && i < pairs.len() && #[trigger] pairs[i].1.strings(
                        "require"@,
                    ).contains(modid) && key_of(modid) == k;
                assert(pairs[i].1.strings("require"@).contains(modid));
            } else {
                let j = choose|j: int|
                    0 <= j < fields.len() && key_of((#[trigger] fields[j]).0) == k;
                assert(pairs[n - 1].1.strings("require"@).contains(fields[j].0));
            }
        }
    }
}

/// What is read back once it was written down is what was found out of the mod ids
/// that entries require, and of no other: nothing that the file told before is left
/// over.
pub proof fn law_only_what_is_required_is_remembered(
    cache: Seq<(Seq<char>, Option<Seq<char>>)>,
    pairs: Seq<(Seq<char>, JsonView)>,
    key: Seq<char>,
)
    requires
        JsonView::Object(pairs).wf(),
        all_have_ids(cache),
    ensures
        at(resolutions(resolved_pairs(cache, pairs)), key) == (if key.len() > 0 && requires_key(
            pairs,
            pairs.len() as int,
            key,
        ) {
            at(cache, key)
        } else {
            None
        }),
{
    let out = resolved_pairs(cache, pairs);
    let n = pairs.len() as int;
    lemma_resolutions(cache, pairs, n);
    assert(out.take(n) =~= out);
    if key.len() > 0 && requires_key(pairs, n, key) && at(cache, key) is Some {
        let (i, modid) = choose|i: int, modid: Seq<char>|
            0 <= i < n && i < pairs.len() && #[trigger] pairs[i].1.strings("require"@).contains(
                modid,
            ) && key_of(modid) == key;
        assert(pairs[i].1.strings("require"@).contains(modid));
        assert(at(resolutions(out), key_of(modid)) is Some);
    }
}

/// What was found out of a mod id that an installed item requires is remembered:
/// once it is written down, it is read back.
pub proof fn law_resolutions_are_remembered(
    cache: Seq<(Seq<char>, Option<Seq<char>>)>,
    pairs: Seq<(Seq<char>, JsonView)>,
    id: Seq<char>,
    modid: Seq<char>,
)
    requires
        JsonView::Object(pairs).wf(),
        all_have_ids(cache),
        lookup(pairs, id) matches Some(entry) && entry.strings("require"@).contains(modid),
        key_of(modid).len() > 0,
        at(cache, key_of(modid)) is Some,
    ensures
        at(resolutions(resolved_pairs(cache, pairs)), key_of(modid)) == at(cache, key_of(modid)),
{
    let out = resolved_pairs(cache, pairs);
    lemma_resolutions(cache, pairs, pairs.len() as int);
    assert(out.take(pairs.len() as int) =~= out);
    lemma_key_from(pairs, id, 0);
    let i = key_from(pairs, id, 0)->Some_0;
    assert(pairs[i].1.strings("require"@).contains(modid));
    assert(at(resolutions(out), key_of(modid)) is Some);
}

/// What fits into some levels fits into more.
pub proof fn lemma_nests_more(m: JsonView, a: nat, b: nat)
    requires
        a <= b,
        m.nests(a),
    ensures
        m.nests(b),
    decreases a,
{
    match m {
        JsonView::Array(s) => {
            assert forall|i: int| 0 <= i < s.len() implies (#[trigger] s[i]).nests(
                (b - 1) as nat,
            ) by {
                assert(s[i].nests((a - 1) as nat));
                lemma_nests_more(s[i], (a - 1) as nat, (b - 1) as nat);
            }
        },
        JsonView::Object(s) => {
            assert forall|i: int| 0 <= i < s.len() implies (#[trigger] s[i]).1.nests(
                (b - 1) as nat,
            ) by {
                assert(s[i].1.nests((a - 1) as nat));
                lemma_nests_more(s[i].1, (a - 1) as nat, (b - 1) as nat);
            }
        },
        _ => {},
    }
}

/// The `resolved` object of an entry.
fn resolved_object(cache: &Table<Option<String>>, needs: &Vec<String>) -> (r: Json)
    ensures
        r.model() == JsonView::Object(resolved_fields(cache.deep_view(), needs.deep_view())),
{
    let mut pairs: Vec<(String, Json)> = Vec::new();
    let ghost all = needs.deep_view();
    let ghost known = cache.deep_view();
    let mut i: usize = 0;
    assert(pairs_of(pairs@) =~= seq![]);
    while i < needs.len()
        invariant
            i <= needs.len(),
            all == needs.deep_view(),
            known == cache.deep_view(),
            pairs_of(pairs@) == resolved_fields(known, all.take(i as int)),
        decreases needs.len() - i,
    {
        assert(all.take(i + 1).drop_last() =~= all.take(i as int));
        let key = modid_key(needs[i].as_str());
        match cache.get(key.as_str()) {
            Some(Some(id)) => {
                put(&mut pairs, needs[i].as_str(), Json::Str(id.clone()));
            },
            Some(None) => {
                put(&mut pairs, needs[i].as_str(), Json::Null);
            },
            None => {},
        }
        i += 1;
    }
    assert(all.take(needs.len() as int) =~= all);
    proof {
        lemma_object_model(pairs);
    }
    Json::Object(pairs)
}

/// Writes down in the entries which items provide the mod ids that they
/// require, as far as it is known. Gives whether an entry changed: only then is
/// the state file written.
pub fn persist_resolutions(state: &mut Vec<(String, Json)>, cache: &Table<Option<String>>) -> (r:
    bool)
    ensures
        pairs_of(final(state)@) == resolved_pairs(cache.deep_view(), pairs_of(old(state)@)),
        JsonView::Object(pairs_of(old(state)@)).wf() ==> JsonView::Object(
            pairs_of(final(state)@),
        ).wf(),
        r == exists|i: int|
            0 <= i < old(state)@.len() && !tells(
                cache.deep_view(),
                #[trigger] pairs_of(old(state)@)[i].1,
            ),
{
    let ghost before = pairs_of(state@);
    let ghost known = cache.deep_view();
    let ghost after = resolved_pairs(known, before);
    let mut changed = false;
    let mut i: usize = 0;
    while i < state.len()
        invariant
            i <= state.len(),
            state.len() == before.len(),
            known == cache.deep_view(),
            after == resolved_pairs(known, before),
            forall|k: int| 0 <= k < i ==> #[trigger] pairs_of(state@)[k] == after[k],
            forall|k: int| i <= k < before.len() ==> #[trigger] pairs_of(state@)[k] == before[k],
            changed == exists|k: int| 0 <= k < i && !tells(known, #[trigger] before[k].1),
        decreases state.len() - i,
    {
        let ghost was = pairs_of(state@);
        assert(was[i as int] == before[i as int]);
        assert(was[i as int] == (state@[i as int].0@, state@[i as int].1.model()));
        let is_object = match &state[i].1 {
            Json::Object(_) => true,
            _ => false,
        };
        if is_object {
            let needs = state[i].1.strings("require");
            let value = resolved_object(cache, &needs);
            let same_value = match state[i].1.get("resolved") {
                Some(v) => v.equals(&value),
                None => false,
            };
            if !same_value {
                let (id, entry) = state.remove(i);
                let ghost m = entry.model();
                match entry {
                    Json::Object(mut fields) => {
                        proof {
                            lemma_object_model(fields);
                        }
                        put(&mut fields, "resolved", value);
                        let out = Json::Object(fields);
                        proof {
                            lemma_object_model(fields);
                            assert(out.model() == resolved_entry(known, m));
                        }
                        state.insert(i, (id, out));
                    },
                    other => {
                        state.insert(i, (id, other));
                    },
                }
                changed = true;
                assert(pairs_of(state@) =~= was.update(
                    i as int,
                    (was[i as int].0, resolved_entry(known, m)),
                ));
                assert(!tells(known, before[i as int].1));
            }
        }
        assert(pairs_of(state@)[i as int] == after[i as int]);
        i += 1;
    }
    assert(pairs_of(state@) =~= after);
    proof {
        law_resolved_pairs_stay_sound(known, before, 3);
    }
    changed
}

/// The items that provide the mod ids of one entry, first come.
pub open spec fn with_modids(
    providers: Seq<(Seq<char>, Seq<char>)>,
    id: Seq<char>,
    modids: Seq<Seq<char>>,
) -> Seq<(Seq<char>, Seq<char>)>
    decreases modids.len(),
{
    if modids.len() == 0 {
        providers
    } else {
        or_set(with_modids(providers, id, modids.drop_last()), lowercase(modids.last()), id)
    }
}

/// The items whose entries are complete, under the keys of the mod ids that
/// they provide.
pub open spec fn providers_of(pairs: Seq<(Seq<char>, JsonView)>, disk: Disk) -> Seq<
    (Seq<char>, Seq<char>),
>
    decreases pairs.len(),
{
    if pairs.len() == 0 {
        seq![]
    } else {
        let r = providers_of(pairs.drop_last(), disk);
        if complete(pairs.last().1, disk) {
            with_modids(r, pairs.last().0, pairs.last().1.strings("modids"@))
        } else {
            r
        }
    }
}

/// Names `id` as the provider of `modids`, as far as they have none.
pub fn provide(providers: &mut Table<String>, id: &str, modids: &Vec<String>)
    ensures
        final(providers).deep_view() == with_modids(
            old(providers).deep_view(),
            id@,
            modids.deep_view(),
        ),
{
    let ghost before = providers.deep_view();
    let ghost all = modids.deep_view();
    let mut i: usize = 0;
    while i < modids.len()
        invariant
            i <= modids.len(),
            all == modids.deep_view(),
            providers.deep_view() == with_modids(before, id@, all.take(i as int)),
        decreases modids.len() - i,
    {
        assert(all.take(i + 1).drop_last() =~= all.take(i as int));
        providers.set_missing(to_lower(modids[i].as_str()), id.to_string());
        i += 1;
    }
    assert(all.take(modids.len() as int) =~= all);
}

/// The installed items, under the keys of the mod ids that they provide.
pub fn installed_providers(state: &Vec<(String, Json)>, disk: &Disk) -> (r: Table<String>)
    ensures
        r.deep_view() == providers_of(pairs_of(state@), *disk),
{
    let mut r: Table<String> = Table::new();
    let ghost all = pairs_of(state@);
    let mut i: usize = 0;
    while i < state.len()
        invariant
            i <= state.len(),
            all == pairs_of(state@),
            r.deep_view() == providers_of(all.take(i as int), *disk),
        decreases state.len() - i,
    {
        assert(all.take(i + 1).drop_last() =~= all.take(i as int));
        if entry_complete(&state[i].1, disk) {
            let modids = state[i].1.strings("modids");
            provide(&mut r, state[i].0.as_str(), &modids);
        }
        i += 1;
    }
    assert(all.take(state.len() as int) =~= all);
    r
}

} // verus!
