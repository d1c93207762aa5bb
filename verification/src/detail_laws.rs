//! What is shown of items and folders: everything that is known of them, each thing
//! where it is looked for.
use vstd::prelude::*;

use crate::browse::{card_fields, plain_description};
use crate::detail::{
    any_present, detail_view, entry_or_null, folders_view, found_names, installed_items,
    loose_folders, more_fields, needs_view, only_in, owned, Needs,
};
use crate::folder::Disk;
use crate::json::{
    fields_of, lemma_fields_lookup, lookup, object_of, JsonView, NumberView,
};
use crate::table::at;
use crate::text::is_id;

verus! {

/// An object has under a key what was put there last.
proof fn lemma_field(fields: Seq<(Seq<char>, JsonView)>, k: int)
    requires
        0 <= k < fields.len(),
        forall|j: int| k < j < fields.len() ==> (#[trigger] fields[j]).0 != fields[k].0,
    ensures
        object_of(fields).field(fields[k].0) == Some(fields[k].1),
{
    lemma_fields_lookup(fields, k);
}

proof fn lemma_detail_keys()
    ensures
        "id"@.len() == 2,
        "subs"@.len() == 4,
        "size"@.len() == 4,
        "tags"@.len() == 4,
        "title"@.len() == 5,
        "views"@.len() == 5,
        "modids"@.len() == 6,
        "preview"@.len() == 7,
        "updated"@.len() == 7,
        "summary"@.len() == 7,
        "created"@.len() == 7,
        "folders"@.len() == 7,
        "require"@.len() == 7,
        "present"@.len() == 7,
        "children"@.len() == 8,
        "required"@.len() == 8,
        "resolved"@.len() == 8,
        "favorited"@.len() == 9,
        "installed"@.len() == 9,
        "description"@.len() == 11,
        "req_blocked"@.len() == 11,
        "subs"@ != "size"@,
        "subs"@ != "tags"@,
        "size"@ != "tags"@,
        "title"@ != "views"@,
        "preview"@ != "updated"@,
        "preview"@ != "summary"@,
        "preview"@ != "created"@,
        "preview"@ != "folders"@,
        "updated"@ != "summary"@,
        "updated"@ != "created"@,
        "updated"@ != "folders"@,
        "updated"@ != "require"@,
        "updated"@ != "present"@,
        "summary"@ != "created"@,
        "summary"@ != "folders"@,
        "created"@ != "folders"@,
        "require"@ != "folders"@,
        "require"@ != "present"@,
        "folders"@ != "present"@,
        "children"@ != "required"@,
        "description"@ != "req_blocked"@,
{
    reveal_strlit("id");
    reveal_strlit("subs");
    reveal_strlit("size");
    reveal_strlit("tags");
    reveal_strlit("title");
    reveal_strlit("views");
    reveal_strlit("modids");
    reveal_strlit("preview");
    reveal_strlit("updated");
    reveal_strlit("summary");
    reveal_strlit("created");
    reveal_strlit("folders");
    reveal_strlit("require");
    reveal_strlit("present");
    reveal_strlit("children");
    reveal_strlit("required");
    reveal_strlit("resolved");
    reveal_strlit("favorited");
    reveal_strlit("installed");
    reveal_strlit("description");
    reveal_strlit("req_blocked");
    assert("subs"@[1] != "size"@[1]);
    assert("subs"@[0] != "tags"@[0]);
    assert("size"@[0] != "tags"@[0]);
    assert("title"@[0] != "views"@[0]);
    assert("preview"@[0] == 'p' && "present"@[0] == 'p');
    assert("updated"@[0] == 'u');
    assert("summary"@[0] == 's');
    assert("created"@[0] == 'c');
    assert("folders"@[0] == 'f');
    assert("require"@[0] == 'r');
    assert("children"@[0] != "required"@[0]);
    assert("description"@[0] != "req_blocked"@[0]);
}

/// The page of an item shows what the workshop tells of it: all that its card does,
/// the whole description, and the numbers.
pub proof fn law_the_page_shows_the_item(
    id: Seq<char>,
    item: JsonView,
    children: u64,
    pairs: Seq<(Seq<char>, JsonView)>,
    disk: Disk,
    needs: Needs,
)
    requires
        is_id(id),
    ensures
        ({
            let d = detail_view(id, Some(item), children, pairs, disk, needs);
            &&& forall|k: int|
                0 <= k < card_fields(item).len() ==> d.field((#[trigger] card_fields(item)[k]).0)
                    == Some(card_fields(item)[k].1)
            &&& d.field("description"@) == Some(JsonView::Str(plain_description(item)))
            &&& d.field("children"@) == Some(JsonView::Number(NumberView::Unsigned(children)))
            &&& d.field("created"@) == Some(
                JsonView::Number(NumberView::Unsigned(item.number("time_created"@))),
            )
            &&& d.field("views"@) == Some(
                JsonView::Number(NumberView::Unsigned(item.number("views"@))),
            )
            &&& d.field("favorited"@) == Some(
                JsonView::Number(NumberView::Unsigned(item.number("favorited"@))),
            )
        }),
{
    lemma_detail_keys();
    let c = card_fields(item);
    let f = c + more_fields(item, children, entry_or_null(pairs, id), disk, pairs, needs);
    lemma_detail_positions(id, item, children, pairs, disk, needs);
    lemma_field(f, 8);
    lemma_field(f, 9);
    lemma_field(f, 10);
    lemma_field(f, 11);
    lemma_field(f, 12);
    assert forall|k: int| 0 <= k < c.len() implies object_of(f).field((#[trigger] c[k]).0) == Some(
        c[k].1,
    ) by {
        assert(f[k] == c[k]);
        lemma_field(f, k);
    }
}

proof fn lemma_detail_positions(
    id: Seq<char>,
    item: JsonView,
    children: u64,
    pairs: Seq<(Seq<char>, JsonView)>,
    disk: Disk,
    needs: Needs,
)
    ensures
        ({
            let f = card_fields(item) + more_fields(
                item,
                children,
                entry_or_null(pairs, id),
                disk,
                pairs,
                needs,
            );
            &&& f.len() == 16 || f.len() == 17
            &&& card_fields(item).len() == 8
            &&& f[0].0 == "id"@
            &&& f[1].0 == "title"@
            &&& f[2].0 == "preview"@
            &&& f[3].0 == "subs"@
            &&& f[4].0 == "size"@
            &&& f[5].0 == "updated"@
            &&& f[6].0 == "tags"@
            &&& f[7].0 == "summary"@
            &&& f[8].0 == "description"@
            &&& f[9].0 == "children"@
            &&& f[10].0 == "created"@
            &&& f[11].0 == "views"@
            &&& f[12].0 == "favorited"@
            &&& f[13].0 == "folders"@
            &&& f[14].0 == "modids"@
            &&& f[15].0 == "required"@
            &&& f.len() == 17 ==> f[16].0 == "req_blocked"@
        }),
{
}

/// The page of an item shows the folders that it was installed to and the mod ids that
/// it has; none where it is not installed.
pub proof fn law_the_page_shows_what_is_installed(
    id: Seq<char>,
    item: JsonView,
    children: u64,
    pairs: Seq<(Seq<char>, JsonView)>,
    disk: Disk,
    needs: Needs,
)
    requires
        is_id(id),
    ensures
        ({
            let d = detail_view(id, Some(item), children, pairs, disk, needs);
            match lookup(pairs, id) {
                Some(entry) => {
                    &&& d.list("folders"@).len() == entry.strings("folders"@).len()
                    &&& forall|k: int|
                        0 <= k < entry.strings("folders"@).len() ==> shows_folder(
                            #[trigger] d.list("folders"@)[k],
                            entry.strings("folders"@)[k],
                            disk,
                        )
                    &&& entry.field("modids"@) is Some ==> d.field("modids"@) == entry.field(
                        "modids"@,
                    )
                    &&& entry.field("modids"@) is None ==> d.field("modids"@) is Some && d.list(
                        "modids"@,
                    ).len() == 0
                },
                None => d.field("folders"@) is Some && d.list("folders"@).len() == 0 && d.field(
                    "modids"@,
                ) is Some && d.list("modids"@).len() == 0,
            }
        }),
{
    lemma_detail_keys();
    let entry = entry_or_null(pairs, id);
    let f = card_fields(item) + more_fields(item, children, entry, disk, pairs, needs);
    lemma_detail_positions(id, item, children, pairs, disk, needs);
    lemma_field(f, 13);
    lemma_field(f, 14);
    law_folders_are_shown(entry.strings("folders"@), disk);
}

/// A folder is shown with its name, and with where it stands.
pub open spec fn shows_folder(shown: JsonView, folder: Seq<char>, disk: Disk) -> bool {
    &&& shown.field("name"@) == Some(JsonView::Str(folder))
    &&& shown.field("status"@) == Some(JsonView::Str(disk.status(folder).name()))
}

/// Every folder is shown, in its order, with its name and with where it stands.
pub proof fn law_folders_are_shown(folders: Seq<Seq<char>>, disk: Disk)
    ensures
        folders_view(folders, disk).items().len() == folders.len(),
        forall|k: int|
            0 <= k < folders.len() ==> shows_folder(
                #[trigger] folders_view(folders, disk).items()[k],
                folders[k],
                disk,
            ),
{
    reveal_strlit("name");
    reveal_strlit("status");
    assert forall|k: int| 0 <= k < folders.len() implies shows_folder(
        #[trigger] folders_view(folders, disk).items()[k],
        folders[k],
        disk,
    ) by {
        let f = seq![
            ("name"@, JsonView::Str(folders[k])),
            ("status"@, JsonView::Str(disk.status(folders[k]).name())),
        ];
        assert(folders_view(folders, disk).items()[k] == object_of(f));
        lemma_field(f, 0);
        lemma_field(f, 1);
    }
}

/// The page of an item shows each item that it needs, in their order: its id, what it is
/// called, and whether it is installed. Where its page could not be had this is said.
pub proof fn law_the_page_shows_what_is_needed(
    id: Seq<char>,
    item: JsonView,
    children: u64,
    pairs: Seq<(Seq<char>, JsonView)>,
    disk: Disk,
    needs: Needs,
)
    requires
        is_id(id),
    ensures
        ({
            let d = detail_view(id, Some(item), children, pairs, disk, needs);
            match needs {
                Needs::Known(ids, titles) => {
                    &&& d.list("required"@).len() == ids.deep_view().len()
                    &&& forall|k: int|
                        0 <= k < ids.deep_view().len() ==> shows_need(
                            #[trigger] d.list("required"@)[k],
                            ids.deep_view()[k],
                            titles.deep_view(),
                            pairs,
                        )
                    &&& d.field("req_blocked"@) is None
                },
                Needs::Blocked => {
                    &&& d.list("required"@).len() == 0
                    &&& d.field("req_blocked"@) == Some(JsonView::Bool(true))
                },
            }
        }),
{
    lemma_detail_keys();
    let entry = entry_or_null(pairs, id);
    let f = card_fields(item) + more_fields(item, children, entry, disk, pairs, needs);
    lemma_detail_positions(id, item, children, pairs, disk, needs);
    lemma_field(f, 15);
    match needs {
        Needs::Known(ids, titles) => {
            lemma_needs(ids.deep_view(), titles.deep_view(), pairs);
            assert(f.len() == 16);
            lemma_no_field(f, "req_blocked"@);
        },
        Needs::Blocked => {
            lemma_field(f, 16);
        },
    }
}

/// An object has nothing under a key that nothing was put under.
proof fn lemma_no_field(fields: Seq<(Seq<char>, JsonView)>, key: Seq<char>)
    requires
        forall|j: int| 0 <= j < fields.len() ==> (#[trigger] fields[j]).0 != key,
    ensures
        lookup(fields_of(fields), key) is None,
    decreases fields.len(),
{
    if fields.len() > 0 {
        let t = fields.drop_last();
        assert forall|j: int| 0 <= j < t.len() implies (#[trigger] t[j]).0 != key by {
            assert(fields[j].0 != key);
        }
        lemma_no_field(t, key);
        crate::json::lemma_fields_ascend(t);
        assert(fields[fields.len() - 1].0 != key);
        crate::json::law_with_field(fields_of(t), fields.last().0, fields.last().1);
    }
}

/// An item that another needs is shown: by its id, with the title that is known or the
/// id where none is, and with whether it is installed.
pub open spec fn shows_need(
    shown: JsonView,
    id: Seq<char>,
    titles: Seq<(Seq<char>, JsonView)>,
    pairs: Seq<(Seq<char>, JsonView)>,
) -> bool {
    &&& shown.field("id"@) == Some(JsonView::Str(id))
    &&& at(titles, id) is None ==> shown.field("title"@) == Some(JsonView::Str(id))
    &&& at(titles, id) matches Some(item) ==> shown.field("title"@) == Some(
        JsonView::Str(
            if item.string("title"@).len() > 0 {
                item.string("title"@)
            } else {
                id
            },
        ),
    )
    &&& shown.field("installed"@) == Some(JsonView::Bool(lookup(pairs, id) is Some))
}

proof fn lemma_needs(
    ids: Seq<Seq<char>>,
    titles: Seq<(Seq<char>, JsonView)>,
    pairs: Seq<(Seq<char>, JsonView)>,
)
    ensures
        needs_view(ids, titles, pairs).items().len() == ids.len(),
        forall|k: int|
            0 <= k < ids.len() ==> shows_need(
                #[trigger] needs_view(ids, titles, pairs).items()[k],
                ids[k],
                titles,
                pairs,
            ),
{
    lemma_detail_keys();
    assert forall|k: int| 0 <= k < ids.len() implies shows_need(
        #[trigger] needs_view(ids, titles, pairs).items()[k],
        ids[k],
        titles,
        pairs,
    ) by {
        let f = seq![
            ("id"@, JsonView::Str(ids[k])),
            ("title"@, JsonView::Str(crate::walk::title_of(titles, ids[k]))),
            ("installed"@, JsonView::Bool(lookup(pairs, ids[k]) is Some)),
        ];
        assert(needs_view(ids, titles, pairs).items()[k] == object_of(f));
        lemma_field(f, 0);
        lemma_field(f, 1);
        lemma_field(f, 2);
    }
}

/// A page that is none is refused: that of what is no id, and that of an item that the
/// workshop does not know.
pub proof fn law_what_is_no_item_is_refused(
    id: Seq<char>,
    found: Option<JsonView>,
    children: u64,
    pairs: Seq<(Seq<char>, JsonView)>,
    disk: Disk,
    needs: Needs,
)
    ensures
        ({
            let d = detail_view(id, found, children, pairs, disk, needs);
            &&& !is_id(id) ==> d.field("error"@) == Some(JsonView::Str("bad id"@))
            &&& is_id(id) && found is None ==> d.field("error"@) == Some(JsonView::Str("not found"@))
            &&& is_id(id) && found is Some ==> d.field("error"@) is None
        }),
{
    let bad = seq![("error"@, JsonView::Str("bad id"@))];
    let none = seq![("error"@, JsonView::Str("not found"@))];
    lemma_field(bad, 0);
    lemma_field(none, 0);
    if let Some(item) = found {
        lemma_detail_keys();
        reveal_strlit("error");
        assert("error"@[0] != "title"@[0] && "error"@[0] != "views"@[0]) by {
            reveal_strlit("title");
            reveal_strlit("views");
        }
        let f = card_fields(item) + more_fields(
            item,
            children,
            entry_or_null(pairs, id),
            disk,
            pairs,
            needs,
        );
        lemma_detail_positions(id, item, children, pairs, disk, needs);
        lemma_no_field(f, "error"@);
    }
}

/// Every installed item is shown, under its id and in its order: what it is called, how
/// large it is, from when it is, its mod ids and those that it requires, what is known of
/// them, its folders, and whether any of them is there.
pub proof fn law_every_installed_item_is_shown(
    pairs: Seq<(Seq<char>, JsonView)>,
    disk: Disk,
    k: int,
)
    requires
        0 <= k < pairs.len(),
    ensures
        installed_items(pairs, disk).len() == pairs.len(),
        installed_items(pairs, disk)[k].0 == pairs[k].0,
        ({
            let entry = pairs[k].1;
            let shown = installed_items(pairs, disk)[k].1;
            &&& (entry.field("title"@) matches Some(JsonView::Str(t)) ==> shown.field("title"@)
                == Some(JsonView::Str(t)))
            &&& !(entry.field("title"@) matches Some(JsonView::Str(_))) ==> shown.field("title"@)
                == Some(JsonView::Str(pairs[k].0))
            &&& shown.field("size"@) == Some(
                JsonView::Number(NumberView::Unsigned(entry.number("size"@))),
            )
            &&& shown.field("updated"@) == Some(
                JsonView::Number(NumberView::Unsigned(entry.number("updated"@))),
            )
            &&& entry.field("modids"@) is Some ==> shown.field("modids"@) == entry.field("modids"@)
            &&& entry.field("modids"@) is None ==> shown.field("modids"@) == Some(
                JsonView::Array(seq![]),
            )
            &&& entry.field("require"@) is Some ==> shown.field("require"@) == entry.field(
                "require"@,
            )
            &&& entry.field("require"@) is None ==> shown.field("require"@) == Some(
                JsonView::Array(seq![]),
            )
            &&& entry.field("resolved"@) is Some ==> shown.field("resolved"@) == entry.field(
                "resolved"@,
            )
            &&& entry.field("resolved"@) is None ==> shown.field("resolved"@) == Some(
                JsonView::Object(seq![]),
            )
            &&& shown.list("folders"@).len() == entry.strings("folders"@).len()
            &&& forall|j: int|
                0 <= j < entry.strings("folders"@).len() ==> shows_folder(
                    #[trigger] shown.list("folders"@)[j],
                    entry.strings("folders"@)[j],
                    disk,
                )
            &&& shown.field("present"@) == Some(
                JsonView::Bool(
                    exists|j: int|
                        0 <= j < entry.strings("folders"@).len() && is_there(
                            #[trigger] entry.strings("folders"@)[j],
                            disk,
                        ),
                ),
            )
        }),
{
    lemma_detail_keys();
    let id = pairs[k].0;
    let entry = pairs[k].1;
    let folders = entry.strings("folders"@);
    let f = seq![
        ("title"@, JsonView::Str(crate::remove::entry_title(entry, id))),
        ("size"@, JsonView::Number(NumberView::Unsigned(entry.number("size"@)))),
        ("updated"@, JsonView::Number(NumberView::Unsigned(entry.number("updated"@)))),
        ("modids"@, crate::detail::field_or(entry, "modids"@, JsonView::Array(seq![]))),
        ("require"@, crate::detail::field_or(entry, "require"@, JsonView::Array(seq![]))),
        ("resolved"@, crate::detail::field_or(entry, "resolved"@, JsonView::Object(seq![]))),
        ("folders"@, folders_view(folders, disk)),
        ("present"@, JsonView::Bool(any_present(folders, disk))),
    ];
    assert(installed_items(pairs, disk)[k].1 == object_of(f));
    lemma_field(f, 0);
    lemma_field(f, 1);
    lemma_field(f, 2);
    lemma_field(f, 3);
    lemma_field(f, 4);
    lemma_field(f, 5);
    lemma_field(f, 6);
    lemma_field(f, 7);
    law_folders_are_shown(folders, disk);
    let there = exists|j: int| 0 <= j < folders.len() && is_there(#[trigger] folders[j], disk);
    if any_present(folders, disk) {
        let i = choose|i: int|
            0 <= i < folders.len() && (disk.status(#[trigger] folders[i]).settled() || disk.status(
                folders[i],
            ) is Collision);
        assert(is_there(folders[i], disk));
    }
    if there {
        let i = choose|j: int| 0 <= j < folders.len() && is_there(#[trigger] folders[j], disk);
        assert(disk.status(folders[i]).settled() || disk.status(folders[i]) is Collision);
    }
}

/// A folder that can be one is in one of the two places, or in both.
pub open spec fn is_there(folder: Seq<char>, disk: Disk) -> bool {
    crate::folder::folder_ok(folder) && (disk.mods.deep_view().contains(folder)
        || disk.off.deep_view().contains(folder))
}

/// A folder belongs to an item exactly where the entry of one has it.
pub proof fn law_folders_belong_to_the_items_that_have_them(
    pairs: Seq<(Seq<char>, JsonView)>,
    folder: Seq<char>,
)
    ensures
        owned(pairs).contains(folder) <==> exists|k: int|
            0 <= k < pairs.len() && (#[trigger] pairs[k]).1.strings("folders"@).contains(folder),
    decreases pairs.len(),
{
    if pairs.len() > 0 {
        let t = pairs.drop_last();
        law_folders_belong_to_the_items_that_have_them(t, folder);
        let a = owned(t);
        let b = pairs.last().1.strings("folders"@);
        if a.contains(folder) {
            let i = choose|i: int| 0 <= i < a.len() && a[i] == folder;
            assert((a + b)[i] == folder);
            let k = choose|k: int|
                0 <= k < t.len() && (#[trigger] t[k]).1.strings("folders"@).contains(folder);
            assert(pairs[k] == t[k]);
        }
        if b.contains(folder) {
            let i = choose|i: int| 0 <= i < b.len() && b[i] == folder;
            assert((a + b)[a.len() + i] == folder);
            assert(pairs[pairs.len() - 1].1.strings("folders"@).contains(folder));
        }
        if owned(pairs).contains(folder) {
            let i = choose|i: int| 0 <= i < (a + b).len() && (a + b)[i] == folder;
            if i < a.len() {
                assert(a[i] == folder);
            } else {
                assert(b[i - a.len()] == folder);
            }
        }
        if exists|k: int|
            0 <= k < pairs.len() && (#[trigger] pairs[k]).1.strings("folders"@).contains(folder) {
            let k = choose|k: int|
                0 <= k < pairs.len() && (#[trigger] pairs[k]).1.strings("folders"@).contains(folder);
            if k < t.len() {
                assert(t[k] == pairs[k]);
            }
        }
    }
}

/// A folder that belongs to no item is shown with its name, whether it is enabled, and
/// how it stands: enabled where it is in `mods` alone, disabled where it is in
/// `mods_off` alone, a collision where it is in both.
pub proof fn law_loose_folders_are_shown_as_they_stand(
    on: Seq<Seq<char>>,
    off: Seq<Seq<char>>,
    pairs: Seq<(Seq<char>, JsonView)>,
    k: int,
)
    requires
        0 <= k < loose_folders(on, off, pairs).len(),
    ensures
        ({
            let f = loose_folders(on, off, pairs)[k];
            &&& f.enabled == on.contains(f.name)
            &&& on.contains(f.name) && !off.contains(f.name) ==> f.status == "enabled"@
            &&& on.contains(f.name) && off.contains(f.name) ==> f.status == "collision"@
            &&& !on.contains(f.name) && off.contains(f.name) ==> f.status == "disabled"@
        }),
{
    crate::detail::law_every_folder_is_seen(on, off, pairs);
}

proof fn lemma_only_in_is_filter(list: Seq<Seq<char>>, other: Seq<Seq<char>>)
    ensures
        only_in(list, other) == list.filter(|n: Seq<char>| !other.contains(n)),
    decreases list.len(),
{
    reveal(Seq::filter);
    if list.len() > 0 {
        lemma_only_in_is_filter(list.drop_last(), other);
    }
}

/// The loose folders are shown each once and in order of listing: they are what the
/// listing of all folders has, those that belong to items apart.
pub proof fn law_loose_folders_are_listed(
    on: Seq<Seq<char>>,
    off: Seq<Seq<char>>,
    pairs: Seq<(Seq<char>, JsonView)>,
)
    ensures
        ({
            let a = crate::names::listed(on);
            let b = crate::names::listed(off).filter(|n: Seq<char>| !a.contains(n));
            loose_folders(on, off, pairs).map_values(|f: crate::detail::FolderView| f.name)
                == crate::names::listed(a + b).filter(|n: Seq<char>| !owned(pairs).contains(n))
        }),
{
    let a = crate::names::listed(on);
    let b = crate::names::listed(off);
    lemma_only_in_is_filter(b, a);
    lemma_only_in_is_filter(crate::names::listed(found_names(a, b)), owned(pairs));
    let l = loose_folders(on, off, pairs).map_values(|f: crate::detail::FolderView| f.name);
    let w = only_in(crate::names::listed(found_names(a, b)), owned(pairs));
    assert(l =~= w);
}

} // verus!
