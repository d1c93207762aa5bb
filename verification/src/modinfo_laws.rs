//! What reading an item promises: no mod folder and no `mod.info` is overlooked, and
//! everything that a `mod.info` says is heard.
use vstd::prelude::*;

use crate::folder::folder_check;
use crate::modinfo::{
    all_infos, distinct, first_unread, ids_in, ids_of, info_of, info_value, infos_below,
    infos_here, infos_in, is_directory, last_value, law_distinct, line_pair, lossy_text, lower_all,
    metadata_of, names_of, needs_in, needs_of, normal_parts, normalized, provides, roots_among,
    roots_of, skip_marks, skip_slashes, text_value, with_entry, EntryView, InfoView, NodeView,
    RootView, RootsView, SourceView,
};
use crate::names::{law_listing_order_is_a_permutation, listing_order, lowercase};
use crate::text::{
    contains, index_of, is_white_space, lemma_index_of, occurs_at, split, split_from, trimmed,
};
use crate::text_laws::{
    is_middle, is_piece, is_piece_of, law_splitting_gives_the_pieces,
    law_the_middle_is_what_trimming_leaves, law_trimming_leaves_the_middle,
};

verus! {

/// The entry is the `mod.info` file `info`.
pub open spec fn is_this(e: EntryView, info: InfoView) -> bool {
    &&& e.name == "mod.info"@
    &&& info.path == e.path
    &&& match e.node {
        NodeView::File(bytes) => info.bytes == Ok::<Seq<u8>, Seq<char>>(bytes),
        NodeView::Unread(why) => info.bytes == Err::<Seq<u8>, Seq<char>>(why),
        _ => false,
    }
}

/// The `mod.info` file `info` stands in the directory `node`, at any depth.
pub open spec fn stands_in(node: NodeView, info: InfoView) -> bool
    decreases node,
{
    match node {
        NodeView::Dir(entries) => exists|i: int|
            0 <= i < entries.len() && (is_this(#[trigger] entries[i], info) || stands_in(
                entries[i].node,
                info,
            )),
        _ => false,
    }
}

/// A directory cannot be listed: the directory `node` or one in it, at any depth.
pub open spec fn is_broken(node: NodeView) -> bool
    decreases node,
{
    match node {
        NodeView::Dir(entries) => exists|i: int|
            0 <= i < entries.len() && is_broken((#[trigger] entries[i]).node),
        NodeView::Broken(_) => true,
        _ => false,
    }
}

proof fn lemma_infos_here(entries: Seq<EntryView>, order: Seq<int>)
    requires
        forall|k: int| 0 <= k < order.len() ==> 0 <= #[trigger] order[k] < entries.len(),
    ensures
        forall|info: InfoView|
            #[trigger] infos_here(entries, order).contains(info) <==> exists|k: int|
                0 <= k < order.len() && is_this(entries[#[trigger] order[k]], info),
    decreases order.len(),
{
    if order.len() > 0 {
        let t = order.drop_last();
        assert forall|k: int| 0 <= k < t.len() implies 0 <= #[trigger] t[k] < entries.len() by {
            assert(t[k] == order[k]);
        }
        lemma_infos_here(entries, t);
        let before = infos_here(entries, t);
        let all = infos_here(entries, order);
        let e = entries[order.last()];
        assert forall|info: InfoView| #[trigger] all.contains(info) <==> exists|k: int|
            0 <= k < order.len() && is_this(entries[#[trigger] order[k]], info) by {
            assert(info_of(e) == Some(info) <==> is_this(e, info));
            if all.contains(info) {
                let i = choose|i: int| 0 <= i < all.len() && all[i] == info;
                if i < before.len() {
                    assert(before[i] == info);
                    assert(before.contains(info));
                    let k = choose|k: int| 0 <= k < t.len() && is_this(entries[#[trigger] t[k]], info);
                    assert(order[k] == t[k]);
                } else {
                    assert(is_this(entries[order[order.len() - 1]], info));
                }
            }
            if exists|k: int| 0 <= k < order.len() && is_this(entries[#[trigger] order[k]], info) {
                let k = choose|k: int|
                    0 <= k < order.len() && is_this(entries[#[trigger] order[k]], info);
                if k < t.len() {
                    assert(t[k] == order[k]);
                    assert(before.contains(info));
                    let i = choose|i: int| 0 <= i < before.len() && before[i] == info;
                    assert(all[i] == info);
                } else {
                    assert(all[before.len() as int] == info);
                }
            }
        }
    }
}

proof fn lemma_infos_below(entries: Seq<EntryView>, order: Seq<int>, n: nat)
    requires
        n <= order.len(),
        forall|k: int| 0 <= k < order.len() ==> 0 <= #[trigger] order[k] < entries.len(),
    ensures
        match infos_below(entries, order, n) {
            Ok(r) => {
                &&& forall|k: int|
                    0 <= k < n ==> !is_broken(entries[#[trigger] order[k]].node)
                &&& forall|info: InfoView|
                    #[trigger] r.contains(info) <==> exists|k: int|
                        0 <= k < n && stands_in(entries[#[trigger] order[k]].node, info)
            },
            Err(_) => exists|k: int| 0 <= k < n && is_broken(entries[#[trigger] order[k]].node),
        },
    decreases entries, n,
{
    if n > 0 {
        lemma_infos_below(entries, order, (n - 1) as nat);
        let e = entries[order[n - 1]];
        if is_directory(e.node) {
            lemma_infos(e.path, e.node);
        }
        match infos_below(entries, order, n) {
            Err(_) => {
                if infos_below(entries, order, (n - 1) as nat) is Ok {
                    assert(is_broken(entries[order[n - 1]].node));
                }
            },
            Ok(all) => {
                let before = infos_below(entries, order, (n - 1) as nat)->Ok_0;
                let more = if is_directory(e.node) {
                    infos_in(e.path, e.node)->Ok_0
                } else {
                    seq![]
                };
                assert(all =~= before + more);
                assert forall|info: InfoView| #[trigger] all.contains(info) <==> exists|k: int|
                    0 <= k < n && stands_in(entries[#[trigger] order[k]].node, info) by {
                    if all.contains(info) {
                        let i = choose|i: int| 0 <= i < all.len() && all[i] == info;
                        if i < before.len() {
                            assert(before[i] == info);
                            assert(before.contains(info));
                        } else {
                            assert(more[i - before.len()] == info);
                            assert(more.contains(info));
                            assert(stands_in(entries[order[n - 1]].node, info));
                        }
                    }
                    if exists|k: int|
                        0 <= k < n && stands_in(entries[#[trigger] order[k]].node, info) {
                        let k = choose|k: int|
                            0 <= k < n && stands_in(entries[#[trigger] order[k]].node, info);
                        if k < n - 1 {
                            assert(before.contains(info));
                            let i = choose|i: int| 0 <= i < before.len() && before[i] == info;
                            assert(all[i] == info);
                        } else {
                            assert(more.contains(info));
                            let i = choose|i: int| 0 <= i < more.len() && more[i] == info;
                            assert(all[before.len() + i] == info);
                        }
                    }
                }
            },
        }
    }
}

proof fn lemma_infos(path: Seq<char>, node: NodeView)
    ensures
        match infos_in(path, node) {
            Ok(infos) => !is_broken(node) && forall|info: InfoView|
                #[trigger] infos.contains(info) <==> stands_in(node, info),
            Err(_) => is_broken(node),
        },
    decreases node, 0nat,
{
    match node {
        NodeView::Dir(entries) => {
            let order = listing_order(names_of(entries));
            law_listing_order_is_a_permutation(names_of(entries));
            assert forall|k: int| 0 <= k < order.len() implies 0 <= #[trigger] order[k]
                < entries.len() by {
                assert(0 <= k < names_of(entries).len());
            }
            lemma_infos_below(entries, order, order.len());
            lemma_infos_here(entries, order);
            match infos_in(path, node) {
                Err(_) => {
                    let k = choose|k: int|
                        0 <= k < order.len() && is_broken(entries[#[trigger] order[k]].node);
                    assert(is_broken(entries[order[k]].node));
                },
                Ok(infos) => {
                    let here = infos_here(entries, order);
                    let below = infos_below(entries, order, order.len())->Ok_0;
                    assert forall|i: int| 0 <= i < entries.len() implies !is_broken(
                        (#[trigger] entries[i]).node,
                    ) by {
                        assert(order.contains(i));
                        let k = choose|k: int| 0 <= k < order.len() && order[k] == i;
                        assert(!is_broken(entries[order[k]].node));
                    }
                    assert forall|info: InfoView| #[trigger] infos.contains(info) <==> stands_in(
                        node,
                        info,
                    ) by {
                        if infos.contains(info) {
                            let i = choose|i: int| 0 <= i < infos.len() && infos[i] == info;
                            if i < here.len() {
                                assert(here[i] == info);
                                assert(here.contains(info));
                                let k = choose|k: int|
                                    0 <= k < order.len() && is_this(entries[#[trigger] order[k]], info);
                                assert(is_this(entries[order[k]], info));
                            } else {
                                assert(below[i - here.len()] == info);
                                assert(below.contains(info));
                                let k = choose|k: int|
                                    0 <= k < order.len() && stands_in(
                                        entries[#[trigger] order[k]].node,
                                        info,
                                    );
                                assert(stands_in(entries[order[k]].node, info));
                            }
                        }
                        if stands_in(node, info) {
                            let j = choose|j: int|
                                0 <= j < entries.len() && (is_this(#[trigger] entries[j], info)
                                    || stands_in(entries[j].node, info));
                            assert(order.contains(j));
                            let k = choose|k: int| 0 <= k < order.len() && order[k] == j;
                            if is_this(entries[order[k]], info) {
                                assert(here.contains(info));
                                let i = choose|i: int| 0 <= i < here.len() && here[i] == info;
                                assert(infos[i] == info);
                            } else {
                                assert(stands_in(entries[order[k]].node, info));
                                assert(below.contains(info));
                                let i = choose|i: int| 0 <= i < below.len() && below[i] == info;
                                assert(infos[here.len() + i] == info);
                            }
                        }
                    }
                },
            }
        },
        NodeView::Broken(_) => {},
        _ => {
            assert(infos_in(path, node)->Ok_0.len() == 0);
        },
    }
}

/// Every `mod.info` in a directory is found, at whatever depth it stands, and nothing
/// else; the search fails just where a directory cannot be listed.
pub proof fn law_every_mod_info_is_found(path: Seq<char>, node: NodeView)
    ensures
        infos_in(path, node) is Err <==> is_broken(node),
        infos_in(path, node) matches Ok(infos) ==> forall|info: InfoView|
            #[trigger] infos.contains(info) <==> stands_in(node, info),
{
    lemma_infos(path, node);
}

/// An entry that is looked into: a directory with a name that a mod folder can have.
pub open spec fn is_looked_into(e: EntryView) -> bool {
    (e.node is Dir || e.node is Broken) && e.unicode && folder_check(e.name) is Ok
}

/// An entry that is a mod folder: it is looked into, and a `mod.info` stands in it, at
/// any depth.
pub open spec fn is_mod_folder(e: EntryView) -> bool {
    is_looked_into(e) && exists|info: InfoView| #[trigger] stands_in(e.node, info)
}

/// The root tells of the entry: its name, its path, and the `mod.info` files in it.
pub open spec fn tells_of(root: RootView, e: EntryView) -> bool {
    &&& root.folder == e.name
    &&& root.path == e.path
    &&& forall|info: InfoView| #[trigger] root.infos.contains(info) <==> stands_in(e.node, info)
}

/// A line that is told names the path of the entry.
pub open spec fn is_warned_of(warnings: Seq<Seq<char>>, e: EntryView) -> bool {
    exists|i: int| 0 <= i < warnings.len() && contains(#[trigger] warnings[i], e.path)
}

/// One of the roots tells of the entry.
pub open spec fn has_root(roots: Seq<RootView>, e: EntryView) -> bool {
    exists|j: int| 0 <= j < roots.len() && tells_of(#[trigger] roots[j], e)
}

/// The root tells of one of the entries, which is a mod folder.
pub open spec fn is_root_among(root: RootView, entries: Seq<EntryView>) -> bool {
    exists|i: int|
        0 <= i < entries.len() && is_mod_folder(#[trigger] entries[i]) && tells_of(
            root,
            entries[i],
        )
}

proof fn lemma_with_entry(r: RootsView, e: EntryView)
    requires
        r.roots is Ok,
    ensures
        ({
            let w = with_entry(r, e);
            let olds = r.roots->Ok_0;
            &&& w.roots is Err <==> is_looked_into(e) && is_broken(e.node)
            &&& w.roots matches Ok(news) ==> if is_mod_folder(e) {
                news.len() == olds.len() + 1 && news.drop_last() == olds && tells_of(news.last(), e)
            } else {
                news == olds
            }
            &&& if is_directory(e.node) && !is_looked_into(e) {
                w.warnings.len() == r.warnings.len() + 1 && w.warnings.drop_last() == r.warnings
                    && contains(w.warnings.last(), e.path)
            } else {
                w.warnings == r.warnings
            }
        }),
{
    lemma_infos(e.path, e.node);
    lemma_line_names_path(e);
    let w = with_entry(r, e);
    let olds = r.roots->Ok_0;
    assert(w.warnings.drop_last() =~= r.warnings || w.warnings == r.warnings);
    if is_looked_into(e) {
        if let Ok(infos) = infos_in(e.path, e.node) {
            let news = w.roots->Ok_0;
            if infos.len() > 0 {
                assert(infos.contains(infos[0]));
                assert(stands_in(e.node, infos[0]));
                assert(news.drop_last() =~= olds);
                assert(news.last().infos == infos);
            } else {
                assert forall|info: InfoView| !(#[trigger] stands_in(e.node, info)) by {
                    assert(!infos.contains(info));
                }
            }
        }
    }
}

proof fn lemma_roots_fail(entries: Seq<EntryView>, order: Seq<int>)
    ensures
        roots_among(entries, order).roots is Err <==> exists|k: int|
            0 <= k < order.len() && is_looked_into(entries[#[trigger] order[k]]) && is_broken(
                entries[order[k]].node,
            ),
    decreases order.len(),
{
    if order.len() > 0 {
        let t = order.drop_last();
        lemma_roots_fail(entries, t);
        let before = roots_among(entries, t);
        let e = entries[order[order.len() - 1]];
        if before.roots is Ok {
            lemma_with_entry(before, e);
            if exists|k: int|
                0 <= k < order.len() && is_looked_into(entries[#[trigger] order[k]]) && is_broken(
                    entries[order[k]].node,
                ) {
                let k = choose|k: int|
                    0 <= k < order.len() && is_looked_into(entries[#[trigger] order[k]])
                        && is_broken(entries[order[k]].node);
                if k < t.len() {
                    assert(is_looked_into(entries[t[k]]));
                }
            }
        } else {
            let k = choose|k: int|
                0 <= k < t.len() && is_looked_into(entries[#[trigger] t[k]]) && is_broken(
                    entries[t[k]].node,
                );
            assert(is_looked_into(entries[order[k]]));
        }
    }
}

proof fn lemma_roots_are_there(entries: Seq<EntryView>, order: Seq<int>)
    ensures
        roots_among(entries, order).roots matches Ok(roots) ==> forall|k: int|
            0 <= k < order.len() && is_mod_folder(entries[#[trigger] order[k]]) ==> has_root(
                roots,
                entries[order[k]],
            ),
    decreases order.len(),
{
    if order.len() > 0 && roots_among(entries, order).roots is Ok {
        let t = order.drop_last();
        lemma_roots_are_there(entries, t);
        let before = roots_among(entries, t);
        let e = entries[order[order.len() - 1]];
        lemma_with_entry(before, e);
        let olds = before.roots->Ok_0;
        let news = roots_among(entries, order).roots->Ok_0;
        assert forall|k: int|
            0 <= k < order.len() && is_mod_folder(entries[#[trigger] order[k]]) implies has_root(
            news,
            entries[order[k]],
        ) by {
            if k < t.len() {
                assert(has_root(olds, entries[t[k]]));
                let j = choose|j: int|
                    0 <= j < olds.len() && tells_of(#[trigger] olds[j], entries[t[k]]);
                assert(news[j] == olds[j]) by {
                    if news.len() > olds.len() {
                        assert(news.drop_last()[j] == olds[j]);
                    }
                }
                assert(tells_of(news[j], entries[order[k]]));
            } else {
                assert(tells_of(news[news.len() - 1], e));
            }
        }
    }
}

proof fn lemma_roots_come_from_entries(entries: Seq<EntryView>, order: Seq<int>)
    requires
        forall|k: int| 0 <= k < order.len() ==> 0 <= #[trigger] order[k] < entries.len(),
    ensures
        roots_among(entries, order).roots matches Ok(roots) ==> forall|j: int|
            0 <= j < roots.len() ==> is_root_among(#[trigger] roots[j], entries),
    decreases order.len(),
{
    if order.len() > 0 && roots_among(entries, order).roots is Ok {
        let t = order.drop_last();
        assert forall|k: int| 0 <= k < t.len() implies 0 <= #[trigger] t[k] < entries.len() by {
            assert(t[k] == order[k]);
        }
        lemma_roots_come_from_entries(entries, t);
        let before = roots_among(entries, t);
        let e = entries[order[order.len() - 1]];
        lemma_with_entry(before, e);
        let olds = before.roots->Ok_0;
        let news = roots_among(entries, order).roots->Ok_0;
        assert forall|j: int| 0 <= j < news.len() implies is_root_among(
            #[trigger] news[j],
            entries,
        ) by {
            if j < olds.len() {
                assert(news[j] == olds[j]) by {
                    if news.len() > olds.len() {
                        assert(news.drop_last()[j] == olds[j]);
                    }
                }
            } else {
                assert(is_mod_folder(entries[order[order.len() - 1]]));
            }
        }
    }
}

proof fn lemma_all_warned_of(entries: Seq<EntryView>, order: Seq<int>)
    ensures
        roots_among(entries, order).roots is Ok ==> forall|k: int|
            0 <= k < order.len() && is_directory(entries[#[trigger] order[k]].node)
                && !is_looked_into(entries[order[k]]) ==> is_warned_of(
                roots_among(entries, order).warnings,
                entries[order[k]],
            ),
    decreases order.len(),
{
    if order.len() > 0 && roots_among(entries, order).roots is Ok {
        let t = order.drop_last();
        lemma_all_warned_of(entries, t);
        let before = roots_among(entries, t);
        let e = entries[order[order.len() - 1]];
        lemma_with_entry(before, e);
        let olds = before.warnings;
        let news = roots_among(entries, order).warnings;
        assert forall|k: int|
            0 <= k < order.len() && is_directory(entries[#[trigger] order[k]].node)
                && !is_looked_into(entries[order[k]]) implies is_warned_of(
            news,
            entries[order[k]],
        ) by {
            if k < t.len() {
                assert(is_directory(entries[t[k]].node));
                assert(is_warned_of(olds, entries[t[k]]));
                let i = choose|i: int|
                    0 <= i < olds.len() && contains(#[trigger] olds[i], entries[t[k]].path);
                assert(news[i] == olds[i]) by {
                    if news.len() > olds.len() {
                        assert(news.drop_last()[i] == olds[i]);
                    }
                }
                assert(contains(news[i], entries[order[k]].path));
            } else {
                assert(contains(news[news.len() - 1], e.path));
            }
        }
    }
}

proof fn lemma_line_names_path(e: EntryView)
    ensures
        contains("! bỏ qua thư mục mod có tên không phải Unicode hợp lệ: "@ + e.path, e.path),
        folder_check(e.name) matches Err(why) ==> contains(
            "! bỏ qua thư mục mod "@ + e.path + ": "@ + why,
            e.path,
        ),
{
    let a = "! bỏ qua thư mục mod có tên không phải Unicode hợp lệ: "@;
    let one = a + e.path;
    assert(one.subrange(a.len() as int, a.len() as int + e.path.len()) =~= e.path);
    assert(occurs_at(one, e.path, a.len() as int));
    if let Err(why) = folder_check(e.name) {
        let b = "! bỏ qua thư mục mod "@;
        let two = b + e.path + ": "@ + why;
        assert(two.subrange(b.len() as int, b.len() as int + e.path.len()) =~= e.path);
        assert(occurs_at(two, e.path, b.len() as int));
    }
}

/// No mod folder of an item is overlooked: each directory in its `mods` directory with
/// a name that a folder can have, and with a `mod.info` at any depth, is a root, with
/// the `mod.info` files that stand in it; nothing else is one; a directory with another
/// name is told of; and it fails just where a directory that is looked into cannot be
/// listed.
pub proof fn law_every_mod_folder_is_found(source: SourceView, entries: Seq<EntryView>)
    requires
        source.mods == Some(NodeView::Dir(entries)),
    ensures
        roots_of(source).roots is Err <==> exists|i: int|
            0 <= i < entries.len() && is_looked_into(#[trigger] entries[i]) && is_broken(
                entries[i].node,
            ),
        roots_of(source).roots matches Ok(roots) ==> {
            &&& forall|i: int|
                0 <= i < entries.len() && is_mod_folder(#[trigger] entries[i]) ==> has_root(
                    roots,
                    entries[i],
                )
            &&& forall|j: int|
                0 <= j < roots.len() ==> is_root_among(#[trigger] roots[j], entries)
            &&& forall|i: int|
                0 <= i < entries.len() && (entries[i].node is Dir || entries[i].node is Broken)
                    && !is_looked_into(#[trigger] entries[i]) ==> is_warned_of(
                    roots_of(source).warnings,
                    entries[i],
                )
        },
{
    let order = listing_order(names_of(entries));
    law_listing_order_is_a_permutation(names_of(entries));
    assert forall|k: int| 0 <= k < order.len() implies 0 <= #[trigger] order[k]
        < entries.len() by {
        assert(0 <= k < names_of(entries).len());
    }
    lemma_roots_fail(entries, order);
    lemma_roots_are_there(entries, order);
    lemma_roots_come_from_entries(entries, order);
    lemma_all_warned_of(entries, order);
    if exists|i: int|
        0 <= i < entries.len() && is_looked_into(#[trigger] entries[i]) && is_broken(
            entries[i].node,
        ) {
        let i = choose|i: int|
            0 <= i < entries.len() && is_looked_into(#[trigger] entries[i]) && is_broken(
                entries[i].node,
            );
        assert(order.contains(i));
        let k = choose|k: int| 0 <= k < order.len() && #[trigger] order[k] == i;
        assert(is_looked_into(entries[order[k]]));
    }
    if let Ok(roots) = roots_of(source).roots {
        assert forall|i: int| 0 <= i < entries.len() && is_mod_folder(
            #[trigger] entries[i],
        ) implies has_root(roots, entries[i]) by {
            assert(order.contains(i));
            let k = choose|k: int| 0 <= k < order.len() && #[trigger] order[k] == i;
            assert(is_mod_folder(entries[order[k]]));
        }
        assert forall|i: int|
            0 <= i < entries.len() && (entries[i].node is Dir || entries[i].node is Broken)
                && !is_looked_into(#[trigger] entries[i]) implies is_warned_of(
            roots_of(source).warnings,
            entries[i],
        ) by {
            assert(order.contains(i));
            let k = choose|k: int| 0 <= k < order.len() && #[trigger] order[k] == i;
            assert(is_directory(entries[order[k]].node));
        }
    } else {
        let k = choose|k: int|
            0 <= k < order.len() && is_looked_into(entries[#[trigger] order[k]]) && is_broken(
                entries[order[k]].node,
            );
        assert(is_looked_into(entries[order[k]]));
    }
}

/// The text `v` is what one of the files gives under `key`.
pub open spec fn is_given(infos: Seq<InfoView>, key: Seq<char>, v: Seq<char>) -> bool {
    exists|i: int|
        0 <= i < infos.len() && ((#[trigger] infos[i]).bytes matches Ok(b) && info_value(b, key)
            == Some(v))
}

/// The mod id `x` is required by one of the files: it is what is left of a stretch
/// between two commas of what the file requires.
pub open spec fn is_required(infos: Seq<InfoView>, x: Seq<char>) -> bool {
    exists|v: Seq<char>, a: int, b: int|
        is_given(infos, "require"@, v) && #[trigger] is_piece(v, ',', a, b) && x == normalized(
            v.subrange(a, b),
        )
}

proof fn lemma_last_in_sum(a: Seq<Seq<char>>, b: Seq<Seq<char>>, x: Seq<char>)
    ensures
        (a + b).contains(x) <==> a.contains(x) || b.contains(x),
{
    if a.contains(x) {
        let i = choose|i: int| 0 <= i < a.len() && a[i] == x;
        assert((a + b)[i] == x);
    }
    if b.contains(x) {
        let i = choose|i: int| 0 <= i < b.len() && b[i] == x;
        assert((a + b)[a.len() + i] == x);
    }
    if (a + b).contains(x) {
        let i = choose|i: int| 0 <= i < (a + b).len() && (a + b)[i] == x;
        if i < a.len() {
            assert(a[i] == x);
        } else {
            assert(b[i - a.len()] == x);
        }
    }
}

proof fn lemma_normal_parts(parts: Seq<Seq<char>>, x: Seq<char>)
    ensures
        normal_parts(parts).contains(x) <==> x.len() > 0 && exists|k: int|
            0 <= k < parts.len() && normalized(#[trigger] parts[k]) == x,
    decreases parts.len(),
{
    if parts.len() > 0 {
        let t = parts.drop_last();
        lemma_normal_parts(t, x);
        let before = normal_parts(t);
        let n = normalized(parts[parts.len() - 1]);
        if n.len() > 0 {
            lemma_last_in_sum(before, seq![n], x);
            assert(before.push(n) =~= before + seq![n]);
            assert(seq![n].contains(x) <==> n == x) by {
                assert(seq![n][0] == n);
            }
        }
        if before.contains(x) {
            let k = choose|k: int| 0 <= k < t.len() && normalized(#[trigger] t[k]) == x;
            assert(normalized(parts[k]) == x);
        }
        if x.len() > 0 && exists|k: int| 0 <= k < parts.len() && normalized(#[trigger] parts[k]) == x {
            let k = choose|k: int| 0 <= k < parts.len() && normalized(#[trigger] parts[k]) == x;
            if k < t.len() {
                assert(normalized(t[k]) == x);
            }
        }
    }
}

proof fn lemma_needs_of(info: InfoView, x: Seq<char>)
    ensures
        needs_of(info).contains(x) <==> x.len() > 0 && (info.bytes matches Ok(bytes) && (info_value(
            bytes,
            "require"@,
        ) matches Some(v) && exists|a: int, b: int|
            #[trigger] is_piece(v, ',', a, b) && x == normalized(v.subrange(a, b)))),
{
    if let Ok(bytes) = info.bytes {
        if let Some(v) = info_value(bytes, "require"@) {
            let parts = split(v, ',');
            law_splitting_gives_the_pieces(v, ',');
            lemma_normal_parts(parts, x);
            if exists|k: int| 0 <= k < parts.len() && normalized(#[trigger] parts[k]) == x {
                let k = choose|k: int| 0 <= k < parts.len() && normalized(#[trigger] parts[k]) == x;
                assert(is_piece_of(v, ',', parts[k]));
                let (a, b) = choose|a: int, b: int|
                    #[trigger] is_piece(v, ',', a, b) && parts[k] == v.subrange(a, b);
                assert(is_piece(v, ',', a, b) && x == normalized(v.subrange(a, b)));
            }
            if exists|a: int, b: int|
                #[trigger] is_piece(v, ',', a, b) && x == normalized(v.subrange(a, b)) {
                let (a, b) = choose|a: int, b: int|
                    #[trigger] is_piece(v, ',', a, b) && x == normalized(v.subrange(a, b));
                assert(parts.contains(v.subrange(a, b)));
                let k = choose|k: int| 0 <= k < parts.len() && parts[k] == v.subrange(a, b);
                assert(normalized(parts[k]) == x);
            }
        }
    }
}

proof fn lemma_needs_in(infos: Seq<InfoView>, x: Seq<char>)
    ensures
        needs_in(infos).contains(x) <==> x.len() > 0 && is_required(infos, x),
    decreases infos.len(),
{
    let key = "require"@;
    if infos.len() > 0 {
        let t = infos.drop_last();
        let last = infos[infos.len() - 1];
        lemma_needs_in(t, x);
        lemma_needs_of(last, x);
        lemma_last_in_sum(needs_in(t), needs_of(last), x);
        if is_required(t, x) {
            let (v, a, b) = choose|v: Seq<char>, a: int, b: int|
                is_given(t, key, v) && #[trigger] is_piece(v, ',', a, b) && x == normalized(
                    v.subrange(a, b),
                );
            let i = choose|i: int|
                0 <= i < t.len() && ((#[trigger] t[i]).bytes matches Ok(b) && info_value(b, key)
                    == Some(v));
            assert(infos[i] == t[i]);
            assert(is_given(infos, key, v));
        }
        if needs_of(last).contains(x) {
            let v = info_value(last.bytes->Ok_0, key)->Some_0;
            assert(is_given(infos, key, v));
            let (a, b) = choose|a: int, b: int|
                #[trigger] is_piece(v, ',', a, b) && x == normalized(v.subrange(a, b));
            assert(is_piece(v, ',', a, b));
        }
        if x.len() > 0 && is_required(infos, x) {
            let (v, a, b) = choose|v: Seq<char>, a: int, b: int|
                is_given(infos, key, v) && #[trigger] is_piece(v, ',', a, b) && x == normalized(
                    v.subrange(a, b),
                );
            let i = choose|i: int|
                0 <= i < infos.len() && ((#[trigger] infos[i]).bytes matches Ok(b) && info_value(
                    b,
                    key,
                ) == Some(v));
            if i < t.len() {
                assert(t[i] == infos[i]);
                assert(is_given(t, key, v));
                assert(is_required(t, x));
            } else {
                assert(needs_of(last).contains(x));
            }
        }
    }
}

proof fn lemma_ids_in(infos: Seq<InfoView>, x: Seq<char>)
    ensures
        ids_in(infos).contains(x) <==> x.len() > 0 && is_given(infos, "id"@, x),
    decreases infos.len(),
{
    let key = "id"@;
    if infos.len() > 0 {
        let t = infos.drop_last();
        let last = infos[infos.len() - 1];
        lemma_ids_in(t, x);
        lemma_last_in_sum(ids_in(t), ids_of(last), x);
        assert(ids_of(last).contains(x) <==> x.len() > 0 && (last.bytes matches Ok(b) && info_value(
            b,
            key,
        ) == Some(x))) by {
            if x.len() > 0 && (last.bytes matches Ok(b) && info_value(b, key) == Some(x)) {
                assert(ids_of(last)[0] == x);
            }
        }
        if is_given(t, key, x) {
            let i = choose|i: int|
                0 <= i < t.len() && ((#[trigger] t[i]).bytes matches Ok(b) && info_value(b, key)
                    == Some(x));
            assert(infos[i] == t[i]);
        }
        if is_given(infos, key, x) {
            let i = choose|i: int|
                0 <= i < infos.len() && ((#[trigger] infos[i]).bytes matches Ok(b) && info_value(
                    b,
                    key,
                ) == Some(x));
            if i < t.len() {
                assert(t[i] == infos[i]);
            }
        }
    }
}

proof fn lemma_unread(infos: Seq<InfoView>)
    ensures
        first_unread(infos) is Some <==> exists|i: int|
            0 <= i < infos.len() && (#[trigger] infos[i]).bytes is Err,
    decreases infos.len(),
{
    if infos.len() > 0 {
        let t = infos.drop_last();
        lemma_unread(t);
        if first_unread(t) is Some {
            let i = choose|i: int| 0 <= i < t.len() && (#[trigger] t[i]).bytes is Err;
            assert(infos[i].bytes is Err);
        }
        if infos.last().bytes is Err {
            assert(infos[infos.len() - 1].bytes is Err);
        }
        if exists|i: int| 0 <= i < infos.len() && (#[trigger] infos[i]).bytes is Err {
            let i = choose|i: int| 0 <= i < infos.len() && (#[trigger] infos[i]).bytes is Err;
            if i < t.len() {
                assert(t[i].bytes is Err);
            }
        }
    }
}

/// One of the texts is `x`, but for case.
pub open spec fn has_but_for_case(list: Seq<Seq<char>>, x: Seq<char>) -> bool {
    exists|i: int| 0 <= i < list.len() && lowercase(#[trigger] list[i]) == lowercase(x)
}

/// Everything that the files provide and require is heard: each mod id that a file
/// gives, and each stretch between two commas of what a file requires, as far as
/// anything is left of it, is there but for case; nothing else is, and nothing twice.
/// It fails just where a file could not be read.
pub proof fn law_everything_in_the_files_is_heard(infos: Seq<InfoView>)
    ensures
        metadata_of(infos) is Err <==> exists|i: int|
            0 <= i < infos.len() && (#[trigger] infos[i]).bytes is Err,
        metadata_of(infos) matches Ok(m) ==> {
            &&& forall|x: Seq<char>|
                x.len() > 0 && #[trigger] is_required(infos, x) ==> has_but_for_case(m.required, x)
            &&& forall|k: int|
                0 <= k < m.required.len() ==> (#[trigger] m.required[k]).len() > 0 && is_required(
                    infos,
                    m.required[k],
                )
            &&& forall|j: int, k: int|
                0 <= j < k < m.required.len() ==> lowercase(#[trigger] m.required[j]) != lowercase(
                    #[trigger] m.required[k],
                )
            &&& forall|x: Seq<char>|
                x.len() > 0 && #[trigger] is_given(infos, "id"@, x) ==> has_but_for_case(
                    m.modids,
                    x,
                )
            &&& forall|k: int|
                0 <= k < m.modids.len() ==> (#[trigger] m.modids[k]).len() > 0 && is_given(
                    infos,
                    "id"@,
                    m.modids[k],
                )
            &&& forall|j: int, k: int|
                0 <= j < k < m.modids.len() ==> lowercase(#[trigger] m.modids[j]) != lowercase(
                    #[trigger] m.modids[k],
                )
        },
{
    lemma_unread(infos);
    if let Ok(m) = metadata_of(infos) {
        let needs = needs_in(infos);
        let ids = ids_in(infos);
        lemma_distinct(needs);
        lemma_distinct(ids);
        assert forall|x: Seq<char>| x.len() > 0 && #[trigger] is_required(
            infos,
            x,
        ) implies has_but_for_case(m.required, x) by {
            lemma_needs_in(infos, x);
            assert(needs.contains(x));
        }
        assert forall|k: int| 0 <= k < m.required.len() implies (#[trigger] m.required[k]).len() > 0
            && is_required(infos, m.required[k]) by {
            assert(m.required.contains(m.required[k]));
            lemma_needs_in(infos, m.required[k]);
        }
        assert forall|x: Seq<char>| x.len() > 0 && #[trigger] is_given(
            infos,
            "id"@,
            x,
        ) implies has_but_for_case(m.modids, x) by {
            lemma_ids_in(infos, x);
            assert(ids.contains(x));
        }
        assert forall|k: int| 0 <= k < m.modids.len() implies (#[trigger] m.modids[k]).len() > 0
            && is_given(infos, "id"@, m.modids[k]) by {
            assert(m.modids.contains(m.modids[k]));
            lemma_ids_in(infos, m.modids[k]);
        }
    }
}

proof fn lemma_distinct(list: Seq<Seq<char>>)
    ensures
        forall|x: Seq<char>| #[trigger] list.contains(x) ==> has_but_for_case(distinct(list), x),
        forall|x: Seq<char>| #[trigger] distinct(list).contains(x) ==> list.contains(x),
        forall|j: int, k: int|
            0 <= j < k < distinct(list).len() ==> lowercase(#[trigger] distinct(list)[j])
                != lowercase(#[trigger] distinct(list)[k]),
{
    law_distinct(list);
    let d = distinct(list);
    assert forall|x: Seq<char>| #[trigger] list.contains(x) implies has_but_for_case(d, x) by {
        let i = choose|i: int| 0 <= i < list.len() && list[i] == x;
        assert(lower_all(list)[i] == lowercase(x));
        assert(lower_all(list).contains(lowercase(x)));
        assert(lower_all(d).contains(lowercase(x)));
        let j = choose|j: int| 0 <= j < lower_all(d).len() && lower_all(d)[j] == lowercase(x);
        assert(lowercase(d[j]) == lowercase(x));
    }
    assert forall|j: int, k: int| 0 <= j < k < d.len() implies lowercase(#[trigger] d[j])
        != lowercase(#[trigger] d[k]) by {
        assert(lower_all(d)[j] != lower_all(d)[k]);
    }
}

/// An item provides a mod id exactly where one of its files gives it, letter for letter,
/// and all of them can be read.
pub proof fn law_an_item_provides_what_its_files_give(source: SourceView, wanted: Seq<char>)
    ensures
        match roots_of(source).roots {
            Ok(roots) => provides(source, wanted) <==> {
                &&& wanted.len() > 0
                &&& is_given(all_infos(roots), "id"@, wanted)
                &&& forall|i: int|
                    0 <= i < all_infos(roots).len() ==> (#[trigger] all_infos(roots)[i]).bytes is Ok
            },
            Err(_) => !provides(source, wanted),
        },
{
    if let Ok(roots) = roots_of(source).roots {
        let infos = all_infos(roots);
        law_everything_in_the_files_is_heard(infos);
        lemma_ids_in(infos, wanted);
        lemma_unread(infos);
    }
}

/// The files of all the folders are heard, and no others.
pub proof fn law_the_files_of_every_folder_are_heard(roots: Seq<RootView>)
    ensures
        forall|info: InfoView|
            #[trigger] all_infos(roots).contains(info) <==> exists|r: int|
                0 <= r < roots.len() && (#[trigger] roots[r]).infos.contains(info),
    decreases roots.len(),
{
    if roots.len() > 0 {
        let t = roots.drop_last();
        law_the_files_of_every_folder_are_heard(t);
        let before = all_infos(t);
        let more = roots[roots.len() - 1].infos;
        let all = all_infos(roots);
        assert forall|info: InfoView| #[trigger] all.contains(info) <==> exists|r: int|
            0 <= r < roots.len() && (#[trigger] roots[r]).infos.contains(info) by {
            if all.contains(info) {
                let i = choose|i: int| 0 <= i < all.len() && all[i] == info;
                if i < before.len() {
                    assert(before[i] == info);
                    assert(before.contains(info));
                    let r = choose|r: int|
                        0 <= r < t.len() && (#[trigger] t[r]).infos.contains(info);
                    assert(roots[r].infos.contains(info));
                } else {
                    assert(more[i - before.len()] == info);
                    assert(roots[roots.len() - 1].infos.contains(info));
                }
            }
            if exists|r: int| 0 <= r < roots.len() && (#[trigger] roots[r]).infos.contains(info) {
                let r = choose|r: int|
                    0 <= r < roots.len() && (#[trigger] roots[r]).infos.contains(info);
                if r < t.len() {
                    assert(t[r].infos.contains(info));
                    assert(before.contains(info));
                    let i = choose|i: int| 0 <= i < before.len() && before[i] == info;
                    assert(all[i] == info);
                } else {
                    let i = choose|i: int| 0 <= i < more.len() && more[i] == info;
                    assert(all[before.len() + i] == info);
                }
            }
        }
    }
}

/// Nothing but white space.
pub open spec fn is_blank(s: Seq<char>) -> bool {
    forall|i: int| 0 <= i < s.len() ==> is_white_space(#[trigger] s[i])
}

/// A text without white space at its ends.
pub open spec fn is_tight(s: Seq<char>) -> bool {
    s.len() > 0 ==> !is_white_space(s[0]) && !is_white_space(s.last())
}

proof fn lemma_trim_blanks(a: Seq<char>, t: Seq<char>, b: Seq<char>)
    requires
        is_blank(a),
        is_blank(b),
        is_tight(t),
    ensures
        trimmed(a + t + b) == t,
{
    let s = a + t + b;
    let (x, y) = (a.len() as int, (a.len() + t.len()) as int);
    assert forall|i: int| 0 <= i < x implies is_white_space(#[trigger] s[i]) by {
        assert(s[i] == a[i]);
    }
    assert forall|i: int| y <= i < s.len() implies is_white_space(#[trigger] s[i]) by {
        assert(s[i] == b[i - y]);
    }
    if x < y {
        assert(s[x] == t[0]);
        assert(s[y - 1] == t.last());
    }
    law_the_middle_is_what_trimming_leaves(s, x, y);
    assert(s.subrange(x, y) =~= t);
}

proof fn lemma_slashes(p: Seq<char>, t: Seq<char>)
    requires
        forall|i: int| 0 <= i < p.len() ==> #[trigger] p[i] == '\\' || p[i] == '/',
        t.len() > 0 ==> t[0] != '\\' && t[0] != '/',
    ensures
        skip_slashes(p + t) == t,
    decreases p.len(),
{
    if p.len() > 0 {
        let rest = p.drop_first();
        assert forall|i: int| 0 <= i < rest.len() implies #[trigger] rest[i] == '\\' || rest[i]
            == '/' by {
            assert(rest[i] == p[i + 1]);
        }
        lemma_slashes(rest, t);
        assert((p + t).drop_first() =~= rest + t);
        assert((p + t)[0] == p[0]);
    } else {
        assert(p + t =~= t);
    }
}

/// A required mod id is freed of the slashes of either kind before it, and of the
/// white space around it.
pub proof fn law_a_required_mod_id_is_freed(
    a: Seq<char>,
    slashes: Seq<char>,
    b: Seq<char>,
    modid: Seq<char>,
    c: Seq<char>,
)
    requires
        is_blank(a),
        is_blank(b),
        is_blank(c),
        is_tight(modid),
        modid.len() > 0,
        modid[0] != '\\' && modid[0] != '/',
        forall|i: int| 0 <= i < slashes.len() ==> #[trigger] slashes[i] == '\\' || slashes[i] == '/',
    ensures
        normalized(a + slashes + b + modid + c) == modid,
{
    let t = slashes + b + modid;
    if slashes.len() == 0 {
        assert(a + slashes + b + modid + c =~= (a + b) + modid + c);
        lemma_trim_blanks(a + b, modid, c);
        lemma_slashes(seq![], modid);
        assert(seq![] + modid =~= modid);
    } else {
        assert(slashes[0] == '\\' || slashes[0] == '/');
        assert(t[0] == slashes[0]);
        assert(t.last() == modid.last());
        assert(a + slashes + b + modid + c =~= a + t + c);
        lemma_trim_blanks(a, t, c);
        let rest = b + modid;
        assert(t =~= slashes + rest);
        assert(rest[0] != '\\' && rest[0] != '/') by {
            if b.len() > 0 {
                assert(is_white_space(b[0]));
                assert(rest[0] == b[0]);
            } else {
                assert(rest[0] == modid[0]);
            }
        }
        lemma_slashes(slashes, rest);
        assert(rest =~= b + modid + seq![]);
        lemma_trim_blanks(b, modid, seq![]);
    }
    lemma_trim_blanks(seq![], modid, seq![]);
    assert(seq![] + modid + seq![] =~= modid);
}

/// A line `key = value` gives the value under the key, whatever white space stands
/// around the two.
pub proof fn law_a_line_gives_its_value(
    a: Seq<char>,
    key: Seq<char>,
    b: Seq<char>,
    c: Seq<char>,
    value: Seq<char>,
    d: Seq<char>,
)
    requires
        is_blank(a),
        is_blank(b),
        is_blank(c),
        is_blank(d),
        is_tight(key),
        is_tight(value),
        key.len() > 0,
        key[0] != '#' && key[0] != '\u{feff}',
        !key.contains('='),
    ensures
        line_pair(a + key + b + seq!['='] + c + value + d) == Some((key, value)),
{
    let line = a + key + b + seq!['='] + c + value + d;
    let front = key + b + seq!['='];
    let (l, rest) = if value.len() > 0 {
        (front + c + value, c + value)
    } else {
        (front, seq![])
    };
    assert(l[0] == key[0]);
    if value.len() > 0 {
        assert(l.last() == value.last());
        assert(line =~= a + l + d);
        lemma_trim_blanks(a, l, d);
        assert(rest =~= c + value + seq![]);
        lemma_trim_blanks(c, value, seq![]);
    } else {
        assert(l.last() == '=');
        let e = c + d;
        assert(line =~= a + l + e);
        lemma_trim_blanks(a, l, e);
        lemma_trim_blanks(seq![], value, seq![]);
        assert(seq![] + value + seq![] =~= rest);
        assert(rest =~= value);
    }
    assert(skip_marks(l) == l);
    let i = (key.len() + b.len()) as int;
    assert(l[i] == '=');
    assert forall|k: int| 0 <= k < i implies l[k] != '=' by {
        if k < key.len() {
            assert(l[k] == key[k]);
        } else {
            assert(l[k] == b[k - key.len()]);
            assert(is_white_space(b[k - key.len()]));
        }
    }
    lemma_index_of(l, '=', 0);
    assert(index_of(l, '=', 0) == i);
    assert(l.subrange(0, i) =~= seq![] + key + b);
    lemma_trim_blanks(seq![], key, b);
    assert(l.subrange(i + 1, l.len() as int) =~= rest);
}

/// A byte order mark before a line changes nothing of what it gives.
pub proof fn law_a_mark_before_a_line_is_passed_over(line: Seq<char>)
    requires
        line.len() > 0,
        !is_white_space(line[0]),
    ensures
        line_pair(seq!['\u{feff}'] + line) == line_pair(line),
{
    let marked = seq!['\u{feff}'] + line;
    let (a, b) = law_trimming_leaves_the_middle(line);
    if a > 0 {
        assert(is_white_space(line[0]));
    }
    if b == 0 {
        assert(is_white_space(line[0]));
    }
    assert forall|i: int| b + 1 <= i < marked.len() implies is_white_space(#[trigger] marked[i]) by {
        assert(marked[i] == line[i - 1]);
    }
    assert(marked[b] == line[b - 1]);
    assert(is_middle(marked, 0, b + 1));
    law_the_middle_is_what_trimming_leaves(marked, 0, b + 1);
    let t = trimmed(marked);
    assert(t[0] == '\u{feff}');
    assert(t.drop_first() =~= trimmed(line));
}

/// A comment gives nothing, and neither does a line without an equals sign.
pub proof fn law_other_lines_give_nothing(a: Seq<char>, rest: Seq<char>)
    requires
        is_blank(a),
        rest.len() > 0,
        !is_white_space(rest[0]),
        rest[0] == '#' || !rest.contains('='),
    ensures
        line_pair(a + rest) is None,
{
    let line = a + rest;
    let (x, y) = law_trimming_leaves_the_middle(line);
    let n = a.len() as int;
    assert(line[n] == rest[0]);
    if x < n {
        assert(line[x] == a[x]);
        if x < y {
            assert(is_white_space(a[x]));
        } else {
            assert(is_white_space(line[n]));
        }
    }
    if n < x {
        assert(is_white_space(line[n]));
    }
    if y <= n {
        assert(is_white_space(line[n]));
    }
    let t = trimmed(line);
    assert(t[0] == rest[0]);
    let l = skip_marks(t);
    if rest[0] == '#' {
        assert(l == t);
    } else {
        assert forall|k: int| 0 <= k < t.len() implies t[k] != '=' by {
            assert(t[k] == rest[k]);
        }
        lemma_marks(t);
        lemma_index_of(l, '=', 0);
    }
}

proof fn lemma_marks(s: Seq<char>)
    requires
        forall|k: int| 0 <= k < s.len() ==> s[k] != '=',
    ensures
        forall|k: int| 0 <= k < skip_marks(s).len() ==> skip_marks(s)[k] != '=',
    decreases s.len(),
{
    if s.len() > 0 && s[0] == '\u{feff}' {
        let t = s.drop_first();
        assert forall|k: int| 0 <= k < t.len() implies t[k] != '=' by {
            assert(t[k] == s[k + 1]);
        }
        lemma_marks(t);
        assert(skip_marks(s) == skip_marks(t));
    } else {
        assert(skip_marks(s) == s);
    }
}

proof fn lemma_split_more(s: Seq<char>, line: Seq<char>, c: char, i: int)
    requires
        0 <= i <= s.len(),
        !line.contains(c),
    ensures
        split_from(s + seq![c] + line, c, i) == split_from(s, c, i).push(line),
    decreases s.len() - i,
{
    let all = s + seq![c] + line;
    let n = s.len() as int;
    lemma_index_of(s, c, i);
    lemma_index_of(all, c, i);
    let j = index_of(s, c, i);
    let k = index_of(all, c, i);
    assert(all[n] == c);
    assert(k == j) by {
        if k < j {
            assert(s[k] == all[k]);
        }
        if j < k {
            assert(all[j] == c);
        }
    }
    assert(all.subrange(i, j) =~= s.subrange(i, j));
    if j < n {
        lemma_split_more(s, line, c, j + 1);
        let rest = split_from(s, c, j + 1);
        assert(seq![s.subrange(i, j)] + rest.push(line) =~= (seq![s.subrange(i, j)] + rest).push(
            line,
        ));
    } else {
        lemma_index_of(all, c, n + 1);
        let m = index_of(all, c, n + 1);
        if m < all.len() {
            assert(all[m] == line[m - n - 1]);
        }
        assert(all.subrange(n + 1, all.len() as int) =~= line);
        assert(split_from(all, c, n + 1) =~= seq![line]);
        assert(split_from(all, c, i) =~= split_from(s, c, i).push(line));
    }
}

/// The last line with a key counts: a line that is added gives its value, and leaves
/// the values of the other keys as they were.
pub proof fn law_the_last_line_counts(text: Seq<char>, line: Seq<char>, key: Seq<char>)
    requires
        !line.contains('\n'),
    ensures
        match line_pair(line) {
            Some((k, v)) => text_value(text + seq!['\n'] + line, key) == (if k == key {
                Some(v)
            } else {
                text_value(text, key)
            }),
            None => text_value(text + seq!['\n'] + line, key) == text_value(text, key),
        },
{
    lemma_split_more(text, line, '\n', 0);
    let lines = split(text, '\n');
    assert(lines.push(line).drop_last() =~= lines);
    assert(lines.push(line).last() == line);
}

/// A text of one line gives what the line gives.
pub proof fn law_one_line_is_a_text(line: Seq<char>, key: Seq<char>)
    requires
        !line.contains('\n'),
    ensures
        text_value(line, key) == (match line_pair(line) {
            Some((k, v)) => if k == key {
                Some(v)
            } else {
                None
            },
            None => None,
        }),
{
    lemma_index_of(line, '\n', 0);
    let j = index_of(line, '\n', 0);
    if j < line.len() {
        assert(line.contains(line[j]));
    }
    assert(line.subrange(0, line.len() as int) =~= line);
    let lines = split(line, '\n');
    assert(lines =~= seq![line]);
    assert(lines.drop_last() =~= seq![]);
    assert(last_value(lines.drop_last(), key) is None);
}

/// The bytes of a file give what their text gives: where the text ends in a line, the
/// value of the line under its key.
pub proof fn law_the_bytes_of_a_file_give_its_lines(
    bytes: Seq<u8>,
    text: Seq<char>,
    line: Seq<char>,
    key: Seq<char>,
    value: Seq<char>,
)
    requires
        !line.contains('\n'),
        lossy_text(bytes) == text + seq!['\n'] + line || lossy_text(bytes) == line,
        line_pair(line) == Some((key, value)),
    ensures
        info_value(bytes, key) == Some(value),
{
    law_the_last_line_counts(text, line, key);
    law_one_line_is_a_text(line, key);
}

} // verus!
