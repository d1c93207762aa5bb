//! Copying a directory: in which order its entries are copied, and which of them
//! cannot be.
use vstd::prelude::*;

use crate::flow_laws::lemma_between;
use crate::names::{law_listing_order_is_a_permutation, list_order, listing_order};
use crate::text::contains;

verus! {

/// What an entry of a directory is.
pub enum Kind {
    Dir,
    File,
    /// Neither of them, such as a link.
    Other,
    /// It could not be found out, for this reason.
    Unread(String),
}

pub enum KindView {
    Dir,
    File,
    Other,
    Unread(Seq<char>),
}

impl DeepView for Kind {
    type V = KindView;

    open spec fn deep_view(&self) -> KindView {
        match self {
            Kind::Dir => KindView::Dir,
            Kind::File => KindView::File,
            Kind::Other => KindView::Other,
            Kind::Unread(e) => KindView::Unread(e@),
        }
    }
}

/// An entry of a directory.
pub struct Item {
    pub name: String,
    pub path: String,
    pub kind: Kind,
}

pub struct ItemView {
    pub name: Seq<char>,
    pub path: Seq<char>,
    pub kind: KindView,
}

impl DeepView for Item {
    type V = ItemView;

    open spec fn deep_view(&self) -> ItemView {
        ItemView { name: self.name@, path: self.path@, kind: self.kind.deep_view() }
    }
}

/// What is done with the entry at a position.
#[derive(Clone, Copy, PartialEq, Eq, Structural)]
pub enum CopyStep {
    /// It is a directory, and is copied in the same way.
    Enter(usize),
    /// It is a file, and is copied.
    Copy(usize),
}

/// Why an entry cannot be copied, if it cannot.
pub open spec fn copy_fault(item: ItemView) -> Option<Seq<char>> {
    match item.kind {
        KindView::Dir => None,
        KindView::File => None,
        KindView::Other => Some("Không hỗ trợ symlink trong mod: "@ + item.path),
        KindView::Unread(e) => Some("Không đọc được loại file "@ + item.path + ": "@ + e),
    }
}

/// The first reason that stops the copying of the entries at these positions.
pub open spec fn first_fault(items: Seq<ItemView>, order: Seq<int>) -> Option<Seq<char>>
    decreases order.len(),
{
    if order.len() == 0 {
        None
    } else {
        match first_fault(items, order.drop_last()) {
            Some(e) => Some(e),
            None => copy_fault(items[order.last()]),
        }
    }
}

/// What is done with the entries at these positions, up to the first that cannot
/// be copied.
pub open spec fn copied(items: Seq<ItemView>, order: Seq<int>) -> Seq<CopyStep>
    decreases order.len(),
{
    if order.len() == 0 {
        seq![]
    } else {
        let r = copied(items, order.drop_last());
        if first_fault(items, order) is Some {
            r
        } else if items[order.last()].kind is Dir {
            r.push(CopyStep::Enter(order.last() as usize))
        } else {
            r.push(CopyStep::Copy(order.last() as usize))
        }
    }
}

pub open spec fn item_names(items: Seq<ItemView>) -> Seq<Seq<char>> {
    items.map_values(|x: ItemView| x.name)
}

/// How a directory is copied: what is done, and what then stops it.
pub struct Copying {
    pub steps: Vec<CopyStep>,
    pub fault: Option<String>,
}

proof fn lemma_stopped(items: Seq<ItemView>, order: Seq<int>, m: int)
    requires
        0 <= m <= order.len(),
        first_fault(items, order.take(m)) is Some,
    ensures
        first_fault(items, order) == first_fault(items, order.take(m)),
        copied(items, order) == copied(items, order.take(m)),
    decreases order.len(),
{
    if m == order.len() {
        assert(order.take(m) =~= order);
    } else {
        assert(order.drop_last().take(m) =~= order.take(m));
        lemma_stopped(items, order.drop_last(), m);
    }
}

/// How a directory with these entries is copied: one entry after the other, in
/// order of listing, until one is neither a directory nor a file.
pub fn copy_tree(items: &Vec<Item>) -> (r: Copying)
    ensures
        ({
            let order = listing_order(item_names(items.deep_view()));
            &&& r.steps@ == copied(items.deep_view(), order)
            &&& r.fault.deep_view() == first_fault(items.deep_view(), order)
        }),
{
    let ghost all = items.deep_view();
    let mut names: Vec<String> = Vec::new();
    let mut i: usize = 0;
    while i < items.len()
        invariant
            i <= items.len(),
            all == items.deep_view(),
            names.deep_view() == item_names(all).take(i as int),
        decreases items.len() - i,
    {
        let ghost before = names.deep_view();
        names.push(items[i].name.clone());
        proof {
            assert(names.deep_view() =~= before.push(all[i as int].name));
            assert(names.deep_view() =~= item_names(all).take(i + 1));
        }
        i += 1;
    }
    assert(item_names(all).take(items.len() as int) =~= item_names(all));
    let order = list_order(&names);
    let ghost want = listing_order(item_names(all));
    let mut steps: Vec<CopyStep> = Vec::new();
    let mut k: usize = 0;
    while k < order.len()
        invariant
            k <= order.len(),
            order.len() == items.len(),
            all == items.deep_view(),
            want == listing_order(item_names(all)),
            want == order@.map_values(|i: usize| i as int),
            forall|i: int| 0 <= i < order.len() ==> (#[trigger] order@[i]) < items.len(),
            steps@ == copied(all, want.take(k as int)),
            first_fault(all, want.take(k as int)) is None,
        decreases order.len() - k,
    {
        let p = order[k];
        proof {
            assert(want.take(k + 1).drop_last() =~= want.take(k as int));
            assert(want.take(k + 1).last() == p as int);
            assert(all[p as int] == items@[p as int].deep_view());
            if first_fault(all, want.take(k + 1)) is Some {
                lemma_stopped(all, want, k + 1);
            }
        }
        match &items[p].kind {
            Kind::Dir => {
                steps.push(CopyStep::Enter(p));
            },
            Kind::File => {
                steps.push(CopyStep::Copy(p));
            },
            Kind::Other => {
                let e = "Không hỗ trợ symlink trong mod: ".to_string().concat(
                    items[p].path.as_str(),
                );
                return Copying { steps, fault: Some(e) };
            },
            Kind::Unread(why) => {
                let e = "Không đọc được loại file ".to_string().concat(
                    items[p].path.as_str(),
                ).concat(": ").concat(why.as_str());
                return Copying { steps, fault: Some(e) };
            },
        }
        k += 1;
    }
    assert(want.take(order.len() as int) =~= want);
    Copying { steps, fault: None }
}

proof fn lemma_unstopped(items: Seq<ItemView>, order: Seq<int>)
    ensures
        first_fault(items, order) is None ==> copied(items, order).len() == order.len() && (forall|
            i: int,
        |
            0 <= i < order.len() ==> #[trigger] copied(items, order)[i] == (if items[order[i]].kind is Dir {
                CopyStep::Enter(order[i] as usize)
            } else {
                CopyStep::Copy(order[i] as usize)
            })),
        first_fault(items, order) is None <==> forall|i: int|
            0 <= i < order.len() ==> copy_fault(items[#[trigger] order[i]]) is None,
    decreases order.len(),
{
    if order.len() > 0 {
        let t = order.drop_last();
        lemma_unstopped(items, t);
        assert(forall|i: int| 0 <= i < t.len() ==> #[trigger] order[i] == t[i]);
        if first_fault(items, order) is None {
            assert forall|i: int| 0 <= i < order.len() implies #[trigger] copied(items, order)[i]
                == (if items[order[i]].kind is Dir {
                CopyStep::Enter(order[i] as usize)
            } else {
                CopyStep::Copy(order[i] as usize)
            }) by {
                if i < t.len() {
                    assert(copied(items, order)[i] == copied(items, t)[i]);
                }
            }
            assert forall|i: int| 0 <= i < order.len() implies copy_fault(
                items[#[trigger] order[i]],
            ) is None by {
                if i < t.len() {
                    assert(copy_fault(items[t[i]]) is None);
                }
            }
        } else if first_fault(items, t) is None {
            assert(copy_fault(items[order[order.len() - 1]]) is Some);
        } else {
            let i = choose|i: int|
                0 <= i < t.len() && copy_fault(items[#[trigger] t[i]]) is Some;
            assert(copy_fault(items[order[i]]) is Some);
        }
    }
}

/// A directory is copied whole or the copying is stopped: where nothing stops it,
/// every entry has its step, and nothing stops it only where each is a directory
/// or a file.
pub proof fn law_nothing_is_left_out(items: Seq<ItemView>)
    ensures
        ({
            let order = listing_order(item_names(items));
            &&& first_fault(items, order) is None <==> forall|p: int|
                0 <= p < items.len() ==> (#[trigger] items[p]).kind is Dir || items[p].kind is File
            &&& first_fault(items, order) is None ==> forall|p: int|
                0 <= p < items.len() ==> copied(items, order).contains(
                    if (#[trigger] items[p]).kind is Dir {
                        CopyStep::Enter(p as usize)
                    } else {
                        CopyStep::Copy(p as usize)
                    },
                )
        }),
{
    let names = item_names(items);
    let order = listing_order(names);
    law_listing_order_is_a_permutation(names);
    lemma_unstopped(items, order);
    if first_fault(items, order) is None {
        assert forall|p: int| 0 <= p < items.len() implies ((#[trigger] items[p]).kind is Dir
            || items[p].kind is File) && copied(items, order).contains(
            if items[p].kind is Dir {
                CopyStep::Enter(p as usize)
            } else {
                CopyStep::Copy(p as usize)
            },
        ) by {
            assert(order.contains(p));
            let i = choose|i: int| 0 <= i < order.len() && order[i] == p;
            assert(copy_fault(items[order[i]]) is None);
            let step = copied(items, order)[i];
            assert(step == (if items[p].kind is Dir {
                CopyStep::Enter(p as usize)
            } else {
                CopyStep::Copy(p as usize)
            }));
        }
    } else {
        let i = choose|i: int|
            0 <= i < order.len() && copy_fault(items[#[trigger] order[i]]) is Some;
        assert(!(items[order[i]].kind is Dir || items[order[i]].kind is File));
    }
}

/// The entries are copied in order of listing: directories are entered, files are copied.
/// Where one cannot be, everything before it was done, and nothing after it; its path is
/// told.
pub proof fn law_copying_goes_in_order(items: Seq<ItemView>, n: int)
    requires
        0 <= n <= items.len(),
        ({
            let order = listing_order(item_names(items));
            &&& forall|i: int| 0 <= i < n ==> copy_fault(items[#[trigger] order[i]]) is None
            &&& n < items.len() ==> copy_fault(items[order[n]]) is Some
        }),
    ensures
        ({
            let order = listing_order(item_names(items));
            let steps = copied(items, order);
            &&& steps.len() == n
            &&& forall|i: int|
                0 <= i < n ==> #[trigger] steps[i] == (if items[order[i]].kind is Dir {
                    CopyStep::Enter(order[i] as usize)
                } else {
                    CopyStep::Copy(order[i] as usize)
                })
            &&& n < items.len() ==> (first_fault(items, order) matches Some(e) && contains(
                e,
                items[order[n]].path,
            ))
            &&& n == items.len() ==> first_fault(items, order) is None
        }),
{
    let names = item_names(items);
    let order = listing_order(names);
    law_listing_order_is_a_permutation(names);
    let t = order.take(n);
    assert forall|i: int| 0 <= i < t.len() implies copy_fault(items[#[trigger] t[i]]) is None by {
        assert(copy_fault(items[order[i]]) is None);
    }
    lemma_unstopped(items, t);
    if n < items.len() {
        let u = order.take(n + 1);
        assert(u.drop_last() =~= t);
        assert(u.last() == order[n]);
        lemma_stopped(items, order, n + 1);
        let x = items[order[n]];
        lemma_between("Không hỗ trợ symlink trong mod: "@, x.path, seq![]);
        assert("Không hỗ trợ symlink trong mod: "@ + x.path + seq![]
            =~= "Không hỗ trợ symlink trong mod: "@ + x.path);
        if let KindView::Unread(e) = x.kind {
            lemma_between("Không đọc được loại file "@, x.path, ": "@ + e);
            assert("Không đọc được loại file "@ + x.path + (": "@ + e)
                =~= "Không đọc được loại file "@ + x.path + ": "@ + e);
        }
        assert(copied(items, u) == copied(items, t));
    } else {
        assert(t =~= order);
    }
    assert forall|i: int| 0 <= i < n implies #[trigger] copied(items, order)[i] == (
    if items[order[i]].kind is Dir {
        CopyStep::Enter(order[i] as usize)
    } else {
        CopyStep::Copy(order[i] as usize)
    }) by {
        assert(copied(items, t)[i] == copied(items, order)[i]);
        assert(t[i] == order[i]);
    }
}

} // verus!
