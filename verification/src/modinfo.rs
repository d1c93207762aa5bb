//! What a downloaded workshop item holds: its mod folders and what their
//! `mod.info` files say.
use vstd::prelude::*;
use vstd::utf8::{decode_utf8, valid_utf8};

use crate::folder::{check_folder, folder_check};
use crate::names::{ascii_low, is_ascii_text, list_order, listing_order, lowercase, to_lower};
use crate::table::{at, law_set_at, Table};
use crate::text::{
    chars_of, holds, index_of, position, same, split, split_text, text_of, trim_bounds, trimmed,
};

verus! {

/// What `String::from_utf8_lossy` makes of `bytes`.
pub uninterp spec fn lossy_text(bytes: Seq<u8>) -> Seq<char>;

/// `String::from_utf8_lossy`: the text that the bytes encode, with replacement
/// characters where they encode none. Bytes that are valid give their text.
#[verifier::external_body]
fn decode(bytes: &Vec<u8>) -> (r: String)
    ensures
        r@ == lossy_text(bytes@),
        valid_utf8(bytes@) ==> r@ == decode_utf8(bytes@),
{
    String::from_utf8_lossy(bytes).into_owned()
}

/// `s` without the slashes that it begins with, of either kind.
pub open spec fn skip_slashes(s: Seq<char>) -> Seq<char>
    decreases s.len(),
{
    if s.len() > 0 && (s[0] == '\\' || s[0] == '/') {
        skip_slashes(s.drop_first())
    } else {
        s
    }
}

/// A required mod id as it is written in a `mod.info`, without what surrounds
/// it.
pub open spec fn normalized(value: Seq<char>) -> Seq<char> {
    trimmed(skip_slashes(trimmed(value)))
}

/// `value` without white space and without leading slashes.
pub fn normalize_required(value: &str) -> (r: String)
    ensures
        r@ == normalized(value@),
{
    let chars = chars_of(value);
    assert(chars@.subrange(0, chars.len() as int) =~= value@);
    let (a, b) = trim_bounds(&chars, 0, chars.len());
    let ghost t = chars@.subrange(a as int, b as int);
    let mut i: usize = a;
    assert(chars@.subrange(i as int, b as int) =~= t);
    while i < b && (chars[i] == '\\' || chars[i] == '/')
        invariant
            a <= i <= b <= chars.len(),
            skip_slashes(t) == skip_slashes(chars@.subrange(i as int, b as int)),
        decreases b - i,
    {
        let ghost rest = chars@.subrange(i as int, b as int);
        assert(rest[0] == chars@[i as int]);
        assert(rest.drop_first() =~= chars@.subrange(i + 1, b as int));
        i += 1;
    }
    let ghost rest = chars@.subrange(i as int, b as int);
    assert(rest.len() > 0 ==> rest[0] == chars@[i as int]);
    assert(skip_slashes(rest) == rest);
    let (c, d) = trim_bounds(&chars, i, b);
    text_of(&chars, c, d)
}

/// The key under which a required mod id is known.
pub open spec fn key_of(value: Seq<char>) -> Seq<char> {
    lowercase(normalized(value))
}

/// The key under which a required mod id is known. For a mod id in ASCII it is the
/// mod id in ASCII lower case.
pub fn modid_key(value: &str) -> (r: String)
    ensures
        r@ == key_of(value@),
        is_ascii_text(normalized(value@)) ==> r@ == normalized(value@).map_values(
            |c: char| ascii_low(c),
        ),
{
    let n = normalize_required(value);
    to_lower(n.as_str())
}

/// `s` without the byte order marks that it begins with.
pub open spec fn skip_marks(s: Seq<char>) -> Seq<char>
    decreases s.len(),
{
    if s.len() > 0 && s[0] == '\u{feff}' {
        skip_marks(s.drop_first())
    } else {
        s
    }
}

/// The key and the value that a line of a `mod.info` gives, if any: a line that
/// is a comment, has no `=` or no key gives none.
pub open spec fn line_pair(line: Seq<char>) -> Option<(Seq<char>, Seq<char>)> {
    let l = skip_marks(trimmed(line));
    let i = index_of(l, '=', 0);
    if l.len() == 0 || l[0] == '#' || i >= l.len() || trimmed(l.subrange(0, i)).len() == 0 {
        None
    } else {
        Some((trimmed(l.subrange(0, i)), trimmed(l.subrange(i + 1, l.len() as int))))
    }
}

/// The value that the last of `lines` with this key gives.
pub open spec fn last_value(lines: Seq<Seq<char>>, key: Seq<char>) -> Option<Seq<char>>
    decreases lines.len(),
{
    if lines.len() == 0 {
        None
    } else {
        match line_pair(lines.last()) {
            Some((k, v)) => if k == key {
                Some(v)
            } else {
                last_value(lines.drop_last(), key)
            },
            None => last_value(lines.drop_last(), key),
        }
    }
}

/// The value under `key` in a `mod.info` with this text.
pub open spec fn text_value(text: Seq<char>, key: Seq<char>) -> Option<Seq<char>> {
    last_value(split(text, '\n'), key)
}

/// The value under `key` in a `mod.info` with these bytes.
pub open spec fn info_value(bytes: Seq<u8>, key: Seq<char>) -> Option<Seq<char>> {
    text_value(lossy_text(bytes), key)
}

fn read_line(line: &str) -> (r: Option<(String, String)>)
    ensures
        match r {
            Some(p) => line_pair(line@) == Some((p.0@, p.1@)),
            None => line_pair(line@) is None,
        },
{
    let chars = chars_of(line);
    assert(chars@.subrange(0, chars.len() as int) =~= line@);
    let (a, b) = trim_bounds(&chars, 0, chars.len());
    let ghost t = chars@.subrange(a as int, b as int);
    let mut i: usize = a;
    assert(chars@.subrange(i as int, b as int) =~= t);
    while i < b && chars[i] == '\u{feff}'
        invariant
            a <= i <= b <= chars.len(),
            skip_marks(t) == skip_marks(chars@.subrange(i as int, b as int)),
        decreases b - i,
    {
        let ghost rest = chars@.subrange(i as int, b as int);
        assert(rest[0] == chars@[i as int]);
        assert(rest.drop_first() =~= chars@.subrange(i + 1, b as int));
        i += 1;
    }
    let ghost rest = chars@.subrange(i as int, b as int);
    assert(rest.len() > 0 ==> rest[0] == chars@[i as int]);
    assert(skip_marks(rest) == rest);
    if i == b || chars[i] == '#' {
        return None;
    }
    let l = text_of(&chars, i, b);
    let body = chars_of(l.as_str());
    assert(body@ =~= rest);
    let e = position(&body, '=', 0);
    if e >= body.len() {
        return None;
    }
    let (c, d) = trim_bounds(&body, 0, e);
    if c == d {
        return None;
    }
    let (x, y) = trim_bounds(&body, e + 1, body.len());
    Some((text_of(&body, c, d), text_of(&body, x, y)))
}

/// The keys and values of a `mod.info`.
pub fn parse_modinfo(bytes: &Vec<u8>) -> (r: Table<String>)
    ensures
        forall|key: Seq<char>| #[trigger] at(r.deep_view(), key) == info_value(bytes@, key),
        valid_utf8(bytes@) ==> lossy_text(bytes@) == decode_utf8(bytes@),
{
    let text = decode(bytes);
    parse_text(text.as_str())
}

/// The keys and values of a `mod.info` with this text. Where a key stands twice,
/// the last line counts.
pub fn parse_text(text: &str) -> (r: Table<String>)
    ensures
        forall|key: Seq<char>| #[trigger] at(r.deep_view(), key) == text_value(text@, key),
{
    let lines = split_text(text, '\n');
    let mut r: Table<String> = Table::new();
    let ghost all = lines.deep_view();
    let mut i: usize = 0;
    proof {
        assert forall|key: Seq<char>| #[trigger] at(r.deep_view(), key) == last_value(
            all.take(0),
            key,
        ) by {}
    }
    while i < lines.len()
        invariant
            i <= lines.len(),
            all == lines.deep_view(),
            forall|key: Seq<char>|
                #[trigger] at(r.deep_view(), key) == last_value(all.take(i as int), key),
        decreases lines.len() - i,
    {
        let ghost before = r.deep_view();
        proof {
            assert(all.take(i + 1).drop_last() =~= all.take(i as int));
            assert(all.take(i + 1).last() == lines@[i as int]@);
        }
        match read_line(lines[i].as_str()) {
            Some((k, v)) => {
                proof {
                    law_set_at(before, k@, v@);
                }
                r.set(k, v);
                proof {
                    assert forall|key: Seq<char>| #[trigger] at(r.deep_view(), key)
                        == last_value(all.take(i + 1), key) by {
                        assert(at(before, key) == last_value(all.take(i as int), key));
                    }
                }
            },
            None => {
                proof {
                    assert forall|key: Seq<char>| #[trigger] at(r.deep_view(), key)
                        == last_value(all.take(i + 1), key) by {
                        assert(at(before, key) == last_value(all.take(i as int), key));
                    }
                }
            },
        }
        i += 1;
    }
    assert(all.take(lines.len() as int) =~= all);
    r
}

/// A directory's entry, as it is found on disk. A `mod.info` comes with its
/// bytes; what another file holds does not matter.
pub struct Entry {
    pub name: String,
    /// Whether the name is valid Unicode; where it is not, `name` stands for it
    /// with replacement characters.
    pub unicode: bool,
    pub path: String,
    pub node: Node,
}

pub enum Node {
    Dir(Vec<Entry>),
    /// A directory that could not be listed, and why.
    Broken(String),
    File(Vec<u8>),
    /// A file that could not be read, and why.
    Unread(String),
}

pub struct EntryView {
    pub name: Seq<char>,
    pub unicode: bool,
    pub path: Seq<char>,
    pub node: NodeView,
}

pub enum NodeView {
    Dir(Seq<EntryView>),
    Broken(Seq<char>),
    File(Seq<u8>),
    Unread(Seq<char>),
}

impl Entry {
    pub open spec fn model(self) -> EntryView
        decreases self,
    {
        EntryView {
            name: self.name@,
            unicode: self.unicode,
            path: self.path@,
            node: self.node.model(),
        }
    }
}

impl Node {
    pub open spec fn model(self) -> NodeView
        decreases self,
    {
        match self {
            Node::Dir(v) => NodeView::Dir(
                Seq::new(
                    v@.len(),
                    |i: int|
                        if 0 <= i < v@.len() {
                            v@[i].model()
                        } else {
                            EntryView {
                                name: seq![],
                                unicode: true,
                                path: seq![],
                                node: NodeView::File(seq![]),
                            }
                        },
                ),
            ),
            Node::Broken(e) => NodeView::Broken(e@),
            Node::File(b) => NodeView::File(b@),
            Node::Unread(e) => NodeView::Unread(e@),
        }
    }
}

/// A `mod.info` and its bytes, or why they could not be read.
pub struct Info {
    pub path: String,
    pub bytes: Result<Vec<u8>, String>,
}

pub struct InfoView {
    pub path: Seq<char>,
    pub bytes: Result<Seq<u8>, Seq<char>>,
}

impl DeepView for Info {
    type V = InfoView;

    open spec fn deep_view(&self) -> InfoView {
        InfoView {
            path: self.path@,
            bytes: match self.bytes {
                Ok(b) => Ok(b@),
                Err(e) => Err(e@),
            },
        }
    }
}

pub open spec fn names_of(entries: Seq<EntryView>) -> Seq<Seq<char>> {
    entries.map_values(|e: EntryView| e.name)
}

pub open spec fn is_directory(node: NodeView) -> bool {
    node is Dir || node is Broken
}

/// The `mod.info` that an entry is, if it is one.
pub open spec fn info_of(e: EntryView) -> Option<InfoView> {
    if e.name != "mod.info"@ {
        None
    } else {
        match e.node {
            NodeView::File(b) => Some(InfoView { path: e.path, bytes: Ok(b) }),
            NodeView::Unread(m) => Some(InfoView { path: e.path, bytes: Err(m) }),
            _ => None,
        }
    }
}

/// The `mod.info` files among the entries at these positions.
pub open spec fn infos_here(entries: Seq<EntryView>, order: Seq<int>) -> Seq<InfoView>
    decreases order.len(),
{
    if order.len() == 0 {
        seq![]
    } else {
        let r = infos_here(entries, order.drop_last());
        match info_of(entries[order.last()]) {
            Some(info) => r.push(info),
            None => r,
        }
    }
}

/// What is said of something that could not be read.
pub open spec fn unreadable(path: Seq<char>, why: Seq<char>) -> Seq<char> {
    "Không đọc được "@ + path + ": "@ + why
}

/// The `mod.info` files in a directory and below it: those that stand in it, in
/// order of listing, then those of its directories, in the same order.
pub open spec fn infos_in(path: Seq<char>, node: NodeView) -> Result<Seq<InfoView>, Seq<char>>
    decreases node, 0nat,
{
    match node {
        NodeView::Dir(entries) => {
            let order = listing_order(names_of(entries));
            match infos_below(entries, order, order.len()) {
                Ok(below) => Ok(infos_here(entries, order) + below),
                Err(e) => Err(e),
            }
        },
        NodeView::Broken(e) => Err(unreadable(path, e)),
        _ => Ok(seq![]),
    }
}

/// The `mod.info` files of the directories among the entries at the first `n`
/// of these positions.
pub open spec fn infos_below(entries: Seq<EntryView>, order: Seq<int>, n: nat) -> Result<
    Seq<InfoView>,
    Seq<char>,
>
    decreases entries, n,
{
    if n == 0 || n > order.len() {
        Ok(seq![])
    } else {
        match infos_below(entries, order, (n - 1) as nat) {
            Ok(r) => {
                let k = order[n - 1];
                if 0 <= k < entries.len() && is_directory(entries[k].node) {
                    match infos_in(entries[k].path, entries[k].node) {
                        Ok(more) => Ok(r + more),
                        Err(e) => Err(e),
                    }
                } else {
                    Ok(r)
                }
            },
            Err(e) => Err(e),
        }
    }
}

pub open spec fn infos_result(r: Result<Vec<Info>, String>) -> Result<Seq<InfoView>, Seq<char>> {
    match r {
        Ok(v) => Ok(v.deep_view()),
        Err(e) => Err(e@),
    }
}

fn unread_text(path: &str, why: &str) -> (r: String)
    ensures
        r@ == unreadable(path@, why@),
{
    "Không đọc được ".to_string().concat(path).concat(": ").concat(why)
}

fn entry_names(entries: &Vec<Entry>) -> (r: Vec<String>)
    ensures
        r.deep_view() == names_of(Seq::new(entries@.len(), |i: int| entries@[i].model())),
{
    let mut r: Vec<String> = Vec::new();
    let mut i: usize = 0;
    while i < entries.len()
        invariant
            i <= entries.len(),
            r.len() == i,
            forall|k: int| 0 <= k < i ==> (#[trigger] r@[k])@ == entries@[k].name@,
        decreases entries.len() - i,
    {
        r.push(entries[i].name.clone());
        i += 1;
    }
    assert(r.deep_view() =~= names_of(Seq::new(entries@.len(), |i: int| entries@[i].model())));
    r
}

fn entry_info(e: &Entry) -> (r: Option<Info>)
    ensures
        match r {
            Some(i) => info_of(e.model()) == Some(i.deep_view()),
            None => info_of(e.model()) is None,
        },
{
    if !same(e.name.as_str(), "mod.info") {
        return None;
    }
    match &e.node {
        Node::File(b) => {
            let bytes = b.clone();
            assert(bytes@ =~= b@);
            Some(Info { path: e.path.clone(), bytes: Ok(bytes) })
        },
        Node::Unread(m) => Some(Info { path: e.path.clone(), bytes: Err(m.clone()) }),
        _ => None,
    }
}

/// The `mod.info` files in a directory and below it.
pub fn collect_modinfo(path: &str, node: &Node) -> (r: Result<Vec<Info>, String>)
    ensures
        infos_result(r) == infos_in(path@, node.model()),
    decreases node,
{
    match node {
        Node::Dir(entries) => {
            let ghost all = node.model()->Dir_0;
            let names = entry_names(entries);
            assert(names.deep_view() =~= names_of(all));
            let order = list_order(&names);
            let ghost o = listing_order(names_of(all));
            assert(o.len() == order.len());
            let mut out: Vec<Info> = Vec::new();
            let mut i: usize = 0;
            assert(out.deep_view() =~= seq![]);
            while i < order.len()
                invariant
                    i <= order.len(),
                    *node == Node::Dir(*entries),
                    all == node.model()->Dir_0,
                    all.len() == entries.len(),
                    order@.map_values(|i: usize| i as int) == o,
                    forall|k: int| 0 <= k < order.len() ==> (#[trigger] order@[k]) < entries.len(),
                    out.deep_view() == infos_here(all, o.take(i as int)),
                decreases order.len() - i,
            {
                proof {
                    assert(o.take(i + 1).drop_last() =~= o.take(i as int));
                    assert(o[i as int] == order@[i as int] as int);
                    assert(all[o[i as int]] == entries@[o[i as int]].model());
                }
                match entry_info(&entries[order[i]]) {
                    Some(info) => {
                        let ghost before = out.deep_view();
                        out.push(info);
                        assert(out.deep_view() =~= before.push(info.deep_view()));
                    },
                    None => {},
                }
                i += 1;
            }
            assert(o.take(o.len() as int) =~= o);
            let ghost here = out.deep_view();
            let mut n: usize = 0;
            assert(here + seq![] =~= here);
            while n < order.len()
                invariant
                    n <= order.len(),
                    *node == Node::Dir(*entries),
                    all == node.model()->Dir_0,
                    all.len() == entries.len(),
                    o == listing_order(names_of(all)),
                    o.len() == order.len(),
                    order@.map_values(|i: usize| i as int) == o,
                    forall|k: int| 0 <= k < order.len() ==> (#[trigger] order@[k]) < entries.len(),
                    here == infos_here(all, o),
                    infos_below(all, o, n as nat) matches Ok(below) && out.deep_view() == here
                        + below,
                decreases order.len() - n,
            {
                let k = order[n];
                assert(o[n as int] == k as int);
                assert(all[k as int] == entries@[k as int].model());
                let ghost below = infos_below(all, o, n as nat)->Ok_0;
                let directory = match &entries[k].node {
                    Node::Dir(_) => true,
                    Node::Broken(_) => true,
                    _ => false,
                };
                if directory {
                    assert(decreases_to!(entries[k as int] => entries[k as int].node));
                    assert(decreases_to!(entries => entries[k as int]));
                    assert(decreases_to!(node => node->Dir_0));
                    match collect_modinfo(entries[k].path.as_str(), &entries[k].node) {
                        Ok(more) => {
                            let ghost before = out.deep_view();
                            let ghost added = more.deep_view();
                            let mut more = more;
                            out.append(&mut more);
                            assert(out.deep_view() =~= before + added);
                            assert(before + added =~= here + (below + added));
                        },
                        Err(e) => {
                            proof {
                                lemma_below_fails(all, o, (n + 1) as nat, o.len());
                            }
                            return Err(e);
                        },
                    }
                }
                n += 1;
            }
            Ok(out)
        },
        Node::Broken(e) => Err(unread_text(path, e.as_str())),
        _ => {
            let out: Vec<Info> = Vec::new();
            assert(out.deep_view() =~= seq![]);
            Ok(out)
        },
    }
}

/// Where a part fails, the whole fails in the same way.
proof fn lemma_below_fails(entries: Seq<EntryView>, order: Seq<int>, m: nat, n: nat)
    requires
        m <= n <= order.len(),
        infos_below(entries, order, m) is Err,
    ensures
        infos_below(entries, order, n) == infos_below(entries, order, m),
    decreases n,
{
    if m < n {
        lemma_below_fails(entries, order, m, (n - 1) as nat);
    }
}

/// A mod folder of an item: its name, where it stands, and its `mod.info` files.
pub struct ModRoot {
    pub folder: String,
    pub path: String,
    pub infos: Vec<Info>,
}

pub struct RootView {
    pub folder: Seq<char>,
    pub path: Seq<char>,
    pub infos: Seq<InfoView>,
}

impl DeepView for ModRoot {
    type V = RootView;

    open spec fn deep_view(&self) -> RootView {
        RootView {
            folder: self.folder@,
            path: self.path@,
            infos: self.infos.deep_view(),
        }
    }
}

/// A downloaded item: where its `mods` directory would stand, and the directory
/// if it is there.
pub struct Source {
    pub path: String,
    pub mods: Option<Node>,
}

pub struct SourceView {
    pub path: Seq<char>,
    pub mods: Option<NodeView>,
}

impl DeepView for Source {
    type V = SourceView;

    open spec fn deep_view(&self) -> SourceView {
        SourceView {
            path: self.path@,
            mods: match self.mods {
                Some(n) => Some(n.model()),
                None => None,
            },
        }
    }
}

/// The mod folders of an item, with a warning for each folder that was passed
/// over.
pub struct Roots {
    pub warnings: Vec<String>,
    pub roots: Result<Vec<ModRoot>, String>,
}

#[verifier::ext_equal]
pub struct RootsView {
    pub warnings: Seq<Seq<char>>,
    pub roots: Result<Seq<RootView>, Seq<char>>,
}

impl Roots {
    pub open spec fn model(self) -> RootsView {
        RootsView {
            warnings: self.warnings.deep_view(),
            roots: match self.roots {
                Ok(v) => Ok(v.deep_view()),
                Err(e) => Err(e@),
            },
        }
    }
}

/// What one entry of an item's `mods` directory adds. A folder with a name that
/// cannot be a mod folder's is passed over with a warning, one without a
/// `mod.info` without; a directory that cannot be read ends it.
pub open spec fn with_entry(r: RootsView, e: EntryView) -> RootsView {
    match r.roots {
        Err(_) => r,
        Ok(roots) => if !is_directory(e.node) {
            r
        } else if !e.unicode {
            RootsView {
                warnings: r.warnings.push(
                    "! bỏ qua thư mục mod có tên không phải Unicode hợp lệ: "@ + e.path,
                ),
                ..r
            }
        } else {
            match folder_check(e.name) {
                Err(why) => RootsView {
                    warnings: r.warnings.push(
                        "! bỏ qua thư mục mod "@ + e.path + ": "@ + why,
                    ),
                    ..r
                },
                Ok(_) => match infos_in(e.path, e.node) {
                    Err(why) => RootsView { roots: Err(why), ..r },
                    Ok(infos) => if infos.len() == 0 {
                        r
                    } else {
                        RootsView {
                            roots: Ok(
                                roots.push(RootView { folder: e.name, path: e.path, infos }),
                            ),
                            ..r
                        }
                    },
                },
            }
        },
    }
}

/// The mod folders among the entries at these positions.
pub open spec fn roots_among(entries: Seq<EntryView>, order: Seq<int>) -> RootsView
    decreases order.len(),
{
    if order.len() == 0 {
        RootsView { warnings: seq![], roots: Ok(seq![]) }
    } else {
        with_entry(roots_among(entries, order.drop_last()), entries[order.last()])
    }
}

/// The mod folders of an item, in order of listing.
pub open spec fn roots_of(source: SourceView) -> RootsView {
    match source.mods {
        Some(NodeView::Dir(entries)) => roots_among(entries, listing_order(names_of(entries))),
        Some(NodeView::Broken(e)) => RootsView {
            warnings: seq![],
            roots: Err(unreadable(source.path, e)),
        },
        _ => RootsView { warnings: seq![], roots: Ok(seq![]) },
    }
}

/// The mod folders of an item.
pub fn mod_roots(item: &Source) -> (r: Roots)
    ensures
        r.model() == roots_of(item.deep_view()),
{
    let mut warnings: Vec<String> = Vec::new();
    let mut roots: Vec<ModRoot> = Vec::new();
    assert(warnings.deep_view() =~= seq![]);
    assert(roots.deep_view() =~= seq![]);
    match &item.mods {
        Some(Node::Dir(entries)) => {
            let ghost all = item.deep_view().mods->Some_0->Dir_0;
            let names = entry_names(entries);
            assert(names.deep_view() =~= names_of(all));
            let order = list_order(&names);
            let ghost o = listing_order(names_of(all));
            let mut i: usize = 0;
            while i < order.len()
                invariant
                    i <= order.len(),
                    item.mods == Some(Node::Dir(*entries)),
                    all == item.deep_view().mods->Some_0->Dir_0,
                    all.len() == entries.len(),
                    o == listing_order(names_of(all)),
                    order@.map_values(|i: usize| i as int) == o,
                    forall|k: int| 0 <= k < order.len() ==> (#[trigger] order@[k]) < entries.len(),
                    roots_among(all, o.take(i as int)) == (RootsView {
                        warnings: warnings.deep_view(),
                        roots: Ok(roots.deep_view()),
                    }),
                decreases order.len() - i,
            {
                let k = order[i];
                proof {
                    assert(o.take(i + 1).drop_last() =~= o.take(i as int));
                    assert(o[i as int] == k as int);
                    assert(all[k as int] == entries@[k as int].model());
                }
                let e = &entries[k];
                let directory = match &e.node {
                    Node::Dir(_) => true,
                    Node::Broken(_) => true,
                    _ => false,
                };
                let ghost before = warnings.deep_view();
                if directory {
                    if !e.unicode {
                        let line = "! bỏ qua thư mục mod có tên không phải Unicode hợp lệ: ".to_string().concat(
                        e.path.as_str());
                        warnings.push(line);
                        assert(warnings.deep_view() =~= before.push(line@));
                    } else {
                        match check_folder(e.name.as_str()) {
                            Err(why) => {
                                let line = "! bỏ qua thư mục mod ".to_string().concat(
                                    e.path.as_str(),
                                ).concat(": ").concat(why.as_str());
                                warnings.push(line);
                                assert(warnings.deep_view() =~= before.push(line@));
                            },
                            Ok(_) => match collect_modinfo(e.path.as_str(), &e.node) {
                                Err(why) => {
                                    let ghost early = RootsView {
                                        warnings: warnings.deep_view(),
                                        roots: Err(why@),
                                    };
                                    proof {
                                        assert(roots_among(all, o.take(i + 1)) == early);
                                        lemma_roots_fail(all, o, i + 1);
                                    }
                                    return Roots { warnings, roots: Err(why) };
                                },
                                Ok(infos) => {
                                    if infos.len() > 0 {
                                        let ghost old_roots = roots.deep_view();
                                        let root = ModRoot {
                                            folder: e.name.clone(),
                                            path: e.path.clone(),
                                            infos,
                                        };
                                        roots.push(root);
                                        assert(roots.deep_view() =~= old_roots.push(
                                            root.deep_view(),
                                        ));
                                    }
                                },
                            },
                        }
                    }
                }
                i += 1;
            }
            assert(o.take(o.len() as int) =~= o);
            Roots { warnings, roots: Ok(roots) }
        },
        Some(Node::Broken(e)) => Roots {
            warnings,
            roots: Err(unread_text(item.path.as_str(), e.as_str())),
        },
        _ => Roots { warnings, roots: Ok(roots) },
    }
}

proof fn lemma_roots_fail(entries: Seq<EntryView>, order: Seq<int>, m: int)
    requires
        0 <= m <= order.len(),
        roots_among(entries, order.take(m)).roots is Err,
    ensures
        roots_among(entries, order) == roots_among(entries, order.take(m)),
    decreases order.len(),
{
    if m == order.len() {
        assert(order.take(m) =~= order);
    } else {
        assert(order.drop_last().take(m) =~= order.take(m));
        lemma_roots_fail(entries, order.drop_last(), m);
    }
}

/// A mod folder has a name that a folder can have, and a `mod.info`.
pub proof fn law_root_names_are_checked(source: SourceView)
    ensures
        roots_of(source).roots matches Ok(roots) ==> forall|i: int|
            0 <= i < roots.len() ==> folder_check((#[trigger] roots[i]).folder) is Ok
                && roots[i].infos.len() > 0,
{
    match source.mods {
        Some(NodeView::Dir(entries)) => {
            lemma_roots_checked(entries, listing_order(names_of(entries)));
        },
        _ => {},
    }
}

proof fn lemma_roots_checked(entries: Seq<EntryView>, order: Seq<int>)
    ensures
        roots_among(entries, order).roots matches Ok(roots) ==> forall|i: int|
            0 <= i < roots.len() ==> folder_check((#[trigger] roots[i]).folder) is Ok
                && roots[i].infos.len() > 0,
    decreases order.len(),
{
    if order.len() > 0 {
        lemma_roots_checked(entries, order.drop_last());
    }
}

/// All `mod.info` files of the folders, in order.
pub open spec fn all_infos(roots: Seq<RootView>) -> Seq<InfoView>
    decreases roots.len(),
{
    if roots.len() == 0 {
        seq![]
    } else {
        all_infos(roots.drop_last()) + roots.last().infos
    }
}

pub open spec fn lower_all(list: Seq<Seq<char>>) -> Seq<Seq<char>> {
    list.map_values(|s: Seq<char>| lowercase(s))
}

/// The items of `list` without those that an earlier one equals but for case.
pub open spec fn distinct(list: Seq<Seq<char>>) -> Seq<Seq<char>>
    decreases list.len(),
{
    if list.len() == 0 {
        seq![]
    } else {
        let r = distinct(list.drop_last());
        if lower_all(r).contains(lowercase(list.last())) {
            r
        } else {
            r.push(list.last())
        }
    }
}

/// The keys of what is left are those of the list, each once.
pub proof fn law_distinct(list: Seq<Seq<char>>)
    ensures
        lower_all(distinct(list)).no_duplicates(),
        forall|k: Seq<char>|
            #[trigger] lower_all(distinct(list)).contains(k) <==> lower_all(list).contains(k),
        forall|x: Seq<char>| #[trigger] distinct(list).contains(x) ==> list.contains(x),
    decreases list.len(),
{
    if list.len() > 0 {
        let t = list.drop_last();
        law_distinct(t);
        let r = distinct(t);
        let d = distinct(list);
        let key = lowercase(list.last());
        assert(lower_all(list) =~= lower_all(t).push(key));
        assert(d == r || lower_all(d) =~= lower_all(r).push(key));
        assert forall|k: Seq<char>| #[trigger] lower_all(d).contains(k) <==> lower_all(
            list,
        ).contains(k) by {
            if lower_all(d).contains(k) {
                let i = choose|i: int| 0 <= i < lower_all(d).len() && lower_all(d)[i] == k;
                if i < r.len() {
                    assert(lower_all(r)[i] == k);
                    assert(lower_all(r).contains(k));
                    let j = choose|j: int| 0 <= j < lower_all(t).len() && lower_all(t)[j] == k;
                    assert(lower_all(list)[j] == k);
                } else {
                    assert(lower_all(list)[t.len() as int] == k);
                }
            }
            if lower_all(list).contains(k) {
                let j = choose|j: int| 0 <= j < lower_all(list).len() && lower_all(list)[j] == k;
                if j < t.len() {
                    assert(lower_all(t)[j] == k);
                    assert(lower_all(r).contains(k));
                    let i = choose|i: int| 0 <= i < lower_all(r).len() && lower_all(r)[i] == k;
                    assert(lower_all(d)[i] == k);
                } else if d != r {
                    assert(lower_all(d)[r.len() as int] == k);
                }
            }
        }
        assert forall|x: Seq<char>| #[trigger] d.contains(x) implies list.contains(x) by {
            let i = choose|i: int| 0 <= i < d.len() && d[i] == x;
            if i < r.len() {
                assert(r[i] == x);
                assert(r.contains(x));
                let j = choose|j: int| 0 <= j < t.len() && t[j] == x;
                assert(list[j] == x);
            } else {
                assert(list[t.len() as int] == x);
            }
        }
    }
}

/// The mod id that a `mod.info` gives, if it gives one.
pub open spec fn ids_of(info: InfoView) -> Seq<Seq<char>> {
    match info.bytes {
        Ok(b) => match info_value(b, "id"@) {
            Some(v) => if v.len() > 0 {
                seq![v]
            } else {
                seq![]
            },
            None => seq![],
        },
        Err(_) => seq![],
    }
}

/// The normalized ones among `parts`, without the empty ones.
pub open spec fn normal_parts(parts: Seq<Seq<char>>) -> Seq<Seq<char>>
    decreases parts.len(),
{
    if parts.len() == 0 {
        seq![]
    } else {
        let r = normal_parts(parts.drop_last());
        let n = normalized(parts.last());
        if n.len() > 0 {
            r.push(n)
        } else {
            r
        }
    }
}

/// The mod ids that a `mod.info` requires.
pub open spec fn needs_of(info: InfoView) -> Seq<Seq<char>> {
    match info.bytes {
        Ok(b) => match info_value(b, "require"@) {
            Some(v) => normal_parts(split(v, ',')),
            None => seq![],
        },
        Err(_) => seq![],
    }
}

pub open spec fn ids_in(infos: Seq<InfoView>) -> Seq<Seq<char>>
    decreases infos.len(),
{
    if infos.len() == 0 {
        seq![]
    } else {
        ids_in(infos.drop_last()) + ids_of(infos.last())
    }
}

pub open spec fn needs_in(infos: Seq<InfoView>) -> Seq<Seq<char>>
    decreases infos.len(),
{
    if infos.len() == 0 {
        seq![]
    } else {
        needs_in(infos.drop_last()) + needs_of(infos.last())
    }
}

/// What is said of the first `mod.info` that could not be read.
pub open spec fn first_unread(infos: Seq<InfoView>) -> Option<Seq<char>>
    decreases infos.len(),
{
    if infos.len() == 0 {
        None
    } else {
        match first_unread(infos.drop_last()) {
            Some(e) => Some(e),
            None => match infos.last().bytes {
                Ok(_) => None,
                Err(why) => Some(unreadable(infos.last().path, why)),
            },
        }
    }
}

/// The mod ids that an item provides and those that it requires.
pub struct Metadata {
    pub modids: Vec<String>,
    pub required: Vec<String>,
}

#[verifier::ext_equal]
pub struct MetadataView {
    pub modids: Seq<Seq<char>>,
    pub required: Seq<Seq<char>>,
}

impl DeepView for Metadata {
    type V = MetadataView;

    open spec fn deep_view(&self) -> MetadataView {
        MetadataView { modids: self.modids.deep_view(), required: self.required.deep_view() }
    }
}

pub open spec fn metadata_result(r: Result<Metadata, String>) -> Result<MetadataView, Seq<char>> {
    match r {
        Ok(m) => Ok(m.deep_view()),
        Err(e) => Err(e@),
    }
}

/// What the `mod.info` files provide and require, each id where it first
/// stands; ids that differ only in case are one.
pub open spec fn metadata_of(infos: Seq<InfoView>) -> Result<MetadataView, Seq<char>> {
    match first_unread(infos) {
        Some(e) => Err(e),
        None => Ok(
            MetadataView {
                modids: distinct(ids_in(infos)),
                required: distinct(needs_in(infos)),
            },
        ),
    }
}

/// Adds `item` to a list of distinct items, unless it is there but for case.
fn add_distinct(list: &mut Vec<String>, keys: &mut Vec<String>, item: String, Ghost(all): Ghost<
    Seq<Seq<char>>,
>)
    requires
        old(list).deep_view() == distinct(all),
        old(keys).deep_view() == lower_all(distinct(all)),
    ensures
        final(list).deep_view() == distinct(all.push(item@)),
        final(keys).deep_view() == lower_all(distinct(all.push(item@))),
{
    let key = to_lower(item.as_str());
    let ghost before = list.deep_view();
    let ghost known = keys.deep_view();
    assert(all.push(item@).drop_last() =~= all);
    if !holds(keys, key.as_str()) {
        keys.push(key);
        list.push(item);
        assert(list.deep_view() =~= before.push(item@));
        assert(keys.deep_view() =~= known.push(key@));
        assert(lower_all(before.push(item@)) =~= lower_all(before).push(key@));
    }
}

fn add_needs(list: &mut Vec<String>, keys: &mut Vec<String>, value: &str, Ghost(all): Ghost<
    Seq<Seq<char>>,
>)
    requires
        old(list).deep_view() == distinct(all),
        old(keys).deep_view() == lower_all(distinct(all)),
    ensures
        final(list).deep_view() == distinct(all + normal_parts(split(value@, ','))),
        final(keys).deep_view() == lower_all(distinct(all + normal_parts(split(value@, ',')))),
{
    let parts = split_text(value, ',');
    let ghost ps = parts.deep_view();
    let mut i: usize = 0;
    assert(all + normal_parts(ps.take(0)) =~= all);
    while i < parts.len()
        invariant
            i <= parts.len(),
            ps == parts.deep_view(),
            list.deep_view() == distinct(all + normal_parts(ps.take(i as int))),
            keys.deep_view() == lower_all(distinct(all + normal_parts(ps.take(i as int)))),
        decreases parts.len() - i,
    {
        let n = normalize_required(parts[i].as_str());
        proof {
            assert(ps.take(i + 1).drop_last() =~= ps.take(i as int));
        }
        let ghost so_far = all + normal_parts(ps.take(i as int));
        if n.unicode_len() > 0 {
            assert(so_far.push(n@) =~= all + normal_parts(ps.take(i + 1)));
            add_distinct(list, keys, n, Ghost(so_far));
        }
        i += 1;
    }
    assert(ps.take(parts.len() as int) =~= ps);
}

/// What the folders provide and require.
pub fn mod_metadata(roots: &Vec<ModRoot>) -> (r: Result<Metadata, String>)
    ensures
        metadata_result(r) == metadata_of(all_infos(roots.deep_view())),
{
    let mut modids: Vec<String> = Vec::new();
    let mut modid_keys: Vec<String> = Vec::new();
    let mut required: Vec<String> = Vec::new();
    let mut required_keys: Vec<String> = Vec::new();
    let ghost all = roots.deep_view();
    let mut i: usize = 0;
    proof {
        assert(modids.deep_view() =~= seq![]);
        assert(modid_keys.deep_view() =~= lower_all(seq![]));
        assert(required.deep_view() =~= seq![]);
        assert(required_keys.deep_view() =~= lower_all(seq![]));
    }
    while i < roots.len()
        invariant
            i <= roots.len(),
            all == roots.deep_view(),
            first_unread(all_infos(all.take(i as int))) is None,
            modids.deep_view() == distinct(ids_in(all_infos(all.take(i as int)))),
            modid_keys.deep_view() == lower_all(modids.deep_view()),
            required.deep_view() == distinct(needs_in(all_infos(all.take(i as int)))),
            required_keys.deep_view() == lower_all(required.deep_view()),
        decreases roots.len() - i,
    {
        let infos = &roots[i].infos;
        let ghost done = all_infos(all.take(i as int));
        let ghost here = infos.deep_view();
        let mut j: usize = 0;
        proof {
            assert(all.take(i + 1).drop_last() =~= all.take(i as int));
            assert(all_infos(all.take(i + 1)) == done + here);
            assert(done + here.take(0) =~= done);
        }
        while j < infos.len()
            invariant
                i < roots.len(),
                j <= infos.len(),
                all == roots.deep_view(),
                all_infos(all.take(i + 1)) == done + here,
                here == infos.deep_view(),
                first_unread(done + here.take(j as int)) is None,
                modids.deep_view() == distinct(ids_in(done + here.take(j as int))),
                modid_keys.deep_view() == lower_all(modids.deep_view()),
                required.deep_view() == distinct(needs_in(done + here.take(j as int))),
                required_keys.deep_view() == lower_all(required.deep_view()),
            decreases infos.len() - j,
        {
            let ghost so_far = done + here.take(j as int);
            let ghost next = done + here.take(j + 1);
            proof {
                assert(next.drop_last() =~= so_far);
                assert(next.last() == infos@[j as int].deep_view());
            }
            match &infos[j].bytes {
                Err(why) => {
                    let e = unread_text(infos[j].path.as_str(), why.as_str());
                    proof {
                        assert(first_unread(next) == Some(e@));
                        assert(next =~= (done + here).take(next.len() as int));
                        lemma_first_unread(done + here, next.len() as int);
                        assert((done + here) =~= all_infos(all.take(i + 1)));
                        lemma_infos_grow(all, i + 1);
                        assert((done + here) =~= all_infos(all).take((done + here).len() as int));
                        lemma_first_unread(all_infos(all), (done + here).len() as int);
                    }
                    return Err(e);
                },
                Ok(bytes) => {
                    let values = parse_modinfo(bytes);
                    let ghost ids = ids_in(so_far);
                    let ghost needs = needs_in(so_far);
                    match values.get("id") {
                        Some(v) => {
                            assert(at(values.deep_view(), "id"@) == info_value(bytes@, "id"@));
                            if v.unicode_len() > 0 {
                                assert(ids.push(v@) =~= ids + seq![v@]);
                                add_distinct(
                                    &mut modids,
                                    &mut modid_keys,
                                    v.clone(),
                                    Ghost(ids),
                                );
                            } else {
                                assert(ids + seq![] =~= ids);
                            }
                        },
                        None => {
                            assert(at(values.deep_view(), "id"@) == info_value(bytes@, "id"@));
                            assert(ids + seq![] =~= ids);
                        },
                    }
                    match values.get("require") {
                        Some(v) => {
                            assert(at(values.deep_view(), "require"@) == info_value(
                                bytes@,
                                "require"@,
                            ));
                            add_needs(&mut required, &mut required_keys, v.as_str(), Ghost(needs));
                        },
                        None => {
                            assert(at(values.deep_view(), "require"@) == info_value(
                                bytes@,
                                "require"@,
                            ));
                            assert(needs + seq![] =~= needs);
                        },
                    }
                },
            }
            j += 1;
        }
        assert(here.take(infos.len() as int) =~= here);
        i += 1;
    }
    assert(all.take(roots.len() as int) =~= all);
    Ok(Metadata { modids, required })
}

proof fn lemma_first_unread(infos: Seq<InfoView>, m: int)
    requires
        0 <= m <= infos.len(),
        first_unread(infos.take(m)) is Some,
    ensures
        first_unread(infos) == first_unread(infos.take(m)),
    decreases infos.len(),
{
    if m == infos.len() {
        assert(infos.take(m) =~= infos);
    } else {
        assert(infos.drop_last().take(m) =~= infos.take(m));
        lemma_first_unread(infos.drop_last(), m);
    }
}

proof fn lemma_infos_grow(roots: Seq<RootView>, m: int)
    requires
        0 <= m <= roots.len(),
    ensures
        all_infos(roots.take(m)).len() <= all_infos(roots).len(),
        all_infos(roots).take(all_infos(roots.take(m)).len() as int) == all_infos(roots.take(m)),
    decreases roots.len(),
{
    if m == roots.len() {
        assert(roots.take(m) =~= roots);
        assert(all_infos(roots).take(all_infos(roots).len() as int) =~= all_infos(roots));
    } else {
        assert(roots.drop_last().take(m) =~= roots.take(m));
        lemma_infos_grow(roots.drop_last(), m);
        let a = all_infos(roots.drop_last());
        let n = all_infos(roots.take(m)).len() as int;
        assert(all_infos(roots).take(n) =~= a.take(n));
    }
}

/// What a look at an item comes to: the warnings, and what it provides and
/// requires.
pub struct Scan {
    pub warnings: Vec<String>,
    pub metadata: Result<Metadata, String>,
}

#[verifier::ext_equal]
pub struct ScanView {
    pub warnings: Seq<Seq<char>>,
    pub metadata: Result<MetadataView, Seq<char>>,
}

impl Scan {
    pub open spec fn model(self) -> ScanView {
        ScanView {
            warnings: self.warnings.deep_view(),
            metadata: metadata_result(self.metadata),
        }
    }
}

pub open spec fn scan_of(source: SourceView) -> ScanView {
    let r = roots_of(source);
    ScanView {
        warnings: r.warnings,
        metadata: match r.roots {
            Ok(roots) => metadata_of(all_infos(roots)),
            Err(e) => Err(e),
        },
    }
}

/// What an item provides and requires.
pub fn source_metadata(source: &Source) -> (r: Scan)
    ensures
        r.model() == scan_of(source.deep_view()),
{
    let found = mod_roots(source);
    let metadata = match found.roots {
        Ok(roots) => mod_metadata(&roots),
        Err(e) => Err(e),
    };
    Scan { warnings: found.warnings, metadata }
}

/// Whether an item provides exactly this mod id: one of its `mod.info` files gives
/// it, letter for letter. An item that cannot be read provides none.
pub open spec fn provides(source: SourceView, wanted: Seq<char>) -> bool {
    match roots_of(source).roots {
        Ok(roots) => first_unread(all_infos(roots)) is None && ids_in(all_infos(roots)).contains(
            wanted,
        ),
        Err(_) => false,
    }
}

proof fn lemma_contains_in_sum(a: Seq<Seq<char>>, b: Seq<Seq<char>>, x: Seq<char>)
    ensures
        (a + b).contains(x) <==> a.contains(x) || b.contains(x),
{
    if a.contains(x) {
        let i = choose|i: int| 0 <= i < a.len() && a[i] == x;
        assert((a + b)[i] == x);
    }
    if b.contains(x) {
        let i = choose|i: int| 0 <= i < b.len() && b[i] == x;
        assert((a + b)[a.len() + i] == x);
    }
}

proof fn lemma_ids_in_sum(a: Seq<InfoView>, b: Seq<InfoView>)
    ensures
        ids_in(a + b) == ids_in(a) + ids_in(b),
    decreases b.len(),
{
    if b.len() == 0 {
        assert(a + b =~= a);
        assert(ids_in(a) + ids_in(b) =~= ids_in(a));
    } else {
        assert((a + b).drop_last() =~= a + b.drop_last());
        lemma_ids_in_sum(a, b.drop_last());
        assert(ids_in(a + b) =~= ids_in(a) + ids_in(b));
    }
}

/// Whether one of the `mod.info` files gives the mod id `wanted`.
fn names_modid(infos: &Vec<Info>, wanted: &str) -> (r: bool)
    ensures
        r == ids_in(infos.deep_view()).contains(wanted@),
{
    let ghost all = infos.deep_view();
    let mut found = false;
    let mut i: usize = 0;
    assert(all.take(0) =~= seq![]);
    while i < infos.len()
        invariant
            i <= infos.len(),
            all == infos.deep_view(),
            found == ids_in(all.take(i as int)).contains(wanted@),
        decreases infos.len() - i,
    {
        let ghost so_far = ids_in(all.take(i as int));
        let ghost here = ids_of(all[i as int]);
        proof {
            assert(all.take(i + 1).drop_last() =~= all.take(i as int));
            assert(all.take(i + 1).last() == infos@[i as int].deep_view());
            lemma_contains_in_sum(so_far, here, wanted@);
        }
        if let Ok(bytes) = &infos[i].bytes {
            let values = parse_modinfo(bytes);
            assert(at(values.deep_view(), "id"@) == info_value(bytes@, "id"@));
            if let Some(v) = values.get("id") {
                if v.unicode_len() > 0 && same(v.as_str(), wanted) {
                    assert(here[0] == wanted@);
                    found = true;
                }
            }
        }
        i += 1;
    }
    assert(all.take(infos.len() as int) =~= all);
    found
}

/// Whether an item provides a mod id, and what was warned of on the way.
pub struct Provides {
    pub warnings: Vec<String>,
    pub found: Result<bool, String>,
}

/// Whether an item provides exactly the mod id `wanted`.
pub fn source_provides_modid(source: &Source, wanted: &str) -> (r: Provides)
    ensures
        r.warnings.deep_view() == scan_of(source.deep_view()).warnings,
        match r.found {
            Ok(b) => scan_of(source.deep_view()).metadata is Ok && b == provides(
                source.deep_view(),
                wanted@,
            ),
            Err(e) => scan_of(source.deep_view()).metadata == Err::<MetadataView, Seq<char>>(e@),
        },
{
    let item = mod_roots(source);
    let roots = match item.roots {
        Err(e) => {
            return Provides { warnings: item.warnings, found: Err(e) };
        },
        Ok(roots) => roots,
    };
    if let Err(e) = mod_metadata(&roots) {
        return Provides { warnings: item.warnings, found: Err(e) };
    }
    let ghost all = roots.deep_view();
    let mut found = false;
    let mut i: usize = 0;
    assert(all.take(0) =~= seq![]);
    while i < roots.len()
        invariant
            i <= roots.len(),
            all == roots.deep_view(),
            found == ids_in(all_infos(all.take(i as int))).contains(wanted@),
        decreases roots.len() - i,
    {
        let here = names_modid(&roots[i].infos, wanted);
        proof {
            let a = all_infos(all.take(i as int));
            let b = roots@[i as int].infos.deep_view();
            assert(all.take(i + 1).drop_last() =~= all.take(i as int));
            assert(all_infos(all.take(i + 1)) == a + b);
            lemma_ids_in_sum(a, b);
            lemma_contains_in_sum(ids_in(a), ids_in(b), wanted@);
        }
        found = found || here;
        i += 1;
    }
    assert(all.take(roots.len() as int) =~= all);
    Provides { warnings: item.warnings, found: Ok(found) }
}

} // verus!
