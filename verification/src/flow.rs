//! Installing and updating: what is installed, what is done with each item, and
//! what is told in the end.
use vstd::prelude::*;

use crate::folder::{Disk, Done};
use crate::json::{
    find_pair, lookup, pairs_of, value_string, value_u64, Json, JsonView,
};
use crate::remove::entry_title;
use crate::state::{complete, entry_complete};
use crate::table::{at, set_at, Table};
use crate::text::{
    chars_of, copy_texts, decimal, decimal_text, holds, join_texts, joined, trim_start,
    white_space,
};
use crate::walk::{item_title, title_of};

verus! {

/// The number of the game at the workshop.
pub const GAME: u64 = 108600;

/// What is done with one item.
pub enum OneStep {
    /// It is installed as it is at the workshop.
    Latest(String),
    /// It is installed from what was downloaded.
    Install,
    /// It is downloaded first, anew where `force` says so.
    Download { force: bool, label: Option<String> },
}

/// Whether an entry is what the workshop has: the same version, and everything of
/// it is there.
pub open spec fn is_latest(entry: JsonView, detail: JsonView, disk: Disk) -> bool {
    entry.number("updated"@) == detail.number("time_updated"@) && complete(entry, disk)
}

/// What is done with an item of which the workshop tells `d` and the state file has
/// `previous`.
pub open spec fn one_step(
    r: Result<OneStep, String>,
    d: JsonView,
    force: bool,
    previous: Option<JsonView>,
    disk: Disk,
    downloaded: bool,
    attempted: bool,
) -> bool {
    if d.number("consumer_app_id"@) != GAME {
        r matches Err(e) && e@ == "thuộc app "@ + decimal(d.number("consumer_app_id"@) as nat)
            + ", không phải Project Zomboid"@
    } else if !force && previous is Some && is_latest(previous->Some_0, d, disk) {
        r matches Ok(OneStep::Latest(line)) && line@ == "= "@ + d.string("title"@)
            + " đã là bản mới nhất"@
    } else if downloaded {
        r matches Ok(OneStep::Install)
    } else if attempted {
        r matches Err(e) && e@ == "steamcmd không tải được mục này"@
    } else {
        r matches Ok(OneStep::Download { force: f, label }) && f == (previous is Some || force)
            && label.deep_view() == (if d.string("title"@).len() > 0 {
            Some(d.string("title"@))
        } else {
            None
        })
    }
}

/// What is done with the item `id`, of which the workshop tells `detail`.
/// `downloaded` tells whether it is there, `attempted` whether it was tried to
/// download it.
pub fn install_one_with_source(
    id: &str,
    detail: &Json,
    force: bool,
    state: &Vec<(String, Json)>,
    disk: &Disk,
    downloaded: bool,
    attempted: bool,
) -> (r: Result<OneStep, String>)
    ensures
        one_step(
            r,
            detail.model(),
            force,
            lookup(pairs_of(state@), id@),
            *disk,
            downloaded,
            attempted,
        ),
{
    let app = value_u64(detail, "consumer_app_id");
    if app != GAME {
        let n = decimal_text(app);
        return Err(
            "thuộc app ".to_string().concat(n.as_str()).concat(", không phải Project Zomboid"),
        );
    }
    let title = value_string(detail, "title");
    let previous = find_pair(state, id);
    let known = previous.is_some();
    match previous {
        Some(entry) => {
            if !force && value_u64(entry, "updated") == value_u64(detail, "time_updated")
                && entry_complete(entry, disk) {
                return Ok(
                    OneStep::Latest(
                        "= ".to_string().concat(title.as_str()).concat(" đã là bản mới nhất"),
                    ),
                );
            }
        },
        None => {},
    }
    if downloaded {
        Ok(OneStep::Install)
    } else if attempted {
        Err("steamcmd không tải được mục này".to_string())
    } else {
        let label = if title.unicode_len() > 0 {
            Some(title)
        } else {
            None
        };
        Ok(OneStep::Download { force: known || force, label })
    }
}

/// What is told of a collection that is installed.
pub fn collection_line(id: &str, known: &Table<Json>, children: &Vec<String>) -> (r: String)
    ensures
        r@ == "collection "@ + title_of(known.deep_view(), id@) + ": "@ + decimal(
            children.deep_view().len(),
        ) + " mod"@,
{
    let title = item_title(known, id);
    let n = decimal_text(children.len() as u64);
    "collection ".to_string().concat(title.as_str()).concat(": ").concat(n.as_str()).concat(" mod")
}

/// Those of `order` that were not asked for.
pub open spec fn extras(order: Seq<Seq<char>>, todo: Seq<Seq<char>>) -> Seq<Seq<char>>
    decreases order.len(),
{
    if order.len() == 0 {
        seq![]
    } else {
        let r = extras(order.drop_last(), todo);
        if todo.contains(order.last()) {
            r
        } else {
            r.push(order.last())
        }
    }
}

/// The items that are installed because others need them.
pub fn extra_items(order: &Vec<String>, todo: &Vec<String>) -> (r: Vec<String>)
    ensures
        r.deep_view() == extras(order.deep_view(), todo.deep_view()),
{
    let mut r: Vec<String> = Vec::new();
    let ghost all = order.deep_view();
    let mut i: usize = 0;
    assert(r.deep_view() =~= seq![]);
    while i < order.len()
        invariant
            i <= order.len(),
            all == order.deep_view(),
            r.deep_view() == extras(all.take(i as int), todo.deep_view()),
        decreases order.len() - i,
    {
        assert(all.take(i + 1).drop_last() =~= all.take(i as int));
        if !holds(todo, order[i].as_str()) {
            let ghost before = r.deep_view();
            r.push(order[i].clone());
            assert(r.deep_view() =~= before.push(order@[i as int]@));
        }
        i += 1;
    }
    assert(all.take(order.len() as int) =~= all);
    r
}

pub open spec fn titles_of(ids: Seq<Seq<char>>, known: Seq<(Seq<char>, JsonView)>) -> Seq<
    Seq<char>,
> {
    ids.map_values(|id: Seq<char>| title_of(known, id))
}

/// What is told of the items that are installed because others need them.
pub fn extra_line(extra: &Vec<String>, names: &Table<Json>) -> (r: String)
    ensures
        r@ == "kèm "@ + decimal(extra.deep_view().len()) + " mod bắt buộc: "@ + joined(
            titles_of(extra.deep_view(), names.deep_view()),
            ", "@,
        ),
{
    let mut titles: Vec<String> = Vec::new();
    let ghost all = titles_of(extra.deep_view(), names.deep_view());
    let mut i: usize = 0;
    while i < extra.len()
        invariant
            i <= extra.len(),
            all == titles_of(extra.deep_view(), names.deep_view()),
            titles.deep_view() == all.take(i as int),
        decreases extra.len() - i,
    {
        let ghost before = titles.deep_view();
        let t = item_title(names, extra[i].as_str());
        titles.push(t);
        proof {
            assert(titles.deep_view() =~= before.push(t@));
            assert(all[i as int] == t@);
            assert(titles.deep_view() =~= all.take(i + 1));
        }
        i += 1;
    }
    assert(all.take(extra.len() as int) =~= all);
    let n = decimal_text(extra.len() as u64);
    let list = join_texts(&titles, ", ");
    "kèm ".to_string().concat(n.as_str()).concat(" mod bắt buộc: ").concat(list.as_str())
}

/// Whether what was downloaded before is downloaded anew: where it is asked for,
/// or where one of the items is installed.
pub fn refresh_cache(order: &Vec<String>, state: &Vec<(String, Json)>, force: bool) -> (r: bool)
    ensures
        r == (force || exists|i: int|
            0 <= i < order.deep_view().len() && lookup(
                pairs_of(state@),
                #[trigger] order.deep_view()[i],
            ) is Some),
{
    if force {
        return true;
    }
    let ghost all = order.deep_view();
    let mut i: usize = 0;
    while i < order.len()
        invariant
            i <= order.len(),
            all == order.deep_view(),
            forall|k: int|
                0 <= k < i ==> lookup(pairs_of(state@), #[trigger] all[k]) is None,
        decreases order.len() - i,
    {
        assert(all[i as int] == order@[i as int]@);
        if find_pair(state, order[i].as_str()).is_some() {
            assert(lookup(pairs_of(state@), order.deep_view()[i as int]) is Some);
            return true;
        }
        i += 1;
    }
    false
}

/// What each item is called.
pub open spec fn labels_of(order: Seq<Seq<char>>, known: Seq<(Seq<char>, JsonView)>) -> Seq<
    (Seq<char>, Seq<char>),
>
    decreases order.len(),
{
    if order.len() == 0 {
        seq![]
    } else {
        set_at(labels_of(order.drop_last(), known), order.last(), title_of(known, order.last()))
    }
}

/// What each item is called: by its title, or by its id where none is known.
pub fn install_labels(order: &Vec<String>, known: &Table<Json>) -> (r: Table<String>)
    ensures
        r.deep_view() == labels_of(order.deep_view(), known.deep_view()),
{
    let mut r: Table<String> = Table::new();
    let ghost all = order.deep_view();
    let ghost k = known.deep_view();
    let mut i: usize = 0;
    while i < order.len()
        invariant
            i <= order.len(),
            all == order.deep_view(),
            k == known.deep_view(),
            r.deep_view() == labels_of(all.take(i as int), k),
        decreases order.len() - i,
    {
        assert(all.take(i + 1).drop_last() =~= all.take(i as int));
        let t = item_title(known, order[i].as_str());
        r.set(order[i].clone(), t);
        i += 1;
    }
    assert(all.take(order.len() as int) =~= all);
    r
}

/// Those of `order` of which nothing is known yet.
pub open spec fn not_known(order: Seq<Seq<char>>, known: Seq<(Seq<char>, JsonView)>) -> Seq<
    Seq<char>,
>
    decreases order.len(),
{
    if order.len() == 0 {
        seq![]
    } else {
        let r = not_known(order.drop_last(), known);
        if at(known, order.last()) is Some {
            r
        } else {
            r.push(order.last())
        }
    }
}

/// Those of `order` of which nothing is known yet.
pub fn missing_metadata(order: &Vec<String>, known: &Table<Json>) -> (r: Vec<String>)
    ensures
        r.deep_view() == not_known(order.deep_view(), known.deep_view()),
{
    let mut r: Vec<String> = Vec::new();
    let ghost all = order.deep_view();
    let ghost k = known.deep_view();
    let mut i: usize = 0;
    assert(r.deep_view() =~= seq![]);
    while i < order.len()
        invariant
            i <= order.len(),
            all == order.deep_view(),
            k == known.deep_view(),
            r.deep_view() == not_known(all.take(i as int), k),
        decreases order.len() - i,
    {
        assert(all.take(i + 1).drop_last() =~= all.take(i as int));
        if !known.has(order[i].as_str()) {
            let ghost before = r.deep_view();
            r.push(order[i].clone());
            assert(r.deep_view() =~= before.push(order@[i as int]@));
        }
        i += 1;
    }
    assert(all.take(order.len() as int) =~= all);
    r
}

/// Whether a line is a warning: whether it begins with an exclamation mark.
pub open spec fn is_warning(line: Seq<char>) -> bool {
    let t = trim_start(line);
    t.len() > 0 && t[0] == '!'
}

pub open spec fn has_warning(log: Seq<Seq<char>>) -> bool {
    exists|i: int| 0 <= i < log.len() && is_warning(#[trigger] log[i])
}

/// Whether a request went well: nothing failed, and no line is a warning.
pub open spec fn goes_well(ok: bool, log: Seq<Seq<char>>) -> bool {
    ok && !has_warning(log)
}

fn warns(line: &str) -> (r: bool)
    ensures
        r == is_warning(line@),
{
    let chars = chars_of(line);
    let mut i: usize = 0;
    assert(chars@.subrange(0, chars.len() as int) =~= line@);
    while i < chars.len() && white_space(chars[i])
        invariant
            i <= chars.len(),
            chars@ == line@,
            trim_start(line@) == trim_start(chars@.subrange(i as int, chars.len() as int)),
        decreases chars.len() - i,
    {
        let ghost rest = chars@.subrange(i as int, chars.len() as int);
        assert(rest[0] == chars@[i as int]);
        assert(rest.drop_first() =~= chars@.subrange(i + 1, chars.len() as int));
        i += 1;
    }
    let ghost rest = chars@.subrange(i as int, chars.len() as int);
    assert(rest.len() > 0 ==> rest[0] == chars@[i as int]);
    assert(trim_start(rest) == rest);
    i < chars.len() && chars[i] == '!'
}

/// What was told so far, and whether nothing failed.
pub struct Report {
    pub ok: bool,
    pub log: Vec<String>,
}

pub open spec fn error_line(name: Seq<char>, error: Seq<char>) -> Seq<char> {
    "! "@ + name + ": "@ + error
}

pub open spec fn gone_line(name: Seq<char>) -> Seq<char> {
    "! "@ + name + ": mod đã bị xoá hoặc đặt riêng tư"@
}

pub open spec fn vanished_line(name: Seq<char>) -> Seq<char> {
    "! "@ + name + ": đã biến mất khỏi workshop, giữ nguyên bản cục bộ"@
}

pub open spec fn unsaved_line(error: Seq<char>) -> Seq<char> {
    "! không lưu được ánh xạ mod id ("@ + error + ")"@
}

pub open spec fn missing_line(missing: Seq<Seq<char>>) -> Seq<char> {
    "! thiếu mod bắt buộc: "@ + joined(missing, ", "@)
}

impl Report {
    /// Nothing failed yet; `log` was told before.
    pub fn start(log: Vec<String>) -> (r: Report)
        ensures
            r.ok,
            r.log.deep_view() == log.deep_view(),
    {
        Report { ok: true, log }
    }

    /// Tells lines.
    pub fn tell(&mut self, lines: &Vec<String>)
        ensures
            final(self).log.deep_view() == old(self).log.deep_view() + lines.deep_view(),
            final(self).ok == old(self).ok,
    {
        let ghost before = self.log.deep_view();
        let mut more = copy_texts(lines);
        let ghost added = more.deep_view();
        self.log.append(&mut more);
        assert(self.log.deep_view() =~= before + added);
    }

    fn fail(&mut self, line: String)
        ensures
            final(self).log.deep_view() == old(self).log.deep_view().push(line@),
            !final(self).ok,
    {
        let ghost before = self.log.deep_view();
        self.log.push(line);
        assert(self.log.deep_view() =~= before.push(line@));
        self.ok = false;
    }

    /// An item could not be installed. Gives the line that is told.
    pub fn note_error(&mut self, name: &str, error: &str) -> (r: String)
        ensures
            r@ == error_line(name@, error@),
            final(self).log.deep_view() == old(self).log.deep_view().push(r@),
            !final(self).ok,
    {
        let line = "! ".to_string().concat(name).concat(": ").concat(error);
        self.fail(line.clone());
        line
    }

    /// The workshop does not know an item that was to be installed. Gives the line
    /// that is told.
    pub fn note_gone(&mut self, item: &str) -> (r: String)
        ensures
            r@ == gone_line(item@),
            final(self).log.deep_view() == old(self).log.deep_view().push(r@),
            !final(self).ok,
    {
        let line = "! ".to_string().concat(item).concat(": mod đã bị xoá hoặc đặt riêng tư");
        self.fail(line.clone());
        line
    }

    /// The workshop no longer knows an installed item; it stays as it is. Gives
    /// the line that is told.
    pub fn note_vanished(&mut self, title: &str) -> (r: String)
        ensures
            r@ == vanished_line(title@),
            final(self).log.deep_view() == old(self).log.deep_view().push(r@),
            !final(self).ok,
    {
        let line = "! ".to_string().concat(title).concat(
            ": đã biến mất khỏi workshop, giữ nguyên bản cục bộ",
        );
        self.fail(line.clone());
        line
    }

    /// What was found out of mod ids could not be written down. Gives the line
    /// that is told.
    pub fn note_unsaved(&mut self, error: &str) -> (r: String)
        ensures
            r@ == unsaved_line(error@),
            final(self).log.deep_view() == old(self).log.deep_view().push(r@),
            !final(self).ok,
    {
        let line = "! không lưu được ánh xạ mod id (".to_string().concat(error).concat(")");
        self.fail(line.clone());
        line
    }

    /// Mod ids are required that nothing supplies. Gives the line that is told,
    /// if there are any.
    pub fn note_missing(&mut self, missing: &Vec<String>) -> (r: Option<String>)
        ensures
            missing.len() == 0 ==> r is None && final(self).ok == old(self).ok
                && final(self).log.deep_view() == old(self).log.deep_view(),
            missing.len() > 0 ==> (r matches Some(line) && line@ == missing_line(
                missing.deep_view(),
            ) && !final(self).ok && final(self).log.deep_view() == old(self).log.deep_view().push(
                line@,
            )),
    {
        if missing.len() == 0 {
            return None;
        }
        let list = join_texts(missing, ", ");
        let line = "! thiếu mod bắt buộc: ".to_string().concat(list.as_str());
        self.fail(line.clone());
        Some(line)
    }

    /// What is answered in the end: it went well where nothing failed and no line
    /// is a warning.
    pub fn finish(self) -> (r: Done)
        ensures
            r.log.deep_view() == self.log.deep_view(),
            r.ok == goes_well(self.ok, self.log.deep_view()),
    {
        let ghost all = self.log.deep_view();
        let mut ok = self.ok;
        let mut i: usize = 0;
        while i < self.log.len()
            invariant
                i <= self.log.len(),
                all == self.log.deep_view(),
                ok == (self.ok && forall|k: int| 0 <= k < i ==> !is_warning(#[trigger] all[k])),
            decreases self.log.len() - i,
        {
            assert(all[i as int] == self.log@[i as int]@);
            if warns(self.log[i].as_str()) {
                ok = false;
            }
            i += 1;
        }
        Done { ok, log: self.log }
    }
}

/// Every line that tells of a failure is a warning: no answer that says it went
/// well has one.
pub proof fn law_failures_are_warnings(
    name: Seq<char>,
    error: Seq<char>,
    missing: Seq<Seq<char>>,
)
    ensures
        is_warning(error_line(name, error)),
        is_warning(gone_line(name)),
        is_warning(vanished_line(name)),
        is_warning(unsaved_line(error)),
        is_warning(missing_line(missing)),
{
    reveal_strlit("! ");
    reveal_strlit("! không lưu được ánh xạ mod id (");
    reveal_strlit("! thiếu mod bắt buộc: ");
    assert(error_line(name, error)[0] == '!');
    assert(gone_line(name)[0] == '!');
    assert(vanished_line(name)[0] == '!');
    assert(unsaved_line(error)[0] == '!');
    assert(missing_line(missing)[0] == '!');
}

/// A warning that was told stays told.
pub proof fn lemma_warning_stays(log: Seq<Seq<char>>, more: Seq<Seq<char>>)
    ensures
        has_warning(log) || has_warning(more) ==> has_warning(log + more),
{
    if has_warning(log) {
        let i = choose|i: int| 0 <= i < log.len() && is_warning(#[trigger] log[i]);
        assert(is_warning((log + more)[i]));
    } else if has_warning(more) {
        let i = choose|i: int| 0 <= i < more.len() && is_warning(#[trigger] more[i]);
        assert(is_warning((log + more)[log.len() + i]));
    }
}

/// No failure goes untold: a request that did not go well has told a warning.
pub open spec fn tells_failures(ok: bool, log: Seq<Seq<char>>) -> bool {
    !ok ==> has_warning(log)
}

/// The title of an entry, or the id of its item where it has none.
pub fn title_text(entry: &Json, id: &str) -> (r: String)
    ensures
        r@ == entry_title(entry.model(), id@),
{
    match entry.get("title") {
        Some(Json::Str(s)) => s.clone(),
        _ => id.to_string(),
    }
}

} // verus!
