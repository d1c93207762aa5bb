//! Mod folders: which names are allowed, where a folder stands, and what a
//! move between `mods` and `mods_off` does.
use vstd::prelude::*;

use crate::text::{chars_of, holds, position, same, text_of, trim, trimmed, index_of, text_result};

verus! {

/// What formatting a string with `{:?}` gives.
pub uninterp spec fn debug_form(s: Seq<char>) -> Seq<char>;

/// `format!("{:?}")` on a string: its quoted and escaped form, which depends
/// on the string alone.
#[verifier::external_body]
pub(crate) fn debug_text(s: &str) -> (r: String)
    ensures
        r@ == debug_form(s@),
{
    format!("{s:?}")
}

/// A path separator, a drive colon, a NUL, or a look-alike of one.
pub open spec fn is_path_char(c: char) -> bool {
    ||| c == '/'
    ||| c == '\\'
    ||| c == ':'
    ||| c == '\0'
    ||| c == '\u{2215}'
    ||| c == '\u{FF0F}'
    ||| c == '\u{FF3C}'
    ||| c == '\u{FF1A}'
}

pub open spec fn has_path_char(s: Seq<char>) -> bool {
    exists|i: int| 0 <= i < s.len() && is_path_char(#[trigger] s[i])
}

pub open spec fn ascii_upper(c: char) -> char {
    if 'a' <= c <= 'z' {
        (c as u8 - 32) as char
    } else {
        c
    }
}

pub open spec fn upper(s: Seq<char>) -> Seq<char> {
    s.map_values(|c: char| ascii_upper(c))
}

/// The part of a file name before its first dot.
pub open spec fn stem(s: Seq<char>) -> Seq<char> {
    s.take(index_of(s, '.', 0))
}

/// A name that Windows takes for a device, whatever its extension and case.
pub open spec fn is_device(s: Seq<char>) -> bool {
    let u = upper(stem(s));
    ||| u == "CON"@
    ||| u == "PRN"@
    ||| u == "AUX"@
    ||| u == "NUL"@
    ||| {
        &&& u.len() == 4
        &&& u.take(3) == "COM"@ || u.take(3) == "LPT"@
        &&& '1' <= u[3] <= '9'
    }
}

/// The bare directory name that `folder` stands for, or why it is refused.
pub open spec fn folder_check(folder: Seq<char>) -> Result<Seq<char>, Seq<char>> {
    let f = trimmed(folder);
    if f.len() == 0 || f == "."@ || f == ".."@ {
        Err("Tên thư mục không hợp lệ: "@ + debug_form(folder))
    } else if has_path_char(f) {
        Err("Tên thư mục không được chứa đường dẫn: "@ + debug_form(folder))
    } else if is_device(f) {
        Err("Tên thư mục trùng tên thiết bị Windows: "@ + debug_form(folder))
    } else {
        Ok(f)
    }
}

pub open spec fn folder_ok(folder: Seq<char>) -> bool {
    folder_check(folder) is Ok
}

fn path_char(c: char) -> (r: bool)
    ensures
        r == is_path_char(c),
{
    c == '/' || c == '\\' || c == ':' || c == '\0' || c == '\u{2215}' || c == '\u{FF0F}' || c
        == '\u{FF3C}' || c == '\u{FF1A}'
}

fn upper_char(c: char) -> (r: char)
    ensures
        r == ascii_upper(c),
{
    if 'a' <= c && c <= 'z' {
        (c as u8 - 32) as char
    } else {
        c
    }
}

fn is_reserved(name: &str) -> (r: bool)
    ensures
        r == is_device(name@),
{
    let chars = chars_of(name);
    let end = position(&chars, '.', 0);
    let mut up: Vec<char> = Vec::new();
    let mut i: usize = 0;
    while i < end
        invariant
            i <= end <= chars.len(),
            end == index_of(name@, '.', 0),
            chars@ == name@,
            up@ == upper(stem(name@)).take(i as int),
        decreases end - i,
    {
        up.push(upper_char(chars[i]));
        i += 1;
        assert(up@ =~= upper(stem(name@)).take(i as int));
    }
    assert(up@ =~= upper(stem(name@)));
    let u = text_of(&up, 0, up.len());
    assert(u@ =~= up@);
    if same(u.as_str(), "CON") || same(u.as_str(), "PRN") || same(u.as_str(), "AUX") || same(
        u.as_str(),
        "NUL",
    ) {
        return true;
    }
    if up.len() != 4 {
        return false;
    }
    let head = text_of(&up, 0, 3);
    assert(head@ =~= up@.take(3));
    (same(head.as_str(), "COM") || same(head.as_str(), "LPT")) && '1' <= up[3] && up[3] <= '9'
}

/// Only a bare directory name is allowed: no separators, no drive letters, no
/// dot entries, no device names.
pub fn check_folder(folder: &str) -> (r: Result<String, String>)
    ensures
        text_result(r) == folder_check(folder@),
{
    let f = trim(folder);
    if f.as_str().is_empty() || same(f.as_str(), ".") || same(f.as_str(), "..") {
        return Err("Tên thư mục không hợp lệ: ".to_string().concat(debug_text(folder).as_str()));
    }
    let chars = chars_of(f.as_str());
    let mut i: usize = 0;
    while i < chars.len()
        invariant
            i <= chars.len(),
            chars@ == f@,
            f@ == trimmed(folder@),
            f@.len() > 0,
            f@ != "."@,
            f@ != ".."@,
            forall|k: int| 0 <= k < i ==> !is_path_char(#[trigger] f@[k]),
        decreases chars.len() - i,
    {
        if path_char(chars[i]) {
            assert(is_path_char(f@[i as int]));
            return Err(
                "Tên thư mục không được chứa đường dẫn: ".to_string().concat(
                    debug_text(folder).as_str(),
                ),
            );
        }
        i += 1;
    }
    if is_reserved(f.as_str()) {
        return Err(
            "Tên thư mục trùng tên thiết bị Windows: ".to_string().concat(
                debug_text(folder).as_str(),
            ),
        );
    }
    Ok(f)
}

/// Where a folder stands.
#[derive(Clone, Copy, PartialEq, Eq, Structural, Debug)]
pub enum FolderStatus {
    Invalid,
    Collision,
    Enabled,
    Disabled,
    Missing,
}

pub open spec fn status_of(folder: Seq<char>, in_mods: bool, in_off: bool) -> FolderStatus {
    if !folder_ok(folder) {
        FolderStatus::Invalid
    } else if in_mods && in_off {
        FolderStatus::Collision
    } else if in_mods {
        FolderStatus::Enabled
    } else if in_off {
        FolderStatus::Disabled
    } else {
        FolderStatus::Missing
    }
}

impl FolderStatus {
    pub open spec fn name(self) -> Seq<char> {
        match self {
            FolderStatus::Invalid => "invalid"@,
            FolderStatus::Collision => "collision"@,
            FolderStatus::Enabled => "enabled"@,
            FolderStatus::Disabled => "disabled"@,
            FolderStatus::Missing => "missing"@,
        }
    }

    /// The word shown for the status.
    pub fn label(&self) -> (r: &'static str)
        ensures
            r@ == self.name(),
    {
        match self {
            FolderStatus::Invalid => "invalid",
            FolderStatus::Collision => "collision",
            FolderStatus::Enabled => "enabled",
            FolderStatus::Disabled => "disabled",
            FolderStatus::Missing => "missing",
        }
    }

    /// The folder is in exactly one of the two places.
    pub open spec fn settled(self) -> bool {
        self is Enabled || self is Disabled
    }

    pub fn is_settled(&self) -> (r: bool)
        ensures
            r == self.settled(),
    {
        match self {
            FolderStatus::Enabled => true,
            FolderStatus::Disabled => true,
            _ => false,
        }
    }
}

/// The status of `folder`, given whether a directory of that name is in `mods`
/// and in `mods_off`.
pub fn folder_status_at(folder: &str, in_mods: bool, in_off: bool) -> (r: FolderStatus)
    ensures
        r == status_of(folder@, in_mods, in_off),
{
    match check_folder(folder) {
        Err(_) => FolderStatus::Invalid,
        Ok(_) => if in_mods && in_off {
            FolderStatus::Collision
        } else if in_mods {
            FolderStatus::Enabled
        } else if in_off {
            FolderStatus::Disabled
        } else {
            FolderStatus::Missing
        },
    }
}

/// What was found under `mods` and `mods_off`: the names that are directories
/// there, and those that are something else.
pub struct Disk {
    pub mods: Vec<String>,
    pub off: Vec<String>,
    pub mods_files: Vec<String>,
    pub off_files: Vec<String>,
}

impl Disk {
    pub open spec fn in_mods(&self, name: Seq<char>) -> bool {
        self.mods.deep_view().contains(name)
    }

    pub open spec fn in_off(&self, name: Seq<char>) -> bool {
        self.off.deep_view().contains(name)
    }

    pub open spec fn file_in_mods(&self, name: Seq<char>) -> bool {
        self.mods_files.deep_view().contains(name)
    }

    pub open spec fn file_in_off(&self, name: Seq<char>) -> bool {
        self.off_files.deep_view().contains(name)
    }

    pub open spec fn status(&self, name: Seq<char>) -> FolderStatus {
        status_of(name, self.in_mods(name), self.in_off(name))
    }

    /// The status of `folder` on this disk.
    pub fn folder_status(&self, folder: &str) -> (r: FolderStatus)
        ensures
            r == self.status(folder@),
    {
        folder_status_at(folder, holds(&self.mods, folder), holds(&self.off, folder))
    }
}

/// The two ways to move a folder.
#[derive(Clone, Copy, PartialEq, Eq, Structural, Debug)]
pub enum Direction {
    /// From `mods_off` to `mods`.
    Enable,
    /// From `mods` to `mods_off`.
    Disable,
}

impl Direction {
    pub open spec fn word(self) -> Seq<char> {
        match self {
            Direction::Enable => "bật"@,
            Direction::Disable => "tắt"@,
        }
    }

    pub fn verb(&self) -> (r: &'static str)
        ensures
            r@ == self.word(),
    {
        match self {
            Direction::Enable => "bật",
            Direction::Disable => "tắt",
        }
    }
}

/// The answer to a command: whether it went through, and its log.
pub struct Done {
    pub ok: bool,
    pub log: Vec<String>,
}

/// A move that may go ahead.
pub struct MoveStep {
    /// The bare name of the folder.
    pub folder: String,
    /// Whether the directory still has to be renamed.
    pub rename: bool,
    /// The answer once it stands where it should.
    pub done: Done,
}

pub enum MoveView {
    Refused(Seq<char>),
    Step { folder: Seq<char>, rename: bool, line: Seq<char> },
}

/// What a move of `folder` comes to, given whether a directory of that name is
/// at the start and at the end of the way.
pub open spec fn move_view(
    folder: Seq<char>,
    src_is_dir: bool,
    dst_is_dir: bool,
    direction: Direction,
) -> MoveView {
    match folder_check(folder) {
        Err(e) => MoveView::Refused(e),
        Ok(f) => if src_is_dir && dst_is_dir {
            MoveView::Refused(
                "'"@ + f
                    + "' có ở cả mods và mods_off — dọn tay một bên trước, pzmod không đoán bản nào đúng."@,
            )
        } else if dst_is_dir {
            MoveView::Step {
                folder: f,
                rename: false,
                line: "'"@ + f + "' đã "@ + direction.word() + " sẵn."@,
            }
        } else if !src_is_dir {
            MoveView::Refused(
                "Không tìm thấy thư mục mod '"@ + f + "' trong mods/ hoặc mods_off/"@,
            )
        } else {
            MoveView::Step {
                folder: f,
                rename: true,
                line: "Đã "@ + direction.word() + " '"@ + f + "'."@,
            }
        },
    }
}

pub open spec fn move_matches(r: Result<MoveStep, String>, v: MoveView) -> bool {
    match r {
        Err(e) => v == MoveView::Refused(e@),
        Ok(step) => {
            &&& step.done.ok
            &&& step.done.log.len() == 1
            &&& v == (MoveView::Step {
                folder: step.folder@,
                rename: step.rename,
                line: step.done.log@[0]@,
            })
        },
    }
}

/// The name under which `folder` is looked up, or why it is refused, and then
/// whether the directory moves, is there already, or must not be touched. A
/// folder that stands in both places is refused: nothing is ever deleted.
pub fn move_folder(
    folder: &str,
    src_is_dir: bool,
    dst_is_dir: bool,
    direction: Direction,
) -> (r: Result<MoveStep, String>)
    ensures
        move_matches(r, move_view(folder@, src_is_dir, dst_is_dir, direction)),
{
    let f = match check_folder(folder) {
        Err(e) => {
            return Err(e);
        },
        Ok(f) => f,
    };
    if src_is_dir && dst_is_dir {
        return Err(
            "'".to_string().concat(f.as_str()).concat(
                "' có ở cả mods và mods_off — dọn tay một bên trước, pzmod không đoán bản nào đúng.",
            ),
        );
    }
    if dst_is_dir {
        let line = "'".to_string().concat(f.as_str()).concat("' đã ").concat(
            direction.verb(),
        ).concat(" sẵn.");
        let log = vec![line];
        return Ok(MoveStep { folder: f, rename: false, done: Done { ok: true, log } });
    }
    if !src_is_dir {
        return Err(
            "Không tìm thấy thư mục mod '".to_string().concat(f.as_str()).concat(
                "' trong mods/ hoặc mods_off/",
            ),
        );
    }
    let line = "Đã ".to_string().concat(direction.verb()).concat(" '").concat(f.as_str()).concat(
        "'.",
    );
    let log = vec![line];
    Ok(MoveStep { folder: f, rename: true, done: Done { ok: true, log } })
}

/// The error when the rename itself fails.
pub fn rename_error(step: &MoveStep, direction: Direction, error: &str) -> (r: String)
    ensures
        r@ == "Không "@ + direction.word() + " được '"@ + step.folder@ + "': "@ + error@,
{
    "Không ".to_string().concat(direction.verb()).concat(" được '").concat(
        step.folder.as_str(),
    ).concat("': ").concat(error)
}

} // verus!
