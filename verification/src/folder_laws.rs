//! Which names folders can have, and where a folder stands.
use vstd::prelude::*;

use crate::folder::{
    ascii_upper, folder_check, has_path_char, is_device, is_path_char, move_view, stem, upper,
    Direction, Disk, MoveView,
};
use crate::text::{index_of, lemma_index_of, trimmed};
use crate::text_laws::is_middle;

verus! {

/// A character that would make a path of a name.
pub open spec fn leads_elsewhere(c: char) -> bool {
    seq!['/', '\\', ':', '\0', '\u{2215}', '\u{FF0F}', '\u{FF3C}', '\u{FF1A}'].contains(c)
}

/// `s` is `word`, which is in upper case, whatever the case in which it is written.
pub open spec fn spells(s: Seq<char>, word: Seq<char>) -> bool {
    &&& s.len() == word.len()
    &&& forall|i: int|
        0 <= i < s.len() ==> #[trigger] s[i] == word[i] || s[i] as int == word[i] as int + 32
}

/// The part of a name before its first dot ends at `n`.
pub open spec fn stem_ends(s: Seq<char>, n: int) -> bool {
    &&& 0 <= n <= s.len()
    &&& forall|i: int| 0 <= i < n ==> #[trigger] s[i] != '.'
    &&& n < s.len() ==> s[n] == '.'
}

/// A word that names a device.
pub open spec fn names_a_device(s: Seq<char>) -> bool {
    ||| spells(s, seq!['C', 'O', 'N'])
    ||| spells(s, seq!['P', 'R', 'N'])
    ||| spells(s, seq!['A', 'U', 'X'])
    ||| spells(s, seq!['N', 'U', 'L'])
    ||| s.len() == 4 && (spells(s.take(3), seq!['C', 'O', 'M']) || spells(
        s.take(3),
        seq!['L', 'P', 'T'],
    )) && '1' <= s[3] <= '9'
}

proof fn lemma_upper(c: char, u: char)
    requires
        'A' <= u <= 'Z',
    ensures
        ascii_upper(c) == u <==> c == u || c as int == u as int + 32,
{
    if 'a' <= c <= 'z' {
        assert(c as u8 as int == c as int);
        assert((c as u8 - 32) as char as int == c as int - 32);
    }
}

proof fn lemma_spells(s: Seq<char>, word: Seq<char>)
    requires
        forall|i: int| 0 <= i < word.len() ==> 'A' <= #[trigger] word[i] <= 'Z',
    ensures
        upper(s) == word <==> spells(s, word),
{
    if upper(s) == word {
        assert forall|i: int| 0 <= i < s.len() implies #[trigger] s[i] == word[i] || s[i] as int
            == word[i] as int + 32 by {
            assert(upper(s)[i] == word[i]);
            lemma_upper(s[i], word[i]);
        }
    }
    if spells(s, word) {
        assert forall|i: int| 0 <= i < s.len() implies upper(s)[i] == word[i] by {
            assert(s[i] == word[i] || s[i] as int == word[i] as int + 32);
            lemma_upper(s[i], word[i]);
        }
        assert(upper(s) =~= word);
    }
}

/// A name is that of a device where the part before its first dot is, in whatever case:
/// one of the four words, or one of the two others and a digit but zero.
pub proof fn law_devices_are_known_by_their_stem(s: Seq<char>, n: int)
    requires
        stem_ends(s, n),
    ensures
        is_device(s) <==> names_a_device(s.take(n)),
{
    lemma_index_of(s, '.', 0);
    let i = index_of(s, '.', 0);
    assert(i == n) by {
        if i < n {
            assert(s[i] != '.');
        }
        if n < i {
            assert(s[n] == '.');
        }
    }
    let t = s.take(n);
    assert(stem(s) == t);
    let u = upper(t);
    reveal_strlit("CON");
    reveal_strlit("PRN");
    reveal_strlit("AUX");
    reveal_strlit("NUL");
    reveal_strlit("COM");
    reveal_strlit("LPT");
    assert("CON"@ =~= seq!['C', 'O', 'N']);
    assert("PRN"@ =~= seq!['P', 'R', 'N']);
    assert("AUX"@ =~= seq!['A', 'U', 'X']);
    assert("NUL"@ =~= seq!['N', 'U', 'L']);
    assert("COM"@ =~= seq!['C', 'O', 'M']);
    assert("LPT"@ =~= seq!['L', 'P', 'T']);
    lemma_spells(t, "CON"@);
    lemma_spells(t, "PRN"@);
    lemma_spells(t, "AUX"@);
    lemma_spells(t, "NUL"@);
    if t.len() == 4 {
        assert(u.take(3) =~= upper(t.take(3)));
        lemma_spells(t.take(3), "COM"@);
        lemma_spells(t.take(3), "LPT"@);
        let c = t[3];
        assert(u[3] == ascii_upper(c));
        if 'a' <= c <= 'z' {
            assert(c as u8 as int == c as int);
            assert((c as u8 - 32) as char as int == c as int - 32);
        }
    }
}

/// A name can be that of a folder exactly where something is left of it without the white
/// space around it, which is neither of the two dot names, leads nowhere else, and names
/// no device. That is then the name of the folder.
pub proof fn law_a_name_is_one_of_a_folder(folder: Seq<char>, a: int, b: int)
    requires
        is_middle(folder, a, b),
    ensures
        ({
            let f = folder.subrange(a, b);
            &&& folder_check(folder) is Ok <==> {
                &&& f.len() > 0
                &&& f != seq!['.']
                &&& f != seq!['.', '.']
                &&& forall|i: int| 0 <= i < f.len() ==> !leads_elsewhere(#[trigger] f[i])
                &&& !is_device(f)
            }
            &&& (folder_check(folder) matches Ok(n) ==> n == f)
        }),
{
    crate::text_laws::law_the_middle_is_what_trimming_leaves(folder, a, b);
    let f = folder.subrange(a, b);
    assert(trimmed(folder) == f);
    reveal_strlit(".");
    reveal_strlit("..");
    assert("."@ =~= seq!['.']);
    assert(".."@ =~= seq!['.', '.']);
    let bad = seq!['/', '\\', ':', '\0', '\u{2215}', '\u{FF0F}', '\u{FF3C}', '\u{FF1A}'];
    assert forall|c: char| is_path_char(c) <==> leads_elsewhere(c) by {
        assert(bad[0] == '/' && bad[1] == '\\' && bad[2] == ':' && bad[3] == '\0');
        assert(bad[4] == '\u{2215}' && bad[5] == '\u{FF0F}');
        assert(bad[6] == '\u{FF3C}' && bad[7] == '\u{FF1A}');
        if leads_elsewhere(c) {
            let i = choose|i: int| 0 <= i < bad.len() && bad[i] == c;
            assert(bad.len() == 8);
        }
    }
    if has_path_char(f) {
        let i = choose|i: int| 0 <= i < f.len() && is_path_char(#[trigger] f[i]);
        assert(leads_elsewhere(f[i]));
    }
}

/// Where a folder stands is told by one word: `enabled` in `mods` alone, `disabled` in
/// `mods_off` alone, `collision` in both, `missing` in neither; and `invalid` where its
/// name can be none of a folder.
pub proof fn law_a_word_tells_where_a_folder_stands(disk: Disk, folder: Seq<char>)
    ensures
        ({
            let on = disk.mods.deep_view().contains(folder);
            let off = disk.off.deep_view().contains(folder);
            let word = disk.status(folder).name();
            &&& folder_check(folder) is Err ==> word == "invalid"@
            &&& folder_check(folder) is Ok && on && !off ==> word == "enabled"@
            &&& folder_check(folder) is Ok && !on && off ==> word == "disabled"@
            &&& folder_check(folder) is Ok && on && off ==> word == "collision"@
            &&& folder_check(folder) is Ok && !on && !off ==> word == "missing"@
            &&& disk.status(folder).settled() <==> folder_check(folder) is Ok && (on != off)
        }),
{
}

/// A folder is renamed exactly where it is at the start of its way and not at the end;
/// where it is at the end alone it is left there, and all else is refused.
pub proof fn law_a_folder_moves_where_it_can(
    folder: Seq<char>,
    src: bool,
    dst: bool,
    d: Direction,
)
    ensures
        match move_view(folder, src, dst, d) {
            MoveView::Step { folder: f, rename, line } => {
                &&& folder_check(folder) == Ok::<Seq<char>, Seq<char>>(f)
                &&& src != dst
                &&& rename == src
            },
            MoveView::Refused(_) => folder_check(folder) is Err || src == dst,
        },
{
}

} // verus!
