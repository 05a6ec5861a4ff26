//! Paths as strings, with the meaning the standard library gives them. On Unix the
//! separator is `/`: joining a relative segment adds a separator when one is needed, an
//! absolute segment replaces the base, and the file name is the last normal component.
//! On Windows both `\` and `/` separate, a join adds `\`, and a leading drive (`C:`)
//! is a prefix rather than a component; a bare drive is joined without a separator.
//! Other Windows prefixes (`\\server\share`, `\\?\`) are read as components.
use vstd::prelude::*;

use crate::text::{
    chars_of, find_from, lemma_find_from, matches_at, split_chars, split_seq, string_from_chars,
};

verus! {

/// The platform whose path rules and game layout apply.
#[derive(Debug, Clone, Copy, PartialEq, Eq)]
pub enum Platform {
    MacOs,
    Windows,
    Other,
}

/// Whether `c` separates components: `/`, and on Windows also `\`.
pub open spec fn is_separator(c: char, windows: bool) -> bool {
    c == '/' || (windows && c == '\\')
}

/// The separator a join adds: `\` on Windows, `/` elsewhere.
pub open spec fn separator(windows: bool) -> char {
    if windows {
        '\\'
    } else {
        '/'
    }
}

/// An ASCII letter, the only characters that name a drive.
pub open spec fn is_drive_letter(c: char) -> bool {
    ('a' <= c && c <= 'z') || ('A' <= c && c <= 'Z')
}

/// Whether `p` starts with a drive prefix such as `C:`.
pub open spec fn has_drive(p: Seq<char>) -> bool {
    p.len() >= 2 && is_drive_letter(p[0]) && p[1] == ':'
}

/// `base` joined with `name`, a plain name holding no separator, as `Path::join` does
/// on the platform (`windows` for Windows rules): a separator is added unless `base` is
/// empty, already ends in one, or is a bare Windows drive.
pub open spec fn join_name(base: Seq<char>, name: Seq<char>, windows: bool) -> Seq<char> {
    if base.len() == 0 || is_separator(base.last(), windows) || (windows && base.len() == 2
        && has_drive(base)) {
        base + name
    } else {
        base + seq![separator(windows)] + name
    }
}

/// `p` with every `\` written `/`.
pub open spec fn slashed(p: Seq<char>) -> Seq<char> {
    p.map_values(|c: char| if c == '\\' { '/' } else { c })
}

/// The file name of `p` as `Path::file_name` gives it on the platform: on Windows, any
/// drive prefix is set aside and both separators split components.
pub open spec fn native_file_name(p: Seq<char>, windows: bool) -> Option<Seq<char>> {
    if windows {
        file_name_of(slashed(if has_drive(p) { p.skip(2) } else { p }))
    } else {
        file_name_of(p)
    }
}

/// `base` joined with `seg`, as `Path::join` does on Unix.
pub open spec fn path_join(base: Seq<char>, seg: Seq<char>) -> Seq<char> {
    if seg.len() > 0 && seg[0] == '/' {
        seg
    } else if base.len() == 0 {
        seg
    } else if base.last() == '/' {
        base + seg
    } else {
        base + seq!['/'] + seg
    }
}

/// A component that names something: neither empty nor `.`.
pub open spec fn is_named_segment(p: Seq<char>) -> bool {
    p.len() > 0 && p != seq!['.']
}

/// The last piece that names something.
pub open spec fn last_named_segment(parts: Seq<Seq<char>>) -> Option<Seq<char>>
    decreases parts.len(),
{
    if parts.len() == 0 {
        None
    } else if is_named_segment(parts.last()) {
        Some(parts.last())
    } else {
        last_named_segment(parts.drop_last())
    }
}

/// The final component of `p`, unless it is `..` or there is none, as `Path::file_name`
/// does on Unix.
pub open spec fn file_name_of(p: Seq<char>) -> Option<Seq<char>> {
    match last_named_segment(split_seq(p, seq!['/'])) {
        Some(s) => if s == seq!['.', '.'] {
            None
        } else {
            Some(s)
        },
        None => None,
    }
}

/// `base` joined with `seg`.
pub fn join_path(base: &str, seg: &str) -> (out: String)
    ensures
        out@ == path_join(base@, seg@),
{
    let b = chars_of(base);
    let s = chars_of(seg);
    if s.len() > 0 && s[0] == '/' {
        return string_from_chars(s.as_slice());
    }
    if b.len() == 0 {
        return string_from_chars(s.as_slice());
    }
    let mut out = b.clone();
    if b[b.len() - 1] != '/' {
        out.push('/');
    }
    let mut i: usize = 0;
    let ghost start = out@;
    while i < s.len()
        invariant
            i <= s@.len(),
            out@ == start + s@.take(i as int),
        decreases s@.len() - i,
    {
        out.push(s[i]);
        proof {
            assert(s@.take(i + 1) =~= s@.take(i as int).push(s@[i as int]));
        }
        i = i + 1;
    }
    proof {
        assert(s@.take(s@.len() as int) =~= s@);
        assert(b@.last() == b@[b@.len() - 1]);
        if b@.last() != '/' {
            assert(start =~= b@ + seq!['/']);
        } else {
            assert(start =~= b@);
        }
    }
    string_from_chars(out.as_slice())
}

/// The final component of `path`, as `Path::file_name` gives it on Unix.
pub fn file_name(path: &str) -> (r: Option<String>)
    ensures
        match r {
            Some(s) => file_name_of(path@) == Some(s@),
            None => file_name_of(path@) is None,
        },
{
    let chars = chars_of(path);
    let sep = ['/'];
    let parts = split_chars(chars.as_slice(), sep.as_slice());
    proof {
        assert(sep@ =~= seq!['/']);
    }
    let ghost all = split_seq(path@, seq!['/']);
    let mut last: Option<usize> = None;
    let mut i: usize = 0;
    while i < parts.len()
        invariant
            i <= parts@.len(),
            parts@.len() == all.len(),
            forall|k: int| 0 <= k < parts@.len() ==> #[trigger] parts@[k]@ == all[k],
            match last {
                Some(j) => j < i && last_named_segment(all.take(i as int)) == Some(all[j as int]),
                None => last_named_segment(all.take(i as int)) is None,
            },
        decreases parts@.len() - i,
    {
        let p = &parts[i];
        let named = p.len() > 0 && !(p.len() == 1 && p[0] == '.');
        proof {
            assert(all.take(i + 1).drop_last() =~= all.take(i as int));
            assert(all.take(i + 1).last() == all[i as int]);
            assert(p@ == all[i as int]);
            if p@.len() == 1 && p@[0] == '.' {
                assert(p@ =~= seq!['.']);
            }
            if p@ == seq!['.'] {
                assert(p@.len() == 1 && p@[0] == '.');
            }
        }
        if named {
            last = Some(i);
        }
        i = i + 1;
    }
    proof {
        assert(all.take(parts@.len() as int) =~= all);
    }
    match last {
        Some(j) => {
            let p = &parts[j];
            let dotdot = p.len() == 2 && p[0] == '.' && p[1] == '.';
            proof {
                assert(p@ == all[j as int]);
                if dotdot {
                    assert(p@ =~= seq!['.', '.']);
                }
                if p@ == seq!['.', '.'] {
                    assert(p@.len() == 2 && p@[0] == '.' && p@[1] == '.');
                }
            }
            if dotdot {
                None
            } else {
                Some(string_from_chars(p.as_slice()))
            }
        },
        None => None,
    }
}


fn drive_letter(c: char) -> (b: bool)
    ensures
        b == is_drive_letter(c),
{
    (c >= 'a' && c <= 'z') || (c >= 'A' && c <= 'Z')
}

/// `base` joined with the plain name `name`, by the platform's rules (`windows`).
pub fn join_native(base: &str, name: &str, windows: bool) -> (out: String)
    ensures
        out@ == join_name(base@, name@, windows),
{
    let b = chars_of(base);
    let n = chars_of(name);
    let mut out = b.clone();
    if b.len() > 0 {
        let last = b[b.len() - 1];
        let ends_in_separator = last == '/' || (windows && last == '\\');
        let bare_drive = windows && b.len() == 2 && drive_letter(b[0]) && b[1] == ':';
        if !ends_in_separator && !bare_drive {
            if windows {
                out.push('\\');
            } else {
                out.push('/');
            }
        }
    }
    let ghost start = out@;
    let mut i: usize = 0;
    while i < n.len()
        invariant
            i <= n@.len(),
            out@ == start + n@.take(i as int),
        decreases n@.len() - i,
    {
        out.push(n[i]);
        proof {
            assert(n@.take(i + 1) =~= n@.take(i as int).push(n@[i as int]));
        }
        i = i + 1;
    }
    proof {
        assert(n@.take(n@.len() as int) =~= n@);
        if b@.len() > 0 {
            assert(b@.last() == b@[b@.len() - 1]);
        }
        if b@.len() == 0 || is_separator(b@.last(), windows) || (windows && b@.len() == 2
            && has_drive(b@)) {
            assert(start =~= b@);
        } else {
            assert(start =~= b@ + seq![separator(windows)]);
        }
    }
    string_from_chars(out.as_slice())
}

/// The file name of `path`, as `Path::file_name` gives it by the platform's rules.
pub fn native_file_name_of(path: &str, windows: bool) -> (r: Option<String>)
    ensures
        match r {
            Some(s) => native_file_name(path@, windows) == Some(s@),
            None => native_file_name(path@, windows) is None,
        },
{
    if !windows {
        return file_name(path);
    }
    let chars = chars_of(path);
    let start: usize = if chars.len() >= 2 && drive_letter(chars[0]) && chars[1] == ':' {
        2
    } else {
        0
    };
    let ghost rest = if has_drive(path@) {
        path@.skip(2)
    } else {
        path@
    };
    proof {
        assert(rest =~= path@.subrange(start as int, path@.len() as int));
    }
    let mut v: Vec<char> = Vec::new();
    let mut i: usize = start;
    while i < chars.len()
        invariant
            start <= i <= chars@.len(),
            chars@ == path@,
            v@ =~= slashed(chars@.subrange(start as int, i as int)),
        decreases chars@.len() - i,
    {
        let c = chars[i];
        if c == '\\' {
            v.push('/');
        } else {
            v.push(c);
        }
        proof {
            assert(chars@.subrange(start as int, i + 1) =~= chars@.subrange(start as int, i as int).push(c));
        }
        i = i + 1;
    }
    let text = string_from_chars(v.as_slice());
    file_name(text.as_str())
}

/// A search that finds a match with no match before it finds that one.
proof fn lemma_find_first(s: Seq<char>, p: Seq<char>, j: int)
    requires
        matches_at(s, p, j),
        forall|k: int| 0 <= k < j ==> !matches_at(s, p, k),
    ensures
        find_from(s, p, 0) == j,
{
    lemma_find_from(s, p, 0);
}

/// Splitting at a single character around one occurrence of it splits each side.
proof fn lemma_split_around(a: Seq<char>, c: char, b: Seq<char>)
    ensures
        split_seq(a + seq![c] + b, seq![c]) == split_seq(a, seq![c]) + split_seq(b, seq![c]),
    decreases a.len(),
{
    let p = seq![c];
    let s = a + p + b;
    assert forall|k: int| 0 <= k < s.len() implies (matches_at(s, p, k) <==> s[k] == c) by {
        if s[k] == c {
            assert(s.subrange(k, k + 1) =~= p);
        }
        if matches_at(s, p, k) {
            assert(s.subrange(k, k + 1)[0] == s[k]);
        }
    }
    assert forall|k: int| 0 <= k < a.len() implies (matches_at(a, p, k) <==> a[k] == c) by {
        if a[k] == c {
            assert(a.subrange(k, k + 1) =~= p);
        }
        if matches_at(a, p, k) {
            assert(a.subrange(k, k + 1)[0] == a[k]);
        }
    }
    lemma_find_from(a, p, 0);
    let i = find_from(a, p, 0);
    if i >= 0 {
        assert(matches_at(s, p, i)) by {
            assert(a[i] == c);
            assert(s[i] == a[i]);
        }
        assert forall|k: int| 0 <= k < i implies !matches_at(s, p, k) by {
            assert(!matches_at(a, p, k));
            assert(s[k] == a[k]);
        }
        lemma_find_first(s, p, i);
        let rest = a.skip(i + 1);
        lemma_split_around(rest, c, b);
        assert(s.take(i) =~= a.take(i));
        assert(s.skip(i + 1) =~= rest + p + b);
        assert(split_seq(s, p) =~= seq![a.take(i)] + split_seq(rest + p + b, p));
        assert(split_seq(a, p) =~= seq![a.take(i)] + split_seq(rest, p));
    } else {
        let j = a.len() as int;
        assert(matches_at(s, p, j)) by {
            assert(s[j] == c);
        }
        assert forall|k: int| 0 <= k < j implies !matches_at(s, p, k) by {
            assert(!matches_at(a, p, k));
            assert(s[k] == a[k]);
        }
        lemma_find_first(s, p, j);
        assert(s.take(j) =~= a);
        assert(s.skip(j + 1) =~= b);
        assert(split_seq(a, p) =~= seq![a]);
    }
}

/// A path that ends in the segment `rom` (joined onto anything) is named `rom`.
pub proof fn lemma_join_rom_is_rom(base: Seq<char>)
    ensures
        file_name_of(path_join(base, "rom"@)) == Some("rom"@),
{
    reveal_strlit("rom");
    let rom = "rom"@;
    let sep = seq!['/'];
    assert(rom =~= seq!['r', 'o', 'm']);
    assert(split_seq(rom, sep) =~= seq![rom]) by {
        lemma_find_from(rom, sep, 0);
        assert forall|k: int| 0 <= k < 3 implies !matches_at(rom, sep, k) by {
            if matches_at(rom, sep, k) {
                assert(rom.subrange(k, k + 1)[0] == rom[k]);
            }
        }
    }
    let joined = path_join(base, rom);
    let parts = split_seq(joined, sep);
    if base.len() == 0 {
        assert(joined == rom);
    } else if base.last() == '/' {
        let front = base.drop_last();
        assert(joined =~= front + seq!['/'] + rom);
        lemma_split_around(front, '/', rom);
    } else {
        assert(joined =~= base + seq!['/'] + rom);
        lemma_split_around(base, '/', rom);
    }
    assert(parts.last() == rom);
    assert(is_named_segment(rom)) by {
        assert(rom != seq!['.']) by {
            assert(rom.len() != seq!['.'].len());
        }
    }
    assert(rom != seq!['.', '.']) by {
        assert(rom.len() != seq!['.', '.'].len());
    }
}

/// A path that is empty or ends in `/`, followed by `rom`, is named `rom`.
proof fn lemma_after_slash_is_rom(x: Seq<char>)
    requires
        x.len() == 0 || x.last() == '/',
    ensures
        file_name_of(x + "rom"@) == Some("rom"@),
{
    if x.len() == 0 {
        assert(x + "rom"@ =~= "rom"@);
        lemma_join_rom_is_rom(x);
    } else {
        let front = x.drop_last();
        assert(x + "rom"@ =~= path_join(front + seq!['/'], "rom"@)) by {
            reveal_strlit("rom");
            assert((front + seq!['/']).last() == '/');
        }
        lemma_join_rom_is_rom(front + seq!['/']);
    }
}

/// Joining `rom` onto anything gives a path named `rom`, by the platform's rules.
pub proof fn lemma_native_join_rom_is_rom(base: Seq<char>, windows: bool)
    ensures
        native_file_name(join_name(base, "rom"@, windows), windows) == Some("rom"@),
{
    reveal_strlit("rom");
    let rom = "rom"@;
    assert(rom =~= seq!['r', 'o', 'm']);
    let j = join_name(base, rom, windows);
    let bm = if base.len() == 0 || is_separator(base.last(), windows) || (windows && base.len()
        == 2 && has_drive(base)) {
        base
    } else {
        base + seq![separator(windows)]
    };
    assert(j =~= bm + rom);
    if !windows {
        assert(j =~= path_join(base, rom));
        lemma_join_rom_is_rom(base);
    } else {
        let y = if bm.len() >= 2 && has_drive(bm) {
            bm.skip(2)
        } else {
            bm
        };
        let t = if has_drive(j) {
            j.skip(2)
        } else {
            j
        };
        if bm.len() >= 2 {
            assert(has_drive(j) == has_drive(bm)) by {
                assert(j[0] == bm[0] && j[1] == bm[1]);
            }
            if has_drive(j) {
                assert(t =~= bm.skip(2) + rom);
            }
        } else if bm.len() == 1 {
            assert(j[1] == rom[0]);
        } else {
            assert(j[1] == rom[1]);
        }
        assert(t =~= y + rom);
        assert(y.len() == 0 || is_separator(y.last(), true)) by {
            if y.len() > 0 {
                assert(y.last() == bm.last());
                if bm.len() == 2 && has_drive(bm) {
                    assert(y.len() == 0);
                }
            }
        }
        assert(slashed(t) =~= slashed(y) + rom);
        assert(slashed(y).len() == 0 || slashed(y).last() == '/') by {
            if y.len() > 0 {
                assert(slashed(y).last() == slashed(y)[y.len() - 1]);
            }
        }
        lemma_after_slash_is_rom(slashed(y));
    }
}

} // verus!
