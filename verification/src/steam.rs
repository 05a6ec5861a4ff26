//! Steam library detection: the library paths in a `libraryfolders.vdf` file that hold
//! a given app, and the Stormworks game directory inside a library.
//!
//! Rather than a full VDF parser, the file is cut at every `"path"` key and each piece
//! is inspected for the quoted app ID and the `"path" "<value>"` pair that opens it.
use vstd::prelude::*;

use crate::paths::{join_name, join_native, Platform};
use crate::text::{
    chars_of, contains_chars, contains_seq, find_chars, find_from, replace_chars, replace_seq,
    split_chars, split_seq, string_from_chars,
};

verus! {

/// Stormworks' Steam AppID.
pub const STORMWORKS_APP_ID: &'static str = "573090";

/// The key that opens every library block: `"path"`.
pub open spec fn path_key() -> Seq<char> {
    seq!['"', 'p', 'a', 't', 'h', '"']
}

/// `text` between double quotes.
pub open spec fn quoted(text: Seq<char>) -> Seq<char> {
    seq!['"'] + text + seq!['"']
}

/// Unicode's White_Space property, which `char::is_whitespace` tests.
pub open spec fn is_white_space(c: char) -> bool {
    let u = c as int;
    ||| 0x09 <= u <= 0x0D
    ||| u == 0x20
    ||| u == 0x85
    ||| u == 0xA0
    ||| u == 0x1680
    ||| 0x2000 <= u <= 0x200A
    ||| u == 0x2028
    ||| u == 0x2029
    ||| u == 0x202F
    ||| u == 0x205F
    ||| u == 0x3000
}

/// `s` without its leading white space, as `str::trim_start` gives it.
pub open spec fn trim_start_seq(s: Seq<char>) -> Seq<char>
    decreases s.len(),
{
    if s.len() > 0 && is_white_space(s[0]) {
        trim_start_seq(s.drop_first())
    } else {
        s
    }
}

/// The value of the `"path" "<value>"` pair that opens `block`, if it is well formed.
pub open spec fn first_path_value(block: Seq<char>) -> Option<Seq<char>> {
    if block.len() < path_key().len() || block.take(path_key().len() as int) != path_key() {
        None
    } else {
        let trimmed = trim_start_seq(block.skip(path_key().len() as int));
        if trimmed.len() == 0 || trimmed[0] != '"' {
            None
        } else {
            let inner = trimmed.drop_first();
            let end = find_from(inner, seq!['"'], 0);
            if end < 0 {
                None
            } else {
                Some(inner.take(end))
            }
        }
    }
}

/// The path values of those pieces (each put back behind its `"path"` key) that
/// mention the quoted app ID, in order.
pub open spec fn library_paths_in(pieces: Seq<Seq<char>>, quoted_app: Seq<char>) -> Seq<
    Seq<char>,
>
    decreases pieces.len(),
{
    if pieces.len() == 0 {
        Seq::empty()
    } else {
        let earlier = library_paths_in(pieces.drop_last(), quoted_app);
        let block = path_key() + pieces.last();
        if contains_seq(block, quoted_app) {
            match first_path_value(block) {
                Some(v) => earlier.push(v),
                None => earlier,
            }
        } else {
            earlier
        }
    }
}

/// The library paths listed in a `libraryfolders.vdf` text whose block holds `app_id`.
/// The text before the first `"path"` key is not a block.
pub open spec fn library_paths_for_app(vdf: Seq<char>, app_id: Seq<char>) -> Seq<Seq<char>> {
    library_paths_in(split_seq(vdf, path_key()).skip(1), quoted(app_id))
}

/// Whether `c` is white space.
fn is_white_space_exec(c: char) -> (b: bool)
    ensures
        b == is_white_space(c),
{
    let u = c as u32;
    (0x09 <= u && u <= 0x0D) || u == 0x20 || u == 0x85 || u == 0xA0 || u == 0x1680 || (0x2000
        <= u && u <= 0x200A) || u == 0x2028 || u == 0x2029 || u == 0x202F || u == 0x205F || u
        == 0x3000
}

/// The value of the first `"path" "<value>"` pair of a VDF block.
fn extract_first_path_value(block: &[char]) -> (r: Option<String>)
    ensures
        match r {
            Some(v) => first_path_value(block@) == Some(v@),
            None => first_path_value(block@) is None,
        },
{
    let key = ['"', 'p', 'a', 't', 'h', '"'];
    proof {
        assert(key@ =~= path_key());
    }
    if block.len() < key.len() {
        return None;
    }
    let mut k: usize = 0;
    while k < key.len()
        invariant
            k <= 6,
            block@.len() >= 6,
            key@ == path_key(),
            forall|j: int| 0 <= j < k ==> block@[j] == key@[j],
        decreases 6 - k,
    {
        if block[k] != key[k] {
            proof {
                assert(block@.take(6)[k as int] == block@[k as int]);
            }
            return None;
        }
        k = k + 1;
    }
    proof {
        assert(block@.take(6) =~= path_key());
    }
    let mut i: usize = key.len();
    proof {
        assert(trim_start_seq(block@.skip(6)) == trim_start_seq(block@.skip(i as int)));
    }
    while i < block.len() && is_white_space_exec(block[i])
        invariant
            6 <= i <= block@.len(),
            trim_start_seq(block@.skip(6)) == trim_start_seq(block@.skip(i as int)),
        decreases block@.len() - i,
    {
        proof {
            assert(block@.skip(i as int).drop_first() =~= block@.skip(i + 1));
        }
        i = i + 1;
    }
    let ghost trimmed = block@.skip(i as int);
    proof {
        if i < block@.len() {
            assert(trimmed[0] == block@[i as int]);
        }
        assert(trim_start_seq(block@.skip(6)) == trimmed);
    }
    if i >= block.len() || block[i] != '"' {
        return None;
    }
    let start = i + 1;
    let quote = ['"'];
    proof {
        assert(quote@ =~= seq!['"']);
    }
    match find_chars(block, quote.as_slice(), start) {
        Some(end) => {
            proof {
                crate::text::lemma_find_shift(block@, seq!['"'], start as int);
                assert(trimmed.drop_first() =~= block@.skip(start as int));
                crate::text::lemma_find_from(block@, seq!['"'], start as int);
            }
            let mut v: Vec<char> = Vec::new();
            let mut j = start;
            while j < end
                invariant
                    start <= j <= end,
                    end <= block@.len(),
                    v@ =~= block@.subrange(start as int, j as int),
                decreases end - j,
            {
                v.push(block[j]);
                j = j + 1;
            }
            proof {
                assert(v@ =~= block@.skip(start as int).take(end - start));
            }
            Some(string_from_chars(v.as_slice()))
        },
        None => {
            proof {
                crate::text::lemma_find_shift(block@, seq!['"'], start as int);
                assert(trimmed.drop_first() =~= block@.skip(start as int));
            }
            None
        },
    }
}

/// Every library path in a `libraryfolders.vdf` text whose block also holds `app_id`,
/// in file order.
pub fn extract_library_paths_for_app(vdf_contents: &str, app_id: &str) -> (paths: Vec<String>)
    ensures
        paths@.len() == library_paths_for_app(vdf_contents@, app_id@).len(),
        forall|k: int|
            0 <= k < paths@.len() ==> #[trigger] paths@[k]@ == library_paths_for_app(
                vdf_contents@,
                app_id@,
            )[k],
{
    let key = ['"', 'p', 'a', 't', 'h', '"'];
    proof {
        assert(key@ =~= path_key());
    }
    let vdf = chars_of(vdf_contents);
    let app = chars_of(app_id);
    let mut quoted_app: Vec<char> = Vec::new();
    quoted_app.push('"');
    let mut a: usize = 0;
    while a < app.len()
        invariant
            a <= app@.len(),
            quoted_app@ == seq!['"'] + app@.take(a as int),
        decreases app@.len() - a,
    {
        quoted_app.push(app[a]);
        proof {
            assert(app@.take(a + 1) =~= app@.take(a as int).push(app@[a as int]));
        }
        a = a + 1;
    }
    quoted_app.push('"');
    proof {
        assert(app@.take(app@.len() as int) =~= app@);
        assert(quoted_app@ =~= quoted(app_id@));
    }
    let fragments = split_chars(vdf.as_slice(), key.as_slice());
    let ghost pieces = split_seq(vdf_contents@, path_key()).skip(1);
    let mut paths: Vec<String> = Vec::new();
    let mut i: usize = 1;
    while i < fragments.len()
        invariant
            1 <= i,
            fragments@.len() == split_seq(vdf_contents@, path_key()).len(),
            i <= fragments@.len() || fragments@.len() == 0,
            forall|k: int|
                0 <= k < fragments@.len() ==> #[trigger] fragments@[k]@ == split_seq(
                    vdf_contents@,
                    path_key(),
                )[k],
            pieces == split_seq(vdf_contents@, path_key()).skip(1),
            quoted_app@ == quoted(app_id@),
            paths@.len() == library_paths_in(pieces.take(i - 1), quoted(app_id@)).len(),
            forall|k: int|
                0 <= k < paths@.len() ==> #[trigger] paths@[k]@ == library_paths_in(
                    pieces.take(i - 1),
                    quoted(app_id@),
                )[k],
        decreases fragments@.len() - i,
    {
        let mut block: Vec<char> = Vec::new();
        block.push('"');
        block.push('p');
        block.push('a');
        block.push('t');
        block.push('h');
        block.push('"');
        let frag = &fragments[i];
        let mut j: usize = 0;
        while j < frag.len()
            invariant
                j <= frag@.len(),
                block@ == path_key() + frag@.take(j as int),
            decreases frag@.len() - j,
        {
            block.push(frag[j]);
            proof {
                assert(frag@.take(j + 1) =~= frag@.take(j as int).push(frag@[j as int]));
            }
            j = j + 1;
        }
        proof {
            assert(frag@.take(frag@.len() as int) =~= frag@);
            assert(pieces.take(i as int).drop_last() =~= pieces.take(i - 1));
            assert(pieces.take(i as int).last() == frag@);
        }
        let ghost before = paths@;
        if contains_chars(block.as_slice(), quoted_app.as_slice()) {
            match extract_first_path_value(block.as_slice()) {
                Some(v) => {
                    paths.push(v);
                },
                None => {},
            }
        }
        proof {
            let prior = library_paths_in(pieces.take(i - 1), quoted(app_id@));
            let now = library_paths_in(pieces.take(i as int), quoted(app_id@));
            assert forall|k: int| 0 <= k < paths@.len() implies #[trigger] paths@[k]@ == now[k] by {
                if k < before.len() {
                    assert(paths@[k] == before[k]);
                }
            }
        }
        i = i + 1;
    }
    proof {
        if fragments@.len() > 0 {
            assert(pieces.take(fragments@.len() - 1) =~= pieces);
        } else {
            assert(pieces.len() == 0);
            assert(pieces.take(0) =~= pieces);
        }
    }
    paths
}

/// The Stormworks game directory inside a Steam library on `platform`:
/// `<library>/steamapps/common/Stormworks`, joined by the platform's rules, and the
/// `Stormworks.app` bundle within it on macOS.
pub open spec fn stormworks_dir_of(library: Seq<char>, platform: Platform) -> Seq<char> {
    let windows = platform is Windows;
    let common = join_name(
        join_name(join_name(library, "steamapps"@, windows), "common"@, windows),
        "Stormworks"@,
        windows,
    );
    if platform is MacOs {
        join_name(common, "Stormworks.app"@, windows)
    } else {
        common
    }
}

/// The Stormworks game directory inside the Steam library at `library_path`.
pub fn stormworks_path_from_library(library_path: &str, platform: Platform) -> (dir: String)
    ensures
        dir@ == stormworks_dir_of(library_path@, platform),
{
    let windows = match platform {
        Platform::Windows => true,
        _ => false,
    };
    let steamapps = join_native(library_path, "steamapps", windows);
    let common = join_native(steamapps.as_str(), "common", windows);
    let game = join_native(common.as_str(), "Stormworks", windows);
    match platform {
        Platform::MacOs => join_native(game.as_str(), "Stormworks.app", windows),
        _ => game,
    }
}

/// A library path as written in the VDF file, with its doubled backslashes undone.
pub open spec fn unescape_library_path(p: Seq<char>) -> Seq<char> {
    replace_seq(p, seq!['\\', '\\'], seq!['\\'])
}

/// The text held, if any.
pub open spec fn text_of(s: Option<&str>) -> Option<Seq<char>> {
    match s {
        Some(t) => Some(t@),
        None => None,
    }
}

/// The places to look for the game, in order: inside each library of the VDF text that
/// holds Stormworks, then inside the Steam directory's own library.
pub open spec fn game_dir_candidates(vdf: Option<Seq<char>>, steam_path: Seq<char>, platform: Platform) -> Seq<
    Seq<char>,
> {
    let from_vdf = match vdf {
        Some(text) => library_paths_for_app(text, "573090"@).map_values(
            |lib: Seq<char>| stormworks_dir_of(unescape_library_path(lib), platform),
        ),
        None => Seq::empty(),
    };
    from_vdf.push(stormworks_dir_of(steam_path, platform))
}

/// Whether `s` ends with `suffix`.
pub open spec fn ends_with(s: Seq<char>, suffix: Seq<char>) -> bool {
    s.len() >= suffix.len() && s.skip(s.len() - suffix.len()) == suffix
}

proof fn lemma_join_ends_with_name(base: Seq<char>, name: Seq<char>, windows: bool)
    ensures
        ends_with(join_name(base, name, windows), name),
{
    let j = join_name(base, name, windows);
    assert(j.skip(j.len() - name.len()) =~= name);
}

/// The library paths of a VDF text, if there is one, that hold Stormworks.
pub open spec fn vdf_libraries(vdf: Option<Seq<char>>) -> Seq<Seq<char>> {
    match vdf {
        Some(text) => library_paths_for_app(text, "573090"@),
        None => Seq::empty(),
    }
}

/// Every candidate is the game directory of a library on the same platform: one for
/// each VDF library that holds Stormworks, in order (its doubled backslashes undone),
/// then one for the Steam directory. So on macOS every candidate is the
/// `Stormworks.app` bundle, and elsewhere the `Stormworks` folder.
pub proof fn law_candidates_are_game_dirs(vdf: Option<Seq<char>>, steam_path: Seq<char>, platform: Platform)
    ensures
        game_dir_candidates(vdf, steam_path, platform).len() == vdf_libraries(vdf).len() + 1,
        forall|k: int|
            0 <= k < vdf_libraries(vdf).len() ==> #[trigger] game_dir_candidates(
                vdf,
                steam_path,
                platform,
            )[k] == stormworks_dir_of(unescape_library_path(vdf_libraries(vdf)[k]), platform),
        game_dir_candidates(vdf, steam_path, platform).last() == stormworks_dir_of(
            steam_path,
            platform,
        ),
        forall|k: int|
            0 <= k < game_dir_candidates(vdf, steam_path, platform).len() ==> ends_with(
                #[trigger] game_dir_candidates(vdf, steam_path, platform)[k],
                if platform is MacOs {
                    "Stormworks.app"@
                } else {
                    "Stormworks"@
                },
            ),
{
    let c = game_dir_candidates(vdf, steam_path, platform);
    let libs = vdf_libraries(vdf);
    assert forall|k: int| 0 <= k < c.len() implies ends_with(
        #[trigger] c[k],
        if platform is MacOs {
            "Stormworks.app"@
        } else {
            "Stormworks"@
        },
    ) by {
        let lib = if k < libs.len() {
            unescape_library_path(libs[k])
        } else {
            steam_path
        };
        assert(c[k] == stormworks_dir_of(lib, platform));
        lemma_game_dir_ends(lib, platform);
    }
}

proof fn lemma_game_dir_ends(library: Seq<char>, platform: Platform)
    ensures
        ends_with(
            stormworks_dir_of(library, platform),
            if platform is MacOs {
                "Stormworks.app"@
            } else {
                "Stormworks"@
            },
        ),
{
    let windows = platform is Windows;
    let common_base = join_name(join_name(library, "steamapps"@, windows), "common"@, windows);
    lemma_join_ends_with_name(common_base, "Stormworks"@, windows);
    lemma_join_ends_with_name(join_name(common_base, "Stormworks"@, windows), "Stormworks.app"@, windows);
}

/// The candidate game directories, in the order they are to be tried: the first that
/// exists on disk is the installation. `vdf_contents` is the text of
/// `<steam>/steamapps/libraryfolders.vdf`, when it could be read.
pub fn game_path_candidates(vdf_contents: Option<&str>, steam_path: &str, platform: Platform) -> (dirs:
    Vec<String>)
    ensures
        dirs@.len() == game_dir_candidates(text_of(vdf_contents), steam_path@, platform).len(),
        forall|k: int|
            0 <= k < dirs@.len() ==> #[trigger] dirs@[k]@ == game_dir_candidates(
                text_of(vdf_contents),
                steam_path@,
                platform,
            )[k],
{
    let mut dirs: Vec<String> = Vec::new();
    let ghost target = game_dir_candidates(text_of(vdf_contents), steam_path@, platform);
    match vdf_contents {
        Some(text) => {
            let libs = extract_library_paths_for_app(text, STORMWORKS_APP_ID);
            let ghost all = library_paths_for_app(text@, "573090"@);
            let from = ['\\', '\\'];
            let to = ['\\'];
            proof {
                assert(from@ =~= seq!['\\', '\\']);
                assert(to@ =~= seq!['\\']);
            }
            let mut i: usize = 0;
            while i < libs.len()
                invariant
                    i <= libs@.len(),
                    libs@.len() == all.len(),
                    all == library_paths_for_app(text@, "573090"@),
                    forall|k: int| 0 <= k < libs@.len() ==> #[trigger] libs@[k]@ == all[k],
                    from@ == seq!['\\', '\\'],
                    to@ == seq!['\\'],
                    dirs@.len() == i,
                    forall|k: int|
                        0 <= k < i ==> #[trigger] dirs@[k]@ == stormworks_dir_of(
                            unescape_library_path(all[k]),
                            platform,
                        ),
                decreases libs@.len() - i,
            {
                let lib = chars_of(libs[i].as_str());
                let unescaped = replace_chars(lib.as_slice(), from.as_slice(), to.as_slice());
                let unescaped = string_from_chars(unescaped.as_slice());
                dirs.push(stormworks_path_from_library(unescaped.as_str(), platform));
                i = i + 1;
            }
        },
        None => {},
    }
    dirs.push(stormworks_path_from_library(steam_path, platform));
    proof {
        assert forall|k: int| 0 <= k < dirs@.len() implies #[trigger] dirs@[k]@ == target[k] by {}
    }
    dirs
}

} // verus!
