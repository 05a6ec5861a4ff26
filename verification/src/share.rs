//! Playlist "share strings": `stormforge-playlist:` followed by the base64 (standard
//! alphabet, padded) of the zlib-compressed JSON payload
//! `{"mods":[{"name":..,"version":..}, ...]}`, and importing such a playlist into the
//! store.
//!
//! The library frames and unframes the JSON text; turning that text into a
//! `SharePlaylist` and back is the caller's job.
use std::io::{Read, Write};

use base64::Engine;
use vstd::prelude::*;

use crate::store::{Mod, Store};
use crate::strmap::StrMap;
use crate::text::{chars_of, compare_chars, str_eq, string_from_chars};

verus! {

/// What every share string starts with.
pub const SHARE_STRING_PREFIX: &'static str = "stormforge-playlist:";

/// A single mod reference inside a share string payload.
#[derive(Debug, Clone, PartialEq, Eq)]
pub struct ShareMod {
    pub name: String,
    pub version: String,
}

/// The decoded payload of a share string.
#[derive(Debug, Clone, PartialEq, Eq)]
pub struct SharePlaylist {
    pub mods: Vec<ShareMod>,
}

#[verifier::external_type_specification]
#[verifier::external_body]
pub struct ExDecodeError(base64::DecodeError);

#[verifier::external_type_specification]
#[verifier::external_body]
pub struct ExIoError(std::io::Error);

/// Why a share string could not be built or read.
#[derive(Debug)]
pub enum ShareStringError {
    InvalidPrefix,
    InvalidBase64(base64::DecodeError),
    Decompress(std::io::Error),
}

/// The zlib stream (default compression) that `flate2` makes of the UTF-8 bytes of a
/// text.
pub uninterp spec fn zlib_compressed(text: Seq<char>) -> Seq<u8>;

/// The text held by a zlib stream: `None` when the stream is not valid zlib or what it
/// holds is not UTF-8.
pub uninterp spec fn zlib_text(stream: Seq<u8>) -> Option<Seq<char>>;

/// The standard padded base64 encoding of some bytes.
pub uninterp spec fn base64_encoding(bytes: Seq<u8>) -> Seq<char>;

/// The bytes a text decodes to as standard padded base64, or `None` when it is not.
pub uninterp spec fn base64_decoding(text: Seq<char>) -> Option<Seq<u8>>;

/// Compresses the UTF-8 bytes of `text` into a zlib stream with `flate2`'s
/// `write::ZlibEncoder` at the default level: the encoder is made over an empty `Vec`,
/// given the bytes with `write_all`, and closed with `finish`. Claims: this succeeds
/// (writing into a `Vec` cannot fail, and the compressor only fails on a stream used
/// after it was finished, which `write_all` then `finish` never does), the stream is the
/// one named by `zlib_compressed`, decompressing it gives the text back (zlib is
/// lossless), and it fits in memory (at most `isize::MAX` bytes, as every `Vec` does).
#[verifier::external_body]
fn zlib_compress(text: &str) -> (r: Result<Vec<u8>, std::io::Error>)
    ensures
        r is Ok,
        r matches Ok(c) ==> c@ == zlib_compressed(text@) && zlib_text(c@) == Some(text@)
            && c@.len() <= isize::MAX,
{
    let mut encoder = flate2::write::ZlibEncoder::new(Vec::new(), flate2::Compression::default());
    encoder.write_all(text.as_bytes())?;
    encoder.finish()
}

/// Decompresses a zlib stream with `flate2`'s `read::ZlibDecoder` and reads the result
/// as UTF-8 text with `read_to_string`. Claims: success exactly when `zlib_text` holds a
/// text, and then that text.
#[verifier::external_body]
fn zlib_decompress_text(stream: &[u8]) -> (r: Result<String, std::io::Error>)
    ensures
        match r {
            Ok(t) => zlib_text(stream@) == Some(t@),
            Err(_) => zlib_text(stream@) is None,
        },
{
    let mut text = String::new();
    flate2::read::ZlibDecoder::new(stream).read_to_string(&mut text)?;
    Ok(text)
}

/// Encodes bytes with `base64`'s `STANDARD` engine (`Engine::encode`). Claims: the
/// result is `base64_encoding` of the bytes, and decoding it gives the bytes back. The
/// engine panics when the encoded length overflows `usize`; `requires` rules that out.
#[verifier::external_body]
fn base64_encode(bytes: &[u8]) -> (r: String)
    requires
        bytes@.len() <= isize::MAX,
    ensures
        r@ == base64_encoding(bytes@),
        base64_decoding(r@) == Some(bytes@),
{
    base64::engine::general_purpose::STANDARD.encode(bytes)
}

/// Decodes a text with `base64`'s `STANDARD` engine (`Engine::decode`). Claims: success
/// exactly when `base64_decoding` gives bytes, and then those bytes.
#[verifier::external_body]
fn base64_decode(text: &str) -> (r: Result<Vec<u8>, base64::DecodeError>)
    ensures
        match r {
            Ok(b) => base64_decoding(text@) == Some(b@),
            Err(_) => base64_decoding(text@) is None,
        },
{
    base64::engine::general_purpose::STANDARD.decode(text)
}

/// The prefix as characters.
pub open spec fn share_prefix() -> Seq<char> {
    "stormforge-playlist:"@
}

/// The share string made of a JSON payload.
pub open spec fn share_string_of(json: Seq<char>) -> Seq<char> {
    share_prefix() + base64_encoding(zlib_compressed(json))
}

/// Whether `s` starts with the share prefix.
pub open spec fn has_share_prefix(s: Seq<char>) -> bool {
    s.len() >= share_prefix().len() && s.take(share_prefix().len() as int) == share_prefix()
}

/// The JSON payload a share string holds, if it is one: its prefix, base64 and zlib
/// layers are all valid.
pub open spec fn share_payload(s: Seq<char>) -> Option<Seq<char>> {
    if !has_share_prefix(s) {
        None
    } else {
        match base64_decoding(s.skip(share_prefix().len() as int)) {
            Some(bytes) => zlib_text(bytes),
            None => None,
        }
    }
}

/// Builds a share string from a playlist's JSON payload: the prefix, then the base64
/// of the payload's zlib stream. It always succeeds, and what it returns reads back with
/// `import_share_string` as the same payload.
pub fn generate_share_string(json: &str) -> (r: Result<String, ShareStringError>)
    ensures
        r is Ok,
        match r {
            Ok(s) => s@ == share_string_of(json@) && share_payload(s@) == Some(json@),
            Err(e) => e is Decompress,
        },
{
    let compressed = match zlib_compress(json) {
        Ok(c) => c,
        Err(e) => {
            return Err(ShareStringError::Decompress(e));
        },
    };
    let encoded = base64_encode(compressed.as_slice());
    let mut out = chars_of(SHARE_STRING_PREFIX);
    let enc = chars_of(encoded.as_str());
    let ghost prefix = out@;
    proof {
        reveal_strlit("stormforge-playlist:");
        assert(prefix == share_prefix());
    }
    let mut i: usize = 0;
    while i < enc.len()
        invariant
            i <= enc@.len(),
            out@ == prefix + enc@.take(i as int),
        decreases enc@.len() - i,
    {
        out.push(enc[i]);
        proof {
            assert(enc@.take(i + 1) =~= enc@.take(i as int).push(enc@[i as int]));
        }
        i = i + 1;
    }
    proof {
        assert(enc@.take(enc@.len() as int) =~= enc@);
        let s = out@;
        assert(s.take(share_prefix().len() as int) =~= share_prefix());
        assert(s.skip(share_prefix().len() as int) =~= enc@);
    }
    Ok(string_from_chars(out.as_slice()))
}

/// Reads a share string back into its JSON payload. Errors, in the order they are
/// checked: the prefix is missing (`InvalidPrefix`), the rest is not base64
/// (`InvalidBase64`), the bytes are not a zlib stream holding UTF-8 text
/// (`Decompress`).
pub fn import_share_string(share_string: &str) -> (r: Result<String, ShareStringError>)
    ensures
        r is Ok <==> share_payload(share_string@) is Some,
        match r {
            Ok(json) => share_payload(share_string@) == Some(json@),
            Err(ShareStringError::InvalidPrefix) => !has_share_prefix(share_string@),
            Err(ShareStringError::InvalidBase64(_)) => has_share_prefix(share_string@)
                && base64_decoding(share_string@.skip(share_prefix().len() as int)) is None,
            Err(ShareStringError::Decompress(_)) => has_share_prefix(share_string@)
                && base64_decoding(share_string@.skip(share_prefix().len() as int)) is Some
                && share_payload(share_string@) is None,
        },
{
    let s = chars_of(share_string);
    let prefix = chars_of(SHARE_STRING_PREFIX);
    proof {
        reveal_strlit("stormforge-playlist:");
    }
    if s.len() < prefix.len() {
        return Err(ShareStringError::InvalidPrefix);
    }
    let mut head: Vec<char> = Vec::new();
    let mut i: usize = 0;
    while i < prefix.len()
        invariant
            i <= prefix@.len(),
            prefix@.len() <= s@.len(),
            head@ =~= s@.take(i as int),
        decreases prefix@.len() - i,
    {
        head.push(s[i]);
        i = i + 1;
    }
    if compare_chars(head.as_slice(), prefix.as_slice()) != 0 {
        return Err(ShareStringError::InvalidPrefix);
    }
    let mut rest: Vec<char> = Vec::new();
    let mut j: usize = prefix.len();
    while j < s.len()
        invariant
            prefix@.len() <= j <= s@.len(),
            rest@ =~= s@.subrange(prefix@.len() as int, j as int),
        decreases s@.len() - j,
    {
        rest.push(s[j]);
        j = j + 1;
    }
    proof {
        assert(rest@ =~= s@.skip(share_prefix().len() as int));
    }
    let encoded = string_from_chars(rest.as_slice());
    let bytes = match base64_decode(encoded.as_str()) {
        Ok(b) => b,
        Err(e) => {
            return Err(ShareStringError::InvalidBase64(e));
        },
    };
    match zlib_decompress_text(bytes.as_slice()) {
        Ok(json) => Ok(json),
        Err(e) => Err(ShareStringError::Decompress(e)),
    }
}

/// Why importing a share string as a playlist was refused.
#[derive(Debug)]
pub enum ImportError {
    Share(ShareStringError),
    /// One or more required mods are not installed; holds their names.
    MissingMods(Vec<String>),
}

/// The names of the mods a payload lists, in order.
pub open spec fn share_names(mods: Seq<ShareMod>) -> Seq<Seq<char>> {
    mods.map_values(|m: ShareMod| m.name@)
}

/// The names of the installed mods, in order.
pub open spec fn installed_names(mods: Seq<Mod>) -> Seq<Seq<char>> {
    mods.map_values(|m: Mod| m.name@)
}

/// The required names that no installed mod has, in the order (and with the
/// repetitions) of the requirement.
pub open spec fn missing_names(required: Seq<Seq<char>>, installed: Seq<Seq<char>>) -> Seq<
    Seq<char>,
>
    decreases required.len(),
{
    if required.len() == 0 {
        Seq::empty()
    } else {
        let earlier = missing_names(required.drop_last(), installed);
        if installed.contains(required.last()) {
            earlier
        } else {
            earlier.push(required.last())
        }
    }
}

/// The playlist states an import creates: every installed mod, active exactly when the
/// payload requires it.
pub open spec fn imported_states(mods: Seq<Mod>, required: Seq<Seq<char>>) -> Map<
    Seq<char>,
    bool,
>
    decreases mods.len(),
{
    if mods.len() == 0 {
        Map::empty()
    } else {
        imported_states(mods.drop_last(), required).insert(
            mods.last().name@,
            required.contains(mods.last().name@),
        )
    }
}

/// The missing names are exactly the required names that no installed mod has.
pub proof fn law_missing_are_the_uninstalled_required(
    required: Seq<Seq<char>>,
    installed: Seq<Seq<char>>,
)
    ensures
        forall|n: Seq<char>|
            #[trigger] missing_names(required, installed).contains(n) <==> required.contains(n)
                && !installed.contains(n),
    decreases required.len(),
{
    if required.len() > 0 {
        let d = required.drop_last();
        law_missing_are_the_uninstalled_required(d, installed);
        let before = missing_names(d, installed);
        let after = missing_names(required, installed);
        assert forall|n: Seq<char>| #[trigger] after.contains(n) <==> required.contains(n)
            && !installed.contains(n) by {
            if after.contains(n) {
                let j = choose|j: int| 0 <= j < after.len() && after[j] == n;
                if j < before.len() {
                    assert(before[j] == n);
                    assert(before.contains(n));
                    let k = choose|k: int| 0 <= k < d.len() && d[k] == n;
                    assert(required[k] == n);
                } else {
                    assert(required[required.len() - 1] == n);
                }
            }
            if required.contains(n) && !installed.contains(n) {
                let k = choose|k: int| 0 <= k < required.len() && required[k] == n;
                if k < required.len() - 1 {
                    assert(d[k] == n);
                    assert(before.contains(n));
                    let j = choose|j: int| 0 <= j < before.len() && before[j] == n;
                    assert(after[j] == n);
                } else {
                    assert(after[after.len() - 1] == n);
                }
            }
        }
    }
}

/// An import makes every installed mod active exactly when the shared playlist lists
/// its name, whatever the mod's current state, and holds no other name.
pub proof fn law_import_activates_exactly_the_shared(mods: Seq<Mod>, required: Seq<Seq<char>>)
    ensures
        forall|i: int|
            0 <= i < mods.len() ==> #[trigger] imported_states(mods, required).contains_key(
                mods[i].name@,
            ) && imported_states(mods, required)[mods[i].name@] == required.contains(
                mods[i].name@,
            ),
        forall|n: Seq<char>|
            #[trigger] imported_states(mods, required).contains_key(n) ==> installed_names(
                mods,
            ).contains(n),
    decreases mods.len(),
{
    if mods.len() > 0 {
        let d = mods.drop_last();
        law_import_activates_exactly_the_shared(d, required);
        let st = imported_states(mods, required);
        assert forall|i: int| 0 <= i < mods.len() implies #[trigger] st.contains_key(mods[i].name@)
            && st[mods[i].name@] == required.contains(mods[i].name@) by {
            if i < mods.len() - 1 {
                assert(d[i] == mods[i]);
                assert(imported_states(d, required).contains_key(d[i].name@));
            }
        }
        assert forall|n: Seq<char>| #[trigger] st.contains_key(n) implies installed_names(
            mods,
        ).contains(n) by {
            if n == mods.last().name@ {
                assert(installed_names(mods)[mods.len() - 1] == n);
            } else {
                assert(imported_states(d, required).contains_key(n));
                let j = choose|j: int| 0 <= j < installed_names(d).len() && installed_names(d)[j] == n;
                assert(installed_names(mods)[j] == n);
            }
        }
    }
}

/// Whether a mod named `name` is installed.
fn is_installed(mods: &Vec<Mod>, name: &str) -> (b: bool)
    ensures
        b == installed_names(mods@).contains(name@),
{
    let mut i: usize = 0;
    while i < mods.len()
        invariant
            i <= mods@.len(),
            forall|j: int| 0 <= j < i ==> mods@[j].name@ != name@,
        decreases mods@.len() - i,
    {
        if str_eq(mods[i].name.as_str(), name) {
            proof {
                assert(installed_names(mods@)[i as int] == name@);
            }
            return true;
        }
        i = i + 1;
    }
    proof {
        if installed_names(mods@).contains(name@) {
            let k = choose|k: int|
                0 <= k < installed_names(mods@).len() && installed_names(mods@)[k] == name@;
            assert(mods@[k].name@ == name@);
        }
    }
    false
}

/// Whether the payload requires a mod named `name`.
fn is_required(mods: &Vec<ShareMod>, name: &str) -> (b: bool)
    ensures
        b == share_names(mods@).contains(name@),
{
    let mut i: usize = 0;
    while i < mods.len()
        invariant
            i <= mods@.len(),
            forall|j: int| 0 <= j < i ==> mods@[j].name@ != name@,
        decreases mods@.len() - i,
    {
        if str_eq(mods[i].name.as_str(), name) {
            proof {
                assert(share_names(mods@)[i as int] == name@);
            }
            return true;
        }
        i = i + 1;
    }
    proof {
        if share_names(mods@).contains(name@) {
            let k = choose|k: int| 0 <= k < share_names(mods@).len() && share_names(mods@)[k] == name@;
            assert(mods@[k].name@ == name@);
        }
    }
    false
}

/// Imports a decoded share payload as a new playlist named `playlist_name`. When any
/// required mod is not installed, the import is refused with their names and the store
/// is left as it was; otherwise the playlist activates exactly the required mods (every
/// other installed mod inactive), is saved under the name (replacing any playlist of
/// that name), and its states are returned.
pub fn import_share_as_playlist(
    store: &mut Store,
    playlist: &SharePlaylist,
    playlist_name: &str,
) -> (r: Result<StrMap<bool>, ImportError>)
    ensures
        ({
            let required = share_names(playlist.mods@);
            let missing = missing_names(required, installed_names(old(store).mods@));
            &&& missing.len() > 0 <==> r is Err
            &&& r matches Err(e) ==> {
                &&& e matches ImportError::MissingMods(names) && names@.len() == missing.len()
                    && forall|k: int| 0 <= k < missing.len() ==> #[trigger] names@[k]@ == missing[k]
                &&& *final(store) == *old(store)
            }
            &&& r matches Ok(states) ==> {
                &&& states@ == imported_states(old(store).mods@, required)
                &&& final(store).playlists@.contains_key(playlist_name@)
                &&& final(store).playlists@[playlist_name@]@ == states@
                &&& final(store).playlists@.remove(playlist_name@) == old(
                    store,
                ).playlists@.remove(playlist_name@)
                &&& final(store).selected_playlist == old(store).selected_playlist
                &&& crate::playlists::same_except_playlists(*final(store), *old(store))
            }
        }),
{
    let ghost required = share_names(playlist.mods@);
    let ghost installed = installed_names(store.mods@);
    let mut missing: Vec<String> = Vec::new();
    let mut i: usize = 0;
    while i < playlist.mods.len()
        invariant
            i <= playlist.mods@.len(),
            required == share_names(playlist.mods@),
            installed == installed_names(store.mods@),
            missing@.len() == missing_names(required.take(i as int), installed).len(),
            forall|k: int|
                0 <= k < missing@.len() ==> #[trigger] missing@[k]@ == missing_names(
                    required.take(i as int),
                    installed,
                )[k],
        decreases playlist.mods@.len() - i,
    {
        let name = &playlist.mods[i].name;
        let ghost before = missing@;
        proof {
            assert(required.take(i + 1).drop_last() =~= required.take(i as int));
            assert(required.take(i + 1).last() == name@);
        }
        if !is_installed(&store.mods, name.as_str()) {
            missing.push(name.clone());
        }
        proof {
            let now = missing_names(required.take(i + 1), installed);
            assert forall|k: int| 0 <= k < missing@.len() implies #[trigger] missing@[k]@ == now[k] by {
                if k < before.len() {
                    assert(missing@[k] == before[k]);
                }
            }
        }
        i = i + 1;
    }
    proof {
        assert(required.take(playlist.mods@.len() as int) =~= required);
    }
    if missing.len() > 0 {
        return Err(ImportError::MissingMods(missing));
    }
    let mut states: StrMap<bool> = StrMap::new();
    let mut j: usize = 0;
    while j < store.mods.len()
        invariant
            j <= store.mods@.len(),
            required == share_names(playlist.mods@),
            states@ == imported_states(store.mods@.take(j as int), required),
        decreases store.mods@.len() - j,
    {
        let m = &store.mods[j];
        let active = is_required(&playlist.mods, m.name.as_str());
        states.insert(m.name.clone(), active);
        proof {
            assert(store.mods@.take(j + 1).drop_last() =~= store.mods@.take(j as int));
        }
        j = j + 1;
    }
    proof {
        assert(store.mods@.take(store.mods@.len() as int) =~= store.mods@);
    }
    let ghost pre = store.playlists@;
    store.playlists.insert(playlist_name.to_string(), states.duplicate());
    proof {
        assert(store.playlists@.remove(playlist_name@) =~= pre.remove(playlist_name@));
    }
    Ok(states)
}

} // verus!
