//! Playlist operations over the store: save, load, rename, delete and overwrite, plus
//! tracking of the selected playlist. All are in-memory mutations of a `Store`;
//! persisting the result is the caller's job.
use vstd::prelude::*;

use crate::store::{Mod, Store};
use crate::strmap::StrMap;

verus! {

/// Why a playlist operation was refused.
#[derive(Debug, PartialEq, Eq)]
pub enum PlaylistError {
    EmptyName,
    NotFound(String),
    AlreadyExists(String),
}

/// The active flag of every mod, keyed by name; when two mods share a name the later
/// one in the list decides.
pub open spec fn states_of(mods: Seq<Mod>) -> Map<Seq<char>, bool>
    decreases mods.len(),
{
    if mods.len() == 0 {
        Map::empty()
    } else {
        states_of(mods.drop_last()).insert(mods.last().name@, mods.last().active)
    }
}

/// The state a mod takes when a playlist is loaded: its entry in the playlist, or
/// inactive when the playlist does not mention it.
pub open spec fn loaded_state(states: Map<Seq<char>, bool>, name: Seq<char>) -> bool {
    states.contains_key(name) && states[name]
}

/// `m` is `old` with only its active flag set to `active`.
pub open spec fn same_mod_with_active(m: Mod, old: Mod, active: bool) -> bool {
    &&& m.name == old.name
    &&& m.path == old.path
    &&& m.author == old.author
    &&& m.version == old.version
    &&& m.active == active
}

/// Everything in the store but the playlists and the selection is as before.
pub open spec fn same_except_playlists(new: Store, old: Store) -> bool {
    &&& new.game_directory == old.game_directory
    &&& new.settings == old.settings
    &&& new.mods == old.mods
    &&& new.installed_files == old.installed_files
}

/// Whether `s` holds the text `t`.
pub open spec fn holds_text(s: Option<String>, t: Seq<char>) -> bool {
    s matches Some(x) && x@ == t
}

/// The current active/inactive state of every mod, keyed by mod name: the shape stored
/// inside a playlist.
pub fn active_states(store: &Store) -> (states: StrMap<bool>)
    ensures
        states@ == states_of(store.mods@),
{
    let mut states: StrMap<bool> = StrMap::new();
    let mut i: usize = 0;
    while i < store.mods.len()
        invariant
            i <= store.mods@.len(),
            states@ == states_of(store.mods@.take(i as int)),
        decreases store.mods@.len() - i,
    {
        let m = &store.mods[i];
        states.insert(m.name.clone(), m.active);
        proof {
            assert(store.mods@.take(i + 1).drop_last() =~= store.mods@.take(i as int));
        }
        i = i + 1;
    }
    proof {
        assert(store.mods@.take(store.mods@.len() as int) =~= store.mods@);
    }
    states
}

/// Saves (or replaces) a playlist under `name`. Only an empty name is refused.
pub fn save_playlist(store: &mut Store, name: &str, states: StrMap<bool>) -> (r: Result<
    (),
    PlaylistError,
>)
    ensures
        name@.len() == 0 <==> r is Err,
        r is Err ==> r == Err::<(), PlaylistError>(PlaylistError::EmptyName) && *final(store)
            == *old(store),
        r is Ok ==> {
            &&& final(store).playlists@ == old(store).playlists@.insert(name@, states)
            &&& final(store).selected_playlist == old(store).selected_playlist
            &&& same_except_playlists(*final(store), *old(store))
        },
{
    if name.is_empty() {
        return Err(PlaylistError::EmptyName);
    }
    store.playlists.insert(name.to_string(), states);
    Ok(())
}

/// Gives every mod the state `states` holds for it: mods it does not mention become
/// inactive. Nothing else in the store changes.
pub fn apply_states(store: &mut Store, states: &StrMap<bool>)
    ensures
        final(store).mods@.len() == old(store).mods@.len(),
        forall|i: int|
            0 <= i < old(store).mods@.len() ==> same_mod_with_active(
                #[trigger] final(store).mods@[i],
                old(store).mods@[i],
                loaded_state(states@, old(store).mods@[i].name@),
            ),
        final(store).playlists == old(store).playlists,
        final(store).selected_playlist == old(store).selected_playlist,
        final(store).game_directory == old(store).game_directory,
        final(store).settings == old(store).settings,
        final(store).installed_files == old(store).installed_files,
{
    let ghost pre = *store;
    let mut i: usize = 0;
    while i < store.mods.len()
        invariant
            i <= store.mods@.len(),
            store.mods@.len() == pre.mods@.len(),
            store.playlists == pre.playlists,
            store.selected_playlist == pre.selected_playlist,
            store.game_directory == pre.game_directory,
            store.settings == pre.settings,
            store.installed_files == pre.installed_files,
            forall|j: int|
                0 <= j < i ==> same_mod_with_active(
                    #[trigger] store.mods@[j],
                    pre.mods@[j],
                    loaded_state(states@, pre.mods@[j].name@),
                ),
            forall|j: int| i <= j < store.mods@.len() ==> #[trigger] store.mods@[j] == pre.mods@[j],
        decreases store.mods@.len() - i,
    {
        let active = match states.get(store.mods[i].name.as_str()) {
            Some(b) => *b,
            None => false,
        };
        store.mods[i].active = active;
        i = i + 1;
    }
}

/// Loads a playlist: every mod takes its state from the playlist (mods it does not
/// mention become inactive), and the playlist becomes the selected one. Loading an
/// unknown playlist is refused and changes nothing.
pub fn load_playlist(store: &mut Store, name: &str) -> (r: Result<(), PlaylistError>)
    ensures
        old(store).playlists@.contains_key(name@) <==> r is Ok,
        r is Err ==> (r matches Err(PlaylistError::NotFound(n)) && n@ == name@) && *final(store)
            == *old(store),
        r is Ok ==> {
            let states = old(store).playlists@[name@]@;
            &&& final(store).mods@.len() == old(store).mods@.len()
            &&& forall|i: int|
                0 <= i < old(store).mods@.len() ==> same_mod_with_active(
                    #[trigger] final(store).mods@[i],
                    old(store).mods@[i],
                    loaded_state(states, old(store).mods@[i].name@),
                )
            &&& holds_text(final(store).selected_playlist, name@)
            &&& final(store).playlists == old(store).playlists
            &&& final(store).game_directory == old(store).game_directory
            &&& final(store).settings == old(store).settings
            &&& final(store).installed_files == old(store).installed_files
        },
{
    let states = match store.playlists.get(name) {
        Some(p) => p.duplicate(),
        None => {
            return Err(PlaylistError::NotFound(name.to_string()));
        },
    };
    apply_states(store, &states);
    store.selected_playlist = Some(name.to_string());
    Ok(())
}

/// Renames a playlist. Refused, changing nothing, when the new name is empty, when the
/// new name is already taken (checked in that order), or when there is no playlist
/// under the old name. The selection follows the renamed playlist.
pub fn rename_playlist(store: &mut Store, old_name: &str, new_name: &str) -> (r: Result<
    (),
    PlaylistError,
>)
    ensures
        r is Ok <==> (new_name@.len() > 0 && !old(store).playlists@.contains_key(new_name@)
            && old(store).playlists@.contains_key(old_name@)),
        new_name@.len() == 0 ==> r == Err::<(), PlaylistError>(PlaylistError::EmptyName),
        new_name@.len() > 0 && old(store).playlists@.contains_key(new_name@) ==> (r matches Err(
            PlaylistError::AlreadyExists(n),
        ) && n@ == new_name@),
        new_name@.len() > 0 && !old(store).playlists@.contains_key(new_name@)
            && !old(store).playlists@.contains_key(old_name@) ==> (r matches Err(
            PlaylistError::NotFound(n),
        ) && n@ == old_name@),
        r is Err ==> *final(store) == *old(store),
        r is Ok ==> {
            &&& final(store).playlists@ == old(store).playlists@.remove(old_name@).insert(
                new_name@,
                old(store).playlists@[old_name@],
            )
            &&& (holds_text(old(store).selected_playlist, old_name@) ==> holds_text(
                final(store).selected_playlist,
                new_name@,
            ))
            &&& (!holds_text(old(store).selected_playlist, old_name@)
                ==> final(store).selected_playlist == old(store).selected_playlist)
            &&& same_except_playlists(*final(store), *old(store))
        },
{
    if new_name.is_empty() {
        return Err(PlaylistError::EmptyName);
    }
    if store.playlists.contains_key(new_name) {
        return Err(PlaylistError::AlreadyExists(new_name.to_string()));
    }
    let states = match store.playlists.remove(old_name) {
        Some(s) => s,
        None => {
            return Err(PlaylistError::NotFound(old_name.to_string()));
        },
    };
    store.playlists.insert(new_name.to_string(), states);
    let selected_is_old = match &store.selected_playlist {
        Some(s) => crate::text::str_eq(s.as_str(), old_name),
        None => false,
    };
    if selected_is_old {
        store.selected_playlist = Some(new_name.to_string());
    }
    Ok(())
}

/// Deletes a playlist, clearing the selection when it pointed at it. Deleting an
/// unknown playlist is refused and changes nothing.
pub fn delete_playlist(store: &mut Store, name: &str) -> (r: Result<(), PlaylistError>)
    ensures
        old(store).playlists@.contains_key(name@) <==> r is Ok,
        r is Err ==> (r matches Err(PlaylistError::NotFound(n)) && n@ == name@) && *final(store)
            == *old(store),
        r is Ok ==> {
            &&& final(store).playlists@ == old(store).playlists@.remove(name@)
            &&& (holds_text(old(store).selected_playlist, name@)
                ==> final(store).selected_playlist is None)
            &&& (!holds_text(old(store).selected_playlist, name@)
                ==> final(store).selected_playlist == old(store).selected_playlist)
            &&& same_except_playlists(*final(store), *old(store))
        },
{
    match store.playlists.remove(name) {
        Some(_) => {},
        None => {
            return Err(PlaylistError::NotFound(name.to_string()));
        },
    }
    let selected_is_name = match &store.selected_playlist {
        Some(s) => crate::text::str_eq(s.as_str(), name),
        None => false,
    };
    if selected_is_name {
        store.selected_playlist = None;
    }
    Ok(())
}

/// Replaces the states of an existing playlist. Unlike `save_playlist`, this never
/// creates a playlist: an unknown name is refused and changes nothing.
pub fn overwrite_playlist(store: &mut Store, name: &str, states: StrMap<bool>) -> (r: Result<
    (),
    PlaylistError,
>)
    ensures
        old(store).playlists@.contains_key(name@) <==> r is Ok,
        r is Err ==> (r matches Err(PlaylistError::NotFound(n)) && n@ == name@) && *final(store)
            == *old(store),
        r is Ok ==> {
            &&& final(store).playlists@ == old(store).playlists@.insert(name@, states)
            &&& final(store).selected_playlist == old(store).selected_playlist
            &&& same_except_playlists(*final(store), *old(store))
        },
{
    if !store.playlists.contains_key(name) {
        return Err(PlaylistError::NotFound(name.to_string()));
    }
    store.playlists.insert(name.to_string(), states);
    Ok(())
}


/// The states of distinct-named mods record each mod's own flag.
proof fn lemma_states_of_distinct(mods: Seq<Mod>)
    requires
        forall|i: int, j: int|
            0 <= i < j < mods.len() ==> #[trigger] mods[i].name@ != #[trigger] mods[j].name@,
    ensures
        forall|i: int|
            0 <= i < mods.len() ==> #[trigger] states_of(mods).contains_key(mods[i].name@)
                && states_of(mods)[mods[i].name@] == mods[i].active,
    decreases mods.len(),
{
    if mods.len() > 0 {
        let rest = mods.drop_last();
        lemma_states_of_distinct(rest);
        assert forall|i: int| 0 <= i < mods.len() implies #[trigger] states_of(mods).contains_key(
            mods[i].name@,
        ) && states_of(mods)[mods[i].name@] == mods[i].active by {
            if i < mods.len() - 1 {
                assert(rest[i] == mods[i]);
                assert(states_of(rest).contains_key(rest[i].name@));
                assert(mods[i].name@ != mods[mods.len() - 1].name@);
            }
        }
    }
}

/// Saving the current states of the mods as a playlist and loading that playlist
/// later gives every mod back the active flag it had when saved, whatever happened to
/// the flags in between, provided no two mods share a name.
pub proof fn law_save_then_load_restores(saved: Seq<Mod>)
    requires
        forall|i: int, j: int|
            0 <= i < j < saved.len() ==> #[trigger] saved[i].name@ != #[trigger] saved[j].name@,
    ensures
        forall|i: int|
            0 <= i < saved.len() ==> loaded_state(states_of(saved), #[trigger] saved[i].name@)
                == saved[i].active,
{
    lemma_states_of_distinct(saved);
}

} // verus!
