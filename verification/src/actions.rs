//! What the front end's commands do to the store between reading it and writing it
//! back: toggling a mod, adding or replacing a mod, picking the mods to apply and
//! the playlist to share.
use vstd::prelude::*;

use crate::playlists::same_mod_with_active;
use crate::share::{ShareMod, SharePlaylist};
use crate::store::{Mod, Store};
use crate::text::str_eq;

verus! {

/// Everything in the store but the mod list is as before.
pub open spec fn same_except_mods(new: Store, old: Store) -> bool {
    &&& new.game_directory == old.game_directory
    &&& new.settings == old.settings
    &&& new.playlists == old.playlists
    &&& new.selected_playlist == old.selected_playlist
    &&& new.installed_files == old.installed_files
}

/// The active mods of `mods`, in their order.
pub open spec fn active_only(mods: Seq<Mod>) -> Seq<Mod>
    decreases mods.len(),
{
    if mods.len() == 0 {
        Seq::empty()
    } else {
        let rest = active_only(mods.drop_last());
        if mods.last().active {
            rest.push(mods.last())
        } else {
            rest
        }
    }
}

/// The mods an apply installs and a share string lists are exactly the active ones, in
/// list order: what keeping the mods whose active flag is set gives. Every one of them
/// is active, and every active mod is among them.
pub proof fn law_active_mods_are_the_active_ones(mods: Seq<Mod>)
    ensures
        active_only(mods) == mods.filter(|m: Mod| m.active),
        forall|i: int| 0 <= i < active_only(mods).len() ==> (#[trigger] active_only(mods)[i]).active,
        forall|i: int| 0 <= i < mods.len() && (#[trigger] mods[i]).active ==> active_only(
            mods,
        ).contains(mods[i]),
    decreases mods.len(),
{
    reveal(Seq::filter);
    if mods.len() > 0 {
        let d = mods.drop_last();
        law_active_mods_are_the_active_ones(d);
        let rest = active_only(d);
        let all = active_only(mods);
        assert forall|i: int| 0 <= i < all.len() implies (#[trigger] all[i]).active by {
            if i < rest.len() {
                assert(all[i] == rest[i]);
            }
        }
        assert forall|i: int| 0 <= i < mods.len() && (#[trigger] mods[i]).active implies all.contains(
            mods[i],
        ) by {
            if i < mods.len() - 1 {
                assert(d[i] == mods[i]);
                let j = choose|j: int| 0 <= j < rest.len() && rest[j] == d[i];
                assert(all[j] == rest[j]);
            } else {
                assert(all[all.len() - 1] == mods[i]);
            }
        }
    }
}

/// Whether some mod of `mods` is named `name`.
pub open spec fn has_mod_named(mods: Seq<Mod>, name: Seq<char>) -> bool {
    exists|j: int| 0 <= j < mods.len() && #[trigger] mods[j].name@ == name
}

/// `k` is the first position of `mods` whose mod is named `name`.
pub open spec fn first_named(mods: Seq<Mod>, name: Seq<char>, k: int) -> bool {
    &&& 0 <= k < mods.len()
    &&& mods[k].name@ == name
    &&& forall|j: int| 0 <= j < k ==> #[trigger] mods[j].name@ != name
}

/// Turns the mod at `index` on or off; an index past the end of the list changes
/// nothing.
pub fn set_mod_active(store: &mut Store, index: usize, active: bool)
    ensures
        final(store).mods@.len() == old(store).mods@.len(),
        index < old(store).mods@.len() ==> same_mod_with_active(
            final(store).mods@[index as int],
            old(store).mods@[index as int],
            active,
        ),
        forall|i: int|
            0 <= i < old(store).mods@.len() && i != index ==> #[trigger] final(store).mods@[i]
                == old(store).mods@[i],
        same_except_mods(*final(store), *old(store)),
{
    if index < store.mods.len() {
        store.mods[index].active = active;
    }
}

/// Adds a newly installed mod: it takes the place of the first mod of the same name,
/// or goes at the end of the list when there is none.
pub fn add_or_replace_mod(store: &mut Store, new_mod: Mod)
    ensures
        has_mod_named(old(store).mods@, new_mod.name@) ==> forall|k: int|
            first_named(old(store).mods@, new_mod.name@, k) ==> final(store).mods@ == old(
                store,
            ).mods@.update(k, new_mod),
        !has_mod_named(old(store).mods@, new_mod.name@) ==> final(store).mods@ == old(
            store,
        ).mods@.push(new_mod),
        same_except_mods(*final(store), *old(store)),
{
    let ghost pre = *store;
    let mut i: usize = 0;
    while i < store.mods.len()
        invariant
            *store == pre,
            pre == *old(store),
            i <= pre.mods@.len(),
            forall|j: int| 0 <= j < i ==> #[trigger] pre.mods@[j].name@ != new_mod.name@,
        decreases pre.mods@.len() - i,
    {
        if str_eq(store.mods[i].name.as_str(), new_mod.name.as_str()) {
            proof {
                assert(first_named(pre.mods@, new_mod.name@, i as int));
                assert forall|k: int| first_named(pre.mods@, new_mod.name@, k) implies k
                    == i by {
                    if k < i {
                        assert(pre.mods@[k].name@ != new_mod.name@);
                    }
                    if k > i {
                        assert(pre.mods@[i as int].name@ != new_mod.name@);
                    }
                }
            }
            store.mods.set(i, new_mod);
            return;
        }
        i = i + 1;
    }
    store.mods.push(new_mod);
}

fn copy_mod(m: &Mod) -> (c: Mod)
    ensures
        c == *m,
{
    Mod {
        name: m.name.clone(),
        path: m.path.clone(),
        author: m.author.clone(),
        version: m.version.clone(),
        active: m.active,
    }
}

/// The mods an apply installs: the active ones, in list order.
pub fn active_mods(store: &Store) -> (mods: Vec<Mod>)
    ensures
        mods@ == active_only(store.mods@),
{
    let mut out: Vec<Mod> = Vec::new();
    let mut i: usize = 0;
    while i < store.mods.len()
        invariant
            i <= store.mods@.len(),
            out@ == active_only(store.mods@.take(i as int)),
        decreases store.mods@.len() - i,
    {
        proof {
            assert(store.mods@.take(i + 1).drop_last() =~= store.mods@.take(i as int));
        }
        if store.mods[i].active {
            out.push(copy_mod(&store.mods[i]));
        }
        i = i + 1;
    }
    proof {
        assert(store.mods@.take(store.mods@.len() as int) =~= store.mods@);
    }
    out
}

/// The playlist a share string carries for the store: the name and version of each
/// active mod, in list order.
pub fn share_playlist_of(store: &Store) -> (p: SharePlaylist)
    ensures
        p.mods@.len() == active_only(store.mods@).len(),
        forall|i: int|
            0 <= i < p.mods@.len() ==> (#[trigger] p.mods@[i]).name == active_only(
                store.mods@,
            )[i].name && p.mods@[i].version == active_only(store.mods@)[i].version,
{
    let active = active_mods(store);
    let mut mods: Vec<ShareMod> = Vec::new();
    let mut i: usize = 0;
    while i < active.len()
        invariant
            i <= active@.len(),
            active@ == active_only(store.mods@),
            mods@.len() == i,
            forall|j: int|
                0 <= j < i ==> (#[trigger] mods@[j]).name == active@[j].name && mods@[j].version
                    == active@[j].version,
        decreases active@.len() - i,
    {
        mods.push(ShareMod { name: active[i].name.clone(), version: active[i].version.clone() });
        i = i + 1;
    }
    SharePlaylist { mods }
}

} // verus!
