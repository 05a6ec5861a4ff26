//! Manifest-based differential rom apply: planning.
//!
//! Instead of wiping the rom and restoring everything, the rom's current mod-owned files
//! (recorded in the manifest) are compared with the desired state derived from the
//! active mods, and only the files that differ are touched. Re-applying the same
//! playlist plans nothing; switching playlists moves only the differing files. The steps
//! of an apply, with the full-rebuild safety net, are decided in `crate::apply_step`;
//! carrying them out on disk is the caller's.
use vstd::prelude::*;

use crate::manifest::{manifest_map, FileIdentity, IdentityView, Manifest};
use crate::paths::{join_path, path_join};
use crate::strmap::StrMap;
use crate::text::{chars_of, find_chars, find_from, lemma_find_from, str_eq, string_from_chars};

verus! {

/// A mod-provided file in the desired state: where to copy it from, and its identity.
#[derive(Debug, Clone, PartialEq, Eq)]
pub struct ModFileSource {
    pub source_path: String,
    pub identity: FileIdentity,
}

/// The value of a `ModFileSource`.
pub struct SourceView {
    pub source_path: Seq<char>,
    pub identity: IdentityView,
}

impl View for ModFileSource {
    type V = SourceView;

    open spec fn view(&self) -> SourceView {
        SourceView { source_path: self.source_path@, identity: self.identity@ }
    }
}

/// The complete desired state of the rom: which relative paths must come from mods
/// (with their sources), and which relative paths exist in the vanilla backup. Paths in
/// neither must not exist in the rom.
#[derive(Debug, PartialEq, Eq)]
pub struct DesiredState {
    /// Relative path (`/`-separated, lowercase top-level folder) -> source.
    pub mod_files: StrMap<ModFileSource>,
    /// Every relative path present in the vanilla backup.
    pub vanilla_files: StrMap<()>,
}

/// The sources the desired state takes from mods, by path.
pub open spec fn desired_map(d: DesiredState) -> Map<Seq<char>, SourceView> {
    d.mod_files@.map_values(|s: ModFileSource| s@)
}

/// The paths of the vanilla backup.
pub open spec fn vanilla_set(d: DesiredState) -> Set<Seq<char>> {
    d.vanilla_files@.dom()
}

/// A single planned filesystem operation.
#[derive(Debug, Clone, PartialEq, Eq)]
pub enum Op {
    /// Copy a file from a mod's directory into the rom.
    CopyFromMod { rel_path: String, source_path: String, identity: FileIdentity },
    /// Copy a file back from the vanilla backup into the rom.
    RestoreVanilla { rel_path: String },
    /// Remove a mod-added file that has no vanilla counterpart.
    Delete { rel_path: String },
}

/// The value of an `Op`.
pub enum OpView {
    CopyFromMod { rel_path: Seq<char>, source: SourceView },
    RestoreVanilla { rel_path: Seq<char> },
    Delete { rel_path: Seq<char> },
}

impl View for Op {
    type V = OpView;

    open spec fn view(&self) -> OpView {
        match self {
            Op::CopyFromMod { rel_path, source_path, identity } => OpView::CopyFromMod {
                rel_path: rel_path@,
                source: SourceView { source_path: source_path@, identity: identity@ },
            },
            Op::RestoreVanilla { rel_path } => OpView::RestoreVanilla { rel_path: rel_path@ },
            Op::Delete { rel_path } => OpView::Delete { rel_path: rel_path@ },
        }
    }
}

/// The path an operation touches.
pub open spec fn op_path(op: OpView) -> Seq<char> {
    match op {
        OpView::CopyFromMod { rel_path, .. } => rel_path,
        OpView::RestoreVanilla { rel_path } => rel_path,
        OpView::Delete { rel_path } => rel_path,
    }
}

/// What to do with a path the rom currently has from a mod, installed with identity
/// `current`: nothing when the desired source is the same file, copy the desired
/// source when it differs, and otherwise restore the vanilla file or delete the path.
pub open spec fn op_for_current(
    rel: Seq<char>,
    current: IdentityView,
    desired: Map<Seq<char>, SourceView>,
    vanilla: Set<Seq<char>>,
) -> Option<OpView> {
    if desired.contains_key(rel) {
        if desired[rel].identity == current {
            None
        } else {
            Some(OpView::CopyFromMod { rel_path: rel, source: desired[rel] })
        }
    } else if vanilla.contains(rel) {
        Some(OpView::RestoreVanilla { rel_path: rel })
    } else {
        Some(OpView::Delete { rel_path: rel })
    }
}

/// What to do with a desired mod path: copy it when the rom does not have it from a mod
/// yet (paths it has are handled by `op_for_current`).
pub open spec fn op_for_desired(
    rel: Seq<char>,
    current: Map<Seq<char>, IdentityView>,
    desired: Map<Seq<char>, SourceView>,
) -> Option<OpView> {
    if current.contains_key(rel) {
        None
    } else {
        Some(OpView::CopyFromMod { rel_path: rel, source: desired[rel] })
    }
}

/// The operations for the current paths, in the given key order.
pub open spec fn ops_for_current(
    keys: Seq<Seq<char>>,
    current: Map<Seq<char>, IdentityView>,
    desired: Map<Seq<char>, SourceView>,
    vanilla: Set<Seq<char>>,
) -> Seq<OpView>
    decreases keys.len(),
{
    if keys.len() == 0 {
        Seq::empty()
    } else {
        let earlier = ops_for_current(keys.drop_last(), current, desired, vanilla);
        match op_for_current(keys.last(), current[keys.last()], desired, vanilla) {
            Some(op) => earlier.push(op),
            None => earlier,
        }
    }
}

/// The operations for the desired paths, in the given key order.
pub open spec fn ops_for_desired(
    keys: Seq<Seq<char>>,
    current: Map<Seq<char>, IdentityView>,
    desired: Map<Seq<char>, SourceView>,
) -> Seq<OpView>
    decreases keys.len(),
{
    if keys.len() == 0 {
        Seq::empty()
    } else {
        let earlier = ops_for_desired(keys.drop_last(), current, desired);
        match op_for_desired(keys.last(), current, desired) {
            Some(op) => earlier.push(op),
            None => earlier,
        }
    }
}

/// The plan from `current` to `desired`: first the current mod paths in key order,
/// then the new desired paths in key order.
pub open spec fn planned_ops(current: Manifest, desired: DesiredState) -> Seq<OpView> {
    ops_for_current(
        current.files.key_seq(),
        manifest_map(current),
        desired_map(desired),
        vanilla_set(desired),
    ) + ops_for_desired(desired.mod_files.key_seq(), manifest_map(current), desired_map(desired))
}

/// The views of a list of operations.
pub open spec fn ops_view(ops: Seq<Op>) -> Seq<OpView> {
    ops.map_values(|o: Op| o@)
}

/// A copy of a source.
fn duplicate_source(s: &ModFileSource) -> (c: ModFileSource)
    ensures
        c@ == s@,
{
    ModFileSource { source_path: s.source_path.clone(), identity: s.identity.duplicate() }
}

/// Compares the manifest (what the rom currently holds beyond vanilla) with the desired
/// state, producing the operation list: for each current mod path, a copy when its
/// desired source differs, a vanilla restore or a delete when no mod provides it any
/// more; then a copy for each desired path the rom does not have from a mod yet.
pub fn diff(current: &Manifest, desired: &DesiredState) -> (ops: Vec<Op>)
    ensures
        ops_view(ops@) == planned_ops(*current, *desired),
{
    let ghost cur_map = manifest_map(*current);
    let ghost des_map = desired_map(*desired);
    let ghost vanilla = vanilla_set(*desired);
    let ghost cur_keys = current.files.key_seq();
    let ghost des_keys = desired.mod_files.key_seq();
    let mut ops: Vec<Op> = Vec::new();
    let n = current.files.len();
    let mut i: usize = 0;
    while i < n
        invariant
            i <= n,
            n == cur_keys.len(),
            cur_keys == current.files.key_seq(),
            cur_map == manifest_map(*current),
            des_map == desired_map(*desired),
            vanilla == vanilla_set(*desired),
            ops_view(ops@) == ops_for_current(cur_keys.take(i as int), cur_map, des_map, vanilla),
        decreases n - i,
    {
        let (rel, cur_id) = current.files.get_index(i);
        proof {
            assert(cur_keys.take(i + 1).drop_last() =~= cur_keys.take(i as int));
            assert(cur_keys.take(i + 1).last() == rel@);
            assert(cur_map[rel@] == cur_id@);
        }
        let ghost before = ops@;
        match desired.mod_files.get(rel.as_str()) {
            Some(src) => {
                if !src.identity.same_as(cur_id) {
                    ops.push(
                        Op::CopyFromMod {
                            rel_path: rel.clone(),
                            source_path: src.source_path.clone(),
                            identity: src.identity.duplicate(),
                        },
                    );
                }
            },
            None => {
                if desired.vanilla_files.contains_key(rel.as_str()) {
                    ops.push(Op::RestoreVanilla { rel_path: rel.clone() });
                } else {
                    ops.push(Op::Delete { rel_path: rel.clone() });
                }
            },
        }
        proof {
            assert(ops_view(ops@) =~= ops_for_current(
                cur_keys.take(i + 1),
                cur_map,
                des_map,
                vanilla,
            )) by {
                if ops@.len() > before.len() {
                    assert(ops@.drop_last() =~= before);
                    assert(ops_view(ops@).drop_last() =~= ops_view(before));
                } else {
                    assert(ops@ =~= before);
                }
            }
        }
        i = i + 1;
    }
    proof {
        assert(cur_keys.take(n as int) =~= cur_keys);
    }
    let ghost first = ops@;
    let m = desired.mod_files.len();
    let mut j: usize = 0;
    while j < m
        invariant
            j <= m,
            m == des_keys.len(),
            des_keys == desired.mod_files.key_seq(),
            cur_map == manifest_map(*current),
            des_map == desired_map(*desired),
            ops_view(first) == ops_for_current(cur_keys, cur_map, des_map, vanilla),
            cur_keys == current.files.key_seq(),
            vanilla == vanilla_set(*desired),
            ops_view(ops@) == ops_view(first) + ops_for_desired(
                des_keys.take(j as int),
                cur_map,
                des_map,
            ),
        decreases m - j,
    {
        let (rel, src) = desired.mod_files.get_index(j);
        proof {
            assert(des_keys.take(j + 1).drop_last() =~= des_keys.take(j as int));
            assert(des_keys.take(j + 1).last() == rel@);
            assert(des_map[rel@] == src@);
        }
        let ghost before = ops@;
        if !current.files.contains_key(rel.as_str()) {
            ops.push(
                Op::CopyFromMod {
                    rel_path: rel.clone(),
                    source_path: src.source_path.clone(),
                    identity: src.identity.duplicate(),
                },
            );
        }
        proof {
            if ops@.len() > before.len() {
                assert(ops@ =~= before.push(ops@.last()));
                assert(ops_view(ops@) =~= ops_view(before).push(ops@.last()@));
                assert(ops@.last()@ == OpView::CopyFromMod { rel_path: rel@, source: des_map[rel@] });
                assert(ops_view(ops@) =~= ops_view(first) + ops_for_desired(
                    des_keys.take(j + 1),
                    cur_map,
                    des_map,
                ));
            } else {
                assert(ops@ =~= before);
                assert(ops_view(ops@) =~= ops_view(first) + ops_for_desired(
                    des_keys.take(j + 1),
                    cur_map,
                    des_map,
                ));
            }
        }
        j = j + 1;
    }
    proof {
        assert(des_keys.take(m as int) =~= des_keys);
    }
    ops
}

/// The identities the desired state installs, by path.
pub open spec fn desired_identities(d: DesiredState) -> Map<Seq<char>, IdentityView> {
    desired_map(d).map_values(|s: SourceView| s.identity)
}

/// The manifest the rom will have once `desired` is fully applied: each desired mod
/// path with the identity of its source.
pub fn manifest_from_desired(desired: &DesiredState) -> (m: Manifest)
    ensures
        manifest_map(m) == desired_identities(*desired),
{
    let mut files: StrMap<FileIdentity> = StrMap::new();
    let n = desired.mod_files.len();
    let ghost keys = desired.mod_files.key_seq();
    let ghost target = desired_identities(*desired);
    let mut i: usize = 0;
    while i < n
        invariant
            i <= n,
            n == keys.len(),
            keys == desired.mod_files.key_seq(),
            target == desired_identities(*desired),
            forall|k: Seq<char>|
                #[trigger] files@.contains_key(k) <==> (exists|j: int| 0 <= j < i && keys[j] == k),
            forall|k: Seq<char>| #[trigger] files@.contains_key(k) ==> files@[k]@ == target[k],
        decreases n - i,
    {
        let (rel, src) = desired.mod_files.get_index(i);
        files.insert(rel.clone(), src.identity.duplicate());
        proof {
            assert forall|k: Seq<char>| #[trigger] files@.contains_key(k) <==> (exists|j: int|
                0 <= j < i + 1 && keys[j] == k) by {
                if k == rel@ {
                    assert(keys[i as int] == k);
                }
            }
        }
        i = i + 1;
    }
    let m = Manifest { files };
    proof {
        use_type_invariant(&desired.mod_files);
        desired.mod_files.lemma_layout();
        assert forall|k: Seq<char>| manifest_map(m).contains_key(k) <==> target.contains_key(k) by {
            if target.contains_key(k) {
                let j = choose|j: int| 0 <= j < keys.len() && keys[j] == k;
                assert(m.files@.contains_key(k));
            }
        }
        assert(manifest_map(m) =~= target);
    }
    m
}


/// What the rom holds at a path.
pub enum RomFile {
    /// The file a mod provided, with its identity.
    FromMod(IdentityView),
    /// The vanilla file.
    Vanilla,
    /// Nothing.
    Absent,
}

/// What the rom holds at `p` when the manifest records `mods` over the vanilla files:
/// the mod file where recorded, else the vanilla file where there is one, else nothing.
pub open spec fn rom_file(mods: Map<Seq<char>, IdentityView>, vanilla: Set<Seq<char>>, p: Seq<char>) -> RomFile {
    if mods.contains_key(p) {
        RomFile::FromMod(mods[p])
    } else if vanilla.contains(p) {
        RomFile::Vanilla
    } else {
        RomFile::Absent
    }
}

/// What the rom holds at `p` after `op`, when it held `before`.
pub open spec fn apply_op_at(op: OpView, p: Seq<char>, before: RomFile) -> RomFile {
    if op_path(op) != p {
        before
    } else {
        match op {
            OpView::CopyFromMod { source, .. } => RomFile::FromMod(source.identity),
            OpView::RestoreVanilla { .. } => RomFile::Vanilla,
            OpView::Delete { .. } => RomFile::Absent,
        }
    }
}

/// What the rom holds at `p` after the operations, in order, when it held `before`.
pub open spec fn replay(ops: Seq<OpView>, p: Seq<char>, before: RomFile) -> RomFile
    decreases ops.len(),
{
    if ops.len() == 0 {
        before
    } else {
        apply_op_at(ops.last(), p, replay(ops.drop_last(), p, before))
    }
}

/// How many of the operations touch `p`.
pub open spec fn touch_count(ops: Seq<OpView>, p: Seq<char>) -> nat
    decreases ops.len(),
{
    if ops.len() == 0 {
        0
    } else {
        touch_count(ops.drop_last(), p) + if op_path(ops.last()) == p {
            1nat
        } else {
            0nat
        }
    }
}

proof fn lemma_replay_concat(a: Seq<OpView>, b: Seq<OpView>, p: Seq<char>, x: RomFile)
    ensures
        replay(a + b, p, x) == replay(b, p, replay(a, p, x)),
        touch_count(a + b, p) == touch_count(a, p) + touch_count(b, p),
    decreases b.len(),
{
    if b.len() == 0 {
        assert(a + b =~= a);
    } else {
        lemma_replay_concat(a, b.drop_last(), p, x);
        assert((a + b).drop_last() =~= a + b.drop_last());
        assert((a + b).last() == b.last());
    }
}

proof fn lemma_current_ops_at(
    keys: Seq<Seq<char>>,
    current: Map<Seq<char>, IdentityView>,
    desired: Map<Seq<char>, SourceView>,
    vanilla: Set<Seq<char>>,
    p: Seq<char>,
    x: RomFile,
)
    requires
        keys.no_duplicates(),
    ensures
        replay(ops_for_current(keys, current, desired, vanilla), p, x) == (if keys.contains(p) {
            match op_for_current(p, current[p], desired, vanilla) {
                Some(op) => apply_op_at(op, p, x),
                None => x,
            }
        } else {
            x
        }),
        touch_count(ops_for_current(keys, current, desired, vanilla), p) == (if keys.contains(p)
            && op_for_current(p, current[p], desired, vanilla) is Some {
            1nat
        } else {
            0nat
        }),
    decreases keys.len(),
{
    if keys.len() > 0 {
        let rest = keys.drop_last();
        let last = keys.last();
        assert(rest.no_duplicates());
        lemma_current_ops_at(rest, current, desired, vanilla, p, x);
        let e = ops_for_current(rest, current, desired, vanilla);
        match op_for_current(last, current[last], desired, vanilla) {
            Some(op) => {
                assert(op_path(op) == last);
                assert(e.push(op).drop_last() =~= e);
                assert(e.push(op).last() == op);
            },
            None => {},
        }
        if keys.last() == p {
            assert(!rest.contains(p)) by {
                if rest.contains(p) {
                    let j = choose|j: int| 0 <= j < rest.len() && rest[j] == p;
                    assert(keys[j] == keys[keys.len() - 1]);
                }
            }
        } else {
            assert(keys.contains(p) <==> rest.contains(p)) by {
                if keys.contains(p) {
                    let j = choose|j: int| 0 <= j < keys.len() && keys[j] == p;
                    assert(rest[j] == p);
                }
                if rest.contains(p) {
                    let j = choose|j: int| 0 <= j < rest.len() && rest[j] == p;
                    assert(keys[j] == p);
                }
            }
        }
        assert(keys.last() == p ==> keys.contains(p)) by {
            if keys.last() == p {
                assert(keys[keys.len() - 1] == p);
            }
        }
    }
}

proof fn lemma_desired_ops_at(
    keys: Seq<Seq<char>>,
    current: Map<Seq<char>, IdentityView>,
    desired: Map<Seq<char>, SourceView>,
    p: Seq<char>,
    x: RomFile,
)
    requires
        keys.no_duplicates(),
    ensures
        replay(ops_for_desired(keys, current, desired), p, x) == (if keys.contains(p) {
            match op_for_desired(p, current, desired) {
                Some(op) => apply_op_at(op, p, x),
                None => x,
            }
        } else {
            x
        }),
        touch_count(ops_for_desired(keys, current, desired), p) == (if keys.contains(p)
            && op_for_desired(p, current, desired) is Some {
            1nat
        } else {
            0nat
        }),
    decreases keys.len(),
{
    if keys.len() > 0 {
        let rest = keys.drop_last();
        let last = keys.last();
        assert(rest.no_duplicates());
        lemma_desired_ops_at(rest, current, desired, p, x);
        let e = ops_for_desired(rest, current, desired);
        match op_for_desired(last, current, desired) {
            Some(op) => {
                assert(op_path(op) == last);
                assert(e.push(op).drop_last() =~= e);
                assert(e.push(op).last() == op);
            },
            None => {},
        }
        if keys.last() == p {
            assert(!rest.contains(p)) by {
                if rest.contains(p) {
                    let j = choose|j: int| 0 <= j < rest.len() && rest[j] == p;
                    assert(keys[j] == keys[keys.len() - 1]);
                }
            }
            assert(keys[keys.len() - 1] == p);
        } else {
            assert(keys.contains(p) <==> rest.contains(p)) by {
                if keys.contains(p) {
                    let j = choose|j: int| 0 <= j < keys.len() && keys[j] == p;
                    assert(rest[j] == p);
                }
                if rest.contains(p) {
                    let j = choose|j: int| 0 <= j < rest.len() && rest[j] == p;
                    assert(keys[j] == p);
                }
            }
        }
    }
}

/// The keys of a map, as the map holds them: no key twice, and exactly its domain.
proof fn lemma_keys_cover<V>(m: StrMap<V>)
    requires
        m.wf(),
    ensures
        m.key_seq().no_duplicates(),
        forall|k: Seq<char>| m.key_seq().contains(k) <==> #[trigger] m@.contains_key(k),
{
    m.lemma_layout();
    let ks = m.key_seq();
    assert forall|i: int, j: int| 0 <= i < ks.len() && 0 <= j < ks.len() && i != j implies ks[i]
        != ks[j] by {
        if i < j {
            assert(crate::text::char_seq_lt(ks[i], ks[j]));
        } else {
            assert(crate::text::char_seq_lt(ks[j], ks[i]));
        }
        crate::text::lemma_lt_irreflexive(ks[i]);
    }
    assert forall|k: Seq<char>| ks.contains(k) <==> #[trigger] m@.contains_key(k) by {
        if ks.contains(k) {
            let i = choose|i: int| 0 <= i < ks.len() && ks[i] == k;
        }
        if m@.contains_key(k) {
            let i = choose|i: int| 0 <= i < ks.len() && ks[i] == k;
            assert(ks.contains(k));
        }
    }
}

/// Carrying out the plan from `current` to `desired` leaves, at every path, exactly
/// what the desired state calls for: the desired mod file where a mod provides one,
/// else the vanilla file where there is one, else nothing. And the plan touches a path
/// once if the rom must change there, and never otherwise.
pub proof fn law_plan_reaches_desired_minimally(current: Manifest, desired: DesiredState, p: Seq<char>)
    requires
        current.files.wf(),
        desired.mod_files.wf(),
    ensures
        replay(
            planned_ops(current, desired),
            p,
            rom_file(manifest_map(current), vanilla_set(desired), p),
        ) == rom_file(desired_identities(desired), vanilla_set(desired), p),
        touch_count(planned_ops(current, desired), p) == (if rom_file(
            manifest_map(current),
            vanilla_set(desired),
            p,
        ) == rom_file(desired_identities(desired), vanilla_set(desired), p) {
            0nat
        } else {
            1nat
        }),
{
    let cur = manifest_map(current);
    let des = desired_map(desired);
    let van = vanilla_set(desired);
    let before = rom_file(cur, van, p);
    lemma_keys_cover(current.files);
    lemma_keys_cover(desired.mod_files);
    let a = ops_for_current(current.files.key_seq(), cur, des, van);
    let b = ops_for_desired(desired.mod_files.key_seq(), cur, des);
    lemma_replay_concat(a, b, p, before);
    lemma_current_ops_at(current.files.key_seq(), cur, des, van, p, before);
    let mid = replay(a, p, before);
    lemma_desired_ops_at(desired.mod_files.key_seq(), cur, des, p, mid);
    assert(current.files.key_seq().contains(p) <==> cur.contains_key(p));
    assert(desired.mod_files.key_seq().contains(p) <==> des.contains_key(p));
}

/// Whether `op`, if it is a copy, installs exactly the desired source of its path.
pub open spec fn copies_desired_source(op: OpView, desired: Map<Seq<char>, SourceView>) -> bool {
    op matches OpView::CopyFromMod { rel_path, source } ==> desired.contains_key(rel_path)
        && source == desired[rel_path]
}

proof fn lemma_current_copies(
    keys: Seq<Seq<char>>,
    current: Map<Seq<char>, IdentityView>,
    desired: Map<Seq<char>, SourceView>,
    vanilla: Set<Seq<char>>,
)
    ensures
        forall|i: int|
            0 <= i < ops_for_current(keys, current, desired, vanilla).len() ==> copies_desired_source(
                #[trigger] ops_for_current(keys, current, desired, vanilla)[i],
                desired,
            ),
    decreases keys.len(),
{
    if keys.len() > 0 {
        let d = keys.drop_last();
        lemma_current_copies(d, current, desired, vanilla);
        let earlier = ops_for_current(d, current, desired, vanilla);
        let all = ops_for_current(keys, current, desired, vanilla);
        assert forall|i: int| 0 <= i < all.len() implies copies_desired_source(
            #[trigger] all[i],
            desired,
        ) by {
            if i < earlier.len() {
                assert(all[i] == earlier[i]);
            }
        }
    }
}

proof fn lemma_desired_copies(
    keys: Seq<Seq<char>>,
    current: Map<Seq<char>, IdentityView>,
    desired: Map<Seq<char>, SourceView>,
)
    requires
        forall|i: int| 0 <= i < keys.len() ==> desired.contains_key(#[trigger] keys[i]),
    ensures
        forall|i: int|
            0 <= i < ops_for_desired(keys, current, desired).len() ==> copies_desired_source(
                #[trigger] ops_for_desired(keys, current, desired)[i],
                desired,
            ),
    decreases keys.len(),
{
    if keys.len() > 0 {
        let d = keys.drop_last();
        assert forall|i: int| 0 <= i < d.len() implies desired.contains_key(#[trigger] d[i]) by {
            assert(d[i] == keys[i]);
        }
        lemma_desired_copies(d, current, desired);
        assert(desired.contains_key(keys[keys.len() - 1]));
        let earlier = ops_for_desired(d, current, desired);
        let all = ops_for_desired(keys, current, desired);
        assert forall|i: int| 0 <= i < all.len() implies copies_desired_source(
            #[trigger] all[i],
            desired,
        ) by {
            if i < earlier.len() {
                assert(all[i] == earlier[i]);
            }
        }
    }
}

/// Every copy the plan makes installs exactly the desired source of its path: the mod
/// file the desired state names for it, with its source path and identity. This holds
/// both for paths the rom has from a mod whose file changed and for new paths.
pub proof fn law_plan_copies_desired_sources(current: Manifest, desired: DesiredState)
    requires
        desired.mod_files.wf(),
    ensures
        forall|i: int|
            0 <= i < planned_ops(current, desired).len() ==> copies_desired_source(
                #[trigger] planned_ops(current, desired)[i],
                desired_map(desired),
            ),
{
    let cur = manifest_map(current);
    let des = desired_map(desired);
    let van = vanilla_set(desired);
    let dk = desired.mod_files.key_seq();
    lemma_keys_cover(desired.mod_files);
    assert forall|i: int| 0 <= i < dk.len() implies des.contains_key(#[trigger] dk[i]) by {
        assert(dk.contains(dk[i]));
    }
    let a = ops_for_current(current.files.key_seq(), cur, des, van);
    let b = ops_for_desired(dk, cur, des);
    lemma_current_copies(current.files.key_seq(), cur, des, van);
    lemma_desired_copies(dk, cur, des);
    assert forall|i: int| 0 <= i < (a + b).len() implies copies_desired_source(
        #[trigger] (a + b)[i],
        des,
    ) by {
        if i < a.len() {
            assert((a + b)[i] == a[i]);
        } else {
            assert((a + b)[i] == b[i - a.len()]);
        }
    }
}

/// Applying again what was last applied plans nothing: when the manifest records
/// exactly the identities the desired state installs, there is no operation.
pub proof fn law_reapply_plans_nothing(current: Manifest, desired: DesiredState)
    requires
        current.files.wf(),
        desired.mod_files.wf(),
        manifest_map(current) == desired_identities(desired),
    ensures
        planned_ops(current, desired).len() == 0,
{
    let cur = manifest_map(current);
    let des = desired_map(desired);
    let van = vanilla_set(desired);
    lemma_keys_cover(current.files);
    lemma_keys_cover(desired.mod_files);
    let ck = current.files.key_seq();
    let dk = desired.mod_files.key_seq();
    assert forall|i: int| 0 <= i < ck.len() implies #[trigger] des.contains_key(ck[i])
        && des[ck[i]].identity == cur[ck[i]] by {
        let k = ck[i];
        assert(ck.contains(k));
        assert(current.files@.contains_key(k));
        assert(cur.contains_key(k));
        assert(desired_identities(desired).contains_key(k));
        assert(desired_map(desired).contains_key(k));
        assert(desired_identities(desired)[k] == desired_map(desired)[k].identity);
    }
    assert forall|i: int| 0 <= i < dk.len() implies #[trigger] cur.contains_key(dk[i]) by {
        assert(dk.contains(dk[i]));
    }
    lemma_current_ops_none(ck, cur, des, van);
    lemma_desired_ops_none(dk, cur, des);
}

/// What a manifest records at `p`, if anything.
pub open spec fn recorded_at(m: Map<Seq<char>, IdentityView>, p: Seq<char>) -> Option<IdentityView> {
    if m.contains_key(p) {
        Some(m[p])
    } else {
        None
    }
}

/// The manifest after recording an operation: a copy records the identity it installs,
/// a restore or a delete leaves no mod file at its path.
pub open spec fn record_op(m: Map<Seq<char>, IdentityView>, op: OpView) -> Map<
    Seq<char>,
    IdentityView,
> {
    match op {
        OpView::CopyFromMod { rel_path, source } => m.insert(rel_path, source.identity),
        OpView::RestoreVanilla { rel_path } => m.remove(rel_path),
        OpView::Delete { rel_path } => m.remove(rel_path),
    }
}

/// The manifest after recording the operations in order.
pub open spec fn record_ops(m: Map<Seq<char>, IdentityView>, ops: Seq<OpView>) -> Map<
    Seq<char>,
    IdentityView,
>
    decreases ops.len(),
{
    if ops.len() == 0 {
        m
    } else {
        record_op(record_ops(m, ops.drop_last()), ops.last())
    }
}

/// The mod file a rom file is, if it is one.
spec fn record_of(f: RomFile) -> Option<IdentityView> {
    match f {
        RomFile::FromMod(id) => Some(id),
        _ => None,
    }
}

/// What is recorded at `p` after `op`, when `before` was.
spec fn record_op_at(op: OpView, p: Seq<char>, before: Option<IdentityView>) -> Option<IdentityView> {
    if op_path(op) != p {
        before
    } else {
        match op {
            OpView::CopyFromMod { source, .. } => Some(source.identity),
            _ => None,
        }
    }
}

/// What is recorded at `p` after the operations in order, when `before` was.
spec fn record_replay(ops: Seq<OpView>, p: Seq<char>, before: Option<IdentityView>) -> Option<
    IdentityView,
>
    decreases ops.len(),
{
    if ops.len() == 0 {
        before
    } else {
        record_op_at(ops.last(), p, record_replay(ops.drop_last(), p, before))
    }
}

proof fn lemma_record_matches_replay(ops: Seq<OpView>, p: Seq<char>, x: RomFile)
    ensures
        record_of(replay(ops, p, x)) == record_replay(ops, p, record_of(x)),
    decreases ops.len(),
{
    if ops.len() > 0 {
        lemma_record_matches_replay(ops.drop_last(), p, x);
    }
}

proof fn lemma_record_ops_at(m: Map<Seq<char>, IdentityView>, ops: Seq<OpView>, p: Seq<char>)
    ensures
        recorded_at(record_ops(m, ops), p) == record_replay(ops, p, recorded_at(m, p)),
    decreases ops.len(),
{
    if ops.len() > 0 {
        lemma_record_ops_at(m, ops.drop_last(), p);
    }
}

/// Recording the planned operations on the current manifest, in any order, gives the
/// manifest of the desired state: the one `manifest_from_desired` builds.
pub proof fn law_plan_records_desired_manifest(
    current: Manifest,
    desired: DesiredState,
    order: Seq<OpView>,
)
    requires
        current.files.wf(),
        desired.mod_files.wf(),
        order.to_multiset() == planned_ops(current, desired).to_multiset(),
    ensures
        record_ops(manifest_map(current), order) == desired_identities(desired),
{
    let cur = manifest_map(current);
    let des = desired_identities(desired);
    let van = vanilla_set(desired);
    let after = record_ops(cur, order);
    assert forall|p: Seq<char>| recorded_at(after, p) == recorded_at(des, p) by {
        law_plan_order_free(current, desired, p, order);
        lemma_record_matches_replay(order, p, rom_file(cur, van, p));
        lemma_record_ops_at(cur, order, p);
    }
    assert(after =~= des) by {
        assert forall|p: Seq<char>| after.contains_key(p) <==> des.contains_key(p) by {
            assert(recorded_at(after, p) == recorded_at(des, p));
        }
        assert forall|p: Seq<char>| after.contains_key(p) implies after[p] == des[p] by {
            assert(recorded_at(after, p) == recorded_at(des, p));
        }
    }
}

/// No operation touches `p` exactly when none is counted at `p`.
proof fn lemma_untouched(s: Seq<OpView>, p: Seq<char>)
    ensures
        touch_count(s, p) == 0 <==> forall|i: int| 0 <= i < s.len() ==> op_path(#[trigger] s[i]) != p,
    decreases s.len(),
{
    if s.len() > 0 {
        lemma_untouched(s.drop_last(), p);
        if touch_count(s, p) == 0 {
            assert forall|i: int| 0 <= i < s.len() implies op_path(#[trigger] s[i]) != p by {
                if i < s.len() - 1 {
                    assert(s.drop_last()[i] == s[i]);
                }
            }
        }
        if forall|i: int| 0 <= i < s.len() ==> op_path(#[trigger] s[i]) != p {
            assert forall|i: int| 0 <= i < s.drop_last().len() implies op_path(
                #[trigger] s.drop_last()[i],
            ) != p by {
                assert(s.drop_last()[i] == s[i]);
            }
            assert(op_path(s[s.len() - 1]) != p);
        }
    }
}

/// Two operations at different places that touch `p` count twice.
proof fn lemma_touched_twice(s: Seq<OpView>, p: Seq<char>, i: int, j: int)
    requires
        0 <= i < j < s.len(),
        op_path(s[i]) == p,
        op_path(s[j]) == p,
    ensures
        touch_count(s, p) >= 2,
    decreases s.len(),
{
    let d = s.drop_last();
    if j < s.len() - 1 {
        assert(d[i] == s[i] && d[j] == s[j]);
        lemma_touched_twice(d, p, i, j);
    } else {
        assert(d[i] == s[i]);
        lemma_untouched(d, p);
    }
}

/// When every operation touching `p` is `e`, which touches `p`, they are counted by the
/// number of times `e` occurs.
proof fn lemma_touch_count_occurrences(s: Seq<OpView>, p: Seq<char>, e: OpView)
    requires
        op_path(e) == p,
        forall|i: int| 0 <= i < s.len() && op_path(#[trigger] s[i]) == p ==> s[i] == e,
    ensures
        touch_count(s, p) == s.to_multiset().count(e),
    decreases s.len(),
{
    broadcast use vstd::seq_lib::group_to_multiset_ensures;

    if s.len() == 0 {
        assert(s.to_multiset() =~= vstd::multiset::Multiset::empty());
    } else {
        let d = s.drop_last();
        assert forall|i: int| 0 <= i < d.len() && op_path(#[trigger] d[i]) == p implies d[i]
            == e by {
            assert(d[i] == s[i]);
        }
        lemma_touch_count_occurrences(d, p, e);
        assert(s =~= d.push(s.last()));
        assert(s.to_multiset() =~= d.to_multiset().insert(s.last()));
    }
}

/// When every operation touching `p` is `e`, replaying them leaves at `p` what `e`
/// leaves there, or what was there when none touches it.
proof fn lemma_replay_same_op(s: Seq<OpView>, p: Seq<char>, e: OpView, x: RomFile)
    requires
        forall|i: int| 0 <= i < s.len() && op_path(#[trigger] s[i]) == p ==> s[i] == e,
    ensures
        replay(s, p, x) == (if touch_count(s, p) == 0 {
            x
        } else {
            apply_op_at(e, p, x)
        }),
    decreases s.len(),
{
    if s.len() > 0 {
        let d = s.drop_last();
        assert forall|i: int| 0 <= i < d.len() && op_path(#[trigger] d[i]) == p implies d[i]
            == e by {
            assert(d[i] == s[i]);
        }
        lemma_replay_same_op(d, p, e, x);
    }
}

/// The plan can be carried out in any order: every ordering of the planned operations
/// leaves, at every path, exactly what the desired state calls for.
pub proof fn law_plan_order_free(current: Manifest, desired: DesiredState, p: Seq<char>, order: Seq<OpView>)
    requires
        current.files.wf(),
        desired.mod_files.wf(),
        order.to_multiset() == planned_ops(current, desired).to_multiset(),
    ensures
        replay(order, p, rom_file(manifest_map(current), vanilla_set(desired), p)) == rom_file(
            desired_identities(desired),
            vanilla_set(desired),
            p,
        ),
{
    broadcast use vstd::seq_lib::group_to_multiset_ensures;

    let ops = planned_ops(current, desired);
    let x = rom_file(manifest_map(current), vanilla_set(desired), p);
    law_plan_reaches_desired_minimally(current, desired, p);
    assert forall|j: int| 0 <= j < order.len() implies #[trigger] ops.contains(order[j]) by {
        assert(order.contains(order[j]));
        assert(order.to_multiset().count(order[j]) > 0);
    }
    lemma_untouched(ops, p);
    lemma_untouched(order, p);
    if touch_count(ops, p) == 0 {
        assert forall|j: int| 0 <= j < order.len() implies op_path(#[trigger] order[j]) != p by {
            assert(ops.contains(order[j]));
        }
        let e = order.first();
        lemma_replay_same_op(order, p, e, x);
        lemma_replay_same_op(ops, p, e, x);
    } else {
        let i = choose|i: int| 0 <= i < ops.len() && op_path(#[trigger] ops[i]) == p;
        let e = ops[i];
        assert forall|k: int| 0 <= k < ops.len() && op_path(#[trigger] ops[k]) == p implies ops[k]
            == e by {
            if k < i {
                lemma_touched_twice(ops, p, k, i);
            } else if k > i {
                lemma_touched_twice(ops, p, i, k);
            }
        }
        assert forall|j: int| 0 <= j < order.len() && op_path(#[trigger] order[j]) == p implies order[j]
            == e by {
            assert(ops.contains(order[j]));
            let k = choose|k: int| 0 <= k < ops.len() && ops[k] == order[j];
            assert(op_path(ops[k]) == p);
        }
        lemma_touch_count_occurrences(ops, p, e);
        lemma_touch_count_occurrences(order, p, e);
        lemma_replay_same_op(order, p, e, x);
        lemma_replay_same_op(ops, p, e, x);
    }
}

proof fn lemma_current_ops_none(
    keys: Seq<Seq<char>>,
    current: Map<Seq<char>, IdentityView>,
    desired: Map<Seq<char>, SourceView>,
    vanilla: Set<Seq<char>>,
)
    requires
        forall|i: int| 0 <= i < keys.len() ==> #[trigger] desired.contains_key(keys[i])
            && desired[keys[i]].identity == current[keys[i]],
    ensures
        ops_for_current(keys, current, desired, vanilla).len() == 0,
    decreases keys.len(),
{
    if keys.len() > 0 {
        lemma_current_ops_none(keys.drop_last(), current, desired, vanilla);
        assert(desired.contains_key(keys[keys.len() - 1]));
    }
}

proof fn lemma_desired_ops_none(
    keys: Seq<Seq<char>>,
    current: Map<Seq<char>, IdentityView>,
    desired: Map<Seq<char>, SourceView>,
)
    requires
        forall|i: int| 0 <= i < keys.len() ==> #[trigger] current.contains_key(keys[i]),
    ensures
        ops_for_desired(keys, current, desired).len() == 0,
    decreases keys.len(),
{
    if keys.len() > 0 {
        lemma_desired_ops_none(keys.drop_last(), current, desired);
        assert(current.contains_key(keys[keys.len() - 1]));
    }
}


/// The mod subfolders whose files are copied into the rom, as named in mod packages;
/// in the rom they live under the lowercase name.
pub const MOD_FOLDERS: [&'static str; 5] = ["Meshes", "Definitions", "Audio", "Graphics", "Data"];

/// Counters describing what an apply did.
#[derive(Debug, Clone, PartialEq, Eq)]
pub struct ApplyStats {
    pub copied: usize,
    pub restored: usize,
    pub removed: usize,
    pub unchanged: usize,
    /// True when the safety-net full rebuild ran instead of a differential apply.
    pub full_rebuild: bool,
}

impl Default for ApplyStats {
    fn default() -> (s: Self)
        ensures
            s.copied == 0 && s.restored == 0 && s.removed == 0 && s.unchanged == 0
                && !s.full_rebuild,
    {
        ApplyStats { copied: 0, restored: 0, removed: 0, unchanged: 0, full_rebuild: false }
    }
}

/// How many operations copy from a mod.
pub open spec fn copy_count(ops: Seq<OpView>) -> nat
    decreases ops.len(),
{
    if ops.len() == 0 {
        0
    } else {
        copy_count(ops.drop_last()) + if ops.last() is CopyFromMod {
            1nat
        } else {
            0nat
        }
    }
}

/// How many operations restore a vanilla file.
pub open spec fn restore_count(ops: Seq<OpView>) -> nat
    decreases ops.len(),
{
    if ops.len() == 0 {
        0
    } else {
        restore_count(ops.drop_last()) + if ops.last() is RestoreVanilla {
            1nat
        } else {
            0nat
        }
    }
}

/// How many operations delete a file.
pub open spec fn delete_count(ops: Seq<OpView>) -> nat
    decreases ops.len(),
{
    if ops.len() == 0 {
        0
    } else {
        delete_count(ops.drop_last()) + if ops.last() is Delete {
            1nat
        } else {
            0nat
        }
    }
}

/// Every operation is a copy, a restore or a delete.
proof fn lemma_counts_add_up(ops: Seq<OpView>)
    ensures
        copy_count(ops) + restore_count(ops) + delete_count(ops) == ops.len(),
    decreases ops.len(),
{
    if ops.len() > 0 {
        lemma_counts_add_up(ops.drop_last());
    }
}

/// The number of paths the rom should hold: those of the vanilla backup and those
/// provided by mods, each once.
pub open spec fn desired_path_count(d: DesiredState) -> nat {
    vanilla_set(d).union(desired_map(d).dom()).len()
}

/// Counts an applied operation list: copies, restores and removals, and as unchanged
/// every path the rom should hold that was neither copied nor restored (zero when
/// more were touched than that). `full_rebuild` is left false.
pub fn stats_from_ops(ops: &Vec<Op>, desired: &DesiredState) -> (stats: ApplyStats)
    requires
        desired_path_count(*desired) <= usize::MAX,
    ensures
        stats.copied == copy_count(ops_view(ops@)),
        stats.restored == restore_count(ops_view(ops@)),
        stats.removed == delete_count(ops_view(ops@)),
        stats.copied + stats.restored + stats.removed == ops@.len(),
        stats.unchanged == (if desired_path_count(*desired) >= stats.copied + stats.restored {
            desired_path_count(*desired) - (stats.copied + stats.restored)
        } else {
            0
        }),
        !stats.full_rebuild,
{
    let mut copied: usize = 0;
    let mut restored: usize = 0;
    let mut removed: usize = 0;
    let mut i: usize = 0;
    while i < ops.len()
        invariant
            i <= ops@.len(),
            copied == copy_count(ops_view(ops@.take(i as int))),
            restored == restore_count(ops_view(ops@.take(i as int))),
            removed == delete_count(ops_view(ops@.take(i as int))),
            copied + restored + removed == i,
        decreases ops@.len() - i,
    {
        proof {
            assert(ops_view(ops@.take(i + 1)).drop_last() =~= ops_view(ops@.take(i as int)));
            assert(ops_view(ops@.take(i + 1)).last() == ops@[i as int]@);
            lemma_counts_add_up(ops_view(ops@.take(i as int)));
        }
        match &ops[i] {
            Op::CopyFromMod { .. } => {
                copied = copied + 1;
            },
            Op::RestoreVanilla { .. } => {
                restored = restored + 1;
            },
            Op::Delete { .. } => {
                removed = removed + 1;
            },
        }
        i = i + 1;
    }
    proof {
        assert(ops@.take(ops@.len() as int) =~= ops@);
    }
    let total = match desired_path_total(desired) {
        Some(t) => t,
        None => 0,
    };
    let touched = copied + restored;
    let unchanged = if total >= touched {
        total - touched
    } else {
        0
    };
    ApplyStats { copied, restored, removed, unchanged, full_rebuild: false }
}

/// The number of paths the rom should hold, or `None` when it does not fit in a
/// `usize`.
pub fn desired_path_total(desired: &DesiredState) -> (n: Option<usize>)
    ensures
        match n {
            Some(k) => k == desired_path_count(*desired),
            None => desired_path_count(*desired) > usize::MAX,
        },
{
    let ghost van = vanilla_set(*desired);
    let ghost keys = desired.mod_files.key_seq();
    let base = desired.vanilla_files.len();
    let mut extra: usize = 0;
    let m = desired.mod_files.len();
    proof {
        use_type_invariant(&desired.mod_files);
        use_type_invariant(&desired.vanilla_files);
        lemma_keys_cover(desired.mod_files);
        desired.vanilla_files.lemma_layout();
        desired.mod_files.lemma_layout();
        assert(van.union(keys.take(0).to_set()) =~= van);
    }
    let mut i: usize = 0;
    while i < m
        invariant
            i <= m,
            m == keys.len(),
            keys == desired.mod_files.key_seq(),
            keys.no_duplicates(),
            van == vanilla_set(*desired),
            van.finite(),
            base == van.len(),
            base + extra == van.union(keys.take(i as int).to_set()).len(),
            van.union(keys.take(i as int).to_set()).finite(),
            van.union(keys.take(i as int).to_set()).len() <= van.len() + i,
            van.len() + m == desired.vanilla_files@.dom().len() + desired.mod_files@.dom().len(),
        decreases m - i,
    {
        let (rel, _) = desired.mod_files.get_index(i);
        let ghost before = van.union(keys.take(i as int).to_set());
        proof {
            assert(keys.take(i + 1) =~= keys.take(i as int).push(rel@));
            let t0 = keys.take(i as int);
            let t1 = keys.take(i + 1);
            assert(t1.to_set() =~= t0.to_set().insert(rel@)) by {
                assert forall|k: Seq<char>| t1.to_set().contains(k) <==> t0.to_set().insert(
                    rel@,
                ).contains(k) by {
                    if t1.contains(k) {
                        let j = choose|j: int| 0 <= j < t1.len() && t1[j] == k;
                        if j < i {
                            assert(t0[j] == k);
                        }
                    }
                    if t0.contains(k) {
                        let j = choose|j: int| 0 <= j < t0.len() && t0[j] == k;
                        assert(t1[j] == k);
                    }
                    if k == rel@ {
                        assert(t1[i as int] == k);
                    }
                }
            }
            assert(van.union(keys.take(i + 1).to_set()) =~= before.insert(rel@));
        }
        if !desired.vanilla_files.contains_key(rel.as_str()) {
            proof {
                let t0 = keys.take(i as int);
                assert(!t0.contains(rel@)) by {
                    if t0.contains(rel@) {
                        let j = choose|j: int| 0 <= j < t0.len() && t0[j] == rel@;
                        assert(keys[j] == keys[i as int]);
                    }
                }
                assert(!before.contains(rel@));
            }
            extra = extra + 1;
        } else {
            proof {
                assert(before.contains(rel@));
                assert(before.insert(rel@) =~= before);
            }
        }
        i = i + 1;
    }
    proof {
        assert(keys.take(m as int) =~= keys);
        assert(keys.to_set() =~= desired_map(*desired).dom()) by {
            assert forall|k: Seq<char>| keys.to_set().contains(k) <==> desired_map(
                *desired,
            ).dom().contains(k) by {}
        }
    }
    base.checked_add(extra)
}

/// The operations of a full rebuild: a copy of every desired mod file, in key order.
/// These are the operations planned from an empty manifest.
pub fn full_rebuild_ops(desired: &DesiredState) -> (ops: Vec<Op>)
    ensures
        ops_view(ops@) == ops_for_desired(
            desired.mod_files.key_seq(),
            Map::<Seq<char>, IdentityView>::empty(),
            desired_map(*desired),
        ),
{
    let ghost des_map = desired_map(*desired);
    let ghost des_keys = desired.mod_files.key_seq();
    let ghost empty = Map::<Seq<char>, IdentityView>::empty();
    let mut ops: Vec<Op> = Vec::new();
    let m = desired.mod_files.len();
    let mut j: usize = 0;
    while j < m
        invariant
            j <= m,
            m == des_keys.len(),
            des_keys == desired.mod_files.key_seq(),
            des_map == desired_map(*desired),
            empty == Map::<Seq<char>, IdentityView>::empty(),
            ops_view(ops@) == ops_for_desired(des_keys.take(j as int), empty, des_map),
        decreases m - j,
    {
        let (rel, src) = desired.mod_files.get_index(j);
        proof {
            assert(des_keys.take(j + 1).drop_last() =~= des_keys.take(j as int));
            assert(des_keys.take(j + 1).last() == rel@);
            assert(des_map[rel@] == src@);
        }
        let ghost before = ops@;
        ops.push(
            Op::CopyFromMod {
                rel_path: rel.clone(),
                source_path: src.source_path.clone(),
                identity: src.identity.duplicate(),
            },
        );
        proof {
            assert(ops@ =~= before.push(ops@.last()));
            assert(ops_view(ops@) =~= ops_view(before).push(ops@.last()@));
        }
        j = j + 1;
    }
    proof {
        assert(des_keys.take(m as int) =~= des_keys);
    }
    ops
}


/// Unicode lowercasing of a text, as `str::to_lowercase` does it.
pub uninterp spec fn lowercase(text: Seq<char>) -> Seq<char>;

/// Whether every character of a text is ASCII.
pub open spec fn all_ascii(text: Seq<char>) -> bool {
    forall|i: int| 0 <= i < text.len() ==> (text[i] as u32) < 128
}

/// ASCII lowercasing: `A` to `Z` become `a` to `z`, every other character stays.
pub open spec fn ascii_lowercase(text: Seq<char>) -> Seq<char> {
    text.map_values(|c: char| if 'A' <= c && c <= 'Z' { ((c as u32) + 32) as char } else { c })
}

/// `str::to_lowercase`. Claims: the result is `lowercase` of the text, and on ASCII
/// text it is the ASCII lowercasing (the Unicode lowercase of an ASCII character is its
/// ASCII lowercase).
#[verifier::external_body]
fn to_lowercase(text: &str) -> (r: String)
    ensures
        r@ == lowercase(text@),
        all_ascii(text@) ==> r@ == ascii_lowercase(text@),
{
    text.to_lowercase()
}

/// A relative path with its top-level folder lowercased and the rest untouched
/// (`Meshes/Sub/File.mesh` becomes `meshes/Sub/File.mesh`); a path without a `/` is
/// lowercased whole.
pub open spec fn normalised_path(rel: Seq<char>) -> Seq<char> {
    let i = find_from(rel, seq!['/'], 0);
    if i < 0 {
        lowercase(rel)
    } else {
        lowercase(rel.take(i)) + seq!['/'] + rel.skip(i + 1)
    }
}

/// `normalised_path` with ASCII lowercasing, which it is on ASCII paths.
pub open spec fn ascii_normalised_path(rel: Seq<char>) -> Seq<char> {
    let i = find_from(rel, seq!['/'], 0);
    if i < 0 {
        ascii_lowercase(rel)
    } else {
        ascii_lowercase(rel.take(i)) + seq!['/'] + rel.skip(i + 1)
    }
}

/// Lowercases the top-level folder of a relative path.
pub fn normalise_top_level(rel: &str) -> (out: String)
    ensures
        out@ == normalised_path(rel@),
        all_ascii(rel@) ==> out@ == ascii_normalised_path(rel@),
{
    let chars = chars_of(rel);
    let slash = ['/'];
    proof {
        assert(slash@ =~= seq!['/']);
    }
    match find_chars(chars.as_slice(), slash.as_slice(), 0) {
        None => to_lowercase(rel),
        Some(i) => {
            proof {
                lemma_find_from(rel@, seq!['/'], 0);
            }
            let mut head: Vec<char> = Vec::new();
            let mut h: usize = 0;
            while h < i
                invariant
                    h <= i,
                    i <= chars@.len(),
                    head@ =~= chars@.take(h as int),
                decreases i - h,
            {
                head.push(chars[h]);
                h = h + 1;
            }
            let top = string_from_chars(head.as_slice());
            proof {
                assert(head@ =~= rel@.take(i as int));
            }
            let top = to_lowercase(top.as_str());
            let mut out = chars_of(top.as_str());
            out.push('/');
            let ghost start = out@;
            assert(i + 1 <= chars.len());
            let mut j = i + 1;
            while j < chars.len()
                invariant
                    i < j <= chars@.len(),
                    out@ == start + chars@.subrange(i + 1, j as int),
                decreases chars@.len() - j,
            {
                out.push(chars[j]);
                proof {
                    assert(chars@.subrange(i + 1, j + 1) =~= chars@.subrange(i + 1, j as int).push(
                        chars@[j as int],
                    ));
                }
                j = j + 1;
            }
            proof {
                assert(chars@.subrange(i + 1, chars@.len() as int) =~= rel@.skip(i + 1));
                assert(chars@.subrange(0, i as int) =~= rel@.take(i as int));
            }
            string_from_chars(out.as_slice())
        },
    }
}

/// A file found under a mod folder: its path relative to the folder (`/`-separated),
/// size and modification time in milliseconds since the Unix epoch.
#[derive(Debug, Clone, PartialEq, Eq)]
pub struct ListedFile {
    pub rel_path: String,
    pub size: u64,
    pub mtime_ms: i64,
}

/// A folder directly inside a mod's directory: its name as found on disk, its path,
/// and every file under it.
#[derive(Debug, Clone, PartialEq, Eq)]
pub struct ModFolder {
    pub name: String,
    pub path: String,
    pub files: Vec<ListedFile>,
}

/// An active mod as found on disk: its name and version, and its folders.
#[derive(Debug, Clone, PartialEq, Eq)]
pub struct ModListing {
    pub name: String,
    pub version: String,
    pub folders: Vec<ModFolder>,
}

/// Whether a lowercased folder name is one whose files go into the rom.
pub open spec fn is_rom_folder(lower: Seq<char>) -> bool {
    lower == "meshes"@ || lower == "definitions"@ || lower == "audio"@ || lower == "graphics"@
        || lower == "data"@
}

/// The desired entry of a listed file of a mod folder, whose lowercased name is `lower`.
pub open spec fn file_entry(m: ModListing, f: ModFolder, lower: Seq<char>, lf: ListedFile) -> (
    Seq<char>,
    SourceView,
) {
    (
        lower + seq!['/'] + lf.rel_path@,
        SourceView {
            source_path: path_join(f.path@, lf.rel_path@),
            identity: IdentityView {
                mod_name: m.name@,
                mod_version: m.version@,
                size: lf.size,
                mtime_ms: lf.mtime_ms,
            },
        },
    )
}

/// The desired entries a mod folder contributes, in file order: all its files when its
/// lowercased name is a rom folder, none otherwise.
pub open spec fn folder_entries(m: ModListing, f: ModFolder) -> Seq<(Seq<char>, SourceView)> {
    let lower = lowercase(f.name@);
    if is_rom_folder(lower) {
        f.files@.map_values(|lf: ListedFile| file_entry(m, f, lower, lf))
    } else {
        Seq::empty()
    }
}

/// The desired entries of a mod's folders, folder by folder.
pub open spec fn mod_entries(m: ModListing, folders: Seq<ModFolder>) -> Seq<
    (Seq<char>, SourceView),
>
    decreases folders.len(),
{
    if folders.len() == 0 {
        Seq::empty()
    } else {
        mod_entries(m, folders.drop_last()) + folder_entries(m, folders.last())
    }
}

/// The desired entries of the active mods, mod by mod.
pub open spec fn listing_entries(mods: Seq<ModListing>) -> Seq<(Seq<char>, SourceView)>
    decreases mods.len(),
{
    if mods.len() == 0 {
        Seq::empty()
    } else {
        listing_entries(mods.drop_last()) + mod_entries(mods.last(), mods.last().folders@)
    }
}

/// The map made by storing the entries in order: a later entry for the same path
/// replaces an earlier one (last writer wins).
pub open spec fn stored_in_order(entries: Seq<(Seq<char>, SourceView)>) -> Map<
    Seq<char>,
    SourceView,
>
    decreases entries.len(),
{
    if entries.len() == 0 {
        Map::empty()
    } else {
        stored_in_order(entries.drop_last()).insert(entries.last().0, entries.last().1)
    }
}

/// Lowercasing the folder names of `m` is ASCII lowercasing wherever a name is ASCII.
pub open spec fn ascii_folder_names(m: ModListing) -> bool {
    forall|j: int|
        0 <= j < m.folders@.len() && all_ascii(#[trigger] m.folders@[j].name@) ==> lowercase(
            m.folders@[j].name@,
        ) == ascii_lowercase(m.folders@[j].name@)
}

/// Whether `lower` is the lowercase of one of the folder names in `MOD_FOLDERS`.
pub open spec fn is_listed_mod_folder(lower: Seq<char>) -> bool {
    exists|k: int| 0 <= k < MOD_FOLDERS@.len() && lower == ascii_lowercase(#[trigger] MOD_FOLDERS@[k]@)
}

proof fn lemma_mod_folder_names()
    ensures
        forall|l: Seq<char>| is_listed_mod_folder(l) <==> is_rom_folder(l),
{
    reveal_strlit("Meshes");
    reveal_strlit("Definitions");
    reveal_strlit("Audio");
    reveal_strlit("Graphics");
    reveal_strlit("Data");
    reveal_strlit("meshes");
    reveal_strlit("definitions");
    reveal_strlit("audio");
    reveal_strlit("graphics");
    reveal_strlit("data");
    assert(MOD_FOLDERS@[0]@ == "Meshes"@);
    assert(ascii_lowercase(MOD_FOLDERS@[0]@) =~= "meshes"@);
    assert(ascii_lowercase(MOD_FOLDERS@[1]@) =~= "definitions"@);
    assert(ascii_lowercase(MOD_FOLDERS@[2]@) =~= "audio"@);
    assert(ascii_lowercase(MOD_FOLDERS@[3]@) =~= "graphics"@);
    assert(ascii_lowercase(MOD_FOLDERS@[4]@) =~= "data"@);
}

/// A mod folder's files enter the desired state exactly when its lowercased name is
/// the lowercase of one of `MOD_FOLDERS`: then every file, in order, under
/// `<lowercased folder>/<path in folder>`, sourced from `<folder path>/<path in folder>`
/// with the mod's name and version and the file's size and time; otherwise none.
pub proof fn law_rom_folders_are_mod_folders(m: ModListing, f: ModFolder)
    ensures
        is_listed_mod_folder(lowercase(f.name@)) ==> {
            &&& folder_entries(m, f).len() == f.files@.len()
            &&& forall|i: int|
                0 <= i < f.files@.len() ==> {
                    let e = #[trigger] folder_entries(m, f)[i];
                    let lf = f.files@[i];
                    &&& e.0 == lowercase(f.name@) + seq!['/'] + lf.rel_path@
                    &&& e.1.source_path == path_join(f.path@, lf.rel_path@)
                    &&& e.1.identity.mod_name == m.name@
                    &&& e.1.identity.mod_version == m.version@
                    &&& e.1.identity.size == lf.size
                    &&& e.1.identity.mtime_ms == lf.mtime_ms
                }
        },
        !is_listed_mod_folder(lowercase(f.name@)) ==> folder_entries(m, f).len() == 0,
{
    lemma_mod_folder_names();
}

/// Storing entries in order keeps, for each path, the source of its last entry (last
/// writer wins), and holds no path that no entry has.
pub proof fn law_last_writer_wins(entries: Seq<(Seq<char>, SourceView)>)
    ensures
        forall|p: Seq<char>|
            #[trigger] stored_in_order(entries).contains_key(p) <==> exists|j: int|
                0 <= j < entries.len() && entries[j].0 == p,
        forall|j: int|
            0 <= j < entries.len() && (forall|k: int| j < k < entries.len() ==> entries[k].0
                != entries[j].0) ==> stored_in_order(entries)[#[trigger] entries[j].0]
                == entries[j].1,
    decreases entries.len(),
{
    if entries.len() > 0 {
        let d = entries.drop_last();
        law_last_writer_wins(d);
        let m = stored_in_order(entries);
        assert forall|p: Seq<char>| #[trigger] m.contains_key(p) <==> exists|j: int|
            0 <= j < entries.len() && entries[j].0 == p by {
            if m.contains_key(p) && p != entries.last().0 {
                assert(stored_in_order(d).contains_key(p));
                let j = choose|j: int| 0 <= j < d.len() && d[j].0 == p;
                assert(entries[j] == d[j]);
            }
            if p == entries.last().0 {
                assert(entries[entries.len() - 1].0 == p);
            }
            if exists|j: int| 0 <= j < entries.len() && entries[j].0 == p {
                let j = choose|j: int| 0 <= j < entries.len() && entries[j].0 == p;
                if j < entries.len() - 1 {
                    assert(d[j] == entries[j]);
                    assert(stored_in_order(d).contains_key(p));
                }
            }
        }
        assert forall|j: int|
            0 <= j < entries.len() && (forall|k: int| j < k < entries.len() ==> entries[k].0
                != entries[j].0) implies m[#[trigger] entries[j].0] == entries[j].1 by {
            if j < entries.len() - 1 {
                assert(d[j] == entries[j]);
                assert(entries[entries.len() - 1].0 != entries[j].0);
                assert forall|k: int| j < k < d.len() implies d[k].0 != d[j].0 by {
                    assert(d[k] == entries[k]);
                }
            }
        }
    }
}

/// The view of a list of (path, source) pairs.
pub open spec fn entries_view(v: Seq<(String, ModFileSource)>) -> Seq<(Seq<char>, SourceView)> {
    v.map_values(|e: (String, ModFileSource)| (e.0@, e.1@))
}

fn folder_entries_exec(m: &ModListing, f: &ModFolder) -> (out: Vec<(String, ModFileSource)>)
    ensures
        entries_view(out@) == folder_entries(*m, *f),
        all_ascii(f.name@) ==> lowercase(f.name@) == ascii_lowercase(f.name@),
{
    let mut out: Vec<(String, ModFileSource)> = Vec::new();
    let lower = to_lowercase(f.name.as_str());
    let wanted = str_eq(lower.as_str(), "meshes") || str_eq(lower.as_str(), "definitions")
        || str_eq(lower.as_str(), "audio") || str_eq(lower.as_str(), "graphics") || str_eq(
        lower.as_str(),
        "data",
    );
    if !wanted {
        proof {
            assert(entries_view(out@) =~= folder_entries(*m, *f));
        }
        return out;
    }
    let ghost target = folder_entries(*m, *f);
    let mut i: usize = 0;
    while i < f.files.len()
        invariant
            i <= f.files@.len(),
            is_rom_folder(lower@),
            lower@ == lowercase(f.name@),
            all_ascii(f.name@) ==> lowercase(f.name@) == ascii_lowercase(f.name@),
            target == folder_entries(*m, *f),
            target.len() == f.files@.len(),
            entries_view(out@) == target.take(i as int),
        decreases f.files@.len() - i,
    {
        let lf = &f.files[i];
        let mut rel = chars_of(lower.as_str());
        rel.push('/');
        let ghost start = rel@;
        let inner = chars_of(lf.rel_path.as_str());
        let mut k: usize = 0;
        while k < inner.len()
            invariant
                k <= inner@.len(),
                rel@ == start + inner@.take(k as int),
            decreases inner@.len() - k,
        {
            rel.push(inner[k]);
            proof {
                assert(inner@.take(k + 1) =~= inner@.take(k as int).push(inner@[k as int]));
            }
            k = k + 1;
        }
        proof {
            assert(inner@.take(inner@.len() as int) =~= inner@);
            assert(rel@ =~= lower@ + seq!['/'] + lf.rel_path@);
        }
        let source = ModFileSource {
            source_path: join_path(f.path.as_str(), lf.rel_path.as_str()),
            identity: FileIdentity {
                mod_name: m.name.clone(),
                mod_version: m.version.clone(),
                size: lf.size,
                mtime_ms: lf.mtime_ms,
            },
        };
        let ghost before = out@;
        let key = string_from_chars(rel.as_slice());
        proof {
            assert((key@, source@) == file_entry(*m, *f, lower@, f.files@[i as int]));
        }
        out.push((key, source));
        proof {
            assert(target[i as int] == file_entry(*m, *f, lower@, f.files@[i as int]));
            assert(entries_view(out@) =~= entries_view(before).push(target[i as int]));
            assert(target.take(i + 1) =~= target.take(i as int).push(target[i as int]));
        }
        i = i + 1;
    }
    proof {
        assert(target.take(f.files@.len() as int) =~= target);
    }
    out
}

fn mod_entries_exec(m: &ModListing) -> (out: Vec<(String, ModFileSource)>)
    ensures
        entries_view(out@) == mod_entries(*m, m.folders@),
        ascii_folder_names(*m),
{
    let mut out: Vec<(String, ModFileSource)> = Vec::new();
    let mut i: usize = 0;
    while i < m.folders.len()
        invariant
            i <= m.folders@.len(),
            entries_view(out@) == mod_entries(*m, m.folders@.take(i as int)),
            forall|j: int|
                0 <= j < i && all_ascii(#[trigger] m.folders@[j].name@) ==> lowercase(
                    m.folders@[j].name@,
                ) == ascii_lowercase(m.folders@[j].name@),
        decreases m.folders@.len() - i,
    {
        let mut more = folder_entries_exec(m, &m.folders[i]);
        let ghost before = out@;
        let ghost added = more@;
        out.append(&mut more);
        proof {
            assert(m.folders@.take(i + 1).drop_last() =~= m.folders@.take(i as int));
            assert(m.folders@.take(i + 1).last() == m.folders@[i as int]);
            assert(entries_view(out@) =~= entries_view(before) + entries_view(added));
        }
        i = i + 1;
    }
    proof {
        assert(m.folders@.take(m.folders@.len() as int) =~= m.folders@);
    }
    out
}

/// Builds the desired rom state from the vanilla backup's file list (paths relative
/// to the backup) and the active mods in order. Vanilla paths are recorded with their
/// top-level folder lowercased. Only files under a mod folder whose lowercased name is
/// `meshes`, `definitions`, `audio`, `graphics` or `data` count; each is recorded under
/// `<lowercased folder>/<path in folder>`, sourced from `<folder path>/<path in
/// folder>`, with the mod's name and version; when several files map to one path, the
/// last one (in mod, folder and file order) wins.
pub fn build_desired_state(vanilla_files: &Vec<String>, active_mods: &Vec<ModListing>) -> (d:
    DesiredState)
    ensures
        desired_map(d) == stored_in_order(listing_entries(active_mods@)),
        forall|p: Seq<char>|
            vanilla_set(d).contains(p) <==> exists|i: int|
                0 <= i < vanilla_files@.len() && normalised_path(#[trigger] vanilla_files@[i]@)
                    == p,
        forall|i: int|
            0 <= i < vanilla_files@.len() && all_ascii(#[trigger] vanilla_files@[i]@) ==> {
                &&& normalised_path(vanilla_files@[i]@) == ascii_normalised_path(vanilla_files@[i]@)
                &&& vanilla_set(d).contains(ascii_normalised_path(vanilla_files@[i]@))
            },
        forall|k: int| 0 <= k < active_mods@.len() ==> ascii_folder_names(#[trigger] active_mods@[k]),
{
    let mut vanilla: StrMap<()> = StrMap::new();
    let mut i: usize = 0;
    while i < vanilla_files.len()
        invariant
            i <= vanilla_files@.len(),
            forall|j: int|
                0 <= j < i && all_ascii(#[trigger] vanilla_files@[j]@) ==> normalised_path(
                    vanilla_files@[j]@,
                ) == ascii_normalised_path(vanilla_files@[j]@),
            forall|p: Seq<char>|
                #[trigger] vanilla@.contains_key(p) <==> exists|j: int|
                    0 <= j < i && normalised_path(vanilla_files@[j]@) == p,
        decreases vanilla_files@.len() - i,
    {
        let p = normalise_top_level(vanilla_files[i].as_str());
        let ghost pv = p@;
        vanilla.insert(p, ());
        proof {
            assert forall|q: Seq<char>| #[trigger] vanilla@.contains_key(q) <==> exists|j: int|
                0 <= j < i + 1 && normalised_path(vanilla_files@[j]@) == q by {
                if q == pv {
                    assert(normalised_path(vanilla_files@[i as int]@) == q);
                }
            }
        }
        i = i + 1;
    }
    let mut entries: Vec<(String, ModFileSource)> = Vec::new();
    let mut k: usize = 0;
    while k < active_mods.len()
        invariant
            k <= active_mods@.len(),
            entries_view(entries@) == listing_entries(active_mods@.take(k as int)),
            forall|j: int| 0 <= j < k ==> ascii_folder_names(#[trigger] active_mods@[j]),
        decreases active_mods@.len() - k,
    {
        let mut more = mod_entries_exec(&active_mods[k]);
        let ghost before = entries@;
        let ghost added = more@;
        entries.append(&mut more);
        proof {
            assert(active_mods@.take(k + 1).drop_last() =~= active_mods@.take(k as int));
            assert(active_mods@.take(k + 1).last() == active_mods@[k as int]);
            assert(entries_view(entries@) =~= entries_view(before) + entries_view(added));
        }
        k = k + 1;
    }
    proof {
        assert(active_mods@.take(active_mods@.len() as int) =~= active_mods@);
    }
    let ghost all = entries_view(entries@);
    let mut mod_files: StrMap<ModFileSource> = StrMap::new();
    let mut e: usize = 0;
    proof {
        assert(mod_files@.map_values(|s: ModFileSource| s@) =~= stored_in_order(all.take(0)));
    }
    while e < entries.len()
        invariant
            e <= entries@.len(),
            all == entries_view(entries@),
            mod_files@.map_values(|s: ModFileSource| s@) == stored_in_order(all.take(e as int)),
        decreases entries@.len() - e,
    {
        let (rel, src) = &entries[e];
        let ghost prior = mod_files@;
        mod_files.insert(rel.clone(), duplicate_source(src));
        proof {
            assert(all.take(e + 1).drop_last() =~= all.take(e as int));
            assert(all.take(e + 1).last() == (rel@, src@));
            assert(mod_files@.map_values(|s: ModFileSource| s@) =~= prior.map_values(
                |s: ModFileSource| s@,
            ).insert(rel@, src@));
        }
        e = e + 1;
    }
    proof {
        assert(all.take(entries@.len() as int) =~= all);
    }
    DesiredState { mod_files, vanilla_files: vanilla }
}

} // verus!
