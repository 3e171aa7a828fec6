//! Trash and restore engines.
//!
//! The engines decide, from the current trash state and the caller's
//! observations of the filesystem, what a trash, restore or empty
//! operation does: which move or deletion to carry out, and how the
//! trash listing and the restore record store change. The caller probes
//! the filesystem (existence, directory-ness, the confirmation answer),
//! hands the observations in, performs the returned action, and persists
//! the updated record store.

use vstd::prelude::*;
use crate::bytes::{bytes_eq, copy_bytes, listing_contains, views_of};
use crate::name::{
    dec_digits, lemma_dec_digits_range, resolve_name, resolves_to, suffix_choice,
};
use crate::store::{
    key_present, lemma_lookup_present, lemma_lookup_push_fresh, lemma_remove_key_gone,
    lemma_remove_key_present, lemma_remove_push_fresh, lookup_spec, remove_key_spec, wf_key,
    wf_val, RecordStore,
};

verus! {

/// A basename fit to be trashed: representable as a record name and
/// holding no path separator.
pub open spec fn wf_name(n: Seq<u8>) -> bool {
    &&& wf_key(n)
    &&& forall|i: int| 0 <= i < n.len() ==> n[i] != 47
}

/// The trash directory and its record store, as one state: the listing
/// of names currently in the trash, and the mapping back to origins.
pub struct TrashState {
    pub listing: Vec<Vec<u8>>,
    pub store: RecordStore,
}

impl TrashState {
    /// The names currently present in the trash directory.
    pub open spec fn names(self) -> Seq<Seq<u8>> {
        views_of(self.listing@)
    }

    /// The restore records, in file order.
    pub open spec fn records(self) -> Seq<(Seq<u8>, Seq<u8>)> {
        self.store.model()
    }

    /// The state invariant: directory entries are distinct, the store is
    /// well formed, and every recorded name is physically in the trash —
    /// no record may point at an entry that is not there.
    pub open spec fn wf(self) -> bool {
        &&& self.names().no_duplicates()
        &&& self.store.wf()
        &&& forall|i: int|
            0 <= i < self.records().len() ==> listing_contains(
                self.names(),
                #[trigger] self.records()[i].0,
            )
    }

    /// A state for a trash directory holding `listing`, with its store.
    pub fn new(listing: Vec<Vec<u8>>, store: RecordStore) -> (s: Self)
        ensures
            s.names() == views_of(listing@),
            s.records() == store.model(),
    {
        TrashState { listing, store }
    }
}

/// One unit of trash work, as the caller observed it: the target's
/// basename, its canonicalized absolute path, and the probe outcomes.
pub struct Target {
    pub basename: Vec<u8>,
    pub canonical_path: Vec<u8>,
    pub exists: bool,
    pub is_dir: bool,
    pub dir_confirmed: bool,
}

impl Target {
    /// What the engine asks of a target: a trashable basename and a
    /// path the record file can hold.
    pub open spec fn admissible(self) -> bool {
        &&& wf_name(self.basename@)
        &&& wf_val(self.canonical_path@)
    }
}

/// What one trash request decides.
pub enum TrashDecision {
    /// The target does not exist: reported, skipped, nothing changes.
    NotFound,
    /// A directory without an affirmative confirmation: silently skipped.
    Unconfirmed,
    /// Forced removal of a confirmed directory: delete the tree
    /// permanently, write no record.
    DeleteTree,
    /// Forced removal of a file: delete it permanently, write no record.
    DeleteFile,
    /// Move the target into the trash under `dest` and record its origin.
    MoveToTrash { dest: Vec<u8> },
}

/// No observable change: same trash names, same records.
pub open spec fn state_unchanged(s0: TrashState, s1: TrashState) -> bool {
    &&& s1.names() == s0.names()
    &&& s1.records() == s0.records()
}

/// How a successful trash move changes the state: the destination name
/// resolves against the old listing, joins it, and gains a record.
pub open spec fn trash_moved(
    s0: TrashState,
    base: Seq<u8>,
    orig: Seq<u8>,
    s1: TrashState,
    dest: Seq<u8>,
) -> bool {
    &&& resolves_to(s0.names(), base, dest)
    &&& s1.names() == s0.names().push(dest)
    &&& s1.records() == s0.records().push((dest, orig))
}

/// A resolved destination still satisfies the record name format.
proof fn lemma_resolved_wf_key(names: Seq<Seq<u8>>, base: Seq<u8>, dest: Seq<u8>)
    requires
        wf_key(base),
        resolves_to(names, base, dest),
    ensures
        wf_key(dest),
{
    broadcast use vstd::seq::axiom_seq_add_len;

    if listing_contains(names, base) {
        let i = choose|i: nat| suffix_choice(names, base, dest, i);
        lemma_dec_digits_range(i);
        let d = dec_digits(i);
        assert(dest == base + d);
        assert forall|j: int| 0 <= j < dest.len() implies dest[j] != 10 && dest[j] != 32 by {
            if j < base.len() {
                assert(dest[j] == base[j]);
            } else {
                assert(dest[j] == d[j - base.len()]);
                assert(48 <= d[j - base.len()] <= 57);
            }
        }
    }
}

/// Decide one trash request. A missing target is reported and skipped;
/// an unconfirmed directory is silently skipped; a forced target is
/// deleted permanently with no record; otherwise the target moves into
/// the trash under a collision-free name and its origin is recorded —
/// for files and directories alike.
pub fn trash_one(state: &mut TrashState, target: &Target, force: bool) -> (d: TrashDecision)
    requires
        old(state).wf(),
        target.admissible(),
        old(state).listing@.len() < usize::MAX,
    ensures
        final(state).wf(),
        !target.exists ==> d == TrashDecision::NotFound && state_unchanged(
            *old(state),
            *final(state),
        ),
        target.exists && target.is_dir && !target.dir_confirmed ==> d
            == TrashDecision::Unconfirmed && state_unchanged(*old(state), *final(state)),
        target.exists && target.is_dir && target.dir_confirmed && force ==> d
            == TrashDecision::DeleteTree && state_unchanged(*old(state), *final(state)),
        target.exists && !target.is_dir && force ==> d == TrashDecision::DeleteFile
            && state_unchanged(*old(state), *final(state)),
        target.exists && !force && (!target.is_dir || target.dir_confirmed) ==> (d matches
            TrashDecision::MoveToTrash { dest } && trash_moved(
            *old(state),
            target.basename@,
            target.canonical_path@,
            *final(state),
            dest@,
        )),
        final(state).listing@.len() <= old(state).listing@.len() + 1,
{
    if !target.exists {
        return TrashDecision::NotFound;
    }
    if target.is_dir && !target.dir_confirmed {
        return TrashDecision::Unconfirmed;
    }
    if force {
        if target.is_dir {
            return TrashDecision::DeleteTree;
        } else {
            return TrashDecision::DeleteFile;
        }
    }
    let ghost names0 = state.names();
    let ghost records0 = state.records();
    let dest = resolve_name(&state.listing, &target.basename);
    proof {
        assert(!listing_contains(names0, dest@));
        lemma_resolved_wf_key(names0, target.basename@, dest@);
        assert(!key_present(records0, dest@)) by {
            if key_present(records0, dest@) {
                let i = choose|i: int| 0 <= i < records0.len() && records0[i].0 == dest@;
                assert(listing_contains(names0, records0[i].0));
            }
        }
    }
    let dest_for_record = copy_bytes(&dest);
    let path_for_record = copy_bytes(&target.canonical_path);
    state.store.append_record(dest_for_record, path_for_record);
    let dest_for_listing = copy_bytes(&dest);
    state.listing.push(dest_for_listing);
    proof {
        assert(state.names() =~= names0.push(dest@));
        assert(state.records() =~= records0.push((dest@, target.canonical_path@)));
        assert(state.names().no_duplicates()) by {
            let n = state.names();
            assert forall|i: int, j: int|
                0 <= i < n.len() && 0 <= j < n.len() && i != j implies n[i] != n[j] by {
                if i < names0.len() && j < names0.len() {
                    assert(n[i] == names0[i] && n[j] == names0[j]);
                } else if i < names0.len() {
                    assert(n[i] == names0[i] && n[j] == dest@);
                } else if j < names0.len() {
                    assert(n[i] == dest@ && n[j] == names0[j]);
                }
            }
        }
        assert forall|i: int| 0 <= i < state.records().len() implies listing_contains(
            state.names(),
            #[trigger] state.records()[i].0,
        ) by {
            let n = state.names();
            if i < records0.len() {
                assert(state.records()[i] == records0[i]);
                assert(listing_contains(names0, records0[i].0));
                let j = choose|j: int| 0 <= j < names0.len() && names0[j] == records0[i].0;
                assert(n[j] == records0[i].0);
            } else {
                assert(state.records()[i].0 == dest@);
                assert(n[names0.len() as int] == dest@);
            }
        }
    }
    TrashDecision::MoveToTrash { dest }
}

/// Whether a basename can be trashed and recorded: non-empty, and free
/// of separator, space and newline bytes, which the record file format
/// cannot carry.
pub fn name_admissible(n: &Vec<u8>) -> (r: bool)
    ensures
        r == wf_name(n@),
{
    if n.len() == 0 {
        return false;
    }
    let mut i: usize = 0;
    while i < n.len()
        invariant
            0 <= i <= n@.len(),
            forall|j: int| 0 <= j < i ==> n@[j] != 10 && n@[j] != 32 && n@[j] != 47,
        decreases n.len() - i,
    {
        let b = n[i];
        if b == 10 || b == 32 || b == 47 {
            return false;
        }
        i += 1;
    }
    true
}

/// Whether a path can stand as a record value: free of newline and
/// single-quote bytes, which the record file format cannot carry.
pub fn path_recordable(p: &Vec<u8>) -> (r: bool)
    ensures
        r == wf_val(p@),
{
    let mut i: usize = 0;
    while i < p.len()
        invariant
            0 <= i <= p@.len(),
            forall|j: int| 0 <= j < i ==> p@[j] != 10 && p@[j] != 39,
        decreases p.len() - i,
    {
        let b = p[i];
        if b == 10 || b == 39 {
            return false;
        }
        i += 1;
    }
    true
}

/// What one restore request decides.
pub enum RestoreDecision {
    /// No restore record carries this name: reported, nothing changes.
    NoRecord,
    /// The original path is occupied again: fail fast, keep the trashed
    /// entry and its record so a later retry can succeed.
    Conflict,
    /// Move the trashed entry back to `original_path` and drop its record.
    MoveBack { original_path: Vec<u8> },
}

/// How a successful restore changes the state: the record decides the
/// destination, then disappears, and the name leaves the trash listing.
pub open spec fn restore_moved(
    s0: TrashState,
    name: Seq<u8>,
    s1: TrashState,
    back: Seq<u8>,
) -> bool {
    &&& lookup_spec(s0.records(), name) == Some(back)
    &&& s1.records() == remove_key_spec(s0.records(), name)
    &&& exists|idx: int|
        0 <= idx < s0.names().len() && s0.names()[idx] == name && s1.names() == s0.names().remove(
            idx,
        )
}

/// Index of `name` in the listing; callable only when it is present.
fn find_name_index(listing: &Vec<Vec<u8>>, name: &Vec<u8>) -> (idx: usize)
    requires
        listing_contains(views_of(listing@), name@),
    ensures
        idx < listing@.len(),
        views_of(listing@)[idx as int] == name@,
{
    let mut i: usize = 0;
    while i < listing.len()
        invariant
            0 <= i <= listing@.len(),
            forall|j: int| 0 <= j < i ==> views_of(listing@)[j] != name@,
            listing_contains(views_of(listing@), name@),
        decreases listing.len() - i,
    {
        if bytes_eq(&listing[i], name) {
            proof {
                assert(views_of(listing@)[i as int] == name@);
            }
            return i;
        }
        proof {
            assert(views_of(listing@)[i as int] == listing@[i as int]@);
        }
        i += 1;
    }
    proof {
        let j = choose|j: int|
            0 <= j < views_of(listing@).len() && views_of(listing@)[j] == name@;
        assert(false);
    }
    0
}

/// Decide one restore request. With no record for the name, nothing is
/// touched; with the original path occupied, the conflict is reported and
/// both the trashed entry and the record stay; otherwise the entry moves
/// back to its recorded origin and the record is consumed.
pub fn restore_one(state: &mut TrashState, name: &Vec<u8>, destination_exists: bool) -> (d:
    RestoreDecision)
    requires
        old(state).wf(),
    ensures
        final(state).wf(),
        lookup_spec(old(state).records(), name@) is None ==> d == RestoreDecision::NoRecord
            && state_unchanged(*old(state), *final(state)),
        lookup_spec(old(state).records(), name@) is Some && destination_exists ==> d
            == RestoreDecision::Conflict && state_unchanged(*old(state), *final(state)),
        lookup_spec(old(state).records(), name@) is Some && !destination_exists ==> (d matches
            RestoreDecision::MoveBack { original_path } && restore_moved(
            *old(state),
            name@,
            *final(state),
            original_path@,
        )),
{
    let looked = state.store.lookup(name);
    match looked {
        None => RestoreDecision::NoRecord,
        Some(original_path) => {
            if destination_exists {
                return RestoreDecision::Conflict;
            }
            let ghost s0 = *state;
            proof {
                lemma_lookup_present(s0.records(), name@);
                let i = choose|i: int| 0 <= i < s0.records().len() && s0.records()[i].0 == name@;
                assert(listing_contains(s0.names(), s0.records()[i].0));
            }
            state.store.remove_record(name);
            let idx = find_name_index(&state.listing, name);
            let ghost listing1 = state.listing@;
            state.listing.remove(idx);
            proof {
                let names0 = s0.names();
                let records0 = s0.records();
                listing1.remove_ensures(idx as int);
                names0.remove_ensures(idx as int);
                assert(state.names() =~= names0.remove(idx as int));
                assert(restore_moved(s0, name@, *state, original_path@));
                // the invariant survives: entries stay distinct, and every
                // remaining record still points into the listing
                let n = state.names();
                assert(n.no_duplicates()) by {
                    assert forall|a: int, b: int|
                        0 <= a < n.len() && 0 <= b < n.len() && a != b implies n[a] != n[b] by {
                        let a0 = if a < idx {
                            a
                        } else {
                            a + 1
                        };
                        let b0 = if b < idx {
                            b
                        } else {
                            b + 1
                        };
                        assert(n[a] == names0[a0] && n[b] == names0[b0]);
                        assert(names0[a0] != names0[b0]);
                    }
                }
                assert forall|i: int| 0 <= i < state.records().len() implies listing_contains(
                    n,
                    #[trigger] state.records()[i].0,
                ) by {
                    let k2 = state.records()[i].0;
                    lemma_remove_key_present(records0, name@, k2);
                    lemma_remove_key_gone(records0, name@);
                    assert(k2 != name@);
                    let j = choose|j: int| 0 <= j < names0.len() && names0[j] == k2;
                    assert(names0[idx as int] == name@);
                    assert(j != idx);
                    let j2 = if j < idx {
                        j
                    } else {
                        j - 1
                    };
                    assert(n[j2] == names0[j]);
                }
            }
            RestoreDecision::MoveBack { original_path }
        },
    }
}

/// What an empty-trash request decides.
pub enum EmptyDecision {
    /// The caller did not confirm: nothing happens.
    Unconfirmed,
    /// Delete every listed entry permanently, in listing order; all
    /// records are dropped with them.
    Emptied { victims: Vec<Vec<u8>> },
}

/// Decide an empty-trash request: with confirmation, every entry of the
/// trash directory is deleted permanently and the record store is
/// cleared, restoring the invariant that records only name entries that
/// are physically present. Emptying an already-empty trash is a no-op
/// that deletes nothing.
pub fn empty_trash(state: &mut TrashState, confirmed: bool) -> (d: EmptyDecision)
    requires
        old(state).wf(),
    ensures
        final(state).wf(),
        !confirmed ==> d == EmptyDecision::Unconfirmed && state_unchanged(
            *old(state),
            *final(state),
        ),
        confirmed ==> (d matches EmptyDecision::Emptied { victims } && views_of(victims@) == old(
            state,
        ).names() && final(state).names().len() == 0 && final(state).records().len() == 0),
        confirmed && old(state).names().len() == 0 ==> (d matches EmptyDecision::Emptied {
            victims } && victims@.len() == 0),
{
    if !confirmed {
        return EmptyDecision::Unconfirmed;
    }
    let mut victims: Vec<Vec<u8>> = Vec::new();
    core::mem::swap(&mut state.listing, &mut victims);
    state.store.clear();
    proof {
        assert(state.names() =~= Seq::<Seq<u8>>::empty());
    }
    EmptyDecision::Emptied { victims }
}

/// Law: trashing an entry and then restoring it under its resolved name
/// moves it back to exactly the canonicalized path it came from, removes
/// its record, and leaves both the listing and the store as they were.
pub proof fn lemma_trash_restore_round_trip(
    s0: TrashState,
    base: Seq<u8>,
    orig: Seq<u8>,
    s1: TrashState,
    dest: Seq<u8>,
    s2: TrashState,
    back: Seq<u8>,
)
    requires
        s0.wf(),
        trash_moved(s0, base, orig, s1, dest),
        restore_moved(s1, dest, s2, back),
    ensures
        back == orig,
        s2.records() == s0.records(),
        s2.names() == s0.names(),
{
    let names0 = s0.names();
    let records0 = s0.records();
    assert(!listing_contains(names0, dest));
    assert(!key_present(records0, dest)) by {
        if key_present(records0, dest) {
            let i = choose|i: int| 0 <= i < records0.len() && records0[i].0 == dest;
            assert(listing_contains(names0, records0[i].0));
        }
    }
    lemma_lookup_push_fresh(records0, dest, orig);
    assert(back == orig);
    lemma_remove_push_fresh(records0, dest, orig);
    assert(s2.records() == records0);
    let idx = choose|idx: int|
        0 <= idx < s1.names().len() && s1.names()[idx] == dest && s2.names() == s1.names().remove(
            idx,
        );
    assert(s1.names() == names0.push(dest));
    assert(idx == names0.len()) by {
        if idx < names0.len() {
            assert(names0[idx] == dest);
            assert(listing_contains(names0, dest));
        }
    }
    assert(s2.names() =~= names0);
}

/// Decide a whole batch of trash requests, one decision per target, in
/// order. Each item is decided independently: a missing target is
/// reported and skipped without disturbing the treatment of the others.
pub fn trash_batch(state: &mut TrashState, targets: &Vec<Target>, force: bool) -> (ds: Vec<
    TrashDecision>)
    requires
        old(state).wf(),
        forall|j: int| 0 <= j < targets@.len() ==> (#[trigger] targets@[j]).admissible(),
        old(state).listing@.len() + targets@.len() < usize::MAX,
    ensures
        final(state).wf(),
        ds@.len() == targets@.len(),
        forall|j: int|
            0 <= j < targets@.len() && !(#[trigger] targets@[j]).exists ==> ds@[j]
                == TrashDecision::NotFound,
        forall|j: int|
            0 <= j < targets@.len() && (#[trigger] targets@[j]).exists && targets@[j].is_dir
                && !targets@[j].dir_confirmed ==> ds@[j] == TrashDecision::Unconfirmed,
        forall|j: int|
            0 <= j < targets@.len() && (#[trigger] targets@[j]).exists && targets@[j].is_dir
                && targets@[j].dir_confirmed && force ==> ds@[j] == TrashDecision::DeleteTree,
        forall|j: int|
            0 <= j < targets@.len() && (#[trigger] targets@[j]).exists && !targets@[j].is_dir
                && force ==> ds@[j] == TrashDecision::DeleteFile,
        forall|j: int|
            0 <= j < targets@.len() && (#[trigger] targets@[j]).exists && !force && (
            !targets@[j].is_dir || targets@[j].dir_confirmed) ==> ds@[j] matches
                TrashDecision::MoveToTrash { dest },
{
    let mut ds: Vec<TrashDecision> = Vec::new();
    let mut i: usize = 0;
    while i < targets.len()
        invariant
            state.wf(),
            0 <= i <= targets@.len(),
            ds@.len() == i,
            forall|j: int| 0 <= j < targets@.len() ==> (#[trigger] targets@[j]).admissible(),
            state.listing@.len() <= old(state).listing@.len() + i,
            old(state).listing@.len() + targets@.len() < usize::MAX,
            forall|j: int|
                0 <= j < i && !(#[trigger] targets@[j]).exists ==> ds@[j]
                    == TrashDecision::NotFound,
            forall|j: int|
                0 <= j < i && (#[trigger] targets@[j]).exists && targets@[j].is_dir
                    && !targets@[j].dir_confirmed ==> ds@[j] == TrashDecision::Unconfirmed,
            forall|j: int|
                0 <= j < i && (#[trigger] targets@[j]).exists && targets@[j].is_dir
                    && targets@[j].dir_confirmed && force ==> ds@[j] == TrashDecision::DeleteTree,
            forall|j: int|
                0 <= j < i && (#[trigger] targets@[j]).exists && !targets@[j].is_dir && force
                    ==> ds@[j] == TrashDecision::DeleteFile,
            forall|j: int|
                0 <= j < i && (#[trigger] targets@[j]).exists && !force && (!targets@[j].is_dir
                    || targets@[j].dir_confirmed) ==> ds@[j] matches TrashDecision::MoveToTrash {
                    dest },
        decreases targets.len() - i,
    {
        let d = trash_one(state, &targets[i], force);
        ds.push(d);
        i += 1;
    }
    ds
}

} // verus!
