//! The opens and the locks of each file.

use vstd::prelude::*;

use crate::bytemap::ByteMap;
use crate::bytes::copy_bytes;
use crate::locks::{locks_left, release_locks, HeldLock};
use crate::protocol::{file_place, LockAccess, OwnerKey, RuntimeFile};
use crate::share::{release_shares, shares_without, ShareAccess, ShareDeny, ShareReservation};

verus! {

/// An open whose target is known and which is not done yet.
pub struct PendingOpen {
    pub reservation: u64,
    pub owner: OwnerKey,
    pub access: ShareAccess,
    pub deny: ShareDeny,
}

impl PendingOpen {
    /// The same open again.
    pub fn copy(&self) -> (copy: Self)
        ensures
            copy == *self,
    {
        PendingOpen {
            reservation: self.reservation,
            owner: self.owner.copy(),
            access: self.access,
            deny: self.deny,
        }
    }
}

/// The opens and the locks of a file.
pub struct FileState {
    pub shares: Vec<ShareReservation>,
    pub locks: Vec<HeldLock>,
    pub pending_opens: Vec<PendingOpen>,
}

/// What the opens and the locks of a file stand for.
#[verifier::ext_equal]
pub struct FileView {
    pub shares: Seq<ShareReservation>,
    pub locks: Seq<HeldLock>,
    pub pending_opens: Seq<PendingOpen>,
}

impl View for FileState {
    type V = FileView;

    open spec fn view(&self) -> FileView {
        FileView { shares: self.shares@, locks: self.locks@, pending_opens: self.pending_opens@ }
    }
}

/// A file without opens and locks.
pub open spec fn no_state() -> FileView {
    FileView { shares: seq![], locks: seq![], pending_opens: seq![] }
}

impl FileView {
    /// The file has neither opens nor locks.
    pub open spec fn vacant(self) -> bool {
        self.shares.len() == 0 && self.locks.len() == 0 && self.pending_opens.len() == 0
    }

    /// The file without what belongs to a client.
    pub open spec fn without(self, client_id: u64) -> FileView {
        FileView {
            shares: shares_without(self.shares, client_id, self.shares.len()),
            locks: locks_left(self.locks, client_id, self.locks.len()),
            pending_opens: pending_without_client(self.pending_opens, client_id, self.pending_opens.len()),
        }
    }
}

/// The first `n` pending opens but for those of a client.
pub open spec fn pending_without_client(list: Seq<PendingOpen>, client_id: u64, n: nat) -> Seq<PendingOpen>
    decreases n,
{
    if n == 0 {
        seq![]
    } else if list[n - 1].owner.client_id == client_id {
        pending_without_client(list, client_id, (n - 1) as nat)
    } else {
        pending_without_client(list, client_id, (n - 1) as nat).push(list[n - 1])
    }
}

/// The first `n` pending opens but for one.
pub open spec fn pending_without(list: Seq<PendingOpen>, reservation: u64, n: nat) -> Seq<PendingOpen>
    decreases n,
{
    if n == 0 {
        seq![]
    } else if list[n - 1].reservation == reservation {
        pending_without(list, reservation, (n - 1) as nat)
    } else {
        pending_without(list, reservation, (n - 1) as nat).push(list[n - 1])
    }
}

impl FileState {
    /// A file without opens and locks.
    pub fn new() -> (state: FileState)
        ensures
            state@ == no_state(),
    {
        let state = FileState { shares: Vec::new(), locks: Vec::new(), pending_opens: Vec::new() };
        assert(state@ =~= no_state());
        state
    }

    /// Whether the file has neither opens nor locks.
    pub fn is_empty(&self) -> (empty: bool)
        ensures
            empty == self@.vacant(),
    {
        self.shares.len() == 0 && self.locks.len() == 0 && self.pending_opens.len() == 0
    }

    /// Drops a pending open.
    pub fn remove_pending(&mut self, reservation: u64)
        ensures
            final(self)@ == (FileView {
                pending_opens: pending_without(
                    old(self)@.pending_opens,
                    reservation,
                    old(self)@.pending_opens.len(),
                ),
                ..old(self)@
            }),
    {
        let mut left: Vec<PendingOpen> = Vec::new();
        let mut i: usize = 0;
        while i < self.pending_opens.len()
            invariant
                i <= self.pending_opens@.len(),
                left@ == pending_without(self.pending_opens@, reservation, i as nat),
                self.pending_opens@ == old(self)@.pending_opens,
                self.shares@ == old(self)@.shares,
                self.locks@ == old(self)@.locks,
            decreases self.pending_opens@.len() - i,
        {
            if self.pending_opens[i].reservation != reservation {
                left.push(self.pending_opens[i].copy());
            }
            i += 1;
        }
        self.pending_opens = left;
    }

    /// Drops what belongs to a client.
    pub fn release_client(&mut self, client_id: u64)
        ensures
            final(self)@ == old(self)@.without(client_id),
    {
        let ghost before = self@;
        release_shares(&mut self.shares, client_id);
        release_locks(&mut self.locks, client_id);
        let mut left: Vec<PendingOpen> = Vec::new();
        let mut i: usize = 0;
        while i < self.pending_opens.len()
            invariant
                i <= self.pending_opens@.len(),
                left@ == pending_without_client(self.pending_opens@, client_id, i as nat),
                self.pending_opens@ == before.pending_opens,
                self.shares@ == before.without(client_id).shares,
                self.locks@ == before.without(client_id).locks,
            decreases self.pending_opens@.len() - i,
        {
            if self.pending_opens[i].owner.client_id != client_id {
                left.push(self.pending_opens[i].copy());
            }
            i += 1;
        }
        self.pending_opens = left;
    }
}

/// The files that have opens or locks.
pub struct FileTable {
    pub files: ByteMap<FileState>,
}

/// What the files of a table stand for.
pub open spec fn file_views(files: Map<Seq<u8>, FileState>) -> Map<Seq<u8>, FileView> {
    files.map_values(|file: FileState| file@)
}

impl View for FileTable {
    type V = Map<Seq<u8>, FileView>;

    open spec fn view(&self) -> Map<Seq<u8>, FileView> {
        file_views(self.files@)
    }
}

/// The opens and the locks of a file.
pub open spec fn file_at(files: Map<Seq<u8>, FileView>, file: RuntimeFile) -> FileView {
    if files.contains_key(file_place(file)) {
        files[file_place(file)]
    } else {
        no_state()
    }
}

/// The files with other opens and locks of one; a file without any is not kept.
pub open spec fn filed(files: Map<Seq<u8>, FileView>, file: RuntimeFile, state: FileView) -> Map<Seq<u8>, FileView> {
    if state.vacant() {
        files.remove(file_place(file))
    } else {
        files.insert(file_place(file), state)
    }
}

/// The files without what belongs to a client.
pub open spec fn files_without(files: Map<Seq<u8>, FileView>, client_id: u64) -> Map<Seq<u8>, FileView> {
    Map::new(
        |place: Seq<u8>| files.contains_key(place) && !files[place].without(client_id).vacant(),
        |place: Seq<u8>| files[place].without(client_id),
    )
}

impl FileTable {
    /// A table without files.
    pub fn new() -> (table: FileTable)
        ensures
            table@ == Map::<Seq<u8>, FileView>::empty(),
    {
        let table = FileTable { files: ByteMap::new() };
        assert(table@ =~= Map::<Seq<u8>, FileView>::empty());
        table
    }

    /// The opens and the locks of a file, where it has any.
    pub fn get(&self, file: RuntimeFile) -> (state: Option<&FileState>)
        ensures
            match state {
                Some(s) => self@.contains_key(file_place(file)) && s@ == self@[file_place(file)],
                None => !self@.contains_key(file_place(file)),
            },
    {
        let place = file.place();
        self.files.get(place.as_slice())
    }

    /// Takes the opens and the locks of a file out.
    pub fn take(&mut self, file: RuntimeFile) -> (state: FileState)
        ensures
            state@ == file_at(old(self)@, file),
            final(self)@ == old(self)@.remove(file_place(file)),
    {
        let ghost before = self@;
        let place = file.place();
        let found = self.files.remove(place.as_slice());
        assert(self@ =~= before.remove(file_place(file)));
        match found {
            Some(state) => state,
            None => FileState::new(),
        }
    }

    /// Puts the opens and the locks of a file in.
    pub fn put(&mut self, file: RuntimeFile, state: FileState)
        ensures
            final(self)@ == old(self)@.insert(file_place(file), state@),
    {
        let ghost before = self@;
        let _ = self.files.insert(file.place(), state);
        assert(self@ =~= before.insert(file_place(file), state@));
    }

    /// Drops a pending open of a file.
    pub fn remove_pending(&mut self, file: RuntimeFile, reservation: u64)
        ensures
            final(self)@ == pending_dropped(old(self)@, file, reservation),
    {
        let ghost before = self@;
        if self.get(file).is_none() {
            return;
        }
        let mut state = self.take(file);
        state.remove_pending(reservation);
        if !state.is_empty() {
            self.put(file, state);
        }
        assert(self@ =~= pending_dropped(before, file, reservation));
    }

    /// Drops what belongs to a client.
    pub fn release_client(&mut self, client_id: u64)
        ensures
            final(self)@ == files_without(old(self)@, client_id),
    {
        let ghost before = self@;
        self.files.order_known();
        let ghost keys = self.files.keys();
        let mut places: Vec<Vec<u8>> = Vec::new();
        let total = self.files.len();
        let mut i: usize = 0;
        while i < total
            invariant
                i <= total,
                total == keys.len(),
                keys == self.files.keys(),
                self@ == before,
                places@.len() == i,
                forall|j: int| 0 <= j < i ==> (#[trigger] places@[j])@ == keys[j],
            decreases total - i,
        {
            places.push(copy_bytes(self.files.key_at(i).as_slice()));
            i += 1;
        }
        let mut i: usize = 0;
        while i < places.len()
            invariant
                i <= places@.len(),
                places@.len() == keys.len(),
                keys.no_duplicates(),
                forall|j: int| 0 <= j < keys.len() ==> (#[trigger] places@[j])@ == keys[j],
                forall|j: int| 0 <= j < keys.len() ==> before.contains_key(#[trigger] keys[j]),
                forall|k: Seq<u8>| #[trigger] before.contains_key(k) ==> keys.contains(k),
                forall|k: Seq<u8>| #[trigger]
                    self@.contains_key(k) == (before.contains_key(k) && (keys.index_of(k) < i ==> !before[k].without(
                        client_id,
                    ).vacant())),
                forall|k: Seq<u8>| #[trigger]
                    self@.contains_key(k) ==> self@[k] == if keys.index_of(k) < i {
                        before[k].without(client_id)
                    } else {
                        before[k]
                    },
            decreases places@.len() - i,
        {
            let ghost now = self@;
            let ghost key = keys[i as int];
            assert(keys.contains(key) && keys.index_of(key) == i);
            assert(now.contains_key(key));
            let found = self.files.remove(places[i].as_slice());
            assert(self@ =~= now.remove(key));
            if let Some(state) = found {
                let mut state = state;
                state.release_client(client_id);
                if !state.is_empty() {
                    let ghost held = self@;
                    let _ = self.files.insert(copy_bytes(places[i].as_slice()), state);
                    assert(self@ =~= held.insert(key, state@));
                }
            }
            assert forall|k: Seq<u8>| #[trigger] self@.contains_key(k) == (before.contains_key(k) && (keys.index_of(k) < i
                + 1 ==> !before[k].without(client_id).vacant())) by {
                if k != key && before.contains_key(k) {
                    assert(keys.contains(k));
                    assert(keys.index_of(k) != i);
                }
                assert(now.contains_key(k) == now.contains_key(k));
            }
            assert forall|k: Seq<u8>| #[trigger] self@.contains_key(k) implies self@[k] == if keys.index_of(k) < i + 1 {
                before[k].without(client_id)
            } else {
                before[k]
            } by {
                assert(now.contains_key(k));
                if k != key {
                    assert(keys.contains(k));
                    assert(keys.index_of(k) != i);
                }
            }
            i += 1;
        }
        proof {
            assert forall|k: Seq<u8>| self@.contains_key(k) == files_without(before, client_id).contains_key(k) by {
                assert(self@.contains_key(k) == self@.contains_key(k));
                if before.contains_key(k) {
                    assert(keys.contains(k));
                }
            }
            assert(self@ =~= files_without(before, client_id));
        }
    }
}

/// The files once a pending open of one is dropped.
pub open spec fn pending_dropped(files: Map<Seq<u8>, FileView>, file: RuntimeFile, reservation: u64) -> Map<
    Seq<u8>,
    FileView,
> {
    if files.contains_key(file_place(file)) {
        let state = files[file_place(file)];
        filed(
            files,
            file,
            FileView {
                pending_opens: pending_without(state.pending_opens, reservation, state.pending_opens.len()),
                ..state
            },
        )
    } else {
        files
    }
}

/// A share, a pending open or a lock of another client stands against a delegation, and so does one of the same
/// client that writes, where the delegation is one to read.
pub open spec fn delegation_safe(state: FileView, client_id: u64, writes: bool) -> bool {
    &&& forall|i: int|
        0 <= i < state.shares.len() ==> (#[trigger] state.shares[i]).owner.client_id == client_id && (writes
            || !state.shares[i].access.write)
    &&& forall|i: int|
        0 <= i < state.pending_opens.len() ==> (#[trigger] state.pending_opens[i]).owner.client_id == client_id && (
        writes || !state.pending_opens[i].access.write)
    &&& forall|i: int|
        0 <= i < state.locks.len() ==> (#[trigger] state.locks[i]).owner.owner.client_id == client_id && (writes
            || state.locks[i].access != LockAccess::Write)
}

impl FileState {
    /// Whether nothing of the file stands against a delegation.
    pub fn delegation_share_eligible(&self, client_id: u64, writes: bool) -> (safe: bool)
        ensures
            safe == delegation_safe(self@, client_id, writes),
    {
        let mut i: usize = 0;
        while i < self.shares.len()
            invariant
                i <= self.shares@.len(),
                forall|j: int|
                    0 <= j < i ==> (#[trigger] self.shares@[j]).owner.client_id == client_id && (writes
                        || !self.shares@[j].access.write),
            decreases self.shares@.len() - i,
        {
            if self.shares[i].owner.client_id != client_id || (!writes && self.shares[i].access.write) {
                assert(self@.shares[i as int] == self.shares@[i as int]);
                assert(!delegation_safe(self@, client_id, writes));
                return false;
            }
            i += 1;
        }
        let mut i: usize = 0;
        while i < self.pending_opens.len()
            invariant
                i <= self.pending_opens@.len(),
                forall|j: int|
                    0 <= j < i ==> (#[trigger] self.pending_opens@[j]).owner.client_id == client_id && (writes
                        || !self.pending_opens@[j].access.write),
            decreases self.pending_opens@.len() - i,
        {
            if self.pending_opens[i].owner.client_id != client_id || (!writes && self.pending_opens[i].access.write) {
                assert(self@.pending_opens[i as int] == self.pending_opens@[i as int]);
                assert(!delegation_safe(self@, client_id, writes));
                return false;
            }
            i += 1;
        }
        let mut i: usize = 0;
        while i < self.locks.len()
            invariant
                i <= self.locks@.len(),
                forall|j: int|
                    0 <= j < i ==> (#[trigger] self.locks@[j]).owner.owner.client_id == client_id && (writes
                        || self.locks@[j].access != LockAccess::Write),
            decreases self.locks@.len() - i,
        {
            if self.locks[i].owner.owner.client_id != client_id || (!writes && self.locks[i].access
                == LockAccess::Write) {
                assert(self@.locks[i as int] == self.locks@[i as int]);
                assert(!delegation_safe(self@, client_id, writes));
                return false;
            }
            i += 1;
        }
        true
    }
}

} // verus!
