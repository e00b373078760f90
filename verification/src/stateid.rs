//! The table of state objects: which state ids are alive, what they stand for, and how they end.

use vstd::prelude::*;

use crate::bytes::array_equal;
use crate::codec::{be32, from_be32, lemma_be32};
use crate::protocol::{NfsStatus, OwnerKey, RuntimeFile, StateId};
use crate::share::{ShareAccess, ShareContributions, ShareDeny};

verus! {

/// What a state object is.
#[derive(Clone, Copy, Debug, PartialEq, Eq, Structural)]
pub enum StateKind {
    Open,
    ByteRangeLock,
}

/// How a state object ended.
#[derive(Clone, Copy, Debug, PartialEq, Eq, Structural)]
pub enum StateDisposition {
    Closed,
    LeaseExpired,
    AdminRevoked,
}

/// Why a state id is refused.
#[derive(Clone, Copy, Debug, PartialEq, Eq, Structural)]
pub enum StateIdValidationError {
    BadStateId,
    StaleStateId,
    OldStateId,
    Expired,
    AdminRevoked,
}

/// The status that a client is told.
pub open spec fn stateid_status(error: StateIdValidationError) -> NfsStatus {
    match error {
        StateIdValidationError::BadStateId => NfsStatus::BadStateId,
        StateIdValidationError::StaleStateId => NfsStatus::StaleStateId,
        StateIdValidationError::OldStateId => NfsStatus::OldStateId,
        StateIdValidationError::Expired => NfsStatus::Expired,
        StateIdValidationError::AdminRevoked => NfsStatus::AdminRevoked,
    }
}

/// The status that a client is told.
pub fn map_stateid_error(error: StateIdValidationError) -> (status: NfsStatus)
    ensures
        status == stateid_status(error),
{
    match error {
        StateIdValidationError::BadStateId => NfsStatus::BadStateId,
        StateIdValidationError::StaleStateId => NfsStatus::StaleStateId,
        StateIdValidationError::OldStateId => NfsStatus::OldStateId,
        StateIdValidationError::Expired => NfsStatus::Expired,
        StateIdValidationError::AdminRevoked => NfsStatus::AdminRevoked,
    }
}

/// An open of a file by an owner.
pub struct OpenState {
    pub owner: OwnerKey,
    pub access: ShareAccess,
    pub deny: ShareDeny,
    pub contributions: ShareContributions,
    pub confirmed: bool,
    pub pin: [u8; 16],
}

/// The byte-range locks of an owner through one open.
pub struct ByteRangeLockState {
    pub owner: OwnerKey,
    pub open_state_id: StateId,
}

/// What a state object holds.
pub enum StatePayload {
    Open(OpenState),
    Lock(ByteRangeLockState),
}

/// What a state object is.
pub open spec fn kind_of(payload: StatePayload) -> StateKind {
    match payload {
        StatePayload::Open(_) => StateKind::Open,
        StatePayload::Lock(_) => StateKind::ByteRangeLock,
    }
}

/// A state object.
pub struct StateRecord {
    pub sequence_id: u32,
    pub client: u64,
    pub file: RuntimeFile,
    pub payload: StatePayload,
}

impl StatePayload {
    /// The same payload again.
    pub fn copy(&self) -> (copy: Self)
        ensures
            copy == *self,
    {
        match self {
            StatePayload::Open(open) => StatePayload::Open(
                OpenState {
                    owner: open.owner.copy(),
                    access: open.access,
                    deny: open.deny,
                    contributions: open.contributions,
                    confirmed: open.confirmed,
                    pin: open.pin,
                },
            ),
            StatePayload::Lock(lock) => StatePayload::Lock(
                ByteRangeLockState { owner: lock.owner.copy(), open_state_id: lock.open_state_id },
            ),
        }
    }

    /// What the state object is.
    pub fn kind(&self) -> (kind: StateKind)
        ensures
            kind == kind_of(*self),
    {
        match self {
            StatePayload::Open(_) => StateKind::Open,
            StatePayload::Lock(_) => StateKind::ByteRangeLock,
        }
    }
}

impl StateRecord {
    /// The same record again.
    pub fn copy(&self) -> (copy: Self)
        ensures
            copy == *self,
    {
        StateRecord {
            sequence_id: self.sequence_id,
            client: self.client,
            file: self.file,
            payload: self.payload.copy(),
        }
    }
}

/// The life of a slot of the table.
pub enum SlotState {
    Retired(StateDisposition),
    Pending(StateRecord),
    Active(StateRecord),
}

/// A slot of the table; each use of it has a generation of its own.
pub struct Slot {
    pub generation: u32,
    pub state: SlotState,
}

/// The table of state objects.
pub struct StateIdTable {
    pub boot_tag: u32,
    pub capacity: usize,
    pub slots: Vec<Slot>,
}

/// What a table of state objects stands for.
#[verifier::ext_equal]
pub struct TableView {
    pub boot_tag: u32,
    pub capacity: usize,
    pub slots: Seq<Slot>,
}

impl View for StateIdTable {
    type V = TableView;

    open spec fn view(&self) -> TableView {
        TableView { boot_tag: self.boot_tag, capacity: self.capacity, slots: self.slots@ }
    }
}

/// The identity of a state object: the run, the slot and the generation of the slot.
pub open spec fn identity_bytes(boot_tag: u32, slot: u32, generation: u32) -> Seq<u8> {
    be32(boot_tag) + (be32(slot) + be32(generation))
}

/// The identities are distinct.
pub proof fn lemma_identity(boot_tag: u32, slot: u32, generation: u32)
    ensures
        identity_bytes(boot_tag, slot, generation).len() == 12,
        from_be32(identity_bytes(boot_tag, slot, generation).take(4)) == boot_tag,
        from_be32(identity_bytes(boot_tag, slot, generation).subrange(4, 8)) == slot,
        from_be32(identity_bytes(boot_tag, slot, generation).skip(8)) == generation,
{
    lemma_be32(boot_tag, seq![]);
    lemma_be32(slot, seq![]);
    lemma_be32(generation, seq![]);
    let s = identity_bytes(boot_tag, slot, generation);
    assert(s.take(4) =~= be32(boot_tag));
    assert(s.subrange(4, 8) =~= be32(slot));
    assert(s.skip(8) =~= be32(generation));
}

/// All bytes of an identity are that one.
pub open spec fn uniform(other: Seq<u8>, byte: u8) -> bool {
    other == Seq::new(12, |i: int| byte)
}

/// Whether all bytes of an identity are that one.
pub fn is_uniform(other: &[u8; 12], byte: u8) -> (same: bool)
    ensures
        same == uniform(other@, byte),
{
    let all = [byte; 12];
    assert(all@ =~= Seq::new(12, |i: int| byte));
    array_equal(other, &all)
}

/// How many of the first `n` slots are taken.
pub open spec fn taken(slots: Seq<Slot>, n: nat) -> nat
    decreases n,
{
    if n == 0 {
        0
    } else if slots[n - 1].state is Retired {
        taken(slots, (n - 1) as nat)
    } else {
        taken(slots, (n - 1) as nat) + 1
    }
}

/// The first of `n` slots that can be used again.
pub open spec fn reusable(slots: Seq<Slot>, n: nat) -> Option<int>
    decreases n,
{
    if n == 0 {
        None
    } else if reusable(slots, (n - 1) as nat) is Some {
        reusable(slots, (n - 1) as nat)
    } else if slots[n - 1].state is Retired && slots[n - 1].generation < u32::MAX {
        Some(n - 1)
    } else {
        None
    }
}

/// The sequence number of a state id after another one; no state id has the number zero.
pub open spec fn stateid_after(sequence_id: u32) -> u32 {
    if sequence_id == u32::MAX {
        1
    } else {
        (sequence_id + 1) as u32
    }
}

/// A state id that stands for something.
pub enum StateIdValidation {
    Anonymous,
    ReadBypass,
    Active(StateRecord),
}

impl TableView {
    /// The number of state objects.
    pub open spec fn count(self) -> nat {
        taken(self.slots, self.slots.len())
    }

    /// The slot that an identity names, whatever its life.
    pub open spec fn slot_of(self, other: Seq<u8>) -> Result<int, StateIdValidationError> {
        if uniform(other, 0) || uniform(other, 0xff) {
            Err(StateIdValidationError::BadStateId)
        } else if from_be32(other.take(4)) != self.boot_tag {
            Err(StateIdValidationError::StaleStateId)
        } else if from_be32(other.subrange(4, 8)) >= self.slots.len() {
            Err(StateIdValidationError::BadStateId)
        } else if self.slots[from_be32(other.subrange(4, 8)) as int].generation != from_be32(other.skip(8)) {
            Err(StateIdValidationError::BadStateId)
        } else {
            Ok(from_be32(other.subrange(4, 8)) as int)
        }
    }

    /// The state object that an identity names.
    pub open spec fn identified(self, other: Seq<u8>) -> Result<StateRecord, StateIdValidationError> {
        match self.slot_of(other) {
            Err(e) => Err(e),
            Ok(i) => match self.slots[i].state {
                SlotState::Active(record) => Ok(record),
                SlotState::Pending(_) => Err(StateIdValidationError::BadStateId),
                SlotState::Retired(StateDisposition::Closed) => Err(StateIdValidationError::BadStateId),
                SlotState::Retired(StateDisposition::LeaseExpired) => Err(StateIdValidationError::Expired),
                SlotState::Retired(StateDisposition::AdminRevoked) => Err(StateIdValidationError::AdminRevoked),
            },
        }
    }

    /// What a state id stands for, for a file and for the given kinds of state.
    pub open spec fn validated(self, state_id: StateId, file: RuntimeFile, opens: bool, locks: bool) -> Result<
        StateIdValidation,
        StateIdValidationError,
    > {
        if uniform(state_id.other@, 0) {
            if state_id.sequence_id == 0 {
                Ok(StateIdValidation::Anonymous)
            } else {
                Err(StateIdValidationError::BadStateId)
            }
        } else if uniform(state_id.other@, 0xff) {
            if state_id.sequence_id == u32::MAX {
                Ok(StateIdValidation::ReadBypass)
            } else {
                Err(StateIdValidationError::BadStateId)
            }
        } else {
            match self.identified(state_id.other@) {
                Err(e) => Err(e),
                Ok(record) => if record.file != file || !(if kind_of(record.payload) == StateKind::Open {
                    opens
                } else {
                    locks
                }) {
                    Err(StateIdValidationError::BadStateId)
                } else if state_id.sequence_id < record.sequence_id {
                    Err(StateIdValidationError::OldStateId)
                } else if state_id.sequence_id > record.sequence_id {
                    Err(StateIdValidationError::BadStateId)
                } else {
                    Ok(StateIdValidation::Active(record))
                },
            }
        }
    }

    /// The state id that comes after another one.
    pub open spec fn previewed(self, state_id: StateId) -> Result<StateId, StateIdValidationError> {
        match self.identified(state_id.other@) {
            Err(e) => Err(e),
            Ok(record) => if state_id.sequence_id < record.sequence_id {
                Err(StateIdValidationError::OldStateId)
            } else if state_id.sequence_id > record.sequence_id {
                Err(StateIdValidationError::BadStateId)
            } else {
                Ok(StateId { sequence_id: stateid_after(record.sequence_id), other: state_id.other })
            },
        }
    }

    /// The table with another record behind an identity.
    pub open spec fn replaced(self, other: Seq<u8>, record: StateRecord) -> TableView {
        match self.slot_of(other) {
            Err(_) => self,
            Ok(i) => TableView {
                slots: self.slots.update(
                    i,
                    Slot { generation: self.slots[i].generation, state: SlotState::Active(record) },
                ),
                ..self
            },
        }
    }

    /// The table once the state object has its next state id.
    pub open spec fn transitioned(self, state_id: StateId) -> TableView {
        let record = self.identified(state_id.other@)->Ok_0;
        self.replaced(
            state_id.other@,
            StateRecord { sequence_id: stateid_after(record.sequence_id), ..record },
        )
    }

    /// The table once the state object has ended, where it lives.
    pub open spec fn retired(self, other: Seq<u8>, disposition: StateDisposition) -> TableView {
        match self.slot_of(other) {
            Err(_) => self,
            Ok(i) => if self.slots[i].state is Retired {
                self
            } else {
                TableView {
                    slots: self.slots.update(
                        i,
                        Slot { generation: self.slots[i].generation, state: SlotState::Retired(disposition) },
                    ),
                    ..self
                }
            },
        }
    }

    /// The state object that is named lives, or is about to.
    pub open spec fn lives(self, other: Seq<u8>) -> bool {
        self.slot_of(other) matches Ok(i) && !(self.slots[i].state is Retired)
    }

    /// The state object that is named is about to live.
    pub open spec fn waits(self, other: Seq<u8>) -> bool {
        self.slot_of(other) matches Ok(i) && self.slots[i].state is Pending
    }

    /// The table once the state object that is about to live does.
    pub open spec fn activated(self, other: Seq<u8>) -> TableView {
        match self.slot_of(other) {
            Err(_) => self,
            Ok(i) => match self.slots[i].state {
                SlotState::Pending(record) => TableView {
                    slots: self.slots.update(
                        i,
                        Slot { generation: self.slots[i].generation, state: SlotState::Active(record) },
                    ),
                    ..self
                },
                _ => self,
            },
        }
    }

    /// The slot and the generation for a new state object, where there is room.
    pub open spec fn room(self) -> Option<(int, u32)> {
        if self.count() >= self.capacity {
            None
        } else {
            match reusable(self.slots, self.slots.len()) {
                Some(i) => if i <= u32::MAX {
                    Some((i, (self.slots[i].generation + 1) as u32))
                } else {
                    None
                },
                None => if self.slots.len() < self.capacity && self.slots.len() < u32::MAX {
                    Some((self.slots.len() as int, 1u32))
                } else {
                    None
                },
            }
        }
    }

    /// The table with a new state object that is about to live.
    pub open spec fn allocated(self, client: u64, file: RuntimeFile, payload: StatePayload) -> TableView {
        let (i, generation) = self.room()->0;
        let slot = Slot {
            generation,
            state: SlotState::Pending(StateRecord { sequence_id: 1, client, file, payload }),
        };
        TableView {
            slots: if i < self.slots.len() {
                self.slots.update(i, slot)
            } else {
                self.slots.push(slot)
            },
            ..self
        }
    }

    /// The state id of a new state object.
    pub open spec fn allocated_id(self, state_id: StateId) -> bool {
        let (i, generation) = self.room()->0;
        state_id.sequence_id == 1 && state_id.other@ == identity_bytes(self.boot_tag, i as u32, generation)
    }
}

/// The slots with those of a client ended, among the first `n`.
pub open spec fn client_retired(slots: Seq<Slot>, client: u64, disposition: StateDisposition, n: nat) -> Seq<Slot>
    decreases n,
{
    if n == 0 {
        seq![]
    } else {
        client_retired(slots, client, disposition, (n - 1) as nat).push(
            if slot_client(slots[n - 1]) == Some(client) {
                Slot { generation: slots[n - 1].generation, state: SlotState::Retired(disposition) }
            } else {
                slots[n - 1]
            },
        )
    }
}

/// The client of the state object in a slot.
pub open spec fn slot_client(slot: Slot) -> Option<u64> {
    match slot.state {
        SlotState::Retired(_) => None,
        SlotState::Pending(record) => Some(record.client),
        SlotState::Active(record) => Some(record.client),
    }
}

/// A state object of a client, with its state id.
pub struct ActiveState {
    pub state_id: StateId,
    pub file: RuntimeFile,
    pub payload: StatePayload,
}

/// A state object of a client, by its slot.
#[verifier::ext_equal]
pub struct ActiveView {
    pub sequence_id: u32,
    pub other: Seq<u8>,
    pub file: RuntimeFile,
    pub payload: StatePayload,
}

impl View for ActiveState {
    type V = ActiveView;

    open spec fn view(&self) -> ActiveView {
        ActiveView {
            sequence_id: self.state_id.sequence_id,
            other: self.state_id.other@,
            file: self.file,
            payload: self.payload,
        }
    }
}

/// What the state objects of a list stand for.
pub open spec fn active_views(list: Seq<ActiveState>) -> Seq<ActiveView> {
    Seq::new(list.len(), |i: int| list[i]@)
}

/// The living state objects of a client, among the first `n` slots.
pub open spec fn client_states(boot_tag: u32, slots: Seq<Slot>, client: u64, n: nat) -> Seq<ActiveView>
    decreases n,
{
    if n == 0 {
        seq![]
    } else {
        let done = client_states(boot_tag, slots, client, (n - 1) as nat);
        match slots[n - 1].state {
            SlotState::Active(record) => if record.client == client {
                done.push(
                    ActiveView {
                        sequence_id: record.sequence_id,
                        other: identity_bytes(boot_tag, (n - 1) as u32, slots[n - 1].generation),
                        file: record.file,
                        payload: record.payload,
                    },
                )
            } else {
                done
            },
            _ => done,
        }
    }
}

/// The identity of a slot's use.
fn identity(boot_tag: u32, slot: u32, generation: u32) -> (other: [u8; 12])
    ensures
        other@ == identity_bytes(boot_tag, slot, generation),
{
    let other = [
        (boot_tag >> 24) as u8,
        (boot_tag >> 16) as u8,
        (boot_tag >> 8) as u8,
        boot_tag as u8,
        (slot >> 24) as u8,
        (slot >> 16) as u8,
        (slot >> 8) as u8,
        slot as u8,
        (generation >> 24) as u8,
        (generation >> 16) as u8,
        (generation >> 8) as u8,
        generation as u8,
    ];
    assert(other@ =~= identity_bytes(boot_tag, slot, generation));
    other
}

/// The number in four bytes of an identity.
fn number_at(other: &[u8; 12], at: usize) -> (value: u32)
    requires
        at <= 8,
    ensures
        value == from_be32(other@.subrange(at as int, at + 4)),
{
    ((other[at] as u32) << 24) | ((other[at + 1] as u32) << 16) | ((other[at + 2] as u32) << 8) | (other[at + 3] as u32)
}

impl StateIdTable {
    /// A table for the state objects of one run. The run's tag must tell the identities apart from the special
    /// ones.
    pub fn with_boot_tag(capacity: usize, boot_tag: u32) -> (table: Option<StateIdTable>)
        ensures
            if capacity == 0 || boot_tag == 0 || boot_tag == u32::MAX {
                table is None
            } else {
                table is Some && table->0@ == (TableView { boot_tag, capacity, slots: seq![] })
            },
    {
        if capacity == 0 || boot_tag == 0 || boot_tag == u32::MAX {
            return None;
        }
        Some(StateIdTable { boot_tag, capacity, slots: Vec::new() })
    }

    /// The number of state objects.
    pub fn len(&self) -> (count: usize)
        ensures
            count == self@.count(),
    {
        let mut count: usize = 0;
        let mut i: usize = 0;
        while i < self.slots.len()
            invariant
                i <= self.slots@.len(),
                count == taken(self.slots@, i as nat),
                count <= i,
            decreases self.slots@.len() - i,
        {
            match &self.slots[i].state {
                SlotState::Retired(_) => {},
                _ => {
                    count += 1;
                },
            }
            i += 1;
        }
        count
    }

    /// The slot that an identity names, whatever its life.
    fn locate(&self, other: &[u8; 12]) -> (at: Result<usize, StateIdValidationError>)
        ensures
            match at {
                Ok(i) => self@.slot_of(other@) == Ok::<int, StateIdValidationError>(i as int) && i < self.slots@.len(),
                Err(e) => self@.slot_of(other@) == Err::<int, StateIdValidationError>(e),
            },
    {
        if is_uniform(other, 0) || is_uniform(other, 0xff) {
            return Err(StateIdValidationError::BadStateId);
        }
        let boot_tag = number_at(other, 0);
        let slot = number_at(other, 4);
        let generation = number_at(other, 8);
        assert(other@.subrange(0, 4) =~= other@.take(4));
        assert(other@.subrange(8, 12) =~= other@.skip(8));
        if boot_tag != self.boot_tag {
            return Err(StateIdValidationError::StaleStateId);
        }
        if slot as usize >= self.slots.len() {
            return Err(StateIdValidationError::BadStateId);
        }
        if self.slots[slot as usize].generation != generation {
            return Err(StateIdValidationError::BadStateId);
        }
        Ok(slot as usize)
    }

    /// The state object that a state id names, whatever its sequence number.
    pub fn identify(&self, state_id: StateId) -> (record: Result<StateRecord, StateIdValidationError>)
        ensures
            record == self@.identified(state_id.other@),
    {
        let at = self.locate(&state_id.other)?;
        match &self.slots[at].state {
            SlotState::Active(record) => Ok(record.copy()),
            SlotState::Pending(_) => Err(StateIdValidationError::BadStateId),
            SlotState::Retired(disposition) => match *disposition {
                StateDisposition::Closed => Err(StateIdValidationError::BadStateId),
                StateDisposition::LeaseExpired => Err(StateIdValidationError::Expired),
                StateDisposition::AdminRevoked => Err(StateIdValidationError::AdminRevoked),
            },
        }
    }

    /// What a state id stands for, for a file and for the given kinds of state.
    pub fn validate(&self, state_id: StateId, file: RuntimeFile, opens: bool, locks: bool) -> (validation: Result<
        StateIdValidation,
        StateIdValidationError,
    >)
        ensures
            validation == self@.validated(state_id, file, opens, locks),
    {
        if is_uniform(&state_id.other, 0) {
            return if state_id.sequence_id == 0 {
                Ok(StateIdValidation::Anonymous)
            } else {
                Err(StateIdValidationError::BadStateId)
            };
        }
        if is_uniform(&state_id.other, 0xff) {
            return if state_id.sequence_id == u32::MAX {
                Ok(StateIdValidation::ReadBypass)
            } else {
                Err(StateIdValidationError::BadStateId)
            };
        }
        let record = self.identify(state_id)?;
        let wanted = match record.payload.kind() {
            StateKind::Open => opens,
            StateKind::ByteRangeLock => locks,
        };
        if record.file != file || !wanted {
            return Err(StateIdValidationError::BadStateId);
        }
        if state_id.sequence_id < record.sequence_id {
            return Err(StateIdValidationError::OldStateId);
        }
        if state_id.sequence_id > record.sequence_id {
            return Err(StateIdValidationError::BadStateId);
        }
        Ok(StateIdValidation::Active(record))
    }

    /// The state id that comes after another one.
    pub fn preview_transition(&self, state_id: StateId) -> (next: Result<StateId, StateIdValidationError>)
        ensures
            next == self@.previewed(state_id),
    {
        let record = self.identify(state_id)?;
        if state_id.sequence_id < record.sequence_id {
            return Err(StateIdValidationError::OldStateId);
        }
        if state_id.sequence_id > record.sequence_id {
            return Err(StateIdValidationError::BadStateId);
        }
        let sequence_id: u32 = if record.sequence_id == u32::MAX {
            1
        } else {
            record.sequence_id + 1
        };
        Ok(StateId { sequence_id, other: state_id.other })
    }

    /// Gives a state object its next state id.
    pub fn transition(&mut self, state_id: StateId) -> (next: Result<StateId, StateIdValidationError>)
        ensures
            next == old(self)@.previewed(state_id),
            final(self)@ == if next is Ok {
                old(self)@.transitioned(state_id)
            } else {
                old(self)@
            },
    {
        let next = self.preview_transition(state_id)?;
        let mut record = self.identify(state_id)?;
        record.sequence_id = next.sequence_id;
        self.replace(state_id, record);
        Ok(next)
    }

    /// Puts another record behind a state id.
    pub fn replace(&mut self, state_id: StateId, record: StateRecord)
        ensures
            final(self)@ == old(self)@.replaced(state_id.other@, record),
    {
        if let Ok(at) = self.locate(&state_id.other) {
            let generation = self.slots[at].generation;
            self.slots.set(at, Slot { generation, state: SlotState::Active(record) });
        }
    }

    /// Whether there is room for a new state object.
    pub fn has_room(&self) -> (room: bool)
        ensures
            room == (self@.room() is Some),
    {
        if self.len() >= self.capacity {
            return false;
        }
        let mut i: usize = 0;
        while i < self.slots.len()
            invariant
                i <= self.slots@.len(),
                reusable(self.slots@, i as nat) is None,
                self@.count() < self@.capacity,
            decreases self.slots@.len() - i,
        {
            let free = match &self.slots[i].state {
                SlotState::Retired(_) => self.slots[i].generation < u32::MAX,
                _ => false,
            };
            if free {
                proof {
                    lemma_reusable_stays(self.slots@, (i + 1) as nat, self.slots@.len());
                }
                return i <= u32::MAX as usize;
            }
            i += 1;
        }
        self.slots.len() < self.capacity && self.slots.len() < u32::MAX as usize
    }

    /// Makes a state object that is about to live.
    pub fn allocate_pending(&mut self, client: u64, file: RuntimeFile, payload: StatePayload) -> (state_id: Option<StateId>)
        ensures
            match state_id {
                Some(id) => old(self)@.room() is Some && old(self)@.allocated_id(id) && final(self)@ == old(
                    self,
                )@.allocated(client, file, payload),
                None => old(self)@.room() is None && final(self)@ == old(self)@,
            },
    {
        if self.len() >= self.capacity {
            return None;
        }
        let record = StateRecord { sequence_id: 1, client, file, payload };
        let mut i: usize = 0;
        while i < self.slots.len()
            invariant
                i <= self.slots@.len(),
                *self == *old(self),
                reusable(self.slots@, i as nat) is None,
                self@.count() < self@.capacity,
                record == (StateRecord { sequence_id: 1, client, file, payload }),
            decreases self.slots@.len() - i,
        {
            let free = match &self.slots[i].state {
                SlotState::Retired(_) => self.slots[i].generation < u32::MAX,
                _ => false,
            };
            if free {
                proof {
                    lemma_reusable_stays(self.slots@, (i + 1) as nat, self.slots@.len());
                }
                let generation = self.slots[i].generation + 1;
                if i > u32::MAX as usize {
                    return None;
                }
                let other = identity(self.boot_tag, i as u32, generation);
                self.slots.set(i, Slot { generation, state: SlotState::Pending(record) });
                return Some(StateId { sequence_id: 1, other });
            }
            i += 1;
        }
        let at: usize = self.slots.len();
        if at >= self.capacity || at >= u32::MAX as usize {
            return None;
        }
        let other = identity(self.boot_tag, at as u32, 1);
        self.slots.push(Slot { generation: 1, state: SlotState::Pending(record) });
        Some(StateId { sequence_id: 1, other })
    }
}

/// A slot that is found stays found.
proof fn lemma_reusable_stays(slots: Seq<Slot>, n: nat, m: nat)
    requires
        n <= m,
        reusable(slots, n) is Some,
    ensures
        reusable(slots, m) == reusable(slots, n),
    decreases m - n,
{
    if n < m {
        lemma_reusable_stays(slots, n, (m - 1) as nat);
    }
}

/// What is found can be used again.
pub proof fn lemma_reusable(slots: Seq<Slot>, n: nat)
    requires
        n <= slots.len(),
    ensures
        reusable(slots, n) matches Some(i) ==> 0 <= i < n && slots[i].state is Retired && slots[i].generation < u32::MAX,
    decreases n,
{
    if n > 0 {
        lemma_reusable(slots, (n - 1) as nat);
    }
}

impl StateIdTable {
    /// Lets a state object that is about to live do so.
    pub fn activate(&mut self, state_id: StateId) -> (done: bool)
        ensures
            done == old(self)@.waits(state_id.other@),
            final(self)@ == old(self)@.activated(state_id.other@),
    {
        let at = match self.locate(&state_id.other) {
            Ok(at) => at,
            Err(_) => {
                return false;
            },
        };
        let generation = self.slots[at].generation;
        let record = match &self.slots[at].state {
            SlotState::Pending(record) => record.copy(),
            _ => {
                return false;
            },
        };
        self.slots.set(at, Slot { generation, state: SlotState::Active(record) });
        true
    }

    /// Whether a state object is about to live.
    pub fn is_waiting(&self, state_id: StateId) -> (waiting: bool)
        ensures
            waiting == self@.waits(state_id.other@),
    {
        match self.locate(&state_id.other) {
            Ok(i) => match &self.slots[i].state {
                SlotState::Pending(_) => true,
                _ => false,
            },
            Err(_) => false,
        }
    }

    /// Ends a state object.
    pub fn set_disposition(&mut self, state_id: StateId, disposition: StateDisposition) -> (done: bool)
        ensures
            done == old(self)@.lives(state_id.other@),
            final(self)@ == old(self)@.retired(state_id.other@, disposition),
    {
        let at = match self.locate(&state_id.other) {
            Ok(at) => at,
            Err(_) => {
                return false;
            },
        };
        let generation = self.slots[at].generation;
        match &self.slots[at].state {
            SlotState::Retired(_) => {
                return false;
            },
            _ => {},
        }
        self.slots.set(at, Slot { generation, state: SlotState::Retired(disposition) });
        true
    }

    /// Ends all state objects of a client.
    pub fn set_client_disposition(&mut self, client: u64, disposition: StateDisposition)
        ensures
            final(self)@ == (TableView {
                slots: client_retired(old(self)@.slots, client, disposition, old(self)@.slots.len()),
                ..old(self)@
            }),
    {
        let ghost before = self.slots@;
        let count: usize = self.slots.len();
        let mut after: Vec<Slot> = Vec::new();
        let mut i: usize = 0;
        while i < count
            invariant
                i <= count,
                count == before.len(),
                self.slots@ == before,
                *self == *old(self),
                after@ == client_retired(before, client, disposition, i as nat),
            decreases count - i,
        {
            let generation = self.slots[i].generation;
            let state = match &self.slots[i].state {
                SlotState::Retired(disposition) => SlotState::Retired(*disposition),
                SlotState::Pending(record) => if record.client == client {
                    SlotState::Retired(disposition)
                } else {
                    SlotState::Pending(record.copy())
                },
                SlotState::Active(record) => if record.client == client {
                    SlotState::Retired(disposition)
                } else {
                    SlotState::Active(record.copy())
                },
            };
            after.push(Slot { generation, state });
            i += 1;
        }
        self.slots = after;
    }

    /// The living state objects of a client, in the order of their slots.
    pub fn active_records_for_client(&self, client: u64) -> (states: Vec<ActiveState>)
        ensures
            active_views(states@) == client_states(self@.boot_tag, self@.slots, client, self@.slots.len()),
    {
        let mut states: Vec<ActiveState> = Vec::new();
        assert(active_views(states@) =~= Seq::<ActiveView>::empty());
        let mut i: usize = 0;
        while i < self.slots.len()
            invariant
                i <= self.slots@.len(),
                active_views(states@) == client_states(self.boot_tag, self.slots@, client, i as nat),
            decreases self.slots@.len() - i,
        {
            if let SlotState::Active(record) = &self.slots[i].state {
                if record.client == client {
                    let ghost before = states@;
                    let other = identity(self.boot_tag, i as u32, self.slots[i].generation);
                    let state = ActiveState {
                        state_id: StateId { sequence_id: record.sequence_id, other },
                        file: record.file,
                        payload: record.payload.copy(),
                    };
                    states.push(state);
                    assert(active_views(states@) =~= active_views(before).push(state@));
                }
            }
            i += 1;
        }
        states
    }
}

/// A new state object is named by its state id, and by no state id of a living one.
pub proof fn lemma_allocated(table: TableView, client: u64, file: RuntimeFile, payload: StatePayload, state_id: StateId)
    requires
        table.room() is Some,
        table.allocated_id(state_id),
        table.boot_tag != 0,
        table.boot_tag != u32::MAX,
    ensures
        table.allocated(client, file, payload).waits(state_id.other@),
        !table.lives(state_id.other@),
        table.allocated(client, file, payload).activated(state_id.other@).identified(state_id.other@) == Ok::<
            StateRecord,
            StateIdValidationError,
        >(StateRecord { sequence_id: 1, client, file, payload }),
{
    let (i, generation) = table.room()->0;
    lemma_identity(table.boot_tag, i as u32, generation);
    lemma_reusable(table.slots, table.slots.len());
    let other = state_id.other@;
    let zeros = Seq::new(12, |i: int| 0u8);
    let ones = Seq::new(12, |i: int| 0xffu8);
    if uniform(other, 0) {
        assert(other.take(4) =~= seq![0u8, 0u8, 0u8, 0u8]);
        lemma_be32(0, seq![]);
        assert(be32(0) =~= seq![0u8, 0u8, 0u8, 0u8]) by {
            assert((0u32 >> 24) as u8 == 0 && (0u32 >> 16) as u8 == 0 && (0u32 >> 8) as u8 == 0 && 0u32 as u8 == 0)
                by (bit_vector);
        }
    }
    if uniform(other, 0xff) {
        assert(other.take(4) =~= seq![0xffu8, 0xffu8, 0xffu8, 0xffu8]);
        lemma_be32(0xffff_ffff, seq![]);
        assert(be32(0xffff_ffff) =~= seq![0xffu8, 0xffu8, 0xffu8, 0xffu8]) by {
            assert((0xffff_ffffu32 >> 24) as u8 == 0xff && (0xffff_ffffu32 >> 16) as u8 == 0xff && (0xffff_ffffu32 >> 8)
                as u8 == 0xff && 0xffff_ffffu32 as u8 == 0xff) by (bit_vector);
        }
    }
}

/// A change of one state object leaves the others as they are.
pub proof fn lemma_others_untouched(table: TableView, other: Seq<u8>, record: StateRecord, another: Seq<u8>)
    requires
        table.slot_of(other) is Ok,
        table.slot_of(another) is Ok,
        table.slot_of(other) != table.slot_of(another),
    ensures
        table.replaced(other, record).identified(another) == table.identified(another),
        table.retired(other, StateDisposition::Closed).identified(another) == table.identified(another),
{
}

/// The old state id of a state object is refused as old once it has its next one.
pub proof fn lemma_old_refused(table: TableView, state_id: StateId, file: RuntimeFile, opens: bool, locks: bool)
    requires
        table.previewed(state_id) is Ok,
        table.validated(state_id, file, opens, locks) is Ok,
        state_id.sequence_id != u32::MAX,
    ensures
        table.transitioned(state_id).validated(state_id, file, opens, locks) == Err::<
            StateIdValidation,
            StateIdValidationError,
        >(StateIdValidationError::OldStateId),
        table.transitioned(state_id).validated(table.previewed(state_id)->Ok_0, file, opens, locks) is Ok,
{
}

} // verus!
