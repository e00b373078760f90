//! Byte-range locks: which owner holds which bytes of a file, and what stands against what.

use vstd::prelude::*;

use crate::check::{range_before, range_bounded, ranges_normalized};
use crate::protocol::{LockAccess, LockDenied, LockStateOwner, LockType};
use crate::record::LockRangeRecord;

verus! {

/// The number of bytes that a file can have.
pub open spec fn file_end() -> int {
    0x1_0000_0000_0000_0000
}

/// Bytes of a file, up to but not with the end; without an end, all of them.
#[derive(Clone, Copy, Debug, PartialEq, Eq, Structural)]
pub struct LockRange {
    pub start: u64,
    pub end: Option<u64>,
}

impl LockRange {
    /// The first byte behind the range.
    pub open spec fn stop(self) -> int {
        match self.end {
            Some(end) => end as int,
            None => file_end(),
        }
    }

    /// The range holds a byte.
    pub open spec fn solid(self) -> bool {
        self.start < self.stop()
    }

    /// The byte is in the range.
    pub open spec fn has(self, byte: int) -> bool {
        self.start <= byte < self.stop()
    }
}

/// The range that an offset and a length of the wire stand for: a length of all ones is a range without end.
pub open spec fn wire_range(offset: u64, length: u64) -> Option<LockRange> {
    if length == 0 {
        None
    } else if length == u64::MAX {
        Some(LockRange { start: offset, end: None })
    } else if offset + length > u64::MAX {
        None
    } else {
        Some(LockRange { start: offset, end: Some((offset + length) as u64) })
    }
}

impl LockRange {
    /// The range that an offset and a length of the wire stand for.
    pub fn from_offset_length(offset: u64, length: u64) -> (range: Option<LockRange>)
        ensures
            range == wire_range(offset, length),
            range is Some ==> range->0.solid(),
    {
        if length == 0 {
            return None;
        }
        if length == u64::MAX {
            return Some(LockRange { start: offset, end: None });
        }
        match offset.checked_add(length) {
            Some(end) => Some(LockRange { start: offset, end: Some(end) }),
            None => None,
        }
    }

    /// Whether two ranges share a byte.
    pub fn overlaps(&self, with: &LockRange) -> (shared: bool)
        ensures
            shared == ranges_overlap(*self, *with),
    {
        let before = match self.end {
            Some(end) => end <= with.start,
            None => false,
        };
        let behind = match with.end {
            Some(end) => end <= self.start,
            None => false,
        };
        !before && !behind
    }
}

/// Two ranges reach into each other.
pub open spec fn ranges_overlap(a: LockRange, b: LockRange) -> bool {
    a.start < b.stop() && b.start < a.stop()
}

/// A range that one owner has locked.
#[derive(Clone, Copy, Debug, PartialEq, Eq, Structural)]
pub struct Piece {
    pub access: LockAccess,
    pub range: LockRange,
}

/// The pieces of an owner are in order, apart, and merged where they could be.
pub open spec fn pieces_normal(pieces: Seq<Piece>) -> bool {
    &&& forall|i: int| 0 <= i < pieces.len() ==> (#[trigger] pieces[i]).range.solid()
    &&& forall|i: int, j: int|
        0 <= i < j < pieces.len() ==> (#[trigger] pieces[i]).range.stop() <= (#[trigger] pieces[j]).range.start
    &&& forall|i: int| 0 < i < pieces.len() ==> #[trigger] merged_at(pieces, i)
}

/// A piece does not go on where the one before it ended.
pub open spec fn merged_at(pieces: Seq<Piece>, i: int) -> bool {
    pieces[i - 1].range.stop() < pieces[i].range.start || pieces[i - 1].access != pieces[i].access
}

/// A piece holds the byte with that access.
pub open spec fn piece_holds(piece: Piece, byte: int, access: LockAccess) -> bool {
    piece.range.has(byte) && piece.access == access
}

/// The owner holds the byte with that access.
pub open spec fn holds(pieces: Seq<Piece>, byte: int, access: LockAccess) -> bool {
    exists|i: int| 0 <= i < pieces.len() && piece_holds(#[trigger] pieces[i], byte, access)
}

/// What lies before a byte, of the first `n` pieces.
pub open spec fn pieces_before(pieces: Seq<Piece>, start: u64, n: nat) -> Seq<Piece>
    decreases n,
{
    if n == 0 {
        seq![]
    } else {
        let done = pieces_before(pieces, start, (n - 1) as nat);
        let piece = pieces[n - 1];
        if piece.range.start >= start {
            done
        } else if piece.range.stop() <= start {
            done.push(piece)
        } else {
            done.push(Piece { access: piece.access, range: LockRange { start: piece.range.start, end: Some(start) } })
        }
    }
}

/// What lies behind a byte, of the first `n` pieces.
pub open spec fn pieces_behind(pieces: Seq<Piece>, end: u64, n: nat) -> Seq<Piece>
    decreases n,
{
    if n == 0 {
        seq![]
    } else {
        let done = pieces_behind(pieces, end, (n - 1) as nat);
        let piece = pieces[n - 1];
        if piece.range.stop() <= end {
            done
        } else if piece.range.start >= end {
            done.push(piece)
        } else {
            done.push(Piece { access: piece.access, range: LockRange { start: end, end: piece.range.end } })
        }
    }
}

/// What lies behind a range.
pub open spec fn pieces_after(pieces: Seq<Piece>, range: LockRange) -> Seq<Piece> {
    match range.end {
        None => seq![],
        Some(end) => pieces_behind(pieces, end, pieces.len()),
    }
}

/// The pieces without a range.
pub open spec fn pieces_unlocked(pieces: Seq<Piece>, range: LockRange) -> Seq<Piece> {
    pieces_before(pieces, range.start, pieces.len()) + pieces_after(pieces, range)
}

/// The last piece reaches up to the range with the same access.
pub open spec fn joins_left(left: Seq<Piece>, piece: Piece) -> bool {
    left.len() > 0 && left.last().access == piece.access && left.last().range.stop() == piece.range.start
}

/// The first piece begins where the range ends, with the same access.
pub open spec fn joins_right(piece: Piece, right: Seq<Piece>) -> bool {
    right.len() > 0 && right[0].access == piece.access && piece.range.stop() == right[0].range.start
}

/// The pieces with a range locked: it is cut out of what was held, and joined with what it touches.
pub open spec fn pieces_locked(pieces: Seq<Piece>, piece: Piece) -> Seq<Piece> {
    let left = pieces_before(pieces, piece.range.start, pieces.len());
    let right = pieces_after(pieces, piece.range);
    let start = if joins_left(left, piece) {
        left.last().range.start
    } else {
        piece.range.start
    };
    let end = if joins_right(piece, right) {
        right[0].range.end
    } else {
        piece.range.end
    };
    let kept_left = if joins_left(left, piece) {
        left.drop_last()
    } else {
        left
    };
    let kept_right = if joins_right(piece, right) {
        right.skip(1)
    } else {
        right
    };
    kept_left.push(Piece { access: piece.access, range: LockRange { start, end } }) + kept_right
}

/// What lies before a byte, piece by piece.
proof fn lemma_before(pieces: Seq<Piece>, start: u64, n: nat)
    requires
        n <= pieces.len(),
        pieces_normal(pieces),
    ensures
        ({
            let left = pieces_before(pieces, start, n);
            &&& left.len() <= n
            &&& forall|i: int|
                0 <= i < left.len() ==> {
                    &&& pieces[i].range.start < start
                    &&& (#[trigger] left[i]).access == pieces[i].access
                    &&& left[i].range.start == pieces[i].range.start
                    &&& left[i].range.stop() == if pieces[i].range.stop() <= start {
                        pieces[i].range.stop()
                    } else {
                        start as int
                    }
                }
            &&& forall|i: int| left.len() <= i < n ==> (#[trigger] pieces[i]).range.start >= start
        }),
    decreases n,
{
    if n > 0 {
        lemma_before(pieces, start, (n - 1) as nat);
        let done = pieces_before(pieces, start, (n - 1) as nat);
        if pieces[n - 1].range.start < start {
            if done.len() < n - 1 {
                assert(pieces[done.len() as int].range.start >= start);
                assert(pieces[done.len() as int].range.stop() <= pieces[n - 1].range.start);
            }
        }
    }
}

/// What lies behind a byte, piece by piece.
proof fn lemma_behind(pieces: Seq<Piece>, end: u64, n: nat)
    requires
        n <= pieces.len(),
        pieces_normal(pieces),
    ensures
        ({
            let right = pieces_behind(pieces, end, n);
            let gone = n - right.len();
            &&& right.len() <= n
            &&& forall|i: int|
                0 <= i < right.len() ==> {
                    &&& pieces[i + gone].range.stop() > end
                    &&& (#[trigger] right[i]).access == pieces[i + gone].access
                    &&& right[i].range.end == pieces[i + gone].range.end
                    &&& right[i].range.start == if pieces[i + gone].range.start >= end {
                        pieces[i + gone].range.start
                    } else {
                        end
                    }
                }
            &&& forall|i: int| 0 <= i < gone ==> (#[trigger] pieces[i]).range.stop() <= end
        }),
    decreases n,
{
    if n > 0 {
        lemma_behind(pieces, end, (n - 1) as nat);
        let done = pieces_behind(pieces, end, (n - 1) as nat);
        let gone = n - 1 - done.len();
        if pieces[n - 1].range.stop() <= end {
            if done.len() > 0 {
                assert(pieces[0 + gone].range.stop() > end);
                assert(done[0].range.end == pieces[0 + gone].range.end);
                assert(pieces[gone].range.stop() <= pieces[n - 1].range.start);
            }
        }
    }
}

/// What lies before a byte is in normal form, and is held as it was.
proof fn lemma_left(pieces: Seq<Piece>, start: u64)
    requires
        pieces_normal(pieces),
    ensures
        ({
            let left = pieces_before(pieces, start, pieces.len());
            &&& pieces_normal(left)
            &&& forall|i: int| 0 <= i < left.len() ==> (#[trigger] left[i]).range.stop() <= start
            &&& forall|byte: int, access: LockAccess| #[trigger]
                holds(left, byte, access) == (byte < start && holds(pieces, byte, access))
        }),
{
    let left = pieces_before(pieces, start, pieces.len());
    lemma_before(pieces, start, pieces.len());
    assert forall|i: int| 0 <= i < left.len() implies (#[trigger] left[i]).range.solid() by {
        assert(pieces[i].range.solid());
    }
    assert forall|i: int, j: int| 0 <= i < j < left.len() implies (#[trigger] left[i]).range.stop() <= (
    #[trigger] left[j]).range.start by {
        assert(pieces[i].range.stop() <= pieces[j].range.start);
    }
    assert forall|i: int| 0 < i < left.len() implies #[trigger] merged_at(left, i) by {
        assert(merged_at(pieces, i));
        assert(pieces[i - 1].range.stop() <= pieces[i].range.start);
        assert(left[i - 1].access == pieces[i - 1].access);
        assert(left[i].access == pieces[i].access);
    }
    assert forall|byte: int, access: LockAccess| #[trigger] holds(left, byte, access) == (byte < start && holds(
        pieces,
        byte,
        access,
    )) by {
        if holds(left, byte, access) {
            let i = choose|i: int| 0 <= i < left.len() && piece_holds(#[trigger] left[i], byte, access);
            assert(piece_holds(pieces[i], byte, access));
        }
        if byte < start && holds(pieces, byte, access) {
            let i = choose|i: int| 0 <= i < pieces.len() && piece_holds(#[trigger] pieces[i], byte, access);
            assert(i < left.len());
            assert(piece_holds(left[i], byte, access));
        }
    }
}

/// What lies behind a range is in normal form, and is held as it was.
proof fn lemma_right(pieces: Seq<Piece>, range: LockRange)
    requires
        pieces_normal(pieces),
    ensures
        ({
            let right = pieces_after(pieces, range);
            &&& pieces_normal(right)
            &&& forall|i: int| 0 <= i < right.len() ==> range.stop() <= (#[trigger] right[i]).range.start
            &&& forall|byte: int, access: LockAccess|
                0 <= byte < file_end() ==> (#[trigger] holds(right, byte, access) == (range.stop() <= byte && holds(
                    pieces,
                    byte,
                    access,
                )))
        }),
{
    let right = pieces_after(pieces, range);
    if let Some(end) = range.end {
        lemma_behind(pieces, end, pieces.len());
        let gone = pieces.len() - right.len();
        assert forall|i: int| 0 <= i < right.len() implies (#[trigger] right[i]).range.solid() by {
            assert(pieces[i + gone].range.solid());
        }
        assert forall|i: int, j: int| 0 <= i < j < right.len() implies (#[trigger] right[i]).range.stop() <= (
        #[trigger] right[j]).range.start by {
            assert(pieces[i + gone].range.stop() <= pieces[j + gone].range.start);
        }
        assert forall|i: int| 0 < i < right.len() implies #[trigger] merged_at(right, i) by {
            assert(merged_at(pieces, i + gone));
            assert(right[i - 1].access == pieces[i - 1 + gone].access);
            assert(right[i].access == pieces[i + gone].access);
            assert(pieces[i - 1 + gone].range.stop() <= pieces[i + gone].range.start);
        }
        assert forall|byte: int, access: LockAccess| 0 <= byte < file_end() implies (#[trigger] holds(
            right,
            byte,
            access,
        ) == (range.stop() <= byte && holds(pieces, byte, access))) by {
            if holds(right, byte, access) {
                let i = choose|i: int| 0 <= i < right.len() && piece_holds(#[trigger] right[i], byte, access);
                assert(piece_holds(pieces[i + gone], byte, access));
            }
            if range.stop() <= byte && holds(pieces, byte, access) {
                let i = choose|i: int| 0 <= i < pieces.len() && piece_holds(#[trigger] pieces[i], byte, access);
                assert(i >= gone);
                assert(right[i - gone].access == pieces[i - gone + gone].access);
                assert(piece_holds(right[i - gone], byte, access));
            }
        }
    }
}

/// Two lists apart from each other, put behind each other.
proof fn lemma_apart(left: Seq<Piece>, right: Seq<Piece>, middle: int)
    requires
        pieces_normal(left),
        pieces_normal(right),
        left.len() > 0 && right.len() > 0 ==> left.last().range.stop() < right[0].range.start || left.last().access
            != right[0].access,
        forall|i: int| 0 <= i < left.len() ==> (#[trigger] left[i]).range.stop() <= middle,
        forall|i: int| 0 <= i < right.len() ==> middle <= (#[trigger] right[i]).range.start,
    ensures
        pieces_normal(left + right),
        forall|byte: int, access: LockAccess| #[trigger]
            holds(left + right, byte, access) == (holds(left, byte, access) || holds(right, byte, access)),
{
    let both = left + right;
    assert forall|i: int| 0 < i < both.len() implies #[trigger] merged_at(both, i) by {
        if i < left.len() {
            assert(merged_at(left, i));
        } else if i > left.len() {
            assert(merged_at(right, i - left.len()));
        }
    }
    assert forall|i: int, j: int| 0 <= i < j < both.len() implies (#[trigger] both[i]).range.stop() <= (
    #[trigger] both[j]).range.start by {
        if j < left.len() {
            assert(left[i].range.stop() <= left[j].range.start);
        } else if i >= left.len() {
            assert(right[i - left.len()].range.stop() <= right[j - left.len()].range.start);
        } else {
            assert(left[i].range.stop() <= middle);
            assert(middle <= right[j - left.len()].range.start);
        }
    }
    assert forall|byte: int, access: LockAccess| #[trigger] holds(both, byte, access) == (holds(left, byte, access)
        || holds(right, byte, access)) by {
        if holds(both, byte, access) {
            let i = choose|i: int| 0 <= i < both.len() && piece_holds(#[trigger] both[i], byte, access);
            if i < left.len() {
                assert(piece_holds(left[i], byte, access));
            } else {
                assert(piece_holds(right[i - left.len()], byte, access));
            }
        }
        if holds(left, byte, access) {
            let i = choose|i: int| 0 <= i < left.len() && piece_holds(#[trigger] left[i], byte, access);
            assert(piece_holds(both[i], byte, access));
        }
        if holds(right, byte, access) {
            let i = choose|i: int| 0 <= i < right.len() && piece_holds(#[trigger] right[i], byte, access);
            assert(piece_holds(both[i + left.len()], byte, access));
        }
    }
}

/// One piece is a normal form of its own.
proof fn lemma_single(piece: Piece)
    requires
        piece.range.solid(),
    ensures
        pieces_normal(seq![piece]),
        forall|byte: int, access: LockAccess| #[trigger]
            holds(seq![piece], byte, access) == piece_holds(piece, byte, access),
{
    let one = seq![piece];
    assert forall|byte: int, access: LockAccess| #[trigger] holds(one, byte, access) == piece_holds(
        piece,
        byte,
        access,
    ) by {
        if piece_holds(piece, byte, access) {
            assert(piece_holds(one[0], byte, access));
        }
    }
}

/// Without its last piece a list stays in normal form.
proof fn lemma_drop_last(pieces: Seq<Piece>)
    requires
        pieces_normal(pieces),
        pieces.len() > 0,
    ensures
        pieces_normal(pieces.drop_last()),
        forall|byte: int, access: LockAccess| #[trigger]
            holds(pieces.drop_last(), byte, access) == (holds(pieces, byte, access) && byte
                < pieces.last().range.start),
        forall|i: int|
            0 <= i < pieces.drop_last().len() ==> (#[trigger] pieces.drop_last()[i]).range.stop()
                <= pieces.last().range.start,
        pieces.len() > 1 ==> pieces.drop_last().last().range.stop() < pieces.last().range.start
            || pieces.drop_last().last().access != pieces.last().access,
{
    let rest = pieces.drop_last();
    assert forall|i: int| 0 < i < rest.len() implies #[trigger] merged_at(rest, i) by {
        assert(merged_at(pieces, i));
    }
    if pieces.len() > 1 {
        assert(merged_at(pieces, pieces.len() - 1));
    }
    assert forall|byte: int, access: LockAccess| #[trigger] holds(rest, byte, access) == (holds(pieces, byte, access)
        && byte < pieces.last().range.start) by {
        if holds(rest, byte, access) {
            let i = choose|i: int| 0 <= i < rest.len() && piece_holds(#[trigger] rest[i], byte, access);
            assert(piece_holds(pieces[i], byte, access));
            assert(pieces[i].range.stop() <= pieces[pieces.len() - 1].range.start);
        }
        if holds(pieces, byte, access) && byte < pieces.last().range.start {
            let i = choose|i: int| 0 <= i < pieces.len() && piece_holds(#[trigger] pieces[i], byte, access);
            assert(piece_holds(rest[i], byte, access));
        }
    }
}

/// Without its first piece a list stays in normal form.
proof fn lemma_drop_first(pieces: Seq<Piece>)
    requires
        pieces_normal(pieces),
        pieces.len() > 0,
    ensures
        pieces_normal(pieces.skip(1)),
        forall|byte: int, access: LockAccess| #[trigger]
            holds(pieces.skip(1), byte, access) == (holds(pieces, byte, access) && pieces[0].range.stop() <= byte),
        forall|i: int|
            0 <= i < pieces.skip(1).len() ==> pieces[0].range.stop() <= (#[trigger] pieces.skip(1)[i]).range.start,
        pieces.len() > 1 ==> pieces[0].range.stop() < pieces.skip(1)[0].range.start || pieces[0].access != pieces.skip(
            1,
        )[0].access,
{
    let rest = pieces.skip(1);
    assert forall|i: int| 0 < i < rest.len() implies #[trigger] merged_at(rest, i) by {
        assert(merged_at(pieces, i + 1));
    }
    if pieces.len() > 1 {
        assert(merged_at(pieces, 1));
    }
    assert forall|byte: int, access: LockAccess| #[trigger] holds(rest, byte, access) == (holds(pieces, byte, access)
        && pieces[0].range.stop() <= byte) by {
        if holds(rest, byte, access) {
            let i = choose|i: int| 0 <= i < rest.len() && piece_holds(#[trigger] rest[i], byte, access);
            assert(piece_holds(pieces[i + 1], byte, access));
            assert(pieces[0].range.stop() <= pieces[i + 1].range.start);
        }
        if holds(pieces, byte, access) && pieces[0].range.stop() <= byte {
            let i = choose|i: int| 0 <= i < pieces.len() && piece_holds(#[trigger] pieces[i], byte, access);
            assert(i > 0);
            assert(piece_holds(rest[i - 1], byte, access));
        }
    }
}

/// Unlocking keeps an owner's pieces in normal form, takes the bytes of the range from the owner, and leaves every
/// other byte as it was.
pub proof fn lemma_unlocked(pieces: Seq<Piece>, range: LockRange)
    requires
        pieces_normal(pieces),
        range.solid(),
    ensures
        pieces_normal(pieces_unlocked(pieces, range)),
        forall|byte: int, access: LockAccess|
            0 <= byte < file_end() ==> (#[trigger] holds(pieces_unlocked(pieces, range), byte, access) == (!range.has(
                byte,
            ) && holds(pieces, byte, access))),
{
    lemma_left(pieces, range.start);
    lemma_right(pieces, range);
    let left = pieces_before(pieces, range.start, pieces.len());
    let right = pieces_after(pieces, range);
    lemma_apart(left, right, range.start as int);
    assert forall|byte: int, access: LockAccess| 0 <= byte < file_end() implies (#[trigger] holds(
        left + right,
        byte,
        access,
    ) == (!range.has(byte) && holds(pieces, byte, access))) by {
        assert(holds(left, byte, access) == (byte < range.start && holds(pieces, byte, access)));
        assert(holds(right, byte, access) == (range.stop() <= byte && holds(pieces, byte, access)));
    }
}

/// Locking keeps an owner's pieces in normal form, gives the owner the bytes of the range with that access, and
/// leaves every other byte as it was.
pub proof fn lemma_locked(pieces: Seq<Piece>, piece: Piece)
    requires
        pieces_normal(pieces),
        piece.range.solid(),
    ensures
        pieces_normal(pieces_locked(pieces, piece)),
        forall|byte: int, access: LockAccess|
            0 <= byte < file_end() ==> (#[trigger] holds(pieces_locked(pieces, piece), byte, access)
                == if piece.range.has(byte) {
                access == piece.access
            } else {
                holds(pieces, byte, access)
            }),
{
    lemma_left(pieces, piece.range.start);
    lemma_right(pieces, piece.range);
    let left = pieces_before(pieces, piece.range.start, pieces.len());
    let right = pieces_after(pieces, piece.range);
    let kl = if joins_left(left, piece) {
        left.drop_last()
    } else {
        left
    };
    let kr = if joins_right(piece, right) {
        right.skip(1)
    } else {
        right
    };
    let start = if joins_left(left, piece) {
        left.last().range.start
    } else {
        piece.range.start
    };
    let end = if joins_right(piece, right) {
        right[0].range.end
    } else {
        piece.range.end
    };
    let middle = Piece { access: piece.access, range: LockRange { start, end } };
    if left.len() > 0 {
        lemma_drop_last(left);
        assert(left.last().range.solid());
        assert(left[left.len() - 1].range.stop() <= piece.range.start);
    }
    if right.len() > 0 {
        lemma_drop_first(right);
        assert(right[0].range.solid());
    }
    assert(middle.range.solid());
    lemma_single(middle);
    assert(forall|i: int| 0 <= i < kl.len() ==> (#[trigger] kl[i]).range.stop() <= start);
    lemma_apart(kl, seq![middle], start as int);
    let first = kl + seq![middle];
    assert(first =~= kl.push(middle));
    assert(forall|i: int| 0 <= i < kr.len() ==> middle.range.stop() <= (#[trigger] kr[i]).range.start);
    assert forall|i: int| 0 <= i < first.len() implies (#[trigger] first[i]).range.stop() <= middle.range.stop() by {
        if i < kl.len() {
            assert(kl[i].range.stop() <= start);
        }
    }
    lemma_apart(first, kr, middle.range.stop());
    assert(pieces_locked(pieces, piece) == first + kr);
    assert forall|byte: int, access: LockAccess| 0 <= byte < file_end() implies (#[trigger] holds(
        first + kr,
        byte,
        access,
    ) == if piece.range.has(byte) {
        access == piece.access
    } else {
        holds(pieces, byte, access)
    }) by {
        assert(holds(first, byte, access) == (holds(kl, byte, access) || holds(seq![middle], byte, access)));
        assert(holds(seq![middle], byte, access) == piece_holds(middle, byte, access));
        assert(holds(left, byte, access) == (byte < piece.range.start && holds(pieces, byte, access)));
        assert(holds(right, byte, access) == (piece.range.stop() <= byte && holds(pieces, byte, access)));
        if joins_left(left, piece) {
            assert(holds(kl, byte, access) == (holds(left, byte, access) && byte < start));
            lemma_held_by(left, left.len() - 1, byte, access);
        }
        if joins_right(piece, right) {
            assert(holds(kr, byte, access) == (holds(right, byte, access) && right[0].range.stop() <= byte));
            lemma_held_by(right, 0, byte, access);
        }
    }
}

/// Within one piece of a normal form, the bytes are held with that piece's access alone.
proof fn lemma_held_by(pieces: Seq<Piece>, i: int, byte: int, access: LockAccess)
    requires
        pieces_normal(pieces),
        0 <= i < pieces.len(),
    ensures
        pieces[i].range.has(byte) ==> (holds(pieces, byte, access) == (pieces[i].access == access)),
{
    if pieces[i].range.has(byte) {
        if holds(pieces, byte, access) {
            let j = choose|j: int| 0 <= j < pieces.len() && piece_holds(#[trigger] pieces[j], byte, access);
            if i < j {
                assert(pieces[i].range.stop() <= pieces[j].range.start);
            } else if j < i {
                assert(pieces[j].range.stop() <= pieces[i].range.start);
            }
        }
        if pieces[i].access == access {
            assert(piece_holds(pieces[i], byte, access));
        }
    }
}

/// A locked range with its owner.
pub struct HeldLock {
    pub owner: LockStateOwner,
    pub access: LockAccess,
    pub range: LockRange,
}

impl HeldLock {
    /// The same lock again.
    pub fn copy(&self) -> (copy: Self)
        ensures
            copy == *self,
    {
        HeldLock { owner: self.owner.copy(), access: self.access, range: self.range }
    }
}

/// What identifies an owner of byte ranges: the lock owner, and the identity of the open state.
pub type RangeOwner = ((u64, Seq<u8>), Seq<u8>);

/// The pieces of an owner, among the first `n` locks.
pub open spec fn owned(locks: Seq<HeldLock>, owner: RangeOwner, n: nat) -> Seq<Piece>
    decreases n,
{
    if n == 0 {
        seq![]
    } else if locks[n - 1].owner@ == owner {
        owned(locks, owner, (n - 1) as nat).push(Piece { access: locks[n - 1].access, range: locks[n - 1].range })
    } else {
        owned(locks, owner, (n - 1) as nat)
    }
}

/// The locks of the other owners, among the first `n`.
pub open spec fn foreign(locks: Seq<HeldLock>, owner: RangeOwner, n: nat) -> Seq<HeldLock>
    decreases n,
{
    if n == 0 {
        seq![]
    } else if locks[n - 1].owner@ == owner {
        foreign(locks, owner, (n - 1) as nat)
    } else {
        foreign(locks, owner, (n - 1) as nat).push(locks[n - 1])
    }
}

/// Pieces as locks of an owner.
pub open spec fn held_by(owner: LockStateOwner, pieces: Seq<Piece>) -> Seq<HeldLock> {
    Seq::new(pieces.len(), |i: int| HeldLock { owner, access: pieces[i].access, range: pieces[i].range })
}

/// Two locks of different owners on a byte both have: only two reading ones go together.
pub open spec fn lock_against(lock: HeldLock, access: LockAccess, range: LockRange) -> bool {
    ranges_overlap(lock.range, range) && (lock.access == LockAccess::Write || access == LockAccess::Write)
}

/// The first lock of another owner that stands against a request, among the first `n`.
pub open spec fn conflict_at(locks: Seq<HeldLock>, owner: RangeOwner, access: LockAccess, range: LockRange, n: nat) -> Option<
    int,
>
    decreases n,
{
    if n == 0 {
        None
    } else if conflict_at(locks, owner, access, range, (n - 1) as nat) is Some {
        conflict_at(locks, owner, access, range, (n - 1) as nat)
    } else if locks[n - 1].owner@ != owner && lock_against(locks[n - 1], access, range) {
        Some(n - 1)
    } else {
        None
    }
}

/// The first lock of another lock owner that stands against a request, among the first `n`.
pub open spec fn conflict_of_others(
    locks: Seq<HeldLock>,
    owner: (u64, Seq<u8>),
    access: LockAccess,
    range: LockRange,
    n: nat,
) -> Option<int>
    decreases n,
{
    if n == 0 {
        None
    } else if conflict_of_others(locks, owner, access, range, (n - 1) as nat) is Some {
        conflict_of_others(locks, owner, access, range, (n - 1) as nat)
    } else if locks[n - 1].owner.owner@ != owner && lock_against(locks[n - 1], access, range) {
        Some(n - 1)
    } else {
        None
    }
}

/// The locks with a range locked for an owner.
pub open spec fn locks_with(locks: Seq<HeldLock>, owner: LockStateOwner, access: LockAccess, range: LockRange) -> Seq<
    HeldLock,
> {
    foreign(locks, owner@, locks.len()) + held_by(
        owner,
        pieces_locked(owned(locks, owner@, locks.len()), Piece { access, range }),
    )
}

/// The locks with a range unlocked for an owner.
pub open spec fn locks_without(locks: Seq<HeldLock>, owner: LockStateOwner, range: LockRange) -> Seq<HeldLock> {
    foreign(locks, owner@, locks.len()) + held_by(owner, pieces_unlocked(owned(locks, owner@, locks.len()), range))
}

/// The owner holds something of the range.
pub open spec fn holds_in(pieces: Seq<Piece>, range: LockRange) -> bool {
    exists|i: int| 0 <= i < pieces.len() && ranges_overlap((#[trigger] pieces[i]).range, range)
}

/// The first lock of another owner that stands against a request.
pub fn first_conflict(locks: &Vec<HeldLock>, owner: &LockStateOwner, access: LockAccess, range: LockRange) -> (at: Option<
    usize,
>)
    ensures
        match at {
            Some(i) => i < locks@.len() && conflict_at(locks@, owner@, access, range, locks@.len()) == Some(i as int),
            None => conflict_at(locks@, owner@, access, range, locks@.len()) is None,
        },
{
    let mut i: usize = 0;
    while i < locks.len()
        invariant
            i <= locks@.len(),
            conflict_at(locks@, owner@, access, range, i as nat) is None,
        decreases locks@.len() - i,
    {
        let lock = &locks[i];
        if !lock.owner.same(owner) && lock.range.overlaps(&range) && (lock.access == LockAccess::Write || access
            == LockAccess::Write) {
            proof {
                lemma_conflict_stays(locks@, owner@, access, range, (i + 1) as nat, locks@.len());
            }
            return Some(i);
        }
        i += 1;
    }
    None
}

/// A conflict that is found stays found.
proof fn lemma_conflict_stays(
    locks: Seq<HeldLock>,
    owner: RangeOwner,
    access: LockAccess,
    range: LockRange,
    n: nat,
    m: nat,
)
    requires
        n <= m,
        conflict_at(locks, owner, access, range, n) is Some,
    ensures
        conflict_at(locks, owner, access, range, m) == conflict_at(locks, owner, access, range, n),
    decreases m - n,
{
    if n < m {
        lemma_conflict_stays(locks, owner, access, range, n, (m - 1) as nat);
    }
}

/// The first lock of another lock owner that stands against a request.
pub fn conflict_excluding(
    locks: &Vec<HeldLock>,
    owner: &crate::protocol::OwnerKey,
    access: LockAccess,
    range: LockRange,
) -> (at: Option<usize>)
    ensures
        match at {
            Some(i) => i < locks@.len() && conflict_of_others(locks@, owner@, access, range, locks@.len()) == Some(
                i as int,
            ),
            None => conflict_of_others(locks@, owner@, access, range, locks@.len()) is None,
        },
{
    let mut i: usize = 0;
    while i < locks.len()
        invariant
            i <= locks@.len(),
            conflict_of_others(locks@, owner@, access, range, i as nat) is None,
        decreases locks@.len() - i,
    {
        let lock = &locks[i];
        if !lock.owner.owner.same(owner) && lock.range.overlaps(&range) && (lock.access == LockAccess::Write || access
            == LockAccess::Write) {
            proof {
                lemma_others_stay(locks@, owner@, access, range, (i + 1) as nat, locks@.len());
            }
            return Some(i);
        }
        i += 1;
    }
    None
}

/// A conflict that is found stays found.
proof fn lemma_others_stay(
    locks: Seq<HeldLock>,
    owner: (u64, Seq<u8>),
    access: LockAccess,
    range: LockRange,
    n: nat,
    m: nat,
)
    requires
        n <= m,
        conflict_of_others(locks, owner, access, range, n) is Some,
    ensures
        conflict_of_others(locks, owner, access, range, m) == conflict_of_others(locks, owner, access, range, n),
    decreases m - n,
{
    if n < m {
        lemma_others_stay(locks, owner, access, range, n, (m - 1) as nat);
    }
}

/// Splits the locks into an owner's pieces and the locks of the others.
fn split_locks(locks: &Vec<HeldLock>, owner: &LockStateOwner) -> (parts: (Vec<HeldLock>, Vec<Piece>))
    ensures
        parts.0@ == foreign(locks@, owner@, locks@.len()),
        parts.1@ == owned(locks@, owner@, locks@.len()),
{
    let mut others: Vec<HeldLock> = Vec::new();
    let mut own: Vec<Piece> = Vec::new();
    let mut i: usize = 0;
    while i < locks.len()
        invariant
            i <= locks@.len(),
            others@ == foreign(locks@, owner@, i as nat),
            own@ == owned(locks@, owner@, i as nat),
        decreases locks@.len() - i,
    {
        let lock = &locks[i];
        if lock.owner.same(owner) {
            own.push(Piece { access: lock.access, range: lock.range });
        } else {
            others.push(lock.copy());
        }
        i += 1;
    }
    (others, own)
}

/// What lies before a byte.
fn cut_before(pieces: &Vec<Piece>, start: u64) -> (left: Vec<Piece>)
    ensures
        left@ == pieces_before(pieces@, start, pieces@.len()),
{
    let mut left: Vec<Piece> = Vec::new();
    let mut i: usize = 0;
    while i < pieces.len()
        invariant
            i <= pieces@.len(),
            left@ == pieces_before(pieces@, start, i as nat),
        decreases pieces@.len() - i,
    {
        let piece = pieces[i];
        if piece.range.start < start {
            let within = match piece.range.end {
                Some(end) => end <= start,
                None => false,
            };
            if within {
                left.push(piece);
            } else {
                left.push(
                    Piece { access: piece.access, range: LockRange { start: piece.range.start, end: Some(start) } },
                );
            }
        }
        i += 1;
    }
    left
}

/// What lies behind a range.
fn cut_after(pieces: &Vec<Piece>, range: LockRange) -> (right: Vec<Piece>)
    ensures
        right@ == pieces_after(pieces@, range),
{
    let mut right: Vec<Piece> = Vec::new();
    let end: u64 = match range.end {
        Some(end) => end,
        None => {
            return right;
        },
    };
    let mut i: usize = 0;
    while i < pieces.len()
        invariant
            i <= pieces@.len(),
            right@ == pieces_behind(pieces@, end, i as nat),
        decreases pieces@.len() - i,
    {
        let piece = pieces[i];
        let gone = match piece.range.end {
            Some(stop) => stop <= end,
            None => false,
        };
        if !gone {
            if piece.range.start >= end {
                right.push(piece);
            } else {
                right.push(Piece { access: piece.access, range: LockRange { start: end, end: piece.range.end } });
            }
        }
        i += 1;
    }
    right
}

/// The pieces with a range locked.
fn lock_pieces(pieces: &Vec<Piece>, piece: Piece) -> (after: Vec<Piece>)
    ensures
        after@ == pieces_locked(pieces@, piece),
{
    let mut left = cut_before(pieces, piece.range.start);
    let right = cut_after(pieces, piece.range);
    let ghost before = left@;
    let mut start = piece.range.start;
    let mut end = piece.range.end;
    let count: usize = left.len();
    if count > 0 && left[count - 1].access == piece.access && left[count - 1].range.end == Some(piece.range.start) {
        start = left[count - 1].range.start;
        let _ = left.pop();
        assert(left@ =~= before.drop_last());
        assert(joins_left(before, piece));
    } else {
        assert(!joins_left(before, piece));
    }
    let mut from: usize = 0;
    if right.len() > 0 && right[0].access == piece.access && piece.range.end == Some(right[0].range.start) {
        end = right[0].range.end;
        from = 1;
        assert(joins_right(piece, right@));
    } else {
        assert(!joins_right(piece, right@));
    }
    left.push(Piece { access: piece.access, range: LockRange { start, end } });
    let ghost head = left@;
    let mut i: usize = from;
    while i < right.len()
        invariant
            from <= i <= right@.len(),
            left@ == head + right@.subrange(from as int, i as int),
        decreases right@.len() - i,
    {
        left.push(right[i]);
        assert(right@.subrange(from as int, i + 1) =~= right@.subrange(from as int, i as int).push(right@[i as int]));
        assert(left@ =~= head + right@.subrange(from as int, i + 1));
        i += 1;
    }
    assert(left@ =~= pieces_locked(pieces@, piece)) by {
        assert(right@.subrange(from as int, right@.len() as int) =~= if joins_right(piece, right@) {
            right@.skip(1)
        } else {
            right@
        });
    }
    left
}

/// Appends pieces as locks of an owner.
fn append_pieces(locks: &mut Vec<HeldLock>, owner: &LockStateOwner, pieces: &Vec<Piece>)
    ensures
        final(locks)@ == old(locks)@ + held_by(*owner, pieces@),
{
    let ghost before = locks@;
    let mut i: usize = 0;
    while i < pieces.len()
        invariant
            i <= pieces@.len(),
            locks@ == before + held_by(*owner, pieces@).take(i as int),
        decreases pieces@.len() - i,
    {
        locks.push(HeldLock { owner: owner.copy(), access: pieces[i].access, range: pieces[i].range });
        assert(held_by(*owner, pieces@).take(i + 1) =~= held_by(*owner, pieces@).take(i as int).push(
            held_by(*owner, pieces@)[i as int],
        ));
        assert(locks@ =~= before + held_by(*owner, pieces@).take(i + 1));
        i += 1;
    }
    assert(held_by(*owner, pieces@).take(pieces@.len() as int) =~= held_by(*owner, pieces@));
}

/// The locks with a range locked for an owner, or the lock that stands against it.
pub fn lock(locks: &Vec<HeldLock>, owner: &LockStateOwner, access: LockAccess, range: LockRange) -> (planned: Result<
    Vec<HeldLock>,
    usize,
>)
    ensures
        match conflict_at(locks@, owner@, access, range, locks@.len()) {
            Some(i) => planned is Err && planned->Err_0 == i && i < locks@.len(),
            None => planned is Ok && planned->Ok_0@ == locks_with(locks@, *owner, access, range),
        },
{
    match first_conflict(locks, owner, access, range) {
        Some(i) => Err(i),
        None => {
            let (others, own) = split_locks(locks, owner);
            let pieces = lock_pieces(&own, Piece { access, range });
            let mut after = others;
            append_pieces(&mut after, owner, &pieces);
            Ok(after)
        },
    }
}

/// The locks with a range unlocked for an owner, where the owner holds something of it.
pub fn unlock(locks: &Vec<HeldLock>, owner: &LockStateOwner, range: LockRange) -> (planned: Option<Vec<HeldLock>>)
    ensures
        if holds_in(owned(locks@, owner@, locks@.len()), range) {
            planned is Some && planned->0@ == locks_without(locks@, *owner, range)
        } else {
            planned is None
        },
{
    let (others, own) = split_locks(locks, owner);
    let mut found = false;
    let mut i: usize = 0;
    while i < own.len()
        invariant
            i <= own@.len(),
            found == exists|j: int| 0 <= j < i && ranges_overlap((#[trigger] own@[j]).range, range),
        decreases own@.len() - i,
    {
        if own[i].range.overlaps(&range) {
            found = true;
            assert(ranges_overlap(own@[i as int].range, range));
        }
        i += 1;
    }
    if !found {
        return None;
    }
    let mut pieces = cut_before(&own, range.start);
    let right = cut_after(&own, range);
    let ghost left = pieces@;
    let mut k: usize = 0;
    while k < right.len()
        invariant
            k <= right@.len(),
            pieces@ == left + right@.take(k as int),
        decreases right@.len() - k,
    {
        pieces.push(right[k]);
        assert(right@.take(k + 1) =~= right@.take(k as int).push(right@[k as int]));
        assert(pieces@ =~= left + right@.take(k + 1));
        k += 1;
    }
    assert(right@.take(right@.len() as int) =~= right@);
    let mut after = others;
    append_pieces(&mut after, owner, &pieces);
    Some(after)
}

/// The stable form of a range: no length for one without end.
pub open spec fn stable_length(range: LockRange) -> u64 {
    match range.end {
        Some(end) => if end >= range.start {
            (end - range.start) as u64
        } else {
            0
        },
        None => 0,
    }
}

/// The stable form of a range.
pub fn stable_lock_length(range: LockRange) -> (length: u64)
    ensures
        length == stable_length(range),
{
    match range.end {
        Some(end) => if end >= range.start {
            end - range.start
        } else {
            0
        },
        None => 0,
    }
}

/// The stable form of pieces.
pub open spec fn stable_ranges(pieces: Seq<Piece>) -> Seq<LockRangeRecord> {
    Seq::new(
        pieces.len(),
        |i: int|
            LockRangeRecord {
                offset: pieces[i].range.start,
                length: stable_length(pieces[i].range),
                write: pieces[i].access == LockAccess::Write,
            },
    )
}

/// The stable form of pieces.
pub fn stable_pieces(pieces: &Vec<Piece>) -> (ranges: Vec<LockRangeRecord>)
    ensures
        ranges@ == stable_ranges(pieces@),
{
    let mut ranges: Vec<LockRangeRecord> = Vec::new();
    let mut i: usize = 0;
    while i < pieces.len()
        invariant
            i <= pieces@.len(),
            ranges@ == stable_ranges(pieces@).take(i as int),
        decreases pieces@.len() - i,
    {
        ranges.push(
            LockRangeRecord {
                offset: pieces[i].range.start,
                length: stable_lock_length(pieces[i].range),
                write: pieces[i].access == LockAccess::Write,
            },
        );
        assert(stable_ranges(pieces@).take(i + 1) =~= stable_ranges(pieces@).take(i as int).push(
            stable_ranges(pieces@)[i as int],
        ));
        i += 1;
    }
    assert(stable_ranges(pieces@).take(pieces@.len() as int) =~= stable_ranges(pieces@));
    ranges
}

/// The stable form of an owner's locks.
pub fn stable_lock_ranges(locks: &Vec<HeldLock>, owner: &LockStateOwner) -> (ranges: Vec<LockRangeRecord>)
    ensures
        ranges@ == stable_ranges(owned(locks@, owner@, locks@.len())),
{
    let (_, own) = split_locks(locks, owner);
    stable_pieces(&own)
}

/// Some lock is held through the open.
pub open spec fn locks_open(locks: Seq<HeldLock>, open: Seq<u8>) -> bool {
    exists|i: int| 0 <= i < locks.len() && (#[trigger] locks[i]).owner.open@ == open
}

/// Whether some lock is held through the open.
pub fn has_open(locks: &Vec<HeldLock>, open: &[u8; 12]) -> (held: bool)
    ensures
        held == locks_open(locks@, open@),
{
    let mut i: usize = 0;
    while i < locks.len()
        invariant
            i <= locks@.len(),
            forall|j: int| 0 <= j < i ==> (#[trigger] locks@[j]).owner.open@ != open@,
        decreases locks@.len() - i,
    {
        if crate::bytes::array_equal(&locks[i].owner.open, open) {
            return true;
        }
        i += 1;
    }
    false
}

/// Some lock of that kind is held through the open.
pub open spec fn open_needs(locks: Seq<HeldLock>, open: Seq<u8>, access: LockAccess) -> bool {
    exists|i: int| 0 <= i < locks.len() && (#[trigger] locks[i]).owner.open@ == open && locks[i].access == access
}

/// Whether some lock of that kind is held through the open.
pub fn open_requires(locks: &Vec<HeldLock>, open: &[u8; 12], access: LockAccess) -> (held: bool)
    ensures
        held == open_needs(locks@, open@, access),
{
    let mut i: usize = 0;
    while i < locks.len()
        invariant
            i <= locks@.len(),
            forall|j: int|
                0 <= j < i ==> !((#[trigger] locks@[j]).owner.open@ == open@ && locks@[j].access == access),
        decreases locks@.len() - i,
    {
        if crate::bytes::array_equal(&locks[i].owner.open, open) && locks[i].access == access {
            return true;
        }
        i += 1;
    }
    false
}

/// Some lock of the lock owner is held.
pub open spec fn owner_holds(locks: Seq<HeldLock>, owner: (u64, Seq<u8>)) -> bool {
    exists|i: int| 0 <= i < locks.len() && (#[trigger] locks[i]).owner.owner@ == owner
}

/// Whether some lock of the lock owner is held.
pub fn holds_locks(locks: &Vec<HeldLock>, owner: &crate::protocol::OwnerKey) -> (held: bool)
    ensures
        held == owner_holds(locks@, owner@),
{
    let mut i: usize = 0;
    while i < locks.len()
        invariant
            i <= locks@.len(),
            forall|j: int| 0 <= j < i ==> (#[trigger] locks@[j]).owner.owner@ != owner@,
        decreases locks@.len() - i,
    {
        if locks[i].owner.owner.same(owner) {
            return true;
        }
        i += 1;
    }
    false
}

/// The first `n` locks without those of a client.
pub open spec fn locks_left(locks: Seq<HeldLock>, client_id: u64, n: nat) -> Seq<HeldLock>
    decreases n,
{
    if n == 0 {
        seq![]
    } else if locks[n - 1].owner.owner.client_id == client_id {
        locks_left(locks, client_id, (n - 1) as nat)
    } else {
        locks_left(locks, client_id, (n - 1) as nat).push(locks[n - 1])
    }
}

/// Removes the locks of a client.
pub fn release_locks(locks: &mut Vec<HeldLock>, client_id: u64)
    ensures
        final(locks)@ == locks_left(old(locks)@, client_id, old(locks)@.len()),
{
    let ghost before = locks@;
    let mut kept: Vec<HeldLock> = Vec::new();
    let mut i: usize = 0;
    while i < locks.len()
        invariant
            i <= locks@.len(),
            locks@ == before,
            kept@ == locks_left(before, client_id, i as nat),
        decreases locks@.len() - i,
    {
        if locks[i].owner.owner.client_id != client_id {
            kept.push(locks[i].copy());
        }
        i += 1;
    }
    *locks = kept;
}

/// What a client is told of the lock that stands against its request.
pub open spec fn denial(lock: HeldLock) -> LockDenied {
    LockDenied {
        offset: lock.range.start,
        length: match lock.range.end {
            Some(_) => stable_length(lock.range),
            None => u64::MAX,
        },
        lock_type: match lock.access {
            LockAccess::Read => LockType::Read,
            LockAccess::Write => LockType::Write,
        },
        owner: lock.owner.owner,
    }
}

/// What a client is told of the lock that stands against its request.
pub fn denied(lock: &HeldLock) -> (told: LockDenied)
    ensures
        told == denial(*lock),
{
    LockDenied {
        offset: lock.range.start,
        length: match lock.range.end {
            Some(_) => stable_lock_length(lock.range),
            None => u64::MAX,
        },
        lock_type: match lock.access {
            LockAccess::Read => LockType::Read,
            LockAccess::Write => LockType::Write,
        },
        owner: lock.owner.owner.copy(),
    }
}

/// Every owner's pieces are in normal form, and locks of different owners go together wherever they meet.
pub open spec fn locks_agree(locks: Seq<HeldLock>) -> bool {
    &&& forall|owner: RangeOwner| pieces_normal(#[trigger] owned(locks, owner, locks.len()))
    &&& forall|i: int, j: int|
        0 <= i < locks.len() && 0 <= j < locks.len() && (#[trigger] locks[i]).owner@ != (#[trigger] locks[j]).owner@
            ==> !lock_against(locks[i], locks[j].access, locks[j].range)
}

/// An owner's lock is one of the owner's pieces.
pub(crate) proof fn lemma_owned_has(locks: Seq<HeldLock>, owner: RangeOwner, n: nat, i: int)
    requires
        0 <= i < n <= locks.len(),
        locks[i].owner@ == owner,
    ensures
        exists|k: int|
            0 <= k < owned(locks, owner, n).len() && #[trigger] owned(locks, owner, n)[k] == (Piece {
                access: locks[i].access,
                range: locks[i].range,
            }),
    decreases n,
{
    let before = owned(locks, owner, (n - 1) as nat);
    let after = owned(locks, owner, n);
    if i == n - 1 {
        assert(after[after.len() - 1] == (Piece { access: locks[i].access, range: locks[i].range }));
    } else {
        lemma_owned_has(locks, owner, (n - 1) as nat, i);
        let k = choose|k: int|
            0 <= k < before.len() && #[trigger] before[k] == (Piece { access: locks[i].access, range: locks[i].range });
        assert(after[k] == before[k]);
    }
}

/// An owner's piece is one of the owner's locks.
pub(crate) proof fn lemma_owned_from(locks: Seq<HeldLock>, owner: RangeOwner, n: nat, k: int)
    requires
        n <= locks.len(),
        0 <= k < owned(locks, owner, n).len(),
    ensures
        exists|i: int|
            0 <= i < n && (#[trigger] locks[i]).owner@ == owner && owned(locks, owner, n)[k] == (Piece {
                access: locks[i].access,
                range: locks[i].range,
            }),
    decreases n,
{
    if n > 0 {
        let before = owned(locks, owner, (n - 1) as nat);
        if k < before.len() {
            lemma_owned_from(locks, owner, (n - 1) as nat, k);
        } else {
            assert(locks[n - 1].owner@ == owner);
        }
    }
}

/// What is foreign to an owner belongs to others, and is all that others have.
pub(crate) proof fn lemma_foreign(locks: Seq<HeldLock>, owner: RangeOwner, n: nat)
    requires
        n <= locks.len(),
    ensures
        forall|k: int|
            0 <= k < foreign(locks, owner, n).len() ==> (#[trigger] foreign(locks, owner, n)[k]).owner@ != owner
                && locks.contains(foreign(locks, owner, n)[k]),
        forall|other: RangeOwner|
            other != owner ==> #[trigger] owned(foreign(locks, owner, n), other, foreign(locks, owner, n).len())
                == owned(locks, other, n),
        owned(foreign(locks, owner, n), owner, foreign(locks, owner, n).len()) == Seq::<Piece>::empty(),
    decreases n,
{
    if n > 0 {
        lemma_foreign(locks, owner, (n - 1) as nat);
        let before = foreign(locks, owner, (n - 1) as nat);
        let after = foreign(locks, owner, n);
        if locks[n - 1].owner@ != owner {
            assert(locks.contains(locks[n - 1]));
            assert forall|other: RangeOwner| other != owner implies #[trigger] owned(after, other, after.len()) == owned(
                locks,
                other,
                n,
            ) by {
                lemma_owned_prefix(before, locks[n - 1], other, before.len());
                assert(owned(before, other, before.len()) == owned(locks, other, (n - 1) as nat));
            }
            lemma_owned_prefix(before, locks[n - 1], owner, before.len());
            assert(owned(after, owner, before.len()) == owned(before, owner, before.len()));
        } else {
            assert forall|other: RangeOwner| other != owner implies #[trigger] owned(after, other, after.len()) == owned(
                locks,
                other,
                n,
            ) by {
                assert(owned(before, other, before.len()) == owned(locks, other, (n - 1) as nat));
            }
        }
    }
}

/// What comes behind does not change what was owned before.
proof fn lemma_owned_prefix(locks: Seq<HeldLock>, more: HeldLock, owner: RangeOwner, n: nat)
    requires
        n <= locks.len(),
    ensures
        owned(locks.push(more), owner, n) == owned(locks, owner, n),
    decreases n,
{
    if n > 0 {
        lemma_owned_prefix(locks, more, owner, (n - 1) as nat);
    }
}

/// An owner's pieces behind other locks are the owner's.
pub(crate) proof fn lemma_owned_behind(others: Seq<HeldLock>, owner: LockStateOwner, pieces: Seq<Piece>, who: RangeOwner, n: nat)
    requires
        n <= pieces.len(),
    ensures
        owned(others + held_by(owner, pieces), who, others.len() + n) == owned(others, who, others.len()) + if who
            == owner@ {
            pieces.take(n as int)
        } else {
            Seq::<Piece>::empty()
        },
    decreases n,
{
    let all = others + held_by(owner, pieces);
    if n == 0 {
        lemma_owned_same(others, all, who, others.len());
        assert(pieces.take(0) =~= seq![]);
        assert(owned(others, who, others.len()) + Seq::<Piece>::empty() =~= owned(others, who, others.len()));
    } else {
        lemma_owned_behind(others, owner, pieces, who, (n - 1) as nat);
        assert(all[others.len() + n - 1] == held_by(owner, pieces)[n - 1]);
        assert(pieces.take(n as int) =~= pieces.take(n - 1).push(pieces[n - 1]));
        if who == owner@ {
            assert(owned(others, who, others.len()) + pieces.take(n as int) =~= (owned(others, who, others.len())
                + pieces.take(n - 1)).push(pieces[n - 1]));
        }
    }
}

/// Lists that begin alike own alike at first.
proof fn lemma_owned_same(a: Seq<HeldLock>, b: Seq<HeldLock>, owner: RangeOwner, n: nat)
    requires
        n <= a.len(),
        n <= b.len(),
        forall|i: int| 0 <= i < n ==> a[i] == b[i],
    ensures
        owned(b, owner, n) == owned(a, owner, n),
    decreases n,
{
    if n > 0 {
        lemma_owned_same(a, b, owner, (n - 1) as nat);
    }
}

/// Locks whose pieces change for one owner only go together where that owner's bytes do.
proof fn lemma_agreement(locks: Seq<HeldLock>, owner: LockStateOwner, pieces: Seq<Piece>)
    requires
        locks_agree(locks),
        pieces_normal(pieces),
        forall|i: int, k: int|
            0 <= i < locks.len() && 0 <= k < pieces.len() && (#[trigger] locks[i]).owner@ != owner@ ==> !lock_against(
                locks[i],
                (#[trigger] pieces[k]).access,
                pieces[k].range,
            ),
    ensures
        locks_agree(foreign(locks, owner@, locks.len()) + held_by(owner, pieces)),
        owned(
            foreign(locks, owner@, locks.len()) + held_by(owner, pieces),
            owner@,
            (foreign(locks, owner@, locks.len()) + held_by(owner, pieces)).len(),
        ) == pieces,
{
    let others = foreign(locks, owner@, locks.len());
    let after = others + held_by(owner, pieces);
    lemma_foreign(locks, owner@, locks.len());
    assert forall|who: RangeOwner| pieces_normal(#[trigger] owned(after, who, after.len())) by {
        lemma_owned_behind(others, owner, pieces, who, pieces.len());
        assert(pieces.take(pieces.len() as int) =~= pieces);
        if who == owner@ {
            assert(owned(others, who, others.len()) + pieces =~= pieces);
        } else {
            assert(owned(others, who, others.len()) + Seq::<Piece>::empty() =~= owned(others, who, others.len()));
            assert(owned(others, who, others.len()) == owned(locks, who, locks.len()));
        }
    }
    lemma_owned_behind(others, owner, pieces, owner@, pieces.len());
    assert(pieces.take(pieces.len() as int) =~= pieces);
    assert(owned(others, owner@, others.len()) + pieces =~= pieces);
    assert forall|i: int, j: int|
        0 <= i < after.len() && 0 <= j < after.len() && (#[trigger] after[i]).owner@ != (
        #[trigger] after[j]).owner@ implies !lock_against(after[i], after[j].access, after[j].range) by {
        if i < others.len() {
            assert(after[i] == others[i]);
            let a = locks.index_of(others[i]);
            assert(locks[a] == others[i]);
            if j < others.len() {
                assert(after[j] == others[j]);
                let b = locks.index_of(others[j]);
                assert(locks[b] == others[j]);
                assert(!lock_against(locks[a], locks[b].access, locks[b].range));
            } else {
                assert(after[j] == held_by(owner, pieces)[j - others.len()]);
                assert(!lock_against(locks[a], pieces[j - others.len()].access, pieces[j - others.len()].range));
            }
        } else {
            assert(after[i] == held_by(owner, pieces)[i - others.len()]);
            if j < others.len() {
                assert(after[j] == others[j]);
                let b = locks.index_of(others[j]);
                assert(locks[b] == others[j]);
                assert(!lock_against(locks[b], pieces[i - others.len()].access, pieces[i - others.len()].range));
            } else {
                assert(after[j] == held_by(owner, pieces)[j - others.len()]);
            }
        }
    }
}

/// Where no conflict is found, no lock of another owner stands against the request.
proof fn lemma_no_conflict(locks: Seq<HeldLock>, owner: RangeOwner, access: LockAccess, range: LockRange, n: nat, i: int)
    requires
        conflict_at(locks, owner, access, range, n) is None,
        0 <= i < n,
        locks[i].owner@ != owner,
    ensures
        !lock_against(locks[i], access, range),
    decreases n,
{
    if i < n - 1 {
        lemma_no_conflict(locks, owner, access, range, (n - 1) as nat, i);
    }
}

/// A piece that an owner holds of bytes that were the owner's before stands against nobody who did not stand
/// against the owner before.
proof fn lemma_piece_agrees(
    locks: Seq<HeldLock>,
    owner: RangeOwner,
    piece: Piece,
    i: int,
    byte: int,
)
    requires
        locks_agree(locks),
        0 <= i < locks.len(),
        locks[i].owner@ != owner,
        locks[i].range.has(byte),
        holds(owned(locks, owner, locks.len()), byte, piece.access),
    ensures
        !(locks[i].access == LockAccess::Write || piece.access == LockAccess::Write),
{
    let own = owned(locks, owner, locks.len());
    let k = choose|k: int| 0 <= k < own.len() && piece_holds(#[trigger] own[k], byte, piece.access);
    lemma_owned_from(locks, owner, locks.len(), k);
    let j = choose|j: int|
        0 <= j < locks.len() && (#[trigger] locks[j]).owner@ == owner && own[k] == (Piece {
            access: locks[j].access,
            range: locks[j].range,
        });
    assert(!lock_against(locks[i], locks[j].access, locks[j].range));
}

/// No two owners' locks ever stand against each other: a lock that is granted keeps it so.
pub proof fn lemma_lock_agrees(locks: Seq<HeldLock>, owner: LockStateOwner, access: LockAccess, range: LockRange)
    requires
        locks_agree(locks),
        range.solid(),
        conflict_at(locks, owner@, access, range, locks.len()) is None,
    ensures
        locks_agree(locks_with(locks, owner, access, range)),
        owned(
            locks_with(locks, owner, access, range),
            owner@,
            locks_with(locks, owner, access, range).len(),
        ) == pieces_locked(owned(locks, owner@, locks.len()), Piece { access, range }),
{
    let own = owned(locks, owner@, locks.len());
    let piece = Piece { access, range };
    let pieces = pieces_locked(own, piece);
    lemma_locked(own, piece);
    assert forall|i: int, k: int|
        0 <= i < locks.len() && 0 <= k < pieces.len() && (
        #[trigger] locks[i]).owner@ != owner@ implies !lock_against(
        locks[i],
        (#[trigger] pieces[k]).access,
        pieces[k].range,
    ) by {
        if ranges_overlap(locks[i].range, pieces[k].range) {
            lemma_owned_has(locks, locks[i].owner@, locks.len(), i);
            assert(locks[i].range.solid()) by {
                let theirs = owned(locks, locks[i].owner@, locks.len());
                let at = choose|at: int|
                    0 <= at < theirs.len() && #[trigger] theirs[at] == (Piece {
                        access: locks[i].access,
                        range: locks[i].range,
                    });
                assert(pieces_normal(theirs));
            }
            assert(pieces[k].range.solid());
            let byte: int = if locks[i].range.start < pieces[k].range.start {
                pieces[k].range.start as int
            } else {
                locks[i].range.start as int
            };
            assert(piece_holds(pieces[k], byte, pieces[k].access));
            assert(holds(pieces, byte, pieces[k].access));
            assert(0 <= byte < file_end());
            if range.has(byte) {
                lemma_no_conflict(locks, owner@, access, range, locks.len(), i);
            } else {
                lemma_piece_agrees(locks, owner@, pieces[k], i, byte);
            }
        }
    }
    lemma_agreement(locks, owner, pieces);
}

/// Unlocking keeps the locks in agreement.
pub proof fn lemma_unlock_agrees(locks: Seq<HeldLock>, owner: LockStateOwner, range: LockRange)
    requires
        locks_agree(locks),
        range.solid(),
    ensures
        locks_agree(locks_without(locks, owner, range)),
        owned(
            locks_without(locks, owner, range),
            owner@,
            locks_without(locks, owner, range).len(),
        ) == pieces_unlocked(owned(locks, owner@, locks.len()), range),
{
    let own = owned(locks, owner@, locks.len());
    let pieces = pieces_unlocked(own, range);
    lemma_unlocked(own, range);
    assert forall|i: int, k: int|
        0 <= i < locks.len() && 0 <= k < pieces.len() && (
        #[trigger] locks[i]).owner@ != owner@ implies !lock_against(
        locks[i],
        (#[trigger] pieces[k]).access,
        pieces[k].range,
    ) by {
        if ranges_overlap(locks[i].range, pieces[k].range) {
            lemma_owned_has(locks, locks[i].owner@, locks.len(), i);
            assert(locks[i].range.solid()) by {
                let theirs = owned(locks, locks[i].owner@, locks.len());
                let at = choose|at: int|
                    0 <= at < theirs.len() && #[trigger] theirs[at] == (Piece {
                        access: locks[i].access,
                        range: locks[i].range,
                    });
                assert(pieces_normal(theirs));
            }
            assert(pieces[k].range.solid());
            let byte: int = if locks[i].range.start < pieces[k].range.start {
                pieces[k].range.start as int
            } else {
                locks[i].range.start as int
            };
            assert(piece_holds(pieces[k], byte, pieces[k].access));
            assert(holds(pieces, byte, pieces[k].access));
            lemma_piece_agrees(locks, owner@, pieces[k], i, byte);
        }
    }
    lemma_agreement(locks, owner, pieces);
}

/// The stable form of pieces in normal form is one that the journal accepts.
pub proof fn lemma_stable_ranges_valid(pieces: Seq<Piece>)
    requires
        pieces_normal(pieces),
        pieces.len() > 0,
    ensures
        ranges_normalized(stable_ranges(pieces)),
{
    let ranges = stable_ranges(pieces);
    assert forall|i: int| 0 <= i < ranges.len() implies range_bounded(#[trigger] ranges[i]) by {
        assert(pieces[i].range.solid());
    }
    assert forall|i: int| 1 <= i < ranges.len() implies range_before(ranges[i - 1], #[trigger] ranges[i]) by {
        assert(pieces[i - 1].range.solid());
        assert(pieces[i].range.solid());
        assert(pieces[i - 1].range.stop() <= pieces[i].range.start);
        assert(merged_at(pieces, i));
    }
}

} // verus!
