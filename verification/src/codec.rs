//! The journal's binary encoding: fixed-width big-endian fields and length-prefixed byte strings.

use vstd::prelude::*;

use crate::error::StableJournalError;

verus! {

/// An export of the server.
#[derive(Clone, Copy, Debug, PartialEq, Eq, Structural)]
pub struct ExportId(pub u32);

/// One exported object: the export, the file in it and the generation of that file.
#[derive(Clone, Copy, Debug, PartialEq, Eq, Structural)]
pub struct StableObject {
    pub export_id: ExportId,
    pub file_id: u64,
    pub generation: u64,
}

/// The four bytes of a number, most significant first.
pub open spec fn be32(value: u32) -> Seq<u8> {
    seq![(value >> 24) as u8, (value >> 16) as u8, (value >> 8) as u8, value as u8]
}

/// The number that four bytes stand for, most significant first.
pub open spec fn from_be32(s: Seq<u8>) -> u32 {
    ((s[0] as u32) << 24) | ((s[1] as u32) << 16) | ((s[2] as u32) << 8) | (s[3] as u32)
}

/// The eight bytes of a number, most significant first.
pub open spec fn be64(value: u64) -> Seq<u8> {
    be32((value >> 32) as u32) + be32(value as u32)
}

/// The number that eight bytes stand for, most significant first.
pub open spec fn from_be64(s: Seq<u8>) -> u64 {
    ((from_be32(s.take(4)) as u64) << 32) | (from_be32(s.skip(4)) as u64)
}

/// The eight bytes of a signed number in two's complement.
pub open spec fn be_i64(value: i64) -> Seq<u8> {
    be64(value as u64)
}

/// A flag as one byte.
pub open spec fn flag(value: bool) -> Seq<u8> {
    seq![if value { 1u8 } else { 0u8 }]
}

/// A byte string behind its length.
pub open spec fn opaque_field(value: Seq<u8>) -> Seq<u8> {
    be32(value.len() as u32) + value
}

/// An object's three fields.
pub open spec fn object_field(object: StableObject) -> Seq<u8> {
    be32(object.export_id.0) + (be64(object.file_id) + be64(object.generation))
}

/// An object that may be absent, behind a flag.
pub open spec fn option_object_field(object: Option<StableObject>) -> Seq<u8> {
    match object {
        Some(object) => flag(true) + object_field(object),
        None => flag(false),
    }
}

/// What an opaque field does to the bytes before it, or why it cannot be written.
pub open spec fn put_opaque(before: Seq<u8>, value: Seq<u8>, limit: nat) -> Result<Seq<u8>, StableJournalError> {
    if value.len() > limit || value.len() > u32::MAX {
        Err(StableJournalError::LimitExceeded("stable opaque field"))
    } else {
        Ok(before + opaque_field(value))
    }
}

/// Four bytes give back the number they were made from, and the number its four bytes.
pub proof fn lemma_be32(value: u32, s: Seq<u8>)
    ensures
        be32(value).len() == 4,
        from_be32(be32(value)) == value,
        s.len() == 4 ==> be32(from_be32(s)) == s,
{
    assert(((((value >> 24) as u8) as u32) << 24) | ((((value >> 16) as u8) as u32) << 16) | ((((value >> 8)
        as u8) as u32) << 8) | ((value as u8) as u32) == value) by (bit_vector);
    if s.len() == 4 {
        let a = s[0];
        let b = s[1];
        let c = s[2];
        let d = s[3];
        let v = ((a as u32) << 24) | ((b as u32) << 16) | ((c as u32) << 8) | (d as u32);
        assert((v >> 24) as u8 == a && (v >> 16) as u8 == b && (v >> 8) as u8 == c && v as u8 == d) by (bit_vector)
            requires
                v == ((a as u32) << 24) | ((b as u32) << 16) | ((c as u32) << 8) | (d as u32),
        ;
        assert(be32(v) =~= s);
    }
}

/// Eight bytes give back the number they were made from, and the number its eight bytes.
pub proof fn lemma_be64(value: u64, s: Seq<u8>)
    ensures
        be64(value).len() == 8,
        from_be64(be64(value)) == value,
        s.len() == 8 ==> be64(from_be64(s)) == s,
{
    let high = (value >> 32) as u32;
    let low = value as u32;
    lemma_be32(high, seq![]);
    lemma_be32(low, seq![]);
    assert(be64(value).take(4) =~= be32(high));
    assert(be64(value).skip(4) =~= be32(low));
    assert((((value >> 32) as u32) as u64) << 32 | ((value as u32) as u64) == value) by (bit_vector);
    if s.len() == 8 {
        let h = from_be32(s.take(4));
        let l = from_be32(s.skip(4));
        lemma_be32(0, s.take(4));
        lemma_be32(0, s.skip(4));
        let v = ((h as u64) << 32) | (l as u64);
        assert((v >> 32) as u32 == h && v as u32 == l) by (bit_vector)
            requires
                v == ((h as u64) << 32) | (l as u64),
        ;
        assert(be64(v) =~= s.take(4) + s.skip(4));
        assert(s.take(4) + s.skip(4) =~= s);
    }
}

/// The same for signed numbers.
pub proof fn lemma_be_i64(value: i64, s: Seq<u8>)
    ensures
        be_i64(value).len() == 8,
        from_be64(be_i64(value)) as i64 == value,
        s.len() == 8 ==> be_i64(from_be64(s) as i64) == s,
{
    lemma_be64(value as u64, s);
    assert((value as u64) as i64 == value) by (bit_vector);
    let v = from_be64(s);
    assert((v as i64) as u64 == v) by (bit_vector);
}

/// A byte string under construction.
pub struct BinaryEncoder {
    bytes: Vec<u8>,
}

impl View for BinaryEncoder {
    type V = Seq<u8>;

    closed spec fn view(&self) -> Seq<u8> {
        self.bytes@
    }
}

impl BinaryEncoder {
    /// An encoder that holds nothing yet.
    pub fn new() -> (encoder: Self)
        ensures
            encoder@ == Seq::<u8>::empty(),
    {
        BinaryEncoder { bytes: Vec::new() }
    }

    /// Appends one byte.
    pub fn u8(&mut self, value: u8)
        ensures
            final(self)@ == old(self)@ + seq![value],
    {
        self.bytes.push(value);
        assert(self@ =~= old(self)@ + seq![value]);
    }

    /// Appends a flag.
    pub fn boolean(&mut self, value: bool)
        ensures
            final(self)@ == old(self)@ + flag(value),
    {
        if value {
            self.u8(1);
        } else {
            self.u8(0);
        }
    }

    /// Appends a 32-bit number.
    pub fn u32(&mut self, value: u32)
        ensures
            final(self)@ == old(self)@ + be32(value),
    {
        self.bytes.push(#[verifier::truncate] ((value >> 24) as u8));
        self.bytes.push(#[verifier::truncate] ((value >> 16) as u8));
        self.bytes.push(#[verifier::truncate] ((value >> 8) as u8));
        self.bytes.push(#[verifier::truncate] (value as u8));
        assert(self@ =~= old(self)@ + be32(value));
    }

    /// Appends a 64-bit number.
    pub fn u64(&mut self, value: u64)
        ensures
            final(self)@ == old(self)@ + be64(value),
    {
        self.u32(#[verifier::truncate] ((value >> 32) as u32));
        self.u32(#[verifier::truncate] (value as u32));
        assert(self@ =~= old(self)@ + be64(value));
    }

    /// Appends a signed 64-bit number.
    pub fn i64(&mut self, value: i64)
        ensures
            final(self)@ == old(self)@ + be_i64(value),
    {
        self.u64(#[verifier::truncate] (value as u64));
    }

    /// Appends bytes as they are.
    pub fn fixed(&mut self, value: &[u8])
        ensures
            final(self)@ == old(self)@ + value@,
    {
        self.bytes.extend_from_slice(value);
        assert(self@ =~= old(self)@ + value@);
    }

    /// Appends a byte string behind its length; refused, with nothing written, above the limit.
    pub fn opaque(&mut self, value: &[u8], limit: usize) -> (done: Result<(), StableJournalError>)
        ensures
            match done {
                Ok(_) => put_opaque(old(self)@, value@, limit as nat) == Ok::<Seq<u8>, StableJournalError>(
                    final(self)@,
                ),
                Err(e) => put_opaque(old(self)@, value@, limit as nat) == Err::<Seq<u8>, StableJournalError>(e)
                    && final(self)@ == old(self)@,
            },
    {
        if value.len() > limit || value.len() > u32::MAX as usize {
            return Err(StableJournalError::LimitExceeded("stable opaque field"));
        }
        self.u32(value.len() as u32);
        self.fixed(value);
        assert(self@ =~= old(self)@ + opaque_field(value@));
        Ok(())
    }

    /// Appends an object.
    pub fn object(&mut self, object: StableObject)
        ensures
            final(self)@ == old(self)@ + object_field(object),
    {
        self.u32(object.export_id.0);
        self.u64(object.file_id);
        self.u64(object.generation);
        assert(self@ =~= old(self)@ + object_field(object));
    }

    /// Appends an object that may be absent.
    pub fn option_object(&mut self, object: Option<StableObject>)
        ensures
            final(self)@ == old(self)@ + option_object_field(object),
    {
        self.boolean(object.is_some());
        if let Some(object) = object {
            self.object(object);
        }
        assert(self@ =~= old(self)@ + option_object_field(object));
    }

    /// The bytes written so far.
    pub fn finish(self) -> (bytes: Vec<u8>)
        ensures
            bytes@ == self@,
    {
        self.bytes
    }
}

/// A place in a byte string: what is still to be read, and how much has been.
#[verifier::ext_equal]
pub struct Cursor {
    pub rest: Seq<u8>,
    pub position: nat,
}

/// The outcome of reading one field: its value and the place behind it.
pub type Read<T> = Result<(T, Cursor), StableJournalError>;

/// The cursor at the start of a byte string.
pub open spec fn start(bytes: Seq<u8>) -> Cursor {
    Cursor { rest: bytes, position: 0 }
}

/// Reads the given number of bytes.
#[verifier::opaque]
pub open spec fn get_bytes(c: Cursor, length: nat) -> Read<Seq<u8>> {
    if c.position + length > usize::MAX {
        Err(StableJournalError::Corrupt("stable record length overflow"))
    } else if length > c.rest.len() {
        Err(StableJournalError::Corrupt("truncated stable record"))
    } else {
        Ok((c.rest.take(length as int), Cursor { rest: c.rest.skip(length as int), position: c.position + length }))
    }
}

/// Reads one byte.
#[verifier::opaque]
pub open spec fn get_u8(c: Cursor) -> Read<u8> {
    match get_bytes(c, 1) {
        Ok((s, next)) => Ok((s[0], next)),
        Err(e) => Err(e),
    }
}

/// Reads a flag; only 0 and 1 are flags.
#[verifier::opaque]
pub open spec fn get_flag(c: Cursor) -> Read<bool> {
    match get_u8(c) {
        Ok((b, next)) => if b == 0 {
            Ok((false, next))
        } else if b == 1 {
            Ok((true, next))
        } else {
            Err(StableJournalError::Corrupt("non-canonical stable boolean"))
        },
        Err(e) => Err(e),
    }
}

/// Reads a 32-bit number.
#[verifier::opaque]
pub open spec fn get_u32(c: Cursor) -> Read<u32> {
    match get_bytes(c, 4) {
        Ok((s, next)) => Ok((from_be32(s), next)),
        Err(e) => Err(e),
    }
}

/// Reads a 64-bit number.
#[verifier::opaque]
pub open spec fn get_u64(c: Cursor) -> Read<u64> {
    match get_bytes(c, 8) {
        Ok((s, next)) => Ok((from_be64(s), next)),
        Err(e) => Err(e),
    }
}

/// Reads a signed 64-bit number.
#[verifier::opaque]
pub open spec fn get_i64(c: Cursor) -> Read<i64> {
    match get_bytes(c, 8) {
        Ok((s, next)) => Ok((from_be64(s) as i64, next)),
        Err(e) => Err(e),
    }
}

/// Reads a byte string behind its length.
#[verifier::opaque]
pub open spec fn get_opaque(c: Cursor, limit: nat) -> Read<Seq<u8>> {
    match get_u32(c) {
        Ok((length, next)) => if length > limit {
            Err(StableJournalError::LimitExceeded("stable opaque field"))
        } else {
            get_bytes(next, length as nat)
        },
        Err(e) => Err(e),
    }
}

/// Reads an object.
#[verifier::opaque]
pub open spec fn get_object(c: Cursor) -> Read<StableObject> {
    match get_u32(c) {
        Ok((export_id, c1)) => match get_u64(c1) {
            Ok((file_id, c2)) => match get_u64(c2) {
                Ok((generation, c3)) => Ok((StableObject { export_id: ExportId(export_id), file_id, generation }, c3)),
                Err(e) => Err(e),
            },
            Err(e) => Err(e),
        },
        Err(e) => Err(e),
    }
}

/// Reads an object that may be absent.
#[verifier::opaque]
pub open spec fn get_option_object(c: Cursor) -> Read<Option<StableObject>> {
    match get_flag(c) {
        Ok((present, next)) => if present {
            match get_object(next) {
                Ok((object, last)) => Ok((Some(object), last)),
                Err(e) => Err(e),
            }
        } else {
            Ok((None, next))
        },
        Err(e) => Err(e),
    }
}

/// Reads the bytes that mark a key or a record.
pub open spec fn get_magic(c: Cursor, magic: Seq<u8>) -> Read<()> {
    match get_bytes(c, magic.len()) {
        Ok((s, next)) => if s == magic {
            Ok(((), next))
        } else {
            Err(StableJournalError::Corrupt("invalid stable record magic"))
        },
        Err(e) => Err(e),
    }
}

/// Nothing may be left behind the last field.
pub open spec fn get_end(c: Cursor) -> Result<(), StableJournalError> {
    if c.rest.len() == 0 {
        Ok(())
    } else {
        Err(StableJournalError::Corrupt("trailing bytes in stable record"))
    }
}

/// `result` is what reading a field gives: the value with the decoder moved behind it, or the error.
pub open spec fn reads<T>(before: Cursor, after: Cursor, expected: Read<T>, result: Result<T, StableJournalError>) -> bool {
    match result {
        Ok(value) => expected == Ok::<(T, Cursor), StableJournalError>((value, after)),
        Err(e) => expected == Err::<(T, Cursor), StableJournalError>(e),
    }
}

/// Where a reader stands once it has tried to read a field that it reads whole or not at all.
pub open spec fn behind<T>(before: Cursor, read: Read<T>) -> Cursor {
    match read {
        Ok((_, next)) => next,
        Err(_) => before,
    }
}

/// Where a reader stands once it could not read an object: behind the parts that it could read.
pub open spec fn object_stop(c: Cursor) -> Cursor {
    match get_u32(c) {
        Ok((_, next)) => behind(next, get_u64(next)),
        Err(_) => c,
    }
}

/// A reader over a byte string.
pub struct BinaryDecoder<'a> {
    bytes: &'a [u8],
    position: usize,
}

impl<'a> BinaryDecoder<'a> {
    #[verifier::type_invariant]
    spec fn within(&self) -> bool {
        self.position <= self.bytes@.len()
    }

    /// Where the reader stands.
    pub closed spec fn cursor(&self) -> Cursor {
        Cursor { rest: self.bytes@.skip(self.position as int), position: self.position as nat }
    }

    /// A reader at the start of the bytes.
    pub fn new(bytes: &'a [u8]) -> (decoder: Self)
        ensures
            decoder.cursor() == start(bytes@),
    {
        let decoder = BinaryDecoder { bytes, position: 0 };
        assert(decoder.cursor().rest =~= bytes@);
        decoder
    }

    /// Reads bytes in place.
    pub fn take(&mut self, length: usize) -> (value: Result<&'a [u8], StableJournalError>)
        ensures
            match value {
                Ok(s) => get_bytes(old(self).cursor(), length as nat) == Ok::<(Seq<u8>, Cursor), StableJournalError>(
                    (s@, final(self).cursor()),
                ),
                Err(e) => get_bytes(old(self).cursor(), length as nat) == Err::<(Seq<u8>, Cursor), StableJournalError>(
                    e,
                ),
            },
            value is Err ==> final(self).cursor() == old(self).cursor(),
    {
        proof {
            reveal(get_bytes);
        }
        proof {
            use_type_invariant(&*self);
        }
        let bytes: &'a [u8] = self.bytes;
        let begin: usize = self.position;
        let end: usize = match begin.checked_add(length) {
            Some(end) => end,
            None => {
                return Err(StableJournalError::Corrupt("stable record length overflow"));
            },
        };
        if end > bytes.len() {
            return Err(StableJournalError::Corrupt("truncated stable record"));
        }
        let value = vstd::slice::slice_subrange(bytes, begin, end);
        self.position = end;
        proof {
            let before = old(self).cursor();
            assert(value@ =~= before.rest.take(length as int));
            assert(self.cursor().rest =~= before.rest.skip(length as int));
        }
        Ok(value)
    }

    /// How many bytes are left.
    pub fn remaining(&self) -> (count: usize)
        ensures
            count == self.cursor().rest.len(),
    {
        proof {
            use_type_invariant(self);
        }
        self.bytes.len() - self.position
    }

    /// Reads one byte.
    pub fn u8(&mut self) -> (value: Result<u8, StableJournalError>)
        ensures
            reads(old(self).cursor(), final(self).cursor(), get_u8(old(self).cursor()), value),
            value is Err ==> final(self).cursor() == old(self).cursor(),
    {
        proof {
            reveal(get_u8);
            reveal(get_bytes);
        }
        match self.take(1) {
            Ok(s) => Ok(s[0]),
            Err(e) => Err(e),
        }
    }

    /// Reads a flag.
    pub fn boolean(&mut self) -> (value: Result<bool, StableJournalError>)
        ensures
            reads(old(self).cursor(), final(self).cursor(), get_flag(old(self).cursor()), value),
            value is Err ==> final(self).cursor() == behind(old(self).cursor(), get_u8(old(self).cursor())),
    {
        proof {
            reveal(get_flag);
        }
        match self.u8() {
            Ok(b) => if b == 0 {
                Ok(false)
            } else if b == 1 {
                Ok(true)
            } else {
                Err(StableJournalError::Corrupt("non-canonical stable boolean"))
            },
            Err(e) => Err(e),
        }
    }

    /// Reads a 32-bit number.
    pub fn u32(&mut self) -> (value: Result<u32, StableJournalError>)
        ensures
            reads(old(self).cursor(), final(self).cursor(), get_u32(old(self).cursor()), value),
            value is Err ==> final(self).cursor() == old(self).cursor(),
    {
        proof {
            reveal(get_u32);
            reveal(get_bytes);
        }
        match self.take(4) {
            Ok(s) => Ok(number32(s)),
            Err(e) => Err(e),
        }
    }

    /// Reads a 64-bit number.
    pub fn u64(&mut self) -> (value: Result<u64, StableJournalError>)
        ensures
            reads(old(self).cursor(), final(self).cursor(), get_u64(old(self).cursor()), value),
            value is Err ==> final(self).cursor() == old(self).cursor(),
    {
        proof {
            reveal(get_u64);
            reveal(get_bytes);
        }
        match self.take(8) {
            Ok(s) => Ok(number64(s)),
            Err(e) => Err(e),
        }
    }

    /// Reads a signed 64-bit number.
    pub fn i64(&mut self) -> (value: Result<i64, StableJournalError>)
        ensures
            reads(old(self).cursor(), final(self).cursor(), get_i64(old(self).cursor()), value),
            value is Err ==> final(self).cursor() == old(self).cursor(),
    {
        proof {
            reveal(get_i64);
            reveal(get_bytes);
        }
        match self.take(8) {
            Ok(s) => Ok(#[verifier::truncate] (number64(s) as i64)),
            Err(e) => Err(e),
        }
    }

    /// Reads an array of bytes.
    pub fn fixed<const N: usize>(&mut self) -> (value: Result<[u8; N], StableJournalError>)
        ensures
            match value {
                Ok(a) => get_bytes(old(self).cursor(), N as nat) == Ok::<(Seq<u8>, Cursor), StableJournalError>(
                    (a@, final(self).cursor()),
                ),
                Err(e) => get_bytes(old(self).cursor(), N as nat) == Err::<(Seq<u8>, Cursor), StableJournalError>(e),
            },
            value is Err ==> final(self).cursor() == old(self).cursor(),
    {
        proof {
            reveal(get_bytes);
        }
        match self.take(N) {
            Ok(s) => {
                let mut value: [u8; N] = [0u8; N];
                let mut k: usize = 0;
                while k < N
                    invariant
                        k <= N,
                        s@.len() == N,
                        forall|j: int| 0 <= j < k ==> value@[j] == s@[j],
                    decreases N - k,
                {
                    value[k] = s[k];
                    k += 1;
                }
                assert(value@ =~= s@);
                Ok(value)
            },
            Err(e) => Err(e),
        }
    }

    /// Reads the bytes that mark a key or a record.
    pub fn expect_fixed<const N: usize>(&mut self, expected: &[u8; N]) -> (done: Result<(), StableJournalError>)
        ensures
            reads(old(self).cursor(), final(self).cursor(), get_magic(old(self).cursor(), expected@), done),
            done is Err ==> final(self).cursor() == behind(old(self).cursor(), get_bytes(old(self).cursor(), N as nat)),
    {
        match self.fixed::<N>() {
            Ok(found) => if crate::bytes::array_equal(&found, expected) {
                Ok(())
            } else {
                Err(StableJournalError::Corrupt("invalid stable record magic"))
            },
            Err(e) => Err(e),
        }
    }

    /// Reads a byte string behind its length.
    pub fn opaque(&mut self, limit: usize) -> (value: Result<Vec<u8>, StableJournalError>)
        ensures
            match value {
                Ok(v) => get_opaque(old(self).cursor(), limit as nat) == Ok::<(Seq<u8>, Cursor), StableJournalError>(
                    (v@, final(self).cursor()),
                ),
                Err(e) => get_opaque(old(self).cursor(), limit as nat) == Err::<(Seq<u8>, Cursor), StableJournalError>(
                    e,
                ),
            },
            value is Err ==> final(self).cursor() == behind(old(self).cursor(), get_u32(old(self).cursor())),
    {
        proof {
            reveal(get_opaque);
        }
        let length: usize = match self.u32() {
            Ok(length) => length as usize,
            Err(e) => {
                return Err(e);
            },
        };
        if length > limit {
            return Err(StableJournalError::LimitExceeded("stable opaque field"));
        }
        match self.take(length) {
            Ok(s) => Ok(crate::bytes::copy_bytes(s)),
            Err(e) => Err(e),
        }
    }

    /// Reads an object.
    pub fn object(&mut self) -> (value: Result<StableObject, StableJournalError>)
        ensures
            reads(old(self).cursor(), final(self).cursor(), get_object(old(self).cursor()), value),
            value is Err ==> final(self).cursor() == object_stop(old(self).cursor()),
    {
        proof {
            reveal(get_object);
        }
        let export_id: u32 = self.u32()?;
        let file_id: u64 = self.u64()?;
        let generation: u64 = self.u64()?;
        Ok(StableObject { export_id: ExportId(export_id), file_id, generation })
    }

    /// Reads an object that may be absent.
    pub fn option_object(&mut self) -> (value: Result<Option<StableObject>, StableJournalError>)
        ensures
            reads(old(self).cursor(), final(self).cursor(), get_option_object(old(self).cursor()), value),
            value is Err ==> final(self).cursor() == match get_flag(old(self).cursor()) {
                Ok((_, next)) => object_stop(next),
                Err(_) => behind(old(self).cursor(), get_u8(old(self).cursor())),
            },
    {
        proof {
            reveal(get_option_object);
        }
        if self.boolean()? {
            let object = self.object()?;
            Ok(Some(object))
        } else {
            Ok(None)
        }
    }

    /// Nothing may be left.
    pub fn finish(self) -> (done: Result<(), StableJournalError>)
        ensures
            done == get_end(self.cursor()),
    {
        proof {
            use_type_invariant(&self);
        }
        if self.position == self.bytes.len() {
            Ok(())
        } else {
            Err(StableJournalError::Corrupt("trailing bytes in stable record"))
        }
    }
}

/// The number that four bytes stand for.
fn number32(s: &[u8]) -> (value: u32)
    requires
        s@.len() == 4,
    ensures
        value == from_be32(s@),
{
    ((s[0] as u32) << 24) | ((s[1] as u32) << 16) | ((s[2] as u32) << 8) | (s[3] as u32)
}

/// The number that eight bytes stand for.
pub fn number64(s: &[u8]) -> (value: u64)
    requires
        s@.len() == 8,
    ensures
        value == from_be64(s@),
{
    let high = vstd::slice::slice_subrange(s, 0, 4);
    let low = vstd::slice::slice_subrange(s, 4, 8);
    assert(high@ =~= s@.take(4));
    assert(low@ =~= s@.skip(4));
    ((number32(high) as u64) << 32) | (number32(low) as u64)
}

/// Joining byte strings is associative.
pub proof fn lemma_join(a: Seq<u8>, b: Seq<u8>, c: Seq<u8>)
    ensures
        (a + b) + c == a + (b + c),
{
    assert((a + b) + c =~= a + (b + c));
}

/// Reading gives back what was written: bytes.
pub proof fn lemma_get_bytes(value: Seq<u8>, tail: Seq<u8>, position: nat)
    requires
        position + value.len() <= usize::MAX,
    ensures
        get_bytes(Cursor { rest: value + tail, position }, value.len()) == Ok::<(Seq<u8>, Cursor), StableJournalError>(
            (value, Cursor { rest: tail, position: position + value.len() }),
        ),
{
    reveal(get_bytes);
    assert((value + tail).take(value.len() as int) =~= value);
    assert((value + tail).skip(value.len() as int) =~= tail);
}

/// Reading gives back what was written: one byte, a flag, numbers, a byte string, objects.
pub proof fn lemma_get_u8(value: u8, tail: Seq<u8>, position: nat)
    requires
        position + 1 <= usize::MAX,
    ensures
        get_u8(Cursor { rest: seq![value] + tail, position }) == Ok::<(u8, Cursor), StableJournalError>(
            (value, Cursor { rest: tail, position: position + 1 }),
        ),
{
    reveal(get_u8);
    lemma_get_bytes(seq![value], tail, position);
}

/// A flag is read as it was written.
pub proof fn lemma_get_flag(value: bool, tail: Seq<u8>, position: nat)
    requires
        position + 1 <= usize::MAX,
    ensures
        get_flag(Cursor { rest: flag(value) + tail, position }) == Ok::<(bool, Cursor), StableJournalError>(
            (value, Cursor { rest: tail, position: position + 1 }),
        ),
{
    reveal(get_flag);
    lemma_get_u8(if value { 1u8 } else { 0u8 }, tail, position);
}

/// A 32-bit number is read as it was written.
pub proof fn lemma_get_u32(value: u32, tail: Seq<u8>, position: nat)
    requires
        position + 4 <= usize::MAX,
    ensures
        get_u32(Cursor { rest: be32(value) + tail, position }) == Ok::<(u32, Cursor), StableJournalError>(
            (value, Cursor { rest: tail, position: position + 4 }),
        ),
{
    reveal(get_u32);
    lemma_be32(value, seq![]);
    lemma_get_bytes(be32(value), tail, position);
}

/// A 64-bit number is read as it was written.
pub proof fn lemma_get_u64(value: u64, tail: Seq<u8>, position: nat)
    requires
        position + 8 <= usize::MAX,
    ensures
        get_u64(Cursor { rest: be64(value) + tail, position }) == Ok::<(u64, Cursor), StableJournalError>(
            (value, Cursor { rest: tail, position: position + 8 }),
        ),
{
    reveal(get_u64);
    lemma_be64(value, seq![]);
    lemma_get_bytes(be64(value), tail, position);
}

/// A signed number is read as it was written.
pub proof fn lemma_get_i64(value: i64, tail: Seq<u8>, position: nat)
    requires
        position + 8 <= usize::MAX,
    ensures
        get_i64(Cursor { rest: be_i64(value) + tail, position }) == Ok::<(i64, Cursor), StableJournalError>(
            (value, Cursor { rest: tail, position: position + 8 }),
        ),
{
    reveal(get_i64);
    lemma_be_i64(value, seq![]);
    lemma_get_bytes(be_i64(value), tail, position);
}

/// A byte string within its limit is read as it was written.
pub proof fn lemma_get_opaque(value: Seq<u8>, limit: nat, tail: Seq<u8>, position: nat)
    requires
        value.len() <= limit,
        value.len() <= u32::MAX,
        position + 4 + value.len() <= usize::MAX,
    ensures
        get_opaque(Cursor { rest: opaque_field(value) + tail, position }, limit) == Ok::<
            (Seq<u8>, Cursor),
            StableJournalError,
        >((value, Cursor { rest: tail, position: position + 4 + value.len() })),
        opaque_field(value).len() == 4 + value.len(),
{
    reveal(get_opaque);
    lemma_be32(value.len() as u32, seq![]);
    assert(opaque_field(value) + tail =~= be32(value.len() as u32) + (value + tail));
    lemma_get_u32(value.len() as u32, value + tail, position);
    lemma_get_bytes(value, tail, position + 4);
}

/// An object is read as it was written.
pub proof fn lemma_get_object(object: StableObject, tail: Seq<u8>, position: nat)
    requires
        position + 20 <= usize::MAX,
    ensures
        get_object(Cursor { rest: object_field(object) + tail, position }) == Ok::<
            (StableObject, Cursor),
            StableJournalError,
        >((object, Cursor { rest: tail, position: position + 20 })),
        object_field(object).len() == 20,
{
    reveal(get_object);
    lemma_be32(object.export_id.0, seq![]);
    lemma_be64(object.file_id, seq![]);
    lemma_be64(object.generation, seq![]);
    let t2 = be64(object.generation) + tail;
    let t1 = be64(object.file_id) + t2;
    assert(object_field(object) + tail =~= be32(object.export_id.0) + t1);
    lemma_get_u32(object.export_id.0, t1, position);
    lemma_get_u64(object.file_id, t2, position + 4);
    lemma_get_u64(object.generation, tail, position + 12);
}

/// An object that may be absent is read as it was written.
pub proof fn lemma_get_option_object(object: Option<StableObject>, tail: Seq<u8>, position: nat)
    requires
        position + option_object_field(object).len() <= usize::MAX,
    ensures
        get_option_object(Cursor { rest: option_object_field(object) + tail, position }) == Ok::<
            (Option<StableObject>, Cursor),
            StableJournalError,
        >((object, Cursor { rest: tail, position: position + option_object_field(object).len() })),
{
    reveal(get_option_object);
    match object {
        Some(value) => {
            lemma_be32(value.export_id.0, seq![]);
            lemma_be64(value.file_id, seq![]);
            lemma_be64(value.generation, seq![]);
            lemma_join(flag(true), object_field(value), tail);
            lemma_get_flag(true, object_field(value) + tail, position);
            lemma_get_object(value, tail, position + 1);
        },
        None => {
            lemma_get_flag(false, tail, position);
        },
    }
}

/// Reading a 32-bit number leaves no more than there was.
pub proof fn lemma_u32_shrinks(c: Cursor)
    ensures
        get_u32(c) matches Ok((_, next)) ==> next.rest.len() <= c.rest.len(),
{
    reveal(get_u32);
    reveal(get_bytes);
}

} // verus!
