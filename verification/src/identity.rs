//! Who a client is, and the identifiers that are derived from it.

use sha2::{Digest, Sha256};
use vstd::prelude::*;

use crate::bytes::bytes_equal;
use crate::codec::{be32, be64, opaque_field};
use crate::protocol::{append, append_number};
use crate::transfer::number_key;

verus! {

/// The version of an RPCSEC_GSS context.
#[derive(Clone, Copy, Debug, PartialEq, Eq, Structural)]
pub enum GssVersion {
    V1,
    V2,
    V3,
}

/// The protection of an RPCSEC_GSS request.
#[derive(Clone, Copy, Debug, PartialEq, Eq, Structural)]
pub enum GssService {
    Authentication,
    Integrity,
    Privacy,
}

/// The authenticated sender of a request.
#[derive(Clone, Debug, PartialEq, Eq)]
pub enum Principal {
    Anonymous,
    AuthSys { uid: u32, gid: u32, supplementary_gids: Vec<u32>, machine_name: Vec<u8> },
    Gss { canonical_name: Vec<u8>, mechanism: Vec<u8>, version: GssVersion, service: GssService },
}

/// What a sender stands for.
#[verifier::ext_equal]
pub enum PrincipalView {
    Anonymous,
    AuthSys { uid: u32, gid: u32, supplementary_gids: Seq<u32>, machine_name: Seq<u8> },
    Gss { canonical_name: Seq<u8>, mechanism: Seq<u8>, version: GssVersion, service: GssService },
}

impl View for Principal {
    type V = PrincipalView;

    open spec fn view(&self) -> PrincipalView {
        match *self {
            Principal::Anonymous => PrincipalView::Anonymous,
            Principal::AuthSys { uid, gid, supplementary_gids, machine_name } => PrincipalView::AuthSys {
                uid,
                gid,
                supplementary_gids: supplementary_gids@,
                machine_name: machine_name@,
            },
            Principal::Gss { canonical_name, mechanism, version, service } => PrincipalView::Gss {
                canonical_name: canonical_name@,
                mechanism: mechanism@,
                version,
                service,
            },
        }
    }
}

/// Two senders are the same client. A GSS name and mechanism identify a client whatever the version and the
/// protection of a request; other senders must be the same in everything.
pub open spec fn same_identity(a: PrincipalView, b: PrincipalView) -> bool {
    match (a, b) {
        (
            PrincipalView::Gss { canonical_name: n, mechanism: m, .. },
            PrincipalView::Gss { canonical_name: o, mechanism: p, .. },
        ) => n == o && m == p,
        _ => a == b,
    }
}

/// Numbers behind each other.
pub open spec fn number_list(numbers: Seq<u32>, n: nat) -> Seq<u8>
    decreases n,
{
    if n == 0 {
        seq![]
    } else {
        number_list(numbers, (n - 1) as nat) + be32(numbers[n - 1])
    }
}

/// The bytes by which a client is known over restarts.
pub open spec fn canonical_identity(principal: PrincipalView) -> Seq<u8> {
    match principal {
        PrincipalView::Anonymous => seq![0u8],
        PrincipalView::AuthSys { uid, gid, supplementary_gids, machine_name } => seq![1u8] + be32(uid) + be32(gid)
            + be32(supplementary_gids.len() as u32) + number_list(supplementary_gids, supplementary_gids.len())
            + opaque_field(machine_name),
        PrincipalView::Gss { canonical_name, mechanism, .. } => seq![2u8] + opaque_field(canonical_name)
            + opaque_field(mechanism),
    }
}

/// Whether two lists of numbers are the same.
fn numbers_equal(a: &Vec<u32>, b: &Vec<u32>) -> (same: bool)
    ensures
        same == (a@ == b@),
{
    if a.len() != b.len() {
        return false;
    }
    let mut i: usize = 0;
    while i < a.len()
        invariant
            i <= a@.len(),
            a@.len() == b@.len(),
            forall|j: int| 0 <= j < i ==> a@[j] == b@[j],
        decreases a@.len() - i,
    {
        if a[i] != b[i] {
            return false;
        }
        i += 1;
    }
    assert(a@ =~= b@);
    true
}

/// Whether two senders are the same client.
pub fn same_client_identity(stored: &Principal, presented: &Principal) -> (same: bool)
    ensures
        same == same_identity(stored@, presented@),
{
    match (stored, presented) {
        (
            Principal::Gss { canonical_name: n, mechanism: m, version: _, service: _ },
            Principal::Gss { canonical_name: o, mechanism: p, version: _, service: _ },
        ) => bytes_equal(n.as_slice(), o.as_slice()) && bytes_equal(m.as_slice(), p.as_slice()),
        (
            Principal::AuthSys { uid: u, gid: g, supplementary_gids: s, machine_name: h },
            Principal::AuthSys { uid: v, gid: f, supplementary_gids: t, machine_name: k },
        ) => *u == *v && *g == *f && numbers_equal(s, t) && bytes_equal(h.as_slice(), k.as_slice()),
        (Principal::Anonymous, Principal::Anonymous) => true,
        _ => false,
    }
}

/// The bytes by which a client is known over restarts.
#[verifier::truncate]
pub fn canonical_client_identity(principal: &Principal) -> (identity: Vec<u8>)
    ensures
        identity@ == canonical_identity(principal@),
{
    let mut value: Vec<u8> = Vec::new();
    match principal {
        Principal::Anonymous => {
            value.push(0);
            assert(value@ =~= seq![0u8]);
        },
        Principal::AuthSys { uid, gid, supplementary_gids, machine_name } => {
            value.push(1);
            assert(value@ =~= seq![1u8]);
            append_number(&mut value, *uid);
            append_number(&mut value, *gid);
            append_number(&mut value, supplementary_gids.len() as u32);
            let ghost head = value@;
            let mut i: usize = 0;
            while i < supplementary_gids.len()
                invariant
                    i <= supplementary_gids@.len(),
                    value@ == head + number_list(supplementary_gids@, i as nat),
                decreases supplementary_gids@.len() - i,
            {
                append_number(&mut value, supplementary_gids[i]);
                assert(value@ =~= head + number_list(supplementary_gids@, (i + 1) as nat));
                i += 1;
            }
            append_number(&mut value, machine_name.len() as u32);
            append(&mut value, machine_name.as_slice());
            assert(value@ =~= canonical_identity(principal@));
        },
        Principal::Gss { canonical_name, mechanism, version: _, service: _ } => {
            value.push(2);
            assert(value@ =~= seq![2u8]);
            append_number(&mut value, canonical_name.len() as u32);
            append(&mut value, canonical_name.as_slice());
            append_number(&mut value, mechanism.len() as u32);
            append(&mut value, mechanism.as_slice());
            assert(value@ =~= canonical_identity(principal@));
        },
    }
    value
}

/// A list of numbers has four bytes for each.
proof fn lemma_number_list(a: Seq<u32>, b: Seq<u32>, n: nat)
    requires
        n <= a.len(),
        n <= b.len(),
    ensures
        number_list(a, n).len() == 4 * n,
        number_list(a, n) == number_list(b, n) ==> a.take(n as int) == b.take(n as int),
    decreases n,
{
    if n > 0 {
        lemma_number_list(a, b, (n - 1) as nat);
        lemma_number_list(b, a, (n - 1) as nat);
        crate::codec::lemma_be32(a[n - 1], seq![]);
        crate::codec::lemma_be32(b[n - 1], seq![]);
        if number_list(a, n) == number_list(b, n) {
            let m = 4 * (n - 1);
            assert(number_list(a, n).take(m) =~= number_list(a, (n - 1) as nat));
            assert(number_list(b, n).take(m) =~= number_list(b, (n - 1) as nat));
            assert(number_list(a, n).skip(m) =~= be32(a[n - 1]));
            assert(number_list(b, n).skip(m) =~= be32(b[n - 1]));
            assert(a.take(n as int) =~= a.take(n - 1).push(a[n - 1]));
            assert(b.take(n as int) =~= b.take(n - 1).push(b[n - 1]));
        }
    } else {
        assert(a.take(0) =~= b.take(0));
    }
}

/// The lengths of a sender's fields fit their prefixes.
pub open spec fn fields_fit(principal: PrincipalView) -> bool {
    match principal {
        PrincipalView::Anonymous => true,
        PrincipalView::AuthSys { supplementary_gids, machine_name, .. } => supplementary_gids.len() <= u32::MAX
            && machine_name.len() <= u32::MAX,
        PrincipalView::Gss { canonical_name, mechanism, .. } => canonical_name.len() <= u32::MAX && mechanism.len()
            <= u32::MAX,
    }
}

/// Two fields behind their lengths, compared from the front.
proof fn lemma_fields(a: Seq<u8>, x: Seq<u8>, b: Seq<u8>, y: Seq<u8>)
    requires
        a.len() <= u32::MAX,
        b.len() <= u32::MAX,
        opaque_field(a) + x == opaque_field(b) + y,
    ensures
        a == b,
        x == y,
{
    crate::codec::lemma_be32(a.len() as u32, seq![]);
    crate::codec::lemma_be32(b.len() as u32, seq![]);
    let s = opaque_field(a) + x;
    assert(s.take(4) =~= be32(a.len() as u32));
    assert((opaque_field(b) + y).take(4) =~= be32(b.len() as u32));
    assert(s.subrange(4, (4 + a.len()) as int) =~= a);
    assert((opaque_field(b) + y).subrange(4, (4 + b.len()) as int) =~= b);
    assert(s.skip((4 + a.len()) as int) =~= x);
    assert((opaque_field(b) + y).skip((4 + b.len()) as int) =~= y);
}

/// The bytes by which a client is known are the same exactly where the client is.
pub proof fn lemma_canonical_identity(a: PrincipalView, b: PrincipalView)
    requires
        fields_fit(a),
        fields_fit(b),
    ensures
        (canonical_identity(a) == canonical_identity(b)) == same_identity(a, b),
{
    let s = canonical_identity(a);
    let t = canonical_identity(b);
    if s == t {
        assert(s[0] == t[0]);
        match (a, b) {
            (
                PrincipalView::AuthSys { uid: u, gid: g, supplementary_gids: p, machine_name: m },
                PrincipalView::AuthSys { uid: v, gid: h, supplementary_gids: q, machine_name: n },
            ) => {
                crate::codec::lemma_be32(u, seq![]);
                crate::codec::lemma_be32(v, seq![]);
                crate::codec::lemma_be32(g, seq![]);
                crate::codec::lemma_be32(h, seq![]);
                crate::codec::lemma_be32(p.len() as u32, seq![]);
                crate::codec::lemma_be32(q.len() as u32, seq![]);
                lemma_number_list(p, p, p.len());
                lemma_number_list(q, q, q.len());
                assert(s.subrange(1, 5) =~= be32(u));
                assert(t.subrange(1, 5) =~= be32(v));
                assert(s.subrange(5, 9) =~= be32(g));
                assert(t.subrange(5, 9) =~= be32(h));
                assert(s.subrange(9, 13) =~= be32(p.len() as u32));
                assert(t.subrange(9, 13) =~= be32(q.len() as u32));
                let k = 13 + 4 * p.len();
                assert(s.subrange(13, k as int) =~= number_list(p, p.len()));
                assert(t.subrange(13, k as int) =~= number_list(q, q.len()));
                lemma_number_list(p, q, p.len());
                assert(p.take(p.len() as int) =~= p);
                assert(q.take(q.len() as int) =~= q);
                assert(s.skip(k as int) =~= opaque_field(m) + Seq::<u8>::empty());
                assert(t.skip(k as int) =~= opaque_field(n) + Seq::<u8>::empty());
                lemma_fields(m, Seq::empty(), n, Seq::empty());
            },
            (
                PrincipalView::Gss { canonical_name: c, mechanism: m, .. },
                PrincipalView::Gss { canonical_name: d, mechanism: n, .. },
            ) => {
                assert(s.skip(1) =~= opaque_field(c) + opaque_field(m));
                assert(t.skip(1) =~= opaque_field(d) + opaque_field(n));
                lemma_fields(c, opaque_field(m), d, opaque_field(n));
                assert(opaque_field(m) =~= opaque_field(m) + Seq::<u8>::empty());
                assert(opaque_field(n) =~= opaque_field(n) + Seq::<u8>::empty());
                lemma_fields(m, Seq::empty(), n, Seq::empty());
            },
            _ => {},
        }
    }
}

/// The SHA-256 digest of a message: a function of the message alone.
pub uninterp spec fn sha256(message: Seq<u8>) -> Seq<u8>;

/// The SHA-256 digest of a message, by `sha2::Sha256::digest`; its 32 bytes are named, not described.
#[verifier::external_body]
fn digest_of(message: &[u8]) -> (digest: [u8; 32])
    ensures
        digest@ == sha256(message@),
{
    Sha256::digest(message).into()
}

/// What the digest of an open's pin begins with.
pub open spec fn pin_label() -> Seq<u8> {
    seq![
        110u8, 102u8, 115u8, 101u8, 109u8, 98u8, 101u8, 100u8, 47u8, 110u8, 102u8, 115u8, 52u8, 47u8, 111u8, 112u8,
        101u8, 110u8, 45u8, 112u8, 105u8, 110u8,
    ]
}

/// The pin of an open's file with the backend: 16 bytes of the digest of `nfsembed/nfs4/open-pin`, the run's tag
/// and the number of the reservation.
pub fn open_pin(boot_tag: u32, reservation: u64) -> (pin: [u8; 16])
    ensures
        pin@ == sha256(pin_label() + be32(boot_tag) + be64(reservation)).take(16),
{
    let label: [u8; 22] = [
        110, 102, 115, 101, 109, 98, 101, 100, 47, 110, 102, 115, 52, 47, 111, 112, 101, 110, 45, 112, 105, 110,
    ];
    let mut message: Vec<u8> = Vec::new();
    append(&mut message, label.as_slice());
    assert(message@ =~= pin_label());
    append_number(&mut message, boot_tag);
    let number = number_key(reservation);
    append(&mut message, number.as_slice());
    let d = digest_of(message.as_slice());
    let pin = [
        d[0], d[1], d[2], d[3], d[4], d[5], d[6], d[7], d[8], d[9], d[10], d[11], d[12], d[13], d[14], d[15],
    ];
    assert(pin@ =~= d@.take(16));
    pin
}

/// What the digest of a client's confirmation begins with.
pub open spec fn confirmation_label() -> Seq<u8> {
    seq![
        110u8, 102u8, 115u8, 101u8, 109u8, 98u8, 101u8, 100u8, 47u8, 110u8, 102u8, 115u8, 52u8, 47u8, 115u8, 101u8,
        116u8, 99u8, 108u8, 105u8, 101u8, 110u8, 116u8, 105u8, 100u8, 45u8, 99u8, 111u8, 110u8, 102u8, 105u8, 114u8,
        109u8,
    ]
}

/// What a client's confirmation is the digest of.
pub open spec fn confirmation_message(boot_tag: u32, client_id: u64, counter: u64, verifier: Seq<u8>) -> Seq<u8> {
    confirmation_label() + be32(boot_tag) + be64(client_id) + be64(counter) + verifier
}

/// The confirmation that a client must send back: 8 bytes of the digest of `nfsembed/nfs4/setclientid-confirm`, the
/// run's tag, the client's number, the number of the confirmation and the client's verifier.
pub fn confirmation_of(boot_tag: u32, client_id: u64, counter: u64, verifier: &[u8; 8]) -> (confirmation: [u8; 8])
    ensures
        confirmation@ == sha256(confirmation_message(boot_tag, client_id, counter, verifier@)).take(8),
{
    let label: [u8; 33] = [
        110, 102, 115, 101, 109, 98, 101, 100, 47, 110, 102, 115, 52, 47, 115, 101, 116, 99, 108, 105, 101, 110, 116,
        105, 100, 45, 99, 111, 110, 102, 105, 114, 109,
    ];
    let mut message: Vec<u8> = Vec::new();
    append(&mut message, label.as_slice());
    assert(message@ =~= confirmation_label());
    append_number(&mut message, boot_tag);
    let id = number_key(client_id);
    append(&mut message, id.as_slice());
    let number = number_key(counter);
    append(&mut message, number.as_slice());
    append(&mut message, verifier.as_slice());
    let d = digest_of(message.as_slice());
    let confirmation = [d[0], d[1], d[2], d[3], d[4], d[5], d[6], d[7]];
    assert(confirmation@ =~= d@.take(8));
    confirmation
}

/// What a confirmation is made of tells the run, the client, the number of the confirmation and the verifier: a change of
/// any of them is a change of what is digested.
pub proof fn lemma_confirmation_message(
    boot_tag: u32,
    client_id: u64,
    counter: u64,
    verifier: Seq<u8>,
    tag: u32,
    client: u64,
    number: u64,
    check: Seq<u8>,
)
    requires
        confirmation_message(boot_tag, client_id, counter, verifier) == confirmation_message(tag, client, number, check),
    ensures
        boot_tag == tag,
        client_id == client,
        counter == number,
        verifier == check,
{
    let a = confirmation_message(boot_tag, client_id, counter, verifier);
    let b = confirmation_message(tag, client, number, check);
    crate::codec::lemma_be32(boot_tag, seq![]);
    crate::codec::lemma_be32(tag, seq![]);
    crate::codec::lemma_be64(client_id, seq![]);
    crate::codec::lemma_be64(client, seq![]);
    crate::codec::lemma_be64(counter, seq![]);
    crate::codec::lemma_be64(number, seq![]);
    let n = confirmation_label().len() as int;
    assert(a.subrange(n, n + 4) =~= be32(boot_tag));
    assert(b.subrange(n, n + 4) =~= be32(tag));
    assert(a.subrange(n + 4, n + 12) =~= be64(client_id));
    assert(b.subrange(n + 4, n + 12) =~= be64(client));
    assert(a.subrange(n + 12, n + 20) =~= be64(counter));
    assert(b.subrange(n + 12, n + 20) =~= be64(number));
    assert(a.skip(n + 20) =~= verifier);
    assert(b.skip(n + 20) =~= check);
}

/// What a pin is made of tells the run and the number of the reservation, and is nothing that a confirmation is made of.
pub proof fn lemma_pin_message(
    boot_tag: u32,
    reservation: u64,
    tag: u32,
    other: u64,
    client_id: u64,
    counter: u64,
    verifier: Seq<u8>,
)
    ensures
        pin_label() + be32(boot_tag) + be64(reservation) == pin_label() + be32(tag) + be64(other) ==> boot_tag == tag
            && reservation == other,
        pin_label() + be32(boot_tag) + be64(reservation) != confirmation_message(tag, client_id, counter, verifier),
{
    let a = pin_label() + be32(boot_tag) + be64(reservation);
    let b = pin_label() + be32(tag) + be64(other);
    let c = confirmation_message(tag, client_id, counter, verifier);
    crate::codec::lemma_be32(boot_tag, seq![]);
    crate::codec::lemma_be32(tag, seq![]);
    crate::codec::lemma_be64(reservation, seq![]);
    crate::codec::lemma_be64(other, seq![]);
    let n = pin_label().len() as int;
    assert(a.subrange(n, n + 4) =~= be32(boot_tag));
    assert(b.subrange(n, n + 4) =~= be32(tag));
    assert(a.skip(n + 4) =~= be64(reservation));
    assert(b.skip(n + 4) =~= be64(other));
    assert(a[14] == pin_label()[14]);
    assert(c[14] == confirmation_label()[14]);
}

} // verus!
