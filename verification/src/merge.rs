//! State of the run before that is put together from several places.

use vstd::prelude::*;

use crate::bytemap::ByteMap;
use crate::bytes::copy_bytes;
use crate::idlist::IdList;
use crate::numbermap::NumberMap;
use crate::protocol::{lemma_owner_place, other_of, owner_place, OwnerKey};
use crate::recovery::{id_views, RecoveredLock, RecoveredOpen, RecoveredReplay};
use crate::registry::{count_client, of_client, ClientOwned, LockLink, OpenLink};

verus! {

/// Something that can be found twice.
pub trait Recovered: Sized {
    /// The two are the same.
    spec fn alike(&self, other: &Self) -> bool;

    /// Whether the two are the same.
    fn is_alike(&self, other: &Self) -> (alike: bool)
        ensures
            alike == self.alike(other),
    ;

    /// The same again.
    fn again(&self) -> (copy: Self)
        ensures
            copy == *self,
    ;
}

impl Recovered for RecoveredOpen {
    open spec fn alike(&self, other: &Self) -> bool {
        self@ == other@
    }

    fn is_alike(&self, other: &Self) -> (alike: bool) {
        self.same(other)
    }

    fn again(&self) -> (copy: Self) {
        self.copy()
    }
}

impl Recovered for RecoveredLock {
    open spec fn alike(&self, other: &Self) -> bool {
        self@ == other@
    }

    fn is_alike(&self, other: &Self) -> (alike: bool) {
        self.same(other)
    }

    fn again(&self) -> (copy: Self) {
        self.copy()
    }
}

impl Recovered for RecoveredReplay {
    open spec fn alike(&self, other: &Self) -> bool {
        self@ == other@
    }

    fn is_alike(&self, other: &Self) -> (alike: bool) {
        self.same(other)
    }

    fn again(&self) -> (copy: Self) {
        self.copy()
    }
}

/// What is there already, and the same.
pub open spec fn known_at<T: Recovered>(there: Map<Seq<u8>, T>, found: Map<Seq<u8>, T>, key: Seq<u8>) -> bool {
    there.contains_key(key) && there[key].alike(&found[key])
}

/// What is found and not there yet, or there otherwise.
pub open spec fn fresh<T: Recovered>(there: Map<Seq<u8>, T>, found: Map<Seq<u8>, T>) -> Map<Seq<u8>, T> {
    Map::new(|key: Seq<u8>| found.contains_key(key) && !known_at(there, found, key), |key: Seq<u8>| found[key])
}

/// All that is found is there already.
pub open spec fn all_known<T: Recovered>(there: Map<Seq<u8>, T>, found: Map<Seq<u8>, T>) -> bool {
    forall|key: Seq<u8>| #[trigger] found.contains_key(key) ==> known_at(there, found, key)
}

/// Nothing that is found is there otherwise.
pub open spec fn none_differs<T: Recovered>(there: Map<Seq<u8>, T>, found: Map<Seq<u8>, T>) -> bool {
    forall|key: Seq<u8>| #[trigger]
        found.contains_key(key) && there.contains_key(key) ==> there[key].alike(&found[key])
}

/// What is there, with what is found elsewhere.
pub open spec fn joined<T>(there: Map<Seq<u8>, T>, found: Map<Seq<u8>, T>) -> Map<Seq<u8>, T> {
    Map::new(
        |key: Seq<u8>| there.contains_key(key) || found.contains_key(key),
        |key: Seq<u8>|
            if there.contains_key(key) {
                there[key]
            } else {
                found[key]
            },
    )
}

/// What is found and not there yet, or there otherwise.
pub fn find_fresh<T: Recovered>(there: &ByteMap<T>, found: &ByteMap<T>) -> (list: ByteMap<T>)
    ensures
        list@ == fresh(there@, found@),
{
    found.order_known();
    let ghost keys = found.keys();
    let total = found.len();
    let mut list: ByteMap<T> = ByteMap::new();
    let mut i: usize = 0;
    while i < total
        invariant
            i <= total,
            total == keys.len(),
            keys == found.keys(),
            keys.len() == found.values().len(),
            keys.no_duplicates(),
            forall|j: int| 0 <= j < keys.len() ==> found@.contains_key(#[trigger] keys[j]),
            forall|j: int| 0 <= j < keys.len() ==> found@[#[trigger] keys[j]] == found.values()[j],
            forall|k: Seq<u8>| #[trigger] found@.contains_key(k) ==> keys.contains(k),
            forall|k: Seq<u8>| #[trigger]
                list@.contains_key(k) <==> found@.contains_key(k) && keys.index_of(k) < i && !known_at(
                    there@,
                    found@,
                    k,
                ),
            forall|k: Seq<u8>| #[trigger] list@.contains_key(k) ==> list@[k] == found@[k],
        decreases total - i,
    {
        let ghost key = keys[i as int];
        let ghost had = list@;
        assert(keys.contains(key) && keys.index_of(key) == i);
        let value = found.value_at(i);
        assert(found@[key] == *value);
        let place = found.key_at(i);
        let known = match there.get(place.as_slice()) {
            Some(other) => other.is_alike(value),
            None => false,
        };
        if !known {
            let _ = list.insert(copy_bytes(place.as_slice()), value.again());
        }
        assert forall|k: Seq<u8>| #[trigger] list@.contains_key(k) <==> found@.contains_key(k) && keys.index_of(k) < i + 1
            && !known_at(there@, found@, k) by {
            if k != key && found@.contains_key(k) {
                assert(keys.contains(k));
                assert(keys.index_of(k) != i);
            }
            assert(had.contains_key(k) == had.contains_key(k));
        }
        i += 1;
    }
    proof {
        assert forall|k: Seq<u8>| list@.contains_key(k) == fresh(there@, found@).contains_key(k) by {
            if found@.contains_key(k) {
                assert(keys.contains(k));
            }
            assert(list@.contains_key(k) == list@.contains_key(k));
        }
        assert(list@ =~= fresh(there@, found@));
    }
    list
}

/// Whether nothing that is found is there otherwise.
pub fn check_none_differs<T: Recovered>(there: &ByteMap<T>, found: &ByteMap<T>) -> (same: bool)
    ensures
        same == none_differs(there@, found@),
{
    found.order_known();
    let ghost keys = found.keys();
    let total = found.len();
    let mut i: usize = 0;
    while i < total
        invariant
            i <= total,
            total == keys.len(),
            keys == found.keys(),
            keys.len() == found.values().len(),
            forall|j: int| 0 <= j < keys.len() ==> found@.contains_key(#[trigger] keys[j]),
            forall|j: int| 0 <= j < keys.len() ==> found@[#[trigger] keys[j]] == found.values()[j],
            forall|j: int|
                0 <= j < i && there@.contains_key(#[trigger] keys[j]) ==> there@[keys[j]].alike(&found@[keys[j]]),
        decreases total - i,
    {
        let value = found.value_at(i);
        assert(found@[keys[i as int]] == *value);
        if let Some(other) = there.get(found.key_at(i).as_slice()) {
            if !other.is_alike(value) {
                assert(found@.contains_key(keys[i as int]));
                return false;
            }
        }
        i += 1;
    }
    proof {
        assert forall|key: Seq<u8>| #[trigger] found@.contains_key(key) && there@.contains_key(
            key,
        ) implies there@[key].alike(&found@[key]) by {
            assert(found.keys().contains(key));
        }
    }
    true
}

/// Whether all that is found is there already.
pub fn check_all_known<T: Recovered>(there: &ByteMap<T>, found: &ByteMap<T>) -> (known: bool)
    ensures
        known == all_known(there@, found@),
{
    found.order_known();
    let ghost keys = found.keys();
    let total = found.len();
    let mut i: usize = 0;
    while i < total
        invariant
            i <= total,
            total == keys.len(),
            keys == found.keys(),
            keys.len() == found.values().len(),
            forall|j: int| 0 <= j < keys.len() ==> found@.contains_key(#[trigger] keys[j]),
            forall|j: int| 0 <= j < keys.len() ==> found@[#[trigger] keys[j]] == found.values()[j],
            forall|j: int| 0 <= j < i ==> known_at(there@, found@, #[trigger] keys[j]),
        decreases total - i,
    {
        let value = found.value_at(i);
        assert(found@[keys[i as int]] == *value);
        let known = match there.get(found.key_at(i).as_slice()) {
            Some(other) => other.is_alike(value),
            None => false,
        };
        if !known {
            assert(found@.contains_key(keys[i as int]));
            return false;
        }
        i += 1;
    }
    proof {
        assert forall|key: Seq<u8>| #[trigger] found@.contains_key(key) implies known_at(there@, found@, key) by {
            assert(found.keys().contains(key));
        }
    }
    true
}

/// Adds what is found elsewhere.
pub fn add_missing<T: Recovered>(there: &mut ByteMap<T>, found: &ByteMap<T>)
    ensures
        final(there)@ == joined(old(there)@, found@),
{
    let ghost before = there@;
    found.order_known();
    let ghost keys = found.keys();
    let total = found.len();
    let mut i: usize = 0;
    while i < total
        invariant
            i <= total,
            total == keys.len(),
            keys == found.keys(),
            keys.len() == found.values().len(),
            keys.no_duplicates(),
            forall|j: int| 0 <= j < keys.len() ==> found@.contains_key(#[trigger] keys[j]),
            forall|j: int| 0 <= j < keys.len() ==> found@[#[trigger] keys[j]] == found.values()[j],
            forall|k: Seq<u8>| #[trigger] found@.contains_key(k) ==> keys.contains(k),
            forall|k: Seq<u8>| #[trigger]
                there@.contains_key(k) <==> before.contains_key(k) || (found@.contains_key(k) && keys.index_of(k) < i),
            forall|k: Seq<u8>| #[trigger]
                there@.contains_key(k) ==> there@[k] == if before.contains_key(k) {
                    before[k]
                } else {
                    found@[k]
                },
        decreases total - i,
    {
        let ghost key = keys[i as int];
        let ghost had = there@;
        assert(keys.contains(key) && keys.index_of(key) == i);
        let value = found.value_at(i);
        assert(found@[key] == *value);
        let place = found.key_at(i);
        assert(had.contains_key(key) == before.contains_key(key));
        if !there.contains(place.as_slice()) {
            let _ = there.insert(copy_bytes(place.as_slice()), value.again());
        }
        assert forall|k: Seq<u8>| #[trigger] there@.contains_key(k) <==> before.contains_key(k) || (found@.contains_key(
            k,
        ) && keys.index_of(k) < i + 1) by {
            if k != key && found@.contains_key(k) {
                assert(keys.contains(k));
                assert(keys.index_of(k) != i);
            }
            assert(had.contains_key(k) == had.contains_key(k));
        }
        i += 1;
    }
    proof {
        assert forall|k: Seq<u8>| there@.contains_key(k) == joined(before, found@).contains_key(k) by {
            if found@.contains_key(k) {
                assert(keys.contains(k));
            }
            assert(there@.contains_key(k) == there@.contains_key(k));
        }
        assert(there@ =~= joined(before, found@));
    }
}

/// Something with the identity of a state object.
pub trait Identified {
    /// The identity of what is filed at a place.
    spec fn identity(&self, place: Seq<u8>) -> Seq<u8>;

    /// The identity of what is filed at a place.
    fn identity_of(&self, place: &Vec<u8>) -> (identity: Vec<u8>)
        ensures
            identity@ == self.identity(place@),
    ;
}

/// The identity in the token under which something is filed.
pub open spec fn filed_identity(place: Seq<u8>) -> Seq<u8> {
    if place.len() < 4 {
        place
    } else {
        other_of(place)
    }
}

/// The identity in the token under which something is filed.
fn find_filed_identity(place: &Vec<u8>) -> (identity: Vec<u8>)
    ensures
        identity@ == filed_identity(place@),
{
    if place.len() < 4 {
        copy_bytes(place.as_slice())
    } else {
        let rest = vstd::slice::slice_subrange(place.as_slice(), 4, place.len());
        assert(rest@ =~= other_of(place@));
        copy_bytes(rest)
    }
}

impl Identified for OpenLink {
    open spec fn identity(&self, place: Seq<u8>) -> Seq<u8> {
        self.state_id.other@
    }

    fn identity_of(&self, place: &Vec<u8>) -> (identity: Vec<u8>) {
        copy_bytes(self.state_id.other.as_slice())
    }
}

impl Identified for LockLink {
    open spec fn identity(&self, place: Seq<u8>) -> Seq<u8> {
        self.state_id.other@
    }

    fn identity_of(&self, place: &Vec<u8>) -> (identity: Vec<u8>) {
        copy_bytes(self.state_id.other.as_slice())
    }
}

impl Identified for RecoveredOpen {
    open spec fn identity(&self, place: Seq<u8>) -> Seq<u8> {
        filed_identity(place)
    }

    fn identity_of(&self, place: &Vec<u8>) -> (identity: Vec<u8>) {
        find_filed_identity(place)
    }
}

impl Identified for RecoveredLock {
    open spec fn identity(&self, place: Seq<u8>) -> Seq<u8> {
        filed_identity(place)
    }

    fn identity_of(&self, place: &Vec<u8>) -> (identity: Vec<u8>) {
        find_filed_identity(place)
    }
}

/// No two have the same identity.
pub open spec fn apart<T: Identified>(map: Map<Seq<u8>, T>) -> bool {
    forall|a: Seq<u8>, b: Seq<u8>|
        a != b && #[trigger] map.contains_key(a) && #[trigger] map.contains_key(b) ==> map[a].identity(a)
            != map[b].identity(b)
}

/// The identities.
pub open spec fn identities<T: Identified>(map: Map<Seq<u8>, T>) -> Set<Seq<u8>> {
    Set::new(|identity: Seq<u8>| exists|k: Seq<u8>| #[trigger] map.contains_key(k) && map[k].identity(k) == identity)
}

/// Claims identities; says whether no two are the same and none was claimed before.
pub fn claim<T: Identified>(claimed: &mut ByteMap<()>, map: &ByteMap<T>) -> (free: bool)
    ensures
        free == (apart(map@) && old(claimed)@.dom().disjoint(identities(map@))),
        free ==> final(claimed)@.dom() == old(claimed)@.dom() + identities(map@),
{
    let ghost before = claimed@.dom();
    map.order_known();
    let ghost keys = map.keys();
    let total = map.len();
    let mut i: usize = 0;
    while i < total
        invariant
            i <= total,
            total == keys.len(),
            keys == map.keys(),
            keys.len() == map.values().len(),
            keys.no_duplicates(),
            before == old(claimed)@.dom(),
            forall|j: int| 0 <= j < keys.len() ==> map@.contains_key(#[trigger] keys[j]),
            forall|j: int| 0 <= j < keys.len() ==> map@[#[trigger] keys[j]] == map.values()[j],
            forall|x: Seq<u8>| #[trigger]
                claimed@.contains_key(x) <==> before.contains(x) || exists|j: int|
                    0 <= j < i && map@[#[trigger] keys[j]].identity(keys[j]) == x,
            forall|j: int| 0 <= j < i ==> !before.contains(map@[#[trigger] keys[j]].identity(keys[j])),
            forall|j: int, k: int|
                0 <= j < k < i ==> map@[#[trigger] keys[j]].identity(keys[j]) != map@[#[trigger] keys[k]].identity(keys[k]),
        decreases total - i,
    {
        let value = map.value_at(i);
        let ghost key = keys[i as int];
        assert(map@[key] == *value);
        let identity = value.identity_of(map.key_at(i));
        if claimed.contains(identity.as_slice()) {
            proof {
                assert(map@.contains_key(key));
                if before.contains(identity@) {
                    assert(identities(map@).contains(identity@));
                } else {
                    let j = choose|j: int| 0 <= j < i && map@[#[trigger] keys[j]].identity(keys[j]) == identity@;
                    assert(map@.contains_key(keys[j]));
                    assert(keys[j] != key);
                    assert(!apart(map@));
                }
            }
            return false;
        }
        let ghost had = claimed@;
        let _ = claimed.insert(copy_bytes(identity.as_slice()), ());
        proof {
            assert forall|j: int| 0 <= j < i implies map@[#[trigger] keys[j]].identity(keys[j]) != identity@ by {
                if map@[keys[j]].identity(keys[j]) == identity@ {
                    assert(had.contains_key(identity@));
                }
            }
            assert forall|x: Seq<u8>| #[trigger] claimed@.contains_key(x) <==> before.contains(x) || exists|j: int|
                0 <= j < i + 1 && map@[#[trigger] keys[j]].identity(keys[j]) == x by {
                if claimed@.contains_key(x) && !before.contains(x) {
                    if x == identity@ {
                        assert(map@[keys[i as int]].identity(keys[i as int]) == x);
                    } else {
                        assert(had.contains_key(x));
                        let j = choose|j: int| 0 <= j < i && map@[#[trigger] keys[j]].identity(keys[j]) == x;
                        assert(map@[keys[j]].identity(keys[j]) == x);
                    }
                }
                if exists|j: int| 0 <= j < i + 1 && map@[#[trigger] keys[j]].identity(keys[j]) == x {
                    let j = choose|j: int| 0 <= j < i + 1 && map@[#[trigger] keys[j]].identity(keys[j]) == x;
                    if j < i {
                        assert(map@[keys[j]].identity(keys[j]) == x);
                        assert(had.contains_key(x));
                    }
                }
                assert(had.contains_key(x) == had.contains_key(x));
            }
        }
        i += 1;
    }
    proof {
        assert forall|a: Seq<u8>, b: Seq<u8>|
            a != b && #[trigger] map@.contains_key(a) && #[trigger] map@.contains_key(b) implies map@[a].identity(a)
            != map@[b].identity(b) by {
            assert(keys.contains(a) && keys.contains(b));
            let j = keys.index_of(a);
            let k = keys.index_of(b);
            assert(keys[j] == a && keys[k] == b);
            if j < k {
                assert(map@[keys[j]].identity(keys[j]) != map@[keys[k]].identity(keys[k]));
            } else {
                assert(map@[keys[k]].identity(keys[k]) != map@[keys[j]].identity(keys[j]));
            }
        }
        assert forall|x: Seq<u8>| identities(map@).contains(x) implies !before.contains(x) by {
            let k = choose|k: Seq<u8>| #[trigger] map@.contains_key(k) && map@[k].identity(k) == x;
            assert(keys.contains(k));
            let j = keys.index_of(k);
            assert(!before.contains(map@[keys[j]].identity(keys[j])));
        }
        assert forall|x: Seq<u8>| claimed@.contains_key(x) == (before + identities(map@)).contains(x) by {
            if claimed@.contains_key(x) && !before.contains(x) {
                let j = choose|j: int| 0 <= j < keys.len() && map@[#[trigger] keys[j]].identity(keys[j]) == x;
                assert(map@.contains_key(keys[j]));
            }
            if identities(map@).contains(x) {
                let k = choose|k: Seq<u8>| #[trigger] map@.contains_key(k) && map@[k].identity(k) == x;
                assert(keys.contains(k));
                let j = keys.index_of(k);
                assert(map@[keys[j]].identity(keys[j]) == x);
                assert(claimed@.contains_key(x));
            }
        }
        assert(claimed@.dom() =~= before + identities(map@));
    }
    true
}

/// A number is filed at a place.
pub open spec fn files_number(map: Map<Seq<u8>, Set<u64>>, place: Seq<u8>, id: u64) -> bool {
    map.contains_key(place) && map[place].contains(id)
}

/// No number is filed at two places.
pub open spec fn numbers_apart(map: Map<Seq<u8>, Set<u64>>) -> bool {
    forall|a: Seq<u8>, b: Seq<u8>, id: u64| #[trigger]
        files_number(map, a, id) && #[trigger] files_number(map, b, id) ==> a == b
}

/// The numbers that are found belong to no client that is known, and to no one else.
pub open spec fn numbers_fit(there: Map<Seq<u8>, Set<u64>>, found: Map<Seq<u8>, Set<u64>>, clients: Set<u64>) -> bool {
    forall|place: Seq<u8>, id: u64| #[trigger]
        files_number(found, place, id) ==> !clients.contains(id) && forall|other: Seq<u8>| #[trigger]
            files_number(there, other, id) ==> other == place
}

/// A number is filed at a place of one or of the other.
pub open spec fn files_either(
    there: Map<Seq<u8>, Set<u64>>,
    found: Map<Seq<u8>, Set<u64>>,
    place: Seq<u8>,
    id: u64,
) -> bool {
    files_number(there, place, id) || files_number(found, place, id)
}

/// All numbers.
pub open spec fn all_numbers(there: Map<Seq<u8>, Set<u64>>, found: Map<Seq<u8>, Set<u64>>) -> Set<u64> {
    Set::new(|id: u64| exists|place: Seq<u8>| #[trigger] files_either(there, found, place, id))
}

/// The place of each number is known, for the numbers of the first `n` places.
spec fn indexed(index: Map<u64, Vec<u8>>, map: Map<Seq<u8>, Set<u64>>, keys: Seq<Seq<u8>>, n: nat) -> bool {
    &&& forall|id: u64| #[trigger] index.contains_key(id) ==> exists|j: int|
        0 <= j < n && #[trigger] keys[j] == index[id]@ && map[keys[j]].contains(id)
    &&& forall|j: int, id: u64|
        0 <= j < n && map[#[trigger] keys[j]].contains(id) ==> #[trigger] index.contains_key(id) && index[id]@ == keys[j]
}

/// The numbers of one more place are known.
proof fn lemma_indexed(
    start: Map<u64, Vec<u8>>,
    index: Map<u64, Vec<u8>>,
    views: Map<Seq<u8>, Set<u64>>,
    keys: Seq<Seq<u8>>,
    i: nat,
    ids: Seq<u64>,
)
    requires
        i < keys.len(),
        indexed(start, views, keys, i),
        ids.to_set() == views[keys[i as int]],
        forall|id: u64| #[trigger] start.contains_key(id) ==> index.contains_key(id) && index[id] == start[id],
        forall|id: u64| #[trigger]
            index.contains_key(id) && !start.contains_key(id) ==> index[id]@ == keys[i as int]
                && views[keys[i as int]].contains(id),
        forall|m: int|
            0 <= m < ids.len() ==> index.contains_key(#[trigger] ids[m]) && index[ids[m]]@ == keys[i as int],
    ensures
        indexed(index, views, keys, i + 1),
{
    assert forall|id: u64| #[trigger] index.contains_key(id) implies exists|j: int|
        0 <= j < i + 1 && #[trigger] keys[j] == index[id]@ && views[keys[j]].contains(id) by {
        if start.contains_key(id) {
            let j = choose|j: int| 0 <= j < i && #[trigger] keys[j] == start[id]@ && views[keys[j]].contains(id);
            assert(keys[j] == index[id]@);
        } else {
            assert(keys[i as int] == index[id]@);
        }
    }
    assert forall|j: int, id: u64| 0 <= j < i + 1 && views[#[trigger] keys[j]].contains(id) implies #[trigger] index.contains_key(
        id,
    ) && index[id]@ == keys[j] by {
        if j < i {
            assert(start.contains_key(id));
        } else {
            assert(ids.to_set().contains(id));
            let m = choose|m: int| 0 <= m < ids.len() && ids[m] == id;
            assert(index.contains_key(ids[m]));
        }
    }
}

/// The place of each number, where no number is filed at two places.
pub fn index_numbers(map: &ByteMap<IdList>) -> (index: Option<NumberMap<Vec<u8>>>)
    ensures
        match index {
            Some(index) => numbers_apart(id_views(map@)) && indexes(index@, id_views(map@)),
            None => !numbers_apart(id_views(map@)),
        },
{
    let ghost views = id_views(map@);
    map.order_known();
    let ghost keys = map.keys();
    let total = map.len();
    let mut index: NumberMap<Vec<u8>> = NumberMap::new();
    let mut i: usize = 0;
    while i < total
        invariant
            i <= total,
            total == keys.len(),
            keys == map.keys(),
            views == id_views(map@),
            keys.len() == map.values().len(),
            keys.no_duplicates(),
            forall|j: int| 0 <= j < keys.len() ==> map@.contains_key(#[trigger] keys[j]),
            forall|j: int| 0 <= j < keys.len() ==> map@[#[trigger] keys[j]] == map.values()[j],
            indexed(index@, views, keys, i as nat),
        decreases total - i,
    {
        let ghost key = keys[i as int];
        let list = map.value_at(i);
        assert(map@[key] == *list);
        assert(views[key] == list@);
        let ids = list.to_vec();
        let place = map.key_at(i);
        let ghost start = index@;
        let mut n: usize = 0;
        while n < ids.len()
            invariant
                n <= ids@.len(),
                i < total,
                total == keys.len(),
                keys == map.keys(),
                views == id_views(map@),
                keys.no_duplicates(),
                forall|j: int| 0 <= j < keys.len() ==> map@.contains_key(#[trigger] keys[j]),
                key == keys[i as int],
                place@ == key,
                ids@.to_set() == views[key],
                indexed(start, views, keys, i as nat),
                forall|id: u64| #[trigger] start.contains_key(id) ==> index@.contains_key(id) && index@[id] == start[id],
                forall|id: u64| #[trigger]
                    index@.contains_key(id) && !start.contains_key(id) ==> index@[id]@ == key && views[key].contains(id),
                forall|m: int| 0 <= m < n ==> index@.contains_key(#[trigger] ids@[m]) && index@[ids@[m]]@ == key,
            decreases ids@.len() - n,
        {
            let id = ids[n];
            assert(ids@.contains(id));
            assert(views[key].contains(id));
            let taken = match index.get(id) {
                Some(other) => Some(crate::bytes::bytes_equal(other.as_slice(), place.as_slice())),
                None => None,
            };
            match taken {
                Some(true) => {},
                Some(false) => {
                    proof {
                        assert(start.contains_key(id));
                        let j = choose|j: int|
                            0 <= j < i && #[trigger] keys[j] == start[id]@ && views[keys[j]].contains(id);
                        assert(files_number(views, keys[j], id));
                        assert(files_number(views, key, id));
                        assert(!numbers_apart(views));
                    }
                    return None;
                },
                None => {
                    let _ = index.insert(id, copy_bytes(place.as_slice()));
                },
            }
            n += 1;
        }
        proof {
            lemma_indexed(start, index@, views, keys, i as nat, ids@);
        }
        i += 1;
    }
    proof {
        assert forall|id: u64, place: Seq<u8>| #[trigger] files_number(views, place, id) implies index@.contains_key(id)
            && index@[id]@ == place by {
            assert(map@.contains_key(place));
            assert(keys.contains(place));
            let j = keys.index_of(place);
            assert(views[keys[j]].contains(id));
            assert(index@.contains_key(id));
        }
        assert forall|id: u64| #[trigger] index@.contains_key(id) implies files_number(views, index@[id]@, id) by {
            let j = choose|j: int| 0 <= j < keys.len() && #[trigger] keys[j] == index@[id]@ && views[keys[j]].contains(id);
            assert(map@.contains_key(keys[j]));
        }
        assert forall|a: Seq<u8>, b: Seq<u8>, id: u64| #[trigger] files_number(views, a, id) && #[trigger] files_number(
            views,
            b,
            id,
        ) implies a == b by {
            assert(index@[id]@ == a);
            assert(index@[id]@ == b);
        }
    }
    Some(index)
}

/// The index has the numbers of a map, each with its place.
pub open spec fn indexes(index: Map<u64, Vec<u8>>, there: Map<Seq<u8>, Set<u64>>) -> bool {
    &&& forall|id: u64, place: Seq<u8>| #[trigger]
        files_number(there, place, id) ==> index.contains_key(id) && index[id]@ == place
    &&& forall|id: u64| #[trigger] index.contains_key(id) ==> files_number(there, index[id]@, id)
}

/// Whether the numbers that are found belong to no client that is known, and to no one else.
pub fn fit_numbers(
    index: &NumberMap<Vec<u8>>,
    found: &ByteMap<IdList>,
    clients: &NumberMap<crate::protocol::Name>,
    Ghost(there): Ghost<Map<Seq<u8>, Set<u64>>>,
) -> (fit: bool)
    requires
        indexes(index@, there),
    ensures
        fit == numbers_fit(there, id_views(found@), clients@.dom()),
{
    let ghost views = id_views(found@);
    found.order_known();
    let ghost keys = found.keys();
    let total = found.len();
    let mut i: usize = 0;
    while i < total
        invariant
            i <= total,
            total == keys.len(),
            keys == found.keys(),
            views == id_views(found@),
            indexes(index@, there),
            keys.len() == found.values().len(),
            forall|j: int| 0 <= j < keys.len() ==> found@.contains_key(#[trigger] keys[j]),
            forall|j: int| 0 <= j < keys.len() ==> found@[#[trigger] keys[j]] == found.values()[j],
            forall|j: int, id: u64|
                0 <= j < i && #[trigger] files_number(views, #[trigger] keys[j], id) ==> !clients@.contains_key(id) && (
                index@.contains_key(id) ==> index@[id]@ == keys[j]),
        decreases total - i,
    {
        let ghost key = keys[i as int];
        let list = found.value_at(i);
        assert(found@[key] == *list);
        assert(views[key] == list@);
        let ids = list.to_vec();
        let place = found.key_at(i);
        let mut n: usize = 0;
        while n < ids.len()
            invariant
                n <= ids@.len(),
                i < total,
                total == keys.len(),
                keys == found.keys(),
                views == id_views(found@),
                indexes(index@, there),
                found@.contains_key(key),
                place@ == key,
                ids@.to_set() == views[key],
                forall|m: int|
                    0 <= m < n ==> !clients@.contains_key(#[trigger] ids@[m]) && (index@.contains_key(ids@[m])
                        ==> index@[ids@[m]]@ == key),
            decreases ids@.len() - n,
        {
            let id = ids[n];
            assert(ids@.contains(id));
            assert(files_number(views, key, id));
            if clients.contains(id) {
                assert(!numbers_fit(there, views, clients@.dom()));
                return false;
            }
            if let Some(other) = index.get(id) {
                if !crate::bytes::bytes_equal(other.as_slice(), place.as_slice()) {
                    assert(files_number(there, index@[id]@, id));
                    assert(!numbers_fit(there, views, clients@.dom()));
                    return false;
                }
            }
            n += 1;
        }
        proof {
            assert forall|j: int, id: u64|
                0 <= j < i + 1 && #[trigger] files_number(views, #[trigger] keys[j], id) implies !clients@.contains_key(id)
                && (index@.contains_key(id) ==> index@[id]@ == keys[j]) by {
                if j == i {
                    assert(ids@.to_set().contains(id));
                    let m = choose|m: int| 0 <= m < ids@.len() && ids@[m] == id;
                    assert(!clients@.contains_key(ids@[m]));
                }
            }
        }
        i += 1;
    }
    proof {
        assert forall|place: Seq<u8>, id: u64| #[trigger] files_number(views, place, id) implies !clients@.dom().contains(
            id,
        ) && forall|other: Seq<u8>| #[trigger] files_number(there, other, id) ==> other == place by {
            assert(keys.contains(place));
            let j = keys.index_of(place);
            assert(files_number(views, keys[j], id));
        }
    }
    true
}

/// How many numbers there are in all.
pub fn count_numbers(index: NumberMap<Vec<u8>>, found: &ByteMap<IdList>, Ghost(there): Ghost<Map<Seq<u8>, Set<u64>>>) -> (count:
    usize)
    requires
        indexes(index@, there),
    ensures
        all_numbers(there, id_views(found@)).finite(),
        count == all_numbers(there, id_views(found@)).len(),
{
    let ghost views = id_views(found@);
    let ghost known = index@;
    let mut index = index;
    found.order_known();
    let ghost keys = found.keys();
    let total = found.len();
    let mut i: usize = 0;
    while i < total
        invariant
            i <= total,
            total == keys.len(),
            keys == found.keys(),
            views == id_views(found@),
            indexes(known, there),
            keys.len() == found.values().len(),
            forall|j: int| 0 <= j < keys.len() ==> found@.contains_key(#[trigger] keys[j]),
            forall|j: int| 0 <= j < keys.len() ==> found@[#[trigger] keys[j]] == found.values()[j],
            forall|id: u64| #[trigger] known.contains_key(id) ==> index@.contains_key(id),
            forall|id: u64| #[trigger]
                index@.contains_key(id) ==> known.contains_key(id) || exists|j: int|
                    0 <= j < i && #[trigger] files_number(views, keys[j], id),
            forall|j: int, id: u64|
                0 <= j < i && #[trigger] files_number(views, #[trigger] keys[j], id) ==> index@.contains_key(id),
        decreases total - i,
    {
        let ghost key = keys[i as int];
        let list = found.value_at(i);
        assert(found@[key] == *list);
        assert(views[key] == list@);
        let ids = list.to_vec();
        let ghost start = index@;
        let mut n: usize = 0;
        while n < ids.len()
            invariant
                n <= ids@.len(),
                ids@.to_set() == views[key],
                found@.contains_key(key),
                views == id_views(found@),
                forall|id: u64| #[trigger] start.contains_key(id) ==> index@.contains_key(id),
                forall|id: u64| #[trigger]
                    index@.contains_key(id) ==> start.contains_key(id) || files_number(views, key, id),
                forall|m: int| 0 <= m < n ==> index@.contains_key(#[trigger] ids@[m]),
            decreases ids@.len() - n,
        {
            let id = ids[n];
            assert(ids@.contains(id));
            assert(files_number(views, key, id));
            let _ = index.insert(id, Vec::new());
            n += 1;
        }
        proof {
            assert forall|id: u64| #[trigger] index@.contains_key(id) implies known.contains_key(id) || exists|j: int|
                0 <= j < i + 1 && #[trigger] files_number(views, keys[j], id) by {
                if start.contains_key(id) {
                    if !known.contains_key(id) {
                        let j = choose|j: int| 0 <= j < i && #[trigger] files_number(views, keys[j], id);
                        assert(files_number(views, keys[j], id));
                    }
                } else {
                    assert(files_number(views, keys[i as int], id));
                }
            }
            assert forall|j: int, id: u64|
                0 <= j < i + 1 && #[trigger] files_number(views, #[trigger] keys[j], id) implies index@.contains_key(id) by {
                if j == i {
                    assert(ids@.to_set().contains(id));
                    let m = choose|m: int| 0 <= m < ids@.len() && ids@[m] == id;
                    assert(index@.contains_key(ids@[m]));
                } else {
                    assert(start.contains_key(id));
                }
            }
        }
        i += 1;
    }
    proof {
        let all = all_numbers(there, views);
        assert forall|id: u64| index@.dom().contains(id) == all.contains(id) by {
            if index@.contains_key(id) {
                if known.contains_key(id) {
                    assert(files_either(there, views, known[id]@, id));
                } else {
                    let j = choose|j: int| 0 <= j < keys.len() && #[trigger] files_number(views, keys[j], id);
                    assert(files_either(there, views, keys[j], id));
                }
            }
            if all.contains(id) {
                let place = choose|place: Seq<u8>| #[trigger] files_either(there, views, place, id);
                if files_number(there, place, id) {
                    assert(known.contains_key(id));
                    assert(index@.contains_key(id));
                } else {
                    assert(found@.contains_key(place));
                    assert(keys.contains(place));
                    let j = keys.index_of(place);
                    assert(files_number(views, keys[j], id));
                }
            }
        }
        assert(index@.dom() =~= all);
    }
    index.len()
}

/// Something that an owner of a client had before.
pub trait PreviouslyOwned {
    /// The client's number and the owner.
    spec fn previous_owner(&self) -> (u64, Seq<u8>);

    /// The owner.
    fn owner_key(&self) -> (key: OwnerKey)
        ensures
            key@ == self.previous_owner(),
    ;
}

impl PreviouslyOwned for RecoveredOpen {
    open spec fn previous_owner(&self) -> (u64, Seq<u8>) {
        (self.previous_client_id, self.owner@)
    }

    fn owner_key(&self) -> (key: OwnerKey) {
        OwnerKey { client_id: self.previous_client_id, owner: crate::protocol::share(&self.owner) }
    }
}

impl PreviouslyOwned for RecoveredLock {
    open spec fn previous_owner(&self) -> (u64, Seq<u8>) {
        (self.previous_client_id, self.owner@)
    }

    fn owner_key(&self) -> (key: OwnerKey) {
        OwnerKey { client_id: self.previous_client_id, owner: crate::protocol::share(&self.owner) }
    }
}

impl ClientOwned for OwnerKey {
    open spec fn client(&self) -> u64 {
        self.client_id
    }

    fn client_id(&self) -> (id: u64) {
        self.client_id
    }
}

/// An owner that has something.
pub open spec fn owns_some<T: PreviouslyOwned>(map: Map<Seq<u8>, T>, owner: (u64, Seq<u8>)) -> bool {
    exists|k: Seq<u8>| #[trigger] map.contains_key(k) && map[k].previous_owner() == owner
}

/// The names of the owners of a client.
pub open spec fn owner_names<T: PreviouslyOwned>(there: Map<Seq<u8>, T>, found: Map<Seq<u8>, T>, client: u64) -> Set<Seq<u8>> {
    Set::new(|name: Seq<u8>| owns_some(there, (client, name)) || owns_some(found, (client, name)))
}

/// No client has more owners than it may.
pub open spec fn owners_fit<T: PreviouslyOwned>(there: Map<Seq<u8>, T>, found: Map<Seq<u8>, T>, maximum: usize) -> bool {
    forall|client: u64| (#[trigger] owner_names(there, found, client)).len() <= maximum
}

/// The owners have places of their own.
spec fn placed(owners: Map<Seq<u8>, OwnerKey>) -> bool {
    forall|place: Seq<u8>| #[trigger]
        owners.contains_key(place) ==> place == owner_place(owners[place]@.0, owners[place]@.1)
}

/// Adds the owners of what is there.
fn add_owners<T: PreviouslyOwned>(owners: &mut ByteMap<OwnerKey>, map: &ByteMap<T>)
    requires
        placed(old(owners)@),
    ensures
        placed(final(owners)@),
        forall|owner: (u64, Seq<u8>)|
            final(owners)@.contains_key(#[trigger] owner_place(owner.0, owner.1)) <==> old(owners)@.contains_key(
                owner_place(owner.0, owner.1),
            ) || owns_some(map@, owner),
{
    let ghost before = owners@;
    map.order_known();
    let ghost keys = map.keys();
    let total = map.len();
    let mut i: usize = 0;
    while i < total
        invariant
            i <= total,
            total == keys.len(),
            keys == map.keys(),
            keys.len() == map.values().len(),
            forall|j: int| 0 <= j < keys.len() ==> map@.contains_key(#[trigger] keys[j]),
            forall|j: int| 0 <= j < keys.len() ==> map@[#[trigger] keys[j]] == map.values()[j],
            placed(owners@),
            forall|owner: (u64, Seq<u8>)|
                owners@.contains_key(#[trigger] owner_place(owner.0, owner.1)) <==> before.contains_key(
                    owner_place(owner.0, owner.1),
                ) || exists|j: int| 0 <= j < i && map@[#[trigger] keys[j]].previous_owner() == owner,
        decreases total - i,
    {
        let value = map.value_at(i);
        assert(map@[keys[i as int]] == *value);
        let key = value.owner_key();
        let ghost had = owners@;
        let ghost added = key@;
        let _ = owners.insert(key.place(), key);
        proof {
            assert forall|owner: (u64, Seq<u8>)|
                owners@.contains_key(#[trigger] owner_place(owner.0, owner.1)) <==> before.contains_key(
                    owner_place(owner.0, owner.1),
                ) || exists|j: int| 0 <= j < i + 1 && map@[#[trigger] keys[j]].previous_owner() == owner by {
                lemma_owner_place(owner, added);
                if owners@.contains_key(owner_place(owner.0, owner.1)) && !before.contains_key(
                    owner_place(owner.0, owner.1),
                ) {
                    if owner == added {
                        assert(map@[keys[i as int]].previous_owner() == owner);
                    } else {
                        assert(had.contains_key(owner_place(owner.0, owner.1)));
                        let j = choose|j: int| 0 <= j < i && map@[#[trigger] keys[j]].previous_owner() == owner;
                        assert(map@[keys[j]].previous_owner() == owner);
                    }
                }
                if exists|j: int| 0 <= j < i + 1 && map@[#[trigger] keys[j]].previous_owner() == owner {
                    let j = choose|j: int| 0 <= j < i + 1 && map@[#[trigger] keys[j]].previous_owner() == owner;
                    if j < i {
                        assert(map@[keys[j]].previous_owner() == owner);
                        assert(had.contains_key(owner_place(owner.0, owner.1)));
                    }
                }
                assert(had.contains_key(owner_place(owner.0, owner.1)) == had.contains_key(
                    owner_place(owner.0, owner.1),
                ));
            }
        }
        i += 1;
    }
    proof {
        assert forall|owner: (u64, Seq<u8>)|
            owners@.contains_key(#[trigger] owner_place(owner.0, owner.1)) <==> before.contains_key(
                owner_place(owner.0, owner.1),
            ) || owns_some(map@, owner) by {
            if exists|j: int| 0 <= j < keys.len() && map@[#[trigger] keys[j]].previous_owner() == owner {
                let j = choose|j: int| 0 <= j < keys.len() && map@[#[trigger] keys[j]].previous_owner() == owner;
                assert(map@.contains_key(keys[j]));
            }
            if owns_some(map@, owner) {
                let k = choose|k: Seq<u8>| #[trigger] map@.contains_key(k) && map@[k].previous_owner() == owner;
                assert(keys.contains(k));
                let j = keys.index_of(k);
                assert(map@[keys[j]].previous_owner() == owner);
            }
        }
    }
}

/// A client has as many owners as names of owners.
proof fn lemma_names<T: PreviouslyOwned>(
    owners: Map<Seq<u8>, OwnerKey>,
    there: Map<Seq<u8>, T>,
    found: Map<Seq<u8>, T>,
    client: u64,
)
    requires
        placed(owners),
        of_client(owners, client).finite(),
        forall|owner: (u64, Seq<u8>)|
            owners.contains_key(#[trigger] owner_place(owner.0, owner.1)) <==> owns_some(there, owner) || owns_some(
                found,
                owner,
            ),
    ensures
        owner_names(there, found, client).finite(),
        owner_names(there, found, client).len() == of_client(owners, client).len(),
{
    let places = of_client(owners, client);
    let names = owner_names(there, found, client);
    let name_of = |place: Seq<u8>| owners[place]@.1;
    assert forall|a: Seq<u8>, b: Seq<u8>| places.contains(a) && places.contains(b) && #[trigger] name_of(a)
        == #[trigger] name_of(b) implies a == b by {
        assert(owners.contains_key(a));
        assert(owners.contains_key(b));
    }
    assert(vstd::relations::injective_on(name_of, places));
    places.lemma_map_finite(name_of);
    vstd::set_lib::lemma_map_size(places, places.map(name_of), name_of);
    assert forall|name: Seq<u8>| names.contains(name) == places.map(name_of).contains(name) by {
        let owner = (client, name);
        assert(owners.contains_key(owner_place(owner.0, owner.1)) <==> owns_some(there, owner) || owns_some(
            found,
            owner,
        ));
        if names.contains(name) {
            let place = owner_place(client, name);
            assert(owners.contains_key(place));
            lemma_owner_place(owners[place]@, owner);
            assert(places.contains(place));
            assert(name_of(place) == name);
        }
        if places.map(name_of).contains(name) {
            let place = choose|place: Seq<u8>| places.contains(place) && name == name_of(place);
            assert(owners.contains_key(place));
            assert(owners[place]@ == owner);
            assert(place == owner_place(client, name));
        }
    }
    assert(names =~= places.map(name_of));
}

/// Whether no client has more owners than it may.
pub fn check_owners_fit<T: PreviouslyOwned>(there: &ByteMap<T>, found: &ByteMap<T>, maximum: usize) -> (fit: bool)
    ensures
        fit == owners_fit(there@, found@, maximum),
{
    let mut owners: ByteMap<OwnerKey> = ByteMap::new();
    add_owners(&mut owners, there);
    add_owners(&mut owners, found);
    owners.order_known();
    let ghost keys = owners.keys();
    let total = owners.len();
    let mut i: usize = 0;
    while i < total
        invariant
            i <= total,
            total == keys.len(),
            keys == owners.keys(),
            keys.len() == owners.values().len(),
            placed(owners@),
            forall|owner: (u64, Seq<u8>)|
                owners@.contains_key(#[trigger] owner_place(owner.0, owner.1)) <==> owns_some(there@, owner)
                    || owns_some(found@, owner),
            forall|j: int| 0 <= j < keys.len() ==> owners@.contains_key(#[trigger] keys[j]),
            forall|j: int| 0 <= j < keys.len() ==> owners@[#[trigger] keys[j]] == owners.values()[j],
            forall|j: int|
                0 <= j < i ==> of_client(owners@, (#[trigger] owners@[keys[j]]).client_id).len() <= maximum,
            owners@.dom().finite(),
        decreases total - i,
    {
        let client = owners.value_at(i).client_id;
        assert(owners@[keys[i as int]].client_id == client);
        if count_client(&owners, client) > maximum {
            proof {
                lemma_names(owners@, there@, found@, client);
            }
            return false;
        }
        i += 1;
    }
    proof {
        assert forall|client: u64| (#[trigger] owner_names(there@, found@, client)).len() <= maximum by {
            let places = of_client(owners@, client);
            assert(places.subset_of(owners@.dom()));
            vstd::set_lib::lemma_len_subset(places, owners@.dom());
            lemma_names(owners@, there@, found@, client);
            if places.len() > 0 {
                let place = places.choose();
                assert(places.contains(place));
                assert(keys.contains(place));
                let j = keys.index_of(place);
                assert(owners@[keys[j]].client_id == client);
            }
        }
    }
    true
}

} // verus!
