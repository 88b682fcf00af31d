//! Content addresses: the fixed-size digests that name chunks.

use crate::hex::easy_decode;
use crate::hex::easy_encode_to_string;
use crate::hex::hex_encoding;
use std::collections::HashMap;
use vstd::prelude::*;

verus! {

/// Number of bytes in a content address.
pub const ADDRESS_SZ: usize = 32;

/// The digest of a chunk, used as its key in storage and as the pointer
/// from a tree node to each of its children.
#[derive(Clone, Copy, Debug, Eq, Hash)]
pub struct Address {
    pub bytes: [u8; ADDRESS_SZ],
}

impl View for Address {
    type V = Seq<u8>;

    open spec fn view(&self) -> Seq<u8> {
        self.bytes@
    }
}

impl PartialEq for Address {
    fn eq(&self, other: &Address) -> (r: bool) {
        let mut i: usize = 0;
        while i < ADDRESS_SZ
            invariant
                i <= ADDRESS_SZ,
                forall|j: int| 0 <= j < i ==> self.bytes@[j] == other.bytes@[j],
            decreases ADDRESS_SZ - i,
        {
            if self.bytes[i] != other.bytes[i] {
                return false;
            }
            i += 1;
        }
        assert(self.bytes@ =~= other.bytes@);
        true
    }
}

impl vstd::std_specs::cmp::PartialEqSpecImpl for Address {
    open spec fn obeys_eq_spec() -> bool {
        true
    }

    open spec fn eq_spec(&self, other: &Address) -> bool {
        self@ == other@
    }
}

impl Default for Address {
    /// The all-zero address, a sentinel that names no particular content.
    fn default() -> (a: Address)
        ensures
            a@ == Seq::new(ADDRESS_SZ as nat, |i: int| 0u8),
    {
        let a = Address { bytes: [0u8; ADDRESS_SZ] };
        assert(a@ =~= Seq::new(ADDRESS_SZ as nat, |i: int| 0u8));
        a
    }
}

impl Address {
    /// Every address is exactly `ADDRESS_SZ` bytes long.
    pub proof fn lemma_len(&self)
        ensures
            self@.len() == ADDRESS_SZ,
    {
    }

    /// Wraps a digest that has already been computed.
    pub fn from_bytes(bytes: [u8; ADDRESS_SZ]) -> (a: Address)
        ensures
            a@ == bytes@,
    {
        Address { bytes }
    }

    /// Reads an address out of a slice; `None` unless the slice is exactly
    /// `ADDRESS_SZ` bytes long.
    pub fn from_slice(s: &[u8]) -> (r: Option<Address>)
        ensures
            r is Some <==> s@.len() == ADDRESS_SZ,
            r matches Some(a) ==> a@ == s@,
    {
        if s.len() != ADDRESS_SZ {
            return None;
        }
        let mut bytes = [0u8; ADDRESS_SZ];
        let mut i: usize = 0;
        while i < ADDRESS_SZ
            invariant
                i <= ADDRESS_SZ,
                s@.len() == ADDRESS_SZ,
                forall|j: int| 0 <= j < i ==> bytes@[j] == s@[j],
            decreases ADDRESS_SZ - i,
        {
            bytes[i] = s[i];
            i += 1;
        }
        assert(bytes@ =~= s@);
        Some(Address { bytes })
    }

    /// Reads an address from its hexadecimal text, as a chunk's file is
    /// named; `None` unless the text is that of an address.
    pub fn from_hex(text: &str) -> (r: Option<Address>)
        ensures
            r matches Some(a) ==> text@ == hex_encoding(a@),
            r is None ==> forall|a: Address| text@ != hex_encoding(a@),
    {
        match easy_decode(text) {
            Some(bytes) => {
                let r = Address::from_slice(bytes.as_slice());
                proof {
                    if r is None {
                        assert forall|a: Address| text@ != hex_encoding(a@) by {
                            a.lemma_len();
                            assert(hex_encoding(a@).len() == 2 * a@.len());
                            assert(hex_encoding(bytes@).len() == 2 * bytes@.len());
                        }
                    }
                }
                r
            },
            None => None,
        }
    }

    /// The hexadecimal text of the address.
    pub fn to_hex(&self) -> (text: String)
        ensures
            text@ == hex_encoding(self@),
    {
        let bytes = self.to_vec();
        easy_encode_to_string(bytes.as_slice())
    }

    /// The bytes of the address as an owned vector.
    pub fn to_vec(&self) -> (v: Vec<u8>)
        ensures
            v@ == self@,
    {
        let mut v: Vec<u8> = Vec::new();
        let mut i: usize = 0;
        while i < ADDRESS_SZ
            invariant
                i <= ADDRESS_SZ,
                v@ == self.bytes@.subrange(0, i as int),
            decreases ADDRESS_SZ - i,
        {
            v.push(self.bytes[i]);
            assert(v@ =~= self.bytes@.subrange(0, i + 1));
            i += 1;
        }
        assert(v@ =~= self@);
        v
    }
}

} // verus!

verus! {

broadcast use vstd::std_specs::hash::group_hash_axioms;

/// The bucket in which an address is filed: its first eight bytes as a
/// number. Addresses are digests, so these spread well.
pub closed spec fn bucket_of(key: Seq<u8>) -> u64 {
    (key[0] as u64) | (key[1] as u64) << 8 | (key[2] as u64) << 16 | (key[3] as u64) << 24 | (
    key[4] as u64) << 32 | (key[5] as u64) << 40 | (key[6] as u64) << 48 | (key[7] as u64) << 56
}

/// Executable form of [`bucket_of`].
fn bucket(addr: &Address) -> (b: u64)
    ensures
        b == bucket_of(addr@),
{
    let k = &addr.bytes;
    (k[0] as u64) | (k[1] as u64) << 8 | (k[2] as u64) << 16 | (k[3] as u64) << 24 | (k[4] as u64)
        << 32 | (k[5] as u64) << 40 | (k[6] as u64) << 48 | (k[7] as u64) << 56
}

/// Where `addr` stands in `bucket`, if it does.
fn position(bucket: &Vec<Address>, addr: &Address) -> (r: Option<usize>)
    ensures
        r matches Some(i) ==> i < bucket@.len() && bucket@[i as int]@ == addr@,
        r is None ==> forall|i: int| 0 <= i < bucket@.len() ==> (#[trigger] bucket@[i])@ != addr@,
{
    let mut i: usize = 0;
    while i < bucket.len()
        invariant
            i <= bucket.len(),
            forall|j: int| 0 <= j < i ==> (#[trigger] bucket@[j])@ != addr@,
        decreases bucket.len() - i,
    {
        if bucket[i] == *addr {
            return Some(i);
        }
        i += 1;
    }
    None
}

/// A finite set of addresses, filed in buckets by their first bytes.
/// Nothing is filed twice.
pub struct AddressSet {
    buckets: HashMap<u64, Vec<Address>>,
    count: usize,
    keys: Ghost<Seq<Seq<u8>>>,
}

impl View for AddressSet {
    type V = Set<Seq<u8>>;

    closed spec fn view(&self) -> Set<Seq<u8>> {
        self.keys().to_set()
    }
}

impl AddressSet {
    /// The members in the order of their arrival, each by its bytes.
    pub closed spec fn keys(&self) -> Seq<Seq<u8>> {
        self.keys@
    }

    #[verifier::type_invariant]
    spec fn inv(&self) -> bool {
        filed(self.buckets@, self.keys@) && self.count == counted(self.keys@.len())
    }

    /// The set is finite.
    pub proof fn lemma_finite(&self)
        ensures
            self@.finite(),
    {
        vstd::seq_lib::seq_to_set_is_finite(self.keys());
    }

    /// The empty set.
    pub fn new() -> (s: AddressSet)
        ensures
            s@ == Set::<Seq<u8>>::empty(),
    {
        let s = AddressSet { buckets: HashMap::new(), count: 0, keys: Ghost(Seq::empty()) };
        assert(s@ =~= Set::<Seq<u8>>::empty());
        s
    }

    /// Number of addresses in the set, as far as a `usize` can tell.
    pub fn len(&self) -> (n: usize)
        ensures
            n == counted(self@.len()),
    {
        proof {
            use_type_invariant(self);
            self.keys().unique_seq_to_set();
        }
        self.count
    }

    /// Whether `addr` is a member.
    pub fn contains(&self, addr: &Address) -> (r: bool)
        ensures
            r == self@.contains(addr@),
    {
        proof {
            use_type_invariant(self);
        }
        let b = bucket(addr);
        match self.buckets.get(&b) {
            None => false,
            Some(filed_here) => {
                match position(filed_here, addr) {
                    Some(i) => {
                        assert(self.keys@.contains(self.buckets@[b]@[i as int]@));
                        true
                    },
                    None => false,
                }
            },
        }
    }

    /// Adds `addr`; the result tells whether it was new.
    pub fn insert(&mut self, addr: Address) -> (fresh: bool)
        ensures
            final(self)@ == old(self)@.insert(addr@),
            fresh == !old(self)@.contains(addr@),
    {
        if self.contains(&addr) {
            assert(self@.insert(addr@) =~= self@);
            return false;
        }
        proof {
            use_type_invariant(&*self);
        }
        let b = bucket(&addr);
        let mut taken = AddressSet::new();
        std::mem::swap(self, &mut taken);
        let ghost before = taken.keys@;
        let ghost filed0 = taken.buckets@;
        let mut buckets = taken.buckets;
        let mut here = match buckets.remove(&b) {
            Some(found) => found,
            None => Vec::new(),
        };
        let ghost here0 = here@;
        here.push(addr);
        buckets.insert(b, here);
        let count = if taken.count < usize::MAX {
            taken.count + 1
        } else {
            usize::MAX
        };
        proof {
            let after = before.push(addr@);
            let filed1 = buckets@;
            assert(!before.contains(addr@));
            assert(filed0.contains_key(b) ==> here0 == filed0[b]@);
            assert(!filed0.contains_key(b) ==> here0.len() == 0);
            assert forall|c: u64, i: int|
                filed1.contains_key(c) && 0 <= i < filed1[c]@.len() implies bucket_of(
                (#[trigger] filed1[c]@[i])@,
            ) == c && after.contains(filed1[c]@[i]@) by {
                if c == b && i == here0.len() {
                    assert(after[before.len() as int] == addr@);
                } else {
                    let old_entry = if c == b {
                        here0[i]
                    } else {
                        filed0[c]@[i]
                    };
                    assert(filed0.contains_key(c));
                    assert(filed0[c]@[i] == old_entry);
                    assert(before.contains(old_entry@));
                    let j = choose|j: int| 0 <= j < before.len() && before[j] == old_entry@;
                    assert(after[j] == old_entry@);
                }
            }
            assert forall|k: Seq<u8>| #[trigger] after.contains(k) implies filed1.contains_key(
                bucket_of(k),
            ) && exists|i: int|
                0 <= i < filed1[bucket_of(k)]@.len() && (#[trigger] filed1[bucket_of(k)]@[i])@
                    == k by {
                let j = choose|j: int| 0 <= j < after.len() && after[j] == k;
                if j == before.len() {
                    assert(filed1[b]@[here0.len() as int]@ == k);
                } else {
                    assert(before[j] == k);
                    assert(before.contains(k));
                    let c = bucket_of(k);
                    let i = choose|i: int|
                        0 <= i < filed0[c]@.len() && (#[trigger] filed0[c]@[i])@ == k;
                    assert(filed1[c]@[i]@ == k);
                }
            }
            assert forall|a: Seq<u8>| #[trigger]
                after.to_set().contains(a) == before.to_set().insert(addr@).contains(a) by {
                if after.contains(a) {
                    let j = choose|j: int| 0 <= j < after.len() && after[j] == a;
                    if j < before.len() {
                        assert(before[j] == a);
                    }
                }
                if before.contains(a) {
                    let j = choose|j: int| 0 <= j < before.len() && before[j] == a;
                    assert(after[j] == a);
                }
                if a == addr@ {
                    assert(after[before.len() as int] == a);
                }
            }
            assert(after.to_set() =~= before.to_set().insert(addr@));
        }
        *self = AddressSet { buckets, count, keys: Ghost(before.push(addr@)) };
        true
    }
}

/// A count as a `usize` holds it: itself, or the greatest `usize` when it
/// is beyond that.
pub open spec fn counted(n: nat) -> usize {
    if n <= usize::MAX {
        n as usize
    } else {
        usize::MAX
    }
}

/// Every address filed in a bucket belongs there and is a key, and every
/// key is filed in its bucket; no key stands twice.
pub closed spec fn filed(buckets: Map<u64, Vec<Address>>, keys: Seq<Seq<u8>>) -> bool {
    &&& keys.no_duplicates()
    &&& forall|b: u64, i: int|
        buckets.contains_key(b) && 0 <= i < buckets[b]@.len() ==> bucket_of(
            (#[trigger] buckets[b]@[i])@,
        ) == b && keys.contains(buckets[b]@[i]@)
    &&& forall|k: Seq<u8>| #[trigger]
        keys.contains(k) ==> buckets.contains_key(bucket_of(k)) && exists|i: int|
            0 <= i < buckets[bucket_of(k)]@.len() && (#[trigger] buckets[bucket_of(k)]@[i])@ == k
}

} // verus!
