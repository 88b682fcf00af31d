//! Content-addressed chunk storage: the engine contract and an in-memory engine.

use crate::address::Address;
use crate::address::ADDRESS_SZ;
use crate::repository::GCStats;
use vstd::prelude::*;

verus! {

/// Why a storage operation failed.
#[derive(Debug, PartialEq, Eq)]
pub enum StorageError {
    /// Nothing is stored under the requested address.
    NotFound,
    /// The engine cannot account for any more bytes.
    Full,
    /// The medium underneath the engine reported a failure.
    Io { message: String },
}

/// The chunks of a store: address bytes to content.
pub type Chunks = Map<Seq<u8>, Seq<u8>>;

/// The store after a put of `data` under `addr`: the first write wins.
pub open spec fn put(chunks: Chunks, addr: Seq<u8>, data: Seq<u8>) -> Chunks {
    if chunks.contains_key(addr) {
        chunks
    } else {
        chunks.insert(addr, data)
    }
}

/// Total length of the contents of a finite store.
pub open spec fn total_bytes(chunks: Chunks) -> nat
    decreases chunks.dom().len(),
    when chunks.dom().finite()
{
    if chunks.dom().len() == 0 {
        0
    } else {
        let k = chunks.dom().choose();
        chunks[k].len() + total_bytes(chunks.remove(k))
    }
}

/// An empty store holds no bytes.
pub proof fn lemma_total_bytes_empty()
    ensures
        total_bytes(Map::<Seq<u8>, Seq<u8>>::empty()) == 0,
{
}

/// The bytes of a store are those of any one of its chunks and those of
/// the rest.
pub proof fn lemma_total_bytes_remove(chunks: Chunks, key: Seq<u8>)
    requires
        chunks.dom().finite(),
        chunks.contains_key(key),
    ensures
        total_bytes(chunks) == chunks[key].len() + total_bytes(chunks.remove(key)),
    decreases chunks.dom().len(),
{
    let c = chunks.dom().choose();
    if c != key {
        lemma_total_bytes_remove(chunks.remove(c), key);
        lemma_total_bytes_remove(chunks.remove(key), c);
        assert(chunks.remove(c).remove(key) =~= chunks.remove(key).remove(c));
    }
}

/// A chunk put under a free address adds its length to the bytes of the
/// store.
pub proof fn lemma_total_bytes_insert(chunks: Chunks, key: Seq<u8>, data: Seq<u8>)
    requires
        chunks.dom().finite(),
        !chunks.contains_key(key),
    ensures
        total_bytes(chunks.insert(key, data)) == total_bytes(chunks) + data.len(),
{
    lemma_total_bytes_remove(chunks.insert(key, data), key);
    assert(chunks.insert(key, data).remove(key) =~= chunks);
}

/// The predicate `f` answered `verdict` for the address with bytes `key`.
pub open spec fn judged<F: Fn(&Address) -> bool>(f: &F, key: Seq<u8>, verdict: bool) -> bool {
    exists|a: Address| a@ == key && call_ensures(*f, (&a,), verdict)
}

/// How many, as far as a `usize` can count.
pub open spec fn capped(n: int) -> usize {
    if n <= usize::MAX {
        n as usize
    } else {
        usize::MAX
    }
}

/// Judges one chunk of a sweep and enters it in the statistics: a chunk
/// whose address `reachable` rejects is to be deleted and counted as
/// freed, any other is counted as remaining.
pub fn sweep_entry<F: Fn(&Address) -> bool>(
    stats: &mut GCStats,
    addr: &Address,
    size: usize,
    reachable: &F,
) -> (delete: bool)
    requires
        call_requires(*reachable, (addr,)),
    ensures
        call_ensures(*reachable, (addr,), !delete),
        *final(stats) == if delete {
            GCStats {
                chunks_deleted: capped(old(stats).chunks_deleted + 1),
                bytes_freed: capped(old(stats).bytes_freed + size),
                bytes_remaining: old(stats).bytes_remaining,
            }
        } else {
            GCStats {
                chunks_deleted: old(stats).chunks_deleted,
                bytes_freed: old(stats).bytes_freed,
                bytes_remaining: capped(old(stats).bytes_remaining + size),
            }
        },
{
    if reachable(addr) {
        stats.bytes_remaining = stats.bytes_remaining.saturating_add(size);
        false
    } else {
        stats.chunks_deleted = stats.chunks_deleted.saturating_add(1);
        stats.bytes_freed = stats.bytes_freed.saturating_add(size);
        true
    }
}

/// What an engine holds, as the contracts see it. `chunks` is what the
/// store holds, `durable` the part of it that would survive a crash,
/// `stored_bytes` the bytes that it holds, `inv` what holds of the
/// engine between calls, `dependable` whether it is free of failures of its
/// own. An engine that does not say what it holds has no valid state:
/// nothing is proved of it.
pub trait StoreModel: Sized {
    open spec fn chunks(&self) -> Chunks {
        Map::empty()
    }

    open spec fn durable(&self) -> Chunks {
        Map::empty()
    }

    open spec fn stored_bytes(&self) -> nat {
        0
    }

    open spec fn inv(&self) -> bool {
        false
    }

    /// The engine fails only for want of a chunk or of room: it hands out
    /// every chunk that it holds, and its barrier and its sweep go through.
    open spec fn dependable(&self) -> bool {
        false
    }
}

/// An engine in a valid state: its own invariant holds, it holds finitely
/// many chunks, each under a well-sized address, nothing is durable that
/// is not stored, and the bytes it accounts for are those of its chunks.
pub open spec fn valid<E: StoreModel>(engine: &E) -> bool {
    &&& engine.inv()
    &&& engine.chunks().dom().finite()
    &&& forall|k: Seq<u8>| engine.chunks().contains_key(k) ==> k.len() == ADDRESS_SZ
    &&& engine.durable().submap_of(engine.chunks())
    &&& engine.stored_bytes() == total_bytes(engine.chunks())
}

/// What every chunk storage engine offers.
pub trait Engine: StoreModel {
    /// Stores `buf` under `addr` unless the address is already taken.
    fn add_chunk(&mut self, addr: &Address, buf: Vec<u8>) -> (r: Result<(), StorageError>)
        requires
            valid(old(self)),
        ensures
            valid(final(self)),
            old(self).durable().submap_of(final(self).durable()),
            r is Ok ==> final(self).chunks() == put(old(self).chunks(), addr@, buf@),
            r is Err ==> final(self).chunks() == old(self).chunks(),
            old(self).chunks().contains_key(addr@) ==> r is Ok,
            r matches Err(e) ==> !(e is NotFound),
            final(self).dependable() == old(self).dependable(),
            old(self).dependable() ==> (r matches Err(e) ==> e is Full),
    ;

    /// Fetches the content stored under `addr`.
    fn get_chunk(&mut self, addr: &Address) -> (r: Result<Vec<u8>, StorageError>)
        requires
            valid(old(self)),
        ensures
            valid(final(self)),
            final(self).chunks() == old(self).chunks(),
            final(self).durable() == old(self).durable(),
            final(self).stored_bytes() == old(self).stored_bytes(),
            r matches Ok(data) ==> old(self).chunks().contains_key(addr@) && data@
                == old(self).chunks()[addr@],
            !old(self).chunks().contains_key(addr@) ==> r is Err,
            r matches Err(StorageError::NotFound) ==> !old(self).chunks().contains_key(addr@),
            final(self).dependable() == old(self).dependable(),
            old(self).dependable() && old(self).chunks().contains_key(addr@) ==> r is Ok,
    ;

    /// Durability barrier: once it succeeds, everything stored is durable.
    fn sync(&mut self) -> (r: Result<(), StorageError>)
        requires
            valid(old(self)),
        ensures
            valid(final(self)),
            final(self).chunks() == old(self).chunks(),
            final(self).stored_bytes() == old(self).stored_bytes(),
            old(self).durable().submap_of(final(self).durable()),
            r is Ok ==> final(self).durable() == final(self).chunks(),
            final(self).dependable() == old(self).dependable(),
            old(self).dependable() ==> r is Ok,
    ;

    /// Sweep: deletes every chunk whose address `reachable` rejects.
    fn gc<F: Fn(&Address) -> bool>(&mut self, reachable: &F) -> (r: Result<GCStats, StorageError>)
        requires
            valid(old(self)),
            forall|a: Address| call_requires(*reachable, (&a,)),
        ensures
            valid(final(self)),
            final(self).dependable() == old(self).dependable(),
            old(self).dependable() ==> r is Ok,
            final(self).chunks().submap_of(old(self).chunks()),
            forall|k: Seq<u8>|
                old(self).chunks().contains_key(k) && !final(self).chunks().contains_key(k)
                    ==> judged(reachable, k, false),
            r is Ok ==> forall|k: Seq<u8>| #[trigger]
                final(self).chunks().contains_key(k) ==> judged(reachable, k, true),
            r matches Ok(stats) ==> {
                &&& stats.chunks_deleted == old(self).chunks().dom().difference(
                    final(self).chunks().dom(),
                ).len()
                &&& stats.bytes_remaining == final(self).stored_bytes()
                &&& stats.bytes_freed == old(self).stored_bytes() - final(self).stored_bytes()
            },
    ;
}

} // verus!

verus! {

/// A chunk held in memory.
pub struct StoredChunk {
    pub addr: Address,
    pub data: Vec<u8>,
}

/// The addresses and contents of a run of stored chunks.
pub open spec fn pairs(entries: Seq<StoredChunk>) -> Seq<(Seq<u8>, Seq<u8>)> {
    entries.map_values(|e: StoredChunk| (e.addr@, e.data@))
}

/// Some pair of `s` is filed under `key`.
pub open spec fn has_key(s: Seq<(Seq<u8>, Seq<u8>)>, key: Seq<u8>) -> bool {
    exists|i: int| 0 <= i < s.len() && (#[trigger] s[i]).0 == key
}

/// The place of a pair filed under `key`.
pub open spec fn index_of(s: Seq<(Seq<u8>, Seq<u8>)>, key: Seq<u8>) -> int {
    choose|i: int| 0 <= i < s.len() && (#[trigger] s[i]).0 == key
}

/// No two pairs of `s` share a key.
pub open spec fn distinct_keys(s: Seq<(Seq<u8>, Seq<u8>)>) -> bool {
    forall|i: int, j: int| 0 <= i < j < s.len() ==> (#[trigger] s[i]).0 != (#[trigger] s[j]).0
}

/// The map that a run of pairs stands for.
pub open spec fn as_map(s: Seq<(Seq<u8>, Seq<u8>)>) -> Chunks {
    Map::new(|k: Seq<u8>| has_key(s, k), |k: Seq<u8>| s[index_of(s, k)].1)
}

/// Total length of the contents in a run of pairs.
pub open spec fn total_len(s: Seq<(Seq<u8>, Seq<u8>)>) -> nat
    decreases s.len(),
{
    if s.len() == 0 {
        0
    } else {
        total_len(s.drop_last()) + s.last().1.len()
    }
}

/// With distinct keys, each pair is what the map holds under its key.
pub proof fn lemma_as_map_at(s: Seq<(Seq<u8>, Seq<u8>)>, i: int)
    requires
        distinct_keys(s),
        0 <= i < s.len(),
    ensures
        as_map(s).contains_key(s[i].0),
        as_map(s)[s[i].0] == s[i].1,
{
    let k = s[i].0;
    assert(has_key(s, k));
    let j = index_of(s, k);
    assert(j == i) by {
        if j < i {
            assert(s[j].0 != s[i].0);
        } else if i < j {
            assert(s[i].0 != s[j].0);
        }
    }
}

/// Appending a pair under a fresh key inserts it into the map.
pub proof fn lemma_as_map_push(s: Seq<(Seq<u8>, Seq<u8>)>, key: Seq<u8>, data: Seq<u8>)
    requires
        distinct_keys(s),
        !has_key(s, key),
    ensures
        distinct_keys(s.push((key, data))),
        as_map(s.push((key, data))) == as_map(s).insert(key, data),
        total_len(s.push((key, data))) == total_len(s) + data.len(),
{
    let t = s.push((key, data));
    assert(t.drop_last() =~= s);
    assert(distinct_keys(t)) by {
        assert forall|i: int, j: int| 0 <= i < j < t.len() implies (#[trigger] t[i]).0 != (
        #[trigger] t[j]).0 by {
            if j < s.len() {
                assert(s[i].0 != s[j].0);
            } else {
                assert(s[i].0 != key);
            }
        }
    }
    assert forall|k: Seq<u8>| #[trigger] as_map(t).contains_key(k) == as_map(s).insert(
        key,
        data,
    ).contains_key(k) by {
        if has_key(t, k) {
            let i = index_of(t, k);
            if i < s.len() {
                assert(s[i].0 == k);
            }
        }
        if has_key(s, k) {
            let i = index_of(s, k);
            assert(t[i].0 == k);
        }
        if k == key {
            assert(t[s.len() as int].0 == k);
        }
    }
    assert forall|k: Seq<u8>| as_map(t).contains_key(k) implies #[trigger] as_map(t)[k] == as_map(
        s,
    ).insert(key, data)[k] by {
        let i = index_of(t, k);
        lemma_as_map_at(t, i);
        if i < s.len() {
            assert(s[i] == t[i]);
            lemma_as_map_at(s, i);
        }
    }
    assert(as_map(t) =~= as_map(s).insert(key, data));
}

/// The keys of the map are the keys of the pairs: finitely many, and as
/// many as there are pairs when the keys are distinct.
pub proof fn lemma_as_map_dom(s: Seq<(Seq<u8>, Seq<u8>)>)
    ensures
        as_map(s).dom() == s.map_values(|p: (Seq<u8>, Seq<u8>)| p.0).to_set(),
        as_map(s).dom().finite(),
        distinct_keys(s) ==> as_map(s).dom().len() == s.len(),
{
    let keys = s.map_values(|p: (Seq<u8>, Seq<u8>)| p.0);
    assert forall|k: Seq<u8>| #[trigger] as_map(s).dom().contains(k) == keys.to_set().contains(
        k,
    ) by {
        if has_key(s, k) {
            let i = index_of(s, k);
            assert(keys[i] == k);
        }
        if keys.contains(k) {
            let i = choose|i: int| 0 <= i < keys.len() && keys[i] == k;
            assert(s[i].0 == k);
        }
    }
    assert(as_map(s).dom() =~= keys.to_set());
    vstd::seq_lib::seq_to_set_is_finite(keys);
    if distinct_keys(s) {
        assert(keys.no_duplicates()) by {
            assert forall|i: int, j: int|
                0 <= i < keys.len() && 0 <= j < keys.len() && i != j implies keys[i]
                != keys[j] by {
                if i < j {
                    assert(s[i].0 != s[j].0);
                } else {
                    assert(s[j].0 != s[i].0);
                }
            }
        }
        keys.unique_seq_to_set();
    }
}

/// The bytes of the map that a run of pairs with distinct keys stands for
/// are the bytes of the pairs.
pub proof fn lemma_as_map_total(s: Seq<(Seq<u8>, Seq<u8>)>)
    requires
        distinct_keys(s),
    ensures
        total_bytes(as_map(s)) == total_len(s),
    decreases s.len(),
{
    if s.len() == 0 {
        assert(as_map(s) =~= Map::<Seq<u8>, Seq<u8>>::empty());
    } else {
        let init = s.drop_last();
        let last = s.last();
        assert(distinct_keys(init)) by {
            assert forall|i: int, j: int| 0 <= i < j < init.len() implies (#[trigger] init[i]).0
                != (#[trigger] init[j]).0 by {
                assert(init[i] == s[i] && init[j] == s[j]);
            }
        }
        assert(!has_key(init, last.0)) by {
            if has_key(init, last.0) {
                let i = index_of(init, last.0);
                assert(s[i].0 != s[s.len() - 1].0);
            }
        }
        lemma_as_map_total(init);
        lemma_as_map_push(init, last.0, last.1);
        assert(init.push(last) =~= s);
        lemma_as_map_dom(init);
        lemma_total_bytes_insert(as_map(init), last.0, last.1);
    }
}

/// A chunk store held in memory. Chunks put since the last `sync` are
/// stored but not yet durable.
pub struct MemStorage {
    entries: Vec<StoredChunk>,
    synced: usize,
    total: usize,
}

impl MemStorage {
    /// The stored pairs in the order of their arrival.
    pub closed spec fn content(&self) -> Seq<(Seq<u8>, Seq<u8>)> {
        pairs(self.entries@)
    }

    /// How many of the stored pairs are durable.
    pub closed spec fn synced_len(&self) -> int {
        self.synced as int
    }

    /// An empty store.
    pub fn new() -> (s: MemStorage)
        ensures
            valid(&s),
            s.chunks() == Map::<Seq<u8>, Seq<u8>>::empty(),
            s.durable() == Map::<Seq<u8>, Seq<u8>>::empty(),
            s.stored_bytes() == 0,
    {
        let s = MemStorage { entries: Vec::new(), synced: 0, total: 0 };
        assert(s.content() =~= Seq::empty());
        assert(s.content().subrange(0, 0) =~= Seq::empty());
        assert(as_map(Seq::<(Seq<u8>, Seq<u8>)>::empty()) =~= Map::<Seq<u8>, Seq<u8>>::empty());
        s
    }

    /// Number of chunks held.
    pub fn len(&self) -> (n: usize)
        requires
            self.inv(),
        ensures
            n == self.chunks().dom().len(),
    {
        proof {
            lemma_as_map_dom(self.content());
        }
        self.entries.len()
    }

    /// Whether a chunk is stored under `addr`.
    pub fn contains(&self, addr: &Address) -> (r: bool)
        requires
            self.inv(),
        ensures
            r == self.chunks().contains_key(addr@),
    {
        self.find(addr).is_some()
    }

    /// A store whose own invariant holds is valid.
    pub proof fn lemma_valid(&self)
        requires
            self.inv(),
        ensures
            valid(self),
    {
        let s = self.content();
        lemma_as_map_dom(s);
        lemma_as_map_total(s);
        let d = s.subrange(0, self.synced_len());
        assert forall|k: Seq<u8>| #[trigger] as_map(d).contains_key(k) implies as_map(
            s,
        ).contains_key(k) && as_map(d)[k] == as_map(s)[k] by {
            let i = index_of(d, k);
            assert(d[i] == s[i]);
            lemma_as_map_at(d, i);
            lemma_as_map_at(s, i);
        }
        assert forall|k: Seq<u8>| as_map(s).contains_key(k) implies k.len() == ADDRESS_SZ by {
            let i = index_of(s, k);
            self.entries@[i].addr.lemma_len();
        }
    }

    fn find(&self, addr: &Address) -> (r: Option<usize>)
        ensures
            r matches Some(i) ==> i < self.content().len() && self.content()[i as int].0 == addr@,
            r is None ==> !has_key(self.content(), addr@),
    {
        let mut i: usize = 0;
        while i < self.entries.len()
            invariant
                i <= self.entries.len(),
                forall|j: int| 0 <= j < i ==> (#[trigger] self.content()[j]).0 != addr@,
            decreases self.entries.len() - i,
        {
            if self.entries[i].addr == *addr {
                return Some(i);
            }
            i += 1;
        }
        None
    }
}

/// A copy of `v`.
pub fn copy_bytes(v: &Vec<u8>) -> (out: Vec<u8>)
    ensures
        out@ == v@,
{
    let mut out: Vec<u8> = Vec::with_capacity(v.len());
    let mut i: usize = 0;
    while i < v.len()
        invariant
            i <= v.len(),
            out@ == v@.subrange(0, i as int),
        decreases v.len() - i,
    {
        out.push(v[i]);
        assert(out@ =~= v@.subrange(0, i + 1));
        i += 1;
    }
    assert(out@ =~= v@);
    out
}

impl StoreModel for MemStorage {
    closed spec fn chunks(&self) -> Chunks {
        as_map(self.content())
    }

    closed spec fn durable(&self) -> Chunks {
        as_map(self.content().subrange(0, self.synced_len()))
    }

    closed spec fn stored_bytes(&self) -> nat {
        total_len(self.content())
    }

    closed spec fn inv(&self) -> bool {
        &&& distinct_keys(self.content())
        &&& self.synced <= self.entries.len()
        &&& self.total == total_len(self.content())
    }

    open spec fn dependable(&self) -> bool {
        true
    }
}

impl Engine for MemStorage {
    fn add_chunk(&mut self, addr: &Address, buf: Vec<u8>) -> (r: Result<(), StorageError>)
        ensures
            r matches Err(e) ==> e is Full && old(self).stored_bytes() + buf@.len() > usize::MAX,
            !old(self).chunks().contains_key(addr@) && old(self).stored_bytes() + buf@.len()
                <= usize::MAX ==> r is Ok && final(self).stored_bytes() == old(self).stored_bytes()
                + buf@.len(),
            final(self).durable() == old(self).durable(),
    {
        let ghost before = self.content();
        match self.find(addr) {
            Some(i) => {
                assert(has_key(before, addr@));
                Ok(())
            },
            None => {
                match self.total.checked_add(buf.len()) {
                    None => Err(StorageError::Full),
                    Some(total) => {
                        proof {
                            lemma_as_map_push(before, addr@, buf@);
                        }
                        self.entries.push(StoredChunk { addr: *addr, data: buf });
                        self.total = total;
                        proof {
                            assert(self.content() =~= before.push((addr@, buf@)));
                            lemma_as_map_total(self.content());
                            assert(self.content().subrange(0, self.synced_len())
                                =~= before.subrange(0, self.synced_len()));
                        }
                        Ok(())
                    },
                }
            },
        }
    }

    fn get_chunk(&mut self, addr: &Address) -> (r: Result<Vec<u8>, StorageError>)
        ensures
            old(self).chunks().contains_key(addr@) ==> r is Ok,
            r matches Err(e) ==> e is NotFound,
    {
        match self.find(addr) {
            Some(i) => {
                proof {
                    lemma_as_map_at(self.content(), i as int);
                }
                Ok(copy_bytes(&self.entries[i].data))
            },
            None => Err(StorageError::NotFound),
        }
    }

    fn sync(&mut self) -> (r: Result<(), StorageError>)
        ensures
            r is Ok,
    {
        proof {
            self.lemma_valid();
        }
        self.synced = self.entries.len();
        assert(self.content().subrange(0, self.synced_len()) =~= self.content());
        Ok(())
    }

    fn gc<F: Fn(&Address) -> bool>(&mut self, reachable: &F) -> (r: Result<GCStats, StorageError>)
        ensures
            r is Ok,
            final(self).durable() == final(self).chunks(),
    {
        let ghost orig = self.content();
        let mut rest: Vec<StoredChunk> = Vec::new();
        std::mem::swap(&mut self.entries, &mut rest);
        let mut kept: Vec<StoredChunk> = Vec::new();
        let mut deleted: usize = 0;
        let mut freed: usize = 0;
        let mut remaining: usize = 0;
        assert(pairs(rest@) =~= orig.subrange(0, rest.len() as int));
        while rest.len() > 0
            invariant
                forall|a: Address| call_requires(*reachable, (&a,)),
                rest.len() <= orig.len() <= usize::MAX,
                pairs(rest@) == orig.subrange(0, rest.len() as int),
                distinct_keys(orig),
                distinct_keys(pairs(kept@)),
                forall|j: int|
                    0 <= j < kept.len() ==> exists|i: int|
                        rest.len() <= i < orig.len() && orig[i] == (#[trigger] pairs(kept@)[j]),
                forall|j: int|
                    0 <= j < kept.len() ==> judged(reachable, (#[trigger] pairs(kept@)[j]).0, true),
                forall|i: int|
                    rest.len() <= i < orig.len() ==> has_key(pairs(kept@), (#[trigger] orig[i]).0)
                        || judged(reachable, orig[i].0, false),
                remaining == total_len(pairs(kept@)),
                freed + remaining + total_len(pairs(rest@)) == total_len(orig),
                deleted + kept.len() + rest.len() == orig.len(),
                total_len(orig) <= usize::MAX,
            decreases rest.len(),
        {
            let ghost rest_before = pairs(rest@);
            let ghost kept_before = pairs(kept@);
            let e = rest.pop().unwrap();
            let ghost m = rest.len() as int;
            proof {
                assert(pairs(rest@) =~= rest_before.drop_last());
                assert(pairs(rest@) =~= orig.subrange(0, m));
                assert(rest_before.last() == (e.addr@, e.data@));
                assert(orig[m] == (e.addr@, e.data@));
            }
            let keep = reachable(&e.addr);
            assert(judged(reachable, e.addr@, keep));
            if keep {
                proof {
                    assert(!has_key(kept_before, e.addr@)) by {
                        if has_key(kept_before, e.addr@) {
                            let j = index_of(kept_before, e.addr@);
                            let i = choose|i: int|
                                m + 1 <= i < orig.len() && orig[i] == kept_before[j];
                            assert(orig[m].0 != orig[i].0);
                        }
                    }
                    lemma_as_map_push(kept_before, e.addr@, e.data@);
                }
                remaining = remaining + e.data.len();
                kept.push(e);
                proof {
                    assert(pairs(kept@) =~= kept_before.push(orig[m]));
                    assert forall|j: int| 0 <= j < kept.len() implies exists|i: int|
                        m <= i < orig.len() && orig[i] == (#[trigger] pairs(kept@)[j]) by {
                        if j < kept_before.len() {
                            assert(pairs(kept@)[j] == kept_before[j]);
                            let i = choose|i: int|
                                m + 1 <= i < orig.len() && orig[i] == kept_before[j];
                            assert(orig[i] == pairs(kept@)[j]);
                        } else {
                            assert(orig[m] == pairs(kept@)[j]);
                        }
                    }
                    assert forall|j: int| 0 <= j < kept.len() implies judged(
                        reachable,
                        (#[trigger] pairs(kept@)[j]).0,
                        true,
                    ) by {
                        if j < kept_before.len() {
                            assert(pairs(kept@)[j] == kept_before[j]);
                        }
                    }
                    assert forall|i: int| m <= i < orig.len() implies has_key(
                        pairs(kept@),
                        (#[trigger] orig[i]).0,
                    ) || judged(reachable, orig[i].0, false) by {
                        if i == m {
                            assert(pairs(kept@)[kept_before.len() as int].0 == orig[m].0);
                        } else if has_key(kept_before, orig[i].0) {
                            let j = index_of(kept_before, orig[i].0);
                            assert(pairs(kept@)[j].0 == orig[i].0);
                        }
                    }
                }
            } else {
                deleted = deleted + 1;
                freed = freed + e.data.len();
            }
        }
        proof {
            assert(pairs(rest@) =~= Seq::empty());
        }
        let n = kept.len();
        self.entries = kept;
        self.synced = n;
        self.total = remaining;
        proof {
            let now = self.content();
            assert(now.subrange(0, self.synced_len()) =~= now);
            lemma_as_map_total(now);
            lemma_as_map_dom(orig);
            lemma_as_map_dom(now);
            assert forall|k: Seq<u8>| #[trigger] as_map(now).contains_key(k) implies as_map(
                orig,
            ).contains_key(k) && as_map(now)[k] == as_map(orig)[k] && judged(
                reachable,
                k,
                true,
            ) by {
                let j = index_of(now, k);
                lemma_as_map_at(now, j);
                let i = choose|i: int| 0 <= i < orig.len() && orig[i] == now[j];
                lemma_as_map_at(orig, i);
            }
            assert forall|k: Seq<u8>|
                as_map(orig).contains_key(k) && !as_map(now).contains_key(k) implies judged(
                reachable,
                k,
                false,
            ) by {
                let i = index_of(orig, k);
                assert(orig[i].0 == k);
            }
            assert(as_map(now).dom().subset_of(as_map(orig).dom()));
            vstd::set_lib::lemma_set_difference_len(as_map(orig).dom(), as_map(now).dom());
            assert(as_map(orig).dom().intersect(as_map(now).dom()) =~= as_map(now).dom());
        }
        Ok(GCStats { chunks_deleted: deleted, bytes_freed: freed, bytes_remaining: remaining })
    }
}

} // verus!
