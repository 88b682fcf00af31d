//! Hash trees: chunks whose content lists the addresses of the chunks one
//! level below, down to the data chunks at height zero.

use crate::address::Address;
use crate::address::ADDRESS_SZ;
use crate::chunk_storage::valid;
use crate::chunk_storage::Chunks;
use crate::chunk_storage::Engine;
use crate::chunk_storage::StorageError;
use vstd::prelude::*;

verus! {

/// Why a tree could not be walked.
#[derive(Debug, PartialEq, Eq)]
pub enum HTreeError {
    /// The engine could not hand out a node.
    Storage(StorageError),
    /// The content of a node is not a whole number of addresses.
    CorruptNode,
}

/// A node's content is well formed when it is a whole number of addresses.
pub open spec fn valid_node(data: Seq<u8>) -> bool {
    data.len() % (ADDRESS_SZ as nat) == 0
}

/// Number of whole addresses in a node's content.
pub open spec fn child_count(data: Seq<u8>) -> nat {
    data.len() / (ADDRESS_SZ as nat)
}

/// The `i`-th address in a node's content.
pub open spec fn child_at(data: Seq<u8>, i: int) -> Seq<u8> {
    data.subrange(i * ADDRESS_SZ, i * ADDRESS_SZ + ADDRESS_SZ)
}

/// The addresses listed by a node, first to last.
pub open spec fn children(data: Seq<u8>) -> Seq<Seq<u8>> {
    Seq::new(child_count(data), |i: int| child_at(data, i))
}

/// The bytes of a run of addresses, one after the other.
pub open spec fn concat(addrs: Seq<Seq<u8>>) -> Seq<u8>
    decreases addrs.len(),
{
    if addrs.len() == 0 {
        Seq::empty()
    } else {
        concat(addrs.drop_last()) + addrs.last()
    }
}

/// The address `a` stands at height `h` in the tree of height `top` under
/// `root`: it is the root itself, or it stands in the tree under one of the
/// addresses that the root's content lists.
pub open spec fn occurs(store: Chunks, top: nat, root: Seq<u8>, h: nat, a: Seq<u8>) -> bool
    decreases top,
{
    ||| (top == h && root == a)
    ||| (top > 0 && store.contains_key(root) && exists|i: int|
        0 <= i < child_count(store[root]) && occurs(
            store,
            (top - 1) as nat,
            #[trigger] child_at(store[root], i),
            h,
            a,
        ))
}

/// Every node above the leaves of the tree is stored and well formed.
pub open spec fn complete(store: Chunks, top: nat, root: Seq<u8>) -> bool {
    forall|h: nat, a: Seq<u8>|
        h > 0 && #[trigger] occurs(store, top, root, h, a) ==> store.contains_key(a) && valid_node(
            store[a],
        )
}

/// What stands below an address of a tree stands in the tree.
pub proof fn lemma_occurs_child(store: Chunks, top: nat, root: Seq<u8>, h: nat, a: Seq<u8>, i: int)
    requires
        occurs(store, top, root, h, a),
        h > 0,
        store.contains_key(a),
        0 <= i < child_count(store[a]),
    ensures
        occurs(store, top, root, (h - 1) as nat, child_at(store[a], i)),
    decreases top,
{
    if top == h && root == a {
        assert(occurs(
            store,
            (top - 1) as nat,
            child_at(store[root], i),
            (h - 1) as nat,
            child_at(store[a], i),
        ));
    } else {
        let j = choose|j: int|
            0 <= j < child_count(store[root]) && occurs(
                store,
                (top - 1) as nat,
                #[trigger] child_at(store[root], j),
                h,
                a,
            );
        lemma_occurs_child(store, (top - 1) as nat, child_at(store[root], j), h, a, i);
    }
}

/// Reads the address that starts at `offset` in `data`.
pub fn read_address(data: &Vec<u8>, offset: usize) -> (a: Address)
    requires
        offset + ADDRESS_SZ <= data@.len(),
    ensures
        a@ == data@.subrange(offset as int, offset + ADDRESS_SZ),
{
    let mut bytes = [0u8; ADDRESS_SZ];
    let mut i: usize = 0;
    while i < ADDRESS_SZ
        invariant
            i <= ADDRESS_SZ,
            offset + ADDRESS_SZ <= data.len(),
            forall|j: int| 0 <= j < i ==> bytes@[j] == data@[offset + j],
        decreases ADDRESS_SZ - i,
    {
        bytes[i] = data[offset + i];
        i += 1;
    }
    assert(bytes@ =~= data@.subrange(offset as int, offset + ADDRESS_SZ));
    Address::from_bytes(bytes)
}

/// The addresses that a node's content lists; fails unless the content is
/// a whole number of addresses.
pub fn decode_node(data: &Vec<u8>) -> (r: Result<Vec<Address>, HTreeError>)
    ensures
        r is Ok <==> valid_node(data@),
        r matches Ok(v) ==> v@.map_values(|a: Address| a@) == children(data@),
        r matches Err(e) ==> e is CorruptNode,
{
    if data.len() % ADDRESS_SZ != 0 {
        return Err(HTreeError::CorruptNode);
    }
    let n = data.len() / ADDRESS_SZ;
    let mut out: Vec<Address> = Vec::with_capacity(n);
    let mut i: usize = 0;
    while i < n
        invariant
            i <= n,
            n == child_count(data@),
            n * ADDRESS_SZ == data@.len() <= usize::MAX,
            out@.map_values(|a: Address| a@) == children(data@).subrange(0, i as int),
        decreases n - i,
    {
        let ghost before = out@.map_values(|a: Address| a@);
        let a = read_address(data, i * ADDRESS_SZ);
        out.push(a);
        assert(out@.map_values(|a: Address| a@) =~= before.push(a@));
        assert(before.push(a@) =~= children(data@).subrange(0, i + 1));
        i += 1;
    }
    assert(out@.map_values(|a: Address| a@) =~= children(data@));
    Ok(out)
}

/// The content of the node that lists `addrs`.
pub fn encode_node(addrs: &Vec<Address>) -> (data: Vec<u8>)
    ensures
        data@ == concat(addrs@.map_values(|a: Address| a@)),
{
    let ghost keys = addrs@.map_values(|a: Address| a@);
    let mut data: Vec<u8> = Vec::new();
    let mut i: usize = 0;
    assert(keys.subrange(0, 0) =~= Seq::empty());
    while i < addrs.len()
        invariant
            i <= addrs.len(),
            keys == addrs@.map_values(|a: Address| a@),
            data@ == concat(keys.subrange(0, i as int)),
        decreases addrs.len() - i,
    {
        let ghost before = data@;
        let mut j: usize = 0;
        while j < ADDRESS_SZ
            invariant
                j <= ADDRESS_SZ,
                i < addrs.len(),
                data@ == before + addrs@[i as int]@.subrange(0, j as int),
            decreases ADDRESS_SZ - j,
        {
            data.push(addrs[i].bytes[j]);
            assert(data@ =~= before + addrs@[i as int]@.subrange(0, j + 1));
            j += 1;
        }
        proof {
            assert(addrs@[i as int]@.subrange(0, ADDRESS_SZ as int) =~= addrs@[i as int]@);
            assert(keys.subrange(0, i + 1).drop_last() =~= keys.subrange(0, i as int));
            assert(keys.subrange(0, i + 1).last() == addrs@[i as int]@);
        }
        i += 1;
    }
    assert(keys.subrange(0, addrs.len() as int) =~= keys);
    data
}

} // verus!

verus! {

/// The pairs that stand for the children of a node with content `data`,
/// each at `height`, the last child first.
pub open spec fn expansion(height: usize, data: Seq<u8>) -> Seq<(usize, Seq<u8>)> {
    rev_pairs(height, children(data))
}

/// A depth-first walk over a tree that its caller steers: the reader keeps
/// the stack of pending `(height, address)` pairs, the caller decides which
/// of the pairs it hands out are expanded.
pub struct TreeReader {
    stack: Vec<(usize, Address)>,
}

impl View for TreeReader {
    type V = Seq<(usize, Seq<u8>)>;

    /// The pending pairs; the last one is handed out next.
    closed spec fn view(&self) -> Seq<(usize, Seq<u8>)> {
        self.stack@.map_values(|p: (usize, Address)| (p.0, p.1@))
    }
}

impl TreeReader {
    /// A walk that starts at the root `addr` of a tree of height `height`.
    pub fn new(height: usize, addr: &Address) -> (tr: TreeReader)
        ensures
            tr@ == seq![(height, addr@)],
    {
        let mut stack: Vec<(usize, Address)> = Vec::new();
        stack.push((height, *addr));
        let tr = TreeReader { stack };
        assert(tr@ =~= seq![(height, addr@)]);
        tr
    }

    /// Whether nothing is pending.
    pub fn is_empty(&self) -> (r: bool)
        ensures
            r == (self@.len() == 0),
    {
        self.stack.len() == 0
    }

    /// Expands the node stored under `addr`: fetches its content and makes
    /// each address listed there pending at `height`, so that the first
    /// listed is handed out first.
    pub fn push_addr<E: Engine>(&mut self, engine: &mut E, height: usize, addr: &Address) -> (r:
        Result<(), HTreeError>)
        requires
            valid(old(engine)),
        ensures
            valid(final(engine)),
            final(engine).chunks() == old(engine).chunks(),
            final(engine).durable() == old(engine).durable(),
            final(engine).stored_bytes() == old(engine).stored_bytes(),
            match r {
                Ok(()) => {
                    &&& old(engine).chunks().contains_key(addr@)
                    &&& valid_node(old(engine).chunks()[addr@])
                    &&& final(self)@ == old(self)@ + expansion(
                        height,
                        old(engine).chunks()[addr@],
                    )
                },
                Err(HTreeError::CorruptNode) => {
                    &&& old(engine).chunks().contains_key(addr@)
                    &&& !valid_node(old(engine).chunks()[addr@])
                    &&& final(self)@ == old(self)@
                },
                Err(HTreeError::Storage(e)) => {
                    &&& e is NotFound ==> !old(engine).chunks().contains_key(addr@)
                    &&& final(self)@ == old(self)@
                },
            },
            !old(engine).chunks().contains_key(addr@) ==> r is Err,
            final(engine).dependable() == old(engine).dependable(),
            old(engine).dependable() && old(engine).chunks().contains_key(addr@) && valid_node(
                old(engine).chunks()[addr@],
            ) ==> r is Ok,
    {
        let data = match engine.get_chunk(addr) {
            Ok(data) => data,
            Err(e) => {
                return Err(HTreeError::Storage(e));
            },
        };
        if data.len() % ADDRESS_SZ != 0 {
            return Err(HTreeError::CorruptNode);
        }
        let n = data.len() / ADDRESS_SZ;
        let mut i: usize = n;
        assert(expansion(height, data@).subrange(0, 0) =~= Seq::empty());
        assert(self@ + Seq::empty() =~= self@);
        while i > 0
            invariant
                i <= n,
                n == child_count(data@),
                n * ADDRESS_SZ == data.len(),
                self@ == old(self)@ + expansion(height, data@).subrange(0, n - i),
            decreases i,
        {
            let ghost before = self@;
            i -= 1;
            let child = read_address(&data, i * ADDRESS_SZ);
            self.stack.push((height, child));
            proof {
                assert(self@ =~= before.push((height, child@)));
                assert(expansion(height, data@)[n - i - 1] == (height, child@));
                assert(expansion(height, data@).subrange(0, n - i) =~= expansion(
                    height,
                    data@,
                ).subrange(0, n - i - 1).push((height, child@)));
            }
        }
        assert(expansion(height, data@).subrange(0, n as int) =~= expansion(height, data@));
        Ok(())
    }

    /// Hands out the next pending pair, or `None` when the walk is over.
    pub fn next_addr(&mut self) -> (r: Option<(usize, Address)>)
        ensures
            match r {
                Some((height, addr)) => {
                    &&& old(self)@.len() > 0
                    &&& old(self)@.last() == (height, addr@)
                    &&& final(self)@ == old(self)@.drop_last()
                },
                None => old(self)@.len() == 0 && final(self)@ == old(self)@,
            },
    {
        let ghost before = self@;
        let r = self.stack.pop();
        proof {
            if before.len() > 0 {
                assert(self@ =~= before.drop_last());
            }
        }
        r
    }
}

} // verus!

verus! {

/// The data addresses of the tree of height `h` under `a`, first to last.
/// A node that is not stored contributes nothing.
pub open spec fn leaves(store: Chunks, h: nat, a: Seq<u8>) -> Seq<Seq<u8>>
    decreases h, 0nat,
{
    if h == 0 {
        seq![a]
    } else if !store.contains_key(a) {
        Seq::empty()
    } else {
        leaves_of(store, (h - 1) as nat, children(store[a]))
    }
}

/// The data addresses of the trees of height `h` under each of `addrs`,
/// one tree after the other.
pub open spec fn leaves_of(store: Chunks, h: nat, addrs: Seq<Seq<u8>>) -> Seq<Seq<u8>>
    decreases h, addrs.len() + 1,
{
    if addrs.len() == 0 {
        Seq::empty()
    } else {
        leaves(store, h, addrs.first()) + leaves_of(store, h, addrs.drop_first())
    }
}

/// Number of addresses in the tree of height `h` under `a`, each counted
/// as often as it stands there.
pub open spec fn tree_size(store: Chunks, h: nat, a: Seq<u8>) -> nat
    decreases h, 0nat,
{
    if h == 0 || !store.contains_key(a) {
        1
    } else {
        1 + trees_size(store, (h - 1) as nat, children(store[a]))
    }
}

/// Number of addresses in the trees of height `h` under each of `addrs`.
pub open spec fn trees_size(store: Chunks, h: nat, addrs: Seq<Seq<u8>>) -> nat
    decreases h, addrs.len() + 1,
{
    if addrs.len() == 0 {
        0
    } else {
        tree_size(store, h, addrs.first()) + trees_size(store, h, addrs.drop_first())
    }
}

/// The data addresses that a walk still has to hand out, in the order in
/// which it will.
pub open spec fn pending_leaves(store: Chunks, stack: Seq<(usize, Seq<u8>)>) -> Seq<Seq<u8>>
    decreases stack.len(),
{
    if stack.len() == 0 {
        Seq::empty()
    } else {
        leaves(store, stack.last().0 as nat, stack.last().1) + pending_leaves(
            store,
            stack.drop_last(),
        )
    }
}

/// Number of addresses that a walk still has to visit.
pub open spec fn pending_size(store: Chunks, stack: Seq<(usize, Seq<u8>)>) -> nat
    decreases stack.len(),
{
    if stack.len() == 0 {
        0
    } else {
        tree_size(store, stack.last().0 as nat, stack.last().1) + pending_size(
            store,
            stack.drop_last(),
        )
    }
}

/// The pairs for `kids`, each at `height`, the last first.
pub open spec fn rev_pairs(height: usize, kids: Seq<Seq<u8>>) -> Seq<(usize, Seq<u8>)> {
    Seq::new(kids.len(), |j: int| (height, kids[kids.len() - 1 - j]))
}

/// Expanding a node makes its children's trees pending, first child first.
pub proof fn lemma_pending_expansion(
    store: Chunks,
    stack: Seq<(usize, Seq<u8>)>,
    height: usize,
    kids: Seq<Seq<u8>>,
)
    ensures
        pending_leaves(store, stack + rev_pairs(height, kids)) == leaves_of(
            store,
            height as nat,
            kids,
        ) + pending_leaves(store, stack),
        pending_size(store, stack + rev_pairs(height, kids)) == trees_size(
            store,
            height as nat,
            kids,
        ) + pending_size(store, stack),
    decreases kids.len(),
{
    let s = stack + rev_pairs(height, kids);
    if kids.len() == 0 {
        assert(s =~= stack);
        assert(leaves_of(store, height as nat, kids) + pending_leaves(store, stack)
            =~= pending_leaves(store, stack));
    } else {
        let rest = kids.drop_first();
        assert(s.last() == (height, kids.first()));
        assert(s.drop_last() =~= stack + rev_pairs(height, rest));
        lemma_pending_expansion(store, stack, height, rest);
        assert((leaves(store, height as nat, kids.first()) + leaves_of(
            store,
            height as nat,
            rest,
        )) + pending_leaves(store, stack) =~= leaves(store, height as nat, kids.first()) + (
        leaves_of(store, height as nat, rest) + pending_leaves(store, stack)));
    }
}

/// The addresses of the data chunks of a tree, first to last. Fails when
/// a node of the tree cannot be fetched or is not well formed.
pub fn read_leaves<E: Engine>(engine: &mut E, height: usize, root: &Address) -> (r: Result<
    Vec<Address>,
    HTreeError,
>)
    requires
        valid(old(engine)),
    ensures
        valid(final(engine)),
        final(engine).chunks() == old(engine).chunks(),
        final(engine).durable() == old(engine).durable(),
        final(engine).stored_bytes() == old(engine).stored_bytes(),
        final(engine).dependable() == old(engine).dependable(),
        r matches Ok(v) ==> v@.map_values(|a: Address| a@) == leaves(
            old(engine).chunks(),
            height as nat,
            root@,
        ),
        height == 0 ==> r is Ok,
        old(engine).dependable() && complete(old(engine).chunks(), height as nat, root@) ==> r
            is Ok,
        r matches Err(HTreeError::CorruptNode) ==> exists|h: nat, a: Seq<u8>|
            h > 0 && #[trigger] occurs(old(engine).chunks(), height as nat, root@, h, a) && old(
                engine,
            ).chunks().contains_key(a) && !valid_node(old(engine).chunks()[a]),
        r matches Err(HTreeError::Storage(StorageError::NotFound)) ==> exists|h: nat, a: Seq<u8>|
            h > 0 && #[trigger] occurs(old(engine).chunks(), height as nat, root@, h, a) && !old(
                engine,
            ).chunks().contains_key(a),
{
    let ghost store = engine.chunks();
    let mut tr = TreeReader::new(height, root);
    let mut out: Vec<Address> = Vec::new();
    proof {
        assert(tr@.drop_last() =~= Seq::empty());
        assert(pending_leaves(store, tr@.drop_last()) =~= Seq::empty());
        assert(tr@.last() == (height, root@));
        assert(pending_leaves(store, tr@) =~= leaves(store, height as nat, root@));
        assert(out@.map_values(|a: Address| a@) + pending_leaves(store, tr@) =~= leaves(
            store,
            height as nat,
            root@,
        ));
    }
    while !tr.is_empty()
        invariant
            valid(engine),
            engine.chunks() == store,
            store == old(engine).chunks(),
            engine.durable() == old(engine).durable(),
            engine.stored_bytes() == old(engine).stored_bytes(),
            engine.dependable() == old(engine).dependable(),
            height == 0 ==> forall|j: int| 0 <= j < tr@.len() ==> (#[trigger] tr@[j]).0 == 0,
            out@.map_values(|a: Address| a@) + pending_leaves(store, tr@) == leaves(
                store,
                height as nat,
                root@,
            ),
            forall|j: int|
                0 <= j < tr@.len() ==> occurs(
                    store,
                    height as nat,
                    root@,
                    (#[trigger] tr@[j]).0 as nat,
                    tr@[j].1,
                ),
        decreases pending_size(store, tr@),
    {
        let ghost stack0 = tr@;
        let ghost out0 = out@.map_values(|a: Address| a@);
        let next = tr.next_addr();
        let (h, a) = next.unwrap();
        let ghost stack1 = tr@;
        proof {
            assert(stack0[stack0.len() - 1] == (h, a@));
            assert forall|j: int| 0 <= j < stack1.len() implies occurs(
                store,
                height as nat,
                root@,
                (#[trigger] stack1[j]).0 as nat,
                stack1[j].1,
            ) by {
                assert(stack1[j] == stack0[j]);
            }
        }
        if h == 0 {
            out.push(a);
            proof {
                assert(out@.map_values(|a: Address| a@) =~= out0.push(a@));
                assert(out0.push(a@) + pending_leaves(store, stack1) =~= out0 + (seq![a@]
                    + pending_leaves(store, stack1)));
            }
        } else {
            match tr.push_addr(engine, h - 1, &a) {
                Ok(()) => {
                    proof {
                        let data = store[a@];
                        let kids = children(data);
                        lemma_pending_expansion(store, stack1, (h - 1) as usize, kids);
                        assert(out0 + (leaves_of(store, (h - 1) as nat, kids) + pending_leaves(
                            store,
                            stack1,
                        )) =~= out0 + pending_leaves(store, stack0));
                        assert forall|j: int| 0 <= j < tr@.len() implies occurs(
                            store,
                            height as nat,
                            root@,
                            (#[trigger] tr@[j]).0 as nat,
                            tr@[j].1,
                        ) by {
                            if j < stack1.len() {
                                assert(tr@[j] == stack1[j]);
                            } else {
                                let i = child_count(data) - 1 - (j - stack1.len());
                                assert(tr@[j] == ((h - 1) as usize, child_at(data, i)));
                                lemma_occurs_child(store, height as nat, root@, h as nat, a@, i);
                            }
                        }
                    }
                },
                Err(e) => {
                    return Err(e);
                },
            }
        }
    }
    proof {
        assert(out@.map_values(|a: Address| a@) + Seq::<Seq<u8>>::empty() =~= out@.map_values(
            |a: Address| a@,
        ));
    }
    Ok(out)
}

} // verus!
