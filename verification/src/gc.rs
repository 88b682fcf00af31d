//! Mark and sweep: which chunks the retained items still need, and the
//! removal of all the others.

use crate::address::counted;
use crate::address::Address;
use crate::address::AddressSet;
use crate::chunk_storage::judged;
use crate::chunk_storage::put;
use crate::chunk_storage::total_bytes;
use crate::chunk_storage::valid;
use crate::chunk_storage::Chunks;
use crate::chunk_storage::Engine;
use crate::chunk_storage::StorageError;
use crate::htree::child_at;
use crate::htree::child_count;
use crate::htree::complete;
use crate::htree::lemma_occurs_child;
use crate::htree::occurs;
use crate::htree::valid_node;
use crate::htree::HTreeError;
use crate::htree::TreeReader;
use crate::repository::GCStats;
use vstd::prelude::*;

verus! {

/// The trees of the retained items: the height and the root of each.
pub type Roots = Seq<(nat, Seq<u8>)>;

/// The address `a` stands at height `h` in one of the trees.
pub open spec fn occurs_in(store: Chunks, roots: Roots, h: nat, a: Seq<u8>) -> bool {
    exists|k: int| 0 <= k < roots.len() && occurs(store, (#[trigger] roots[k]).0, roots[k].1, h, a)
}

/// The addresses that the trees need: all that stand in one of them.
pub open spec fn live(store: Chunks, roots: Roots) -> Set<Seq<u8>> {
    Set::new(|a: Seq<u8>| exists|h: nat| occurs_in(store, roots, h, a))
}

/// No address stands at two different heights.
pub open spec fn leveled(store: Chunks, roots: Roots) -> bool {
    forall|h1: nat, h2: nat, a: Seq<u8>|
        occurs_in(store, roots, h1, a) && occurs_in(store, roots, h2, a) ==> h1 == h2
}

/// Some pending pair carries the address `a`.
pub open spec fn pending(stack: Seq<(usize, Seq<u8>)>, a: Seq<u8>) -> bool {
    exists|j: int| 0 <= j < stack.len() && (#[trigger] stack[j]).1 == a
}

/// Every marked address stands in one of the trees, at the height that
/// `level` records for it.
pub open spec fn sound(store: Chunks, roots: Roots, marked: Set<Seq<u8>>, level: Map<Seq<u8>, nat>)
    -> bool {
    forall|a: Seq<u8>| #[trigger]
        marked.contains(a) ==> level.contains_key(a) && occurs_in(store, roots, level[a], a)
}

/// Every address marked above height zero is a stored, well-formed node,
/// and each address that it lists is marked or pending.
pub open spec fn closed_up_to(
    store: Chunks,
    marked: Set<Seq<u8>>,
    level: Map<Seq<u8>, nat>,
    stack: Seq<(usize, Seq<u8>)>,
) -> bool {
    forall|a: Seq<u8>| #[trigger]
        marked.contains(a) && level[a] > 0 ==> {
            &&& store.contains_key(a)
            &&& valid_node(store[a])
            &&& forall|i: int|
                0 <= i < child_count(store[a]) ==> marked.contains(#[trigger] child_at(store[a], i))
                    || pending(stack, child_at(store[a], i))
        }
}

/// Every root is marked or pending.
pub open spec fn rooted_up_to(roots: Roots, marked: Set<Seq<u8>>, stack: Seq<(usize, Seq<u8>)>)
    -> bool {
    forall|k: int|
        0 <= k < roots.len() ==> marked.contains((#[trigger] roots[k]).1) || pending(
            stack,
            roots[k].1,
        )
}

/// What holds of the marked set between two trees: it is sound, it holds
/// every root, and it holds the children of all it holds above height zero.
pub open spec fn marking(store: Chunks, roots: Roots, marked: Set<Seq<u8>>, level: Map<Seq<u8>, nat>)
    -> bool {
    &&& sound(store, roots, marked, level)
    &&& closed_up_to(store, marked, level, Seq::empty())
    &&& rooted_up_to(roots, marked, Seq::empty())
}

/// An address that stands in one of some trees still does when a tree is added.
pub proof fn lemma_occurs_in_push(store: Chunks, roots: Roots, top: nat, root: Seq<u8>)
    ensures
        forall|h: nat, a: Seq<u8>| #[trigger]
            occurs_in(store, roots, h, a) ==> occurs_in(store, roots.push((top, root)), h, a),
        forall|h: nat, a: Seq<u8>| #[trigger]
            occurs(store, top, root, h, a) ==> occurs_in(store, roots.push((top, root)), h, a),
{
    let more = roots.push((top, root));
    assert forall|h: nat, a: Seq<u8>| #[trigger] occurs_in(store, roots, h, a) implies occurs_in(
        store,
        more,
        h,
        a,
    ) by {
        let k = choose|k: int|
            0 <= k < roots.len() && occurs(store, (#[trigger] roots[k]).0, roots[k].1, h, a);
        assert(more[k] == roots[k]);
    }
    assert forall|h: nat, a: Seq<u8>| #[trigger] occurs(store, top, root, h, a) implies occurs_in(
        store,
        more,
        h,
        a,
    ) by {
        assert(more[roots.len() as int] == (top, root));
    }
}

/// The addresses marked so far in one collection, with what the proof of
/// the collection records beside them.
pub struct Marked {
    set: AddressSet,
    level: Ghost<Map<Seq<u8>, nat>>,
    roots: Ghost<Roots>,
}

impl View for Marked {
    type V = Set<Seq<u8>>;

    closed spec fn view(&self) -> Set<Seq<u8>> {
        self.set@
    }
}

impl Marked {
    /// The height at which each marked address was met first.
    pub closed spec fn level(&self) -> Map<Seq<u8>, nat> {
        self.level@
    }

    /// The trees marked so far.
    pub closed spec fn roots(&self) -> Roots {
        self.roots@
    }

    /// The marked set is as `marking` asks for the trees marked so far.
    pub open spec fn wf(&self, store: Chunks) -> bool {
        marking(store, self.roots(), self@, self.level())
    }

    /// Nothing marked, no tree walked.
    pub fn new() -> (m: Marked)
        ensures
            m@ == Set::<Seq<u8>>::empty(),
            m.roots() == Seq::<(nat, Seq<u8>)>::empty(),
            forall|store: Chunks| m.wf(store),
    {
        Marked { set: AddressSet::new(), level: Ghost(Map::empty()), roots: Ghost(Seq::empty()) }
    }

    /// Whether `addr` is marked.
    pub fn contains(&self, addr: &Address) -> (r: bool)
        ensures
            r == self@.contains(addr@),
    {
        self.set.contains(addr)
    }

    /// Number of marked addresses, as far as a `usize` can tell.
    pub fn len(&self) -> (n: usize)
        ensures
            n == counted(self@.len()),
    {
        self.set.len()
    }

    /// Marks the tree of height `height` under `root`. A node that is
    /// already marked is not walked again. Any failure to fetch or decode a
    /// node ends the walk with that error.
    pub fn mark_tree<E: Engine>(&mut self, engine: &mut E, height: usize, root: &Address) -> (r:
        Result<(), HTreeError>)
        requires
            valid(old(engine)),
            old(self).wf(old(engine).chunks()),
        ensures
            valid(final(engine)),
            final(engine).chunks() == old(engine).chunks(),
            final(engine).durable() == old(engine).durable(),
            final(engine).stored_bytes() == old(engine).stored_bytes(),
            final(engine).dependable() == old(engine).dependable(),
            old(self)@.subset_of(final(self)@),
            r is Ok ==> final(self).wf(old(engine).chunks()) && final(self).roots()
                == old(self).roots().push((height as nat, root@)),
            height == 0 || old(self)@.contains(root@) ==> r is Ok,
            old(engine).dependable() && complete(old(engine).chunks(), height as nat, root@) ==> r
                is Ok,
            r matches Err(HTreeError::CorruptNode) ==> exists|h: nat, a: Seq<u8>|
                h > 0 && #[trigger] occurs(old(engine).chunks(), height as nat, root@, h, a)
                    && old(engine).chunks().contains_key(a) && !valid_node(
                    old(engine).chunks()[a],
                ),
            r matches Err(HTreeError::Storage(StorageError::NotFound)) ==> exists|
                h: nat,
                a: Seq<u8>,
            |
                h > 0 && #[trigger] occurs(old(engine).chunks(), height as nat, root@, h, a)
                    && !old(engine).chunks().contains_key(a),
    {
        let ghost store = engine.chunks();
        let ghost roots0 = self.roots@;
        let ghost roots1 = roots0.push((height as nat, root@));
        let ghost marked0 = self@;
        proof {
            lemma_occurs_in_push(store, roots0, height as nat, root@);
        }
        if self.set.contains(root) {
            self.roots = Ghost(roots1);
            proof {
                assert forall|k: int| 0 <= k < roots1.len() implies self@.contains(
                    (#[trigger] roots1[k]).1,
                ) by {
                    if k < roots0.len() {
                        assert(roots1[k] == roots0[k]);
                    }
                }
            }
            return Ok(());
        }
        let mut tr = TreeReader::new(height, root);
        proof {
            assert(tr@[0] == (height, root@));
            assert forall|k: int| 0 <= k < roots1.len() implies self@.contains(
                (#[trigger] roots1[k]).1,
            ) || pending(tr@, roots1[k].1) by {
                if k < roots0.len() {
                    assert(roots1[k] == roots0[k]);
                } else {
                    assert(tr@[0].1 == roots1[k].1);
                }
            }
        }
        while !tr.is_empty()
            invariant
                valid(engine),
                engine.chunks() == store,
                store == old(engine).chunks(),
                marked0 == old(self)@,
                !marked0.contains(root@),
                engine.durable() == old(engine).durable(),
                engine.stored_bytes() == old(engine).stored_bytes(),
                engine.dependable() == old(engine).dependable(),
                height == 0 ==> forall|j: int| 0 <= j < tr@.len() ==> (#[trigger] tr@[j]).0 == 0,
                store.dom().finite(),
                roots1 == roots0.push((height as nat, root@)),
                self.roots@ == roots0,
                marked0.subset_of(self@),
                sound(store, roots1, self@, self.level@),
                forall|j: int|
                    0 <= j < tr@.len() ==> occurs(
                        store,
                        height as nat,
                        root@,
                        (#[trigger] tr@[j]).0 as nat,
                        tr@[j].1,
                    ),
                closed_up_to(store, self@, self.level@, tr@),
                rooted_up_to(roots1, self@, tr@),
            decreases store.dom().difference(self@).len(), tr@.len(),
        {
            let ghost stack0 = tr@;
            let ghost set0 = self@;
            let ghost level0 = self.level@;
            let next = tr.next_addr();
            let (h, a) = next.unwrap();
            let ghost stack1 = tr@;
            proof {
                lemma_occurs_in_push(store, roots0, height as nat, root@);
                assert(stack0[stack0.len() - 1] == (h, a@));
                assert(occurs(store, height as nat, root@, h as nat, a@));
                assert forall|j: int| 0 <= j < stack1.len() implies occurs(
                    store,
                    height as nat,
                    root@,
                    (#[trigger] stack1[j]).0 as nat,
                    stack1[j].1,
                ) by {
                    assert(stack1[j] == stack0[j]);
                }
                assert forall|c: Seq<u8>| pending(stack0, c) implies c == a@ || pending(
                    stack1,
                    c,
                ) by {
                    let j = choose|j: int| 0 <= j < stack0.len() && (#[trigger] stack0[j]).1 == c;
                    if j < stack1.len() {
                        assert(stack1[j] == stack0[j]);
                    }
                }
            }
            if self.set.insert(a) {
                self.level = Ghost(level0.insert(a@, h as nat));
                proof {
                    assert(store.dom().difference(self@) =~= store.dom().difference(set0).remove(
                        a@,
                    ));
                }
                if h != 0 {
                    match tr.push_addr(engine, h - 1, &a) {
                        Ok(()) => {
                            let ghost stack2 = tr@;
                            let ghost data = store[a@];
                            proof {
                                assert(store.dom().difference(set0).contains(a@));
                                assert forall|c: Seq<u8>| pending(stack1, c) implies pending(
                                    stack2,
                                    c,
                                ) by {
                                    let j = choose|j: int|
                                        0 <= j < stack1.len() && (#[trigger] stack1[j]).1 == c;
                                    assert(stack2[j] == stack1[j]);
                                }
                                assert forall|i: int| 0 <= i < child_count(data) implies pending(
                                    stack2,
                                    #[trigger] child_at(data, i),
                                ) by {
                                    let j = stack1.len() + (child_count(data) - 1 - i);
                                    assert(stack2[j].1 == child_at(data, i));
                                }
                                assert forall|j: int| 0 <= j < stack2.len() implies occurs(
                                    store,
                                    height as nat,
                                    root@,
                                    (#[trigger] stack2[j]).0 as nat,
                                    stack2[j].1,
                                ) by {
                                    if j < stack1.len() {
                                        assert(stack2[j] == stack1[j]);
                                        assert(stack1[j] == stack0[j]);
                                    } else {
                                        let i = child_count(data) - 1 - (j - stack1.len());
                                        assert(stack2[j] == ((h - 1) as usize, child_at(data, i)));
                                        lemma_occurs_child(
                                            store,
                                            height as nat,
                                            root@,
                                            h as nat,
                                            a@,
                                            i,
                                        );
                                    }
                                }
                            }
                        },
                        Err(e) => {
                            return Err(e);
                        },
                    }
                }
            } else {
                proof {
                    assert(self@ =~= set0);
                }
            }
        }
        self.roots = Ghost(roots1);
        proof {
            assert(tr@ =~= Seq::empty());
        }
        Ok(())
    }
}

} // verus!

verus! {

/// The chunks that a sweep with the marked set `keep` leaves of `store`.
pub open spec fn swept(store: Chunks, keep: Set<Seq<u8>>) -> Chunks {
    store.restrict(keep)
}

/// Sweeps the store: every chunk whose address is not marked is deleted.
/// Whether or not the sweep gets to its end, no marked chunk is touched and
/// nothing is added; when it does, no unmarked chunk is left.
pub fn sweep<E: Engine>(engine: &mut E, marked: &Marked) -> (r: Result<GCStats, StorageError>)
    requires
        valid(old(engine)),
    ensures
        valid(final(engine)),
        final(engine).dependable() == old(engine).dependable(),
        old(engine).dependable() ==> r is Ok,
        swept(old(engine).chunks(), marked@).submap_of(final(engine).chunks()),
        final(engine).chunks().submap_of(old(engine).chunks()),
        r is Ok ==> final(engine).chunks() == swept(old(engine).chunks(), marked@),
        r matches Ok(stats) ==> {
            &&& stats.chunks_deleted == old(engine).chunks().dom().difference(marked@).len()
            &&& stats.bytes_remaining == total_bytes(swept(old(engine).chunks(), marked@))
            &&& stats.bytes_freed == total_bytes(old(engine).chunks()) - total_bytes(
                swept(old(engine).chunks(), marked@),
            )
        },
{
    let ghost before = engine.chunks();
    let keep = |addr: &Address| -> (r: bool)
        ensures
            r == marked@.contains(addr@),
        { marked.contains(addr) };
    let r = engine.gc(&keep);
    proof {
        let after = engine.chunks();
        assert forall|k: Seq<u8>| before.contains_key(k) && !after.contains_key(k) implies
            !marked@.contains(k) by {
            assert(judged(&keep, k, false));
        }
        assert(swept(before, marked@).submap_of(after));
        if r is Ok {
            assert forall|k: Seq<u8>| #[trigger] after.contains_key(k) implies marked@.contains(
                k,
            ) by {
                assert(judged(&keep, k, true));
            }
            assert(after =~= swept(before, marked@));
            assert(before.dom().difference(after.dom()) =~= before.dom().difference(marked@));
        }
    }
    r
}

/// Where no address stands at two heights, what a marked node lists is
/// marked and stands one level below the node.
proof fn lemma_marked_child(
    store: Chunks,
    roots: Roots,
    marked: Set<Seq<u8>>,
    level: Map<Seq<u8>, nat>,
    top: nat,
    root: Seq<u8>,
    i: int,
)
    requires
        marking(store, roots, marked, level),
        leveled(store, roots),
        marked.contains(root),
        occurs_in(store, roots, top, root),
        top > 0,
        store.contains_key(root),
        0 <= i < child_count(store[root]),
    ensures
        level[root] == top,
        valid_node(store[root]),
        marked.contains(child_at(store[root], i)),
        occurs_in(store, roots, (top - 1) as nat, child_at(store[root], i)),
{
    assert(level[root] == top);
    let c = child_at(store[root], i);
    assert(marked.contains(c) || pending(Seq::<(usize, Seq<u8>)>::empty(), c));
    let k = choose|k: int|
        0 <= k < roots.len() && occurs(store, (#[trigger] roots[k]).0, roots[k].1, top, root);
    lemma_occurs_child(store, roots[k].0, roots[k].1, top, root, i);
}

/// Where no address stands at two heights, each marked address is marked
/// at the height at which it stands, and all that stands below it is marked.
proof fn lemma_marked_below(
    store: Chunks,
    roots: Roots,
    marked: Set<Seq<u8>>,
    level: Map<Seq<u8>, nat>,
    top: nat,
    root: Seq<u8>,
    h: nat,
    a: Seq<u8>,
)
    requires
        marking(store, roots, marked, level),
        leveled(store, roots),
        marked.contains(root),
        occurs_in(store, roots, top, root),
        occurs(store, top, root, h, a),
    ensures
        marked.contains(a),
    decreases top,
{
    assert(level[root] == top);
    if !(top == h && root == a) {
        let i = choose|i: int|
            0 <= i < child_count(store[root]) && occurs(
                store,
                (top - 1) as nat,
                #[trigger] child_at(store[root], i),
                h,
                a,
            );
        let c = child_at(store[root], i);
        lemma_marked_child(store, roots, marked, level, top, root, i);
        lemma_marked_below(store, roots, marked, level, (top - 1) as nat, c, h, a);
    }
}

/// What the mark phase leaves marked is what the retained items need: where
/// no address stands at two heights, the marked addresses are exactly those
/// that stand in the tree of some item.
pub proof fn lemma_marked_is_live(
    store: Chunks,
    roots: Roots,
    marked: Set<Seq<u8>>,
    level: Map<Seq<u8>, nat>,
)
    requires
        marking(store, roots, marked, level),
        leveled(store, roots),
    ensures
        marked == live(store, roots),
{
    assert forall|a: Seq<u8>| live(store, roots).contains(a) implies marked.contains(a) by {
        let h = choose|h: nat| occurs_in(store, roots, h, a);
        let k = choose|k: int|
            0 <= k < roots.len() && occurs(store, (#[trigger] roots[k]).0, roots[k].1, h, a);
        assert(marked.contains(roots[k].1) || pending(
            Seq::<(usize, Seq<u8>)>::empty(),
            roots[k].1,
        ));
        assert(occurs(store, roots[k].0, roots[k].1, roots[k].0, roots[k].1));
        assert(occurs_in(store, roots, roots[k].0, roots[k].1));
        lemma_marked_below(store, roots, marked, level, roots[k].0, roots[k].1, h, a);
    }
    assert forall|a: Seq<u8>| marked.contains(a) implies live(store, roots).contains(a) by {
        assert(occurs_in(store, roots, level[a], a));
    }
    assert(marked =~= live(store, roots));
}

/// A collection keeps what is needed and nothing else: when the mark phase
/// ends well on trees in which no address stands at two heights, a sweep
/// that ends well leaves exactly the stored chunks that stand in the tree of
/// some item, each with its content.
pub proof fn lemma_collection_exact(
    store: Chunks,
    roots: Roots,
    marked: Set<Seq<u8>>,
    level: Map<Seq<u8>, nat>,
)
    requires
        marking(store, roots, marked, level),
        leveled(store, roots),
    ensures
        forall|a: Seq<u8>|
            live(store, roots).contains(a) && store.contains_key(a) ==> #[trigger] swept(
                store,
                marked,
            ).contains_key(a) && swept(store, marked)[a] == store[a],
        forall|a: Seq<u8>|
            !live(store, roots).contains(a) ==> !(#[trigger] swept(store, marked).contains_key(a)),
{
    lemma_marked_is_live(store, roots, marked, level);
}

} // verus!

verus! {

/// In a store that lost only unmarked chunks, whatever stood below a marked
/// address still stands there.
proof fn lemma_occurs_survives(
    store: Chunks,
    partial: Chunks,
    roots: Roots,
    marked: Set<Seq<u8>>,
    level: Map<Seq<u8>, nat>,
    top: nat,
    root: Seq<u8>,
    h: nat,
    a: Seq<u8>,
)
    requires
        marking(store, roots, marked, level),
        leveled(store, roots),
        swept(store, marked).submap_of(partial),
        marked.contains(root),
        occurs_in(store, roots, top, root),
        occurs(store, top, root, h, a),
    ensures
        occurs(partial, top, root, h, a),
    decreases top,
{
    assert(level[root] == top);
    if !(top == h && root == a) {
        let i = choose|i: int|
            0 <= i < child_count(store[root]) && occurs(
                store,
                (top - 1) as nat,
                #[trigger] child_at(store[root], i),
                h,
                a,
            );
        let c = child_at(store[root], i);
        lemma_marked_child(store, roots, marked, level, top, root, i);
        lemma_occurs_survives(store, partial, roots, marked, level, (top - 1) as nat, c, h, a);
        assert(swept(store, marked).dom().contains(root));
        assert(partial.dom().contains(root) ==> swept(store, marked)[root] == partial[root]);
        assert(partial.contains_key(root) && partial[root] == store[root]);
        assert(occurs(partial, (top - 1) as nat, child_at(partial[root], i), h, a));
    }
}

/// What stands in a tree of a smaller store stands in the same tree of the
/// larger one.
proof fn lemma_occurs_submap(
    partial: Chunks,
    store: Chunks,
    top: nat,
    root: Seq<u8>,
    h: nat,
    a: Seq<u8>,
)
    requires
        partial.submap_of(store),
        occurs(partial, top, root, h, a),
    ensures
        occurs(store, top, root, h, a),
    decreases top,
{
    if !(top == h && root == a) {
        let i = choose|i: int|
            0 <= i < child_count(partial[root]) && occurs(
                partial,
                (top - 1) as nat,
                #[trigger] child_at(partial[root], i),
                h,
                a,
            );
        assert(partial.dom().contains(root));
        assert(store.dom().contains(root) ==> store[root] == partial[root]);
        assert(store.contains_key(root) && store[root] == partial[root]);
        lemma_occurs_submap(partial, store, (top - 1) as nat, child_at(partial[root], i), h, a);
        assert(occurs(store, (top - 1) as nat, child_at(store[root], i), h, a));
    }
}

/// A collection that was cut short can be run again from the start. Let a
/// mark phase have ended well on `store`, and let `partial` be what an
/// unfinished sweep left: no marked chunk is gone, nothing was added. Then
/// the items need the same addresses in `partial` as they did in `store`,
/// and sweeping `partial` with them gives what the first sweep would have
/// given.
pub proof fn lemma_restart(
    store: Chunks,
    partial: Chunks,
    roots: Roots,
    marked: Set<Seq<u8>>,
    level: Map<Seq<u8>, nat>,
)
    requires
        marking(store, roots, marked, level),
        leveled(store, roots),
        swept(store, marked).submap_of(partial),
        partial.submap_of(store),
    ensures
        live(partial, roots) == live(store, roots),
        leveled(partial, roots),
        marking(partial, roots, marked, level),
        swept(partial, live(partial, roots)) == swept(store, live(store, roots)),
{
    lemma_marked_is_live(store, roots, marked, level);
    assert forall|h: nat, a: Seq<u8>| #[trigger]
        occurs_in(partial, roots, h, a) implies occurs_in(store, roots, h, a) by {
        let k = choose|k: int|
            0 <= k < roots.len() && occurs(partial, (#[trigger] roots[k]).0, roots[k].1, h, a);
        lemma_occurs_submap(partial, store, roots[k].0, roots[k].1, h, a);
    }
    assert forall|h: nat, a: Seq<u8>| #[trigger]
        occurs_in(store, roots, h, a) implies occurs_in(partial, roots, h, a) by {
        let k = choose|k: int|
            0 <= k < roots.len() && occurs(store, (#[trigger] roots[k]).0, roots[k].1, h, a);
        assert(marked.contains(roots[k].1) || pending(
            Seq::<(usize, Seq<u8>)>::empty(),
            roots[k].1,
        ));
        assert(occurs(store, roots[k].0, roots[k].1, roots[k].0, roots[k].1));
        assert(occurs_in(store, roots, roots[k].0, roots[k].1));
        lemma_occurs_survives(
            store,
            partial,
            roots,
            marked,
            level,
            roots[k].0,
            roots[k].1,
            h,
            a,
        );
    }
    assert forall|a: Seq<u8>| live(partial, roots).contains(a) == live(store, roots).contains(
        a,
    ) by {
        if live(partial, roots).contains(a) {
            let h = choose|h: nat| occurs_in(partial, roots, h, a);
            assert(occurs_in(store, roots, h, a));
        }
        if live(store, roots).contains(a) {
            let h = choose|h: nat| occurs_in(store, roots, h, a);
            assert(occurs_in(partial, roots, h, a));
        }
    }
    assert(live(partial, roots) =~= live(store, roots));
    assert(sound(partial, roots, marked, level)) by {
        assert forall|a: Seq<u8>| #[trigger] marked.contains(a) implies level.contains_key(a)
            && occurs_in(partial, roots, level[a], a) by {
            assert(occurs_in(store, roots, level[a], a));
        }
    }
    assert(closed_up_to(partial, marked, level, Seq::empty())) by {
        assert forall|a: Seq<u8>| #[trigger] marked.contains(a) && level[a] > 0 implies {
            &&& partial.contains_key(a)
            &&& valid_node(partial[a])
            &&& forall|i: int|
                0 <= i < child_count(partial[a]) ==> marked.contains(
                    #[trigger] child_at(partial[a], i),
                ) || pending(Seq::<(usize, Seq<u8>)>::empty(), child_at(partial[a], i))
        } by {
            assert(swept(store, marked).dom().contains(a));
            assert(partial.dom().contains(a) ==> swept(store, marked)[a] == partial[a]);
            assert(partial.contains_key(a) && partial[a] == store[a]);
        }
    }
    assert(swept(partial, marked) =~= swept(store, marked));
}

/// A collection that follows a finished one finds nothing to do. Let a
/// mark phase have ended well on `store` and the sweep have left `kept`.
/// Then the items need in `kept` just what was marked, a sweep of `kept`
/// leaves it as it is, deletes no chunk and frees no bytes.
pub proof fn lemma_second_run(
    store: Chunks,
    roots: Roots,
    marked: Set<Seq<u8>>,
    level: Map<Seq<u8>, nat>,
)
    requires
        marking(store, roots, marked, level),
        leveled(store, roots),
    ensures
        live(swept(store, marked), roots) == marked,
        swept(swept(store, marked), marked) == swept(store, marked),
        swept(store, marked).dom().difference(marked).len() == 0,
        total_bytes(swept(store, marked)) - total_bytes(swept(swept(store, marked), marked)) == 0,
{
    let kept = swept(store, marked);
    lemma_marked_is_live(store, roots, marked, level);
    lemma_restart(store, kept, roots, marked, level);
    assert(swept(kept, marked) =~= kept);
    assert(kept.dom().difference(marked) =~= Set::<Seq<u8>>::empty());
}

/// Putting twice under one address is putting once: the second put changes
/// nothing, and the content under the address stays that of the first.
pub proof fn lemma_put_twice(chunks: Chunks, addr: Seq<u8>, first: Seq<u8>, second: Seq<u8>)
    ensures
        put(put(chunks, addr, first), addr, second) == put(chunks, addr, first),
        put(chunks, addr, first).contains_key(addr),
        !chunks.contains_key(addr) ==> put(chunks, addr, first)[addr] == first,
        chunks.contains_key(addr) ==> put(chunks, addr, first)[addr] == chunks[addr],
{
}

} // verus!
