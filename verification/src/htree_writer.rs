//! Building a hash tree: addresses are gathered level by level, and each
//! level that fills up is written out as a node one level higher.

use crate::address::Address;
use crate::address::ADDRESS_SZ;
use crate::chunk_storage::put;
use crate::chunk_storage::valid;
use crate::chunk_storage::Chunks;
use crate::chunk_storage::Engine;
use crate::htree::child_at;
use crate::htree::child_count;
use crate::htree::children;
use crate::htree::complete;
use crate::htree::concat;
use crate::htree::encode_node;
use crate::htree::leaves;
use crate::htree::leaves_of;
use crate::htree::occurs;
use crate::htree::valid_node;
use crate::htree::HTreeError;
use vstd::prelude::*;

verus! {

/// The least capacity of a node, in bytes: a tree needs nodes of two
/// addresses to grow narrower towards its root.
pub const MINIMUM_ADDR_CHUNK_SIZE: usize = 2 * ADDRESS_SZ;

/// The addresses gathered at each level, level zero first.
pub type Levels = Seq<Seq<Seq<u8>>>;

/// The nodes written so far: the address and the content of each.
pub type Nodes = Seq<(Seq<u8>, Seq<u8>)>;

/// The store holds each written node under its address, unchanged.
pub open spec fn intact(store: Chunks, nodes: Nodes) -> bool {
    forall|i: int|
        0 <= i < nodes.len() ==> store.contains_key((#[trigger] nodes[i]).0) && store[nodes[i].0]
            == nodes[i].1
}

/// The data addresses that the gathered addresses stand for, first to
/// last: those of the highest level first.
pub open spec fn content(store: Chunks, levels: Levels) -> Seq<Seq<u8>>
    decreases levels.len(),
{
    if levels.len() == 0 {
        Seq::empty()
    } else {
        leaves_of(store, (levels.len() - 1) as nat, levels.last()) + content(
            store,
            levels.drop_last(),
        )
    }
}

/// Number of addresses gathered over all levels.
pub open spec fn count(levels: Levels) -> nat
    decreases levels.len(),
{
    if levels.len() == 0 {
        0
    } else {
        levels.last().len() + count(levels.drop_last())
    }
}

/// Nothing is gathered below level `l`.
pub open spec fn empty_below(levels: Levels, l: int) -> bool {
    forall|j: int| 0 <= j < l && j < levels.len() ==> (#[trigger] levels[j]).len() == 0
}

/// Every gathered address is well sized.
pub open spec fn well_sized(addrs: Seq<Seq<u8>>) -> bool {
    forall|i: int| 0 <= i < addrs.len() ==> (#[trigger] addrs[i]).len() == ADDRESS_SZ
}

/// Every tree under a gathered address is whole: its nodes above the
/// leaves are stored and well formed.
pub open spec fn all_complete(store: Chunks, levels: Levels) -> bool {
    forall|l: int, i: int|
        0 <= l < levels.len() && 0 <= i < levels[l].len() ==> complete(
            store,
            l as nat,
            #[trigger] levels[l][i],
        )
}

/// A tree is whole when its root is stored and well formed and the tree
/// under each address that the root lists is whole.
pub proof fn lemma_complete_node(store: Chunks, h: nat, a: Seq<u8>)
    requires
        h > 0,
        store.contains_key(a),
        valid_node(store[a]),
        forall|i: int|
            0 <= i < child_count(store[a]) ==> complete(
                store,
                (h - 1) as nat,
                #[trigger] child_at(store[a], i),
            ),
    ensures
        complete(store, h, a),
{
    assert forall|h2: nat, x: Seq<u8>| h2 > 0 && #[trigger] occurs(store, h, a, h2, x) implies
        store.contains_key(x) && valid_node(store[x]) by {
        if !(h == h2 && a == x) {
            let i = choose|i: int|
                0 <= i < child_count(store[a]) && occurs(
                    store,
                    (h - 1) as nat,
                    #[trigger] child_at(store[a], i),
                    h2,
                    x,
                );
            assert(complete(store, (h - 1) as nat, child_at(store[a], i)));
        }
    }
}

/// One more whole tree at a level leaves all trees whole.
pub proof fn lemma_all_complete_push(store: Chunks, levels: Levels, l: int, x: Seq<u8>)
    requires
        all_complete(store, levels),
        0 <= l < levels.len(),
        complete(store, l as nat, x),
    ensures
        all_complete(store, levels.update(l, levels[l].push(x))),
{
    let after = levels.update(l, levels[l].push(x));
    assert forall|m: int, i: int| 0 <= m < after.len() && 0 <= i < after[m].len() implies complete(
        store,
        m as nat,
        #[trigger] after[m][i],
    ) by {
        if m != l {
            assert(after[m][i] == levels[m][i]);
        } else if i < levels[l].len() {
            assert(after[m][i] == levels[l][i]);
        }
    }
}

/// A whole tree that opens a new level leaves all trees whole.
pub proof fn lemma_all_complete_new_top(store: Chunks, levels: Levels, x: Seq<u8>)
    requires
        all_complete(store, levels),
        complete(store, levels.len(), x),
    ensures
        all_complete(store, levels.push(seq![x])),
{
    let after = levels.push(seq![x]);
    assert forall|m: int, i: int| 0 <= m < after.len() && 0 <= i < after[m].len() implies complete(
        store,
        m as nat,
        #[trigger] after[m][i],
    ) by {
        if m < levels.len() {
            assert(after[m][i] == levels[m][i]);
        }
    }
}

/// Taking the trees of a level away leaves the others whole.
pub proof fn lemma_all_complete_clear(store: Chunks, levels: Levels, l: int)
    requires
        all_complete(store, levels),
        0 <= l < levels.len(),
    ensures
        all_complete(store, levels.update(l, Seq::empty())),
{
    let after = levels.update(l, Seq::empty());
    assert forall|m: int, i: int| 0 <= m < after.len() && 0 <= i < after[m].len() implies complete(
        store,
        m as nat,
        #[trigger] after[m][i],
    ) by {
        assert(after[m][i] == levels[m][i]);
    }
}

/// The node written for the trees of level `l` is the root of a whole tree
/// in every store that holds it unchanged.
pub proof fn lemma_written_node_complete(
    store: Chunks,
    levels: Levels,
    l: int,
    node: Seq<u8>,
)
    requires
        all_complete(store, levels),
        0 <= l < levels.len(),
        well_sized(levels[l]),
        store.contains_key(node),
        store[node] == concat(levels[l]),
    ensures
        complete(store, (l + 1) as nat, node),
{
    lemma_children_concat(levels[l]);
    assert forall|i: int| 0 <= i < child_count(store[node]) implies complete(
        store,
        l as nat,
        #[trigger] child_at(store[node], i),
    ) by {
        assert(children(store[node])[i] == levels[l][i]);
        assert(complete(store, l as nat, levels[l][i]));
    }
    lemma_complete_node(store, (l + 1) as nat, node);
}

/// The store after each of `nodes` was put into it, first to last. A node
/// whose address is taken leaves the store as it is.
pub open spec fn put_all(chunks: Chunks, nodes: Nodes) -> Chunks
    decreases nodes.len(),
{
    if nodes.len() == 0 {
        chunks
    } else {
        put(put_all(chunks, nodes.drop_last()), nodes.last().0, nodes.last().1)
    }
}

/// The hash `f` gave the address `addr` to the content `data`.
pub open spec fn named<H: Fn(&Vec<u8>) -> Address>(f: &H, data: Seq<u8>, addr: Seq<u8>) -> bool {
    exists|v: Vec<u8>, a: Address| v@ == data && a@ == addr && call_ensures(*f, (&v,), a)
}

/// Each of `nodes` from the `from`-th on was named by the hash `f`.
pub open spec fn all_named<H: Fn(&Vec<u8>) -> Address>(f: &H, nodes: Nodes, from: int) -> bool {
    forall|i: int| from <= i < nodes.len() ==> named(f, (#[trigger] nodes[i]).1, nodes[i].0)
}

/// Putting one more node is a put into what the others gave.
pub proof fn lemma_put_all_push(chunks: Chunks, nodes: Nodes, last: (Seq<u8>, Seq<u8>))
    ensures
        put_all(chunks, nodes.push(last)) == put(put_all(chunks, nodes), last.0, last.1),
{
    assert(nodes.push(last).drop_last() =~= nodes);
}

/// Putting two runs of nodes, one after the other, is putting them as one.
pub proof fn lemma_put_all_concat(chunks: Chunks, first: Nodes, second: Nodes)
    ensures
        put_all(put_all(chunks, first), second) == put_all(chunks, first + second),
    decreases second.len(),
{
    if second.len() == 0 {
        assert(first + second =~= first);
    } else {
        lemma_put_all_concat(chunks, first, second.drop_last());
        assert((first + second).drop_last() =~= first + second.drop_last());
        assert((first + second).last() == second.last());
    }
}

/// What was written in two stretches was written in one.
pub proof fn lemma_written_on<H: Fn(&Vec<u8>) -> Address>(
    f: &H,
    base: Chunks,
    middle: Chunks,
    end: Chunks,
    earlier: Nodes,
    later: Nodes,
    from: int,
)
    requires
        0 <= from <= earlier.len(),
        earlier.is_prefix_of(later),
        middle == put_all(base, earlier.skip(from)),
        end == put_all(middle, later.skip(earlier.len() as int)),
        all_named(f, earlier, from),
        all_named(f, later, earlier.len() as int),
    ensures
        end == put_all(base, later.skip(from)),
        all_named(f, later, from),
{
    lemma_put_all_concat(base, earlier.skip(from), later.skip(earlier.len() as int));
    assert(later.skip(from) =~= earlier.skip(from) + later.skip(earlier.len() as int));
    assert forall|i: int| from <= i < later.len() implies named(
        f,
        (#[trigger] later[i]).1,
        later[i].0,
    ) by {
        if i < earlier.len() {
            assert(later[i] == earlier[i]);
        }
    }
}

/// A store that holds a run of nodes unchanged holds each of them, and
/// the run without its last.
pub proof fn lemma_intact_prefix(store: Chunks, nodes: Nodes, last: (Seq<u8>, Seq<u8>))
    requires
        intact(store, nodes.push(last)),
    ensures
        intact(store, nodes),
        store.contains_key(last.0),
        store[last.0] == last.1,
{
    let more = nodes.push(last);
    assert(more[nodes.len() as int] == last);
    assert forall|i: int| 0 <= i < nodes.len() implies store.contains_key(
        (#[trigger] nodes[i]).0,
    ) && store[nodes[i].0] == nodes[i].1 by {
        assert(more[i] == nodes[i]);
    }
}

/// A store that grew twice grew.
pub proof fn lemma_submap_trans(a: Chunks, b: Chunks, c: Chunks)
    requires
        a.submap_of(b),
        b.submap_of(c),
    ensures
        a.submap_of(c),
{
    assert forall|k: Seq<u8>| #[trigger] a.dom().contains(k) implies c.dom().contains(k) && a[k]
        == c[k] by {
        assert(b.dom().contains(k));
        assert(a[k] == b[k]);
        assert(c.dom().contains(k));
        assert(b[k] == c[k]);
    }
}

/// The data addresses of a run of trees with one more tree at its end.
pub proof fn lemma_leaves_of_push(store: Chunks, h: nat, addrs: Seq<Seq<u8>>, x: Seq<u8>)
    ensures
        leaves_of(store, h, addrs.push(x)) == leaves_of(store, h, addrs) + leaves(store, h, x),
    decreases addrs.len(),
{
    let more = addrs.push(x);
    if addrs.len() == 0 {
        assert(more.drop_first() =~= Seq::empty());
        assert(leaves_of(store, h, more.drop_first()) =~= Seq::empty());
        assert(leaves_of(store, h, more) =~= leaves(store, h, x));
        assert(leaves_of(store, h, addrs) + leaves(store, h, x) =~= leaves(store, h, x));
    } else {
        assert(more.first() == addrs.first());
        assert(more.drop_first() =~= addrs.drop_first().push(x));
        lemma_leaves_of_push(store, h, addrs.drop_first(), x);
        assert(leaves(store, h, addrs.first()) + (leaves_of(store, h, addrs.drop_first())
            + leaves(store, h, x)) =~= (leaves(store, h, addrs.first()) + leaves_of(
            store,
            h,
            addrs.drop_first(),
        )) + leaves(store, h, x));
    }
}

/// A node that is written from a run of addresses lists just these.
pub proof fn lemma_children_concat(addrs: Seq<Seq<u8>>)
    requires
        well_sized(addrs),
    ensures
        concat(addrs).len() == ADDRESS_SZ * addrs.len(),
        valid_node(concat(addrs)),
        children(concat(addrs)) == addrs,
    decreases addrs.len(),
{
    if addrs.len() == 0 {
        assert(children(concat(addrs)) =~= addrs);
    } else {
        let init = addrs.drop_last();
        lemma_children_concat(init);
        let c = concat(addrs);
        assert(c == concat(init) + addrs.last());
        assert(c.len() == ADDRESS_SZ * addrs.len());
        assert(child_count(c) == addrs.len());
        assert forall|i: int| 0 <= i < addrs.len() implies #[trigger] children(c)[i]
            == addrs[i] by {
            if i < init.len() {
                assert(child_at(c, i) =~= child_at(concat(init), i));
                assert(children(concat(init))[i] == init[i]);
            } else {
                assert(child_at(c, i) =~= addrs.last());
            }
        }
        assert(children(c) =~= addrs);
    }
}

/// Levels at which nothing is gathered stand for nothing.
pub proof fn lemma_content_empty(store: Chunks, levels: Levels)
    requires
        empty_below(levels, levels.len() as int),
    ensures
        content(store, levels) == Seq::<Seq<u8>>::empty(),
        count(levels) == 0,
    decreases levels.len(),
{
    if levels.len() > 0 {
        assert(levels.last().len() == 0);
        assert forall|j: int| 0 <= j < levels.drop_last().len() implies (
        #[trigger] levels.drop_last()[j]).len() == 0 by {
            assert(levels.drop_last()[j] == levels[j]);
        }
        lemma_content_empty(store, levels.drop_last());
        assert(leaves_of(store, (levels.len() - 1) as nat, levels.last()) =~= Seq::empty());
    }
}

/// An address gathered at level `l`, above which all is kept and below
/// which nothing is gathered, comes last in what the levels stand for.
pub proof fn lemma_content_push_at(store: Chunks, levels: Levels, l: int, x: Seq<u8>)
    requires
        0 <= l < levels.len(),
        empty_below(levels, l),
    ensures
        content(store, levels.update(l, levels[l].push(x))) == content(store, levels) + leaves(
            store,
            l as nat,
            x,
        ),
        count(levels.update(l, levels[l].push(x))) == count(levels) + 1,
    decreases levels.len(),
{
    let after = levels.update(l, levels[l].push(x));
    let below = levels.drop_last();
    if l == levels.len() - 1 {
        assert(after.drop_last() =~= below);
        assert forall|j: int| 0 <= j < below.len() implies (#[trigger] below[j]).len() == 0 by {
            assert(below[j] == levels[j]);
        }
        lemma_content_empty(store, below);
        lemma_leaves_of_push(store, l as nat, levels[l], x);
        assert(content(store, after) =~= content(store, levels) + leaves(store, l as nat, x));
    } else {
        assert(after.drop_last() =~= below.update(l, below[l].push(x)));
        assert(after.last() == levels.last());
        assert forall|j: int| 0 <= j < l && j < below.len() implies (#[trigger] below[j]).len()
            == 0 by {
            assert(below[j] == levels[j]);
        }
        lemma_content_push_at(store, below, l, x);
        let top = leaves_of(store, (levels.len() - 1) as nat, levels.last());
        assert(top + (content(store, below) + leaves(store, l as nat, x)) =~= (top + content(
            store,
            below,
        )) + leaves(store, l as nat, x));
    }
}

/// An address that opens a new level, below which nothing is gathered,
/// is all that the levels stand for.
pub proof fn lemma_content_new_top(store: Chunks, levels: Levels, x: Seq<u8>)
    requires
        empty_below(levels, levels.len() as int),
    ensures
        content(store, levels.push(seq![x])) == content(store, levels) + leaves(
            store,
            levels.len(),
            x,
        ),
        count(levels.push(seq![x])) == count(levels) + 1,
{
    let after = levels.push(seq![x]);
    assert(after.drop_last() =~= levels);
    assert(after.last() == seq![x]);
    lemma_content_empty(store, levels);
    lemma_leaves_of_push(store, levels.len(), Seq::empty(), x);
    assert(Seq::<Seq<u8>>::empty().push(x) =~= seq![x]);
    assert(leaves_of(store, levels.len(), Seq::empty()) =~= Seq::empty());
    assert(content(store, after) =~= content(store, levels) + leaves(store, levels.len(), x));
}

/// Taking away what is gathered at level `l`, below which nothing is
/// gathered, takes away the end of what the levels stand for.
pub proof fn lemma_content_clear(store: Chunks, levels: Levels, l: int)
    requires
        0 <= l < levels.len(),
        empty_below(levels, l),
    ensures
        content(store, levels.update(l, Seq::empty())) + leaves_of(store, l as nat, levels[l])
            == content(store, levels),
        count(levels.update(l, Seq::empty())) + levels[l].len() == count(levels),
        empty_below(levels.update(l, Seq::empty()), l + 1),
    decreases levels.len(),
{
    let after = levels.update(l, Seq::empty());
    let below = levels.drop_last();
    assert forall|j: int| 0 <= j < l + 1 && j < after.len() implies (#[trigger] after[j]).len()
        == 0 by {
        if j < l {
            assert(after[j] == levels[j]);
        }
    }
    if l == levels.len() - 1 {
        assert(after.drop_last() =~= below);
        assert forall|j: int| 0 <= j < below.len() implies (#[trigger] below[j]).len() == 0 by {
            assert(below[j] == levels[j]);
        }
        lemma_content_empty(store, below);
        assert(leaves_of(store, l as nat, after.last()) =~= Seq::empty());
        assert(content(store, after) + leaves_of(store, l as nat, levels[l]) =~= content(
            store,
            levels,
        ));
    } else {
        assert(after.drop_last() =~= below.update(l, Seq::empty()));
        assert(after.last() == levels.last());
        assert forall|j: int| 0 <= j < l && j < below.len() implies (#[trigger] below[j]).len()
            == 0 by {
            assert(below[j] == levels[j]);
        }
        lemma_content_clear(store, below, l);
        let top = leaves_of(store, (levels.len() - 1) as nat, levels.last());
        assert((top + content(store, below.update(l, Seq::empty()))) + leaves_of(
            store,
            l as nat,
            levels[l],
        ) =~= top + (content(store, below.update(l, Seq::empty())) + leaves_of(
            store,
            l as nat,
            levels[l],
        )));
    }
}

} // verus!

verus! {

/// Gathers the addresses of data chunks and writes the nodes of the tree
/// above them as levels fill up. The hash that names a node is the
/// caller's to give.
pub struct TreeWriter {
    fanout: usize,
    tree_blocks: Vec<Vec<Address>>,
    added: Ghost<Seq<Seq<u8>>>,
    nodes: Ghost<Nodes>,
}

impl TreeWriter {
    /// The addresses gathered at each level and not yet written out.
    pub closed spec fn levels(&self) -> Levels {
        self.tree_blocks@.map_values(|b: Vec<Address>| b@.map_values(|a: Address| a@))
    }

    /// The data addresses added so far, first to last.
    pub closed spec fn added(&self) -> Seq<Seq<u8>> {
        self.added@
    }

    /// The nodes written so far, first to last.
    pub closed spec fn nodes(&self) -> Nodes {
        self.nodes@
    }

    /// Number of addresses at which a level is written out.
    pub closed spec fn fanout(&self) -> nat {
        self.fanout as nat
    }

    /// No level is full, and the highest level holds something.
    pub open spec fn shaped(&self) -> bool {
        &&& self.fanout() >= 2
        &&& forall|l: int|
            0 <= l < self.levels().len() ==> (#[trigger] self.levels()[l]).len() < self.fanout()
                && well_sized(self.levels()[l])
        &&& self.levels().len() > 0 ==> self.levels().last().len() > 0
    }

    /// In every store that holds the written nodes unchanged, what is
    /// gathered stands for the data addresses added.
    pub open spec fn wf(&self) -> bool {
        &&& self.shaped()
        &&& self.added().len() > 0 ==> self.levels().len() > 0
        &&& forall|store: Chunks|
            intact(store, self.nodes()) ==> #[trigger] content(store, self.levels())
                == self.added()
        &&& forall|store: Chunks|
            intact(store, self.nodes()) ==> #[trigger] all_complete(store, self.levels())
    }

    /// A writer of nodes of at most `max_addr_chunk_size` bytes. A size
    /// below `MINIMUM_ADDR_CHUNK_SIZE` is taken as that.
    pub fn new(max_addr_chunk_size: usize) -> (w: TreeWriter)
        ensures
            w.wf(),
            w.added() == Seq::<Seq<u8>>::empty(),
            w.nodes() == Seq::<(Seq<u8>, Seq<u8>)>::empty(),
            w.levels() == Seq::<Seq<Seq<u8>>>::empty(),
            w.fanout() == if max_addr_chunk_size < MINIMUM_ADDR_CHUNK_SIZE {
                2
            } else {
                max_addr_chunk_size as nat / ADDRESS_SZ as nat
            },
    {
        let fanout = if max_addr_chunk_size < MINIMUM_ADDR_CHUNK_SIZE {
            2
        } else {
            max_addr_chunk_size / ADDRESS_SZ
        };
        let w = TreeWriter {
            fanout,
            tree_blocks: Vec::new(),
            added: Ghost(Seq::empty()),
            nodes: Ghost(Seq::empty()),
        };
        assert(w.levels() =~= Seq::<Seq<Seq<u8>>>::empty());
        w
    }

    /// Places `addr0` at level `level0` and writes out every level that
    /// this fills, up to the first that it does not fill.
    fn push_up<E: Engine, H: Fn(&Vec<u8>) -> Address>(
        &mut self,
        engine: &mut E,
        hash: &H,
        level0: usize,
        addr0: Address,
        Ghost(total): Ghost<Seq<Seq<u8>>>,
    ) -> (r: Result<(), HTreeError>)
        requires
            valid(old(engine)),
            forall|v: Vec<u8>| call_requires(*hash, (&v,)),
            old(self).shaped() || (old(self).fanout() >= 2 && level0 == old(self).levels().len()
                && forall|l: int|
                0 <= l < old(self).levels().len() ==> (#[trigger] old(self).levels()[l]).len()
                    < old(self).fanout() && well_sized(old(self).levels()[l])),
            level0 <= old(self).levels().len(),
            empty_below(old(self).levels(), level0 as int),
            forall|store: Chunks|
                intact(store, old(self).nodes()) ==> #[trigger] content(
                    store,
                    old(self).levels(),
                ) + leaves(store, level0 as nat, addr0@) == total,
            forall|store: Chunks|
                intact(store, old(self).nodes()) ==> #[trigger] all_complete(
                    store,
                    old(self).levels(),
                ),
            forall|store: Chunks|
                intact(store, old(self).nodes()) ==> #[trigger] complete(
                    store,
                    level0 as nat,
                    addr0@,
                ),
        ensures
            valid(final(engine)),
            old(engine).chunks().submap_of(final(engine).chunks()),
            final(self).fanout() == old(self).fanout(),
            final(self).added() == old(self).added(),
            old(self).nodes().is_prefix_of(final(self).nodes()),
            r is Ok ==> {
                &&& final(self).shaped()
                &&& level0 < final(self).levels().len()
                &&& empty_below(final(self).levels(), level0 as int)
                &&& forall|store: Chunks|
                    intact(store, final(self).nodes()) ==> #[trigger] content(
                        store,
                        final(self).levels(),
                    ) == total
                &&& forall|store: Chunks|
                    intact(store, final(self).nodes()) ==> #[trigger] all_complete(
                        store,
                        final(self).levels(),
                    )
                &&& count(final(self).levels()) <= count(old(self).levels()) + 1
                &&& count(final(self).levels()) == count(old(self).levels()) + 1
                    ==> final(self).levels().len() == if level0 < old(self).levels().len() {
                    old(self).levels().len()
                } else {
                    old(self).levels().len() + 1
                }
            },
            r matches Err(e) ==> e is Storage,
            level0 == old(self).levels().len() || old(self).levels()[level0 as int].len() + 1
                < old(self).fanout() ==> r is Ok,
            level0 == old(self).levels().len() ==> final(self).levels()
                == old(self).levels().push(seq![addr0@]) && final(self).nodes()
                == old(self).nodes(),
            level0 < old(self).levels().len() && old(self).levels()[level0 as int].len() + 1
                < old(self).fanout() ==> final(self).levels() == old(self).levels().update(
                level0 as int,
                old(self).levels()[level0 as int].push(addr0@),
            ) && final(self).nodes() == old(self).nodes(),
            final(engine).chunks() == put_all(
                old(engine).chunks(),
                final(self).nodes().skip(old(self).nodes().len() as int),
            ),
            all_named(hash, final(self).nodes(), old(self).nodes().len() as int),
            final(engine).dependable() == old(engine).dependable(),
            old(engine).dependable() ==> (r matches Err(HTreeError::Storage(e)) ==> e is Full),
    {
        let mut level = level0;
        let mut addr = addr0;
        let ghost base = engine.chunks();
        let ghost n0 = self.nodes().len() as int;
        assert(self.nodes().skip(n0) =~= Seq::empty());
        loop
            invariant
                valid(engine),
                forall|v: Vec<u8>| call_requires(*hash, (&v,)),
                base == old(engine).chunks(),
                n0 == old(self).nodes().len(),
                n0 <= self.nodes().len(),
                engine.chunks() == put_all(base, self.nodes().skip(n0)),
                all_named(hash, self.nodes(), n0),
                engine.dependable() == old(engine).dependable(),
                base.submap_of(engine.chunks()),
                self.fanout() == old(self).fanout(),
                self.added() == old(self).added(),
                old(self).nodes().is_prefix_of(self.nodes()),
                self.fanout() >= 2,
                forall|l: int|
                    0 <= l < self.levels().len() ==> (#[trigger] self.levels()[l]).len()
                        < self.fanout() && well_sized(self.levels()[l]),
                level < self.levels().len() && self.levels().len() > 0
                    ==> self.levels().last().len() > 0 || level == self.levels().len() - 1,
                level0 <= level <= self.levels().len(),
                empty_below(self.levels(), level as int),
                forall|store: Chunks|
                    intact(store, self.nodes()) ==> #[trigger] content(store, self.levels())
                        + leaves(store, level as nat, addr@) == total,
                forall|store: Chunks|
                    intact(store, self.nodes()) ==> #[trigger] all_complete(store, self.levels()),
                forall|store: Chunks|
                    intact(store, self.nodes()) ==> #[trigger] complete(
                        store,
                        level as nat,
                        addr@,
                    ),
                level == level0 ==> self.levels() == old(self).levels() && self.nodes()
                    == old(self).nodes() && addr@ == addr0@,
                level > level0 ==> count(self.levels()) + 1 <= count(old(self).levels()),
                level > level0 ==> !(level0 == old(self).levels().len()
                    || old(self).levels()[level0 as int].len() + 1 < old(self).fanout()),
            decreases self.levels().len() - level,
        {
            let ghost levels0 = self.levels();
            let ghost nodes0 = self.nodes();
            proof {
                addr.lemma_len();
            }
            if level == self.tree_blocks.len() {
                let mut block: Vec<Address> = Vec::new();
                block.push(addr);
                self.tree_blocks.push(block);
                proof {
                    assert(self.levels() =~= levels0.push(seq![addr@])) by {
                        assert(self.levels().len() == levels0.len() + 1);
                        assert forall|l: int| 0 <= l < self.levels().len() implies
                            #[trigger] self.levels()[l] =~= levels0.push(seq![addr@])[l] by {}
                    }
                    assert forall|store: Chunks| intact(store, self.nodes()) implies
                        #[trigger] content(store, self.levels()) == total by {
                        lemma_content_new_top(store, levels0, addr@);
                        assert(content(store, levels0) + leaves(store, level as nat, addr@)
                            == total);
                    }
                    lemma_content_new_top(Map::empty(), levels0, addr@);
                    assert forall|store: Chunks| intact(store, self.nodes()) implies
                        #[trigger] all_complete(store, self.levels()) by {
                        assert(all_complete(store, levels0));
                        lemma_all_complete_new_top(store, levels0, addr@);
                    }
                    assert forall|l: int| 0 <= l < self.levels().len() implies (
                    #[trigger] self.levels()[l]).len() < self.fanout() && well_sized(
                        self.levels()[l],
                    ) by {
                        if l < levels0.len() {
                            assert(self.levels()[l] == levels0[l]);
                        }
                    }
                    assert forall|j: int| 0 <= j < level0 && j < self.levels().len() implies (
                    #[trigger] self.levels()[j]).len() == 0 by {
                        assert(self.levels()[j] == levels0[j]);
                    }
                }
                return Ok(());
            }
            self.tree_blocks[level].push(addr);
            let ghost levels1 = self.levels();
            proof {
                assert(levels1 =~= levels0.update(level as int, levels0[level as int].push(addr@)))
                    by {
                    assert(levels1.len() == levels0.len());
                    assert forall|l: int| 0 <= l < levels1.len() implies #[trigger] levels1[l]
                        =~= levels0.update(level as int, levels0[level as int].push(addr@))[l] by {
                        if l != level {
                            assert(levels1[l] == levels0[l]);
                        }
                    }
                }
                lemma_content_push_at(Map::empty(), levels0, level as int, addr@);
                assert(well_sized(levels1[level as int])) by {
                    assert forall|i: int| 0 <= i < levels1[level as int].len() implies (
                    #[trigger] levels1[level as int][i]).len() == ADDRESS_SZ by {
                        if i < levels0[level as int].len() {
                            assert(levels1[level as int][i] == levels0[level as int][i]);
                        }
                    }
                }
            }
            if self.tree_blocks[level].len() < self.fanout {
                proof {
                    assert forall|store: Chunks| intact(store, self.nodes()) implies
                        #[trigger] content(store, self.levels()) == total by {
                        lemma_content_push_at(store, levels0, level as int, addr@);
                        assert(content(store, levels0) + leaves(store, level as nat, addr@)
                            == total);
                    }
                    assert forall|store: Chunks| intact(store, self.nodes()) implies
                        #[trigger] all_complete(store, self.levels()) by {
                        assert(all_complete(store, levels0));
                        lemma_all_complete_push(store, levels0, level as int, addr@);
                    }
                    assert forall|l: int| 0 <= l < levels1.len() implies (#[trigger] levels1[l]).len()
                        < self.fanout() && well_sized(levels1[l]) by {
                        if l != level {
                            assert(levels1[l] == levels0[l]);
                        }
                    }
                    assert forall|j: int| 0 <= j < level0 && j < levels1.len() implies (
                    #[trigger] levels1[j]).len() == 0 by {
                        assert(levels1[j] == levels0[j]);
                    }
                    if levels1.len() - 1 != level {
                        assert(levels1.last() == levels0.last());
                    }
                }
                return Ok(());
            }
            let mut block: Vec<Address> = Vec::new();
            std::mem::swap(&mut block, &mut self.tree_blocks[level]);
            let ghost levels2 = self.levels();
            let data = encode_node(&block);
            let ghost written = data@;
            let node = hash(&data);
            let ghost held = engine.chunks();
            match engine.add_chunk(&node, data) {
                Ok(()) => {},
                Err(e) => {
                    return Err(HTreeError::Storage(e));
                },
            }
            self.nodes = Ghost(nodes0.push((node@, written)));
            proof {
                assert(held.submap_of(engine.chunks()));
                lemma_submap_trans(base, held, engine.chunks());
                lemma_put_all_push(base, nodes0.skip(n0), (node@, written));
                assert(self.nodes().skip(n0) =~= nodes0.skip(n0).push((node@, written)));
                assert(named(hash, written, node@));
                assert forall|i: int| n0 <= i < self.nodes().len() implies named(
                    hash,
                    (#[trigger] self.nodes()[i]).1,
                    self.nodes()[i].0,
                ) by {
                    if i < nodes0.len() {
                        assert(self.nodes()[i] == nodes0[i]);
                    }
                }
                let keys = levels1[level as int];
                assert(block@.map_values(|a: Address| a@) == keys);
                assert(levels2 =~= levels1.update(level as int, Seq::empty())) by {
                    assert(levels2.len() == levels1.len());
                    assert forall|l: int| 0 <= l < levels2.len() implies #[trigger] levels2[l]
                        =~= levels1.update(level as int, Seq::empty())[l] by {
                        if l != level {
                            assert(levels2[l] == levels1[l]);
                        }
                    }
                }
                assert(empty_below(levels1, level as int)) by {
                    assert forall|j: int| 0 <= j < level && j < levels1.len() implies (
                    #[trigger] levels1[j]).len() == 0 by {
                        assert(levels1[j] == levels0[j]);
                    }
                }
                lemma_children_concat(keys);
                lemma_content_clear(Map::empty(), levels1, level as int);
                assert forall|store: Chunks| intact(store, self.nodes()) implies
                    #[trigger] content(store, self.levels()) + leaves(
                    store,
                    (level + 1) as nat,
                    node@,
                ) == total by {
                    assert(self.nodes()[nodes0.len() as int] == (node@, written));
                    assert(store.contains_key(node@) && store[node@] == written);
                    assert(intact(store, nodes0)) by {
                        assert forall|i: int| 0 <= i < nodes0.len() implies store.contains_key(
                            (#[trigger] nodes0[i]).0,
                        ) && store[nodes0[i].0] == nodes0[i].1 by {
                            assert(self.nodes()[i] == nodes0[i]);
                        }
                    }
                    lemma_content_push_at(store, levels0, level as int, addr@);
                    lemma_content_clear(store, levels1, level as int);
                    assert(content(store, levels0) + leaves(store, level as nat, addr@) == total);
                    assert(leaves(store, (level + 1) as nat, node@) == leaves_of(
                        store,
                        level as nat,
                        keys,
                    ));
                }
                assert forall|store: Chunks| intact(store, self.nodes()) implies
                    #[trigger] all_complete(store, self.levels()) by {
                    lemma_intact_prefix(store, nodes0, (node@, written));
                    assert(all_complete(store, levels0));
                    assert(complete(store, level as nat, addr@));
                    lemma_all_complete_push(store, levels0, level as int, addr@);
                    lemma_all_complete_clear(store, levels1, level as int);
                }
                assert forall|l: int| 0 <= l < levels2.len() implies (#[trigger] levels2[l]).len()
                    < self.fanout() && well_sized(levels2[l]) by {
                    if l != level {
                        assert(levels2[l] == levels1[l]);
                        assert(levels1[l] == levels0[l]);
                    }
                }
                if level + 1 < levels2.len() {
                    assert(levels2.last() == levels1.last());
                    assert(levels1.last() == levels0.last());
                }
                assert(old(self).nodes().is_prefix_of(self.nodes())) by {
                    assert(nodes0.is_prefix_of(self.nodes()));
                }
                node.lemma_len();
            }
            let ghost below = addr@;
            addr = node;
            level = level + 1;
            proof {
                assert forall|store: Chunks| intact(store, self.nodes()) implies
                    #[trigger] complete(store, level as nat, addr@) by {
                    lemma_intact_prefix(store, nodes0, (node@, written));
                    assert(all_complete(store, levels0));
                    assert(complete(store, (level - 1) as nat, below));
                    lemma_all_complete_push(store, levels0, level - 1, below);
                    lemma_written_node_complete(store, levels1, level - 1, node@);
                }
            }
        }
    }

    /// Records the address of the next data chunk.
    pub fn add_addr<E: Engine, H: Fn(&Vec<u8>) -> Address>(
        &mut self,
        engine: &mut E,
        hash: &H,
        addr: &Address,
    ) -> (r: Result<(), HTreeError>)
        requires
            valid(old(engine)),
            forall|v: Vec<u8>| call_requires(*hash, (&v,)),
            old(self).wf(),
        ensures
            valid(final(engine)),
            old(engine).chunks().submap_of(final(engine).chunks()),
            final(self).fanout() == old(self).fanout(),
            old(self).nodes().is_prefix_of(final(self).nodes()),
            r is Ok ==> final(self).wf() && final(self).added() == old(self).added().push(addr@),
            r matches Err(e) ==> e is Storage,
            old(self).levels().len() == 0 || old(self).levels()[0].len() + 1 < old(self).fanout()
                ==> r is Ok,
            old(self).levels().len() == 0 ==> final(self).levels() == seq![seq![addr@]]
                && final(self).nodes() == old(self).nodes(),
            old(self).levels().len() > 0 && old(self).levels()[0].len() + 1 < old(self).fanout()
                ==> final(self).levels() == old(self).levels().update(
                0,
                old(self).levels()[0].push(addr@),
            ) && final(self).nodes() == old(self).nodes(),
            final(engine).chunks() == put_all(
                old(engine).chunks(),
                final(self).nodes().skip(old(self).nodes().len() as int),
            ),
            all_named(hash, final(self).nodes(), old(self).nodes().len() as int),
            final(engine).dependable() == old(engine).dependable(),
            old(engine).dependable() ==> (r matches Err(HTreeError::Storage(e)) ==> e is Full),
    {
        let ghost total = self.added@.push(addr@);
        proof {
            assert forall|store: Chunks| intact(store, self.nodes()) implies #[trigger] content(
                store,
                self.levels(),
            ) + leaves(store, 0, addr@) == total by {
                assert(content(store, self.levels()) == self.added());
                assert(self.added() + seq![addr@] =~= total);
            }
            assert forall|store: Chunks| intact(store, self.nodes()) implies #[trigger] complete(
                store,
                0,
                addr@,
            ) by {}
        }
        match self.push_up(engine, hash, 0, *addr, Ghost(total)) {
            Ok(()) => {
                self.added = Ghost(total);
                Ok(())
            },
            Err(e) => Err(e),
        }
    }

    /// Stores a data chunk under `addr` and records the address. The chunk
    /// is put first, then the nodes that the address fills up.
    pub fn add<E: Engine, H: Fn(&Vec<u8>) -> Address>(
        &mut self,
        engine: &mut E,
        hash: &H,
        addr: &Address,
        data: Vec<u8>,
    ) -> (r: Result<(), HTreeError>)
        requires
            valid(old(engine)),
            forall|v: Vec<u8>| call_requires(*hash, (&v,)),
            old(self).wf(),
        ensures
            valid(final(engine)),
            old(engine).chunks().submap_of(final(engine).chunks()),
            final(self).fanout() == old(self).fanout(),
            old(self).nodes().is_prefix_of(final(self).nodes()),
            r is Ok ==> final(self).wf() && final(self).added() == old(self).added().push(addr@)
                && final(engine).chunks().contains_key(addr@),
            r matches Err(e) ==> e is Storage,
            old(engine).chunks().contains_key(addr@) && (old(self).levels().len() == 0
                || old(self).levels()[0].len() + 1 < old(self).fanout()) ==> r is Ok,
            r is Ok ==> put(old(engine).chunks(), addr@, data@).submap_of(final(engine).chunks()),
            r is Ok && old(self).levels().len() == 0 ==> final(self).levels()
                == seq![seq![addr@]] && final(self).nodes() == old(self).nodes(),
            r is Ok && old(self).levels().len() > 0 && old(self).levels()[0].len() + 1
                < old(self).fanout() ==> final(self).levels() == old(self).levels().update(
                0,
                old(self).levels()[0].push(addr@),
            ) && final(self).nodes() == old(self).nodes(),
            r is Ok ==> final(engine).chunks() == put_all(
                put(old(engine).chunks(), addr@, data@),
                final(self).nodes().skip(old(self).nodes().len() as int),
            ),
            all_named(hash, final(self).nodes(), old(self).nodes().len() as int),
            final(engine).dependable() == old(engine).dependable(),
            old(engine).dependable() ==> (r matches Err(HTreeError::Storage(e)) ==> e is Full),
    {
        let ghost before = engine.chunks();
        match engine.add_chunk(addr, data) {
            Ok(()) => {},
            Err(e) => {
                proof {
                    assert(self.nodes().skip(self.nodes().len() as int) =~= Seq::empty());
                }
                return Err(HTreeError::Storage(e));
            },
        }
        let ghost mid = engine.chunks();
        let r = self.add_addr(engine, hash, addr);
        proof {
            assert(mid.dom().contains(addr@));
            assert(engine.chunks().dom().contains(addr@));
            lemma_submap_trans(before, mid, engine.chunks());
        }
        r
    }
}

} // verus!

verus! {

impl TreeWriter {
    /// Writes out what is still gathered, level by level, and returns the
    /// height and the root of the tree. In every store that holds the
    /// written nodes unchanged, the tree under that root lists the added
    /// data addresses, first to last. A single address is its own root, at
    /// height zero, and nothing is written for it; where nothing was added,
    /// the root is a node that lists nothing, at height one.
    pub fn finish<E: Engine, H: Fn(&Vec<u8>) -> Address>(&mut self, engine: &mut E, hash: &H) -> (r:
        Result<(usize, Address), HTreeError>)
        requires
            valid(old(engine)),
            forall|v: Vec<u8>| call_requires(*hash, (&v,)),
            old(self).wf(),
        ensures
            valid(final(engine)),
            old(engine).chunks().submap_of(final(engine).chunks()),
            final(self).fanout() == old(self).fanout(),
            final(self).added() == old(self).added(),
            old(self).nodes().is_prefix_of(final(self).nodes()),
            final(engine).chunks() == put_all(
                old(engine).chunks(),
                final(self).nodes().skip(old(self).nodes().len() as int),
            ),
            all_named(hash, final(self).nodes(), old(self).nodes().len() as int),
            final(engine).dependable() == old(engine).dependable(),
            old(engine).dependable() ==> (r matches Err(HTreeError::Storage(e)) ==> e is Full),
            old(self).levels().len() == 1 && old(self).levels()[0].len() == 1 ==> (r matches Ok(
                (height, root),
            ) && height == 0 && root@ == old(self).levels()[0][0] && final(self).nodes()
                == old(self).nodes()),
            r matches Ok((height, root)) ==> forall|store: Chunks|
                intact(store, final(self).nodes()) ==> #[trigger] leaves(
                    store,
                    height as nat,
                    root@,
                ) == old(self).added() && complete(store, height as nat, root@),
            r matches Err(e) ==> e is Storage,
    {
        let ghost total = self.added@;
        let ghost base = engine.chunks();
        let ghost n0 = self.nodes().len() as int;
        let ghost nodes_before = self.nodes();
        assert(self.nodes().skip(n0) =~= Seq::empty());
        if self.tree_blocks.len() == 0 {
            let nothing: Vec<Address> = Vec::new();
            let data = encode_node(&nothing);
            let ghost written = data@;
            let node = hash(&data);
            match engine.add_chunk(&node, data) {
                Ok(()) => {},
                Err(e) => {
                    return Err(HTreeError::Storage(e));
                },
            }
            self.nodes = Ghost(nodes_before.push((node@, written)));
            proof {
                lemma_put_all_push(base, nodes_before.skip(n0), (node@, written));
                assert(self.nodes().skip(n0) =~= nodes_before.skip(n0).push((node@, written)));
                assert(named(hash, written, node@));
                assert(nodes_before.is_prefix_of(self.nodes()));
                assert(nothing@.map_values(|a: Address| a@) =~= Seq::<Seq<u8>>::empty());
                assert(written =~= Seq::<u8>::empty());
                assert forall|store: Chunks| intact(store, self.nodes()) implies #[trigger] leaves(
                    store,
                    1,
                    node@,
                ) == total && complete(store, 1, node@) by {
                    lemma_intact_prefix(store, nodes_before, (node@, written));
                    assert(content(store, self.levels()) == total);
                    assert(children(store[node@]) =~= Seq::<Seq<u8>>::empty());
                    lemma_complete_node(store, 1, node@);
                }
            }
            return Ok((1, node));
        }
        let mut level: usize = 0;
        loop
            invariant
                valid(engine),
                forall|v: Vec<u8>| call_requires(*hash, (&v,)),
                base == old(engine).chunks(),
                n0 == old(self).nodes().len(),
                n0 <= self.nodes().len(),
                engine.chunks() == put_all(base, self.nodes().skip(n0)),
                all_named(hash, self.nodes(), n0),
                engine.dependable() == old(engine).dependable(),
                level == 0 ==> self.levels() == old(self).levels() && self.nodes() == old(self).nodes(),
                level > 0 ==> !(old(self).levels().len() == 1 && old(self).levels()[0].len()
                    == 1),
                base.submap_of(engine.chunks()),
                self.fanout() == old(self).fanout(),
                self.added() == old(self).added(),
                total == old(self).added(),
                old(self).nodes().is_prefix_of(self.nodes()),
                self.shaped(),
                level < self.levels().len(),
                empty_below(self.levels(), level as int),
                forall|store: Chunks|
                    intact(store, self.nodes()) ==> #[trigger] content(store, self.levels())
                        == total,
                forall|store: Chunks|
                    intact(store, self.nodes()) ==> #[trigger] all_complete(store, self.levels()),
            decreases count(self.levels()), self.levels().len() - level,
        {
            let ghost levels0 = self.levels();
            let ghost nodes0 = self.nodes();
            let ghost store0 = engine.chunks();
            let top = self.tree_blocks.len() - 1;
            let held = self.tree_blocks[level].len();
            if level == top && held == 1 {
                let root = self.tree_blocks[level][0];
                proof {
                    assert(levels0.last() =~= seq![root@]);
                    assert forall|store: Chunks| intact(store, self.nodes()) implies
                        #[trigger] leaves(store, level as nat, root@) == total && complete(
                        store,
                        level as nat,
                        root@,
                    ) by {
                        assert(all_complete(store, levels0));
                        assert(levels0[level as int][0] == root@);
                        assert(content(store, levels0) == total);
                        let below = levels0.drop_last();
                        assert forall|j: int| 0 <= j < below.len() implies (
                        #[trigger] below[j]).len() == 0 by {
                            assert(below[j] == levels0[j]);
                        }
                        lemma_content_empty(store, below);
                        lemma_leaves_of_push(store, level as nat, Seq::empty(), root@);
                        assert(Seq::<Seq<u8>>::empty().push(root@) =~= seq![root@]);
                        assert(leaves_of(store, level as nat, Seq::empty()) =~= Seq::<
                            Seq<u8>,
                        >::empty());
                        assert(content(store, levels0) =~= leaves(store, level as nat, root@));
                    }
                }
                return Ok((level, root));
            }
            if held > 0 {
                let mut block: Vec<Address> = Vec::new();
                std::mem::swap(&mut block, &mut self.tree_blocks[level]);
                let ghost levels1 = self.levels();
                let data = encode_node(&block);
                let ghost written = data@;
                let node = hash(&data);
                match engine.add_chunk(&node, data) {
                    Ok(()) => {},
                    Err(e) => {
                        return Err(HTreeError::Storage(e));
                    },
                }
                self.nodes = Ghost(nodes0.push((node@, written)));
                let ghost store1 = engine.chunks();
                let ghost nodes1 = self.nodes();
                assert(store0.submap_of(store1));
                let up = level + 1;
                proof {
                    lemma_put_all_push(base, nodes0.skip(n0), (node@, written));
                    assert(nodes1.skip(n0) =~= nodes0.skip(n0).push((node@, written)));
                    assert(named(hash, written, node@));
                    assert forall|i: int| n0 <= i < nodes1.len() implies named(
                        hash,
                        (#[trigger] nodes1[i]).1,
                        nodes1[i].0,
                    ) by {
                        if i < nodes0.len() {
                            assert(nodes1[i] == nodes0[i]);
                        }
                    }
                }
                proof {
                    let keys = levels0[level as int];
                    assert(block@.map_values(|a: Address| a@) == keys);
                    assert(levels1 =~= levels0.update(level as int, Seq::empty())) by {
                        assert(levels1.len() == levels0.len());
                        assert forall|l: int| 0 <= l < levels1.len() implies #[trigger] levels1[l]
                            =~= levels0.update(level as int, Seq::empty())[l] by {
                            if l != level {
                                assert(levels1[l] == levels0[l]);
                            }
                        }
                    }
                    lemma_children_concat(keys);
                    lemma_content_clear(Map::empty(), levels0, level as int);
                    assert forall|store: Chunks| intact(store, self.nodes()) implies
                        #[trigger] content(store, self.levels()) + leaves(
                        store,
                        (level + 1) as nat,
                        node@,
                    ) == total by {
                        assert(self.nodes()[nodes0.len() as int] == (node@, written));
                        assert(store.contains_key(node@) && store[node@] == written);
                        assert(intact(store, nodes0)) by {
                            assert forall|i: int|
                                0 <= i < nodes0.len() implies store.contains_key(
                                (#[trigger] nodes0[i]).0,
                            ) && store[nodes0[i].0] == nodes0[i].1 by {
                                assert(self.nodes()[i] == nodes0[i]);
                            }
                        }
                        lemma_content_clear(store, levels0, level as int);
                        assert(content(store, levels0) == total);
                        assert(leaves(store, (level + 1) as nat, node@) == leaves_of(
                            store,
                            level as nat,
                            keys,
                        ));
                    }
                    assert forall|store: Chunks| intact(store, self.nodes()) implies
                        #[trigger] all_complete(store, self.levels()) by {
                        lemma_intact_prefix(store, nodes0, (node@, written));
                        assert(all_complete(store, levels0));
                        lemma_all_complete_clear(store, levels0, level as int);
                    }
                    assert forall|store: Chunks| intact(store, self.nodes()) implies
                        #[trigger] complete(store, up as nat, node@) by {
                        lemma_intact_prefix(store, nodes0, (node@, written));
                        assert(all_complete(store, levels0));
                        lemma_written_node_complete(store, levels0, level as int, node@);
                    }
                    assert forall|l: int| 0 <= l < levels1.len() implies (
                    #[trigger] levels1[l]).len() < self.fanout() && well_sized(levels1[l]) by {
                        if l != level {
                            assert(levels1[l] == levels0[l]);
                        }
                    }
                    if level + 1 < levels1.len() {
                        assert(levels1.last() == levels0.last());
                    }
                    assert(nodes0.is_prefix_of(self.nodes()));
                }
                match self.push_up(engine, hash, up, node, Ghost(total)) {
                    Ok(()) => {},
                    Err(e) => {
                        proof {
                            lemma_submap_trans(base, store0, store1);
                            lemma_submap_trans(base, store1, engine.chunks());
                            lemma_written_on(
                                hash,
                                base,
                                store1,
                                engine.chunks(),
                                nodes1,
                                self.nodes(),
                                n0,
                            );
                        }
                        return Err(e);
                    },
                }
                proof {
                    lemma_submap_trans(base, store0, store1);
                    lemma_submap_trans(base, store1, engine.chunks());
                    lemma_written_on(hash, base, store1, engine.chunks(), nodes1, self.nodes(), n0);
                }
            }
            level = level + 1;
        }
    }
}

} // verus!
