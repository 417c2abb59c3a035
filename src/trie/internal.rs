//! The trie engine: an append-only arena of nodes addressed by index, with the root at 0.
use std::marker::PhantomData;

use vstd::prelude::*;

use crate::trie::charset::{key_of, CharSet};
use crate::trie::member::MemberType;

verus! {

/// One position in the trie: a child handle per slot, 0 where there is no child
/// (the root is never anyone's child), and the cell of the string that ends here.
struct Node<M> {
    child: Vec<usize>,
    member: M,
}

impl<M: MemberType> Node<M> {
    fn new(width: usize) -> (r: Self)
        ensures
            r.child@.len() == width,
            forall|c: int| 0 <= c < width ==> #[trigger] r.child@[c] == 0,
            r.member == M::spec_absent(),
    {
        Node { child: vec![0usize; width], member: M::absent() }
    }
}

/// A trie whose cells are of type `M`, laid out for the character set `C`: each node
/// has one slot per character of the set.
///
/// Its meaning is `lookup`: the cell of every key (sequence of slots), the absent cell
/// where no node stands for the key. The arena itself is seen through `num_nodes`,
/// `child`, `cell` and `walk`.
pub struct _Trie<M, C> {
    nodes: Vec<Node<M>>,
    charset: PhantomData<C>,
    /// The key of each node: the slots on the way from the root to it.
    paths: Ghost<Seq<Seq<nat>>>,
}

impl<M: MemberType, C: CharSet> _Trie<M, C> {
    /// The number of nodes in the arena.
    pub closed spec fn num_nodes(&self) -> nat {
        self.nodes@.len()
    }

    /// The handle in slot `c` of node `n`; 0 means no child.
    pub closed spec fn child(&self, n: int, c: int) -> usize {
        self.nodes@[n].child@[c]
    }

    /// The cell of node `n`.
    pub closed spec fn cell(&self, n: int) -> M {
        self.nodes@[n].member
    }

    /// Node `m` stands in some slot of some node.
    spec fn has_parent(&self, m: int) -> bool {
        exists|p: int, c: int|
            0 <= p < self.nodes@.len() && 0 <= c < C::SIZE && #[trigger] self.child(p, c) == m
    }

    /// The arena is well formed: a root, nodes of one slot per character, and children
    /// that stand after their parent and extend its key by their slot. It is a tree:
    /// no two nodes have one key, and every node but the root is some slot's child.
    pub closed spec fn wf(&self) -> bool {
        &&& self.nodes@.len() >= 1
        &&& self.paths@.len() == self.nodes@.len()
        &&& self.paths@[0] == Seq::<nat>::empty()
        &&& forall|n: int|
            0 <= n < self.nodes@.len() ==> #[trigger] self.nodes@[n].child@.len() == C::SIZE
        &&& forall|n: int, c: int|
            0 <= n < self.nodes@.len() && 0 <= c < C::SIZE && #[trigger] self.child(n, c) != 0
                ==> {
                let ch = self.child(n, c) as int;
                &&& n < ch < self.nodes@.len()
                &&& self.paths@[ch] == self.paths@[n].push(c as nat)
            }
        &&& forall|a: int, b: int|
            #![trigger self.paths@[a], self.paths@[b]]
            0 <= a < self.nodes@.len() && 0 <= b < self.nodes@.len() && a != b ==> self.paths@[a]
                != self.paths@[b]
        &&& forall|m: int| 0 < m < self.nodes@.len() ==> #[trigger] self.has_parent(m)
    }

    /// The node reached from node `n` through slot `c`, if there is one.
    spec fn step(&self, n: int, c: nat) -> Option<int> {
        if 0 <= n < self.nodes@.len() && c < C::SIZE && self.child(n, c as int) != 0 {
            Some(self.child(n, c as int) as int)
        } else {
            None
        }
    }

    /// The node that stands for `key`, if there is one.
    pub closed spec fn walk(&self, key: Seq<nat>) -> Option<int>
        decreases key.len(),
    {
        if key.len() == 0 {
            Some(0)
        } else {
            match self.walk(key.drop_last()) {
                Some(p) => self.step(p, key.last()),
                None => None,
            }
        }
    }

    /// The cell recorded for `key`.
    pub closed spec fn lookup(&self, key: Seq<nat>) -> M {
        match self.walk(key) {
            Some(n) => self.nodes@[n].member,
            None => M::spec_absent(),
        }
    }

    proof fn lemma_walk_path(&self, key: Seq<nat>)
        requires
            self.wf(),
            self.walk(key) is Some,
        ensures
            0 <= self.walk(key)->0 < self.nodes@.len(),
            self.paths@[self.walk(key)->0] == key,
        decreases key.len(),
    {
        if key.len() > 0 {
            self.lemma_walk_path(key.drop_last());
            let p = self.walk(key.drop_last())->0;
            assert(self.child(p, key.last() as int) != 0);
            assert(key.drop_last().push(key.last()) =~= key);
        }
    }

    /// Walking only reads the children: two arenas with the same children walk alike.
    proof fn lemma_same_shape(t1: &Self, t2: &Self, key: Seq<nat>)
        requires
            t1.nodes@.len() == t2.nodes@.len(),
            forall|n: int| 0 <= n < t1.nodes@.len() ==> #[trigger] t1.nodes@[n].child@ == t2.nodes@[n].child@,
        ensures
            t1.walk(key) == t2.walk(key),
        decreases key.len(),
    {
        if key.len() > 0 {
            Self::lemma_same_shape(t1, t2, key.drop_last());
        }
    }

    /// `t2` is `t1` with a fresh node appended and linked under slot `c` of node `p`,
    /// where there was no child.
    spec fn grown(t1: &Self, t2: &Self, p: int, c: int) -> bool {
        let len1 = t1.nodes@.len() as int;
        &&& 0 <= p < len1
        &&& 0 <= c < C::SIZE
        &&& t1.child(p, c) == 0
        &&& t2.nodes@.len() == len1 + 1
        &&& t2.paths@ == t1.paths@.push(t1.paths@[p].push(c as nat))
        &&& forall|n: int| 0 <= n < len1 && n != p ==> #[trigger] t2.nodes@[n] == t1.nodes@[n]
        &&& t2.nodes@[p].child@ == t1.nodes@[p].child@.update(c, t1.nodes.len())
        &&& t2.nodes@[p].member == t1.nodes@[p].member
        &&& t2.nodes@[len1].child@.len() == C::SIZE
        &&& forall|d: int| 0 <= d < C::SIZE ==> #[trigger] t2.nodes@[len1].child@[d] == 0
        &&& t2.nodes@[len1].member == M::spec_absent()
    }

    /// Linking a fresh node under slot `c` of node `p` keeps every node that a key reached,
    /// and makes the new node reachable by the one key that extends `p`'s by `c`.
    proof fn lemma_grow(t1: &Self, t2: &Self, p: int, c: int, key: Seq<nat>)
        requires
            t1.wf(),
            Self::grown(t1, t2, p, c),
        ensures
            t1.walk(key) is Some ==> t2.walk(key) == t1.walk(key),
            t1.walk(key) is None ==> t2.walk(key) is None || (t2.walk(key) == Some(t1.nodes@.len() as int)
                && key == t1.paths@[p].push(c as nat)),
        decreases key.len(),
    {
        if key.len() > 0 {
            let k = key.drop_last();
            Self::lemma_grow(t1, t2, p, c, k);
            assert(k.push(key.last()) =~= key);
            let len1 = t1.nodes@.len() as int;
            match t1.walk(k) {
                Some(q) => {
                    t1.lemma_walk_path(k);
                    if q == p {
                        if key.last() == c as nat {
                            assert(t2.child(q, c) == len1);
                        } else if key.last() < C::SIZE {
                            assert(t2.child(q, key.last() as int) == t1.child(q, key.last() as int));
                        }
                    } else {
                        assert(t2.nodes@[q] == t1.nodes@[q]);
                    }
                },
                None => {
                    if t2.walk(k) is Some {
                        if key.last() < C::SIZE {
                            assert(t2.child(len1, key.last() as int) == 0);
                        }
                    }
                },
            }
        }
    }

    /// Linking a fresh node under slot `c` of node `p` keeps the arena well formed.
    proof fn lemma_grow_wf(t1: &Self, t2: &Self, p: int, c: int)
        requires
            t1.wf(),
            Self::grown(t1, t2, p, c),
        ensures
            t2.wf(),
    {
        let len1 = t1.nodes@.len() as int;
        assert forall|n: int| 0 <= n < t2.nodes@.len() implies #[trigger] t2.nodes@[n].child@.len() == C::SIZE by {
            if n < len1 {
                assert(t1.nodes@[n].child@.len() == C::SIZE);
            }
        }
        assert forall|n: int, d: int|
            0 <= n < t2.nodes@.len() && 0 <= d < C::SIZE && #[trigger] t2.child(n, d) != 0
                implies n < t2.child(n, d) < t2.nodes@.len() && t2.paths@[t2.child(n, d) as int]
                == t2.paths@[n].push(d as nat) by {
            assert(t2.paths@[n] == t1.paths@[n] || n == len1);
            if n == len1 {
                assert(t2.child(n, d) == 0);
            } else if n == p && d == c {
                assert(t2.paths@[len1] == t1.paths@[p].push(c as nat));
            } else {
                assert(t2.child(n, d) == t1.child(n, d));
                assert(t2.paths@[t1.child(n, d) as int] == t1.paths@[t1.child(n, d) as int]);
            }
        }
        assert forall|a: int, b: int|
            #![trigger t2.paths@[a], t2.paths@[b]]
            0 <= a < t2.nodes@.len() && 0 <= b < t2.nodes@.len() && a != b implies t2.paths@[a]
                != t2.paths@[b] by {
            if a == len1 {
                Self::lemma_fresh_key_is_new(t1, p, c, b);
            } else if b == len1 {
                Self::lemma_fresh_key_is_new(t1, p, c, a);
            } else {
                assert(t1.paths@[a] != t1.paths@[b]);
            }
        }
        assert forall|m: int| 0 < m < t2.nodes@.len() implies #[trigger] t2.has_parent(m) by {
            if m == len1 {
                assert(t2.child(p, c) == m);
            } else {
                assert(t1.has_parent(m));
                let (q, d) = choose|q: int, d: int|
                    0 <= q < t1.nodes@.len() && 0 <= d < C::SIZE && #[trigger] t1.child(q, d) == m;
                assert(t2.child(q, d) == m);
            }
        }
    }

    /// The key of an empty slot's would-be child belongs to no node yet.
    proof fn lemma_fresh_key_is_new(t1: &Self, p: int, c: int, b: int)
        requires
            t1.wf(),
            0 <= p < t1.nodes@.len(),
            0 <= c < C::SIZE,
            t1.child(p, c) == 0,
            0 <= b < t1.nodes@.len(),
        ensures
            t1.paths@[b] != t1.paths@[p].push(c as nat),
    {
        let k = t1.paths@[p].push(c as nat);
        if t1.paths@[b] == k {
            assert(b != 0) by {
                assert(k.len() > 0);
            }
            assert(t1.has_parent(b));
            let (q, d) = choose|q: int, d: int|
                0 <= q < t1.nodes@.len() && 0 <= d < C::SIZE && #[trigger] t1.child(q, d) == b;
            assert(t1.paths@[q].push(d as nat) == k);
            assert(t1.paths@[q] == k.drop_last());
            assert(t1.paths@[p] =~= k.drop_last());
            assert(t1.paths@[q] == t1.paths@[p]);
            assert(d as nat == k.last());
            assert(q == p);
        }
    }

    /// Two arenas with the same nodes' children and keys are well formed alike.
    proof fn lemma_same_links_wf(t1: &Self, t2: &Self)
        requires
            t1.wf(),
            t2.nodes@.len() == t1.nodes@.len(),
            t2.paths@ == t1.paths@,
            forall|n: int| 0 <= n < t1.nodes@.len() ==> #[trigger] t2.nodes@[n].child@ == t1.nodes@[n].child@,
        ensures
            t2.wf(),
    {
        assert forall|n: int| 0 <= n < t2.nodes@.len() implies #[trigger] t2.nodes@[n].child@.len() == C::SIZE by {
            assert(t2.nodes@[n].child@ == t1.nodes@[n].child@);
        }
        assert forall|n: int, d: int| 0 <= n < t2.nodes@.len() && 0 <= d < C::SIZE implies
            #[trigger] t2.child(n, d) == t1.child(n, d) by {
            assert(t2.nodes@[n].child@ == t1.nodes@[n].child@);
        }
        assert forall|m: int| 0 < m < t2.nodes@.len() implies #[trigger] t2.has_parent(m) by {
            assert(t1.has_parent(m));
            let (q, d) = choose|q: int, d: int|
                0 <= q < t1.nodes@.len() && 0 <= d < C::SIZE && #[trigger] t1.child(q, d) == m;
            assert(t2.child(q, d) == m);
        }
    }

    /// A key whose prefix leads nowhere leads nowhere.
    proof fn lemma_walk_prefix_none(&self, key: Seq<nat>, j: int)
        requires
            0 <= j <= key.len(),
            self.walk(key.take(j)) is None,
        ensures
            self.walk(key) is None,
        decreases key.len(),
    {
        if j == key.len() {
            assert(key.take(j) =~= key);
        } else {
            assert(key.drop_last().take(j) =~= key.take(j));
            self.lemma_walk_prefix_none(key.drop_last(), j);
        }
    }

    /// The empty key stands for the root, which every well-formed arena has.
    pub proof fn lemma_root(&self)
        requires
            self.wf(),
        ensures
            self.num_nodes() >= 1,
            self.walk(Seq::<nat>::empty()) == Some(0int),
            forall|k: Seq<nat>| #[trigger] self.walk(k) == Some(0int) ==> k == Seq::<nat>::empty(),
    {
        assert forall|k: Seq<nat>| #[trigger] self.walk(k) == Some(0int) implies k
            == Seq::<nat>::empty() by {
            self.lemma_walk_path(k);
        }
    }

    /// Creates a trie that holds only the root.
    pub fn new() -> (r: Self)
        ensures
            r.wf(),
            r.num_nodes() == 1,
            forall|c: int| 0 <= c < C::SIZE ==> #[trigger] r.child(0, c) == 0,
            r.cell(0) == M::spec_absent(),
            forall|k: Seq<nat>| #[trigger] r.lookup(k) == M::spec_absent(),
    {
        let mut nodes: Vec<Node<M>> = Vec::new();
        nodes.push(Node::new(C::SIZE));
        let ghost paths = seq![Seq::<nat>::empty()];
        let r = _Trie { nodes, charset: PhantomData, paths: Ghost(paths) };
        assert forall|k: Seq<nat>| #[trigger] r.lookup(k) == M::spec_absent() by {
            if r.walk(k) is Some {
                r.lemma_walk_path(k);
            }
        }
        r
    }

    /// Adds `s`: creates the nodes its key lacks, then records one more occurrence in the
    /// cell of its key. Returns `true` iff that cell was absent, i.e. `s`'s key was not
    /// recorded before. Nodes are only appended, at most one per character, and links
    /// once set never change; where the key's path already exists nothing is appended
    /// and only the cell at its end changes.
    pub fn add(&mut self, s: &str) -> (r: bool)
        requires
            old(self).wf(),
        ensures
            final(self).wf(),
            r == (old(self).lookup(key_of::<C>(s@)) == M::spec_absent()),
            final(self).lookup(key_of::<C>(s@)) == old(self).lookup(key_of::<C>(s@)).bumped(),
            forall|k: Seq<nat>|
                k != key_of::<C>(s@) ==> #[trigger] final(self).lookup(k) == old(self).lookup(k),
            old(self).num_nodes() <= final(self).num_nodes() <= old(self).num_nodes() + s@.len(),
            forall|n: int, c: int|
                0 <= n < old(self).num_nodes() && 0 <= c < C::SIZE && old(self).child(n, c) != 0
                    ==> #[trigger] final(self).child(n, c) == old(self).child(n, c),
            old(self).walk(key_of::<C>(s@)) is Some ==> {
                &&& final(self).num_nodes() == old(self).num_nodes()
                &&& final(self).walk(key_of::<C>(s@)) == old(self).walk(key_of::<C>(s@))
                &&& forall|n: int, c: int|
                    0 <= n < old(self).num_nodes() && 0 <= c < C::SIZE
                        ==> #[trigger] final(self).child(n, c) == old(self).child(n, c)
            },
            final(self).walk(key_of::<C>(s@)) is Some,
            final(self).cell(final(self).walk(key_of::<C>(s@))->0) == old(self).lookup(
                key_of::<C>(s@),
            ).bumped(),
            forall|n: int|
                0 <= n < final(self).num_nodes() && final(self).walk(key_of::<C>(s@)) != Some(n)
                    ==> #[trigger] final(self).cell(n) == if n < old(self).num_nodes() {
                    old(self).cell(n)
                } else {
                    M::spec_absent()
                },
    {
        let ghost key = key_of::<C>(s@);
        let ghost pre = *self;
        let mut idx: usize = 0;
        for ch in it: s.chars()
            invariant
                self.wf(),
                it.seq() == s@,
                key == key_of::<C>(s@),
                0 <= it.index() <= s@.len(),
                self.walk(key.take(it.index() as int)) == Some(idx as int),
                forall|k: Seq<nat>| #[trigger] self.lookup(k) == pre.lookup(k),
                pre.wf(),
                pre.nodes@.len() <= self.nodes@.len() <= pre.nodes@.len() + it.index(),
                forall|n: int, c: int|
                    0 <= n < pre.nodes@.len() && 0 <= c < C::SIZE && pre.child(n, c) != 0
                        ==> #[trigger] self.child(n, c) == pre.child(n, c),
                forall|n: int|
                    0 <= n < self.nodes@.len() ==> #[trigger] self.cell(n) == if n
                        < pre.nodes@.len() {
                        pre.cell(n)
                    } else {
                        M::spec_absent()
                    },
                pre.walk(key) is Some ==> self.nodes@ == pre.nodes@,
        {
            let ghost i = it.index() as int;
            let cidx = C::map(ch);
            assert(key.take(i + 1).drop_last() =~= key.take(i));
            proof { self.lemma_walk_path(key.take(i)); }
            if self.nodes[idx].child[cidx] == 0 {
                let ghost t1 = *self;
                proof {
                    if pre.walk(key) is Some {
                        Self::lemma_same_shape(&t1, &pre, key.take(i + 1));
                        pre.lemma_walk_prefix_none(key, i + 1);
                    }
                }
                let fresh = self.nodes.len();
                self.nodes[idx].child[cidx] = fresh;
                self.nodes.push(Node::new(C::SIZE));
                self.paths = Ghost(self.paths@.push(self.paths@[idx as int].push(cidx as nat)));
                proof {
                    Self::lemma_grow_wf(&t1, self, idx as int, cidx as int);
                    assert forall|k: Seq<nat>| #[trigger] self.lookup(k) == pre.lookup(k) by {
                        Self::lemma_grow(&t1, self, idx as int, cidx as int, k);
                        assert(t1.lookup(k) == pre.lookup(k));
                    }
                    Self::lemma_grow(&t1, self, idx as int, cidx as int, key.take(i));
                    assert forall|n: int, c: int|
                        0 <= n < pre.nodes@.len() && 0 <= c < C::SIZE && pre.child(n, c) != 0
                            implies #[trigger] self.child(n, c) == pre.child(n, c) by {
                        assert(t1.child(n, c) == pre.child(n, c));
                        if n != idx {
                            assert(self.nodes@[n] == t1.nodes@[n]);
                        }
                    }
                    assert forall|n: int| 0 <= n < self.nodes@.len() implies #[trigger] self.cell(n)
                        == if n < pre.nodes@.len() {
                        pre.cell(n)
                    } else {
                        M::spec_absent()
                    } by {
                        if n < t1.nodes@.len() {
                            assert(t1.cell(n) == if n < pre.nodes@.len() {
                                pre.cell(n)
                            } else {
                                M::spec_absent()
                            });
                            if n != idx {
                                assert(self.nodes@[n] == t1.nodes@[n]);
                            }
                        }
                    }
                }
            }
            idx = self.nodes[idx].child[cidx];
        }
        assert(key.take(s@.len() as int) =~= key);
        proof { self.lemma_walk_path(key); }
        let ghost t2 = *self;
        let prior = self.nodes[idx].member.add();
        proof {
            assert(t2.lookup(key) == t2.nodes@[idx as int].member);
            Self::lemma_same_links_wf(&t2, self);
            assert forall|k: Seq<nat>| k != key implies #[trigger] self.lookup(k) == t2.lookup(k) by {
                Self::lemma_same_shape(&t2, self, k);
                if t2.walk(k) is Some {
                    t2.lemma_walk_path(k);
                }
            }
            Self::lemma_same_shape(&t2, self, key);
            M::lemma_bumped_present(prior);
            assert forall|n: int, c: int| 0 <= n < self.nodes@.len() && 0 <= c < C::SIZE implies
                #[trigger] self.child(n, c) == t2.child(n, c) by {
                assert(self.nodes@[n].child@ == t2.nodes@[n].child@);
            }
            assert forall|n: int| 0 <= n < self.nodes@.len() && n != idx implies
                #[trigger] self.cell(n) == t2.cell(n) by {
                assert(self.nodes@[n] == t2.nodes@[n]);
            }
            if pre.walk(key) is Some {
                Self::lemma_same_shape(&t2, &pre, key);
            }
        }
        !prior.is_member()
    }

    /// Whether the cell of `s`'s key records an occurrence. Creates nothing.
    pub fn contains(&self, s: &str) -> (r: bool)
        requires
            self.wf(),
        ensures
            r == (self.lookup(key_of::<C>(s@)) != M::spec_absent()),
    {
        let ghost key = key_of::<C>(s@);
        let mut idx: usize = 0;
        for ch in it: s.chars()
            invariant
                self.wf(),
                it.seq() == s@,
                key == key_of::<C>(s@),
                0 <= it.index() <= s@.len(),
                self.walk(key.take(it.index() as int)) == Some(idx as int),
        {
            let ghost i = it.index() as int;
            let cidx = C::map(ch);
            assert(key.take(i + 1).drop_last() =~= key.take(i));
            proof { self.lemma_walk_path(key.take(i)); }
            if self.nodes[idx].child[cidx] == 0 {
                proof { self.lemma_walk_prefix_none(key, i + 1); }
                return false;
            }
            idx = self.nodes[idx].child[cidx];
        }
        assert(key.take(s@.len() as int) =~= key);
        proof { self.lemma_walk_path(key); }
        self.nodes[idx].member.is_member()
    }
}

impl<C: CharSet> _Trie<u32, C> {
    /// The number of times `s`'s key was added. Creates nothing.
    pub fn count(&self, s: &str) -> (r: u32)
        requires
            self.wf(),
        ensures
            r == self.lookup(key_of::<C>(s@)),
    {
        let ghost key = key_of::<C>(s@);
        let mut idx: usize = 0;
        for ch in it: s.chars()
            invariant
                self.wf(),
                it.seq() == s@,
                key == key_of::<C>(s@),
                0 <= it.index() <= s@.len(),
                self.walk(key.take(it.index() as int)) == Some(idx as int),
        {
            let ghost i = it.index() as int;
            let cidx = C::map(ch);
            assert(key.take(i + 1).drop_last() =~= key.take(i));
            proof { self.lemma_walk_path(key.take(i)); }
            if self.nodes[idx].child[cidx] == 0 {
                proof { self.lemma_walk_prefix_none(key, i + 1); }
                return 0;
            }
            idx = self.nodes[idx].child[cidx];
        }
        assert(key.take(s@.len() as int) =~= key);
        proof { self.lemma_walk_path(key); }
        self.nodes[idx].member
    }
}

} // verus!
