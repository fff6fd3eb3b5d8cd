//! A prefix tree keyed by sequences of tokens.
//!
//! The nodes of the tree stand in one vector, the root first, and a node
//! names its children by their places in it. A trie is modelled by the map
//! from the path of each node to the data that the node holds: the paths
//! are closed under prefixes, and the empty path is always among them.
use vstd::prelude::*;
use vstd::std_specs::hash::obeys_key_model;
use vstd::std_specs::hash::group_hash_axioms;
use vstd::pervasive::cloned;
use std::collections::HashMap;
use std::hash::Hash;
use std::marker::PhantomData;

verus! {

/// The place `i` as an integer.
spec fn slot(i: usize) -> int {
    i as int
}

/// `d` is a default value of its type: one that `U::default()` may
/// return.
pub open spec fn is_default<U: Default>(d: U) -> bool {
    call_ensures(U::default, (), d)
}

struct TrieNode<K, U> {
    child: HashMap<K, usize>,
    data: U,
    path: Ghost<Seq<K>>,
    up: Ghost<int>,
}

impl<K: Eq + Hash, U: Default> TrieNode<K, U> {
    /// A node without children that holds a default value, for the path
    /// `path` below the node at `up`.
    fn new(Ghost(path): Ghost<Seq<K>>, Ghost(up): Ghost<int>) -> (node: TrieNode<K, U>)
        ensures
            node.child@ == Map::<K, usize>::empty(),
            is_default(node.data),
            node.path@ == path,
            node.up@ == up,
    {
        TrieNode {
            child: HashMap::new(),
            data: Default::default(),
            path: Ghost(path),
            up: Ghost(up),
        }
    }
}

/// The nodes form a tree: the first is the root, with the empty path; a
/// child stands after its parent and its path is the parent's with the
/// child's key at the end; every node but the root is the child of the
/// node that it names as its parent; and no two nodes have one path.
spec fn linked<K, U>(nodes: Seq<TrieNode<K, U>>) -> bool {
    &&& nodes.len() >= 1
    &&& nodes[0].path@ =~= Seq::<K>::empty()
    &&& forall|i: int, k: K|
        0 <= i < nodes.len() && #[trigger] nodes[i].child@.contains_key(k) ==> {
            let j = slot(nodes[i].child@[k]);
            &&& i < j < nodes.len()
            &&& nodes[j].path@ == nodes[i].path@ + seq![k]
        }
    &&& forall|j: int|
        1 <= j < nodes.len() ==> {
            let u = (#[trigger] nodes[j]).up@;
            let p = nodes[j].path@;
            &&& 0 <= u < j
            &&& p.len() > 0
            &&& nodes[u].child@.contains_key(p.last())
            &&& slot(nodes[u].child@[p.last()]) == j
            &&& p.drop_last() == nodes[u].path@
        }
    &&& forall|i: int, j: int|
        0 <= i < nodes.len() && 0 <= j < nodes.len() && (#[trigger] nodes[i]).path@ == (
        #[trigger] nodes[j]).path@ ==> i == j
}

/// The map from the path of each node to its data.
spec fn paths_to_data<K, U>(nodes: Seq<TrieNode<K, U>>) -> Map<Seq<K>, U> {
    Map::new(
        |p: Seq<K>| exists|j: int| 0 <= j < nodes.len() && (#[trigger] nodes[j]).path@ == p,
        |p: Seq<K>|
            nodes[choose|j: int| 0 <= j < nodes.len() && (#[trigger] nodes[j]).path@ == p].data,
    )
}

/// In a tree, the map takes the path of each node to the data of that
/// node.
proof fn lemma_node_in_map<K, U>(nodes: Seq<TrieNode<K, U>>, j: int)
    requires
        linked(nodes),
        0 <= j < nodes.len(),
    ensures
        paths_to_data(nodes).contains_key(nodes[j].path@),
        paths_to_data(nodes)[nodes[j].path@] == nodes[j].data,
{
}

/// In a tree, a path that leads to no child of the node at `i` leads to
/// no node at all.
proof fn lemma_no_child_no_path<K, U>(nodes: Seq<TrieNode<K, U>>, i: int, k: K)
    requires
        linked(nodes),
        0 <= i < nodes.len(),
        !nodes[i].child@.contains_key(k),
    ensures
        !paths_to_data(nodes).contains_key(nodes[i].path@ + seq![k]),
{
    let p = nodes[i].path@ + seq![k];
    if paths_to_data(nodes).contains_key(p) {
        let j = choose|j: int| 0 <= j < nodes.len() && (#[trigger] nodes[j]).path@ == p;
        assert(p.len() > 0);
        assert(j >= 1);
        let u = nodes[j].up@;
        assert(p.drop_last() =~= nodes[i].path@);
        assert(nodes[u].path@ == nodes[i].path@);
        assert(u == i);
        assert(p.last() == k);
    }
}

/// The paths of a tree are closed under prefixes.
proof fn lemma_prefix_closed<K, U>(nodes: Seq<TrieNode<K, U>>, p: Seq<K>, n: int)
    requires
        linked(nodes),
        paths_to_data(nodes).contains_key(p),
        0 <= n <= p.len(),
    ensures
        paths_to_data(nodes).contains_key(p.take(n)),
    decreases p.len() - n,
{
    if n == p.len() {
        assert(p.take(n) =~= p);
    } else {
        lemma_prefix_closed(nodes, p, n + 1);
        let q = p.take(n + 1);
        let j = choose|j: int| 0 <= j < nodes.len() && (#[trigger] nodes[j]).path@ == q;
        assert(j >= 1);
        let u = nodes[j].up@;
        assert(q.drop_last() =~= p.take(n));
        lemma_node_in_map(nodes, u);
    }
}

/// `after` is `before` with the path `q` added, where `before` lacks it,
/// with a default value; it is `before` itself where `before` has the path.
spec fn grown_at<K, U: Default>(
    before: Map<Seq<K>, U>,
    after: Map<Seq<K>, U>,
    q: Seq<K>,
) -> bool {
    if before.contains_key(q) {
        after == before
    } else {
        after == before.insert(q, after[q]) && is_default(after[q])
    }
}

/// `after` is `before` with `data` at `path`: it has the paths of `before`
/// and the prefixes of `path`, `data` at `path`, at every other path of
/// `before` what `before` has there, and a default value at every prefix of
/// `path` that is new.
pub open spec fn inserted<K, U: Default>(
    before: Map<Seq<K>, U>,
    after: Map<Seq<K>, U>,
    path: Seq<K>,
    data: U,
) -> bool {
    &&& forall|p: Seq<K>| #[trigger]
        after.contains_key(p) <==> before.contains_key(p) || p.is_prefix_of(path)
    &&& after[path] == data
    &&& forall|p: Seq<K>| #[trigger] before.contains_key(p) && p != path ==> after[p] == before[p]
    &&& forall|p: Seq<K>|
        p.is_prefix_of(path) && p != path && !before.contains_key(p) ==> is_default(
            #[trigger] after[p],
        )
}

/// On the way to `inserted`: the first `i` keys of `path` have been
/// walked, and `now` is `before` with the prefixes of `path` up to that
/// length, the new ones with default values.
spec fn staged<K, U: Default>(
    before: Map<Seq<K>, U>,
    now: Map<Seq<K>, U>,
    path: Seq<K>,
    i: usize,
) -> bool {
    &&& forall|p: Seq<K>| #[trigger]
        now.contains_key(p) <==> before.contains_key(p) || (p.is_prefix_of(path) && p.len() <= i)
    &&& forall|p: Seq<K>| #[trigger] before.contains_key(p) ==> now[p] == before[p]
    &&& forall|p: Seq<K>|
        !before.contains_key(p) && now.contains_key(p) ==> is_default(#[trigger] now[p])
}

/// A tree stays a tree when a node without children is added at its end
/// as the child under `key` of a node `s` that has no child under `key`.
proof fn lemma_add_child<K, U>(
    before: Seq<TrieNode<K, U>>,
    after: Seq<TrieNode<K, U>>,
    s: int,
    key: K,
    j: usize,
)
    requires
        linked(before),
        0 <= s < before.len(),
        before.len() <= usize::MAX,
        !before[s].child@.contains_key(key),
        after.len() == before.len() + 1,
        forall|i: int| 0 <= i < before.len() && i != s ==> #[trigger] after[i] == before[i],
        after[s].path@ == before[s].path@,
        after[s].up@ == before[s].up@,
        after[s].data == before[s].data,
        slot(j) == before.len(),
        after[s].child@ == before[s].child@.insert(key, j),
        after.last().child@ == Map::<K, usize>::empty(),
        after.last().path@ == before[s].path@ + seq![key],
        after.last().up@ == s,
    ensures
        linked(after),
{
    let n = before.len() as int;
    let q = before[s].path@ + seq![key];
    lemma_no_child_no_path(before, s, key);
    assert forall|i: int| 0 <= i < n implies (#[trigger] before[i]).path@ != q by {
        lemma_node_in_map(before, i);
    }
    assert forall|i: int| 0 <= i < n implies (#[trigger] after[i]).path@ == before[i].path@
        && after[i].up@ == before[i].up@ by {}
    assert(after[n] == after.last());
    assert forall|i: int, k: K|
        0 <= i < after.len() && #[trigger] after[i].child@.contains_key(k) implies {
        let c = slot(after[i].child@[k]);
        &&& i < c < after.len()
        &&& after[c].path@ == after[i].path@ + seq![k]
    } by {
        if i == s && k == key {
        } else if i == n {
        } else {
            assert(before[i].child@.contains_key(k));
            let c = slot(before[i].child@[k]);
            assert(after[c].path@ == before[c].path@);
        }
    }
    assert forall|c: int| 1 <= c < after.len() implies {
        let u = (#[trigger] after[c]).up@;
        let p = after[c].path@;
        &&& 0 <= u < c
        &&& p.len() > 0
        &&& after[u].child@.contains_key(p.last())
        &&& slot(after[u].child@[p.last()]) == c
        &&& p.drop_last() == after[u].path@
    } by {
        if c == n {
            assert(q.drop_last() =~= before[s].path@);
        } else {
            assert(before[c].up@ == after[c].up@);
            let u = before[c].up@;
            let p = before[c].path@;
            assert(before[u].child@.contains_key(p.last()));
            assert(after[u].path@ == before[u].path@);
        }
    }
    assert forall|a: int, b: int|
        0 <= a < after.len() && 0 <= b < after.len() && (#[trigger] after[a]).path@ == (
        #[trigger] after[b]).path@ implies a == b by {
        if a < n && b < n {
            assert(before[a].path@ == before[b].path@);
        }
    }
}

/// A tree that has grown by one node holds what it held, and the new
/// node's data at the new node's path.
proof fn lemma_grown_by_one<K, U>(before: Seq<TrieNode<K, U>>, after: Seq<TrieNode<K, U>>)
    requires
        linked(before),
        linked(after),
        after.len() == before.len() + 1,
        forall|i: int|
            0 <= i < before.len() ==> {
                &&& (#[trigger] after[i]).path@ == before[i].path@
                &&& after[i].data == before[i].data
            },
    ensures
        paths_to_data(after) == paths_to_data(before).insert(after.last().path@, after.last().data),
        !paths_to_data(before).contains_key(after.last().path@),
{
    let q = after.last().path@;
    let grown = paths_to_data(before).insert(q, after.last().data);
    if paths_to_data(before).contains_key(q) {
        let i = choose|i: int| 0 <= i < before.len() && (#[trigger] before[i]).path@ == q;
        assert(after[i].path@ == after[after.len() - 1].path@);
    }
    assert forall|p: Seq<K>|
        #[trigger] paths_to_data(after).contains_key(p) <==> grown.contains_key(p) by {
        if paths_to_data(before).contains_key(p) {
            let i = choose|i: int| 0 <= i < before.len() && (#[trigger] before[i]).path@ == p;
            assert(after[i].path@ == p);
        }
        if p == q {
            assert(after[after.len() - 1].path@ == p);
        }
        if paths_to_data(after).contains_key(p) {
            let i = choose|i: int| 0 <= i < after.len() && (#[trigger] after[i]).path@ == p;
            if i < before.len() {
                assert(before[i].path@ == p);
            }
        }
    }
    assert forall|p: Seq<K>| paths_to_data(after).contains_key(p) implies #[trigger] paths_to_data(
        after,
    )[p] == grown[p] by {
        let i = choose|i: int| 0 <= i < after.len() && (#[trigger] after[i]).path@ == p;
        lemma_node_in_map(after, i);
        if i < before.len() {
            lemma_node_in_map(before, i);
        }
    }
    assert(paths_to_data(after) =~= grown);
}

/// A prefix tree that holds data of type `U` at paths of keys of type `K`.
pub struct Trie<K, U> {
    nodes: Vec<TrieNode<K, U>>,
}

/// A place in a trie: the node at the end of some path. A cursor stays
/// good while the trie grows, since no node ever leaves a trie.
pub struct TrieCursor<K, U> {
    node: usize,
    of: PhantomData<(K, U)>,
}

impl<K, U> View for Trie<K, U> {
    type V = Map<Seq<K>, U>;

    closed spec fn view(&self) -> Map<Seq<K>, U> {
        paths_to_data(self.nodes@)
    }
}

impl<K, U> Trie<K, U> {
    /// The trie is well formed: its nodes form a tree.
    pub closed spec fn wf(&self) -> bool {
        linked(self.nodes@)
    }

    /// Every cursor of `before` is one of this trie, at the same path.
    pub open spec fn keeps_cursors_of(&self, before: &Trie<K, U>) -> bool {
        forall|cursor: TrieCursor<K, U>| #[trigger]
            before.holds(cursor) ==> self.holds(cursor) && self.path_of(cursor) == before.path_of(
                cursor,
            )
    }

    /// The cursor stands at a node of this trie.
    pub closed spec fn holds(&self, cursor: TrieCursor<K, U>) -> bool {
        cursor.node < self.nodes@.len()
    }

    /// The path of the node at which the cursor stands.
    pub closed spec fn path_of(&self, cursor: TrieCursor<K, U>) -> Seq<K> {
        self.nodes@[slot(cursor.node)].path@
    }

    /// A cursor stands at a path of the trie, and paths of the trie are
    /// closed under prefixes; the empty path is one.
    pub proof fn lemma_paths(&self)
        requires
            self.wf(),
        ensures
            self@.contains_key(Seq::<K>::empty()),
            forall|cursor: TrieCursor<K, U>| #[trigger]
                self.holds(cursor) ==> self@.contains_key(self.path_of(cursor)),
            forall|p: Seq<K>, n: int|
                self@.contains_key(p) && 0 <= n <= p.len() ==> self@.contains_key(
                    #[trigger] p.take(n),
                ),
    {
        lemma_node_in_map(self.nodes@, 0);
        assert forall|cursor: TrieCursor<K, U>| #[trigger] self.holds(cursor) implies {
            self@.contains_key(self.path_of(cursor))
        } by {
            lemma_node_in_map(self.nodes@, slot(cursor.node));
        }
        assert forall|p: Seq<K>, n: int|
            self@.contains_key(p) && 0 <= n <= p.len() implies self@.contains_key(
            #[trigger] p.take(n),
        ) by {
            lemma_prefix_closed(self.nodes@, p, n);
        }
    }
}

impl<K: Eq + Hash + Copy, U: Default + Clone> Trie<K, U> {
    /// A trie that holds a default value at the empty path and nothing
    /// else.
    pub fn new() -> (trie: Trie<K, U>)
        ensures
            trie.wf(),
            trie@.dom() == set![Seq::<K>::empty()],
            is_default(trie@[Seq::<K>::empty()]),
    {
        let mut nodes: Vec<TrieNode<K, U>> = Vec::new();
        nodes.push(TrieNode::new(Ghost(Seq::empty()), Ghost(0)));
        let trie = Trie { nodes };
        proof {
            lemma_node_in_map(trie.nodes@, 0);
            assert(trie@.dom() =~= set![Seq::<K>::empty()]);
        }
        trie
    }

    /// Puts `data` at `path`. The nodes on the way that the trie lacks are
    /// made, each with a default value.
    pub fn insert(&mut self, path: &[K], data: U)
        requires
            obeys_key_model::<K>(),
            old(self).wf(),
        ensures
            final(self).wf(),
            final(self).keeps_cursors_of(old(self)),
            inserted(old(self)@, final(self)@, path@, data),
    {
        let mut cursor = self.cursor();
        let mut i: usize = 0;
        proof {
            self.lemma_paths();
            assert forall|p: Seq<K>| p.is_prefix_of(path@) && p.len() <= 0 implies {
                self@.contains_key(p)
            } by {
                assert(p =~= Seq::<K>::empty());
            }
            assert(path@.take(0) =~= Seq::<K>::empty());
        }
        while i < path.len()
            invariant
                obeys_key_model::<K>(),
                i <= path@.len(),
                self.wf(),
                self.holds(cursor),
                self.path_of(cursor) == path@.take(slot(i)),
                self.keeps_cursors_of(old(self)),
                staged(old(self)@, self@, path@, i),
            decreases path@.len() - i,
        {
            let ghost now = *self;
            let ghost q = path@.take(i + 1);
            proof {
                assert(path@.take(slot(i)).push(path@[slot(i)]) =~= q);
            }
            cursor = cursor.to_child_or_insert_default(self, path[i]);
            proof {
                assert forall|c: TrieCursor<K, U>| #[trigger] old(self).holds(c) implies self.holds(
                    c,
                ) && self.path_of(c) == old(self).path_of(c) by {
                    assert(now.holds(c));
                }
                assert forall|p: Seq<K>| #[trigger]
                    self@.contains_key(p) <==> old(self)@.contains_key(p) || (p.is_prefix_of(path@)
                        && p.len() <= i + 1) by {
                    assert(now@.contains_key(p) <==> old(self)@.contains_key(p) || (p.is_prefix_of(
                        path@,
                    ) && p.len() <= i));
                    if p.is_prefix_of(path@) && p.len() == i + 1 {
                        assert(p =~= q);
                    }
                    assert(q.is_prefix_of(path@));
                }
                assert forall|p: Seq<K>| #[trigger] old(self)@.contains_key(p) implies self@[p]
                    == old(self)@[p] by {
                    assert(now@.contains_key(p));
                }
                assert forall|p: Seq<K>|
                    !old(self)@.contains_key(p) && self@.contains_key(p) implies is_default(
                    #[trigger] self@[p],
                ) by {
                    if now@.contains_key(p) {
                        assert(is_default(now@[p]));
                    }
                }
            }
            i += 1;
        }
        let ghost now = *self;
        proof {
            assert(path@.take(slot(i)) =~= path@);
        }
        cursor.set_data(self, data);
        proof {
            assert forall|c: TrieCursor<K, U>| #[trigger] old(self).holds(c) implies self.holds(c)
                && self.path_of(c) == old(self).path_of(c) by {
                assert(now.holds(c));
            }
            assert forall|p: Seq<K>| #[trigger]
                self@.contains_key(p) <==> old(self)@.contains_key(p) || p.is_prefix_of(path@) by {
                assert(now@.contains_key(p) <==> old(self)@.contains_key(p) || (p.is_prefix_of(
                    path@,
                ) && p.len() <= i));
                assert(path@.is_prefix_of(path@));
            }
            assert forall|p: Seq<K>| #[trigger]
                old(self)@.contains_key(p) && p != path@ implies self@[p] == old(self)@[p] by {
                assert(now@.contains_key(p));
            }
            assert forall|p: Seq<K>|
                p.is_prefix_of(path@) && p != path@ && !old(self)@.contains_key(p) implies {
                is_default(#[trigger] self@[p])
            } by {
                assert(now@.contains_key(p));
            }
        }
    }

    /// The data at `path`, where the trie has a node there.
    pub fn get(&self, path: &[K]) -> (data: Option<U>)
        requires
            obeys_key_model::<K>(),
            self.wf(),
        ensures
            match data {
                Some(d) => self@.contains_key(path@) && cloned(self@[path@], d),
                None => !self@.contains_key(path@),
            },
    {
        let mut cursor = self.cursor();
        let mut i: usize = 0;
        proof {
            self.lemma_paths();
            assert(path@.take(0) =~= Seq::<K>::empty());
        }
        while i < path.len()
            invariant
                obeys_key_model::<K>(),
                i <= path@.len(),
                self.wf(),
                self.holds(cursor),
                self.path_of(cursor) == path@.take(slot(i)),
            decreases path@.len() - i,
        {
            proof {
                assert(path@.take(slot(i)).push(path@[slot(i)]) =~= path@.take(i + 1));
            }
            match cursor.to_child(self, &path[i]) {
                Some(next_cursor) => cursor = next_cursor,
                None => {
                    proof {
                        self.lemma_paths();
                    }
                    return None;
                },
            }
            i += 1;
        }
        proof {
            self.lemma_paths();
            assert(path@.take(slot(i)) =~= path@);
        }
        Some(cursor.get_data(self))
    }

    /// A cursor at the root: the node of the empty path.
    pub fn cursor(&self) -> (cursor: TrieCursor<K, U>)
        requires
            self.wf(),
        ensures
            self.holds(cursor),
            self.path_of(cursor) == Seq::<K>::empty(),
    {
        TrieCursor { node: 0, of: PhantomData }
    }
}

impl<K: Eq + Hash + Copy, U: Default + Clone> TrieCursor<K, U> {
    /// The cursor at the child under the key `k`, where the node has one.
    pub fn to_child(&self, trie: &Trie<K, U>, k: &K) -> (child: Option<TrieCursor<K, U>>)
        requires
            obeys_key_model::<K>(),
            trie.wf(),
            trie.holds(*self),
        ensures
            match child {
                Some(c) => trie.holds(c) && trie.path_of(c) == trie.path_of(*self).push(*k),
                None => !trie@.contains_key(trie.path_of(*self).push(*k)),
            },
    {
        broadcast use group_hash_axioms;

        proof {
            assert(trie.path_of(*self).push(*k) =~= trie.path_of(*self) + seq![*k]);
        }
        match trie.nodes[self.node].child.get(k) {
            Some(j) => Some(TrieCursor { node: *j, of: PhantomData }),
            None => {
                proof {
                    lemma_no_child_no_path(trie.nodes@, slot(self.node), *k);
                }
                None
            },
        }
    }

    /// Gives the node a child under `key`, with a default value, unless
    /// it has one.
    fn init_child(&self, trie: &mut Trie<K, U>, key: K)
        requires
            obeys_key_model::<K>(),
            old(trie).wf(),
            old(trie).holds(*self),
        ensures
            final(trie).wf(),
            final(trie).keeps_cursors_of(old(trie)),
            grown_at(old(trie)@, final(trie)@, old(trie).path_of(*self).push(key)),
    {
        broadcast use group_hash_axioms;

        let ghost before = trie.nodes@;
        let ghost q = trie.path_of(*self) + seq![key];
        proof {
            assert(trie.path_of(*self).push(key) =~= q);
            lemma_node_in_map(before, slot(self.node));
        }
        if !trie.nodes[self.node].child.contains_key(&key) {
            let j = trie.nodes.len();
            trie.nodes.push(TrieNode::new(Ghost(q), Ghost(slot(self.node))));
            trie.nodes[self.node].child.insert(key, j);
            proof {
                let after = trie.nodes@;
                assert(after.last().path@ == q);
                lemma_add_child(before, after, slot(self.node), key, j);
                lemma_grown_by_one(before, after);
                lemma_node_in_map(after, after.len() - 1);
            }
        } else {
            proof {
                let i = slot(trie.nodes@[slot(self.node)].child@[key]);
                lemma_node_in_map(before, i);
                assert(paths_to_data(before).contains_key(q));
            }
        }
    }

    /// The cursor at the child under the key `k`, which the node is given
    /// with a default value where it has none.
    fn to_child_or_insert_default(&self, trie: &mut Trie<K, U>, k: K) -> (child: TrieCursor<K, U>)
        requires
            obeys_key_model::<K>(),
            old(trie).wf(),
            old(trie).holds(*self),
        ensures
            final(trie).wf(),
            final(trie).keeps_cursors_of(old(trie)),
            final(trie).holds(child),
            final(trie).path_of(child) == old(trie).path_of(*self).push(k),
            grown_at(old(trie)@, final(trie)@, old(trie).path_of(*self).push(k)),
    {
        self.init_child(trie, k);
        self.to_child(trie, &k).unwrap()
    }

    /// Puts `data` at the node in the place of what it holds.
    pub fn set_data(&self, trie: &mut Trie<K, U>, data: U)
        requires
            old(trie).wf(),
            old(trie).holds(*self),
        ensures
            final(trie).wf(),
            final(trie).keeps_cursors_of(old(trie)),
            final(trie)@ == old(trie)@.insert(old(trie).path_of(*self), data),
    {
        let ghost before = trie.nodes@;
        trie.nodes[self.node].data = data;
        proof {
            let after = trie.nodes@;
            assert forall|i: int| 0 <= i < before.len() implies (#[trigger] after[i]).path@
                == before[i].path@ && after[i].child@ == before[i].child@ && after[i].up@
                == before[i].up@ by {}
            assert(linked(after));
            let p = before[slot(self.node)].path@;
            assert forall|q: Seq<K>| #[trigger]
                paths_to_data(after).contains_key(q) <==> paths_to_data(before).contains_key(
                    q,
                ) by {
                if paths_to_data(before).contains_key(q) {
                    let i = choose|i: int|
                        0 <= i < before.len() && (#[trigger] before[i]).path@ == q;
                    assert(after[i].path@ == q);
                }
                if paths_to_data(after).contains_key(q) {
                    let i = choose|i: int| 0 <= i < after.len() && (#[trigger] after[i]).path@ == q;
                    assert(before[i].path@ == q);
                }
            }
            assert forall|q: Seq<K>| paths_to_data(after).contains_key(q) implies {
                #[trigger] paths_to_data(after)[q] == paths_to_data(before).insert(p, data)[q]
            } by {
                let i = choose|i: int| 0 <= i < after.len() && (#[trigger] after[i]).path@ == q;
                lemma_node_in_map(after, i);
                lemma_node_in_map(before, i);
            }
            lemma_node_in_map(before, slot(self.node));
            assert(paths_to_data(after) =~= paths_to_data(before).insert(p, data));
        }
    }

    /// The data of the node.
    pub fn get_data(&self, trie: &Trie<K, U>) -> (data: U)
        requires
            trie.wf(),
            trie.holds(*self),
        ensures
            cloned(trie@[trie.path_of(*self)], data),
    {
        proof {
            lemma_node_in_map(trie.nodes@, slot(self.node));
        }
        trie.nodes[self.node].data.clone()
    }
}

} // verus!
