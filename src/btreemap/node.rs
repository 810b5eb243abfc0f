use vstd::prelude::*;

verus! {

/// One vertex of the tree: sorted keys, their values, and either no children
/// (a leaf) or one more child than keys (an internal node).
pub struct Node<V> {
    pub keys: Vec<u64>,
    pub edges: Vec<Node<V>>,
    pub vals: Vec<V>,
    /// The most keys this node may hold.
    pub cap: usize,
}

/// What an insertion into a node left: everything fit, or the node split
/// and the middle pair and new right sibling go up to the parent.
pub enum InsertionResult<V> {
    Fit,
    Split(u64, V, Node<V>),
}

/// Where a key stands in a node: at a key, or inside the child to descend into.
pub enum SearchResult {
    Found(usize),
    GoDown(usize),
}

/// The fewest keys a non-root node with capacity `cap` may hold.
pub open spec fn min_load(cap: nat) -> nat {
    cap / 2
}

/// Keys strictly increase along the sequence.
pub open spec fn sorted_entries<V>(s: Seq<(u64, V)>) -> bool {
    forall|i: int, j: int| 0 <= i < j < s.len() ==> #[trigger] s[i].0 < #[trigger] s[j].0
}

/// In-order entries of the children `es` of a node whose own pairs are `ps`,
/// each child a subtree of height `h`.
pub open spec fn children_entries<V>(es: Seq<Node<V>>, ps: Seq<(u64, V)>, h: nat) -> Seq<(u64, V)>
    decreases h, es.len(),
{
    if es.len() == 0 {
        Seq::empty()
    } else if es.len() == 1 {
        es[0].entries(h)
    } else {
        children_entries(es.drop_last(), ps.drop_last(), h) + seq![ps.last()] + es.last().entries(h)
    }
}

/// `post` is `pre` after the last pair of child `i - 1` rotated through the
/// separating pair into the front of child `i`, with that child's last edge.
pub open spec fn stole_from_left<V>(pre: Node<V>, post: Node<V>, i: int) -> bool {
    let l = pre.edges@[i - 1];
    let r = pre.edges@[i];
    let nl = post.edges@[i - 1];
    let nr = post.edges@[i];
    &&& post.cap == pre.cap
    &&& post.keys@ == pre.keys@.update(i - 1, l.keys@.last())
    &&& post.vals@ == pre.vals@.update(i - 1, l.vals@.last())
    &&& post.edges@.len() == pre.edges@.len()
    &&& forall|j: int| 0 <= j < pre.edges@.len() && j != i - 1 && j != i ==> post.edges@[j] == pre.edges@[j]
    &&& nl.keys@ == l.keys@.drop_last()
    &&& nl.vals@ == l.vals@.drop_last()
    &&& nl.edges@ == (if l.edges@.len() == 0 { l.edges@ } else { l.edges@.drop_last() })
    &&& nl.cap == l.cap
    &&& nr.keys@ == seq![pre.keys@[i - 1]] + r.keys@
    &&& nr.vals@ == seq![pre.vals@[i - 1]] + r.vals@
    &&& nr.edges@ == (if l.edges@.len() == 0 { r.edges@ } else { seq![l.edges@.last()] + r.edges@ })
    &&& nr.cap == r.cap
}

/// `post` is `pre` after the first pair of child `i + 1` rotated through the
/// separating pair onto the end of child `i`, with that child's first edge.
pub open spec fn stole_from_right<V>(pre: Node<V>, post: Node<V>, i: int) -> bool {
    let l = pre.edges@[i];
    let r = pre.edges@[i + 1];
    let nl = post.edges@[i];
    let nr = post.edges@[i + 1];
    &&& post.cap == pre.cap
    &&& post.keys@ == pre.keys@.update(i, r.keys@[0])
    &&& post.vals@ == pre.vals@.update(i, r.vals@[0])
    &&& post.edges@.len() == pre.edges@.len()
    &&& forall|j: int| 0 <= j < pre.edges@.len() && j != i && j != i + 1 ==> post.edges@[j] == pre.edges@[j]
    &&& nl.keys@ == l.keys@.push(pre.keys@[i])
    &&& nl.vals@ == l.vals@.push(pre.vals@[i])
    &&& nl.edges@ == (if r.edges@.len() == 0 { l.edges@ } else { l.edges@.push(r.edges@[0]) })
    &&& nl.cap == l.cap
    &&& nr.keys@ == r.keys@.remove(0)
    &&& nr.vals@ == r.vals@.remove(0)
    &&& nr.edges@ == (if r.edges@.len() == 0 { r.edges@ } else { r.edges@.remove(0) })
    &&& nr.cap == r.cap
}

/// `post` is `pre` after children `i` and `i + 1` and the pair between them
/// became one child at `i`.
pub open spec fn merged<V>(pre: Node<V>, post: Node<V>, i: int) -> bool {
    let l = pre.edges@[i];
    let r = pre.edges@[i + 1];
    let m = post.edges@[i];
    &&& post.cap == pre.cap
    &&& post.keys@ == pre.keys@.remove(i)
    &&& post.vals@ == pre.vals@.remove(i)
    &&& post.edges@.len() == pre.edges@.len() - 1
    &&& forall|j: int| 0 <= j < i ==> post.edges@[j] == pre.edges@[j]
    &&& forall|j: int| i < j < post.edges@.len() ==> post.edges@[j] == pre.edges@[j + 1]
    &&& m.keys@ == l.keys@ + seq![pre.keys@[i]] + r.keys@
    &&& m.vals@ == l.vals@ + seq![pre.vals@[i]] + r.vals@
    &&& m.edges@ == l.edges@ + r.edges@
    &&& m.cap == l.cap
}

/// `post` is `pre` after the repair of child `i`: a rotation from the left
/// sibling where it has a pair to spare, else a rotation from the right
/// sibling where it has one, else a merge with the left sibling, or with the
/// right one where there is no left sibling.
pub open spec fn underflow_handled<V>(pre: Node<V>, post: Node<V>, i: int) -> bool {
    let min = min_load(pre.cap as nat);
    if i > 0 {
        if pre.edges@[i - 1].keys@.len() > min {
            stole_from_left(pre, post, i)
        } else if i < pre.keys@.len() && pre.edges@[i + 1].keys@.len() > min {
            stole_from_right(pre, post, i)
        } else {
            merged(pre, post, i - 1)
        }
    } else {
        if pre.edges@[i + 1].keys@.len() > min {
            stole_from_right(pre, post, i)
        } else {
            merged(pre, post, i)
        }
    }
}

impl<V> Node<V> {
    /// The key-value pairs stored in this node itself.
    pub open spec fn pairs(&self) -> Seq<(u64, V)> {
        Seq::new(self.keys@.len(), |i: int| (self.keys@[i], self.vals@[i]))
    }

    /// In-order entries of the subtree rooted here, read as a tree of height `h`.
    pub open spec fn entries(&self, h: nat) -> Seq<(u64, V)>
        decreases h, 0nat,
    {
        if h <= 1 {
            self.pairs()
        } else {
            children_entries(self.edges@, self.pairs(), (h - 1) as nat)
        }
    }

    /// Every leaf lies `h` levels down, every node holds at most `cap` keys,
    /// this one at least `lo` and every one below it at least `min_load(cap)`.
    pub open spec fn wf(&self, cap: nat, h: nat, lo: nat) -> bool
        decreases h,
    {
        &&& h >= 1
        &&& self.cap == cap
        &&& self.keys@.len() == self.vals@.len()
        &&& self.keys@.len() <= cap
        &&& self.keys@.len() >= lo
        &&& (h == 1 ==> self.edges@.len() == 0)
        &&& (h > 1 ==> {
            &&& self.edges@.len() == self.keys@.len() + 1
            &&& forall|j: int|
                0 <= j < self.edges@.len() ==> (#[trigger] self.edges@[j]).wf(cap, (h - 1) as nat, min_load(cap))
        })
    }

    /// Keys and values agree in number; children are absent or one more than keys.
    pub open spec fn shaped(&self) -> bool {
        &&& self.keys@.len() == self.vals@.len()
        &&& (self.edges@.len() == 0 || self.edges@.len() == self.keys@.len() + 1)
    }

    pub open spec fn is_empty_leaf(&self, cap: nat) -> bool {
        &&& self.keys@.len() == 0
        &&& self.vals@.len() == 0
        &&& self.edges@.len() == 0
        &&& self.cap == cap
    }

    /// Makes a node with no keys and no children, meant to receive children.
    pub fn new_internal(capacity: usize) -> (r: Node<V>)
        ensures
            r.is_empty_leaf(capacity as nat),
    {
        Node { keys: Vec::new(), vals: Vec::new(), edges: Vec::new(), cap: capacity }
    }

    /// Makes a leaf with no keys.
    pub fn new_leaf(capacity: usize) -> (r: Node<V>)
        ensures
            r.is_empty_leaf(capacity as nat),
    {
        Node { keys: Vec::new(), edges: Vec::new(), vals: Vec::new(), cap: capacity }
    }

    /// Makes the empty leaf that is the root of an empty map with branching factor `b`.
    pub fn make_leaf_root(b: usize) -> (r: Node<V>)
        requires
            1 <= b <= usize::MAX / 2,
        ensures
            r.is_empty_leaf((2 * b - 1) as nat),
    {
        Node::new_leaf(capacity_from_b(b))
    }

    /// Replaces `left_and_out` by a new root holding one pair, with the old
    /// node as its left child and `right` as its right child.
    pub fn make_internal_root(left_and_out: &mut Node<V>, b: usize, key: u64, value: V, right: Node<V>)
        requires
            1 <= b <= usize::MAX / 2,
        ensures
            final(left_and_out).keys@ == seq![key],
            final(left_and_out).vals@ == seq![value],
            final(left_and_out).edges@ == seq![*old(left_and_out), right],
            final(left_and_out).cap == 2 * b - 1,
    {
        let mut node = Node::new_internal(capacity_from_b(b));
        std::mem::swap(left_and_out, &mut node);
        left_and_out.keys.push(key);
        left_and_out.vals.push(value);
        left_and_out.edges.push(node);
        left_and_out.edges.push(right);
    }

    /// The number of keys.
    pub fn len(&self) -> (r: usize)
        ensures
            r == self.keys@.len(),
    {
        self.keys.len()
    }

    /// The most keys this node may hold.
    pub fn capacity(&self) -> (r: usize)
        ensures
            r == self.cap,
    {
        self.cap
    }

    /// Whether the node holds as many keys as it may.
    pub fn is_full(&self) -> (r: bool)
        ensures
            r == (self.keys@.len() == self.cap),
    {
        self.len() == self.capacity()
    }

    /// Whether the node holds fewer keys than a non-root node must.
    pub fn is_underfull(&self) -> (r: bool)
        ensures
            r == (self.keys@.len() < min_load(self.cap as nat)),
    {
        self.keys.len() < min_load_from_capacity(self.capacity())
    }

    /// Key `idx`, if there is one.
    pub fn key(&self, idx: usize) -> (r: Option<&u64>)
        ensures
            r == (if idx < self.keys@.len() { Some(&self.keys@[idx as int]) } else { None }),
    {
        if idx < self.keys.len() {
            Some(&self.keys[idx])
        } else {
            None
        }
    }

    /// Key `idx` for writing, if there is one.
    pub fn key_mut(&mut self, idx: usize) -> (r: Option<&mut u64>)
        ensures
            idx >= old(self).keys@.len() ==> r is None && final(self).keys == old(self).keys,
            idx < old(self).keys@.len() ==> r is Some && *r->Some_0 == old(self).keys@[idx as int]
                && final(self).keys@ == old(self).keys@.update(idx as int, *final(r->Some_0)),
            final(self).vals == old(self).vals,
            final(self).edges == old(self).edges,
            final(self).cap == old(self).cap,
    {
        if idx < self.keys.len() {
            Some(&mut self.keys[idx])
        } else {
            None
        }
    }

    /// Value `idx`, if there is one.
    pub fn val(&self, idx: usize) -> (r: Option<&V>)
        ensures
            r == (if idx < self.vals@.len() { Some(&self.vals@[idx as int]) } else { None }),
    {
        if idx < self.vals.len() {
            Some(&self.vals[idx])
        } else {
            None
        }
    }

    /// Value `idx` for writing, if there is one.
    pub fn val_mut(&mut self, idx: usize) -> (r: Option<&mut V>)
        ensures
            idx >= old(self).vals@.len() ==> r is None && final(self).vals == old(self).vals,
            idx < old(self).vals@.len() ==> r is Some && *r->Some_0 == old(self).vals@[idx as int]
                && final(self).vals@ == old(self).vals@.update(idx as int, *final(r->Some_0)),
            final(self).keys == old(self).keys,
            final(self).edges == old(self).edges,
            final(self).cap == old(self).cap,
    {
        if idx < self.vals.len() {
            Some(&mut self.vals[idx])
        } else {
            None
        }
    }

    /// Child `idx`, if there is one.
    pub fn edge(&self, idx: usize) -> (r: Option<&Node<V>>)
        ensures
            r == (if idx < self.edges@.len() { Some(&self.edges@[idx as int]) } else { None }),
    {
        if idx < self.edges.len() {
            Some(&self.edges[idx])
        } else {
            None
        }
    }

    /// Child `idx` for writing, if there is one.
    pub fn edge_mut(&mut self, idx: usize) -> (r: Option<&mut Node<V>>)
        ensures
            idx >= old(self).edges@.len() ==> r is None && final(self).edges == old(self).edges,
            idx < old(self).edges@.len() ==> r is Some && *r->Some_0 == old(self).edges@[idx as int]
                && final(self).edges@ == old(self).edges@.update(idx as int, *final(r->Some_0)),
            final(self).keys == old(self).keys,
            final(self).vals == old(self).vals,
            final(self).cap == old(self).cap,
    {
        if idx < self.edges.len() {
            Some(&mut self.edges[idx])
        } else {
            None
        }
    }

    /// Takes off the last child, if there is one.
    pub fn pop_edge(&mut self) -> (r: Option<Node<V>>)
        ensures
            final(self).keys == old(self).keys,
            final(self).vals == old(self).vals,
            final(self).cap == old(self).cap,
            old(self).edges@.len() == 0 ==> r is None && final(self).edges@.len() == 0,
            old(self).edges@.len() > 0 ==> r == Some(old(self).edges@.last()) && final(self).edges@
                == old(self).edges@.drop_last(),
    {
        self.edges.pop()
    }

    /// Whether the node has no children.
    pub fn is_leaf(&self) -> (r: bool)
        ensures
            r == (self.edges@.len() == 0),
    {
        self.edges.len() == 0
    }

    /// Makes a node from its parts.
    fn from_vecs(keys: Vec<u64>, vals: Vec<V>, edges: Vec<Node<V>>, cap: usize) -> (r: Node<V>)
        ensures
            r.keys == keys,
            r.vals == vals,
            r.edges == edges,
            r.cap == cap,
    {
        Node { keys, vals, edges, cap }
    }

    /// Inserts a pair at `index` into a node with room for it.
    fn insert_fit_as_leaf(&mut self, index: usize, key: u64, val: V)
        requires
            index <= old(self).keys@.len(),
            old(self).keys@.len() == old(self).vals@.len(),
        ensures
            final(self).keys@ == old(self).keys@.insert(index as int, key),
            final(self).vals@ == old(self).vals@.insert(index as int, val),
            final(self).edges == old(self).edges,
            final(self).cap == old(self).cap,
    {
        self.keys.insert(index, key);
        self.vals.insert(index, val);
    }

    /// Inserts a pair at `index`, with `right` as the child after it, into a node with room.
    fn insert_fit_as_internal(&mut self, index: usize, key: u64, val: V, right: Node<V>)
        requires
            index <= old(self).keys@.len(),
            old(self).keys@.len() == old(self).vals@.len(),
            old(self).edges@.len() == old(self).keys@.len() + 1,
        ensures
            final(self).keys@ == old(self).keys@.insert(index as int, key),
            final(self).vals@ == old(self).vals@.insert(index as int, val),
            final(self).edges@ == old(self).edges@.insert(index + 1, right),
            final(self).cap == old(self).cap,
    {
        let n_edges = self.edges.len();
        assert(index < n_edges);
        self.keys.insert(index, key);
        self.vals.insert(index, val);
        self.edges.insert(index + 1, right);
    }

    /// Splits a node with an odd number of keys around its middle pair, which
    /// is taken out and returned with the new right sibling.
    fn split(&mut self) -> (r: (u64, V, Node<V>))
        requires
            old(self).shaped(),
            old(self).keys@.len() % 2 == 1,
        ensures
            ({
                let n = old(self).keys@.len() as int;
                let m = n / 2;
                &&& final(self).keys@ == old(self).keys@.subrange(0, m)
                &&& final(self).vals@ == old(self).vals@.subrange(0, m)
                &&& r.0 == old(self).keys@[m]
                &&& r.1 == old(self).vals@[m]
                &&& r.2.keys@ == old(self).keys@.subrange(m + 1, n)
                &&& r.2.vals@ == old(self).vals@.subrange(m + 1, n)
                &&& (old(self).edges@.len() == 0 ==> final(self).edges@.len() == 0 && r.2.edges@.len() == 0)
                &&& (old(self).edges@.len() != 0 ==> final(self).edges@ == old(self).edges@.subrange(0, m + 1)
                    && r.2.edges@ == old(self).edges@.subrange(m + 1, n + 1))
                &&& final(self).cap == old(self).cap
                &&& r.2.cap == old(self).cap
            }),
    {
        let r_keys = split(&mut self.keys);
        let r_vals = split(&mut self.vals);
        let r_edges = if self.edges.len() == 0 {
            Vec::new()
        } else {
            split(&mut self.edges)
        };
        let right = Node::from_vecs(r_keys, r_vals, r_edges, self.cap);
        let key = self.keys.pop().unwrap();
        let val = self.vals.pop().unwrap();
        (key, val, right)
    }

    /// Inserts a pair into a leaf at `index`; a full leaf is split first and
    /// the pair goes into the half where `index` falls.
    pub fn insert_as_leaf(&mut self, index: usize, key: u64, value: V) -> (r: InsertionResult<V>)
        requires
            old(self).keys@.len() == old(self).vals@.len(),
            old(self).edges@.len() == 0,
            old(self).keys@.len() <= old(self).cap,
            old(self).cap % 2 == 1,
            index <= old(self).keys@.len(),
        ensures
            final(self).cap == old(self).cap,
            final(self).edges@.len() == 0,
            match r {
                InsertionResult::Fit => {
                    &&& old(self).keys@.len() < old(self).cap
                    &&& final(self).keys@ == old(self).keys@.insert(index as int, key)
                    &&& final(self).vals@ == old(self).vals@.insert(index as int, value)
                },
                InsertionResult::Split(k, v, right) => {
                    let c = (old(self).cap / 2) as int;
                    &&& old(self).keys@.len() == old(self).cap
                    &&& final(self).keys@ + seq![k] + right.keys@ == old(self).keys@.insert(index as int, key)
                    &&& final(self).vals@ + seq![v] + right.vals@ == old(self).vals@.insert(index as int, value)
                    &&& final(self).keys@.len() == (if index <= c { c + 1 } else { c })
                    &&& final(self).vals@.len() == final(self).keys@.len()
                    &&& right.vals@.len() == right.keys@.len()
                    &&& right.edges@.len() == 0
                    &&& right.cap == old(self).cap
                },
            },
    {
        if !self.is_full() {
            self.insert_fit_as_leaf(index, key, value);
            InsertionResult::Fit
        } else {
            let ghost pre = *self;
            let (new_key, new_val, mut new_right) = self.split();
            let left_len = self.len();
            if index <= left_len {
                self.insert_fit_as_leaf(index, key, value);
                proof {
                    assert(self.keys@ + seq![new_key] + new_right.keys@ =~= pre.keys@.insert(index as int, key));
                    assert(self.vals@ + seq![new_val] + new_right.vals@ =~= pre.vals@.insert(index as int, value));
                }
            } else {
                new_right.insert_fit_as_leaf(index - left_len - 1, key, value);
                proof {
                    assert(self.keys@ + seq![new_key] + new_right.keys@ =~= pre.keys@.insert(index as int, key));
                    assert(self.vals@ + seq![new_val] + new_right.vals@ =~= pre.vals@.insert(index as int, value));
                }
            }
            InsertionResult::Split(new_key, new_val, new_right)
        }
    }

    /// Inserts a pair at `index` with `right` as the child just after it; a
    /// full node is split first and the triple goes into the half where
    /// `index` falls.
    pub fn insert_as_internal(&mut self, index: usize, key: u64, value: V, right: Node<V>) -> (r: InsertionResult<V>)
        requires
            old(self).keys@.len() == old(self).vals@.len(),
            old(self).edges@.len() == old(self).keys@.len() + 1,
            old(self).keys@.len() <= old(self).cap,
            old(self).cap % 2 == 1,
            index <= old(self).keys@.len(),
        ensures
            final(self).cap == old(self).cap,
            final(self).edges@.len() == final(self).keys@.len() + 1,
            match r {
                InsertionResult::Fit => {
                    &&& old(self).keys@.len() < old(self).cap
                    &&& final(self).keys@ == old(self).keys@.insert(index as int, key)
                    &&& final(self).vals@ == old(self).vals@.insert(index as int, value)
                    &&& final(self).edges@ == old(self).edges@.insert(index + 1, right)
                },
                InsertionResult::Split(k, v, new_right) => {
                    let c = (old(self).cap / 2) as int;
                    &&& old(self).keys@.len() == old(self).cap
                    &&& final(self).keys@ + seq![k] + new_right.keys@ == old(self).keys@.insert(index as int, key)
                    &&& final(self).vals@ + seq![v] + new_right.vals@ == old(self).vals@.insert(index as int, value)
                    &&& final(self).edges@ + new_right.edges@ == old(self).edges@.insert(index + 1, right)
                    &&& final(self).keys@.len() == (if index <= c { c + 1 } else { c })
                    &&& final(self).vals@.len() == final(self).keys@.len()
                    &&& new_right.vals@.len() == new_right.keys@.len()
                    &&& new_right.edges@.len() == new_right.keys@.len() + 1
                    &&& new_right.cap == old(self).cap
                },
            },
    {
        if !self.is_full() {
            self.insert_fit_as_internal(index, key, value, right);
            InsertionResult::Fit
        } else {
            let ghost pre = *self;
            let (new_key, new_val, mut new_right) = self.split();
            let left_len = self.len();
            if index <= left_len {
                self.insert_fit_as_internal(index, key, value, right);
            } else {
                new_right.insert_fit_as_internal(index - left_len - 1, key, value, right);
            }
            proof {
                assert(self.keys@ + seq![new_key] + new_right.keys@ =~= pre.keys@.insert(index as int, key));
                assert(self.vals@ + seq![new_val] + new_right.vals@ =~= pre.vals@.insert(index as int, value));
                assert(self.edges@ + new_right.edges@ =~= pre.edges@.insert(index + 1, right));
            }
            InsertionResult::Split(new_key, new_val, new_right)
        }
    }

    /// Removes and returns the pair at `index`.
    pub fn remove_as_leaf(&mut self, index: usize) -> (r: (u64, V))
        requires
            index < old(self).keys@.len(),
            old(self).keys@.len() == old(self).vals@.len(),
        ensures
            r == (old(self).keys@[index as int], old(self).vals@[index as int]),
            final(self).keys@ == old(self).keys@.remove(index as int),
            final(self).vals@ == old(self).vals@.remove(index as int),
            final(self).edges == old(self).edges,
            final(self).cap == old(self).cap,
    {
        (self.keys.remove(index), self.vals.remove(index))
    }

    /// Exchanges the pair at `index` with `key` and `val`.
    pub fn swap_pair(&mut self, index: usize, key: &mut u64, val: &mut V)
        requires
            index < old(self).keys@.len(),
            index < old(self).vals@.len(),
        ensures
            final(self).keys@ == old(self).keys@.update(index as int, *old(key)),
            final(self).vals@ == old(self).vals@.update(index as int, *old(val)),
            *final(key) == old(self).keys@[index as int],
            *final(val) == old(self).vals@[index as int],
            final(self).edges == old(self).edges,
            final(self).cap == old(self).cap,
    {
        std::mem::swap(&mut self.keys[index], key);
        std::mem::swap(&mut self.vals[index], val);
    }

    /// Restores the minimum load of child `underflowed_child_index`: by a
    /// rotation from the left sibling where it has a pair to spare, else from
    /// the right sibling where it has one, else by a merge with the left
    /// sibling, or with the right one where there is no left sibling.
    pub fn handle_underflow(&mut self, underflowed_child_index: usize)
        requires
            old(self).shaped(),
            old(self).keys@.len() >= 1,
            old(self).edges@.len() == old(self).keys@.len() + 1,
            underflowed_child_index <= old(self).keys@.len(),
            forall|j: int| 0 <= j < old(self).edges@.len() ==> (#[trigger] old(self).edges@[j]).shaped(),
        ensures
            underflow_handled(*old(self), *final(self), underflowed_child_index as int),
    {
        if underflowed_child_index > 0 {
            self.handle_underflow_to_left(underflowed_child_index);
        } else {
            self.handle_underflow_to_right(underflowed_child_index);
        }
    }

    fn handle_underflow_to_left(&mut self, underflowed_child_index: usize)
        requires
            old(self).shaped(),
            old(self).edges@.len() == old(self).keys@.len() + 1,
            0 < underflowed_child_index <= old(self).keys@.len(),
            forall|j: int| 0 <= j < old(self).edges@.len() ==> (#[trigger] old(self).edges@[j]).shaped(),
        ensures
            underflow_handled(*old(self), *final(self), underflowed_child_index as int),
    {
        let i = underflowed_child_index;
        let min = min_load_from_capacity(self.capacity());
        let left_len = self.edges[i - 1].len();
        if left_len > min {
            self.steal_to_left(i);
        } else if i < self.keys.len() && self.edges[i + 1].len() > min {
            self.steal_to_right(i);
        } else {
            self.merge_children(i - 1);
        }
    }

    fn handle_underflow_to_right(&mut self, underflowed_child_index: usize)
        requires
            old(self).shaped(),
            old(self).edges@.len() == old(self).keys@.len() + 1,
            underflowed_child_index < old(self).keys@.len(),
            forall|j: int| 0 <= j < old(self).edges@.len() ==> (#[trigger] old(self).edges@[j]).shaped(),
        ensures
            ({
                let i = underflowed_child_index as int;
                if old(self).edges@[i + 1].keys@.len() > min_load(old(self).cap as nat) {
                    stole_from_right(*old(self), *final(self), i)
                } else {
                    merged(*old(self), *final(self), i)
                }
            }),
    {
        let n_edges = self.edges.len();
        assert(underflowed_child_index + 1 < n_edges);
        let right_len = self.edges[underflowed_child_index + 1].len();
        if right_len > min_load_from_capacity(self.capacity()) {
            self.steal_to_right(underflowed_child_index);
        } else {
            self.merge_children(underflowed_child_index);
        }
    }

    /// A rotation to the right: child `i - 1` gives its last pair and edge.
    fn steal_to_left(&mut self, underflowed_child_index: usize)
        requires
            old(self).shaped(),
            old(self).edges@.len() == old(self).keys@.len() + 1,
            0 < underflowed_child_index <= old(self).keys@.len(),
            old(self).edges@[underflowed_child_index - 1].shaped(),
            old(self).edges@[underflowed_child_index - 1].keys@.len() >= 1,
        ensures
            stole_from_left(*old(self), *final(self), underflowed_child_index as int),
    {
        let i = underflowed_child_index;
        let ghost pre = *self;
        let (mut key, mut val, edge) = {
            let left = &mut self.edges[i - 1];
            let k = left.keys.pop().unwrap();
            let v = left.vals.pop().unwrap();
            let e = left.edges.pop();
            (k, v, e)
        };
        self.swap_pair(i - 1, &mut key, &mut val);
        let right = &mut self.edges[i];
        right.keys.insert(0, key);
        right.vals.insert(0, val);
        if let Some(edge) = edge {
            right.edges.insert(0, edge);
        }
        proof {
            let post = *self;
            let l = pre.edges@[i - 1];
            let r = pre.edges@[i as int];
            assert(post.edges@[i - 1].keys@ =~= l.keys@.drop_last());
            assert(post.edges@[i - 1].vals@ =~= l.vals@.drop_last());
            assert(post.edges@[i as int].keys@ =~= seq![pre.keys@[i - 1]] + r.keys@);
            assert(post.edges@[i as int].vals@ =~= seq![pre.vals@[i - 1]] + r.vals@);
            if l.edges@.len() == 0 {
            } else {
                assert(post.edges@[i - 1].edges@ =~= l.edges@.drop_last());
                assert(post.edges@[i as int].edges@ =~= seq![l.edges@.last()] + r.edges@);
            }
        }
    }

    /// A rotation to the left: child `i + 1` gives its first pair and edge.
    fn steal_to_right(&mut self, underflowed_child_index: usize)
        requires
            old(self).shaped(),
            old(self).edges@.len() == old(self).keys@.len() + 1,
            underflowed_child_index < old(self).keys@.len(),
            old(self).edges@[underflowed_child_index + 1].shaped(),
            old(self).edges@[underflowed_child_index + 1].keys@.len() >= 1,
        ensures
            stole_from_right(*old(self), *final(self), underflowed_child_index as int),
    {
        let i = underflowed_child_index;
        let ghost pre = *self;
        let n_edges = self.edges.len();
        assert(i + 1 < n_edges);
        let (mut key, mut val, edge) = {
            let right = &mut self.edges[i + 1];
            if right.edges.len() == 0 {
                (right.keys.remove(0), right.vals.remove(0), None)
            } else {
                (right.keys.remove(0), right.vals.remove(0), Some(right.edges.remove(0)))
            }
        };
        self.swap_pair(i, &mut key, &mut val);
        let left = &mut self.edges[i];
        left.keys.push(key);
        left.vals.push(val);
        if let Some(edge) = edge {
            left.edges.push(edge);
        }
    }

    /// Merges child `left_index + 1` and the pair before it into child `left_index`.
    fn merge_children(&mut self, left_index: usize)
        requires
            old(self).shaped(),
            old(self).edges@.len() == old(self).keys@.len() + 1,
            left_index < old(self).keys@.len(),
        ensures
            merged(*old(self), *final(self), left_index as int),
    {
        let ghost pre = *self;
        let n_edges = self.edges.len();
        assert(left_index + 1 < n_edges);
        let key = self.keys.remove(left_index);
        let val = self.vals.remove(left_index);
        let right = self.edges.remove(left_index + 1);
        let left = &mut self.edges[left_index];
        left.absorb(key, val, right);
        proof {
            let post = *self;
            assert forall|j: int| left_index < j < post.edges@.len() implies post.edges@[j] == pre.edges@[j + 1] by {}
        }
    }

    /// Appends `key`, `val` and then all of `right` to this node.
    fn absorb(&mut self, key: u64, val: V, right: Node<V>)
        ensures
            final(self).keys@ == old(self).keys@ + seq![key] + right.keys@,
            final(self).vals@ == old(self).vals@ + seq![val] + right.vals@,
            final(self).edges@ == old(self).edges@ + right.edges@,
            final(self).cap == old(self).cap,
    {
        let mut right = right;
        self.keys.push(key);
        self.vals.push(val);
        self.keys.append(&mut right.keys);
        self.vals.append(&mut right.vals);
        self.edges.append(&mut right.edges);
    }

    /// Position of `key` among the keys, or of the child to descend into.
    pub fn search(&self, key: &u64) -> (r: SearchResult)
        ensures
            match r {
                SearchResult::Found(i) => i < self.keys@.len() && self.keys@[i as int] == *key
                    && forall|j: int| 0 <= j < i ==> self.keys@[j] < *key,
                SearchResult::GoDown(i) => i <= self.keys@.len()
                    && (forall|j: int| 0 <= j < i ==> self.keys@[j] < *key)
                    && (i < self.keys@.len() ==> self.keys@[i as int] > *key),
            },
    {
        self.search_linear(key)
    }

    /// Finds the same position as `search_linear` by halving, on sorted keys.
    pub fn search_binary(&self, key: &u64) -> (r: SearchResult)
        requires
            forall|i: int, j: int| 0 <= i < j < self.keys@.len() ==> self.keys@[i] < self.keys@[j],
        ensures
            match r {
                SearchResult::Found(i) => i < self.keys@.len() && self.keys@[i as int] == *key
                    && forall|j: int| 0 <= j < i ==> self.keys@[j] < *key,
                SearchResult::GoDown(i) => i <= self.keys@.len()
                    && (forall|j: int| 0 <= j < i ==> self.keys@[j] < *key)
                    && (i < self.keys@.len() ==> self.keys@[i as int] > *key),
            },
    {
        let mut lo: usize = 0;
        let mut hi: usize = self.keys.len();
        while lo < hi
            invariant
                lo <= hi <= self.keys@.len(),
                forall|i: int, j: int| 0 <= i < j < self.keys@.len() ==> self.keys@[i] < self.keys@[j],
                forall|j: int| 0 <= j < lo ==> self.keys@[j] < *key,
                forall|j: int| hi <= j < self.keys@.len() ==> self.keys@[j] >= *key,
            decreases hi - lo,
        {
            let m = lo + (hi - lo) / 2;
            if self.keys[m] < *key {
                lo = m + 1;
            } else {
                hi = m;
            }
        }
        if lo < self.keys.len() && self.keys[lo] == *key {
            SearchResult::Found(lo)
        } else {
            SearchResult::GoDown(lo)
        }
    }

    /// Scans the keys in order for the first one not below `key`.
    fn search_linear(&self, key: &u64) -> (r: SearchResult)
        ensures
            match r {
                SearchResult::Found(i) => i < self.keys@.len() && self.keys@[i as int] == *key
                    && forall|j: int| 0 <= j < i ==> self.keys@[j] < *key,
                SearchResult::GoDown(i) => i <= self.keys@.len()
                    && (forall|j: int| 0 <= j < i ==> self.keys@[j] < *key)
                    && (i < self.keys@.len() ==> self.keys@[i as int] > *key),
            },
    {
        let n = self.keys.len();
        let mut i: usize = 0;
        while i < n
            invariant
                n == self.keys@.len(),
                i <= n,
                forall|j: int| 0 <= j < i ==> self.keys@[j] < *key,
            decreases n - i,
        {
            let k = self.keys[i];
            if k == *key {
                return SearchResult::Found(i);
            } else if k > *key {
                return SearchResult::GoDown(i);
            }
            i = i + 1;
        }
        SearchResult::GoDown(n)
    }
}

fn capacity_from_b(b: usize) -> (r: usize)
    requires
        1 <= b <= usize::MAX / 2,
    ensures
        r == 2 * b - 1,
{
    2 * b - 1
}

fn min_load_from_capacity(capacity: usize) -> (r: usize)
    ensures
        r == min_load(capacity as nat),
{
    capacity / 2
}

/// Moves the last `len / 2` elements of `left` into a new vector.
fn split<T>(left: &mut Vec<T>) -> (r: Vec<T>)
    ensures
        final(left)@ == old(left)@.subrange(0, old(left)@.len() - old(left)@.len() / 2),
        r@ == old(left)@.subrange(old(left)@.len() - old(left)@.len() / 2, old(left)@.len() as int),
{
    let len = left.len();
    let right_len = len / 2;
    let left_len = len - right_len;
    left.split_off(left_len)
}

} // verus!
