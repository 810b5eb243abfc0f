use vstd::prelude::*;

use super::lemmas::{
    entries_after, entries_before, lemma_children_at, lemma_children_concat, lemma_children_one, lemma_children_pair,
    lemma_replace_child, lemma_split_child, lemma_underflow_handled, lemma_wf_child,
};
use super::node::{
    children_entries, min_load, sorted_entries, underflow_handled, InsertionResult, Node, SearchResult,
};

verus! {

/// The map that a sequence of entries with distinct keys stands for.
pub open spec fn map_of<V>(s: Seq<(u64, V)>) -> Map<u64, V>
    decreases s.len(),
{
    if s.len() == 0 {
        Map::empty()
    } else {
        map_of(s.drop_last()).insert(s.last().0, s.last().1)
    }
}

/// What `map_of` holds: one key for each entry, with that entry's value
/// where the keys are sorted.
pub proof fn lemma_map_of<V>(s: Seq<(u64, V)>)
    ensures
        map_of(s).dom().finite(),
        forall|k: u64| #[trigger] map_of(s).contains_key(k) <==> exists|i: int| 0 <= i < s.len() && s[i].0 == k,
        sorted_entries(s) ==> map_of(s).dom().len() == s.len(),
        sorted_entries(s) ==> forall|i: int| 0 <= i < s.len() ==> #[trigger] map_of(s)[s[i].0] == s[i].1,
    decreases s.len(),
{
    if s.len() > 0 {
        let d = s.drop_last();
        lemma_map_of(d);
        assert forall|k: u64| #[trigger] map_of(s).contains_key(k) <==> exists|i: int| 0 <= i < s.len() && s[i].0 == k by {
            if map_of(s).contains_key(k) && k != s.last().0 {
                let i = choose|i: int| 0 <= i < d.len() && d[i].0 == k;
                assert(s[i].0 == k);
            }
            if exists|i: int| 0 <= i < s.len() && s[i].0 == k {
                let i = choose|i: int| 0 <= i < s.len() && s[i].0 == k;
                if i < s.len() - 1 {
                    assert(d[i].0 == k);
                }
            }
        }
        if sorted_entries(s) {
            assert(sorted_entries(d));
            assert(!map_of(d).contains_key(s.last().0)) by {
                if map_of(d).contains_key(s.last().0) {
                    let i = choose|i: int| 0 <= i < d.len() && d[i].0 == s.last().0;
                    assert(s[i].0 < s[s.len() - 1].0);
                }
            }
            assert forall|i: int| 0 <= i < s.len() implies #[trigger] map_of(s)[s[i].0] == s[i].1 by {
                if i < s.len() - 1 {
                    assert(s[i].0 < s[s.len() - 1].0);
                    assert(d[i] == s[i]);
                }
            }
        }
    }
}

/// `s` splits into `x`, `mid` and `y`, where all keys of `x` lie below `key`
/// and all keys of `y` above it.
pub open spec fn brackets<V>(s: Seq<(u64, V)>, x: Seq<(u64, V)>, mid: Seq<(u64, V)>, y: Seq<(u64, V)>, key: u64) -> bool {
    &&& s == x + mid + y
    &&& forall|j: int| 0 <= j < x.len() ==> (#[trigger] x[j]).0 < key
    &&& forall|j: int| 0 <= j < y.len() ==> (#[trigger] y[j]).0 > key
}

/// The middle of a sorted sequence is sorted.
proof fn lemma_sorted_mid<V>(x: Seq<(u64, V)>, m: Seq<(u64, V)>, y: Seq<(u64, V)>)
    requires
        sorted_entries(x + m + y),
    ensures
        sorted_entries(m),
{
    let s = x + m + y;
    assert forall|i: int, j: int| 0 <= i < j < m.len() implies #[trigger] m[i].0 < #[trigger] m[j].0 by {
        assert(s[x.len() + i] == m[i]);
        assert(s[x.len() + j] == m[j]);
    }
}

/// Going down into child `i`, where `search` sent a key, brackets that key.
proof fn lemma_descend<V>(n: Node<V>, cap: nat, h: nat, lo: nat, key: u64, i: int)
    requires
        n.wf(cap, h, lo),
        h > 1,
        sorted_entries(n.entries(h)),
        0 <= i <= n.keys@.len(),
        forall|j: int| 0 <= j < i ==> n.keys@[j] < key,
        i < n.keys@.len() ==> n.keys@[i] > key,
    ensures
        brackets(
            n.entries(h),
            entries_before(n.edges@, n.pairs(), (h - 1) as nat, i),
            n.edges@[i].entries((h - 1) as nat),
            entries_after(n.edges@, n.pairs(), (h - 1) as nat, i),
            key,
        ),
{
    let hc = (h - 1) as nat;
    let es = n.edges@;
    let ps = n.pairs();
    let s = n.entries(h);
    let x = entries_before(es, ps, hc, i);
    let mid = es[i].entries(hc);
    let y = entries_after(es, ps, hc, i);
    lemma_children_at(es, ps, hc, i);
    assert(s == x + mid + y);
    assert forall|j: int| 0 <= j < x.len() implies (#[trigger] x[j]).0 < key by {
        let last = x.len() - 1;
        assert(x[last] == ps[i - 1]);
        assert(s[last] == x[last]);
        assert(s[j] == x[j]);
        if j < last {
            assert(s[j].0 < s[last].0);
        }
    }
    assert forall|j: int| 0 <= j < y.len() implies (#[trigger] y[j]).0 > key by {
        let first = (x.len() + mid.len()) as int;
        assert(y[0] == ps[i]);
        assert(s[first] == y[0]);
        assert(s[first + j] == y[j]);
        if j > 0 {
            assert(s[first].0 < s[first + j].0);
        }
    }
}

/// Where in the entries of an internal node its own pair `i` stands.
proof fn lemma_pair_position<V>(n: Node<V>, h: nat, i: int)
    requires
        h > 1,
        n.keys@.len() == n.vals@.len(),
        n.edges@.len() == n.keys@.len() + 1,
        0 <= i < n.keys@.len(),
    ensures
        n.entries(h) == entries_before(n.edges@, n.pairs(), (h - 1) as nat, i) + n.edges@[i].entries(
            (h - 1) as nat,
        ) + seq![n.pairs()[i]] + n.edges@[i + 1].entries((h - 1) as nat) + entries_after(
            n.edges@,
            n.pairs(),
            (h - 1) as nat,
            i + 1,
        ),
{
    lemma_children_pair(n.edges@, n.pairs(), (h - 1) as nat, i);
}

/// `t` is `s` with `(key, value)` put in where its key belongs.
pub open spec fn inserted_in_order<V>(s: Seq<(u64, V)>, t: Seq<(u64, V)>, key: u64, value: V) -> bool {
    exists|p: int|
        0 <= p <= s.len() && (forall|j: int| 0 <= j < p ==> (#[trigger] s[j]).0 < key) && (forall|j: int|
            p <= j < s.len() ==> (#[trigger] s[j]).0 > key) && t == s.insert(p, (key, value))
}

/// `t` is `s` with the value `old_v` of the entry for `key` replaced by `value`.
pub open spec fn replaced_value<V>(s: Seq<(u64, V)>, t: Seq<(u64, V)>, key: u64, value: V, old_v: V) -> bool {
    exists|p: int| 0 <= p < s.len() && s[p].0 == key && s[p].1 == old_v && t == s.update(p, (key, value))
}

/// What a node and the outcome of an insertion into it hold together.
pub open spec fn insertion_entries<V>(n: Node<V>, r: InsertionResult<V>, h: nat) -> Seq<(u64, V)> {
    match r {
        InsertionResult::Fit => n.entries(h),
        InsertionResult::Split(k, v, right) => n.entries(h) + seq![(k, v)] + right.entries(h),
    }
}

/// The pairs of two halves and the pair between them, read off their keys and values.
proof fn lemma_pairs_concat<V>(l: Node<V>, k: u64, v: V, r: Node<V>)
    requires
        l.keys@.len() == l.vals@.len(),
        r.keys@.len() == r.vals@.len(),
    ensures
        l.pairs() + seq![(k, v)] + r.pairs() == Seq::new(
            (l.keys@ + seq![k] + r.keys@).len(),
            |j: int| ((l.keys@ + seq![k] + r.keys@)[j], (l.vals@ + seq![v] + r.vals@)[j]),
        ),
{
    let ks = l.keys@ + seq![k] + r.keys@;
    let vs = l.vals@ + seq![v] + r.vals@;
    let lhs = l.pairs() + seq![(k, v)] + r.pairs();
    let rhs = Seq::new(ks.len(), |j: int| (ks[j], vs[j]));
    assert forall|j: int| 0 <= j < lhs.len() implies lhs[j] == rhs[j] by {
        if j < l.keys@.len() {
            assert(ks[j] == l.keys@[j]);
            assert(vs[j] == l.vals@[j]);
        } else if j == l.keys@.len() {
            assert(ks[j] == k);
            assert(vs[j] == v);
        } else {
            let jj = j - l.keys@.len() - 1;
            assert(ks[j] == r.keys@[jj]);
            assert(vs[j] == r.vals@[jj]);
        }
    }
    assert(lhs =~= rhs);
}

/// Inserting where the key belongs keeps the order and adds the pair to the map.
proof fn lemma_map_inserted<V>(s: Seq<(u64, V)>, t: Seq<(u64, V)>, key: u64, value: V)
    requires
        sorted_entries(s),
        inserted_in_order(s, t, key, value),
    ensures
        sorted_entries(t),
        t.len() == s.len() + 1,
        !map_of(s).contains_key(key),
        map_of(t) == map_of(s).insert(key, value),
{
    let p = choose|p: int|
        0 <= p <= s.len() && (forall|j: int| 0 <= j < p ==> (#[trigger] s[j]).0 < key) && (forall|j: int|
            p <= j < s.len() ==> (#[trigger] s[j]).0 > key) && t == s.insert(p, (key, value));
    assert forall|i: int, j: int| 0 <= i < j < t.len() implies #[trigger] t[i].0 < #[trigger] t[j].0 by {
        if j < p {
        } else if j == p {
        } else if i < p {
            assert(t[j] == s[j - 1]);
        } else if i == p {
            assert(t[j] == s[j - 1]);
        } else {
            assert(t[i] == s[i - 1]);
            assert(t[j] == s[j - 1]);
        }
    }
    lemma_map_of(s);
    lemma_map_of(t);
    assert(!map_of(s).contains_key(key)) by {
        if map_of(s).contains_key(key) {
            let j = choose|j: int| 0 <= j < s.len() && s[j].0 == key;
            if j < p {
            } else {
            }
        }
    }
    assert forall|k: u64| #[trigger] map_of(t).contains_key(k) <==> map_of(s).insert(key, value).contains_key(k) by {
        if map_of(s).contains_key(k) {
            let j = choose|j: int| 0 <= j < s.len() && s[j].0 == k;
            if j < p {
                assert(t[j] == s[j]);
            } else {
                assert(t[j + 1] == s[j]);
            }
        }
        if map_of(t).contains_key(k) && k != key {
            let j = choose|j: int| 0 <= j < t.len() && t[j].0 == k;
            if j < p {
                assert(t[j] == s[j]);
            } else if j > p {
                assert(t[j] == s[j - 1]);
            }
        }
        if k == key {
            assert(t[p].0 == key);
        }
    }
    assert forall|k: u64| #[trigger] map_of(t).contains_key(k) implies map_of(t)[k] == map_of(s).insert(key, value)[k] by {
        let j = choose|j: int| 0 <= j < t.len() && t[j].0 == k;
        assert(map_of(t)[t[j].0] == t[j].1);
        if j < p {
            assert(t[j] == s[j]);
            assert(map_of(s)[s[j].0] == s[j].1);
        } else if j > p {
            assert(t[j] == s[j - 1]);
            assert(map_of(s)[s[j - 1].0] == s[j - 1].1);
        }
    }
    assert(map_of(t) =~= map_of(s).insert(key, value));
}

/// Replacing the value of a present key keeps the order and updates the map.
proof fn lemma_map_replaced<V>(s: Seq<(u64, V)>, t: Seq<(u64, V)>, key: u64, value: V, old_v: V)
    requires
        sorted_entries(s),
        replaced_value(s, t, key, value, old_v),
    ensures
        sorted_entries(t),
        t.len() == s.len(),
        map_of(s).contains_key(key),
        map_of(s)[key] == old_v,
        map_of(t) == map_of(s).insert(key, value),
{
    let p = choose|p: int| 0 <= p < s.len() && s[p].0 == key && s[p].1 == old_v && t == s.update(p, (key, value));
    assert forall|i: int, j: int| 0 <= i < j < t.len() implies #[trigger] t[i].0 < #[trigger] t[j].0 by {
        assert(t[i].0 == s[i].0);
        assert(t[j].0 == s[j].0);
    }
    lemma_map_of(s);
    lemma_map_of(t);
    assert(map_of(s)[s[p].0] == s[p].1);
    assert forall|k: u64| #[trigger] map_of(t).contains_key(k) <==> map_of(s).insert(key, value).contains_key(k) by {
        if map_of(s).contains_key(k) {
            let j = choose|j: int| 0 <= j < s.len() && s[j].0 == k;
            assert(t[j].0 == k);
        }
        if map_of(t).contains_key(k) {
            let j = choose|j: int| 0 <= j < t.len() && t[j].0 == k;
            assert(s[j].0 == k);
        }
    }
    assert forall|k: u64| #[trigger] map_of(t).contains_key(k) implies map_of(t)[k] == map_of(s).insert(key, value)[k] by {
        let j = choose|j: int| 0 <= j < t.len() && t[j].0 == k;
        assert(map_of(t)[t[j].0] == t[j].1);
        if j != p {
            assert(map_of(s)[s[j].0] == s[j].1);
        }
    }
    assert(map_of(t) =~= map_of(s).insert(key, value));
}

/// A subtree of height `h` whose top holds a pair has at least `h` entries.
proof fn lemma_height_entries<V>(n: Node<V>, cap: nat, h: nat, lo: nat)
    requires
        n.wf(cap, h, lo),
        cap >= 3,
        n.keys@.len() >= 1,
    ensures
        n.entries(h).len() >= h,
    decreases h,
{
    if h > 1 {
        let hc = (h - 1) as nat;
        lemma_children_at(n.edges@, n.pairs(), hc, 0);
        lemma_wf_child(n, cap, h, lo, 0);
        lemma_height_entries(n.edges@[0], cap, hc, min_load(cap));
    }
}

/// Replacing the value of pair `i` replaces it among the entries.
proof fn lemma_found_replaced<V>(pre: Node<V>, post: Node<V>, h: nat, i: int, key: u64, value: V)
    requires
        h >= 1,
        pre.keys@.len() == pre.vals@.len(),
        h > 1 ==> pre.edges@.len() == pre.keys@.len() + 1,
        0 <= i < pre.keys@.len(),
        pre.keys@[i] == key,
        post.keys == pre.keys,
        post.edges == pre.edges,
        post.vals@ == pre.vals@.update(i, value),
    ensures
        replaced_value(pre.entries(h), post.entries(h), key, value, pre.vals@[i]),
{
    let s = pre.entries(h);
    let ps = pre.pairs();
    let ps2 = post.pairs();
    assert(ps2 =~= ps.update(i, (key, value)));
    if h > 1 {
        let hc = (h - 1) as nat;
        lemma_pair_position(pre, h, i);
        lemma_pair_position(post, h, i);
        if i > 0 {
            assert(ps2.take(i - 1) =~= ps.take(i - 1));
        }
        if i + 1 < pre.edges@.len() - 1 {
            assert(ps2.skip(i + 2) =~= ps.skip(i + 2));
        }
        let bx = entries_before(pre.edges@, ps, hc, i);
        let ci = pre.edges@[i].entries(hc);
        assert(entries_before(pre.edges@, ps2, hc, i) == bx);
        assert(entries_after(pre.edges@, ps2, hc, i + 1) == entries_after(pre.edges@, ps, hc, i + 1));
        let p = (bx.len() + ci.len()) as int;
        assert(post.entries(h) =~= s.update(p, (key, value)));
        assert(s[p] == ps[i]);
    } else {
        assert(post.entries(h) =~= s.update(i, (key, value)));
    }
}

/// Inserting into a leaf at the place `search` gave keeps the key order.
proof fn lemma_leaf_inserted<V>(
    pre: Node<V>,
    post: Node<V>,
    res: InsertionResult<V>,
    i: int,
    key: u64,
    value: V,
    cap: nat,
    lo: nat,
)
    requires
        pre.wf(cap, 1, lo),
        cap % 2 == 1,
        post.cap == cap,
        post.edges@.len() == 0,
        pre.keys@.len() == pre.vals@.len(),
        sorted_entries(pre.entries(1)),
        0 <= i <= pre.keys@.len(),
        forall|j: int| 0 <= j < i ==> pre.keys@[j] < key,
        i < pre.keys@.len() ==> pre.keys@[i] > key,
        match res {
            InsertionResult::Fit => {
                &&& post.keys@ == pre.keys@.insert(i, key)
                &&& post.vals@ == pre.vals@.insert(i, value)
            },
            InsertionResult::Split(k, v, right) => {
                let c = (cap / 2) as int;
                &&& pre.keys@.len() == cap
                &&& post.keys@ + seq![k] + right.keys@ == pre.keys@.insert(i, key)
                &&& post.vals@ + seq![v] + right.vals@ == pre.vals@.insert(i, value)
                &&& post.keys@.len() == (if i <= c { c + 1 } else { c })
                &&& post.vals@.len() == post.keys@.len()
                &&& right.vals@.len() == right.keys@.len()
                &&& right.edges@.len() == 0
                &&& right.cap == cap
            },
        },
        res is Fit ==> pre.keys@.len() < cap,
    ensures
        inserted_in_order(pre.entries(1), insertion_entries(post, res, 1), key, value),
        match res {
            InsertionResult::Fit => post.wf(cap, 1, lo),
            InsertionResult::Split(k, v, right) => post.wf(cap, 1, min_load(cap)) && right.wf(cap, 1, min_load(cap)),
        },
{
    let s = pre.entries(1);
    assert forall|j: int| i <= j < s.len() implies (#[trigger] s[j]).0 > key by {
        if j > i {
            assert(s[i].0 < s[j].0);
        }
    }
    let t = s.insert(i, (key, value));
    match res {
        InsertionResult::Fit => {
            assert(post.entries(1) =~= t);
        },
        InsertionResult::Split(k, v, right) => {
            lemma_pairs_concat(post, k, v, right);
            assert(post.pairs() + seq![(k, v)] + right.pairs() =~= t);
        },
    }
}

/// Entries `s = bx + cs + ay` bracket `key`; an insertion into `cs` where
/// the key belongs is one into `s`.
proof fn lemma_lift_inserted<V>(
    s: Seq<(u64, V)>,
    bx: Seq<(u64, V)>,
    cs: Seq<(u64, V)>,
    ay: Seq<(u64, V)>,
    ct: Seq<(u64, V)>,
    key: u64,
    value: V,
)
    requires
        brackets(s, bx, cs, ay, key),
        inserted_in_order(cs, ct, key, value),
    ensures
        inserted_in_order(s, bx + ct + ay, key, value),
{
    let p = choose|p: int|
        0 <= p <= cs.len() && (forall|j: int| 0 <= j < p ==> (#[trigger] cs[j]).0 < key) && (forall|j: int|
            p <= j < cs.len() ==> (#[trigger] cs[j]).0 > key) && ct == cs.insert(p, (key, value));
    let q = (bx.len() + p) as int;
    assert(bx + ct + ay =~= s.insert(q, (key, value)));
    assert forall|j: int| 0 <= j < q implies (#[trigger] s[j]).0 < key by {
        if j < bx.len() {
            assert(s[j] == bx[j]);
        } else {
            assert(s[j] == cs[j - bx.len()]);
        }
    }
    assert forall|j: int| q <= j < s.len() implies (#[trigger] s[j]).0 > key by {
        if j < bx.len() + cs.len() {
            assert(s[j] == cs[j - bx.len()]);
        } else {
            assert(s[j] == ay[j - bx.len() - cs.len()]);
        }
    }
}

/// A replacement inside `cs` is one inside `bx + cs + ay`.
proof fn lemma_lift_replaced<V>(
    bx: Seq<(u64, V)>,
    cs: Seq<(u64, V)>,
    ay: Seq<(u64, V)>,
    ct: Seq<(u64, V)>,
    key: u64,
    value: V,
    old_v: V,
)
    requires
        replaced_value(cs, ct, key, value, old_v),
    ensures
        replaced_value(bx + cs + ay, bx + ct + ay, key, value, old_v),
{
    let s = bx + cs + ay;
    let p = choose|p: int| 0 <= p < cs.len() && cs[p].0 == key && cs[p].1 == old_v && ct == cs.update(p, (key, value));
    let q = (bx.len() + p) as int;
    assert(bx + ct + ay =~= s.update(q, (key, value)));
    assert(s[q] == cs[p]);
}

/// After a split of child `i` was taken in, the node (or its two halves)
/// holds the entries of the old node with the child's entries in its place.
proof fn lemma_split_taken_in<V>(
    mid: Node<V>,
    post: Node<V>,
    res: InsertionResult<V>,
    h: nat,
    cap: nat,
    lo: nat,
    i: int,
    k: u64,
    v: V,
    rt: Node<V>,
)
    requires
        h > 1,
        mid.keys@.len() == mid.vals@.len(),
        mid.edges@.len() == mid.keys@.len() + 1,
        0 <= i <= mid.keys@.len(),
        forall|j: int| 0 <= j < mid.edges@.len() ==> (#[trigger] mid.edges@[j]).wf(cap, (h - 1) as nat, min_load(cap)),
        rt.wf(cap, (h - 1) as nat, min_load(cap)),
        post.edges@.len() == post.keys@.len() + 1,
        cap % 2 == 1,
        mid.keys@.len() >= lo,
        mid.keys@.len() <= cap,
        post.cap == cap,
        match res {
            InsertionResult::Fit => {
                &&& mid.keys@.len() < cap
                &&& post.keys@ == mid.keys@.insert(i, k)
                &&& post.vals@ == mid.vals@.insert(i, v)
                &&& post.edges@ == mid.edges@.insert(i + 1, rt)
            },
            InsertionResult::Split(k2, v2, r2) => {
                let c = (cap / 2) as int;
                &&& mid.keys@.len() == cap
                &&& post.keys@.len() == (if i <= c { c + 1 } else { c })
                &&& r2.cap == cap
                &&& post.keys@ + seq![k2] + r2.keys@ == mid.keys@.insert(i, k)
                &&& post.vals@ + seq![v2] + r2.vals@ == mid.vals@.insert(i, v)
                &&& post.edges@ + r2.edges@ == mid.edges@.insert(i + 1, rt)
                &&& post.vals@.len() == post.keys@.len()
                &&& r2.vals@.len() == r2.keys@.len()
                &&& r2.edges@.len() == r2.keys@.len() + 1
            },
        },
    ensures
        insertion_entries(post, res, h) == children_entries(
            mid.edges@.insert(i + 1, rt),
            mid.pairs().insert(i, (k, v)),
            (h - 1) as nat,
        ),
        match res {
            InsertionResult::Fit => post.wf(cap, h, lo),
            InsertionResult::Split(k2, v2, r2) => post.wf(cap, h, min_load(cap)) && r2.wf(cap, h, min_load(cap)),
        },
{
    let hc = (h - 1) as nat;
    let e2 = mid.edges@.insert(i + 1, rt);
    let p2 = mid.pairs().insert(i, (k, v));
    assert forall|j: int| 0 <= j < e2.len() implies (#[trigger] e2[j]).wf(cap, hc, min_load(cap)) by {
        if j < i + 1 {
            assert(e2[j] == mid.edges@[j]);
        } else if j > i + 1 {
            assert(e2[j] == mid.edges@[j - 1]);
        }
    }
    match res {
        InsertionResult::Fit => {
            assert(post.pairs() =~= p2);
            assert forall|j: int| 0 <= j < post.edges@.len() implies (#[trigger] post.edges@[j]).wf(cap, hc, min_load(cap)) by {
                assert(post.edges@[j] == e2[j]);
            }
        },
        InsertionResult::Split(k2, v2, r2) => {
            lemma_pairs_concat(post, k2, v2, r2);
            assert(post.pairs() + seq![(k2, v2)] + r2.pairs() =~= p2);
            lemma_children_concat(post.edges@, post.pairs(), (k2, v2), r2.edges@, r2.pairs(), hc);
            assert forall|j: int| 0 <= j < post.edges@.len() implies (#[trigger] post.edges@[j]).wf(cap, hc, min_load(cap)) by {
                assert(post.edges@[j] == e2[j]);
            }
            assert forall|j: int| 0 <= j < r2.edges@.len() implies (#[trigger] r2.edges@[j]).wf(cap, hc, min_load(cap)) by {
                assert(r2.edges@[j] == e2[post.edges@.len() + j]);
            }
        },
    }
}

/// A node whose child `i` was replaced by a well-formed one stays well-formed.
proof fn lemma_wf_replace_child<V>(pre: Node<V>, post: Node<V>, cap: nat, h: nat, lo: nat, i: int)
    requires
        pre.wf(cap, h, lo),
        h > 1,
        0 <= i < pre.edges@.len(),
        post.keys@.len() == pre.keys@.len(),
        post.vals@.len() == pre.vals@.len(),
        post.cap == pre.cap,
        post.edges@ == pre.edges@.update(i, post.edges@[i]),
        post.edges@[i].wf(cap, (h - 1) as nat, min_load(cap)),
    ensures
        post.wf(cap, h, lo),
{
    assert forall|j: int| 0 <= j < post.edges@.len() implies (#[trigger] post.edges@[j]).wf(cap, (h - 1) as nat, min_load(cap)) by {
        if j != i {
            lemma_wf_child(pre, cap, h, lo, j);
        }
    }
}

/// A node with new values and the same keys and children stays well-formed.
proof fn lemma_wf_same_shape<V>(pre: Node<V>, post: Node<V>, cap: nat, h: nat, lo: nat)
    requires
        pre.wf(cap, h, lo),
        post.keys@.len() == pre.keys@.len(),
        post.vals@.len() == pre.vals@.len(),
        post.cap == pre.cap,
        post.edges == pre.edges,
    ensures
        post.wf(cap, h, lo),
{
    if h > 1 {
        assert forall|j: int| 0 <= j < post.edges@.len() implies (#[trigger] post.edges@[j]).wf(cap, (h - 1) as nat, min_load(cap)) by {
            lemma_wf_child(pre, cap, h, lo, j);
        }
    }
}

/// Inserts into the subtree of height `h` at `node`: replaces the value of
/// an equal key, or else puts the pair into a leaf and passes splits up.
fn insert_rec<V>(
    node: &mut Node<V>,
    key: u64,
    value: V,
    Ghost(cap): Ghost<nat>,
    Ghost(h): Ghost<nat>,
    Ghost(lo): Ghost<nat>,
) -> (r: (Option<V>, InsertionResult<V>))
    requires
        old(node).wf(cap, h, lo),
        cap % 2 == 1,
        cap >= 3,
        sorted_entries(old(node).entries(h)),
    ensures
        match r.0 {
            Some(old_v) => {
                &&& r.1 is Fit
                &&& replaced_value(old(node).entries(h), final(node).entries(h), key, value, old_v)
                &&& final(node).wf(cap, h, lo)
                &&& final(node).keys@ == old(node).keys@
                &&& final(node).edges@.len() == old(node).edges@.len()
            },
            None => {
                &&& inserted_in_order(old(node).entries(h), insertion_entries(*final(node), r.1, h), key, value)
                &&& match r.1 {
                    InsertionResult::Fit => final(node).wf(cap, h, lo),
                    InsertionResult::Split(k, v, right) => {
                        &&& final(node).wf(cap, h, min_load(cap))
                        &&& right.wf(cap, h, min_load(cap))
                    },
                }
            },
        },
    decreases h,
{
    let ghost pre = *node;
    let ghost hc = (h - 1) as nat;
    let ghost min = min_load(cap);
    match node.search(&key) {
        SearchResult::Found(i) => {
            let mut old_v = value;
            std::mem::swap(&mut node.vals[i], &mut old_v);
            proof {
                lemma_found_replaced(pre, *node, h, i as int, key, value);
                lemma_wf_same_shape(pre, *node, cap, h, lo);
            }
            (Some(old_v), InsertionResult::Fit)
        },
        SearchResult::GoDown(i) => {
            if node.is_leaf() {
                let res = node.insert_as_leaf(i, key, value);
                proof {
                    lemma_leaf_inserted(pre, *node, res, i as int, key, value, cap, lo);
                }
                (None, res)
            } else {
                let ghost es = pre.edges@;
                let ghost ps = pre.pairs();
                let ghost bx = entries_before(es, ps, hc, i as int);
                let ghost ay = entries_after(es, ps, hc, i as int);
                let ghost cs = es[i as int].entries(hc);
                proof {
                    lemma_descend(pre, cap, h, lo, key, i as int);
                    lemma_sorted_mid(bx, cs, ay);
                    lemma_wf_child(pre, cap, h, lo, i as int);
                }
                let (r0, res) = insert_rec(&mut node.edges[i], key, value, Ghost(cap), Ghost(hc), Ghost(min));
                let ghost mid = *node;
                let ghost c2 = mid.edges@[i as int];
                proof {
                    assert(mid.edges@ == es.update(i as int, c2));
                    assert(mid.pairs() =~= ps);
                    lemma_replace_child(es, ps, hc, i as int, c2);
                }
                match res {
                    InsertionResult::Fit => {
                        let ghost g0 = r0;
                        proof {
                            lemma_wf_replace_child(pre, mid, cap, h, lo, i as int);
                            match g0 {
                                Some(old_v) => {
                                    lemma_lift_replaced(bx, cs, ay, c2.entries(hc), key, value, old_v);
                                },
                                None => {
                                    lemma_lift_inserted(pre.entries(h), bx, cs, ay, c2.entries(hc), key, value);
                                },
                            }
                        }
                        (r0, InsertionResult::Fit)
                    },
                    InsertionResult::Split(k, v, right) => {
                        let ghost rt = right;
                        proof {
                            assert forall|j: int| 0 <= j < mid.edges@.len() implies (#[trigger] mid.edges@[j]).wf(
                                cap,
                                hc,
                                min,
                            ) by {
                                if j != i {
                                    lemma_wf_child(pre, cap, h, lo, j);
                                }
                            }
                        }
                        let res2 = node.insert_as_internal(i, k, v, right);
                        let ghost gres2 = res2;
                        proof {
                            lemma_split_child(es, ps, hc, i as int, c2, (k, v), rt);
                            lemma_split_taken_in(mid, *node, gres2, h, cap, lo, i as int, k, v, rt);
                            assert(bx + (c2.entries(hc) + seq![(k, v)] + rt.entries(hc)) + ay
                                =~= bx + c2.entries(hc) + seq![(k, v)] + rt.entries(hc) + ay);
                            lemma_lift_inserted(
                                pre.entries(h),
                                bx,
                                cs,
                                ay,
                                c2.entries(hc) + seq![(k, v)] + rt.entries(hc),
                                key,
                                value,
                            );
                        }
                        (None, res2)
                    },
                }
            }
        },
    }
}

/// `lo - 1`, or zero.
pub open spec fn one_less(lo: nat) -> nat {
    if lo > 0 {
        (lo - 1) as nat
    } else {
        0
    }
}

/// `t` is `s` without the entry for `key`, whose value was `v`.
pub open spec fn removed_entry<V>(s: Seq<(u64, V)>, t: Seq<(u64, V)>, key: u64, v: V) -> bool {
    exists|p: int| 0 <= p < s.len() && s[p].0 == key && s[p].1 == v && t == s.remove(p)
}

/// Well-formedness with a smaller lower bound on this node's keys.
proof fn lemma_wf_lo<V>(n: Node<V>, cap: nat, h: nat, lo: nat, lo2: nat)
    requires
        n.wf(cap, h, lo),
        n.keys@.len() >= lo2,
    ensures
        n.wf(cap, h, lo2),
{
    if h > 1 {
        assert forall|j: int| 0 <= j < n.edges@.len() implies (#[trigger] n.edges@[j]).wf(cap, (h - 1) as nat, min_load(cap)) by {
            lemma_wf_child(n, cap, h, lo, j);
        }
    }
}

/// Well-formedness of an internal node from its counts and its children.
proof fn lemma_wf_parts<V>(n: Node<V>, cap: nat, h: nat, lo: nat)
    requires
        h > 1,
        n.cap == cap,
        n.keys@.len() == n.vals@.len(),
        lo <= n.keys@.len() <= cap,
        n.edges@.len() == n.keys@.len() + 1,
        forall|j: int| 0 <= j < n.edges@.len() ==> (#[trigger] n.edges@[j]).wf(cap, (h - 1) as nat, min_load(cap)),
    ensures
        n.wf(cap, h, lo),
{
}

/// After child `u` of a well-formed node lost an entry, the node is ready
/// for the repair of that child.
proof fn lemma_ready_for_repair<V>(pre: Node<V>, mid: Node<V>, cap: nat, h: nat, lo: nat, u: int)
    requires
        pre.wf(cap, h, lo),
        h > 1,
        pre.keys@.len() >= 1,
        0 <= u < pre.edges@.len(),
        mid.keys@.len() == pre.keys@.len(),
        mid.vals@.len() == pre.vals@.len(),
        mid.edges@ == pre.edges@.update(u, mid.edges@[u]),
        mid.edges@[u].wf(cap, (h - 1) as nat, (min_load(cap) - 1) as nat),
    ensures
        mid.shaped(),
        mid.keys@.len() >= 1,
        mid.edges@.len() == mid.keys@.len() + 1,
        forall|j: int| 0 <= j < mid.edges@.len() ==> (#[trigger] mid.edges@[j]).shaped(),
{
    assert forall|j: int| 0 <= j < mid.edges@.len() implies (#[trigger] mid.edges@[j]).shaped() by {
        if j != u {
            lemma_wf_child(pre, cap, h, lo, j);
        }
    }
}

/// A removal inside `cs` is one inside `bx + cs + ay`.
proof fn lemma_lift_removed<V>(bx: Seq<(u64, V)>, cs: Seq<(u64, V)>, ay: Seq<(u64, V)>, ct: Seq<(u64, V)>, key: u64, v: V)
    requires
        removed_entry(cs, ct, key, v),
    ensures
        removed_entry(bx + cs + ay, bx + ct + ay, key, v),
{
    let s = bx + cs + ay;
    let p = choose|p: int| 0 <= p < cs.len() && cs[p].0 == key && cs[p].1 == v && ct == cs.remove(p);
    let q = (bx.len() + p) as int;
    assert(bx + ct + ay =~= s.remove(q));
    assert(s[q] == cs[p]);
}

/// A key bracketed around `cs` and absent from it is absent from all of `s`.
proof fn lemma_lift_absent<V>(s: Seq<(u64, V)>, bx: Seq<(u64, V)>, cs: Seq<(u64, V)>, ay: Seq<(u64, V)>, key: u64)
    requires
        brackets(s, bx, cs, ay, key),
        forall|j: int| 0 <= j < cs.len() ==> cs[j].0 != key,
    ensures
        forall|j: int| 0 <= j < s.len() ==> s[j].0 != key,
{
    assert forall|j: int| 0 <= j < s.len() implies s[j].0 != key by {
        if j < bx.len() {
            assert(s[j] == bx[j]);
        } else if j < bx.len() + cs.len() {
            assert(s[j] == cs[j - bx.len()]);
        } else {
            assert(s[j] == ay[j - bx.len() - cs.len()]);
        }
    }
}

/// After child `u` of a well-formed node lost an entry, the node, repaired
/// where the child fell under its minimum, keeps its entries and loses at
/// most one pair.
proof fn lemma_child_shrunk<V>(pre: Node<V>, mid: Node<V>, post: Node<V>, cap: nat, h: nat, lo: nat, u: int, repaired: bool)
    requires
        pre.wf(cap, h, lo),
        h > 1,
        cap % 2 == 1,
        cap >= 3,
        pre.keys@.len() >= 1,
        0 <= u < pre.edges@.len(),
        mid.keys@.len() == pre.keys@.len(),
        mid.vals@.len() == pre.vals@.len(),
        mid.cap == pre.cap,
        mid.edges@ == pre.edges@.update(u, mid.edges@[u]),
        mid.edges@[u].wf(cap, (h - 1) as nat, (min_load(cap) - 1) as nat),
        repaired == (mid.edges@[u].keys@.len() < min_load(cap)),
        repaired ==> underflow_handled(mid, post, u),
        !repaired ==> post == mid,
    ensures
        post.entries(h) == mid.entries(h),
        post.wf(cap, h, one_less(lo)),
{
    let hc = (h - 1) as nat;
    assert forall|j: int| 0 <= j < mid.edges@.len() && j != u implies (#[trigger] mid.edges@[j]).wf(cap, hc, min_load(cap)) by {
        lemma_wf_child(pre, cap, h, lo, j);
    }
    if repaired {
        lemma_underflow_handled(mid, post, u, h, cap);
        lemma_wf_parts(post, cap, h, one_less(lo));
    } else {
        lemma_wf_lo(mid.edges@[u], cap, hc, (min_load(cap) - 1) as nat, min_load(cap));
        lemma_wf_replace_child(pre, mid, cap, h, lo, u);
        lemma_wf_lo(mid, cap, h, lo, one_less(lo));
    }
}

/// Takes out the least entry of the subtree of height `h` at `node`.
fn pop_first<V>(node: &mut Node<V>, Ghost(cap): Ghost<nat>, Ghost(h): Ghost<nat>, Ghost(lo): Ghost<nat>) -> (r: (u64, V))
    requires
        old(node).wf(cap, h, lo),
        cap % 2 == 1,
        cap >= 3,
        old(node).keys@.len() >= 1,
    ensures
        old(node).entries(h).len() >= 1,
        r == old(node).entries(h)[0],
        final(node).entries(h) == old(node).entries(h).remove(0),
        final(node).wf(cap, h, one_less(lo)),
    decreases h,
{
    let ghost pre = *node;
    let ghost hc = (h - 1) as nat;
    let ghost min = min_load(cap);
    if node.is_leaf() {
        let (k, v) = node.remove_as_leaf(0);
        proof {
            assert(node.pairs() =~= pre.pairs().remove(0));
            lemma_wf_lo(pre, cap, h, lo, one_less(lo));
        }
        (k, v)
    } else {
        proof {
            lemma_wf_child(pre, cap, h, lo, 0);
        }
        let r = pop_first(&mut node.edges[0], Ghost(cap), Ghost(hc), Ghost(min));
        let ghost mid = *node;
        proof {
            let es = pre.edges@;
            let ps = pre.pairs();
            assert(mid.edges@ == es.update(0, mid.edges@[0]));
            assert(mid.pairs() =~= ps);
            lemma_children_at(es, ps, hc, 0);
            lemma_replace_child(es, ps, hc, 0, mid.edges@[0]);
            let cs = es[0].entries(hc);
            let ay = entries_after(es, ps, hc, 0);
            assert(entries_before(es, ps, hc, 0) =~= Seq::<(u64, V)>::empty());
            assert(pre.entries(h) =~= cs + ay);
            assert(mid.entries(h) =~= cs.remove(0) + ay);
            assert(cs.remove(0) + ay =~= (cs + ay).remove(0));
        }
        let repaired = node.edges[0].is_underfull();
        proof {
            lemma_ready_for_repair(pre, mid, cap, h, lo, 0);
        }
        if repaired {
            node.handle_underflow(0);
        }
        proof {
            lemma_child_shrunk(pre, mid, *node, cap, h, lo, 0, repaired);
        }
        r
    }
}

/// Removal of pair `i` of an internal node, whose place the least entry of
/// the next child took.
proof fn lemma_removed_via_successor<V>(pre: Node<V>, mid: Node<V>, h: nat, i: int)
    requires
        h > 1,
        pre.keys@.len() == pre.vals@.len(),
        pre.edges@.len() == pre.keys@.len() + 1,
        0 <= i < pre.keys@.len(),
        pre.edges@[i + 1].entries((h - 1) as nat).len() >= 1,
        mid.edges@ == pre.edges@.update(i + 1, mid.edges@[i + 1]),
        mid.edges@[i + 1].entries((h - 1) as nat) == pre.edges@[i + 1].entries((h - 1) as nat).remove(0),
        mid.keys@.len() == pre.keys@.len(),
        mid.pairs() == pre.pairs().update(i, pre.edges@[i + 1].entries((h - 1) as nat)[0]),
        mid.keys@.len() == mid.vals@.len(),
    ensures
        removed_entry(pre.entries(h), mid.entries(h), pre.keys@[i], pre.vals@[i]),
{
    let hc = (h - 1) as nat;
    let es = pre.edges@;
    let ps = pre.pairs();
    let es2 = mid.edges@;
    let ps2 = mid.pairs();
    lemma_pair_position(pre, h, i);
    lemma_pair_position(mid, h, i);
    if i > 0 {
        assert(es2.take(i) =~= es.take(i));
        assert(ps2.take(i - 1) =~= ps.take(i - 1));
    }
    if i + 1 < es.len() - 1 {
        assert(es2.skip(i + 2) =~= es.skip(i + 2));
        assert(ps2.skip(i + 2) =~= ps.skip(i + 2));
    }
    let bx = entries_before(es, ps, hc, i);
    let ci = es[i].entries(hc);
    let cn = es[i + 1].entries(hc);
    let ay = entries_after(es, ps, hc, i + 1);
    assert(entries_before(es2, ps2, hc, i) == bx);
    assert(entries_after(es2, ps2, hc, i + 1) == ay);
    assert(es2[i] == es[i]);
    let p = (bx.len() + ci.len()) as int;
    let s = pre.entries(h);
    assert(mid.entries(h) == bx + ci + seq![cn[0]] + cn.remove(0) + ay);
    assert(seq![cn[0]] + cn.remove(0) =~= cn);
    assert(mid.entries(h) =~= s.remove(p));
    assert(s[p] == ps[i]);
}

/// Removes `key` from the subtree of height `h` at `node`, if it is there.
fn remove_rec<V>(
    node: &mut Node<V>,
    key: &u64,
    Ghost(cap): Ghost<nat>,
    Ghost(h): Ghost<nat>,
    Ghost(lo): Ghost<nat>,
) -> (r: Option<V>)
    requires
        old(node).wf(cap, h, lo),
        cap % 2 == 1,
        cap >= 3,
        h > 1 ==> old(node).keys@.len() >= 1,
        sorted_entries(old(node).entries(h)),
    ensures
        match r {
            None => {
                &&& forall|j: int| 0 <= j < old(node).entries(h).len() ==> old(node).entries(h)[j].0 != *key
                &&& final(node).entries(h) == old(node).entries(h)
                &&& final(node).wf(cap, h, lo)
            },
            Some(v) => {
                &&& removed_entry(old(node).entries(h), final(node).entries(h), *key, v)
                &&& final(node).wf(cap, h, one_less(lo))
            },
        },
    decreases h,
{
    let ghost pre = *node;
    let ghost s = pre.entries(h);
    let ghost hc = (h - 1) as nat;
    let ghost min = min_load(cap);
    match node.search(key) {
        SearchResult::Found(i) => {
            if node.is_leaf() {
                let (_k, v) = node.remove_as_leaf(i);
                proof {
                    assert(node.entries(h) =~= s.remove(i as int));
                    lemma_wf_lo(pre, cap, h, lo, one_less(lo));
                }
                Some(v)
            } else {
                proof {
                    lemma_wf_child(pre, cap, h, lo, i + 1);
                }
                let (mut k2, mut v2) = pop_first(&mut node.edges[i + 1], Ghost(cap), Ghost(hc), Ghost(min));
                node.swap_pair(i, &mut k2, &mut v2);
                let ghost mid = *node;
                proof {
                    assert(mid.pairs() =~= pre.pairs().update(i as int, pre.edges@[i + 1].entries(hc)[0]));
                    lemma_removed_via_successor(pre, mid, h, i as int);
                }
                let repaired = node.edges[i + 1].is_underfull();
                proof {
                    lemma_ready_for_repair(pre, mid, cap, h, lo, i + 1);
                }
                if repaired {
                    node.handle_underflow(i + 1);
                }
                proof {
                    lemma_child_shrunk(pre, mid, *node, cap, h, lo, i + 1, repaired);
                }
                Some(v2)
            }
        },
        SearchResult::GoDown(i) => {
            if node.is_leaf() {
                proof {
                    assert forall|j: int| 0 <= j < s.len() implies s[j].0 != *key by {
                        if j > i {
                            assert(s[i as int].0 < s[j].0);
                        }
                    }
                }
                return None;
            }
            let ghost es = pre.edges@;
            let ghost ps = pre.pairs();
            let ghost bx = entries_before(es, ps, hc, i as int);
            let ghost ay = entries_after(es, ps, hc, i as int);
            let ghost cs = es[i as int].entries(hc);
            proof {
                lemma_descend(pre, cap, h, lo, *key, i as int);
                lemma_sorted_mid(bx, cs, ay);
                lemma_wf_child(pre, cap, h, lo, i as int);
            }
            let r = remove_rec(&mut node.edges[i], key, Ghost(cap), Ghost(hc), Ghost(min));
            let ghost mid = *node;
            proof {
                assert(mid.edges@ == es.update(i as int, mid.edges@[i as int]));
                assert(mid.pairs() =~= ps);
                lemma_replace_child(es, ps, hc, i as int, mid.edges@[i as int]);
            }
            match r {
                None => {
                    proof {
                        lemma_lift_absent(s, bx, cs, ay, *key);
                        lemma_wf_replace_child(pre, mid, cap, h, lo, i as int);
                    }
                    None
                },
                Some(v) => {
                    proof {
                        lemma_lift_removed(bx, cs, ay, mid.edges@[i as int].entries(hc), *key, v);
                    }
                    let repaired = node.edges[i].is_underfull();
                    proof {
                        lemma_ready_for_repair(pre, mid, cap, h, lo, i as int);
                    }
                    if repaired {
                        node.handle_underflow(i);
                    }
                    proof {
                        lemma_child_shrunk(pre, mid, *node, cap, h, lo, i as int, repaired);
                    }
                    Some(v)
                },
            }
        },
    }
}

/// Removing an entry keeps the order and removes its key from the map.
proof fn lemma_map_removed<V>(s: Seq<(u64, V)>, t: Seq<(u64, V)>, key: u64, v: V)
    requires
        sorted_entries(s),
        removed_entry(s, t, key, v),
    ensures
        sorted_entries(t),
        t.len() + 1 == s.len(),
        map_of(s).contains_key(key),
        map_of(s)[key] == v,
        map_of(t) == map_of(s).remove(key),
{
    let p = choose|p: int| 0 <= p < s.len() && s[p].0 == key && s[p].1 == v && t == s.remove(p);
    assert forall|i: int, j: int| 0 <= i < j < t.len() implies #[trigger] t[i].0 < #[trigger] t[j].0 by {
        let si = if i < p { i } else { i + 1 };
        let sj = if j < p { j } else { j + 1 };
        assert(t[i] == s[si]);
        assert(t[j] == s[sj]);
    }
    lemma_map_of(s);
    lemma_map_of(t);
    assert(map_of(s)[s[p].0] == s[p].1);
    assert forall|k: u64| #[trigger] map_of(t).contains_key(k) <==> map_of(s).remove(key).contains_key(k) by {
        if map_of(s).contains_key(k) && k != key {
            let j = choose|j: int| 0 <= j < s.len() && s[j].0 == k;
            if j < p {
                assert(t[j] == s[j]);
            } else {
                assert(t[j - 1] == s[j]);
            }
        }
        if map_of(t).contains_key(k) {
            let j = choose|j: int| 0 <= j < t.len() && t[j].0 == k;
            let sj = if j < p { j } else { j + 1 };
            assert(t[j] == s[sj]);
            if k == key {
                if sj < p {
                    assert(s[sj].0 < s[p].0);
                } else {
                    assert(s[p].0 < s[sj].0);
                }
            }
        }
    }
    assert forall|k: u64| #[trigger] map_of(t).contains_key(k) implies map_of(t)[k] == map_of(s).remove(key)[k] by {
        let j = choose|j: int| 0 <= j < t.len() && t[j].0 == k;
        let sj = if j < p { j } else { j + 1 };
        assert(t[j] == s[sj]);
        assert(map_of(t)[t[j].0] == t[j].1);
        assert(map_of(s)[s[sj].0] == s[sj].1);
    }
    assert(map_of(t) =~= map_of(s).remove(key));
}

/// `base` raised to `e`.
pub open spec fn power(base: nat, e: nat) -> nat
    decreases e,
{
    if e == 0 {
        1
    } else {
        base * power(base, (e - 1) as nat)
    }
}

/// Children with at most `bound - 1` entries each, and the pairs between
/// them, hold fewer than `es.len() * bound` entries.
proof fn lemma_children_bound<V>(es: Seq<Node<V>>, ps: Seq<(u64, V)>, h: nat, bound: nat)
    requires
        ps.len() + 1 == es.len(),
        es.len() >= 1,
        forall|j: int| 0 <= j < es.len() ==> (#[trigger] es[j]).entries(h).len() + 1 <= bound,
    ensures
        children_entries(es, ps, h).len() + 1 <= es.len() * bound,
    decreases es.len(),
{
    if es.len() == 1 {
        lemma_children_one(es, ps, h);
    } else {
        let d = es.drop_last();
        assert forall|j: int| 0 <= j < d.len() implies (#[trigger] d[j]).entries(h).len() + 1 <= bound by {
            assert(d[j] == es[j]);
        }
        lemma_children_bound(d, ps.drop_last(), h, bound);
        assert(es.last().entries(h).len() + 1 <= bound);
        let n = es.len() as int;
        assert((n - 1) * bound + bound == n * bound) by (nonlinear_arith);
    }
}

/// A subtree of height `h` with at most `cap` keys per node holds fewer than
/// `(cap + 1)^h` entries.
proof fn lemma_entries_bound<V>(n: Node<V>, cap: nat, h: nat, lo: nat)
    requires
        n.wf(cap, h, lo),
    ensures
        n.entries(h).len() + 1 <= power(cap + 1, h),
    decreases h,
{
    if h == 1 {
        assert(power(cap + 1, 0) == 1);
        assert(power(cap + 1, 1) == (cap + 1) * power(cap + 1, 0));
    } else {
        let hc = (h - 1) as nat;
        let bound = power(cap + 1, hc);
        let es = n.edges@;
        assert forall|j: int| 0 <= j < es.len() implies (#[trigger] es[j]).entries(hc).len() + 1 <= bound by {
            lemma_wf_child(n, cap, h, lo, j);
            lemma_entries_bound(es[j], cap, hc, min_load(cap));
        }
        lemma_children_bound(es, n.pairs(), hc, bound);
        let k = es.len() as int;
        let c = (cap + 1) as int;
        assert(k <= c);
        assert(k * bound <= c * bound) by (nonlinear_arith)
            requires
                k <= c,
                bound >= 0,
        ;
    }
}

/// A new root over two halves of height `h` and the pair between them.
proof fn lemma_grown_root<V>(root: Node<V>, left: Node<V>, right: Node<V>, k: u64, v: V, cap: nat, h: nat)
    requires
        root.keys@ == seq![k],
        root.vals@ == seq![v],
        root.edges@ == seq![left, right],
        root.cap == cap,
        cap >= 1,
        h >= 1,
        left.wf(cap, h, min_load(cap)),
        right.wf(cap, h, min_load(cap)),
    ensures
        root.entries(h + 1) == left.entries(h) + seq![(k, v)] + right.entries(h),
        root.wf(cap, h + 1, 1),
{
    assert(root.pairs() =~= seq![(k, v)]);
    assert(root.edges@ =~= seq![left] + seq![right]);
    assert(seq![(k, v)] =~= Seq::<(u64, V)>::empty() + seq![(k, v)] + Seq::<(u64, V)>::empty());
    lemma_children_concat(seq![left], Seq::empty(), (k, v), seq![right], Seq::empty(), h);
    lemma_children_one(seq![left], Seq::<(u64, V)>::empty(), h);
    lemma_children_one(seq![right], Seq::<(u64, V)>::empty(), h);
    assert forall|j: int| 0 <= j < root.edges@.len() implies (#[trigger] root.edges@[j]).wf(cap, h, min_load(cap)) by {
        if j == 0 {
            assert(root.edges@[j] == left);
        } else {
            assert(root.edges@[j] == right);
        }
    }
}

/// An ordered map from `u64` keys, kept as a B-tree of branching factor `b`:
/// every node but the root holds between `b - 1` and `2b - 1` keys.
pub struct BTreeMap<V> {
    root: Node<V>,
    length: usize,
    depth: usize,
    b: usize,
}

impl<V> View for BTreeMap<V> {
    type V = Map<u64, V>;

    closed spec fn view(&self) -> Map<u64, V> {
        map_of(self.entries())
    }
}

impl<V> BTreeMap<V> {
    /// All entries in key order.
    pub closed spec fn entries(&self) -> Seq<(u64, V)> {
        self.root.entries(self.depth as nat)
    }

    /// The root of the tree.
    pub closed spec fn root_node(&self) -> Node<V> {
        self.root
    }

    /// The number of levels, from the root to the leaves.
    pub closed spec fn height(&self) -> nat {
        self.depth as nat
    }

    /// The branching factor `b`.
    pub closed spec fn branching(&self) -> nat {
        self.b as nat
    }

    /// Node capacity `2b - 1`.
    pub open spec fn node_capacity(&self) -> nat {
        (2 * self.branching() - 1) as nat
    }

    /// The tree is balanced and ordered, and the stored length counts its entries.
    pub closed spec fn wf(&self) -> bool {
        &&& 2 <= self.b <= usize::MAX / 2
        &&& self.root.wf(self.node_capacity(), self.depth as nat, 0)
        &&& (self.depth > 1 ==> self.root.keys@.len() >= 1)
        &&& sorted_entries(self.entries())
        &&& self.length == self.entries().len()
    }

    /// Makes a new empty map with branching factor 6.
    pub fn new() -> (r: BTreeMap<V>)
        ensures
            r.wf(),
            r@ == Map::<u64, V>::empty(),
            r.branching() == 6,
            r.height() == 1,
            r.root_node().is_empty_leaf(r.node_capacity()),
    {
        BTreeMap::with_b(6)
    }

    /// Makes a new empty map with branching factor `b`.
    pub fn with_b(b: usize) -> (r: BTreeMap<V>)
        requires
            b > 1,
            b <= usize::MAX / 2,
        ensures
            r.wf(),
            r@ == Map::<u64, V>::empty(),
            r.branching() == b,
            r.height() == 1,
            r.root_node().is_empty_leaf(r.node_capacity()),
    {
        let r = BTreeMap { length: 0, depth: 1, root: Node::make_leaf_root(b), b };
        proof {
            assert(r.entries() =~= Seq::<(u64, V)>::empty());
            assert(r@ =~= Map::<u64, V>::empty());
        }
        r
    }

    /// Inserts `key` with `value`; returns the value it replaced, if any.
    pub fn insert(&mut self, key: u64, value: V) -> (r: Option<V>)
        requires
            old(self).wf(),
            old(self)@.len() < usize::MAX,
        ensures
            final(self).wf(),
            final(self)@ == old(self)@.insert(key, value),
            r == (if old(self)@.contains_key(key) { Some(old(self)@[key]) } else { None }),
            final(self).branching() == old(self).branching(),
            old(self)@.contains_key(key) ==> {
                &&& final(self).height() == old(self).height()
                &&& final(self).root_node().keys@ == old(self).root_node().keys@
                &&& final(self).root_node().edges@.len() == old(self).root_node().edges@.len()
                &&& final(self).entries().len() == old(self).entries().len()
            },
            !old(self)@.contains_key(key) ==> {
                ||| final(self).height() == old(self).height()
                ||| {
                    &&& final(self).height() == old(self).height() + 1
                    &&& final(self).root_node().keys@.len() == 1
                    &&& final(self).root_node().edges@.len() == 2
                }
            },
    {
        let ghost cap = self.node_capacity();
        let ghost s = self.entries();
        proof {
            lemma_map_of(s);
            if self.depth > 1 {
                lemma_height_entries(self.root, cap, self.depth as nat, 0);
            }
        }
        let ghost root_lo: nat = if self.depth > 1 { 1 } else { 0 };
        let (r, res) = insert_rec(&mut self.root, key, value, Ghost(cap), Ghost(self.depth as nat), Ghost(root_lo));
        let ghost g = res;
        let ghost left = self.root;
        match res {
            InsertionResult::Fit => {},
            InsertionResult::Split(k, v, right) => {
                Node::make_internal_root(&mut self.root, self.b, k, v, right);
                self.depth = self.depth + 1;
                proof {
                    lemma_grown_root(self.root, left, right, k, v, cap, (self.depth - 1) as nat);
                }
            },
        }
        let ghost t = self.entries();
        match r {
            Some(_) => {
                proof {
                    let old_v = r->Some_0;
                    lemma_map_replaced(s, t, key, value, old_v);
                }
            },
            None => {
                proof {
                    lemma_map_inserted(s, t, key, value);
                }
                self.length = self.length + 1;
            },
        }
        r
    }

    /// The number of entries.
    pub fn len(&self) -> (r: usize)
        requires
            self.wf(),
        ensures
            r == self@.len(),
    {
        proof {
            lemma_map_of(self.entries());
        }
        self.length
    }

    /// The number of levels, from the root to the leaves.
    pub fn depth(&self) -> (r: usize)
        ensures
            r == self.height(),
    {
        self.depth
    }

    /// The root node.
    pub fn root(&self) -> (r: &Node<V>)
        ensures
            *r == self.root_node(),
    {
        &self.root
    }

    /// Removes `key`; returns its value, if it was there. A map without
    /// `key` is left untouched.
    pub fn remove(&mut self, key: &u64) -> (r: Option<V>)
        requires
            old(self).wf(),
        ensures
            final(self).wf(),
            final(self)@ == old(self)@.remove(*key),
            r == (if old(self)@.contains_key(*key) { Some(old(self)@[*key]) } else { None }),
            !old(self)@.contains_key(*key) ==> *final(self) == *old(self),
            final(self).height() == old(self).height() || final(self).height() + 1 == old(self).height(),
            final(self).branching() == old(self).branching(),
    {
        if self.find(key).is_none() {
            return None;
        }
        let ghost cap = self.node_capacity();
        let ghost s = self.entries();
        let ghost h = self.depth as nat;
        proof {
            lemma_map_of(s);
        }
        let ghost root_lo: nat = if self.depth > 1 { 1 } else { 0 };
        let r = remove_rec(&mut self.root, key, Ghost(cap), Ghost(h), Ghost(root_lo));
        let ghost t = self.root.entries(h);
        match r {
            None => {
                proof {
                    assert(self@ =~= map_of(s).remove(*key));
                }
            },
            Some(_) => {
                proof {
                    lemma_map_removed(s, t, *key, r->Some_0);
                }
                self.length = self.length - 1;
                if self.root.len() == 0 && !self.root.is_leaf() {
                    let ghost pre_root = self.root;
                    let child = self.root.pop_edge().unwrap();
                    self.root = child;
                    self.depth = self.depth - 1;
                    proof {
                        assert(pre_root.edges@.len() == 1);
                        assert(pre_root.edges@ =~= seq![child]);
                        lemma_children_one(pre_root.edges@, pre_root.pairs(), (h - 1) as nat);
                        lemma_wf_child(pre_root, cap, h, 0, 0);
                        lemma_wf_lo(child, cap, (h - 1) as nat, min_load(cap), 0);
                    }
                }
            },
        }
        r
    }

    /// The value stored for `key`, if any.
    pub fn find(&self, key: &u64) -> (r: Option<&V>)
        requires
            self.wf(),
        ensures
            r == (if self@.contains_key(*key) { Some(&self@[*key]) } else { None }),
    {
        let ghost cap = self.node_capacity();
        let ghost s = self.entries();
        proof {
            lemma_map_of(s);
        }
        let mut cur = &self.root;
        let ghost mut h: nat = self.depth as nat;
        let ghost mut lo: nat = 0;
        let ghost mut x: Seq<(u64, V)> = Seq::empty();
        let ghost mut y: Seq<(u64, V)> = Seq::empty();
        proof {
            assert(s =~= x + cur.entries(h) + y);
        }
        loop
            invariant
                cur.wf(cap, h, lo),
                sorted_entries(s),
                brackets(s, x, cur.entries(h), y, *key),
                s == self.entries(),
                map_of(s) == self@,
                map_of(s).dom().finite(),
                forall|k: u64| #[trigger] map_of(s).contains_key(k) <==> exists|i: int| 0 <= i < s.len() && s[i].0 == k,
                forall|i: int| 0 <= i < s.len() ==> #[trigger] map_of(s)[s[i].0] == s[i].1,
            decreases h,
        {
            let ghost cs = cur.entries(h);
            proof {
                lemma_sorted_mid(x, cs, y);
            }
            match cur.search(key) {
                SearchResult::Found(i) => {
                    proof {
                        let pos: int;
                        if h > 1 {
                            lemma_pair_position(*cur, h, i as int);
                            pos = (x.len() + entries_before(cur.edges@, cur.pairs(), (h - 1) as nat, i as int).len()
                                + cur.edges@[i as int].entries((h - 1) as nat).len()) as int;
                        } else {
                            pos = (x.len() + i) as int;
                        }
                        assert(s[pos] == cur.pairs()[i as int]);
                        assert(map_of(s)[s[pos].0] == s[pos].1);
                        assert(self@.contains_key(*key));
                    }
                    return Some(&cur.vals[i]);
                },
                SearchResult::GoDown(i) => {
                    if cur.is_leaf() {
                        proof {
                            assert forall|j: int| 0 <= j < s.len() implies s[j].0 != *key by {
                                if x.len() <= j < x.len() + cs.len() {
                                    let jj = j - x.len();
                                    assert(cs[jj] == s[j]);
                                    if jj < i {
                                        assert(cur.keys@[jj] < *key);
                                    } else {
                                        assert(cs[i as int].0 > *key);
                                        assert(cs[i as int].0 <= cs[jj].0);
                                    }
                                } else if j >= x.len() + cs.len() {
                                    assert(y[j - x.len() - cs.len()] == s[j]);
                                } else {
                                    assert(x[j] == s[j]);
                                }
                            }
                        }
                        return None;
                    }
                    proof {
                        lemma_descend(*cur, cap, h, lo, *key, i as int);
                        let hc = (h - 1) as nat;
                        let bx = entries_before(cur.edges@, cur.pairs(), hc, i as int);
                        let ay = entries_after(cur.edges@, cur.pairs(), hc, i as int);
                        let nx = x + bx;
                        let ny = ay + y;
                        assert(s =~= nx + cur.edges@[i as int].entries(hc) + ny);
                        assert forall|j: int| 0 <= j < nx.len() implies (#[trigger] nx[j]).0 < *key by {
                            if j >= x.len() {
                                assert(nx[j] == bx[j - x.len()]);
                            }
                        }
                        assert forall|j: int| 0 <= j < ny.len() implies (#[trigger] ny[j]).0 > *key by {
                            if j >= ay.len() {
                                assert(ny[j] == y[j - ay.len()]);
                            }
                        }
                        x = nx;
                        y = ny;
                        h = hc;
                        lo = min_load(cap);
                    }
                    cur = &cur.edges[i];
                },
            }
        }
    }
}

impl<V> Default for BTreeMap<V> {
    fn default() -> (r: Self)
        ensures
            r.wf(),
            r@ == Map::<u64, V>::empty(),
            r.branching() == 6,
    {
        Self::new()
    }
}

/// How the root and the height of a well-formed map stand to its contents:
/// the map is empty exactly when the root is an empty leaf, the root is a
/// leaf exactly at height one, an internal root holds a key, and a map of
/// height `h` with branching factor `b` holds fewer than `(2b)^h` entries.
pub proof fn lemma_root_shape<V>(m: &BTreeMap<V>)
    requires
        m.wf(),
    ensures
        m.entries() == m.root_node().entries(m.height()),
        m.height() >= 1,
        m@.len() == 0 <==> (m.root_node().keys@.len() == 0 && m.root_node().edges@.len() == 0),
        m.height() == 1 <==> m.root_node().edges@.len() == 0,
        m.height() > 1 ==> m.root_node().keys@.len() >= 1,
        m@.len() < power(2 * m.branching(), m.height()),
{
    let cap = m.node_capacity();
    lemma_map_of(m.entries());
    if m.height() > 1 {
        lemma_height_entries(m.root_node(), cap, m.height(), 0);
    }
    lemma_entries_bound(m.root_node(), cap, m.height(), 0);
}

/// Every well-formed map, which each operation keeps well-formed, lists its
/// entries in strictly increasing key order, and they are exactly its view.
pub proof fn lemma_in_order<V>(m: &BTreeMap<V>)
    requires
        m.wf(),
    ensures
        sorted_entries(m.entries()),
        m@ == map_of(m.entries()),
        m@.len() == m.entries().len(),
        forall|i: int| 0 <= i < m.entries().len() ==> #[trigger] m@[m.entries()[i].0] == m.entries()[i].1,
{
    lemma_map_of(m.entries());
}

/// After `key` is inserted with `value`, finding `key` yields `value`.
pub proof fn lemma_round_trip<V>(pre: &BTreeMap<V>, post: &BTreeMap<V>, key: u64, value: V)
    requires
        post@ == pre@.insert(key, value),
    ensures
        post@.contains_key(key),
        post@[key] == value,
{
}

/// The view after the operations `ops` in order: `(k, Some(v))` inserts `k`
/// with `v`, `(k, None)` removes `k`, as `insert` and `remove` do.
pub open spec fn after_ops<V>(m: Map<u64, V>, ops: Seq<(u64, Option<V>)>) -> Map<u64, V>
    decreases ops.len(),
{
    if ops.len() == 0 {
        m
    } else {
        let op = ops.last();
        let before = after_ops(m, ops.drop_last());
        match op.1 {
            Some(v) => before.insert(op.0, v),
            None => before.remove(op.0),
        }
    }
}

/// A key inserted with a value, then followed by any insertions and
/// removals of other keys, is still found with that value.
pub proof fn lemma_round_trip_after_ops<V>(m: Map<u64, V>, key: u64, value: V, ops: Seq<(u64, Option<V>)>)
    requires
        forall|j: int| 0 <= j < ops.len() ==> (#[trigger] ops[j]).0 != key,
    ensures
        after_ops(m.insert(key, value), ops).contains_key(key),
        after_ops(m.insert(key, value), ops)[key] == value,
    decreases ops.len(),
{
    if ops.len() > 0 {
        let d = ops.drop_last();
        assert forall|j: int| 0 <= j < d.len() implies (#[trigger] d[j]).0 != key by {
            assert(d[j] == ops[j]);
        }
        lemma_round_trip_after_ops(m, key, value, d);
        assert(ops[ops.len() - 1].0 != key);
    }
}

/// Inserting or removing another key leaves what is found for `key` as it was.
pub proof fn lemma_other_key_kept<V>(pre: &BTreeMap<V>, post: &BTreeMap<V>, key: u64, other: u64, value: V)
    requires
        pre@.contains_key(key),
        other != key,
        post@ == pre@.insert(other, value) || post@ == pre@.remove(other),
    ensures
        post@.contains_key(key),
        post@[key] == pre@[key],
{
}

/// Inserting a present key keeps the length, and finding it then yields the
/// new value.
pub proof fn lemma_overwrite<V>(pre: &BTreeMap<V>, post: &BTreeMap<V>, key: u64, value: V)
    requires
        pre.wf(),
        pre@.contains_key(key),
        post@ == pre@.insert(key, value),
    ensures
        post@.len() == pre@.len(),
        post@[key] == value,
{
    lemma_map_of(pre.entries());
    assert(post@.dom() =~= pre@.dom());
}

/// Removing a present key makes it absent, shortens the map by one, and
/// leaves every other key with its value.
pub proof fn lemma_deletion<V>(pre: &BTreeMap<V>, post: &BTreeMap<V>, key: u64)
    requires
        pre.wf(),
        pre@.contains_key(key),
        post@ == pre@.remove(key),
    ensures
        !post@.contains_key(key),
        post@.len() + 1 == pre@.len(),
        forall|k: u64| k != key && pre@.contains_key(k) ==> post@.contains_key(k) && post@[k] == pre@[k],
{
    lemma_map_of(pre.entries());
}

/// In every well-formed map all leaves lie at the map's height, and every
/// node but the root holds between `b - 1` and `2b - 1` keys.
pub proof fn lemma_balanced<V>(m: &BTreeMap<V>)
    requires
        m.wf(),
    ensures
        m.branching() >= 2,
        m.node_capacity() == 2 * m.branching() - 1,
        min_load(m.node_capacity()) == m.branching() - 1,
        m.height() >= 1,
        m.root_node().wf(m.node_capacity(), m.height(), 0),
{
}

} // verus!
