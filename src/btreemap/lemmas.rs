use vstd::prelude::*;

use super::node::{
    children_entries, merged, min_load, stole_from_left, stole_from_right, underflow_handled, Node,
};

verus! {

/// Entries of the children before child `i`, with the pair that closes them.
pub open spec fn entries_before<V>(es: Seq<Node<V>>, ps: Seq<(u64, V)>, h: nat, i: int) -> Seq<(u64, V)> {
    if i <= 0 {
        Seq::empty()
    } else {
        children_entries(es.take(i), ps.take(i - 1), h) + seq![ps[i - 1]]
    }
}

/// Entries of the children after child `i`, with the pair that opens them.
pub open spec fn entries_after<V>(es: Seq<Node<V>>, ps: Seq<(u64, V)>, h: nat, i: int) -> Seq<(u64, V)> {
    if i >= es.len() - 1 {
        Seq::empty()
    } else {
        seq![ps[i]] + children_entries(es.skip(i + 1), ps.skip(i + 1), h)
    }
}

/// A node of height `h` whose pairs and children agree in number.
pub open spec fn layered<V>(n: Node<V>, h: nat) -> bool {
    &&& n.keys@.len() == n.vals@.len()
    &&& (h <= 1 ==> n.edges@.len() == 0)
    &&& (h > 1 ==> n.edges@.len() == n.keys@.len() + 1)
}

/// A single child's entries are those of the children.
pub proof fn lemma_children_one<V>(es: Seq<Node<V>>, ps: Seq<(u64, V)>, h: nat)
    requires
        es.len() == 1,
    ensures
        children_entries(es, ps, h) == es[0].entries(h),
{
}

/// The entries of two runs of children joined by one pair.
pub proof fn lemma_children_concat<V>(
    es1: Seq<Node<V>>,
    ps1: Seq<(u64, V)>,
    p: (u64, V),
    es2: Seq<Node<V>>,
    ps2: Seq<(u64, V)>,
    h: nat,
)
    requires
        es1.len() >= 1,
        es2.len() >= 1,
        ps1.len() + 1 == es1.len(),
        ps2.len() + 1 == es2.len(),
    ensures
        children_entries(es1 + es2, ps1 + seq![p] + ps2, h) == children_entries(es1, ps1, h) + seq![p]
            + children_entries(es2, ps2, h),
    decreases es2.len(),
{
    let es = es1 + es2;
    let ps = ps1 + seq![p] + ps2;
    if es2.len() == 1 {
        assert(es.drop_last() =~= es1);
        assert(ps.drop_last() =~= ps1);
        lemma_children_one(es2, ps2, h);
    } else {
        lemma_children_concat(es1, ps1, p, es2.drop_last(), ps2.drop_last(), h);
        assert(es.drop_last() =~= es1 + es2.drop_last());
        assert(ps.drop_last() =~= ps1 + seq![p] + ps2.drop_last());
        assert(children_entries(es1 + es2.drop_last(), ps1 + seq![p] + ps2.drop_last(), h) + seq![ps2.last()]
            + es2.last().entries(h) =~= children_entries(es1, ps1, h) + seq![p] + (children_entries(
            es2.drop_last(),
            ps2.drop_last(),
            h,
        ) + seq![ps2.last()] + es2.last().entries(h)));
    }
}

/// The entries of a node's children, split around child `i`.
pub proof fn lemma_children_at<V>(es: Seq<Node<V>>, ps: Seq<(u64, V)>, h: nat, i: int)
    requires
        ps.len() + 1 == es.len(),
        0 <= i < es.len(),
    ensures
        children_entries(es, ps, h) == entries_before(es, ps, h, i) + es[i].entries(h) + entries_after(
            es,
            ps,
            h,
            i,
        ),
{
    let n = es.len();
    if n == 1 {
        lemma_children_one(es, ps, h);
        assert(children_entries(es, ps, h) =~= Seq::empty() + es[i].entries(h) + Seq::empty());
    } else if i == 0 {
        assert(es =~= seq![es[0]] + es.skip(1));
        assert(ps =~= Seq::<(u64, V)>::empty() + seq![ps[0]] + ps.skip(1));
        lemma_children_concat(seq![es[0]], Seq::empty(), ps[0], es.skip(1), ps.skip(1), h);
        lemma_children_one(seq![es[0]], Seq::<(u64, V)>::empty(), h);
        assert(children_entries(es, ps, h) =~= Seq::empty() + es[i].entries(h) + entries_after(es, ps, h, i));
    } else if i == n - 1 {
        assert(es =~= es.take(i) + seq![es[i]]);
        assert(ps =~= ps.take(i - 1) + seq![ps[i - 1]] + Seq::<(u64, V)>::empty());
        lemma_children_concat(es.take(i), ps.take(i - 1), ps[i - 1], seq![es[i]], Seq::empty(), h);
        lemma_children_one(seq![es[i]], Seq::<(u64, V)>::empty(), h);
        assert(children_entries(es, ps, h) =~= entries_before(es, ps, h, i) + es[i].entries(h) + Seq::empty());
    } else {
        let tail = es.skip(i);
        let ptail = ps.skip(i);
        assert(es =~= es.take(i) + tail);
        assert(ps =~= ps.take(i - 1) + seq![ps[i - 1]] + ptail);
        lemma_children_concat(es.take(i), ps.take(i - 1), ps[i - 1], tail, ptail, h);
        assert(tail =~= seq![es[i]] + es.skip(i + 1));
        assert(ptail =~= Seq::<(u64, V)>::empty() + seq![ps[i]] + ps.skip(i + 1));
        lemma_children_concat(seq![es[i]], Seq::empty(), ps[i], es.skip(i + 1), ps.skip(i + 1), h);
        lemma_children_one(seq![es[i]], Seq::<(u64, V)>::empty(), h);
        assert(children_entries(es, ps, h) =~= entries_before(es, ps, h, i) + es[i].entries(h)
            + entries_after(es, ps, h, i));
    }
}

/// The entries of a node's children, split around children `i` and `i + 1`.
pub proof fn lemma_children_pair<V>(es: Seq<Node<V>>, ps: Seq<(u64, V)>, h: nat, i: int)
    requires
        ps.len() + 1 == es.len(),
        0 <= i < es.len() - 1,
    ensures
        children_entries(es, ps, h) == entries_before(es, ps, h, i) + es[i].entries(h) + seq![ps[i]]
            + es[i + 1].entries(h) + entries_after(es, ps, h, i + 1),
{
    lemma_children_at(es, ps, h, i);
    let tail = es.skip(i + 1);
    let ptail = ps.skip(i + 1);
    lemma_children_at(tail, ptail, h, 0);
    if i + 1 < es.len() - 1 {
        assert(tail.skip(1) =~= es.skip(i + 2));
        assert(ptail.skip(1) =~= ps.skip(i + 2));
    }
    assert(entries_after(tail, ptail, h, 0) == entries_after(es, ps, h, i + 1));
    assert(entries_before(tail, ptail, h, 0) =~= Seq::empty());
}

/// Entries of a node of height `h + 1` whose last child `last` was split off.
proof fn lemma_split_last<V>(n: Node<V>, front: Node<V>, last: Node<V>, lp: (u64, V), h: nat)
    requires
        layered(n, h + 1),
        h >= 1,
        n.keys@.len() >= 1,
        n.edges@ == front.edges@ + seq![last],
        n.pairs() == front.pairs() + seq![lp],
        front.edges@.len() == front.keys@.len() + 1,
        front.keys@.len() == front.vals@.len(),
    ensures
        n.entries(h + 1) == front.entries(h + 1) + seq![lp] + last.entries(h),
{
    lemma_children_concat(front.edges@, front.pairs(), lp, seq![last], Seq::empty(), h);
    lemma_children_one(seq![last], Seq::<(u64, V)>::empty(), h);
    assert(front.pairs() + seq![lp] + Seq::<(u64, V)>::empty() =~= front.pairs() + seq![lp]);
}

/// Entries of a node of height `h + 1` with `first` and `fp` put in front.
proof fn lemma_join_first<V>(n: Node<V>, rest: Node<V>, first: Node<V>, fp: (u64, V), h: nat)
    requires
        h >= 1,
        rest.edges@.len() == rest.keys@.len() + 1,
        rest.keys@.len() == rest.vals@.len(),
        n.edges@ == seq![first] + rest.edges@,
        n.pairs() == seq![fp] + rest.pairs(),
    ensures
        n.entries(h + 1) == first.entries(h) + seq![fp] + rest.entries(h + 1),
{
    lemma_children_concat(seq![first], Seq::empty(), fp, rest.edges@, rest.pairs(), h);
    lemma_children_one(seq![first], Seq::<(u64, V)>::empty(), h);
    assert(Seq::<(u64, V)>::empty() + seq![fp] + rest.pairs() =~= seq![fp] + rest.pairs());
}

/// Entries after child `i` was replaced by `c`.
pub proof fn lemma_replace_child<V>(es: Seq<Node<V>>, ps: Seq<(u64, V)>, h: nat, i: int, c: Node<V>)
    requires
        ps.len() + 1 == es.len(),
        0 <= i < es.len(),
    ensures
        children_entries(es.update(i, c), ps, h) == entries_before(es, ps, h, i) + c.entries(h)
            + entries_after(es, ps, h, i),
{
    let es2 = es.update(i, c);
    lemma_children_at(es2, ps, h, i);
    if i > 0 {
        assert(es2.take(i) =~= es.take(i));
    }
    if i < es.len() - 1 {
        assert(es2.skip(i + 1) =~= es.skip(i + 1));
    }
    assert(entries_before(es2, ps, h, i) == entries_before(es, ps, h, i));
    assert(entries_after(es2, ps, h, i) == entries_after(es, ps, h, i));
}

/// Entries after child `i` was split into `c`, `kv` and `right`.
pub proof fn lemma_split_child<V>(
    es: Seq<Node<V>>,
    ps: Seq<(u64, V)>,
    h: nat,
    i: int,
    c: Node<V>,
    kv: (u64, V),
    right: Node<V>,
)
    requires
        ps.len() + 1 == es.len(),
        0 <= i < es.len(),
    ensures
        children_entries(es.update(i, c).insert(i + 1, right), ps.insert(i, kv), h) == entries_before(
            es,
            ps,
            h,
            i,
        ) + c.entries(h) + seq![kv] + right.entries(h) + entries_after(es, ps, h, i),
{
    let es2 = es.update(i, c).insert(i + 1, right);
    let ps2 = ps.insert(i, kv);
    lemma_children_pair(es2, ps2, h, i);
    if i > 0 {
        assert(es2.take(i) =~= es.take(i));
        assert(ps2.take(i - 1) =~= ps.take(i - 1));
    }
    assert(entries_before(es2, ps2, h, i) == entries_before(es, ps, h, i));
    if i < es.len() - 1 {
        assert(es2.skip(i + 2) =~= es.skip(i + 1));
        assert(ps2.skip(i + 2) =~= ps.skip(i + 1));
    }
    assert(entries_after(es2, ps2, h, i + 1) == entries_after(es, ps, h, i));
}

/// A rotation from the left sibling keeps the entries of the parent.
pub proof fn lemma_stole_from_left_entries<V>(pre: Node<V>, post: Node<V>, i: int, h: nat)
    requires
        h >= 2,
        layered(pre, h),
        0 < i < pre.edges@.len(),
        forall|j: int| 0 <= j < pre.edges@.len() ==> layered(#[trigger] pre.edges@[j], (h - 1) as nat),
        pre.edges@[i - 1].keys@.len() >= 1,
        stole_from_left(pre, post, i),
    ensures
        post.entries(h) == pre.entries(h),
{
    let hc = (h - 1) as nat;
    let es = pre.edges@;
    let ps = pre.pairs();
    let es2 = post.edges@;
    let ps2 = post.pairs();
    let l = es[i - 1];
    let r = es[i];
    let nl = es2[i - 1];
    let nr = es2[i];
    let lp = (l.keys@.last(), l.vals@.last());
    assert(ps2 =~= ps.update(i - 1, lp));
    lemma_children_pair(es, ps, hc, i - 1);
    lemma_children_pair(es2, ps2, hc, i - 1);
    if i - 1 > 0 {
        assert(es2.take(i - 1) =~= es.take(i - 1));
        assert(ps2.take(i - 2) =~= ps.take(i - 2));
    }
    assert(entries_before(es2, ps2, hc, i - 1) == entries_before(es, ps, hc, i - 1));
    if i < es.len() - 1 {
        assert(es2.skip(i + 1) =~= es.skip(i + 1));
        assert(ps2.skip(i + 1) =~= ps.skip(i + 1));
    }
    assert(entries_after(es2, ps2, hc, i) == entries_after(es, ps, hc, i));
    if hc == 1 {
        assert(l.pairs() =~= nl.pairs() + seq![lp]);
        assert(nr.pairs() =~= seq![ps[i - 1]] + r.pairs());
    } else {
        let le = l.edges@.last();
        assert(l.edges@ =~= nl.edges@ + seq![le]);
        assert(l.pairs() =~= nl.pairs() + seq![lp]);
        lemma_split_last(l, nl, le, lp, (hc - 1) as nat);
        assert(nr.pairs() =~= seq![ps[i - 1]] + r.pairs());
        lemma_join_first(nr, r, le, ps[i - 1], (hc - 1) as nat);
    }
    assert(l.entries(hc) + seq![ps[i - 1]] + r.entries(hc) =~= nl.entries(hc) + seq![ps2[i - 1]] + nr.entries(hc));
}

/// A rotation from the right sibling keeps the entries of the parent.
pub proof fn lemma_stole_from_right_entries<V>(pre: Node<V>, post: Node<V>, i: int, h: nat)
    requires
        h >= 2,
        layered(pre, h),
        0 <= i < pre.edges@.len() - 1,
        forall|j: int| 0 <= j < pre.edges@.len() ==> layered(#[trigger] pre.edges@[j], (h - 1) as nat),
        pre.edges@[i + 1].keys@.len() >= 1,
        stole_from_right(pre, post, i),
    ensures
        post.entries(h) == pre.entries(h),
{
    let hc = (h - 1) as nat;
    let es = pre.edges@;
    let ps = pre.pairs();
    let es2 = post.edges@;
    let ps2 = post.pairs();
    let l = es[i];
    let r = es[i + 1];
    let nl = es2[i];
    let nr = es2[i + 1];
    let rp = (r.keys@[0], r.vals@[0]);
    assert(ps2 =~= ps.update(i, rp));
    lemma_children_pair(es, ps, hc, i);
    lemma_children_pair(es2, ps2, hc, i);
    if i > 0 {
        assert(es2.take(i) =~= es.take(i));
        assert(ps2.take(i - 1) =~= ps.take(i - 1));
    }
    assert(entries_before(es2, ps2, hc, i) == entries_before(es, ps, hc, i));
    if i + 1 < es.len() - 1 {
        assert(es2.skip(i + 2) =~= es.skip(i + 2));
        assert(ps2.skip(i + 2) =~= ps.skip(i + 2));
    }
    assert(entries_after(es2, ps2, hc, i + 1) == entries_after(es, ps, hc, i + 1));
    if hc == 1 {
        assert(r.pairs() =~= seq![rp] + nr.pairs());
        assert(nl.pairs() =~= l.pairs() + seq![ps[i]]);
    } else {
        let fe = r.edges@[0];
        assert(r.edges@ =~= seq![fe] + nr.edges@);
        assert(r.pairs() =~= seq![rp] + nr.pairs());
        lemma_join_first(r, nr, fe, rp, (hc - 1) as nat);
        assert(nl.edges@ =~= l.edges@ + seq![fe]);
        assert(nl.pairs() =~= l.pairs() + seq![ps[i]]);
        lemma_split_last(nl, l, fe, ps[i], (hc - 1) as nat);
    }
    assert(l.entries(hc) + seq![ps[i]] + r.entries(hc) =~= nl.entries(hc) + seq![ps2[i]] + nr.entries(hc));
}

/// A merge of two children keeps the entries of the parent.
pub proof fn lemma_merged_entries<V>(pre: Node<V>, post: Node<V>, i: int, h: nat)
    requires
        h >= 2,
        layered(pre, h),
        0 <= i < pre.edges@.len() - 1,
        forall|j: int| 0 <= j < pre.edges@.len() ==> layered(#[trigger] pre.edges@[j], (h - 1) as nat),
        merged(pre, post, i),
    ensures
        post.entries(h) == pre.entries(h),
{
    let hc = (h - 1) as nat;
    let es = pre.edges@;
    let ps = pre.pairs();
    let es2 = post.edges@;
    let ps2 = post.pairs();
    let l = es[i];
    let r = es[i + 1];
    let m = es2[i];
    assert(ps2 =~= ps.remove(i));
    lemma_children_pair(es, ps, hc, i);
    lemma_children_at(es2, ps2, hc, i);
    if i > 0 {
        assert(es2.take(i) =~= es.take(i));
        assert(ps2.take(i - 1) =~= ps.take(i - 1));
    }
    assert(entries_before(es2, ps2, hc, i) == entries_before(es, ps, hc, i));
    if i < es2.len() - 1 {
        assert(es2.skip(i + 1) =~= es.skip(i + 2));
        assert(ps2.skip(i + 1) =~= ps.skip(i + 2));
    }
    assert(entries_after(es2, ps2, hc, i) == entries_after(es, ps, hc, i + 1));
    assert(m.pairs() =~= l.pairs() + seq![ps[i]] + r.pairs());
    if hc > 1 {
        lemma_children_concat(l.edges@, l.pairs(), ps[i], r.edges@, r.pairs(), (hc - 1) as nat);
    }
    assert(m.entries(hc) == l.entries(hc) + seq![ps[i]] + r.entries(hc));
    assert(pre.entries(h) =~= entries_before(es, ps, hc, i) + (l.entries(hc) + seq![ps[i]] + r.entries(hc))
        + entries_after(es, ps, hc, i + 1));
}

/// Every child of a well-formed internal node is well-formed at minimum load.
pub proof fn lemma_wf_child<V>(n: Node<V>, cap: nat, h: nat, lo: nat, k: int)
    requires
        n.wf(cap, h, lo),
        h > 1,
        0 <= k < n.edges@.len(),
    ensures
        n.edges@[k].wf(cap, (h - 1) as nat, min_load(cap)),
{
}

/// Repairing an underfull child keeps the parent's entries and leaves every
/// child at minimum load; the parent loses at most one pair.
pub proof fn lemma_underflow_handled<V>(pre: Node<V>, post: Node<V>, u: int, h: nat, cap: nat)
    requires
        h >= 2,
        cap % 2 == 1,
        cap >= 3,
        pre.cap == cap,
        pre.keys@.len() == pre.vals@.len(),
        1 <= pre.keys@.len() <= cap,
        pre.edges@.len() == pre.keys@.len() + 1,
        0 <= u < pre.edges@.len(),
        forall|j: int|
            0 <= j < pre.edges@.len() && j != u ==> (#[trigger] pre.edges@[j]).wf(cap, (h - 1) as nat, min_load(cap)),
        pre.edges@[u].wf(cap, (h - 1) as nat, (min_load(cap) - 1) as nat),
        pre.edges@[u].keys@.len() < min_load(cap),
        underflow_handled(pre, post, u),
    ensures
        post.cap == cap,
        post.keys@.len() == post.vals@.len(),
        pre.keys@.len() <= post.keys@.len() + 1,
        post.keys@.len() <= pre.keys@.len(),
        post.edges@.len() == post.keys@.len() + 1,
        forall|j: int| 0 <= j < post.edges@.len() ==> (#[trigger] post.edges@[j]).wf(cap, (h - 1) as nat, min_load(cap)),
        post.entries(h) == pre.entries(h),
{
    let hc = (h - 1) as nat;
    let min = min_load(cap);
    let es = pre.edges@;
    let es2 = post.edges@;
    assert forall|j: int| 0 <= j < es.len() implies layered(#[trigger] es[j], hc) by {
        assert(es[j].wf(cap, hc, (min - 1) as nat));
    }
    if u > 0 && es[u - 1].keys@.len() > min {
        lemma_stole_from_left_entries(pre, post, u, h);
        let l = es[u - 1];
        let r = es[u];
        assert(l.wf(cap, hc, min));
        assert(r.wf(cap, hc, (min - 1) as nat));
        assert forall|j: int| 0 <= j < es2.len() implies (#[trigger] es2[j]).wf(cap, hc, min) by {
            if j == u - 1 {
                if hc > 1 {
                    assert forall|k: int| 0 <= k < es2[j].edges@.len() implies (#[trigger] es2[j].edges@[k]).wf(
                        cap,
                        (hc - 1) as nat,
                        min,
                    ) by {
                        assert(es2[j].edges@[k] == l.edges@[k]);
                        lemma_wf_child(l, cap, hc, min, k);
                    }
                }
            } else if j == u {
                if hc > 1 {
                    assert forall|k: int| 0 <= k < es2[j].edges@.len() implies (#[trigger] es2[j].edges@[k]).wf(
                        cap,
                        (hc - 1) as nat,
                        min,
                    ) by {
                        if k == 0 {
                            assert(es2[j].edges@[k] == l.edges@[l.edges@.len() - 1]);
                            lemma_wf_child(l, cap, hc, min, l.edges@.len() - 1);
                        } else {
                            assert(es2[j].edges@[k] == r.edges@[k - 1]);
                            lemma_wf_child(r, cap, hc, (min - 1) as nat, k - 1);
                        }
                    }
                }
            }
        }
    } else if u < pre.keys@.len() && es[u + 1].keys@.len() > min {
        lemma_stole_from_right_entries(pre, post, u, h);
        let l = es[u];
        let r = es[u + 1];
        assert forall|j: int| 0 <= j < es2.len() implies (#[trigger] es2[j]).wf(cap, hc, min) by {
            if j == u + 1 {
                if hc > 1 {
                    assert forall|k: int| 0 <= k < es2[j].edges@.len() implies (#[trigger] es2[j].edges@[k]).wf(
                        cap,
                        (hc - 1) as nat,
                        min,
                    ) by {
                        assert(es2[j].edges@[k] == r.edges@[k + 1]);
                    }
                }
            } else if j == u {
                if hc > 1 {
                    assert forall|k: int| 0 <= k < es2[j].edges@.len() implies (#[trigger] es2[j].edges@[k]).wf(
                        cap,
                        (hc - 1) as nat,
                        min,
                    ) by {
                        if k < l.edges@.len() {
                            assert(es2[j].edges@[k] == l.edges@[k]);
                        } else {
                            assert(es2[j].edges@[k] == r.edges@[0]);
                        }
                    }
                }
            }
        }
    } else if u > 0 {
        lemma_merged_entries(pre, post, u - 1, h);
        let l = es[u - 1];
        let r = es[u];
        assert forall|j: int| 0 <= j < es2.len() implies (#[trigger] es2[j]).wf(cap, hc, min) by {
            if j == u - 1 {
                if hc > 1 {
                    assert forall|k: int| 0 <= k < es2[j].edges@.len() implies (#[trigger] es2[j].edges@[k]).wf(
                        cap,
                        (hc - 1) as nat,
                        min,
                    ) by {
                        if k < l.edges@.len() {
                            assert(es2[j].edges@[k] == l.edges@[k]);
                        } else {
                            assert(es2[j].edges@[k] == r.edges@[k - l.edges@.len()]);
                        }
                    }
                }
            } else if j >= u {
                assert(es2[j] == es[j + 1]);
            }
        }
    } else {
        lemma_merged_entries(pre, post, u, h);
        let l = es[u];
        let r = es[u + 1];
        assert forall|j: int| 0 <= j < es2.len() implies (#[trigger] es2[j]).wf(cap, hc, min) by {
            if j == u {
                if hc > 1 {
                    assert forall|k: int| 0 <= k < es2[j].edges@.len() implies (#[trigger] es2[j].edges@[k]).wf(
                        cap,
                        (hc - 1) as nat,
                        min,
                    ) by {
                        if k < l.edges@.len() {
                            assert(es2[j].edges@[k] == l.edges@[k]);
                        } else {
                            assert(es2[j].edges@[k] == r.edges@[k - l.edges@.len()]);
                        }
                    }
                }
            } else if j > u {
                assert(es2[j] == es[j + 1]);
            }
        }
    }
}

} // verus!
