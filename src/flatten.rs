//! Flattening the prefix tree into the automaton's node array, with the
//! facts that tie each emitted node to the keys it stands for.
use crate::builder::{exact_of, GraphType};
use crate::graph::{edge_target, has_edge, lemma_edge_target, node_wf, nodes_wf, run, sorted_edges, Node};
use crate::segment::{starts, lemma_lex_antisym, lemma_lex_equal_eq, lemma_lex_refl, lemma_lex_trans, lex, Segmentable};
use crate::trie::{has, lemma_has_unfold, lemma_siblings_disjoint, lemma_live_has, live, lemma_has_prefix, lemma_too_short, list_has, list_wf, shared_cut, trie_wf, TrieNode};
use std::cmp::Ordering;
use vstd::pervasive::cloned;
use vstd::prelude::*;
use vstd::slice::slice_subrange;

verus! {

/// Every node of the buffer is usable, its targets lying before it.
pub(crate) open spec fn buffer_ok<I: Segmentable, O>(buf: Seq<Node<I, O>>) -> bool {
    &&& buf.len() >= 1
    &&& forall|i: int| 0 <= i < buf.len() ==> node_wf(#[trigger] buf[i], i + 1)
}

/// The edge `x` is in the list `s`.
pub(crate) open spec fn in_list<K>(s: Seq<(K, usize)>, x: (K, usize)) -> bool {
    exists|i: int| 0 <= i < s.len() && s[i] == x
}

/// Inserting an edge at its place in the order keeps the edges sorted.
pub(crate) proof fn lemma_insert_sorted<K: Segmentable>(e: Seq<(K, usize)>, j: int, x: (K, usize))
    requires
        sorted_edges(e),
        0 <= j <= e.len(),
        forall|i: int| 0 <= i < j ==> lex(K::order_key((#[trigger] e[i]).0.units()), K::order_key(x.0.units())) == Ordering::Less,
        j < e.len() ==> lex(K::order_key(x.0.units()), K::order_key(e[j].0.units())) == Ordering::Less,
    ensures
        sorted_edges(e.insert(j, x)),
{
    let f = e.insert(j, x);
    let kk = K::order_key(x.0.units());
    assert forall|a: int, b: int| 0 <= a < b < f.len() implies lex(
        K::order_key((#[trigger] f[a]).0.units()),
        K::order_key((#[trigger] f[b]).0.units()),
    ) == Ordering::Less by {
        if b == j {
            assert(f[a] == e[a]);
        } else if a == j {
            let ej = K::order_key(e[j].0.units());
            if b > j + 1 {
                assert(f[b] == e[b - 1]);
                assert(lex(ej, K::order_key(e[b - 1].0.units())) == Ordering::Less);
                lemma_lex_trans(kk, ej, K::order_key(e[b - 1].0.units()), 0);
            }
        } else if a < j && b > j {
            assert(f[a] == e[a]);
            assert(f[b] == e[b - 1]);
        } else if a > j {
            assert(f[a] == e[a - 1]);
            assert(f[b] == e[b - 1]);
        } else {
            assert(f[a] == e[a]);
            assert(f[b] == e[b]);
        }
    }
}

/// Insert an edge into a list sorted by order key; a chunk whose order key is
/// already present is left out.
#[verifier::rlimit(40)]
pub(crate) fn insert_edge<K: Segmentable>(edges: &mut Vec<(K, usize)>, k: K, target: usize, Ghost(bound): Ghost<int>)
    requires
        sorted_edges(old(edges)@),
        forall|j: int| 0 <= j < old(edges)@.len() ==> #[trigger] old(edges)@[j].1 < bound,
        target < bound,
    ensures
        sorted_edges(final(edges)@),
        forall|j: int| 0 <= j < final(edges)@.len() ==> #[trigger] final(edges)@[j].1 < bound,
        forall|j: int| 0 <= j < old(edges)@.len() ==> in_list(final(edges)@, #[trigger] old(edges)@[j]),
        forall|i: int|
            0 <= i < final(edges)@.len() ==> #[trigger] final(edges)@[i] == (k, target) || exists|j: int|
                0 <= j < old(edges)@.len() && final(edges)@[i] == old(edges)@[j],
        (forall|j: int|
            0 <= j < old(edges)@.len() ==> K::order_key(#[trigger] old(edges)@[j].0.units())
                != K::order_key(k.units())) ==> exists|i: int|
            0 <= i < final(edges)@.len() && final(edges)@[i] == (k, target),
{
    let ghost e = edges@;
    let ghost kk = K::order_key(k.units());
    let mut j: usize = 0;
    while j < edges.len()
        invariant
            edges@ == e,
            kk == K::order_key(k.units()),
            j <= e.len(),
            forall|i: int| 0 <= i < j ==> lex(K::order_key((#[trigger] e[i]).0.units()), kk) == Ordering::Less,
        ensures
            edges@ == e,
            j <= e.len(),
            forall|i: int| 0 <= i < j ==> lex(K::order_key((#[trigger] e[i]).0.units()), kk) == Ordering::Less,
            j < e.len() ==> lex(K::order_key(e[j as int].0.units()), kk) != Ordering::Less,
        decreases e.len() - j,
    {
        match edges[j].0.compare(&k) {
            Ordering::Less => {},
            _ => break,
        }
        j = j + 1;
    }
    if j < edges.len() {
        match edges[j].0.compare(&k) {
            Ordering::Equal => {
                proof {
                    lemma_lex_equal_eq(K::order_key(e[j as int].0.units()), kk);
                    assert forall|a: int| 0 <= a < e.len() implies in_list(edges@, #[trigger] e[a]) by {
                        assert(edges@[a] == e[a]);
                    }
                }
                return;
            },
            _ => {},
        }
    }
    proof {
        if j < e.len() {
            let ej = K::order_key(e[j as int].0.units());
            lemma_lex_antisym(ej, kk, 0);
            lemma_lex_antisym(kk, ej, 0);
        }
        lemma_insert_sorted(e, j as int, (k, target));
    }
    edges.insert(j, (k, target));
    proof {
        let f = edges@;
        assert(f[j as int] == (k, target));
        assert forall|a: int| 0 <= a < e.len() implies in_list(f, #[trigger] e[a]) by {
            if a < j {
                assert(f[a] == e[a]);
            } else {
                assert(f[a + 1] == e[a]);
            }
        }
        assert forall|i: int| 0 <= i < f.len() implies #[trigger] f[i] == (k, target) || exists|a: int|
            0 <= a < e.len() && f[i] == e[a] by {
            if i < j {
                assert(f[i] == e[i]);
            } else if i > j {
                assert(f[i] == e[i - 1]);
            }
        }
    }
}

/// A buffer whose nodes only point backwards is a usable graph from its last
/// node.
pub(crate) proof fn lemma_buffer_wf<I: Segmentable, O>(buf: Seq<Node<I, O>>)
    requires
        buffer_ok(buf),
    ensures
        nodes_wf(buf, buf.len() - 1),
{
    assert forall|i: int| 0 <= i < buf.len() implies node_wf(#[trigger] buf[i], buf.len() as int) by {
        assert(node_wf(buf[i], i + 1));
        assert forall|j: int| 0 <= j < buf[i].spec_inputs().len() implies #[trigger] buf[i].spec_inputs()[j].1
            < buf.len() by {
            assert(buf[i].spec_inputs()[j].1 < i + 1);
        }
    }
}

/// Appending a node whose targets lie before it keeps the buffer usable.
pub(crate) proof fn lemma_push_ok<I: Segmentable, O>(buf: Seq<Node<I, O>>, n: Node<I, O>)
    requires
        buffer_ok(buf),
        node_wf(n, buf.len() as int),
    ensures
        buffer_ok(buf.push(n)),
{
    let b = buf.push(n);
    assert forall|i: int| 0 <= i < b.len() implies node_wf(#[trigger] b[i], i + 1) by {
        if i < buf.len() {
            assert(b[i] == buf[i]);
        } else {
            assert(b[i] == n);
            assert forall|j: int| 0 <= j < n.spec_inputs().len() implies #[trigger] n.spec_inputs()[j].1
                < i + 1 by {
                assert(n.spec_inputs()[j].1 < buf.len());
            }
        }
    }
}

/// The common chunk width of a sibling list: the length of its shortest
/// edge, or 1 when there are no siblings.
pub(crate) open spec fn sibling_width<T>(cs: Seq<TrieNode<T>>) -> int {
    if cs.len() == 0 {
        1
    } else {
        choose|w: int| #[trigger] shortest(cs, w)
    }
}

/// The shortest edge length of a sibling list is unique.
pub(crate) proof fn lemma_shortest_unique<T>(cs: Seq<TrieNode<T>>, w: int)
    requires
        shortest(cs, w),
    ensures
        sibling_width(cs) == w,
{
    let x = sibling_width(cs);
    assert(shortest(cs, x));
    let q1 = choose|q: int| 0 <= q < cs.len() && w == (#[trigger] cs[q]).value@.len();
    let q2 = choose|q: int| 0 <= q < cs.len() && x == (#[trigger] cs[q]).value@.len();
    assert(w <= cs[q2].value@.len());
    assert(x <= cs[q1].value@.len());
}

/// `w` is the length of the shortest edge among the siblings.
pub(crate) open spec fn shortest<T>(cs: Seq<TrieNode<T>>, w: int) -> bool {
    &&& forall|q: int| 0 <= q < cs.len() ==> w <= (#[trigger] cs[q]).value@.len()
    &&& exists|q: int| 0 <= q < cs.len() && w == (#[trigger] cs[q]).value@.len()
}

/// The number of flat nodes for the point `j` bytes into the edge of `c`:
/// inside the edge, one node and those for the end of the edge; at its end,
/// one node and those for the children, each entered by a chunk of their
/// common width.
pub(crate) open spec fn node_count<T>(c: TrieNode<T>, j: int) -> nat
    decreases c, (if j < c.value@.len() { 2int } else { 1int }), 0int,
{
    if j < c.value@.len() {
        1 + node_count(c, c.value@.len() as int)
    } else {
        1 + list_count(c.children@, sibling_width(c.children@), c.children@.len() as int)
    }
}

/// The number of flat nodes for the first `k` siblings, each entered by a
/// chunk of width `w`.
pub(crate) open spec fn list_count<T>(cs: Seq<TrieNode<T>>, w: int, k: int) -> nat
    decreases cs, 0int, k,
{
    if k <= 0 || k > cs.len() {
        0
    } else {
        list_count(cs, w, k - 1) + node_count(cs[k - 1], w)
    }
}

/// What an emitted node stands for: the bytes consumed on the way to it, and
/// the keys, with their payloads, that lie at it or below it.
pub(crate) type NodeInfo<T> = (Seq<u8>, spec_fn(Seq<u8>, T) -> bool);

/// An edge of node `i` leads one chunk further to a node whose keys are
/// among those of node `i`.
pub(crate) open spec fn edge_ok<K: Segmentable, T>(info: Seq<NodeInfo<T>>, i: int, e: (K, usize)) -> bool {
    &&& 1 <= e.1 < i
    &&& info[e.1 as int].0 == info[i].0 + e.0.units()
    &&& forall|m: Seq<u8>, v: T| #[trigger] (info[e.1 as int].1)(m, v) ==> (info[i].1)(m, v)
    &&& exists|m: Seq<u8>, v: T| #[trigger] (info[e.1 as int].1)(m, v)
}

/// The edge has a chunk of `amount` bytes and leads to a node that holds `m`
/// with payload `v`.
pub(crate) open spec fn edge_leads<K: Segmentable, T>(
    info: Seq<NodeInfo<T>>,
    e: (K, usize),
    amount: int,
    m: Seq<u8>,
    v: T,
) -> bool {
    &&& e.0.units().len() == amount
    &&& info[e.1 as int].0.is_prefix_of(m)
    &&& (info[e.1 as int].1)(m, v)
}

/// Node `i` of the buffer agrees with what it stands for.
pub(crate) open spec fn node_ok<K: Segmentable, T: Clone>(
    buf: Seq<Node<K, Option<T>>>,
    info: Seq<NodeInfo<T>>,
    i: int,
    exact: spec_fn(Seq<u8>) -> bool,
) -> bool {
    let n = buf[i];
    let p = info[i].0;
    let h = info[i].1;
    &&& n.spec_default() == 0
    &&& forall|m: Seq<u8>, v: T| #[trigger] h(m, v) ==> p.is_prefix_of(m)
    &&& n.spec_output() is Some ==> exists|v: T| h(p, v) && cloned(v, n.spec_output()->0)
    &&& forall|v: T| #[trigger] h(p, v) ==> n.spec_output() is Some && cloned(v, n.spec_output()->0)
    &&& forall|k: int| 0 <= k < n.spec_inputs().len() ==> edge_ok(info, i, #[trigger] n.spec_inputs()[k])
    &&& forall|k: int|
        0 <= k < n.spec_inputs().len() ==> (#[trigger] n.spec_inputs()[k]).0.units().len() == n.spec_amount()
    &&& n.spec_inputs().len() == 0 ==> n.spec_amount() == 1
    &&& forall|m: Seq<u8>, v: T|
        #[trigger] h(m, v) && m.len() > p.len() && exact(m) ==> exists|k: int|
            0 <= k < n.spec_inputs().len() && edge_leads(info, #[trigger] n.spec_inputs()[k], n.spec_amount() as int, m, v)
}

/// The buffer starts with the trap node and all other nodes agree with what
/// they stand for.
pub(crate) open spec fn emitted<K: Segmentable, T: Clone>(
    buf: Seq<Node<K, Option<T>>>,
    info: Seq<NodeInfo<T>>,
    exact: spec_fn(Seq<u8>) -> bool,
) -> bool {
    &&& buffer_ok(buf)
    &&& info.len() == buf.len()
    &&& buf[0].spec_inputs().len() == 0
    &&& buf[0].spec_output() is None
    &&& buf[0].spec_default() == 0
    &&& forall|i: int| 1 <= i < buf.len() ==> #[trigger] node_ok(buf, info, i, exact)
}

/// Among the nodes emitted in `[lo, hi)`, each node with a payload stands at
/// a key that `held` holds, with a clone of its payload;
/// no two of them stand at the same key; and every key `held` holds has one.
pub(crate) open spec fn payloads_placed<K, T: Clone>(
    buf: Seq<Node<K, Option<T>>>,
    info: Seq<NodeInfo<T>>,
    lo: int,
    hi: int,
    held: spec_fn(Seq<u8>, T) -> bool,
) -> bool {
    &&& forall|i: int|
        lo <= i < hi && (#[trigger] buf[i]).spec_output() is Some ==> exists|v: T|
            held(info[i].0, v) && cloned(v, buf[i].spec_output()->0)
    &&& forall|i: int, i2: int|
        lo <= i < hi && lo <= i2 < hi && i != i2 && (#[trigger] buf[i]).spec_output() is Some && (
        #[trigger] buf[i2]).spec_output() is Some ==> info[i].0 != info[i2].0
    &&& forall|m: Seq<u8>, v: T|
        #[trigger] held(m, v) ==> exists|i: int|
            lo <= i < hi && (#[trigger] buf[i]).spec_output() is Some && info[i].0 == m
}

/// The keys, with payloads, held below `c` reached with `base` consumed.
pub(crate) open spec fn held_by<T>(c: TrieNode<T>, base: Seq<u8>) -> spec_fn(Seq<u8>, T) -> bool {
    |m: Seq<u8>, v: T| has(c, base, m, v)
}

/// The keys, with payloads, held below the first `k` siblings.
pub(crate) open spec fn held_first<T>(cs: Seq<TrieNode<T>>, base: Seq<u8>, k: int) -> spec_fn(
    Seq<u8>,
    T,
) -> bool {
    |m: Seq<u8>, v: T| exists|q: int| 0 <= q < k && 0 <= q < cs.len() && #[trigger] has(cs[q], base, m, v)
}

/// A node without a payload, standing for keys already counted, can join
/// the placed range behind it.
pub(crate) proof fn lemma_placed_none<K, T: Clone>(
    buf: Seq<Node<K, Option<T>>>,
    info: Seq<NodeInfo<T>>,
    lo: int,
    hi: int,
    held: spec_fn(Seq<u8>, T) -> bool,
)
    requires
        0 <= lo <= hi < buf.len(),
        payloads_placed(buf, info, lo, hi, held),
        buf[hi].spec_output() is None,
    ensures
        payloads_placed(buf, info, lo, hi + 1, held),
{
    assert forall|m: Seq<u8>, v: T| #[trigger] held(m, v) implies exists|i: int|
        lo <= i < hi + 1 && (#[trigger] buf[i]).spec_output() is Some && info[i].0 == m by {
        let i = choose|i: int| lo <= i < hi && (#[trigger] buf[i]).spec_output() is Some && info[i].0 == m;
    }
}

/// Two placed ranges side by side, for disjoint key sets, are placed for
/// the union of the key sets.
pub(crate) proof fn lemma_placed_join<K, T: Clone>(
    buf: Seq<Node<K, Option<T>>>,
    info: Seq<NodeInfo<T>>,
    lo: int,
    mid: int,
    hi: int,
    h1: spec_fn(Seq<u8>, T) -> bool,
    h2: spec_fn(Seq<u8>, T) -> bool,
    h: spec_fn(Seq<u8>, T) -> bool,
)
    requires
        0 <= lo <= mid <= hi <= buf.len(),
        payloads_placed(buf, info, lo, mid, h1),
        payloads_placed(buf, info, mid, hi, h2),
        forall|m: Seq<u8>, v: T| #[trigger] h(m, v) == (h1(m, v) || h2(m, v)),
        forall|m: Seq<u8>, v: T, w: T| #[trigger] h1(m, v) && #[trigger] h2(m, w) ==> false,
    ensures
        payloads_placed(buf, info, lo, hi, h),
{
    assert forall|i: int, i2: int|
        lo <= i < hi && lo <= i2 < hi && i != i2 && (#[trigger] buf[i]).spec_output() is Some && (
        #[trigger] buf[i2]).spec_output() is Some implies info[i].0 != info[i2].0 by {
        if i < mid && i2 >= mid {
            let v = choose|v: T| h1(info[i].0, v) && cloned(v, buf[i].spec_output()->0);
            let w = choose|w: T| h2(info[i2].0, w) && cloned(w, buf[i2].spec_output()->0);
            if info[i].0 == info[i2].0 {
                assert(h1(info[i].0, v) && h2(info[i].0, w));
            }
        } else if i >= mid && i2 < mid {
            let v = choose|v: T| h2(info[i].0, v) && cloned(v, buf[i].spec_output()->0);
            let w = choose|w: T| h1(info[i2].0, w) && cloned(w, buf[i2].spec_output()->0);
            if info[i].0 == info[i2].0 {
                assert(h1(info[i].0, w) && h2(info[i].0, v));
            }
        }
    }
    assert forall|i: int| lo <= i < hi && (#[trigger] buf[i]).spec_output() is Some implies exists|v: T|
        h(info[i].0, v) && cloned(v, buf[i].spec_output()->0) by {
        if i < mid {
            let v = choose|v: T| h1(info[i].0, v) && cloned(v, buf[i].spec_output()->0);
            assert(h(info[i].0, v));
        } else {
            let v = choose|v: T| h2(info[i].0, v) && cloned(v, buf[i].spec_output()->0);
            assert(h(info[i].0, v));
        }
    }
    assert forall|m: Seq<u8>, v: T| #[trigger] h(m, v) implies exists|i: int|
        lo <= i < hi && (#[trigger] buf[i]).spec_output() is Some && info[i].0 == m by {
        if h1(m, v) {
            let i = choose|i: int| lo <= i < mid && (#[trigger] buf[i]).spec_output() is Some && info[i].0 == m;
        } else {
            let i = choose|i: int| mid <= i < hi && (#[trigger] buf[i]).spec_output() is Some && info[i].0 == m;
        }
    }
}

/// Placed payloads stay placed when the buffer grows behind them.
pub(crate) proof fn lemma_placed_frame<K, T: Clone>(
    buf: Seq<Node<K, Option<T>>>,
    info: Seq<NodeInfo<T>>,
    buf2: Seq<Node<K, Option<T>>>,
    info2: Seq<NodeInfo<T>>,
    lo: int,
    hi: int,
    held: spec_fn(Seq<u8>, T) -> bool,
)
    requires
        0 <= lo <= hi <= buf.len(),
        info.len() == buf.len(),
        buf2.len() >= buf.len(),
        info2.len() >= buf.len(),
        buf2.take(buf.len() as int) == buf,
        info2.take(buf.len() as int) == info,
        payloads_placed(buf, info, lo, hi, held),
    ensures
        payloads_placed(buf2, info2, lo, hi, held),
{
    assert forall|i: int| lo <= i < hi implies buf2[i] == buf[i] && info2[i] == info[i] by {
        assert(buf2.take(buf.len() as int)[i] == buf2[i]);
        assert(info2.take(buf.len() as int)[i] == info2[i]);
    }
    assert forall|m: Seq<u8>, v: T| #[trigger] held(m, v) implies exists|i: int|
        lo <= i < hi && (#[trigger] buf2[i]).spec_output() is Some && info2[i].0 == m by {
        let i = choose|i: int| lo <= i < hi && (#[trigger] buf[i]).spec_output() is Some && info[i].0 == m;
        assert(buf2[i] == buf[i]);
    }
    assert forall|i: int| lo <= i < hi && (#[trigger] buf2[i]).spec_output() is Some implies exists|v: T|
        held(info2[i].0, v) && cloned(v, buf2[i].spec_output()->0) by {
        assert(buf2[i] == buf[i]);
    }
    assert forall|i: int, i2: int|
        lo <= i < hi && lo <= i2 < hi && i != i2 && (#[trigger] buf2[i]).spec_output() is Some && (
        #[trigger] buf2[i2]).spec_output() is Some implies info2[i].0 != info2[i2].0 by {
        assert(buf2[i] == buf[i] && buf2[i2] == buf[i2]);
    }
}

/// A node keeps agreeing when the buffer grows behind it.
pub(crate) proof fn lemma_node_ok_frame<K: Segmentable, T: Clone>(
    buf: Seq<Node<K, Option<T>>>,
    info: Seq<NodeInfo<T>>,
    buf2: Seq<Node<K, Option<T>>>,
    info2: Seq<NodeInfo<T>>,
    i: int,
    exact: spec_fn(Seq<u8>) -> bool,
)
    requires
        0 <= i < buf.len(),
        info.len() == buf.len(),
        buf2.len() >= buf.len(),
        info2.len() == buf2.len(),
        buf2.take(buf.len() as int) == buf,
        info2.take(buf.len() as int) == info,
        node_ok(buf, info, i, exact),
    ensures
        node_ok(buf2, info2, i, exact),
{
    assert(buf2[i] == buf2.take(buf.len() as int)[i]);
    assert(info2[i] == info2.take(buf.len() as int)[i]);
    let n = buf[i];
    assert forall|k: int| 0 <= k < n.spec_inputs().len() implies edge_ok(info2, i, #[trigger] n.spec_inputs()[k]) by {
        let t = n.spec_inputs()[k].1 as int;
        assert(edge_ok(info, i, n.spec_inputs()[k]));
        assert(info2[t] == info2.take(buf.len() as int)[t]);
    }
    {
        let p = info[i].0;
        let h = info[i].1;
        assert forall|m: Seq<u8>, v: T| #[trigger] h(m, v) && m.len() > p.len() && exact(m) implies exists|k: int|
            0 <= k < n.spec_inputs().len() && edge_leads(info2, #[trigger] n.spec_inputs()[k], n.spec_amount() as int, m, v) by {
            let k = choose|k: int| 0 <= k < n.spec_inputs().len() && edge_leads(info, #[trigger] n.spec_inputs()[k], n.spec_amount() as int, m, v);
            assert(edge_ok(info, i, n.spec_inputs()[k]));
            let t = n.spec_inputs()[k].1 as int;
            assert(info2[t] == info2.take(buf.len() as int)[t]);
            assert(edge_leads(info2, n.spec_inputs()[k], n.spec_amount() as int, m, v));
        }
    }
}

/// Appending an agreeing node keeps the buffer emitted.
pub(crate) proof fn lemma_emitted_push<K: Segmentable, T: Clone>(
    buf: Seq<Node<K, Option<T>>>,
    info: Seq<NodeInfo<T>>,
    n: Node<K, Option<T>>,
    x: NodeInfo<T>,
    exact: spec_fn(Seq<u8>) -> bool,
)
    requires
        emitted(buf, info, exact),
        node_wf(n, buf.len() as int),
        node_ok(buf.push(n), info.push(x), buf.len() as int, exact),
    ensures
        emitted(buf.push(n), info.push(x), exact),
{
    lemma_push_ok(buf, n);
    let b2 = buf.push(n);
    let i2 = info.push(x);
    assert(b2.take(buf.len() as int) =~= buf);
    assert(i2.take(buf.len() as int) =~= info);
    assert forall|i: int| 1 <= i < b2.len() implies #[trigger] node_ok(b2, i2, i, exact) by {
        if i < buf.len() {
            lemma_node_ok_frame(buf, info, b2, i2, i, exact);
        }
    }
    assert(b2[0] == buf[0]);
}

/// An edge into one of the siblings `cs`, reached with `base` consumed: it
/// leads to a node emitted between `lo` and `hi` that stands for the bytes
/// up to the end of the chunk and for keys of the siblings.
pub(crate) open spec fn sibling_edge<K: Segmentable, T>(
    info: Seq<NodeInfo<T>>,
    cs: Seq<TrieNode<T>>,
    base: Seq<u8>,
    e: (K, usize),
    lo: int,
    hi: int,
) -> bool {
    &&& lo <= e.1 < hi
    &&& info[e.1 as int].0 == base + e.0.units()
    &&& forall|m: Seq<u8>, v: T| #[trigger] (info[e.1 as int].1)(m, v) ==> list_has(cs, base, m, v)
    &&& exists|m: Seq<u8>, v: T| #[trigger] (info[e.1 as int].1)(m, v)
}

/// Emit the automaton node for the point `j` bytes into the edge of `c`, and
/// everything below it, after the nodes below it. Returns its index.
///
/// Inside the edge, the node consumes the rest of the edge at once; at its end
/// the node dispatches among the children.
pub(crate) fn emit_node<'a, T: Clone, Type: GraphType<'a>>(
    c: &'a TrieNode<T>,
    j: usize,
    buf: &mut Vec<Node<'a, Type::InputKey, Option<T>>>,
    Ghost(base): Ghost<Seq<u8>>,
    Ghost(info): Ghost<Seq<NodeInfo<T>>>,
) -> (r: (usize, Ghost<Seq<NodeInfo<T>>>))
    requires
        emitted(old(buf)@, info, exact_of::<Type>()),
        trie_wf(*c, Type::aligned()),
        live(*c),
        forall|m: Seq<u8>, v: T| #[trigger] has(*c, base, m, v) ==> Type::normal(m),
        1 <= j <= c.value@.len(),
    ensures
        emitted(final(buf)@, r.1@, exact_of::<Type>()),
        final(buf)@.len() >= old(buf)@.len(),
        final(buf)@.take(old(buf)@.len() as int) == old(buf)@,
        r.1@.take(old(buf)@.len() as int) == info,
        old(buf)@.len() <= r.0,
        r.0 == final(buf)@.len() - 1,
        final(buf)@.len() - old(buf)@.len() == node_count(*c, j as int),
        payloads_placed(final(buf)@, r.1@, old(buf)@.len() as int, final(buf)@.len() as int, held_by(*c, base)),
        forall|k: int|
            0 <= k < final(buf)@[r.0 as int].spec_inputs().len() ==> old(buf)@.len() <= (
            #[trigger] final(buf)@[r.0 as int].spec_inputs()[k]).1 < r.0,
        j < c.value@.len() ==> final(buf)@[r.0 as int].spec_output() is None,
        j < c.value@.len() && Type::represents(c.value@.subrange(j as int, c.value@.len() as int))
            ==> final(buf)@[r.0 as int].spec_amount() == c.value@.len() - j
            && final(buf)@[r.0 as int].spec_inputs().len() == 1
            && final(buf)@[r.0 as int].spec_inputs()[0].0.units() == c.value@.subrange(j as int, c.value@.len() as int),
        r.1@[r.0 as int].0 == base + c.value@.take(j as int),
        forall|m: Seq<u8>, v: T| #[trigger] (r.1@[r.0 as int].1)(m, v) == has(*c, base, m, v),
    decreases *c, (if j < c.value@.len() { 1int } else { 0int }),
{
    let ghost old_buf = buf@;
    let ghost h = held_by(*c, base);
    let len = c.value.len();
    if j < len {
        let (target, Ghost(info1)) = emit_node::<T, Type>(c, len, buf, Ghost(base), Ghost(info));
        let mut edges: Vec<(Type::InputKey, usize)> = Vec::new();
        let chunk = slice_subrange(c.value.as_slice(), j, len);
        match Type::key(chunk) {
            Some(k) => edges.push((k, target)),
            None => {},
        }
        let amount = if edges.len() == 0 { 1 } else { len - j };
        let node = Node::from_vec(edges, None, 0, amount);
        let ghost p = base + c.value@.take(j as int);
        let ghost x: NodeInfo<T> = (p, h);
        let ghost info2 = info1.push(x);
        proof {
            let b2 = buf@.push(node);
            let i = buf@.len() as int;
            assert(c.value@.take(len as int) =~= c.value@);
            assert(p + chunk@ =~= base + c.value@);
            assert(info2[i] == x);
            assert(info2[target as int] == info1[target as int]);
            assert forall|m: Seq<u8>, v: T| #[trigger] h(m, v) implies p.is_prefix_of(m) by {
                lemma_has_prefix(*c, base, m, v);
                assert(p =~= m.subrange(0, p.len() as int));
            }
            assert forall|v: T| !(#[trigger] h(p, v)) by {
                lemma_too_short(*c, base, p, v);
            }
            assert forall|k: int| 0 <= k < node.spec_inputs().len() implies edge_ok(info2, i, #[trigger] node.spec_inputs()[k]) by {
                assert(node.spec_inputs()[k] == edges@[0]);
                lemma_live_has(*c, base);
                let (m0, v0) = choose|m0: Seq<u8>, v0: T| #[trigger] has(*c, base, m0, v0);
                assert((info2[target as int].1)(m0, v0));
            }
            assert forall|m: Seq<u8>, v: T| #[trigger] h(m, v) && m.len() > p.len() && exact_of::<Type>()(m) implies exists|k: int|
                0 <= k < node.spec_inputs().len() && edge_leads(info2, #[trigger] node.spec_inputs()[k], node.spec_amount() as int, m, v) by {
                lemma_has_prefix(*c, base, m, v);
                assert((base + c.value@).is_prefix_of(m)) by {
                    assert(base + c.value@ =~= m.subrange(0, (base + c.value@).len() as int));
                }
                assert(chunk@ =~= m.subrange(base.len() + j, base.len() + len)) by {
                    assert forall|x: int| 0 <= x < chunk@.len() implies chunk@[x] == m[base.len() + j + x] by {
                        assert(m.subrange(0, (base + c.value@).len() as int)[base.len() + j + x] == (base + c.value@)[base.len() + j + x]);
                    }
                }
                Type::lemma_exact(m, base.len() + j, base.len() + len);
                Type::lemma_exact(chunk@, 0, 0);
                assert(edge_leads(info2, node.spec_inputs()[0], node.spec_amount() as int, m, v));
            }
            assert(node_ok(b2, info2, i, exact_of::<Type>()));
            lemma_emitted_push(buf@, info1, node, x, exact_of::<Type>());
            assert(b2.take(old_buf.len() as int) =~= old_buf) by {
                assert(buf@.take(old_buf.len() as int) == old_buf);
            }
            assert(info2.take(old_buf.len() as int) =~= info) by {
                assert(info1.take(old_buf.len() as int) == info);
            }
        }
        let ghost mid_buf = buf@;
        buf.push(node);
        proof {
            assert(buf@.take(mid_buf.len() as int) =~= mid_buf);
            assert(info2.take(mid_buf.len() as int) =~= info1);
            lemma_placed_frame(mid_buf, info1, buf@, info2, old_buf.len() as int, mid_buf.len() as int, h);
            lemma_placed_none(buf@, info2, old_buf.len() as int, mid_buf.len() as int, h);
        }
        (buf.len() - 1, Ghost(info2))
    } else {
        let ghost here = base + c.value@;
        proof {
            assert forall|m: Seq<u8>, v: T| #[trigger] list_has(c.children@, here, m, v) implies Type::normal(m) by {
                lemma_has_unfold(*c, base, m, v);
            }
        }
        let (edges, amount, Ghost(info1)) = emit_siblings::<T, Type>(&c.children, buf, Ghost(here), Ghost(info));
        let output = c.output.clone();
        let width = if edges.len() == 0 { 1 } else { amount };
        let node = Node::from_vec(edges, output, 0, width);
        let ghost x: NodeInfo<T> = (here, h);
        let ghost info2 = info1.push(x);
        proof {
            let b2 = buf@.push(node);
            let i = buf@.len() as int;
            assert(c.value@.take(j as int) =~= c.value@);
            assert(info2[i] == x);
            assert forall|m: Seq<u8>, v: T| #[trigger] h(m, v) implies here.is_prefix_of(m) by {
                lemma_has_prefix(*c, base, m, v);
                assert(here =~= m.subrange(0, here.len() as int));
            }
            assert forall|v: T| #[trigger] h(here, v) implies node.spec_output() is Some && cloned(v, node.spec_output()->0) by {
                if list_has(c.children@, here, here, v) {
                    let k = choose|k: int| 0 <= k < c.children@.len() && has(#[trigger] c.children@[k], here, here, v);
                    lemma_too_short(c.children@[k], here, here, v);
                }
                if !(c.output == Some(v)) {
                    let k = choose|k: int| 0 <= k < c.children@.len() && has(#[trigger] c.children@[k], here, here, v);
                    assert(list_has(c.children@, here, here, v));
                }
            }
            if node.spec_output() is Some {
                assert(h(here, c.output->0));
            }
            assert forall|k: int| 0 <= k < node.spec_inputs().len() implies edge_ok(info2, i, #[trigger] node.spec_inputs()[k]) by {
                let e = node.spec_inputs()[k];
                assert(sibling_edge(info1, c.children@, here, e, old_buf.len() as int, i));
                assert(info2[e.1 as int] == info1[e.1 as int]);
                let (m0, v0) = choose|m0: Seq<u8>, v0: T| #[trigger] (info1[e.1 as int].1)(m0, v0);
                assert((info2[e.1 as int].1)(m0, v0));
                assert forall|m: Seq<u8>, v: T| #[trigger] (info2[e.1 as int].1)(m, v) implies (info2[i].1)(m, v) by {
                    assert(list_has(c.children@, here, m, v));
                    let q = choose|q: int| 0 <= q < c.children@.len() && has(#[trigger] c.children@[q], here, m, v);
                    assert(has(*c, base, m, v));
                }
            }
            assert forall|m: Seq<u8>, v: T| #[trigger] h(m, v) && m.len() > here.len() && exact_of::<Type>()(m) implies exists|k: int|
                0 <= k < node.spec_inputs().len() && edge_leads(info2, #[trigger] node.spec_inputs()[k], node.spec_amount() as int, m, v) by {
                lemma_has_unfold(*c, base, m, v);
                assert(list_has(c.children@, here, m, v));
                let k = choose|k: int| 0 <= k < edges@.len() && edge_leads(info1, #[trigger] edges@[k], amount as int, m, v);
                let e = edges@[k];
                assert(sibling_edge(info1, c.children@, here, e, old_buf.len() as int, i));
                assert(info2[e.1 as int] == info1[e.1 as int]);
                assert(edge_leads(info2, node.spec_inputs()[k], node.spec_amount() as int, m, v));
            }
            assert(node_ok(b2, info2, i, exact_of::<Type>()));
            lemma_emitted_push(buf@, info1, node, x, exact_of::<Type>());
            assert(b2.take(old_buf.len() as int) =~= old_buf) by {
                assert(buf@.take(old_buf.len() as int) == old_buf);
            }
            assert(info2.take(old_buf.len() as int) =~= info) by {
                assert(info1.take(old_buf.len() as int) == info);
            }
        }
        let ghost mid_buf = buf@;
        buf.push(node);
        proof {
            let b2 = buf@;
            let l = mid_buf.len() as int;
            let hs = held_first(c.children@, here, c.children@.len() as int);
            let own = |m: Seq<u8>, v: T| m == here && c.output == Some(v);
            assert(b2.take(l) =~= mid_buf);
            assert(info2.take(l) =~= info1);
            lemma_placed_frame(mid_buf, info1, b2, info2, old_buf.len() as int, l, hs);
            assert(b2[l] == node);
            assert(info2[l] == x);
            assert forall|v: T| #[trigger] h(here, v) == own(here, v) by {
                lemma_has_unfold(*c, base, here, v);
                if list_has(c.children@, here, here, v) {
                    let k = choose|k: int| 0 <= k < c.children@.len() && has(#[trigger] c.children@[k], here, here, v);
                    lemma_too_short(c.children@[k], here, here, v);
                }
            }
            assert(payloads_placed(b2, info2, l, l + 1, own)) by {
                if b2[l].spec_output() is Some {
                    let v = choose|v: T| h(here, v) && cloned(v, node.spec_output()->0);
                    assert(own(info2[l].0, v));
                }
                assert forall|m: Seq<u8>, v: T| #[trigger] own(m, v) implies exists|i: int|
                    l <= i < l + 1 && (#[trigger] b2[i]).spec_output() is Some && info2[i].0 == m by {
                    assert(h(here, v));
                    assert(b2[l].spec_output() is Some);
                }
            }
            assert forall|m: Seq<u8>, v: T| #[trigger] h(m, v) == (hs(m, v) || own(m, v)) by {
                lemma_has_unfold(*c, base, m, v);
                if list_has(c.children@, here, m, v) {
                    let k = choose|k: int| 0 <= k < c.children@.len() && has(#[trigger] c.children@[k], here, m, v);
                    assert(hs(m, v));
                }
                if hs(m, v) {
                    let k = choose|k: int| 0 <= k < c.children@.len() && 0 <= k < c.children@.len() && #[trigger] has(c.children@[k], here, m, v);
                    assert(list_has(c.children@, here, m, v));
                }
            }
            assert forall|m: Seq<u8>, v: T, w: T| #[trigger] hs(m, v) && #[trigger] own(m, w) implies false by {
                let k = choose|k: int| 0 <= k < c.children@.len() && 0 <= k < c.children@.len() && #[trigger] has(c.children@[k], here, m, v);
                lemma_too_short(c.children@[k], here, m, v);
            }
            lemma_placed_join(b2, info2, old_buf.len() as int, l, l + 1, hs, own, h);
        }
        (buf.len() - 1, Ghost(info2))
    }
}

/// The edge's chunk is the first `width` bytes of one of the first `k`
/// siblings.
pub(crate) open spec fn enters_one_of<K: Segmentable, T>(e: (K, usize), cs: Seq<TrieNode<T>>, k: int, width: int) -> bool {
    exists|q: int| 0 <= q < k && e.0.units() == cs[q].value@.take(width)
}

/// A sibling that holds an exact key is entered by a chunk whose order key
/// differs from those of the chunks into the siblings before it.
pub(crate) proof fn lemma_new_chunk_distinct<'a, T, Type: GraphType<'a>>(
    cs: Seq<TrieNode<T>>,
    base: Seq<u8>,
    k: int,
    width: int,
    edges: Seq<(Type::InputKey, usize)>,
    units: Seq<u8>,
    m: Seq<u8>,
    v: T,
)
    requires
        list_wf(cs, Type::aligned()),
        0 <= k < cs.len(),
        1 <= width,
        forall|i: int| 0 <= i < cs.len() ==> width <= (#[trigger] cs[i]).value@.len(),
        forall|i: int| 0 <= i < edges.len() ==> enters_one_of(#[trigger] edges[i], cs, k, width),
        units == cs[k].value@.take(width),
        forall|m2: Seq<u8>, v2: T| #[trigger] list_has(cs, base, m2, v2) ==> Type::normal(m2),
        has(cs[k], base, m, v),
        Type::exact(m),
    ensures
        forall|i: int|
            0 <= i < edges.len() ==> <Type::InputKey as Segmentable>::order_key(#[trigger] edges[i].0.units())
                != <Type::InputKey as Segmentable>::order_key(units),
{
    let b = base.len() as int;
    let ck = cs[k];
    lemma_has_prefix(ck, base, m, v);
    assert forall|x: int| 0 <= x < ck.value@.len() implies #[trigger] ck.value@[x] == m[b + x] by {
        assert(m.take((b + ck.value@.len()) as int)[b + x] == (base + ck.value@)[b + x]);
    }
    assert(units =~= m.subrange(b, b + width));
    Type::lemma_exact(m, b, b + width);
    Type::lemma_exact(units, 0, 0);
    Type::lemma_exact(m, b, b + 1);
    Type::lemma_exact(m, 0, 0);
    assert forall|i: int| 0 <= i < edges.len() implies <Type::InputKey as Segmentable>::order_key(
        #[trigger] edges[i].0.units(),
    ) != <Type::InputKey as Segmentable>::order_key(units) by {
        assert(enters_one_of(edges[i], cs, k, width));
        let q = choose|q: int| 0 <= q < k && edges[i].0.units() == cs[q].value@.take(width);
        let cq = cs[q];
        lemma_live_has(cq, base);
        let (mq, vq) = choose|mq: Seq<u8>, vq: T| has(cq, base, mq, vq);
        assert(list_has(cs, base, mq, vq));
        lemma_has_prefix(cq, base, mq, vq);
        assert forall|x: int| 0 <= x < cq.value@.len() implies #[trigger] cq.value@[x] == mq[b + x] by {
            assert(mq.take((b + cq.value@.len()) as int)[b + x] == (base + cq.value@)[b + x]);
        }
        let cu = edges[i].0.units();
        assert(cu =~= mq.subrange(b, b + width));
        Type::lemma_normal(mq, b, b + width);
        Type::lemma_normal(cu, 0, 0);
        Type::lemma_normal(mq, 0, 0);
        if <Type::InputKey as Segmentable>::order_key(cu) == <Type::InputKey as Segmentable>::order_key(units) {
            assert(cq.value@.take(1) =~= ck.value@.take(1)) by {
                assert(cu[0] == units[0]);
            }
            if ck.value@.len() > 1 {
                assert(starts(Type::aligned(), m[b + 1]));
            }
            if cq.value@.len() > 1 {
                assert(mq.subrange(b, b + 1) =~= m.subrange(b, b + 1)) by {
                    assert(cu[0] == units[0]);
                }
                assert(starts(Type::aligned(), mq[b + 1]));
            }
            assert(shared_cut(cq.value@, ck.value@, 1, Type::aligned()));
        }
    }
}

/// One step of sibling emission keeps the edges standing for their siblings.
pub(crate) proof fn lemma_sibling_step<K: Segmentable, T>(
    cs: Seq<TrieNode<T>>,
    base: Seq<u8>,
    width: int,
    k: int,
    cur: Seq<NodeInfo<T>>,
    before_cur: Seq<NodeInfo<T>>,
    before_edges: Seq<(K, usize)>,
    e_new: Seq<(K, usize)>,
    target: int,
    chunk: Seq<u8>,
    lo: int,
    mid: int,
    hi: int,
)
    requires
        0 <= k < cs.len(),
        lo <= mid <= target < hi,
        cur.len() == hi,
        before_cur.len() == mid,
        cur.take(mid) == before_cur,
        chunk == cs[k].value@.take(width),
        cur[target].0 == base + chunk,
        forall|m: Seq<u8>, v: T| #[trigger] (cur[target].1)(m, v) == has(cs[k], base, m, v),
        live(cs[k]),
        forall|i: int| 0 <= i < before_edges.len() ==> sibling_edge(before_cur, cs, base, #[trigger] before_edges[i], lo, mid),
        forall|i: int| 0 <= i < before_edges.len() ==> enters_one_of(#[trigger] before_edges[i], cs, k, width),
        forall|i: int|
            0 <= i < e_new.len() ==> (#[trigger] e_new[i]).1 == target && e_new[i].0.units() == chunk
                || exists|a: int| 0 <= a < before_edges.len() && e_new[i] == before_edges[a],
    ensures
        forall|i: int| 0 <= i < e_new.len() ==> sibling_edge(cur, cs, base, #[trigger] e_new[i], lo, hi),
        forall|i: int| 0 <= i < e_new.len() ==> enters_one_of(#[trigger] e_new[i], cs, k + 1, width),
{
    assert forall|i: int| 0 <= i < e_new.len() implies sibling_edge(cur, cs, base, #[trigger] e_new[i], lo, hi)
        && enters_one_of(e_new[i], cs, k + 1, width) by {
        if exists|a: int| 0 <= a < before_edges.len() && e_new[i] == before_edges[a] {
            let a = choose|a: int| 0 <= a < before_edges.len() && e_new[i] == before_edges[a];
            let t = before_edges[a].1 as int;
            assert(sibling_edge(before_cur, cs, base, before_edges[a], lo, mid));
            assert(cur[t] == cur.take(mid)[t]);
            assert(enters_one_of(before_edges[a], cs, k, width));
            let (m0, v0) = choose|m0: Seq<u8>, v0: T| #[trigger] (before_cur[t].1)(m0, v0);
            assert((cur[t].1)(m0, v0));
        } else {
            assert forall|m: Seq<u8>, v: T| #[trigger] (cur[target].1)(m, v) implies list_has(cs, base, m, v) by {
                assert(has(cs[k], base, m, v));
            }
            lemma_live_has(cs[k], base);
            let (m0, v0) = choose|m0: Seq<u8>, v0: T| #[trigger] has(cs[k], base, m0, v0);
            assert((cur[target].1)(m0, v0));
            assert(e_new[i].0.units() == cs[k].value@.take(width));
        }
    }
}

/// One step of sibling emission: every exact key of the siblings
/// so far is led to by an edge.
pub(crate) proof fn lemma_sibling_step_leads<K: Segmentable, T>(
    cs: Seq<TrieNode<T>>,
    base: Seq<u8>,
    width: int,
    k: int,
    cur: Seq<NodeInfo<T>>,
    before_cur: Seq<NodeInfo<T>>,
    before_edges: Seq<(K, usize)>,
    e_new: Seq<(K, usize)>,
    target: int,
    chunk: Seq<u8>,
    lo: int,
    mid: int,
    hi: int,
    exact: spec_fn(Seq<u8>) -> bool,
)
    requires
        0 <= k < cs.len(),
        lo <= mid <= target < hi,
        cur.len() == hi,
        before_cur.len() == mid,
        cur.take(mid) == before_cur,
        chunk.len() == width,
        cur[target].0 == base + chunk,
        forall|m: Seq<u8>, v: T| #[trigger] (cur[target].1)(m, v) == has(cs[k], base, m, v),
        forall|m: Seq<u8>, v: T| #[trigger] has(cs[k], base, m, v) ==> (base + chunk).is_prefix_of(m),
        forall|i: int| 0 <= i < before_edges.len() ==> sibling_edge(before_cur, cs, base, #[trigger] before_edges[i], lo, mid),
        forall|q: int, m: Seq<u8>, v: T|
            0 <= q < k && #[trigger] has(cs[q], base, m, v) && exact(m) ==> exists|i: int|
                0 <= i < before_edges.len() && edge_leads(before_cur, #[trigger] before_edges[i], width, m, v),
        forall|a: int| 0 <= a < before_edges.len() ==> in_list(e_new, #[trigger] before_edges[a]),
        (exists|m: Seq<u8>, v: T| has(cs[k], base, m, v) && exact(m)) ==> exists|i: int|
            0 <= i < e_new.len() && (#[trigger] e_new[i]).1 == target && e_new[i].0.units() == chunk,
    ensures
        forall|q: int, m: Seq<u8>, v: T|
            0 <= q < k + 1 && #[trigger] has(cs[q], base, m, v) && exact(m) ==> exists|i: int|
                0 <= i < e_new.len() && edge_leads(cur, #[trigger] e_new[i], width, m, v),
{
    assert forall|q: int, m: Seq<u8>, v: T|
        0 <= q < k + 1 && #[trigger] has(cs[q], base, m, v) && exact(m) implies exists|i: int|
            0 <= i < e_new.len() && edge_leads(cur, #[trigger] e_new[i], width, m, v) by {
        if q < k {
            let i = choose|i: int| 0 <= i < before_edges.len() && edge_leads(before_cur, #[trigger] before_edges[i], width, m, v);
            let a = choose|a: int| 0 <= a < e_new.len() && e_new[a] == before_edges[i];
            let t = before_edges[i].1 as int;
            assert(sibling_edge(before_cur, cs, base, before_edges[i], lo, mid));
            assert(cur[t] == cur.take(mid)[t]);
            assert(edge_leads(cur, e_new[a], width, m, v));
        } else {
            let a0 = choose|i: int| 0 <= i < e_new.len() && (#[trigger] e_new[i]).1 == target && e_new[i].0.units() == chunk;
            assert((cur[target].1)(m, v));
            assert(edge_leads(cur, e_new[a0], width, m, v));
        }
    }
}

/// Every edge of a list is found in it.
pub(crate) proof fn lemma_edges_kept<K>(e: Seq<(K, usize)>)
    ensures
        forall|j: int| 0 <= j < e.len() ==> in_list(e, #[trigger] e[j]),
{
    assert forall|j: int| 0 <= j < e.len() implies in_list(e, #[trigger] e[j]) by {
        assert(e[j] == e[j]);
    }
}

/// Add the edge for `chunk` into `target` to the sorted edges, when an input
/// key can hold the chunk and no edge has its order key yet.
pub(crate) fn add_edge<'a, Type: GraphType<'a>>(
    edges: &mut Vec<(Type::InputKey, usize)>,
    chunk: &'a [u8],
    target: usize,
    Ghost(bound): Ghost<int>,
    Ghost(fresh): Ghost<bool>,
)
    requires
        sorted_edges(old(edges)@),
        forall|j: int| 0 <= j < old(edges)@.len() ==> #[trigger] old(edges)@[j].1 < bound,
        target < bound,
        fresh ==> Type::represents(chunk@),
        fresh ==> forall|j: int|
            0 <= j < old(edges)@.len() ==> <Type::InputKey as Segmentable>::order_key(
                #[trigger] old(edges)@[j].0.units(),
            ) != <Type::InputKey as Segmentable>::order_key(chunk@),
    ensures
        sorted_edges(final(edges)@),
        forall|j: int| 0 <= j < final(edges)@.len() ==> #[trigger] final(edges)@[j].1 < bound,
        forall|j: int| 0 <= j < old(edges)@.len() ==> in_list(final(edges)@, #[trigger] old(edges)@[j]),
        forall|i: int|
            0 <= i < final(edges)@.len() ==> (#[trigger] final(edges)@[i]).1 == target && final(edges)@[i].0.units()
                == chunk@ || exists|j: int| 0 <= j < old(edges)@.len() && final(edges)@[i] == old(edges)@[j],
        fresh ==> exists|i: int|
            0 <= i < final(edges)@.len() && (#[trigger] final(edges)@[i]).1 == target && final(edges)@[i].0.units()
                == chunk@,
{
    match Type::key(chunk) {
        Some(key) => {
            let ghost ku = key.units();
            insert_edge(edges, key, target, Ghost(bound));
            proof {
                if fresh {
                    let i = choose|i: int| 0 <= i < edges@.len() && edges@[i] == (key, target);
                    assert(edges@[i].1 == target && edges@[i].0.units() == chunk@);
                }
            }
        },
        None => {
            proof {
                lemma_edges_kept(edges@);
            }
        },
    }
}

/// Emit the nodes below a sibling list reached with `base` consumed, and
/// return the sorted edges into them with their common chunk length: every
/// sibling is entered by a chunk as long as the shortest sibling edge.
#[verifier::rlimit(60)]
#[verifier::spinoff_prover]
pub(crate) fn emit_siblings<'a, T: Clone, Type: GraphType<'a>>(
    cs: &'a Vec<TrieNode<T>>,
    buf: &mut Vec<Node<'a, Type::InputKey, Option<T>>>,
    Ghost(base): Ghost<Seq<u8>>,
    Ghost(info): Ghost<Seq<NodeInfo<T>>>,
) -> (r: (Vec<(Type::InputKey, usize)>, usize, Ghost<Seq<NodeInfo<T>>>))
    requires
        emitted(old(buf)@, info, exact_of::<Type>()),
        list_wf(cs@, Type::aligned()),
        forall|m: Seq<u8>, v: T| #[trigger] list_has(cs@, base, m, v) ==> Type::normal(m),
    ensures
        emitted(final(buf)@, r.2@, exact_of::<Type>()),
        final(buf)@.len() >= old(buf)@.len(),
        final(buf)@.take(old(buf)@.len() as int) == old(buf)@,
        r.2@.take(old(buf)@.len() as int) == info,
        sorted_edges(r.0@),
        r.1 >= 1,
        cs@.len() == 0 ==> r.1 == 1 && r.0@.len() == 0 && final(buf)@ == old(buf)@ && r.2@ == info,
        r.1 == sibling_width(cs@),
        final(buf)@.len() - old(buf)@.len() == list_count(cs@, r.1 as int, cs@.len() as int),
        payloads_placed(
            final(buf)@,
            r.2@,
            old(buf)@.len() as int,
            final(buf)@.len() as int,
            held_first(cs@, base, cs@.len() as int),
        ),
        cs@.len() > 0 ==> (forall|q: int| 0 <= q < cs@.len() ==> r.1 <= (#[trigger] cs@[q]).value@.len())
            && exists|q: int| 0 <= q < cs@.len() && r.1 == (#[trigger] cs@[q]).value@.len(),
        forall|k: int| 0 <= k < r.0@.len() ==> (#[trigger] r.0@[k]).0.units().len() == r.1,
        forall|k: int|
            0 <= k < r.0@.len() ==> sibling_edge(
                r.2@,
                cs@,
                base,
                #[trigger] r.0@[k],
                old(buf)@.len() as int,
                final(buf)@.len() as int,
            ),
        forall|m: Seq<u8>, v: T|
            #[trigger] list_has(cs@, base, m, v) && Type::exact(m) ==> exists|k: int|
                0 <= k < r.0@.len() && edge_leads(r.2@, #[trigger] r.0@[k], r.1 as int, m, v),
    decreases *cs, 0int,
{
    let ghost old_buf = buf@;
    let mut edges: Vec<(Type::InputKey, usize)> = Vec::new();
    let n = cs.len();
    if n == 0 {
        proof {
            assert(old_buf.take(old_buf.len() as int) =~= old_buf);
            assert(info.take(old_buf.len() as int) =~= info);
        }
        proof {
            assert forall|m: Seq<u8>, v: T| !(#[trigger] list_has(cs@, base, m, v)) by {
            }
            assert(payloads_placed(old_buf, info, old_buf.len() as int, old_buf.len() as int, held_first(cs@, base, 0)));
        }
        return (edges, 1, Ghost(info));
    }
    let mut width = cs[0].value.len();
    let mut k: usize = 1;
    assert(width == cs@[0].value@.len());
    while k < n
        invariant
            n == cs@.len(),
            list_wf(cs@, Type::aligned()),
            1 <= k <= n,
            width >= 1,
            forall|i: int| 0 <= i < k ==> width <= (#[trigger] cs@[i]).value@.len(),
            exists|i: int| 0 <= i < k && width == (#[trigger] cs@[i]).value@.len(),
        decreases n - k,
    {
        if cs[k].value.len() < width {
            width = cs[k].value.len();
        }
        k = k + 1;
    }
    let ghost mut cur = info;
    proof {
        assert(shortest(cs@, width as int));
        lemma_shortest_unique(cs@, width as int);
        assert(payloads_placed(old_buf, info, old_buf.len() as int, old_buf.len() as int, held_first(cs@, base, 0)));
        assert(old_buf.take(old_buf.len() as int) =~= old_buf);
        assert(info.take(old_buf.len() as int) =~= info);
    }
    let mut k: usize = 0;
    while k < n
        invariant
            n == cs@.len(),
            list_wf(cs@, Type::aligned()),
            forall|m: Seq<u8>, v: T| #[trigger] list_has(cs@, base, m, v) ==> Type::normal(m),
            k <= n,
            width >= 1,
            forall|i: int| 0 <= i < n ==> width <= (#[trigger] cs@[i]).value@.len(),
            exists|i: int| 0 <= i < n && width == (#[trigger] cs@[i]).value@.len(),
            buf@.len() - old_buf.len() == list_count(cs@, width as int, k as int),
            payloads_placed(buf@, cur, old_buf.len() as int, buf@.len() as int, held_first(cs@, base, k as int)),
            emitted(buf@, cur, exact_of::<Type>()),
            buf@.len() >= old_buf.len(),
            buf@.take(old_buf.len() as int) == old_buf,
            cur.take(old_buf.len() as int) == info,
            sorted_edges(edges@),
            forall|i: int|
                0 <= i < edges@.len() ==> sibling_edge(
                    cur,
                    cs@,
                    base,
                    #[trigger] edges@[i],
                    old_buf.len() as int,
                    buf@.len() as int,
                ),
            forall|i: int| 0 <= i < edges@.len() ==> enters_one_of(#[trigger] edges@[i], cs@, k as int, width as int),
            forall|q: int, m: Seq<u8>, v: T|
                0 <= q < k && #[trigger] has(cs@[q], base, m, v) && exact_of::<Type>()(m) ==> exists|i: int|
                    0 <= i < edges@.len() && edge_leads(cur, #[trigger] edges@[i], width as int, m, v),
        decreases n - k,
    {
        let child = &cs[k];
        let ghost before_buf = buf@;
        let ghost before_cur = cur;
        let ghost before_edges = edges@;
        proof {
            assert(trie_wf(cs@[k as int], Type::aligned()));
            assert(live(cs@[k as int]));
            assert forall|m: Seq<u8>, v: T| #[trigger] has(cs@[k as int], base, m, v) implies Type::normal(m) by {
                assert(list_has(cs@, base, m, v));
            }
        }
        let (target, Ghost(next)) = emit_node::<T, Type>(child, width, buf, Ghost(base), Ghost(cur));
        proof {
            cur = next;
            let b = buf@;
            lemma_placed_frame(before_buf, before_cur, b, cur, old_buf.len() as int, before_buf.len() as int, held_first(cs@, base, k as int));
            let h1 = held_first(cs@, base, k as int);
            let h2 = held_by(cs@[k as int], base);
            let hh = held_first(cs@, base, k + 1);
            assert forall|m: Seq<u8>, v: T| #[trigger] hh(m, v) == (h1(m, v) || h2(m, v)) by {
                if hh(m, v) {
                    let q = choose|q: int| 0 <= q < k + 1 && 0 <= q < cs@.len() && #[trigger] has(cs@[q], base, m, v);
                    if q < k {
                        assert(h1(m, v));
                    }
                }
                if h2(m, v) {
                    assert(has(cs@[k as int], base, m, v));
                }
            }
            assert forall|m: Seq<u8>, v: T, w: T| #[trigger] h1(m, v) && #[trigger] h2(m, w) implies false by {
                let q = choose|q: int| 0 <= q < k && 0 <= q < cs@.len() && #[trigger] has(cs@[q], base, m, v);
                lemma_siblings_disjoint(cs@, base, q, k as int, m, v, w, Type::aligned());
            }
            lemma_placed_join(b, cur, old_buf.len() as int, before_buf.len() as int, b.len() as int, h1, h2, hh);
        }
        let chunk = slice_subrange(child.value.as_slice(), 0, width);
        let ghost held_exact = exists|m: Seq<u8>, v: T| has(cs@[k as int], base, m, v) && Type::exact(m);
        proof {
            assert(chunk@ =~= cs@[k as int].value@.take(width as int));
            assert forall|m: Seq<u8>, v: T| #[trigger] has(cs@[k as int], base, m, v) implies (base + chunk@).is_prefix_of(m)
                && chunk@ == m.subrange(base.len() as int, base.len() + width) by {
                lemma_has_prefix(cs@[k as int], base, m, v);
                assert(base + chunk@ =~= m.subrange(0, (base + chunk@).len() as int)) by {
                    assert forall|x: int| 0 <= x < (base + chunk@).len() implies (base + chunk@)[x] == m[x] by {
                        assert(m.take((base.len() + cs@[k as int].value@.len()) as int)[x] == (base + cs@[k as int].value@)[x]);
                    }
                }
                assert forall|x: int| 0 <= x < width implies chunk@[x] == m[base.len() + x] by {
                    assert((base + chunk@)[base.len() + x] == chunk@[x]);
                }
                assert(chunk@ =~= m.subrange(base.len() as int, base.len() + width));
            }
            if held_exact {
                let (m, v) = choose|m: Seq<u8>, v: T| has(cs@[k as int], base, m, v) && Type::exact(m);
                Type::lemma_exact(m, base.len() as int, base.len() + width);
                Type::lemma_exact(chunk@, 0, 0);
            }
            assert(buf@.take(old_buf.len() as int) =~= old_buf) by {
                assert(buf@.take(before_buf.len() as int) == before_buf);
                assert(buf@.take(old_buf.len() as int) =~= buf@.take(before_buf.len() as int).take(old_buf.len() as int));
            }
            assert(cur.take(old_buf.len() as int) =~= info) by {
                assert(cur.take(before_buf.len() as int) == before_cur);
                assert(cur.take(old_buf.len() as int) =~= cur.take(before_buf.len() as int).take(old_buf.len() as int));
            }
        }
        proof {
            if held_exact {
                let (m, v) = choose|m: Seq<u8>, v: T| has(cs@[k as int], base, m, v) && Type::exact(m);
                lemma_new_chunk_distinct::<T, Type>(cs@, base, k as int, width as int, before_edges, chunk@, m, v);
            }
        }
        add_edge::<Type>(&mut edges, chunk, target, Ghost(buf@.len() as int), Ghost(held_exact));
        proof {
            lemma_sibling_step::<Type::InputKey, T>(
                cs@,
                base,
                width as int,
                k as int,
                cur,
                before_cur,
                before_edges,
                edges@,
                target as int,
                chunk@,
                old_buf.len() as int,
                before_buf.len() as int,
                buf@.len() as int,
            );
            lemma_sibling_step_leads::<Type::InputKey, T>(
                cs@,
                base,
                width as int,
                k as int,
                cur,
                before_cur,
                before_edges,
                edges@,
                target as int,
                chunk@,
                old_buf.len() as int,
                before_buf.len() as int,
                buf@.len() as int,
                exact_of::<Type>(),
            );
        }
        k = k + 1;
    }
    let ghost final_edges = edges@;
    let r = (edges, width, Ghost(cur));
    proof {
        assert(r.0@ == final_edges);
        assert forall|i: int| 0 <= i < final_edges.len() implies (#[trigger] final_edges[i]).0.units().len() == width by {
            assert(enters_one_of(final_edges[i], cs@, n as int, width as int));
            let q = choose|q: int| 0 <= q < n && final_edges[i].0.units() == cs@[q].value@.take(width as int);
            assert(width <= cs@[q].value@.len());
        }
        assert forall|m: Seq<u8>, v: T| #[trigger] list_has(cs@, base, m, v) && Type::exact(m) implies exists|i: int|
            0 <= i < r.0@.len() && edge_leads(r.2@, #[trigger] r.0@[i], r.1 as int, m, v) by {
            let q = choose|q: int| 0 <= q < cs@.len() && has(#[trigger] cs@[q], base, m, v);
            assert(has(cs@[q], base, m, v) && exact_of::<Type>()(m));
            let i = choose|i: int| 0 <= i < final_edges.len() && edge_leads(cur, #[trigger] final_edges[i], width as int, m, v);
            assert(edge_leads(r.2@, r.0@[i], r.1 as int, m, v));
        }
    }
    r
}

/// The trap node holds evaluation: whatever input is left, the output is
/// `None`.
pub(crate) proof fn lemma_trap<K: Segmentable, T>(nodes: Seq<Node<K, Option<T>>>, u: Seq<u8>)
    requires
        nodes.len() >= 1,
        nodes[0].spec_inputs().len() == 0,
        nodes[0].spec_output() is None,
        nodes[0].spec_default() == 0,
    ensures
        run(nodes, 0, u) is None,
    decreases u.len(),
{
    let a = nodes[0].spec_amount() as int;
    if !(a == 0 || u.len() < a || !K::can_split(u, a)) {
        assert(!has_edge(nodes[0].spec_inputs(), K::order_key(u.take(a))));
        lemma_trap(nodes, u.skip(a));
    }
}

/// Evaluation from an emitted node yields a payload only where a prefix of
/// the input leads to a key held there, whose payload it clones.
pub(crate) proof fn lemma_sound<K: Segmentable, T: Clone>(
    nodes: Seq<Node<K, Option<T>>>,
    info: Seq<NodeInfo<T>>,
    exact: spec_fn(Seq<u8>) -> bool,
    i: int,
    u: Seq<u8>,
)
    requires
        emitted(nodes, info, exact),
        0 <= i < nodes.len(),
    ensures
        run(nodes, i, u) is Some ==> exists|n: int, s: Seq<u8>, v: T|
            0 <= n <= u.len() && (#[trigger] (info[i].1)(s, v)) && cloned(v, run(nodes, i, u)->0)
                && K::order_key(s) == K::order_key(info[i].0) + K::order_key(#[trigger] u.take(n)),
    decreases u.len(),
{
    if i == 0 {
        lemma_trap(nodes, u);
        return;
    }
    assert(node_ok(nodes, info, i, exact));
    assert(node_wf(nodes[i], i + 1));
    let node = nodes[i];
    let a = node.spec_amount() as int;
    let p = info[i].0;
    if run(nodes, i, u) is None {
        return;
    }
    if a == 0 || u.len() < a || !K::can_split(u, a) {
        assert(run(nodes, i, u) == node.spec_output());
        let w = node.spec_output()->0;
        let v = choose|v: T| (info[i].1)(p, v) && cloned(v, w);
        K::lemma_order_key_concat(Seq::<u8>::empty(), Seq::<u8>::empty());
        assert(u.take(0) =~= Seq::<u8>::empty());
        assert(K::order_key(u.take(0)) =~= Seq::<u8>::empty());
        assert(K::order_key(p) =~= K::order_key(p) + K::order_key(u.take(0)));
        assert(0 <= 0 <= u.len() && (info[i].1)(p, v) && cloned(v, run(nodes, i, u)->0)
            && K::order_key(p) == K::order_key(info[i].0) + K::order_key(u.take(0)));
    } else {
        let chunk = u.take(a);
        let rest = u.skip(a);
        let edges = node.spec_inputs();
        let key = K::order_key(chunk);
        if has_edge(edges, key) {
            let c = choose|j: int| 0 <= j < edges.len() && K::order_key(#[trigger] edges[j].0.units()) == key;
            let e = edges[c];
            let t = e.1 as int;
            assert(edge_ok(info, i, edges[c]));
            lemma_edge_target(edges, key, node.spec_default(), c);
            assert(run(nodes, i, u) == run(nodes, t, rest));
            lemma_sound(nodes, info, exact, t, rest);
            let (n2, s, v) = choose|n2: int, s: Seq<u8>, v: T|
                0 <= n2 <= rest.len() && (#[trigger] (info[t].1)(s, v)) && cloned(v, run(nodes, t, rest)->0)
                    && K::order_key(s) == K::order_key(info[t].0) + K::order_key(#[trigger] rest.take(n2));
            K::lemma_order_key_concat(p, e.0.units());
            K::lemma_order_key_concat(chunk, rest.take(n2));
            assert(u.take(a + n2) =~= chunk + rest.take(n2));
            assert(K::order_key(s) =~= K::order_key(p) + K::order_key(u.take(a + n2)));
            assert((info[i].1)(s, v));
            assert(0 <= a + n2 <= u.len() && (info[i].1)(s, v) && cloned(v, run(nodes, i, u)->0)
                && K::order_key(s) == K::order_key(info[i].0) + K::order_key(u.take(a + n2)));
        } else {
            assert(run(nodes, i, u) == run(nodes, 0, rest));
            lemma_trap(nodes, rest);
        }
    }
}

/// Evaluation from an emitted node of the rest of an exact key held there
/// yields a clone of the key's payload.
pub(crate) proof fn lemma_complete<'a, T: Clone, Type: GraphType<'a>>(
    nodes: Seq<Node<Type::InputKey, Option<T>>>,
    info: Seq<NodeInfo<T>>,
    i: int,
    r: Seq<u8>,
    v: T,
)
    requires
        emitted(nodes, info, exact_of::<Type>()),
        1 <= i < nodes.len(),
        (info[i].1)(info[i].0 + r, v),
        Type::exact(info[i].0 + r),
    ensures
        run(nodes, i, r) is Some,
        cloned(v, run(nodes, i, r)->0),
    decreases r.len(),
{
    assert(node_ok(nodes, info, i, exact_of::<Type>()));
    assert(node_wf(nodes[i], i + 1));
    let node = nodes[i];
    let a = node.spec_amount() as int;
    let p = info[i].0;
    let m = p + r;
    let edges = node.spec_inputs();
    if r.len() == 0 {
        assert(m =~= p);
        assert((info[i].1)(p, v));
    } else {
        assert((info[i].1)(m, v));
        assert(m.len() > p.len());
        assert(exact_of::<Type>()(m));
        assert(exists|k: int| 0 <= k < edges.len() && edge_leads(info, #[trigger] edges[k], a, m, v));
        let k = choose|k: int| 0 <= k < edges.len() && edge_leads(info, #[trigger] edges[k], a, m, v);
        let e = edges[k];
        let t = e.1 as int;
        assert(edge_ok(info, i, edges[k]));
        let pe = info[t].0;
        assert(pe == p + e.0.units());
        assert(pe.is_prefix_of(m));
        assert(a <= r.len());
        assert(e.0.units() =~= r.take(a)) by {
            assert forall|x: int| 0 <= x < a implies e.0.units()[x] == r[x] by {
                assert(pe[p.len() + x] == m[p.len() + x]);
            }
        }
        assert(r =~= m.subrange(p.len() as int, m.len() as int));
        Type::lemma_exact(m, p.len() as int, m.len() as int);
        Type::lemma_exact(r, 0, a);
        Type::lemma_exact(r.subrange(0, a), 0, 0);
        assert(r.subrange(0, a) =~= r.take(a));
        assert(<Type::InputKey as Segmentable>::can_split(r, a));
        let key = <Type::InputKey as Segmentable>::order_key(r.take(a));
        assert(<Type::InputKey as Segmentable>::order_key(e.0.units()) == key);
        assert(has_edge(edges, key));
        lemma_edge_target(edges, key, node.spec_default(), k);
        assert(edge_target(edges, key, node.spec_default()) == t);
        assert(pe + r.skip(a) =~= m);
        lemma_complete::<T, Type>(nodes, info, t, r.skip(a), v);
    }
}

/// Evaluation from an emitted node of an exact input that runs past a key
/// held there, where no held key extends that key, yields nothing.
pub(crate) proof fn lemma_run_past<'a, T: Clone, Type: GraphType<'a>>(
    nodes: Seq<Node<Type::InputKey, Option<T>>>,
    info: Seq<NodeInfo<T>>,
    i: int,
    r: Seq<u8>,
    s: Seq<u8>,
    v: T,
)
    requires
        emitted(nodes, info, exact_of::<Type>()),
        1 <= i < nodes.len(),
        (info[i].1)(s, v),
        Type::exact(info[i].0 + r),
        s.len() < (info[i].0 + r).len(),
        (info[i].0 + r).take(s.len() as int) == s,
        forall|m: Seq<u8>, w: T|
            #[trigger] (info[i].1)(m, w) ==> !(m.len() > s.len() && m.take(s.len() as int) == s),
    ensures
        run(nodes, i, r) is None,
    decreases r.len(),
{
    assert(node_ok(nodes, info, i, exact_of::<Type>()));
    assert(node_wf(nodes[i], i + 1));
    let node = nodes[i];
    let a = node.spec_amount() as int;
    let p = info[i].0;
    let u = p + r;
    let edges = node.spec_inputs();
    assert(p.is_prefix_of(s));
    assert(r =~= u.subrange(p.len() as int, u.len() as int));
    Type::lemma_exact(u, p.len() as int, u.len() as int);
    Type::lemma_exact(r, 0, 0);
    if p.len() == s.len() {
        assert(p =~= s);
        if edges.len() > 0 {
            let e = edges[0];
            let t = e.1 as int;
            assert(edge_ok(info, i, edges[0]));
            assert(edges[0].0.units().len() == node.spec_amount());
            let (m0, w0) = choose|m0: Seq<u8>, w0: T| #[trigger] (info[t].1)(m0, w0);
            assert(node_ok(nodes, info, t, exact_of::<Type>()));
            assert(info[t].0.is_prefix_of(m0));
            assert((info[i].1)(m0, w0));
            assert(m0.take(s.len() as int) =~= s) by {
                assert forall|x: int| 0 <= x < s.len() implies m0[x] == s[x] by {
                    assert(m0.subrange(0, info[t].0.len() as int)[x] == info[t].0[x]);
                    assert(info[t].0[x] == (p + e.0.units())[x]);
                }
            }
        }
        assert(edges.len() == 0);
        assert(<Type::InputKey as Segmentable>::can_split(r, 1));
        assert(!has_edge(edges, <Type::InputKey as Segmentable>::order_key(r.take(1))));
        assert(run(nodes, i, r) == run(nodes, 0, r.skip(1)));
        lemma_trap(nodes, r.skip(1));
    } else {
        assert(s =~= u.subrange(0, s.len() as int));
        Type::lemma_exact(u, 0, s.len() as int);
        assert(exact_of::<Type>()(s));
        assert((info[i].1)(s, v));
        assert(s.len() > p.len());
        assert(exists|k: int| 0 <= k < edges.len() && edge_leads(info, #[trigger] edges[k], a, s, v));
        let k = choose|k: int| 0 <= k < edges.len() && edge_leads(info, #[trigger] edges[k], a, s, v);
        let e = edges[k];
        let t = e.1 as int;
        assert(edge_ok(info, i, edges[k]));
        let pe = info[t].0;
        assert(pe == p + e.0.units());
        assert(pe.is_prefix_of(s));
        assert(a <= r.len());
        assert(e.0.units() =~= r.take(a)) by {
            assert forall|x: int| 0 <= x < a implies e.0.units()[x] == r[x] by {
                assert(pe[p.len() + x] == s[p.len() + x]);
                assert(u.take(s.len() as int)[p.len() + x] == u[p.len() + x]);
            }
        }
        Type::lemma_exact(r, 0, a);
        Type::lemma_exact(r.subrange(0, a), 0, 0);
        assert(r.subrange(0, a) =~= r.take(a));
        let key = <Type::InputKey as Segmentable>::order_key(r.take(a));
        assert(<Type::InputKey as Segmentable>::order_key(e.0.units()) == key);
        lemma_edge_target(edges, key, node.spec_default(), k);
        assert(pe + r.skip(a) =~= u);
        lemma_run_past::<T, Type>(nodes, info, t, r.skip(a), s, v);
    }
}

/// Evaluation of an exact input from an emitted node yields a payload only
/// at a key that the input reaches whole, or that some held key longer than
/// the input extends.
pub(crate) proof fn lemma_sound_exact<'a, T: Clone, Type: GraphType<'a>>(
    nodes: Seq<Node<Type::InputKey, Option<T>>>,
    info: Seq<NodeInfo<T>>,
    i: int,
    r: Seq<u8>,
)
    requires
        emitted(nodes, info, exact_of::<Type>()),
        0 <= i < nodes.len(),
        Type::exact(r),
    ensures
        run(nodes, i, r) is Some ==> exists|s: Seq<u8>, v: T|
            (#[trigger] (info[i].1)(s, v)) && cloned(v, run(nodes, i, r)->0)
                && info[i].0.len() <= s.len() <= info[i].0.len() + r.len()
                && <Type::InputKey as Segmentable>::order_key(s) == <Type::InputKey as Segmentable>::order_key(info[i].0) + <Type::InputKey as Segmentable>::order_key(r.take(s.len() - info[i].0.len()))
                && (s.len() == info[i].0.len() + r.len()
                || exists|m: Seq<u8>, w: T|
                #[trigger] (info[i].1)(m, w) && m.len() > info[i].0.len() + r.len() && m.take(s.len() as int) == s),
    decreases r.len(),
{
    if i == 0 {
        lemma_trap(nodes, r);
        return;
    }
    assert(node_ok(nodes, info, i, exact_of::<Type>()));
    assert(node_wf(nodes[i], i + 1));
    let node = nodes[i];
    let a = node.spec_amount() as int;
    let p = info[i].0;
    let edges = node.spec_inputs();
    if run(nodes, i, r) is None {
        return;
    }
    Type::lemma_exact(r, 0, 0);
    if r.len() < a {
        assert(run(nodes, i, r) == node.spec_output());
        let w = node.spec_output()->0;
        let v = choose|v: T| (info[i].1)(p, v) && cloned(v, w);
        if r.len() > 0 {
            assert(edges.len() > 0);
            let e = edges[0];
            let t = e.1 as int;
            assert(edge_ok(info, i, edges[0]));
            assert(edges[0].0.units().len() == a);
            let (m0, w0) = choose|m0: Seq<u8>, w0: T| #[trigger] (info[t].1)(m0, w0);
            assert(node_ok(nodes, info, t, exact_of::<Type>()));
            assert(info[t].0.is_prefix_of(m0));
            assert((info[i].1)(m0, w0));
            assert(m0.take(p.len() as int) =~= p) by {
                assert forall|x: int| 0 <= x < p.len() implies m0[x] == p[x] by {
                    assert(m0.subrange(0, info[t].0.len() as int)[x] == info[t].0[x]);
                    assert(info[t].0[x] == (p + e.0.units())[x]);
                }
            }
        }
        <Type::InputKey as Segmentable>::lemma_order_key_concat(Seq::<u8>::empty(), Seq::<u8>::empty());
        assert(r.take(0) =~= Seq::<u8>::empty());
        assert(<Type::InputKey as Segmentable>::order_key(r.take(0)) =~= Seq::<u8>::empty());
        assert(<Type::InputKey as Segmentable>::order_key(p) =~= <Type::InputKey as Segmentable>::order_key(p) + <Type::InputKey as Segmentable>::order_key(r.take(0)));
        assert((info[i].1)(p, v) && cloned(v, run(nodes, i, r)->0));
    } else {
        assert(<Type::InputKey as Segmentable>::can_split(r, a));
        let chunk = r.take(a);
        let rest = r.skip(a);
        let key = <Type::InputKey as Segmentable>::order_key(chunk);
        if has_edge(edges, key) {
            let c = choose|j: int| 0 <= j < edges.len() && <Type::InputKey as Segmentable>::order_key(#[trigger] edges[j].0.units()) == key;
            let e = edges[c];
            let t = e.1 as int;
            assert(edge_ok(info, i, edges[c]));
            assert(edges[c].0.units().len() == a);
            lemma_edge_target(edges, key, node.spec_default(), c);
            assert(run(nodes, i, r) == run(nodes, t, rest));
            assert(rest =~= r.subrange(a, r.len() as int));
            Type::lemma_exact(r, a, r.len() as int);
            lemma_sound_exact::<T, Type>(nodes, info, t, rest);
            let (s, v) = choose|s: Seq<u8>, v: T|
                (#[trigger] (info[t].1)(s, v)) && cloned(v, run(nodes, t, rest)->0)
                    && info[t].0.len() <= s.len() <= info[t].0.len() + rest.len()
                    && <Type::InputKey as Segmentable>::order_key(s) == <Type::InputKey as Segmentable>::order_key(info[t].0) + <Type::InputKey as Segmentable>::order_key(rest.take(s.len() - info[t].0.len()))
                    && (s.len() == info[t].0.len() + rest.len()
                    || exists|m: Seq<u8>, w: T|
                    #[trigger] (info[t].1)(m, w) && m.len() > info[t].0.len() + rest.len() && m.take(s.len() as int) == s);
            assert((info[i].1)(s, v));
            if s.len() != info[t].0.len() + rest.len() {
                let (m, w) = choose|m: Seq<u8>, w: T|
                    #[trigger] (info[t].1)(m, w) && m.len() > info[t].0.len() + rest.len() && m.take(s.len() as int) == s;
                assert((info[i].1)(m, w));
            }
            assert(info[t].0.len() == p.len() + a);
            let n2 = s.len() - info[t].0.len();
            <Type::InputKey as Segmentable>::lemma_order_key_concat(p, e.0.units());
            <Type::InputKey as Segmentable>::lemma_order_key_concat(chunk, rest.take(n2));
            assert(r.take(a + n2) =~= chunk + rest.take(n2));
            assert(s.len() - p.len() == a + n2);
            assert(<Type::InputKey as Segmentable>::order_key(s) =~= <Type::InputKey as Segmentable>::order_key(p) + <Type::InputKey as Segmentable>::order_key(r.take(s.len() - p.len())));
        } else {
            assert(run(nodes, i, r) == run(nodes, 0, rest));
            lemma_trap(nodes, rest);
        }
    }
}

} // verus!
