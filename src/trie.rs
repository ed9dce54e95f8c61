//! The prefix tree that the builder grows, and its insertion.
use crate::segment::starts;
use vstd::prelude::*;
use vstd::slice::slice_subrange;

verus! {

/// A node of the prefix tree: the bytes on the edge into it, the payload of
/// the key that ends here, and the nodes below.
#[derive(Debug)]
pub(crate) struct TrieNode<T> {
    pub(crate) value: Vec<u8>,
    pub(crate) output: Option<T>,
    pub(crate) children: Vec<TrieNode<T>>,
}

/// The node, reached with `base` consumed, holds key `m` with payload `v`.
pub(crate) open spec fn has<T>(n: TrieNode<T>, base: Seq<u8>, m: Seq<u8>, v: T) -> bool
    decreases n,
{
    let here = base + n.value@;
    (m == here && n.output == Some(v)) || exists|i: int|
        0 <= i < n.children.len() && has(#[trigger] n.children@[i], here, m, v)
}

/// One of the sibling nodes, reached with `base` consumed, holds `m` with payload `v`.
pub(crate) open spec fn list_has<T>(s: Seq<TrieNode<T>>, base: Seq<u8>, m: Seq<u8>, v: T) -> bool {
    exists|i: int| 0 <= i < s.len() && has(#[trigger] s[i], base, m, v)
}

/// Whether `v` can be cut after `q` bytes.
pub(crate) open spec fn cut(v: Seq<u8>, q: int, aligned: bool) -> bool {
    q == v.len() || (0 < q < v.len() && starts(aligned, v[q]))
}

/// `a` and `b` share their first `q` bytes, and both can be cut there.
pub(crate) open spec fn shared_cut(a: Seq<u8>, b: Seq<u8>, q: int, aligned: bool) -> bool {
    &&& 1 <= q <= a.len()
    &&& q <= b.len()
    &&& a.take(q) == b.take(q)
    &&& cut(a, q, aligned)
    &&& cut(b, q, aligned)
}

/// The node holds a key, at it or below it.
pub(crate) open spec fn live<T>(n: TrieNode<T>) -> bool
    decreases n,
{
    n.output is Some || exists|i: int| 0 <= i < n.children.len() && live(#[trigger] n.children@[i])
}

/// Every edge is nonempty and begins a unit, every sibling holds a key, and
/// no two siblings share a prefix at which both can be cut.
pub(crate) open spec fn siblings_ok<T>(s: Seq<TrieNode<T>>, aligned: bool) -> bool {
    &&& forall|i: int| 0 <= i < s.len() ==> (#[trigger] s[i]).value@.len() > 0
    &&& forall|i: int| 0 <= i < s.len() ==> live(#[trigger] s[i])
    &&& forall|i: int| 0 <= i < s.len() ==> starts(aligned, (#[trigger] s[i]).value@[0])
    &&& forall|i: int, j: int, q: int|
        0 <= i < s.len() && 0 <= j < s.len() && i != j ==> !(#[trigger] shared_cut(s[i].value@, s[j].value@, q, aligned))
}

/// Every sibling list in the tree is `siblings_ok`.
pub(crate) open spec fn trie_wf<T>(n: TrieNode<T>, aligned: bool) -> bool
    decreases n,
{
    &&& siblings_ok(n.children@, aligned)
    &&& forall|i: int| 0 <= i < n.children.len() ==> trie_wf(#[trigger] n.children@[i], aligned)
}

pub(crate) open spec fn list_wf<T>(s: Seq<TrieNode<T>>, aligned: bool) -> bool {
    &&& siblings_ok(s, aligned)
    &&& forall|i: int| 0 <= i < s.len() ==> trie_wf(#[trigger] s[i], aligned)
}

/// Every key held below a node extends the bytes that reach it.
pub(crate) proof fn lemma_has_prefix<T>(n: TrieNode<T>, base: Seq<u8>, m: Seq<u8>, v: T)
    requires
        has(n, base, m, v),
    ensures
        m.len() >= base.len() + n.value@.len(),
        m.take((base.len() + n.value@.len()) as int) == base + n.value@,
    decreases n,
{
    let here = base + n.value@;
    if !(m == here && n.output == Some(v)) {
        let i = choose|i: int| 0 <= i < n.children.len() && has(#[trigger] n.children@[i], here, m, v);
        lemma_has_prefix(n.children@[i], here, m, v);
        assert(m.take(here.len() as int) =~= m.take((here.len() + n.children@[i].value@.len()) as int).take(
            here.len() as int,
        ));
    } else {
        assert(m.take(here.len() as int) =~= here);
    }
}

/// A node that holds a key holds one under any bytes that reach it.
pub(crate) proof fn lemma_live_has<T>(n: TrieNode<T>, base: Seq<u8>)
    requires
        live(n),
    ensures
        exists|m: Seq<u8>, v: T| has(n, base, m, v),
    decreases n,
{
    let here = base + n.value@;
    if n.output is Some {
        assert(has(n, base, here, n.output->0));
    } else {
        let i = choose|i: int| 0 <= i < n.children.len() && live(#[trigger] n.children@[i]);
        lemma_live_has(n.children@[i], here);
        let (m, v) = choose|m: Seq<u8>, v: T| has(n.children@[i], here, m, v);
        assert(has(n, base, m, v));
    }
}

/// What a node holds depends on its edge only through the bytes that reach
/// its end.
pub(crate) proof fn lemma_has_shift<T>(
    a: TrieNode<T>,
    ba: Seq<u8>,
    b: TrieNode<T>,
    bb: Seq<u8>,
    m: Seq<u8>,
    v: T,
)
    requires
        ba + a.value@ == bb + b.value@,
        a.output == b.output,
        a.children@ == b.children@,
    ensures
        has(a, ba, m, v) == has(b, bb, m, v),
{
    let here = ba + a.value@;
    if has(a, ba, m, v) && !(m == here && a.output == Some(v)) {
        let i = choose|i: int| 0 <= i < a.children.len() && has(#[trigger] a.children@[i], here, m, v);
        assert(has(b.children@[i], here, m, v));
    }
    if has(b, bb, m, v) && !(m == here && b.output == Some(v)) {
        let i = choose|i: int| 0 <= i < b.children.len() && has(#[trigger] b.children@[i], here, m, v);
        assert(has(a.children@[i], here, m, v));
    }
}

/// A key held below a node that runs past the node's edge continues with a
/// byte that begins a unit.
pub(crate) proof fn lemma_next_starts<T>(n: TrieNode<T>, base: Seq<u8>, m: Seq<u8>, v: T, aligned: bool)
    requires
        trie_wf(n, aligned),
        has(n, base, m, v),
        m.len() > base.len() + n.value@.len(),
    ensures
        starts(aligned, m[(base.len() + n.value@.len()) as int]),
{
    let here = base + n.value@;
    let k = choose|k: int| 0 <= k < n.children.len() && has(#[trigger] n.children@[k], here, m, v);
    let c = n.children@[k];
    lemma_has_prefix(c, here, m, v);
    assert(m[here.len() as int] == m.take((here.len() + c.value@.len()) as int)[here.len() as int]);
}

/// No key is held below two different siblings.
pub(crate) proof fn lemma_siblings_disjoint<T>(
    cs: Seq<TrieNode<T>>,
    base: Seq<u8>,
    a: int,
    b: int,
    m: Seq<u8>,
    v: T,
    w: T,
    aligned: bool,
)
    requires
        list_wf(cs, aligned),
        0 <= a < cs.len(),
        0 <= b < cs.len(),
        has(cs[a], base, m, v),
        has(cs[b], base, m, w),
    ensures
        a == b,
{
    if a != b {
        let va = cs[a].value@;
        let vb = cs[b].value@;
        lemma_has_prefix(cs[a], base, m, v);
        lemma_has_prefix(cs[b], base, m, w);
        let bl = base.len() as int;
        assert forall|x: int| 0 <= x < va.len() implies #[trigger] va[x] == m[bl + x] by {
            assert(m.take(bl + va.len())[bl + x] == (base + va)[bl + x]);
        }
        assert forall|x: int| 0 <= x < vb.len() implies #[trigger] vb[x] == m[bl + x] by {
            assert(m.take(bl + vb.len())[bl + x] == (base + vb)[bl + x]);
        }
        assert(trie_wf(cs[a], aligned));
        assert(trie_wf(cs[b], aligned));
        if va.len() <= vb.len() {
            let q = va.len() as int;
            assert(va.take(q) =~= vb.take(q));
            if q < vb.len() {
                lemma_next_starts(cs[a], base, m, v, aligned);
                assert(vb[q] == m[bl + q]);
            }
            assert(shared_cut(va, vb, q, aligned));
        } else {
            let q = vb.len() as int;
            assert(vb.take(q) =~= va.take(q));
            lemma_next_starts(cs[b], base, m, w, aligned);
            assert(va[q] == m[bl + q]);
            assert(shared_cut(vb, va, q, aligned));
        }
    }
}

/// A node whose edge shares no cut prefix with `key` does not hold
/// `base + key`.
pub(crate) proof fn lemma_absent<T>(n: TrieNode<T>, base: Seq<u8>, key: Seq<u8>, v: T, aligned: bool)
    requires
        trie_wf(n, aligned),
        n.value@.len() > 0,
        forall|q: int| !(#[trigger] shared_cut(key, n.value@, q, aligned)),
    ensures
        !(has(n, base, base + key, v)),
{
    let m = base + key;
    if has(n, base, m, v) {
        lemma_has_prefix(n, base, m, v);
        let q = n.value@.len() as int;
        assert(key.take(q) =~= n.value@.take(q)) by {
            assert forall|x: int| 0 <= x < q implies key[x] == n.value@[x] by {
                assert(m[base.len() + x] == m.take((base.len() + q) as int)[base.len() + x]);
            }
        }
        if q < key.len() {
            lemma_next_starts(n, base, m, v, aligned);
            assert(m[base.len() + q] == key[q]);
        }
        assert(shared_cut(key, n.value@, q, aligned));
    }
}

/// If `key` shares the cut prefix `p` with one sibling, it shares none with
/// another.
pub(crate) proof fn lemma_unique_match(a: Seq<u8>, b: Seq<u8>, key: Seq<u8>, p: int, aligned: bool)
    requires
        forall|q: int| !(#[trigger] shared_cut(a, b, q, aligned)),
        shared_cut(key, a, p, aligned),
    ensures
        forall|q: int| !(#[trigger] shared_cut(key, b, q, aligned)),
{
    assert forall|q: int| !(#[trigger] shared_cut(key, b, q, aligned)) by {
        if shared_cut(key, b, q, aligned) {
            let r = if p < q { p } else { q };
            assert(a.take(r) =~= b.take(r)) by {
                assert forall|x: int| 0 <= x < r implies a[x] == b[x] by {
                    assert(a.take(p)[x] == key.take(p)[x]);
                    assert(b.take(q)[x] == key.take(q)[x]);
                }
            }
            if r < p {
                assert(a[r] == a.take(p)[r]);
                assert(key[r] == key.take(p)[r]);
            }
            if r < q {
                assert(b[r] == b.take(q)[r]);
                assert(key[r] == key.take(q)[r]);
            }
            assert(shared_cut(a, b, r, aligned));
        }
    }
}

/// Whether a byte begins a unit.
pub(crate) fn starts_unit(aligned: bool, b: u8) -> (r: bool)
    ensures
        r == starts(aligned, b),
{
    !aligned || b < 0x80 || b >= 0xC0
}

/// The longest common prefix of two byte slices at whose end both can be
/// cut; 0 when there is none.
pub(crate) fn prefix(a: &[u8], b: &[u8], aligned: bool) -> (r: usize)
    ensures
        r <= a.len(),
        r <= b.len(),
        a@.take(r as int) == b@.take(r as int),
        r > 0 ==> shared_cut(a@, b@, r as int, aligned),
        forall|q: int| r < q ==> !(#[trigger] shared_cut(a@, b@, q, aligned)),
{
    let mut i: usize = 0;
    while i < a.len() && i < b.len() && a[i] == b[i]
        invariant
            i <= a.len(),
            i <= b.len(),
            forall|k: int| 0 <= k < i ==> a[k] == b[k],
        decreases a.len() - i,
    {
        i = i + 1;
    }
    let lcp = i;
    assert forall|q: int| lcp < q implies !(#[trigger] shared_cut(a@, b@, q, aligned)) by {
        if shared_cut(a@, b@, q, aligned) {
            assert(a@.take(q)[lcp as int] == b@.take(q)[lcp as int]);
        }
    }
    while i > 0 && !((i == a.len() || starts_unit(aligned, a[i])) && (i == b.len() || starts_unit(aligned, b[i])))
        invariant
            i <= lcp,
            lcp <= a.len(),
            lcp <= b.len(),
            forall|k: int| 0 <= k < lcp ==> a[k] == b[k],
            forall|q: int| i < q ==> !(#[trigger] shared_cut(a@, b@, q, aligned)),
        decreases i,
    {
        assert(!shared_cut(a@, b@, i as int, aligned));
        i = i - 1;
    }
    assert(a@.take(i as int) =~= b@.take(i as int));
    i
}

/// Copy `s[from..]` into a new vector.
pub(crate) fn tail(s: &[u8], from: usize) -> (r: Vec<u8>)
    requires
        from <= s.len(),
    ensures
        r@ == s@.skip(from as int),
{
    let mut r: Vec<u8> = Vec::new();
    let mut i: usize = from;
    while i < s.len()
        invariant
            from <= i <= s.len(),
            r@ == s@.subrange(from as int, i as int),
        decreases s.len() - i,
    {
        r.push(s[i]);
        i = i + 1;
        assert(r@ =~= s@.subrange(from as int, i as int));
    }
    assert(r@ =~= s@.skip(from as int));
    r
}

/// Copy `s[..to]` into a new vector.
pub(crate) fn head(s: &[u8], to: usize) -> (r: Vec<u8>)
    requires
        to <= s.len(),
    ensures
        r@ == s@.take(to as int),
{
    let mut r: Vec<u8> = Vec::new();
    let mut i: usize = 0;
    while i < to
        invariant
            i <= to <= s.len(),
            r@ == s@.take(i as int),
        decreases to - i,
    {
        r.push(s[i]);
        i = i + 1;
        assert(r@ =~= s@.take(i as int));
    }
    r
}

} // verus!

verus! {

/// Replacing one sibling by a node that holds what it held plus one key adds
/// that key to the list.
proof fn lemma_replace<T>(s: Seq<TrieNode<T>>, i: int, x: TrieNode<T>, base: Seq<u8>, key: Seq<u8>, value: T)
    requires
        0 <= i < s.len(),
        forall|m: Seq<u8>, v: T|
            has(x, base, m, v) <==> has(s[i], base, m, v) || (m == base + key && v == value),
    ensures
        forall|m: Seq<u8>, v: T|
            list_has(s.update(i, x), base, m, v) <==> list_has(s, base, m, v) || (m == base + key
                && v == value),
{
    let t = s.update(i, x);
    assert forall|m: Seq<u8>, v: T|
        list_has(t, base, m, v) <==> list_has(s, base, m, v) || (m == base + key && v == value) by {
        if list_has(t, base, m, v) {
            let j = choose|j: int| 0 <= j < t.len() && has(#[trigger] t[j], base, m, v);
            if j != i {
                assert(has(s[j], base, m, v));
            }
        }
        if list_has(s, base, m, v) {
            let j = choose|j: int| 0 <= j < s.len() && has(#[trigger] s[j], base, m, v);
            assert(has(t[j], base, m, v));
        }
        if m == base + key && v == value {
            assert(has(t[i], base, m, v));
        }
    }
}

/// A node with the same children as a well-formed node is well-formed.
proof fn lemma_wf_same_children<T>(a: TrieNode<T>, b: TrieNode<T>, aligned: bool)
    requires
        trie_wf(a, aligned),
        a.children@ == b.children@,
    ensures
        trie_wf(b, aligned),
{
}

/// A key that ends where a node begins is not held below that node, and a
/// node holds no key that ends strictly inside its edge.
pub(crate) proof fn lemma_too_short<T>(n: TrieNode<T>, base: Seq<u8>, m: Seq<u8>, v: T)
    requires
        m.len() < base.len() + n.value@.len(),
    ensures
        !(has(n, base, m, v)),
{
    if has(n, base, m, v) {
        lemma_has_prefix(n, base, m, v);
    }
}

/// Keys below the children of a node are longer than the bytes that reach
/// the node.
proof fn lemma_children_longer<T>(n: TrieNode<T>, base: Seq<u8>, v: T, aligned: bool)
    requires
        trie_wf(n, aligned),
    ensures
        !(list_has(n.children@, base + n.value@, base + n.value@, v)),
{
    let here = base + n.value@;
    if list_has(n.children@, here, here, v) {
        let j = choose|j: int| 0 <= j < n.children.len() && has(#[trigger] n.children@[j], here, here, v);
        lemma_too_short(n.children@[j], here, here, v);
    }
}

/// Whether `base + key` already has a payload among `siblings`.
pub(crate) fn holds<T>(siblings: &Vec<TrieNode<T>>, key: &[u8], aligned: bool, Ghost(base): Ghost<Seq<u8>>) -> (r: bool)
    requires
        list_wf(siblings@, aligned),
        key@.len() > 0,
        starts(aligned, key@[0]),
    ensures
        r == exists|v: T| list_has(siblings@, base, base + key@, v),
    decreases key@.len(),
{
    let ghost old_s = siblings@;
    let ghost bk = base + key@;
    let mut i: usize = 0;
    let mut p: usize = 0;
    while i < siblings.len()
        invariant
            key@.len() > 0,
            list_wf(old_s, aligned),
            old_s == siblings@,
            i <= old_s.len(),
            forall|j: int, q: int| 0 <= j < i ==> !(#[trigger] shared_cut(key@, old_s[j].value@, q, aligned)),
        ensures
            i <= old_s.len(),
            forall|j: int, q: int| 0 <= j < i ==> !(#[trigger] shared_cut(key@, old_s[j].value@, q, aligned)),
            i < old_s.len() ==> p > 0 && shared_cut(key@, old_s[i as int].value@, p as int, aligned)
                && p <= key@.len() && p <= old_s[i as int].value@.len()
                && key@.take(p as int) == old_s[i as int].value@.take(p as int)
                && forall|q: int| p < q ==> !(#[trigger] shared_cut(key@, old_s[i as int].value@, q, aligned)),
        decreases old_s.len() - i,
    {
        p = prefix(key, siblings[i].value.as_slice(), aligned);
        if p > 0 {
            break;
        }
        i = i + 1;
    }
    proof {
        assert forall|j: int, v: T| 0 <= j < old_s.len() && j != i implies !(#[trigger] has(old_s[j], base, bk, v)) by {
            if j > i && i < old_s.len() {
                lemma_unique_match(old_s[i as int].value@, old_s[j].value@, key@, p as int, aligned);
            }
            lemma_absent(old_s[j], base, key@, v, aligned);
        }
    }
    if i == siblings.len() {
        proof {
            assert forall|v: T| !(#[trigger] list_has(old_s, base, bk, v)) by {
                if list_has(old_s, base, bk, v) {
                    let j = choose|j: int| 0 <= j < old_s.len() && has(#[trigger] old_s[j], base, bk, v);
                }
            }
        }
        return false;
    }
    let node = &siblings[i];
    let ghost s = old_s[i as int];
    proof {
        assert(trie_wf(s, aligned));
        assert forall|v: T| list_has(old_s, base, bk, v) == has(s, base, bk, v) by {
            if list_has(old_s, base, bk, v) {
                let j = choose|j: int| 0 <= j < old_s.len() && has(#[trigger] old_s[j], base, bk, v);
            }
            if has(s, base, bk, v) {
                assert(list_has(old_s, base, bk, v));
            }
        }
    }
    if p == node.value.len() && p == key.len() {
        proof {
            assert(node.value@ =~= node.value@.take(p as int));
            assert(key@ =~= key@.take(p as int));
            assert(base + s.value@ == bk);
            assert forall|v: T| has(s, base, bk, v) == (s.output == Some(v)) by {
                lemma_has_unfold(s, base, bk, v);
                lemma_children_longer(s, base, v, aligned);
            }
            if s.output is Some {
                assert(has(s, base, bk, s.output->0));
                assert(list_has(old_s, base, bk, s.output->0));
            } else {
                assert forall|v: T| !(#[trigger] list_has(old_s, base, bk, v)) by {
                    assert(list_has(old_s, base, bk, v) == has(s, base, bk, v));
                }
            }
        }
        node.output.is_some()
    } else if p == node.value.len() {
        let ghost here = base + node.value@;
        let rest = slice_subrange(key, p, key.len());
        proof {
            assert(node.value@ =~= node.value@.take(p as int));
            assert(key@ =~= key@.take(p as int) + key@.skip(p as int));
            assert(here + rest@ =~= bk);
            assert(rest@[0] == key@[p as int]);
            assert forall|v: T| has(s, base, bk, v) == list_has(s.children@, here, bk, v) by {
                lemma_has_unfold(s, base, bk, v);
            }
        }
        let r = holds(&node.children, rest, aligned, Ghost(here));
        proof {
            if r {
                let v = choose|v: T| list_has(s.children@, here, here + rest@, v);
                assert(list_has(old_s, base, bk, v) == has(s, base, bk, v));
            } else {
                assert forall|v: T| !(#[trigger] list_has(old_s, base, bk, v)) by {
                    assert(list_has(old_s, base, bk, v) == has(s, base, bk, v));
                    assert(has(s, base, bk, v) == list_has(s.children@, here, bk, v));
                }
            }
        }
        r
    } else {
        proof {
            assert forall|v: T| !(#[trigger] has(s, base, bk, v)) by {
                if has(s, base, bk, v) {
                    lemma_has_prefix(s, base, bk, v);
                    let q = s.value@.len() as int;
                    assert(key@.take(q) =~= s.value@.take(q)) by {
                        assert forall|x: int| 0 <= x < q implies key@[x] == s.value@[x] by {
                            assert(bk[base.len() + x] == bk.take((base.len() + q) as int)[base.len() + x]);
                        }
                    }
                    if q < key@.len() {
                        lemma_next_starts(s, base, bk, v, aligned);
                        assert(bk[base.len() + q] == key@[q]);
                    }
                    assert(shared_cut(key@, s.value@, q, aligned));
                }
            }
            assert forall|v: T| !(#[trigger] list_has(old_s, base, bk, v)) by {
                assert(list_has(old_s, base, bk, v) == has(s, base, bk, v));
            }
        }
        false
    }
}

/// What inserting `bk` with payload `value` does to the keys of a sibling
/// list: when `bk` has a payload already, it comes back and nothing changes;
/// otherwise `bk` is added.
pub(crate) open spec fn inserted<T>(
    before: Seq<TrieNode<T>>,
    after: Seq<TrieNode<T>>,
    base: Seq<u8>,
    bk: Seq<u8>,
    value: T,
    r: Result<(), T>,
) -> bool {
    &&& (exists|v: T| list_has(before, base, bk, v)) ==> r == Err::<(), T>(value) && forall|m: Seq<u8>, v: T|
        list_has(after, base, m, v) == list_has(before, base, m, v)
    &&& !(exists|v: T| list_has(before, base, bk, v)) ==> r is Ok && forall|m: Seq<u8>, v: T|
        list_has(after, base, m, v) <==> list_has(before, base, m, v) || (m == bk && v == value)
}

/// Insert `key` with payload `value` among `siblings`, reached with `base`
/// consumed. Hands the payload back when the key already has one.
#[verifier::spinoff_prover]
#[verifier::rlimit(50)]
pub(crate) fn insert<T>(
    siblings: &mut Vec<TrieNode<T>>,
    key: Vec<u8>,
    value: T,
    aligned: bool,
    Ghost(base): Ghost<Seq<u8>>,
) -> (r: Result<(), T>)
    requires
        list_wf(old(siblings)@, aligned),
        key@.len() > 0,
        starts(aligned, key@[0]),
    ensures
        list_wf(final(siblings)@, aligned),
        final(siblings)@.len() >= old(siblings)@.len(),
        inserted(old(siblings)@, final(siblings)@, base, base + key@, value, r),
    decreases key@.len(),
{
    let ghost old_s = siblings@;
    let ghost bk = base + key@;
    let mut i: usize = 0;
    let mut p: usize = 0;
    while i < siblings.len()
        invariant
            siblings@ == old_s,
            key@.len() > 0,
            list_wf(old_s, aligned),
            i <= old_s.len(),
            forall|j: int, q: int| 0 <= j < i ==> !(#[trigger] shared_cut(key@, old_s[j].value@, q, aligned)),
        ensures
            siblings@ == old_s,
            i <= old_s.len(),
            forall|j: int, q: int| 0 <= j < i ==> !(#[trigger] shared_cut(key@, old_s[j].value@, q, aligned)),
            i < old_s.len() ==> p > 0 && shared_cut(key@, old_s[i as int].value@, p as int, aligned)
                && p <= key@.len() && p <= old_s[i as int].value@.len()
                && key@.take(p as int) == old_s[i as int].value@.take(p as int)
                && forall|q: int| p < q ==> !(#[trigger] shared_cut(key@, old_s[i as int].value@, q, aligned)),
        decreases old_s.len() - i,
    {
        p = prefix(key.as_slice(), siblings[i].value.as_slice(), aligned);
        if p > 0 {
            break;
        }
        i = i + 1;
    }
    proof {
        // No sibling but the i-th can hold `base + key`.
        assert forall|j: int, v: T| 0 <= j < old_s.len() && j != i implies !(#[trigger] has(old_s[j], base, bk, v)) by {
            if j > i && i < old_s.len() {
                lemma_unique_match(old_s[i as int].value@, old_s[j].value@, key@, p as int, aligned);
            }
            lemma_absent(old_s[j], base, key@, v, aligned);
        }
    }
    if i == siblings.len() {
        let leaf = TrieNode { value: key, output: Some(value), children: Vec::new() };
        siblings.push(leaf);
        proof {
            assert forall|m: Seq<u8>, v: T|
                list_has(siblings@, base, m, v) <==> list_has(old_s, base, m, v) || (m == bk && v
                    == value) by {
                if list_has(siblings@, base, m, v) {
                    let j = choose|j: int| 0 <= j < siblings@.len() && has(#[trigger] siblings@[j], base, m, v);
                    if j < old_s.len() {
                        assert(has(old_s[j], base, m, v));
                    }
                }
                if list_has(old_s, base, m, v) {
                    let j = choose|j: int| 0 <= j < old_s.len() && has(#[trigger] old_s[j], base, m, v);
                    assert(has(siblings@[j], base, m, v));
                }
                if m == bk && v == value {
                    assert(has(siblings@[old_s.len() as int], base, m, v));
                }
            }
            let t = siblings@;
            assert forall|a: int, b: int, q: int|
                0 <= a < t.len() && 0 <= b < t.len() && a != b implies !(#[trigger] shared_cut(t[a].value@, t[b].value@, q, aligned)) by {
                if a == old_s.len() {
                    assert(!shared_cut(key@, old_s[b].value@, q, aligned));
                } else if b == old_s.len() {
                    assert(!shared_cut(key@, old_s[a].value@, q, aligned));
                    if shared_cut(t[a].value@, t[b].value@, q, aligned) {
                        assert(shared_cut(key@, old_s[a].value@, q, aligned));
                    }
                } else {
                    assert(t[a] == old_s[a] && t[b] == old_s[b]);
                }
            }
            assert(siblings_ok(t, aligned));
            assert(trie_wf(t[old_s.len() as int], aligned));
            assert(forall|m: Seq<u8>, v: T|
                list_has(siblings@, base, m, v) <==> list_has(old_s, base, m, v) || (m == bk && v == value));
            lemma_inserted_ok(old_s, siblings@, base, bk, value);
        }
        return Ok(());
    }
    let ghost s = old_s[i as int];
    let mut node = siblings.remove(i);
    proof {
        assert(trie_wf(s, aligned));
        // What stays of the siblings around the i-th one.
        assert forall|j: int, q: int| 0 <= j < old_s.len() && j != i implies !(#[trigger] shared_cut(key@, old_s[j].value@, q, aligned)) by {
            if j > i {
                lemma_unique_match(s.value@, old_s[j].value@, key@, p as int, aligned);
            }
        }
    }
    if p == node.value.len() && p == key.len() {
        assert(node.value@ =~= node.value@.take(p as int));
        assert(key@ =~= key@.take(p as int));
        proof {
            lemma_children_longer(s, base, value, aligned);
        }
        if node.output.is_none() {
            node.output = Some(value);
            proof {
                assert forall|m: Seq<u8>, v: T|
                    has(node, base, m, v) <==> has(s, base, m, v) || (m == bk && v == value) by {
                    assert(base + node.value@ == bk);
                    assert(node.children@ == s.children@);
                    if m == bk {
                        lemma_children_longer(s, base, v, aligned);
                    }
                    if has(s, base, m, v) && !(m == bk && s.output == Some(v)) {
                        let j = choose|j: int| 0 <= j < s.children.len() && has(#[trigger] s.children@[j], bk, m, v);
                        assert(has(node.children@[j], bk, m, v));
                    }
                    if has(node, base, m, v) && !(m == bk && node.output == Some(v)) {
                        let j = choose|j: int| 0 <= j < node.children.len() && has(#[trigger] node.children@[j], bk, m, v);
                        assert(has(s.children@[j], bk, m, v));
                    }
                }
                lemma_wf_same_children(s, node, aligned);
                assert forall|v: T| !(list_has(old_s, base, bk, v)) by {
                    lemma_children_longer(s, base, v, aligned);
                    if has(s, base, bk, v) {
                        assert(list_has(s.children@, bk, bk, v));
                    }
                }
                assert(old_s.remove(i as int).insert(i as int, node) =~= old_s.update(i as int, node));
                lemma_siblings_update(old_s, i as int, node, aligned);
                lemma_replace(old_s, i as int, node, base, key@, value);
                lemma_inserted_ok(old_s, old_s.update(i as int, node), base, bk, value);
            }
            siblings.insert(i, node);
            proof {
                assert(siblings@ == old_s.update(i as int, node));
            }
            Ok(())
        } else {
            proof {
                let w = s.output.unwrap();
                assert(has(s, base, bk, w));
                assert(list_has(old_s, base, bk, w));
                assert(old_s.remove(i as int).insert(i as int, s) =~= old_s);
            }
            siblings.insert(i, node);
            proof {
                assert(siblings@ == old_s);
                assert(inserted(old_s, siblings@, base, bk, value, Err(value)));
            }
            Err(value)
        }
    } else if p == key.len() {
        let ghost sv = node.value@;
        node.value = tail(node.value.as_slice(), p);
        let ghost lower = node;
        let mut children: Vec<TrieNode<T>> = Vec::new();
        children.push(node);
        let parent = TrieNode { value: key, output: Some(value), children };
        proof {
            assert(sv.take(p as int) =~= key@);
            assert(bk + lower.value@ =~= base + sv);
            assert forall|m: Seq<u8>, v: T|
                has(parent, base, m, v) <==> has(s, base, m, v) || (m == bk && v == value) by {
                lemma_has_shift(lower, bk, s, base, m, v);
                if has(lower, bk, m, v) {
                    assert(has(parent.children@[0], bk, m, v));
                }
            }
            assert forall|v: T| !(list_has(old_s, base, bk, v)) by {
                lemma_too_short(s, base, bk, v);
            }
            lemma_replace(old_s, i as int, parent, base, key@, value);
            lemma_wf_same_children(s, lower, aligned);
            assert(lower.value@[0] == sv[p as int]);
            assert(trie_wf(parent.children@[0], aligned));
            assert(siblings_ok(parent.children@, aligned));
            assert(trie_wf(parent, aligned));
            assert(parent.value@[0] == key@[0]);
            assert(old_s.remove(i as int).insert(i as int, parent) =~= old_s.update(i as int, parent));
            lemma_siblings_update(old_s, i as int, parent, aligned);
            lemma_replace(old_s, i as int, parent, base, key@, value);
            lemma_inserted_ok(old_s, old_s.update(i as int, parent), base, bk, value);
        }
        siblings.insert(i, parent);
        proof {
            assert(siblings@ == old_s.update(i as int, parent));
        }
        Ok(())
    } else if p == node.value.len() {
        let rest = tail(key.as_slice(), p);
        let ghost before = node;
        let ghost here = base + node.value@;
        proof {
            assert(node.value@ =~= node.value@.take(p as int));
            assert(key@ =~= key@.take(p as int) + key@.skip(p as int));
            assert(here + rest@ =~= bk);
            assert(rest@[0] == key@[p as int]);
        }
        let r = insert(&mut node.children, rest, value, aligned, Ghost(here));
        proof {
            lemma_descend_case(old_s, i as int, node, base, bk, value, r);
            assert(trie_wf(node, aligned));
            assert(old_s.remove(i as int).insert(i as int, node) =~= old_s.update(i as int, node));
            lemma_siblings_update(old_s, i as int, node, aligned);
        }
        siblings.insert(i, node);
        proof {
            assert(siblings@ == old_s.update(i as int, node));
        }
        r
    } else {
        let ghost sv = node.value@;
        let common = head(key.as_slice(), p);
        let leaf_value = tail(key.as_slice(), p);
        node.value = tail(node.value.as_slice(), p);
        let ghost lower = node;
        let leaf = TrieNode { value: leaf_value, output: Some(value), children: Vec::new() };
        let ghost lf = leaf;
        let mut children: Vec<TrieNode<T>> = Vec::new();
        children.push(node);
        children.push(leaf);
        let mid = TrieNode { value: common, output: None, children };
        proof {
            assert(mid.children@ =~= seq![lower, lf]);
            assert(key@.take(p as int) == sv.take(p as int));
            lemma_split_case(old_s, i as int, mid, lower, lf, key@, p as int, base, value, aligned);
            assert(old_s.remove(i as int).insert(i as int, mid) =~= old_s.update(i as int, mid));
        }
        siblings.insert(i, mid);
        proof {
            assert(siblings@ == old_s.update(i as int, mid));
        }
        Ok(())
    }
}

/// The outcome of an insertion that added `bk`.
proof fn lemma_inserted_ok<T>(before: Seq<TrieNode<T>>, after: Seq<TrieNode<T>>, base: Seq<u8>, bk: Seq<u8>, value: T)
    requires
        !(exists|v: T| list_has(before, base, bk, v)),
        forall|m: Seq<u8>, v: T|
            list_has(after, base, m, v) <==> list_has(before, base, m, v) || (m == bk && v == value),
    ensures
        inserted(before, after, base, bk, value, Ok(())),
{
}

/// Splitting sibling `i` at the shared cut prefix `p` into a node for the
/// prefix, with the rest of the sibling and the rest of `key` below it, adds
/// `base + key` and keeps the list well formed.
proof fn lemma_split_case<T>(
    old_s: Seq<TrieNode<T>>,
    i: int,
    mid: TrieNode<T>,
    lower: TrieNode<T>,
    lf: TrieNode<T>,
    key: Seq<u8>,
    p: int,
    base: Seq<u8>,
    value: T,
    aligned: bool,
)
    requires
        0 <= i < old_s.len(),
        list_wf(old_s, aligned),
        1 <= p < old_s[i].value@.len(),
        p < key.len(),
        starts(aligned, key[0]),
        shared_cut(key, old_s[i].value@, p, aligned),
        forall|q: int| p < q ==> !(#[trigger] shared_cut(key, old_s[i].value@, q, aligned)),
        forall|j: int, q: int| 0 <= j < old_s.len() && j != i ==> !(#[trigger] shared_cut(key, old_s[j].value@, q, aligned)),
        key.take(p) == old_s[i].value@.take(p),
        mid.value@ == key.take(p),
        mid.output is None,
        mid.children@ == seq![lower, lf],
        lower.value@ == old_s[i].value@.skip(p),
        lower.output == old_s[i].output,
        lower.children@ == old_s[i].children@,
        lf.value@ == key.skip(p),
        lf.output == Some(value),
        lf.children@.len() == 0,
    ensures
        inserted(old_s, old_s.update(i, mid), base, base + key, value, Ok(())),
        list_wf(old_s.update(i, mid), aligned),
{
    let s = old_s[i];
    let bk = base + key;
    assert(trie_wf(s, aligned));
    let hm = base + mid.value@;
    assert(hm + lower.value@ =~= base + s.value@);
    assert(hm + lf.value@ =~= bk);
    assert forall|m: Seq<u8>, v: T|
        has(mid, base, m, v) <==> has(s, base, m, v) || (m == bk && v == value) by {
        lemma_has_shift(lower, hm, s, base, m, v);
        if has(lower, hm, m, v) {
            assert(has(mid.children@[0], hm, m, v));
        }
        if m == bk && v == value {
            assert(has(mid.children@[1], hm, m, v));
        }
        if has(mid, base, m, v) {
            let j = choose|j: int| 0 <= j < mid.children.len() && has(#[trigger] mid.children@[j], hm, m, v);
            if j == 1 {
                assert(has(lf, hm, m, v));
                if !(m == hm + lf.value@ && lf.output == Some(v)) {
                    let k = choose|k: int| 0 <= k < lf.children.len() && has(#[trigger] lf.children@[k], hm + lf.value@, m, v);
                }
            }
        }
    }
    assert forall|v: T| !(#[trigger] list_has(old_s, base, bk, v)) by {
        if list_has(old_s, base, bk, v) {
            let j = choose|j: int| 0 <= j < old_s.len() && has(#[trigger] old_s[j], base, bk, v);
            if j != i {
                lemma_absent(old_s[j], base, key, v, aligned);
            }
        }
        if has(s, base, bk, v) {
            lemma_has_prefix(s, base, bk, v);
            let q = s.value@.len() as int;
            assert(key.take(q) =~= s.value@.take(q)) by {
                assert forall|x: int| 0 <= x < q implies key[x] == s.value@[x] by {
                    assert(bk[base.len() + x] == bk.take((base.len() + q) as int)[base.len() + x]);
                }
            }
            if q < key.len() {
                lemma_next_starts(s, base, bk, v, aligned);
                assert(bk[base.len() + q] == key[q]);
            }
            assert(shared_cut(key, s.value@, q, aligned));
        }
    }
    lemma_replace(old_s, i, mid, base, key, value);
    lemma_wf_same_children(s, lower, aligned);
    lemma_split_children(s.value@, key, p, aligned);
    assert forall|j: int, q: int| 0 <= j < old_s.len() && j != i implies !(#[trigger] shared_cut(mid.value@, old_s[j].value@, q, aligned)) by {
        if shared_cut(mid.value@, old_s[j].value@, q, aligned) {
            assert(mid.value@ == key.take(p));
            assert(key.take(q) =~= old_s[j].value@.take(q)) by {
                assert forall|x: int| 0 <= x < q implies key[x] == old_s[j].value@[x] by {
                    assert(key.take(p).take(q)[x] == old_s[j].value@.take(q)[x]);
                }
            }
            if q < p {
                assert(key.take(p)[q] == key[q]);
            }
            assert(shared_cut(key, old_s[j].value@, q, aligned));
        }
    }
    assert(lower.value@ == s.value@.skip(p));
    assert(lf.value@ == key.skip(p));
    assert(siblings_ok(mid.children@, aligned)) by {
        let t = mid.children@;
        assert forall|a: int, b: int, q: int|
            0 <= a < t.len() && 0 <= b < t.len() && a != b implies !(#[trigger] shared_cut(t[a].value@, t[b].value@, q, aligned)) by {
            if a == 1 {
                lemma_shared_cut_sym(t[a].value@, t[b].value@, q, aligned);
            }
        }
    }
    assert(trie_wf(mid.children@[0], aligned));
    assert(trie_wf(mid.children@[1], aligned));
    assert(trie_wf(mid, aligned));
    assert(mid.value@[0] == key[0]);
    lemma_siblings_update(old_s, i, mid, aligned);
    lemma_replace(old_s, i, mid, base, key, value);
    assert(forall|m: Seq<u8>, v: T|
        list_has(old_s.update(i, mid), base, m, v) <==> list_has(old_s, base, m, v) || (m == bk && v == value));
    lemma_inserted_ok(old_s, old_s.update(i, mid), base, bk, value);
}

/// A node holds the key that ends at it, and the keys its children hold.
pub(crate) proof fn lemma_has_unfold<T>(n: TrieNode<T>, base: Seq<u8>, m: Seq<u8>, v: T)
    ensures
        has(n, base, m, v) == ((m == base + n.value@ && n.output == Some(v)) || list_has(
            n.children@,
            base + n.value@,
            m,
            v,
        )),
{
    let here = base + n.value@;
    if list_has(n.children@, here, m, v) {
        let j = choose|j: int| 0 <= j < n.children.len() && has(#[trigger] n.children@[j], here, m, v);
        assert(has(n, base, m, v));
    }
}

/// Inserting below sibling `i`, whose edge ends before `bk` does, has on the
/// list the outcome it has below that sibling.
proof fn lemma_descend_case<T>(
    old_s: Seq<TrieNode<T>>,
    i: int,
    x: TrieNode<T>,
    base: Seq<u8>,
    bk: Seq<u8>,
    value: T,
    r: Result<(), T>,
)
    requires
        0 <= i < old_s.len(),
        x.value@ == old_s[i].value@,
        x.output == old_s[i].output,
        bk.len() > base.len() + x.value@.len(),
        forall|j: int, v: T| 0 <= j < old_s.len() && j != i ==> !(#[trigger] has(old_s[j], base, bk, v)),
        inserted(old_s[i].children@, x.children@, base + x.value@, bk, value, r),
    ensures
        inserted(old_s, old_s.update(i, x), base, bk, value, r),
{
    let s = old_s[i];
    let here = base + x.value@;
    let t = old_s.update(i, x);
    assert forall|m: Seq<u8>, v: T| has(x, base, m, v) == ((m == here && x.output == Some(v)) || list_has(x.children@, here, m, v)) by {
        lemma_has_unfold(x, base, m, v);
    }
    assert forall|m: Seq<u8>, v: T| has(s, base, m, v) == ((m == here && s.output == Some(v)) || list_has(s.children@, here, m, v)) by {
        lemma_has_unfold(s, base, m, v);
    }
    assert(bk != here);
    if !(exists|v: T| list_has(s.children@, here, bk, v)) {
        assert forall|m: Seq<u8>, v: T|
            list_has(t, base, m, v) <==> list_has(old_s, base, m, v) || (m == bk && v == value) by {
            if list_has(t, base, m, v) {
                let j = choose|j: int| 0 <= j < t.len() && has(#[trigger] t[j], base, m, v);
                if j != i {
                    assert(has(old_s[j], base, m, v));
                }
            }
            if list_has(old_s, base, m, v) {
                let j = choose|j: int| 0 <= j < old_s.len() && has(#[trigger] old_s[j], base, m, v);
                assert(has(t[j], base, m, v));
            }
            if m == bk && v == value {
                assert(has(t[i], base, m, v));
            }
        }
        assert forall|v: T| !(#[trigger] list_has(old_s, base, bk, v)) by {
            if list_has(old_s, base, bk, v) {
                let j = choose|j: int| 0 <= j < old_s.len() && has(#[trigger] old_s[j], base, bk, v);
                if j == i {
                    assert(list_has(s.children@, here, bk, v));
                }
            }
        }
    } else {
        assert forall|m: Seq<u8>, v: T| list_has(t, base, m, v) == list_has(old_s, base, m, v) by {
            if list_has(t, base, m, v) {
                let j = choose|j: int| 0 <= j < t.len() && has(#[trigger] t[j], base, m, v);
                assert(has(old_s[j], base, m, v));
            }
            if list_has(old_s, base, m, v) {
                let j = choose|j: int| 0 <= j < old_s.len() && has(#[trigger] old_s[j], base, m, v);
                assert(has(t[j], base, m, v));
            }
        }
        let w = choose|w: T| list_has(s.children@, here, bk, w);
        assert(has(s, base, bk, w));
        assert(list_has(old_s, base, bk, w));
    }
}

/// Sharing a cut prefix is symmetric.
proof fn lemma_shared_cut_sym(a: Seq<u8>, b: Seq<u8>, q: int, aligned: bool)
    ensures
        shared_cut(a, b, q, aligned) == shared_cut(b, a, q, aligned),
{
}

/// After the longest shared cut prefix `p` of `s` and `k`, their remainders
/// share no cut prefix, and both begin a unit.
proof fn lemma_split_children(s: Seq<u8>, k: Seq<u8>, p: int, aligned: bool)
    requires
        1 <= p < s.len(),
        p < k.len(),
        shared_cut(k, s, p, aligned),
        forall|q: int| p < q ==> !(#[trigger] shared_cut(k, s, q, aligned)),
    ensures
        forall|q: int| !(#[trigger] shared_cut(s.skip(p), k.skip(p), q, aligned)),
        starts(aligned, s.skip(p)[0]),
        starts(aligned, k.skip(p)[0]),
        s.skip(p).len() > 0,
        k.skip(p).len() > 0,
{
    assert forall|q: int| !(#[trigger] shared_cut(s.skip(p), k.skip(p), q, aligned)) by {
        if shared_cut(s.skip(p), k.skip(p), q, aligned) {
            assert(k.take(p + q) =~= s.take(p + q)) by {
                assert forall|x: int| 0 <= x < p + q implies k[x] == s[x] by {
                    if x < p {
                        assert(k.take(p)[x] == s.take(p)[x]);
                    } else {
                        assert(s.skip(p).take(q)[x - p] == k.skip(p).take(q)[x - p]);
                    }
                }
            }
            assert(shared_cut(k, s, p + q, aligned));
        }
    }
}

/// Replacing a sibling by a node whose edge keeps the old edge's first byte
/// and shares no cut prefix with the others keeps the list's sibling facts.
proof fn lemma_siblings_update<T>(old_s: Seq<TrieNode<T>>, i: int, x: TrieNode<T>, aligned: bool)
    requires
        list_wf(old_s, aligned),
        0 <= i < old_s.len(),
        x.value@.len() > 0,
        starts(aligned, x.value@[0]),
        live(x),
        trie_wf(x, aligned),
        forall|j: int, q: int| 0 <= j < old_s.len() && j != i ==> !(#[trigger] shared_cut(x.value@, old_s[j].value@, q, aligned)),
    ensures
        list_wf(old_s.update(i, x), aligned),
{
    let t = old_s.update(i, x);
    assert forall|a: int, b: int, q: int|
        0 <= a < t.len() && 0 <= b < t.len() && a != b implies !(#[trigger] shared_cut(t[a].value@, t[b].value@, q, aligned)) by {
        if a == i {
            assert(!shared_cut(x.value@, old_s[b].value@, q, aligned));
        } else if b == i {
            assert(!shared_cut(x.value@, old_s[a].value@, q, aligned));
            lemma_shared_cut_sym(t[a].value@, t[b].value@, q, aligned);
        } else {
            assert(t[a] == old_s[a] && t[b] == old_s[b]);
        }
    }
}

} // verus!
