//! The automaton: an immutable array of nodes and the evaluator that walks it.
use crate::segment::{
    all_ascii, fold, lemma_lex_antisym, lemma_lex_equal_eq, lemma_lex_refl, lex, CaseInsensitive,
    Segmentable,
};
use std::cmp::Ordering;
use vstd::prelude::*;
use vstd::utf8::{is_char_boundary, pop_first_scalar, valid_utf8};

verus! {

/// Either a borrowed slice or an owned vector.
#[derive(Debug, Clone, PartialEq, Eq, PartialOrd, Ord, Hash)]
pub(crate) enum MaybeSlice<'a, T> {
    Slice(&'a [T]),
    Vec(Vec<T>),
}

impl<'a, T> MaybeSlice<'a, T> {
    pub(crate) closed spec fn view(&self) -> Seq<T> {
        match self {
            MaybeSlice::Slice(s) => s@,
            MaybeSlice::Vec(v) => v@,
        }
    }

    pub(crate) fn as_slice(&self) -> (r: &[T])
        ensures
            r@ == self.view(),
    {
        match self {
            MaybeSlice::Slice(s) => s,
            MaybeSlice::Vec(v) => v.as_slice(),
        }
    }
}

/// A node in a DFA.
#[derive(Debug, Clone, PartialEq, Eq, PartialOrd, Ord, Hash)]
pub struct Node<'inst, Input, Output> {
    /// The values that this node accepts, each with the index of the next
    /// node, sorted by the value.
    inputs: MaybeSlice<'inst, (Input, usize)>,
    /// The output resulting from the DFA halting on this node.
    output: Output,
    /// The index of the node to go to if no input matches.
    default: usize,
    /// The length of the chunk of input that this node matches on.
    amount: usize,
}

/// A deterministic finite automaton (DFA) that processes sequential input to
/// produce an output.
#[derive(Debug, Clone, Copy, PartialEq, Eq, PartialOrd, Ord, Hash)]
pub struct Graph<'inst, 'nodes, Input, Output> {
    /// The nodes in the graph.
    nodes: &'nodes [Node<'inst, Input, Output>],
    /// The index of the start node.
    start: usize,
}

/// The edges are strictly increasing by the order keys of their chunks.
pub open spec fn sorted_edges<I: Segmentable>(edges: Seq<(I, usize)>) -> bool {
    forall|i: int, j: int|
        0 <= i < j < edges.len() ==> lex(
            I::order_key(#[trigger] edges[i].0.units()),
            I::order_key(#[trigger] edges[j].0.units()),
        ) == Ordering::Less
}

/// The edge whose chunk has order key `key` and its target, if there is one.
pub open spec fn has_edge<I: Segmentable>(edges: Seq<(I, usize)>, key: Seq<u8>) -> bool {
    exists|j: int| 0 <= j < edges.len() && I::order_key(#[trigger] edges[j].0.units()) == key
}

/// Where a node sends a chunk with order key `key`: the target of the edge
/// for that key, or else `default`.
pub open spec fn edge_target<I: Segmentable>(
    edges: Seq<(I, usize)>,
    key: Seq<u8>,
    default: usize,
) -> usize {
    if has_edge(edges, key) {
        edges[choose|j: int| 0 <= j < edges.len() && I::order_key(#[trigger] edges[j].0.units()) == key].1
    } else {
        default
    }
}

/// In sorted edges, the edge whose chunk has order key `key` is the one the
/// node follows.
pub proof fn lemma_edge_target<I: Segmentable>(edges: Seq<(I, usize)>, key: Seq<u8>, default: usize, j: int)
    requires
        sorted_edges(edges),
        0 <= j < edges.len(),
        I::order_key(edges[j].0.units()) == key,
    ensures
        has_edge(edges, key),
        edge_target(edges, key, default) == edges[j].1,
{
    assert forall|c: int| 0 <= c < edges.len() && I::order_key(#[trigger] edges[c].0.units()) == key implies c == j by {
        if c != j {
            lemma_lex_refl(key, 0);
            if c < j {
                assert(lex(I::order_key(edges[c].0.units()), I::order_key(edges[j].0.units())) == Ordering::Less);
            } else {
                assert(lex(I::order_key(edges[j].0.units()), I::order_key(edges[c].0.units())) == Ordering::Less);
            }
        }
    }
}

impl<'inst, Input, Output> Node<'inst, Input, Output> {
    /// The edges of this node.
    pub closed spec fn spec_inputs(&self) -> Seq<(Input, usize)> {
        self.inputs.view()
    }

    /// The output of this node.
    pub closed spec fn spec_output(&self) -> Output {
        self.output
    }

    /// The default node index of this node.
    pub closed spec fn spec_default(&self) -> usize {
        self.default
    }

    /// The chunk length of this node.
    pub closed spec fn spec_amount(&self) -> usize {
        self.amount
    }

    /// Create a new node from its parts.
    pub fn new(inputs: &'inst [(Input, usize)], output: Output, default: usize, amount: usize) -> (r:
        Self)
        ensures
            r.spec_inputs() == inputs@,
            r.spec_output() == output,
            r.spec_default() == default,
            r.spec_amount() == amount,
    {
        Node { inputs: MaybeSlice::Slice(inputs), output, default, amount }
    }

    /// Create a node that owns its edges.
    pub(crate) fn from_vec(inputs: Vec<(Input, usize)>, output: Output, default: usize, amount: usize) -> (r:
        Self)
        ensures
            r.spec_inputs() == inputs@,
            r.spec_output() == output,
            r.spec_default() == default,
            r.spec_amount() == amount,
    {
        Node { inputs: MaybeSlice::Vec(inputs), output, default, amount }
    }

    /// Get the inputs of this node.
    pub fn inputs(&self) -> (r: &[(Input, usize)])
        ensures
            r@ == self.spec_inputs(),
    {
        self.inputs.as_slice()
    }

    /// Get the output of this node.
    pub fn output(&self) -> (r: &Output)
        ensures
            *r == self.spec_output(),
    {
        &self.output
    }

    /// Get the default node index.
    pub fn default(&self) -> (r: usize)
        ensures
            r == self.spec_default(),
    {
        self.default
    }

    /// Get the amount of input to match on.
    pub fn amount(&self) -> (r: usize)
        ensures
            r == self.spec_amount(),
    {
        self.amount
    }
}

impl<'inst, Input: Segmentable, Output> Node<'inst, Input, Output> {
    /// Determine the next index to go to for a chunk of input.
    fn next(&self, input: &Input) -> (r: usize)
        requires
            sorted_edges(self.spec_inputs()),
        ensures
            r == edge_target(self.spec_inputs(), Input::order_key(input.units()), self.spec_default()),
    {
        let inputs = self.inputs();
        let ghost edges = self.spec_inputs();
        let ghost key = Input::order_key(input.units());
        let mut lo: usize = 0;
        let mut hi: usize = inputs.len();
        while lo < hi
            invariant
                inputs@ == edges,
                edges == self.spec_inputs(),
                key == Input::order_key(input.units()),
                sorted_edges(edges),
                lo <= hi <= edges.len(),
                forall|j: int| 0 <= j < lo ==> Input::order_key(#[trigger] edges[j].0.units()) != key,
                forall|j: int|
                    hi <= j < edges.len() ==> Input::order_key(#[trigger] edges[j].0.units()) != key,
            decreases hi - lo,
        {
            let mid = lo + (hi - lo) / 2;
            let ghost km = Input::order_key(edges[mid as int].0.units());
            match inputs[mid].0.compare(input) {
                Ordering::Less => {
                    assert forall|j: int| 0 <= j <= mid implies Input::order_key(
                        #[trigger] edges[j].0.units(),
                    ) != key by {
                        let kj = Input::order_key(edges[j].0.units());
                        if j < mid {
                            assert(lex(kj, km) == Ordering::Less);
                            if kj == key {
                                lemma_lex_antisym(km, key, 0);
                            }
                        } else {
                            lemma_lex_refl(key, 0);
                        }
                    }
                    lo = mid + 1;
                },
                Ordering::Greater => {
                    assert forall|j: int| mid <= j < edges.len() implies Input::order_key(
                        #[trigger] edges[j].0.units(),
                    ) != key by {
                        let kj = Input::order_key(edges[j].0.units());
                        if j == mid {
                            lemma_lex_refl(key, 0);
                        } else {
                            assert(lex(km, kj) == Ordering::Less);
                        }
                    }
                    hi = mid;
                },
                Ordering::Equal => {
                    proof {
                        lemma_lex_equal_eq(km, key);
                        assert(Input::order_key(edges[mid as int].0.units()) == key);
                        let c = choose|j: int|
                            0 <= j < edges.len() && Input::order_key(#[trigger] edges[j].0.units())
                                == key;
                        if c != mid {
                            lemma_lex_refl(key, 0);
                        }
                    }
                    return inputs[mid].1;
                },
            }
        }
        self.default
    }
}

/// The node is usable by the evaluator in a graph of `count` nodes: it
/// consumes at least one unit, its targets are in range, and its edges are
/// sorted.
pub open spec fn node_wf<I: Segmentable, O>(n: Node<I, O>, count: int) -> bool {
    &&& n.spec_amount() >= 1
    &&& n.spec_default() < count
    &&& forall|j: int| 0 <= j < n.spec_inputs().len() ==> #[trigger] n.spec_inputs()[j].1 < count
    &&& sorted_edges(n.spec_inputs())
}

/// The nodes are all usable and `start` is one of them.
pub open spec fn nodes_wf<I: Segmentable, O>(nodes: Seq<Node<I, O>>, start: int) -> bool {
    &&& 0 <= start < nodes.len()
    &&& forall|i: int| 0 <= i < nodes.len() ==> node_wf(#[trigger] nodes[i], nodes.len() as int)
}

/// The output of evaluating `input` from node `at`: while the node's chunk
/// can be cut from the input, the chunk selects the next node; then the
/// output of the node reached.
pub open spec fn run<I: Segmentable, O>(nodes: Seq<Node<I, O>>, at: int, input: Seq<u8>) -> O
    decreases input.len(),
{
    let node = nodes[at];
    let a = node.spec_amount() as int;
    if a == 0 || input.len() < a || !I::can_split(input, a) {
        node.spec_output()
    } else {
        run(
            nodes,
            edge_target(node.spec_inputs(), I::order_key(input.take(a)), node.spec_default()) as int,
            input.skip(a),
        )
    }
}

impl<'inst, 'nodes, Input, Output> Graph<'inst, 'nodes, Input, Output> {
    /// The nodes of this graph.
    pub closed spec fn spec_nodes(&self) -> Seq<Node<'inst, Input, Output>> {
        self.nodes@
    }

    /// The index of the start node.
    pub closed spec fn spec_start(&self) -> usize {
        self.start
    }

    /// Create a new graph from a set of nodes.
    pub fn new(nodes: &'nodes [Node<'inst, Input, Output>], start: usize) -> (r: Self)
        ensures
            r.spec_nodes() == nodes@,
            r.spec_start() == start,
    {
        Graph { nodes, start }
    }

    /// Get the nodes of this graph.
    pub fn nodes(&self) -> (r: &'nodes [Node<'inst, Input, Output>])
        ensures
            r@ == self.spec_nodes(),
    {
        self.nodes
    }

    /// Get the start node index.
    pub fn start(&self) -> (r: usize)
        ensures
            r == self.spec_start(),
    {
        self.start
    }
}

impl<'inst, 'nodes, Input: Segmentable, Output> Graph<'inst, 'nodes, Input, Output> {
    /// The graph can be evaluated.
    pub open spec fn wf(&self) -> bool {
        nodes_wf(self.spec_nodes(), self.spec_start() as int)
    }

    /// The output that evaluating `input` yields.
    pub open spec fn spec_process(&self, input: Seq<u8>) -> Output {
        run(self.spec_nodes(), self.spec_start() as int, input)
    }

    /// Process the input and return the output.
    pub fn process(&self, input: Input) -> (r: &Output)
        requires
            self.wf(),
        ensures
            *r == self.spec_process(input.units()),
    {
        let ghost nodes = self.spec_nodes();
        let ghost orig = input.units();
        let mut at: usize = self.start;
        let mut cur = input;
        loop
            invariant
                nodes == self.nodes@,
                orig == input.units(),
                nodes_wf(nodes, self.start as int),
                at < nodes.len(),
                run(nodes, self.start as int, orig) == run(nodes, at as int, cur.units()),
            decreases cur.units().len(),
        {
            let node = &self.nodes[at];
            let amount = node.amount;
            let (chunk, rest) = match cur.split(amount) {
                Some(result) => result,
                None => {
                    assert(run(nodes, at as int, cur.units()) == node.output);
                    return &node.output;
                },
            };
            at = node.next(&chunk);
            cur = rest;
        }
    }
}

} // verus!

verus! {

/// Case-fold invariance: with case-insensitive byte keys, inputs that agree
/// up to ASCII case evaluate to the same output from every node.
pub proof fn lemma_case_fold<'a, O>(
    nodes: Seq<Node<CaseInsensitive<&'a [u8]>, O>>,
    at: int,
    u1: Seq<u8>,
    u2: Seq<u8>,
)
    requires
        fold(u1) == fold(u2),
    ensures
        run(nodes, at, u1) == run(nodes, at, u2),
    decreases u1.len(),
{
    assert(u1.len() == fold(u1).len());
    let node = nodes[at];
    let a = node.spec_amount() as int;
    if !(a == 0 || u1.len() < a) {
        assert(fold(u1.take(a)) =~= fold(u1).take(a));
        assert(fold(u2.take(a)) =~= fold(u2).take(a));
        assert(fold(u1.skip(a)) =~= fold(u1).skip(a));
        assert(fold(u2.skip(a)) =~= fold(u2).skip(a));
        lemma_case_fold(nodes, edge_target(node.spec_inputs(), fold(u1.take(a)), node.spec_default()) as int, u1.skip(a), u2.skip(a));
    }
}

impl<'a, 'b, 'c, O> Graph<'a, 'b, CaseInsensitive<&'c [u8]>, O> {
    /// Case-fold invariance at the start node of a graph.
    pub proof fn lemma_process_case_fold(&self, u1: Seq<u8>, u2: Seq<u8>)
        requires
            fold(u1) == fold(u2),
        ensures
            self.spec_process(u1) == self.spec_process(u2),
    {
        lemma_case_fold(self.spec_nodes(), self.spec_start() as int, u1, u2);
    }
}

/// ASCII bytes are valid UTF-8, and text made of them can be cut anywhere.
pub proof fn lemma_ascii_text(b: Seq<u8>, i: int)
    requires
        all_ascii(b),
        0 <= i <= b.len(),
    ensures
        valid_utf8(b),
        is_char_boundary(b, i),
    decreases b.len(),
{
    if b.len() > 0 {
        let c = b[0];
        assert((c & 0x7Fu8) <= 0x7Fu8) by (bit_vector);
        let rest = b.subrange(1, b.len() as int);
        assert(pop_first_scalar(b) == rest);
        lemma_ascii_text(rest, if i > 0 { i - 1 } else { 0 });
    }
}

/// Case-fold invariance for case-insensitive text: ASCII inputs that agree up
/// to case evaluate to the same output from every node.
pub proof fn lemma_case_fold_text<'a, O>(
    nodes: Seq<Node<CaseInsensitive<&'a str>, O>>,
    at: int,
    u1: Seq<u8>,
    u2: Seq<u8>,
)
    requires
        all_ascii(u1),
        all_ascii(u2),
        fold(u1) == fold(u2),
    ensures
        run(nodes, at, u1) == run(nodes, at, u2),
    decreases u1.len(),
{
    assert(u1.len() == fold(u1).len());
    let node = nodes[at];
    let a = node.spec_amount() as int;
    if !(a == 0 || u1.len() < a) {
        lemma_ascii_text(u1, a);
        lemma_ascii_text(u2, a);
        assert(fold(u1.take(a)) =~= fold(u1).take(a));
        assert(fold(u2.take(a)) =~= fold(u2).take(a));
        assert(fold(u1.skip(a)) =~= fold(u1).skip(a));
        assert(fold(u2.skip(a)) =~= fold(u2).skip(a));
        lemma_case_fold_text(
            nodes,
            edge_target(node.spec_inputs(), fold(u1.take(a)), node.spec_default()) as int,
            u1.skip(a),
            u2.skip(a),
        );
    }
}

impl<'a, 'b, 'c, O> Graph<'a, 'b, CaseInsensitive<&'c str>, O> {
    /// Case-fold invariance at the start node of a graph over case-insensitive
    /// text, for ASCII inputs.
    pub proof fn lemma_process_case_fold_text(&self, u1: Seq<u8>, u2: Seq<u8>)
        requires
            all_ascii(u1),
            all_ascii(u2),
            fold(u1) == fold(u2),
        ensures
            self.spec_process(u1) == self.spec_process(u2),
    {
        lemma_case_fold_text(self.spec_nodes(), self.spec_start() as int, u1, u2);
    }
}

} // verus!
