//! A builder for graphs.
//!
//! The builder is a single-owner, mutable structure that uses an allocator;
//! the graph it produces is immutable.
use crate::flatten::{
    buffer_ok, edge_leads, edge_ok, emit_siblings, emitted, lemma_buffer_wf, lemma_complete,
    held_first, lemma_emitted_push, lemma_placed_frame, lemma_placed_none, lemma_run_past,
    lemma_sound, lemma_sound_exact, list_count, node_ok, sibling_edge, sibling_width, NodeInfo,
};
use crate::trie;
use crate::graph::lemma_ascii_text;
use crate::graph::{run, Graph, Node};
use crate::segment::{all_ascii, fold, lower, lower_byte, starts, CaseInsensitive, Segmentable};
use crate::trie::{has, holds, insert, lemma_too_short, list_has, list_wf, TrieNode};
use std::marker::PhantomData;
use vstd::pervasive::cloned;
use vstd::prelude::*;
use vstd::slice::slice_to_vec;
use vstd::string::StringSliceAdditionalSpecFns;
use vstd::utf8::{
    char_is_scalar, encode_scalar, encode_utf8, has_width_1_encoding, has_width_2_encoding,
    has_width_3_encoding, is_scalar, valid_utf8,
};

verus! {

/// The domain of keys that a graph accepts, and the key type it evaluates.
pub trait GraphType<'a> {
    /// The type of the input key.
    type InputKey: Segmentable + 'a;

    /// The keys that are accepted.
    spec fn valid(key: Seq<u8>) -> bool;

    /// The form in which an accepted key is stored.
    spec fn stored(key: Seq<u8>) -> Seq<u8>;

    /// The byte strings that an input key can hold.
    spec fn represents(chunk: Seq<u8>) -> bool;

    /// Keys are cut only where a UTF-8 character begins.
    spec fn aligned() -> bool;

    /// Whether keys are cut only where a UTF-8 character begins.
    fn is_aligned() -> (r: bool)
        ensures
            r == Self::aligned(),
    ;

    /// An accepted key, in stored form, begins where it can be cut.
    proof fn lemma_valid_starts(key: Seq<u8>)
        requires
            Self::valid(key),
            key.len() > 0,
        ensures
            Self::stored(key).len() == key.len(),
            starts(Self::aligned(), Self::stored(key)[0]),
    ;

    /// The form of stored keys: each is its own order key, and so is each
    /// part of it.
    spec fn normal(u: Seq<u8>) -> bool;

    /// The stored keys that the graph answers exactly: every part of such a
    /// key is an input key, is its own order key, and can be cut anywhere.
    spec fn exact(u: Seq<u8>) -> bool;

    /// Accepted keys are stored in normal form.
    proof fn lemma_stored_normal(key: Seq<u8>)
        requires
            Self::valid(key),
        ensures
            Self::normal(Self::stored(key)),
    ;

    /// Storing a key that is its own ASCII lowercase keeps it so.
    proof fn lemma_stored_fold(key: Seq<u8>)
        requires
            fold(key) == key,
        ensures
            fold(Self::stored(key)) == Self::stored(key),
    ;

    /// What `normal` gives.
    proof fn lemma_normal(u: Seq<u8>, i: int, j: int)
        requires
            Self::normal(u),
            0 <= i <= j <= u.len(),
        ensures
            Self::normal(u.subrange(i, j)),
            <Self::InputKey as Segmentable>::order_key(u) == u,
            forall|x: int|
                0 <= x < u.len() - 1 && Self::exact(#[trigger] u.subrange(x, x + 1)) ==> starts(
                    Self::aligned(),
                    u[x + 1],
                ),
    ;

    /// What `exact` gives.
    proof fn lemma_exact(u: Seq<u8>, i: int, j: int)
        requires
            Self::exact(u),
            0 <= i <= j <= u.len(),
        ensures
            Self::exact(u.subrange(i, j)),
            Self::represents(u),
            <Self::InputKey as Segmentable>::order_key(u) == u,
            forall|at: int| 0 <= at <= u.len() ==> #[trigger] <Self::InputKey as Segmentable>::can_split(u, at),
            forall|x: int| 0 <= x < u.len() ==> starts(Self::aligned(), #[trigger] u[x]),
    ;

    /// Validate the bytes of a text key, and bring them into stored form.
    fn validate(input: &mut Vec<u8>) -> (r: bool)
        requires
            text_shape(old(input)@),
        ensures
            r == Self::valid(old(input)@),
            final(input)@ == Self::stored(old(input)@),
            final(input)@.len() == old(input)@.len(),
    ;

    /// Convert stored bytes into an input key.
    fn key(input: &'a [u8]) -> (r: Option<Self::InputKey>)
        ensures
            r is Some <==> Self::represents(input@),
            r matches Some(k) ==> k.units() == input@,
    ;
}

/// The keys that a key domain answers exactly.
pub open spec fn exact_of<'a, Type: GraphType<'a>>() -> spec_fn(Seq<u8>) -> bool {
    |u: Seq<u8>| Type::exact(u)
}

/// Relies on `std::str::from_utf8`: it succeeds exactly on valid UTF-8, and
/// then views the same bytes as text.
#[verifier::external_body]
fn text_of(b: &[u8]) -> (r: Option<&str>)
    ensures
        r is Some <==> valid_utf8(b@),
        r matches Some(s) ==> s.spec_bytes() == b@,
{
    std::str::from_utf8(b).ok()
}

/// Text begins where a character begins, and an ASCII byte in it is followed
/// by the start of another character.
pub open spec fn text_shape(key: Seq<u8>) -> bool {
    &&& key.len() == 0 || starts(true, key[0])
    &&& forall|x: int| 0 <= x < key.len() - 1 && key[x] < 0x80 ==> starts(true, #[trigger] key[x + 1])
}

/// The bytes of one encoded character: the first begins a character, and in
/// an encoding of more than one byte none is ASCII.
proof fn lemma_scalar_shape(c: u32)
    requires
        is_scalar(c),
    ensures
        encode_scalar(c).len() >= 1,
        starts(true, encode_scalar(c)[0]),
        encode_scalar(c).len() > 1 ==> forall|x: int|
            0 <= x < encode_scalar(c).len() ==> #[trigger] encode_scalar(c)[x] >= 0x80,
{
    if has_width_1_encoding(c) {
        assert((c & 0x7F) as u8 <= 0x7F) by (bit_vector);
    } else if has_width_2_encoding(c) {
        assert(0xC0u8 | ((c >> 6) & 0x1F) as u8 >= 0xC0) by (bit_vector);
        assert(0x80u8 | (c & 0x3F) as u8 >= 0x80) by (bit_vector);
    } else if has_width_3_encoding(c) {
        assert(0xE0u8 | ((c >> 12) & 0x0F) as u8 >= 0xC0) by (bit_vector);
        assert(0x80u8 | ((c >> 6) & 0x3F) as u8 >= 0x80) by (bit_vector);
        assert(0x80u8 | (c & 0x3F) as u8 >= 0x80) by (bit_vector);
    } else {
        assert(0xF0u8 | ((c >> 18) & 0x7) as u8 >= 0xC0) by (bit_vector);
        assert(0x80u8 | ((c >> 12) & 0x3F) as u8 >= 0x80) by (bit_vector);
        assert(0x80u8 | ((c >> 6) & 0x3F) as u8 >= 0x80) by (bit_vector);
        assert(0x80u8 | (c & 0x3F) as u8 >= 0x80) by (bit_vector);
    }
}

/// Lowercasing ASCII letters keeps the shape of text.
proof fn lemma_fold_text_shape(b: Seq<u8>)
    requires
        text_shape(b),
    ensures
        text_shape(fold(b)),
{
    let f = fold(b);
    assert forall|x: int| 0 <= x < f.len() - 1 && f[x] < 0x80 implies starts(true, #[trigger] f[x + 1]) by {
        assert(f[x] == lower(b[x]) && f[x + 1] == lower(b[x + 1]));
    }
}

/// The bytes of any text have the shape that text keys are checked for.
pub proof fn lemma_text_shape(chars: Seq<char>)
    ensures
        text_shape(encode_utf8(chars)),
    decreases chars.len(),
{
    if chars.len() > 0 {
        let c = chars[0] as u32;
        char_is_scalar(chars[0]);
        lemma_scalar_shape(c);
        let e = encode_scalar(c);
        let rest = encode_utf8(chars.drop_first());
        lemma_text_shape(chars.drop_first());
        let b = encode_utf8(chars);
        assert(b == e + rest);
        assert forall|x: int| 0 <= x < b.len() - 1 && b[x] < 0x80 implies starts(true, #[trigger] b[x + 1]) by {
            if x < e.len() - 1 {
                assert(b[x] == e[x]);
            } else if x == e.len() - 1 {
                assert(b[x + 1] == rest[0]);
            } else {
                assert(b[x] == rest[x - e.len()]);
                assert(b[x + 1] == rest[x - e.len() + 1]);
            }
        }
        assert(b[0] == e[0]);
    }
}

/// A graph that supports UTF-8.
///
/// Any text is accepted as a key. Input keys are text, so a chunk must be
/// whole characters: where the shortest edge among siblings ends inside a
/// character of another sibling's edge (keys "a" and "é"), that sibling gets
/// no edge and its keys yield no payload. The round trip is stated for ASCII
/// keys, which are always cut on character starts.
#[derive(Debug, Clone, Copy, PartialEq, Eq, PartialOrd, Ord, Hash, Default)]
pub struct Utf8Graph;

impl<'a> GraphType<'a> for Utf8Graph {
    type InputKey = &'a str;

    /// Text begins with a character, and an ASCII character is followed by
    /// the start of another (as the bytes of any text do, by
    /// `lemma_text_shape`).
    open spec fn valid(key: Seq<u8>) -> bool {
        text_shape(key)
    }

    open spec fn normal(u: Seq<u8>) -> bool {
        forall|x: int| 0 <= x < u.len() - 1 && u[x] < 0x80 ==> starts(true, #[trigger] u[x + 1])
    }

    open spec fn exact(u: Seq<u8>) -> bool {
        all_ascii(u)
    }

    proof fn lemma_stored_normal(key: Seq<u8>) {
    }

    proof fn lemma_stored_fold(key: Seq<u8>) {
    }

    proof fn lemma_normal(u: Seq<u8>, i: int, j: int) {
        let w = u.subrange(i, j);
        assert forall|x: int| 0 <= x < w.len() - 1 && w[x] < 0x80 implies starts(true, #[trigger] w[x + 1]) by {
            assert(w[x] == u[i + x] && w[x + 1] == u[i + x + 1]);
        }
        assert forall|x: int| 0 <= x < u.len() - 1 && Self::exact(#[trigger] u.subrange(x, x + 1)) implies starts(true, u[x + 1]) by {
            assert(u.subrange(x, x + 1)[0] == u[x]);
        }
    }

    proof fn lemma_exact(u: Seq<u8>, i: int, j: int) {
        assert forall|at: int| 0 <= at <= u.len() implies #[trigger] <&'a str as Segmentable>::can_split(u, at) by {
            lemma_ascii_text(u, at);
        }
        lemma_ascii_text(u, 0);
    }

    open spec fn aligned() -> bool {
        true
    }

    fn is_aligned() -> (r: bool) {
        true
    }

    proof fn lemma_valid_starts(key: Seq<u8>) {
    }

    open spec fn stored(key: Seq<u8>) -> Seq<u8> {
        key
    }

    open spec fn represents(chunk: Seq<u8>) -> bool {
        valid_utf8(chunk)
    }

    fn validate(input: &mut Vec<u8>) -> (r: bool) {
        true
    }

    fn key(input: &'a [u8]) -> (r: Option<&'a str>) {
        text_of(input)
    }
}

/// A graph that only supports ASCII.
#[derive(Debug, Clone, Copy, PartialEq, Eq, PartialOrd, Ord, Hash, Default)]
pub struct AsciiGraph;

impl<'a> GraphType<'a> for AsciiGraph {
    type InputKey = &'a [u8];

    open spec fn valid(key: Seq<u8>) -> bool {
        all_ascii(key)
    }

    open spec fn aligned() -> bool {
        false
    }

    fn is_aligned() -> (r: bool) {
        false
    }

    proof fn lemma_valid_starts(key: Seq<u8>) {
    }

    open spec fn stored(key: Seq<u8>) -> Seq<u8> {
        key
    }

    open spec fn represents(chunk: Seq<u8>) -> bool {
        true
    }

    open spec fn normal(u: Seq<u8>) -> bool {
        true
    }

    open spec fn exact(u: Seq<u8>) -> bool {
        true
    }

    proof fn lemma_stored_normal(key: Seq<u8>) {
    }

    proof fn lemma_stored_fold(key: Seq<u8>) {
    }

    proof fn lemma_normal(u: Seq<u8>, i: int, j: int) {
    }

    proof fn lemma_exact(u: Seq<u8>, i: int, j: int) {
    }

    fn validate(input: &mut Vec<u8>) -> (r: bool) {
        let mut i: usize = 0;
        while i < input.len()
            invariant
                i <= input.len(),
                forall|j: int| 0 <= j < i ==> input@[j] < 128,
            decreases input.len() - i,
        {
            if input[i] >= 128 {
                return false;
            }
            i = i + 1;
        }
        true
    }

    fn key(input: &'a [u8]) -> (r: Option<&'a [u8]>) {
        Some(input)
    }
}

/// A graph that ignores ASCII case for another graph: keys are stored in
/// lowercase, and input keys compare their lowercase forms.
#[derive(Debug, PartialEq, Eq, PartialOrd, Ord, Hash, Default)]
pub struct IgnoreCase<G>(PhantomData<G>);

impl<G> Clone for IgnoreCase<G> {
    fn clone(&self) -> (r: Self) {
        IgnoreCase(PhantomData)
    }
}

impl<G> Copy for IgnoreCase<G> {
}

/// Lowercase every ASCII byte in place.
fn make_lowercase(input: &mut Vec<u8>)
    ensures
        final(input)@ == fold(old(input)@),
{
    let ghost start = input@;
    let mut i: usize = 0;
    while i < input.len()
        invariant
            input@.len() == start.len(),
            i <= input.len(),
            forall|j: int| 0 <= j < i ==> input@[j] == fold(start)[j],
            forall|j: int| i <= j < input.len() ==> input@[j] == start[j],
        decreases input.len() - i,
    {
        let b = lower_byte(input[i]);
        input[i] = b;
        i = i + 1;
    }
    assert(input@ =~= fold(start));
}

impl<'a, G: GraphType<'a>> GraphType<'a> for IgnoreCase<G> {
    type InputKey = CaseInsensitive<G::InputKey>;

    open spec fn valid(key: Seq<u8>) -> bool {
        G::valid(fold(key))
    }

    open spec fn aligned() -> bool {
        G::aligned()
    }

    fn is_aligned() -> (r: bool) {
        G::is_aligned()
    }

    proof fn lemma_valid_starts(key: Seq<u8>) {
        G::lemma_valid_starts(fold(key));
    }

    open spec fn stored(key: Seq<u8>) -> Seq<u8> {
        G::stored(fold(key))
    }

    open spec fn represents(chunk: Seq<u8>) -> bool {
        G::represents(chunk)
    }

    open spec fn normal(u: Seq<u8>) -> bool {
        G::normal(u) && fold(u) == u
    }

    open spec fn exact(u: Seq<u8>) -> bool {
        G::exact(u) && fold(u) == u
    }

    proof fn lemma_stored_normal(key: Seq<u8>) {
        G::lemma_stored_normal(fold(key));
        assert(fold(fold(key)) =~= fold(key));
        G::lemma_stored_fold(fold(key));
    }

    proof fn lemma_stored_fold(key: Seq<u8>) {
        G::lemma_stored_fold(fold(key));
    }

    proof fn lemma_normal(u: Seq<u8>, i: int, j: int) {
        G::lemma_normal(u, i, j);
        assert(fold(u.subrange(i, j)) =~= fold(u).subrange(i, j));
        assert forall|x: int| 0 <= x < u.len() - 1 && Self::exact(#[trigger] u.subrange(x, x + 1)) implies starts(G::aligned(), u[x + 1]) by {
            assert(G::exact(u.subrange(x, x + 1)));
        }
    }

    proof fn lemma_exact(u: Seq<u8>, i: int, j: int) {
        G::lemma_exact(u, i, j);
        assert(fold(u.subrange(i, j)) =~= fold(u).subrange(i, j));
    }

    fn validate(input: &mut Vec<u8>) -> (r: bool) {
        let ghost before = input@;
        make_lowercase(input);
        proof {
            lemma_fold_text_shape(before);
        }
        G::validate(input)
    }

    fn key(input: &'a [u8]) -> (r: Option<CaseInsensitive<G::InputKey>>) {
        match G::key(input) {
            Some(k) => Some(CaseInsensitive(k)),
            None => None,
        }
    }
}

/// An error that occurs when adding a key to the builder.
#[derive(Debug)]
pub enum AddError<T> {
    /// The key is empty.
    Empty(T),
    /// The key is not valid.
    Invalid(String, T),
    /// The key is already in the graph.
    Duplicate(String, T),
}

/// A builder for graphs.
pub struct Builder<T, Type> {
    /// The top-level nodes of the prefix tree.
    nodes: Vec<TrieNode<T>>,
    /// The keys added so far, in stored form, with their payloads.
    map: Ghost<Map<Seq<u8>, T>>,
    /// The key domain.
    ty: PhantomData<Type>,
}

/// The bytes of a key given as text.
pub open spec fn key_bytes(key: String) -> Seq<u8> {
    encode_utf8(key@)
}

impl<T, Type> View for Builder<T, Type> {
    type V = Map<Seq<u8>, T>;

    closed spec fn view(&self) -> Map<Seq<u8>, T> {
        self.map@
    }
}

impl<'a, T, Type: GraphType<'a>> Builder<T, Type> {
    /// The prefix tree holds exactly the keys of the map.
    pub closed spec fn wf(&self) -> bool {
        &&& list_wf(self.nodes@, Type::aligned())
        &&& forall|m: Seq<u8>| #[trigger] self.map@.contains_key(m) ==> Type::normal(m)
        &&& forall|m: Seq<u8>, v: T|
            list_has(self.nodes@, Seq::empty(), m, v) <==> (self.map@.contains_key(m)
                && self.map@[m] == v)
    }

    /// The number of nodes that flattening gives the prefix tree: one per
    /// node of the tree once every sibling list is cut to its shortest edge,
    /// which adds one node for each edge cut short.
    pub closed spec fn flat_size(&self) -> nat {
        list_count(self.nodes@, sibling_width(self.nodes@), self.nodes@.len() as int)
    }

    /// Create a new builder.
    pub fn new() -> (r: Self)
        ensures
            r.wf(),
            r@ == Map::<Seq<u8>, T>::empty(),
    {
        Builder { nodes: Vec::new(), map: Ghost(Map::empty()), ty: PhantomData }
    }

    /// Add a key/value pair to the map.
    pub fn add(&mut self, key: String, value: T) -> (r: Result<(), AddError<T>>)
        requires
            old(self).wf(),
        ensures
            final(self).wf(),
            key_bytes(key).len() == 0 ==> r == Err::<(), AddError<T>>(AddError::Empty(value))
                && final(self)@ == old(self)@,
            key_bytes(key).len() > 0 && !Type::valid(key_bytes(key)) ==> r == Err::<
                (),
                AddError<T>,
            >(AddError::Invalid(key, value)) && final(self)@ == old(self)@,
            key_bytes(key).len() > 0 && Type::valid(key_bytes(key)) && old(self)@.contains_key(
                Type::stored(key_bytes(key)),
            ) ==> r == Err::<(), AddError<T>>(AddError::Duplicate(key, value)) && final(self)@
                == old(self)@,
            key_bytes(key).len() > 0 && Type::valid(key_bytes(key)) && !old(self)@.contains_key(
                Type::stored(key_bytes(key)),
            ) ==> r is Ok && final(self)@ == old(self)@.insert(Type::stored(key_bytes(key)), value),
            r is Err ==> *final(self) == *old(self),
    {
        let bytes = key.as_str().as_bytes();
        if bytes.len() == 0 {
            return Err(AddError::Empty(value));
        }
        let mut stored = slice_to_vec(bytes);
        proof {
            lemma_text_shape(key@);
        }
        if !Type::validate(&mut stored) {
            return Err(AddError::Invalid(key, value));
        }
        let ghost sk = stored@;
        let ghost before = self.nodes@;
        proof {
            assert(Seq::<u8>::empty() + sk =~= sk);
            Type::lemma_valid_starts(key_bytes(key));
            Type::lemma_stored_normal(key_bytes(key));
        }
        let aligned = Type::is_aligned();
        if holds(&self.nodes, stored.as_slice(), aligned, Ghost(Seq::empty())) {
            proof {
                let w = choose|w: T| list_has(before, Seq::empty(), sk, w);
                assert(self.map@.contains_key(sk));
            }
            return Err(AddError::Duplicate(key, value));
        }
        match insert(&mut self.nodes, stored, value, aligned, Ghost(Seq::empty())) {
            Ok(()) => {
                proof {
                    if self.map@.contains_key(sk) {
                        assert(list_has(before, Seq::empty(), sk, self.map@[sk]));
                    }
                    self.map = Ghost(self.map@.insert(sk, value));
                }
                Ok(())
            },
            Err(value) => {
                proof {
                    let w = choose|w: T| list_has(before, Seq::empty(), sk, w);
                    assert(self.map@.contains_key(sk));
                }
                Err(AddError::Duplicate(key, value))
            },
        }
    }
}

/// The graph answers for the keys of `map`: a payload comes out only where a
/// prefix of the input is, up to the order key, a key of the map, and is a
/// clone of that key's payload; for an exact input, that key is the whole
/// input or is extended by a key longer than the input; an exact input that
/// runs past a key which no other key extends yields nothing; and every key
/// of the map that is `exact` yields a clone of its own payload.
pub open spec fn realizes<K: Segmentable, T: Clone>(
    g: Graph<K, Option<T>>,
    map: Map<Seq<u8>, T>,
    exact: spec_fn(Seq<u8>) -> bool,
) -> bool {
    &&& g.wf()
    &&& forall|u: Seq<u8>|
        (#[trigger] g.spec_process(u)) is Some ==> exists|n: int, s: Seq<u8>|
            0 <= n <= u.len() && #[trigger] map.contains_key(s) && cloned(map[s], g.spec_process(u)->0)
                && K::order_key(s) == K::order_key(#[trigger] u.take(n))
    &&& forall|u: Seq<u8>|
        exact(u) && (#[trigger] g.spec_process(u)) is Some ==> exists|s: Seq<u8>|
            #[trigger] map.contains_key(s) && cloned(map[s], g.spec_process(u)->0) && s.len() <= u.len()
                && K::order_key(s) == K::order_key(u.take(s.len() as int)) && (s.len() == u.len()
                || exists|m: Seq<u8>|
                #[trigger] map.contains_key(m) && m.len() > u.len() && m.take(s.len() as int) == s)
    &&& forall|s: Seq<u8>, u: Seq<u8>|
        #[trigger] map.contains_key(s) && exact(u) && s.len() < u.len() && u.take(s.len() as int) == s
            && (forall|m: Seq<u8>|
            #[trigger] map.contains_key(m) ==> !(m.len() > s.len() && m.take(s.len() as int) == s))
            ==> (#[trigger] g.spec_process(u)) is None
    &&& forall|s: Seq<u8>|
        #[trigger] map.contains_key(s) && exact(s) ==> g.spec_process(s) is Some && cloned(
            map[s],
            g.spec_process(s)->0,
        )
}

/// Where the payloads of `map` sit among `nodes`: node `i` stands at key
/// `at[i]`; a node with a payload stands at a key of the map and holds a
/// clone of that key's payload; no two such nodes stand at the same key;
/// and every key of the map has one. So each payload is held by exactly one
/// node, and every other node holds `None`.
pub open spec fn payloads_at<K, T: Clone>(
    nodes: Seq<Node<K, Option<T>>>,
    at: Seq<Seq<u8>>,
    map: Map<Seq<u8>, T>,
) -> bool {
    &&& at.len() == nodes.len()
    &&& forall|i: int|
        0 <= i < nodes.len() && (#[trigger] nodes[i]).spec_output() is Some ==> map.contains_key(at[i])
            && cloned(map[at[i]], nodes[i].spec_output()->0)
    &&& forall|i: int, j: int|
        0 <= i < nodes.len() && 0 <= j < nodes.len() && i != j && (#[trigger] nodes[i]).spec_output() is Some
            && (#[trigger] nodes[j]).spec_output() is Some ==> at[i] != at[j]
    &&& forall|s: Seq<u8>|
        #[trigger] map.contains_key(s) ==> exists|i: int|
            0 <= i < nodes.len() && (#[trigger] nodes[i]).spec_output() is Some && at[i] == s
}

/// The layout of a built node array: at least the trap node and the root;
/// the trap first, with no edges and no payload; every default leads to the
/// trap; every other node's edges lead to nodes before it (never the trap) by
/// chunks of the node's width, and a node without edges has width 1.
pub open spec fn laid_out<K: Segmentable, T>(nodes: Seq<Node<K, Option<T>>>) -> bool {
    &&& nodes.len() >= 2
    &&& nodes[0].spec_inputs().len() == 0
    &&& nodes[0].spec_output() is None
    &&& forall|i: int| 0 <= i < nodes.len() ==> (#[trigger] nodes[i]).spec_default() == 0
    &&& forall|i: int, k: int|
        1 <= i < nodes.len() && 0 <= k < nodes[i].spec_inputs().len() ==> 1 <= (
        #[trigger] nodes[i].spec_inputs()[k]).1 < i && nodes[i].spec_inputs()[k].0.units().len()
            == nodes[i].spec_amount()
    &&& forall|i: int|
        1 <= i < nodes.len() && (#[trigger] nodes[i]).spec_inputs().len() == 0 ==> nodes[i].spec_amount()
            == 1
}

impl<'a, T, Type: GraphType<'a>> Builder<T, Type> {
    /// Build the graph into `node_buffer`: the trap node first, then every
    /// node after the nodes below it, and the root, where evaluation starts,
    /// last.
    ///
    /// A key is reached by its own payload when it is exact for the key
    /// domain; with `Utf8Graph`, a non-ASCII key whose sibling edges are cut
    /// inside one of its characters gets no edge and yields no payload.
    pub fn build<'nodes>(
        &'a self,
        node_buffer: &'nodes mut Vec<Node<'a, Type::InputKey, Option<T>>>,
    ) -> (r: Graph<'a, 'nodes, Type::InputKey, Option<T>>) where T: Clone
        requires
            self.wf(),
        ensures
            realizes(r, self@, exact_of::<Type>()),
            r.spec_nodes() == final(node_buffer)@,
            r.spec_nodes().len() == 2 + self.flat_size(),
            exists|at: Seq<Seq<u8>>| payloads_at(r.spec_nodes(), at, self@),
            laid_out(r.spec_nodes()),
            r.spec_start() == r.spec_nodes().len() - 1,
            self@ == Map::<Seq<u8>, T>::empty() ==> r.spec_nodes().len() == 2 && r.spec_start() == 1
                && r.spec_nodes()[1].spec_inputs().len() == 0 && r.spec_nodes()[1].spec_amount() == 1,
    {
        node_buffer.clear();
        let trap = Node::from_vec(Vec::new(), None, 0, usize::MAX);
        node_buffer.push(trap);
        let ghost none = |m: Seq<u8>, v: T| false;
        let ghost info0: Seq<NodeInfo<T>> = seq![(Seq::<u8>::empty(), none)];
        proof {
            assert(buffer_ok(node_buffer@));
            assert(emitted(node_buffer@, info0, exact_of::<Type>()));
            assert forall|m: Seq<u8>, v: T| #[trigger] list_has(self.nodes@, Seq::<u8>::empty(), m, v) implies Type::normal(m) by {
                assert(self@.contains_key(m));
            }
        }
        let ghost root_held = |m: Seq<u8>, v: T| list_has(self.nodes@, Seq::<u8>::empty(), m, v);
        let (edges, amount, Ghost(info1)) = emit_siblings::<T, Type>(
            &self.nodes,
            node_buffer,
            Ghost(Seq::<u8>::empty()),
            Ghost(info0),
        );
        let width = if edges.len() == 0 { 1 } else { amount };
        let root = Node::from_vec(edges, None, 0, width);
        let ghost x: NodeInfo<T> = (Seq::<u8>::empty(), root_held);
        let ghost info2 = info1.push(x);
        proof {
            let b2 = node_buffer@.push(root);
            let i = node_buffer@.len() as int;
            let e0 = Seq::<u8>::empty();
            assert(info2[i] == x);
            assert forall|m: Seq<u8>, v: T| #[trigger] root_held(m, v) implies e0.is_prefix_of(m) by {
                assert(e0 =~= m.subrange(0, 0));
            }
            assert forall|v: T| !(#[trigger] root_held(e0, v)) by {
                if list_has(self.nodes@, e0, e0, v) {
                    let k = choose|k: int| 0 <= k < self.nodes@.len() && has(#[trigger] self.nodes@[k], e0, e0, v);
                    lemma_too_short(self.nodes@[k], e0, e0, v);
                }
            }
            assert forall|k: int| 0 <= k < root.spec_inputs().len() implies edge_ok(info2, i, #[trigger] root.spec_inputs()[k]) by {
                let e = root.spec_inputs()[k];
                assert(sibling_edge(info1, self.nodes@, e0, e, 1, i));
                assert(info2[e.1 as int] == info1[e.1 as int]);
                let (m0, v0) = choose|m0: Seq<u8>, v0: T| #[trigger] (info1[e.1 as int].1)(m0, v0);
                assert((info2[e.1 as int].1)(m0, v0));
            }
            assert forall|m: Seq<u8>, v: T| #[trigger] root_held(m, v) && m.len() > e0.len() && exact_of::<Type>()(m) implies exists|k: int|
                0 <= k < root.spec_inputs().len() && edge_leads(info2, #[trigger] root.spec_inputs()[k], root.spec_amount() as int, m, v) by {
                assert(list_has(self.nodes@, e0, m, v) && Type::exact(m));
                let k = choose|k: int| 0 <= k < edges@.len() && edge_leads(info1, #[trigger] edges@[k], amount as int, m, v);
                let e = edges@[k];
                assert(sibling_edge(info1, self.nodes@, e0, e, 1, i));
                assert(info2[e.1 as int] == info1[e.1 as int]);
                assert(edge_leads(info2, root.spec_inputs()[k], root.spec_amount() as int, m, v));
            }
            assert(node_ok(b2, info2, i, exact_of::<Type>()));
            lemma_emitted_push(node_buffer@, info1, root, x, exact_of::<Type>());
        }
        let ghost before_root = node_buffer@;
        node_buffer.push(root);
        let end = node_buffer.len() - 1;
        proof {
            let b2 = node_buffer@;
            let n = self.nodes@.len() as int;
            let hs = held_first(self.nodes@, Seq::<u8>::empty(), n);
            assert(b2.take(before_root.len() as int) =~= before_root);
            assert(info2.take(before_root.len() as int) =~= info1);
            lemma_placed_frame(before_root, info1, b2, info2, 1, before_root.len() as int, hs);
            lemma_placed_none(b2, info2, 1, before_root.len() as int, hs);
            let at = Seq::new(b2.len(), |i: int| info2[i].0);
            assert forall|i: int|
                0 <= i < b2.len() && (#[trigger] b2[i]).spec_output() is Some implies self@.contains_key(at[i])
                    && cloned(self@[at[i]], b2[i].spec_output()->0) by {
                assert(i >= 1);
                let v = choose|v: T| hs(info2[i].0, v) && cloned(v, b2[i].spec_output()->0);
                let q = choose|q: int| 0 <= q < n && 0 <= q < n && #[trigger] has(self.nodes@[q], Seq::<u8>::empty(), info2[i].0, v);
                assert(list_has(self.nodes@, Seq::<u8>::empty(), info2[i].0, v));
            }
            assert forall|i: int, j: int|
                0 <= i < b2.len() && 0 <= j < b2.len() && i != j && (#[trigger] b2[i]).spec_output() is Some
                    && (#[trigger] b2[j]).spec_output() is Some implies at[i] != at[j] by {
                assert(i >= 1 && j >= 1);
            }
            assert forall|s: Seq<u8>| #[trigger] self@.contains_key(s) implies exists|i: int|
                0 <= i < b2.len() && (#[trigger] b2[i]).spec_output() is Some && at[i] == s by {
                assert(list_has(self.nodes@, Seq::<u8>::empty(), s, self@[s]));
                let q = choose|q: int| 0 <= q < n && has(#[trigger] self.nodes@[q], Seq::<u8>::empty(), s, self@[s]);
                assert(hs(s, self@[s]));
                let i = choose|i: int| 1 <= i < before_root.len() + 1 && (#[trigger] b2[i]).spec_output() is Some && info2[i].0 == s;
                assert(at[i] == s);
            }
            assert(payloads_at(b2, at, self@));
        }
        proof {
            let nodes = node_buffer@;
            let e0 = Seq::<u8>::empty();
            lemma_buffer_wf(nodes);
            assert(info2[end as int] == x);
            assert forall|u: Seq<u8>|
                exact_of::<Type>()(u) && (#[trigger] run(nodes, end as int, u)) is Some implies exists|s: Seq<u8>|
                    #[trigger] self@.contains_key(s) && cloned(self@[s], run(nodes, end as int, u)->0) && s.len() <= u.len()
                        && <Type::InputKey as Segmentable>::order_key(s) == <Type::InputKey as Segmentable>::order_key(u.take(s.len() as int))
                        && (s.len() == u.len() || exists|m: Seq<u8>|
                        #[trigger] self@.contains_key(m) && m.len() > u.len() && m.take(s.len() as int) == s) by {
                lemma_sound_exact::<T, Type>(nodes, info2, end as int, u);
                let (s, v) = choose|s: Seq<u8>, v: T|
                    (#[trigger] (info2[end as int].1)(s, v)) && cloned(v, run(nodes, end as int, u)->0)
                        && info2[end as int].0.len() <= s.len() <= info2[end as int].0.len() + u.len()
                        && <Type::InputKey as Segmentable>::order_key(s) == <Type::InputKey as Segmentable>::order_key(info2[end as int].0)
                        + <Type::InputKey as Segmentable>::order_key(u.take(s.len() - info2[end as int].0.len()))
                        && (s.len() == info2[end as int].0.len() + u.len() || exists|m: Seq<u8>, w: T|
                        #[trigger] (info2[end as int].1)(m, w) && m.len() > info2[end as int].0.len() + u.len() && m.take(s.len() as int) == s);
                assert(list_has(self.nodes@, e0, s, v));
                assert(self@.contains_key(s) && self@[s] == v);
                lemma_order_key_empty::<Type::InputKey>();
                assert(info2[end as int].0 == e0);
                assert(<Type::InputKey as Segmentable>::order_key(s) =~= <Type::InputKey as Segmentable>::order_key(u.take(s.len() as int)));
                if s.len() != u.len() {
                    let (m, w) = choose|m: Seq<u8>, w: T|
                        #[trigger] (info2[end as int].1)(m, w) && m.len() > info2[end as int].0.len() + u.len() && m.take(s.len() as int) == s;
                    assert(list_has(self.nodes@, e0, m, w));
                    assert(self@.contains_key(m));
                }
            }
            lemma_order_key_empty::<Type::InputKey>();
            assert forall|u: Seq<u8>| (#[trigger] run(nodes, end as int, u)) is Some implies exists|n: int, s: Seq<u8>|
                0 <= n <= u.len() && #[trigger] self@.contains_key(s) && cloned(self@[s], run(nodes, end as int, u)->0)
                    && <Type::InputKey as Segmentable>::order_key(s) == <Type::InputKey as Segmentable>::order_key(#[trigger] u.take(n)) by {
                lemma_sound(nodes, info2, exact_of::<Type>(), end as int, u);
                let (n, s, v) = choose|n: int, s: Seq<u8>, v: T|
                    0 <= n <= u.len() && (#[trigger] (info2[end as int].1)(s, v)) && cloned(v, run(nodes, end as int, u)->0)
                        && <Type::InputKey as Segmentable>::order_key(s) == <Type::InputKey as Segmentable>::order_key(info2[end as int].0)
                        + <Type::InputKey as Segmentable>::order_key(#[trigger] u.take(n));
                assert(list_has(self.nodes@, e0, s, v));
                assert(self@.contains_key(s) && self@[s] == v);
                assert(<Type::InputKey as Segmentable>::order_key(s) =~= <Type::InputKey as Segmentable>::order_key(u.take(n)));
                assert(0 <= n <= u.len() && self@.contains_key(s) && cloned(self@[s], run(nodes, end as int, u)->0)
                    && <Type::InputKey as Segmentable>::order_key(s) == <Type::InputKey as Segmentable>::order_key(u.take(n)));
            }
            assert forall|s: Seq<u8>| #[trigger] self@.contains_key(s) && exact_of::<Type>()(s) implies run(nodes, end as int, s) is Some && cloned(
                self@[s],
                run(nodes, end as int, s)->0,
            ) by {
                assert(list_has(self.nodes@, e0, s, self@[s]));
                assert(e0 + s =~= s);
                lemma_complete::<T, Type>(nodes, info2, end as int, s, self@[s]);
            }
        }
        proof {
            let nodes = node_buffer@;
            let e0 = Seq::<u8>::empty();
            assert forall|s: Seq<u8>, u: Seq<u8>|
                #[trigger] self@.contains_key(s) && exact_of::<Type>()(u) && s.len() < u.len() && u.take(s.len() as int) == s
                    && (forall|m: Seq<u8>|
                    #[trigger] self@.contains_key(m) ==> !(m.len() > s.len() && m.take(s.len() as int) == s))
                    implies (#[trigger] run(nodes, end as int, u)) is None by {
                assert(list_has(self.nodes@, e0, s, self@[s]));
                assert(e0 + u =~= u);
                assert forall|m: Seq<u8>, w: T| #[trigger] (info2[end as int].1)(m, w) implies !(m.len() > s.len() && m.take(s.len() as int) == s) by {
                    assert(list_has(self.nodes@, e0, m, w));
                    assert(self@.contains_key(m));
                }
                lemma_run_past::<T, Type>(nodes, info2, end as int, u, s, self@[s]);
            }
            assert forall|i: int, k: int|
                1 <= i < nodes.len() && 0 <= k < nodes[i].spec_inputs().len() implies 1 <= (
                #[trigger] nodes[i].spec_inputs()[k]).1 < i && nodes[i].spec_inputs()[k].0.units().len()
                    == nodes[i].spec_amount() by {
                assert(node_ok(nodes, info2, i, exact_of::<Type>()));
                assert(edge_ok(info2, i, nodes[i].spec_inputs()[k]));
            }
            assert forall|i: int| 0 <= i < nodes.len() implies (#[trigger] nodes[i]).spec_default() == 0 by {
                if i > 0 {
                    assert(node_ok(nodes, info2, i, exact_of::<Type>()));
                }
            }
            assert forall|i: int| 1 <= i < nodes.len() && (#[trigger] nodes[i]).spec_inputs().len() == 0 implies nodes[i].spec_amount() == 1 by {
                assert(node_ok(nodes, info2, i, exact_of::<Type>()));
            }
            if self@ == Map::<Seq<u8>, T>::empty() {
                if self.nodes@.len() > 0 {
                    assert(trie::live(self.nodes@[0]));
                    trie::lemma_live_has(self.nodes@[0], e0);
                    let (m, v) = choose|m: Seq<u8>, v: T| #[trigger] has(self.nodes@[0], e0, m, v);
                    assert(list_has(self.nodes@, e0, m, v));
                }
            }
        }
        let nodes: &'nodes Vec<Node<'a, Type::InputKey, Option<T>>> = node_buffer;
        Graph::new(nodes.as_slice(), end)
    }
}

/// The order key of the empty sequence is empty.
proof fn lemma_order_key_empty<K: Segmentable>()
    ensures
        K::order_key(Seq::<u8>::empty()) == Seq::<u8>::empty(),
{
    K::lemma_order_key_concat(Seq::<u8>::empty(), Seq::<u8>::empty());
    assert(K::order_key(Seq::<u8>::empty()) =~= Seq::<u8>::empty());
}

} // verus!

verus! {

/// Round trip: in a graph built from `map`, every exact key evaluates to its
/// own payload (a clone of it), so no two such keys collide.
pub proof fn lemma_round_trip<K: Segmentable, T: Clone>(
    g: Graph<K, Option<T>>,
    map: Map<Seq<u8>, T>,
    exact: spec_fn(Seq<u8>) -> bool,
    key: Seq<u8>,
)
    requires
        realizes(g, map, exact),
        map.contains_key(key),
        exact(key),
    ensures
        g.spec_process(key) is Some,
        cloned(map[key], g.spec_process(key)->0),
{
}

/// Negative lookup: an input none of whose prefixes is a key, up to the
/// order key, evaluates to no payload.
pub proof fn lemma_negative_lookup<K: Segmentable, T: Clone>(
    g: Graph<K, Option<T>>,
    map: Map<Seq<u8>, T>,
    exact: spec_fn(Seq<u8>) -> bool,
    input: Seq<u8>,
)
    requires
        realizes(g, map, exact),
        forall|n: int, s: Seq<u8>|
            0 <= n <= input.len() && #[trigger] map.contains_key(s) ==> K::order_key(s) != K::order_key(
                #[trigger] input.take(n),
            ),
    ensures
        g.spec_process(input) is None,
{
    if g.spec_process(input) is Some {
        let (n, s) = choose|n: int, s: Seq<u8>|
            0 <= n <= input.len() && #[trigger] map.contains_key(s) && cloned(map[s], g.spec_process(input)->0)
                && K::order_key(s) == K::order_key(#[trigger] input.take(n));
    }
}

} // verus!

verus! {

/// Running past a key: an exact input that strictly extends a key, which no
/// other key extends, evaluates to no payload.
pub proof fn lemma_past_key<K: Segmentable, T: Clone>(
    g: Graph<K, Option<T>>,
    map: Map<Seq<u8>, T>,
    exact: spec_fn(Seq<u8>) -> bool,
    key: Seq<u8>,
    input: Seq<u8>,
)
    requires
        realizes(g, map, exact),
        map.contains_key(key),
        exact(input),
        key.len() < input.len(),
        input.take(key.len() as int) == key,
        forall|m: Seq<u8>|
            #[trigger] map.contains_key(m) ==> !(m.len() > key.len() && m.take(key.len() as int) == key),
    ensures
        g.spec_process(input) is None,
{
}

} // verus!
