//! Keys that can be cut into a front chunk and a remainder.
use std::cmp::Ordering;
use vstd::prelude::*;
use vstd::string::StringSliceAdditionalSpecFns;
use vstd::utf8::is_char_boundary;

verus! {

/// Whether byte `b` can begin a unit of a key: with `aligned`, a byte that
/// continues a UTF-8 character cannot.
pub open spec fn starts(aligned: bool, b: u8) -> bool {
    !aligned || b < 0x80 || b >= 0xC0
}

/// Every byte is ASCII.
pub open spec fn all_ascii(key: Seq<u8>) -> bool {
    forall|i: int| 0 <= i < key.len() ==> key[i] < 128
}

/// Lexicographic order of two byte sequences, compared from position `i` on.
pub open spec fn lex_from(a: Seq<u8>, b: Seq<u8>, i: int) -> Ordering
    decreases a.len() - i,
{
    if i >= a.len() {
        if i >= b.len() {
            Ordering::Equal
        } else {
            Ordering::Less
        }
    } else if i >= b.len() {
        Ordering::Greater
    } else if a[i] < b[i] {
        Ordering::Less
    } else if a[i] > b[i] {
        Ordering::Greater
    } else {
        lex_from(a, b, i + 1)
    }
}

/// Lexicographic order of two byte sequences.
pub open spec fn lex(a: Seq<u8>, b: Seq<u8>) -> Ordering {
    lex_from(a, b, 0)
}

/// An item that can be segmented into parts.
///
/// A key is a sequence of bytes (`units`). It can be cut at some positions
/// (`can_split`), and keys are ordered by the lexicographic order of their
/// `order_key`.
pub trait Segmentable: Sized {
    /// The bytes of the key.
    spec fn units(&self) -> Seq<u8>;

    /// Whether a key with these bytes can be cut after `at` bytes.
    spec fn can_split(units: Seq<u8>, at: int) -> bool;

    /// The bytes by which keys are compared.
    spec fn order_key(units: Seq<u8>) -> Seq<u8>;

    /// Split the item into two parts.
    fn split(self, at: usize) -> (r: Option<(Self, Self)>)
        ensures
            r is Some <==> at <= self.units().len() && Self::can_split(self.units(), at as int),
            r matches Some((a, b)) ==> a.units() == self.units().take(at as int) && b.units()
                == self.units().skip(at as int),
    ;

    /// Get the length of the item.
    fn len(&self) -> (r: usize)
        ensures
            r == self.units().len(),
    ;

    /// Tell if the item is empty.
    fn is_empty(&self) -> (r: bool)
        ensures
            r == (self.units().len() == 0),
    {
        self.len() == 0
    }

    /// The bytes of the item.
    fn bytes(&self) -> (r: &[u8])
        ensures
            r@ == self.units(),
    ;

    /// Compare two items by their order keys.
    fn compare(&self, other: &Self) -> (r: Ordering)
        ensures
            r == lex(Self::order_key(self.units()), Self::order_key(other.units())),
    ;

    /// The order key is taken byte by byte.
    proof fn lemma_order_key_concat(a: Seq<u8>, b: Seq<u8>)
        ensures
            Self::order_key(a + b) == Self::order_key(a) + Self::order_key(b),
            Self::order_key(a).len() == a.len(),
    ;
}

/// Compare two byte slices lexicographically.
pub fn compare_bytes(a: &[u8], b: &[u8]) -> (r: Ordering)
    ensures
        r == lex(a@, b@),
{
    let n: usize = if a.len() < b.len() { a.len() } else { b.len() };
    let mut i: usize = 0;
    while i < n
        invariant
            n <= a.len(),
            n <= b.len(),
            n == a.len() || n == b.len(),
            i <= n,
            lex_from(a@, b@, 0) == lex_from(a@, b@, i as int),
        decreases n - i,
    {
        if a[i] < b[i] {
            return Ordering::Less;
        } else if a[i] > b[i] {
            return Ordering::Greater;
        }
        i = i + 1;
    }
    if a.len() < b.len() {
        Ordering::Less
    } else if a.len() > b.len() {
        Ordering::Greater
    } else {
        Ordering::Equal
    }
}

impl<'a> Segmentable for &'a [u8] {
    open spec fn units(&self) -> Seq<u8> {
        self@
    }

    open spec fn can_split(units: Seq<u8>, at: int) -> bool {
        true
    }

    open spec fn order_key(units: Seq<u8>) -> Seq<u8> {
        units
    }

    fn split(self, at: usize) -> (r: Option<(Self, Self)>) {
        if at > self.len() {
            return None;
        }
        let (left, right) = self.split_at(at);
        Some((left, right))
    }

    fn len(&self) -> (r: usize) {
        <[u8]>::len(*self)
    }

    fn bytes(&self) -> (r: &[u8]) {
        *self
    }

    fn compare(&self, other: &Self) -> (r: Ordering) {
        compare_bytes(*self, *other)
    }

    proof fn lemma_order_key_concat(a: Seq<u8>, b: Seq<u8>) {
    }
}

/// Text is cut only where a character begins: elsewhere `split` gives `None`.
impl<'a> Segmentable for &'a str {
    open spec fn units(&self) -> Seq<u8> {
        self.spec_bytes()
    }

    open spec fn can_split(units: Seq<u8>, at: int) -> bool {
        is_char_boundary(units, at)
    }

    open spec fn order_key(units: Seq<u8>) -> Seq<u8> {
        units
    }

    fn split(self, at: usize) -> (r: Option<(Self, Self)>) {
        if at > str::as_bytes(self).len() || !self.is_char_boundary(at) {
            return None;
        }
        let (left, right) = self.split_at(at);
        Some((left, right))
    }

    fn len(&self) -> (r: usize) {
        str::as_bytes(*self).len()
    }

    fn bytes(&self) -> (r: &[u8]) {
        str::as_bytes(*self)
    }

    fn compare(&self, other: &Self) -> (r: Ordering) {
        compare_bytes(str::as_bytes(*self), str::as_bytes(*other))
    }

    proof fn lemma_order_key_concat(a: Seq<u8>, b: Seq<u8>) {
    }
}

/// ASCII lowercase of one byte.
pub open spec fn lower(b: u8) -> u8 {
    if 65 <= b <= 90 {
        (b + 32) as u8
    } else {
        b
    }
}

/// ASCII lowercase of each byte.
pub open spec fn fold(s: Seq<u8>) -> Seq<u8> {
    Seq::new(s.len(), |i: int| lower(s[i]))
}

/// ASCII lowercase of one byte.
pub fn lower_byte(b: u8) -> (r: u8)
    ensures
        r == lower(b),
{
    if 65 <= b && b <= 90 {
        b + 32
    } else {
        b
    }
}

/// Compare two byte slices lexicographically, each byte taken as its ASCII
/// lowercase.
pub fn compare_folded(a: &[u8], b: &[u8]) -> (r: Ordering)
    ensures
        r == lex(fold(a@), fold(b@)),
{
    let n: usize = if a.len() < b.len() { a.len() } else { b.len() };
    let mut i: usize = 0;
    while i < n
        invariant
            n <= a.len(),
            n <= b.len(),
            n == a.len() || n == b.len(),
            i <= n,
            lex_from(fold(a@), fold(b@), 0) == lex_from(fold(a@), fold(b@), i as int),
        decreases n - i,
    {
        let x = lower_byte(a[i]);
        let y = lower_byte(b[i]);
        if x < y {
            return Ordering::Less;
        } else if x > y {
            return Ordering::Greater;
        }
        i = i + 1;
    }
    if a.len() < b.len() {
        Ordering::Less
    } else if a.len() > b.len() {
        Ordering::Greater
    } else {
        Ordering::Equal
    }
}

/// The wrapper type for a key that is compared case-insensitively: each byte
/// is compared as its ASCII lowercase, while the wrapped bytes keep their case.
#[derive(Debug, Clone, Copy, Default)]
pub struct CaseInsensitive<T>(pub T);

impl<T: Segmentable> Segmentable for CaseInsensitive<T> {
    open spec fn units(&self) -> Seq<u8> {
        self.0.units()
    }

    open spec fn can_split(units: Seq<u8>, at: int) -> bool {
        T::can_split(units, at)
    }

    open spec fn order_key(units: Seq<u8>) -> Seq<u8> {
        fold(units)
    }

    fn split(self, at: usize) -> (r: Option<(Self, Self)>) {
        match self.0.split(at) {
            Some((left, right)) => Some((CaseInsensitive(left), CaseInsensitive(right))),
            None => None,
        }
    }

    fn len(&self) -> (r: usize) {
        self.0.len()
    }

    fn bytes(&self) -> (r: &[u8]) {
        self.0.bytes()
    }

    fn compare(&self, other: &Self) -> (r: Ordering) {
        compare_folded(self.0.bytes(), other.0.bytes())
    }

    proof fn lemma_order_key_concat(a: Seq<u8>, b: Seq<u8>) {
        assert(fold(a + b) =~= fold(a) + fold(b));
    }
}

} // verus!

verus! {

/// Comparing a sequence with itself from any position gives `Equal`.
pub proof fn lemma_lex_refl(a: Seq<u8>, i: int)
    ensures
        lex_from(a, a, i) == Ordering::Equal,
    decreases a.len() - i,
{
    if i < a.len() {
        lemma_lex_refl(a, i + 1);
    }
}

/// `Equal` from position `i` on means the two sequences agree from `i` on.
pub proof fn lemma_lex_equal(a: Seq<u8>, b: Seq<u8>, i: int)
    requires
        0 <= i <= a.len(),
        i <= b.len(),
        lex_from(a, b, i) == Ordering::Equal,
    ensures
        a.len() == b.len(),
        forall|k: int| i <= k < a.len() ==> a[k] == b[k],
    decreases a.len() - i,
{
    if i < a.len() {
        lemma_lex_equal(a, b, i + 1);
    }
}

/// Two sequences that are `Equal` in the lexicographic order are equal.
pub proof fn lemma_lex_equal_eq(a: Seq<u8>, b: Seq<u8>)
    requires
        lex(a, b) == Ordering::Equal,
    ensures
        a == b,
{
    lemma_lex_equal(a, b, 0);
    assert(a =~= b);
}

/// Swapping the arguments reverses the order.
pub proof fn lemma_lex_antisym(a: Seq<u8>, b: Seq<u8>, i: int)
    ensures
        lex_from(a, b, i) == Ordering::Less <==> lex_from(b, a, i) == Ordering::Greater,
    decreases a.len() - i,
{
    if i < a.len() && i < b.len() && a[i] == b[i] {
        lemma_lex_antisym(a, b, i + 1);
    }
}

/// The lexicographic `Less` is transitive.
pub proof fn lemma_lex_trans(a: Seq<u8>, b: Seq<u8>, c: Seq<u8>, i: int)
    requires
        lex_from(a, b, i) == Ordering::Less,
        lex_from(b, c, i) == Ordering::Less,
    ensures
        lex_from(a, c, i) == Ordering::Less,
    decreases a.len() - i,
{
    if i < a.len() && i < b.len() && i < c.len() && a[i] == b[i] && b[i] == c[i] {
        lemma_lex_trans(a, b, c, i + 1);
    }
}

} // verus!

verus! {

impl<T: Segmentable> PartialEq for CaseInsensitive<T> {
    fn eq(&self, other: &Self) -> (r: bool) {
        match compare_folded(self.0.bytes(), other.0.bytes()) {
            Ordering::Equal => {
                proof {
                    lemma_lex_equal_eq(fold(self.0.units()), fold(other.0.units()));
                }
                true
            },
            _ => {
                proof {
                    lemma_lex_refl(fold(self.0.units()), 0);
                }
                false
            },
        }
    }
}

impl<T: Segmentable> vstd::std_specs::cmp::PartialEqSpecImpl for CaseInsensitive<T> {
    open spec fn obeys_eq_spec() -> bool {
        true
    }

    open spec fn eq_spec(&self, other: &Self) -> bool {
        fold(self.0.units()) == fold(other.0.units())
    }
}

impl<T: Segmentable> Eq for CaseInsensitive<T> {
}

impl<T> std::ops::Deref for CaseInsensitive<T> {
    type Target = T;

    fn deref(&self) -> (r: &T)
        ensures
            *r == self.0,
    {
        &self.0
    }
}

impl<T> std::ops::DerefMut for CaseInsensitive<T> {
    fn deref_mut(&mut self) -> (r: &mut T)
        ensures
            *r == old(self).0,
            *final(self) == CaseInsensitive(*final(r)),
    {
        &mut self.0
    }
}

impl<T> From<T> for CaseInsensitive<T> {
    fn from(value: T) -> (r: Self) {
        CaseInsensitive(value)
    }
}

impl<T> vstd::std_specs::convert::FromSpecImpl<T> for CaseInsensitive<T> {
    open spec fn obeys_from_spec() -> bool {
        true
    }

    open spec fn from_spec(v: T) -> Self {
        CaseInsensitive(v)
    }
}

impl<T: Segmentable> PartialOrd for CaseInsensitive<T> {
    fn partial_cmp(&self, other: &Self) -> (r: Option<Ordering>) {
        Some(compare_folded(self.0.bytes(), other.0.bytes()))
    }
}

impl<T: Segmentable> vstd::std_specs::cmp::PartialOrdSpecImpl for CaseInsensitive<T> {
    open spec fn obeys_partial_cmp_spec() -> bool {
        true
    }

    open spec fn partial_cmp_spec(&self, other: &Self) -> Option<Ordering> {
        Some(lex(fold(self.0.units()), fold(other.0.units())))
    }
}

} // verus!
