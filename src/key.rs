//! Type-erased cache keys.
//!
//! A concrete key type is reduced to a kind tag, distinct for each type, and a byte encoding
//! whose lexicographic order is the type's own order. Erased keys compare by kind first and by
//! encoding second, which gives one total order over keys of every type.
use std::cmp::Ordering;
use vstd::prelude::*;
use vstd::utf8::encode_utf8;

verus! {

/// The mathematical value of an erased key: its kind and its encoding.
pub type KeyView = (u64, Seq<u8>);

/// Lexicographic comparison of two byte strings, from position `i` on.
pub open spec fn bytes_cmp_from(a: Seq<u8>, b: Seq<u8>, i: int) -> Ordering
    decreases a.len() - i,
{
    if i >= a.len() {
        if i >= b.len() {
            Ordering::Equal
        } else {
            Ordering::Less
        }
    } else if i >= b.len() {
        Ordering::Greater
    } else if a[i] < b[i] {
        Ordering::Less
    } else if a[i] > b[i] {
        Ordering::Greater
    } else {
        bytes_cmp_from(a, b, i + 1)
    }
}

/// Lexicographic comparison of two byte strings; a proper prefix comes first.
pub open spec fn bytes_cmp(a: Seq<u8>, b: Seq<u8>) -> Ordering {
    bytes_cmp_from(a, b, 0)
}

/// The order of erased keys: by kind, then by encoding.
pub open spec fn key_cmp(a: KeyView, b: KeyView) -> Ordering {
    if a.0 < b.0 {
        Ordering::Less
    } else if a.0 > b.0 {
        Ordering::Greater
    } else {
        bytes_cmp(a.1, b.1)
    }
}

pub open spec fn key_lt(a: KeyView, b: KeyView) -> bool {
    key_cmp(a, b) == Ordering::Less
}

pub open spec fn flip(o: Ordering) -> Ordering {
    match o {
        Ordering::Less => Ordering::Greater,
        Ordering::Equal => Ordering::Equal,
        Ordering::Greater => Ordering::Less,
    }
}

proof fn lemma_bytes_flip(a: Seq<u8>, b: Seq<u8>, i: int)
    requires
        0 <= i,
    ensures
        bytes_cmp_from(b, a, i) == flip(bytes_cmp_from(a, b, i)),
    decreases a.len() - i,
{
    if i < a.len() && i < b.len() && a[i] == b[i] {
        lemma_bytes_flip(a, b, i + 1);
    }
}

proof fn lemma_bytes_equal(a: Seq<u8>, b: Seq<u8>, i: int)
    requires
        0 <= i <= a.len(),
        i <= b.len(),
    ensures
        bytes_cmp_from(a, b, i) == Ordering::Equal <==> (a.len() == b.len() && forall|j: int|
            i <= j < a.len() ==> a[j] == b[j]),
    decreases a.len() - i,
{
    if i < a.len() && i < b.len() {
        if a[i] == b[i] {
            lemma_bytes_equal(a, b, i + 1);
        } else {
            assert(!(a[i] == b[i]));
        }
    }
}

proof fn lemma_bytes_trans(a: Seq<u8>, b: Seq<u8>, c: Seq<u8>, i: int, o: Ordering)
    requires
        0 <= i,
        o != Ordering::Equal,
        bytes_cmp_from(a, b, i) == o,
        bytes_cmp_from(b, c, i) == o,
    ensures
        bytes_cmp_from(a, c, i) == o,
    decreases a.len() - i,
{
    if i < a.len() && i < b.len() && i < c.len() && a[i] == b[i] && b[i] == c[i] {
        lemma_bytes_trans(a, b, c, i + 1, o);
    }
}

/// The order of erased keys is a total order: comparing the other way round gives the opposite
/// answer, two keys compare equal exactly when they are the same key, and `Less` and `Greater`
/// are each transitive. This holds across kinds as well as within one kind.
pub proof fn lemma_key_order(a: KeyView, b: KeyView, c: KeyView)
    ensures
        key_cmp(b, a) == flip(key_cmp(a, b)),
        key_cmp(a, b) == Ordering::Equal <==> a == b,
        key_cmp(a, b) == Ordering::Less && key_cmp(b, c) == Ordering::Less ==> key_cmp(a, c)
            == Ordering::Less,
        key_cmp(a, b) == Ordering::Greater && key_cmp(b, c) == Ordering::Greater ==> key_cmp(
            a,
            c,
        ) == Ordering::Greater,
{
    lemma_bytes_flip(a.1, b.1, 0);
    lemma_bytes_equal(a.1, b.1, 0);
    if a.1.len() == b.1.len() && forall|j: int| 0 <= j < a.1.len() ==> a.1[j] == b.1[j] {
        assert(a.1 =~= b.1);
    }
    if a.0 == b.0 && b.0 == c.0 {
        if key_cmp(a, b) == Ordering::Less && key_cmp(b, c) == Ordering::Less {
            lemma_bytes_trans(a.1, b.1, c.1, 0, Ordering::Less);
        }
        if key_cmp(a, b) == Ordering::Greater && key_cmp(b, c) == Ordering::Greater {
            lemma_bytes_trans(a.1, b.1, c.1, 0, Ordering::Greater);
        }
    }
}

/// Keys of two different kinds are never equal, whatever their encodings hold, and their order
/// is the order of their kinds.
pub proof fn lemma_kinds_differ(a: KeyView, b: KeyView)
    requires
        a.0 != b.0,
    ensures
        a != b,
        key_cmp(a, b) != Ordering::Equal,
        key_lt(a, b) <==> a.0 < b.0,
{
}

/// A key reduced to its kind tag and its order-preserving encoding.
#[derive(Clone, Debug, Eq, Ord)]
pub struct ErasedKey {
    kind: u64,
    bytes: Vec<u8>,
}

impl View for ErasedKey {
    type V = KeyView;

    closed spec fn view(&self) -> KeyView {
        (self.kind, self.bytes@)
    }
}

/// A concrete type that can key the cache.
///
/// `kind` must give one tag for the whole type, distinct from the tags of the other key types in
/// the same cache. `encode` must be one-to-one and order-preserving: `a < b` exactly when the
/// encoding of `a` comes first in lexicographic byte order. Erased keys then compare and equal
/// as the type's own values do. The implementations here are proved so:
/// `lemma_text_encoding`, `lemma_number_encoding` and `lemma_indices_encoding`.
pub trait CacheKey {
    spec fn kind_spec() -> u64;

    spec fn encoding(&self) -> Seq<u8>;

    fn kind(&self) -> (r: u64)
        ensures
            r == Self::kind_spec(),
    ;

    fn encode(&self) -> (r: Vec<u8>)
        ensures
            r@ == self.encoding(),
    ;
}

impl ErasedKey {
    /// The erased key of a concrete key.
    pub fn new<K: CacheKey>(key: &K) -> (r: ErasedKey)
        ensures
            r@ == (K::kind_spec(), key.encoding()),
    {
        ErasedKey { kind: key.kind(), bytes: key.encode() }
    }

    /// An erased key made of a kind tag and an encoding.
    pub fn from_parts(kind: u64, bytes: Vec<u8>) -> (r: ErasedKey)
        ensures
            r@ == (kind, bytes@),
    {
        ErasedKey { kind, bytes }
    }

    pub fn kind(&self) -> (r: u64)
        ensures
            r == self@.0,
    {
        self.kind
    }

    pub fn bytes(&self) -> (r: &Vec<u8>)
        ensures
            r@ == self@.1,
    {
        &self.bytes
    }

    /// Compares two keys: by kind, then by encoding.
    pub fn compare(&self, other: &ErasedKey) -> (r: Ordering)
        ensures
            r == key_cmp(self@, other@),
    {
        if self.kind < other.kind {
            return Ordering::Less;
        }
        if self.kind > other.kind {
            return Ordering::Greater;
        }
        let a = &self.bytes;
        let b = &other.bytes;
        let mut i: usize = 0;
        while i < a.len() && i < b.len()
            invariant
                self.kind == other.kind,
                a@ == self@.1,
                b@ == other@.1,
                i <= a.len(),
                i <= b.len(),
                bytes_cmp(a@, b@) == bytes_cmp_from(a@, b@, i as int),
            decreases a.len() - i,
        {
            if a[i] < b[i] {
                return Ordering::Less;
            }
            if a[i] > b[i] {
                return Ordering::Greater;
            }
            i = i + 1;
        }
        if i < b.len() {
            Ordering::Less
        } else if i < a.len() {
            Ordering::Greater
        } else {
            Ordering::Equal
        }
    }

    /// Whether two keys are the same key. Keys of different kinds are never equal.
    pub fn equals(&self, other: &ErasedKey) -> (r: bool)
        ensures
            r == (self@ == other@),
    {
        proof {
            lemma_key_order(self@, other@, other@);
        }
        match self.compare(other) {
            Ordering::Equal => true,
            _ => false,
        }
    }

    /// Whether this key comes strictly before `other`.
    pub fn less_than(&self, other: &ErasedKey) -> (r: bool)
        ensures
            r == key_lt(self@, other@),
    {
        match self.compare(other) {
            Ordering::Less => true,
            _ => false,
        }
    }

    /// A copy of this key.
    pub fn duplicate(&self) -> (r: ErasedKey)
        ensures
            r@ == self@,
    {
        ErasedKey { kind: self.kind, bytes: self.bytes.clone() }
    }
}

impl PartialEq for ErasedKey {
    fn eq(&self, other: &ErasedKey) -> (r: bool) {
        self.equals(other)
    }
}

impl vstd::std_specs::cmp::PartialEqSpecImpl for ErasedKey {
    open spec fn obeys_eq_spec() -> bool {
        true
    }

    open spec fn eq_spec(&self, other: &ErasedKey) -> bool {
        self@ == other@
    }
}

impl PartialOrd for ErasedKey {
    fn partial_cmp(&self, other: &ErasedKey) -> (r: Option<Ordering>) {
        Some(self.compare(other))
    }
}

impl vstd::std_specs::cmp::PartialOrdSpecImpl for ErasedKey {
    open spec fn obeys_partial_cmp_spec() -> bool {
        true
    }

    open spec fn partial_cmp_spec(&self, other: &ErasedKey) -> Option<Ordering> {
        Some(key_cmp(self@, other@))
    }
}

/// The kind tag of `String` keys.
pub const KIND_TEXT: u64 = 1;

/// The kind tag of `u64` keys.
pub const KIND_NUMBER: u64 = 2;

/// The kind tag of `Vec<usize>` keys.
pub const KIND_INDICES: u64 = 3;

/// The eight bytes of `n`, most significant first; their order is the order of the numbers.
pub open spec fn be_bytes(n: u64) -> Seq<u8> {
    seq![
        (n >> 56u64) as u8,
        (n >> 48u64) as u8,
        (n >> 40u64) as u8,
        (n >> 32u64) as u8,
        (n >> 24u64) as u8,
        (n >> 16u64) as u8,
        (n >> 8u64) as u8,
        n as u8,
    ]
}

/// The numbers of `s`, eight bytes each, in turn.
pub open spec fn be_list(s: Seq<usize>) -> Seq<u8>
    decreases s.len(),
{
    if s.len() == 0 {
        Seq::empty()
    } else {
        be_list(s.drop_last()) + be_bytes(s.last() as u64)
    }
}

/// The order of two integers as an `Ordering`.
pub open spec fn num_cmp(a: int, b: int) -> Ordering {
    if a < b {
        Ordering::Less
    } else if a > b {
        Ordering::Greater
    } else {
        Ordering::Equal
    }
}

proof fn lemma_byte_below_top(a: u64, b: u64, s: u64)
    requires
        s <= 48,
    ensures
        (a >> (s + 8)) == (b >> (s + 8)) && ((a >> s) as u8) < ((b >> s) as u8) ==> a < b,
        (a >> (s + 8)) == (b >> (s + 8)) && ((a >> s) as u8) == ((b >> s) as u8) ==> (a >> s) == (
        b >> s),
{
    assert((a >> (s + 8)) == (b >> (s + 8)) && ((a >> s) as u8) < ((b >> s) as u8) ==> a < b)
        by (bit_vector)
        requires
            s <= 48,
    ;
    assert((a >> (s + 8)) == (b >> (s + 8)) && ((a >> s) as u8) == ((b >> s) as u8) ==> (a >> s)
        == (b >> s)) by (bit_vector)
        requires
            s <= 48,
    ;
}

proof fn lemma_top_byte(a: u64, b: u64)
    ensures
        ((a >> 56u64) as u8) < ((b >> 56u64) as u8) ==> a < b,
        ((a >> 56u64) as u8) == ((b >> 56u64) as u8) ==> (a >> 56u64) == (b >> 56u64),
        (a >> 0u64) == (b >> 0u64) ==> a == b,
        (a >> 0u64) as u8 == a as u8,
{
    assert(((a >> 56u64) as u8) < ((b >> 56u64) as u8) ==> a < b) by (bit_vector);
    assert(((a >> 56u64) as u8) == ((b >> 56u64) as u8) ==> (a >> 56u64) == (b >> 56u64))
        by (bit_vector);
    assert((a >> 0u64) == (b >> 0u64) ==> a == b) by (bit_vector);
    assert((a >> 0u64) as u8 == a as u8) by (bit_vector);
}

/// Number keys: comparing encodings is comparing the numbers, so the encoding is one-to-one
/// and keeps the order of `u64`.
pub proof fn lemma_number_encoding(a: u64, b: u64)
    ensures
        bytes_cmp(be_bytes(a), be_bytes(b)) == num_cmp(a as int, b as int),
        be_bytes(a) == be_bytes(b) <==> a == b,
{
    lemma_top_byte(a, b);
    lemma_top_byte(b, a);
    lemma_byte_below_top(a, b, 48);
    lemma_byte_below_top(b, a, 48);
    lemma_byte_below_top(a, b, 40);
    lemma_byte_below_top(b, a, 40);
    lemma_byte_below_top(a, b, 32);
    lemma_byte_below_top(b, a, 32);
    lemma_byte_below_top(a, b, 24);
    lemma_byte_below_top(b, a, 24);
    lemma_byte_below_top(a, b, 16);
    lemma_byte_below_top(b, a, 16);
    lemma_byte_below_top(a, b, 8);
    lemma_byte_below_top(b, a, 8);
    lemma_byte_below_top(a, b, 0);
    lemma_byte_below_top(b, a, 0);
    let x = be_bytes(a);
    let y = be_bytes(b);
    reveal_with_fuel(bytes_cmp_from, 9);
    assert(bytes_cmp(x, y) == num_cmp(a as int, b as int));
    if x == y {
        assert(x[0] == y[0] && x[1] == y[1] && x[2] == y[2] && x[3] == y[3]);
        assert(x[4] == y[4] && x[5] == y[5] && x[6] == y[6] && x[7] == y[7]);
    }
}

/// Text keys: two strings have the same encoding exactly when they are the same string. The
/// order of `String` is by definition the byte order of its UTF-8 encoding, which is the order
/// that erased keys compare encodings by.
pub proof fn lemma_text_encoding(a: String, b: String)
    ensures
        a.encoding() == b.encoding() <==> a@ == b@,
{
    vstd::utf8::encode_utf8_decode_utf8(a@);
    vstd::utf8::encode_utf8_decode_utf8(b@);
}

/// The order of `Vec<usize>`: element by element, a proper prefix first.
pub open spec fn indices_cmp(a: Seq<usize>, b: Seq<usize>) -> Ordering
    decreases a.len(),
{
    if a.len() == 0 {
        if b.len() == 0 {
            Ordering::Equal
        } else {
            Ordering::Less
        }
    } else if b.len() == 0 {
        Ordering::Greater
    } else if a[0] < b[0] {
        Ordering::Less
    } else if a[0] > b[0] {
        Ordering::Greater
    } else {
        indices_cmp(a.drop_first(), b.drop_first())
    }
}

proof fn lemma_be_list_front(s: Seq<usize>)
    requires
        s.len() > 0,
    ensures
        be_list(s) == be_bytes(s[0] as u64) + be_list(s.drop_first()),
        be_list(s).len() == 8 * s.len(),
    decreases s.len(),
{
    if s.len() == 1 {
        assert(s.drop_last() =~= Seq::<usize>::empty());
        assert(s.drop_first() =~= Seq::<usize>::empty());
        assert(be_list(s) =~= be_bytes(s[0] as u64) + be_list(s.drop_first()));
    } else {
        let p = s.drop_last();
        lemma_be_list_front(p);
        assert(s.drop_first().drop_last() =~= p.drop_first());
        assert(s.drop_first().last() == s.last());
        assert(be_list(s) =~= be_bytes(s[0] as u64) + be_list(s.drop_first()));
    }
}

proof fn lemma_cmp_shift(x: Seq<u8>, y: Seq<u8>, u: Seq<u8>, v: Seq<u8>, k: int)
    requires
        x.len() == y.len(),
        0 <= k,
    ensures
        bytes_cmp_from(x + u, y + v, x.len() + k) == bytes_cmp_from(u, v, k),
    decreases u.len() - k,
{
    let n = x.len() as int;
    if k < u.len() && k < v.len() {
        assert((x + u)[n + k] == u[k]);
        assert((y + v)[n + k] == v[k]);
        if u[k] == v[k] {
            lemma_cmp_shift(x, y, u, v, k + 1);
        }
    }
}

proof fn lemma_cmp_prefix(x: Seq<u8>, y: Seq<u8>, u: Seq<u8>, v: Seq<u8>, i: int)
    requires
        x.len() == y.len(),
        0 <= i <= x.len(),
    ensures
        bytes_cmp_from(x + u, y + v, i) == if x.subrange(i, x.len() as int) == y.subrange(
            i,
            y.len() as int,
        ) {
            bytes_cmp(u, v)
        } else {
            bytes_cmp_from(x, y, i)
        },
    decreases x.len() - i,
{
    let n = x.len() as int;
    if i == n {
        assert(x.subrange(i, n) =~= y.subrange(i, n));
        lemma_cmp_shift(x, y, u, v, 0);
    } else {
        assert((x + u)[i] == x[i]);
        assert((y + v)[i] == y[i]);
        if x[i] != y[i] {
            assert(x.subrange(i, n)[0] != y.subrange(i, n)[0]);
        } else {
            lemma_cmp_prefix(x, y, u, v, i + 1);
            if x.subrange(i, n) == y.subrange(i, n) {
                assert(x.subrange(i + 1, n) =~= x.subrange(i, n).drop_first());
                assert(y.subrange(i + 1, n) =~= y.subrange(i, n).drop_first());
            }
            if x.subrange(i + 1, n) == y.subrange(i + 1, n) {
                assert forall|j: int| 0 <= j < n - i implies x.subrange(i, n)[j] == y.subrange(i, n)[j] by {
                    if j > 0 {
                        assert(x.subrange(i, n)[j] == x.subrange(i + 1, n)[j - 1]);
                        assert(y.subrange(i, n)[j] == y.subrange(i + 1, n)[j - 1]);
                    }
                }
                assert(x.subrange(i, n) =~= y.subrange(i, n));
            }
        }
    }
}

/// Index-list keys: comparing encodings is comparing the lists element by element, so the
/// encoding is one-to-one and keeps the order of `Vec<usize>`.
pub proof fn lemma_indices_encoding(a: Seq<usize>, b: Seq<usize>)
    ensures
        bytes_cmp(be_list(a), be_list(b)) == indices_cmp(a, b),
        indices_cmp(a, b) == Ordering::Equal <==> a == b,
        be_list(a) == be_list(b) <==> a == b,
    decreases a.len(),
{
    if a.len() > 0 {
        lemma_be_list_front(a);
    }
    if b.len() > 0 {
        lemma_be_list_front(b);
    }
    if a.len() > 0 && b.len() > 0 {
        let x = be_bytes(a[0] as u64);
        let y = be_bytes(b[0] as u64);
        let (ra, rb) = (a.drop_first(), b.drop_first());
        lemma_indices_encoding(ra, rb);
        lemma_number_encoding(a[0] as u64, b[0] as u64);
        lemma_cmp_prefix(x, y, be_list(ra), be_list(rb), 0);
        assert(x.subrange(0, 8) =~= x);
        assert(y.subrange(0, 8) =~= y);
        if a[0] == b[0] && ra == rb {
            assert forall|j: int| 0 <= j < a.len() implies a[j] == b[j] by {
                if j > 0 {
                    assert(a[j] == ra[j - 1] && b[j] == rb[j - 1]);
                }
            }
            assert(a =~= b);
        }
    } else if a.len() == 0 && b.len() == 0 {
        assert(a =~= b);
    } else if a.len() == 0 {
        assert(be_list(a) =~= Seq::<u8>::empty());
    } else {
        assert(be_list(b) =~= Seq::<u8>::empty());
    }
    lemma_key_order((0, be_list(a)), (0, be_list(b)), (0, be_list(b)));
}

fn push_be_bytes(out: &mut Vec<u8>, n: u64)
    ensures
        final(out)@ == old(out)@ + be_bytes(n),
{
    out.push((n >> 56u64) as u8);
    out.push((n >> 48u64) as u8);
    out.push((n >> 40u64) as u8);
    out.push((n >> 32u64) as u8);
    out.push((n >> 24u64) as u8);
    out.push((n >> 16u64) as u8);
    out.push((n >> 8u64) as u8);
    out.push(n as u8);
    assert(out@ =~= old(out)@ + be_bytes(n));
}

/// Text keys: UTF-8 byte order is the order of `String`.
impl CacheKey for String {
    open spec fn kind_spec() -> u64 {
        KIND_TEXT
    }

    open spec fn encoding(&self) -> Seq<u8> {
        encode_utf8(self@)
    }

    fn kind(&self) -> (r: u64) {
        KIND_TEXT
    }

    fn encode(&self) -> (r: Vec<u8>) {
        self.as_str().as_bytes_vec()
    }
}

/// Number keys, most significant byte first.
impl CacheKey for u64 {
    open spec fn kind_spec() -> u64 {
        KIND_NUMBER
    }

    open spec fn encoding(&self) -> Seq<u8> {
        be_bytes(*self)
    }

    fn kind(&self) -> (r: u64) {
        KIND_NUMBER
    }

    fn encode(&self) -> (r: Vec<u8>) {
        let mut out: Vec<u8> = Vec::new();
        push_be_bytes(&mut out, *self);
        assert(out@ =~= be_bytes(*self));
        out
    }
}

/// Lists of indices, compared element by element, a proper prefix first.
impl CacheKey for Vec<usize> {
    open spec fn kind_spec() -> u64 {
        KIND_INDICES
    }

    open spec fn encoding(&self) -> Seq<u8> {
        be_list(self@)
    }

    fn kind(&self) -> (r: u64) {
        KIND_INDICES
    }

    fn encode(&self) -> (r: Vec<u8>) {
        let mut out: Vec<u8> = Vec::new();
        let mut i: usize = 0;
        while i < self.len()
            invariant
                i <= self@.len(),
                out@ == be_list(self@.subrange(0, i as int)),
            decreases self.len() - i,
        {
            proof {
                assert(self@.subrange(0, i + 1).drop_last() =~= self@.subrange(0, i as int));
            }
            push_be_bytes(&mut out, self[i] as u64);
            i = i + 1;
        }
        assert(self@.subrange(0, self@.len() as int) =~= self@);
        out
    }
}

} // verus!
