use smallvec::SmallVec;
use vstd::prelude::*;

verus! {

// ---------------------------------------------------------------------------
// The outside word store
// ---------------------------------------------------------------------------

/// The word store of a bitset: a `smallvec::SmallVec<[u64; 4]>`, held in a
/// field that only the wrappers below touch. Its contents are read through
/// the name `store_words`.
#[verifier::external_body]
#[derive(Debug)]
pub struct WordStore(SmallVec<[u64; 4]>);

/// The words that a word store holds, in order.
pub uninterp spec fn store_words(v: WordStore) -> Seq<u64>;

/// `SmallVec::new`: an empty vector.
#[verifier::external_body]
fn sv_new() -> (r: WordStore)
    ensures
        store_words(r) == Seq::<u64>::empty(),
{
    WordStore(SmallVec::new())
}

/// `SmallVec::resize`: truncates to `len`, or appends copies of `value` up to `len`.
#[verifier::external_body]
fn sv_resize(v: &mut WordStore, len: usize, value: u64)
    ensures
        store_words(*final(v)) == (if len <= store_words(*old(v)).len() {
            store_words(*old(v)).take(len as int)
        } else {
            store_words(*old(v)) + Seq::new((len - store_words(*old(v)).len()) as nat, |i: int| value)
        }),
{
    v.0.resize(len, value)
}

/// `SmallVec::len`: the number of words held.
#[verifier::external_body]
fn sv_len(v: &WordStore) -> (r: usize)
    ensures
        r == store_words(*v).len(),
{
    v.0.len()
}

/// Indexing a `SmallVec` (`Index`): the word at position `i`.
#[verifier::external_body]
fn sv_get(v: &WordStore, i: usize) -> (r: u64)
    requires
        i < store_words(*v).len(),
    ensures
        r == store_words(*v)[i as int],
{
    v.0[i]
}

/// Writing through `IndexMut`: replaces the word at position `i`.
#[verifier::external_body]
fn sv_set(v: &mut WordStore, i: usize, x: u64)
    requires
        i < store_words(*old(v)).len(),
    ensures
        store_words(*final(v)) == store_words(*old(v)).update(i as int, x),
{
    v.0[i] = x;
}

/// `SmallVec::clone`: a vector holding the same words.
#[verifier::external_body]
fn sv_clone(v: &WordStore) -> (r: WordStore)
    ensures
        store_words(r) == store_words(*v),
{
    WordStore(v.0.clone())
}

/// `u64::count_ones`: the number of one bits of `w`.
#[verifier::external_body]
fn count_ones(w: u64) -> (r: u32)
    ensures
        r == popcount(w),
{
    w.count_ones()
}

// ---------------------------------------------------------------------------
// Mathematical model
// ---------------------------------------------------------------------------

/// Number of one bits of a word.
pub open spec fn popcount(w: u64) -> nat
    decreases w,
{
    if w == 0 {
        0
    } else {
        (w % 2) as nat + popcount(w / 2)
    }
}

/// Total number of one bits over a sequence of words.
pub open spec fn popcount_words(ws: Seq<u64>) -> nat
    decreases ws.len(),
{
    if ws.len() == 0 {
        0
    } else {
        popcount_words(ws.drop_last()) + popcount(ws.last())
    }
}

/// XOR of all words.
pub open spec fn xor_words(ws: Seq<u64>) -> u64
    decreases ws.len(),
{
    if ws.len() == 0 {
        0
    } else {
        xor_words(ws.drop_last()) ^ ws.last()
    }
}

/// The hash of a bitset with words `ws`: the popcount XOR every word.
pub open spec fn hash_words(ws: Seq<u64>) -> u64 {
    (popcount_words(ws) as u64) ^ xor_words(ws)
}

/// Whether bit `i` is one in the words `ws` (bit `i` lives in word `i / 64`
/// at position `i % 64`).
pub open spec fn has_bit(ws: Seq<u64>, i: int) -> bool {
    0 <= i < 64 * ws.len() && (ws[i / 64] >> ((i % 64) as u64)) & 1u64 == 1u64
}

/// The words `ws` with bit `pos` set (unchanged when `pos` lies past the end).
pub open spec fn with_bit(ws: Seq<u64>, pos: int) -> Seq<u64> {
    if 0 <= pos < 64 * ws.len() {
        ws.update(pos / 64, ws[pos / 64] | (1u64 << ((pos % 64) as u64)))
    } else {
        ws
    }
}

/// The words `ws` with bit `pos` cleared.
pub open spec fn without_bit(ws: Seq<u64>, pos: int) -> Seq<u64> {
    ws.update(pos / 64, ws[pos / 64] & !(1u64 << ((pos % 64) as u64)))
}

/// Number of 64-bit words needed to hold `n` bits.
pub open spec fn words_for(n: nat) -> nat {
    if n % 64 == 0 {
        n / 64
    } else {
        n / 64 + 1
    }
}

proof fn lemma_word_bit_or(w: u64, m: u64, k: u64)
    requires
        m < 64,
        k < 64,
    ensures
        ((w | (1u64 << m)) >> k) & 1u64 == 1u64 <==> (((w >> k) & 1u64 == 1u64) || k == m),
{
    assert(((w | (1u64 << m)) >> k) & 1u64 == 1u64 <==> (((w >> k) & 1u64 == 1u64) || k == m))
        by (bit_vector)
        requires
            m < 64,
            k < 64,
    ;
}

proof fn lemma_word_bit_clear(w: u64, m: u64, k: u64)
    requires
        m < 64,
        k < 64,
    ensures
        ((w & !(1u64 << m)) >> k) & 1u64 == 1u64 <==> (((w >> k) & 1u64 == 1u64) && k != m),
{
    assert(((w & !(1u64 << m)) >> k) & 1u64 == 1u64 <==> (((w >> k) & 1u64 == 1u64) && k != m))
        by (bit_vector)
        requires
            m < 64,
            k < 64,
    ;
}

/// Setting bit `pos` adds exactly `pos` to the set of one bits.
pub proof fn lemma_with_bit(ws: Seq<u64>, pos: int)
    requires
        0 <= pos < 64 * ws.len(),
    ensures
        with_bit(ws, pos).len() == ws.len(),
        forall|i: int| has_bit(with_bit(ws, pos), i) <==> (has_bit(ws, i) || i == pos),
{
    let ws2 = with_bit(ws, pos);
    assert forall|i: int| has_bit(ws2, i) <==> (has_bit(ws, i) || i == pos) by {
        if 0 <= i < 64 * ws.len() {
            if i / 64 == pos / 64 {
                lemma_word_bit_or(ws[pos / 64], (pos % 64) as u64, (i % 64) as u64);
            }
        }
    }
}

/// Clearing bit `pos` removes exactly `pos` from the set of one bits.
pub proof fn lemma_without_bit(ws: Seq<u64>, pos: int)
    requires
        0 <= pos < 64 * ws.len(),
    ensures
        without_bit(ws, pos).len() == ws.len(),
        forall|i: int| has_bit(without_bit(ws, pos), i) <==> (has_bit(ws, i) && i != pos),
{
    let ws2 = without_bit(ws, pos);
    assert forall|i: int| has_bit(ws2, i) <==> (has_bit(ws, i) && i != pos) by {
        if 0 <= i < 64 * ws.len() {
            if i / 64 == pos / 64 {
                lemma_word_bit_clear(ws[pos / 64], (pos % 64) as u64, (i % 64) as u64);
            }
        }
    }
}

/// A word of zeros has no one bit.
pub proof fn lemma_zero_words(ws: Seq<u64>)
    requires
        forall|j: int| 0 <= j < ws.len() ==> ws[j] == 0u64,
    ensures
        forall|i: int| !has_bit(ws, i),
{
    assert forall|i: int| !has_bit(ws, i) by {
        if 0 <= i < 64 * ws.len() {
            let k = (i % 64) as u64;
            assert((0u64 >> k) & 1u64 == 0u64) by (bit_vector);
        }
    }
}

proof fn lemma_popcount_bound(w: u64)
    ensures
        popcount(w) <= 64,
{
    vstd::arithmetic::power2::lemma2_to64();
    lemma_popcount_bound_rec(w, 64);
}

proof fn lemma_popcount_bound_rec(w: u64, k: nat)
    requires
        (w as int) < vstd::arithmetic::power2::pow2(k),
    ensures
        popcount(w) <= k,
    decreases k,
{
    if w != 0 {
        if k == 0 {
            vstd::arithmetic::power2::lemma2_to64();
        } else {
            vstd::arithmetic::power2::lemma_pow2_unfold(k);
            lemma_popcount_bound_rec(w / 2, (k - 1) as nat);
        }
    }
}

proof fn lemma_popcount_words_bound(ws: Seq<u64>)
    ensures
        popcount_words(ws) <= 64 * ws.len(),
    decreases ws.len(),
{
    if ws.len() > 0 {
        lemma_popcount_words_bound(ws.drop_last());
        lemma_popcount_bound(ws.last());
    }
}

// ---------------------------------------------------------------------------
// Bitset
// ---------------------------------------------------------------------------

/// Compact bitset backed by a `SmallVec<[u64; 4]>`.
///
/// Bit layout: bits 0–63 in word 0, bits 64–127 in word 1, etc.
/// An inline capacity of 4 words covers up to 256 bits without heap allocation.
#[derive(Debug)]
pub struct Bitset(WordStore);

impl View for Bitset {
    type V = Seq<u64>;

    closed spec fn view(&self) -> Seq<u64> {
        store_words(self.0)
    }
}

impl Clone for Bitset {
    /// A bitset holding the same words.
    fn clone(&self) -> (r: Self)
        ensures
            r@ == self@,
    {
        Bitset(sv_clone(&self.0))
    }
}

impl PartialEq for Bitset {
    fn eq(&self, other: &Self) -> (r: bool) {
        self.same_words(other)
    }
}

/// Two bitsets are equal when they hold the same words: an equivalence.
impl Eq for Bitset {}

impl vstd::std_specs::cmp::PartialEqSpecImpl for Bitset {
    open spec fn obeys_eq_spec() -> bool {
        true
    }

    open spec fn eq_spec(&self, other: &Self) -> bool {
        self@ == other@
    }
}

impl Bitset {
    /// Allocate a bitset large enough to hold `n` bits, all initially zero.
    pub fn new(n: usize) -> (r: Self)
        ensures
            r@.len() == words_for(n as nat),
            forall|j: int| 0 <= j < r@.len() ==> r@[j] == 0u64,
            forall|i: int| !has_bit(r@, i),
    {
        let chunks: usize = if n % 64 == 0 {
            n / 64
        } else {
            n / 64 + 1
        };
        let mut data = sv_new();
        sv_resize(&mut data, chunks, 0u64);
        let r = Bitset(data);
        assert(r@ =~= Seq::new(chunks as nat, |i: int| 0u64));
        proof {
            lemma_zero_words(r@);
        }
        r
    }

    /// Word and bit index of position `pos`.
    fn index(pos: usize) -> (r: (usize, usize))
        ensures
            r.0 == pos / 64,
            r.1 == pos % 64,
    {
        (pos / 64, pos % 64)
    }

    /// Word-by-word equality.
    fn same_words(&self, other: &Self) -> (r: bool)
        ensures
            r == (self@ == other@),
    {
        let n = sv_len(&self.0);
        if n != sv_len(&other.0) {
            return false;
        }
        let mut i: usize = 0;
        while i < n
            invariant
                n == self@.len(),
                n == other@.len(),
                i <= n,
                forall|j: int| 0 <= j < i ==> self@[j] == other@[j],
            decreases n - i,
        {
            if sv_get(&self.0, i) != sv_get(&other.0, i) {
                return false;
            }
            i = i + 1;
        }
        assert(self@ =~= other@);
        true
    }

    /// Set bit at `pos`.
    pub fn set(&mut self, pos: usize)
        requires
            pos < 64 * old(self)@.len(),
        ensures
            final(self)@ == with_bit(old(self)@, pos as int),
            forall|i: int| has_bit(final(self)@, i) <==> (has_bit(old(self)@, i) || i == pos),
    {
        let (major, minor) = Self::index(pos);
        let w = sv_get(&self.0, major);
        sv_set(&mut self.0, major, w | (1u64 << (minor as u64)));
        proof {
            lemma_with_bit(old(self)@, pos as int);
        }
    }

    /// Clear bit at `pos`.
    pub fn clear(&mut self, pos: usize)
        requires
            pos < 64 * old(self)@.len(),
        ensures
            final(self)@ == without_bit(old(self)@, pos as int),
            forall|i: int| has_bit(final(self)@, i) <==> (has_bit(old(self)@, i) && i != pos),
    {
        let (major, minor) = Self::index(pos);
        let w = sv_get(&self.0, major);
        sv_set(&mut self.0, major, w & !(1u64 << (minor as u64)));
        proof {
            lemma_without_bit(old(self)@, pos as int);
        }
    }

    /// Count the number of set bits.
    pub fn popcnt(&self) -> (r: usize)
        requires
            64 * self@.len() <= usize::MAX,
        ensures
            r == popcount_words(self@),
    {
        let n = sv_len(&self.0);
        let mut total: usize = 0;
        let mut i: usize = 0;
        while i < n
            invariant
                n == self@.len(),
                64 * n <= usize::MAX,
                i <= n,
                total == popcount_words(self@.take(i as int)),
            decreases n - i,
        {
            let c = count_ones(sv_get(&self.0, i));
            proof {
                lemma_popcount_bound(self@[i as int]);
                lemma_popcount_words_bound(self@.take(i as int));
                assert(self@.take(i + 1).drop_last() =~= self@.take(i as int));
            }
            total = total + c as usize;
            i = i + 1;
        }
        assert(self@.take(n as int) =~= self@);
        total
    }

    /// Hash of the bitset: the popcount XOR every word.
    pub fn hash(&self) -> (r: u64)
        requires
            64 * self@.len() <= usize::MAX,
        ensures
            r == hash_words(self@),
    {
        let p = self.popcnt();
        let n = sv_len(&self.0);
        let mut x: u64 = 0;
        let mut i: usize = 0;
        while i < n
            invariant
                n == self@.len(),
                i <= n,
                x == xor_words(self@.take(i as int)),
            decreases n - i,
        {
            proof {
                assert(self@.take(i + 1).drop_last() =~= self@.take(i as int));
            }
            x = x ^ sv_get(&self.0, i);
            i = i + 1;
        }
        assert(self@.take(n as int) =~= self@);
        (p as u64) ^ x
    }

    /// The hash that `self` would have if bit `pos` were also set.
    /// Does not mutate `self`; the caller guarantees that `pos` is currently clear.
    pub fn hash_with_bit(&self, pos: usize) -> (r: u64)
        requires
            pos < 64 * self@.len(),
            64 * self@.len() <= usize::MAX,
            !has_bit(self@, pos as int),
        ensures
            r == hash_words(with_bit(self@, pos as int)),
    {
        let (major, minor) = Self::index(pos);
        let ghost ws2 = with_bit(self@, pos as int);
        let n = sv_len(&self.0);
        let old_word = sv_get(&self.0, major);
        let new_word = old_word | (1u64 << (minor as u64));
        let mut p: usize = 0;
        let mut x: u64 = 0;
        let mut i: usize = 0;
        while i < n
            invariant
                n == self@.len(),
                n == ws2.len(),
                64 * n <= usize::MAX,
                major < n,
                ws2 == self@.update(major as int, new_word),
                i <= n,
                p == popcount_words(ws2.take(i as int)),
                x == xor_words(ws2.take(i as int)),
            decreases n - i,
        {
            let w = if i == major {
                new_word
            } else {
                sv_get(&self.0, i)
            };
            let c = count_ones(w);
            proof {
                lemma_popcount_bound(w);
                lemma_popcount_words_bound(ws2.take(i as int));
                assert(ws2.take(i + 1).drop_last() =~= ws2.take(i as int));
            }
            p = p + c as usize;
            x = x ^ w;
            i = i + 1;
        }
        assert(ws2.take(n as int) =~= ws2);
        (p as u64) ^ x
    }

    /// Check equality as if bit `pos` were set in `self`.
    /// Does not mutate `self`.
    pub fn eq_with_bit(&self, pos: usize, other: &Bitset) -> (r: bool)
        ensures
            r == (other@ == with_bit(self@, pos as int)),
    {
        let n = sv_len(&self.0);
        if n != sv_len(&other.0) {
            return false;
        }
        let (major, minor) = Self::index(pos);
        let ghost ws2 = with_bit(self@, pos as int);
        let mut i: usize = 0;
        while i < n
            invariant
                n == self@.len(),
                n == other@.len(),
                n == ws2.len(),
                ws2 == with_bit(self@, pos as int),
                major == pos / 64,
                minor == pos % 64,
                i <= n,
                forall|j: int| 0 <= j < i ==> ws2[j] == other@[j],
            decreases n - i,
        {
            let a = sv_get(&self.0, i);
            let a_adj = if i == major {
                a | (1u64 << (minor as u64))
            } else {
                a
            };
            if a_adj != sv_get(&other.0, i) {
                return false;
            }
            i = i + 1;
        }
        assert(ws2 =~= other@);
        true
    }
}

/// Clearing a bit that was just set restores the words.
pub proof fn lemma_clear_undoes_set(ws: Seq<u64>, pos: int)
    requires
        0 <= pos < 64 * ws.len(),
        !has_bit(ws, pos),
    ensures
        without_bit(with_bit(ws, pos), pos) == ws,
{
    let k = (pos % 64) as u64;
    let w = ws[pos / 64];
    assert((w >> k) & 1u64 != 1u64);
    assert(((w | (1u64 << k)) & !(1u64 << k)) == w) by (bit_vector)
        requires
            k < 64,
            (w >> k) & 1u64 != 1u64,
    ;
    assert(without_bit(with_bit(ws, pos), pos) =~= ws);
}

} // verus!
