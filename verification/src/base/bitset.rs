//! A growable set of small natural numbers, stored one bit per element.
use vstd::prelude::*;

verus! {

/// Whether bit `b` of `w` is set.
pub open spec fn bit(w: u64, b: u64) -> bool {
    (w >> b) & 1u64 == 1u64
}

proof fn lemma_bit_zero(b: u64)
    requires
        b < 64,
    ensures
        !bit(0u64, b),
{
    assert((0u64 >> b) & 1u64 == 0u64) by (bit_vector)
        requires
            b < 64,
    ;
}

proof fn lemma_bit_set(w: u64, b: u64, j: u64)
    requires
        b < 64,
        j < 64,
    ensures
        bit(w | (1u64 << b), j) == (j == b || bit(w, j)),
{
    assert(((w | (1u64 << b)) >> j) & 1u64 == 1u64 <==> (j == b || (w >> j) & 1u64 == 1u64))
        by (bit_vector)
        requires
            b < 64,
            j < 64,
    ;
}

proof fn lemma_word_nonzero(w: u64)
    requires
        w != 0,
    ensures
        exists|j: u64| j < 64 && #[trigger] bit(w, j),
{
    if !bit(w, 0u64) && !bit(w, 1u64) && !bit(w, 2u64) && !bit(w, 3u64) && !bit(w, 4u64) && !bit(w, 5u64) && !bit(w, 6u64) && !bit(w, 7u64) && !bit(w, 8u64) && !bit(w, 9u64) && !bit(w, 10u64) && !bit(w, 11u64) && !bit(w, 12u64) && !bit(w, 13u64) && !bit(w, 14u64) && !bit(w, 15u64) && !bit(w, 16u64) && !bit(w, 17u64) && !bit(w, 18u64) && !bit(w, 19u64) && !bit(w, 20u64) && !bit(w, 21u64) && !bit(w, 22u64) && !bit(w, 23u64) && !bit(w, 24u64) && !bit(w, 25u64) && !bit(w, 26u64) && !bit(w, 27u64) && !bit(w, 28u64) && !bit(w, 29u64) && !bit(w, 30u64) && !bit(w, 31u64) && !bit(w, 32u64) && !bit(w, 33u64) && !bit(w, 34u64) && !bit(w, 35u64) && !bit(w, 36u64) && !bit(w, 37u64) && !bit(w, 38u64) && !bit(w, 39u64) && !bit(w, 40u64) && !bit(w, 41u64) && !bit(w, 42u64) && !bit(w, 43u64) && !bit(w, 44u64) && !bit(w, 45u64) && !bit(w, 46u64) && !bit(w, 47u64) && !bit(w, 48u64) && !bit(w, 49u64) && !bit(w, 50u64) && !bit(w, 51u64) && !bit(w, 52u64) && !bit(w, 53u64) && !bit(w, 54u64) && !bit(w, 55u64) && !bit(w, 56u64) && !bit(w, 57u64) && !bit(w, 58u64) && !bit(w, 59u64) && !bit(w, 60u64) && !bit(w, 61u64) && !bit(w, 62u64) && !bit(w, 63u64) {
        assert(false) by (bit_vector)
            requires
                w != 0u64,
                (w >> 0u64) & 1u64 != 1u64,
            (w >> 1u64) & 1u64 != 1u64,
            (w >> 2u64) & 1u64 != 1u64,
            (w >> 3u64) & 1u64 != 1u64,
            (w >> 4u64) & 1u64 != 1u64,
            (w >> 5u64) & 1u64 != 1u64,
            (w >> 6u64) & 1u64 != 1u64,
            (w >> 7u64) & 1u64 != 1u64,
            (w >> 8u64) & 1u64 != 1u64,
            (w >> 9u64) & 1u64 != 1u64,
            (w >> 10u64) & 1u64 != 1u64,
            (w >> 11u64) & 1u64 != 1u64,
            (w >> 12u64) & 1u64 != 1u64,
            (w >> 13u64) & 1u64 != 1u64,
            (w >> 14u64) & 1u64 != 1u64,
            (w >> 15u64) & 1u64 != 1u64,
            (w >> 16u64) & 1u64 != 1u64,
            (w >> 17u64) & 1u64 != 1u64,
            (w >> 18u64) & 1u64 != 1u64,
            (w >> 19u64) & 1u64 != 1u64,
            (w >> 20u64) & 1u64 != 1u64,
            (w >> 21u64) & 1u64 != 1u64,
            (w >> 22u64) & 1u64 != 1u64,
            (w >> 23u64) & 1u64 != 1u64,
            (w >> 24u64) & 1u64 != 1u64,
            (w >> 25u64) & 1u64 != 1u64,
            (w >> 26u64) & 1u64 != 1u64,
            (w >> 27u64) & 1u64 != 1u64,
            (w >> 28u64) & 1u64 != 1u64,
            (w >> 29u64) & 1u64 != 1u64,
            (w >> 30u64) & 1u64 != 1u64,
            (w >> 31u64) & 1u64 != 1u64,
            (w >> 32u64) & 1u64 != 1u64,
            (w >> 33u64) & 1u64 != 1u64,
            (w >> 34u64) & 1u64 != 1u64,
            (w >> 35u64) & 1u64 != 1u64,
            (w >> 36u64) & 1u64 != 1u64,
            (w >> 37u64) & 1u64 != 1u64,
            (w >> 38u64) & 1u64 != 1u64,
            (w >> 39u64) & 1u64 != 1u64,
            (w >> 40u64) & 1u64 != 1u64,
            (w >> 41u64) & 1u64 != 1u64,
            (w >> 42u64) & 1u64 != 1u64,
            (w >> 43u64) & 1u64 != 1u64,
            (w >> 44u64) & 1u64 != 1u64,
            (w >> 45u64) & 1u64 != 1u64,
            (w >> 46u64) & 1u64 != 1u64,
            (w >> 47u64) & 1u64 != 1u64,
            (w >> 48u64) & 1u64 != 1u64,
            (w >> 49u64) & 1u64 != 1u64,
            (w >> 50u64) & 1u64 != 1u64,
            (w >> 51u64) & 1u64 != 1u64,
            (w >> 52u64) & 1u64 != 1u64,
            (w >> 53u64) & 1u64 != 1u64,
            (w >> 54u64) & 1u64 != 1u64,
            (w >> 55u64) & 1u64 != 1u64,
            (w >> 56u64) & 1u64 != 1u64,
            (w >> 57u64) & 1u64 != 1u64,
            (w >> 58u64) & 1u64 != 1u64,
            (w >> 59u64) & 1u64 != 1u64,
            (w >> 60u64) & 1u64 != 1u64,
            (w >> 61u64) & 1u64 != 1u64,
            (w >> 62u64) & 1u64 != 1u64,
            (w >> 63u64) & 1u64 != 1u64,
        ;
    }
}

/// The numbers that a sequence of indices holds.
pub open spec fn index_set(s: Seq<usize>) -> Set<int> {
    Set::new(|x: int| exists|k: int| 0 <= k < s.len() && s[k] as int == x)
}

pub proof fn lemma_index_set_push(s: Seq<usize>, a: usize)
    ensures
        index_set(s.push(a)) == index_set(s).insert(a as int),
{
    let t = s.push(a);
    assert forall|x: int| index_set(t).contains(x) <==> index_set(s).insert(a as int).contains(x) by {
        if index_set(t).contains(x) {
            let k = choose|k: int| 0 <= k < t.len() && t[k] as int == x;
            if k < s.len() {
                assert(s[k] as int == x);
            }
        }
        if index_set(s).contains(x) {
            let k = choose|k: int| 0 <= k < s.len() && s[k] as int == x;
            assert(t[k] as int == x);
        }
        if x == a as int {
            assert(t[s.len() as int] as int == x);
        }
    }
    assert(index_set(t) =~= index_set(s).insert(a as int));
}

/// The largest number of words a set may hold: enough for every `usize`.
pub open spec fn max_words() -> int {
    usize::MAX as int / 64 + 1
}

#[derive(Debug, PartialEq, Eq, Hash)]
pub struct BitSet {
    words: Vec<u64>,
}

impl BitSet {
    #[verifier::type_invariant]
    spec fn inv(self) -> bool {
        self.words.len() <= max_words()
    }

    /// Whether `i` is in the set.
    pub closed spec fn has(self, i: int) -> bool {
        0 <= i && i / 64 < self.words.len() && bit(self.words@[i / 64], (i % 64) as u64)
    }

    /// The number of elements the set can hold without growing.
    pub closed spec fn capacity(self) -> nat {
        (self.words.len() * 64) as nat
    }

    pub closed spec fn set_view(self) -> Set<int> {
        Set::new(|i: int| self.has(i))
    }

    pub fn new(capacity: usize) -> (s: Self)
        ensures
            s@ == Set::<int>::empty(),
            s.capacity() >= capacity,
            s.capacity() < capacity + 64,
    {
        let len = capacity / 64 + if capacity % 64 != 0 {
            1usize
        } else {
            0usize
        };
        let s = BitSet { words: vec![0u64; len] };
        assert(s@ =~= Set::<int>::empty()) by {
            assert forall|i: int| !s.has(i) by {
                if 0 <= i && i / 64 < s.words.len() {
                    lemma_bit_zero((i % 64) as u64);
                }
            }
        }
        s
    }

    /// Adds `idx` to the set, growing it when needed.
    pub fn add(&mut self, idx: usize)
        ensures
            final(self)@ == old(self)@.insert(idx as int),
            final(self).capacity() == if idx < old(self).capacity() {
                old(self).capacity()
            } else {
                ((idx / 64 + 1) * 64) as nat
            },
    {
        proof {
            use_type_invariant(&*self);
        }
        let ghost old_self = *self;
        let word_idx = idx / 64;
        let bit_idx = idx % 64;
        let mut words: Vec<u64> = Vec::new();
        std::mem::swap(&mut words, &mut self.words);
        if word_idx >= words.len() {
            words.resize(word_idx + 1, 0);
        }
        let ghost grown = words@;
        assert forall|i: int| old_self.has(i) <==> 0 <= i && i / 64 < grown.len() && bit(
            grown[i / 64],
            (i % 64) as u64,
        ) by {
            if 0 <= i && i / 64 < grown.len() && i / 64 >= old_self.words.len() {
                lemma_bit_zero((i % 64) as u64);
            }
        }
        assert(idx < old_self.capacity() <==> word_idx < old_self.words.len()) by {
            lemma_div_mod_64(idx as int);
        }
        let w = words[word_idx];
        words.set(word_idx, w | (1u64 << (bit_idx as u64)));
        self.words = words;
        assert(self@ =~= old_self@.insert(idx as int)) by {
            assert forall|i: int| #[trigger] self@.contains(i) <==> old_self@.insert(idx as int).contains(i) by {
                if 0 <= i {
                    lemma_div_mod_64(i);
                    lemma_div_mod_64(idx as int);
                    assert(self.words@ == grown.update(word_idx as int, w | (1u64 << (
                    bit_idx as u64))));
                    if i / 64 == word_idx as int {
                        lemma_bit_set(w, bit_idx as u64, (i % 64) as u64);
                        assert(old_self.has(i) == bit(w, (i % 64) as u64));
                        assert(self.has(i) == bit(w | (1u64 << (bit_idx as u64)), (i % 64) as u64));
                        assert((i == idx) == ((i % 64) as u64 == bit_idx as u64));
                    } else if i / 64 < grown.len() {
                        assert(self.words@[i / 64] == grown[i / 64]);
                        assert(i != idx);
                    } else {
                        assert(i != idx);
                    }
                }
            }
        }
    }

    pub fn contains(&self, idx: usize) -> (b: bool)
        ensures
            b == self@.contains(idx as int),
    {
        let word_idx = idx / 64;
        if word_idx >= self.words.len() {
            false
        } else {
            (self.words[word_idx] >> ((idx % 64) as u64)) & 1 == 1
        }
    }

    /// The elements of the set in increasing order.
    pub fn iter(&self) -> (v: Vec<usize>)
        ensures
            forall|i: int, j: int| 0 <= i < j < v.len() ==> v@[i] < v@[j],
            self@ == index_set(v@),
    {
        proof {
            use_type_invariant(self);
        }
        let mut v: Vec<usize> = Vec::new();
        let mut wi: usize = 0;
        while wi < self.words.len()
            invariant
                wi <= self.words.len() <= max_words(),
                forall|i: int, j: int| 0 <= i < j < v.len() ==> v@[i] < v@[j],
                forall|k: int| 0 <= k < v.len() ==> v@[k] < wi * 64,
                forall|x: int| 0 <= x < wi * 64 ==> (self.has(x) <==> index_set(v@).contains(x)),
                forall|k: int| 0 <= k < v.len() ==> self.has(v@[k] as int),
            decreases self.words.len() - wi,
        {
            let w = self.words[wi];
            let mut b: usize = 0;
            while b < 64
                invariant
                    wi < self.words.len() <= max_words(),
                    w == self.words@[wi as int],
                    b <= 64,
                    forall|i: int, j: int| 0 <= i < j < v.len() ==> v@[i] < v@[j],
                    forall|k: int| 0 <= k < v.len() ==> v@[k] < wi * 64 + b,
                    forall|x: int|
                        0 <= x < wi * 64 + b ==> (self.has(x) <==> index_set(v@).contains(x)),
                    forall|k: int| 0 <= k < v.len() ==> self.has(v@[k] as int),
                decreases 64 - b,
            {
                assert(wi * 64 + b <= usize::MAX) by (nonlinear_arith)
                    requires
                        wi < max_words(),
                        b < 64,
                        max_words() == usize::MAX as int / 64 + 1,
                ;
                let x = wi * 64 + b;
                assert((x as int) / 64 == wi && (x as int) % 64 == b) by (nonlinear_arith)
                    requires
                        x == wi * 64 + b,
                        b < 64,
                ;
                let ghost old_v = v@;
                if (w >> (b as u64)) & 1 == 1 {
                    v.push(x);
                    proof {
                        lemma_index_set_push(old_v, x);
                    }
                }
                b = b + 1;
                assert forall|y: int| 0 <= y < wi * 64 + b implies (self.has(y)
                    <==> index_set(v@).contains(y)) by {
                    if y < x {
                        if index_set(v@).contains(y) && !index_set(old_v).contains(y) {
                            assert(y == x);
                        }
                    } else {
                        assert(y == x);
                        if index_set(old_v).contains(y) {
                            let k = choose|k: int| 0 <= k < old_v.len() && old_v[k] as int == y;
                            assert(old_v[k] < x);
                        }
                    }
                }
            }
            wi = wi + 1;
        }
        proof {
            assert forall|x: int| #[trigger] self@.contains(x) <==> index_set(v@).contains(x) by {
                if self.has(x) {
                    assert(x < wi * 64) by (nonlinear_arith)
                        requires
                            x / 64 < wi,
                            0 <= x,
                    ;
                }
                if index_set(v@).contains(x) {
                    let k = choose|k: int| 0 <= k < v.len() && v@[k] as int == x;
                    assert(self.has(v@[k] as int));
                }
            }
            assert(self@ =~= index_set(v@));
        }
        v
    }

    /// Adds every element of `items`.
    pub fn extend(&mut self, items: &[usize])
        ensures
            final(self)@ == old(self)@ + index_set(items@),
    {
        let mut i: usize = 0;
        while i < items.len()
            invariant
                i <= items.len(),
                self@ == old(self)@ + index_set(items@.take(i as int)),
            decreases items.len() - i,
        {
            self.add(items[i]);
            proof {
                assert(items@.take(i + 1) == items@.take(i as int).push(items@[i as int]));
                lemma_index_set_push(items@.take(i as int), items@[i as int]);
            }
            i = i + 1;
            assert(self@ =~= old(self)@ + index_set(items@.take(i as int)));
        }
        assert(items@.take(items.len() as int) == items@);
    }

    pub fn is_empty(&self) -> (b: bool)
        ensures
            b == (self@ == Set::<int>::empty()),
    {
        let mut i: usize = 0;
        while i < self.words.len()
            invariant
                i <= self.words.len(),
                forall|k: int| 0 <= k < i ==> self.words@[k] == 0,
            decreases self.words.len() - i,
        {
            if self.words[i] != 0 {
                proof {
                    let w = self.words@[i as int];
                    lemma_word_nonzero(w);
                    let j = choose|j: u64| j < 64 && #[trigger] bit(w, j);
                    let x: int = i * 64 + j;
                    assert(x / 64 == i && x % 64 == j) by (nonlinear_arith)
                        requires
                            x == i * 64 + j,
                            j < 64,
                    ;
                    assert(self@.contains(x));
                }
                return false;
            }
            i = i + 1;
        }
        assert(self@ =~= Set::<int>::empty()) by {
            assert forall|x: int| !self.has(x) by {
                if 0 <= x && x / 64 < self.words.len() {
                    lemma_bit_zero((x % 64) as u64);
                }
            }
        }
        true
    }

    /// A copy of the set with the same capacity.
    pub fn duplicate(&self) -> (s: Self)
        ensures
            s@ == self@,
            s.capacity() == self.capacity(),
    {
        proof {
            use_type_invariant(self);
        }
        let mut words: Vec<u64> = Vec::new();
        let mut i: usize = 0;
        while i < self.words.len()
            invariant
                i <= self.words.len() <= max_words(),
                words@ == self.words@.take(i as int),
            decreases self.words.len() - i,
        {
            words.push(self.words[i]);
            i = i + 1;
            assert(words@ == self.words@.take(i as int));
        }
        assert(words@ == self.words@);
        let s = BitSet { words };
        assert(s@ =~= self@);
        s
    }

    /// Whether the two sets have the same elements.
    pub fn same_elements(&self, other: &BitSet) -> (b: bool)
        ensures
            b == (self@ == other@),
    {
        let n = if self.words.len() > other.words.len() {
            self.words.len()
        } else {
            other.words.len()
        };
        let mut i: usize = 0;
        while i < n
            invariant
                i <= n,
                n == self.words.len() || n == other.words.len(),
                n >= self.words.len(),
                n >= other.words.len(),
                forall|k: int| 0 <= k < i ==> self.word_at(k) == other.word_at(k),
            decreases n - i,
        {
            let a = if i < self.words.len() {
                self.words[i]
            } else {
                0u64
            };
            let b = if i < other.words.len() {
                other.words[i]
            } else {
                0u64
            };
            if a != b {
                proof {
                    lemma_word_diff(a, b);
                    let j = choose|j: u64| j < 64 && #[trigger] bit(a, j) != bit(b, j);
                    let x: int = i * 64 + j;
                    assert(x / 64 == i && x % 64 == j) by (nonlinear_arith)
                        requires
                            x == i * 64 + j,
                            j < 64,
                    ;
                    if i >= self.words.len() {
                        lemma_bit_zero(j);
                    }
                    if i >= other.words.len() {
                        lemma_bit_zero(j);
                    }
                    assert(self.has(x) != other.has(x));
                    assert(self@.contains(x) != other@.contains(x));
                }
                return false;
            }
            i = i + 1;
        }
        assert(self@ =~= other@) by {
            assert forall|x: int| self.has(x) <==> other.has(x) by {
                if 0 <= x {
                    lemma_div_mod_64(x);
                    if x / 64 < n {
                        assert(self.word_at(x / 64) == other.word_at(x / 64));
                        lemma_bit_zero((x % 64) as u64);
                    }
                }
            }
        }
        true
    }

    /// Word `k` of the set, reading zero past the stored words.
    spec fn word_at(self, k: int) -> u64 {
        if 0 <= k < self.words.len() {
            self.words@[k]
        } else {
            0
        }
    }
}

proof fn lemma_word_diff(a: u64, b: u64)
    requires
        a != b,
    ensures
        exists|j: u64| j < 64 && #[trigger] bit(a, j) != bit(b, j),
{
    assert(a ^ b != 0u64) by (bit_vector)
        requires
            a != b,
    ;
    lemma_word_nonzero(a ^ b);
    let j = choose|j: u64| j < 64 && #[trigger] bit(a ^ b, j);
    assert(((a ^ b) >> j) & 1u64 == 1u64 ==> (((a >> j) & 1u64 == 1u64) != ((b >> j) & 1u64
        == 1u64))) by (bit_vector)
        requires
            j < 64,
    ;
    assert(bit(a, j) != bit(b, j));
}

proof fn lemma_div_mod_64(i: int)
    requires
        0 <= i,
    ensures
        i == 64 * (i / 64) + i % 64,
        0 <= i % 64 < 64,
{
    assert(i == 64 * (i / 64) + i % 64) by (nonlinear_arith);
}

impl Clone for BitSet {
    fn clone(&self) -> (s: Self)
        ensures
            s@ == self@,
    {
        self.duplicate()
    }
}

impl View for BitSet {
    type V = Set<int>;

    open spec fn view(&self) -> Set<int> {
        self.set_view()
    }
}

pub fn empty_set(capacity: usize) -> (s: BitSet)
    ensures
        s@ == Set::<int>::empty(),
        s.capacity() >= capacity,
{
    BitSet::new(capacity)
}

pub fn add_state(set: &mut BitSet, state: usize)
    ensures
        final(set)@ == old(set)@.insert(state as int),
{
    set.add(state);
}

pub fn contains(set: &BitSet, state: usize) -> (b: bool)
    ensures
        b == set@.contains(state as int),
{
    set.contains(state)
}

pub fn clone_set(set: &BitSet) -> (s: BitSet)
    ensures
        s@ == set@,
        s.capacity() == set.capacity(),
{
    set.duplicate()
}

} // verus!
