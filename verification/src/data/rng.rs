//! Seeded MT19937 RNG with NumPy-compatible `random` / `permutation` streams.
//!
//! NumPy's legacy `RandomState` uses MT19937 with `genrand_res53` for
//! `random_sample()` and a Fisher-Yates shuffle for `permutation()`;
//! matching both reproduces Python-side shuffle orders exactly.

pub mod laws;

use vstd::prelude::*;
use crate::elem::Elem;

verus! {

/// The number of state words.
pub const STATE_WORDS: usize = 624;

/// The distance between a word and the one mixed into it.
pub const SHIFT_WORDS: usize = 397;

/// How many draws a bounded draw makes at most. Every draw is accepted with
/// probability above one half, so the limit is never met in practice.
pub const MAX_DRAWS: u64 = 0xffff_ffff_ffff_ffff;

/// MT19937 state (624-word array + index).
pub struct Mt19937 {
    mt: [u32; 624],
    mti: usize,
}

/// What a generator holds: its words and the place of the next one.
pub struct MtState {
    pub words: Seq<u32>,
    pub next: int,
}

impl View for Mt19937 {
    type V = MtState;

    closed spec fn view(&self) -> MtState {
        MtState { words: self.mt@, next: self.mti as int }
    }
}

// ---- the generator, as mathematics ---------------------------------------------------

/// Word `i` of a freshly seeded state.
pub open spec fn seed_word(seed: u32, i: nat) -> u32
    decreases i,
{
    if i == 0 {
        seed
    } else {
        let prev = seed_word(seed, (i - 1) as nat);
        (1_812_433_253u32.wrapping_mul(prev ^ (prev >> 30))).wrapping_add(i as u32)
    }
}

/// A freshly seeded state, all words used up.
pub open spec fn seeded(seed: u32) -> MtState {
    MtState {
        words: Seq::new(STATE_WORDS as nat, |i: int| seed_word(seed, i as nat)),
        next: STATE_WORDS as int,
    }
}

/// The upper bit of one word joined with the lower bits of another.
pub open spec fn join_bits(a: u32, b: u32) -> u32 {
    (a & 0x8000_0000u32) | (b & 0x7fff_ffffu32)
}

/// Word `i` after the twist step, from the words as they are then.
pub open spec fn twisted_word(words: Seq<u32>, i: int) -> u32 {
    let y = join_bits(words[i], words[(i + 1) % (STATE_WORDS as int)]);
    let mixed = words[(i + SHIFT_WORDS) % (STATE_WORDS as int)] ^ (y >> 1);
    if y & 1u32 != 0 {
        mixed ^ 0x9908_b0dfu32
    } else {
        mixed
    }
}

/// The words after the first `k` twist steps.
pub open spec fn twisted(words: Seq<u32>, k: nat) -> Seq<u32>
    decreases k,
{
    if k == 0 {
        words
    } else {
        let before = twisted(words, (k - 1) as nat);
        before.update(k - 1, twisted_word(before, k - 1))
    }
}

/// The output that a state word is tempered to.
pub open spec fn tempered(w: u32) -> u32 {
    let a = w ^ (w >> 11);
    let b = a ^ ((a << 7) & 0x9d2c_5680u32);
    let c = b ^ ((b << 15) & 0xefc6_0000u32);
    c ^ (c >> 18)
}

/// The state in which the next word can be read: twisted when all words are
/// used up.
pub open spec fn refilled(s: MtState) -> MtState {
    if s.next >= STATE_WORDS {
        MtState { words: twisted(s.words, STATE_WORDS as nat), next: 0 }
    } else {
        s
    }
}

/// The next 32-bit output.
pub open spec fn output(s: MtState) -> u32 {
    tempered(refilled(s).words[refilled(s).next])
}

/// The state after one output.
pub open spec fn advanced(s: MtState) -> MtState {
    MtState { words: refilled(s).words, next: refilled(s).next + 1 }
}

/// The next 53-bit output: 27 bits of one draw above 26 bits of the next.
pub open spec fn output53(s: MtState) -> u64 {
    ((output(s) >> 5) as u64 * 67_108_864 + (output(advanced(s)) >> 6) as u64) as u64
}

/// The smallest mask of low bits that covers `x`.
pub open spec fn covering_mask(x: u32) -> u32 {
    let a = x | (x >> 1);
    let b = a | (a >> 2);
    let c = b | (b >> 4);
    let d = c | (c >> 8);
    d | (d >> 16)
}

/// The first of the next `n` masked outputs that is at most `top`, with the
/// state after it; zero when none is.
pub open spec fn accepted(s: MtState, top: u32, mask: u32, n: nat) -> (u32, MtState)
    decreases n,
{
    if n == 0 {
        (0, s)
    } else if output(s) & mask <= top {
        (output(s) & mask, advanced(s))
    } else {
        accepted(advanced(s), top, mask, (n - 1) as nat)
    }
}

/// A uniform draw below `bound`, with the state after it.
pub open spec fn bounded(s: MtState, bound: int) -> (int, MtState) {
    let top = (bound - 1) as u32;
    let (v, t) = accepted(s, top, covering_mask(top), MAX_DRAWS as nat);
    (v as int, t)
}

/// `s` with entries `i` and `j` exchanged.
pub open spec fn swapped<T>(s: Seq<T>, i: int, j: int) -> Seq<T> {
    s.update(i, s[j]).update(j, s[i])
}

/// Fisher-Yates from entry `i` down to entry 1, with the state after it.
pub open spec fn shuffled(s: MtState, items: Seq<u64>, i: nat) -> (Seq<u64>, MtState)
    decreases i,
{
    if i == 0 {
        (items, s)
    } else {
        let (j, t) = bounded(s, (i + 1) as int);
        shuffled(t, swapped(items, i as int, j), (i - 1) as nat)
    }
}

/// `0`, `1`, ..., `n - 1`.
pub open spec fn counting(n: nat) -> Seq<u64> {
    Seq::new(n, |i: int| i as u64)
}

/// The permutation of `0..n` that a state gives, with the state after it.
pub open spec fn permutation_of(s: MtState, n: nat) -> (Seq<u64>, MtState) {
    shuffled(
        s,
        counting(n),
        if n == 0 {
            0
        } else {
            (n - 1) as nat
        },
    )
}

/// A state holds the right number of words.
pub open spec fn valid_state(s: MtState) -> bool {
    s.words.len() == STATE_WORDS && 0 <= s.next
}

proof fn lemma_twisted_len(words: Seq<u32>, k: nat)
    requires
        k <= words.len(),
    ensures
        twisted(words, k).len() == words.len(),
    decreases k,
{
    if k > 0 {
        lemma_twisted_len(words, (k - 1) as nat);
    }
}

proof fn lemma_advanced_valid(s: MtState)
    requires
        valid_state(s),
    ensures
        valid_state(advanced(s)),
        valid_state(refilled(s)),
{
    lemma_twisted_len(s.words, STATE_WORDS as nat);
}

proof fn lemma_accepted_bound(s: MtState, top: u32, mask: u32, n: nat)
    requires
        valid_state(s),
    ensures
        accepted(s, top, mask, n).0 <= top,
        valid_state(accepted(s, top, mask, n).1),
    decreases n,
{
    if n > 0 {
        lemma_advanced_valid(s);
        if output(s) & mask > top {
            lemma_accepted_bound(advanced(s), top, mask, (n - 1) as nat);
        }
    }
}

/// The 53 bits behind a uniform number stand for a fraction below one.
pub proof fn law_random_bits_are_a_fraction(s: MtState)
    ensures
        output53(s) < 9_007_199_254_740_992,
        output53(s) == (output(s) >> 5) * 67_108_864 + (output(advanced(s)) >> 6),
{
    let first = output(s);
    let second = output(advanced(s));
    assert(first >> 5 < 134_217_728) by (bit_vector);
    assert(second >> 6 < 67_108_864) by (bit_vector);
}

/// A bounded draw lies below its bound.
pub proof fn law_bounded_draw(s: MtState, bound: int)
    requires
        valid_state(s),
        0 < bound,
    ensures
        0 <= bounded(s, bound).0 < bound,
        valid_state(bounded(s, bound).1),
{
    let top = (bound - 1) as u32;
    lemma_accepted_bound(s, top, covering_mask(top), MAX_DRAWS as nat);
    assert(top <= bound - 1) by {
        if bound - 1 <= u32::MAX {
            assert(top == bound - 1);
        }
    }
}

/// `items` holds every number below `n` once.
pub open spec fn is_shuffle(items: Seq<u64>, n: nat) -> bool {
    &&& items.len() == n
    &&& forall|i: int| 0 <= i < n ==> #[trigger] items[i] < n
    &&& forall|i: int, j: int| 0 <= i < j < n ==> #[trigger] items[i] != #[trigger] items[j]
}

proof fn lemma_swap_keeps(items: Seq<u64>, n: nat, i: int, j: int)
    requires
        is_shuffle(items, n),
        0 <= i < n,
        0 <= j < n,
    ensures
        is_shuffle(swapped(items, i, j), n),
{
    let now = swapped(items, i, j);
    assert forall|k: int| 0 <= k < n implies #[trigger] now[k] < n by {
        assert(items[k] < n && items[i] < n && items[j] < n);
    }
    assert forall|a: int, b: int| 0 <= a < b < n implies #[trigger] now[a] != #[trigger] now[b] by {
        let sa = if a == i {
            j
        } else if a == j {
            i
        } else {
            a
        };
        let sb = if b == i {
            j
        } else if b == j {
            i
        } else {
            b
        };
        assert(now[a] == items[sa] && now[b] == items[sb]);
        if sa < sb {
            assert(items[sa] != items[sb]);
        } else {
            assert(items[sb] != items[sa]);
        }
    }
}

proof fn lemma_shuffled_keeps(s: MtState, items: Seq<u64>, n: nat, i: nat)
    requires
        valid_state(s),
        is_shuffle(items, n),
        i < n || i == 0,
    ensures
        is_shuffle(shuffled(s, items, i).0, n),
        valid_state(shuffled(s, items, i).1),
    decreases i,
{
    if i > 0 {
        law_bounded_draw(s, (i + 1) as int);
        let (j, t) = bounded(s, (i + 1) as int);
        lemma_swap_keeps(items, n, i as int, j);
        lemma_shuffled_keeps(t, swapped(items, i as int, j), n, (i - 1) as nat);
    }
}

/// Whatever the state, a permutation of `0..n` holds every number below `n`
/// exactly once.
pub proof fn law_permutation_is_complete(s: MtState, n: nat)
    requires
        valid_state(s),
        n <= u64::MAX,
    ensures
        is_shuffle(permutation_of(s, n).0, n),
        valid_state(permutation_of(s, n).1),
{
    let items = counting(n);
    assert(is_shuffle(items, n));
    lemma_shuffled_keeps(
        s,
        items,
        n,
        if n == 0 {
            0
        } else {
            (n - 1) as nat
        },
    );
}

// ---- the generator ----------------------------------------------------------------------

impl Mt19937 {
    /// Every generator is in a valid state.
    pub proof fn lemma_valid(&self)
        ensures
            valid_state(self@),
    {
    }

    /// Creates a generator seeded like `np.random.RandomState(seed)` for
    /// non-negative 32-bit seeds.
    #[must_use]
    pub fn new(seed: u32) -> (r: Self)
        ensures
            r@ == seeded(seed),
    {
        let mut mt: [u32; 624] = [0u32; 624];
        mt[0] = seed;
        let mut i: usize = 1;
        while i < STATE_WORDS
            invariant
                1 <= i <= STATE_WORDS,
                forall|j: int| 0 <= j < i ==> #[trigger] mt@[j] == seed_word(seed, j as nat),
            decreases STATE_WORDS - i,
        {
            let prev: u32 = mt[i - 1];
            assert(mt@[i - 1] == seed_word(seed, (i - 1) as nat));
            let next: u32 = 1_812_433_253u32.wrapping_mul(prev ^ (prev >> 30)).wrapping_add(
                i as u32,
            );
            mt[i] = next;
            i = i + 1;
        }
        let r = Mt19937 { mt, mti: STATE_WORDS };
        assert(r@.words =~= seeded(seed).words);
        r
    }

    /// Draws one full-precision `u32`: the tempered MT19937 output.
    fn next_u32(&mut self) -> (r: u32)
        ensures
            r == output(old(self)@),
            final(self)@ == advanced(old(self)@),
    {
        if self.mti >= STATE_WORDS {
            self.twist();
        }
        let w: u32 = self.mt[self.mti];
        self.mti = self.mti + 1;
        let a: u32 = w ^ (w >> 11);
        let b: u32 = a ^ ((a << 7) & 0x9d2c_5680u32);
        let c: u32 = b ^ ((b << 15) & 0xefc6_0000u32);
        c ^ (c >> 18)
    }

    /// Refills the state words.
    fn twist(&mut self)
        ensures
            final(self)@ == (MtState {
                words: twisted(old(self)@.words, STATE_WORDS as nat),
                next: 0,
            }),
    {
        let ghost start = self@.words;
        let mut i: usize = 0;
        while i < STATE_WORDS
            invariant
                0 <= i <= STATE_WORDS,
                start == old(self)@.words,
                self.mt@ == twisted(start, i as nat),
            decreases STATE_WORDS - i,
        {
            let y: u32 = (self.mt[i] & 0x8000_0000u32) | (self.mt[(i + 1) % STATE_WORDS]
                & 0x7fff_ffffu32);
            let mut next: u32 = self.mt[(i + SHIFT_WORDS) % STATE_WORDS] ^ (y >> 1);
            if y & 1u32 != 0 {
                next = next ^ 0x9908_b0dfu32;
            }
            let ghost before = self.mt@;
            assert(next == twisted_word(before, i as int));
            self.mt[i] = next;
            i = i + 1;
            assert(self.mt@ =~= before.update(i - 1, next));
        }
        self.mti = 0;
    }

    /// The next 53 random bits.
    fn next_53(&mut self) -> (r: u64)
        ensures
            r == output53(old(self)@),
            r < 9_007_199_254_740_992,
            final(self)@ == advanced(advanced(old(self)@)),
    {
        let first: u32 = self.next_u32();
        let second: u32 = self.next_u32();
        assert(first >> 5 < 134_217_728) by (bit_vector);
        assert(second >> 6 < 67_108_864) by (bit_vector);
        (first >> 5) as u64 * 67_108_864 + (second >> 6) as u64
    }

    /// Uniform `[0, 1)` on the same 53-bit grid as NumPy's `random_sample`.
    #[must_use]
    pub fn random<E: Elem>(&mut self) -> (r: E)
        ensures
            is_random(old(self)@, r),
            final(self)@ == advanced(advanced(old(self)@)),
    {
        let n: u64 = self.next_53();
        E::from_53_bits(n)
    }

    /// Uniform `[low, high)` numbers.
    #[must_use]
    pub fn uniform<E: Elem>(&mut self, low: E, high: E) -> (r: E)
        ensures
            is_uniform(old(self)@, low, high, r),
            final(self)@ == advanced(advanced(old(self)@)),
    {
        let span = E::minus(high, low);
        let u = self.random();
        let part = E::times(span, u);
        let r = E::plus(low, part);
        assert(is_random(old(self)@, u));
        r
    }

    /// Standard normal via Box-Muller on `random()` pairs.
    #[must_use]
    pub fn normal<E: Elem>(&mut self) -> (r: E)
        ensures
            is_normal(old(self)@, r),
            final(self)@ == advanced(advanced(advanced(advanced(old(self)@)))),
    {
        let ghost start = self@;
        let raw = self.random();
        assert(is_random(start, raw));
        let least = E::min_positive();
        let u1 = E::larger(raw, least);
        assert(is_positive_part(raw, u1));
        let ghost mid = self@;
        let u2 = self.random();
        assert(is_random(mid, u2));
        let l = E::ln(u1);
        let two = E::two();
        let m = E::negate(two);
        let s = E::times(m, l);
        let radius = E::sqrt(s);
        assert(is_radius(u1, radius));
        let full = E::tau();
        let angle = E::times(full, u2);
        let turn = E::cos(angle);
        assert(is_turn(u2, turn));
        E::times(radius, turn)
    }

    /// `numpy.random.RandomState.permutation(n)` equivalent: Fisher-Yates
    /// over `0..n` using rejection sampling on 32-bit words.
    #[must_use]
    pub fn permutation(&mut self, n: usize) -> (r: Vec<u64>)
        ensures
            r@ == permutation_of(old(self)@, n as nat).0,
            final(self)@ == permutation_of(old(self)@, n as nat).1,
            is_shuffle(r@, n as nat),
    {
        let ghost start = self@;
        let mut idx: Vec<u64> = Vec::with_capacity(n);
        let mut k: usize = 0;
        while k < n
            invariant
                0 <= k <= n,
                self@ == start,
                idx@ == counting(k as nat),
            decreases n - k,
        {
            idx.push(k as u64);
            k = k + 1;
            assert(idx@ =~= counting(k as nat));
        }
        proof {
            self.lemma_valid();
            law_permutation_is_complete(start, n as nat);
        }
        if n == 0 {
            return idx;
        }
        let mut i: usize = n - 1;
        while i > 0
            invariant
                0 <= i < n,
                idx.len() == n,
                valid_state(self@),
                shuffled(self@, idx@, i as nat) == permutation_of(start, n as nat),
            decreases i,
        {
            let ghost before = self@;
            let ghost items = idx@;
            let j: usize = self.randbelow(i + 1);
            proof {
                law_bounded_draw(before, i + 1);
            }
            let a: u64 = idx[i];
            let b: u64 = idx[j];
            idx[i] = b;
            idx[j] = a;
            assert(idx@ =~= swapped(items, i as int, j as int));
            i = i - 1;
        }
        idx
    }

    /// Uniform integer in `[0, bound)`; the public face of the NumPy-exact
    /// masked-rejection sampler (used by per-image crop positions).
    #[must_use]
    pub fn below(&mut self, bound: usize) -> (r: usize)
        requires
            bound > 0,
        ensures
            r == bounded(old(self)@, bound as int).0,
            r < bound,
            final(self)@ == bounded(old(self)@, bound as int).1,
    {
        self.randbelow(bound)
    }

    /// Uniform integer in `[0, bound)` matching NumPy's masked rejection
    /// (`rk_bounded_uint32`): accept the first masked draw `<= bound - 1`.
    fn randbelow(&mut self, bound: usize) -> (r: usize)
        requires
            bound > 0,
        ensures
            r == bounded(old(self)@, bound as int).0,
            r < bound,
            final(self)@ == bounded(old(self)@, bound as int).1,
    {
        proof {
            self.lemma_valid();
            law_bounded_draw(self@, bound as int);
        }
        let top: u32 = #[verifier::truncate] ((bound - 1) as u32);
        let a: u32 = top | (top >> 1);
        let b: u32 = a | (a >> 2);
        let c: u32 = b | (b >> 4);
        let d: u32 = c | (c >> 8);
        let mask: u32 = d | (d >> 16);
        let mut left: u64 = MAX_DRAWS;
        while left > 0
            invariant
                mask == covering_mask(top),
                accepted(self@, top, mask, left as nat) == accepted(
                    old(self)@,
                    top,
                    mask,
                    MAX_DRAWS as nat,
                ),
                bounded(old(self)@, bound as int) == ({
                    let (v, t) = accepted(old(self)@, top, mask, MAX_DRAWS as nat);
                    (v as int, t)
                }),
                bounded(old(self)@, bound as int).0 < bound,
            decreases left,
        {
            let draw: u32 = self.next_u32() & mask;
            if draw <= top {
                return draw as usize;
            }
            left = left - 1;
        }
        0
    }
}

/// `r` is the uniform number that a state gives.
pub open spec fn is_random<E: Elem>(s: MtState, r: E) -> bool {
    call_ensures(E::from_53_bits, (output53(s),), r)
}

/// `r` is `low + (high - low) * u` for the uniform number `u` of a state.
pub open spec fn is_uniform<E: Elem>(s: MtState, low: E, high: E, r: E) -> bool {
    exists|span: E, u: E, part: E|
        #![trigger call_ensures(E::minus, (high, low), span), call_ensures(E::times, (span, u), part)]
        call_ensures(E::minus, (high, low), span) && is_random(s, u) && call_ensures(
            E::times,
            (span, u),
            part,
        ) && call_ensures(E::plus, (low, part), r)
}

/// `r` is `raw`, but no less than the smallest positive number.
pub open spec fn is_positive_part<E: Elem>(raw: E, r: E) -> bool {
    exists|least: E| #[trigger]
        call_ensures(E::min_positive, (), least) && call_ensures(E::larger, (raw, least), r)
}

/// `r` is `sqrt(-2 * ln(u))`.
pub open spec fn is_radius<E: Elem>(u: E, r: E) -> bool {
    exists|l: E, two: E, m: E, s: E|
        #![trigger call_ensures(E::ln, (u,), l), call_ensures(E::negate, (two,), m), call_ensures(E::times, (m, l), s)]
        call_ensures(E::ln, (u,), l) && call_ensures(E::two, (), two) && call_ensures(
            E::negate,
            (two,),
            m,
        ) && call_ensures(E::times, (m, l), s) && call_ensures(E::sqrt, (s,), r)
}

/// `r` is `cos(tau * u)`.
pub open spec fn is_turn<E: Elem>(u: E, r: E) -> bool {
    exists|full: E, angle: E| #[trigger]
        call_ensures(E::times, (full, u), angle) && call_ensures(E::tau, (), full) && call_ensures(
            E::cos,
            (angle,),
            r,
        )
}

/// `r` is the Box-Muller number of two uniform numbers in a row.
pub open spec fn is_normal<E: Elem>(s: MtState, r: E) -> bool {
    exists|raw: E, u1: E, u2: E, radius: E, turn: E| #[trigger]
        is_random(s, raw) && #[trigger] is_positive_part(raw, u1) && #[trigger] is_random(
            advanced(advanced(s)),
            u2,
        ) && #[trigger] is_radius(u1, radius) && #[trigger] is_turn(u2, turn) && call_ensures(
            E::times,
            (radius, turn),
            r,
        )
}

} // verus!
