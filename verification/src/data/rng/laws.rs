//! What holds of the generator and its draws.

use vstd::prelude::*;
use vstd::arithmetic::div_mod::*;
use crate::data::rng::{
    MAX_DRAWS, MtState, advanced, bounded, counting, covering_mask, join_bits, law_bounded_draw,
    output, permutation_of, seed_word, seeded, shuffled, swapped, tempered, twisted, twisted_word,
    valid_state,
};

verus! {

// ---- the stream ------------------------------------------------------------------------

/// A seeded state starts from the seed, every word follows from the one
/// before it, and none is left to read.
pub proof fn law_seeding(seed: u32, i: int)
    requires
        0 < i < 624,
    ensures
        seeded(seed).words.len() == 624,
        seeded(seed).next == 624,
        seeded(seed).words[0] == seed,
        seeded(seed).words[i] as int == (1_812_433_253 * (seeded(seed).words[i - 1] ^ (seeded(
            seed,
        ).words[i - 1] >> 30)) as int + i) % 0x1_0000_0000,
{
    let prev = seed_word(seed, (i - 1) as nat);
    let mixed = prev ^ (prev >> 30);
    let p = 1_812_433_253 * mixed as int;
    assert(seeded(seed).words[i] == seed_word(seed, i as nat));
    assert(seeded(seed).words[i - 1] == prev);
    lemma_add_mod_noop(p, i, 0x1_0000_0000);
    lemma_small_mod(i as nat, 0x1_0000_0000);
    let low = p % 0x1_0000_0000;
    if low + i >= 0x1_0000_0000 {
        lemma_mod_multiples_vanish(1, low + i - 0x1_0000_0000, 0x1_0000_0000);
        lemma_small_mod((low + i - 0x1_0000_0000) as nat, 0x1_0000_0000);
    } else {
        lemma_small_mod((low + i) as nat, 0x1_0000_0000);
    }
}

/// The words that twist steps beyond `k` leave alone, and those before keep.
proof fn lemma_twisted_at(words: Seq<u32>, k: nat, i: int)
    requires
        words.len() == 624,
        k <= 624,
        0 <= i < 624,
    ensures
        twisted(words, k).len() == 624,
        i >= k ==> twisted(words, k)[i] == words[i],
        i < k ==> twisted(words, k)[i] == twisted(words, (i + 1) as nat)[i],
    decreases k,
{
    if k > 0 {
        lemma_twisted_at(words, (k - 1) as nat, i);
    }
}

/// Refilling follows the recurrence of the generator: a new word joins the
/// top bit of its old word with the lower bits of the next, halves that,
/// mixes in the word 397 places on, and the constant where it was odd. The
/// words beyond the end are the new ones from the start.
pub proof fn law_twist(words: Seq<u32>, i: int)
    requires
        words.len() == 624,
        0 <= i < 624,
    ensures
        ({
            let new = twisted(words, 624);
            let next = if i < 623 {
                words[i + 1]
            } else {
                new[0]
            };
            let far = if i < 227 {
                words[i + 397]
            } else {
                new[i - 227]
            };
            let y = (words[i] / 0x8000_0000) * 0x8000_0000 + next % 0x8000_0000;
            &&& new.len() == 624
            &&& 0 <= y < 0x1_0000_0000
            &&& new[i] == far ^ ((y / 2) as u32) ^ (if y % 2 == 1 {
                0x9908_b0dfu32
            } else {
                0u32
            })
        }),
{
    let new = twisted(words, 624);
    let before = twisted(words, i as nat);
    lemma_twisted_at(words, 624, i);
    lemma_twisted_at(words, i as nat, i);
    let n = (i + 1) % 624;
    let f = (i + 397) % 624;
    lemma_twisted_at(words, i as nat, n);
    lemma_twisted_at(words, i as nat, f);
    if i < 623 {
        assert(n == i + 1);
        assert(before[n] == words[i + 1]);
    } else {
        assert(n == 0);
        lemma_twisted_at(words, 624, 0);
        assert(before[n] == new[0]);
    }
    if i < 227 {
        assert(f == i + 397);
    } else {
        assert(f == i - 227);
        lemma_twisted_at(words, 624, f);
        assert(before[f] == new[i - 227]);
    }
    assert(before[i] == words[i]);
    assert(new[i] == twisted_word(before, i));
    let a = words[i];
    let b = before[n];
    let y = join_bits(a, b);
    assert(y == (a / 0x8000_0000u32) * 0x8000_0000u32 + b % 0x8000_0000u32) by (bit_vector)
        requires
            y == (a & 0x8000_0000u32) | (b & 0x7fff_ffffu32),
    ;
    assert(y >> 1 == y / 2) by (bit_vector);
    assert(y & 1u32 == y % 2) by (bit_vector);
    let mixed = before[f] ^ (y >> 1);
    assert(mixed ^ 0u32 == mixed) by (bit_vector);
}

/// Words are read in order; when all 624 are used up they are refilled, and
/// reading starts anew.
pub proof fn law_words_are_read_in_order(s: MtState)
    requires
        valid_state(s),
    ensures
        s.next < 624 ==> output(s) == tempered(s.words[s.next]) && advanced(s) == (MtState {
            words: s.words,
            next: s.next + 1,
        }),
        s.next >= 624 ==> output(s) == tempered(twisted(s.words, 624)[0]) && advanced(s) == (MtState {
            words: twisted(s.words, 624),
            next: 1,
        }),
{
}

/// Tempering is linear over bits and loses none.
pub proof fn law_tempering(a: u32, b: u32)
    ensures
        tempered(a ^ b) == tempered(a) ^ tempered(b),
        tempered(a) == tempered(b) ==> a == b,
{
    let c = a ^ b;
    lemma_tempering_steps(a, b);
    let a1 = a ^ (a >> 11);
    let b1 = b ^ (b >> 11);
    let a2 = a1 ^ ((a1 << 7) & 0x9d2c_5680u32);
    let b2 = b1 ^ ((b1 << 7) & 0x9d2c_5680u32);
    let a3 = a2 ^ ((a2 << 15) & 0xefc6_0000u32);
    let b3 = b2 ^ ((b2 << 15) & 0xefc6_0000u32);
    assert(a3 ^ (a3 >> 18) == b3 ^ (b3 >> 18) ==> a3 == b3) by (bit_vector);
    assert(a2 ^ ((a2 << 15) & 0xefc6_0000u32) == b2 ^ ((b2 << 15) & 0xefc6_0000u32) ==> a2 == b2)
        by (bit_vector);
    assert(a1 ^ ((a1 << 7) & 0x9d2c_5680u32) == b1 ^ ((b1 << 7) & 0x9d2c_5680u32) ==> a1 == b1)
        by (bit_vector);
    assert(a ^ (a >> 11) == b ^ (b >> 11) ==> a == b) by (bit_vector);
}

proof fn lemma_tempering_steps(a: u32, b: u32)
    ensures
        tempered(a ^ b) == tempered(a) ^ tempered(b),
{
    let c = a ^ b;
    let a1 = a ^ (a >> 11);
    let b1 = b ^ (b >> 11);
    let c1 = c ^ (c >> 11);
    assert(c1 == a1 ^ b1) by (bit_vector)
        requires
            c == a ^ b,
            a1 == a ^ (a >> 11),
            b1 == b ^ (b >> 11),
            c1 == c ^ (c >> 11),
    ;
    let a2 = a1 ^ ((a1 << 7) & 0x9d2c_5680u32);
    let b2 = b1 ^ ((b1 << 7) & 0x9d2c_5680u32);
    let c2 = c1 ^ ((c1 << 7) & 0x9d2c_5680u32);
    assert(c2 == a2 ^ b2) by (bit_vector)
        requires
            c1 == a1 ^ b1,
            a2 == a1 ^ ((a1 << 7) & 0x9d2c_5680u32),
            b2 == b1 ^ ((b1 << 7) & 0x9d2c_5680u32),
            c2 == c1 ^ ((c1 << 7) & 0x9d2c_5680u32),
    ;
    let a3 = a2 ^ ((a2 << 15) & 0xefc6_0000u32);
    let b3 = b2 ^ ((b2 << 15) & 0xefc6_0000u32);
    let c3 = c2 ^ ((c2 << 15) & 0xefc6_0000u32);
    assert(c3 == a3 ^ b3) by (bit_vector)
        requires
            c2 == a2 ^ b2,
            a3 == a2 ^ ((a2 << 15) & 0xefc6_0000u32),
            b3 == b2 ^ ((b2 << 15) & 0xefc6_0000u32),
            c3 == c2 ^ ((c2 << 15) & 0xefc6_0000u32),
    ;
    assert(c3 ^ (c3 >> 18) == (a3 ^ (a3 >> 18)) ^ (b3 ^ (b3 >> 18))) by (bit_vector)
        requires
            c3 == a3 ^ b3,
    ;
}

// ---- bounded draws ---------------------------------------------------------------------

/// The mask of a bounded draw is the smallest run of low bits that covers the
/// largest value: below a bit of it every bit is set, it keeps every value up
/// to `top` as it is, and half of it is below `top`.
pub proof fn law_mask(top: u32, v: u32)
    ensures
        top <= covering_mask(top),
        covering_mask(top) | (covering_mask(top) >> 1) == covering_mask(top),
        top == 0 ==> covering_mask(top) == 0,
        top > 0 ==> covering_mask(top) / 2 < top,
        v <= top ==> v & covering_mask(top) == v,
{
    let a = top | (top >> 1);
    let b = a | (a >> 2);
    let c = b | (b >> 4);
    let d = c | (c >> 8);
    let e = d | (d >> 16);
    assert(e == covering_mask(top));
    assert(top <= e && e | (e >> 1) == e && (top == 0 ==> e == 0) && (top
        > 0 ==> e / 2 < top) && (v <= top ==> v & e == v)) by (bit_vector)
        requires
            a == top | (top >> 1),
            b == a | (a >> 2),
            c == b | (b >> 4),
            d == c | (c >> 8),
            e == d | (d >> 16),
    ;
}

/// The state after `k` outputs.
pub open spec fn after_outputs(s: MtState, k: nat) -> MtState
    decreases k,
{
    if k == 0 {
        s
    } else {
        after_outputs(advanced(s), (k - 1) as nat)
    }
}

/// A bounded draw takes the first output whose low bits fit, and uses up the
/// outputs until then: an output that is itself below the bound comes out
/// unchanged.
pub proof fn law_bounded_takes_first_fit(s: MtState, bound: int, mask: u32, k: nat)
    requires
        0 < bound <= 0x1_0000_0000,
        mask == covering_mask((bound - 1) as u32),
        k < MAX_DRAWS,
        forall|j: nat| j < k ==> output(#[trigger] after_outputs(s, j)) & mask >= bound,
        output(after_outputs(s, k)) & mask < bound,
    ensures
        bounded(s, bound).0 == output(after_outputs(s, k)) & mask,
        bounded(s, bound).1 == after_outputs(s, k + 1),
        output(after_outputs(s, k)) < bound ==> bounded(s, bound).0 == output(after_outputs(s, k)),
{
    let top = (bound - 1) as u32;
    lemma_accepted_first(s, top, mask, MAX_DRAWS as nat, k);
    law_mask(top, output(after_outputs(s, k)));
}

proof fn lemma_accepted_first(s: MtState, top: u32, mask: u32, n: nat, k: nat)
    requires
        k < n,
        forall|j: nat| j < k ==> output(#[trigger] after_outputs(s, j)) & mask > top,
        output(after_outputs(s, k)) & mask <= top,
    ensures
        crate::data::rng::accepted(s, top, mask, n) == (
            output(after_outputs(s, k)) & mask,
            after_outputs(s, k + 1),
        ),
    decreases k,
{
    reveal_with_fuel(after_outputs, 2);
    if k > 0 {
        assert(after_outputs(s, 0) == s);
        assert(output(after_outputs(s, 0)) & mask > top);
        let t = advanced(s);
        assert forall|j: nat| j < k - 1 implies output(#[trigger] after_outputs(t, j)) & mask
            > top by {
            assert(after_outputs(s, j + 1) == after_outputs(t, j));
        }
        lemma_accepted_first(t, top, mask, (n - 1) as nat, (k - 1) as nat);
    }
}

// ---- shuffling -------------------------------------------------------------------------

proof fn lemma_shuffled_above(s: MtState, items: Seq<u64>, i: nat, k: int)
    requires
        valid_state(s),
        i < k < items.len(),
    ensures
        shuffled(s, items, i).0.len() == items.len(),
        shuffled(s, items, i).0[k] == items[k],
    decreases i,
{
    if i > 0 {
        law_bounded_draw(s, (i + 1) as int);
        let (j, t) = bounded(s, (i + 1) as int);
        lemma_shuffled_above(t, swapped(items, i as int, j), (i - 1) as nat, k);
    }
}

/// A shuffle draws the last entry among all that are left: it is the item at
/// a bounded draw, its place is filled by the last item, and the entries
/// before it are a shuffle of the rest with the state after the draw.
pub proof fn law_shuffle_draws_from_the_end(s: MtState, n: nat)
    requires
        valid_state(s),
        2 <= n <= u64::MAX,
    ensures
        ({
            let (j, t) = bounded(s, n as int);
            let rest = counting(n).update(j, (n - 1) as u64).update((n - 1) as int, j as u64);
            &&& permutation_of(s, n).0.len() == n
            &&& permutation_of(s, n).0[n - 1] == j
            &&& permutation_of(s, n) == shuffled(t, rest, (n - 2) as nat)
        }),
{
    let (j, t) = bounded(s, n as int);
    law_bounded_draw(s, n as int);
    let items = counting(n);
    let now = swapped(items, n - 1, j);
    let rest = items.update(j, (n - 1) as u64).update((n - 1) as int, j as u64);
    assert(now =~= rest);
    lemma_shuffled_above(t, now, (n - 2) as nat, n - 1);
}

} // verus!
