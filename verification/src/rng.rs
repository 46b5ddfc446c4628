//! Per-index independent random numbers.
//!
//! Every shuffle index derives its own seed, which two rounds of splitmix64
//! expand into the four words of a xoshiro128++ generator. A fresh array
//! `1..=25` is shuffled exactly once per index, so nothing carries over from
//! one index to the next.
//!
//! Bounded numbers are drawn by rejection sampling. The peer that checks the
//! shuffles repeats this very algorithm, so the accepted outputs and the
//! number of outputs spent on each draw are both part of the contract.

use crate::period::law_every_state_is_reached;
use crate::rng_laws::law_score_is_the_number_of_fixed_points;
use vstd::arithmetic::div_mod::lemma_add_mod_noop;
use vstd::arithmetic::div_mod::lemma_fundamental_div_mod;
use vstd::arithmetic::div_mod::lemma_mod_bound;
use vstd::arithmetic::div_mod::lemma_mul_mod_noop_left;
use vstd::arithmetic::mul::lemma_mul_is_distributive_add_other_way;
use vstd::prelude::*;

verus! {

/// Increment between the seeds of neighbouring indices.
pub const GOLDEN: u64 = 0x9e3779b97f4a7c15;

/// The four words of a xoshiro128++ generator.
pub struct Words {
    pub a: u32,
    pub b: u32,
    pub c: u32,
    pub d: u32,
}

/// Rotation of a 32-bit word to the left.
pub open spec fn rotated(x: u32, k: u32) -> u32 {
    (x << k) | (x >> ((32 - k) as u32))
}

/// The output that a generator in state `s` gives next.
pub open spec fn output(s: Words) -> u32 {
    rotated(s.a.wrapping_add(s.d), 7).wrapping_add(s.a)
}

/// The state that follows `s`.
pub open spec fn advance(s: Words) -> Words {
    let c = s.c ^ s.a;
    let d = s.d ^ s.b;
    Words { a: s.a ^ d, b: s.b ^ c, c: c ^ (s.b << 9), d: rotated(d, 11) }
}

/// The state after `k` outputs.
pub open spec fn iterate(s: Words, k: nat) -> Words
    decreases k,
{
    if k == 0 {
        s
    } else {
        advance(iterate(s, (k - 1) as nat))
    }
}

/// The finaliser of splitmix64.
pub open spec fn mixed(z: u64) -> u64 {
    let y = (z ^ (z >> 30)).wrapping_mul(0xbf58476d1ce4e5b9);
    let x = (y ^ (y >> 27)).wrapping_mul(0x94d049bb133111eb);
    x ^ (x >> 31)
}

/// The seed of shuffle index `index` under the job seed `seed`.
pub open spec fn index_seed(seed: u64, index: u64) -> u64 {
    seed.wrapping_add(index.wrapping_mul(GOLDEN))
}

/// The state of a fresh generator for `index` under `seed`.
pub open spec fn seeded(seed: u64, index: u64) -> Words {
    let z1 = mixed(index_seed(seed, index).wrapping_add(GOLDEN));
    let z2 = mixed(index_seed(seed, index).wrapping_add(GOLDEN.wrapping_mul(2)));
    Words { a: z1 as u32, b: (z1 >> 32) as u32, c: z2 as u32, d: (z2 >> 32) as u32 }
}

/// Outputs below this value are rejected when a number below `n` is drawn.
pub open spec fn threshold(n: u32) -> int {
    0x1_0000_0000int % (n as int)
}

/// Whether the output after `k` others is accepted.
pub open spec fn accepts(s: Words, n: u32, k: nat) -> bool {
    output(iterate(s, k)) >= threshold(n)
}

/// Whether exactly `k` outputs are rejected before one is accepted.
pub open spec fn settles_after(s: Words, n: u32, k: nat) -> bool {
    accepts(s, n, k) && forall|j: nat| j < k ==> !accepts(s, n, j)
}

/// Whether drawing a number below `n` ever ends.
pub open spec fn settles(s: Words, n: u32) -> bool {
    exists|k: nat| settles_after(s, n, k)
}

/// How many outputs are rejected by a draw.
pub open spec fn rejections(s: Words, n: u32) -> nat {
    choose|k: nat| settles_after(s, n, k)
}

/// The number that a draw below `n` gives.
pub open spec fn drawn(s: Words, n: u32) -> u32 {
    output(iterate(s, rejections(s, n))) % n
}

/// The state after a draw below `n`.
pub open spec fn after_draw(s: Words, n: u32) -> Words {
    iterate(s, rejections(s, n) + 1)
}

/// The array `1, 2, .., 25`.
pub open spec fn ordered() -> Seq<u8> {
    Seq::new(25, |i: int| (i + 1) as u8)
}

/// `arr` with the items at `i` and `j` exchanged.
pub open spec fn exchanged(arr: Seq<u8>, i: int, j: int) -> Seq<u8> {
    arr.update(i, arr[j]).update(j, arr[i])
}

/// Fisher-Yates from position `i` down to 1.
pub open spec fn shuffled_from(arr: Seq<u8>, s: Words, i: nat) -> Seq<u8>
    decreases i,
{
    if i == 0 {
        arr
    } else {
        let n = (i + 1) as u32;
        shuffled_from(
            exchanged(arr, i as int, drawn(s, n) as int),
            after_draw(s, n),
            (i - 1) as nat,
        )
    }
}

/// The state after a shuffle from position `i` down to 1.
pub open spec fn after_shuffle_from(s: Words, i: nat) -> Words
    decreases i,
{
    if i == 0 {
        s
    } else {
        after_shuffle_from(after_draw(s, (i + 1) as u32), (i - 1) as nat)
    }
}

/// The shuffle that a generator in state `s` makes.
pub open spec fn shuffled(s: Words) -> Seq<u8> {
    shuffled_from(ordered(), s, 24)
}

/// Whether position `i` of `arr` holds its own number.
pub open spec fn in_place(arr: Seq<u8>, i: int) -> bool {
    arr[i] == i + 1
}

/// How many of the first `n` positions of `arr` hold their own number.
pub open spec fn in_place_count(arr: Seq<u8>, n: nat) -> nat
    decreases n,
{
    if n == 0 {
        0
    } else {
        in_place_count(arr, (n - 1) as nat) + if in_place(arr, n - 1) {
            1nat
        } else {
            0nat
        }
    }
}

/// Whether `arr` holds each of `1..=25` exactly once.
pub open spec fn is_permutation(arr: Seq<u8>) -> bool {
    &&& arr.len() == 25
    &&& forall|i: int| 0 <= i < 25 ==> 1 <= #[trigger] arr[i] <= 25
    &&& forall|i: int, j: int| 0 <= i < j < 25 ==> arr[i] != arr[j]
    &&& forall|v: u8| 1 <= v <= 25 ==> #[trigger] arr.contains(v)
}

/// A random number generator that belongs to one shuffle index.
pub struct Rng {
    state: [u32; 4],
}

impl View for Rng {
    type V = Words;

    closed spec fn view(&self) -> Words {
        Words { a: self.state[0], b: self.state[1], c: self.state[2], d: self.state[3] }
    }
}

fn rotate_left(x: u32, k: u32) -> (r: u32)
    requires
        0 < k < 32,
    ensures
        r == rotated(x, k),
{
    (x << k) | (x >> (32 - k))
}

/// The finaliser of splitmix64.
pub fn splitmix64(z: u64) -> (r: u64)
    ensures
        r == mixed(z),
{
    let y = (z ^ (z >> 30)).wrapping_mul(0xbf58476d1ce4e5b9);
    let x = (y ^ (y >> 27)).wrapping_mul(0x94d049bb133111eb);
    x ^ (x >> 31)
}

impl Rng {
    #[verifier::type_invariant]
    spec fn is_live(self) -> bool {
        !is_stuck(self@)
    }

    /// The generator of shuffle index `index` under the job seed `seed`.
    pub fn new(seed: u64, index: u64) -> (r: Self)
        ensures
            r@ == seeded(seed, index),
    {
        let index_seed = seed.wrapping_add(index.wrapping_mul(GOLDEN));
        let z1 = splitmix64(index_seed.wrapping_add(GOLDEN));
        let z2 = splitmix64(index_seed.wrapping_add(GOLDEN.wrapping_mul(2)));
        proof {
            law_never_seeded_stuck(seed, index);
        }
        Rng {
            state: [
                #[verifier::truncate]
                (z1 as u32),
                #[verifier::truncate]
                ((z1 >> 32) as u32),
                #[verifier::truncate]
                (z2 as u32),
                #[verifier::truncate]
                ((z2 >> 32) as u32),
            ],
        }
    }

    /// The next output of xoshiro128++.
    pub fn next_u32(&mut self) -> (r: u32)
        ensures
            r == output(old(self)@),
            final(self)@ == advance(old(self)@),
    {
        proof {
            use_type_invariant(&*self);
            lemma_advance_stuck(self@.a, self@.b, self@.c, self@.d);
        }
        let a = self.state[0];
        let b = self.state[1];
        let result = rotate_left(a.wrapping_add(self.state[3]), 7).wrapping_add(a);
        let c = self.state[2] ^ a;
        let d = self.state[3] ^ b;
        *self = Rng { state: [a ^ d, b ^ c, c ^ (b << 9), rotate_left(d, 11)] };
        result
    }

    /// A number below `n`, drawn by rejection sampling.
    ///
    /// Outputs are discarded until one reaches the threshold. One does: the
    /// generator runs through every state, see `law_draws_end`.
    pub fn next_bounded(&mut self, n: u32) -> (r: u32)
        requires
            n > 0,
        ensures
            r == drawn(old(self)@, n),
            r < n,
            final(self)@ == after_draw(old(self)@, n),
    {
        proof {
            use_type_invariant(&*self);
            law_draws_end(self@, n);
        }
        let threshold = draw_threshold(n);
        let ghost start = self@;
        let ghost total = rejections(start, n);
        let ghost mut spent: nat = 0;
        loop
            invariant
                n > 0,
                start == old(self)@,
                threshold == self::threshold(n),
                settles(start, n),
                total == rejections(start, n),
                spent <= total,
                self@ == iterate(start, spent),
            decreases total - spent,
        {
            let val = self.next_u32();
            proof {
                assert(settles_after(start, n, total));
                assert(iterate(start, spent + 1) == advance(iterate(start, spent)));
            }
            if val >= threshold {
                proof {
                    assert(accepts(start, n, spent));
                    lemma_remainder_below(val, n);
                }
                return val % n;
            }
            proof {
                assert(!accepts(start, n, spent));
                spent = spent + 1;
            }
        }
    }

    /// The array `1..=25` shuffled by Fisher-Yates.
    pub fn shuffle(&mut self) -> (r: [u8; 25])
        ensures
            r@ == shuffled(old(self)@),
            is_permutation(r@),
            final(self)@ == after_shuffle_from(old(self)@, 24),
    {
        let mut arr = init_arr();
        let ghost start = self@;
        let mut i: usize = 24;
        while i > 0
            invariant
                i <= 24,
                start == old(self)@,
                is_permutation(arr@),
                shuffled_from(arr@, self@, i as nat) == shuffled(start),
                after_shuffle_from(self@, i as nat) == after_shuffle_from(start, 24),
            decreases i,
        {
            let j = self.next_bounded(i as u32 + 1) as usize;
            let ghost before = arr@;
            let item = arr[i];
            arr[i] = arr[j];
            arr[j] = item;
            proof {
                assert(arr@ =~= exchanged(before, i as int, j as int));
                lemma_exchange_permutes(before, i as int, j as int);
            }
            i = i - 1;
        }
        arr
    }

}

/// The first output that is accepted when a number below `n` is drawn.
fn draw_threshold(n: u32) -> (r: u32)
    requires
        n > 0,
    ensures
        r == threshold(n),
        r < n,
{
    let r: u64 = 0x1_0000_0000u64 % (n as u64);
    r as u32
}

/// The array `1, 2, .., 25`.
pub fn init_arr() -> (r: [u8; 25])
    ensures
        r@ == ordered(),
        forall|i: int| 0 <= i < 25 ==> #[trigger] r@[i] == i + 1,
        is_permutation(r@),
{
    let mut arr = [0u8; 25];
    let mut i: usize = 0;
    while i < 25
        invariant
            i <= 25,
            forall|k: int| 0 <= k < i ==> #[trigger] arr@[k] == k + 1,
        decreases 25 - i,
    {
        arr[i] = (i + 1) as u8;
        i = i + 1;
    }
    proof {
        assert(arr@ =~= ordered());
        lemma_ordered_permutation();
    }
    arr
}

/// Whether position `i` of `arr` holds its own number.
pub fn is_in_place(arr: &[u8; 25], i: usize) -> (r: bool)
    requires
        i < 25,
    ensures
        r == in_place(arr@, i as int),
        r == (arr@[i as int] == i + 1),
{
    arr[i] == (i + 1) as u8
}

/// How many positions of `arr` hold their own number.
pub fn count_fixed_points(arr: &[u8; 25]) -> (r: u32)
    ensures
        r == in_place_count(arr@, 25),
        r == Set::new(|i: int| 0 <= i < 25 && arr@[i] == i + 1).len(),
        r <= 25,
{
    proof {
        law_score_is_the_number_of_fixed_points(arr@);
    }
    let mut count: u32 = 0;
    let mut i: usize = 0;
    while i < 25
        invariant
            i <= 25,
            count <= i,
            count == in_place_count(arr@, i as nat),
        decreases 25 - i,
    {
        if is_in_place(arr, i) {
            count = count + 1;
        }
        i = i + 1;
    }
    count
}

proof fn lemma_remainder_below(val: u32, n: u32)
    requires
        n > 0,
    ensures
        val % n < n,
{
    assert(val % n < n) by (nonlinear_arith)
        requires
            n > 0,
    ;
}

proof fn lemma_ordered_permutation()
    ensures
        is_permutation(ordered()),
{
    assert forall|v: u8| 1 <= v <= 25 implies #[trigger] ordered().contains(v) by {
        assert(ordered()[v - 1] == v);
    }
}

proof fn lemma_exchange_permutes(arr: Seq<u8>, i: int, j: int)
    requires
        is_permutation(arr),
        0 <= i < 25,
        0 <= j < 25,
    ensures
        is_permutation(exchanged(arr, i, j)),
{
    let new = exchanged(arr, i, j);
    assert forall|v: u8| 1 <= v <= 25 implies #[trigger] new.contains(v) by {
        let k = arr.index_of(v);
        assert(arr.contains(v));
        let at = if k == i {
            j
        } else if k == j {
            i
        } else {
            k
        };
        assert(new[at] == v);
    }
}

/// Adding to the index is the same as starting from the seed of the earlier
/// index: the numbering of shuffles carries no state of its own.
#[verifier::spinoff_prover]
pub proof fn law_index_shift(seed: u64, i: u64, j: u64)
    ensures
        index_seed(seed, i.wrapping_add(j)) == index_seed(index_seed(seed, i), j),
        seeded(seed, i.wrapping_add(j)) == seeded(index_seed(seed, i), j),
{
    let m: int = 0x1_0000_0000_0000_0000;
    let g = GOLDEN as int;
    lemma_mul_mod_noop_left(i + j, g, m);
    lemma_mul_is_distributive_add_other_way(g, i as int, j as int);
    assert(i.wrapping_add(j) as int == (i + j) % m) by {
        lemma_wrapped_sum(i, j);
    }
    let pi = i.wrapping_mul(GOLDEN);
    let pj = j.wrapping_mul(GOLDEN);
    let pij = i.wrapping_add(j).wrapping_mul(GOLDEN);
    assert(pi as int == (i * g) % m);
    assert(pj as int == (j * g) % m);
    assert(pij as int == (i * g + j * g) % m);
    lemma_add_mod_noop(i * g, j * g, m);
    assert(pij as int == (pi + pj) % m);
    lemma_wrapped_sum(seed, pij);
    lemma_wrapped_sum(seed, pi);
    lemma_wrapped_sum(seed.wrapping_add(pi), pj);
    lemma_add_mod_noop(seed as int, pi + pj, m);
    lemma_add_mod_noop(seed + pi, pj as int, m);
    assert(seed as int % m == seed);
    assert(pij as int % m == pij);
    assert(pj as int % m == pj);
}

proof fn lemma_wrapped_sum(x: u64, y: u64)
    ensures
        x.wrapping_add(y) as int == (x + y) % 0x1_0000_0000_0000_0000,
{
}

/// The accepted outputs are a whole number of rounds of `n` consecutive
/// values, so no remainder is favoured over another.
pub proof fn law_draw_is_even(n: u32)
    requires
        n > 0,
    ensures
        0 <= threshold(n) < n,
        0x1_0000_0000 - threshold(n) == n * (0x1_0000_0000int / (n as int)),
{
    lemma_mod_bound(0x1_0000_0000, n as int);
    lemma_fundamental_div_mod(0x1_0000_0000, n as int);
}

/// Whether a generator is stuck: from all-zero words every output is zero.
pub open spec fn is_stuck(s: Words) -> bool {
    s.a == 0 && s.b == 0 && s.c == 0 && s.d == 0
}

/// A stuck generator stays stuck, and no other generator becomes stuck.
pub proof fn law_stuck_is_isolated(s: Words, k: nat)
    ensures
        is_stuck(iterate(s, k)) <==> is_stuck(s),
    decreases k,
{
    if k > 0 {
        law_stuck_is_isolated(s, (k - 1) as nat);
        let p = iterate(s, (k - 1) as nat);
        lemma_advance_stuck(p.a, p.b, p.c, p.d);
    }
}

proof fn lemma_advance_stuck(a: u32, b: u32, c: u32, d: u32)
    ensures
        is_stuck(advance(Words { a, b, c, d })) <==> is_stuck(Words { a, b, c, d }),
{
    assert((a ^ (d ^ b) == 0 && b ^ (c ^ a) == 0 && (c ^ a) ^ (b << 9) == 0 && ((d ^ b) << 11) | ((d
        ^ b) >> 21) == 0) <==> (a == 0 && b == 0 && c == 0 && d == 0)) by (bit_vector);
}

/// No seed and index give a stuck generator.
pub proof fn law_never_seeded_stuck(seed: u64, index: u64)
    ensures
        !is_stuck(seeded(seed, index)),
{
    let base = index_seed(seed, index);
    let x1 = base.wrapping_add(GOLDEN);
    let x2 = base.wrapping_add(GOLDEN.wrapping_mul(2));
    let z1 = mixed(x1);
    let z2 = mixed(x2);
    if is_stuck(seeded(seed, index)) {
        assert(z1 == 0) by (bit_vector)
            requires
                z1 as u32 == 0,
                (z1 >> 32) as u32 == 0,
        ;
        assert(z2 == 0) by (bit_vector)
            requires
                z2 as u32 == 0,
                (z2 >> 32) as u32 == 0,
        ;
        lemma_mixed_zero(x1);
        lemma_mixed_zero(x2);
        assert(x1 != x2);
    }
}

/// Every draw ends, and so every shuffle does: sooner or later the generator
/// comes to a state whose output no draw rejects.
pub proof fn law_draws_end(s: Words, n: u32)
    requires
        !is_stuck(s),
        n > 0,
    ensures
        settles(s, n),
{
    let top = Words { a: 0, b: 0, c: 0, d: 0xffff_ffff };
    law_every_state_is_reached(s, top);
    let k = choose|k: nat| #[trigger] iterate(s, k) == top;
    let word = 0u32.wrapping_add(0xffff_ffff);
    assert(word == 0xffff_ffffu32);
    assert((word << 7) | (word >> 25) == 0xffff_ffffu32) by (bit_vector)
        requires
            word == 0xffff_ffffu32,
    ;
    assert(output(top) == 0xffff_ffffu32);
    lemma_mod_bound(0x1_0000_0000, n as int);
    assert(accepts(s, n, k));
    lemma_first_accepted(s, n, k);
}

proof fn lemma_first_accepted(s: Words, n: u32, k: nat)
    requires
        accepts(s, n, k),
    ensures
        settles(s, n),
    decreases k,
{
    if forall|j: nat| j < k ==> !accepts(s, n, j) {
        assert(settles_after(s, n, k));
    } else {
        let j = choose|j: nat| j < k && accepts(s, n, j);
        lemma_first_accepted(s, n, j);
    }
}

proof fn lemma_mixed_zero(z: u64)
    ensures
        mixed(z) == 0 ==> z == 0,
{
    let u = z ^ (z >> 30);
    let y = u.wrapping_mul(0xbf58476d1ce4e5b9);
    let v = y ^ (y >> 27);
    let x = v.wrapping_mul(0x94d049bb133111eb);
    if mixed(z) == 0 {
        assert(x == 0) by (bit_vector)
            requires
                x ^ (x >> 31) == 0,
        ;
        assert(v == 0) by (bit_vector)
            requires
                (v * 0x94d049bb133111ebu64) % 0x1_0000_0000_0000_0000int == 0,
        ;
        assert(y == 0) by (bit_vector)
            requires
                y ^ (y >> 27) == 0,
        ;
        assert(u == 0) by (bit_vector)
            requires
                (u * 0xbf58476d1ce4e5b9u64) % 0x1_0000_0000_0000_0000int == 0,
        ;
        assert(z == 0) by (bit_vector)
            requires
                z ^ (z >> 30) == 0,
        ;
    }
}

/// Every number of `1..=25` has exactly one place in a shuffle.
pub proof fn law_shuffle_permutes(s: Words)
    ensures
        is_permutation(shuffled(s)),
{
    lemma_ordered_permutation();
    lemma_shuffled_from_permutes(ordered(), s, 24);
}

proof fn lemma_shuffled_from_permutes(arr: Seq<u8>, s: Words, i: nat)
    requires
        i <= 24,
        is_permutation(arr),
    ensures
        is_permutation(shuffled_from(arr, s, i)),
    decreases i,
{
    if i > 0 {
        let n = (i + 1) as u32;
        lemma_remainder_below(output(iterate(s, rejections(s, n))), n);
        lemma_exchange_permutes(arr, i as int, drawn(s, n) as int);
        lemma_shuffled_from_permutes(
            exchanged(arr, i as int, drawn(s, n) as int),
            after_draw(s, n),
            (i - 1) as nat,
        );
    }
}

/// A shuffle scores 25 only in perfect order, and never scores 24: the last
/// number has no place left but its own.
pub proof fn law_no_near_miss(arr: Seq<u8>)
    requires
        is_permutation(arr),
    ensures
        in_place_count(arr, 25) <= 25,
        in_place_count(arr, 25) != 24,
        in_place_count(arr, 25) == 25 <==> arr == ordered(),
{
    lemma_in_place_count(arr, 25);
    if in_place_count(arr, 25) == 24 {
        let p = choose|p: int|
            0 <= p < 25 && !in_place(arr, p) && forall|q: int|
                0 <= q < 25 && q != p ==> in_place(arr, q);
        let home = arr[p] - 1;
        assert(in_place(arr, home));
        assert(arr[home] == arr[p]);
    }
    if in_place_count(arr, 25) == 25 {
        assert forall|q: int| 0 <= q < 25 implies arr[q] == #[trigger] ordered()[q] by {
            assert(in_place(arr, q));
        }
        assert(arr =~= ordered());
    }
    if arr == ordered() {
        assert forall|q: int| 0 <= q < 25 implies in_place(arr, q) by {
            assert(arr[q] == ordered()[q]);
        }
    }
}

pub(crate) proof fn lemma_in_place_count(arr: Seq<u8>, n: nat)
    ensures
        in_place_count(arr, n) <= n,
        in_place_count(arr, n) == n <==> forall|q: int| 0 <= q < n ==> in_place(arr, q),
        in_place_count(arr, n) + 1 == n ==> exists|p: int|
            0 <= p < n && !in_place(arr, p) && forall|q: int|
                0 <= q < n && q != p ==> in_place(arr, q),
    decreases n,
{
    if n > 0 {
        let m = (n - 1) as nat;
        lemma_in_place_count(arr, m);
        if in_place(arr, n - 1) {
            if in_place_count(arr, m) + 1 == m {
                let p = choose|p: int|
                    0 <= p < m && !in_place(arr, p) && forall|q: int|
                        0 <= q < m && q != p ==> in_place(arr, q);
                assert(0 <= p < n && !in_place(arr, p) && forall|q: int|
                    0 <= q < n && q != p ==> in_place(arr, q));
            }
        } else {
            assert(0 <= n - 1 < n && !in_place(arr, n - 1));
        }
    }
}

} // verus!
