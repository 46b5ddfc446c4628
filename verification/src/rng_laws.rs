//! What the generator, the draws, the shuffle and the score are for.

use crate::rng::{
    advance, after_draw, after_shuffle_from, drawn, exchanged, in_place_count, index_seed,
    is_stuck, iterate, law_draws_end, law_stuck_is_isolated, mixed, ordered, output, rejections,
    rotated, seeded, settles_after, shuffled, shuffled_from, threshold, Words,
};
use vstd::prelude::*;

verus! {

/// The score of an array is the number of places that hold their own number.
pub proof fn law_score_is_the_number_of_fixed_points(arr: Seq<u8>)
    ensures
        Set::new(|i: int| 0 <= i < 25 && arr[i] == i + 1).finite(),
        in_place_count(arr, 25) == Set::new(|i: int| 0 <= i < 25 && arr[i] == i + 1).len(),
{
    lemma_fixed_points(arr, 25);
}

proof fn lemma_fixed_points(arr: Seq<u8>, n: nat)
    ensures
        Set::new(|i: int| 0 <= i < n && arr[i] == i + 1).finite(),
        in_place_count(arr, n) == Set::new(|i: int| 0 <= i < n && arr[i] == i + 1).len(),
    decreases n,
{
    let all = Set::new(|i: int| 0 <= i < n && arr[i] == i + 1);
    if n == 0 {
        assert(all =~= Set::empty());
    } else {
        let m = (n - 1) as nat;
        lemma_fixed_points(arr, m);
        let fewer = Set::new(|i: int| 0 <= i < m && arr[i] == i + 1);
        if arr[n - 1] == n {
            assert(all =~= fewer.insert(n - 1));
        } else {
            assert(all =~= fewer);
        }
    }
}

/// Putting one more number in its place raises the score by one.
pub proof fn law_one_more_in_place_scores_one_more(arr: Seq<u8>, i: int)
    requires
        arr.len() == 25,
        0 <= i < 25,
        arr[i] != i + 1,
    ensures
        in_place_count(arr.update(i, (i + 1) as u8), 25) == in_place_count(arr, 25) + 1,
{
    let better = arr.update(i, (i + 1) as u8);
    law_score_is_the_number_of_fixed_points(arr);
    law_score_is_the_number_of_fixed_points(better);
    let before = Set::new(|k: int| 0 <= k < 25 && arr[k] == k + 1);
    let after = Set::new(|k: int| 0 <= k < 25 && better[k] == k + 1);
    assert(after =~= before.insert(i));
}

/// The seeds of neighbouring indices lie one golden step apart, and the first
/// index has the seed of the job.
pub proof fn law_index_seeds_are_steps_apart(seed: u64, index: u64)
    ensures
        index_seed(seed, 0) == seed,
        index_seed(seed, index) == (seed + index * 0x9e37_79b9_7f4a_7c15) % 0x1_0000_0000_0000_0000,
{
    let g = 0x9e37_79b9_7f4a_7c15int;
    let m = 0x1_0000_0000_0000_0000int;
    vstd::arithmetic::div_mod::lemma_add_mod_noop(seed as int, index * g, m);
    vstd::arithmetic::div_mod::lemma_add_mod_noop(seed as int, (index * g) % m, m);
    vstd::arithmetic::div_mod::lemma_mod_twice(index * g, m);
    assert(seed as int % m == seed);
}

/// The halves of the second pair of words of an index are those of the first
/// pair of the next one.
pub proof fn law_neighbours_share_words(seed: u64, index: u64)
    ensures
        ({
            let here = seeded(seed, index);
            let next = seeded(seed, index.wrapping_add(1));
            here.c == next.a && here.d == next.b
        }),
{
    crate::rng::law_index_shift(seed, index, 1);
    let x = index_seed(seed, index);
    law_index_seeds_are_steps_apart(x, 1);
    assert(index_seed(x, 1).wrapping_add(crate::rng::GOLDEN) == x.wrapping_add(
        crate::rng::GOLDEN.wrapping_mul(2),
    ));
}

/// The first pair of words of a generator is the mixed seed of the step after
/// its index, low half first.
pub proof fn law_words_are_the_mixed_seed(seed: u64, index: u64)
    ensures
        ({
            let s = seeded(seed, index);
            let x = index_seed(seed, index);
            &&& s.a + 0x1_0000_0000 * s.b == mixed(
                ((x + 0x9e37_79b9_7f4a_7c15) % 0x1_0000_0000_0000_0000) as u64,
            )
            &&& s.c + 0x1_0000_0000 * s.d == mixed(
                ((x + 2 * 0x9e37_79b9_7f4a_7c15) % 0x1_0000_0000_0000_0000) as u64,
            )
        }),
{
    let x = index_seed(seed, index);
    let z1 = mixed(x.wrapping_add(crate::rng::GOLDEN));
    let z2 = mixed(x.wrapping_add(crate::rng::GOLDEN.wrapping_mul(2)));
    lemma_halves(z1);
    lemma_halves(z2);
    assert(x.wrapping_add(crate::rng::GOLDEN) == ((x + 0x9e37_79b9_7f4a_7c15)
        % 0x1_0000_0000_0000_0000) as u64);
    assert(x.wrapping_add(crate::rng::GOLDEN.wrapping_mul(2)) == ((x + 2 * 0x9e37_79b9_7f4a_7c15)
        % 0x1_0000_0000_0000_0000) as u64);
}

proof fn lemma_halves(z: u64)
    ensures
        (z as u32) + 0x1_0000_0000 * ((z >> 32) as u32) == z,
{
    assert((z as u32) + 0x1_0000_0000 * ((z >> 32) as u32) == z) by (bit_vector);
}

/// What undoes the mixing of a seed: the steps of it backwards, with the
/// inverses of its two factors.
pub open spec fn unmixed(z: u64) -> u64 {
    let x = z ^ (z >> 31) ^ (z >> 62);
    let v = x.wrapping_mul(0x3196_42b2_d24d_8ec3);
    let y = v ^ (v >> 27) ^ (v >> 54);
    let u = y.wrapping_mul(0x96de_1b17_3f11_9089);
    u ^ (u >> 30) ^ (u >> 60)
}

proof fn lemma_times_and_back(x: u64, a: u64, b: u64)
    requires
        (a * b) % 0x1_0000_0000_0000_0000 == 1,
    ensures
        x.wrapping_mul(a).wrapping_mul(b) == x,
{
    let m = 0x1_0000_0000_0000_0000int;
    vstd::arithmetic::div_mod::lemma_mul_mod_noop_left(x * a, b as int, m);
    vstd::arithmetic::mul::lemma_mul_is_associative(x as int, a as int, b as int);
    vstd::arithmetic::div_mod::lemma_mul_mod_noop_right(x as int, a * b, m);
    assert(x as int % m == x);
    assert(x.wrapping_mul(a) as int == (x * a) % m);
    assert(x.wrapping_mul(a).wrapping_mul(b) as int == (((x * a) % m) * b) % m);
    assert(x * ((a * b) % m) == x);
}

/// Mixing can be undone, so no two seeds are mixed to the same word.
pub proof fn law_mixing_is_undone(z: u64)
    ensures
        unmixed(mixed(z)) == z,
{
    let u = z ^ (z >> 30);
    let y = u.wrapping_mul(0xbf58_476d_1ce4_e5b9);
    let v = y ^ (y >> 27);
    let x = v.wrapping_mul(0x94d0_49bb_1331_11eb);
    let r = x ^ (x >> 31);
    assert(r == mixed(z));
    assert(r ^ (r >> 31) ^ (r >> 62) == x && v ^ (v >> 27) ^ (v >> 54) == y && u ^ (u >> 30) ^ (u
        >> 60) == z) by (bit_vector)
        requires
            r == x ^ (x >> 31),
            v == y ^ (y >> 27),
            u == z ^ (z >> 30),
    ;
    assert((0x94d0_49bb_1331_11ebint * 0x3196_42b2_d24d_8ec3int) % 0x1_0000_0000_0000_0000int == 1);
    assert((0xbf58_476d_1ce4_e5b9int * 0x96de_1b17_3f11_9089int) % 0x1_0000_0000_0000_0000int == 1);
    lemma_times_and_back(v, 0x94d0_49bb_1331_11eb, 0x3196_42b2_d24d_8ec3);
    lemma_times_and_back(u, 0xbf58_476d_1ce4_e5b9, 0x96de_1b17_3f11_9089);
}

/// An output and the first word of a generator give its last word back.
pub proof fn law_output_gives_the_last_word(s: Words)
    ensures
        rotated(output(s).wrapping_sub(s.a), 25).wrapping_sub(s.a) == s.d,
{
    let sum = s.a.wrapping_add(s.d);
    let turned = (sum << 7) | (sum >> 25);
    assert((turned << 25) | (turned >> 7) == sum) by (bit_vector)
        requires
            turned == (sum << 7) | (sum >> 25),
    ;
    assert(output(s) == turned.wrapping_add(s.a));
    assert(output(s).wrapping_sub(s.a) == turned);
}

proof fn lemma_iterate_first(s: Words, k: nat)
    ensures
        iterate(s, k + 1) == iterate(advance(s), k),
    decreases k,
{
    if k == 0 {
        reveal_with_fuel(iterate, 3);
    } else {
        lemma_iterate_first(s, (k - 1) as nat);
    }
}

/// A draw takes the remainder of the next output, unless that lies below the
/// remainder of 2^32; then it goes on with the output after it.
pub proof fn law_draw_takes_or_skips(s: Words, n: u32)
    requires
        !is_stuck(s),
        n > 0,
    ensures
        output(s) >= 0x1_0000_0000int % n as int ==> drawn(s, n) == output(s) as int % n as int
            && after_draw(s, n) == advance(s),
        output(s) < 0x1_0000_0000int % n as int ==> drawn(s, n) == drawn(advance(s), n)
            && after_draw(s, n) == after_draw(advance(s), n),
{
    law_draws_end(s, n);
    law_stuck_is_isolated(s, 1);
    reveal_with_fuel(iterate, 2);
    assert(iterate(s, 1) == advance(s));
    law_draws_end(advance(s), n);
    let k = rejections(s, n);
    assert(settles_after(s, n, k));
    let j = rejections(advance(s), n);
    assert(settles_after(advance(s), n, j));
    if output(s) >= threshold(n) {
        assert(crate::rng::accepts(s, n, 0));
        if k > 0 {
            assert(!crate::rng::accepts(s, n, 0));
        }
    } else {
        assert(!crate::rng::accepts(s, n, 0));
        assert(k > 0);
        lemma_iterate_first(s, (k - 1) as nat);
        lemma_iterate_first(s, j);
        lemma_iterate_first(s, j + 1);
        assert(crate::rng::accepts(s, n, j + 1));
        assert(crate::rng::accepts(advance(s), n, (k - 1) as nat));
        if k < j + 1 {
            assert(!crate::rng::accepts(advance(s), n, (k - 1) as nat));
        } else if k > j + 1 {
            assert(!crate::rng::accepts(s, n, j + 1));
        }
    }
}

/// A shuffle from a place on leaves what stands behind that place, and puts
/// there what stood at the drawn place.
pub proof fn law_shuffle_settles_places(arr: Seq<u8>, s: Words, i: nat, k: int)
    requires
        arr.len() == 25,
        i <= 24,
        i <= k < 25,
    ensures
        shuffled_from(arr, s, i).len() == 25,
        k > i ==> shuffled_from(arr, s, i)[k] == arr[k],
        k == i && i > 0 ==> shuffled_from(arr, s, i)[k] == arr[drawn(s, (i + 1) as u32) as int],
        i == 0 ==> shuffled_from(arr, s, i) == arr,
    decreases i,
{
    if i > 0 {
        let n = (i + 1) as u32;
        let j = drawn(s, n) as int;
        assert(0 <= j < n) by {
            let x = output(iterate(s, rejections(s, n)));
            assert(x % n < n) by (nonlinear_arith)
                requires
                    n > 0,
            ;
        }
        law_shuffle_settles_places(
            exchanged(arr, i as int, j),
            after_draw(s, n),
            (i - 1) as nat,
            k,
        );
    }
}

/// A shuffle starts from the numbers in order and draws a place for each from
/// the last one down: what stands in the last place of the result is one more
/// than the first number drawn.
pub proof fn law_shuffle_draws_the_last_place_first(s: Words)
    ensures
        shuffled(s).len() == 25,
        shuffled(s)[24] == drawn(s, 25) + 1,
        forall|i: int| 0 <= i < 25 ==> #[trigger] ordered()[i] == i + 1,
        ordered().len() == 25,
        after_shuffle_from(s, 24) == after_shuffle_from(after_draw(s, 25), 23),
{
    law_shuffle_settles_places(ordered(), s, 24, 24);
    let x = output(iterate(s, rejections(s, 25)));
    assert(drawn(s, 25) == x % 25);
}

/// A shuffle from a place on is one exchange, of that place with the one that is
/// drawn for it, followed by a shuffle from the place below with the generator
/// as the draw has left it.
pub proof fn law_shuffle_is_exchanges(arr: Seq<u8>, s: Words, i: nat)
    requires
        0 < i <= 24,
        arr.len() == 25,
    ensures
        ({
            let j = drawn(s, (i + 1) as u32) as int;
            let rest = after_draw(s, (i + 1) as u32);
            &&& shuffled_from(arr, s, i) == shuffled_from(
                arr.update(i as int, arr[j]).update(j, arr[i as int]),
                rest,
                (i - 1) as nat,
            )
            &&& after_shuffle_from(s, i) == after_shuffle_from(rest, (i - 1) as nat)
            &&& after_shuffle_from(s, 0) == s
        }),
{
}

/// Advancing a generator several times and then several times more is advancing
/// it as often as both together.
pub proof fn law_outputs_add_up(s: Words, m: nat, n: nat)
    ensures
        iterate(s, 0) == s,
        iterate(s, 1) == advance(s),
        iterate(iterate(s, m), n) == iterate(s, m + n),
    decreases n,
{
    reveal_with_fuel(iterate, 2);
    if n > 0 {
        law_outputs_add_up(s, m, (n - 1) as nat);
    }
}

/// Exchanging two items moves each to the place of the other and nothing else.
pub proof fn law_exchange(arr: Seq<u8>, i: int, j: int, k: int)
    requires
        0 <= i < arr.len(),
        0 <= j < arr.len(),
        0 <= k < arr.len(),
    ensures
        exchanged(arr, i, j).len() == arr.len(),
        exchanged(arr, i, j)[i] == arr[j],
        exchanged(arr, i, j)[j] == arr[i],
        k != i && k != j ==> exchanged(arr, i, j)[k] == arr[k],
{
}

} // verus!
