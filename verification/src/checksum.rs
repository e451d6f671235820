//! The RFC 1071 Internet checksum: the ones' complement of the
//! ones'-complement sum of a buffer read as big-endian 16-bit words.

use vstd::prelude::*;
use vstd::arithmetic::div_mod::{
    lemma_fundamental_div_mod, lemma_mod_division_less_than_divisor, lemma_mod_multiples_vanish,
    lemma_mod_self_0, lemma_small_mod,
};

verus! {

/// The big-endian 16-bit word at word index `i` of `b`; an odd buffer is
/// padded with a trailing zero byte.
pub open spec fn word_at(b: Seq<u8>, i: int) -> int {
    if 2 * i + 1 < b.len() {
        (b[2 * i] as int) * 256 + (b[2 * i + 1] as int)
    } else {
        (b[2 * i] as int) * 256
    }
}

/// How many 16-bit words `b` holds; an odd trailing byte counts as one word.
pub open spec fn num_words(b: Seq<u8>) -> int {
    (b.len() as int + 1) / 2
}

/// The plain sum of the first `n` words of `b`.
pub open spec fn sum_words(b: Seq<u8>, n: int) -> int
    decreases n,
{
    if n <= 0 {
        0
    } else {
        sum_words(b, n - 1) + word_at(b, n - 1)
    }
}

/// Ones'-complement folding of a non-negative sum into 16 bits: the result
/// is congruent to `n` modulo 0xFFFF, lies in 0..=0xFFFF, and is zero only
/// when `n` itself is zero.
pub open spec fn oc_fold(n: int) -> int {
    if n % 0xFFFF == 0 {
        if n == 0 {
            0
        } else {
            0xFFFF
        }
    } else {
        n % 0xFFFF
    }
}

/// The Internet checksum of `b`.
pub open spec fn checksum_spec(b: Seq<u8>) -> u16 {
    (0xFFFF - oc_fold(sum_words(b, num_words(b)))) as u16
}

proof fn lemma_sum_words_bounds(b: Seq<u8>, n: int)
    requires
        0 <= n <= num_words(b),
    ensures
        0 <= sum_words(b, n) <= n * 0xFFFF,
    decreases n,
{
    if n > 0 {
        lemma_sum_words_bounds(b, n - 1);
        assert(0 <= word_at(b, n - 1) <= 0xFFFF);
    }
}

proof fn lemma_oc_fold_range(n: int)
    requires
        n >= 0,
    ensures
        0 <= oc_fold(n) <= 0xFFFF,
        oc_fold(n) == 0 <==> n == 0,
{
    lemma_mod_division_less_than_divisor(n, 0xFFFF);
    if n == 0 {
        lemma_small_mod(0, 0xFFFF);
    }
}

/// Folding distributes over adding one more 16-bit word: the ones'-complement
/// sum can be maintained with a single end-around carry per step.
proof fn lemma_oc_fold_add(p: int, w: int)
    requires
        p >= 0,
        0 <= w <= 0xFFFF,
    ensures
        oc_fold(p + w) == if oc_fold(p) + w > 0xFFFF {
            oc_fold(p) + w - 0xFFFF
        } else {
            oc_fold(p) + w
        },
{
    lemma_mod_division_less_than_divisor(p, 0xFFFF);
    lemma_mod_division_less_than_divisor(p + w, 0xFFFF);
    lemma_fundamental_div_mod(p, 0xFFFF);
    assert(p + w == 0xFFFF * (p / 0xFFFF) + (p % 0xFFFF + w));
    lemma_mod_multiples_vanish(p / 0xFFFF, p % 0xFFFF + w, 0xFFFF);
    assert((p + w) % 0xFFFF == (p % 0xFFFF + w) % 0xFFFF);
    let pm = p % 0xFFFF;
    // p is no smaller than its remainder
    assert(0xFFFF * (p / 0xFFFF) >= 0);
    if pm + w < 0xFFFF {
        lemma_small_mod((pm + w) as nat, 0xFFFF);
    } else if pm + w == 0xFFFF {
        lemma_mod_self_0(0xFFFF);
    } else {
        assert(0xFFFF * 1 + (pm + w - 0xFFFF) == pm + w);
        lemma_mod_multiples_vanish(1, pm + w - 0xFFFF, 0xFFFF);
        lemma_small_mod((pm + w - 0xFFFF) as nat, 0xFFFF);
    }
}

/// Replacing the two bytes of word `k` (a full, in-range word) changes the
/// word sum by exactly the difference of that word.
proof fn lemma_sum_words_update2(b: Seq<u8>, k: int, hi: u8, lo: u8, n: int)
    requires
        0 <= k,
        2 * k + 1 < b.len(),
        0 <= n <= num_words(b),
    ensures
        sum_words(b.update(2 * k, hi).update(2 * k + 1, lo), n) == sum_words(b, n) + if k < n {
            (hi as int) * 256 + (lo as int) - word_at(b, k)
        } else {
            0
        },
    decreases n,
{
    let b1 = b.update(2 * k, hi).update(2 * k + 1, lo);
    if n > 0 {
        lemma_sum_words_update2(b, k, hi, lo, n - 1);
        if n - 1 == k {
            assert(word_at(b1, k) == (hi as int) * 256 + (lo as int));
        } else {
            assert(b1[2 * (n - 1)] == b[2 * (n - 1)]);
            if 2 * (n - 1) + 1 < b.len() {
                assert(b1[2 * (n - 1) + 1] == b[2 * (n - 1) + 1]);
            }
            assert(word_at(b1, n - 1) == word_at(b, n - 1));
        }
    }
}

/// The checksum is self-verifying: take a buffer whose 16-bit checksum field
/// (word `k`, stored big-endian) holds zero, compute its checksum, and write
/// that value into the field; the checksum of the resulting buffer is zero.
pub proof fn lemma_checksum_self_verifying(b: Seq<u8>, k: int)
    requires
        0 <= k,
        2 * k + 1 < b.len(),
        b[2 * k] == 0,
        b[2 * k + 1] == 0,
    ensures
        ({
            let c = checksum_spec(b);
            checksum_spec(b.update(2 * k, (c / 256) as u8).update(2 * k + 1, (c % 256) as u8))
                == 0
        }),
{
    let n = num_words(b);
    let s = sum_words(b, n);
    lemma_sum_words_bounds(b, n);
    lemma_oc_fold_range(s);
    let f = oc_fold(s);
    let c = checksum_spec(b);
    assert(c == 0xFFFF - f);
    let hi = (c / 256) as u8;
    let lo = (c % 256) as u8;
    assert((hi as int) * 256 + (lo as int) == c as int);
    let b1 = b.update(2 * k, hi).update(2 * k + 1, lo);
    lemma_sum_words_update2(b, k, hi, lo, n);
    assert(word_at(b, k) == 0);
    assert(k < n);
    assert(num_words(b1) == n);
    assert(sum_words(b1, n) == s + c);
    lemma_oc_fold_add(s, c as int);
    assert(oc_fold(s + c) == 0xFFFF);
}

/// Computes the RFC 1071 Internet checksum of `bytes`.
pub fn checksum(bytes: &[u8]) -> (r: u16)
    ensures
        r == checksum_spec(bytes@),
{
    let len: usize = bytes.len();
    let nw: usize = len / 2 + len % 2;
    let mut sum: u32 = 0;
    let mut i: usize = 0;
    proof {
        lemma_oc_fold_range(0);
    }
    while i < nw
        invariant
            len == bytes@.len(),
            nw == num_words(bytes@),
            0 <= i <= nw,
            sum == oc_fold(sum_words(bytes@, i as int)),
            0 <= sum <= 0xFFFF,
        decreases nw - i,
    {
        let hi: u32 = bytes[2 * i] as u32;
        let lo: u32 = if 2 * i + 1 < len {
            bytes[2 * i + 1] as u32
        } else {
            0
        };
        let w: u32 = hi * 256 + lo;
        proof {
            lemma_sum_words_bounds(bytes@, i as int);
            assert(w == word_at(bytes@, i as int));
            lemma_oc_fold_add(sum_words(bytes@, i as int), w as int);
            lemma_oc_fold_range(sum_words(bytes@, i as int) + w);
        }
        sum = sum + w;
        if sum > 0xFFFF {
            sum = sum - 0xFFFF;
        }
        i = i + 1;
    }
    let folded: u16 = sum as u16;
    let r: u16 = !folded;
    proof {
        assert(r == 0xFFFF - folded) by (bit_vector)
            requires
                r == !folded,
        ;
    }
    r
}

} // verus!
