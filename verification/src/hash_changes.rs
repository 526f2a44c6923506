//! Changes of a hashed word that the content hash tells apart, and one that it does not.
//!
//! Counting a word up by one always shows, however far it carries. Two words that
//! differ in all their bytes need not show: two such words are given here.

use vstd::prelude::*;

use crate::content_hash::{
    alike_but_four, close_words, fnv_from, fnv_step, lemma_equal_bytes_keep_hashes_apart, lemma_exchanged_word_is_detected,
    lemma_hash_of_parts, u32_bytes, u64_bytes, FNV_OFFSET,
};

verus! {

/// One step on the low three bytes of the hash.
pub open spec fn low_step(low: u64, byte: u8) -> u64 {
    ((low ^ (byte as u64)) * 435 % 0x100_0000) as u64
}

/// Several steps on the low three bytes.
pub open spec fn low_from(low: u64, bytes: Seq<u8>) -> u64
    decreases bytes.len(),
{
    if bytes.len() == 0 {
        low
    } else {
        low_step(low_from(low, bytes.drop_last()), bytes.last())
    }
}

/// What the bytes above the lowest one contribute after `n` steps.
spec fn carried(high: int, n: nat) -> int
    decreases n,
{
    if n == 0 {
        high
    } else {
        435 * carried(high, (n - 1) as nat)
    }
}

proof fn lemma_carried_is_a_multiple(high: int, n: nat)
    requires
        high % 256 == 0,
    ensures
        carried(high, n) % 256 == 0,
    decreases n,
{
    if n > 0 {
        lemma_carried_is_a_multiple(high, (n - 1) as nat);
    }
}

/// A byte reaches the lowest byte of the hash only.
proof fn lemma_byte_reaches_the_lowest(hash: u64, byte: u8)
    ensures
        hash ^ (byte as u64) == hash - hash % 256 + ((hash % 256) as u64 ^ (byte as u64)),
{
    let b = byte as u64;
    let l = (hash % 256) as u64;
    assert(b < 256 && l == hash % 256 ==> hash ^ b == hash - hash % 256 + (l ^ b)) by (bit_vector);
}

/// One step, up to multiples of two to the twenty-fourth.
proof fn lemma_step_modulo(hash: u64, byte: u8) -> (wraps: int)
    ensures
        fnv_step(hash, byte) == 435 * ((hash ^ (byte as u64)) as int) + 0x100_0000 * wraps,
{
    let x = (hash ^ (byte as u64)) as int;
    let product = x * 0x100_0000_01b3;
    vstd::arithmetic::div_mod::lemma_fundamental_div_mod(product, 0x1_0000_0000_0000_0000);
    let q = product / 0x1_0000_0000_0000_0000;
    0x1_0000 * x - 0x100_0000_0000 * q
}

/// One step keeps what two hashes share.
proof fn lemma_low_step_follows(hash: u64, low: u64, share: int, wraps: int, byte: u8) -> (more: int)
    requires
        hash == low + share + 0x100_0000 * wraps,
        share % 256 == 0,
    ensures
        fnv_step(hash, byte) == low_step(low, byte) + 435 * share + 0x100_0000 * more,
{
    assert(hash % 256 == low % 256);
    lemma_byte_reaches_the_lowest(hash, byte);
    lemma_byte_reaches_the_lowest(low, byte);
    let x = (hash ^ (byte as u64)) as int;
    let y = (low ^ (byte as u64)) as int;
    assert(x - y == hash - low);
    let v = lemma_step_modulo(hash, byte);
    vstd::arithmetic::div_mod::lemma_fundamental_div_mod(y * 435, 0x100_0000);
    let q = (y * 435) / 0x100_0000;
    435 * wraps + v + q
}

/// The low three bytes of a hash that starts from any value follow from its lowest
/// byte, up to a share that does not depend on what is hashed.
#[verifier::spinoff_prover]
#[verifier::rlimit(80)]
proof fn lemma_low_bytes_follow(start: u64, bytes: Seq<u8>) -> (wraps: int)
    ensures
        fnv_from(start, bytes) == low_from((start % 256) as u64, bytes) + carried(
            start - start % 256,
            bytes.len(),
        ) + 0x100_0000 * wraps,
    decreases bytes.len(),
{
    let low = (start % 256) as u64;
    let high = start - start % 256;
    if bytes.len() == 0 {
        0
    } else {
        let before = bytes.drop_last();
        let byte = bytes.last();
        let w = lemma_low_bytes_follow(start, before);
        lemma_carried_is_a_multiple(high, before.len());
        lemma_low_step_follows(
            fnv_from(start, before),
            low_from(low, before),
            carried(high, before.len()),
            w,
            byte,
        )
    }
}

/// Hashes whose low three bytes part ways are apart.
proof fn lemma_low_bytes_tell_apart(start: u64, left: Seq<u8>, right: Seq<u8>)
    requires
        left.len() == right.len() > 0,
        low_from((start % 256) as u64, left) != low_from((start % 256) as u64, right),
    ensures
        fnv_from(start, left) != fnv_from(start, right),
{
    let a = lemma_low_bytes_follow(start, left);
    let b = lemma_low_bytes_follow(start, right);
    let x = low_from((start % 256) as u64, left);
    let y = low_from((start % 256) as u64, right);
    assert(x < 0x100_0000 && y < 0x100_0000);
    if fnv_from(start, left) == fnv_from(start, right) {
        assert(x - y == 0x100_0000 * (b - a));
    }
}

/// A carry out of four bytes shows in the low three bytes of the hash.
proof fn lemma_carry_out_of_four(l: u64, x: u64, a1: u64, b1: u64, a2: u64, b2: u64, a3: u64, b3: u64, a4: u64, b4: u64)
    by (bit_vector)
    requires
        l < 256,
        x < 255,
        a1 == ((l ^ 0xff) * 435) % 0x100_0000,
        b1 == (l * 435) % 0x100_0000,
        a2 == ((a1 ^ 0xff) * 435) % 0x100_0000,
        b2 == (b1 * 435) % 0x100_0000,
        a3 == ((a2 ^ 0xff) * 435) % 0x100_0000,
        b3 == (b2 * 435) % 0x100_0000,
        a4 == ((a3 ^ 0xff) * 435) % 0x100_0000,
        b4 == (b3 * 435) % 0x100_0000,
    ensures
        ((a4 ^ x) * 435) % 0x100_0000 != ((b4 ^ ((x + 1) as u64)) * 435) % 0x100_0000,
{
}

/// A carry out of five bytes shows in the low three bytes of the hash.
proof fn lemma_carry_out_of_five(l: u64, x: u64, a1: u64, b1: u64, a2: u64, b2: u64, a3: u64, b3: u64, a4: u64, b4: u64, a5: u64, b5: u64)
    by (bit_vector)
    requires
        l < 256,
        x < 255,
        a1 == ((l ^ 0xff) * 435) % 0x100_0000,
        b1 == (l * 435) % 0x100_0000,
        a2 == ((a1 ^ 0xff) * 435) % 0x100_0000,
        b2 == (b1 * 435) % 0x100_0000,
        a3 == ((a2 ^ 0xff) * 435) % 0x100_0000,
        b3 == (b2 * 435) % 0x100_0000,
        a4 == ((a3 ^ 0xff) * 435) % 0x100_0000,
        b4 == (b3 * 435) % 0x100_0000,
        a5 == ((a4 ^ 0xff) * 435) % 0x100_0000,
        b5 == (b4 * 435) % 0x100_0000,
    ensures
        ((a5 ^ x) * 435) % 0x100_0000 != ((b5 ^ ((x + 1) as u64)) * 435) % 0x100_0000,
{
}

/// A carry out of six bytes shows in the low three bytes of the hash.
proof fn lemma_carry_out_of_six(l: u64, x: u64, a1: u64, b1: u64, a2: u64, b2: u64, a3: u64, b3: u64, a4: u64, b4: u64, a5: u64, b5: u64, a6: u64, b6: u64)
    by (bit_vector)
    requires
        l < 256,
        x < 255,
        a1 == ((l ^ 0xff) * 435) % 0x100_0000,
        b1 == (l * 435) % 0x100_0000,
        a2 == ((a1 ^ 0xff) * 435) % 0x100_0000,
        b2 == (b1 * 435) % 0x100_0000,
        a3 == ((a2 ^ 0xff) * 435) % 0x100_0000,
        b3 == (b2 * 435) % 0x100_0000,
        a4 == ((a3 ^ 0xff) * 435) % 0x100_0000,
        b4 == (b3 * 435) % 0x100_0000,
        a5 == ((a4 ^ 0xff) * 435) % 0x100_0000,
        b5 == (b4 * 435) % 0x100_0000,
        a6 == ((a5 ^ 0xff) * 435) % 0x100_0000,
        b6 == (b5 * 435) % 0x100_0000,
    ensures
        ((a6 ^ x) * 435) % 0x100_0000 != ((b6 ^ ((x + 1) as u64)) * 435) % 0x100_0000,
{
}

/// A carry out of seven bytes shows in the low three bytes of the hash.
proof fn lemma_carry_out_of_seven(l: u64, x: u64, a1: u64, b1: u64, a2: u64, b2: u64, a3: u64, b3: u64, a4: u64, b4: u64, a5: u64, b5: u64, a6: u64, b6: u64, a7: u64, b7: u64)
    by (bit_vector)
    requires
        l < 256,
        x < 255,
        a1 == ((l ^ 0xff) * 435) % 0x100_0000,
        b1 == (l * 435) % 0x100_0000,
        a2 == ((a1 ^ 0xff) * 435) % 0x100_0000,
        b2 == (b1 * 435) % 0x100_0000,
        a3 == ((a2 ^ 0xff) * 435) % 0x100_0000,
        b3 == (b2 * 435) % 0x100_0000,
        a4 == ((a3 ^ 0xff) * 435) % 0x100_0000,
        b4 == (b3 * 435) % 0x100_0000,
        a5 == ((a4 ^ 0xff) * 435) % 0x100_0000,
        b5 == (b4 * 435) % 0x100_0000,
        a6 == ((a5 ^ 0xff) * 435) % 0x100_0000,
        b6 == (b5 * 435) % 0x100_0000,
        a7 == ((a6 ^ 0xff) * 435) % 0x100_0000,
        b7 == (b6 * 435) % 0x100_0000,
    ensures
        ((a7 ^ x) * 435) % 0x100_0000 != ((b7 ^ ((x + 1) as u64)) * 435) % 0x100_0000,
{
}

/// The same byte over and over.
pub open spec fn filled(byte: u8, n: nat) -> Seq<u8> {
    Seq::new(n, |i: int| byte)
}

/// One byte more.
proof fn lemma_low_of_longer(low: u64, bytes: Seq<u8>, byte: u8)
    ensures
        low_from(low, bytes.push(byte)) == low_step(low_from(low, bytes), byte),
{
    assert(bytes.push(byte).drop_last() =~= bytes);
}

/// The low bytes over equal bytes, step by step.
proof fn lemma_low_of_filled(low: u64, n: nat)
    ensures
        low_from(low, filled(0, 0)) == low,
        low_from(low, filled(0xff, 0)) == low,
        low_from(low, filled(0xff, n + 1)) == ((low_from(low, filled(0xff, n)) ^ 0xff) * 435)
            % 0x100_0000,
        low_from(low, filled(0, n + 1)) == (low_from(low, filled(0, n)) * 435) % 0x100_0000,
{
    assert(filled(0xff, n + 1) =~= filled(0xff, n).push(0xff));
    assert(filled(0, n + 1) =~= filled(0, n).push(0));
    lemma_low_of_longer(low, filled(0xff, n), 0xff);
    lemma_low_of_longer(low, filled(0, n), 0);
    let g = low_from(low, filled(0, n));
    assert(g ^ 0 == g) by (bit_vector);
}

/// A carry into a byte shows in the low bytes, from the fifth byte on.
proof fn lemma_carry_shows(low: u64, k: nat, x: u8)
    requires
        low < 256,
        4 <= k <= 7,
        x < 255,
    ensures
        low_from(low, filled(0xff, k).push(x)) != low_from(low, filled(0, k).push((x + 1) as u8)),
{
    let y = (x + 1) as u8;
    lemma_low_of_longer(low, filled(0xff, k), x);
    lemma_low_of_longer(low, filled(0, k), y);
    lemma_low_of_filled(low, 0);
    lemma_low_of_filled(low, 1);
    lemma_low_of_filled(low, 2);
    lemma_low_of_filled(low, 3);
    lemma_low_of_filled(low, 4);
    lemma_low_of_filled(low, 5);
    lemma_low_of_filled(low, 6);
    let a1 = low_from(low, filled(0xff, 1));
    let b1 = low_from(low, filled(0, 1));
    let a2 = low_from(low, filled(0xff, 2));
    let b2 = low_from(low, filled(0, 2));
    let a3 = low_from(low, filled(0xff, 3));
    let b3 = low_from(low, filled(0, 3));
    let a4 = low_from(low, filled(0xff, 4));
    let b4 = low_from(low, filled(0, 4));
    let a5 = low_from(low, filled(0xff, 5));
    let b5 = low_from(low, filled(0, 5));
    let a6 = low_from(low, filled(0xff, 6));
    let b6 = low_from(low, filled(0, 6));
    let a7 = low_from(low, filled(0xff, 7));
    let b7 = low_from(low, filled(0, 7));
    let c = x as u64;
    if k == 4 {
        lemma_carry_out_of_four(low, c, a1, b1, a2, b2, a3, b3, a4, b4);
    } else if k == 5 {
        lemma_carry_out_of_five(low, c, a1, b1, a2, b2, a3, b3, a4, b4, a5, b5);
    } else if k == 6 {
        lemma_carry_out_of_six(low, c, a1, b1, a2, b2, a3, b3, a4, b4, a5, b5, a6, b6);
    } else {
        lemma_carry_out_of_seven(low, c, a1, b1, a2, b2, a3, b3, a4, b4, a5, b5, a6, b6, a7, b7);
    }
}

/// Two words that differ in one byte, in which the right one is larger by one, after
/// `k` bytes that are full in the left word and empty in the right one.
spec fn carries_after(left: Seq<u8>, right: Seq<u8>, k: nat) -> bool {
    &&& left.len() == right.len() == 8
    &&& k < 8
    &&& forall|i: int| 0 <= i < k ==> #[trigger] left[i] == 0xff && right[i] == 0
    &&& left[k as int] < 255
    &&& right[k as int] == left[k as int] + 1
    &&& forall|i: int| k < i < 8 ==> #[trigger] left[i] == right[i]
}

/// A far carry changes the hash.
proof fn lemma_far_carry_is_detected(start: u64, left: Seq<u8>, right: Seq<u8>, k: nat)
    requires
        carries_after(left, right, k),
        4 <= k,
    ensures
        fnv_from(start, left) != fnv_from(start, right),
{
    let at = k as int;
    let low = (start % 256) as u64;
    let a = filled(0xff, k).push(left[at]);
    let b = filled(0, k).push(right[at]);
    let rest = left.skip(at + 1);
    assert(left =~= a + rest);
    assert forall|i: int| 0 <= i < 8 implies #[trigger] right[i] == (b + rest)[i] by {
        assert(left[i] == (a + rest)[i]);
    }
    assert(right =~= b + rest);
    lemma_carry_shows(low, k, left[at]);
    assert((left[at] + 1) as u8 == right[at]);
    lemma_low_bytes_tell_apart(start, a, b);
    lemma_hash_of_parts(start, a, rest);
    lemma_hash_of_parts(start, b, rest);
    lemma_equal_bytes_keep_hashes_apart(fnv_from(start, a), fnv_from(start, b), rest);
}

/// Where counting a word up carries past its low half.
proof fn lemma_far_carry(word: u64) -> (k: nat)
    requires
        word < u64::MAX,
        word % 0x1_0000_0000 == 0xffff_ffff,
    ensures
        4 <= k,
        carries_after(u64_bytes(word), u64_bytes((word + 1) as u64), k),
{
    let next = (word + 1) as u64;
    let high = (word / 0x1_0000_0000) as u32;
    let above = (high + 1) as u32;
    assert(next % 0x1_0000_0000 == 0 && next / 0x1_0000_0000 == above);
    lemma_bytes_of(255, 255, 255, 255);
    lemma_bytes_of(0, 0, 0, 0);
    let full = seq![255u8, 255u8, 255u8, 255u8];
    let none = seq![0u8, 0u8, 0u8, 0u8];
    assert(u64_bytes(word) == full + u32_bytes(high));
    assert(u64_bytes(next) == none + u32_bytes(above));
    let k = lemma_carry_place(high);
    lemma_carry_follows(full, u32_bytes(high), none, u32_bytes(above), k);
    4 + k
}

/// A carry in the high half is one of the whole.
proof fn lemma_carry_follows(full: Seq<u8>, left: Seq<u8>, none: Seq<u8>, right: Seq<u8>, k: nat)
    requires
        full.len() == none.len() == left.len() == right.len() == 4,
        forall|i: int| 0 <= i < 4 ==> full[i] == 0xff && none[i] == 0,
        k < 4,
        forall|i: int| 0 <= i < k ==> #[trigger] left[i] == 0xff && right[i] == 0,
        left[k as int] < 255,
        right[k as int] == left[k as int] + 1,
        forall|i: int| k < i < 4 ==> #[trigger] left[i] == right[i],
    ensures
        carries_after(full + left, none + right, 4 + k),
{
    assert forall|i: int| 0 <= i < 4 + k implies #[trigger] (full + left)[i] == 0xff && (none
        + right)[i] == 0 by {
        if i >= 4 {
            assert(left[i - 4] == 0xff);
        }
    }
    assert forall|i: int| 4 + k < i < 8 implies #[trigger] (full + left)[i] == (none + right)[i] by {
        assert(left[i - 4] == right[i - 4]);
    }
}

/// Hashes that part ways stay apart over equal bytes.
proof fn lemma_parted_hashes(start: u64, before: Seq<u8>, left: Seq<u8>, right: Seq<u8>, after: Seq<u8>)
    requires
        fnv_from(fnv_from(start, before), left) != fnv_from(fnv_from(start, before), right),
    ensures
        fnv_from(start, before + left + after) != fnv_from(start, before + right + after),
{
    let state = fnv_from(start, before);
    lemma_hash_of_parts(start, before + left, after);
    lemma_hash_of_parts(start, before + right, after);
    lemma_hash_of_parts(start, before, left);
    lemma_hash_of_parts(start, before, right);
    lemma_equal_bytes_keep_hashes_apart(fnv_from(state, left), fnv_from(state, right), after);
}

/// Counting a word up by one changes the hash, however far it carries.
pub proof fn lemma_next_word_is_detected(start: u64, before: Seq<u8>, word: u64, after: Seq<u8>)
    requires
        word < u64::MAX,
    ensures
        fnv_from(start, before + u64_bytes(word) + after) != fnv_from(
            start,
            before + u64_bytes((word + 1) as u64) + after,
        ),
{
    let next = (word + 1) as u64;
    let left = u64_bytes(word);
    let right = u64_bytes(next);
    if word % 0x1_0000_0000 < 0xffff_ffff {
        assert(next / 0x1_0000_0000 == word / 0x1_0000_0000);
        assert(alike_but_four(left, right, 0));
        assert(close_words(word, next));
        lemma_exchanged_word_is_detected(start, before, word, next, after);
    } else {
        let k = lemma_far_carry(word);
        lemma_far_carry_is_detected(fnv_from(start, before), left, right, k);
        lemma_parted_hashes(start, before, left, right, after);
    }
}

/// The bytes of a word put together from them.
proof fn lemma_bytes_of(a: u8, b: u8, c: u8, d: u8)
    ensures
        u32_bytes((a + 0x100 * b + 0x1_0000 * c + 0x100_0000 * d) as u32) == seq![a, b, c, d],
{
    let word = (a + 0x100 * b + 0x1_0000 * c + 0x100_0000 * d) as u32;
    assert(word / 0x100 == b + 0x100 * c + 0x1_0000 * d);
    assert(word / 0x1_0000 == c + 0x100 * d);
    assert(word / 0x100_0000 == d);
    assert(u32_bytes(word) =~= seq![a, b, c, d]);
}

/// The words differ within four neighbouring bytes, or are neighbours themselves.
pub open spec fn similar_words(left: u64, right: u64) -> bool {
    close_words(left, right) || left == right + 1 || right == left + 1
}

/// Exchanging one word of what is hashed for a similar one changes the hash.
pub proof fn lemma_similar_word_is_detected(
    start: u64,
    before: Seq<u8>,
    left: u64,
    right: u64,
    after: Seq<u8>,
)
    requires
        left != right,
        similar_words(left, right),
    ensures
        fnv_from(start, before + u64_bytes(left) + after) != fnv_from(
            start,
            before + u64_bytes(right) + after,
        ),
{
    if close_words(left, right) {
        lemma_exchanged_word_is_detected(start, before, left, right, after);
    } else if right == left + 1 {
        lemma_next_word_is_detected(start, before, left, after);
    } else {
        lemma_next_word_is_detected(start, before, right, after);
    }
}

/// Where counting up by one stops carrying.
proof fn lemma_carry_place(word: u32) -> (k: nat)
    requires
        word < u32::MAX,
    ensures
        k < 4,
        forall|i: int|
            0 <= i < k ==> #[trigger] u32_bytes(word)[i] == 0xff && u32_bytes((word + 1) as u32)[i]
                == 0,
        u32_bytes(word)[k as int] < 255,
        u32_bytes((word + 1) as u32)[k as int] == u32_bytes(word)[k as int] + 1,
        forall|i: int|
            k < i < 4 ==> #[trigger] u32_bytes(word)[i] == u32_bytes((word + 1) as u32)[i],
{
    let a = (word % 0x100) as u8;
    let b = (word / 0x100 % 0x100) as u8;
    let c = (word / 0x1_0000 % 0x100) as u8;
    let d = (word / 0x100_0000) as u8;
    assert(word == a + 0x100 * b + 0x1_0000 * c + 0x100_0000 * d);
    lemma_bytes_of(a, b, c, d);
    if a < 255 {
        lemma_bytes_of((a + 1) as u8, b, c, d);
        0
    } else if b < 255 {
        lemma_bytes_of(0, (b + 1) as u8, c, d);
        1
    } else if c < 255 {
        lemma_bytes_of(0, 0, (c + 1) as u8, d);
        2
    } else {
        lemma_bytes_of(0, 0, 0, (d + 1) as u8);
        3
    }
}

/// One step given by its numbers.
proof fn lemma_step_value(hash: u64, byte: u8, mixed: u64, result: u64)
    requires
        hash ^ (byte as u64) == mixed,
        mixed * 0x100_0000_01b3 % 0x1_0000_0000_0000_0000 == result,
    ensures
        fnv_step(hash, byte) == result,
{
}

/// One byte more.
proof fn lemma_hash_of_longer(start: u64, bytes: Seq<u8>, byte: u8)
    ensures
        fnv_from(start, bytes.push(byte)) == fnv_step(fnv_from(start, bytes), byte),
{
    assert(bytes.push(byte).drop_last() =~= bytes);
}

/// The hash after the first schema version and a zero byte.
proof fn lemma_hash_of_the_head()
    ensures
        fnv_from(FNV_OFFSET, u32_bytes(1).push(0)) == 0xd80d_6cae_a7dc_7eec,
{
    assert(0xcbf2_9ce4_8422_2325u64 ^ 0x01u64 == 0xcbf2_9ce4_8422_2324u64 && 
        0xaf63_bc4c_8601_b62cu64 ^ 0x00u64 == 0xaf63_bc4c_8601_b62cu64 && 
        0x082f_2207_b4e8_8cc4u64 ^ 0x00u64 == 0x082f_2207_b4e8_8cc4u64 && 
        0xd0a3_9718_6727_310cu64 ^ 0x00u64 == 0xd0a3_9718_6727_310cu64 && 
        0xad2a_ca77_4798_5764u64 ^ 0x00u64 == 0xad2a_ca77_4798_5764u64) by (bit_vector);
    let s0 = Seq::<u8>::empty();
    let s1 = s0.push(0x01);
    lemma_hash_of_longer(FNV_OFFSET, s0, 0x01);
    lemma_step_value(0xcbf2_9ce4_8422_2325, 0x01, 0xcbf2_9ce4_8422_2324, 0xaf63_bc4c_8601_b62c);
    let s2 = s1.push(0x00);
    lemma_hash_of_longer(FNV_OFFSET, s1, 0x00);
    lemma_step_value(0xaf63_bc4c_8601_b62c, 0x00, 0xaf63_bc4c_8601_b62c, 0x082f_2207_b4e8_8cc4);
    let s3 = s2.push(0x00);
    lemma_hash_of_longer(FNV_OFFSET, s2, 0x00);
    lemma_step_value(0x082f_2207_b4e8_8cc4, 0x00, 0x082f_2207_b4e8_8cc4, 0xd0a3_9718_6727_310c);
    let s4 = s3.push(0x00);
    lemma_hash_of_longer(FNV_OFFSET, s3, 0x00);
    lemma_step_value(0xd0a3_9718_6727_310c, 0x00, 0xd0a3_9718_6727_310c, 0xad2a_ca77_4798_5764);
    let s5 = s4.push(0x00);
    lemma_hash_of_longer(FNV_OFFSET, s4, 0x00);
    lemma_step_value(0xad2a_ca77_4798_5764, 0x00, 0xad2a_ca77_4798_5764, 0xd80d_6cae_a7dc_7eec);
    assert(u32_bytes(1).push(0) =~= s5);
}

/// The hash after the first of the two words.
#[verifier::spinoff_prover]
#[verifier::rlimit(80)]
proof fn lemma_hash_of_the_first()
    ensures
        fnv_from(0xd80d_6cae_a7dc_7eec, u64_bytes(0x975c_5053_7435_be15)) == 0xc5b2_3e7e_789c_2724,
{
    assert(0xd80d_6cae_a7dc_7eecu64 ^ 0x15u64 == 0xd80d_6cae_a7dc_7ef9u64 && 
        0xfb4e_a5c7_3bab_c11bu64 ^ 0xbeu64 == 0xfb4e_a5c7_3bab_c1a5u64 && 
        0xb265_568a_64da_0b5fu64 ^ 0x35u64 == 0xb265_568a_64da_0b6au64 && 
        0xfc3d_7729_5e81_651eu64 ^ 0x74u64 == 0xfc3d_7729_5e81_656au64 && 
        0x1dd6_e54b_95df_531eu64 ^ 0x53u64 == 0x1dd6_e54b_95df_534du64 && 
        0x937a_ec6f_aa7a_8bd7u64 ^ 0x50u64 == 0x937a_ec6f_aa7a_8b87u64 && 
        0x146b_48be_ae3b_1665u64 ^ 0x5cu64 == 0x146b_48be_ae3b_1639u64 && 
        0xed62_d502_0e66_c2dbu64 ^ 0x97u64 == 0xed62_d502_0e66_c24cu64) by (bit_vector);
    let s0 = Seq::<u8>::empty();
    let s1 = s0.push(0x15);
    lemma_hash_of_longer(0xd80d_6cae_a7dc_7eec, s0, 0x15);
    lemma_step_value(0xd80d_6cae_a7dc_7eec, 0x15, 0xd80d_6cae_a7dc_7ef9, 0xfb4e_a5c7_3bab_c11b);
    let s2 = s1.push(0xbe);
    lemma_hash_of_longer(0xd80d_6cae_a7dc_7eec, s1, 0xbe);
    lemma_step_value(0xfb4e_a5c7_3bab_c11b, 0xbe, 0xfb4e_a5c7_3bab_c1a5, 0xb265_568a_64da_0b5f);
    let s3 = s2.push(0x35);
    lemma_hash_of_longer(0xd80d_6cae_a7dc_7eec, s2, 0x35);
    lemma_step_value(0xb265_568a_64da_0b5f, 0x35, 0xb265_568a_64da_0b6a, 0xfc3d_7729_5e81_651e);
    let s4 = s3.push(0x74);
    lemma_hash_of_longer(0xd80d_6cae_a7dc_7eec, s3, 0x74);
    lemma_step_value(0xfc3d_7729_5e81_651e, 0x74, 0xfc3d_7729_5e81_656a, 0x1dd6_e54b_95df_531e);
    let s5 = s4.push(0x53);
    lemma_hash_of_longer(0xd80d_6cae_a7dc_7eec, s4, 0x53);
    lemma_step_value(0x1dd6_e54b_95df_531e, 0x53, 0x1dd6_e54b_95df_534d, 0x937a_ec6f_aa7a_8bd7);
    let s6 = s5.push(0x50);
    lemma_hash_of_longer(0xd80d_6cae_a7dc_7eec, s5, 0x50);
    lemma_step_value(0x937a_ec6f_aa7a_8bd7, 0x50, 0x937a_ec6f_aa7a_8b87, 0x146b_48be_ae3b_1665);
    let s7 = s6.push(0x5c);
    lemma_hash_of_longer(0xd80d_6cae_a7dc_7eec, s6, 0x5c);
    lemma_step_value(0x146b_48be_ae3b_1665, 0x5c, 0x146b_48be_ae3b_1639, 0xed62_d502_0e66_c2db);
    let s8 = s7.push(0x97);
    lemma_hash_of_longer(0xd80d_6cae_a7dc_7eec, s7, 0x97);
    lemma_step_value(0xed62_d502_0e66_c2db, 0x97, 0xed62_d502_0e66_c24c, 0xc5b2_3e7e_789c_2724);
    lemma_bytes_of(0x15, 0xbe, 0x35, 0x74);
    lemma_bytes_of(0x53, 0x50, 0x5c, 0x97);
    assert(0x975c_5053_7435_be15u64 % 0x1_0000_0000 == 0x7435be15);
    assert(0x975c_5053_7435_be15u64 / 0x1_0000_0000 == 0x975c5053);
    assert(u64_bytes(0x975c_5053_7435_be15) =~= s8);
}

/// The hash after the second of the two words.
#[verifier::spinoff_prover]
#[verifier::rlimit(80)]
proof fn lemma_hash_of_the_second()
    ensures
        fnv_from(0xd80d_6cae_a7dc_7eec, u64_bytes(0x51c5_c784_0ff1_40e3)) == 0xc5b2_3e7e_789c_2724,
{
    assert(0xd80d_6cae_a7dc_7eecu64 ^ 0xe3u64 == 0xd80d_6cae_a7dc_7e0fu64 && 
        0xfb4d_bbc7_3baa_337du64 ^ 0x40u64 == 0xfb4d_bbc7_3baa_333du64 && 
        0xaf49_508a_6235_10a7u64 ^ 0xf1u64 == 0xaf49_508a_6235_1056u64 && 
        0x0ea4_3124_e02a_c222u64 ^ 0x0fu64 == 0x0ea4_3124_e02a_c22du64 && 
        0x0bc1_aea8_e8a7_f277u64 ^ 0x84u64 == 0x0bc1_aea8_e8a7_f2f3u64 && 
        0xa20e_bc03_5561_d2e9u64 ^ 0xc7u64 == 0xa20e_bc03_5561_d22eu64 && 
        0xc0db_a7aa_1538_242au64 ^ 0xc5u64 == 0xc0db_a7aa_1538_24efu64 && 
        0xed62_d502_0e66_c21du64 ^ 0x51u64 == 0xed62_d502_0e66_c24cu64) by (bit_vector);
    let s0 = Seq::<u8>::empty();
    let s1 = s0.push(0xe3);
    lemma_hash_of_longer(0xd80d_6cae_a7dc_7eec, s0, 0xe3);
    lemma_step_value(0xd80d_6cae_a7dc_7eec, 0xe3, 0xd80d_6cae_a7dc_7e0f, 0xfb4d_bbc7_3baa_337d);
    let s2 = s1.push(0x40);
    lemma_hash_of_longer(0xd80d_6cae_a7dc_7eec, s1, 0x40);
    lemma_step_value(0xfb4d_bbc7_3baa_337d, 0x40, 0xfb4d_bbc7_3baa_333d, 0xaf49_508a_6235_10a7);
    let s3 = s2.push(0xf1);
    lemma_hash_of_longer(0xd80d_6cae_a7dc_7eec, s2, 0xf1);
    lemma_step_value(0xaf49_508a_6235_10a7, 0xf1, 0xaf49_508a_6235_1056, 0x0ea4_3124_e02a_c222);
    let s4 = s3.push(0x0f);
    lemma_hash_of_longer(0xd80d_6cae_a7dc_7eec, s3, 0x0f);
    lemma_step_value(0x0ea4_3124_e02a_c222, 0x0f, 0x0ea4_3124_e02a_c22d, 0x0bc1_aea8_e8a7_f277);
    let s5 = s4.push(0x84);
    lemma_hash_of_longer(0xd80d_6cae_a7dc_7eec, s4, 0x84);
    lemma_step_value(0x0bc1_aea8_e8a7_f277, 0x84, 0x0bc1_aea8_e8a7_f2f3, 0xa20e_bc03_5561_d2e9);
    let s6 = s5.push(0xc7);
    lemma_hash_of_longer(0xd80d_6cae_a7dc_7eec, s5, 0xc7);
    lemma_step_value(0xa20e_bc03_5561_d2e9, 0xc7, 0xa20e_bc03_5561_d22e, 0xc0db_a7aa_1538_242a);
    let s7 = s6.push(0xc5);
    lemma_hash_of_longer(0xd80d_6cae_a7dc_7eec, s6, 0xc5);
    lemma_step_value(0xc0db_a7aa_1538_242a, 0xc5, 0xc0db_a7aa_1538_24ef, 0xed62_d502_0e66_c21d);
    let s8 = s7.push(0x51);
    lemma_hash_of_longer(0xd80d_6cae_a7dc_7eec, s7, 0x51);
    lemma_step_value(0xed62_d502_0e66_c21d, 0x51, 0xed62_d502_0e66_c24c, 0xc5b2_3e7e_789c_2724);
    lemma_bytes_of(0xe3, 0x40, 0xf1, 0x0f);
    lemma_bytes_of(0x84, 0xc7, 0xc5, 0x51);
    assert(0x51c5_c784_0ff1_40e3u64 % 0x1_0000_0000 == 0xff140e3);
    assert(0x51c5_c784_0ff1_40e3u64 / 0x1_0000_0000 == 0x51c5c784);
    assert(u64_bytes(0x51c5_c784_0ff1_40e3) =~= s8);
}

/// Two words that differ in all their bytes and hash alike after this head, whatever
/// follows.
pub proof fn lemma_two_words_hash_alike(after: Seq<u8>)
    ensures
        fnv_from(FNV_OFFSET, u32_bytes(1).push(0) + u64_bytes(0x975c_5053_7435_be15) + after)
            == fnv_from(
            FNV_OFFSET,
            u32_bytes(1).push(0) + u64_bytes(0x51c5_c784_0ff1_40e3) + after,
        ),
{
    let head = u32_bytes(1).push(0);
    let left = u64_bytes(0x975c_5053_7435_be15);
    let right = u64_bytes(0x51c5_c784_0ff1_40e3);
    lemma_hash_of_the_head();
    lemma_hash_of_the_first();
    lemma_hash_of_the_second();
    lemma_hash_of_parts(FNV_OFFSET, head, left);
    lemma_hash_of_parts(FNV_OFFSET, head, right);
    lemma_hash_of_parts(FNV_OFFSET, head + left, after);
    lemma_hash_of_parts(FNV_OFFSET, head + right, after);
}

} // verus!
