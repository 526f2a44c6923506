//! Content hashing of artifacts: FNV-1a over little-endian field bytes.

use vstd::prelude::*;
use vstd::string::*;

use crate::binary::Binary32;

verus! {

/// FNV-1a 64-bit offset basis.
pub const FNV_OFFSET: u64 = 0xcbf2_9ce4_8422_2325;

/// FNV-1a 64-bit prime.
pub const FNV_PRIME: u64 = 0x0000_0100_0000_01b3;

/// Inverse of the prime modulo two to the sixty-fourth.
const FNV_PRIME_INVERSE: u64 = 0xce96_5057_aff6_957b;

/// Byte written after each text of a list, so that neighbours cannot run
/// together: it occurs in no UTF-8 text.
pub const TEXT_END: u8 = 0xff;

/// One FNV-1a step.
pub open spec fn fnv_step(hash: u64, byte: u8) -> u64 {
    (hash ^ (byte as u64)).wrapping_mul(FNV_PRIME)
}

/// FNV-1a of a byte sequence, continued from `start`.
pub open spec fn fnv_from(start: u64, bytes: Seq<u8>) -> u64
    decreases bytes.len(),
{
    if bytes.len() == 0 {
        start
    } else {
        fnv_step(fnv_from(start, bytes.drop_last()), bytes.last())
    }
}

/// FNV-1a of a byte sequence.
pub open spec fn fnv_of(bytes: Seq<u8>) -> u64 {
    fnv_from(FNV_OFFSET, bytes)
}

/// Little-endian bytes of a 32-bit word.
pub open spec fn u32_bytes(value: u32) -> Seq<u8> {
    seq![
        (value % 0x100) as u8,
        (value / 0x100 % 0x100) as u8,
        (value / 0x1_0000 % 0x100) as u8,
        (value / 0x100_0000) as u8,
    ]
}

/// Little-endian bytes of a 64-bit word.
pub open spec fn u64_bytes(value: u64) -> Seq<u8> {
    u32_bytes((value % 0x1_0000_0000) as u32) + u32_bytes((value / 0x1_0000_0000) as u32)
}

/// UTF-8 bytes of each text, each followed by [`TEXT_END`].
pub open spec fn text_list_bytes(texts: Seq<String>) -> Seq<u8>
    decreases texts.len(),
{
    if texts.len() == 0 {
        Seq::empty()
    } else {
        text_list_bytes(texts.drop_last()) + vstd::utf8::encode_utf8(texts.last()@).push(TEXT_END)
    }
}

/// Bit patterns of the numbers, in order.
pub open spec fn b32_list_bytes(numbers: Seq<Binary32>) -> Seq<u8>
    decreases numbers.len(),
{
    if numbers.len() == 0 {
        Seq::empty()
    } else {
        b32_list_bytes(numbers.drop_last()) + u32_bytes(numbers.last().bits)
    }
}

/// Bit patterns of the numbers, in order, with both zeros written alike.
pub open spec fn canonical_list_bytes(numbers: Seq<Binary32>) -> Seq<u8>
    decreases numbers.len(),
{
    if numbers.len() == 0 {
        Seq::empty()
    } else {
        canonical_list_bytes(numbers.drop_last()) + u32_bytes(numbers.last().canonical().bits)
    }
}

/// Bit patterns of the rows' numbers, row by row.
pub open spec fn b32_rows_bytes(rows: Seq<Vec<Binary32>>) -> Seq<u8>
    decreases rows.len(),
{
    if rows.len() == 0 {
        Seq::empty()
    } else {
        b32_rows_bytes(rows.drop_last()) + b32_list_bytes(rows.last()@)
    }
}

/// Bit patterns of the rows' numbers, row by row, with both zeros written alike.
pub open spec fn canonical_rows_bytes(rows: Seq<Vec<Binary32>>) -> Seq<u8>
    decreases rows.len(),
{
    if rows.len() == 0 {
        Seq::empty()
    } else {
        canonical_rows_bytes(rows.drop_last()) + canonical_list_bytes(rows.last()@)
    }
}

/// The indices as 64-bit words, in order.
pub open spec fn index_list_bytes(indices: Seq<usize>) -> Seq<u8>
    decreases indices.len(),
{
    if indices.len() == 0 {
        Seq::empty()
    } else {
        index_list_bytes(indices.drop_last()) + u64_bytes(indices.last() as u64)
    }
}

/// FNV-1a 64-bit hash of a byte slice.
pub fn fnv1a(bytes: &[u8]) -> (hash: u64)
    ensures
        hash == fnv_of(bytes@),
{
    let mut hash: u64 = FNV_OFFSET;
    for i in 0..bytes.len()
        invariant
            hash == fnv_from(FNV_OFFSET, bytes@.take(i as int)),
    {
        assert(bytes@.take(i + 1).drop_last() =~= bytes@.take(i as int));
        hash = (hash ^ (bytes[i] as u64)).wrapping_mul(FNV_PRIME);
    }
    assert(bytes@.take(bytes@.len() as int) =~= bytes@);
    hash
}

/// Appends raw bytes.
pub fn put_bytes(out: &mut Vec<u8>, bytes: &[u8])
    ensures
        final(out)@ == old(out)@ + bytes@,
{
    let ghost before = out@;
    for i in 0..bytes.len()
        invariant
            out@ == before + bytes@.take(i as int),
    {
        out.push(bytes[i]);
        assert(out@ =~= before + bytes@.take(i + 1));
    }
    assert(bytes@.take(bytes@.len() as int) =~= bytes@);
}

/// Appends a 32-bit word, least significant byte first.
pub fn put_u32(out: &mut Vec<u8>, value: u32)
    ensures
        final(out)@ == old(out)@ + u32_bytes(value),
{
    let ghost before = out@;
    out.push((value % 0x100) as u8);
    out.push((value / 0x100 % 0x100) as u8);
    out.push((value / 0x1_0000 % 0x100) as u8);
    out.push((value / 0x100_0000) as u8);
    assert(out@ =~= before + u32_bytes(value));
}

/// Appends a 64-bit word, least significant byte first.
pub fn put_u64(out: &mut Vec<u8>, value: u64)
    ensures
        final(out)@ == old(out)@ + u64_bytes(value),
{
    let ghost before = out@;
    put_u32(out, (value % 0x1_0000_0000) as u32);
    put_u32(out, (value / 0x1_0000_0000) as u32);
    assert(out@ =~= before + u64_bytes(value));
}

/// Appends a text's UTF-8 bytes.
pub fn put_text(out: &mut Vec<u8>, text: &String)
    ensures
        final(out)@ == old(out)@ + vstd::utf8::encode_utf8(text@),
{
    put_bytes(out, text.as_str().as_bytes());
}

/// Appends each text and a terminator.
pub fn put_texts(out: &mut Vec<u8>, texts: &Vec<String>)
    ensures
        final(out)@ == old(out)@ + text_list_bytes(texts@),
{
    let ghost before = out@;
    for i in 0..texts.len()
        invariant
            out@ == before + text_list_bytes(texts@.take(i as int)),
    {
        put_text(out, &texts[i]);
        out.push(TEXT_END);
        assert(texts@.take(i + 1).drop_last() =~= texts@.take(i as int));
        assert(out@ =~= before + text_list_bytes(texts@.take(i + 1)));
    }
    assert(texts@.take(texts@.len() as int) =~= texts@);
}

/// Appends the numbers' bit patterns.
pub fn put_b32s(out: &mut Vec<u8>, numbers: &Vec<Binary32>)
    ensures
        final(out)@ == old(out)@ + b32_list_bytes(numbers@),
{
    let ghost before = out@;
    for i in 0..numbers.len()
        invariant
            out@ == before + b32_list_bytes(numbers@.take(i as int)),
    {
        put_u32(out, numbers[i].bits);
        assert(numbers@.take(i + 1).drop_last() =~= numbers@.take(i as int));
        assert(out@ =~= before + b32_list_bytes(numbers@.take(i + 1)));
    }
    assert(numbers@.take(numbers@.len() as int) =~= numbers@);
}

/// Appends the numbers' bit patterns, with both zeros written alike.
pub fn put_canonical(out: &mut Vec<u8>, numbers: &[Binary32])
    ensures
        final(out)@ == old(out)@ + canonical_list_bytes(numbers@),
{
    let ghost before = out@;
    for i in 0..numbers.len()
        invariant
            out@ == before + canonical_list_bytes(numbers@.take(i as int)),
    {
        put_u32(out, numbers[i].canonical_zero().bits);
        assert(numbers@.take(i + 1).drop_last() =~= numbers@.take(i as int));
        assert(out@ =~= before + canonical_list_bytes(numbers@.take(i + 1)));
    }
    assert(numbers@.take(numbers@.len() as int) =~= numbers@);
}

/// Appends the rows' bit patterns.
pub fn put_b32_rows(out: &mut Vec<u8>, rows: &Vec<Vec<Binary32>>)
    ensures
        final(out)@ == old(out)@ + b32_rows_bytes(rows@),
{
    let ghost before = out@;
    for i in 0..rows.len()
        invariant
            out@ == before + b32_rows_bytes(rows@.take(i as int)),
    {
        put_b32s(out, &rows[i]);
        assert(rows@.take(i + 1).drop_last() =~= rows@.take(i as int));
        assert(out@ =~= before + b32_rows_bytes(rows@.take(i + 1)));
    }
    assert(rows@.take(rows@.len() as int) =~= rows@);
}

/// Appends the rows' bit patterns, with both zeros written alike.
pub fn put_canonical_rows(out: &mut Vec<u8>, rows: &Vec<Vec<Binary32>>)
    ensures
        final(out)@ == old(out)@ + canonical_rows_bytes(rows@),
{
    let ghost before = out@;
    for i in 0..rows.len()
        invariant
            out@ == before + canonical_rows_bytes(rows@.take(i as int)),
    {
        put_canonical(out, &rows[i]);
        assert(rows@.take(i + 1).drop_last() =~= rows@.take(i as int));
        assert(out@ =~= before + canonical_rows_bytes(rows@.take(i + 1)));
    }
    assert(rows@.take(rows@.len() as int) =~= rows@);
}

/// Appends the indices as 64-bit words.
pub fn put_indices(out: &mut Vec<u8>, indices: &Vec<usize>)
    ensures
        final(out)@ == old(out)@ + index_list_bytes(indices@),
{
    let ghost before = out@;
    for i in 0..indices.len()
        invariant
            out@ == before + index_list_bytes(indices@.take(i as int)),
    {
        put_u64(out, indices[i] as u64);
        assert(indices@.take(i + 1).drop_last() =~= indices@.take(i as int));
        assert(out@ =~= before + index_list_bytes(indices@.take(i + 1)));
    }
    assert(indices@.take(indices@.len() as int) =~= indices@);
}

/// Undoing the multiplication of one step.
proof fn lemma_prime_is_invertible(value: u64)
    ensures
        value.wrapping_mul(FNV_PRIME).wrapping_mul(FNV_PRIME_INVERSE) == value,
{
    let m: int = 0x1_0000_0000_0000_0000;
    let p = FNV_PRIME as int;
    let q = FNV_PRIME_INVERSE as int;
    let product = value as int * p;
    let k = (p * q) / m;
    assert(p * q == k * m + 1);
    assert((product % m) * q % m == product * q % m) by {
        vstd::arithmetic::div_mod::lemma_mul_mod_noop_left(product, q, m);
    }
    assert(product * q == value as int + m * (value as int * k)) by (nonlinear_arith)
        requires
            product == value as int * p,
            p * q == k * m + 1,
    ;
    assert((m * (value as int * k) + value as int) % m == value as int % m) by {
        vstd::arithmetic::div_mod::lemma_mod_multiples_vanish(value as int * k, value as int, m);
    }
    vstd::arithmetic::div_mod::lemma_small_mod(value as nat, m as nat);
}

/// One step loses nothing of the running hash.
pub proof fn lemma_step_keeps_hashes_apart(left: u64, right: u64, byte: u8)
    requires
        left != right,
    ensures
        fnv_step(left, byte) != fnv_step(right, byte),
{
    let b = byte as u64;
    lemma_prime_is_invertible(left ^ b);
    lemma_prime_is_invertible(right ^ b);
    assert(left != right ==> left ^ b != right ^ b) by (bit_vector);
}

/// One step tells any two bytes apart.
pub proof fn lemma_step_tells_bytes_apart(hash: u64, left: u8, right: u8)
    requires
        left != right,
    ensures
        fnv_step(hash, left) != fnv_step(hash, right),
{
    let a = left as u64;
    let b = right as u64;
    lemma_prime_is_invertible(hash ^ a);
    lemma_prime_is_invertible(hash ^ b);
    assert(a != b ==> hash ^ a != hash ^ b) by (bit_vector);
}

/// A change confined to one byte always changes the hash.
pub proof fn lemma_single_byte_change_is_detected(start: u64, bytes: Seq<u8>, at: int, byte: u8)
    requires
        0 <= at < bytes.len(),
        bytes[at] != byte,
    ensures
        fnv_from(start, bytes) != fnv_from(start, bytes.update(at, byte)),
    decreases bytes.len(),
{
    let changed = bytes.update(at, byte);
    if at == bytes.len() - 1 {
        assert(changed.drop_last() =~= bytes.drop_last());
        lemma_step_tells_bytes_apart(fnv_from(start, bytes.drop_last()), bytes.last(), byte);
    } else {
        assert(changed.drop_last() =~= bytes.drop_last().update(at, byte));
        lemma_single_byte_change_is_detected(start, bytes.drop_last(), at, byte);
        lemma_step_keeps_hashes_apart(
            fnv_from(start, bytes.drop_last()),
            fnv_from(start, changed.drop_last()),
            bytes.last(),
        );
    }
}

/// Little-endian bytes determine the word.
pub proof fn lemma_u32_bytes_determine_the_word(left: u32, right: u32)
    requires
        u32_bytes(left) == u32_bytes(right),
    ensures
        left == right,
{
    let a = u32_bytes(left);
    let b = u32_bytes(right);
    assert(a[0] == b[0] && a[1] == b[1] && a[2] == b[2] && a[3] == b[3]);
}

/// Texts that read alike are hashed alike.
pub proof fn lemma_equal_texts_are_hashed_alike(left: Seq<String>, right: Seq<String>)
    requires
        left.len() == right.len(),
        forall|i: int| 0 <= i < left.len() ==> (#[trigger] left[i])@ == right[i]@,
    ensures
        text_list_bytes(left) == text_list_bytes(right),
    decreases left.len(),
{
    if left.len() > 0 {
        assert(left[left.len() - 1]@ == right[right.len() - 1]@);
        lemma_equal_texts_are_hashed_alike(left.drop_last(), right.drop_last());
    }
}

/// The sign of a zero does not change what is hashed.
pub proof fn lemma_zero_sign_is_not_hashed(left: Seq<Binary32>, right: Seq<Binary32>)
    requires
        left.len() == right.len(),
        forall|i: int|
            0 <= i < left.len() ==> (#[trigger] left[i]).canonical() == right[i].canonical(),
    ensures
        canonical_list_bytes(left) == canonical_list_bytes(right),
    decreases left.len(),
{
    if left.len() > 0 {
        assert(left.last().canonical() == right.last().canonical());
        lemma_zero_sign_is_not_hashed(left.drop_last(), right.drop_last());
    }
}

/// Swapping the low byte of the running hash moves it by less than a byte.
proof fn lemma_low_byte(hash: u64, byte: u8)
    ensures
        (hash ^ (byte as u64)) / 256 == hash / 256,
{
    let b = byte as u64;
    assert(b < 256 ==> (hash ^ b) / 256 == hash / 256) by (bit_vector);
}

/// One step as plain arithmetic.
proof fn lemma_step_arithmetic(hash: u64, byte: u8) -> (wraps: int)
    ensures
        fnv_step(hash, byte) == (hash ^ (byte as u64)) as int * 0x100_0000_01b3
            - wraps * 0x1_0000_0000_0000_0000,
{
    let product = (hash ^ (byte as u64)) as int * 0x100_0000_01b3;
    vstd::arithmetic::div_mod::lemma_fundamental_div_mod(product, 0x1_0000_0000_0000_0000);
    product / 0x1_0000_0000_0000_0000
}

/// Small multiples of the prime's first powers do not cancel out.
proof fn lemma_powers_do_not_cancel(d: int, e: int, f: int, g: int, k: int)
    requires
        -255 <= d <= 255,
        -510 <= e <= 510,
        -510 <= f <= 510,
        -510 <= g <= 510,
        d * 0x10000000519000008a97b0004e7feabint + e * 0x10000000366000002e329int + f * 0x100_0000_01b3 + g == k
            * 0x1_0000_0000_0000_0000,
    ensures
        d == 0,
{
    // The prime is `2^40 + 435`: split off what is a multiple of `2^40`.
    let low = 82312875 * d + 189225 * e + 435 * f + g;
    let high = d * 0x10000000519000008a97bint + e * 0x10000000366int + f - k * 0x100_0000;
    assert(low + 0x100_0000_0000 * high == 0);
    assert(high == 0 && low == 0);
    let s = 189225 * d + 435 * e + f;
    let t = 435 * d + e;
    assert(435 * s + g == 0);
    assert(-1 <= s <= 1);
    assert(435 * t + f == s);
    assert(-1 <= t <= 1);
    // The rest is a multiple of `2^24`, and too small to be another one than zero.
    let rest = 567675 * d + 870 * e + f;
    let whole = k - d * 0x100000005190000int - e * 0x1_0000;
    assert(rest == 0x100_0000 * whole);
    assert(rest == 189225 * d + 435 * t + s);
    assert(-1 <= d <= 1);
}

/// Four steps tell any two groups of four bytes with different first bytes apart.
proof fn lemma_four_steps(start: u64, left: Seq<u8>, right: Seq<u8>)
    requires
        left.len() == 4,
        right.len() == 4,
        left[0] != right[0],
    ensures
        fnv_from(start, left) != fnv_from(start, right),
{
    reveal_with_fuel(fnv_from, 5);
    let a1 = start ^ (left[0] as u64);
    let b1 = start ^ (right[0] as u64);
    let h1 = fnv_step(start, left[0]);
    let g1 = fnv_step(start, right[0]);
    let a2 = h1 ^ (left[1] as u64);
    let b2 = g1 ^ (right[1] as u64);
    let h2 = fnv_step(h1, left[1]);
    let g2 = fnv_step(g1, right[1]);
    let a3 = h2 ^ (left[2] as u64);
    let b3 = g2 ^ (right[2] as u64);
    let h3 = fnv_step(h2, left[2]);
    let g3 = fnv_step(g2, right[2]);
    let a4 = h3 ^ (left[3] as u64);
    let b4 = g3 ^ (right[3] as u64);
    assert(left.drop_last().drop_last().drop_last() =~= seq![left[0]]);
    assert(right.drop_last().drop_last().drop_last() =~= seq![right[0]]);
    assert(left.drop_last().drop_last().drop_last().drop_last() =~= Seq::empty());
    assert(right.drop_last().drop_last().drop_last().drop_last() =~= Seq::empty());
    assert(fnv_from(start, left) == fnv_step(h3, left[3]));
    assert(fnv_from(start, right) == fnv_step(g3, right[3]));
    if fnv_from(start, left) == fnv_from(start, right) {
        lemma_prime_is_invertible(a4);
        lemma_prime_is_invertible(b4);
        assert(a4 == b4);
        lemma_low_byte(start, left[0]);
        lemma_low_byte(start, right[0]);
        lemma_low_byte(h1, left[1]);
        lemma_low_byte(g1, right[1]);
        lemma_low_byte(h2, left[2]);
        lemma_low_byte(g2, right[2]);
        lemma_low_byte(h3, left[3]);
        lemma_low_byte(g3, right[3]);
        let v1 = lemma_step_arithmetic(start, left[0]);
        let w1 = lemma_step_arithmetic(start, right[0]);
        let v2 = lemma_step_arithmetic(h1, left[1]);
        let w2 = lemma_step_arithmetic(g1, right[1]);
        let v3 = lemma_step_arithmetic(h2, left[2]);
        let w3 = lemma_step_arithmetic(g2, right[2]);
        let d = a1 - b1;
        let e = (a2 % 256 - h1 % 256) - (b2 % 256 - g1 % 256);
        let f = (a3 % 256 - h2 % 256) - (b3 % 256 - g2 % 256);
        let g = (a4 % 256 - h3 % 256) - (b4 % 256 - g3 % 256);
        assert(a2 - b2 == h1 - g1 + e);
        assert(a3 - b3 == h2 - g2 + f);
        assert(a4 - b4 == h3 - g3 + g);
        let k = (v1 - w1) * 0x10000000366000002e329int + (v2 - w2) * 0x100_0000_01b3 + (v3 - w3);
        lemma_powers_do_not_cancel(d, e, f, g, k);
        lemma_step_tells_bytes_apart(start, left[0], right[0]);
    }
}

/// The hash of a sequence in two parts.
pub proof fn lemma_hash_of_parts(start: u64, first: Seq<u8>, second: Seq<u8>)
    ensures
        fnv_from(start, first + second) == fnv_from(fnv_from(start, first), second),
    decreases second.len(),
{
    if second.len() == 0 {
        assert(first + second =~= first);
    } else {
        assert((first + second).drop_last() =~= first + second.drop_last());
        lemma_hash_of_parts(start, first, second.drop_last());
    }
}

/// Different running hashes stay different over equal bytes.
pub proof fn lemma_equal_bytes_keep_hashes_apart(left: u64, right: u64, bytes: Seq<u8>)
    requires
        left != right,
    ensures
        fnv_from(left, bytes) != fnv_from(right, bytes),
    decreases bytes.len(),
{
    if bytes.len() > 0 {
        lemma_equal_bytes_keep_hashes_apart(left, right, bytes.drop_last());
        lemma_step_keeps_hashes_apart(
            fnv_from(left, bytes.drop_last()),
            fnv_from(right, bytes.drop_last()),
            bytes.last(),
        );
    }
}

/// The sequences are alike but for four neighbouring bytes, which may differ.
pub open spec fn alike_but_four(left: Seq<u8>, right: Seq<u8>, at: int) -> bool {
    &&& left.len() == right.len()
    &&& forall|i: int|
        0 <= i < left.len() && !(at <= i < at + 4) ==> #[trigger] left[i] == right[i]
}

/// A change confined to four neighbouring bytes always changes the hash.
pub proof fn lemma_short_change_is_detected(start: u64, left: Seq<u8>, right: Seq<u8>, at: int)
    requires
        alike_but_four(left, right, at),
        left != right,
    ensures
        fnv_from(start, left) != fnv_from(start, right),
    decreases left.len(),
{
    let n = left.len() as int;
    if n == 0 {
        assert(left =~= right);
    } else if left[0] == right[0] {
        let head = seq![left[0]];
        let a = left.skip(1);
        let b = right.skip(1);
        assert(left =~= head + a);
        assert(right =~= head + b);
        if a == b {
            assert(left =~= right);
        }
        assert forall|i: int| 0 <= i < a.len() && !(at - 1 <= i < at + 3) implies #[trigger] a[i]
            == b[i] by {
            assert(left[i + 1] == right[i + 1]);
        }
        lemma_short_change_is_detected(fnv_from(start, head), a, b, at - 1);
        lemma_hash_of_parts(start, head, a);
        lemma_hash_of_parts(start, head, b);
    } else {
        assert(at <= 0);
        let pad = Seq::new(4, |i: int| 0u8);
        let a = left + pad;
        let b = right + pad;
        lemma_four_steps(start, a.take(4), b.take(4));
        assert(a =~= a.take(4) + a.skip(4));
        assert(b =~= b.take(4) + b.skip(4));
        assert forall|i: int| 0 <= i < a.skip(4).len() implies a.skip(4)[i] == b.skip(4)[i] by {
            if i + 4 < n {
                assert(left[i + 4] == right[i + 4]);
            }
        }
        assert(a.skip(4) =~= b.skip(4));
        lemma_hash_of_parts(start, a.take(4), a.skip(4));
        lemma_hash_of_parts(start, b.take(4), b.skip(4));
        lemma_equal_bytes_keep_hashes_apart(
            fnv_from(start, a.take(4)),
            fnv_from(start, b.take(4)),
            a.skip(4),
        );
        lemma_hash_of_parts(start, left, pad);
        lemma_hash_of_parts(start, right, pad);
    }
}

/// Little-endian bytes determine the word.
pub proof fn lemma_u64_bytes_determine_the_word(left: u64, right: u64)
    requires
        u64_bytes(left) == u64_bytes(right),
    ensures
        left == right,
{
    let a = u64_bytes(left);
    let b = u64_bytes(right);
    let low = (left % 0x1_0000_0000) as u32;
    let high = (left / 0x1_0000_0000) as u32;
    let low_right = (right % 0x1_0000_0000) as u32;
    let high_right = (right / 0x1_0000_0000) as u32;
    assert(a.take(4) =~= u32_bytes(low) && a.skip(4) =~= u32_bytes(high));
    assert(b.take(4) =~= u32_bytes(low_right) && b.skip(4) =~= u32_bytes(high_right));
    lemma_u32_bytes_determine_the_word(low, low_right);
    lemma_u32_bytes_determine_the_word(high, high_right);
}

/// Some four neighbouring bytes hold all that differs between the words. Words below
/// two to the thirty-second are always close, and so are words that differ in one
/// byte.
pub open spec fn close_words(left: u64, right: u64) -> bool {
    exists|at: int| #[trigger] alike_but_four(u64_bytes(left), u64_bytes(right), at)
}

/// Words below two to the thirty-second are close.
pub proof fn lemma_small_words_are_close(left: u64, right: u64)
    requires
        left < 0x1_0000_0000,
        right < 0x1_0000_0000,
    ensures
        close_words(left, right),
{
    assert(alike_but_four(u64_bytes(left), u64_bytes(right), 0));
}

/// Exchanging one word of what is hashed for a close one changes the hash.
pub proof fn lemma_exchanged_word_is_detected(
    start: u64,
    before: Seq<u8>,
    left: u64,
    right: u64,
    after: Seq<u8>,
)
    requires
        left != right,
        close_words(left, right),
    ensures
        fnv_from(start, before + u64_bytes(left) + after) != fnv_from(
            start,
            before + u64_bytes(right) + after,
        ),
{
    let a = before + u64_bytes(left) + after;
    let b = before + u64_bytes(right) + after;
    let at = choose|at: int| #[trigger] alike_but_four(u64_bytes(left), u64_bytes(right), at);
    let n = before.len() as int;
    assert forall|i: int| 0 <= i < a.len() && !(n + at <= i < n + at + 4) implies #[trigger] a[i]
        == b[i] by {
        if n <= i < n + 8 {
            assert(u64_bytes(left)[i - n] == u64_bytes(right)[i - n]);
        }
    }
    if a == b {
        assert forall|i: int| 0 <= i < 8 implies u64_bytes(left)[i] == u64_bytes(right)[i] by {
            assert(a[n + i] == b[n + i]);
        }
        assert(u64_bytes(left) =~= u64_bytes(right));
        lemma_u64_bytes_determine_the_word(left, right);
    }
    lemma_short_change_is_detected(start, a, b, n + at);
}

} // verus!
