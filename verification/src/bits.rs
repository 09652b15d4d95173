//! Bit sequences as mathematical values: how a number is laid out as bits,
//! most significant first, what number a run of bits stands for, and how
//! bits are packed into bytes.

use vstd::arithmetic::power2::*;
use vstd::prelude::*;

verus! {

/// The `n` low bits of `v`, most significant first.
pub open spec fn bits_of(v: nat, n: nat) -> Seq<bool>
    decreases n,
{
    if n == 0 {
        Seq::empty()
    } else {
        bits_of(v / 2, (n - 1) as nat).push(v % 2 == 1)
    }
}

/// The number that `bits` spells, read most significant bit first.
pub open spec fn value_of(bits: Seq<bool>) -> nat
    decreases bits.len(),
{
    if bits.len() == 0 {
        0
    } else {
        2 * value_of(bits.drop_last()) + if bits.last() { 1nat } else { 0nat }
    }
}

/// `bits_of` yields exactly `n` bits.
pub proof fn lemma_bits_of_len(v: nat, n: nat)
    ensures
        bits_of(v, n).len() == n,
    decreases n,
{
    if n > 0 {
        lemma_bits_of_len(v / 2, (n - 1) as nat);
    }
}

/// A run of `n` bits spells a number below `2^n`.
pub proof fn lemma_value_of_bound(bits: Seq<bool>)
    ensures
        value_of(bits) < pow2(bits.len()),
    decreases bits.len(),
{
    if bits.len() == 0 {
        lemma2_to64();
    } else {
        lemma_value_of_bound(bits.drop_last());
        lemma_pow2_unfold(bits.len());
    }
}

/// Writing a number below `2^n` as `n` bits and reading them back gives the
/// number again.
pub proof fn lemma_value_of_bits_of(v: nat, n: nat)
    requires
        v < pow2(n),
    ensures
        value_of(bits_of(v, n)) == v,
    decreases n,
{
    if n == 0 {
        lemma2_to64();
    } else {
        lemma_pow2_unfold(n);
        lemma_value_of_bits_of(v / 2, (n - 1) as nat);
        lemma_bits_of_len(v / 2, (n - 1) as nat);
        assert(bits_of(v, n).drop_last() =~= bits_of(v / 2, (n - 1) as nat));
    }
}

/// Reading a run of bits as a number and writing that number with as many
/// bits gives the run again.
pub proof fn lemma_bits_of_value_of(bits: Seq<bool>)
    ensures
        bits_of(value_of(bits), bits.len()) == bits,
    decreases bits.len(),
{
    if bits.len() > 0 {
        lemma_bits_of_value_of(bits.drop_last());
        assert(bits =~= bits.drop_last().push(bits.last()));
    }
}

/// The low `n` bits of a number are what is left of its low `n + 1` bits
/// after the first.
pub proof fn lemma_bits_of_skip_first(v: nat, n: nat)
    ensures
        bits_of(v, n + 1).skip(1) == bits_of(v, n),
    decreases n,
{
    lemma_bits_of_len(v / 2, n);
    if n == 0 {
        assert(bits_of(v, 1).skip(1) =~= bits_of(v, 0));
    } else {
        lemma_bits_of_skip_first(v / 2, (n - 1) as nat);
        lemma_bits_of_len(v / 2, (n - 1) as nat);
        assert(bits_of(v, n + 1).skip(1) =~= bits_of(v / 2, n).skip(1).push(v % 2 == 1));
    }
}

/// The first `k` of the `n` low bits of `v` are the `k` low bits of `v`
/// shifted right by `n - k`.
pub proof fn lemma_bits_of_take(v: nat, n: nat, k: nat)
    requires
        k <= n,
    ensures
        bits_of(v, n).take(k as int) == bits_of(v / pow2((n - k) as nat), k),
    decreases n,
{
    lemma_bits_of_len(v, n);
    if k == n {
        lemma2_to64();
        assert(v / pow2(0) == v);
        assert(bits_of(v, n).take(k as int) =~= bits_of(v, n));
    } else {
        let d = (n - 1 - k) as nat;
        lemma_bits_of_take(v / 2, (n - 1) as nat, k);
        lemma_bits_of_len(v / 2, (n - 1) as nat);
        assert(bits_of(v, n).take(k as int) =~= bits_of(v / 2, (n - 1) as nat).take(k as int));
        lemma_pow2_unfold((n - k) as nat);
        lemma_pow2_pos(d);
        assert((v / 2) / pow2(d) == v / pow2((n - k) as nat)) by {
            vstd::arithmetic::div_mod::lemma_div_denominator(v as int, 2, pow2(d) as int);
        }
    }
}

/// A bit in front of a run adds its weight to the number that the run spells.
pub proof fn lemma_value_of_prepend(b: bool, bits: Seq<bool>)
    ensures
        value_of(seq![b] + bits) == (if b { pow2(bits.len()) } else { 0 }) + value_of(bits),
    decreases bits.len(),
{
    let all = seq![b] + bits;
    if bits.len() == 0 {
        lemma2_to64();
        assert(all.drop_last() =~= Seq::<bool>::empty());
        assert(value_of(all.drop_last()) == 0);
    } else {
        lemma_value_of_prepend(b, bits.drop_last());
        assert(all.drop_last() =~= seq![b] + bits.drop_last());
        lemma_pow2_unfold(bits.len());
    }
}

/// The `n` low bits of a number do not depend on what lies above them.
pub proof fn lemma_bits_of_mod(v: nat, n: nat)
    ensures
        bits_of(v % pow2(n), n) == bits_of(v, n),
    decreases n,
{
    lemma_pow2_pos(n);
    if n > 0 {
        let q = pow2((n - 1) as nat);
        let w = v % pow2(n);
        lemma_pow2_unfold(n);
        lemma_pow2_pos((n - 1) as nat);
        vstd::arithmetic::div_mod::lemma_mod_breakdown(v as int, 2, q as int);
        assert(w / 2 == (v / 2) % q);
        assert(w % 2 == v % 2);
        lemma_bits_of_mod(v / 2, (n - 1) as nat);
    }
}

/// The bits that `bytes` holds from byte `from` on: eight of each byte, most
/// significant first, but of the last byte only the first `last_valid`.
pub open spec fn packed_bits(bytes: Seq<u8>, from: int, last_valid: nat) -> Seq<bool>
    decreases bytes.len() - from,
{
    if from < 0 || from >= bytes.len() {
        Seq::empty()
    } else if from == bytes.len() - 1 {
        bits_of(bytes[from] as nat, 8).take(last_valid as int)
    } else {
        bits_of(bytes[from] as nat, 8) + packed_bits(bytes, from + 1, last_valid)
    }
}

/// How many bits `packed_bits` yields.
pub open spec fn packed_len(len: nat, from: int, last_valid: nat) -> nat {
    if 0 <= from < len {
        (8 * (len - 1 - from) + last_valid) as nat
    } else {
        0
    }
}

/// `packed_bits` yields eight bits for each byte but the last, and
/// `last_valid` for that one.
pub proof fn lemma_packed_bits_len(bytes: Seq<u8>, from: int, last_valid: nat)
    requires
        last_valid <= 8,
    ensures
        packed_bits(bytes, from, last_valid).len() == packed_len(bytes.len(), from, last_valid),
    decreases bytes.len() - from,
{
    if 0 <= from < bytes.len() {
        lemma_bits_of_len(bytes[from] as nat, 8);
        if from < bytes.len() - 1 {
            lemma_packed_bits_len(bytes, from + 1, last_valid);
        }
    }
}

/// One more byte at the end adds its first `last_valid` bits to the bits of
/// the bytes before it, which then count in full.
pub proof fn lemma_packed_bits_push(bytes: Seq<u8>, from: int, byte: u8, last_valid: nat)
    requires
        0 <= from <= bytes.len(),
    ensures
        packed_bits(bytes.push(byte), from, last_valid) == packed_bits(bytes, from, 8) + bits_of(
            byte as nat,
            8,
        ).take(last_valid as int),
    decreases bytes.len() - from,
{
    let longer = bytes.push(byte);
    if from == bytes.len() {
        assert(packed_bits(bytes, from, 8) =~= Seq::<bool>::empty());
        assert(packed_bits(longer, from, last_valid) =~= packed_bits(bytes, from, 8) + bits_of(
            byte as nat,
            8,
        ).take(last_valid as int));
    } else {
        lemma_packed_bits_push(bytes, from + 1, byte, last_valid);
        lemma_bits_of_len(bytes[from] as nat, 8);
        if from == bytes.len() - 1 {
            assert(packed_bits(bytes, from + 1, 8) =~= Seq::<bool>::empty());
            assert(packed_bits(bytes, from, 8) =~= bits_of(bytes[from] as nat, 8));
        }
        assert(packed_bits(longer, from, last_valid) =~= packed_bits(bytes, from, 8) + bits_of(
            byte as nat,
            8,
        ).take(last_valid as int));
    }
}

/// The bytes that `bits` fill, eight to a byte, most significant first. Bits
/// that do not fill a byte stand at the top of a last byte, above zeros.
pub open spec fn pack(bits: Seq<bool>) -> Seq<u8>
    decreases bits.len(),
{
    if bits.len() == 0 {
        Seq::empty()
    } else if bits.len() <= 8 {
        seq![(value_of(bits) * pow2((8 - bits.len()) as nat)) as u8]
    } else {
        seq![value_of(bits.take(8)) as u8] + pack(bits.skip(8))
    }
}

/// How many bits of the last byte of `pack` are meaningful where it packs
/// `count` bits: between 1 and 8.
pub open spec fn last_byte_count(count: nat) -> nat {
    if count % 8 == 0 {
        8
    } else {
        count % 8
    }
}

/// `byte` with all but its first `valid` bits set to zero.
pub open spec fn top_bits_only(byte: u8, valid: nat) -> u8 {
    ((byte as nat / pow2((8 - valid) as nat)) * pow2((8 - valid) as nat)) as u8
}

/// Eight bits in front of a run pack into one byte in front of the run's
/// bytes.
pub proof fn lemma_pack_byte(byte: u8, rest: Seq<bool>)
    ensures
        pack(bits_of(byte as nat, 8) + rest) == seq![byte] + pack(rest),
{
    let first = bits_of(byte as nat, 8);
    let all = first + rest;
    lemma2_to64();
    lemma_bits_of_len(byte as nat, 8);
    lemma_value_of_bits_of(byte as nat, 8);
    if rest.len() == 0 {
        assert(all =~= first);
        assert(pack(rest) =~= Seq::<u8>::empty());
        assert(value_of(first) * pow2(0) == byte);
        assert(pack(first) =~= seq![byte]);
        assert(pack(all) =~= seq![byte] + pack(rest));
    } else {
        assert(all.take(8) =~= first);
        assert(all.skip(8) =~= rest);
    }
}

/// Packing the bits of whole bytes, followed by a run, gives those bytes
/// again, followed by the run's bytes.
pub proof fn lemma_pack_packed(bytes: Seq<u8>, from: int, rest: Seq<bool>)
    requires
        0 <= from <= bytes.len(),
    ensures
        pack(packed_bits(bytes, from, 8) + rest) == bytes.skip(from) + pack(rest),
    decreases bytes.len() - from,
{
    if from == bytes.len() {
        assert(packed_bits(bytes, from, 8) + rest =~= rest);
        assert(bytes.skip(from) + pack(rest) =~= pack(rest));
    } else {
        let first = bits_of(bytes[from] as nat, 8);
        let others = packed_bits(bytes, from + 1, 8);
        lemma_bits_of_len(bytes[from] as nat, 8);
        assert(first.take(8) =~= first);
        assert(packed_bits(bytes, from, 8) =~= first + others);
        assert(packed_bits(bytes, from, 8) + rest =~= first + (others + rest));
        lemma_pack_byte(bytes[from], others + rest);
        lemma_pack_packed(bytes, from + 1, rest);
        assert(bytes.skip(from) + pack(rest) =~= seq![bytes[from]] + (bytes.skip(from + 1) + pack(
            rest,
        )));
    }
}

/// Fewer than eight bits pack into one byte: their value, moved to the top.
pub proof fn lemma_pack_partial(v: nat, n: nat)
    requires
        1 <= n <= 8,
        v < pow2(n),
    ensures
        v * pow2((8 - n) as nat) < 256,
        pack(bits_of(v, n)) == seq![(v * pow2((8 - n) as nat)) as u8],
{
    let weight = pow2((8 - n) as nat);
    lemma2_to64();
    lemma_pow2_adds(n, (8 - n) as nat);
    lemma_pow2_pos((8 - n) as nat);
    assert(v * weight < pow2(n) * weight) by (nonlinear_arith)
        requires
            v < pow2(n),
            weight > 0,
    ;
    lemma_bits_of_len(v, n);
    lemma_value_of_bits_of(v, n);
}

/// Packing the bits that bytes hold gives the bytes again, the last of them
/// with the bits that do not count set to zero.
pub proof fn lemma_pack_packed_last(bytes: Seq<u8>, from: int, last_valid: nat)
    requires
        0 <= from < bytes.len(),
        1 <= last_valid <= 8,
    ensures
        pack(packed_bits(bytes, from, last_valid)) == bytes.subrange(
            from,
            bytes.len() - 1,
        ).push(top_bits_only(bytes.last(), last_valid)),
    decreases bytes.len() - from,
{
    let byte = bytes[from];
    lemma_bits_of_len(byte as nat, 8);
    if from == bytes.len() - 1 {
        let weight = pow2((8 - last_valid) as nat);
        lemma_pow2_pos((8 - last_valid) as nat);
        lemma_bits_of_take(byte as nat, 8, last_valid);
        lemma2_to64();
        lemma_pow2_adds(last_valid, (8 - last_valid) as nat);
        assert(byte as nat / weight < pow2(last_valid)) by (nonlinear_arith)
            requires
                byte < pow2(last_valid) * weight,
                weight > 0,
        ;
        lemma_pack_partial(byte as nat / weight, last_valid);
        assert(bytes.subrange(from, bytes.len() - 1) =~= Seq::<u8>::empty());
        assert(pack(packed_bits(bytes, from, last_valid)) =~= bytes.subrange(
            from,
            bytes.len() - 1,
        ).push(top_bits_only(bytes.last(), last_valid)));
    } else {
        let others = packed_bits(bytes, from + 1, last_valid);
        lemma_pack_byte(byte, others);
        lemma_pack_packed_last(bytes, from + 1, last_valid);
        assert(bytes.subrange(from, bytes.len() - 1).push(top_bits_only(bytes.last(), last_valid))
            =~= seq![byte] + bytes.subrange(from + 1, bytes.len() - 1).push(
            top_bits_only(bytes.last(), last_valid),
        ));
    }
}

/// The bits of bytes behind a prefix are the bits of those bytes alone.
pub proof fn lemma_packed_bits_behind(first: u8, bytes: Seq<u8>, from: int, last_valid: nat)
    requires
        0 <= from,
    ensures
        packed_bits(seq![first] + bytes, from + 1, last_valid) == packed_bits(
            bytes,
            from,
            last_valid,
        ),
    decreases bytes.len() - from,
{
    let longer = seq![first] + bytes;
    if from < bytes.len() {
        assert(longer[from + 1] == bytes[from]);
        if from < bytes.len() - 1 {
            lemma_packed_bits_behind(first, bytes, from + 1, last_valid);
        }
    }
}

/// Unpacking undoes packing: the bytes that a run of bits fills hold that
/// run, where the last byte counts for as many bits as the run left for it.
pub proof fn lemma_unpack_pack(bits: Seq<bool>)
    requires
        bits.len() > 0,
    ensures
        pack(bits).len() == (bits.len() + 7) / 8,
        packed_bits(pack(bits), 0, last_byte_count(bits.len())) == bits,
    decreases bits.len(),
{
    lemma2_to64();
    if bits.len() <= 8 {
        let n = bits.len();
        let weight = pow2((8 - n) as nat);
        let v = value_of(bits);
        lemma_value_of_bound(bits);
        lemma_bits_of_value_of(bits);
        lemma_pack_partial(v, n);
        lemma_pow2_pos((8 - n) as nat);
        lemma_bits_of_take(v * weight, 8, n);
        vstd::arithmetic::div_mod::lemma_div_by_multiple(v as int, weight as int);
        assert((v * weight) / weight == v);
        assert(packed_bits(pack(bits), 0, n) =~= bits);
    } else {
        let first = bits.take(8);
        let rest = bits.skip(8);
        let byte = value_of(first) as u8;
        let count = last_byte_count(bits.len());
        lemma_value_of_bound(first);
        lemma_bits_of_value_of(first);
        lemma_unpack_pack(rest);
        assert(last_byte_count(rest.len()) == count);
        lemma_packed_bits_behind(byte, pack(rest), 0, count);
        assert(packed_bits(pack(bits), 0, count) =~= first + rest);
        assert(first + rest =~= bits);
    }
}

} // verus!
