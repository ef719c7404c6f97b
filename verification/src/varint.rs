use vstd::arithmetic::power::pow;
use vstd::prelude::*;

use crate::error::DecodeError;

verus! {

/// The payload of one varint byte: its low seven bits.
pub open spec fn payload(b: u8) -> int {
    (b as int) % 0x80
}

/// Whether `b` signals that more varint bytes follow.
pub open spec fn continues(b: u8) -> bool {
    b >= 0x80
}

/// `n` bytes starting at `pos` form one whole varint: every byte but the
/// last keeps the continuation bit, the last one drops it.
pub open spec fn is_varint_frame(data: Seq<u8>, pos: int, n: int) -> bool {
    &&& 1 <= n
    &&& 0 <= pos
    &&& pos + n <= data.len()
    &&& forall|i: int| pos <= i < pos + n - 1 ==> continues(#[trigger] data[i])
    &&& !continues(data[pos + n - 1])
}

/// The unbounded value carried by `n` varint bytes starting at `pos`,
/// little-endian base 128.
pub open spec fn varint_value(data: Seq<u8>, pos: int, n: int) -> int
    decreases n,
{
    if n <= 0 {
        0
    } else {
        payload(data[pos]) + 0x80 * varint_value(data, pos + 1, n - 1)
    }
}

/// A varint that starts at `pos` terminates within `budget` bytes.
pub open spec fn has_varint_within(data: Seq<u8>, pos: int, budget: int) -> bool {
    exists|n: int| n <= budget && is_varint_frame(data, pos, n)
}

/// A varint that starts at `pos` terminates within the ten bytes any
/// 64-bit value needs.
pub open spec fn has_varint(data: Seq<u8>, pos: int) -> bool {
    has_varint_within(data, pos, 10)
}

/// The buffer ends, within a budget of `budget` bytes, before a varint
/// starting at `pos` terminates.
pub open spec fn varint_runs_off_end_within(data: Seq<u8>, pos: int, budget: int) -> bool {
    &&& data.len() - pos < budget
    &&& forall|i: int| pos <= i < data.len() ==> continues(#[trigger] data[i])
}

/// `budget` bytes from `pos` onward all keep the continuation bit.
pub open spec fn varint_overlong_within(data: Seq<u8>, pos: int, budget: int) -> bool {
    &&& pos + budget <= data.len()
    &&& forall|i: int| pos <= i < pos + budget ==> continues(#[trigger] data[i])
}

/// Values carried by varints are truncated to 64 bits.
pub open spec fn truncate64(v: int) -> int {
    v % 0x1_0000_0000_0000_0000
}

/// The bits a varint continuation contributes above bit 31: three bits from
/// the first byte's high nibble, then seven bits per following byte.
pub open spec fn varint_high(data: Seq<u8>, pos: int, n: int) -> int {
    payload(data[pos]) / 16 + 8 * varint_value(data, pos + 1, n - 1)
}

/// How a 64-bit result is assembled from 32 low bits and the high bits.
pub open spec fn to_num_spec(low: int, high: int) -> int {
    low + 0x1_0000_0000 * (high % 0x1_0000_0000)
}

/// The powers of 128 the cursor arithmetic leans on, written out.
proof fn lemma_pow128_table()
    ensures
        pow(0x80, 0) == 1,
        pow(0x80, 1) == 0x80,
        pow(0x80, 2) == 0x4000,
        pow(0x80, 3) == 0x20_0000,
        pow(0x80, 4) == 0x1000_0000,
        pow(0x80, 5) == 0x8_0000_0000,
        pow(0x80, 10) == 0x40_0000_0000_0000_0000,
{
    reveal_with_fuel(pow, 11);
}

proof fn lemma_varint_value_nonneg(data: Seq<u8>, pos: int, n: int)
    ensures
        0 <= varint_value(data, pos, n),
    decreases n,
{
    if n > 0 {
        lemma_varint_value_nonneg(data, pos + 1, n - 1);
    }
}

proof fn lemma_varint_value_bound(data: Seq<u8>, pos: int, n: int)
    requires
        0 <= n,
    ensures
        0 <= varint_value(data, pos, n) < pow(0x80, n as nat),
    decreases n,
{
    if n == 0 {
        assert(pow(0x80, 0) == 1) by {
            vstd::arithmetic::power::lemma_pow0(0x80);
        }
    } else {
        lemma_varint_value_bound(data, pos + 1, n - 1);
        assert(pow(0x80, n as nat) == 0x80 * pow(0x80, (n - 1) as nat)) by {
            reveal(pow);
        }
        assert(0x80 * varint_value(data, pos + 1, n - 1) <= 0x80 * (pow(0x80, (n - 1) as nat)
            - 1)) by (nonlinear_arith)
            requires
                varint_value(data, pos + 1, n - 1) <= pow(0x80, (n - 1) as nat) - 1,
        ;
    }
}

proof fn lemma_varint_value_snoc(data: Seq<u8>, pos: int, n: int)
    requires
        0 <= n,
    ensures
        varint_value(data, pos, n + 1) == varint_value(data, pos, n) + pow(0x80, n as nat)
            * payload(data[pos + n]),
    decreases n,
{
    if n == 0 {
        vstd::arithmetic::power::lemma_pow0(0x80);
        assert(varint_value(data, pos, 1) == payload(data[pos]) + 0x80 * varint_value(
            data,
            pos + 1,
            0,
        ));
        assert(varint_value(data, pos, 0) == 0);
        assert(varint_value(data, pos, 1) == payload(data[pos]));
    } else {
        lemma_varint_value_snoc(data, pos + 1, n - 1);
        let a = varint_value(data, pos + 1, n - 1);
        let p = payload(data[pos + n]);
        let q = pow(0x80, (n - 1) as nat);
        assert(pow(0x80, n as nat) == 0x80 * q) by {
            reveal(pow);
        }
        assert(varint_value(data, pos + 1, n) == a + q * p);
        assert(0x80 * (a + q * p) == 0x80 * a + (0x80 * q) * p) by (nonlinear_arith);
        assert(varint_value(data, pos, n + 1) == payload(data[pos]) + 0x80 * (a + q * p));
        assert(varint_value(data, pos, n) == payload(data[pos]) + 0x80 * a);
        assert(varint_value(data, pos, n + 1) == varint_value(data, pos, n) + (0x80 * q) * p);
        assert(pow(0x80, n as nat) * p == (0x80 * q) * p) by (nonlinear_arith)
            requires
                pow(0x80, n as nat) == 0x80 * q,
        ;
    }
}

/// Two frames that start at the same position have the same length: the
/// first byte without a continuation bit ends both.
pub proof fn lemma_varint_frame_unique(data: Seq<u8>, pos: int, n1: int, n2: int)
    requires
        is_varint_frame(data, pos, n1),
        is_varint_frame(data, pos, n2),
    ensures
        n1 == n2,
{
    if n1 < n2 {
        assert(continues(data[pos + n1 - 1]));
    }
    if n2 < n1 {
        assert(continues(data[pos + n2 - 1]));
    }
}

/// Continue a varint whose first four bytes all carried the continuation
/// bit: `val` holds the 32 bits those bytes and the low nibble of the byte
/// at the cursor contributed; the bytes at the cursor supply the rest.
#[verifier::loop_isolation(false)]
pub fn read_varint_remainder(data: &[u8], pos: &mut usize, val: u64) -> (r: Result<
    u64,
    DecodeError,
>)
    requires
        val < 0x1_0000_0000,
    ensures
        r matches Ok(v) ==> {
            &&& is_varint_frame(data@, *old(pos) as int, *final(pos) - *old(pos))
            &&& *final(pos) - *old(pos) <= 6
            &&& v == to_num_spec(
                val as int,
                varint_high(data@, *old(pos) as int, *final(pos) - *old(pos)),
            )
        },
        r is Ok <==> has_varint_within(data@, *old(pos) as int, 6),
        r == Err::<u64, DecodeError>(DecodeError::OutOfBounds) <==> varint_runs_off_end_within(
            data@,
            *old(pos) as int,
            6,
        ),
        r == Err::<u64, DecodeError>(DecodeError::VarintTooLong) <==> varint_overlong_within(
            data@,
            *old(pos) as int,
            6,
        ),
{
    let ghost pos0: int = *pos as int;
    if *pos >= data.len() {
        return Err(DecodeError::OutOfBounds);
    }
    let b0: u8 = data[*pos];
    *pos += 1;
    let mut high: u64 = (b0 as u64 % 0x80) / 16;
    if b0 < 0x80 {
        assert(is_varint_frame(data@, pos0, 1));
        return Ok(to_num(val, high));
    }
    let mut mult: u64 = 8;
    let mut i: usize = 1;
    proof {
        vstd::arithmetic::power::lemma_pow0(0x80);
    }
    while i < 6
        invariant
            1 <= i <= 6,
            val < 0x1_0000_0000,
            pos0 >= 0,
            pos0 + i == *pos as int,
            pos0 + i <= data@.len(),
            forall|j: int| pos0 <= j < pos0 + i ==> continues(#[trigger] data@[j]),
            high == varint_high(data@, pos0, i as int),
            mult == 8 * pow(0x80, (i - 1) as nat),
            0 <= high < mult,
            mult <= 0x40_0000_0000,
        decreases 6 - i,
    {
        if *pos >= data.len() {
            assert(varint_runs_off_end_within(data@, pos0, 6));
            assert forall|n: int| !(#[trigger] is_varint_frame(data@, pos0, n)) by {
                if 1 <= n && pos0 + n <= data@.len() {
                    assert(continues(data@[pos0 + n - 1]));
                }
            }
            return Err(DecodeError::OutOfBounds);
        }
        let b: u8 = data[*pos];
        *pos += 1;
        proof {
            lemma_varint_value_snoc(data@, pos0 + 1, i - 1);
            let a = varint_value(data@, pos0 + 1, i - 1);
            let p = payload(data@[pos0 + i]);
            let q = pow(0x80, (i - 1) as nat);
            assert(varint_value(data@, pos0 + 1, i as int) == a + q * p);
            assert(8 * (a + q * p) == 8 * a + (8 * q) * p) by (nonlinear_arith);
            assert(p * mult <= 0x7f * mult) by (nonlinear_arith)
                requires
                    0 <= p <= 0x7f,
                    mult >= 0,
            ;
            assert(varint_high(data@, pos0, i + 1) == payload(data@[pos0]) / 16 + 8
                * varint_value(data@, pos0 + 1, i as int));
            assert(varint_high(data@, pos0, i as int) == payload(data@[pos0]) / 16 + 8 * a);
            assert(p * mult == (8 * q) * p) by (nonlinear_arith)
                requires
                    mult == 8 * q,
            ;
            assert(varint_high(data@, pos0, i + 1) == varint_high(data@, pos0, i as int) + p
                * mult);
        }
        high = high + (b as u64 % 0x80) * mult;
        if b < 0x80 {
            assert(is_varint_frame(data@, pos0, i + 1));
            return Ok(to_num(val, high));
        }
        mult = mult * 0x80;
        i += 1;
        proof {
            let q = pow(0x80, (i - 2) as nat);
            assert(pow(0x80, (i - 1) as nat) == 0x80 * q) by {
                reveal(pow);
            }
            assert(8 * (0x80 * q) == (8 * q) * 0x80) by (nonlinear_arith);
            assert(pow(0x80, (i - 1) as nat) <= pow(0x80, 5)) by {
                vstd::arithmetic::power::lemma_pow_increases(0x80, (i - 1) as nat, 5);
            }
            assert(pow(0x80, 5) == 0x8_0000_0000) by {
                lemma_pow128_table();
            }
        }
    }
    // Six continuation bytes: the varint would run past ten bytes in all.
    assert(varint_overlong_within(data@, pos0, 6));
    assert forall|n: int| #[trigger] is_varint_frame(data@, pos0, n) implies n > 6 by {
        if 1 <= n <= 6 {
            assert(continues(data@[pos0 + n - 1]));
        }
    }
    Err(DecodeError::VarintTooLong)
}

fn to_num(low: u64, high: u64) -> (r: u64)
    requires
        low < 0x1_0000_0000,
    ensures
        r == to_num_spec(low as int, high as int),
{
    (high % 0x1_0000_0000) * 0x1_0000_0000 + low
}

/// Split a varint value into the part its first four bytes carry and the
/// part the remainder carries, matching how the two readers share work.
proof fn lemma_varint_split(data: Seq<u8>, pos: int, n: int)
    requires
        5 <= n <= 10,
        is_varint_frame(data, pos, n),
    ensures
        truncate64(varint_value(data, pos, n)) == to_num_spec(
            varint_value(data, pos, 4) + (payload(data[pos + 4]) % 16) * 0x1000_0000,
            varint_high(data, pos + 4, n - 4),
        ),
{
    let l4 = varint_value(data, pos, 4);
    let p4 = payload(data[pos + 4]);
    let v5 = varint_value(data, pos + 5, n - 5);
    let w = varint_value(data, pos + 4, n - 4);
    let high = varint_high(data, pos + 4, n - 4);
    let low = l4 + (p4 % 16) * 0x1000_0000;

    assert(varint_value(data, pos, n) == l4 + pow(0x80, 4) * w) by {
        lemma_varint_value_split_at(data, pos, 4, n - 4);
    }
    assert(pow(0x80, 4) == 0x1000_0000) by {
        lemma_pow128_table();
    }
    assert(w == p4 + 0x80 * v5);
    assert(high == p4 / 16 + 8 * v5);
    assert(p4 == 16 * (p4 / 16) + p4 % 16) by (nonlinear_arith)
        requires
            0 <= p4,
    ;
    // Assemble: value == low + 2^32 * high.
    assert(varint_value(data, pos, n) == low + 0x1_0000_0000 * high) by (nonlinear_arith)
        requires
            varint_value(data, pos, n) == l4 + 0x1000_0000 * w,
            w == p4 + 0x80 * v5,
            high == p4 / 16 + 8 * v5,
            p4 == 16 * (p4 / 16) + p4 % 16,
            low == l4 + (p4 % 16) * 0x1000_0000,
    ;
    // Truncation keeps the low 32 bits and the low 32 bits of `high`.
    lemma_varint_value_bound(data, pos, 4);
    assert(pow(0x80, 4) == 0x1000_0000) by {
        lemma_pow128_table();
    }
    assert(0 <= p4 % 16 < 16);
    assert((p4 % 16) * 0x1000_0000 <= 15 * 0x1000_0000) by (nonlinear_arith)
        requires
            0 <= p4 % 16 < 16,
    ;
    assert(0 <= low < 0x1_0000_0000);
    lemma_varint_value_nonneg(data, pos + 5, n - 5);
    assert(0 <= high);
    lemma_truncate_mid(low, high);
}

/// `(low + 2^32 h) % 2^64 == low + 2^32 (h % 2^32)` when `low` fits 32 bits.
proof fn lemma_truncate_mid(low: int, high: int)
    requires
        0 <= low < 0x1_0000_0000,
        0 <= high,
    ensures
        (low + 0x1_0000_0000 * high) % 0x1_0000_0000_0000_0000 == low + 0x1_0000_0000 * (high
            % 0x1_0000_0000),
{
    let q = high / 0x1_0000_0000;
    let r = high % 0x1_0000_0000;
    vstd::arithmetic::div_mod::lemma_fundamental_div_mod(high, 0x1_0000_0000);
    vstd::arithmetic::div_mod::lemma_mod_bound(high, 0x1_0000_0000);
    assert(low + 0x1_0000_0000 * high == (low + 0x1_0000_0000 * r) + 0x1_0000_0000_0000_0000 * q)
        by (nonlinear_arith)
        requires
            high == 0x1_0000_0000 * q + r,
    ;
    assert(0 <= low + 0x1_0000_0000 * r < 0x1_0000_0000_0000_0000) by (nonlinear_arith)
        requires
            0 <= low < 0x1_0000_0000,
            0 <= r < 0x1_0000_0000,
    ;
    vstd::arithmetic::div_mod::lemma_mod_multiples_vanish(
        q,
        low + 0x1_0000_0000 * r,
        0x1_0000_0000_0000_0000,
    );
    vstd::arithmetic::div_mod::lemma_small_mod(
        (low + 0x1_0000_0000 * r) as nat,
        0x1_0000_0000_0000_0000,
    );
}

/// A varint value splits at any byte boundary.
proof fn lemma_varint_value_split_at(data: Seq<u8>, pos: int, a: int, b: int)
    requires
        0 <= a,
        0 <= b,
    ensures
        varint_value(data, pos, a + b) == varint_value(data, pos, a) + pow(0x80, a as nat)
            * varint_value(data, pos + a, b),
    decreases a,
{
    if a == 0 {
        vstd::arithmetic::power::lemma_pow0(0x80);
    } else {
        lemma_varint_value_split_at(data, pos + 1, a - 1, b);
        assert(pow(0x80, a as nat) == 0x80 * pow(0x80, (a - 1) as nat)) by {
            reveal(pow);
        }
        assert(0x80 * (varint_value(data, pos + 1, a - 1) + pow(0x80, (a - 1) as nat)
            * varint_value(data, pos + a, b)) == 0x80 * varint_value(data, pos + 1, a - 1) + (0x80
            * pow(0x80, (a - 1) as nat)) * varint_value(data, pos + a, b)) by (nonlinear_arith);
    }
}

/// Decode one little-endian base-128 varint at the cursor. On success the
/// cursor stands one past the last byte consumed and the result is the
/// varint's value truncated to 64 bits; the cursor is left in place or
/// mid-varint on failure.
#[verifier::loop_isolation(false)]
pub fn read_varint(data: &[u8], pos: &mut usize) -> (r: Result<u64, DecodeError>)
    ensures
        r matches Ok(v) ==> {
            &&& is_varint_frame(data@, *old(pos) as int, *final(pos) - *old(pos))
            &&& *final(pos) - *old(pos) <= 10
            &&& v == truncate64(varint_value(data@, *old(pos) as int, *final(pos) - *old(pos)))
        },
        r is Ok <==> has_varint(data@, *old(pos) as int),
        r == Err::<u64, DecodeError>(DecodeError::OutOfBounds) <==> varint_runs_off_end_within(
            data@,
            *old(pos) as int,
            10,
        ),
        r == Err::<u64, DecodeError>(DecodeError::VarintTooLong) <==> varint_overlong_within(
            data@,
            *old(pos) as int,
            10,
        ),
{
    let ghost pos0: int = *pos as int;
    let mut val: u64 = 0;
    let mut mult: u64 = 1;
    let mut i: usize = 0;
    proof {
        vstd::arithmetic::power::lemma_pow0(0x80);
    }
    while i < 4
        invariant
            0 <= i <= 4,
            pos0 + i == *pos as int,
            i > 0 ==> pos0 + i <= data@.len(),
            pos0 >= 0,
            forall|j: int| pos0 <= j < pos0 + i ==> continues(#[trigger] data@[j]),
            val == varint_value(data@, pos0, i as int),
            mult == pow(0x80, i as nat),
            0 <= val < mult,
            mult <= 0x1000_0000,
        decreases 4 - i,
    {
        if *pos >= data.len() {
            assert(varint_runs_off_end_within(data@, pos0, 10));
            assert forall|n: int| !(#[trigger] is_varint_frame(data@, pos0, n)) by {
                if 1 <= n && pos0 + n <= data@.len() {
                    assert(continues(data@[pos0 + n - 1]));
                }
            }
            return Err(DecodeError::OutOfBounds);
        }
        let b: u8 = data[*pos];
        *pos += 1;
        proof {
            lemma_varint_value_snoc(data@, pos0, i as int);
            assert(payload(b) * mult <= 0x7f * mult) by (nonlinear_arith)
                requires
                    0 <= payload(b) <= 0x7f,
                    mult >= 0,
            ;
            assert(val + payload(b) * mult == varint_value(data@, pos0, i + 1)) by (
            nonlinear_arith)
                requires
                    val == varint_value(data@, pos0, i as int),
                    mult == pow(0x80, i as nat),
                    payload(b) == payload(data@[pos0 + i]),
                    varint_value(data@, pos0, i + 1) == varint_value(data@, pos0, i as int) + pow(
                        0x80,
                        i as nat,
                    ) * payload(data@[pos0 + i]),
            ;
        }
        val = val + (b as u64 % 0x80) * mult;
        if b < 0x80 {
            assert(is_varint_frame(data@, pos0, i + 1));
            proof {
                lemma_varint_value_bound(data@, pos0, i + 1);
                assert(pow(0x80, (i + 1) as nat) <= pow(0x80, 10)) by {
                    vstd::arithmetic::power::lemma_pow_increases(0x80, (i + 1) as nat, 10);
                }
                assert(pow(0x80, 10) > 0x1_0000_0000_0000_0000) by {
                    lemma_pow128_table();
                }
                vstd::arithmetic::div_mod::lemma_small_mod(
                    val as nat,
                    0x1_0000_0000_0000_0000,
                );
            }
            return Ok(val);
        }
        mult = mult * 0x80;
        i += 1;
        proof {
            assert(pow(0x80, i as nat) == 0x80 * pow(0x80, (i - 1) as nat)) by {
                reveal(pow);
            }
            assert(pow(0x80, i as nat) <= pow(0x80, 4)) by {
                vstd::arithmetic::power::lemma_pow_increases(0x80, i as nat, 4);
            }
            assert(pow(0x80, 4) == 0x1000_0000) by {
                lemma_pow128_table();
            }
        }
    }
    // Four continuation bytes hold bits 0..28; the fifth byte's low nibble
    // completes the 32 low bits, its high bits start the remainder.
    if *pos >= data.len() {
        assert(varint_runs_off_end_within(data@, pos0, 10));
        assert forall|n: int| !(#[trigger] is_varint_frame(data@, pos0, n)) by {
            if 1 <= n && pos0 + n <= data@.len() {
                assert(continues(data@[pos0 + n - 1]));
            }
        }
        return Err(DecodeError::OutOfBounds);
    }
    let b: u8 = data[*pos];
    let low: u64 = val + (b as u64 % 16) * 0x1000_0000;
    let res = read_varint_remainder(data, pos, low);
    proof {
        let len = *pos - (pos0 + 4);
        if res is Ok {
            assert(is_varint_frame(data@, pos0 + 4, len));
            assert(is_varint_frame(data@, pos0, 4 + len));
            assert(data@[pos0 + 4] == b);
            lemma_payload_low_nibble(b);
            lemma_varint_split(data@, pos0, 4 + len);
            assert(4 + len <= 10);
        } else {
            // Translate the remainder's failure conditions across the four
            // known continuation bytes.
            assert forall|n: int|
                n <= 10 && is_varint_frame(data@, pos0, n) implies n - 4 <= 6 && is_varint_frame(
                data@,
                pos0 + 4,
                n - 4,
            ) by {
                if n < 5 {
                    assert(continues(data@[pos0 + n - 1]));
                }
            }
            assert(varint_runs_off_end_within(data@, pos0 + 4, 6) ==> varint_runs_off_end_within(
                data@,
                pos0,
                10,
            ));
            assert(varint_overlong_within(data@, pos0 + 4, 6) ==> varint_overlong_within(
                data@,
                pos0,
                10,
            ));
        }
        assert(varint_runs_off_end_within(data@, pos0, 10) ==> varint_runs_off_end_within(
            data@,
            pos0 + 4,
            6,
        ));
        assert(varint_overlong_within(data@, pos0, 10) ==> varint_overlong_within(
            data@,
            pos0 + 4,
            6,
        ));
        if has_varint_within(data@, pos0, 10) {
            let n = choose|n: int| n <= 10 && #[trigger] is_varint_frame(data@, pos0, n);
            if n >= 5 {
                assert(is_varint_frame(data@, pos0 + 4, n - 4));
            } else {
                assert(continues(data@[pos0 + n - 1]));
            }
        }
        if has_varint_within(data@, pos0 + 4, 6) {
            let n = choose|n: int| n <= 6 && #[trigger] is_varint_frame(data@, pos0 + 4, n);
            assert(is_varint_frame(data@, pos0, n + 4));
        }
    }
    res
}

proof fn lemma_payload_low_nibble(b: u8)
    ensures
        (b as int) % 16 == payload(b) % 16,
{
    assert((b as int) % 16 == ((b as int) % 0x80) % 16) by (nonlinear_arith)
        requires
            0 <= b < 0x100,
    ;
}

/// A conformant base-128 encoding of `v`: the shortest byte string a varint
/// writer produces for it.
pub open spec fn varint_encoding(v: int) -> Seq<u8>
    decreases v,
{
    if v < 0x80 {
        seq![v as u8]
    } else {
        seq![(0x80 + v % 0x80) as u8] + varint_encoding(v / 0x80)
    }
}

/// Encode `v` as a little-endian base-128 varint.
#[verifier::loop_isolation(false)]
pub fn encode_varint(v: u64) -> (r: Vec<u8>)
    ensures
        r@ == varint_encoding(v as int),
{
    let mut out: Vec<u8> = Vec::new();
    let mut x: u64 = v;
    while x >= 0x80
        invariant
            varint_encoding(v as int) == out@ + varint_encoding(x as int),
        decreases x,
    {
        let ghost out0 = out@;
        let ghost x0: int = x as int;
        out.push((0x80 + (x % 0x80)) as u8);
        x = x / 0x80;
        proof {
            assert(varint_encoding(x0) == seq![(0x80 + x0 % 0x80) as u8] + varint_encoding(
                x0 / 0x80,
            ));
            assert(out0 + varint_encoding(x0) =~= out@ + varint_encoding(x as int));
        }
    }
    let ghost out0 = out@;
    out.push(x as u8);
    proof {
        assert(varint_encoding(x as int) == seq![x as u8]);
        assert(out0 + varint_encoding(x as int) =~= out@);
    }
    out
}

/// Two byte ranges that hold the same bytes carry the same varint value.
proof fn lemma_varint_value_congruent(d1: Seq<u8>, p1: int, d2: Seq<u8>, p2: int, n: int)
    requires
        forall|k: int| 0 <= k < n ==> #[trigger] d1[p1 + k] == d2[p2 + k],
    ensures
        varint_value(d1, p1, n) == varint_value(d2, p2, n),
    decreases n,
{
    if n > 0 {
        assert(d1[p1 + 0] == d2[p2 + 0]);
        assert forall|k: int| 0 <= k < n - 1 implies #[trigger] d1[(p1 + 1) + k] == d2[(p2 + 1) + k] by {
            assert(d1[p1 + (k + 1)] == d2[p2 + (k + 1)]);
        }
        lemma_varint_value_congruent(d1, p1 + 1, d2, p2 + 1, n - 1);
    }
}

/// What a conformant encoding looks like: one whole frame whose value is the
/// encoded number, of minimal width.
proof fn lemma_varint_encoding_props(v: int)
    requires
        0 <= v,
    ensures
        1 <= varint_encoding(v).len(),
        is_varint_frame(varint_encoding(v), 0, varint_encoding(v).len() as int),
        varint_value(varint_encoding(v), 0, varint_encoding(v).len() as int) == v,
        v < 0x80 ==> varint_encoding(v).len() == 1,
        v >= 0x80 ==> pow(0x80, (varint_encoding(v).len() - 1) as nat) <= v,
    decreases v,
{
    let e = varint_encoding(v);
    if v < 0x80 {
        assert(e =~= seq![v as u8]);
        assert(!continues(e[0]));
        assert(is_varint_frame(e, 0, 1));
        assert(varint_value(e, 1, 0) == 0);
        assert(varint_value(e, 0, 1) == payload(e[0]));
    } else {
        lemma_varint_encoding_props(v / 0x80);
        let h = (0x80 + v % 0x80) as u8;
        let tail = varint_encoding(v / 0x80);
        let n = e.len() as int;
        assert(e == seq![h] + tail);
        assert(e[0] == h);
        assert(0x80 <= 0x80 + v % 0x80 < 0x100);
        assert(continues(h));
        assert(payload(h) == v % 0x80);
        assert forall|k: int| 0 <= k < n - 1 implies #[trigger] e[1 + k] == tail[k] by {}
        assert(is_varint_frame(e, 0, n)) by {
            assert forall|i: int| 0 <= i < n - 1 implies continues(#[trigger] e[i]) by {
                if i > 0 {
                    assert(e[i] == tail[i - 1]);
                    assert(continues(tail[i - 1]));
                }
            }
            assert(e[n - 1] == tail[n - 2]);
        }
        lemma_varint_value_congruent(e, 1, tail, 0, n - 1);
        assert(varint_value(e, 0, n) == payload(h) + 0x80 * varint_value(tail, 0, n - 1));
        vstd::arithmetic::div_mod::lemma_fundamental_div_mod(v, 0x80);
        // Minimal width: each further byte means the value reached another
        // power of 128.
        let w = tail.len() as int;
        if v / 0x80 < 0x80 {
            assert(w == 1);
            assert(pow(0x80, 1) == 0x80) by {
                lemma_pow128_table();
            }
        } else {
            assert(pow(0x80, (w - 1) as nat) <= v / 0x80);
            assert(pow(0x80, (n - 1) as nat) == 0x80 * pow(0x80, (w - 1) as nat)) by {
                reveal(pow);
            }
            assert(0x80 * pow(0x80, (w - 1) as nat) <= 0x80 * (v / 0x80)) by (nonlinear_arith)
                requires
                    pow(0x80, (w - 1) as nat) <= v / 0x80,
            ;
            assert(0x80 * (v / 0x80) <= v) by (nonlinear_arith)
                requires
                    v >= 0,
            ;
        }
    }
}

/// Varint round trip: a conformant encoding of any 64-bit value, wherever it
/// stands in a buffer, forms one whole frame of at most ten bytes whose
/// decoded value is that value again; the frame's width is unambiguous, so a
/// decoder consumes exactly the encoding's bytes.
pub proof fn lemma_varint_round_trip(v: u64, data: Seq<u8>, pos: int)
    requires
        0 <= pos,
        pos + varint_encoding(v as int).len() <= data.len(),
        data.subrange(pos, pos + varint_encoding(v as int).len() as int) == varint_encoding(
            v as int,
        ),
    ensures
        is_varint_frame(data, pos, varint_encoding(v as int).len() as int),
        varint_encoding(v as int).len() <= 10,
        has_varint(data, pos),
        varint_value(data, pos, varint_encoding(v as int).len() as int) == v,
        truncate64(varint_value(data, pos, varint_encoding(v as int).len() as int)) == v,
        forall|n: int| #[trigger] is_varint_frame(data, pos, n) ==> n == varint_encoding(
            v as int,
        ).len(),
{
    let e = varint_encoding(v as int);
    let n = e.len() as int;
    lemma_varint_encoding_props(v as int);
    assert forall|k: int| 0 <= k < n implies #[trigger] data[pos + k] == e[k] by {
        assert(data.subrange(pos, pos + n)[k] == data[pos + k]);
    }
    lemma_varint_value_congruent(data, pos, e, 0, n);
    assert(is_varint_frame(data, pos, n)) by {
        assert forall|i: int| pos <= i < pos + n - 1 implies continues(#[trigger] data[i]) by {
            assert(data[pos + (i - pos)] == e[i - pos]);
            assert(continues(e[i - pos]));
        }
        assert(data[pos + (n - 1)] == e[n - 1]);
    }
    if v >= 0x80 && n - 1 >= 10 {
        lemma_pow128_table();
        assert(pow(0x80, 10) <= pow(0x80, (n - 1) as nat)) by {
            vstd::arithmetic::power::lemma_pow_increases(0x80, 10, (n - 1) as nat);
        }
    }
    vstd::arithmetic::div_mod::lemma_small_mod(v as nat, 0x1_0000_0000_0000_0000);
    assert forall|n2: int| #[trigger] is_varint_frame(data, pos, n2) implies n2 == n by {
        lemma_varint_frame_unique(data, pos, n, n2);
    }
}

/// The width of the varint frame at `pos`, where one exists.
pub open spec fn varint_frame_len(data: Seq<u8>, pos: int) -> int {
    choose|n: int| n <= 10 && #[trigger] is_varint_frame(data, pos, n)
}

/// A frame in hand pins down `varint_frame_len` and `has_varint`.
pub proof fn lemma_frame_len_is(data: Seq<u8>, pos: int, n: int)
    requires
        is_varint_frame(data, pos, n),
        n <= 10,
    ensures
        has_varint(data, pos),
        varint_frame_len(data, pos) == n,
{
    assert(has_varint_within(data, pos, 10));
    let m = choose|m: int| m <= 10 && #[trigger] is_varint_frame(data, pos, m);
    lemma_varint_frame_unique(data, pos, m, n);
}

} // verus!
