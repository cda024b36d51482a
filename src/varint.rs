//! The protocol's variable-length integer: a signed 32-bit value written as
//! 1 to 5 bytes, 7 payload bits per byte, least significant group first, the
//! high bit of each byte flagging that another byte follows.

use vstd::prelude::*;

verus! {

/// Why a VarInt could not be read from the front of a byte sequence.
#[derive(Debug, Clone, Copy, PartialEq, Eq, Structural)]
pub enum VarIntError {
    /// Every byte present carries the continuation flag and fewer than five
    /// were present: more bytes could still complete the value.
    Incomplete,
    /// The value would need a sixth byte, or its fifth byte sets bits beyond
    /// the 32 that the value has.
    Malformed,
}

/// The unsigned 32-bit pattern of a signed value (two's complement).
pub open spec fn u32_pattern(v: i32) -> nat {
    if v >= 0 {
        v as nat
    } else {
        (v + 0x1_0000_0000) as nat
    }
}

/// The signed value whose two's complement pattern is `u` (`u < 2^32`).
pub open spec fn i32_of_pattern(u: nat) -> i32 {
    if u < 0x8000_0000 {
        u as i32
    } else {
        (u - 0x1_0000_0000) as i32
    }
}

pub open spec fn pow128(n: nat) -> nat
    decreases n,
{
    if n == 0 {
        1
    } else {
        128 * pow128((n - 1) as nat)
    }
}

/// The minimal group encoding of a non-negative number.
pub open spec fn var_int_digits(u: nat) -> Seq<u8>
    decreases u,
{
    if u < 128 {
        seq![u as u8]
    } else {
        seq![(u % 128 + 128) as u8] + var_int_digits(u / 128)
    }
}

/// The bytes that encode `v`.
pub open spec fn var_int_bytes(v: i32) -> Seq<u8> {
    var_int_digits(u32_pattern(v))
}

/// The number that a sequence of groups stands for, ignoring the flags.
pub open spec fn digits_value(s: Seq<u8>) -> nat
    decreases s.len(),
{
    if s.len() == 0 {
        0
    } else {
        (s[0] % 128) as nat + 128 * digits_value(s.drop_first())
    }
}

/// Reading from position `i` on, where the VarInt at the front of `b` ends
/// (the count of bytes it takes), or why none can be read.
pub open spec fn var_int_scan(b: Seq<u8>, i: nat) -> Result<nat, VarIntError>
    decreases 5 - i,
{
    if i >= 5 {
        Err(VarIntError::Malformed)
    } else if i >= b.len() {
        Err(VarIntError::Incomplete)
    } else if b[i as int] < 128 {
        if i == 4 && b[4] >= 16 {
            Err(VarIntError::Malformed)
        } else {
            Ok(i + 1)
        }
    } else if i == 4 {
        Err(VarIntError::Malformed)
    } else {
        var_int_scan(b, i + 1)
    }
}

/// The VarInt at the front of `b`: its value and the count of bytes it takes.
pub open spec fn var_int_parse(b: Seq<u8>) -> Result<(i32, usize), VarIntError> {
    match var_int_scan(b, 0) {
        Ok(n) => Ok((i32_of_pattern(digits_value(b.take(n as int))), n as usize)),
        Err(e) => Err(e),
    }
}

proof fn lemma_digits_value_push(s: Seq<u8>, x: u8)
    ensures
        digits_value(s.push(x)) == digits_value(s) + (x % 128) as nat * pow128(s.len()),
    decreases s.len(),
{
    if s.len() > 0 {
        assert(s.push(x).drop_first() =~= s.drop_first().push(x));
        lemma_digits_value_push(s.drop_first(), x);
        let a = digits_value(s.drop_first());
        let p = pow128((s.len() - 1) as nat);
        let c = (x % 128) as nat;
        assert(s.push(x)[0] == s[0]);
        assert(digits_value(s.push(x)) == (s[0] % 128) as nat + 128 * digits_value(
            s.drop_first().push(x),
        ));
        assert(pow128(s.len()) == 128 * p);
        assert(128 * (a + c * p) == 128 * a + c * (128 * p)) by (nonlinear_arith);
    } else {
        assert(s.push(x).drop_first() =~= Seq::<u8>::empty());
        assert(digits_value(s.push(x)) == (x % 128) as nat + 128 * digits_value(
            s.push(x).drop_first(),
        ));
        assert(pow128(0) == 1);
    }
}

proof fn lemma_digits_value_bound(s: Seq<u8>)
    ensures
        digits_value(s) < pow128(s.len()),
    decreases s.len(),
{
    if s.len() > 0 {
        lemma_digits_value_bound(s.drop_first());
        let a = digits_value(s.drop_first());
        let p = pow128((s.len() - 1) as nat);
        assert((s[0] % 128) as nat + 128 * a < 128 * p) by (nonlinear_arith)
            requires
                a < p,
                (s[0] % 128) < 128,
        ;
    }
}

proof fn lemma_pow128_values()
    ensures
        pow128(0) == 1,
        pow128(1) == 128,
        pow128(2) == 16384,
        pow128(3) == 2097152,
        pow128(4) == 268435456,
{
    reveal_with_fuel(pow128, 5);
}

/// Facts on the encoding of `u` placed at position `i` of `b`: the scan from
/// `i` ends right after it, and the groups stand for `u`.
proof fn lemma_digits_scan(u: nat, i: nat, b: Seq<u8>)
    requires
        i <= 4,
        u < 16 * pow128((4 - i) as nat),
        i + var_int_digits(u).len() <= b.len(),
        b.subrange(i as int, i + var_int_digits(u).len() as int) == var_int_digits(u),
    ensures
        var_int_scan(b, i) == Ok::<nat, VarIntError>(i + var_int_digits(u).len()),
        var_int_digits(u).len() <= 5 - i,
        digits_value(var_int_digits(u)) == u,
        var_int_digits(u).len() > 1 ==> var_int_digits(u).last() != 0,
    decreases u,
{
    let d = var_int_digits(u);
    assert(b[i as int] == d[0]);
    if u < 128 {
        assert(d.drop_first() =~= Seq::<u8>::empty());
        assert(digits_value(d) == (d[0] % 128) as nat + 128 * digits_value(d.drop_first()));
        if i == 4 {
            lemma_pow128_values();
        }
    } else {
        let t = var_int_digits(u / 128);
        assert(d.drop_first() =~= t);
        if i == 4 {
            lemma_pow128_values();
        }
        assert(i < 4);
        let p = pow128((3 - i) as nat);
        assert(pow128((4 - i) as nat) == 128 * p);
        assert(u / 128 < 16 * p) by (nonlinear_arith)
            requires
                u < 16 * (128 * p),
        ;
        assert(b.subrange(i + 1int, i + 1 + t.len() as int) =~= t) by {
            assert forall|k: int| 0 <= k < t.len() implies b.subrange(i + 1int, i + 1 + t.len() as int)[k]
                == t[k] by {
                assert(b[i + 1 + k] == b.subrange(i as int, i + d.len() as int)[1 + k]);
            }
        }
        lemma_digits_scan(u / 128, i + 1, b);
        assert(digits_value(d) == (d[0] % 128) as nat + 128 * digits_value(d.drop_first()));
        assert(d[0] % 128 == u % 128);
        if u / 128 < 128 {
            assert(t =~= seq![(u / 128) as u8]);
        }
        assert(d.last() == t.last());
    }
}

/// For every `i32`, reading back its encoding, whatever follows it, gives
/// the value and the encoding's exact length; the encoding takes one to five
/// bytes and is minimal: no byte after the first is a redundant empty group.
pub proof fn lemma_var_int_round_trip(v: i32, rest: Seq<u8>)
    ensures
        var_int_parse(var_int_bytes(v) + rest) == Ok::<(i32, usize), VarIntError>(
            (v, var_int_bytes(v).len() as usize),
        ),
        1 <= var_int_bytes(v).len() <= 5,
        var_int_bytes(v).len() > 1 ==> var_int_bytes(v).last() != 0,
{
    let u = u32_pattern(v);
    let d = var_int_digits(u);
    let b = d + rest;
    lemma_pow128_values();
    assert(b.subrange(0, d.len() as int) =~= d);
    lemma_digits_scan(u, 0, b);
    assert(b.take(d.len() as int) =~= d);
}

/// Appending bytes after a decided VarInt does not change what is read.
pub proof fn lemma_var_int_parse_extend(b: Seq<u8>, c: Seq<u8>)
    requires
        var_int_parse(b) != Err::<(i32, usize), VarIntError>(VarIntError::Incomplete),
    ensures
        var_int_parse(b + c) == var_int_parse(b),
{
    lemma_var_int_scan_extend(b, c, 0);
    if let Ok(n) = var_int_scan(b, 0) {
        assert((b + c).take(n as int) =~= b.take(n as int));
    }
}

proof fn lemma_var_int_scan_extend(b: Seq<u8>, c: Seq<u8>, i: nat)
    requires
        var_int_scan(b, i) != Err::<nat, VarIntError>(VarIntError::Incomplete),
    ensures
        var_int_scan(b + c, i) == var_int_scan(b, i),
        var_int_scan(b, i) matches Ok(n) ==> n <= b.len(),
    decreases 5 - i,
{
    if i < 5 && i < b.len() && b[i as int] >= 128 && i != 4 {
        lemma_var_int_scan_extend(b, c, i + 1);
    }
}

/// A VarInt read takes one to five bytes, all present in the input.
pub proof fn lemma_var_int_parse_len(b: Seq<u8>)
    ensures
        var_int_parse(b) matches Ok((_, n)) ==> 1 <= n <= 5 && n <= b.len(),
{
    lemma_var_int_scan_len(b, 0);
}

proof fn lemma_var_int_scan_len(b: Seq<u8>, i: nat)
    ensures
        var_int_scan(b, i) matches Ok(n) ==> i < n <= 5 && n <= b.len(),
    decreases 5 - i,
{
    if i < 5 && i < b.len() && b[i as int] >= 128 && i != 4 {
        lemma_var_int_scan_len(b, i + 1);
    }
}

fn i32_from_u64_pattern(u: u64) -> (r: i32)
    requires
        u < 0x1_0000_0000,
    ensures
        r == i32_of_pattern(u as nat),
{
    if u < 0x8000_0000 {
        u as i32
    } else {
        (u as i64 - 0x1_0000_0000i64) as i32
    }
}

/// Reads the VarInt at the front of `b`, returning its value and the count
/// of bytes it takes.
pub fn decode_var_int(b: &[u8]) -> (r: Result<(i32, usize), VarIntError>)
    ensures
        r == var_int_parse(b@),
{
    let mut acc: u64 = 0;
    let mut mult: u64 = 1;
    let mut i: usize = 0;
    proof {
        lemma_pow128_values();
        assert(b@.take(0) =~= Seq::<u8>::empty());
    }
    loop
        invariant
            i < 5,
            i <= b@.len(),
            var_int_scan(b@, 0) == var_int_scan(b@, i as nat),
            acc == digits_value(b@.take(i as int)),
            mult == pow128(i as nat),
            pow128(4) == 268435456,
            pow128(3) == 2097152,
        decreases 5 - i,
    {
        if i >= b.len() {
            return Err(VarIntError::Incomplete);
        }
        let x = b[i];
        proof {
            assert(b@.take(i as int).push(x) =~= b@.take(i + 1));
            lemma_digits_value_push(b@.take(i as int), x);
            lemma_digits_value_bound(b@.take(i as int));
            assert(mult <= 268435456) by {
                if i < 4 {
                    assert(pow128(i as nat) <= pow128(3)) by {
                        reveal_with_fuel(pow128, 5);
                    }
                }
            }
        }
        assert((x % 128) as u64 * mult <= 127 * 268435456) by (nonlinear_arith)
            requires
                x % 128 <= 127,
                mult <= 268435456,
        ;
        acc = acc + (x % 128) as u64 * mult;
        if x < 128 {
            if i == 4 && x >= 16 {
                return Err(VarIntError::Malformed);
            }
            assert(acc < 0x1_0000_0000) by {
                if i == 4 {
                    assert(acc < 268435456 + 15 * 268435456) by (nonlinear_arith)
                        requires
                            acc == digits_value(b@.take(i as int)) + (x % 128) as nat * mult,
                            digits_value(b@.take(i as int)) < mult,
                            mult == 268435456,
                            x < 16,
                    ;
                } else {
                    assert(pow128(i as nat) <= pow128(3)) by {
                        reveal_with_fuel(pow128, 5);
                    }
                    assert(acc < mult + 127 * mult) by (nonlinear_arith)
                        requires
                            acc == digits_value(b@.take(i as int)) + (x % 128) as nat * mult,
                            digits_value(b@.take(i as int)) < mult,
                            x % 128 <= 127,
                    ;
                }
            }
            return Ok((i32_from_u64_pattern(acc), i + 1));
        }
        if i == 4 {
            return Err(VarIntError::Malformed);
        }
        mult = mult * 128;
        i = i + 1;
    }
}

fn u32_pattern_of(v: i32) -> (r: u32)
    ensures
        r == u32_pattern(v),
{
    if v >= 0 {
        v as u32
    } else {
        (v as i64 + 0x1_0000_0000i64) as u32
    }
}

/// The minimal encoding of `value`, its bits taken as an unsigned 32-bit
/// pattern.
pub fn encode_var_int(value: i32) -> (r: Vec<u8>)
    ensures
        r@ == var_int_bytes(value),
{
    let mut encoded: Vec<u8> = Vec::new();
    let mut val: u32 = u32_pattern_of(value);
    while val >= 128
        invariant
            encoded@ + var_int_digits(val as nat) == var_int_bytes(value),
        decreases val,
    {
        encoded.push((val % 128 + 128) as u8);
        proof {
            assert(var_int_digits(val as nat) == seq![(val % 128 + 128) as u8] + var_int_digits(
                (val / 128) as nat,
            ));
        }
        val = val / 128;
        assert(encoded@ + var_int_digits(val as nat) =~= var_int_bytes(value));
    }
    encoded.push(val as u8);
    assert(encoded@ =~= var_int_bytes(value));
    encoded
}

} // verus!
