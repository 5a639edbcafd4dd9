//! Decimal and hexadecimal text for unsigned integers.
use vstd::prelude::*;
use vstd::utf8::{decode_utf8_encode_utf8, encode_utf8, is_leading_byte_width_1, partial_valid_utf8, partial_valid_utf8_extend_ascii_block, valid_utf8};
use crate::decode::lossy_string;

verus! {

/// The decimal digits of `n`, most significant first, without leading zeros.
pub open spec fn decimal(n: nat) -> Seq<u8>
    decreases n,
{
    if n < 10 {
        seq![(48 + n) as u8]
    } else {
        decimal(n / 10).push((48 + n % 10) as u8)
    }
}

/// A hexadecimal digit in lower case.
pub open spec fn hex_digit(v: nat) -> u8 {
    if v < 10 {
        (48 + v) as u8
    } else {
        (87 + v) as u8
    }
}

pub open spec fn pow16(k: nat) -> nat
    decreases k,
{
    if k == 0 {
        1
    } else {
        16 * pow16((k - 1) as nat)
    }
}

/// The 16 hexadecimal digits of `n`, most significant first, zero-padded.
pub open spec fn hex16(n: nat) -> Seq<u8> {
    Seq::new(16, |i: int| hex_digit((n / pow16((15 - i) as nat)) % 16))
}

/// Bytes below 128 are valid UTF-8.
pub proof fn lemma_ascii_valid_utf8(b: Seq<u8>)
    requires
        forall|i: int| 0 <= i < b.len() ==> #[trigger] b[i] < 128,
    ensures
        valid_utf8(b),
{
    assert(b.subrange(0, 0) =~= Seq::<u8>::empty());
    assert(partial_valid_utf8(b, 0));
    assert forall|i: int| 0 <= 0 <= i < b.len() <= b.len() implies #[trigger] is_leading_byte_width_1(b[i]) by {
    }
    partial_valid_utf8_extend_ascii_block(b, 0, b.len() as int);
    assert(b.subrange(0, b.len() as int) =~= b);
}

pub proof fn lemma_decimal_ascii(n: nat)
    ensures
        forall|i: int| 0 <= i < decimal(n).len() ==> 48 <= #[trigger] decimal(n)[i] <= 57,
    decreases n,
{
    if n >= 10 {
        lemma_decimal_ascii(n / 10);
        let d = decimal(n / 10);
        assert(n % 10 < 10);
        assert forall|i: int| 0 <= i < decimal(n).len() implies 48 <= #[trigger] decimal(n)[i] <= 57 by {
            if i < d.len() {
                assert(decimal(n)[i] == d[i]);
            }
        }
    }
}

proof fn lemma_pow16_pos(k: nat)
    ensures
        pow16(k) >= 1,
    decreases k,
{
    if k > 0 {
        lemma_pow16_pos((k - 1) as nat);
    }
}

/// Appends the decimal text of `n` to `out`.
pub fn encode_itoa(n: usize, out: &mut Vec<u8>)
    ensures
        final(out)@ == old(out)@ + decimal(n as nat),
    decreases n,
{
    if n >= 10 {
        encode_itoa(n / 10, out);
    }
    out.push(48 + (n % 10) as u8);
    assert(final(out)@ =~= old(out)@ + decimal(n as nat));
}

fn push_decimal_u64(n: u64, out: &mut Vec<u8>)
    ensures
        final(out)@ == old(out)@ + decimal(n as nat),
    decreases n,
{
    if n >= 10 {
        push_decimal_u64(n / 10, out);
    }
    out.push(48 + (n % 10) as u8);
    assert(final(out)@ =~= old(out)@ + decimal(n as nat));
}

/// The decimal text of a 64-bit `n` as bytes.
pub fn decimal_bytes(n: u64) -> (r: Vec<u8>)
    ensures
        r@ == decimal(n as nat),
{
    let mut out: Vec<u8> = Vec::new();
    push_decimal_u64(n, &mut out);
    assert(out@ =~= decimal(n as nat));
    out
}

/// The decimal text of `n` as bytes.
pub fn itoa_bytes(n: usize) -> (r: Vec<u8>)
    ensures
        r@ == decimal(n as nat),
{
    let mut out: Vec<u8> = Vec::new();
    encode_itoa(n, &mut out);
    assert(out@ =~= decimal(n as nat));
    out
}

/// The decimal text of `n`.
pub fn itoa(n: usize) -> (r: String)
    ensures
        encode_utf8(r@) == decimal(n as nat),
{
    let b = itoa_bytes(n);
    proof {
        lemma_decimal_ascii(n as nat);
        lemma_ascii_valid_utf8(b@);
        decode_utf8_encode_utf8(b@);
    }
    lossy_string(b.as_slice())
}

fn hex_at(n: u64, p: u64) -> (r: u8)
    requires
        p > 0,
    ensures
        r == hex_digit((n as nat / p as nat) % 16),
{
    let v = ((n / p) % 16) as u8;
    if v < 10 {
        48 + v
    } else {
        87 + v
    }
}

/// The 16 hexadecimal digits of `n`, zero-padded.
pub fn hexized_bytes(n: usize) -> (r: Vec<u8>)
    ensures
        r@ == hex16(n as nat),
{
    let x = n as u64;
    let mut out: Vec<u8> = Vec::new();
    let mut p: u64 = 1152921504606846976;
    let mut i: usize = 0;
    proof {
        reveal_with_fuel(pow16, 16);
        assert(pow16(15) == 1152921504606846976);
    }
    while i < 16
        invariant
            i <= 16,
            x == n as u64,
            n as nat == x as nat,
            i < 16 ==> p as nat == pow16((15 - i) as nat),
            out@ == hex16(n as nat).subrange(0, i as int),
        decreases 16 - i,
    {
        proof {
            lemma_pow16_pos((15 - i) as nat);
        }
        let d = hex_at(x, p);
        out.push(d);
        assert(out@ =~= hex16(n as nat).subrange(0, i as int + 1));
        if i < 15 {
            assert(pow16((15 - i) as nat) == 16 * pow16((15 - i - 1) as nat));
            p = p / 16;
        }
        i = i + 1;
    }
    assert(out@ =~= hex16(n as nat));
    out
}

/// The 16 hexadecimal digits of `n`, zero-padded.
pub fn hexized(n: usize) -> (r: String)
    ensures
        encode_utf8(r@) == hex16(n as nat),
{
    let b = hexized_bytes(n);
    proof {
        assert forall|i: int| 0 <= i < b@.len() implies #[trigger] b@[i] < 128 by {
            let v = (n as nat / pow16((15 - i) as nat)) % 16;
            assert(v < 16);
        }
        lemma_ascii_valid_utf8(b@);
        decode_utf8_encode_utf8(b@);
    }
    lossy_string(b.as_slice())
}

} // verus!
