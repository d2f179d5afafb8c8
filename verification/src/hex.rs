use vstd::prelude::*;
use crate::types::Digest;

verus! {

/// Whether a byte is the ASCII code of a hexadecimal digit.
pub open spec fn is_hex_digit(b: u8) -> bool {
    (48 <= b && b <= 57) || (97 <= b && b <= 102) || (65 <= b && b <= 70)
}

/// The numeric value of the hexadecimal digit with ASCII code `b`.
pub open spec fn hex_val(b: u8) -> u8 {
    if 48 <= b && b <= 57 {
        (b - 48) as u8
    } else if 97 <= b && b <= 102 {
        (b - 87) as u8
    } else {
        (b - 55) as u8
    }
}

/// The ASCII code of the lowercase hexadecimal digit for value `v` (< 16).
pub open spec fn hex_digit_of(v: u8) -> u8 {
    if v < 10 {
        (48 + v) as u8
    } else {
        (87 + v) as u8
    }
}

/// The lowercase hexadecimal encoding of a byte sequence: two digits per
/// byte, high nibble first.
pub open spec fn hex_of(d: Seq<u8>) -> Seq<u8> {
    Seq::new(
        d.len() * 2,
        |i: int| if i % 2 == 0 {
            hex_digit_of((d[i / 2] / 16) as u8)
        } else {
            hex_digit_of((d[i / 2] % 16) as u8)
        },
    )
}

/// The bytes denoted by a sequence of hexadecimal digits, two digits per
/// byte, high nibble first.
pub open spec fn hex_decode_s(h: Seq<u8>) -> Seq<u8> {
    Seq::new(h.len() / 2, |i: int| (hex_val(h[2 * i]) * 16 + hex_val(h[2 * i + 1])) as u8)
}

/// Hex encoding uses only hexadecimal digits, and decoding it gives the
/// original bytes back.
pub proof fn lemma_hex_of_digits(d: Seq<u8>)
    ensures
        forall|i: int| 0 <= i < hex_of(d).len() ==> is_hex_digit(#[trigger] hex_of(d)[i]),
        hex_decode_s(hex_of(d)) == d,
{
    assert forall|i: int| 0 <= i < hex_of(d).len() implies is_hex_digit(#[trigger] hex_of(d)[i]) by {
        let v = if i % 2 == 0 {
            (d[i / 2] / 16) as u8
        } else {
            (d[i / 2] % 16) as u8
        };
        assert(v < 16);
    }
    assert forall|i: int| 0 <= i < d.len() implies hex_decode_s(hex_of(d))[i] == d[i] by {
        assert(hex_of(d)[2 * i] == hex_digit_of((d[i] / 16) as u8));
        assert(hex_of(d)[2 * i + 1] == hex_digit_of((d[i] % 16) as u8));
        assert(hex_val(hex_digit_of((d[i] / 16) as u8)) == d[i] / 16);
        assert(hex_val(hex_digit_of((d[i] % 16) as u8)) == d[i] % 16);
    }
    assert(hex_decode_s(hex_of(d)) =~= d);
}

/// Whether a byte is the ASCII code of a hexadecimal digit.
fn is_hex_digit_exec(b: u8) -> (r: bool)
    ensures
        r == is_hex_digit(b),
{
    (48 <= b && b <= 57) || (97 <= b && b <= 102) || (65 <= b && b <= 70)
}

/// The numeric value of the hexadecimal digit with ASCII code `b`.
fn hex_val_exec(b: u8) -> (r: u8)
    requires
        is_hex_digit(b),
    ensures
        r == hex_val(b),
        r < 16,
{
    if 48 <= b && b <= 57 {
        b - 48
    } else if 97 <= b && b <= 102 {
        b - 87
    } else {
        b - 55
    }
}

/// Appends the lowercase hexadecimal encoding of a digest to `out`.
pub fn hex_encode_digest(d: &Digest, out: &mut Vec<u8>)
    ensures
        final(out)@ == old(out)@ + hex_of(d@),
{
    let ghost orig = out@;
    let mut i: usize = 0;
    while i < 32
        invariant
            i <= 32,
            d@.len() == 32,
            out@.len() == orig.len() + 2 * i,
            forall|j: int| 0 <= j < orig.len() ==> out@[j] == orig[j],
            forall|j: int| 0 <= j < 2 * i ==> out@[orig.len() + j] == hex_of(d@)[j],
        decreases 32 - i,
    {
        let b = d.bytes[i];
        let hi = b / 16;
        let lo = b % 16;
        let hi_c = if hi < 10 { 48 + hi } else { 87 + hi };
        let lo_c = if lo < 10 { 48 + lo } else { 87 + lo };
        out.push(hi_c);
        out.push(lo_c);
        proof {
            assert(hex_of(d@)[2 * i] == hex_digit_of((d@[i as int] / 16) as u8));
            assert(hex_of(d@)[2 * i + 1] == hex_digit_of((d@[i as int] % 16) as u8));
        }
        i = i + 1;
    }
    assert(out@ =~= orig + hex_of(d@));
}

/// Decodes the 64 hexadecimal digits at `data[start .. start + 64]` into a
/// digest, or reports that some of those bytes are not hexadecimal digits.
pub fn hex_decode_digest(data: &Vec<u8>, start: usize) -> (r: Option<Digest>)
    requires
        start + 64 <= data@.len(),
    ensures
        match r {
            Some(d) => {
                &&& forall|j: int| 0 <= j < 64 ==> is_hex_digit(#[trigger] data@[start + j])
                &&& d@ == hex_decode_s(data@.subrange(start as int, start + 64))
            },
            None => exists|j: int| 0 <= j < 64 && !is_hex_digit(#[trigger] data@[start + j]),
        },
{
    let ghost h = data@.subrange(start as int, start + 64);
    let n = data.len();
    let mut bytes: [u8; 32] = [0u8; 32];
    let mut i: usize = 0;
    while i < 32
        invariant
            i <= 32,
            n == data@.len(),
            start + 64 <= n,
            h == data@.subrange(start as int, start + 64),
            forall|j: int| 0 <= j < 2 * i ==> is_hex_digit(#[trigger] data@[start + j]),
            forall|j: int| 0 <= j < i ==> bytes@[j] == hex_decode_s(h)[j],
        decreases 32 - i,
    {
        let c0 = data[start + 2 * i];
        let c1 = data[start + 2 * i + 1];
        if !is_hex_digit_exec(c0) {
            proof {
                let j = 2 * (i as int);
                assert(!is_hex_digit(data@[start + j]));
            }
            return None;
        }
        if !is_hex_digit_exec(c1) {
            proof {
                let j = 2 * (i as int) + 1;
                assert(!is_hex_digit(data@[start + j]));
            }
            return None;
        }
        let v = hex_val_exec(c0) * 16 + hex_val_exec(c1);
        bytes[i] = v;
        proof {
            assert(h[2 * i] == data@[start + 2 * i]);
            assert(h[2 * i + 1] == data@[start + 2 * i + 1]);
        }
        i = i + 1;
    }
    let d = Digest { bytes };
    assert(d@ =~= hex_decode_s(h));
    Some(d)
}

} // verus!
