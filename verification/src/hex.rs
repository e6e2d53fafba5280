//! Lowercase hexadecimal encoding and decoding of byte strings, used for
//! digest-derived storage paths and for key files.

use vstd::prelude::*;

verus! {

/// The lowercase hex digit (as an ASCII byte) for a value below 16.
pub open spec fn hex_digit(v: u8) -> u8 {
    if v < 10 {
        (48 + v) as u8
    } else {
        (87 + v) as u8
    }
}

/// Lowercase hex encoding of a byte string: two digits per byte, in order.
pub open spec fn hex_bytes(s: Seq<u8>) -> Seq<u8>
    decreases s.len(),
{
    if s.len() == 0 {
        Seq::empty()
    } else {
        seq![hex_digit(s[0] / 16), hex_digit(s[0] % 16)] + hex_bytes(s.skip(1))
    }
}

/// The value of a lowercase hex digit, if the byte is one.
pub open spec fn hex_val(c: u8) -> Option<u8> {
    if 48 <= c && c <= 57 {
        Some((c - 48) as u8)
    } else if 97 <= c && c <= 102 {
        Some((c - 87) as u8)
    } else {
        None
    }
}

/// Every byte of `s` is a lowercase hex digit.
pub open spec fn is_hex(s: Seq<u8>) -> bool {
    forall|i: int| 0 <= i < s.len() ==> #[trigger] hex_val(s[i]) is Some
}

pub proof fn lemma_hex_bytes_len(s: Seq<u8>)
    ensures
        hex_bytes(s).len() == 2 * s.len(),
    decreases s.len(),
{
    if s.len() > 0 {
        lemma_hex_bytes_len(s.skip(1));
    }
}

/// Encode bytes as lowercase hex, two ASCII digits per byte.
pub fn to_hex(bytes: &[u8]) -> (r: Vec<u8>)
    ensures
        r@ == hex_bytes(bytes@),
        r@.len() == 2 * bytes@.len(),
{
    let mut out: Vec<u8> = Vec::new();
    let mut i: usize = 0;
    proof {
        lemma_hex_bytes_len(bytes@);
        assert(bytes@.skip(0) =~= bytes@);
    }
    while i < bytes.len()
        invariant
            i <= bytes@.len(),
            out@ + hex_bytes(bytes@.skip(i as int)) =~= hex_bytes(bytes@),
            out@.len() == 2 * i,
        decreases bytes@.len() - i,
    {
        let b = bytes[i];
        let hi = b / 16;
        let lo = b % 16;
        let hi_d = if hi < 10 { 48 + hi } else { 87 + hi };
        let lo_d = if lo < 10 { 48 + lo } else { 87 + lo };
        out.push(hi_d);
        out.push(lo_d);
        proof {
            assert(bytes@.skip(i as int).skip(1) =~= bytes@.skip(i + 1));
            assert(bytes@.skip(i as int)[0] == bytes@[i as int]);
        }
        i = i + 1;
    }
    proof {
        assert(bytes@.skip(bytes@.len() as int) =~= Seq::<u8>::empty());
        assert(out@ =~= hex_bytes(bytes@));
    }
    out
}

/// Decode a lowercase hex string back into bytes.
///
/// Succeeds exactly on even-length strings of lowercase hex digits, and the
/// decoded bytes re-encode to the input.
pub fn from_hex(s: &[u8]) -> (r: Option<Vec<u8>>)
    ensures
        r is Some <==> (s@.len() % 2 == 0 && is_hex(s@)),
        r matches Some(v) ==> hex_bytes(v@) == s@ && v@.len() * 2 == s@.len(),
{
    if s.len() % 2 != 0 {
        return None;
    }
    let mut out: Vec<u8> = Vec::new();
    let mut i: usize = 0;
    while i < s.len()
        invariant
            i <= s@.len(),
            i % 2 == 0,
            s@.len() % 2 == 0,
            hex_bytes(out@) =~= s@.take(i as int),
            out@.len() * 2 == i,
            forall|j: int| 0 <= j < i ==> #[trigger] hex_val(s@[j]) is Some,
        decreases s@.len() - i,
    {
        let c1 = s[i];
        let c2 = s[i + 1];
        let v1 = hex_val_exec(c1);
        let v2 = hex_val_exec(c2);
        match (v1, v2) {
            (Some(h), Some(l)) => {
                let b = h * 16 + l;
                proof {
                    assert(h < 16 && l < 16);
                    assert(b / 16 == h && b % 16 == l);
                    assert(hex_digit(b / 16) == s@[i as int]);
                    assert(hex_digit(b % 16) == s@[i + 1]);
                    lemma_hex_bytes_append(out@, b, s@, i as int);
                }
                out.push(b);
                i = i + 2;
            },
            _ => {
                proof {
                    let bad = if hex_val(s@[i as int]) is None { i as int } else { i + 1 };
                    assert(hex_val(s@[bad]) is None);
                }
                return None;
            },
        }
    }
    proof {
        assert(s@.take(s@.len() as int) =~= s@);
    }
    Some(out)
}

/// Pushing the byte whose digits stand at `s[i]` and `s[i + 1]` extends the
/// encoding of the decoded prefix by those two digits.
proof fn lemma_hex_bytes_append(prefix: Seq<u8>, b: u8, s: Seq<u8>, i: int)
    requires
        0 <= i,
        i + 2 <= s.len(),
        hex_bytes(prefix) == s.take(i),
        hex_digit(b / 16) == s[i],
        hex_digit(b % 16) == s[i + 1],
    ensures
        hex_bytes(prefix.push(b)) =~= s.take(i + 2),
    decreases prefix.len(),
{
    if prefix.len() == 0 {
        assert(prefix.push(b).skip(1) =~= Seq::<u8>::empty());
        assert(prefix.push(b)[0] == b);
        lemma_hex_bytes_len(prefix);
        assert(i == 0);
    } else {
        lemma_hex_bytes_len(prefix);
        let d0 = hex_digit(prefix[0] / 16);
        let d1 = hex_digit(prefix[0] % 16);
        assert(hex_bytes(prefix) == seq![d0, d1] + hex_bytes(prefix.skip(1)));
        assert(i == 2 * prefix.len());
        assert(s[0] == d0) by {
            assert(s.take(i)[0] == d0);
        }
        assert(s[1] == d1) by {
            assert(s.take(i)[1] == d1);
        }
        lemma_hex_bytes_len(prefix.skip(1));
        let rest = hex_bytes(prefix.skip(1));
        assert forall|j: int| 0 <= j < rest.len() implies rest[j] == s.skip(2).take(i - 2)[j] by {
            assert(s.take(i)[j + 2] == (seq![d0, d1] + rest)[j + 2]);
        }
        assert(rest =~= s.skip(2).take(i - 2));
        lemma_hex_bytes_append(prefix.skip(1), b, s.skip(2), i - 2);
        assert(prefix.push(b).skip(1) =~= prefix.skip(1).push(b));
        assert(prefix.push(b)[0] == prefix[0]);
        assert(hex_bytes(prefix.push(b)) == seq![d0, d1] + hex_bytes(prefix.push(b).skip(1)));
        assert(hex_bytes(prefix.push(b).skip(1)) == hex_bytes(prefix.skip(1).push(b)));
        assert(hex_bytes(prefix.skip(1).push(b)) =~= s.skip(2).take(i));
    }
}

/// The value of a lowercase hex digit byte, or `None` for any other byte.
fn hex_val_exec(c: u8) -> (r: Option<u8>)
    ensures
        r == hex_val(c),
{
    if 48 <= c && c <= 57 {
        Some(c - 48)
    } else if 97 <= c && c <= 102 {
        Some(c - 87)
    } else {
        None
    }
}

} // verus!
