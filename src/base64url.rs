//! Unpadded base64url (RFC 4648, section 5), the encoding of each segment of a token.
use vstd::prelude::*;

verus! {

/// The ASCII byte that stands for the six-bit value `v`.
pub open spec fn digit(v: u8) -> u8 {
    if v < 26 {
        (v + 65) as u8
    } else if v < 52 {
        (v + 71) as u8
    } else if v < 62 {
        (v - 4) as u8
    } else if v == 62 {
        45u8
    } else {
        95u8
    }
}

/// The six-bit value of an alphabet byte, or `None` for a byte outside the alphabet.
pub open spec fn value(c: u8) -> Option<u8> {
    if 65 <= c && c <= 90 {
        Some((c - 65) as u8)
    } else if 97 <= c && c <= 122 {
        Some((c - 71) as u8)
    } else if 48 <= c && c <= 57 {
        Some((c + 4) as u8)
    } else if c == 45 {
        Some(62u8)
    } else if c == 95 {
        Some(63u8)
    } else {
        None
    }
}

pub open spec fn enc3(b0: u8, b1: u8, b2: u8) -> Seq<u8> {
    seq![
        digit(b0 >> 2),
        digit(((b0 & 3) << 4) | (b1 >> 4)),
        digit(((b1 & 15) << 2) | (b2 >> 6)),
        digit(b2 & 63),
    ]
}

pub open spec fn enc2(b0: u8, b1: u8) -> Seq<u8> {
    seq![digit(b0 >> 2), digit(((b0 & 3) << 4) | (b1 >> 4)), digit((b1 & 15) << 2)]
}

pub open spec fn enc1(b0: u8) -> Seq<u8> {
    seq![digit(b0 >> 2), digit((b0 & 3) << 4)]
}

/// The unpadded base64url text of `b`, as ASCII bytes.
pub open spec fn encode(b: Seq<u8>) -> Seq<u8>
    decreases b.len(),
{
    if b.len() == 0 {
        Seq::empty()
    } else if b.len() == 1 {
        enc1(b[0])
    } else if b.len() == 2 {
        enc2(b[0], b[1])
    } else {
        enc3(b[0], b[1], b[2]) + encode(b.skip(3))
    }
}

pub open spec fn dec_first(v0: u8, v1: u8) -> u8 {
    ((v0 << 2) | (v1 >> 4)) as u8
}

pub open spec fn dec_second(v1: u8, v2: u8) -> u8 {
    (((v1 & 15) << 4) | (v2 >> 2)) as u8
}

pub open spec fn dec_third(v2: u8, v3: u8) -> u8 {
    (((v2 & 3) << 6) | v3) as u8
}

/// The bytes that a group of two to four alphabet bytes stands for.
pub open spec fn dec_group(g: Seq<u8>) -> Option<Seq<u8>> {
    if g.len() < 2 || g.len() > 4 || value(g[0]) is None || value(g[1]) is None {
        None
    } else if g.len() == 2 {
        Some(seq![dec_first(value(g[0])->0, value(g[1])->0)])
    } else if value(g[2]) is None {
        None
    } else if g.len() == 3 {
        Some(
            seq![
                dec_first(value(g[0])->0, value(g[1])->0),
                dec_second(value(g[1])->0, value(g[2])->0),
            ],
        )
    } else if value(g[3]) is None {
        None
    } else {
        Some(
            seq![
                dec_first(value(g[0])->0, value(g[1])->0),
                dec_second(value(g[1])->0, value(g[2])->0),
                dec_third(value(g[2])->0, value(g[3])->0),
            ],
        )
    }
}

/// The bytes that the base64url text `s` stands for, or `None` where `s` is not such a text.
pub open spec fn decode(s: Seq<u8>) -> Option<Seq<u8>>
    decreases s.len(),
{
    if s.len() == 0 {
        Some(Seq::empty())
    } else if s.len() <= 4 {
        dec_group(s)
    } else {
        match (dec_group(s.take(4)), decode(s.skip(4))) {
            (Some(a), Some(r)) => Some(a + r),
            _ => None,
        }
    }
}

pub proof fn lemma_digit_value(v: u8)
    requires
        v < 64,
    ensures
        value(digit(v)) == Some(v),
        digit(v) < 128,
        digit(v) != 46,
{
}

proof fn lemma_groups(b0: u8, b1: u8, b2: u8)
    ensures
        (b0 >> 2) < 64,
        (((b0 & 3) << 4) | (b1 >> 4)) < 64,
        (((b1 & 15) << 2) | (b2 >> 6)) < 64,
        (b2 & 63) < 64,
        ((b0 & 3) << 4) < 64,
        ((b1 & 15) << 2) < 64,
        (((b0 >> 2) << 2) | ((((b0 & 3) << 4) | (b1 >> 4)) >> 4)) == b0,
        (((((((b0 & 3) << 4) | (b1 >> 4)) & 15) << 4) | ((((b1 & 15) << 2) | (b2 >> 6)) >> 2))
            == b1),
        ((((((b1 & 15) << 2) | (b2 >> 6)) & 3) << 6) | (b2 & 63)) == b2,
        (((b0 >> 2) << 2) | (((b0 & 3) << 4) >> 4)) == b0,
        ((((((b0 & 3) << 4) | (b1 >> 4)) & 15) << 4) | (((b1 & 15) << 2) >> 2)) == b1,
{
    assert((b0 >> 2) < 64) by (bit_vector);
    assert((((b0 & 3) << 4) | (b1 >> 4)) < 64) by (bit_vector);
    assert((((b1 & 15) << 2) | (b2 >> 6)) < 64) by (bit_vector);
    assert((b2 & 63) < 64) by (bit_vector);
    assert(((b0 & 3) << 4) < 64) by (bit_vector);
    assert(((b1 & 15) << 2) < 64) by (bit_vector);
    assert((((b0 >> 2) << 2) | ((((b0 & 3) << 4) | (b1 >> 4)) >> 4)) == b0) by (bit_vector);
    assert((((((((b0 & 3) << 4) | (b1 >> 4)) & 15) << 4) | ((((b1 & 15) << 2) | (b2 >> 6))
        >> 2)) == b1)) by (bit_vector);
    assert(((((((b1 & 15) << 2) | (b2 >> 6)) & 3) << 6) | (b2 & 63)) == b2) by (bit_vector);
    assert((((b0 >> 2) << 2) | (((b0 & 3) << 4) >> 4)) == b0) by (bit_vector);
    assert(((((((b0 & 3) << 4) | (b1 >> 4)) & 15) << 4) | (((b1 & 15) << 2) >> 2)) == b1)
        by (bit_vector);
}

/// Every byte of an encoding is an ASCII alphabet byte, never a dot.
pub proof fn lemma_encode_alphabet(b: Seq<u8>)
    ensures
        forall|i: int| 0 <= i < encode(b).len() ==> value(#[trigger] encode(b)[i]) is Some,
        forall|i: int| 0 <= i < encode(b).len() ==> #[trigger] encode(b)[i] < 128,
        forall|i: int| 0 <= i < encode(b).len() ==> #[trigger] encode(b)[i] != 46,
    decreases b.len(),
{
    if b.len() == 0 {
    } else if b.len() == 1 {
        lemma_groups(b[0], 0, 0);
        lemma_digit_value(b[0] >> 2);
        lemma_digit_value((b[0] & 3) << 4);
    } else if b.len() == 2 {
        lemma_groups(b[0], b[1], 0);
        lemma_digit_value(b[0] >> 2);
        lemma_digit_value(((b[0] & 3) << 4) | (b[1] >> 4));
        lemma_digit_value((b[1] & 15) << 2);
    } else {
        lemma_groups(b[0], b[1], b[2]);
        lemma_digit_value(b[0] >> 2);
        lemma_digit_value(((b[0] & 3) << 4) | (b[1] >> 4));
        lemma_digit_value(((b[1] & 15) << 2) | (b[2] >> 6));
        lemma_digit_value(b[2] & 63);
        lemma_encode_alphabet(b.skip(3));
        let head = enc3(b[0], b[1], b[2]);
        let tail = encode(b.skip(3));
        assert forall|i: int| 0 <= i < encode(b).len() implies value(#[trigger] encode(b)[i])
            is Some && encode(b)[i] < 128 && encode(b)[i] != 46 by {
            if i >= 4 {
                assert(encode(b)[i] == tail[i - 4]);
            }
        }
    }
}

/// Decoding an encoding gives back the bytes that were encoded.
pub proof fn lemma_decode_encode(b: Seq<u8>)
    ensures
        decode(encode(b)) == Some(b),
    decreases b.len(),
{
    if b.len() == 0 {
    } else if b.len() == 1 {
        lemma_groups(b[0], 0, 0);
        lemma_digit_value(b[0] >> 2);
        lemma_digit_value((b[0] & 3) << 4);
        assert(seq![b[0]] =~= b);
    } else if b.len() == 2 {
        lemma_groups(b[0], b[1], 0);
        lemma_digit_value(b[0] >> 2);
        lemma_digit_value(((b[0] & 3) << 4) | (b[1] >> 4));
        lemma_digit_value((b[1] & 15) << 2);
        assert(seq![b[0], b[1]] =~= b);
    } else {
        lemma_groups(b[0], b[1], b[2]);
        lemma_digit_value(b[0] >> 2);
        lemma_digit_value(((b[0] & 3) << 4) | (b[1] >> 4));
        lemma_digit_value(((b[1] & 15) << 2) | (b[2] >> 6));
        lemma_digit_value(b[2] & 63);
        lemma_decode_encode(b.skip(3));
        let head = enc3(b[0], b[1], b[2]);
        let tail = encode(b.skip(3));
        let e = encode(b);
        assert(e == head + tail);
        assert(dec_group(head) == Some(seq![b[0], b[1], b[2]]));
        if tail.len() == 0 {
            assert(b.skip(3).len() == 0);
            assert(e =~= head);
            assert(seq![b[0], b[1], b[2]] =~= b);
        } else {
            assert(e.take(4) =~= head);
            assert(e.skip(4) =~= tail);
            assert(seq![b[0], b[1], b[2]] + b.skip(3) =~= b);
        }
    }
}

fn digit_of(v: u8) -> (c: u8)
    requires
        v < 64,
    ensures
        c == digit(v),
{
    if v < 26 {
        v + 65
    } else if v < 52 {
        v + 71
    } else if v < 62 {
        v - 4
    } else if v == 62 {
        45
    } else {
        95
    }
}

fn value_of(c: u8) -> (r: Option<u8>)
    ensures
        r == value(c),
{
    if 65 <= c && c <= 90 {
        Some(c - 65)
    } else if 97 <= c && c <= 122 {
        Some(c - 71)
    } else if 48 <= c && c <= 57 {
        Some(c + 4)
    } else if c == 45 {
        Some(62)
    } else if c == 95 {
        Some(63)
    } else {
        None
    }
}

/// Appends the base64url text of `b` to `out`.
pub fn encode_into(b: &[u8], out: &mut Vec<u8>)
    ensures
        final(out)@ == old(out)@ + encode(b@),
{
    let n = b.len();
    let mut i: usize = 0;
    assert(b@.skip(0) =~= b@);
    while n - i >= 3
        invariant
            n == b@.len(),
            i <= n,
            old(out)@ + encode(b@) == out@ + encode(b@.skip(i as int)),
        decreases n - i,
    {
        let (b0, b1, b2) = (b[i], b[i + 1], b[i + 2]);
        proof {
            lemma_groups(b0, b1, b2);
            assert(b@.skip(i as int).skip(3) =~= b@.skip(i + 3));
        }
        out.push(digit_of(b0 >> 2));
        out.push(digit_of(((b0 & 3) << 4) | (b1 >> 4)));
        out.push(digit_of(((b1 & 15) << 2) | (b2 >> 6)));
        out.push(digit_of(b2 & 63));
        i = i + 3;
    }
    if n - i == 2 {
        let (b0, b1) = (b[i], b[i + 1]);
        proof {
            lemma_groups(b0, b1, 0);
        }
        out.push(digit_of(b0 >> 2));
        out.push(digit_of(((b0 & 3) << 4) | (b1 >> 4)));
        out.push(digit_of((b1 & 15) << 2));
    } else if n - i == 1 {
        let b0 = b[i];
        proof {
            lemma_groups(b0, 0, 0);
        }
        out.push(digit_of(b0 >> 2));
        out.push(digit_of((b0 & 3) << 4));
    }
    assert(out@ =~= old(out)@ + encode(b@));
}

/// The bytes that the base64url text `s` stands for, or `None` where `s` is not such a text.
pub fn try_decode(s: &[u8]) -> (r: Option<Vec<u8>>)
    ensures
        r matches Some(v) ==> decode(s@) == Some(v@),
        r is None ==> decode(s@) is None,
{
    let n = s.len();
    let mut out: Vec<u8> = Vec::new();
    let mut i: usize = 0;
    proof {
        assert(s@.skip(0) =~= s@);
        if let Some(r) = decode(s@) {
            assert(out@ + r =~= r);
        }
    }
    while i < n
        invariant
            n == s@.len(),
            i <= n,
            decode(s@) == (match decode(s@.skip(i as int)) {
                Some(rest) => Some(out@ + rest),
                None => None,
            }),
        decreases n - i,
    {
        let rest = Ghost(s@.skip(i as int));
        let len: usize = if n - i < 4 { n - i } else { 4 };
        if len == 1 {
            return None;
        }
        let v0 = match value_of(s[i]) {
            Some(v) => v,
            None => { return None; },
        };
        let v1 = match value_of(s[i + 1]) {
            Some(v) => v,
            None => { return None; },
        };
        assert(rest@.take(len as int)[0] == s@[i as int]);
        assert(rest@.take(len as int)[1] == s@[i + 1]);
        out.push(((v0 << 2) | (v1 >> 4)) as u8);
        if len > 2 {
            let v2 = match value_of(s[i + 2]) {
                Some(v) => v,
                None => { return None; },
            };
            assert(rest@.take(len as int)[2] == s@[i + 2]);
            out.push((((v1 & 15) << 4) | (v2 >> 2)) as u8);
            if len > 3 {
                let v3 = match value_of(s[i + 3]) {
                    Some(v) => v,
                    None => { return None; },
                };
                assert(rest@.take(len as int)[3] == s@[i + 3]);
                out.push((((v2 & 3) << 6) | v3) as u8);
            }
        }
        proof {
            assert(rest@.skip(len as int) =~= s@.skip(i + len));
            if rest@.len() <= 4 {
                assert(rest@.take(len as int) =~= rest@);
            }
        }
        i = i + len;
    }
    Some(out)
}

} // verus!
