use vstd::prelude::*;
use base64::engine::general_purpose::STANDARD;
use base64::Engine;

verus! {

#[verifier::external_type_specification]
#[verifier::external_body]
pub struct ExDecodeError(base64::DecodeError);

/// The character that the standard base64 alphabet (RFC 4648, table 1) gives
/// the six-bit value `v`: `A`-`Z`, `a`-`z`, `0`-`9`, `+`, `/`.
pub open spec fn base64_digit(v: u8) -> char {
    if v < 26 {
        (65 + v) as char
    } else if v < 52 {
        (97 + (v - 26)) as char
    } else if v < 62 {
        (48 + (v - 52)) as char
    } else if v == 62 {
        '+'
    } else {
        '/'
    }
}

/// The text that the standard base64 engine (standard alphabet, with padding)
/// gives for `bytes`: each group of three bytes becomes four characters of six
/// bits each, high bits first; a final group of one or two bytes is padded with
/// zero bits and then with `=` to four characters.
#[verifier::opaque]
pub open spec fn base64_encoded(bytes: Seq<u8>) -> Seq<char>
    decreases bytes.len(),
{
    if bytes.len() == 0 {
        Seq::empty()
    } else if bytes.len() == 1 {
        seq![base64_digit(bytes[0] >> 2), base64_digit((bytes[0] & 3) << 4), '=', '=']
    } else if bytes.len() == 2 {
        seq![
            base64_digit(bytes[0] >> 2),
            base64_digit(((bytes[0] & 3) << 4) | (bytes[1] >> 4)),
            base64_digit((bytes[1] & 15) << 2),
            '=',
        ]
    } else {
        seq![
            base64_digit(bytes[0] >> 2),
            base64_digit(((bytes[0] & 3) << 4) | (bytes[1] >> 4)),
            base64_digit(((bytes[1] & 15) << 2) | (bytes[2] >> 6)),
            base64_digit(bytes[2] & 63),
        ] + base64_encoded(bytes.skip(3))
    }
}

/// What the standard base64 engine decodes `text` to: with canonical padding
/// required and no trailing bits allowed, it accepts exactly the texts that
/// encode some bytes, and gives back those bytes; it refuses every other text.
#[verifier::opaque]
pub open spec fn base64_decoded(text: Seq<char>) -> Option<Seq<u8>> {
    if exists|bytes: Seq<u8>| base64_encoded(bytes) == text {
        Some(choose|bytes: Seq<u8>| base64_encoded(bytes) == text)
    } else {
        None
    }
}

proof fn lemma_digit_injective(v: u8, w: u8)
    requires
        v < 64,
        w < 64,
        base64_digit(v) == base64_digit(w),
    ensures
        v == w,
{
}

proof fn lemma_digit_not_pad(v: u8)
    requires
        v < 64,
    ensures
        base64_digit(v) != '=',
{
}


proof fn lemma_sextets_of_three(b0: u8, b1: u8, b2: u8, c0: u8, c1: u8, c2: u8)
    ensures
        b0 >> 2 < 64,
        ((b0 & 3) << 4) | (b1 >> 4) < 64,
        ((b1 & 15) << 2) | (b2 >> 6) < 64,
        b2 & 63 < 64,
        (b0 >> 2 == c0 >> 2 && ((b0 & 3) << 4) | (b1 >> 4) == ((c0 & 3) << 4) | (c1 >> 4) && ((b1
            & 15) << 2) | (b2 >> 6) == ((c1 & 15) << 2) | (c2 >> 6) && b2 & 63 == c2 & 63) ==> (b0
            == c0 && b1 == c1 && b2 == c2),
{
    assert(b0 >> 2 < 64 && ((b0 & 3) << 4) | (b1 >> 4) < 64 && ((b1 & 15) << 2) | (b2 >> 6) < 64
        && b2 & 63 < 64) by (bit_vector);
    assert((b0 >> 2 == c0 >> 2 && ((b0 & 3) << 4) | (b1 >> 4) == ((c0 & 3) << 4) | (c1 >> 4) && ((
    b1 & 15) << 2) | (b2 >> 6) == ((c1 & 15) << 2) | (c2 >> 6) && b2 & 63 == c2 & 63) ==> (b0 == c0
        && b1 == c1 && b2 == c2)) by (bit_vector);
}

proof fn lemma_sextets_of_two(b0: u8, b1: u8, c0: u8, c1: u8)
    ensures
        ((b0 & 3) << 4) | (b1 >> 4) < 64,
        (b1 & 15) << 2 < 64,
        (b0 >> 2 == c0 >> 2 && ((b0 & 3) << 4) | (b1 >> 4) == ((c0 & 3) << 4) | (c1 >> 4) && (b1
            & 15) << 2 == (c1 & 15) << 2) ==> (b0 == c0 && b1 == c1),
{
    assert(((b0 & 3) << 4) | (b1 >> 4) < 64 && (b1 & 15) << 2 < 64) by (bit_vector);
    assert((b0 >> 2 == c0 >> 2 && ((b0 & 3) << 4) | (b1 >> 4) == ((c0 & 3) << 4) | (c1 >> 4) && (
    b1 & 15) << 2 == (c1 & 15) << 2) ==> (b0 == c0 && b1 == c1)) by (bit_vector);
}

proof fn lemma_sextets_of_one(b0: u8, c0: u8)
    ensures
        b0 >> 2 < 64,
        (b0 & 3) << 4 < 64,
        (b0 >> 2 == c0 >> 2 && (b0 & 3) << 4 == (c0 & 3) << 4) ==> b0 == c0,
{
    assert(b0 >> 2 < 64 && (b0 & 3) << 4 < 64) by (bit_vector);
    assert((b0 >> 2 == c0 >> 2 && (b0 & 3) << 4 == (c0 & 3) << 4) ==> b0 == c0) by (bit_vector);
}

/// Different byte strings have different base64 encodings.
pub proof fn lemma_base64_encoding_injective(a: Seq<u8>, b: Seq<u8>)
    requires
        base64_encoded(a) == base64_encoded(b),
    ensures
        a == b,
    decreases a.len(),
{
    reveal(base64_encoded);
    let ea = base64_encoded(a);
    let eb = base64_encoded(b);
    if a.len() == 0 || b.len() == 0 {
        if a.len() != 0 || b.len() != 0 {
            assert(ea.len() != eb.len());
        }
        assert(a =~= b);
        return;
    }
    if a.len() >= 3 {
        lemma_sextets_of_three(a[0], a[1], a[2], a[0], a[1], a[2]);
    }
    if b.len() >= 3 {
        lemma_sextets_of_three(b[0], b[1], b[2], b[0], b[1], b[2]);
    }
    if a.len() >= 2 {
        lemma_sextets_of_two(a[0], a[1], a[0], a[1]);
    }
    if b.len() >= 2 {
        lemma_sextets_of_two(b[0], b[1], b[0], b[1]);
    }
    lemma_sextets_of_one(a[0], b[0]);
    lemma_sextets_of_one(b[0], a[0]);
    if a.len() >= 3 && b.len() >= 3 {
        assert(ea[0] == eb[0] && ea[1] == eb[1] && ea[2] == eb[2] && ea[3] == eb[3]);
        lemma_digit_injective(a[0] >> 2, b[0] >> 2);
        lemma_digit_injective(((a[0] & 3) << 4) | (a[1] >> 4), ((b[0] & 3) << 4) | (b[1] >> 4));
        lemma_digit_injective(((a[1] & 15) << 2) | (a[2] >> 6), ((b[1] & 15) << 2) | (b[2] >> 6));
        lemma_digit_injective(a[2] & 63, b[2] & 63);
        lemma_sextets_of_three(a[0], a[1], a[2], b[0], b[1], b[2]);
        assert(ea.skip(4) =~= base64_encoded(a.skip(3)));
        assert(eb.skip(4) =~= base64_encoded(b.skip(3)));
        lemma_base64_encoding_injective(a.skip(3), b.skip(3));
        assert(a =~= seq![a[0], a[1], a[2]] + a.skip(3));
        assert(b =~= seq![b[0], b[1], b[2]] + b.skip(3));
    } else if a.len() >= 3 {
        // b has one or two bytes: its fourth character is padding, a's is not.
        lemma_digit_not_pad(a[2] & 63);
        assert(ea[3] != eb[3]);
    } else if b.len() >= 3 {
        lemma_digit_not_pad(b[2] & 63);
        assert(ea[3] != eb[3]);
    } else if a.len() == 2 && b.len() == 2 {
        assert(ea[0] == eb[0] && ea[1] == eb[1] && ea[2] == eb[2]);
        lemma_digit_injective(a[0] >> 2, b[0] >> 2);
        lemma_digit_injective(((a[0] & 3) << 4) | (a[1] >> 4), ((b[0] & 3) << 4) | (b[1] >> 4));
        lemma_digit_injective((a[1] & 15) << 2, (b[1] & 15) << 2);
        lemma_sextets_of_two(a[0], a[1], b[0], b[1]);
        assert(a =~= b);
    } else if a.len() == 1 && b.len() == 1 {
        assert(ea[0] == eb[0] && ea[1] == eb[1]);
        lemma_digit_injective(a[0] >> 2, b[0] >> 2);
        lemma_digit_injective((a[0] & 3) << 4, (b[0] & 3) << 4);
        assert(a =~= b);
    } else if a.len() == 2 {
        lemma_digit_not_pad((a[1] & 15) << 2);
        assert(ea[2] != eb[2]);
    } else {
        lemma_digit_not_pad((b[1] & 15) << 2);
        assert(ea[2] != eb[2]);
    }
}

/// Decoding gives back the bytes of any encoding, and accepts a text only
/// where it is the encoding of the bytes it gives.
pub proof fn lemma_base64_round_trip(bytes: Seq<u8>, text: Seq<char>)
    ensures
        base64_decoded(base64_encoded(bytes)) == Some(bytes),
        base64_decoded(text) matches Some(b) ==> base64_encoded(b) == text,
{
    reveal(base64_decoded);
    let t = base64_encoded(bytes);
    assert(exists|b: Seq<u8>| base64_encoded(b) == t);
    let b = choose|b: Seq<u8>| base64_encoded(b) == t;
    lemma_base64_encoding_injective(b, bytes);
}


/// Every character of an encoding is a digit of the standard alphabet or the
/// padding `=`.
pub proof fn lemma_base64_encoding_characters(bytes: Seq<u8>)
    ensures
        forall|i: int| 0 <= i < base64_encoded(bytes).len() ==> #[trigger] base64_encoded(bytes)[i] == '='
            || exists|v: u8| v < 64 && base64_digit(v) == base64_encoded(bytes)[i],
    decreases bytes.len(),
{
    reveal(base64_encoded);
    let e = base64_encoded(bytes);
    if bytes.len() >= 3 {
        lemma_sextets_of_three(bytes[0], bytes[1], bytes[2], bytes[0], bytes[1], bytes[2]);
        lemma_base64_encoding_characters(bytes.skip(3));
        assert forall|i: int| 0 <= i < e.len() implies #[trigger] e[i] == '=' || exists|v: u8|
            v < 64 && base64_digit(v) == e[i] by {
            if i < 4 {
                if i == 0 {
                    assert(base64_digit(bytes[0] >> 2) == e[i]);
                } else if i == 1 {
                    assert(base64_digit(((bytes[0] & 3) << 4) | (bytes[1] >> 4)) == e[i]);
                } else if i == 2 {
                    assert(base64_digit(((bytes[1] & 15) << 2) | (bytes[2] >> 6)) == e[i]);
                } else {
                    assert(base64_digit(bytes[2] & 63) == e[i]);
                }
            } else {
                assert(e[i] == base64_encoded(bytes.skip(3))[i - 4]);
            }
        }
    } else if bytes.len() == 2 {
        lemma_sextets_of_two(bytes[0], bytes[1], bytes[0], bytes[1]);
        lemma_sextets_of_one(bytes[0], bytes[0]);
        assert(base64_digit(bytes[0] >> 2) == e[0]);
        assert(base64_digit(((bytes[0] & 3) << 4) | (bytes[1] >> 4)) == e[1]);
        assert(base64_digit((bytes[1] & 15) << 2) == e[2]);
    } else if bytes.len() == 1 {
        lemma_sextets_of_one(bytes[0], bytes[0]);
        assert(base64_digit(bytes[0] >> 2) == e[0]);
        assert(base64_digit((bytes[0] & 3) << 4) == e[1]);
    }
}

/// Test vectors of RFC 4648 (section 10), the two characters that set the
/// standard alphabet apart (`+` for 62, `/` for 63), and the refusal of the
/// URL-safe spelling of the same bytes.
pub proof fn lemma_base64_test_vectors()
    ensures
        base64_encoded(Seq::<u8>::empty()) == Seq::<char>::empty(),
        base64_encoded(seq![0x66u8]) == seq!['Z', 'g', '=', '='],
        base64_encoded(seq![0x66u8, 0x6f]) == seq!['Z', 'm', '8', '='],
        base64_encoded(seq![0x66u8, 0x6f, 0x6f]) == seq!['Z', 'm', '9', 'v'],
        base64_encoded(seq![0x66u8, 0x6f, 0x6f, 0x62, 0x61, 0x72]) == seq!['Z', 'm', '9', 'v', 'Y', 'm', 'F', 'y'],
        base64_encoded(seq![0xfbu8, 0xff]) == seq!['+', '/', '8', '='],
        base64_decoded(seq!['+', '/', '8', '=']) == Some(seq![0xfbu8, 0xff]),
        base64_decoded(seq!['-', '_', '8', '=']) is None,
{
    reveal_with_fuel(base64_encoded, 3);
    assert(0x66u8 >> 2 == 25 && (0x66u8 & 3) << 4 == 32 && ((0x66u8 & 3) << 4) | (0x6fu8 >> 4) == 38
        && (0x6fu8 & 15) << 2 == 60 && ((0x6fu8 & 15) << 2) | (0x6fu8 >> 6) == 61 && 0x6fu8 & 63
        == 47 && 0x62u8 >> 2 == 24 && ((0x62u8 & 3) << 4) | (0x61u8 >> 4) == 38 && ((0x61u8 & 15)
        << 2) | (0x72u8 >> 6) == 5 && 0x72u8 & 63 == 50 && 0xfbu8 >> 2 == 62 && ((0xfbu8 & 3) << 4)
        | (0xffu8 >> 4) == 63 && (0xffu8 & 15) << 2 == 60) by (bit_vector);
    let foobar = seq![0x66u8, 0x6f, 0x6f, 0x62, 0x61, 0x72];
    assert(foobar.skip(3) =~= seq![0x62u8, 0x61, 0x72]);
    assert(seq![0x62u8, 0x61, 0x72].skip(3) =~= Seq::<u8>::empty());
    assert(seq![0x66u8, 0x6f, 0x6f].skip(3) =~= Seq::<u8>::empty());
    assert(base64_encoded(seq![0x66u8, 0x6f, 0x6f]) =~= seq!['Z', 'm', '9', 'v']);
    assert(base64_encoded(seq![0x62u8, 0x61, 0x72]) =~= seq!['Y', 'm', 'F', 'y']);
    assert(base64_encoded(foobar) =~= seq!['Z', 'm', '9', 'v', 'Y', 'm', 'F', 'y']);
    assert(base64_encoded(seq![0x66u8]) =~= seq!['Z', 'g', '=', '=']);
    assert(base64_encoded(seq![0x66u8, 0x6f]) =~= seq!['Z', 'm', '8', '=']);
    assert(base64_encoded(seq![0xfbu8, 0xff]) =~= seq!['+', '/', '8', '=']);
    assert(base64_encoded(Seq::<u8>::empty()) =~= Seq::<char>::empty());
    lemma_base64_round_trip(seq![0xfbu8, 0xff], seq!['+', '/', '8', '=']);
    let url = seq!['-', '_', '8', '='];
    reveal(base64_decoded);
    if exists|b: Seq<u8>| base64_encoded(b) == url {
        let b = choose|b: Seq<u8>| base64_encoded(b) == url;
        lemma_base64_encoding_characters(b);
        assert(base64_encoded(b)[0] == '-');
        let v = choose|v: u8| v < 64 && base64_digit(v) == base64_encoded(b)[0];
        assert(base64_digit(v) == '-');
    }
}


/// The standard engine can size its output for `len` input bytes: four
/// characters for every started group of three bytes fit in a `usize`.
#[verifier::opaque]
pub open spec fn base64_encodable(len: nat) -> bool {
    if len % 3 == 0 {
        len / 3 * 4 <= usize::MAX
    } else {
        len / 3 * 4 + 4 <= usize::MAX
    }
}

/// Calls `STANDARD.encode` of the base64 crate. Claimed: the result is the
/// padded RFC 4648 encoding of `bytes` in the standard alphabet, as
/// `base64_encoded` states it, and the same engine decodes it back to `bytes`
/// (which `lemma_base64_round_trip` also proves of that statement). The
/// engine panics when the output length overflows `usize`, which `requires`
/// rules out.
#[verifier::external_body]
pub(crate) fn encode_base64(bytes: &[u8]) -> (text: String)
    requires
        base64_encodable(bytes@.len()),
    ensures
        text@ == base64_encoded(bytes@),
        base64_decoded(text@) == Some(bytes@),
{
    STANDARD.encode(bytes)
}

/// Calls `STANDARD.decode` of the base64 crate on the UTF-8 bytes of `text`.
/// Claimed: with the engine's configuration (canonical padding required, no
/// trailing bits), it succeeds exactly on the texts that are the encoding of
/// some bytes, and then returns those bytes, as `base64_decoded` states.
/// Which `DecodeError` comes back is left unsaid.
#[verifier::external_body]
pub(crate) fn decode_base64(text: &str) -> (res: Result<Vec<u8>, base64::DecodeError>)
    ensures
        match res {
            Ok(bytes) => base64_decoded(text@) == Some(bytes@),
            Err(_) => base64_decoded(text@) is None,
        },
{
    STANDARD.decode(text)
}

} // verus!
