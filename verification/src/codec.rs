//! Base64, as uploads carry image bytes in it.
use base64::Engine;
use vstd::prelude::*;

verus! {

/// The symbol of a 6-bit value in the standard base64 alphabet.
pub open spec fn base64_symbol(v: int) -> u8 {
    if v < 26 {
        (65 + v) as u8
    } else if v < 52 {
        (97 + v - 26) as u8
    } else if v < 62 {
        (48 + v - 52) as u8
    } else if v == 62 {
        43
    } else {
        47
    }
}

/// The base64 form of some bytes, with or without padding.
pub open spec fn base64_text(data: Seq<u8>, padded: bool) -> Seq<u8>
    decreases data.len(),
{
    if data.len() == 0 {
        Seq::empty()
    } else if data.len() == 1 {
        seq![base64_symbol(data[0] as int / 4), base64_symbol(data[0] as int % 4 * 16)] + (
        if padded {
            seq![61u8, 61u8]
        } else {
            Seq::empty()
        })
    } else if data.len() == 2 {
        seq![
            base64_symbol(data[0] as int / 4),
            base64_symbol(data[0] as int % 4 * 16 + data[1] as int / 16),
            base64_symbol(data[1] as int % 16 * 4),
        ] + (if padded {
            seq![61u8]
        } else {
            Seq::empty()
        })
    } else {
        seq![
            base64_symbol(data[0] as int / 4),
            base64_symbol(data[0] as int % 4 * 16 + data[1] as int / 16),
            base64_symbol(data[1] as int % 16 * 4 + data[2] as int / 64),
            base64_symbol(data[2] as int % 64),
        ] + base64_text(data.skip(3), padded)
    }
}

/// What `base64` says about input that is not base64 without padding.
pub uninterp spec fn base64_complaint(text: Seq<u8>) -> Seq<char>;

/// `Engine::decode` of the `base64` engine `STANDARD`: decodes exactly the
/// canonical, padded base64 forms, and gives nothing for other input.
#[verifier::external_body]
fn decode_padded(text: &[u8]) -> (data: Option<Vec<u8>>)
    ensures
        match data {
            Some(d) => text@ == base64_text(d@, true),
            None => forall|d: Seq<u8>| text@ != #[trigger] base64_text(d, true),
        },
{
    base64::engine::general_purpose::STANDARD.decode(text).ok()
}

/// `Engine::decode` of the `base64` engine `STANDARD_NO_PAD`: decodes exactly
/// the canonical base64 forms without padding. For other input it gives its
/// error as text, which is only named.
#[verifier::external_body]
fn decode_unpadded(text: &[u8]) -> (data: Result<Vec<u8>, String>)
    ensures
        match data {
            Ok(d) => text@ == base64_text(d@, false),
            Err(e) => {
                &&& forall|d: Seq<u8>| text@ != #[trigger] base64_text(d, false)
                &&& e@ == base64_complaint(text@)
            },
        },
{
    base64::engine::general_purpose::STANDARD_NO_PAD.decode(text).map_err(|e| e.to_string())
}

/// Whether a text is a base64 form of some bytes, with or without padding.
pub open spec fn is_base64_of(text: Seq<u8>, data: Seq<u8>) -> bool {
    text == base64_text(data, true) || text == base64_text(data, false)
}

/// Decodes base64 with its padding; forms that drop the padding are tolerated.
pub fn decode_base64(text: &[u8]) -> (data: Result<Vec<u8>, String>)
    ensures
        match data {
            Ok(d) => is_base64_of(text@, d@),
            Err(e) => {
                &&& forall|d: Seq<u8>| !#[trigger] is_base64_of(text@, d)
                &&& e@ == base64_complaint(text@)
            },
        },
{
    match decode_padded(text) {
        Some(d) => Ok(d),
        None => decode_unpadded(text),
    }
}

proof fn lemma_symbol_injective(v: int, w: int)
    requires
        0 <= v < 64,
        0 <= w < 64,
        base64_symbol(v) == base64_symbol(w),
    ensures
        v == w,
{
}

proof fn lemma_symbol_is_no_pad(v: int)
    requires
        0 <= v < 64,
    ensures
        base64_symbol(v) != 61,
{
}

proof fn lemma_text_len(data: Seq<u8>, padded: bool)
    ensures
        base64_text(data, padded).len() == if padded {
            (data.len() + 2) / 3 * 4
        } else {
            (data.len() * 4 + 2) / 3
        },
    decreases data.len(),
{
    if data.len() >= 3 {
        lemma_text_len(data.skip(3), padded);
    }
}

/// Different bytes have different base64 forms, of the same kind or not.
proof fn lemma_text_injective(a: Seq<u8>, p: bool, b: Seq<u8>, q: bool)
    requires
        base64_text(a, p) == base64_text(b, q),
    ensures
        a == b,
    decreases a.len(),
{
    let t = base64_text(a, p);
    let u = base64_text(b, q);
    lemma_text_len(a, p);
    lemma_text_len(b, q);
    if a.len() == 0 || b.len() == 0 {
        assert(a.len() == 0 && b.len() == 0);
        assert(a == b);
    } else {
        assert(t[0] == base64_symbol(a[0] as int / 4));
        assert(u[0] == base64_symbol(b[0] as int / 4));
        lemma_symbol_injective(a[0] as int / 4, b[0] as int / 4);
        let x1 = if a.len() == 1 {
            a[0] as int % 4 * 16
        } else {
            a[0] as int % 4 * 16 + a[1] as int / 16
        };
        let y1 = if b.len() == 1 {
            b[0] as int % 4 * 16
        } else {
            b[0] as int % 4 * 16 + b[1] as int / 16
        };
        assert(t[1] == base64_symbol(x1));
        assert(u[1] == base64_symbol(y1));
        lemma_symbol_injective(x1, y1);
        assert(a[0] == b[0]);
        lemma_third_symbol(a, p);
        lemma_third_symbol(b, q);
        if a.len() == 1 {
            assert(b.len() == 1);
            assert(a == b);
        } else {
            assert(b.len() >= 2);
            let x2 = if a.len() == 2 {
                a[1] as int % 16 * 4
            } else {
                a[1] as int % 16 * 4 + a[2] as int / 64
            };
            let y2 = if b.len() == 2 {
                b[1] as int % 16 * 4
            } else {
                b[1] as int % 16 * 4 + b[2] as int / 64
            };
            assert(t[2] == base64_symbol(x2));
            assert(u[2] == base64_symbol(y2));
            lemma_symbol_injective(x2, y2);
            assert(a[1] == b[1]);
            if a.len() == 2 {
                assert(b.len() == 2);
                assert(a == b);
            } else {
                assert(b.len() >= 3);
                assert(t[3] == base64_symbol(a[2] as int % 64));
                assert(u[3] == base64_symbol(b[2] as int % 64));
                lemma_symbol_injective(a[2] as int % 64, b[2] as int % 64);
                assert(a[2] == b[2]);
                assert(t.skip(4) == base64_text(a.skip(3), p));
                assert(u.skip(4) == base64_text(b.skip(3), q));
                lemma_text_injective(a.skip(3), p, b.skip(3), q);
                assert(a == a.take(3) + a.skip(3));
                assert(b == b.take(3) + b.skip(3));
                assert(a.take(3) == b.take(3));
            }
        }
    }
}

/// How the third and fourth symbol tell the length of the rest.
proof fn lemma_third_symbol(a: Seq<u8>, p: bool)
    requires
        a.len() > 0,
    ensures
        ({
            let t = base64_text(a, p);
            &&& a.len() == 1 <==> t.len() == 2 || t[2] == 61
            &&& a.len() >= 3 <==> t.len() > 3 && t[3] != 61
        }),
{
    let t = base64_text(a, p);
    lemma_text_len(a, p);
    if a.len() == 2 {
        assert(t[2] == base64_symbol(a[1] as int % 16 * 4));
        lemma_symbol_is_no_pad(a[1] as int % 16 * 4);
    } else if a.len() >= 3 {
        assert(t[2] == base64_symbol(a[1] as int % 16 * 4 + a[2] as int / 64));
        lemma_symbol_is_no_pad(a[1] as int % 16 * 4 + a[2] as int / 64);
        assert(t[3] == base64_symbol(a[2] as int % 64));
        lemma_symbol_is_no_pad(a[2] as int % 64);
    }
}

/// A base64 form stands for one sequence of bytes only: what is decoded from a
/// form of some bytes is those bytes.
pub proof fn base64_is_unambiguous(text: Seq<u8>, a: Seq<u8>, b: Seq<u8>)
    requires
        is_base64_of(text, a),
        is_base64_of(text, b),
    ensures
        a == b,
{
    let p = text == base64_text(a, true);
    let q = text == base64_text(b, true);
    lemma_text_injective(a, p, b, q);
}

/// Bytes of any number, put into base64 with or without padding, come out as those
/// very bytes and no others.
pub proof fn bytes_survive_base64(data: Seq<u8>, padded: bool, other: Seq<u8>)
    ensures
        is_base64_of(base64_text(data, padded), data),
        is_base64_of(base64_text(data, padded), other) ==> other == data,
{
    if is_base64_of(base64_text(data, padded), other) {
        base64_is_unambiguous(base64_text(data, padded), data, other);
    }
}

/// Every three bytes take four symbols; what is left over takes a symbol more than
/// it has bytes, and padding fills it up to four.
pub proof fn base64_is_four_thirds_as_long(text: Seq<u8>, data: Seq<u8>)
    requires
        is_base64_of(text, data),
    ensures
        text.len() == (data.len() + 2) / 3 * 4 || text.len() == (data.len() * 4 + 2) / 3,
{
    lemma_text_len(data, true);
    lemma_text_len(data, false);
}

} // verus!
