//! A path reads the same as text and as the bytes of that text.
use vstd::prelude::*;
use vstd::utf8::{
    char_is_scalar, encode_scalar, encode_utf8, encode_utf8_decode_utf8, has_width_1_encoding,
    has_width_2_encoding, has_width_3_encoding,
};

use crate::path::{
    components, file_name, is_component, is_name, lemma_piece_end, lemma_spans, piece_end, spans,
    spans_from,
};

verus! {

/// Encoding texts one after the other is encoding the whole.
pub proof fn lemma_encode_concat(a: Seq<char>, b: Seq<char>)
    ensures
        encode_utf8(a + b) == encode_utf8(a) + encode_utf8(b),
    decreases a.len(),
{
    if a.len() == 0 {
        assert(a + b == b);
    } else {
        lemma_encode_concat(a.drop_first(), b);
        assert((a + b).drop_first() == a.drop_first() + b);
        assert((a + b)[0] == a[0]);
        assert(encode_scalar(a[0] as u32) + encode_utf8(a.drop_first()) + encode_utf8(b)
            == encode_scalar(a[0] as u32) + (encode_utf8(a.drop_first()) + encode_utf8(b)));
    }
}

/// The bytes of one character: an ASCII character is its own byte, any other
/// has no ASCII byte.
proof fn lemma_scalar(c: char)
    ensures
        ({
            let e = encode_scalar(c as u32);
            &&& e.len() >= 1
            &&& (c as u32) < 128 ==> e == seq![c as u8] && e[0] as int == c as int
            &&& c as u32 >= 128 ==> forall|k: int| 0 <= k < e.len() ==> #[trigger] e[k] >= 128
            &&& c as u32 >= 128 ==> e.len() >= 2
        }),
{
    char_is_scalar(c);
    let u = c as u32;
    if has_width_1_encoding(u) {
        assert((u & 0x7F) as u8 == u as u8) by (bit_vector)
            requires
                u <= 0x7F,
        ;
        assert(u as u8 as int == c as int);
    } else if has_width_2_encoding(u) {
        assert((0xC0u8 | ((u >> 6) & 0x1F) as u8) >= 128u8) by (bit_vector);
        assert((0x80u8 | (u & 0x3F) as u8) >= 128u8) by (bit_vector);
    } else if has_width_3_encoding(u) {
        assert((0xE0u8 | ((u >> 12) & 0x0F) as u8) >= 128u8) by (bit_vector);
        assert((0x80u8 | ((u >> 6) & 0x3F) as u8) >= 128u8) by (bit_vector);
        assert((0x80u8 | (u & 0x3F) as u8) >= 128u8) by (bit_vector);
    } else {
        assert((0xF0u8 | ((u >> 18) & 0x7) as u8) >= 128u8) by (bit_vector);
        assert((0x80u8 | ((u >> 12) & 0x3F) as u8) >= 128u8) by (bit_vector);
        assert((0x80u8 | ((u >> 6) & 0x3F) as u8) >= 128u8) by (bit_vector);
        assert((0x80u8 | (u & 0x3F) as u8) >= 128u8) by (bit_vector);
    }
}

/// Where the bytes of the character at `i` start.
pub open spec fn offset(s: Seq<char>, i: int) -> int {
    encode_utf8(s.take(i)).len() as int
}

/// The bytes of a part of a text.
pub proof fn lemma_encoded_part(s: Seq<char>, i: int, j: int)
    requires
        0 <= i <= j <= s.len(),
    ensures
        0 <= offset(s, i) <= offset(s, j) <= encode_utf8(s).len(),
        offset(s, s.len() as int) == encode_utf8(s).len(),
        encode_utf8(s).subrange(offset(s, i), offset(s, j)) == encode_utf8(s.subrange(i, j)),
        offset(s, j) == offset(s, i) + encode_utf8(s.subrange(i, j)).len(),
{
    lemma_encode_concat(s.take(i), s.subrange(i, j));
    assert(s.take(i) + s.subrange(i, j) == s.take(j));
    lemma_encode_concat(s.take(j), s.skip(j));
    assert(s.take(j) + s.skip(j) == s);
    assert(s.take(s.len() as int) == s);
}

/// The bytes of the character at `i`.
proof fn lemma_encoded_char(s: Seq<char>, i: int)
    requires
        0 <= i < s.len(),
    ensures
        ({
            let e = encode_scalar(s[i] as u32);
            &&& offset(s, i + 1) == offset(s, i) + e.len()
            &&& offset(s, i + 1) <= encode_utf8(s).len()
            &&& encode_utf8(s).subrange(offset(s, i), offset(s, i + 1)) == e
        }),
{
    lemma_encoded_part(s, i, i + 1);
    let one = s.subrange(i, i + 1);
    assert(one[0] == s[i]);
    assert(one.drop_first() == Seq::<char>::empty());
    reveal_with_fuel(encode_utf8, 2);
    assert(encode_utf8(one) == encode_scalar(s[i] as u32) + Seq::<u8>::empty());
    assert(encode_utf8(one) == encode_scalar(s[i] as u32));
}

proof fn lemma_skip_piece(p: Seq<u8>, a: int, b: int)
    requires
        0 <= a <= b <= p.len(),
        forall|k: int| a <= k < b ==> p[k] != 47,
    ensures
        piece_end(p, a) == piece_end(p, b),
    decreases b - a,
{
    if a < b {
        lemma_skip_piece(p, a + 1, b);
    }
}

/// Pieces end at the same places.
proof fn lemma_piece_encoded(s: Seq<char>, i: int)
    requires
        0 <= i <= s.len(),
    ensures
        piece_end(encode_utf8(s), offset(s, i)) == offset(s, piece_end(s, i)),
    decreases s.len() - i,
{
    let e = encode_utf8(s);
    lemma_encoded_part(s, i, i);
    if i < s.len() {
        lemma_encoded_char(s, i);
        lemma_scalar(s[i]);
        let part = e.subrange(offset(s, i), offset(s, i + 1));
        if s[i] == '/' {
            assert(part[0] as int == 47);
            assert(e[offset(s, i)] == 47);
        } else {
            assert forall|k: int| offset(s, i) <= k < offset(s, i + 1) implies e[k] != 47 by {
                let c = encode_scalar(s[i] as u32);
                assert(e[k] == part[k - offset(s, i)]);
                assert(e[k] == c[k - offset(s, i)]);
            }
            lemma_skip_piece(e, offset(s, i), offset(s, i + 1));
            lemma_piece_encoded(s, i + 1);
        }
    }
}

/// Whether two lists of spans are the same up to the offsets of a text.
pub open spec fn same_spans(s: Seq<char>, bytes: Seq<(int, int)>, chars: Seq<(int, int)>) -> bool {
    &&& bytes.len() == chars.len()
    &&& forall|k: int|
        0 <= k < chars.len() ==> #[trigger] bytes[k] == (
            offset(s, chars[k].0),
            offset(s, chars[k].1),
        )
}

proof fn lemma_spans_from_encoded(s: Seq<char>, i: int)
    requires
        0 <= i <= s.len(),
    ensures
        same_spans(s, spans_from(encode_utf8(s), offset(s, i)), spans_from(s, i)),
    decreases s.len() - i,
{
    let e = encode_utf8(s);
    let a = offset(s, i);
    lemma_encoded_part(s, i, i);
    if i < s.len() {
        lemma_piece_end(s, i);
        lemma_piece_encoded(s, i);
        let j = piece_end(s, i);
        let b = offset(s, j);
        lemma_encoded_part(s, i, j);
        lemma_encoded_char(s, i);
        lemma_scalar(s[i]);
        assert(a < e.len());
        assert(piece_end(e, a) == b);
        if i > 0 {
            lemma_encoded_part(s, 0, i);
            lemma_encoded_char(s, 0);
            lemma_scalar(s[0]);
            lemma_encoded_part(s, 1, i);
            assert(a > 0);
        } else {
            assert(s.take(0) == Seq::<char>::empty());
            assert(a == 0);
        }
        assert(e[a] == e.subrange(a, offset(s, i + 1))[0]);
        assert(is_component(e, a, b) <==> is_component(s, i, j)) by {
            if i < j {
                lemma_encoded_part(s, i + 1, j);
                if j > i + 1 {
                    lemma_encoded_char(s, i + 1);
                    lemma_scalar(s[i + 1]);
                    lemma_encoded_part(s, i + 2, j);
                }
            }
        }
        let rest_s = spans_from(s, j + 1);
        let rest_e = spans_from(e, b + 1);
        if j < s.len() {
            lemma_encoded_char(s, j);
            lemma_scalar(s[j]);
            assert(offset(s, j + 1) == b + 1);
            lemma_spans_from_encoded(s, j + 1);
        } else {
            assert(rest_s == Seq::<(int, int)>::empty());
            assert(b == e.len());
            assert(rest_e == Seq::<(int, int)>::empty());
        }
        assert(same_spans(s, rest_e, rest_s));
        if is_component(s, i, j) {
            let all_s = spans_from(s, i);
            let all_e = spans_from(e, a);
            assert(all_s == seq![(i, j)] + rest_s);
            assert(all_e == seq![(a, b)] + rest_e);
            assert forall|k: int| 0 <= k < all_s.len() implies #[trigger] all_e[k] == (
                offset(s, all_s[k].0),
                offset(s, all_s[k].1),
            ) by {
                if k > 0 {
                    assert(all_e[k] == rest_e[k - 1]);
                    assert(all_s[k] == rest_s[k - 1]);
                }
            }
        }
    }
}

proof fn lemma_spans_encoded(s: Seq<char>)
    ensures
        same_spans(s, spans(encode_utf8(s)), spans(s)),
{
    let e = encode_utf8(s);
    assert(s.take(0) == Seq::<char>::empty());
    assert(offset(s, 0) == 0);
    lemma_spans_from_encoded(s, 0);
    if s.len() > 0 {
        lemma_encoded_char(s, 0);
        lemma_scalar(s[0]);
        assert(e[0] == e.subrange(0, offset(s, 1))[0]);
        if s[0] == '/' {
            lemma_spans_from_encoded(s, 1);
            let all_s = spans(s);
            let all_e = spans(e);
            let rest_s = spans_from(s, 1);
            let rest_e = spans_from(e, 1);
            assert forall|k: int| 0 <= k < all_s.len() implies #[trigger] all_e[k] == (
                offset(s, all_s[k].0),
                offset(s, all_s[k].1),
            ) by {
                if k > 0 {
                    assert(all_e[k] == rest_e[k - 1]);
                    assert(all_s[k] == rest_s[k - 1]);
                }
            }
        }
    }
}

proof fn lemma_ascii_pair(a: char, b: char)
    requires
        (a as u32) < 128,
        (b as u32) < 128,
    ensures
        encode_utf8(seq![a]) == seq![a as u8],
        encode_utf8(seq![a, b]) == seq![a as u8, b as u8],
{
    lemma_scalar(a);
    lemma_scalar(b);
    reveal_with_fuel(encode_utf8, 3);
    assert(seq![a].drop_first() == Seq::<char>::empty());
    assert(seq![b].drop_first() == Seq::<char>::empty());
    assert(seq![a, b].drop_first() == seq![b]);
    assert(encode_utf8(seq![a]) == seq![a as u8] + Seq::<u8>::empty());
    assert(encode_utf8(seq![b]) == seq![b as u8] + Seq::<u8>::empty());
    assert(encode_utf8(seq![a, b]) == seq![a as u8] + encode_utf8(seq![b]));
}

/// A component is an ordinary name as text exactly where it is one as bytes.
proof fn lemma_name_encoded(c: Seq<char>)
    ensures
        is_name(encode_utf8(c)) <==> is_name(c),
{
    lemma_ascii_pair('/', '/');
    lemma_ascii_pair('.', '.');
    encode_utf8_decode_utf8(c);
    encode_utf8_decode_utf8(seq!['/']);
    encode_utf8_decode_utf8(seq!['.']);
    encode_utf8_decode_utf8(seq!['.', '.']);
    if c.len() > 0 {
        lemma_scalar(c[0]);
    }
}

/// The file name of a path is the same whether the path is read as text or as
/// the bytes of that text.
pub proof fn file_name_as_text_and_bytes(s: Seq<char>)
    ensures
        file_name(encode_utf8(s)) == match file_name(s) {
            Some(name) => Some(encode_utf8(name)),
            None => None,
        },
{
    let e = encode_utf8(s);
    lemma_spans_encoded(s);
    lemma_spans(s);
    let n = spans(s).len() as int;
    if n > 0 {
        let (i, j) = spans(s)[n - 1];
        lemma_encoded_part(s, i, j);
        assert(spans(e)[n - 1] == (offset(s, i), offset(s, j)));
        assert(components(e).last() == encode_utf8(components(s).last()));
        lemma_name_encoded(components(s).last());
    }
}

} // verus!
