//! The correspondence between the byte-level tokenizer and the
//! character-level model: tokenizing the UTF-8 encoding of a character
//! sequence yields exactly the UTF-8 encodings of the character-level
//! tokens. Everything rests on the UTF-8 theory of vstd.

use crate::model::tokens_of;
use crate::tokenizer::{byte_tokens_of, decode_tokens, parse_bytes, tokens_decodable};
use crate::model::parse_csv;
use vstd::prelude::*;
use vstd::utf8::{
    char_is_scalar, char_u32_cast, decode_utf8, decode_utf8_encode_utf8, encode_scalar,
    encode_utf8, encode_utf8_decode_utf8, encode_utf8_valid_utf8, has_width_1_encoding,
    has_width_2_encoding, has_width_3_encoding, valid_utf8,
};

verus! {

/// The character-level tokens with each cell encoded as UTF-8.
pub open spec fn encode_tokens(toks: Seq<(Seq<char>, bool)>) -> Seq<(Seq<u8>, bool)> {
    toks.map_values(|t: (Seq<char>, bool)| (encode_utf8(t.0), t.1))
}

/// `encode_utf8` distributes over concatenation.
proof fn lemma_encode_utf8_concat(a: Seq<char>, b: Seq<char>)
    ensures
        encode_utf8(a + b) == encode_utf8(a) + encode_utf8(b),
    decreases a.len(),
{
    if a.len() == 0 {
        assert(a + b =~= b);
        assert(encode_utf8(a) + encode_utf8(b) =~= encode_utf8(b));
    } else {
        assert((a + b).len() > 0);
        assert((a + b)[0] == a[0]);
        assert((a + b).drop_first() =~= a.drop_first() + b);
        lemma_encode_utf8_concat(a.drop_first(), b);
        assert(encode_utf8(a + b) =~= encode_utf8(a) + encode_utf8(b));
    }
}

/// Encoding `s.push(c)` appends the encoding of `c`.
proof fn lemma_encode_utf8_push(s: Seq<char>, c: char)
    ensures
        encode_utf8(s.push(c)) == encode_utf8(s) + encode_scalar(c as u32),
{
    assert(s.push(c) =~= s + seq![c]);
    lemma_encode_utf8_concat(s, seq![c]);
    assert(seq![c].drop_first() =~= Seq::<char>::empty());
    assert(seq![c][0] == c);
    assert(encode_utf8(Seq::<char>::empty()) =~= Seq::<u8>::empty());
    assert(encode_utf8(seq![c]) =~= encode_scalar(c as u32) + Seq::<u8>::empty());
    assert(encode_scalar(c as u32) + Seq::<u8>::empty() =~= encode_scalar(c as u32));
}

/// An ASCII character is encoded as its own single byte.
proof fn lemma_encode_scalar_ascii(c: char)
    requires
        c as u32 <= 0x7F,
    ensures
        encode_scalar(c as u32) == seq![(c as u32) as u8],
        ((c as u32) as u8) < 0x80,
        ((c as u32) as u8) as u32 == c as u32,
{
    let u = c as u32;
    assert(has_width_1_encoding(u));
    assert(u & 0x7F == u) by (bit_vector)
        requires
            u <= 0x7F,
    ;
    assert(encode_scalar(u) =~= seq![(u & 0x7F) as u8]);
}

/// Every byte of the encoding of a character above the ASCII range is at
/// or above 0x80, so none of them can be a structural CSV byte.
proof fn lemma_encode_scalar_high(c: char)
    requires
        c as u32 > 0x7F,
    ensures
        encode_scalar(c as u32).len() >= 2,
        forall|k: int|
            0 <= k < encode_scalar(c as u32).len() ==> #[trigger] encode_scalar(c as u32)[k]
                >= 0x80,
{
    let u = c as u32;
    char_is_scalar(c);
    assert(forall|y: u8| (0x80u8 | y) >= 0x80) by (bit_vector);
    assert(forall|y: u8| (0xC0u8 | y) >= 0x80) by (bit_vector);
    assert(forall|y: u8| (0xE0u8 | y) >= 0x80) by (bit_vector);
    assert(forall|y: u8| (0xF0u8 | y) >= 0x80) by (bit_vector);
    if has_width_2_encoding(u) {
    } else if has_width_3_encoding(u) {
    } else {
    }
}

/// The first byte of a character's encoding equals a given ASCII byte
/// exactly when the character is that ASCII character.
proof fn lemma_first_byte(c: char, b: u8)
    requires
        b < 0x80,
    ensures
        encode_scalar(c as u32).len() > 0,
        encode_scalar(c as u32)[0] == b <==> c as u32 == b as u32,
{
    if c as u32 <= 0x7F {
        lemma_encode_scalar_ascii(c);
    } else {
        lemma_encode_scalar_high(c);
    }
}

/// Bytes at or above 0x80 pass through the tokenizer into the current
/// cell without any state change.
proof fn lemma_byte_tokens_high_prefix(pre: Seq<u8>, rem: Seq<u8>, cell: Seq<u8>, q: bool)
    requires
        forall|k: int| 0 <= k < pre.len() ==> pre[k] >= 0x80,
    ensures
        byte_tokens_of(pre + rem, cell, q) == byte_tokens_of(rem, cell + pre, q),
    decreases pre.len(),
{
    if pre.len() == 0 {
        assert(pre + rem =~= rem);
        assert(cell + pre =~= cell);
    } else {
        let b = pre[0];
        assert((pre + rem)[0] == b);
        assert((pre + rem).len() > 0);
        assert((pre + rem).drop_first() =~= pre.drop_first() + rem);
        lemma_byte_tokens_high_prefix(pre.drop_first(), rem, cell.push(b), q);
        assert(cell.push(b) + pre.drop_first() =~= cell + pre);
    }
}

/// The central correspondence: running the byte-level tokenizer on the
/// UTF-8 encoding of the input, from a state whose pending cell is the
/// encoding of the character-level pending cell, produces exactly the
/// encodings of the character-level tokens.
#[verifier::rlimit(100)]
proof fn lemma_byte_char_tokens(s: Seq<char>, cell: Seq<char>, q: bool)
    ensures
        byte_tokens_of(encode_utf8(s), encode_utf8(cell), q) == encode_tokens(
            tokens_of(s, cell, q),
        ),
    decreases s.len(),
{
    if s.len() == 0 {
        assert(encode_utf8(s) =~= Seq::<u8>::empty());
        if cell.len() == 0 {
            assert(encode_utf8(cell) =~= Seq::<u8>::empty());
            assert(encode_tokens(tokens_of(s, cell, q)) =~= Seq::<(Seq<u8>, bool)>::empty());
        } else {
            assert(encode_utf8(cell).len() > 0);
            assert(encode_tokens(tokens_of(s, cell, q)) =~= seq![(encode_utf8(cell), true)]);
        }
    } else {
        let c = s[0];
        let u = c as u32;
        let rest = s.drop_first();
        let e = encode_scalar(u);
        let rem = encode_utf8(s);
        assert(rem =~= e + encode_utf8(rest));
        assert('"' as u32 == 0x22);
        assert(',' as u32 == 0x2C);
        assert('\r' as u32 == 0x0D);
        assert('\n' as u32 == 0x0A);
        if u > 0x7F {
            lemma_encode_scalar_high(c);
            lemma_byte_tokens_high_prefix(e, encode_utf8(rest), encode_utf8(cell), q);
            lemma_encode_utf8_push(cell, c);
            assert(encode_utf8(cell) + e =~= encode_utf8(cell.push(c)));
            lemma_byte_char_tokens(rest, cell.push(c), q);
            assert(c != '"' && c != ',' && c != '\r' && c != '\n');
            assert(tokens_of(s, cell, q) == tokens_of(rest, cell.push(c), q));
        } else {
            lemma_encode_scalar_ascii(c);
            let b = u as u8;
            assert(rem =~= seq![b] + encode_utf8(rest));
            assert(rem[0] == b);
            assert(rem.drop_first() =~= encode_utf8(rest));
            // How the head character compares with each structural character.
            char_u32_cast(c, u);
            assert(c == '"' <==> b == 0x22);
            assert(c == ',' <==> b == 0x2C);
            assert(c == '\r' <==> b == 0x0D);
            assert(c == '\n' <==> b == 0x0A);
            // How the peeked byte compares with a structural byte.
            if rest.len() > 0 {
                lemma_first_byte(rest[0], 0x22);
                lemma_first_byte(rest[0], 0x0A);
                char_u32_cast(rest[0], rest[0] as u32);
                assert(encode_utf8(rest) =~= encode_scalar(rest[0] as u32) + encode_utf8(
                    rest.drop_first(),
                ));
                assert(rem[1] == encode_scalar(rest[0] as u32)[0]);
                assert(rem[1] == 0x22 <==> rest[0] == '"');
                assert(rem[1] == 0x0A <==> rest[0] == '\n');
            }
            assert(rem.len() >= 2 <==> s.len() >= 2) by {
                if rest.len() > 0 {
                    assert(encode_utf8(rest).len() > 0);
                } else {
                    assert(encode_utf8(rest) =~= Seq::<u8>::empty());
                }
            }
            if c == '"' && q && s.len() >= 2 && s[1] == '"' {
                // An escaped quote: two characters consumed, one quote kept.
                assert(s[1] == rest[0]);
                lemma_encode_scalar_ascii(rest[0]);
                assert(rem.skip(2) =~= encode_utf8(rest.drop_first()));
                assert(rest.drop_first() =~= s.skip(2));
                lemma_encode_utf8_push(cell, '"');
                assert(encode_utf8(cell).push(0x22) =~= encode_utf8(cell.push('"')));
                lemma_byte_char_tokens(s.skip(2), cell.push('"'), true);
            } else if c == '"' {
                lemma_byte_char_tokens(rest, cell, !q);
            } else if c == ',' && q {
                lemma_encode_utf8_push(cell, ',');
                assert(encode_utf8(cell).push(0x2C) =~= encode_utf8(cell.push(',')));
                lemma_byte_char_tokens(rest, cell.push(','), true);
            } else if c == ',' {
                assert(encode_utf8(Seq::<char>::empty()) =~= Seq::<u8>::empty());
                lemma_byte_char_tokens(rest, seq![], false);
                assert(byte_tokens_of(rem, encode_utf8(cell), q) =~= seq![
                    (encode_utf8(cell), false),
                ] + encode_tokens(tokens_of(rest, seq![], false)));
                assert(encode_tokens(tokens_of(s, cell, q)) =~= seq![(encode_utf8(cell), false)]
                    + encode_tokens(tokens_of(rest, seq![], false)));
            } else if c == '\r' && q {
                lemma_encode_utf8_push(cell, '\r');
                assert(encode_utf8(cell).push(0x0D) =~= encode_utf8(cell.push('\r')));
                lemma_byte_char_tokens(rest, cell.push('\r'), true);
            } else if c == '\r' && s.len() >= 2 && s[1] == '\n' {
                // A CRLF row ending: both characters consumed.
                assert(s[1] == rest[0]);
                lemma_encode_scalar_ascii(rest[0]);
                assert(rem.skip(2) =~= encode_utf8(rest.drop_first()));
                assert(rest.drop_first() =~= s.skip(2));
                assert(encode_utf8(Seq::<char>::empty()) =~= Seq::<u8>::empty());
                lemma_byte_char_tokens(s.skip(2), seq![], false);
                assert(byte_tokens_of(rem, encode_utf8(cell), q) =~= seq![
                    (encode_utf8(cell), true),
                ] + encode_tokens(tokens_of(s.skip(2), seq![], false)));
                assert(encode_tokens(tokens_of(s, cell, q)) =~= seq![(encode_utf8(cell), true)]
                    + encode_tokens(tokens_of(s.skip(2), seq![], false)));
            } else if c == '\r' {
                // A lone CR is ordinary content.
                lemma_encode_utf8_push(cell, '\r');
                assert(encode_utf8(cell).push(0x0D) =~= encode_utf8(cell.push('\r')));
                lemma_byte_char_tokens(rest, cell.push('\r'), false);
            } else if c == '\n' && q {
                lemma_encode_utf8_push(cell, '\n');
                assert(encode_utf8(cell).push(0x0A) =~= encode_utf8(cell.push('\n')));
                lemma_byte_char_tokens(rest, cell.push('\n'), true);
            } else if c == '\n' {
                assert(encode_utf8(Seq::<char>::empty()) =~= Seq::<u8>::empty());
                lemma_byte_char_tokens(rest, seq![], false);
                assert(byte_tokens_of(rem, encode_utf8(cell), q) =~= seq![
                    (encode_utf8(cell), true),
                ] + encode_tokens(tokens_of(rest, seq![], false)));
                assert(encode_tokens(tokens_of(s, cell, q)) =~= seq![(encode_utf8(cell), true)]
                    + encode_tokens(tokens_of(rest, seq![], false)));
            } else {
                // Any other ASCII character is ordinary content.
                assert(b != 0x22 && b != 0x2C && b != 0x0D && b != 0x0A);
                lemma_encode_utf8_push(cell, c);
                assert(encode_utf8(cell).push(b) =~= encode_utf8(cell.push(c)));
                lemma_byte_char_tokens(rest, cell.push(c), q);
            }
        }
    }
}

/// Tokenizing the UTF-8 encoding of any character sequence yields cells
/// that are valid UTF-8, and the byte-level parse agrees with the
/// character-level parse.
pub proof fn lemma_parse_bytes_of_encoding(s: Seq<char>)
    ensures
        tokens_decodable(encode_utf8(s)),
        parse_bytes(encode_utf8(s)) == parse_csv(s),
{
    assert(encode_utf8(Seq::<char>::empty()) =~= Seq::<u8>::empty());
    lemma_byte_char_tokens(s, seq![], false);
    let ctoks = tokens_of(s, seq![], false);
    let btoks = byte_tokens_of(encode_utf8(s), seq![], false);
    assert(btoks == encode_tokens(ctoks));
    assert forall|k: int| 0 <= k < btoks.len() implies valid_utf8(#[trigger] btoks[k].0) by {
        assert(btoks[k] == (encode_utf8(ctoks[k].0), ctoks[k].1));
        encode_utf8_valid_utf8(ctoks[k].0);
    }
    assert(decode_tokens(btoks) =~= ctoks) by {
        assert forall|k: int| 0 <= k < btoks.len() implies decode_tokens(btoks)[k] == ctoks[k] by {
            assert(btoks[k] == (encode_utf8(ctoks[k].0), ctoks[k].1));
            encode_utf8_decode_utf8(ctoks[k].0);
        }
    }
}

/// A byte stream that is valid UTF-8 as a whole also decodes cell by
/// cell, and its byte-level parse is the character-level parse of its
/// decoding.
pub proof fn lemma_parse_bytes_of_valid(bytes: Seq<u8>)
    requires
        valid_utf8(bytes),
    ensures
        tokens_decodable(bytes),
        parse_bytes(bytes) == parse_csv(decode_utf8(bytes)),
{
    decode_utf8_encode_utf8(bytes);
    lemma_parse_bytes_of_encoding(decode_utf8(bytes));
}

} // verus!
