//! Percent-encoding of path segments and percent-decoding of vault paths and
//! WebDAV hrefs, through the `percent_encoding` crate.

use vstd::prelude::*;
use vstd::string::StringSliceAdditionalSpecFns;
use vstd::utf8::{
    char_u32_cast, decode_utf8, encode_scalar, encode_utf8, encode_utf8_decode_utf8,
    encode_utf8_valid_utf8, has_width_1_encoding, last_continuation_byte, leading_byte_width_2,
    leading_byte_width_3, leading_byte_width_4, second_last_continuation_byte,
    third_last_continuation_byte, valid_utf8,
};

verus! {

/// The value of an ASCII hexadecimal digit (`char::to_digit(16)` on the byte).
pub open spec fn hex_digit_value(b: u8) -> Option<u8> {
    if 0x30 <= b && b <= 0x39 {
        Some((b - 0x30) as u8)
    } else if 0x61 <= b && b <= 0x66 {
        Some((b - 0x61 + 10) as u8)
    } else if 0x41 <= b && b <= 0x46 {
        Some((b - 0x41 + 10) as u8)
    } else {
        None
    }
}

/// Percent-decoding of bytes: every `%` followed by two hexadecimal digits
/// becomes the byte they spell; every other byte stays.
pub open spec fn percent_decode_bytes(b: Seq<u8>) -> Seq<u8>
    decreases b.len(),
{
    if b.len() == 0 {
        Seq::empty()
    } else if b[0] == 0x25 && b.len() >= 3 && hex_digit_value(b[1]) is Some && hex_digit_value(
        b[2],
    ) is Some {
        seq![(hex_digit_value(b[1])->0 * 16 + hex_digit_value(b[2])->0) as u8]
            + percent_decode_bytes(b.subrange(3, b.len() as int))
    } else {
        seq![b[0]] + percent_decode_bytes(b.drop_first())
    }
}

/// Percent-decoding of the UTF-8 bytes of `s`, read back as UTF-8; `None`
/// when the decoded bytes are not well-formed UTF-8.
pub open spec fn percent_decode_utf8_spec(s: Seq<char>) -> Option<Seq<char>> {
    let bytes = percent_decode_bytes(encode_utf8(s));
    if valid_utf8(bytes) {
        Some(decode_utf8(bytes))
    } else {
        None
    }
}

/// `percent_encoding::percent_decode_str(s).decode_utf8()`: the crate's
/// source decodes each `%` followed by two hex digits into one byte, keeps
/// every other byte, and then checks the bytes as UTF-8, failing when they
/// are not well-formed. The contract states exactly that.
#[verifier::external_body]
pub(crate) fn percent_decode_utf8(s: &str) -> (r: Option<String>)
    ensures
        match r {
            Some(d) => percent_decode_utf8_spec(s@) == Some(d@),
            None => percent_decode_utf8_spec(s@) is None,
        },
{
    percent_encoding::percent_decode_str(s).decode_utf8().ok().map(|d| d.into_owned())
}


/// The bytes that the path encode set of this client escapes: C0 controls,
/// DEL, non-ASCII bytes, and space `"` `#` `%` `<` `>` `?` `` ` `` `{` `}`.
pub open spec fn path_escaped_byte(b: u8) -> bool {
    ||| b < 0x20
    ||| b >= 0x7f
    ||| b == 0x20
    ||| b == 0x22
    ||| b == 0x23
    ||| b == 0x25
    ||| b == 0x3c
    ||| b == 0x3e
    ||| b == 0x3f
    ||| b == 0x60
    ||| b == 0x7b
    ||| b == 0x7d
}

/// An upper-case hexadecimal digit for `d < 16`.
pub open spec fn hex_upper(d: int) -> char {
    if d < 10 {
        ((d + 48) as u8) as char
    } else {
        ((d + 55) as u8) as char
    }
}

/// Each escaped byte as `%` and two upper-case hex digits; each other byte
/// (always ASCII) as its character.
pub open spec fn percent_encode_bytes(b: Seq<u8>) -> Seq<char>
    decreases b.len(),
{
    if b.len() == 0 {
        Seq::empty()
    } else {
        let head = if path_escaped_byte(b[0]) {
            seq!['%', hex_upper((b[0] / 16) as int), hex_upper((b[0] % 16) as int)]
        } else {
            seq![b[0] as char]
        };
        head + percent_encode_bytes(b.drop_first())
    }
}

/// The percent-encoding of the UTF-8 bytes of `s` with the path encode set.
pub open spec fn percent_encode_path_spec(s: Seq<char>) -> Seq<char> {
    percent_encode_bytes(encode_utf8(s))
}

/// The upper-case hexadecimal digit for `d < 16`.
fn hex_upper_char(d: u8) -> (c: char)
    requires
        d < 16,
    ensures
        c == hex_upper(d as int),
{
    if d < 10 {
        (d + 48) as char
    } else {
        (d + 55) as char
    }
}

/// Appends `%` and the two upper-case hexadecimal digits of `b`.
fn push_percent_byte(r: &mut Vec<char>, b: u8)
    ensures
        final(r)@ == old(r)@ + seq!['%', hex_upper((b / 16) as int), hex_upper((b % 16) as int)],
{
    r.push('%');
    r.push(hex_upper_char(b / 16));
    r.push(hex_upper_char(b % 16));
}

fn byte_is_path_escaped(b: u8) -> (r: bool)
    ensures
        r == path_escaped_byte(b),
{
    b < 0x20 || b >= 0x7f || b == 0x20 || b == 0x22 || b == 0x23 || b == 0x25 || b == 0x3c || b
        == 0x3e || b == 0x3f || b == 0x60 || b == 0x7b || b == 0x7d
}

/// Percent-encodes one path segment with the path encode set (the crate's
/// `CONTROLS` set plus space `"` `#` `%` `<` `>` `?` `` ` `` `{` `}`), byte
/// by byte as `utf8_percent_encode` does.
pub fn percent_encode_path(s: &str) -> (r: Vec<char>)
    ensures
        r@ == percent_encode_path_spec(s@),
{
    let bytes = s.as_bytes();
    let ghost bv = bytes@;
    assert(bv == encode_utf8(s@));
    let mut r: Vec<char> = Vec::new();
    let mut i: usize = 0;
    proof {
        assert(bv.subrange(0, bv.len() as int) =~= bv);
        assert(r@ + percent_encode_bytes(bv) =~= percent_encode_bytes(bv));
    }
    while i < bytes.len()
        invariant
            i <= bv.len(),
            bv == bytes@,
            r@ + percent_encode_bytes(bv.subrange(i as int, bv.len() as int)) == percent_encode_bytes(bv),
        decreases bv.len() - i,
    {
        let b = bytes[i];
        proof {
            let rest = bv.subrange(i as int, bv.len() as int);
            assert(rest.drop_first() =~= bv.subrange(i + 1, bv.len() as int));
            assert(rest[0] == b);
        }
        let ghost before = r@;
        if byte_is_path_escaped(b) {
            push_percent_byte(&mut r, b);
        } else {
            r.push(b as char);
        }
        proof {
            let rest = bv.subrange(i as int, bv.len() as int);
            assert(r@ + percent_encode_bytes(bv.subrange(i + 1, bv.len() as int)) =~= before
                + percent_encode_bytes(rest));
        }
        i = i + 1;
    }
    proof {
        assert(bv.subrange(bv.len() as int, bv.len() as int) =~= Seq::<u8>::empty());
        assert(r@ + Seq::<char>::empty() =~= r@);
    }
    r
}

/// The byte of an upper-case hexadecimal digit for `d < 16`.
pub open spec fn hex_upper_byte(d: int) -> u8 {
    if d < 10 {
        (d + 48) as u8
    } else {
        (d + 55) as u8
    }
}

/// The percent-encoding as bytes: `%` and two hex digits for each escaped
/// byte, the byte itself for each other one.
pub open spec fn percent_encode_to_bytes(b: Seq<u8>) -> Seq<u8>
    decreases b.len(),
{
    if b.len() == 0 {
        Seq::empty()
    } else {
        let head = if path_escaped_byte(b[0]) {
            seq![0x25u8, hex_upper_byte((b[0] / 16) as int), hex_upper_byte((b[0] % 16) as int)]
        } else {
            seq![b[0]]
        };
        head + percent_encode_to_bytes(b.drop_first())
    }
}

proof fn lemma_ascii_scalar(c: char)
    requires
        (c as u32) < 0x80,
    ensures
        encode_scalar(c as u32) == seq![(c as u32) as u8],
{
    let v = c as u32;
    assert((v & 0x7F) as u8 == v as u8) by (bit_vector)
        requires
            v < 0x80,
    ;
}

proof fn lemma_encode_utf8_concat(x: Seq<char>, y: Seq<char>)
    ensures
        encode_utf8(x + y) == encode_utf8(x) + encode_utf8(y),
    decreases x.len(),
{
    if x.len() > 0 {
        assert((x + y).drop_first() =~= x.drop_first() + y);
        assert((x + y)[0] == x[0]);
        lemma_encode_utf8_concat(x.drop_first(), y);
        assert(encode_utf8(x + y) =~= encode_utf8(x) + encode_utf8(y));
    }
}

proof fn lemma_hex_upper(d: int)
    requires
        0 <= d < 16,
    ensures
        (hex_upper(d) as u32) < 0x80,
        (hex_upper(d) as u32) as u8 == hex_upper_byte(d),
        hex_digit_value(hex_upper_byte(d)) == Some(d as u8),
{
}

#[verifier::spinoff_prover]
proof fn lemma_encode_bytes_utf8(b: Seq<u8>)
    ensures
        encode_utf8(percent_encode_bytes(b)) == percent_encode_to_bytes(b),
    decreases b.len(),
{
    if b.len() > 0 {
        let rest = percent_encode_bytes(b.drop_first());
        lemma_encode_bytes_utf8(b.drop_first());
        if path_escaped_byte(b[0]) {
            let hi = hex_upper((b[0] / 16) as int);
            let lo = hex_upper((b[0] % 16) as int);
            let head = seq!['%', hi, lo];
            lemma_hex_upper((b[0] / 16) as int);
            lemma_hex_upper((b[0] % 16) as int);
            lemma_ascii_scalar('%');
            lemma_ascii_scalar(hi);
            lemma_ascii_scalar(lo);
            lemma_encode_utf8_concat(head, rest);
            assert(head.drop_first() =~= seq![hi, lo]);
            assert(seq![hi, lo].drop_first() =~= seq![lo]);
            assert(seq![lo].drop_first() =~= Seq::<char>::empty());
            assert(encode_utf8(Seq::<char>::empty()) =~= Seq::<u8>::empty());
            assert(encode_utf8(seq![lo]) == encode_scalar(lo as u32) + encode_utf8(
                seq![lo].drop_first(),
            ));
            assert(encode_utf8(seq![lo]) =~= seq![hex_upper_byte((b[0] % 16) as int)]);
            assert(encode_utf8(seq![hi, lo]) =~= seq![
                hex_upper_byte((b[0] / 16) as int),
                hex_upper_byte((b[0] % 16) as int),
            ]);
            assert(encode_utf8(head) =~= seq![
                0x25u8,
                hex_upper_byte((b[0] / 16) as int),
                hex_upper_byte((b[0] % 16) as int),
            ]);
        } else {
            let c = b[0] as char;
            let head = seq![c];
            assert((c as u32) == b[0] as u32);
            lemma_ascii_scalar(c);
            lemma_encode_utf8_concat(head, rest);
            assert(head.drop_first() =~= Seq::<char>::empty());
            assert(encode_utf8(Seq::<char>::empty()) =~= Seq::<u8>::empty());
            assert(encode_utf8(head) == encode_scalar(c as u32) + encode_utf8(head.drop_first()));
            assert(encode_utf8(head) =~= seq![b[0]]);
        }
    }
}

proof fn lemma_decode_encoded_bytes(b: Seq<u8>)
    ensures
        percent_decode_bytes(percent_encode_to_bytes(b)) == b,
    decreases b.len(),
{
    if b.len() > 0 {
        let x = percent_encode_to_bytes(b);
        let rest = percent_encode_to_bytes(b.drop_first());
        lemma_decode_encoded_bytes(b.drop_first());
        if path_escaped_byte(b[0]) {
            let hi = (b[0] / 16) as int;
            let lo = (b[0] % 16) as int;
            lemma_hex_upper(hi);
            lemma_hex_upper(lo);
            assert(x[0] == 0x25u8 && x[1] == hex_upper_byte(hi) && x[2] == hex_upper_byte(lo));
            assert(x.subrange(3, x.len() as int) =~= rest);
            assert((hi * 16 + lo) as u8 == b[0]);
            assert(percent_decode_bytes(x) =~= seq![b[0]] + b.drop_first());
        } else {
            assert(x[0] == b[0]);
            assert(x.drop_first() =~= rest);
            assert(percent_decode_bytes(x) =~= seq![b[0]] + b.drop_first());
        }
        assert(seq![b[0]] + b.drop_first() =~= b);
    }
}

/// Law: decoding what the path encoding produced gives the segment back,
/// for every segment: the percent escapes are undone and the bytes read as
/// UTF-8 are the segment's own.
pub proof fn law_percent_encoding_round_trips(s: Seq<char>)
    ensures
        percent_decode_utf8_spec(percent_encode_path_spec(s)) == Some(s),
{
    let b = encode_utf8(s);
    lemma_encode_bytes_utf8(b);
    lemma_decode_encoded_bytes(b);
    encode_utf8_valid_utf8(s);
    encode_utf8_decode_utf8(s);
}

/// Every byte of a multi-byte UTF-8 encoding has its high bit set.
proof fn lemma_wide_scalar_bytes(v: u32)
    requires
        !has_width_1_encoding(v),
    ensures
        forall|i: int| 0 <= i < encode_scalar(v).len() ==> #[trigger] encode_scalar(v)[i] >= 0x80,
{
    assert(leading_byte_width_2(v) >= 0x80u8) by (bit_vector);
    assert(leading_byte_width_3(v) >= 0x80u8) by (bit_vector);
    assert(leading_byte_width_4(v) >= 0x80u8) by (bit_vector);
    assert(last_continuation_byte(v) >= 0x80u8) by (bit_vector);
    assert(second_last_continuation_byte(v) >= 0x80u8) by (bit_vector);
    assert(third_last_continuation_byte(v) >= 0x80u8) by (bit_vector);
}

/// An ASCII byte occurs in the UTF-8 encoding of `s` only where its
/// character occurs in `s`.
#[verifier::spinoff_prover]
proof fn lemma_utf8_ascii_byte(s: Seq<char>, b: u8)
    requires
        b < 0x80,
        !s.contains(b as char),
    ensures
        !encode_utf8(s).contains(b),
    decreases s.len(),
{
    if s.len() > 0 {
        let rest = s.drop_first();
        assert(!rest.contains(b as char)) by {
            if rest.contains(b as char) {
                let j = choose|j: int| 0 <= j < rest.len() && rest[j] == b as char;
                assert(s[j + 1] == b as char);
            }
        }
        lemma_utf8_ascii_byte(rest, b);
        let v = s[0] as u32;
        let head = encode_scalar(v);
        if has_width_1_encoding(v) {
            lemma_ascii_scalar(s[0]);
            assert(head[0] != b) by {
                if head[0] == b {
                    assert((v as u8) == b);
                    assert(v == b as u32);
                    char_u32_cast(s[0], v);
                    assert(s[0] == b as char);
                }
            }
        } else {
            lemma_wide_scalar_bytes(v);
        }
        let e = encode_utf8(s);
        assert(e == head + encode_utf8(rest));
        assert forall|i: int| 0 <= i < e.len() implies e[i] != b by {
            if i < head.len() {
                assert(e[i] == head[i]);
            } else {
                assert(e[i] == encode_utf8(rest)[i - head.len()]);
            }
        }
    }
}

/// Encoding is byte by byte, so it distributes over concatenation.
proof fn lemma_encode_bytes_concat(x: Seq<u8>, y: Seq<u8>)
    ensures
        percent_encode_bytes(x + y) == percent_encode_bytes(x) + percent_encode_bytes(y),
    decreases x.len(),
{
    if x.len() > 0 {
        assert((x + y).drop_first() =~= x.drop_first() + y);
        assert((x + y)[0] == x[0]);
        lemma_encode_bytes_concat(x.drop_first(), y);
        assert(percent_encode_bytes(x + y) =~= percent_encode_bytes(x) + percent_encode_bytes(y));
    } else {
        assert(x + y =~= y);
        assert(percent_encode_bytes(x) =~= Seq::<char>::empty());
        assert(Seq::<char>::empty() + percent_encode_bytes(y) =~= percent_encode_bytes(y));
    }
}

/// `/` is not escaped, so encoding a path with `/` in it encodes the two
/// sides and keeps the `/`.
#[verifier::spinoff_prover]
pub proof fn lemma_encode_path_split_at_slash(x: Seq<char>, y: Seq<char>)
    ensures
        percent_encode_path_spec(x + seq!['/'] + y) == percent_encode_path_spec(x) + seq!['/']
            + percent_encode_path_spec(y),
{
    let slash = seq!['/'];
    lemma_encode_utf8_concat(x, slash);
    lemma_encode_utf8_concat(x + slash, y);
    lemma_ascii_scalar('/');
    assert(slash.drop_first() =~= Seq::<char>::empty());
    assert(encode_utf8(Seq::<char>::empty()) =~= Seq::<u8>::empty());
    assert(encode_utf8(slash) == encode_scalar('/' as u32) + encode_utf8(slash.drop_first()));
    assert(encode_utf8(slash) =~= seq![0x2fu8]);
    let bx = encode_utf8(x);
    let by_ = encode_utf8(y);
    lemma_encode_bytes_concat(bx, seq![0x2fu8]);
    lemma_encode_bytes_concat(bx + seq![0x2fu8], by_);
    assert(seq![0x2fu8].drop_first() =~= Seq::<u8>::empty());
    assert(percent_encode_bytes(Seq::<u8>::empty()) =~= Seq::<char>::empty());
    assert(percent_encode_bytes(seq![0x2fu8]) =~= seq![0x2fu8 as char]);
    assert(0x2fu8 as char == '/');
}

/// Without `%`, percent-decoding gives the text back.
pub proof fn lemma_decode_without_percent(s: Seq<char>)
    requires
        !s.contains('%'),
    ensures
        percent_decode_utf8_spec(s) == Some(s),
{
    let b = encode_utf8(s);
    assert(0x25u8 as char == '%');
    lemma_utf8_ascii_byte(s, 0x25u8);
    lemma_decode_plain_bytes(b);
    encode_utf8_valid_utf8(s);
    encode_utf8_decode_utf8(s);
}

proof fn lemma_decode_plain_bytes(b: Seq<u8>)
    requires
        !b.contains(0x25u8),
    ensures
        percent_decode_bytes(b) == b,
    decreases b.len(),
{
    if b.len() > 0 {
        let rest = b.drop_first();
        assert(!rest.contains(0x25u8)) by {
            if rest.contains(0x25u8) {
                let j = choose|j: int| 0 <= j < rest.len() && rest[j] == 0x25u8;
                assert(b[j + 1] == 0x25u8);
            }
        }
        lemma_decode_plain_bytes(rest);
        assert(b[0] != 0x25u8);
        assert(seq![b[0]] + rest =~= b);
    }
}

/// A segment without `/` encodes to text without `/`, and a segment that
/// is not empty to text that is not empty.
pub proof fn lemma_encoded_segment_shape(s: Seq<char>)
    requires
        !s.contains('/'),
    ensures
        !percent_encode_path_spec(s).contains('/'),
        s.len() > 0 ==> percent_encode_path_spec(s).len() > 0,
{
    assert(0x2fu8 as char == '/');
    lemma_utf8_ascii_byte(s, 0x2fu8);
    let b = encode_utf8(s);
    lemma_encoded_bytes_no_slash(b);
    if s.len() > 0 {
        assert(b.len() > 0) by {
            let v = s[0] as u32;
            assert(b == encode_scalar(v) + encode_utf8(s.drop_first()));
        }
    }
}

proof fn lemma_encoded_bytes_no_slash(b: Seq<u8>)
    requires
        !b.contains(0x2fu8),
    ensures
        !percent_encode_bytes(b).contains('/'),
        b.len() > 0 ==> percent_encode_bytes(b).len() > 0,
    decreases b.len(),
{
    if b.len() > 0 {
        let rest = b.drop_first();
        assert(!rest.contains(0x2fu8)) by {
            if rest.contains(0x2fu8) {
                let j = choose|j: int| 0 <= j < rest.len() && rest[j] == 0x2fu8;
                assert(b[j + 1] == 0x2fu8);
            }
        }
        lemma_encoded_bytes_no_slash(rest);
        let e = percent_encode_bytes(b);
        let tail = percent_encode_bytes(rest);
        let head = if path_escaped_byte(b[0]) {
            seq!['%', hex_upper((b[0] / 16) as int), hex_upper((b[0] % 16) as int)]
        } else {
            seq![b[0] as char]
        };
        assert(e == head + tail);
        if path_escaped_byte(b[0]) {
            lemma_hex_upper((b[0] / 16) as int);
            lemma_hex_upper((b[0] % 16) as int);
            assert(hex_upper((b[0] / 16) as int) != '/');
            assert(hex_upper((b[0] % 16) as int) != '/');
        } else {
            assert(b[0] != 0x2fu8);
            assert((b[0] as char) != '/');
        }
        assert forall|i: int| 0 <= i < e.len() implies e[i] != '/' by {
            if i < head.len() {
                assert(e[i] == head[i]);
            } else {
                assert(e[i] == tail[i - head.len()]);
            }
        }
    }
}

} // verus!
