use crate::encoding::util::{
    chunk_sextets, decode_quartet_chunk, encode_triplet_chunk, first_failure,
    lemma_sextets_round_trip, octets_of, placed_symbol, quartet_length, sextets_of,
};
use crate::err::{err, ErrKind, SsssErr};
use vstd::prelude::*;
use vstd::slice::slice_subrange;
use vstd::string::StringSliceAdditionalSpecFns;

verus! {

/// The symbol that fills a group of four where the bytes run out.
pub const PAD_CHAR: u8 = 61;

/// The symbol of the base64 alphabet for a value below 64: `A` to `Z`, `a` to
/// `z`, `0` to `9`, `+` and `/`, in this order.
pub open spec fn u6_symbol(v: u8) -> u8 {
    if v < 26 {
        (65 + v) as u8
    } else if v < 52 {
        (97 + (v - 26)) as u8
    } else if v < 62 {
        (48 + (v - 52)) as u8
    } else if v == 62 {
        43
    } else {
        47
    }
}

/// The value of a symbol of the base64 alphabet, and zero for the pad; any
/// other byte is an invalid character.
pub open spec fn symbol_u6(c: u8) -> Result<u8, SsssErr> {
    if 65 <= c <= 90 {
        Ok((c - 65) as u8)
    } else if 97 <= c <= 122 {
        Ok((c - 97 + 26) as u8)
    } else if 48 <= c <= 57 {
        Ok((c - 48 + 52) as u8)
    } else if c == 43 {
        Ok(62)
    } else if c == 47 {
        Ok(63)
    } else if c == PAD_CHAR {
        Ok(0)
    } else {
        Err(err(ErrKind::InvalidCharacter))
    }
}

/// The four symbols for a chunk of one to three bytes: the symbols of its
/// 6-bit values, and the pad in the places that no byte reaches.
pub open spec fn chunk_symbols(chunk: Seq<u8>) -> Seq<u8> {
    let s = chunk_sextets(chunk);
    seq![
        u6_symbol(s[0]),
        u6_symbol(s[1]),
        if chunk.len() > 1 {
            u6_symbol(s[2])
        } else {
            PAD_CHAR
        },
        if chunk.len() > 2 {
            u6_symbol(s[3])
        } else {
            PAD_CHAR
        },
    ]
}

/// The base64 text of a byte sequence, as ASCII bytes: four symbols for each
/// chunk of three bytes, the last chunk being shorter where the length is no
/// multiple of three.
pub open spec fn base64_text(bytes: Seq<u8>) -> Seq<u8>
    decreases bytes.len(),
{
    if bytes.len() == 0 {
        Seq::empty()
    } else if bytes.len() <= 3 {
        chunk_symbols(bytes)
    } else {
        chunk_symbols(bytes.take(3)) + base64_text(bytes.skip(3))
    }
}

/// The bytes that a group of four symbols stands for, or the error of its
/// first invalid character.
pub open spec fn quartet_bytes(chars: Seq<u8>) -> Result<Seq<u8>, SsssErr> {
    match (symbol_u6(chars[0]), symbol_u6(chars[1]), symbol_u6(chars[2]), symbol_u6(chars[3])) {
        (Ok(s0), Ok(s1), Ok(s2), Ok(s3)) => Ok(
            octets_of(s0, s1, s2, s3).take(quartet_length(chars, PAD_CHAR) as int),
        ),
        _ => Err(err(ErrKind::InvalidCharacter)),
    }
}

/// The bytes of the groups of four that a text consists of, one group after
/// the other, or the error of the first group that has one.
pub open spec fn groups_bytes(text: Seq<u8>) -> Result<Seq<u8>, SsssErr>
    decreases text.len(),
{
    if text.len() < 4 {
        Ok(Seq::empty())
    } else {
        match quartet_bytes(text.take(4)) {
            Err(e) => Err(e),
            Ok(head) => match groups_bytes(text.skip(4)) {
                Err(e) => Err(e),
                Ok(tail) => Ok(head + tail),
            },
        }
    }
}

/// What a base64 text, given as its bytes, decodes to: an error where its
/// length is no multiple of four or one of its characters is invalid, else
/// the bytes of its groups.
pub open spec fn base64_bytes(text: Seq<u8>) -> Result<Seq<u8>, SsssErr> {
    if text.len() % 4 != 0 {
        Err(err(ErrKind::InvalidLength))
    } else {
        groups_bytes(text)
    }
}

/// The characters that a sequence of ASCII bytes spells.
pub open spec fn ascii_of(bytes: Seq<u8>) -> Seq<char> {
    Seq::new(bytes.len(), |i: int| bytes[i] as char)
}

/// `String::push` of std appends the character to the end of the string.
pub assume_specification[ String::push ](s: &mut String, ch: char)
    ensures
        final(s)@ == old(s)@.push(ch),
;

/// The symbol for a 6-bit value, or `InvalidCharacter` for a value above 63.
pub fn u6_to_b64_char(x: &u8) -> (result: Result<u8, SsssErr>)
    ensures
        *x < 64 ==> result == Ok::<u8, SsssErr>(u6_symbol(*x)),
        *x >= 64 ==> result == Err::<u8, SsssErr>(err(ErrKind::InvalidCharacter)),
{
    let v = *x;
    if v <= 25 {
        Ok(65 + v)
    } else if v <= 51 {
        Ok(97 + (v - 26))
    } else if v <= 61 {
        Ok(48 + (v - 52))
    } else if v == 62 {
        Ok(43)
    } else if v == 63 {
        Ok(47)
    } else {
        Err(SsssErr::new(ErrKind::InvalidCharacter))
    }
}

/// The 6-bit value of a symbol, zero for the pad, or `InvalidCharacter` for
/// any other byte.
pub fn b64_char_to_u6(x: &u8) -> (result: Result<u8, SsssErr>)
    ensures
        result == symbol_u6(*x),
{
    let c = *x;
    if 65 <= c && c <= 90 {
        Ok(c - 65)
    } else if 97 <= c && c <= 122 {
        Ok((c - 97) + 26)
    } else if 48 <= c && c <= 57 {
        Ok((c - 48) + 52)
    } else if c == 43 {
        Ok(62)
    } else if c == 47 {
        Ok(63)
    } else if c == PAD_CHAR {
        Ok(0)
    } else {
        Err(SsssErr::new(ErrKind::InvalidCharacter))
    }
}

/// Encodes a byte sequence as its base64 text. It never fails.
pub fn base64_encode(x: &[u8]) -> (result: Result<String, SsssErr>)
    ensures
        result is Ok,
        result->Ok_0@ == ascii_of(base64_text(x@)),
{
    let mut output = String::new();
    let ghost mut written: Seq<u8> = Seq::empty();
    let mut i: usize = 0;
    assert(x@.skip(0) =~= x@);
    assert(ascii_of(written) =~= Seq::<char>::empty());
    while i < x.len()
        invariant
            i <= x@.len(),
            output@ == ascii_of(written),
            written + base64_text(x@.skip(i as int)) == base64_text(x@),
        decreases x@.len() - i,
    {
        let end = if x.len() - i > 3 {
            i + 3
        } else {
            x.len()
        };
        let chunk = slice_subrange(x, i, end);
        let ghost rest = x@.skip(i as int);
        proof {
            lemma_sextets_round_trip(
                chunk@[0],
                if chunk@.len() > 1 {
                    chunk@[1]
                } else {
                    0
                },
                if chunk@.len() > 2 {
                    chunk@[2]
                } else {
                    0
                },
            );
            if rest.len() <= 3 {
                assert(chunk@ =~= rest);
                assert(x@.skip(end as int) =~= Seq::<u8>::empty());
                assert(base64_text(rest) =~= chunk_symbols(chunk@) + base64_text(
                    x@.skip(end as int),
                ));
            } else {
                assert(chunk@ =~= rest.take(3));
                assert(x@.skip(end as int) =~= rest.skip(3));
            }
        }
        let mapper = |b: &u8| -> (r: Result<u8, SsssErr>)
            ensures
                *b < 64 ==> r == Ok::<u8, SsssErr>(u6_symbol(*b)),
                *b >= 64 ==> r is Err,
            { u6_to_b64_char(b) };
        let chunk_bytes = match encode_triplet_chunk(chunk, mapper, PAD_CHAR) {
            Ok(symbols) => symbols,
            Err(e) => {
                // cannot happen: every 6-bit value of a chunk has its symbol
                proof {
                    let k = choose|k: int| first_failure(mapper, chunk_sextets(chunk@), k, e);
                    assert(chunk_sextets(chunk@)[k] < 64);
                    assert(false);
                }
                return Err(e);
            },
        };
        proof {
            assert forall|k: int| 0 <= k < 4 implies chunk_bytes@[k] == chunk_symbols(
                chunk@,
            )[k] by {
                assert(placed_symbol(
                    mapper,
                    chunk_sextets(chunk@)[k],
                    k <= chunk@.len(),
                    chunk_bytes@[k],
                    PAD_CHAR,
                ));
                assert(chunk_sextets(chunk@)[k] < 64);
            }
        }
        assert(chunk_bytes@ =~= chunk_symbols(chunk@));
        let ghost before = written;
        for k in 0..4usize
            invariant
                chunk_bytes@.len() == 4,
                output@ == ascii_of(written),
                written == before + chunk_bytes@.take(k as int),
        {
            output.push(chunk_bytes[k] as char);
            proof {
                written = written.push(chunk_bytes@[k as int]);
                assert(written =~= before + chunk_bytes@.take(k + 1));
                assert(output@ =~= ascii_of(written));
            }
        }
        assert(chunk_bytes@.take(4) =~= chunk_bytes@);
        assert(written + base64_text(x@.skip(end as int)) =~= before + base64_text(rest));
        i = end;
    }
    assert(x@.skip(i as int) =~= Seq::<u8>::empty());
    assert(written =~= base64_text(x@));
    Ok(output)
}

/// Decodes a base64 text, given as its bytes, to the bytes it stands for.
pub fn base64_decode_bytes(bytes: &[u8]) -> (result: Result<Vec<u8>, SsssErr>)
    ensures
        match result {
            Ok(decoded) => base64_bytes(bytes@) == Ok::<Seq<u8>, SsssErr>(decoded@),
            Err(e) => base64_bytes(bytes@) == Err::<Seq<u8>, SsssErr>(e),
        },
{
    if bytes.len() == 0 {
        return Ok(Vec::new());
    }
    if bytes.len() % 4 != 0 {
        return Err(SsssErr::new(ErrKind::InvalidLength));
    }
    let mut output: Vec<u8> = Vec::new();
    let mut i: usize = 0;
    assert(bytes@.skip(0) =~= bytes@);
    while i < bytes.len()
        invariant
            i <= bytes@.len(),
            bytes@.len() % 4 == 0,
            i % 4 == 0,
            groups_bytes(bytes@) == match groups_bytes(bytes@.skip(i as int)) {
                Err(e) => Err::<Seq<u8>, SsssErr>(e),
                Ok(tail) => Ok(output@ + tail),
            },
        decreases bytes@.len() - i,
    {
        let chunk = slice_subrange(bytes, i, i + 4);
        let ghost rest = bytes@.skip(i as int);
        proof {
            assert(chunk@ =~= rest.take(4));
            assert(bytes@.skip(i + 4) =~= rest.skip(4));
        }
        let demapper = |b: &u8| -> (r: Result<u8, SsssErr>)
            ensures
                r == symbol_u6(*b),
            { b64_char_to_u6(b) };
        match decode_quartet_chunk(chunk, demapper, PAD_CHAR) {
            Ok(part) => {
                assert(quartet_bytes(chunk@) == Ok::<Seq<u8>, SsssErr>(part@));
                let ghost before = output@;
                let mut part = part;
                output.append(&mut part);
                proof {
                    match groups_bytes(rest.skip(4)) {
                        Ok(tail) => {
                            assert(output@ + tail =~= before + (output@.skip(before.len() as int)
                                + tail));
                            assert(output@.skip(before.len() as int) =~= quartet_bytes(
                                chunk@,
                            )->Ok_0);
                        },
                        Err(e) => {},
                    }
                }
            },
            Err(e) => {
                proof {
                    let k = choose|k: int| first_failure(demapper, chunk@, k, e);
                    assert(symbol_u6(chunk@[k]) == Err::<u8, SsssErr>(e));
                    assert(quartet_bytes(chunk@) == Err::<Seq<u8>, SsssErr>(e));
                    assert(groups_bytes(rest) == Err::<Seq<u8>, SsssErr>(e));
                    assert(base64_bytes(bytes@) == Err::<Seq<u8>, SsssErr>(e));
                }
                return Err(e);
            },
        }
        i += 4;
    }
    assert(bytes@.skip(i as int) =~= Seq::<u8>::empty());
    assert(output@ + Seq::<u8>::empty() =~= output@);
    Ok(output)
}

/// Decodes a base64 text to the bytes it stands for. The text is read as
/// its UTF-8 bytes.
pub fn base64_decode(x: &str) -> (result: Result<Vec<u8>, SsssErr>)
    ensures
        match result {
            Ok(bytes) => base64_bytes(x.spec_bytes()) == Ok::<Seq<u8>, SsssErr>(bytes@),
            Err(e) => base64_bytes(x.spec_bytes()) == Err::<Seq<u8>, SsssErr>(e),
        },
{
    base64_decode_bytes(x.as_bytes())
}

/// Every symbol of the alphabet is an ASCII character other than the pad,
/// and has the value that it is the symbol of.
pub proof fn lemma_symbol_value(v: u8)
    requires
        v < 64,
    ensures
        symbol_u6(u6_symbol(v)) == Ok::<u8, SsssErr>(v),
        u6_symbol(v) != PAD_CHAR,
        u6_symbol(v) < 128,
{
}

/// The four symbols of a chunk of one to three bytes stand for the chunk.
pub proof fn lemma_chunk_round_trip(chunk: Seq<u8>)
    requires
        1 <= chunk.len() <= 3,
    ensures
        chunk_symbols(chunk).len() == 4,
        forall|i: int|
            0 <= i < 4 ==> #[trigger] chunk_symbols(chunk)[i] < 128 && symbol_u6(
                chunk_symbols(chunk)[i],
            ) is Ok,
        quartet_bytes(chunk_symbols(chunk)) == Ok::<Seq<u8>, SsssErr>(chunk),
{
    let b0 = chunk[0];
    let b1 = if chunk.len() > 1 {
        chunk[1]
    } else {
        0
    };
    let b2 = if chunk.len() > 2 {
        chunk[2]
    } else {
        0
    };
    let s = sextets_of(b0, b1, b2);
    lemma_sextets_round_trip(b0, b1, b2);
    assert(s[0] < 64 && s[1] < 64 && s[2] < 64 && s[3] < 64);
    lemma_symbol_value(s[0]);
    lemma_symbol_value(s[1]);
    lemma_symbol_value(s[2]);
    lemma_symbol_value(s[3]);
    assert(b2 == 0 ==> s[3] == 0) by {
        assert(b2 == 0 ==> b2 & 0x3f == 0) by (bit_vector);
    }
    assert(b1 == 0 && b2 == 0 ==> s[2] == 0) by {
        assert(b1 == 0 && b2 == 0 ==> ((b1 & 0x0f) << 2) | (b2 >> 6) == 0) by (bit_vector);
    }
    let symbols = chunk_symbols(chunk);
    assert(symbol_u6(symbols[0]) == Ok::<u8, SsssErr>(s[0]));
    assert(symbol_u6(symbols[1]) == Ok::<u8, SsssErr>(s[1]));
    assert(symbol_u6(symbols[2]) == Ok::<u8, SsssErr>(s[2]));
    assert(symbol_u6(symbols[3]) == Ok::<u8, SsssErr>(s[3]));
    assert(quartet_length(symbols, PAD_CHAR) == chunk.len());
    assert(octets_of(s[0], s[1], s[2], s[3]).take(chunk.len() as int) =~= chunk);
}

/// The base64 text of `n` bytes has four symbols for each started group of
/// three bytes, all of them ASCII characters of the alphabet or the pad.
pub proof fn lemma_base64_text_shape(bytes: Seq<u8>)
    ensures
        base64_text(bytes).len() == 4 * ((bytes.len() + 2) / 3),
        forall|i: int|
            0 <= i < base64_text(bytes).len() ==> #[trigger] base64_text(bytes)[i] < 128
                && symbol_u6(base64_text(bytes)[i]) is Ok,
    decreases bytes.len(),
{
    if bytes.len() == 0 {
    } else if bytes.len() <= 3 {
        lemma_chunk_round_trip(bytes);
    } else {
        lemma_chunk_round_trip(bytes.take(3));
        lemma_base64_text_shape(bytes.skip(3));
    }
}

/// Decoding the base64 text of a byte sequence gives the sequence back.
pub proof fn lemma_base64_round_trip(bytes: Seq<u8>)
    ensures
        base64_bytes(base64_text(bytes)) == Ok::<Seq<u8>, SsssErr>(bytes),
    decreases bytes.len(),
{
    let text = base64_text(bytes);
    lemma_base64_text_shape(bytes);
    if bytes.len() == 0 {
        assert(bytes =~= Seq::<u8>::empty());
    } else if bytes.len() <= 3 {
        lemma_chunk_round_trip(bytes);
        assert(text.take(4) =~= text);
        assert(text.skip(4) =~= Seq::<u8>::empty());
        assert(groups_bytes(text.skip(4)) == Ok::<Seq<u8>, SsssErr>(Seq::empty()));
        assert(bytes + Seq::<u8>::empty() =~= bytes);
        assert(groups_bytes(text) == Ok::<Seq<u8>, SsssErr>(bytes));
    } else {
        let head = bytes.take(3);
        let tail = bytes.skip(3);
        lemma_chunk_round_trip(head);
        lemma_base64_round_trip(tail);
        lemma_base64_text_shape(tail);
        assert(text.take(4) =~= chunk_symbols(head));
        assert(text.skip(4) =~= base64_text(tail));
        assert(groups_bytes(text.skip(4)) == Ok::<Seq<u8>, SsssErr>(tail));
        assert(head + tail =~= bytes);
        assert(groups_bytes(text) == Ok::<Seq<u8>, SsssErr>(bytes));
    }
}

/// Whether the byte is a symbol of the alphabet.
pub open spec fn is_symbol(c: u8) -> bool {
    symbol_u6(c) is Ok && c != PAD_CHAR
}

/// Whether a group of four is one that encoding writes: four symbols; or, in
/// the last group only, three symbols and a pad, or two symbols and two
/// pads, where the bits of the last symbol that reach no byte are zero.
pub open spec fn is_canonical_group(group: Seq<u8>, last: bool) -> bool {
    &&& is_symbol(group[0])
    &&& is_symbol(group[1])
    &&& if is_symbol(group[2]) {
        is_symbol(group[3]) || (last && group[3] == PAD_CHAR && symbol_u6(group[2])->Ok_0 % 4
            == 0)
    } else {
        last && group[2] == PAD_CHAR && group[3] == PAD_CHAR && symbol_u6(group[1])->Ok_0 % 16
            == 0
    }
}

/// Whether a text is one that encoding writes: groups of four symbols, the
/// last of which may be padded.
pub open spec fn is_canonical_text(text: Seq<u8>) -> bool
    decreases text.len(),
{
    if text.len() == 0 {
        true
    } else if text.len() < 4 {
        false
    } else {
        is_canonical_group(text.take(4), text.len() == 4) && is_canonical_text(text.skip(4))
    }
}

/// Every symbol of the alphabet is the symbol of its value, which is below 64.
pub proof fn lemma_value_symbol(c: u8)
    requires
        is_symbol(c),
    ensures
        symbol_u6(c)->Ok_0 < 64,
        u6_symbol(symbol_u6(c)->Ok_0) == c,
{
}

/// A group that encoding writes stands for one to three bytes, three where
/// it is not padded, and encoding these bytes writes the group.
pub proof fn lemma_group_round_trip(group: Seq<u8>, last: bool)
    requires
        group.len() == 4,
        is_canonical_group(group, last),
    ensures
        quartet_bytes(group) is Ok,
        1 <= quartet_bytes(group)->Ok_0.len() <= 3,
        !last ==> quartet_bytes(group)->Ok_0.len() == 3,
        chunk_symbols(quartet_bytes(group)->Ok_0) == group,
{
    lemma_value_symbol(group[0]);
    lemma_value_symbol(group[1]);
    let s0 = symbol_u6(group[0])->Ok_0;
    let s1 = symbol_u6(group[1])->Ok_0;
    let s2 = symbol_u6(group[2])->Ok_0;
    let s3 = symbol_u6(group[3])->Ok_0;
    if is_symbol(group[2]) {
        lemma_value_symbol(group[2]);
    }
    if is_symbol(group[3]) {
        lemma_value_symbol(group[3]);
    }
    let b0 = (s0 << 2) | (s1 >> 4);
    let b1 = (s1 << 4) | (s2 >> 2);
    let b2 = (s2 << 6) | s3;
    assert(octets_of(s0, s1, s2, s3) =~= seq![b0, b1, b2]);
    let bytes = quartet_bytes(group)->Ok_0;
    assert(s0 < 64 && s1 < 64 && s2 < 64 && s3 < 64 ==> b0 >> 2 == s0 && ((b0 & 0x03) << 4) | (b1
        >> 4) == s1 && ((b1 & 0x0f) << 2) | (b2 >> 6) == s2 && b2 & 0x3f == s3) by (bit_vector)
        requires
            b0 == (s0 << 2) | (s1 >> 4),
            b1 == (s1 << 4) | (s2 >> 2),
            b2 == (s2 << 6) | s3,
    ;
    assert(s0 < 64 && s1 < 64 && s2 < 64 && s3 == 0 && s2 % 4 == 0 ==> ((b1 & 0x0f) << 2) | (0u8
        >> 6) == s2) by (bit_vector)
        requires
            b1 == (s1 << 4) | (s2 >> 2),
    ;
    assert(s0 < 64 && s1 < 64 && s2 == 0 && s3 == 0 && s1 % 16 == 0 ==> ((b0 & 0x03) << 4) | (0u8
        >> 4) == s1) by (bit_vector)
        requires
            b0 == (s0 << 2) | (s1 >> 4),
    ;
    if is_symbol(group[2]) && is_symbol(group[3]) {
        assert(bytes =~= seq![b0, b1, b2]);
        assert(chunk_sextets(bytes) =~= seq![s0, s1, s2, s3]);
    } else if is_symbol(group[2]) {
        assert(bytes =~= seq![b0, b1]);
        assert(chunk_sextets(bytes)[0] == s0);
        assert(chunk_sextets(bytes)[1] == s1);
        assert(chunk_sextets(bytes)[2] == s2);
    } else {
        assert(bytes =~= seq![b0]);
        assert(chunk_sextets(bytes)[0] == s0);
        assert(chunk_sextets(bytes)[1] == s1);
    }
    assert(chunk_symbols(bytes) =~= group);
}

/// Encoding what a text stands for writes the text again, where the text is
/// one that encoding writes.
pub proof fn lemma_base64_text_of_decoded(text: Seq<u8>)
    requires
        is_canonical_text(text),
    ensures
        base64_bytes(text) is Ok,
        text.len() > 0 ==> base64_bytes(text)->Ok_0.len() > 0,
        base64_text(base64_bytes(text)->Ok_0) == text,
    decreases text.len(),
{
    if text.len() == 0 {
        assert(base64_text(Seq::<u8>::empty()) =~= text);
    } else {
        let group = text.take(4);
        let rest = text.skip(4);
        let last = text.len() == 4;
        lemma_group_round_trip(group, last);
        lemma_base64_text_of_decoded(rest);
        let head = quartet_bytes(group)->Ok_0;
        let tail = base64_bytes(rest)->Ok_0;
        assert(groups_bytes(rest) == Ok::<Seq<u8>, SsssErr>(tail));
        assert(groups_bytes(text) == Ok::<Seq<u8>, SsssErr>(head + tail));
        if last {
            assert(rest =~= Seq::<u8>::empty());
            assert(tail =~= Seq::<u8>::empty());
            assert(head + tail =~= head);
            assert(group =~= text);
        } else {
            assert((head + tail).take(3) =~= head);
            assert((head + tail).skip(3) =~= tail);
            assert(group + rest =~= text);
        }
    }
}

/// A text that spells ASCII bytes has exactly these bytes as its UTF-8 form.
pub proof fn lemma_ascii_bytes(bytes: Seq<u8>, text: &str)
    requires
        text@ == ascii_of(bytes),
        forall|i: int| 0 <= i < bytes.len() ==> #[trigger] bytes[i] < 128,
    ensures
        text.spec_bytes() == bytes,
{
    let chars = text@;
    assert forall|i: int| 0 <= i < chars.len() implies '\0' <= #[trigger] chars[i] <= '\u{7f}' by {
        assert(bytes[i] < 128);
    }
    vstd::utf8::is_ascii_chars_encode_utf8(chars);
    assert forall|i: int| 0 <= i < bytes.len() implies text.spec_bytes()[i] == bytes[i] by {
        assert(chars[i] as u8 == bytes[i]);
    }
    assert(text.spec_bytes() =~= bytes);
}

/// What `base64_encode` returns for a byte sequence, `base64_decode` turns
/// back into that sequence.
pub proof fn lemma_decode_of_encoded(bytes: Seq<u8>, text: &str)
    requires
        text@ == ascii_of(base64_text(bytes)),
    ensures
        base64_bytes(text.spec_bytes()) == Ok::<Seq<u8>, SsssErr>(bytes),
{
    lemma_base64_text_shape(bytes);
    lemma_ascii_bytes(base64_text(bytes), text);
    lemma_base64_round_trip(bytes);
}

} // verus!
