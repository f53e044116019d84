use crate::err::SsssErr;
use vstd::prelude::*;

verus! {

/// The four 6-bit values that three bytes hold: the 24 bits of the bytes, the
/// highest first, cut into four groups.
pub open spec fn sextets_of(b0: u8, b1: u8, b2: u8) -> Seq<u8> {
    seq![b0 >> 2, ((b0 & 0x03) << 4) | (b1 >> 4), ((b1 & 0x0f) << 2) | (b2 >> 6), b2 & 0x3f]
}

/// The three bytes that four 6-bit values make up. Of a value above 63 only
/// the bits that fall into the 24-bit group count.
pub open spec fn octets_of(s0: u8, s1: u8, s2: u8, s3: u8) -> Seq<u8> {
    seq![(s0 << 2) | (s1 >> 4), (s1 << 4) | (s2 >> 2), (s2 << 6) | s3]
}

/// The 6-bit values of a chunk of one to three bytes, the missing bytes taken as zero.
pub open spec fn chunk_sextets(chunk: Seq<u8>) -> Seq<u8> {
    sextets_of(
        chunk[0],
        if chunk.len() > 1 {
            chunk[1]
        } else {
            0
        },
        if chunk.len() > 2 {
            chunk[2]
        } else {
            0
        },
    )
}

/// How many bytes a group of four symbols stands for: one where the third
/// symbol is the pad, two where only the fourth is, three otherwise.
pub open spec fn quartet_length(chars: Seq<u8>, pad_char: u8) -> nat {
    if chars[2] == pad_char {
        1
    } else if chars[3] == pad_char {
        2
    } else {
        3
    }
}

/// Whether `value` is something that the mapper may return for `input`.
pub open spec fn maps_to<F: Fn(&u8) -> Result<u8, SsssErr>>(
    mapper: F,
    input: u8,
    value: u8,
) -> bool {
    call_ensures(mapper, (&input,), Ok(value))
}

/// Whether the mapper may return a value for `input`.
pub open spec fn succeeds_on<F: Fn(&u8) -> Result<u8, SsssErr>>(mapper: F, input: u8) -> bool {
    exists|v: u8| maps_to(mapper, input, v)
}

/// Whether `symbol` may stand in a place of the output for the 6-bit value
/// `sextet`: where a byte of the chunk reaches the place, it is what the
/// mapper returns for the value; where none does, it is the pad, the mapper
/// having returned something.
pub open spec fn placed_symbol<F: Fn(&u8) -> Result<u8, SsssErr>>(
    mapper: F,
    sextet: u8,
    reached: bool,
    symbol: u8,
    pad_char: u8,
) -> bool {
    if reached {
        maps_to(mapper, sextet, symbol)
    } else {
        symbol == pad_char && succeeds_on(mapper, sextet)
    }
}

/// Whether the mapper may fail with `e` for `input`.
pub open spec fn fails_with<F: Fn(&u8) -> Result<u8, SsssErr>>(
    mapper: F,
    input: u8,
    e: SsssErr,
) -> bool {
    call_ensures(mapper, (&input,), Err(e))
}

/// Whether the mapper may fail with `e` for the input at position `i`, having
/// returned a value for each input before it.
pub open spec fn first_failure<F: Fn(&u8) -> Result<u8, SsssErr>>(
    mapper: F,
    inputs: Seq<u8>,
    i: int,
    e: SsssErr,
) -> bool {
    &&& 0 <= i < inputs.len()
    &&& fails_with(mapper, inputs[i], e)
    &&& forall|k: int| 0 <= k < i ==> succeeds_on(mapper, #[trigger] inputs[k])
}

/// Cutting three bytes into four 6-bit values and putting them together
/// again gives the bytes back, and each of the values is below 64.
pub proof fn lemma_sextets_round_trip(b0: u8, b1: u8, b2: u8)
    ensures
        forall|i: int| 0 <= i < 4 ==> #[trigger] sextets_of(b0, b1, b2)[i] < 64,
        octets_of(
            sextets_of(b0, b1, b2)[0],
            sextets_of(b0, b1, b2)[1],
            sextets_of(b0, b1, b2)[2],
            sextets_of(b0, b1, b2)[3],
        ) == seq![b0, b1, b2],
{
    let s0 = b0 >> 2;
    let s1 = ((b0 & 0x03) << 4) | (b1 >> 4);
    let s2 = ((b1 & 0x0f) << 2) | (b2 >> 6);
    let s3 = b2 & 0x3f;
    assert(s0 < 64 && s1 < 64 && s2 < 64 && s3 < 64 && (s0 << 2) | (s1 >> 4) == b0 && (s1 << 4) | (
    s2 >> 2) == b1 && (s2 << 6) | s3 == b2) by (bit_vector)
        requires
            s0 == b0 >> 2,
            s1 == ((b0 & 0x03) << 4) | (b1 >> 4),
            s2 == ((b1 & 0x0f) << 2) | (b2 >> 6),
            s3 == b2 & 0x3f,
    ;
    assert(octets_of(s0, s1, s2, s3) =~= seq![b0, b1, b2]);
}

/// Cuts three bytes into four 6-bit values.
pub fn bytes_to_u6(x: &[u8]) -> (sextets: Vec<u8>)
    requires
        x@.len() == 3,
    ensures
        sextets@ == sextets_of(x@[0], x@[1], x@[2]),
{
    let x0 = x[0];
    let x1 = x[1];
    let x2 = x[2];
    let m = ((x0 as u32) << 16) | ((x1 as u32) << 8) | (x2 as u32);

    let a = ((m & 0xFC0000) >> 18) as u8;
    let b = ((m & 0x03F000) >> 12) as u8;
    let c = ((m & 0x000FC0) >> 6) as u8;
    let d = ((m & 0x00003F) >> 0) as u8;
    assert(a == x0 >> 2 && b == ((x0 & 0x03) << 4) | (x1 >> 4) && c == ((x1 & 0x0f) << 2) | (x2
        >> 6) && d == x2 & 0x3f) by (bit_vector)
        requires
            m == ((x0 as u32) << 16) | ((x1 as u32) << 8) | (x2 as u32),
            a == ((m & 0xFC0000) >> 18) as u8,
            b == ((m & 0x03F000) >> 12) as u8,
            c == ((m & 0x000FC0) >> 6) as u8,
            d == ((m & 0x00003F) >> 0) as u8,
    ;
    let mut sextets: Vec<u8> = Vec::new();
    sextets.push(a);
    sextets.push(b);
    sextets.push(c);
    sextets.push(d);
    assert(sextets@ =~= sextets_of(x@[0], x@[1], x@[2]));
    sextets
}

/// Puts four 6-bit values together into three bytes.
pub fn u6_to_bytes(x: &[u8]) -> (bytes: Vec<u8>)
    requires
        x@.len() == 4,
    ensures
        bytes@ == octets_of(x@[0], x@[1], x@[2], x@[3]),
{
    let x0 = x[0];
    let x1 = x[1];
    let x2 = x[2];
    let x3 = x[3];
    let m = ((x0 as u32) << 18) | ((x1 as u32) << 12) | ((x2 as u32) << 6) | (x3 as u32);

    let a = ((m & 0xFF0000) >> 16) as u8;
    let b = ((m & 0x00FF00) >> 8) as u8;
    let c = (m & 0x0000FF) as u8;
    assert(a == (x0 << 2) | (x1 >> 4) && b == (x1 << 4) | (x2 >> 2) && c == (x2 << 6) | x3)
        by (bit_vector)
        requires
            m == ((x0 as u32) << 18) | ((x1 as u32) << 12) | ((x2 as u32) << 6) | (x3 as u32),
            a == ((m & 0xFF0000) >> 16) as u8,
            b == ((m & 0x00FF00) >> 8) as u8,
            c == (m & 0x0000FF) as u8,
    ;
    let mut bytes: Vec<u8> = Vec::new();
    bytes.push(a);
    bytes.push(b);
    bytes.push(c);
    assert(bytes@ =~= octets_of(x@[0], x@[1], x@[2], x@[3]));
    bytes
}

/// Turns a chunk of one to three bytes into four symbols: the 6-bit values of
/// the chunk, each handed to `u6_mapper` in turn, with `pad_char` in the
/// places that no byte of the chunk reaches. Fails with the first error of
/// the mapper.
pub fn encode_triplet_chunk<F>(chunk: &[u8], u6_mapper: F, pad_char: u8) -> (result: Result<
    Vec<u8>,
    SsssErr,
>) where F: Fn(&u8) -> Result<u8, SsssErr>
    requires
        1 <= chunk@.len() <= 3,
        forall|v: u8| v < 64 ==> call_requires(u6_mapper, (&v,)),
    ensures
        match result {
            Ok(chars) => {
                &&& chars@.len() == 4
                &&& forall|i: int|
                    0 <= i < 4 ==> placed_symbol(
                        u6_mapper,
                        chunk_sextets(chunk@)[i],
                        i <= chunk@.len(),
                        #[trigger] chars@[i],
                        pad_char,
                    )
            },
            Err(e) => exists|i: int| first_failure(u6_mapper, chunk_sextets(chunk@), i, e),
        },
{
    let chunk_len = chunk.len();
    let mut padded: Vec<u8> = Vec::new();
    padded.push(chunk[0]);
    padded.push(if chunk_len > 1 { chunk[1] } else { 0 });
    padded.push(if chunk_len > 2 { chunk[2] } else { 0 });
    let u6bytes = bytes_to_u6(padded.as_slice());
    proof {
        lemma_sextets_round_trip(padded@[0], padded@[1], padded@[2]);
    }
    assert(u6bytes@ == chunk_sextets(chunk@));

    let mut chars: Vec<u8> = Vec::new();
    for i in 0..4usize
        invariant
            u6bytes@ == chunk_sextets(chunk@),
            u6bytes@.len() == 4,
            forall|k: int| 0 <= k < 4 ==> #[trigger] u6bytes@[k] < 64,
            forall|v: u8| v < 64 ==> call_requires(u6_mapper, (&v,)),
            chars@.len() == i,
            forall|k: int| 0 <= k < i ==> maps_to(u6_mapper, u6bytes@[k], #[trigger] chars@[k]),
    {
        match u6_mapper(&u6bytes[i]) {
            Ok(symbol) => chars.push(symbol),
            Err(e) => {
                proof {
                    assert forall|k: int| 0 <= k < i implies succeeds_on(
                        u6_mapper,
                        #[trigger] u6bytes@[k],
                    ) by {
                        assert(maps_to(u6_mapper, u6bytes@[k], chars@[k]));
                    }
                    assert(first_failure(u6_mapper, chunk_sextets(chunk@), i as int, e));
                }
                return Err(e);
            },
        }
    }

    let ghost mapped = chars@;
    if chunk_len < 3 {
        chars.set(3, pad_char);
    }
    if chunk_len < 2 {
        chars.set(2, pad_char);
    }
    proof {
        assert forall|i: int| 0 <= i < 4 implies placed_symbol(
            u6_mapper,
            chunk_sextets(chunk@)[i],
            i <= chunk@.len(),
            #[trigger] chars@[i],
            pad_char,
        ) by {
            assert(maps_to(u6_mapper, chunk_sextets(chunk@)[i], mapped[i]));
        }
    }
    Ok(chars)
}

/// Turns four symbols into the bytes they stand for: each symbol is handed to
/// `u6_demapper` in turn, the four values make three bytes, and of these the
/// last two are dropped where the third symbol is `pad_char`, the last one
/// where only the fourth symbol is. Fails with the first error of the demapper.
pub fn decode_quartet_chunk<F>(chars: &[u8], u6_demapper: F, pad_char: u8) -> (result: Result<
    Vec<u8>,
    SsssErr,
>) where F: Fn(&u8) -> Result<u8, SsssErr>
    requires
        chars@.len() == 4,
        forall|c: u8| call_requires(u6_demapper, (&c,)),
    ensures
        match result {
            Ok(bytes) => exists|s0: u8, s1: u8, s2: u8, s3: u8|
                {
                    &&& maps_to(u6_demapper, chars@[0], s0)
                    &&& maps_to(u6_demapper, chars@[1], s1)
                    &&& maps_to(u6_demapper, chars@[2], s2)
                    &&& maps_to(u6_demapper, chars@[3], s3)
                    &&& bytes@ == #[trigger] octets_of(s0, s1, s2, s3).take(
                        quartet_length(chars@, pad_char) as int,
                    )
                },
            Err(e) => exists|i: int| first_failure(u6_demapper, chars@, i, e),
        },
{
    let mut cutoff: usize = 0;
    if chars[2] == pad_char {
        cutoff = 2;
    } else if chars[3] == pad_char {
        cutoff = 1;
    }

    let mut u6bytes: Vec<u8> = Vec::new();
    for i in 0..4usize
        invariant
            chars@.len() == 4,
            forall|c: u8| call_requires(u6_demapper, (&c,)),
            u6bytes@.len() == i,
            forall|k: int| 0 <= k < i ==> maps_to(u6_demapper, chars@[k], #[trigger] u6bytes@[k]),
    {
        match u6_demapper(&chars[i]) {
            Ok(value) => u6bytes.push(value),
            Err(e) => {
                proof {
                    assert forall|k: int| 0 <= k < i implies succeeds_on(
                        u6_demapper,
                        #[trigger] chars@[k],
                    ) by {
                        assert(maps_to(u6_demapper, chars@[k], u6bytes@[k]));
                    }
                    assert(first_failure(u6_demapper, chars@, i as int, e));
                }
                return Err(e);
            },
        }
    }

    let mut bytes = u6_to_bytes(u6bytes.as_slice());
    let ghost whole = bytes@;
    for k in 0..cutoff
        invariant
            cutoff <= 2,
            whole.len() == 3,
            bytes@ == whole.take(3 - k),
    {
        bytes.pop();
        assert(bytes@ =~= whole.take(3 - k - 1));
    }
    proof {
        assert(whole.take(3) =~= whole);
        assert(maps_to(u6_demapper, chars@[0], u6bytes@[0]));
        assert(maps_to(u6_demapper, chars@[1], u6bytes@[1]));
        assert(maps_to(u6_demapper, chars@[2], u6bytes@[2]));
        assert(maps_to(u6_demapper, chars@[3], u6bytes@[3]));
        assert(bytes@ == octets_of(u6bytes@[0], u6bytes@[1], u6bytes@[2], u6bytes@[3]).take(
            quartet_length(chars@, pad_char) as int,
        ));
    }
    Ok(bytes)
}

} // verus!
