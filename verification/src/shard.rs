use crate::encoding::base64::{
    ascii_of, base64_bytes, base64_decode_bytes, base64_encode, base64_text,
    lemma_ascii_bytes, lemma_base64_round_trip, lemma_base64_text_shape, symbol_u6,
};
use crate::err::{err, ErrKind, SsssErr};
use vstd::prelude::*;
use vstd::slice::slice_subrange;
use vstd::string::{StringExecFns, StringSliceAdditionalSpecFns};

verus! {

/// The character between the index and the payload of a shard text.
pub const SEPARATOR: u8 = 45;

/// One participant's share of a secret: the point at which the polynomials
/// were evaluated, and their values there, one for each byte of the secret.
#[derive(Debug)]
pub struct SsssShard {
    shard_poolsize: Option<u8>,
    shard_number: u8,
    data: Vec<u8>,
}

/// What a shard holds.
pub struct ShardView {
    /// The number of shards that were made together with this one, where known.
    pub pool_size_hint: Option<u8>,
    /// The point of evaluation.
    pub index: u8,
    /// The values at that point.
    pub payload: Seq<u8>,
}

impl View for SsssShard {
    type V = ShardView;

    closed spec fn view(&self) -> ShardView {
        ShardView {
            pool_size_hint: self.shard_poolsize,
            index: self.shard_number,
            payload: self.data@,
        }
    }
}

/// The least `w` such that `n` is at most `10^w`: the width that the index
/// of a shard is padded to.
pub open spec fn pad_width(n: u8) -> nat {
    if n <= 1 {
        0
    } else if n <= 10 {
        1
    } else if n <= 100 {
        2
    } else {
        3
    }
}

/// The decimal digits of `n` as ASCII bytes, without leading zeros.
pub open spec fn decimal_digits(n: u8) -> Seq<u8> {
    if n < 10 {
        seq![(48 + n) as u8]
    } else if n < 100 {
        seq![(48 + n / 10) as u8, (48 + n % 10) as u8]
    } else {
        seq![(48 + n / 100) as u8, (48 + (n / 10) % 10) as u8, (48 + n % 10) as u8]
    }
}

/// The decimal digits of `n`, with zeros in front where they are fewer than `width`.
pub open spec fn padded_decimal(n: u8, width: nat) -> Seq<u8> {
    let digits = decimal_digits(n);
    if width > digits.len() {
        Seq::new((width - digits.len()) as nat, |i: int| 48u8) + digits
    } else {
        digits
    }
}

/// The text of a shard as ASCII bytes: its index in decimal, padded to the
/// width of the pool size (of the index itself where no pool size is known),
/// a `-`, and the payload in base64.
pub open spec fn shard_text(shard: ShardView) -> Seq<u8> {
    let width = pad_width(
        match shard.pool_size_hint {
            Some(total) => total,
            None => shard.index,
        },
    );
    padded_decimal(shard.index, width) + seq![SEPARATOR] + base64_text(shard.payload)
}

/// Whether every byte is an ASCII digit.
pub open spec fn is_digits(s: Seq<u8>) -> bool {
    forall|i: int| 0 <= i < s.len() ==> 48 <= #[trigger] s[i] <= 57
}

/// The number that a sequence of ASCII digits spells in decimal.
pub open spec fn digits_value(s: Seq<u8>) -> int
    decreases s.len(),
{
    if s.len() == 0 {
        0
    } else {
        10 * digits_value(s.drop_last()) + (s.last() - 48)
    }
}

/// The index that a text spells: an optional `+`, then one or more decimal
/// digits whose value is at most 255. Any other text is an invalid index.
pub open spec fn index_of_text(s: Seq<u8>) -> Result<u8, SsssErr> {
    let body = if s.len() > 0 && s[0] == 43 {
        s.skip(1)
    } else {
        s
    };
    if body.len() > 0 && is_digits(body) && digits_value(body) <= 255 {
        Ok(digits_value(body) as u8)
    } else {
        Err(err(ErrKind::InvalidIndex))
    }
}

/// Whether the text has its one and only separator at position `p`.
pub open spec fn splits_at(text: Seq<u8>, p: int) -> bool {
    &&& 0 <= p < text.len()
    &&& text[p] == SEPARATOR
    &&& forall|q: int| 0 <= q < text.len() && q != p ==> #[trigger] text[q] != SEPARATOR
}

/// The shard that a text, given as its bytes, stands for. A text that has not
/// exactly one separator is malformed; otherwise the part before it is the
/// index and the part behind it the payload in base64. The pool size is
/// never known.
pub open spec fn shard_of_text(text: Seq<u8>) -> Result<ShardView, SsssErr> {
    if !(exists|p: int| splits_at(text, p)) {
        Err(err(ErrKind::MalformedShard))
    } else {
        let p = choose|p: int| splits_at(text, p);
        match index_of_text(text.take(p)) {
            Err(e) => Err(e),
            Ok(index) => match base64_bytes(text.skip(p + 1)) {
                Err(e) => Err(e),
                Ok(payload) => Ok(ShardView { pool_size_hint: None, index, payload }),
            },
        }
    }
}

/// The value of a sequence of digits is no less than that of any of its prefixes.
proof fn lemma_digits_value_grows(s: Seq<u8>, i: int)
    requires
        is_digits(s),
        0 <= i <= s.len(),
    ensures
        0 <= digits_value(s.take(i)) <= digits_value(s),
    decreases s.len() - i,
{
    if i == s.len() {
        assert(s.take(i) =~= s);
        lemma_digits_value_nonnegative(s);
    } else {
        lemma_digits_value_grows(s, i + 1);
        assert(s.take(i + 1).drop_last() =~= s.take(i));
        lemma_digits_value_nonnegative(s.take(i));
        assert(s.take(i + 1).last() == s[i]);
    }
}

proof fn lemma_digits_value_nonnegative(s: Seq<u8>)
    requires
        is_digits(s),
    ensures
        0 <= digits_value(s),
    decreases s.len(),
{
    if s.len() > 0 {
        lemma_digits_value_nonnegative(s.drop_last());
    }
}

proof fn lemma_zeros_value(k: nat)
    ensures
        digits_value(Seq::new(k, |i: int| 48u8)) == 0,
    decreases k,
{
    let z = Seq::new(k, |i: int| 48u8);
    if k > 0 {
        lemma_zeros_value((k - 1) as nat);
        assert(z.drop_last() =~= Seq::new((k - 1) as nat, |i: int| 48u8));
    }
}

/// The padded decimal form of a number consists of digits, at least one,
/// and spells that number.
pub proof fn lemma_padded_decimal(n: u8, width: nat)
    ensures
        padded_decimal(n, width).len() >= 1,
        is_digits(padded_decimal(n, width)),
        digits_value(padded_decimal(n, width)) == n,
{
    let digits = decimal_digits(n);
    let k: nat = if width > digits.len() {
        (width - digits.len()) as nat
    } else {
        0
    };
    let z = Seq::new(k, |i: int| 48u8);
    let s = padded_decimal(n, width);
    assert(s =~= z + digits);
    lemma_zeros_value(k);
    if n < 10 {
        assert(s.drop_last() =~= z);
        assert(s.last() == digits[0]);
        assert(digits_value(s) == 10 * digits_value(z) + (s.last() - 48));
    } else if n < 100 {
        let s1 = s.drop_last();
        assert(s1 =~= z.push(digits[0]));
        assert(s1.drop_last() =~= z);
        assert(s1.last() == digits[0]);
        assert(s.last() == digits[1]);
        assert(digits_value(s1) == 10 * digits_value(z) + (s1.last() - 48));
        assert(digits_value(s1) == n / 10);
        assert(digits_value(s) == 10 * digits_value(s1) + (s.last() - 48));
    } else {
        let s1 = s.drop_last();
        let s2 = s1.drop_last();
        assert(s1 =~= z.push(digits[0]).push(digits[1]));
        assert(s2 =~= z.push(digits[0]));
        assert(s2.drop_last() =~= z);
        assert(s2.last() == digits[0]);
        assert(s1.last() == digits[1]);
        assert(s.last() == digits[2]);
        assert(digits_value(s2) == 10 * digits_value(z) + (s2.last() - 48));
        assert(digits_value(s2) == n / 100);
        assert(digits_value(s1) == 10 * digits_value(s2) + (s1.last() - 48));
        assert(digits_value(s1) == n / 10);
        assert(digits_value(s) == 10 * digits_value(s1) + (s.last() - 48));
    }
}

/// Reading the text of a shard gives back its index and its payload; the
/// pool size is not kept.
pub proof fn lemma_shard_text_round_trip(shard: ShardView)
    ensures
        shard_of_text(shard_text(shard)) == Ok::<ShardView, SsssErr>(
            ShardView { pool_size_hint: None, index: shard.index, payload: shard.payload },
        ),
        forall|i: int| 0 <= i < shard_text(shard).len() ==> #[trigger] shard_text(shard)[i] < 128,
{
    let width = pad_width(
        match shard.pool_size_hint {
            Some(total) => total,
            None => shard.index,
        },
    );
    let index_text = padded_decimal(shard.index, width);
    let payload_text = base64_text(shard.payload);
    let text = shard_text(shard);
    let p = index_text.len() as int;
    lemma_padded_decimal(shard.index, width);
    lemma_base64_text_shape(shard.payload);
    lemma_base64_round_trip(shard.payload);
    assert forall|q: int| 0 <= q < text.len() && q != p implies #[trigger] text[q] != SEPARATOR by {
        if q < p {
            assert(text[q] == index_text[q]);
        } else {
            assert(text[q] == payload_text[q - p - 1]);
            assert(symbol_u6(payload_text[q - p - 1]) is Ok);
        }
    }
    assert(text[p] == SEPARATOR);
    assert(splits_at(text, p));
    let chosen = choose|k: int| splits_at(text, k);
    assert(chosen == p);
    assert(text.take(p) =~= index_text);
    assert(text.skip(p + 1) =~= payload_text);
    assert(index_text[0] != 43);
    assert forall|i: int| 0 <= i < text.len() implies #[trigger] text[i] < 128 by {
        if i < p {
            assert(text[i] == index_text[i]);
        } else if i > p {
            assert(text[i] == payload_text[i - p - 1]);
        }
    }
}

/// What `to_string` returns for a shard, `parse` reads back as a shard with
/// the same index and payload.
pub proof fn lemma_parse_of_formatted(shard: ShardView, text: &str)
    requires
        text@ == ascii_of(shard_text(shard)),
    ensures
        shard_of_text(text.spec_bytes()) == Ok::<ShardView, SsssErr>(
            ShardView { pool_size_hint: None, index: shard.index, payload: shard.payload },
        ),
{
    lemma_shard_text_round_trip(shard);
    lemma_ascii_bytes(shard_text(shard), text);
}

/// Reads a shard index: an optional `+` and decimal digits.
fn parse_index(text: &[u8]) -> (result: Result<u8, SsssErr>)
    ensures
        result == index_of_text(text@),
{
    let start: usize = if text.len() > 0 && text[0] == 43 {
        1
    } else {
        0
    };
    let ghost body = text@.skip(start as int);
    assert(text@.skip(0) =~= text@);
    assert(body == if text@.len() > 0 && text@[0] == 43 {
        text@.skip(1)
    } else {
        text@
    });
    if start == text.len() {
        return Err(SsssErr::new(ErrKind::InvalidIndex));
    }
    let mut acc: u32 = 0;
    let mut i: usize = start;
    assert(body.take(0).len() == 0);
    while i < text.len()
        invariant
            start <= i <= text@.len(),
            start <= 1,
            body == text@.skip(start as int),
            body.len() > 0,
            index_of_text(text@) == if is_digits(body) && digits_value(body) <= 255 {
                Ok::<u8, SsssErr>(digits_value(body) as u8)
            } else {
                Err::<u8, SsssErr>(err(ErrKind::InvalidIndex))
            },
            is_digits(body.take(i - start)),
            acc == digits_value(body.take(i - start)),
            acc <= 255,
        decreases text@.len() - i,
    {
        let c = text[i];
        assert(body[i - start] == c);
        if c < 48 || c > 57 {
            assert(!is_digits(body));
            return Err(SsssErr::new(ErrKind::InvalidIndex));
        }
        let ghost shorter = body.take(i - start);
        let ghost prefix = body.take(i - start + 1);
        proof {
            assert(prefix.drop_last() =~= shorter);
            assert(prefix.last() == c);
            assert(prefix =~= shorter.push(c));
            assert(is_digits(prefix)) by {
                assert forall|k: int| 0 <= k < prefix.len() implies 48 <= #[trigger] prefix[k]
                    <= 57 by {
                    if k < shorter.len() {
                        assert(shorter[k] == prefix[k]);
                    }
                }
            }
            assert(digits_value(prefix) == 10 * digits_value(shorter) + (c - 48));
        }
        acc = acc * 10 + (c - 48) as u32;
        if acc > 255 {
            proof {
                if is_digits(body) {
                    lemma_digits_value_grows(body, i - start + 1);
                }
            }
            return Err(SsssErr::new(ErrKind::InvalidIndex));
        }
        i += 1;
    }
    assert(body.take(i - start) =~= body);
    Ok(acc as u8)
}

impl SsssShard {
    /// The shard with index `n` among `total_shards`, holding `data`.
    pub fn new(total_shards: u8, n: u8, data: Vec<u8>) -> (shard: SsssShard)
        ensures
            shard@ == (ShardView { pool_size_hint: Some(total_shards), index: n, payload: data@ }),
    {
        SsssShard { shard_poolsize: Some(total_shards), shard_number: n, data }
    }

    /// The payload: one byte for each byte of the secret.
    pub fn data(&self) -> (payload: &[u8])
        ensures
            payload@ == self@.payload,
    {
        self.data.as_slice()
    }

    /// The index: the point at which the polynomials were evaluated.
    pub fn num(&self) -> (index: u8)
        ensures
            index == self@.index,
    {
        self.shard_number
    }

    /// The number of shards made together with this one, where it is known.
    pub fn poolsize(&self) -> (hint: Option<u8>)
        ensures
            hint == self@.pool_size_hint,
    {
        self.shard_poolsize
    }

    /// The text of the shard: `<index>-<payload in base64>`.
    pub fn to_string(&self) -> (text: String)
        ensures
            text@ == ascii_of(shard_text(self@)),
    {
        let data_formatted = match base64_encode(self.data.as_slice()) {
            Ok(encoded) => encoded,
            Err(_) => String::new(),
        };
        let width_of = match self.shard_poolsize {
            Some(x) => x,
            None => self.shard_number,
        };
        let width: usize = if width_of <= 1 {
            0
        } else if width_of <= 10 {
            1
        } else if width_of <= 100 {
            2
        } else {
            3
        };
        let n = self.shard_number;
        let digit_count: usize = if n < 10 {
            1
        } else if n < 100 {
            2
        } else {
            3
        };
        let mut output = String::new();
        let ghost mut written: Seq<u8> = Seq::empty();
        let ghost zeros: nat = if width > digit_count {
            (width - digit_count) as nat
        } else {
            0
        };
        assert(ascii_of(written) =~= Seq::<char>::empty());
        let mut k: usize = digit_count;
        while k < width
            invariant
                digit_count <= 3,
                width <= 3,
                output@ == ascii_of(written),
                k >= digit_count,
                k <= width || k == digit_count,
                written.len() == k - digit_count,
                forall|i: int| 0 <= i < written.len() ==> written[i] == 48,
            decreases width - k,
        {
            output.push('0');
            proof {
                written = written.push(48u8);
                assert(output@ =~= ascii_of(written));
            }
            k += 1;
        }
        let ghost padding = written;
        assert(padding =~= Seq::new(zeros, |i: int| 48u8));
        if n >= 100 {
            output.push((48 + n / 100) as char);
            proof {
                written = written.push((48 + n / 100) as u8);
                assert(output@ =~= ascii_of(written));
            }
        }
        if n >= 10 {
            output.push((48 + (n / 10) % 10) as char);
            proof {
                written = written.push((48 + (n / 10) % 10) as u8);
                assert(output@ =~= ascii_of(written));
            }
        }
        output.push((48 + n % 10) as char);
        proof {
            written = written.push((48 + n % 10) as u8);
            assert(output@ =~= ascii_of(written));
            assert(written =~= padding + decimal_digits(n));
            assert(written =~= padded_decimal(n, width as nat));
        }
        output.push('-');
        proof {
            written = written.push(SEPARATOR);
            assert(output@ =~= ascii_of(written));
        }
        output.append(data_formatted.as_str());
        proof {
            assert(output@ =~= ascii_of(written + base64_text(self.data@)));
            assert(written + base64_text(self.data@) =~= shard_text(self@));
        }
        output
    }

    /// Reads a shard from its text, which is taken as its UTF-8 bytes.
    pub fn parse(s: &str) -> (result: Result<SsssShard, SsssErr>)
        ensures
            match result {
                Ok(shard) => shard_of_text(s.spec_bytes()) == Ok::<ShardView, SsssErr>(shard@),
                Err(e) => shard_of_text(s.spec_bytes()) == Err::<ShardView, SsssErr>(e),
            },
    {
        let bytes = s.as_bytes();
        let mut p: usize = 0;
        while p < bytes.len() && bytes[p] != SEPARATOR
            invariant
                p <= bytes@.len(),
                forall|q: int| 0 <= q < p ==> #[trigger] bytes@[q] != SEPARATOR,
            decreases bytes@.len() - p,
        {
            p += 1;
        }
        if p == bytes.len() {
            assert(!(exists|p: int| splits_at(bytes@, p)));
            return Err(SsssErr::new(ErrKind::MalformedShard));
        }
        let mut q: usize = p + 1;
        while q < bytes.len() && bytes[q] != SEPARATOR
            invariant
                p < q <= bytes@.len(),
                forall|k: int| p < k < q ==> #[trigger] bytes@[k] != SEPARATOR,
            decreases bytes@.len() - q,
        {
            q += 1;
        }
        if q < bytes.len() {
            assert forall|k: int| !splits_at(bytes@, k) by {
                if splits_at(bytes@, k) {
                    if k == p {
                        assert(bytes@[q as int] != SEPARATOR);
                    } else {
                        assert(bytes@[p as int] != SEPARATOR);
                    }
                }
            }
            return Err(SsssErr::new(ErrKind::MalformedShard));
        }
        proof {
            assert(splits_at(bytes@, p as int));
            let chosen = choose|k: int| splits_at(bytes@, k);
            assert(chosen == p) by {
                if chosen != p {
                    assert(bytes@[p as int] != SEPARATOR);
                }
            }
        }
        let shard_number = match parse_index(slice_subrange(bytes, 0, p)) {
            Ok(index) => index,
            Err(e) => {
                return Err(e);
            },
        };
        let data = match base64_decode_bytes(slice_subrange(bytes, p + 1, bytes.len())) {
            Ok(payload) => payload,
            Err(e) => {
                return Err(e);
            },
        };
        Ok(SsssShard { shard_poolsize: None, shard_number, data })
    }
}

impl std::str::FromStr for SsssShard {
    type Err = SsssErr;

    fn from_str(s: &str) -> (result: Result<Self, Self::Err>)
        ensures
            match result {
                Ok(shard) => shard_of_text(s.spec_bytes()) == Ok::<ShardView, SsssErr>(shard@),
                Err(e) => shard_of_text(s.spec_bytes()) == Err::<ShardView, SsssErr>(e),
            },
    {
        SsssShard::parse(s)
    }
}

} // verus!
