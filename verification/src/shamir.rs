use crate::err::{err, ErrKind, SsssErr};
use crate::math::field_laws::{lemma_product_one_zero, lemma_sum_laws};
use crate::math::gf::{InverseLut, GF};
use crate::math::lagrange::{
    basis_term, distinct, lagrange_at_zero, lagrange_terms, lemma_lagrange_recovers,
};
use crate::math::poly::{gf_power, poly_value, poly_value_terms, GfPoly};
use crate::shard::{ShardView, SsssShard};
use rand::Rng;
use vstd::prelude::*;

verus! {

/// How a secret is shared: `threshold` shards are needed to reconstruct it,
/// and `num_shards` are made.
pub struct ShamirScheme {
    /// How many shards are made.
    pub num_shards: u8,
    /// How many shards reconstruct the secret.
    pub threshold: u8,
}

impl ShamirScheme {
    /// The scheme that makes `num_shards` shards of which `threshold` reconstruct.
    #[must_use]
    pub fn new(threshold: u8, num_shards: u8) -> (scheme: Self)
        ensures
            scheme.threshold == threshold,
            scheme.num_shards == num_shards,
    {
        ShamirScheme { threshold, num_shards }
    }
}

/// The number of coefficients of the polynomials that share a secret with
/// the given threshold: the threshold itself, and one where it is zero.
pub open spec fn coefficient_count(threshold: u8) -> nat {
    if threshold == 0 {
        1
    } else {
        threshold as nat
    }
}

/// Whether the coefficients are those of a polynomial that shares the byte
/// `secret` with the given threshold: the constant term is the secret.
pub open spec fn is_share_polynomial(coefficients: Seq<u8>, secret: u8, threshold: u8) -> bool {
    &&& coefficients.len() == coefficient_count(threshold)
    &&& coefficients[0] == secret
}

/// The points 1 to `num_shards`, each with the value of the polynomial there.
pub open spec fn byte_shares(coefficients: Seq<u8>, num_shards: u8) -> Seq<(u8, u8)> {
    Seq::new(num_shards as nat, |k: int| ((k + 1) as u8, poly_value(coefficients, (k + 1) as u8)))
}

/// What the shards of a sequence hold.
pub open spec fn shard_views(shards: Seq<SsssShard>) -> Seq<ShardView> {
    Seq::new(shards.len(), |j: int| shards[j]@)
}

/// Whether the polynomials share the secret, one polynomial for each byte,
/// and the shards hold their values: shard `j` the values at the point `j + 1`.
pub open spec fn shards_hold(
    shards: Seq<ShardView>,
    polys: Seq<Seq<u8>>,
    secret: Seq<u8>,
    threshold: u8,
) -> bool {
    &&& polys.len() == secret.len()
    &&& forall|i: int|
        0 <= i < secret.len() ==> is_share_polynomial(#[trigger] polys[i], secret[i], threshold)
    &&& forall|j: int, i: int|
        0 <= j < shards.len() && 0 <= i < secret.len() ==> shards[j].payload[i] == poly_value(
            #[trigger] polys[i],
            #[trigger] shards[j].index,
        )
}

/// Whether the shards are a sharing of the secret with the given threshold:
/// there are `num_shards` of them, with the indices 1 to `num_shards` in this
/// order, each knows the pool size and holds one byte for each byte of the
/// secret, and these bytes are the values of polynomials that share the secret.
pub open spec fn is_sharing(
    shards: Seq<ShardView>,
    secret: Seq<u8>,
    threshold: u8,
    num_shards: u8,
) -> bool {
    &&& shards.len() == num_shards
    &&& forall|j: int|
        0 <= j < shards.len() ==> {
            &&& (#[trigger] shards[j]).index == j + 1
            &&& shards[j].pool_size_hint == Some(num_shards)
            &&& shards[j].payload.len() == secret.len()
        }
    &&& exists|polys: Seq<Seq<u8>>| shards_hold(shards, polys, secret, threshold)
}

/// The indices of the shards.
pub open spec fn shard_indices(shards: Seq<ShardView>) -> Seq<u8> {
    Seq::new(shards.len(), |j: int| shards[j].index)
}

/// The bytes that the shards hold at position `i`.
pub open spec fn shard_column(shards: Seq<ShardView>, i: int) -> Seq<u8> {
    Seq::new(shards.len(), |j: int| shards[j].payload[i])
}

/// Whether all the shards hold as many bytes as the first.
pub open spec fn same_lengths(shards: Seq<ShardView>) -> bool {
    forall|j: int|
        0 <= j < shards.len() ==> (#[trigger] shards[j]).payload.len() == shards[0].payload.len()
}

/// What one or more shards reconstruct: a length mismatch where they do not
/// hold equally many bytes; else a division by zero where there is a byte to
/// reconstruct and two shards have the same index; else, for each position,
/// the value at zero of the polynomial through the bytes at that position.
pub open spec fn reconstruction(shards: Seq<ShardView>) -> Result<Seq<u8>, SsssErr> {
    if !same_lengths(shards) {
        Err(err(ErrKind::LengthMismatch))
    } else if shards[0].payload.len() > 0 && !distinct(shard_indices(shards)) {
        Err(err(ErrKind::DivisionByZero))
    } else {
        Ok(
            Seq::new(
                shards[0].payload.len(),
                |i: int| lagrange_at_zero(shard_indices(shards), shard_column(shards, i)),
            ),
        )
    }
}

/// `ThreadRng` of rand: the handle of the random number generator of the
/// current thread. Nothing is known of what it holds.
#[verifier::external_type_specification]
#[verifier::external_body]
pub struct ExThreadRng(rand::rngs::ThreadRng);

/// `rand::thread_rng` hands out the generator of the current thread, which the
/// operating system has seeded. Nothing is claimed of it. It panics where the
/// operating system cannot provide a seed.
pub assume_specification[ rand::thread_rng ]() -> (rng: rand::rngs::ThreadRng)
;

/// `Rng::gen` of rand draws one byte from the generator. Nothing is claimed of
/// the byte: the caller is verified for every value of it.
#[verifier::external_body]
fn random_byte(rng: &mut rand::rngs::ThreadRng) -> (byte: u8) {
    rng.gen()
}

/// The values of the polynomial at the points 1 to `num_shards`.
pub fn poly_shares(poly: &GfPoly, num_shards: u8) -> (shares: Vec<(u8, u8)>)
    ensures
        shares@ == byte_shares(poly@, num_shards),
{
    let mut shares: Vec<(u8, u8)> = Vec::new();
    let mut x: u8 = 0;
    while x < num_shards
        invariant
            x <= num_shards,
            shares@.len() == x,
            forall|k: int|
                0 <= k < x ==> #[trigger] shares@[k] == ((k + 1) as u8, poly_value(
                    poly@,
                    (k + 1) as u8,
                )),
        decreases num_shards - x,
    {
        x += 1;
        let y = poly.apply_x(x);
        shares.push((x, y.value() as u8));
    }
    assert(shares@ =~= byte_shares(poly@, num_shards));
    shares
}

/// Shares one byte: draws a polynomial at random whose constant term is the
/// byte, and returns its values at the points 1 to `num_shards`.
#[must_use]
pub fn encode_byte(options: &ShamirScheme, secret: u8) -> (shares: Vec<(u8, u8)>)
    ensures
        exists|coefficients: Seq<u8>|
            is_share_polynomial(coefficients, secret, options.threshold) && shares@
                == #[trigger] byte_shares(coefficients, options.num_shards),
{
    let mut rng = rand::thread_rng();
    let mut poly: Vec<u8> = Vec::new();
    poly.push(secret);
    let mut drawn: u8 = 1;
    while drawn < options.threshold
        invariant
            1 <= drawn,
            drawn <= options.threshold || drawn == 1,
            poly@.len() == drawn,
            poly@[0] == secret,
        decreases options.threshold - drawn,
    {
        poly.push(random_byte(&mut rng));
        drawn += 1;
    }

    let poly = GfPoly::new(&poly);
    let shares = poly_shares(&poly, options.num_shards);
    assert(is_share_polynomial(poly@, secret, options.threshold));
    shares
}

/// Splits the secret into `num_shards` shards, of which any `threshold`
/// reconstruct it. For each byte of the secret a polynomial is drawn at
/// random; the shard with index `x` holds the values at `x`.
#[must_use]
pub fn encode(options: &ShamirScheme, secret: &[u8]) -> (shards: Vec<SsssShard>)
    ensures
        is_sharing(shard_views(shards@), secret@, options.threshold, options.num_shards),
        options.threshold <= 1 ==> forall|j: int|
            0 <= j < shards@.len() ==> (#[trigger] shards@[j])@.payload == secret@,
{
    let data_len = secret.len();
    let mut rawchunks: Vec<Vec<(u8, u8)>> = Vec::new();
    let ghost mut polys: Seq<Seq<u8>> = Seq::empty();
    for i in 0..data_len
        invariant
            data_len == secret@.len(),
            rawchunks@.len() == i,
            polys.len() == i,
            forall|k: int|
                0 <= k < i ==> is_share_polynomial(
                    #[trigger] polys[k],
                    secret@[k],
                    options.threshold,
                ),
            forall|k: int|
                0 <= k < i ==> (#[trigger] rawchunks@[k])@ == byte_shares(
                    polys[k],
                    options.num_shards,
                ),
    {
        let chunk = encode_byte(options, secret[i]);
        proof {
            let coefficients = choose|coefficients: Seq<u8>|
                is_share_polynomial(coefficients, secret@[i as int], options.threshold) && chunk@
                    == #[trigger] byte_shares(coefficients, options.num_shards);
            polys = polys.push(coefficients);
        }
        rawchunks.push(chunk);
    }

    let mut shards: Vec<SsssShard> = Vec::new();
    let mut x: u8 = 0;
    while x < options.num_shards
        invariant
            x <= options.num_shards,
            data_len == secret@.len(),
            rawchunks@.len() == data_len,
            polys.len() == data_len,
            forall|k: int|
                0 <= k < data_len ==> (#[trigger] rawchunks@[k])@ == byte_shares(
                    polys[k],
                    options.num_shards,
                ),
            shards@.len() == x,
            forall|j: int|
                0 <= j < x ==> {
                    &&& (#[trigger] shards@[j])@.index == j + 1
                    &&& shards@[j]@.pool_size_hint == Some(options.num_shards)
                    &&& shards@[j]@.payload.len() == data_len
                    &&& forall|k: int|
                        0 <= k < data_len ==> shards@[j]@.payload[k] == poly_value(
                            #[trigger] polys[k],
                            (j + 1) as u8,
                        )
                },
        decreases options.num_shards - x,
    {
        let mut data: Vec<u8> = Vec::new();
        for b in 0..data_len
            invariant
                x < options.num_shards,
                rawchunks@.len() == data_len,
                polys.len() == data_len,
                forall|k: int|
                    0 <= k < data_len ==> (#[trigger] rawchunks@[k])@ == byte_shares(
                        polys[k],
                        options.num_shards,
                    ),
                data@.len() == b,
                forall|k: int|
                    0 <= k < b ==> data@[k] == poly_value(#[trigger] polys[k], (x + 1) as u8),
        {
            assert(rawchunks@[b as int]@ == byte_shares(polys[b as int], options.num_shards));
            let share = rawchunks[b][x as usize];
            data.push(share.1);
        }
        x += 1;
        shards.push(SsssShard::new(options.num_shards, x, data));
    }

    proof {
        let views = shard_views(shards@);
        assert(shards_hold(views, polys, secret@, options.threshold));
        if options.threshold <= 1 {
            assert forall|j: int| 0 <= j < shards@.len() implies (#[trigger] shards@[j])@.payload
                == secret@ by {
                assert forall|k: int| 0 <= k < secret@.len() implies shards@[j]@.payload[k]
                    == secret@[k] by {
                    lemma_constant_polynomial(polys[k], (j + 1) as u8);
                }
                assert(shards@[j]@.payload =~= secret@);
            }
        }
    }
    shards
}

/// A polynomial with one coefficient has that coefficient as its value everywhere.
pub proof fn lemma_constant_polynomial(coefficients: Seq<u8>, x: u8)
    requires
        coefficients.len() == 1,
    ensures
        poly_value(coefficients, x) == coefficients[0],
{
    lemma_product_one_zero(coefficients[0]);
    lemma_sum_laws(coefficients[0], 0, 0);
    assert(poly_value_terms(coefficients, x, 0) == 0);
    assert(gf_power(x, 0) == 1);
}

/// Reconstructs one byte from its shares: the value at zero of the polynomial
/// through the points `(x[j], y[j])`. Fails with `DivisionByZero` where two
/// of the `x` are equal.
#[must_use]
pub fn decode_byte(x: &[u8], y: &[u8], lut: &InverseLut) -> (result: Result<u8, SsssErr>)
    requires
        x@.len() == y@.len(),
    ensures
        distinct(x@) ==> result == Ok::<u8, SsssErr>(lagrange_at_zero(x@, y@)),
        !distinct(x@) ==> result == Err::<u8, SsssErr>(err(ErrKind::DivisionByZero)),
{
    let k = x.len();
    let mut sum = GF::new(0);

    for j in 0..k
        invariant
            k == x@.len(),
            k == y@.len(),
            sum@ == lagrange_terms(x@, y@, j as nat),
            forall|a: int, m: int| 0 <= a < j && 0 <= m < k && a != m ==> x@[a] != x@[m],
    {
        let mut mult = GF::new(y[j]);
        for m in 0..k
            invariant
                j < k,
                k == x@.len(),
                k == y@.len(),
                mult@ == basis_term(x@, j as int, y@[j as int], m as nat),
                forall|b: int| 0 <= b < m && b != j ==> x@[b] != x@[j as int],
        {
            if j != m {
                let xm = GF::new(x[m]);
                let denominator = xm - GF::new(x[j]);
                proof {
                    lemma_sum_laws(x@[m as int], x@[j as int], 0);
                }
                match xm.div(denominator, lut) {
                    Ok(factor) => {
                        mult = mult * factor;
                    },
                    Err(e) => {
                        assert(x@[m as int] == x@[j as int]);
                        assert(!distinct(x@)) by {
                            if m < j {
                                assert(x@[m as int] == x@[j as int]);
                            } else {
                                assert(x@[j as int] == x@[m as int]);
                            }
                        }
                        return Err(e);
                    },
                }
            }
        }
        sum = sum + mult;
    }

    assert(distinct(x@));
    Ok(sum.value() as u8)
}

/// Reconstructs the secret from one or more shards, with a table of inverses
/// that the caller holds. The result is the secret where the shards are
/// distinct shards of one sharing and at least as many as its threshold; with
/// fewer it is some other byte sequence.
#[must_use]
pub fn decode_with_lut(shards: &[SsssShard], lut: &InverseLut) -> (result: Result<Vec<u8>, SsssErr>)
    requires
        shards@.len() > 0,
    ensures
        match result {
            Ok(secret) => reconstruction(shard_views(shards@)) == Ok::<Seq<u8>, SsssErr>(secret@),
            Err(e) => reconstruction(shard_views(shards@)) == Err::<Seq<u8>, SsssErr>(e),
        },
{
    let ghost views = shard_views(shards@);
    let num_bytes = shards[0].data().len();
    assert(views[0].payload.len() == num_bytes);

    let mut xvec: Vec<u8> = Vec::new();
    for j in 0..shards.len()
        invariant
            views == shard_views(shards@),
            num_bytes == views[0].payload.len(),
            xvec@.len() == j,
            forall|a: int| 0 <= a < j ==> xvec@[a] == (#[trigger] views[a]).index,
            forall|a: int| 0 <= a < j ==> (#[trigger] views[a]).payload.len() == num_bytes,
    {
        assert(views[j as int] == shards@[j as int]@);
        if shards[j].data().len() != num_bytes {
            assert(!same_lengths(views));
            return Err(SsssErr::new(ErrKind::LengthMismatch));
        }
        xvec.push(shards[j].num());
    }
    assert(same_lengths(views));
    assert(xvec@ =~= shard_indices(views));
    let xslice = xvec.as_slice();

    let mut data: Vec<u8> = Vec::new();
    for i in 0..num_bytes
        invariant
            views == shard_views(shards@),
            same_lengths(views),
            num_bytes == views[0].payload.len(),
            xslice@ == shard_indices(views),
            data@.len() == i,
            i > 0 ==> distinct(shard_indices(views)),
            forall|b: int|
                0 <= b < i ==> data@[b] == lagrange_at_zero(
                    shard_indices(views),
                    #[trigger] shard_column(views, b),
                ),
    {
        let mut yvec: Vec<u8> = Vec::new();
        for j in 0..shards.len()
            invariant
                views == shard_views(shards@),
                same_lengths(views),
                num_bytes == views[0].payload.len(),
                i < num_bytes,
                yvec@.len() == j,
                forall|a: int| 0 <= a < j ==> yvec@[a] == (#[trigger] views[a]).payload[i as int],
        {
            assert(views[j as int] == shards@[j as int]@);
            assert(views[j as int].payload.len() == num_bytes);
            yvec.push(shards[j].data()[i]);
        }
        assert(yvec@ =~= shard_column(views, i as int));
        match decode_byte(xslice, yvec.as_slice(), lut) {
            Ok(byte) => data.push(byte),
            Err(e) => {
                return Err(e);
            },
        }
    }
    proof {
        let rebuilt = Seq::new(
            num_bytes as nat,
            |i: int| lagrange_at_zero(shard_indices(views), shard_column(views, i)),
        );
        assert(data@ =~= rebuilt);
    }
    Ok(data)
}

/// Reconstructs the secret from one or more shards. The table of inverses is
/// built for this one call.
#[must_use]
pub fn decode(shards: &[SsssShard]) -> (result: Result<Vec<u8>, SsssErr>)
    requires
        shards@.len() > 0,
    ensures
        match result {
            Ok(secret) => reconstruction(shard_views(shards@)) == Ok::<Seq<u8>, SsssErr>(secret@),
            Err(e) => reconstruction(shard_views(shards@)) == Err::<Seq<u8>, SsssErr>(e),
        },
{
    let lut = GF::get_inverse_lut();
    decode_with_lut(shards, &lut)
}

/// Whether the shard is one of the given shards: it has the index and the
/// payload of one of them. The pool size does not count.
pub open spec fn is_one_of(shard: ShardView, shards: Seq<ShardView>) -> bool {
    exists|j: int|
        0 <= j < shards.len() && shard.index == (#[trigger] shards[j]).index && shard.payload
            == shards[j].payload
}

/// Any `threshold` or more different shards of a sharing reconstruct the
/// secret, whichever of the shards they are and in whatever order they come.
pub proof fn lemma_threshold_shards_reconstruct(
    shards: Seq<ShardView>,
    secret: Seq<u8>,
    threshold: u8,
    num_shards: u8,
    picked: Seq<ShardView>,
)
    requires
        is_sharing(shards, secret, threshold, num_shards),
        picked.len() >= coefficient_count(threshold),
        forall|k: int| 0 <= k < picked.len() ==> is_one_of(#[trigger] picked[k], shards),
        distinct(shard_indices(picked)),
    ensures
        reconstruction(picked) == Ok::<Seq<u8>, SsssErr>(secret),
{
    let polys = choose|polys: Seq<Seq<u8>>| shards_hold(shards, polys, secret, threshold);
    let xs = shard_indices(picked);
    assert forall|k: int| 0 <= k < picked.len() implies (#[trigger] picked[k]).payload.len()
        == secret.len() by {
        assert(is_one_of(picked[k], shards));
        let j = choose|j: int|
            0 <= j < shards.len() && picked[k].index == (#[trigger] shards[j]).index
                && picked[k].payload == shards[j].payload;
        assert(shards[j].payload.len() == secret.len());
    }
    assert(same_lengths(picked));
    let rebuilt = Seq::new(
        picked[0].payload.len(),
        |i: int| lagrange_at_zero(shard_indices(picked), shard_column(picked, i)),
    );
    assert forall|i: int| 0 <= i < secret.len() implies rebuilt[i] == secret[i] by {
        let ys = shard_column(picked, i);
        let coefficients = polys[i];
        assert(is_share_polynomial(coefficients, secret[i], threshold));
        assert forall|k: int| 0 <= k < xs.len() implies ys[k] == poly_value(
            coefficients,
            xs[k],
        ) by {
            assert(is_one_of(picked[k], shards));
            let j = choose|j: int|
                0 <= j < shards.len() && picked[k].index == (#[trigger] shards[j]).index
                    && picked[k].payload == shards[j].payload;
            assert(shards[j].payload[i] == poly_value(polys[i], shards[j].index));
        }
        lemma_lagrange_recovers(xs, ys, coefficients);
    }
    assert(rebuilt =~= secret);
}

/// Different shards of a sharing always reconstruct some byte sequence as long
/// as the secret, however few they are: that they are too few is not noticed.
pub proof fn lemma_too_few_shards_go_unnoticed(
    shards: Seq<ShardView>,
    secret: Seq<u8>,
    threshold: u8,
    num_shards: u8,
    picked: Seq<ShardView>,
)
    requires
        is_sharing(shards, secret, threshold, num_shards),
        picked.len() >= 1,
        forall|k: int| 0 <= k < picked.len() ==> is_one_of(#[trigger] picked[k], shards),
        distinct(shard_indices(picked)),
    ensures
        reconstruction(picked) is Ok,
        reconstruction(picked)->Ok_0.len() == secret.len(),
{
    assert forall|k: int| 0 <= k < picked.len() implies (#[trigger] picked[k]).payload.len()
        == secret.len() by {
        assert(is_one_of(picked[k], shards));
        let j = choose|j: int|
            0 <= j < shards.len() && picked[k].index == (#[trigger] shards[j]).index
                && picked[k].payload == shards[j].payload;
        assert(shards[j].payload.len() == secret.len());
    }
    assert(same_lengths(picked));
}

/// With a threshold of one (or zero) every shard of a sharing holds the
/// secret itself.
pub proof fn lemma_threshold_one_is_plain(
    shards: Seq<ShardView>,
    secret: Seq<u8>,
    threshold: u8,
    num_shards: u8,
)
    requires
        is_sharing(shards, secret, threshold, num_shards),
        threshold <= 1,
    ensures
        forall|j: int| 0 <= j < shards.len() ==> (#[trigger] shards[j]).payload == secret,
{
    let polys = choose|polys: Seq<Seq<u8>>| shards_hold(shards, polys, secret, threshold);
    assert forall|j: int| 0 <= j < shards.len() implies (#[trigger] shards[j]).payload
        == secret by {
        assert forall|i: int| 0 <= i < secret.len() implies shards[j].payload[i] == secret[i] by {
            assert(is_share_polynomial(polys[i], secret[i], threshold));
            assert(shards[j].payload[i] == poly_value(polys[i], shards[j].index));
            lemma_constant_polynomial(polys[i], shards[j].index);
        }
        assert(shards[j].payload =~= secret);
    }
}

/// Shards of equal length that hold at least one byte do not reconstruct
/// where two of them have the same index: the division by zero is reported.
pub proof fn lemma_same_index_fails(shards: Seq<ShardView>, a: int, b: int)
    requires
        same_lengths(shards),
        0 <= a < b < shards.len(),
        shards[0].payload.len() > 0,
        shards[a].index == shards[b].index,
    ensures
        reconstruction(shards) == Err::<Seq<u8>, SsssErr>(err(ErrKind::DivisionByZero)),
{
    let xs = shard_indices(shards);
    assert(xs[a] == xs[b]);
}

} // verus!
