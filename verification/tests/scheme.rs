use rand::RngCore;
use ssss_rs::err::ErrKind;
use ssss_rs::math::gf::GF;
use ssss_rs::math::poly::GfPoly;
use ssss_rs::shamir::{decode_byte, encode_byte, poly_shares};
use ssss_rs::{decode, decode_with_lut, encode, ShamirScheme, SsssShard};

#[test]
fn test_end_to_end() {
    let options = ShamirScheme::new(3, 8);
    let mut rng = rand::thread_rng();
    let mut secret_bytes = vec![0; 128];
    rng.fill_bytes(&mut secret_bytes);

    let shards = encode(&options, &secret_bytes);

    assert_eq!(secret_bytes, decode(&shards[0..3]).unwrap());
    assert_eq!(secret_bytes, decode(&shards[2..5]).unwrap());
    assert_eq!(secret_bytes, decode(&shards[3..6]).unwrap());
    assert_eq!(secret_bytes, decode(&shards[5..8]).unwrap());
}

#[test]
fn test_threshold_of_one_is_plain_data() {
    let options = ShamirScheme::new(1, 8);
    let secret_bytes = [42, 32];

    let shards = encode(&options, &secret_bytes);

    for s in &shards {
        assert_eq!([42, 32], s.data());
    }
}

#[test]
fn test_single_byte() {
    let secret_byte = 42u8;
    let options = ShamirScheme::new(2, 2);

    let encoded_bytes = encode_byte(&options, secret_byte);

    println!("{:?}", encoded_bytes);

    let lut = GF::get_inverse_lut();
    let decoded_poly =
        decode_byte(&[1, 2], &[encoded_bytes[0].1, encoded_bytes[1].1], &lut).unwrap();
    assert_eq!(42, decoded_poly);
}

#[test]
fn test_all_unencrypted_data() {
    let options = ShamirScheme::new(2, 2);

    let secret = "a".repeat(100);
    let secret_bytes = secret.as_bytes();

    let shards = encode(&options, &secret_bytes);

    for s in &shards {
        println!("{}", s.to_string());
    }

    assert_ne!(&secret_bytes[0..50], &shards[0].data()[0..50]);
    assert_ne!(&secret_bytes[0..50], &shards[1].data()[0..50]);
    assert_ne!(&shards[0].data()[0..50], &shards[1].data()[0..50]);

    assert_ne!(&secret_bytes[50..], &shards[0].data()[50..]);
    assert_ne!(&secret_bytes[50..], &shards[1].data()[50..]);
    assert_ne!(&shards[0].data()[50..], &shards[1].data()[50..]);
}

#[test]
fn the_scheme_keeps_its_numbers() {
    let options = ShamirScheme::new(3, 8);
    assert_eq!(3, options.threshold);
    assert_eq!(8, options.num_shards);
}

#[test]
fn shards_come_in_the_order_of_their_indices() {
    let options = ShamirScheme::new(4, 9);
    let shards = encode(&options, b"some secret");
    assert_eq!(9, shards.len());
    for (j, shard) in shards.iter().enumerate() {
        assert_eq!((j + 1) as u8, shard.num());
        assert_eq!(Some(9), shard.poolsize());
        assert_eq!(11, shard.data().len());
    }
}

#[test]
fn an_empty_secret_gives_empty_shards() {
    let options = ShamirScheme::new(2, 3);
    let shards = encode(&options, &[]);
    assert_eq!(3, shards.len());
    for shard in &shards {
        assert!(shard.data().is_empty());
    }
    assert_eq!(Vec::<u8>::new(), decode(&shards).unwrap());
}

#[test]
fn no_shards_are_made_where_none_are_asked_for() {
    let options = ShamirScheme::new(2, 0);
    assert!(encode(&options, b"secret").is_empty());
    assert!(encode_byte(&options, 42).is_empty());
}

#[test]
fn a_threshold_of_zero_is_a_threshold_of_one() {
    let options = ShamirScheme::new(0, 4);
    for shard in encode(&options, b"plain") {
        assert_eq!(b"plain", shard.data());
    }
}

#[test]
fn values_of_a_known_polynomial() {
    let poly = GfPoly::new(&vec![65, 200, 17]);
    let shares = poly_shares(&poly, 5);
    assert_eq!(vec![(1, 152), (2, 142), (3, 87), (4, 71), (5, 158)], shares);
    let poly = GfPoly::new(&vec![42, 7]);
    assert_eq!(vec![(1, 45), (2, 36), (3, 35)], poly_shares(&poly, 3));
    assert!(poly_shares(&poly, 0).is_empty());
    assert_eq!(255, poly_shares(&poly, 255).len());
}

#[test]
fn interpolation_of_known_values() {
    let lut = GF::get_inverse_lut();
    // 65 + 200 x + 17 x^2 at the points 1 to 5
    assert_eq!(65, decode_byte(&[1, 2, 3], &[152, 142, 87], &lut).unwrap());
    assert_eq!(65, decode_byte(&[5, 2, 4], &[158, 142, 71], &lut).unwrap());
    assert_eq!(65, decode_byte(&[1, 2, 3, 4, 5], &[152, 142, 87, 71, 158], &lut).unwrap());
    // two points are too few for it
    assert_eq!(99, decode_byte(&[1, 2], &[152, 142], &lut).unwrap());
    assert_eq!(0, decode_byte(&[1, 2, 3], &[10, 20, 30], &lut).unwrap());
    assert_eq!(99, decode_byte(&[7], &[99], &lut).unwrap());
    assert_eq!(0, decode_byte(&[], &[], &lut).unwrap());
}

#[test]
fn equal_points_divide_by_zero() {
    let lut = GF::get_inverse_lut();
    assert_eq!(
        ErrKind::DivisionByZero,
        decode_byte(&[1, 2, 1], &[5, 6, 7], &lut).unwrap_err().kind
    );
    assert_eq!(
        ErrKind::DivisionByZero,
        decode_byte(&[3, 3], &[5, 5], &lut).unwrap_err().kind
    );
}

fn copy_of(shard: &SsssShard) -> SsssShard {
    SsssShard::new(shard.poolsize().unwrap_or(0), shard.num(), shard.data().to_vec())
}

#[test]
fn any_three_of_five_reconstruct() {
    let options = ShamirScheme::new(3, 5);
    let secret = b"any three of the five will do".to_vec();
    let shards = encode(&options, &secret);
    for a in 0..5 {
        for b in 0..5 {
            for c in 0..5 {
                if a != b && b != c && a != c {
                    let picked =
                        vec![copy_of(&shards[a]), copy_of(&shards[b]), copy_of(&shards[c])];
                    assert_eq!(secret, decode(&picked).unwrap());
                }
            }
        }
    }
    let four = vec![
        copy_of(&shards[4]),
        copy_of(&shards[0]),
        copy_of(&shards[2]),
        copy_of(&shards[1]),
    ];
    assert_eq!(secret, decode(&four).unwrap());
    assert_eq!(secret, decode(&shards).unwrap());
}

#[test]
fn the_largest_scheme_reconstructs() {
    let options = ShamirScheme::new(255, 255);
    let secret = vec![1u8, 2, 3, 0, 255];
    let shards = encode(&options, &secret);
    assert_eq!(255, shards.len());
    assert_eq!(secret, decode(&shards).unwrap());
}

#[test]
fn shards_reconstruct_after_a_trip_through_text() {
    let options = ShamirScheme::new(2, 3);
    let secret = b"through text and back".to_vec();
    let shards = encode(&options, &secret);
    let parsed: Vec<SsssShard> =
        shards.iter().map(|s| SsssShard::parse(&s.to_string()).unwrap()).collect();
    assert_eq!(secret, decode(&parsed[1..3]).unwrap());
}

#[test]
fn too_few_shards_give_something_else() {
    let options = ShamirScheme::new(3, 5);
    let mut rng = rand::thread_rng();
    let mut secret = vec![0; 64];
    rng.fill_bytes(&mut secret);
    let shards = encode(&options, &secret);
    let rebuilt = decode(&shards[0..2]).unwrap();
    assert_eq!(secret.len(), rebuilt.len());
    assert_ne!(secret, rebuilt);
}

#[test]
fn two_shards_with_one_index_divide_by_zero() {
    let options = ShamirScheme::new(2, 4);
    let shards = encode(&options, b"secret");
    let picked = vec![copy_of(&shards[0]), copy_of(&shards[2]), copy_of(&shards[0])];
    assert_eq!(ErrKind::DivisionByZero, decode(&picked).unwrap_err().kind);
    let twice = vec![copy_of(&shards[1]), copy_of(&shards[1])];
    assert_eq!(ErrKind::DivisionByZero, decode(&twice).unwrap_err().kind);
}

#[test]
fn empty_shards_with_one_index_reconstruct_nothing() {
    let picked = vec![SsssShard::new(2, 1, vec![]), SsssShard::new(2, 1, vec![])];
    assert_eq!(Vec::<u8>::new(), decode(&picked).unwrap());
}

#[test]
fn shards_of_different_lengths_are_refused() {
    let picked = vec![SsssShard::new(2, 1, vec![1, 2, 3]), SsssShard::new(2, 2, vec![1, 2])];
    assert_eq!(ErrKind::LengthMismatch, decode(&picked).unwrap_err().kind);
    let picked = vec![SsssShard::new(2, 1, vec![1, 2]), SsssShard::new(2, 2, vec![1, 2, 3])];
    assert_eq!(ErrKind::LengthMismatch, decode(&picked).unwrap_err().kind);
    // the lengths are looked at before the indices
    let picked = vec![SsssShard::new(2, 1, vec![1, 2]), SsssShard::new(2, 1, vec![1])];
    assert_eq!(ErrKind::LengthMismatch, decode(&picked).unwrap_err().kind);
}

#[test]
fn one_shard_of_threshold_one_is_the_secret() {
    let picked = vec![SsssShard::new(1, 1, vec![9, 8, 7])];
    assert_eq!(vec![9, 8, 7], decode(&picked).unwrap());
}

#[test]
fn one_table_serves_many_reconstructions() {
    let lut = GF::get_inverse_lut();
    let options = ShamirScheme::new(2, 3);
    for secret in [b"first".to_vec(), b"second".to_vec(), vec![]] {
        let shards = encode(&options, &secret);
        assert_eq!(secret, decode_with_lut(&shards[1..3], &lut).unwrap());
        assert_eq!(decode(&shards).unwrap(), decode_with_lut(&shards, &lut).unwrap());
    }
    let twice = vec![SsssShard::new(2, 1, vec![1]), SsssShard::new(2, 1, vec![1])];
    assert_eq!(ErrKind::DivisionByZero, decode_with_lut(&twice, &lut).unwrap_err().kind);
}
