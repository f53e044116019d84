use ssss_rs::err::ErrKind;
use ssss_rs::SsssShard;

const FORMATTED_STRING: &str = "013-QUJDQQ==";

fn example_shard() -> SsssShard {
    SsssShard::new(222, 13, vec![65, 66, 67, 65])
}

#[test]
fn formatting() {
    let formatted = example_shard().to_string();

    assert_eq!(FORMATTED_STRING, formatted)
}

#[test]
fn parsing() {
    let shard: SsssShard = FORMATTED_STRING.parse().unwrap();

    let s = example_shard();
    assert_eq!(s.num(), shard.num());
    assert_eq!(s.data(), shard.data());

    // No need to ascertain shard_poolsize magnitude during parse
    assert_eq!(None, shard.poolsize());
}

#[test]
fn a_new_shard_knows_its_pool() {
    let shard = example_shard();
    assert_eq!(Some(222), shard.poolsize());
    assert_eq!(13, shard.num());
    assert_eq!(&[65, 66, 67, 65], shard.data());
}

#[test]
fn the_index_is_padded_to_the_width_of_the_pool() {
    assert_eq!("5-QQ==", SsssShard::new(10, 5, vec![65]).to_string());
    assert_eq!("05-QQ==", SsssShard::new(11, 5, vec![65]).to_string());
    assert_eq!("05-QQ==", SsssShard::new(100, 5, vec![65]).to_string());
    assert_eq!("005-QQ==", SsssShard::new(101, 5, vec![65]).to_string());
    assert_eq!("005-QQ==", SsssShard::new(255, 5, vec![65]).to_string());
    assert_eq!("1-QQ==", SsssShard::new(1, 1, vec![65]).to_string());
    assert_eq!("1-QQ==", SsssShard::new(0, 1, vec![65]).to_string());
    assert_eq!("0-QQ==", SsssShard::new(0, 0, vec![65]).to_string());
    assert_eq!("255-QQ==", SsssShard::new(2, 255, vec![65]).to_string());
    assert_eq!("100-", SsssShard::new(100, 100, vec![]).to_string());
    assert_eq!("010-", SsssShard::new(200, 10, vec![]).to_string());
}

#[test]
fn a_parsed_shard_is_padded_by_its_index() {
    for (text, index) in [("13-QUJD", 13u8), ("7-QUJD", 7), ("200-QUJD", 200), ("0-QUJD", 0)] {
        let shard = SsssShard::parse(text).unwrap();
        assert_eq!(index, shard.num());
        assert_eq!(text, shard.to_string());
    }
}

#[test]
fn every_index_and_pool_round_trips() {
    let payload = vec![0u8, 1, 2, 250, 251];
    for total in 0..=255u8 {
        for index in 0..=255u8 {
            let text = SsssShard::new(total, index, payload.clone()).to_string();
            let shard = SsssShard::parse(&text).unwrap();
            assert_eq!(index, shard.num());
            assert_eq!(payload.as_slice(), shard.data());
            assert_eq!(None, shard.poolsize());
        }
    }
}

#[test]
fn the_index_may_have_a_sign_and_leading_zeros() {
    assert_eq!(13, SsssShard::parse("+13-QQ==").unwrap().num());
    assert_eq!(13, SsssShard::parse("0000000000000000000013-QQ==").unwrap().num());
    assert_eq!(255, SsssShard::parse("255-").unwrap().num());
    assert_eq!(0, SsssShard::parse("255-").unwrap().data().len());
}

#[test]
fn texts_without_exactly_one_separator_are_malformed() {
    for text in ["", "013", "013QUJDQQ==", "1-2-3", "1--QQ==", "-1-QQ==", "1-QQ==-"] {
        assert_eq!(ErrKind::MalformedShard, SsssShard::parse(text).unwrap_err().kind);
    }
}

#[test]
fn indices_that_are_no_byte_are_invalid() {
    let texts = [
        "-QQ==",
        "x-QQ==",
        "256-QQ==",
        "1000-QQ==",
        "1 -QQ==",
        " 1-QQ==",
        "+-QQ==",
        "1+-QQ==",
        "0x1-QQ==",
        "99999999999999999999999-QQ==",
    ];
    for text in texts {
        assert_eq!(ErrKind::InvalidIndex, SsssShard::parse(text).unwrap_err().kind);
    }
}

#[test]
fn errors_of_the_payload_come_through() {
    assert_eq!(ErrKind::InvalidLength, SsssShard::parse("1-QQ=").unwrap_err().kind);
    assert_eq!(ErrKind::InvalidCharacter, SsssShard::parse("1-QQ!=").unwrap_err().kind);
    // the index is read before the payload
    assert_eq!(ErrKind::InvalidIndex, SsssShard::parse("x-QQ=").unwrap_err().kind);
}

#[test]
fn parse_by_the_trait() {
    let parsed: Result<SsssShard, _> = "nothing".parse();
    assert_eq!(ErrKind::MalformedShard, parsed.unwrap_err().kind);
}
