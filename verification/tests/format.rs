//! Wire-format tests: round trips, and byte-for-byte agreement with the
//! reference OpenTimestamps implementation.

use std::io::Cursor;

use ots_client::attestation::Attestation;
use ots_client::op::Op;
use ots_client::ser::{DetachedTimestampFile, DigestType, serialize_timestamp,
    deserialize_timestamp};
use ots_client::timestamp::{Step, StepData, Timestamp};

fn sample_file() -> DetachedTimestampFile {
    let digest: Vec<u8> = (0u8..32).collect();
    let salted = Op::Append(vec![9, 9, 9, 9]).execute(&digest);
    let hashed = Op::Sha256.execute(&salted);
    let att = Step {
        data: StepData::Attestation(Attestation::Bitcoin { height: 123456 }),
        output: hashed.clone(),
        next: vec![],
    };
    let pend = Step {
        data: StepData::Attestation(Attestation::Pending {
            uri: String::from("https://alice.btc.calendar.opentimestamps.org"),
        }),
        output: hashed.clone(),
        next: vec![],
    };
    let fork = Step {
        data: StepData::Fork,
        output: hashed.clone(),
        next: vec![att, pend],
    };
    let sha = Step {
        data: StepData::Op(Op::Sha256),
        output: hashed,
        next: vec![fork],
    };
    let first = Step {
        data: StepData::Op(Op::Append(vec![9, 9, 9, 9])),
        output: salted,
        next: vec![sha],
    };
    DetachedTimestampFile {
        digest_type: DigestType::Sha256,
        timestamp: Timestamp { start_digest: digest, first_step: first },
    }
}

fn deep_eq_step(a: &Step, b: &Step) -> bool {
    let data_eq = match (&a.data, &b.data) {
        (StepData::Fork, StepData::Fork) => true,
        (StepData::Op(x), StepData::Op(y)) => op_repr(x) == op_repr(y),
        (StepData::Attestation(x), StepData::Attestation(y)) => att_repr(x) == att_repr(y),
        _ => false,
    };
    data_eq && a.output == b.output && a.next.len() == b.next.len() && a
        .next
        .iter()
        .zip(b.next.iter())
        .all(|(x, y)| deep_eq_step(x, y))
}

fn op_repr(op: &Op) -> (u8, Vec<u8>) {
    match op {
        Op::Sha1 => (0x02, vec![]),
        Op::Sha256 => (0x08, vec![]),
        Op::Ripemd160 => (0x03, vec![]),
        Op::Hexlify => (0xf3, vec![]),
        Op::Reverse => (0xf2, vec![]),
        Op::Append(d) => (0xf0, d.clone()),
        Op::Prepend(d) => (0xf1, d.clone()),
    }
}

fn att_repr(a: &Attestation) -> (u8, Vec<u8>, Vec<u8>) {
    match a {
        Attestation::Bitcoin { height } => (0, height.to_le_bytes().to_vec(), vec![]),
        Attestation::Pending { uri } => (1, uri.as_bytes().to_vec(), vec![]),
        Attestation::Unknown { tag, data } => (2, tag.clone(), data.clone()),
    }
}

#[test]
fn file_round_trip_is_identity() {
    let file = sample_file();
    assert!(file.is_serializable());
    let bytes = file.to_vec();
    let back = DetachedTimestampFile::from_vec(&bytes).expect("round trip parses");
    assert!(matches!(back.digest_type, DigestType::Sha256));
    assert_eq!(back.timestamp.start_digest, file.timestamp.start_digest);
    assert!(deep_eq_step(&back.timestamp.first_step, &file.timestamp.first_step));
    let bytes2 = back.to_vec();
    assert_eq!(bytes, bytes2);
}

#[test]
fn wire_bytes_match_reference_implementation() {
    let file = sample_file();
    let bytes = file.to_vec();
    let theirs = opentimestamps::DetachedTimestampFile::from_reader(Cursor::new(bytes.clone()))
        .expect("reference implementation parses our bytes");
    let mut rewritten = Vec::new();
    theirs.to_writer(&mut rewritten).expect("reference implementation rewrites");
    assert_eq!(bytes, rewritten);
}

#[test]
fn reference_bytes_parse_here() {
    let digest: Vec<u8> = (100u8..120).collect();
    let theirs = opentimestamps::DetachedTimestampFile {
        digest_type: opentimestamps::ser::DigestType::Sha1,
        timestamp: opentimestamps::Timestamp {
            start_digest: digest.clone(),
            first_step: opentimestamps::timestamp::Step {
                data: opentimestamps::timestamp::StepData::Op(
                    opentimestamps::op::Op::Prepend(vec![1, 2, 3]),
                ),
                output: opentimestamps::op::Op::Prepend(vec![1, 2, 3]).execute(&digest),
                next: vec![opentimestamps::timestamp::Step {
                    data: opentimestamps::timestamp::StepData::Attestation(
                        opentimestamps::attestation::Attestation::Unknown {
                            tag: vec![1, 2, 3, 4, 5, 6, 7, 8],
                            data: vec![42],
                        },
                    ),
                    output: opentimestamps::op::Op::Prepend(vec![1, 2, 3]).execute(&digest),
                    next: vec![],
                }],
            },
        },
    };
    let mut bytes = Vec::new();
    theirs.to_writer(&mut bytes).expect("reference writes");
    let mine = DetachedTimestampFile::from_vec(&bytes).expect("we parse reference bytes");
    assert!(matches!(mine.digest_type, DigestType::Sha1));
    assert_eq!(mine.timestamp.start_digest, digest);
    let rewritten = mine.to_vec();
    assert_eq!(bytes, rewritten);
}

#[test]
fn malformed_input_is_rejected() {
    let empty: Vec<u8> = vec![];
    assert!(DetachedTimestampFile::from_vec(&empty).is_err());
    let garbage: Vec<u8> = vec![0xde, 0xad, 0xbe, 0xef];
    assert!(DetachedTimestampFile::from_vec(&garbage).is_err());
    let mut bytes = sample_file().to_vec();
    bytes.push(0x00);
    assert!(DetachedTimestampFile::from_vec(&bytes).is_err(), "trailing byte must be rejected");
    let mut short = sample_file().to_vec();
    short.pop();
    assert!(DetachedTimestampFile::from_vec(&short).is_err(), "truncated file must be rejected");
}

#[test]
fn fragment_round_trip() {
    let tip: Vec<u8> = (7u8..39).collect();
    let frag = Timestamp {
        start_digest: tip.clone(),
        first_step: Step {
            data: StepData::Attestation(Attestation::Pending {
                uri: String::from("https://finney.calendar.eternitywall.com"),
            }),
            output: tip.clone(),
            next: vec![],
        },
    };
    let bytes = serialize_timestamp(&frag);
    let back = deserialize_timestamp(&bytes, tip.clone()).expect("fragment parses");
    assert_eq!(back.start_digest, tip);
    assert!(deep_eq_step(&back.first_step, &frag.first_step));
}

#[test]
fn hex_encoding_matches_hex_crate() {
    let data: Vec<u8> = vec![0x00, 0x0f, 0xf0, 0xff, 0x12, 0xab];
    let mine = ots_client::hexs::hex_string(&data);
    assert_eq!(mine, hex::encode(&data));
    let decoded = ots_client::hexs::hex_decode(&mine).expect("valid hex decodes");
    assert_eq!(decoded, data);
    assert!(ots_client::hexs::hex_decode("abc").is_none(), "odd length");
    assert!(ots_client::hexs::hex_decode("zz").is_none(), "bad digit");
}

#[test]
fn op_execute_matches_reference() {
    let input: Vec<u8> = (0u8..40).collect();
    let cases: Vec<(Op, opentimestamps::op::Op)> = vec![
        (Op::Sha1, opentimestamps::op::Op::Sha1),
        (Op::Sha256, opentimestamps::op::Op::Sha256),
        (Op::Ripemd160, opentimestamps::op::Op::Ripemd160),
        (Op::Hexlify, opentimestamps::op::Op::Hexlify),
        (Op::Reverse, opentimestamps::op::Op::Reverse),
        (Op::Append(vec![1, 2]), opentimestamps::op::Op::Append(vec![1, 2])),
        (Op::Prepend(vec![3]), opentimestamps::op::Op::Prepend(vec![3])),
    ];
    for (mine, theirs) in cases {
        assert_eq!(mine.execute(&input), theirs.execute(&input));
    }
}

#[test]
fn sha256_known_vector() {
    let input: Vec<u8> = b"abc".to_vec();
    let digest = Op::Sha256.execute(&input);
    assert_eq!(
        hex::encode(&digest),
        "ba7816bf8f01cfea414140de5dae2223b00361a396177a9cb410ff61f20015ad"
    );
    let empty: Vec<u8> = vec![];
    assert_eq!(
        hex::encode(&Op::Sha1.execute(&empty)),
        "da39a3ee5e6b4b0d3255bfef95601890afd80709"
    );
    assert_eq!(
        hex::encode(&Op::Ripemd160.execute(&empty)),
        "9c1185a5c5e9fc54612808977ee8f548b2258d31"
    );
}

#[test]
fn large_heights_round_trip() {
    for height in [0usize, 1, 127, 128, 16384, 838000, usize::MAX] {
        let tip: Vec<u8> = (0u8..32).collect();
        let frag = Timestamp {
            start_digest: tip.clone(),
            first_step: Step {
                data: StepData::Attestation(Attestation::Bitcoin { height }),
                output: tip.clone(),
                next: vec![],
            },
        };
        let bytes = serialize_timestamp(&frag);
        let back = deserialize_timestamp(&bytes, tip).expect("height round trips");
        match back.first_step.data {
            StepData::Attestation(Attestation::Bitcoin { height: h }) => assert_eq!(h, height),
            _ => panic!("expected a bitcoin attestation"),
        }
    }
}

#[test]
fn uri_length_limit_is_enforced() {
    let tip: Vec<u8> = (0u8..32).collect();
    let long_uri = "a".repeat(1000);
    let frag = Timestamp {
        start_digest: tip.clone(),
        first_step: Step {
            data: StepData::Attestation(Attestation::Pending { uri: long_uri.clone() }),
            output: tip.clone(),
            next: vec![],
        },
    };
    let bytes = serialize_timestamp(&frag);
    assert!(deserialize_timestamp(&bytes, tip.clone()).is_ok(), "1000 characters are accepted");

    let too_long = Timestamp {
        start_digest: tip.clone(),
        first_step: Step {
            data: StepData::Attestation(Attestation::Pending { uri: "a".repeat(1001) }),
            output: tip.clone(),
            next: vec![],
        },
    };
    let bytes = serialize_timestamp(&too_long);
    assert!(deserialize_timestamp(&bytes, tip.clone()).is_err(), "1001 characters are rejected");

    let bad_chars = Timestamp {
        start_digest: tip.clone(),
        first_step: Step {
            data: StepData::Attestation(Attestation::Pending {
                uri: String::from("https://a.pool.opentimestamps.org/?x=1"),
            }),
            output: tip.clone(),
            next: vec![],
        },
    };
    let bytes = serialize_timestamp(&bad_chars);
    assert!(deserialize_timestamp(&bytes, tip).is_err(), "a query string is outside the charset");
}
