//! End-to-end scenarios: stamping against mock calendars, upgrading a
//! pending attestation, and verifying against a synthetic block header.

use ots_client::attestation::Attestation;
use ots_client::client::{
    stamps, stamp_tip, make_nonces, verify, verify_against_blockheader, upgrade,
    pending_attestations, bitcoin_attestation, BlockHeader, Calendar,
};
use ots_client::error::Error;
use ots_client::op::Op;
use ots_client::ser::{DetachedTimestampFile, DigestType, serialize_timestamp,
    deserialize_timestamp};
use ots_client::timestamp::{Step, StepData, Timestamp};

fn bitcoin_fragment(tip: &Vec<u8>, height: usize) -> Vec<u8> {
    let frag = Timestamp {
        start_digest: tip.clone(),
        first_step: Step {
            data: StepData::Attestation(Attestation::Bitcoin { height }),
            output: tip.clone(),
            next: vec![],
        },
    };
    serialize_timestamp(&frag)
}

fn pending_fragment(tip: &Vec<u8>, uri: &str) -> Vec<u8> {
    let frag = Timestamp {
        start_digest: tip.clone(),
        first_step: Step {
            data: StepData::Attestation(Attestation::Pending { uri: String::from(uri) }),
            output: tip.clone(),
            next: vec![],
        },
    };
    serialize_timestamp(&frag)
}

fn has_fork(step: &Step) -> bool {
    matches!(step.data, StepData::Fork) || step.next.iter().any(has_fork)
}

/// Stamp three digests with one mock calendar that immediately returns a
/// Bitcoin attestation; every resulting file verifies against a mock
/// block source whose header carries the matching Merkle root.
#[test]
fn stamp_three_digests_with_immediate_bitcoin_calendar() {
    let digests: Vec<Vec<u8>> = (0..3).map(|i| Op::Sha256.execute(&vec![i as u8; 5])).collect();
    let nonces = make_nonces(digests.len());
    let tip = stamp_tip(&digests, &nonces);
    let responses = vec![bitcoin_fragment(&tip, 100)];
    let files = stamps(&digests, DigestType::Sha256, &nonces, &responses).expect("one calendar");
    assert_eq!(files.len(), 3);
    for (i, file) in files.iter().enumerate() {
        assert_eq!(file.timestamp.start_digest, digests[i]);
        let (commitment, height) = bitcoin_attestation(file).expect("bitcoin attestation present");
        assert_eq!(height, 100);
        assert_eq!(commitment, tip);
        let header = BlockHeader { merkle_root: tip.clone(), time: 1700000000 };
        let result = verify(file, &header).expect("verifies");
        assert_eq!(result.height, 100);
        assert_eq!(result.time, 1700000000);
        // The files survive a trip through the wire format.
        assert!(file.is_serializable());
        let bytes = file.to_vec();
        let back = DetachedTimestampFile::from_vec(&bytes).expect("parses back");
        let (c2, h2) = bitcoin_attestation(&back).expect("attestation survives");
        assert_eq!((c2, h2), (tip.clone(), 100));
    }
}

/// Stamp one digest against two calendars, one pending and one failing:
/// the resulting timestamp has exactly one branch — no fork — ending in
/// the pending attestation.
#[test]
fn stamp_one_digest_one_calendar_succeeds_no_fork() {
    let digests: Vec<Vec<u8>> = vec![Op::Sha256.execute(&vec![7u8; 9])];
    let nonces = make_nonces(1);
    let tip = stamp_tip(&digests, &nonces);
    let uri_a = "https://a.pool.opentimestamps.org";
    let responses = vec![
        pending_fragment(&tip, uri_a),
        vec![0xde, 0xad],  // this calendar failed: its body does not parse
    ];
    let files = stamps(&digests, DigestType::Sha256, &nonces, &responses).expect("one succeeded");
    assert_eq!(files.len(), 1);
    let file = &files[0];
    assert!(!has_fork(&file.timestamp.first_step), "a single calendar answer is used as-is");
    let atts = file.timestamp.all_attestations();
    assert_eq!(atts.len(), 1);
    assert_eq!(atts[0].0, tip);
    match &atts[0].1 {
        Attestation::Pending { uri } => assert_eq!(uri, uri_a),
        other => panic!("expected a pending attestation, got {:?}", att_kind(other)),
    }
}

fn att_kind(a: &Attestation) -> &'static str {
    match a {
        Attestation::Bitcoin { .. } => "bitcoin",
        Attestation::Pending { .. } => "pending",
        Attestation::Unknown { .. } => "unknown",
    }
}

/// Two successful calendars are wrapped under one fork at the tip.
#[test]
fn stamp_with_two_successful_calendars_forks() {
    let digests: Vec<Vec<u8>> = vec![Op::Sha256.execute(&vec![8u8; 4])];
    let nonces = make_nonces(1);
    let tip = stamp_tip(&digests, &nonces);
    let responses = vec![
        pending_fragment(&tip, "https://a.pool.opentimestamps.org"),
        pending_fragment(&tip, "https://b.pool.opentimestamps.org"),
    ];
    let files = stamps(&digests, DigestType::Sha256, &nonces, &responses).expect("both succeeded");
    assert!(has_fork(&files[0].timestamp.first_step), "two answers fork");
    assert_eq!(files[0].timestamp.all_attestations().len(), 2);
}

/// When every calendar fails the stamp fails with the dedicated error.
#[test]
fn stamp_fails_when_all_calendars_fail() {
    let digests: Vec<Vec<u8>> = vec![Op::Sha256.execute(&vec![1u8; 3])];
    let nonces = make_nonces(1);
    let responses: Vec<Vec<u8>> = vec![vec![], vec![0xff]];
    match stamps(&digests, DigestType::Sha256, &nonces, &responses) {
        Err(Error::NoCalendarAvailable) => {},
        _ => panic!("expected NoCalendarAvailable"),
    }
}

/// Upgrade a file whose pending attestation's calendar now answers with
/// a Bitcoin attestation: the pending leaf is superseded.
#[test]
fn upgrade_replaces_pending_with_bitcoin() {
    let digests: Vec<Vec<u8>> = vec![Op::Sha256.execute(&vec![3u8; 6])];
    let nonces = make_nonces(1);
    let tip = stamp_tip(&digests, &nonces);
    let uri_a = "https://a.pool.opentimestamps.org";
    let responses = vec![pending_fragment(&tip, uri_a)];
    let mut files = stamps(&digests, DigestType::Sha256, &nonces, &responses).expect("stamped");
    let mut file = files.remove(0);

    let pendings = pending_attestations(&file, &None);
    assert_eq!(pendings.len(), 1);
    assert_eq!(pendings[0].0, tip);
    assert_eq!(pendings[0].1, uri_a);

    // The calendar at uri_a now answers with a Bitcoin attestation for
    // the same commitment.
    let answer = bitcoin_fragment(&pendings[0].0, 200);
    let fragment = deserialize_timestamp(&answer, pendings[0].0.clone()).expect("answer parses");
    upgrade(&mut file, &vec![fragment]);

    let atts = file.timestamp.all_attestations();
    let mut saw_bitcoin = false;
    for (commitment, att) in &atts {
        match att {
            Attestation::Bitcoin { height } => {
                assert_eq!(*height, 200);
                assert_eq!(commitment, &tip);
                saw_bitcoin = true;
            },
            Attestation::Pending { .. } => {
                panic!("the pending attestation at that digest must be gone");
            },
            Attestation::Unknown { .. } => {},
        }
    }
    assert!(saw_bitcoin);
    assert!(pending_attestations(&file, &None).is_empty());
}

/// An allow-list keeps upgrades away from other calendars.
#[test]
fn upgrade_allow_list_filters_calendars() {
    let tip: Vec<u8> = (50u8..82).collect();
    let file = DetachedTimestampFile {
        digest_type: DigestType::Sha256,
        timestamp: Timestamp {
            start_digest: tip.clone(),
            first_step: Step {
                data: StepData::Attestation(Attestation::Pending {
                    uri: String::from("https://a.pool.opentimestamps.org"),
                }),
                output: tip.clone(),
                next: vec![],
            },
        },
    };
    let allowed = Some(vec![String::from("https://a.pool.opentimestamps.org")]);
    assert_eq!(pending_attestations(&file, &allowed).len(), 1);
    let other = Some(vec![String::from("https://b.pool.opentimestamps.org")]);
    assert!(pending_attestations(&file, &other).is_empty());
}

/// Verification against a synthetic block header: a matching Merkle root
/// succeeds with the header's height and time; one flipped byte of the
/// commitment fails with a digest mismatch.
#[test]
fn verify_against_synthetic_header() {
    let commitment: Vec<u8> = (0u8..32).collect();
    let file = DetachedTimestampFile {
        digest_type: DigestType::Sha256,
        timestamp: Timestamp {
            start_digest: commitment.clone(),
            first_step: Step {
                data: StepData::Attestation(Attestation::Bitcoin { height: 77 }),
                output: commitment.clone(),
                next: vec![],
            },
        },
    };
    let header = BlockHeader { merkle_root: commitment.clone(), time: 1500000000 };
    let ok = verify(&file, &header).expect("matching root verifies");
    assert_eq!(ok.height, 77);
    assert_eq!(ok.time, 1500000000);

    let mut mutated = commitment.clone();
    mutated[0] ^= 1;
    let bad_header = BlockHeader { merkle_root: mutated, time: 1500000000 };
    match verify(&file, &bad_header) {
        Err(Error::DigestMismatch) => {},
        _ => panic!("expected DigestMismatch"),
    }
    assert!(matches!(
        verify_against_blockheader(&commitment, &header),
        Ok(1500000000)
    ));
}

/// A file without a Bitcoin attestation cannot be verified.
#[test]
fn verify_without_bitcoin_attestation_fails() {
    let commitment: Vec<u8> = (0u8..32).collect();
    let file = DetachedTimestampFile {
        digest_type: DigestType::Sha256,
        timestamp: Timestamp {
            start_digest: commitment.clone(),
            first_step: Step {
                data: StepData::Attestation(Attestation::Pending {
                    uri: String::from("https://a.pool.opentimestamps.org"),
                }),
                output: commitment.clone(),
                next: vec![],
            },
        },
    };
    let header = BlockHeader { merkle_root: commitment.clone(), time: 0 };
    match verify(&file, &header) {
        Err(Error::NoAttestationFound) => {},
        _ => panic!("expected NoAttestationFound"),
    }
}

#[test]
fn calendar_urls() {
    let cal = Calendar { url: String::from("https://a.pool.opentimestamps.org"), timeout: Some(5) };
    assert_eq!(cal.submit_url(), "https://a.pool.opentimestamps.org/digest");
    let commitment: Vec<u8> = vec![0xab, 0xcd];
    assert_eq!(
        cal.timestamp_url(&commitment),
        "https://a.pool.opentimestamps.org/timestamp/abcd"
    );
}

#[test]
fn parse_duration_cases() {
    assert_eq!(ots_client::client::parse_duration("5"), Some(5));
    assert_eq!(ots_client::client::parse_duration("0"), Some(0));
    assert_eq!(ots_client::client::parse_duration("18446744073709551615"), Some(u64::MAX));
    assert_eq!(ots_client::client::parse_duration("18446744073709551616"), None);
    assert_eq!(ots_client::client::parse_duration(""), None);
    assert_eq!(ots_client::client::parse_duration("12a"), None);
    assert_eq!(ots_client::client::parse_duration("-3"), None);
}

/// Merging the same fragment twice leaves the attestation map as one
/// merge left it.
#[test]
fn merge_twice_keeps_attestations() {
    let tip: Vec<u8> = (10u8..42).collect();
    let mut ts = Timestamp {
        start_digest: tip.clone(),
        first_step: Step {
            data: StepData::Op(Op::Sha256),
            output: Op::Sha256.execute(&tip),
            next: vec![],
        },
    };
    let out = Op::Sha256.execute(&tip);
    let frag = Timestamp {
        start_digest: out.clone(),
        first_step: Step {
            data: StepData::Attestation(Attestation::Bitcoin { height: 321 }),
            output: out.clone(),
            next: vec![],
        },
    };
    ts.merge(frag.duplicate());
    let once = ts.all_attestations();
    ts.merge(frag.duplicate());
    let twice = ts.all_attestations();
    let last = |v: &Vec<(Vec<u8>, Attestation)>, key: &Vec<u8>| -> Option<usize> {
        v.iter().rev().find(|p| &p.0 == key).map(|p| match &p.1 {
            Attestation::Bitcoin { height } => *height,
            _ => usize::MAX,
        })
    };
    assert_eq!(last(&once, &out), Some(321));
    assert_eq!(last(&twice, &out), Some(321));
}

#[test]
fn default_calendar_table() {
    let cals = ots_client::client::default_calendars(Some(5));
    assert_eq!(cals.len(), 3);
    assert_eq!(cals[0].url, "https://a.pool.opentimestamps.org");
    assert_eq!(cals[1].url, "https://b.pool.opentimestamps.org");
    assert_eq!(cals[2].url, "https://finney.calendar.eternitywall.com");
    assert!(cals.iter().all(|c| c.timeout == Some(5)));
}

/// At a step the fragment matches, merging keeps the operation and fork
/// branches while every stale attestation child is superseded by the
/// fragment.
#[test]
fn merge_supersedes_attestation_children() {
    let d: Vec<u8> = (0u8..32).collect();
    let op_out = Op::Sha256.execute(&d);
    let op_branch = Step {
        data: StepData::Op(Op::Sha256),
        output: op_out.clone(),
        next: vec![Step {
            data: StepData::Attestation(Attestation::Bitcoin { height: 42 }),
            output: op_out.clone(),
            next: vec![],
        }],
    };
    let pending = Step {
        data: StepData::Attestation(Attestation::Pending {
            uri: String::from("https://a.pool.opentimestamps.org"),
        }),
        output: d.clone(),
        next: vec![],
    };
    let resolved = Step {
        data: StepData::Attestation(Attestation::Bitcoin { height: 7 }),
        output: d.clone(),
        next: vec![],
    };
    let mut ts = Timestamp {
        start_digest: d.clone(),
        first_step: Step {
            data: StepData::Fork,
            output: d.clone(),
            next: vec![pending, op_branch, resolved],
        },
    };
    let fragment = Timestamp {
        start_digest: d.clone(),
        first_step: Step {
            data: StepData::Attestation(Attestation::Bitcoin { height: 100 }),
            output: d.clone(),
            next: vec![],
        },
    };
    ts.merge(fragment);
    let root = &ts.first_step;
    // Both attestation children are gone; the op branch and the new
    // fragment remain, in that order.
    assert_eq!(root.next.len(), 2);
    assert!(matches!(root.next[0].data, StepData::Op(Op::Sha256)));
    assert!(matches!(
        root.next[1].data,
        StepData::Attestation(Attestation::Bitcoin { height: 100 })
    ));
    // The computation branch kept its own deeper attestation: only the
    // attestation children of the matching step itself are superseded.
    assert!(matches!(
        root.next[0].next[0].data,
        StepData::Attestation(Attestation::Bitcoin { height: 42 })
    ));
}

/// An upgrade supersedes the attestation children at the fetched
/// commitment — the pending placeholder and any sibling attestation —
/// while attestations on other computation branches stay untouched.
#[test]
fn upgrade_supersedes_attestations_at_the_commitment() {
    let c: Vec<u8> = (0u8..32).collect();
    let deep_out = Op::Sha256.execute(&c);
    let mut file = DetachedTimestampFile {
        digest_type: DigestType::Sha256,
        timestamp: Timestamp {
            start_digest: c.clone(),
            first_step: Step {
                data: StepData::Fork,
                output: c.clone(),
                next: vec![
                    Step {
                        data: StepData::Op(Op::Sha256),
                        output: deep_out.clone(),
                        next: vec![Step {
                            data: StepData::Attestation(Attestation::Bitcoin { height: 500 }),
                            output: deep_out.clone(),
                            next: vec![],
                        }],
                    },
                    Step {
                        data: StepData::Attestation(Attestation::Pending {
                            uri: String::from("https://a.pool.opentimestamps.org"),
                        }),
                        output: c.clone(),
                        next: vec![],
                    },
                ],
            },
        },
    };
    let answer = bitcoin_fragment(&c, 600);
    let fragment = deserialize_timestamp(&answer, c.clone()).expect("answer parses");
    upgrade(&mut file, &vec![fragment]);
    let heights: Vec<usize> = file
        .timestamp
        .all_attestations()
        .iter()
        .filter_map(|(_, a)| match a {
            Attestation::Bitcoin { height } => Some(*height),
            _ => None,
        })
        .collect();
    assert!(heights.contains(&500), "the attestation on the op branch survives");
    assert!(heights.contains(&600), "the fetched attestation arrives");
    assert!(pending_attestations(&file, &None).is_empty(), "the pending leaf is superseded");
}

/// `cat_new` extends every open branch with the operation applied to
/// that branch's own digest, keeping the hash-chain invariant.
#[test]
fn cat_new_computes_per_leaf_outputs() {
    let d: Vec<u8> = (0u8..32).collect();
    let left_out = Op::Sha256.execute(&d);
    let right_out = Op::Reverse.execute(&d);
    let mut step = Step {
        data: StepData::Fork,
        output: d.clone(),
        next: vec![
            Step { data: StepData::Op(Op::Sha256), output: left_out.clone(), next: vec![] },
            Step { data: StepData::Op(Op::Reverse), output: right_out.clone(), next: vec![] },
        ],
    };
    step.cat_new(Op::Sha256);
    let left_child = &step.next[0].next[0];
    let right_child = &step.next[1].next[0];
    assert!(matches!(left_child.data, StepData::Op(Op::Sha256)));
    assert_eq!(left_child.output, Op::Sha256.execute(&left_out));
    assert_eq!(right_child.output, Op::Sha256.execute(&right_out));
    assert_ne!(left_child.output, right_child.output);
}
