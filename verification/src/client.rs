//! Orchestration: stamping digests, upgrading pending attestations, and
//! verifying proofs against a block header.
//!
//! All network traffic stays outside this crate: the caller submits the
//! batch tip to its calendars and hands the raw response bodies back;
//! the decisions and the proof-tree work are verified here.

use vstd::prelude::*;
use vstd::string::StringExecFns;
use crate::attestation::{Attestation, AttV};
use crate::error::Error;
use crate::hashes::{sha256, sha256_of, random_nonce};
use crate::hexs::{hex_string, hex_str_of};
use crate::merkle::{
    bytes_view, merkle_root, compute_merkle_root, merkle_path, timestamp_from_merkle, spec_path,
    spec_chain, path_view,
};
use crate::op::{Op, OpV, copy_bytes};
use crate::ser::{DigestType, DetachedTimestampFile, deserialize_timestamp};
use crate::ser::spec_parse_step;
use crate::timestamp::{
    Step, StepData, StepV, StepDataV, Timestamp, TimestampV, step_view, steps_view,
    lemma_steps_view, step_wf, ts_wf, child_ok, spec_merge, spec_roots, spec_roots_list,
    lemma_merge_wf, atts_list,
};

verus! {

/// What a block-header source reports about one block: the Merkle root
/// committed in the header and the header's timestamp.
pub struct BlockHeader {
    /// The Merkle root field of the header.
    pub merkle_root: Vec<u8>,
    /// The header's time field, seconds since the epoch.
    pub time: u32,
}

/// A successful verification: which block attests, and when.
#[derive(Clone, Copy, PartialEq, Eq, Structural, Debug)]
pub struct BitcoinAttestationResult {
    /// The height of the attesting block.
    pub height: u32,
    /// The block header's time field.
    pub time: u32,
}

/// A remote calendar: its base URL and an optional timeout in seconds
/// for talking to it. The transport itself lives with the caller; this
/// type builds the request targets.
pub struct Calendar {
    /// The calendar's base URL.
    pub url: String,
    /// Seconds to wait before giving the calendar up, if bounded.
    pub timeout: Option<u64>,
}

impl Calendar {
    /// The URL a commitment is submitted to.
    pub fn submit_url(&self) -> (r: String)
        ensures
            r@ == self.url@ + "/digest"@,
    {
        self.url.clone().concat("/digest")
    }

    /// The URL a commitment's upgraded timestamp is fetched from.
    pub fn timestamp_url(&self, commitment: &Vec<u8>) -> (r: String)
        requires
            commitment@.len() * 2 <= usize::MAX,
        ensures
            r@ == self.url@ + "/timestamp/"@ + hex_str_of(commitment@),
    {
        let hexed = hex_string(commitment);
        let head = self.url.clone().concat("/timestamp/");
        head.concat(hexed.as_str())
    }
}

/// The well-known public calendars used when none are specified.
pub fn default_calendars(timeout: Option<u64>) -> (r: Vec<Calendar>)
    ensures
        r@.len() == 3,
        r@[0].url@ == "https://a.pool.opentimestamps.org"@,
        r@[1].url@ == "https://b.pool.opentimestamps.org"@,
        r@[2].url@ == "https://finney.calendar.eternitywall.com"@,
        forall|i: int| 0 <= i < r@.len() ==> (#[trigger] r@[i]).timeout == timeout,
{
    let mut out: Vec<Calendar> = Vec::new();
    out.push(Calendar { url: String::from_str("https://a.pool.opentimestamps.org"), timeout });
    out.push(Calendar { url: String::from_str("https://b.pool.opentimestamps.org"), timeout });
    out.push(
        Calendar { url: String::from_str("https://finney.calendar.eternitywall.com"), timeout },
    );
    out
}

/// The salted leaf a digest contributes to the batch tree.
pub open spec fn salted_leaf(digest: Seq<u8>, nonce: Seq<u8>) -> Seq<u8> {
    sha256_of(digest + nonce)
}

/// The salted leaves of a batch, in input order.
pub open spec fn leaf_seq(digests: Seq<Seq<u8>>, nonces: Seq<Seq<u8>>) -> Seq<Seq<u8>> {
    Seq::new(digests.len(), |i: int| salted_leaf(digests[i], nonces[i]))
}

/// The tip a batch commits to: the Merkle root of its salted leaves.
pub open spec fn batch_tip(digests: Seq<Seq<u8>>, nonces: Seq<Seq<u8>>) -> Seq<u8> {
    merkle_root(leaf_seq(digests, nonces))
}

/// The exact tree a freshly stamped digest gets: the nonce-append step,
/// its single SHA-256 child holding the salted leaf, and — when the
/// batch has more than one member — that leaf's Merkle proof chain.
pub open spec fn prepared_first_step(
    digest: Seq<u8>,
    nonce: Seq<u8>,
    leaves: Seq<Seq<u8>>,
    i: int,
) -> StepV {
    let salted = digest + nonce;
    let leaf = sha256_of(salted);
    let cont = if leaves.len() > 1 {
        seq![spec_chain(leaf, spec_path(leaves, i))]
    } else {
        Seq::<StepV>::empty()
    };
    StepV {
        data: StepDataV::Op(OpV::Append(nonce)),
        output: salted,
        next: seq![StepV { data: StepDataV::Op(OpV::Sha256), output: leaf, next: cont }],
    }
}

/// Draws one fresh 16-byte nonce per digest.
pub fn make_nonces(count: usize) -> (r: Vec<Vec<u8>>)
    ensures
        r@.len() == count,
        forall|i: int| 0 <= i < r@.len() ==> (#[trigger] r@[i])@.len() == 16,
{
    let mut out: Vec<Vec<u8>> = Vec::new();
    let mut i: usize = 0;
    while i < count
        invariant
            i <= count,
            out@.len() == i,
            forall|j: int| 0 <= j < out@.len() ==> (#[trigger] out@[j])@.len() == 16,
        decreases count - i,
    {
        out.push(random_nonce());
        i = i + 1;
    }
    out
}

/// Computes the tip that a batch of digests with the given nonces
/// commits to; this is the value submitted to every calendar.
pub fn stamp_tip(digests: &Vec<Vec<u8>>, nonces: &Vec<Vec<u8>>) -> (r: Vec<u8>)
    requires
        digests@.len() >= 1,
        nonces@.len() == digests@.len(),
        forall|i: int| 0 <= i < nonces@.len() ==> (#[trigger] nonces@[i])@.len() == 16,
        forall|i: int| 0 <= i < digests@.len() ==> (#[trigger] digests@[i])@.len() + 16
            <= usize::MAX,
    ensures
        r@ == batch_tip(bytes_view(digests@), bytes_view(nonces@)),
{
    let leaves = salted_leaves(digests, nonces);
    compute_merkle_root(&leaves)
}

/// Computes the salted leaf of every digest.
fn salted_leaves(digests: &Vec<Vec<u8>>, nonces: &Vec<Vec<u8>>) -> (r: Vec<Vec<u8>>)
    requires
        nonces@.len() == digests@.len(),
        forall|i: int| 0 <= i < nonces@.len() ==> (#[trigger] nonces@[i])@.len() == 16,
        forall|i: int| 0 <= i < digests@.len() ==> (#[trigger] digests@[i])@.len() + 16
            <= usize::MAX,
    ensures
        bytes_view(r@) == leaf_seq(bytes_view(digests@), bytes_view(nonces@)),
        r@.len() == digests@.len(),
        forall|i: int|
            0 <= i < r@.len() ==> (#[trigger] r@[i])@ == salted_leaf(digests@[i]@, nonces@[i]@),
        forall|i: int| 0 <= i < r@.len() ==> (#[trigger] r@[i])@.len() == 32,
{
    let mut out: Vec<Vec<u8>> = Vec::new();
    let mut i: usize = 0;
    while i < digests.len()
        invariant
            i <= digests@.len(),
            nonces@.len() == digests@.len(),
            forall|j: int| 0 <= j < nonces@.len() ==> (#[trigger] nonces@[j])@.len() == 16,
            forall|j: int| 0 <= j < digests@.len() ==> (#[trigger] digests@[j])@.len() + 16
                <= usize::MAX,
            out@.len() == i,
            forall|j: int|
                0 <= j < i ==> (#[trigger] out@[j])@ == salted_leaf(digests@[j]@, nonces@[j]@),
            forall|j: int| 0 <= j < out@.len() ==> (#[trigger] out@[j])@.len() == 32,
        decreases digests@.len() - i,
    {
        let mut salted = copy_bytes(&digests[i]);
        let mut tail = copy_bytes(&nonces[i]);
        salted.append(&mut tail);
        proof {
            assert(salted@ =~= digests@[i as int]@ + nonces@[i as int]@);
        }
        out.push(sha256(&salted));
        i = i + 1;
    }
    proof {
        assert(bytes_view(out@) =~= leaf_seq(bytes_view(digests@), bytes_view(nonces@)));
    }
    out
}

/// Builds the per-digest timestamps of a batch: each starts with the
/// nonce-append and SHA-256 salting steps, continued — when the batch
/// has more than one digest — by that digest's Merkle proof chain. Every
/// tree is well-formed and has exactly one dangling tip, whose digest is
/// the batch tip.
pub fn stamp_requests(
    digests: &Vec<Vec<u8>>,
    nonces: &Vec<Vec<u8>>,
    digest_type: DigestType,
) -> (r: (Vec<DetachedTimestampFile>, Vec<u8>))
    requires
        digests@.len() >= 1,
        nonces@.len() == digests@.len(),
        forall|i: int| 0 <= i < nonces@.len() ==> (#[trigger] nonces@[i])@.len() == 16,
        forall|i: int| 0 <= i < digests@.len() ==> (#[trigger] digests@[i])@.len() + 16
            <= usize::MAX,
    ensures
        r.1@ == batch_tip(bytes_view(digests@), bytes_view(nonces@)),
        r.0@.len() == digests@.len(),
        forall|i: int|
            0 <= i < r.0@.len() ==> {
                let f = (#[trigger] r.0@[i])@;
                &&& f.digest_type == digest_type
                &&& f.timestamp.start_digest == digests@[i]@
                &&& ts_wf(f.timestamp)
                &&& f.timestamp.first_step == prepared_first_step(
                    digests@[i]@,
                    nonces@[i]@,
                    leaf_seq(bytes_view(digests@), bytes_view(nonces@)),
                    i,
                )
                &&& spec_roots(f.timestamp.first_step).len() == 1
                &&& spec_roots(f.timestamp.first_step)[0].output == r.1@
            },
{
    let n = digests.len();
    let leaves = salted_leaves(digests, nonces);
    let tip = compute_merkle_root(&leaves);
    let mut files: Vec<DetachedTimestampFile> = Vec::new();
    let mut i: usize = 0;
    while i < n
        invariant
            i <= n,
            n == digests@.len(),
            n >= 1,
            nonces@.len() == n,
            leaves@.len() == n,
            forall|j: int| 0 <= j < nonces@.len() ==> (#[trigger] nonces@[j])@.len() == 16,
            forall|j: int| 0 <= j < digests@.len() ==> (#[trigger] digests@[j])@.len() + 16
                <= usize::MAX,
            forall|j: int|
                0 <= j < n ==> (#[trigger] leaves@[j])@ == salted_leaf(
                    digests@[j]@,
                    nonces@[j]@,
                ),
            forall|j: int| 0 <= j < leaves@.len() ==> (#[trigger] leaves@[j])@.len() == 32,
            bytes_view(leaves@) == leaf_seq(bytes_view(digests@), bytes_view(nonces@)),
            tip@ == batch_tip(bytes_view(digests@), bytes_view(nonces@)),
            files@.len() == i,
            forall|j: int|
                0 <= j < i ==> {
                    let f = (#[trigger] files@[j])@;
                    &&& f.digest_type == digest_type
                    &&& f.timestamp.start_digest == digests@[j]@
                    &&& ts_wf(f.timestamp)
                    &&& f.timestamp.first_step == prepared_first_step(
                        digests@[j]@,
                        nonces@[j]@,
                        leaf_seq(bytes_view(digests@), bytes_view(nonces@)),
                        j,
                    )
                    &&& spec_roots(f.timestamp.first_step).len() == 1
                    &&& spec_roots(f.timestamp.first_step)[0].output == tip@
                },
        decreases n - i,
    {
        let ghost lvs = leaf_seq(bytes_view(digests@), bytes_view(nonces@));
        let continuation: Option<Step> = if n > 1 {
            let path = merkle_path(&leaves, i);
            let chain = timestamp_from_merkle(&leaves[i], &path);
            proof {
                assert(chain@.first_step == spec_chain(leaves@[i as int]@, path_view(path@)));
                assert(path_view(path@) == spec_path(lvs, i as int));
                assert(leaves@[i as int]@ == salted_leaf(digests@[i as int]@, nonces@[i as int]@));
            }
            Some(chain.first_step)
        } else {
            None
        };
        let file = file_timestamp(&digests[i], &nonces[i], digest_type, continuation, &tip);
        proof {
            assert(file@.timestamp.first_step =~= prepared_first_step(
                digests@[i as int]@,
                nonces@[i as int]@,
                lvs,
                i as int,
            ));
        }
        files.push(file);
        i = i + 1;
    }
    (files, tip)
}

/// Builds one digest's timestamp: the nonce-append step, the SHA-256
/// step, and optionally a continuation grafted below them.
fn file_timestamp(
    digest: &Vec<u8>,
    nonce: &Vec<u8>,
    digest_type: DigestType,
    continuation: Option<Step>,
    tip: &Vec<u8>,
) -> (r: DetachedTimestampFile)
    requires
        digest@.len() + nonce@.len() <= usize::MAX,
        match continuation {
            Some(c) => child_ok(salted_leaf(digest@, nonce@), c@) && step_wf(c@) && spec_roots(
                c@,
            ).len() == 1 && spec_roots(c@)[0].output == tip@,
            None => tip@ == salted_leaf(digest@, nonce@),
        },
    ensures
        r@.digest_type == digest_type,
        r@.timestamp.start_digest == digest@,
        ts_wf(r@.timestamp),
        r@.timestamp.first_step == (StepV {
            data: StepDataV::Op(OpV::Append(nonce@)),
            output: digest@ + nonce@,
            next: seq![
                StepV {
                    data: StepDataV::Op(OpV::Sha256),
                    output: salted_leaf(digest@, nonce@),
                    next: (match continuation {
                        Some(c) => seq![c@],
                        None => Seq::<StepV>::empty(),
                    }),
                },
            ],
        }),
        spec_roots(r@.timestamp.first_step).len() == 1,
        spec_roots(r@.timestamp.first_step)[0].output == tip@,
{
    let mut salted = copy_bytes(digest);
    let mut tail = copy_bytes(nonce);
    salted.append(&mut tail);
    proof {
        assert(salted@ =~= digest@ + nonce@);
    }
    let leaf = sha256(&salted);
    let mut sha_children: Vec<Step> = Vec::new();
    let ghost has_cont = continuation is Some;
    let ghost cont_view = match &continuation {
        Some(c) => c@,
        None => StepV { data: StepDataV::Fork, output: Seq::empty(), next: Seq::empty() },
    };
    match continuation {
        Some(c) => {
            sha_children.push(c);
        },
        None => {},
    }
    let ghost gsha_children = sha_children@;
    let sha_step = Step { data: StepData::Op(Op::Sha256), output: leaf, next: sha_children };
    proof {
        lemma_steps_view(gsha_children);
    }
    let mut first_children: Vec<Step> = Vec::new();
    first_children.push(sha_step);
    let ghost gfirst_children = first_children@;
    let first = Step {
        data: StepData::Op(Op::Append(copy_bytes(nonce))),
        output: salted,
        next: first_children,
    };
    proof {
        lemma_steps_view(gfirst_children);
    }
    let r = DetachedTimestampFile {
        digest_type,
        timestamp: Timestamp { start_digest: copy_bytes(digest), first_step: first },
    };
    proof {
        let fs = r@.timestamp.first_step;
        let sha = fs.next[0];
        assert(sha == step_view(gfirst_children[0]));
        assert(sha.output == salted_leaf(digest@, nonce@));
        assert(child_ok(digest@, fs));
        assert(child_ok(fs.output, sha));
        if has_cont {
            assert(sha.next.len() == 1);
            assert(sha.next[0] == cont_view);
            assert(step_wf(sha));
            assert(spec_roots(sha) =~= spec_roots(cont_view)) by {
                assert(spec_roots_list(sha.next) =~= spec_roots(cont_view) + spec_roots_list(
                    sha.next.drop_first(),
                ));
                assert(sha.next.drop_first() =~= Seq::<StepV>::empty());
            }
        } else {
            assert(sha.next.len() == 0);
            assert(step_wf(sha));
            assert(spec_roots(sha) =~= seq![sha]);
        }
        assert(step_wf(fs)) by {
            assert(forall|i: int|
                0 <= i < fs.next.len() ==> #[trigger] fs.next[i] == sha);
        }
        assert(spec_roots(fs) =~= spec_roots(sha)) by {
            assert(spec_roots_list(fs.next) =~= spec_roots(sha) + spec_roots_list(
                fs.next.drop_first(),
            ));
            assert(fs.next.drop_first() =~= Seq::<StepV>::empty());
        }
        assert(fs =~= StepV {
            data: StepDataV::Op(OpV::Append(nonce@)),
            output: digest@ + nonce@,
            next: seq![
                StepV {
                    data: StepDataV::Op(OpV::Sha256),
                    output: salted_leaf(digest@, nonce@),
                    next: (match continuation {
                        Some(c) => seq![c@],
                        None => Seq::<StepV>::empty(),
                    }),
                },
            ],
        });
    }
    r
}

/// The timestamp fragments among the calendar responses that parse as
/// proof trees rooted at the tip, in response order.
pub open spec fn parsed_fragments(rs: Seq<Seq<u8>>, tip: Seq<u8>) -> Seq<StepV>
    decreases rs,
{
    if rs.len() == 0 {
        Seq::empty()
    } else {
        let rest = parsed_fragments(rs.drop_first(), tip);
        match spec_parse_step(rs[0], tip) {
            Some((st, _)) => seq![st] + rest,
            None => rest,
        }
    }
}

/// The single calendar tree a batch is anchored by: the one successful
/// fragment, or a fork of all of them at the tip.
pub open spec fn combined_step(frags: Seq<StepV>, tip: Seq<u8>) -> StepV
    recommends
        frags.len() >= 1,
{
    if frags.len() == 1 {
        frags[0]
    } else {
        StepV { data: StepDataV::Fork, output: tip, next: frags }
    }
}

/// One more processed response extends the parsed fragments by its
/// fragment, if it parses.
proof fn lemma_parsed_fragments_take(rs: Seq<Seq<u8>>, tip: Seq<u8>, i: int)
    requires
        0 <= i < rs.len(),
    ensures
        parsed_fragments(rs.take(i + 1), tip) == (match spec_parse_step(rs[i], tip) {
            Some((st, _)) => parsed_fragments(rs.take(i), tip).push(st),
            None => parsed_fragments(rs.take(i), tip),
        }),
    decreases i,
{
    let a = rs.take(i + 1);
    let p = rs.take(i);
    if i == 0 {
        assert(a =~= seq![rs[0]]);
        assert(p =~= Seq::<Seq<u8>>::empty());
        assert(a.drop_first() =~= Seq::<Seq<u8>>::empty());
        match spec_parse_step(rs[0], tip) {
            Some((st, _)) => {
                assert(parsed_fragments(a, tip) =~= parsed_fragments(p, tip).push(st));
            },
            None => {},
        }
    } else {
        lemma_parsed_fragments_take(rs.drop_first(), tip, i - 1);
        assert(a.drop_first() =~= rs.drop_first().take(i));
        assert(p.drop_first() =~= rs.drop_first().take(i - 1));
        assert(a[0] == rs[0] && p[0] == rs[0]);
        assert(rs.drop_first()[i - 1] == rs[i]);
        match spec_parse_step(rs[i], tip) {
            Some((st, _)) => {
                assert(parsed_fragments(a, tip) =~= parsed_fragments(p, tip).push(st));
            },
            None => {
                assert(parsed_fragments(a, tip) =~= parsed_fragments(p, tip));
            },
        }
    }
}

/// Parses the calendar responses, combines the fragments that parse
/// under one anchor — a lone fragment as it stands, several under a
/// fork at the tip — and grafts that anchor onto every file of the
/// batch. Fails exactly when no response parses.
pub fn attach_calendars(
    files: &mut Vec<DetachedTimestampFile>,
    tip: &Vec<u8>,
    responses: &Vec<Vec<u8>>,
) -> (r: Result<(), Error>)
    ensures
        ({
            let frags = parsed_fragments(bytes_view(responses@), tip@);
            match r {
                Err(e) => frags.len() == 0 && e is NoCalendarAvailable && final(files)@ == old(
                    files,
                )@,
                Ok(_) => {
                    let combined = combined_step(frags, tip@);
                    &&& frags.len() >= 1
                    &&& final(files)@.len() == old(files)@.len()
                    &&& forall|i: int|
                        0 <= i < old(files)@.len() ==> {
                            let before = (#[trigger] old(files)@[i])@;
                            let after = final(files)@[i]@;
                            &&& after.digest_type == before.digest_type
                            &&& after.timestamp.start_digest == before.timestamp.start_digest
                            &&& after.timestamp.first_step == spec_merge(
                                before.timestamp.first_step,
                                tip@,
                                combined,
                            )
                            &&& ts_wf(before.timestamp) ==> ts_wf(after.timestamp)
                        }
                },
            }
        }),
{
    let ghost rs = bytes_view(responses@);
    let mut fragments: Vec<Timestamp> = Vec::new();
    let mut i: usize = 0;
    while i < responses.len()
        invariant
            i <= responses@.len(),
            rs == bytes_view(responses@),
            rs.len() == responses@.len(),
            forall|j: int| 0 <= j < rs.len() ==> rs[j] == (#[trigger] responses@[j])@,
            fragments@.len() == parsed_fragments(rs.take(i as int), tip@).len(),
            forall|j: int|
                0 <= j < fragments@.len() ==> {
                    let fv = (#[trigger] fragments@[j])@;
                    &&& fv.first_step == parsed_fragments(rs.take(i as int), tip@)[j]
                    &&& fv.start_digest == tip@
                    &&& ts_wf(fv)
                },
        decreases responses@.len() - i,
    {
        proof {
            lemma_parsed_fragments_take(rs, tip@, i as int);
        }
        match deserialize_timestamp(&responses[i], copy_bytes(tip)) {
            Ok(ts) => {
                fragments.push(ts);
            },
            Err(_) => {},
        }
        i = i + 1;
    }
    proof {
        assert(rs.take(i as int) =~= rs);
    }
    let ghost frags = parsed_fragments(rs, tip@);
    let ghost gfragments = fragments@;
    if fragments.len() == 0 {
        return Err(Error::NoCalendarAvailable);
    }
    let combined: Timestamp = if fragments.len() == 1 {
        let only = fragments.remove(0);
        proof {
            assert(only == gfragments[0]);
            assert(only@.first_step == combined_step(frags, tip@));
        }
        only
    } else {
        let mut children: Vec<Step> = Vec::new();
        let mut k: usize = 0;
        let m = fragments.len();
        while k < m
            invariant
                k <= m,
                m == fragments@.len(),
                m == frags.len(),
                forall|j: int|
                    0 <= j < fragments@.len() ==> {
                        let fv = (#[trigger] fragments@[j])@;
                        &&& fv.first_step == frags[j]
                        &&& fv.start_digest == tip@
                        &&& ts_wf(fv)
                    },
                children@.len() == k,
                forall|j: int| 0 <= j < k ==> step_view(#[trigger] children@[j]) == frags[j],
            decreases m - k,
        {
            children.push(fragments[k].first_step.duplicate());
            k = k + 1;
        }
        let ghost gchildren = children@;
        let fork = Step { data: StepData::Fork, output: copy_bytes(tip), next: children };
        proof {
            lemma_steps_view(gchildren);
            assert(steps_view(gchildren) =~= frags);
            assert(step_view(fork) == combined_step(frags, tip@));
        }
        Timestamp { start_digest: copy_bytes(tip), first_step: fork }
    };
    let ghost combined_view = combined.first_step@;
    proof {
        assert(combined_view == combined_step(frags, tip@));
        assert forall|j: int| 0 <= j < frags.len() implies child_ok(tip@, #[trigger] frags[j])
            && step_wf(frags[j]) by {
            assert(gfragments[j]@.first_step == frags[j]);
            assert(ts_wf(gfragments[j]@));
            assert(gfragments[j]@.start_digest == tip@);
        };
        if frags.len() == 1 {
            assert(combined_view == frags[0]);
        }
        assert(child_ok(tip@, combined_view) && step_wf(combined_view));
    }
    let n = files.len();
    let mut i2: usize = 0;
    while i2 < n
        invariant
            i2 <= n,
            n == files@.len(),
            files@.len() == old(files)@.len(),
            combined_view == combined.first_step@,
            combined@.start_digest == tip@,
            child_ok(tip@, combined_view),
            step_wf(combined_view),
            forall|j: int|
                i2 <= j < n ==> #[trigger] files@[j] == old(files)@[j],
            forall|j: int|
                0 <= j < i2 ==> {
                    let before = (#[trigger] old(files)@[j])@;
                    let after = files@[j]@;
                    &&& after.digest_type == before.digest_type
                    &&& after.timestamp.start_digest == before.timestamp.start_digest
                    &&& after.timestamp.first_step == spec_merge(
                        before.timestamp.first_step,
                        tip@,
                        combined_view,
                    )
                    &&& ts_wf(before.timestamp) ==> ts_wf(after.timestamp)
                },
        decreases n - i2,
    {
        let frag = combined.duplicate();
        let mut file = files.remove(i2);
        let ghost before = file@;
        file.timestamp.merge(frag);
        proof {
            if ts_wf(before.timestamp) {
                lemma_merge_wf(before.timestamp.first_step, tip@, combined_view);
            }
        }
        files.insert(i2, file);
        i2 = i2 + 1;
    }
    Ok(())
}

/// Stamps a batch of digests: salts each digest, anchors the batch in
/// one Merkle tip, and grafts the calendars' answer for that tip onto
/// every file. `responses` are the raw bodies the calendars returned
/// for the tip; a body that does not parse counts as a failed calendar,
/// and the stamp fails only when every calendar failed.
pub fn stamps(
    digests: &Vec<Vec<u8>>,
    digest_type: DigestType,
    nonces: &Vec<Vec<u8>>,
    responses: &Vec<Vec<u8>>,
) -> (r: Result<Vec<DetachedTimestampFile>, Error>)
    requires
        digests@.len() >= 1,
        nonces@.len() == digests@.len(),
        forall|i: int| 0 <= i < nonces@.len() ==> (#[trigger] nonces@[i])@.len() == 16,
        forall|i: int| 0 <= i < digests@.len() ==> (#[trigger] digests@[i])@.len() + 16
            <= usize::MAX,
    ensures
        ({
            let tip = batch_tip(bytes_view(digests@), bytes_view(nonces@));
            let frags = parsed_fragments(bytes_view(responses@), tip);
            match r {
                Err(e) => frags.len() == 0 && e is NoCalendarAvailable,
                Ok(files) => {
                    &&& frags.len() >= 1
                    &&& files@.len() == digests@.len()
                    &&& forall|i: int|
                        0 <= i < files@.len() ==> {
                            let f = (#[trigger] files@[i])@;
                            &&& f.digest_type == digest_type
                            &&& f.timestamp.start_digest == digests@[i]@
                            &&& ts_wf(f.timestamp)
                            &&& f.timestamp.first_step == spec_merge(
                                prepared_first_step(
                                    digests@[i]@,
                                    nonces@[i]@,
                                    leaf_seq(bytes_view(digests@), bytes_view(nonces@)),
                                    i,
                                ),
                                tip,
                                combined_step(frags, tip),
                            )
                        }
                },
            }
        }),
{
    let (mut files, tip) = stamp_requests(digests, nonces, digest_type);
    let ghost prepared = files@;
    match attach_calendars(&mut files, &tip, responses) {
        Ok(_) => {
            proof {
                let frags = parsed_fragments(bytes_view(responses@), tip@);
                let combined = combined_step(frags, tip@);
                assert forall|i: int| 0 <= i < files@.len() implies {
                    let f = (#[trigger] files@[i])@;
                    &&& f.digest_type == digest_type
                    &&& f.timestamp.start_digest == digests@[i]@
                    &&& ts_wf(f.timestamp)
                    &&& f.timestamp.first_step == spec_merge(
                        prepared_first_step(
                            digests@[i]@,
                            nonces@[i]@,
                            leaf_seq(bytes_view(digests@), bytes_view(nonces@)),
                            i,
                        ),
                        tip@,
                        combined,
                    )
                } by {
                    let before = prepared[i]@;
                    assert(files@[i]@.timestamp.first_step == spec_merge(
                        before.timestamp.first_step,
                        tip@,
                        combined,
                    ));
                    assert(before.timestamp.first_step == prepared_first_step(
                        digests@[i]@,
                        nonces@[i]@,
                        leaf_seq(bytes_view(digests@), bytes_view(nonces@)),
                        i,
                    ));
                };
            }
            Ok(files)
        },
        Err(e) => Err(e),
    }
}

/// The first Bitcoin attestation of a pre-order attestation list: the
/// commitment it is about and the claimed block height.
pub open spec fn first_bitcoin(l: Seq<(Seq<u8>, AttV)>) -> Option<(Seq<u8>, usize)>
    decreases l.len(),
{
    if l.len() == 0 {
        None
    } else {
        match l[0].1 {
            AttV::Bitcoin { height } => Some((l[0].0, height)),
            _ => first_bitcoin(l.drop_first()),
        }
    }
}

/// The first Bitcoin attestation of a proof file, in the deterministic
/// depth-first pre-order of the tree: the commitment and the height.
pub fn bitcoin_attestation(file: &DetachedTimestampFile) -> (r: Option<(Vec<u8>, usize)>)
    ensures
        ({
            let fb = first_bitcoin(atts_list(file@.timestamp.first_step));
            match r {
                Some(p) => fb == Some((p.0@, p.1)),
                None => fb is None,
            }
        }),
{
    let atts = file.timestamp.all_attestations();
    let ghost l = atts_list(file@.timestamp.first_step);
    proof {
        assert(l.skip(0) =~= l);
        assert forall|j: int| 0 <= j < l.len() implies #[trigger] l[j] == (
            atts@[j].0@,
            atts@[j].1@,
        ) by {
            assert(l[j] == crate::timestamp::pairs_view(atts@)[j]);
        };
    }
    let mut i: usize = 0;
    while i < atts.len()
        invariant
            i <= atts@.len(),
            l == crate::timestamp::pairs_view(atts@),
            l == atts_list(file@.timestamp.first_step),
            l.len() == atts@.len(),
            forall|j: int|
                0 <= j < l.len() ==> #[trigger] l[j] == (atts@[j].0@, atts@[j].1@),
            first_bitcoin(l) == first_bitcoin(l.skip(i as int)),
        decreases atts@.len() - i,
    {
        proof {
            assert(l.skip(i as int)[0] == l[i as int]);
            assert(l.skip(i as int).drop_first() =~= l.skip(i + 1));
        }
        let pair = &atts[i];
        match &pair.1 {
            Attestation::Bitcoin { height } => {
                let c = copy_bytes(&pair.0);
                proof {
                    assert(*pair == atts@[i as int]);
                    assert(pair.1@ == AttV::Bitcoin { height: *height });
                    assert(l[i as int].1 == AttV::Bitcoin { height: *height });
                    assert(first_bitcoin(l.skip(i as int)) == Some((l[i as int].0, *height)));
                    assert(l[i as int].0 == c@);
                    assert(first_bitcoin(l) == Some((c@, *height)));
                }
                return Some((c, *height));
            },
            _ => {},
        }
        i = i + 1;
    }
    proof {
        assert(l.skip(i as int) =~= Seq::<(Seq<u8>, AttV)>::empty());
    }
    None
}

/// Compares an attested commitment against a block header's Merkle
/// root: equal means the block attests it, and the header's time is
/// returned; unequal is a digest mismatch.
pub fn verify_against_blockheader(digest: &Vec<u8>, header: &BlockHeader) -> (r: Result<u32, Error>)
    ensures
        match r {
            Ok(t) => digest@ == header.merkle_root@ && t == header.time,
            Err(e) => digest@ != header.merkle_root@ && e is DigestMismatch,
        },
{
    if crate::op::bytes_eq(digest, &header.merkle_root) {
        Ok(header.time)
    } else {
        Err(Error::DigestMismatch)
    }
}

/// Verifies a proof file against the header of the block its first
/// Bitcoin attestation names: succeeds exactly when that attestation's
/// commitment equals the header's Merkle root, and reports the height
/// and the header's time. Pending and unknown attestations are passed
/// over; a file without a Bitcoin attestation cannot be verified.
pub fn verify(file: &DetachedTimestampFile, header: &BlockHeader) -> (r: Result<
    BitcoinAttestationResult,
    Error,
>)
    requires
        match first_bitcoin(atts_list(file@.timestamp.first_step)) {
            Some((c, h)) => h <= u32::MAX,
            None => true,
        },
    ensures
        match first_bitcoin(atts_list(file@.timestamp.first_step)) {
            None => r matches Err(e) && e is NoAttestationFound,
            Some((c, h)) => {
                if c == header.merkle_root@ {
                    r matches Ok(a) && a.height == h as u32 && a.time == header.time
                } else {
                    r matches Err(e) && e is DigestMismatch
                }
            },
        },
{
    match bitcoin_attestation(file) {
        None => Err(Error::NoAttestationFound),
        Some((c, h)) => {
            match verify_against_blockheader(&c, header) {
                Ok(t) => Ok(BitcoinAttestationResult { height: h as u32, time: t }),
                Err(e) => Err(e),
            }
        },
    }
}

/// The views of a list of strings.
pub open spec fn strings_view(l: Seq<String>) -> Seq<Seq<char>> {
    l.map(|_i: int, s: String| s@)
}

/// Whether an allow-list admits a URI: a missing list admits every URI.
pub open spec fn uri_allowed(uri: Seq<char>, allow: Option<Seq<Seq<char>>>) -> bool {
    match allow {
        None => true,
        Some(l) => exists|j: int| 0 <= j < l.len() && l[j] == uri,
    }
}

/// The pending attestations of a pre-order attestation list whose URI
/// the allow-list admits: the commitment and the calendar URI of each.
pub open spec fn pending_list(l: Seq<(Seq<u8>, AttV)>, allow: Option<Seq<Seq<char>>>) -> Seq<
    (Seq<u8>, Seq<char>),
>
    decreases l.len(),
{
    if l.len() == 0 {
        Seq::empty()
    } else {
        let rest = pending_list(l.drop_first(), allow);
        match l[0].1 {
            AttV::Pending { uri } => if uri_allowed(uri, allow) {
                seq![(l[0].0, uri)] + rest
            } else {
                rest
            },
            _ => rest,
        }
    }
}

/// One more processed pair extends the collected pending attestations
/// by at most that pair.
proof fn lemma_pending_list_take(l: Seq<(Seq<u8>, AttV)>, allow: Option<Seq<Seq<char>>>, i: int)
    requires
        0 <= i < l.len(),
    ensures
        pending_list(l.take(i + 1), allow) == (match l[i].1 {
            AttV::Pending { uri } => if uri_allowed(uri, allow) {
                pending_list(l.take(i), allow).push((l[i].0, uri))
            } else {
                pending_list(l.take(i), allow)
            },
            _ => pending_list(l.take(i), allow),
        }),
    decreases i,
{
    let a = l.take(i + 1);
    let p = l.take(i);
    if i == 0 {
        assert(a =~= seq![l[0]]);
        assert(p =~= Seq::<(Seq<u8>, AttV)>::empty());
        assert(a.drop_first() =~= Seq::<(Seq<u8>, AttV)>::empty());
        match l[0].1 {
            AttV::Pending { uri } => {
                if uri_allowed(uri, allow) {
                    assert(pending_list(a, allow) =~= pending_list(p, allow).push((l[0].0, uri)));
                }
            },
            _ => {},
        }
    } else {
        lemma_pending_list_take(l.drop_first(), allow, i - 1);
        assert(a.drop_first() =~= l.drop_first().take(i));
        assert(p.drop_first() =~= l.drop_first().take(i - 1));
        assert(a[0] == l[0] && p[0] == l[0]);
        assert(l.drop_first()[i - 1] == l[i]);
        match l[i].1 {
            AttV::Pending { uri } => {
                if uri_allowed(uri, allow) {
                    assert(pending_list(a, allow) =~= pending_list(p, allow).push((l[i].0, uri)));
                } else {
                    assert(pending_list(a, allow) =~= pending_list(p, allow));
                }
            },
            _ => {
                assert(pending_list(a, allow) =~= pending_list(p, allow));
            },
        }
    }
}

/// The view of an optional allow-list.
pub open spec fn allow_view(allow: Option<Vec<String>>) -> Option<Seq<Seq<char>>> {
    match allow {
        None => None,
        Some(l) => Some(strings_view(l@)),
    }
}

/// Whether an allow-list admits a URI.
fn allowed(uri: &String, allow: &Option<Vec<String>>) -> (r: bool)
    ensures
        r == uri_allowed(uri@, allow_view(*allow)),
{
    match allow {
        None => true,
        Some(l) => {
            let mut j: usize = 0;
            while j < l.len()
                invariant
                    j <= l@.len(),
                    allow_view(*allow) == Some(strings_view(l@)),
                    forall|k: int| 0 <= k < j ==> (#[trigger] l@[k])@ != uri@,
                decreases l@.len() - j,
            {
                if l[j].eq(uri) {
                    proof {
                        assert(strings_view(l@)[j as int] == l@[j as int]@);
                        let av = allow_view(*allow);
                        assert(av == Some(strings_view(l@)));
                        assert((av->Some_0)[j as int] == uri@);
                        assert(0 <= (j as int) < (av->Some_0).len());
                        assert(uri_allowed(uri@, av));
                    }
                    return true;
                }
                j = j + 1;
            }
            proof {
                assert forall|k: int|
                    0 <= k < strings_view(l@).len() implies #[trigger] strings_view(l@)[k]
                    != uri@ by {
                    assert(strings_view(l@)[k] == l@[k]@);
                };
            }
            false
        },
    }
}

/// The pending attestations of a proof file that the allow-list admits,
/// in depth-first pre-order: each one's commitment and calendar URI.
/// These are what an upgrade asks the calendars about.
pub fn pending_attestations(file: &DetachedTimestampFile, allow: &Option<Vec<String>>) -> (r: Vec<
    (Vec<u8>, String),
>)
    ensures
        ({
            let spec = pending_list(atts_list(file@.timestamp.first_step), allow_view(*allow));
            &&& r@.len() == spec.len()
            &&& forall|i: int|
                0 <= i < r@.len() ==> ((#[trigger] r@[i]).0@, r@[i].1@) == spec[i]
        }),
{
    let atts = file.timestamp.all_attestations();
    let ghost l = atts_list(file@.timestamp.first_step);
    let ghost av = allow_view(*allow);
    proof {
        assert(l.take(0) =~= Seq::<(Seq<u8>, AttV)>::empty());
        assert forall|j: int| 0 <= j < l.len() implies #[trigger] l[j] == (
            atts@[j].0@,
            atts@[j].1@,
        ) by {
            assert(l[j] == crate::timestamp::pairs_view(atts@)[j]);
        };
    }
    let mut out: Vec<(Vec<u8>, String)> = Vec::new();
    let mut i: usize = 0;
    while i < atts.len()
        invariant
            i <= atts@.len(),
            l == crate::timestamp::pairs_view(atts@),
            l == atts_list(file@.timestamp.first_step),
            l.len() == atts@.len(),
            av == allow_view(*allow),
            forall|j: int|
                0 <= j < l.len() ==> #[trigger] l[j] == (atts@[j].0@, atts@[j].1@),
            out@.len() == pending_list(l.take(i as int), av).len(),
            forall|j: int|
                0 <= j < out@.len() ==> ((#[trigger] out@[j]).0@, out@[j].1@) == pending_list(
                    l.take(i as int),
                    av,
                )[j],
        decreases atts@.len() - i,
    {
        proof {
            lemma_pending_list_take(l, av, i as int);
        }
        match &atts[i].1 {
            Attestation::Pending { uri } => {
                if allowed(uri, allow) {
                    let c = copy_bytes(&atts[i].0);
                    out.push((c, uri.clone()));
                }
            },
            _ => {},
        }
        i = i + 1;
    }
    proof {
        assert(l.take(i as int) =~= l);
    }
    out
}

/// What merging a sequence of fragments into a tree, in order, yields.
pub open spec fn merge_fold(s: StepV, frags: Seq<TimestampV>) -> StepV
    decreases frags.len(),
{
    if frags.len() == 0 {
        s
    } else {
        merge_fold(spec_merge(s, frags[0].start_digest, frags[0].first_step), frags.drop_first())
    }
}

/// The views of a list of timestamps.
pub open spec fn ts_views(l: Seq<Timestamp>) -> Seq<TimestampV> {
    l.map(|_i: int, t: Timestamp| t@)
}

/// Upgrades a proof file by grafting each fetched fragment onto the
/// tree in order; a fragment supersedes the attestation leaves at its
/// starting digest, and a fragment whose starting digest occurs nowhere
/// in the tree changes nothing.
pub fn upgrade(file: &mut DetachedTimestampFile, fragments: &Vec<Timestamp>)
    ensures
        final(file)@.digest_type == old(file)@.digest_type,
        final(file)@.timestamp.start_digest == old(file)@.timestamp.start_digest,
        final(file)@.timestamp.first_step == merge_fold(
            old(file)@.timestamp.first_step,
            ts_views(fragments@),
        ),
        ts_wf(old(file)@.timestamp) && (forall|i: int|
            0 <= i < fragments@.len() ==> ts_wf((#[trigger] fragments@[i])@)) ==> ts_wf(
            final(file)@.timestamp,
        ),
{
    let ghost fv = ts_views(fragments@);
    let ghost wf_all = ts_wf(old(file)@.timestamp) && (forall|i: int|
        0 <= i < fragments@.len() ==> ts_wf((#[trigger] fragments@[i])@));
    proof {
        assert(fv.skip(0) =~= fv);
    }
    let mut i: usize = 0;
    while i < fragments.len()
        invariant
            i <= fragments@.len(),
            fv == ts_views(fragments@),
            fv.len() == fragments@.len(),
            forall|j: int| 0 <= j < fv.len() ==> #[trigger] fv[j] == fragments@[j]@,
            file@.digest_type == old(file)@.digest_type,
            file@.timestamp.start_digest == old(file)@.timestamp.start_digest,
            merge_fold(old(file)@.timestamp.first_step, fv) == merge_fold(
                file@.timestamp.first_step,
                fv.skip(i as int),
            ),
            wf_all == (ts_wf(old(file)@.timestamp) && (forall|j: int|
                0 <= j < fragments@.len() ==> ts_wf((#[trigger] fragments@[j])@))),
            wf_all ==> ts_wf(file@.timestamp),
        decreases fragments@.len() - i,
    {
        let frag = fragments[i].duplicate();
        let ghost before = file@.timestamp.first_step;
        proof {
            assert(fv.skip(i as int)[0] == fv[i as int]);
            assert(fv.skip(i as int).drop_first() =~= fv.skip(i + 1));
            if wf_all {
                assert(ts_wf(fragments@[i as int]@));
                lemma_merge_wf(before, frag@.start_digest, frag@.first_step);
            }
        }
        file.timestamp.merge(frag);
        i = i + 1;
    }
    proof {
        assert(fv.skip(i as int) =~= Seq::<TimestampV>::empty());
    }
}

/// Whether a character is a decimal digit.
pub open spec fn is_digit(c: char) -> bool {
    '0' <= c && c <= '9'
}

/// The value of a string of decimal digits.
pub open spec fn dec_val(s: Seq<char>) -> int
    decreases s.len(),
{
    if s.len() == 0 {
        0
    } else {
        dec_val(s.drop_last()) * 10 + ((s.last() as u32) as int - 48)
    }
}

/// A longer prefix of a digit string denotes at least as much.
proof fn lemma_dec_val_prefix(s: Seq<char>, i: int)
    requires
        0 <= i <= s.len(),
        forall|j: int| 0 <= j < s.len() ==> is_digit(#[trigger] s[j]),
    ensures
        dec_val(s.take(i)) <= dec_val(s),
        dec_val(s) >= 0,
    decreases s.len() - i,
{
    if i == s.len() {
        assert(s.take(i) =~= s);
        lemma_dec_val_nonneg(s);
    } else {
        lemma_dec_val_prefix(s, i + 1);
        assert(s.take(i + 1).drop_last() =~= s.take(i));
        assert(s.take(i + 1).last() == s[i]);
        lemma_dec_val_nonneg(s.take(i));
        assert(dec_val(s.take(i + 1)) == dec_val(s.take(i)) * 10 + ((s[i] as u32) as int - 48));
        assert(dec_val(s.take(i)) * 10 >= dec_val(s.take(i))) by (nonlinear_arith)
            requires
                dec_val(s.take(i)) >= 0,
        ;
    }
}

/// A digit string denotes a non-negative value.
proof fn lemma_dec_val_nonneg(s: Seq<char>)
    requires
        forall|j: int| 0 <= j < s.len() ==> is_digit(#[trigger] s[j]),
    ensures
        dec_val(s) >= 0,
    decreases s.len(),
{
    if s.len() > 0 {
        assert(forall|j: int|
            0 <= j < s.drop_last().len() ==> is_digit(#[trigger] s.drop_last()[j]));
        lemma_dec_val_nonneg(s.drop_last());
        assert(dec_val(s.drop_last()) * 10 >= 0) by (nonlinear_arith)
            requires
                dec_val(s.drop_last()) >= 0,
        ;
    }
}

/// Parses a whole-second timeout argument: succeeds exactly on a
/// non-empty string of decimal digits whose value fits in 64 bits, and
/// yields that number of seconds.
pub fn parse_duration(arg: &str) -> (r: Option<u64>)
    ensures
        match r {
            Some(n) => arg@.len() > 0 && (forall|j: int|
                0 <= j < arg@.len() ==> is_digit(#[trigger] arg@[j])) && dec_val(arg@)
                <= u64::MAX && n == dec_val(arg@),
            None => !(arg@.len() > 0 && (forall|j: int|
                0 <= j < arg@.len() ==> is_digit(#[trigger] arg@[j])) && dec_val(arg@)
                <= u64::MAX),
        },
{
    let n = arg.unicode_len();
    if n == 0 {
        return None;
    }
    let mut acc: u64 = 0;
    let mut i: usize = 0;
    while i < n
        invariant
            n == arg@.len(),
            0 < n,
            i <= n,
            forall|j: int| 0 <= j < i ==> is_digit(#[trigger] arg@[j]),
            acc == dec_val(arg@.take(i as int)),
        decreases n - i,
    {
        let c = arg.get_char(i);
        let code = c as u32;
        if code < 48 || code > 57 {
            return None;
        }
        let d = (code - 48) as u64;
        proof {
            assert(arg@.take(i + 1).drop_last() =~= arg@.take(i as int));
            assert(arg@.take(i + 1).last() == arg@[i as int]);
        }
        if acc > (u64::MAX - d) / 10 {
            proof {
                assert(acc * 10 + d > u64::MAX) by (nonlinear_arith)
                    requires
                        acc > (u64::MAX - d) / 10,
                        d <= 9,
                        acc >= 0,
                ;
                assert(dec_val(arg@.take(i + 1)) > u64::MAX);
                assert forall|j: int| 0 <= j < arg@.len() implies is_digit(#[trigger] arg@[j])
                    || !(forall|k: int| 0 <= k < arg@.len() ==> is_digit(#[trigger] arg@[k])) by {
                };
                if forall|k: int| 0 <= k < arg@.len() ==> is_digit(#[trigger] arg@[k]) {
                    lemma_dec_val_prefix(arg@, i + 1);
                }
            }
            return None;
        }
        proof {
            assert(acc * 10 + d <= u64::MAX) by (nonlinear_arith)
                requires
                    acc <= (u64::MAX - d) / 10,
                    d <= 9,
                    acc >= 0,
            ;
        }
        acc = acc * 10 + d;
        i = i + 1;
    }
    proof {
        assert(arg@.take(i as int) =~= arg@);
    }
    Some(acc)
}

} // verus!
