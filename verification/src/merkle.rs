//! Merkle batching: many digests share one anchor through pairwise
//! SHA-256 hashing, and each digest gets a proof chain to the root.

use vstd::prelude::*;
use crate::hashes::{sha256, sha256_of};
use crate::op::{Op, OpV, op_apply, copy_bytes};
use crate::timestamp::{
    Step, StepData, StepV, StepDataV, Timestamp, step_view, steps_view, lemma_steps_view,
    step_wf, ts_wf, child_ok, spec_roots, spec_roots_list,
};

verus! {

/// The views of a sequence of byte vectors.
pub open spec fn bytes_view(l: Seq<Vec<u8>>) -> Seq<Seq<u8>> {
    l.map(|_i: int, v: Vec<u8>| v@)
}

/// One level of pairwise hashing: adjacent values are concatenated and
/// hashed; an unpaired last value is promoted unchanged.
pub open spec fn combine(level: Seq<Seq<u8>>) -> Seq<Seq<u8>> {
    Seq::new((level.len() + 1) / 2, |i: int| if 2 * i + 1 < level.len() {
        sha256_of(level[2 * i] + level[2 * i + 1])
    } else {
        level[2 * i]
    })
}

/// The Merkle root of a non-empty sequence of values: repeated pairwise
/// hashing until one value remains.
pub open spec fn merkle_root(level: Seq<Seq<u8>>) -> Seq<u8>
    recommends
        level.len() > 0,
    decreases level.len(),
{
    if level.len() <= 1 {
        if level.len() == 1 {
            level[0]
        } else {
            Seq::empty()
        }
    } else {
        merkle_root(combine(level))
    }
}

/// What folding an inclusion path over a starting value yields: at each
/// entry the sibling hash is prepended (when it stands on the left) or
/// appended, and the pair is hashed.
pub open spec fn path_apply(d: Seq<u8>, path: Seq<(bool, Seq<u8>)>) -> Seq<u8>
    decreases path.len(),
{
    if path.len() == 0 {
        d
    } else {
        let head = path[0];
        let combined = if head.0 {
            sha256_of(head.1 + d)
        } else {
            sha256_of(d + head.1)
        };
        path_apply(combined, path.drop_first())
    }
}

/// The views of a sequence of path entries.
pub open spec fn path_view(l: Seq<(bool, Vec<u8>)>) -> Seq<(bool, Seq<u8>)> {
    l.map(|_i: int, p: (bool, Vec<u8>)| (p.0, p.1@))
}

/// The Merkle inclusion path of the value at `idx`: level by level from
/// the bottom, the sibling hash where the value has one, and whether
/// that sibling stands on the left.
pub open spec fn spec_path(level: Seq<Seq<u8>>, idx: int) -> Seq<(bool, Seq<u8>)>
    decreases level.len(),
{
    if level.len() <= 1 {
        Seq::empty()
    } else {
        let sib = if idx % 2 == 0 {
            idx + 1
        } else {
            idx - 1
        };
        let here = if sib < level.len() {
            seq![(idx % 2 == 1, level[sib])]
        } else {
            Seq::empty()
        };
        here + spec_path(combine(level), idx / 2)
    }
}

/// The proof chain a non-empty path denotes: per entry an operation
/// step combining the sibling with the running digest, followed by a
/// SHA-256 step; the final SHA-256 step is the dangling tip.
pub open spec fn spec_chain(d: Seq<u8>, path: Seq<(bool, Seq<u8>)>) -> StepV
    recommends
        path.len() >= 1,
    decreases path.len(),
{
    let e = if path[0].0 {
        path[0].1 + d
    } else {
        d + path[0].1
    };
    let h = sha256_of(e);
    let tail = if path.len() <= 1 {
        Seq::<StepV>::empty()
    } else {
        seq![spec_chain(h, path.drop_first())]
    };
    StepV {
        data: StepDataV::Op(
            if path[0].0 {
                OpV::Prepend(path[0].1)
            } else {
                OpV::Append(path[0].1)
            },
        ),
        output: e,
        next: seq![StepV { data: StepDataV::Op(OpV::Sha256), output: h, next: tail }],
    }
}

/// Extending a path by one entry hashes the folded value with the new
/// sibling.
proof fn lemma_path_apply_push(d: Seq<u8>, path: Seq<(bool, Seq<u8>)>, e: (bool, Seq<u8>))
    ensures
        path_apply(d, path.push(e)) == ({
            let c = path_apply(d, path);
            if e.0 {
                sha256_of(e.1 + c)
            } else {
                sha256_of(c + e.1)
            }
        }),
    decreases path.len(),
{
    reveal_with_fuel(path_apply, 3);
    if path.len() == 0 {
        assert(path.push(e).drop_first() =~= Seq::<(bool, Seq<u8>)>::empty());
        assert(path.push(e)[0] == e);
    } else {
        assert(path.push(e).drop_first() =~= path.drop_first().push(e));
        assert(path.push(e)[0] == path[0]);
        let combined = if path[0].0 {
            sha256_of(path[0].1 + d)
        } else {
            sha256_of(d + path[0].1)
        };
        lemma_path_apply_push(combined, path.drop_first(), e);
    }
}

/// Computes one level of pairwise hashing.
fn combine_level(level: &Vec<Vec<u8>>) -> (r: Vec<Vec<u8>>)
    requires
        level@.len() >= 1,
        forall|i: int| 0 <= i < level@.len() ==> (#[trigger] level@[i])@.len() == 32,
    ensures
        bytes_view(r@) == combine(bytes_view(level@)),
        forall|i: int| 0 <= i < r@.len() ==> (#[trigger] r@[i])@.len() == 32,
{
    let n = level.len();
    let mut out: Vec<Vec<u8>> = Vec::new();
    let mut j: usize = 0;
    while j < n / 2
        invariant
            n == level@.len(),
            n >= 1,
            forall|i: int| 0 <= i < level@.len() ==> (#[trigger] level@[i])@.len() == 32,
            j <= n / 2,
            out@.len() == j,
            forall|i: int| 0 <= i < j ==> (#[trigger] out@[i])@ == combine(bytes_view(level@))[i],
            forall|i: int| 0 <= i < out@.len() ==> (#[trigger] out@[i])@.len() == 32,
        decreases n - 2 * j,
    {
        proof {
            assert(2 * j + 1 < n);
        }
        let mut cat = copy_bytes(&level[2 * j]);
        let mut right = copy_bytes(&level[2 * j + 1]);
        cat.append(&mut right);
        let h = sha256(&cat);
        proof {
            assert(cat@ =~= bytes_view(level@)[2 * j as int] + bytes_view(level@)[2 * j + 1]);
        }
        out.push(h);
        j = j + 1;
    }
    if 2 * j < n {
        let last = copy_bytes(&level[2 * j]);
        proof {
            assert(last@ == combine(bytes_view(level@))[j as int]);
        }
        out.push(last);
        proof {
            assert(out@.len() == (n + 1) / 2);
        }
    }
    proof {
        assert(bytes_view(out@) =~= combine(bytes_view(level@)));
    }
    out
}

/// Computes the Merkle root of a non-empty batch of 32-byte values.
pub fn compute_merkle_root(leaves: &Vec<Vec<u8>>) -> (r: Vec<u8>)
    requires
        leaves@.len() >= 1,
        forall|i: int| 0 <= i < leaves@.len() ==> (#[trigger] leaves@[i])@.len() == 32,
    ensures
        r@ == merkle_root(bytes_view(leaves@)),
{
    let mut current: Vec<Vec<u8>> = Vec::new();
    let mut i: usize = 0;
    while i < leaves.len()
        invariant
            i <= leaves@.len(),
            forall|k: int| 0 <= k < leaves@.len() ==> (#[trigger] leaves@[k])@.len() == 32,
            current@.len() == i,
            forall|k: int| 0 <= k < i ==> (#[trigger] current@[k])@ == leaves@[k]@,
            forall|k: int| 0 <= k < current@.len() ==> (#[trigger] current@[k])@.len() == 32,
        decreases leaves@.len() - i,
    {
        current.push(copy_bytes(&leaves[i]));
        i = i + 1;
    }
    proof {
        assert(bytes_view(current@) =~= bytes_view(leaves@));
    }
    let ghost target = bytes_view(leaves@);
    while current.len() > 1
        invariant
            current@.len() >= 1,
            forall|k: int| 0 <= k < current@.len() ==> (#[trigger] current@[k])@.len() == 32,
            merkle_root(bytes_view(current@)) == merkle_root(target),
        decreases current@.len(),
    {
        let next = combine_level(&current);
        proof {
            assert(bytes_view(next@).len() == (bytes_view(current@).len() + 1) / 2);
        }
        current = next;
    }
    let r = copy_bytes(&current[0]);
    proof {
        assert(merkle_root(bytes_view(current@)) == bytes_view(current@)[0]);
    }
    r
}

/// Computes the Merkle inclusion path of the value at `index`: one
/// sibling per level that has one, from the leaves up to the root.
/// Folding the path over the leaf value reproduces the Merkle root.
pub fn merkle_path(leaves: &Vec<Vec<u8>>, index: usize) -> (path: Vec<(bool, Vec<u8>)>)
    requires
        leaves@.len() >= 1,
        index < leaves@.len(),
        forall|i: int| 0 <= i < leaves@.len() ==> (#[trigger] leaves@[i])@.len() == 32,
    ensures
        path_apply(leaves@[index as int]@, path_view(path@)) == merkle_root(bytes_view(leaves@)),
        path_view(path@) == spec_path(bytes_view(leaves@), index as int),
        forall|i: int| 0 <= i < path@.len() ==> (#[trigger] path@[i]).1@.len() == 32,
        leaves@.len() >= 2 ==> path@.len() >= 1,
{
    let mut current: Vec<Vec<u8>> = Vec::new();
    let mut i: usize = 0;
    while i < leaves.len()
        invariant
            i <= leaves@.len(),
            forall|k: int| 0 <= k < leaves@.len() ==> (#[trigger] leaves@[k])@.len() == 32,
            current@.len() == i,
            forall|k: int| 0 <= k < i ==> (#[trigger] current@[k])@ == leaves@[k]@,
            forall|k: int| 0 <= k < current@.len() ==> (#[trigger] current@[k])@.len() == 32,
        decreases leaves@.len() - i,
    {
        current.push(copy_bytes(&leaves[i]));
        i = i + 1;
    }
    proof {
        assert(bytes_view(current@) =~= bytes_view(leaves@));
    }
    let ghost target = bytes_view(leaves@);
    let ghost start = leaves@[index as int]@;
    let mut idx: usize = index;
    let mut path: Vec<(bool, Vec<u8>)> = Vec::new();
    while current.len() > 1
        invariant
            current@.len() >= 1,
            idx < current@.len(),
            forall|k: int| 0 <= k < current@.len() ==> (#[trigger] current@[k])@.len() == 32,
            forall|k: int| 0 <= k < path@.len() ==> (#[trigger] path@[k]).1@.len() == 32,
            merkle_root(bytes_view(current@)) == merkle_root(target),
            path_apply(start, path_view(path@)) == current@[idx as int]@,
            spec_path(target, index as int) == path_view(path@) + spec_path(
                bytes_view(current@),
                idx as int,
            ),
            current@.len() == 1 ==> (target.len() == 1 || path@.len() >= 1),
            target.len() == 1 ==> current@.len() == 1,
        decreases current@.len(),
    {
        let ghost lv = bytes_view(current@);
        let sib: usize = if idx % 2 == 0 {
            idx + 1
        } else {
            idx - 1
        };
        if sib < current.len() {
            let left = idx % 2 == 1;
            let entry = (left, copy_bytes(&current[sib]));
            proof {
                lemma_path_apply_push(start, path_view(path@), (entry.0, entry.1@));
                assert(path_view(path@.push(entry)) =~= path_view(path@).push((entry.0, entry.1@)));
                assert(spec_path(lv, idx as int) =~= seq![(left, lv[sib as int])] + spec_path(
                    combine(lv),
                    idx as int / 2,
                ));
                assert(path_view(path@).push((entry.0, entry.1@)) + spec_path(
                    combine(lv),
                    idx as int / 2,
                ) =~= path_view(path@) + spec_path(lv, idx as int));
                if left {
                    assert(combine(lv)[idx as int / 2] == sha256_of(
                        lv[2 * (idx as int / 2)] + lv[2 * (idx as int / 2) + 1],
                    ));
                    assert(lv[2 * (idx as int / 2)] == entry.1@ && lv[2 * (idx as int / 2) + 1]
                        == lv[idx as int]);
                } else {
                    assert(combine(lv)[idx as int / 2] == sha256_of(
                        lv[2 * (idx as int / 2)] + lv[2 * (idx as int / 2) + 1],
                    ));
                    assert(lv[2 * (idx as int / 2)] == lv[idx as int] && lv[2 * (idx as int / 2)
                        + 1] == entry.1@);
                }
            }
            path.push(entry);
        } else {
            proof {
                assert(idx % 2 == 0 && idx + 1 == current@.len());
                assert(2 * (idx as int / 2) + 1 >= lv.len());
                assert(combine(lv)[idx as int / 2] == lv[2 * (idx as int / 2)]);
                assert(spec_path(lv, idx as int) =~= spec_path(combine(lv), idx as int / 2));
            }
        }
        let next = combine_level(&current);
        proof {
            assert(bytes_view(next@).len() == (lv.len() + 1) / 2);
        }
        current = next;
        idx = idx / 2;
    }
    proof {
        assert(spec_path(bytes_view(current@), idx as int) =~= Seq::<(bool, Seq<u8>)>::empty());
        assert(path_view(path@) + Seq::<(bool, Seq<u8>)>::empty() =~= path_view(path@));
    }
    path
}

/// Builds the linear proof chain for one batched leaf: per path entry an
/// append or prepend of the sibling followed by a SHA-256 step. The
/// chain starts at the leaf value and its single dangling tip carries
/// the Merkle root the path leads to.
pub fn timestamp_from_merkle(leaf: &Vec<u8>, path: &Vec<(bool, Vec<u8>)>) -> (r: Timestamp)
    requires
        path@.len() >= 1,
        leaf@.len() == 32,
        forall|i: int| 0 <= i < path@.len() ==> (#[trigger] path@[i]).1@.len() == 32,
    ensures
        r@.start_digest == leaf@,
        r@.first_step == spec_chain(leaf@, path_view(path@)),
        ts_wf(r@),
        spec_roots(r@.first_step).len() == 1,
        spec_roots(r@.first_step)[0].output == path_apply(leaf@, path_view(path@)),
{
    let mut digests: Vec<Vec<u8>> = Vec::new();
    let mut ops: Vec<Op> = Vec::new();
    let mut d = copy_bytes(leaf);
    let mut i: usize = 0;
    // Forward pass: record for every level the combining op, the combined
    // value, and the hash that follows it.
    let mut pairs: Vec<Vec<u8>> = Vec::new();
    while i < path.len()
        invariant
            i <= path@.len(),
            leaf@.len() == 32,
            forall|k: int| 0 <= k < path@.len() ==> (#[trigger] path@[k]).1@.len() == 32,
            d@ == path_apply(leaf@, path_view(path@).take(i as int)),
            d@.len() == 32,
            ops@.len() == i,
            pairs@.len() == i,
            digests@.len() == i,
            forall|k: int|
                0 <= k < i ==> (#[trigger] ops@[k])@ == (if path@[k].0 {
                    OpV::Prepend(path@[k].1@)
                } else {
                    OpV::Append(path@[k].1@)
                }),
            forall|k: int|
                0 <= k < i ==> (#[trigger] pairs@[k])@ == op_apply(
                    ops@[k]@,
                    path_apply(leaf@, path_view(path@).take(k)),
                ),
            forall|k: int|
                0 <= k < i ==> (#[trigger] digests@[k])@ == path_apply(
                    leaf@,
                    path_view(path@).take(k + 1),
                ),
        decreases path@.len() - i,
    {
        let (left, sibv) = &path[i];
        let op = if *left {
            Op::Prepend(copy_bytes(sibv))
        } else {
            Op::Append(copy_bytes(sibv))
        };
        let pair = op.execute(&d);
        let h = sha256(&pair);
        proof {
            lemma_path_apply_push_take(leaf@, path_view(path@), i as int);
            assert(path_view(path@)[i as int] == (path@[i as int].0, path@[i as int].1@));
        }
        ops.push(op);
        pairs.push(pair);
        digests.push(copy_bytes(&h));
        d = h;
        i = i + 1;
    }
    proof {
        assert(path_view(path@).take(path@.len() as int) =~= path_view(path@));
    }
    // Backward pass: build the chain from the tip inward. The tip is the
    // final SHA-256 step with no children.
    let n = path.len();
    let mut tail: Vec<Step> = Vec::new();
    let ghost gfull = path_view(path@);
    let mut k: usize = n;
    while k > 0
        invariant
            k <= n,
            n == path@.len(),
            n >= 1,
            leaf@.len() == 32,
            ops@.len() == n,
            pairs@.len() == n,
            digests@.len() == n,
            forall|m: int|
                0 <= m < n ==> (#[trigger] ops@[m])@ == (if path@[m].0 {
                    OpV::Prepend(path@[m].1@)
                } else {
                    OpV::Append(path@[m].1@)
                }),
            forall|m: int|
                0 <= m < n ==> (#[trigger] pairs@[m])@ == op_apply(
                    ops@[m]@,
                    path_apply(leaf@, gfull.take(m)),
                ),
            forall|m: int|
                0 <= m < n ==> (#[trigger] digests@[m])@ == path_apply(leaf@, gfull.take(m + 1)),
            gfull == path_view(path@),
            k < n ==> tail@.len() == 1,
            k == n ==> tail@.len() == 0,
            k < n ==> chain_shape(
                step_view(tail@[0]),
                path_apply(leaf@, gfull.take(k as int)),
                path_apply(leaf@, gfull),
            ),
            k < n ==> step_view(tail@[0]) == spec_chain(
                path_apply(leaf@, gfull.take(k as int)),
                gfull.skip(k as int),
            ),
        decreases k,
    {
        k = k - 1;
        let sha_child: Vec<Step> = tail;
        let ghost gsha_child = sha_child@;
        let sha_step = Step {
            data: StepData::Op(Op::Sha256),
            output: copy_bytes(&digests[k]),
            next: sha_child,
        };
        proof {
            lemma_steps_view(gsha_child);
            assert(sha_step@.next =~= steps_view(gsha_child));
        }
        let mut op_child: Vec<Step> = Vec::new();
        op_child.push(sha_step);
        let ghost gop_child = op_child@;
        let op_step = Step {
            data: StepData::Op(ops[k].duplicate()),
            output: copy_bytes(&pairs[k]),
            next: op_child,
        };
        proof {
            lemma_steps_view(gop_child);
            assert(op_step@.next.len() == 1);
            assert(op_step@.next[0] == step_view(gop_child[0]));
        }
        proof {
            let input = path_apply(leaf@, gfull.take(k as int));
            let tip = path_apply(leaf@, gfull);
            let s = op_step@;
            let sha = sha_step@;
            lemma_path_apply_push_take(leaf@, gfull, k as int);
            assert(gfull[k as int] == (path@[k as int].0, path@[k as int].1@));
            assert(s.data == StepDataV::Op(ops@[k as int]@));
            assert(s.output == op_apply(s.data->Op_0, input));
            assert(s.next.len() == 1 && s.next[0] == sha);
            assert(sha.data == StepDataV::Op(OpV::Sha256));
            assert(sha.output == path_apply(leaf@, gfull.take(k + 1)));
            if path@[k as int].0 {
                assert(sha.output == sha256_of(path@[k as int].1@ + input));
                assert(op_apply(s.data->Op_0, input) == path@[k as int].1@ + input);
            } else {
                assert(sha.output == sha256_of(input + path@[k as int].1@));
                assert(op_apply(s.data->Op_0, input) == input + path@[k as int].1@);
            }
            assert(sha.output == sha256_of(s.output));
            if gsha_child.len() == 0 {
                assert(k == n - 1);
                assert(gfull.take(n as int) =~= gfull);
                assert(sha.next.len() == 0 && sha.output == tip);
            } else {
                assert(sha.next.len() == 1);
                assert(sha.next[0] == step_view(gsha_child[0]));
                assert(chain_shape(sha.next[0], path_apply(leaf@, gfull.take(k + 1)), tip));
            }
            assert(chain_shape(s, input, tip));
            // The constructed step is exactly the chain the path suffix
            // denotes.
            let suffix = gfull.skip(k as int);
            assert(suffix[0] == gfull[k as int]);
            assert(suffix.drop_first() =~= gfull.skip(k + 1));
            assert(suffix.len() == n - k);
            if k < n - 1 {
                assert(step_view(gsha_child[0]) == spec_chain(
                    path_apply(leaf@, gfull.take(k + 1)),
                    gfull.skip(k + 1),
                ));
            }
            assert(s =~= spec_chain(input, suffix));
        }
        let mut new_tail: Vec<Step> = Vec::new();
        new_tail.push(op_step);
        tail = new_tail;
    }
    let mut first: Vec<Step> = tail;
    let root_step = first.remove(0);
    let r = Timestamp { start_digest: copy_bytes(leaf), first_step: root_step };
    proof {
        assert(gfull.take(0) =~= Seq::<(bool, Seq<u8>)>::empty());
        assert(gfull.skip(0) =~= gfull);
        lemma_chain_shape_wf(r@.first_step, leaf@, path_apply(leaf@, gfull));
        assert(r@.first_step == spec_chain(leaf@, gfull));
    }
    r
}

/// The shape of one link of the built chain: an op step whose output is
/// the combined value, followed by a SHA-256 step; the last SHA-256 step
/// is the dangling tip whose output is `tip`.
pub open spec fn chain_shape(s: StepV, input: Seq<u8>, tip: Seq<u8>) -> bool
    decreases s,
{
    &&& s.data is Op
    &&& s.output == op_apply(s.data->Op_0, input)
    &&& s.data->Op_0 is Prepend || s.data->Op_0 is Append
    &&& s.next.len() == 1
    &&& {
        let sha = s.next[0];
        &&& sha.data == StepDataV::Op(OpV::Sha256)
        &&& sha.output == sha256_of(s.output)
        &&& (sha.next.len() == 0 ==> sha.output == tip)
        &&& (sha.next.len() != 0 ==> sha.next.len() == 1 && chain_shape(
            sha.next[0],
            sha.output,
            tip,
        ))
    }
}

/// A chain of the built shape is well-formed and has exactly one leaf,
/// whose output is the tip value.
proof fn lemma_chain_shape_wf(s: StepV, input: Seq<u8>, tip: Seq<u8>)
    requires
        chain_shape(s, input, tip),
    ensures
        child_ok(input, s),
        step_wf(s),
        spec_roots(s).len() == 1,
        spec_roots(s)[0].output == tip,
    decreases s,
{
    let sha = s.next[0];
    assert(child_ok(s.output, sha));
    if sha.next.len() == 0 {
        assert(spec_roots(sha) =~= seq![sha]);
        assert(spec_roots_list(s.next) =~= spec_roots(sha) + spec_roots_list(s.next.drop_first()));
        assert(s.next.drop_first() =~= Seq::<StepV>::empty());
        assert(spec_roots(s) =~= seq![sha]);
        assert(step_wf(sha));
    } else {
        lemma_chain_shape_wf(sha.next[0], sha.output, tip);
        assert(child_ok(sha.output, sha.next[0]));
        assert(step_wf(sha)) by {
            assert(forall|i: int| 0 <= i < sha.next.len() ==> #[trigger] sha.next[i] == sha.next[0]);
        }
        assert(spec_roots(sha) =~= spec_roots(sha.next[0])) by {
            assert(spec_roots_list(sha.next) =~= spec_roots(sha.next[0]) + spec_roots_list(
                sha.next.drop_first(),
            ));
            assert(sha.next.drop_first() =~= Seq::<StepV>::empty());
        }
        assert(spec_roots(s) =~= spec_roots(sha)) by {
            assert(spec_roots_list(s.next) =~= spec_roots(sha) + spec_roots_list(
                s.next.drop_first(),
            ));
            assert(s.next.drop_first() =~= Seq::<StepV>::empty());
        }
    }
    assert(step_wf(s)) by {
        assert(forall|i: int| 0 <= i < s.next.len() ==> #[trigger] s.next[i] == s.next[0]);
    }
}

/// Folding one more path entry from a prefix.
proof fn lemma_path_apply_push_take(d: Seq<u8>, path: Seq<(bool, Seq<u8>)>, i: int)
    requires
        0 <= i < path.len(),
    ensures
        path_apply(d, path.take(i + 1)) == ({
            let c = path_apply(d, path.take(i));
            if path[i].0 {
                sha256_of(path[i].1 + c)
            } else {
                sha256_of(c + path[i].1)
            }
        }),
{
    assert(path.take(i + 1) =~= path.take(i).push(path[i]));
    lemma_path_apply_push(d, path.take(i), path[i]);
}

} // verus!
