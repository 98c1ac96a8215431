//! The proof DAG: execution steps from a starting digest to attestations.

use vstd::prelude::*;
use crate::attestation::{Attestation, AttV};
use crate::op::{Op, OpV, op_apply, copy_bytes};

verus! {

/// Mathematical model of the contents of a step.
pub enum StepDataV {
    /// A branch point with no transform.
    Fork,
    /// A deterministic byte transform.
    Op(OpV),
    /// A terminal claim about the digest reached here.
    Attestation(AttV),
}

/// The contents of an execution step.
pub enum StepData {
    /// A branch point with no transform.
    Fork,
    /// A deterministic byte transform.
    Op(Op),
    /// A terminal claim about the digest reached here.
    Attestation(Attestation),
}

/// Mathematical model of a step: its contents, the digest after it, and
/// its ordered children.
#[verifier::ext_equal]
pub struct StepV {
    pub data: StepDataV,
    pub output: Seq<u8>,
    pub next: Seq<StepV>,
}

/// A node of the proof tree, owned exclusively by its parent.
pub struct Step {
    /// The contents of the step.
    pub data: StepData,
    /// The digest value after this node's transform is applied.
    pub output: Vec<u8>,
    /// The ordered children; empty means this step is a leaf.
    pub next: Vec<Step>,
}

/// Mathematical model of a timestamp.
#[verifier::ext_equal]
pub struct TimestampV {
    pub start_digest: Seq<u8>,
    pub first_step: StepV,
}

/// A timestamp: the original committed digest plus the root step.
pub struct Timestamp {
    /// The starting document digest.
    pub start_digest: Vec<u8>,
    /// The root of the proof tree.
    pub first_step: Step,
}

impl View for StepData {
    type V = StepDataV;

    open spec fn view(&self) -> StepDataV {
        match self {
            StepData::Fork => StepDataV::Fork,
            StepData::Op(op) => StepDataV::Op(op@),
            StepData::Attestation(a) => StepDataV::Attestation(a@),
        }
    }
}

/// The model of a step, recursively over its children.
pub open spec fn step_view(s: Step) -> StepV
    decreases s,
{
    StepV { data: s.data@, output: s.output@, next: steps_view(s.next@) }
}

/// The models of a sequence of steps, in order.
pub open spec fn steps_view(ss: Seq<Step>) -> Seq<StepV>
    decreases ss,
{
    if ss.len() == 0 {
        Seq::empty()
    } else {
        seq![step_view(ss[0])] + steps_view(ss.drop_first())
    }
}

/// `steps_view` maps `step_view` over the sequence, element by element.
pub broadcast proof fn lemma_steps_view(ss: Seq<Step>)
    ensures
        (#[trigger] steps_view(ss)).len() == ss.len(),
        forall|i: int| 0 <= i < ss.len() ==> steps_view(ss)[i] == step_view(ss[i]),
    decreases ss,
{
    if ss.len() > 0 {
        lemma_steps_view(ss.drop_first());
        assert(forall|i: int|
            0 < i < ss.len() ==> steps_view(ss)[i] == steps_view(ss.drop_first())[i - 1]);
    }
}

impl View for Step {
    type V = StepV;

    open spec fn view(&self) -> StepV {
        step_view(*self)
    }
}

impl View for Timestamp {
    type V = TimestampV;

    open spec fn view(&self) -> TimestampV {
        TimestampV { start_digest: self.start_digest@, first_step: self.first_step@ }
    }
}

/// Whether a child is consistent with its parent's output: an operation
/// child carries the transformed digest, any other child carries the
/// parent's digest unchanged.
pub open spec fn child_ok(parent_output: Seq<u8>, c: StepV) -> bool {
    match c.data {
        StepDataV::Op(op) => c.output == op_apply(op, parent_output),
        _ => c.output == parent_output,
    }
}

/// Well-formedness of a step: every child's output is consistent with
/// this node's output, recursively. This is the hash-chain invariant; a
/// tree that violates it is a corrupt proof.
pub open spec fn step_wf(s: StepV) -> bool
    decreases s,
{
    forall|i: int|
        0 <= i < s.next.len() ==> child_ok(s.output, #[trigger] s.next[i]) && step_wf(s.next[i])
}

/// Well-formedness of a timestamp: the root step is consistent with the
/// starting digest and the whole tree is well-formed.
pub open spec fn ts_wf(t: TimestampV) -> bool {
    child_ok(t.start_digest, t.first_step) && step_wf(t.first_step)
}

impl StepData {
    /// Makes a deep copy of the step contents.
    pub fn duplicate(&self) -> (r: StepData)
        ensures
            r@ == self@,
    {
        match self {
            StepData::Fork => StepData::Fork,
            StepData::Op(op) => StepData::Op(op.duplicate()),
            StepData::Attestation(a) => StepData::Attestation(a.duplicate()),
        }
    }
}

impl Step {
    /// Makes a deep copy of the step and its subtree.
    pub fn duplicate(&self) -> (r: Step)
        ensures
            r@ == self@,
        decreases *self,
    {
        let mut next: Vec<Step> = Vec::new();
        let mut i: usize = 0;
        while i < self.next.len()
            invariant
                i <= self.next@.len(),
                next@.len() == i,
                forall|j: int|
                    0 <= j < i ==> step_view(next@[j]) == step_view(#[trigger] self.next@[j]),
            decreases self.next@.len() - i,
        {
            proof {
                assert(decreases_to!(self.next => self.next@));
                assert(decreases_to!(self.next@ => self.next@[i as int]));
            }
            let c = self.next[i].duplicate();
            next.push(c);
            i = i + 1;
        }
        let data = self.data.duplicate();
        let ghost gnext = next@;
        let r = Step { data, output: copy_bytes(&self.output), next };
        proof {
            assert(r.next@ == gnext);
            lemma_steps_view(gnext);
            lemma_steps_view(self.next@);
            assert forall|j: int|
                0 <= j < self.next@.len() implies steps_view(gnext)[j] == steps_view(
                self.next@,
            )[j] by {
                assert(steps_view(gnext)[j] == step_view(gnext[j]));
                assert(steps_view(self.next@)[j] == step_view(self.next@[j]));
                assert(step_view(gnext[j]) == step_view(self.next@[j]));
            };
            assert(steps_view(gnext) =~= steps_view(self.next@));
            assert(r@ =~= self@);
        }
        r
    }
}

/// What merging a fragment rooted at `f` for digest `d` does to each step
/// of a child list, in order.
pub open spec fn spec_merge_list(cs: Seq<StepV>, d: Seq<u8>, f: StepV) -> Seq<StepV>
    decreases cs,
{
    if cs.len() == 0 {
        Seq::empty()
    } else {
        seq![spec_merge(cs[0], d, f)] + spec_merge_list(cs.drop_first(), d, f)
    }
}

/// Whether a step is an attestation — at a graft point, the stale claim
/// a merged fragment supersedes.
pub open spec fn is_attestation_step(c: StepV) -> bool {
    c.data is Attestation
}

/// A child list with its attestation steps removed, in order.
pub open spec fn drop_attestations(cs: Seq<StepV>) -> Seq<StepV>
    decreases cs,
{
    if cs.len() == 0 {
        Seq::empty()
    } else if is_attestation_step(cs[0]) {
        drop_attestations(cs.drop_first())
    } else {
        seq![cs[0]] + drop_attestations(cs.drop_first())
    }
}

/// What merging a fragment does to one step: children are merged first;
/// then, where the step's output equals the fragment's starting digest,
/// the fragment root is added as a new child. Its arrival supersedes the
/// attestation children of that step, which are dropped; the operation
/// and fork children — the already-resolved computation branches — are
/// preserved in merged form.
pub open spec fn spec_merge(s: StepV, d: Seq<u8>, f: StepV) -> StepV
    decreases s,
{
    let rec = spec_merge_list(s.next, d, f);
    if s.output == d {
        StepV { data: s.data, output: s.output, next: drop_attestations(rec).push(f) }
    } else {
        StepV { data: s.data, output: s.output, next: rec }
    }
}

/// `spec_merge_list` maps `spec_merge` over the list, element by element.
pub broadcast proof fn lemma_spec_merge_list(cs: Seq<StepV>, d: Seq<u8>, f: StepV)
    ensures
        (#[trigger] spec_merge_list(cs, d, f)).len() == cs.len(),
        forall|i: int| 0 <= i < cs.len() ==> spec_merge_list(cs, d, f)[i] == spec_merge(cs[i], d, f),
    decreases cs,
{
    if cs.len() > 0 {
        lemma_spec_merge_list(cs.drop_first(), d, f);
        assert(forall|i: int|
            0 < i < cs.len() ==> spec_merge_list(cs, d, f)[i] == spec_merge_list(
                cs.drop_first(),
                d,
                f,
            )[i - 1]);
    }
}

/// What appending a step `b` at every leaf does to each step of a child
/// list.
pub open spec fn spec_cat_list(cs: Seq<StepV>, b: StepV) -> Seq<StepV>
    decreases cs,
{
    if cs.len() == 0 {
        Seq::empty()
    } else {
        seq![spec_cat(cs[0], b)] + spec_cat_list(cs.drop_first(), b)
    }
}

/// What appending a step `b` at every leaf does to one step: a leaf gains
/// `b` as its only child; an inner step keeps its contents and recurses.
pub open spec fn spec_cat(s: StepV, b: StepV) -> StepV
    decreases s,
{
    if s.next.len() == 0 {
        StepV { data: s.data, output: s.output, next: seq![b] }
    } else {
        StepV { data: s.data, output: s.output, next: spec_cat_list(s.next, b) }
    }
}

/// `spec_cat_list` maps `spec_cat` over the list, element by element.
pub broadcast proof fn lemma_spec_cat_list(cs: Seq<StepV>, b: StepV)
    ensures
        (#[trigger] spec_cat_list(cs, b)).len() == cs.len(),
        forall|i: int| 0 <= i < cs.len() ==> spec_cat_list(cs, b)[i] == spec_cat(cs[i], b),
    decreases cs,
{
    if cs.len() > 0 {
        lemma_spec_cat_list(cs.drop_first(), b);
        assert(forall|i: int|
            0 < i < cs.len() ==> spec_cat_list(cs, b)[i] == spec_cat_list(cs.drop_first(), b)[i
                - 1]);
    }
}

/// Whether applying an operation to every digest of the tree stays
/// within the machine's address space.
pub open spec fn outputs_fit(s: StepV, op: OpV) -> bool
    decreases s,
{
    (match op {
        OpV::Hexlify => s.output.len() * 2 <= usize::MAX,
        OpV::Append(e) => s.output.len() + e.len() <= usize::MAX,
        OpV::Prepend(e) => s.output.len() + e.len() <= usize::MAX,
        _ => true,
    }) && forall|i: int| 0 <= i < s.next.len() ==> outputs_fit(#[trigger] s.next[i], op)
}

/// What appending a fresh operation step at every leaf does to each
/// step of a child list.
pub open spec fn spec_cat_new_list(cs: Seq<StepV>, op: OpV) -> Seq<StepV>
    decreases cs,
{
    if cs.len() == 0 {
        Seq::empty()
    } else {
        seq![spec_cat_new(cs[0], op)] + spec_cat_new_list(cs.drop_first(), op)
    }
}

/// What appending a fresh operation step at every leaf does to one
/// step: a leaf gains one child applying `op` to that leaf's own
/// output; an inner step keeps its contents and recurses.
pub open spec fn spec_cat_new(s: StepV, op: OpV) -> StepV
    decreases s,
{
    if s.next.len() == 0 {
        StepV {
            data: s.data,
            output: s.output,
            next: seq![
                StepV {
                    data: StepDataV::Op(op),
                    output: op_apply(op, s.output),
                    next: Seq::empty(),
                },
            ],
        }
    } else {
        StepV { data: s.data, output: s.output, next: spec_cat_new_list(s.next, op) }
    }
}

/// `spec_cat_new_list` maps `spec_cat_new` over the list, element by
/// element.
pub broadcast proof fn lemma_spec_cat_new_list(cs: Seq<StepV>, op: OpV)
    ensures
        (#[trigger] spec_cat_new_list(cs, op)).len() == cs.len(),
        forall|i: int|
            0 <= i < cs.len() ==> spec_cat_new_list(cs, op)[i] == spec_cat_new(cs[i], op),
    decreases cs,
{
    if cs.len() > 0 {
        lemma_spec_cat_new_list(cs.drop_first(), op);
        assert(forall|i: int|
            0 < i < cs.len() ==> spec_cat_new_list(cs, op)[i] == spec_cat_new_list(
                cs.drop_first(),
                op,
            )[i - 1]);
    }
}

/// Appending fresh operation steps at the leaves preserves the
/// hash-chain invariant: each grafted child carries exactly the
/// operation applied to its leaf's output.
pub proof fn lemma_cat_new_wf(s: StepV, op: OpV)
    requires
        step_wf(s),
    ensures
        spec_cat_new(s, op).data == s.data,
        spec_cat_new(s, op).output == s.output,
        step_wf(spec_cat_new(s, op)),
    decreases s,
{
    let r = spec_cat_new(s, op);
    if s.next.len() == 0 {
        assert forall|i: int| 0 <= i < r.next.len() implies child_ok(r.output, #[trigger] r.next[i])
            && step_wf(r.next[i]) by {
            assert(r.next[i] == r.next[0]);
        };
    } else {
        lemma_spec_cat_new_list(s.next, op);
        assert forall|i: int| 0 <= i < r.next.len() implies child_ok(r.output, #[trigger] r.next[i])
            && step_wf(r.next[i]) by {
            assert(r.next[i] == spec_cat_new(s.next[i], op));
            lemma_cat_new_wf(s.next[i], op);
        };
    }
}

/// One more processed child extends the prefix by its image.
proof fn lemma_cat_new_list_take(cs: Seq<StepV>, op: OpV, i: int)
    requires
        0 <= i < cs.len(),
    ensures
        spec_cat_new_list(cs.take(i + 1), op) == spec_cat_new_list(cs.take(i), op).push(
            spec_cat_new(cs[i], op),
        ),
    decreases i,
{
    let a = cs.take(i + 1);
    let p = cs.take(i);
    if i == 0 {
        assert(a =~= seq![cs[0]]);
        assert(p =~= Seq::<StepV>::empty());
        assert(a.drop_first() =~= Seq::<StepV>::empty());
        assert(spec_cat_new_list(a, op) =~= spec_cat_new_list(p, op).push(
            spec_cat_new(cs[0], op),
        ));
    } else {
        lemma_cat_new_list_take(cs.drop_first(), op, i - 1);
        assert(a.drop_first() =~= cs.drop_first().take(i));
        assert(p.drop_first() =~= cs.drop_first().take(i - 1));
        assert(cs.drop_first()[i - 1] == cs[i]);
        assert(spec_cat_new_list(a, op) =~= spec_cat_new_list(p, op).push(
            spec_cat_new(cs[i], op),
        ));
    }
}

/// The leaf steps of a subtree, in depth-first order.
pub open spec fn spec_roots(s: StepV) -> Seq<StepV>
    decreases s,
{
    if s.next.len() == 0 {
        seq![s]
    } else {
        spec_roots_list(s.next)
    }
}

/// The leaf steps under each step of a child list, concatenated in order.
pub open spec fn spec_roots_list(cs: Seq<StepV>) -> Seq<StepV>
    decreases cs,
{
    if cs.len() == 0 {
        Seq::empty()
    } else {
        spec_roots(cs[0]) + spec_roots_list(cs.drop_first())
    }
}

/// The attestations of a subtree as (commitment digest, attestation)
/// pairs, in depth-first pre-order.
pub open spec fn atts_list(s: StepV) -> Seq<(Seq<u8>, AttV)>
    decreases s,
{
    (match s.data {
        StepDataV::Attestation(a) => seq![(s.output, a)],
        _ => Seq::empty(),
    }) + atts_list_children(s.next)
}

/// The attestation pairs under each step of a child list, concatenated in
/// order.
pub open spec fn atts_list_children(cs: Seq<StepV>) -> Seq<(Seq<u8>, AttV)>
    decreases cs,
{
    if cs.len() == 0 {
        Seq::empty()
    } else {
        atts_list(cs[0]) + atts_list_children(cs.drop_first())
    }
}

/// An association list folded into a map where a later pair for the same
/// key overrides an earlier one.
pub open spec fn assoc_map(l: Seq<(Seq<u8>, AttV)>) -> Map<Seq<u8>, AttV>
    decreases l.len(),
{
    if l.len() == 0 {
        Map::empty()
    } else {
        assoc_map(l.drop_last()).insert(l.last().0, l.last().1)
    }
}

/// The attestation map of a subtree: depth-first collection where a later
/// attestation at the same commitment overrides an earlier one.
pub open spec fn atts_map(s: StepV) -> Map<Seq<u8>, AttV> {
    assoc_map(atts_list(s))
}

/// The views of a sequence of (digest, attestation) pairs.
pub open spec fn pairs_view(l: Seq<(Vec<u8>, Attestation)>) -> Seq<(Seq<u8>, AttV)> {
    l.map(|_i: int, p: (Vec<u8>, Attestation)| (p.0@, p.1@))
}

/// Appending one more processed child extends the merged prefix by its
/// merged image.
proof fn lemma_merge_list_take(cs: Seq<StepV>, d: Seq<u8>, f: StepV, i: int)
    requires
        0 <= i < cs.len(),
    ensures
        spec_merge_list(cs.take(i + 1), d, f) == spec_merge_list(cs.take(i), d, f).push(
            spec_merge(cs[i], d, f),
        ),
    decreases i,
{
    let a = cs.take(i + 1);
    let b = cs.take(i);
    if i == 0 {
        assert(a =~= seq![cs[0]]);
        assert(b =~= Seq::<StepV>::empty());
        assert(a.drop_first() =~= Seq::<StepV>::empty());
        assert(spec_merge_list(a, d, f) =~= spec_merge_list(b, d, f).push(spec_merge(cs[0], d, f)));
    } else {
        lemma_merge_list_take(cs.drop_first(), d, f, i - 1);
        assert(a.drop_first() =~= cs.drop_first().take(i));
        assert(b.drop_first() =~= cs.drop_first().take(i - 1));
        assert(a[0] == cs[0] && b[0] == cs[0]);
        assert(cs.drop_first()[i - 1] == cs[i]);
        assert(spec_merge_list(a, d, f) =~= spec_merge_list(b, d, f).push(spec_merge(cs[i], d, f)));
    }
}

/// Every element of the filtered list is an element of the original,
/// and none of them is an attestation.
proof fn lemma_drop_attestations_elems(cs: Seq<StepV>)
    ensures
        drop_attestations(cs).len() <= cs.len(),
        forall|k: int|
            0 <= k < drop_attestations(cs).len() ==> !is_attestation_step(#[trigger] drop_attestations(cs)[k])
                && (exists|j: int| 0 <= j < cs.len() && drop_attestations(cs)[k] == cs[j]),
    decreases cs,
{
    if cs.len() > 0 {
        lemma_drop_attestations_elems(cs.drop_first());
        let rest = drop_attestations(cs.drop_first());
        assert forall|k: int|
            0 <= k < drop_attestations(cs).len() implies !is_attestation_step(
            #[trigger] drop_attestations(cs)[k],
        ) && (exists|j: int| 0 <= j < cs.len() && drop_attestations(cs)[k] == cs[j]) by {
            if is_attestation_step(cs[0]) {
                assert(drop_attestations(cs)[k] == rest[k]);
                let j = choose|j: int| 0 <= j < cs.drop_first().len() && rest[k]
                    == cs.drop_first()[j];
                assert(drop_attestations(cs)[k] == cs[j + 1]);
            } else {
                if k == 0 {
                    assert(drop_attestations(cs)[0] == cs[0]);
                } else {
                    assert(drop_attestations(cs)[k] == rest[k - 1]);
                    let j = choose|j: int| 0 <= j < cs.drop_first().len() && rest[k - 1]
                        == cs.drop_first()[j];
                    assert(drop_attestations(cs)[k] == cs[j + 1]);
                }
            }
        };
    }
}

/// A list without attestation steps is left whole.
proof fn lemma_drop_attestations_id(cs: Seq<StepV>)
    requires
        forall|j: int| 0 <= j < cs.len() ==> !is_attestation_step(#[trigger] cs[j]),
    ensures
        drop_attestations(cs) == cs,
    decreases cs,
{
    if cs.len() > 0 {
        lemma_drop_attestations_id(cs.drop_first());
        assert(drop_attestations(cs) =~= cs);
    }
}

/// Filtering distributes over concatenation.
proof fn lemma_drop_attestations_concat(a: Seq<StepV>, b: Seq<StepV>)
    ensures
        drop_attestations(a + b) == drop_attestations(a) + drop_attestations(b),
    decreases a,
{
    if a.len() == 0 {
        assert(a + b =~= b);
        assert(drop_attestations(a) + drop_attestations(b) =~= drop_attestations(b));
    } else {
        lemma_drop_attestations_concat(a.drop_first(), b);
        assert((a + b).drop_first() =~= a.drop_first() + b);
        assert((a + b)[0] == a[0]);
        if is_attestation_step(a[0]) {
            assert(drop_attestations(a + b) =~= drop_attestations(a) + drop_attestations(b));
        } else {
            assert(drop_attestations(a + b) =~= drop_attestations(a) + drop_attestations(b));
        }
    }
}

/// Merging distributes over concatenation of child lists.
proof fn lemma_merge_list_concat(a: Seq<StepV>, b: Seq<StepV>, d: Seq<u8>, f: StepV)
    ensures
        spec_merge_list(a + b, d, f) == spec_merge_list(a, d, f) + spec_merge_list(b, d, f),
    decreases a,
{
    if a.len() == 0 {
        assert(a + b =~= b);
        assert(spec_merge_list(a, d, f) + spec_merge_list(b, d, f) =~= spec_merge_list(b, d, f));
    } else {
        lemma_merge_list_concat(a.drop_first(), b, d, f);
        assert((a + b).drop_first() =~= a.drop_first() + b);
        assert((a + b)[0] == a[0]);
        assert(spec_merge_list(a + b, d, f) =~= spec_merge_list(a, d, f) + spec_merge_list(
            b,
            d,
            f,
        ));
    }
}

/// Merging never changes a step's own contents or output, only its
/// children; and merging a well-formed fragment into a well-formed tree
/// leaves the tree well-formed.
pub proof fn lemma_merge_wf(s: StepV, d: Seq<u8>, f: StepV)
    requires
        step_wf(s),
        child_ok(d, f),
        step_wf(f),
    ensures
        spec_merge(s, d, f).data == s.data,
        spec_merge(s, d, f).output == s.output,
        step_wf(spec_merge(s, d, f)),
    decreases s,
{
    let m = spec_merge(s, d, f);
    let rec = spec_merge_list(s.next, d, f);
    lemma_spec_merge_list(s.next, d, f);
    assert forall|j: int| 0 <= j < rec.len() implies child_ok(s.output, #[trigger] rec[j])
        && step_wf(rec[j]) by {
        assert(rec[j] == spec_merge(s.next[j], d, f));
        lemma_merge_wf(s.next[j], d, f);
    };
    if s.output == d {
        lemma_drop_attestations_elems(rec);
        assert forall|i: int| 0 <= i < m.next.len() implies child_ok(
            m.output,
            #[trigger] m.next[i],
        ) && step_wf(m.next[i]) by {
            if i == m.next.len() - 1 {
                assert(m.next[i] == f);
            } else {
                assert(m.next[i] == drop_attestations(rec)[i]);
                let j = choose|j: int| 0 <= j < rec.len() && drop_attestations(rec)[i] == rec[j];
                assert(m.next[i] == rec[j]);
            }
        };
    }
}

/// Whether `t` occurs as a step of the tree rooted at `s`.
pub open spec fn in_tree(t: StepV, s: StepV) -> bool
    decreases s,
{
    t == s || in_tree_list(t, s.next)
}

/// Whether `t` occurs in some tree of the list.
pub open spec fn in_tree_list(t: StepV, cs: Seq<StepV>) -> bool
    decreases cs,
{
    cs.len() > 0 && (in_tree(t, cs[0]) || in_tree_list(t, cs.drop_first()))
}

/// A member of some element of a list occurs in the list.
proof fn lemma_in_tree_list_elem(t: StepV, cs: Seq<StepV>, i: int)
    requires
        0 <= i < cs.len(),
        in_tree(t, cs[i]),
    ensures
        in_tree_list(t, cs),
    decreases cs,
{
    if i > 0 {
        lemma_in_tree_list_elem(t, cs.drop_first(), i - 1);
    }
}

/// At a step whose output equals the fragment's starting digest, the
/// merged step has the fragment root as its last child; the attestation
/// children it had are gone, and no other child is lost: every
/// remaining child but the fragment is the merged form of an operation
/// or fork child, and every such child survives.
pub proof fn lemma_merge_at_match(s: StepV, d: Seq<u8>, f: StepV)
    requires
        s.output == d,
    ensures
        spec_merge(s, d, f).next.len() >= 1,
        spec_merge(s, d, f).next.last() == f,
        spec_merge(s, d, f).next == drop_attestations(spec_merge_list(s.next, d, f)).push(f),
        forall|i: int|
            0 <= i < spec_merge(s, d, f).next.len() - 1 ==> !is_attestation_step(
                #[trigger] spec_merge(s, d, f).next[i],
            ),
        forall|j: int|
            0 <= j < s.next.len() && !is_attestation_step(#[trigger] s.next[j]) ==> spec_merge(
                s,
                d,
                f,
            ).next.contains(spec_merge(s.next[j], d, f)),
{
    let rec = spec_merge_list(s.next, d, f);
    lemma_spec_merge_list(s.next, d, f);
    lemma_drop_attestations_elems(rec);
    assert forall|j: int|
        0 <= j < s.next.len() && !is_attestation_step(#[trigger] s.next[j]) implies spec_merge(
        s,
        d,
        f,
    ).next.contains(spec_merge(s.next[j], d, f)) by {
        assert(rec[j] == spec_merge(s.next[j], d, f));
        assert(!is_attestation_step(rec[j]));
        lemma_drop_attestations_contains(rec, j);
        let k = choose|k: int| 0 <= k < drop_attestations(rec).len() && drop_attestations(rec)[k] == rec[j];
        assert(spec_merge(s, d, f).next[k] == rec[j]);
    };
}

/// A non-attestation element of a list is still an element after
/// filtering.
proof fn lemma_drop_attestations_contains(cs: Seq<StepV>, j: int)
    requires
        0 <= j < cs.len(),
        !is_attestation_step(cs[j]),
    ensures
        exists|k: int| 0 <= k < drop_attestations(cs).len() && drop_attestations(cs)[k] == cs[j],
    decreases cs,
{
    if j == 0 {
        assert(drop_attestations(cs)[0] == cs[0]);
    } else {
        lemma_drop_attestations_contains(cs.drop_first(), j - 1);
        let rest = drop_attestations(cs.drop_first());
        let k = choose|k: int| 0 <= k < rest.len() && rest[k] == cs.drop_first()[j - 1];
        if is_attestation_step(cs[0]) {
            assert(drop_attestations(cs)[k] == cs[j]);
        } else {
            assert(drop_attestations(cs)[k + 1] == cs[j]);
        }
    }
}

/// A step inside a non-attestation element of a list is inside some
/// element
/// after filtering.
proof fn lemma_in_tree_drop_attestations(x: StepV, cs: Seq<StepV>, j: int)
    requires
        0 <= j < cs.len(),
        in_tree(x, cs[j]),
        !is_attestation_step(cs[j]),
    ensures
        in_tree_list(x, drop_attestations(cs)),
    decreases cs,
{
    if j == 0 {
        assert(drop_attestations(cs)[0] == cs[0]);
        assert(drop_attestations(cs).drop_first() =~= drop_attestations(cs.drop_first()));
    } else {
        lemma_in_tree_drop_attestations(x, cs.drop_first(), j - 1);
        if is_attestation_step(cs[0]) {
        } else {
            assert(drop_attestations(cs).drop_first() =~= drop_attestations(cs.drop_first()));
        }
    }
}

/// Membership in a list survives appending one more element.
proof fn lemma_in_tree_list_push(x: StepV, cs: Seq<StepV>, c: StepV)
    requires
        in_tree_list(x, cs),
    ensures
        in_tree_list(x, cs.push(c)),
    decreases cs,
{
    assert(cs.push(c)[0] == cs[0]);
    if in_tree(x, cs[0]) {
    } else {
        lemma_in_tree_list_push(x, cs.drop_first(), c);
        assert(cs.push(c).drop_first() =~= cs.drop_first().push(c));
    }
}

/// Merge grafting: in a tree whose attestation steps are leaves, every
/// step whose output equals the fragment's starting digest — other than
/// an attestation leaf, which the fragment supersedes — survives the
/// merge, and its merged form carries the fragment root among its
/// children.
pub proof fn lemma_merge_grafting(s: StepV, d: Seq<u8>, f: StepV)
    requires
        forall|t: StepV| #[trigger] in_tree(t, s) && t.data is Attestation ==> t.next.len() == 0,
    ensures
        forall|t: StepV|
            #[trigger] in_tree(t, s) && t.output == d && !is_attestation_step(t) ==> in_tree(
                spec_merge(t, d, f),
                spec_merge(s, d, f),
            ),
    decreases s,
{
    let m = spec_merge(s, d, f);
    let rec = spec_merge_list(s.next, d, f);
    lemma_spec_merge_list(s.next, d, f);
    assert forall|t: StepV|
        #[trigger] in_tree(t, s) && t.output == d && !is_attestation_step(t) implies in_tree(
        spec_merge(t, d, f),
        spec_merge(s, d, f),
    ) by {
        if t == s {
            assert(in_tree(m, m));
        } else {
            assert(in_tree_list(t, s.next));
            lemma_tree_list_witness(t, s.next);
            let i = tree_list_witness(t, s.next);
            assert(in_tree(t, s.next[i]));
            lemma_in_tree_members(s.next, i);
            assert forall|u: StepV| #[trigger] in_tree(u, s.next[i]) implies in_tree(u, s) by {
                assert(in_tree_list(u, s.next));
            };
            lemma_merge_grafting(s.next[i], d, f);
            assert(in_tree(spec_merge(t, d, f), spec_merge(s.next[i], d, f)));
            assert(rec[i] == spec_merge(s.next[i], d, f));
            if s.output == d {
                // An attestation child of `s` is a leaf, so `t` inside it
                // would be that attestation step itself.
                lemma_in_tree_list_elem(s.next[i], s.next, i);
                assert(in_tree(s.next[i], s));
                if is_attestation_step(s.next[i]) {
                    assert(s.next[i].next.len() == 0);
                    assert(t == s.next[i]);
                    assert(false);
                }
                lemma_drop_attestations_elems(rec);
                assert(!is_attestation_step(rec[i]));
                lemma_in_tree_drop_attestations(spec_merge(t, d, f), rec, i);
                lemma_in_tree_list_push(spec_merge(t, d, f), drop_attestations(rec), f);
                assert(in_tree_list(spec_merge(t, d, f), m.next));
            } else {
                assert(m.next[i] == spec_merge(s.next[i], d, f));
                lemma_in_tree_list_elem(spec_merge(t, d, f), m.next, i);
                assert(in_tree(spec_merge(t, d, f), m));
            }
        }
    };
}

/// Superseding is complete: in a well-formed tree, no attestation at
/// the fragment's starting digest survives the merge — except the root
/// itself, which has no parent to drop it, and whatever the fragment
/// brings along.
pub proof fn lemma_merge_supersedes_attestations(s: StepV, d: Seq<u8>, f: StepV)
    requires
        step_wf(s),
    ensures
        forall|t: StepV|
            #[trigger] in_tree(t, spec_merge(s, d, f)) && is_attestation_step(t) && t.output == d
                ==> t == spec_merge(s, d, f) || in_tree(t, f),
    decreases s,
{
    let m = spec_merge(s, d, f);
    let rec = spec_merge_list(s.next, d, f);
    lemma_spec_merge_list(s.next, d, f);
    assert forall|t: StepV|
        #[trigger] in_tree(t, m) && is_attestation_step(t) && t.output == d implies t == m || in_tree(
        t,
        f,
    ) by {
        if t != m {
            assert(in_tree_list(t, m.next));
            lemma_tree_list_witness(t, m.next);
            let k = tree_list_witness(t, m.next);
            if s.output == d {
                if k == m.next.len() - 1 {
                    assert(m.next[k] == f);
                } else {
                    // `t` lives in a kept child: a merged operation or
                    // fork child of `s`.
                    lemma_drop_attestations_elems(rec);
                    assert(m.next[k] == drop_attestations(rec)[k]);
                    let j = choose|j: int| 0 <= j < rec.len() && drop_attestations(rec)[k] == rec[j];
                    assert(m.next[k] == rec[j]);
                    assert(rec[j] == spec_merge(s.next[j], d, f));
                    assert(step_wf(s.next[j]));
                    lemma_merge_supersedes_attestations(s.next[j], d, f);
                    assert(in_tree(t, spec_merge(s.next[j], d, f)));
                    if t == spec_merge(s.next[j], d, f) {
                        assert(!is_attestation_step(drop_attestations(rec)[k]));
                        assert(false);
                    }
                }
            } else {
                assert(m.next[k] == rec[k]);
                assert(rec[k] == spec_merge(s.next[k], d, f));
                assert(step_wf(s.next[k]));
                lemma_merge_supersedes_attestations(s.next[k], d, f);
                assert(in_tree(t, spec_merge(s.next[k], d, f)));
                if t == spec_merge(s.next[k], d, f) {
                    // Then the child itself is an attestation at `d`; by
                    // well-formedness it carries its parent's output, so
                    // `s` would match after all.
                    assert(spec_merge(s.next[k], d, f).data == s.next[k].data);
                    assert(spec_merge(s.next[k], d, f).output == s.next[k].output);
                    assert(is_attestation_step(s.next[k]) && s.next[k].output == d);
                    assert(child_ok(s.output, s.next[k]));
                    assert(s.output == d);
                    assert(false);
                }
            }
        }
    };
}

/// An index of a list element whose tree contains `t`.
spec fn tree_list_witness(t: StepV, cs: Seq<StepV>) -> int
    decreases cs,
{
    if cs.len() == 0 {
        0
    } else if in_tree(t, cs[0]) {
        0
    } else {
        tree_list_witness(t, cs.drop_first()) + 1
    }
}

/// The witness index is valid whenever the list contains `t`.
proof fn lemma_tree_list_witness(t: StepV, cs: Seq<StepV>)
    requires
        in_tree_list(t, cs),
    ensures
        0 <= tree_list_witness(t, cs) < cs.len(),
        in_tree(t, cs[tree_list_witness(t, cs)]),
    decreases cs,
{
    if !(cs.len() > 0 && in_tree(t, cs[0])) {
        lemma_tree_list_witness(t, cs.drop_first());
    }
}

/// Every step in a child's tree is in the parent's tree.
proof fn lemma_in_tree_members(cs: Seq<StepV>, i: int)
    requires
        0 <= i < cs.len(),
    ensures
        forall|u: StepV| in_tree(u, cs[i]) ==> #[trigger] in_tree_list(u, cs),
    decreases cs,
{
    if i > 0 {
        lemma_in_tree_members(cs.drop_first(), i - 1);
        assert forall|u: StepV| in_tree(u, cs[i]) implies #[trigger] in_tree_list(u, cs) by {
            assert(in_tree_list(u, cs.drop_first()));
        };
    }
}

/// Folding a concatenation of association lists folds each in turn,
/// later pairs overriding earlier ones.
proof fn lemma_assoc_map_concat(l1: Seq<(Seq<u8>, AttV)>, l2: Seq<(Seq<u8>, AttV)>)
    ensures
        assoc_map(l1 + l2) == assoc_map(l1).union_prefer_right(assoc_map(l2)),
    decreases l2.len(),
{
    if l2.len() == 0 {
        assert(l1 + l2 =~= l1);
        assert(assoc_map(l1).union_prefer_right(assoc_map(l2)) =~= assoc_map(l1));
    } else {
        lemma_assoc_map_concat(l1, l2.drop_last());
        assert((l1 + l2).drop_last() =~= l1 + l2.drop_last());
        assert((l1 + l2).last() == l2.last());
        assert(assoc_map(l1).union_prefer_right(
            assoc_map(l2.drop_last()).insert(l2.last().0, l2.last().1),
        ) =~= assoc_map(l1).union_prefer_right(assoc_map(l2.drop_last())).insert(
            l2.last().0,
            l2.last().1,
        ));
    }
}

/// Merging a fragment into a tree none of whose steps matches the
/// fragment's starting digest leaves the tree unchanged.
proof fn lemma_merge_noop(s: StepV, d: Seq<u8>, f: StepV)
    requires
        forall|t: StepV| #[trigger] in_tree(t, s) ==> t.output != d,
    ensures
        spec_merge(s, d, f) == s,
    decreases s,
{
    assert(in_tree(s, s));
    lemma_spec_merge_list(s.next, d, f);
    assert forall|i: int| 0 <= i < s.next.len() implies #[trigger] spec_merge_list(
        s.next,
        d,
        f,
    )[i] == s.next[i] by {
        lemma_in_tree_members(s.next, i);
        assert forall|t: StepV| #[trigger] in_tree(t, s.next[i]) implies t.output != d by {
            assert(in_tree_list(t, s.next));
            assert(in_tree(t, s));
        };
        lemma_merge_noop(s.next[i], d, f);
    };
    assert(spec_merge_list(s.next, d, f) =~= s.next);
    assert(spec_merge(s, d, f) =~= s);
}

/// Merging a fragment into itself when only its root can match leaves
/// its attestation map unchanged: the fragment only duplicates itself,
/// and its own attestation children reappear inside the grafted copy.
proof fn lemma_merge_self(f: StepV, d: Seq<u8>)
    requires
        forall|t: StepV| #[trigger] in_tree_list(t, f.next) ==> t.output != d,
    ensures
        atts_map(spec_merge(f, d, f)) == atts_map(f),
        spec_merge(f, d, f).data == f.data,
{
    let m = spec_merge(f, d, f);
    lemma_spec_merge_list(f.next, d, f);
    assert forall|i: int| 0 <= i < f.next.len() implies #[trigger] spec_merge_list(
        f.next,
        d,
        f,
    )[i] == f.next[i] by {
        lemma_in_tree_members(f.next, i);
        assert forall|t: StepV| #[trigger] in_tree(t, f.next[i]) implies t.output != d by {
            assert(in_tree_list(t, f.next));
        };
        lemma_merge_noop(f.next[i], d, f);
    };
    assert(spec_merge_list(f.next, d, f) =~= f.next);
    let own = match f.data {
        StepDataV::Attestation(a) => seq![(f.output, a)],
        _ => Seq::<(Seq<u8>, AttV)>::empty(),
    };
    if f.output == d {
        let dp = drop_attestations(f.next);
        assert(m.next == dp.push(f));
        lemma_atts_children_snoc(dp, f);
        assert(atts_list(m) =~= (own + atts_list_children(dp)) + atts_list(f));
        lemma_assoc_map_concat(own + atts_list_children(dp), atts_list(f));
        let x = assoc_map(own + atts_list_children(dp));
        let y = atts_map(f);
        lemma_assoc_map_concat(own, atts_list_children(dp));
        lemma_assoc_map_concat(own, atts_list_children(f.next));
        lemma_drop_attestations_atts_dom(f.next);
        assert forall|k: Seq<u8>| x.dom().contains(k) implies y.dom().contains(k) by {
            if assoc_map(atts_list_children(dp)).dom().contains(k) {
                assert(assoc_map(atts_list_children(f.next)).dom().contains(k));
            }
        };
        lemma_union_absorb(x, y);
        assert(assoc_map(atts_list(m)) == y);
    } else {
        assert(m =~= f);
    }
}

/// A map folded under a map whose domain covers it disappears.
proof fn lemma_union_absorb(x: Map<Seq<u8>, AttV>, y: Map<Seq<u8>, AttV>)
    requires
        forall|k: Seq<u8>| x.dom().contains(k) ==> y.dom().contains(k),
    ensures
        x.union_prefer_right(y) == y,
{
    assert(x.union_prefer_right(y) =~= y);
}

/// Folding the same map on top twice is folding it once.
proof fn lemma_union_absorb_right(x: Map<Seq<u8>, AttV>, y: Map<Seq<u8>, AttV>)
    ensures
        x.union_prefer_right(y).union_prefer_right(y) == x.union_prefer_right(y),
{
    assert(x.union_prefer_right(y).union_prefer_right(y) =~= x.union_prefer_right(y));
}

/// Dropping attestation children can only shrink the collected key
/// set.
proof fn lemma_drop_attestations_atts_dom(cs: Seq<StepV>)
    ensures
        forall|k: Seq<u8>|
            assoc_map(atts_list_children(drop_attestations(cs))).dom().contains(k)
                ==> #[trigger] assoc_map(atts_list_children(cs)).dom().contains(k),
    decreases cs,
{
    if cs.len() > 0 {
        let c0 = cs[0];
        let rest = cs.drop_first();
        lemma_drop_attestations_atts_dom(rest);
        assert(atts_list_children(cs) =~= atts_list(c0) + atts_list_children(rest));
        lemma_assoc_map_concat(atts_list(c0), atts_list_children(rest));
        if is_attestation_step(c0) {
            assert(drop_attestations(cs) == drop_attestations(rest));
        } else {
            assert(drop_attestations(cs) =~= seq![c0] + drop_attestations(rest));
            assert(atts_list_children(drop_attestations(cs)) =~= atts_list(c0) + atts_list_children(
                drop_attestations(rest),
            )) by {
                assert((seq![c0] + drop_attestations(rest))[0] == c0);
                assert((seq![c0] + drop_attestations(rest)).drop_first() =~= drop_attestations(rest));
            }
            lemma_assoc_map_concat(atts_list(c0), atts_list_children(drop_attestations(rest)));
        }
    }
}

/// Collecting over a child list extended by one more tree appends that
/// tree's pairs.
proof fn lemma_atts_children_snoc(cs: Seq<StepV>, c: StepV)
    ensures
        atts_list_children(cs.push(c)) == atts_list_children(cs) + atts_list(c),
    decreases cs.len(),
{
    reveal_with_fuel(atts_list_children, 3);
    if cs.len() == 0 {
        assert(cs.push(c).drop_first() =~= Seq::<StepV>::empty());
        assert(cs.push(c)[0] == c);
        assert(atts_list_children(cs.push(c)) =~= atts_list_children(cs) + atts_list(c));
    } else {
        lemma_atts_children_snoc(cs.drop_first(), c);
        assert(cs.push(c).drop_first() =~= cs.drop_first().push(c));
        assert(cs.push(c)[0] == cs[0]);
        assert(atts_list_children(cs.push(c)) =~= atts_list_children(cs) + atts_list(c));
    }
}

/// Merge idempotence on structure: merging the same fragment a second
/// time — wherever its starting digest occurs only at the steps it was
/// grafted to, never deeper inside the fragment — leaves the collected
/// attestation map exactly as one merge left it.
pub proof fn lemma_merge_idempotent(s: StepV, d: Seq<u8>, f: StepV)
    requires
        forall|t: StepV| #[trigger] in_tree_list(t, f.next) ==> t.output != d,
    ensures
        atts_map(spec_merge(spec_merge(s, d, f), d, f)) == atts_map(spec_merge(s, d, f)),
    decreases s,
{
    let m = spec_merge(s, d, f);
    let m2 = spec_merge(m, d, f);
    let rec = spec_merge_list(s.next, d, f);
    lemma_spec_merge_list(s.next, d, f);
    let own = match s.data {
        StepDataV::Attestation(a) => seq![(s.output, a)],
        _ => Seq::<(Seq<u8>, AttV)>::empty(),
    };
    assert(m.data == s.data && m.output == s.output);
    assert(m2.data == s.data && m2.output == s.output);
    if s.output != d {
        // No graft here: both merges only rewrite the children, and each
        // child satisfies the claim by induction.
        assert(m.next == rec);
        assert(m2.next == spec_merge_list(m.next, d, f));
        lemma_merge_idempotent_children(s.next, d, f);
        assert(atts_list(m) =~= own + atts_list_children(m.next));
        assert(atts_list(m2) =~= own + atts_list_children(m2.next));
        lemma_assoc_map_concat(own, atts_list_children(m.next));
        lemma_assoc_map_concat(own, atts_list_children(m2.next));
    } else {
        lemma_merge_idempotent_filtered(s.next, d, f);
        lemma_merge_idempotent_match(s, d, f);
    }
}

/// The matched case of the idempotence claim, with the children's claim
/// supplied as a hypothesis.
#[verifier::rlimit(60)]
proof fn lemma_merge_idempotent_match(s: StepV, d: Seq<u8>, f: StepV)
    requires
        forall|t: StepV| #[trigger] in_tree_list(t, f.next) ==> t.output != d,
        s.output == d,
        assoc_map(
            atts_list_children(
                spec_merge_list(drop_attestations(spec_merge_list(s.next, d, f)), d, f),
            ),
        ) == assoc_map(atts_list_children(drop_attestations(spec_merge_list(s.next, d, f)))),
    ensures
        atts_map(spec_merge(spec_merge(s, d, f), d, f)) == atts_map(spec_merge(s, d, f)),
{
    reveal_with_fuel(spec_merge_list, 3);
    reveal_with_fuel(drop_attestations, 3);
    let m = spec_merge(s, d, f);
    let m2 = spec_merge(m, d, f);
    let rec = spec_merge_list(s.next, d, f);
    lemma_spec_merge_list(s.next, d, f);
    let own = match s.data {
        StepDataV::Attestation(a) => seq![(s.output, a)],
        _ => Seq::<(Seq<u8>, AttV)>::empty(),
    };
    assert(m.data == s.data && m.output == s.output);
    assert(m2.data == s.data && m2.output == s.output);
    let kk = drop_attestations(rec);
    assert(m.next == kk.push(f));
    assert(m2.next == drop_attestations(spec_merge_list(m.next, d, f)).push(f));
    // Split the once-merged child list at the grafted fragment.
    assert(kk.push(f) =~= kk + seq![f]);
    lemma_merge_list_concat(kk, seq![f], d, f);
    let fp = spec_merge(f, d, f);
    assert(spec_merge_list(seq![f], d, f) =~= seq![fp]) by {
        assert(seq![f].drop_first() =~= Seq::<StepV>::empty());
        assert(seq![f][0] == f);
    }
    assert(spec_merge_list(m.next, d, f) =~= spec_merge_list(kk, d, f) + seq![fp]);
    lemma_drop_attestations_concat(spec_merge_list(kk, d, f), seq![fp]);
    // The kept children are not attestations, so the second filter
    // leaves them whole.
    lemma_drop_attestations_elems(rec);
    lemma_spec_merge_list(kk, d, f);
    let mlk = spec_merge_list(kk, d, f);
    assert forall|j: int| 0 <= j < mlk.len() implies !is_attestation_step(#[trigger] mlk[j]) by {
        assert(mlk[j] == spec_merge(kk[j], d, f));
        assert(spec_merge(kk[j], d, f).data == kk[j].data);
        assert(!is_attestation_step(kk[j]));
    };
    lemma_drop_attestations_id(mlk);
    lemma_merge_self(f, d);
    assert(assoc_map(atts_list_children(mlk)) == assoc_map(atts_list_children(kk)));
    // The map one merge leaves behind.
    lemma_atts_children_snoc(kk, f);
    assert(atts_list(m) =~= (own + atts_list_children(kk)) + atts_list(f));
    lemma_assoc_map_concat(own + atts_list_children(kk), atts_list(f));
    lemma_assoc_map_concat(own, atts_list_children(kk));
    lemma_assoc_map_concat(own, atts_list_children(mlk));
    let x = assoc_map(own + atts_list_children(kk));
    let y = atts_map(f);
    assert(assoc_map(atts_list(m)) == x.union_prefer_right(y));
    assert(assoc_map(own + atts_list_children(mlk)) == x);
    if is_attestation_step(f) {
        // The grafted copy of an attestation fragment is dropped by the
        // second merge and grafted anew: nothing changes.
        assert(is_attestation_step(fp));
        assert(drop_attestations(seq![fp]) =~= Seq::<StepV>::empty()) by {
            assert(seq![fp].drop_first() =~= Seq::<StepV>::empty());
            assert(seq![fp][0] == fp);
        }
        assert(m2.next =~= mlk.push(f)) by {
            assert(drop_attestations(spec_merge_list(m.next, d, f)) =~= mlk);
        }
        lemma_atts_children_snoc(mlk, f);
        assert(atts_list(m2) =~= (own + atts_list_children(mlk)) + atts_list(f));
        lemma_assoc_map_concat(own + atts_list_children(mlk), atts_list(f));
        assert(assoc_map(atts_list(m2)) == x.union_prefer_right(y));
    } else {
        // The grafted copy survives; its map equals the fragment's, and
        // folding the fragment's map twice is folding it once.
        assert(!is_attestation_step(fp));
        assert(drop_attestations(seq![fp]) =~= seq![fp]);
        assert(m2.next =~= (mlk.push(fp)).push(f)) by {
            assert(drop_attestations(spec_merge_list(m.next, d, f)) =~= mlk + seq![fp]);
            assert(mlk + seq![fp] =~= mlk.push(fp));
        }
        lemma_atts_children_snoc(mlk.push(fp), f);
        lemma_atts_children_snoc(mlk, fp);
        assert(atts_list(m2) =~= ((own + atts_list_children(mlk)) + atts_list(fp)) + atts_list(
            f,
        ));
        lemma_assoc_map_concat((own + atts_list_children(mlk)) + atts_list(fp), atts_list(f));
        lemma_assoc_map_concat(own + atts_list_children(mlk), atts_list(fp));
        assert(assoc_map(atts_list(fp)) == y);
        assert(assoc_map(atts_list(m2)) == x.union_prefer_right(y).union_prefer_right(y));
        lemma_union_absorb_right(x, y);
    }
}

/// The maps of merged child lists agree after a second merge, child by
/// child.
proof fn lemma_merge_idempotent_children(cs: Seq<StepV>, d: Seq<u8>, f: StepV)
    requires
        forall|t: StepV| #[trigger] in_tree_list(t, f.next) ==> t.output != d,
    ensures
        assoc_map(atts_list_children(spec_merge_list(spec_merge_list(cs, d, f), d, f)))
            == assoc_map(atts_list_children(spec_merge_list(cs, d, f))),
    decreases cs,
{
    lemma_spec_merge_list(cs, d, f);
    lemma_spec_merge_list(spec_merge_list(cs, d, f), d, f);
    if cs.len() == 0 {
        assert(spec_merge_list(cs, d, f) =~= Seq::<StepV>::empty());
        assert(spec_merge_list(spec_merge_list(cs, d, f), d, f) =~= Seq::<StepV>::empty());
    } else {
        let m1 = spec_merge_list(cs, d, f);
        let m2 = spec_merge_list(m1, d, f);
        lemma_merge_idempotent(cs[0], d, f);
        lemma_merge_idempotent_children(cs.drop_first(), d, f);
        assert(m1[0] == spec_merge(cs[0], d, f));
        assert(m1.drop_first() =~= spec_merge_list(cs.drop_first(), d, f));
        assert(m2[0] == spec_merge(m1[0], d, f));
        assert(m2.drop_first() =~= spec_merge_list(m1.drop_first(), d, f));
        assert(atts_list_children(m1) =~= atts_list(m1[0]) + atts_list_children(
            m1.drop_first(),
        ));
        assert(atts_list_children(m2) =~= atts_list(m2[0]) + atts_list_children(
            m2.drop_first(),
        ));
        lemma_assoc_map_concat(atts_list(m1[0]), atts_list_children(m1.drop_first()));
        lemma_assoc_map_concat(atts_list(m2[0]), atts_list_children(m2.drop_first()));
    }
}

/// The children a match keeps — the merged operation and fork children
/// — keep their collected map when merged a second time.
proof fn lemma_merge_idempotent_filtered(cs: Seq<StepV>, d: Seq<u8>, f: StepV)
    requires
        forall|t: StepV| #[trigger] in_tree_list(t, f.next) ==> t.output != d,
    ensures
        assoc_map(
            atts_list_children(
                spec_merge_list(drop_attestations(spec_merge_list(cs, d, f)), d, f),
            ),
        ) == assoc_map(atts_list_children(drop_attestations(spec_merge_list(cs, d, f)))),
    decreases cs,
{
    reveal_with_fuel(spec_merge_list, 3);
    reveal_with_fuel(drop_attestations, 3);
    lemma_spec_merge_list(cs, d, f);
    if cs.len() == 0 {
        assert(spec_merge_list(cs, d, f) =~= Seq::<StepV>::empty());
        assert(drop_attestations(Seq::<StepV>::empty()) =~= Seq::<StepV>::empty());
        assert(spec_merge_list(Seq::<StepV>::empty(), d, f) =~= Seq::<StepV>::empty());
    } else {
        let rest = cs.drop_first();
        let m0 = spec_merge(cs[0], d, f);
        assert(spec_merge_list(cs, d, f) =~= seq![m0] + spec_merge_list(rest, d, f));
        let kr = drop_attestations(spec_merge_list(rest, d, f));
        lemma_merge_idempotent_filtered(rest, d, f);
        assert(drop_attestations(seq![m0] + spec_merge_list(rest, d, f)) =~= (if is_attestation_step(
            m0,
        ) {
            kr
        } else {
            seq![m0] + kr
        })) by {
            assert((seq![m0] + spec_merge_list(rest, d, f))[0] == m0);
            assert((seq![m0] + spec_merge_list(rest, d, f)).drop_first() =~= spec_merge_list(
                rest,
                d,
                f,
            ));
        }
        if is_attestation_step(m0) {
            assert(drop_attestations(spec_merge_list(cs, d, f)) == kr);
        } else {
            assert(drop_attestations(spec_merge_list(cs, d, f)) =~= seq![m0] + kr);
            lemma_merge_list_concat(seq![m0], kr, d, f);
            let mm0 = spec_merge(m0, d, f);
            assert(spec_merge_list(seq![m0], d, f) =~= seq![mm0]) by {
                assert(seq![m0].drop_first() =~= Seq::<StepV>::empty());
                assert(seq![m0][0] == m0);
            }
            let lhs_list = spec_merge_list(drop_attestations(spec_merge_list(cs, d, f)), d, f);
            assert(lhs_list =~= seq![mm0] + spec_merge_list(kr, d, f));
            assert(atts_list_children(lhs_list) =~= atts_list(mm0) + atts_list_children(
                spec_merge_list(kr, d, f),
            )) by {
                assert((seq![mm0] + spec_merge_list(kr, d, f))[0] == mm0);
                assert((seq![mm0] + spec_merge_list(kr, d, f)).drop_first()
                    =~= spec_merge_list(kr, d, f));
            }
            assert(atts_list_children(seq![m0] + kr) =~= atts_list(m0) + atts_list_children(
                kr,
            )) by {
                assert((seq![m0] + kr)[0] == m0);
                assert((seq![m0] + kr).drop_first() =~= kr);
            }
            lemma_assoc_map_concat(atts_list(mm0), atts_list_children(spec_merge_list(kr, d, f)));
            lemma_assoc_map_concat(atts_list(m0), atts_list_children(kr));
            lemma_merge_idempotent(cs[0], d, f);
            assert(assoc_map(atts_list(mm0)) == assoc_map(atts_list(m0)));
        }
    }
}

fn step_merged(s: &Step, d: &Vec<u8>, f: &Step) -> (r: Step)
    ensures
        r@ == spec_merge(s@, d@, f@),
    decreases *s,
{
    let ghost scs = steps_view(s.next@);
    proof {
        lemma_steps_view(s.next@);
    }
    let mut new_next: Vec<Step> = Vec::new();
    let mut i: usize = 0;
    while i < s.next.len()
        invariant
            i <= s.next@.len(),
            scs == steps_view(s.next@),
            scs.len() == s.next@.len(),
            forall|j: int| 0 <= j < s.next@.len() ==> scs[j] == step_view(#[trigger] s.next@[j]),
            steps_view(new_next@) == spec_merge_list(scs.take(i as int), d@, f@),
        decreases s.next@.len() - i,
    {
        proof {
            assert(decreases_to!(s.next => s.next@));
            assert(decreases_to!(s.next@ => s.next@[i as int]));
        }
        let c = step_merged(&s.next[i], d, f);
        proof {
            lemma_merge_list_take(scs, d@, f@, i as int);
            lemma_steps_view(new_next@.push(c));
            lemma_steps_view(new_next@);
            assert(steps_view(new_next@.push(c)) =~= steps_view(new_next@).push(c@));
        }
        new_next.push(c);
        i = i + 1;
    }
    proof {
        assert(scs.take(i as int) =~= scs);
    }
    let ghost merged = steps_view(new_next@);
    let matched = crate::op::bytes_eq(&s.output, d);
    if matched {
        // The fragment supersedes the attestation children of this
        // step; the operation and fork children are kept.
        proof {
            lemma_steps_view(new_next@);
            assert(merged.take(0) =~= Seq::<StepV>::empty());
            assert(drop_attestations(Seq::<StepV>::empty()) =~= Seq::<StepV>::empty());
            assert(steps_view(Seq::<Step>::empty()) =~= Seq::<StepV>::empty());
        }
        let mut kept: Vec<Step> = Vec::new();
        let n2 = new_next.len();
        let mut k: usize = 0;
        while k < n2
            invariant
                k <= n2,
                n2 == new_next@.len(),
                merged == steps_view(new_next@),
                merged.len() == new_next@.len(),
                forall|j: int|
                    0 <= j < new_next@.len() ==> merged[j] == step_view(
                        #[trigger] new_next@[j],
                    ),
                steps_view(kept@) == drop_attestations(merged.take(k as int)),
            decreases n2 - k,
        {
            proof {
                lemma_drop_attestations_take(merged, k as int);
            }
            let superseded = matches!(&new_next[k].data, StepData::Attestation(_));
            proof {
                assert(merged[k as int].data == new_next@[k as int].data@);
                assert(superseded == is_attestation_step(merged[k as int]));
            }
            if !superseded {
                let c = new_next[k].duplicate();
                proof {
                    lemma_steps_view(kept@.push(c));
                    lemma_steps_view(kept@);
                    assert(steps_view(kept@.push(c)) =~= steps_view(kept@).push(c@));
                    assert(drop_attestations(merged.take(k + 1)) =~= drop_attestations(
                        merged.take(k as int),
                    ).push(merged[k as int]));
                }
                kept.push(c);
            }
            k = k + 1;
        }
        proof {
            assert(merged.take(k as int) =~= merged);
        }
        new_next = kept;
        let fc = f.duplicate();
        proof {
            lemma_steps_view(new_next@.push(fc));
            lemma_steps_view(new_next@);
            assert(steps_view(new_next@.push(fc)) =~= steps_view(new_next@).push(fc@));
        }
        new_next.push(fc);
    }
    let r = Step { data: s.data.duplicate(), output: copy_bytes(&s.output), next: new_next };
    proof {
        assert(s@.next == scs);
        assert(s@.output == s.output@ && s@.data == s.data@);
        if s.output@ == d@ {
            assert(steps_view(r.next@) =~= drop_attestations(spec_merge_list(scs, d@, f@)).push(f@));
            assert(r@ =~= spec_merge(s@, d@, f@));
        } else {
            assert(r@ =~= spec_merge(s@, d@, f@));
        }
    }
    r
}

/// One more examined child extends the filtered prefix by that child,
/// unless it is an attestation.
proof fn lemma_drop_attestations_take(cs: Seq<StepV>, i: int)
    requires
        0 <= i < cs.len(),
    ensures
        drop_attestations(cs.take(i + 1)) == (if is_attestation_step(cs[i]) {
            drop_attestations(cs.take(i))
        } else {
            drop_attestations(cs.take(i)).push(cs[i])
        }),
    decreases i,
{
    let a = cs.take(i + 1);
    let p = cs.take(i);
    if i == 0 {
        assert(a =~= seq![cs[0]]);
        assert(p =~= Seq::<StepV>::empty());
        assert(a.drop_first() =~= Seq::<StepV>::empty());
        if !is_attestation_step(cs[0]) {
            assert(drop_attestations(a) =~= drop_attestations(p).push(cs[0]));
        }
    } else {
        lemma_drop_attestations_take(cs.drop_first(), i - 1);
        assert(a.drop_first() =~= cs.drop_first().take(i));
        assert(p.drop_first() =~= cs.drop_first().take(i - 1));
        assert(a[0] == cs[0] && p[0] == cs[0]);
        assert(cs.drop_first()[i - 1] == cs[i]);
        if is_attestation_step(cs[i]) {
            assert(drop_attestations(a) =~= drop_attestations(p));
        } else {
            assert(drop_attestations(a) =~= drop_attestations(p).push(cs[i]));
        }
    }
}

impl Step {
    /// Grafts the fragment `b` onto every step of this subtree whose
    /// output equals the fragment's starting digest; the attestation
    /// children of such a step are superseded while its operation and
    /// fork children are preserved.
    pub fn merge(&mut self, b: Timestamp)
        ensures
            final(self)@ == spec_merge(old(self)@, b@.start_digest, b@.first_step),
    {
        let r = step_merged(self, &b.start_digest, &b.first_step);
        *self = r;
    }

    /// Appends `b` as a new child at every leaf of this subtree.
    pub fn cat(&mut self, b: Step)
        ensures
            final(self)@ == spec_cat(old(self)@, b@),
    {
        let r = step_cat(self, &b);
        *self = r;
    }

    /// Appends at every leaf of this subtree a new step applying `op` to
    /// that leaf's own output, so that the hash-chain invariant holds at
    /// each graft.
    pub fn cat_new(&mut self, op: Op)
        requires
            outputs_fit(old(self)@, op@),
        ensures
            final(self)@ == spec_cat_new(old(self)@, op@),
    {
        let r = step_cat_new(self, &op);
        *self = r;
    }

    /// The leaf steps of this subtree, in depth-first order.
    pub fn roots(&self) -> (r: Vec<&Step>)
        ensures
            r@.len() == spec_roots(self@).len(),
            forall|i: int| 0 <= i < r@.len() ==> step_view(*r@[i]) == spec_roots(self@)[i],
    {
        let mut out: Vec<&Step> = Vec::new();
        step_roots(self, &mut out);
        out
    }

    /// The attestations of this subtree keyed by the digest they attest,
    /// in depth-first pre-order; a later pair for the same digest
    /// supersedes an earlier one when read as a mapping.
    pub fn all_attestations(&self) -> (r: Vec<(Vec<u8>, Attestation)>)
        ensures
            pairs_view(r@) == atts_list(self@),
    {
        let mut out: Vec<(Vec<u8>, Attestation)> = Vec::new();
        step_atts(self, &mut out);
        proof {
            assert(pairs_view(out@) =~= atts_list(self@));
        }
        out
    }
}

fn step_cat(s: &Step, b: &Step) -> (r: Step)
    ensures
        r@ == spec_cat(s@, b@),
    decreases *s,
{
    let ghost scs = steps_view(s.next@);
    proof {
        lemma_steps_view(s.next@);
    }
    if s.next.len() == 0 {
        let mut next: Vec<Step> = Vec::new();
        let dup = b.duplicate();
        next.push(dup);
        let ghost gnext = next@;
        let r = Step { data: s.data.duplicate(), output: copy_bytes(&s.output), next };
        proof {
            lemma_steps_view(gnext);
            assert(step_view(gnext[0]) == b@);
            assert(steps_view(r.next@) =~= seq![b@]);
            assert(r@ =~= spec_cat(s@, b@));
        }
        return r;
    }
    let mut new_next: Vec<Step> = Vec::new();
    let mut i: usize = 0;
    while i < s.next.len()
        invariant
            i <= s.next@.len(),
            scs == steps_view(s.next@),
            scs.len() == s.next@.len(),
            forall|j: int| 0 <= j < s.next@.len() ==> scs[j] == step_view(#[trigger] s.next@[j]),
            steps_view(new_next@) == spec_cat_list(scs.take(i as int), b@),
        decreases s.next@.len() - i,
    {
        proof {
            assert(decreases_to!(s.next => s.next@));
            assert(decreases_to!(s.next@ => s.next@[i as int]));
        }
        let c = step_cat(&s.next[i], b);
        proof {
            lemma_cat_list_take(scs, b@, i as int);
            lemma_steps_view(new_next@.push(c));
            lemma_steps_view(new_next@);
            assert(steps_view(new_next@.push(c)) =~= steps_view(new_next@).push(c@));
        }
        new_next.push(c);
        i = i + 1;
    }
    proof {
        assert(scs.take(i as int) =~= scs);
    }
    let r = Step { data: s.data.duplicate(), output: copy_bytes(&s.output), next: new_next };
    proof {
        assert(r@ =~= spec_cat(s@, b@));
    }
    r
}

fn step_cat_new(s: &Step, op: &Op) -> (r: Step)
    requires
        outputs_fit(step_view(*s), op@),
    ensures
        r@ == spec_cat_new(s@, op@),
    decreases *s,
{
    let ghost scs = steps_view(s.next@);
    proof {
        lemma_steps_view(s.next@);
    }
    if s.next.len() == 0 {
        let output = op.execute(&s.output);
        let leaf_child = Step { data: StepData::Op(op.duplicate()), output, next: Vec::new() };
        let mut next: Vec<Step> = Vec::new();
        proof {
            lemma_steps_view(leaf_child.next@);
        }
        next.push(leaf_child);
        let ghost gnext = next@;
        let r = Step { data: s.data.duplicate(), output: copy_bytes(&s.output), next };
        proof {
            lemma_steps_view(gnext);
            assert(step_view(gnext[0]) =~= StepV {
                data: StepDataV::Op(op@),
                output: op_apply(op@, s@.output),
                next: Seq::<StepV>::empty(),
            });
            assert(steps_view(r.next@) =~= seq![step_view(gnext[0])]);
            assert(r@ =~= spec_cat_new(s@, op@));
        }
        return r;
    }
    let mut new_next: Vec<Step> = Vec::new();
    let mut i: usize = 0;
    while i < s.next.len()
        invariant
            i <= s.next@.len(),
            scs == steps_view(s.next@),
            scs.len() == s.next@.len(),
            outputs_fit(step_view(*s), op@),
            forall|j: int| 0 <= j < s.next@.len() ==> scs[j] == step_view(#[trigger] s.next@[j]),
            forall|j: int|
                0 <= j < step_view(*s).next.len() ==> outputs_fit(
                    #[trigger] step_view(*s).next[j],
                    op@,
                ),
            steps_view(new_next@) == spec_cat_new_list(scs.take(i as int), op@),
        decreases s.next@.len() - i,
    {
        proof {
            assert(decreases_to!(s.next => s.next@));
            assert(decreases_to!(s.next@ => s.next@[i as int]));
            assert(outputs_fit(step_view(s.next@[i as int]), op@));
        }
        let c = step_cat_new(&s.next[i], op);
        proof {
            lemma_cat_new_list_take(scs, op@, i as int);
            lemma_steps_view(new_next@.push(c));
            lemma_steps_view(new_next@);
            assert(steps_view(new_next@.push(c)) =~= steps_view(new_next@).push(c@));
        }
        new_next.push(c);
        i = i + 1;
    }
    proof {
        assert(scs.take(i as int) =~= scs);
    }
    let r = Step { data: s.data.duplicate(), output: copy_bytes(&s.output), next: new_next };
    proof {
        assert(r@ =~= spec_cat_new(s@, op@));
    }
    r
}

/// Appending one more processed child extends the prefix by its image.
proof fn lemma_cat_list_take(cs: Seq<StepV>, b: StepV, i: int)
    requires
        0 <= i < cs.len(),
    ensures
        spec_cat_list(cs.take(i + 1), b) == spec_cat_list(cs.take(i), b).push(spec_cat(cs[i], b)),
    decreases i,
{
    let a = cs.take(i + 1);
    let p = cs.take(i);
    if i == 0 {
        assert(a =~= seq![cs[0]]);
        assert(p =~= Seq::<StepV>::empty());
        assert(a.drop_first() =~= Seq::<StepV>::empty());
        assert(spec_cat_list(a, b) =~= spec_cat_list(p, b).push(spec_cat(cs[0], b)));
    } else {
        lemma_cat_list_take(cs.drop_first(), b, i - 1);
        assert(a.drop_first() =~= cs.drop_first().take(i));
        assert(p.drop_first() =~= cs.drop_first().take(i - 1));
        assert(cs.drop_first()[i - 1] == cs[i]);
        assert(spec_cat_list(a, b) =~= spec_cat_list(p, b).push(spec_cat(cs[i], b)));
    }
}

/// One more processed child extends the collected leaves by its leaves.
proof fn lemma_roots_list_take(cs: Seq<StepV>, i: int)
    requires
        0 <= i < cs.len(),
    ensures
        spec_roots_list(cs.take(i + 1)) == spec_roots_list(cs.take(i)) + spec_roots(cs[i]),
    decreases i,
{
    let a = cs.take(i + 1);
    let p = cs.take(i);
    if i == 0 {
        assert(a =~= seq![cs[0]]);
        assert(p =~= Seq::<StepV>::empty());
        assert(a.drop_first() =~= Seq::<StepV>::empty());
        assert(spec_roots_list(a) =~= spec_roots_list(p) + spec_roots(cs[0]));
    } else {
        lemma_roots_list_take(cs.drop_first(), i - 1);
        assert(a.drop_first() =~= cs.drop_first().take(i));
        assert(p.drop_first() =~= cs.drop_first().take(i - 1));
        assert(cs.drop_first()[i - 1] == cs[i]);
        assert(spec_roots_list(a) =~= spec_roots_list(p) + spec_roots(cs[i]));
    }
}

/// One more processed child extends the collected pairs by its pairs.
proof fn lemma_atts_children_take(cs: Seq<StepV>, i: int)
    requires
        0 <= i < cs.len(),
    ensures
        atts_list_children(cs.take(i + 1)) == atts_list_children(cs.take(i)) + atts_list(cs[i]),
    decreases i,
{
    let a = cs.take(i + 1);
    let p = cs.take(i);
    if i == 0 {
        assert(a =~= seq![cs[0]]);
        assert(p =~= Seq::<StepV>::empty());
        assert(a.drop_first() =~= Seq::<StepV>::empty());
        assert(atts_list_children(a) =~= atts_list_children(p) + atts_list(cs[0]));
    } else {
        lemma_atts_children_take(cs.drop_first(), i - 1);
        assert(a.drop_first() =~= cs.drop_first().take(i));
        assert(p.drop_first() =~= cs.drop_first().take(i - 1));
        assert(cs.drop_first()[i - 1] == cs[i]);
        assert(atts_list_children(a) =~= atts_list_children(p) + atts_list(cs[i]));
    }
}

fn step_roots<'a>(s: &'a Step, out: &mut Vec<&'a Step>)
    ensures
        final(out)@.len() == old(out)@.len() + spec_roots(s@).len(),
        forall|i: int| 0 <= i < old(out)@.len() ==> final(out)@[i] == old(out)@[i],
        forall|i: int|
            0 <= i < spec_roots(s@).len() ==> step_view(*final(out)@[old(out)@.len() + i])
                == spec_roots(s@)[i],
    decreases *s,
{
    let ghost scs = steps_view(s.next@);
    proof {
        lemma_steps_view(s.next@);
    }
    if s.next.len() == 0 {
        proof {
            assert(s@.next =~= Seq::<StepV>::empty());
            assert(spec_roots(s@) =~= seq![s@]);
        }
        out.push(s);
        return ;
    }
    let ghost base = out@;
    let mut i: usize = 0;
    while i < s.next.len()
        invariant
            i <= s.next@.len(),
            scs == steps_view(s.next@),
            scs.len() == s.next@.len(),
            scs.len() > 0,
            forall|j: int| 0 <= j < s.next@.len() ==> scs[j] == step_view(#[trigger] s.next@[j]),
            out@.len() == base.len() + spec_roots_list(scs.take(i as int)).len(),
            forall|j: int| 0 <= j < base.len() ==> out@[j] == base[j],
            forall|j: int|
                0 <= j < spec_roots_list(scs.take(i as int)).len() ==> step_view(
                    *out@[base.len() + j],
                ) == spec_roots_list(scs.take(i as int))[j],
        decreases s.next@.len() - i,
    {
        proof {
            assert(decreases_to!(s.next => s.next@));
            assert(decreases_to!(s.next@ => s.next@[i as int]));
        }
        step_roots(&s.next[i], out);
        proof {
            lemma_roots_list_take(scs, i as int);
        }
        i = i + 1;
    }
    proof {
        assert(scs.take(i as int) =~= scs);
        assert(spec_roots(s@) == spec_roots_list(scs));
    }
}

fn step_atts(s: &Step, out: &mut Vec<(Vec<u8>, Attestation)>)
    ensures
        pairs_view(final(out)@) == pairs_view(old(out)@) + atts_list(s@),
    decreases *s,
{
    let ghost scs = steps_view(s.next@);
    proof {
        lemma_steps_view(s.next@);
    }
    if let StepData::Attestation(a) = &s.data {
        let pair = (copy_bytes(&s.output), a.duplicate());
        proof {
            assert(pairs_view(out@.push(pair)) =~= pairs_view(out@).push((s@.output, s@.data->Attestation_0)));
        }
        out.push(pair);
    }
    let ghost base = pairs_view(out@);
    let ghost own = atts_list(s@).take(atts_list(s@).len() - atts_list_children(s@.next).len());
    let mut i: usize = 0;
    while i < s.next.len()
        invariant
            i <= s.next@.len(),
            scs == steps_view(s.next@),
            scs.len() == s.next@.len(),
            forall|j: int| 0 <= j < s.next@.len() ==> scs[j] == step_view(#[trigger] s.next@[j]),
            pairs_view(out@) == base + atts_list_children(scs.take(i as int)),
        decreases s.next@.len() - i,
    {
        proof {
            assert(decreases_to!(s.next => s.next@));
            assert(decreases_to!(s.next@ => s.next@[i as int]));
            assert(base + atts_list_children(scs.take(i as int)) + atts_list(scs[i as int]) =~= base
                + (atts_list_children(scs.take(i as int)) + atts_list(scs[i as int])));
        }
        step_atts(&s.next[i], out);
        proof {
            lemma_atts_children_take(scs, i as int);
        }
        i = i + 1;
    }
    proof {
        assert(scs.take(i as int) =~= scs);
        assert(s@.next == scs);
        match s@.data {
            StepDataV::Attestation(a) => {
                assert(base =~= pairs_view(old(out)@) + seq![(s@.output, a)]);
                assert(base + atts_list_children(scs) =~= pairs_view(old(out)@) + atts_list(s@));
            },
            _ => {
                assert(base + atts_list_children(scs) =~= pairs_view(old(out)@) + atts_list(s@));
            },
        }
    }
}

impl Timestamp {
    /// Grafts the fragment `b` onto every step of this tree whose output
    /// equals the fragment's starting digest.
    pub fn merge(&mut self, b: Timestamp)
        ensures
            final(self)@.start_digest == old(self)@.start_digest,
            final(self)@.first_step == spec_merge(
                old(self)@.first_step,
                b@.start_digest,
                b@.first_step,
            ),
    {
        let r = step_merged(&self.first_step, &b.start_digest, &b.first_step);
        self.first_step = r;
    }

    /// Appends `b` as a new child at every leaf of this tree.
    pub fn cat(&mut self, b: Step)
        ensures
            final(self)@.start_digest == old(self)@.start_digest,
            final(self)@.first_step == spec_cat(old(self)@.first_step, b@),
    {
        let r = step_cat(&self.first_step, &b);
        self.first_step = r;
    }

    /// The leaf steps of this tree, in depth-first order.
    pub fn roots(&self) -> (r: Vec<&Step>)
        ensures
            r@.len() == spec_roots(self@.first_step).len(),
            forall|i: int|
                0 <= i < r@.len() ==> step_view(*r@[i]) == spec_roots(self@.first_step)[i],
    {
        self.first_step.roots()
    }

    /// The attestations of this tree keyed by the digest they attest, in
    /// depth-first pre-order.
    pub fn all_attestations(&self) -> (r: Vec<(Vec<u8>, Attestation)>)
        ensures
            pairs_view(r@) == atts_list(self@.first_step),
    {
        self.first_step.all_attestations()
    }
}

impl Timestamp {
    /// Makes a deep copy of the timestamp.
    pub fn duplicate(&self) -> (r: Timestamp)
        ensures
            r@ == self@,
    {
        let r = Timestamp {
            start_digest: copy_bytes(&self.start_digest),
            first_step: self.first_step.duplicate(),
        };
        proof {
            assert(r@ =~= self@);
        }
        r
    }
}

} // verus!
