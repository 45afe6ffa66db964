//! The protocol's guarantees, proved of compiled segments.
//!
//! The lemmas here trace a compiled segment's execution on its witness
//! through the machine semantics, phase by phase, and end in the protocol
//! laws: a well-paired script and witness run to completion and leave one
//! marker ([`lemma_pairing`]); honest commitments leave the no-fault marker
//! ([`lemma_honesty`]); one flipped committed result byte leaves the fault
//! marker ([`lemma_fraud_sensitivity`]); and a corrupted direct-reveal
//! parameter witness aborts before any result is considered
//! ([`lemma_direct_reveal_bypass`]).

use vstd::prelude::*;
use crate::assigner::BCAssigner;
use crate::assigner::DummyAssigner;
use crate::element::ElementV;
use crate::element::commit_len;
use crate::element::is_proof_name;
use crate::hashing::HASH_LENGTH;
use crate::hashing::hash_elems;
use crate::script::OpV;
use crate::script::exec_ops;
use crate::script::fault_elem;
use crate::script::lemma_exec_one;
use crate::script::lemma_exec_ops_app;
use crate::script::no_fault_elem;
use crate::script::step;
use crate::segment::SegmentV;
use crate::segment::check_ops;
use crate::segment::compile_spec;
use crate::segment::hints_flat;
use crate::segment::phase1_ops;
use crate::segment::phase2_ops;
use crate::segment::phase3_ops;
use crate::segment::phase4_hash;
use crate::segment::res_openings;
use crate::segment::rev_openings;
use crate::segment::values_flat;
use crate::segment::witness_spec;

verus! {

/// The committed result messages as they sit on the auxiliary stack after
/// the first phase: deepest message belongs to the last result.
pub open spec fn msgs_rev<A: BCAssigner>(a: &A, results: Seq<ElementV>) -> Seq<Seq<u8>>
    decreases results.len(),
{
    if results.len() == 0 {
        Seq::empty()
    } else {
        a.committed_message(results.last()) + msgs_rev(a, results.drop_last())
    }
}

/// The committed parameter messages as they sit on the auxiliary stack
/// after the second phase: deepest message belongs to the first parameter.
pub open spec fn msgs_fwd<A: BCAssigner>(a: &A, params: Seq<ElementV>) -> Seq<Seq<u8>>
    decreases params.len(),
{
    if params.len() == 0 {
        Seq::empty()
    } else {
        msgs_fwd(a, params.drop_last()) + a.committed_message(params.last())
    }
}

/// A family of supplied value blocks, one per element, flattened in order.
pub open spec fn sv_flat(sv: Seq<Seq<Seq<u8>>>) -> Seq<Seq<u8>>
    decreases sv.len(),
{
    if sv.len() == 0 {
        Seq::empty()
    } else {
        sv_flat(sv.drop_last()) + sv.last()
    }
}

/// One block per listed element, of that element's declared size.
pub open spec fn blocks_wf(elems: Seq<ElementV>, sv: Seq<Seq<Seq<u8>>>) -> bool {
    &&& sv.len() == elems.len()
    &&& forall|k: int| 0 <= k < sv.len() ==> (#[trigger] sv[k]).len() == elems[k].size
}

/// What the supplied value block must open to for parameter `p`'s check to
/// pass: the raw block for a direct-reveal name, its hash otherwise.
pub open spec fn sv_commit(p: ElementV, sv: Seq<Seq<u8>>) -> Seq<Seq<u8>> {
    if is_proof_name(p.id) {
        sv
    } else {
        hash_elems(sv)
    }
}

/// Every parameter's supplied value opens its commitment.
pub open spec fn checks_ok<A: BCAssigner>(
    a: &A,
    params: Seq<ElementV>,
    sv: Seq<Seq<Seq<u8>>>,
) -> bool {
    forall|k: int|
        0 <= k < params.len() ==> a.committed_message(#[trigger] params[k]) == sv_commit(
            params[k],
            sv[k],
        )
}

/// All listed elements are within the capability's reach.
pub open spec fn all_ok<A: BCAssigner>(a: &A, elems: Seq<ElementV>) -> bool {
    forall|k: int| 0 <= k < elems.len() ==> a.elem_ok(#[trigger] elems[k])
}

/// No listed element bears a direct-reveal name.
pub open spec fn none_direct(elems: Seq<ElementV>) -> bool {
    forall|k: int| 0 <= k < elems.len() ==> !is_proof_name((#[trigger] elems[k]).id)
}

/// The recomputed result hashes as they sit on the auxiliary stack after
/// the fourth phase: deepest hash belongs to the last result.
pub open spec fn comp_rev(results: Seq<ElementV>, out: Seq<Seq<Seq<u8>>>) -> Seq<Seq<u8>>
    decreases results.len(),
{
    if results.len() == 0 {
        Seq::empty()
    } else {
        hash_elems(out.last()) + comp_rev(results.drop_last(), out.drop_last())
    }
}

/// Every committed result hash equals the hash of the recomputed block.
pub open spec fn results_match<A: BCAssigner>(
    a: &A,
    results: Seq<ElementV>,
    out: Seq<Seq<Seq<u8>>>,
) -> bool {
    forall|k: int|
        0 <= k < results.len() ==> a.committed_message(#[trigger] results[k]) == hash_elems(
            out[k],
        )
}

/// Phase 1: the result openings on top of the main stack are consumed one
/// by one, in reverse result order, and the committed result messages pile
/// up on the auxiliary stack.
pub proof fn lemma_phase1<A: BCAssigner>(
    a: &A,
    results: Seq<ElementV>,
    m: Seq<Seq<u8>>,
    alt: Seq<Seq<u8>>,
)
    requires
        all_ok(a, results),
        none_direct(results),
    ensures
        exec_ops(phase1_ops(a, results), m + res_openings(a, results), alt) == Some(
            (m, alt + msgs_rev(a, results)),
        ),
    decreases results.len(),
{
    if results.len() == 0 {
        assert(m + res_openings(a, results) =~= m);
        assert(alt + msgs_rev(a, results) =~= alt);
    } else {
        let r = results.last();
        let rest = results.drop_last();
        let ops1 = a.lock_ops(r);
        let op2 = OpV::ToAlt(HASH_LENGTH as nat);
        let tail = phase1_ops(a, rest);
        assert(phase1_ops(a, results) == ops1 + seq![op2] + tail);
        let base = m + res_openings(a, rest);
        assert(m + res_openings(a, results) =~= base + a.opening(r));
        a.lock_correct(r, base, alt);
        assert(commit_len(r) == HASH_LENGTH);
        let msg = a.committed_message(r);
        let mid = base + msg;
        lemma_exec_one(op2, mid, alt);
        assert(mid.len() - (HASH_LENGTH as nat) == base.len());
        assert(mid.take(base.len() as int) =~= base);
        assert(mid.skip(base.len() as int) =~= msg);
        assert(step(op2, mid, alt) == Some((base, alt + msg)));
        lemma_phase1(a, rest, m, alt + msg);
        assert((alt + msg) + msgs_rev(a, rest) =~= alt + msgs_rev(a, results));
        lemma_exec_ops_app(ops1 + seq![op2], tail, m + res_openings(a, results), alt);
        lemma_exec_ops_app(ops1, seq![op2], m + res_openings(a, results), alt);
    }
}

/// Splitting the reversed parameter openings at the first parameter.
pub proof fn lemma_rev_openings_front<A: BCAssigner>(a: &A, params: Seq<ElementV>)
    requires
        params.len() > 0,
    ensures
        rev_openings(a, params) == rev_openings(a, params.skip(1)) + a.opening(params[0]),
    decreases params.len(),
{
    if params.len() == 1 {
        assert(params.drop_last() =~= Seq::<ElementV>::empty());
        assert(params.skip(1) =~= Seq::<ElementV>::empty());
        assert(rev_openings(a, params) =~= rev_openings(a, params.skip(1)) + a.opening(
            params[0],
        ));
    } else {
        let dl = params.drop_last();
        lemma_rev_openings_front(a, dl);
        assert(params.skip(1).drop_last() =~= dl.skip(1));
        assert(params.skip(1).last() == params.last());
        assert(dl[0] == params[0]);
        assert(rev_openings(a, params.skip(1)) == a.opening(params.last()) + rev_openings(
            a,
            dl.skip(1),
        ));
        assert(rev_openings(a, params) =~= rev_openings(a, params.skip(1)) + a.opening(
            params[0],
        ));
    }
}

/// Splitting the forward parameter messages at the first parameter.
pub proof fn lemma_msgs_fwd_front<A: BCAssigner>(a: &A, params: Seq<ElementV>)
    requires
        params.len() > 0,
    ensures
        msgs_fwd(a, params) == a.committed_message(params[0]) + msgs_fwd(a, params.skip(1)),
    decreases params.len(),
{
    if params.len() == 1 {
        assert(params.drop_last() =~= Seq::<ElementV>::empty());
        assert(params.skip(1) =~= Seq::<ElementV>::empty());
        assert(msgs_fwd(a, params) =~= a.committed_message(params[0]) + msgs_fwd(
            a,
            params.skip(1),
        ));
    } else {
        let dl = params.drop_last();
        lemma_msgs_fwd_front(a, dl);
        assert(params.skip(1).drop_last() =~= dl.skip(1));
        assert(params.skip(1).last() == params.last());
        assert(dl[0] == params[0]);
        assert(msgs_fwd(a, params.skip(1)) == msgs_fwd(a, dl.skip(1)) + a.committed_message(
            params.last(),
        ));
        assert(msgs_fwd(a, params) =~= a.committed_message(params[0]) + msgs_fwd(
            a,
            params.skip(1),
        ));
    }
}

/// Phase 2: the parameter openings are consumed in forward parameter
/// order and the committed parameter messages pile up on the auxiliary
/// stack, above whatever already sits there.
pub proof fn lemma_phase2<A: BCAssigner>(
    a: &A,
    params: Seq<ElementV>,
    m: Seq<Seq<u8>>,
    alt: Seq<Seq<u8>>,
)
    requires
        all_ok(a, params),
    ensures
        exec_ops(phase2_ops(a, params), m + rev_openings(a, params), alt) == Some(
            (m, alt + msgs_fwd(a, params)),
        ),
    decreases params.len(),
{
    if params.len() == 0 {
        assert(m + rev_openings(a, params) =~= m);
        assert(alt + msgs_fwd(a, params) =~= alt);
    } else {
        let p = params[0];
        let rest = params.skip(1);
        let ops1 = a.lock_ops(p);
        let op2 = OpV::ToAlt(commit_len(p));
        let tail = phase2_ops(a, rest);
        assert(phase2_ops(a, params) == ops1 + seq![op2] + tail);
        lemma_rev_openings_front(a, params);
        let base = m + rev_openings(a, rest);
        assert(m + rev_openings(a, params) =~= base + a.opening(p));
        a.lock_correct(p, base, alt);
        let msg = a.committed_message(p);
        let mid = base + msg;
        lemma_exec_one(op2, mid, alt);
        assert(mid.take(base.len() as int) =~= base);
        assert(mid.skip(base.len() as int) =~= msg);
        assert(step(op2, mid, alt) == Some((base, alt + msg)));
        lemma_phase2(a, rest, m, alt + msg);
        lemma_msgs_fwd_front(a, params);
        assert((alt + msg) + msgs_fwd(a, rest) =~= alt + msgs_fwd(a, params));
        lemma_exec_ops_app(ops1 + seq![op2], tail, m + rev_openings(a, params), alt);
        lemma_exec_ops_app(ops1, seq![op2], m + rev_openings(a, params), alt);
    }
}

/// The hash of a block is always [`HASH_LENGTH`] elements.
pub proof fn lemma_hash_elems_len(sv: Seq<Seq<u8>>)
    ensures
        hash_elems(sv).len() == HASH_LENGTH,
{
    crate::hashing::lemma_hash_len(crate::hashing::concat_elems(sv));
}

/// One direct-reveal parameter check, stepped through the machine.
#[verifier::rlimit(100)]
proof fn lemma_check_one_direct<A: BCAssigner>(
    a: &A,
    p: ElementV,
    block: Seq<Seq<u8>>,
    lower: Seq<Seq<u8>>,
    t: Seq<Seq<u8>>,
    alt_rest: Seq<Seq<u8>>,
    base: nat,
)
    requires
        a.elem_ok(p),
        block.len() == p.size,
        t.len() == base,
        is_proof_name(p.id),
    ensures
        a.committed_message(p) == sv_commit(p, block) ==> exec_ops(
            check_ops(p, base),
            (lower + block) + t,
            alt_rest + a.committed_message(p),
        ) == Some(((lower + block) + t, alt_rest)),
        a.committed_message(p) != sv_commit(p, block) ==> exec_ops(
            check_ops(p, base),
            (lower + block) + t,
            alt_rest + a.committed_message(p),
        ) is None,
{
    let stack = (lower + block) + t;
    a.lock_correct(p, Seq::empty(), Seq::empty());
    let msg = a.committed_message(p);
    let alt_full = alt_rest + msg;
    let ll = stack.len();
    assert(ll == lower.len() + block.len() + t.len());
    assert(commit_len(p) == p.size);

    let o1 = OpV::Pick(base, p.size);
    let o2 = OpV::FromAlt(p.size);
    let o3 = OpV::EqVerify(p.size);
    assert(check_ops(p, base) == seq![o1, o2, o3]);
    assert(check_ops(p, base)[0] == o1);
    assert(check_ops(p, base).skip(1) =~= seq![o2, o3]);
    assert(seq![o2, o3][0] == o2);
    assert(seq![o2, o3].skip(1) =~= seq![o3]);

    assert(stack.subrange(ll - base - p.size, ll - base) =~= block);
    let s1 = stack + block;
    assert(step(o1, stack, alt_full) == Some((s1, alt_full)));

    assert(alt_full.skip(alt_full.len() - msg.len()) =~= msg);
    assert(alt_full.take(alt_full.len() - msg.len()) =~= alt_rest);
    let s2 = s1 + msg;
    assert(step(o2, s1, alt_full) == Some((s2, alt_rest)));

    assert(s2.subrange(s2.len() - p.size, s2.len() as int) =~= msg);
    assert(s2.subrange(s2.len() - 2 * p.size, s2.len() - p.size) =~= block);
    lemma_exec_one(o3, s2, alt_rest);
    if msg == sv_commit(p, block) {
        assert(s2.take(s2.len() - 2 * p.size) =~= stack);
        assert(step(o3, s2, alt_rest) == Some((stack, alt_rest)));
    } else {
        assert(step(o3, s2, alt_rest) is None);
    }
    assert(exec_ops(seq![o2, o3], s1, alt_full) == exec_ops(seq![o3], s2, alt_rest));
    assert(exec_ops(check_ops(p, base), stack, alt_full) == exec_ops(seq![o2, o3], s1, alt_full));
}

/// One hashed parameter check, stepped through the machine.
#[verifier::rlimit(100)]
proof fn lemma_check_one_hashed<A: BCAssigner>(
    a: &A,
    p: ElementV,
    block: Seq<Seq<u8>>,
    lower: Seq<Seq<u8>>,
    t: Seq<Seq<u8>>,
    alt_rest: Seq<Seq<u8>>,
    base: nat,
)
    requires
        a.elem_ok(p),
        block.len() == p.size,
        t.len() == base,
        !is_proof_name(p.id),
    ensures
        a.committed_message(p) == sv_commit(p, block) ==> exec_ops(
            check_ops(p, base),
            (lower + block) + t,
            alt_rest + a.committed_message(p),
        ) == Some(((lower + block) + t, alt_rest)),
        a.committed_message(p) != sv_commit(p, block) ==> exec_ops(
            check_ops(p, base),
            (lower + block) + t,
            alt_rest + a.committed_message(p),
        ) is None,
{
    let stack = (lower + block) + t;
    a.lock_correct(p, Seq::empty(), Seq::empty());
    let msg = a.committed_message(p);
    let alt_full = alt_rest + msg;
    let ll = stack.len();
    assert(ll == lower.len() + block.len() + t.len());
    assert(commit_len(p) == HASH_LENGTH);

    let o1 = OpV::Pick(base, p.size);
    let o2 = OpV::HashTop(p.size);
    let o3 = OpV::FromAlt(HASH_LENGTH as nat);
    let o4 = OpV::EqVerify(HASH_LENGTH as nat);
    assert(check_ops(p, base) == seq![o1, o2, o3, o4]);
    assert(check_ops(p, base)[0] == o1);
    assert(check_ops(p, base).skip(1) =~= seq![o2, o3, o4]);
    assert(seq![o2, o3, o4][0] == o2);
    assert(seq![o2, o3, o4].skip(1) =~= seq![o3, o4]);
    assert(seq![o3, o4][0] == o3);
    assert(seq![o3, o4].skip(1) =~= seq![o4]);

    assert(stack.subrange(ll - base - p.size, ll - base) =~= block);
    let s1 = stack + block;
    assert(step(o1, stack, alt_full) == Some((s1, alt_full)));

    let h = hash_elems(block);
    lemma_hash_elems_len(block);
    assert(s1.skip(s1.len() - p.size) =~= block);
    assert(s1.take(s1.len() - p.size) =~= stack);
    let s2 = stack + h;
    assert(step(o2, s1, alt_full) == Some((s2, alt_full)));

    assert(alt_full.skip(alt_full.len() - msg.len()) =~= msg);
    assert(alt_full.take(alt_full.len() - msg.len()) =~= alt_rest);
    let s3 = s2 + msg;
    assert(step(o3, s2, alt_full) == Some((s3, alt_rest)));

    assert(s3.subrange(s3.len() - (HASH_LENGTH as int), s3.len() as int) =~= msg);
    assert(s3.subrange(
        s3.len() - 2 * (HASH_LENGTH as int),
        s3.len() - (HASH_LENGTH as int),
    ) =~= h);
    lemma_exec_one(o4, s3, alt_rest);
    if msg == sv_commit(p, block) {
        assert(s3.take(s3.len() - 2 * (HASH_LENGTH as int)) =~= stack);
        assert(step(o4, s3, alt_rest) == Some((stack, alt_rest)));
    } else {
        assert(step(o4, s3, alt_rest) is None);
    }
    assert(exec_ops(seq![o3, o4], s2, alt_full) == exec_ops(seq![o4], s3, alt_rest));
    assert(exec_ops(seq![o2, o3, o4], s1, alt_full) == exec_ops(seq![o3, o4], s2, alt_full));
    assert(exec_ops(check_ops(p, base), stack, alt_full) == exec_ops(
        seq![o2, o3, o4],
        s1,
        alt_full,
    ));
}

/// One parameter check: with the parameter's raw block `base` elements
/// below the top and its committed message on top of the auxiliary stack,
/// the check consumes the message and leaves both stacks as they were
/// exactly when the block opens the commitment, and aborts otherwise.
pub proof fn lemma_check_one<A: BCAssigner>(
    a: &A,
    p: ElementV,
    block: Seq<Seq<u8>>,
    lower: Seq<Seq<u8>>,
    t: Seq<Seq<u8>>,
    alt_rest: Seq<Seq<u8>>,
    base: nat,
)
    requires
        a.elem_ok(p),
        block.len() == p.size,
        t.len() == base,
    ensures
        a.committed_message(p) == sv_commit(p, block) ==> exec_ops(
            check_ops(p, base),
            (lower + block) + t,
            alt_rest + a.committed_message(p),
        ) == Some(((lower + block) + t, alt_rest)),
        a.committed_message(p) != sv_commit(p, block) ==> exec_ops(
            check_ops(p, base),
            (lower + block) + t,
            alt_rest + a.committed_message(p),
        ) is None,
{
    if is_proof_name(p.id) {
        lemma_check_one_direct(a, p, block, lower, t, alt_rest, base);
    } else {
        lemma_check_one_hashed(a, p, block, lower, t, alt_rest, base);
    }
}

/// Phase 3: with the raw value blocks laid out in parameter order under
/// `t` extra elements, and the committed parameter messages on top of the
/// auxiliary stack, the checks pass — leaving both stacks as they were
/// below those messages — exactly when every supplied block opens its
/// commitment; one failing block aborts the execution.
pub proof fn lemma_phase3<A: BCAssigner>(
    a: &A,
    params: Seq<ElementV>,
    sv: Seq<Seq<Seq<u8>>>,
    m: Seq<Seq<u8>>,
    alt: Seq<Seq<u8>>,
    base: nat,
    t: Seq<Seq<u8>>,
)
    requires
        all_ok(a, params),
        blocks_wf(params, sv),
        t.len() == base,
    ensures
        checks_ok(a, params, sv) ==> exec_ops(
            phase3_ops(params, base),
            (m + sv_flat(sv)) + t,
            alt + msgs_fwd(a, params),
        ) == Some((((m + sv_flat(sv)) + t), alt)),
        !checks_ok(a, params, sv) ==> exec_ops(
            phase3_ops(params, base),
            (m + sv_flat(sv)) + t,
            alt + msgs_fwd(a, params),
        ) is None,
    decreases params.len(),
{
    let stack = (m + sv_flat(sv)) + t;
    if params.len() == 0 {
        assert(alt + msgs_fwd(a, params) =~= alt);
        assert(checks_ok(a, params, sv));
    } else {
        let n = params.len();
        let p = params.last();
        let block = sv.last();
        let dl = params.drop_last();
        let svdl = sv.drop_last();
        let msg = a.committed_message(p);
        let lower = m + sv_flat(svdl);
        assert(stack =~= (lower + block) + t);

        let tail = phase3_ops(dl, base + p.size);
        assert(phase3_ops(params, base) == check_ops(p, base) + tail);
        lemma_exec_ops_app(check_ops(p, base), tail, stack, alt + msgs_fwd(a, params));

        assert(msgs_fwd(a, params) == msgs_fwd(a, dl) + msg);
        let alt_rest = alt + msgs_fwd(a, dl);
        assert(alt + msgs_fwd(a, params) =~= alt_rest + msg);
        lemma_check_one(a, p, block, lower, t, alt_rest, base);

        let passes = msg == sv_commit(p, block);
        if passes {
            lemma_phase3(a, dl, svdl, m, alt, base + p.size, block + t);
            assert((m + sv_flat(svdl)) + (block + t) =~= stack);
            if checks_ok(a, dl, svdl) {
                assert(checks_ok(a, params, sv)) by {
                    assert forall|k: int| 0 <= k < params.len() implies a.committed_message(
                        #[trigger] params[k],
                    ) == sv_commit(params[k], sv[k]) by {
                        if k < n - 1 {
                            assert(dl[k] == params[k]);
                            assert(svdl[k] == sv[k]);
                        }
                    }
                }
            } else {
                let bad = choose|k: int|
                    0 <= k < dl.len() && a.committed_message(#[trigger] dl[k]) != sv_commit(
                        dl[k],
                        svdl[k],
                    );
                assert(params[bad] == dl[bad] && sv[bad] == svdl[bad]);
                assert(!checks_ok(a, params, sv));
            }
        } else {
            assert(!checks_ok(a, params, sv));
        }
    }
}

/// Phase 4 hashing: the recomputed result blocks on top of the main stack
/// are hashed in reverse result order and the hashes pile up on the
/// auxiliary stack.
pub proof fn lemma_phase4h(
    results: Seq<ElementV>,
    out: Seq<Seq<Seq<u8>>>,
    m: Seq<Seq<u8>>,
    alt: Seq<Seq<u8>>,
)
    requires
        blocks_wf(results, out),
    ensures
        exec_ops(phase4_hash(results), m + sv_flat(out), alt) == Some(
            (m, alt + comp_rev(results, out)),
        ),
    decreases results.len(),
{
    if results.len() == 0 {
        assert(m + sv_flat(out) =~= m);
        assert(alt + comp_rev(results, out) =~= alt);
    } else {
        let r = results.last();
        let block = out.last();
        let dl = results.drop_last();
        let odl = out.drop_last();
        let o1 = OpV::HashTop(r.size);
        let o2 = OpV::ToAlt(HASH_LENGTH as nat);
        let tail = phase4_hash(dl);
        assert(phase4_hash(results) == seq![o1, o2] + tail);
        assert(seq![o1, o2][0] == o1);
        assert(seq![o1, o2].skip(1) =~= seq![o2]);

        let lower = m + sv_flat(odl);
        let stack = m + sv_flat(out);
        assert(stack =~= lower + block);
        assert(block.len() == r.size);
        assert(stack.skip(stack.len() - r.size) =~= block);
        assert(stack.take(stack.len() - r.size) =~= lower);
        let h = hash_elems(block);
        lemma_hash_elems_len(block);
        let s1 = lower + h;
        assert(step(o1, stack, alt) == Some((s1, alt)));
        assert(s1.skip(s1.len() - (HASH_LENGTH as int)) =~= h);
        assert(s1.take(s1.len() - (HASH_LENGTH as int)) =~= lower);
        assert(step(o2, s1, alt) == Some((lower, alt + h)));
        lemma_phase4h(dl, odl, m, alt + h);
        assert((alt + h) + comp_rev(dl, odl) =~= alt + comp_rev(results, out));
        lemma_exec_ops_app(seq![o1, o2], tail, stack, alt);
        lemma_exec_one(o2, s1, alt);
        assert(exec_ops(seq![o1, o2], stack, alt) == exec_ops(seq![o2], s1, alt));
    }
}

/// The committed result messages occupy one hash length per result.
pub proof fn lemma_msgs_rev_len<A: BCAssigner>(a: &A, results: Seq<ElementV>)
    requires
        all_ok(a, results),
        none_direct(results),
    ensures
        msgs_rev(a, results).len() == (HASH_LENGTH as nat) * results.len(),
    decreases results.len(),
{
    if results.len() == 0 {
    } else {
        let r = results.last();
        a.lock_correct(r, Seq::empty(), Seq::empty());
        assert(commit_len(r) == HASH_LENGTH);
        lemma_msgs_rev_len(a, results.drop_last());
        assert((HASH_LENGTH as nat) * results.len() == (HASH_LENGTH as nat) * (results.len() - 1)
            + HASH_LENGTH) by (nonlinear_arith);
    }
}

/// The recomputed result hashes occupy one hash length per result.
pub proof fn lemma_comp_rev_len(results: Seq<ElementV>, out: Seq<Seq<Seq<u8>>>)
    requires
        out.len() == results.len(),
    ensures
        comp_rev(results, out).len() == (HASH_LENGTH as nat) * results.len(),
    decreases results.len(),
{
    if results.len() == 0 {
    } else {
        lemma_hash_elems_len(out.last());
        lemma_comp_rev_len(results.drop_last(), out.drop_last());
        assert((HASH_LENGTH as nat) * results.len() == (HASH_LENGTH as nat) * (results.len() - 1)
            + HASH_LENGTH) by (nonlinear_arith);
    }
}

/// The committed result messages equal the recomputed hashes as one block
/// exactly when they agree result by result.
pub proof fn lemma_rev_blocks_eq<A: BCAssigner>(
    a: &A,
    results: Seq<ElementV>,
    out: Seq<Seq<Seq<u8>>>,
)
    requires
        all_ok(a, results),
        none_direct(results),
        out.len() == results.len(),
    ensures
        (msgs_rev(a, results) == comp_rev(results, out)) <==> results_match(a, results, out),
    decreases results.len(),
{
    if results.len() == 0 {
        assert(msgs_rev(a, results) =~= comp_rev(results, out));
    } else {
        let n = results.len();
        let r = results.last();
        let dl = results.drop_last();
        let odl = out.drop_last();
        a.lock_correct(r, Seq::empty(), Seq::empty());
        let msg = a.committed_message(r);
        let h = hash_elems(out.last());
        lemma_hash_elems_len(out.last());
        assert(msg.len() == HASH_LENGTH);
        let ms = msgs_rev(a, results);
        let cs = comp_rev(results, out);
        assert(ms == msg + msgs_rev(a, dl));
        assert(cs == h + comp_rev(dl, odl));
        lemma_msgs_rev_len(a, dl);
        lemma_comp_rev_len(dl, odl);
        lemma_rev_blocks_eq(a, dl, odl);
        if ms == cs {
            assert(msg =~= ms.take(HASH_LENGTH as int));
            assert(h =~= cs.take(HASH_LENGTH as int));
            assert(msgs_rev(a, dl) =~= ms.skip(HASH_LENGTH as int));
            assert(comp_rev(dl, odl) =~= cs.skip(HASH_LENGTH as int));
            assert(results_match(a, dl, odl));
            assert(results_match(a, results, out)) by {
                assert forall|k: int| 0 <= k < results.len() implies a.committed_message(
                    #[trigger] results[k],
                ) == hash_elems(out[k]) by {
                    if k < n - 1 {
                        assert(dl[k] == results[k]);
                        assert(odl[k] == out[k]);
                    }
                }
            }
        }
        if results_match(a, results, out) {
            assert(results[n - 1] == r && out[n - 1] == out.last());
            assert(msg == h);
            assert(results_match(a, dl, odl)) by {
                assert forall|k: int| 0 <= k < dl.len() implies a.committed_message(
                    #[trigger] dl[k],
                ) == hash_elems(odl[k]) by {
                    assert(dl[k] == results[k]);
                    assert(odl[k] == out[k]);
                }
            }
            assert(ms =~= cs);
        }
    }
}

/// The fraud-detection finale: with both hash families on the auxiliary
/// stack, restoring them and comparing leaves exactly one marker — fault
/// exactly when some committed result hash disagrees.
#[verifier::rlimit(100)]
pub proof fn lemma_gadget<A: BCAssigner>(
    a: &A,
    results: Seq<ElementV>,
    out: Seq<Seq<Seq<u8>>>,
    m: Seq<Seq<u8>>,
)
    requires
        all_ok(a, results),
        none_direct(results),
        out.len() == results.len(),
    ensures
        exec_ops(
            seq![
                OpV::FromAlt(2 * (HASH_LENGTH as nat) * results.len()),
                OpV::NotEqual((HASH_LENGTH as nat) * results.len()),
            ],
            m,
            msgs_rev(a, results) + comp_rev(results, out),
        ) == Some(
            (
                m.push(
                    if results_match(a, results, out) {
                        no_fault_elem()
                    } else {
                        fault_elem()
                    },
                ),
                Seq::<Seq<u8>>::empty(),
            ),
        ),
{
    let hn = (HASH_LENGTH as nat) * results.len();
    assert(2 * (HASH_LENGTH as nat) * results.len() == 2 * hn) by {
        vstd::arithmetic::mul::lemma_mul_is_associative(2, HASH_LENGTH as int, results.len() as int);
    }
    let o1 = OpV::FromAlt(2 * hn);
    let o2 = OpV::NotEqual(hn);
    assert(seq![o1, o2][0] == o1);
    assert(seq![o1, o2].skip(1) =~= seq![o2]);
    let ms = msgs_rev(a, results);
    let cs = comp_rev(results, out);
    let alt = ms + cs;
    lemma_msgs_rev_len(a, results);
    lemma_comp_rev_len(results, out);
    assert(2 * hn == hn + hn) by (nonlinear_arith);
    assert(alt.len() == 2 * hn);
    assert(alt.skip(0) =~= alt);
    assert(alt.take(0) =~= Seq::<Seq<u8>>::empty());
    let s1 = m + alt;
    assert(step(o1, m, alt) == Some((s1, Seq::<Seq<u8>>::empty())));
    assert(s1.subrange(s1.len() - hn, s1.len() as int) =~= cs);
    assert(s1.subrange(s1.len() - 2 * hn, s1.len() - hn) =~= ms);
    assert(s1.take(s1.len() - 2 * hn) =~= m);
    lemma_rev_blocks_eq(a, results, out);
    lemma_exec_one(o2, s1, Seq::<Seq<u8>>::empty());
    assert(exec_ops(seq![o1, o2], m, alt) == exec_ops(seq![o2], s1, Seq::<Seq<u8>>::empty()));
}

/// The witness laid out for arbitrary supplied parameter blocks `sv` in
/// place of the elements' own values.
pub open spec fn witness_with<A: BCAssigner>(
    a: &A,
    seg: SegmentV,
    sv: Seq<Seq<Seq<u8>>>,
) -> Seq<Seq<u8>> {
    ((hints_flat(seg.hints) + sv_flat(sv)) + rev_openings(a, seg.parameter_list)) + res_openings(
        a,
        seg.result_list,
    )
}

/// The elements' own value blocks.
pub open spec fn own_values(params: Seq<ElementV>) -> Seq<Seq<Seq<u8>>> {
    Seq::new(params.len(), |k: int| params[k].data->Some_0)
}

/// Flattening the elements' own blocks gives the witness's value region.
pub proof fn lemma_own_values_flat(params: Seq<ElementV>)
    ensures
        sv_flat(own_values(params)) == values_flat(params),
    decreases params.len(),
{
    if params.len() == 0 {
        assert(sv_flat(own_values(params)) =~= values_flat(params));
    } else {
        lemma_own_values_flat(params.drop_last());
        assert(own_values(params).drop_last() =~= own_values(params.drop_last()));
        assert(own_values(params).last() == params.last().data->Some_0);
        assert(sv_flat(own_values(params)) =~= values_flat(params));
    }
}

/// The master run: a segment compiled and witnessed against the same
/// capability, with arbitrary supplied parameter blocks, runs to a single
/// marker when every block opens its commitment — fault exactly when some
/// committed result hash disagrees with the recomputed one — and aborts
/// when some block does not.
#[verifier::rlimit(100)]
pub proof fn lemma_segment_run<A: BCAssigner>(
    a: &A,
    seg: SegmentV,
    sv: Seq<Seq<Seq<u8>>>,
    out: Seq<Seq<Seq<u8>>>,
)
    requires
        !seg.final_segment,
        all_ok(a, seg.parameter_list),
        all_ok(a, seg.result_list),
        none_direct(seg.result_list),
        blocks_wf(seg.parameter_list, sv),
        blocks_wf(seg.result_list, out),
        checks_ok(a, seg.parameter_list, sv) ==> forall|ar: Seq<Seq<u8>>|
            exec_ops(seg.script, hints_flat(seg.hints) + sv_flat(sv), ar) == Some(
                (sv_flat(out), ar),
            ),
    ensures
        checks_ok(a, seg.parameter_list, sv) ==> exec_ops(
            compile_spec(a, seg),
            witness_with(a, seg, sv),
            Seq::empty(),
        ) == Some(
            (
                seq![
                    if results_match(a, seg.result_list, out) {
                        no_fault_elem()
                    } else {
                        fault_elem()
                    },
                ],
                Seq::<Seq<u8>>::empty(),
            ),
        ),
        !checks_ok(a, seg.parameter_list, sv) ==> exec_ops(
            compile_spec(a, seg),
            witness_with(a, seg, sv),
            Seq::empty(),
        ) is None,
{
    let pl = seg.parameter_list;
    let rl = seg.result_list;
    let c1 = phase1_ops(a, rl);
    let c2 = phase2_ops(a, pl);
    let c3 = phase3_ops(pl, 0);
    let inn = seg.script;
    let c4 = phase4_hash(rl);
    let g = seq![
        OpV::FromAlt(2 * (HASH_LENGTH as nat) * rl.len()),
        OpV::NotEqual((HASH_LENGTH as nat) * rl.len()),
    ];
    let whole = c1 + (c2 + (c3 + (inn + (c4 + g))));
    assert(compile_spec(a, seg) =~= whole);

    let w = witness_with(a, seg, sv);
    let m2 = hints_flat(seg.hints) + sv_flat(sv);
    let m1 = m2 + rev_openings(a, pl);
    let e0 = Seq::<Seq<u8>>::empty();

    // Phase 1 consumes the result openings.
    lemma_phase1(a, rl, m1, e0);
    assert(w =~= m1 + res_openings(a, rl));
    assert(e0 + msgs_rev(a, rl) =~= msgs_rev(a, rl));
    lemma_exec_ops_app(c1, c2 + (c3 + (inn + (c4 + g))), w, e0);
    assert(exec_ops(whole, w, e0) == exec_ops(
        c2 + (c3 + (inn + (c4 + g))),
        m1,
        msgs_rev(a, rl),
    ));

    // Phase 2 consumes the parameter openings.
    lemma_phase2(a, pl, m2, msgs_rev(a, rl));
    lemma_exec_ops_app(c2, c3 + (inn + (c4 + g)), m1, msgs_rev(a, rl));
    assert(exec_ops(whole, w, e0) == exec_ops(
        c3 + (inn + (c4 + g)),
        m2,
        msgs_rev(a, rl) + msgs_fwd(a, pl),
    ));

    // Phase 3 checks every parameter block.
    lemma_phase3(a, pl, sv, hints_flat(seg.hints), msgs_rev(a, rl), 0, Seq::empty());
    assert((hints_flat(seg.hints) + sv_flat(sv)) + Seq::<Seq<u8>>::empty() =~= m2);
    lemma_exec_ops_app(c3, inn + (c4 + g), m2, msgs_rev(a, rl) + msgs_fwd(a, pl));
    if !checks_ok(a, pl, sv) {
        assert(exec_ops(c3, m2, msgs_rev(a, rl) + msgs_fwd(a, pl)) is None);
        assert(exec_ops(whole, w, e0) is None);
    } else {
        assert(exec_ops(c3, m2, msgs_rev(a, rl) + msgs_fwd(a, pl)) == Some(
            (m2, msgs_rev(a, rl)),
        ));
        assert(exec_ops(whole, w, e0) == exec_ops(inn + (c4 + g), m2, msgs_rev(a, rl)));

        // The inner program recomputes the results.
        lemma_exec_ops_app(inn, c4 + g, m2, msgs_rev(a, rl));
        assert(exec_ops(inn, m2, msgs_rev(a, rl)) == Some((sv_flat(out), msgs_rev(a, rl))));
        assert(exec_ops(whole, w, e0) == exec_ops(c4 + g, sv_flat(out), msgs_rev(a, rl)));

        // Phase 4 hashes them.
        lemma_phase4h(rl, out, Seq::empty(), msgs_rev(a, rl));
        assert(Seq::<Seq<u8>>::empty() + sv_flat(out) =~= sv_flat(out));
        lemma_exec_ops_app(c4, g, sv_flat(out), msgs_rev(a, rl));
        assert(exec_ops(whole, w, e0) == exec_ops(
            g,
            Seq::<Seq<u8>>::empty(),
            msgs_rev(a, rl) + comp_rev(rl, out),
        ));

        // The gadget leaves the marker.
        lemma_gadget(a, rl, out, Seq::<Seq<u8>>::empty());
        let marker = if results_match(a, rl, out) {
            no_fault_elem()
        } else {
            fault_elem()
        };
        assert(Seq::<Seq<u8>>::empty().push(marker) =~= seq![marker]);
    }
}

/// Pairing invariant: script and witness produced from the same segment and
/// capability, with honest openings, run without aborting and leave exactly
/// one value on the main stack and nothing on the auxiliary stack.
pub proof fn lemma_pairing<A: BCAssigner>(a: &A, seg: SegmentV, out: Seq<Seq<Seq<u8>>>)
    requires
        !seg.final_segment,
        all_ok(a, seg.parameter_list),
        all_ok(a, seg.result_list),
        none_direct(seg.result_list),
        blocks_wf(seg.parameter_list, own_values(seg.parameter_list)),
        blocks_wf(seg.result_list, out),
        checks_ok(a, seg.parameter_list, own_values(seg.parameter_list)),
        forall|ar: Seq<Seq<u8>>|
            exec_ops(seg.script, hints_flat(seg.hints) + values_flat(seg.parameter_list), ar)
                == Some((sv_flat(out), ar)),
    ensures
        exec_ops(compile_spec(a, seg), witness_spec(a, seg), Seq::empty()) is Some,
        exec_ops(compile_spec(a, seg), witness_spec(a, seg), Seq::empty())->Some_0.0.len() == 1,
        exec_ops(compile_spec(a, seg), witness_spec(a, seg), Seq::empty())->Some_0.1.len() == 0,
{
    let sv = own_values(seg.parameter_list);
    lemma_own_values_flat(seg.parameter_list);
    lemma_segment_run(a, seg, sv, out);
    assert(witness_with(a, seg, sv) == witness_spec(a, seg));
}

/// Honesty invariant: if on top of that every committed result hash is the
/// hash of the recomputed result block, the one value left is the no-fault
/// marker.
pub proof fn lemma_honesty<A: BCAssigner>(a: &A, seg: SegmentV, out: Seq<Seq<Seq<u8>>>)
    requires
        !seg.final_segment,
        all_ok(a, seg.parameter_list),
        all_ok(a, seg.result_list),
        none_direct(seg.result_list),
        blocks_wf(seg.parameter_list, own_values(seg.parameter_list)),
        blocks_wf(seg.result_list, out),
        checks_ok(a, seg.parameter_list, own_values(seg.parameter_list)),
        results_match(a, seg.result_list, out),
        forall|ar: Seq<Seq<u8>>|
            exec_ops(seg.script, hints_flat(seg.hints) + values_flat(seg.parameter_list), ar)
                == Some((sv_flat(out), ar)),
    ensures
        exec_ops(compile_spec(a, seg), witness_spec(a, seg), Seq::empty()) == Some(
            (seq![no_fault_elem()], Seq::<Seq<u8>>::empty()),
        ),
{
    let sv = own_values(seg.parameter_list);
    lemma_own_values_flat(seg.parameter_list);
    lemma_segment_run(a, seg, sv, out);
    assert(witness_with(a, seg, sv) == witness_spec(a, seg));
}

/// Fraud-sensitivity invariant: flip one byte of any committed result hash,
/// holding the recomputed results identical, and the one value left is the
/// fault marker — whichever result carries the flip.
pub proof fn lemma_fraud_sensitivity<A: BCAssigner>(
    a: &A,
    seg: SegmentV,
    out: Seq<Seq<Seq<u8>>>,
    j: int,
    i: int,
    flipped: Seq<u8>,
)
    requires
        !seg.final_segment,
        all_ok(a, seg.parameter_list),
        all_ok(a, seg.result_list),
        none_direct(seg.result_list),
        blocks_wf(seg.parameter_list, own_values(seg.parameter_list)),
        blocks_wf(seg.result_list, out),
        checks_ok(a, seg.parameter_list, own_values(seg.parameter_list)),
        0 <= j < seg.result_list.len(),
        0 <= i < HASH_LENGTH,
        a.committed_message(seg.result_list[j]) == hash_elems(out[j]).update(i, flipped),
        flipped != hash_elems(out[j])[i],
        forall|ar: Seq<Seq<u8>>|
            exec_ops(seg.script, hints_flat(seg.hints) + values_flat(seg.parameter_list), ar)
                == Some((sv_flat(out), ar)),
    ensures
        exec_ops(compile_spec(a, seg), witness_spec(a, seg), Seq::empty()) == Some(
            (seq![fault_elem()], Seq::<Seq<u8>>::empty()),
        ),
{
    let sv = own_values(seg.parameter_list);
    lemma_own_values_flat(seg.parameter_list);
    lemma_hash_elems_len(out[j]);
    assert(a.committed_message(seg.result_list[j])[i] == flipped);
    assert(a.committed_message(seg.result_list[j]) != hash_elems(out[j]));
    assert(!results_match(a, seg.result_list, out));
    lemma_segment_run(a, seg, sv, out);
    assert(witness_with(a, seg, sv) == witness_spec(a, seg));
}

/// Direct-reveal bypass: corrupt one element of the raw witness of a
/// direct-reveal parameter — touching no result — and the execution aborts
/// at that parameter's structural equality check.
pub proof fn lemma_direct_reveal_bypass<A: BCAssigner>(
    a: &A,
    seg: SegmentV,
    sv: Seq<Seq<Seq<u8>>>,
    j: int,
    e: int,
    corrupted: Seq<u8>,
)
    requires
        !seg.final_segment,
        all_ok(a, seg.parameter_list),
        all_ok(a, seg.result_list),
        none_direct(seg.result_list),
        blocks_wf(seg.parameter_list, sv),
        0 <= j < seg.parameter_list.len(),
        seg.parameter_list[j].populated(),
        is_proof_name(seg.parameter_list[j].id),
        a.committed_message(seg.parameter_list[j]) == seg.parameter_list[j].data->Some_0,
        0 <= e < seg.parameter_list[j].size,
        sv[j] == seg.parameter_list[j].data->Some_0.update(e, corrupted),
        corrupted != seg.parameter_list[j].data->Some_0[e],
    ensures
        exec_ops(compile_spec(a, seg), witness_with(a, seg, sv), Seq::empty()) is None,
{
    let p = seg.parameter_list[j];
    assert(sv[j][e] == corrupted);
    assert(sv_commit(p, sv[j]) == sv[j]);
    assert(a.committed_message(p) != sv_commit(p, sv[j]));
    assert(!checks_ok(a, seg.parameter_list, sv));
    let out = Seq::new(
        seg.result_list.len(),
        |k: int| Seq::new(seg.result_list[k].size, |q: int| Seq::<u8>::empty()),
    );
    assert(blocks_wf(seg.result_list, out));
    lemma_segment_run(a, seg, sv, out);
}

/// The transparent capability is honest by construction: every populated
/// element is within its reach, each element's own raw block opens its
/// commitment, and — for hashed names — each committed message is the hash
/// of the element's own block, so the honesty law applies to it whenever
/// the inner program recomputes the committed values.
pub proof fn lemma_dummy_honest(a: &DummyAssigner, elems: Seq<ElementV>)
    requires
        forall|k: int| 0 <= k < elems.len() ==> (#[trigger] elems[k]).populated(),
    ensures
        all_ok(a, elems),
        checks_ok(a, elems, own_values(elems)),
        none_direct(elems) ==> results_match(a, elems, own_values(elems)),
{
    assert forall|k: int| 0 <= k < elems.len() implies a.committed_message(
        #[trigger] elems[k],
    ) == sv_commit(elems[k], own_values(elems)[k]) by {
        assert(elems[k].populated());
    }
    if none_direct(elems) {
        assert forall|k: int| 0 <= k < elems.len() implies a.committed_message(
            #[trigger] elems[k],
        ) == hash_elems(own_values(elems)[k]) by {
            assert(!is_proof_name(elems[k].id));
        }
    }
}

/// Under the transparent capability a fragment adds no operations, so the
/// first phase holds one operation per result.
pub proof fn lemma_dummy_phase1_len(a: &DummyAssigner, results: Seq<ElementV>)
    ensures
        phase1_ops(a, results).len() == results.len(),
    decreases results.len(),
{
    if results.len() > 0 {
        lemma_dummy_phase1_len(a, results.drop_last());
    }
}

/// Likewise, the second phase holds one operation per parameter.
pub proof fn lemma_dummy_phase2_len(a: &DummyAssigner, params: Seq<ElementV>)
    ensures
        phase2_ops(a, params).len() == params.len(),
    decreases params.len(),
{
    if params.len() > 0 {
        lemma_dummy_phase2_len(a, params.skip(1));
    }
}

/// Order sensitivity: insertion order is part of a segment's effective
/// identity.  For two parameters of different stack sizes, reversing their
/// order changes the compiled bytecode's stack-layout expectations — the
/// first re-derivation copy reaches for the other block.  (Two parameters
/// of equal size and kind commute: there reversal compiles to identical
/// bytecode, so the law is stated for differing sizes.)
pub proof fn lemma_order_changes_script(
    a: &DummyAssigner,
    seg_fwd: SegmentV,
    seg_rev: SegmentV,
    p: ElementV,
    q: ElementV,
)
    requires
        p.size != q.size,
        seg_fwd.parameter_list == seq![p, q],
        seg_rev.parameter_list == seq![q, p],
        seg_fwd.result_list == seg_rev.result_list,
    ensures
        compile_spec(a, seg_fwd) != compile_spec(a, seg_rev),
{
    let rl = seg_fwd.result_list;
    let idx = rl.len() as int + 2;
    lemma_dummy_phase1_len(a, rl);
    lemma_dummy_phase2_len(a, seg_fwd.parameter_list);
    lemma_dummy_phase2_len(a, seg_rev.parameter_list);

    let pf = seg_fwd.parameter_list;
    let pr = seg_rev.parameter_list;
    assert(pf.last() == q && pr.last() == p);
    assert(phase3_ops(pf, 0)[0] == check_ops(q, 0)[0]);
    assert(phase3_ops(pr, 0)[0] == check_ops(p, 0)[0]);
    assert(check_ops(q, 0)[0] == OpV::Pick(0, q.size));
    assert(check_ops(p, 0)[0] == OpV::Pick(0, p.size));

    let c12f = phase1_ops(a, rl) + phase2_ops(a, pf);
    let c12r = phase1_ops(a, seg_rev.result_list) + phase2_ops(a, pr);
    assert(compile_spec(a, seg_fwd)[idx] == (c12f + phase3_ops(pf, 0))[idx]);
    assert(compile_spec(a, seg_rev)[idx] == (c12r + phase3_ops(pr, 0))[idx]);
    assert((c12f + phase3_ops(pf, 0))[idx] == OpV::Pick(0, q.size));
    assert((c12r + phase3_ops(pr, 0))[idx] == OpV::Pick(0, p.size));
    assert(compile_spec(a, seg_fwd)[idx] != compile_spec(a, seg_rev)[idx]);
}

} // verus!
