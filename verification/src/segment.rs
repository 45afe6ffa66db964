//! Segments: the unit of compilation of the fraud-proof protocol.
//!
//! A [`Segment`] owns one fragment of the large verification program
//! (`script`, opaque to the compiler), its ordered parameters and results,
//! auxiliary hints, and a terminal flag.  [`Segment::script`] compiles the
//! challengeable bytecode, [`Segment::witness`] builds the matching ordered
//! witness.  Parameter and result insertion order is load-bearing: it fixes
//! the stack layout on both sides, so the two functions walk the same lists
//! in lock-step order.

use vstd::prelude::*;
use crate::assigner::BCAssigner;
use crate::element::Element;
use crate::element::ElementV;
use crate::element::commit_len;
use crate::element::is_proof_name;
use crate::element::name_in_proof_set;
use crate::hashing::HASH_LENGTH;
use crate::script::Op;
use crate::script::OpV;
use crate::script::RawWitness;
use crate::script::Script;
use crate::script::append_elems;
use crate::script::clone_elem;
use crate::script::execute_script;
use crate::script::lemma_exec_push_ops;
use crate::script::push_ops;

verus! {

broadcast use crate::hashing::lemma_elem_dv, crate::hashing::lemma_stack_dv_index;

/// One auxiliary directive: elements pushed for the inner program before it
/// runs, cheaper to supply as witness than to recompute on-chain.
#[derive(Debug)]
pub struct Hint {
    pub data: Vec<Vec<u8>>,
}

impl DeepView for Hint {
    type V = Seq<Seq<u8>>;

    open spec fn deep_view(&self) -> Seq<Seq<u8>> {
        self.data.deep_view()
    }
}

impl Hint {
    /// A hint that pushes exactly `data`.
    pub fn new(data: Vec<Vec<u8>>) -> (r: Self)
        ensures
            r.deep_view() == data.deep_view(),
    {
        Hint { data }
    }

    /// The program that pushes this hint's elements in order.
    pub fn push(&self) -> (s: Script)
        ensures
            s@ == push_ops(self.deep_view()),
    {
        let mut s = Script::new();
        let mut i: usize = 0;
        proof {
            assert(s@ =~= push_ops(self.deep_view()).take(0));
        }
        while i < self.data.len()
            invariant
                i <= self.data@.len(),
                s@ == push_ops(self.deep_view()).take(i as int),
            decreases self.data@.len() - i,
        {
            let e = clone_elem(&self.data[i]);
            s.push_op(Op::Push(e));
            proof {
                assert(s@ =~= push_ops(self.deep_view()).take(i as int + 1));
            }
            i = i + 1;
        }
        proof {
            assert(push_ops(self.deep_view()).take(i as int) =~= push_ops(self.deep_view()));
        }
        s
    }
}

/// The mathematical form of a [`Segment`].
pub ghost struct SegmentV {
    pub name: Seq<char>,
    pub script: Seq<OpV>,
    pub parameter_list: Seq<ElementV>,
    pub result_list: Seq<ElementV>,
    pub hints: Seq<Seq<Seq<u8>>>,
    pub final_segment: bool,
}

/// One branch of the challenge tree: a named program fragment with its
/// ordered parameters, results and hints.
#[derive(Debug)]
pub struct Segment {
    pub name: String,
    pub script: Script,
    pub parameter_list: Vec<Element>,
    pub result_list: Vec<Element>,
    pub hints: Vec<Hint>,
    pub final_segment: bool,
}

impl View for Segment {
    type V = SegmentV;

    open spec fn view(&self) -> SegmentV {
        SegmentV {
            name: self.name@,
            script: self.script@,
            parameter_list: self.parameter_list.deep_view(),
            result_list: self.result_list.deep_view(),
            hints: self.hints.deep_view(),
            final_segment: self.final_segment,
        }
    }
}

/// Total stack footprint of the raw values of `params`.
pub open spec fn size_sum(params: Seq<ElementV>) -> nat
    decreases params.len(),
{
    if params.len() == 0 {
        0
    } else {
        size_sum(params.drop_last()) + params.last().size
    }
}

/// Commitment unlocking for the results, walked in reverse: each fragment
/// leaves the committed result hash, which moves to the auxiliary stack.
pub open spec fn phase1_ops<A: BCAssigner>(a: &A, results: Seq<ElementV>) -> Seq<OpV>
    decreases results.len(),
{
    if results.len() == 0 {
        Seq::empty()
    } else {
        a.lock_ops(results.last()) + seq![OpV::ToAlt(HASH_LENGTH as nat)] + phase1_ops(
            a,
            results.drop_last(),
        )
    }
}

/// Commitment unlocking for the parameters, walked forward: each fragment
/// leaves the committed message, which moves to the auxiliary stack — the
/// full raw value for a direct-reveal name, one hash otherwise.
pub open spec fn phase2_ops<A: BCAssigner>(a: &A, params: Seq<ElementV>) -> Seq<OpV>
    decreases params.len(),
{
    if params.len() == 0 {
        Seq::empty()
    } else {
        a.lock_ops(params[0]) + seq![OpV::ToAlt(commit_len(params[0]))] + phase2_ops(
            a,
            params.skip(1),
        )
    }
}

/// The consistency check for one parameter whose raw value block lies
/// `base` elements below the top: copy it up, hash it unless the name is
/// direct-reveal, pull the committed message back and abort on mismatch.
pub open spec fn check_ops(p: ElementV, base: nat) -> Seq<OpV> {
    if is_proof_name(p.id) {
        seq![
            OpV::Pick(base, p.size),
            OpV::FromAlt(p.size),
            OpV::EqVerify(p.size),
        ]
    } else {
        seq![
            OpV::Pick(base, p.size),
            OpV::HashTop(p.size),
            OpV::FromAlt(HASH_LENGTH as nat),
            OpV::EqVerify(HASH_LENGTH as nat),
        ]
    }
}

/// Parameter re-derivation and consistency checks, walked in reverse to
/// match stack depth.
pub open spec fn phase3_ops(params: Seq<ElementV>, base: nat) -> Seq<OpV>
    decreases params.len(),
{
    if params.len() == 0 {
        Seq::empty()
    } else {
        check_ops(params.last(), base) + phase3_ops(params.drop_last(), base + params.last().size)
    }
}

/// Hash the recomputed results, walked in reverse, parking each hash on the
/// auxiliary stack.
pub open spec fn phase4_hash(results: Seq<ElementV>) -> Seq<OpV>
    decreases results.len(),
{
    if results.len() == 0 {
        Seq::empty()
    } else {
        seq![
            OpV::HashTop(results.last().size),
            OpV::ToAlt(HASH_LENGTH as nat),
        ] + phase4_hash(results.drop_last())
    }
}

/// The whole compiled program: unlock result and parameter commitments,
/// re-derive and check every parameter, run the inner program, hash its
/// results, restore the auxiliary stack, and — unless the segment is
/// terminal — leave the fraud marker from the aggregate comparison.
pub open spec fn compile_spec<A: BCAssigner>(a: &A, seg: SegmentV) -> Seq<OpV> {
    phase1_ops(a, seg.result_list) + phase2_ops(a, seg.parameter_list) + phase3_ops(
        seg.parameter_list,
        0,
    ) + seg.script + phase4_hash(seg.result_list) + seq![
        OpV::FromAlt(2 * (HASH_LENGTH as nat) * seg.result_list.len()),
    ] + (if seg.final_segment {
        Seq::<OpV>::empty()
    } else {
        seq![OpV::NotEqual((HASH_LENGTH as nat) * seg.result_list.len())]
    })
}

/// All hint elements, in hint order.
pub open spec fn hints_flat(hints: Seq<Seq<Seq<u8>>>) -> Seq<Seq<u8>>
    decreases hints.len(),
{
    if hints.len() == 0 {
        Seq::empty()
    } else {
        hints_flat(hints.drop_last()) + hints.last()
    }
}

/// The raw serialized values of `params`, in forward order.
pub open spec fn values_flat(params: Seq<ElementV>) -> Seq<Seq<u8>>
    decreases params.len(),
{
    if params.len() == 0 {
        Seq::empty()
    } else {
        values_flat(params.drop_last()) + params.last().data->Some_0
    }
}

/// The parameter opening witnesses, in reverse order.
pub open spec fn rev_openings<A: BCAssigner>(a: &A, params: Seq<ElementV>) -> Seq<Seq<u8>>
    decreases params.len(),
{
    if params.len() == 0 {
        Seq::empty()
    } else {
        a.opening(params.last()) + rev_openings(a, params.drop_last())
    }
}

/// The result opening witnesses, in forward order.
pub open spec fn res_openings<A: BCAssigner>(a: &A, results: Seq<ElementV>) -> Seq<Seq<u8>>
    decreases results.len(),
{
    if results.len() == 0 {
        Seq::empty()
    } else {
        res_openings(a, results.drop_last()) + a.opening(results.last())
    }
}

/// The whole witness: hint output, raw parameter values forward, parameter
/// openings in reverse, result openings forward — mirroring the compiled
/// program's phases exactly.
pub open spec fn witness_spec<A: BCAssigner>(a: &A, seg: SegmentV) -> Seq<Seq<u8>> {
    hints_flat(seg.hints) + values_flat(seg.parameter_list) + rev_openings(
        a,
        seg.parameter_list,
    ) + res_openings(a, seg.result_list)
}

/// Machine limits the compiler needs: stack depths it counts stay within
/// `usize`.
pub open spec fn compile_bounds(seg: SegmentV) -> bool {
    &&& size_sum(seg.parameter_list) <= usize::MAX
    &&& 2 * (HASH_LENGTH as nat) * seg.result_list.len() <= usize::MAX
}

/// Every listed element is populated and within the capability's reach.
pub open spec fn elems_ok<A: BCAssigner>(a: &A, seg: SegmentV) -> bool {
    &&& forall|k: int|
        0 <= k < seg.parameter_list.len() ==> (#[trigger] seg.parameter_list[k]).populated()
            && a.elem_ok(seg.parameter_list[k])
    &&& forall|k: int|
        0 <= k < seg.result_list.len() ==> (#[trigger] seg.result_list[k]).populated()
            && a.elem_ok(seg.result_list[k])
}

impl Segment {
    /// An anonymous segment around the given inner program.
    pub fn new(script: Script) -> (r: Self)
        ensures
            r@.name == Seq::<char>::empty(),
            r@.script == script@,
            r@.parameter_list == Seq::<ElementV>::empty(),
            r@.result_list == Seq::<ElementV>::empty(),
            r@.hints == Seq::<Seq<Seq<u8>>>::empty(),
            !r@.final_segment,
    {
        Self::new_with_name(String::new(), script)
    }

    /// A named segment around the given inner program, with empty parameter,
    /// result and hint lists, not terminal.
    pub fn new_with_name(name: String, script: Script) -> (r: Self)
        ensures
            r@.name == name@,
            r@.script == script@,
            r@.parameter_list == Seq::<ElementV>::empty(),
            r@.result_list == Seq::<ElementV>::empty(),
            r@.hints == Seq::<Seq<Seq<u8>>>::empty(),
            !r@.final_segment,
    {
        let r = Segment {
            name,
            script,
            parameter_list: Vec::new(),
            result_list: Vec::new(),
            hints: Vec::new(),
            final_segment: false,
        };
        proof {
            assert(r@.parameter_list =~= Seq::<ElementV>::empty());
            assert(r@.result_list =~= Seq::<ElementV>::empty());
            assert(r@.hints =~= Seq::<Seq<Seq<u8>>>::empty());
        }
        r
    }

    /// Append a parameter, cloning the handle: the segment owns an
    /// independent copy.
    pub fn add_parameter(self, x: &Element) -> (r: Self)
        ensures
            r@.parameter_list == self@.parameter_list.push(x@),
            r@.name == self@.name,
            r@.script == self@.script,
            r@.result_list == self@.result_list,
            r@.hints == self@.hints,
            r@.final_segment == self@.final_segment,
    {
        let ghost pre = self@;
        let mut s = self;
        s.parameter_list.push(x.clone());
        proof {
            assert(s.parameter_list.deep_view() =~= pre.parameter_list.push(x@));
        }
        s
    }

    /// Append a result, cloning the handle.
    pub fn add_result(self, x: &Element) -> (r: Self)
        ensures
            r@.result_list == self@.result_list.push(x@),
            r@.name == self@.name,
            r@.script == self@.script,
            r@.parameter_list == self@.parameter_list,
            r@.hints == self@.hints,
            r@.final_segment == self@.final_segment,
    {
        let ghost pre = self@;
        let mut s = self;
        s.result_list.push(x.clone());
        proof {
            assert(s.result_list.deep_view() =~= pre.result_list.push(x@));
        }
        s
    }

    /// Replace the hint list wholesale.
    pub fn add_hint(self, hints: Vec<Hint>) -> (r: Self)
        ensures
            r@.hints == hints.deep_view(),
            r@.name == self@.name,
            r@.script == self@.script,
            r@.parameter_list == self@.parameter_list,
            r@.result_list == self@.result_list,
            r@.final_segment == self@.final_segment,
    {
        let mut s = self;
        s.hints = hints;
        s
    }

    /// Mark the segment terminal: the compiled program then omits the
    /// fraud-detection gadget.
    pub fn mark_final(self) -> (r: Self)
        ensures
            r@.final_segment,
            r@.name == self@.name,
            r@.script == self@.script,
            r@.parameter_list == self@.parameter_list,
            r@.result_list == self@.result_list,
            r@.hints == self@.hints,
    {
        let mut s = self;
        s.final_segment = true;
        s
    }

    /// Whether the segment is terminal.
    pub fn is_final(&self) -> (r: bool)
        ensures
            r == self@.final_segment,
    {
        self.final_segment
    }

    /// Run the hint list through the reference interpreter and harvest the
    /// final stack, bottom to top: the leading witness items.
    #[verifier::loop_isolation(false)]
    fn hinted_to_witness(&self) -> (r: Vec<Vec<u8>>)
        ensures
            r.deep_view() == hints_flat(self@.hints),
    {
        let ghost segv = self@;
        let mut s = Script::new();
        let mut i: usize = 0;
        proof {
            assert(segv.hints.take(0) =~= Seq::<Seq<Seq<u8>>>::empty());
            assert(s@ =~= push_ops(hints_flat(segv.hints.take(0))));
        }
        while i < self.hints.len()
            invariant
                i <= self.hints.len(),
                s@ == push_ops(hints_flat(segv.hints.take(i as int))),
            decreases self.hints@.len() - i,
        {
            let ghost s0 = s@;
            let hs = self.hints[i].push();
            s.push_script(&hs);
            proof {
                let hl = segv.hints;
                assert(hl.take(i as int + 1).drop_last() =~= hl.take(i as int));
                assert(hl.take(i as int + 1).last() == hl[i as int]);
                assert(hints_flat(hl.take(i as int + 1)) == hints_flat(hl.take(i as int))
                    + hl[i as int]);
                assert(s@ =~= push_ops(hints_flat(hl.take(i as int + 1))));
            }
            i = i + 1;
        }
        proof {
            assert(segv.hints.take(i as int) =~= segv.hints);
        }
        let res = execute_script(&s);
        proof {
            lemma_exec_push_ops(hints_flat(segv.hints), Seq::empty(), Seq::empty());
            assert(Seq::<Seq<u8>>::empty() + hints_flat(segv.hints) =~= hints_flat(segv.hints));
        }
        res.final_stack
    }

    /// Compile the segment against `assigner`, in five ordered phases;
    /// ordering matches [`Segment::witness`] exactly.
    #[verifier::loop_isolation(false)]
    pub fn script<T: BCAssigner>(&self, assigner: &T) -> (s: Script)
        requires
            compile_bounds(self@),
        ensures
            s@ == compile_spec(assigner, self@),
    {
        let ghost segv = self@;
        let ghost rl = segv.result_list;
        let ghost pl = segv.parameter_list;
        let mut s = Script::new();

        // Phase 1: unlock result commitments, in reverse.
        let ghost c1 = phase1_ops(assigner, rl);
        let mut j: usize = self.result_list.len();
        proof {
            assert(rl.take(j as int) =~= rl);
            assert(s@ + c1 =~= c1);
        }
        while j > 0
            invariant
                j <= self.result_list.len(),
                s@ + phase1_ops(assigner, rl.take(j as int)) == c1,
            decreases j,
        {
            j = j - 1;
            let ghost s0 = s@;
            let frag = assigner.locking_script(&self.result_list[j]);
            s.push_script(&frag);
            s.push_op(Op::ToAlt(HASH_LENGTH));
            proof {
                assert(rl.take(j as int + 1).drop_last() =~= rl.take(j as int));
                assert(rl.take(j as int + 1).last() == rl[j as int]);
                assert(s@ =~= s0 + assigner.lock_ops(rl[j as int]) + seq![
                    OpV::ToAlt(HASH_LENGTH as nat),
                ]);
                assert(s@ + phase1_ops(assigner, rl.take(j as int)) =~= s0 + phase1_ops(
                    assigner,
                    rl.take(j as int + 1),
                ));
            }
        }
        proof {
            assert(s@ + phase1_ops(assigner, rl.take(0)) =~= s@);
            assert(s@ == c1);
        }

        // Phase 2: unlock parameter commitments, forward.
        let ghost c2 = phase2_ops(assigner, pl);
        let mut i: usize = 0;
        proof {
            assert(pl.skip(0) =~= pl);
        }
        while i < self.parameter_list.len()
            invariant
                i <= self.parameter_list.len(),
                s@ + phase2_ops(assigner, pl.skip(i as int)) == c1 + c2,
            decreases self.parameter_list@.len() - i,
        {
            let ghost s0 = s@;
            let p = &self.parameter_list[i];
            let frag = assigner.locking_script(p);
            s.push_script(&frag);
            let clen = if name_in_proof_set(&p.id) {
                p.witness_size()
            } else {
                HASH_LENGTH
            };
            s.push_op(Op::ToAlt(clen));
            proof {
                assert(pl.skip(i as int)[0] == pl[i as int]);
                assert(pl.skip(i as int).skip(1) =~= pl.skip(i as int + 1));
                assert(clen as nat == commit_len(pl[i as int]));
                assert(s@ =~= s0 + assigner.lock_ops(pl[i as int]) + seq![
                    OpV::ToAlt(commit_len(pl[i as int])),
                ]);
                assert(s@ + phase2_ops(assigner, pl.skip(i as int + 1)) =~= s0 + phase2_ops(
                    assigner,
                    pl.skip(i as int),
                ));
            }
            i = i + 1;
        }
        proof {
            assert(pl.skip(pl.len() as int) =~= Seq::<ElementV>::empty());
            assert(s@ + phase2_ops(assigner, pl.skip(pl.len() as int)) =~= s@);
            assert(s@ == c1 + c2);
        }

        // Phase 3: re-derive every parameter and check it, in reverse.
        let ghost c3 = phase3_ops(pl, 0);
        let mut base: usize = 0;
        let mut j3: usize = self.parameter_list.len();
        proof {
            assert(pl.take(j3 as int) =~= pl);
            assert(s@ + phase3_ops(pl.take(j3 as int), 0) =~= (c1 + c2) + c3);
        }
        while j3 > 0
            invariant
                j3 <= self.parameter_list.len(),
                base as nat + size_sum(pl.take(j3 as int)) == size_sum(pl),
                s@ + phase3_ops(pl.take(j3 as int), base as nat) == (c1 + c2) + c3,
            decreases j3,
        {
            j3 = j3 - 1;
            let ghost s0 = s@;
            let ghost b0 = base as nat;
            let p = &self.parameter_list[j3];
            let psize = p.witness_size();
            proof {
                assert(pl.take(j3 as int + 1).drop_last() =~= pl.take(j3 as int));
                assert(pl.take(j3 as int + 1).last() == pl[j3 as int]);
            }
            s.push_op(Op::Pick(base, psize));
            if name_in_proof_set(&p.id) {
                s.push_op(Op::FromAlt(psize));
                s.push_op(Op::EqVerify(psize));
            } else {
                s.push_op(Op::HashTop(psize));
                s.push_op(Op::FromAlt(HASH_LENGTH));
                s.push_op(Op::EqVerify(HASH_LENGTH));
            }
            proof {
                assert(s@ =~= s0 + check_ops(pl[j3 as int], b0));
                assert(phase3_ops(pl.take(j3 as int + 1), b0) == check_ops(pl[j3 as int], b0)
                    + phase3_ops(pl.take(j3 as int), b0 + pl[j3 as int].size));
                assert(s@ + phase3_ops(pl.take(j3 as int), b0 + pl[j3 as int].size) =~= s0
                    + phase3_ops(pl.take(j3 as int + 1), b0));
            }
            base = base + psize;
        }
        proof {
            assert(s@ + phase3_ops(pl.take(0), base as nat) =~= s@);
            assert(s@ == (c1 + c2) + c3);
        }

        // Phase 4: run the inner program, hash its results in reverse, and
        // restore both hash families from the auxiliary stack.
        s.push_script(&self.script);
        proof {
            assert(s@ == ((c1 + c2) + c3) + segv.script);
        }
        let ghost c4 = phase4_hash(rl);
        let mut j4: usize = self.result_list.len();
        proof {
            assert(rl.take(j4 as int) =~= rl);
            assert(s@ + phase4_hash(rl.take(j4 as int)) =~= (((c1 + c2) + c3) + segv.script) + c4);
        }
        while j4 > 0
            invariant
                j4 <= self.result_list.len(),
                s@ + phase4_hash(rl.take(j4 as int)) == (((c1 + c2) + c3) + segv.script) + c4,
            decreases j4,
        {
            j4 = j4 - 1;
            let ghost s0 = s@;
            let rsize = self.result_list[j4].witness_size();
            s.push_op(Op::HashTop(rsize));
            s.push_op(Op::ToAlt(HASH_LENGTH));
            proof {
                assert(rl.take(j4 as int + 1).drop_last() =~= rl.take(j4 as int));
                assert(rl.take(j4 as int + 1).last() == rl[j4 as int]);
                assert(s@ =~= s0 + seq![
                    OpV::HashTop(rl[j4 as int].size),
                    OpV::ToAlt(HASH_LENGTH as nat),
                ]);
                assert(s@ + phase4_hash(rl.take(j4 as int)) =~= s0 + phase4_hash(
                    rl.take(j4 as int + 1),
                ));
            }
        }
        proof {
            assert(s@ + phase4_hash(rl.take(0)) =~= s@);
        }
        let n = self.result_list.len();
        proof {
            assert(n == rl.len());
            assert(2 * (HASH_LENGTH as nat) * rl.len() <= usize::MAX);
            assert(2 * (HASH_LENGTH as nat) * rl.len() == 40 * rl.len()) by (nonlinear_arith);
            assert((HASH_LENGTH as nat) * rl.len() == 20 * rl.len()) by (nonlinear_arith);
            assert(20 * rl.len() <= 40 * rl.len());
        }
        let half = HASH_LENGTH * n;
        s.push_op(Op::FromAlt(2 * half));

        // Phase 5: the fraud-detection gadget, unless the segment is
        // terminal.
        if !self.final_segment {
            s.push_op(Op::NotEqual(half));
        }
        proof {
            assert(s@ =~= compile_spec(assigner, segv));
        }
        s
    }

    /// Build the ordered witness the compiled program consumes: hint
    /// output, raw parameter values forward, parameter openings in
    /// reverse, result openings forward.
    #[verifier::loop_isolation(false)]
    #[verifier::rlimit(100)]
    pub fn witness<T: BCAssigner>(&self, assigner: &T) -> (w: RawWitness)
        requires
            elems_ok(assigner, self@),
        ensures
            w.deep_view() == witness_spec(assigner, self@),
    {
        let ghost segv = self@;
        let ghost pl = segv.parameter_list;
        let ghost rl = segv.result_list;
        let mut w = self.hinted_to_witness();
        let ghost r1 = hints_flat(segv.hints);

        // Raw parameter values, forward; a missing value is a construction
        // error upstream and is excluded by this function's precondition.
        let mut i: usize = 0;
        proof {
            assert(w.deep_view() =~= r1 + values_flat(pl.take(0)));
        }
        while i < self.parameter_list.len()
            invariant
                i <= self.parameter_list.len(),
                w.deep_view() == r1 + values_flat(pl.take(i as int)),
            decreases self.parameter_list@.len() - i,
        {
            let ghost w0 = w.deep_view();
            match self.parameter_list[i].to_witness() {
                Some(v) => {
                    append_elems(&mut w, &v);
                    proof {
                        assert(pl.take(i as int + 1).drop_last() =~= pl.take(i as int));
                        assert(pl.take(i as int + 1).last() == pl[i as int]);
                        assert(v.deep_view() == pl[i as int].data->Some_0);
                        assert(w.deep_view() =~= r1 + values_flat(pl.take(i as int + 1)));
                    }
                },
                None => {
                    proof {
                        assert(pl[i as int].populated());
                        assert(false);
                    }
                },
            }
            i = i + 1;
        }
        proof {
            assert(pl.take(pl.len() as int) =~= pl);
        }

        // Parameter opening witnesses, in reverse.
        let ghost r2 = (r1 + values_flat(pl)) + rev_openings(assigner, pl);
        let mut j: usize = self.parameter_list.len();
        proof {
            assert(pl.take(j as int) =~= pl);
        }
        while j > 0
            invariant
                j <= self.parameter_list.len(),
                w.deep_view() + rev_openings(assigner, pl.take(j as int)) == r2,
            decreases j,
        {
            j = j - 1;
            let ghost w0 = w.deep_view();
            proof {
                assert(pl[j as int].populated() && assigner.elem_ok(pl[j as int]));
            }
            let opening = assigner.get_witness(&self.parameter_list[j]);
            append_elems(&mut w, &opening);
            proof {
                assert(pl.take(j as int + 1).drop_last() =~= pl.take(j as int));
                assert(pl.take(j as int + 1).last() == pl[j as int]);
                assert(w.deep_view() + rev_openings(assigner, pl.take(j as int)) =~= w0
                    + rev_openings(assigner, pl.take(j as int + 1)));
            }
        }
        proof {
            assert(w.deep_view() + rev_openings(assigner, pl.take(0)) =~= w.deep_view());
        }

        // Result opening witnesses, forward.
        let mut k: usize = 0;
        proof {
            assert(w.deep_view() =~= r2 + res_openings(assigner, rl.take(0)));
        }
        while k < self.result_list.len()
            invariant
                k <= self.result_list.len(),
                w.deep_view() == r2 + res_openings(assigner, rl.take(k as int)),
            decreases self.result_list@.len() - k,
        {
            proof {
                assert(rl[k as int].populated() && assigner.elem_ok(rl[k as int]));
            }
            let opening = assigner.get_witness(&self.result_list[k]);
            append_elems(&mut w, &opening);
            proof {
                assert(rl.take(k as int + 1).drop_last() =~= rl.take(k as int));
                assert(rl.take(k as int + 1).last() == rl[k as int]);
                assert(w.deep_view() =~= r2 + res_openings(assigner, rl.take(k as int + 1)));
            }
            k = k + 1;
        }
        proof {
            assert(rl.take(rl.len() as int) =~= rl);
            assert(w.deep_view() =~= witness_spec(assigner, segv));
        }
        w
    }
}

} // verus!
