//! The two-stack machine that compiled segments run on.
//!
//! A program is a sequence of [`Op`]s.  The machine state is a main stack
//! and an auxiliary stack, both holding byte-string elements.  [`exec_ops`]
//! gives the semantics: `None` is an aborted execution, `Some` carries the
//! final stacks.  [`execute_script_with_inputs`] is the reference
//! interpreter, proved to implement that semantics.

use vstd::prelude::*;
use crate::hashing::bytes_to_elems;
use crate::hashing::concat_bytes;
use crate::hashing::hash_bytes;
use crate::hashing::hash_elems;

verus! {

broadcast use crate::hashing::lemma_elem_dv, crate::hashing::lemma_stack_dv_index;

/// One machine operation.
#[derive(Debug, PartialEq, Eq)]
pub enum Op {
    /// Push the given element onto the main stack.
    Push(Vec<u8>),
    /// Move the top `n` main-stack elements to the auxiliary stack as one
    /// block, keeping their order.
    ToAlt(usize),
    /// Move the top `n` auxiliary-stack elements back to the main stack as
    /// one block, keeping their order.
    FromAlt(usize),
    /// `Pick(base, len)`: copy the block of `len` elements lying `base`
    /// elements below the main-stack top back onto the top, in order.
    Pick(usize, usize),
    /// Discard the top main-stack element.
    Pop,
    /// Pop the top `n` main-stack elements and push the hash of their
    /// concatenated bytes, one element per hash byte.
    HashTop(usize),
    /// Pop the two top blocks of `n` elements each and abort unless they
    /// are equal.
    EqVerify(usize),
    /// Pop the two top blocks of `n` elements each and push the fault
    /// marker if they differ, the no-fault marker if they agree.
    NotEqual(usize),
}

/// The mathematical form of an [`Op`].
pub enum OpV {
    Push(Seq<u8>),
    ToAlt(nat),
    FromAlt(nat),
    Pick(nat, nat),
    Pop,
    HashTop(nat),
    EqVerify(nat),
    NotEqual(nat),
}

impl DeepView for Op {
    type V = OpV;

    open spec fn deep_view(&self) -> OpV {
        match self {
            Op::Push(v) => OpV::Push(v@),
            Op::ToAlt(n) => OpV::ToAlt(*n as nat),
            Op::FromAlt(n) => OpV::FromAlt(*n as nat),
            Op::Pick(base, len) => OpV::Pick(*base as nat, *len as nat),
            Op::Pop => OpV::Pop,
            Op::HashTop(n) => OpV::HashTop(*n as nat),
            Op::EqVerify(n) => OpV::EqVerify(*n as nat),
            Op::NotEqual(n) => OpV::NotEqual(*n as nat),
        }
    }
}

/// The element the fraud-detection gadget leaves when all result hashes
/// agree: publishing such an execution gains a watcher nothing.
pub open spec fn no_fault_elem() -> Seq<u8> {
    seq![0u8]
}

/// The element the gadget leaves when some result hash differs: the
/// committed values are inconsistent and the execution supports a slash.
pub open spec fn fault_elem() -> Seq<u8> {
    seq![1u8]
}

/// A machine element counts as true when it has a nonzero byte.
pub open spec fn is_truthy(e: Seq<u8>) -> bool {
    exists|i: int| 0 <= i < e.len() && e[i] != 0
}

/// One step of the machine on main stack `m` and auxiliary stack `a`.
pub open spec fn step(op: OpV, m: Seq<Seq<u8>>, a: Seq<Seq<u8>>) -> Option<
    (Seq<Seq<u8>>, Seq<Seq<u8>>),
> {
    match op {
        OpV::Push(v) => Some((m.push(v), a)),
        OpV::ToAlt(n) => if m.len() >= n {
            Some((m.take(m.len() - n), a + m.skip(m.len() - n)))
        } else {
            None
        },
        OpV::FromAlt(n) => if a.len() >= n {
            Some((m + a.skip(a.len() - n), a.take(a.len() - n)))
        } else {
            None
        },
        OpV::Pick(base, len) => if m.len() >= base + len {
            Some((m + m.subrange(m.len() - base - len, m.len() - base), a))
        } else {
            None
        },
        OpV::Pop => if m.len() >= 1 {
            Some((m.drop_last(), a))
        } else {
            None
        },
        OpV::HashTop(n) => if m.len() >= n {
            Some((m.take(m.len() - n) + hash_elems(m.skip(m.len() - n)), a))
        } else {
            None
        },
        OpV::EqVerify(n) => if m.len() >= 2 * n {
            if m.subrange(m.len() - n, m.len() as int) == m.subrange(
                m.len() - 2 * n,
                m.len() - n,
            ) {
                Some((m.take(m.len() - 2 * n), a))
            } else {
                None
            }
        } else {
            None
        },
        OpV::NotEqual(n) => if m.len() >= 2 * n {
            let marker = if m.subrange(m.len() - n, m.len() as int) == m.subrange(
                m.len() - 2 * n,
                m.len() - n,
            ) {
                no_fault_elem()
            } else {
                fault_elem()
            };
            Some((m.take(m.len() - 2 * n).push(marker), a))
        } else {
            None
        },
    }
}

/// Run a whole program: `None` is an abort, `Some` the final stacks.
pub open spec fn exec_ops(ops: Seq<OpV>, m: Seq<Seq<u8>>, a: Seq<Seq<u8>>) -> Option<
    (Seq<Seq<u8>>, Seq<Seq<u8>>),
>
    decreases ops.len(),
{
    if ops.len() == 0 {
        Some((m, a))
    } else {
        match step(ops[0], m, a) {
            None => None,
            Some((m2, a2)) => exec_ops(ops.skip(1), m2, a2),
        }
    }
}

/// Sequential composition: running `s1 + s2` is running `s1`, then `s2`
/// from where `s1` left off; an abort in `s1` aborts the whole program.
pub proof fn lemma_exec_ops_app(s1: Seq<OpV>, s2: Seq<OpV>, m: Seq<Seq<u8>>, a: Seq<Seq<u8>>)
    ensures
        exec_ops(s1 + s2, m, a) == (match exec_ops(s1, m, a) {
            None => None,
            Some((m2, a2)) => exec_ops(s2, m2, a2),
        }),
    decreases s1.len(),
{
    if s1.len() == 0 {
        assert(s1 + s2 =~= s2);
    } else {
        assert((s1 + s2)[0] == s1[0]);
        assert((s1 + s2).skip(1) =~= s1.skip(1) + s2);
        match step(s1[0], m, a) {
            None => {},
            Some((m2, a2)) => {
                lemma_exec_ops_app(s1.skip(1), s2, m2, a2);
            },
        }
    }
}

/// Running a single operation is stepping it.
pub proof fn lemma_exec_one(op: OpV, m: Seq<Seq<u8>>, a: Seq<Seq<u8>>)
    ensures
        exec_ops(seq![op], m, a) == step(op, m, a),
{
    assert(seq![op][0] == op);
    assert(seq![op].skip(1) =~= Seq::<OpV>::empty());
    match step(op, m, a) {
        None => {},
        Some((m2, a2)) => {
            assert(exec_ops(seq![op].skip(1), m2, a2) == Some::<(Seq<Seq<u8>>, Seq<Seq<u8>>)>(
                (m2, a2),
            ));
        },
    }
}

/// The program that pushes the elements of `elems` in order.
pub open spec fn push_ops(elems: Seq<Seq<u8>>) -> Seq<OpV> {
    Seq::new(elems.len(), |i: int| OpV::Push(elems[i]))
}

/// Pushing a sequence of elements never aborts and appends them in order.
pub proof fn lemma_exec_push_ops(elems: Seq<Seq<u8>>, m: Seq<Seq<u8>>, a: Seq<Seq<u8>>)
    ensures
        exec_ops(push_ops(elems), m, a) == Some((m + elems, a)),
    decreases elems.len(),
{
    if elems.len() == 0 {
        assert(m + elems =~= m);
    } else {
        assert(push_ops(elems).skip(1) =~= push_ops(elems.skip(1)));
        lemma_exec_push_ops(elems.skip(1), m.push(elems[0]), a);
        assert(m.push(elems[0]) + elems.skip(1) =~= m + elems);
    }
}

/// An ordered witness: the elements pushed onto the main stack before a
/// compiled segment runs.
pub type RawWitness = Vec<Vec<u8>>;

/// A composable program for the machine.
#[derive(Debug, PartialEq, Eq)]
pub struct Script {
    pub ops: Vec<Op>,
}

impl View for Script {
    type V = Seq<OpV>;

    open spec fn view(&self) -> Seq<OpV> {
        self.ops.deep_view()
    }
}

/// Copy one element.
pub fn clone_elem(e: &Vec<u8>) -> (r: Vec<u8>)
    ensures
        r@ == e@,
{
    let mut r: Vec<u8> = Vec::new();
    let mut i: usize = 0;
    while i < e.len()
        invariant
            i <= e@.len(),
            r@ == e@.take(i as int),
        decreases e@.len() - i,
    {
        r.push(e[i]);
        proof {
            assert(e@.take(i as int).push(e@[i as int]) =~= e@.take(i as int + 1));
        }
        i = i + 1;
    }
    proof {
        assert(e@.take(i as int) =~= e@);
    }
    r
}

/// Push one element onto a stack, tracking the deep view.
pub fn push_elem(stack: &mut Vec<Vec<u8>>, e: Vec<u8>)
    ensures
        final(stack).deep_view() == old(stack).deep_view().push(e@),
{
    let ghost ev = e@;
    stack.push(e);
    proof {
        assert(stack.deep_view() =~= old(stack).deep_view().push(ev));
    }
}

/// Copy one operation.
pub fn clone_op(op: &Op) -> (r: Op)
    ensures
        r.deep_view() == op.deep_view(),
{
    match op {
        Op::Push(v) => Op::Push(clone_elem(v)),
        Op::ToAlt(n) => Op::ToAlt(*n),
        Op::FromAlt(n) => Op::FromAlt(*n),
        Op::Pick(base, len) => Op::Pick(*base, *len),
        Op::Pop => Op::Pop,
        Op::HashTop(n) => Op::HashTop(*n),
        Op::EqVerify(n) => Op::EqVerify(*n),
        Op::NotEqual(n) => Op::NotEqual(*n),
    }
}

impl Script {
    /// The empty program.
    pub fn new() -> (r: Self)
        ensures
            r@ == Seq::<OpV>::empty(),
    {
        let r = Script { ops: Vec::new() };
        proof {
            assert(r@ =~= Seq::<OpV>::empty());
        }
        r
    }

    /// Append one operation.
    pub fn push_op(&mut self, op: Op)
        ensures
            final(self)@ == old(self)@.push(op.deep_view()),
    {
        self.ops.push(op);
        proof {
            assert(self@ =~= old(self)@.push(self.ops@.last().deep_view()));
        }
    }

    /// Append a whole sub-program: the compiler composes phases and embeds
    /// inner programs with this.
    pub fn push_script(&mut self, other: &Script)
        ensures
            final(self)@ == old(self)@ + other@,
    {
        let mut i: usize = 0;
        while i < other.ops.len()
            invariant
                i <= other.ops@.len(),
                self@ == old(self)@ + other@.take(i as int),
            decreases other.ops@.len() - i,
        {
            let op = clone_op(&other.ops[i]);
            self.push_op(op);
            proof {
                assert(old(self)@ + other@.take(i as int).push(other@[i as int]) =~= old(self)@
                    + other@.take(i as int + 1));
            }
            i = i + 1;
        }
        proof {
            assert(old(self)@ + other@.take(i as int) =~= old(self)@ + other@);
        }
    }
}

impl Clone for Script {
    /// An independent copy with the same operations.
    fn clone(&self) -> (r: Self)
        ensures
            r@ == self@,
    {
        let mut r = Script::new();
        r.push_script(self);
        proof {
            assert(Seq::<OpV>::empty() + self@ =~= self@);
        }
        r
    }
}

/// What running a program left behind.
#[derive(Debug)]
pub struct ExecResult {
    /// The execution did not abort and its top element is true.
    pub success: bool,
    /// The execution aborted: a structural check failed or a stack ran dry.
    pub aborted: bool,
    /// The main stack at the end of a non-aborted execution.
    pub final_stack: Vec<Vec<u8>>,
    /// The auxiliary stack at the end of a non-aborted execution.
    pub alt_stack: Vec<Vec<u8>>,
}

/// Whether a concrete element counts as true.
pub fn elem_is_truthy(e: &Vec<u8>) -> (r: bool)
    ensures
        r == is_truthy(e@),
{
    let mut i: usize = 0;
    let mut found = false;
    while i < e.len()
        invariant
            i <= e@.len(),
            found == exists|j: int| 0 <= j < i && e@[j] != 0,
        decreases e@.len() - i,
    {
        if e[i] != 0 {
            found = true;
        }
        i = i + 1;
    }
    found
}

/// Whether two concrete elements hold the same bytes.
pub fn elem_eq(x: &Vec<u8>, y: &Vec<u8>) -> (r: bool)
    ensures
        r == (x@ == y@),
{
    if x.len() != y.len() {
        return false;
    }
    let mut i: usize = 0;
    while i < x.len()
        invariant
            i <= x@.len(),
            x@.len() == y@.len(),
            forall|j: int| 0 <= j < i ==> x@[j] == y@[j],
        decreases x@.len() - i,
    {
        if x[i] != y[i] {
            return false;
        }
        i = i + 1;
    }
    proof {
        assert(x@ =~= y@);
    }
    true
}

/// Move the top `n` elements of `from` onto `to` as one block, in order.
pub fn move_top(from: &mut Vec<Vec<u8>>, to: &mut Vec<Vec<u8>>, n: usize)
    requires
        n <= old(from)@.len(),
    ensures
        final(from).deep_view() == old(from).deep_view().take(old(from)@.len() - n),
        final(to).deep_view() == old(to).deep_view() + old(from).deep_view().skip(
            old(from)@.len() - n,
        ),
{
    let start = from.len() - n;
    let mut k: usize = 0;
    proof {
        assert(to.deep_view() =~= to.deep_view() + old(from).deep_view().subrange(
            start as int,
            start as int,
        ));
    }
    while k < n
        invariant
            k <= n,
            from.len() == start + n,
            from.deep_view() == old(from).deep_view(),
            to.deep_view() == old(to).deep_view() + old(from).deep_view().subrange(
                start as int,
                start as int + k as int,
            ),
        decreases n - k,
    {
        let e = clone_elem(&from[start + k]);
        push_elem(to, e);
        proof {
            let dv = old(from).deep_view();
            assert(dv[start as int + k as int] == from@[start as int + k as int]@);
            assert(to.deep_view() =~= old(to).deep_view() + dv.subrange(
                start as int,
                start as int + k as int + 1,
            ));
        }
        k = k + 1;
    }
    from.truncate(start);
    proof {
        assert(from.deep_view() =~= old(from).deep_view().take(start as int));
        assert(old(from).deep_view().subrange(start as int, start as int + n as int)
            =~= old(from).deep_view().skip(start as int));
    }
}

/// Discard the top `n` elements.
pub fn drop_top(v: &mut Vec<Vec<u8>>, n: usize)
    requires
        n <= old(v)@.len(),
    ensures
        final(v).deep_view() == old(v).deep_view().take(old(v)@.len() - n),
{
    let keep = v.len() - n;
    v.truncate(keep);
    proof {
        assert(v.deep_view() =~= old(v).deep_view().take(keep as int));
    }
}

/// Whether the two top blocks of `n` elements each are equal.
pub fn top_blocks_eq(v: &Vec<Vec<u8>>, n: usize) -> (r: bool)
    requires
        2 * n <= v@.len(),
    ensures
        r == (v.deep_view().subrange(v@.len() - n, v@.len() as int) == v.deep_view().subrange(
            v@.len() - 2 * n,
            v@.len() - n,
        )),
{
    let hi = v.len() - n;
    let lo = v.len() - 2 * n;
    let mut i: usize = 0;
    while i < n
        invariant
            i <= n,
            2 * n <= v.len(),
            hi == v.len() - n,
            lo == v.len() - 2 * n,
            forall|j: int| 0 <= j < i ==> v.deep_view()[hi + j] == #[trigger] v.deep_view()[
                lo + j
            ],
        decreases n - i,
    {
        if !elem_eq(&v[hi + i], &v[lo + i]) {
            proof {
                let dv = v.deep_view();
                assert(dv.subrange(hi as int, v@.len() as int)[i as int] == dv[hi as int + i]);
                assert(dv.subrange(lo as int, hi as int)[i as int] == dv[lo as int + i]);
            }
            return false;
        }
        i = i + 1;
    }
    proof {
        let dv = v.deep_view();
        assert forall|j: int| 0 <= j < n implies dv.subrange(hi as int, v@.len() as int)[j]
            == dv.subrange(lo as int, hi as int)[j] by {
            assert(dv[hi + j] == dv[lo + j]);
        }
        assert(dv.subrange(hi as int, v@.len() as int) =~= dv.subrange(lo as int, hi as int));
    }
    true
}

/// Run `script` on a main stack primed with `inputs`, in order, and an
/// empty auxiliary stack.  The result reflects [`exec_ops`] exactly.
/// Copy a whole stack.
pub fn clone_stack(v: &Vec<Vec<u8>>) -> (r: Vec<Vec<u8>>)
    ensures
        r.deep_view() == v.deep_view(),
{
    let mut r: Vec<Vec<u8>> = Vec::new();
    let mut i: usize = 0;
    proof {
        assert(r.deep_view() =~= v.deep_view().take(0));
    }
    while i < v.len()
        invariant
            i <= v.len(),
            r.deep_view() == v.deep_view().take(i as int),
        decreases v@.len() - i,
    {
        let e = clone_elem(&v[i]);
        proof {
            assert(e@ == v.deep_view()[i as int]);
        }
        push_elem(&mut r, e);
        proof {
            assert(r.deep_view() =~= v.deep_view().take(i as int + 1));
        }
        i = i + 1;
    }
    proof {
        assert(v.deep_view().take(i as int) =~= v.deep_view());
    }
    r
}

/// Spread concrete bytes into one-byte stack elements.
pub fn bytes_into_elems(bytes: &Vec<u8>) -> (r: Vec<Vec<u8>>)
    ensures
        r.deep_view() == bytes_to_elems(bytes@),
{
    let mut r: Vec<Vec<u8>> = Vec::new();
    let mut i: usize = 0;
    proof {
        assert(r.deep_view() =~= bytes_to_elems(bytes@).take(0));
    }
    while i < bytes.len()
        invariant
            i <= bytes@.len(),
            r.deep_view() == bytes_to_elems(bytes@).take(i as int),
        decreases bytes@.len() - i,
    {
        let mut e: Vec<u8> = Vec::new();
        e.push(bytes[i]);
        proof {
            assert(e@ =~= seq![bytes@[i as int]]);
        }
        push_elem(&mut r, e);
        proof {
            assert(r.deep_view() =~= bytes_to_elems(bytes@).take(i as int + 1));
        }
        i = i + 1;
    }
    proof {
        assert(bytes_to_elems(bytes@).take(i as int) =~= bytes_to_elems(bytes@));
    }
    r
}

/// Append copies of all elements of `src` to `dst`, in order.
pub fn append_elems(dst: &mut Vec<Vec<u8>>, src: &Vec<Vec<u8>>)
    ensures
        final(dst).deep_view() == old(dst).deep_view() + src.deep_view(),
{
    let mut i: usize = 0;
    proof {
        assert(dst.deep_view() =~= dst.deep_view() + src.deep_view().take(0));
    }
    while i < src.len()
        invariant
            i <= src.len(),
            dst.deep_view() == old(dst).deep_view() + src.deep_view().take(i as int),
        decreases src@.len() - i,
    {
        let e = clone_elem(&src[i]);
        proof {
            assert(e@ == src.deep_view()[i as int]);
        }
        push_elem(dst, e);
        proof {
            assert(dst.deep_view() =~= old(dst).deep_view() + src.deep_view().take(i as int + 1));
        }
        i = i + 1;
    }
    proof {
        assert(src.deep_view().take(i as int) =~= src.deep_view());
    }
}

/// Perform one operation; `false` means the machine aborts.
fn do_op(op: &Op, main: &mut Vec<Vec<u8>>, alt: &mut Vec<Vec<u8>>) -> (ok: bool)
    ensures
        ok <==> step(op.deep_view(), old(main).deep_view(), old(alt).deep_view()) is Some,
        ok ==> step(op.deep_view(), old(main).deep_view(), old(alt).deep_view()) == Some(
            (final(main).deep_view(), final(alt).deep_view()),
        ),
{
    let ghost pre_main = main.deep_view();
    let ghost pre_alt = alt.deep_view();
    match op {
        Op::Push(v) => {
            let e = clone_elem(v);
            push_elem(main, e);
            true
        },
        Op::ToAlt(n) => {
            if *n <= main.len() {
                move_top(main, alt, *n);
                true
            } else {
                false
            }
        },
        Op::FromAlt(n) => {
            if *n <= alt.len() {
                move_top(alt, main, *n);
                true
            } else {
                false
            }
        },
        Op::Pick(base, len) => {
            if *len <= main.len() && *base <= main.len() - *len {
                let blen = *len;
                let start = main.len() - *base - blen;
                let mut k: usize = 0;
                proof {
                    assert(main.deep_view() =~= pre_main + pre_main.subrange(
                        start as int,
                        start as int,
                    ));
                }
                while k < blen
                    invariant
                        k <= blen,
                        start + blen <= pre_main.len(),
                        main.len() == pre_main.len() + k,
                        main.deep_view() == pre_main + pre_main.subrange(
                            start as int,
                            start as int + k as int,
                        ),
                    decreases blen - k,
                {
                    let ghost dv_now = main.deep_view();
                    let e = clone_elem(&main[start + k]);
                    proof {
                        assert(dv_now[start as int + k as int] == main@[
                            start as int + k as int
                        ]@);
                        assert(e@ == pre_main[start as int + k as int]);
                    }
                    push_elem(main, e);
                    proof {
                        assert(main.deep_view() =~= pre_main + pre_main.subrange(
                            start as int,
                            start as int + k as int + 1,
                        ));
                    }
                    k = k + 1;
                }
                true
            } else {
                false
            }
        },
        Op::Pop => {
            if main.len() >= 1 {
                drop_top(main, 1);
                proof {
                    assert(pre_main.take(pre_main.len() - 1) =~= pre_main.drop_last());
                }
                true
            } else {
                false
            }
        },
        Op::HashTop(n) => {
            if *n <= main.len() {
                let mut block: Vec<Vec<u8>> = Vec::new();
                move_top(main, &mut block, *n);
                proof {
                    assert(Seq::<Seq<u8>>::empty() + pre_main.skip(pre_main.len() - *n)
                        =~= pre_main.skip(pre_main.len() - *n));
                }
                let bytes = concat_bytes(&block);
                let digest = hash_bytes(&bytes);
                let ghost mid_main = main.deep_view();
                let mut k: usize = 0;
                proof {
                    assert(main.deep_view() =~= mid_main + bytes_to_elems(digest@).take(0));
                }
                while k < digest.len()
                    invariant
                        k <= digest@.len(),
                        main.deep_view() == mid_main + bytes_to_elems(digest@).take(k as int),
                    decreases digest@.len() - k,
                {
                    let mut e: Vec<u8> = Vec::new();
                    e.push(digest[k]);
                    proof {
                        assert(e@ =~= seq![digest@[k as int]]);
                    }
                    push_elem(main, e);
                    proof {
                        assert(main.deep_view() =~= mid_main + bytes_to_elems(
                            digest@,
                        ).take(k as int + 1));
                    }
                    k = k + 1;
                }
                proof {
                    assert(bytes_to_elems(digest@).take(k as int) =~= bytes_to_elems(digest@));
                    assert(main.deep_view() =~= pre_main.take(pre_main.len() - *n)
                        + hash_elems(pre_main.skip(pre_main.len() - *n)));
                }
                true
            } else {
                false
            }
        },
        Op::EqVerify(n) => {
            if *n <= main.len() && *n <= main.len() - *n {
                if top_blocks_eq(main, *n) {
                    drop_top(main, 2 * *n);
                    true
                } else {
                    false
                }
            } else {
                false
            }
        },
        Op::NotEqual(n) => {
            if *n <= main.len() && *n <= main.len() - *n {
                let same = top_blocks_eq(main, *n);
                drop_top(main, 2 * *n);
                let mut marker: Vec<u8> = Vec::new();
                if same {
                    marker.push(0u8);
                } else {
                    marker.push(1u8);
                }
                proof {
                    if same {
                        assert(marker@ =~= no_fault_elem());
                    } else {
                        assert(marker@ =~= fault_elem());
                    }
                }
                push_elem(main, marker);
                true
            } else {
                false
            }
        },
    }
}

/// Run `script` on a main stack primed with `inputs`, in order, and an
/// empty auxiliary stack.  The result reflects [`exec_ops`] exactly.
pub fn execute_script_with_inputs(script: &Script, inputs: &Vec<Vec<u8>>) -> (r: ExecResult)
    ensures
        r.aborted <==> exec_ops(script@, inputs.deep_view(), Seq::empty()) is None,
        !r.aborted ==> exec_ops(script@, inputs.deep_view(), Seq::empty()) == Some(
            (r.final_stack.deep_view(), r.alt_stack.deep_view()),
        ),
        r.aborted ==> r.final_stack@.len() == 0 && r.alt_stack@.len() == 0,
        r.success == (!r.aborted && r.final_stack@.len() > 0 && is_truthy(
            r.final_stack.deep_view().last(),
        )),
{
    let ghost inputs0 = inputs.deep_view();
    let mut main: Vec<Vec<u8>> = clone_stack(inputs);
    let mut alt: Vec<Vec<u8>> = Vec::new();
    let mut i: usize = 0;
    proof {
        assert(alt.deep_view() =~= Seq::<Seq<u8>>::empty());
        assert(script@.skip(0) =~= script@);
    }
    while i < script.ops.len()
        invariant
            i <= script.ops@.len(),
            inputs0 == inputs.deep_view(),
            exec_ops(script@, inputs0, Seq::empty()) == exec_ops(
                script@.skip(i as int),
                main.deep_view(),
                alt.deep_view(),
            ),
        decreases script.ops@.len() - i,
    {
        let ghost pre_main = main.deep_view();
        let ghost pre_alt = alt.deep_view();
        let ghost rest = script@.skip(i as int);
        proof {
            assert(rest[0] == script@[i as int]);
            assert(rest.skip(1) =~= script@.skip(i as int + 1));
        }
        let op = &script.ops[i];
        let ok = do_op(op, &mut main, &mut alt);
        if !ok {
            proof {
                assert(step(rest[0], pre_main, pre_alt) is None);
                assert(exec_ops(rest, pre_main, pre_alt) is None);
                assert(exec_ops(script@, inputs0, Seq::empty()) is None);
            }
            return ExecResult {
                success: false,
                aborted: true,
                final_stack: Vec::new(),
                alt_stack: Vec::new(),
            };
        }
        i = i + 1;
    }
    proof {
        assert(script@.skip(i as int) =~= Seq::<OpV>::empty());
    }
    let success = if main.len() > 0 {
        elem_is_truthy(&main[main.len() - 1])
    } else {
        false
    };
    proof {
        if main.len() > 0 {
            assert(main.deep_view()[main@.len() - 1] == main@[main@.len() - 1]@);
        }
    }
    ExecResult { success, aborted: false, final_stack: main, alt_stack: alt }
}

/// Run `script` on empty stacks.
pub fn execute_script(script: &Script) -> (r: ExecResult)
    ensures
        r.aborted <==> exec_ops(script@, Seq::empty(), Seq::empty()) is None,
        !r.aborted ==> exec_ops(script@, Seq::empty(), Seq::empty()) == Some(
            (r.final_stack.deep_view(), r.alt_stack.deep_view()),
        ),
        r.aborted ==> r.final_stack@.len() == 0 && r.alt_stack@.len() == 0,
{
    let inputs: Vec<Vec<u8>> = Vec::new();
    proof {
        assert(inputs.deep_view() =~= Seq::<Seq<u8>>::empty());
    }
    execute_script_with_inputs(script, &inputs)
}

} // verus!
