//! The hash primitive used by the commitment sub-protocol.
//!
//! The protocol needs one fixed-output, variable-input-length hash function
//! that both the segment compiler and the machine agree on.  Its inner
//! structure carries no protocol meaning: every property proved here relies
//! only on the hash being a deterministic function of its input with
//! [`HASH_LENGTH`] output bytes, so a small byte-mixing accumulator serves
//! as the primitive.

use vstd::prelude::*;

verus! {

/// Number of bytes in one hash output, and hence in one committed hash.
pub const HASH_LENGTH: usize = 20;

/// A byte vector's deep view is its view.
pub broadcast proof fn lemma_elem_dv(x: Vec<u8>)
    ensures
        #[trigger] x.deep_view() == x@,
{
    assert(x.deep_view() =~= x@);
}

/// One element of a stack's deep view is that element's view.
pub broadcast proof fn lemma_stack_dv_index(v: Vec<Vec<u8>>, j: int)
    requires
        0 <= j < v@.len(),
    ensures
        #[trigger] v.deep_view()[j] == v@[j]@,
{
    assert(v@[j].deep_view() =~= v@[j]@);
}

/// One mixing step: fold input byte `b` into state byte `a`.
pub open spec fn mix(a: u8, b: u8) -> u8 {
    (((a as nat) * 31 + (b as nat) * 7 + 1) % 256) as u8
}

/// The all-zero initial hash state.
pub open spec fn init_state() -> Seq<u8> {
    Seq::new(HASH_LENGTH as nat, |i: int| 0u8)
}

/// Fold the input `s` into the state `st`, rotating through the state
/// bytes starting at position `pos`.
pub open spec fn absorb(st: Seq<u8>, s: Seq<u8>, pos: nat) -> Seq<u8>
    decreases s.len(),
{
    if s.len() == 0 {
        st
    } else {
        let i = (pos % (HASH_LENGTH as nat)) as int;
        absorb(st.update(i, mix(st[i], s[0])), s.skip(1), pos + 1)
    }
}

/// The hash of a byte sequence: [`HASH_LENGTH`] bytes.
pub open spec fn hash_of(s: Seq<u8>) -> Seq<u8> {
    absorb(init_state(), s, 0)
}

pub proof fn lemma_absorb_len(st: Seq<u8>, s: Seq<u8>, pos: nat)
    requires
        st.len() == HASH_LENGTH,
    ensures
        absorb(st, s, pos).len() == HASH_LENGTH,
    decreases s.len(),
{
    if s.len() != 0 {
        let i = (pos % (HASH_LENGTH as nat)) as int;
        lemma_absorb_len(st.update(i, mix(st[i], s[0])), s.skip(1), pos + 1);
    }
}

/// A hash output always has exactly [`HASH_LENGTH`] bytes.
pub proof fn lemma_hash_len(s: Seq<u8>)
    ensures
        hash_of(s).len() == HASH_LENGTH,
{
    lemma_absorb_len(init_state(), s, 0);
}

/// Compute [`hash_of`] on concrete bytes.
pub fn hash_bytes(input: &Vec<u8>) -> (r: Vec<u8>)
    ensures
        r@ == hash_of(input@),
        r@.len() == HASH_LENGTH,
{
    let mut st: Vec<u8> = Vec::new();
    let mut k: usize = 0;
    while k < HASH_LENGTH
        invariant
            k <= HASH_LENGTH,
            st@ == init_state().take(k as int),
        decreases HASH_LENGTH - k,
    {
        st.push(0u8);
        proof {
            assert(st@ =~= init_state().take(k as int + 1));
        }
        k = k + 1;
    }
    proof {
        assert(st@ =~= init_state());
    }
    proof {
        assert(input@.skip(0) =~= input@);
    }
    let mut i: usize = 0;
    while i < input.len()
        invariant
            i <= input@.len(),
            st@.len() == HASH_LENGTH,
            absorb(st@, input@.skip(i as int), i as nat) == hash_of(input@),
        decreases input@.len() - i,
    {
        let idx = i % HASH_LENGTH;
        let a = st[idx];
        let b = input[i];
        let t: u16 = (a as u16) * 31 + (b as u16) * 7 + 1;
        let m: u8 = (t % 256) as u8;
        proof {
            assert(m == mix(a, b));
            assert(input@.skip(i as int)[0] == input@[i as int]);
            assert(input@.skip(i as int).skip(1) =~= input@.skip(i as int + 1));
        }
        st.set(idx, m);
        i = i + 1;
    }
    proof {
        assert(input@.skip(i as int) =~= Seq::<u8>::empty());
        assert(absorb(st@, input@.skip(i as int), i as nat) == st@);
        lemma_hash_len(input@);
    }
    st
}

/// The bytes of all elements of `s`, deepest first, as one sequence.
pub open spec fn concat_elems(s: Seq<Seq<u8>>) -> Seq<u8>
    decreases s.len(),
{
    if s.len() == 0 {
        Seq::empty()
    } else {
        concat_elems(s.drop_last()) + s.last()
    }
}

/// Each byte of `s` as a one-byte machine stack element.
pub open spec fn bytes_to_elems(s: Seq<u8>) -> Seq<Seq<u8>> {
    Seq::new(s.len(), |i: int| seq![s[i]])
}

/// The hash of the concatenated bytes of `s`, as one-byte stack elements.
pub open spec fn hash_elems(s: Seq<Seq<u8>>) -> Seq<Seq<u8>> {
    bytes_to_elems(hash_of(concat_elems(s)))
}

/// Concatenate concrete stack elements into one byte vector.
pub fn concat_bytes(elems: &Vec<Vec<u8>>) -> (r: Vec<u8>)
    ensures
        r@ == concat_elems(elems.deep_view()),
{
    let mut r: Vec<u8> = Vec::new();
    let mut i: usize = 0;
    while i < elems.len()
        invariant
            i <= elems@.len(),
            r@ == concat_elems(elems.deep_view().take(i as int)),
        decreases elems@.len() - i,
    {
        let mut j: usize = 0;
        let e = &elems[i];
        while j < e.len()
            invariant
                j <= e@.len(),
                e@ == elems.deep_view()[i as int],
                i < elems@.len(),
                r@ == concat_elems(elems.deep_view().take(i as int)) + e@.take(j as int),
            decreases e@.len() - j,
        {
            r.push(e[j]);
            proof {
                assert(e@.take(j as int).push(e@[j as int]) =~= e@.take(j as int + 1));
            }
            j = j + 1;
        }
        proof {
            let dv = elems.deep_view();
            assert(e@.take(j as int) =~= dv[i as int]);
            assert(dv.take(i as int + 1).drop_last() =~= dv.take(i as int));
            assert(dv.take(i as int + 1).last() == dv[i as int]);
            assert(concat_elems(dv.take(i as int + 1)) == concat_elems(dv.take(i as int)) + dv[i as int]);
        }
        i = i + 1;
    }
    proof {
        assert(elems.deep_view().take(i as int) =~= elems.deep_view());
    }
    r
}

} // verus!
