//! The bit-commitment capability.
//!
//! For every named value, a [`BCAssigner`] supplies the verification
//! fragment the compiler embeds ([`BCAssigner::locking_script`]) and the
//! opening witness the witness builder lays out
//! ([`BCAssigner::get_witness`]).  The two must agree: running the fragment
//! with the opening on top of the main stack must leave exactly the
//! committed message there, which [`BCAssigner::lock_correct`] obliges
//! every implementation to prove.  The committed message is the raw value
//! for a direct-reveal name and the value's hash otherwise.

use vstd::prelude::*;
use crate::element::Element;
use crate::element::ElementV;
use crate::element::commit_len;
use crate::element::is_proof_name;
use crate::element::name_in_proof_set;
use crate::hashing::concat_bytes;
use crate::hashing::hash_bytes;
use crate::hashing::hash_elems;
use crate::hashing::lemma_hash_len;
use crate::script::OpV;
use crate::script::Script;
use crate::script::bytes_into_elems;
use crate::script::clone_stack;
use crate::script::exec_ops;

verus! {

/// A name-keyed commitment capability.  Its output per name must be
/// deterministic and independent of call order, so `script` and `witness`
/// can be produced separately and still pair up.
pub trait BCAssigner: Sized {
    /// The verification fragment emitted for `e`, as operations.
    spec fn lock_ops(&self, e: ElementV) -> Seq<OpV>;

    /// The opening witness laid out for `e`.
    spec fn opening(&self, e: ElementV) -> Seq<Seq<u8>>;

    /// The committed message the fragment leaves on the main stack.
    spec fn committed_message(&self, e: ElementV) -> Seq<Seq<u8>>;

    /// When this capability can serve `e` at all.
    spec fn elem_ok(&self, e: ElementV) -> bool;

    /// The pairing obligation: on any stacks, the fragment consumes the
    /// opening from the top of the main stack, leaves the committed
    /// message there, aborts nowhere and never touches the auxiliary
    /// stack; and the message has the commitment length the compiler
    /// plans for.
    proof fn lock_correct(&self, e: ElementV, m: Seq<Seq<u8>>, a: Seq<Seq<u8>>)
        requires
            self.elem_ok(e),
        ensures
            exec_ops(self.lock_ops(e), m + self.opening(e), a) == Some(
                (m + self.committed_message(e), a),
            ),
            self.committed_message(e).len() == commit_len(e),
    ;

    /// The verification fragment for `e`.
    fn locking_script(&self, e: &Element) -> (s: Script)
        ensures
            s@ == self.lock_ops(e@),
    ;

    /// The opening witness for `e`.
    fn get_witness(&self, e: &Element) -> (w: Vec<Vec<u8>>)
        requires
            self.elem_ok(e@),
        ensures
            w.deep_view() == self.opening(e@),
    ;
}

/// The transparent commitment capability: the opening witness is the
/// committed message itself and the verification fragment is empty.  It
/// keys on nothing but the element handed to it, so its output per name is
/// deterministic by construction.
pub struct DummyAssigner {}

impl DummyAssigner {
    /// A fresh transparent capability.
    pub fn new() -> Self {
        DummyAssigner {  }
    }
}

impl BCAssigner for DummyAssigner {
    open spec fn lock_ops(&self, e: ElementV) -> Seq<OpV> {
        Seq::empty()
    }

    open spec fn committed_message(&self, e: ElementV) -> Seq<Seq<u8>> {
        if is_proof_name(e.id) {
            e.data->Some_0
        } else {
            hash_elems(e.data->Some_0)
        }
    }

    open spec fn opening(&self, e: ElementV) -> Seq<Seq<u8>> {
        self.committed_message(e)
    }

    open spec fn elem_ok(&self, e: ElementV) -> bool {
        e.populated()
    }

    proof fn lock_correct(&self, e: ElementV, m: Seq<Seq<u8>>, a: Seq<Seq<u8>>) {
        assert(exec_ops(self.lock_ops(e), m + self.opening(e), a) == Some(
            (m + self.opening(e), a),
        ));
        if !is_proof_name(e.id) {
            lemma_hash_len(crate::hashing::concat_elems(e.data->Some_0));
        }
    }

    fn locking_script(&self, e: &Element) -> (s: Script) {
        let s = Script::new();
        s
    }

    fn get_witness(&self, e: &Element) -> (w: Vec<Vec<u8>>) {
        match &e.data {
            Some(d) => {
                if name_in_proof_set(&e.id) {
                    clone_stack(d)
                } else {
                    let bytes = concat_bytes(d);
                    let digest = hash_bytes(&bytes);
                    bytes_into_elems(&digest)
                }
            },
            None => {
                proof {
                    assert(false);
                }
                Vec::new()
            },
        }
    }
}

} // verus!
