//! Value-capability handles: typed, named, fixed-size values.
//!
//! An [`Element`] stands for one named intermediate value of the large
//! computation.  Its identity is its name: the segment where it is a result
//! and the later segment where it is a parameter refer to the same
//! committed quantity through that name.  A fixed, protocol-wide subset of
//! names — the direct-reveal set, [`is_proof_name`] — is committed raw and
//! compared by byte equality instead of by hash.

use vstd::prelude::*;
use crate::hashing::HASH_LENGTH;

verus! {

/// The mathematical form of an [`Element`].
pub ghost struct ElementV {
    pub id: Seq<char>,
    pub size: nat,
    pub data: Option<Seq<Seq<u8>>>,
}

impl ElementV {
    /// The element carries a value of its declared size.
    pub open spec fn populated(self) -> bool {
        self.data is Some && self.data->Some_0.len() == self.size
    }
}

/// A named value: `size` machine-stack elements once serialized, `data`
/// present once the value has been filled in.
#[derive(Debug)]
pub struct Element {
    pub id: String,
    pub size: usize,
    pub data: Option<Vec<Vec<u8>>>,
}

impl View for Element {
    type V = ElementV;

    open spec fn view(&self) -> ElementV {
        ElementV {
            id: self.id@,
            size: self.size as nat,
            data: match self.data {
                Some(d) => Some(d.deep_view()),
                None => None,
            },
        }
    }
}

impl DeepView for Element {
    type V = ElementV;

    open spec fn deep_view(&self) -> ElementV {
        self.view()
    }
}

/// Membership in the direct-reveal set, by name alone: these parameters
/// are committed raw, not hashed, because their true bytes are needed
/// verbatim during recomputation.
pub open spec fn is_proof_name(id: Seq<char>) -> bool {
    ||| id == "proof_a"@
    ||| id == "proof_b"@
    ||| id == "proof_c"@
    ||| id == "scalar_1"@
    ||| id == "scalar_2"@
    ||| id == "scalar_3"@
}

/// Check direct-reveal membership on a concrete name.
pub fn name_in_proof_set(id: &String) -> (r: bool)
    ensures
        r == is_proof_name(id@),
{
    *id == String::from_str("proof_a") || *id == String::from_str("proof_b") || *id
        == String::from_str("proof_c") || *id == String::from_str("scalar_1") || *id
        == String::from_str("scalar_2") || *id == String::from_str("scalar_3")
}

/// How many elements the commitment for `e` opens to on the stack: the raw
/// witness size for a direct-reveal name, one hash otherwise.
pub open spec fn commit_len(e: ElementV) -> nat {
    if is_proof_name(e.id) {
        e.size
    } else {
        HASH_LENGTH as nat
    }
}

impl Element {
    /// A fresh, unpopulated handle for the named value.
    pub fn new(id: String, size: usize) -> (r: Self)
        ensures
            r@.id == id@,
            r@.size == size,
            r@.data is None,
    {
        Element { id, size, data: None }
    }

    /// Fill in the serialized value.
    pub fn fill_with_data(&mut self, data: Vec<Vec<u8>>)
        requires
            data@.len() == old(self)@.size,
        ensures
            final(self)@.id == old(self)@.id,
            final(self)@.size == old(self)@.size,
            final(self)@.data == Some(data.deep_view()),
            final(self)@.populated(),
    {
        self.data = Some(data);
    }

    /// The value's name.
    pub fn id(&self) -> (r: &String)
        ensures
            r@ == self@.id,
    {
        &self.id
    }

    /// How many stack elements the serialized value occupies.
    pub fn witness_size(&self) -> (r: usize)
        ensures
            r == self@.size,
    {
        self.size
    }

    /// The serialized value, or `None` while unpopulated.
    pub fn to_witness(&self) -> (r: Option<Vec<Vec<u8>>>)
        ensures
            r is Some <==> self@.data is Some,
            r is Some ==> r->Some_0.deep_view() == self@.data->Some_0,
    {
        match &self.data {
            Some(d) => Some(crate::script::clone_stack(d)),
            None => None,
        }
    }
}

impl Clone for Element {
    /// An independent handle for the same named value.
    fn clone(&self) -> (r: Self)
        ensures
            r@ == self@,
    {
        let data = match &self.data {
            Some(d) => Some(crate::script::clone_stack(d)),
            None => None,
        };
        Element { id: self.id.clone(), size: self.size, data }
    }
}

} // verus!
