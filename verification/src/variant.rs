//! The closed set of record variants: one tag byte each, and the fixed size
//! of the variant's encoded payload.

use vstd::prelude::*;

verus! {

/// The payload size of the variant with tag `tag`, where `sizes` lists the
/// sizes by tag; `None` where the set has no such variant.
pub open spec fn payload_size(sizes: Seq<usize>, tag: u8) -> Option<nat> {
    if (tag as int) < sizes.len() {
        Some(sizes[tag as int] as nat)
    } else {
        None
    }
}

/// The dispatch table of a variant set. Tags are the numbers from 0 up to the
/// number of variants, so a set has 256 variants at most.
#[derive(Debug)]
pub struct VariantTable {
    sizes: Vec<usize>,
}

impl View for VariantTable {
    type V = Seq<usize>;

    closed spec fn view(&self) -> Seq<usize> {
        self.sizes@
    }
}

impl VariantTable {
    #[verifier::type_invariant]
    spec fn inv(&self) -> bool {
        self.sizes@.len() <= 256
    }

    /// The table of the variants whose payload sizes are `sizes`, in the order
    /// of their tags; `None` where a tag byte cannot number them all.
    pub fn new(sizes: Vec<usize>) -> (table: Option<Self>)
        ensures
            table is Some <==> sizes@.len() <= 256,
            table matches Some(t) ==> t@ == sizes@,
    {
        if sizes.len() > 256 {
            None
        } else {
            Some(VariantTable { sizes })
        }
    }

    /// The number of variants.
    pub fn len(&self) -> (n: usize)
        ensures
            n == self@.len(),
            n <= 256,
    {
        proof {
            use_type_invariant(self);
        }
        self.sizes.len()
    }

    /// The payload size of the variant with tag `tag`.
    pub fn size_of(&self, tag: u8) -> (size: Option<usize>)
        ensures
            match size {
                Some(n) => payload_size(self@, tag) == Some(n as nat),
                None => payload_size(self@, tag) is None,
            },
    {
        if (tag as usize) < self.sizes.len() {
            Some(self.sizes[tag as usize])
        } else {
            None
        }
    }
}

} // verus!
