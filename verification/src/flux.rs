use vstd::prelude::*;

verus! {

/// The kind of flux quantum that the circuit under test handles.
#[derive(Clone, Copy, Debug, PartialEq, Eq, Structural)]
pub enum FlaxType {
    /// Half flux quantum logic: one switching event advances the phase by pi.
    HFQ,
    /// Single flux quantum logic: one switching event advances the phase by 2 pi.
    SQF,
}

impl Default for FlaxType {
    fn default() -> (r: Self)
        ensures
            r == FlaxType::HFQ,
    {
        FlaxType::HFQ
    }
}

} // verus!
