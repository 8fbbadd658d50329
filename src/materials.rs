use vstd::prelude::*;

verus! {

/// The inert material: it neither scatters nor emits light. It stands in
/// where a hit record needs a material before a real one is known.
pub struct DefaultMaterial {}

impl Default for DefaultMaterial {
    fn default() -> (r: Self)
        ensures
            r == (DefaultMaterial {}),
    {
        DefaultMaterial {}
    }
}

} // verus!
