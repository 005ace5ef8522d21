//! Rendering presets that travel with a layout.

use vstd::prelude::*;

verus! {

/// Default nucleotide-type colors: [A, U, G, C].
pub const DEFAULT_NUCLEOTIDE_COLORS: [&'static str; 4] = ["green", "red", "black", "blue"];

/// Legend type to render alongside the structure.
#[derive(Clone, Copy, Debug, PartialEq, Eq)]
pub enum Legend {
    Off,
    /// Color legend for nucleotide types (A, U/T, G, C).
    Nucleotide,
    /// Gradient colorbar for equilibrium probability (0.0–1.0).
    Probability,
}

impl Default for Legend {
    fn default() -> (r: Self)
        ensures
            r == Legend::Off,
    {
        Legend::Off
    }
}

} // verus!
