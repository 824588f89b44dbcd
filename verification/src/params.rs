//! Transmission parameters.

use vstd::prelude::*;

verus! {

/// Parameters of a transmission mode, in samples at the internal rate.
#[derive(Debug, Clone, Copy, PartialEq, Eq, Structural)]
pub struct DabParams {
    /// Transmission mode.
    pub mode: u8,
    /// Symbols per frame.
    pub l: u16,
    /// Active carriers.
    pub carriers: u16,
    /// Samples per frame.
    pub t_f: u32,
    /// Samples in the null symbol.
    pub t_null: u32,
    /// Samples per symbol.
    pub t_s: u32,
    /// Samples in the useful part of a symbol.
    pub t_u: u32,
    /// Samples in the guard interval.
    pub t_g: u32,
    /// Carrier spacing in Hz.
    pub carrier_diff: u32,
}

/// The parameters of mode I.
pub open spec fn mode_i_params() -> DabParams {
    DabParams {
        mode: 1,
        l: 76,
        carriers: 1536,
        t_f: 196_608,
        t_null: 2656,
        t_s: 2552,
        t_u: 2048,
        t_g: 504,
        carrier_diff: 1000,
    }
}

impl DabParams {
    /// Mode I.
    pub fn mode_i() -> (p: Self)
        ensures
            p == mode_i_params(),
    {
        DabParams {
            mode: 1,
            l: 76,
            carriers: 1536,
            t_f: 196_608,
            t_null: 2656,
            t_s: 2552,
            t_u: 2048,
            t_g: 504,
            carrier_diff: 1000,
        }
    }
}

/// A symbol is its guard interval and its useful part; a frame is its null symbol
/// and its symbols.
pub proof fn law_mode_i_adds_up()
    ensures
        mode_i_params().t_s == mode_i_params().t_u + mode_i_params().t_g,
        mode_i_params().t_f == mode_i_params().t_null + mode_i_params().l * mode_i_params().t_s,
{
}

} // verus!
