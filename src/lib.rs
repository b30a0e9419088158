//! Brackets a part-of-speech-tagged sentence: classifies `token.TAG` units,
//! and renders the parse trees of a grammar engine as S-expressions.
use vstd::prelude::*;

pub mod classify;
pub mod engine;
pub mod render;
pub mod text;

verus! {

/// The extended-BNF grammar of the sentences that are bracketed. Its
/// terminal categories are the tags of the input.
pub const GRAMMAR: &'static str = "
    S    := NP Aux VP ;
    NP   := [ Det ] { AdjP } N { PP } | NP Conj NP ;
    PP   := P NP | PP Conj PP ;
    VP   := { AdvP } V [ NP ] [ AdjP ] [ CP ] { AdvP } { PP } { AdvP } | VP Conj VP ;
    CP   := C S | CP Conj CP ;
    AdvP := [ AdvP ] Adv | AdvP Conj AdvP ;
    AdjP := [ AdvP ] Adj [ PP ] | AdjP Conj AdjP ;
";

} // verus!
