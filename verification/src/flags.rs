//! Queries on the flag words of `oxc_syntax` that the analysis asks.
use oxc_syntax::{reference::ReferenceFlags, scope::ScopeFlags};
use vstd::prelude::*;

verus! {

/// The bits of `ScopeFlags::Var`: `Top | Function | ClassStaticBlock | TsModuleBlock`.
pub open spec fn var_scope_bits() -> u16 {
    0x36
}

/// `ScopeFlags::StrictMode`.
pub open spec fn strict_mode_bit() -> u16 {
    0x1
}

/// `ScopeFlags::DirectEval`.
pub open spec fn direct_eval_bit() -> u16 {
    0x400
}

/// `ReferenceFlags::Type`.
pub open spec fn type_reference_bits() -> u8 {
    0x4
}

/// Whether a scope with these flags holds `var` declarations.
pub open spec fn is_var_scope(bits: u16) -> bool {
    bits & var_scope_bits() != 0
}

/// Whether a scope with these flags is strict-mode code.
pub open spec fn is_strict_scope(bits: u16) -> bool {
    bits & strict_mode_bit() != 0
}

/// Whether a scope with these flags contains a direct `eval`.
pub open spec fn has_direct_eval(bits: u16) -> bool {
    bits & direct_eval_bit() != 0
}

/// Whether a reference with these flags is a type reference and nothing else.
pub open spec fn is_type_only_reference(bits: u8) -> bool {
    bits == type_reference_bits()
}

/// `ScopeFlags::is_var`: the flags intersect `ScopeFlags::Var`.
#[verifier::external_body]
pub(crate) fn scope_flags_is_var(bits: u16) -> (r: bool)
    ensures
        r == is_var_scope(bits),
{
    ScopeFlags::from_bits_retain(bits).is_var()
}

/// `ScopeFlags::is_strict_mode`: the flags contain `ScopeFlags::StrictMode`.
#[verifier::external_body]
pub(crate) fn scope_flags_is_strict_mode(bits: u16) -> (r: bool)
    ensures
        r == is_strict_scope(bits),
{
    ScopeFlags::from_bits_retain(bits).is_strict_mode()
}

/// `ScopeFlags::contains_direct_eval`: the flags contain `ScopeFlags::DirectEval`.
#[verifier::external_body]
pub(crate) fn scope_flags_contains_direct_eval(bits: u16) -> (r: bool)
    ensures
        r == has_direct_eval(bits),
{
    ScopeFlags::from_bits_retain(bits).contains_direct_eval()
}

/// `ReferenceFlags::is_type_only`: the flags are exactly `ReferenceFlags::Type`.
#[verifier::external_body]
pub(crate) fn reference_flags_is_type_only(bits: u8) -> (r: bool)
    ensures
        r == is_type_only_reference(bits),
{
    ReferenceFlags::from_bits_retain(bits).is_type_only()
}

} // verus!
