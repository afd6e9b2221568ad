use vstd::prelude::*;

verus! {

/// `egui::Vec2`, a two-dimensional vector of `f32`: the library carries it
/// through without looking inside.
#[verifier::external_type_specification]
#[verifier::external_body]
pub struct ExVec2(egui::Vec2);

/// `egui::Pos2`, a point on the screen: the library carries it through
/// without looking inside.
#[verifier::external_type_specification]
#[verifier::external_body]
pub struct ExPos2(egui::Pos2);

/// `Clone` of `egui::Vec2`: the type derives `Clone` and `Copy`, so the copy
/// is the same vector.
pub assume_specification[ <egui::Vec2 as Clone>::clone ](v: &egui::Vec2) -> (r: egui::Vec2)
    ensures
        r == *v,
;

/// The zero vector, `egui::Vec2::ZERO`. The library cannot look inside a
/// vector, so all it knows of this one is that it is a single fixed value.
pub closed spec fn zero_vector() -> egui::Vec2 {
    vstd::pervasive::arbitrary()
}

/// Calls `egui::Vec2::ZERO`, a constant: every call gives the same vector,
/// the one `zero_vector` stands for.
#[verifier::external_body]
pub(crate) fn zero_vec2() -> (r: egui::Vec2)
    ensures
        r == zero_vector(),
{
    egui::Vec2::ZERO
}

} // verus!
