//! Fill rules and Boolean operations on winding numbers.

use vstd::prelude::*;

use crate::request::{ClipType, FillRule};

verus! {

/// Whether a region with winding number `winding` is filled under
/// `fill_rule`.
pub open spec fn winding_contains_spec(winding: int, fill_rule: FillRule) -> bool {
    match fill_rule {
        FillRule::EvenOdd => winding % 2 != 0,
        FillRule::NonZero => winding != 0,
        FillRule::Positive => winding > 0,
        FillRule::Negative => winding < 0,
    }
}

/// The Boolean operation applied to membership in the subject and the clip.
pub open spec fn apply_operation_spec(subject: bool, clip: bool, clip_type: ClipType) -> bool {
    match clip_type {
        ClipType::Intersection => subject && clip,
        ClipType::Union => subject || clip,
        ClipType::Difference => subject && !clip,
        ClipType::Xor => subject != clip,
    }
}

/// Whether a region with winding number `winding` is filled under
/// `fill_rule`.
pub fn winding_contains(winding: i128, fill_rule: FillRule) -> (result: bool)
    ensures
        result == winding_contains_spec(winding as int, fill_rule),
{
    match fill_rule {
        FillRule::EvenOdd => winding % 2 != 0,
        FillRule::NonZero => winding != 0,
        FillRule::Positive => winding > 0,
        FillRule::Negative => winding < 0,
    }
}

/// The Boolean operation applied to membership in the subject and the clip.
pub fn apply_operation(subject: bool, clip: bool, clip_type: ClipType) -> (result: bool)
    ensures
        result == apply_operation_spec(subject, clip, clip_type),
{
    match clip_type {
        ClipType::Intersection => subject && clip,
        ClipType::Union => subject || clip,
        ClipType::Difference => subject && !clip,
        ClipType::Xor => subject != clip,
    }
}

/// Subject and clip winding numbers of one face.
#[derive(Clone, Copy, Debug, PartialEq, Eq, Structural)]
pub struct WindingPair {
    /// Winding number of the subject paths.
    pub subject: i128,
    /// Winding number of the clip paths.
    pub clip: i128,
}

/// Whether a face with these windings belongs to the operation's result.
pub fn operation_from_windings(winding: WindingPair, clip_type: ClipType, fill_rule: FillRule) -> (result: bool)
    ensures
        result == apply_operation_spec(
            winding_contains_spec(winding.subject as int, fill_rule),
            winding_contains_spec(winding.clip as int, fill_rule),
            clip_type,
        ),
{
    let subject = winding_contains(winding.subject, fill_rule);
    let clip = winding_contains(winding.clip, fill_rule);
    apply_operation(subject, clip, clip_type)
}

/// How the fill rules relate: no rule fills winding zero; even-odd
/// alternates from one winding to the next; every odd winding is filled
/// under non-zero; non-zero fills exactly what positive or negative fills;
/// negative fills a winding exactly when positive fills its opposite; and
/// positive fills only positive windings, and every winding above one it
/// fills.
pub proof fn law_fill_rules_agree(w: int, v: int, fill_rule: FillRule)
    ensures
        !winding_contains_spec(0, fill_rule),
        winding_contains_spec(w, FillRule::EvenOdd) != winding_contains_spec(w + 1, FillRule::EvenOdd),
        winding_contains_spec(w, FillRule::EvenOdd) ==> winding_contains_spec(w, FillRule::NonZero),
        winding_contains_spec(w, FillRule::NonZero) == (winding_contains_spec(w, FillRule::Positive)
            || winding_contains_spec(w, FillRule::Negative)),
        winding_contains_spec(w, FillRule::Negative) == winding_contains_spec(-w, FillRule::Positive),
        winding_contains_spec(w, FillRule::Positive) ==> w > 0,
        winding_contains_spec(w, FillRule::Positive) && v >= w ==> winding_contains_spec(v, FillRule::Positive),
{
    assert((w + 1) % 2 != w % 2);
}

/// A winding of one is filled under every fill rule but negative, and a
/// winding of minus one under every fill rule but positive: a single ring
/// fills its inside whichever way it turns, under the rule that accepts its
/// orientation.
pub proof fn law_single_turn_filled(fill_rule: FillRule)
    ensures
        fill_rule != FillRule::Negative ==> winding_contains_spec(1, fill_rule),
        fill_rule != FillRule::Positive ==> winding_contains_spec(-1, fill_rule),
{
    law_fill_rules_agree(0, 1, fill_rule);
    law_fill_rules_agree(-1, 0, fill_rule);
    law_fill_rules_agree(1, 1, fill_rule);
}

/// How the operations relate: intersection is symmetric, keeps a region
/// with itself and drops everything against nothing; union is the
/// complement of the intersection of the complements; difference is the
/// intersection with the clip's complement; and XOR is the union without
/// the intersection.
pub proof fn law_operations_agree(a: bool, b: bool)
    ensures
        apply_operation_spec(a, b, ClipType::Intersection) == apply_operation_spec(b, a, ClipType::Intersection),
        apply_operation_spec(a, a, ClipType::Intersection) == a,
        !apply_operation_spec(a, false, ClipType::Intersection),
        apply_operation_spec(a, b, ClipType::Union) == !apply_operation_spec(!a, !b, ClipType::Intersection),
        apply_operation_spec(a, b, ClipType::Difference) == apply_operation_spec(a, !b, ClipType::Intersection),
        apply_operation_spec(a, b, ClipType::Xor) == (apply_operation_spec(a, b, ClipType::Union)
            && !apply_operation_spec(a, b, ClipType::Intersection)),
{
}

} // verus!
