//! Choices made when setting up the GPU: which adapter to use and which
//! surface format to render to.

use vstd::prelude::*;

verus! {

/// The kind of a graphics adapter.
#[derive(Clone, Copy, Debug, PartialEq, Eq, Structural)]
pub enum DeviceKind {
    Other,
    IntegratedGpu,
    DiscreteGpu,
    VirtualGpu,
    Cpu,
}

/// How much an adapter kind is preferred: discrete 100, integrated 50,
/// virtual 25, anything else 0.
pub open spec fn priority_of(kind: DeviceKind) -> u32 {
    match kind {
        DeviceKind::DiscreteGpu => 100,
        DeviceKind::IntegratedGpu => 50,
        DeviceKind::VirtualGpu => 25,
        _ => 0,
    }
}

pub fn adapter_priority(kind: DeviceKind) -> (p: u32)
    ensures
        p == priority_of(kind),
{
    match kind {
        DeviceKind::DiscreteGpu => 100,
        DeviceKind::IntegratedGpu => 50,
        DeviceKind::VirtualGpu => 25,
        _ => 0,
    }
}

/// The adapter to use among the compatible ones, given by kind: one of the
/// highest priority (the last of them, as `Iterator::max_by_key` picks);
/// `None` when there is none.
pub fn select_best_adapter(kinds: &Vec<DeviceKind>) -> (r: Option<usize>)
    ensures
        (r is None) == (kinds@.len() == 0),
        r matches Some(i) ==> {
            &&& i < kinds@.len()
            &&& forall|j: int| 0 <= j < kinds@.len() ==> priority_of(#[trigger] kinds@[j]) <= priority_of(kinds@[i as int])
            &&& forall|j: int| i < j < kinds@.len() ==> priority_of(#[trigger] kinds@[j]) < priority_of(kinds@[i as int])
        },
{
    if kinds.len() == 0 {
        return None;
    }
    let mut best: usize = 0;
    let mut best_priority: u32 = adapter_priority(kinds[0]);
    let mut i: usize = 1;
    while i < kinds.len()
        invariant
            1 <= i <= kinds@.len(),
            best < i,
            best_priority == priority_of(kinds@[best as int]),
            forall|j: int| 0 <= j < i ==> priority_of(#[trigger] kinds@[j]) <= best_priority,
            forall|j: int| best < j < i ==> priority_of(#[trigger] kinds@[j]) < best_priority,
        decreases kinds@.len() - i,
    {
        let p: u32 = adapter_priority(kinds[i]);
        if p >= best_priority {
            best = i;
            best_priority = p;
        }
        i = i + 1;
    }
    Some(best)
}

/// The surface format to render to, among the offered ones (given by
/// whether each is sRGB): the first sRGB one, else the first one.
pub fn select_surface_format(is_srgb: &Vec<bool>) -> (i: usize)
    requires
        is_srgb@.len() > 0,
    ensures
        i < is_srgb@.len(),
        (exists|j: int| 0 <= j < is_srgb@.len() && is_srgb@[j]) ==> is_srgb@[i as int]
            && forall|j: int| 0 <= j < i ==> !is_srgb@[j],
        !(exists|j: int| 0 <= j < is_srgb@.len() && is_srgb@[j]) ==> i == 0,
{
    let mut k: usize = 0;
    while k < is_srgb.len()
        invariant
            k <= is_srgb@.len(),
            forall|j: int| 0 <= j < k ==> !is_srgb@[j],
        decreases is_srgb@.len() - k,
    {
        if is_srgb[k] {
            return k;
        }
        k = k + 1;
    }
    0
}

/// The surface extent for a window: each side at least 1.
pub fn surface_extent(width: u32, height: u32) -> (r: (u32, u32))
    ensures
        r.0 == if width == 0 { 1 } else { width },
        r.1 == if height == 0 { 1 } else { height },
{
    (if width == 0 { 1 } else { width }, if height == 0 { 1 } else { height })
}

} // verus!
