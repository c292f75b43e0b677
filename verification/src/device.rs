//! Choosing among what a Vulkan driver offers: memory types, queue families
//! and physical devices, each read from the driver as plain numbers.

use vstd::prelude::*;
use crate::sort::{sorted_stably, sort_by_first};

verus! {

/// Memory type `i` is allowed by `mask` and has every property in
/// `properties`.
pub open spec fn memory_type_fits(type_flags: Seq<u32>, mask: u32, properties: u32, i: int) -> bool {
    &&& (1u32 << (i as u32)) & mask != 0
    &&& type_flags[i] & properties == properties
}

/// The first memory type, of those whose property flags are `type_flags`,
/// that `mask` allows and that has all of `properties`.
pub fn find_memory_type(type_flags: &Vec<u32>, mask: u32, properties: u32) -> (r: Option<u32>)
    requires
        type_flags@.len() <= 32,
    ensures
        r matches Some(i) ==> i < type_flags@.len() && memory_type_fits(type_flags@, mask, properties, i as int)
            && forall|j: int| 0 <= j < i ==> !#[trigger] memory_type_fits(type_flags@, mask, properties, j),
        r is None ==> forall|j: int| 0 <= j < type_flags@.len() ==> !#[trigger] memory_type_fits(type_flags@, mask, properties, j),
{
    let mut i: usize = 0;
    while i < type_flags.len()
        invariant
            i <= type_flags@.len() <= 32,
            forall|j: int| 0 <= j < i ==> !#[trigger] memory_type_fits(type_flags@, mask, properties, j),
        decreases type_flags.len() - i,
    {
        let bit: u32 = 1u32 << (i as u32);
        if bit & mask != 0 && type_flags[i] & properties == properties {
            return Some(i as u32);
        }
        i += 1;
    }
    None
}

/// The first queue family, of those whose flags are `queue_flags`, for which
/// `predicate` (given the family's index and flags) holds; every family before
/// it was asked and refused.
pub fn find_queue_family<F: Fn(u32, u32) -> bool>(queue_flags: &Vec<u32>, predicate: F) -> (r: Option<u32>)
    requires
        queue_flags@.len() <= u32::MAX,
        forall|i: u32, f: u32| #[trigger] predicate.requires((i, f)),
    ensures
        r matches Some(i) ==> i < queue_flags@.len() && predicate.ensures((i, queue_flags@[i as int]), true)
            && forall|j: int| 0 <= j < i ==> #[trigger] predicate.ensures((j as u32, queue_flags@[j]), false),
        r is None ==> forall|j: int| 0 <= j < queue_flags@.len() ==> #[trigger] predicate.ensures((j as u32, queue_flags@[j]), false),
{
    let mut i: usize = 0;
    while i < queue_flags.len()
        invariant
            i <= queue_flags@.len() <= u32::MAX,
            forall|i: u32, f: u32| #[trigger] predicate.requires((i, f)),
            forall|j: int| 0 <= j < i ==> #[trigger] predicate.ensures((j as u32, queue_flags@[j]), false),
        decreases queue_flags.len() - i,
    {
        let found = predicate(i as u32, queue_flags[i]);
        if found {
            return Some(i as u32);
        }
        i += 1;
    }
    None
}

/// `VK_QUEUE_GRAPHICS_BIT`.
pub const QUEUE_GRAPHICS: u32 = 1;

/// A queue family with these flags runs graphics work.
pub open spec fn is_graphics(flags: u32) -> bool {
    flags & QUEUE_GRAPHICS == QUEUE_GRAPHICS
}

/// The first family with graphics among the first `n` of `families`.
pub open spec fn first_graphics(families: Seq<u32>, n: int) -> Option<u32>
    decreases n,
{
    if n <= 0 {
        None
    } else {
        match first_graphics(families, n - 1) {
            Some(i) => Some(i),
            None => if is_graphics(families[n - 1]) {
                Some((n - 1) as u32)
            } else {
                None
            },
        }
    }
}

proof fn lemma_first_graphics_stays(families: Seq<u32>, m: int, n: int)
    requires
        0 <= m <= n,
        first_graphics(families, m) is Some,
    ensures
        first_graphics(families, n) == first_graphics(families, m),
    decreases n - m,
{
    if m < n {
        lemma_first_graphics_stays(families, m, n - 1);
    }
}

/// A queue family runs graphics exactly when its graphics bit (the lowest)
/// is set, whatever its other bits: when its flags are odd.
pub proof fn lemma_graphics_bit(flags: u32)
    ensures
        is_graphics(flags) <==> flags % 2 == 1,
{
    assert((flags & 1u32) == 1u32 <==> flags % 2 == 1) by (bit_vector);
}

/// The first device, of those whose queue families' flags are `devices`,
/// with a queue family that runs graphics, and that family: the first such of
/// the device.
pub fn find_with_graphics_queue_family(devices: &Vec<Vec<u32>>) -> (r: Option<(usize, u32)>)
    requires
        forall|d: int| 0 <= d < devices@.len() ==> (#[trigger] devices@[d])@.len() <= u32::MAX,
    ensures
        r matches Some(found) ==> found.0 < devices@.len() && first_graphics(devices@[found.0 as int]@, devices@[found.0 as int]@.len() as int)
            == Some(found.1) && forall|d: int| 0 <= d < found.0 ==> #[trigger] first_graphics(devices@[d]@, devices@[d]@.len() as int) is None,
        r is None ==> forall|d: int| 0 <= d < devices@.len() ==> #[trigger] first_graphics(devices@[d]@, devices@[d]@.len() as int) is None,
{
    let mut d: usize = 0;
    while d < devices.len()
        invariant
            d <= devices@.len(),
            forall|d: int| 0 <= d < devices@.len() ==> (#[trigger] devices@[d])@.len() <= u32::MAX,
            forall|e: int| 0 <= e < d ==> #[trigger] first_graphics(devices@[e]@, devices@[e]@.len() as int) is None,
        decreases devices.len() - d,
    {
        let families = &devices[d];
        let mut i: usize = 0;
        while i < families.len()
            invariant
                i <= families@.len() <= u32::MAX,
                first_graphics(families@, i as int) is None,
                d < devices@.len(),
                families@ == devices@[d as int]@,
                forall|e: int| 0 <= e < d ==> #[trigger] first_graphics(devices@[e]@, devices@[e]@.len() as int) is None,
            decreases families.len() - i,
        {
            if families[i] & QUEUE_GRAPHICS == QUEUE_GRAPHICS {
                proof {
                    assert(is_graphics(families@[i as int]));
                    assert(first_graphics(families@, i + 1) == Some(i as u32));
                    lemma_first_graphics_stays(families@, i + 1, families@.len() as int);
                    assert(families@ == devices@[d as int]@);
                }
                return Some((d, i as u32));
            }
            i += 1;
        }
        d += 1;
    }
    None
}

/// `VK_PHYSICAL_DEVICE_TYPE_OTHER`.
pub const DEVICE_TYPE_OTHER: i32 = 0;
/// `VK_PHYSICAL_DEVICE_TYPE_INTEGRATED_GPU`.
pub const DEVICE_TYPE_INTEGRATED_GPU: i32 = 1;
/// `VK_PHYSICAL_DEVICE_TYPE_DISCRETE_GPU`.
pub const DEVICE_TYPE_DISCRETE_GPU: i32 = 2;
/// `VK_PHYSICAL_DEVICE_TYPE_VIRTUAL_GPU`.
pub const DEVICE_TYPE_VIRTUAL_GPU: i32 = 3;
/// `VK_PHYSICAL_DEVICE_TYPE_CPU`.
pub const DEVICE_TYPE_CPU: i32 = 4;

/// A device type that Vulkan defines.
pub open spec fn known_device_type(t: i32) -> bool {
    0 <= t <= 4
}

/// The rank by which devices are ordered: other 0, CPU 1, virtual GPU 2,
/// integrated GPU 3, discrete GPU 4.
pub open spec fn rank_of(t: i32) -> u32 {
    if t == DEVICE_TYPE_DISCRETE_GPU {
        4
    } else if t == DEVICE_TYPE_INTEGRATED_GPU {
        3
    } else if t == DEVICE_TYPE_VIRTUAL_GPU {
        2
    } else if t == DEVICE_TYPE_CPU {
        1
    } else {
        0
    }
}

/// The rank of a device type (see `rank_of`).
pub fn device_rank(t: i32) -> (r: u32)
    requires
        known_device_type(t),
    ensures
        r == rank_of(t),
{
    if t == DEVICE_TYPE_DISCRETE_GPU {
        4
    } else if t == DEVICE_TYPE_INTEGRATED_GPU {
        3
    } else if t == DEVICE_TYPE_VIRTUAL_GPU {
        2
    } else if t == DEVICE_TYPE_CPU {
        1
    } else {
        0
    }
}

/// Each device's rank beside its index.
pub open spec fn ranked(types: Seq<i32>) -> Seq<(u32, usize)> {
    Seq::new(types.len(), |i: int| (rank_of(types[i]), i as usize))
}

/// The indices of the devices whose types are `types`, ordered by rank, from
/// the lowest (other) to the highest (discrete GPU), devices of one rank in
/// the order they came.
pub fn sort_by_type(types: &Vec<i32>) -> (r: Vec<usize>)
    requires
        forall|i: int| 0 <= i < types@.len() ==> known_device_type(#[trigger] types@[i]),
    ensures
        exists|sorted: Seq<(u32, usize)>| sorted_stably(ranked(types@), sorted) && r@ == sorted.map_values(|e: (u32, usize)| e.1),
{
    let mut devices: Vec<(u32, usize)> = Vec::with_capacity(types.len());
    let mut i: usize = 0;
    while i < types.len()
        invariant
            i <= types@.len(),
            forall|i: int| 0 <= i < types@.len() ==> known_device_type(#[trigger] types@[i]),
            devices@ == ranked(types@).subrange(0, i as int),
        decreases types.len() - i,
    {
        let rank = device_rank(types[i]);
        devices.push((rank, i));
        assert(devices@ =~= ranked(types@).subrange(0, i + 1));
        i += 1;
    }
    assert(ranked(types@).subrange(0, types@.len() as int) =~= ranked(types@));
    let ghost before = devices@;
    sort_by_first(&mut devices);
    let mut order: Vec<usize> = Vec::with_capacity(devices.len());
    let mut k: usize = 0;
    while k < devices.len()
        invariant
            k <= devices@.len(),
            order@ == devices@.subrange(0, k as int).map_values(|e: (u32, usize)| e.1),
        decreases devices.len() - k,
    {
        order.push(devices[k].1);
        assert(order@ =~= devices@.subrange(0, k + 1).map_values(|e: (u32, usize)| e.1));
        k += 1;
    }
    assert(devices@.subrange(0, devices@.len() as int) =~= devices@);
    assert(sorted_stably(before, devices@));
    order
}

} // verus!
