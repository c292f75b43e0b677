use thermal::device::{
    device_rank, find_memory_type, find_queue_family, find_with_graphics_queue_family, sort_by_type, DEVICE_TYPE_CPU,
    DEVICE_TYPE_DISCRETE_GPU, DEVICE_TYPE_INTEGRATED_GPU, DEVICE_TYPE_OTHER, DEVICE_TYPE_VIRTUAL_GPU,
};

const HOST_VISIBLE: u32 = 2;
const HOST_COHERENT: u32 = 4;
const DEVICE_LOCAL: u32 = 1;

#[test]
fn memory_type_is_first_allowed_with_properties() {
    let types = vec![DEVICE_LOCAL, HOST_VISIBLE, HOST_VISIBLE | HOST_COHERENT, HOST_VISIBLE | HOST_COHERENT | DEVICE_LOCAL];
    assert_eq!(find_memory_type(&types, 0b1111, HOST_VISIBLE | HOST_COHERENT), Some(2));
    assert_eq!(find_memory_type(&types, 0b1011, HOST_VISIBLE | HOST_COHERENT), Some(3));
    assert_eq!(find_memory_type(&types, 0b0011, HOST_VISIBLE | HOST_COHERENT), None);
    assert_eq!(find_memory_type(&types, 0b1111, 0), Some(0));
    assert_eq!(find_memory_type(&vec![], 0xffff_ffff, 0), None);
}

#[test]
fn queue_family_is_first_that_predicate_accepts() {
    let flags = vec![4, 2, 3, 1];
    assert_eq!(find_queue_family(&flags, |_, f| f & 1 != 0), Some(2));
    assert_eq!(find_queue_family(&flags, |i, _| i == 3), Some(3));
    assert_eq!(find_queue_family(&flags, |_, f| f & 8 != 0), None);
}

#[test]
fn graphics_family_across_devices() {
    let devices = vec![vec![2, 4], vec![4, 5, 1], vec![1]];
    assert_eq!(find_with_graphics_queue_family(&devices), Some((1, 1)));
    assert_eq!(find_with_graphics_queue_family(&vec![vec![2], vec![]]), None);
}

#[test]
fn device_ranks() {
    assert_eq!(device_rank(DEVICE_TYPE_OTHER), 0);
    assert_eq!(device_rank(DEVICE_TYPE_CPU), 1);
    assert_eq!(device_rank(DEVICE_TYPE_VIRTUAL_GPU), 2);
    assert_eq!(device_rank(DEVICE_TYPE_INTEGRATED_GPU), 3);
    assert_eq!(device_rank(DEVICE_TYPE_DISCRETE_GPU), 4);
}

#[test]
fn devices_sort_by_rank_keeping_order_of_equals() {
    let types = vec![DEVICE_TYPE_DISCRETE_GPU, DEVICE_TYPE_CPU, DEVICE_TYPE_INTEGRATED_GPU, DEVICE_TYPE_CPU, DEVICE_TYPE_OTHER];
    assert_eq!(sort_by_type(&types), vec![4, 1, 3, 2, 0]);
    assert_eq!(sort_by_type(&vec![]), Vec::<usize>::new());
}
