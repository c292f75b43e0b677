use thermal::descriptor_writes::{plan_descriptor_writes, BindingKind, WritePlan};
use thermal::swapchain::{semaphores_to_add, swapchain_extent, SwapchainResultExt, ERROR_OUT_OF_DATE};
use thermal::vertex_batch::VertexBatch;

#[test]
fn draw_flush_within_capacity() {
    let mut batch = VertexBatch::new(4);
    batch.push(&[1, 2, 3]);
    let flush = batch.draw_flush();
    assert!(flush.retired.is_none());
    assert_eq!((flush.first, flush.count), (0, 3));
    batch.push(&[4]);
    let flush = batch.draw_flush();
    assert_eq!((flush.first, flush.count), (3, 1));
    assert_eq!(batch.capacity(), 4);
}

#[test]
fn draw_flush_grows_and_retires_drawn_vertices() {
    let mut batch = VertexBatch::new(4);
    batch.push(&[1, 2, 3]);
    batch.draw_flush();
    batch.push(&[4, 5, 6]);
    let flush = batch.draw_flush();
    let (drawn, capacity) = flush.retired.unwrap();
    assert_eq!(drawn, vec![1, 2, 3]);
    assert_eq!(capacity, 8);
    assert_eq!((flush.first, flush.count), (0, 3));
    assert_eq!(batch.capacity(), 8);
    assert_eq!(batch.vertices(), &[4, 5, 6]);
}

#[test]
fn flush_and_clear_empty_the_batch() {
    let mut batch = VertexBatch::new(2);
    batch.push(&[7, 8]);
    batch.draw_flush();
    assert_eq!(batch.flush(), vec![7, 8]);
    assert!(batch.vertices().is_empty());
    batch.push(&[9]);
    batch.clear();
    assert!(batch.vertices().is_empty());
    let flush = batch.draw_flush();
    assert_eq!((flush.first, flush.count), (0, 0));
}

#[test]
fn extent_is_clamped_to_surface() {
    assert_eq!(swapchain_extent(800, 600, 1, 4096, 1, 4096), (800, 600));
    assert_eq!(swapchain_extent(0, 9000, 1, 4096, 1, 4096), (1, 4096));
    assert_eq!(swapchain_extent(5000, 10, 640, 640, 480, 480), (640, 480));
}

#[test]
fn semaphores_follow_images() {
    assert_eq!(semaphores_to_add(0, 3), 3);
    assert_eq!(semaphores_to_add(2, 3), 1);
    assert_eq!(semaphores_to_add(4, 3), 0);
}

#[test]
fn out_of_date_is_none() {
    assert_eq!(Ok::<u32, i32>(5).unwrap_out_of_date(), Some(5));
    assert_eq!(Err::<u32, i32>(ERROR_OUT_OF_DATE).unwrap_out_of_date(), None);
}

#[test]
fn descriptor_writes_point_at_last_infos() {
    const I: BindingKind = BindingKind::CombinedImageSampler;
    const B: BindingKind = BindingKind::StorageBuffer;
    let plan = plan_descriptor_writes(3, &vec![vec![B, I], vec![I], vec![], vec![B]]);
    assert_eq!(
        plan,
        vec![
            WritePlan { set: 0, binding: 0, kind: B, image_info: None, buffer_info: Some(0) },
            WritePlan { set: 0, binding: 1, kind: I, image_info: Some(0), buffer_info: Some(0) },
            WritePlan { set: 1, binding: 0, kind: I, image_info: Some(1), buffer_info: Some(0) },
        ]
    );
    assert!(plan_descriptor_writes(0, &vec![vec![I]]).is_empty());
}
