use magic_eye::depth_buffer::{clamp_edge, rasterize_depth_buffer, DepthBuffer, SpriteRect};

fn rect(x0: i32, x1: i32, y0: i32, y1: i32) -> SpriteRect {
    SpriteRect { x0, x1, y0, y1 }
}

#[test]
fn clamp_edge_values() {
    assert_eq!(clamp_edge(-5, 10), 0);
    assert_eq!(clamp_edge(0, 10), 0);
    assert_eq!(clamp_edge(7, 10), 7);
    assert_eq!(clamp_edge(10, 10), 10);
    assert_eq!(clamp_edge(25, 10), 10);
    assert_eq!(clamp_edge(i32::MIN, 0), 0);
}

#[test]
fn new_buffer_is_background() {
    let buf = DepthBuffer::new(4, 3);
    assert_eq!(buf.width, 4);
    assert_eq!(buf.height, 3);
    assert_eq!(buf.data, vec![None; 12]);
}

#[test]
fn later_sprites_paint_over_earlier_ones() {
    let mut buf = DepthBuffer::new(4, 3);
    rasterize_depth_buffer(&mut buf, &[rect(0, 4, 0, 3), rect(1, 3, 1, 2)]);
    let expected = vec![
        Some(0), Some(0), Some(0), Some(0),
        Some(0), Some(1), Some(1), Some(0),
        Some(0), Some(0), Some(0), Some(0),
    ];
    assert_eq!(buf.data, expected);
}

#[test]
fn footprints_are_clipped_to_the_buffer() {
    let mut buf = DepthBuffer::new(3, 2);
    rasterize_depth_buffer(&mut buf, &[rect(-10, 1, -4, 100)]);
    assert_eq!(buf.data, vec![Some(0), None, None, Some(0), None, None]);
}

#[test]
fn empty_and_inverted_footprints_paint_nothing() {
    let mut buf = DepthBuffer::new(3, 2);
    rasterize_depth_buffer(&mut buf, &[rect(2, 1, 0, 2), rect(0, 3, 1, 1), rect(5, 9, 0, 2)]);
    assert_eq!(buf.data, vec![None; 6]);
}

#[test]
fn rasterizing_clears_the_previous_frame() {
    let mut buf = DepthBuffer::new(2, 2);
    rasterize_depth_buffer(&mut buf, &[rect(0, 2, 0, 2)]);
    rasterize_depth_buffer(&mut buf, &[rect(0, 1, 0, 1)]);
    assert_eq!(buf.data, vec![Some(0), None, None, None]);
}
