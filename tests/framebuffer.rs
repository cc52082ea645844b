use celestial_render::framebuffer::{Framebuffer, DEPTH_CLEAR};
use celestial_render::raster::Fragment;

#[test]
fn new_frame_is_black_and_empty() {
    let fb = Framebuffer::new(3, 2);
    assert_eq!(fb.width(), 3);
    assert_eq!(fb.height(), 2);
    assert_eq!(fb.buffer(), &vec![0u32; 6]);
    assert_eq!(fb.depth_buffer(), &vec![DEPTH_CLEAR; 6]);
}

#[test]
fn clear_uses_background_color() {
    let mut fb = Framebuffer::new(2, 2);
    fb.set_background_color(0x000011);
    fb.point(1, 1, 5);
    fb.clear();
    assert_eq!(fb.buffer(), &vec![0x000011u32; 4]);
    assert_eq!(fb.depth_buffer(), &vec![DEPTH_CLEAR; 4]);
}

#[test]
fn set_pixel_writes_current_color_in_bounds_only() {
    let mut fb = Framebuffer::new(2, 2);
    fb.set_current_color(0x123456);
    fb.set_pixel(1, 0);
    fb.set_pixel(2, 0);
    fb.set_pixel(0, 5);
    assert_eq!(fb.buffer(), &vec![0, 0x123456, 0, 0]);
    fb.set_pixel_color(0, 1, 0xff);
    assert_eq!(fb.buffer(), &vec![0, 0x123456, 0xff, 0]);
}

#[test]
fn depth_index_is_row_major() {
    let fb = Framebuffer::new(5, 3);
    assert_eq!(fb.depth_index(0, 0), 0);
    assert_eq!(fb.depth_index(4, 0), 4);
    assert_eq!(fb.depth_index(2, 2), 12);
}

#[test]
fn test_and_set_depth_keeps_strictly_closer() {
    let mut fb = Framebuffer::new(2, 2);
    assert!(fb.test_and_set_depth(1, 1, 10));
    assert!(!fb.test_and_set_depth(1, 1, 10));
    assert!(!fb.test_and_set_depth(1, 1, 11));
    assert!(fb.test_and_set_depth(1, 1, 9));
    assert!(!fb.test_and_set_depth(2, 1, 0));
    assert!(!fb.test_and_set_depth(0, 0, DEPTH_CLEAR));
    assert_eq!(fb.depth_buffer()[3], 9);
}

#[test]
fn closest_wins_in_either_order() {
    let near = Fragment { x: 1, y: 0, depth: 3, color: 0xaa };
    let far = Fragment { x: 1, y: 0, depth: 8, color: 0xbb };
    let mut a = Framebuffer::new(2, 1);
    a.apply_fragments(&vec![far, near]);
    let mut b = Framebuffer::new(2, 1);
    b.apply_fragments(&vec![near, far]);
    assert_eq!(a.buffer()[1], 0xaa);
    assert_eq!(b.buffer()[1], 0xaa);
    assert_eq!(a.depth_buffer(), b.depth_buffer());
    assert_eq!(a.buffer(), b.buffer());
}

#[test]
fn point_uses_current_color_and_depth_test() {
    let mut fb = Framebuffer::new(2, 1);
    fb.set_current_color(0x11);
    fb.point(0, 0, 4);
    fb.set_current_color(0x22);
    fb.point(0, 0, 6);
    assert_eq!(fb.buffer()[0], 0x11);
    fb.point(0, 0, 2);
    assert_eq!(fb.buffer()[0], 0x22);
    fb.point(7, 0, 0);
    assert_eq!(fb.buffer()[1], 0);
}

#[test]
fn out_of_frame_fragments_are_dropped() {
    let mut fb = Framebuffer::new(2, 2);
    fb.apply_fragments(&vec![Fragment { x: 2, y: 0, depth: 0, color: 1 }, Fragment { x: 0, y: 9, depth: 0, color: 1 }]);
    assert_eq!(fb.buffer(), &vec![0u32; 4]);
}
