use celestial_render::framebuffer::Framebuffer;
use celestial_render::raster::{
    assemble_triangles, edge_function, draw_line, rasterize_triangle, triangle, triangle_filled, Fragment,
    ScreenVertex, SUBPIXEL,
};

fn px(x: i32, y: i32, z: u32) -> ScreenVertex {
    ScreenVertex { x: x * SUBPIXEL as i32, y: y * SUBPIXEL as i32, z }
}

fn colored(fb: &Framebuffer, color: u32) -> Vec<(usize, usize)> {
    let mut out = Vec::new();
    for y in 0..fb.height() {
        for x in 0..fb.width() {
            if fb.buffer()[y * fb.width() + x] == color {
                out.push((x, y));
            }
        }
    }
    out
}

#[test]
fn unit_triangle_end_to_end() {
    let mut fb = Framebuffer::new(4, 4);
    fb.set_background_color(0x000011);
    fb.clear();
    triangle_filled(&mut fb, px(0, 0, 10), px(4, 0, 10), px(0, 4, 10), 0xff0000);
    let expected: Vec<(usize, usize)> = vec![
        (0, 0), (1, 0), (2, 0), (3, 0),
        (0, 1), (1, 1), (2, 1),
        (0, 2), (1, 2),
        (0, 3),
    ];
    assert_eq!(colored(&fb, 0xff0000), expected);
    for y in 0..4usize {
        for x in 0..4usize {
            let c = fb.buffer()[y * 4 + x];
            if x + y <= 3 {
                assert_eq!(c, 0xff0000);
                assert_eq!(fb.depth_buffer()[y * 4 + x], 10);
            } else {
                assert_eq!(c, 0x000011);
                assert_eq!(fb.depth_buffer()[y * 4 + x], u32::MAX);
            }
        }
    }
}

#[test]
fn fragments_come_in_scan_order() {
    let frags = rasterize_triangle(px(0, 0, 7), px(4, 0, 7), px(0, 4, 7), 5, 4, 4);
    let cells: Vec<(usize, usize)> = frags.iter().map(|f| (f.x, f.y)).collect();
    assert_eq!(
        cells,
        vec![(0, 0), (1, 0), (2, 0), (3, 0), (0, 1), (1, 1), (2, 1), (0, 2), (1, 2), (0, 3)]
    );
    assert!(frags.iter().all(|f| f.depth == 7 && f.color == 5));
}

#[test]
fn reversed_winding_gives_no_fragments() {
    let front = rasterize_triangle(px(0, 0, 1), px(4, 0, 1), px(0, 4, 1), 1, 4, 4);
    assert_eq!(front.len(), 10);
    let back = rasterize_triangle(px(0, 0, 1), px(0, 4, 1), px(4, 0, 1), 1, 4, 4);
    assert!(back.is_empty());
    let mut fb = Framebuffer::new(4, 4);
    triangle_filled(&mut fb, px(0, 0, 1), px(0, 4, 1), px(4, 0, 1), 0x00ff00);
    assert!(colored(&fb, 0x00ff00).is_empty());
}

#[test]
fn degenerate_triangle_is_skipped() {
    let frags = rasterize_triangle(px(0, 0, 1), px(2, 2, 1), px(4, 4, 1), 1, 8, 8);
    assert!(frags.is_empty());
}

#[test]
fn depth_is_interpolated_barycentrically() {
    let frags = rasterize_triangle(px(0, 0, 0), px(4, 0, 1000), px(0, 4, 2000), 1, 4, 4);
    assert_eq!(frags[0], Fragment { x: 0, y: 0, depth: 375, color: 1 });
}

#[test]
fn triangle_clipped_by_frame_edges() {
    let frags = rasterize_triangle(px(-4, -4, 3), px(12, -4, 3), px(-4, 12, 3), 9, 3, 2);
    let cells: Vec<(usize, usize)> = frags.iter().map(|f| (f.x, f.y)).collect();
    assert_eq!(cells, vec![(0, 0), (1, 0), (2, 0), (0, 1), (1, 1), (2, 1)]);
}

#[test]
fn edge_function_signs() {
    let a = px(0, 0, 0);
    let b = px(4, 0, 0);
    assert_eq!(edge_function(a, b, 0, 1024), -(1024i128 * 1024));
    assert_eq!(edge_function(a, b, 0, -1024), 1024i128 * 1024);
    assert_eq!(edge_function(a, b, 2048, 0), 0);
}

#[test]
fn assembly_culls_back_faces() {
    let verts = vec![
        px(0, 0, 0), px(4, 0, 0), px(0, 4, 0),
        px(0, 0, 0), px(0, 4, 0), px(4, 0, 0),
        px(1, 1, 0), px(1, 1, 0), px(1, 1, 0),
        px(0, 0, 0), px(8, 0, 0), px(0, 8, 0),
        px(5, 5, 0),
    ];
    assert_eq!(assemble_triangles(&verts), vec![0, 9]);
    assert!(assemble_triangles(&Vec::new()).is_empty());
}

#[test]
fn closer_triangle_hides_farther_one() {
    let mut fb = Framebuffer::new(4, 4);
    triangle_filled(&mut fb, px(0, 0, 5), px(4, 0, 5), px(0, 4, 5), 0x0000ff);
    triangle_filled(&mut fb, px(0, 0, 9), px(4, 0, 9), px(0, 4, 9), 0xff0000);
    assert_eq!(colored(&fb, 0x0000ff).len(), 10);
    assert!(colored(&fb, 0xff0000).is_empty());
}

#[test]
fn line_samples_rounded_points() {
    let mut fb = Framebuffer::new(4, 2);
    fb.set_current_color(0xabcdef);
    draw_line(&mut fb, px(0, 0, 0), px(3, 1, 0));
    assert_eq!(colored(&fb, 0xabcdef), vec![(0, 0), (1, 0), (2, 1), (3, 1)]);
    assert!(fb.depth_buffer().iter().all(|d| *d == u32::MAX));
}

#[test]
fn wireframe_triangle_draws_edges_only() {
    let mut fb = Framebuffer::new(5, 5);
    fb.set_current_color(0xffffff);
    triangle(&mut fb, px(0, 0, 0), px(4, 0, 0), px(0, 4, 0));
    let lit = colored(&fb, 0xffffff);
    assert!(lit.contains(&(0, 0)) && lit.contains(&(4, 0)) && lit.contains(&(0, 4)) && lit.contains(&(2, 2)));
    assert!(!lit.contains(&(1, 1)));
    assert_eq!(lit.len(), 12);
}

#[test]
fn line_outside_frame_is_clipped() {
    let mut fb = Framebuffer::new(2, 2);
    fb.set_current_color(7);
    draw_line(&mut fb, px(-3, 0, 0), px(3, 0, 0));
    assert_eq!(colored(&fb, 7), vec![(0, 0), (1, 0)]);
}
