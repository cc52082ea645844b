use vstd::prelude::*;
use crate::raster::Fragment;

verus! {

/// The depth recorded at a pixel that nothing has been drawn to yet: the
/// farthest depth there is. A fragment at this depth never passes the test.
pub const DEPTH_CLEAR: u32 = 0xffff_ffff;

/// The colour a new framebuffer is cleared to (`0xRRGGBB`).
pub const BLACK: u32 = 0x000000;

/// The drawing colour of a new framebuffer (`0xRRGGBB`).
pub const WHITE: u32 = 0xffffff;

/// Linear index of pixel `(x, y)` in a row-major buffer of the given width.
pub open spec fn pixel_index(width: nat, x: int, y: int) -> int {
    y * width + x
}

/// What a framebuffer holds: its size, the packed colour and the depth of
/// every pixel (both indexed by `pixel_index`), and the two colours it keeps.
pub struct FrameView {
    pub width: nat,
    pub height: nat,
    pub colors: Seq<u32>,
    pub depths: Seq<u32>,
    pub background: u32,
    pub current: u32,
}

impl FrameView {
    pub open spec fn wf(self) -> bool {
        &&& self.colors.len() == self.width * self.height
        &&& self.depths.len() == self.width * self.height
    }

    pub open spec fn in_bounds(self, x: int, y: int) -> bool {
        0 <= x < self.width && 0 <= y < self.height
    }

    /// The colour of pixel `(x, y)`.
    pub open spec fn color_at(self, x: int, y: int) -> u32 {
        self.colors[pixel_index(self.width, x, y)]
    }

    /// The depth recorded for pixel `(x, y)`.
    pub open spec fn depth_at(self, x: int, y: int) -> u32 {
        self.depths[pixel_index(self.width, x, y)]
    }

    /// The frame after one fragment went through the depth test: inside the
    /// frame and strictly closer than what the pixel holds, it replaces that
    /// pixel's colour and depth; otherwise nothing changes.
    pub open spec fn with_fragment(self, x: int, y: int, depth: u32, color: u32) -> FrameView {
        if self.in_bounds(x, y) && depth < self.depth_at(x, y) {
            let i = pixel_index(self.width, x, y);
            FrameView {
                colors: self.colors.update(i, color),
                depths: self.depths.update(i, depth),
                ..self
            }
        } else {
            self
        }
    }

    /// The frame after a sequence of fragments went through the depth test,
    /// one after the other, in order.
    pub open spec fn with_fragments(self, frags: Seq<Fragment>) -> FrameView
        decreases frags.len(),
    {
        if frags.len() == 0 {
            self
        } else {
            let f = frags.last();
            self.with_fragments(frags.drop_last()).with_fragment(f.x as int, f.y as int, f.depth, f.color)
        }
    }

    /// The frame after an unconditional colour write, ignored outside the frame.
    pub open spec fn with_color(self, x: int, y: int, color: u32) -> FrameView {
        if self.in_bounds(x, y) {
            FrameView { colors: self.colors.update(pixel_index(self.width, x, y), color), ..self }
        } else {
            self
        }
    }
}

/// A colour buffer and a depth buffer of `width * height` pixels each, stored
/// row by row, with a background colour for clearing and a current colour for
/// drawing.
pub struct Framebuffer {
    width: usize,
    height: usize,
    buffer: Vec<u32>,
    depth_buffer: Vec<u32>,
    background_color: u32,
    current_color: u32,
}

impl View for Framebuffer {
    type V = FrameView;

    closed spec fn view(&self) -> FrameView {
        FrameView {
            width: self.width as nat,
            height: self.height as nat,
            colors: self.buffer@,
            depths: self.depth_buffer@,
            background: self.background_color,
            current: self.current_color,
        }
    }
}

/// A vector of `n` copies of `value`.
fn filled(value: u32, n: usize) -> (v: Vec<u32>)
    ensures
        v@ == Seq::new(n as nat, |i: int| value),
{
    let mut v: Vec<u32> = Vec::with_capacity(n);
    let mut i: usize = 0;
    while i < n
        invariant
            i <= n,
            v@ == Seq::new(i as nat, |k: int| value),
        decreases n - i,
    {
        v.push(value);
        i += 1;
        assert(v@ =~= Seq::new(i as nat, |k: int| value));
    }
    v
}

impl Framebuffer {
    /// A well-formed framebuffer: both buffers hold one entry per pixel, and
    /// every pixel index fits a `usize`.
    pub closed spec fn wf(&self) -> bool {
        &&& self.width * self.height <= usize::MAX
        &&& self.buffer@.len() == self.width * self.height
        &&& self.depth_buffer@.len() == self.width * self.height
    }

    /// A well-formed framebuffer has a well-formed view.
    pub proof fn lemma_wf(&self)
        requires
            self.wf(),
        ensures
            self@.wf(),
            self@.width * self@.height <= usize::MAX,
    {
    }

    /// A black frame of the given size, with every depth cleared and white as
    /// the drawing colour.
    pub fn new(width: usize, height: usize) -> (fb: Framebuffer)
        requires
            width * height <= usize::MAX,
        ensures
            fb.wf(),
            fb@.wf(),
            fb@.width == width,
            fb@.height == height,
            fb@.colors == Seq::new((width * height) as nat, |i: int| BLACK),
            fb@.depths == Seq::new((width * height) as nat, |i: int| DEPTH_CLEAR),
            fb@.background == BLACK,
            fb@.current == WHITE,
    {
        let n: usize = width * height;
        Framebuffer {
            width,
            height,
            buffer: filled(BLACK, n),
            depth_buffer: filled(DEPTH_CLEAR, n),
            background_color: BLACK,
            current_color: WHITE,
        }
    }

    pub fn width(&self) -> (w: usize)
        ensures
            w == self@.width,
    {
        self.width
    }

    pub fn height(&self) -> (h: usize)
        ensures
            h == self@.height,
    {
        self.height
    }

    /// The packed `0xRRGGBB` colours, row by row.
    pub fn buffer(&self) -> (b: &Vec<u32>)
        ensures
            b@ == self@.colors,
    {
        &self.buffer
    }

    /// The recorded depths, row by row.
    pub fn depth_buffer(&self) -> (d: &Vec<u32>)
        ensures
            d@ == self@.depths,
    {
        &self.depth_buffer
    }

    /// Starts a new frame: every pixel takes the background colour and every
    /// depth is cleared.
    pub fn clear(&mut self)
        requires
            old(self).wf(),
        ensures
            final(self).wf(),
            final(self)@ == (FrameView {
                colors: Seq::new(old(self)@.colors.len(), |i: int| old(self)@.background),
                depths: Seq::new(old(self)@.depths.len(), |i: int| DEPTH_CLEAR),
                ..old(self)@
            }),
    {
        let n: usize = self.buffer.len();
        self.buffer = filled(self.background_color, n);
        self.depth_buffer = filled(DEPTH_CLEAR, n);
    }

    pub fn set_background_color(&mut self, color: u32)
        ensures
            final(self).wf() == old(self).wf(),
            final(self)@ == (FrameView { background: color, ..old(self)@ }),
    {
        self.background_color = color;
    }

    pub fn set_current_color(&mut self, color: u32)
        ensures
            final(self).wf() == old(self).wf(),
            final(self)@ == (FrameView { current: color, ..old(self)@ }),
    {
        self.current_color = color;
    }

    /// The linear index of an in-frame pixel.
    pub fn depth_index(&self, x: usize, y: usize) -> (i: usize)
        requires
            self.wf(),
            x < self@.width,
            y < self@.height,
        ensures
            i == pixel_index(self@.width, x as int, y as int),
            i < self@.colors.len(),
    {
        proof {
            self.lemma_wf();
            lemma_index_in_frame(self@.width, self@.height, x as int, y as int);
        }
        y * self.width + x
    }

    /// Writes `color` at `(x, y)`; a pixel outside the frame is ignored.
    pub fn set_pixel_color(&mut self, x: usize, y: usize, color: u32)
        requires
            old(self).wf(),
        ensures
            final(self).wf(),
            final(self)@ == old(self)@.with_color(x as int, y as int, color),
    {
        if x < self.width && y < self.height {
            let i = self.depth_index(x, y);
            self.buffer.set(i, color);
        }
    }

    /// Writes the current colour at `(x, y)`; a pixel outside the frame is ignored.
    pub fn set_pixel(&mut self, x: usize, y: usize)
        requires
            old(self).wf(),
        ensures
            final(self).wf(),
            final(self)@ == old(self)@.with_color(x as int, y as int, old(self)@.current),
    {
        let color = self.current_color;
        self.set_pixel_color(x, y, color);
    }

    /// The depth test: records `depth` at `(x, y)` and returns `true` exactly
    /// when the pixel is in the frame and `depth` is strictly less than the
    /// depth recorded there.
    pub fn test_and_set_depth(&mut self, x: usize, y: usize, depth: u32) -> (passed: bool)
        requires
            old(self).wf(),
        ensures
            final(self).wf(),
            passed == (old(self)@.in_bounds(x as int, y as int)
                && depth < old(self)@.depth_at(x as int, y as int)),
            final(self)@ == (if passed {
                FrameView {
                    depths: old(self)@.depths.update(
                        pixel_index(old(self)@.width, x as int, y as int),
                        depth,
                    ),
                    ..old(self)@
                }
            } else {
                old(self)@
            }),
    {
        if x >= self.width || y >= self.height {
            return false;
        }
        let i = self.depth_index(x, y);
        if depth < self.depth_buffer[i] {
            self.depth_buffer.set(i, depth);
            true
        } else {
            false
        }
    }

    /// Draws one fragment in the current colour, if it passes the depth test.
    pub fn point(&mut self, x: usize, y: usize, depth: u32)
        requires
            old(self).wf(),
        ensures
            final(self).wf(),
            final(self)@ == old(self)@.with_fragment(x as int, y as int, depth, old(self)@.current),
    {
        if self.test_and_set_depth(x, y, depth) {
            self.set_pixel(x, y);
        }
    }

    /// Puts fragments through the depth test one after the other, in order,
    /// writing the colour of each that passes.
    pub fn apply_fragments(&mut self, frags: &Vec<Fragment>)
        requires
            old(self).wf(),
        ensures
            final(self).wf(),
            final(self)@ == old(self)@.with_fragments(frags@),
    {
        let mut i: usize = 0;
        while i < frags.len()
            invariant
                self.wf(),
                i <= frags@.len(),
                self@ == old(self)@.with_fragments(frags@.take(i as int)),
            decreases frags@.len() - i,
        {
            let f = frags[i];
            if self.test_and_set_depth(f.x, f.y, f.depth) {
                self.set_pixel_color(f.x, f.y, f.color);
            }
            assert(frags@.take(i + 1).drop_last() =~= frags@.take(i as int));
            i += 1;
        }
        assert(frags@.take(i as int) =~= frags@);
    }
}

/// Closest wins, in either order: two fragments at one in-frame pixel, `near`
/// strictly closer than `far`, leave the same frame whichever is drawn first.
/// Where `near` beats what the pixel held, the pixel ends with its colour and
/// depth; otherwise the frame is unchanged.
pub proof fn lemma_closest_fragment_wins(v: FrameView, near: Fragment, far: Fragment)
    requires
        v.wf(),
        v.in_bounds(near.x as int, near.y as int),
        near.x == far.x,
        near.y == far.y,
        near.depth < far.depth,
    ensures
        v.with_fragments(seq![far, near]) == v.with_fragments(seq![near, far]),
        near.depth < v.depth_at(near.x as int, near.y as int) ==> {
            let w = v.with_fragments(seq![far, near]);
            w.color_at(near.x as int, near.y as int) == near.color && w.depth_at(near.x as int, near.y as int)
                == near.depth
        },
        near.depth >= v.depth_at(near.x as int, near.y as int) ==> v.with_fragments(seq![far, near]) == v,
{
    let (x, y) = (near.x as int, near.y as int);
    lemma_index_in_frame(v.width, v.height, x, y);
    assert(seq![far, near].drop_last() =~= seq![far]);
    assert(seq![near, far].drop_last() =~= seq![near]);
    assert(seq![far].drop_last() =~= Seq::<Fragment>::empty());
    assert(seq![near].drop_last() =~= Seq::<Fragment>::empty());
    let a = v.with_fragment(x, y, far.depth, far.color).with_fragment(x, y, near.depth, near.color);
    let b = v.with_fragment(x, y, near.depth, near.color).with_fragment(x, y, far.depth, far.color);
    assert(seq![far, near].last() == near);
    assert(seq![near, far].last() == far);
    assert(seq![far].last() == far);
    assert(seq![near].last() == near);
    assert(v.with_fragments(Seq::<Fragment>::empty()) == v);
    assert(v.with_fragments(seq![far]) == v.with_fragment(x, y, far.depth, far.color));
    assert(v.with_fragments(seq![near]) == v.with_fragment(x, y, near.depth, near.color));
    assert(v.with_fragments(seq![far, near]) == a);
    assert(v.with_fragments(seq![near, far]) == b);
    if near.depth < v.depth_at(x, y) {
        if far.depth < v.depth_at(x, y) {
            assert(a.colors =~= b.colors);
            assert(a.depths =~= b.depths);
        }
    }
}

/// What a sequence of fragments at distinct pixels leaves: each fragment's
/// pixel holds that fragment if it passed the depth test against the frame
/// as it was, and every other pixel is as it was.
pub proof fn lemma_distinct_fragments(v: FrameView, frags: Seq<Fragment>)
    requires
        v.wf(),
        forall|k: int| 0 <= k < frags.len() ==> v.in_bounds((#[trigger] frags[k]).x as int, frags[k].y as int),
        forall|k: int, l: int|
            0 <= k < l < frags.len() ==> (#[trigger] frags[k]).x != (#[trigger] frags[l]).x || frags[k].y != frags[l].y,
    ensures
        ({
            let w = v.with_fragments(frags);
            &&& w.wf()
            &&& w.width == v.width && w.height == v.height
            &&& w.background == v.background && w.current == v.current
            &&& forall|k: int|
                0 <= k < frags.len() ==> {
                    let f = #[trigger] frags[k];
                    if f.depth < v.depth_at(f.x as int, f.y as int) {
                        w.color_at(f.x as int, f.y as int) == f.color && w.depth_at(f.x as int, f.y as int)
                            == f.depth
                    } else {
                        w.color_at(f.x as int, f.y as int) == v.color_at(f.x as int, f.y as int)
                            && w.depth_at(f.x as int, f.y as int) == v.depth_at(f.x as int, f.y as int)
                    }
                }
            &&& forall|px: int, py: int|
                v.in_bounds(px, py) && (forall|k: int|
                    0 <= k < frags.len() ==> (#[trigger] frags[k]).x != px || frags[k].y != py) ==> w.color_at(px, py)
                    == v.color_at(px, py) && w.depth_at(px, py) == v.depth_at(px, py)
        }),
    decreases frags.len(),
{
    if frags.len() > 0 {
        let n = frags.len() - 1;
        let init = frags.drop_last();
        let f = frags.last();
        lemma_distinct_fragments(v, init);
        let u = v.with_fragments(init);
        assert(forall|k: int| 0 <= k < n ==> init[k] == frags[k]);
        assert(forall|k: int| 0 <= k < n ==> (#[trigger] frags[k]).x != f.x || frags[k].y != f.y);
        lemma_index_in_frame(v.width, v.height, f.x as int, f.y as int);
        let w = v.with_fragments(frags);
        assert(u.color_at(f.x as int, f.y as int) == v.color_at(f.x as int, f.y as int));
        assert(u.depth_at(f.x as int, f.y as int) == v.depth_at(f.x as int, f.y as int));
        assert forall|px: int, py: int| v.in_bounds(px, py) && (px != f.x || py != f.y) implies w.color_at(px, py)
            == u.color_at(px, py) && w.depth_at(px, py) == u.depth_at(px, py) by {
            lemma_index_in_frame(v.width, v.height, px, py);
            lemma_distinct_pixels(v.width, v.height, px, py, f.x as int, f.y as int);
        }
        assert forall|k: int| 0 <= k < n implies v.in_bounds((#[trigger] frags[k]).x as int, frags[k].y as int) by {}
        assert forall|k: int| 0 <= k < frags.len() implies {
            let g = #[trigger] frags[k];
            if g.depth < v.depth_at(g.x as int, g.y as int) {
                w.color_at(g.x as int, g.y as int) == g.color && w.depth_at(g.x as int, g.y as int) == g.depth
            } else {
                w.color_at(g.x as int, g.y as int) == v.color_at(g.x as int, g.y as int)
                    && w.depth_at(g.x as int, g.y as int) == v.depth_at(g.x as int, g.y as int)
            }
        } by {
            if k < n {
                assert(init[k] == frags[k]);
            }
        }
        assert forall|px: int, py: int|
            v.in_bounds(px, py) && (forall|k: int|
                0 <= k < frags.len() ==> (#[trigger] frags[k]).x != px || frags[k].y != py) implies w.color_at(px, py)
            == v.color_at(px, py) && w.depth_at(px, py) == v.depth_at(px, py) by {
            assert(frags[n] == f);
            assert forall|k: int| 0 <= k < init.len() implies (#[trigger] init[k]).x != px || init[k].y != py by {
                assert(init[k] == frags[k]);
            }
        }
    }
}

/// Two different in-frame pixels have different indices.
pub proof fn lemma_distinct_pixels(width: nat, height: nat, x1: int, y1: int, x2: int, y2: int)
    requires
        0 <= x1 < width,
        0 <= y1 < height,
        0 <= x2 < width,
        0 <= y2 < height,
        x1 != x2 || y1 != y2,
    ensures
        pixel_index(width, x1, y1) != pixel_index(width, x2, y2),
{
    if y1 == y2 {
    } else if y1 < y2 {
        assert(y1 * width + width <= y2 * width) by (nonlinear_arith)
            requires
                y1 < y2,
        ;
    } else {
        assert(y2 * width + width <= y1 * width) by (nonlinear_arith)
            requires
                y2 < y1,
        ;
    }
}

/// Every in-frame pixel has an index inside the buffers.
pub proof fn lemma_index_in_frame(width: nat, height: nat, x: int, y: int)
    requires
        0 <= x < width,
        0 <= y < height,
    ensures
        0 <= pixel_index(width, x, y) < width * height,
{
    assert(y * width + x < width * height) by (nonlinear_arith)
        requires
            0 <= x < width,
            0 <= y < height,
    ;
    assert(0 <= y * width) by (nonlinear_arith)
        requires
            0 <= y,
    ;
}

} // verus!
