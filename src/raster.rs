//! Scanline filling of paths onto a target.
use crate::color::{blend, blend_spec, lemma_round_div_bound, round_div, with_alpha, Color};
use vstd::relations::sorted_by;
use vstd::seq_lib::lemma_sorted_unique;
use crate::geometry::{
    cross_x, crossings, in_i32, ints, lemma_bounds_hold, lemma_floor_of_negated,
    lemma_no_crossings_outside, sorted_crossings, Line, Lines, Point, SUBPIXELS,
};
use crate::path::{
    add_command, close_path_model, empty_path, flatten, move_path, Path, PathModel, Subpath,
};
use crate::surface::Target;
use vstd::arithmetic::div_mod::{lemma_fundamental_div_mod, lemma_mod_bound};
use vstd::prelude::*;

verus! {

/// The pixel column or row holding sub-pixel coordinate `v`.
pub open spec fn pixel_of(v: int) -> int {
    v / (SUBPIXELS as int)
}

/// How far into its pixel sub-pixel coordinate `v` lies, in sub-pixel units.
pub open spec fn offset_in_pixel(v: int) -> int {
    v % (SUBPIXELS as int)
}

/// The sample line of pixel row `r`: through the middle of the row.
pub open spec fn row_sample(r: int) -> int {
    r * SUBPIXELS + SUBPIXELS / 2
}

/// `a` scaled by the covered part of a pixel, `cover` sub-pixel units of it.
pub open spec fn covered_alpha(a: int, cover: int) -> int {
    round_div(a * cover, SUBPIXELS as int)
}

/// The color column `c` gets from the span `[x0, x1]`: the pixel holding the
/// left end is covered from `x0` on, the one holding the right end up to `x1`
/// (the left end wins where both ends share a pixel), others fully.
pub open spec fn span_color(fill: Color, x0: int, x1: int, c: int) -> Color {
    if c == pixel_of(x0) {
        with_alpha(fill, covered_alpha(fill[3] as int, SUBPIXELS - offset_in_pixel(x0)) as u8)
    } else if c == pixel_of(x1) {
        with_alpha(fill, covered_alpha(fill[3] as int, offset_in_pixel(x1)) as u8)
    } else {
        fill
    }
}

/// The first column of the span from `x0`, kept on the surface.
pub open spec fn span_first(x0: int) -> int {
    if pixel_of(x0) < 0 {
        0
    } else {
        pixel_of(x0)
    }
}

/// One past the last column of the span to `x1`, kept on a surface `w` wide.
pub open spec fn span_end(x1: int, w: int) -> int {
    if pixel_of(x1) < w - 1 {
        pixel_of(x1) + 1
    } else {
        w
    }
}

/// `m` after blending the span `[x0, x1]` into columns `lo..hi` of row `y`, left to right.
pub open spec fn paint_columns(
    m: Map<(int, int), Color>,
    y: int,
    fill: Color,
    x0: int,
    x1: int,
    lo: int,
    hi: int,
) -> Map<(int, int), Color>
    decreases hi - lo,
{
    if hi <= lo {
        m
    } else {
        let prev = paint_columns(m, y, fill, x0, x1, lo, hi - 1);
        prev.insert((hi - 1, y), blend_spec(prev[(hi - 1, y)], span_color(fill, x0, x1, hi - 1)))
    }
}

/// `m` after painting the first `k` spans of row `y`: span `i` runs from crossing
/// `2 * i` to crossing `2 * i + 1`.
pub open spec fn paint_spans(
    m: Map<(int, int), Color>,
    y: int,
    xs: Seq<int>,
    fill: Color,
    w: int,
    k: int,
) -> Map<(int, int), Color>
    decreases k,
{
    if k <= 0 {
        m
    } else {
        let x0 = xs[2 * (k - 1)];
        let x1 = xs[2 * (k - 1) + 1];
        paint_columns(
            paint_spans(m, y, xs, fill, w, k - 1),
            y,
            fill,
            x0,
            x1,
            span_first(x0),
            span_end(x1, w),
        )
    }
}

/// `m` after painting row `r`: the crossings at the row's sample line, in
/// ascending order, taken in pairs; an unpaired last crossing is dropped.
pub open spec fn paint_row(
    m: Map<(int, int), Color>,
    lines: Seq<Line>,
    fill: Color,
    w: int,
    r: int,
) -> Map<(int, int), Color> {
    let xs = sorted_crossings(lines, row_sample(r));
    paint_spans(m, r, xs, fill, w, xs.len() as int / 2)
}

/// `m` after painting rows `0..n`.
pub open spec fn paint_rows(
    m: Map<(int, int), Color>,
    lines: Seq<Line>,
    fill: Color,
    w: int,
    n: int,
) -> Map<(int, int), Color>
    decreases n,
{
    if n <= 0 {
        m
    } else {
        paint_row(paint_rows(m, lines, fill, w, n - 1), lines, fill, w, n - 1)
    }
}

/// The pixels `m` of a `w` by `h` surface after filling the edges `lines` with `fill`.
pub open spec fn paint(
    m: Map<(int, int), Color>,
    lines: Seq<Line>,
    fill: Color,
    w: int,
    h: int,
) -> Map<(int, int), Color> {
    paint_rows(m, lines, fill, w, h)
}

/// A row whose sample line meets no edge is left as it was.
proof fn lemma_rows_unchanged(
    m: Map<(int, int), Color>,
    lines: Seq<Line>,
    fill: Color,
    w: int,
    a: int,
    b: int,
)
    requires
        0 <= a <= b,
        forall|r: int| a <= r < b ==> #[trigger] crossings(lines, row_sample(r)).len() == 0,
    ensures
        paint_rows(m, lines, fill, w, b) == paint_rows(m, lines, fill, w, a),
    decreases b - a,
{
    if a < b {
        lemma_rows_unchanged(m, lines, fill, w, a, b - 1);
        let c = crossings(lines, row_sample(b - 1));
        assert(c.len() == 0);
        c.lemma_sort_ensures();
        vstd::seq_lib::to_multiset_len(c.sort());
        vstd::seq_lib::to_multiset_len(c);
    }
}

/// `v / SUBPIXELS` rounded down.
fn floor_pixel(v: i64) -> (r: i64)
    requires
        i32::MIN <= v <= i32::MAX,
    ensures
        r == pixel_of(v as int),
{
    if v >= 0 {
        ((v as u64) / (SUBPIXELS as u64)) as i64
    } else {
        let a: u64 = (-v) as u64;
        let q: u64 = a / (SUBPIXELS as u64);
        proof {
            lemma_floor_of_negated(a as int, SUBPIXELS as int);
        }
        if a % (SUBPIXELS as u64) == 0 {
            -(q as i64)
        } else {
            -(q as i64) - 1
        }
    }
}

/// `fill` with its alpha scaled by `cover` sub-pixel units of a pixel's width.
fn cover_color(fill: Color, cover: i64) -> (r: Color)
    requires
        0 <= cover <= SUBPIXELS,
    ensures
        r == with_alpha(fill, covered_alpha(fill[3] as int, cover as int) as u8),
{
    let a: i64 = fill[3] as i64;
    proof {
        assert(0 <= a * cover <= 255 * SUBPIXELS) by (nonlinear_arith)
            requires
                0 <= a <= 255,
                0 <= cover <= SUBPIXELS,
        ;
        assert(a * cover <= a * SUBPIXELS) by (nonlinear_arith)
            requires
                0 <= a,
                cover <= SUBPIXELS,
        ;
        lemma_round_div_bound(a * cover, SUBPIXELS as int, a as int);
    }
    let scaled: i64 = (2 * (a * cover) + SUBPIXELS) / (2 * SUBPIXELS);
    [fill[0], fill[1], fill[2], scaled as u8]
}

/// A generic 2D software rasterizer.
pub struct Cloth<T: Target> {
    path: Path,
    target: T,
    fill: Color,
}

impl<T: Target> Cloth<T> {
    /// The active path.
    pub closed spec fn path_model(&self) -> PathModel {
        self.path@
    }

    /// The active fill color.
    pub closed spec fn fill_color(&self) -> Color {
        self.fill
    }

    /// The target drawn on.
    pub closed spec fn surface(&self) -> T {
        self.target
    }

    /// Initializes a new rasterizer that will use the given target as its output.
    pub fn new(target: T) -> (r: Cloth<T>)
        ensures
            r.surface() == target,
            r.fill_color() == [0u8, 0, 0, 255],
            r.path_model() == empty_path(),
    {
        let path = Path::new();
        let fill = [0, 0, 0, 255];
        Cloth { target, path, fill }
    }

    /// Decomposes the `Cloth` into its inner `Target`.
    pub fn into_target(self) -> (r: T)
        ensures
            r == self.surface(),
    {
        self.target
    }

    /// Sets the active fill color.
    pub fn set_fill(&mut self, fill: Color)
        ensures
            final(self).fill_color() == fill,
            final(self).path_model() == old(self).path_model(),
            final(self).surface() == old(self).surface(),
    {
        self.fill = fill;
    }

    /// Starts a new active path.
    pub fn begin_path(&mut self)
        ensures
            final(self).path_model() == empty_path(),
            final(self).fill_color() == old(self).fill_color(),
            final(self).surface() == old(self).surface(),
    {
        self.path = Path::new();
    }

    /// Closes the active path.
    pub fn close_path(&mut self)
        ensures
            final(self).path_model() == close_path_model(old(self).path_model()),
            final(self).fill_color() == old(self).fill_color(),
            final(self).surface() == old(self).surface(),
    {
        self.path.close();
    }

    /// Begins a new sub-path on the active path at the specified point, given in
    /// sub-pixel units.
    pub fn move_to(&mut self, x: i32, y: i32)
        ensures
            final(self).path_model() == move_path(old(self).path_model(), Point { x, y }),
            final(self).fill_color() == old(self).fill_color(),
            final(self).surface() == old(self).surface(),
    {
        let point = Point::new(x, y);
        self.path.start = point;
        self.path.add(Subpath::Move(point));
    }

    /// Adds a straight line to the current sub-path by connecting the sub-path's
    /// last point to the specified point, given in sub-pixel units.
    pub fn line_to(&mut self, x: i32, y: i32)
        ensures
            final(self).path_model() == add_command(
                old(self).path_model(),
                Subpath::Line(Point { x, y }),
            ),
            final(self).fill_color() == old(self).fill_color(),
            final(self).surface() == old(self).surface(),
    {
        self.path.add(Subpath::Line(Point::new(x, y)));
    }

    /// Fills the active path with the active fill color, closing it first.
    pub fn fill(&mut self)
        requires
            old(self).surface().well_formed(),
        ensures
            final(self).path_model() == close_path_model(old(self).path_model()),
            final(self).fill_color() == old(self).fill_color(),
            final(self).surface().well_formed(),
            final(self).surface().spec_width() == old(self).surface().spec_width(),
            final(self).surface().spec_height() == old(self).surface().spec_height(),
            final(self).surface().pixels() == paint(
                old(self).surface().pixels(),
                flatten(close_path_model(old(self).path_model())),
                old(self).fill_color(),
                old(self).surface().spec_width() as int,
                old(self).surface().spec_height() as int,
            ),
    {
        self.close_path();
        let lines = self.path.to_lines();
        let bounds = lines.bounds();
        let w = self.target.width();
        let h = self.target.height();
        let ghost m0 = self.target.pixels();
        proof {
            lemma_bounds_hold(lines@);
        }
        let top_pixel = floor_pixel(bounds.tl.y as i64);
        let bottom_pixel = floor_pixel(bounds.br.y as i64);
        let first: i64 = if top_pixel < 0 {
            0
        } else if top_pixel > h as i64 {
            h as i64
        } else {
            top_pixel
        };
        let end: i64 = if bottom_pixel + 1 < first {
            first
        } else if bottom_pixel + 1 > h as i64 {
            h as i64
        } else {
            bottom_pixel + 1
        };
        proof {
            assert forall|r: int| 0 <= r < first implies #[trigger] crossings(
                lines@,
                row_sample(r),
            ).len() == 0 by {
                lemma_fundamental_div_mod(bounds.tl.y as int, SUBPIXELS as int);
                lemma_mod_bound(bounds.tl.y as int, SUBPIXELS as int);
                lemma_no_crossings_outside(lines@, row_sample(r));
            }
            lemma_rows_unchanged(m0, lines@, self.fill, w as int, 0, first as int);
        }
        let mut r: i64 = first;
        while r < end
            invariant
                0 <= first <= r <= end <= h,
                w == self.target.spec_width(),
                h == self.target.spec_height(),
                self.target.well_formed(),
                self.path@ == close_path_model(old(self).path@),
                self.fill == old(self).fill,
                lines@ == flatten(self.path@),
                self.target.pixels() == paint_rows(m0, lines@, self.fill, w as int, r as int),
            decreases end - r,
        {
            self.fill_row(&lines, r, w);
            r = r + 1;
        }
        proof {
            assert forall|r: int| end <= r < h implies #[trigger] crossings(
                lines@,
                row_sample(r),
            ).len() == 0 by {
                lemma_fundamental_div_mod(bounds.br.y as int, SUBPIXELS as int);
                lemma_mod_bound(bounds.br.y as int, SUBPIXELS as int);
                lemma_no_crossings_outside(lines@, row_sample(r));
            }
            lemma_rows_unchanged(m0, lines@, self.fill, w as int, end as int, h as int);
        }
    }

    /// Paints row `r`, whose pixels lie on the target.
    fn fill_row(&mut self, lines: &Lines, r: i64, w: u32)
        requires
            old(self).target.well_formed(),
            0 <= r < old(self).target.spec_height(),
            r <= u32::MAX,
            w == old(self).target.spec_width(),
        ensures
            final(self).target.well_formed(),
            final(self).target.spec_width() == old(self).target.spec_width(),
            final(self).target.spec_height() == old(self).target.spec_height(),
            final(self).path == old(self).path,
            final(self).fill == old(self).fill,
            final(self).target.pixels() == paint_row(
                old(self).target.pixels(),
                lines@,
                old(self).fill,
                w as int,
                r as int,
            ),
    {
        let xs = lines.x_intersections(r * SUBPIXELS + SUBPIXELS / 2);
        let ghost m = self.target.pixels();
        let ghost xi = ints(xs@);
        let len: usize = xs.len();
        let n: usize = len / 2;
        let mut k: usize = 0;
        while k < n
            invariant
                k <= n,
                n == xi.len() / 2,
                n == len / 2,
                len == xs@.len(),
                xi == ints(xs@),
                in_i32(xs@),
                0 <= r < self.target.spec_height(),
                r <= u32::MAX,
                w == self.target.spec_width(),
                self.target.well_formed(),
                self.target.spec_height() == old(self).target.spec_height(),
                self.path == old(self).path,
                self.fill == old(self).fill,
                self.target.pixels() == paint_spans(m, r as int, xi, self.fill, w as int, k as int),
            decreases n - k,
        {
            let x0 = xs[2 * k];
            let x1 = xs[2 * k + 1];
            self.fill_span(r, x0, x1, w);
            k = k + 1;
        }
    }

    /// Blends the span `[x0, x1]` into row `y`, as far as it lies on the target.
    fn fill_span(&mut self, y: i64, x0: i64, x1: i64, w: u32)
        requires
            old(self).target.well_formed(),
            0 <= y < old(self).target.spec_height(),
            y <= u32::MAX,
            w == old(self).target.spec_width(),
            i32::MIN <= x0 <= i32::MAX,
            i32::MIN <= x1 <= i32::MAX,
        ensures
            final(self).target.well_formed(),
            final(self).target.spec_width() == old(self).target.spec_width(),
            final(self).target.spec_height() == old(self).target.spec_height(),
            final(self).path == old(self).path,
            final(self).fill == old(self).fill,
            final(self).target.pixels() == paint_columns(
                old(self).target.pixels(),
                y as int,
                old(self).fill,
                x0 as int,
                x1 as int,
                span_first(x0 as int),
                span_end(x1 as int, w as int),
            ),
    {
        let col0 = floor_pixel(x0);
        let col1 = floor_pixel(x1);
        proof {
            lemma_fundamental_div_mod(x0 as int, SUBPIXELS as int);
            lemma_mod_bound(x0 as int, SUBPIXELS as int);
            lemma_fundamental_div_mod(x1 as int, SUBPIXELS as int);
            lemma_mod_bound(x1 as int, SUBPIXELS as int);
        }
        let start_fill = cover_color(self.fill, SUBPIXELS - (x0 - col0 * SUBPIXELS));
        let end_fill = cover_color(self.fill, x1 - col1 * SUBPIXELS);
        let first: i64 = if col0 < 0 {
            0
        } else {
            col0
        };
        let end: i64 = if col1 < w as i64 - 1 {
            col1 + 1
        } else {
            w as i64
        };
        let ghost m = self.target.pixels();
        let mut c: i64 = first;
        while c < end
            invariant
                0 <= first <= c,
                c <= end || c == first,
                col0 == pixel_of(x0 as int),
                col1 == pixel_of(x1 as int),
                start_fill == span_color(self.fill, x0 as int, x1 as int, col0 as int),
                col1 != col0 ==> end_fill == span_color(self.fill, x0 as int, x1 as int, col1 as int),
                end <= w,
                0 <= y < self.target.spec_height(),
                y <= u32::MAX,
                w == self.target.spec_width(),
                self.target.well_formed(),
                self.target.spec_height() == old(self).target.spec_height(),
                self.path == old(self).path,
                self.fill == old(self).fill,
                self.target.pixels() == paint_columns(
                    m,
                    y as int,
                    self.fill,
                    x0 as int,
                    x1 as int,
                    first as int,
                    c as int,
                ),
            decreases end - c,
        {
            let color = if c == col0 {
                start_fill
            } else if c == col1 {
                end_fill
            } else {
                self.fill
            };
            assert(color == span_color(self.fill, x0 as int, x1 as int, c as int));
            let ghost prev = self.target.pixels();
            self.fill_pixel(c as u32, y as u32, color);
            assert(paint_columns(m, y as int, self.fill, x0 as int, x1 as int, first as int, c + 1)
                == prev.insert((c as int, y as int), blend_spec(prev[(c as int, y as int)], color)));
            c = c + 1;
        }
    }

    /// Blends `rgba` over the pixel at `(x, y)`.
    fn fill_pixel(&mut self, x: u32, y: u32, rgba: Color)
        requires
            old(self).target.well_formed(),
            x < old(self).target.spec_width(),
            y < old(self).target.spec_height(),
        ensures
            final(self).target.well_formed(),
            final(self).target.spec_width() == old(self).target.spec_width(),
            final(self).target.spec_height() == old(self).target.spec_height(),
            final(self).path == old(self).path,
            final(self).fill == old(self).fill,
            final(self).target.pixels() == old(self).target.pixels().insert(
                (x as int, y as int),
                blend_spec(old(self).target.pixels()[(x as int, y as int)], rgba),
            ),
    {
        let old_color = self.target.get_pixel(x, y);
        self.target.set_pixel(x, y, blend(old_color, rgba));
    }
}

/// Whether `a` and `b` hold the same pixel at `k`.
pub open spec fn same_at(a: Map<(int, int), Color>, b: Map<(int, int), Color>, k: (int, int)) -> bool {
    &&& a.contains_key(k) == b.contains_key(k)
    &&& b.contains_key(k) ==> a[k] == b[k]
}

/// Painting columns `lo..hi` of row `y` blends each of them once, over the pixel
/// that was there, and touches nothing else.
pub proof fn lemma_paint_columns_at(
    m: Map<(int, int), Color>,
    y: int,
    fill: Color,
    x0: int,
    x1: int,
    lo: int,
    hi: int,
)
    ensures
        forall|k: (int, int)|
            !(k.1 == y && lo <= k.0 < hi) ==> #[trigger] same_at(
                paint_columns(m, y, fill, x0, x1, lo, hi),
                m,
                k,
            ),
        forall|c: int|
            lo <= c < hi && #[trigger] m.contains_key((c, y)) ==> {
                let r = paint_columns(m, y, fill, x0, x1, lo, hi);
                &&& r.contains_key((c, y))
                &&& r[(c, y)] == blend_spec(m[(c, y)], span_color(fill, x0, x1, c))
            },
    decreases hi - lo,
{
    if hi > lo {
        lemma_paint_columns_at(m, y, fill, x0, x1, lo, hi - 1);
        let prev = paint_columns(m, y, fill, x0, x1, lo, hi - 1);
        let r = paint_columns(m, y, fill, x0, x1, lo, hi);
        let last = (hi - 1, y);
        assert(r == prev.insert(last, blend_spec(prev[last], span_color(fill, x0, x1, hi - 1))));
        assert forall|k: (int, int)| !(k.1 == y && lo <= k.0 < hi) implies #[trigger] same_at(r, m, k) by {
            assert(same_at(prev, m, k));
        }
        assert forall|c: int| lo <= c < hi && #[trigger] m.contains_key((c, y)) implies {
            &&& r.contains_key((c, y))
            &&& r[(c, y)] == blend_spec(m[(c, y)], span_color(fill, x0, x1, c))
        } by {
            if c == hi - 1 {
                assert(same_at(prev, m, last));
            } else {
                assert(m.contains_key((c, y)));
            }
        }
    }
}

/// Painting the spans of row `y` on a surface `w` wide touches only the pixels
/// of that row that lie on the surface.
proof fn lemma_paint_spans_frame(
    m: Map<(int, int), Color>,
    y: int,
    xs: Seq<int>,
    fill: Color,
    w: int,
    k: int,
)
    ensures
        forall|q: (int, int)|
            !(q.1 == y && 0 <= q.0 < w) ==> #[trigger] same_at(paint_spans(m, y, xs, fill, w, k), m, q),
    decreases k,
{
    if k > 0 {
        lemma_paint_spans_frame(m, y, xs, fill, w, k - 1);
        let x0 = xs[2 * (k - 1)];
        let x1 = xs[2 * (k - 1) + 1];
        let prev = paint_spans(m, y, xs, fill, w, k - 1);
        lemma_paint_columns_at(prev, y, fill, x0, x1, span_first(x0), span_end(x1, w));
        assert forall|q: (int, int)| !(q.1 == y && 0 <= q.0 < w) implies #[trigger] same_at(
            paint_spans(m, y, xs, fill, w, k),
            m,
            q,
        ) by {
            assert(same_at(prev, m, q));
            assert(same_at(
                paint_columns(prev, y, fill, x0, x1, span_first(x0), span_end(x1, w)),
                prev,
                q,
            ));
        }
    }
}

/// Painting rows `0..n` of a surface `w` wide touches only pixels on those rows
/// and on the surface.
proof fn lemma_paint_rows_frame(m: Map<(int, int), Color>, lines: Seq<Line>, fill: Color, w: int, n: int)
    ensures
        forall|q: (int, int)|
            !(0 <= q.1 < n && 0 <= q.0 < w) ==> #[trigger] same_at(paint_rows(m, lines, fill, w, n), m, q),
    decreases n,
{
    if n > 0 {
        lemma_paint_rows_frame(m, lines, fill, w, n - 1);
        let prev = paint_rows(m, lines, fill, w, n - 1);
        let xs = sorted_crossings(lines, row_sample(n - 1));
        lemma_paint_spans_frame(prev, n - 1, xs, fill, w, xs.len() as int / 2);
        assert forall|q: (int, int)| !(0 <= q.1 < n && 0 <= q.0 < w) implies #[trigger] same_at(
            paint_rows(m, lines, fill, w, n),
            m,
            q,
        ) by {
            assert(same_at(prev, m, q));
            assert(same_at(paint_spans(prev, n - 1, xs, fill, w, xs.len() as int / 2), prev, q));
        }
    }
}

/// Filling never touches a pixel off the `w` by `h` surface: whatever the path,
/// only the part of it that lies on the surface is painted.
pub proof fn lemma_fill_stays_on_surface(
    m: Map<(int, int), Color>,
    lines: Seq<Line>,
    fill: Color,
    w: int,
    h: int,
    q: (int, int),
)
    requires
        !(0 <= q.0 < w && 0 <= q.1 < h),
    ensures
        same_at(paint(m, lines, fill, w, h), m, q),
{
    lemma_paint_rows_frame(m, lines, fill, w, h);
}

/// Of an odd number of crossings on a row, the last has no partner and is
/// dropped: the row is painted as if it were not there.
pub proof fn lemma_unpaired_crossing_dropped(
    m: Map<(int, int), Color>,
    y: int,
    xs: Seq<int>,
    fill: Color,
    w: int,
)
    requires
        xs.len() % 2 == 1,
    ensures
        paint_spans(m, y, xs, fill, w, xs.len() as int / 2) == paint_spans(
            m,
            y,
            xs.drop_last(),
            fill,
            w,
            xs.drop_last().len() as int / 2,
        ),
{
    lemma_spans_prefix(m, y, xs, fill, w, xs.len() as int / 2);
}

proof fn lemma_spans_prefix(m: Map<(int, int), Color>, y: int, xs: Seq<int>, fill: Color, w: int, k: int)
    requires
        xs.len() > 0,
        2 * k <= xs.len() - 1,
    ensures
        paint_spans(m, y, xs, fill, w, k) == paint_spans(m, y, xs.drop_last(), fill, w, k),
    decreases k,
{
    if k > 0 {
        lemma_spans_prefix(m, y, xs, fill, w, k - 1);
        assert(xs[2 * (k - 1)] == xs.drop_last()[2 * (k - 1)]);
        assert(xs[2 * (k - 1) + 1] == xs.drop_last()[2 * (k - 1) + 1]);
    }
}

/// Filling a path twice in a row paints the same thing both times: the second
/// fill closes nothing more, so both paint the same edges.
pub proof fn lemma_fill_twice_same_edges(
    p: PathModel,
    m: Map<(int, int), Color>,
    fill: Color,
    w: int,
    h: int,
)
    ensures
        close_path_model(close_path_model(p)) == close_path_model(p),
        paint(m, flatten(close_path_model(close_path_model(p))), fill, w, h) == paint(
            m,
            flatten(close_path_model(p)),
            fill,
            w,
            h,
        ),
{
    crate::path::lemma_close_idempotent(p);
}

/// The path drawn by moving to `(x0, y0)` and drawing lines through
/// `(x1, y0)`, `(x1, y1)` and `(x0, y1)`: an axis-aligned rectangle, left open.
pub open spec fn rectangle_path(x0: i32, y0: i32, x1: i32, y1: i32) -> PathModel {
    let p = move_path(empty_path(), Point { x: x0, y: y0 });
    let p = add_command(p, Subpath::Line(Point { x: x1, y: y0 }));
    let p = add_command(p, Subpath::Line(Point { x: x1, y: y1 }));
    add_command(p, Subpath::Line(Point { x: x0, y: y1 }))
}

/// Whether `v` lies on a pixel boundary.
pub open spec fn on_pixel_edge(v: int) -> bool {
    v % (SUBPIXELS as int) == 0
}

proof fn lemma_rectangle_edges(x0: i32, y0: i32, x1: i32, y1: i32)
    ensures
        flatten(close_path_model(rectangle_path(x0, y0, x1, y1))) == seq![
            Line(Point { x: x0, y: y0 }, Point { x: x1, y: y0 }),
            Line(Point { x: x1, y: y0 }, Point { x: x1, y: y1 }),
            Line(Point { x: x1, y: y1 }, Point { x: x0, y: y1 }),
            Line(Point { x: x0, y: y1 }, Point { x: x0, y: y0 }),
        ],
{
    let a = Point { x: x0, y: y0 };
    let b = Point { x: x1, y: y0 };
    let c = Point { x: x1, y: y1 };
    let d = Point { x: x0, y: y1 };
    let cmds = close_path_model(rectangle_path(x0, y0, x1, y1)).subpaths;
    assert(cmds =~= seq![
        Subpath::Move(a),
        Subpath::Line(b),
        Subpath::Line(c),
        Subpath::Line(d),
        Subpath::Line(a),
    ]);
    let s1 = cmds.subrange(0, 1);
    let s2 = cmds.subrange(0, 2);
    let s3 = cmds.subrange(0, 3);
    let s4 = cmds.subrange(0, 4);
    assert(s1.drop_last() =~= cmds.subrange(0, 0));
    assert(s2.drop_last() =~= s1);
    assert(s3.drop_last() =~= s2);
    assert(s4.drop_last() =~= s3);
    assert(cmds.drop_last() =~= s4);
    assert(s1.last() == Subpath::Move(a));
    assert(s2.last() == Subpath::Line(b) && s2[0] == Subpath::Move(a));
    assert(s3.last() == Subpath::Line(c) && s3[1] == Subpath::Line(b));
    assert(s4.last() == Subpath::Line(d) && s4[2] == Subpath::Line(c));
    assert(cmds.last() == Subpath::Line(a) && cmds[3] == Subpath::Line(d));
    let e0 = crate::path::edges(a, cmds.subrange(0, 0));
    let e1 = crate::path::edges(a, s1);
    let e2 = crate::path::edges(a, s2);
    let e3 = crate::path::edges(a, s3);
    let e4 = crate::path::edges(a, s4);
    assert(e0 =~= seq![]);
    assert(e1 =~= seq![]);
    assert(e2 =~= seq![Line(a, b)]);
    assert(e3 =~= seq![Line(a, b), Line(b, c)]);
    assert(e4 =~= seq![Line(a, b), Line(b, c), Line(c, d)]);
    assert(crate::path::edges(a, cmds) =~= seq![Line(a, b), Line(b, c), Line(c, d), Line(d, a)]);
}

/// The crossings of a rectangle's edges on each row: its left and right sides
/// on the rows it covers, nothing elsewhere.
proof fn lemma_rectangle_crossings(x0: i32, y0: i32, x1: i32, y1: i32, r: int)
    requires
        x0 < x1,
        y0 < y1,
        on_pixel_edge(y0 as int),
        on_pixel_edge(y1 as int),
    ensures
        ({
            let xs = sorted_crossings(flatten(close_path_model(rectangle_path(x0, y0, x1, y1))), row_sample(r));
            if pixel_of(y0 as int) <= r < pixel_of(y1 as int) {
                xs == seq![x0 as int, x1 as int]
            } else {
                xs.len() == 0
            }
        }),
{
    broadcast use vstd::seq_lib::group_to_multiset_ensures;

    lemma_rectangle_edges(x0, y0, x1, y1);
    let lines = flatten(close_path_model(rectangle_path(x0, y0, x1, y1)));
    let sy = row_sample(r);
    lemma_fundamental_div_mod(y0 as int, SUBPIXELS as int);
    lemma_fundamental_div_mod(y1 as int, SUBPIXELS as int);
    let c = crossings(lines, sy);
    c.lemma_sort_ensures();
    if pixel_of(y0 as int) <= r < pixel_of(y1 as int) {
        assert(y0 < sy < y1);
        let pa = Point { x: x0, y: y0 };
        let pb = Point { x: x1, y: y0 };
        let pc = Point { x: x1, y: y1 };
        let pd = Point { x: x0, y: y1 };
        let l3 = lines.drop_last();
        let l2 = l3.drop_last();
        let l1 = l2.drop_last();
        assert(l1 =~= seq![Line(pa, pb)]);
        assert(l2 =~= seq![Line(pa, pb), Line(pb, pc)]);
        assert(l3 =~= seq![Line(pa, pb), Line(pb, pc), Line(pc, pd)]);
        assert(l1.drop_last() =~= seq![]);
        assert((sy - y0) * (x1 - x1) == 0) by (nonlinear_arith);
        assert((sy - y1) * (x0 - x0) == 0) by (nonlinear_arith);
        assert(cross_x(Line(pb, pc), sy) == x1);
        assert(cross_x(Line(pd, pa), sy) == x0);
        assert(l1.last() == Line(pa, pb));
        assert(crossings(l1.drop_last(), sy) =~= seq![]);
        assert(crossings(l1, sy) =~= seq![]);
        assert(crossings(l2, sy) =~= seq![x1 as int]);
        assert(crossings(l3, sy) =~= seq![x1 as int]);
        assert(c =~= seq![x1 as int, x0 as int]);
        let leq = |a: int, b: int| a <= b;
        let want = seq![x0 as int, x1 as int];
        assert(want =~= seq![x0 as int].push(x1 as int));
        assert(c =~= seq![x1 as int].push(x0 as int));
        assert(seq![x0 as int] =~= Seq::<int>::empty().push(x0 as int));
        assert(seq![x1 as int] =~= Seq::<int>::empty().push(x1 as int));
        assert(want.to_multiset() =~= c.to_multiset());
        assert(sorted_by(want, leq));
        lemma_sorted_unique(c.sort(), want, leq);
    } else {
        lemma_no_crossings_outside(lines, sy);
        vstd::seq_lib::to_multiset_len(c.sort());
        vstd::seq_lib::to_multiset_len(c);
    }
}

/// The pixel a rectangle fill leaves at `k`.
pub open spec fn rectangle_pixel(
    m: Map<(int, int), Color>,
    x0: int,
    y0: int,
    x1: int,
    y1: int,
    fill: Color,
    w: int,
    n: int,
    k: (int, int),
) -> Color {
    if 0 <= k.0 < w && 0 <= k.1 < n && pixel_of(x0) <= k.0 < pixel_of(x1) && pixel_of(y0) <= k.1
        < pixel_of(y1) {
        fill
    } else {
        m[k]
    }
}

/// Filling an axis-aligned rectangle whose corners lie on pixel boundaries with
/// a fully opaque color sets exactly the rectangle's pixels on the surface to
/// that color, and leaves every other pixel as it was.
pub proof fn lemma_fill_rectangle(
    m: Map<(int, int), Color>,
    x0: i32,
    y0: i32,
    x1: i32,
    y1: i32,
    fill: Color,
    w: int,
    h: int,
    k: (int, int),
)
    requires
        x0 < x1,
        y0 < y1,
        on_pixel_edge(x0 as int),
        on_pixel_edge(x1 as int),
        on_pixel_edge(y0 as int),
        on_pixel_edge(y1 as int),
        fill[3] == 255,
        m.contains_key(k),
    ensures
        paint(m, flatten(close_path_model(rectangle_path(x0, y0, x1, y1))), fill, w, h).contains_key(k),
        paint(m, flatten(close_path_model(rectangle_path(x0, y0, x1, y1))), fill, w, h)[k]
            == rectangle_pixel(m, x0 as int, y0 as int, x1 as int, y1 as int, fill, w, h, k),
{
    lemma_rectangle_rows(m, x0, y0, x1, y1, fill, w, h);
}

proof fn lemma_rectangle_rows(
    m: Map<(int, int), Color>,
    x0: i32,
    y0: i32,
    x1: i32,
    y1: i32,
    fill: Color,
    w: int,
    n: int,
)
    requires
        x0 < x1,
        y0 < y1,
        on_pixel_edge(x0 as int),
        on_pixel_edge(x1 as int),
        on_pixel_edge(y0 as int),
        on_pixel_edge(y1 as int),
        fill[3] == 255,
    ensures
        forall|k: (int, int)|
            #[trigger] m.contains_key(k) ==> {
                let r = paint_rows(m, flatten(close_path_model(rectangle_path(x0, y0, x1, y1))), fill, w, n);
                &&& r.contains_key(k)
                &&& r[k] == rectangle_pixel(m, x0 as int, y0 as int, x1 as int, y1 as int, fill, w, n, k)
            },
    decreases n,
{
    let lines = flatten(close_path_model(rectangle_path(x0, y0, x1, y1)));
    if n > 0 {
        lemma_rectangle_rows(m, x0, y0, x1, y1, fill, w, n - 1);
        let prev = paint_rows(m, lines, fill, w, n - 1);
        let row = n - 1;
        let cur = paint_rows(m, lines, fill, w, n);
        lemma_rectangle_crossings(x0, y0, x1, y1, row);
        let xs = sorted_crossings(lines, row_sample(row));
        let (a, b) = (x0 as int, x1 as int);
        if pixel_of(y0 as int) <= row < pixel_of(y1 as int) {
            let first = span_first(a);
            let end = span_end(b, w);
            assert(xs.len() as int / 2 == 1);
            assert(xs[0] == a && xs[1] == b);
            assert(paint_spans(prev, row, xs, fill, w, 0) == prev);
            assert(cur == paint_columns(prev, row, fill, a, b, first, end));
            lemma_paint_columns_at(prev, row, fill, a, b, first, end);
            lemma_fundamental_div_mod(a, SUBPIXELS as int);
            lemma_fundamental_div_mod(b, SUBPIXELS as int);
            assert(pixel_of(a) < pixel_of(b));
            vstd::arithmetic::div_mod::lemma_fundamental_div_mod_converse(130816, 512, 255, 256);
            vstd::arithmetic::div_mod::lemma_fundamental_div_mod_converse(256, 512, 0, 256);
            assert(covered_alpha(255, SUBPIXELS - offset_in_pixel(a)) == 255);
            assert(covered_alpha(255, offset_in_pixel(b)) == 0);
            assert(with_alpha(fill, 255) =~= fill);
            assert forall|k: (int, int)| #[trigger] m.contains_key(k) implies {
                &&& cur.contains_key(k)
                &&& cur[k] == rectangle_pixel(m, a, y0 as int, b, y1 as int, fill, w, n, k)
            } by {
                assert(prev.contains_key(k));
                if k.1 == row && first <= k.0 < end {
                    let c = k.0;
                    assert(k == (c, row));
                    assert(prev[k] == m[k]);
                    if c == pixel_of(b) {
                        crate::color::lemma_blend_transparent(m[k], with_alpha(fill, 0));
                    } else {
                        crate::color::lemma_blend_opaque(m[k], span_color(fill, a, b, c));
                    }
                } else {
                    assert(same_at(cur, prev, k));
                }
            }
        } else {
            assert(xs.len() as int / 2 == 0);
            assert(cur == prev);
        }
    }
}

} // verus!
