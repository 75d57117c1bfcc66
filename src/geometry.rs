//! Points, edges, and the scanline crossings of a set of edges.
//!
//! Coordinates are fixed-point: one unit is `1 / SUBPIXELS` of a pixel.
use vstd::arithmetic::div_mod::{
    lemma_fundamental_div_mod, lemma_fundamental_div_mod_converse, lemma_mod_pos_bound,
};
use vstd::prelude::*;
use vstd::relations::{sorted_by, total_ordering};
use vstd::seq_lib::{group_to_multiset_ensures, lemma_sorted_unique, to_multiset_build};

verus! {

/// Sub-pixel units per pixel along each axis.
pub const SUBPIXELS: i64 = 256;

/// A point in sub-pixel units.
#[derive(Clone, Copy, Debug, PartialEq, Eq, Structural)]
pub struct Point {
    pub x: i32,
    pub y: i32,
}

impl Point {
    pub fn new(x: i32, y: i32) -> (r: Point)
        ensures
            r == (Point { x, y }),
    {
        Point { x, y }
    }
}

/// A directed edge from its first point to its second.
#[derive(Clone, Copy, Debug, PartialEq, Eq, Structural)]
pub struct Line(pub Point, pub Point);

/// The smallest rectangle holding a set of points: top-left and bottom-right.
#[derive(Clone, Copy, Debug)]
pub struct Rect {
    pub tl: Point,
    pub br: Point,
}

/// The edges of a flattened path.
#[derive(Debug)]
pub struct Lines(pub Vec<Line>);

impl View for Lines {
    type V = Seq<Line>;

    open spec fn view(&self) -> Seq<Line> {
        self.0@
    }
}

/// `n / d` rounded towards negative infinity, for `d != 0`.
pub open spec fn floor_div(n: int, d: int) -> int {
    if d > 0 {
        n / d
    } else {
        (-n) / (-d)
    }
}

/// Whether edge `l` crosses the horizontal line at `sy`: one end strictly above
/// it and the other on or below it.
pub open spec fn crosses(l: Line, sy: int) -> bool {
    (l.0.y < sy && l.1.y >= sy) || (l.1.y < sy && l.0.y >= sy)
}

/// The x coordinate where edge `l` meets the horizontal line at `sy`, by
/// linear interpolation, rounded down to a whole sub-pixel unit.
pub open spec fn cross_x(l: Line, sy: int) -> int {
    l.0.x + floor_div((sy - l.0.y) * (l.1.x - l.0.x), l.1.y - l.0.y)
}

/// The crossings of the edges with the horizontal line at `sy`, in edge order.
pub open spec fn crossings(lines: Seq<Line>, sy: int) -> Seq<int>
    decreases lines.len(),
{
    if lines.len() == 0 {
        Seq::empty()
    } else {
        let rest = crossings(lines.drop_last(), sy);
        if crosses(lines.last(), sy) {
            rest.push(cross_x(lines.last(), sy))
        } else {
            rest
        }
    }
}

/// The crossings with the horizontal line at `sy`, in ascending order.
pub open spec fn sorted_crossings(lines: Seq<Line>, sy: int) -> Seq<int> {
    crossings(lines, sy).sort()
}

pub open spec fn ints(v: Seq<i64>) -> Seq<int> {
    v.map_values(|x: i64| x as int)
}

pub open spec fn in_i32(v: Seq<i64>) -> bool {
    forall|i: int| 0 <= i < v.len() ==> i32::MIN <= #[trigger] v[i] <= i32::MAX
}

pub open spec fn ascending(s: Seq<int>) -> bool {
    forall|i: int, j: int| 0 <= i < j < s.len() ==> s[i] <= s[j]
}

pub open spec fn min_i32(a: i32, b: i32) -> i32 {
    if b < a { b } else { a }
}

pub open spec fn max_i32(a: i32, b: i32) -> i32 {
    if b > a { b } else { a }
}

/// `r` grown just enough to hold `p`.
pub open spec fn extend(r: Rect, p: Point) -> Rect {
    Rect {
        tl: Point { x: min_i32(r.tl.x, p.x), y: min_i32(r.tl.y, p.y) },
        br: Point { x: max_i32(r.br.x, p.x), y: max_i32(r.br.y, p.y) },
    }
}

/// The rectangle that holds nothing: its corners are inverted to the extremes.
pub open spec fn empty_rect() -> Rect {
    Rect { tl: Point { x: i32::MAX, y: i32::MAX }, br: Point { x: i32::MIN, y: i32::MIN } }
}

/// The smallest rectangle holding both ends of every edge (the empty rectangle
/// when there are no edges).
pub open spec fn bounds_of(lines: Seq<Line>) -> Rect
    decreases lines.len(),
{
    if lines.len() == 0 {
        empty_rect()
    } else {
        let l = lines.last();
        extend(extend(bounds_of(lines.drop_last()), l.0), l.1)
    }
}

/// Every end of every edge lies in the bounds.
pub proof fn lemma_bounds_hold(lines: Seq<Line>)
    ensures
        forall|i: int|
            0 <= i < lines.len() ==> {
                let b = bounds_of(lines);
                &&& b.tl.y <= (#[trigger] lines[i]).0.y <= b.br.y
                &&& b.tl.y <= lines[i].1.y <= b.br.y
                &&& b.tl.x <= lines[i].0.x <= b.br.x
                &&& b.tl.x <= lines[i].1.x <= b.br.x
            },
    decreases lines.len(),
{
    if lines.len() > 0 {
        lemma_bounds_hold(lines.drop_last());
        let b = bounds_of(lines);
        let bp = bounds_of(lines.drop_last());
        assert(b.tl.y <= bp.tl.y && b.tl.x <= bp.tl.x && b.br.y >= bp.br.y && b.br.x >= bp.br.x);
        assert forall|i: int| 0 <= i < lines.len() implies {
            &&& b.tl.y <= (#[trigger] lines[i]).0.y <= b.br.y
            &&& b.tl.y <= lines[i].1.y <= b.br.y
            &&& b.tl.x <= lines[i].0.x <= b.br.x
            &&& b.tl.x <= lines[i].1.x <= b.br.x
        } by {
            if i < lines.len() - 1 {
                assert(lines[i] == lines.drop_last()[i]);
            }
        }
    }
}

/// An edge crosses no horizontal line that lies strictly above both its ends,
/// nor one that lies on or below both.
pub proof fn lemma_no_crossings_outside(lines: Seq<Line>, sy: int)
    requires
        forall|i: int|
            0 <= i < lines.len() ==> (sy <= (#[trigger] lines[i]).0.y && sy <= lines[i].1.y) || (
            lines[i].0.y < sy && lines[i].1.y < sy),
    ensures
        crossings(lines, sy).len() == 0,
    decreases lines.len(),
{
    if lines.len() > 0 {
        assert forall|i: int| 0 <= i < lines.len() - 1 implies lines[i] == #[trigger] lines.drop_last()[i] by {}
        lemma_no_crossings_outside(lines.drop_last(), sy);
        assert(lines.last() == lines[lines.len() - 1]);
    }
}

/// For `0 <= t <= d`, `t * dx / d` (rounded down) lies between 0 and `dx`.
proof fn lemma_interpolate(t: int, d: int, dx: int)
    requires
        0 <= t <= d,
        d > 0,
    ensures
        dx >= 0 ==> 0 <= (t * dx) / d <= dx,
        dx < 0 ==> dx <= (t * dx) / d <= 0,
{
    let n = t * dx;
    lemma_fundamental_div_mod(n, d);
    vstd::arithmetic::div_mod::lemma_mod_bound(n, d);
    let q = n / d;
    let r = n % d;
    assert(dx >= 0 ==> 0 <= q <= dx) by (nonlinear_arith)
        requires
            n == t * dx,
            n == d * q + r,
            0 <= r < d,
            0 <= t <= d,
    ;
    assert(dx < 0 ==> dx <= q <= 0) by (nonlinear_arith)
        requires
            n == t * dx,
            n == d * q + r,
            0 <= r < d,
            0 <= t <= d,
    ;
}

/// A crossing lies between the x coordinates of the edge's ends.
pub proof fn lemma_cross_x_between(l: Line, sy: int)
    requires
        crosses(l, sy),
    ensures
        min_i32(l.0.x, l.1.x) <= cross_x(l, sy) <= max_i32(l.0.x, l.1.x),
{
    let t = sy - l.0.y;
    let d = l.1.y - l.0.y;
    let dx = l.1.x - l.0.x;
    if d > 0 {
        lemma_interpolate(t, d, dx);
    } else {
        assert((-(t * dx)) == (-t) * dx) by (nonlinear_arith);
        lemma_interpolate(-t, -d, dx);
    }
}

/// `-(a / d)` rounded down, for `a >= 0`, `d > 0`, from the quotient and remainder of `a`.
pub proof fn lemma_floor_of_negated(a: int, d: int)
    requires
        a >= 0,
        d > 0,
    ensures
        (-a) / d == if a % d == 0 { -(a / d) } else { -(a / d) - 1 },
{
    lemma_fundamental_div_mod(a, d);
    lemma_mod_pos_bound(a, d);
    let q = a / d;
    let r = a % d;
    if r == 0 {
        assert(-a == (-q) * d + 0) by (nonlinear_arith)
            requires
                a == d * q + r,
                r == 0,
        ;
        lemma_fundamental_div_mod_converse(-a, d, -q, 0);
    } else {
        assert(-a == (-q - 1) * d + (d - r)) by (nonlinear_arith)
            requires
                a == d * q + r,
        ;
        lemma_fundamental_div_mod_converse(-a, d, -q - 1, d - r);
    }
}

/// The crossing of edge `l` with the horizontal line at `sy`.
fn cross_x_exec(l: Line, sy: i64) -> (r: i64)
    requires
        crosses(l, sy as int),
    ensures
        r == cross_x(l, sy as int),
        min_i32(l.0.x, l.1.x) <= r <= max_i32(l.0.x, l.1.x),
{
    proof {
        lemma_cross_x_between(l, sy as int);
    }
    let t: i64 = sy - l.0.y as i64;
    let d: i64 = l.1.y as i64 - l.0.y as i64;
    let dx: i64 = l.1.x as i64 - l.0.x as i64;
    let tn: u128 = if d > 0 { t as u128 } else { (-t) as u128 };
    let dd: u128 = if d > 0 { d as u128 } else { (-d) as u128 };
    let adx: u128 = if dx >= 0 { dx as u128 } else { (-dx) as u128 };
    assert(tn * adx <= 0x1_0000_0000 * 0x1_0000_0000) by (nonlinear_arith)
        requires
            tn <= 0x1_0000_0000,
            adx <= 0x1_0000_0000,
    ;
    let a: u128 = tn * adx;
    let q: u128 = a / dd;
    proof {
        lemma_interpolate(tn as int, dd as int, adx as int);
    }
    let off: i64 = if dx >= 0 {
        q as i64
    } else if a % dd == 0 {
        -(q as i64)
    } else {
        -(q as i64) - 1
    };
    proof {
        let n = (sy - l.0.y) * (l.1.x - l.0.x);
        if d > 0 {
            assert(n == tn * dx) by (nonlinear_arith)
                requires n == (sy - l.0.y) * (l.1.x - l.0.x), tn == sy - l.0.y, dx == l.1.x - l.0.x;
        } else {
            assert(-n == tn * dx) by (nonlinear_arith)
                requires n == (sy - l.0.y) * (l.1.x - l.0.x), tn == -(sy - l.0.y), dx == l.1.x - l.0.x;
        }
        if dx < 0 {
            assert(tn * dx == -(a as int)) by (nonlinear_arith)
                requires a == tn * adx, adx == -dx;
            lemma_floor_of_negated(a as int, dd as int);
        } else {
            assert(tn * dx == a as int) by (nonlinear_arith)
                requires a == tn * adx, adx == dx;
        }
    }
    l.0.x as i64 + off
}

impl Lines {
    /// The smallest rectangle that holds every edge.
    pub fn bounds(&self) -> (r: Rect)
        ensures
            r == bounds_of(self@),
    {
        let mut bounds = Rect {
            tl: Point { x: i32::MAX, y: i32::MAX },
            br: Point { x: i32::MIN, y: i32::MIN },
        };
        let mut i: usize = 0;
        while i < self.0.len()
            invariant
                i <= self@.len(),
                bounds == bounds_of(self@.subrange(0, i as int)),
            decreases self@.len() - i,
        {
            let line = self.0[i];
            constrain(&mut bounds, line.0);
            constrain(&mut bounds, line.1);
            assert(self@.subrange(0, i + 1).drop_last() =~= self@.subrange(0, i as int));
            i = i + 1;
        }
        assert(self@.subrange(0, i as int) =~= self@);
        bounds
    }

    /// The crossings of the edges with the horizontal line at `sy`, in ascending order.
    pub fn x_intersections(&self, sy: i64) -> (r: Vec<i64>)
        ensures
            ints(r@) == sorted_crossings(self@, sy as int),
            in_i32(r@),
    {
        broadcast use group_to_multiset_ensures;

        let mut xs: Vec<i64> = Vec::new();
        let mut i: usize = 0;
        while i < self.0.len()
            invariant
                i <= self@.len(),
                ascending(ints(xs@)),
                in_i32(xs@),
                ints(xs@).to_multiset() == crossings(self@.subrange(0, i as int), sy as int).to_multiset(),
            decreases self@.len() - i,
        {
            let line = self.0[i];
            assert(self@.subrange(0, i + 1).drop_last() =~= self@.subrange(0, i as int));
            assert(self@.subrange(0, i + 1).last() == line);
            if (line.0.y as i64) < sy && (line.1.y as i64) >= sy || (line.1.y as i64) < sy && (line.0.y as i64) >= sy {
                let x = cross_x_exec(line, sy);
                insert_sorted(&mut xs, x);
                assert(crossings(self@.subrange(0, i + 1), sy as int) == crossings(
                    self@.subrange(0, i as int),
                    sy as int,
                ).push(x as int));
                let ghost prev = crossings(self@.subrange(0, i as int), sy as int);
                proof {
                    to_multiset_build(prev, x as int);
                }
            } else {
                assert(crossings(self@.subrange(0, i + 1), sy as int) == crossings(
                    self@.subrange(0, i as int),
                    sy as int,
                ));
            }
            i = i + 1;
        }
        assert(self@.subrange(0, i as int) =~= self@);
        let ghost c = crossings(self@, sy as int);
        proof {
            let leq = |a: int, b: int| a <= b;
            c.lemma_sort_ensures();
            assert(total_ordering(leq));
            assert(sorted_by(ints(xs@), leq));
            lemma_sorted_unique(ints(xs@), c.sort(), leq);
        }
        xs
    }
}

/// Grows `bounds` just enough to hold `p`.
fn constrain(bounds: &mut Rect, p: Point)
    ensures
        *final(bounds) == extend(*old(bounds), p),
{
    if p.x < bounds.tl.x {
        bounds.tl.x = p.x;
    }
    if p.y < bounds.tl.y {
        bounds.tl.y = p.y;
    }
    if p.x > bounds.br.x {
        bounds.br.x = p.x;
    }
    if p.y > bounds.br.y {
        bounds.br.y = p.y;
    }
}

/// Inserts `x` into the ascending vector `v`, after any equal values.
fn insert_sorted(v: &mut Vec<i64>, x: i64)
    requires
        ascending(ints(old(v)@)),
        in_i32(old(v)@),
        i32::MIN <= x <= i32::MAX,
    ensures
        ascending(ints(final(v)@)),
        in_i32(final(v)@),
        ints(final(v)@).to_multiset() == ints(old(v)@).to_multiset().insert(x as int),
{
    broadcast use group_to_multiset_ensures;

    let mut p: usize = 0;
    while p < v.len() && v[p] <= x
        invariant
            p <= v@.len(),
            v@ == old(v)@,
            forall|j: int| 0 <= j < p ==> v@[j] <= x,
        decreases v@.len() - p,
    {
        p = p + 1;
    }
    let ghost before = ints(v@);
    let ghost vold = v@;
    v.insert(p, x);
    assert(ints(v@) =~= before.insert(p as int, x as int));
    assert forall|i: int| 0 <= i < v@.len() implies i32::MIN <= #[trigger] v@[i] <= i32::MAX by {
        if i < p {
            assert(v@[i] == vold[i]);
        } else if i > p {
            assert(v@[i] == vold[i - 1]);
        }
    }
    assert forall|i: int, j: int| 0 <= i < j < ints(v@).len() implies ints(v@)[i] <= ints(v@)[j] by {
        if j < p {
            assert(before[i] <= before[j]);
        } else if j == p {
        } else if i == p {
            assert(before[p as int] > x);
            if j - 1 > p {
                assert(before[p as int] <= before[j - 1]);
            }
        } else if i < p {
            assert(before[i] <= x);
            assert(before[p as int] > x);
            if j - 1 > p {
                assert(before[p as int] <= before[j - 1]);
            }
        } else {
            assert(before[i - 1] <= before[j - 1]);
        }
    }
}

} // verus!
