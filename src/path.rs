//! Paths built from move and line commands, and their flattening into edges.
use crate::geometry::{Line, Lines, Point};
use vstd::prelude::*;

verus! {

/// One command of a path.
#[derive(Clone, Copy, Debug, PartialEq, Eq, Structural)]
pub enum Subpath {
    /// Starts a new contour at the point, drawing nothing.
    Move(Point),
    /// Draws a straight edge from the current point to this one.
    Line(Point),
}

/// The point a command leaves the pen at.
pub open spec fn target_of(s: Subpath) -> Point {
    match s {
        Subpath::Move(p) => p,
        Subpath::Line(p) => p,
    }
}

/// What a path holds: where it starts, its commands in order, and whether it
/// has been closed since its last command.
pub ghost struct PathModel {
    pub start: Point,
    pub subpaths: Seq<Subpath>,
    pub is_closed: bool,
}

/// The path with no commands, starting at the origin.
pub open spec fn empty_path() -> PathModel {
    PathModel { start: Point { x: 0, y: 0 }, subpaths: Seq::empty(), is_closed: false }
}

/// `p` with one more command; a new command reopens the path.
pub open spec fn add_command(p: PathModel, s: Subpath) -> PathModel {
    PathModel { subpaths: p.subpaths.push(s), is_closed: false, ..p }
}

/// `p` with its start moved to `pt` and a move command to it.
pub open spec fn move_path(p: PathModel, pt: Point) -> PathModel {
    add_command(PathModel { start: pt, ..p }, Subpath::Move(pt))
}

/// `p` closed: an edge back to the start is added unless it is closed already.
pub open spec fn close_path_model(p: PathModel) -> PathModel {
    if p.is_closed {
        p
    } else {
        PathModel { subpaths: p.subpaths.push(Subpath::Line(p.start)), is_closed: true, ..p }
    }
}

/// Where the pen stands after the first `n` commands.
pub open spec fn pen_after(start: Point, cmds: Seq<Subpath>, n: int) -> Point {
    if n <= 0 {
        start
    } else {
        target_of(cmds[n - 1])
    }
}

/// The edges drawn by the commands, in order: each line command draws from
/// where the pen stands to its point.
pub open spec fn edges(start: Point, cmds: Seq<Subpath>) -> Seq<Line>
    decreases cmds.len(),
{
    if cmds.len() == 0 {
        Seq::empty()
    } else {
        let rest = edges(start, cmds.drop_last());
        match cmds.last() {
            Subpath::Move(_) => rest,
            Subpath::Line(p) => rest.push(Line(pen_after(start, cmds, cmds.len() - 1), p)),
        }
    }
}

/// The edges of a path.
pub open spec fn flatten(p: PathModel) -> Seq<Line> {
    edges(p.start, p.subpaths)
}

/// Closing a path twice is closing it once.
pub proof fn lemma_close_idempotent(p: PathModel)
    ensures
        close_path_model(close_path_model(p)) == close_path_model(p),
        flatten(close_path_model(close_path_model(p))) == flatten(close_path_model(p)),
{
}

/// A path under construction.
pub struct Path {
    pub start: Point,
    pub subpaths: Vec<Subpath>,
    pub is_closed: bool,
}

impl View for Path {
    type V = PathModel;

    open spec fn view(&self) -> PathModel {
        PathModel { start: self.start, subpaths: self.subpaths@, is_closed: self.is_closed }
    }
}

impl Path {
    pub fn new() -> (r: Path)
        ensures
            r@ == empty_path(),
    {
        Path { start: Point::new(0, 0), subpaths: Vec::new(), is_closed: false }
    }

    pub fn add(&mut self, subpath: Subpath)
        ensures
            final(self)@ == add_command(old(self)@, subpath),
    {
        self.is_closed = false;
        self.subpaths.push(subpath);
    }

    pub fn close(&mut self)
        ensures
            final(self)@ == close_path_model(old(self)@),
    {
        if !self.is_closed {
            self.is_closed = true;
            self.subpaths.push(Subpath::Line(self.start));
        }
    }

    /// The edges that the commands draw.
    pub fn to_lines(&self) -> (r: Lines)
        ensures
            r@ == flatten(self@),
    {
        let mut lines: Vec<Line> = Vec::new();
        let mut active = self.start;
        let mut i: usize = 0;
        while i < self.subpaths.len()
            invariant
                i <= self.subpaths@.len(),
                active == pen_after(self.start, self.subpaths@, i as int),
                lines@ == edges(self.start, self.subpaths@.subrange(0, i as int)),
            decreases self.subpaths@.len() - i,
        {
            let ghost sub = self.subpaths@.subrange(0, i + 1);
            assert(sub.drop_last() =~= self.subpaths@.subrange(0, i as int));
            assert(pen_after(self.start, sub, i as int) == pen_after(self.start, self.subpaths@, i as int));
            match self.subpaths[i] {
                Subpath::Move(point) => {
                    active = point;
                },
                Subpath::Line(point) => {
                    lines.push(Line(active, point));
                    active = point;
                },
            }
            i = i + 1;
        }
        assert(self.subpaths@.subrange(0, i as int) =~= self.subpaths@);
        Lines(lines)
    }
}

} // verus!
