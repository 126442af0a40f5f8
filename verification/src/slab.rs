//! Square tiles of the grid, the unit of redrawing.
//!
//! The tiles that an edit touches are kept as a list in which no tile
//! stands twice, in the order in which the touched vertices first reach them:
//! the order of a redraw is then the same on every run.
use vstd::prelude::*;
use crate::geometry::{v2, Position};

verus! {

/// The square tile of side `slab_size` whose corner nearest the origin is
/// `from`.
#[derive(Hash, PartialEq, Eq, Debug, Clone, Copy, Structural)]
pub struct Slab {
    pub from: Position,
    pub slab_size: usize,
}

/// The largest multiple of `size` that is not above `coordinate`.
pub open spec fn tile_origin(coordinate: usize, size: usize) -> usize {
    ((coordinate / size) * size) as usize
}

/// The origin of a tile is a multiple of the size, at most the coordinate and
/// less than a tile away from it.
pub proof fn lemma_tile_origin(coordinate: usize, size: usize)
    requires
        size > 0,
    ensures
        tile_origin(coordinate, size) == (coordinate / size) * size,
        tile_origin(coordinate, size) <= coordinate < tile_origin(coordinate, size) + size,
        tile_origin(coordinate, size) % size == 0,
{
    let q = coordinate as int / size as int;
    assert(coordinate as int == q * size + coordinate as int % size as int && 0 <= q * size
        <= coordinate) by (nonlinear_arith)
        requires
            q == coordinate as int / size as int,
            size > 0,
            coordinate >= 0,
    ;
    assert((q * size) % (size as int) == 0) by (nonlinear_arith)
        requires
            size > 0,
    ;
}

impl Slab {
    /// The tile of the given size that covers a point.
    pub open spec fn containing(point: Position, slab_size: usize) -> Slab {
        Slab {
            from: Position {
                x: tile_origin(point.x, slab_size),
                y: tile_origin(point.y, slab_size),
            },
            slab_size,
        }
    }

    /// Whether the tile covers a point.
    pub open spec fn covers(self, point: Position) -> bool {
        &&& self.from.x <= point.x < self.from.x + self.slab_size
        &&& self.from.y <= point.y < self.from.y + self.slab_size
    }

    /// The tile of the given size that covers a point.
    pub fn new(point: Position, slab_size: usize) -> (s: Slab)
        requires
            slab_size > 0,
        ensures
            s == Self::containing(point, slab_size),
            s.covers(point),
            s.from.x % slab_size == 0,
            s.from.y % slab_size == 0,
    {
        proof {
            lemma_tile_origin(point.x, slab_size);
            lemma_tile_origin(point.y, slab_size);
        }
        let from: Position = v2((point.x / slab_size) * slab_size, (point.y / slab_size) * slab_size);
        Slab { from, slab_size }
    }

    /// The corner opposite `from`.
    pub fn to(&self) -> (p: Position)
        requires
            self.from.x + self.slab_size <= usize::MAX,
            self.from.y + self.slab_size <= usize::MAX,
        ensures
            p.x == self.from.x + self.slab_size,
            p.y == self.from.y + self.slab_size,
    {
        v2(self.from.x + self.slab_size, self.from.y + self.slab_size)
    }
}

/// The smaller of two numbers.
pub open spec fn lesser(a: int, b: int) -> int {
    if a <= b {
        a
    } else {
        b
    }
}

/// `start + length`, held back to `limit`.
fn clamped_end(start: usize, length: usize, limit: usize) -> (end: usize)
    requires
        start <= limit,
    ensures
        end == lesser(start + length, limit as int),
{
    if length >= limit - start {
        limit
    } else {
        start + length
    }
}

impl Slab {
    /// The corner opposite `from`, held back to a limit on each axis: the
    /// last row and column of tiles may be partial.
    pub fn to_clamped(&self, limit: Position) -> (p: Position)
        requires
            self.from.x <= limit.x,
            self.from.y <= limit.y,
        ensures
            p.x == lesser(self.from.x + self.slab_size, limit.x as int),
            p.y == lesser(self.from.y + self.slab_size, limit.y as int),
    {
        v2(
            clamped_end(self.from.x, self.slab_size, limit.x),
            clamped_end(self.from.y, self.slab_size, limit.y),
        )
    }
}

/// The tiles that cover a list of points, each once, in the order in which
/// the points first reach them.
pub open spec fn distinct_slabs(points: Seq<Position>, slab_size: usize) -> Seq<Slab>
    decreases points.len(),
{
    if points.len() == 0 {
        Seq::empty()
    } else {
        let rest = distinct_slabs(points.drop_last(), slab_size);
        let slab = Slab::containing(points.last(), slab_size);
        if rest.contains(slab) {
            rest
        } else {
            rest.push(slab)
        }
    }
}

/// The tile of each point of a list.
pub open spec fn slabs_of(points: Seq<Position>, slab_size: usize) -> Seq<Slab> {
    Seq::new(points.len(), |i: int| Slab::containing(points[i], slab_size))
}

/// However many points fall in one tile, and however often a point is
/// repeated, the tiles that cover a list of points hold each tile once: they
/// are as many as the distinct tiles that the points touch, and they are
/// those tiles.
pub proof fn lemma_slab_dedup(points: Seq<Position>, slab_size: usize)
    ensures
        distinct_slabs(points, slab_size).no_duplicates(),
        distinct_slabs(points, slab_size).to_set() == slabs_of(points, slab_size).to_set(),
        distinct_slabs(points, slab_size).len() == slabs_of(points, slab_size).to_set().len(),
    decreases points.len(),
{
    let all = slabs_of(points, slab_size);
    let out = distinct_slabs(points, slab_size);
    if points.len() == 0 {
        assert(out.to_set() =~= all.to_set());
    } else {
        let front = points.drop_last();
        lemma_slab_dedup(front, slab_size);
        let rest = distinct_slabs(front, slab_size);
        let before = slabs_of(front, slab_size);
        let slab = Slab::containing(points.last(), slab_size);
        assert forall|s: Slab| out.to_set().contains(s) == all.to_set().contains(s) by {
            assert(rest.to_set().contains(s) == before.to_set().contains(s));
            if before.contains(s) {
                let i = choose|i: int| 0 <= i < before.len() && before[i] == s;
                assert(all[i] == s);
            }
            if all.contains(s) {
                let i = choose|i: int| 0 <= i < all.len() && all[i] == s;
                if i < before.len() {
                    assert(before[i] == s);
                }
            }
            if s == slab {
                assert(all[points.len() - 1] == s);
            }
            if !rest.contains(slab) {
                if rest.contains(s) {
                    let i = choose|i: int| 0 <= i < rest.len() && rest[i] == s;
                    assert(rest.push(slab)[i] == s);
                }
                assert(rest.push(slab)[rest.len() as int] == slab);
            }
        }
        assert(out.to_set() =~= all.to_set());
    }
    out.unique_seq_to_set();
}

/// Whether a list holds a tile.
fn holds(slabs: &Vec<Slab>, slab: &Slab) -> (found: bool)
    ensures
        found == slabs@.contains(*slab),
{
    let mut i: usize = 0;
    while i < slabs.len()
        invariant
            0 <= i <= slabs@.len(),
            forall|k: int| 0 <= k < i ==> slabs@[k] != *slab,
        decreases slabs@.len() - i,
    {
        if slabs[i] == *slab {
            return true;
        }
        i = i + 1;
    }
    false
}

/// The tiles that cover the given points, each tile once.
pub fn slabs_covering(points: &Vec<Position>, slab_size: usize) -> (out: Vec<Slab>)
    requires
        slab_size > 0,
    ensures
        out@ == distinct_slabs(points@, slab_size),
        out@.no_duplicates(),
        out@.to_set() == slabs_of(points@, slab_size).to_set(),
        out@.len() == slabs_of(points@, slab_size).to_set().len(),
{
    let mut out: Vec<Slab> = Vec::new();
    let mut i: usize = 0;
    while i < points.len()
        invariant
            slab_size > 0,
            0 <= i <= points@.len(),
            out@ == distinct_slabs(points@.take(i as int), slab_size),
        decreases points@.len() - i,
    {
        let slab: Slab = Slab::new(points[i], slab_size);
        proof {
            assert(points@.take(i + 1).drop_last() == points@.take(i as int));
        }
        if !holds(&out, &slab) {
            out.push(slab);
        }
        i = i + 1;
    }
    proof {
        assert(points@.take(points@.len() as int) == points@);
        lemma_slab_dedup(points@, slab_size);
    }
    out
}

} // verus!
