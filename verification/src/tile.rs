//! The mathematical model of the octree: a tile with an optional child in
//! each of eight slots, and what insertion, lookup, merging and flattening
//! do to it.
use vstd::prelude::*;
use crate::color::{Rgb, mean_color};
use crate::geometry::{
    Point, MIN_DEPTH, valid_depth, in_range, child_slot, child_corner, cube_contains,
};

verus! {

/// A tile of the octree, as a mathematical value.
///
/// `d` is the depth: the tile is a cube of edge `tile_size(d)` whose lowest
/// corner is `position`. `filled` is the largest depth among the writes
/// whose path crossed the tile (a larger depth is a larger cube), or a
/// value below every depth when none did; when `filled == d` the whole cube
/// is solid in `color`.
pub struct Tile {
    pub filled: int,
    pub color: Rgb,
    pub children: Seq<Option<Tile>>,
    pub position: Point,
    pub d: int,
}

/// A flattened tile as the GPU reads it: `children` holds the index of each
/// child's record in the flattened array, or 0 where there is none.
pub struct TileRecord {
    pub filled: int,
    pub color: int,
    pub children: Seq<int>,
    pub d: int,
}

/// Eight empty child slots.
pub open spec fn no_children() -> Seq<Option<Tile>> {
    Seq::new(8, |i: int| None)
}

/// Number of present children in the first `n` slots that are solid.
pub open spec fn solid_count(ch: Seq<Option<Tile>>, n: int) -> int
    decreases n,
{
    if n <= 0 {
        0
    } else {
        solid_count(ch, n - 1) + if ch[n - 1] is Some && ch[n - 1]->0.is_solid() {
            1int
        } else {
            0int
        }
    }
}

/// Sum of channel `k` over the solid children in the first `n` slots.
pub open spec fn solid_sum(ch: Seq<Option<Tile>>, k: int, n: int) -> int
    decreases n,
{
    if n <= 0 {
        0
    } else {
        solid_sum(ch, k, n - 1) + if ch[n - 1] is Some && ch[n - 1]->0.is_solid() {
            ch[n - 1]->0.color.channel(k)
        } else {
            0int
        }
    }
}

/// The channel-wise mean colour of the solid children among `ch`.
pub open spec fn solid_mean(ch: Seq<Option<Tile>>) -> Rgb {
    let n = ch.len() as int;
    mean_color(solid_sum(ch, 0, n), solid_sum(ch, 1, n), solid_sum(ch, 2, n), solid_count(ch, n))
}

/// Every slot holds a child.
pub open spec fn all_present(ch: Seq<Option<Tile>>) -> bool {
    forall|i: int| 0 <= i < ch.len() ==> #[trigger] ch[i] is Some
}

/// Every present child is solid.
pub open spec fn present_solid(ch: Seq<Option<Tile>>) -> bool {
    forall|i: int| 0 <= i < ch.len() && #[trigger] ch[i] is Some ==> ch[i]->0.is_solid()
}

impl Tile {
    /// A tile with no children.
    pub open spec fn fresh(filled: int, color: Rgb, position: Point, d: int) -> Tile {
        Tile { filled, color, children: no_children(), position, d }
    }

    /// The tile is solid: its whole cube has one colour.
    pub open spec fn is_solid(self) -> bool {
        self.filled == self.d
    }

    /// The tile's cube holds the point `p`.
    pub open spec fn contains(self, p: Point) -> bool {
        cube_contains(self.position, self.d, p)
    }

    /// Slot of the child towards which `p` lies.
    pub open spec fn slot(self, p: Point) -> int {
        child_slot(self.position, self.d, p)
    }

    /// The child in slot `i` is where the tree's geometry puts it.
    pub open spec fn child_placed(self, i: int) -> bool {
        let c = self.children[i]->0;
        &&& self.d > MIN_DEPTH
        &&& c.d == self.d - 1
        &&& c.position == child_corner(self.position, self.d, i)
    }

    /// Well-formedness: depths in range, valid colours, eight slots, each child one level
    /// down at its own corner, and every cube inside the coordinate range.
    pub open spec fn wf(self) -> bool
        decreases self,
    {
        &&& valid_depth(self.d)
        &&& self.color.valid()
        &&& self.children.len() == 8
        &&& in_range(self.position, self.d)
        &&& forall|i: int|
            0 <= i < 8 && #[trigger] self.children[i] is Some ==> self.child_placed(i)
                && self.children[i]->0.wf()
    }

    /// The first solid tile on the path from this tile towards `p`, if the
    /// path reaches one before it runs out of children.
    pub open spec fn lookup(self, p: Point) -> Option<Tile>
        decreases self,
    {
        if self.is_solid() {
            Some(self)
        } else {
            let s = self.slot(p);
            if 0 <= s < self.children.len() && self.children[s] is Some {
                self.children[s]->0.lookup(p)
            } else {
                None
            }
        }
    }

    /// The tile after writing `c` at depth `deph` at the point `p`: every
    /// tile on the path down to depth `deph` is visited (and created where
    /// missing); the tile at depth `deph` becomes solid in `c`; a tile above
    /// it takes the colour `c` if no write of depth `deph` or more had
    /// crossed it, and records `deph` in `filled` when it is larger.
    pub open spec fn inserted(self, p: Point, deph: int, c: Rgb) -> Tile
        decreases self.d - deph,
    {
        if self.d <= deph {
            Tile { color: c, filled: self.d, ..self }
        } else {
            let s = self.slot(p);
            let base = match self.children[s] {
                Some(ch) => ch,
                None => Tile::fresh(deph, c, child_corner(self.position, self.d, s), self.d - 1),
            };
            let color = if self.filled < deph {
                c
            } else {
                self.color
            };
            let filled = if self.filled < deph {
                deph
            } else {
                self.filled
            };
            let child = if deph <= base.d < self.d {
                base.inserted(p, deph, c)
            } else {
                base
            };
            Tile { color, filled, children: self.children.update(s, Some(child)), ..self }
        }
    }

    /// The children after merging each of them.
    pub open spec fn merged_children(self, min_rez: Option<int>) -> Seq<Option<Tile>>
        decreases self, 0int,
    {
        Seq::new(
            self.children.len(),
            |i: int|
                if 0 <= i < self.children.len() {
                    match self.children[i] {
                        Some(ch) => Some(ch.merged(min_rez)),
                        None => None,
                    }
                } else {
                    None
                },
        )
    }

    /// The tile after merging, bottom-up: a solid tile drops its children;
    /// otherwise the children are merged first, then the tile becomes solid
    /// in the mean colour of its solid children when it is no deeper than
    /// `min_rez` and has at least one solid child, or when all eight
    /// children are present and solid.
    pub open spec fn merged(self, min_rez: Option<int>) -> Tile
        decreases self, 1int,
    {
        if self.is_solid() {
            Tile { children: no_children(), ..self }
        } else {
            let ch = self.merged_children(min_rez);
            let n = solid_count(ch, ch.len() as int);
            let coarse = match min_rez {
                Some(r) => self.d <= r && n > 0,
                None => false,
            };
            if coarse || (all_present(ch) && present_solid(ch)) {
                Tile { color: solid_mean(ch), filled: self.d, children: no_children(), ..self }
            } else {
                Tile { children: ch, ..self }
            }
        }
    }

    /// Nothing is left to merge: no solid tile keeps children, and no other
    /// tile is either no deeper than `min_rez` with a solid child, or full
    /// of eight solid children.
    pub open spec fn settled(self, min_rez: Option<int>) -> bool
        decreases self,
    {
        let n = solid_count(self.children, self.children.len() as int);
        &&& self.is_solid() ==> forall|i: int| 0 <= i < self.children.len() ==> #[trigger] self.children[i] is None
        &&& !self.is_solid() ==> !(all_present(self.children) && present_solid(self.children))
        &&& !self.is_solid() ==> match min_rez {
            Some(r) => !(self.d <= r && n > 0),
            None => true,
        }
        &&& forall|i: int|
            0 <= i < self.children.len() && #[trigger] self.children[i] is Some ==> self.children[i]->0.settled(min_rez)
    }

    /// Number of records this tile takes when flattened: a solid tile is
    /// flattened alone, any other with all its present children.
    pub open spec fn count(self) -> nat
        decreases self, 0int,
    {
        if self.is_solid() {
            1
        } else {
            1 + prefix_count(self.children, self.children.len() as int)
        }
    }

    /// The record of this tile, flattened at index `base`.
    pub open spec fn record(self, base: int) -> TileRecord {
        TileRecord {
            filled: self.filled,
            color: self.color.packed(),
            children: if self.is_solid() {
                Seq::new(8, |j: int| 0int)
            } else {
                Seq::new(8, |j: int| link(self.children, j, base + 1))
            },
            d: self.d,
        }
    }

    /// The tile flattened in pre-order, its own record at index `base`.
    pub open spec fn encode(self, base: int) -> Seq<TileRecord>
        decreases self, 0int,
    {
        if self.is_solid() {
            seq![self.record(base)]
        } else {
            seq![self.record(base)] + encode_prefix(
                self.children,
                self.children.len() as int,
                base + 1,
            )
        }
    }
}

/// Records taken by the children in the first `n` slots.
pub open spec fn prefix_count(ch: Seq<Option<Tile>>, n: int) -> nat
    decreases ch, n,
{
    if n <= 0 || n > ch.len() {
        0
    } else {
        prefix_count(ch, n - 1) + match ch[n - 1] {
            Some(c) => c.count(),
            None => 0,
        }
    }
}

/// Index of the record of the child in slot `j`, when the children are
/// flattened from index `start` on; 0 when the slot is empty.
pub open spec fn link(ch: Seq<Option<Tile>>, j: int, start: int) -> int {
    if 0 <= j < ch.len() && ch[j] is Some {
        start + prefix_count(ch, j)
    } else {
        0
    }
}

/// The children in the first `n` slots flattened one after the other from
/// index `start` on.
pub open spec fn encode_prefix(ch: Seq<Option<Tile>>, n: int, start: int) -> Seq<TileRecord>
    decreases ch, n,
{
    if n <= 0 || n > ch.len() {
        seq![]
    } else {
        encode_prefix(ch, n - 1, start) + match ch[n - 1] {
            Some(c) => c.encode(start + prefix_count(ch, n - 1)),
            None => seq![],
        }
    }
}

/// A flattened tile takes as many records as `count` says.
pub proof fn lemma_encode_len(t: Tile, base: int)
    ensures
        t.encode(base).len() == t.count(),
    decreases t, 0int,
{
    if !t.is_solid() {
        lemma_encode_prefix_len(t.children, t.children.len() as int, base + 1);
    }
}

/// Flattened children take as many records as `prefix_count` says.
pub proof fn lemma_encode_prefix_len(ch: Seq<Option<Tile>>, n: int, start: int)
    ensures
        encode_prefix(ch, n, start).len() == prefix_count(ch, n),
    decreases ch, n,
{
    if n <= 0 || n > ch.len() {
    } else {
        lemma_encode_prefix_len(ch, n - 1, start);
        match ch[n - 1] {
            Some(c) => {
                lemma_encode_len(c, start + prefix_count(ch, n - 1));
            },
            None => {},
        }
    }
}

/// `prefix_count` grows with the number of slots counted.
pub proof fn lemma_prefix_count_mono(ch: Seq<Option<Tile>>, i: int, j: int)
    requires
        0 <= i <= j <= ch.len(),
    ensures
        prefix_count(ch, i) <= prefix_count(ch, j),
    decreases j - i,
{
    if i < j {
        lemma_prefix_count_mono(ch, i, j - 1);
    }
}

} // verus!
