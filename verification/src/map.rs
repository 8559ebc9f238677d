//! The octree of a chunk: its tiles on the CPU, and their flattened copy
//! that is uploaded for the GPU.
use vstd::prelude::*;
use crate::color::{Rgb, mean, CHANNEL_FULL};
use crate::geometry::{
    Point, MIN_DEPTH, valid_depth, child_corner, half_width, slot_index, slot_corner,
    lemma_child_corner, lemma_tile_size,
};
use crate::tile::{
    Tile, TileRecord, no_children, solid_count, solid_sum, all_present, present_solid,
    prefix_count, link, encode_prefix, lemma_prefix_count_mono, lemma_encode_prefix_len,
    lemma_encode_len,
};

verus! {

/// A flattened tile, laid out as the shader reads it.
#[derive(Clone, Copy, Debug, Default)]
pub struct GpuTileData {
    pub filled: i32,
    pub color: u32,
    pub children: [u32; 8],
    pub d: i32,
}

impl View for GpuTileData {
    type V = TileRecord;

    open spec fn view(&self) -> TileRecord {
        TileRecord {
            filled: self.filled as int,
            color: self.color as int,
            children: Seq::new(8, |j: int| self.children@[j] as int),
            d: self.d as int,
        }
    }
}

/// The views of a sequence of flattened tiles.
pub open spec fn records(v: Seq<GpuTileData>) -> Seq<TileRecord> {
    Seq::new(v.len(), |i: int| v[i]@)
}

/// A tile of the octree on the CPU; see `Tile` for what the fields mean.
#[derive(Debug)]
pub struct CpuTileData {
    pub filled: i32,
    pub color: Rgb,
    pub children: Vec<Option<Box<CpuTileData>>>,
    pub position: Point,
    pub d: i32,
}

pub open spec fn child_view(c: Option<Box<CpuTileData>>) -> Option<Tile>
    decreases c,
{
    match c {
        Some(b) => Some(tile_view(*b)),
        None => None,
    }
}

/// The views of a sequence of child slots.
pub open spec fn kids(v: Seq<Option<Box<CpuTileData>>>) -> Seq<Option<Tile>> {
    Seq::new(v.len(), |i: int| child_view(v[i]))
}

/// `Some(r)` as a mathematical integer.
pub open spec fn opt_int(m: Option<i32>) -> Option<int> {
    match m {
        Some(r) => Some(r as int),
        None => None,
    }
}

pub open spec fn tile_view(n: CpuTileData) -> Tile
    decreases n,
{
    Tile {
        filled: n.filled as int,
        color: n.color,
        children: Seq::new(
            n.children@.len(),
            |i: int|
                if 0 <= i < n.children@.len() {
                    child_view(n.children@[i])
                } else {
                    None
                },
        ),
        position: n.position,
        d: n.d as int,
    }
}

impl View for CpuTileData {
    type V = Tile;

    open spec fn view(&self) -> Tile {
        tile_view(*self)
    }
}

/// Eight empty child slots.
fn empty_children() -> (v: Vec<Option<Box<CpuTileData>>>)
    ensures
        v@.len() == 8,
        forall|i: int| 0 <= i < 8 ==> v@[i] is None,
{
    let mut v: Vec<Option<Box<CpuTileData>>> = Vec::new();
    let mut i: usize = 0;
    while i < 8
        invariant
            i <= 8,
            v@.len() == i,
            forall|j: int| 0 <= j < i ==> v@[j] is None,
        decreases 8 - i,
    {
        v.push(None);
        i = i + 1;
    }
    v
}

impl Clone for CpuTileData {
    /// A deep copy of the tile and all its descendants.
    fn clone(&self) -> (res: Self)
        ensures
            res@ == self@,
        decreases self,
    {
        let mut children: Vec<Option<Box<CpuTileData>>> = Vec::new();
        let mut i: usize = 0;
        while i < self.children.len()
            invariant
                i <= self.children@.len(),
                children@.len() == i,
                forall|j: int| 0 <= j < i ==> child_view(#[trigger] children@[j]) == child_view(self.children@[j]),
            decreases self.children@.len() - i,
        {
            let c = match &self.children[i] {
                Some(b) => Some(Box::new((**b).clone())),
                None => None,
            };
            children.push(c);
            i = i + 1;
        }
        let res = CpuTileData {
            filled: self.filled,
            color: self.color,
            children,
            position: self.position,
            d: self.d,
        };
        assert(res@.children =~= self@.children);
        res
    }
}

impl CpuTileData {
    /// A tile with no children.
    fn new_leaf(filled: i32, color: Rgb, position: Point, d: i32) -> (t: CpuTileData)
        ensures
            t@ == Tile::fresh(filled as int, color, position, d as int),
    {
        let t = CpuTileData { filled, color, children: empty_children(), position, d };
        assert(t@.children =~= no_children());
        t
    }

    /// Writes `color` at depth `deph` at the point `tar_pos`, creating the
    /// missing tiles on the way down.
    fn insert(&mut self, tar_pos: Point, deph: i32, color: Rgb)
        requires
            old(self)@.wf(),
            MIN_DEPTH <= deph <= old(self).d,
            color.valid(),
        ensures
            final(self)@ == old(self)@.inserted(tar_pos, deph as int, color),
            final(self)@.wf(),
        decreases old(self).d - deph,
    {
        let ghost old_view = self@;
        if self.d == deph {
            self.color = color;
            self.filled = self.d;
            assert(self@.children =~= old_view.children);
            return;
        }
        if self.filled < deph {
            self.color = color;
        }
        if self.filled < deph {
            self.filled = deph;
        }
        let w = half_width(self.d);
        let id = slot_index(self.position, self.d, w, tar_pos);
        let mut slot: Option<Box<CpuTileData>> = None;
        std::mem::swap(&mut slot, &mut self.children[id]);
        let mut child = match slot {
            Some(b) => b,
            None => {
                let corner = slot_corner(self.position, self.d, w, id);
                proof {
                    lemma_child_corner(self.position, self.d as int, id as int);
                }
                Box::new(CpuTileData::new_leaf(deph, color, corner, self.d - 1))
            },
        };
        assert(child@ == (match old_view.children[id as int] {
            Some(ch) => ch,
            None => Tile::fresh(deph as int, color, child_corner(old_view.position, old_view.d, id as int), old_view.d - 1),
        }));
        assert(child@.wf()) by {
            if old_view.children[id as int] is None {
                lemma_child_corner(old_view.position, old_view.d, id as int);
                lemma_tile_size(old_view.d - 1);
            }
        }
        child.insert(tar_pos, deph, color);
        self.children.set(id, Some(child));
        assert(self@.children =~= old_view.children.update(id as int, Some(child@)));
    }

    /// Merges the tree bottom-up; see `Tile::merged`.
    fn optimize(&mut self, min_rez: Option<i32>)
        requires
            old(self)@.wf(),
        ensures
            final(self)@ == old(self)@.merged(opt_int(min_rez)),
            final(self)@.wf(),
        decreases old(self).d - MIN_DEPTH,
    {
        let ghost old_view = self@;
        let ghost m = opt_int(min_rez);
        if self.filled == self.d {
            self.children = empty_children();
            assert(self@.children =~= no_children());
            return;
        }
        let ghost ch = old_view.merged_children(m);
        let mut i: usize = 0;
        while i < 8
            invariant
                old_view == old(self)@,
                old_view.wf(),
                !old_view.is_solid(),
                ch == old_view.merged_children(m),
                m == opt_int(min_rez),
                0 <= i <= 8,
                self.children@.len() == 8,
                self.filled == old(self).filled,
                self.color == old(self).color,
                self.position == old(self).position,
                self.d == old(self).d,
                forall|j: int| 0 <= j < i ==> #[trigger] kids(self.children@)[j] == ch[j],
                forall|j: int| i <= j < 8 ==> #[trigger] kids(self.children@)[j] == old_view.children[j],
                forall|j: int| 0 <= j < i && kids(self.children@)[j] is Some ==> {
                    let c = #[trigger] kids(self.children@)[j]->0;
                    &&& c.wf()
                    &&& c.d == old_view.d - 1
                    &&& c.position == child_corner(old_view.position, old_view.d, j)
                },
            decreases 8 - i,
        {
            let ghost before = self.children@;
            assert(kids(before)[i as int] == child_view(before[i as int]));
            let mut slot: Option<Box<CpuTileData>> = None;
            std::mem::swap(&mut slot, &mut self.children[i]);
            assert(slot == before[i as int]);
            if slot.is_some() {
                let mut c = slot.unwrap();
                assert(old_view.children[i as int] == Some(c@));
                c.optimize(min_rez);
                self.children.set(i, Some(c));
                assert(ch[i as int] == Some(c@));
            } else {
                assert(old_view.children[i as int] is None);
                self.children.set(i, None);
                assert(ch[i as int] is None);
            }
            assert(forall|j: int| 0 <= j < 8 && j != i ==> self.children@[j] == before[j]);
            assert(kids(self.children@)[i as int] == ch[i as int]);
            assert forall|j: int| 0 <= j < 8 && j != i implies #[trigger] kids(self.children@)[j] == kids(before)[j] by {
                assert(self.children@[j] == before[j]);
            }
            i = i + 1;
        }
        assert(kids(self.children@) =~= ch);
        assert(self@.children =~= ch);
        if let Some(r) = min_rez {
            if self.d <= r {
                let (n, sr, sg, sb) = solid_stats(&self.children);
                if n > 0 {
                    self.color = mean(sr, sg, sb, n);
                    self.filled = self.d;
                    self.children = empty_children();
                    assert(self@.children =~= no_children());
                    return;
                }
            }
        }
        let a = all_children_present(&self.children);
        let b = present_children_solid(&self.children);
        if a && b {
            let (n, sr, sg, sb) = solid_stats(&self.children);
            self.color = mean(sr, sg, sb, n);
            self.filled = self.d;
            self.children = empty_children();
            assert(self@.children =~= no_children());
        }
    }
}

impl CpuTileData {
    /// Flattens the tile in pre-order: its own record goes at index
    /// `*global_index`, then each present child's records (unless the tile
    /// is solid). Returns the tile's index.
    fn serialize(
        &self,
        global_index: &mut u32,
        gpu_data: &mut Vec<GpuTileData>,
        indexed: &mut Vec<u32>,
    ) -> (r: u32)
        requires
            self@.wf(),
            old(gpu_data)@.len() == *old(global_index),
            *old(global_index) + self@.count() <= u32::MAX,
        ensures
            r == *old(global_index),
            *final(global_index) == *old(global_index) + self@.count(),
            final(gpu_data)@.len() == *final(global_index),
            records(final(gpu_data)@) == records(old(gpu_data)@) + self@.encode(
                *old(global_index) as int,
            ),
            final(indexed)@ == old(indexed)@ + Seq::new(
                self@.count(),
                |k: int| (*old(global_index) + k) as u32,
            ),
        decreases self.d - MIN_DEPTH,
    {
        let ghost base = *global_index as int;
        let ghost old_records = records(gpu_data@);
        let ghost old_indexed = indexed@;
        let ghost ch = self@.children;
        let index = *global_index;
        *global_index += 1;
        gpu_data.push(GpuTileData { filled: 0, color: 0, children: [0u32; 8], d: 0 });
        indexed.push(index);
        let mut indexes = [0u32; 8];
        proof {
            lemma_prefix_count_mono(ch, 0, 8);
            assert(records(gpu_data@) =~= old_records + seq![gpu_data@[base]@] + encode_prefix(ch, 0, base + 1));
            assert(indexed@ =~= old_indexed + Seq::new(1 + prefix_count(ch, 0), |k: int| (base + k) as u32));
        }
        if self.filled != self.d {
            let mut i: usize = 0;
            while i < 8
                invariant
                    self@.wf(),
                    !self@.is_solid(),
                    ch == self@.children,
                    base == index,
                    0 <= i <= 8,
                    base + self@.count() <= u32::MAX,
                    *global_index == base + 1 + prefix_count(ch, i as int),
                    gpu_data@.len() == *global_index,
                    records(gpu_data@) == old_records + seq![gpu_data@[base]@] + encode_prefix(ch, i as int, base + 1),
                    old_records.len() == base,
                    indexed@ == old_indexed + Seq::new(1 + prefix_count(ch, i as int), |k: int| (base + k) as u32),
                    forall|j: int| 0 <= j < i ==> indexes@[j] as int == link(ch, j, base + 1),
                    forall|j: int| i <= j < 8 ==> indexes@[j] == 0,
                decreases 8 - i,
            {
                proof {
                    lemma_prefix_count_mono(ch, i as int + 1, 8);
                }
                assert(ch[i as int] == child_view(self.children@[i as int]));
                match &self.children[i] {
                    Some(child) => {
                        let ghost gi = *global_index;
                        let ghost recs = records(gpu_data@);
                        let ghost idx = indexed@;
                        proof {
                            lemma_encode_prefix_len(ch, i as int, base + 1);
                        }
                        let k = child.serialize(global_index, gpu_data, indexed);
                        indexes[i] = k;
                        proof {
                            assert(records(gpu_data@) =~= old_records + seq![gpu_data@[base]@] + encode_prefix(ch, i as int + 1, base + 1));
                            assert(indexed@ =~= old_indexed + Seq::new(1 + prefix_count(ch, i as int + 1), |k: int| (base + k) as u32));
                        }
                    },
                    None => {
                        proof {
                            assert(encode_prefix(ch, i as int + 1, base + 1) =~= encode_prefix(ch, i as int, base + 1));
                        }
                    },
                }
                i = i + 1;
            }
        }
        let ghost tail = if self@.is_solid() {
            Seq::<TileRecord>::empty()
        } else {
            encode_prefix(ch, 8, base + 1)
        };
        assert(records(gpu_data@) == old_records + seq![gpu_data@[base]@] + tail);
        let ncolor = self.color.pack();
        let rec = GpuTileData { filled: self.filled, color: ncolor, children: indexes, d: self.d };
        assert(rec@.children =~= self@.record(base).children);
        assert(rec@ == self@.record(base));
        let ghost before_set = gpu_data@;
        gpu_data.set(index as usize, rec);
        assert(records(gpu_data@) =~= records(before_set).update(base, rec@));
        proof {
            lemma_encode_len(self@, base);
            assert(records(gpu_data@) =~= old_records + self@.encode(base));
            assert(indexed@ =~= old_indexed + Seq::new(self@.count(), |k: int| (base + k) as u32));
        }
        index
    }
}

impl CpuTileData {
    /// Number of records the tile takes when flattened, or `None` when that
    /// number does not fit in a `u32`.
    fn count_tiles(&self) -> (r: Option<u32>)
        requires
            self@.wf(),
        ensures
            match r {
                Some(n) => n == self@.count(),
                None => self@.count() > u32::MAX,
            },
        decreases self.d - MIN_DEPTH,
    {
        if self.filled == self.d {
            return Some(1);
        }
        let ghost ch = self@.children;
        let mut total: u32 = 1;
        let mut i: usize = 0;
        while i < 8
            invariant
                self@.wf(),
                !self@.is_solid(),
                ch == self@.children,
                0 <= i <= 8,
                total == 1 + prefix_count(ch, i as int),
            decreases 8 - i,
        {
            assert(ch[i as int] == child_view(self.children@[i as int]));
            match &self.children[i] {
                Some(child) => {
                    match child.count_tiles() {
                        Some(k) => {
                            match total.checked_add(k) {
                                Some(t) => {
                                    total = t;
                                },
                                None => {
                                    proof {
                                        lemma_prefix_count_mono(ch, i as int + 1, 8);
                                    }
                                    return None;
                                },
                            }
                        },
                        None => {
                            proof {
                                lemma_prefix_count_mono(ch, i as int + 1, 8);
                            }
                            return None;
                        },
                    }
                },
                None => {},
            }
            i = i + 1;
        }
        Some(total)
    }
}

/// Number of solid children among the slots, and the sums of their channels.
fn solid_stats(children: &Vec<Option<Box<CpuTileData>>>) -> (r: (u32, u32, u32, u32))
    requires
        children@.len() == 8,
        forall|i: int| 0 <= i < 8 && #[trigger] kids(children@)[i] is Some ==> kids(children@)[i]->0.color.valid(),
    ensures
        r.0 == solid_count(kids(children@), 8),
        r.1 == solid_sum(kids(children@), 0, 8),
        r.2 == solid_sum(kids(children@), 1, 8),
        r.3 == solid_sum(kids(children@), 2, 8),
        r.1 <= CHANNEL_FULL * r.0,
        r.2 <= CHANNEL_FULL * r.0,
        r.3 <= CHANNEL_FULL * r.0,
        all_present(kids(children@)) && present_solid(kids(children@)) ==> r.0 == 8,
{
    let ghost ch = kids(children@);
    let mut n: u32 = 0;
    let mut sr: u32 = 0;
    let mut sg: u32 = 0;
    let mut sb: u32 = 0;
    let mut i: usize = 0;
    while i < 8
        invariant
            ch == kids(children@),
            children@.len() == 8,
            0 <= i <= 8,
            n <= i,
            n == solid_count(ch, i as int),
            sr == solid_sum(ch, 0, i as int),
            sg == solid_sum(ch, 1, i as int),
            sb == solid_sum(ch, 2, i as int),
            forall|j: int| 0 <= j < 8 && #[trigger] ch[j] is Some ==> ch[j]->0.color.valid(),
            sr <= CHANNEL_FULL * n,
            sg <= CHANNEL_FULL * n,
            sb <= CHANNEL_FULL * n,
            (forall|j: int| 0 <= j < i ==> #[trigger] ch[j] is Some && ch[j]->0.is_solid()) ==> n == i,
        decreases 8 - i,
    {
        assert(ch[i as int] == child_view(children@[i as int]));
        match &children[i] {
            Some(c) => {
                if c.filled == c.d {
                    n = n + 1;
                    assert(ch[i as int] == Some(c@));
                    sr = sr + c.color.r;
                    sg = sg + c.color.g;
                    sb = sb + c.color.b;
                }
            },
            None => {},
        }
        i = i + 1;
    }
    (n, sr, sg, sb)
}

/// Whether every slot holds a child.
fn all_children_present(children: &Vec<Option<Box<CpuTileData>>>) -> (a: bool)
    ensures
        a == all_present(kids(children@)),
{
    let mut i: usize = 0;
    while i < children.len()
        invariant
            0 <= i <= children@.len(),
            forall|j: int| 0 <= j < i ==> #[trigger] kids(children@)[j] is Some,
        decreases children@.len() - i,
    {
        if children[i].is_none() {
            assert(kids(children@)[i as int] is None);
            return false;
        }
        i = i + 1;
    }
    true
}

/// Whether every present child is solid.
fn present_children_solid(children: &Vec<Option<Box<CpuTileData>>>) -> (b: bool)
    ensures
        b == present_solid(kids(children@)),
{
    let mut i: usize = 0;
    while i < children.len()
        invariant
            0 <= i <= children@.len(),
            forall|j: int| 0 <= j < i && #[trigger] kids(children@)[j] is Some ==> kids(children@)[j]->0.is_solid(),
        decreases children@.len() - i,
    {
        match &children[i] {
            Some(c) => {
                if c.filled != c.d {
                    assert(kids(children@)[i as int] == Some(c@));
                    return false;
                }
            },
            None => {},
        }
        i = i + 1;
    }
    true
}

} // verus!

verus! {

/// The octree of one chunk, and its last flattening.
///
/// Depths range over `MIN_DEPTH ..= MAX_DEPTH` and points are 32.32 fixed
/// point (see `geometry`): a chunk's root and every write stay within that
/// range, the finest tile having an edge of `2^-32` units.
#[derive(Debug)]
pub struct ChunkData {
    cpu_data: Box<CpuTileData>,
    gpu_data: Vec<GpuTileData>,
}

/// The value of a `filled` field that no write has reached yet.
pub const UNFILLED: i32 = -1000;

impl ChunkData {
    /// The octree, as a mathematical value.
    pub closed spec fn tree(&self) -> Tile {
        (*self.cpu_data)@
    }

    /// The flattened tiles, as the GPU reads them.
    pub closed spec fn tiles(&self) -> Seq<TileRecord> {
        records(self.gpu_data@)
    }

    /// The octree is well formed; every chunk keeps this.
    #[verifier::type_invariant]
    pub open spec fn wf(&self) -> bool {
        self.tree().wf()
    }

    /// A root that stands in while the real one is being changed.
    fn placeholder_root() -> (b: Box<CpuTileData>)
        ensures
            (*b)@.wf(),
    {
        proof {
            lemma_tile_size(0);
        }
        Box::new(CpuTileData::new_leaf(UNFILLED, Rgb::zero(), (0, 0, 0), 0))
    }

    /// An empty chunk whose root tile has depth `d`, with its corner at the origin.
    pub fn new(d: i32) -> (c: Self)
        requires
            valid_depth(d as int),
        ensures
            c.tree() == Tile::fresh(UNFILLED as int, Rgb { r: 0, g: 0, b: 0 }, (0, 0, 0), d as int),
            c.tiles() == Seq::<TileRecord>::empty(),
    {
        proof {
            lemma_tile_size(d as int);
        }
        let c = ChunkData {
            cpu_data: Box::new(CpuTileData::new_leaf(UNFILLED, Rgb::zero(), (0, 0, 0), d)),
            gpu_data: Vec::new(),
        };
        assert(c.tiles() =~= Seq::<TileRecord>::empty());
        c
    }

    /// Depth of the root tile.
    pub fn depth(&self) -> (d: i32)
        ensures
            d == self.tree().d,
    {
        self.cpu_data.d
    }

    /// The flattened tiles, as last produced by `serialize`.
    pub fn gpu_tiles(&self) -> (v: &Vec<GpuTileData>)
        ensures
            records(v@) == self.tiles(),
    {
        &self.gpu_data
    }

    /// Writes `color` at depth `deph` at the point `tar_pos`.
    pub fn insert_value(&mut self, tar_pos: Point, deph: i32, color: Rgb) -> (r: Result<(), ()>)
        requires
            MIN_DEPTH <= deph <= old(self).tree().d,
            color.valid(),
        ensures
            r is Ok,
            final(self).tree() == old(self).tree().inserted(tar_pos, deph as int, color),
            final(self).tiles() == old(self).tiles(),
    {
        proof {
            use_type_invariant(&*self);
        }
        let mut root = Self::placeholder_root();
        std::mem::swap(&mut root, &mut self.cpu_data);
        root.insert(tar_pos, deph, color);
        self.cpu_data = root;
        Ok(())
    }

    /// A copy of the first solid tile on the path towards `tar_pos`, or
    /// `Err` when the path runs out of children before reaching one.
    pub fn _retrieve_value(&mut self, tar_pos: Point) -> (r: Result<Box<CpuTileData>, ()>)
        ensures
            *final(self) == *old(self),
            match r {
                Ok(t) => old(self).tree().lookup(tar_pos) == Some((*t)@),
                Err(_) => old(self).tree().lookup(tar_pos) is None,
            },
    {
        proof {
            use_type_invariant(&*self);
        }
        let mut cur_tile: &CpuTileData = &self.cpu_data;
        loop
            invariant
                cur_tile@.wf(),
                cur_tile@.lookup(tar_pos) == old(self).tree().lookup(tar_pos),
                *self == *old(self),
            ensures
                old(self).tree().lookup(tar_pos) is None,
            decreases cur_tile.d - MIN_DEPTH,
        {
            if cur_tile.filled == cur_tile.d {
                return Ok(Box::new(cur_tile.clone()));
            }
            if cur_tile.d == MIN_DEPTH {
                // A tile of the smallest depth has no children.
                assert(cur_tile@.children[cur_tile@.slot(tar_pos)] is None);
                break;
            }
            let w = half_width(cur_tile.d);
            let id = slot_index(cur_tile.position, cur_tile.d, w, tar_pos);
            match &cur_tile.children[id] {
                Some(c) => {
                    assert(cur_tile@.children[id as int] == child_view(cur_tile.children@[id as int]));
                    cur_tile = c;
                },
                None => {
                    break;
                },
            }
        }
        Err(())
    }

    /// Merges the octree bottom-up; see `Tile::merged`.
    pub fn optimize(&mut self, min_rez: Option<i32>)
        ensures
            final(self).tree() == old(self).tree().merged(opt_int(min_rez)),
            final(self).tiles() == old(self).tiles(),
    {
        proof {
            use_type_invariant(&*self);
        }
        let mut root = Self::placeholder_root();
        std::mem::swap(&mut root, &mut self.cpu_data);
        root.optimize(min_rez);
        self.cpu_data = root;
    }

    /// Number of records that `serialize` produces, or `None` when that
    /// number does not fit in a `u32`.
    pub fn tile_count(&self) -> (r: Option<u32>)
        ensures
            match r {
                Some(n) => n == self.tree().count(),
                None => self.tree().count() > u32::MAX,
            },
    {
        proof {
            use_type_invariant(self);
        }
        self.cpu_data.count_tiles()
    }

    /// Flattens the octree in pre-order for the GPU; the root's record comes first.
    pub fn serialize(&mut self)
        requires
            old(self).tree().count() <= u32::MAX,
        ensures
            final(self).tree() == old(self).tree(),
            final(self).tiles() == old(self).tree().encode(0),
    {
        proof {
            use_type_invariant(&*self);
        }
        let mut tile_data: Vec<GpuTileData> = Vec::new();
        let mut indexes: Vec<u32> = Vec::new();
        let mut g_index: u32 = 0;
        let _serialized = self.cpu_data.serialize(&mut g_index, &mut tile_data, &mut indexes);
        assert(records(Seq::<GpuTileData>::empty()) =~= Seq::<TileRecord>::empty());
        assert(records(tile_data@) =~= self.tree().encode(0));
        self.gpu_data = tile_data;
    }
}

impl Clone for ChunkData {
    /// A deep copy of the chunk.
    fn clone(&self) -> (res: Self)
        ensures
            res.tree() == self.tree(),
            res.tiles() == self.tiles(),
    {
        proof {
            use_type_invariant(self);
        }
        let res = ChunkData {
            cpu_data: Box::new((*self.cpu_data).clone()),
            gpu_data: self.gpu_data.clone(),
        };
        assert(res.tiles() =~= self.tiles());
        res
    }
}

} // verus!
