//! Properties of the octree that span its operations: what a lookup gives
//! back after a write, what writing and merging keep, and how the flattened
//! array links its records.
use vstd::prelude::*;
use crate::color::{Rgb, CHANNEL_FULL, lemma_mean_channels};
use crate::geometry::{
    Point, MIN_DEPTH, child_corner, tile_size, cube_contains, lemma_child_corner, lemma_tile_size, lemma_slot_offsets,
};
use crate::tile::{
    Tile, TileRecord, no_children, all_present, present_solid, prefix_count, encode_prefix,
    solid_count, solid_sum,
    lemma_encode_len, lemma_encode_prefix_len, lemma_prefix_count_mono,
};

verus! {

/// Writing keeps a tile's depth and corner.
pub proof fn lemma_inserted_frame(t: Tile, p: Point, deph: int, c: Rgb)
    ensures
        t.inserted(p, deph, c).d == t.d,
        t.inserted(p, deph, c).position == t.position,
{
}

/// The tile a write starts from below a tile: the child on the path, or a
/// new one where the slot is empty.
pub open spec fn insertion_base(t: Tile, p: Point, deph: int, c: Rgb) -> Tile {
    let s = t.slot(p);
    match t.children[s] {
        Some(ch) => ch,
        None => Tile::fresh(deph, c, child_corner(t.position, t.d, s), t.d - 1),
    }
}

/// The tile a write starts from below a well-formed tile is well formed
/// and one level down.
pub proof fn lemma_insertion_base(t: Tile, p: Point, deph: int, c: Rgb)
    requires
        t.wf(),
        MIN_DEPTH <= deph < t.d,
        c.valid(),
    ensures
        insertion_base(t, p, deph, c).wf(),
        insertion_base(t, p, deph, c).d == t.d - 1,
        0 <= t.slot(p) < 8,
        t.children[t.slot(p)] is Some ==> insertion_base(t, p, deph, c) == t.children[t.slot(p)]->0,
{
    let s = t.slot(p);
    if t.children[s] is None {
        lemma_child_corner(t.position, t.d, s);
        lemma_tile_size(t.d - 1);
        let f = Tile::fresh(deph, c, child_corner(t.position, t.d, s), t.d - 1);
        assert(f.children =~= no_children());
    }
}

/// Writing keeps a tree well formed.
pub proof fn lemma_inserted_wf(t: Tile, p: Point, deph: int, c: Rgb)
    requires
        t.wf(),
        MIN_DEPTH <= deph <= t.d,
        c.valid(),
    ensures
        t.inserted(p, deph, c).wf(),
    decreases t.d - deph,
{
    if t.d > deph {
        let s = t.slot(p);
        let base = insertion_base(t, p, deph, c);
        lemma_insertion_base(t, p, deph, c);
        lemma_inserted_wf(base, p, deph, c);
        lemma_inserted_frame(base, p, deph, c);
        let r = t.inserted(p, deph, c);
        assert forall|i: int| 0 <= i < 8 && #[trigger] r.children[i] is Some implies r.child_placed(i)
            && r.children[i]->0.wf() by {
            if i != s {
                assert(r.children[i] == t.children[i]);
            }
        }
    }
}

/// A lookup finds a solid tile no larger than the tile it starts from.
pub proof fn lemma_lookup_depth(t: Tile, p: Point)
    requires
        t.wf(),
    ensures
        t.lookup(p) matches Some(r) ==> r.is_solid() && r.d <= t.d,
    decreases t,
{
    if !t.is_solid() {
        let s = t.slot(p);
        if 0 <= s < t.children.len() && t.children[s] is Some {
            lemma_lookup_depth(t.children[s]->0, p);
        }
    }
}

/// The child on the path towards a point of a tile's cube holds the point.
pub proof fn lemma_slot_contains(t: Tile, p: Point)
    requires
        t.wf(),
        t.d > MIN_DEPTH,
        t.contains(p),
    ensures
        0 <= t.slot(p) < 8,
        cube_contains(child_corner(t.position, t.d, t.slot(p)), t.d - 1, p),
{
    lemma_tile_size(t.d);
    lemma_slot_offsets(t.slot(p), tile_size(t.d - 1));
}

/// A lookup from a tile whose cube holds `p` finds a tile whose cube holds `p`.
pub proof fn lemma_lookup_contains(t: Tile, p: Point)
    requires
        t.wf(),
        t.contains(p),
    ensures
        t.lookup(p) matches Some(r) ==> r.contains(p),
    decreases t,
{
    if !t.is_solid() {
        let s = t.slot(p);
        if 0 <= s < t.children.len() && t.children[s] is Some {
            lemma_slot_contains(t, p);
            lemma_lookup_contains(t.children[s]->0, p);
        }
    }
}

/// What a lookup gives back after a write: the point is covered by a solid
/// tile. When a solid tile larger than the write already covered the point,
/// the lookup still finds that tile (same depth, corner and colour);
/// otherwise it finds the written tile, at the written depth and in the
/// written colour.
pub proof fn lemma_lookup_after_insert(t: Tile, p: Point, deph: int, c: Rgb)
    requires
        t.wf(),
        MIN_DEPTH <= deph <= t.d,
        c.valid(),
    ensures
        ({
            let r = t.inserted(p, deph, c).lookup(p);
            &&& r is Some
            &&& r->0.is_solid()
            &&& match t.lookup(p) {
                Some(r0) => if r0.d > deph {
                    r->0.d == r0.d && r->0.color == r0.color && r->0.position == r0.position
                } else {
                    r->0.d == deph && r->0.color == c
                },
                None => r->0.d == deph && r->0.color == c,
            }
        }),
    decreases t.d - deph,
{
    lemma_lookup_depth(t, p);
    if t.d > deph && !t.is_solid() {
        let s = t.slot(p);
        let base = insertion_base(t, p, deph, c);
        lemma_insertion_base(t, p, deph, c);
        lemma_lookup_after_insert(base, p, deph, c);
        lemma_inserted_frame(base, p, deph, c);
        lemma_inserted_frame(t, p, deph, c);
        let t2 = t.inserted(p, deph, c);
        assert(!t2.is_solid());
        assert(t2.slot(p) == s);
        assert(t2.children[s] == Some(base.inserted(p, deph, c)));
        assert(t2.lookup(p) == base.inserted(p, deph, c).lookup(p));
        if t.children[s] is None {
            assert(base.children =~= no_children());
            assert(base.lookup(p) == if base.is_solid() {
                Some(base)
            } else {
                None
            });
        }
    }
}

/// A write leaves the rest of the tree alone: when the solid tile that a
/// lookup of `q` finds is at least as large as the write and does not hold
/// the written point (itself inside the root's cube), the same lookup after
/// the write finds the very same tile.
pub proof fn lemma_insert_elsewhere(t: Tile, p: Point, q: Point, deph: int, c: Rgb)
    requires
        t.wf(),
        MIN_DEPTH <= deph <= t.d,
        c.valid(),
        t.contains(p),
        t.lookup(q) matches Some(r0) && r0.d >= deph && !r0.contains(p),
    ensures
        t.inserted(p, deph, c).lookup(q) == t.lookup(q),
    decreases t,
{
    let r0 = t.lookup(q)->0;
    if t.is_solid() {
        assert(r0 == t);
    } else {
        let sq = t.slot(q);
        let sp = t.slot(p);
        let ch = t.children[sq]->0;
        lemma_lookup_depth(ch, q);
        assert(t.d > deph);
        lemma_inserted_frame(t, p, deph, c);
        let t2 = t.inserted(p, deph, c);
        assert(!t2.is_solid());
        assert(t2.slot(q) == sq);
        if sq == sp {
            lemma_insertion_base(t, p, deph, c);
            lemma_slot_contains(t, p);
            lemma_insert_elsewhere(ch, p, q, deph, c);
        } else {
            assert(t2.children[sq] == t.children[sq]);
        }
    }
}

/// A write never uncovers a point: a point that a lookup found a solid
/// tile for is still covered after writing anywhere.
pub proof fn lemma_insert_keeps_covered(t: Tile, p: Point, q: Point, deph: int, c: Rgb)
    requires
        t.wf(),
        MIN_DEPTH <= deph <= t.d,
        c.valid(),
        t.lookup(q) is Some,
    ensures
        t.inserted(p, deph, c).lookup(q) is Some,
    decreases t.d - deph,
{
    if t.d > deph && !t.is_solid() {
        let sp = t.slot(p);
        let sq = t.slot(q);
        let base = insertion_base(t, p, deph, c);
        lemma_insertion_base(t, p, deph, c);
        lemma_inserted_frame(base, p, deph, c);
        lemma_inserted_frame(t, p, deph, c);
        if sp == sq {
            lemma_insert_keeps_covered(base, p, q, deph, c);
        } else {
            assert(t.inserted(p, deph, c).children[sq] == t.children[sq]);
        }
    }
}

/// Writing the same colour at the same depth and point twice gives the same
/// tree as writing it once.
pub proof fn lemma_insert_idempotent(t: Tile, p: Point, deph: int, c: Rgb)
    requires
        t.wf(),
        MIN_DEPTH <= deph <= t.d,
        c.valid(),
    ensures
        t.inserted(p, deph, c).inserted(p, deph, c) == t.inserted(p, deph, c),
    decreases t.d - deph,
{
    let t1 = t.inserted(p, deph, c);
    lemma_inserted_frame(t, p, deph, c);
    if t.d > deph {
        let s = t.slot(p);
        let base = insertion_base(t, p, deph, c);
        lemma_insertion_base(t, p, deph, c);
        lemma_inserted_frame(base, p, deph, c);
        lemma_insert_idempotent(base, p, deph, c);
        let b1 = base.inserted(p, deph, c);
        assert(t1.slot(p) == s);
        assert(t1.children[s] == Some(b1));
        assert(insertion_base(t1, p, deph, c) == b1);
        let t2 = t1.inserted(p, deph, c);
        assert(t2.children =~= t1.children);
    }
}

/// Merging keeps a tile's depth and corner.
pub proof fn lemma_merged_frame(t: Tile, m: Option<int>)
    ensures
        t.merged(m).d == t.d,
        t.merged(m).position == t.position,
{
}

/// After merging, nothing is left to merge.
pub proof fn lemma_merged_settled(t: Tile, m: Option<int>)
    ensures
        t.merged(m).settled(m),
    decreases t,
{
    if !t.is_solid() {
        let ch = t.merged_children(m);
        assert forall|i: int| 0 <= i < ch.len() && #[trigger] ch[i] is Some implies ch[i]->0.settled(m) by {
            lemma_merged_settled(t.children[i]->0, m);
        }
    }
}

/// Merging a merged tree changes nothing.
pub proof fn lemma_merged_idempotent(t: Tile, m: Option<int>)
    ensures
        t.merged(m).merged(m) == t.merged(m),
    decreases t,
{
    let r = t.merged(m);
    if t.is_solid() {
        assert(r.merged(m).children =~= r.children);
    } else {
        let ch = t.merged_children(m);
        assert forall|i: int| 0 <= i < ch.len() && #[trigger] ch[i] is Some implies ch[i]->0.merged(m) == ch[i]->0 by {
            lemma_merged_idempotent(t.children[i]->0, m);
        }
        if r.is_solid() {
            assert(r.merged(m).children =~= r.children);
        } else {
            assert(r.children == ch);
            assert(r.merged_children(m) =~= ch);
        }
    }
}

/// Merging never uncovers a point, whatever the coarsest resolution.
pub proof fn lemma_merge_never_uncovers(t: Tile, p: Point, m: Option<int>)
    requires
        t.wf(),
        t.lookup(p) is Some,
    ensures
        t.merged(m).lookup(p) is Some,
    decreases t,
{
    if !t.is_solid() {
        let s = t.slot(p);
        let ch = t.merged_children(m);
        let r = t.merged(m);
        let c = t.children[s]->0;
        lemma_merge_never_uncovers(c, p, m);
        lemma_merged_frame(c, m);
        assert(ch[s] == Some(c.merged(m)));
        if !r.is_solid() {
            assert(r.children == ch);
            assert(r.slot(p) == s);
        }
    }
}

/// Merging without a coarsest resolution keeps exactly the points covered
/// by solid tiles: a lookup finds a solid tile after merging if and only if
/// it found one before.
pub proof fn lemma_merge_keeps_coverage(t: Tile, p: Point)
    requires
        t.wf(),
    ensures
        t.lookup(p) is Some <==> t.merged(None).lookup(p) is Some,
    decreases t,
{
    if !t.is_solid() {
        let s = t.slot(p);
        let ch = t.merged_children(None);
        let r = t.merged(None);
        if t.children[s] is Some {
            let c = t.children[s]->0;
            lemma_merge_keeps_coverage(c, p);
            lemma_merged_frame(c, None);
            assert(ch[s] == Some(c.merged(None)));
            if c.merged(None).is_solid() {
                assert(c.merged(None).lookup(p) is Some);
            }
        } else {
            assert(ch[s] is None);
        }
        if all_present(ch) && present_solid(ch) {
            assert(ch[s] is Some);
            assert(t.children[s] is Some);
        } else {
            assert(r.children == ch);
            assert(r.slot(p) == s);
        }
    }
}

/// Every link of a flattened array `s`, whose first record sits at index
/// `base`, points to a later record of the array, one level deeper.
pub open spec fn links_forward(s: Seq<TileRecord>, base: int) -> bool {
    forall|k: int, j: int|
        0 <= k < s.len() && 0 <= j < 8 && #[trigger] s[k].children[j] != 0 ==> {
            let l = s[k].children[j];
            &&& base + k < l < base + s.len()
            &&& s[l - base].d == s[k].d - 1
        }
}

/// Two flattened arrays laid end to end keep their links forward.
pub proof fn lemma_links_forward_concat(a: Seq<TileRecord>, b: Seq<TileRecord>, base: int)
    requires
        links_forward(a, base),
        links_forward(b, base + a.len()),
    ensures
        links_forward(a + b, base),
{
    let s = a + b;
    assert forall|k: int, j: int|
        0 <= k < s.len() && 0 <= j < 8 && #[trigger] s[k].children[j] != 0 implies {
            let l = s[k].children[j];
            &&& base + k < l < base + s.len()
            &&& s[l - base].d == s[k].d - 1
        } by {
        if k < a.len() {
            assert(s[k] == a[k]);
            let l = a[k].children[j];
            assert(s[l - base] == a[l - base]);
        } else {
            assert(s[k] == b[k - a.len()]);
            let l = b[k - a.len()].children[j];
            assert(s[l - base] == b[l - base - a.len()]);
        }
    }
}

/// A tile takes at least one record.
pub proof fn lemma_count_pos(t: Tile)
    ensures
        t.count() >= 1,
{
}

/// The present children of the first `n` slots, flattened from `start` on,
/// keep their links forward, and each child's own record sits at its link.
pub proof fn lemma_encode_prefix_links(ch: Seq<Option<Tile>>, n: int, start: int)
    requires
        0 <= n <= ch.len(),
        forall|i: int| 0 <= i < n && #[trigger] ch[i] is Some ==> ch[i]->0.wf(),
    ensures
        links_forward(encode_prefix(ch, n, start), start),
        forall|j: int|
            0 <= j < n && #[trigger] ch[j] is Some ==> prefix_count(ch, j) < encode_prefix(ch, n, start).len()
                && encode_prefix(ch, n, start)[prefix_count(ch, j) as int] == ch[j]->0.record(
                start + prefix_count(ch, j),
            ),
    decreases ch, n,
{
    if n > 0 {
        let first = encode_prefix(ch, n - 1, start);
        lemma_encode_prefix_links(ch, n - 1, start);
        lemma_encode_prefix_len(ch, n - 1, start);
        let last = match ch[n - 1] {
            Some(c) => c.encode(start + prefix_count(ch, n - 1)),
            None => seq![],
        };
        match ch[n - 1] {
            Some(c) => {
                lemma_encode_links(c, start + prefix_count(ch, n - 1));
                lemma_encode_len(c, start + prefix_count(ch, n - 1));
            },
            None => {},
        }
        assert(encode_prefix(ch, n, start) == first + last);
        lemma_links_forward_concat(first, last, start);
        assert forall|j: int|
            0 <= j < n && #[trigger] ch[j] is Some implies prefix_count(ch, j) < encode_prefix(ch, n, start).len()
                && encode_prefix(ch, n, start)[prefix_count(ch, j) as int] == ch[j]->0.record(
                start + prefix_count(ch, j),
            ) by {
            if j < n - 1 {
                lemma_count_pos(ch[j]->0);
                lemma_prefix_count_mono(ch, j + 1, n - 1);
            }
        }
    }
}

/// The flattened array of a well-formed tree keeps its links forward: every
/// link points to a later record, one level deeper, inside the array. A
/// shader that follows links from the first record therefore always stops.
pub proof fn lemma_encode_links(t: Tile, base: int)
    requires
        t.wf(),
    ensures
        links_forward(t.encode(base), base),
        t.encode(base)[0] == t.record(base),
    decreases t, 0int,
{
    let s = t.encode(base);
    if !t.is_solid() {
        let ch = t.children;
        let rest = encode_prefix(ch, 8, base + 1);
        lemma_encode_prefix_links(ch, 8, base + 1);
        lemma_encode_prefix_len(ch, 8, base + 1);
        assert(s == seq![t.record(base)] + rest);
        assert forall|k: int, j: int|
            0 <= k < s.len() && 0 <= j < 8 && #[trigger] s[k].children[j] != 0 implies {
                let l = s[k].children[j];
                &&& base + k < l < base + s.len()
                &&& s[l - base].d == s[k].d - 1
            } by {
            if k == 0 {
                assert(ch[j] is Some);
                lemma_count_pos(ch[j]->0);
                lemma_prefix_count_mono(ch, j + 1, 8);
                assert(s[prefix_count(ch, j) + 1int] == rest[prefix_count(ch, j) as int]);
            } else {
                assert(s[k] == rest[k - 1]);
                let l = rest[k - 1].children[j];
                assert(s[l - base] == rest[l - base - 1]);
            }
        }
    } else {
        assert forall|k: int, j: int|
            0 <= k < s.len() && 0 <= j < 8 && #[trigger] s[k].children[j] != 0 implies {
                let l = s[k].children[j];
                &&& base + k < l < base + s.len()
                &&& s[l - base].d == s[k].d - 1
            } by {
            assert(s[k] == t.record(base));
        }
    }
}

} // verus!

verus! {

/// Each present child of the first `n` slots, flattened from `start` on,
/// occupies the records from its offset on, as many as it counts.
pub proof fn lemma_encode_prefix_slices(ch: Seq<Option<Tile>>, n: int, start: int)
    requires
        0 <= n <= ch.len(),
    ensures
        forall|j: int|
            0 <= j < n && #[trigger] ch[j] is Some ==> {
                let a = prefix_count(ch, j) as int;
                let e = encode_prefix(ch, n, start);
                &&& a + ch[j]->0.count() <= e.len()
                &&& e.subrange(a, a + ch[j]->0.count()) == ch[j]->0.encode(start + a)
            },
    decreases n,
{
    if n > 0 {
        let first = encode_prefix(ch, n - 1, start);
        lemma_encode_prefix_slices(ch, n - 1, start);
        lemma_encode_prefix_len(ch, n - 1, start);
        lemma_encode_prefix_len(ch, n, start);
        let last = match ch[n - 1] {
            Some(c) => c.encode(start + prefix_count(ch, n - 1)),
            None => seq![],
        };
        if ch[n - 1] is Some {
            lemma_encode_len(ch[n - 1]->0, start + prefix_count(ch, n - 1));
        }
        assert(encode_prefix(ch, n, start) == first + last);
        assert forall|j: int|
            0 <= j < n && #[trigger] ch[j] is Some implies {
                let a = prefix_count(ch, j) as int;
                let e = encode_prefix(ch, n, start);
                &&& a + ch[j]->0.count() <= e.len()
                &&& e.subrange(a, a + ch[j]->0.count()) == ch[j]->0.encode(start + a)
            } by {
            let a = prefix_count(ch, j) as int;
            let e = encode_prefix(ch, n, start);
            if j < n - 1 {
                lemma_prefix_count_mono(ch, j + 1, n - 1);
                assert(e.subrange(a, a + ch[j]->0.count()) =~= first.subrange(a, a + ch[j]->0.count()));
            } else {
                assert(e.subrange(a, a + ch[j]->0.count()) =~= last);
            }
        }
    }
}

/// How a flattened tile links its slots. Its own record comes first and
/// carries its depth, `filled` and packed colour. A solid tile links
/// nothing. Otherwise slot `j` links a record exactly when the tile has a
/// child in slot `j`, and the link is the index from which that child's own
/// flattening lies in the array: its first record carries the child's
/// depth, `filled` and colour.
pub proof fn lemma_encode_slot_links(t: Tile, base: int)
    requires
        t.wf(),
        base >= 0,
    ensures
        ({
            let s = t.encode(base);
            &&& s.len() == t.count()
            &&& s[0].d == t.d
            &&& s[0].filled == t.filled
            &&& s[0].color == t.color.packed()
            &&& s[0].children.len() == 8
            &&& t.is_solid() ==> s.len() == 1 && forall|j: int| 0 <= j < 8 ==> #[trigger] s[0].children[j] == 0
            &&& !t.is_solid() ==> forall|j: int|
                0 <= j < 8 ==> {
                    let l = #[trigger] s[0].children[j];
                    &&& (l != 0 <==> t.children[j] is Some)
                    &&& t.children[j] is Some ==> {
                        let c = t.children[j]->0;
                        &&& base < l
                        &&& l - base + c.count() <= s.len()
                        &&& s.subrange(l - base, l - base + c.count()) == c.encode(l)
                        &&& s[l - base].d == c.d
                        &&& s[l - base].filled == c.filled
                        &&& s[l - base].color == c.color.packed()
                    }
                }
        }),
{
    let s = t.encode(base);
    lemma_encode_len(t, base);
    if !t.is_solid() {
        let ch = t.children;
        let rest = encode_prefix(ch, 8, base + 1);
        lemma_encode_prefix_slices(ch, 8, base + 1);
        lemma_encode_prefix_len(ch, 8, base + 1);
        assert(s == seq![t.record(base)] + rest);
        assert forall|j: int| 0 <= j < 8 implies {
            let l = #[trigger] s[0].children[j];
            &&& (l != 0 <==> t.children[j] is Some)
            &&& t.children[j] is Some ==> {
                let c = t.children[j]->0;
                &&& base < l
                &&& l - base + c.count() <= s.len()
                &&& s.subrange(l - base, l - base + c.count()) == c.encode(l)
                &&& s[l - base].d == c.d
                &&& s[l - base].filled == c.filled
                &&& s[l - base].color == c.color.packed()
            }
        } by {
            let l = s[0].children[j];
            if ch[j] is Some {
                let c = ch[j]->0;
                let a = prefix_count(ch, j) as int;
                assert(l == base + 1 + a);
                assert(s.subrange(l - base, l - base + c.count()) =~= rest.subrange(a, a + c.count()));
                assert(c.encode(l)[0] == c.record(l));
                assert(s[l - base] == c.encode(l)[0]);
            }
        }
    }
}

/// A write changes a tile as follows. At the written depth, the tile
/// becomes solid in the written colour. Above it, the tile records the
/// larger of its `filled` and the written depth, takes the written colour
/// exactly when no write of that depth or more had crossed it (otherwise it
/// keeps its colour), and only the child towards the point changes: that
/// slot then holds a child, every other slot is as before.
pub proof fn lemma_insert_path_tile(t: Tile, p: Point, deph: int, c: Rgb)
    requires
        t.wf(),
        MIN_DEPTH <= deph <= t.d,
    ensures
        ({
            let r = t.inserted(p, deph, c);
            &&& r.d == t.d
            &&& r.position == t.position
            &&& t.d == deph ==> r.color == c && r.filled == t.d && r.children == t.children
            &&& t.d > deph ==> {
                &&& r.filled == (if t.filled > deph { t.filled } else { deph })
                &&& t.filled < deph ==> r.color == c
                &&& t.filled >= deph ==> r.color == t.color
                &&& r.children.len() == 8
                &&& 0 <= t.slot(p) < 8
                &&& r.children[t.slot(p)] is Some
                &&& forall|j: int| 0 <= j < 8 && j != t.slot(p) ==> #[trigger] r.children[j] == t.children[j]
            }
        }),
{
}

} // verus!

verus! {

/// Channel sums over solid children of valid colours stay within full
/// intensity times their number.
pub proof fn lemma_solid_sum_bound(ch: Seq<Option<Tile>>, k: int, n: int)
    requires
        forall|i: int| 0 <= i < n && #[trigger] ch[i] is Some ==> ch[i]->0.color.valid(),
    ensures
        0 <= solid_count(ch, n),
        0 <= solid_sum(ch, k, n) <= CHANNEL_FULL * solid_count(ch, n),
    decreases n,
{
    if n > 0 {
        lemma_solid_sum_bound(ch, k, n - 1);
    }
}

/// Merging keeps the colour of a well-formed tile valid.
pub proof fn lemma_merged_color_valid(t: Tile, m: Option<int>)
    requires
        t.wf(),
    ensures
        t.merged(m).color.valid(),
    decreases t,
{
    if !t.is_solid() {
        let ch = t.merged_children(m);
        assert forall|i: int| 0 <= i < ch.len() && #[trigger] ch[i] is Some implies ch[i]->0.color.valid() by {
            lemma_merged_color_valid(t.children[i]->0, m);
        }
        let n = ch.len() as int;
        lemma_solid_sum_bound(ch, 0, n);
        lemma_solid_sum_bound(ch, 1, n);
        lemma_solid_sum_bound(ch, 2, n);
        if all_present(ch) && present_solid(ch) {
            lemma_solid_count_full(ch, n);
        }
        if solid_count(ch, n) > 0 {
            lemma_mean_channels(solid_sum(ch, 0, n), solid_sum(ch, 1, n), solid_sum(ch, 2, n), solid_count(ch, n));
        }
    }
}

/// The colour merging gives a tile: when a tile that was not solid becomes
/// solid, each of its channels is the sum of that channel over its merged
/// solid children divided by their number, rounded down; a tile that stays
/// as it was keeps its colour.
pub proof fn lemma_merged_colour(t: Tile, m: Option<int>)
    requires
        t.wf(),
    ensures
        ({
            let r = t.merged(m);
            let ch = t.merged_children(m);
            let n = solid_count(ch, 8);
            &&& t.is_solid() ==> r.color == t.color
            &&& !t.is_solid() && r.is_solid() ==> {
                &&& n > 0
                &&& r.color.r == solid_sum(ch, 0, 8) / n
                &&& r.color.g == solid_sum(ch, 1, 8) / n
                &&& r.color.b == solid_sum(ch, 2, 8) / n
            }
            &&& !r.is_solid() ==> r.color == t.color
        }),
{
    if !t.is_solid() {
        let ch = t.merged_children(m);
        assert forall|i: int| 0 <= i < ch.len() && #[trigger] ch[i] is Some implies ch[i]->0.color.valid() && ch[i]->0.d == t.d - 1 by {
            lemma_merged_color_valid(t.children[i]->0, m);
            lemma_merged_frame(t.children[i]->0, m);
        }
        lemma_solid_sum_bound(ch, 0, 8);
        lemma_solid_sum_bound(ch, 1, 8);
        lemma_solid_sum_bound(ch, 2, 8);
        if t.merged(m).is_solid() {
            if all_present(ch) && present_solid(ch) {
                lemma_solid_count_full(ch, 8);
            }
            lemma_mean_channels(solid_sum(ch, 0, 8), solid_sum(ch, 1, 8), solid_sum(ch, 2, 8), solid_count(ch, 8));
        }
    }
}

/// Slots that all hold solid children count as many solid children.
pub proof fn lemma_solid_count_full(ch: Seq<Option<Tile>>, n: int)
    requires
        0 <= n <= ch.len(),
        all_present(ch),
        present_solid(ch),
    ensures
        solid_count(ch, n) == n,
    decreases n,
{
    if n > 0 {
        lemma_solid_count_full(ch, n - 1);
    }
}

} // verus!

verus! {

/// When every solid child among the first `n` slots has colour `c`, each
/// channel sums to the count of solid children times `c`'s channel.
pub proof fn lemma_solid_sum_uniform(ch: Seq<Option<Tile>>, k: int, n: int, c: Rgb)
    requires
        forall|i: int| 0 <= i < n && #[trigger] ch[i] is Some && ch[i]->0.is_solid() ==> ch[i]->0.color == c,
    ensures
        solid_sum(ch, k, n) == solid_count(ch, n) * c.channel(k),
    decreases n,
{
    if n > 0 {
        lemma_solid_sum_uniform(ch, k, n - 1, c);
        assert((solid_count(ch, n - 1) + 1) * c.channel(k) == solid_count(ch, n - 1) * c.channel(k)
            + c.channel(k)) by (nonlinear_arith);
    }
}

/// Merging solid children of one colour gives that colour: when a tile that
/// was not solid becomes solid and all its merged solid children have
/// colour `c`, the tile takes colour `c`.
pub proof fn lemma_merged_uniform_colour(t: Tile, m: Option<int>, c: Rgb)
    requires
        t.wf(),
        !t.is_solid(),
        t.merged(m).is_solid(),
        forall|i: int|
            0 <= i < 8 && #[trigger] t.merged_children(m)[i] is Some && t.merged_children(m)[i]->0.is_solid()
                ==> t.merged_children(m)[i]->0.color == c,
    ensures
        t.merged(m).color == c,
{
    let ch = t.merged_children(m);
    lemma_merged_colour(t, m);
    let n = solid_count(ch, 8);
    lemma_solid_sum_uniform(ch, 0, 8, c);
    lemma_solid_sum_uniform(ch, 1, 8, c);
    lemma_solid_sum_uniform(ch, 2, 8, c);
    assert(forall|x: int| n > 0 ==> #[trigger] (n * x) / n == x) by (nonlinear_arith);
    assert((n * c.channel(0)) / n == c.channel(0));
    assert((n * c.channel(1)) / n == c.channel(1));
    assert((n * c.channel(2)) / n == c.channel(2));
}

} // verus!
