//! The city layout as a list of triangles, ready to draw.
//!
//! One ground quad, a thin-quad survey grid, and flat-shaded boxes. Triangles
//! are drawn back to front, so that no depth buffer is needed.

use crate::scalar::consts::TWO;
use crate::scalar::{scalar, Scalar};
use crate::sim::agent::Position;
use vstd::prelude::*;

pub mod clip;
pub mod colors;
pub mod cuts;
pub mod draw;
pub mod finite;
pub mod laws;
pub mod models;
pub mod shapes;

verus! {

/// Linear-space colour (authored flat, output raw).
#[derive(Clone, Copy, Debug, PartialEq, Eq, Structural)]
pub struct Rgb {
    pub r: Scalar,
    pub g: Scalar,
    pub b: Scalar,
}

/// The colour with the given bit patterns.
#[verifier::allow_in_spec]
pub fn rgb(r: u32, g: u32, b: u32) -> (c: Rgb)
    returns
        (Rgb { r: scalar(r), g: scalar(g), b: scalar(b) }),
{
    Rgb { r: scalar(r), g: scalar(g), b: scalar(b) }
}

/// A block of the starter skyline: id, center, size and colour.
#[derive(Clone, Copy, Debug)]
pub struct BlockDef {
    pub id: &'static str,
    pub cx: Scalar,
    pub cz: Scalar,
    pub w: Scalar,
    pub h: Scalar,
    pub d: Scalar,
    pub color: Rgb,
}

/// Mathematical content of a [`BlockDef`].
pub ghost struct BlockView {
    pub id: Seq<char>,
    pub cx: Scalar,
    pub cz: Scalar,
    pub w: Scalar,
    pub h: Scalar,
    pub d: Scalar,
    pub color: Rgb,
}

impl View for BlockDef {
    type V = BlockView;

    open spec fn view(&self) -> BlockView {
        BlockView {
            id: self.id@,
            cx: self.cx,
            cz: self.cz,
            w: self.w,
            h: self.h,
            d: self.d,
            color: self.color,
        }
    }
}

/// The starter skyline near the origin.
pub open spec fn skyline() -> Seq<BlockView> {
    seq![
        BlockView {
            id: "bld:1"@,
            cx: scalar(0xc160_0000 /* -14 */),
            cz: scalar(0xc100_0000 /* -8 */),
            w: scalar(0x4140_0000 /* 12 */),
            h: scalar(0x40e0_0000 /* 7 */),
            d: scalar(0x4100_0000 /* 8 */),
            color: rgb(0x3f6e_147b /* 0.93 */, 0x3f6e_147b /* 0.93 */, 0x3f6e_147b /* 0.93 */),
        },
        BlockView {
            id: "bld:2"@,
            cx: scalar(0x4120_0000 /* 10 */),
            cz: scalar(0xc160_0000 /* -14 */),
            w: scalar(0x4110_0000 /* 9 */),
            h: scalar(0x4140_0000 /* 12 */),
            d: scalar(0x4110_0000 /* 9 */),
            color: rgb(0x3f61_47ae /* 0.88 */, 0x3f51_eb85 /* 0.82 */, 0x3f38_51ec /* 0.72 */),
        },
        BlockView {
            id: "bld:3"@,
            cx: scalar(0x4140_0000 /* 12 */),
            cz: scalar(0x4120_0000 /* 10 */),
            w: scalar(0x4100_0000 /* 8 */),
            h: scalar(0x40a0_0000 /* 5 */),
            d: scalar(0x4100_0000 /* 8 */),
            color: rgb(0x3f38_51ec /* 0.72 */, 0x3ee6_6666 /* 0.45 */, 0x3eb3_3333 /* 0.35 */),
        },
        BlockView {
            id: "bld:4"@,
            cx: scalar(0xc140_0000 /* -12 */),
            cz: scalar(0x4140_0000 /* 12 */),
            w: scalar(0x4120_0000 /* 10 */),
            h: scalar(0x4110_0000 /* 9 */),
            d: scalar(0x40e0_0000 /* 7 */),
            color: rgb(0x3f51_eb85 /* 0.82 */, 0x3f51_eb85 /* 0.82 */, 0x3f57_0a3d /* 0.84 */),
        },
        BlockView {
            id: "bld:5"@,
            cx: scalar(0xc000_0000 /* -2 */),
            cz: scalar(0xc1d0_0000 /* -26 */),
            w: scalar(0x4160_0000 /* 14 */),
            h: scalar(0x40c0_0000 /* 6 */),
            d: scalar(0x40c0_0000 /* 6 */),
            color: rgb(0x3f40_0000 /* 0.75 */, 0x3f2e_147b /* 0.68 */, 0x3ee6_6666 /* 0.45 */),
        },
        BlockView {
            id: "bld:6"@,
            cx: scalar(0x41e0_0000 /* 28 */),
            cz: scalar(0x4000_0000 /* 2 */),
            w: scalar(0x40e0_0000 /* 7 */),
            h: scalar(0x4170_0000 /* 15 */),
            d: scalar(0x40e0_0000 /* 7 */),
            color: rgb(0x3f0c_cccd /* 0.55 */, 0x3f1e_b852 /* 0.62 */, 0x3f38_51ec /* 0.72 */),
        },
        BlockView {
            id: "bld:7"@,
            cx: scalar(0xc1f0_0000 /* -30 */),
            cz: scalar(0xc000_0000 /* -2 */),
            w: scalar(0x4100_0000 /* 8 */),
            h: scalar(0x4080_0000 /* 4 */),
            d: scalar(0x4120_0000 /* 10 */),
            color: rgb(0x3f26_6666 /* 0.65 */, 0x3f38_51ec /* 0.72 */, 0x3f19_999a /* 0.6 */),
        },
    ]
}

pub open spec fn block_views(blocks: Seq<BlockDef>) -> Seq<BlockView> {
    blocks.map_values(|b: BlockDef| b@)
}

fn block(id: &'static str, cx: u32, cz: u32, w: u32, h: u32, d: u32, color: Rgb) -> (b: BlockDef)
    ensures
        b@ == (BlockView {
            id: id@,
            cx: scalar(cx),
            cz: scalar(cz),
            w: scalar(w),
            h: scalar(h),
            d: scalar(d),
            color,
        }),
{
    BlockDef {
        id,
        cx: scalar(cx),
        cz: scalar(cz),
        w: scalar(w),
        h: scalar(h),
        d: scalar(d),
        color,
    }
}

/// The starter skyline. Footprints do not overlap, which keeps footprint
/// picking unambiguous.
pub fn blocks() -> (r: Vec<BlockDef>)
    ensures
        block_views(r@) == skyline(),
        r.len() == 7,
{
    let mut r: Vec<BlockDef> = Vec::new();
    r.push(block("bld:1", 0xc160_0000 /* -14 */, 0xc100_0000 /* -8 */, 0x4140_0000 /* 12 */, 0x40e0_0000 /* 7 */, 0x4100_0000 /* 8 */, rgb(0x3f6e_147b /* 0.93 */, 0x3f6e_147b /* 0.93 */, 0x3f6e_147b /* 0.93 */)));
    r.push(block("bld:2", 0x4120_0000 /* 10 */, 0xc160_0000 /* -14 */, 0x4110_0000 /* 9 */, 0x4140_0000 /* 12 */, 0x4110_0000 /* 9 */, rgb(0x3f61_47ae /* 0.88 */, 0x3f51_eb85 /* 0.82 */, 0x3f38_51ec /* 0.72 */)));
    r.push(block("bld:3", 0x4140_0000 /* 12 */, 0x4120_0000 /* 10 */, 0x4100_0000 /* 8 */, 0x40a0_0000 /* 5 */, 0x4100_0000 /* 8 */, rgb(0x3f38_51ec /* 0.72 */, 0x3ee6_6666 /* 0.45 */, 0x3eb3_3333 /* 0.35 */)));
    r.push(block("bld:4", 0xc140_0000 /* -12 */, 0x4140_0000 /* 12 */, 0x4120_0000 /* 10 */, 0x4110_0000 /* 9 */, 0x40e0_0000 /* 7 */, rgb(0x3f51_eb85 /* 0.82 */, 0x3f51_eb85 /* 0.82 */, 0x3f57_0a3d /* 0.84 */)));
    r.push(block("bld:5", 0xc000_0000 /* -2 */, 0xc1d0_0000 /* -26 */, 0x4160_0000 /* 14 */, 0x40c0_0000 /* 6 */, 0x40c0_0000 /* 6 */, rgb(0x3f40_0000 /* 0.75 */, 0x3f2e_147b /* 0.68 */, 0x3ee6_6666 /* 0.45 */)));
    r.push(block("bld:6", 0x41e0_0000 /* 28 */, 0x4000_0000 /* 2 */, 0x40e0_0000 /* 7 */, 0x4170_0000 /* 15 */, 0x40e0_0000 /* 7 */, rgb(0x3f0c_cccd /* 0.55 */, 0x3f1e_b852 /* 0.62 */, 0x3f38_51ec /* 0.72 */)));
    r.push(block("bld:7", 0xc1f0_0000 /* -30 */, 0xc000_0000 /* -2 */, 0x4100_0000 /* 8 */, 0x4080_0000 /* 4 */, 0x4120_0000 /* 10 */, rgb(0x3f26_6666 /* 0.65 */, 0x3f38_51ec /* 0.72 */, 0x3f19_999a /* 0.6 */)));
    proof {
        assert(block_views(r@) =~= skyline());
    }
    r
}

/// Place of the first block with an id, from place `i` on.
pub open spec fn find_block(id: Seq<char>, i: int) -> Option<int>
    decreases skyline().len() - i,
{
    if i < 0 || i >= skyline().len() {
        None
    } else if skyline()[i].id == id {
        Some(i)
    } else {
        find_block(id, i + 1)
    }
}

/// Block definition by id (stable for the starter skyline).
pub fn block_by_id(id: &str) -> (r: Option<BlockDef>)
    ensures
        match r {
            Some(b) => find_block(id@, 0) matches Some(i) && 0 <= i < 7 && b@ == skyline()[i],
            None => find_block(id@, 0) is None,
        },
{
    let list: Vec<BlockDef> = blocks();
    let mut i: usize = 0;
    while i < list.len()
        invariant
            block_views(list@) == skyline(),
            list.len() == 7,
            i <= list.len(),
            find_block(id@, i as int) == find_block(id@, 0),
        decreases list.len() - i,
    {
        let b: BlockDef = list[i];
        assert(block_views(list@)[i as int] == b@);
        if same_text(b.id, id) {
            return Some(b);
        }
        i += 1;
    }
    None
}

/// The two pieces of text are the same.
pub fn same_text(a: &str, b: &str) -> (r: bool)
    ensures
        r == (a@ == b@),
{
    let n: usize = a.unicode_len();
    if n != b.unicode_len() {
        return false;
    }
    let mut i: usize = 0;
    while i < n
        invariant
            n == a@.len(),
            n == b@.len(),
            i <= n,
            forall|j: int| 0 <= j < i ==> a@[j] == b@[j],
        decreases n - i,
    {
        if a.get_char(i) != b.get_char(i) {
            return false;
        }
        i += 1;
    }
    proof {
        assert(a@ =~= b@);
    }
    true
}

impl BlockView {
    pub open spec fn min_x(self) -> Scalar {
        self.cx.sub_spec(self.w.div_spec(scalar(TWO)))
    }

    pub open spec fn max_x(self) -> Scalar {
        self.cx.add_spec(self.w.div_spec(scalar(TWO)))
    }

    pub open spec fn min_z(self) -> Scalar {
        self.cz.sub_spec(self.d.div_spec(scalar(TWO)))
    }

    pub open spec fn max_z(self) -> Scalar {
        self.cz.add_spec(self.d.div_spec(scalar(TWO)))
    }

    /// The point lies in the footprint.
    pub open spec fn covers(self, p: Position) -> bool {
        self.min_x().le_spec(p.x) && p.x.le_spec(self.max_x()) && self.min_z().le_spec(p.z)
            && p.z.le_spec(self.max_z())
    }
}

impl BlockDef {
    pub fn min_x(&self) -> (r: Scalar)
        ensures
            r == self@.min_x(),
    {
        self.cx.sub(self.w.div(scalar(TWO)))
    }

    pub fn max_x(&self) -> (r: Scalar)
        ensures
            r == self@.max_x(),
    {
        self.cx.add(self.w.div(scalar(TWO)))
    }

    pub fn min_z(&self) -> (r: Scalar)
        ensures
            r == self@.min_z(),
    {
        self.cz.sub(self.d.div(scalar(TWO)))
    }

    pub fn max_z(&self) -> (r: Scalar)
        ensures
            r == self@.max_z(),
    {
        self.cz.add(self.d.div(scalar(TWO)))
    }

    pub fn covers(&self, p: Position) -> (r: bool)
        ensures
            r == self@.covers(p),
    {
        self.min_x().le(p.x) && p.x.le(self.max_x()) && self.min_z().le(p.z) && p.z.le(self.max_z())
    }
}

/// Squared distance of a ground point from the center of a block.
pub open spec fn center_dist2(b: BlockView, p: Position) -> Scalar {
    let dx = p.x.sub_spec(b.cx);
    let dz = p.z.sub_spec(b.cz);
    dx.mul_spec(dx).add_spec(dz.mul_spec(dz))
}

/// The block under a ground point among the first `k`, with the squared
/// distance from its center: the nearest of those that cover the point.
pub open spec fn picked(p: Position, k: int) -> Option<(Scalar, int)>
    decreases k,
{
    if k <= 0 {
        None
    } else {
        let best = picked(p, k - 1);
        let b = skyline()[k - 1];
        let d2 = center_dist2(b, p);
        if !b.covers(p) {
            best
        } else {
            match best {
                Some(x) => if d2.lt_spec(x.0) {
                    Some((d2, k - 1))
                } else {
                    best
                },
                None => Some((d2, k - 1)),
            }
        }
    }
}

/// Block under a ground point, if any.
pub fn pick(p: Position) -> (r: Option<BlockDef>)
    ensures
        match r {
            Some(b) => picked(p, 7) matches Some(x) && 0 <= x.1 < 7 && b@ == skyline()[x.1],
            None => picked(p, 7) is None,
        },
{
    let list: Vec<BlockDef> = blocks();
    let mut best: Option<(Scalar, usize)> = None;
    let mut k: usize = 0;
    while k < list.len()
        invariant
            block_views(list@) == skyline(),
            list.len() == 7,
            k <= list.len(),
            match best {
                Some(b) => b.1 < k && picked(p, k as int) == Some((b.0, b.1 as int)),
                None => picked(p, k as int) is None,
            },
        decreases list.len() - k,
    {
        let b: BlockDef = list[k];
        assert(block_views(list@)[k as int] == b@);
        if b.covers(p) {
            let dx: Scalar = p.x.sub(b.cx);
            let dz: Scalar = p.z.sub(b.cz);
            let d2: Scalar = dx.mul(dx).add(dz.mul(dz));
            match best {
                Some(x) => {
                    if d2.lt(x.0) {
                        best = Some((d2, k));
                    }
                },
                None => {
                    best = Some((d2, k));
                },
            }
        }
        k += 1;
    }
    match best {
        Some(x) => {
            assert(block_views(list@)[x.1 as int] == list[x.1 as int]@);
            Some(list[x.1])
        },
        None => None,
    }
}

} // verus!
