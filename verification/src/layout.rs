//! Layouts as boxes of blocks, and the wrappers that put a floor under a
//! layout or stack layouts.

use crate::compact::{spec_needs_floor, Block, BlockPos, NeedsFloor};
use vstd::prelude::*;

verus! {

/// `pos` lies in the box from the origin up to (not including) `size`.
pub open spec fn inside(pos: BlockPos, size: BlockPos) -> bool {
    &&& 0 <= pos.x < size.x
    &&& 0 <= pos.y < size.y
    &&& 0 <= pos.z < size.z
}

/// A structure of blocks in a box from the origin to its size.
pub trait Layout {
    /// The layout's internal invariant.
    spec fn wf(&self) -> bool;

    /// The size of the layout's bounding box.
    spec fn spec_size(&self) -> BlockPos;

    /// The block at a position inside the bounding box.
    spec fn spec_block(&self, pos: BlockPos) -> Block;

    /// The size of the layout's bounding box.
    fn size(&self) -> (r: BlockPos)
        requires
            self.wf(),
        ensures
            r == self.spec_size(),
    ;

    /// The block at a position inside the bounding box.
    fn get_block(&self, pos: BlockPos) -> (r: Block)
        requires
            self.wf(),
            inside(pos, self.spec_size()),
        ensures
            r == self.spec_block(pos),
    ;
}

// WithFloor
//
// ++++++++++++============++++++++++++============++++++++++++============

/// A layout with a floor one block below it: under every position, or only
/// under the blocks that would fall without one.
pub struct WithFloor<L: Layout> {
    layout: L,
    full: bool,
}

impl<L: Layout> WithFloor<L> {
    /// The layout on the floor.
    pub closed spec fn spec_layout(&self) -> L {
        self.layout
    }

    /// Whether the floor covers the whole box.
    pub closed spec fn spec_full(&self) -> bool {
        self.full
    }

    /// Puts `layout` on a floor: a full one, or one only under the blocks
    /// that need it.
    pub fn new(layout: L, full: bool) -> (r: Self)
        requires
            layout.wf(),
            1 <= layout.spec_size().y < i32::MAX,
        ensures
            r.wf(),
            r.spec_layout() == layout,
            r.spec_full() == full,
    {
        WithFloor { layout, full }
    }
}

impl<L: Layout> Layout for WithFloor<L> {
    /// The layout is well formed and at least one block high, and one more
    /// block fits on top of it.
    open spec fn wf(&self) -> bool {
        &&& self.spec_layout().wf()
        &&& 1 <= self.spec_layout().spec_size().y < i32::MAX
    }

    /// One block higher than the layout.
    open spec fn spec_size(&self) -> BlockPos {
        let s = self.spec_layout().spec_size();
        BlockPos { x: s.x, y: (s.y + 1) as i32, z: s.z }
    }

    /// The floor at the bottom, then the layout one block up.
    open spec fn spec_block(&self, pos: BlockPos) -> Block {
        let l = self.spec_layout();
        if pos.y == 0 {
            if self.spec_full() || spec_needs_floor(l.spec_block(pos)) {
                Block::Floor
            } else {
                Block::Air
            }
        } else {
            l.spec_block(BlockPos { x: pos.x, y: (pos.y - 1) as i32, z: pos.z })
        }
    }

    fn size(&self) -> (r: BlockPos) {
        let s = self.layout.size();
        BlockPos { x: s.x, y: s.y + 1, z: s.z }
    }

    fn get_block(&self, pos: BlockPos) -> (r: Block) {
        if pos.y == 0 {
            if self.full || self.layout.get_block(pos).needs_floor() {
                Block::Floor
            } else {
                Block::Air
            }
        } else {
            self.layout.get_block(BlockPos { x: pos.x, y: pos.y - 1, z: pos.z })
        }
    }
}

} // verus!
