//! Which blocks of an image's pixels are checked out for rendering, so that
//! no pixel is handed out twice at once.
use vstd::prelude::*;

verus! {

/// A block of pixels: its minimum corner (inclusive) and maximum corner
/// (exclusive).
pub type Block = ((u32, u32), (u32, u32));

/// The larger of two integers.
pub open spec fn imax(a: int, b: int) -> int {
    if a > b {
        a
    } else {
        b
    }
}

/// The smaller of two integers.
pub open spec fn imin(a: int, b: int) -> int {
    if a < b {
        a
    } else {
        b
    }
}

/// The block `b` shares a pixel with the block from `min` to `max`: their
/// intersection is neither degenerate nor empty.
pub open spec fn overlaps(b: Block, min: (u32, u32), max: (u32, u32)) -> bool {
    &&& imax(min.0 as int, b.0.0 as int) < imin(max.0 as int, b.1.0 as int)
    &&& imax(min.1 as int, b.0.1 as int) < imin(max.1 as int, b.1.1 as int)
}

/// No two blocks of the list share a pixel.
pub open spec fn pairwise_disjoint(blocks: Seq<Block>) -> bool {
    forall|i: int, j: int|
        #![trigger blocks[i], blocks[j]]
        0 <= i < blocks.len() && 0 <= j < blocks.len() && i != j ==> !overlaps(
            blocks[i],
            blocks[j].0,
            blocks[j].1,
        )
}

/// The block from `min` to `max` clipped to an image of resolution `res`.
pub open spec fn clipped(min: (u32, u32), max: (u32, u32), res: (usize, usize)) -> Block {
    (
        min,
        (
            imin(max.0 as int, (res.0 as u32) as int) as u32,
            imin(max.1 as int, (res.1 as u32) as int) as u32,
        ),
    )
}

/// The blocks of an image that are checked out.
#[derive(Debug)]
pub struct CheckedOutBlocks {
    blocks: Vec<Block>,
}

fn block_overlaps(b: Block, min: (u32, u32), max: (u32, u32)) -> (r: bool)
    ensures
        r == overlaps(b, min, max),
{
    let inter_min = (
        if min.0 > (b.0).0 {
            min.0
        } else {
            (b.0).0
        },
        if min.1 > (b.0).1 {
            min.1
        } else {
            (b.0).1
        },
    );
    let inter_max = (
        if max.0 < (b.1).0 {
            max.0
        } else {
            (b.1).0
        },
        if max.1 < (b.1).1 {
            max.1
        } else {
            (b.1).1
        },
    );
    inter_min.0 < inter_max.0 && inter_min.1 < inter_max.1
}

impl CheckedOutBlocks {
    /// The checked-out blocks.
    pub closed spec fn blocks(&self) -> Seq<Block> {
        self.blocks@
    }

    /// No block is checked out.
    pub fn new() -> (s: CheckedOutBlocks)
        ensures
            s.blocks() == Seq::<Block>::empty(),
    {
        CheckedOutBlocks { blocks: Vec::new() }
    }

    /// Whether the block from `min` to `max` shares a pixel with a
    /// checked-out block.
    pub fn overlaps_checked_out(&self, min: (u32, u32), max: (u32, u32)) -> (r: bool)
        ensures
            r == exists|i: int| 0 <= i < self.blocks().len() && #[trigger] overlaps(
                self.blocks()[i],
                min,
                max,
            ),
    {
        let mut i: usize = 0;
        while i < self.blocks.len()
            invariant
                i <= self.blocks@.len(),
                forall|k: int| 0 <= k < i ==> !#[trigger] overlaps(self.blocks@[k], min, max),
            decreases self.blocks@.len() - i,
        {
            if block_overlaps(self.blocks[i], min, max) {
                proof {
                    assert(overlaps(self.blocks()[i as int], min, max));
                }
                return true;
            }
            i += 1;
        }
        proof {
            assert forall|k: int| 0 <= k < self.blocks().len() implies !#[trigger] overlaps(
                self.blocks()[k],
                min,
                max,
            ) by {
                assert(!overlaps(self.blocks@[k], min, max));
            }
        }
        false
    }

    /// Checks out the block from `min` to `max` of an image of resolution
    /// `res`, which must share no pixel with a checked-out block: the block
    /// is clipped to the image, recorded and returned.
    pub fn check_out(&mut self, min: (u32, u32), max: (u32, u32), res: (usize, usize)) -> (b:
        Block)
        requires
            forall|i: int|
                0 <= i < old(self).blocks().len() ==> !#[trigger] overlaps(
                    old(self).blocks()[i],
                    min,
                    max,
                ),
        ensures
            b == clipped(min, max, res),
            final(self).blocks() == old(self).blocks().push(b),
    {
        let w = res.0 as u32;
        let h = res.1 as u32;
        let clip = (
            if max.0 < w {
                max.0
            } else {
                w
            },
            if max.1 < h {
                max.1
            } else {
                h
            },
        );
        let b = (min, clip);
        self.blocks.push(b);
        b
    }

    /// Returns a checked-out block: the first record of it is dropped, and
    /// the last record takes its place.
    pub fn check_in(&mut self, block: Block)
        requires
            old(self).blocks().contains(block),
        ensures
            exists|i: int|
                #![trigger old(self).blocks()[i]]
                0 <= i < old(self).blocks().len() && old(self).blocks()[i] == block
                    && (forall|j: int| 0 <= j < i ==> old(self).blocks()[j] != block)
                    && final(self).blocks() == old(self).blocks().update(
                    i,
                    old(self).blocks().last(),
                ).drop_last(),
    {
        let mut i: usize = 0;
        while i < self.blocks.len()
            invariant
                i <= self.blocks@.len(),
                self.blocks@ == old(self).blocks@,
                old(self).blocks@.contains(block),
                forall|k: int| 0 <= k < i ==> self.blocks@[k] != block,
            decreases self.blocks@.len() - i,
        {
            let b = self.blocks[i];
            if (b.0).0 == (block.0).0 && (b.0).1 == (block.0).1 && (b.1).0 == (block.1).0 && (b.1).1
                == (block.1).1 {
                proof {
                    assert(b == block);
                }
                self.blocks.swap_remove(i);
                proof {
                    assert(old(self).blocks()[i as int] == block);
                    assert(forall|j: int| 0 <= j < i ==> old(self).blocks()[j] != block);
                }
                return ;
            }
            i += 1;
        }
        proof {
            let k = choose|k: int| 0 <= k < old(self).blocks@.len() && old(self).blocks@[k] == block;
            assert(self.blocks@[k] != block);
        }
    }
}

/// Checking out keeps the checked-out blocks free of shared pixels.
pub proof fn law_check_out_keeps_disjoint(
    blocks: Seq<Block>,
    min: (u32, u32),
    max: (u32, u32),
    res: (usize, usize),
)
    requires
        pairwise_disjoint(blocks),
        forall|i: int| 0 <= i < blocks.len() ==> !#[trigger] overlaps(blocks[i], min, max),
    ensures
        pairwise_disjoint(blocks.push(clipped(min, max, res))),
{
    let c = clipped(min, max, res);
    let s = blocks.push(c);
    assert forall|i: int, j: int|
        #![trigger s[i], s[j]]
        0 <= i < s.len() && 0 <= j < s.len() && i != j implies !overlaps(s[i], s[j].0, s[j].1) by {
        if i < blocks.len() && j < blocks.len() {
            assert(s[i] == blocks[i] && s[j] == blocks[j]);
        } else if j == blocks.len() {
            assert(s[i] == blocks[i]);
            assert(!overlaps(blocks[i], min, max));
        } else {
            assert(s[j] == blocks[j]);
            assert(!overlaps(blocks[j], min, max));
        }
    }
}

/// Returning a block keeps the checked-out blocks free of shared pixels.
pub proof fn law_check_in_keeps_disjoint(blocks: Seq<Block>, i: int)
    requires
        pairwise_disjoint(blocks),
        0 <= i < blocks.len(),
    ensures
        pairwise_disjoint(blocks.update(i, blocks.last()).drop_last()),
{
    let s = blocks.update(i, blocks.last()).drop_last();
    let n = blocks.len() - 1;
    assert forall|a: int, b: int|
        #![trigger s[a], s[b]]
        0 <= a < s.len() && 0 <= b < s.len() && a != b implies !overlaps(s[a], s[b].0, s[b].1) by {
        let a0 = if a == i {
            n
        } else {
            a
        };
        let b0 = if b == i {
            n
        } else {
            b
        };
        assert(s[a] == blocks[a0]);
        assert(s[b] == blocks[b0]);
        assert(a0 != b0);
    }
}

} // verus!
