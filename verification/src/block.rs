//! Blocks: what stands between the lines of text.

use vstd::prelude::*;
use std::sync::Arc;

use crate::buffer::{Anchor, ExcerptId, ExcerptInfo};
use crate::render::{RenderBlock, RenderSlot};

verus! {

#[derive(Clone, Copy, Debug, Default, PartialEq, Eq, PartialOrd, Ord, Hash, Structural)]
pub struct CustomBlockId(pub usize);

#[derive(Clone, Copy, Debug, PartialEq, Eq, PartialOrd, Ord, Structural)]
pub enum BlockStyle {
    Fixed,
    Flex,
    Sticky,
}

/// Whether the block should be considered above or below the anchor line
#[derive(Clone, Copy, Debug, PartialEq, Eq, PartialOrd, Ord, Structural)]
pub enum BlockDisposition {
    Above,
    Below,
}

impl BlockDisposition {
    pub fn is_below(&self) -> (below: bool)
        ensures
            below == (*self is Below),
    {
        matches!(self, BlockDisposition::Below)
    }
}

/// A block that was put into a map.
pub struct CustomBlock {
    pub id: CustomBlockId,
    pub position: Anchor,
    pub height: u32,
    pub style: BlockStyle,
    pub render: RenderSlot,
    pub disposition: BlockDisposition,
    pub priority: usize,
}

impl CustomBlock {
    /// The callback that draws the block at the time of the call.
    pub fn render(&self) -> (render: RenderBlock)
        ensures
            self.render.ever_holds(render),
    {
        self.render.current()
    }

    pub fn position(&self) -> (position: &Anchor)
        ensures
            *position == self.position,
    {
        &self.position
    }

    pub fn style(&self) -> (style: BlockStyle)
        ensures
            style == self.style,
    {
        self.style
    }
}

/// What a block is made from.
pub struct BlockProperties<P> {
    pub position: P,
    pub height: u32,
    pub style: BlockStyle,
    pub render: RenderBlock,
    pub disposition: BlockDisposition,
    pub priority: usize,
}

#[derive(Clone, Copy, Debug, PartialEq, Eq, Hash)]
pub enum BlockId {
    Custom(CustomBlockId),
    ExcerptBoundary(Option<ExcerptId>),
}

/// What kind of block a block is.
#[derive(Clone, Copy, Debug, PartialEq, Eq, Structural)]
pub enum BlockType {
    Custom(CustomBlockId),
    ExcerptBoundary,
}

/// What the order of blocks reads of them.
pub trait BlockLike {
    spec fn block_type_spec(&self) -> BlockType;

    spec fn disposition_spec(&self) -> BlockDisposition;

    spec fn priority_spec(&self) -> usize;

    fn block_type(&self) -> (block_type: BlockType)
        ensures
            block_type == self.block_type_spec(),
    ;

    fn disposition(&self) -> (disposition: BlockDisposition)
        ensures
            disposition == self.disposition_spec(),
    ;

    fn priority(&self) -> (priority: usize)
        ensures
            priority == self.priority_spec(),
    ;
}

/// A block that is shown: one that was put into the map, or the header and footer between two
/// excerpts.
pub enum Block {
    Custom(Arc<CustomBlock>),
    ExcerptBoundary {
        prev_excerpt: Option<ExcerptInfo>,
        next_excerpt: Option<ExcerptInfo>,
        height: u32,
        starts_new_buffer: bool,
        show_excerpt_controls: bool,
    },
}

impl Clone for Block {
    fn clone(&self) -> (copy: Self)
        ensures
            copy == *self,
    {
        match self {
            Block::Custom(block) => Block::Custom(block.clone()),
            Block::ExcerptBoundary {
                prev_excerpt,
                next_excerpt,
                height,
                starts_new_buffer,
                show_excerpt_controls,
            } => Block::ExcerptBoundary {
                prev_excerpt: *prev_excerpt,
                next_excerpt: *next_excerpt,
                height: *height,
                starts_new_buffer: *starts_new_buffer,
                show_excerpt_controls: *show_excerpt_controls,
            },
        }
    }
}

impl BlockLike for Block {
    open spec fn block_type_spec(&self) -> BlockType {
        match *self {
            Block::Custom(block) => BlockType::Custom(block.id),
            Block::ExcerptBoundary { .. } => BlockType::ExcerptBoundary,
        }
    }

    open spec fn disposition_spec(&self) -> BlockDisposition {
        match *self {
            Block::Custom(block) => block.disposition,
            Block::ExcerptBoundary { next_excerpt, .. } => if next_excerpt is Some {
                BlockDisposition::Above
            } else {
                BlockDisposition::Below
            },
        }
    }

    open spec fn priority_spec(&self) -> usize {
        match *self {
            Block::Custom(block) => block.priority,
            Block::ExcerptBoundary { .. } => usize::MAX,
        }
    }

    fn block_type(&self) -> (block_type: BlockType) {
        match self {
            Block::Custom(block) => BlockType::Custom(block.id),
            Block::ExcerptBoundary { .. } => BlockType::ExcerptBoundary,
        }
    }

    fn disposition(&self) -> (disposition: BlockDisposition) {
        match self {
            Block::Custom(block) => block.disposition,
            Block::ExcerptBoundary { next_excerpt, .. } => {
                if next_excerpt.is_some() {
                    BlockDisposition::Above
                } else {
                    BlockDisposition::Below
                }
            },
        }
    }

    fn priority(&self) -> (priority: usize) {
        match self {
            Block::Custom(block) => block.priority,
            Block::ExcerptBoundary { .. } => usize::MAX,
        }
    }
}

impl Block {
    pub open spec fn id_spec(&self) -> BlockId {
        match *self {
            Block::Custom(block) => BlockId::Custom(block.id),
            Block::ExcerptBoundary { next_excerpt, .. } => BlockId::ExcerptBoundary(
                match next_excerpt {
                    Some(info) => Some(info.id),
                    None => None,
                },
            ),
        }
    }

    pub fn id(&self) -> (id: BlockId)
        ensures
            id == self.id_spec(),
    {
        match self {
            Block::Custom(block) => BlockId::Custom(block.id),
            Block::ExcerptBoundary { next_excerpt, .. } => BlockId::ExcerptBoundary(
                match next_excerpt {
                    Some(info) => Some(info.id),
                    None => None,
                },
            ),
        }
    }

    pub open spec fn height_spec(&self) -> u32 {
        match *self {
            Block::Custom(block) => block.height,
            Block::ExcerptBoundary { height, .. } => height,
        }
    }

    #[verifier::when_used_as_spec(height_spec)]
    pub fn height(&self) -> (height: u32)
        ensures
            height == self.height_spec(),
    {
        match self {
            Block::Custom(block) => block.height,
            Block::ExcerptBoundary { height, .. } => *height,
        }
    }

    pub fn style(&self) -> (style: BlockStyle)
        ensures
            style == match *self {
                Block::Custom(block) => block.style,
                Block::ExcerptBoundary { .. } => BlockStyle::Sticky,
            },
    {
        match self {
            Block::Custom(block) => block.style,
            Block::ExcerptBoundary { .. } => BlockStyle::Sticky,
        }
    }

    /// The block stands below its line.
    pub open spec fn below(&self) -> bool {
        self.disposition_spec() is Below
    }

    /// The custom block with this id.
    pub open spec fn is_custom(&self, id: CustomBlockId) -> bool {
        self.block_type_spec() == BlockType::Custom(id)
    }
}

} // verus!
