//! Typed display blocks: the preview output of the Markdown renderer, one
//! block per source line.

use vstd::prelude::*;

verus! {

/// One display block, produced from one source line.
pub enum Block {
    /// A blank line.
    Spacer,
    /// A heading line; `level` is 1, 2 or 3.
    Heading { level: u8, text: Vec<char> },
    /// A bulleted list item.
    ListItem { text: Vec<char> },
    /// A block quote line.
    Quote { text: Vec<char> },
    /// An opening code-fence marker. The renderer only toggles fence markers;
    /// the lines between two markers keep their ordinary classification.
    CodeFenceStart,
    /// A closing code-fence marker.
    CodeFenceEnd,
    /// Any other line, with surrounding whitespace removed.
    Paragraph { text: Vec<char> },
}

/// Mathematical model of a display block.
pub enum BlockModel {
    Spacer,
    Heading { level: int, text: Seq<char> },
    ListItem { text: Seq<char> },
    Quote { text: Seq<char> },
    CodeFenceStart,
    CodeFenceEnd,
    Paragraph { text: Seq<char> },
}

impl View for Block {
    type V = BlockModel;

    open spec fn view(&self) -> BlockModel {
        match self {
            Block::Spacer => BlockModel::Spacer,
            Block::Heading { level, text } => BlockModel::Heading {
                level: *level as int,
                text: text@,
            },
            Block::ListItem { text } => BlockModel::ListItem { text: text@ },
            Block::Quote { text } => BlockModel::Quote { text: text@ },
            Block::CodeFenceStart => BlockModel::CodeFenceStart,
            Block::CodeFenceEnd => BlockModel::CodeFenceEnd,
            Block::Paragraph { text } => BlockModel::Paragraph { text: text@ },
        }
    }
}

/// The models of a sequence of blocks.
pub open spec fn blocks_view(s: Seq<Block>) -> Seq<BlockModel> {
    s.map_values(|b: Block| b@)
}

} // verus!
