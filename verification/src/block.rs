//! The block tree that comes in and the flat records that go out.

use vstd::prelude::*;
use crate::text::extracted_text;

verus! {

/// One node of a document tree. Geometry and other layout data are not part
/// of it: nothing here reads them.
#[derive(Debug)]
pub struct Block {
    pub id: String,
    pub block_type: String,
    pub html: String,
    pub children: Vec<Block>,
}

/// A document: the top-level blocks, in order.
#[derive(Debug)]
pub struct Document {
    pub children: Vec<Block>,
}

/// One record of the flat output.
#[derive(Debug)]
pub struct FlatBlock {
    pub id: String,
    pub block_type: String,
    pub html: String,
    pub text: String,
}

/// What a flat record holds, as plain sequences.
pub struct FlatBlockView {
    pub id: Seq<char>,
    pub block_type: Seq<char>,
    pub html: Seq<char>,
    pub text: Seq<char>,
}

impl View for FlatBlock {
    type V = FlatBlockView;

    open spec fn view(&self) -> FlatBlockView {
        FlatBlockView {
            id: self.id@,
            block_type: self.block_type@,
            html: self.html@,
            text: self.text@,
        }
    }
}

/// The views of a sequence of records.
pub open spec fn flat_view(s: Seq<FlatBlock>) -> Seq<FlatBlockView> {
    s.map_values(|f: FlatBlock| f@)
}

/// The record that a content block gives: identifier, type and markup as they
/// are, and the text extracted from the markup.
pub open spec fn record_of(b: Block) -> FlatBlockView {
    FlatBlockView {
        id: b.id@,
        block_type: b.block_type@,
        html: b.html@,
        text: extracted_text(b.html@),
    }
}

/// The number of nodes of a forest.
pub open spec fn node_count(blocks: Seq<Block>) -> nat
    decreases blocks,
{
    if blocks.len() == 0 {
        0
    } else {
        1 + node_count(blocks[0].children@) + node_count(blocks.drop_first())
    }
}

impl Block {
    /// A block without markup and without children.
    pub fn new(id: String, block_type: String) -> (b: Block)
        ensures
            b.id == id,
            b.block_type == block_type,
            b.html@.len() == 0,
            b.children@.len() == 0,
    {
        Block { id, block_type, html: String::new(), children: Vec::new() }
    }
}

impl Default for Block {
    fn default() -> (b: Block)
        ensures
            b.id@.len() == 0,
            b.block_type@.len() == 0,
            b.html@.len() == 0,
            b.children@.len() == 0,
    {
        Block { id: String::new(), block_type: String::new(), html: String::new(), children: Vec::new() }
    }
}

} // verus!
