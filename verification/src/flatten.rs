//! The flatten-and-filter engine: a block tree becomes the ordered list of its
//! content blocks.
//!
//! The walk is pre-order and left to right. A `Page` is a pure container: it
//! gives no record, its children are walked. A block of another excluded type
//! is dropped with everything below it. Every other block gives one record,
//! followed by what its children give.

use vstd::prelude::*;
use crate::block::{Block, Document, FlatBlock, FlatBlockView, flat_view, node_count, record_of};
use crate::chars::same_text;
use crate::text::extract_text_from_html;

verus! {

/// The type of a pure container.
pub open spec fn container_type(t: Seq<char>) -> bool {
    t == "Page"@
}

/// The types that are dropped together with their descendants.
pub open spec fn pruned_type(t: Seq<char>) -> bool {
    ||| t == "Header"@
    ||| t == "Footer"@
    ||| t == "PageHeader"@
    ||| t == "PageFooter"@
    ||| t == "Picture"@
    ||| t == "ListGroup"@
}

/// The exclusion set: the types that never give a record.
pub open spec fn excluded_type(t: Seq<char>) -> bool {
    container_type(t) || pruned_type(t)
}

/// The records that a forest gives, in output order.
pub open spec fn flattened(blocks: Seq<Block>) -> Seq<FlatBlockView>
    decreases blocks,
{
    if blocks.len() == 0 {
        Seq::empty()
    } else {
        let b = blocks[0];
        let below = flattened(b.children@);
        let head = if pruned_type(b.block_type@) {
            Seq::empty()
        } else if container_type(b.block_type@) {
            below
        } else {
            seq![record_of(b)] + below
        };
        head + flattened(blocks.drop_first())
    }
}

/// Whether some node of the forest has a type of the exclusion set.
pub open spec fn has_excluded(blocks: Seq<Block>) -> bool
    decreases blocks,
{
    blocks.len() > 0 && (excluded_type(blocks[0].block_type@) || has_excluded(blocks[0].children@)
        || has_excluded(blocks.drop_first()))
}

/// Whether `t` names the pure container type.
pub fn is_container_type(t: &str) -> (r: bool)
    ensures
        r == container_type(t@),
{
    same_text(t, "Page")
}

/// Whether `t` names a type that is dropped with its descendants.
pub fn is_pruned_type(t: &str) -> (r: bool)
    ensures
        r == pruned_type(t@),
{
    same_text(t, "Header") || same_text(t, "Footer") || same_text(t, "PageHeader") || same_text(
        t,
        "PageFooter",
    ) || same_text(t, "Picture") || same_text(t, "ListGroup")
}

/// Whether `t` is in the exclusion set.
pub fn is_excluded_type(t: &str) -> (r: bool)
    ensures
        r == excluded_type(t@),
{
    is_container_type(t) || is_pruned_type(t)
}

/// What two forests give, one after the other, is what their concatenation
/// gives.
pub proof fn lemma_flattened_concat(a: Seq<Block>, b: Seq<Block>)
    ensures
        flattened(a + b) == flattened(a) + flattened(b),
    decreases a.len(),
{
    if a.len() == 0 {
        assert(a + b =~= b);
        assert(flattened(a) + flattened(b) =~= flattened(b));
    } else {
        assert((a + b).drop_first() =~= a.drop_first() + b);
        assert((a + b)[0] == a[0]);
        lemma_flattened_concat(a.drop_first(), b);
        let rest = flattened(a.drop_first());
        let below = flattened(a[0].children@);
        assert((seq![record_of(a[0])] + below) + (rest + flattened(b)) =~= ((seq![record_of(a[0])]
            + below) + rest) + flattened(b));
        assert(below + (rest + flattened(b)) =~= (below + rest) + flattened(b));
        assert(Seq::<FlatBlockView>::empty() + (rest + flattened(b)) =~= (Seq::<
            FlatBlockView,
        >::empty() + rest) + flattened(b));
    }
}

/// What a single block gives.
pub proof fn lemma_flattened_one(b: Block)
    ensures
        flattened(seq![b]) == if pruned_type(b.block_type@) {
            Seq::<FlatBlockView>::empty()
        } else if container_type(b.block_type@) {
            flattened(b.children@)
        } else {
            seq![record_of(b)] + flattened(b.children@)
        },
{
    let s = seq![b];
    assert(s.drop_first() =~= Seq::<Block>::empty());
    assert(flattened(s.drop_first()) =~= Seq::<FlatBlockView>::empty());
    assert(s[0] == b);
    let below = flattened(b.children@);
    assert(below + Seq::<FlatBlockView>::empty() =~= below);
    assert((seq![record_of(b)] + below) + Seq::<FlatBlockView>::empty() =~= seq![record_of(b)]
        + below);
    assert(Seq::<FlatBlockView>::empty() + Seq::<FlatBlockView>::empty() =~= Seq::<
        FlatBlockView,
    >::empty());
}

/// What is still to come from a stack of forests, each with the index of
/// its next block: the top of the stack first.
spec fn pending(stack: Seq<(&Vec<Block>, usize)>) -> Seq<FlatBlockView>
    decreases stack.len(),
{
    if stack.len() == 0 {
        Seq::empty()
    } else {
        flattened(stack.last().0@.skip(stack.last().1 as int)) + pending(stack.drop_last())
    }
}

/// The number of nodes that a stack of forests still holds.
spec fn pending_nodes(stack: Seq<(&Vec<Block>, usize)>) -> nat
    decreases stack.len(),
{
    if stack.len() == 0 {
        0
    } else {
        node_count(stack.last().0@.skip(stack.last().1 as int)) + pending_nodes(stack.drop_last())
    }
}

proof fn lemma_pending_push(rest: Seq<(&Vec<Block>, usize)>, forest: &Vec<Block>, i: usize)
    ensures
        pending(rest.push((forest, i))) == flattened(forest@.skip(i as int)) + pending(rest),
        pending_nodes(rest.push((forest, i))) == node_count(forest@.skip(i as int)) + pending_nodes(
            rest,
        ),
{
    let stack = rest.push((forest, i));
    assert(stack.drop_last() =~= rest);
    assert(stack.last() == (forest, i));
}

proof fn lemma_forest_step(forest: Seq<Block>, i: int)
    requires
        0 <= i < forest.len(),
    ensures
        flattened(forest.skip(i)) == (if pruned_type(forest[i].block_type@) {
            Seq::<FlatBlockView>::empty()
        } else if container_type(forest[i].block_type@) {
            flattened(forest[i].children@)
        } else {
            seq![record_of(forest[i])] + flattened(forest[i].children@)
        }) + flattened(forest.skip(i + 1)),
        node_count(forest.skip(i)) == 1 + node_count(forest[i].children@) + node_count(
            forest.skip(i + 1),
        ),
{
    let here = forest.skip(i);
    assert(here.drop_first() =~= forest.skip(i + 1));
    assert(here[0] == forest[i]);
}

/// The walk, with a stack of its own in place of recursion: the depth of a
/// tree costs heap, not call stack.
fn flatten_forest(blocks: &Vec<Block>) -> (out: Vec<FlatBlock>)
    ensures
        flat_view(out@) == flattened(blocks@),
{
    let mut out: Vec<FlatBlock> = Vec::new();
    let mut stack: Vec<(&Vec<Block>, usize)> = Vec::new();
    stack.push((blocks, 0));
    proof {
        let empty = Seq::<(&Vec<Block>, usize)>::empty();
        assert(stack@ =~= empty.push((blocks, 0usize)));
        lemma_pending_push(empty, blocks, 0);
        assert(blocks@.skip(0) =~= blocks@);
        assert(flat_view(out@) + (flattened(blocks@) + pending(empty)) =~= flattened(blocks@));
    }
    while stack.len() > 0
        invariant
            forall|k: int| 0 <= k < stack@.len() ==> (#[trigger] stack@[k]).1 <= stack@[k].0@.len(),
            flat_view(out@) + pending(stack@) == flattened(blocks@),
        decreases pending_nodes(stack@), stack@.len(),
    {
        let ghost before = stack@;
        let ghost emitted = flat_view(out@);
        let (forest, i) = stack.pop().unwrap();
        let ghost rest = stack@;
        proof {
            assert(before =~= rest.push((forest, i)));
            lemma_pending_push(rest, forest, i);
        }
        if i < forest.len() {
            let b = &forest[i];
            let ghost after = flattened(forest@.skip(i as int + 1));
            let ghost below = flattened(b.children@);
            stack.push((forest, i + 1));
            let ghost mid = stack@;
            proof {
                lemma_forest_step(forest@, i as int);
                lemma_pending_push(rest, forest, (i + 1) as usize);
                assert(b.children@.skip(0) =~= b.children@);
            }
            if is_pruned_type(b.block_type.as_str()) {
                proof {
                    assert(Seq::<FlatBlockView>::empty() + after =~= after);
                }
            } else if is_container_type(b.block_type.as_str()) {
                stack.push((&b.children, 0));
                proof {
                    lemma_pending_push(mid, &b.children, 0);
                    assert(below + (after + pending(rest)) =~= (below + after) + pending(rest));
                }
            } else {
                let text = extract_text_from_html(b.html.as_str());
                let record = FlatBlock {
                    id: b.id.clone(),
                    block_type: b.block_type.clone(),
                    html: b.html.clone(),
                    text,
                };
                out.push(record);
                stack.push((&b.children, 0));
                proof {
                    lemma_pending_push(mid, &b.children, 0);
                    assert(record@ == record_of(*b));
                    assert(flat_view(out@) =~= emitted + seq![record_of(*b)]);
                    assert((emitted + seq![record_of(*b)]) + (below + (after + pending(rest)))
                        =~= emitted + (((seq![record_of(*b)] + below) + after) + pending(rest)));
                }
            }
        } else {
            proof {
                assert(forest@.skip(i as int) =~= Seq::<Block>::empty());
                assert(Seq::<FlatBlockView>::empty() + pending(rest) =~= pending(rest));
            }
        }
    }
    proof {
        assert(flat_view(out@) + Seq::<FlatBlockView>::empty() =~= flat_view(out@));
    }
    out
}

/// Flattens a forest of blocks into its content records, in pre-order.
pub fn flatten_and_filter_blocks(blocks: Vec<Block>) -> (out: Vec<FlatBlock>)
    ensures
        flat_view(out@) == flattened(blocks@),
        out@.len() <= node_count(blocks@),
        has_excluded(blocks@) ==> out@.len() < node_count(blocks@),
        forall|i: int| 0 <= i < out@.len() ==> !excluded_type(#[trigger] out@[i].block_type@),
{
    let out = flatten_forest(&blocks);
    proof {
        lemma_flattened_len(blocks@);
        lemma_no_excluded_record(blocks@);
        assert forall|i: int| 0 <= i < out@.len() implies !excluded_type(
            #[trigger] out@[i].block_type@,
        ) by {
            assert(flat_view(out@)[i].block_type == out@[i].block_type@);
        }
    }
    out
}

/// Flattens a document: its top-level blocks and all that stands below them.
pub fn flatten_document(document: Document) -> (out: Vec<FlatBlock>)
    ensures
        flat_view(out@) == flattened(document.children@),
        out@.len() <= node_count(document.children@),
{
    flatten_and_filter_blocks(document.children)
}

/// There are never more records than nodes, and fewer as soon as one node has
/// an excluded type.
pub proof fn lemma_flattened_len(blocks: Seq<Block>)
    ensures
        flattened(blocks).len() <= node_count(blocks),
        has_excluded(blocks) ==> flattened(blocks).len() < node_count(blocks),
    decreases blocks,
{
    if blocks.len() > 0 {
        lemma_flattened_len(blocks[0].children@);
        lemma_flattened_len(blocks.drop_first());
    }
}

/// No record has a type of the exclusion set: no `Page`, no header or footer,
/// no picture, no list group.
pub proof fn lemma_no_excluded_record(blocks: Seq<Block>)
    ensures
        forall|i: int|
            0 <= i < flattened(blocks).len() ==> !excluded_type(
                #[trigger] flattened(blocks)[i].block_type,
            ),
    decreases blocks,
{
    if blocks.len() > 0 {
        let b = blocks[0];
        let below = flattened(b.children@);
        let rest = flattened(blocks.drop_first());
        lemma_no_excluded_record(b.children@);
        lemma_no_excluded_record(blocks.drop_first());
        let all = flattened(blocks);
        assert forall|i: int| 0 <= i < all.len() implies !excluded_type(
            #[trigger] all[i].block_type,
        ) by {
            if pruned_type(b.block_type@) {
                assert(all[i] == rest[i]);
            } else if container_type(b.block_type@) {
                if i < below.len() {
                    assert(all[i] == below[i]);
                } else {
                    assert(all[i] == rest[i - below.len()]);
                }
            } else {
                if i == 0 {
                    assert(all[i] == record_of(b));
                } else if i < 1 + below.len() {
                    assert(all[i] == below[i - 1]);
                } else {
                    assert(all[i] == rest[i - 1 - below.len()]);
                }
            }
        }
    }
}

/// A `Page` is transparent: in its place stand the records of its children,
/// in their order, between what comes before and what comes after.
pub proof fn lemma_page_is_transparent(before: Seq<Block>, page: Block, after: Seq<Block>)
    requires
        container_type(page.block_type@),
    ensures
        !pruned_type(page.block_type@),
        flattened(before + seq![page] + after) == flattened(before) + flattened(page.children@)
            + flattened(after),
{
    lemma_type_names_differ();
    lemma_flattened_concat(before + seq![page], after);
    lemma_flattened_concat(before, seq![page]);
    lemma_flattened_one(page);
}

/// A block of a pruned type leaves no trace, whatever stands below it: the
/// output is that of the forest without the block.
pub proof fn lemma_pruned_is_dropped(before: Seq<Block>, b: Block, after: Seq<Block>)
    requires
        pruned_type(b.block_type@),
    ensures
        flattened(before + seq![b] + after) == flattened(before + after),
{
    lemma_flattened_concat(before + seq![b], after);
    lemma_flattened_concat(before, seq![b]);
    lemma_flattened_concat(before, after);
    lemma_flattened_one(b);
    assert(flattened(before) + Seq::<FlatBlockView>::empty() =~= flattened(before));
}

/// What stands below a block counts only through the records it gives: two
/// blocks that agree in identifier, type and markup, and whose children give
/// the same records, give the same records. With `lemma_pruned_is_dropped`
/// this carries the pruning to every depth: a pruned block among the children
/// of any block leaves no trace in what that block gives, nor in what any
/// block above it gives.
pub proof fn lemma_children_count_by_their_records(a: Block, b: Block)
    requires
        a.id@ == b.id@,
        a.block_type@ == b.block_type@,
        a.html@ == b.html@,
        flattened(a.children@) == flattened(b.children@),
    ensures
        flattened(seq![a]) == flattened(seq![b]),
{
    lemma_flattened_one(a);
    lemma_flattened_one(b);
}

/// A content block gives its own record, then at once what its children
/// give.
pub proof fn lemma_content_is_emitted(before: Seq<Block>, b: Block, after: Seq<Block>)
    requires
        !excluded_type(b.block_type@),
    ensures
        flattened(before + seq![b] + after) == flattened(before) + seq![record_of(b)] + flattened(
            b.children@,
        ) + flattened(after),
{
    lemma_flattened_concat(before + seq![b], after);
    lemma_flattened_concat(before, seq![b]);
    lemma_flattened_one(b);
    assert(flattened(before) + (seq![record_of(b)] + flattened(b.children@)) =~= flattened(before)
        + seq![record_of(b)] + flattened(b.children@));
}

/// Content blocks without children give their records one for one, in
/// their order. So do the children of a `Page` that are such blocks.
pub proof fn lemma_content_leaves_in_order(blocks: Seq<Block>)
    requires
        forall|i: int|
            0 <= i < blocks.len() ==> !excluded_type((#[trigger] blocks[i]).block_type@)
                && blocks[i].children@.len() == 0,
    ensures
        flattened(blocks) == blocks.map_values(|b: Block| record_of(b)),
    decreases blocks.len(),
{
    if blocks.len() > 0 {
        let rest = blocks.drop_first();
        assert forall|i: int| 0 <= i < rest.len() implies !excluded_type(
            (#[trigger] rest[i]).block_type@,
        ) && rest[i].children@.len() == 0 by {
            assert(rest[i] == blocks[i + 1]);
        }
        lemma_content_leaves_in_order(rest);
        assert(flattened(blocks[0].children@) =~= Seq::<FlatBlockView>::empty());
        assert(flattened(blocks) =~= blocks.map_values(|b: Block| record_of(b)));
    } else {
        assert(flattened(blocks) =~= blocks.map_values(|b: Block| record_of(b)));
    }
}

/// The container type is not one of the pruned types.
pub proof fn lemma_type_names_differ()
    ensures
        forall|t: Seq<char>| !(container_type(t) && pruned_type(t)),
{
    reveal_strlit("Page");
    reveal_strlit("Header");
    reveal_strlit("Footer");
    reveal_strlit("PageHeader");
    reveal_strlit("PageFooter");
    reveal_strlit("Picture");
    reveal_strlit("ListGroup");
    assert forall|t: Seq<char>| !(container_type(t) && pruned_type(t)) by {
        if container_type(t) && pruned_type(t) {
            assert(t.len() == 4);
            assert(t[1] == 'a');
        }
    }
}

} // verus!
