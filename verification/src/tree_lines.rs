//! The lines of a metadata tree's text.
use vstd::prelude::*;

use crate::id::MetadataNodeId;
use crate::metadata_records::{
    LeafEntry, MetadataChild, MetadataNode, MetadataNodeKind, RunBackedFileExtent,
};
use crate::text::{decimal, spaces};
use crate::tree_report::{
    child_ids, child_text, entry_line, entry_lines, node_line, run_line, run_lines, span_text,
    tree_ids, tree_text,
};

verus! {

/// A line of a tree's text: a node, or what a leaf maps.
pub enum TreeLine {
    Node { id: u128, depth: nat },
    Entry { entry: LeafEntry, depth: nat },
    Run { extent: RunBackedFileExtent, depth: nat },
}

pub open spec fn line_text(nodes: Map<u128, MetadataNode>, line: TreeLine) -> Seq<char> {
    match line {
        TreeLine::Node { id, depth } => node_line(nodes[id], depth),
        TreeLine::Entry { entry, depth } => entry_line(entry, depth),
        TreeLine::Run { extent, depth } => run_line(extent, depth),
    }
}

/// Lines one behind the other.
pub open spec fn lines_text(nodes: Map<u128, MetadataNode>, lines: Seq<TreeLine>) -> Seq<char>
    decreases lines.len(),
{
    if lines.len() == 0 {
        Seq::empty()
    } else {
        lines_text(nodes, lines.drop_last()) + line_text(nodes, lines.last())
    }
}

/// The nodes that lines are for.
pub open spec fn line_nodes(lines: Seq<TreeLine>) -> Seq<MetadataNodeId>
    decreases lines.len(),
{
    if lines.len() == 0 {
        Seq::empty()
    } else {
        line_nodes(lines.drop_last()) + match lines.last() {
            TreeLine::Node { id, .. } => seq![MetadataNodeId(id)],
            _ => Seq::empty(),
        }
    }
}

/// The lines of a tree: one for each node, before those of what is below it.
pub open spec fn tree_lines(nodes: Map<u128, MetadataNode>, id: u128, depth: nat) -> Seq<TreeLine>
    decreases id, 1nat, 0nat,
{
    seq![TreeLine::Node { id, depth }] + match nodes[id].kind {
        MetadataNodeKind::Leaf { entries, run_extents } => entry_list(entries@, depth) + run_list(
            run_extents@,
            depth,
        ),
        MetadataNodeKind::Internal { children } => child_lines(nodes, children@, id, depth),
    }
}

pub open spec fn entry_list(entries: Seq<LeafEntry>, depth: nat) -> Seq<TreeLine> {
    entries.map_values(|entry: LeafEntry| TreeLine::Entry { entry, depth })
}

pub open spec fn run_list(extents: Seq<RunBackedFileExtent>, depth: nat) -> Seq<TreeLine> {
    extents.map_values(|extent: RunBackedFileExtent| TreeLine::Run { extent, depth })
}

pub open spec fn child_lines(
    nodes: Map<u128, MetadataNode>,
    children: Seq<MetadataChild>,
    below: u128,
    depth: nat,
) -> Seq<TreeLine>
    decreases below, 0nat, children.len(),
{
    if children.len() == 0 {
        Seq::empty()
    } else {
        child_lines(nodes, children.drop_last(), below, depth) + if children.last().node_id.0
            < below {
            tree_lines(nodes, children.last().node_id.0, depth + 1)
        } else {
            Seq::empty()
        }
    }
}

proof fn lemma_lines_concat(nodes: Map<u128, MetadataNode>, a: Seq<TreeLine>, b: Seq<TreeLine>)
    ensures
        lines_text(nodes, a + b) == lines_text(nodes, a) + lines_text(nodes, b),
        line_nodes(a + b) == line_nodes(a) + line_nodes(b),
    decreases b.len(),
{
    if b.len() == 0 {
        assert(a + b =~= a);
        assert(lines_text(nodes, a) + lines_text(nodes, b) =~= lines_text(nodes, a));
        assert(line_nodes(a) + line_nodes(b) =~= line_nodes(a));
    } else {
        assert((a + b).drop_last() =~= a + b.drop_last());
        assert((a + b).last() == b.last());
        lemma_lines_concat(nodes, a, b.drop_last());
        assert(lines_text(nodes, a + b) =~= lines_text(nodes, a) + lines_text(nodes, b));
        assert(line_nodes(a + b) =~= line_nodes(a) + line_nodes(b));
    }
}

proof fn lemma_one_line(nodes: Map<u128, MetadataNode>, line: TreeLine)
    ensures
        lines_text(nodes, seq![line]) == line_text(nodes, line),
        line_nodes(seq![line]) == match line {
            TreeLine::Node { id, .. } => seq![MetadataNodeId(id)],
            _ => Seq::empty(),
        },
{
    let one = seq![line];
    let none = one.drop_last();
    assert(none =~= Seq::empty());
    assert(one.last() == line);
    assert(lines_text(nodes, none) =~= Seq::empty());
    assert(line_nodes(none) =~= Seq::empty());
    assert(lines_text(nodes, one) =~= line_text(nodes, line));
    assert(line_nodes(one) =~= match line {
        TreeLine::Node { id, .. } => seq![MetadataNodeId(id)],
        _ => Seq::empty(),
    });
}

proof fn lemma_entry_list(nodes: Map<u128, MetadataNode>, entries: Seq<LeafEntry>, depth: nat)
    ensures
        lines_text(nodes, entry_list(entries, depth)) == entry_lines(entries, depth),
        line_nodes(entry_list(entries, depth)) == Seq::<MetadataNodeId>::empty(),
    decreases entries.len(),
{
    if entries.len() > 0 {
        lemma_entry_list(nodes, entries.drop_last(), depth);
        let lines = entry_list(entries, depth);
        assert(lines.drop_last() =~= entry_list(entries.drop_last(), depth));
        assert(lines.last() == (TreeLine::Entry { entry: entries.last(), depth }));
        assert(line_nodes(lines) =~= Seq::empty());
    }
}

proof fn lemma_run_list(
    nodes: Map<u128, MetadataNode>,
    extents: Seq<RunBackedFileExtent>,
    depth: nat,
)
    ensures
        lines_text(nodes, run_list(extents, depth)) == run_lines(extents, depth),
        line_nodes(run_list(extents, depth)) == Seq::<MetadataNodeId>::empty(),
    decreases extents.len(),
{
    if extents.len() > 0 {
        lemma_run_list(nodes, extents.drop_last(), depth);
        let lines = run_list(extents, depth);
        assert(lines.drop_last() =~= run_list(extents.drop_last(), depth));
        assert(lines.last() == (TreeLine::Run { extent: extents.last(), depth }));
        assert(line_nodes(lines) =~= Seq::empty());
    }
}

/// A tree's text is made of its lines, and the lines that are for nodes are for the
/// tree's nodes, in their order.
pub proof fn law_tree_text_is_lines(nodes: Map<u128, MetadataNode>, id: u128, depth: nat)
    ensures
        tree_text(nodes, id, depth) == lines_text(nodes, tree_lines(nodes, id, depth)),
        line_nodes(tree_lines(nodes, id, depth)) == tree_ids(nodes, id),
    decreases id, 1nat, 0nat,
{
    let head = seq![TreeLine::Node { id, depth }];
    lemma_one_line(nodes, TreeLine::Node { id, depth });
    match nodes[id].kind {
        MetadataNodeKind::Leaf { entries, run_extents } => {
            let (a, b) = (entry_list(entries@, depth), run_list(run_extents@, depth));
            lemma_entry_list(nodes, entries@, depth);
            lemma_run_list(nodes, run_extents@, depth);
            lemma_lines_concat(nodes, a, b);
            lemma_lines_concat(nodes, head, a + b);
            assert(line_nodes(a + b) =~= Seq::empty());
        },
        MetadataNodeKind::Internal { children } => {
            lemma_child_lines(nodes, children@, id, depth);
            lemma_lines_concat(nodes, head, child_lines(nodes, children@, id, depth));
        },
    }
}

proof fn lemma_child_lines(
    nodes: Map<u128, MetadataNode>,
    children: Seq<MetadataChild>,
    below: u128,
    depth: nat,
)
    ensures
        child_text(nodes, children, below, depth) == lines_text(
            nodes,
            child_lines(nodes, children, below, depth),
        ),
        line_nodes(child_lines(nodes, children, below, depth)) == child_ids(
            nodes,
            children,
            below,
        ),
    decreases below, 0nat, children.len(),
{
    if children.len() > 0 {
        let shorter = children.drop_last();
        let last = children.last().node_id.0;
        lemma_child_lines(nodes, shorter, below, depth);
        let fewer = child_lines(nodes, shorter, below, depth);
        if last < below {
            law_tree_text_is_lines(nodes, last, depth + 1);
            lemma_lines_concat(nodes, fewer, tree_lines(nodes, last, depth + 1));
        } else {
            lemma_lines_concat(nodes, fewer, Seq::empty());
        }
    }
}

/// Whether some text is one line: it ends with the only newline that it has.
pub open spec fn is_line(text: Seq<char>) -> bool {
    &&& text.len() > 0
    &&& text.last() == '\n'
    &&& forall|i: int| 0 <= i < text.len() - 1 ==> #[trigger] text[i] != '\n'
}

/// Whether some text has no newline.
pub open spec fn flat(text: Seq<char>) -> bool {
    forall|i: int| 0 <= i < text.len() ==> #[trigger] text[i] != '\n'
}

proof fn lemma_flat_concat(a: Seq<char>, b: Seq<char>)
    requires
        flat(a),
        flat(b),
    ensures
        flat(a + b),
{
}

proof fn lemma_decimal_flat(value: nat)
    ensures
        flat(decimal(value)),
    decreases value,
{
    if value >= 10 {
        lemma_decimal_flat(value / 10);
    }
}

proof fn lemma_span_flat(start: int, end: int)
    ensures
        flat(span_text(start, end)),
        span_text(start, end).len() >= 2,
        span_text(start, end)[0] == ' ',
        span_text(start, end)[1] == '[',
{
    reveal_strlit(" [");
    reveal_strlit("..");
    reveal_strlit(")");
    lemma_decimal_flat(start as nat);
    lemma_decimal_flat(end as nat);
    lemma_flat_concat(" ["@, decimal(start as nat));
    lemma_flat_concat(" ["@ + decimal(start as nat), ".."@);
    lemma_flat_concat(" ["@ + decimal(start as nat) + ".."@, decimal(end as nat));
    lemma_flat_concat(" ["@ + decimal(start as nat) + ".."@ + decimal(end as nat), ")"@);
}

/// Every line of a tree's text is one line. That of a node starts with two spaces
/// for each level above it, `node ` and the node's number; any other starts with
/// two spaces more than its node's, and the range that is mapped.
pub proof fn law_tree_lines_are_lines(nodes: Map<u128, MetadataNode>, line: TreeLine)
    ensures
        is_line(line_text(nodes, line)),
        match line {
            TreeLine::Node { id, depth } => {
                let head = spaces(2 * depth) + "node "@ + decimal(nodes[id].node_id.0 as nat);
                line_text(nodes, line).len() > head.len() && line_text(nodes, line).take(
                    head.len() as int,
                ) == head
            },
            TreeLine::Entry { depth, .. } => line_text(nodes, line).take((2 * depth + 2) as int) == spaces(
                2 * depth + 2,
            ) && line_text(nodes, line)[(2 * depth + 2) as int] == '[',
            TreeLine::Run { depth, .. } => line_text(nodes, line).take((2 * depth + 2) as int) == spaces(
                2 * depth + 2,
            ) && line_text(nodes, line)[(2 * depth + 2) as int] == '[',
        },
{
    match line {
        TreeLine::Node { id, depth } => lemma_node_line(nodes[id], depth),
        TreeLine::Entry { entry, depth } => {
            let (from, to) = (entry.logical_start.0 as int, entry.range().end());
            let (a, b) = (entry.segment_id.0 as nat, entry.segment_offset.0 as nat);
            reveal_strlit(" -> segment ");
            lemma_mapped_line(from, to, " -> segment "@, a, b, depth);
        },
        TreeLine::Run { extent, depth } => {
            let (from, to) = (
                extent.file_offset_start as int,
                extent.file_offset_start + extent.payload_len,
            );
            let (a, b) = (extent.run.run_id.0 as nat, extent.run.log_payload_offset as nat);
            reveal_strlit(" -> append-run ");
            lemma_mapped_line(from, to, " -> append-run "@, a, b, depth);
        },
    }
}

/// Text without a newline and a newline are a line.
proof fn lemma_line(head: Seq<char>, tail: Seq<char>, text: Seq<char>)
    requires
        flat(head),
        flat(tail),
        text == head + tail + "\n"@,
    ensures
        is_line(text),
        text.len() > head.len(),
        text.take(head.len() as int) == head,
{
    reveal_strlit("\n");
    lemma_flat_concat(head, tail);
    let whole = head + tail;
    assert forall|i: int| 0 <= i < text.len() - 1 implies #[trigger] text[i] != '\n' by {
        assert(text[i] == whole[i]);
    }
    assert(text.take(head.len() as int) =~= head);
}

proof fn lemma_node_line(node: MetadataNode, depth: nat)
    ensures
        ({
            let head = spaces(2 * depth) + "node "@ + decimal(node.node_id.0 as nat);
            let text = node_line(node, depth);
            is_line(text) && text.len() > head.len() && text.take(head.len() as int) == head
        }),
{
    reveal_strlit("node ");
    let head = spaces(2 * depth) + "node "@ + decimal(node.node_id.0 as nat);
    let (from, to) = (node.covered_range.start.0 as int, node.covered_range.end());
    lemma_decimal_flat(node.node_id.0 as nat);
    lemma_span_flat(from, to);
    lemma_flat_concat(spaces(2 * depth), "node "@);
    lemma_flat_concat(spaces(2 * depth) + "node "@, decimal(node.node_id.0 as nat));
    let span = span_text(from, to);
    match node.kind {
        MetadataNodeKind::Internal { children } => {
            reveal_strlit(" internal");
            reveal_strlit(" children=");
            let count = decimal(children@.len());
            lemma_decimal_flat(children@.len());
            lemma_flat_concat(" internal"@, span);
            lemma_flat_concat(" internal"@ + span, " children="@);
            lemma_flat_concat(" internal"@ + span + " children="@, count);
            let tail = " internal"@ + span + " children="@ + count;
            assert(node_line(node, depth) =~= head + tail + "\n"@);
            lemma_line(head, tail, node_line(node, depth));
        },
        MetadataNodeKind::Leaf { entries, run_extents } => {
            reveal_strlit(" leaf");
            reveal_strlit(" entries=");
            reveal_strlit(" run_extents=");
            let (count, runs) = (decimal(entries@.len()), decimal(run_extents@.len()));
            lemma_decimal_flat(entries@.len());
            lemma_decimal_flat(run_extents@.len());
            lemma_flat_concat(" leaf"@, span);
            lemma_flat_concat(" leaf"@ + span, " entries="@);
            lemma_flat_concat(" leaf"@ + span + " entries="@, count);
            lemma_flat_concat(" leaf"@ + span + " entries="@ + count, " run_extents="@);
            lemma_flat_concat(" leaf"@ + span + " entries="@ + count + " run_extents="@, runs);
            let tail = " leaf"@ + span + " entries="@ + count + " run_extents="@ + runs;
            assert(node_line(node, depth) =~= head + tail + "\n"@);
            lemma_line(head, tail, node_line(node, depth));
        },
    }
}

/// The line of a mapped range.
proof fn lemma_mapped_line(
    from: int,
    to: int,
    arrow: Seq<char>,
    source: nat,
    offset: nat,
    depth: nat,
)
    requires
        flat(arrow),
    ensures
        ({
            let text = spaces(2 * depth) + " "@ + span_text(from, to) + arrow + decimal(source)
                + "@"@ + decimal(offset) + "\n"@;
            is_line(text) && text.take((2 * depth + 2) as int) == spaces(2 * depth + 2)
                && text[(2 * depth + 2) as int] == '['
        }),
{
    reveal_strlit(" ");
    reveal_strlit("@");
    let span = span_text(from, to);
    lemma_span_flat(from, to);
    lemma_decimal_flat(source);
    lemma_decimal_flat(offset);
    let head = spaces(2 * depth) + " "@ + span;
    lemma_flat_concat(spaces(2 * depth), " "@);
    lemma_flat_concat(spaces(2 * depth) + " "@, span);
    lemma_flat_concat(arrow, decimal(source));
    lemma_flat_concat(arrow + decimal(source), "@"@);
    lemma_flat_concat(arrow + decimal(source) + "@"@, decimal(offset));
    let tail = arrow + decimal(source) + "@"@ + decimal(offset);
    let text = spaces(2 * depth) + " "@ + span_text(from, to) + arrow + decimal(source) + "@"@
        + decimal(offset) + "\n"@;
    assert(text =~= head + tail + "\n"@);
    lemma_line(head, tail, text);
    assert(text.take((2 * depth + 2) as int) =~= spaces(2 * depth + 2)) by {
        assert forall|i: int| 0 <= i < 2 * depth + 2 implies #[trigger] text[i] == ' ' by {
            assert(text.take(head.len() as int)[i] == head[i]);
        }
    }
    assert(text.take(head.len() as int)[(2 * depth + 2) as int] == head[(2 * depth + 2) as int]);
}

} // verus!
