//! What a metadata tree is made of: which nodes a root leads to, in which
//! order a walk meets them, how deep it goes, and which segments its leaves
//! name.
use vstd::prelude::*;

use crate::error::StorageError;
use crate::id::MetadataNodeId;
use crate::idmap::{is_walk, IdMap};
use crate::metadata_records::{LeafEntry, MetadataNode, MetadataNodeKind};
use crate::tree::{
    block_at, child_index, children_wf, has_child_at, node_wf, run_at, tree_wf,
};

verus! {

/// Whether a walk down from one node meets another.
pub open spec fn reaches(nodes: Map<u128, MetadataNode>, from: u128, to: u128) -> bool
    decreases from,
{
    nodes.contains_key(from) && (from == to || (nodes[from].kind matches MetadataNodeKind::Internal {
        children,
    } && exists|i: int|
        0 <= i < children@.len() && (#[trigger] children@[i]).node_id.0 < from && reaches(
            nodes,
            children@[i].node_id.0,
            to,
        )))
}

/// Whether a set of nodes holds, with a node, each of its children that is
/// not older than a bound.
pub open spec fn closed_down(
    nodes: Map<u128, MetadataNode>,
    found: Map<u128, ()>,
    floor: u128,
) -> bool {
    forall|id: u128| #[trigger]
        found.contains_key(id) ==> nodes.contains_key(id) && (
        nodes[id].kind matches MetadataNodeKind::Internal { children } ==> forall|i: int|
            0 <= i < children@.len() && (#[trigger] children@[i]).node_id.0 >= floor
                ==> found.contains_key(children@[i].node_id.0))
}

/// A walk only ever meets older nodes.
pub proof fn lemma_reaches_older(nodes: Map<u128, MetadataNode>, from: u128, to: u128)
    requires
        reaches(nodes, from, to),
    ensures
        to <= from,
        nodes.contains_key(to),
    decreases from,
{
    if from != to {
        match nodes[from].kind {
            MetadataNodeKind::Internal { children } => {
                let i = choose|i: int|
                    0 <= i < children@.len() && (#[trigger] children@[i]).node_id.0 < from
                        && reaches(nodes, children@[i].node_id.0, to);
                lemma_reaches_older(nodes, children@[i].node_id.0, to);
            },
            MetadataNodeKind::Leaf { .. } => {},
        }
    }
}

/// A set that is closed holds all that its members lead to.
pub proof fn lemma_closed_reaches(
    nodes: Map<u128, MetadataNode>,
    found: Map<u128, ()>,
    floor: u128,
    from: u128,
    to: u128,
)
    requires
        closed_down(nodes, found, floor),
        found.contains_key(from),
        reaches(nodes, from, to),
        to >= floor,
    ensures
        found.contains_key(to),
    decreases from,
{
    if from != to {
        match nodes[from].kind {
            MetadataNodeKind::Internal { children } => {
                let i = choose|i: int|
                    0 <= i < children@.len() && (#[trigger] children@[i]).node_id.0 < from
                        && reaches(nodes, children@[i].node_id.0, to);
                let child = children@[i].node_id.0;
                lemma_reaches_older(nodes, child, to);
                lemma_closed_reaches(nodes, found, floor, child, to);
            },
            MetadataNodeKind::Leaf { .. } => {},
        }
    }
}

/// Adds to a set what a root leads to, down to a bound on the age of a node.
pub fn collect_nodes(
    nodes: &IdMap<MetadataNode>,
    root: MetadataNodeId,
    floor: u128,
    found: &mut IdMap<()>,
    block_size: Ghost<u64>,
) -> (result: Result<(), StorageError>)
    requires
        tree_wf(nodes@, block_size@),
        closed_down(nodes@, old(found)@, floor),
    ensures
        closed_down(nodes@, final(found)@, floor),
        result is Ok <==> root.0 < floor || nodes@.contains_key(root.0),
        forall|id: u128| #[trigger]
            final(found)@.contains_key(id) <==> old(found)@.contains_key(id) || (id >= floor
                && reaches(nodes@, root.0, id)),
        result matches Err(error) ==> error == (StorageError::NotFound {
            kind: "metadata_node",
            id: root.0,
        }),
    decreases root.0,
{
    proof {
        assert forall|id: u128| id >= floor && reaches(nodes@, root.0, id) implies root.0
            >= floor by {
            lemma_reaches_older(nodes@, root.0, id);
        }
    }
    if root.0 < floor {
        return Ok(());
    }
    if found.contains_key(root.0) {
        proof {
            assert forall|id: u128| id >= floor && reaches(nodes@, root.0, id) implies
                #[trigger] found@.contains_key(id) by {
                lemma_closed_reaches(nodes@, found@, floor, root.0, id);
            }
        }
        return Ok(());
    }
    let node = match nodes.get(root.0) {
        Some(node) => node,
        None => return Err(StorageError::not_found("metadata_node", root.0)),
    };
    assert(node_wf(nodes@, root.0, block_size@));
    match &node.kind {
        MetadataNodeKind::Leaf { .. } => {},
        MetadataNodeKind::Internal { children } => {
            assert(children_wf(nodes@, children@, node.covered_range, root.0));
            let mut next: usize = 0;
            while next < children.len()
                invariant
                    next <= children@.len(),
                    tree_wf(nodes@, block_size@),
                    children_wf(nodes@, children@, node.covered_range, root.0),
                    nodes@.contains_key(root.0),
                    nodes@[root.0].kind == (MetadataNodeKind::Internal { children: *children }),
                    closed_down(nodes@, found@, floor),
                    forall|id: u128| #[trigger]
                        found@.contains_key(id) <==> old(found)@.contains_key(id) || (id >= floor
                            && exists|i: int|
                            0 <= i < next && (#[trigger] children@[i]).node_id.0 < root.0
                                && reaches(nodes@, children@[i].node_id.0, id)),
                decreases children@.len() - next,
            {
                let ghost before = found@;
                let child = children[next].node_id;
                match collect_nodes(nodes, child, floor, found, block_size) {
                    Ok(()) => {},
                    Err(error) => {
                        assert(false);
                        return Err(error);
                    },
                }
                proof {
                    assert forall|id: u128| #[trigger]
                        found@.contains_key(id) <==> old(found)@.contains_key(id) || (id >= floor
                            && exists|i: int|
                            0 <= i < next + 1 && (#[trigger] children@[i]).node_id.0 < root.0
                                && reaches(nodes@, children@[i].node_id.0, id)) by {
                        if exists|i: int|
                            0 <= i < next + 1 && (#[trigger] children@[i]).node_id.0 < root.0
                                && reaches(nodes@, children@[i].node_id.0, id) {
                            let i = choose|i: int|
                                0 <= i < next + 1 && (#[trigger] children@[i]).node_id.0 < root.0
                                    && reaches(nodes@, children@[i].node_id.0, id);
                            if i < next {
                                assert(children@[i].node_id.0 < root.0);
                            }
                        }
                        if found@.contains_key(id) && !before.contains_key(id) {
                            assert(children@[next as int].node_id.0 < root.0);
                        }
                    }
                }
                next = next + 1;
            }
            proof {
                assert forall|i: int|
                    0 <= i < children@.len() && (#[trigger] children@[i]).node_id.0
                        >= floor implies found@.contains_key(children@[i].node_id.0) by {
                    assert(reaches(nodes@, children@[i].node_id.0, children@[i].node_id.0));
                }
            }
        },
    }
    found.insert(root.0, ());
    Ok(())
}

/// Whether one of some roots leads to a node.
pub open spec fn set_reaches(
    nodes: Map<u128, MetadataNode>,
    roots: Map<u128, ()>,
    id: u128,
) -> bool {
    exists|root: u128| #[trigger] roots.contains_key(root) && reaches(nodes, root, id)
}

/// Whether some roots, but for those below a bound, are stored.
pub open spec fn roots_stored(
    nodes: Map<u128, MetadataNode>,
    roots: Map<u128, ()>,
    floor: u128,
) -> bool {
    forall|root: u128| #[trigger]
        roots.contains_key(root) && root >= floor ==> nodes.contains_key(root)
}

/// All that some roots lead to, down to a bound on the age of a node.
pub fn collect_all(
    nodes: &IdMap<MetadataNode>,
    roots: &IdMap<()>,
    floor: u128,
    block_size: Ghost<u64>,
) -> (result: Result<IdMap<()>, StorageError>)
    requires
        tree_wf(nodes@, block_size@),
    ensures
        result is Ok <==> roots_stored(nodes@, roots@, floor),
        result matches Ok(found) ==> closed_down(nodes@, found@, floor) && forall|id: u128|
         #[trigger]
            found@.contains_key(id) <==> id >= floor && set_reaches(nodes@, roots@, id),
        result matches Err(error) ==> error is NotFound,
{
    let mut found: IdMap<()> = IdMap::new();
    let count: usize = roots.len();
    let ghost keys = roots.keys();
    let mut next: usize = 0;
    while next < count
        invariant
            next <= count,
            count == keys.len(),
            keys == roots.keys(),
            is_walk(keys, roots@),
            tree_wf(nodes@, block_size@),
            closed_down(nodes@, found@, floor),
            forall|id: u128| #[trigger]
                found@.contains_key(id) <==> id >= floor && exists|i: int|
                    0 <= i < next && reaches(nodes@, #[trigger] keys[i], id),
            forall|i: int|
                0 <= i < next ==> #[trigger] keys[i] < floor || nodes@.contains_key(keys[i]),
        decreases count - next,
    {
        let ghost then = found@;
        let (root, _) = roots.entry_at(next);
        assert(keys[next as int] == root);
        match collect_nodes(nodes, MetadataNodeId(root), floor, &mut found, block_size) {
            Ok(()) => {},
            Err(error) => {
                assert(roots@.contains_key(root));
                return Err(error);
            },
        }
        proof {
            assert forall|id: u128| #[trigger]
                found@.contains_key(id) <==> id >= floor && exists|i: int|
                    0 <= i < next + 1 && reaches(nodes@, #[trigger] keys[i], id) by {
                if then.contains_key(id) {
                    let i = choose|i: int|
                        0 <= i < next && reaches(nodes@, #[trigger] keys[i], id);
                    assert(reaches(nodes@, keys[i], id));
                }
                if reaches(nodes@, root, id) {
                    assert(reaches(nodes@, keys[next as int], id));
                }
            }
        }
        next = next + 1;
    }
    proof {
        assert forall|id: u128| #[trigger] roots@.contains_key(id) && id >= floor implies
            nodes@.contains_key(id) by {
            assert(keys.contains(id));
            let i = keys.index_of(id);
            assert(keys[i] == id);
        }
        assert forall|id: u128| #[trigger]
            found@.contains_key(id) <==> id >= floor && set_reaches(nodes@, roots@, id) by {
            if found@.contains_key(id) {
                let i = choose|i: int| 0 <= i < next && reaches(nodes@, #[trigger] keys[i], id);
                assert(roots@.contains_key(keys[i]));
            }
            if set_reaches(nodes@, roots@, id) {
                let root = choose|root: u128| #[trigger]
                    roots@.contains_key(root) && reaches(nodes@, root, id);
                assert(keys.contains(root));
                let i = keys.index_of(root);
                assert(reaches(nodes@, keys[i], id));
            }
        }
    }
    Ok(found)
}

/// Whether one of some nodes is a leaf that names a segment.
pub open spec fn names_segment(
    nodes: Map<u128, MetadataNode>,
    found: Map<u128, ()>,
    segment_id: u128,
) -> bool {
    exists|id: u128| #[trigger]
        found.contains_key(id) && nodes.contains_key(id) && node_names(nodes[id], segment_id)
}

/// Whether a node is a leaf that names a segment.
pub open spec fn node_names(node: MetadataNode, segment_id: u128) -> bool {
    node.kind matches MetadataNodeKind::Leaf { entries, .. } && exists|i: int|
        0 <= i < entries@.len() && (#[trigger] entries@[i]).segment_id.0 == segment_id
}

fn add_segments(entries: &Vec<LeafEntry>, segments: &mut IdMap<()>)
    ensures
        forall|id: u128| #[trigger]
            final(segments)@.contains_key(id) <==> old(segments)@.contains_key(id) || exists|i: int|
                0 <= i < entries@.len() && (#[trigger] entries@[i]).segment_id.0 == id,
{
    let mut next: usize = 0;
    while next < entries.len()
        invariant
            next <= entries@.len(),
            forall|id: u128| #[trigger]
                segments@.contains_key(id) <==> old(segments)@.contains_key(id) || exists|i: int|
                    0 <= i < next && (#[trigger] entries@[i]).segment_id.0 == id,
        decreases entries@.len() - next,
    {
        let ghost before = segments@;
        segments.insert(entries[next].segment_id.0, ());
        proof {
            assert forall|id: u128| #[trigger]
                segments@.contains_key(id) <==> old(segments)@.contains_key(id) || exists|i: int|
                    0 <= i < next + 1 && (#[trigger] entries@[i]).segment_id.0 == id by {
                if before.contains_key(id) && !old(segments)@.contains_key(id) {
                    let i = choose|i: int|
                        0 <= i < next && (#[trigger] entries@[i]).segment_id.0 == id;
                    assert(entries@[i].segment_id.0 == id);
                }
                if id == entries@[next as int].segment_id.0 {
                    assert(entries@[next as int].segment_id.0 == id);
                }
            }
        }
        next = next + 1;
    }
}

/// The segments that the leaves among some nodes name.
pub fn segments_named(nodes: &IdMap<MetadataNode>, found: &IdMap<()>) -> (segments: IdMap<()>)
    ensures
        forall|id: u128| #[trigger]
            segments@.contains_key(id) <==> names_segment(nodes@, found@, id),
{
    let mut segments: IdMap<()> = IdMap::new();
    let count = found.len();
    let ghost keys = found.keys();
    let mut next: usize = 0;
    while next < count
        invariant
            next <= count,
            keys == found.keys(),
            count == keys.len(),
            is_walk(keys, found@),
            forall|id: u128| #[trigger]
                segments@.contains_key(id) <==> exists|i: int|
                    0 <= i < next && nodes@.contains_key(#[trigger] keys[i]) && node_names(
                        nodes@[keys[i]],
                        id,
                    ),
        decreases count - next,
    {
        let ghost before = segments@;
        let (key, _unit) = found.entry_at(next);
        match nodes.get(key) {
            Some(node) => match &node.kind {
                MetadataNodeKind::Leaf { entries, .. } => add_segments(entries, &mut segments),
                MetadataNodeKind::Internal { .. } => {},
            },
            None => {},
        }
        proof {
            assert(keys[next as int] == key);
            assert forall|id: u128| #[trigger]
                segments@.contains_key(id) <==> exists|i: int|
                    0 <= i < next + 1 && nodes@.contains_key(#[trigger] keys[i]) && node_names(
                        nodes@[keys[i]],
                        id,
                    ) by {
                if before.contains_key(id) {
                    let i = choose|i: int|
                        0 <= i < next && nodes@.contains_key(#[trigger] keys[i]) && node_names(
                            nodes@[keys[i]],
                            id,
                        );
                    assert(nodes@.contains_key(keys[i]));
                }
                if nodes@.contains_key(key) && node_names(nodes@[key], id) {
                    assert(nodes@.contains_key(keys[next as int]));
                }
            }
        }
        next = next + 1;
    }
    proof {
        assert forall|id: u128| #[trigger]
            segments@.contains_key(id) <==> names_segment(nodes@, found@, id) by {
            if segments@.contains_key(id) {
                let i = choose|i: int|
                    0 <= i < count && nodes@.contains_key(#[trigger] keys[i]) && node_names(
                        nodes@[keys[i]],
                        id,
                    );
                assert(found@.contains_key(keys[i]));
            }
            if names_segment(nodes@, found@, id) {
                let node = choose|node: u128| #[trigger]
                    found@.contains_key(node) && nodes@.contains_key(node) && node_names(
                        nodes@[node],
                        id,
                    );
                let i = keys.index_of(node);
                assert(keys.contains(node));
                assert(keys[i] == node);
                assert(nodes@.contains_key(keys[i]));
            }
        }
    }
    segments
}

/// A store that keeps all that a root leads to keeps what the root maps.
pub proof fn lemma_kept_below(
    before: Map<u128, MetadataNode>,
    after: Map<u128, MetadataNode>,
    id: u128,
    block_size: u64,
)
    requires
        forall|n: u128| #[trigger]
            reaches(before, id, n) ==> after.contains_key(n) && after[n] == before[n],
        before.contains_key(id),
        tree_wf(before, block_size),
    ensures
        forall|block: int| #[trigger] block_at(after, id, block) == block_at(before, id, block),
        forall|byte: int| #[trigger]
            run_at(after, id, block_size, byte) == run_at(before, id, block_size, byte),
    decreases id,
{
    assert(reaches(before, id, id));
    assert(node_wf(before, id, block_size));
    match before[id].kind {
        MetadataNodeKind::Leaf { .. } => {},
        MetadataNodeKind::Internal { children } => {
            assert forall|i: int| 0 <= i < children@.len() implies (forall|block: int| #[trigger]
                block_at(after, (#[trigger] children@[i]).node_id.0, block) == block_at(
                    before,
                    children@[i].node_id.0,
                    block,
                )) && (forall|byte: int| #[trigger]
                run_at(after, children@[i].node_id.0, block_size, byte) == run_at(
                    before,
                    children@[i].node_id.0,
                    block_size,
                    byte,
                )) by {
                let child = children@[i].node_id.0;
                assert forall|n: u128| #[trigger] reaches(before, child, n) implies
                    after.contains_key(n) && after[n] == before[n] by {
                    assert(children@[i].node_id.0 < id);
                    assert(reaches(before, id, n));
                }
                lemma_kept_below(before, after, child, block_size);
            }
            assert forall|block: int| #[trigger]
                block_at(after, id, block) == block_at(before, id, block) by {
                if has_child_at(children@, block) {
                    let at = child_index(children@, block);
                    assert(0 <= at < children@.len());
                    assert(block_at(after, children@[at].node_id.0, block) == block_at(
                        before,
                        children@[at].node_id.0,
                        block,
                    ));
                }
            }
            assert forall|byte: int| #[trigger]
                run_at(after, id, block_size, byte) == run_at(before, id, block_size, byte) by {
                let block = byte / block_size as int;
                if has_child_at(children@, block) {
                    let at = child_index(children@, block);
                    assert(0 <= at < children@.len());
                    assert(run_at(after, children@[at].node_id.0, block_size, byte) == run_at(
                        before,
                        children@[at].node_id.0,
                        block_size,
                        byte,
                    ));
                }
            }
        },
    }
}

} // verus!
