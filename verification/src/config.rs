//! The shape and the runtime policy of a local store.
use vstd::prelude::*;

use crate::codec::{
    lemma_starts_with_value, pair_same, pair_wire, DurableCodec, DurableDecoder, DurableEncode,
    DurableEncoder,
};
use crate::direct_io::{is_power_of_two, power_of_two};
use crate::error::StorageError;
use crate::id::{CommitSeq, StorageNodeId};

verus! {

/// How many events are kept where nothing else is asked for.
pub const DEFAULT_OBSERVABILITY_EVENT_CAPACITY: usize = 1024;

/// The shape and the runtime policy of a local store.
#[derive(Clone, Copy, Debug, PartialEq, Eq, Structural)]
pub struct LocalStoreConfig {
    pub shard_count: usize,
    pub block_size: u32,
    pub file_root_blocks: u64,
    pub metadata_fanout: usize,
    pub metadata_leaf_blocks: u64,
    pub storage_node: StorageNodeId,
    pub observability_event_capacity: usize,
    pub stream_auto_persist_bytes: Option<u64>,
}

impl DurableEncode for LocalStoreConfig {
    #[verifier::opaque]
    open spec fn wire(&self) -> Seq<u8> {
        self.fields().wire()
    }

    open spec fn durable(&self) -> bool {
        self.fields().durable()
    }

    fn encode(&self, out: &mut DurableEncoder) -> (result: Result<(), StorageError>) {
        reveal(pair_wire);
        reveal(<LocalStoreConfig as DurableEncode>::wire);
        ((&self.shard_count, (&self.block_size, (&self.file_root_blocks, &self.metadata_fanout))), (&self.metadata_leaf_blocks, (&self.storage_node, (&self.observability_event_capacity, &self.stream_auto_persist_bytes)))).encode(out)
    }
}

impl LocalStoreConfig {
    pub open spec fn fields(self) -> ((usize, (u32, (u64, usize))), (u64, (StorageNodeId, (usize, Option<u64>)))) {
        ((self.shard_count, (self.block_size, (self.file_root_blocks, self.metadata_fanout))), (self.metadata_leaf_blocks, (self.storage_node, (self.observability_event_capacity, self.stream_auto_persist_bytes))))
    }
}

impl DurableCodec for LocalStoreConfig {
    open spec fn same(&self, other: &LocalStoreConfig) -> bool {
        *self == *other
    }

    proof fn lemma_unambiguous(a: &LocalStoreConfig, b: &LocalStoreConfig, a_tail: Seq<u8>, b_tail: Seq<u8>) {
        reveal(<LocalStoreConfig as DurableEncode>::wire);
        reveal(pair_same);
        <((usize, (u32, (u64, usize))), (u64, (StorageNodeId, (usize, Option<u64>))))>::lemma_unambiguous(&a.fields(), &b.fields(), a_tail, b_tail);
        assert(a.same(b));
    }

    fn decode(input: &mut DurableDecoder<'_>) -> (result: Result<LocalStoreConfig, StorageError>) {
        reveal(<LocalStoreConfig as DurableEncode>::wire);
        let ghost whole = input.rest();
        match <((usize, (u32, (u64, usize))), (u64, (StorageNodeId, (usize, Option<u64>))))>::decode(input) {
            Ok(((shard_count, (block_size, (file_root_blocks, metadata_fanout))), (metadata_leaf_blocks, (storage_node, (observability_event_capacity, stream_auto_persist_bytes))))) => {
                let value = LocalStoreConfig { shard_count, block_size, file_root_blocks, metadata_fanout, metadata_leaf_blocks, storage_node, observability_event_capacity, stream_auto_persist_bytes };
                proof {
                    lemma_starts_with_value(value, input.rest());
                }
                Ok(value)
            },
            Err(error) => {
                proof {
                    assert forall|value: LocalStoreConfig, tail: Seq<u8>|
                        value.durable() && #[trigger] (value.wire() + tail) == whole implies false by {
                        lemma_starts_with_value(value.fields(), tail);
                    }
                }
                Err(error)
            },
        }
    }
}

impl Default for LocalStoreConfig {
    fn default() -> (config: LocalStoreConfig)
        ensures
            config == default_config(),
    {
        LocalStoreConfig {
            shard_count: 1,
            block_size: 4096,
            file_root_blocks: 1,
            metadata_fanout: 4,
            metadata_leaf_blocks: 1024,
            storage_node: StorageNodeId(1),
            observability_event_capacity: DEFAULT_OBSERVABILITY_EVENT_CAPACITY,
            stream_auto_persist_bytes: None,
        }
    }
}

/// The configuration where nothing else is asked for.
pub open spec fn default_config() -> LocalStoreConfig {
    LocalStoreConfig {
        shard_count: 1,
        block_size: 4096,
        file_root_blocks: 1,
        metadata_fanout: 4,
        metadata_leaf_blocks: 1024,
        storage_node: StorageNodeId(1),
        observability_event_capacity: DEFAULT_OBSERVABILITY_EVENT_CAPACITY,
        stream_auto_persist_bytes: None,
    }
}

/// The default configuration is valid.
pub proof fn law_default_config_is_valid()
    ensures
        default_config().valid(),
{
    reveal_with_fuel(is_power_of_two, 13);
}

impl LocalStoreConfig {
    /// Whether a store can have this configuration.
    pub open spec fn valid(self) -> bool {
        &&& self.shard_count > 0
        &&& is_power_of_two(self.block_size as nat)
        &&& self.file_root_blocks > 0
        &&& self.metadata_fanout >= 2
        &&& self.metadata_leaf_blocks > 0
        &&& self.observability_event_capacity > 0
        &&& self.stream_auto_persist_bytes != Some(0u64)
    }

    /// The message for the first rule that a configuration breaks.
    pub open spec fn fault(self) -> &'static str {
        if self.shard_count == 0 {
            "shard_count must be greater than zero"
        } else if self.block_size == 0 {
            "block_size must be greater than zero"
        } else if !is_power_of_two(self.block_size as nat) {
            "block_size must be a power of two"
        } else if self.file_root_blocks == 0 {
            "file_root_blocks must be greater than zero"
        } else if self.metadata_fanout < 2 {
            "metadata_fanout must be at least two"
        } else if self.metadata_leaf_blocks == 0 {
            "metadata_leaf_blocks must be greater than zero"
        } else if self.observability_event_capacity == 0 {
            "observability_event_capacity must be greater than zero"
        } else {
            "stream_auto_persist_bytes must be greater than zero when configured"
        }
    }

    /// Whether two configurations lay data out in the same way.
    pub open spec fn same_shape(self, other: LocalStoreConfig) -> bool {
        &&& self.shard_count == other.shard_count
        &&& self.block_size == other.block_size
        &&& self.file_root_blocks == other.file_root_blocks
        &&& self.metadata_fanout == other.metadata_fanout
        &&& self.metadata_leaf_blocks == other.metadata_leaf_blocks
        &&& self.storage_node == other.storage_node
    }

    pub fn storage_shape_matches(self, other: LocalStoreConfig) -> (matches: bool)
        ensures
            matches == self.same_shape(other),
    {
        self.shard_count == other.shard_count && self.block_size == other.block_size
            && self.file_root_blocks == other.file_root_blocks && self.metadata_fanout
            == other.metadata_fanout && self.metadata_leaf_blocks == other.metadata_leaf_blocks
            && self.storage_node == other.storage_node
    }

    /// The stored shape with the runtime policy that is asked for now.
    pub fn with_runtime_policy(self, expected: LocalStoreConfig) -> (config: LocalStoreConfig)
        ensures
            config.same_shape(self),
            config.observability_event_capacity == expected.observability_event_capacity,
            config.stream_auto_persist_bytes == expected.stream_auto_persist_bytes,
    {
        LocalStoreConfig {
            shard_count: self.shard_count,
            block_size: self.block_size,
            file_root_blocks: self.file_root_blocks,
            metadata_fanout: self.metadata_fanout,
            metadata_leaf_blocks: self.metadata_leaf_blocks,
            storage_node: self.storage_node,
            observability_event_capacity: expected.observability_event_capacity,
            stream_auto_persist_bytes: expected.stream_auto_persist_bytes,
        }
    }

    /// Accepts exactly the valid configurations and names the first rule that
    /// another one breaks.
    pub fn validate(self) -> (result: Result<(), StorageError>)
        ensures
            result is Ok <==> self.valid(),
            result matches Err(error) ==> error == (StorageError::InvalidArgument {
                message: self.fault(),
            }),
    {
        if self.shard_count == 0 {
            return Err(StorageError::invalid_argument("shard_count must be greater than zero"));
        }
        if self.block_size == 0 {
            return Err(StorageError::invalid_argument("block_size must be greater than zero"));
        }
        if !power_of_two(self.block_size as u64) {
            return Err(StorageError::invalid_argument("block_size must be a power of two"));
        }
        if self.file_root_blocks == 0 {
            return Err(StorageError::invalid_argument("file_root_blocks must be greater than zero"));
        }
        if self.metadata_fanout < 2 {
            return Err(StorageError::invalid_argument("metadata_fanout must be at least two"));
        }
        if self.metadata_leaf_blocks == 0 {
            return Err(
                StorageError::invalid_argument("metadata_leaf_blocks must be greater than zero"),
            );
        }
        if self.observability_event_capacity == 0 {
            return Err(
                StorageError::invalid_argument(
                    "observability_event_capacity must be greater than zero",
                ),
            );
        }
        if let Some(bytes) = self.stream_auto_persist_bytes {
            if bytes == 0 {
                return Err(
                    StorageError::invalid_argument(
                        "stream_auto_persist_bytes must be greater than zero when configured",
                    ),
                );
            }
        }
        Ok(())
    }

    /// The same configuration on another storage node.
    pub fn for_storage_node(self, storage_node: StorageNodeId) -> (config: LocalStoreConfig)
        ensures
            config == (LocalStoreConfig { storage_node, ..self }),
    {
        let mut config = self;
        config.storage_node = storage_node;
        config
    }
}

/// The list without the ones that stand in it before.
pub open spec fn normalized(primary: StorageNodeId, asked: Seq<StorageNodeId>) -> Seq<StorageNodeId>
    decreases asked.len(),
{
    if asked.len() == 0 {
        seq![primary]
    } else {
        let before = normalized(primary, asked.drop_last());
        if before.contains(asked.last()) {
            before
        } else {
            before.push(asked.last())
        }
    }
}

/// The nodes of a store: the primary first, none twice, in the order asked for.
pub fn normalize_storage_nodes(
    primary: StorageNodeId,
    storage_nodes: &Vec<StorageNodeId>,
) -> (nodes: Vec<StorageNodeId>)
    ensures
        nodes@ == normalized(primary, storage_nodes@),
        nodes@.len() > 0,
        nodes@[0] == primary,
        nodes@.no_duplicates(),
        forall|node: StorageNodeId| #[trigger]
            nodes@.contains(node) <==> node == primary || storage_nodes@.contains(node),
        asked_earlier(primary, storage_nodes@, nodes@),
{
    let mut nodes: Vec<StorageNodeId> = Vec::new();
    nodes.push(primary);
    let mut i: usize = 0;
    assert(storage_nodes@.take(0) =~= Seq::<StorageNodeId>::empty());
    assert(nodes@ =~= normalized(primary, storage_nodes@.take(0)));
    while i < storage_nodes.len()
        invariant
            i <= storage_nodes@.len(),
            nodes@ == normalized(primary, storage_nodes@.take(i as int)),
            nodes@.len() > 0,
            nodes@[0] == primary,
            nodes@.no_duplicates(),
        decreases storage_nodes@.len() - i,
    {
        let node = storage_nodes[i];
        assert(storage_nodes@.take(i + 1).drop_last() =~= storage_nodes@.take(i as int));
        let mut seen = false;
        let mut k: usize = 0;
        while k < nodes.len() && !seen
            invariant
                k <= nodes@.len(),
                seen ==> nodes@.contains(node),
                !seen ==> forall|j: int| 0 <= j < k ==> nodes@[j] != node,
            decreases nodes@.len() - k, (if seen { 0int } else { 1int }),
        {
            if nodes[k] == node {
                assert(nodes@[k as int] == node);
                seen = true;
            } else {
                k = k + 1;
            }
        }
        if !seen {
            nodes.push(node);
        }
        i = i + 1;
    }
    assert(storage_nodes@.take(storage_nodes@.len() as int) =~= storage_nodes@);
    proof {
        law_every_node_asked_for_is_there(primary, storage_nodes@);
    }
    nodes
}

/// Whether nodes stand in the order in which they were first asked for, behind the
/// primary: each is asked for before any that stands behind it.
pub open spec fn asked_earlier(
    primary: StorageNodeId,
    asked: Seq<StorageNodeId>,
    nodes: Seq<StorageNodeId>,
) -> bool {
    forall|i: int, j: int|
        0 < i < j < nodes.len() ==> asked_before(
            asked,
            #[trigger] nodes[i],
            #[trigger] nodes[j],
        )
}

/// Whether a node is asked for before another one is for the first time.
pub open spec fn asked_before(
    asked: Seq<StorageNodeId>,
    node: StorageNodeId,
    other: StorageNodeId,
) -> bool {
    exists|at: int|
        0 <= at < asked.len() && #[trigger] asked[at] == node && forall|k: int|
            0 <= k <= at ==> #[trigger] asked[k] != other
}

/// The nodes of a store are the primary and every node that was asked for, and no
/// others; each is there once, the primary first and the others in the order in
/// which they were first asked for.
pub proof fn law_every_node_asked_for_is_there(primary: StorageNodeId, asked: Seq<StorageNodeId>)
    ensures
        forall|node: StorageNodeId| #[trigger]
            normalized(primary, asked).contains(node) <==> node == primary || asked.contains(node),
        normalized(primary, asked).no_duplicates(),
        normalized(primary, asked).len() > 0,
        normalized(primary, asked)[0] == primary,
        asked_earlier(primary, asked, normalized(primary, asked)),
    decreases asked.len(),
{
    let all = normalized(primary, asked);
    if asked.len() == 0 {
        assert(all[0] == primary);
        assert forall|node: StorageNodeId| #[trigger] all.contains(node) implies node
            == primary by {}
    } else {
        let fewer = asked.drop_last();
        let before = normalized(primary, fewer);
        let last = asked.last();
        law_every_node_asked_for_is_there(primary, fewer);
        assert(asked[asked.len() - 1] == last);
        assert forall|node: StorageNodeId| asked.contains(node) <==> fewer.contains(node) || node
            == last by {
            if asked.contains(node) && node != last {
                let k = asked.index_of(node);
                assert(fewer[k] == node);
            }
            if fewer.contains(node) {
                let k = fewer.index_of(node);
                assert(asked[k] == node);
            }
        }
        assert forall|node: StorageNodeId| #[trigger] all.contains(node) <==> before.contains(node)
            || node == last by {
            if before.contains(node) {
                let k = before.index_of(node);
                assert(all[k] == node);
            }
            if node == last && !before.contains(last) {
                assert(all[all.len() - 1] == node);
            }
            if all.contains(node) && node != last {
                let k = all.index_of(node);
                assert(before[k] == node);
            }
        }
        assert forall|i: int, j: int| 0 < i < j < all.len() implies asked_before(
            asked,
            #[trigger] all[i],
            #[trigger] all[j],
        ) by {
            if j < before.len() {
                assert(asked_before(fewer, before[i], before[j]));
                let at = choose|at: int|
                    0 <= at < fewer.len() && #[trigger] fewer[at] == before[i] && forall|k: int|
                        0 <= k <= at ==> #[trigger] fewer[k] != before[j];
                assert(asked[at] == all[i]);
                assert forall|k: int| 0 <= k <= at implies #[trigger] asked[k] != all[j] by {
                    assert(fewer[k] == asked[k]);
                }
            } else {
                assert(before.contains(before[i]));
                assert(before[0] == primary);
                assert(before[i] != primary);
                let at = fewer.index_of(before[i]);
                assert(asked[at] == all[i]);
                assert forall|k: int| 0 <= k <= at implies #[trigger] asked[k] != all[j] by {
                    assert(fewer[k] == asked[k]);
                    assert(fewer.contains(fewer[k]));
                }
            }
        }
    }
}

/// The last commit that was given out, from the next one to give out.
pub fn durable_commit_high_water(next_commit_seq: u64) -> (commit: CommitSeq)
    ensures
        commit.0 == if next_commit_seq == 0 {
            0
        } else {
            (next_commit_seq - 1) as u64
        },
{
    CommitSeq(next_commit_seq.saturating_sub(1))
}

} // verus!
