//! Local copy-on-write storage: durable codec, block journal, metadata trees
//! and the coordinators that tie them together.
pub mod append_publish;
pub mod append_streams;
pub mod backing;
pub mod batch;
pub mod batch_laws;
pub mod block_api;
pub mod block_chunks;
pub mod block_client;
pub mod block_commit;
pub mod block_mapping;
pub mod block_read;
pub mod block_replay;
pub mod block_requests;
pub mod checksum;
pub mod codec;
pub mod commit_laws;
pub mod config;
pub mod coordinator;
pub mod custodian;
pub mod data_log;
pub mod delta_laws;
pub mod delta_records;
pub mod device_history;
pub mod device_trees;
pub mod diagnostics;
pub mod direct_io;
pub mod durable;
pub mod durable_publish;
pub mod durable_requests;
pub mod durable_state;
pub mod durable_writes;
pub mod error;
pub mod export;
pub mod export_cursor;
pub mod export_laws;
pub mod export_rows;
pub mod export_state;
pub mod file_commit;
pub mod file_groups;
pub mod file_publish;
pub mod file_read;
pub mod file_requests;
pub mod gc;
pub mod gc_laws;
pub mod grant_laws;
pub mod grants;
pub mod history_laws;
pub mod id;
pub mod idmap;
pub mod image_check;
pub mod integrity;
pub mod journal_frames;
pub mod journal_lane;
pub mod journal_overlay;
pub mod journal_packing;
pub mod journal_records;
pub mod journal_recovery;
pub mod journal_replay;
pub mod journal_segments;
pub mod journal_sources;
pub mod keyspace_history;
pub mod laws;
pub mod leaf;
pub mod log_laws;
pub mod maintenance;
pub mod mapping_laws;
pub mod metadata;
pub mod metadata_devices;
pub mod metadata_files;
pub mod metadata_records;
pub mod metadata_streams;
pub mod native_api;
pub mod native_client;
pub mod native_delta;
pub mod observability;
pub mod persist_rows;
pub mod persist_state;
pub mod publish_apply;
pub mod publish_plan;
pub mod ranges;
pub mod reach;
pub mod read_plan;
pub mod report_laws;
pub mod row_laws;
pub mod row_sync;
pub mod run_logs;
pub mod segment_records;
pub mod storage_nodes;
pub mod stored;
pub mod stream_persist;
pub mod text;
pub mod tree;
pub mod tree_build;
pub mod tree_edit;
pub mod tree_laws;
pub mod tree_lines;
pub mod tree_report;
pub mod tree_runs;
pub mod write_grants;
