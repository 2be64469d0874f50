//! The cluster snapshot and the records derived from it.

use crate::monitor::data::estimator::Rate;
use vstd::prelude::*;

verus! {

/// One snapshot of the cluster, as received per poll.
#[derive(Debug, Clone, Default)]
pub struct CephPgDump {
    pub pg_ready: bool,
    pub pg_map: PgMap,
}

/// The placement-group map of a snapshot.
#[derive(Debug, Clone, Default)]
pub struct PgMap {
    pub version: u64,
    /// When the snapshot was taken, as the cluster wrote it.
    pub stamp: String,
    pub last_osdmap_epoch: u64,
    pub last_pg_scan: u64,
    /// One record per placement group.
    pub pg_stats: Vec<PgStats>,
    /// The counters summed over all placement groups.
    pub pg_stats_sum: PgStatsSum,
    pub pg_stats_delta: PgStatsDelta,
    /// One record per storage node that exists now.
    pub osd_stats: Vec<OsdStats>,
    pub osd_stats_sum: OsdStatsSum,
    pub pool_stats: Vec<PoolStats>,
    pub pool_statfs: Vec<PoolStatfs>,
}

/// One placement group of a snapshot.
#[derive(Debug, Clone, Default)]
pub struct PgStats {
    /// The group's identifier.
    pub pgid: String,
    /// The group's state label, a set of tags joined by `+`.
    pub state: String,
    /// Objects scrubbed so far, where the cluster reports it.
    pub objects_scrubbed: Option<u64>,
    /// The group's own counters.
    pub stat_sum: StatSum,
    /// The nodes that should hold the group.
    pub up: Vec<u32>,
    /// The nodes that hold the group now.
    pub acting: Vec<u32>,
    /// The designated primary among the nodes that should hold the group.
    pub up_primary: u32,
    /// The primary among the nodes that hold the group now.
    pub acting_primary: u32,
}

/// The counters summed over all placement groups.
#[derive(Debug, Clone, Default)]
pub struct PgStatsSum {
    pub stat_sum: StatSum,
}

/// The change of the summed counters since the cluster's last report.
#[derive(Debug, Clone, Default)]
pub struct PgStatsDelta {
    pub stat_sum: StatSum,
    pub store_stats: Statfs,
    pub log_size: u64,
    pub ondisk_log_size: u64,
    pub up: u32,
    pub acting: u32,
    pub num_store_stats: u32,
    pub stamp_delta: String,
}

/// Object and byte counters of a group, a pool or the cluster.
#[derive(Debug, Clone, Copy, Default)]
pub struct StatSum {
    pub num_bytes: i64,
    pub num_objects: i64,
    pub num_object_clones: i64,
    pub num_object_copies: i64,
    pub num_objects_missing_on_primary: i64,
    pub num_objects_missing: i64,
    pub num_objects_degraded: i64,
    pub num_objects_misplaced: i64,
    pub num_objects_unfound: i64,
    pub num_objects_dirty: i64,
    pub num_whiteouts: i64,
    pub num_read: i64,
    pub num_read_kb: i64,
    pub num_write: i64,
    pub num_write_kb: i64,
    pub num_scrub_errors: i64,
    pub num_shallow_scrub_errors: i64,
    pub num_deep_scrub_errors: i64,
    pub num_objects_recovered: i64,
    pub num_bytes_recovered: i64,
    pub num_keys_recovered: i64,
    pub num_objects_omap: i64,
    pub num_objects_hit_set_archive: i64,
    pub num_bytes_hit_set_archive: i64,
    pub num_flush: i64,
    pub num_flush_kb: i64,
    pub num_evict: i64,
    pub num_evict_kb: i64,
    pub num_promote: i64,
    pub num_flush_mode_high: i64,
    pub num_flush_mode_low: i64,
    pub num_evict_mode_some: i64,
    pub num_evict_mode_full: i64,
    pub num_objects_pinned: i64,
    pub num_legacy_snapsets: i64,
    pub num_large_omap_objects: i64,
    pub num_objects_manifest: i64,
    pub num_omap_bytes: i64,
    pub num_omap_keys: i64,
    pub num_objects_repaired: i64,
}

/// One storage node of a snapshot.
#[derive(Debug, Clone, Default)]
pub struct OsdStats {
    /// The node's identifier.
    pub osd: u32,
    pub up_from: u64,
    pub seq: u64,
    pub num_pgs: u64,
    pub kb: u64,
    pub kb_used: u64,
    pub kb_used_data: u64,
    pub kb_used_omap: u64,
    pub kb_used_meta: u64,
    pub kb_avail: u64,
    pub statfs: Statfs,
    pub hb_peers: Vec<u32>,
    pub snap_trim_queue_len: u64,
    pub num_snap_trimming: u64,
    pub num_shards_repaired: u64,
    pub alerts: Vec<String>,
}

/// The node counters summed over all storage nodes.
#[derive(Debug, Clone, Default)]
pub struct OsdStatsSum {
    pub up_from: u64,
    pub seq: u64,
    pub num_pgs: u64,
    pub num_osds: u64,
    pub num_per_pool_osds: u64,
    pub num_per_pool_omap_osds: u64,
    pub kb: u64,
    pub kb_used: u64,
    pub kb_used_data: u64,
    pub kb_used_omap: u64,
    pub kb_used_meta: u64,
    pub kb_avail: u64,
    pub statfs: Statfs,
    pub hb_peers: Vec<u32>,
    pub snap_trim_queue_len: u64,
    pub num_snap_trimming: u64,
    pub num_shards_repaired: u64,
    pub alerts: Vec<String>,
}

/// Space accounting of a store.
#[derive(Debug, Clone, Copy, Default)]
pub struct Statfs {
    pub total: u64,
    pub available: u64,
    pub internally_reserved: u64,
    pub allocated: u64,
    pub data_stored: u64,
    pub data_compressed: u64,
    pub data_compressed_allocated: u64,
    pub data_compressed_original: u64,
    pub omap_allocated: u64,
    pub internal_metadata: u64,
}

/// The counters of one pool.
#[derive(Debug, Clone, Copy, Default)]
pub struct PoolStats {
    pub poolid: u32,
    pub num_pg: u32,
    pub stat_sum: StatSum,
    pub store_stats: Statfs,
    pub log_size: u64,
    pub ondisk_log_size: u64,
    pub up: u32,
    pub acting: u32,
}

/// Space accounting of one pool on one storage node.
#[derive(Debug, Clone, Copy, Default)]
pub struct PoolStatfs {
    pub poolid: u32,
    pub osd: u32,
    pub total: u64,
    pub available: u64,
    pub internally_reserved: u64,
    pub allocated: u64,
    pub data_stored: u64,
    pub data_compressed: u64,
    pub data_compressed_allocated: u64,
    pub data_compressed_original: u64,
    pub omap_allocated: u64,
    pub internal_metadata: u64,
}

/// What one storage node is due to receive and to shed.
#[derive(Debug, Clone, Default)]
pub struct OsdDataMovement {
    /// The node's identifier.
    pub osd_id: u32,
    /// Objects on their way to the node: the same count as `missing_objects`.
    pub incoming_objects: i64,
    /// Objects on their way off the node: the same count as `excess_objects`.
    pub outgoing_objects: i64,
    /// Misplaced objects of all groups that the node should hold and does not.
    pub missing_objects: i64,
    /// Misplaced objects of all groups that the node holds and should not.
    pub excess_objects: i64,
    /// The part of `missing_objects` whose transfer is queued.
    pub missing_objects_waiting: i64,
    /// The part of `excess_objects` whose transfer is queued.
    pub excess_objects_waiting: i64,
    /// The part of `missing_objects` that is being transferred.
    pub missing_objects_active: i64,
    /// The part of `excess_objects` that is being transferred.
    pub excess_objects_active: i64,
    /// Seconds until nothing is missing, while that can be projected.
    pub incoming_predicted_time_secs: Option<u64>,
    /// Seconds until nothing is in excess, while that can be projected.
    pub outgoing_predicted_time_secs: Option<u64>,
    /// The newest values of `missing_objects`, oldest first.
    pub missing_objects_history: Vec<i64>,
    /// The newest values of `excess_objects`, oldest first.
    pub excess_objects_history: Vec<i64>,
    /// How fast `missing_objects` falls, while it does.
    pub incoming_rate: Option<Rate>,
    /// How fast `excess_objects` falls, while it does.
    pub outgoing_rate: Option<Rate>,
}

/// How far the scrub of one inconsistent placement group has got.
#[derive(Debug, Clone, Default)]
pub struct InconsistentPgProgress {
    /// The group's identifier.
    pub pgid: String,
    /// The group's object copies: what the scrub has to cover.
    pub num_objects: i64,
    /// The primary of the group's current node set: the primary among the
    /// nodes that hold the group now. Where the group is being moved this
    /// is the node that serves it, not the node that is to serve it once
    /// the move is done.
    pub primary_osd: u32,
    /// The group's current node set: the nodes that hold the group now, in
    /// the order in which the snapshot gives them.
    pub up_osds: Vec<u32>,
    /// The group's state label.
    pub state: String,
    /// Objects scrubbed so far.
    pub objects_scrubbed: u64,
    /// The newest values of `objects_scrubbed`, oldest first.
    pub scrubbed_history: Vec<u64>,
    /// How fast `objects_scrubbed` rises, while it does.
    pub scrub_rate: Option<Rate>,
    /// Seconds until the scrub has covered every copy, while that can be
    /// projected.
    pub eta_seconds: Option<u64>,
}

} // verus!
