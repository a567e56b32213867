//! Run configuration: its fields, the validation rules on them, and accessors.
use vstd::prelude::*;

use crate::error::{SUError, SUResult};

verus! {

/// Size in bytes of a segment, the unit of slice-buffer I/O.
pub const SEG_SIZE: usize = 4096;

/// Device paths of a single-machine run.
#[derive(Debug, Clone)]
pub struct StandaloneConfig {
    pub ssd_dev_path: String,
    pub blob_dev_path: String,
}

/// Device paths of one worker.
#[derive(Debug, Clone)]
pub struct WorkerConfig {
    pub ssd_dev_path: String,
    pub blob_dev_path: String,
}

/// The broker and the workers of a cluster run.
#[derive(Debug, Clone)]
pub struct ClusterConfig {
    pub redis_url: String,
    pub worker_num: usize,
    pub workers: Vec<WorkerConfig>,
}

/// The whole configuration, read once at program start and handed to who needs it.
#[derive(Debug, Clone)]
pub struct Config {
    pub ec_k: usize,
    pub ec_p: usize,
    pub block_size: usize,
    pub block_num: usize,
    pub ssd_block_capacity: usize,
    pub out_dir_path: String,
    pub test_num: usize,
    pub slice_size: usize,
    pub standalone: Option<StandaloneConfig>,
    pub cluster: Option<ClusterConfig>,
}

/// The sizes fit together: a slice fits in a block, and both are whole segments.
pub open spec fn sizes_valid(config: Config) -> bool {
    &&& config.slice_size <= config.block_size
    &&& config.slice_size % SEG_SIZE == 0
    &&& config.block_size % SEG_SIZE == 0
}

/// Checks the size rules; that the output path is a directory is for the caller to check.
pub fn validate_config(config: &Config) -> (r: SUResult<()>)
    ensures
        r is Ok <==> sizes_valid(*config),
        r is Err ==> r matches Err(SUError::InvalidArg(_)),
{
    if config.slice_size > config.block_size {
        return Err(SUError::invalid_arg("slice size is greater than block size"));
    }
    if config.slice_size % SEG_SIZE != 0 {
        return Err(SUError::invalid_arg("slice size is not a multiple of the segment size"));
    }
    if config.block_size % SEG_SIZE != 0 {
        return Err(SUError::invalid_arg("block size is not a multiple of the segment size"));
    }
    Ok(())
}

/// Checks that the standalone section is there; that its paths are directories is for the
/// caller to check.
pub fn validate_standalone_config(config: &Config) -> (r: SUResult<()>)
    ensures
        r is Ok <==> config.standalone is Some,
        r is Err ==> r matches Err(SUError::InvalidArg(_)),
{
    match &config.standalone {
        Some(_) => Ok(()),
        None => Err(SUError::invalid_arg("standalone config not set")),
    }
}

/// The cluster section is there, names at least one worker, and has paths for each.
pub open spec fn cluster_valid(config: Config, worker_id: Option<usize>) -> bool {
    &&& config.cluster is Some
    &&& config.cluster.unwrap().worker_num >= 1
    &&& config.cluster.unwrap().worker_num <= config.cluster.unwrap().workers@.len()
    &&& worker_id matches Some(w) ==> 1 <= w <= config.cluster.unwrap().worker_num
}

/// Checks the cluster section and, when given, the worker id; that the worker's paths are
/// directories is for the caller to check.
pub fn validate_cluster_config(config: &Config, worker_id: Option<usize>) -> (r: SUResult<()>)
    ensures
        r is Ok <==> cluster_valid(*config, worker_id),
        r is Err ==> r matches Err(SUError::InvalidArg(_)),
{
    let cluster = match &config.cluster {
        Some(c) => c,
        None => { return Err(SUError::invalid_arg("cluster config not set")); },
    };
    if cluster.worker_num < 1 {
        return Err(SUError::invalid_arg("worker num must be greater than 0"));
    }
    if cluster.worker_num > cluster.workers.len() {
        return Err(SUError::invalid_arg("worker num must not exceed the number of worker dev paths"));
    }
    if let Some(w) = worker_id {
        if w == 0 || w > cluster.worker_num {
            return Err(SUError::invalid_arg("worker id out of range"));
        }
    }
    Ok(())
}

pub fn ec_k(config: &Config) -> (r: usize)
    ensures
        r == config.ec_k,
{
    config.ec_k
}

pub fn ec_p(config: &Config) -> (r: usize)
    ensures
        r == config.ec_p,
{
    config.ec_p
}

/// Blocks per stripe.
pub fn ec_m(config: &Config) -> (r: usize)
    requires
        config.ec_k + config.ec_p <= usize::MAX,
    ensures
        r == config.ec_k + config.ec_p,
{
    config.ec_k + config.ec_p
}

/// The blob device of a standalone run.
pub fn blob_dev_path(config: &Config) -> (r: Option<String>)
    ensures
        r == match config.standalone {
            Some(s) => Some(s.blob_dev_path),
            None => None,
        },
{
    match &config.standalone {
        Some(s) => Some(s.blob_dev_path.clone()),
        None => None,
    }
}

/// The buffer device of a standalone run.
pub fn ssd_dev_path(config: &Config) -> (r: Option<String>)
    ensures
        r == match config.standalone {
            Some(s) => Some(s.ssd_dev_path),
            None => None,
        },
{
    match &config.standalone {
        Some(s) => Some(s.ssd_dev_path.clone()),
        None => None,
    }
}

pub fn out_dir_path(config: &Config) -> (r: String)
    ensures
        r == config.out_dir_path,
{
    config.out_dir_path.clone()
}

pub fn ssd_block_capacity(config: &Config) -> (r: usize)
    ensures
        r == config.ssd_block_capacity,
{
    config.ssd_block_capacity
}

pub fn block_size(config: &Config) -> (r: usize)
    ensures
        r == config.block_size,
{
    config.block_size
}

pub fn block_num(config: &Config) -> (r: usize)
    ensures
        r == config.block_num,
{
    config.block_num
}

/// The number of updates of a benchmark.
pub fn test_load(config: &Config) -> (r: usize)
    ensures
        r == config.test_num,
{
    config.test_num
}

pub fn slice_size(config: &Config) -> (r: usize)
    ensures
        r == config.slice_size,
{
    config.slice_size
}

pub fn redis_url(config: &Config) -> (r: Option<String>)
    ensures
        r == match config.cluster {
            Some(c) => Some(c.redis_url),
            None => None,
        },
{
    match &config.cluster {
        Some(c) => Some(c.redis_url.clone()),
        None => None,
    }
}

pub fn worker_num(config: &Config) -> (r: Option<usize>)
    ensures
        r == match config.cluster {
            Some(c) => Some(c.worker_num),
            None => None,
        },
{
    match &config.cluster {
        Some(c) => Some(c.worker_num),
        None => None,
    }
}

/// The buffer device of worker `worker_id` (numbered from 1).
pub fn worker_ssd_dev_path(config: &Config, worker_id: usize) -> (r: Option<String>)
    ensures
        r == match config.cluster {
            Some(c) => if 1 <= worker_id <= c.workers@.len() {
                Some(c.workers@[worker_id - 1].ssd_dev_path)
            } else {
                None
            },
            None => None,
        },
{
    match &config.cluster {
        Some(c) => if 1 <= worker_id && worker_id <= c.workers.len() {
            Some(c.workers[worker_id - 1].ssd_dev_path.clone())
        } else {
            None
        },
        None => None,
    }
}

/// The blob device of worker `worker_id` (numbered from 1).
pub fn worker_blob_dev_path(config: &Config, worker_id: usize) -> (r: Option<String>)
    ensures
        r == match config.cluster {
            Some(c) => if 1 <= worker_id <= c.workers@.len() {
                Some(c.workers@[worker_id - 1].blob_dev_path)
            } else {
                None
            },
            None => None,
        },
{
    match &config.cluster {
        Some(c) => if 1 <= worker_id && worker_id <= c.workers.len() {
            Some(c.workers[worker_id - 1].blob_dev_path.clone())
        } else {
            None
        },
        None => None,
    }
}

/// How long a heartbeat waits for answers, in milliseconds.
pub fn heartbeat_interval() -> (r: u64)
    ensures
        r == 300,
{
    300
}

} // verus!
