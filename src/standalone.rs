//! Parameters of the single-machine commands, gathered by builders.
use vstd::prelude::*;

verus! {

/// How a benchmark drives updates into the stripes.
#[derive(Debug, Clone, Copy, PartialEq, Eq, Structural)]
pub enum Manner {
    /// Every evicted block is delta-updated against its stripe on its own.
    Baseline,
    /// Evicted blocks are merged with the buffered blocks of their stripe.
    MergeStripe,
    /// Only replay the trace and count.
    TraceDryRun,
}

impl Manner {
    /// The name of the manner as it appears on the command line.
    pub fn name(&self) -> (r: &'static str)
        ensures
            *self == Manner::Baseline ==> r@ == "baseline"@,
            *self == Manner::MergeStripe ==> r@ == "merge_stripe"@,
            *self == Manner::TraceDryRun ==> r@ == "trace_dryrun"@,
    {
        match self {
            Manner::Baseline => "baseline",
            Manner::MergeStripe => "merge_stripe",
            Manner::TraceDryRun => "trace_dryrun",
        }
    }
}

/// The parameters of a benchmark run.
#[derive(Debug, Clone)]
pub struct Bench {
    pub block_size: Option<usize>,
    pub block_num: Option<usize>,
    pub ssd_block_cap: Option<usize>,
    pub ssd_dev_path: Option<String>,
    pub blob_dev_path: Option<String>,
    pub k_p: Option<(usize, usize)>,
    pub test_num: Option<usize>,
    pub slice_size: Option<usize>,
    pub out_dir_path: Option<String>,
    pub manner: Manner,
}

impl Bench {
    /// Nothing set yet.
    pub fn new() -> (r: Bench)
        ensures
            r.block_size is None,
            r.block_num is None,
            r.ssd_block_cap is None,
            r.ssd_dev_path is None,
            r.blob_dev_path is None,
            r.k_p is None,
            r.test_num is None,
            r.slice_size is None,
            r.out_dir_path is None,
            r.manner == Manner::Baseline,
    {
        Bench { block_size: None, block_num: None, ssd_block_cap: None, ssd_dev_path: None, blob_dev_path: None, k_p: None, test_num: None, slice_size: None, out_dir_path: None, manner: Manner::Baseline }
    }

    pub fn block_size(self, block_size: usize) -> (r: Bench)
        ensures
            r == (Bench { block_size: Some(block_size), ..self }),
    {
        Bench { block_size: Some(block_size), ..self }
    }

    pub fn block_num(self, block_num: usize) -> (r: Bench)
        ensures
            r == (Bench { block_num: Some(block_num), ..self }),
    {
        Bench { block_num: Some(block_num), ..self }
    }

    pub fn ssd_block_capacity(self, ssd_block_capacity: usize) -> (r: Bench)
        ensures
            r == (Bench { ssd_block_cap: Some(ssd_block_capacity), ..self }),
    {
        Bench { ssd_block_cap: Some(ssd_block_capacity), ..self }
    }

    pub fn ssd_dev_path(self, ssd_dev_path: String) -> (r: Bench)
        ensures
            r == (Bench { ssd_dev_path: Some(ssd_dev_path), ..self }),
    {
        Bench { ssd_dev_path: Some(ssd_dev_path), ..self }
    }

    pub fn blob_dev_path(self, blob_dev_path: String) -> (r: Bench)
        ensures
            r == (Bench { blob_dev_path: Some(blob_dev_path), ..self }),
    {
        Bench { blob_dev_path: Some(blob_dev_path), ..self }
    }

    pub fn hdd_dev_path(self, hdd_dev_path: String) -> (r: Bench)
        ensures
            r == (Bench { blob_dev_path: Some(hdd_dev_path), ..self }),
    {
        Bench { blob_dev_path: Some(hdd_dev_path), ..self }
    }

    pub fn k_p(self, k: usize, p: usize) -> (r: Bench)
        ensures
            r == (Bench { k_p: Some((k, p)), ..self }),
    {
        Bench { k_p: Some((k, p)), ..self }
    }

    pub fn test_load(self, num: usize) -> (r: Bench)
        ensures
            r == (Bench { test_num: Some(num), ..self }),
    {
        Bench { test_num: Some(num), ..self }
    }

    pub fn test_num(self, num: usize) -> (r: Bench)
        ensures
            r == (Bench { test_num: Some(num), ..self }),
    {
        Bench { test_num: Some(num), ..self }
    }

    pub fn slice_size(self, slice_size: usize) -> (r: Bench)
        ensures
            r == (Bench { slice_size: Some(slice_size), ..self }),
    {
        Bench { slice_size: Some(slice_size), ..self }
    }

    pub fn manner(self, manner: Manner) -> (r: Bench)
        ensures
            r == (Bench { manner: manner, ..self }),
    {
        Bench { manner: manner, ..self }
    }

    pub fn out_dir_path(self, out_dir_path: String) -> (r: Bench)
        ensures
            r == (Bench { out_dir_path: Some(out_dir_path), ..self }),
    {
        Bench { out_dir_path: Some(out_dir_path), ..self }
    }

}
/// Which devices a clean-up purges.
#[derive(Debug, Clone)]
pub struct Cleaner {
    pub ssd_dev_path: Option<String>,
    pub blob_dev_path: Option<String>,
}

impl Cleaner {
    /// Nothing set yet.
    pub fn new() -> (r: Cleaner)
        ensures
            r.ssd_dev_path is None,
            r.blob_dev_path is None,
    {
        Cleaner { ssd_dev_path: None, blob_dev_path: None }
    }

    pub fn ssd_dev_path(self, ssd_dev_path: String) -> (r: Cleaner)
        ensures
            r == (Cleaner { ssd_dev_path: Some(ssd_dev_path), ..self }),
    {
        Cleaner { ssd_dev_path: Some(ssd_dev_path), ..self }
    }

    pub fn blob_dev_path(self, blob_dev_path: String) -> (r: Cleaner)
        ensures
            r == (Cleaner { blob_dev_path: Some(blob_dev_path), ..self }),
    {
        Cleaner { blob_dev_path: Some(blob_dev_path), ..self }
    }

    pub fn hdd_dev_path(self, hdd_dev_path: String) -> (r: Cleaner)
        ensures
            r == (Cleaner { blob_dev_path: Some(hdd_dev_path), ..self }),
    {
        Cleaner { blob_dev_path: Some(hdd_dev_path), ..self }
    }

}
/// The parameters of building the initial stripes.
#[derive(Debug, Clone)]
pub struct DataBuilder {
    pub block_size: Option<usize>,
    pub block_num: Option<usize>,
    pub ssd_block_cap: Option<usize>,
    pub ssd_dev_path: Option<String>,
    pub hdd_dev_path: Option<String>,
    pub k_p: Option<(usize, usize)>,
    pub purge: bool,
}

impl DataBuilder {
    /// Nothing set yet.
    pub fn new() -> (r: DataBuilder)
        ensures
            r.block_size is None,
            r.block_num is None,
            r.ssd_block_cap is None,
            r.ssd_dev_path is None,
            r.hdd_dev_path is None,
            r.k_p is None,
            r.purge == false,
    {
        DataBuilder { block_size: None, block_num: None, ssd_block_cap: None, ssd_dev_path: None, hdd_dev_path: None, k_p: None, purge: false }
    }

    pub fn block_size(self, block_size: usize) -> (r: DataBuilder)
        ensures
            r == (DataBuilder { block_size: Some(block_size), ..self }),
    {
        DataBuilder { block_size: Some(block_size), ..self }
    }

    pub fn block_num(self, block_num: usize) -> (r: DataBuilder)
        ensures
            r == (DataBuilder { block_num: Some(block_num), ..self }),
    {
        DataBuilder { block_num: Some(block_num), ..self }
    }

    pub fn ssd_block_capacity(self, ssd_block_capacity: usize) -> (r: DataBuilder)
        ensures
            r == (DataBuilder { ssd_block_cap: Some(ssd_block_capacity), ..self }),
    {
        DataBuilder { ssd_block_cap: Some(ssd_block_capacity), ..self }
    }

    pub fn ssd_dev_path(self, ssd_dev_path: String) -> (r: DataBuilder)
        ensures
            r == (DataBuilder { ssd_dev_path: Some(ssd_dev_path), ..self }),
    {
        DataBuilder { ssd_dev_path: Some(ssd_dev_path), ..self }
    }

    pub fn hdd_dev_path(self, hdd_dev_path: String) -> (r: DataBuilder)
        ensures
            r == (DataBuilder { hdd_dev_path: Some(hdd_dev_path), ..self }),
    {
        DataBuilder { hdd_dev_path: Some(hdd_dev_path), ..self }
    }

    pub fn purge(self, purge: bool) -> (r: DataBuilder)
        ensures
            r == (DataBuilder { purge: purge, ..self }),
    {
        DataBuilder { purge: purge, ..self }
    }

    pub fn k_p(self, k: usize, p: usize) -> (r: DataBuilder)
        ensures
            r == (DataBuilder { k_p: Some((k, p)), ..self }),
    {
        DataBuilder { k_p: Some((k, p)), ..self }
    }

}
/// The parameters of a Hitchhiker benchmark.
#[derive(Debug, Clone)]
pub struct HitchhikerBench {
    pub block_size: Option<usize>,
    pub block_num: Option<usize>,
    pub dev_path: Option<String>,
    pub k_p: Option<(usize, usize)>,
    pub test_load: Option<usize>,
    pub out_dir_path: Option<String>,
}

impl HitchhikerBench {
    /// Nothing set yet.
    pub fn new() -> (r: HitchhikerBench)
        ensures
            r.block_size is None,
            r.block_num is None,
            r.dev_path is None,
            r.k_p is None,
            r.test_load is None,
            r.out_dir_path is None,
    {
        HitchhikerBench { block_size: None, block_num: None, dev_path: None, k_p: None, test_load: None, out_dir_path: None }
    }

    pub fn block_size(self, block_size: usize) -> (r: HitchhikerBench)
        ensures
            r == (HitchhikerBench { block_size: Some(block_size), ..self }),
    {
        HitchhikerBench { block_size: Some(block_size), ..self }
    }

    pub fn block_num(self, block_num: usize) -> (r: HitchhikerBench)
        ensures
            r == (HitchhikerBench { block_num: Some(block_num), ..self }),
    {
        HitchhikerBench { block_num: Some(block_num), ..self }
    }

    pub fn dev_path(self, dev_path: String) -> (r: HitchhikerBench)
        ensures
            r == (HitchhikerBench { dev_path: Some(dev_path), ..self }),
    {
        HitchhikerBench { dev_path: Some(dev_path), ..self }
    }

    pub fn k_p(self, k: usize, p: usize) -> (r: HitchhikerBench)
        ensures
            r == (HitchhikerBench { k_p: Some((k, p)), ..self }),
    {
        HitchhikerBench { k_p: Some((k, p)), ..self }
    }

    pub fn test_load(self, test_load: usize) -> (r: HitchhikerBench)
        ensures
            r == (HitchhikerBench { test_load: Some(test_load), ..self }),
    {
        HitchhikerBench { test_load: Some(test_load), ..self }
    }

    pub fn out_dir_path(self, out_dir_path: String) -> (r: HitchhikerBench)
        ensures
            r == (HitchhikerBench { out_dir_path: Some(out_dir_path), ..self }),
    {
        HitchhikerBench { out_dir_path: Some(out_dir_path), ..self }
    }

}
} // verus!
