use stripe_update::storage::utility::{block_id_to_path, block_path_to_id};
use stripe_update::cluster::{concat_block_ranges, split_ranges};
use stripe_update::cluster::eviction_plan;
use stripe_update::trace_parser::Operation;
use stripe_update::cluster::{owner_worker, CoordinatorBuilder};
use stripe_update::config::{
    validate_cluster_config, validate_config, validate_standalone_config, worker_ssd_dev_path,
    ClusterConfig, Config, StandaloneConfig, WorkerConfig, SEG_SIZE,
};
use stripe_update::erasure_code::hitchhiker::index_the_b_xor_parity;
use stripe_update::erasure_code::HitchhikerXor;
use stripe_update::standalone::{Bench, Manner};
use stripe_update::storage::{check_block_range, check_slice_range, StripeId};
use stripe_update::SUError;

fn config() -> Config {
    Config {
        ec_k: 4,
        ec_p: 2,
        block_size: 4 * SEG_SIZE,
        block_num: 60,
        ssd_block_capacity: 4,
        out_dir_path: "out".to_string(),
        test_num: 100,
        slice_size: SEG_SIZE,
        standalone: Some(StandaloneConfig {
            ssd_dev_path: "ssd".to_string(),
            blob_dev_path: "blob".to_string(),
        }),
        cluster: Some(ClusterConfig {
            redis_url: "redis://localhost".to_string(),
            worker_num: 2,
            workers: vec![
                WorkerConfig { ssd_dev_path: "s1".to_string(), blob_dev_path: "b1".to_string() },
                WorkerConfig { ssd_dev_path: "s2".to_string(), blob_dev_path: "b2".to_string() },
            ],
        }),
    }
}

#[test]
fn config_validation() {
    let mut c = config();
    assert!(validate_config(&c).is_ok());
    assert!(validate_standalone_config(&c).is_ok());
    assert!(validate_cluster_config(&c, Some(2)).is_ok());
    assert!(matches!(validate_cluster_config(&c, Some(0)), Err(SUError::InvalidArg(_))));
    assert!(matches!(validate_cluster_config(&c, Some(3)), Err(SUError::InvalidArg(_))));
    assert_eq!(worker_ssd_dev_path(&c, 2), Some("s2".to_string()));
    assert_eq!(worker_ssd_dev_path(&c, 3), None);
    c.slice_size = 8 * SEG_SIZE;
    assert!(matches!(validate_config(&c), Err(SUError::InvalidArg(_))));
    c.slice_size = SEG_SIZE + 1;
    assert!(matches!(validate_config(&c), Err(SUError::InvalidArg(_))));
    c.standalone = None;
    assert!(validate_standalone_config(&c).is_err());
}

#[test]
fn builders_and_routing() {
    let b = Bench::new().block_size(4096).k_p(4, 2).manner(Manner::MergeStripe);
    assert_eq!(b.block_size, Some(4096));
    assert_eq!(b.k_p, Some((4, 2)));
    assert_eq!(b.manner.name(), "merge_stripe");
    let c = CoordinatorBuilder::new().worker_num(3).test_load(10);
    assert_eq!(c.worker_num, Some(3));
    assert_eq!(owner_worker(7, 3), 2);
    assert_eq!(StripeId::of_block(13, 6).into_inner(), 2);
}

#[test]
fn range_checks() {
    assert!(check_block_range(16, 16).is_ok());
    assert!(matches!(check_block_range(15, 16), Err(SUError::Range(_))));
    assert!(check_slice_range(0..16, 16).is_ok());
    assert!(matches!(check_slice_range(4..17, 16), Err(SUError::Range(_))));
    assert!(matches!(check_slice_range(16..17, 16), Err(SUError::Range(_))));
}

#[test]
fn hitchhiker_groups() {
    assert!(matches!(HitchhikerXor::try_from_k_p(4, 1), Err(SUError::ErasureCode(_))));
    let hh = HitchhikerXor::try_from_k_p(4, 3).unwrap();
    // two groups of two sources: {0, 1} and {2, 3}
    let (parity, others) = index_the_b_xor_parity(&hh, 3);
    assert_eq!(parity, 4 + 1 + 1);
    assert_eq!(others, vec![2]);
    let (parity, others) = index_the_b_xor_parity(&hh, 0);
    assert_eq!(parity, 5);
    assert_eq!(others, vec![1]);
}

#[test]
fn cluster_eviction_plan() {
    let plan = eviction_plan(13, 4, 2);
    assert_eq!(plan.stripe_id, 2);
    assert_eq!(plan.sibling_sources, vec![12, 14, 15]);
    assert_eq!(plan.parities, vec![16, 17]);
}

#[test]
fn trace_operations() {
    assert_eq!(Operation::parse("W").unwrap(), Operation::Write);
    assert_eq!(Operation::parse("r").unwrap(), Operation::Read);
    assert!(matches!(Operation::parse("x"), Err(SUError::InvalidArg(_))));
    assert!(matches!(Operation::parse("WW"), Err(SUError::InvalidArg(_))));
}

#[test]
fn range_payload_framing() {
    let block: Vec<u8> = (0..32).collect();
    let ranges = vec![2..5, 10..10, 20..24];
    let payload = concat_block_ranges(&block, &ranges);
    assert_eq!(payload, vec![2, 3, 4, 20, 21, 22, 23]);
    let parts = split_ranges(&payload, &ranges).unwrap();
    assert_eq!(parts, vec![vec![2, 3, 4], vec![], vec![20, 21, 22, 23]]);
    assert!(split_ranges(&payload[..6].to_vec(), &ranges).is_none());
    let mut longer = payload.clone();
    longer.push(0);
    assert!(split_ranges(&longer, &ranges).is_none());
}

#[test]
fn test_block_id_to_path() {
    let block_id: usize = 256;
    let path = block_id_to_path(b"./root", block_id);
    assert_eq!(path, b"./root/01/00".to_vec());
    let block_id_reconstruct = block_path_to_id(&path);
    assert_eq!(block_id_reconstruct, Some(block_id));
    let mut seed: u64 = 99;
    for _ in 0..10000 {
        seed = seed.wrapping_mul(6364136223846793005).wrapping_add(1442695040888963407);
        let id = seed as usize;
        let path = block_id_to_path(b"./root", id);
        assert_eq!(block_path_to_id(&path), Some(id));
    }
    assert_eq!(block_id_to_path(b"/dev", 0x1234ABCD), b"/dev/12/34ABCD".to_vec());
    assert_eq!(block_path_to_id(b"/dev/1g/00"), None);
    assert_eq!(block_path_to_id(b"0100"), None);
}
