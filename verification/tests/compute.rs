use bogo_gpu::compute::{
    cpu_batch, device_batch, Backend, BatchResult, Device, Launch, DEVICE_CHUNK,
};
use bogo_gpu::config::{ComputeBackend, ComputeConfig};
use bogo_gpu::gpu::GpuContext;
use bogo_gpu::rng::{count_fixed_points, Rng};

fn run(seed: u64, base: u64, count: u32) -> BatchResult {
    match cpu_batch(seed, base, count) {
        Ok(result) => result,
        Err(e) => panic!("no result: {e:?}"),
    }
}

fn best_of(seed: u64, base: u64, count: u32) -> (u32, u64) {
    let result = run(seed, base, count);
    assert_eq!(result.best_arr, Rng::new(seed, result.best_index).shuffle());
    (result.best_correct, result.best_index)
}

#[test]
fn the_first_of_the_best_wins() {
    assert_eq!(best_of(42, 0, 1000), (5, 394));
    assert_eq!(best_of(42, 1000, 1000), (6, 1523));
    assert_eq!(best_of(42, 5, 1), (1, 5));
}

#[test]
fn the_best_of_the_parts_is_the_best() {
    let first = best_of(42, 0, 1000);
    let second = best_of(42, 1000, 1000);
    let whole = best_of(42, 0, 2000);
    assert_eq!(whole, (6, 1523));
    assert_eq!(whole, if second.0 > first.0 { second } else { first });
}

#[test]
fn an_empty_batch_scores_nothing() {
    let result = run(42, 17, 0);
    assert_eq!(result.best_correct, 0);
    assert_eq!(result.best_index, 17);
    assert_eq!(result.best_arr, Rng::new(42, 17).shuffle());
}

#[test]
fn a_batch_may_reach_the_last_index() {
    assert_eq!(best_of(42, u64::MAX - 9, 10), (2, 18446744073709551610));
}

#[test]
fn a_range_without_a_score_keeps_its_first_index() {
    // the shuffle of seed 0 at index 0 leaves nothing in place
    assert_eq!(count_fixed_points(&Rng::new(0, 0).shuffle()), 0);
    assert_eq!(best_of(0, 0, 1), (0, 0));
}

#[test]
fn every_runner_gives_the_same_result() {
    let mut backend = Backend::new_default().unwrap();
    let a = backend.run_batch(42, 0, 1000).unwrap();
    let mut context = GpuContext::new().unwrap();
    let b = context.run_batch(42, 0, 1000).unwrap();
    let c = device_batch(42, 5, 394);
    assert_eq!((a.best_correct, a.best_index, a.best_arr), (5, 394, c.best_arr));
    assert_eq!((b.best_correct, b.best_index, b.best_arr), (5, 394, c.best_arr));
    assert_eq!((c.best_correct, c.best_index), (5, 394));
    assert_eq!(
        c.best_arr,
        [
            1, 4, 24, 12, 9, 6, 23, 8, 7, 2, 21, 11, 13, 17, 20, 19, 14, 5, 18, 15, 16, 22, 25, 10,
            3
        ]
    );
}

fn settings(backend: ComputeBackend) -> ComputeConfig {
    ComputeConfig { backend, gpu_arch: "sm_86".to_string(), blocks: 128, threads: 64, cpu_threads: 3 }
}

#[test]
fn device_settings_count_on_a_device() {
    assert_eq!(
        Launch::select(&settings(ComputeBackend::Gpu), Some(Device::Cuda)),
        Launch::Device { device: Device::Cuda, blocks: 128, threads: 64, chunk_size: DEVICE_CHUNK }
    );
    assert_eq!(
        Launch::select(&settings(ComputeBackend::Gpu), Some(Device::Hip)),
        Launch::Device { device: Device::Hip, blocks: 128, threads: 64, chunk_size: 4096 }
    );
}

#[test]
fn the_thread_count_counts_elsewhere() {
    let cpu = Launch::Cpu { threads: 3 };
    assert_eq!(Launch::select(&settings(ComputeBackend::Cpu), Some(Device::Cuda)), cpu);
    assert_eq!(Launch::select(&settings(ComputeBackend::Cpu), None), cpu);
    assert_eq!(Launch::select(&settings(ComputeBackend::Gpu), None), cpu);
}
