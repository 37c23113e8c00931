use parmap::engine::aggregate;
use parmap::engine::gate;
use parmap::engine::map_chunk;
use parmap::engine::EngineError;
use parmap::engine::Mode;
use parmap::parallel_map;
use parmap::partition::chunk_size_for;
use parmap::partition::partition;
use parmap::transform_data;
use parmap::transform_data_with_cap;
use parmap::Strategy;

fn transform_data_cap10(n: u64) -> u64 {
    transform_data_with_cap(n, 10)
}

#[test]
fn test_transform_data() {
    assert_eq!(transform_data(1), 0);
    assert_eq!(transform_data(2), 1);
    assert_eq!(transform_data(3), 7);
    assert_eq!(transform_data(100), 88);
}

#[test]
fn test_process_data_single_thread() {
    let input = vec![1, 2, 3, 100];
    let threshold = 5;
    let result = parallel_map(
        input,
        threshold,
        Strategy::ParallelismBased { workers: 4 },
        transform_data,
    );
    let expected_result = vec![0, 1, 7, 88];
    assert_eq!(result, Ok(expected_result));
}

#[test]
fn test_process_data_multi_thread() {
    let input = vec![1, 2, 3, 100];
    let threshold = 2;
    let result = parallel_map(
        input,
        threshold,
        Strategy::ParallelismBased { workers: 4 },
        transform_data,
    );
    let expected_result = vec![0, 1, 7, 88];
    assert_eq!(result, Ok(expected_result));
}

#[test]
fn test_process_data_multi_thread_with_larger_input() {
    let input = vec![1, 2, 3, 100, 267, 423];
    let threshold = 2;
    let result = parallel_map(
        input,
        threshold,
        Strategy::ParallelismBased { workers: 4 },
        transform_data_cap10,
    );
    let expected_result = vec![0, 1, 7, 22, 340, 3220];
    assert_eq!(result, Ok(expected_result));
}

#[test]
fn test_process_data_multi_thread_heavy_loaded() {
    let input = (0u64..100_000).collect::<Vec<u64>>();
    let threshold = 500;
    let result = parallel_map(
        input,
        threshold,
        Strategy::ParallelismBased { workers: 8 },
        transform_data,
    );
    assert_eq!(result.unwrap().len(), 100_000);
}

#[test]
fn test_transform_data_with_cap_values() {
    assert_eq!(transform_data_with_cap(1, 8), 0);
    assert_eq!(transform_data_with_cap(2, 8), 1);
    assert_eq!(transform_data_with_cap(3, 8), 7);
    assert_eq!(transform_data_with_cap(100, 8), 88);
    assert_eq!(transform_data_with_cap(100, 10), 22);
    assert_eq!(transform_data_with_cap(267, 10), 340);
    assert_eq!(transform_data_with_cap(423, 10), 3220);
    assert_eq!(transform_data_with_cap(0, 8), 0);
    assert_eq!(transform_data_with_cap(1, 0), 1);
}

#[test]
fn test_threshold_does_not_change_output() {
    let reference = parallel_map(
        vec![5, 6, 7, 8, 9],
        usize::MAX,
        Strategy::FixedSize,
        transform_data,
    );
    for threshold in [0usize, 1, 2, 4, 5, 100] {
        let result = parallel_map(
            vec![5, 6, 7, 8, 9],
            threshold,
            Strategy::FixedSize,
            transform_data,
        );
        assert_eq!(result, reference);
    }
}

#[test]
fn test_strategy_does_not_change_output() {
    let fixed = parallel_map(vec![1, 2, 3, 100, 267, 423], 2, Strategy::FixedSize, transform_data);
    for workers in [0usize, 1, 3, 16] {
        let by_parallelism = parallel_map(
            vec![1, 2, 3, 100, 267, 423],
            2,
            Strategy::ParallelismBased { workers },
            transform_data,
        );
        assert_eq!(by_parallelism, fixed);
    }
}

#[test]
fn test_empty_input_yields_empty_output() {
    let result = parallel_map(Vec::new(), 0, Strategy::FixedSize, transform_data);
    assert_eq!(result, Ok(Vec::new()));
    let result = parallel_map(
        Vec::new(),
        100,
        Strategy::ParallelismBased { workers: 4 },
        transform_data,
    );
    assert_eq!(result, Ok(Vec::new()));
}

#[test]
fn test_gate_threshold_boundary() {
    assert_eq!(gate(3, 5), Mode::Sequential);
    assert_eq!(gate(5, 5), Mode::Sequential);
    assert_eq!(gate(6, 5), Mode::Parallel);
    assert_eq!(gate(0, 0), Mode::Sequential);
    assert_eq!(gate(1, 0), Mode::Parallel);
}

#[test]
fn test_partition_with_remainder() {
    let chunks = partition(vec![1u64, 2, 3, 4, 5, 6, 7], 3);
    assert_eq!(chunks, vec![vec![1, 2, 3], vec![4, 5, 6], vec![7]]);
    let rebuilt: Vec<u64> = chunks.into_iter().flatten().collect();
    assert_eq!(rebuilt, vec![1, 2, 3, 4, 5, 6, 7]);
}

#[test]
fn test_partition_exact_division() {
    let chunks = partition(vec![10u64, 20, 30, 40], 2);
    assert_eq!(chunks, vec![vec![10, 20], vec![30, 40]]);
}

#[test]
fn test_partition_empty_input_has_no_chunks() {
    let chunks = partition(Vec::<u64>::new(), 5);
    assert_eq!(chunks.len(), 0);
}

#[test]
fn test_chunk_size_policies() {
    assert_eq!(chunk_size_for(Strategy::FixedSize, 10, 3), 3);
    assert_eq!(chunk_size_for(Strategy::FixedSize, 10, 0), 1);
    assert_eq!(chunk_size_for(Strategy::ParallelismBased { workers: 4 }, 10, 2), 3);
    assert_eq!(chunk_size_for(Strategy::ParallelismBased { workers: 4 }, 8, 2), 2);
    assert_eq!(chunk_size_for(Strategy::ParallelismBased { workers: 0 }, 10, 2), 10);
    assert_eq!(chunk_size_for(Strategy::ParallelismBased { workers: 1 }, 10, 2), 10);
}

#[test]
fn test_map_chunk_applies_transform_in_order() {
    let out = map_chunk(vec![1, 2, 3, 100], transform_data);
    assert_eq!(out, vec![0, 1, 7, 88]);
}

#[test]
fn test_aggregate_concatenates_in_chunk_order() {
    let parts = vec![Some(vec![0u64, 1]), Some(vec![7]), Some(vec![88])];
    assert_eq!(aggregate(parts), Ok(vec![0, 1, 7, 88]));
}

#[test]
fn test_aggregate_reports_first_failing_chunk() {
    let parts = vec![Some(vec![1u64]), None, Some(vec![2]), None];
    assert_eq!(aggregate(parts), Err(EngineError::WorkerFailure { chunk: 1 }));
}

#[test]
fn test_aggregate_of_no_parts_is_empty() {
    assert_eq!(aggregate(Vec::<Option<Vec<u64>>>::new()), Ok(Vec::new()));
}
