use multithreading::std_flavour::{
    collect_results, map_chunk, slice_into_chunks, split_for_workers, ParallelError,
    MAX_THREAD_COUNT, THRESHOLD_CHUNK_SIZE,
};

/// The steps of a parallel map, with the workers run one after another in
/// the order given by `schedule`; a worker whose chunk holds `poison` fails.
fn run_workers<F>(
    data: Vec<u64>,
    func: F,
    schedule: fn(usize) -> Vec<usize>,
    poison: Option<u64>,
) -> Result<Vec<u64>, ParallelError>
where
    F: FnMut(u64) -> u64 + Clone,
{
    let mut chunks: Vec<Option<Vec<u64>>> = split_for_workers(data).into_iter().map(Some).collect();
    let mut outcomes: Vec<Option<Vec<u64>>> = chunks.iter().map(|_| None).collect();
    for index in schedule(chunks.len()) {
        let chunk = chunks[index].take().unwrap();
        let fails = poison.map_or(false, |bad| chunk.contains(&bad));
        outcomes[index] = if fails { None } else { Some(map_chunk(chunk, func.clone())) };
    }
    collect_results(outcomes)
}

fn in_order(workers: usize) -> Vec<usize> {
    (0..workers).collect()
}

fn last_first(workers: usize) -> Vec<usize> {
    (0..workers).rev().collect()
}

#[test]
fn parallel_test() {
    let data = vec![1, 2, 3, 4, 5];
    let result = run_workers(
        data.clone(),
        |x| {
            println!("Processed {x}");
            x
        },
        in_order,
        None,
    );
    assert_eq!(Ok(data), result);
}

#[test]
fn completion_order_does_not_show_in_the_result() {
    let data: Vec<u64> = (0..100).collect();
    let expected: Vec<u64> = data.iter().map(|x| x * x).collect();
    assert_eq!(run_workers(data.clone(), |x| x * x, in_order, None), Ok(expected.clone()));
    assert_eq!(run_workers(data, |x| x * x, last_first, None), Ok(expected));
}

#[test]
fn failing_worker_fails_the_whole_call() {
    let data: Vec<u64> = (0..100).collect();
    let result = run_workers(data, |x| x + 1, last_first, Some(42));
    assert_eq!(result, Err(ParallelError::WorkerFailure { chunk: 4 }));
}

#[test]
fn empty_input_needs_no_worker() {
    let result = run_workers(Vec::new(), |x| x, in_order, None);
    assert_eq!(result, Ok(Vec::new()));
}

#[test]
fn every_worker_gets_its_own_copy_of_the_function() {
    let mut calls = 0;
    let counting = move |_item: u64| {
        calls += 1;
        calls
    };
    let data: Vec<u64> = (0..25).collect();
    // Two chunks, of 13 and 12 items, each counted from one.
    let mut expected: Vec<u64> = (1..=13).collect();
    expected.extend(1..=12);
    assert_eq!(run_workers(data, counting, in_order, None), Ok(expected));
}

#[test]
fn fixed_configuration_is_ten_and_ten() {
    assert_eq!(THRESHOLD_CHUNK_SIZE, 10);
    assert_eq!(MAX_THREAD_COUNT, 10);
}

#[test]
fn split_for_workers_uses_the_fixed_configuration() {
    for len in [0usize, 1, 9, 10, 19, 20, 55, 100, 101, 1234] {
        let data: Vec<usize> = (0..len).collect();
        let expected = slice_into_chunks(data.clone(), 10, 10).unwrap();
        assert_eq!(split_for_workers(data), expected);
    }
}

#[test]
fn split_for_workers_never_exceeds_ten_chunks() {
    let data: Vec<u32> = (0..1001).collect();
    let chunks = split_for_workers(data);
    assert_eq!(chunks.len(), 10);
    let sizes: Vec<usize> = chunks.iter().map(|chunk| chunk.len()).collect();
    assert_eq!(sizes, vec![101, 101, 101, 101, 101, 101, 101, 101, 101, 92]);
}

#[test]
fn map_chunk_applies_the_function_in_order() {
    let output = map_chunk(vec![1, 2, 3, 4], |x: i32| x * 10);
    assert_eq!(output, vec![10, 20, 30, 40]);
}

#[test]
fn map_chunk_visits_items_from_first_to_last() {
    let mut seen = 0;
    let output = map_chunk(vec!['a', 'b', 'c'], move |item: char| {
        seen += 1;
        (seen, item)
    });
    assert_eq!(output, vec![(1, 'a'), (2, 'b'), (3, 'c')]);
}

#[test]
fn map_chunk_of_nothing_is_nothing() {
    let output = map_chunk(Vec::<u8>::new(), |x: u8| x);
    assert_eq!(output, Vec::<u8>::new());
}

#[test]
fn map_chunk_may_change_the_item_type() {
    let output = map_chunk(vec![1u8, 22, 133], |x: u8| format!("Processed value: {x}"));
    assert_eq!(
        output,
        vec![
            String::from("Processed value: 1"),
            String::from("Processed value: 22"),
            String::from("Processed value: 133"),
        ]
    );
}

#[test]
fn collect_results_concatenates_in_chunk_order() {
    let outcomes = vec![Some(vec![1, 2]), Some(vec![]), Some(vec![3]), Some(vec![4, 5, 6])];
    assert_eq!(collect_results(outcomes), Ok(vec![1, 2, 3, 4, 5, 6]));
}

#[test]
fn collect_results_of_no_workers_is_empty() {
    assert_eq!(collect_results(Vec::<Option<Vec<u8>>>::new()), Ok(Vec::new()));
}

#[test]
fn collect_results_reports_a_failed_worker() {
    let outcomes = vec![Some(vec![1, 2]), Some(vec![3]), None, Some(vec![4])];
    assert_eq!(
        collect_results(outcomes),
        Err(ParallelError::WorkerFailure { chunk: 2 })
    );
}

#[test]
fn collect_results_reports_the_first_of_several_failures() {
    let outcomes: Vec<Option<Vec<u8>>> = vec![None, Some(vec![3]), None];
    assert_eq!(
        collect_results(outcomes),
        Err(ParallelError::WorkerFailure { chunk: 0 })
    );
}

#[test]
fn errors_are_told_apart() {
    assert_ne!(
        ParallelError::ConfigurationError,
        ParallelError::WorkerFailure { chunk: 0 }
    );
    assert_ne!(
        ParallelError::WorkerFailure { chunk: 0 },
        ParallelError::WorkerFailure { chunk: 1 }
    );
}

#[test]
fn sequential_and_chunked_maps_agree() {
    let double = |x: u32| x.wrapping_mul(2);
    for len in [0u32, 1, 5, 10, 11, 99, 100, 257] {
        let data: Vec<u32> = (0..len).collect();
        let sequential = map_chunk(data.clone(), double);
        let outcomes = split_for_workers(data)
            .into_iter()
            .map(|chunk| Some(map_chunk(chunk, double)))
            .collect();
        assert_eq!(collect_results(outcomes), Ok(sequential));
    }
}
