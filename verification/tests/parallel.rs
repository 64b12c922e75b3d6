use crabmagick_core::parallel::{
    parallel_accumulate, parallel_chunks_mut, parallel_for_each, parallel_map, parallel_map_result,
};

#[test]
fn maps_keep_the_order() {
    let expected: Vec<usize> = (0..1000).map(|i| i * i).collect();
    assert_eq!(parallel_map(1000, false, |i| i * i), expected);
    assert_eq!(parallel_map(1000, true, |i| i * i), expected);
    assert_eq!(parallel_map(0, false, |i| i), Vec::<usize>::new());
}

#[test]
fn the_first_error_counts() {
    let f = |i: usize| if i % 7 == 6 { Err(i) } else { Ok(i) };
    for sequential in [false, true] {
        assert_eq!(parallel_map_result(100, sequential, f), Err(6));
        assert_eq!(parallel_map_result(6, sequential, f), Ok(vec![0, 1, 2, 3, 4, 5]));
    }
}

#[test]
fn sums_do_not_depend_on_threads() {
    for sequential in [false, true] {
        for min in [0usize, 10_000] {
            let total = parallel_accumulate(
                1000,
                min,
                sequential,
                || 0u64,
                |acc: u64, i: usize| acc.wrapping_add(i as u64),
                |a: u64, b: u64| a.wrapping_add(b),
            );
            assert_eq!(total, 499_500);
        }
    }
}

#[test]
fn every_index_is_visited() {
    let seen = std::sync::atomic::AtomicUsize::new(0);
    parallel_for_each(50, false, |i| {
        seen.fetch_add(i, std::sync::atomic::Ordering::Relaxed);
    });
    assert_eq!(seen.load(std::sync::atomic::Ordering::Relaxed), 1225);
}

#[test]
fn chunks_are_replaced() {
    for sequential in [false, true] {
        let mut data: Vec<u32> = vec![0; 10];
        parallel_chunks_mut(&mut data, 4, sequential, |i, c: Vec<u32>| {
            vec![(10 * i + c.len()) as u32; c.len()]
        });
        assert_eq!(data, vec![4, 4, 4, 4, 14, 14, 14, 14, 22, 22]);
    }
}

#[test]
fn folds_on_one_thread_go_in_order() {
    let run = |n: usize, min: usize, sequential: bool| {
        parallel_accumulate(
            n,
            min,
            sequential,
            || "s".to_string(),
            |acc: String, i: usize| format!("{acc}{i}"),
            |_: String, _: String| "reduced".to_string(),
        )
    };
    assert_eq!(run(4, 0, true), "s0123");
    assert_eq!(run(4, 5, false), "s0123");
    assert_eq!(run(0, 0, true), "s");
    assert_eq!(run(0, 1, false), "s");
}
