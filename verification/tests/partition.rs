use mandelbrot::error::Error;
use mandelbrot::partition::{chunk_size, partition, Chunk};
use mandelbrot::workers::{clamp_workers, worker_count};

fn ranges(total: u32, workers: u32) -> Vec<(u32, u32)> {
    partition(total, workers).unwrap().iter().map(|c| (c.start, c.end)).collect()
}

#[test]
fn share_is_rounded_up() {
    assert_eq!(chunk_size(10, 3), 4);
    assert_eq!(chunk_size(9, 3), 3);
    assert_eq!(chunk_size(8, 2), 4);
    assert_eq!(chunk_size(16, 7), 3);
    assert_eq!(chunk_size(1, 7), 1);
    assert_eq!(chunk_size(7, 7), 1);
    assert_eq!(chunk_size(0, 5), 0);
    assert_eq!(chunk_size(5, 1), 5);
    assert_eq!(chunk_size(u32::MAX, 1), u32::MAX);
    assert_eq!(chunk_size(u32::MAX, 2), 2147483648);
    assert_eq!(chunk_size(u32::MAX, u32::MAX), 1);
}

#[test]
fn split_of_ten_among_three() {
    assert_eq!(
        partition(10, 3),
        Ok(vec![
            Chunk { start: 0, end: 4 },
            Chunk { start: 4, end: 8 },
            Chunk { start: 8, end: 10 },
        ])
    );
}

#[test]
fn split_of_sixteen() {
    assert_eq!(ranges(16, 1), vec![(0, 16)]);
    assert_eq!(ranges(16, 2), vec![(0, 8), (8, 16)]);
    assert_eq!(
        ranges(16, 7),
        vec![(0, 3), (3, 6), (6, 9), (9, 12), (12, 15), (15, 16), (16, 16)]
    );
}

#[test]
fn more_workers_than_indices_leaves_empty_ranges() {
    assert_eq!(ranges(3, 5), vec![(0, 1), (1, 2), (2, 3), (3, 3), (3, 3)]);
    assert_eq!(ranges(1, 4), vec![(0, 1), (1, 1), (1, 1), (1, 1)]);
}

#[test]
fn nothing_to_split() {
    assert_eq!(ranges(0, 1), vec![(0, 0)]);
    assert_eq!(ranges(0, 3), vec![(0, 0), (0, 0), (0, 0)]);
}

#[test]
fn no_workers_is_refused() {
    assert_eq!(partition(10, 0), Err(Error::NoWorkers));
    assert_eq!(partition(0, 0), Err(Error::NoWorkers));
}

#[test]
fn split_near_the_top_of_the_index_range() {
    let plan = partition(u32::MAX, 3).unwrap();
    assert_eq!(
        plan,
        vec![
            Chunk { start: 0, end: 1431655765 },
            Chunk { start: 1431655765, end: 2863311530 },
            Chunk { start: 2863311530, end: u32::MAX },
        ]
    );
}

#[test]
fn ranges_are_contiguous_disjoint_and_cover() {
    for total in [0u32, 1, 2, 5, 16, 17, 100, 101] {
        for workers in [1u32, 2, 3, 7, 16, 64, 200] {
            let plan = partition(total, workers).unwrap();
            assert_eq!(plan.len(), workers as usize);
            assert_eq!(plan[0].start, 0);
            assert_eq!(plan[plan.len() - 1].end, total);
            let share = chunk_size(total, workers);
            for w in 0..plan.len() {
                assert!(plan[w].start <= plan[w].end);
                assert!(plan[w].end - plan[w].start <= share);
                if w + 1 < plan.len() {
                    assert_eq!(plan[w].end, plan[w + 1].start);
                }
            }
            let mut laid_out: Vec<u32> = Vec::new();
            for c in plan.iter() {
                laid_out.extend(c.start..c.end);
            }
            let all: Vec<u32> = (0..total).collect();
            assert_eq!(laid_out, all);
        }
    }
}

#[test]
fn workers_follow_the_processors() {
    assert_eq!(clamp_workers(0), 1);
    assert_eq!(clamp_workers(1), 1);
    assert_eq!(clamp_workers(8), 8);
    assert_eq!(clamp_workers(u32::MAX as usize), u32::MAX);
    assert_eq!(clamp_workers(usize::MAX), u32::MAX);
}

#[test]
fn there_is_always_a_worker() {
    assert!(worker_count() >= 1);
}
