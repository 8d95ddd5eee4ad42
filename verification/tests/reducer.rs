use cabarrus::numpy::{
    create_empty_mmap, open_matrix_mmap, read_matrix, read_matrix_mmap, write_matrix, Matrix,
    HEAD_LIMIT,
};
use cabarrus::reducer::{assigned, rows_per_run, shard, Phase, Reducer, Task, WINDOW};

fn file_of(rows: usize, cols: usize, values: &[f64]) -> Vec<u8> {
    let mut bytes = Vec::new();
    for v in values {
        bytes.extend_from_slice(&v.to_ne_bytes());
    }
    write_matrix(&Matrix::new(rows, cols, bytes).unwrap())
}

fn values_of(file: Vec<u8>) -> Vec<f64> {
    read_matrix(file)
        .unwrap()
        .data()
        .chunks(8)
        .map(|c| f64::from_ne_bytes([c[0], c[1], c[2], c[3], c[4], c[5], c[6], c[7]]))
        .collect()
}

/// Drives a reduction over files that are held in memory.
fn sum_files(files: &[Vec<u8>], workers: usize, rank: usize) -> Option<Vec<u8>> {
    let mut reducer = Reducer::new(files.len(), workers, rank);
    let mut accumulator: Option<Vec<u8>> = None;
    let mut offset = 0;
    let mut open: Vec<usize> = Vec::new();
    loop {
        match reducer.next() {
            Task::Idle => return None,
            Task::Seed { first } => {
                let head = &files[first][..files[first].len().min(HEAD_LIMIT)];
                let shape = open_matrix_mmap(head, files[first].len()).unwrap();
                let (header, region) = create_empty_mmap(shape.rows(), shape.cols()).unwrap();
                offset = region.offset();
                let mut file = header;
                file.extend_from_slice(&vec![0u8; region.len()]);
                accumulator = Some(file);
                reducer.shape(shape.rows(), shape.cols());
            }
            Task::Open { from, to } => {
                assert!(to - from <= WINDOW);
                open = (from..to).collect();
            }
            Task::Add { row, count } => {
                let target = accumulator.as_mut().unwrap();
                for &index in &open {
                    let file = &files[index];
                    let head = &file[..file.len().min(HEAD_LIMIT)];
                    let mapped = open_matrix_mmap(head, file.len()).unwrap();
                    let view = read_matrix_mmap(&mapped, mapped.len()).unwrap();
                    let (start, end) = view.band(row, count).unwrap();
                    let mut at = start;
                    while at < end {
                        let mut a = [0u8; 8];
                        let mut b = [0u8; 8];
                        a.copy_from_slice(&target[offset + at..offset + at + 8]);
                        b.copy_from_slice(&file[mapped.offset() + at..mapped.offset() + at + 8]);
                        let sum = f64::from_ne_bytes(a) + f64::from_ne_bytes(b);
                        target[offset + at..offset + at + 8].copy_from_slice(&sum.to_ne_bytes());
                        at += 8;
                    }
                }
            }
            Task::Finish => return accumulator,
        }
    }
}

#[test]
fn three_matrices_one_worker() {
    let a = file_of(2, 2, &[1.0, 2.0, 3.0, 4.0]);
    let b = file_of(2, 2, &[10.0, 20.0, 30.0, 40.0]);
    let c = file_of(2, 2, &[0.0, 0.0, 0.0, 1.0]);
    let sum = sum_files(&[a, b, c], 1, 0).unwrap();
    assert_eq!(values_of(sum), vec![11.0, 22.0, 33.0, 45.0]);
}

#[test]
fn two_passes_give_the_sum_of_one() {
    let files: Vec<Vec<u8>> = (0..7)
        .map(|k| {
            let values: Vec<f64> = (0..6).map(|i| (k * 10 + i) as f64).collect();
            file_of(3, 2, &values)
        })
        .collect();
    let single = values_of(sum_files(&files, 1, 0).unwrap());
    let expected: Vec<f64> = (0..6).map(|i| (0..7).map(|k| (k * 10 + i) as f64).sum()).collect();
    assert_eq!(single, expected);
    for workers in [2usize, 3, 4, 7] {
        let partial: Vec<Vec<u8>> =
            (0..workers).filter_map(|rank| sum_files(&files, workers, rank)).collect();
        let combined = values_of(sum_files(&partial, 1, 0).unwrap());
        assert_eq!(combined, expected);
    }
}

#[test]
fn empty_shard_does_nothing() {
    let a = file_of(1, 1, &[1.0]);
    assert_eq!(sum_files(&[a.clone()], 2, 1), None);
    assert_eq!(sum_files(&[], 1, 0), None);
    let mut reducer = Reducer::new(1, 2, 1);
    assert_eq!(reducer.phase(), Phase::Start);
    assert_eq!(reducer.next(), Task::Idle);
    assert_eq!(reducer.phase(), Phase::Empty);
    assert_eq!(reducer.next(), Task::Idle);
    reducer.shape(4, 4);
    assert_eq!(reducer.next(), Task::Idle);
    assert_eq!(reducer.phase(), Phase::Empty);
}

#[test]
fn shards_are_contiguous_and_rounded_up() {
    assert_eq!(shard(10, 3, 0), (0, 4));
    assert_eq!(shard(10, 3, 1), (4, 8));
    assert_eq!(shard(10, 3, 2), (8, 10));
    assert_eq!(shard(10, 3, 3), (10, 10));
    assert_eq!(shard(10, 3, usize::MAX), (10, 10));
    assert_eq!(shard(10, 1, 0), (0, 10));
    assert_eq!(shard(3, 5, 0), (0, 1));
    assert_eq!(shard(3, 5, 2), (2, 3));
    assert_eq!(shard(3, 5, 3), (3, 3));
    assert_eq!(shard(3, 5, 4), (3, 3));
    assert_eq!(shard(0, 4, 0), (0, 0));
    assert_eq!(shard(9, 3, 2), (6, 9));
    assert_eq!(shard(usize::MAX, usize::MAX, usize::MAX - 1), (usize::MAX - 1, usize::MAX));
    assert_eq!(shard(usize::MAX, 2, 1), (usize::MAX / 2 + 1, usize::MAX));
}

#[test]
fn every_file_has_one_worker() {
    for files in 0..40usize {
        for workers in 1..12usize {
            let mut owners = vec![0usize; files];
            let mut last = 0;
            for rank in 0..workers {
                let (start, end) = shard(files, workers, rank);
                assert_eq!(start, last);
                for owner in owners.iter_mut().take(end).skip(start) {
                    *owner += 1;
                }
                last = end;
            }
            assert_eq!(last, files);
            assert!(owners.iter().all(|&n| n == 1));
        }
    }
}

#[test]
fn assigned_names_are_the_shard() {
    let names: Vec<String> = ["a", "b", "c", "d", "e"].iter().map(|s| s.to_string()).collect();
    assert_eq!(assigned(&names, 2, 0), &names[0..3]);
    assert_eq!(assigned(&names, 2, 1), &names[3..5]);
    assert_eq!(assigned(&names, 2, 2), &names[5..5]);
    assert_eq!(assigned(&names, 1, 0), &names[..]);
}

#[test]
fn runs_hold_about_a_million_cells() {
    assert_eq!(rows_per_run(1), 1048576);
    assert_eq!(rows_per_run(2), 524288);
    assert_eq!(rows_per_run(3), 349525);
    assert_eq!(rows_per_run(1024), 1024);
    assert_eq!(rows_per_run(1048576), 1);
    assert_eq!(rows_per_run(1048577), 1);
    assert_eq!(rows_per_run(usize::MAX), 1);
}

#[test]
fn tasks_come_window_by_window_and_run_by_run() {
    let mut reducer = Reducer::new(2500, 1, 0);
    assert_eq!(reducer.next(), Task::Seed { first: 0 });
    assert_eq!(reducer.phase(), Phase::Seeding);
    assert_eq!(reducer.next(), Task::Seed { first: 0 });
    reducer.shape(5, 400000);
    let mut tasks = Vec::new();
    loop {
        let task = reducer.next();
        tasks.push(task);
        if task == Task::Finish {
            break;
        }
    }
    let runs = [
        Task::Add { row: 0, count: 2 },
        Task::Add { row: 2, count: 2 },
        Task::Add { row: 4, count: 1 },
    ];
    let mut expected = vec![Task::Open { from: 0, to: 1024 }];
    expected.extend_from_slice(&runs);
    expected.push(Task::Open { from: 1024, to: 2048 });
    expected.extend_from_slice(&runs);
    expected.push(Task::Open { from: 2048, to: 2500 });
    expected.extend_from_slice(&runs);
    expected.push(Task::Finish);
    assert_eq!(tasks, expected);
    assert_eq!(reducer.phase(), Phase::Finished);
    assert_eq!(reducer.next(), Task::Finish);
}

#[test]
fn matrices_without_cells_are_opened_and_finished() {
    for (rows, cols) in [(0usize, 5usize), (5, 0), (0, 0)] {
        let mut reducer = Reducer::new(3, 1, 0);
        assert_eq!(reducer.next(), Task::Seed { first: 0 });
        reducer.shape(rows, cols);
        assert_eq!(reducer.next(), Task::Open { from: 0, to: 3 });
        assert_eq!(reducer.next(), Task::Finish);
    }
}

#[test]
fn second_worker_starts_at_its_shard() {
    let mut reducer = Reducer::new(10, 3, 1);
    assert_eq!(reducer.next(), Task::Seed { first: 4 });
    reducer.shape(1, 1);
    assert_eq!(reducer.next(), Task::Open { from: 4, to: 8 });
    assert_eq!(reducer.next(), Task::Add { row: 0, count: 1 });
    assert_eq!(reducer.next(), Task::Finish);
}
