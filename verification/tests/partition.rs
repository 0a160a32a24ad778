use refolder::partition;

fn names(count: usize) -> Vec<String> {
    (0..count).map(|i| format!("f{}", i)).collect()
}

fn sizes(buckets: &[Vec<String>]) -> Vec<usize> {
    buckets.iter().map(|b| b.len()).collect()
}

#[test]
fn test_partition_even() {
    let files: Vec<String> = (0..8).map(|i| format!("f{}", i)).collect();
    let buckets = partition(files, 4);
    assert_eq!(buckets.len(), 4);
    assert_eq!(
        buckets.iter().map(|b| b.len()).collect::<Vec<_>>(),
        vec![2, 2, 2, 2]
    );
}

#[test]
fn test_partition_uneven() {
    let files: Vec<String> = (0..10).map(|i| format!("f{}", i)).collect();
    let buckets = partition(files, 3);
    assert_eq!(
        buckets.iter().map(|b| b.len()).collect::<Vec<_>>(),
        vec![4, 3, 3]
    );
}

#[test]
fn partition_keeps_order_in_contiguous_runs() {
    let buckets = partition(names(7), 3);
    assert_eq!(buckets[0], vec!["f0", "f1", "f2"]);
    assert_eq!(buckets[1], vec!["f3", "f4"]);
    assert_eq!(buckets[2], vec!["f5", "f6"]);
}

#[test]
fn partition_with_fewer_files_than_buckets_leaves_trailing_buckets_empty() {
    let buckets = partition(names(2), 5);
    assert_eq!(sizes(&buckets), vec![1, 1, 0, 0, 0]);
    assert_eq!(buckets[0], vec!["f0"]);
    assert_eq!(buckets[1], vec!["f1"]);
}

#[test]
fn partition_of_nothing_gives_empty_buckets() {
    let buckets = partition(Vec::new(), 3);
    assert_eq!(sizes(&buckets), vec![0, 0, 0]);
}

#[test]
fn partition_into_zero_buckets_gives_no_bucket() {
    let buckets = partition(names(4), 0);
    assert!(buckets.is_empty());
}

#[test]
fn partition_into_one_bucket_keeps_everything() {
    let buckets = partition(names(4), 1);
    assert_eq!(buckets, vec![names(4)]);
}

#[test]
fn partition_sizes_are_floor_or_ceiling_larger_first_and_sum_up() {
    for f in 0..60usize {
        for n in 1..13usize {
            let files = names(f);
            let buckets = partition(files.clone(), n);
            assert_eq!(buckets.len(), n);
            let floor = f / n;
            let ceil = (f + n - 1) / n;
            for (i, bucket) in buckets.iter().enumerate() {
                assert!(bucket.len() == floor || bucket.len() == ceil);
                assert_eq!(bucket.len() > floor, i < f % n);
            }
            assert_eq!(sizes(&buckets).iter().sum::<usize>(), f);
            let joined: Vec<String> = buckets.into_iter().flatten().collect();
            assert_eq!(joined, files);
        }
    }
}

#[test]
fn partition_is_the_same_for_the_same_input() {
    assert_eq!(partition(names(11), 4), partition(names(11), 4));
}
