use tensor_compute::linear::LinearIndexer;

#[test]
fn indexer_walks_row_major_and_counts_closed_dims() {
    let shape = vec![2, 3];
    let mut indexer = LinearIndexer::from_shape_vec(&shape);
    let mut seen: Vec<(Vec<usize>, usize)> = Vec::new();
    while let Some(step) = indexer.next() {
        seen.push(step);
    }
    assert_eq!(
        seen,
        vec![
            (vec![0, 0], 0),
            (vec![0, 1], 0),
            (vec![0, 2], 0),
            (vec![1, 0], 1),
            (vec![1, 1], 0),
            (vec![1, 2], 0),
        ]
    );
}

#[test]
fn indexer_handles_rank_zero_and_single_element() {
    // rank 0 yields the single empty coordinate vector once
    let mut indexer = LinearIndexer::from_shape(&Vec::new());
    assert_eq!(indexer.next(), Some((Vec::new(), 0)));
    assert_eq!(indexer.next(), None);

    let mut indexer = LinearIndexer::from_shape(&vec![1, 1]);
    assert_eq!(indexer.next(), Some((vec![0, 0], 0)));
    assert_eq!(indexer.next(), None);
}
