use cugparck::ctx::RainbowTableCtxBuilder;
use cugparck::scheduling::{BatchInfo, BatchIterator, FiltrationIterator, DESIRED_CHAINS_PER_BATCH};

fn collect(mut it: BatchIterator) -> Vec<BatchInfo> {
    let mut out = Vec::new();
    while let Some(b) = it.next() {
        out.push(b);
    }
    out
}

#[test]
fn test_batch_iterator_small_batch() {
    let chains_len = 201;
    let mut total_chains = 0;
    let batch_iterator = BatchIterator::new(chains_len);

    // only one small batch
    assert_eq!(1, batch_iterator.len());

    for batch_info in collect(batch_iterator) {
        total_chains += batch_info.range.len();
    }

    assert_eq!(chains_len, total_chains);
}

#[test]
fn test_batch_iterator_perfect_batch_size() {
    let chains_len = DESIRED_CHAINS_PER_BATCH * 2;
    let batch_iterator = BatchIterator::new(chains_len);

    assert_eq!(2, batch_iterator.len());

    for batch_info in collect(batch_iterator) {
        // no remainder, this should perfectly match
        assert_eq!(batch_info.range.len(), DESIRED_CHAINS_PER_BATCH);
    }
}

#[test]
fn test_batch_iterator_remainder() {
    let chains_len = DESIRED_CHAINS_PER_BATCH * 5 - 1;
    let mut total_chains = 0;
    let batch_iterator = BatchIterator::new(chains_len);

    assert_eq!(4, batch_iterator.len());

    let batches = collect(batch_iterator);
    for batch_info in &batches {
        // the batch size should always be in [DESIRED_CHAINS_PER_BATCH, DESIRED_CHAINS_PER_BATCH*2]
        assert!(
            batch_info.range.len() > DESIRED_CHAINS_PER_BATCH
                && batch_info.range.len() < DESIRED_CHAINS_PER_BATCH * 2
        );
        total_chains += batch_info.range.len();
    }

    // the first batches should have one element more
    assert_eq!(
        batches.first().unwrap().range.len(),
        batches.last().unwrap().range.len() + 1
    );
    assert_eq!(chains_len, total_chains);
}

#[test]
fn batches_tile_the_chains_in_order() {
    let n = DESIRED_CHAINS_PER_BATCH * 3 + 7;
    let batches = collect(BatchIterator::new(n));
    assert_eq!(3, batches.len());
    let mut next = 0;
    for (i, b) in batches.iter().enumerate() {
        assert_eq!(next, b.range.start);
        let expected = n / 3 + if i < n % 3 { 1 } else { 0 };
        assert_eq!(expected, b.range.len());
        assert!(b.range.len() >= n / 3);
        assert_eq!(512, b.thread_count);
        assert_eq!(((b.range.len() + 511) / 512) as u32, b.block_count);
        next = b.range.end;
    }
    assert_eq!(n, next);
}

#[test]
fn an_empty_batch_has_one_block() {
    let batches = collect(BatchIterator::new(0));
    assert_eq!(1, batches.len());
    assert_eq!(0..0, batches[0].range);
    assert_eq!(1, batches[0].block_count);
}

#[test]
fn filtration_ranges_cover_the_chain() {
    let ctx = RainbowTableCtxBuilder::new().chain_length(100).build().unwrap();
    let mut it = FiltrationIterator::new(&ctx, vec![2, 2, 10, 7, 50, 500]);
    let mut ranges = Vec::new();
    while let Some(r) = it.next() {
        ranges.push(r);
    }
    assert_eq!(vec![0..2, 2..10, 10..50, 50..99], ranges);
}

#[test]
fn filtration_without_columns_is_one_range() {
    let ctx = RainbowTableCtxBuilder::new().chain_length(10).build().unwrap();
    let mut it = FiltrationIterator::new(&ctx, vec![]);
    assert_eq!(Some(0..9), it.next());
    assert_eq!(None, it.next());
}
