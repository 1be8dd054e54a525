use radixheap::RadixHeap;

#[test]
fn extraction_keys_never_decrease() {
    let mut heap = RadixHeap::new(None);
    for key in [93u32, 7, 211, 7, 18, 1, 13, 4000000000, 0, 255] {
        heap.push(key, "x").unwrap();
    }
    let mut last: Option<u32> = None;
    while let Some((k, _)) = heap.pop() {
        if let Some(prev) = last {
            assert!(prev <= k);
        }
        last = Some(k);
    }
    assert!(heap.empty());
}

#[test]
fn insert_below_baseline_rejected() {
    let mut heap = RadixHeap::new(None);
    heap.push(10, 'a').unwrap();
    heap.push(20, 'b').unwrap();
    assert_eq!(heap.pop(), Some((10, 'a')));
    // the baseline is now 10: smaller keys are rejected, nothing changes
    assert_eq!(heap.push(9, 'c'), Err("key too small"));
    assert_eq!(heap.length(), 1);
    // keys at or above the baseline are accepted
    assert_eq!(heap.push(10, 'd'), Ok(()));
    assert_eq!(heap.push(11, 'e'), Ok(()));
    assert_eq!(heap.length(), 3);
}

#[test]
fn count_conservation() {
    let mut heap = RadixHeap::new(None);
    for key in 0u32..30 {
        heap.push(key, key as u64).unwrap();
    }
    assert_eq!(heap.length(), 30);
    assert!(!heap.empty());
    for popped in 1u32..=12 {
        heap.pop();
        assert_eq!(heap.length(), 30 - popped as usize);
    }
    assert_eq!(heap.length(), 18);
    for _ in 0..18 {
        heap.pop();
    }
    assert_eq!(heap.length(), 0);
    assert!(heap.empty());
}

#[test]
fn peek_agrees_with_pop() {
    let mut heap = RadixHeap::new(None);
    for (key, val) in [(44u32, "d"), (3, "a"), (3, "b"), (17, "c"), (600, "e")] {
        heap.push(key, val).unwrap();
    }
    while !heap.empty() {
        let reported = heap.peek();
        assert_eq!(heap.peek(), reported, "peeking twice must not mutate");
        assert_eq!(heap.pop(), reported);
    }
    assert_eq!(heap.peek(), None);
    assert_eq!(heap.pop(), None);
}

#[test]
fn multiset_round_trip() {
    let inserted = [
        (18u32, "of"),
        (93, "rust"),
        (7, "amazing"),
        (93, "again"),
        (7, "amazing"),
        (211, "development"),
    ];
    let mut heap = RadixHeap::new(None);
    for (k, v) in inserted {
        heap.push(k, v).unwrap();
    }
    let mut extracted: Vec<(u32, &str)> = Vec::new();
    while let Some(pair) = heap.pop() {
        extracted.push(pair);
    }
    for window in extracted.windows(2) {
        assert!(window[0].0 <= window[1].0);
    }
    let mut expected = inserted.to_vec();
    expected.sort();
    let mut actual = extracted.clone();
    actual.sort();
    assert_eq!(actual, expected);
}

#[test]
fn clear_keeps_baseline() {
    let mut heap = RadixHeap::new(None);
    heap.push(40, 'x').unwrap();
    heap.push(50, 'y').unwrap();
    assert_eq!(heap.pop(), Some((40, 'x')));
    heap.clear();
    assert_eq!(heap.length(), 0);
    assert!(heap.empty());
    assert_eq!(heap.toplast, 40);
    // the baseline survives the clear: smaller keys stay rejected
    assert_eq!(heap.push(39, 'z'), Err("key too small"));
    assert_eq!(heap.push(40, 'z'), Ok(()));
    assert_eq!(heap.length(), 1);
}

#[test]
fn concrete_scenario() {
    let mut heap = RadixHeap::new(None);
    heap.push(18, "of").unwrap();
    heap.push(93, "rust").unwrap();
    heap.push(7, "amazing").unwrap();
    heap.push(1, "hello").unwrap();
    heap.push(13, "world").unwrap();
    heap.push(211, "development").unwrap();

    assert_eq!(heap.length(), 6);
    assert_eq!(heap.peek(), Some((1, "hello")));
    assert_eq!(heap.keys(), vec![1u32, 7, 13, 18, 93, 211]);
    assert_eq!(heap.pop(), Some((1, "hello")));
    assert_eq!(heap.peek(), Some((7, "amazing")));
}

#[test]
fn capacity_hint_multiplies() {
    let small: RadixHeap<char> = RadixHeap::new(Some(8));
    assert_eq!(small.capacity(), 264);
    let large: RadixHeap<char> = RadixHeap::new(Some(12));
    assert_eq!(large.capacity(), 396);
    let bare: RadixHeap<char> = RadixHeap::new(None);
    assert_eq!(bare.capacity(), 0);
}

#[test]
fn equal_keys_first_inserted_wins() {
    let mut heap = RadixHeap::new(None);
    heap.push(5, "first").unwrap();
    heap.push(5, "second").unwrap();
    heap.push(5, "third").unwrap();
    assert_eq!(heap.peek(), Some((5, "first")));
    assert_eq!(heap.pop(), Some((5, "first")));
    assert_eq!(heap.pop(), Some((5, "second")));
    assert_eq!(heap.pop(), Some((5, "third")));
    assert_eq!(heap.pop(), None);
}

#[test]
fn redistribution_keeps_leftovers() {
    let mut heap = RadixHeap::new(None);
    // all four keys share distance class 5 while the baseline is 0
    heap.push(19, "s").unwrap();
    heap.push(16, "p").unwrap();
    heap.push(18, "r").unwrap();
    heap.push(17, "q").unwrap();
    // extracting 16 drains the bucket and re-inserts 17, 18, 19 under the
    // advanced baseline
    assert_eq!(heap.pop(), Some((16, "p")));
    assert_eq!(heap.length(), 3);
    assert_eq!(heap.keys(), vec![17u32, 18, 19]);
    assert_eq!(heap.pop(), Some((17, "q")));
    assert_eq!(heap.pop(), Some((18, "r")));
    assert_eq!(heap.pop(), Some((19, "s")));
    assert!(heap.empty());
}

#[test]
fn empty_heap_has_no_minimum() {
    let mut heap: RadixHeap<u8> = RadixHeap::new(None);
    assert_eq!(heap.peek(), None);
    assert_eq!(heap.pop(), None);
    assert_eq!(heap.length(), 0);
    assert!(heap.empty());
    assert_eq!(heap.keys(), Vec::<u32>::new());
    assert_eq!(heap.values(), Vec::<u8>::new());
}

#[test]
fn largest_key_accepted() {
    let mut heap = RadixHeap::new(None);
    heap.push(u32::MAX, "top").unwrap();
    heap.push(0, "bottom").unwrap();
    assert_eq!(heap.pop(), Some((0, "bottom")));
    assert_eq!(heap.pop(), Some((u32::MAX, "top")));
    assert_eq!(heap.pop(), None);
}

#[test]
fn iterators_walk_buckets_in_order() {
    let mut heap = RadixHeap::new(None);
    heap.push(3, 'a').unwrap();
    heap.push(3, 'b').unwrap();
    heap.push(9, 'c').unwrap();

    let mut seen: Vec<(u32, char)> = Vec::new();
    let mut buckets = 0;
    let mut it = heap.bucket_iter();
    while let Some(bucket) = it.next() {
        buckets += 1;
        let mut entries = bucket.iter();
        while let Some(pair) = entries.next() {
            seen.push(pair);
        }
    }
    assert_eq!(buckets, 33);
    assert_eq!(seen, vec![(3, 'a'), (3, 'b'), (9, 'c')]);
    assert_eq!(seen, heap.tuples());

    let mut owned: Vec<(u32, char)> = Vec::new();
    let mut heap_it = heap.into_iter();
    while let Some(bucket) = heap_it.next() {
        let mut entries = bucket.into_iter();
        while let Some(pair) = entries.next() {
            owned.push(pair);
        }
    }
    assert_eq!(owned, seen);
}
