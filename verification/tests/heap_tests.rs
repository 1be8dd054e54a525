use radixheap::RadixHeap;
use rand::Rng;

#[test]
fn test_heap() {
    let mut heap = RadixHeap::default();
    assert!(heap.empty());
    assert_eq!(heap.length, 0);
    heap.push(7, 'a').unwrap();
    assert_eq!(heap.length, 1);
    heap.push(2, 'b').unwrap();
    heap.push(9, 'c').unwrap();

    assert_eq!(heap.peek(), Some((2, 'b')));
    assert_eq!(heap.pop(), Some((2, 'b')));
    assert_eq!(heap.toplast, 2);
    assert_eq!(heap.pop(), Some((7, 'a')));
    assert_eq!(heap.toplast, 7);
    assert_eq!(heap.pop(), Some((9, 'c')));
    assert_eq!(heap.toplast, 9);
    assert!(heap.empty());
}

#[test]
fn test_pop() {
    let mut heap = RadixHeap::new(None);
    let mut rng = rand::thread_rng();
    let mut keys: Vec<u32> = Vec::with_capacity(100);

    for _ in 0..100 {
        let number: u32 = rng.gen();
        keys.push(number);
    }

    keys.sort_by(|a, b| b.cmp(a));

    assert_eq!(heap.capacity(), 0usize);

    for _ in 0..100 {
        let number: u32 = keys.pop().unwrap();
        heap.push(number, "").unwrap_or_else(|s| {
            assert!(false, "failed to push key {}: {}", number, s);
        });
        assert_eq!(heap.peek(), Some((number, "")));
        heap.pop();
    }

    assert!(heap.empty());
    heap.clear();
    assert!(heap.empty());
}

#[test]
fn test_capacity() {
    let heap: RadixHeap<&str> = RadixHeap::new(Some(12usize));
    assert_eq!(heap.capacity(), 396 as usize);
    assert_eq!(heap.length(), 0usize);
    assert!(heap.empty());
}

#[test]
#[allow(unused_must_use)]
fn test_tuples() {
    let mut heap: RadixHeap<&str> = RadixHeap::new(Some(48usize));

    heap.push(289371, "library");
    heap.push(259, "radix");
    heap.push(98612, "heap");
    heap.push(34, "rust");

    assert_eq!(
        heap.tuples().into_iter().map(|(k, _)| k).collect::<Vec<u32>>(),
        vec![34, 259, 98612, 289371]
    );
    assert_eq!(heap.sorted_tuples(), heap.tuples());
    assert_eq!(heap.values(), vec!["rust", "radix", "heap", "library"]);
    assert_eq!(heap.length(), 4usize);
    assert_eq!(heap.capacity(), 1584usize);
    assert!(!heap.empty());

    heap.clear();
    assert!(heap.empty());
    assert_eq!(heap.length(), 0usize);

    heap.push(15, "seven");
    heap.push(9, "four");
    heap.push(13, "thirteen");
    heap.push(12, "twelve");
    heap.push(10, "ten");
    heap.push(11, "eleven");
    heap.push(8, "eight");
    heap.push(17, "seventeen");
    heap.push(3, "three");

    assert_ne!(heap.tuples(), heap.sorted_tuples());
    assert_eq!(
        heap.tuples().into_iter().map(|(k, _)| k).collect::<Vec<u32>>(),
        vec![3u32, 15, 9, 13, 12, 10, 11, 8, 17]
    );
    assert_eq!(
        heap.sorted_tuples().into_iter().map(|(k, _)| k).collect::<Vec<u32>>(),
        vec![3u32, 8, 9, 10, 11, 12, 13, 15, 17]
    );
}
