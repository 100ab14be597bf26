use randline::sampling::{
    reservoir_sample_with, try_reservoir_sample, try_reservoir_sample_with, SampleError,
};
use randline::weights::{ThreadWeights, WeightSource};

/// Hands out a fixed list of weights, one after the other.
struct Fixed {
    weights: Vec<u64>,
    drawn: usize,
}

impl Fixed {
    fn new(weights: Vec<u64>) -> Fixed {
        Fixed { weights, drawn: 0 }
    }
}

impl WeightSource for Fixed {
    fn next_weight(&mut self) -> u64 {
        let weight = self.weights[self.drawn];
        self.drawn += 1;
        weight
    }
}

fn sorted<T: Ord>(mut items: Vec<T>) -> Vec<T> {
    items.sort();
    items
}

// The items with the three smallest weights are kept.
#[test]
fn keeps_the_items_of_the_smallest_weights() {
    let mut weights = Fixed::new(vec![5, 3, 9, 1, 9, 2]);
    let items = vec!["a", "b", "c", "d", "e", "f"];
    let sample = reservoir_sample_with(items.into_iter(), 3, &mut weights);

    assert_eq!(sorted(sample), vec!["b", "d", "f"]);
    assert_eq!(weights.drawn, 6);
}

// With the same weights the same sample comes out.
#[test]
fn same_weights_give_the_same_sample() {
    let drawn = vec![40, 11, 73, 2, 98, 65, 30, 30, 7, 51];
    let one = reservoir_sample_with(0..10, 4, &mut Fixed::new(drawn.clone()));
    let two = reservoir_sample_with(0..10, 4, &mut Fixed::new(drawn));

    assert_eq!(sorted(one.clone()), sorted(two));
    // weights 2, 7, 11 and one of the two 30s: the later one
    assert_eq!(sorted(one), vec![1, 3, 7, 8]);
}

// An arrival whose weight equals the greatest weight held gets in, and of
// the held items with that weight the earliest leaves.
#[test]
fn equal_weights_favour_the_later_arrival() {
    let sample = reservoir_sample_with(
        vec!["a", "b", "c"].into_iter(),
        2,
        &mut Fixed::new(vec![7, 7, 7]),
    );
    assert_eq!(sorted(sample), vec!["b", "c"]);

    let sample = reservoir_sample_with(
        vec!["a", "b", "c", "d"].into_iter(),
        2,
        &mut Fixed::new(vec![7, 7, 7, 7]),
    );
    assert_eq!(sorted(sample), vec!["c", "d"]);
}

// An arrival whose weight is greater than every weight held is dropped.
#[test]
fn greater_weight_is_dropped() {
    let sample = reservoir_sample_with(
        vec!["a", "b", "c"].into_iter(),
        2,
        &mut Fixed::new(vec![7, 7, 8]),
    );
    assert_eq!(sorted(sample), vec!["a", "b"]);
}

// Ascending weights keep the head of the stream, descending ones its tail.
#[test]
fn ascending_and_descending_weights() {
    let up: Vec<u64> = (0..100).collect();
    let down: Vec<u64> = (0..100).rev().collect();

    let head = reservoir_sample_with(0..100u32, 10, &mut Fixed::new(up));
    assert_eq!(sorted(head), (0..10).collect::<Vec<u32>>());

    let tail = reservoir_sample_with(0..100u32, 10, &mut Fixed::new(down));
    assert_eq!(sorted(tail), (90..100).collect::<Vec<u32>>());
}

// The extreme weights are weights like any other.
#[test]
fn extreme_weights() {
    let sample = reservoir_sample_with(
        vec!["a", "b", "c", "d"].into_iter(),
        2,
        &mut Fixed::new(vec![u64::MAX, 0, u64::MAX, 0]),
    );
    assert_eq!(sorted(sample), vec!["b", "d"]);
}

// With k = 0 no weight is drawn and nothing is read.
#[test]
fn no_places_draws_no_weight() {
    let mut weights = Fixed::new(vec![]);
    let sample = reservoir_sample_with(vec![1, 2, 3].into_iter(), 0, &mut weights);

    assert_eq!(sample.len(), 0);
    assert_eq!(weights.drawn, 0);
}

// The generator of the thread is a source of weights like any other, and its
// weights are not all the same.
#[test]
fn thread_weights_vary() {
    let mut source = ThreadWeights::new();
    let first = source.next_weight();
    let mut varies = false;
    for _ in 0..64 {
        if source.next_weight() != first {
            varies = true;
        }
    }
    assert!(varies);
}

// A stream that does not fail is sampled as usual.
#[test]
fn stream_without_failure_is_sampled() {
    let items: Vec<Result<u32, String>> = vec![Ok(1), Ok(2), Ok(3)];
    let outcome = try_reservoir_sample(items.into_iter(), 5);

    match outcome {
        Ok(sample) => assert_eq!(sorted(sample), vec![1, 2, 3]),
        Err(_) => panic!("no item failed"),
    }
}

// The first failure ends the sampling and is handed on; what follows it is
// not read.
#[test]
fn first_failure_is_handed_on() {
    let mut read = 0usize;
    let items: Vec<Result<u32, String>> = vec![
        Ok(1),
        Ok(2),
        Err(String::from("first")),
        Ok(4),
        Err(String::from("second")),
    ];
    let outcome = try_reservoir_sample_with(
        items.into_iter().inspect(|_| read += 1),
        2,
        &mut Fixed::new(vec![1, 2, 3, 4, 5]),
    );

    match outcome {
        Err(SampleError::SourceReadFailure(failure)) => assert_eq!(failure, "first"),
        Ok(_) => panic!("a failure was passed over"),
    }
    assert_eq!(read, 3);
}

// A failure is handed on also when the reservoir is not yet full, and when
// it is the very first item.
#[test]
fn failure_during_the_fill_is_handed_on() {
    let items: Vec<Result<u32, u8>> = vec![Err(9)];
    assert!(matches!(
        try_reservoir_sample(items.into_iter(), 3),
        Err(SampleError::SourceReadFailure(9))
    ));

    let items: Vec<Result<u32, u8>> = vec![Ok(1), Err(8), Ok(3)];
    assert!(matches!(
        try_reservoir_sample(items.into_iter(), 10),
        Err(SampleError::SourceReadFailure(8))
    ));
}

// With k = 0 the stream is not read, so its failures are not seen.
#[test]
fn no_places_sees_no_failure() {
    let items: Vec<Result<u32, u8>> = vec![Err(9)];
    match try_reservoir_sample(items.into_iter(), 0) {
        Ok(sample) => assert_eq!(sample.len(), 0),
        Err(_) => panic!("nothing was to be read"),
    }
}

// With fixed weights the fallible sampler keeps what the plain one keeps.
#[test]
fn fallible_sampler_keeps_the_smallest_weights() {
    let items: Vec<Result<&str, ()>> =
        vec![Ok("a"), Ok("b"), Ok("c"), Ok("d"), Ok("e"), Ok("f")];
    let outcome =
        try_reservoir_sample_with(items.into_iter(), 3, &mut Fixed::new(vec![5, 3, 9, 1, 9, 2]));

    match outcome {
        Ok(sample) => assert_eq!(sorted(sample), vec!["b", "d", "f"]),
        Err(_) => panic!("no item failed"),
    }
}

// Where no two weights are equal, the order of arrival does not matter: the
// items that carry the smallest weights are kept.
#[test]
fn order_of_arrival_does_not_matter() {
    // (item, weight), in three orders
    let first = vec![("a", 50u64), ("b", 10), ("c", 40), ("d", 20), ("e", 30)];
    let second = vec![("e", 30u64), ("d", 20), ("c", 40), ("b", 10), ("a", 50)];
    let third = vec![("c", 40u64), ("a", 50), ("e", 30), ("b", 10), ("d", 20)];

    for stream in [first, second, third] {
        let drawn: Vec<u64> = stream.iter().map(|(_, weight)| *weight).collect();
        let items = stream.into_iter().map(|(item, _)| item);
        let sample = reservoir_sample_with(items, 2, &mut Fixed::new(drawn));
        assert_eq!(sorted(sample), vec!["b", "d"]);
    }
}

// Only the order of the weights matters, not their size.
#[test]
fn weights_count_by_their_order_only() {
    let small = reservoir_sample_with(0..6, 2, &mut Fixed::new(vec![3, 0, 5, 1, 4, 2]));
    let large = reservoir_sample_with(
        0..6,
        2,
        &mut Fixed::new(vec![900, 7, u64::MAX, 8, 1 << 40, 100]),
    );

    assert_eq!(sorted(small), vec![1, 3]);
    assert_eq!(sorted(large), vec![1, 3]);
}
