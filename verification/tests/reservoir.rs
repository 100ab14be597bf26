use randline::heap::MaxHeap;
use randline::reservoir::{Phase, Reservoir};
use randline::weighted::WeightedItem;

fn sorted<T: Ord>(mut items: Vec<T>) -> Vec<T> {
    items.sort();
    items
}

fn entry(item: &'static str, weight: u64, arrival: u64) -> WeightedItem<&'static str> {
    WeightedItem { item, weight, arrival }
}

// A greater weight ranks above a smaller one; of two equal weights the
// earlier arrival ranks above the later.
#[test]
fn ranking_goes_by_weight_then_by_arrival() {
    assert!(entry("a", 5, 9).ranks_above(&entry("b", 4, 0)));
    assert!(!entry("b", 4, 0).ranks_above(&entry("a", 5, 9)));
    assert!(entry("a", 5, 1).ranks_above(&entry("b", 5, 2)));
    assert!(!entry("b", 5, 2).ranks_above(&entry("a", 5, 1)));
    assert!(!entry("a", 5, 1).ranks_above(&entry("a", 5, 1)));
    assert!(entry("a", u64::MAX, u64::MAX).ranks_above(&entry("b", 0, 0)));
}

// A heap gives its items back from the highest rank down.
#[test]
fn heap_pops_from_the_top_down() {
    let mut heap = MaxHeap::new();
    let weights = [31u64, 4, 15, 92, 65, 35, 89, 79, 32, 38, 46, 26, 43];
    for (arrival, weight) in weights.iter().enumerate() {
        heap.push(WeightedItem { item: arrival, weight: *weight, arrival: arrival as u64 });
    }
    assert_eq!(heap.len(), 13);
    assert_eq!(heap.peek().map(|top| top.weight), Some(92));

    let mut popped = Vec::new();
    while let Some(top) = heap.pop() {
        assert_eq!(weights[top.item], top.weight);
        popped.push(top.weight);
    }
    assert_eq!(popped, vec![92, 89, 79, 65, 46, 43, 38, 35, 32, 31, 26, 15, 4]);
    assert_eq!(heap.len(), 0);
}

// Among equal weights the heap gives up the earliest arrival first.
#[test]
fn heap_breaks_ties_by_arrival() {
    let mut heap = MaxHeap::new();
    for arrival in [3u64, 0, 4, 1, 2] {
        heap.push(WeightedItem { item: (), weight: 8, arrival });
    }
    let mut order = Vec::new();
    while let Some(top) = heap.pop() {
        order.push(top.arrival);
    }
    assert_eq!(order, vec![0, 1, 2, 3, 4]);
}

// An empty heap has no top.
#[test]
fn empty_heap_has_no_top() {
    let mut heap: MaxHeap<u8> = MaxHeap::new();
    assert_eq!(heap.len(), 0);
    assert!(heap.peek().is_none());
    assert!(heap.pop().is_none());
    assert_eq!(heap.into_vec().len(), 0);
}

// What goes into a heap comes out of it, each item once.
#[test]
fn heap_hands_out_what_it_holds() {
    let mut heap = MaxHeap::new();
    for (arrival, weight) in [5u64, 1, 5, 3].iter().enumerate() {
        heap.push(WeightedItem { item: arrival, weight: *weight, arrival: arrival as u64 });
    }
    let items: Vec<usize> = heap.into_vec().into_iter().map(|entry| entry.item).collect();
    assert_eq!(sorted(items), vec![0, 1, 2, 3]);
}

// The reservoir fills up, then replaces the top or drops the arrival.
#[test]
fn reservoir_fills_then_replaces() {
    let mut reservoir = Reservoir::new(3);
    assert_eq!(reservoir.capacity(), 3);
    assert_eq!(reservoir.len(), 0);
    assert_eq!(reservoir.max_weight(), None);

    reservoir.offer("a", 5);
    reservoir.offer("b", 3);
    assert_eq!(reservoir.len(), 2);
    assert_eq!(reservoir.max_weight(), Some(5));

    reservoir.offer("c", 9);
    assert_eq!(reservoir.len(), 3);
    assert_eq!(reservoir.max_weight(), Some(9));

    // 1 <= 9: "d" replaces "c"
    reservoir.offer("d", 1);
    assert_eq!(reservoir.len(), 3);
    assert_eq!(reservoir.max_weight(), Some(5));

    // 9 > 5: "e" is dropped
    reservoir.offer("e", 9);
    assert_eq!(reservoir.max_weight(), Some(5));

    // 2 <= 5: "f" replaces "a"
    reservoir.offer("f", 2);
    assert_eq!(reservoir.max_weight(), Some(3));
    assert_eq!(reservoir.arrivals(), 6);
    assert_eq!(reservoir.len(), 3);

    assert_eq!(sorted(reservoir.into_sample()), vec!["b", "d", "f"]);
}

// A reservoir that was never full holds every arrival.
#[test]
fn reservoir_with_free_places_holds_everything() {
    let mut reservoir = Reservoir::new(4);
    reservoir.offer(10, 1);
    reservoir.offer(20, u64::MAX);
    reservoir.offer(10, 0);

    assert_eq!(reservoir.len(), 3);
    assert_eq!(sorted(reservoir.into_sample()), vec![10, 10, 20]);
}

// A reservoir without places drops every arrival.
#[test]
fn reservoir_without_places_holds_nothing() {
    let mut reservoir = Reservoir::new(0);
    reservoir.offer("a", 0);
    reservoir.offer("b", 1);

    assert_eq!(reservoir.capacity(), 0);
    assert_eq!(reservoir.len(), 0);
    assert_eq!(reservoir.arrivals(), 2);
    assert_eq!(reservoir.max_weight(), None);
    assert_eq!(reservoir.phase(), Phase::Empty);
    assert_eq!(reservoir.into_sample().len(), 0);
}

// A reservoir of one place holds the arrival of the smallest weight; of
// several such the latest.
#[test]
fn reservoir_of_one_place_holds_the_smallest_weight() {
    let mut reservoir = Reservoir::new(1);
    for (item, weight) in [("a", 4u64), ("b", 2), ("c", 6), ("d", 2), ("e", 3)] {
        reservoir.offer(item, weight);
    }
    assert_eq!(reservoir.max_weight(), Some(2));
    assert_eq!(reservoir.into_sample(), vec!["d"]);
}

// The phases follow each other and never go back.
#[test]
fn phases_follow_each_other() {
    let mut reservoir = Reservoir::new(2);
    assert_eq!(reservoir.phase(), Phase::Empty);
    reservoir.offer('a', 1);
    assert_eq!(reservoir.phase(), Phase::Filling);
    reservoir.offer('b', 2);
    assert_eq!(reservoir.phase(), Phase::Full);
    reservoir.offer('c', 3);
    assert_eq!(reservoir.phase(), Phase::Replacing);
    reservoir.offer('d', 0);
    assert_eq!(reservoir.phase(), Phase::Replacing);
}

// A reservoir of one place is full after its first arrival.
#[test]
fn single_place_is_full_at_once() {
    let mut reservoir = Reservoir::new(1);
    assert_eq!(reservoir.phase(), Phase::Empty);
    reservoir.offer('a', 1);
    assert_eq!(reservoir.phase(), Phase::Full);
    reservoir.offer('b', 1);
    assert_eq!(reservoir.phase(), Phase::Replacing);
}

// Whatever the weights, the reservoir holds the arrivals of the smallest
// weights: checked against a sort for a stream of pseudo-random weights.
#[test]
fn reservoir_agrees_with_sorting_by_weight() {
    let mut state = 0x2545_f491_4f6c_dd1du64;
    let mut weights = Vec::new();
    for _ in 0..500 {
        state ^= state << 13;
        state ^= state >> 7;
        state ^= state << 17;
        weights.push(state % 1000);
    }
    for k in [1usize, 2, 7, 64, 499, 500, 501] {
        let mut reservoir = Reservoir::new(k);
        for (arrival, weight) in weights.iter().enumerate() {
            reservoir.offer(arrival, *weight);
        }
        // rank: weight ascending, and among equal weights the later arrival first
        let mut ranked: Vec<(u64, std::cmp::Reverse<usize>)> = weights
            .iter()
            .enumerate()
            .map(|(arrival, weight)| (*weight, std::cmp::Reverse(arrival)))
            .collect();
        ranked.sort();
        let expected: Vec<usize> =
            sorted(ranked.iter().take(k).map(|(_, arrival)| arrival.0).collect());

        assert_eq!(sorted(reservoir.into_sample()), expected);
    }
}
