use leptos::prelude::{Get, Memo, RwSignal, Signal};
use reactive_sort::{use_sorted, use_sorted_by, use_sorted_by_key};
use std::cmp::Ordering;
use std::sync::atomic::AtomicUsize;
use std::sync::Arc;

#[derive(Clone, Debug, PartialEq)]
struct Person {
    name: String,
    age: u16,
}

fn person(name: &str, age: u16) -> Person {
    Person { name: name.to_string(), age }
}

fn people() -> Vec<Person> {
    vec![person("John", 40), person("Jane", 20), person("Joe", 30), person("Jenny", 22)]
}

fn by_age() -> Vec<Person> {
    vec![person("Jane", 20), person("Jenny", 22), person("Joe", 30), person("John", 40)]
}

fn write<I: Send + Sync + 'static>(source: RwSignal<I>, value: I) {
    leptos::reactive::traits::Set::set(&source, value);
}

fn view<T>(source: Signal<Vec<T>>) -> Signal<Vec<T>>
where
    T: Ord + Clone + Send + Sync + 'static,
{
    let sorted = Memo::new(move |_| {
        let mut snapshot = source.get();
        use_sorted(&mut snapshot);
        snapshot
    });
    Signal::from(sorted)
}

fn view_by<T, F>(source: Signal<Vec<T>>, cmp_fn: F) -> Signal<Vec<T>>
where
    T: Clone + PartialEq + Send + Sync + 'static,
    F: Fn(&T, &T) -> Ordering + Send + Sync + 'static,
{
    let sorted = Memo::new(move |_| {
        let mut snapshot = source.get();
        use_sorted_by(&mut snapshot, &cmp_fn);
        snapshot
    });
    Signal::from(sorted)
}

fn view_by_key<T, K, F>(source: Signal<Vec<T>>, key_fn: F) -> Signal<Vec<T>>
where
    T: Clone + PartialEq + Send + Sync + 'static,
    K: Ord,
    F: Fn(&T) -> K + Send + Sync + 'static,
{
    let sorted = Memo::new(move |_| {
        let mut snapshot = source.get();
        use_sorted_by_key(&mut snapshot, &key_fn);
        snapshot
    });
    Signal::from(sorted)
}

#[test]
fn derived_holds_the_source_in_natural_order() {
    let sorted = view(Signal::stored(vec![10, 3, 5, 7, 2, 1, 8, 6, 9, 4]));
    assert_eq!(sorted.get(), vec![1, 2, 3, 4, 5, 6, 7, 8, 9, 10]);
}

#[test]
fn derived_holds_the_source_by_key() {
    let sorted = view_by_key(Signal::stored(people()), |p: &Person| p.age);
    assert_eq!(sorted.get(), by_age());
}

#[test]
fn derived_holds_the_source_by_comparator() {
    let sorted = view_by(Signal::stored(people()), |a: &Person, b: &Person| a.age.cmp(&b.age));
    assert_eq!(sorted.get(), by_age());
}

#[test]
fn derived_by_key_and_by_comparing_keys_agree() {
    let source = RwSignal::new(people());
    let by_key = view_by_key(Signal::<Vec<Person>>::from(source), |p: &Person| p.age);
    let by_comparator = view_by(
        Signal::<Vec<Person>>::from(source),
        |a: &Person, b: &Person| a.age.cmp(&b.age),
    );
    assert_eq!(by_key.get(), by_comparator.get());
    write(source, vec![person("Ann", 30), person("Bob", 25), person("Cy", 30), person("Di", 25)]);
    let expected = vec![person("Bob", 25), person("Di", 25), person("Ann", 30), person("Cy", 30)];
    assert_eq!(by_key.get(), expected);
    assert_eq!(by_comparator.get(), expected);
}

#[test]
fn derived_follows_the_source() {
    let source = RwSignal::new(vec![3, 1, 2]);
    let sorted = view(Signal::<Vec<i32>>::from(source));
    assert_eq!(sorted.get(), vec![1, 2, 3]);
    write(source, vec![9, 0, 5]);
    assert_eq!(sorted.get(), vec![0, 5, 9]);
}

#[test]
fn derived_is_the_sort_of_each_value_in_turn() {
    let values = vec![vec![4, 4, 1], vec![], vec![2], vec![-1, -5, 7, 0], vec![1, 2, 3]];
    let expected = vec![vec![1, 4, 4], vec![], vec![2], vec![-5, -1, 0, 7], vec![1, 2, 3]];
    let source = RwSignal::new(values[0].clone());
    let sorted = view(Signal::<Vec<i32>>::from(source));
    assert_eq!(sorted.get(), expected[0]);
    for i in 1..values.len() {
        write(source, values[i].clone());
        assert_eq!(sorted.get(), expected[i]);
    }
}

#[test]
fn derived_leaves_the_source_as_it_was() {
    let source = RwSignal::new(vec![3, 1, 2]);
    let sorted = view(Signal::<Vec<i32>>::from(source));
    assert_eq!(sorted.get(), vec![1, 2, 3]);
    assert_eq!(source.get(), vec![3, 1, 2]);
    write(source, vec![2, 2, 1]);
    assert_eq!(sorted.get(), vec![1, 2, 2]);
    assert_eq!(source.get(), vec![2, 2, 1]);
}

#[test]
fn derived_reads_the_same_twice_without_a_change() {
    let source = RwSignal::new(vec![(1, 'x'), (0, 'y'), (1, 'z'), (0, 'w')]);
    let sorted = view_by_key(Signal::<Vec<(i32, char)>>::from(source), |p: &(i32, char)| p.0);
    let first = sorted.get();
    let second = sorted.get();
    assert_eq!(first, second);
    assert_eq!(first, vec![(0, 'y'), (0, 'w'), (1, 'x'), (1, 'z')]);
}

#[test]
fn derived_is_not_computed_again_without_a_change() {
    let calls = Arc::new(AtomicUsize::new(0));
    let counted = calls.clone();
    let source = RwSignal::new(vec![3, 1, 2]);
    let sorted = view_by(Signal::<Vec<i32>>::from(source), move |a: &i32, b: &i32| {
        counted.fetch_add(1, std::sync::atomic::Ordering::SeqCst);
        a.cmp(b)
    });
    assert_eq!(calls.load(std::sync::atomic::Ordering::SeqCst), 0);
    assert_eq!(sorted.get(), vec![1, 2, 3]);
    let after_first_read = calls.load(std::sync::atomic::Ordering::SeqCst);
    assert!(after_first_read > 0);
    assert_eq!(sorted.get(), vec![1, 2, 3]);
    assert_eq!(calls.load(std::sync::atomic::Ordering::SeqCst), after_first_read);
    write(source, vec![9, 0, 5]);
    assert_eq!(sorted.get(), vec![0, 5, 9]);
    assert!(calls.load(std::sync::atomic::Ordering::SeqCst) > after_first_read);
}

#[test]
fn derived_keeps_ties_in_source_order() {
    let source = vec![(2, 'a'), (1, 'b'), (2, 'c'), (1, 'd')];
    let sorted =
        view_by(Signal::stored(source), |a: &(i32, char), b: &(i32, char)| a.0.cmp(&b.0));
    assert_eq!(sorted.get(), vec![(1, 'b'), (1, 'd'), (2, 'a'), (2, 'c')]);
}

#[test]
fn derived_of_an_empty_source_is_empty() {
    let sorted = view(Signal::stored(Vec::<u64>::new()));
    assert_eq!(sorted.get(), Vec::<u64>::new());
}

#[test]
fn derived_can_be_the_source_of_another() {
    let source = RwSignal::new(vec![3, 1, 2]);
    let ascending = view(Signal::<Vec<i32>>::from(source));
    let descending = view_by(ascending, |a: &i32, b: &i32| b.cmp(a));
    assert_eq!(descending.get(), vec![3, 2, 1]);
    write(source, vec![9, 0, 5]);
    assert_eq!(descending.get(), vec![9, 5, 0]);
}
