use iterkit::producer::ExactProducer;
use iterkit::producer::Producer;
use iterkit::sequence::SequencedCounter;

#[test]
fn smoke() {
    let sq: String = SequencedCounter::new(vec![('a', 7), ('c', 6), ('a', 0), ('b', 4)])
        .collect()
        .into_iter()
        .collect();
    assert_eq!(&sq, "aaaaaaaccccccbbbb");
}

#[test]
fn exact_size() {
    let mut sq =
        SequencedCounter::new(vec![('a', 150), ('b', 23), ('c', 69), ('d', 0), ('e', 12)]);
    assert_eq!(sq.len(), 150 + 23 + 69 + 0 + 12);
    for _ in 0..12 {
        sq.next().unwrap();
    }
    assert_eq!(sq.len(), 150 + 23 + 69 + 0 + 12 - 12);
    for _ in 0..98 {
        sq.next().unwrap();
    }
    assert_eq!(sq.len(), 150 + 23 + 69 + 0 + 12 - 12 - 98);
    let collected: String = sq.collect().into_iter().collect();
    assert_eq!(collected.len(), 150 + 23 + 69 + 0 + 12 - 12 - 98);
}

#[test]
fn smoke_has_seventeen_items() {
    let items = SequencedCounter::new(vec![('a', 7), ('c', 6), ('a', 0), ('b', 4)]).collect();
    assert_eq!(items.len(), 17);
}

#[test]
fn pulls_follow_the_groups_in_order() {
    let mut sq = SequencedCounter::new(vec![("x", 2), ("y", 1), ("x", 1)]);
    assert_eq!(sq.next(), Some("x"));
    assert_eq!(sq.next(), Some("x"));
    assert_eq!(sq.next(), Some("y"));
    assert_eq!(sq.next(), Some("x"));
    assert_eq!(sq.next(), None);
}

#[test]
fn equal_values_in_separate_groups_are_not_merged() {
    let items = SequencedCounter::new(vec![(1u8, 1), (2u8, 2), (1u8, 3)]).collect();
    assert_eq!(items, vec![1, 2, 2, 1, 1, 1]);
}

#[test]
fn empty_list_is_exhausted_at_once() {
    let mut sq = SequencedCounter::new(Vec::<(char, usize)>::new());
    assert_eq!(sq.len(), 0);
    assert_eq!(sq.size_hint(), (0, Some(0)));
    assert_eq!(sq.next(), None);
    assert_eq!(sq.collect().len(), 0);
}

#[test]
fn all_zero_counts_behave_as_empty() {
    let mut sq = SequencedCounter::new(vec![('a', 0), ('b', 0), ('c', 0)]);
    assert_eq!(sq.len(), 0);
    assert_eq!(sq.next(), None);
    assert_eq!(sq.next(), None);
    assert_eq!(sq.collect(), Vec::<char>::new());
}

#[test]
fn zero_count_groups_leave_no_gap() {
    let with = SequencedCounter::new(vec![('a', 2), ('z', 0), ('b', 1), ('z', 0)]).collect();
    let without = SequencedCounter::new(vec![('a', 2), ('b', 1)]).collect();
    assert_eq!(with, without);
    assert_eq!(with, vec!['a', 'a', 'b']);
}

#[test]
fn single_group_is_a_plain_repeat() {
    let items = SequencedCounter::new(vec![(9u32, 1000)]).collect();
    assert_eq!(items.len(), 1000);
    assert!(items.iter().all(|x| *x == 9));
}

#[test]
fn total_yield_is_the_sum_of_counts() {
    let counts = vec![('p', 3), ('q', 0), ('r', 5), ('s', 1)];
    let sum: usize = counts.iter().map(|g| g.1).sum();
    let sq = SequencedCounter::new(counts);
    assert_eq!(sq.len(), sum);
    assert_eq!(sq.collect().len(), 9);
}

#[test]
fn len_goes_down_by_one_per_pull_and_ends_at_zero() {
    let mut sq = SequencedCounter::new(vec![('a', 3), ('b', 0), ('c', 2)]);
    let mut expected = 5;
    assert_eq!(sq.len(), expected);
    while let Some(_) = sq.next() {
        expected -= 1;
        assert_eq!(sq.len(), expected);
        assert_eq!(sq.size_hint(), (expected, Some(expected)));
    }
    assert_eq!(expected, 0);
    assert_eq!(sq.len(), 0);
}

#[test]
fn exhaustion_is_idempotent() {
    let mut sq = SequencedCounter::new(vec![('a', 1)]);
    assert_eq!(sq.next(), Some('a'));
    for _ in 0..10 {
        assert_eq!(sq.next(), None);
        assert_eq!(sq.len(), 0);
    }
}

#[test]
fn size_hint_is_exact() {
    let mut sq = SequencedCounter::new(vec![('a', 150), ('b', 23), ('c', 69), ('d', 0), ('e', 12)]);
    assert_eq!(sq.size_hint(), (254, Some(254)));
    for _ in 0..110 {
        sq.next().unwrap();
    }
    assert_eq!(sq.size_hint(), (144, Some(144)));
}

#[test]
fn values_that_are_only_clone_are_handed_out_as_clones() {
    let items = SequencedCounter::new(vec![(String::from("ab"), 2), (String::from("c"), 1)])
        .collect();
    assert_eq!(items, vec!["ab".to_string(), "ab".to_string(), "c".to_string()]);
}

#[test]
fn collect_after_some_pulls_gives_the_rest() {
    let mut sq = SequencedCounter::new(vec![('a', 2), ('b', 2)]);
    assert_eq!(sq.next(), Some('a'));
    assert_eq!(sq.collect(), vec!['a', 'b', 'b']);
}
