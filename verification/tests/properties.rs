use linked_list::LinkedList;
use std::cmp::Ordering;
use std::collections::hash_map::DefaultHasher;
use std::collections::VecDeque;
use std::hash::{Hash, Hasher};

fn values<T: Clone>(list: &LinkedList<T>) -> Vec<T> {
    let mut out = Vec::new();
    let mut it = list.iter();
    while let Some(x) = it.next() {
        out.push(x.clone());
    }
    out
}

fn hash_of<T: Hash>(value: &T) -> u64 {
    let mut hasher = DefaultHasher::new();
    value.hash(&mut hasher);
    hasher.finish()
}

#[test]
fn end_operations_match_a_deque() {
    let mut list = LinkedList::new();
    let mut model: VecDeque<u32> = VecDeque::new();
    let mut state: u32 = 12345;
    let mut pushes = 0usize;
    let mut pops = 0usize;
    for step in 0..2000u32 {
        state = state.wrapping_mul(1664525).wrapping_add(1013904223);
        match (state >> 16) % 4 {
            0 => {
                list.push_front(step);
                model.push_front(step);
                pushes += 1;
            }
            1 => {
                list.push_back(step);
                model.push_back(step);
                pushes += 1;
            }
            2 => {
                let got = list.pop_front();
                assert_eq!(got, model.pop_front());
                if got.is_some() {
                    pops += 1;
                }
            }
            _ => {
                let got = list.pop_back();
                assert_eq!(got, model.pop_back());
                if got.is_some() {
                    pops += 1;
                }
            }
        }
        assert_eq!(list.len(), pushes - pops);
        assert_eq!(list.len(), model.len());
        assert_eq!(list.front(), model.front());
        assert_eq!(list.back(), model.back());
    }
    assert_eq!(values(&list), model.into_iter().collect::<Vec<u32>>());
}

#[test]
fn split_off_then_append_restores_the_list() {
    let whole: Vec<u32> = (0..9).collect();
    for at in 0..=whole.len() {
        let mut list = LinkedList::from(whole.clone());
        let mut tail = list.split_off(at);
        assert_eq!(values(&list), &whole[..at]);
        assert_eq!(values(&tail), &whole[at..]);
        list.append(&mut tail);
        assert!(tail.is_empty());
        assert_eq!(values(&list), whole);
    }
}

#[test]
fn append_moves_the_shorter_side_either_way() {
    let mut long = LinkedList::from([1, 2, 3, 4, 5]);
    let mut short = LinkedList::from([6]);
    long.append(&mut short);
    assert_eq!(values(&long), [1, 2, 3, 4, 5, 6]);
    assert!(short.is_empty());

    let mut short = LinkedList::from([0]);
    short.append(&mut long);
    assert_eq!(values(&short), [0, 1, 2, 3, 4, 5, 6]);
    assert!(long.is_empty());
    long.push_back(8);
    assert_eq!(values(&long), [8]);
}

#[test]
fn contains_finds_exactly_the_elements() {
    let mut list = LinkedList::from([5, 7, 9]);
    for x in 0..12 {
        assert_eq!(list.contains(&x), x == 5 || x == 7 || x == 9);
    }
    let empty: LinkedList<i32> = LinkedList::new();
    for x in 0..12 {
        assert!(!empty.contains(&x));
    }
    list.clear();
    for x in 0..12 {
        assert!(!list.contains(&x));
    }
}

#[test]
fn drain_with_always_true_takes_everything_in_order() {
    let mut list = LinkedList::from([3, 1, 4, 1, 5, 9, 2, 6]);
    let taken = list.drain_filter(|_| true).collect();
    assert_eq!(taken, [3, 1, 4, 1, 5, 9, 2, 6]);
    assert!(list.is_empty());
    assert_eq!(list.front(), None);
    assert_eq!(list.back(), None);
}

#[test]
fn drain_with_always_false_changes_nothing() {
    let mut list = LinkedList::from([3, 1, 4, 1, 5, 9, 2, 6]);
    let taken = list.drain_filter(|_| false).collect();
    assert_eq!(taken, []);
    assert_eq!(values(&list), [3, 1, 4, 1, 5, 9, 2, 6]);
}

#[test]
fn drain_by_parity_partitions_one_to_ten() {
    let mut list = LinkedList::from((1..=10).collect::<Vec<i32>>());
    let removed = list.drain_filter(|x| *x % 2 == 0).collect();
    assert_eq!(removed, [2, 4, 6, 8, 10]);
    assert_eq!(values(&list), [1, 3, 5, 7, 9]);
    assert_eq!(list.front(), Some(&1));
    assert_eq!(list.back(), Some(&9));
}

#[test]
fn drain_finish_completes_an_abandoned_pass() {
    let mut list = LinkedList::from((1..=10).collect::<Vec<i32>>());
    let mut pass = list.drain_filter(|x| *x % 2 == 0);
    assert_eq!(pass.next(), Some(2));
    assert_eq!(pass.size_hint(), (0, Some(8)));
    pass.finish();
    assert_eq!(values(&list), [1, 3, 5, 7, 9]);
}

#[test]
fn drain_keeps_what_the_predicate_wrote() {
    let mut list = LinkedList::from([1, 2, 3, 4]);
    let removed = list
        .drain_filter(|x| {
            *x *= 10;
            *x >= 30
        })
        .collect();
    assert_eq!(removed, [30, 40]);
    assert_eq!(values(&list), [10, 20]);
}

#[test]
fn drain_removes_last_and_only_elements() {
    let mut list = LinkedList::from([7]);
    assert_eq!(list.drain_filter(|x| *x == 7).collect(), [7]);
    assert!(list.is_empty());
    list.push_back(1);
    list.push_back(2);
    assert_eq!(list.drain_filter(|x| *x == 2).collect(), [2]);
    assert_eq!(list.back(), Some(&1));
    list.push_back(3);
    assert_eq!(values(&list), [1, 3]);
}

#[test]
fn cursor_insert_before_the_front_element() {
    let mut list = LinkedList::from([1, 2, 3]);
    let mut cursor = list.cursor_front_mut();
    cursor.insert_before(0);
    assert_eq!(cursor.current(), Some(&mut 1));
    assert_eq!(cursor.index(), Some(1));
    assert_eq!(values(&list), [0, 1, 2, 3]);
}

#[test]
fn cursor_insert_at_the_ghost_position() {
    let mut list = LinkedList::from([1, 2, 3]);
    let mut cursor = list.cursor_front_mut();
    cursor.move_prev();
    assert_eq!(cursor.index(), None);
    cursor.insert_before(0);
    assert_eq!(cursor.current(), None);
    assert_eq!(cursor.index(), None);
    cursor.insert_after(9);
    assert_eq!(cursor.current(), None);
    assert_eq!(cursor.peek_next(), Some(&mut 9));
    assert_eq!(cursor.peek_prev(), Some(&mut 0));
    assert_eq!(values(&list), [9, 1, 2, 3, 0]);
}

#[test]
fn cursor_splice_after_the_second_element() {
    let mut a = LinkedList::from([1, 2, 3]);
    let b = LinkedList::from([9, 9]);
    let mut cursor = a.cursor_front_mut();
    cursor.move_next();
    assert_eq!(cursor.current(), Some(&mut 2));
    cursor.splice_after(b);
    assert_eq!(cursor.current(), Some(&mut 2));
    assert_eq!(cursor.index(), Some(1));
    assert_eq!(values(&a), [1, 2, 9, 9, 3]);
}

#[test]
fn cursor_splice_before_shifts_the_index() {
    let mut a = LinkedList::from([1, 2, 3]);
    let mut cursor = a.cursor_back_mut();
    cursor.splice_before(LinkedList::from([7, 8]));
    assert_eq!(cursor.current(), Some(&mut 3));
    assert_eq!(cursor.index(), Some(4));
    cursor.splice_before(LinkedList::new());
    assert_eq!(cursor.index(), Some(4));
    assert_eq!(values(&a), [1, 2, 7, 8, 3]);
}

#[test]
fn cursor_splice_at_the_ghost_position() {
    let mut a = LinkedList::from([1, 2]);
    let mut cursor = a.cursor_front_mut();
    cursor.move_prev();
    cursor.splice_after(LinkedList::from([5, 6]));
    cursor.splice_before(LinkedList::from([8, 9]));
    assert_eq!(cursor.index(), None);
    assert_eq!(values(&a), [5, 6, 1, 2, 8, 9]);

    let mut empty: LinkedList<i32> = LinkedList::new();
    let mut cursor = empty.cursor_front_mut();
    cursor.splice_after(LinkedList::from([1, 2]));
    assert_eq!(cursor.index(), None);
    assert_eq!(values(&empty), [1, 2]);
    let mut empty: LinkedList<i32> = LinkedList::new();
    let mut cursor = empty.cursor_back_mut();
    cursor.splice_before(LinkedList::from([3, 4]));
    assert_eq!(values(&empty), [3, 4]);
}

#[test]
fn cursor_split_on_an_element() {
    let mut a = LinkedList::from([1, 2, 3, 4, 5]);
    let mut cursor = a.cursor_front_mut();
    cursor.move_next();
    cursor.move_next();
    let tail = cursor.split_after();
    assert_eq!(cursor.current(), Some(&mut 3));
    assert_eq!(cursor.index(), Some(2));
    let head = cursor.split_before();
    assert_eq!(cursor.current(), Some(&mut 3));
    assert_eq!(cursor.index(), Some(0));
    assert_eq!(values(&tail), [4, 5]);
    assert_eq!(values(&head), [1, 2]);
    assert_eq!(values(&a), [3]);

    let mut b = LinkedList::from([1, 2]);
    let mut cursor = b.cursor_back_mut();
    assert!(cursor.split_after().is_empty());
    let mut cursor = b.cursor_front_mut();
    assert!(cursor.split_before().is_empty());
    assert_eq!(values(&b), [1, 2]);
}

#[test]
fn cursor_split_at_the_ghost_position() {
    let mut a = LinkedList::from([1, 2, 3]);
    let mut cursor = a.cursor_front_mut();
    cursor.move_prev();
    let all = cursor.split_after();
    assert_eq!(cursor.index(), None);
    assert_eq!(values(&all), [1, 2, 3]);
    assert!(a.is_empty());
    a.push_back(4);
    assert_eq!(values(&a), [4]);
}

#[test]
fn cursor_remove_current_as_list() {
    let mut a = LinkedList::from([1, 2, 3]);
    let mut cursor = a.cursor_front_mut();
    let one = cursor.remove_current_as_list().unwrap();
    assert_eq!(values(&one), [1]);
    assert_eq!(cursor.current(), Some(&mut 2));
    assert_eq!(cursor.index(), Some(0));
    cursor.move_next();
    let three = cursor.remove_current_as_list().unwrap();
    assert_eq!(values(&three), [3]);
    assert_eq!(cursor.index(), None);
    assert!(cursor.remove_current_as_list().is_none());
    assert_eq!(values(&a), [2]);
    assert_eq!(a.front(), Some(&2));
    assert_eq!(a.back(), Some(&2));
}

#[test]
fn cursor_writes_reach_the_list() {
    let mut a = LinkedList::from([1, 2, 3]);
    let mut cursor = a.cursor_front_mut();
    cursor.move_next();
    *cursor.current().unwrap() = 20;
    *cursor.peek_next().unwrap() = 30;
    *cursor.peek_prev().unwrap() = 10;
    assert_eq!(cursor.front(), Some(&10));
    assert_eq!(cursor.back(), Some(&30));
    *cursor.front_mut().unwrap() += 1;
    *cursor.back_mut().unwrap() += 1;
    assert_eq!(values(&a), [11, 20, 31]);
}

#[test]
fn cursor_walks_the_whole_ring() {
    let list = LinkedList::from([1, 2, 3]);
    let mut cursor = list.cursor_front();
    let mut seen = Vec::new();
    for _ in 0..8 {
        seen.push((cursor.index(), cursor.current().copied()));
        cursor.move_next();
    }
    assert_eq!(
        seen,
        [
            (Some(0), Some(1)),
            (Some(1), Some(2)),
            (Some(2), Some(3)),
            (None, None),
            (Some(0), Some(1)),
            (Some(1), Some(2)),
            (Some(2), Some(3)),
            (None, None),
        ]
    );
    let empty: LinkedList<i32> = LinkedList::new();
    let mut cursor = empty.cursor_back();
    assert_eq!(cursor.index(), None);
    cursor.move_prev();
    cursor.move_next();
    assert_eq!(cursor.current(), None);
    assert_eq!(cursor.peek_next(), None);
    assert_eq!(cursor.peek_prev(), None);
}

#[test]
fn remove_by_index_from_either_half() {
    let mut list = LinkedList::from([0, 1, 2, 3, 4, 5, 6]);
    assert_eq!(list.remove(5), 5);
    assert_eq!(list.remove(1), 1);
    assert_eq!(list.remove(0), 0);
    assert_eq!(list.remove(3), 6);
    assert_eq!(values(&list), [2, 3, 4]);
    assert_eq!(list.remove(1), 3);
    assert_eq!(list.remove(1), 4);
    assert_eq!(list.remove(0), 2);
    assert!(list.is_empty());
}

#[test]
fn freed_nodes_are_reused() {
    let mut list = LinkedList::new();
    for round in 0..50 {
        for i in 0..10 {
            if i % 2 == 0 {
                list.push_back(round * 10 + i);
            } else {
                list.push_front(round * 10 + i);
            }
        }
        for _ in 0..7 {
            assert!(list.pop_front().is_some());
        }
    }
    assert_eq!(list.len(), 150);
    let all = values(&list);
    let mut back = Vec::new();
    let mut it = list.iter();
    while let Some(x) = it.next_back() {
        back.push(*x);
    }
    back.reverse();
    assert_eq!(all, back);
}

#[test]
fn lists_built_in_different_ways_are_equal_and_hash_alike() {
    let items = [4u32, 8, 15, 16, 23, 42];
    let bulk = LinkedList::from(items);
    let from_vec = LinkedList::from(items.to_vec());
    let mut pushed = LinkedList::new();
    for x in items {
        pushed.push_back(x);
    }
    let mut reversed = LinkedList::new();
    for x in items.iter().rev() {
        reversed.push_front(*x);
    }
    let mut cut = LinkedList::from([0, 4, 8, 0, 15, 16, 23, 42, 0]);
    assert_eq!(cut.drain_filter(|x| *x == 0).collect(), [0, 0, 0]);
    assert!(bulk == pushed);
    assert!(bulk == from_vec);
    assert!(bulk == reversed);
    assert!(bulk == cut);
    assert_eq!(hash_of(&bulk), hash_of(&pushed));
    assert_eq!(hash_of(&bulk), hash_of(&from_vec));
    assert_eq!(hash_of(&bulk), hash_of(&reversed));
    assert_eq!(hash_of(&bulk), hash_of(&cut));
    let other = LinkedList::from([4u32, 8, 15, 16, 23]);
    assert!(bulk != other);
    assert_ne!(hash_of(&bulk), hash_of(&other));
}

#[test]
fn list_to_vector_and_back_is_the_same_list() {
    let list = LinkedList::from([2, 7, 1, 8, 2, 8]);
    let copy = list.clone();
    let items = list.into_iter().collect();
    assert_eq!(items, [2, 7, 1, 8, 2, 8]);
    let rebuilt = LinkedList::from(items);
    assert!(rebuilt == copy);
    let empty: LinkedList<i32> = LinkedList::from(Vec::new());
    assert!(empty.is_empty());
    assert!(empty == LinkedList::default());
}

#[test]
fn clone_is_independent() {
    let mut list = LinkedList::from([1, 2, 3]);
    let copy = list.clone();
    list.push_back(4);
    *list.front_mut().unwrap() = 0;
    assert_eq!(values(&copy), [1, 2, 3]);
    assert_eq!(values(&list), [0, 2, 3, 4]);
}

#[test]
fn total_order_is_lexicographic() {
    let a = LinkedList::from([1, 2, 3]);
    let b = LinkedList::from([1, 2, 4]);
    let c = LinkedList::from([1, 2]);
    let e: LinkedList<i32> = LinkedList::new();
    assert_eq!(a.cmp(&b), Ordering::Less);
    assert_eq!(b.cmp(&a), Ordering::Greater);
    assert_eq!(a.cmp(&a), Ordering::Equal);
    assert_eq!(c.cmp(&a), Ordering::Less);
    assert_eq!(a.cmp(&c), Ordering::Greater);
    assert_eq!(e.cmp(&c), Ordering::Less);
    assert_eq!(e.cmp(&e), Ordering::Equal);
    assert_eq!(a.partial_cmp(&b), Some(Ordering::Less));
    assert_eq!(c.partial_cmp(&a), Some(Ordering::Less));
    assert_eq!(a.partial_cmp(&a), Some(Ordering::Equal));
    let nan = LinkedList::from([1.0, f64::NAN]);
    let num = LinkedList::from([1.0, 2.0]);
    assert_eq!(nan.partial_cmp(&num), None);
    assert_eq!(LinkedList::from([0.5, f64::NAN]).partial_cmp(&num), Some(Ordering::Less));
    assert!(nan != nan.clone());
}

#[test]
fn iterators_meet_in_the_middle() {
    let mut list = LinkedList::from([1, 2, 3, 4, 5]);
    let mut it = list.iter();
    assert_eq!(it.clone().last(), Some(&5));
    assert_eq!(it.next(), Some(&1));
    assert_eq!(it.next_back(), Some(&5));
    assert_eq!(it.len(), 3);
    assert_eq!(it.collect(), [&2, &3, &4]);
    {
        let mut it = list.iter_mut();
        *it.next().unwrap() = 10;
        *it.next_back().unwrap() = 50;
        assert_eq!(it.len(), 3);
        *it.last().unwrap() = 40;
    }
    assert_eq!(values(&list), [10, 2, 3, 40, 50]);
    let mut it = list.into_iter();
    assert_eq!(it.next_back(), Some(50));
    assert_eq!(it.next(), Some(10));
    assert_eq!(it.len(), 3);
    assert_eq!(it.size_hint(), (3, Some(3)));
    assert_eq!(it.last(), Some(40));
}

#[test]
fn rendering_of_short_lists() {
    let empty: LinkedList<u8> = LinkedList::new();
    assert_eq!(empty.debug_string(), "[]");
    assert_eq!(LinkedList::from([7u8]).debug_string(), "[7]");
    assert_eq!(LinkedList::from([Some('a'), None]).debug_string(), "[Some('a'), None]");
    assert_eq!(linked_list::render::render(&vec!["x".to_string(), "y".to_string()]), "[x, y]");
}

#[test]
fn extend_keeps_order() {
    let mut list = LinkedList::from([1]);
    list.extend(Vec::new());
    assert_eq!(values(&list), [1]);
    list.extend(vec![2, 3]);
    list.extend_from_slice(&[]);
    list.extend_from_slice(&[4]);
    assert_eq!(values(&list), [1, 2, 3, 4]);
    let none: LinkedList<i32> = LinkedList::from([]);
    assert!(none.is_empty());
}

fn is_send<T: Send>(_: &T) -> bool {
    true
}

fn is_sync<T: Sync>(_: &T) -> bool {
    true
}

#[test]
fn list_can_move_and_be_shared_between_threads() {
    let list = LinkedList::from([1, 2, 3]);
    assert!(is_send(&list));
    assert!(is_sync(&list));
    assert!(is_send(&list.iter()));
    assert!(is_send(&list.cursor_front()));
}
