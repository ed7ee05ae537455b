use aggregation_tree::aggregation_tree::inner_refs::TopRef;
use aggregation_tree::count_hash_set::{CountHashSet, Handle};
use nohash_hasher::IntSet;

fn handle(upper: usize) -> TopRef {
    TopRef { upper }
}

/// A weekday, named by its place in the week.
#[derive(Clone, Copy, Debug, PartialEq)]
enum Day {
    Monday,
    Tuesday,
    Sunday,
}

impl Handle for Day {
    fn key(self) -> usize {
        self.key_of()
    }

    fn key_of(&self) -> usize {
        match self {
            Day::Monday => 0,
            Day::Tuesday => 1,
            Day::Sunday => 6,
        }
    }

    fn lemma_key_names(self, _other: Self) {}
}

#[test]
fn new_set_is_empty() {
    let set = CountHashSet::new();
    assert!(set.is_empty());
    assert_eq!(set.len(), 0);
    assert_eq!(set.get(handle(0)), 0);
    assert_eq!(set.iter(), vec![]);
}

#[test]
fn add_reports_first_occurrence_only() {
    let mut set = CountHashSet::new();
    assert!(set.add(handle(4)));
    assert!(!set.add(handle(4)));
    assert!(!set.add(handle(4)));
    assert_eq!(set.get(handle(4)), 3);
    assert_eq!(set.len(), 1);
    assert!(!set.is_empty());
}

#[test]
fn remove_reports_last_occurrence_only() {
    let mut set = CountHashSet::new();
    set.add(handle(4));
    set.add(handle(4));
    set.add(handle(4));
    assert!(!set.remove(handle(4)));
    assert!(!set.remove(handle(4)));
    assert!(set.remove(handle(4)));
    assert_eq!(set.get(handle(4)), 0);
    assert!(set.is_empty());
}

#[test]
fn remove_of_absent_element_is_ignored() {
    let mut set = CountHashSet::new();
    assert!(!set.remove(handle(9)));
    assert_eq!(set.get(handle(9)), 0);
    assert!(set.is_empty());
    set.add(handle(1));
    assert!(!set.remove(handle(9)));
    assert_eq!(set.iter(), vec![handle(1)]);
}

#[test]
fn remove_before_add_leaves_element_present() {
    let mut set = CountHashSet::new();
    assert!(!set.remove(handle(2)));
    assert!(set.add(handle(2)));
    assert_eq!(set.get(handle(2)), 1);
}

#[test]
fn interleaved_adds_and_removes_count_up() {
    let mut set = CountHashSet::new();
    let x = handle(7);
    let mut firsts = 0;
    let mut lasts = 0;
    let ops = [true, true, false, true, false, false, true, true, false];
    for op in ops {
        if op {
            if set.add(x) {
                firsts += 1;
            }
        } else if set.remove(x) {
            lasts += 1;
        }
    }
    // Five adds and four removes, none of them on an absent element.
    assert_eq!(set.get(x), 1);
    assert_eq!(firsts, 2);
    assert_eq!(lasts, 1);
    assert_eq!(set.iter(), vec![x]);
}

#[test]
fn elements_do_not_disturb_each_other() {
    let mut set = CountHashSet::new();
    set.add(handle(1));
    set.add(handle(2));
    set.add(handle(1));
    set.remove(handle(2));
    assert_eq!(set.get(handle(1)), 2);
    assert_eq!(set.get(handle(2)), 0);
    assert_eq!(set.get(handle(3)), 0);
}

#[test]
fn iter_yields_each_element_once_in_order_of_arrival() {
    let mut set = CountHashSet::new();
    set.add(handle(5));
    set.add(handle(3));
    set.add(handle(5));
    set.add(handle(8));
    assert_eq!(set.iter(), vec![handle(5), handle(3), handle(8)]);
    set.remove(handle(3));
    assert_eq!(set.iter(), vec![handle(5), handle(8)]);
    set.remove(handle(5));
    assert_eq!(set.iter(), vec![handle(5), handle(8)]);
    set.add(handle(3));
    assert_eq!(set.iter(), vec![handle(5), handle(8), handle(3)]);
    assert_eq!(set.len(), 3);
}

#[test]
fn add_then_remove_restores_the_set() {
    let mut set = CountHashSet::new();
    set.add(handle(1));
    set.add(handle(2));
    let before = set.iter();
    assert!(set.add(handle(6)));
    assert!(set.remove(handle(6)));
    assert_eq!(set.iter(), before);
    assert!(!set.add(handle(1)));
    assert!(!set.remove(handle(1)));
    assert_eq!(set.iter(), before);
    assert_eq!(set.get(handle(1)), 1);
}

#[test]
fn any_numbered_value_can_be_an_element() {
    let mut set = CountHashSet::new();
    assert!(set.add(Day::Sunday));
    assert!(set.add(Day::Monday));
    assert!(!set.add(Day::Sunday));
    assert_eq!(set.get(Day::Sunday), 2);
    assert_eq!(set.get(Day::Tuesday), 0);
    assert_eq!(set.iter(), vec![Day::Sunday, Day::Monday]);
    assert!(!set.remove(Day::Tuesday));
    assert!(set.remove(Day::Monday));
    assert_eq!(set.iter(), vec![Day::Sunday]);
}

#[test]
fn a_handle_is_named_by_its_position() {
    assert_eq!(handle(17).key_of(), 17);
    assert_eq!(handle(0).key_of(), 0);
}

#[test]
fn handles_are_equal_by_the_node_they_name() {
    assert_eq!(handle(3), handle(3));
    assert_ne!(handle(3), handle(4));
    let copy = handle(3);
    let mut set = CountHashSet::new();
    assert!(set.add(handle(3)));
    assert!(!set.add(copy));
}

#[test]
fn handles_hash_as_one_integer() {
    let mut seen: IntSet<TopRef> = IntSet::default();
    assert!(seen.insert(handle(11)));
    assert!(!seen.insert(handle(11)));
    assert!(seen.insert(handle(12)));
    assert!(seen.contains(&handle(11)));
    assert!(!seen.contains(&handle(13)));
}
