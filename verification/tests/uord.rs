use std::collections::hash_map::DefaultHasher;
use std::hash::Hash;
use std::hash::Hasher;

use graph_store::UOrd;

fn hash_of(pair: &UOrd<u64>) -> u64 {
    let mut hasher = DefaultHasher::new();
    pair.hash(&mut hasher);
    hasher.finish()
}

#[test]
fn construction_order_is_unobservable() {
    let p = UOrd::new(3u64, 9u64);
    let q = UOrd::new(9u64, 3u64);
    assert_eq!(p, q);
    assert_eq!(hash_of(&p), hash_of(&q));
    let encoded_p = ron::to_string(&p.as_tuple()).unwrap();
    let encoded_q = ron::to_string(&q.as_tuple()).unwrap();
    assert_eq!(encoded_p, encoded_q);
}

#[test]
fn accessors_follow_the_order() {
    let p = UOrd::new(9u64, 3u64);
    assert_eq!(*p.min(), 3);
    assert_eq!(*p.max(), 9);
    assert_eq!(p.as_tuple(), (&3, &9));
    assert_eq!(p.into_tuple(), (3, 9));
    assert_eq!(p.as_array(), [&3, &9]);
    assert_eq!(p.into_array(), [3, 9]);
    assert_eq!(p.as_ref().into_tuple(), (&3, &9));
}

#[test]
fn membership_and_partners() {
    let p = UOrd::new(3u64, 9u64);
    assert!(p.contains(&3));
    assert!(p.contains(&9));
    assert!(!p.contains(&4));
    assert_eq!(p.other(&3), Some(&9));
    assert_eq!(p.other(&9), Some(&3));
    assert_eq!(p.other(&4), None);

    let same = UOrd::new(7u64, 7u64);
    assert!(!same.is_distinct());
    assert_eq!(same.other(&7), Some(&7));
    assert!(p.is_distinct());
}

#[test]
fn replace_renormalizes() {
    let p = UOrd::new(3u64, 9u64);
    assert_eq!(p.replace(&3, 20), UOrd::new(9, 20));
    assert_eq!(p.replace(&9, 1), UOrd::new(1, 3));
    assert_eq!(p.replace(&5, 0), p);
    let same = UOrd::new(4u64, 4u64);
    assert_eq!(same.replace(&4, 6), UOrd::new(6, 6));
}

#[test]
fn map_and_iter() {
    let p = UOrd::new(3u64, 9u64);
    assert_eq!(p.map(|x: u64| 100 - x), UOrd::new(91, 97));
    assert_eq!(p.iter(), vec![&3, &9]);
}

#[test]
fn fallible_mapping_short_circuits() {
    let small = UOrd::new(9u64, 3u64);
    let doubled = small.try_map(|x: u64| if x < 10 { Ok(x * 2) } else { Err("too big") });
    assert_eq!(doubled, Ok(UOrd::new(6, 18)));
    let mixed = UOrd::new(5u64, 100u64);
    assert_eq!(mixed.try_map(|x: u64| if x < 10 { Ok(x * 2) } else { Err("too big") }), Err("too big"));

    assert_eq!(small.try_map_opt(|x: u64| x.checked_mul(2)), Some(UOrd::new(6, 18)));
    assert_eq!(mixed.try_map_opt(|x: u64| if x < 10 { Some(x) } else { None }), None);
}

#[test]
fn predicates_and_reference_mapping() {
    let p = UOrd::new(4u64, 6u64);
    assert!(p.both(|x: &u64| *x % 2 == 0));
    assert!(!p.both(|x: &u64| *x > 5));
    assert!(p.either(|x: &u64| *x > 5));
    assert!(!p.either(|x: &u64| *x > 10));
    assert_eq!(p.map_ref(|x: &u64| 10 - *x), UOrd::new(4, 6));
}
