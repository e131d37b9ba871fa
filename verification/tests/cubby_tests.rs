use cubby::cubby::{Cubby, Eid};
use cubby::{mutex, rwlock, EntErr};

#[test]
fn test_cubby() {
    let mut c = rwlock::build(10);
    let e = c.add(2).unwrap();
    assert_eq!(c.with(e, |i| *i).unwrap(), 2);
}

#[test]
#[should_panic]
fn test_cubby_remove() {
    let mut c = rwlock::build(10);
    let e = c.add(2).unwrap();
    c.remove(e);

    let r = c.with(e, |i| *i).unwrap();
    assert_eq!(r, 2);
}

#[test]
fn test_cubby_mut() {
    let mut c = rwlock::build(10);
    let e = c.add(2).unwrap();
    let _ = c.with_mut(e, |i| *i += 1);
    let r = c.with_mut(e, |i| *i).unwrap();
    assert_eq!(r, 3);
}

#[test]
fn test_cubby_each() {
    let mut c = rwlock::build(10);
    let _ = c.add(2);
    let _ = c.add(3);
    let mut v = vec![];
    c.each(|i| {
        v.push(*i);
        None
    });
    assert_eq!(v.len(), 2);
}

#[test]
fn test_cubby_find() {
    let mut c = rwlock::build(10);
    let _ = c.add(2);
    let _ = c.add(3);
    let r = c.find(|i| *i > 0);
    assert!(r.len() > 1);
}

#[test]
fn test_cubby_first() {
    let mut c = rwlock::build(10);
    let _ = c.add(2);
    let odd = c.add(3).unwrap();
    let r = c.first(|i| *i % 2 == 1);
    assert!(r.is_some());
    assert_eq!(odd, r.unwrap());
}

#[test]
fn readme_example_mutex() {
    let mut c = mutex::build(25);
    let e = c.add(2).unwrap();
    let _ = c.with_mut(e, |n| *n += 1);
    let r = c.with(e, |n| *n).unwrap();
    assert_eq!(r, 3);
}

#[test]
fn add_with_id_hands_out_indices_from_zero() {
    let mut c: Cubby<u32> = Cubby::new(3);
    assert_eq!(c.add_with_id(10, 7), Ok((0, 7)));
    assert_eq!(c.add_with_id(11, 8), Ok((1, 8)));
    assert_eq!(c.add_with_id(12, 9), Ok((2, 9)));
    assert_eq!(c.with((1, 8), |i| *i), Ok(11));
}

#[test]
fn add_refused_when_full() {
    let mut c = rwlock::build(2);
    assert!(c.add(1).is_ok());
    assert!(c.add(2).is_ok());
    assert_eq!(c.add(3), Err(EntErr::Maxed));
    let mut z: Cubby<u8> = Cubby::new(0);
    assert_eq!(z.add(1), Err(EntErr::Maxed));
    assert_eq!(z.add_with_id(1, 5), Err(EntErr::Maxed));
}

#[test]
fn with_refuses_wrong_id_and_empty_entry() {
    let mut c: Cubby<u32> = Cubby::new(4);
    assert_eq!(c.add_with_id(5, 40), Ok((0, 40)));
    assert_eq!(c.with((0, 41), |i| *i), Err(EntErr::Invalid));
    assert_eq!(c.with_mut((0, 41), |i| *i += 1), Err(EntErr::Invalid));
    // an entry never used has id 0 and no data
    assert_eq!(c.with((3, 0), |i| *i), Err(EntErr::NoData));
    assert_eq!(c.with_mut((3, 0), |i| *i), Err(EntErr::NoData));
    assert_eq!(c.with((3, 1), |i| *i), Err(EntErr::Invalid));
    // a key with id 0 on an entry in use is refused
    assert_eq!(c.with((0, 0), |i| *i), Err(EntErr::Invalid));
}

#[test]
fn remove_then_key_is_refused_and_slot_reused() {
    let mut c: Cubby<u32> = Cubby::new(4);
    assert_eq!(c.add_with_id(5, 40), Ok((0, 40)));
    assert_eq!(c.add_with_id(6, 41), Ok((1, 41)));
    assert!(!c.remove((0, 99)));
    assert!(c.remove((0, 40)));
    assert!(!c.remove((0, 40)));
    assert_eq!(c.with((0, 40), |i| *i), Err(EntErr::Invalid));
    assert_eq!(c.with((1, 41), |i| *i), Ok(6));
    // the freed index is handed out first
    assert_eq!(c.add_with_id(7, 50), Ok((0, 50)));
    assert_eq!(c.with((0, 40), |i| *i), Err(EntErr::Invalid));
    assert_eq!(c.with((0, 50), |i| *i), Ok(7));
}

#[test]
fn removed_entry_is_not_reached_under_id_zero() {
    let mut c: Cubby<u32> = Cubby::new(2);
    assert_eq!(c.add_with_id(5, 40), Ok((0, 40)));
    assert!(c.remove((0, 40)));
    // the removed data is not handed out under id 0
    assert_eq!(c.with((0, 0), |i| *i), Err(EntErr::NoData));
    assert_eq!(c.with_mut((0, 0), |i| *i), Err(EntErr::NoData));
    assert_eq!(c.with((0, 40), |i| *i), Err(EntErr::Invalid));
}

#[test]
fn fresh_store_answers_no_data_under_id_zero() {
    let c: Cubby<i32> = rwlock::build(10);
    assert_eq!(c.with((0, 0), |i| *i), Err(EntErr::NoData));
    assert_eq!(c.with((0, 7), |i| *i), Err(EntErr::Invalid));
}

#[test]
fn remove_with_id_zero_is_refused() {
    let mut c: Cubby<u32> = rwlock::build(1);
    assert!(!c.remove((0, 0)));
    assert_eq!(c.add_with_id(1, 10), Ok((0, 10)));
    assert_eq!(c.add_with_id(2, 11), Err(EntErr::Maxed));
    assert!(!c.remove((0, 0)));
    assert_eq!(c.with((0, 10), |i| *i), Ok(1));
}

#[test]
fn fresh_store_takes_exactly_its_size_in_ascending_indices() {
    let mut c: Cubby<u32> = mutex::build(4);
    for k in 0..4u64 {
        assert_eq!(c.add_with_id(k as u32, k + 1), Ok((k as usize, k + 1)));
    }
    assert_eq!(c.add_with_id(9, 9), Err(EntErr::Maxed));
}

#[test]
fn first_is_head_of_find() {
    let mut c: Cubby<u32> = Cubby::new(6);
    for (v, id) in [(3u32, 1u64), (4, 2), (6, 3), (7, 4), (8, 5)] {
        assert!(c.add_with_id(v, id).is_ok());
    }
    assert!(c.remove((1, 2)));
    let even = |i: &u32| *i % 2 == 0;
    assert_eq!(c.first(even), c.find(even).first().copied());
    assert_eq!(c.first(even), Some((2, 3)));
    let big = |i: &u32| *i > 100;
    assert_eq!(c.first(big), c.find(big).first().copied());
}

#[test]
fn with_mut_writes_what_with_reads() {
    let mut c: Cubby<String> = Cubby::new(1);
    let e: Eid = c.add_with_id(String::from("a"), 3).unwrap();
    let n = c.with_mut(e, |s| {
        s.push('b');
        s.len()
    });
    assert_eq!(n, Ok(2));
    assert_eq!(c.with(e, |s| s.clone()), Ok(String::from("ab")));
}

#[test]
fn find_returns_live_matches_in_order() {
    let mut c: Cubby<u32> = Cubby::new(5);
    assert!(c.add_with_id(4, 1).is_ok());
    assert!(c.add_with_id(5, 2).is_ok());
    assert!(c.add_with_id(6, 3).is_ok());
    assert!(c.add_with_id(8, 4).is_ok());
    assert!(c.remove((2, 3)));
    assert_eq!(c.find(|i| *i % 2 == 0), vec![(0, 1), (3, 4)]);
    assert_eq!(c.find(|i| *i > 100), vec![]);
}

#[test]
fn first_returns_first_live_match() {
    let mut c: Cubby<u32> = Cubby::new(5);
    assert!(c.add_with_id(4, 1).is_ok());
    assert!(c.add_with_id(5, 2).is_ok());
    assert!(c.add_with_id(7, 3).is_ok());
    assert_eq!(c.first(|i| *i % 2 == 1), Some((1, 2)));
    assert!(c.remove((1, 2)));
    assert_eq!(c.first(|i| *i % 2 == 1), Some((2, 3)));
    assert_eq!(c.first(|i| *i > 100), None);
}

#[test]
fn each_stops_after_break() {
    let mut c: Cubby<u32> = Cubby::new(5);
    for (v, id) in [(1u32, 1u64), (2, 2), (3, 3), (4, 4)] {
        assert!(c.add_with_id(v, id).is_ok());
    }
    assert!(c.remove((0, 1)));
    let mut seen = vec![];
    c.each(|i| {
        seen.push(*i);
        if *i == 3 {
            Some(EntErr::Break)
        } else if *i == 2 {
            Some(EntErr::Invalid)
        } else {
            None
        }
    });
    assert_eq!(seen, vec![2, 3]);
}

#[test]
fn each_mut_changes_until_break() {
    let mut c: Cubby<u32> = Cubby::new(5);
    for (v, id) in [(1u32, 1u64), (2, 2), (3, 3), (4, 4)] {
        assert!(c.add_with_id(v, id).is_ok());
    }
    c.each_mut(|i| {
        *i *= 10;
        if *i == 20 {
            Some(EntErr::Break)
        } else {
            None
        }
    });
    assert_eq!(c.with((0, 1), |i| *i), Ok(10));
    assert_eq!(c.with((1, 2), |i| *i), Ok(20));
    assert_eq!(c.with((2, 3), |i| *i), Ok(3));
    assert_eq!(c.with((3, 4), |i| *i), Ok(4));
}

#[test]
fn random_ids_key_their_entries() {
    let mut c = mutex::build(3);
    let a = c.add(100u64).unwrap();
    let b = c.add(200u64).unwrap();
    assert_eq!(a.0, 0);
    assert_eq!(b.0, 1);
    assert_eq!(c.with(a, |i| *i), Ok(100));
    assert_eq!(c.with(b, |i| *i), Ok(200));
}
