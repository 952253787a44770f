use tiredsleepy::Key;
use tiredsleepy::NotFound;
use tiredsleepy::Slotmap;

#[test]
fn default_key_never_validates() {
    let mut sm = Slotmap::<u32>::new();
    assert_eq!(sm.try_get(Key::default()).unwrap_err(), NotFound);

    sm.insert(11);
    assert_eq!(sm.try_get(Key::default()).unwrap_err(), NotFound);
    assert_eq!(sm.try_get_mut(Key::default()).unwrap_err(), NotFound);

    // removing with a default key is a no-op, not an error
    sm.remove(Key::default());
}

#[test]
fn key_encoding_is_slot_page_generation() {
    let mut sm = Slotmap::<u32>::new();
    sm.insert(77);

    // the first insertion claims slot 0 of page 0 at generation 1
    assert_eq!(*sm.try_get(Key::new(0, 0, 1)).unwrap(), 77);
    // a different generation, an unclaimed slot, or an unallocated page fails
    assert!(sm.try_get(Key::new(0, 0, 2)).is_err());
    assert!(sm.try_get(Key::new(1, 0, 1)).is_err());
    assert!(sm.try_get(Key::new(0, 1, 1)).is_err());
}

#[test]
fn mutation_is_visible_and_local() {
    let mut sm = Slotmap::<u32>::new();
    let ka = sm.insert(1);
    let kb = sm.insert(2);

    *sm.try_get_mut(ka).unwrap() = 10;

    assert_eq!(*sm.try_get(ka).unwrap(), 10);
    assert_eq!(*sm.try_get(kb).unwrap(), 2);
}

#[test]
fn removed_keys_stay_stale_after_reuse() {
    let mut sm = Slotmap::<u32>::new();
    let mut keys: Vec<Key<u32>> = vec![];
    for i in 0..100u32 {
        keys.push(sm.insert(i));
    }

    // free 40 slots: enough to cross the recycling threshold of 32
    for k in keys[0..40].iter() {
        sm.remove(*k);
    }

    // these insertions recycle freed slots in the order they were freed
    let mut new_keys: Vec<Key<u32>> = vec![];
    for i in 0..8u32 {
        new_keys.push(sm.insert(1000 + i));
    }

    for k in keys[0..40].iter() {
        assert_eq!(sm.try_get(*k).unwrap_err(), NotFound);
        assert_eq!(sm.try_get_mut(*k).unwrap_err(), NotFound);
    }
    for (i, k) in new_keys.iter().enumerate() {
        assert_eq!(*sm.try_get(*k).unwrap(), 1000 + i as u32);
    }
    for (i, k) in keys[40..100].iter().enumerate() {
        assert_eq!(*sm.try_get(*k).unwrap(), 40 + i as u32);
    }
}

#[test]
fn remove_is_idempotent() {
    let mut sm = Slotmap::<u32>::new();
    let ka = sm.insert(5);
    let kb = sm.insert(6);

    sm.remove(ka);
    sm.remove(ka);

    assert!(sm.try_get(ka).is_err());
    assert_eq!(*sm.try_get(kb).unwrap(), 6);

    let kc = sm.insert(7);
    assert_eq!(*sm.try_get(kc).unwrap(), 7);
}
