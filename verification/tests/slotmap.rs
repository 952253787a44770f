use std::cell::Cell;
use std::rc::Rc;

use tiredsleepy::Key;
use tiredsleepy::NotFound;
use tiredsleepy::Slotmap;

#[test]
fn slotmap_basic_usage() -> Result<(), NotFound> {
    let mut sm = Slotmap::<u32>::new();

    let k1 = sm.insert(6u32);

    assert_eq!(*sm.try_get(k1)?, 6);
    *sm.try_get_mut(k1)? = 4;

    assert_eq!(*sm.try_get(k1)?, 4);

    sm.remove(k1);
    assert!(sm.try_get(k1).is_err());

    Ok(())
}

#[test]
fn slotmap_handles_multiple_pages() {
    let count: u32 = 30000;

    let mut keys = [Key::<u32>::default(); 30000];

    let mut sm = Slotmap::<u32>::new();

    for i in 0..count {
        keys[i as usize] = sm.insert(i);
    }

    for i in 0..count {
        assert_eq!(*sm.try_get(keys[i as usize]).unwrap(), i)
    }
}

struct Dropped {
    #[allow(dead_code)]
    x: u32,
    count: Rc<Cell<u32>>,
}

impl Drop for Dropped {
    fn drop(&mut self) {
        self.count.set(self.count.get() + 1);
    }
}

#[test]
fn slotmap_handles_drops() {
    let drop_count: Rc<Cell<u32>> = Rc::new(Cell::new(0));
    {
        let mut sm = Slotmap::<Dropped>::new();
        let k1 = sm.insert(Dropped { x: 3, count: drop_count.clone() });
        sm.insert(Dropped { x: 3, count: drop_count.clone() });
        sm.insert(Dropped { x: 3, count: drop_count.clone() });

        assert_eq!(drop_count.get(), 0);

        sm.remove(k1);
        assert_eq!(drop_count.get(), 1);
    }

    assert_eq!(drop_count.get(), 3);
}

#[test]
fn slotmap_stress() -> Result<(), NotFound> {
    let count: u32 = 400_000;

    let mut keys: Vec<(Key<u32>, bool)> = vec![];

    let mut sm = Slotmap::<u32>::new();
    let check = |sm: &Slotmap<u32>, keys: &Vec<(Key<u32>, bool)>| -> Result<(), NotFound> {
        for (i, k) in keys.iter().enumerate() {
            if k.1 {
                assert_eq!(*sm.try_get(k.0)?, i as u32);
            } else {
                assert!(sm.try_get(k.0).is_err());
            }
        }
        Ok(())
    };

    for i in 0..count {
        keys.push((sm.insert(i), true));
    }

    check(&sm, &keys)?;

    for k in keys[1000..3000].iter_mut() {
        sm.remove(k.0);
        k.1 = false;
    }

    check(&sm, &keys)?;

    for k in keys[10000..30000].iter_mut() {
        sm.remove(k.0);
        k.1 = false;
    }

    check(&sm, &keys)?;

    for (i, k) in keys[10000..15000].iter_mut().enumerate() {
        k.0 = sm.insert((i + 10000) as u32);
        k.1 = true;
    }

    check(&sm, &keys)?;

    for (i, k) in keys[20000..20010].iter_mut().enumerate() {
        k.0 = sm.insert((i + 20000) as u32);
        k.1 = true;
    }

    check(&sm, &keys)?;

    Ok(())
}
