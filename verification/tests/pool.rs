use sandstone::pool::Pool;

#[test]
fn added_items_are_found_again() {
    let mut p: Pool<u32> = Pool::new();
    let a = p.add(10);
    let b = p.add(20);
    assert_eq!(*p.borrow(a), 10);
    assert_eq!(*p.borrow(b), 20);
    assert_eq!(p.vec_len(), 2);
    *p.borrow_mut(a) = 11;
    assert_eq!(p.try_borrow(a), Some(&11));
}

#[test]
fn removed_slots_are_reused_with_a_new_generation() {
    let mut p: Pool<u32> = Pool::new();
    let a = p.add(1);
    assert_eq!(p.try_remove(a), Some(1));
    assert_eq!(p.try_remove(a), None);
    let b = p.add(2);
    // the slot is reused, but the old handle stays invalid
    assert_eq!(p.vec_len(), 1);
    assert!(p.try_borrow(a).is_none());
    assert_eq!(*p.borrow(b), 2);
    assert!(!p.check_handle_valid(a));
    assert!(p.check_handle_valid(b));
    assert!(a != b);
}

#[test]
fn take_and_put_back_restore_the_item() {
    let mut p: Pool<u32> = Pool::new();
    let a = p.add(5);
    let (ticket, v) = p.take(a);
    assert_eq!(v, 5);
    assert!(p.try_borrow(a).is_none());
    assert!(p.try_take(a).is_none());
    let back = p.put_back(ticket, v + 1);
    assert!(back == a);
    assert_eq!(*p.borrow(a), 6);
}

#[test]
fn handle_from_index_gives_the_current_generation() {
    let mut p: Pool<u32> = Pool::new();
    let a = p.add(1);
    p.try_remove(a);
    let b = p.add(2);
    let h = p.handle_from_index(0);
    assert!(h == b);
    assert!(h != a);
}

#[test]
fn iter_walks_the_items_in_slot_order() {
    let mut p: Pool<u32> = Pool::new();
    let a = p.add(1);
    p.add(2);
    p.add(3);
    p.try_remove(a);
    let items: Vec<u32> = p.iter().into_iter().map(|x| *x).collect();
    assert_eq!(items, vec![2, 3]);
    let mut_items = p.try_borrow_mut(a);
    assert!(mut_items.is_none());
}

#[test]
fn handles_print_their_index_and_generation() {
    let mut pool: Pool<u32> = Pool::new();
    let a = pool.add(1);
    let _b = pool.add(2);
    assert_eq!(a.to_debug_string(), "Handle { index: 0, generation: 1 }");
    pool.try_remove(a);
    let c = pool.add(3);
    assert_eq!(c.to_debug_string(), "Handle { index: 0, generation: 2 }");
}

#[test]
fn slot_count_grows_only_when_no_slot_is_free() {
    let mut p: Pool<u32> = Pool::new();
    let a = p.add(1);
    let b = p.add(2);
    assert_eq!(p.vec_len(), 2);
    let (ticket, v) = p.take(a);
    assert_eq!(v, 1);
    assert_eq!(p.vec_len(), 2);
    p.put_back(ticket, 5);
    assert_eq!(p.vec_len(), 2);
    assert_eq!(p.try_remove(b), Some(2));
    assert_eq!(p.vec_len(), 2);
    // the freed slot is taken again before a new one is made
    p.add(3);
    assert_eq!(p.vec_len(), 2);
    p.add(4);
    assert_eq!(p.vec_len(), 3);
}

#[test]
fn two_items_are_borrowed_mutably_at_once() {
    let mut p: Pool<u32> = Pool::new();
    let a = p.add(1);
    let b = p.add(2);
    {
        let (x, y) = p.borrow_many_mut(a, b);
        std::mem::swap(x, y);
    }
    assert_eq!(*p.borrow(a), 2);
    assert_eq!(*p.borrow(b), 1);
    let (x, y) = p.try_borrow_many_mut(b, a).ok().unwrap();
    *x += 10;
    *y += 20;
    assert_eq!((*p.borrow(a), *p.borrow(b)), (22, 11));
}

#[test]
fn borrowing_two_fails_on_a_bad_or_shared_handle() {
    let mut p: Pool<u32> = Pool::new();
    let a = p.add(1);
    let b = p.add(2);
    assert!(p.try_borrow_many_mut(a, a).err().unwrap().overlapping);
    p.try_remove(b);
    assert!(!p.try_borrow_many_mut(a, b).err().unwrap().overlapping);
    assert_eq!(*p.borrow(a), 1);
}
