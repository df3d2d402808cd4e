use edcore::connection::ConnectionSlots;

#[test]
fn slots_place_first_empty_and_append() {
    let mut slots = ConnectionSlots::new();
    assert_eq!(0, slots.place());
    assert_eq!(1, slots.place());
    assert_eq!(2, slots.place());
    assert_eq!(3, slots.len());

    slots.close(1);
    let freed = slots.drain_closed();
    assert_eq!(vec![1], freed);

    // The freed slot is reused first; the table does not grow.
    assert_eq!(1, slots.place());
    assert_eq!(3, slots.len());
    assert_eq!(3, slots.place());
    assert_eq!(4, slots.len());
}

#[test]
fn slots_close_defers_teardown() {
    let mut slots = ConnectionSlots::new();
    let a = slots.place();
    let b = slots.place();

    // A closed slot stays occupied until the drain, so its index is not
    // handed out again meanwhile.
    slots.close(a);
    assert!(slots.occupied_at(a));
    assert_eq!(2, slots.place());

    slots.close(b);
    let freed = slots.drain_closed();
    assert_eq!(vec![a, b], freed);
    assert!(!slots.occupied_at(a));
    assert!(!slots.occupied_at(b));

    // Closing twice frees once; closing an empty slot does nothing.
    slots.close(2);
    slots.close(2);
    slots.close(a);
    let freed = slots.drain_closed();
    assert_eq!(vec![2], freed);
}

#[test]
fn slots_hand_out_every_handle() {
    let mut slots = ConnectionSlots::new();
    slots.place();
    slots.place();
    let handles = slots.all_handles();
    let indexes: Vec<usize> = handles.into_iter().map(|h| h.into_index()).collect();
    assert_eq!(vec![0, 1], indexes);
}
