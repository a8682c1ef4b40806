use shared_types::id_list::IdList;
use shared_types::ids::ObjectId;

#[test]
fn id_list_add_remove_cnt() {
    let mut lst = IdList::new();
    assert_eq!(lst.next_id(), None);
    lst.add_ids((ObjectId::new(10), ObjectId::new(400)));
    lst.add_ids((ObjectId::new(500), ObjectId::new(600)));
    lst.add_ids((ObjectId::new(u32::MAX - 10), ObjectId::new(5)));
    let mut cnt = 0u32;
    while let Some(id) = lst.next_id() {
        cnt += 1;
        let id = id.as_underlying_type();
        assert!(
            id >= 10 && id < 400
                || id >= 500 && id < 600
                || id >= u32::MAX - 10
                || id < 5
        );
    }
    assert_eq!(
        cnt,
        (400 - 10) + (600 - 500) + 5u32.wrapping_sub(u32::MAX - 10)
    );
}

#[test]
fn id_list_remaining_counts_down() {
    let mut lst = IdList::default();
    assert_eq!(lst.remaining(), 0);
    lst.add_ids((ObjectId::new(3), ObjectId::new(7)));
    assert_eq!(lst.remaining(), 4);
    assert_eq!(lst.next_id(), Some(ObjectId::new(3)));
    assert_eq!(lst.remaining(), 3);
    assert_eq!(lst.next_id(), Some(ObjectId::new(4)));
    assert_eq!(lst.next_id(), Some(ObjectId::new(5)));
    assert_eq!(lst.next_id(), Some(ObjectId::new(6)));
    assert_eq!(lst.remaining(), 0);
    assert_eq!(lst.next_id(), None);
}

#[test]
fn id_list_empty_ranges_give_nothing() {
    let mut lst = IdList::new();
    lst.add_ids((ObjectId::new(9), ObjectId::new(9)));
    assert_eq!(lst.remaining(), 0);
    assert_eq!(lst.next_id(), None);
    lst.add_ids((ObjectId::new(20), ObjectId::new(22)));
    lst.add_ids((ObjectId::new(30), ObjectId::new(30)));
    lst.add_ids((ObjectId::new(40), ObjectId::new(41)));
    assert_eq!(lst.remaining(), 3);
    assert_eq!(lst.next_id(), Some(ObjectId::new(20)));
    assert_eq!(lst.next_id(), Some(ObjectId::new(21)));
    assert_eq!(lst.next_id(), Some(ObjectId::new(40)));
    assert_eq!(lst.remaining(), 0);
    assert_eq!(lst.next_id(), None);
}

#[test]
fn id_list_wrapping_range() {
    let mut lst = IdList::new();
    lst.add_ids((ObjectId::new(u32::MAX - 1), ObjectId::new(1)));
    assert_eq!(lst.remaining(), 3);
    assert_eq!(lst.next_id(), Some(ObjectId::new(u32::MAX - 1)));
    assert_eq!(lst.next_id(), Some(ObjectId::new(u32::MAX)));
    assert_eq!(lst.next_id(), Some(ObjectId::new(0)));
    assert_eq!(lst.next_id(), None);
}

#[test]
fn id_list_serves_ranges_first_in_first_out() {
    let mut lst = IdList::new();
    lst.add_ids((ObjectId::new(10), ObjectId::new(12)));
    lst.add_ids((ObjectId::new(u32::MAX), ObjectId::new(1)));
    assert_eq!(lst.next_id().map(|i| i.as_underlying_type()), Some(10));
    lst.add_ids((ObjectId::new(7), ObjectId::new(8)));
    assert_eq!(lst.remaining(), 4);
    let mut got = Vec::new();
    while let Some(id) = lst.next_id() {
        got.push(id.as_underlying_type());
    }
    assert_eq!(got, vec![11, u32::MAX, 0, 7]);
    assert_eq!(lst.remaining(), 0);
    assert_eq!(lst.next_id(), None);
}
