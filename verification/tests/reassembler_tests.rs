use sobel_pipeline::reassembler::Reassembler;

#[test]
fn permutation_delivers_in_order() {
    // Sequence numbers 0..=4 arrive as 3, 0, 2, 1, 4: delivery is
    // 0, 1, 2, 3, 4 with no omission or repeat.
    let mut r: Reassembler<u32> = Reassembler::new();
    assert_eq!(r.accept(3, 30), Vec::<u32>::new());
    assert_eq!(r.accept(0, 0), vec![0]);
    assert_eq!(r.accept(2, 20), Vec::<u32>::new());
    assert_eq!(r.accept(1, 10), vec![10, 20, 30]);
    assert_eq!(r.accept(4, 40), vec![40]);
    assert_eq!(r.next_seq_expected(), 5);
    assert_eq!(r.pending(), 0);
}

#[test]
fn reverse_order_releases_everything_at_once() {
    let mut r: Reassembler<&str> = Reassembler::new();
    assert!(r.accept(2, "c").is_empty());
    assert!(r.accept(1, "b").is_empty());
    assert_eq!(r.accept(0, "a"), vec!["a", "b", "c"]);
}

#[test]
fn in_order_arrival_releases_each_immediately() {
    let mut r: Reassembler<u32> = Reassembler::new();
    for n in 0..10u64 {
        assert_eq!(r.accept(n, n as u32), vec![n as u32]);
    }
    assert_eq!(r.next_seq_expected(), 10);
}

#[test]
fn consumed_duplicate_changes_nothing() {
    // Redelivering an already-consumed sequence number triggers no
    // presenter call and no state change.
    let mut r: Reassembler<u32> = Reassembler::new();
    r.accept(0, 1);
    r.accept(1, 2);
    r.accept(3, 4);
    let before_next = r.next_seq_expected();
    let before_pending = r.pending();
    assert_eq!(r.accept(1, 99), Vec::<u32>::new());
    assert_eq!(r.next_seq_expected(), before_next);
    assert_eq!(r.pending(), before_pending);
}

#[test]
fn buffered_duplicate_changes_nothing() {
    let mut r: Reassembler<u32> = Reassembler::new();
    r.accept(5, 50);
    assert_eq!(r.pending(), 1);
    assert_eq!(r.accept(5, 99), Vec::<u32>::new());
    assert_eq!(r.pending(), 1);
    assert_eq!(r.next_seq_expected(), 0);
}

#[test]
fn gap_stalls_delivery() {
    // Without sequence 0 nothing is presented, however much arrives.
    let mut r: Reassembler<u32> = Reassembler::new();
    assert!(r.accept(1, 10).is_empty());
    assert!(r.accept(2, 20).is_empty());
    assert!(r.accept(3, 30).is_empty());
    assert_eq!(r.next_seq_expected(), 0);
    assert_eq!(r.pending(), 3);
}
