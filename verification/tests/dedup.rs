use unibus::dedup::{DedupResult, DedupWindow};

#[test]
fn test_in_order_reception() {
    let mut dw = DedupWindow::new(0);
    assert_eq!(dw.check(0), DedupResult::InOrder);
    let next = dw.mark_and_advance(0);
    assert_eq!(next, 1);
    assert_eq!(dw.check(1), DedupResult::InOrder);
    dw.mark_and_advance(1);
    assert_eq!(dw.next_expected(), 2);
}

#[test]
fn test_duplicate_detection() {
    let mut dw = DedupWindow::new(0);
    dw.mark_and_advance(0);
    assert_eq!(dw.check(0), DedupResult::AlreadySeen);

    dw.mark_and_advance(1);
    assert_eq!(dw.check(0), DedupResult::AlreadySeen);
    assert_eq!(dw.check(1), DedupResult::AlreadySeen);
}

#[test]
fn test_out_of_order() {
    let mut dw = DedupWindow::new(0);
    // Receive seq=5 before seq=0..4
    assert_eq!(dw.check(5), DedupResult::OutOfOrder);
    dw.mark_and_advance(5);
    // seq=0 is still InOrder (not yet seen)
    assert_eq!(dw.check(0), DedupResult::InOrder);
    // seq=5 is now AlreadySeen within window
    assert_eq!(dw.check(5), DedupResult::AlreadySeen);
}

#[test]
fn test_beyond_window() {
    let dw = DedupWindow::new(0);
    // seq=1024 is exactly at window boundary (0 + 1024)
    assert_eq!(dw.check(1024), DedupResult::BeyondWindow);
    // seq=2000 is far beyond
    assert_eq!(dw.check(2000), DedupResult::BeyondWindow);
}

#[test]
fn test_window_slide_old_seqs_already_seen() {
    let mut dw = DedupWindow::new(0);
    // Receive 0..1023 in order to fill the window
    for seq in 0..1024u64 {
        assert_eq!(dw.check(seq), DedupResult::InOrder);
        dw.mark_and_advance(seq);
    }
    // next_expected should be 1024
    assert_eq!(dw.next_expected(), 1024);

    // Now seq=0 should be AlreadySeen (below window)
    assert_eq!(dw.check(0), DedupResult::AlreadySeen);
    // seq=1024 is now InOrder
    assert_eq!(dw.check(1024), DedupResult::InOrder);
}

#[test]
fn test_gap_fill_advances_next_expected() {
    let mut dw = DedupWindow::new(0);
    // Receive seq=2 first (out of order)
    assert_eq!(dw.check(2), DedupResult::OutOfOrder);
    dw.mark_and_advance(2);
    // next_expected stays at 0 since bit 0 is not set
    assert_eq!(dw.next_expected(), 0);

    // Now receive seq=0
    assert_eq!(dw.check(0), DedupResult::InOrder);
    dw.mark_and_advance(0);
    // next_expected should advance to 1 (bit 0 was set, bit 1 not)
    assert_eq!(dw.next_expected(), 1);

    // Now receive seq=1
    dw.mark_and_advance(1);
    // next_expected should jump to 3 (bits 0,1,2 all set)
    assert_eq!(dw.next_expected(), 3);
}

#[test]
fn test_reset() {
    let mut dw = DedupWindow::new(100);
    dw.mark_and_advance(100);
    dw.mark_and_advance(101);
    assert_eq!(dw.next_expected(), 102);

    dw.reset();
    assert_eq!(dw.next_expected(), 0);
    assert_eq!(dw.check(0), DedupResult::InOrder);
}

#[test]
fn test_reset_to() {
    let mut dw = DedupWindow::new(0);
    dw.mark_and_advance(0);
    dw.mark_and_advance(1);
    dw.reset_to(1000);
    assert_eq!(dw.next_expected(), 1000);
    assert_eq!(dw.check(1000), DedupResult::InOrder);
}

#[test]
fn test_custom_window_size() {
    let dw = DedupWindow::with_window_size(0, 64);
    // seq=64 is beyond window
    assert_eq!(dw.check(64), DedupResult::BeyondWindow);
    // seq=63 is out of order
    assert_eq!(dw.check(63), DedupResult::OutOfOrder);
}

#[test]
fn test_is_seen() {
    let mut dw = DedupWindow::new(0);
    assert!(!dw.is_seen(0));
    dw.mark_and_advance(0);
    assert!(dw.is_seen(0));
    assert!(!dw.is_seen(1));
    // Below window counts as seen
    assert!(dw.is_seen(0));
}
