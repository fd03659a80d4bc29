use postkasse::ids::id_ok;
use postkasse::progress::{initial_backup_progress, BackupProgress, CountingProgress, Progressable};
use postkasse::sync::{advance_watermark, page_max, PassState};

#[test]
fn watermark_advances_to_the_page_maximum() {
    let mut p = initial_backup_progress();
    advance_watermark(&mut p, &vec![5, 3, 9]);
    assert_eq!(p.last_processed_date, 9);
    advance_watermark(&mut p, &vec![9, 12]);
    assert_eq!(p.last_processed_date, 12);
}

#[test]
fn watermark_stays_on_redelivery() {
    // an unchanged remote: re-fetched receipts never exceed the watermark
    let mut p = BackupProgress { last_processed_date: 12 };
    advance_watermark(&mut p, &vec![12, 12]);
    assert_eq!(p.last_processed_date, 12);
}

#[test]
fn page_max_picks_the_largest_receipt() {
    assert_eq!(page_max(&vec![7]), 7);
    assert_eq!(page_max(&vec![1, 9, 4]), 9);
    assert_eq!(page_max(&vec![3, 3, 3]), 3);
}

#[test]
fn pass_state_counts_to_the_total() {
    let mut pass = PassState::new(10);
    assert!(!pass.done());
    assert_eq!(pass.next_position(), 0);
    pass.record_page(4);
    assert_eq!(pass.next_position(), 4);
    assert!(!pass.done());
    pass.record_page(6);
    assert_eq!(pass.next_position(), 10);
    assert!(pass.done());
}

#[test]
fn counting_progress_tracks_position() {
    let mut pb = CountingProgress::new();
    pb.set_length(7);
    pb.inc(3);
    pb.inc(2);
    assert_eq!(pb.position(), 5);
    pb.set_position(7);
    assert_eq!(pb.position(), 7);
    assert_eq!(pb.len, 7);
}

#[test]
fn identifier_well_formedness() {
    assert!(id_ok("Mb-2_x"));
    assert!(id_ok("abc"));
    assert!(!id_ok(""));
    assert!(!id_ok("a/b"));
    assert!(!id_ok("a\"b"));
    assert!(!id_ok("a\\b"));
    assert!(!id_ok("a b"));
}
