use postkasse::civil::{from_civil, to_civil, Civil, TS_MAX};
use postkasse::mailbox_progress;
use postkasse::paths::{blob_path, email_path, mailbox_path, progress_path};
use postkasse::progress;
use postkasse::rfc3339::{format_rfc3339, parse_rfc3339};

#[test]
fn paths_are_deterministic_and_sharded() {
    assert_eq!(email_path("abcdef"), "/emails/abc/abcdef.json");
    assert_eq!(email_path("abcdef"), email_path("abcdef"));
    assert_eq!(mailbox_path("inbox1"), "/mailboxes/inbox1.json");
    assert_eq!(blob_path("ab12"), "/blobs/ab/ab12");
    assert_eq!(progress_path("email.json"), "/progress/email.json");
}

#[test]
fn paths_with_crafted_prefix_collisions_stay_distinct() {
    // same three-character shard, different identifiers
    assert_ne!(email_path("abcQQ1"), email_path("abcQQ2"));
    assert_eq!(&email_path("abcQQ1")[..12], &email_path("abcQQ2")[..12]);
    // same two-character shard for payloads
    assert_ne!(blob_path("abM"), blob_path("abN"));
}

#[test]
fn civil_decomposition_round_trips() {
    // leap day, last second
    let ts: i64 = 1709251199;
    let c = to_civil(ts);
    assert_eq!(
        c,
        Civil { year: 2024, month: 2, day: 29, hour: 23, minute: 59, second: 59 }
    );
    assert_eq!(from_civil(&c), ts);

    let zero = to_civil(0);
    assert_eq!(
        zero,
        Civil { year: 1970, month: 1, day: 1, hour: 0, minute: 0, second: 0 }
    );

    let last = to_civil(TS_MAX - 1);
    assert_eq!(
        last,
        Civil { year: 9999, month: 12, day: 31, hour: 23, minute: 59, second: 59 }
    );
}

#[test]
fn rfc3339_formats_and_parses_canonically() {
    let ts: i64 = 1709251199;
    let text = format_rfc3339(ts);
    assert_eq!(text, "2024-02-29T23:59:59Z".as_bytes().to_vec());
    assert_eq!(parse_rfc3339(&text), Some(ts));
    assert_eq!(parse_rfc3339(&"1970-01-01T00:00:00Z".as_bytes().to_vec()), Some(0));
    // not a leap year
    assert_eq!(parse_rfc3339(&"2023-02-29T00:00:00Z".as_bytes().to_vec()), None);
    // out of range fields
    assert_eq!(parse_rfc3339(&"2024-13-01T00:00:00Z".as_bytes().to_vec()), None);
    assert_eq!(parse_rfc3339(&"2024-01-01T24:00:00Z".as_bytes().to_vec()), None);
    // wrong shape
    assert_eq!(parse_rfc3339(&"2024-01-01 00:00:00Z".as_bytes().to_vec()), None);
    assert_eq!(parse_rfc3339(&"2024-01-01T00:00:00".as_bytes().to_vec()), None);
}

#[test]
fn watermark_checkpoint_round_trips() {
    let p = progress::BackupProgress { last_processed_date: 1709251199 };
    let bytes = progress::encode_backup_progress(&p);
    assert_eq!(
        String::from_utf8(bytes.clone()).unwrap(),
        "{\"lastProcessedDate\":\"2024-02-29T23:59:59Z\"}"
    );
    let back = progress::parse_backup_progress(&bytes).unwrap();
    assert_eq!(back.last_processed_date, 1709251199);

    let zero = progress::initial_backup_progress();
    let zero_bytes = progress::encode_backup_progress(&zero);
    assert_eq!(
        String::from_utf8(zero_bytes.clone()).unwrap(),
        "{\"lastProcessedDate\":\"1970-01-01T00:00:00Z\"}"
    );
    assert_eq!(
        progress::parse_backup_progress(&zero_bytes).unwrap().last_processed_date,
        0
    );

    assert!(progress::parse_backup_progress(&"{}".as_bytes().to_vec()).is_none());
    assert!(progress::parse_backup_progress(
        &"{\"lastProcessedDate\":\"not a date, no sir\"}".as_bytes().to_vec()
    )
    .is_none());
}

#[test]
fn watermark_resume_steps_back_one_second() {
    let p = progress::BackupProgress { last_processed_date: 5 };
    assert_eq!(progress::resume_cursor(&p), 4);
    let zero = progress::initial_backup_progress();
    assert_eq!(progress::resume_cursor(&zero), 0);
}

#[test]
fn offset_checkpoint_round_trips() {
    let p = mailbox_progress::BackupProgress {
        position: 2,
        items: vec!["inbox".to_string(), "sent".to_string()],
    };
    let bytes = mailbox_progress::encode_backup_progress(&p);
    assert_eq!(
        String::from_utf8(bytes.clone()).unwrap(),
        "{\"position\":2,\"items\":[\"inbox\",\"sent\"]}"
    );
    let back = mailbox_progress::parse_backup_progress(&bytes).unwrap();
    assert_eq!(back.position, 2);
    assert_eq!(back.items, vec!["inbox".to_string(), "sent".to_string()]);

    let empty = mailbox_progress::initial_backup_progress();
    let empty_bytes = mailbox_progress::encode_backup_progress(&empty);
    assert_eq!(
        String::from_utf8(empty_bytes.clone()).unwrap(),
        "{\"position\":0,\"items\":[]}"
    );
    let back_empty = mailbox_progress::parse_backup_progress(&empty_bytes).unwrap();
    assert_eq!(back_empty.position, 0);
    assert_eq!(back_empty.items.len(), 0);
}

#[test]
fn offset_checkpoint_rejects_ill_formed_files() {
    let cases = [
        // count does not match the identifier set
        "{\"position\":3,\"items\":[\"inbox\",\"sent\"]}",
        // duplicate identifier
        "{\"position\":2,\"items\":[\"inbox\",\"inbox\"]}",
        // leading zero in the count
        "{\"position\":02,\"items\":[\"inbox\",\"sent\"]}",
        // trailing bytes
        "{\"position\":0,\"items\":[]} ",
        // empty identifier
        "{\"position\":1,\"items\":[\"\"]}",
        // not the canonical layout
        "{\"items\":[],\"position\":0}",
    ];
    for case in cases {
        assert!(
            mailbox_progress::parse_backup_progress(&case.as_bytes().to_vec()).is_none(),
            "accepted: {}",
            case
        );
    }
}

#[test]
fn offset_advance_appends_the_page() {
    let mut p = mailbox_progress::initial_backup_progress();
    mailbox_progress::advance_offset(&mut p, vec!["a".to_string(), "b".to_string()]);
    assert_eq!(p.position, 2);
    mailbox_progress::advance_offset(&mut p, vec!["c".to_string()]);
    assert_eq!(p.position, 3);
    assert_eq!(
        p.items,
        vec!["a".to_string(), "b".to_string(), "c".to_string()]
    );
    let bytes = mailbox_progress::encode_backup_progress(&p);
    let back = mailbox_progress::parse_backup_progress(&bytes).unwrap();
    assert_eq!(back.position, 3);
}
