use postkasse::email::{EmailAddress, EmailMeta};
use postkasse::search::{
    commit_index, create_indexer, extract_body_text, project_result, search, write_document,
    SearchResult,
};

fn sample_email() -> EmailMeta {
    EmailMeta {
        id: "123".to_string(),
        blob_id: "456".to_string(),
        subject: Some("Test email".to_string()),
        from: vec![EmailAddress {
            name: Some("John Doe".to_string()),
            email: "test@example.com".to_string(),
        }],
        to: vec![EmailAddress {
            name: Some("Mary Smith".to_string()),
            email: "mary@example.com".to_string(),
        }],
        cc: vec![],
        received_at: 0,
        mailbox_ids: vec![],
    }
}

fn sample_message_bytes() -> Vec<u8> {
    let input = "Resent-From: Mary Smith <mary@example.net>\n\
Resent-To: Jane Brown <j-brown@other.example>\n\
Resent-Date: Mon, 24 Nov 1997 14:22:01 -0800\n\
Resent-Message-ID: <78910@example.net>\n\
From: John Doe <jdoe@machine.example>\n\
To: Mary Smith <mary@example.net>\n\
Subject: Saying Hello\n\
Date: Fri, 21 Nov 1997 09:55:06 -0600\n\
Message-ID: <1234@local.machine.example>\n\
\n\
This is a message just to say hello.\n\
So, \"Hello\".\n";
    input.as_bytes().to_vec()
}

#[test]
fn test_create_indexer() {
    let temp_dir = tempfile::TempDir::new().unwrap();
    let path: String = temp_dir.path().to_str().unwrap().to_string();
    let indexer = create_indexer(&path);

    assert!(indexer.is_ok());
}

#[test]
fn test_write_document() {
    let temp_dir = tempfile::TempDir::new().unwrap();
    let path: String = temp_dir.path().to_str().unwrap().to_string();
    println!("Path: {}", path);
    let mut indexer = create_indexer(&path).unwrap();

    let email = sample_email();
    let body = extract_body_text(&sample_message_bytes());
    assert!(body.is_some());

    let result = write_document(&mut indexer, &email, &body);
    commit_index(&mut indexer).unwrap();

    assert!(result.is_ok());
}

#[test]
fn test_search() {
    let temp_dir = tempfile::TempDir::new().unwrap();
    let path = temp_dir.path().to_path_buf();
    let index_path: String = path.to_str().unwrap().to_string();
    let search_path = path.to_str().unwrap().to_string();

    let mut indexer = create_indexer(&index_path).unwrap();

    let email = sample_email();
    let body = extract_body_text(&sample_message_bytes());

    write_document(&mut indexer, &email, &body).unwrap();
    commit_index(&mut indexer).unwrap();

    let results = search(&search_path, "Hello", Some(10));
    let no_results = search(&search_path, "Goodbye", Some(10));

    assert!(results.is_ok());
    assert_eq!(results.unwrap().len(), 1);

    assert!(no_results.is_ok());
    assert_eq!(no_results.unwrap().len(), 0);
}

#[test]
fn search_round_trip_returns_the_document() {
    let temp_dir = tempfile::TempDir::new().unwrap();
    let path: String = temp_dir.path().to_str().unwrap().to_string();
    let mut indexer = create_indexer(&path).unwrap();

    let email = sample_email();
    let body = extract_body_text(&sample_message_bytes());
    write_document(&mut indexer, &email, &body).unwrap();
    commit_index(&mut indexer).unwrap();

    let hits = search(&path, "Hello", Some(10)).unwrap();
    assert_eq!(hits.len(), 1);
    assert_eq!(hits[0].id, "123");
    assert_eq!(hits[0].blob_id, "456");
    assert_eq!(hits[0].subject, "Test email");
}

#[test]
fn body_extraction_reads_the_text_part() {
    let body = extract_body_text(&sample_message_bytes()).unwrap();
    assert!(body.contains("Hello"));
    assert!(!body.contains("Resent-Message-ID"));
}

#[test]
fn missing_payload_still_indexes_metadata() {
    let temp_dir = tempfile::TempDir::new().unwrap();
    let path: String = temp_dir.path().to_str().unwrap().to_string();
    let mut indexer = create_indexer(&path).unwrap();

    let email = sample_email();
    write_document(&mut indexer, &email, &None).unwrap();
    commit_index(&mut indexer).unwrap();

    let hits = search(&path, "Test", Some(10)).unwrap();
    assert_eq!(hits.len(), 1);
    assert_eq!(hits[0].id, "123");
}

#[test]
fn search_limit_bounds_results() {
    let temp_dir = tempfile::TempDir::new().unwrap();
    let path: String = temp_dir.path().to_str().unwrap().to_string();
    let mut indexer = create_indexer(&path).unwrap();

    for k in 0..3 {
        let mut email = sample_email();
        email.id = format!("id{}", k);
        email.blob_id = format!("blob{}", k);
        write_document(&mut indexer, &email, &None).unwrap();
    }
    commit_index(&mut indexer).unwrap();

    let hits = search(&path, "Test", Some(2)).unwrap();
    assert_eq!(hits.len(), 2);
    let none = search(&path, "Test", Some(0)).unwrap();
    assert_eq!(none.len(), 0);
}

#[test]
fn projection_ignores_unknown_fields() {
    let hit = SearchResult {
        id: "a".to_string(),
        blob_id: "b".to_string(),
        subject: "s".to_string(),
    };
    let fields = vec![
        "id".to_string(),
        "nonsense".to_string(),
        "subject".to_string(),
        "blob_id".to_string(),
    ];
    let row = project_result(&hit, &fields);
    assert_eq!(row, vec!["a".to_string(), "s".to_string(), "b".to_string()]);
}

#[test]
fn indexing_a_page_parses_payload_bodies() {
    let temp_dir = tempfile::TempDir::new().unwrap();
    let path: String = temp_dir.path().to_str().unwrap().to_string();
    let mut indexer = create_indexer(&path).unwrap();

    let emails = vec![sample_email()];
    let blobs = vec![Some(sample_message_bytes())];
    postkasse::search::index_emails(&mut indexer, &emails, &blobs).unwrap();

    // the body text was parsed out of the payload
    let hits = search(&path, "Hello", Some(10)).unwrap();
    assert_eq!(hits.len(), 1);
    // header-only tokens are not in the body field
    let none = search(&path, "78910", Some(10)).unwrap();
    assert_eq!(none.len(), 0);
}
