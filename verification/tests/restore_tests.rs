use postkasse::conf::{
    config_get, storage_secret_key, storage_secret_source, Scheme, SecretSource, Storage,
};
use postkasse::email::{mailbox_ids_of_emails, EmailAddress, EmailMeta};
use postkasse::helpers::max_objects_in_get;
use postkasse::restore::{missing_mailbox_ids, missing_parents, sort_mailboxes, Mailbox, RestoreError};

fn mb(id: &str, parent: Option<&str>) -> Mailbox {
    Mailbox {
        id: id.to_string(),
        parent_id: parent.map(|p| p.to_string()),
        name: format!("name of {}", id),
        role: None,
    }
}

fn msg(id: &str, mailboxes: &[&str]) -> EmailMeta {
    EmailMeta {
        id: id.to_string(),
        blob_id: format!("blob-{}", id),
        subject: None,
        from: vec![],
        to: vec![EmailAddress { name: None, email: "x@example.com".to_string() }],
        cc: vec![],
        received_at: 10,
        mailbox_ids: mailboxes.iter().map(|m| m.to_string()).collect(),
    }
}

fn position_of(sorted: &[Mailbox], id: &str) -> usize {
    sorted.iter().position(|m| m.id == id).unwrap()
}

#[test]
fn toposort_puts_parents_before_children() {
    // c -> b -> a, handed over shuffled; d is a root of its own
    let input = vec![mb("c", Some("b")), mb("d", None), mb("a", None), mb("b", Some("a"))];
    let sorted = sort_mailboxes(input).unwrap();
    assert_eq!(sorted.len(), 4);
    assert!(position_of(&sorted, "a") < position_of(&sorted, "b"));
    assert!(position_of(&sorted, "b") < position_of(&sorted, "c"));
}

#[test]
fn toposort_treats_absent_parents_as_roots() {
    // the parent of "child" is not in the set (it already exists remotely)
    let input = vec![mb("child", Some("elsewhere")), mb("other", None)];
    let sorted = sort_mailboxes(input).unwrap();
    assert_eq!(sorted.len(), 2);
}

#[test]
fn toposort_reports_a_cycle() {
    let input = vec![mb("a", Some("b")), mb("b", Some("a")), mb("c", None)];
    match sort_mailboxes(input) {
        Ok(_) => panic!("a cyclic input was sorted"),
        Err(RestoreError::Cycle { id }) => {
            assert!(id == "a" || id == "b");
        },
    }
}

#[test]
fn toposort_reports_a_self_loop() {
    let input = vec![mb("a", Some("a"))];
    match sort_mailboxes(input) {
        Ok(_) => panic!("a self-loop was sorted"),
        Err(RestoreError::Cycle { id }) => assert_eq!(id, "a"),
    }
}

#[test]
fn restore_set_is_minimal() {
    // three messages referencing mailboxes A and B; A already exists remotely
    let messages = vec![
        msg("m1", &["A"]),
        msg("m2", &["A", "B"]),
        msg("m3", &["B"]),
    ];
    let referenced = mailbox_ids_of_emails(&messages);
    let on_server = vec!["A".to_string(), "Inbox".to_string()];
    let to_create = missing_mailbox_ids(&referenced, &on_server);
    assert_eq!(to_create, vec!["B".to_string()]);
}

#[test]
fn referenced_mailboxes_are_collected_once() {
    let messages = vec![msg("m1", &["A", "B"]), msg("m2", &["B", "C"])];
    let ids = mailbox_ids_of_emails(&messages);
    assert_eq!(
        ids,
        vec!["A".to_string(), "B".to_string(), "C".to_string()]
    );
}

#[test]
fn page_size_is_capped() {
    assert_eq!(max_objects_in_get(None), 50);
    assert_eq!(max_objects_in_get(Some(10)), 10);
    assert_eq!(max_objects_in_get(Some(500)), 50);
    assert_eq!(max_objects_in_get(Some(50)), 50);
}

#[test]
fn storage_secrets_follow_the_backend_kind() {
    assert_eq!(storage_secret_key(Scheme::S3).unwrap(), "secret_access_key");
    assert_eq!(storage_secret_key(Scheme::Azblob).unwrap(), "account_key");
    assert_eq!(storage_secret_key(Scheme::Cos).unwrap(), "secret_key");
    assert_eq!(storage_secret_key(Scheme::Webdav).unwrap(), "password");
    assert!(storage_secret_key(Scheme::Fs).is_none());

    let fs = Storage { scheme: Scheme::Fs, config: vec![] };
    assert_eq!(storage_secret_source(&fs), SecretSource::NotNeeded);

    let s3_configured = Storage {
        scheme: Scheme::S3,
        config: vec![("secret_access_key".to_string(), "not-a-real-secret".to_string())],
    };
    assert_eq!(storage_secret_source(&s3_configured), SecretSource::FromConfig);

    let s3_bare = Storage { scheme: Scheme::S3, config: vec![("bucket".to_string(), "b".to_string())] };
    assert_eq!(storage_secret_source(&s3_bare), SecretSource::FromKeyring);

    assert_eq!(config_get(&s3_bare.config, "bucket").unwrap(), "b");
    assert!(config_get(&s3_bare.config, "region").is_none());

    assert_eq!(Scheme::S3.name(), "S3");
    assert_eq!(Scheme::Webhdfs.name(), "Webhdfs");
}

#[test]
fn restore_closes_over_missing_ancestors() {
    // messages reference only B; B's parent P is missing too; P's parent Q
    // already exists remotely
    let messages = vec![msg("m1", &["B"])];
    let on_server = vec!["A".to_string(), "Q".to_string()];

    let referenced = mailbox_ids_of_emails(&messages);
    let mut selected = missing_mailbox_ids(&referenced, &on_server);
    assert_eq!(selected, vec!["B".to_string()]);

    // first round: B is loaded and names P, which is neither remote nor
    // selected yet
    let loaded_b = vec![mb("B", Some("P"))];
    let round = missing_parents(&loaded_b, &on_server, &selected);
    assert_eq!(round, vec!["P".to_string()]);
    selected.extend(round.iter().cloned());

    // second round: P is loaded and names Q, which exists remotely
    let loaded_p = vec![mb("P", Some("Q"))];
    let round2 = missing_parents(&loaded_p, &on_server, &selected);
    assert!(round2.is_empty());

    // the creation set is exactly {B, P}: the missing mailbox and its
    // missing ancestor, never the remote A or Q
    assert_eq!(selected, vec!["B".to_string(), "P".to_string()]);

    // and the sort puts the ancestor first
    let sorted = sort_mailboxes(vec![mb("B", Some("P")), mb("P", Some("Q"))]).unwrap();
    assert!(position_of(&sorted, "P") < position_of(&sorted, "B"));
}
