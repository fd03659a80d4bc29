//! The full-text indexing pipeline: building a search document from a
//! message and its parsed payload, committing a page at a time, and the
//! query surface.
//!
//! The document-building rules are the library's own logic and are proved
//! exact; the index engine itself is an external collaborator reached
//! through the trusted wrappers at the bottom of this file.

use vstd::prelude::*;
use tantivy::collector::TopDocs;
use tantivy::query::QueryParser;
use tantivy::schema::Value;
use crate::codec::str_eq;
use crate::email::{EmailAddress, EmailMeta};

verus! {

/// The fixed schema fields of the mail index.
#[derive(Clone, Copy, Debug, PartialEq, Eq, Structural)]
pub enum FieldKind {
    Id,
    BlobId,
    Subject,
    FromName,
    FromEmail,
    ToName,
    ToEmail,
    CcName,
    CcEmail,
    Body,
}

/// One search hit: identifier, payload reference and subject.
#[derive(Debug, Clone)]
pub struct SearchResult {
    pub id: String,
    pub blob_id: String,
    pub subject: String,
}

/// A fatal indexing or query failure of the index engine, with its text.
#[derive(Debug, Clone)]
pub enum SearchError {
    Backend { message: String },
}

pub open spec fn opt_text(s: Option<String>) -> Seq<char> {
    match s {
        Option::Some(t) => t@,
        Option::None => Seq::empty(),
    }
}

/// The field texts contributed by a run of addresses, the name field
/// first in each pair (used for senders).
pub open spec fn addr_doc_ne(
    kn: FieldKind,
    ke: FieldKind,
    addrs: Seq<EmailAddress>,
) -> Seq<(FieldKind, Seq<char>)>
    decreases addrs.len(),
{
    if addrs.len() == 0 {
        Seq::empty()
    } else {
        seq![(kn, opt_text(addrs[0].name)), (ke, addrs[0].email@)] + addr_doc_ne(
            kn,
            ke,
            addrs.drop_first(),
        )
    }
}

/// The same with the address field first in each pair (used for
/// recipients and carbon copies).
pub open spec fn addr_doc_en(
    ke: FieldKind,
    kn: FieldKind,
    addrs: Seq<EmailAddress>,
) -> Seq<(FieldKind, Seq<char>)>
    decreases addrs.len(),
{
    if addrs.len() == 0 {
        Seq::empty()
    } else {
        seq![(ke, addrs[0].email@), (kn, opt_text(addrs[0].name))] + addr_doc_en(
            ke,
            kn,
            addrs.drop_first(),
        )
    }
}

/// The exact field texts of the search document of a message: identity and
/// payload reference, subject (empty when the message has none), every
/// sender, recipient and carbon-copy address, and the payload body (empty
/// when the payload was not available — the document is built regardless,
/// so the metadata stays searchable).
pub open spec fn spec_search_doc(e: EmailMeta, body: Seq<char>) -> Seq<(FieldKind, Seq<char>)> {
    seq![
        (FieldKind::Id, e.id@),
        (FieldKind::BlobId, e.blob_id@),
        (FieldKind::Subject, opt_text(e.subject)),
    ] + addr_doc_ne(FieldKind::FromName, FieldKind::FromEmail, e.from@) + addr_doc_en(
        FieldKind::ToEmail,
        FieldKind::ToName,
        e.to@,
    ) + addr_doc_en(FieldKind::CcEmail, FieldKind::CcName, e.cc@) + seq![(FieldKind::Body, body)]
}

/// The texts of built document pairs.
pub open spec fn doc_view(r: Seq<(FieldKind, String)>) -> Seq<(FieldKind, Seq<char>)> {
    r.map_values(|p: (FieldKind, String)| (p.0, p.1@))
}

/// The numeric identifier of the schema field a document field is written
/// under.
pub open spec fn field_id_of(fields: SchemaFields, k: FieldKind) -> int {
    match k {
        FieldKind::Id => field_view(fields.id),
        FieldKind::BlobId => field_view(fields.blob_id),
        FieldKind::Subject => field_view(fields.subject),
        FieldKind::FromName => field_view(fields.from_name),
        FieldKind::FromEmail => field_view(fields.from_email),
        FieldKind::ToName => field_view(fields.to_name),
        FieldKind::ToEmail => field_view(fields.to_email),
        FieldKind::CcName => field_view(fields.cc_name),
        FieldKind::CcEmail => field_view(fields.cc_email),
        FieldKind::Body => field_view(fields.body),
    }
}

/// The field texts as the index receives them: each document field mapped
/// to its schema field identifier.
pub open spec fn doc_ids(fields: SchemaFields, pairs: Seq<(FieldKind, Seq<char>)>) -> Seq<
    (int, Seq<char>),
> {
    pairs.map_values(|p: (FieldKind, Seq<char>)| (field_id_of(fields, p.0), p.1))
}

proof fn lemma_addr_ne_snoc(kn: FieldKind, ke: FieldKind, addrs: Seq<EmailAddress>, a: EmailAddress)
    ensures
        addr_doc_ne(kn, ke, addrs.push(a)) == addr_doc_ne(kn, ke, addrs) + seq![
            (kn, opt_text(a.name)),
            (ke, a.email@),
        ],
    decreases addrs.len(),
{
    if addrs.len() == 0 {
        assert(addrs.push(a).drop_first() =~= Seq::<EmailAddress>::empty());
        assert(addrs.push(a)[0] == a);
        assert(addr_doc_ne(kn, ke, Seq::<EmailAddress>::empty()) =~= Seq::<(
            FieldKind,
            Seq<char>,
        )>::empty());
        assert(addr_doc_ne(kn, ke, addrs.push(a)) =~= addr_doc_ne(kn, ke, addrs) + seq![
            (kn, opt_text(a.name)),
            (ke, a.email@),
        ]);
    } else {
        lemma_addr_ne_snoc(kn, ke, addrs.drop_first(), a);
        assert(addrs.push(a).drop_first() =~= addrs.drop_first().push(a));
        assert(addrs.push(a)[0] == addrs[0]);
        assert(addr_doc_ne(kn, ke, addrs.push(a)) =~= addr_doc_ne(kn, ke, addrs) + seq![
            (kn, opt_text(a.name)),
            (ke, a.email@),
        ]);
    }
}

proof fn lemma_addr_en_snoc(ke: FieldKind, kn: FieldKind, addrs: Seq<EmailAddress>, a: EmailAddress)
    ensures
        addr_doc_en(ke, kn, addrs.push(a)) == addr_doc_en(ke, kn, addrs) + seq![
            (ke, a.email@),
            (kn, opt_text(a.name)),
        ],
    decreases addrs.len(),
{
    if addrs.len() == 0 {
        assert(addrs.push(a).drop_first() =~= Seq::<EmailAddress>::empty());
        assert(addrs.push(a)[0] == a);
        assert(addr_doc_en(ke, kn, Seq::<EmailAddress>::empty()) =~= Seq::<(
            FieldKind,
            Seq<char>,
        )>::empty());
        assert(addr_doc_en(ke, kn, addrs.push(a)) =~= addr_doc_en(ke, kn, addrs) + seq![
            (ke, a.email@),
            (kn, opt_text(a.name)),
        ]);
    } else {
        lemma_addr_en_snoc(ke, kn, addrs.drop_first(), a);
        assert(addrs.push(a).drop_first() =~= addrs.drop_first().push(a));
        assert(addrs.push(a)[0] == addrs[0]);
        assert(addr_doc_en(ke, kn, addrs.push(a)) =~= addr_doc_en(ke, kn, addrs) + seq![
            (ke, a.email@),
            (kn, opt_text(a.name)),
        ]);
    }
}

fn push_pair(r: &mut Vec<(FieldKind, String)>, k: FieldKind, s: String)
    ensures
        final(r)@ == old(r)@.push((k, s)),
        doc_view(final(r)@) == doc_view(old(r)@).push((k, s@)),
{
    r.push((k, s));
    proof {
        assert(doc_view(r@) =~= doc_view(old(r)@).push((k, s@)));
    }
}

fn opt_string(s: &Option<String>) -> (r: String)
    ensures
        r@ == opt_text(*s),
{
    match s {
        Some(t) => t.clone(),
        None => String::new(),
    }
}

/// Build the search document of one message: exactly the field texts of
/// `spec_search_doc`, in order.
pub fn build_search_doc(email: &EmailMeta, body: &Option<String>) -> (r: Vec<(FieldKind, String)>)
    ensures
        doc_view(r@) == spec_search_doc(*email, opt_text(*body)),
{
    let mut r: Vec<(FieldKind, String)> = Vec::new();
    proof {
        assert(doc_view(r@) =~= Seq::<(FieldKind, Seq<char>)>::empty());
    }
    push_pair(&mut r, FieldKind::Id, email.id.clone());
    push_pair(&mut r, FieldKind::BlobId, email.blob_id.clone());
    push_pair(&mut r, FieldKind::Subject, opt_string(&email.subject));
    let ghost head = doc_view(r@);
    let mut i: usize = 0;
    while i < email.from.len()
        invariant
            i <= email.from@.len(),
            head == seq![
                (FieldKind::Id, email.id@),
                (FieldKind::BlobId, email.blob_id@),
                (FieldKind::Subject, opt_text(email.subject)),
            ],
            doc_view(r@) == head + addr_doc_ne(
                FieldKind::FromName,
                FieldKind::FromEmail,
                email.from@.take(i as int),
            ),
        decreases email.from@.len() - i,
    {
        let a = &email.from[i];
        push_pair(&mut r, FieldKind::FromName, opt_string(&a.name));
        push_pair(&mut r, FieldKind::FromEmail, a.email.clone());
        proof {
            lemma_addr_ne_snoc(
                FieldKind::FromName,
                FieldKind::FromEmail,
                email.from@.take(i as int),
                email.from@[i as int],
            );
            assert(email.from@.take(i + 1) =~= email.from@.take(i as int).push(
                email.from@[i as int],
            ));
            assert(doc_view(r@) =~= head + addr_doc_ne(
                FieldKind::FromName,
                FieldKind::FromEmail,
                email.from@.take(i + 1),
            ));
        }
        i = i + 1;
    }
    proof {
        assert(email.from@.take(email.from@.len() as int) =~= email.from@);
    }
    let ghost head2 = doc_view(r@);
    let mut i2: usize = 0;
    while i2 < email.to.len()
        invariant
            i2 <= email.to@.len(),
            head2 == head + addr_doc_ne(FieldKind::FromName, FieldKind::FromEmail, email.from@),
            head == seq![
                (FieldKind::Id, email.id@),
                (FieldKind::BlobId, email.blob_id@),
                (FieldKind::Subject, opt_text(email.subject)),
            ],
            doc_view(r@) == head2 + addr_doc_en(
                FieldKind::ToEmail,
                FieldKind::ToName,
                email.to@.take(i2 as int),
            ),
        decreases email.to@.len() - i2,
    {
        let a = &email.to[i2];
        push_pair(&mut r, FieldKind::ToEmail, a.email.clone());
        push_pair(&mut r, FieldKind::ToName, opt_string(&a.name));
        proof {
            lemma_addr_en_snoc(
                FieldKind::ToEmail,
                FieldKind::ToName,
                email.to@.take(i2 as int),
                email.to@[i2 as int],
            );
            assert(email.to@.take(i2 + 1) =~= email.to@.take(i2 as int).push(
                email.to@[i2 as int],
            ));
            assert(doc_view(r@) =~= head2 + addr_doc_en(
                FieldKind::ToEmail,
                FieldKind::ToName,
                email.to@.take(i2 + 1),
            ));
        }
        i2 = i2 + 1;
    }
    proof {
        assert(email.to@.take(email.to@.len() as int) =~= email.to@);
    }
    let ghost head3 = doc_view(r@);
    let mut i3: usize = 0;
    while i3 < email.cc.len()
        invariant
            i3 <= email.cc@.len(),
            head3 == head2 + addr_doc_en(FieldKind::ToEmail, FieldKind::ToName, email.to@),
            head2 == head + addr_doc_ne(FieldKind::FromName, FieldKind::FromEmail, email.from@),
            head == seq![
                (FieldKind::Id, email.id@),
                (FieldKind::BlobId, email.blob_id@),
                (FieldKind::Subject, opt_text(email.subject)),
            ],
            doc_view(r@) == head3 + addr_doc_en(
                FieldKind::CcEmail,
                FieldKind::CcName,
                email.cc@.take(i3 as int),
            ),
        decreases email.cc@.len() - i3,
    {
        let a = &email.cc[i3];
        push_pair(&mut r, FieldKind::CcEmail, a.email.clone());
        push_pair(&mut r, FieldKind::CcName, opt_string(&a.name));
        proof {
            lemma_addr_en_snoc(
                FieldKind::CcEmail,
                FieldKind::CcName,
                email.cc@.take(i3 as int),
                email.cc@[i3 as int],
            );
            assert(email.cc@.take(i3 + 1) =~= email.cc@.take(i3 as int).push(
                email.cc@[i3 as int],
            ));
            assert(doc_view(r@) =~= head3 + addr_doc_en(
                FieldKind::CcEmail,
                FieldKind::CcName,
                email.cc@.take(i3 + 1),
            ));
        }
        i3 = i3 + 1;
    }
    proof {
        assert(email.cc@.take(email.cc@.len() as int) =~= email.cc@);
    }
    push_pair(&mut r, FieldKind::Body, opt_string(body));
    proof {
        assert(doc_view(r@) =~= spec_search_doc(*email, opt_text(*body)));
    }
    r
}

/// The schema field handles of the mail index, in the order the schema was
/// built.
pub struct SchemaFields {
    pub id: tantivy::schema::Field,
    pub blob_id: tantivy::schema::Field,
    pub subject: tantivy::schema::Field,
    pub from_name: tantivy::schema::Field,
    pub from_email: tantivy::schema::Field,
    pub to_name: tantivy::schema::Field,
    pub to_email: tantivy::schema::Field,
    pub cc_name: tantivy::schema::Field,
    pub cc_email: tantivy::schema::Field,
    pub body: tantivy::schema::Field,
}

/// A handle on the single index writer. The writer type's generics cannot
/// be declared to the verifier, so the value is held opaquely.
#[verifier::external_body]
pub struct MailIndexWriter {
    inner: tantivy::IndexWriter<tantivy::TantivyDocument>,
}

/// A writer on the mail index together with its field handles.
pub struct EmailIndexer {
    pub writer: MailIndexWriter,
    pub fields: SchemaFields,
}

/// The schema field handle of a document field.
pub fn field_for(fields: &SchemaFields, k: FieldKind) -> (r: tantivy::schema::Field)
    ensures
        k is Id ==> r == fields.id,
        k is BlobId ==> r == fields.blob_id,
        k is Subject ==> r == fields.subject,
        k is FromName ==> r == fields.from_name,
        k is FromEmail ==> r == fields.from_email,
        k is ToName ==> r == fields.to_name,
        k is ToEmail ==> r == fields.to_email,
        k is CcName ==> r == fields.cc_name,
        k is CcEmail ==> r == fields.cc_email,
        k is Body ==> r == fields.body,
{
    match k {
        FieldKind::Id => fields.id,
        FieldKind::BlobId => fields.blob_id,
        FieldKind::Subject => fields.subject,
        FieldKind::FromName => fields.from_name,
        FieldKind::FromEmail => fields.from_email,
        FieldKind::ToName => fields.to_name,
        FieldKind::ToEmail => fields.to_email,
        FieldKind::CcName => fields.cc_name,
        FieldKind::CcEmail => fields.cc_email,
        FieldKind::Body => fields.body,
    }
}

/// The registered text fields of a schema under construction: name and
/// whether the field is stored, in registration order.
pub uninterp spec fn schema_model(b: tantivy::schema::SchemaBuilder) -> Seq<(Seq<char>, bool)>;

/// The numeric identifier a field handle carries.
pub uninterp spec fn field_view(f: tantivy::schema::Field) -> int;

/// The texts a document under construction holds: field identifier and
/// text, in the order they were added.
pub uninterp spec fn doc_texts(d: tantivy::TantivyDocument) -> Seq<(int, Seq<char>)>;

/// The documents queued on the writer since the last successful commit.
pub uninterp spec fn writer_docs(w: MailIndexWriter) -> Seq<Seq<(int, Seq<char>)>>;

/// The text fields of a built schema: name and stored flag, in
/// registration order.
pub uninterp spec fn schema_of(s: tantivy::schema::Schema) -> Seq<(Seq<char>, bool)>;

/// The fixed mail schema: the stored identity, subject and addressing
/// fields, then the searchable-only carbon-copy, blind-copy and body
/// fields, in this order.
pub open spec fn spec_mail_schema() -> Seq<(Seq<char>, bool)> {
    seq![
        ("id"@, true),
        ("blob_id"@, true),
        ("subject"@, true),
        ("from_name"@, true),
        ("from_email"@, true),
        ("to_name"@, true),
        ("to_email"@, true),
        ("cc_name"@, false),
        ("cc_email"@, false),
        ("bcc"@, false),
        ("body"@, false),
    ]
}

proof fn lemma_mail_field_names()
    ensures
        "id"@.len() == 2,
        "blob_id"@.len() == 7,
        "subject"@.len() == 7,
        "from_name"@.len() == 9,
        "from_email"@.len() == 10,
        "to_name"@.len() == 7,
        "to_email"@.len() == 8,
        "cc_name"@.len() == 7,
        "cc_email"@.len() == 8,
        "bcc"@.len() == 3,
        "body"@.len() == 4,
        "blob_id"@[0] == 'b' && "subject"@[0] == 's' && "to_name"@[0] == 't' && "cc_name"@[0]
            == 'c',
        "to_email"@[0] == 't' && "cc_email"@[0] == 'c',
{
    reveal_strlit("id");
    reveal_strlit("blob_id");
    reveal_strlit("subject");
    reveal_strlit("from_name");
    reveal_strlit("from_email");
    reveal_strlit("to_name");
    reveal_strlit("to_email");
    reveal_strlit("cc_name");
    reveal_strlit("cc_email");
    reveal_strlit("bcc");
    reveal_strlit("body");
}

/// Build the fixed mail schema: exactly the eleven text fields of
/// `spec_mail_schema`, in order, with their stored flags.
pub fn schema_builder() -> (r: (tantivy::schema::Schema, SchemaFields))
    ensures
        schema_of(r.0) == spec_mail_schema(),
{
    proof {
        lemma_mail_field_names();
    }
    let mut b = tantivy_schema_builder_new();
    let id = tantivy_add_text_field(&mut b, "id", true);
    let blob_id = tantivy_add_text_field(&mut b, "blob_id", true);
    let subject = tantivy_add_text_field(&mut b, "subject", true);
    let from_name = tantivy_add_text_field(&mut b, "from_name", true);
    let from_email = tantivy_add_text_field(&mut b, "from_email", true);
    let to_name = tantivy_add_text_field(&mut b, "to_name", true);
    let to_email = tantivy_add_text_field(&mut b, "to_email", true);
    let cc_name = tantivy_add_text_field(&mut b, "cc_name", false);
    let cc_email = tantivy_add_text_field(&mut b, "cc_email", false);
    let _bcc = tantivy_add_text_field(&mut b, "bcc", false);
    let body = tantivy_add_text_field(&mut b, "body", false);
    let schema = tantivy_schema_build(b);
    proof {
        assert(schema_of(schema) =~= spec_mail_schema());
    }
    let fields = SchemaFields {
        id,
        blob_id,
        subject,
        from_name,
        from_email,
        to_name,
        to_email,
        cc_name,
        cc_email,
        body,
    };
    (schema, fields)
}

/// Open (or create) the index under `folder` and return a writer on it.
/// The folder must already exist.
pub fn create_indexer(folder: &str) -> (r: Result<EmailIndexer, SearchError>) {
    let (schema, fields) = schema_builder();
    let dir = match tantivy_open_dir(folder) {
        Ok(d) => d,
        Err(message) => {
            return Err(SearchError::Backend { message });
        },
    };
    let index = match tantivy_open_or_create(dir, &schema) {
        Ok(ix) => ix,
        Err(message) => {
            return Err(SearchError::Backend { message });
        },
    };
    let writer = match tantivy_writer(&index, 50000000) {
        Ok(w) => w,
        Err(message) => {
            return Err(SearchError::Backend { message });
        },
    };
    Ok(EmailIndexer { writer, fields })
}

/// Add the search document of one message to the index: on success,
/// exactly one document is queued on the writer, holding exactly the field
/// texts of `spec_search_doc` under their schema fields.
pub fn write_document(indexer: &mut EmailIndexer, email: &EmailMeta, body: &Option<String>) -> (r:
    Result<u64, SearchError>)
    ensures
        final(indexer).fields == old(indexer).fields,
        r is Ok ==> writer_docs(final(indexer).writer) == writer_docs(old(indexer).writer).push(
            doc_ids(old(indexer).fields, spec_search_doc(*email, opt_text(*body))),
        ),
{
    let pairs = build_search_doc(email, body);
    let mut doc = tantivy_doc_new();
    let mut i: usize = 0;
    proof {
        assert(doc_view(pairs@).take(0) =~= Seq::<(FieldKind, Seq<char>)>::empty());
        assert(doc_ids(indexer.fields, doc_view(pairs@).take(0)) =~= Seq::<(
            int,
            Seq<char>,
        )>::empty());
    }
    while i < pairs.len()
        invariant
            i <= pairs@.len(),
            doc_texts(doc) == doc_ids(indexer.fields, doc_view(pairs@).take(i as int)),
        decreases pairs@.len() - i,
    {
        let f = field_for(&indexer.fields, pairs[i].0);
        tantivy_doc_add_text(&mut doc, f, pairs[i].1.as_str());
        proof {
            let dv = doc_view(pairs@);
            assert(dv[i as int] == (pairs@[i as int].0, pairs@[i as int].1@));
            assert(field_view(f) == field_id_of(indexer.fields, pairs@[i as int].0));
            assert(dv.take(i + 1) =~= dv.take(i as int).push(dv[i as int]));
            assert(doc_ids(indexer.fields, dv.take(i + 1)) =~= doc_ids(
                indexer.fields,
                dv.take(i as int),
            ).push((field_view(f), pairs@[i as int].1@)));
        }
        i = i + 1;
    }
    proof {
        assert(doc_view(pairs@).take(pairs@.len() as int) =~= doc_view(pairs@));
    }
    match tantivy_add_document(&mut indexer.writer, doc) {
        Ok(stamp) => Ok(stamp),
        Err(message) => Err(SearchError::Backend { message }),
    }
}

/// Commit all queued documents: they become durable and visible to
/// queries.
pub fn commit_index(indexer: &mut EmailIndexer) -> (r: Result<u64, SearchError>)
    ensures
        final(indexer).fields == old(indexer).fields,
        r is Ok ==> writer_docs(final(indexer).writer) == Seq::<Seq<(int, Seq<char>)>>::empty(),
{
    match tantivy_commit(&mut indexer.writer) {
        Ok(stamp) => Ok(stamp),
        Err(message) => Err(SearchError::Backend { message }),
    }
}

/// Index one fetched page: a document per message, using the parsed
/// payload body when the payload is there and an empty body when it is
/// not — a message is never skipped — then one commit for the whole page.
/// A single failed document does not abort the page; a failed commit does.
pub fn index_emails(
    indexer: &mut EmailIndexer,
    emails: &Vec<EmailMeta>,
    blobs: &Vec<Option<Vec<u8>>>,
) -> (r: Result<u64, SearchError>)
    requires
        emails@.len() == blobs@.len(),
    ensures
        final(indexer).fields == old(indexer).fields,
        r is Ok ==> writer_docs(final(indexer).writer) == Seq::<Seq<(int, Seq<char>)>>::empty(),
{
    let mut i: usize = 0;
    while i < emails.len()
        invariant
            emails@.len() == blobs@.len(),
            i <= emails@.len(),
            indexer.fields == old(indexer).fields,
        decreases emails@.len() - i,
    {
        let body: Option<String> = match &blobs[i] {
            Some(b) => extract_body_text(b),
            None => None,
        };
        let _ = write_document(indexer, &emails[i], &body);
        i = i + 1;
    }
    match tantivy_commit(&mut indexer.writer) {
        Ok(stamp) => Ok(stamp),
        Err(message) => Err(SearchError::Backend { message }),
    }
}

/// The result bound of a query: the given limit, or one hundred.
pub open spec fn spec_limit(limit: Option<usize>) -> int {
    match limit {
        Option::Some(l) => l as int,
        Option::None => 100,
    }
}

/// One search hit from the three stored texts the engine returned: an
/// absent text becomes the empty string.
pub fn make_search_result(
    id: Option<String>,
    blob_id: Option<String>,
    subject: Option<String>,
) -> (r: SearchResult)
    ensures
        r.id@ == opt_text(id),
        r.blob_id@ == opt_text(blob_id),
        r.subject@ == opt_text(subject),
{
    SearchResult {
        id: opt_string(&id),
        blob_id: opt_string(&blob_id),
        subject: opt_string(&subject),
    }
}

/// Query the index under `folder` over the subject and body fields: at
/// most the limit of hits, each hit built by `make_search_result` from the
/// stored identifier, payload-reference and subject texts of one matching
/// document. Relevance ordering and the matching itself are the engine's;
/// no contract here can state them.
pub fn search(folder: &str, query: &str, limit: Option<usize>) -> (r: Result<
    Vec<SearchResult>,
    SearchError,
>)
    ensures
        match r {
            Ok(hits) => hits@.len() <= spec_limit(limit),
            Err(_) => true,
        },
{
    let index = match tantivy_open_in_dir(folder) {
        Ok(ix) => ix,
        Err(message) => {
            return Err(SearchError::Backend { message });
        },
    };
    let lim: usize = match limit {
        Some(l) => l,
        None => 100,
    };
    if lim == 0 {
        return Ok(Vec::new());
    }
    let id_f = match tantivy_get_field(&index, "id") {
        Ok(f) => f,
        Err(message) => {
            return Err(SearchError::Backend { message });
        },
    };
    let blob_f = match tantivy_get_field(&index, "blob_id") {
        Ok(f) => f,
        Err(message) => {
            return Err(SearchError::Backend { message });
        },
    };
    let subject_f = match tantivy_get_field(&index, "subject") {
        Ok(f) => f,
        Err(message) => {
            return Err(SearchError::Backend { message });
        },
    };
    let docs = match tantivy_query_docs(&index, "subject", "body", query, lim) {
        Ok(ds) => ds,
        Err(message) => {
            return Err(SearchError::Backend { message });
        },
    };
    let mut hits: Vec<SearchResult> = Vec::new();
    let mut i: usize = 0;
    while i < docs.len()
        invariant
            docs@.len() <= lim,
            i <= docs@.len(),
            hits@.len() == i,
            lim as int == spec_limit(limit),
        decreases docs@.len() - i,
    {
        let id = tantivy_doc_get_first_text(&docs[i], id_f);
        let blob_id = tantivy_doc_get_first_text(&docs[i], blob_f);
        let subject = tantivy_doc_get_first_text(&docs[i], subject_f);
        hits.push(make_search_result(id, blob_id, subject));
        i = i + 1;
    }
    Ok(hits)
}

// --- the trusted boundary to the index engine and the message parser ---

#[verifier::external_type_specification]
#[verifier::external_body]
pub struct ExSchemaBuilder(tantivy::schema::SchemaBuilder);

#[verifier::external_type_specification]
#[verifier::external_body]
pub struct ExSchema(tantivy::schema::Schema);

#[verifier::external_type_specification]
#[verifier::external_body]
pub struct ExField(tantivy::schema::Field);

#[verifier::external_type_specification]
#[verifier::external_body]
pub struct ExIndex(tantivy::Index);

#[verifier::external_type_specification]
#[verifier::external_body]
pub struct ExTantivyDocument(tantivy::TantivyDocument);

#[verifier::external_type_specification]
#[verifier::external_body]
pub struct ExMmapDirectory(tantivy::directory::MmapDirectory);

/// Relies on `SchemaBuilder::default`: a fresh schema builder with no
/// fields registered.
#[verifier::external_body]
fn tantivy_schema_builder_new() -> (r: tantivy::schema::SchemaBuilder)
    ensures
        schema_model(r) == Seq::<(Seq<char>, bool)>::empty(),
{
    tantivy::schema::Schema::builder()
}

/// Relies on `SchemaBuilder::add_text_field`: registers a text field under
/// the given name, indexed, and stored when asked, returning its handle.
/// `add_field` panics on a name already registered, and field identifiers
/// are limited to sixteen bits; the `requires` excludes both.
#[verifier::external_body]
fn tantivy_add_text_field(
    b: &mut tantivy::schema::SchemaBuilder,
    name: &str,
    stored: bool,
) -> (f: tantivy::schema::Field)
    requires
        forall|j: int|
            0 <= j < schema_model(*old(b)).len() ==> (#[trigger] schema_model(*old(b))[j]).0
                != name@,
        schema_model(*old(b)).len() < 65535,
    ensures
        schema_model(*final(b)) == schema_model(*old(b)).push((name@, stored)),
        field_view(f) == schema_model(*old(b)).len(),
{
    if stored {
        b.add_text_field(name, tantivy::schema::TEXT | tantivy::schema::STORED)
    } else {
        b.add_text_field(name, tantivy::schema::TEXT)
    }
}

/// Relies on `SchemaBuilder::build`: the schema of exactly the registered
/// fields, in registration order.
#[verifier::external_body]
fn tantivy_schema_build(b: tantivy::schema::SchemaBuilder) -> (r: tantivy::schema::Schema)
    ensures
        schema_of(r) == schema_model(b),
{
    b.build()
}

/// Relies on `MmapDirectory::open`: opens an existing directory.
#[verifier::external_body]
fn tantivy_open_dir(path: &str) -> Result<tantivy::directory::MmapDirectory, String> {
    tantivy::directory::MmapDirectory::open(path).map_err(|e| e.to_string())
}

/// Relies on `Index::open_or_create`: opens the index in the directory,
/// creating it with the given schema when none is there.
#[verifier::external_body]
fn tantivy_open_or_create(
    dir: tantivy::directory::MmapDirectory,
    schema: &tantivy::schema::Schema,
) -> Result<tantivy::Index, String> {
    tantivy::Index::open_or_create(dir, schema.clone()).map_err(|e| e.to_string())
}

/// Relies on `Index::open_in_dir`: opens an existing index.
#[verifier::external_body]
fn tantivy_open_in_dir(path: &str) -> Result<tantivy::Index, String> {
    tantivy::Index::open_in_dir(path).map_err(|e| e.to_string())
}

/// Relies on `Index::writer`: a single writer with the given memory
/// budget in bytes, with nothing queued yet.
#[verifier::external_body]
fn tantivy_writer(index: &tantivy::Index, budget: usize) -> (r: Result<MailIndexWriter, String>)
    ensures
        match r {
            Ok(w) => writer_docs(w) == Seq::<Seq<(int, Seq<char>)>>::empty(),
            Err(_) => true,
        },
{
    index.writer(budget).map(|inner| MailIndexWriter { inner }).map_err(|e| e.to_string())
}

/// Relies on `TantivyDocument::default`: an empty document.
#[verifier::external_body]
fn tantivy_doc_new() -> (r: tantivy::TantivyDocument)
    ensures
        doc_texts(r) == Seq::<(int, Seq<char>)>::empty(),
{
    tantivy::TantivyDocument::default()
}

/// Relies on `TantivyDocument::add_text`: appends one text value under the
/// given field.
#[verifier::external_body]
fn tantivy_doc_add_text(doc: &mut tantivy::TantivyDocument, f: tantivy::schema::Field, text: &str)
    ensures
        doc_texts(*final(doc)) == doc_texts(*old(doc)).push((field_view(f), text@)),
{
    doc.add_text(f, text);
}

/// Relies on `IndexWriter::add_document`: queues the document and returns
/// its operation stamp.
#[verifier::external_body]
fn tantivy_add_document(w: &mut MailIndexWriter, doc: tantivy::TantivyDocument) -> (r: Result<
    u64,
    String,
>)
    ensures
        r is Ok ==> writer_docs(*final(w)) == writer_docs(*old(w)).push(doc_texts(doc)),
{
    w.inner.add_document(doc).map_err(|e| e.to_string())
}

/// Relies on `IndexWriter::commit`: makes all queued documents durable and
/// visible, returning the commit stamp; the queue is then empty.
#[verifier::external_body]
fn tantivy_commit(w: &mut MailIndexWriter) -> (r: Result<u64, String>)
    ensures
        r is Ok ==> writer_docs(*final(w)) == Seq::<Seq<(int, Seq<char>)>>::empty(),
{
    w.inner.commit().map_err(|e| e.to_string())
}

/// Relies on `Schema::get_field`: the handle of a named field of this
/// index's own schema, or an error when the index has no such field — so a
/// handle from a foreign schema is never fabricated.
#[verifier::external_body]
fn tantivy_get_field(index: &tantivy::Index, name: &str) -> Result<tantivy::schema::Field, String> {
    index.schema().get_field(name).map_err(|e| e.to_string())
}

/// Relies on `Index::reader`, `QueryParser::for_index`/`parse_query`,
/// `Searcher::search` with a `TopDocs` collector (at most `limit` hits,
/// ordered by relevance) and `Searcher::doc`. The calls are joined in one
/// wrapper: a parsed query is a trait object that cannot cross this
/// boundary, and a fetched address is only safe against the searcher that
/// produced it. The searched fields are resolved by name against the
/// opened index's own schema — a foreign index yields an error, never a
/// panic. Returns the stored form of each matching document.
#[verifier::external_body]
fn tantivy_query_docs(
    index: &tantivy::Index,
    subject_name: &str,
    body_name: &str,
    query: &str,
    limit: usize,
) -> (r: Result<Vec<tantivy::TantivyDocument>, String>)
    requires
        limit >= 1,
    ensures
        match r {
            Ok(docs) => docs@.len() <= limit,
            Err(_) => true,
        },
{
    let schema = index.schema();
    let sf = schema.get_field(subject_name).map_err(|e| e.to_string())?;
    let bf = schema.get_field(body_name).map_err(|e| e.to_string())?;
    let searcher = index.reader().map_err(|e| e.to_string())?.searcher();
    let q = QueryParser::for_index(index, vec![sf, bf]).parse_query(query).map_err(
        |e| e.to_string(),
    )?;
    let top = searcher.search(&q, &TopDocs::with_limit(limit).order_by_score()).map_err(
        |e| e.to_string(),
    )?;
    top.into_iter().map(|(_s, a)| searcher.doc(a).map_err(|e| e.to_string())).collect()
}

/// Relies on `TantivyDocument::get_first`: the first stored text of the
/// field, when there is one.
#[verifier::external_body]
fn tantivy_doc_get_first_text(doc: &tantivy::TantivyDocument, f: tantivy::schema::Field) -> Option<
    String,
> {
    doc.get_first(f).and_then(|v| v.as_str()).map(|s| s.to_string())
}

/// The body text that the message parser reads out of a raw message, a
/// function of the bytes alone.
pub uninterp spec fn body_text_of(b: Seq<u8>) -> Option<Seq<char>>;

/// Relies on `MessageParser::parse` and `Message::body_text`: the first
/// plain-text body of the parsed message, a function of the bytes alone.
/// The calls are joined in one wrapper because the parsed message borrows
/// the bytes and cannot cross this boundary.
#[verifier::external_body]
pub fn extract_body_text(b: &Vec<u8>) -> (r: Option<String>)
    ensures
        match r {
            Some(s) => body_text_of(b@) == Some(s@),
            None => body_text_of(b@) is None,
        },
{
    mail_parser::MessageParser::default().parse(b.as_slice()).and_then(
        |m| m.body_text(0).map(|c| c.to_string()),
    )
}

/// The projection of one hit: for each requested field name, in order,
/// the matching column of the hit; an unknown field name contributes
/// nothing.
pub open spec fn spec_project(hit: SearchResult, fields: Seq<Seq<char>>) -> Seq<Seq<char>>
    decreases fields.len(),
{
    if fields.len() == 0 {
        Seq::empty()
    } else {
        (if fields[0] == "id"@ {
            seq![hit.id@]
        } else if fields[0] == "blob_id"@ {
            seq![hit.blob_id@]
        } else if fields[0] == "subject"@ {
            seq![hit.subject@]
        } else {
            Seq::empty()
        }) + spec_project(hit, fields.drop_first())
    }
}

proof fn lemma_project_snoc(hit: SearchResult, fields: Seq<Seq<char>>, f: Seq<char>)
    ensures
        spec_project(hit, fields.push(f)) == spec_project(hit, fields) + (if f == "id"@ {
            seq![hit.id@]
        } else if f == "blob_id"@ {
            seq![hit.blob_id@]
        } else if f == "subject"@ {
            seq![hit.subject@]
        } else {
            Seq::<Seq<char>>::empty()
        }),
    decreases fields.len(),
{
    let contribution = if f == "id"@ {
        seq![hit.id@]
    } else if f == "blob_id"@ {
        seq![hit.blob_id@]
    } else if f == "subject"@ {
        seq![hit.subject@]
    } else {
        Seq::<Seq<char>>::empty()
    };
    if fields.len() == 0 {
        assert(fields.push(f).drop_first() =~= Seq::<Seq<char>>::empty());
        assert(fields.push(f)[0] == f);
        assert(spec_project(hit, Seq::<Seq<char>>::empty()) =~= Seq::<Seq<char>>::empty());
        assert(spec_project(hit, fields.push(f)) =~= spec_project(hit, fields) + contribution);
    } else {
        lemma_project_snoc(hit, fields.drop_first(), f);
        assert(fields.push(f).drop_first() =~= fields.drop_first().push(f));
        assert(fields.push(f)[0] == fields[0]);
        assert(spec_project(hit, fields.push(f)) =~= spec_project(hit, fields) + contribution);
    }
}

/// The texts of requested field names.
pub open spec fn fields_view(fields: Seq<String>) -> Seq<Seq<char>> {
    fields.map_values(|f: String| f@)
}

/// Project one hit into the requested output fields, in order; an unknown
/// field name is silently ignored.
pub fn project_result(hit: &SearchResult, fields: &Vec<String>) -> (r: Vec<String>)
    ensures
        fields_view(r@) == spec_project(*hit, fields_view(fields@)),
{
    let mut r: Vec<String> = Vec::new();
    proof {
        assert(fields_view(r@) =~= Seq::<Seq<char>>::empty());
        assert(fields_view(fields@).take(0) =~= Seq::<Seq<char>>::empty());
        assert(spec_project(*hit, fields_view(fields@).take(0)) =~= Seq::<Seq<char>>::empty());
    }
    let mut i: usize = 0;
    while i < fields.len()
        invariant
            i <= fields@.len(),
            fields_view(r@) == spec_project(*hit, fields_view(fields@).take(i as int)),
        decreases fields@.len() - i,
    {
        let ghost old_r = r@;
        let f = &fields[i];
        if str_eq(f.as_str(), "id") {
            r.push(hit.id.clone());
        } else if str_eq(f.as_str(), "blob_id") {
            r.push(hit.blob_id.clone());
        } else if str_eq(f.as_str(), "subject") {
            r.push(hit.subject.clone());
        }
        proof {
            let fv = fields_view(fields@);
            lemma_project_snoc(*hit, fv.take(i as int), fv[i as int]);
            assert(fv.take(i + 1) =~= fv.take(i as int).push(fv[i as int]));
            assert(fv[i as int] == fields@[i as int]@);
            assert(fields_view(r@) =~= spec_project(*hit, fv.take(i + 1)));
        }
        i = i + 1;
    }
    proof {
        assert(fields_view(fields@).take(fields@.len() as int) =~= fields_view(fields@));
    }
    r
}

} // verus!
