//! Content-address scheme: the storage path of an entity is a pure function
//! of its kind and identifier.
//!
//! Messages are sharded by the first three characters of the identifier,
//! binary payloads by the first two characters of their own blob identifier;
//! mailbox metadata and checkpoint files are not sharded. An identifier
//! shorter than its shard width is not split (the defensive fallback uses the
//! whole identifier as the shard), so every function here is total.

use vstd::prelude::*;

verus! {

/// Shard prefix: the first `n` characters, or the whole identifier when it
/// is shorter than `n`.
pub open spec fn shard_prefix(id: Seq<char>, n: int) -> Seq<char> {
    if id.len() >= n {
        id.subrange(0, n)
    } else {
        id
    }
}

/// Path of a stored message metadata object.
pub open spec fn spec_email_path(id: Seq<char>) -> Seq<char> {
    "/emails/"@ + shard_prefix(id, 3) + "/"@ + id + ".json"@
}

/// Path of a stored mailbox metadata object.
pub open spec fn spec_mailbox_path(id: Seq<char>) -> Seq<char> {
    "/mailboxes/"@ + id + ".json"@
}

/// Path of a stored binary payload, addressed by its blob identifier.
pub open spec fn spec_blob_path(id: Seq<char>) -> Seq<char> {
    "/blobs/"@ + shard_prefix(id, 2) + "/"@ + id
}

/// Path of a checkpoint file.
pub open spec fn spec_progress_path(file: Seq<char>) -> Seq<char> {
    "/progress/"@ + file
}

/// Storage path of a message metadata object: sharded by the first three
/// characters of the identifier.
pub fn email_path(id: &str) -> (r: String)
    requires
        id.is_ascii(),
    ensures
        r@ == spec_email_path(id@),
{
    let len: usize = id.unicode_len();
    let cut: usize = if len >= 3 {
        3
    } else {
        len
    };
    let mut r = String::from_str("/emails/");
    r.append(id.substring_ascii(0, cut));
    r.append("/");
    r.append(id);
    r.append(".json");
    proof {
        assert(id@.subrange(0, len as int) =~= id@);
        assert(r@ =~= spec_email_path(id@));
    }
    r
}

/// Storage path of a mailbox metadata object: not sharded.
pub fn mailbox_path(id: &str) -> (r: String)
    ensures
        r@ == spec_mailbox_path(id@),
{
    let mut r = String::from_str("/mailboxes/");
    r.append(id);
    r.append(".json");
    proof {
        assert(r@ =~= spec_mailbox_path(id@));
    }
    r
}

/// Storage path of a binary payload: sharded by the first two characters of
/// the blob identifier, no extension.
pub fn blob_path(id: &str) -> (r: String)
    requires
        id.is_ascii(),
    ensures
        r@ == spec_blob_path(id@),
{
    let len: usize = id.unicode_len();
    let cut: usize = if len >= 2 {
        2
    } else {
        len
    };
    let mut r = String::from_str("/blobs/");
    r.append(id.substring_ascii(0, cut));
    r.append("/");
    r.append(id);
    proof {
        assert(id@.subrange(0, len as int) =~= id@);
        assert(r@ =~= spec_blob_path(id@));
    }
    r
}

/// Storage path of a checkpoint file.
pub fn progress_path(file: &str) -> (r: String)
    ensures
        r@ == spec_progress_path(file@),
{
    let mut r = String::from_str("/progress/");
    r.append(file);
    proof {
        assert(r@ =~= spec_progress_path(file@));
    }
    r
}

/// Path determinism and collision freedom for message paths: the path is a
/// pure function of the identifier, and two identifiers long enough to be
/// sharded collide only when they are the same identifier (in particular,
/// their shard prefixes then match).
pub proof fn lemma_email_path_injective(a: Seq<char>, b: Seq<char>)
    requires
        a.len() >= 3,
        b.len() >= 3,
        spec_email_path(a) == spec_email_path(b),
    ensures
        a == b,
{
    reveal_strlit("/emails/");
    reveal_strlit("/");
    reveal_strlit(".json");
    let pa = spec_email_path(a);
    let pb = spec_email_path(b);
    assert(pa.len() == 8 + 3 + 1 + a.len() + 5);
    assert(pb.len() == 8 + 3 + 1 + b.len() + 5);
    assert(a.len() == b.len());
    assert forall|i: int| 0 <= i < a.len() implies a[i] == b[i] by {
        assert(pa[12 + i] == a[i]);
        assert(pb[12 + i] == b[i]);
    }
    assert(a =~= b);
}

/// The same for payload paths, with the two-character shard.
pub proof fn lemma_blob_path_injective(a: Seq<char>, b: Seq<char>)
    requires
        a.len() >= 2,
        b.len() >= 2,
        spec_blob_path(a) == spec_blob_path(b),
    ensures
        a == b,
{
    reveal_strlit("/blobs/");
    reveal_strlit("/");
    let pa = spec_blob_path(a);
    let pb = spec_blob_path(b);
    assert(pa.len() == 7 + 2 + 1 + a.len());
    assert(pb.len() == 7 + 2 + 1 + b.len());
    assert(a.len() == b.len());
    assert forall|i: int| 0 <= i < a.len() implies a[i] == b[i] by {
        assert(pa[10 + i] == a[i]);
        assert(pb[10 + i] == b[i]);
    }
    assert(a =~= b);
}

/// The same for mailbox paths, which are not sharded.
pub proof fn lemma_mailbox_path_injective(a: Seq<char>, b: Seq<char>)
    requires
        spec_mailbox_path(a) == spec_mailbox_path(b),
    ensures
        a == b,
{
    reveal_strlit("/mailboxes/");
    reveal_strlit(".json");
    let pa = spec_mailbox_path(a);
    let pb = spec_mailbox_path(b);
    assert(pa.len() == 11 + a.len() + 5);
    assert(pb.len() == 11 + b.len() + 5);
    assert(a.len() == b.len());
    assert forall|i: int| 0 <= i < a.len() implies a[i] == b[i] by {
        assert(pa[11 + i] == a[i]);
        assert(pb[11 + i] == b[i]);
    }
    assert(a =~= b);
}

} // verus!
