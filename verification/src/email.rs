//! The message attributes that the sync, indexing and restore logic read.

use vstd::prelude::*;
use crate::restore::sid_in;

verus! {

/// One name/address pair of a message header.
#[derive(Debug, Clone)]
pub struct EmailAddress {
    pub name: Option<String>,
    pub email: String,
}

/// The attributes of a message that this library reads: identity, payload
/// reference, addressing, receipt time and mailbox membership.
#[derive(Debug, Clone)]
pub struct EmailMeta {
    pub id: String,
    pub blob_id: String,
    pub subject: Option<String>,
    pub from: Vec<EmailAddress>,
    pub to: Vec<EmailAddress>,
    pub cc: Vec<EmailAddress>,
    pub received_at: i64,
    pub mailbox_ids: Vec<String>,
}

/// Whether some message of `emails` is a member of mailbox `id`.
pub open spec fn referenced_in(emails: Seq<EmailMeta>, id: Seq<char>) -> bool {
    exists|e: int, t: int|
        0 <= e < emails.len() && 0 <= t < emails[e].mailbox_ids@.len()
            && #[trigger] emails[e].mailbox_ids@[t]@ == id
}

/// The mailbox identifiers referenced by the messages' membership fields,
/// each once.
pub fn mailbox_ids_of_emails(emails: &Vec<EmailMeta>) -> (r: Vec<String>)
    ensures
        forall|id: Seq<char>| #![auto] sid_in(r@, id) <==> referenced_in(emails@, id),
        forall|a: int, b: int| 0 <= a < b < r@.len() ==> r@[a]@ != r@[b]@,
{
    let mut r: Vec<String> = Vec::new();
    let mut e: usize = 0;
    while e < emails.len()
        invariant
            e <= emails@.len(),
            forall|id: Seq<char>| #![auto] sid_in(r@, id) ==> referenced_in(emails@, id),
            forall|e2: int, t: int|
                0 <= e2 < e && 0 <= t < emails@[e2].mailbox_ids@.len() ==> sid_in(
                    r@,
                    #[trigger] emails@[e2].mailbox_ids@[t]@,
                ),
            forall|a: int, b: int| 0 <= a < b < r@.len() ==> r@[a]@ != r@[b]@,
        decreases emails@.len() - e,
    {
        let mut t: usize = 0;
        while t < emails[e].mailbox_ids.len()
            invariant
                e < emails@.len(),
                t <= emails@[e as int].mailbox_ids@.len(),
                forall|id: Seq<char>| #![auto] sid_in(r@, id) ==> referenced_in(emails@, id),
                forall|e2: int, t2: int|
                    0 <= e2 < e && 0 <= t2 < emails@[e2].mailbox_ids@.len() ==> sid_in(
                        r@,
                        #[trigger] emails@[e2].mailbox_ids@[t2]@,
                    ),
                forall|t2: int|
                    0 <= t2 < t ==> sid_in(
                        r@,
                        #[trigger] emails@[e as int].mailbox_ids@[t2]@,
                    ),
                forall|a: int, b: int| 0 <= a < b < r@.len() ==> r@[a]@ != r@[b]@,
            decreases emails@[e as int].mailbox_ids@.len() - t,
        {
            let ghost old_r = r@;
            let id = &emails[e].mailbox_ids[t];
            let mut seen = false;
            let mut k: usize = 0;
            while k < r.len()
                invariant
                    k <= r@.len(),
                    seen <==> exists|j: int| 0 <= j < k && #[trigger] r@[j]@ == id@,
                decreases r@.len() - k,
            {
                if r[k].eq(id) {
                    seen = true;
                    proof {
                        assert(r@[k as int]@ == id@);
                    }
                }
                k = k + 1;
            }
            if !seen {
                proof {
                    assert forall|j: int| 0 <= j < r@.len() implies #[trigger] r@[j]@ != id@ by {}
                }
                r.push(id.clone());
                proof {
                    assert(r@[r@.len() - 1]@ == id@);
                    assert forall|a: int, b: int| 0 <= a < b < r@.len() implies r@[a]@
                        != r@[b]@ by {
                        if b == r@.len() - 1 {
                            assert(r@[a] == old_r[a]);
                        }
                    }
                    assert forall|idq: Seq<char>| #![auto] sid_in(r@, idq) implies sid_in(old_r, idq)
                        || idq == id@ by {
                        let j = choose|j: int| 0 <= j < r@.len() && r@[j]@ == idq;
                        if j < old_r.len() {
                            assert(old_r[j]@ == idq);
                        }
                    }
                    assert forall|idq: Seq<char>| #![auto] sid_in(old_r, idq) implies sid_in(
                        r@,
                        idq,
                    ) by {
                        let j = choose|j: int| 0 <= j < old_r.len() && old_r[j]@ == idq;
                        assert(r@[j]@ == idq);
                    }
                    assert(referenced_in(emails@, id@)) by {
                        assert(emails@[e as int].mailbox_ids@[t as int]@ == id@);
                    }
                }
            } else {
                proof {
                    assert(sid_in(r@, id@)) by {
                        let j = choose|j: int| 0 <= j < r@.len() && r@[j]@ == id@;
                    }
                }
            }
            proof {
                assert(sid_in(r@, emails@[e as int].mailbox_ids@[t as int]@));
            }
            t = t + 1;
        }
        e = e + 1;
    }
    r
}

} // verus!
