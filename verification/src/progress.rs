//! The watermark checkpoint of the message sync pass: the receipt time of
//! the most recently durably processed message, stored as a JSON object
//! `{"lastProcessedDate":"<RFC 3339>"}` under the progress path.
//!
//! On resume the watermark is stepped back by one second, trading a little
//! reprocessing for never skipping a message whose receipt time ties the
//! watermark at a page boundary.

use vstd::prelude::*;
use crate::civil::TS_MAX;
use crate::codec::{ascii_bytes, copy_range, match_ascii, push_ascii};
use crate::rfc3339::{format_rfc3339, parse_rfc3339, spec_rfc3339};

verus! {

/// Watermark checkpoint: seconds since the epoch of the last processed
/// receipt time.
#[derive(Clone, Copy, Debug, PartialEq, Eq, Structural)]
pub struct BackupProgress {
    pub last_processed_date: i64,
}

/// The watermark lies in the supported calendar range.
pub open spec fn progress_wf(p: BackupProgress) -> bool {
    0 <= p.last_processed_date < TS_MAX
}

/// The canonical checkpoint file of a watermark.
pub open spec fn spec_encode_progress(ts: int) -> Seq<u8> {
    ascii_bytes("{\"lastProcessedDate\":\""@) + spec_rfc3339(ts) + ascii_bytes("\"}"@)
}

/// The zero checkpoint of a first run: the epoch, before all mail.
pub fn initial_backup_progress() -> (p: BackupProgress)
    ensures
        p.last_processed_date == 0,
        progress_wf(p),
{
    BackupProgress { last_processed_date: 0 }
}

/// The cursor a resumed pass must use: the stored watermark stepped back
/// one second, floored at the epoch.
pub fn resume_cursor(p: &BackupProgress) -> (r: i64)
    requires
        progress_wf(*p),
    ensures
        r == if p.last_processed_date >= 1 {
            p.last_processed_date - 1
        } else {
            0int
        },
        0 <= r < TS_MAX,
{
    if p.last_processed_date >= 1 {
        p.last_processed_date - 1
    } else {
        0
    }
}

proof fn lemma_progress_literals()
    ensures
        "{\"lastProcessedDate\":\""@.len() == 22,
        "\"}"@.len() == 2,
        vstd::string::is_ascii("{\"lastProcessedDate\":\""),
        vstd::string::is_ascii("\"}"),
{
    reveal_strlit("{\"lastProcessedDate\":\"");
    reveal_strlit("\"}");
}

/// Encode a watermark checkpoint in its canonical byte form.
pub fn encode_backup_progress(p: &BackupProgress) -> (r: Vec<u8>)
    requires
        progress_wf(*p),
    ensures
        r@ == spec_encode_progress(p.last_processed_date as int),
{
    proof {
        lemma_progress_literals();
    }
    let mut r: Vec<u8> = Vec::new();
    push_ascii(&mut r, "{\"lastProcessedDate\":\"");
    let mut t = format_rfc3339(p.last_processed_date);
    r.append(&mut t);
    push_ascii(&mut r, "\"}");
    r
}

/// Decode a watermark checkpoint. Returns the checkpoint exactly when the
/// input is the canonical byte form of some supported watermark.
pub fn parse_backup_progress(v: &Vec<u8>) -> (r: Option<BackupProgress>)
    ensures
        match r {
            Some(p) => progress_wf(p) && v@ == spec_encode_progress(p.last_processed_date as int),
            None => forall|ts: int| 0 <= ts < TS_MAX ==> v@ != spec_encode_progress(ts),
        },
{
    proof {
        lemma_progress_literals();
        assert forall|ts: int| 0 <= ts < TS_MAX implies ({
            &&& spec_encode_progress(ts).len() == 44
            &&& spec_encode_progress(ts).subrange(0, 22) =~= ascii_bytes(
                "{\"lastProcessedDate\":\""@,
            )
            &&& spec_encode_progress(ts).subrange(22, 42) =~= spec_rfc3339(ts)
            &&& spec_encode_progress(ts).subrange(42, 44) =~= ascii_bytes("\"}"@)
        }) by {
            crate::rfc3339::lemma_rfc3339_literal(crate::civil::spec_civil_of(ts));
        }
    }
    if v.len() != 44 {
        return None;
    }
    if !match_ascii(v, 0, "{\"lastProcessedDate\":\"") {
        return None;
    }
    let mid = copy_range(v, 22, 42);
    let ts_opt = parse_rfc3339(&mid);
    match ts_opt {
        None => {
            return None;
        },
        Some(ts) => {
            if !match_ascii(v, 42, "\"}") {
                return None;
            }
            proof {
                assert(v@ =~= v@.subrange(0, 22) + v@.subrange(22, 42) + v@.subrange(42, 44));
            }
            Some(BackupProgress { last_processed_date: ts })
        },
    }
}

/// A sink for sync progress reporting: a position that can be read, set and
/// advanced, and a total that can be announced.
pub trait Progressable {
    spec fn spec_pos(&self) -> u64;

    fn position(&self) -> (r: u64)
        ensures
            r == self.spec_pos(),
    ;

    fn set_position(&mut self, position: u64)
        ensures
            final(self).spec_pos() == position,
    ;

    fn inc(&mut self, increment: u64)
        requires
            old(self).spec_pos() + increment <= u64::MAX,
        ensures
            final(self).spec_pos() == old(self).spec_pos() + increment,
    {
        let p = self.position();
        self.set_position(p + increment);
    }

    fn set_length(&mut self, total: u64);
}

/// The plain in-memory progress sink.
pub struct CountingProgress {
    pub pos: u64,
    pub len: u64,
}

impl CountingProgress {
    pub fn new() -> (r: CountingProgress)
        ensures
            r.pos == 0,
            r.len == 0,
    {
        CountingProgress { pos: 0, len: 0 }
    }
}

impl Progressable for CountingProgress {
    open spec fn spec_pos(&self) -> u64 {
        self.pos
    }

    fn position(&self) -> (r: u64) {
        self.pos
    }

    fn set_position(&mut self, position: u64) {
        self.pos = position;
    }

    fn set_length(&mut self, total: u64) {
        self.len = total;
    }
}

} // verus!
