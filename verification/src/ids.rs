//! Well-formedness of the opaque, server-assigned identifiers.
//!
//! Identifiers are treated as opaque strings, but the storage layout and the
//! checkpoint file format both embed them verbatim, so the library restricts
//! itself to identifiers made of printable ASCII characters that need no
//! escaping in a path or in a JSON string literal.

use vstd::prelude::*;

verus! {

/// A character that may stand verbatim inside a storage path segment and
/// inside a JSON string literal: printable ASCII, no quote, no backslash,
/// no path separator.
pub open spec fn id_char_ok(c: char) -> bool {
    &&& ' ' < c
    &&& c <= '~'
    &&& c != '"'
    &&& c != '\\'
    &&& c != '/'
}

/// A well-formed identifier: nonempty, every character plain.
pub open spec fn id_wf(s: Seq<char>) -> bool {
    &&& s.len() > 0
    &&& forall|i: int| 0 <= i < s.len() ==> id_char_ok(#[trigger] s[i])
}

/// Runtime check matching `id_wf` exactly.
pub fn id_ok(s: &str) -> (r: bool)
    ensures
        r == id_wf(s@),
{
    let len: usize = s.unicode_len();
    if len == 0 {
        return false;
    }
    let mut i: usize = 0;
    while i < len
        invariant
            0 < len == s@.len(),
            0 <= i <= len,
            forall|j: int| 0 <= j < i ==> id_char_ok(#[trigger] s@[j]),
        decreases len - i,
    {
        let c = s.get_char(i);
        if !(' ' < c && c <= '~' && c != '"' && c != '\\' && c != '/') {
            return false;
        }
        i = i + 1;
    }
    true
}

/// A well-formed identifier is all ASCII.
pub proof fn lemma_id_wf_ascii(s: Seq<char>)
    requires
        id_wf(s),
    ensures
        vstd::utf8::is_ascii_chars(s),
{
    assert forall|i: int| 0 <= i < s.len() implies '\0' <= #[trigger] s[i] <= '\u{7f}' by {
        assert(id_char_ok(s[i]));
    }
}

} // verus!
