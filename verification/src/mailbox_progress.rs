//! The offset checkpoint of the mailbox sync pass: a count of processed
//! items and the set of their identifiers, stored as a JSON object
//! `{"position":N,"items":["id",...]}` under the progress path.
//!
//! Mailboxes have no stable chronological field, so the cursor is a
//! monotonic count; the identifier set makes re-runs auditable. The count
//! always equals the number of identifiers.
//!
//! Checkpoint files are written by this library alone, and the parser
//! accepts exactly the canonical byte form the encoder produces: a
//! checkpoint written by another tool — even one differing only in JSON
//! whitespace — is refused, and the caller surfaces the decode error
//! rather than silently starting over.

use vstd::prelude::*;
use crate::codec::{ascii_bytes, match_ascii, parse_dec, push_ascii, push_dec, string_from_ascii};
use crate::digits::{dec_digits, dec_value, is_digit_b, lemma_dec_digits_shape,
    lemma_dec_digits_value};
use crate::ids::{id_char_ok, id_wf, lemma_id_wf_ascii};

verus! {

/// Offset checkpoint: how many items have been processed, and which.
#[derive(Debug, Clone)]
pub struct BackupProgress {
    pub position: usize,
    pub items: Vec<String>,
}

/// The identifier texts of the checkpoint items.
pub open spec fn items_view(items: Seq<String>) -> Seq<Seq<char>> {
    items.map_values(|s: String| s@)
}

/// The count equals the number of identifiers, the identifiers are
/// well-formed, and none repeats.
pub open spec fn offset_wf(p: BackupProgress) -> bool {
    &&& p.position == p.items@.len()
    &&& forall|j: int| 0 <= j < p.items@.len() ==> id_wf(#[trigger] p.items@[j]@)
    &&& forall|a: int, b: int| 0 <= a < b < p.items@.len() ==> p.items@[a]@ != p.items@[b]@
}

/// A well-formed encodable checkpoint content.
pub open spec fn offset_encodable(pos: int, items: Seq<Seq<char>>) -> bool {
    &&& pos == items.len()
    &&& forall|j: int| 0 <= j < items.len() ==> id_wf(#[trigger] items[j])
    &&& forall|a: int, b: int| 0 <= a < b < items.len() ==> items[a] != items[b]
}

/// An identifier in quotes.
pub open spec fn quoted(s: Seq<char>) -> Seq<u8> {
    seq![34u8] + ascii_bytes(s) + seq![34u8]
}

/// The items after the first: a comma before each.
pub open spec fn enc_items_rest(items: Seq<Seq<char>>) -> Seq<u8>
    decreases items.len(),
{
    if items.len() == 0 {
        Seq::empty()
    } else {
        seq![44u8] + quoted(items[0]) + enc_items_rest(items.drop_first())
    }
}

/// The items, comma-separated.
pub open spec fn enc_items(items: Seq<Seq<char>>) -> Seq<u8> {
    if items.len() == 0 {
        Seq::empty()
    } else {
        quoted(items[0]) + enc_items_rest(items.drop_first())
    }
}

/// The canonical checkpoint file of an offset cursor.
pub open spec fn spec_encode_offset(pos: int, items: Seq<Seq<char>>) -> Seq<u8> {
    ascii_bytes("{\"position\":"@) + dec_digits(pos) + ascii_bytes(",\"items\":["@) + enc_items(
        items,
    ) + ascii_bytes("]}"@)
}

/// The zero checkpoint of a first run.
pub fn initial_backup_progress() -> (p: BackupProgress)
    ensures
        p.position == 0,
        p.items@.len() == 0,
        offset_wf(p),
{
    BackupProgress { position: 0, items: Vec::new() }
}

proof fn lemma_offset_literals()
    ensures
        "{\"position\":"@.len() == 12,
        ",\"items\":["@.len() == 10,
        "]}"@.len() == 2,
        vstd::string::is_ascii("{\"position\":"),
        vstd::string::is_ascii(",\"items\":["),
        vstd::string::is_ascii("]}"),
        ascii_bytes(",\"items\":["@)[0] == 44u8,
        ascii_bytes("]}"@)[0] == 93u8,
        ascii_bytes("]}"@)[1] == 125u8,
{
    reveal_strlit("{\"position\":");
    reveal_strlit(",\"items\":[");
    reveal_strlit("]}");
}

/// Appending one more item to the encoded list.
proof fn lemma_enc_items_snoc(items: Seq<Seq<char>>, x: Seq<char>)
    ensures
        items.len() == 0 ==> enc_items(items.push(x)) == quoted(x),
        items.len() > 0 ==> enc_items(items.push(x)) == enc_items(items) + seq![44u8] + quoted(x),
    decreases items.len(),
{
    if items.len() == 0 {
        assert(items.push(x).drop_first() =~= Seq::<Seq<char>>::empty());
        assert(items.push(x)[0] == x);
        assert(enc_items(items.push(x)) =~= quoted(x));
    } else {
        lemma_enc_rest_snoc(items.drop_first(), x);
        assert(items.push(x).drop_first() =~= items.drop_first().push(x));
        assert(enc_items(items.push(x)) == quoted(items[0]) + enc_items_rest(
            items.drop_first().push(x),
        ));
        if items.drop_first().len() == 0 {
            assert(items.drop_first().push(x)[0] == x);
            assert(enc_items_rest(Seq::<Seq<char>>::empty()) =~= Seq::<u8>::empty());
            assert(items.drop_first() =~= Seq::<Seq<char>>::empty());
            assert(enc_items_rest(items.drop_first()) =~= Seq::<u8>::empty());
            assert(enc_items(items) =~= quoted(items[0]));
            assert(enc_items(items.push(x)) =~= enc_items(items) + seq![44u8] + quoted(x));
        } else {
            assert(enc_items(items.push(x)) =~= enc_items(items) + seq![44u8] + quoted(x));
        }
    }
}

proof fn lemma_enc_rest_snoc(items: Seq<Seq<char>>, x: Seq<char>)
    ensures
        enc_items_rest(items.push(x)) == enc_items_rest(items) + seq![44u8] + quoted(x),
    decreases items.len(),
{
    if items.len() == 0 {
        assert(items.push(x).drop_first() =~= Seq::<Seq<char>>::empty());
        assert(items.push(x)[0] == x);
        assert(enc_items_rest(Seq::<Seq<char>>::empty()) =~= Seq::<u8>::empty());
        assert(enc_items_rest(items.push(x)) =~= enc_items_rest(items) + seq![44u8] + quoted(x));
    } else {
        lemma_enc_rest_snoc(items.drop_first(), x);
        assert(items.push(x).drop_first() =~= items.drop_first().push(x));
        assert(items.push(x)[0] == items[0]);
        assert(enc_items_rest(items.push(x)) =~= enc_items_rest(items) + seq![44u8] + quoted(x));
    }
}

/// Append an identifier in quotes.
fn push_quoted(v: &mut Vec<u8>, s: &String)
    requires
        id_wf(s@),
    ensures
        final(v)@ == old(v)@ + quoted(s@),
{
    proof {
        lemma_id_wf_ascii(s@);
    }
    v.push(34);
    push_ascii(v, s.as_str());
    v.push(34);
    proof {
        assert(final(v)@ =~= old(v)@ + quoted(s@));
    }
}

/// Encode an offset checkpoint in its canonical byte form.
pub fn encode_backup_progress(p: &BackupProgress) -> (r: Vec<u8>)
    requires
        offset_wf(*p),
    ensures
        r@ == spec_encode_offset(p.position as int, items_view(p.items@)),
{
    proof {
        lemma_offset_literals();
    }
    let mut r: Vec<u8> = Vec::new();
    push_ascii(&mut r, "{\"position\":");
    push_dec(&mut r, p.position as u64);
    push_ascii(&mut r, ",\"items\":[");
    let ghost base = r@;
    let mut k: usize = 0;
    while k < p.items.len()
        invariant
            offset_wf(*p),
            k <= p.items@.len(),
            base == ascii_bytes("{\"position\":"@) + dec_digits(p.position as int) + ascii_bytes(
                ",\"items\":["@,
            ),
            r@ == base + enc_items(items_view(p.items@).take(k as int)),
        decreases p.items@.len() - k,
    {
        if k > 0 {
            r.push(44);
        }
        push_quoted(&mut r, &p.items[k]);
        proof {
            let iv = items_view(p.items@);
            lemma_enc_items_snoc(iv.take(k as int), p.items@[k as int]@);
            assert(iv.take(k + 1) =~= iv.take(k as int).push(iv[k as int]));
            assert(iv[k as int] == p.items@[k as int]@);
            if k == 0 {
                assert(r@ =~= base + enc_items(iv.take(k + 1)));
            } else {
                assert(r@ =~= base + enc_items(iv.take(k + 1)));
            }
        }
        k = k + 1;
    }
    push_ascii(&mut r, "]}");
    proof {
        assert(items_view(p.items@).take(p.items@.len() as int) =~= items_view(p.items@));
        assert(r@ =~= spec_encode_offset(p.position as int, items_view(p.items@)));
    }
    r
}

/// A byte that may stand inside a quoted identifier.
pub open spec fn id_byte_ok(b: u8) -> bool {
    32 < b <= 126 && b != 34 && b != 92 && b != 47
}

/// Identifier characters and identifier bytes correspond one to one.
proof fn lemma_id_byte_char(c: char)
    requires
        id_char_ok(c),
    ensures
        id_byte_ok(c as u8),
        (c as u8) as char == c,
{
}

/// Scan a quoted well-formed identifier at position `i`. Succeeds exactly
/// on the quoted form of a nonempty identifier of plain characters.
fn parse_qstring(v: &Vec<u8>, i: usize) -> (r: Option<(String, usize)>)
    requires
        i <= v@.len(),
    ensures
        match r {
            Some((s, j)) => {
                &&& i < j <= v@.len()
                &&& id_wf(s@)
                &&& v@.subrange(i as int, j as int) == quoted(s@)
            },
            None => forall|t: Seq<char>|
                id_wf(t) ==> !(i + quoted(t).len() <= v@.len() && v@.subrange(
                    i as int,
                    i + quoted(t).len(),
                ) == #[trigger] quoted(t)),
        },
{
    proof {
        assert forall|t: Seq<char>| id_wf(t) implies (#[trigger] quoted(t)).len() == t.len()
            + 2 by {}
    }
    if i == v.len() || v[i] != 34 {
        proof {
            assert forall|t: Seq<char>|
                id_wf(t) && i + quoted(t).len() <= v@.len() implies v@.subrange(
                i as int,
                i + quoted(t).len(),
            ) != #[trigger] quoted(t) by {
                if v@.subrange(i as int, i + quoted(t).len()) == quoted(t) {
                    assert(v@[i as int] == quoted(t)[0]);
                    assert(quoted(t)[0] == 34u8);
                }
            }
        }
        return None;
    }
    let mut j: usize = i + 1;
    loop
        invariant
            i < j <= v@.len(),
            i < v@.len(),
            v@[i as int] == 34u8,
            forall|k: int| i < k < j ==> id_byte_ok(#[trigger] v@[k]),
        ensures
            i < j <= v@.len(),
            forall|k: int| i < k < j ==> id_byte_ok(#[trigger] v@[k]),
            j == v@.len() || !id_byte_ok(v@[j as int]),
        decreases v@.len() - j,
    {
        if j == v.len() {
            break;
        }
        let b = v[j];
        if !(32 < b && b <= 126 && b != 34 && b != 92 && b != 47) {
            break;
        }
        j = j + 1;
    }
    if j == v.len() || v[j] != 34 || j == i + 1 {
        proof {
            assert forall|t: Seq<char>|
                id_wf(t) && i + quoted(t).len() <= v@.len() implies v@.subrange(
                i as int,
                i + quoted(t).len(),
            ) != #[trigger] quoted(t) by {
                if v@.subrange(i as int, i + quoted(t).len()) == quoted(t) {
                    let e = i + 1 + t.len();
                    // every byte of the identifier is an identifier byte
                    assert forall|k: int| i < k < e implies id_byte_ok(#[trigger] v@[k]) by {
                        assert(v@[k] == quoted(t)[k - i]);
                        assert(quoted(t)[k - i] == ascii_bytes(t)[k - i - 1]);
                        lemma_id_byte_char(t[k - i - 1]);
                    }
                    assert(v@[e] == quoted(t)[t.len() as int + 1]);
                    assert(v@[e] == 34u8);
                    // the scan stops exactly at the closing quote
                    if j < e {
                        assert(id_byte_ok(v@[j as int]));
                        assert(false);
                    }
                    if j > e {
                        assert(id_byte_ok(v@[e]));
                        assert(false);
                    }
                    assert(j == e);
                    assert(t.len() >= 1);
                    assert(false);
                }
            }
        }
        return None;
    }
    // bytes i+1 .. j hold the identifier; j holds the closing quote
    let mid = crate::codec::copy_range(v, i + 1, j);
    proof {
        assert forall|k: int| 0 <= k < mid@.len() implies mid@[k] < 128 by {
            assert(mid@[k] == v@[i + 1 + k]);
            assert(id_byte_ok(v@[i + 1 + k]));
        }
    }
    let s = string_from_ascii(mid);
    proof {
        assert forall|k: int| 0 <= k < s@.len() implies id_char_ok(#[trigger] s@[k]) by {
            assert(s@[k] == mid@[k] as char);
            assert(mid@[k] == v@[i + 1 + k]);
            assert(id_byte_ok(v@[i + 1 + k]));
        }
        assert(id_wf(s@));
        lemma_id_wf_ascii(s@);
        assert(v@.subrange(i as int, j + 1) =~= quoted(s@)) by {
            assert(quoted(s@).len() == s@.len() + 2);
            assert(s@.len() == j - i - 1);
            assert forall|k: int| 0 <= k < quoted(s@).len() implies v@.subrange(i as int, j + 1)[k]
                == quoted(s@)[k] by {
                if k == 0 {
                } else if k == quoted(s@).len() - 1 {
                } else {
                    assert(quoted(s@)[k] == ascii_bytes(s@)[k - 1]);
                    assert(ascii_bytes(s@)[k - 1] == s@[k - 1] as u8);
                    assert(s@[k - 1] == mid@[k - 1] as char);
                    assert(mid@[k - 1] == v@[i + k]);
                    assert(id_byte_ok(v@[i + k]));
                }
            }
        };
    }
    Some((s, j + 1))
}

/// All identifiers of a ghost item list are well-formed.
pub open spec fn all_wf(items: Seq<Seq<char>>) -> bool {
    forall|t: int| 0 <= t < items.len() ==> id_wf(#[trigger] items[t])
}

/// Two maximal digit runs at one position are the same run.
proof fn lemma_digit_run_unique(v: Seq<u8>, i: int, a: int, b: int)
    requires
        0 <= i <= a <= v.len(),
        i <= b <= v.len(),
        forall|k: int| i <= k < a ==> is_digit_b(#[trigger] v[k]),
        forall|k: int| i <= k < b ==> is_digit_b(#[trigger] v[k]),
        a == v.len() || !is_digit_b(v[a]),
        b == v.len() || !is_digit_b(v[b]),
    ensures
        a == b,
{
    if a < b {
        assert(is_digit_b(v[a]));
    }
    if b < a {
        assert(is_digit_b(v[b]));
    }
}

/// Every byte of a decimal form is a digit (quantified helper).
proof fn lemma_run_digits(v: Seq<u8>, i: int, n: int)
    requires
        0 <= i,
        n >= 0,
        i + dec_digits(n).len() <= v.len(),
        v.subrange(i, i + dec_digits(n).len()) == dec_digits(n),
    ensures
        forall|k: int| i <= k < i + dec_digits(n).len() ==> is_digit_b(#[trigger] v[k]),
{
    lemma_dec_digits_shape(n);
    assert forall|k: int| i <= k < i + dec_digits(n).len() implies is_digit_b(
        #[trigger] v[k],
    ) by {
        assert(v[k] == dec_digits(n)[k - i]);
    }
}

/// Two quoted identifiers at one position are the same identifier.
proof fn lemma_quoted_unique(v: Seq<u8>, p: int, s: Seq<char>, t: Seq<char>)
    requires
        id_wf(s),
        id_wf(t),
        0 <= p,
        p + quoted(s).len() <= v.len(),
        p + quoted(t).len() <= v.len(),
        v.subrange(p, p + quoted(s).len()) == quoted(s),
        v.subrange(p, p + quoted(t).len()) == quoted(t),
    ensures
        s == t,
{
    if s.len() < t.len() {
        let e = p + 1 + s.len();
        assert(v[e] == quoted(s)[s.len() as int + 1]);
        assert(v[e] == quoted(t)[s.len() as int + 1]);
        assert(quoted(t)[s.len() as int + 1] == ascii_bytes(t)[s.len() as int]);
        lemma_id_byte_char(t[s.len() as int]);
        assert(false);
    }
    if t.len() < s.len() {
        let e = p + 1 + t.len();
        assert(v[e] == quoted(t)[t.len() as int + 1]);
        assert(v[e] == quoted(s)[t.len() as int + 1]);
        assert(quoted(s)[t.len() as int + 1] == ascii_bytes(s)[t.len() as int]);
        lemma_id_byte_char(s[t.len() as int]);
        assert(false);
    }
    assert forall|k: int| 0 <= k < s.len() implies s[k] == t[k] by {
        assert(v[p + 1 + k] == quoted(s)[1 + k]);
        assert(v[p + 1 + k] == quoted(t)[1 + k]);
        assert(quoted(s)[1 + k] == ascii_bytes(s)[k]);
        assert(quoted(t)[1 + k] == ascii_bytes(t)[k]);
        lemma_id_byte_char(s[k]);
        lemma_id_byte_char(t[k]);
        assert((s[k] as u8) as char == s[k]);
        assert((t[k] as u8) as char == t[k]);
    }
    assert(s =~= t);
}

/// Two encoded item tails ending at a closing bracket, read from one
/// position, are the same tail.
proof fn lemma_enc_rest_prefix_unique(
    v: Seq<u8>,
    p: int,
    a: Seq<Seq<char>>,
    b: Seq<Seq<char>>,
    ja: int,
    jb: int,
)
    requires
        all_wf(a),
        all_wf(b),
        0 <= p <= ja <= v.len(),
        p <= jb <= v.len(),
        v.subrange(p, ja) == enc_items_rest(a) + seq![93u8],
        v.subrange(p, jb) == enc_items_rest(b) + seq![93u8],
    ensures
        ja == jb,
        a == b,
    decreases a.len(),
{
    let ea = enc_items_rest(a) + seq![93u8];
    let eb = enc_items_rest(b) + seq![93u8];
    assert(v.subrange(p, ja).len() == ja - p);
    assert(ea.len() == ja - p);
    assert(eb.len() == jb - p);
    assert(ea.len() >= 1 && eb.len() >= 1);
    assert(v[p] == v.subrange(p, ja)[0]);
    assert(v[p] == ea[0]);
    assert(v.subrange(p, jb)[0] == eb[0]);
    assert(v[p] == eb[0]);
    if a.len() == 0 && b.len() == 0 {
        assert(a =~= b);
        assert(ja == p + 1 && jb == p + 1);
    } else if a.len() == 0 {
        assert((enc_items_rest(a) + seq![93u8])[0] == 93u8);
        assert((enc_items_rest(b) + seq![93u8])[0] == 44u8);
        assert(false);
    } else if b.len() == 0 {
        assert((enc_items_rest(a) + seq![93u8])[0] == 44u8);
        assert((enc_items_rest(b) + seq![93u8])[0] == 93u8);
        assert(false);
    } else {
        let a0 = a[0];
        let b0 = b[0];
        assert(id_wf(a0) && id_wf(b0));
        // the quoted heads coincide
        assert(v.subrange(p + 1, p + 1 + quoted(a0).len() as int) =~= quoted(a0)) by {
            assert forall|k: int| 0 <= k < quoted(a0).len() implies v[p + 1 + k] == quoted(a0)[k] by {
                assert(v[p + 1 + k] == (enc_items_rest(a) + seq![93u8])[1 + k]);
            }
        };
        assert(v.subrange(p + 1, p + 1 + quoted(b0).len() as int) =~= quoted(b0)) by {
            assert forall|k: int| 0 <= k < quoted(b0).len() implies v[p + 1 + k] == quoted(b0)[k] by {
                assert(v[p + 1 + k] == (enc_items_rest(b) + seq![93u8])[1 + k]);
            }
        };
        lemma_quoted_unique(v, p + 1, a0, b0);
        let h = 1 + quoted(a0).len() as int;
        // the tails coincide from p + h
        assert(v.subrange(p + h, ja) =~= enc_items_rest(a.drop_first()) + seq![93u8]) by {
            assert forall|k: int|
                0 <= k < ja - p - h implies v[p + h + k] == (enc_items_rest(a.drop_first())
                + seq![93u8])[k] by {
                assert(v[p + h + k] == (enc_items_rest(a) + seq![93u8])[h + k]);
            }
        };
        assert(v.subrange(p + h, jb) =~= enc_items_rest(b.drop_first()) + seq![93u8]) by {
            assert forall|k: int|
                0 <= k < jb - p - h implies v[p + h + k] == (enc_items_rest(b.drop_first())
                + seq![93u8])[k] by {
                assert(v[p + h + k] == (enc_items_rest(b) + seq![93u8])[h + k]);
            }
        };
        assert(all_wf(a.drop_first())) by {
            assert forall|t: int| 0 <= t < a.drop_first().len() implies id_wf(
                #[trigger] a.drop_first()[t],
            ) by {
                assert(a.drop_first()[t] == a[t + 1]);
            }
        };
        assert(all_wf(b.drop_first())) by {
            assert forall|t: int| 0 <= t < b.drop_first().len() implies id_wf(
                #[trigger] b.drop_first()[t],
            ) by {
                assert(b.drop_first()[t] == b[t + 1]);
            }
        };
        lemma_enc_rest_prefix_unique(v, p + h, a.drop_first(), b.drop_first(), ja, jb);
        assert(a.drop_first() == b.drop_first());
        assert(a.len() == b.len());
        assert forall|k: int| 0 <= k < a.len() implies a[k] == b[k] by {
            if k > 0 {
                assert(a[k] == a.drop_first()[k - 1]);
                assert(b[k] == b.drop_first()[k - 1]);
            }
        }
        assert(a =~= b);
    }
}

/// Parse the item tail `( ',' string )* ']'` at position `i`. Succeeds
/// exactly when such a tail of well-formed identifiers stands there.
#[verifier::rlimit(100)]
#[verifier::spinoff_prover]
fn parse_items_rest(v: &Vec<u8>, i: usize) -> (r: Option<(Vec<String>, usize)>)
    requires
        i <= v@.len(),
    ensures
        match r {
            Some((items, j)) => {
                &&& i < j <= v@.len()
                &&& all_wf(items_view(items@))
                &&& v@.subrange(i as int, j as int) == enc_items_rest(items_view(items@))
                    + seq![93u8]
            },
            None => forall|witems: Seq<Seq<char>>, j2: int|
                #![trigger enc_items_rest(witems), v@.subrange(i as int, j2)]
                all_wf(witems) && i <= j2 <= v@.len() ==> v@.subrange(i as int, j2)
                    != enc_items_rest(witems) + seq![93u8],
        },
    decreases v@.len() - i,
{
    if i == v.len() {
        proof {
            assert forall|witems: Seq<Seq<char>>, j2: int|
                #![trigger enc_items_rest(witems), v@.subrange(i as int, j2)]
                all_wf(witems) && i <= j2 <= v@.len() implies v@.subrange(i as int, j2)
                != enc_items_rest(witems) + seq![93u8] by {
                assert(v@.subrange(i as int, j2).len() == 0);
            }
        }
        return None;
    }
    if v[i] == 93 {
        let items: Vec<String> = Vec::new();
        proof {
            assert(items_view(items@) =~= Seq::<Seq<char>>::empty());
            assert(v@.subrange(i as int, i + 1) =~= enc_items_rest(items_view(items@))
                + seq![93u8]);
        }
        return Some((items, i + 1));
    }
    if v[i] != 44 {
        proof {
            assert forall|witems: Seq<Seq<char>>, j2: int|
                #![trigger enc_items_rest(witems), v@.subrange(i as int, j2)]
                all_wf(witems) && i <= j2 <= v@.len() implies v@.subrange(i as int, j2)
                != enc_items_rest(witems) + seq![93u8] by {
                if v@.subrange(i as int, j2) == enc_items_rest(witems) + seq![93u8] {
                    let ew = enc_items_rest(witems) + seq![93u8];
                    assert(v@.subrange(i as int, j2).len() == j2 - i);
                    assert(ew.len() == j2 - i);
                    assert(v@[i as int] == v@.subrange(i as int, j2)[0]);
                    assert(v@[i as int] == ew[0]);
                    if witems.len() == 0 {
                        assert(v@[i as int] == 93u8);
                    } else {
                        assert(v@[i as int] == 44u8);
                    }
                }
            }
        }
        return None;
    }
    let q = parse_qstring(v, i + 1);
    match q {
        None => {
            proof {
                assert forall|witems: Seq<Seq<char>>, j2: int|
                    #![trigger enc_items_rest(witems), v@.subrange(i as int, j2)]
                    all_wf(witems) && i <= j2 <= v@.len() implies v@.subrange(i as int, j2)
                    != enc_items_rest(witems) + seq![93u8] by {
                    if v@.subrange(i as int, j2) == enc_items_rest(witems) + seq![93u8] {
                        let ew = enc_items_rest(witems) + seq![93u8];
                        assert(v@.subrange(i as int, j2).len() == j2 - i);
                        assert(ew.len() == j2 - i);
                        assert(v@[i as int] == v@.subrange(i as int, j2)[0]);
                        assert(v@[i as int] == ew[0]);
                        if witems.len() == 0 {
                            assert(v@[i as int] == 93u8);
                            assert(false);
                        }
                        let w0 = witems[0];
                        assert(id_wf(w0));
                        assert(enc_items_rest(witems) == seq![44u8] + quoted(w0) + enc_items_rest(
                            witems.drop_first(),
                        ));
                        assert(ew.len() == 2 + quoted(w0).len() + enc_items_rest(
                            witems.drop_first(),
                        ).len());
                        assert(i + 1 + quoted(w0).len() <= j2);
                        assert(v@.subrange(i + 1, i + 1 + quoted(w0).len() as int) =~= quoted(
                            w0,
                        )) by {
                            assert forall|k: int| 0 <= k < quoted(w0).len() implies v@[i + 1 + k]
                                == quoted(w0)[k] by {
                                assert(v@[i + 1 + k] == (enc_items_rest(witems) + seq![93u8])[1
                                    + k]);
                            }
                        };
                        assert(false);
                    }
                }
            }
            return None;
        },
        Some((s, jq)) => {
            let rest = parse_items_rest(v, jq);
            match rest {
                None => {
                    proof {
                        assert forall|witems: Seq<Seq<char>>, j2: int|
                            #![trigger enc_items_rest(witems), v@.subrange(i as int, j2)]
                            all_wf(witems) && i <= j2 <= v@.len() implies v@.subrange(i as int, j2)
                            != enc_items_rest(witems) + seq![93u8] by {
                            if v@.subrange(i as int, j2) == enc_items_rest(witems) + seq![93u8] {
                                let ew = enc_items_rest(witems) + seq![93u8];
                                assert(v@.subrange(i as int, j2).len() == j2 - i);
                                assert(ew.len() == j2 - i);
                                assert(v@[i as int] == v@.subrange(i as int, j2)[0]);
                                assert(v@[i as int] == ew[0]);
                                if witems.len() == 0 {
                                    assert(v@[i as int] == 93u8);
                                    assert(false);
                                }
                                let w0 = witems[0];
                                assert(id_wf(w0));
                                assert(enc_items_rest(witems) == seq![44u8] + quoted(w0)
                                    + enc_items_rest(witems.drop_first()));
                                assert(ew.len() == 2 + quoted(w0).len() + enc_items_rest(
                                    witems.drop_first(),
                                ).len());
                                assert(i + 1 + quoted(w0).len() <= j2);
                                assert(v@.subrange(i + 1, i + 1 + quoted(w0).len() as int)
                                    =~= quoted(w0)) by {
                                    assert forall|k: int|
                                        0 <= k < quoted(w0).len() implies v@[i + 1 + k] == quoted(
                                        w0,
                                    )[k] by {
                                        assert(v@[i + 1 + k] == (enc_items_rest(witems)
                                            + seq![93u8])[1 + k]);
                                    }
                                };
                                lemma_quoted_unique(v@, i + 1, s@, w0);
                                assert(jq == i + 1 + quoted(w0).len());
                                let wrest = witems.drop_first();
                                assert(all_wf(wrest)) by {
                                    assert forall|t: int| 0 <= t < wrest.len() implies id_wf(
                                        #[trigger] wrest[t],
                                    ) by {
                                        assert(wrest[t] == witems[t + 1]);
                                    }
                                };
                                assert(v@.subrange(jq as int, j2) =~= enc_items_rest(wrest)
                                    + seq![93u8]) by {
                                    let h = 1 + quoted(w0).len() as int;
                                    assert forall|k: int|
                                        0 <= k < j2 - jq implies v@[jq + k] == (enc_items_rest(
                                        wrest,
                                    ) + seq![93u8])[k] by {
                                        assert(v@[i + h + k] == (enc_items_rest(witems)
                                            + seq![93u8])[h + k]);
                                    }
                                };
                                assert(false);
                            }
                        }
                    }
                    return None;
                },
                Some((tail, j2)) => {
                    let ghost tail0 = tail@;
                    let mut items = tail;
                    items.insert(0, s);
                    proof {
                        assert(items@.drop_first() =~= tail0);
                        let iv = items_view(items@);
                        assert(iv.len() >= 1);
                        assert(iv[0] == s@);
                        assert(iv.drop_first() =~= items_view(items@.drop_first())) by {
                            assert forall|t: int|
                                0 <= t < iv.drop_first().len() implies iv.drop_first()[t]
                                == items_view(items@.drop_first())[t] by {
                                assert(iv.drop_first()[t] == items@[t + 1]@);
                            }
                        };
                        assert(all_wf(iv)) by {
                            assert forall|t: int| 0 <= t < iv.len() implies id_wf(
                                #[trigger] iv[t],
                            ) by {
                                if t == 0 {
                                } else {
                                    assert(iv[t] == items@[t]@);
                                    assert(items@[t] == tail0[t - 1]);
                                    assert(items_view(tail0)[t - 1] == tail0[t - 1]@);
                                }
                            }
                        };
                        assert(v@.subrange(i as int, j2 as int) =~= enc_items_rest(iv)
                            + seq![93u8]) by {
                            let qs = quoted(s@);
                            let rest_enc = enc_items_rest(items_view(items@.drop_first()))
                                + seq![93u8];
                            assert(v@.subrange(i + 1, jq as int) == qs);
                            assert(v@.subrange(jq as int, j2 as int) == rest_enc);
                            assert(enc_items_rest(iv) + seq![93u8] =~= seq![44u8] + qs + rest_enc);
                            assert forall|k: int|
                                0 <= k < j2 - i implies v@.subrange(i as int, j2 as int)[k] == (
                            seq![44u8] + qs + rest_enc)[k] by {
                                if k == 0 {
                                } else if k < 1 + qs.len() {
                                    assert(v@[i + k] == v@.subrange(i + 1, jq as int)[k - 1]);
                                } else {
                                    assert(v@[i + k] == v@.subrange(jq as int, j2 as int)[k - 1
                                        - qs.len()]);
                                }
                            }
                        };
                    }
                    Some((items, j2))
                },
            }
        },
    }
}

/// How the pieces of a canonical offset checkpoint file lie in the bytes.
proof fn lemma_offset_layout(v: Seq<u8>, pos: int, witems: Seq<Seq<char>>)
    requires
        pos >= 0,
        v == spec_encode_offset(pos, witems),
    ensures
        ({
            let dl = dec_digits(pos).len() as int;
            let il = enc_items(witems).len() as int;
            &&& v.len() == 24 + dl + il
            &&& v.subrange(0, 12) == ascii_bytes("{\"position\":"@)
            &&& v.subrange(12, 12 + dl) == dec_digits(pos)
            &&& v[12 + dl] == 44u8
            &&& v.subrange(12 + dl, 22 + dl) == ascii_bytes(",\"items\":["@)
            &&& v.subrange(22 + dl, 22 + dl + il) == enc_items(witems)
            &&& v[v.len() - 2] == 93u8
            &&& v[v.len() - 1] == 125u8
        }),
{
    lemma_offset_literals();
    let l1 = ascii_bytes("{\"position\":"@);
    let dd = dec_digits(pos);
    let l2 = ascii_bytes(",\"items\":["@);
    let ei = enc_items(witems);
    let l3 = ascii_bytes("]}"@);
    let dl = dd.len() as int;
    let il = ei.len() as int;
    assert(v.len() == 24 + dl + il);
    assert(v.subrange(0, 12) =~= l1);
    assert(v.subrange(12, 12 + dl) =~= dd);
    assert(v[12 + dl] == l2[0]);
    assert(v.subrange(12 + dl, 22 + dl) =~= l2);
    assert(v.subrange(22 + dl, 22 + dl + il) =~= ei);
    assert(v[v.len() - 2] == l3[0]);
    assert(v[v.len() - 1] == l3[1]);
}

/// Whether all identifier texts differ.
fn strings_distinct(items: &Vec<String>) -> (r: bool)
    ensures
        r == (forall|a: int, b: int| 0 <= a < b < items@.len() ==> items@[a]@ != items@[b]@),
{
    let mut t: usize = 1;
    while t < items.len()
        invariant
            1 <= t <= items@.len() || items@.len() == 0,
            forall|a: int, b: int| 0 <= a < b < t ==> items@[a]@ != items@[b]@,
        decreases items@.len() - t,
    {
        let mut a: usize = 0;
        while a < t
            invariant
                a <= t < items@.len(),
                forall|k: int| 0 <= k < a ==> #[trigger] items@[k]@ != items@[t as int]@,
            decreases t - a,
        {
            if items[a].eq(&items[t]) {
                return false;
            }
            a = a + 1;
        }
        t = t + 1;
    }
    true
}

/// Decode an offset checkpoint. Returns the checkpoint exactly when the
/// input is the canonical byte form of some well-formed offset checkpoint.
#[verifier::rlimit(100)]
#[verifier::spinoff_prover]
pub fn parse_backup_progress(v: &Vec<u8>) -> (r: Option<BackupProgress>)
    ensures
        match r {
            Some(p) => offset_wf(p) && v@ == spec_encode_offset(
                p.position as int,
                items_view(p.items@),
            ),
            None => forall|pos: int, witems: Seq<Seq<char>>|
                offset_encodable(pos, witems) && pos <= usize::MAX ==> v@
                    != #[trigger] spec_encode_offset(pos, witems),
        },
{
    proof {
        lemma_offset_literals();
    }
    if !match_ascii(v, 0, "{\"position\":") {
        proof {
            assert forall|pos: int, witems: Seq<Seq<char>>|
                offset_encodable(pos, witems) && pos <= usize::MAX implies v@
                != #[trigger] spec_encode_offset(pos, witems) by {
                if v@ == spec_encode_offset(pos, witems) {
                    lemma_offset_layout(v@, pos, witems);
                }
            }
        }
        return None;
    }
    let dec = parse_dec(v, 12);
    match dec {
        None => {
            proof {
                assert forall|pos: int, witems: Seq<Seq<char>>|
                    offset_encodable(pos, witems) && pos <= usize::MAX implies v@
                    != #[trigger] spec_encode_offset(pos, witems) by {
                    if v@ == spec_encode_offset(pos, witems) {
                        lemma_offset_layout(v@, pos, witems);
                        let nw: u64 = pos as u64;
                        let ds = dec_digits(nw as int);
                        assert(ds == dec_digits(pos));
                        assert(v@.subrange(12, 12 + ds.len() as int) == ds);
                        assert(!is_digit_b(v@[12 + ds.len() as int]));
                    }
                }
            }
            return None;
        },
        Some((n, j)) => {
            if !match_ascii(v, j, ",\"items\":[") {
                proof {
                    assert forall|pos: int, witems: Seq<Seq<char>>|
                        offset_encodable(pos, witems) && pos <= usize::MAX implies v@
                        != #[trigger] spec_encode_offset(pos, witems) by {
                        if v@ == spec_encode_offset(pos, witems) {
                            lemma_offset_layout(v@, pos, witems);
                            let dl = dec_digits(pos).len() as int;
                            lemma_run_digits(v@, 12, pos);
                            lemma_run_digits(v@, 12, n as int);
                            lemma_digit_run_unique(v@, 12, j as int, 12 + dl);
                            assert(v@.subrange(12, j as int) == dec_digits(pos));
                        }
                    }
                }
                return None;
            }
            let vlen = v.len();
            proof {
                assert(j + 10 <= vlen);
            }
            let idx = j + 10;
            proof {
                // whenever the input is canonical, the digit run pins j and n
                assert forall|pos: int, witems: Seq<Seq<char>>|
                    offset_encodable(pos, witems) && pos <= usize::MAX && v@
                        == #[trigger] spec_encode_offset(pos, witems) implies ({
                    &&& j == 12 + dec_digits(pos).len()
                    &&& n as int == pos
                    &&& idx == 22 + dec_digits(pos).len()
                }) by {
                    lemma_offset_layout(v@, pos, witems);
                    let dl = dec_digits(pos).len() as int;
                    lemma_run_digits(v@, 12, pos);
                    lemma_run_digits(v@, 12, n as int);
                    lemma_digit_run_unique(v@, 12, j as int, 12 + dl);
                    assert(v@.subrange(12, j as int) == dec_digits(pos));
                    lemma_dec_digits_value(pos);
                    lemma_dec_digits_value(n as int);
                }
            }
            if idx == v.len() {
                return None;
            }
            if v[idx] == 93 {
                // empty item list: expect the closing brace and the end
                if idx + 1 < v.len() && v[idx + 1] == 125 && idx + 2 == v.len() && n == 0 {
                    let p = BackupProgress { position: 0, items: Vec::new() };
                    proof {
                        assert(items_view(p.items@) =~= Seq::<Seq<char>>::empty());
                        assert(enc_items(items_view(p.items@)) =~= Seq::<u8>::empty());
                        assert(v@ =~= spec_encode_offset(0, items_view(p.items@))) by {
                            let e = spec_encode_offset(0, items_view(p.items@));
                            assert(dec_digits(0) == v@.subrange(12, j as int));
                            assert(e.len() == 24 + (j - 12));
                            assert forall|k: int| 0 <= k < v@.len() implies v@[k] == e[k] by {
                                if k < 12 {
                                    assert(v@[k] == v@.subrange(0, 12)[k]);
                                    assert(e[k] == ascii_bytes("{\"position\":"@)[k]);
                                } else if k < j {
                                    assert(v@[k] == v@.subrange(12, j as int)[k - 12]);
                                    assert(e[k] == dec_digits(0)[k - 12]);
                                } else if k < idx {
                                    assert(v@[k] == v@.subrange(j as int, idx as int)[k - j]);
                                    assert(e[k] == ascii_bytes(",\"items\":["@)[k - j]);
                                } else if k == idx {
                                    assert(e[k] == ascii_bytes("]}"@)[0]);
                                } else {
                                    assert(e[k] == ascii_bytes("]}"@)[1]);
                                }
                            }
                        };
                    }
                    return Some(p);
                }
                proof {
                    assert forall|pos: int, witems: Seq<Seq<char>>|
                        offset_encodable(pos, witems) && pos <= usize::MAX implies v@
                        != #[trigger] spec_encode_offset(pos, witems) by {
                        if v@ == spec_encode_offset(pos, witems) {
                            lemma_offset_layout(v@, pos, witems);
                            let dl = dec_digits(pos).len() as int;
                            let il = enc_items(witems).len() as int;
                            if witems.len() > 0 {
                                assert(v@[22 + dl] == v@.subrange(22 + dl, 22 + dl + il)[0]);
                                assert(enc_items(witems)[0] == quoted(witems[0])[0]);
                                assert(v@[idx as int] == 34u8);
                            }
                            assert(witems.len() == 0);
                            assert(il == 0);
                            assert(pos == 0);
                            assert(v@.len() == idx + 2);
                            assert(v@[idx + 1] == 125u8);
                            assert(n as int == pos);
                        }
                    }
                }
                return None;
            }
            // nonempty item list: one quoted identifier, then the tail
            let q = parse_qstring(v, idx);
            match q {
                None => {
                    proof {
                        assert forall|pos: int, witems: Seq<Seq<char>>|
                            offset_encodable(pos, witems) && pos <= usize::MAX implies v@
                            != #[trigger] spec_encode_offset(pos, witems) by {
                            if v@ == spec_encode_offset(pos, witems) {
                                lemma_offset_layout(v@, pos, witems);
                                let dl = dec_digits(pos).len() as int;
                                let il = enc_items(witems).len() as int;
                                if witems.len() == 0 {
                                    assert(v@[idx as int] == v@[v@.len() - 2]);
                                    assert(v@[idx as int] == 93u8);
                                    assert(false);
                                }
                                let w0 = witems[0];
                                assert(id_wf(w0));
                                assert(enc_items(witems) == quoted(w0) + enc_items_rest(
                                    witems.drop_first(),
                                ));
                                assert(v@.subrange(idx as int, idx + quoted(w0).len() as int)
                                    =~= quoted(w0)) by {
                                    assert forall|k: int|
                                        0 <= k < quoted(w0).len() implies v@[idx + k] == quoted(
                                        w0,
                                    )[k] by {
                                        assert(v@[idx + k] == v@.subrange(22 + dl, 22 + dl + il)[k]);
                                        assert(enc_items(witems)[k] == quoted(w0)[k]);
                                    }
                                };
                                assert(false);
                            }
                        }
                    }
                    return None;
                },
                Some((s0, jq)) => {
                    let rest = parse_items_rest(v, jq);
                    match rest {
                        None => {
                            proof {
                                assert forall|pos: int, witems: Seq<Seq<char>>|
                                    offset_encodable(pos, witems) && pos <= usize::MAX implies v@
                                    != #[trigger] spec_encode_offset(pos, witems) by {
                                    if v@ == spec_encode_offset(pos, witems) {
                                        lemma_offset_layout(v@, pos, witems);
                                        let dl = dec_digits(pos).len() as int;
                                        let il = enc_items(witems).len() as int;
                                        if witems.len() == 0 {
                                            assert(v@[idx as int] == v@[v@.len() - 2]);
                                            assert(v@[idx as int] == 93u8);
                                            assert(false);
                                        }
                                        let w0 = witems[0];
                                        let wrest = witems.drop_first();
                                        assert(id_wf(w0));
                                        assert(enc_items(witems) == quoted(w0) + enc_items_rest(
                                            wrest,
                                        ));
                                        assert(v@.subrange(
                                            idx as int,
                                            idx + quoted(w0).len() as int,
                                        ) =~= quoted(w0)) by {
                                            assert forall|k: int|
                                                0 <= k < quoted(w0).len() implies v@[idx + k]
                                                == quoted(w0)[k] by {
                                                assert(v@[idx + k] == v@.subrange(
                                                    22 + dl,
                                                    22 + dl + il,
                                                )[k]);
                                                assert(enc_items(witems)[k] == quoted(w0)[k]);
                                            }
                                        };
                                        lemma_quoted_unique(v@, idx as int, s0@, w0);
                                        assert(jq == idx + quoted(w0).len());
                                        assert(all_wf(wrest)) by {
                                            assert forall|t: int|
                                                0 <= t < wrest.len() implies id_wf(
                                                #[trigger] wrest[t],
                                            ) by {
                                                assert(wrest[t] == witems[t + 1]);
                                            }
                                        };
                                        assert(v@.subrange(jq as int, v@.len() - 1)
                                            =~= enc_items_rest(wrest) + seq![93u8]) by {
                                            assert forall|k: int|
                                                0 <= k < v@.len() - 1 - jq implies v@[jq + k] == (
                                            enc_items_rest(wrest) + seq![93u8])[k] by {
                                                if k < enc_items_rest(wrest).len() {
                                                    assert(v@[jq + k] == v@.subrange(
                                                        22 + dl,
                                                        22 + dl + il,
                                                    )[jq - 22 - dl + k]);
                                                    assert(enc_items(witems)[jq - 22 - dl + k]
                                                        == enc_items_rest(wrest)[k]);
                                                } else {
                                                    assert(v@[jq + k] == v@[v@.len() - 2]);
                                                }
                                            }
                                        };
                                        assert(false);
                                    }
                                }
                            }
                            return None;
                        },
                        Some((tail, end)) => {
                            let ghost tail0 = tail@;
                            let mut items = tail;
                            items.insert(0, s0);
                            let shape_end = end < v.len() && v[end] == 125 && end + 1 == v.len();
                            let fits = n <= usize::MAX as u64;
                            let pos_ok = fits && (n as usize) == items.len();
                            let dis = strings_distinct(&items);
                            if shape_end && pos_ok && dis {
                                proof {
                                    assert(items@.drop_first() =~= tail0);
                                    let iv = items_view(items@);
                                    assert(iv[0] == s0@);
                                    assert(iv.drop_first() =~= items_view(tail0)) by {
                                        assert forall|t: int|
                                            0 <= t < iv.drop_first().len() implies iv.drop_first()[t]
                                            == items_view(tail0)[t] by {
                                            assert(iv.drop_first()[t] == items@[t + 1]@);
                                            assert(items@[t + 1] == tail0[t]);
                                        }
                                    };
                                    assert(enc_items(iv) == quoted(s0@) + enc_items_rest(
                                        items_view(tail0),
                                    ));
                                    assert(offset_wf(
                                        BackupProgress {
                                            position: n as usize,
                                            items: items,
                                        },
                                    )) by {
                                        assert forall|t: int| 0 <= t < items@.len() implies id_wf(
                                            #[trigger] items@[t]@,
                                        ) by {
                                            if t == 0 {
                                            } else {
                                                assert(items@[t] == tail0[t - 1]);
                                                assert(items_view(tail0)[t - 1] == tail0[t - 1]@);
                                            }
                                        }
                                    };
                                    let e = spec_encode_offset(n as int, iv);
                                    assert(v@ =~= e) by {
                                        let dl = j - 12;
                                        assert(v@.subrange(12, j as int) == dec_digits(n as int));
                                        assert(v@.subrange(idx as int, jq as int) == quoted(s0@));
                                        assert(v@.subrange(jq as int, end as int)
                                            == enc_items_rest(items_view(tail0)) + seq![93u8]);
                                        let il = enc_items(iv).len() as int;
                                        assert(quoted(s0@).len() == jq - idx);
                                        assert((enc_items_rest(items_view(tail0))
                                            + seq![93u8]).len() == end - jq);
                                        assert(enc_items_rest(items_view(tail0)).len() == end - jq
                                            - 1);
                                        assert(il == (jq - idx) + (end - 1 - jq));
                                        assert(e.len() == 24 + dl + il);
                                        assert(v@.len() == end + 1);
                                        assert(e.len() == v@.len());
                                        assert forall|k: int| 0 <= k < v@.len() implies v@[k]
                                            == e[k] by {
                                            if k < 12 {
                                                assert(v@[k] == v@.subrange(0, 12)[k]);
                                            } else if k < j {
                                                assert(v@[k] == v@.subrange(12, j as int)[k - 12]);
                                            } else if k < idx {
                                                assert(v@[k] == v@.subrange(j as int, idx as int)[k
                                                    - j]);
                                            } else if k < jq {
                                                assert(v@[k] == v@.subrange(
                                                    idx as int,
                                                    jq as int,
                                                )[k - idx]);
                                                assert(enc_items(iv)[k - idx] == quoted(s0@)[k
                                                    - idx]);
                                            } else if k < end {
                                                assert(v@[k] == v@.subrange(
                                                    jq as int,
                                                    end as int,
                                                )[k - jq]);
                                                if k < end - 1 {
                                                    assert(enc_items(iv)[k - idx]
                                                        == enc_items_rest(items_view(tail0))[k
                                                        - jq]);
                                                } else {
                                                    assert((enc_items_rest(items_view(tail0))
                                                        + seq![93u8])[k - jq] == 93u8);
                                                    assert(e[k] == ascii_bytes("]}"@)[0]);
                                                }
                                            } else {
                                                assert(e[k] == ascii_bytes("]}"@)[1]);
                                            }
                                        }
                                    };
                                }
                                return Some(BackupProgress { position: n as usize, items });
                            }
                            proof {
                                assert(items@.drop_first() =~= tail0);
                                let iv = items_view(items@);
                                assert(iv[0] == s0@);
                                assert(iv.drop_first() =~= items_view(tail0)) by {
                                    assert forall|t: int|
                                        0 <= t < iv.drop_first().len() implies iv.drop_first()[t]
                                        == items_view(tail0)[t] by {
                                        assert(iv.drop_first()[t] == items@[t + 1]@);
                                        assert(items@[t + 1] == tail0[t]);
                                    }
                                };
                                assert forall|pos: int, witems: Seq<Seq<char>>|
                                    offset_encodable(pos, witems) && pos <= usize::MAX implies v@
                                    != #[trigger] spec_encode_offset(pos, witems) by {
                                    if v@ == spec_encode_offset(pos, witems) {
                                        lemma_offset_layout(v@, pos, witems);
                                        let dl = dec_digits(pos).len() as int;
                                        let il = enc_items(witems).len() as int;
                                        if witems.len() == 0 {
                                            assert(v@[idx as int] == v@[v@.len() - 2]);
                                            assert(v@[idx as int] == 93u8);
                                            assert(false);
                                        }
                                        let w0 = witems[0];
                                        let wrest = witems.drop_first();
                                        assert(id_wf(w0));
                                        assert(enc_items(witems) == quoted(w0) + enc_items_rest(
                                            wrest,
                                        ));
                                        assert(v@.subrange(
                                            idx as int,
                                            idx + quoted(w0).len() as int,
                                        ) =~= quoted(w0)) by {
                                            assert forall|k: int|
                                                0 <= k < quoted(w0).len() implies v@[idx + k]
                                                == quoted(w0)[k] by {
                                                assert(v@[idx + k] == v@.subrange(
                                                    22 + dl,
                                                    22 + dl + il,
                                                )[k]);
                                                assert(enc_items(witems)[k] == quoted(w0)[k]);
                                            }
                                        };
                                        lemma_quoted_unique(v@, idx as int, s0@, w0);
                                        assert(jq == idx + quoted(w0).len());
                                        assert(all_wf(wrest)) by {
                                            assert forall|t: int|
                                                0 <= t < wrest.len() implies id_wf(
                                                #[trigger] wrest[t],
                                            ) by {
                                                assert(wrest[t] == witems[t + 1]);
                                            }
                                        };
                                        assert(v@.subrange(jq as int, v@.len() - 1)
                                            =~= enc_items_rest(wrest) + seq![93u8]) by {
                                            assert forall|k: int|
                                                0 <= k < v@.len() - 1 - jq implies v@[jq + k] == (
                                            enc_items_rest(wrest) + seq![93u8])[k] by {
                                                if k < enc_items_rest(wrest).len() {
                                                    assert(v@[jq + k] == v@.subrange(
                                                        22 + dl,
                                                        22 + dl + il,
                                                    )[jq - 22 - dl + k]);
                                                    assert(enc_items(witems)[jq - 22 - dl + k]
                                                        == enc_items_rest(wrest)[k]);
                                                } else {
                                                    assert(v@[jq + k] == v@[v@.len() - 2]);
                                                }
                                            }
                                        };
                                        lemma_enc_rest_prefix_unique(
                                            v@,
                                            jq as int,
                                            items_view(tail0),
                                            wrest,
                                            end as int,
                                            v@.len() - 1,
                                        );
                                        assert(end == v@.len() - 1);
                                        assert(v@[end as int] == 125u8);
                                        // the parsed items are exactly the witness items
                                        assert(iv =~= witems) by {
                                            assert(iv.drop_first() == wrest);
                                            assert forall|t: int| 0 <= t < iv.len() implies iv[t]
                                                == witems[t] by {
                                                if t > 0 {
                                                    assert(iv[t] == iv.drop_first()[t - 1]);
                                                    assert(witems[t] == wrest[t - 1]);
                                                }
                                            }
                                        };
                                        assert(pos == witems.len());
                                        assert(n as int == pos);
                                        assert(items@.len() == iv.len());
                                        assert forall|a: int, b: int|
                                            0 <= a < b < items@.len() implies items@[a]@
                                            != items@[b]@ by {
                                            assert(items@[a]@ == iv[a] && items@[b]@ == iv[b]);
                                            assert(witems[a] != witems[b]);
                                        }
                                        assert(false);
                                    }
                                }
                            }
                            return None;
                        },
                    }
                },
            }
        },
    }
}

/// Advance the offset cursor over one fetched page: the count grows by
/// exactly the page length and the page's identifiers are appended.
pub fn advance_offset(p: &mut BackupProgress, page_ids: Vec<String>)
    requires
        offset_wf(*old(p)),
        old(p).position + page_ids@.len() <= usize::MAX,
        forall|t: int| 0 <= t < page_ids@.len() ==> id_wf(#[trigger] page_ids@[t]@),
        forall|a: int, b: int| 0 <= a < b < page_ids@.len() ==> page_ids@[a]@ != page_ids@[b]@,
        forall|a: int, b: int|
            0 <= a < old(p).items@.len() && 0 <= b < page_ids@.len() ==> old(p).items@[a]@
                != page_ids@[b]@,
    ensures
        offset_wf(*final(p)),
        final(p).position == old(p).position + page_ids@.len(),
        final(p).items@ == old(p).items@ + page_ids@,
{
    let ghost old_items = p.items@;
    let ghost page0 = page_ids@;
    let mut page = page_ids;
    let n = page.len();
    p.position = p.position + n;
    p.items.append(&mut page);
    proof {
        assert(p.items@ =~= old_items + page0);
        assert forall|t: int| 0 <= t < p.items@.len() implies id_wf(#[trigger] p.items@[t]@) by {
            if t < old_items.len() {
                assert(p.items@[t] == old_items[t]);
            } else {
                assert(p.items@[t] == page0[t - old_items.len()]);
            }
        }
        assert forall|a: int, b: int| 0 <= a < b < p.items@.len() implies p.items@[a]@
            != p.items@[b]@ by {
            let ol = old_items.len() as int;
            if a < ol && b < ol {
                assert(p.items@[a] == old_items[a] && p.items@[b] == old_items[b]);
            } else if a < ol {
                assert(p.items@[a] == old_items[a] && p.items@[b] == page0[b - ol]);
            } else {
                assert(p.items@[a] == page0[a - ol] && p.items@[b] == page0[b - ol]);
            }
        }
    }
}

} // verus!
