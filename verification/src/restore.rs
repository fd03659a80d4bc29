//! Restore reconciliation: which mailboxes must be recreated, and in what
//! order.
//!
//! A mailbox can be created remotely only after its parent. The sort places
//! every mailbox after its parent whenever the parent is itself in the set
//! to create; a mailbox whose parent already exists remotely (or that has
//! no parent) is a root. A cycle in the parent graph cannot occur in a
//! well-formed hierarchy, so it is reported as an error naming a mailbox
//! that lies on the cycle, and nothing is created.

use vstd::prelude::*;
use vstd::multiset::Multiset;

verus! {

/// The attributes of a mailbox that the reconciliation reads.
#[derive(Debug, Clone)]
pub struct Mailbox {
    pub id: String,
    pub parent_id: Option<String>,
    pub name: String,
    pub role: Option<String>,
}

/// A fatal reconciliation error: the parent graph contains a cycle, and
/// `id` is a mailbox on it.
#[derive(Debug, Clone)]
pub enum RestoreError {
    Cycle { id: String },
}

pub open spec fn has_parent(m: Mailbox) -> bool {
    m.parent_id is Some
}

pub open spec fn the_parent(m: Mailbox) -> Seq<char> {
    match m.parent_id {
        Option::Some(p) => p@,
        Option::None => Seq::empty(),
    }
}

/// Whether some mailbox in `ms` has identifier `id`.
pub open spec fn id_in(ms: Seq<Mailbox>, id: Seq<char>) -> bool {
    exists|j: int| 0 <= j < ms.len() && #[trigger] ms[j].id@ == id
}

/// All identifiers in `ms` differ.
pub open spec fn distinct_ids(ms: Seq<Mailbox>) -> bool {
    forall|i: int, j: int| 0 <= i < j < ms.len() ==> ms[i].id@ != ms[j].id@
}

/// Every mailbox of `sorted` whose parent is in `all` stands after that
/// parent.
pub open spec fn parents_first(sorted: Seq<Mailbox>, all: Seq<Mailbox>) -> bool {
    forall|i: int|
        0 <= i < sorted.len() ==> ((has_parent(#[trigger] sorted[i]) && id_in(
            all,
            the_parent(sorted[i]),
        )) ==> exists|j: int| 0 <= j < i && #[trigger] sorted[j].id@ == the_parent(sorted[i]))
}

/// The mailbox of `ms` carrying identifier `id`.
pub open spec fn mailbox_at(ms: Seq<Mailbox>, id: Seq<char>) -> Mailbox {
    ms[choose|j: int| 0 <= j < ms.len() && ms[j].id@ == id]
}

/// The parent edges among the mailboxes of `ms`: a mailbox's identifier
/// maps to its parent's identifier when the parent is itself in `ms`.
pub open spec fn parent_map(ms: Seq<Mailbox>) -> Map<Seq<char>, Seq<char>> {
    Map::new(
        |id: Seq<char>|
            id_in(ms, id) && has_parent(mailbox_at(ms, id)) && id_in(
                ms,
                the_parent(mailbox_at(ms, id)),
            ),
        |id: Seq<char>| the_parent(mailbox_at(ms, id)),
    )
}

/// The ancestor `k` steps above `id`, following parent edges while they
/// exist.
pub open spec fn chain(m: Map<Seq<char>, Seq<char>>, id: Seq<char>, k: nat) -> Option<Seq<char>>
    decreases k,
{
    if k == 0 {
        Option::Some(id)
    } else {
        match chain(m, id, (k - 1) as nat) {
            Option::Some(x) => if m.dom().contains(x) {
                Option::Some(m[x])
            } else {
                Option::None
            },
            Option::None => Option::None,
        }
    }
}

/// `id` lies on a cycle of parent edges.
pub open spec fn on_cycle(m: Map<Seq<char>, Seq<char>>, id: Seq<char>) -> bool {
    exists|k: nat| 1 <= k && chain(m, id, k) == Option::Some(id)
}

/// Some identifier lies on a cycle.
pub open spec fn has_cycle(m: Map<Seq<char>, Seq<char>>) -> bool {
    exists|id: Seq<char>| on_cycle(m, id)
}

/// Find the position of an identifier among mailboxes.
fn find_id(v: &Vec<Mailbox>, id: &String) -> (r: Option<usize>)
    ensures
        match r {
            Some(k) => k < v@.len() && v@[k as int].id@ == id@,
            None => !id_in(v@, id@),
        },
{
    let mut j: usize = 0;
    while j < v.len()
        invariant
            j <= v@.len(),
            forall|k: int| 0 <= k < j ==> #[trigger] v@[k].id@ != id@,
        decreases v@.len() - j,
    {
        if v[j].id.eq(id) {
            return Some(j);
        }
        j = j + 1;
    }
    None
}

/// Whether this mailbox's parent is among `v`.
fn parent_among(v: &Vec<Mailbox>, m: &Mailbox) -> (r: bool)
    ensures
        r == (has_parent(*m) && id_in(v@, the_parent(*m))),
{
    match &m.parent_id {
        None => false,
        Some(p) => find_id(v, p).is_some(),
    }
}

/// Find a mailbox whose parent is not in the set: a root of the remaining
/// dependency graph.
fn find_root(v: &Vec<Mailbox>) -> (r: Option<usize>)
    ensures
        match r {
            Some(i) => i < v@.len() && !(has_parent(v@[i as int]) && id_in(
                v@,
                the_parent(v@[i as int]),
            )),
            None => forall|j: int|
                0 <= j < v@.len() ==> has_parent(#[trigger] v@[j]) && id_in(
                    v@,
                    the_parent(v@[j]),
                ),
        },
{
    let mut i: usize = 0;
    while i < v.len()
        invariant
            i <= v@.len(),
            forall|j: int|
                0 <= j < i ==> has_parent(#[trigger] v@[j]) && id_in(v@, the_parent(v@[j])),
        decreases v@.len() - i,
    {
        if !parent_among(v, &v[i]) {
            return Some(i);
        }
        i = i + 1;
    }
    None
}

/// Find the position of an identifier among strings.
fn find_str(v: &Vec<String>, id: &String) -> (r: Option<usize>)
    ensures
        match r {
            Some(k) => k < v@.len() && v@[k as int]@ == id@,
            None => forall|t: int| 0 <= t < v@.len() ==> #[trigger] v@[t]@ != id@,
        },
{
    let mut j: usize = 0;
    while j < v.len()
        invariant
            j <= v@.len(),
            forall|t: int| 0 <= t < j ==> #[trigger] v@[t]@ != id@,
        decreases v@.len() - j,
    {
        if v[j].eq(id) {
            return Some(j);
        }
        j = j + 1;
    }
    None
}

/// Walking a sequence of identifiers linked by parent edges follows the
/// chain.
proof fn lemma_chain_along(m: Map<Seq<char>, Seq<char>>, vs: Seq<Seq<char>>, a: int, b: int)
    requires
        0 <= a <= b < vs.len(),
        forall|t: int|
            0 <= t < vs.len() - 1 ==> m.dom().contains(#[trigger] vs[t]) && m[vs[t]] == vs[t + 1],
    ensures
        chain(m, vs[a], (b - a) as nat) == Option::Some(vs[b]),
    decreases b - a,
{
    if a < b {
        lemma_chain_along(m, vs, a, b - 1);
    }
}

/// A chain in a submap is a chain in any larger map that agrees on the
/// submap's domain.
proof fn lemma_chain_submap(
    m1: Map<Seq<char>, Seq<char>>,
    m2: Map<Seq<char>, Seq<char>>,
    id: Seq<char>,
    k: nat,
    target: Seq<char>,
)
    requires
        chain(m1, id, k) == Option::Some(target),
        forall|x: Seq<char>|
            #[trigger] m1.dom().contains(x) ==> m2.dom().contains(x) && m2[x] == m1[x],
    ensures
        chain(m2, id, k) == Option::Some(target),
    decreases k,
{
    if k > 0 {
        let prev = chain(m1, id, (k - 1) as nat);
        assert(prev is Some);
        lemma_chain_submap(m1, m2, id, (k - 1) as nat, prev.unwrap());
    }
}

/// In a linearization that puts parents first, position strictly drops
/// along every parent chain, so no identifier can reach itself: an
/// ordering exists only for acyclic inputs.
pub proof fn lemma_parents_first_acyclic(sorted: Seq<Mailbox>, all: Seq<Mailbox>)
    requires
        distinct_ids(all),
        parents_first(sorted, all),
        sorted.to_multiset() == all.to_multiset(),
    ensures
        !has_cycle(parent_map(all)),
{
    let m = parent_map(all);
    // every mailbox of `all` occurs in `sorted`
    sorted.to_multiset_ensures();
    all.to_multiset_ensures();
    assert forall|id: Seq<char>| id_in(all, id) implies id_in(sorted, id) by {
        let j = choose|j: int| 0 <= j < all.len() && all[j].id@ == id;
        assert(all.to_multiset().count(all[j]) > 0);
        assert(sorted.contains(all[j]));
        let i = choose|i: int| 0 <= i < sorted.len() && sorted[i] == all[j];
        assert(sorted[i].id@ == id);
    }
    // and symmetrically
    assert forall|i: int| 0 <= i < sorted.len() implies id_in(all, #[trigger] sorted[i].id@) by {
        assert(sorted.to_multiset().count(sorted[i]) > 0);
        assert(all.contains(sorted[i]));
        let j = choose|j: int| 0 <= j < all.len() && all[j] == sorted[i];
    }
    if has_cycle(m) {
        let id0 = choose|id: Seq<char>| on_cycle(m, id);
        let k0 = choose|k: nat| 1 <= k && chain(m, id0, k) == Option::Some(id0);
        assert(chain(m, id0, k0) == Option::Some(id0));
        assert(m.dom().contains(id0)) by {
            lemma_chain_defined_prefix(m, id0, k0, 1nat);
            assert(chain(m, id0, 1nat) is Some);
            assert(chain(m, id0, 0nat) == Option::Some(id0));
        };
        lemma_permutation_distinct(sorted, all);
        lemma_chain_pos(sorted, all, m, id0, k0);
        assert(pos_in(sorted, id0) <= pos_in(sorted, id0) - k0);
        assert(false);
    }
}

/// On a cycle, every element of the chain is in the map's domain.
proof fn lemma_chain_defined_prefix(m: Map<Seq<char>, Seq<char>>, id: Seq<char>, k: nat, t: nat)
    requires
        t <= k,
        chain(m, id, k) is Some,
    ensures
        chain(m, id, t) is Some,
    decreases k - t,
{
    if t < k {
        assert(chain(m, id, (k - 1) as nat) is Some);
        lemma_chain_defined_prefix(m, id, (k - 1) as nat, t);
    }
}

/// The position of an identifier in a mailbox sequence.
spec fn pos_in(ms: Seq<Mailbox>, id: Seq<char>) -> int {
    choose|i: int| 0 <= i < ms.len() && ms[i].id@ == id
}

/// Following `t` parent steps from an identifier drops its position in a
/// parents-first linearization by at least `t`.
proof fn lemma_chain_pos(
    sorted: Seq<Mailbox>,
    all: Seq<Mailbox>,
    m: Map<Seq<char>, Seq<char>>,
    id: Seq<char>,
    t: nat,
)
    requires
        distinct_ids(all),
        distinct_ids(sorted),
        parents_first(sorted, all),
        sorted.to_multiset() == all.to_multiset(),
        forall|idx: Seq<char>| id_in(all, idx) ==> id_in(sorted, idx),
        forall|i: int| 0 <= i < sorted.len() ==> id_in(all, #[trigger] sorted[i].id@),
        m == parent_map(all),
        m.dom().contains(id),
        chain(m, id, t) is Some,
    ensures
        id_in(sorted, chain(m, id, t).unwrap()),
        pos_in(sorted, chain(m, id, t).unwrap()) <= pos_in(sorted, id) - t,
    decreases t,
{
    assert(id_in(all, id));
    if t == 0 {
        assert(chain(m, id, t) == Option::Some(id));
    } else {
        let prev = chain(m, id, (t - 1) as nat);
        assert(prev is Some);
        let x = prev.unwrap();
        assert(m.dom().contains(x));
        let tgt = m[x];
        assert(chain(m, id, t) == Option::Some(tgt));
        lemma_chain_pos(sorted, all, m, id, (t - 1) as nat);
        // x's mailbox has parent tgt, and tgt is in the set
        assert(id_in(all, x) && has_parent(mailbox_at(all, x)) && id_in(all, tgt) && the_parent(
            mailbox_at(all, x),
        ) == tgt);
        let ix = pos_in(sorted, x);
        assert(id_in(sorted, x));
        assert(0 <= ix < sorted.len() && sorted[ix].id@ == x);
        // the mailbox at position ix of sorted is the one mailbox of all
        // carrying identifier x
        sorted.to_multiset_ensures();
        all.to_multiset_ensures();
        assert(sorted.contains(sorted[ix]));
        assert(sorted.to_multiset().count(sorted[ix]) > 0);
        assert(all.contains(sorted[ix]));
        let ja = choose|j: int| 0 <= j < all.len() && all[j] == sorted[ix];
        let jm = choose|j: int| 0 <= j < all.len() && all[j].id@ == x;
        assert(all[jm] == mailbox_at(all, x));
        assert(all[ja].id@ == x);
        assert(ja == jm) by {
            if ja != jm {
                assert(all[ja].id@ != all[jm].id@);
            }
        };
        assert(sorted[ix] == mailbox_at(all, x));
        // parents-first puts tgt strictly before x
        assert(has_parent(sorted[ix]) && id_in(all, the_parent(sorted[ix])));
        let jp = choose|j: int| 0 <= j < ix && sorted[j].id@ == the_parent(sorted[ix]);
        assert(sorted[jp].id@ == tgt);
        assert(id_in(sorted, tgt));
        let ip = pos_in(sorted, tgt);
        assert(0 <= ip < sorted.len() && sorted[ip].id@ == tgt);
        assert(ip == jp) by {
            if ip != jp {
                assert(sorted[ip].id@ != sorted[jp].id@);
            }
        };
        assert(pos_in(sorted, tgt) < ix);
    }
}

/// A permutation of a distinct-identifier sequence has distinct
/// identifiers.
proof fn lemma_permutation_distinct(sorted: Seq<Mailbox>, all: Seq<Mailbox>)
    requires
        distinct_ids(all),
        sorted.to_multiset() == all.to_multiset(),
    ensures
        distinct_ids(sorted),
{
    sorted.to_multiset_ensures();
    all.to_multiset_ensures();
    assert forall|i: int, j: int| 0 <= i < j < sorted.len() implies sorted[i].id@
        != sorted[j].id@ by {
        if sorted[i].id@ == sorted[j].id@ {
            if sorted[i] == sorted[j] {
                // the same value twice: its count is at least two, but in
                // `all` every value occurs at most once by distinctness
                lemma_count_two(sorted, i, j);
                assert(all.to_multiset().count(sorted[i]) >= 2);
                lemma_multiset_count_distinct(all, sorted[i]);
            } else {
                // two different values with one identifier both occur in all
                assert(sorted.to_multiset().count(sorted[i]) > 0);
                assert(all.contains(sorted[i]));
                assert(sorted.to_multiset().count(sorted[j]) > 0);
                assert(all.contains(sorted[j]));
                let a = choose|a: int| 0 <= a < all.len() && all[a] == sorted[i];
                let b = choose|b: int| 0 <= b < all.len() && all[b] == sorted[j];
                assert(a != b);
                assert(all[a].id@ != all[b].id@);
            }
        }
    }
}

/// A value occurring at two positions counts at least twice.
proof fn lemma_count_two(s: Seq<Mailbox>, i: int, j: int)
    requires
        0 <= i < j < s.len(),
        s[i] == s[j],
    ensures
        s.to_multiset().count(s[i]) >= 2,
    decreases s.len(),
{
    s.to_multiset_ensures();
    if j == s.len() - 1 {
        assert(s == s.drop_last().push(s.last()));
        s.drop_last().to_multiset_ensures();
        assert(s.drop_last()[i] == s[i]);
        assert(s.drop_last().contains(s[i]));
        assert(s.drop_last().to_multiset().count(s[i]) > 0);
        assert(s.to_multiset() == s.drop_last().to_multiset().insert(s.last()));
    } else {
        lemma_count_two(s.drop_last(), i, j);
        s.drop_last().to_multiset_ensures();
        assert(s =~= s.drop_last().push(s.last()));
        assert(s.to_multiset() == s.drop_last().to_multiset().insert(s.last()));
    }
}

/// In a stuck set, where every mailbox's parent is also in the set, every
/// identifier is in the parent map's domain.
proof fn lemma_stuck_dom(rem: Seq<Mailbox>, id: Seq<char>)
    requires
        distinct_ids(rem),
        forall|j: int|
            0 <= j < rem.len() ==> has_parent(#[trigger] rem[j]) && id_in(
                rem,
                the_parent(rem[j]),
            ),
        id_in(rem, id),
    ensures
        parent_map(rem).dom().contains(id),
        parent_map(rem)[id] == the_parent(mailbox_at(rem, id)),
{
    let j = choose|j: int| 0 <= j < rem.len() && rem[j].id@ == id;
    let jm = choose|j: int| 0 <= j < rem.len() && rem[j].id@ == id;
    assert(has_parent(rem[jm]) && id_in(rem, the_parent(rem[jm])));
}

/// When a distinct identifier list drawn from a set covers the whole set,
/// any further identifier of the set already occurs in the list.
proof fn lemma_ids_covered(vs: Seq<Seq<char>>, rem: Seq<Mailbox>, p: Seq<char>)
    requires
        vs.no_duplicates(),
        forall|t: int| 0 <= t < vs.len() ==> id_in(rem, #[trigger] vs[t]),
        vs.len() >= rem.len(),
        distinct_ids(rem),
        id_in(rem, p),
    ensures
        exists|t: int| 0 <= t < vs.len() && vs[t] == p,
{
    broadcast use vstd::seq_lib::seq_to_set_is_finite;

    let rem_ids = rem.map_values(|m: Mailbox| m.id@);
    assert(rem_ids.no_duplicates()) by {
        assert forall|i: int, j: int|
            0 <= i < rem_ids.len() && 0 <= j < rem_ids.len() && i != j implies rem_ids[i]
            != rem_ids[j] by {
            assert(rem_ids[i] == rem[i].id@ && rem_ids[j] == rem[j].id@);
        }
    };
    vs.unique_seq_to_set();
    rem_ids.unique_seq_to_set();
    assert forall|t: int| 0 <= t < vs.len() implies rem_ids.to_set().contains(
        #[trigger] vs[t],
    ) by {
        let j = choose|j: int| 0 <= j < rem.len() && rem[j].id@ == vs[t];
        assert(rem_ids[j] == vs[t]);
        assert(rem_ids.contains(vs[t]));
    }
    if !(exists|t: int| 0 <= t < vs.len() && vs[t] == p) {
        let jp = choose|j: int| 0 <= j < rem.len() && rem[j].id@ == p;
        assert(rem_ids[jp] == p);
        assert(rem_ids.contains(p));
        assert(rem_ids.to_set().contains(p));
        let smaller = rem_ids.to_set().remove(p);
        assert(vs.to_set().subset_of(smaller)) by {
            assert forall|x: Seq<char>| vs.to_set().contains(x) implies smaller.contains(x) by {
                assert(vs.contains(x));
                let t = choose|t: int| 0 <= t < vs.len() && vs[t] == x;
                assert(rem_ids.to_set().contains(x));
                assert(x != p);
            }
        };
        vstd::set_lib::lemma_len_subset(vs.to_set(), smaller);
        assert(smaller.len() == rem_ids.to_set().len() - 1);
        assert(false);
    }
}

/// Name a mailbox on a cycle of a stuck set: every mailbox's parent is in
/// the set, so following parents must revisit an identifier.
#[verifier::rlimit(100)]
#[verifier::spinoff_prover]
fn cycle_witness(remaining: &Vec<Mailbox>) -> (r: String)
    requires
        remaining@.len() > 0,
        distinct_ids(remaining@),
        forall|j: int|
            0 <= j < remaining@.len() ==> has_parent(#[trigger] remaining@[j]) && id_in(
                remaining@,
                the_parent(remaining@[j]),
            ),
    ensures
        on_cycle(parent_map(remaining@), r@),
{
    let ghost pm = parent_map(remaining@);
    let mut visited: Vec<String> = Vec::new();
    let first = remaining[0].id.clone();
    visited.push(first);
    let mut cur: String = remaining[0].id.clone();
    loop
        invariant
            remaining@.len() > 0,
            distinct_ids(remaining@),
            forall|j: int|
                0 <= j < remaining@.len() ==> has_parent(#[trigger] remaining@[j]) && id_in(
                    remaining@,
                    the_parent(remaining@[j]),
                ),
            pm == parent_map(remaining@),
            1 <= visited@.len() <= remaining@.len(),
            forall|t: int| 0 <= t < visited@.len() ==> id_in(remaining@, #[trigger] visited@[t]@),
            forall|t1: int, t2: int|
                0 <= t1 < t2 < visited@.len() ==> visited@[t1]@ != visited@[t2]@,
            forall|t: int|
                0 <= t < visited@.len() - 1 ==> pm.dom().contains(#[trigger] visited@[t]@)
                    && pm[visited@[t]@] == visited@[t + 1]@,
            cur@ == visited@[visited@.len() - 1]@,
        decreases remaining@.len() - visited@.len() + 1,
    {
        let pi = match find_id(remaining, &cur) {
            Some(pi) => pi,
            None => {
                proof {
                    assert(false);
                }
                return cur;
            },
        };
        let parent: String = match &remaining[pi].parent_id {
            Some(p) => p.clone(),
            None => {
                proof {
                    assert(false);
                }
                return cur;
            },
        };
        proof {
            lemma_stuck_dom(remaining@, cur@);
            let jm = choose|j: int| 0 <= j < remaining@.len() && remaining@[j].id@ == cur@;
            assert(jm == pi || remaining@[jm].id@ != remaining@[pi as int].id@);
            assert(mailbox_at(remaining@, cur@) == remaining@[pi as int]);
            assert(pm[cur@] == parent@);
        }
        match find_str(&visited, &parent) {
            Some(vi) => {
                proof {
                    let vs = visited@.map_values(|s: String| s@).push(parent@);
                    let vlen = visited@.len() as int;
                    assert forall|t: int|
                        0 <= t < vs.len() - 1 implies pm.dom().contains(#[trigger] vs[t])
                        && pm[vs[t]] == vs[t + 1] by {
                        assert(vs[t] == visited@[t]@);
                        if t < vlen - 1 {
                            assert(vs[t + 1] == visited@[t + 1]@);
                        } else {
                            assert(vs[t] == cur@);
                            assert(vs[t + 1] == parent@);
                            lemma_stuck_dom(remaining@, cur@);
                        }
                    }
                    lemma_chain_along(pm, vs, vi as int, vlen);
                    assert(vs[vi as int] == visited@[vi as int]@);
                    assert(vs[vlen] == parent@);
                    assert(chain(pm, parent@, (vlen - vi) as nat) == Option::Some(parent@));
                }
                return parent;
            },
            None => {
                proof {
                    if visited@.len() >= remaining@.len() {
                        let vs = visited@.map_values(|s: String| s@);
                        assert(vs.no_duplicates()) by {
                            assert forall|t1: int, t2: int|
                                0 <= t1 < vs.len() && 0 <= t2 < vs.len() && t1
                                    != t2 implies vs[t1] != vs[t2] by {
                                assert(vs[t1] == visited@[t1]@ && vs[t2] == visited@[t2]@);
                            }
                        };
                        assert forall|t: int| 0 <= t < vs.len() implies id_in(
                            remaining@,
                            #[trigger] vs[t],
                        ) by {
                            assert(vs[t] == visited@[t]@);
                        }
                        lemma_stuck_dom(remaining@, cur@);
                        assert(id_in(remaining@, parent@));
                        lemma_ids_covered(vs, remaining@, parent@);
                        let t = choose|t: int| 0 <= t < vs.len() && vs[t] == parent@;
                        assert(visited@[t]@ == parent@);
                        assert(false);
                    }
                }
                visited.push(parent.clone());
                cur = parent;
            },
        }
    }
}

/// In a distinct-identifier sequence every value occurs at most once.
proof fn lemma_multiset_count_distinct(s: Seq<Mailbox>, x: Mailbox)
    requires
        distinct_ids(s),
    ensures
        s.to_multiset().count(x) <= 1,
{
    s.lemma_multiset_has_no_duplicates();
    assert(s.no_duplicates()) by {
        assert forall|i: int, j: int| 0 <= i < j < s.len() implies s[i] != s[j] by {
            assert(s[i].id@ != s[j].id@);
        }
    }
    if s.to_multiset().count(x) > 0 {
        s.to_multiset_ensures();
        assert(s.to_multiset().contains(x));
    }
}

/// Topologically sort mailboxes by the parent relation: in the result
/// every mailbox whose parent is in the input stands after that parent,
/// and the result holds exactly the input mailboxes. An input whose parent
/// graph has a cycle is rejected with a mailbox on the cycle; the ordering
/// exists exactly for acyclic inputs.
#[verifier::rlimit(100)]
#[verifier::spinoff_prover]
pub fn sort_mailboxes(mailboxes: Vec<Mailbox>) -> (r: Result<Vec<Mailbox>, RestoreError>)
    requires
        distinct_ids(mailboxes@),
    ensures
        match r {
            Ok(sorted) => {
                &&& sorted@.to_multiset() == mailboxes@.to_multiset()
                &&& sorted@.len() == mailboxes@.len()
                &&& parents_first(sorted@, mailboxes@)
                &&& !has_cycle(parent_map(mailboxes@))
            },
            Err(e) => match e {
                RestoreError::Cycle { id } => on_cycle(parent_map(mailboxes@), id@),
            },
        },
{
    let ghost ms0 = mailboxes@;
    let mut remaining = mailboxes;
    let mut sorted: Vec<Mailbox> = Vec::new();
    proof {
        sorted@.to_multiset_ensures();
        remaining@.to_multiset_ensures();
        assert(sorted@.to_multiset() =~= Multiset::<Mailbox>::empty()) by {
            if exists|x: Mailbox| sorted@.to_multiset().count(x) > 0 {
                let x = choose|x: Mailbox| sorted@.to_multiset().count(x) > 0;
                assert(sorted@.contains(x));
            }
        };
        assert(sorted@.to_multiset().add(remaining@.to_multiset()) =~= ms0.to_multiset());
    }
    loop
        invariant
            ms0 == mailboxes@,
            distinct_ids(ms0),
            distinct_ids(remaining@),
            distinct_ids(sorted@),
            sorted@.to_multiset().add(remaining@.to_multiset()) == ms0.to_multiset(),
            sorted@.len() + remaining@.len() == ms0.len(),
            parents_first(sorted@, ms0),
            forall|id: Seq<char>|
                #![auto]
                id_in(ms0, id) <==> (id_in(sorted@, id) || id_in(remaining@, id)),
            forall|id: Seq<char>| #![auto] !(id_in(sorted@, id) && id_in(remaining@, id)),
        decreases remaining@.len(),
    {
        if remaining.len() == 0 {
            proof {
                remaining@.to_multiset_ensures();
                assert(remaining@.to_multiset() =~= Multiset::<Mailbox>::empty()) by {
                    if exists|x: Mailbox| remaining@.to_multiset().count(x) > 0 {
                        let x = choose|x: Mailbox| remaining@.to_multiset().count(x) > 0;
                        assert(remaining@.contains(x));
                    }
                };
                assert(sorted@.to_multiset() =~= ms0.to_multiset());
                lemma_parents_first_acyclic(sorted@, ms0);
            }
            return Ok(sorted);
        }
        match find_root(&remaining) {
            Some(i) => {
                let ghost old_sorted = sorted@;
                let ghost old_remaining = remaining@;
                let mb = remaining.remove(i);
                sorted.push(mb);
                proof {
                    lemma_root_step(old_sorted, old_remaining, ms0, i as int);
                }
            },
            None => {
                let id = cycle_witness(&remaining);
                proof {
                    let pm_rem = parent_map(remaining@);
                    let pm0 = parent_map(ms0);
                    remaining@.to_multiset_ensures();
                    ms0.to_multiset_ensures();
                    assert forall|x: Seq<char>| #![trigger pm_rem.dom().contains(x)]
                        pm_rem.dom().contains(x) implies pm0.dom().contains(x) && pm0[x]
                        == pm_rem[x] by {
                        lemma_same_mailbox(sorted@, remaining@, ms0, x);
                    }
                    let k = choose|k: nat| 1 <= k && chain(pm_rem, id@, k) == Option::Some(id@);
                    lemma_chain_submap(pm_rem, pm0, id@, k, id@);
                }
                return Err(RestoreError::Cycle { id });
            },
        }
    }
}

/// A mailbox of the remaining set is the mailbox of the whole input with
/// that identifier, and its parent edge is the same in both maps.
proof fn lemma_same_mailbox(
    sorted: Seq<Mailbox>,
    remaining: Seq<Mailbox>,
    ms0: Seq<Mailbox>,
    x: Seq<char>,
)
    requires
        distinct_ids(ms0),
        sorted.to_multiset().add(remaining.to_multiset()) == ms0.to_multiset(),
        forall|id: Seq<char>|
            #![auto]
            id_in(ms0, id) <==> (id_in(sorted, id) || id_in(remaining, id)),
        parent_map(remaining).dom().contains(x),
    ensures
        parent_map(ms0).dom().contains(x),
        parent_map(ms0)[x] == parent_map(remaining)[x],
{
    remaining.to_multiset_ensures();
    ms0.to_multiset_ensures();
    lemma_sub_distinct(sorted, remaining, ms0);
    assert(id_in(remaining, x));
    let jr = choose|j: int| 0 <= j < remaining.len() && remaining[j].id@ == x;
    assert(remaining[jr].id@ == x);
    let mb = mailbox_at(remaining, x);
    assert(remaining[jr] == mb) by {
        let jc = choose|j: int| 0 <= j < remaining.len() && remaining[j].id@ == x;
        assert(remaining[jc].id@ == x);
        if jc != jr {
            assert(remaining[jc].id@ != remaining[jr].id@);
        }
    };
    // mb is in ms0
    assert(remaining.contains(mb));
    assert(remaining.to_multiset().count(mb) > 0);
    assert(ms0.to_multiset().count(mb) > 0);
    assert(ms0.contains(mb));
    let j0 = choose|j: int| 0 <= j < ms0.len() && ms0[j] == mb;
    assert(ms0[j0].id@ == x);
    // the input's mailbox with identifier x is mb
    assert(mailbox_at(ms0, x) == mb) by {
        let jc = choose|j: int| 0 <= j < ms0.len() && ms0[j].id@ == x;
        if jc != j0 {
            assert(ms0[jc].id@ != ms0[j0].id@);
        }
    };
    // its parent is in remaining, hence in ms0
    assert(id_in(remaining, the_parent(mb)));
}

/// The remaining set keeps distinct identifiers: it is drawn from the
/// input.
proof fn lemma_sub_distinct(sorted: Seq<Mailbox>, remaining: Seq<Mailbox>, ms0: Seq<Mailbox>)
    requires
        distinct_ids(ms0),
        sorted.to_multiset().add(remaining.to_multiset()) == ms0.to_multiset(),
    ensures
        distinct_ids(remaining),
{
    remaining.to_multiset_ensures();
    ms0.to_multiset_ensures();
    assert forall|i: int, j: int|
        0 <= i < j < remaining.len() implies remaining[i].id@ != remaining[j].id@ by {
        if remaining[i].id@ == remaining[j].id@ {
            if remaining[i] == remaining[j] {
                lemma_count_two(remaining, i, j);
                assert(ms0.to_multiset().count(remaining[i]) >= 2);
                lemma_multiset_count_distinct(ms0, remaining[i]);
            } else {
                assert(remaining.to_multiset().count(remaining[i]) > 0);
                assert(ms0.to_multiset().count(remaining[i]) > 0);
                assert(ms0.contains(remaining[i]));
                assert(remaining.to_multiset().count(remaining[j]) > 0);
                assert(ms0.to_multiset().count(remaining[j]) > 0);
                assert(ms0.contains(remaining[j]));
                let a = choose|a: int| 0 <= a < ms0.len() && ms0[a] == remaining[i];
                let b = choose|b: int| 0 <= b < ms0.len() && ms0[b] == remaining[j];
                assert(a != b);
                assert(ms0[a].id@ != ms0[b].id@);
            }
        }
    }
}

/// One step of the sort: moving a root from the remaining set to the end
/// of the sorted prefix preserves every loop invariant.
proof fn lemma_root_step(sorted: Seq<Mailbox>, remaining: Seq<Mailbox>, ms0: Seq<Mailbox>, i: int)
    requires
        0 <= i < remaining.len(),
        distinct_ids(ms0),
        distinct_ids(remaining),
        distinct_ids(sorted),
        sorted.to_multiset().add(remaining.to_multiset()) == ms0.to_multiset(),
        parents_first(sorted, ms0),
        forall|id: Seq<char>|
            #![auto]
            id_in(ms0, id) <==> (id_in(sorted, id) || id_in(remaining, id)),
        forall|id: Seq<char>| #![auto] !(id_in(sorted, id) && id_in(remaining, id)),
        !(has_parent(remaining[i]) && id_in(remaining, the_parent(remaining[i]))),
    ensures
        ({
            let sorted2 = sorted.push(remaining[i]);
            let remaining2 = remaining.remove(i);
            &&& distinct_ids(remaining2)
            &&& distinct_ids(sorted2)
            &&& sorted2.to_multiset().add(remaining2.to_multiset()) == ms0.to_multiset()
            &&& sorted2.len() + remaining2.len() == sorted.len() + remaining.len()
            &&& parents_first(sorted2, ms0)
            &&& forall|id: Seq<char>|
                #![auto]
                id_in(ms0, id) <==> (id_in(sorted2, id) || id_in(remaining2, id))
            &&& forall|id: Seq<char>| #![auto] !(id_in(sorted2, id) && id_in(remaining2, id))
        }),
{
    let mb = remaining[i];
    let sorted2 = sorted.push(mb);
    let remaining2 = remaining.remove(i);
    sorted.to_multiset_ensures();
    remaining.to_multiset_ensures();
    // multiset bookkeeping
    assert(sorted2.to_multiset() =~= sorted.to_multiset().insert(mb));
    assert(remaining2.to_multiset() =~= remaining.to_multiset().remove(mb));
    assert(remaining.to_multiset().count(mb) > 0) by {
        assert(remaining.contains(mb));
    };
    assert(sorted2.to_multiset().add(remaining2.to_multiset()) =~= ms0.to_multiset());
    // indexing through the removal
    assert forall|a: int| 0 <= a < remaining2.len() implies remaining2[a] == (if a < i {
        remaining[a]
    } else {
        remaining[a + 1]
    }) by {}
    assert(distinct_ids(remaining2));
    // mb's identifier is no longer in the remaining set
    assert forall|id: Seq<char>| #![auto] id_in(remaining, id) && id != mb.id@ implies id_in(
        remaining2,
        id,
    ) by {
        let j = choose|j: int| 0 <= j < remaining.len() && remaining[j].id@ == id;
        if j < i {
            assert(remaining2[j].id@ == id);
        } else {
            assert(j != i);
            assert(remaining2[j - 1].id@ == id);
        }
    }
    assert forall|id: Seq<char>| #![auto] id_in(remaining2, id) implies id_in(remaining, id) && id
        != mb.id@ by {
        let j = choose|j: int| 0 <= j < remaining2.len() && remaining2[j].id@ == id;
        if j < i {
            assert(remaining[j].id@ == id);
        } else {
            assert(remaining[j + 1].id@ == id);
        }
    }
    // sorted2 keeps distinct identifiers
    assert(distinct_ids(sorted2)) by {
        assert forall|a: int, b: int|
            0 <= a < b < sorted2.len() implies sorted2[a].id@ != sorted2[b].id@ by {
            if b == sorted2.len() - 1 {
                assert(sorted2[b] == mb);
                assert(id_in(remaining, mb.id@));
                if sorted2[a].id@ == mb.id@ {
                    assert(id_in(sorted, mb.id@));
                }
            }
        }
    };
    // parents-first is kept: old entries are untouched, and mb's parent,
    // when it is in the input at all, is already in the sorted prefix
    assert(parents_first(sorted2, ms0)) by {
        assert forall|x: int|
            0 <= x < sorted2.len() && has_parent(#[trigger] sorted2[x]) && id_in(
                ms0,
                the_parent(sorted2[x]),
            ) implies exists|j: int| 0 <= j < x && #[trigger] sorted2[j].id@ == the_parent(
            sorted2[x],
        ) by {
            if x < sorted.len() {
                assert(sorted2[x] == sorted[x]);
                let j = choose|j: int| 0 <= j < x && sorted[j].id@ == the_parent(sorted[x]);
                assert(sorted2[j].id@ == the_parent(sorted2[x]));
            } else {
                assert(sorted2[x] == mb);
                let p = the_parent(mb);
                assert(!id_in(remaining, p));
                assert(id_in(sorted, p));
                let j = choose|j: int| 0 <= j < sorted.len() && sorted[j].id@ == p;
                assert(sorted2[j].id@ == p);
            }
        }
    };
    // identifier partition
    assert forall|id: Seq<char>| #![auto] id_in(sorted2, id) implies id_in(sorted, id) || id
        == mb.id@ by {
        let j = choose|j: int| 0 <= j < sorted2.len() && sorted2[j].id@ == id;
        if j < sorted.len() {
            assert(sorted[j].id@ == id);
        }
    }
    assert forall|id: Seq<char>| #![auto] id_in(sorted, id) implies id_in(sorted2, id) by {
        let j = choose|j: int| 0 <= j < sorted.len() && sorted[j].id@ == id;
        assert(sorted2[j].id@ == id);
    }
    assert(id_in(sorted2, mb.id@)) by {
        assert(sorted2[sorted2.len() - 1].id@ == mb.id@);
    }
}

/// Whether some string in `v` reads `id`.
pub open spec fn sid_in(v: Seq<String>, id: Seq<char>) -> bool {
    exists|j: int| 0 <= j < v.len() && #[trigger] v[j]@ == id
}

/// The mailbox identifiers that must be created: those referenced but not
/// already on the server, each once. Identifiers already remote are never
/// touched.
pub fn missing_mailbox_ids(referenced: &Vec<String>, on_server: &Vec<String>) -> (r: Vec<String>)
    ensures
        forall|id: Seq<char>|
            #![auto]
            sid_in(r@, id) <==> (sid_in(referenced@, id) && !sid_in(on_server@, id)),
        forall|a: int, b: int| 0 <= a < b < r@.len() ==> r@[a]@ != r@[b]@,
{
    let mut r: Vec<String> = Vec::new();
    let mut i: usize = 0;
    while i < referenced.len()
        invariant
            i <= referenced@.len(),
            forall|id: Seq<char>|
                #![auto]
                sid_in(r@, id) ==> (sid_in(referenced@, id) && !sid_in(on_server@, id)),
            forall|j: int|
                #![auto]
                0 <= j < i && !sid_in(on_server@, referenced@[j]@) ==> sid_in(
                    r@,
                    referenced@[j]@,
                ),
            forall|a: int, b: int| 0 <= a < b < r@.len() ==> r@[a]@ != r@[b]@,
        decreases referenced@.len() - i,
    {
        let ghost old_r = r@;
        let id = &referenced[i];
        if find_str(on_server, id).is_none() && find_str(&r, id).is_none() {
            r.push(id.clone());
            proof {
                assert(r@[r@.len() - 1]@ == referenced@[i as int]@);
                assert forall|idq: Seq<char>| #![auto] sid_in(r@, idq) implies (sid_in(
                    referenced@,
                    idq,
                ) && !sid_in(on_server@, idq)) by {
                    let j = choose|j: int| 0 <= j < r@.len() && r@[j]@ == idq;
                    if j < old_r.len() {
                        assert(old_r[j]@ == idq);
                        assert(sid_in(old_r, idq));
                    } else {
                        assert(idq == referenced@[i as int]@);
                    }
                }
                assert forall|idq: Seq<char>| #![auto] sid_in(old_r, idq) implies sid_in(
                    r@,
                    idq,
                ) by {
                    let j = choose|j: int| 0 <= j < old_r.len() && old_r[j]@ == idq;
                    assert(r@[j]@ == idq);
                }
            }
        }
        proof {
            assert forall|j: int|
                #![auto]
                0 <= j < i + 1 && !sid_in(on_server@, referenced@[j]@) implies sid_in(
                r@,
                referenced@[j]@,
            ) by {
                if j < i {
                    let k = choose|k: int| 0 <= k < old_r.len() && old_r[k]@ == referenced@[j]@;
                    assert(r@[k]@ == referenced@[j]@);
                }
            }
        }
        i = i + 1;
    }
    r
}

/// Whether some loaded mailbox names `id` as its parent.
pub open spec fn parent_referenced(loaded: Seq<Mailbox>, id: Seq<char>) -> bool {
    exists|j: int|
        0 <= j < loaded.len() && has_parent(#[trigger] loaded[j]) && the_parent(loaded[j]) == id
}

/// One step of the ancestor closure: the parents of the loaded mailboxes
/// that are neither on the server nor already selected for creation, each
/// once. Iterating this step until it returns nothing — loading each round's
/// result before the next — selects every missing ancestor of every missing
/// mailbox, so a child is never created under a parent that does not exist.
pub fn missing_parents(
    loaded: &Vec<Mailbox>,
    on_server: &Vec<String>,
    selected: &Vec<String>,
) -> (r: Vec<String>)
    ensures
        forall|id: Seq<char>|
            #![auto]
            sid_in(r@, id) <==> (parent_referenced(loaded@, id) && !sid_in(on_server@, id)
                && !sid_in(selected@, id)),
        forall|a: int, b: int| 0 <= a < b < r@.len() ==> r@[a]@ != r@[b]@,
{
    let mut r: Vec<String> = Vec::new();
    let mut i: usize = 0;
    while i < loaded.len()
        invariant
            i <= loaded@.len(),
            forall|id: Seq<char>|
                #![auto]
                sid_in(r@, id) ==> (parent_referenced(loaded@, id) && !sid_in(on_server@, id)
                    && !sid_in(selected@, id)),
            forall|j: int|
                #![auto]
                0 <= j < i && has_parent(loaded@[j]) && !sid_in(on_server@, the_parent(loaded@[j]))
                    && !sid_in(selected@, the_parent(loaded@[j])) ==> sid_in(
                    r@,
                    the_parent(loaded@[j]),
                ),
            forall|a: int, b: int| 0 <= a < b < r@.len() ==> r@[a]@ != r@[b]@,
        decreases loaded@.len() - i,
    {
        let ghost old_r = r@;
        match &loaded[i].parent_id {
            None => {
            },
            Some(p) => {
                if find_str(on_server, p).is_none() && find_str(selected, p).is_none() && find_str(
                    &r,
                    p,
                ).is_none() {
                    r.push(p.clone());
                    proof {
                        assert(r@[r@.len() - 1]@ == the_parent(loaded@[i as int]));
                        assert(parent_referenced(loaded@, p@)) by {
                            assert(has_parent(loaded@[i as int]) && the_parent(loaded@[i as int])
                                == p@);
                        };
                        assert forall|idq: Seq<char>| #![auto] sid_in(r@, idq) implies (
                        parent_referenced(loaded@, idq) && !sid_in(on_server@, idq) && !sid_in(
                            selected@,
                            idq,
                        )) by {
                            let j = choose|j: int| 0 <= j < r@.len() && r@[j]@ == idq;
                            if j < old_r.len() {
                                assert(old_r[j]@ == idq);
                                assert(sid_in(old_r, idq));
                            } else {
                                assert(idq == p@);
                            }
                        }
                        assert forall|idq: Seq<char>| #![auto] sid_in(old_r, idq) implies sid_in(
                            r@,
                            idq,
                        ) by {
                            let j = choose|j: int| 0 <= j < old_r.len() && old_r[j]@ == idq;
                            assert(r@[j]@ == idq);
                        }
                    }
                }
            },
        }
        proof {
            assert forall|j: int|
                #![auto]
                0 <= j < i + 1 && has_parent(loaded@[j]) && !sid_in(
                    on_server@,
                    the_parent(loaded@[j]),
                ) && !sid_in(selected@, the_parent(loaded@[j])) implies sid_in(
                r@,
                the_parent(loaded@[j]),
            ) by {
                if j < i {
                    let k = choose|k: int|
                        0 <= k < old_r.len() && old_r[k]@ == the_parent(loaded@[j]);
                    assert(r@[k]@ == the_parent(loaded@[j]));
                }
            }
        }
        i = i + 1;
    }
    r
}

} // verus!
