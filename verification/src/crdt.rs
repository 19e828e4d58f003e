//! The gossip-based anti-entropy replication engine shared by the
//! broadcast and grow-only counter actors.
//!
//! A node's state is an append-only store of `(UniqueMessageId, value)`
//! pairs together with, for every peer, the set of ids that peer is
//! believed to have observed.  Merging a gossip payload is idempotent and
//! order-independent, which is what lets repeated, unacknowledged
//! re-sends converge without coordination.
use crate::message::{ActorID, Message, MessageID};
use vstd::prelude::*;

verus! {

use vstd::pervasive::VecAdditionalExecFns;

/// The globally unique identifier of a replicated value: the node that
/// originated it together with that node's own sequence number for it.
#[derive(Debug)]
pub struct UniqueMessageId {
    /// The node that introduced the value.
    pub origin: ActorID,
    /// The origin's local sequence number.
    pub seq: MessageID,
}

impl View for UniqueMessageId {
    type V = (Seq<char>, u64);

    open spec fn view(&self) -> (Seq<char>, u64) {
        (self.origin@, self.seq)
    }
}

impl UniqueMessageId {
    /// An equal copy of this id.
    pub fn duplicate(&self) -> (r: Self)
        ensures
            r == *self,
    {
        UniqueMessageId { origin: self.origin.clone(), seq: self.seq }
    }

    /// Whether two ids name the same value.
    pub fn same(&self, other: &Self) -> (r: bool)
        ensures
            r == (self@ == other@),
    {
        self.origin == other.origin && self.seq == other.seq
    }
}

/// A value the engine can replicate.  Gossip fans one stored value out to
/// several peers, so it must be possible to produce a copy equal to the
/// original.
pub trait GossipValue: Sized {
    /// An equal copy of this value.
    fn duplicate(&self) -> (r: Self)
        ensures
            r == *self,
    ;
}

impl GossipValue for u64 {
    fn duplicate(&self) -> (r: u64) {
        *self
    }
}

impl GossipValue for String {
    fn duplicate(&self) -> (r: String) {
        self.clone()
    }
}

/// The ids named by a list of `UniqueMessageId`s.
pub open spec fn id_set(l: Seq<UniqueMessageId>) -> Set<(Seq<char>, u64)> {
    Set::new(|v: (Seq<char>, u64)| exists|i: int| 0 <= i < l.len() && l[i]@ == v)
}

/// No two ids in the list name the same value.
pub open spec fn distinct_ids(l: Seq<UniqueMessageId>) -> bool {
    forall|i: int, j: int| 0 <= i < j < l.len() ==> l[i]@ != l[j]@
}

/// An empty list names no ids.
pub proof fn lemma_id_set_empty()
    ensures
        id_set(Seq::<UniqueMessageId>::empty()) == Set::<(Seq<char>, u64)>::empty(),
{
    assert(id_set(Seq::<UniqueMessageId>::empty()) =~= Set::<(Seq<char>, u64)>::empty());
}

/// Appending an id adds exactly that id to the set.
pub proof fn lemma_id_set_push(l: Seq<UniqueMessageId>, x: UniqueMessageId)
    ensures
        id_set(l.push(x)) == id_set(l).insert(x@),
{
    assert forall|v: (Seq<char>, u64)| id_set(l.push(x)).contains(v) implies id_set(
        l,
    ).insert(x@).contains(v) by {
        let i = choose|i: int| 0 <= i < l.push(x).len() && l.push(x)[i]@ == v;
        if i < l.len() {
            assert(l[i]@ == v);
            assert(id_set(l).contains(v));
        } else {
            assert(l.push(x)[i] == x);
        }
    }
    assert forall|v: (Seq<char>, u64)| id_set(l).insert(x@).contains(v) implies id_set(
        l.push(x),
    ).contains(v) by {
        if v == x@ {
            assert(l.push(x)[l.len() as int]@ == v);
        } else {
            let i = choose|i: int| 0 <= i < l.len() && l[i]@ == v;
            assert(l.push(x)[i]@ == v);
        }
    }
    assert(id_set(l.push(x)) =~= id_set(l).insert(x@));
}

/// The ids occurring in a store.
pub open spec fn entry_ids<V>(s: Seq<((Seq<char>, u64), V)>) -> Set<(Seq<char>, u64)> {
    Set::new(|v: (Seq<char>, u64)| exists|i: int| 0 <= i < s.len() && s[i].0 == v)
}

/// Each id occurs at most once in the store.
pub open spec fn distinct_entry_ids<V>(s: Seq<((Seq<char>, u64), V)>) -> bool {
    forall|i: int, j: int| 0 <= i < j < s.len() ==> s[i].0 != s[j].0
}

/// A gossip payload as the model sees it: id views paired with values.
pub open spec fn payload_view<V>(p: Seq<(UniqueMessageId, V)>) -> Seq<((Seq<char>, u64), V)> {
    p.map(|i: int, e: (UniqueMessageId, V)| (e.0@, e.1))
}

/// The store after merging a payload: entries whose id is already known
/// are skipped, the rest are appended in payload order, and each appended
/// id immediately becomes known (so a duplicate later in the same payload
/// is skipped as well).
pub open spec fn merge_store<V>(
    store: Seq<((Seq<char>, u64), V)>,
    known: Set<(Seq<char>, u64)>,
    payload: Seq<((Seq<char>, u64), V)>,
) -> Seq<((Seq<char>, u64), V)>
    decreases payload.len(),
{
    if payload.len() == 0 {
        store
    } else if known.contains(payload[0].0) {
        merge_store(store, known, payload.subrange(1, payload.len() as int))
    } else {
        merge_store(
            store.push(payload[0]),
            known.insert(payload[0].0),
            payload.subrange(1, payload.len() as int),
        )
    }
}

/// A node's own knowledge after merging a payload.
pub open spec fn merge_known<V>(
    known: Set<(Seq<char>, u64)>,
    payload: Seq<((Seq<char>, u64), V)>,
) -> Set<(Seq<char>, u64)>
    decreases payload.len(),
{
    if payload.len() == 0 {
        known
    } else if known.contains(payload[0].0) {
        merge_known(known, payload.subrange(1, payload.len() as int))
    } else {
        merge_known(known.insert(payload[0].0), payload.subrange(1, payload.len() as int))
    }
}

/// Appending a store entry adds exactly its id.
pub proof fn lemma_entry_ids_push<V>(s: Seq<((Seq<char>, u64), V)>, e: ((Seq<char>, u64), V))
    ensures
        entry_ids(s.push(e)) == entry_ids(s).insert(e.0),
{
    assert forall|v: (Seq<char>, u64)| entry_ids(s.push(e)).contains(v) implies entry_ids(
        s,
    ).insert(e.0).contains(v) by {
        let i = choose|i: int| 0 <= i < s.push(e).len() && s.push(e)[i].0 == v;
        if i < s.len() {
            assert(s[i].0 == v);
            assert(entry_ids(s).contains(v));
        } else {
            assert(s.push(e)[i] == e);
        }
    }
    assert forall|v: (Seq<char>, u64)| entry_ids(s).insert(e.0).contains(v) implies entry_ids(
        s.push(e),
    ).contains(v) by {
        if v == e.0 {
            assert(s.push(e)[s.len() as int].0 == v);
        } else {
            let i = choose|i: int| 0 <= i < s.len() && s[i].0 == v;
            assert(s.push(e)[i].0 == v);
        }
    }
    assert(entry_ids(s.push(e)) =~= entry_ids(s).insert(e.0));
}

/// The ids of a non-empty payload: head id plus the ids of the tail.
pub proof fn lemma_entry_ids_cons<V>(p: Seq<((Seq<char>, u64), V)>)
    requires
        p.len() > 0,
    ensures
        entry_ids(p) == entry_ids(p.subrange(1, p.len() as int)).insert(p[0].0),
{
    let rest = p.subrange(1, p.len() as int);
    assert forall|v: (Seq<char>, u64)| entry_ids(p).contains(v) implies entry_ids(
        rest,
    ).insert(p[0].0).contains(v) by {
        let i = choose|i: int| 0 <= i < p.len() && p[i].0 == v;
        if i > 0 {
            assert(rest[i - 1].0 == v);
            assert(entry_ids(rest).contains(v));
        }
    }
    assert forall|v: (Seq<char>, u64)| entry_ids(rest).insert(p[0].0).contains(v)
        implies entry_ids(p).contains(v) by {
        if v == p[0].0 {
            assert(p[0].0 == v);
        } else {
            let i = choose|i: int| 0 <= i < rest.len() && rest[i].0 == v;
            assert(p[i + 1].0 == v);
        }
    }
    assert(entry_ids(p) =~= entry_ids(rest).insert(p[0].0));
}

/// After a merge, the known set is exactly the old one united with every
/// payload id.
pub proof fn lemma_merge_known_char<V>(
    known: Set<(Seq<char>, u64)>,
    payload: Seq<((Seq<char>, u64), V)>,
)
    ensures
        merge_known(known, payload) == known.union(entry_ids(payload)),
    decreases payload.len(),
{
    if payload.len() == 0 {
        assert(entry_ids(payload) =~= Set::<(Seq<char>, u64)>::empty());
        assert(merge_known(known, payload) =~= known.union(entry_ids(payload)));
    } else {
        let rest = payload.subrange(1, payload.len() as int);
        lemma_entry_ids_cons(payload);
        if known.contains(payload[0].0) {
            lemma_merge_known_char(known, rest);
        } else {
            lemma_merge_known_char(known.insert(payload[0].0), rest);
        }
        assert(merge_known(known, payload) =~= known.union(entry_ids(payload)));
    }
}

/// After a merge, the store's ids are exactly the old ones united with
/// the payload ids that were not yet known.
pub proof fn lemma_merge_store_ids<V>(
    store: Seq<((Seq<char>, u64), V)>,
    known: Set<(Seq<char>, u64)>,
    payload: Seq<((Seq<char>, u64), V)>,
)
    ensures
        entry_ids(merge_store(store, known, payload)) == entry_ids(store).union(
            entry_ids(payload).difference(known),
        ),
    decreases payload.len(),
{
    if payload.len() == 0 {
        assert(entry_ids(payload) =~= Set::<(Seq<char>, u64)>::empty());
        assert(entry_ids(merge_store(store, known, payload)) =~= entry_ids(store).union(
            entry_ids(payload).difference(known),
        ));
    } else {
        let rest = payload.subrange(1, payload.len() as int);
        lemma_entry_ids_cons(payload);
        if known.contains(payload[0].0) {
            lemma_merge_store_ids(store, known, rest);
        } else {
            lemma_merge_store_ids(store.push(payload[0]), known.insert(payload[0].0), rest);
            lemma_entry_ids_push(store, payload[0]);
        }
        assert(entry_ids(merge_store(store, known, payload)) =~= entry_ids(store).union(
            entry_ids(payload).difference(known),
        ));
    }
}

/// Appending an entry with an unused id keeps the store's ids distinct
/// and adds exactly that id.
pub proof fn lemma_append_fresh<V>(s: Seq<((Seq<char>, u64), V)>, e: ((Seq<char>, u64), V))
    requires
        distinct_entry_ids(s),
        !entry_ids(s).contains(e.0),
    ensures
        distinct_entry_ids(s.push(e)),
        entry_ids(s.push(e)) == entry_ids(s).insert(e.0),
{
    lemma_entry_ids_push(s, e);
    assert forall|a: int, b: int| 0 <= a < b < s.push(e).len() implies s.push(e)[a].0 != s.push(
        e,
    )[b].0 by {
        assert(s.push(e)[a] == s[a]);
        if b < s.len() {
            assert(s.push(e)[b] == s[b]);
        } else {
            assert(s.push(e)[b] == e);
            if s[a].0 == e.0 {
                assert(entry_ids(s).contains(e.0));
            }
        }
    }
}

/// A merge keeps the store's ids distinct and the knowledge equal to
/// them, when both held before.
pub proof fn lemma_merge_keeps_coherence<V>(
    s: Seq<((Seq<char>, u64), V)>,
    k: Set<(Seq<char>, u64)>,
    p: Seq<((Seq<char>, u64), V)>,
)
    requires
        distinct_entry_ids(s),
        k == entry_ids(s),
    ensures
        distinct_entry_ids(merge_store(s, k, p)),
        merge_known(k, p) == entry_ids(merge_store(s, k, p)),
{
    lemma_merge_keeps_ids_distinct(s, k, p);
    lemma_merge_known_char(k, p);
    lemma_merge_store_ids(s, k, p);
    assert(merge_known(k, p) =~= entry_ids(merge_store(s, k, p)));
}

/// Every entry of a merged store came from the old store or the payload.
pub proof fn lemma_merge_store_entries_from<V>(
    s: Seq<((Seq<char>, u64), V)>,
    k: Set<(Seq<char>, u64)>,
    p: Seq<((Seq<char>, u64), V)>,
)
    ensures
        forall|i: int|
            0 <= i < merge_store(s, k, p).len() ==> s.contains(
                #[trigger] merge_store(s, k, p)[i],
            ) || p.contains(merge_store(s, k, p)[i]),
    decreases p.len(),
{
    if p.len() > 0 {
        let rest = p.subrange(1, p.len() as int);
        let e = p[0];
        if k.contains(e.0) {
            lemma_merge_store_entries_from(s, k, rest);
            assert forall|i: int| 0 <= i < merge_store(s, k, p).len() implies s.contains(
                #[trigger] merge_store(s, k, p)[i],
            ) || p.contains(merge_store(s, k, p)[i]) by {
                let x = merge_store(s, k, p)[i];
                assert(merge_store(s, k, p) == merge_store(s, k, rest));
                if rest.contains(x) {
                    let j = choose|j: int| 0 <= j < rest.len() && rest[j] == x;
                    assert(p[j + 1] == x);
                }
            }
        } else {
            lemma_merge_store_entries_from(s.push(e), k.insert(e.0), rest);
            assert forall|i: int| 0 <= i < merge_store(s, k, p).len() implies s.contains(
                #[trigger] merge_store(s, k, p)[i],
            ) || p.contains(merge_store(s, k, p)[i]) by {
                let x = merge_store(s, k, p)[i];
                assert(merge_store(s, k, p) == merge_store(s.push(e), k.insert(e.0), rest));
                if s.push(e).contains(x) {
                    let j = choose|j: int| 0 <= j < s.push(e).len() && s.push(e)[j] == x;
                    if j < s.len() {
                        assert(s[j] == x);
                    } else {
                        assert(x == e);
                        assert(p[0] == x);
                    }
                } else if rest.contains(x) {
                    let j = choose|j: int| 0 <= j < rest.len() && rest[j] == x;
                    assert(p[j + 1] == x);
                }
            }
        }
    }
}

/// The set of entries in a store.
pub open spec fn entry_set<V>(s: Seq<((Seq<char>, u64), V)>) -> Set<((Seq<char>, u64), V)> {
    Set::new(|e: ((Seq<char>, u64), V)| exists|i: int| 0 <= i < s.len() && s[i] == e)
}

/// Within the sequence, an id determines its value: global message ids
/// are never reused for different values.
pub open spec fn consistent<V>(p: Seq<((Seq<char>, u64), V)>) -> bool {
    forall|i: int, j: int|
        #![trigger p[i], p[j]]
        0 <= i < p.len() && 0 <= j < p.len() && p[i].0 == p[j].0 ==> p[i].1 == p[j].1
}

/// Appending a store entry adds exactly that entry to the entry set.
pub proof fn lemma_entry_set_push<V>(s: Seq<((Seq<char>, u64), V)>, e: ((Seq<char>, u64), V))
    ensures
        entry_set(s.push(e)) == entry_set(s).insert(e),
{
    assert forall|x: ((Seq<char>, u64), V)| entry_set(s.push(e)).contains(x) implies entry_set(
        s,
    ).insert(e).contains(x) by {
        let i = choose|i: int| 0 <= i < s.push(e).len() && s.push(e)[i] == x;
        if i < s.len() {
            assert(s[i] == x);
            assert(entry_set(s).contains(x));
        } else {
            assert(s.push(e)[i] == e);
        }
    }
    assert forall|x: ((Seq<char>, u64), V)| entry_set(s).insert(e).contains(x)
        implies entry_set(s.push(e)).contains(x) by {
        if x == e {
            assert(s.push(e)[s.len() as int] == x);
        } else {
            let i = choose|i: int| 0 <= i < s.len() && s[i] == x;
            assert(s.push(e)[i] == x);
        }
    }
    assert(entry_set(s.push(e)) =~= entry_set(s).insert(e));
}

/// Merging a payload every id of which is already known changes nothing.
proof fn lemma_merge_all_known<V>(
    store: Seq<((Seq<char>, u64), V)>,
    known: Set<(Seq<char>, u64)>,
    payload: Seq<((Seq<char>, u64), V)>,
)
    requires
        forall|j: int| 0 <= j < payload.len() ==> known.contains(#[trigger] payload[j].0),
    ensures
        merge_store(store, known, payload) == store,
        merge_known(known, payload) == known,
    decreases payload.len(),
{
    if payload.len() > 0 {
        let rest = payload.subrange(1, payload.len() as int);
        assert(known.contains(payload[0].0));
        assert(forall|j: int| 0 <= j < rest.len() ==> #[trigger] rest[j] == payload[j + 1]);
        lemma_merge_all_known(store, known, rest);
    }
}

/// Law: merging the same gossip payload twice yields exactly the store
/// and knowledge of merging it once.
pub proof fn lemma_merge_idempotent<V>(
    store: Seq<((Seq<char>, u64), V)>,
    known: Set<(Seq<char>, u64)>,
    payload: Seq<((Seq<char>, u64), V)>,
)
    ensures
        merge_store(
            merge_store(store, known, payload),
            merge_known(known, payload),
            payload,
        ) == merge_store(store, known, payload),
        merge_known(merge_known(known, payload), payload) == merge_known(known, payload),
{
    lemma_merge_known_char(known, payload);
    assert forall|j: int| 0 <= j < payload.len() implies merge_known(known, payload).contains(
        #[trigger] payload[j].0,
    ) by {
        assert(entry_ids(payload).contains(payload[j].0));
    }
    lemma_merge_all_known(merge_store(store, known, payload), merge_known(known, payload), payload);
}

/// After a merge, the store's entries are the old ones plus exactly the
/// payload entries whose id was unknown, provided the payload does not
/// carry two values under one id.
pub proof fn lemma_merge_store_set<V>(
    store: Seq<((Seq<char>, u64), V)>,
    known: Set<(Seq<char>, u64)>,
    payload: Seq<((Seq<char>, u64), V)>,
)
    requires
        consistent(payload),
    ensures
        entry_set(merge_store(store, known, payload)) == entry_set(store).union(
            Set::new(
                |e: ((Seq<char>, u64), V)| payload.contains(e) && !known.contains(e.0),
            ),
        ),
    decreases payload.len(),
{
    let fresh = Set::new(|e: ((Seq<char>, u64), V)| payload.contains(e) && !known.contains(e.0));
    if payload.len() == 0 {
        assert(entry_set(merge_store(store, known, payload)) =~= entry_set(store).union(fresh));
    } else {
        let rest = payload.subrange(1, payload.len() as int);
        let e0 = payload[0];
        assert(forall|j: int| 0 <= j < rest.len() ==> #[trigger] rest[j] == payload[j + 1]);
        assert(consistent(rest));
        if known.contains(e0.0) {
            lemma_merge_store_set(store, known, rest);
            let freshr = Set::new(
                |e: ((Seq<char>, u64), V)| rest.contains(e) && !known.contains(e.0),
            );
            assert forall|e: ((Seq<char>, u64), V)| fresh.contains(e) implies freshr.contains(
                e,
            ) by {
                let i = choose|i: int| 0 <= i < payload.len() && payload[i] == e;
                assert(i != 0);
                assert(rest[i - 1] == e);
            }
            assert forall|e: ((Seq<char>, u64), V)| freshr.contains(e) implies fresh.contains(
                e,
            ) by {
                let i = choose|i: int| 0 <= i < rest.len() && rest[i] == e;
                assert(payload[i + 1] == e);
            }
            assert(fresh =~= freshr);
        } else {
            lemma_merge_store_set(store.push(e0), known.insert(e0.0), rest);
            lemma_entry_set_push(store, e0);
            let freshr = Set::new(
                |e: ((Seq<char>, u64), V)|
                    rest.contains(e) && !known.insert(e0.0).contains(e.0),
            );
            assert forall|e: ((Seq<char>, u64), V)| entry_set(store).insert(e0).union(
                freshr,
            ).contains(e) implies entry_set(store).union(fresh).contains(e) by {
                if e == e0 {
                    assert(payload[0] == e);
                    assert(fresh.contains(e));
                } else if freshr.contains(e) {
                    let i = choose|i: int| 0 <= i < rest.len() && rest[i] == e;
                    assert(payload[i + 1] == e);
                    assert(fresh.contains(e));
                }
            }
            assert forall|e: ((Seq<char>, u64), V)| entry_set(store).union(fresh).contains(e)
                implies entry_set(store).insert(e0).union(freshr).contains(e) by {
                if fresh.contains(e) {
                    let i = choose|i: int| 0 <= i < payload.len() && payload[i] == e;
                    if i == 0 {
                        assert(e == e0);
                    } else {
                        assert(rest[i - 1] == e);
                        if e.0 == e0.0 {
                            // an id determines its value, so this is the head entry
                            assert(payload[i].1 == payload[0].1);
                            assert(e == e0);
                        } else {
                            assert(freshr.contains(e));
                        }
                    }
                }
            }
            assert(entry_set(store).insert(e0).union(freshr) =~= entry_set(store).union(fresh));
        }
    }
}

/// Law: merging two gossip payloads in either order yields the same
/// knowledge and the same set of store entries, provided no id occurs in
/// the two payloads with different values.
pub proof fn lemma_merge_commutative<V>(
    store: Seq<((Seq<char>, u64), V)>,
    known: Set<(Seq<char>, u64)>,
    p: Seq<((Seq<char>, u64), V)>,
    q: Seq<((Seq<char>, u64), V)>,
)
    requires
        consistent(p + q),
    ensures
        merge_known(merge_known(known, p), q) == merge_known(merge_known(known, q), p),
        entry_set(merge_store(merge_store(store, known, p), merge_known(known, p), q))
            == entry_set(merge_store(merge_store(store, known, q), merge_known(known, q), p)),
{
    assert(forall|i: int| 0 <= i < p.len() ==> #[trigger] p[i] == (p + q)[i]);
    assert(forall|j: int| 0 <= j < q.len() ==> #[trigger] q[j] == (p + q)[p.len() + j]);
    assert(consistent(p));
    assert(consistent(q));
    lemma_merge_known_char(known, p);
    lemma_merge_known_char(known, q);
    lemma_merge_known_char(merge_known(known, p), q);
    lemma_merge_known_char(merge_known(known, q), p);
    assert(merge_known(merge_known(known, p), q) =~= merge_known(merge_known(known, q), p));
    lemma_merge_store_set(store, known, p);
    lemma_merge_store_set(merge_store(store, known, p), merge_known(known, p), q);
    lemma_merge_store_set(store, known, q);
    lemma_merge_store_set(merge_store(store, known, q), merge_known(known, q), p);
    let lhs = entry_set(merge_store(merge_store(store, known, p), merge_known(known, p), q));
    let rhs = entry_set(merge_store(merge_store(store, known, q), merge_known(known, q), p));
    assert forall|e: ((Seq<char>, u64), V)| lhs.contains(e) implies rhs.contains(e) by {
        lemma_merge_commutative_case(store, known, p, q, e);
    }
    assert forall|e: ((Seq<char>, u64), V)| rhs.contains(e) implies lhs.contains(e) by {
        assert(consistent(q + p)) by {
            assert(forall|i: int| 0 <= i < q.len() ==> #[trigger] q[i] == (q + p)[i]);
            assert(forall|j: int|
                0 <= j < p.len() ==> #[trigger] p[j] == (q + p)[q.len() + j]);
        }
        lemma_merge_commutative_case(store, known, q, p, e);
    }
    assert(lhs =~= rhs);
}

/// One direction of the commutativity set chase: an entry present after
/// merging `p` then `q` is present after merging `q` then `p`.
proof fn lemma_merge_commutative_case<V>(
    store: Seq<((Seq<char>, u64), V)>,
    known: Set<(Seq<char>, u64)>,
    p: Seq<((Seq<char>, u64), V)>,
    q: Seq<((Seq<char>, u64), V)>,
    e: ((Seq<char>, u64), V),
)
    requires
        consistent(p + q),
        entry_set(
            merge_store(merge_store(store, known, p), merge_known(known, p), q),
        ).contains(e),
    ensures
        entry_set(
            merge_store(merge_store(store, known, q), merge_known(known, q), p),
        ).contains(e),
{
    assert(forall|i: int| 0 <= i < p.len() ==> #[trigger] p[i] == (p + q)[i]);
    assert(forall|j: int| 0 <= j < q.len() ==> #[trigger] q[j] == (p + q)[p.len() + j]);
    assert(consistent(p));
    assert(consistent(q));
    lemma_merge_known_char(known, p);
    lemma_merge_known_char(known, q);
    lemma_merge_store_set(store, known, p);
    lemma_merge_store_set(merge_store(store, known, p), merge_known(known, p), q);
    lemma_merge_store_set(store, known, q);
    lemma_merge_store_set(merge_store(store, known, q), merge_known(known, q), p);
    if entry_set(store).contains(e) {
    } else if p.contains(e) && !known.contains(e.0) {
        // e came from p; on the other side it is either in q as well, or
        // survives the q-merge knowledge because its id is not in q
        if entry_ids(q).contains(e.0) {
            let j = choose|j: int| 0 <= j < q.len() && q[j].0 == e.0;
            let i = choose|i: int| 0 <= i < p.len() && p[i] == e;
            assert((p + q)[i].0 == (p + q)[p.len() + j].0);
            assert(q[j].1 == e.1);
            assert(q[j] == e);
            assert(q.contains(e));
        } else {
            assert(!merge_known(known, q).contains(e.0));
        }
    } else {
        assert(q.contains(e) && !merge_known(known, p).contains(e.0));
    }
}

/// Law: a merge never duplicates an id.  When the store's ids are
/// distinct and all known to the node itself, they remain distinct
/// however many gossip payloads are merged.
pub proof fn lemma_merge_keeps_ids_distinct<V>(
    store: Seq<((Seq<char>, u64), V)>,
    known: Set<(Seq<char>, u64)>,
    payload: Seq<((Seq<char>, u64), V)>,
)
    requires
        distinct_entry_ids(store),
        entry_ids(store).subset_of(known),
    ensures
        distinct_entry_ids(merge_store(store, known, payload)),
    decreases payload.len(),
{
    if payload.len() > 0 {
        let rest = payload.subrange(1, payload.len() as int);
        let e0 = payload[0];
        if known.contains(e0.0) {
            lemma_merge_keeps_ids_distinct(store, known, rest);
        } else {
            assert forall|i: int| 0 <= i < store.len() implies (#[trigger] store[i]).0
                != e0.0 by {
                if store[i].0 == e0.0 {
                    assert(entry_ids(store).contains(e0.0));
                }
            }
            assert(distinct_entry_ids(store.push(e0)));
            lemma_entry_ids_push(store, e0);
            assert(entry_ids(store.push(e0)).subset_of(known.insert(e0.0)));
            lemma_merge_keeps_ids_distinct(store.push(e0), known.insert(e0.0), rest);
        }
    }
}

/// The store entries whose id `known` does not contain, in store order:
/// what a gossip tick sends to a peer believed to have that knowledge.
pub open spec fn unsent_from<V>(
    store: Seq<((Seq<char>, u64), V)>,
    known: Set<(Seq<char>, u64)>,
) -> Seq<((Seq<char>, u64), V)>
    decreases store.len(),
{
    if store.len() == 0 {
        Seq::empty()
    } else {
        let rest = unsent_from(store.drop_last(), known);
        if known.contains(store.last().0) {
            rest
        } else {
            rest.push(store.last())
        }
    }
}

/// The ids of a tick's unsent entries: the store's ids less the known ones.
pub proof fn lemma_unsent_ids<V>(
    store: Seq<((Seq<char>, u64), V)>,
    known: Set<(Seq<char>, u64)>,
)
    ensures
        entry_ids(unsent_from(store, known)) == entry_ids(store).difference(known),
    decreases store.len(),
{
    if store.len() == 0 {
        assert(entry_ids(unsent_from(store, known)) =~= entry_ids(store).difference(known));
    } else {
        let rest = store.drop_last();
        lemma_unsent_ids(rest, known);
        assert(store =~= rest.push(store.last()));
        lemma_entry_ids_push(rest, store.last());
        if !known.contains(store.last().0) {
            lemma_entry_ids_push(unsent_from(rest, known), store.last());
        }
        assert(entry_ids(unsent_from(store, known)) =~= entry_ids(store).difference(known));
    }
}

/// Law: one gossip delivery covers the sender's whole store.  If the
/// receiver's own knowledge matches its store, and what the sender
/// believes the receiver has seen is no more than the truth, then after
/// the receiver merges the entries the sender computed as unsent, its
/// store ids are exactly the union of both stores' ids.  Repeating this
/// along a connected topology is what makes every node converge.
pub proof fn lemma_gossip_delivery_covers<V>(
    sender_store: Seq<((Seq<char>, u64), V)>,
    sender_known_receiver: Set<(Seq<char>, u64)>,
    receiver_store: Seq<((Seq<char>, u64), V)>,
    receiver_known: Set<(Seq<char>, u64)>,
)
    requires
        receiver_known == entry_ids(receiver_store),
        sender_known_receiver.subset_of(entry_ids(receiver_store)),
    ensures
        entry_ids(
            merge_store(
                receiver_store,
                receiver_known,
                unsent_from(sender_store, sender_known_receiver),
            ),
        ) == entry_ids(receiver_store).union(entry_ids(sender_store)),
{
    lemma_unsent_ids(sender_store, sender_known_receiver);
    lemma_merge_store_ids(
        receiver_store,
        receiver_known,
        unsent_from(sender_store, sender_known_receiver),
    );
    assert(entry_ids(
        merge_store(
            receiver_store,
            receiver_known,
            unsent_from(sender_store, sender_known_receiver),
        ),
    ) =~= entry_ids(receiver_store).union(entry_ids(sender_store)));
}

/// A tick computes exactly the store entries whose id is outside the
/// given knowledge.
pub proof fn lemma_unsent_set<V>(
    store: Seq<((Seq<char>, u64), V)>,
    known: Set<(Seq<char>, u64)>,
)
    ensures
        entry_set(unsent_from(store, known)) == Set::new(
            |e: ((Seq<char>, u64), V)| store.contains(e) && !known.contains(e.0),
        ),
    decreases store.len(),
{
    let member = Set::new(|e: ((Seq<char>, u64), V)| store.contains(e) && !known.contains(e.0));
    if store.len() == 0 {
        assert(entry_set(unsent_from(store, known)) =~= member);
    } else {
        let rest = store.drop_last();
        let last = store.last();
        lemma_unsent_set(rest, known);
        if !known.contains(last.0) {
            lemma_entry_set_push(unsent_from(rest, known), last);
        }
        let memberr = Set::new(
            |e: ((Seq<char>, u64), V)| rest.contains(e) && !known.contains(e.0),
        );
        assert forall|e: ((Seq<char>, u64), V)| member.contains(e) implies (memberr.contains(e)
            || (e == last && !known.contains(e.0))) by {
            let i = choose|i: int| 0 <= i < store.len() && store[i] == e;
            if i < rest.len() {
                assert(rest[i] == e);
                assert(rest.contains(e));
            }
        }
        assert forall|e: ((Seq<char>, u64), V)| memberr.contains(e) implies member.contains(
            e,
        ) by {
            let i = choose|i: int| 0 <= i < rest.len() && rest[i] == e;
            assert(store[i] == e);
            assert(store.contains(e));
        }
        if known.contains(last.0) {
            assert(entry_set(unsent_from(store, known)) =~= member);
        } else {
            assert(store.contains(last)) by {
                assert(store[store.len() - 1] == last);
            }
            assert(entry_set(unsent_from(store, known)) =~= member);
        }
    }
}

/// Law: with truthful knowledge and network-wide id consistency, one
/// gossip delivery hands the receiver every entry the sender stores:
/// afterwards the receiver's entry set is the union of both stores, so
/// its read projection is that of a node that observed everything both
/// had.  Repeating this along a connected topology converges every node.
pub proof fn lemma_gossip_delivery_merges_values<V>(
    sender_store: Seq<((Seq<char>, u64), V)>,
    sender_known_receiver: Set<(Seq<char>, u64)>,
    receiver_store: Seq<((Seq<char>, u64), V)>,
    receiver_known: Set<(Seq<char>, u64)>,
)
    requires
        receiver_known == entry_ids(receiver_store),
        sender_known_receiver.subset_of(entry_ids(receiver_store)),
        consistent(sender_store + receiver_store),
    ensures
        entry_set(
            merge_store(
                receiver_store,
                receiver_known,
                unsent_from(sender_store, sender_known_receiver),
            ),
        ) == entry_set(receiver_store).union(entry_set(sender_store)),
{
    let unsent = unsent_from(sender_store, sender_known_receiver);
    lemma_unsent_set(sender_store, sender_known_receiver);
    assert(forall|i: int|
        0 <= i < sender_store.len() ==> #[trigger] sender_store[i] == (sender_store
            + receiver_store)[i]);
    assert(forall|j: int|
        0 <= j < receiver_store.len() ==> #[trigger] receiver_store[j] == (sender_store
            + receiver_store)[sender_store.len() + j]);
    assert(consistent(sender_store));
    assert forall|i: int, j: int|
        #![trigger unsent[i], unsent[j]]
        0 <= i < unsent.len() && 0 <= j < unsent.len() && unsent[i].0 == unsent[j].0
        implies unsent[i].1 == unsent[j].1 by {
        assert(unsent.contains(unsent[i]));
        assert(unsent.contains(unsent[j]));
        assert(entry_set(unsent).contains(unsent[i]));
        assert(entry_set(unsent).contains(unsent[j]));
        assert(sender_store.contains(unsent[i]));
        assert(sender_store.contains(unsent[j]));
        let a = choose|a: int| 0 <= a < sender_store.len() && sender_store[a] == unsent[i];
        let b = choose|b: int| 0 <= b < sender_store.len() && sender_store[b] == unsent[j];
        assert(sender_store[a].1 == sender_store[b].1);
    }
    assert(consistent(unsent));
    lemma_merge_store_set(receiver_store, receiver_known, unsent);
    let merged = entry_set(merge_store(receiver_store, receiver_known, unsent));
    let target = entry_set(receiver_store).union(entry_set(sender_store));
    assert forall|e: ((Seq<char>, u64), V)| merged.contains(e) implies target.contains(e) by {
        if !entry_set(receiver_store).contains(e) {
            assert(unsent.contains(e) && !receiver_known.contains(e.0));
            assert(entry_set(unsent).contains(e));
            assert(sender_store.contains(e));
            assert(entry_set(sender_store).contains(e));
        }
    }
    assert forall|e: ((Seq<char>, u64), V)| target.contains(e) implies merged.contains(e) by {
        if entry_set(receiver_store).contains(e) {
        } else {
            assert(entry_set(sender_store).contains(e));
            assert(sender_store.contains(e));
            let i = choose|i: int| 0 <= i < sender_store.len() && sender_store[i] == e;
            if receiver_known.contains(e.0) {
                assert(entry_ids(receiver_store).contains(e.0));
                let j = choose|j: int|
                    0 <= j < receiver_store.len() && receiver_store[j].0 == e.0;
                assert((sender_store + receiver_store)[i].0 == (sender_store
                    + receiver_store)[sender_store.len() + j].0);
                assert(receiver_store[j].1 == e.1);
                assert(receiver_store[j] == e);
                assert(entry_set(receiver_store).contains(e));
            } else {
                assert(!sender_known_receiver.contains(e.0));
                assert(Set::new(
                    |x: ((Seq<char>, u64), V)|
                        sender_store.contains(x) && !sender_known_receiver.contains(x.0),
                ).contains(e));
                assert(entry_set(unsent).contains(e));
                let u = choose|u: int| 0 <= u < unsent.len() && unsent[u] == e;
                assert(unsent.contains(e));
            }
        }
    }
    assert(merged =~= target);
}

/// The view of a computed batch list: peers paired with payload views.
pub open spec fn batches_view<V>(r: Seq<(ActorID, Vec<(UniqueMessageId, V)>)>) -> Seq<
    (Seq<char>, Seq<((Seq<char>, u64), V)>),
> {
    r.map(|i: int, b: (ActorID, Vec<(UniqueMessageId, V)>)| (b.0@, payload_view(b.1@)))
}

/// One step of emitting a computed gossip plan: taking the first batch
/// off the front matches the plan's entry at the cursor and advances the
/// remaining batches to the rest of the plan.
pub proof fn lemma_emit_batch_step<V>(
    oldb: Seq<(ActorID, Vec<(UniqueMessageId, V)>)>,
    plan: Seq<(Seq<char>, Seq<((Seq<char>, u64), V)>)>,
    t: int,
)
    requires
        batches_view(oldb) == plan.skip(t),
        0 <= t <= plan.len(),
        oldb.len() > 0,
    ensures
        t < plan.len(),
        batches_view(oldb)[0] == plan[t],
        batches_view(oldb.remove(0)) == plan.skip(t + 1),
{
    assert(batches_view(oldb).len() == oldb.len());
    assert(plan.skip(t).len() == plan.len() - t);
    assert(plan.skip(t)[0] == plan[t]);
    let newb = oldb.remove(0);
    assert(newb =~= oldb.skip(1));
    assert forall|x: int| 0 <= x < newb.len() implies batches_view(newb)[x] == plan.skip(
        t + 1,
    )[x] by {
        assert(newb[x] == oldb[x + 1]);
        assert(batches_view(oldb)[x + 1] == (oldb[x + 1].0@, payload_view(oldb[x + 1].1@)));
        assert(batches_view(newb)[x] == (newb[x].0@, payload_view(newb[x].1@)));
        assert(plan.skip(t)[x + 1] == plan[t + 1 + x]);
        assert(plan.skip(t + 1)[x] == plan[t + 1 + x]);
    }
    assert(batches_view(newb) =~= plan.skip(t + 1));
}

/// The message vocabulary of a gossip-replicated counter-style actor,
/// discriminated by an explicit kind tag on the wire.  `T` is the
/// replicated value type.
#[derive(Debug)]
pub enum Payload<T> {
    /// A client introduces a delta.
    Add { msg_id: MessageID, delta: T },
    /// Acknowledgement of an `Add`.
    AddOk { in_reply_to: MessageID },
    /// A client asks for the read projection of the store.
    Read { msg_id: MessageID },
    /// Reply to `Read`, carrying the projected value.
    ReadOk { in_reply_to: MessageID, value: u64 },
    /// Internally generated tick: gossip unsent entries to every peer.
    StartGossip,
    /// Entries a peer believes this node has not observed.
    Gossip { payload: Vec<(UniqueMessageId, T)> },
    /// Reply to `Gossip`: the replier's entire current knowledge.
    GossipOk { seen: Vec<UniqueMessageId> },
}

/// What processing one message produces: either outbound envelopes, or a
/// request for the caller to answer a read (the caller owns the read
/// projection over the store).
pub enum CrdtMessageResponse<T> {
    /// Envelopes to transmit, in order.
    Responses(Vec<Message<Payload<T>>>),
    /// The caller must answer a read correlated to this message id.
    ReadRequest(MessageID),
}

/// The state shared by every gossip-replicated actor, parametric over the
/// replicated value type.
pub struct CrdtBase<T> {
    /// Identity assigned at initialization; `None` before that.
    pub node_id: Option<ActorID>,
    /// The peers this node gossips to.
    pub peers: Vec<ActorID>,
    /// Append-only record of every observed `(id, value)` pair.
    pub messages: Vec<(UniqueMessageId, T)>,
    /// For each peer, the ids that peer is believed to have observed.
    /// The entry under this node's own id is its own knowledge.
    pub known: Vec<(ActorID, Vec<UniqueMessageId>)>,
    /// This node's own local sequence: the next number it assigns to a
    /// value it originates.  Monotonically increasing, never reused.
    pub next_seq: MessageID,
}

impl<T> CrdtBase<T> {
    /// This node's own id (meaningful once `node_id` is set).
    pub open spec fn id(self) -> Seq<char> {
        self.node_id.unwrap()@
    }

    /// The store, as a sequence of `(id, value)` pairs.
    pub open spec fn store(self) -> Seq<((Seq<char>, u64), T)> {
        self.messages@.map(|i: int, e: (UniqueMessageId, T)| (e.0@, e.1))
    }

    /// The set of ids present in the store.
    pub open spec fn store_ids(self) -> Set<(Seq<char>, u64)> {
        entry_ids(self.store())
    }

    /// The peer list, as id views.
    pub open spec fn peer_ids(self) -> Seq<Seq<char>> {
        self.peers@.map(|i: int, p: ActorID| p@)
    }

    /// Whether `known` holds an entry for `peer`.
    pub open spec fn has_known_entry(self, peer: Seq<char>) -> bool {
        exists|i: int| 0 <= i < self.known@.len() && self.known@[i].0@ == peer
    }

    /// The ids `peer` is believed to have observed; empty when no entry
    /// has been recorded for it yet.
    pub open spec fn known_of(self, peer: Seq<char>) -> Set<(Seq<char>, u64)> {
        if self.has_known_entry(peer) {
            let i = choose|i: int|
                0 <= i < self.known@.len() && self.known@[i].0@ == peer;
            id_set(self.known@[i].1@)
        } else {
            Set::empty()
        }
    }

    /// The knowledge table is keyed uniquely and holds no duplicate ids.
    pub open spec fn known_wf(self) -> bool {
        &&& forall|i: int, j: int|
            0 <= i < j < self.known@.len() ==> self.known@[i].0@ != self.known@[j].0@
        &&& forall|i: int| 0 <= i < self.known@.len() ==> distinct_ids(self.known@[i].1@)
    }

    /// Well-formedness: the knowledge table is well formed and everything
    /// in the store has been self-acknowledged, so a node is never asked
    /// to gossip a value back to itself as unknown.
    pub open spec fn wf(self) -> bool {
        &&& self.known_wf()
        &&& self.node_id is Some ==> self.store_ids().subset_of(self.known_of(self.id()))
    }

    /// Every store entry this node originated carries a sequence number
    /// its counter has already passed, so the next assignment is fresh.
    pub open spec fn own_seqs_bounded(self) -> bool {
        forall|i: int|
            0 <= i < self.store().len() ==> ((#[trigger] self.store()[i]).0.0 == self.id()
                ==> self.store()[i].0.1 < self.next_seq)
    }

    /// The state respects the data model: store ids pairwise distinct,
    /// own knowledge exactly the store's ids, and own sequences below
    /// the counter.  Every message handler preserves this.
    pub open spec fn ids_coherent(self) -> bool {
        &&& distinct_entry_ids(self.store())
        &&& self.known_of(self.id()) == self.store_ids()
        &&& self.own_seqs_bounded()
    }

    /// Trusted peers never forge this node's ids: anything gossiped to
    /// it under its own origin was assigned by this node before.
    pub open spec fn payload_honest(self, payload: Seq<(UniqueMessageId, T)>) -> bool {
        forall|j: int|
            0 <= j < payload.len() ==> ((#[trigger] payload[j].0@).0 == self.id()
                ==> payload[j].0@.1 < self.next_seq)
    }

    /// Relates `known_of` to a concrete row of the table.
    pub proof fn lemma_known_of_at(self, i: int)
        requires
            self.known_wf(),
            0 <= i < self.known@.len(),
        ensures
            self.known_of(self.known@[i].0@) == id_set(self.known@[i].1@),
    {
        let p = self.known@[i].0@;
        assert(self.has_known_entry(p));
        let j = choose|j: int| 0 <= j < self.known@.len() && self.known@[j].0@ == p;
        if i < j {
            assert(self.known@[i].0@ != self.known@[j].0@);
        } else if j < i {
            assert(self.known@[j].0@ != self.known@[i].0@);
        }
        assert(j == i);
    }

    /// Knowledge depends on the `known` field alone.
    pub proof fn lemma_known_same(self, other: Self, p: Seq<char>)
        requires
            self.known@ == other.known@,
            self.known_wf(),
        ensures
            self.known_of(p) == other.known_of(p),
    {
        if self.has_known_entry(p) {
            let i = choose|i: int|
                0 <= i < self.known@.len() && self.known@[i].0@ == p;
            self.lemma_known_of_at(i);
            assert(other.has_known_entry(p));
            other.lemma_known_of_at(i);
        } else {
            assert(!other.has_known_entry(p));
        }
    }

    /// What a tick would send to `p`: everything `p` is not known to have.
    pub open spec fn unsent_for(self, p: Seq<char>) -> Seq<((Seq<char>, u64), T)> {
        unsent_from(self.store(), self.known_of(p))
    }

    /// The gossip batches for the first `n` peers: one batch per peer
    /// that is missing something, in peer-list order.
    pub open spec fn gossip_plan_upto(self, n: int) -> Seq<
        (Seq<char>, Seq<((Seq<char>, u64), T)>),
    >
        decreases n,
    {
        if n <= 0 {
            Seq::empty()
        } else {
            let prev = self.gossip_plan_upto(n - 1);
            let p = self.peer_ids()[n - 1];
            if self.unsent_for(p).len() == 0 {
                prev
            } else {
                prev.push((p, self.unsent_for(p)))
            }
        }
    }

    /// Everything a tick sends: for every peer that is missing entries,
    /// those entries, in peer-list order.
    pub open spec fn gossip_plan(self) -> Seq<(Seq<char>, Seq<((Seq<char>, u64), T)>)> {
        self.gossip_plan_upto(self.peers@.len() as int)
    }

    /// This node's id, cloned out of the state.
    pub fn node_id(&self) -> (r: ActorID)
        requires
            self.node_id is Some,
        ensures
            r@ == self.id(),
    {
        self.node_id.as_ref().unwrap().clone()
    }

    /// The row index holding `peer`'s knowledge, if one exists.
    fn find_known(&self, peer: &ActorID) -> (r: Option<usize>)
        ensures
            match r {
                Some(i) => i < self.known@.len() && self.known@[i as int].0@ == peer@,
                None => !self.has_known_entry(peer@),
            },
    {
        let mut i: usize = 0;
        while i < self.known.len()
            invariant
                i <= self.known@.len(),
                forall|j: int| 0 <= j < i ==> self.known@[j].0@ != peer@,
            decreases self.known@.len() - i,
        {
            if self.known[i].0 == *peer {
                return Some(i);
            }
            i += 1;
        }
        None
    }

    /// Whether `peer` is believed to have observed `id`.
    pub fn knows(&self, peer: &ActorID, id: &UniqueMessageId) -> (r: bool)
        requires
            self.known_wf(),
        ensures
            r == self.known_of(peer@).contains(id@),
    {
        match self.find_known(peer) {
            Some(i) => {
                proof {
                    self.lemma_known_of_at(i as int);
                }
                list_contains(&self.known[i].1, id)
            },
            None => {
                proof {
                    assert(self.known_of(peer@) == Set::<(Seq<char>, u64)>::empty());
                }
                false
            },
        }
    }
    /// Record that `peer` has observed `id`, creating `peer`'s row when
    /// it does not exist yet.  Knowledge only ever grows.
    fn insert_known(&mut self, peer: &ActorID, id: UniqueMessageId)
        requires
            old(self).known_wf(),
        ensures
            final(self).known_wf(),
            final(self).known_of(peer@) == old(self).known_of(peer@).insert(id@),
            forall|p: Seq<char>|
                p != peer@ ==> final(self).known_of(p) == old(self).known_of(p),
            final(self).node_id == old(self).node_id,
            final(self).peers == old(self).peers,
            final(self).messages == old(self).messages,
            final(self).next_seq == old(self).next_seq,
    {
        let ghost idv = id@;
        let ghost idg = id;
        let found = self.find_known(peer);
        match found {
            Some(i) => {
                let ghost pre = *self;
                let ghost oldlist = pre.known@[i as int].1@;
                let mut entry: (ActorID, Vec<UniqueMessageId>) = (String::new(), Vec::new());
                self.known.set_and_swap(i, &mut entry);
                let already = list_contains(&entry.1, &id);
                if !already {
                    entry.1.push(id);
                }
                let ghost newlist = entry.1@;
                self.known.set_and_swap(i, &mut entry);
                proof {
                    assert(self.known@ =~= pre.known@.update(
                        i as int,
                        (pre.known@[i as int].0, self.known@[i as int].1),
                    ));
                    assert(self.known@.len() == pre.known@.len());
                    assert(forall|j: int|
                        0 <= j < self.known@.len() ==> (#[trigger] self.known@[j]).0
                            == pre.known@[j].0);
                    assert(self.known@[i as int].1@ == newlist);
                    if already {
                        assert(newlist == oldlist);
                        assert(id_set(newlist) =~= id_set(oldlist).insert(idv));
                    } else {
                        assert(newlist == oldlist.push(idg));
                        lemma_id_set_push(oldlist, idg);
                        // the appended id was absent, so the row stays duplicate-free
                        assert(forall|k: int| 0 <= k < oldlist.len() ==> oldlist[k]@ != idv);
                        assert(distinct_ids(oldlist));
                        assert(distinct_ids(newlist));
                    }
                    assert(self.known_wf());
                    self.lemma_known_of_at(i as int);
                    pre.lemma_known_of_at(i as int);
                    assert(self.known_of(peer@) == pre.known_of(peer@).insert(idv));
                    assert forall|p: Seq<char>| p != peer@ implies self.known_of(p)
                        == pre.known_of(p) by {
                        if self.has_known_entry(p) {
                            let j = choose|j: int|
                                0 <= j < self.known@.len() && self.known@[j].0@ == p;
                            self.lemma_known_of_at(j);
                            pre.lemma_known_of_at(j);
                            assert(j != i as int);
                            assert(self.known@[j].1 == pre.known@[j].1);
                        } else {
                            if pre.has_known_entry(p) {
                                let j = choose|j: int|
                                    0 <= j < pre.known@.len() && pre.known@[j].0@ == p;
                                assert(self.known@[j].0 == pre.known@[j].0);
                                assert(self.has_known_entry(p));
                            }
                        }
                    }
                }
            },
            None => {
                let ghost pre = *self;
                let mut l: Vec<UniqueMessageId> = Vec::new();
                l.push(id);
                self.known.push((peer.clone(), l));
                proof {
                    let n = pre.known@.len() as int;
                    assert(self.known@.len() == n + 1);
                    assert(self.known@[n].0@ == peer@);
                    assert(forall|j: int| 0 <= j < n ==> self.known@[j] == pre.known@[j]);
                    assert(self.known_wf());
                    self.lemma_known_of_at(n);
                    assert(self.known@[n].1@ == Seq::<UniqueMessageId>::empty().push(idg));
                    lemma_id_set_empty();
                    lemma_id_set_push(Seq::<UniqueMessageId>::empty(), idg);
                    assert(old(self).known_of(peer@) == Set::<(Seq<char>, u64)>::empty());
                    assert forall|p: Seq<char>| p != peer@ implies self.known_of(p)
                        == pre.known_of(p) by {
                        if self.has_known_entry(p) {
                            let j = choose|j: int|
                                0 <= j < self.known@.len() && self.known@[j].0@ == p;
                            self.lemma_known_of_at(j);
                            assert(j != n);
                            pre.lemma_known_of_at(j);
                        } else {
                            assert(!pre.has_known_entry(p));
                        }
                    }
                }
            },
        }
    }

    /// Introduce a value into the store under the id `(origin, seq)` and
    /// self-acknowledge it.  Used when a value is originated locally or
    /// handed in directly by a client.
    pub fn add_value(&mut self, origin: ActorID, seq: MessageID, value: T)
        requires
            old(self).wf(),
            old(self).node_id is Some,
        ensures
            final(self).wf(),
            final(self).node_id == old(self).node_id,
            final(self).peers == old(self).peers,
            final(self).store() == old(self).store().push(((origin@, seq), value)),
            final(self).known_of(old(self).id()) == old(self).known_of(
                old(self).id(),
            ).insert((origin@, seq)),
            forall|p: Seq<char>|
                p != old(self).id() ==> final(self).known_of(p) == old(self).known_of(p),
            forall|p: Seq<char>|
                old(self).known_of(p).subset_of(#[trigger] final(self).known_of(p)),
            final(self).store_ids().contains((origin@, seq)),
            final(self).next_seq == old(self).next_seq,
    {
        let id = UniqueMessageId { origin, seq };
        self.store_and_ack(id, value);
    }

    /// Append `(id, value)` to the store and mark the id as part of this
    /// node's own knowledge.
    fn store_and_ack(&mut self, id: UniqueMessageId, value: T)
        requires
            old(self).wf(),
            old(self).node_id is Some,
        ensures
            final(self).wf(),
            final(self).node_id == old(self).node_id,
            final(self).peers == old(self).peers,
            final(self).store() == old(self).store().push((id@, value)),
            final(self).known_of(old(self).id()) == old(self).known_of(
                old(self).id(),
            ).insert(id@),
            forall|p: Seq<char>|
                p != old(self).id() ==> final(self).known_of(p) == old(self).known_of(p),
            forall|p: Seq<char>|
                old(self).known_of(p).subset_of(#[trigger] final(self).known_of(p)),
            final(self).store_ids().contains(id@),
            final(self).next_seq == old(self).next_seq,
    {
        let me = self.node_id();
        let idc = id.duplicate();
        let ghost idv = id@;
        let ghost valg = value;
        let ghost pre = *self;
        self.messages.push((id, value));
        proof {
            assert(self.store() =~= pre.store().push((idv, valg)));
        }
        let ghost mid = *self;
        self.insert_known(&me, idc);
        proof {
            assert(self.store() == mid.store());
            assert forall|p: Seq<char>| #[trigger] mid.known_of(p) == pre.known_of(p) by {
                mid.lemma_known_same(pre, p);
            }
            let n = pre.store().len() as int;
            assert(self.store()[n].0 == idv);
            assert(self.store_ids().contains(idv));
            assert forall|v: (Seq<char>, u64)| self.store_ids().contains(v)
                implies self.known_of(self.id()).contains(v) by {
                if v != idv {
                    assert(entry_ids(self.store()).contains(v));
                    let k = choose|k: int|
                        0 <= k < self.store().len() && self.store()[k].0 == v;
                    assert(k < n);
                    assert(pre.store()[k] == self.store()[k]);
                    assert(pre.store_ids().contains(v));
                }
            }
            assert(self.wf());
        }
    }

    /// Merge ids a peer reported as seen into its entry: its believed
    /// knowledge becomes the union of the old entry and the report.
    pub fn record_seen(&mut self, peer: &ActorID, seen: &Vec<UniqueMessageId>)
        requires
            old(self).wf(),
        ensures
            final(self).wf(),
            final(self).node_id == old(self).node_id,
            final(self).peers == old(self).peers,
            final(self).messages == old(self).messages,
            final(self).known_of(peer@) == old(self).known_of(peer@).union(id_set(seen@)),
            forall|p: Seq<char>|
                p != peer@ ==> final(self).known_of(p) == old(self).known_of(p),
            forall|p: Seq<char>|
                old(self).known_of(p).subset_of(#[trigger] final(self).known_of(p)),
            final(self).next_seq == old(self).next_seq,
    {
        let ghost pre = *self;
        let mut k: usize = 0;
        while k < seen.len()
            invariant
                k <= seen@.len(),
                self.known_wf(),
                self.node_id == pre.node_id,
                self.peers == pre.peers,
                self.messages == pre.messages,
                self.next_seq == pre.next_seq,
                self.known_of(peer@) == pre.known_of(peer@).union(
                    id_set(seen@.take(k as int)),
                ),
                forall|p: Seq<char>|
                    p != peer@ ==> #[trigger] self.known_of(p) == pre.known_of(p),
            decreases seen@.len() - k,
        {
            let id = seen[k].duplicate();
            let ghost idg = id;
            self.insert_known(peer, id);
            proof {
                assert(seen@.take(k as int + 1) =~= seen@.take(k as int).push(
                    seen@[k as int],
                ));
                lemma_id_set_push(seen@.take(k as int), seen@[k as int]);
                assert(idg@ == seen@[k as int]@);
                assert(self.known_of(peer@) =~= pre.known_of(peer@).union(
                    id_set(seen@.take(k as int + 1)),
                ));
            }
            k += 1;
        }
        proof {
            assert(seen@.take(seen@.len() as int) =~= seen@);
            assert forall|p: Seq<char>| pre.known_of(p).subset_of(
                #[trigger] self.known_of(p),
            ) by {
                if p == peer@ {
                    assert(self.known_of(p) == pre.known_of(p).union(id_set(seen@)));
                }
            }
            if pre.node_id is Some {
                assert(self.store_ids() == pre.store_ids());
                assert(pre.store_ids().subset_of(pre.known_of(pre.id())));
                assert(pre.known_of(pre.id()).subset_of(self.known_of(pre.id())));
            }
            assert(self.wf());
        }
    }

    /// This node's own knowledge, as a duplicate-free list; reported back
    /// in gossip acknowledgements.
    pub fn seen_by_self(&self) -> (r: Vec<UniqueMessageId>)
        requires
            self.wf(),
            self.node_id is Some,
        ensures
            id_set(r@) == self.known_of(self.id()),
            distinct_ids(r@),
    {
        let me = self.node_id();
        match self.find_known(&me) {
            Some(i) => {
                proof {
                    self.lemma_known_of_at(i as int);
                }
                clone_id_list(&self.known[i].1)
            },
            None => {
                proof {
                    lemma_id_set_empty();
                }
                Vec::new()
            },
        }
    }
}

impl<T> Default for CrdtBase<T> {
    /// The state of a node before initialization: no identity, no peers,
    /// an empty store, no recorded knowledge, and the local sequence at
    /// its first value.
    fn default() -> (r: Self)
        ensures
            r.node_id is None,
            r.peers@.len() == 0,
            r.messages@.len() == 0,
            r.known@.len() == 0,
            r.next_seq == 1,
            r.wf(),
    {
        CrdtBase {
            node_id: None,
            peers: Vec::new(),
            messages: Vec::new(),
            known: Vec::new(),
            next_seq: 1,
        }
    }
}

impl<T: GossipValue> CrdtBase<T> {
    /// Merge a gossip payload received from a peer: append every entry
    /// whose id this node does not already know, self-acknowledging each
    /// appended id, so that delivering the same payload again changes
    /// nothing.
    pub fn merge_gossip(&mut self, payload: &Vec<(UniqueMessageId, T)>)
        requires
            old(self).wf(),
            old(self).node_id is Some,
        ensures
            final(self).wf(),
            final(self).node_id == old(self).node_id,
            final(self).peers == old(self).peers,
            final(self).next_seq == old(self).next_seq,
            final(self).store() == merge_store(
                old(self).store(),
                old(self).known_of(old(self).id()),
                payload_view(payload@),
            ),
            final(self).known_of(old(self).id()) == merge_known(
                old(self).known_of(old(self).id()),
                payload_view(payload@),
            ),
            forall|p: Seq<char>|
                p != old(self).id() ==> final(self).known_of(p) == old(self).known_of(p),
            forall|p: Seq<char>|
                old(self).known_of(p).subset_of(#[trigger] final(self).known_of(p)),
            forall|j: int|
                0 <= j < payload@.len() ==> final(self).known_of(old(self).id()).contains(
                    payload@[j].0@,
                ),
            old(self).known_of(old(self).id()).subset_of(old(self).store_ids())
                ==> forall|j: int|
                0 <= j < payload@.len() ==> final(self).store_ids().contains(
                    payload@[j].0@,
                ),
    {
        let me = self.node_id();
        let ghost pre = *self;
        let ghost mev = pre.id();
        let ghost pv = payload_view(payload@);
        proof {
            assert(pv.skip(0) =~= pv);
        }
        let mut j: usize = 0;
        while j < payload.len()
            invariant
                j <= payload@.len(),
                self.wf(),
                self.node_id == pre.node_id,
                self.peers == pre.peers,
                self.next_seq == pre.next_seq,
                me@ == mev,
                mev == pre.id(),
                pre.node_id is Some,
                pv == payload_view(payload@),
                merge_store(pre.store(), pre.known_of(mev), pv) == merge_store(
                    self.store(),
                    self.known_of(mev),
                    pv.skip(j as int),
                ),
                merge_known(pre.known_of(mev), pv) == merge_known(
                    self.known_of(mev),
                    pv.skip(j as int),
                ),
                forall|p: Seq<char>|
                    p != mev ==> #[trigger] self.known_of(p) == pre.known_of(p),
                forall|p: Seq<char>|
                    pre.known_of(p).subset_of(#[trigger] self.known_of(p)),
            decreases payload@.len() - j,
        {
            proof {
                assert(pv.skip(j as int)[0] == pv[j as int]);
                assert(pv[j as int] == (payload@[j as int].0@, payload@[j as int].1));
                assert(pv.skip(j as int).subrange(
                    1,
                    pv.skip(j as int).len() as int,
                ) =~= pv.skip(j as int + 1));
            }
            if !self.knows(&me, &payload[j].0) {
                let id = payload[j].0.duplicate();
                let val = payload[j].1.duplicate();
                proof {
                    assert(id@ == pv[j as int].0);
                    assert(val == pv[j as int].1);
                }
                self.store_and_ack(id, val);
            }
            j += 1;
        }
        proof {
            assert(pv.skip(payload@.len() as int) =~= Seq::<((Seq<char>, u64), T)>::empty());
            lemma_merge_known_char(pre.known_of(mev), pv);
            assert forall|j: int| 0 <= j < payload@.len() implies self.known_of(mev).contains(
                payload@[j].0@,
            ) by {
                assert(pv[j].0 == payload@[j].0@);
                assert(entry_ids(pv).contains(payload@[j].0@));
            }
            if pre.known_of(mev).subset_of(pre.store_ids()) {
                lemma_merge_store_ids(pre.store(), pre.known_of(mev), pv);
                assert forall|j: int| 0 <= j < payload@.len() implies self.store_ids().contains(
                    payload@[j].0@,
                ) by {
                    assert(pv[j].0 == payload@[j].0@);
                    assert(entry_ids(pv).contains(payload@[j].0@));
                }
            }
        }
    }

    /// Compute the gossip batches of one tick: for every peer, the store
    /// entries it is not yet known to have observed; peers missing
    /// nothing get no batch.  Re-sending is unconditional: nothing waits
    /// for an acknowledgement, a lost message heals on the next tick.
    pub fn unsent_batches(&self) -> (r: Vec<(ActorID, Vec<(UniqueMessageId, T)>)>)
        requires
            self.wf(),
        ensures
            batches_view(r@) == self.gossip_plan(),
    {
        let mut r: Vec<(ActorID, Vec<(UniqueMessageId, T)>)> = Vec::new();
        let mut i: usize = 0;
        while i < self.peers.len()
            invariant
                i <= self.peers@.len(),
                self.wf(),
                batches_view(r@) == self.gossip_plan_upto(i as int),
            decreases self.peers@.len() - i,
        {
            let ghost rprev = r@;
            let peer = &self.peers[i];
            let mut batch: Vec<(UniqueMessageId, T)> = Vec::new();
            let mut m: usize = 0;
            while m < self.messages.len()
                invariant
                    m <= self.messages@.len(),
                    self.wf(),
                    i < self.peers@.len(),
                    peer@ == self.peers@[i as int]@,
                    payload_view(batch@) == unsent_from(
                        self.store().take(m as int),
                        self.known_of(peer@),
                    ),
                decreases self.messages@.len() - m,
            {
                let ghost bprev = batch@;
                proof {
                    assert(self.store().take(m as int + 1).drop_last() =~= self.store().take(
                        m as int,
                    ));
                    assert(self.store().take(m as int + 1).last() == self.store()[m as int]);
                }
                if !self.knows(peer, &self.messages[m].0) {
                    let id = self.messages[m].0.duplicate();
                    let val = self.messages[m].1.duplicate();
                    proof {
                        assert(id@ == self.store()[m as int].0);
                        assert(val == self.store()[m as int].1);
                    }
                    batch.push((id, val));
                    proof {
                        assert(payload_view(batch@) =~= payload_view(bprev).push(
                            self.store()[m as int],
                        ));
                    }
                }
                m += 1;
            }
            proof {
                assert(self.store().take(self.messages@.len() as int) =~= self.store());
                assert(payload_view(batch@) == self.unsent_for(peer@));
                assert(self.peer_ids()[i as int] == peer@);
            }
            if batch.len() > 0 {
                proof {
                    assert(self.unsent_for(peer@).len() == batch@.len());
                }
                r.push((peer.clone(), batch));
                proof {
                    assert(batches_view(r@) =~= batches_view(rprev).push(
                        (peer@, self.unsent_for(peer@)),
                    ));
                }
            } else {
                proof {
                    assert(self.unsent_for(peer@).len() == 0);
                }
            }
            i += 1;
        }
        r
    }

    /// Every stored value, in store order: the broadcast read projection.
    pub fn all_values(&self) -> (r: Vec<T>)
        ensures
            r@.len() == self.store().len(),
            forall|i: int| 0 <= i < r@.len() ==> r@[i] == self.store()[i].1,
    {
        let mut r: Vec<T> = Vec::new();
        let mut i: usize = 0;
        while i < self.messages.len()
            invariant
                i <= self.messages@.len(),
                r@.len() == i,
                forall|j: int| 0 <= j < i ==> r@[j] == self.store()[j].1,
            decreases self.messages@.len() - i,
        {
            r.push(self.messages[i].1.duplicate());
            i += 1;
        }
        r
    }

    /// Drive the engine with one message.  An add stores its value under
    /// a freshly assigned id — this node's own id and the next local
    /// sequence number — and self-acknowledges it.  Ticks compute one
    /// gossip batch per lagging peer, gossip payloads are merged
    /// idempotently and acknowledged with this node's entire knowledge,
    /// acknowledgements only ever grow a peer's entry, and reads are
    /// handed back to the caller, which owns the read projection.
    pub fn process_crdt_payload(&mut self, message: &Message<Payload<T>>) -> (r:
        CrdtMessageResponse<T>)
        requires
            old(self).wf(),
            old(self).node_id is Some,
            // the local sequence is a machine-sized counter
            message.body matches Payload::Add { msg_id, delta } ==> old(self).next_seq
                < u64::MAX,
            // peers are trusted: no node reports knowledge to itself
            message.body matches Payload::GossipOk { seen } ==> message.src@ != old(
                self,
            ).id(),
        ensures
            final(self).wf(),
            final(self).node_id == old(self).node_id,
            final(self).peers == old(self).peers,
            forall|p: Seq<char>|
                old(self).known_of(p).subset_of(#[trigger] final(self).known_of(p)),
            // the data model is preserved whatever arrives, as long as
            // no peer forges this node's own ids
            (old(self).ids_coherent() && (message.body matches Payload::Gossip { payload }
                ==> old(self).payload_honest(payload@))) ==> final(self).ids_coherent(),
            (match message.body {
                Payload::Add { msg_id, delta } => {
                    &&& final(self).store() == old(self).store().push(
                        ((old(self).id(), old(self).next_seq), delta),
                    )
                    &&& final(self).next_seq == old(self).next_seq + 1
                    &&& final(self).known_of(old(self).id()) == old(self).known_of(
                        old(self).id(),
                    ).insert((old(self).id(), old(self).next_seq))
                    &&& forall|p: Seq<char>|
                        p != old(self).id() ==> final(self).known_of(p) == old(
                            self,
                        ).known_of(p)
                    &&& final(self).store_ids().contains((old(self).id(), old(self).next_seq))
                    &&& (r matches CrdtMessageResponse::Responses(v) && v@.len() == 1
                        && v@[0].src == message.dest && v@[0].dest == message.src
                        && (v@[0].body matches Payload::AddOk { in_reply_to } && in_reply_to
                            == msg_id))
                },
                Payload::Read { msg_id } => {
                    &&& *final(self) == *old(self)
                    &&& (r matches CrdtMessageResponse::ReadRequest(s) && s == msg_id)
                },
                Payload::StartGossip => {
                    &&& *final(self) == *old(self)
                    &&& (r matches CrdtMessageResponse::Responses(v) && v@.len() == old(
                        self,
                    ).gossip_plan().len() && forall|k: int|
                        0 <= k < v@.len() ==> (#[trigger] v@[k]).src@ == old(self).id()
                            && v@[k].dest@ == old(self).gossip_plan()[k].0 && (v@[k].body
                            matches Payload::Gossip { payload: pl } && payload_view(pl@)
                            == old(self).gossip_plan()[k].1))
                },
                Payload::Gossip { payload } => {
                    &&& final(self).next_seq == old(self).next_seq
                    &&& final(self).store() == merge_store(
                        old(self).store(),
                        old(self).known_of(old(self).id()),
                        payload_view(payload@),
                    )
                    &&& final(self).known_of(old(self).id()) == merge_known(
                        old(self).known_of(old(self).id()),
                        payload_view(payload@),
                    )
                    &&& forall|p: Seq<char>|
                        p != old(self).id() ==> final(self).known_of(p) == old(
                            self,
                        ).known_of(p)
                    &&& forall|j: int|
                        0 <= j < payload@.len() ==> final(self).known_of(
                            old(self).id(),
                        ).contains(payload@[j].0@)
                    &&& old(self).known_of(old(self).id()).subset_of(old(self).store_ids())
                        ==> forall|j: int|
                        0 <= j < payload@.len() ==> final(self).store_ids().contains(
                            payload@[j].0@,
                        )
                    &&& (r matches CrdtMessageResponse::Responses(v) && v@.len() == 1
                        && v@[0].src == message.dest && v@[0].dest == message.src
                        && (v@[0].body matches Payload::GossipOk { seen } && id_set(seen@)
                            == final(self).known_of(old(self).id()) && distinct_ids(seen@)))
                },
                Payload::GossipOk { seen } => {
                    &&& final(self).store() == old(self).store()
                    &&& final(self).next_seq == old(self).next_seq
                    &&& final(self).known_of(message.src@) == old(self).known_of(
                        message.src@,
                    ).union(id_set(seen@))
                    &&& forall|p: Seq<char>|
                        p != message.src@ ==> final(self).known_of(p) == old(
                            self,
                        ).known_of(p)
                    &&& (r matches CrdtMessageResponse::Responses(v) && v@.len() == 0)
                },
                _ => {
                    &&& *final(self) == *old(self)
                    &&& (r matches CrdtMessageResponse::Responses(v) && v@.len() == 0)
                },
            }),
    {
        let ghost pre = *self;
        match &message.body {
            Payload::Add { msg_id, delta } => {
                let me = self.node_id();
                let seq = self.next_seq;
                self.next_seq = self.next_seq + 1;
                proof {
                    assert forall|p: Seq<char>| #[trigger] self.known_of(p) == pre.known_of(
                        p,
                    ) by {
                        self.lemma_known_same(pre, p);
                    }
                    assert(self.wf());
                }
                self.add_value(me, seq, delta.duplicate());
                proof {
                    if pre.ids_coherent() {
                        let idv = (pre.id(), seq as u64);
                        let e = self.store().last();
                        assert(self.store() =~= pre.store().push(e));
                        assert(e.0 == idv);
                        assert(!pre.store_ids().contains(idv)) by {
                            if pre.store_ids().contains(idv) {
                                let a = choose|a: int|
                                    0 <= a < pre.store().len() && pre.store()[a].0 == idv;
                                assert(pre.store()[a].0.1 < pre.next_seq);
                            }
                        }
                        lemma_append_fresh(pre.store(), e);
                        assert(self.known_of(pre.id()) =~= self.store_ids());
                        assert forall|i: int| 0 <= i < self.store().len() implies ((
                        #[trigger] self.store()[i]).0.0 == self.id() ==> self.store()[i].0.1
                            < self.next_seq) by {
                            if i < pre.store().len() {
                                assert(self.store()[i] == pre.store()[i]);
                            }
                        }
                        assert(self.ids_coherent());
                    }
                }
                let mut v: Vec<Message<Payload<T>>> = Vec::new();
                v.push(Message::new_reply_to(message, Payload::AddOk { in_reply_to: *msg_id }));
                CrdtMessageResponse::Responses(v)
            },
            Payload::Read { msg_id } => CrdtMessageResponse::ReadRequest(*msg_id),
            Payload::StartGossip => {
                let ghost plan = self.gossip_plan();
                let ghost mev = self.id();
                let me = self.node_id();
                let mut batches = self.unsent_batches();
                let mut v: Vec<Message<Payload<T>>> = Vec::new();
                while batches.len() > 0
                    invariant
                        batches_view(batches@) == plan.skip(v@.len() as int),
                        v@.len() <= plan.len(),
                        me@ == mev,
                        forall|k: int|
                            0 <= k < v@.len() ==> (#[trigger] v@[k]).src@ == mev
                                && v@[k].dest@ == plan[k].0 && (v@[k].body
                                matches Payload::Gossip { payload: pl } && payload_view(
                                pl@,
                            ) == plan[k].1),
                    decreases batches@.len(),
                {
                    let ghost t = v@.len() as int;
                    let ghost oldb = batches@;
                    let b = batches.remove(0);
                    proof {
                        lemma_emit_batch_step(oldb, plan, t);
                        assert(batches_view(oldb)[0] == (b.0@, payload_view(b.1@)));
                        assert(batches@ == oldb.remove(0));
                    }
                    v.push(
                        Message {
                            src: me.clone(),
                            dest: b.0,
                            body: Payload::Gossip { payload: b.1 },
                        },
                    );
                }
                proof {
                    assert(plan.skip(v@.len() as int).len() == 0);
                    assert(v@.len() == plan.len());
                }
                CrdtMessageResponse::Responses(v)
            },
            Payload::Gossip { payload } => {
                self.merge_gossip(payload);
                proof {
                    if pre.ids_coherent() && pre.payload_honest(payload@) {
                        let pv = payload_view(payload@);
                        lemma_merge_keeps_coherence(pre.store(), pre.known_of(pre.id()), pv);
                        lemma_merge_store_entries_from(
                            pre.store(),
                            pre.known_of(pre.id()),
                            pv,
                        );
                        assert forall|i: int| 0 <= i < self.store().len() implies ((
                        #[trigger] self.store()[i]).0.0 == self.id() ==> self.store()[i].0.1
                            < self.next_seq) by {
                            let x = self.store()[i];
                            if pre.store().contains(x) {
                                let a = choose|a: int|
                                    0 <= a < pre.store().len() && pre.store()[a] == x;
                            } else {
                                assert(pv.contains(x));
                                let j = choose|j: int| 0 <= j < pv.len() && pv[j] == x;
                                assert(pv[j].0 == payload@[j].0@);
                            }
                        }
                        assert(self.ids_coherent());
                    }
                }
                let seen = self.seen_by_self();
                let mut v: Vec<Message<Payload<T>>> = Vec::new();
                v.push(Message::new_reply_to(message, Payload::GossipOk { seen }));
                CrdtMessageResponse::Responses(v)
            },
            Payload::GossipOk { seen } => {
                self.record_seen(&message.src, seen);
                proof {
                    assert(self.store() == pre.store());
                    assert(self.known_of(pre.id()) == pre.known_of(pre.id()));
                }
                CrdtMessageResponse::Responses(Vec::new())
            },
            Payload::AddOk { .. } => CrdtMessageResponse::Responses(Vec::new()),
            Payload::ReadOk { .. } => CrdtMessageResponse::Responses(Vec::new()),
        }
    }
}

/// An equal copy of a list of ids.
fn clone_id_list(l: &Vec<UniqueMessageId>) -> (r: Vec<UniqueMessageId>)
    ensures
        r@ == l@,
{
    let mut r: Vec<UniqueMessageId> = Vec::new();
    let mut i: usize = 0;
    while i < l.len()
        invariant
            i <= l@.len(),
            r@ == l@.take(i as int),
        decreases l@.len() - i,
    {
        r.push(l[i].duplicate());
        proof {
            assert(l@.take(i as int + 1) =~= l@.take(i as int).push(l@[i as int]));
        }
        i += 1;
    }
    proof {
        assert(l@.take(l@.len() as int) =~= l@);
    }
    r
}

/// Whether `id` occurs in `l`.
fn list_contains(l: &Vec<UniqueMessageId>, id: &UniqueMessageId) -> (r: bool)
    ensures
        r == id_set(l@).contains(id@),
{
    let mut i: usize = 0;
    while i < l.len()
        invariant
            i <= l@.len(),
            forall|j: int| 0 <= j < i ==> l@[j]@ != id@,
        decreases l@.len() - i,
    {
        if l[i].same(id) {
            assert(id_set(l@).contains(id@));
            return true;
        }
        i += 1;
    }
    assert(!id_set(l@).contains(id@));
    false
}

} // verus!

