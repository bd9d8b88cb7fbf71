//! The deduplicating, bounded history store.
//!
//! Rows are kept newest first (by timestamp, ties broken towards the larger
//! id), checksums are unique, and after every insert the row count is held to
//! `max_history` by dropping the oldest rows.  `store_insert` is the full
//! mathematical model of one insert; `insert` is proved to implement it.
use crate::codec::str_eq;
use crate::models::{ClipboardEntry, ClipboardEntryV, ClipboardSearchQuery, ClipboardSearchQueryV};
use vstd::prelude::*;

verus! {

/// Strict "comes earlier in the store" order: newer first, larger id first
/// among equal timestamps.
pub open spec fn key_before(ts1: int, id1: int, ts2: int, id2: int) -> bool {
    ts1 > ts2 || (ts1 == ts2 && id1 > id2)
}

/// The id of a stored row (stored rows always carry one).
pub open spec fn entry_id(e: ClipboardEntryV) -> int {
    match e.id {
        Some(v) => v,
        None => -1,
    }
}

pub open spec fn sorted_desc(es: Seq<ClipboardEntryV>) -> bool {
    forall|i: int, j: int| #![trigger es[i], es[j]]
        0 <= i < j < es.len() ==> key_before(
            es[i].timestamp,
            entry_id(es[i]),
            es[j].timestamp,
            entry_id(es[j]),
        )
}

/// Spec-level image of the store.
pub ghost struct StoreV {
    pub entries: Seq<ClipboardEntryV>,
    pub max_history: nat,
    pub next_id: int,
}

/// The store is well formed: bounded, ordered, rows have unique ids below
/// `next_id`, and checksums are unique.
pub open spec fn wf_store(s: StoreV) -> bool {
    &&& s.entries.len() <= s.max_history
    &&& 1 <= s.next_id <= 0x7fff_ffff_ffff_ffff
    &&& sorted_desc(s.entries)
    &&& forall|i: int| 0 <= i < s.entries.len() ==> (#[trigger] s.entries[i]).id is Some
    &&& forall|i: int|
        0 <= i < s.entries.len() ==> 1 <= entry_id(#[trigger] s.entries[i]) < s.next_id
    &&& forall|i: int, j: int| #![trigger s.entries[i], s.entries[j]]
        0 <= i < j < s.entries.len() ==> entry_id(s.entries[i]) != entry_id(s.entries[j])
    &&& forall|i: int, j: int| #![trigger s.entries[i], s.entries[j]]
        0 <= i < j < s.entries.len() ==> s.entries[i].checksum != s.entries[j].checksum
}

/// Index of the first row with the given checksum, or -1.
pub open spec fn find_ck(es: Seq<ClipboardEntryV>, ck: Seq<char>) -> int
    decreases es.len(),
{
    if es.len() == 0 {
        -1
    } else if es[0].checksum == ck {
        0
    } else {
        let r = find_ck(es.drop_first(), ck);
        if r < 0 {
            -1
        } else {
            r + 1
        }
    }
}

/// The position at which a row with the given key belongs.
pub open spec fn insert_pos(es: Seq<ClipboardEntryV>, ts: int, id: int) -> int
    decreases es.len(),
{
    if es.len() == 0 {
        0
    } else if key_before(ts, id, es[0].timestamp, entry_id(es[0])) {
        0
    } else {
        1 + insert_pos(es.drop_first(), ts, id)
    }
}

/// Ordered insertion of one row.
pub open spec fn place(es: Seq<ClipboardEntryV>, e: ClipboardEntryV) -> Seq<ClipboardEntryV> {
    es.insert(insert_pos(es, e.timestamp, entry_id(e)), e)
}

/// One insert: refresh the timestamp of a row with the same checksum, or add
/// a fresh row and evict the oldest beyond `max_history`.
pub open spec fn store_insert(s: StoreV, e: ClipboardEntryV) -> StoreV {
    let i = find_ck(s.entries, e.checksum);
    if i >= 0 {
        let oe = s.entries[i];
        let ne = ClipboardEntryV {
            timestamp: if oe.timestamp >= e.timestamp {
                oe.timestamp
            } else {
                e.timestamp
            },
            ..oe
        };
        StoreV { entries: place(s.entries.remove(i), ne), ..s }
    } else {
        let ne = ClipboardEntryV { id: Some(s.next_id), ..e };
        let es2 = place(s.entries, ne);
        let es3 = if es2.len() > s.max_history {
            es2.drop_last()
        } else {
            es2
        };
        StoreV { entries: es3, next_id: s.next_id + 1, ..s }
    }
}

/// The id that the insert reports.
pub open spec fn store_insert_id(s: StoreV, e: ClipboardEntryV) -> int {
    let i = find_ck(s.entries, e.checksum);
    if i >= 0 {
        entry_id(s.entries[i])
    } else {
        s.next_id
    }
}

pub proof fn lemma_find_ck(es: Seq<ClipboardEntryV>, ck: Seq<char>)
    ensures
        -1 <= find_ck(es, ck) < es.len(),
        find_ck(es, ck) == -1 <==> (forall|j: int|
            0 <= j < es.len() ==> (#[trigger] es[j]).checksum != ck),
        find_ck(es, ck) >= 0 ==> es[find_ck(es, ck)].checksum == ck && (forall|j: int|
            0 <= j < find_ck(es, ck) ==> (#[trigger] es[j]).checksum != ck),
    decreases es.len(),
{
    if es.len() > 0 && es[0].checksum != ck {
        lemma_find_ck(es.drop_first(), ck);
        assert forall|j: int| 1 <= j < es.len() implies es[j] == es.drop_first()[j - 1] by {}
    }
}

pub proof fn lemma_insert_pos(es: Seq<ClipboardEntryV>, ts: int, id: int)
    ensures
        0 <= insert_pos(es, ts, id) <= es.len(),
        forall|j: int|
            0 <= j < insert_pos(es, ts, id) ==> !key_before(
                ts,
                id,
                (#[trigger] es[j]).timestamp,
                entry_id(es[j]),
            ),
        insert_pos(es, ts, id) < es.len() ==> key_before(
            ts,
            id,
            es[insert_pos(es, ts, id)].timestamp,
            entry_id(es[insert_pos(es, ts, id)]),
        ),
    decreases es.len(),
{
    if es.len() > 0 && !key_before(ts, id, es[0].timestamp, entry_id(es[0])) {
        lemma_insert_pos(es.drop_first(), ts, id);
        assert forall|j: int| 1 <= j < es.len() implies es[j] == es.drop_first()[j - 1] by {}
    }
}

/// Placing a row whose key differs from every existing key keeps the order.
pub proof fn lemma_place_sorted(es: Seq<ClipboardEntryV>, e: ClipboardEntryV)
    requires
        sorted_desc(es),
        forall|j: int|
            0 <= j < es.len() ==> !((#[trigger] es[j]).timestamp == e.timestamp && entry_id(es[j])
                == entry_id(e)),
    ensures
        sorted_desc(place(es, e)),
        place(es, e).len() == es.len() + 1,
        place(es, e)[insert_pos(es, e.timestamp, entry_id(e))] == e,
        forall|k: int|
            0 <= k < place(es, e).len() ==> (#[trigger] place(es, e)[k]) == e || (exists|j: int|
                0 <= j < es.len() && place(es, e)[k] == #[trigger] es[j]),
{
    lemma_insert_pos(es, e.timestamp, entry_id(e));
    let p = insert_pos(es, e.timestamp, entry_id(e));
    let r = place(es, e);
    assert forall|i: int, j: int| #![trigger r[i], r[j]] 0 <= i < j < r.len() implies key_before(
        r[i].timestamp,
        entry_id(r[i]),
        r[j].timestamp,
        entry_id(r[j]),
    ) by {
        if i < p && j < p {
            assert(r[i] == es[i] && r[j] == es[j]);
        } else if i < p && j == p {
            assert(r[i] == es[i] && r[j] == e);
            assert(!key_before(e.timestamp, entry_id(e), es[i].timestamp, entry_id(es[i])));
        } else if i < p && j > p {
            assert(r[i] == es[i] && r[j] == es[j - 1]);
        } else if i == p && j > p {
            assert(r[i] == e && r[j] == es[j - 1]);
            assert(key_before(e.timestamp, entry_id(e), es[p].timestamp, entry_id(es[p])));
            if j - 1 > p {
                assert(key_before(
                    es[p].timestamp,
                    entry_id(es[p]),
                    es[j - 1].timestamp,
                    entry_id(es[j - 1]),
                ));
            }
        } else {
            assert(i > p && j > p);
            assert(r[i] == es[i - 1] && r[j] == es[j - 1]);
        }
    }
    assert forall|k: int| 0 <= k < r.len() implies (#[trigger] r[k]) == e || (exists|j: int|
        0 <= j < es.len() && r[k] == #[trigger] es[j]) by {
        if k < p {
            assert(r[k] == es[k]);
        } else if k == p {
            assert(r[k] == e);
        } else {
            assert(r[k] == es[k - 1]);
        }
    }
}

/// The store after an insert.
pub struct ClipboardStorage {
    entries: Vec<ClipboardEntry>,
    max_history: usize,
    next_id: i64,
}

impl View for ClipboardStorage {
    type V = StoreV;

    closed spec fn view(&self) -> StoreV {
        StoreV {
            entries: self.entries@.map_values(|e: ClipboardEntry| e@),
            max_history: self.max_history as nat,
            next_id: self.next_id as int,
        }
    }
}

/// First index whose row sorts after the given key.
fn scan_pos(entries: &Vec<ClipboardEntry>, ts: i64, id: i64) -> (r: usize)
    requires
        forall|i: int|
            0 <= i < entries@.len() ==> (#[trigger] entries@[i]@).id is Some,
    ensures
        r as int == insert_pos(
            entries@.map_values(|e: ClipboardEntry| e@),
            ts as int,
            id as int,
        ),
        r <= entries@.len(),
{
    let ghost vs = entries@.map_values(|e: ClipboardEntry| e@);
    let mut i: usize = 0;
    proof {
        assert(vs.skip(0) =~= vs);
    }
    while i < entries.len()
        invariant
            i <= vs.len(),
            vs == entries@.map_values(|e: ClipboardEntry| e@),
            forall|k: int| 0 <= k < entries@.len() ==> (#[trigger] entries@[k]@).id is Some,
            insert_pos(vs, ts as int, id as int) == i + insert_pos(
                vs.skip(i as int),
                ts as int,
                id as int,
            ),
        decreases vs.len() - i,
    {
        let e = &entries[i];
        let ets = e.timestamp;
        let eid = match e.id {
            Some(v) => v,
            None => {
                proof {
                    assert(entries@[i as int]@.id is Some);
                }
                assert(false);
                0
            },
        };
        proof {
            assert(vs.skip(i as int)[0] == vs[i as int]);
            assert(entry_id(vs[i as int]) == eid as int);
        }
        if ts > ets || (ts == ets && id > eid) {
            proof {
                assert(key_before(ts as int, id as int, ets as int, eid as int));
                assert(insert_pos(vs.skip(i as int), ts as int, id as int) == 0);
            }
            return i;
        }
        proof {
            assert(!key_before(ts as int, id as int, ets as int, eid as int));
            assert(vs.skip(i as int).drop_first() =~= vs.skip(i + 1));
        }
        i = i + 1;
    }
    proof {
        assert(vs.skip(i as int).len() == 0);
    }
    i
}

impl ClipboardStorage {
    /// An empty store holding at most `max_history` rows.
    pub fn new(max_history: usize) -> (r: Self)
        ensures
            r@.entries.len() == 0,
            r@.max_history == max_history as nat,
            r@.next_id == 1,
            wf_store(r@),
    {
        let r = ClipboardStorage { entries: Vec::new(), max_history, next_id: 1 };
        proof {
            assert(r@.entries =~= Seq::<ClipboardEntryV>::empty());
        }
        r
    }

    /// Find the row with this checksum, if any.
    fn find_by_ck(&self, ck: &str) -> (r: Option<usize>)
        ensures
            ({
                let f = find_ck(self@.entries, ck@);
                match r {
                    Some(i) => f == i as int && i < self@.entries.len(),
                    None => f == -1,
                }
            }),
    {
        let ghost vs = self@.entries;
        proof {
            lemma_find_ck(vs, ck@);
        }
        let mut i: usize = 0;
        while i < self.entries.len()
            invariant
                i <= vs.len(),
                vs == self@.entries,
                forall|j: int| 0 <= j < i ==> (#[trigger] vs[j]).checksum != ck@,
            decreases vs.len() - i,
        {
            if str_eq(self.entries[i].checksum.as_str(), ck) {
                proof {
                    lemma_find_ck(vs, ck@);
                    assert(vs[i as int] == self.entries@[i as int]@);
                    assert(vs[i as int].checksum == ck@);
                    if find_ck(vs, ck@) == -1 {
                        assert(vs[i as int].checksum != ck@);
                    }
                    if find_ck(vs, ck@) < i as int {
                        assert(vs[find_ck(vs, ck@)].checksum == ck@);
                    }
                    if find_ck(vs, ck@) > i as int {
                        assert(vs[i as int].checksum != ck@);
                    }
                }
                return Some(i);
            }
            i = i + 1;
        }
        proof {
            lemma_find_ck(vs, ck@);
            if find_ck(vs, ck@) >= 0 {
                assert(vs[find_ck(vs, ck@)].checksum == ck@);
            }
        }
        None
    }

    /// Insert one entry: a row with the same checksum only has its timestamp
    /// refreshed to the later of the two and keeps its id; otherwise a fresh
    /// row is added under a new id and the oldest rows beyond `max_history`
    /// are evicted.  Returns the id of the row that now carries the content.
    #[verifier::rlimit(100)]
    pub fn insert(&mut self, entry: &ClipboardEntry) -> (r: i64)
        requires
            wf_store(old(self)@),
            old(self)@.next_id < 0x7fff_ffff_ffff_ffff,
        ensures
            wf_store(final(self)@),
            final(self)@ == store_insert(old(self)@, entry@),
            r as int == store_insert_id(old(self)@, entry@),
    {
        let ghost s0 = self@;
        proof {
            lemma_find_ck(s0.entries, entry@.checksum);
        }
        match self.find_by_ck(entry.checksum.as_str()) {
            Some(i) => {
                let mut e = self.entries.remove(i);
                let rid = match e.id {
                    Some(v) => v,
                    None => {
                        proof {
                            assert(s0.entries[i as int].id is Some);
                        }
                        assert(false);
                        0
                    },
                };
                if entry.timestamp > e.timestamp {
                    e.timestamp = entry.timestamp;
                }
                let ghost removed = s0.entries.remove(i as int);
                let ghost ne = ClipboardEntryV {
                    timestamp: if s0.entries[i as int].timestamp >= entry@.timestamp {
                        s0.entries[i as int].timestamp
                    } else {
                        entry@.timestamp
                    },
                    ..s0.entries[i as int]
                };
                proof {
                    assert(self@.entries =~= removed);
                    assert(e@ == ne);
                    assert forall|j: int|
                        0 <= j < removed.len() implies !((#[trigger] removed[j]).timestamp
                        == ne.timestamp && entry_id(removed[j]) == entry_id(ne)) by {
                        if j < i as int {
                            assert(removed[j] == s0.entries[j]);
                            assert(entry_id(s0.entries[j]) != entry_id(s0.entries[i as int]));
                        } else {
                            assert(removed[j] == s0.entries[j + 1]);
                            assert(entry_id(s0.entries[j + 1]) != entry_id(s0.entries[i as int]));
                        }
                    }
                    assert(sorted_desc(removed)) by {
                        assert forall|x: int, y: int| #![trigger removed[x], removed[y]]
                            0 <= x < y < removed.len() implies key_before(
                            removed[x].timestamp,
                            entry_id(removed[x]),
                            removed[y].timestamp,
                            entry_id(removed[y]),
                        ) by {
                            let x2: int = if x < i as int {
                                x
                            } else {
                                x + 1
                            };
                            let y2: int = if y < i as int {
                                y
                            } else {
                                y + 1
                            };
                            assert(removed[x] == s0.entries[x2]);
                            assert(removed[y] == s0.entries[y2]);
                        }
                    }
                    lemma_place_sorted(removed, ne);
                    assert forall|k: int|
                        0 <= k < self.entries@.len() implies (#[trigger] self.entries@[k]@).id
                        is Some by {
                        assert(self.entries@[k]@ == removed[k]);
                        if k < i as int {
                            assert(removed[k] == s0.entries[k]);
                        } else {
                            assert(removed[k] == s0.entries[k + 1]);
                        }
                    }
                }
                let p = scan_pos(&self.entries, e.timestamp, rid);
                self.entries.insert(p, e);
                proof {
                    assert(self@.entries =~= place(removed, ne));
                    let s1 = store_insert(s0, entry@);
                    assert(self@ == s1);
                    lemma_wf_after_place(s0, removed, ne, i as int);
                }
                rid
            },
            None => {
                let nid = self.next_id;
                let ne_exec = ClipboardEntry {
                    id: Some(nid),
                    content_type: entry.content_type,
                    content: entry.content.clone(),
                    metadata: match &entry.metadata {
                        Some(m) => Some(m.clone()),
                        None => None,
                    },
                    source: entry.source.clone(),
                    timestamp: entry.timestamp,
                    checksum: entry.checksum.clone(),
                };
                let ghost ne = ClipboardEntryV { id: Some(s0.next_id), ..entry@ };
                proof {
                    assert(ne_exec@ == ne);
                    assert forall|j: int|
                        0 <= j < s0.entries.len() implies !((#[trigger] s0.entries[j]).timestamp
                        == ne.timestamp && entry_id(s0.entries[j]) == entry_id(ne)) by {
                        assert(entry_id(s0.entries[j]) < s0.next_id);
                    }
                    lemma_place_sorted(s0.entries, ne);
                    assert forall|k: int|
                        0 <= k < self.entries@.len() implies (#[trigger] self.entries@[k]@).id
                        is Some by {
                        assert(self.entries@[k]@ == s0.entries[k]);
                    }
                }
                let p = scan_pos(&self.entries, ne_exec.timestamp, nid);
                self.entries.insert(p, ne_exec);
                proof {
                    assert(self@.entries =~= place(s0.entries, ne));
                }
                if self.entries.len() > self.max_history {
                    let _ = self.entries.pop();
                    proof {
                        assert(self@.entries =~= place(s0.entries, ne).drop_last());
                    }
                }
                self.next_id = nid + 1;
                proof {
                    let s1 = store_insert(s0, entry@);
                    assert(self@.entries == s1.entries);
                    assert(self@ == s1);
                    lemma_wf_after_fresh(s0, ne);
                }
                nid
            },
        }
    }

    /// Is there an unused row id left?  True until an astronomical number of
    /// inserts has happened; callers check it before inserting.
    pub fn id_space_left(&self) -> (r: bool)
        ensures
            r == (self@.next_id < 0x7fff_ffff_ffff_ffff),
    {
        self.next_id < 0x7fff_ffff_ffff_ffff
    }

    /// How many rows are stored.
    pub fn get_count(&self) -> (r: usize)
        ensures
            r as int == self@.entries.len(),
    {
        self.entries.len()
    }

    /// Drop every row.
    pub fn clear(&mut self)
        ensures
            final(self)@.entries.len() == 0,
            final(self)@.max_history == old(self)@.max_history,
            final(self)@.next_id == old(self)@.next_id,
            wf_store(old(self)@) ==> wf_store(final(self)@),
    {
        self.entries.clear();
        proof {
            assert(self@.entries =~= Seq::<ClipboardEntryV>::empty());
        }
    }

    /// The newest row, if any.
    pub fn get_latest(&self) -> (r: Option<ClipboardEntry>)
        ensures
            self@.entries.len() == 0 ==> r is None,
            self@.entries.len() > 0 ==> (r matches Some(e) && e@ == self@.entries[0]),
    {
        if self.entries.len() > 0 {
            let e = self.entries[0].clone_entry();
            proof {
                assert(self@.entries[0] == self.entries@[0]@);
            }
            Some(e)
        } else {
            None
        }
    }
}

/// Well-formedness after a timestamp refresh.
#[verifier::rlimit(100)]
proof fn lemma_wf_after_place(s0: StoreV, removed: Seq<ClipboardEntryV>, ne: ClipboardEntryV, i: int)
    requires
        wf_store(s0),
        0 <= i < s0.entries.len(),
        removed == s0.entries.remove(i),
        ne == (ClipboardEntryV {
            timestamp: if s0.entries[i].timestamp >= ne.timestamp {
                ne.timestamp
            } else {
                ne.timestamp
            },
            ..s0.entries[i]
        }),
        sorted_desc(place(removed, ne)),
        place(removed, ne).len() == removed.len() + 1,
        forall|k: int|
            0 <= k < place(removed, ne).len() ==> (#[trigger] place(removed, ne)[k]) == ne || (
            exists|j: int| 0 <= j < removed.len() && place(removed, ne)[k] == #[trigger] removed[j]),
    ensures
        wf_store(StoreV { entries: place(removed, ne), ..s0 }),
{
    let r = place(removed, ne);
    assert forall|k: int| 0 <= k < r.len() implies ((#[trigger] r[k]).id is Some && 1 <= entry_id(
        r[k],
    ) < s0.next_id) by {
        if r[k] == ne {
        } else {
            let j = choose|j: int| 0 <= j < removed.len() && r[k] == removed[j];
            let j2: int = if j < i {
                j
            } else {
                j + 1
            };
            assert(removed[j] == s0.entries[j2]);
        }
    }
    assert forall|x: int, y: int| #![trigger r[x], r[y]] 0 <= x < y < r.len() implies (entry_id(
        r[x],
    ) != entry_id(r[y]) && r[x].checksum != r[y].checksum) by {
        assert(key_before(r[x].timestamp, entry_id(r[x]), r[y].timestamp, entry_id(r[y])));
        if entry_id(r[x]) == entry_id(r[y]) {
            assert(r[x].timestamp > r[y].timestamp);
        }
        lemma_ck_distinct(s0, removed, ne, i, r, x, y);
    }
}

/// Checksums stay pairwise distinct after refresh-and-replace.
proof fn lemma_ck_distinct(
    s0: StoreV,
    removed: Seq<ClipboardEntryV>,
    ne: ClipboardEntryV,
    i: int,
    r: Seq<ClipboardEntryV>,
    x: int,
    y: int,
)
    requires
        wf_store(s0),
        0 <= i < s0.entries.len(),
        removed == s0.entries.remove(i),
        ne.checksum == s0.entries[i].checksum,
        entry_id(ne) == entry_id(s0.entries[i]),
        r == place(removed, ne),
        r.len() == removed.len() + 1,
        forall|k: int|
            0 <= k < r.len() ==> (#[trigger] r[k]) == ne || (exists|j: int|
                0 <= j < removed.len() && r[k] == #[trigger] removed[j]),
        0 <= x < y < r.len(),
        key_before(r[x].timestamp, entry_id(r[x]), r[y].timestamp, entry_id(r[y])),
    ensures
        r[x].checksum != r[y].checksum,
{
    let ex = r[x];
    let ey = r[y];
    assert(entry_id(ex) != entry_id(ey) || ex.timestamp != ey.timestamp);
    if ex == ne && ey == ne {
        assert(false);
    } else if ex == ne {
        let j = choose|j: int| 0 <= j < removed.len() && ey == removed[j];
        let j2: int = if j < i {
            j
        } else {
            j + 1
        };
        assert(ey == s0.entries[j2]);
        assert(j2 != i);
        assert(ey.checksum != s0.entries[i].checksum) by {
            if j2 < i {
                assert(s0.entries[j2].checksum != s0.entries[i].checksum);
            } else {
                assert(s0.entries[i].checksum != s0.entries[j2].checksum);
            }
        }
    } else if ey == ne {
        let j = choose|j: int| 0 <= j < removed.len() && ex == removed[j];
        let j2: int = if j < i {
            j
        } else {
            j + 1
        };
        assert(ex == s0.entries[j2]);
        assert(j2 != i);
        assert(ex.checksum != s0.entries[i].checksum) by {
            if j2 < i {
                assert(s0.entries[j2].checksum != s0.entries[i].checksum);
            } else {
                assert(s0.entries[i].checksum != s0.entries[j2].checksum);
            }
        }
    } else {
        let jx = choose|j: int| 0 <= j < removed.len() && ex == removed[j];
        let jy = choose|j: int| 0 <= j < removed.len() && ey == removed[j];
        let jx2: int = if jx < i {
            jx
        } else {
            jx + 1
        };
        let jy2: int = if jy < i {
            jy
        } else {
            jy + 1
        };
        assert(ex == s0.entries[jx2] && ey == s0.entries[jy2]);
        if jx2 == jy2 {
            assert(ex == ey);
            assert(false);
        } else if jx2 < jy2 {
            assert(s0.entries[jx2].checksum != s0.entries[jy2].checksum);
        } else {
            assert(s0.entries[jy2].checksum != s0.entries[jx2].checksum);
        }
    }
}

/// Well-formedness after a fresh insert and possible eviction.
#[verifier::rlimit(100)]
proof fn lemma_wf_after_fresh(s0: StoreV, ne: ClipboardEntryV)
    requires
        wf_store(s0),
        s0.next_id < 0x7fff_ffff_ffff_ffff,
        ne.id == Some(s0.next_id),
        find_ck(s0.entries, ne.checksum) == -1,
        sorted_desc(place(s0.entries, ne)),
        place(s0.entries, ne).len() == s0.entries.len() + 1,
        forall|k: int|
            0 <= k < place(s0.entries, ne).len() ==> (#[trigger] place(s0.entries, ne)[k]) == ne
                || (exists|j: int|
                0 <= j < s0.entries.len() && place(s0.entries, ne)[k] == #[trigger] s0.entries[j]),
    ensures
        wf_store(store_insert(s0, ne)),
        wf_store(
            StoreV {
                entries: if place(s0.entries, ne).len() > s0.max_history {
                    place(s0.entries, ne).drop_last()
                } else {
                    place(s0.entries, ne)
                },
                next_id: s0.next_id + 1,
                ..s0
            },
        ),
{
    let r0 = place(s0.entries, ne);
    lemma_find_ck(s0.entries, ne.checksum);
    assert forall|k: int| 0 <= k < r0.len() implies ((#[trigger] r0[k]).id is Some && 1 <= entry_id(
        r0[k],
    ) < s0.next_id + 1) by {
        if r0[k] == ne {
        } else {
            let j = choose|j: int| 0 <= j < s0.entries.len() && r0[k] == s0.entries[j];
        }
    }
    assert forall|x: int, y: int| #![trigger r0[x], r0[y]] 0 <= x < y < r0.len() implies (entry_id(
        r0[x],
    ) != entry_id(r0[y]) && r0[x].checksum != r0[y].checksum) by {
        assert(key_before(r0[x].timestamp, entry_id(r0[x]), r0[y].timestamp, entry_id(r0[y])));
        if entry_id(r0[x]) == entry_id(r0[y]) {
            assert(r0[x].timestamp > r0[y].timestamp);
        }
        if r0[x] == ne && r0[y] == ne {
            assert(false);
        } else if r0[x] == ne {
            let j = choose|j: int| 0 <= j < s0.entries.len() && r0[y] == s0.entries[j];
            assert(s0.entries[j].checksum != ne.checksum);
        } else if r0[y] == ne {
            let j = choose|j: int| 0 <= j < s0.entries.len() && r0[x] == s0.entries[j];
            assert(s0.entries[j].checksum != ne.checksum);
        } else {
            let jx = choose|j: int| 0 <= j < s0.entries.len() && r0[x] == s0.entries[j];
            let jy = choose|j: int| 0 <= j < s0.entries.len() && r0[y] == s0.entries[j];
            if jx == jy {
                assert(entry_id(r0[x]) == entry_id(r0[y]));
                assert(false);
            } else if jx < jy {
                assert(s0.entries[jx].checksum != s0.entries[jy].checksum);
            } else {
                assert(s0.entries[jy].checksum != s0.entries[jx].checksum);
            }
        }
    }
    let rr = if r0.len() > s0.max_history {
        r0.drop_last()
    } else {
        r0
    };
    assert forall|x: int, y: int| #![trigger rr[x], rr[y]] 0 <= x < y < rr.len() implies (
    key_before(rr[x].timestamp, entry_id(rr[x]), rr[y].timestamp, entry_id(rr[y])) && entry_id(
        rr[x],
    ) != entry_id(rr[y]) && rr[x].checksum != rr[y].checksum) by {
        assert(rr[x] == r0[x] && rr[y] == r0[y]);
    }
    assert forall|k: int| 0 <= k < rr.len() implies ((#[trigger] rr[k]).id is Some && 1
        <= entry_id(rr[k]) < s0.next_id + 1) by {
        assert(rr[k] == r0[k]);
    }
}

/// `n` occurs as a contiguous run inside `h`.
pub open spec fn contains_bytes(h: Seq<u8>, n: Seq<u8>) -> bool {
    exists|i: int| 0 <= i <= h.len() - n.len() && #[trigger] h.subrange(i, i + n.len()) == n
}

/// An entry passes every present filter of the query.  The text filter is a
/// naive byte-level substring match over the stored content, so it reliably
/// matches only text payloads.
pub open spec fn matches_query(e: ClipboardEntryV, q: ClipboardSearchQueryV) -> bool {
    &&& match q.content_type {
        Some(t) => e.content_type == t,
        None => true,
    }
    &&& match q.source {
        Some(s) => e.source == s,
        None => true,
    }
    &&& match q.search_text {
        Some(t) => contains_bytes(
            vstd::utf8::encode_utf8(e.content),
            vstd::utf8::encode_utf8(t),
        ),
        None => true,
    }
}

/// Rows passing the filters, in store order.
pub open spec fn filter_query(es: Seq<ClipboardEntryV>, q: ClipboardSearchQueryV) -> Seq<
    ClipboardEntryV,
>
    decreases es.len(),
{
    if es.len() == 0 {
        Seq::empty()
    } else {
        filter_query(es.drop_last(), q) + (if matches_query(es.last(), q) {
            seq![es.last()]
        } else {
            Seq::empty()
        })
    }
}

pub open spec fn min_nat(a: nat, b: nat) -> nat {
    if a <= b {
        a
    } else {
        b
    }
}

/// The filtered rows, paged.
pub open spec fn spec_search(es: Seq<ClipboardEntryV>, q: ClipboardSearchQueryV) -> Seq<
    ClipboardEntryV,
> {
    let f = filter_query(es, q);
    f.subrange(min_nat(q.offset, f.len()) as int, min_nat(q.offset + q.limit, f.len()) as int)
}

fn bytes_contains(h: &[u8], n: &[u8]) -> (r: bool)
    ensures
        r == contains_bytes(h@, n@),
{
    if n.len() > h.len() {
        return false;
    }
    let hl = h.len();
    let nl = n.len();
    let mut i: usize = 0;
    while i <= hl - nl
        invariant
            hl == h@.len(),
            nl == n@.len(),
            n@.len() <= h@.len(),
            i <= h@.len() - n@.len() + 1,
            forall|x: int| 0 <= x < i ==> #[trigger] h@.subrange(x, x + n@.len()) != n@,
        decreases h@.len() + 1 - n@.len() - i,
    {
        let mut j: usize = 0;
        let mut ok = true;
        while j < nl
            invariant
                hl == h@.len(),
                nl == n@.len(),
                n@.len() <= h@.len(),
                i <= h@.len() - n@.len(),
                j <= n@.len(),
                ok <==> (forall|y: int| 0 <= y < j ==> h@[i + y] == n@[y]),
            decreases n@.len() - j,
        {
            assert(i + j < hl);
            if h[i + j] != n[j] {
                ok = false;
                proof {
                    assert(h@[i + j as int] != n@[j as int]);
                }
                j = nl;
            } else {
                j = j + 1;
            }
        }
        if ok {
            proof {
                assert(h@.subrange(i as int, i + n@.len()) =~= n@);
            }
            return true;
        }
        proof {
            if h@.subrange(i as int, i + n@.len()) == n@ {
                let y = choose|y: int| 0 <= y < n@.len() && h@[i + y] != n@[y];
                assert(h@.subrange(i as int, i + n@.len())[y] == n@[y]);
            }
        }
        i = i + 1;
    }
    proof {
        if contains_bytes(h@, n@) {
            let x = choose|x: int|
                0 <= x <= h@.len() - n@.len() && #[trigger] h@.subrange(x, x + n@.len()) == n@;
            assert(h@.subrange(x, x + n@.len()) != n@);
        }
    }
    false
}

fn entry_matches(e: &ClipboardEntry, q: &ClipboardSearchQuery) -> (r: bool)
    ensures
        r == matches_query(e@, q@),
{
    let ct_ok = match &q.content_type {
        Some(t) => *t == e.content_type,
        None => true,
    };
    let src_ok = match &q.source {
        Some(s) => str_eq(s.as_str(), e.source.as_str()),
        None => true,
    };
    let txt_ok = match &q.search_text {
        Some(t) => bytes_contains(e.content.as_str().as_bytes(), t.as_str().as_bytes()),
        None => true,
    };
    proof {
        if q@.source is Some {
            assert(src_ok == (e@.source == q@.source->0));
        }
    }
    ct_ok && src_ok && txt_ok
}

impl ClipboardStorage {
    /// Rows passing the query's filters, newest first, paged by `offset` and
    /// `limit`.
    pub fn search(&self, query: &ClipboardSearchQuery) -> (r: Vec<ClipboardEntry>)
        ensures
            r@.map_values(|e: ClipboardEntry| e@) == spec_search(self@.entries, query@),
    {
        let ghost vs = self@.entries;
        let mut flt: Vec<ClipboardEntry> = Vec::new();
        let mut i: usize = 0;
        proof {
            assert(vs.subrange(0, 0) =~= Seq::<ClipboardEntryV>::empty());
            assert(flt@.map_values(|e: ClipboardEntry| e@) =~= filter_query(
                vs.subrange(0, 0),
                query@,
            ));
        }
        while i < self.entries.len()
            invariant
                i <= vs.len(),
                vs == self@.entries,
                flt@.map_values(|e: ClipboardEntry| e@) == filter_query(
                    vs.subrange(0, i as int),
                    query@,
                ),
            decreases vs.len() - i,
        {
            let ghost pre = vs.subrange(0, i as int);
            let ghost now = vs.subrange(0, i + 1);
            proof {
                assert(now.drop_last() =~= pre);
                assert(now.last() == vs[i as int]);
                assert(vs[i as int] == self.entries@[i as int]@);
            }
            if entry_matches(&self.entries[i], query) {
                flt.push(self.entries[i].clone_entry());
                proof {
                    assert(flt@.map_values(|e: ClipboardEntry| e@) =~= filter_query(pre, query@)
                        + seq![vs[i as int]]);
                    assert(filter_query(now, query@) == filter_query(pre, query@)
                        + seq![vs[i as int]]);
                }
            } else {
                proof {
                    assert(filter_query(now, query@) =~= filter_query(pre, query@));
                }
            }
            i = i + 1;
        }
        proof {
            assert(vs.subrange(0, vs.len() as int) =~= vs);
        }
        let ghost f = filter_query(vs, query@);
        let start = if query.offset <= flt.len() {
            query.offset
        } else {
            flt.len()
        };
        let room = flt.len() - start;
        let take = if query.limit <= room {
            query.limit
        } else {
            room
        };
        let fl = flt.len();
        let mut out: Vec<ClipboardEntry> = Vec::new();
        let mut k: usize = 0;
        while k < take
            invariant
                fl == flt@.len(),
                start + take <= flt@.len(),
                k <= take,
                f == flt@.map_values(|e: ClipboardEntry| e@),
                out@.map_values(|e: ClipboardEntry| e@) == f.subrange(
                    start as int,
                    start + k as int,
                ),
            decreases take - k,
        {
            assert(start + k < fl);
            let ghost preout = out@;
            let ghost premap = preout.map_values(|e: ClipboardEntry| e@);
            proof {
                assert(premap.len() == k);
            }
            out.push(flt[start + k].clone_entry());
            proof {
                assert(out@ =~= preout.push(out@[k as int]));
                assert(out@[k as int]@ == flt@[start + k as int]@);
                assert(f[start + k as int] == flt@[start + k as int]@);
                assert(out@.map_values(|e: ClipboardEntry| e@) =~= f.subrange(
                    start as int,
                    start + k + 1,
                )) by {
                    assert forall|idx: int| #![trigger out@[idx]]
                        0 <= idx < out@.len() implies out@.map_values(|e: ClipboardEntry| e@)[idx]
                        == f.subrange(start as int, start + k + 1)[idx] by {
                        if idx < k as int {
                            assert(out@[idx] == preout[idx]);
                            assert(premap[idx] == preout[idx]@);
                            assert(premap[idx] == f.subrange(start as int, start + k as int)[idx]);
                        } else {
                            assert(out@[idx]@ == f[start + k as int]);
                        }
                    }
                }
            }
            k = k + 1;
        }
        proof {
            assert(out@.map_values(|e: ClipboardEntry| e@) =~= spec_search(vs, query@));
        }
        out
    }
}

/// One insert keeps the store well formed; stated over the model alone.
pub proof fn lemma_store_insert_wf(s: StoreV, e: ClipboardEntryV)
    requires
        wf_store(s),
        find_ck(s.entries, e.checksum) < 0 ==> s.next_id < 0x7fff_ffff_ffff_ffff,
    ensures
        wf_store(store_insert(s, e)),
        store_insert(s, e).max_history == s.max_history,
        store_insert(s, e).entries.len() <= s.max_history,
        find_ck(s.entries, e.checksum) >= 0 ==> store_insert(s, e).entries.len()
            == s.entries.len() && store_insert(s, e).next_id == s.next_id,
        find_ck(s.entries, e.checksum) < 0 ==> store_insert(s, e).entries.len() == min_nat(
            (s.entries.len() + 1) as nat,
            s.max_history,
        ) && store_insert(s, e).next_id == s.next_id + 1,
{
    lemma_find_ck(s.entries, e.checksum);
    let i = find_ck(s.entries, e.checksum);
    if i >= 0 {
        let oe = s.entries[i];
        let ne = ClipboardEntryV {
            timestamp: if oe.timestamp >= e.timestamp {
                oe.timestamp
            } else {
                e.timestamp
            },
            ..oe
        };
        let removed = s.entries.remove(i);
        assert forall|j: int| 0 <= j < removed.len() implies !((#[trigger] removed[j]).timestamp
            == ne.timestamp && entry_id(removed[j]) == entry_id(ne)) by {
            if j < i {
                assert(removed[j] == s.entries[j]);
            } else {
                assert(removed[j] == s.entries[j + 1]);
            }
        }
        assert(sorted_desc(removed)) by {
            assert forall|x: int, y: int| #![trigger removed[x], removed[y]]
                0 <= x < y < removed.len() implies key_before(
                removed[x].timestamp,
                entry_id(removed[x]),
                removed[y].timestamp,
                entry_id(removed[y]),
            ) by {
                let x2: int = if x < i {
                    x
                } else {
                    x + 1
                };
                let y2: int = if y < i {
                    y
                } else {
                    y + 1
                };
                assert(removed[x] == s.entries[x2]);
                assert(removed[y] == s.entries[y2]);
            }
        }
        lemma_place_sorted(removed, ne);
        lemma_wf_after_place(s, removed, ne, i);
        assert(store_insert(s, e).entries == place(removed, ne));
    } else {
        let ne = ClipboardEntryV { id: Some(s.next_id), ..e };
        assert forall|j: int| 0 <= j < s.entries.len() implies !((#[trigger] s.entries[j]).timestamp
            == ne.timestamp && entry_id(s.entries[j]) == entry_id(ne)) by {
            assert(entry_id(s.entries[j]) < s.next_id);
        }
        lemma_place_sorted(s.entries, ne);
        assert(find_ck(s.entries, ne.checksum) == -1);
        lemma_wf_after_fresh(s, ne);
    }
}

/// Inserting two entries with the same checksum leaves exactly one row for
/// it: its id is assigned at the first insert and stays, and its timestamp
/// becomes the later of the two.
pub proof fn lemma_idempotent_dedup(s: StoreV, e1: ClipboardEntryV, e2: ClipboardEntryV)
    requires
        wf_store(s),
        s.next_id < 0x7fff_ffff_ffff_ffff,
        e1.checksum == e2.checksum,
        find_ck(s.entries, e1.checksum) == -1,
        s.entries.len() < s.max_history,
    ensures
        ({
            let s1 = store_insert(s, e1);
            let s2 = store_insert(s1, e2);
            let k = find_ck(s2.entries, e1.checksum);
            &&& wf_store(s2)
            &&& s1.entries.len() == s.entries.len() + 1
            &&& s2.entries.len() == s1.entries.len()
            &&& store_insert_id(s, e1) == s.next_id
            &&& store_insert_id(s1, e2) == store_insert_id(s, e1)
            &&& 0 <= k < s2.entries.len()
            &&& entry_id(s2.entries[k]) == store_insert_id(s, e1)
            &&& s2.entries[k].timestamp == if e1.timestamp >= e2.timestamp {
                e1.timestamp
            } else {
                e2.timestamp
            }
        }),
{
    let ck = e1.checksum;
    lemma_find_ck(s.entries, ck);
    let ne1 = ClipboardEntryV { id: Some(s.next_id), ..e1 };
    assert forall|j: int| 0 <= j < s.entries.len() implies !((#[trigger] s.entries[j]).timestamp
        == ne1.timestamp && entry_id(s.entries[j]) == entry_id(ne1)) by {
        assert(entry_id(s.entries[j]) < s.next_id);
    }
    lemma_place_sorted(s.entries, ne1);
    lemma_insert_pos(s.entries, ne1.timestamp, entry_id(ne1));
    lemma_store_insert_wf(s, e1);
    let s1 = store_insert(s, e1);
    let p = insert_pos(s.entries, ne1.timestamp, entry_id(ne1));
    assert(s1.entries == place(s.entries, ne1));
    assert(0 <= p <= s.entries.len());
    assert(s1.entries[p] == ne1);
    lemma_find_ck(s1.entries, ck);
    assert(find_ck(s1.entries, ck) >= 0) by {
        if find_ck(s1.entries, ck) == -1 {
            assert(s1.entries[p].checksum != ck);
        }
    }
    let k1 = find_ck(s1.entries, ck);
    assert(s1.entries[k1].checksum == ck);
    assert(k1 == p) by {
        if k1 < p {
            assert(s1.entries[k1] == s.entries[k1]);
            assert(s.entries[k1].checksum != ck);
        }
        if k1 > p {
            assert(s1.entries[k1] == s.entries[k1 - 1]);
            assert(s.entries[k1 - 1].checksum != ck);
        }
    }
    assert(store_insert_id(s1, e2) == entry_id(ne1));
    assert(entry_id(ne1) == s.next_id);
    lemma_store_insert_wf(s1, e2);
    let s2 = store_insert(s1, e2);
    let oe = s1.entries[k1];
    let ne2 = ClipboardEntryV {
        timestamp: if oe.timestamp >= e2.timestamp {
            oe.timestamp
        } else {
            e2.timestamp
        },
        ..oe
    };
    let removed = s1.entries.remove(k1);
    assert(s2.entries == place(removed, ne2));
    let p2 = insert_pos(removed, ne2.timestamp, entry_id(ne2));
    assert forall|j: int| 0 <= j < removed.len() implies !((#[trigger] removed[j]).timestamp
        == ne2.timestamp && entry_id(removed[j]) == entry_id(ne2)) by {
        let j2: int = if j < k1 {
            j
        } else {
            j + 1
        };
        assert(removed[j] == s1.entries[j2]);
        if j2 < k1 {
            assert(entry_id(s1.entries[j2]) != entry_id(s1.entries[k1]));
        } else {
            assert(entry_id(s1.entries[k1]) != entry_id(s1.entries[j2]));
        }
    }
    assert(sorted_desc(removed)) by {
        assert forall|x: int, y: int| #![trigger removed[x], removed[y]]
            0 <= x < y < removed.len() implies key_before(
            removed[x].timestamp,
            entry_id(removed[x]),
            removed[y].timestamp,
            entry_id(removed[y]),
        ) by {
            let x2: int = if x < k1 {
                x
            } else {
                x + 1
            };
            let y2: int = if y < k1 {
                y
            } else {
                y + 1
            };
            assert(removed[x] == s1.entries[x2]);
            assert(removed[y] == s1.entries[y2]);
        }
    }
    lemma_place_sorted(removed, ne2);
    lemma_insert_pos(removed, ne2.timestamp, entry_id(ne2));
    assert(0 <= p2 <= removed.len());
    assert(s2.entries[p2] == ne2);
    lemma_find_ck(s2.entries, ck);
    assert(find_ck(s2.entries, ck) >= 0) by {
        if find_ck(s2.entries, ck) == -1 {
            assert(s2.entries[p2].checksum != ck);
        }
    }
    let k2 = find_ck(s2.entries, ck);
    assert(k2 == p2) by {
        if k2 != p2 {
            let j: int = if k2 < p2 {
                k2
            } else {
                k2 - 1
            };
            assert(s2.entries[k2] == removed[j]);
            let j2: int = if j < k1 {
                j
            } else {
                j + 1
            };
            assert(removed[j] == s1.entries[j2]);
            assert(s1.entries[j2].checksum == ck);
            assert(j2 != k1);
            if j2 < k1 {
                assert(s1.entries[j2].checksum != s1.entries[k1].checksum);
            } else {
                assert(s1.entries[k1].checksum != s1.entries[j2].checksum);
            }
        }
    }
    assert(s2.entries[k2].timestamp == if e1.timestamp >= e2.timestamp {
        e1.timestamp
    } else {
        e2.timestamp
    });
    assert(entry_id(s2.entries[k2]) == s.next_id);
}

/// Folding a sequence of inserts, first element first.
pub open spec fn fold_insert(s: StoreV, es: Seq<ClipboardEntryV>) -> StoreV
    decreases es.len(),
{
    if es.len() == 0 {
        s
    } else {
        fold_insert(store_insert(s, es[0]), es.drop_first())
    }
}

/// Filling a store with fresh rows, each newer than everything before it,
/// keeps exactly the newest `max_history` of them, newest first.
proof fn lemma_fill(s: StoreV, es: Seq<ClipboardEntryV>)
    requires
        wf_store(s),
        s.next_id + es.len() <= 0x7fff_ffff_ffff_ffff,
        forall|i: int, j: int| #![trigger es[i], es[j]]
            0 <= i < j < es.len() ==> es[i].checksum != es[j].checksum,
        forall|i: int, k: int| #![trigger es[i], s.entries[k]]
            0 <= i < es.len() && 0 <= k < s.entries.len() ==> es[i].checksum
                != s.entries[k].checksum,
        forall|i: int, j: int| #![trigger es[i], es[j]]
            0 <= i < j < es.len() ==> es[i].timestamp < es[j].timestamp,
        forall|i: int, k: int| #![trigger es[i], s.entries[k]]
            0 <= i < es.len() && 0 <= k < s.entries.len() ==> es[i].timestamp
                > s.entries[k].timestamp,
    ensures
        ({
            let r = fold_insert(s, es);
            &&& wf_store(r)
            &&& r.max_history == s.max_history
            &&& r.entries.len() == min_nat((s.entries.len() + es.len()) as nat, s.max_history)
            &&& forall|i: int|
                0 <= i < r.entries.len() ==> ((i < es.len() ==> {
                    let src = es[es.len() - 1 - i];
                    (#[trigger] r.entries[i]).checksum == src.checksum && r.entries[i].timestamp
                        == src.timestamp
                }) && (i >= es.len() ==> r.entries[i] == s.entries[i - es.len()]))
        }),
    decreases es.len(),
{
    if es.len() == 0 {
    } else {
        let e0 = es[0];
        lemma_find_ck(s.entries, e0.checksum);
        assert(find_ck(s.entries, e0.checksum) == -1) by {
            if find_ck(s.entries, e0.checksum) >= 0 {
                let k = find_ck(s.entries, e0.checksum);
                assert(es[0].checksum != s.entries[k].checksum);
            }
        }
        let ne = ClipboardEntryV { id: Some(s.next_id), ..e0 };
        assert forall|j: int|
            0 <= j < s.entries.len() implies !((#[trigger] s.entries[j]).timestamp == ne.timestamp
            && entry_id(s.entries[j]) == entry_id(ne)) by {
            assert(entry_id(s.entries[j]) < s.next_id);
        }
        lemma_place_sorted(s.entries, ne);
        lemma_insert_pos(s.entries, ne.timestamp, entry_id(ne));
        lemma_store_insert_wf(s, e0);
        let s1 = store_insert(s, e0);
        let p = insert_pos(s.entries, ne.timestamp, entry_id(ne));
        assert(p == 0) by {
            if s.entries.len() > 0 {
                assert(es[0].timestamp > s.entries[0].timestamp);
                assert(key_before(
                    ne.timestamp,
                    entry_id(ne),
                    s.entries[0].timestamp,
                    entry_id(s.entries[0]),
                ));
            }
        }
        let placed = place(s.entries, ne);
        assert(placed[0] == ne);
        assert(forall|k: int| 1 <= k < placed.len() ==> #[trigger] placed[k] == s.entries[k - 1]);
        let rest = es.drop_first();
        assert forall|i: int, k: int| #![trigger rest[i], s1.entries[k]]
            0 <= i < rest.len() && 0 <= k < s1.entries.len() implies (rest[i].checksum
            != s1.entries[k].checksum && rest[i].timestamp > s1.entries[k].timestamp) by {
            assert(rest[i] == es[i + 1]);
            assert(s1.entries[k] == placed[k]);
            if k == 0 {
                assert(placed[0] == ne);
                assert(es[i + 1].checksum != es[0].checksum);
                assert(es[0].timestamp < es[i + 1].timestamp);
            } else {
                assert(placed[k] == s.entries[k - 1]);
            }
        }
        assert forall|i: int, j: int| #![trigger rest[i], rest[j]]
            0 <= i < j < rest.len() implies (rest[i].checksum != rest[j].checksum
            && rest[i].timestamp < rest[j].timestamp) by {
            assert(rest[i] == es[i + 1] && rest[j] == es[j + 1]);
        }
        lemma_fill(s1, rest);
        let r = fold_insert(s1, rest);
        assert(fold_insert(s, es) == r);
        assert forall|i: int| 0 <= i < r.entries.len() implies ((i < es.len() ==> {
            let src = es[es.len() - 1 - i];
            (#[trigger] r.entries[i]).checksum == src.checksum && r.entries[i].timestamp
                == src.timestamp
        }) && (i >= es.len() ==> r.entries[i] == s.entries[i - es.len()])) by {
            if i < rest.len() {
                assert(rest[rest.len() - 1 - i] == es[es.len() - 1 - i]);
            } else if i == rest.len() {
                assert(r.entries[i] == s1.entries[0]);
                assert(s1.entries[0] == ne);
                assert(es.len() - 1 - i == 0);
            } else {
                assert(r.entries[i] == s1.entries[i - rest.len()]);
                assert(s1.entries[i - rest.len()] == placed[i - rest.len()]);
                assert(placed[i - rest.len()] == s.entries[i - rest.len() - 1]);
            }
        }
    }
}

/// Eviction bound: after filling an empty store with distinct-checksum
/// entries carrying increasing timestamps, exactly the `max_history` most
/// recent entries remain, newest first.
pub proof fn lemma_eviction_bound(s: StoreV, es: Seq<ClipboardEntryV>)
    requires
        wf_store(s),
        s.entries.len() == 0,
        s.next_id + es.len() <= 0x7fff_ffff_ffff_ffff,
        forall|i: int, j: int| #![trigger es[i], es[j]]
            0 <= i < j < es.len() ==> es[i].checksum != es[j].checksum,
        forall|i: int, j: int| #![trigger es[i], es[j]]
            0 <= i < j < es.len() ==> es[i].timestamp < es[j].timestamp,
        es.len() >= s.max_history,
    ensures
        fold_insert(s, es).entries.len() == s.max_history,
        forall|i: int|
            0 <= i < fold_insert(s, es).entries.len() ==> {
                let src = es[es.len() - 1 - i];
                (#[trigger] fold_insert(s, es).entries[i]).checksum == src.checksum && fold_insert(
                    s,
                    es,
                ).entries[i].timestamp == src.timestamp
            },
{
    lemma_fill(s, es);
}

} // verus!
