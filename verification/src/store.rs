//! The durable keyed store, as the engine sees it: a finite table of typed
//! rows with "insert, or update on conflict" as its only write.
use vstd::prelude::*;

verus! {

/// Lifecycle status of a proposal.
#[derive(Clone, Copy, Debug, PartialEq, Eq, Structural)]
pub enum Status {
    Open,
    FcpProposed,
    FcpActive,
    FcpClosed,
    Postponed,
    Closed,
}

/// The kind of the marker comment last seen on a proposal.
#[derive(Clone, Copy, Debug, PartialEq, Eq, Structural)]
pub enum MarkerKind {
    Propose,
    Cancel,
    Postpone,
}

/// The key of a row. Identities, teams and repositories are named by their
/// internal ids, proposals by their remote id.
#[derive(Clone, Copy, Debug, PartialEq, Eq, Structural)]
pub enum Key {
    /// An identity that was sighted.
    Identity(u64),
    /// What the tracker says of a proposal's issue.
    Issue(u64),
    /// (proposal, team): whether the team's label is on the proposal.
    Binding(u64, u64),
    /// The marker last seen on a proposal.
    Marker(u64),
    /// (proposal, identity): a review sign-off.
    SignOff(u64, u64),
    /// (proposal, raising identity, text key): a concern.
    Concern(u64, u64, u64),
    /// The lifecycle state of a proposal, written by the consensus machine.
    Progress(u64),
    /// The watermark of a repository.
    Watermark(u64),
}

/// The value of a row.
#[derive(Clone, Copy, Debug, PartialEq, Eq, Structural)]
pub enum Val {
    Identity,
    Issue { repo: u64, closed: bool, at: i64 },
    Binding { bound: bool },
    Marker { kind: MarkerKind, by: u64, at: i64 },
    SignOff { checked: bool, at: i64 },
    Concern { open: bool, at: i64 },
    Progress { status: Status, since: i64, flagged: bool },
    Watermark { at: i64 },
}

/// One row of the store.
#[derive(Clone, Copy, Debug, PartialEq, Eq, Structural)]
pub struct Row {
    pub key: Key,
    pub val: Val,
}

/// A value may stand under a key only if both are of the same entity.
pub open spec fn fits(key: Key, val: Val) -> bool {
    match key {
        Key::Identity(_) => val is Identity,
        Key::Issue(_) => val is Issue,
        Key::Binding(_, _) => val is Binding,
        Key::Marker(_) => val is Marker,
        Key::SignOff(_, _) => val is SignOff,
        Key::Concern(_, _, _) => val is Concern,
        Key::Progress(_) => val is Progress,
        Key::Watermark(_) => val is Watermark,
    }
}

/// Every row of the table is of one entity.
pub open spec fn typed(m: Map<Key, Val>) -> bool {
    forall|k: Key| #[trigger] m.contains_key(k) ==> fits(k, m[k])
}

/// `k` is the key of an open concern on `proposal`.
pub open spec fn is_open_concern(m: Map<Key, Val>, proposal: u64, k: Key) -> bool {
    &&& m.contains_key(k)
    &&& k matches Key::Concern(p, _, _)
    &&& p == proposal
    &&& m[k] matches Val::Concern { open, .. }
    &&& open
}

/// Some concern on `proposal` is unresolved.
pub open spec fn has_open_concern(m: Map<Key, Val>, proposal: u64) -> bool {
    exists|k: Key| is_open_concern(m, proposal, k)
}

/// Some row stands under `k`.
pub open spec fn has_key(rows: Seq<Row>, k: Key) -> bool {
    exists|i: int| 0 <= i < rows.len() && (#[trigger] rows[i]).key == k
}

/// The place of the row under `k`.
pub open spec fn index_of(rows: Seq<Row>, k: Key) -> int {
    choose|i: int| 0 <= i < rows.len() && (#[trigger] rows[i]).key == k
}

/// The table that a list of rows stands for.
pub open spec fn table(rows: Seq<Row>) -> Map<Key, Val> {
    Map::new(|k: Key| has_key(rows, k), |k: Key| rows[index_of(rows, k)].val)
}

/// No key stands twice, and each row is of one entity.
pub open spec fn rows_wf(rows: Seq<Row>) -> bool {
    &&& forall|i: int, j: int|
        0 <= i < j < rows.len() ==> (#[trigger] rows[i]).key != (#[trigger] rows[j]).key
    &&& forall|i: int| 0 <= i < rows.len() ==> fits((#[trigger] rows[i]).key, rows[i].val)
}

/// In a well-formed list, the table holds each row under its key.
pub proof fn lemma_row(rows: Seq<Row>, i: int)
    requires
        rows_wf(rows),
        0 <= i < rows.len(),
    ensures
        table(rows).contains_key(rows[i].key),
        table(rows)[rows[i].key] == rows[i].val,
{
    let k = rows[i].key;
    assert(has_key(rows, k));
    let j = index_of(rows, k);
    assert(0 <= j < rows.len() && rows[j].key == k);
    if j < i {
        assert(rows[j].key != rows[i].key);
    }
    if i < j {
        assert(rows[i].key != rows[j].key);
    }
}

/// The store: rows under distinct keys.
pub struct Store {
    rows: Vec<Row>,
}

impl View for Store {
    type V = Map<Key, Val>;

    closed spec fn view(&self) -> Map<Key, Val> {
        table(self.rows@)
    }
}

impl Store {
    /// The representation invariant.
    pub closed spec fn wf(&self) -> bool {
        rows_wf(self.rows@)
    }

    /// A well-formed store holds only rows of one entity each.
    pub proof fn law_rows_typed(&self)
        requires
            self.wf(),
        ensures
            typed(self@),
    {
        assert forall|k: Key| #[trigger] self@.contains_key(k) implies fits(k, self@[k]) by {
            let i = index_of(self.rows@, k);
            lemma_row(self.rows@, i);
        }
    }

    /// The empty store.
    pub fn new() -> (s: Store)
        ensures
            s.wf(),
            s@ == Map::<Key, Val>::empty(),
    {
        let s = Store { rows: Vec::new() };
        assert(s@ =~= Map::<Key, Val>::empty());
        s
    }

    /// The number of rows.
    pub fn len(&self) -> (n: usize)
        ensures
            n == self.rows_view().len(),
    {
        self.rows.len()
    }

    /// The rows in the order in which their keys were first written.
    pub closed spec fn rows_view(&self) -> Seq<Row> {
        self.rows@
    }

    /// The value under `key`, if there is one.
    pub fn get(&self, key: Key) -> (r: Option<Val>)
        requires
            self.wf(),
        ensures
            r == (if self@.contains_key(key) {
                Some(self@[key])
            } else {
                None
            }),
            r matches Some(v) ==> fits(key, v),
    {
        let mut i: usize = 0;
        while i < self.rows.len()
            invariant
                i <= self.rows@.len(),
                self.wf(),
                forall|j: int| 0 <= j < i ==> (#[trigger] self.rows@[j]).key != key,
            decreases self.rows@.len() - i,
        {
            if self.rows[i].key == key {
                proof {
                    lemma_row(self.rows@, i as int);
                }
                return Some(self.rows[i].val);
            }
            i += 1;
        }
        None
    }

    /// Insert, or update on conflict: afterwards `key` holds `val`, and every
    /// other key holds what it held.
    pub fn put(&mut self, key: Key, val: Val)
        requires
            old(self).wf(),
            fits(key, val),
        ensures
            final(self).wf(),
            final(self)@ == old(self)@.insert(key, val),
    {
        let ghost before = self.rows@;
        let mut i: usize = 0;
        while i < self.rows.len()
            invariant
                i <= self.rows@.len(),
                self.rows@ == before,
                before == old(self).rows@,
                fits(key, val),
                rows_wf(before),
                forall|j: int| 0 <= j < i ==> (#[trigger] before[j]).key != key,
            decreases self.rows@.len() - i,
        {
            if self.rows[i].key == key {
                self.rows.set(i, Row { key, val });
                proof {
                    let after = self.rows@;
                    assert forall|a: int| 0 <= a < after.len() && a != i implies #[trigger] after[a]
                        == before[a] by {}
                    assert forall|a: int, b: int| 0 <= a < b < after.len() implies (
                    #[trigger] after[a]).key != (#[trigger] after[b]).key by {
                        assert(before[a].key != before[b].key);
                    }
                    assert forall|a: int| 0 <= a < after.len() implies fits(
                        (#[trigger] after[a]).key,
                        after[a].val,
                    ) by {
                        if a != i {
                            assert(fits(before[a].key, before[a].val));
                        }
                    }
                    assert(rows_wf(after));
                    assert forall|k: Key| #[trigger] table(after).contains_key(k)
                        == table(before).insert(key, val).contains_key(k) by {
                        if has_key(after, k) {
                            let j = index_of(after, k);
                            assert(before[j].key == k);
                        }
                        if has_key(before, k) {
                            let j = index_of(before, k);
                            assert(after[j].key == k);
                        }
                        if k == key {
                            assert(after[i as int].key == k);
                        }
                    }
                    assert forall|k: Key| #[trigger] table(after).contains_key(k)
                        implies table(after)[k] == table(before).insert(key, val)[k] by {
                        let j = index_of(after, k);
                        lemma_row(after, j);
                        lemma_row(before, j);
                    }
                    assert(table(after) =~= table(before).insert(key, val));
                }
                return ;
            }
            i += 1;
        }
        self.rows.push(Row { key, val });
        proof {
            let after = self.rows@;
            assert(rows_wf(after));
            assert forall|k: Key| #[trigger] table(after).contains_key(k)
                == table(before).insert(key, val).contains_key(k) by {
                if has_key(after, k) {
                    let j = index_of(after, k);
                    if j < before.len() {
                        assert(before[j].key == k);
                    }
                }
                if has_key(before, k) {
                    let j = index_of(before, k);
                    assert(after[j].key == k);
                }
                if k == key {
                    assert(after[before.len() as int].key == k);
                }
            }
            assert forall|k: Key| #[trigger] table(after).contains_key(k)
                implies table(after)[k] == table(before).insert(key, val)[k] by {
                let j = index_of(after, k);
                lemma_row(after, j);
                if j < before.len() {
                    lemma_row(before, j);
                }
            }
            assert(table(after) =~= table(before).insert(key, val));
        }
    }

    /// Whether some concern on `proposal` is unresolved.
    pub fn any_open_concern(&self, proposal: u64) -> (r: bool)
        requires
            self.wf(),
        ensures
            r == has_open_concern(self@, proposal),
    {
        let mut i: usize = 0;
        while i < self.rows.len()
            invariant
                i <= self.rows@.len(),
                self.wf(),
                forall|j: int|
                    0 <= j < i ==> !is_open_concern(
                        self@,
                        proposal,
                        (#[trigger] self.rows@[j]).key,
                    ),
            decreases self.rows@.len() - i,
        {
            let row = self.rows[i];
            proof {
                lemma_row(self.rows@, i as int);
            }
            let hit = match (row.key, row.val) {
                (Key::Concern(p, _, _), Val::Concern { open, .. }) => p == proposal && open,
                _ => false,
            };
            if hit {
                assert(is_open_concern(self@, proposal, row.key));
                return true;
            }
            i += 1;
        }
        proof {
            assert forall|k: Key| !is_open_concern(self@, proposal, k) by {
                if self@.contains_key(k) {
                    let j = index_of(self.rows@, k);
                    assert(self.rows@[j].key == k);
                }
            }
        }
        false
    }

    /// The rows, in the order in which their keys were first written.
    pub fn rows(&self) -> (r: Vec<Row>)
        requires
            self.wf(),
        ensures
            r@ == self.rows_view(),
            forall|i: int|
                0 <= i < r@.len() ==> self@.contains_key((#[trigger] r@[i]).key) && self@[r@[i].key]
                    == r@[i].val,
    {
        let copy = self.snapshot();
        proof {
            assert forall|i: int| 0 <= i < copy.rows@.len() implies self@.contains_key(
                (#[trigger] copy.rows@[i]).key,
            ) && self@[copy.rows@[i].key] == copy.rows@[i].val by {
                lemma_row(self.rows@, i);
            }
        }
        copy.rows
    }

    /// A copy of the store.
    pub fn snapshot(&self) -> (s: Store)
        requires
            self.wf(),
        ensures
            s.wf(),
            s@ == self@,
            s.rows_view() == self.rows_view(),
    {
        let mut rows: Vec<Row> = Vec::new();
        let mut i: usize = 0;
        while i < self.rows.len()
            invariant
                i <= self.rows@.len(),
                rows@ == self.rows@.take(i as int),
            decreases self.rows@.len() - i,
        {
            rows.push(self.rows[i]);
            assert(self.rows@.take(i as int).push(self.rows@[i as int]) =~= self.rows@.take(
                i as int + 1,
            ));
            i += 1;
        }
        assert(self.rows@.take(self.rows@.len() as int) =~= self.rows@);
        Store { rows }
    }
}

} // verus!
