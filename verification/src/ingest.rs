//! The ingestion pipeline: normalised tracker events become idempotent writes
//! to the store, and a repository's watermark moves only after a sweep that
//! fetched every page.
use crate::store::{Key, MarkerKind, Store, Val};
use vstd::prelude::*;

verus! {

/// What an event reports of its proposal.
#[derive(Clone, Copy, Debug, PartialEq, Eq, Structural)]
pub enum EventKind {
    /// The issue was opened, updated, closed or merged.
    Issue { repo: u64, closed: bool },
    /// A team's label was put on the proposal or taken off it.
    Label { team: u64, bound: bool },
    /// A marker comment.
    Marker { kind: MarkerKind },
    /// The actor's checkbox was toggled.
    SignOff { checked: bool },
    /// The actor raised (`open`) or resolved a concern.
    Concern { text: u64, open: bool },
}

/// One normalised event of the remote tracker.
#[derive(Clone, Copy, Debug, PartialEq, Eq, Structural)]
pub struct Event {
    pub proposal: u64,
    pub actor: u64,
    /// Seconds since the epoch.
    pub at: i64,
    pub kind: EventKind,
}

/// Why a sweep could not fetch all of its pages.
#[derive(Clone, Copy, Debug, PartialEq, Eq, Structural)]
pub enum FetchError {
    Unreachable,
    RateLimited,
    StoreBusy,
}

/// Why a sweep was abandoned.
#[derive(Clone, Copy, Debug, PartialEq, Eq, Structural)]
pub enum IngestError {
    /// A transient failure: nothing was written, the next cycle tries again.
    Transient(FetchError),
}

/// An event whose time lies before the epoch is malformed: it is skipped.
pub open spec fn malformed(e: Event) -> bool {
    e.at < 0
}

/// The key of the row that an event writes.
pub open spec fn event_key(e: Event) -> Key {
    match e.kind {
        EventKind::Issue { .. } => Key::Issue(e.proposal),
        EventKind::Label { team, .. } => Key::Binding(e.proposal, team),
        EventKind::Marker { .. } => Key::Marker(e.proposal),
        EventKind::SignOff { .. } => Key::SignOff(e.proposal, e.actor),
        EventKind::Concern { text, .. } => Key::Concern(e.proposal, e.actor, text),
    }
}

/// The row that an event writes: the last write wins.
pub open spec fn event_val(e: Event) -> Val {
    match e.kind {
        EventKind::Issue { repo, closed } => Val::Issue { repo, closed, at: e.at },
        EventKind::Label { bound, .. } => Val::Binding { bound },
        EventKind::Marker { kind } => Val::Marker { kind, by: e.actor, at: e.at },
        EventKind::SignOff { checked } => Val::SignOff { checked, at: e.at },
        EventKind::Concern { open, .. } => Val::Concern { open, at: e.at },
    }
}

/// The store after one event: its actor is known, and its row is written.
pub open spec fn apply_event(m: Map<Key, Val>, e: Event) -> Map<Key, Val> {
    if malformed(e) {
        m
    } else {
        m.insert(Key::Identity(e.actor), Val::Identity).insert(event_key(e), event_val(e))
    }
}

/// The store after a page, its events applied in order.
pub open spec fn apply_page(m: Map<Key, Val>, page: Seq<Event>) -> Map<Key, Val>
    decreases page.len(),
{
    if page.len() == 0 {
        m
    } else {
        apply_event(apply_page(m, page.drop_last()), page.last())
    }
}

/// The store after the pages of a sweep, applied in cursor order.
pub open spec fn apply_pages(m: Map<Key, Val>, pages: Seq<Vec<Event>>) -> Map<Key, Val>
    decreases pages.len(),
{
    if pages.len() == 0 {
        m
    } else {
        apply_page(apply_pages(m, pages.drop_last()), pages.last()@)
    }
}

/// The number of malformed events of a page.
pub open spec fn count_malformed(page: Seq<Event>) -> nat
    decreases page.len(),
{
    if page.len() == 0 {
        0
    } else {
        count_malformed(page.drop_last()) + if malformed(page.last()) {
            1nat
        } else {
            0nat
        }
    }
}

/// The number of malformed events of the pages of a sweep.
pub open spec fn count_skipped(pages: Seq<Vec<Event>>) -> nat
    decreases pages.len(),
{
    if pages.len() == 0 {
        0
    } else {
        count_skipped(pages.drop_last()) + count_malformed(pages.last()@)
    }
}

/// A count as the machine reports it: no more than it can hold.
pub open spec fn capped(n: nat) -> usize {
    if n <= usize::MAX {
        n as usize
    } else {
        usize::MAX
    }
}

/// The watermark of a repository, if a sweep of it ever succeeded.
pub open spec fn watermark(m: Map<Key, Val>, repo: u64) -> Option<i64> {
    if m.contains_key(Key::Watermark(repo)) {
        match m[Key::Watermark(repo)] {
            Val::Watermark { at } => Some(at),
            _ => None,
        }
    } else {
        None
    }
}

/// The store after a successful sweep that began at `start`: the watermark is
/// `start`, unless it already stood there or later.
pub open spec fn advance(m: Map<Key, Val>, repo: u64, start: i64) -> Map<Key, Val> {
    match watermark(m, repo) {
        Some(w) if w >= start => m,
        _ => m.insert(Key::Watermark(repo), Val::Watermark { at: start }),
    }
}

/// `a` is no later than `b`, where `None` is before every time.
pub open spec fn not_after(a: Option<i64>, b: Option<i64>) -> bool {
    match (a, b) {
        (None, _) => true,
        (Some(_), None) => false,
        (Some(x), Some(y)) => x <= y,
    }
}

/// What one sweep was handed: when it began, what was fetched, and the error
/// that ended the fetching, if one did.
pub struct SweepInput {
    pub start: i64,
    pub pages: Vec<Vec<Event>>,
    pub failure: Option<FetchError>,
}

/// The store after one sweep of `repo`: a failed sweep writes nothing.
pub open spec fn sweep_result(m: Map<Key, Val>, repo: u64, s: SweepInput) -> Map<Key, Val> {
    if s.failure is Some {
        m
    } else {
        advance(apply_pages(m, s.pages@), repo, s.start)
    }
}

/// The store after a sequence of sweeps of `repo`.
pub open spec fn sweeps_result(m: Map<Key, Val>, repo: u64, sweeps: Seq<SweepInput>) -> Map<
    Key,
    Val,
>
    decreases sweeps.len(),
{
    if sweeps.len() == 0 {
        m
    } else {
        sweep_result(sweeps_result(m, repo, sweeps.drop_last()), repo, sweeps.last())
    }
}

/// Applies one event.
pub fn ingest_event(store: &mut Store, e: Event) -> (skipped: bool)
    requires
        old(store).wf(),
    ensures
        final(store).wf(),
        final(store)@ == apply_event(old(store)@, e),
        skipped == malformed(e),
{
    if e.at < 0 {
        return true;
    }
    store.put(Key::Identity(e.actor), Val::Identity);
    match e.kind {
        EventKind::Issue { repo, closed } => {
            store.put(Key::Issue(e.proposal), Val::Issue { repo, closed, at: e.at });
        },
        EventKind::Label { team, bound } => {
            store.put(Key::Binding(e.proposal, team), Val::Binding { bound });
        },
        EventKind::Marker { kind } => {
            store.put(Key::Marker(e.proposal), Val::Marker { kind, by: e.actor, at: e.at });
        },
        EventKind::SignOff { checked } => {
            store.put(Key::SignOff(e.proposal, e.actor), Val::SignOff { checked, at: e.at });
        },
        EventKind::Concern { text, open } => {
            store.put(Key::Concern(e.proposal, e.actor, text), Val::Concern { open, at: e.at });
        },
    }
    false
}

/// Applies the events of a page in order, and returns how many were skipped
/// as malformed.
pub fn ingest_page(store: &mut Store, page: &Vec<Event>) -> (skipped: usize)
    requires
        old(store).wf(),
    ensures
        final(store).wf(),
        final(store)@ == apply_page(old(store)@, page@),
        skipped == count_malformed(page@),
{
    let mut skipped: usize = 0;
    let mut i: usize = 0;
    while i < page.len()
        invariant
            i <= page@.len(),
            store.wf(),
            store@ == apply_page(old(store)@, page@.take(i as int)),
            skipped == count_malformed(page@.take(i as int)),
            skipped <= i,
        decreases page@.len() - i,
    {
        assert(page@.take(i as int + 1).drop_last() =~= page@.take(i as int));
        if ingest_event(store, page[i]) {
            skipped += 1;
        }
        i += 1;
    }
    assert(page@.take(page@.len() as int) =~= page@);
    skipped
}

/// The watermark of `repo`.
pub fn stored_watermark(store: &Store, repo: u64) -> (w: Option<i64>)
    requires
        store.wf(),
    ensures
        w == watermark(store@, repo),
{
    match store.get(Key::Watermark(repo)) {
        Some(Val::Watermark { at }) => Some(at),
        _ => None,
    }
}

/// One sweep of a repository. `pages` is what was fetched, in cursor order;
/// `failure` is the error that ended the fetching, if one did. After a
/// failure nothing is written. Otherwise every page is applied and the
/// watermark moves to `start`, the time at which the sweep began, unless it
/// already stands later. Returns the number of events skipped as malformed.
pub fn ingest(store: &mut Store, repo: u64, sweep: &SweepInput) -> (r: Result<usize, IngestError>)
    requires
        old(store).wf(),
    ensures
        final(store).wf(),
        final(store)@ == sweep_result(old(store)@, repo, *sweep),
        match sweep.failure {
            Some(why) => r == Err::<usize, IngestError>(IngestError::Transient(why)),
            None => r == Ok::<usize, IngestError>(capped(count_skipped(sweep.pages@))),
        },
        not_after(watermark(old(store)@, repo), watermark(final(store)@, repo)),
        sweep.failure is Some ==> watermark(final(store)@, repo) == watermark(old(store)@, repo),
{
    if let Some(why) = sweep.failure {
        return Err(IngestError::Transient(why));
    }
    let mut skipped: usize = 0;
    let mut i: usize = 0;
    while i < sweep.pages.len()
        invariant
            i <= sweep.pages@.len(),
            store.wf(),
            store@ == apply_pages(old(store)@, sweep.pages@.take(i as int)),
            skipped == capped(count_skipped(sweep.pages@.take(i as int))),
        decreases sweep.pages@.len() - i,
    {
        assert(sweep.pages@.take(i as int + 1).drop_last() =~= sweep.pages@.take(i as int));
        let n = ingest_page(store, &sweep.pages[i]);
        skipped = skipped.saturating_add(n);
        i += 1;
    }
    assert(sweep.pages@.take(sweep.pages@.len() as int) =~= sweep.pages@);
    proof {
        lemma_pages_keep_watermark(old(store)@, sweep.pages@, repo);
    }
    let advance = match stored_watermark(store, repo) {
        Some(w) => w < sweep.start,
        None => true,
    };
    if advance {
        store.put(Key::Watermark(repo), Val::Watermark { at: sweep.start });
    }
    Ok(skipped)
}

/// No event writes a watermark.
pub proof fn lemma_page_keeps_watermark(m: Map<Key, Val>, page: Seq<Event>, repo: u64)
    ensures
        apply_page(m, page).contains_key(Key::Watermark(repo)) == m.contains_key(
            Key::Watermark(repo),
        ),
        apply_page(m, page)[Key::Watermark(repo)] == m[Key::Watermark(repo)],
        watermark(apply_page(m, page), repo) == watermark(m, repo),
    decreases page.len(),
{
    if page.len() > 0 {
        lemma_page_keeps_watermark(m, page.drop_last(), repo);
    }
}

/// No page writes a watermark.
pub proof fn lemma_pages_keep_watermark(m: Map<Key, Val>, pages: Seq<Vec<Event>>, repo: u64)
    ensures
        watermark(apply_pages(m, pages), repo) == watermark(m, repo),
    decreases pages.len(),
{
    if pages.len() > 0 {
        lemma_pages_keep_watermark(m, pages.drop_last(), repo);
        lemma_page_keeps_watermark(apply_pages(m, pages.drop_last()), pages.last()@, repo);
    }
}

/// A page acts on a store as an overlay: the rows it writes are those that it
/// writes to the empty store, and every other row stays.
pub proof fn lemma_page_is_overlay(m: Map<Key, Val>, page: Seq<Event>)
    ensures
        apply_page(m, page) == m.union_prefer_right(apply_page(Map::empty(), page)),
    decreases page.len(),
{
    let empty = Map::<Key, Val>::empty();
    if page.len() == 0 {
        assert(m =~= m.union_prefer_right(empty));
    } else {
        lemma_page_is_overlay(m, page.drop_last());
        let e = page.last();
        let d = apply_page(empty, page.drop_last());
        assert(apply_event(m.union_prefer_right(d), e) =~= m.union_prefer_right(
            apply_event(d, e),
        ));
    }
}

/// Ingesting a page a second time changes nothing: the store after two runs
/// over the same page is the store after one.
pub proof fn law_page_idempotent(m: Map<Key, Val>, page: Seq<Event>)
    ensures
        apply_page(apply_page(m, page), page) == apply_page(m, page),
{
    let d = apply_page(Map::<Key, Val>::empty(), page);
    lemma_page_is_overlay(m, page);
    lemma_page_is_overlay(apply_page(m, page), page);
    assert(m.union_prefer_right(d).union_prefer_right(d) =~= m.union_prefer_right(d));
}

/// The pages of a sweep act on a store as an overlay.
pub proof fn lemma_pages_are_overlay(m: Map<Key, Val>, pages: Seq<Vec<Event>>)
    ensures
        apply_pages(m, pages) == m.union_prefer_right(apply_pages(Map::empty(), pages)),
    decreases pages.len(),
{
    let empty = Map::<Key, Val>::empty();
    if pages.len() == 0 {
        assert(m =~= m.union_prefer_right(empty));
    } else {
        let rest = pages.drop_last();
        let last = pages.last()@;
        lemma_pages_are_overlay(m, rest);
        let d = apply_pages(empty, rest);
        let dl = apply_page(empty, last);
        lemma_page_is_overlay(m.union_prefer_right(d), last);
        lemma_page_is_overlay(d, last);
        assert(m.union_prefer_right(d).union_prefer_right(dl) =~= m.union_prefer_right(
            d.union_prefer_right(dl),
        ));
    }
}

/// Running a sweep a second time over the same pages, with the same start,
/// changes nothing.
pub proof fn law_sweep_idempotent(m: Map<Key, Val>, repo: u64, s: SweepInput)
    ensures
        sweep_result(sweep_result(m, repo, s), repo, s) == sweep_result(m, repo, s),
{
    if s.failure is None {
        let d = apply_pages(Map::<Key, Val>::empty(), s.pages@);
        let once = apply_pages(m, s.pages@);
        let marked = advance(once, repo, s.start);
        let again = apply_pages(marked, s.pages@);
        lemma_pages_are_overlay(m, s.pages@);
        lemma_pages_are_overlay(marked, s.pages@);
        lemma_pages_keep_watermark(Map::<Key, Val>::empty(), s.pages@, repo);
        lemma_pages_keep_watermark(marked, s.pages@, repo);
        lemma_pages_write_no_watermark(s.pages@, repo);
        assert(again =~= marked);
        assert(advance(marked, repo, s.start) =~= marked);
    }
}

/// The rows that pages write to the empty store hold no watermark.
pub proof fn lemma_pages_write_no_watermark(pages: Seq<Vec<Event>>, repo: u64)
    ensures
        !apply_pages(Map::empty(), pages).contains_key(Key::Watermark(repo)),
    decreases pages.len(),
{
    let empty = Map::<Key, Val>::empty();
    if pages.len() > 0 {
        lemma_pages_write_no_watermark(pages.drop_last(), repo);
        lemma_page_keeps_watermark(apply_pages(empty, pages.drop_last()), pages.last()@, repo);
    }
}

/// Over any sequence of sweeps, failed or not, the watermark of a repository
/// never moves back, and a failed sweep leaves it where it stood.
pub proof fn law_watermark_monotone(m: Map<Key, Val>, repo: u64, sweeps: Seq<SweepInput>)
    ensures
        not_after(watermark(m, repo), watermark(sweeps_result(m, repo, sweeps), repo)),
        sweeps.len() > 0 && sweeps.last().failure is Some ==> watermark(
            sweeps_result(m, repo, sweeps),
            repo,
        ) == watermark(sweeps_result(m, repo, sweeps.drop_last()), repo),
    decreases sweeps.len(),
{
    if sweeps.len() > 0 {
        law_watermark_monotone(m, repo, sweeps.drop_last());
        let before = sweeps_result(m, repo, sweeps.drop_last());
        lemma_sweep_watermark(before, repo, sweeps.last());
    }
}

/// One sweep never moves the watermark back; a successful one leaves it at
/// the later of where it stood and the sweep's start.
pub proof fn lemma_sweep_watermark(m: Map<Key, Val>, repo: u64, s: SweepInput)
    ensures
        not_after(watermark(m, repo), watermark(sweep_result(m, repo, s), repo)),
        s.failure is Some ==> watermark(sweep_result(m, repo, s), repo) == watermark(m, repo),
        s.failure is None ==> watermark(sweep_result(m, repo, s), repo) == Some(
            match watermark(m, repo) {
                Some(w) if w >= s.start => w,
                _ => s.start,
            },
        ),
{
    lemma_pages_keep_watermark(m, s.pages@, repo);
}

/// A sweep of one repository leaves the watermark of every other as it was.
pub proof fn lemma_sweep_keeps_other_watermarks(
    m: Map<Key, Val>,
    repo: u64,
    s: SweepInput,
    other: u64,
)
    requires
        other != repo,
    ensures
        watermark(sweep_result(m, repo, s), other) == watermark(m, other),
{
    lemma_pages_keep_watermark(m, s.pages@, other);
}

} // verus!
