//! One cycle of the scheduler: every repository is swept by itself, so that
//! one that cannot be reached holds up no other, and the proposals that a
//! successful sweep touched are evaluated.
use crate::consensus::{evaluate, facts, holds, next, record, Decision, Policy, ResolvedTeam};
use crate::ingest::{
    capped, count_skipped, ingest, lemma_sweep_keeps_other_watermarks, lemma_sweep_watermark, malformed, not_after,
    sweep_result, watermark, Event, IngestError, SweepInput,
};
use crate::store::{Key, Store, Val};
use vstd::prelude::*;

verus! {

/// One repository's part of a cycle: what its sweep fetched, and what the
/// repository allows.
pub struct RepoSweep {
    pub repo: u64,
    pub policy: Policy,
    pub input: SweepInput,
}

/// What a cycle did: the outcome of each repository's sweep, in the order of
/// the sweeps, and every decision taken, each with its proposal.
pub struct CycleReport {
    pub outcomes: Vec<Result<usize, IngestError>>,
    pub decisions: Vec<(u64, Decision)>,
}

/// The seconds to sleep between two cycles, for an interval in minutes.
pub fn sleep_seconds(interval_mins: u64) -> (s: u64)
    ensures
        s == if interval_mins * 60 <= u64::MAX {
            interval_mins * 60
        } else {
            u64::MAX as int
        },
{
    if interval_mins <= u64::MAX / 60 {
        interval_mins * 60
    } else {
        u64::MAX
    }
}

/// The store after the sweeps of a cycle, each applied by itself, in order.
pub open spec fn cycle_result(m: Map<Key, Val>, sweeps: Seq<RepoSweep>) -> Map<Key, Val>
    decreases sweeps.len(),
{
    if sweeps.len() == 0 {
        m
    } else {
        sweep_result(cycle_result(m, sweeps.drop_last()), sweeps.last().repo, sweeps.last().input)
    }
}

/// The outcome that a sweep reports.
pub open spec fn reports(input: SweepInput, outcome: Result<usize, IngestError>) -> bool {
    match input.failure {
        Some(why) => outcome == Err::<usize, IngestError>(IngestError::Transient(why)),
        None => outcome == Ok::<usize, IngestError>(capped(count_skipped(input.pages@))),
    }
}

/// Sweeps every repository of the cycle, one after the other. A sweep that
/// failed writes nothing and is reported; the sweeps after it go on.
pub fn scrape(store: &mut Store, sweeps: &Vec<RepoSweep>) -> (outcomes: Vec<
    Result<usize, IngestError>,
>)
    requires
        old(store).wf(),
    ensures
        final(store).wf(),
        final(store)@ == cycle_result(old(store)@, sweeps@),
        outcomes@.len() == sweeps@.len(),
        forall|i: int| 0 <= i < sweeps@.len() ==> reports(sweeps@[i].input, #[trigger] outcomes@[i]),
{
    let mut outcomes: Vec<Result<usize, IngestError>> = Vec::new();
    let mut i: usize = 0;
    while i < sweeps.len()
        invariant
            i <= sweeps@.len(),
            store.wf(),
            store@ == cycle_result(old(store)@, sweeps@.take(i as int)),
            outcomes@.len() == i,
            forall|j: int| 0 <= j < i ==> reports(sweeps@[j].input, #[trigger] outcomes@[j]),
        decreases sweeps@.len() - i,
    {
        assert(sweeps@.take(i as int + 1).drop_last() =~= sweeps@.take(i as int));
        let r = ingest(store, sweeps[i].repo, &sweeps[i].input);
        outcomes.push(r);
        i += 1;
    }
    assert(sweeps@.take(sweeps@.len() as int) =~= sweeps@);
    outcomes
}

/// A well-formed event on `p` stands in the pages before place `k` of page `j`.
pub open spec fn touches_before(pages: Seq<Vec<Event>>, j: int, k: int, p: u64) -> bool {
    exists|a: int, b: int|
        0 <= a < pages.len() && 0 <= b < pages[a]@.len() && (a < j || (a == j && b < k))
            && !malformed(#[trigger] pages[a]@[b]) && pages[a]@[b].proposal == p
}

/// Some well-formed event of the pages is on `p`.
pub open spec fn touches(pages: Seq<Vec<Event>>, p: u64) -> bool {
    touches_before(pages, pages.len() as int, 0, p)
}

/// The proposals noted so far, and behind them those that the page's
/// well-formed events add, each where it is first met.
pub open spec fn noted(so_far: Seq<u64>, page: Seq<Event>) -> Seq<u64>
    decreases page.len(),
{
    if page.len() == 0 {
        so_far
    } else {
        let before = noted(so_far, page.drop_last());
        let e = page.last();
        if malformed(e) || before.contains(e.proposal) {
            before
        } else {
            before.push(e.proposal)
        }
    }
}

/// The proposals that the pages touch, each once, in the order in which
/// they are first met.
pub open spec fn noted_all(pages: Seq<Vec<Event>>) -> Seq<u64>
    decreases pages.len(),
{
    if pages.len() == 0 {
        Seq::empty()
    } else {
        noted(noted_all(pages.drop_last()), pages.last()@)
    }
}

/// The proposals that the pages of a sweep touch, each once, in the order in
/// which they are first met.
pub fn touched_proposals(pages: &Vec<Vec<Event>>) -> (out: Vec<u64>)
    ensures
        out@ == noted_all(pages@),
        out@.no_duplicates(),
        forall|p: u64| out@.contains(p) <==> touches(pages@, p),
{
    let mut out: Vec<u64> = Vec::new();
    let mut j: usize = 0;
    while j < pages.len()
        invariant
            j <= pages@.len(),
            out@ == noted_all(pages@.take(j as int)),
            out@.no_duplicates(),
            forall|p: u64| out@.contains(p) <==> touches_before(pages@, j as int, 0, p),
        decreases pages@.len() - j,
    {
        let page = &pages[j];
        let mut k: usize = 0;
        assert(pages@.take(j as int + 1).drop_last() =~= pages@.take(j as int));
        assert(page@.take(0) =~= Seq::<Event>::empty());
        while k < page.len()
            invariant
                j < pages@.len(),
                page == &pages@[j as int],
                k <= page@.len(),
                out@ == noted(noted_all(pages@.take(j as int)), page@.take(k as int)),
                out@.no_duplicates(),
                forall|p: u64| out@.contains(p) <==> touches_before(pages@, j as int, k as int, p),
            decreases page@.len() - k,
        {
            let e = page[k];
            let ghost before = out@;
            assert(page@.take(k as int + 1).drop_last() =~= page@.take(k as int));
            if e.at >= 0 && !holds(&out, e.proposal) {
                out.push(e.proposal);
            }
            proof {
                assert forall|p: u64| out@.contains(p) <==> touches_before(
                    pages@,
                    j as int,
                    k + 1,
                    p,
                ) by {
                    if out@.contains(p) {
                        let x = choose|x: int| 0 <= x < out@.len() && out@[x] == p;
                        if x < before.len() {
                            assert(before[x] == p);
                            assert(before.contains(p));
                            assert(touches_before(pages@, j as int, k as int, p));
                            let (a, b) = choose|a: int, b: int|
                                0 <= a < pages@.len() && 0 <= b < pages@[a]@.len() && (a < j || (a
                                    == j && b < k)) && !malformed(#[trigger] pages@[a]@[b])
                                    && pages@[a]@[b].proposal == p;
                            assert(!malformed(pages@[a]@[b]) && (a < j || (a == j && b < k + 1)));
                        } else {
                            assert(p == e.proposal);
                            assert(!malformed(pages@[j as int]@[k as int]));
                        }
                    }
                    if touches_before(pages@, j as int, k + 1, p) {
                        let (a, b) = choose|a: int, b: int|
                            0 <= a < pages@.len() && 0 <= b < pages@[a]@.len() && (a < j || (a == j
                                && b < k + 1)) && !malformed(#[trigger] pages@[a]@[b])
                                && pages@[a]@[b].proposal == p;
                        if a == j && b == k {
                            if before.contains(p) {
                                let x = choose|x: int| 0 <= x < before.len() && before[x] == p;
                                assert(out@[x] == p);
                            } else {
                                assert(out@[before.len() as int] == p);
                            }
                        } else {
                            assert(touches_before(pages@, j as int, k as int, p));
                            assert(before.contains(p));
                            let x = choose|x: int| 0 <= x < before.len() && before[x] == p;
                            assert(out@[x] == p);
                        }
                    }
                }
            }
            k += 1;
        }
        assert(page@.take(k as int) =~= page@);
        proof {
            assert forall|p: u64| out@.contains(p) <==> touches_before(pages@, j + 1, 0, p) by {
                if touches_before(pages@, j as int, k as int, p) {
                    let (a, b) = choose|a: int, b: int|
                        0 <= a < pages@.len() && 0 <= b < pages@[a]@.len() && (a < j || (a == j
                            && b < k)) && !malformed(#[trigger] pages@[a]@[b])
                            && pages@[a]@[b].proposal == p;
                    assert(!malformed(pages@[a]@[b]) && a < j + 1);
                }
                if touches_before(pages@, j + 1, 0, p) {
                    let (a, b) = choose|a: int, b: int|
                        0 <= a < pages@.len() && 0 <= b < pages@[a]@.len() && (a < j + 1 || (a == j
                            + 1 && b < 0)) && !malformed(#[trigger] pages@[a]@[b])
                            && pages@[a]@[b].proposal == p;
                    assert(!malformed(pages@[a]@[b]) && (a < j || (a == j && b < k)));
                }
            }
        }
        j += 1;
    }
    assert(pages@.take(j as int) =~= pages@);
    out
}

/// The store after the proposals were evaluated, one after the other.
pub open spec fn evaluated(
    m: Map<Key, Val>,
    roster: Seq<ResolvedTeam>,
    policy: Policy,
    now: i64,
    proposals: Seq<u64>,
) -> Map<Key, Val>
    decreases proposals.len(),
{
    if proposals.len() == 0 {
        m
    } else {
        let before = evaluated(m, roster, policy, now, proposals.drop_last());
        let p = proposals.last();
        before.insert(Key::Progress(p), record(next(facts(before, roster, p), policy, now)))
    }
}

/// Evaluating proposals writes their progress, and nothing else.
pub proof fn lemma_evaluated_keeps(
    m: Map<Key, Val>,
    roster: Seq<ResolvedTeam>,
    policy: Policy,
    now: i64,
    proposals: Seq<u64>,
    k: Key,
)
    requires
        !(k is Progress),
    ensures
        evaluated(m, roster, policy, now, proposals).contains_key(k) == m.contains_key(k),
        evaluated(m, roster, policy, now, proposals)[k] == m[k],
    decreases proposals.len(),
{
    if proposals.len() > 0 {
        lemma_evaluated_keeps(m, roster, policy, now, proposals.drop_last(), k);
    }
}

/// The decisions that evaluating the proposals takes, each with its proposal.
pub open spec fn decisions_of(
    m: Map<Key, Val>,
    roster: Seq<ResolvedTeam>,
    policy: Policy,
    now: i64,
    proposals: Seq<u64>,
) -> Seq<(u64, Decision)>
    decreases proposals.len(),
{
    if proposals.len() == 0 {
        Seq::empty()
    } else {
        let rest = proposals.drop_last();
        let p = proposals.last();
        decisions_of(m, roster, policy, now, rest).push(
            (p, next(facts(evaluated(m, roster, policy, now, rest), roster, p), policy, now)),
        )
    }
}

/// Evaluates each of the proposals once, in order, and appends each decision
/// to `decisions`.
pub fn evaluate_all(
    store: &mut Store,
    roster: &Vec<ResolvedTeam>,
    policy: Policy,
    now: i64,
    proposals: &Vec<u64>,
    decisions: &mut Vec<(u64, Decision)>,
)
    requires
        old(store).wf(),
    ensures
        final(store).wf(),
        final(store)@ == evaluated(old(store)@, roster@, policy, now, proposals@),
        final(decisions)@ == old(decisions)@ + decisions_of(
            old(store)@,
            roster@,
            policy,
            now,
            proposals@,
        ),
{
    let ghost base = decisions@;
    assert(decisions@ =~= base + Seq::<(u64, Decision)>::empty());
    let mut i: usize = 0;
    while i < proposals.len()
        invariant
            i <= proposals@.len(),
            store.wf(),
            store@ == evaluated(old(store)@, roster@, policy, now, proposals@.take(i as int)),
            base == old(decisions)@,
            decisions@ == base + decisions_of(
                old(store)@,
                roster@,
                policy,
                now,
                proposals@.take(i as int),
            ),
        decreases proposals@.len() - i,
    {
        assert(proposals@.take(i as int + 1).drop_last() =~= proposals@.take(i as int));
        let ghost seen = decisions@;
        let d = evaluate(store, roster, policy, proposals[i], now);
        decisions.push((proposals[i], d));
        assert(decisions@ =~= base + decisions_of(
            old(store)@,
            roster@,
            policy,
            now,
            proposals@.take(i as int + 1),
        ));
        i += 1;
    }
    assert(proposals@.take(proposals@.len() as int) =~= proposals@);
}

/// Two stores hold the same rows, but for the progress of proposals.
pub open spec fn same_but_progress(a: Map<Key, Val>, b: Map<Key, Val>) -> bool {
    forall|k: Key|
        !(k is Progress) ==> (#[trigger] a.contains_key(k)) == b.contains_key(k) && a[k] == b[k]
}

/// The store after the evaluations of a cycle: for each sweep that fetched
/// every page, in order, the proposals that it touched are evaluated under
/// its repository's policy.
pub open spec fn cycle_evaluated(
    m: Map<Key, Val>,
    roster: Seq<ResolvedTeam>,
    now: i64,
    sweeps: Seq<RepoSweep>,
) -> Map<Key, Val>
    decreases sweeps.len(),
{
    if sweeps.len() == 0 {
        m
    } else {
        let before = cycle_evaluated(m, roster, now, sweeps.drop_last());
        let s = sweeps.last();
        if s.input.failure is Some {
            before
        } else {
            evaluated(before, roster, s.policy, now, noted_all(s.input.pages@))
        }
    }
}

/// The decisions of a cycle, in the order in which they are taken.
pub open spec fn cycle_decisions(
    m: Map<Key, Val>,
    roster: Seq<ResolvedTeam>,
    now: i64,
    sweeps: Seq<RepoSweep>,
) -> Seq<(u64, Decision)>
    decreases sweeps.len(),
{
    if sweeps.len() == 0 {
        Seq::empty()
    } else {
        let before = cycle_evaluated(m, roster, now, sweeps.drop_last());
        let s = sweeps.last();
        cycle_decisions(m, roster, now, sweeps.drop_last()) + if s.input.failure is Some {
            Seq::empty()
        } else {
            decisions_of(before, roster, s.policy, now, noted_all(s.input.pages@))
        }
    }
}

/// One cycle: every repository is swept, then the proposals that each
/// successful sweep touched are evaluated under that repository's policy.
/// The outcomes report each sweep. Evaluation writes progress rows only, so
/// every other row, and with it every watermark, is as the sweeps left it.
pub fn run_cycle(
    store: &mut Store,
    roster: &Vec<ResolvedTeam>,
    sweeps: &Vec<RepoSweep>,
    now: i64,
) -> (report: CycleReport)
    requires
        old(store).wf(),
    ensures
        final(store).wf(),
        report.outcomes@.len() == sweeps@.len(),
        forall|i: int|
            0 <= i < sweeps@.len() ==> reports(sweeps@[i].input, #[trigger] report.outcomes@[i]),
        final(store)@ == cycle_evaluated(
            cycle_result(old(store)@, sweeps@),
            roster@,
            now,
            sweeps@,
        ),
        report.decisions@ == cycle_decisions(
            cycle_result(old(store)@, sweeps@),
            roster@,
            now,
            sweeps@,
        ),
        same_but_progress(final(store)@, cycle_result(old(store)@, sweeps@)),
        forall|repo: u64|
            watermark(final(store)@, repo) == watermark(
                cycle_result(old(store)@, sweeps@),
                repo,
            ),
{
    let outcomes = scrape(store, sweeps);
    let ghost swept = store@;
    let mut decisions: Vec<(u64, Decision)> = Vec::new();
    let mut i: usize = 0;
    while i < sweeps.len()
        invariant
            i <= sweeps@.len(),
            store.wf(),
            same_but_progress(store@, swept),
            store@ == cycle_evaluated(swept, roster@, now, sweeps@.take(i as int)),
            decisions@ == cycle_decisions(swept, roster@, now, sweeps@.take(i as int)),
        decreases sweeps@.len() - i,
    {
        assert(sweeps@.take(i as int + 1).drop_last() =~= sweeps@.take(i as int));
        let ghost taken = decisions@;
        if sweeps[i].input.failure.is_none() {
            let proposals = touched_proposals(&sweeps[i].input.pages);
            let ghost before = store@;
            evaluate_all(store, roster, sweeps[i].policy, now, &proposals, &mut decisions);
            proof {
                assert forall|k: Key| !(k is Progress) implies (#[trigger] store@.contains_key(k))
                    == swept.contains_key(k) && store@[k] == swept[k] by {
                    lemma_evaluated_keeps(
                        before,
                        roster@,
                        sweeps@[i as int].policy,
                        now,
                        proposals@,
                        k,
                    );
                    assert(before.contains_key(k) == swept.contains_key(k));
                }
            }
        } else {
            assert(decisions@ =~= taken + Seq::<(u64, Decision)>::empty());
        }
        i += 1;
    }
    assert(sweeps@.take(sweeps@.len() as int) =~= sweeps@);
    proof {
        assert forall|repo: u64| watermark(store@, repo) == watermark(swept, repo) by {
            assert(store@.contains_key(Key::Watermark(repo)) == swept.contains_key(
                Key::Watermark(repo),
            ));
        }
    }
    CycleReport { outcomes, decisions }
}

/// The sweeps of a cycle stand each for itself: a repository whose sweep
/// fetched every page has its watermark at the sweep's start or later after
/// the cycle, whichever other sweeps failed.
pub proof fn law_repository_isolation(m: Map<Key, Val>, sweeps: Seq<RepoSweep>, i: int)
    requires
        0 <= i < sweeps.len(),
        sweeps[i].input.failure is None,
    ensures
        not_after(
            Some(sweeps[i].input.start),
            watermark(cycle_result(m, sweeps), sweeps[i].repo),
        ),
    decreases sweeps.len(),
{
    let rest = sweeps.drop_last();
    let last = sweeps.last();
    let before = cycle_result(m, rest);
    let repo = sweeps[i].repo;
    if i == sweeps.len() - 1 {
        lemma_sweep_watermark(before, repo, last.input);
    } else {
        assert(rest[i] == sweeps[i]);
        law_repository_isolation(m, rest, i);
        if last.repo == repo {
            lemma_sweep_watermark(before, repo, last.input);
        } else {
            lemma_sweep_keeps_other_watermarks(before, last.repo, last.input, repo);
        }
    }
}

/// Some well-formed event of the page is on `p`.
pub open spec fn page_touches(page: Seq<Event>, p: u64) -> bool {
    exists|b: int| 0 <= b < page.len() && !malformed(#[trigger] page[b]) && page[b].proposal == p
}

/// After a page the noted proposals are those noted before and those that
/// the page touches.
pub proof fn lemma_noted(so_far: Seq<u64>, page: Seq<Event>, p: u64)
    ensures
        noted(so_far, page).contains(p) <==> so_far.contains(p) || page_touches(page, p),
    decreases page.len(),
{
    if page.len() > 0 {
        let rest = page.drop_last();
        let e = page.last();
        let before = noted(so_far, rest);
        let after = noted(so_far, page);
        lemma_noted(so_far, rest, p);
        if after.contains(p) && !so_far.contains(p) {
            if before.contains(p) {
                let b = choose|b: int|
                    0 <= b < rest.len() && !malformed(#[trigger] rest[b]) && rest[b].proposal == p;
                assert(page[b] == rest[b]);
            } else {
                let x = choose|x: int| 0 <= x < after.len() && after[x] == p;
                if x < before.len() {
                    assert(before[x] == p);
                }
                assert(!malformed(page[page.len() - 1]));
            }
        }
        if so_far.contains(p) || page_touches(page, p) {
            if !before.contains(p) {
                let b = choose|b: int|
                    0 <= b < page.len() && !malformed(#[trigger] page[b]) && page[b].proposal == p;
                if b < rest.len() {
                    assert(rest[b] == page[b]);
                }
                assert(after[before.len() as int] == p);
            } else {
                let x = choose|x: int| 0 <= x < before.len() && before[x] == p;
                assert(after[x] == p);
            }
        }
    }
}

/// The noted proposals are the touched ones.
pub proof fn lemma_noted_all(pages: Seq<Vec<Event>>, p: u64)
    ensures
        noted_all(pages).contains(p) <==> touches(pages, p),
    decreases pages.len(),
{
    if pages.len() > 0 {
        let rest = pages.drop_last();
        let last = pages.last()@;
        lemma_noted_all(rest, p);
        lemma_noted(noted_all(rest), last, p);
        if touches(rest, p) {
            let (a, b) = choose|a: int, b: int|
                0 <= a < rest.len() && 0 <= b < rest[a]@.len() && (a < rest.len() || (a
                    == rest.len() && b < 0)) && !malformed(#[trigger] rest[a]@[b])
                    && rest[a]@[b].proposal == p;
            assert(rest[a] == pages[a]);
            assert(!malformed(pages[a]@[b]) && a < pages.len());
        }
        if page_touches(last, p) {
            let b = choose|b: int|
                0 <= b < last.len() && !malformed(#[trigger] last[b]) && last[b].proposal == p;
            assert(!malformed(pages[pages.len() - 1]@[b]));
        }
        if touches(pages, p) {
            let (a, b) = choose|a: int, b: int|
                0 <= a < pages.len() && 0 <= b < pages[a]@.len() && (a < pages.len() || (a
                    == pages.len() && b < 0)) && !malformed(#[trigger] pages[a]@[b])
                    && pages[a]@[b].proposal == p;
            if a < rest.len() {
                assert(rest[a] == pages[a]);
                assert(!malformed(rest[a]@[b]) && a < rest.len());
            } else {
                assert(!malformed(last[b]));
            }
        }
    } else {
        assert(!noted_all(pages).contains(p));
    }
}

/// Each decision is on the proposal at its place.
pub proof fn lemma_decisions_of(
    m: Map<Key, Val>,
    roster: Seq<ResolvedTeam>,
    policy: Policy,
    now: i64,
    proposals: Seq<u64>,
)
    ensures
        decisions_of(m, roster, policy, now, proposals).len() == proposals.len(),
        forall|j: int|
            0 <= j < proposals.len() ==> (#[trigger] decisions_of(
                m,
                roster,
                policy,
                now,
                proposals,
            )[j]).0 == proposals[j],
    decreases proposals.len(),
{
    if proposals.len() > 0 {
        lemma_decisions_of(m, roster, policy, now, proposals.drop_last());
    }
}

/// One of the decisions is on `p`.
pub open spec fn decided(decisions: Seq<(u64, Decision)>, p: u64) -> bool {
    exists|n: int| 0 <= n < decisions.len() && (#[trigger] decisions[n]).0 == p
}

/// Whichever other sweeps failed, every proposal that a sweep touched which
/// fetched every page is evaluated in the cycle.
pub proof fn law_touched_are_evaluated(
    m: Map<Key, Val>,
    roster: Seq<ResolvedTeam>,
    now: i64,
    sweeps: Seq<RepoSweep>,
    i: int,
    p: u64,
)
    requires
        0 <= i < sweeps.len(),
        sweeps[i].input.failure is None,
        touches(sweeps[i].input.pages@, p),
    ensures
        decided(cycle_decisions(m, roster, now, sweeps), p),
    decreases sweeps.len(),
{
    let rest = sweeps.drop_last();
    let s = sweeps.last();
    let earlier = cycle_decisions(m, roster, now, rest);
    let all = cycle_decisions(m, roster, now, sweeps);
    if i == sweeps.len() - 1 {
        let props = noted_all(s.input.pages@);
        lemma_noted_all(s.input.pages@, p);
        let j = choose|j: int| 0 <= j < props.len() && props[j] == p;
        let before = cycle_evaluated(m, roster, now, rest);
        lemma_decisions_of(before, roster, s.policy, now, props);
        let ds = decisions_of(before, roster, s.policy, now, props);
        assert(ds[j].0 == p);
        assert(all[earlier.len() + j] == ds[j]);
    } else {
        assert(rest[i] == sweeps[i]);
        law_touched_are_evaluated(m, roster, now, rest, i, p);
        let n = choose|n: int| 0 <= n < earlier.len() && (#[trigger] earlier[n]).0 == p;
        assert(all[n] == earlier[n]);
    }
}

/// Over a whole cycle no watermark moves back.
pub proof fn law_cycle_watermarks(m: Map<Key, Val>, sweeps: Seq<RepoSweep>, repo: u64)
    ensures
        not_after(watermark(m, repo), watermark(cycle_result(m, sweeps), repo)),
    decreases sweeps.len(),
{
    if sweeps.len() > 0 {
        let last = sweeps.last();
        let before = cycle_result(m, sweeps.drop_last());
        law_cycle_watermarks(m, sweeps.drop_last(), repo);
        if last.repo == repo {
            lemma_sweep_watermark(before, repo, last.input);
        } else {
            lemma_sweep_keeps_other_watermarks(before, last.repo, last.input, repo);
        }
    }
}

} // verus!
