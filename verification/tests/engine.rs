use mscbot::consensus::{decide, evaluate, gather, Decision, Notice, Policy, ResolvedTeam};
use mscbot::ingest::{
    ingest, ingest_event, ingest_page, stored_watermark, Event, EventKind, FetchError,
    IngestError, SweepInput,
};
use mscbot::scheduler::{
    evaluate_all, run_cycle, scrape, sleep_seconds, touched_proposals, RepoSweep,
};
use mscbot::store::{Key, MarkerKind, Row, Status, Store, Val};

const ALICE: u64 = 0;
const BOB: u64 = 1;
const CAROL: u64 = 2;
const TEAM_A: u64 = 0;
const PROP: u64 = 42;
const REPO: u64 = 7;

fn policy(auto_close: bool, auto_postpone: bool) -> Policy {
    Policy { dwell: 100, auto_close, auto_postpone }
}

fn ev(actor: u64, at: i64, kind: EventKind) -> Event {
    Event { proposal: PROP, actor, at, kind }
}

fn opened(at: i64) -> Event {
    ev(ALICE, at, EventKind::Issue { repo: REPO, closed: false })
}

fn labelled(at: i64) -> Event {
    ev(ALICE, at, EventKind::Label { team: TEAM_A, bound: true })
}

fn signs(actor: u64, at: i64) -> Event {
    ev(actor, at, EventKind::SignOff { checked: true })
}

fn roster(members: &[u64]) -> Vec<ResolvedTeam> {
    vec![ResolvedTeam { id: TEAM_A, members: members.to_vec() }]
}

fn proposed(store: &mut Store, roster: &Vec<ResolvedTeam>) {
    let page = vec![
        opened(1),
        labelled(2),
        ev(ALICE, 3, EventKind::Marker { kind: MarkerKind::Propose }),
    ];
    assert_eq!(ingest_page(store, &page), 0);
    let d = evaluate(store, roster, policy(true, true), PROP, 10);
    assert_eq!(d.status, Status::FcpProposed);
    assert_eq!(d.notice, Some(Notice::Proposed));
}

fn status(store: &Store) -> Status {
    match store.get(Key::Progress(PROP)) {
        Some(Val::Progress { status, .. }) => status,
        _ => Status::Open,
    }
}

#[test]
fn store_put_replaces_on_conflict() {
    let mut s = Store::new();
    assert_eq!(s.get(Key::Identity(3)), None);
    s.put(Key::Identity(3), Val::Identity);
    s.put(Key::SignOff(1, 3), Val::SignOff { checked: false, at: 5 });
    s.put(Key::SignOff(1, 3), Val::SignOff { checked: true, at: 9 });
    assert_eq!(s.len(), 2);
    assert_eq!(s.get(Key::SignOff(1, 3)), Some(Val::SignOff { checked: true, at: 9 }));
    assert_eq!(s.get(Key::SignOff(3, 1)), None);
    assert_eq!(
        s.rows(),
        vec![
            Row { key: Key::Identity(3), val: Val::Identity },
            Row { key: Key::SignOff(1, 3), val: Val::SignOff { checked: true, at: 9 } },
        ]
    );
    assert_eq!(s.snapshot().rows(), s.rows());
}

#[test]
fn event_writes_its_actor_and_its_row() {
    let mut s = Store::new();
    let skipped = ingest_event(&mut s, ev(BOB, 11, EventKind::Concern { text: 5, open: true }));
    assert!(!skipped);
    assert_eq!(s.get(Key::Identity(BOB)), Some(Val::Identity));
    assert_eq!(s.get(Key::Concern(PROP, BOB, 5)), Some(Val::Concern { open: true, at: 11 }));
    assert!(s.any_open_concern(PROP));
    assert!(!s.any_open_concern(PROP + 1));
    ingest_event(&mut s, ev(BOB, 12, EventKind::Concern { text: 5, open: false }));
    assert!(!s.any_open_concern(PROP));
    assert_eq!(s.len(), 2);
}

#[test]
fn malformed_events_are_skipped() {
    let mut s = Store::new();
    let page = vec![signs(ALICE, 5), signs(BOB, -1), opened(-7), signs(CAROL, 6)];
    assert_eq!(ingest_page(&mut s, &page), 2);
    assert_eq!(s.get(Key::SignOff(PROP, BOB)), None);
    assert_eq!(s.get(Key::Identity(BOB)), None);
    assert_eq!(s.get(Key::Issue(PROP)), None);
    assert_eq!(s.get(Key::SignOff(PROP, CAROL)), Some(Val::SignOff { checked: true, at: 6 }));
    assert_eq!(s.len(), 4);
}

#[test]
fn ingesting_a_page_twice_is_ingesting_it_once() {
    let page = vec![
        opened(1),
        labelled(2),
        signs(ALICE, 3),
        ev(ALICE, 4, EventKind::SignOff { checked: false }),
        ev(BOB, 5, EventKind::Concern { text: 1, open: true }),
        ev(BOB, 6, EventKind::Concern { text: 1, open: false }),
        ev(BOB, 7, EventKind::Marker { kind: MarkerKind::Propose }),
    ];
    let mut once = Store::new();
    ingest_page(&mut once, &page);
    let mut twice = Store::new();
    ingest_page(&mut twice, &page);
    ingest_page(&mut twice, &page);
    assert_eq!(once.rows(), twice.rows());
    assert_eq!(once.len(), 7);
    assert_eq!(once.get(Key::SignOff(PROP, ALICE)), Some(Val::SignOff { checked: false, at: 4 }));
}

#[test]
fn sweeping_twice_is_sweeping_once() {
    let sweep = SweepInput { start: 50, pages: vec![vec![opened(1)], vec![signs(BOB, 2)]], failure: None };
    let mut once = Store::new();
    assert_eq!(ingest(&mut once, REPO, &sweep), Ok(0));
    let mut twice = Store::new();
    ingest(&mut twice, REPO, &sweep).unwrap();
    ingest(&mut twice, REPO, &sweep).unwrap();
    assert_eq!(once.rows(), twice.rows());
}

#[test]
fn watermark_never_moves_back() {
    let mut s = Store::new();
    assert_eq!(stored_watermark(&s, REPO), None);
    let ok = |start: i64| SweepInput { start, pages: vec![vec![opened(1)]], failure: None };
    let bad = |start: i64| SweepInput {
        start,
        pages: vec![vec![signs(CAROL, 2)]],
        failure: Some(FetchError::RateLimited),
    };
    assert_eq!(ingest(&mut s, REPO, &ok(100)), Ok(0));
    assert_eq!(stored_watermark(&s, REPO), Some(100));
    let before = s.rows();
    assert_eq!(
        ingest(&mut s, REPO, &bad(200)),
        Err(IngestError::Transient(FetchError::RateLimited))
    );
    assert_eq!(stored_watermark(&s, REPO), Some(100));
    assert_eq!(s.rows(), before);
    assert_eq!(ingest(&mut s, REPO, &ok(90)), Ok(0));
    assert_eq!(stored_watermark(&s, REPO), Some(100));
    assert_eq!(ingest(&mut s, REPO, &ok(300)), Ok(0));
    assert_eq!(stored_watermark(&s, REPO), Some(300));
    assert_eq!(stored_watermark(&s, REPO + 1), None);
}

#[test]
fn each_fetch_error_is_reported() {
    for why in [FetchError::Unreachable, FetchError::RateLimited, FetchError::StoreBusy] {
        let mut s = Store::new();
        let sweep = SweepInput { start: 1, pages: vec![], failure: Some(why) };
        assert_eq!(ingest(&mut s, REPO, &sweep), Err(IngestError::Transient(why)));
        assert_eq!(s.len(), 0);
    }
}

#[test]
fn quorum_needs_every_member() {
    let roster = roster(&[ALICE, BOB, CAROL]);
    let mut s = Store::new();
    proposed(&mut s, &roster);
    ingest_page(&mut s, &vec![signs(ALICE, 11), signs(BOB, 12)]);
    let d = evaluate(&mut s, &roster, policy(true, true), PROP, 20);
    assert_eq!(d, Decision { status: Status::FcpProposed, since: 10, flagged: false, notice: None });
    ingest_page(&mut s, &vec![signs(CAROL, 21)]);
    let d = evaluate(&mut s, &roster, policy(true, true), PROP, 30);
    assert_eq!(
        d,
        Decision {
            status: Status::FcpActive,
            since: 30,
            flagged: false,
            notice: Some(Notice::EnteringFcp)
        }
    );
    assert_eq!(status(&s), Status::FcpActive);
}

#[test]
fn open_concern_holds_the_proposal() {
    let roster = roster(&[ALICE, BOB]);
    let mut s = Store::new();
    proposed(&mut s, &roster);
    ingest_page(
        &mut s,
        &vec![signs(ALICE, 11), signs(BOB, 12), ev(BOB, 13, EventKind::Concern { text: 9, open: true })],
    );
    let d = evaluate(&mut s, &roster, policy(true, true), PROP, 20);
    assert_eq!(d.status, Status::FcpProposed);
    assert_eq!(d.notice, None);
    ingest_page(&mut s, &vec![ev(BOB, 21, EventKind::Concern { text: 9, open: false })]);
    let d = evaluate(&mut s, &roster, policy(true, true), PROP, 30);
    assert_eq!(d.status, Status::FcpActive);
    assert_eq!(d.notice, Some(Notice::EnteringFcp));
}

#[test]
fn quorum_follows_the_current_roster() {
    let mut s = Store::new();
    proposed(&mut s, &roster(&[ALICE, BOB, CAROL]));
    ingest_page(&mut s, &vec![signs(ALICE, 11), signs(BOB, 12)]);
    let d = evaluate(&mut s, &roster(&[ALICE, BOB, CAROL]), policy(true, true), PROP, 20);
    assert_eq!(d.status, Status::FcpProposed);
    // Carol leaves the team: her missing sign-off no longer counts.
    let d = evaluate(&mut s, &roster(&[ALICE, BOB]), policy(true, true), PROP, 30);
    assert_eq!(d.status, Status::FcpActive);

    // A member who joins is asked for a sign-off, and one who left is not heard.
    let mut s = Store::new();
    proposed(&mut s, &roster(&[ALICE]));
    ingest_page(&mut s, &vec![signs(ALICE, 11), signs(CAROL, 12)]);
    let d = evaluate(&mut s, &roster(&[ALICE, BOB]), policy(true, true), PROP, 20);
    assert_eq!(d.status, Status::FcpProposed);
}

#[test]
fn proposal_needs_a_member_of_a_bound_team() {
    let roster = roster(&[ALICE, BOB]);
    let mut s = Store::new();
    ingest_page(
        &mut s,
        &vec![opened(1), labelled(2), ev(CAROL, 3, EventKind::Marker { kind: MarkerKind::Propose })],
    );
    let f = gather(&s, &roster, PROP);
    assert!(f.any_bound);
    assert!(!f.marker_by_member);
    assert_eq!(evaluate(&mut s, &roster, policy(true, true), PROP, 10).status, Status::Open);
    // The label of a team that is not bound gives no standing either.
    let mut s = Store::new();
    ingest_page(&mut s, &vec![opened(1), ev(ALICE, 3, EventKind::Marker { kind: MarkerKind::Propose })]);
    assert_eq!(evaluate(&mut s, &roster, policy(true, true), PROP, 10).status, Status::Open);
}

#[test]
fn cancel_and_withdrawal_reset_to_open() {
    let roster = roster(&[ALICE, BOB]);
    let mut s = Store::new();
    proposed(&mut s, &roster);
    ingest_page(&mut s, &vec![ev(BOB, 11, EventKind::Marker { kind: MarkerKind::Cancel })]);
    let d = evaluate(&mut s, &roster, policy(true, true), PROP, 20);
    assert_eq!(d.status, Status::Open);
    assert_eq!(d.notice, Some(Notice::Cancelled));

    let mut s = Store::new();
    proposed(&mut s, &roster);
    ingest_page(&mut s, &vec![ev(BOB, 11, EventKind::Label { team: TEAM_A, bound: false })]);
    let d = evaluate(&mut s, &roster, policy(true, true), PROP, 20);
    assert_eq!(d.status, Status::Open);
    let d = evaluate(&mut s, &roster, policy(true, true), PROP, 21);
    assert_eq!(d.status, Status::Open);
    assert_eq!(d.notice, None);
}

fn active(roster: &Vec<ResolvedTeam>) -> Store {
    let mut s = Store::new();
    proposed(&mut s, roster);
    ingest_page(&mut s, &vec![signs(ALICE, 11), signs(BOB, 12)]);
    let d = evaluate(&mut s, roster, policy(true, true), PROP, 1000);
    assert_eq!(d.status, Status::FcpActive);
    s
}

#[test]
fn dwell_then_close() {
    let roster = roster(&[ALICE, BOB]);
    let mut s = active(&roster);
    let d = evaluate(&mut s, &roster, policy(true, true), PROP, 1099);
    assert_eq!(d, Decision { status: Status::FcpActive, since: 1000, flagged: false, notice: None });
    let d = evaluate(&mut s, &roster, policy(false, true), PROP, 1100);
    assert_eq!(d, Decision { status: Status::FcpActive, since: 1000, flagged: true, notice: None });
    let d = evaluate(&mut s, &roster, policy(true, true), PROP, 1100);
    assert_eq!(
        d,
        Decision {
            status: Status::FcpClosed,
            since: 1100,
            flagged: false,
            notice: Some(Notice::FcpFinished)
        }
    );
    let d = evaluate(&mut s, &roster, policy(true, true), PROP, 5000);
    assert_eq!(d.status, Status::FcpClosed);
    assert_eq!(d.notice, None);
}

#[test]
fn dwell_is_counted_without_overflow() {
    let f = mscbot::consensus::Facts {
        status: Status::FcpActive,
        since: i64::MIN,
        flagged: false,
        closed: false,
        marker: None,
        marker_by_member: false,
        any_bound: true,
        all_signed: true,
        open_concern: false,
    };
    let d = decide(f, Policy { dwell: i64::MAX, auto_close: true, auto_postpone: true }, i64::MAX);
    assert_eq!(d.status, Status::FcpClosed);
    let d = decide(f, Policy { dwell: i64::MAX, auto_close: true, auto_postpone: true }, -2);
    assert_eq!(d.status, Status::FcpActive);
}

#[test]
fn postponement_goes_by_the_policy() {
    let roster = roster(&[ALICE, BOB]);
    let mut s = active(&roster);
    ingest_page(&mut s, &vec![ev(ALICE, 1001, EventKind::Marker { kind: MarkerKind::Postpone })]);
    let d = evaluate(&mut s, &roster, policy(true, false), PROP, 1002);
    assert_eq!(d, Decision { status: Status::FcpActive, since: 1000, flagged: true, notice: None });
    let d = evaluate(&mut s, &roster, policy(true, true), PROP, 1003);
    assert_eq!(d.status, Status::Postponed);
    assert_eq!(d.notice, Some(Notice::Postponed));
}

#[test]
fn end_to_end() {
    let roster = roster(&[ALICE, BOB]);
    let pol = policy(true, true);
    let mut s = Store::new();
    let mut entering = 0;
    let mut count = |d: &Decision| {
        if d.notice == Some(Notice::EnteringFcp) {
            entering += 1;
        }
    };
    ingest_page(&mut s, &vec![opened(1), labelled(2)]);
    let d = evaluate(&mut s, &roster, pol, PROP, 5);
    count(&d);
    assert_eq!(d.status, Status::Open);

    ingest_page(&mut s, &vec![ev(ALICE, 6, EventKind::Marker { kind: MarkerKind::Propose })]);
    let d = evaluate(&mut s, &roster, pol, PROP, 10);
    count(&d);
    assert_eq!(d.status, Status::FcpProposed);

    ingest_page(&mut s, &vec![signs(ALICE, 11)]);
    let d = evaluate(&mut s, &roster, pol, PROP, 15);
    count(&d);
    assert_eq!(d.status, Status::FcpProposed);
    ingest_page(&mut s, &vec![signs(BOB, 16)]);
    let d = evaluate(&mut s, &roster, pol, PROP, 20);
    count(&d);
    assert_eq!(d.status, Status::FcpActive);
    let d = evaluate(&mut s, &roster, pol, PROP, 21);
    count(&d);
    assert_eq!(d.status, Status::FcpActive);

    ingest_page(&mut s, &vec![ev(ALICE, 22, EventKind::Concern { text: 1, open: true })]);
    let d = evaluate(&mut s, &roster, pol, PROP, 25);
    count(&d);
    assert_eq!(d, Decision { status: Status::FcpActive, since: 20, flagged: true, notice: None });

    ingest_page(&mut s, &vec![ev(BOB, 26, EventKind::Issue { repo: REPO, closed: true })]);
    let d = evaluate(&mut s, &roster, pol, PROP, 30);
    count(&d);
    assert_eq!(d.status, Status::Closed);
    assert_eq!(d.notice, Some(Notice::Closed));
    assert!(s.any_open_concern(PROP));
    let d = evaluate(&mut s, &roster, pol, PROP, 31);
    count(&d);
    assert_eq!(d, Decision { status: Status::Closed, since: 30, flagged: false, notice: None });
    assert_eq!(entering, 1);
}

#[test]
fn touched_proposals_are_listed_once() {
    let other = Event { proposal: 8, actor: BOB, at: 3, kind: EventKind::SignOff { checked: true } };
    let bad = Event { proposal: 9, actor: BOB, at: -3, kind: EventKind::SignOff { checked: true } };
    let pages = vec![vec![opened(1), other, bad], vec![], vec![signs(BOB, 4), other]];
    assert_eq!(touched_proposals(&pages), vec![PROP, 8]);
    assert_eq!(touched_proposals(&vec![]), Vec::<u64>::new());
}

#[test]
fn one_failed_repository_holds_up_no_other() {
    let roster = roster(&[ALICE, BOB]);
    let x = RepoSweep {
        repo: 1,
        policy: policy(true, true),
        input: SweepInput {
            start: 500,
            pages: vec![vec![Event {
                proposal: 77,
                actor: ALICE,
                at: 1,
                kind: EventKind::Issue { repo: 1, closed: true },
            }]],
            failure: Some(FetchError::Unreachable),
        },
    };
    let y = RepoSweep {
        repo: REPO,
        policy: policy(true, true),
        input: SweepInput {
            start: 500,
            pages: vec![vec![
                opened(1),
                labelled(2),
                ev(ALICE, 3, EventKind::Marker { kind: MarkerKind::Propose }),
            ]],
            failure: None,
        },
    };
    let mut s = Store::new();
    let report = run_cycle(&mut s, &roster, &vec![x, y], 600);
    assert_eq!(
        report.outcomes,
        vec![Err(IngestError::Transient(FetchError::Unreachable)), Ok(0)]
    );
    assert_eq!(stored_watermark(&s, 1), None);
    assert_eq!(stored_watermark(&s, REPO), Some(500));
    assert_eq!(s.get(Key::Issue(77)), None);
    assert_eq!(
        report.decisions,
        vec![(
            PROP,
            Decision {
                status: Status::FcpProposed,
                since: 600,
                flagged: false,
                notice: Some(Notice::Proposed)
            }
        )]
    );
    assert_eq!(status(&s), Status::FcpProposed);
}

#[test]
fn scrape_sweeps_in_order() {
    let sweep = |repo: u64, start: i64, failure: Option<FetchError>| RepoSweep {
        repo,
        policy: policy(false, false),
        input: SweepInput { start, pages: vec![vec![signs(ALICE, 1), signs(BOB, -1)]], failure },
    };
    let mut s = Store::new();
    let outcomes = scrape(
        &mut s,
        &vec![sweep(1, 10, None), sweep(2, 20, Some(FetchError::StoreBusy)), sweep(1, 5, None)],
    );
    assert_eq!(
        outcomes,
        vec![Ok(1), Err(IngestError::Transient(FetchError::StoreBusy)), Ok(1)]
    );
    assert_eq!(stored_watermark(&s, 1), Some(10));
    assert_eq!(stored_watermark(&s, 2), None);
}

#[test]
fn evaluate_all_appends_each_decision() {
    let roster = roster(&[ALICE]);
    let mut s = Store::new();
    ingest_page(
        &mut s,
        &vec![opened(1), labelled(2), ev(ALICE, 3, EventKind::Marker { kind: MarkerKind::Propose })],
    );
    let mut decisions = vec![(1u64, Decision { status: Status::Open, since: 0, flagged: false, notice: None })];
    evaluate_all(&mut s, &roster, policy(true, true), 9, &vec![PROP, 5], &mut decisions);
    assert_eq!(decisions.len(), 3);
    assert_eq!(decisions[1].0, PROP);
    assert_eq!(decisions[1].1.status, Status::FcpProposed);
    assert_eq!(
        decisions[2],
        (5, Decision { status: Status::Open, since: 0, flagged: false, notice: None })
    );
}

#[test]
fn sleep_is_the_interval_in_seconds() {
    assert_eq!(sleep_seconds(0), 0);
    assert_eq!(sleep_seconds(5), 300);
    assert_eq!(sleep_seconds(u64::MAX / 60), u64::MAX / 60 * 60);
    assert_eq!(sleep_seconds(u64::MAX / 60 + 1), u64::MAX);
}
