//! The consensus state machine: what the store holds of a proposal, read
//! against the current roster, decides the proposal's next status and the
//! notice that goes out with it.
use crate::store::{has_open_concern, Key, MarkerKind, Status, Store, Val};
use vstd::prelude::*;

verus! {

/// A team of the validated roster: its id and the identities of its members.
pub struct ResolvedTeam {
    pub id: u64,
    pub members: Vec<u64>,
}

/// What a repository allows the machine to do by itself.
#[derive(Clone, Copy, Debug, PartialEq, Eq, Structural)]
pub struct Policy {
    /// Seconds that a proposal stays in its final comment period.
    pub dwell: i64,
    pub auto_close: bool,
    pub auto_postpone: bool,
}

/// The notice that goes out with a transition.
#[derive(Clone, Copy, Debug, PartialEq, Eq, Structural)]
pub enum Notice {
    Proposed,
    Cancelled,
    EnteringFcp,
    FcpFinished,
    Postponed,
    Closed,
}

/// What the store and the roster say of one proposal.
#[derive(Clone, Copy, Debug, PartialEq, Eq, Structural)]
pub struct Facts {
    pub status: Status,
    /// When the proposal entered `status`.
    pub since: i64,
    pub flagged: bool,
    /// The tracker has closed or merged the issue.
    pub closed: bool,
    pub marker: Option<MarkerKind>,
    /// The marker's author is a current member of a team bound to the proposal.
    pub marker_by_member: bool,
    /// Some team of the roster is bound to the proposal.
    pub any_bound: bool,
    /// Every current member of every bound team has a checked sign-off.
    pub all_signed: bool,
    pub open_concern: bool,
}

/// The outcome of one evaluation.
#[derive(Clone, Copy, Debug, PartialEq, Eq, Structural)]
pub struct Decision {
    pub status: Status,
    pub since: i64,
    /// The proposal waits for a human.
    pub flagged: bool,
    /// `Some` exactly when the status changed.
    pub notice: Option<Notice>,
}

/// The team's label is on the proposal.
pub open spec fn bound(m: Map<Key, Val>, proposal: u64, team: u64) -> bool {
    &&& m.contains_key(Key::Binding(proposal, team))
    &&& m[Key::Binding(proposal, team)] matches Val::Binding { bound }
    &&& bound
}

/// `who` has a checked sign-off on the proposal.
pub open spec fn signed(m: Map<Key, Val>, proposal: u64, who: u64) -> bool {
    &&& m.contains_key(Key::SignOff(proposal, who))
    &&& m[Key::SignOff(proposal, who)] matches Val::SignOff { checked, .. }
    &&& checked
}

/// Every one of `members` has signed off.
pub open spec fn team_signed(m: Map<Key, Val>, proposal: u64, members: Seq<u64>) -> bool {
    forall|i: int| 0 <= i < members.len() ==> signed(m, proposal, #[trigger] members[i])
}

/// Every current member of each of the first `n` teams that is bound to the
/// proposal has signed off.
pub open spec fn signed_upto(
    m: Map<Key, Val>,
    proposal: u64,
    roster: Seq<ResolvedTeam>,
    n: int,
) -> bool {
    forall|t: int|
        0 <= t < n && bound(m, proposal, (#[trigger] roster[t]).id) ==> team_signed(
            m,
            proposal,
            roster[t].members@,
        )
}

/// Every current member of every bound team has signed off.
pub open spec fn all_signed(m: Map<Key, Val>, proposal: u64, roster: Seq<ResolvedTeam>) -> bool {
    signed_upto(m, proposal, roster, roster.len() as int)
}

/// One of the first `n` teams is bound to the proposal.
pub open spec fn bound_upto(
    m: Map<Key, Val>,
    proposal: u64,
    roster: Seq<ResolvedTeam>,
    n: int,
) -> bool {
    exists|t: int| 0 <= t < n && bound(m, proposal, (#[trigger] roster[t]).id)
}

/// `who` is a member of one of the first `n` teams that is bound to the proposal.
pub open spec fn member_upto(
    m: Map<Key, Val>,
    proposal: u64,
    roster: Seq<ResolvedTeam>,
    who: u64,
    n: int,
) -> bool {
    exists|t: int|
        0 <= t < n && bound(m, proposal, (#[trigger] roster[t]).id)
            && roster[t].members@.contains(who)
}

/// The status that the store holds of a proposal; one never evaluated is open.
pub open spec fn progress(m: Map<Key, Val>, proposal: u64) -> (Status, i64, bool) {
    if m.contains_key(Key::Progress(proposal)) {
        match m[Key::Progress(proposal)] {
            Val::Progress { status, since, flagged } => (status, since, flagged),
            _ => (Status::Open, 0i64, false),
        }
    } else {
        (Status::Open, 0i64, false)
    }
}

/// The tracker has closed the proposal's issue.
pub open spec fn issue_closed(m: Map<Key, Val>, proposal: u64) -> bool {
    &&& m.contains_key(Key::Issue(proposal))
    &&& m[Key::Issue(proposal)] matches Val::Issue { closed, .. }
    &&& closed
}

/// The marker last seen on the proposal, and its author.
pub open spec fn marker(m: Map<Key, Val>, proposal: u64) -> Option<(MarkerKind, u64)> {
    if m.contains_key(Key::Marker(proposal)) {
        match m[Key::Marker(proposal)] {
            Val::Marker { kind, by, .. } => Some((kind, by)),
            _ => None,
        }
    } else {
        None
    }
}

/// The facts of a proposal, read from the store against the current roster.
pub open spec fn facts(m: Map<Key, Val>, roster: Seq<ResolvedTeam>, proposal: u64) -> Facts {
    let n = roster.len() as int;
    Facts {
        status: progress(m, proposal).0,
        since: progress(m, proposal).1,
        flagged: progress(m, proposal).2,
        closed: issue_closed(m, proposal),
        marker: match marker(m, proposal) {
            Some((kind, _)) => Some(kind),
            None => None,
        },
        marker_by_member: match marker(m, proposal) {
            Some((_, by)) => member_upto(m, proposal, roster, by, n),
            None => false,
        },
        any_bound: bound_upto(m, proposal, roster, n),
        all_signed: all_signed(m, proposal, roster),
        open_concern: has_open_concern(m, proposal),
    }
}

/// The decision that leaves the proposal where it is.
pub open spec fn stay(f: Facts, flagged: bool) -> Decision {
    Decision { status: f.status, since: f.since, flagged, notice: None }
}

/// The decision that moves the proposal to `status` at `now`.
pub open spec fn go(status: Status, now: i64, notice: Notice) -> Decision {
    Decision { status, since: now, flagged: false, notice: Some(notice) }
}

/// The transition rules.
pub open spec fn next(f: Facts, policy: Policy, now: i64) -> Decision {
    match f.status {
        Status::Closed => stay(f, f.flagged),
        _ if f.closed => go(Status::Closed, now, Notice::Closed),
        Status::Open => if f.marker == Some(MarkerKind::Propose) && f.marker_by_member {
            go(Status::FcpProposed, now, Notice::Proposed)
        } else {
            stay(f, f.flagged)
        },
        Status::FcpProposed => if f.marker == Some(MarkerKind::Cancel) || !f.any_bound {
            go(Status::Open, now, Notice::Cancelled)
        } else if f.all_signed && !f.open_concern {
            go(Status::FcpActive, now, Notice::EnteringFcp)
        } else {
            stay(f, f.flagged)
        },
        Status::FcpActive => if f.marker == Some(MarkerKind::Postpone) {
            if policy.auto_postpone {
                go(Status::Postponed, now, Notice::Postponed)
            } else {
                stay(f, true)
            }
        } else if f.open_concern {
            stay(f, true)
        } else if now - f.since >= policy.dwell {
            if policy.auto_close {
                go(Status::FcpClosed, now, Notice::FcpFinished)
            } else {
                stay(f, true)
            }
        } else {
            stay(f, false)
        },
        Status::FcpClosed => stay(f, f.flagged),
        Status::Postponed => stay(f, f.flagged),
    }
}

/// The row that records a decision.
pub open spec fn record(d: Decision) -> Val {
    Val::Progress { status: d.status, since: d.since, flagged: d.flagged }
}

fn is_bound(store: &Store, proposal: u64, team: u64) -> (r: bool)
    requires
        store.wf(),
    ensures
        r == bound(store@, proposal, team),
{
    match store.get(Key::Binding(proposal, team)) {
        Some(Val::Binding { bound }) => bound,
        _ => false,
    }
}

fn has_signed(store: &Store, proposal: u64, who: u64) -> (r: bool)
    requires
        store.wf(),
    ensures
        r == signed(store@, proposal, who),
{
    match store.get(Key::SignOff(proposal, who)) {
        Some(Val::SignOff { checked, .. }) => checked,
        _ => false,
    }
}

fn team_has_signed(store: &Store, proposal: u64, members: &Vec<u64>) -> (r: bool)
    requires
        store.wf(),
    ensures
        r == team_signed(store@, proposal, members@),
{
    let mut i: usize = 0;
    while i < members.len()
        invariant
            i <= members@.len(),
            store.wf(),
            forall|j: int| 0 <= j < i ==> signed(store@, proposal, #[trigger] members@[j]),
        decreases members@.len() - i,
    {
        if !has_signed(store, proposal, members[i]) {
            return false;
        }
        i += 1;
    }
    true
}

pub(crate) fn holds(members: &Vec<u64>, who: u64) -> (r: bool)
    ensures
        r == members@.contains(who),
{
    let mut i: usize = 0;
    while i < members.len()
        invariant
            i <= members@.len(),
            forall|j: int| 0 <= j < i ==> members@[j] != who,
        decreases members@.len() - i,
    {
        if members[i] == who {
            return true;
        }
        i += 1;
    }
    false
}

/// Reads the facts of a proposal from the store, against the roster as it is
/// now: a member who left no longer counts, one who joined does.
pub fn gather(store: &Store, roster: &Vec<ResolvedTeam>, proposal: u64) -> (f: Facts)
    requires
        store.wf(),
    ensures
        f == facts(store@, roster@, proposal),
{
    let (status, since, flagged) = match store.get(Key::Progress(proposal)) {
        Some(Val::Progress { status, since, flagged }) => (status, since, flagged),
        _ => (Status::Open, 0i64, false),
    };
    let closed = match store.get(Key::Issue(proposal)) {
        Some(Val::Issue { closed, .. }) => closed,
        _ => false,
    };
    let (marker, author) = match store.get(Key::Marker(proposal)) {
        Some(Val::Marker { kind, by, .. }) => (Some(kind), Some(by)),
        _ => (None, None),
    };
    let mut any_bound = false;
    let mut all = true;
    let mut by_member = false;
    let mut t: usize = 0;
    while t < roster.len()
        invariant
            t <= roster@.len(),
            store.wf(),
            any_bound == bound_upto(store@, proposal, roster@, t as int),
            all == signed_upto(store@, proposal, roster@, t as int),
            author matches Some(by) ==> by_member == member_upto(
                store@,
                proposal,
                roster@,
                by,
                t as int,
            ),
            author is None ==> !by_member,
        decreases roster@.len() - t,
    {
        let team = &roster[t];
        if is_bound(store, proposal, team.id) {
            any_bound = true;
            if !team_has_signed(store, proposal, &team.members) {
                all = false;
            }
            if let Some(by) = author {
                if holds(&team.members, by) {
                    by_member = true;
                }
            }
        }
        t += 1;
    }
    Facts {
        status,
        since,
        flagged,
        closed,
        marker,
        marker_by_member: by_member,
        any_bound,
        all_signed: all,
        open_concern: store.any_open_concern(proposal),
    }
}

/// Applies the transition rules to the facts of a proposal.
pub fn decide(f: Facts, policy: Policy, now: i64) -> (d: Decision)
    ensures
        d == next(f, policy, now),
        d.notice is Some <==> d.status != f.status,
{
    let stay = Decision { status: f.status, since: f.since, flagged: f.flagged, notice: None };
    let flag = Decision { status: f.status, since: f.since, flagged: true, notice: None };
    let calm = Decision { status: f.status, since: f.since, flagged: false, notice: None };
    match f.status {
        Status::Closed => stay,
        _ if f.closed => Decision {
            status: Status::Closed,
            since: now,
            flagged: false,
            notice: Some(Notice::Closed),
        },
        Status::Open => {
            let proposed = match f.marker {
                Some(MarkerKind::Propose) => f.marker_by_member,
                _ => false,
            };
            if proposed {
                Decision {
                    status: Status::FcpProposed,
                    since: now,
                    flagged: false,
                    notice: Some(Notice::Proposed),
                }
            } else {
                stay
            }
        },
        Status::FcpProposed => {
            let cancelled = match f.marker {
                Some(MarkerKind::Cancel) => true,
                _ => false,
            };
            if cancelled || !f.any_bound {
                Decision {
                    status: Status::Open,
                    since: now,
                    flagged: false,
                    notice: Some(Notice::Cancelled),
                }
            } else if f.all_signed && !f.open_concern {
                Decision {
                    status: Status::FcpActive,
                    since: now,
                    flagged: false,
                    notice: Some(Notice::EnteringFcp),
                }
            } else {
                stay
            }
        },
        Status::FcpActive => {
            let postponed = match f.marker {
                Some(MarkerKind::Postpone) => true,
                _ => false,
            };
            if postponed {
                if policy.auto_postpone {
                    Decision {
                        status: Status::Postponed,
                        since: now,
                        flagged: false,
                        notice: Some(Notice::Postponed),
                    }
                } else {
                    flag
                }
            } else if f.open_concern {
                flag
            } else if now as i128 - f.since as i128 >= policy.dwell as i128 {
                if policy.auto_close {
                    Decision {
                        status: Status::FcpClosed,
                        since: now,
                        flagged: false,
                        notice: Some(Notice::FcpFinished),
                    }
                } else {
                    flag
                }
            } else {
                calm
            }
        },
        Status::FcpClosed => stay,
        Status::Postponed => stay,
    }
}

/// One evaluation of a proposal: reads its facts, applies the rules and
/// records the outcome. The store's other rows stay as they are.
pub fn evaluate(
    store: &mut Store,
    roster: &Vec<ResolvedTeam>,
    policy: Policy,
    proposal: u64,
    now: i64,
) -> (d: Decision)
    requires
        old(store).wf(),
    ensures
        final(store).wf(),
        d == next(facts(old(store)@, roster@, proposal), policy, now),
        final(store)@ == old(store)@.insert(Key::Progress(proposal), record(d)),
        d.notice is Some <==> d.status != progress(old(store)@, proposal).0,
        progress(final(store)@, proposal) == (d.status, d.since, d.flagged),
{
    let f = gather(store, roster, proposal);
    let d = decide(f, policy, now);
    store.put(
        Key::Progress(proposal),
        Val::Progress { status: d.status, since: d.since, flagged: d.flagged },
    );
    d
}

/// A proposal that collects sign-offs, whose issue is open, that no marker
/// cancels and that some team is bound to, enters its final comment period
/// exactly when every current member of every bound team has signed off and
/// no concern is open. Otherwise it stays where it is, and no notice goes out.
pub proof fn law_quorum_gate(
    m: Map<Key, Val>,
    roster: Seq<ResolvedTeam>,
    proposal: u64,
    policy: Policy,
    now: i64,
)
    requires
        progress(m, proposal).0 == Status::FcpProposed,
        !issue_closed(m, proposal),
        facts(m, roster, proposal).marker != Some(MarkerKind::Cancel),
        bound_upto(m, proposal, roster, roster.len() as int),
    ensures
        ({
            let d = next(facts(m, roster, proposal), policy, now);
            let quorum = all_signed(m, proposal, roster) && !has_open_concern(m, proposal);
            &&& quorum ==> d.status == Status::FcpActive && d.notice == Some(Notice::EnteringFcp)
            &&& !quorum ==> d.status == Status::FcpProposed && d.notice is None
        }),
{
}

/// A member of a bound team without a checked sign-off denies the quorum.
pub proof fn law_missing_sign_off_blocks(
    m: Map<Key, Val>,
    roster: Seq<ResolvedTeam>,
    proposal: u64,
    t: int,
    i: int,
)
    requires
        0 <= t < roster.len(),
        0 <= i < roster[t].members@.len(),
        bound(m, proposal, roster[t].id),
        !signed(m, proposal, roster[t].members@[i]),
    ensures
        !all_signed(m, proposal, roster),
{
    if all_signed(m, proposal, roster) {
        assert(team_signed(m, proposal, roster[t].members@));
    }
}

/// An open concern denies the step into the final comment period, whoever
/// has signed off; once it is resolved, the sign-offs decide again.
pub proof fn law_concern_gate(f: Facts, policy: Policy, now: i64)
    requires
        f.status == Status::FcpProposed,
        f.open_concern,
    ensures
        next(f, policy, now).status != Status::FcpActive,
        !f.closed && f.marker != Some(MarkerKind::Cancel) && f.any_bound && f.all_signed ==> next(
            Facts { open_concern: false, ..f },
            policy,
            now,
        ).status == Status::FcpActive,
{
}

/// A concern raised during the final comment period does not take the
/// proposal out of it: it is flagged and stays.
pub proof fn law_no_revert(f: Facts, policy: Policy, now: i64)
    requires
        f.status == Status::FcpActive,
        !f.closed,
        f.open_concern,
        f.marker != Some(MarkerKind::Postpone),
    ensures
        next(f, policy, now) == stay(f, true),
{
}

/// Once the tracker has closed the issue, the proposal is closed, whatever
/// its reviews say.
pub proof fn law_closure_wins(f: Facts, policy: Policy, now: i64)
    requires
        f.closed,
    ensures
        next(f, policy, now).status == Status::Closed,
{
}

/// How far a status is along a proposal's life.
pub open spec fn rank(s: Status) -> int {
    match s {
        Status::Open => 0,
        Status::FcpProposed => 1,
        Status::FcpActive => 2,
        Status::FcpClosed => 3,
        Status::Postponed => 3,
        Status::Closed => 4,
    }
}

/// A proposal only moves forward, but for the one reset: a proposal that
/// collects sign-offs goes back to open when it is cancelled or withdrawn.
pub proof fn law_status_monotone(f: Facts, policy: Policy, now: i64)
    ensures
        rank(next(f, policy, now).status) >= rank(f.status) || (f.status == Status::FcpProposed
            && next(f, policy, now).status == Status::Open),
{
}

/// Every transition sends exactly one notice, and no notice goes out without
/// one. The notice of entering the final comment period goes out only on the
/// step from collecting sign-offs, so a proposal that is in the period sends
/// it no second time.
pub proof fn law_one_notice(f: Facts, policy: Policy, now: i64)
    ensures
        next(f, policy, now).notice is Some <==> next(f, policy, now).status != f.status,
        next(f, policy, now).notice == Some(Notice::EnteringFcp) ==> f.status
            == Status::FcpProposed && next(f, policy, now).status == Status::FcpActive,
{
}

/// The quorum asks only for the current members: where every member of every
/// bound team but the one at `i` of team `t` has signed off, the roster
/// without that member has its quorum of sign-offs.
pub proof fn law_roster_drift(
    m: Map<Key, Val>,
    proposal: u64,
    roster: Seq<ResolvedTeam>,
    after: Seq<ResolvedTeam>,
    t: int,
    i: int,
)
    requires
        0 <= t < roster.len(),
        0 <= i < roster[t].members@.len(),
        after.len() == roster.len(),
        forall|u: int| 0 <= u < roster.len() ==> (#[trigger] after[u]).id == roster[u].id,
        forall|u: int|
            0 <= u < roster.len() && u != t ==> (#[trigger] after[u]).members@
                == roster[u].members@,
        after[t].members@ == roster[t].members@.remove(i),
        forall|u: int, j: int|
            0 <= u < roster.len() && 0 <= j < roster[u].members@.len() && !(u == t && j == i)
                && bound(m, proposal, roster[u].id) ==> signed(
                m,
                proposal,
                #[trigger] roster[u].members@[j],
            ),
    ensures
        all_signed(m, proposal, after),
{
    assert forall|u: int|
        0 <= u < after.len() && bound(m, proposal, (#[trigger] after[u]).id) implies team_signed(
        m,
        proposal,
        after[u].members@,
    ) by {
        assert(roster[u].id == after[u].id);
        assert forall|j: int| 0 <= j < after[u].members@.len() implies signed(
            m,
            proposal,
            #[trigger] after[u].members@[j],
        ) by {
            if u == t {
                if j < i {
                    assert(after[u].members@[j] == roster[u].members@[j]);
                } else {
                    assert(after[u].members@[j] == roster[u].members@[j + 1]);
                }
            } else {
                assert(after[u].members@[j] == roster[u].members@[j]);
            }
        }
    }
}

/// Sign-offs of identities that are on no bound team neither help nor hinder:
/// two stores that agree on the bindings and on the sign-offs of the current
/// members agree on the quorum of sign-offs.
pub proof fn law_only_members_count(
    a: Map<Key, Val>,
    b: Map<Key, Val>,
    proposal: u64,
    roster: Seq<ResolvedTeam>,
)
    requires
        forall|u: int|
            0 <= u < roster.len() ==> bound(a, proposal, (#[trigger] roster[u]).id) == bound(
                b,
                proposal,
                roster[u].id,
            ),
        forall|u: int, j: int|
            0 <= u < roster.len() && 0 <= j < roster[u].members@.len() ==> signed(
                a,
                proposal,
                #[trigger] roster[u].members@[j],
            ) == signed(b, proposal, roster[u].members@[j]),
    ensures
        all_signed(a, proposal, roster) == all_signed(b, proposal, roster),
{
    if all_signed(a, proposal, roster) {
        lemma_members_count(a, b, proposal, roster);
    }
    if all_signed(b, proposal, roster) {
        lemma_members_count(b, a, proposal, roster);
    }
}

/// One direction of `law_only_members_count`.
proof fn lemma_members_count(
    a: Map<Key, Val>,
    b: Map<Key, Val>,
    proposal: u64,
    roster: Seq<ResolvedTeam>,
)
    requires
        forall|u: int|
            0 <= u < roster.len() ==> bound(a, proposal, (#[trigger] roster[u]).id) == bound(
                b,
                proposal,
                roster[u].id,
            ),
        forall|u: int, j: int|
            0 <= u < roster.len() && 0 <= j < roster[u].members@.len() ==> signed(
                a,
                proposal,
                #[trigger] roster[u].members@[j],
            ) == signed(b, proposal, roster[u].members@[j]),
        all_signed(a, proposal, roster),
    ensures
        all_signed(b, proposal, roster),
{
    assert forall|u: int|
        0 <= u < roster.len() && bound(b, proposal, (#[trigger] roster[u]).id) implies team_signed(
        b,
        proposal,
        roster[u].members@,
    ) by {
        assert(bound(a, proposal, roster[u].id));
        assert(team_signed(a, proposal, roster[u].members@));
        assert forall|j: int| 0 <= j < roster[u].members@.len() implies signed(
            b,
            proposal,
            #[trigger] roster[u].members@[j],
        ) by {
            assert(signed(a, proposal, roster[u].members@[j]));
        }
    }
}

} // verus!
