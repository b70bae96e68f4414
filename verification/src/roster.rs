//! The roster validator: every login that a team declares is checked against
//! the identities that are known, and resolved to its internal id.
use crate::consensus::ResolvedTeam;
use crate::teams::{MscbotConfig, Team};
use vstd::prelude::*;

verus! {

/// What the validator does with a login that no identity has.
#[derive(Clone, Copy, Debug, PartialEq, Eq, Structural)]
pub enum RosterMode {
    /// The roster is refused.
    RequireExisting,
    /// A minimal identity is made for the login.
    InsertMissing,
}

/// Why a roster was refused.
#[derive(Debug)]
pub enum RosterError {
    /// A team declares this login, and no identity has it.
    UnknownLogin(String),
}

/// The logins of a list of strings.
pub open spec fn logins_of(v: Seq<String>) -> Seq<Seq<char>> {
    v.map_values(|s: String| s@)
}

/// The identities: distinct logins, each with its place in the list as its
/// internal id. An identity is never removed, so an id never changes.
pub struct Directory {
    logins: Vec<String>,
}

impl View for Directory {
    type V = Seq<Seq<char>>;

    closed spec fn view(&self) -> Seq<Seq<char>> {
        logins_of(self.logins@)
    }
}

/// The directory after `login` was sighted: added at the end if it is new.
pub open spec fn sighted(dir: Seq<Seq<char>>, login: Seq<char>) -> Seq<Seq<char>> {
    if dir.contains(login) {
        dir
    } else {
        dir.push(login)
    }
}

/// The directory after each of `logins` was sighted, in order.
pub open spec fn sighted_all(dir: Seq<Seq<char>>, logins: Seq<Seq<char>>) -> Seq<Seq<char>>
    decreases logins.len(),
{
    if logins.len() == 0 {
        dir
    } else {
        sighted(sighted_all(dir, logins.drop_last()), logins.last())
    }
}

/// Every one of `logins` has an identity.
pub open spec fn all_known(dir: Seq<Seq<char>>, logins: Seq<Seq<char>>) -> bool {
    forall|i: int| 0 <= i < logins.len() ==> dir.contains(#[trigger] logins[i])
}

/// `i` is the place of the first of `logins` that has no identity.
pub open spec fn first_unknown(dir: Seq<Seq<char>>, logins: Seq<Seq<char>>, i: int) -> bool {
    &&& 0 <= i < logins.len()
    &&& !dir.contains(logins[i])
    &&& all_known(dir, logins.take(i))
}

/// `ids` are the internal ids of `logins`, one for one.
pub open spec fn resolves(dir: Seq<Seq<char>>, logins: Seq<Seq<char>>, ids: Seq<u64>) -> bool {
    &&& ids.len() == logins.len()
    &&& forall|i: int|
        0 <= i < ids.len() ==> (#[trigger] ids[i]) < dir.len() && dir[ids[i] as int] == logins[i]
}

impl Directory {
    /// No login stands twice.
    pub closed spec fn wf(&self) -> bool {
        self@.no_duplicates()
    }

    /// What the invariant says: no login stands twice.
    pub proof fn lemma_distinct(&self)
        requires
            self.wf(),
        ensures
            self@.no_duplicates(),
    {
    }

    /// The empty directory.
    pub fn new() -> (d: Directory)
        ensures
            d.wf(),
            d@ == Seq::<Seq<char>>::empty(),
    {
        let d = Directory { logins: Vec::new() };
        assert(d@ =~= Seq::<Seq<char>>::empty());
        d
    }

    /// The number of identities.
    pub fn len(&self) -> (n: usize)
        ensures
            n == self@.len(),
    {
        self.logins.len()
    }

    /// The internal id of `login`, if an identity has it.
    pub fn find(&self, login: &String) -> (r: Option<u64>)
        requires
            self.wf(),
        ensures
            match r {
                Some(id) => id < self@.len() && self@[id as int] == login@,
                None => !self@.contains(login@),
            },
    {
        let mut i: usize = 0;
        while i < self.logins.len()
            invariant
                i <= self.logins@.len(),
                forall|j: int| 0 <= j < i ==> (#[trigger] self@[j]) != login@,
            decreases self.logins@.len() - i,
        {
            assert(self@[i as int] == self.logins@[i as int]@);
            if self.logins[i] == *login {
                return Some(i as u64);
            }
            i += 1;
        }
        None
    }

    /// The login of the identity `id`.
    pub fn login(&self, id: u64) -> (r: Option<String>)
        requires
            self.wf(),
        ensures
            match r {
                Some(l) => id < self@.len() && l@ == self@[id as int],
                None => id >= self@.len(),
            },
    {
        if id < self.logins.len() as u64 {
            let l = self.logins[id as usize].clone();
            Some(l)
        } else {
            None
        }
    }

    /// Insert if absent: the id of `login`, which is new only if no identity
    /// had the login. Every other identity keeps its id.
    pub fn sight(&mut self, login: &String) -> (id: u64)
        requires
            old(self).wf(),
        ensures
            final(self).wf(),
            final(self)@ == sighted(old(self)@, login@),
            id < final(self)@.len(),
            final(self)@[id as int] == login@,
    {
        match self.find(login) {
            Some(id) => id,
            None => {
                let id = self.logins.len() as u64;
                self.logins.push(login.clone());
                assert(self@ =~= old(self)@.push(login@));
                id
            },
        }
    }
}

/// Sighting logins only adds identities at the end: the ones that were there
/// keep their ids, and no login comes to stand twice.
pub proof fn lemma_sighted_all(dir: Seq<Seq<char>>, logins: Seq<Seq<char>>)
    requires
        dir.no_duplicates(),
    ensures
        sighted_all(dir, logins).no_duplicates(),
        dir.is_prefix_of(sighted_all(dir, logins)),
        all_known(sighted_all(dir, logins), logins),
    decreases logins.len(),
{
    if logins.len() > 0 {
        let rest = logins.drop_last();
        lemma_sighted_all(dir, rest);
        let mid = sighted_all(dir, rest);
        let end = sighted(mid, logins.last());
        assert(mid.is_prefix_of(end));
        assert forall|i: int| 0 <= i < logins.len() implies end.contains(#[trigger] logins[i]) by {
            if i < rest.len() {
                assert(rest[i] == logins[i]);
                assert(mid.contains(rest[i]));
                let j = choose|j: int| 0 <= j < mid.len() && mid[j] == rest[i];
                assert(end[j] == logins[i]);
            } else {
                if mid.contains(logins.last()) {
                } else {
                    assert(end[mid.len() as int] == logins[i]);
                }
            }
        }
    }
}

/// Validating a roster a second time adds no identity.
pub proof fn law_sighted_all_idempotent(dir: Seq<Seq<char>>, logins: Seq<Seq<char>>)
    requires
        dir.no_duplicates(),
    ensures
        sighted_all(sighted_all(dir, logins), logins) == sighted_all(dir, logins),
{
    lemma_sighted_all(dir, logins);
    lemma_known_stay(sighted_all(dir, logins), logins);
}

/// Where every login is known, sighting them changes nothing.
pub proof fn lemma_known_stay(dir: Seq<Seq<char>>, logins: Seq<Seq<char>>)
    requires
        all_known(dir, logins),
    ensures
        sighted_all(dir, logins) == dir,
    decreases logins.len(),
{
    if logins.len() > 0 {
        let rest = logins.drop_last();
        assert forall|i: int| 0 <= i < rest.len() implies dir.contains(#[trigger] rest[i]) by {
            assert(rest[i] == logins[i]);
        }
        lemma_known_stay(dir, rest);
        assert(dir.contains(logins[logins.len() - 1]));
    }
}

impl Team {
    /// Checks that every member has an identity: `Ok` if and only if each
    /// login is known, else the error names the first that is not.
    pub fn validate(&self, dir: &Directory) -> (r: Result<(), RosterError>)
        requires
            dir.wf(),
        ensures
            r is Ok <==> all_known(dir@, self.logins()),
            r matches Err(RosterError::UnknownLogin(l)) ==> exists|i: int|
                first_unknown(dir@, self.logins(), i) && l@ == self.logins()[i],
    {
        let members = self.member_logins();
        let mut i: usize = 0;
        while i < members.len()
            invariant
                i <= members@.len(),
                dir.wf(),
                members@.len() == self.logins().len(),
                forall|j: int| 0 <= j < members@.len() ==> (#[trigger] members@[j])@ == self.logins()[j],
                all_known(dir@, self.logins().take(i as int)),
            decreases members@.len() - i,
        {
            let login = members[i].to_owned();
            if dir.find(&login).is_none() {
                assert(first_unknown(dir@, self.logins(), i as int));
                assert(!dir@.contains(self.logins()[i as int]));
                return Err(RosterError::UnknownLogin(login));
            }
            assert forall|j: int| 0 <= j < i + 1 implies dir@.contains(
                #[trigger] self.logins().take(i + 1)[j],
            ) by {
                if j < i {
                    assert(self.logins().take(i as int)[j] == self.logins()[j]);
                }
            }
            i += 1;
        }
        assert(self.logins().take(i as int) =~= self.logins());
        Ok(())
    }

    /// Resolves the members to their internal ids, under the id `id` for the
    /// team. Where identities must exist, the directory stays as it is and the
    /// first unknown login is the error. Where they may be made, each unknown
    /// login gets an identity, and the call succeeds.
    pub fn resolve(&self, id: u64, dir: &mut Directory, mode: RosterMode) -> (r: Result<
        ResolvedTeam,
        RosterError,
    >)
        requires
            old(dir).wf(),
        ensures
            final(dir).wf(),
            old(dir)@.is_prefix_of(final(dir)@),
            mode == RosterMode::RequireExisting ==> final(dir)@ == old(dir)@,
            mode == RosterMode::RequireExisting ==> (r is Ok <==> all_known(
                old(dir)@,
                self.logins(),
            )),
            mode == RosterMode::InsertMissing ==> r is Ok && final(dir)@ == sighted_all(
                old(dir)@,
                self.logins(),
            ),
            r matches Ok(team) ==> team.id == id && resolves(
                final(dir)@,
                self.logins(),
                team.members@,
            ),
            r matches Err(RosterError::UnknownLogin(l)) ==> exists|i: int|
                first_unknown(old(dir)@, self.logins(), i) && l@ == self.logins()[i],
    {
        let members = self.member_logins();
        let mut ids: Vec<u64> = Vec::new();
        let mut i: usize = 0;
        while i < members.len()
            invariant
                i <= members@.len(),
                dir.wf(),
                members@.len() == self.logins().len(),
                forall|j: int| 0 <= j < members@.len() ==> (#[trigger] members@[j])@ == self.logins()[j],
                old(dir)@.is_prefix_of(dir@),
                mode == RosterMode::RequireExisting ==> dir@ == old(dir)@ && all_known(
                    old(dir)@,
                    self.logins().take(i as int),
                ),
                mode == RosterMode::InsertMissing ==> dir@ == sighted_all(
                    old(dir)@,
                    self.logins().take(i as int),
                ),
                resolves(dir@, self.logins().take(i as int), ids@),
            decreases members@.len() - i,
        {
            let login = members[i].to_owned();
            let ghost before = dir@;
            let ghost done = ids@;
            assert(self.logins().take(i + 1).drop_last() =~= self.logins().take(i as int));
            assert(self.logins().take(i + 1).last() == login@);
            let found = match mode {
                RosterMode::RequireExisting => dir.find(&login),
                RosterMode::InsertMissing => Some(dir.sight(&login)),
            };
            match found {
                Some(id) => {
                    ids.push(id);
                },
                None => {
                    assert(first_unknown(old(dir)@, self.logins(), i as int));
                    return Err(RosterError::UnknownLogin(login));
                },
            }
            proof {
                assert(before.is_prefix_of(dir@));
                assert forall|j: int| 0 <= j < ids@.len() implies (#[trigger] ids@[j]) < dir@.len()
                    && dir@[ids@[j] as int] == self.logins().take(i + 1)[j] by {
                    if j < i {
                        assert(ids@[j] == done[j]);
                        assert(before[done[j] as int] == self.logins().take(i as int)[j]);
                    }
                }
                if mode == RosterMode::RequireExisting {
                    assert forall|j: int| 0 <= j < i + 1 implies dir@.contains(
                        #[trigger] self.logins().take(i + 1)[j],
                    ) by {
                        if j < i {
                            assert(self.logins().take(i as int)[j] == self.logins()[j]);
                        }
                    }
                }
            }
            i += 1;
        }
        assert(self.logins().take(i as int) =~= self.logins());
        Ok(ResolvedTeam { id, members: ids })
    }
}

/// The directory after each team's logins were sighted, team after team.
pub open spec fn sighted_teams(dir: Seq<Seq<char>>, teams: Seq<Seq<Seq<char>>>) -> Seq<Seq<char>>
    decreases teams.len(),
{
    if teams.len() == 0 {
        dir
    } else {
        sighted_all(sighted_teams(dir, teams.drop_last()), teams.last())
    }
}

/// Every login of each of the teams has an identity.
pub open spec fn teams_known(dir: Seq<Seq<char>>, teams: Seq<Seq<Seq<char>>>) -> bool {
    forall|t: int| 0 <= t < teams.len() ==> all_known(dir, #[trigger] teams[t])
}

/// Validates the roster against the identities and resolves every team, the
/// team at place `t` of the configuration under the id `t`. Where identities
/// must exist, the roster passes if and only if every declared login is
/// known, and the error names the first unknown login of the first team that
/// has one. Where they may be made, the roster always passes.
pub fn validate_roster(cfg: &MscbotConfig, dir: &mut Directory, mode: RosterMode) -> (r: Result<
    Vec<ResolvedTeam>,
    RosterError,
>)
    requires
        old(dir).wf(),
    ensures
        final(dir).wf(),
        old(dir)@.is_prefix_of(final(dir)@),
        mode == RosterMode::RequireExisting ==> final(dir)@ == old(dir)@,
        mode == RosterMode::RequireExisting ==> (r is Ok <==> teams_known(
            old(dir)@,
            cfg.team_logins(),
        )),
        mode == RosterMode::InsertMissing ==> r is Ok,
        r is Ok && mode == RosterMode::InsertMissing ==> final(dir)@ == sighted_teams(
            old(dir)@,
            cfg.team_logins(),
        ),
        r matches Ok(roster) ==> roster@.len() == cfg.team_logins().len() && forall|t: int|
            0 <= t < roster@.len() ==> (#[trigger] roster@[t]).id == t && resolves(
                final(dir)@,
                cfg.team_logins()[t],
                roster@[t].members@,
            ),
        r matches Err(RosterError::UnknownLogin(l)) ==> exists|t: int, i: int|
            0 <= t < cfg.team_logins().len() && teams_known(old(dir)@, cfg.team_logins().take(t))
                && #[trigger] first_unknown(old(dir)@, cfg.team_logins()[t], i) && l@
                == cfg.team_logins()[t][i],
{
    let teams = cfg.teams();
    let mut roster: Vec<ResolvedTeam> = Vec::new();
    let mut t: usize = 0;
    while t < teams.len()
        invariant
            t <= teams@.len(),
            dir.wf(),
            teams@.len() == cfg.team_logins().len(),
            forall|u: int| 0 <= u < teams@.len() ==> (#[trigger] teams@[u]).1.logins() == cfg.team_logins()[u],
            old(dir)@.is_prefix_of(dir@),
            mode == RosterMode::RequireExisting ==> dir@ == old(dir)@ && teams_known(
                old(dir)@,
                cfg.team_logins().take(t as int),
            ),
            mode == RosterMode::InsertMissing ==> dir@ == sighted_teams(
                old(dir)@,
                cfg.team_logins().take(t as int),
            ),
            roster@.len() == t,
            forall|u: int|
                0 <= u < t ==> (#[trigger] roster@[u]).id == u && resolves(
                    dir@,
                    cfg.team_logins()[u],
                    roster@[u].members@,
                ),
        decreases teams@.len() - t,
    {
        let ghost before = dir@;
        let ghost done = roster@;
        assert(cfg.team_logins().take(t + 1).drop_last() =~= cfg.team_logins().take(t as int));
        assert(cfg.team_logins().take(t + 1).last() == cfg.team_logins()[t as int]);
        match teams[t].1.resolve(t as u64, dir, mode) {
            Ok(team) => {
                roster.push(team);
            },
            Err(why) => {
                return Err(why);
            },
        }
        proof {
            assert forall|u: int| 0 <= u < t + 1 implies (#[trigger] roster@[u]).id == u
                && resolves(dir@, cfg.team_logins()[u], roster@[u].members@) by {
                if u < t {
                    assert(roster@[u] == done[u]);
                    let ids = done[u].members@;
                    assert(resolves(before, cfg.team_logins()[u], ids));
                    assert forall|j: int| 0 <= j < ids.len() implies (#[trigger] ids[j])
                        < dir@.len() && dir@[ids[j] as int] == cfg.team_logins()[u][j] by {
                        assert(before[ids[j] as int] == cfg.team_logins()[u][j]);
                    }
                }
            }
            if mode == RosterMode::RequireExisting {
                assert forall|u: int| 0 <= u < t + 1 implies all_known(
                    old(dir)@,
                    #[trigger] cfg.team_logins().take(t + 1)[u],
                ) by {
                    if u < t {
                        assert(cfg.team_logins().take(t as int)[u] == cfg.team_logins()[u]);
                    }
                }
            }
        }
        t += 1;
    }
    assert(cfg.team_logins().take(t as int) =~= cfg.team_logins());
    Ok(roster)
}

} // verus!
