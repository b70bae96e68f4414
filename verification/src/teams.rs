//! The team configuration: which teams there are, who is on them, and what
//! each repository allows the bot to do by itself.
use crate::order::{
    comes_before, lemma_irreflexive, lemma_rising_distinct, lemma_total, lemma_transitive, precedes,
    rising,
};
use vstd::prelude::*;

verus! {

/// The label that binds a proposal to a team.
#[derive(Debug, Clone)]
pub struct TeamLabel(pub String);

/// What the bot may do by itself in a repository. Both default to `false`.
#[derive(Debug, Clone, Copy, PartialEq, Eq, Structural)]
pub struct FcpBehavior {
    pub close: bool,
    pub postpone: bool,
}

/// A team: its name, the handle that pings it, and its members' logins.
#[derive(Debug, Clone)]
pub struct Team {
    name: String,
    ping: String,
    members: Vec<String>,
}

/// The configuration: behaviours by repository and teams by label, each key
/// at most once, the keys in rising order.
#[derive(Debug)]
pub struct MscbotConfig {
    fcp_behaviors: Vec<(String, FcpBehavior)>,
    teams: Vec<(TeamLabel, Team)>,
}

/// What a team is: its name, the handle that pings it, and its members'
/// logins in the order of the configuration.
pub ghost struct TeamView {
    pub title: Seq<char>,
    pub ping: Seq<char>,
    pub logins: Seq<Seq<char>>,
}

impl View for Team {
    type V = TeamView;

    closed spec fn view(&self) -> TeamView {
        TeamView {
            title: self.name@,
            ping: self.ping@,
            logins: self.members@.map_values(|s: String| s@),
        }
    }
}

impl Team {
    /// The members' logins, in the order of the configuration.
    pub open spec fn logins(&self) -> Seq<Seq<char>> {
        self@.logins
    }

    /// The handle that pings the team.
    pub open spec fn ping_handle(&self) -> Seq<char> {
        self@.ping
    }

    /// The team's name.
    pub open spec fn title(&self) -> Seq<char> {
        self@.title
    }

    /// A team of this name, handle and members.
    pub fn new(name: String, ping: String, members: Vec<String>) -> (t: Team)
        ensures
            t@ == (TeamView {
                title: name@,
                ping: ping@,
                logins: members@.map_values(|s: String| s@),
            }),
    {
        Team { name, ping, members }
    }

    /// The handle that pings the team.
    pub fn ping(&self) -> (r: &str)
        ensures
            r@ == self.ping_handle(),
    {
        self.ping.as_str()
    }

    /// The team's name.
    pub fn name(&self) -> (r: &str)
        ensures
            r@ == self.title(),
    {
        self.name.as_str()
    }

    /// The members' logins, in the order of the configuration.
    pub fn member_logins(&self) -> (r: Vec<&str>)
        ensures
            r@.len() == self.logins().len(),
            forall|j: int| 0 <= j < r@.len() ==> (#[trigger] r@[j])@ == self.logins()[j],
    {
        let mut out: Vec<&str> = Vec::new();
        let mut i: usize = 0;
        while i < self.members.len()
            invariant
                i <= self.members@.len(),
                out@.len() == i,
                forall|j: int| 0 <= j < i ==> (#[trigger] out@[j])@ == self.members@[j]@,
            decreases self.members@.len() - i,
        {
            out.push(self.members[i].as_str());
            i += 1;
        }
        out
    }
}

/// The place of `key` among `keys`, if it is there.
pub open spec fn place(keys: Seq<Seq<char>>, key: Seq<char>) -> Option<int> {
    if keys.contains(key) {
        Some(keys.index_of(key))
    } else {
        None
    }
}

/// What setting `key` to `val` makes of keys in rising order and what they
/// stand for: a key that was there keeps its place, a new one is put in.
pub open spec fn set_in<T>(
    keys: Seq<Seq<char>>,
    vals: Seq<T>,
    key: Seq<char>,
    val: T,
    keys_after: Seq<Seq<char>>,
    vals_after: Seq<T>,
) -> bool {
    match place(keys, key) {
        Some(i) => keys_after == keys && vals_after == vals.update(i, val),
        None => exists|i: int|
            0 <= i <= keys.len() && #[trigger] keys.insert(i, key) == keys_after && vals_after
                == vals.insert(i, val),
    }
}

/// The place that a key has after another was put in at `i`.
pub open spec fn moved(at: Option<int>, i: int) -> Option<int> {
    match at {
        Some(j) => Some(
            if j < i {
                j
            } else {
                j + 1
            },
        ),
        None => None,
    }
}

/// A key put in where the keys before it come before it, and the key at its
/// place neither is it nor comes before it, keeps the keys in rising order;
/// every other key is found one place on, if it stood at that place or after.
pub proof fn lemma_insert_rising(keys: Seq<Seq<char>>, key: Seq<char>, i: int)
    requires
        rising(keys),
        0 <= i <= keys.len(),
        forall|j: int| 0 <= j < i ==> precedes(#[trigger] keys[j], key),
        i < keys.len() ==> keys[i] != key && !precedes(keys[i], key),
    ensures
        rising(keys.insert(i, key)),
        !keys.contains(key),
        place(keys.insert(i, key), key) == Some(i),
        forall|other: Seq<char>|
            other != key ==> #[trigger] place(keys.insert(i, key), other) == moved(
                place(keys, other),
                i,
            ),
{
    let after = keys.insert(i, key);
    assert forall|j: int| i <= j < keys.len() implies precedes(key, #[trigger] keys[j]) by {
        lemma_total(keys[i], key);
        if i < j {
            lemma_transitive(key, keys[i], keys[j]);
        }
    }
    lemma_irreflexive(key);
    assert forall|x: int, y: int| 0 <= x < y < after.len() implies precedes(
        #[trigger] after[x],
        #[trigger] after[y],
    ) by {
        if y < i {
            assert(precedes(keys[x], keys[y]));
        } else if y == i {
            assert(precedes(keys[x], key));
        } else if x < i {
            assert(precedes(keys[x], keys[y - 1]));
        } else if x == i {
            assert(precedes(key, keys[y - 1]));
        } else {
            assert(precedes(keys[x - 1], keys[y - 1]));
        }
    }
    lemma_rising_distinct(keys);
    lemma_rising_distinct(after);
    if keys.contains(key) {
        let j = keys.index_of(key);
        assert(keys[j] == key);
        if j < i {
            assert(precedes(keys[j], key));
        } else {
            assert(precedes(key, keys[j]));
        }
    }
    assert(after[i] == key);
    lemma_place_unique(after, key, i);
    assert forall|other: Seq<char>| other != key implies #[trigger] place(after, other) == moved(
        place(keys, other),
        i,
    ) by {
        if keys.contains(other) {
            let j = keys.index_of(other);
            assert(keys[j] == other);
            lemma_place_unique(keys, other, j);
            if j < i {
                assert(after[j] == other);
                lemma_place_unique(after, other, j);
            } else {
                assert(after[j + 1] == other);
                lemma_place_unique(after, other, j + 1);
            }
        } else if after.contains(other) {
            let j = after.index_of(other);
            assert(after[j] == other);
            if j < i {
                assert(keys[j] == other);
            } else {
                assert(keys[j - 1] == other);
            }
        }
    }
}

impl MscbotConfig {
    /// The team labels, in rising order.
    pub closed spec fn labels(&self) -> Seq<Seq<char>> {
        self.teams@.map_values(|p: (TeamLabel, Team)| p.0.0@)
    }

    /// The teams, in the order of `labels`.
    pub closed spec fn team_views(&self) -> Seq<TeamView> {
        self.teams@.map_values(|p: (TeamLabel, Team)| p.1@)
    }

    /// The members' logins of each team, in the order of `labels`.
    pub open spec fn team_logins(&self) -> Seq<Seq<Seq<char>>> {
        self.team_views().map_values(|t: TeamView| t.logins)
    }

    /// The repositories that have a behaviour, in rising order.
    pub closed spec fn repos(&self) -> Seq<Seq<char>> {
        self.fcp_behaviors@.map_values(|p: (String, FcpBehavior)| p.0@)
    }

    /// The behaviour of each repository, in the order of `repos`.
    pub closed spec fn behaviors(&self) -> Seq<FcpBehavior> {
        self.fcp_behaviors@.map_values(|p: (String, FcpBehavior)| p.1)
    }

    /// The behaviour of `repo`: what was set for it, else neither allowed.
    pub open spec fn behavior(&self, repo: Seq<char>) -> FcpBehavior {
        match place(self.repos(), repo) {
            Some(i) => self.behaviors()[i],
            None => FcpBehavior { close: false, postpone: false },
        }
    }

    /// The labels stand in rising order, and so do the repositories: none
    /// stands twice.
    pub closed spec fn wf(&self) -> bool {
        &&& rising(self.labels())
        &&& rising(self.repos())
    }

    /// What the invariant says of the keys.
    pub proof fn lemma_keys(&self)
        requires
            self.wf(),
        ensures
            rising(self.labels()),
            rising(self.repos()),
            self.labels().no_duplicates(),
            self.repos().no_duplicates(),
    {
        lemma_rising_distinct(self.labels());
        lemma_rising_distinct(self.repos());
    }

    /// The configuration with no team and no behaviour.
    pub fn new() -> (c: MscbotConfig)
        ensures
            c.wf(),
            c.labels() == Seq::<Seq<char>>::empty(),
            c.team_views() == Seq::<TeamView>::empty(),
            c.repos() == Seq::<Seq<char>>::empty(),
            c.behaviors() == Seq::<FcpBehavior>::empty(),
    {
        let c = MscbotConfig { fcp_behaviors: Vec::new(), teams: Vec::new() };
        assert(c.labels() =~= Seq::<Seq<char>>::empty());
        assert(c.team_views() =~= Seq::<TeamView>::empty());
        assert(c.repos() =~= Seq::<Seq<char>>::empty());
        assert(c.behaviors() =~= Seq::<FcpBehavior>::empty());
        c
    }

    /// Sets the behaviour of a repository: one set earlier is replaced, a new
    /// one is put in where the repositories stay in rising order.
    pub fn set_behavior(&mut self, repo: String, behavior: FcpBehavior)
        requires
            old(self).wf(),
        ensures
            final(self).wf(),
            set_in(
                old(self).repos(),
                old(self).behaviors(),
                repo@,
                behavior,
                final(self).repos(),
                final(self).behaviors(),
            ),
            final(self).labels() == old(self).labels(),
            final(self).team_views() == old(self).team_views(),
            final(self).behavior(repo@) == behavior,
            forall|other: Seq<char>|
                other != repo@ ==> final(self).behavior(other) == old(self).behavior(other),
    {
        let ghost keys = self.repos();
        let ghost vals = self.behaviors();
        let mut i: usize = 0;
        let mut searching = true;
        while searching && i < self.fcp_behaviors.len()
            invariant
                i <= self.fcp_behaviors@.len(),
                *self == *old(self),
                self.wf(),
                keys == self.repos(),
                vals == self.behaviors(),
                forall|j: int| 0 <= j < i ==> precedes(#[trigger] keys[j], repo@),
                !searching ==> i < keys.len() && !precedes(keys[i as int], repo@),
            decreases self.fcp_behaviors@.len() - i + if searching { 1int } else { 0int },
        {
            assert(keys[i as int] == self.fcp_behaviors@[i as int].0@);
            if comes_before(self.fcp_behaviors[i].0.as_str(), repo.as_str()) {
                i += 1;
            } else {
                searching = false;
            }
        }
        proof {
            lemma_rising_distinct(keys);
        }
        if i < self.fcp_behaviors.len() {
            assert(keys[i as int] == self.fcp_behaviors@[i as int].0@);
            if self.fcp_behaviors[i].0 == repo {
                self.fcp_behaviors.set(i, (repo, behavior));
                proof {
                    lemma_place_unique(keys, repo@, i as int);
                    assert(self.repos() =~= keys);
                    assert(self.behaviors() =~= vals.update(i as int, behavior));
                    assert forall|other: Seq<char>| other != repo@ implies self.behavior(other)
                        == old(self).behavior(other) by {
                        if keys.contains(other) {
                            assert(keys.index_of(other) != i);
                        }
                    }
                }
                return ;
            }
        }
        self.fcp_behaviors.insert(i, (repo, behavior));
        proof {
            lemma_insert_rising(keys, repo@, i as int);
            assert(self.repos() =~= keys.insert(i as int, repo@));
            assert(self.behaviors() =~= vals.insert(i as int, behavior));
            assert forall|other: Seq<char>| other != repo@ implies self.behavior(other)
                == old(self).behavior(other) by {
                assert(place(self.repos(), other) == moved(place(keys, other), i as int));
                if keys.contains(other) {
                    let j = keys.index_of(other);
                    assert(0 <= j < keys.len());
                }
            }
        }
    }

    /// Sets the team of a label: one set earlier is replaced, a new one is
    /// put in where the labels stay in rising order.
    pub fn set_team(&mut self, label: TeamLabel, team: Team)
        requires
            old(self).wf(),
        ensures
            final(self).wf(),
            set_in(
                old(self).labels(),
                old(self).team_views(),
                label.0@,
                team@,
                final(self).labels(),
                final(self).team_views(),
            ),
            final(self).repos() == old(self).repos(),
            final(self).behaviors() == old(self).behaviors(),
    {
        let ghost keys = self.labels();
        let ghost vals = self.team_views();
        let ghost key = label.0@;
        let ghost val = team@;
        let mut i: usize = 0;
        let mut searching = true;
        while searching && i < self.teams.len()
            invariant
                i <= self.teams@.len(),
                *self == *old(self),
                self.wf(),
                keys == self.labels(),
                vals == self.team_views(),
                key == label.0@,
                forall|j: int| 0 <= j < i ==> precedes(#[trigger] keys[j], key),
                !searching ==> i < keys.len() && !precedes(keys[i as int], key),
            decreases self.teams@.len() - i + if searching { 1int } else { 0int },
        {
            assert(keys[i as int] == self.teams@[i as int].0.0@);
            if comes_before(self.teams[i].0.0.as_str(), label.0.as_str()) {
                i += 1;
            } else {
                searching = false;
            }
        }
        proof {
            lemma_rising_distinct(keys);
        }
        if i < self.teams.len() {
            assert(keys[i as int] == self.teams@[i as int].0.0@);
            if self.teams[i].0.0 == label.0 {
                self.teams.set(i, (label, team));
                proof {
                    lemma_place_unique(keys, key, i as int);
                    assert(self.labels() =~= keys);
                    assert(self.team_views() =~= vals.update(i as int, val));
                }
                return ;
            }
        }
        self.teams.insert(i, (label, team));
        proof {
            lemma_insert_rising(keys, key, i as int);
            assert(self.labels() =~= keys.insert(i as int, key));
            assert(self.team_views() =~= vals.insert(i as int, val));
        }
    }

    /// The team labels, in rising order.
    pub fn team_labels(&self) -> (r: Vec<&TeamLabel>)
        ensures
            r@.len() == self.labels().len(),
            forall|j: int| 0 <= j < r@.len() ==> (#[trigger] r@[j]).0@ == self.labels()[j],
    {
        let mut out: Vec<&TeamLabel> = Vec::new();
        let mut i: usize = 0;
        while i < self.teams.len()
            invariant
                i <= self.teams@.len(),
                out@.len() == i,
                forall|j: int| 0 <= j < i ==> (#[trigger] out@[j]).0@ == self.teams@[j].0.0@,
            decreases self.teams@.len() - i,
        {
            out.push(&self.teams[i].0);
            i += 1;
        }
        out
    }

    /// The (label, team) pairs, in the rising order of the labels.
    pub fn teams(&self) -> (r: Vec<(&TeamLabel, &Team)>)
        ensures
            r@.len() == self.labels().len(),
            r@.len() == self.team_views().len(),
            r@.len() == self.team_logins().len(),
            forall|j: int|
                0 <= j < r@.len() ==> (#[trigger] r@[j]).0.0@ == self.labels()[j] && r@[j].1@
                    == self.team_views()[j] && r@[j].1.logins() == self.team_logins()[j],
    {
        let mut out: Vec<(&TeamLabel, &Team)> = Vec::new();
        let mut i: usize = 0;
        while i < self.teams.len()
            invariant
                i <= self.teams@.len(),
                out@.len() == i,
                forall|j: int|
                    0 <= j < i ==> (#[trigger] out@[j]).0.0@ == self.teams@[j].0.0@ && out@[j].1@
                        == self.teams@[j].1@,
            decreases self.teams@.len() - i,
        {
            out.push((&self.teams[i].0, &self.teams[i].1));
            i += 1;
        }
        out
    }

    fn behavior_of(&self, repo: &str) -> (b: FcpBehavior)
        requires
            self.wf(),
        ensures
            b == self.behavior(repo@),
    {
        let key = repo.to_owned();
        let mut i: usize = 0;
        while i < self.fcp_behaviors.len()
            invariant
                i <= self.fcp_behaviors@.len(),
                self.wf(),
                key@ == repo@,
                forall|j: int| 0 <= j < i ==> (#[trigger] self.repos()[j]) != repo@,
            decreases self.fcp_behaviors@.len() - i,
        {
            assert(self.repos()[i as int] == self.fcp_behaviors@[i as int].0@);
            if self.fcp_behaviors[i].0 == key {
                proof {
                    lemma_rising_distinct(self.repos());
                    lemma_place_unique(self.repos(), repo@, i as int);
                }
                return self.fcp_behaviors[i].1;
            }
            i += 1;
        }
        FcpBehavior { close: false, postpone: false }
    }

    /// Are we allowed to close issues by ourselves after the final comment
    /// period in this repository? Not unless the configuration says so.
    pub fn should_ffcp_auto_close(&self, repo: &str) -> (r: bool)
        requires
            self.wf(),
        ensures
            r == self.behavior(repo@).close,
    {
        self.behavior_of(repo).close
    }

    /// Are we allowed to postpone issues by ourselves after the final comment
    /// period in this repository? Not unless the configuration says so.
    pub fn should_ffcp_auto_postpone(&self, repo: &str) -> (r: bool)
        requires
            self.wf(),
        ensures
            r == self.behavior(repo@).postpone,
    {
        self.behavior_of(repo).postpone
    }
}

/// Among distinct keys, a key stands at one place only.
pub proof fn lemma_place_unique(keys: Seq<Seq<char>>, key: Seq<char>, i: int)
    requires
        keys.no_duplicates(),
        0 <= i < keys.len(),
        keys[i] == key,
    ensures
        keys.contains(key),
        keys.index_of(key) == i,
        place(keys, key) == Some(i),
{
    assert(keys.contains(key));
    let j = keys.index_of(key);
    assert(0 <= j < keys.len() && keys[j] == key);
}

} // verus!
