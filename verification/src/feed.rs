//! The tracker's events as they arrive, with logins and labels as text, and
//! their normal form, in which identities and teams go by their ids.
use crate::ingest::{Event, EventKind};
use crate::roster::{sighted, Directory};
use crate::store::MarkerKind;
use crate::teams::{place, MscbotConfig};
use vstd::prelude::*;

verus! {

/// What an arriving event reports of its proposal.
#[derive(Debug, Clone)]
pub enum RawKind {
    Issue { closed: bool },
    Label { team: String, bound: bool },
    Marker { kind: MarkerKind },
    SignOff { checked: bool },
    Concern { text: u64, open: bool },
}

/// One event of the remote tracker, as it arrives.
#[derive(Debug, Clone)]
pub struct RawEvent {
    pub proposal: u64,
    pub actor: String,
    /// Seconds since the epoch.
    pub at: i64,
    pub kind: RawKind,
}

/// An event that puts on or takes off a label that is no team's cannot be
/// understood.
pub open spec fn understood(raw: RawEvent, labels: Seq<Seq<char>>) -> bool {
    match raw.kind {
        RawKind::Label { team, .. } => labels.contains(team@),
        _ => true,
    }
}

/// What the arriving event reports, in normal form.
pub open spec fn normal_kind(raw: RawEvent, labels: Seq<Seq<char>>, repo: u64) -> EventKind {
    match raw.kind {
        RawKind::Issue { closed } => EventKind::Issue { repo, closed },
        RawKind::Label { team, bound } => EventKind::Label {
            team: labels.index_of(team@) as u64,
            bound,
        },
        RawKind::Marker { kind } => EventKind::Marker { kind },
        RawKind::SignOff { checked } => EventKind::SignOff { checked },
        RawKind::Concern { text, open } => EventKind::Concern { text, open },
    }
}

/// The arriving event in normal form, where `dir` are the identities before it.
pub open spec fn normal(raw: RawEvent, dir: Seq<Seq<char>>, labels: Seq<Seq<char>>, repo: u64) -> Event {
    Event {
        proposal: raw.proposal,
        actor: sighted(dir, raw.actor@).index_of(raw.actor@) as u64,
        at: raw.at,
        kind: normal_kind(raw, labels, repo),
    }
}

/// The events of a page that are understood, in normal form and in order,
/// where `dir` are the identities before the page.
pub open spec fn normal_page(
    page: Seq<RawEvent>,
    dir: Seq<Seq<char>>,
    labels: Seq<Seq<char>>,
    repo: u64,
) -> Seq<Event>
    decreases page.len(),
{
    if page.len() == 0 {
        Seq::empty()
    } else {
        let before = normal_page(page.drop_last(), dir, labels, repo);
        if understood(page.last(), labels) {
            before.push(
                normal(page.last(), sighted_by(dir, page.drop_last(), labels), labels, repo),
            )
        } else {
            before
        }
    }
}

impl MscbotConfig {
    /// The id of the team with this label: the label's place among the labels.
    pub fn team_id(&self, label: &String) -> (r: Option<u64>)
        requires
            self.wf(),
        ensures
            r == match place(self.labels(), label@) {
                Some(i) => Some(i as u64),
                None => None,
            },
            r matches Some(i) ==> i < self.labels().len() && self.labels()[i as int] == label@,
    {
        let labels = self.team_labels();
        let mut i: usize = 0;
        while i < labels.len()
            invariant
                i <= labels@.len(),
                self.wf(),
                labels@.len() == self.labels().len(),
                forall|j: int| 0 <= j < labels@.len() ==> (#[trigger] labels@[j]).0@ == self.labels()[j],
                forall|j: int| 0 <= j < i ==> (#[trigger] self.labels()[j]) != label@,
            decreases labels@.len() - i,
        {
            if labels[i].0 == *label {
                proof {
                    self.lemma_keys();
                    crate::teams::lemma_place_unique(self.labels(), label@, i as int);
                }
                return Some(i as u64);
            }
            i += 1;
        }
        None
    }
}

/// Brings one arriving event into normal form. An event that cannot be
/// understood gives `None` and leaves the identities as they are. Otherwise
/// the actor is sighted, so that the login has an identity, and the event
/// names the actor and the team by their ids.
pub fn normalise(raw: &RawEvent, cfg: &MscbotConfig, dir: &mut Directory, repo: u64) -> (r: Option<
    Event,
>)
    requires
        old(dir).wf(),
        cfg.wf(),
    ensures
        final(dir).wf(),
        r is Some <==> understood(*raw, cfg.labels()),
        r is None ==> final(dir)@ == old(dir)@,
        r matches Some(e) ==> final(dir)@ == sighted(old(dir)@, raw.actor@) && e.actor
            < final(dir)@.len() && final(dir)@[e.actor as int] == raw.actor@ && e == normal(
            *raw,
            old(dir)@,
            cfg.labels(),
            repo,
        ),
{
    let kind = match &raw.kind {
        RawKind::Issue { closed } => EventKind::Issue { repo, closed: *closed },
        RawKind::Label { team, bound } => match cfg.team_id(team) {
            Some(id) => EventKind::Label { team: id, bound: *bound },
            None => {
                return None;
            },
        },
        RawKind::Marker { kind } => EventKind::Marker { kind: *kind },
        RawKind::SignOff { checked } => EventKind::SignOff { checked: *checked },
        RawKind::Concern { text, open } => EventKind::Concern { text: *text, open: *open },
    };
    let actor = dir.sight(&raw.actor);
    proof {
        dir.lemma_distinct();
        let after = dir@;
        assert(after.contains(raw.actor@));
        let j = after.index_of(raw.actor@);
        assert(after[j] == raw.actor@);
    }
    Some(Event { proposal: raw.proposal, actor, at: raw.at, kind })
}

/// The identities after a page arrived: the actor of each event that is
/// understood was sighted, in order.
pub open spec fn sighted_by(dir: Seq<Seq<char>>, page: Seq<RawEvent>, labels: Seq<Seq<char>>) -> Seq<
    Seq<char>,
>
    decreases page.len(),
{
    if page.len() == 0 {
        dir
    } else {
        let before = sighted_by(dir, page.drop_last(), labels);
        if understood(page.last(), labels) {
            sighted(before, page.last().actor@)
        } else {
            before
        }
    }
}

/// The actor of every event of the page that is understood has an identity.
pub open spec fn actors_known(dir: Seq<Seq<char>>, page: Seq<RawEvent>, labels: Seq<Seq<char>>) -> bool {
    forall|i: int|
        0 <= i < page.len() && understood(#[trigger] page[i], labels) ==> dir.contains(
            page[i].actor@,
        )
}

/// A page only adds identities at the end, and afterwards every actor of an
/// event that is understood has one.
pub proof fn lemma_sighted_by(dir: Seq<Seq<char>>, page: Seq<RawEvent>, labels: Seq<Seq<char>>)
    ensures
        dir.is_prefix_of(sighted_by(dir, page, labels)),
        actors_known(sighted_by(dir, page, labels), page, labels),
        dir.no_duplicates() ==> sighted_by(dir, page, labels).no_duplicates(),
    decreases page.len(),
{
    if page.len() > 0 {
        let rest = page.drop_last();
        lemma_sighted_by(dir, rest, labels);
        let mid = sighted_by(dir, rest, labels);
        let end = sighted_by(dir, page, labels);
        assert(mid.is_prefix_of(end));
        assert forall|i: int|
            0 <= i < page.len() && understood(#[trigger] page[i], labels) implies end.contains(
            page[i].actor@,
        ) by {
            let who = page[i].actor@;
            if i < rest.len() {
                assert(rest[i] == page[i]);
            }
            if mid.contains(who) {
                let j = choose|j: int| 0 <= j < mid.len() && mid[j] == who;
                assert(end[j] == who);
            } else {
                assert(end[mid.len() as int] == who);
            }
        }
    }
}

/// Where every actor is known, a page adds no identity.
pub proof fn lemma_known_actors(dir: Seq<Seq<char>>, page: Seq<RawEvent>, labels: Seq<Seq<char>>)
    requires
        actors_known(dir, page, labels),
    ensures
        sighted_by(dir, page, labels) == dir,
    decreases page.len(),
{
    if page.len() > 0 {
        let rest = page.drop_last();
        assert forall|i: int|
            0 <= i < rest.len() && understood(#[trigger] rest[i], labels) implies dir.contains(
            rest[i].actor@,
        ) by {
            assert(rest[i] == page[i]);
        }
        lemma_known_actors(dir, rest, labels);
        assert(understood(page[page.len() - 1], labels) ==> dir.contains(
            page[page.len() - 1].actor@,
        ));
    }
}

/// A page that arrives a second time adds no identity.
pub proof fn law_sighting_idempotent(
    dir: Seq<Seq<char>>,
    page: Seq<RawEvent>,
    labels: Seq<Seq<char>>,
)
    ensures
        sighted_by(sighted_by(dir, page, labels), page, labels) == sighted_by(dir, page, labels),
{
    lemma_sighted_by(dir, page, labels);
    lemma_known_actors(sighted_by(dir, page, labels), page, labels);
}

/// Identities that came later change no event: a page gives the same events
/// in normal form from any identities that begin with those it leaves.
pub proof fn lemma_normal_page_stable(
    dir: Seq<Seq<char>>,
    later: Seq<Seq<char>>,
    page: Seq<RawEvent>,
    labels: Seq<Seq<char>>,
    repo: u64,
)
    requires
        later.no_duplicates(),
        sighted_by(dir, page, labels).is_prefix_of(later),
    ensures
        normal_page(page, later, labels, repo) == normal_page(page, dir, labels, repo),
    decreases page.len(),
{
    if page.len() > 0 {
        let rest = page.drop_last();
        let raw = page.last();
        let mid = sighted_by(dir, rest, labels);
        let end = sighted_by(dir, page, labels);
        assert(mid.is_prefix_of(end));
        assert(mid.is_prefix_of(later));
        lemma_normal_page_stable(dir, later, rest, labels, repo);
        if understood(raw, labels) {
            lemma_sighted_by(dir, rest, labels);
            assert forall|i: int|
                0 <= i < rest.len() && understood(#[trigger] rest[i], labels) implies later.contains(
                rest[i].actor@,
            ) by {
                let who = rest[i].actor@;
                let j = choose|j: int| 0 <= j < mid.len() && mid[j] == who;
                assert(later[j] == who);
            }
            lemma_known_actors(later, rest, labels);
            let who = raw.actor@;
            if mid.contains(who) {
                let j = choose|j: int| 0 <= j < mid.len() && mid[j] == who;
                assert(end[j] == who);
            } else {
                assert(end[mid.len() as int] == who);
            }
            assert(end.contains(who));
            let k = end.index_of(who);
            assert(end[k] == who);
            assert(later[k] == who);
            assert(later.contains(who));
            let l = later.index_of(who);
            assert(later[l] == who);
            assert(l == k);
        }
    }
}

/// A page that arrives a second time gives the same events in normal form
/// as the first time.
pub proof fn law_normal_page_idempotent(
    dir: Seq<Seq<char>>,
    page: Seq<RawEvent>,
    labels: Seq<Seq<char>>,
    repo: u64,
)
    requires
        dir.no_duplicates(),
    ensures
        normal_page(page, sighted_by(dir, page, labels), labels, repo) == normal_page(
            page,
            dir,
            labels,
            repo,
        ),
{
    lemma_sighted_by(dir, page, labels);
    lemma_normal_page_stable(dir, sighted_by(dir, page, labels), page, labels, repo);
}

/// The number of events of a page that are understood.
pub open spec fn count_understood(page: Seq<RawEvent>, labels: Seq<Seq<char>>) -> nat
    decreases page.len(),
{
    if page.len() == 0 {
        0
    } else {
        count_understood(page.drop_last(), labels) + if understood(page.last(), labels) {
            1nat
        } else {
            0nat
        }
    }
}

/// Brings a page into normal form, event by event, in order: the events that
/// are understood, and how many were not and are left out.
pub fn normalise_page(
    page: &Vec<RawEvent>,
    cfg: &MscbotConfig,
    dir: &mut Directory,
    repo: u64,
) -> (r: (Vec<Event>, usize))
    requires
        old(dir).wf(),
        cfg.wf(),
    ensures
        final(dir).wf(),
        final(dir)@ == sighted_by(old(dir)@, page@, cfg.labels()),
        r.0@ == normal_page(page@, old(dir)@, cfg.labels(), repo),
        r.0@.len() == count_understood(page@, cfg.labels()),
        r.0@.len() + r.1 == page@.len(),
{
    let mut out: Vec<Event> = Vec::new();
    let mut dropped: usize = 0;
    let mut i: usize = 0;
    while i < page.len()
        invariant
            i <= page@.len(),
            dir.wf(),
            cfg.wf(),
            dir@ == sighted_by(old(dir)@, page@.take(i as int), cfg.labels()),
            out@ == normal_page(page@.take(i as int), old(dir)@, cfg.labels(), repo),
            out@.len() == count_understood(page@.take(i as int), cfg.labels()),
            out@.len() + dropped == i,
        decreases page@.len() - i,
    {
        assert(page@.take(i as int + 1).drop_last() =~= page@.take(i as int));
        match normalise(&page[i], cfg, dir, repo) {
            Some(e) => {
                out.push(e);
            },
            None => {
                dropped += 1;
            },
        }
        i += 1;
    }
    assert(page@.take(page@.len() as int) =~= page@);
    (out, dropped)
}

} // verus!
