use std::collections::BTreeMap;

use mscbot::consensus::ResolvedTeam;
use mscbot::feed::{normalise, normalise_page, RawEvent, RawKind};
use mscbot::ingest::{Event, EventKind};
use mscbot::order::comes_before;
use mscbot::store::MarkerKind;
use mscbot::roster::{validate_roster, Directory, RosterError, RosterMode};
use mscbot::teams::{FcpBehavior, MscbotConfig, Team, TeamLabel};

fn strings(items: &[&str]) -> Vec<String> {
    items.iter().map(|s| s.to_string()).collect()
}

fn test_setup() -> MscbotConfig {
    let mut cfg = MscbotConfig::new();
    cfg.set_behavior("rust-lang/alpha".to_string(), FcpBehavior { close: true, postpone: true });
    cfg.set_behavior("foobar/beta".to_string(), FcpBehavior { close: false, postpone: false });
    cfg.set_behavior("bazquux/gamma".to_string(), FcpBehavior { close: false, postpone: false });
    cfg.set_behavior("wibble/epsilon".to_string(), FcpBehavior { close: false, postpone: false });
    cfg.set_team(
        TeamLabel("justice-league".to_string()),
        Team::new(
            "Justice League of America".to_string(),
            "dc-comics/justice-league".to_string(),
            strings(&["superman", "wonderwoman", "aquaman", "batman", "theflash"]),
        ),
    );
    cfg.set_team(
        TeamLabel("T-avengers".to_string()),
        Team::new(
            "The Avengers".to_string(),
            "marvel/avengers".to_string(),
            strings(&["hulk", "thor", "thevision", "blackwidow", "spiderman", "captainamerica"]),
        ),
    );
    cfg
}

#[test]
fn setup_parser_correct() {
    let cfg = test_setup();

    // Labels are correct:
    assert_eq!(
        cfg.team_labels().iter().map(|tl| tl.0.clone()).collect::<Vec<_>>(),
        vec!["T-avengers", "justice-league"]
    );

    // Teams are correct:
    let map: BTreeMap<_, _> =
        cfg.teams().into_iter().map(|(k, v)| (k.0.clone(), v.clone())).collect();

    let avengers = map.get("T-avengers").unwrap();
    assert_eq!(
        avengers.member_logins(),
        vec!["hulk", "thor", "thevision", "blackwidow", "spiderman", "captainamerica"]
    );

    let jsa = map.get("justice-league").unwrap();
    assert_eq!(
        jsa.member_logins(),
        vec!["superman", "wonderwoman", "aquaman", "batman", "theflash"]
    );

    // Random non-existent team does not exist:
    assert!(map.get("random").is_none());

    // FFCP behavior correct:
    assert!(cfg.should_ffcp_auto_close("rust-lang/alpha"));
    assert!(cfg.should_ffcp_auto_postpone("rust-lang/alpha"));
    assert!(!cfg.should_ffcp_auto_close("foobar/beta"));
    assert!(!cfg.should_ffcp_auto_postpone("foobar/beta"));
    assert!(!cfg.should_ffcp_auto_close("bazquux/gamma"));
    assert!(!cfg.should_ffcp_auto_postpone("bazquux/gamma"));
    assert!(!cfg.should_ffcp_auto_close("wibble/epsilon"));
    assert!(!cfg.should_ffcp_auto_postpone("wibble/epsilon"));
    assert!(!cfg.should_ffcp_auto_close("random"));
    assert!(!cfg.should_ffcp_auto_postpone("random"));
}

#[test]
fn team_getters() {
    let cfg = test_setup();
    let teams = cfg.teams();
    assert_eq!(teams[0].1.ping(), "marvel/avengers");
    assert_eq!(teams[0].1.name(), "The Avengers");
    assert_eq!(teams[1].1.ping(), "dc-comics/justice-league");
}

#[test]
fn setting_a_key_again_replaces_it() {
    let mut cfg = test_setup();
    cfg.set_behavior("foobar/beta".to_string(), FcpBehavior { close: true, postpone: false });
    assert!(cfg.should_ffcp_auto_close("foobar/beta"));
    assert!(!cfg.should_ffcp_auto_postpone("foobar/beta"));
    assert!(cfg.should_ffcp_auto_close("rust-lang/alpha"));
    cfg.set_team(
        TeamLabel("T-avengers".to_string()),
        Team::new("A".to_string(), "a/a".to_string(), strings(&["hulk"])),
    );
    assert_eq!(cfg.team_labels().len(), 2);
    assert_eq!(cfg.team_labels()[0].0, "T-avengers");
    assert_eq!(cfg.teams()[0].1.member_logins(), vec!["hulk"]);
}

#[test]
fn directory_gives_each_login_one_id() {
    let mut dir = Directory::new();
    assert_eq!(dir.sight(&"alice".to_string()), 0);
    assert_eq!(dir.sight(&"bob".to_string()), 1);
    assert_eq!(dir.sight(&"alice".to_string()), 0);
    assert_eq!(dir.len(), 2);
    assert_eq!(dir.find(&"bob".to_string()), Some(1));
    assert_eq!(dir.find(&"carol".to_string()), None);
    assert_eq!(dir.login(1), Some("bob".to_string()));
    assert_eq!(dir.login(2), None);
}

#[test]
fn team_validate_names_the_first_unknown_login() {
    let cfg = test_setup();
    let mut dir = Directory::new();
    for login in ["superman", "wonderwoman", "batman", "theflash"] {
        dir.sight(&login.to_string());
    }
    let teams = cfg.teams();
    match teams[1].1.validate(&dir) {
        Err(RosterError::UnknownLogin(l)) => assert_eq!(l, "aquaman"),
        Ok(()) => panic!("aquaman is unknown"),
    }
    dir.sight(&"aquaman".to_string());
    assert!(teams[1].1.validate(&dir).is_ok());
    assert_eq!(dir.len(), 5);
}

#[test]
fn roster_requires_existing_identities() {
    let cfg = test_setup();
    let mut dir = Directory::new();
    dir.sight(&"hulk".to_string());
    match validate_roster(&cfg, &mut dir, RosterMode::RequireExisting) {
        Err(RosterError::UnknownLogin(l)) => assert_eq!(l, "thor"),
        Ok(_) => panic!("thor is unknown"),
    }
    assert_eq!(dir.len(), 1);
}

#[test]
fn roster_inserts_missing_identities() {
    let cfg = test_setup();
    let mut dir = Directory::new();
    dir.sight(&"batman".to_string());
    let roster: Vec<ResolvedTeam> =
        validate_roster(&cfg, &mut dir, RosterMode::InsertMissing).unwrap();
    assert_eq!(roster.len(), 2);
    assert_eq!(roster[0].id, 0);
    assert_eq!(roster[0].members, vec![1, 2, 3, 4, 5, 6]);
    assert_eq!(roster[1].id, 1);
    assert_eq!(roster[1].members, vec![7, 8, 9, 0, 10]);
    assert_eq!(dir.len(), 11);
    assert_eq!(dir.login(9), Some("aquaman".to_string()));

    // A second validation adds nothing, and now passes in the strict mode too.
    let again = validate_roster(&cfg, &mut dir, RosterMode::RequireExisting).unwrap();
    assert_eq!(again[1].members, vec![7, 8, 9, 0, 10]);
    assert_eq!(dir.len(), 11);
}

#[test]
fn keys_stand_in_rising_order() {
    let mut cfg = MscbotConfig::new();
    for repo in ["zeta/z", "alpha/a", "Zeta/z", "alpha/a", "alpha"] {
        cfg.set_behavior(repo.to_string(), FcpBehavior { close: true, postpone: false });
    }
    for label in ["T-lang", "T-compiler", "libs", "T-lang"] {
        cfg.set_team(
            TeamLabel(label.to_string()),
            Team::new(label.to_string(), label.to_string(), strings(&[label])),
        );
    }
    let labels: Vec<String> = cfg.team_labels().iter().map(|l| l.0.clone()).collect();
    assert_eq!(labels, vec!["T-compiler", "T-lang", "libs"]);
    let teams = cfg.teams();
    assert_eq!(teams[2].1.member_logins(), vec!["libs"]);
    assert!(cfg.should_ffcp_auto_close("alpha"));
    assert!(cfg.should_ffcp_auto_close("Zeta/z"));
    assert!(!cfg.should_ffcp_auto_close("alpha/"));
}

#[test]
fn strings_are_ordered_by_code_point() {
    assert!(comes_before("T-avengers", "justice-league"));
    assert!(!comes_before("justice-league", "T-avengers"));
    assert!(comes_before("a", "ab"));
    assert!(!comes_before("ab", "a"));
    assert!(!comes_before("a", "a"));
    assert!(comes_before("", "a"));
    assert!(!comes_before("", ""));
    assert!(comes_before("z", "\u{e9}"));
    assert!(comes_before("ab", "b"));
    for (a, b) in [("x", "y"), ("abc", "abd"), ("\u{10000}", "\u{ffff}"), ("~", "\u{80}")] {
        assert_eq!(comes_before(a, b), a < b);
        assert_eq!(comes_before(b, a), b < a);
    }
}

#[test]
fn events_are_brought_into_normal_form() {
    let cfg = test_setup();
    let mut dir = Directory::new();
    dir.sight(&"hulk".to_string());
    let raw = |actor: &str, kind: RawKind| RawEvent { proposal: 9, actor: actor.to_string(), at: 77, kind };
    let labelled = |label: &str| RawKind::Label { team: label.to_string(), bound: true };

    assert_eq!(cfg.team_id(&"justice-league".to_string()), Some(1));
    assert_eq!(cfg.team_id(&"T-avengers".to_string()), Some(0));
    assert_eq!(cfg.team_id(&"random".to_string()), None);

    // A label that is no team's: the event is left out and its actor is not sighted.
    assert_eq!(normalise(&raw("thor", labelled("random")), &cfg, &mut dir, 3), None);
    assert_eq!(dir.len(), 1);

    let page = vec![
        raw("thor", labelled("justice-league")),
        raw("loki", labelled("T-random")),
        raw("hulk", RawKind::SignOff { checked: true }),
        raw("thor", RawKind::Marker { kind: MarkerKind::Propose }),
        raw("odin", RawKind::Issue { closed: true }),
        raw("odin", RawKind::Concern { text: 4, open: false }),
    ];
    let (events, dropped) = normalise_page(&page, &cfg, &mut dir, 3);
    let ev = |actor: u64, kind: EventKind| Event { proposal: 9, actor, at: 77, kind };
    assert_eq!(
        events,
        vec![
            ev(1, EventKind::Label { team: 1, bound: true }),
            ev(0, EventKind::SignOff { checked: true }),
            ev(1, EventKind::Marker { kind: MarkerKind::Propose }),
            ev(2, EventKind::Issue { repo: 3, closed: true }),
            ev(2, EventKind::Concern { text: 4, open: false }),
        ]
    );
    assert_eq!(dropped, 1);
    assert_eq!(dir.len(), 3);
    assert_eq!(dir.find(&"loki".to_string()), None);

    // The same page again gives the same events and no new identity.
    let (again, _) = normalise_page(&page, &cfg, &mut dir, 3);
    assert_eq!(again, events);
    assert_eq!(dir.len(), 3);
}
