use std::cell::RefCell;
use std::collections::VecDeque;
use std::rc::Rc;

use botc::game::{Action, GameError, GrimIO, Grimoir, Info, Never, Note, PlayerId, Role, RoleId};

/// Answers the storyteller's prompts from a script, and records what players are told.
struct Script {
    players: VecDeque<PlayerId>,
    told: Rc<RefCell<Vec<(PlayerId, Info)>>>,
}

impl Script {
    fn new(players: &[PlayerId]) -> Script {
        Script { players: players.iter().copied().collect(), told: Rc::new(RefCell::new(Vec::new())) }
    }
}

impl GrimIO for Script {
    fn tell(&mut self, id: PlayerId, info: Info) {
        self.told.borrow_mut().push((id, info));
    }
    fn prompt_player(&mut self, id: PlayerId) -> PlayerId {
        self.players.pop_front().unwrap_or_else(|| panic!("no answer scripted for player {id}"))
    }
    fn prompt_player_option(&mut self, _id: PlayerId) -> Option<PlayerId> {
        None
    }
    fn prompt_tell(&mut self, _id: PlayerId) -> Option<(PlayerId, Info)> {
        None
    }
    fn win(&mut self, team: bool) -> Never {
        panic!("the game ended: {team}")
    }
}

fn grim(roles: Vec<Role>, answers: &[PlayerId]) -> Grimoir<Script> {
    Grimoir::new(roles, Some(3), Script::new(answers))
}

#[test]
fn first_night_without_an_imp_fails() {
    let mut g = grim(vec![Role::Chef, Role::Monk], &[]);
    assert_eq!(g.first_night(), Err(GameError::MissingRole(RoleId::Imp)));
    assert!(g.actions_taken().is_empty());
    assert!(g.table().iter().all(|p| p.is_alive()));
}

#[test]
fn first_night_without_a_role_to_bluff_fails() {
    let roles = vec![Role::Imp, Role::Poisoner, Role::Spy, Role::ScarletWoman, Role::Baron];
    let mut g = grim(roles, &[]);
    assert_eq!(g.first_night(), Err(GameError::NoFreeRole));
    assert!(g.actions_taken().is_empty());
}

#[test]
fn first_night_bluffs_are_free_and_distinct() {
    for seed in 0..30u64 {
        let roles = vec![Role::Imp, Role::Chef, Role::Saint];
        let mut g = Grimoir::new(roles, Some(seed), Script::new(&[]));
        assert_eq!(g.first_night(), Ok(()));
        let Action::ImpInfo(bluffs) = &g.actions_taken()[0] else { panic!() };
        let given: Vec<RoleId> = bluffs.iter().flatten().copied().collect();
        for (k, b) in given.iter().enumerate() {
            assert!(b.is_good());
            assert_ne!(*b, RoleId::Imp);
            assert!(!given[k + 1..].contains(b));
        }
        let first_none = bluffs.iter().position(|b| b.is_none()).unwrap_or(3);
        assert!(bluffs[first_none..].iter().all(|b| b.is_none()));
    }
}

#[test]
fn first_night_tells_everyone_their_role() {
    let roles = vec![Role::Imp, Role::Drunk { role: RoleId::Monk }, Role::Baron];
    let script = Script::new(&[]);
    let told = script.told.clone();
    let mut g = Grimoir::new(roles, Some(3), script);
    assert_eq!(g.first_night(), Ok(()));
    let told = told.borrow();
    assert!(told.iter().any(|(p, i)| *p == 1 && matches!(i, Info::Role(RoleId::Monk))));
    assert!(told.iter().any(|(p, i)| *p == 0 && matches!(i, Info::Role(RoleId::Imp))));
    assert!(told.iter().any(|(p, i)| *p == 2 && matches!(i, Info::Player(0))));
    assert!(told.iter().any(|(p, i)| *p == 0 && matches!(i, Info::Player(2))));
}

#[test]
fn first_night_talk_comes_in_order() {
    let roles = vec![Role::Imp, Role::Drunk { role: RoleId::Monk }, Role::Baron];
    let script = Script::new(&[]);
    let told = script.told.clone();
    let mut g = Grimoir::new(roles, Some(3), script);
    assert_eq!(g.first_night(), Ok(()));
    let told = told.borrow();
    assert!(8 <= told.len() && told.len() <= 11);
    for (k, (p, i)) in told.iter().take(3).enumerate() {
        assert_eq!(*p, k);
        assert!(matches!(i, Info::Night));
    }
    assert!(matches!(told[3], (0, Info::Role(RoleId::Imp))));
    assert!(matches!(told[4], (1, Info::Role(RoleId::Monk))));
    assert!(matches!(told[5], (2, Info::Role(RoleId::Baron))));
    assert!(matches!(told[6], (2, Info::Player(0))));
    assert!(matches!(told[7], (0, Info::Player(2))));
    for (p, i) in told.iter().skip(8) {
        assert_eq!(*p, 0);
        assert!(matches!(i, Info::Role(r) if !r.is_evil()));
    }
}

#[test]
fn sober_chef_is_told_the_pairs() {
    let script = Script::new(&[2]);
    let told = script.told.clone();
    let mut g = Grimoir::new(vec![Role::Imp, Role::Chef, Role::Poisoner], Some(3), script);
    assert_eq!(g.first_night(), Ok(()));
    let told = told.borrow();
    assert!(matches!(told[told.len() - 1], (1, Info::Number(1))));
}

#[test]
fn sober_chef_counts_pairs_on_the_first_night() {
    let mut g = grim(vec![Role::Imp, Role::Chef, Role::Poisoner], &[2]);
    assert_eq!(g.first_night(), Ok(()));
    let log = g.actions_taken();
    assert_eq!(log.len(), 3);
    assert!(matches!(log[0], Action::ImpInfo(_)));
    assert!(matches!(log[1], Action::Poisoner { target: 2 }));
    assert!(matches!(log[2], Action::Chef { pairs: 1 }));
    assert!(g.table()[2].has_note(Note::Poisoned));
}

#[test]
fn poisoned_chef_draws_below_the_evil_count() {
    let mut g = grim(vec![Role::Imp, Role::Chef, Role::Poisoner], &[1]);
    assert_eq!(g.first_night(), Ok(()));
    let log = g.actions_taken();
    assert!(matches!(log[1], Action::Poisoner { target: 1 }));
    assert!(matches!(log[2], Action::Chef { pairs: 0 }));
}

#[test]
fn poisoned_chef_stays_below_the_evil_count() {
    for seed in 0..20u64 {
        let roles = vec![Role::Imp, Role::Chef, Role::Poisoner, Role::Baron, Role::Monk];
        let mut g = Grimoir::new(roles, Some(seed), Script::new(&[1]));
        assert_eq!(g.first_night(), Ok(()));
        let Action::Chef { pairs } = g.actions_taken()[2] else { panic!() };
        assert!(pairs < 3);
    }
}

#[test]
fn poisoner_aiming_off_the_table_fails() {
    let mut g = grim(vec![Role::Imp, Role::Chef, Role::Poisoner], &[9]);
    assert_eq!(g.first_night(), Err(GameError::NoSuchPlayer(9)));
    let log = g.actions_taken();
    assert_eq!(log.len(), 2);
    assert!(matches!(log[1], Action::Poisoner { target: 9 }));
}

#[test]
fn poisoned_spy_is_unwritten() {
    let mut g = grim(vec![Role::Imp, Role::Spy, Role::Poisoner], &[1]);
    assert_eq!(g.first_night(), Err(GameError::Unwritten));
}

#[test]
fn poisoned_librarian_reading_cannot_be_logged() {
    let mut g = grim(vec![Role::Imp, Role::Librarian, Role::Poisoner], &[1]);
    assert_eq!(g.first_night(), Err(GameError::MismatchedReading));
}

#[test]
fn sober_librarian_without_outsiders_fails() {
    let mut g = grim(vec![Role::Imp, Role::Librarian], &[]);
    assert_eq!(g.first_night(), Err(GameError::NoCandidate));
}

#[test]
fn washerwoman_is_shown_a_townsfolk() {
    let mut g = grim(vec![Role::Imp, Role::WasherWoman, Role::Chef], &[]);
    assert_eq!(g.first_night(), Ok(()));
    let log = g.actions_taken();
    assert_eq!(log.len(), 3);
    let Action::WasherWoman { players, role } = &log[1] else { panic!("{:?}", log[1]) };
    assert!(players[0] < players[1]);
    assert!(players[1] < 3);
    assert!(*role == RoleId::WasherWoman || *role == RoleId::Chef);
    assert!(matches!(log[2], Action::Chef { pairs: 1 }));
}

#[test]
fn investigator_is_shown_a_minion_other_than_the_spy() {
    for seed in 0..10u64 {
        let roles = vec![Role::Spy, Role::Imp, Role::Investigator, Role::Baron, Role::Saint];
        let mut g = Grimoir::new(roles, Some(seed), Script::new(&[]));
        assert_eq!(g.first_night(), Ok(()));
        let log = g.actions_taken();
        let Action::Investigator { players, role } = &log[1] else { panic!("{:?}", log[1]) };
        assert_eq!(*role, RoleId::Baron);
        assert!(players.contains(&3));
    }
}

#[test]
fn empath_reads_on_the_first_night() {
    let mut g = grim(vec![Role::Imp, Role::Empath, Role::Poisoner], &[0]);
    assert_eq!(g.first_night(), Ok(()));
    assert!(matches!(g.actions_taken()[2], Action::Empath(1)));
}

#[test]
fn fortune_teller_asks_about_two_players() {
    let roles = vec![Role::Imp, Role::FortuneTeller { red_herring: 2 }, Role::Chef];
    let mut g = grim(roles, &[1, 1]);
    assert_eq!(g.first_night(), Ok(()));
    let log = g.actions_taken();
    assert!(matches!(log[2], Action::FortuneTeller { target: [1, 1], response: false }));

    let roles = vec![Role::Imp, Role::FortuneTeller { red_herring: 2 }, Role::Chef];
    let mut g = grim(roles, &[1, 2]);
    assert_eq!(g.first_night(), Ok(()));
    assert!(matches!(g.actions_taken()[2], Action::FortuneTeller { target: [1, 2], response: true }));

    let roles = vec![Role::Imp, Role::FortuneTeller { red_herring: 2 }, Role::Chef];
    let mut g = grim(roles, &[1, 7]);
    assert_eq!(g.first_night(), Err(GameError::NoSuchPlayer(7)));
}

#[test]
fn butler_keeps_the_chosen_master() {
    let roles = vec![Role::Imp, Role::Butler { butlered: None }, Role::Soldier];
    let mut g = grim(roles, &[2]);
    assert_eq!(g.first_night(), Ok(()));
    assert!(matches!(g.actions_taken()[1], Action::Butler(2)));
    assert!(matches!(g.table()[1].role(), Role::Butler { butlered: Some(2) }));
}

#[test]
fn spy_sees_the_grimoire() {
    let mut g = grim(vec![Role::Imp, Role::Spy, Role::Monk], &[]);
    assert_eq!(g.first_night(), Ok(()));
    let log = g.actions_taken();
    let Action::Spy(copy) = &log[1] else { panic!("{:?}", log[1]) };
    assert_eq!(copy.len(), 3);
    assert_eq!(copy[1].role_id(), RoleId::Spy);
    assert!(copy.iter().all(|p| p.is_alive()));
}

#[test]
fn imp_killing_itself_with_no_minion_leaves_no_demon() {
    let mut g = grim(vec![Role::Imp, Role::Chef], &[0]);
    assert_eq!(g.night(), Ok(()));
    let log = g.actions_taken();
    assert_eq!(log.len(), 1);
    assert!(matches!(log[0], Action::ImpKill(0)));
    assert!(!g.table()[0].is_alive());
    assert!(g.table()[0].has_note(Note::DiedTonight));
    assert_eq!(g.night(), Err(GameError::NoLivingDemon));
    assert!(!g.table()[0].is_alive());
}

#[test]
fn imp_killing_itself_passes_to_a_living_minion() {
    let mut g = grim(vec![Role::Imp, Role::Poisoner, Role::Chef], &[2, 0]);
    assert_eq!(g.night(), Ok(()));
    let log = g.actions_taken();
    assert_eq!(log.len(), 3);
    assert!(matches!(log[0], Action::Poisoner { target: 2 }));
    assert!(matches!(log[1], Action::ImpKill(0)));
    assert!(matches!(log[2], Action::ImpTransfer(1)));
    assert_eq!(g.table()[1].role_id(), RoleId::Imp);
    assert!(g.table()[1].is_alive());
    assert!(!g.table()[0].is_alive());
}

#[test]
fn the_new_imp_wakes_for_the_dead_one() {
    let mut g = grim(vec![Role::Imp, Role::Poisoner, Role::Soldier], &[2, 0, 2, 2]);
    assert_eq!(g.night(), Ok(()));
    assert_eq!(g.night(), Ok(()));
    let log = g.actions_taken();
    assert!(matches!(log[log.len() - 1], Action::ImpKill(2)));
    assert!(g.table()[2].is_alive());
}

#[test]
fn soldier_survives_the_imp() {
    let mut g = grim(vec![Role::Imp, Role::Soldier], &[1]);
    assert_eq!(g.night(), Ok(()));
    assert!(matches!(g.actions_taken()[0], Action::ImpKill(1)));
    assert!(g.table().iter().all(|p| p.is_alive()));
}

#[test]
fn mayor_deflects_the_kill() {
    for seed in 0..10u64 {
        let roles = vec![Role::Imp, Role::Mayor, Role::Soldier];
        let mut g = Grimoir::new(roles, Some(seed), Script::new(&[1]));
        assert_eq!(g.night(), Ok(()));
        let log = g.actions_taken();
        assert!(matches!(log[0], Action::ImpKill(1)));
        let Action::MayorDeflection(alt) = log[1] else { panic!("{:?}", log[1]) };
        assert!(alt == 0 || alt == 2);
        assert!(g.table()[1].is_alive());
        assert!(g.table()[2].is_alive());
        assert_eq!(g.table()[0].is_alive(), alt != 0);
    }
}

#[test]
fn imp_aiming_off_the_table_fails() {
    let mut g = grim(vec![Role::Imp, Role::Chef], &[5]);
    assert_eq!(g.night(), Err(GameError::NoSuchPlayer(5)));
    assert!(matches!(g.actions_taken()[0], Action::ImpKill(5)));
}

#[test]
fn monk_protects_and_the_protection_wears_off() {
    let mut g = grim(vec![Role::Imp, Role::Monk, Role::Chef, Role::Soldier], &[2, 3, 1, 3]);
    assert_eq!(g.night(), Ok(()));
    assert!(g.table()[2].has_note(Note::MonkProtected));
    assert_eq!(g.night(), Ok(()));
    assert!(!g.table()[2].has_note(Note::MonkProtected));
    assert!(g.table()[1].has_note(Note::MonkProtected));
    let mut g2 = grim(vec![Role::Imp, Role::Monk, Role::Chef, Role::Soldier], &[2, 2]);
    assert_eq!(g2.night(), Ok(()));
    assert!(g2.table()[2].is_alive());
    assert!(matches!(g2.actions_taken()[0], Action::Monk { protected: 2 }));
}

#[test]
fn monk_aiming_off_the_table_fails() {
    let mut g = grim(vec![Role::Imp, Role::Monk], &[7]);
    assert_eq!(g.night(), Err(GameError::NoSuchPlayer(7)));
}

#[test]
fn ravenskeeper_wakes_only_after_dying_tonight() {
    let mut g = grim(vec![Role::Imp, Role::RavensKeeper, Role::Soldier], &[2]);
    assert_eq!(g.night(), Err(GameError::NotDiedTonight));
}

#[test]
fn one_living_demon_remains_after_the_imp_dies() {
    for seed in 0..10u64 {
        let roles = vec![Role::Imp, Role::Poisoner, Role::ScarletWoman, Role::Chef];
        let mut g = Grimoir::new(roles, Some(seed), Script::new(&[3, 0]));
        assert_eq!(g.night(), Ok(()));
        let living_demons = g.table().iter().filter(|p| p.is_alive() && p.role_id().is_demon()).count();
        assert_eq!(living_demons, 1);
        assert!(!g.table()[0].is_alive());
    }
}

#[test]
fn mayor_deflecting_onto_another_player_is_unwritten() {
    let mut unwritten = 0;
    for seed in 0..20u64 {
        let roles = vec![Role::Imp, Role::Mayor, Role::Chef];
        let mut g = Grimoir::new(roles, Some(seed), Script::new(&[1]));
        match g.night() {
            Ok(()) => {
                assert!(matches!(g.actions_taken()[1], Action::MayorDeflection(0)));
                assert!(!g.table()[0].is_alive());
            }
            Err(e) => {
                assert_eq!(e, GameError::Unwritten);
                assert!(matches!(g.actions_taken()[1], Action::MayorDeflection(2)));
                assert!(!g.table()[2].is_alive());
                unwritten += 1;
            }
        }
    }
    assert!(unwritten > 0);
}
