use std::cell::RefCell;
use std::collections::VecDeque;
use std::rc::Rc;

use botc::game::{Action, GameError, GrimIO, Grimoir, Info, Never, Note, PlayerId, Role, RoleId};

/// Answers the storyteller's prompts from scripts (no answer once a script runs out), and
/// records what players are told.
struct Table {
    players: VecDeque<PlayerId>,
    options: VecDeque<Option<PlayerId>>,
    talk: VecDeque<Option<(PlayerId, Info)>>,
    told: Rc<RefCell<Vec<(PlayerId, Info)>>>,
    asked: Rc<RefCell<Vec<PlayerId>>>,
}

impl GrimIO for Table {
    fn tell(&mut self, id: PlayerId, info: Info) {
        self.told.borrow_mut().push((id, info));
    }
    fn prompt_player(&mut self, id: PlayerId) -> PlayerId {
        self.players.pop_front().unwrap_or_else(|| panic!("no answer scripted for player {id}"))
    }
    fn prompt_player_option(&mut self, id: PlayerId) -> Option<PlayerId> {
        self.asked.borrow_mut().push(id);
        self.options.pop_front().flatten()
    }
    fn prompt_tell(&mut self, _id: PlayerId) -> Option<(PlayerId, Info)> {
        self.talk.pop_front().flatten()
    }
    fn win(&mut self, team: bool) -> Never {
        panic!("the game ended: {team}")
    }
}

fn table(players: &[PlayerId], options: &[Option<PlayerId>]) -> Table {
    Table {
        players: players.iter().copied().collect(),
        options: options.iter().copied().collect(),
        talk: VecDeque::new(),
        told: Rc::new(RefCell::new(Vec::new())),
        asked: Rc::new(RefCell::new(Vec::new())),
    }
}

fn grim(roles: Vec<Role>, options: &[Option<PlayerId>]) -> Grimoir<Table> {
    Grimoir::new(roles, Some(5), table(&[], options))
}

fn six() -> Vec<Role> {
    vec![
        Role::Imp,
        Role::Chef,
        Role::Undertaker { last_exec: None },
        Role::Soldier,
        Role::Butler { butlered: None },
        Role::Saint,
    ]
}

#[test]
fn day_on_an_empty_table_fails() {
    let mut g = grim(Vec::new(), &[]);
    assert_eq!(g.day(), Err(GameError::NoPlayers));
}

#[test]
fn quiet_day_changes_nothing() {
    let mut g = grim(six(), &[]);
    assert_eq!(g.day(), Ok(()));
    assert!(g.actions_taken().is_empty());
    assert!(g.table().iter().all(|p| p.is_alive() && p.ghost_vote()));
}

#[test]
fn quiet_day_asks_each_seat_to_claim_then_to_nominate() {
    let io = table(&[], &[]);
    let asked = io.asked.clone();
    let told = io.told.clone();
    let mut g = Grimoir::new(six(), Some(5), io);
    assert_eq!(g.day(), Ok(()));
    assert_eq!(*asked.borrow(), vec![0, 1, 2, 3, 4, 5, 0, 1, 2, 3, 4, 5]);
    let told = told.borrow();
    assert_eq!(told.len(), 6);
    assert!(told.iter().enumerate().all(|(k, (p, i))| *p == k && matches!(i, Info::Day)));
}

#[test]
fn the_call_for_nominations_skips_the_dead_and_stops_at_the_last_nominator() {
    let mut roles = six();
    roles.push(Role::Monk);
    // claims: none; call: seat 0 passes, seat 1 nominates seat 3; vote: no one;
    // call resumes at seat 2 and goes round to seat 0, then stops before seat 1.
    let mut options = vec![None; 7];
    options.push(None);
    options.push(Some(3));
    let io = table(&[], &options);
    let asked = io.asked.clone();
    let mut g = Grimoir::new(roles, Some(5), io);
    assert_eq!(g.day(), Ok(()));
    let asked = asked.borrow();
    let expected: Vec<PlayerId> = (0..7).chain([0, 1]).chain(0..7).chain([2, 3, 4, 5, 6, 0]).collect();
    assert_eq!(*asked, expected);
}

#[test]
fn talk_passes_messages_on() {
    let mut io = table(&[], &[]);
    io.talk.push_back(Some((3, Info::Number(4))));
    let told = io.told.clone();
    let mut g = Grimoir::new(six(), Some(5), io);
    assert_eq!(g.day(), Ok(()));
    let told = told.borrow();
    let k = told.iter().position(|(p, i)| *p == 3 && matches!(i, Info::Player(0))).unwrap();
    assert!(matches!(told[k + 1], (3, Info::Number(4))));
}

#[test]
fn talk_to_a_missing_seat_fails() {
    let mut io = table(&[], &[]);
    io.talk.push_back(Some((20, Info::Day)));
    let mut g = Grimoir::new(six(), Some(5), io);
    assert_eq!(g.day(), Err(GameError::NoSuchPlayer(20)));
}

#[test]
fn nominating_a_missing_seat_fails() {
    let mut opts = vec![None; 6];
    opts.push(Some(9));
    let mut g = grim(six(), &opts);
    assert_eq!(g.day(), Err(GameError::NoSuchPlayer(9)));
    assert!(matches!(g.actions_taken()[0], Action::Nomination(0, 9)));
}

#[test]
fn slayer_kills_the_imp_and_the_scarlet_woman_takes_over() {
    let roles = vec![
        Role::Imp,
        Role::Slayer { ability_used: false },
        Role::ScarletWoman,
        Role::Chef,
        Role::Monk,
        Role::Soldier,
    ];
    let mut g = grim(roles, &[None, Some(0)]);
    assert_eq!(g.day(), Ok(()));
    let log = g.actions_taken();
    assert_eq!(log.len(), 1);
    assert!(matches!(log[0], Action::Slay(1, 0)));
    assert!(!g.table()[0].is_alive());
    assert_eq!(g.table()[2].role_id(), RoleId::Imp);
    assert!(matches!(g.table()[1].role(), Role::Slayer { ability_used: true }));
    let living_demons = g.table().iter().filter(|p| p.is_alive() && p.role_id().is_demon()).count();
    assert_eq!(living_demons, 1);
}

#[test]
fn slayer_missing_spends_the_ability() {
    let roles = vec![Role::Imp, Role::Slayer { ability_used: false }, Role::Chef, Role::Monk, Role::Soldier];
    let mut opts = vec![None, Some(3), None, None, None];
    opts.extend([None; 5]);
    opts.extend([None, Some(0)]);
    let mut g = grim(roles, &opts);
    assert_eq!(g.day(), Ok(()));
    assert!(matches!(g.table()[1].role(), Role::Slayer { ability_used: true }));
    assert!(g.table().iter().all(|p| p.is_alive()));
    assert_eq!(g.day(), Ok(()));
    assert!(g.table()[0].is_alive());
    assert!(matches!(g.actions_taken()[1], Action::Slay(1, 0)));
}

#[test]
fn anyone_may_claim_to_slay() {
    let mut g = grim(six(), &[Some(0)]);
    assert_eq!(g.day(), Ok(()));
    assert!(matches!(g.actions_taken()[0], Action::Slay(0, 0)));
    assert!(g.table()[0].is_alive());
}

#[test]
fn virgin_executes_a_townsfolk_nominator() {
    let roles = vec![
        Role::Imp,
        Role::Virgin { ability_used: false },
        Role::Chef,
        Role::Monk,
        Role::Soldier,
        Role::Butler { butlered: None },
    ];
    let mut opts = vec![None; 6];
    opts.extend([None, None, Some(1)]);
    let mut g = grim(roles, &opts);
    assert_eq!(g.day(), Ok(()));
    let log = g.actions_taken();
    assert_eq!(log.len(), 1);
    assert!(matches!(log[0], Action::Nomination(2, 1)));
    assert!(!g.table()[2].is_alive());
    assert!(matches!(g.table()[1].role(), Role::Virgin { ability_used: true }));
}

#[test]
fn virgin_nominated_by_the_imp_only_spends_the_ability() {
    let roles = vec![
        Role::Imp,
        Role::Virgin { ability_used: false },
        Role::Chef,
        Role::Monk,
        Role::Soldier,
        Role::Butler { butlered: None },
    ];
    let mut opts = vec![None; 6];
    opts.push(Some(1));
    let mut g = grim(roles, &opts);
    assert_eq!(g.day(), Ok(()));
    let log = g.actions_taken();
    assert_eq!(log.len(), 2);
    assert!(matches!(log[0], Action::Nomination(0, 1)));
    let Action::Vote(votes) = log[1] else { panic!("{:?}", log[1]) };
    assert_eq!(votes, [false; 15]);
    assert!(g.table().iter().all(|p| p.is_alive()));
    assert!(matches!(g.table()[1].role(), Role::Virgin { ability_used: true }));
}

#[test]
fn vote_executes_and_the_undertaker_learns_the_role() {
    let mut opts = vec![None; 6];
    opts.extend([None, Some(4)]);
    opts.extend([Some(0), Some(0), Some(0), Some(0), None, None]);
    let mut g = Grimoir::new(six(), Some(5), table(&[3], &opts));
    assert_eq!(g.day(), Ok(()));
    let log = g.actions_taken();
    assert_eq!(log.len(), 2);
    assert!(matches!(log[0], Action::Nomination(1, 4)));
    let Action::Vote(votes) = log[1] else { panic!("{:?}", log[1]) };
    let mut expected = [false; 15];
    expected[..4].copy_from_slice(&[true; 4]);
    assert_eq!(votes, expected);
    assert!(!g.table()[4].is_alive());
    assert!(g.table()[4].ghost_vote());
    assert!(matches!(g.table()[2].role(), Role::Undertaker { last_exec: Some(RoleId::Butler) }));

    assert_eq!(g.night(), Ok(()));
    let log = g.actions_taken();
    assert!(matches!(log[2], Action::ImpKill(3)));
    assert!(matches!(log[3], Action::Undertaker(RoleId::Butler)));
    assert!(matches!(g.table()[2].role(), Role::Undertaker { last_exec: None }));
}

#[test]
fn a_dead_player_votes_once() {
    let mut opts = vec![None; 6];
    opts.extend([None, Some(4)]);
    opts.extend([Some(0), Some(0), Some(0), Some(0), None, None]);
    opts.extend([None, None, None, None, None]);
    opts.extend(vec![None; 6]);
    opts.extend([None, Some(5)]);
    opts.extend([None, None, None, None, Some(0), None]);
    let mut g = Grimoir::new(six(), Some(5), table(&[3], &opts));
    assert_eq!(g.day(), Ok(()));
    assert_eq!(g.night(), Ok(()));
    assert_eq!(g.day(), Ok(()));
    let log = g.actions_taken();
    let Action::Vote(votes) = log[log.len() - 1] else { panic!("{:?}", log[log.len() - 1]) };
    let mut expected = [false; 15];
    expected[4] = true;
    assert_eq!(votes, expected);
    assert!(!g.table()[4].ghost_vote());
    assert!(g.table()[5].is_alive());
    assert!(!g.table()[4].is_alive());
}

#[test]
fn a_tied_vote_executes_nobody() {
    let mut opts = vec![None; 6];
    opts.extend([None, Some(4)]);
    opts.extend([Some(0), Some(0), Some(0), None, None, None]);
    opts.push(Some(5));
    opts.extend([None, None, None, Some(0), Some(0), Some(0)]);
    let mut g = grim(six(), &opts);
    assert_eq!(g.day(), Ok(()));
    assert_eq!(g.actions_taken().len(), 4);
    assert!(g.table().iter().all(|p| p.is_alive()));
}

#[test]
fn too_few_votes_execute_nobody() {
    let mut opts = vec![None; 6];
    opts.extend([None, Some(4)]);
    opts.extend([Some(0), Some(0), None, None, None, None]);
    let mut g = grim(six(), &opts);
    assert_eq!(g.day(), Ok(()));
    assert!(g.table().iter().all(|p| p.is_alive()));
}

#[test]
fn mayor_does_not_win_on_an_execution_day() {
    let roles = vec![Role::Imp, Role::Mayor, Role::Chef, Role::Monk];
    let mut opts = vec![None; 4];
    opts.extend([None, Some(3)]);
    opts.extend([Some(0), Some(0), None, None]);
    let mut g = grim(roles, &opts);
    assert_eq!(g.day(), Ok(()));
    assert!(!g.table()[3].is_alive());
    assert!(g.table()[1].has_note(Note::ExecToday));
    assert_eq!(g.table().iter().filter(|p| p.is_alive()).count(), 3);
}

#[test]
fn a_vote_beyond_fifteen_seats_fails() {
    let roles = vec![Role::Chef; 16];
    let mut opts = vec![None; 16];
    opts.push(Some(1));
    opts.extend(vec![None; 15]);
    opts.push(Some(0));
    let mut g = grim(roles, &opts);
    assert_eq!(g.day(), Err(GameError::TooManyPlayers));
}

#[test]
fn the_log_grows_and_the_dead_stay_dead() {
    let mut opts = vec![None; 6];
    opts.extend([None, Some(4)]);
    opts.extend([Some(0), Some(0), Some(0), Some(0), None, None]);
    opts.extend([None, None, None, None, None]);
    opts.extend(vec![None; 6]);
    opts.extend([None, Some(5)]);
    opts.extend([None, None, None, None, Some(0), None]);
    let mut g = Grimoir::new(six(), Some(5), table(&[3, 3], &opts));
    let mut seen: Vec<String> = Vec::new();
    let mut dead: Vec<usize> = Vec::new();
    let mut spent: Vec<usize> = Vec::new();
    for step in 0..4 {
        let r = if step % 2 == 0 { g.day() } else { g.night() };
        assert_eq!(r, Ok(()));
        let log: Vec<String> = g.actions_taken().iter().map(|a| format!("{a:?}")).collect();
        assert!(log.starts_with(&seen));
        seen = log;
        assert_eq!(g.table().len(), 6);
        assert!(dead.iter().all(|&d| !g.table()[d].is_alive()));
        assert!(spent.iter().all(|&s| !g.table()[s].ghost_vote()));
        dead = (0..6).filter(|&i| !g.table()[i].is_alive()).collect();
        spent = (0..6).filter(|&i| !g.table()[i].ghost_vote()).collect();
    }
    assert_eq!(dead, vec![4]);
    assert_eq!(spent, vec![4]);
    assert_eq!(seen.len(), 7);
}

#[test]
fn slaying_one_of_two_living_demons_fails() {
    let roles = vec![Role::Imp, Role::Imp, Role::Slayer { ability_used: false }, Role::Chef];
    let mut g = grim(roles, &[None, None, Some(0)]);
    assert_eq!(g.day(), Err(GameError::DemonAlive));
    assert!(!g.table()[0].is_alive());
    assert!(g.table()[1].is_alive());
}
