use botc::game::{GrimIO, Grimoir, Info, Never, Note, PlayerId, Role, RoleId};

struct Silent;

impl GrimIO for Silent {
    fn tell(&mut self, _id: PlayerId, _info: Info) {}
    fn prompt_player(&mut self, _id: PlayerId) -> PlayerId {
        0
    }
    fn prompt_player_option(&mut self, _id: PlayerId) -> Option<PlayerId> {
        None
    }
    fn prompt_tell(&mut self, _id: PlayerId) -> Option<(PlayerId, Info)> {
        None
    }
    fn win(&mut self, team: bool) -> Never {
        panic!("the game ended: {team}")
    }
}

fn check_setup(roles: &[Role]) {
    assert_eq!(roles.len(), 15);
    let ids: Vec<RoleId> = roles.iter().map(|r| r.id()).collect();
    for (i, a) in ids.iter().enumerate() {
        for b in ids.iter().skip(i + 1) {
            assert_ne!(a, b);
        }
    }
    let baron = ids.contains(&RoleId::Baron);
    let count = |f: fn(RoleId) -> bool| ids.iter().filter(|r| f(**r)).count();
    assert_eq!(count(RoleId::is_demon), 1);
    assert!(ids.contains(&RoleId::Imp));
    assert_eq!(count(RoleId::is_minion), 3);
    assert_eq!(count(RoleId::is_outsider), if baron { 4 } else { 2 });
    assert_eq!(count(RoleId::is_townsfolk), if baron { 7 } else { 9 });
    for r in roles {
        match r {
            Role::FortuneTeller { red_herring } => {
                assert!(*red_herring < 15);
                assert!(ids[*red_herring].is_good());
                assert_ne!(ids[*red_herring], RoleId::FortuneTeller);
            }
            Role::Undertaker { last_exec } => assert!(last_exec.is_none()),
            Role::Virgin { ability_used } => assert!(!ability_used),
            Role::Slayer { ability_used } => assert!(!ability_used),
            Role::Butler { butlered } => assert!(butlered.is_none()),
            Role::Drunk { role } => {
                assert!(role.is_townsfolk());
                assert!(!ids.contains(role));
            }
            _ => {}
        }
    }
}

#[test]
fn gen_roles_makes_a_standard_setup() {
    for seed in 0..200u64 {
        check_setup(&Grimoir::<Silent>::gen_roles(Some(seed)));
    }
    check_setup(&Grimoir::<Silent>::gen_roles(None));
}

#[test]
fn gen_roles_without_seed_uses_seed_zero() {
    let a: Vec<RoleId> = Grimoir::<Silent>::gen_roles(None).iter().map(|r| r.id()).collect();
    let b: Vec<RoleId> = Grimoir::<Silent>::gen_roles(Some(0)).iter().map(|r| r.id()).collect();
    assert_eq!(a, b);
}

#[test]
fn gen_roles_sees_both_outsider_counts() {
    let mut with_baron = 0;
    let mut without = 0;
    for seed in 0..200u64 {
        let roles = Grimoir::<Silent>::gen_roles(Some(seed));
        if roles.iter().any(|r| r.id() == RoleId::Baron) {
            with_baron += 1;
        } else {
            without += 1;
        }
    }
    assert!(with_baron > 0);
    assert!(without > 0);
}

#[test]
fn new_seats_everyone_alive_and_unmarked() {
    let roles = vec![Role::Imp, Role::Chef, Role::Slayer { ability_used: false }];
    let g = Grimoir::new(roles, Some(7), Silent);
    assert!(g.actions_taken().is_empty());
    let table = g.table();
    assert_eq!(table.len(), 3);
    assert_eq!(table[0].role_id(), RoleId::Imp);
    assert_eq!(table[1].role_id(), RoleId::Chef);
    assert_eq!(table[2].role_id(), RoleId::Slayer);
    for p in table {
        assert!(p.is_alive());
        assert!(p.ghost_vote());
        assert!(!p.has_note(Note::Poisoned));
        assert!(!p.has_note(Note::DiedTonight));
    }
}

#[test]
fn first_picks_with_no_swapping_seat_in_draw_order() {
    let mut draws = vec![0, 0, 0, 0, 0, 0, 0, 0, 0, 0, 0, 0, 0, 0, 5];
    draws.extend([0; 10]);
    draws.extend([0, 0]);
    let roles = botc::game::setup::setup_from_draws(draws);
    let expected = vec![
        Role::Poisoner,
        Role::Spy,
        Role::ScarletWoman,
        Role::Butler { butlered: None },
        Role::Drunk { role: RoleId::Virgin },
        Role::WasherWoman,
        Role::Librarian,
        Role::Investigator,
        Role::Chef,
        Role::Empath,
        Role::FortuneTeller { red_herring: 0 },
        Role::Undertaker { last_exec: None },
        Role::Monk,
        Role::RavensKeeper,
        Role::Imp,
    ];
    assert_eq!(format!("{roles:?}"), format!("{expected:?}"));
    check_setup(&roles);
}

#[test]
fn the_baron_brings_four_outsiders_and_swaps_move_seats() {
    let draws = vec![
        3, 0, 0, // the baron, the poisoner, the spy
        0, 0, 0, 0, // four outsiders
        0, 0, 0, 0, 0, 0, 0, // seven townsfolk
        5, 0, 14, 1, 1, 1, 1, 1, 1, 1, 1, // five swaps: seats 0 and 14, then four that change nothing
        5, // the drunk believes itself the sixth spare townsfolk
        3, // the fortune teller's red herring is the fourth choice
    ];
    let roles = botc::game::setup::setup_from_draws(draws);
    let expected = vec![
        Role::Imp,
        Role::Poisoner,
        Role::Spy,
        Role::Butler { butlered: None },
        Role::Drunk { role: RoleId::Mayor },
        Role::Recluse,
        Role::Saint,
        Role::WasherWoman,
        Role::Librarian,
        Role::Investigator,
        Role::Chef,
        Role::Empath,
        Role::FortuneTeller { red_herring: 14 },
        Role::Undertaker { last_exec: None },
        Role::Baron,
    ];
    assert_eq!(format!("{roles:?}"), format!("{expected:?}"));
    check_setup(&roles);
}

#[test]
fn bluffs_stop_at_a_zero() {
    let free = vec![RoleId::Chef, RoleId::Monk, RoleId::Saint, RoleId::Mayor];
    let bluffs = botc::game::night::bluffs_from_draws(free.clone(), &vec![2, 1, 0]);
    assert_eq!(bluffs, [Some(RoleId::Saint), Some(RoleId::Monk), None]);
    let none = botc::game::night::bluffs_from_draws(free.clone(), &vec![0]);
    assert_eq!(none, [None, None, None]);
    let three = botc::game::night::bluffs_from_draws(free, &vec![3, 1, 1]);
    assert_eq!(three, [Some(RoleId::Mayor), Some(RoleId::Monk), Some(RoleId::Saint)]);
}
