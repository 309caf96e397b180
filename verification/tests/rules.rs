use botc::game::day::{pick_execution, tally};
use botc::game::rules::{chef_pairs, empath_count, fortune_teller_reading, lands_deflected_kill, lands_kill};
use botc::game::{GameError, Player, Role};

fn table(roles: &[Role]) -> Vec<Player> {
    roles.iter().map(|r| Player::seated(*r)).collect()
}

#[test]
fn registers_evil_follows_the_class_comparison() {
    assert!(Player::seated(Role::Recluse).registers_evil());
    assert!(Player::seated(Role::Poisoner).registers_evil());
    assert!(!Player::seated(Role::Spy).registers_evil());
    assert!(!Player::seated(Role::Imp).registers_evil());
    assert!(Player::seated(Role::Chef).registers_evil());
    assert!(!Player::seated(Role::Butler { butlered: None }).registers_evil());
    assert!(!Player::seated(Role::Saint).registers_evil());
}

#[test]
fn chef_counts_neighbouring_pairs() {
    let t = table(&[Role::Imp, Role::Chef, Role::Poisoner, Role::Spy]);
    assert_eq!(chef_pairs(&t), 1);
}

#[test]
fn chef_counts_the_pair_across_the_end_of_the_table() {
    let t = table(&[Role::Poisoner, Role::Saint, Role::Recluse]);
    assert_eq!(chef_pairs(&t), 1);
    let t = table(&[Role::Poisoner, Role::Recluse, Role::Baron]);
    assert_eq!(chef_pairs(&t), 3);
}

#[test]
fn chef_on_an_empty_or_single_table() {
    assert_eq!(chef_pairs(&Vec::new()), 0);
    assert_eq!(chef_pairs(&table(&[Role::Recluse])), 1);
    assert_eq!(chef_pairs(&table(&[Role::Saint])), 0);
}

#[test]
fn empath_looks_at_both_living_neighbours() {
    let t = table(&[Role::Imp, Role::Empath, Role::Poisoner, Role::Spy]);
    assert_eq!(empath_count(&t, 1), 1);
    assert_eq!(empath_count(&t, 0), 1);
    let t = table(&[Role::Recluse, Role::Empath, Role::Baron]);
    assert_eq!(empath_count(&t, 1), 2);
    let t = table(&[Role::Saint, Role::Empath, Role::Spy]);
    assert_eq!(empath_count(&t, 1), 0);
}

#[test]
fn empath_alone_sees_nobody() {
    let t = table(&[Role::Empath]);
    assert_eq!(empath_count(&t, 0), 0);
}

#[test]
fn empath_with_one_neighbour_counts_it_twice() {
    let t = table(&[Role::Empath, Role::Recluse]);
    assert_eq!(empath_count(&t, 0), 2);
}

#[test]
fn fortune_teller_readings() {
    let t = table(&[Role::Imp, Role::Chef, Role::Recluse, Role::Monk]);
    assert_eq!(fortune_teller_reading(&t, 3, 1, 3), Ok(true));
    assert_eq!(fortune_teller_reading(&t, 3, 1, 1), Ok(false));
    assert_eq!(fortune_teller_reading(&t, 3, 0, 1), Ok(true));
    assert_eq!(fortune_teller_reading(&t, 3, 1, 0), Ok(true));
    assert_eq!(fortune_teller_reading(&t, 3, 1, 2), Ok(true));
    assert_eq!(fortune_teller_reading(&t, 3, 2, 1), Ok(true));
}

#[test]
fn fortune_teller_reading_of_a_missing_seat() {
    let t = table(&[Role::Imp, Role::Chef, Role::Recluse, Role::Monk]);
    assert_eq!(fortune_teller_reading(&t, 3, 1, 9), Err(GameError::NoSuchPlayer(9)));
    assert_eq!(fortune_teller_reading(&t, 3, 9, 1), Err(GameError::NoSuchPlayer(9)));
    assert_eq!(fortune_teller_reading(&t, 3, 3, 9), Ok(true));
    assert_eq!(fortune_teller_reading(&t, 9, 9, 1), Ok(true));
    assert_eq!(fortune_teller_reading(&t, 3, 0, 9), Ok(true));
}

#[test]
fn kills_land_unless_protected() {
    assert!(lands_kill(&Player::seated(Role::Chef)));
    assert!(lands_kill(&Player::seated(Role::Imp)));
    assert!(!lands_kill(&Player::seated(Role::Soldier)));
    assert!(!lands_kill(&Player::seated(Role::Mayor)));
    assert!(lands_deflected_kill(&Player::seated(Role::Mayor)));
    assert!(!lands_deflected_kill(&Player::seated(Role::Soldier)));
    assert!(lands_deflected_kill(&Player::seated(Role::Imp)));
}

#[test]
fn tally_counts_votes_for() {
    let mut votes = [false; 15];
    assert_eq!(tally(&votes), 0);
    votes[0] = true;
    votes[7] = true;
    votes[14] = true;
    assert_eq!(tally(&votes), 3);
    assert_eq!(tally(&[true; 15]), 15);
}

#[test]
fn execution_goes_to_the_single_top_nominee() {
    let his = vec![(0, 3, 4), (1, 2, 5), (4, 6, 1)];
    assert_eq!(pick_execution(&his, 3), Some(2));
    assert_eq!(pick_execution(&his, 5), Some(2));
    assert_eq!(pick_execution(&his, 6), None);
}

#[test]
fn a_tie_executes_nobody() {
    let his = vec![(0, 3, 5), (1, 2, 5)];
    assert_eq!(pick_execution(&his, 3), None);
    let his = vec![(0, 3, 5), (1, 2, 5), (2, 1, 6)];
    assert_eq!(pick_execution(&his, 3), Some(1));
}

#[test]
fn no_nominations_execute_nobody() {
    assert_eq!(pick_execution(&Vec::new(), 0), None);
    assert_eq!(pick_execution(&vec![(0, 1, 0)], 0), Some(1));
}
