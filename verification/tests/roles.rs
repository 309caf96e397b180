use botc::game::{Role, RoleId};

fn count(pred: fn(RoleId) -> bool) -> usize {
    RoleId::all().into_iter().filter(|r| pred(*r)).count()
}

#[test]
fn all_lists_each_role_once() {
    let all = RoleId::all();
    assert_eq!(all.len(), 22);
    for (i, a) in all.iter().enumerate() {
        for b in all.iter().skip(i + 1) {
            assert_ne!(a, b);
        }
    }
    assert_eq!(all[0], RoleId::WasherWoman);
    assert_eq!(all[13], RoleId::Butler);
    assert_eq!(all[21], RoleId::Imp);
}

#[test]
fn classes_have_their_sizes() {
    assert_eq!(count(RoleId::is_townsfolk), 13);
    assert_eq!(count(RoleId::is_outsider), 4);
    assert_eq!(count(RoleId::is_minion), 4);
    assert_eq!(count(RoleId::is_demon), 1);
}

#[test]
fn every_role_has_exactly_one_class() {
    for r in RoleId::all() {
        let n = [r.is_townsfolk(), r.is_outsider(), r.is_minion(), r.is_demon()]
            .iter()
            .filter(|b| **b)
            .count();
        assert_eq!(n, 1, "{r:?}");
    }
}

#[test]
fn good_and_evil_compare_classes() {
    // is_good holds when is_townsfolk and is_outsider agree
    assert!(!RoleId::Chef.is_good());
    assert!(!RoleId::Saint.is_good());
    assert!(RoleId::Poisoner.is_good());
    assert!(RoleId::Imp.is_good());
    // is_evil holds when is_outsider and is_demon agree
    assert!(RoleId::Chef.is_evil());
    assert!(!RoleId::Saint.is_evil());
    assert!(RoleId::Baron.is_evil());
    assert!(!RoleId::Imp.is_evil());
    // the butler is neither, the poisoner both
    assert!(!RoleId::Butler.is_good() && !RoleId::Butler.is_evil());
    assert!(RoleId::Poisoner.is_good() && RoleId::Poisoner.is_evil());
}

#[test]
fn role_ids_name_their_roles() {
    assert_eq!(Role::FortuneTeller { red_herring: 4 }.id(), RoleId::FortuneTeller);
    assert_eq!(Role::Undertaker { last_exec: Some(RoleId::Imp) }.id(), RoleId::Undertaker);
    assert_eq!(Role::Drunk { role: RoleId::Chef }.id(), RoleId::Drunk);
    assert_eq!(Role::Slayer { ability_used: true }.id(), RoleId::Slayer);
    assert_eq!(Role::Imp.id(), RoleId::Imp);
    assert!(RoleId::Imp.is_demon());
    assert!(!RoleId::ScarletWoman.is_demon());
}
