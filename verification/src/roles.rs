use vstd::prelude::*;

verus! {

/// A seat at the table, counted from zero.
pub type PlayerId = usize;

/// The role that a player holds, together with the state that the role keeps.
#[derive(Clone, Debug, Copy)]
pub enum Role {
    // townsfolk
    WasherWoman,
    Librarian,
    Investigator,
    Chef,
    Empath,
    FortuneTeller { red_herring: PlayerId },
    Undertaker { last_exec: Option<RoleId> },
    Monk,
    RavensKeeper,
    Virgin { ability_used: bool },
    Slayer { ability_used: bool },
    Soldier,
    Mayor,
    // outsiders
    Butler { butlered: Option<PlayerId> },
    Drunk { role: RoleId },
    Recluse,
    Saint,
    // minions
    Poisoner,
    Spy,
    ScarletWoman,
    Baron,
    // demon
    Imp,
}

/// The name of a role, without the state that the role keeps.
#[derive(Clone, Copy, PartialEq, Eq, Structural, Debug)]
pub enum RoleId {
    WasherWoman,
    Librarian,
    Investigator,
    Chef,
    Empath,
    FortuneTeller,
    Undertaker,
    Monk,
    RavensKeeper,
    Virgin,
    Slayer,
    Soldier,
    Mayor,
    Butler,
    Drunk,
    Recluse,
    Saint,
    Poisoner,
    Spy,
    ScarletWoman,
    Baron,
    Imp,
}

impl Role {
    /// The name of the role.
    pub open spec fn spec_id(&self) -> RoleId {
        match self {
            Role::WasherWoman => RoleId::WasherWoman,
            Role::Librarian => RoleId::Librarian,
            Role::Investigator => RoleId::Investigator,
            Role::Chef => RoleId::Chef,
            Role::Empath => RoleId::Empath,
            Role::FortuneTeller { .. } => RoleId::FortuneTeller,
            Role::Undertaker { .. } => RoleId::Undertaker,
            Role::Monk => RoleId::Monk,
            Role::RavensKeeper => RoleId::RavensKeeper,
            Role::Virgin { .. } => RoleId::Virgin,
            Role::Slayer { .. } => RoleId::Slayer,
            Role::Soldier => RoleId::Soldier,
            Role::Mayor => RoleId::Mayor,
            Role::Butler { .. } => RoleId::Butler,
            Role::Drunk { .. } => RoleId::Drunk,
            Role::Recluse => RoleId::Recluse,
            Role::Saint => RoleId::Saint,
            Role::Poisoner => RoleId::Poisoner,
            Role::Spy => RoleId::Spy,
            Role::ScarletWoman => RoleId::ScarletWoman,
            Role::Baron => RoleId::Baron,
            Role::Imp => RoleId::Imp,
        }
    }

    /// Returns the name of the role.
    #[verifier::when_used_as_spec(spec_id)]
    pub fn id(&self) -> (r: RoleId)
        ensures
            r == self.spec_id(),
    {
        match self {
            Role::WasherWoman => RoleId::WasherWoman,
            Role::Librarian => RoleId::Librarian,
            Role::Investigator => RoleId::Investigator,
            Role::Chef => RoleId::Chef,
            Role::Empath => RoleId::Empath,
            Role::FortuneTeller { .. } => RoleId::FortuneTeller,
            Role::Undertaker { .. } => RoleId::Undertaker,
            Role::Monk => RoleId::Monk,
            Role::RavensKeeper => RoleId::RavensKeeper,
            Role::Virgin { .. } => RoleId::Virgin,
            Role::Slayer { .. } => RoleId::Slayer,
            Role::Soldier => RoleId::Soldier,
            Role::Mayor => RoleId::Mayor,
            Role::Butler { .. } => RoleId::Butler,
            Role::Drunk { .. } => RoleId::Drunk,
            Role::Recluse => RoleId::Recluse,
            Role::Saint => RoleId::Saint,
            Role::Poisoner => RoleId::Poisoner,
            Role::Spy => RoleId::Spy,
            Role::ScarletWoman => RoleId::ScarletWoman,
            Role::Baron => RoleId::Baron,
            Role::Imp => RoleId::Imp,
        }
    }
}

/// Every role name, in the order of the script.
pub open spec fn all_role_ids() -> Seq<RoleId> {
    seq![
        RoleId::WasherWoman,
        RoleId::Librarian,
        RoleId::Investigator,
        RoleId::Chef,
        RoleId::Empath,
        RoleId::FortuneTeller,
        RoleId::Undertaker,
        RoleId::Monk,
        RoleId::RavensKeeper,
        RoleId::Virgin,
        RoleId::Slayer,
        RoleId::Soldier,
        RoleId::Mayor,
        RoleId::Butler,
        RoleId::Drunk,
        RoleId::Recluse,
        RoleId::Saint,
        RoleId::Poisoner,
        RoleId::Spy,
        RoleId::ScarletWoman,
        RoleId::Baron,
        RoleId::Imp,
    ]
}

impl RoleId {
    pub open spec fn spec_is_townsfolk(self) -> bool {
        match self {
            RoleId::WasherWoman | RoleId::Librarian | RoleId::Investigator | RoleId::Chef
            | RoleId::Empath | RoleId::FortuneTeller | RoleId::Undertaker | RoleId::Monk
            | RoleId::RavensKeeper | RoleId::Virgin | RoleId::Slayer | RoleId::Soldier
            | RoleId::Mayor => true,
            _ => false,
        }
    }

    pub open spec fn spec_is_outsider(self) -> bool {
        match self {
            RoleId::Butler | RoleId::Drunk | RoleId::Recluse | RoleId::Saint => true,
            _ => false,
        }
    }

    pub open spec fn spec_is_minion(self) -> bool {
        match self {
            RoleId::Poisoner | RoleId::Spy | RoleId::ScarletWoman | RoleId::Baron => true,
            _ => false,
        }
    }

    pub open spec fn spec_is_demon(self) -> bool {
        self == RoleId::Imp
    }

    /// What `is_good` computes: whether the role is a townsfolk exactly when it is an outsider.
    pub open spec fn spec_is_good(self) -> bool {
        self.spec_is_townsfolk() == self.spec_is_outsider()
    }

    /// What `is_evil` computes: whether the role is an outsider exactly when it is a demon.
    pub open spec fn spec_is_evil(self) -> bool {
        self.spec_is_outsider() == self.spec_is_demon()
    }

    /// Every role name, in the order of the script.
    pub fn all() -> (r: Vec<RoleId>)
        ensures
            r@ == all_role_ids(),
    {
        let r = vec![
            RoleId::WasherWoman,
            RoleId::Librarian,
            RoleId::Investigator,
            RoleId::Chef,
            RoleId::Empath,
            RoleId::FortuneTeller,
            RoleId::Undertaker,
            RoleId::Monk,
            RoleId::RavensKeeper,
            RoleId::Virgin,
            RoleId::Slayer,
            RoleId::Soldier,
            RoleId::Mayor,
            RoleId::Butler,
            RoleId::Drunk,
            RoleId::Recluse,
            RoleId::Saint,
            RoleId::Poisoner,
            RoleId::Spy,
            RoleId::ScarletWoman,
            RoleId::Baron,
            RoleId::Imp,
        ];
        assert(r@ =~= all_role_ids());
        r
    }

    /// Whether the role is one of the thirteen townsfolk.
    #[verifier::when_used_as_spec(spec_is_townsfolk)]
    pub fn is_townsfolk(self) -> (r: bool)
        ensures
            r == self.spec_is_townsfolk(),
    {
        match self {
            RoleId::WasherWoman | RoleId::Librarian | RoleId::Investigator | RoleId::Chef
            | RoleId::Empath | RoleId::FortuneTeller | RoleId::Undertaker | RoleId::Monk
            | RoleId::RavensKeeper | RoleId::Virgin | RoleId::Slayer | RoleId::Soldier
            | RoleId::Mayor => true,
            _ => false,
        }
    }

    /// Whether the role is one of the four outsiders.
    #[verifier::when_used_as_spec(spec_is_outsider)]
    pub fn is_outsider(self) -> (r: bool)
        ensures
            r == self.spec_is_outsider(),
    {
        match self {
            RoleId::Butler | RoleId::Drunk | RoleId::Recluse | RoleId::Saint => true,
            _ => false,
        }
    }

    /// Whether the role is one of the four minions.
    #[verifier::when_used_as_spec(spec_is_minion)]
    pub fn is_minion(self) -> (r: bool)
        ensures
            r == self.spec_is_minion(),
    {
        match self {
            RoleId::Poisoner | RoleId::Spy | RoleId::ScarletWoman | RoleId::Baron => true,
            _ => false,
        }
    }

    /// Whether the role is the demon.
    #[verifier::when_used_as_spec(spec_is_demon)]
    pub fn is_demon(self) -> (r: bool)
        ensures
            r == (self == RoleId::Imp),
    {
        self == RoleId::Imp
    }

    /// Whether `is_townsfolk` and `is_outsider` agree on the role.
    #[verifier::when_used_as_spec(spec_is_good)]
    pub fn is_good(self) -> (r: bool)
        ensures
            r == (self.spec_is_townsfolk() == self.spec_is_outsider()),
    {
        self.is_townsfolk() == self.is_outsider()
    }

    /// Whether `is_outsider` and `is_demon` agree on the role.
    #[verifier::when_used_as_spec(spec_is_evil)]
    pub fn is_evil(self) -> (r: bool)
        ensures
            r == (self.spec_is_outsider() == self.spec_is_demon()),
    {
        self.is_outsider() == self.is_demon()
    }
}

/// Each role name belongs to exactly one of the four classes: townsfolk, outsider, minion, demon.
pub proof fn lemma_classes_partition(r: RoleId)
    ensures
        r.spec_is_townsfolk() || r.spec_is_outsider() || r.spec_is_minion() || r.spec_is_demon(),
        !(r.spec_is_townsfolk() && r.spec_is_outsider()),
        !(r.spec_is_townsfolk() && r.spec_is_minion()),
        !(r.spec_is_townsfolk() && r.spec_is_demon()),
        !(r.spec_is_outsider() && r.spec_is_minion()),
        !(r.spec_is_outsider() && r.spec_is_demon()),
        !(r.spec_is_minion() && r.spec_is_demon()),
{
}

/// A townsfolk or the demon is on exactly one side: `is_good` and `is_evil` disagree on it.
pub proof fn lemma_one_side(r: RoleId)
    requires
        r.spec_is_townsfolk() || r.spec_is_demon(),
    ensures
        r.spec_is_good() != r.spec_is_evil(),
{
}

/// The list of all role names holds every name exactly once.
pub proof fn lemma_all_lists_each_role_once(r: RoleId)
    ensures
        all_role_ids().contains(r),
        all_role_ids().no_duplicates(),
        all_role_ids().len() == 22,
{
    let s = all_role_ids();
    match r {
        RoleId::WasherWoman => assert(s[0] == r),
        RoleId::Librarian => assert(s[1] == r),
        RoleId::Investigator => assert(s[2] == r),
        RoleId::Chef => assert(s[3] == r),
        RoleId::Empath => assert(s[4] == r),
        RoleId::FortuneTeller => assert(s[5] == r),
        RoleId::Undertaker => assert(s[6] == r),
        RoleId::Monk => assert(s[7] == r),
        RoleId::RavensKeeper => assert(s[8] == r),
        RoleId::Virgin => assert(s[9] == r),
        RoleId::Slayer => assert(s[10] == r),
        RoleId::Soldier => assert(s[11] == r),
        RoleId::Mayor => assert(s[12] == r),
        RoleId::Butler => assert(s[13] == r),
        RoleId::Drunk => assert(s[14] == r),
        RoleId::Recluse => assert(s[15] == r),
        RoleId::Saint => assert(s[16] == r),
        RoleId::Poisoner => assert(s[17] == r),
        RoleId::Spy => assert(s[18] == r),
        RoleId::ScarletWoman => assert(s[19] == r),
        RoleId::Baron => assert(s[20] == r),
        RoleId::Imp => assert(s[21] == r),
    }
}

/// The script holds thirteen townsfolk, four outsiders, four minions and one demon.
pub proof fn lemma_class_sizes()
    ensures
        all_role_ids().filter(|r: RoleId| r.spec_is_townsfolk()).len() == 13,
        all_role_ids().filter(|r: RoleId| r.spec_is_outsider()).len() == 4,
        all_role_ids().filter(|r: RoleId| r.spec_is_minion()).len() == 4,
        all_role_ids().filter(|r: RoleId| r.spec_is_demon()).len() == 1,
{
    assert(all_role_ids().filter(|r: RoleId| r.spec_is_townsfolk()) =~= all_role_ids().take(13))
        by {
        reveal_with_fuel(Seq::filter, 23);
    }
    assert(all_role_ids().filter(|r: RoleId| r.spec_is_outsider()) =~= all_role_ids().subrange(
        13,
        17,
    )) by {
        reveal_with_fuel(Seq::filter, 23);
    }
    assert(all_role_ids().filter(|r: RoleId| r.spec_is_minion()) =~= all_role_ids().subrange(
        17,
        21,
    )) by {
        reveal_with_fuel(Seq::filter, 23);
    }
    assert(all_role_ids().filter(|r: RoleId| r.spec_is_demon()) =~= all_role_ids().subrange(21, 22))
        by {
        reveal_with_fuel(Seq::filter, 23);
    }
}

} // verus!
