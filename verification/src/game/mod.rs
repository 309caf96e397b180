use vstd::prelude::*;

use crate::rng::{random_index, seeded_rng};
use self::day::game_won;
pub use crate::roles::{PlayerId, Role, RoleId};

pub mod day;
pub mod draws;
pub mod laws;
pub mod night;
pub mod rules;
pub mod setup;

verus! {

/// A mark that the storyteller leaves beside a player.
#[derive(Clone, Copy, Debug, PartialEq, Eq, Structural)]
pub enum Note {
    Poisoned,
    MonkProtected,
    DiedTonight,
    ExecToday,
}

/// A seat at the table: the role in it, whether its player lives, the marks beside it,
/// and whether a dead player still holds a vote.
#[derive(Clone, Debug)]
pub struct Player {
    role: Role,
    alive: bool,
    notes: Vec<Note>,
    ghost_vote: bool,
}

/// A player as the rules see it.
pub struct PlayerState {
    pub role: Role,
    pub alive: bool,
    pub notes: Seq<Note>,
    pub ghost_vote: bool,
}

impl PlayerState {
    /// The player as seated at the start of the game.
    pub open spec fn seated(role: Role) -> PlayerState {
        PlayerState { role, alive: true, notes: Seq::empty(), ghost_vote: true }
    }

    pub open spec fn id(self) -> RoleId {
        self.role.spec_id()
    }

    pub open spec fn has(self, note: Note) -> bool {
        self.notes.contains(note)
    }

    pub open spec fn noted(self, note: Note) -> PlayerState {
        PlayerState { notes: self.notes.push(note), ..self }
    }

    /// The player killed in the night: dead, and marked as died tonight.
    pub open spec fn killed_tonight(self) -> PlayerState {
        PlayerState { alive: false, notes: self.notes.push(Note::DiedTonight), ..self }
    }

    /// The player with the marks `a` and `b` taken away.
    pub open spec fn without(self, a: Note, b: Note) -> PlayerState {
        PlayerState { notes: notes_without(self.notes, a, b), ..self }
    }

    pub open spec fn with_role(self, role: Role) -> PlayerState {
        PlayerState { role, ..self }
    }

    pub open spec fn dead(self) -> PlayerState {
        PlayerState { alive: false, ..self }
    }

    /// Whether the player shows as evil to the chef and the empath: the recluse does,
    /// and every role that `is_evil` holds but the spy.
    pub open spec fn registers_evil(self) -> bool {
        self.id() == RoleId::Recluse || (self.id().spec_is_evil() && self.id() != RoleId::Spy)
    }
}

impl View for Player {
    type V = PlayerState;

    closed spec fn view(&self) -> PlayerState {
        PlayerState {
            role: self.role,
            alive: self.alive,
            notes: self.notes@,
            ghost_vote: self.ghost_vote,
        }
    }
}

impl Player {
    /// A player seated with `role`: alive, unmarked, holding their vote.
    pub fn seated(role: Role) -> (r: Player)
        ensures
            r@ == PlayerState::seated(role),
    {
        let p = Player { role, alive: true, notes: Vec::new(), ghost_vote: true };
        assert(p@ =~= PlayerState::seated(role));
        p
    }

    /// The role of the player.
    pub fn role(&self) -> (r: Role)
        ensures
            r == self@.role,
    {
        self.role
    }

    /// The name of the role of the player.
    pub fn role_id(&self) -> (r: RoleId)
        ensures
            r == self@.id(),
    {
        self.role.id()
    }

    /// Whether the player lives.
    pub fn is_alive(&self) -> (r: bool)
        ensures
            r == self@.alive,
    {
        self.alive
    }

    /// Whether the player, dead, still holds a ghost vote (a living player always does).
    pub fn ghost_vote(&self) -> (r: bool)
        ensures
            r == self@.ghost_vote,
    {
        self.ghost_vote
    }

    /// Whether the mark `note` stands beside the player.
    pub fn has_note(&self, note: Note) -> (r: bool)
        ensures
            r == self@.has(note),
    {
        let mut i: usize = 0;
        while i < self.notes.len()
            invariant
                i <= self.notes@.len(),
                forall|j: int| 0 <= j < i ==> self.notes@[j] != note,
            decreases self.notes@.len() - i,
        {
            if self.notes[i] == note {
                return true;
            }
            i = i + 1;
        }
        false
    }

    /// A copy of the player.
    pub fn duplicate(&self) -> (r: Player)
        ensures
            r@ == self@,
    {
        let notes = self.notes.clone();
        assert(notes@ =~= self.notes@);
        Player { role: self.role, alive: self.alive, notes, ghost_vote: self.ghost_vote }
    }
}

/// Copies every seat of the table.
pub fn duplicate_players(players: &Vec<Player>) -> (r: Vec<Player>)
    ensures
        r@.len() == players@.len(),
        forall|i: int| 0 <= i < players@.len() ==> #[trigger] r@[i]@ == players@[i]@,
{
    let mut r: Vec<Player> = Vec::new();
    let mut i: usize = 0;
    while i < players.len()
        invariant
            i <= players@.len(),
            r@.len() == i,
            forall|j: int| 0 <= j < i ==> #[trigger] r@[j]@ == players@[j]@,
        decreases players@.len() - i,
    {
        r.push(players[i].duplicate());
        i = i + 1;
    }
    r
}

/// What the storyteller did, in the order of the game: the log of the grimoire.
#[derive(Clone, Debug)]
pub enum Action {
    ImpInfo([Option<RoleId>; 3]),
    WasherWoman { players: [PlayerId; 2], role: RoleId },
    Librarian { players: [PlayerId; 2], role: RoleId },
    Investigator { players: [PlayerId; 2], role: RoleId },
    Chef { pairs: u32 },
    Poisoner { target: PlayerId },
    Monk { protected: PlayerId },
    ImpKill(PlayerId),
    ImpTransfer(PlayerId),
    RavensKeeper { target: PlayerId, response: RoleId },
    Empath(u32),
    FortuneTeller { target: [PlayerId; 2], response: bool },
    Butler(PlayerId),
    Undertaker(RoleId),
    Spy(Vec<Player>),
    MayorDeflection(PlayerId),
    Slay(usize, usize),
    Nomination(PlayerId, PlayerId),
    Vote([bool; 15]),
}

/// What the storyteller tells a player.
#[derive(Clone, Debug)]
pub enum Info {
    Number(u32),
    Bool(bool),
    Player(PlayerId),
    Role(RoleId),
    Grim(Vec<Player>),
    Slays(PlayerId, PlayerId),
    Day,
    Night,
}

impl Info {
    /// A copy of a piece of information other than a copy of the grimoire.
    fn copy_plain(&self) -> (r: Info)
        requires
            !(self is Grim),
        ensures
            r == *self,
    {
        match self {
            Info::Number(n) => Info::Number(*n),
            Info::Bool(b) => Info::Bool(*b),
            Info::Player(p) => Info::Player(*p),
            Info::Role(x) => Info::Role(*x),
            Info::Slays(a, b) => Info::Slays(*a, *b),
            Info::Day => Info::Day,
            _ => Info::Night,
        }
    }
}

/// A value that no code outside this crate can build and that this crate never builds:
/// a `win` that has one to return cannot return.
pub struct Never {
    unbuilt: (),
}

impl Never {
    #[verifier::type_invariant]
    spec fn never_built(self) -> bool {
        false
    }
}

impl Into<()> for Never {
    fn into(self) -> () {
        proof {
            use_type_invariant(&self);
        }
    }
}

/// The players' side of the table: what the storyteller tells them, and what they answer.
pub trait GrimIO {
    fn tell(&mut self, id: PlayerId, info: Info);

    fn prompt_player(&mut self, id: PlayerId) -> PlayerId;

    fn prompt_player_option(&mut self, id: PlayerId) -> Option<PlayerId>;

    fn prompt_tell(&mut self, id: PlayerId) -> Option<(PlayerId, Info)>;

    fn win(&mut self, team: bool) -> Never;
}

/// Why a step of the game could not be carried out.
#[derive(Clone, Copy, Debug, PartialEq, Eq, Structural)]
pub enum GameError {
    /// A player named by the table is not a seat of it.
    NoSuchPlayer(PlayerId),
    /// The role is needed in play and is not.
    MissingRole(RoleId),
    /// The rules pick a player, and no player may be picked.
    NoCandidate,
    /// The demon acts while dead, and no demon lives.
    NoLivingDemon,
    /// The ravenskeeper wakes without having died tonight.
    NotDiedTonight,
    /// A player acts drunk or poisoned without the poisoned mark.
    NotPoisoned,
    /// The demon is held dead while a demon lives.
    DemonAlive,
    /// The demon has no role left to bluff with.
    NoFreeRole,
    /// The drunk or poisoned chef has too few evil players to draw a number from.
    TooFewEvil,
    /// A drunk or poisoned reading drew a role that its log entry cannot hold.
    MismatchedReading,
    /// The table holds more seats than a vote can count.
    TooManyPlayers,
    /// The table has no seats.
    NoPlayers,
    /// The rules do not say what happens here.
    Unwritten,
}

/// Which players a random pick may land on.
#[derive(Clone, Copy, Debug)]
pub enum Pick {
    Any,
    Except(PlayerId),
    Townsfolk,
    Outsider,
    NonSpyMinion,
    LivingMinion,
    LivingNonMayor,
    LivingDemon,
}

impl Pick {
    /// Whether the pick may land on seat `i`, held by `p`.
    pub open spec fn admits(self, i: int, p: PlayerState) -> bool {
        match self {
            Pick::Any => true,
            Pick::Except(x) => i != x,
            Pick::Townsfolk => p.id().spec_is_townsfolk(),
            Pick::Outsider => p.id().spec_is_outsider(),
            Pick::NonSpyMinion => p.id().spec_is_minion() && p.id() != RoleId::Spy,
            Pick::LivingMinion => p.alive && p.id().spec_is_minion(),
            Pick::LivingNonMayor => p.alive && p.id() != RoleId::Mayor,
            Pick::LivingDemon => p.id().spec_is_demon() && p.alive,
        }
    }

    fn admits_exec(&self, i: usize, p: &Player) -> (r: bool)
        ensures
            r == self.admits(i as int, p@),
    {
        match self {
            Pick::Any => true,
            Pick::Except(x) => i != *x,
            Pick::Townsfolk => p.role.id().is_townsfolk(),
            Pick::Outsider => p.role.id().is_outsider(),
            Pick::NonSpyMinion => p.role.id().is_minion() && p.role.id() != RoleId::Spy,
            Pick::LivingMinion => p.alive && p.role.id().is_minion(),
            Pick::LivingNonMayor => p.alive && p.role.id() != RoleId::Mayor,
            Pick::LivingDemon => p.role.id().is_demon() && p.alive,
        }
    }
}

/// The marks of `notes` other than `a` and `b`, in order.
pub open spec fn notes_without(notes: Seq<Note>, a: Note, b: Note) -> Seq<Note> {
    notes.filter(|n: Note| n != a && n != b)
}

/// Whether seat `i` is the first seat whose role is named `role`.
pub open spec fn is_first_seat(players: Seq<PlayerState>, role: RoleId, i: int) -> bool {
    &&& 0 <= i < players.len()
    &&& players[i].id() == role
    &&& forall|j: int| 0 <= j < i ==> #[trigger] players[j].id() != role
}

/// Whether some seat holds the role named `role`.
pub open spec fn in_play(players: Seq<PlayerState>, role: RoleId) -> bool {
    exists|i: int| 0 <= i < players.len() && #[trigger] players[i].id() == role
}

/// The first seat whose role is named `role`, if any.
pub open spec fn first_seat(players: Seq<PlayerState>, role: RoleId) -> Option<int> {
    if in_play(players, role) {
        Some(choose|i: int| is_first_seat(players, role, i))
    } else {
        None
    }
}

/// One exchange between the storyteller and the players' side of the table.
#[derive(Clone, Debug)]
pub enum Exchange {
    /// The player is told something.
    Told(PlayerId, Info),
    /// The player is asked for a seat and names one.
    Named(PlayerId, PlayerId),
    /// The player is asked for a seat and may name one.
    MayName(PlayerId, Option<PlayerId>),
    /// The player is asked whom to tell what, and may answer.
    Talked(PlayerId, Option<(PlayerId, Info)>),
}

/// Telling every seat of a table of `n` seats `info`, in seat order.
pub open spec fn told_all(n: int, info: Info) -> Seq<Exchange> {
    Seq::new(n as nat, |i: int| Exchange::Told(i as PlayerId, info))
}

/// The storyteller's book: the log of what was done, the seats, the source of chance,
/// the players' side of the table, and the record of every exchange with it.
pub struct Grimoir<IO: GrimIO> {
    actions: Vec<Action>,
    players: Vec<Player>,
    rand: rand::rngs::SmallRng,
    io: IO,
    talk: Ghost<Seq<Exchange>>,
}

impl<IO: GrimIO> Grimoir<IO> {
    /// The log of what the storyteller did.
    pub closed spec fn actions(&self) -> Seq<Action> {
        self.actions@
    }

    /// Every exchange with the players, in order.
    pub closed spec fn talk(&self) -> Seq<Exchange> {
        self.talk@
    }

    /// The seats of the table.
    pub closed spec fn players(&self) -> Seq<PlayerState> {
        self.players@.map_values(|p: Player| p@)
    }

    /// The log of what the storyteller did.
    pub fn actions_taken(&self) -> (r: &Vec<Action>)
        ensures
            r@ == self.actions(),
    {
        &self.actions
    }

    /// The seats of the table.
    pub fn table(&self) -> (r: &Vec<Player>)
        ensures
            r@.map_values(|p: Player| p@) == self.players(),
    {
        &self.players
    }

    /// Whether the table is small enough that the counts of the rules fit their numbers.
    pub open spec fn seats_fit(&self) -> bool {
        self.players().len() <= u32::MAX
    }

    /// Seats one player for each role, all alive, unmarked and holding their vote,
    /// with an empty log.
    pub fn new(roles: Vec<Role>, seed: Option<u64>, io: IO) -> (g: Grimoir<IO>)
        ensures
            g.players() == roles@.map_values(|r: Role| PlayerState::seated(r)),
            g.actions() == Seq::<Action>::empty(),
            g.talk() == Seq::<Exchange>::empty(),
    {
        let mut players: Vec<Player> = Vec::new();
        let mut i: usize = 0;
        while i < roles.len()
            invariant
                i <= roles@.len(),
                players@.len() == i,
                forall|j: int| 0 <= j < i ==> #[trigger] players@[j]@ == PlayerState::seated(roles@[j]),
            decreases roles@.len() - i,
        {
            players.push(Player::seated(roles[i]));
            i = i + 1;
        }
        let seed = match seed {
            Some(s) => s,
            None => 0,
        };
        let g = Grimoir { players, actions: Vec::new(), io, rand: seeded_rng(seed), talk: Ghost(Seq::empty()) };
        assert(g.players() =~= roles@.map_values(|r: Role| PlayerState::seated(r)));
        g
    }

    /// Tells seat `player` `info`.
    fn tell(&mut self, player: PlayerId, info: Info)
        ensures
            final(self).players@ == old(self).players@,
            final(self).actions@ == old(self).actions@,
            final(self).talk() == old(self).talk().push(Exchange::Told(player, info)),
    {
        let ghost told = info;
        self.io.tell(player, info);
        proof {
            self.talk@ = self.talk@.push(Exchange::Told(player, told));
        }
    }

    /// Tells every seat `info`, in seat order.
    fn tell_all(&mut self, info: Info)
        requires
            !(info is Grim),
        ensures
            final(self).players@ == old(self).players@,
            final(self).actions@ == old(self).actions@,
            final(self).talk() == old(self).talk() + told_all(old(self).players@.len() as int, info),
    {
        let n = self.players.len();
        let mut id: usize = 0;
        while id < n
            invariant
                n == old(self).players@.len(),
                id <= n,
                !(info is Grim),
                self.players@ == old(self).players@,
                self.actions@ == old(self).actions@,
                self.talk() == old(self).talk() + told_all(id as int, info),
            decreases n - id,
        {
            let copy = info.copy_plain();
            self.tell(id, copy);
            proof {
                assert(old(self).talk() + told_all(id + 1, info) =~= old(self).talk() + told_all(id as int, info) + seq![Exchange::Told(id, info)]);
            }
            id = id + 1;
        }
    }

    /// Asks seat `player` for a seat it may name.
    fn prompt_player_optional(&mut self, player: PlayerId) -> (r: Option<PlayerId>)
        ensures
            final(self).players@ == old(self).players@,
            final(self).actions@ == old(self).actions@,
            final(self).talk() == old(self).talk().push(Exchange::MayName(player, r)),
    {
        let r = self.io.prompt_player_option(player);
        proof {
            self.talk@ = self.talk@.push(Exchange::MayName(player, r));
        }
        r
    }

    /// Asks seat `player` to name a seat.
    fn prompt_player(&mut self, player: PlayerId) -> (r: PlayerId)
        ensures
            final(self).players@ == old(self).players@,
            final(self).actions@ == old(self).actions@,
            final(self).talk() == old(self).talk().push(Exchange::Named(player, r)),
    {
        let r = self.io.prompt_player(player);
        proof {
            self.talk@ = self.talk@.push(Exchange::Named(player, r));
        }
        r
    }

    /// Asks seat `player` whom to tell what.
    fn prompt_tell(&mut self, player: PlayerId) -> (r: Option<(PlayerId, Info)>)
        ensures
            final(self).players@ == old(self).players@,
            final(self).actions@ == old(self).actions@,
            final(self).talk() == old(self).talk().push(Exchange::Talked(player, r)),
    {
        let r = self.io.prompt_tell(player);
        proof {
            self.talk@ = self.talk@.push(Exchange::Talked(player, r));
        }
        r
    }

    /// Ends the game: `team` has won. Called only where `game_won` says the game ends for `team`.
    fn win(&mut self, team: bool) -> Never
        requires
            game_won(old(self).players(), old(self).actions(), team),
    {
        self.io.win(team)
    }

    /// Appends `action` to the log.
    fn log(&mut self, action: Action)
        ensures
            final(self).talk() == old(self).talk(),
            final(self).players@ == old(self).players@,
            final(self).actions() == old(self).actions().push(action),
    {
        self.actions.push(action);
    }

    /// Marks seat `p` with `note`.
    fn mark(&mut self, p: PlayerId, note: Note)
        requires
            p < old(self).players@.len(),
        ensures
            final(self).talk() == old(self).talk(),
            final(self).players() == old(self).players().update(p as int, old(self).players()[p as int].noted(note)),
            final(self).actions@ == old(self).actions@,
    {
        self.players[p].notes.push(note);
        proof {
            assert(old(self).players()[p as int] == old(self).players@[p as int]@);
            assert(self.players() =~= old(self).players().update(p as int, old(self).players()[p as int].noted(note)));
        }
    }

    /// Takes the marks `a` and `b` away from seat `p`.
    fn drop_notes(&mut self, p: PlayerId, a: Note, b: Note)
        requires
            p < old(self).players@.len(),
        ensures
            final(self).talk() == old(self).talk(),
            final(self).players() == old(self).players().update(p as int, old(self).players()[p as int].without(a, b)),
            final(self).actions@ == old(self).actions@,
    {
        let mut kept: Vec<Note> = Vec::new();
        let mut j: usize = 0;
        let ghost notes = self.players@[p as int].notes@;
        while j < self.players[p].notes.len()
            invariant
                p < self.players@.len(),
                self.players@ == old(self).players@,
                self.actions@ == old(self).actions@,
                notes == self.players@[p as int].notes@,
                j <= notes.len(),
                kept@ == notes_without(notes.take(j as int), a, b),
            decreases notes.len() - j,
        {
            proof {
                assert(notes.take(j + 1).drop_last() =~= notes.take(j as int));
                reveal_with_fuel(Seq::filter, 1);
            }
            let n = self.players[p].notes[j];
            if n != a && n != b {
                kept.push(n);
            }
            j = j + 1;
        }
        proof {
            assert(notes.take(j as int) =~= notes);
        }
        self.players[p].notes = kept;
        proof {
            assert(old(self).players()[p as int] == old(self).players@[p as int]@);
            assert(self.players() =~= old(self).players().update(p as int, old(self).players()[p as int].without(a, b)));
        }
    }

    /// Spends the ghost vote of seat `p`.
    fn spend_ghost_vote(&mut self, p: PlayerId)
        requires
            p < old(self).players@.len(),
        ensures
            final(self).talk() == old(self).talk(),
            final(self).players() == old(self).players().update(p as int, PlayerState { ghost_vote: false, ..old(self).players()[p as int] }),
            final(self).actions@ == old(self).actions@,
    {
        self.players[p].ghost_vote = false;
        proof {
            assert(old(self).players()[p as int] == old(self).players@[p as int]@);
            assert(self.players() =~= old(self).players().update(p as int, PlayerState { ghost_vote: false, ..old(self).players()[p as int] }));
        }
    }

    /// Whether seat `p` still holds a ghost vote.
    fn seat_ghost_vote(&self, p: PlayerId) -> (r: bool)
        requires
            p < self.players@.len(),
        ensures
            r == self.players()[p as int].ghost_vote,
    {
        proof {
            assert(self.players()[p as int] == self.players@[p as int]@);
        }
        self.players[p].ghost_vote
    }

    /// Kills seat `p` in the night and marks it as died tonight.
    fn kill_tonight(&mut self, p: PlayerId)
        requires
            p < old(self).players@.len(),
        ensures
            final(self).talk() == old(self).talk(),
            final(self).players() == old(self).players().update(p as int, old(self).players()[p as int].killed_tonight()),
            final(self).actions@ == old(self).actions@,
    {
        self.players[p].alive = false;
        self.players[p].notes.push(Note::DiedTonight);
        proof {
            assert(old(self).players()[p as int] == old(self).players@[p as int]@);
            assert(self.players() =~= old(self).players().update(p as int, old(self).players()[p as int].killed_tonight()));
        }
    }

    /// Kills seat `p`.
    fn kill(&mut self, p: PlayerId)
        requires
            p < old(self).players@.len(),
        ensures
            final(self).talk() == old(self).talk(),
            final(self).players() == old(self).players().update(p as int, old(self).players()[p as int].dead()),
            final(self).actions@ == old(self).actions@,
    {
        self.players[p].alive = false;
        proof {
            assert(old(self).players()[p as int] == old(self).players@[p as int]@);
            assert(self.players() =~= old(self).players().update(p as int, old(self).players()[p as int].dead()));
        }
    }

    /// Gives seat `p` the role `role`.
    fn recast(&mut self, p: PlayerId, role: Role)
        requires
            p < old(self).players@.len(),
        ensures
            final(self).talk() == old(self).talk(),
            final(self).players() == old(self).players().update(p as int, old(self).players()[p as int].with_role(role)),
            final(self).actions@ == old(self).actions@,
    {
        self.players[p].role = role;
        proof {
            assert(old(self).players()[p as int] == old(self).players@[p as int]@);
            assert(self.players() =~= old(self).players().update(p as int, old(self).players()[p as int].with_role(role)));
        }
    }

    /// Whether seat `p` carries `note`.
    fn seat_has(&self, p: PlayerId, note: Note) -> (r: bool)
        requires
            p < self.players@.len(),
        ensures
            r == self.players()[p as int].has(note),
    {
        proof {
            assert(self.players()[p as int] == self.players@[p as int]@);
        }
        self.players[p].has_note(note)
    }

    /// Whether seat `p` lives.
    fn seat_alive(&self, p: PlayerId) -> (r: bool)
        requires
            p < self.players@.len(),
        ensures
            r == self.players()[p as int].alive,
    {
        proof {
            assert(self.players()[p as int] == self.players@[p as int]@);
        }
        self.players[p].alive
    }

    /// The name of the role in seat `p`.
    fn seat_id(&self, p: PlayerId) -> (r: RoleId)
        requires
            p < self.players@.len(),
        ensures
            r == self.players()[p as int].id(),
    {
        proof {
            assert(self.players()[p as int] == self.players@[p as int]@);
        }
        self.players[p].role.id()
    }

    /// The role in seat `p`.
    fn seat_role(&self, p: PlayerId) -> (r: Role)
        requires
            p < self.players@.len(),
        ensures
            r == self.players()[p as int].role,
    {
        proof {
            assert(self.players()[p as int] == self.players@[p as int]@);
        }
        self.players[p].role
    }

    /// The number of seats.
    fn seats(&self) -> (r: usize)
        ensures
            r == self.players().len(),
            r == self.players@.len(),
    {
        self.players.len()
    }

    /// The first seat whose role is named `role`.
    fn get_role(&self, role: RoleId) -> (r: Option<PlayerId>)
        ensures
            r matches Some(i) ==> is_first_seat(self.players(), role, i as int),
            r is None <==> !in_play(self.players(), role),
            r matches Some(i) ==> first_seat(self.players(), role) == Some(i as int),
            r is None ==> first_seat(self.players(), role) is None,
    {
        let mut i: usize = 0;
        while i < self.players.len()
            invariant
                i <= self.players@.len(),
                forall|j: int| 0 <= j < i ==> #[trigger] self.players@[j]@.id() != role,
            decreases self.players@.len() - i,
        {
            if self.players[i].role.id() == role {
                proof {
                    assert(self.players()[i as int] == self.players@[i as int]@);
                    assert forall|j: int| 0 <= j < i implies #[trigger] self.players()[j].id()
                        != role by {
                        assert(self.players()[j] == self.players@[j]@);
                    }
                    assert(is_first_seat(self.players(), role, i as int));
                    lemma_first_seat_unique(self.players(), role, i as int);
                }
                return Some(i);
            }
            i = i + 1;
        }
        proof {
            assert forall|j: int| 0 <= j < self.players().len() implies #[trigger] self.players()[j].id()
                != role by {
                assert(self.players()[j] == self.players@[j]@);
            }
        }
        None
    }

    /// A number drawn from `0..end`.
    fn get_rand(&mut self, end: usize) -> (r: usize)
        requires
            end > 0,
        ensures
            final(self).talk() == old(self).talk(),
            r < end,
            final(self).players@ == old(self).players@,
            final(self).actions@ == old(self).actions@,
    {
        random_index(&mut self.rand, 0, end)
    }

    /// A seat drawn from those that `pick` admits, or `None` when it admits none.
    fn get_rand_player(&mut self, pick: Pick) -> (r: Option<PlayerId>)
        ensures
            final(self).talk() == old(self).talk(),
            final(self).players@ == old(self).players@,
            final(self).actions@ == old(self).actions@,
            r matches Some(i) ==> i < old(self).players().len() && pick.admits(
                i as int,
                old(self).players()[i as int],
            ),
            r is None <==> forall|i: int|
                0 <= i < old(self).players().len() ==> !#[trigger] pick.admits(
                    i,
                    old(self).players()[i],
                ),
    {
        let mut seats: Vec<PlayerId> = Vec::new();
        let mut i: usize = 0;
        while i < self.players.len()
            invariant
                i <= self.players@.len(),
                self.players@ == old(self).players@,
                self.actions@ == old(self).actions@,
                forall|k: int|
                    0 <= k < seats@.len() ==> #[trigger] seats@[k] < self.players@.len()
                        && pick.admits(seats@[k] as int, self.players@[seats@[k] as int]@),
                forall|j: int|
                    0 <= j < i && pick.admits(j, #[trigger] self.players@[j]@) ==> seats@.len() > 0,
            decreases self.players@.len() - i,
        {
            if pick.admits_exec(i, &self.players[i]) {
                seats.push(i);
            }
            i = i + 1;
        }
        if seats.len() == 0 {
            proof {
                assert forall|j: int| 0 <= j < old(self).players().len() implies !#[trigger] pick.admits(
                    j,
                    old(self).players()[j],
                ) by {
                    assert(old(self).players()[j] == self.players@[j]@);
                }
            }
            None
        } else {
            let k = random_index(&mut self.rand, 0, seats.len());
            let i = seats[k];
            proof {
                assert(old(self).players()[i as int] == self.players@[i as int]@);
            }
            Some(i)
        }
    }
}

/// The first seat of a role is the seat that `first_seat` names.
proof fn lemma_first_seat_unique(players: Seq<PlayerState>, role: RoleId, i: int)
    requires
        is_first_seat(players, role, i),
    ensures
        first_seat(players, role) == Some(i),
{
    assert(in_play(players, role));
    let k = choose|k: int| is_first_seat(players, role, k);
    assert(is_first_seat(players, role, k));
    if k < i {
        assert(players[k].id() != role);
    } else if k > i {
        assert(players[i].id() != role);
    }
}

} // verus!
