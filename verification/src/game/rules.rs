use vstd::prelude::*;

use super::{GameError, Note, Player, PlayerState};
use crate::roles::{PlayerId, RoleId};

verus! {

/// The views of a list of players.
pub open spec fn views(players: Seq<Player>) -> Seq<PlayerState> {
    players.map_values(|p: Player| p@)
}

/// The seat `i` places clockwise of `id`, at a table of `n` seats.
pub open spec fn seat_after(id: int, i: int, n: int) -> int {
    (id + i) % n
}

/// The seat `i` places clockwise of `id`.
fn next_seat(id: usize, i: usize, n: usize) -> (r: usize)
    requires
        id < n,
        i < n,
    ensures
        r == seat_after(id as int, i as int, n as int),
        r < n,
{
    if i < n - id {
        proof {
            assert((id + i) % (n as int) == id + i) by (nonlinear_arith)
                requires
                    0 <= id + i < n,
            ;
        }
        id + i
    } else {
        proof {
            assert((id + i) % (n as int) == id + i - n) by (nonlinear_arith)
                requires
                    n <= id + i < 2 * n,
            ;
        }
        i - (n - id)
    }
}

/// The number of seats `i` below `k` such that seat `i` and the seat before it (the last
/// seat, before the first) both show as evil.
pub open spec fn evil_pairs_upto(ps: Seq<PlayerState>, k: int) -> nat
    decreases k,
{
    if k <= 0 {
        0
    } else {
        let i = k - 1;
        let before = if i == 0 {
            ps.len() - 1
        } else {
            i - 1
        };
        evil_pairs_upto(ps, k - 1) + if ps[i].registers_evil() && ps[before].registers_evil() {
            1nat
        } else {
            0nat
        }
    }
}

/// The chef's number: how many pairs of neighbours, around the table, both show as evil.
pub open spec fn chef_number(ps: Seq<PlayerState>) -> nat {
    evil_pairs_upto(ps, ps.len() as int)
}

/// The first living seat met going clockwise from `id`, starting `i` places along.
pub open spec fn living_clockwise(ps: Seq<PlayerState>, id: int, i: int) -> Option<int>
    decreases ps.len() - i,
{
    if i < 1 || i >= ps.len() {
        None
    } else if ps[seat_after(id, i, ps.len() as int)].alive {
        Some(seat_after(id, i, ps.len() as int))
    } else {
        living_clockwise(ps, id, i + 1)
    }
}

/// The first living seat met going anticlockwise from `id`, starting `ps.len() - i` places
/// back.
pub open spec fn living_anticlockwise(ps: Seq<PlayerState>, id: int, i: int) -> Option<int>
    decreases i,
{
    if i < 1 || i >= ps.len() {
        None
    } else if ps[seat_after(id, i, ps.len() as int)].alive {
        Some(seat_after(id, i, ps.len() as int))
    } else {
        living_anticlockwise(ps, id, i - 1)
    }
}

/// One when the seat shows as evil, zero when it does not or when there is none.
pub open spec fn evil_mark(ps: Seq<PlayerState>, seat: Option<int>) -> nat {
    match seat {
        Some(s) => if ps[s].registers_evil() {
            1nat
        } else {
            0nat
        },
        None => 0nat,
    }
}

/// The empath's number: how many of the nearest living neighbours on either side show as
/// evil (one neighbour that is nearest on both sides counts twice).
pub open spec fn empath_number(ps: Seq<PlayerState>, id: int) -> nat {
    evil_mark(ps, living_clockwise(ps, id, 1)) + evil_mark(
        ps,
        living_anticlockwise(ps, id, ps.len() - 1),
    )
}

/// The fortune teller's reading of seats `p1` and `p2`: yes when either is the red herring,
/// the demon or the recluse; the seats are looked up in the order the rules read them, and a
/// seat that is looked up and is not at the table is an error.
pub open spec fn fortune_reading(ps: Seq<PlayerState>, red_herring: int, p1: int, p2: int) -> Result<
    bool,
    GameError,
> {
    if p1 == red_herring || p2 == red_herring {
        Ok(true)
    } else if !(0 <= p1 < ps.len()) {
        Err(GameError::NoSuchPlayer(p1 as usize))
    } else if ps[p1].id().spec_is_demon() {
        Ok(true)
    } else if !(0 <= p2 < ps.len()) {
        Err(GameError::NoSuchPlayer(p2 as usize))
    } else {
        Ok(ps[p2].id().spec_is_demon() || ps[p1].id() == RoleId::Recluse || ps[p2].id()
            == RoleId::Recluse)
    }
}

/// Whether the demon's kill lands on the player: not protected by the monk, and neither a
/// sober soldier nor a sober mayor.
pub open spec fn kill_lands(p: PlayerState) -> bool {
    &&& !p.has(Note::MonkProtected)
    &&& !(p.id() == RoleId::Soldier && !p.has(Note::Poisoned))
    &&& !(p.id() == RoleId::Mayor && !p.has(Note::Poisoned))
}

/// Whether a deflected kill lands on the player: not protected by the monk, and not a sober
/// soldier.
pub open spec fn deflected_kill_lands(p: PlayerState) -> bool {
    &&& !p.has(Note::MonkProtected)
    &&& !(p.id() == RoleId::Soldier && !p.has(Note::Poisoned))
}

/// Whether `seen` is what the ravenskeeper or the undertaker may learn of a player whose role
/// is named `actual`: the spy may show as any role that `is_good` holds, the recluse as any
/// role that `is_evil` holds, and every other role as itself.
pub open spec fn may_show_as(actual: RoleId, seen: RoleId) -> bool {
    if actual == RoleId::Spy {
        seen.spec_is_good()
    } else if actual == RoleId::Recluse {
        seen.spec_is_evil()
    } else {
        seen == actual
    }
}

impl Player {
    /// Whether the player shows as evil to the chef and the empath.
    pub fn registers_evil(&self) -> (r: bool)
        ensures
            r == self@.registers_evil(),
    {
        self.role.id() == RoleId::Recluse || (self.role.id().is_evil() && self.role.id()
            != RoleId::Spy)
    }

}

/// The chef's number for the table.
pub fn chef_pairs(players: &Vec<Player>) -> (r: u32)
    requires
        players@.len() <= u32::MAX,
    ensures
        r == chef_number(views(players@)),
        super::laws::no_evil_neighbours(views(players@)) ==> r == 0,
{
    proof {
        if super::laws::no_evil_neighbours(views(players@)) {
            super::laws::lemma_chef_no_pairs(views(players@));
        }
    }
    let ghost ps = views(players@);
    let n = players.len();
    if n == 0 {
        return 0;
    }
    let mut pairs: u32 = 0;
    let mut last = players[n - 1].registers_evil();
    let mut i: usize = 0;
    while i < n
        invariant
            n == players@.len(),
            ps == views(players@),
            0 < n <= u32::MAX,
            i <= n,
            pairs == evil_pairs_upto(ps, i as int),
            pairs <= i,
            last == ps[if i == 0 {
                n - 1
            } else {
                i - 1
            }].registers_evil(),
        decreases n - i,
    {
        let evil = players[i].registers_evil();
        proof {
            assert(ps[i as int] == players@[i as int]@);
        }
        if last && evil {
            pairs = pairs + 1;
        }
        last = evil;
        i = i + 1;
    }
    pairs
}

/// The nearest living seat clockwise of `id`.
fn nearest_living_clockwise(players: &Vec<Player>, id: PlayerId) -> (r: Option<PlayerId>)
    requires
        id < players@.len(),
    ensures
        r matches Some(s) ==> living_clockwise(views(players@), id as int, 1) == Some(s as int),
        r is None ==> living_clockwise(views(players@), id as int, 1) is None,
{
    let ghost ps = views(players@);
    let n = players.len();
    let mut i: usize = 1;
    while i < n
        invariant
            n == players@.len(),
            ps == views(players@),
            id < n,
            1 <= i,
            living_clockwise(ps, id as int, 1) == living_clockwise(ps, id as int, i as int),
        decreases n - i,
    {
        let s = next_seat(id, i, n);
        proof {
            assert(ps[s as int] == players@[s as int]@);
        }
        if players[s].alive {
            return Some(s);
        }
        i = i + 1;
    }
    None
}

/// The nearest living seat anticlockwise of `id`.
fn nearest_living_anticlockwise(players: &Vec<Player>, id: PlayerId) -> (r: Option<PlayerId>)
    requires
        id < players@.len(),
    ensures
        r matches Some(s) ==> living_anticlockwise(views(players@), id as int, players@.len() - 1)
            == Some(s as int),
        r is None ==> living_anticlockwise(views(players@), id as int, players@.len() - 1) is None,
{
    let ghost ps = views(players@);
    let n = players.len();
    let mut j: usize = n - 1;
    while j >= 1
        invariant
            n == players@.len(),
            ps == views(players@),
            id < n,
            j < n,
            living_anticlockwise(ps, id as int, n - 1) == living_anticlockwise(
                ps,
                id as int,
                j as int,
            ),
        decreases j,
    {
        let s = next_seat(id, j, n);
        proof {
            assert(ps[s as int] == players@[s as int]@);
        }
        if players[s].alive {
            return Some(s);
        }
        j = j - 1;
    }
    None
}

/// One when the seat shows as evil, zero when it does not or when there is none.
fn evil_count(players: &Vec<Player>, seat: Option<PlayerId>) -> (r: u32)
    requires
        seat matches Some(s) ==> s < players@.len(),
    ensures
        r == evil_mark(views(players@), match seat { Some(s) => Some(s as int), None => None }),
        r <= 1,
{
    match seat {
        Some(s) => {
            proof {
                assert(views(players@)[s as int] == players@[s as int]@);
            }
            if players[s].registers_evil() {
                1
            } else {
                0
            }
        },
        None => 0,
    }
}

/// The empath's number for the empath in seat `id`.
pub fn empath_count(players: &Vec<Player>, id: PlayerId) -> (r: u32)
    requires
        id < players@.len(),
    ensures
        r == empath_number(views(players@), id as int),
{
    let cw = nearest_living_clockwise(players, id);
    let ccw = nearest_living_anticlockwise(players, id);
    proof {
        let ps = views(players@);
        if let Some(s) = cw {
            assert(s < players@.len()) by {
                lemma_living_clockwise_in_range(ps, id as int, 1);
            }
        }
        if let Some(s) = ccw {
            assert(s < players@.len()) by {
                lemma_living_anticlockwise_in_range(ps, id as int, players@.len() - 1);
            }
        }
    }
    evil_count(players, cw) + evil_count(players, ccw)
}

/// The nearest living seat clockwise is a living seat of the table.
proof fn lemma_living_clockwise_in_range(ps: Seq<PlayerState>, id: int, i: int)
    requires
        0 <= id < ps.len(),
    ensures
        living_clockwise(ps, id, i) matches Some(s) ==> 0 <= s < ps.len() && ps[s].alive,
    decreases ps.len() - i,
{
    if 1 <= i < ps.len() {
        let n = ps.len() as int;
        assert(0 <= (id + i) % n < n) by (nonlinear_arith)
            requires
                n > 0,
        ;
        lemma_living_clockwise_in_range(ps, id, i + 1);
    }
}

/// The nearest living seat anticlockwise is a living seat of the table.
proof fn lemma_living_anticlockwise_in_range(ps: Seq<PlayerState>, id: int, i: int)
    requires
        0 <= id < ps.len(),
    ensures
        living_anticlockwise(ps, id, i) matches Some(s) ==> 0 <= s < ps.len() && ps[s].alive,
    decreases i,
{
    if 1 <= i < ps.len() {
        let n = ps.len() as int;
        assert(0 <= (id + i) % n < n) by (nonlinear_arith)
            requires
                n > 0,
        ;
        lemma_living_anticlockwise_in_range(ps, id, i - 1);
    }
}

/// The fortune teller's reading, for a fortune teller whose red herring is `red_herring`.
pub fn fortune_teller_reading(
    players: &Vec<Player>,
    red_herring: PlayerId,
    p1: PlayerId,
    p2: PlayerId,
) -> (r: Result<bool, GameError>)
    ensures
        r == fortune_reading(views(players@), red_herring as int, p1 as int, p2 as int),
        p1 == red_herring || p2 == red_herring ==> r == Ok::<bool, GameError>(true),
        p1 < players@.len() && p2 < players@.len() && (players@[p1 as int]@.id().spec_is_demon()
            || players@[p2 as int]@.id().spec_is_demon()) ==> r == Ok::<bool, GameError>(true),
{
    let ghost ps = views(players@);
    if p1 == red_herring || p2 == red_herring {
        return Ok(true);
    }
    if p1 >= players.len() {
        return Err(GameError::NoSuchPlayer(p1));
    }
    proof {
        assert(ps[p1 as int] == players@[p1 as int]@);
    }
    if players[p1].role_id().is_demon() {
        return Ok(true);
    }
    if p2 >= players.len() {
        return Err(GameError::NoSuchPlayer(p2));
    }
    proof {
        assert(ps[p2 as int] == players@[p2 as int]@);
    }
    Ok(players[p2].role_id().is_demon() || players[p1].role_id() == RoleId::Recluse
        || players[p2].role_id() == RoleId::Recluse)
}

/// Whether the demon's kill lands on `p`.
pub fn lands_kill(p: &Player) -> (r: bool)
    ensures
        r == kill_lands(p@),
        p@.has(Note::MonkProtected) ==> !r,
        !p@.has(Note::MonkProtected) && p@.has(Note::Poisoned) ==> r,
        (p@.id() == RoleId::Soldier || p@.id() == RoleId::Mayor) && !p@.has(Note::Poisoned) ==> !r,
        !p@.has(Note::MonkProtected) && p@.id() != RoleId::Soldier && p@.id() != RoleId::Mayor ==> r,
{
    !p.has_note(Note::MonkProtected) && !(p.role_id() == RoleId::Soldier && !p.has_note(
        Note::Poisoned,
    )) && !(p.role_id() == RoleId::Mayor && !p.has_note(Note::Poisoned))
}

/// Whether a kill deflected by the mayor lands on `p`.
pub fn lands_deflected_kill(p: &Player) -> (r: bool)
    ensures
        r == deflected_kill_lands(p@),
        p@.has(Note::MonkProtected) ==> !r,
        !p@.has(Note::MonkProtected) && p@.has(Note::Poisoned) ==> r,
        p@.id() == RoleId::Soldier && !p@.has(Note::Poisoned) ==> !r,
        !p@.has(Note::MonkProtected) && p@.id() != RoleId::Soldier ==> r,
{
    !p.has_note(Note::MonkProtected) && !(p.role_id() == RoleId::Soldier && !p.has_note(
        Note::Poisoned,
    ))
}

} // verus!
