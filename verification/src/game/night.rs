use vstd::prelude::*;

use super::rules::{
    chef_number, chef_pairs, deflected_kill_lands, empath_count, empath_number,
    fortune_reading, fortune_teller_reading, kill_lands, lands_deflected_kill, lands_kill,
    may_show_as, views,
};
use super::setup::{ids_in_class, lemma_remove_keeps_distinct, Class};
use super::{duplicate_players, first_seat, in_play, told_all, Action, Exchange, GameError, GrimIO, Grimoir, Info, Note, Pick, PlayerState};
use crate::roles::{PlayerId, Role, RoleId};

verus! {

/// Whether some seat admits `pick`.
pub open spec fn any_admits(ps: Seq<PlayerState>, pick: Pick) -> bool {
    exists|i: int| 0 <= i < ps.len() && #[trigger] pick.admits(i, ps[i])
}

/// Whether the log `acts2` is `acts` with one entry more.
pub open spec fn one_more(acts: Seq<Action>, acts2: Seq<Action>) -> bool {
    acts2.len() == acts.len() + 1 && acts2 == acts.push(acts2.last())
}

/// The fortune teller's red herring, kept in its role.
pub open spec fn red_herring_of(role: Role) -> PlayerId {
    match role {
        Role::FortuneTeller { red_herring } => red_herring,
        _ => 0,
    }
}

/// The role that the undertaker last saw executed, kept in its role.
pub open spec fn last_exec_of(role: Role) -> Option<RoleId> {
    match role {
        Role::Undertaker { last_exec } => last_exec,
        _ => None,
    }
}

/// The chef wakes: the log gains the chef's number.
pub open spec fn chef_wakes(ps: Seq<PlayerState>, acts: Seq<Action>, ps2: Seq<PlayerState>, acts2: Seq<Action>) -> bool {
    &&& ps2 == ps
    &&& acts2 == acts.push(Action::Chef { pairs: chef_number(ps) as u32 })
}

/// The empath in seat `id` wakes: the log gains the empath's number.
pub open spec fn empath_wakes(ps: Seq<PlayerState>, acts: Seq<Action>, id: int, ps2: Seq<PlayerState>, acts2: Seq<Action>) -> bool {
    &&& ps2 == ps
    &&& acts2 == acts.push(Action::Empath(empath_number(ps, id) as u32))
}

/// The monk protects seat `p`: logged, and the seat marked when it is at the table.
pub open spec fn monk_protects(ps: Seq<PlayerState>, acts: Seq<Action>, p: PlayerId, ps2: Seq<PlayerState>, acts2: Seq<Action>, r: Result<(), GameError>) -> bool {
    &&& acts2 == acts.push(Action::Monk { protected: p })
    &&& if p < ps.len() {
        ps2 == ps.update(p as int, ps[p as int].noted(Note::MonkProtected)) && r == Ok::<(), GameError>(())
    } else {
        ps2 == ps && r == Err::<(), GameError>(GameError::NoSuchPlayer(p))
    }
}

/// The poisoner poisons seat `p`: logged, and the seat marked when it is at the table.
pub open spec fn poisoner_targets(ps: Seq<PlayerState>, acts: Seq<Action>, p: PlayerId, ps2: Seq<PlayerState>, acts2: Seq<Action>, r: Result<(), GameError>) -> bool {
    &&& acts2 == acts.push(Action::Poisoner { target: p })
    &&& if p < ps.len() {
        ps2 == ps.update(p as int, ps[p as int].noted(Note::Poisoned)) && r == Ok::<(), GameError>(())
    } else {
        ps2 == ps && r == Err::<(), GameError>(GameError::NoSuchPlayer(p))
    }
}

/// The butler in seat `id` chooses seat `p` as master: logged, and kept in the butler's role.
pub open spec fn butler_chooses(ps: Seq<PlayerState>, acts: Seq<Action>, id: int, p: PlayerId, ps2: Seq<PlayerState>, acts2: Seq<Action>) -> bool {
    &&& acts2 == acts.push(Action::Butler(p))
    &&& ps2 == ps.update(id, ps[id].with_role(Role::Butler { butlered: Some(p) }))
}

/// The spy wakes: the log gains a copy of the grimoire.
pub open spec fn spy_wakes(ps: Seq<PlayerState>, acts: Seq<Action>, ps2: Seq<PlayerState>, acts2: Seq<Action>) -> bool {
    &&& ps2 == ps
    &&& one_more(acts, acts2)
    &&& acts2.last() matches Action::Spy(copy) && views(copy@) == ps
}

/// The undertaker in seat `id` wakes: when it saw an execution, the log gains `seen` (what the
/// executed role may show as, when the undertaker is sober); either way the undertaker forgets
/// the execution.
pub open spec fn undertaker_learns(ps: Seq<PlayerState>, acts: Seq<Action>, id: int, seen: RoleId, sober: bool, ps2: Seq<PlayerState>, acts2: Seq<Action>) -> bool {
    &&& ps2 == ps.update(id, ps[id].with_role(Role::Undertaker { last_exec: None }))
    &&& match last_exec_of(ps[id].role) {
        Some(x) => (!sober || may_show_as(x, seen)) && acts2 == acts.push(Action::Undertaker(seen)),
        None => acts2 == acts,
    }
}

/// The ravenskeeper in seat `id` points at seat `p` and learns `seen`.
pub open spec fn ravenskeeper_learns(ps: Seq<PlayerState>, acts: Seq<Action>, p: PlayerId, seen: RoleId, sober: bool, ps2: Seq<PlayerState>, acts2: Seq<Action>, r: Result<(), GameError>) -> bool {
    if sober && p >= ps.len() {
        ps2 == ps && acts2 == acts && r == Err::<(), GameError>(GameError::NoSuchPlayer(p))
    } else {
        &&& !sober || may_show_as(ps[p as int].id(), seen)
        &&& ps2 == ps
        &&& acts2 == acts.push(Action::RavensKeeper { target: p, response: seen })
        &&& r == Ok::<(), GameError>(())
    }
}

/// The sober fortune teller, with red herring `rh`, asks about seats `p1` and `p2`.
pub open spec fn fortune_teller_asks(ps: Seq<PlayerState>, acts: Seq<Action>, rh: PlayerId, p1: PlayerId, p2: PlayerId, ps2: Seq<PlayerState>, acts2: Seq<Action>, r: Result<(), GameError>) -> bool {
    match fortune_reading(ps, rh as int, p1 as int, p2 as int) {
        Err(e) => ps2 == ps && acts2 == acts && r == Err::<(), GameError>(e),
        Ok(b) => {
            &&& ps2 == ps
            &&& one_more(acts, acts2)
            &&& acts2.last() matches Action::FortuneTeller { target, response } && target@ == seq![p1, p2] && response == b
            &&& r == Ok::<(), GameError>(())
        },
    }
}


/// Whether the log `acts2` extends `acts`, the table keeps its seats, no dead player lives
/// again, and no spent ghost vote comes back.
pub open spec fn keeps(ps: Seq<PlayerState>, acts: Seq<Action>, ps2: Seq<PlayerState>, acts2: Seq<Action>) -> bool {
    &&& ps2.len() == ps.len()
    &&& acts.is_prefix_of(acts2)
    &&& forall|i: int| 0 <= i < ps.len() && !ps[i].alive ==> !#[trigger] ps2[i].alive
    &&& forall|i: int| 0 <= i < ps.len() && !ps[i].ghost_vote ==> !#[trigger] ps2[i].ghost_vote
}

/// The roles that wake in the night.
pub open spec fn wakes_at_night(role: RoleId) -> bool {
    ||| role == RoleId::Poisoner
    ||| role == RoleId::WasherWoman
    ||| role == RoleId::Librarian
    ||| role == RoleId::Investigator
    ||| role == RoleId::Chef
    ||| role == RoleId::Empath
    ||| role == RoleId::FortuneTeller
    ||| role == RoleId::Butler
    ||| role == RoleId::Spy
    ||| role == RoleId::Monk
    ||| role == RoleId::Imp
    ||| role == RoleId::RavensKeeper
    ||| role == RoleId::Undertaker
}

/// The players that a sober washerwoman, librarian or investigator is shown a role of.
pub open spec fn informer_pick(role: RoleId) -> Pick {
    if role == RoleId::WasherWoman {
        Pick::Townsfolk
    } else if role == RoleId::Librarian {
        Pick::Outsider
    } else {
        Pick::NonSpyMinion
    }
}

/// The kind of role that a drunk or poisoned washerwoman, librarian or investigator is told.
pub open spec fn informer_class(role: RoleId) -> Class {
    if role == RoleId::WasherWoman {
        Class::Townsfolk
    } else if role == RoleId::Librarian {
        Class::Outsider
    } else {
        Class::Minion
    }
}

/// Whether the log entry is a reading of the information role `role` that shows seats `p1`
/// and `p2`, in order, and the role `shown`.
pub open spec fn is_reading(a: Action, role: RoleId, p1: PlayerId, p2: PlayerId, shown: RoleId) -> bool {
    let pair = if p1 <= p2 {
        seq![p1, p2]
    } else {
        seq![p2, p1]
    };
    match a {
        Action::WasherWoman { players, role: r } => role == RoleId::WasherWoman && players@ == pair && r == shown,
        Action::Librarian { players, role: r } => role == RoleId::Librarian && players@ == pair && r == shown,
        Action::Investigator { players, role: r } => role == RoleId::Investigator && players@ == pair && r == shown,
        _ => false,
    }
}

/// A sober washerwoman, librarian or investigator is shown seats `p1` (one that its kind of
/// role is in) and `p2` (another), with the role in `p1`.
pub open spec fn informer_shown(ps: Seq<PlayerState>, acts: Seq<Action>, role: RoleId, p1: PlayerId, p2: PlayerId, ps2: Seq<PlayerState>, acts2: Seq<Action>) -> bool {
    &&& p1 < ps.len()
    &&& p2 < ps.len()
    &&& p1 != p2
    &&& informer_pick(role).admits(p1 as int, ps[p1 as int])
    &&& ps2 == ps
    &&& one_more(acts, acts2)
    &&& is_reading(acts2.last(), role, p1, p2, ps[p1 as int].id())
}

/// A drunk or poisoned washerwoman, librarian or investigator is shown seats `p1` and `p2`
/// (two seats at random) and `drawn` (a role of its kind at random); the log can hold the
/// reading only when `drawn` is itself one of the three information roles.
pub open spec fn informer_misled(ps: Seq<PlayerState>, acts: Seq<Action>, role: RoleId, p1: PlayerId, p2: PlayerId, drawn: RoleId, ps2: Seq<PlayerState>, acts2: Seq<Action>, r: Result<(), GameError>) -> bool {
    &&& p1 < ps.len()
    &&& p2 < ps.len()
    &&& p1 != p2
    &&& informer_class(role).holds(drawn)
    &&& ps2 == ps
    &&& if drawn == RoleId::WasherWoman || drawn == RoleId::Librarian || drawn == RoleId::Investigator {
        one_more(acts, acts2) && is_reading(acts2.last(), drawn, p1, p2, ps[p1 as int].id()) && r == Ok::<(), GameError>(())
    } else {
        acts2 == acts && r == Err::<(), GameError>(GameError::MismatchedReading)
    }
}

/// A living minion `m` of `ps1` becomes the imp, and the log says so.
pub open spec fn passes_to(ps1: Seq<PlayerState>, acts1: Seq<Action>, m: PlayerId, ps2: Seq<PlayerState>, acts2: Seq<Action>) -> bool {
    &&& m < ps1.len()
    &&& Pick::LivingMinion.admits(m as int, ps1[m as int])
    &&& ps2 == ps1.update(m as int, ps1[m as int].with_role(Role::Imp))
    &&& acts2 == acts1.push(Action::ImpTransfer(m))
}

/// The imp has killed itself: a living minion, drawn at random, becomes the imp, if there is
/// one.
pub open spec fn demon_passes(ps1: Seq<PlayerState>, acts1: Seq<Action>, ps2: Seq<PlayerState>, acts2: Seq<Action>) -> bool {
    if !any_admits(ps1, Pick::LivingMinion) {
        ps2 == ps1 && acts2 == acts1
    } else {
        exists|m: PlayerId| #[trigger] passes_to(ps1, acts1, m, ps2, acts2)
    }
}

/// The sober mayor, attacked by the imp in seat `id`, deflects the kill onto the living seat
/// `alt`.
pub open spec fn mayor_deflects(ps: Seq<PlayerState>, acts1: Seq<Action>, id: int, alt: PlayerId, ps2: Seq<PlayerState>, acts2: Seq<Action>, r: Result<(), GameError>) -> bool {
    let acts3 = acts1.push(Action::MayorDeflection(alt));
    &&& alt < ps.len()
    &&& Pick::LivingNonMayor.admits(alt as int, ps[alt as int])
    &&& if deflected_kill_lands(ps[alt as int]) {
        let ps1 = ps.update(alt as int, ps[alt as int].killed_tonight());
        if alt == id {
            r == Ok::<(), GameError>(()) && demon_passes(ps1, acts3, ps2, acts2)
        } else {
            r == Err::<(), GameError>(GameError::Unwritten) && ps2 == ps1 && acts2 == acts3
        }
    } else {
        r == Ok::<(), GameError>(()) && ps2 == ps && acts2 == acts3
    }
}

/// The sober imp in seat `id` attacks seat `p`. A kill that lands on another player wins the
/// game for the good team, and the night does not go on.
pub open spec fn imp_strikes(ps: Seq<PlayerState>, acts: Seq<Action>, id: int, p: PlayerId, ps2: Seq<PlayerState>, acts2: Seq<Action>, r: Result<(), GameError>) -> bool {
    let acts1 = acts.push(Action::ImpKill(p));
    if p >= ps.len() {
        ps2 == ps && acts2 == acts1 && r == Err::<(), GameError>(GameError::NoSuchPlayer(p))
    } else if kill_lands(ps[p as int]) {
        &&& p == id
        &&& r == Ok::<(), GameError>(())
        &&& demon_passes(ps.update(p as int, ps[p as int].killed_tonight()), acts1, ps2, acts2)
    } else if ps[p as int].id() == RoleId::Mayor {
        if !any_admits(ps, Pick::LivingNonMayor) {
            ps2 == ps && acts2 == acts1 && r == Err::<(), GameError>(GameError::NoCandidate)
        } else {
            exists|alt: PlayerId| #[trigger] mayor_deflects(ps, acts1, id, alt, ps2, acts2, r)
        }
    } else {
        ps2 == ps && acts2 == acts1 && r == Ok::<(), GameError>(())
    }
}

/// How many seats hold a role that `is_evil` holds.
pub open spec fn evil_seats(ps: Seq<PlayerState>) -> nat
    decreases ps.len(),
{
    if ps.len() == 0 {
        0
    } else {
        evil_seats(ps.drop_last()) + if ps.last().id().spec_is_evil() {
            1nat
        } else {
            0nat
        }
    }
}

/// What a washerwoman, librarian or investigator in seat `id` is told: the role `shown`, then
/// seats `p1` and `p2` in order.
pub open spec fn informer_tells(id: int, shown: RoleId, p1: PlayerId, p2: PlayerId) -> Seq<Exchange> {
    let lo = if p1 <= p2 { p1 } else { p2 };
    let hi = if p1 <= p2 { p2 } else { p1 };
    seq![
        Exchange::Told(id as PlayerId, Info::Role(shown)),
        Exchange::Told(id as PlayerId, Info::Player(lo)),
        Exchange::Told(id as PlayerId, Info::Player(hi)),
    ]
}

/// What the undertaker in seat `id` of `ps` is told when it learns `seen`: the role, when it
/// saw an execution; nothing otherwise.
pub open spec fn undertaker_tells(ps: Seq<PlayerState>, id: int, seen: RoleId) -> Seq<Exchange> {
    match last_exec_of(ps[id].role) {
        Some(_) => seq![Exchange::Told(id as PlayerId, Info::Role(seen))],
        None => Seq::empty(),
    }
}

/// What the sober role `role`, waking in seat `id`, does to the grimoire: the table goes from
/// `ps` to `ps2`, the log from `acts` to `acts2`, the exchanges with the players from `tk` to
/// `tk2`; what a player names is what the role acts on.
pub open spec fn sober_outcome(role: RoleId, id: int, ps: Seq<PlayerState>, acts: Seq<Action>, tk: Seq<Exchange>, ps2: Seq<PlayerState>, acts2: Seq<Action>, tk2: Seq<Exchange>, r: Result<(), GameError>) -> bool {
    let me = id as PlayerId;
    if role == RoleId::WasherWoman || role == RoleId::Librarian || role == RoleId::Investigator {
        if !any_admits(ps, informer_pick(role)) || ps.len() == 1 {
            ps2 == ps && acts2 == acts && tk2 == tk && r == Err::<(), GameError>(GameError::NoCandidate)
        } else {
            r == Ok::<(), GameError>(()) && exists|p1: PlayerId, p2: PlayerId| #[trigger] informer_shown(ps, acts, role, p1, p2, ps2, acts2)
                && tk2 == tk + informer_tells(id, ps[p1 as int].id(), p1, p2)
        }
    } else if role == RoleId::Chef {
        chef_wakes(ps, acts, ps2, acts2) && r == Ok::<(), GameError>(())
            && tk2 == tk.push(Exchange::Told(me, Info::Number(chef_number(ps) as u32)))
    } else if role == RoleId::Empath {
        empath_wakes(ps, acts, id, ps2, acts2) && r == Ok::<(), GameError>(())
            && tk2 == tk.push(Exchange::Told(me, Info::Number(empath_number(ps, id) as u32)))
    } else if role == RoleId::FortuneTeller {
        exists|p1: PlayerId, p2: PlayerId| #[trigger] fortune_teller_asks(ps, acts, red_herring_of(ps[id].role), p1, p2, ps2, acts2, r)
            && tk2 == match fortune_reading(ps, red_herring_of(ps[id].role) as int, p1 as int, p2 as int) {
                Ok(b) => tk + seq![Exchange::Named(me, p1), Exchange::Named(me, p2), Exchange::Told(me, Info::Bool(b))],
                Err(_) => tk + seq![Exchange::Named(me, p1), Exchange::Named(me, p2)],
            }
    } else if role == RoleId::Undertaker {
        r == Ok::<(), GameError>(()) && exists|seen: RoleId| #[trigger] undertaker_learns(ps, acts, id, seen, true, ps2, acts2)
            && tk2 == tk + undertaker_tells(ps, id, seen)
    } else if role == RoleId::Monk {
        exists|p: PlayerId| #[trigger] monk_protects(ps, acts, p, ps2, acts2, r) && tk2 == tk.push(Exchange::Named(me, p))
    } else if role == RoleId::RavensKeeper {
        if !ps[id].has(Note::DiedTonight) {
            ps2 == ps && acts2 == acts && tk2 == tk && r == Err::<(), GameError>(GameError::NotDiedTonight)
        } else {
            exists|p: PlayerId, seen: RoleId| #[trigger] ravenskeeper_learns(ps, acts, p, seen, true, ps2, acts2, r)
                && tk2 == if p >= ps.len() {
                    tk.push(Exchange::Named(me, p))
                } else {
                    tk + seq![Exchange::Named(me, p), Exchange::Told(me, Info::Role(seen))]
                }
        }
    } else if role == RoleId::Butler {
        r == Ok::<(), GameError>(()) && exists|p: PlayerId| #[trigger] butler_chooses(ps, acts, id, p, ps2, acts2)
            && tk2 == tk.push(Exchange::Named(me, p))
    } else if role == RoleId::Poisoner {
        exists|p: PlayerId| #[trigger] poisoner_targets(ps, acts, p, ps2, acts2, r) && tk2 == tk.push(Exchange::Named(me, p))
    } else if role == RoleId::Spy {
        &&& spy_wakes(ps, acts, ps2, acts2)
        &&& r == Ok::<(), GameError>(())
        &&& tk2.len() == tk.len() + 1 && tk2 == tk.push(tk2.last())
        &&& tk2.last() matches Exchange::Told(who, Info::Grim(shown)) && who == me && views(shown@) == ps
    } else {
        exists|p: PlayerId| #[trigger] imp_strikes(ps, acts, id, p, ps2, acts2, r) && tk2 == tk.push(Exchange::Named(me, p))
    }
}

/// What the drunk or poisoned role `role`, waking in seat `id`, does to the grimoire: it acts
/// as usual, but what it learns is drawn at random and what it does has no effect on the
/// players.
pub open spec fn drunk_outcome(role: RoleId, id: int, ps: Seq<PlayerState>, acts: Seq<Action>, tk: Seq<Exchange>, ps2: Seq<PlayerState>, acts2: Seq<Action>, tk2: Seq<Exchange>, r: Result<(), GameError>) -> bool {
    let me = id as PlayerId;
    if role == RoleId::WasherWoman || role == RoleId::Librarian || role == RoleId::Investigator {
        if ps.len() == 1 {
            ps2 == ps && acts2 == acts && tk2 == tk && r == Err::<(), GameError>(GameError::NoCandidate)
        } else {
            exists|p1: PlayerId, p2: PlayerId, drawn: RoleId| #[trigger] informer_misled(ps, acts, role, p1, p2, drawn, ps2, acts2, r)
                && tk2 == if r is Ok { tk + informer_tells(id, drawn, p1, p2) } else { tk }
        }
    } else if role == RoleId::Chef {
        if evil_seats(ps) < 2 {
            ps2 == ps && acts2 == acts && tk2 == tk && r == Err::<(), GameError>(GameError::TooFewEvil)
        } else {
            &&& ps2 == ps
            &&& one_more(acts, acts2)
            &&& acts2.last() matches Action::Chef { pairs } && pairs < evil_seats(ps) - 1
                && tk2 == tk.push(Exchange::Told(me, Info::Number(pairs)))
            &&& r == Ok::<(), GameError>(())
        }
    } else if role == RoleId::Empath {
        &&& ps2 == ps
        &&& one_more(acts, acts2)
        &&& acts2.last() matches Action::Empath(n) && n < 3 && tk2 == tk.push(Exchange::Told(me, Info::Number(n)))
        &&& r == Ok::<(), GameError>(())
    } else if role == RoleId::FortuneTeller {
        &&& ps2 == ps
        &&& one_more(acts, acts2)
        &&& acts2.last() matches Action::FortuneTeller { target, response }
            && tk2 == tk + seq![Exchange::Named(me, target[0]), Exchange::Named(me, target[1]), Exchange::Told(me, Info::Bool(response))]
        &&& r == Ok::<(), GameError>(())
    } else if role == RoleId::Undertaker {
        r == Ok::<(), GameError>(()) && exists|seen: RoleId| #[trigger] undertaker_learns(ps, acts, id, seen, false, ps2, acts2)
            && tk2 == tk + undertaker_tells(ps, id, seen)
    } else if role == RoleId::Monk {
        &&& ps2 == ps
        &&& one_more(acts, acts2)
        &&& acts2.last() matches Action::Monk { protected } && tk2 == tk.push(Exchange::Named(me, protected))
        &&& r == Ok::<(), GameError>(())
    } else if role == RoleId::RavensKeeper {
        if !ps[id].has(Note::DiedTonight) {
            ps2 == ps && acts2 == acts && tk2 == tk && r == Err::<(), GameError>(GameError::NotDiedTonight)
        } else {
            exists|p: PlayerId, seen: RoleId| #[trigger] ravenskeeper_learns(ps, acts, p, seen, false, ps2, acts2, r)
                && tk2 == tk + seq![Exchange::Named(me, p), Exchange::Told(me, Info::Role(seen))]
        }
    } else if role == RoleId::Butler {
        r == Ok::<(), GameError>(()) && exists|p: PlayerId| #[trigger] butler_chooses(ps, acts, id, p, ps2, acts2)
            && tk2 == tk.push(Exchange::Named(me, p))
    } else if role == RoleId::Poisoner {
        &&& ps2 == ps
        &&& one_more(acts, acts2)
        &&& acts2.last() matches Action::Poisoner { target } && tk2 == tk.push(Exchange::Named(me, target))
        &&& r == Ok::<(), GameError>(())
    } else if role == RoleId::Spy {
        ps2 == ps && acts2 == acts && tk2 == tk && r == Err::<(), GameError>(GameError::Unwritten)
    } else {
        &&& ps2 == ps
        &&& one_more(acts, acts2)
        &&& acts2.last() matches Action::ImpKill(p) && tk2 == tk.push(Exchange::Named(me, p))
        &&& r == Ok::<(), GameError>(())
    }
}

/// Whether seat `id` is the one that acts for `role`, whose first seat is `first`: that seat,
/// or, when `role` is the imp and that seat is dead, a living demon.
pub open spec fn acts_for(ps: Seq<PlayerState>, role: RoleId, first: int, id: int) -> bool {
    if role == RoleId::Imp && !ps[first].alive {
        0 <= id < ps.len() && Pick::LivingDemon.admits(id, ps[id])
    } else {
        id == first
    }
}

/// What waking `role` does while the role acts drunk or poisoned.
pub open spec fn poisoned_outcome(role: RoleId, ps: Seq<PlayerState>, acts: Seq<Action>, tk: Seq<Exchange>, ps2: Seq<PlayerState>, acts2: Seq<Action>, tk2: Seq<Exchange>, r: Result<(), GameError>) -> bool {
    match first_seat(ps, role) {
        None => false,
        Some(first) => if role == RoleId::Imp && !ps[first].alive && !any_admits(ps, Pick::LivingDemon) {
            ps2 == ps && acts2 == acts && tk2 == tk && r == Err::<(), GameError>(GameError::NoLivingDemon)
        } else {
            exists|id: int| #[trigger] acts_for(ps, role, first, id) && if !ps[id].alive && role != RoleId::RavensKeeper {
                ps2 == ps && acts2 == acts && tk2 == tk && r == Ok::<(), GameError>(())
            } else if !ps[id].has(Note::Poisoned) {
                ps2 == ps && acts2 == acts && tk2 == tk && r == Err::<(), GameError>(GameError::NotPoisoned)
            } else {
                drunk_outcome(role, id, ps, acts, tk, ps2, acts2, tk2, r)
            }
        },
    }
}

/// What waking `role` in the night does to the grimoire. No seat holds the role: nothing.
/// Otherwise the seat that acts for it, if poisoned, acts as `poisoned_outcome` says; if dead
/// (and not the ravenskeeper), does nothing; else acts as `sober_outcome` says.
pub open spec fn exec_outcome(role: RoleId, ps: Seq<PlayerState>, acts: Seq<Action>, tk: Seq<Exchange>, ps2: Seq<PlayerState>, acts2: Seq<Action>, tk2: Seq<Exchange>, r: Result<(), GameError>) -> bool {
    match first_seat(ps, role) {
        None => ps2 == ps && acts2 == acts && tk2 == tk && r == Ok::<(), GameError>(()),
        Some(first) => if role == RoleId::Imp && !ps[first].alive && !any_admits(ps, Pick::LivingDemon) {
            ps2 == ps && acts2 == acts && tk2 == tk && r == Err::<(), GameError>(GameError::NoLivingDemon)
        } else {
            exists|id: int| #[trigger] acts_for(ps, role, first, id) && if ps[id].has(Note::Poisoned) {
                poisoned_outcome(role, ps, acts, tk, ps2, acts2, tk2, r)
            } else if !ps[id].alive && role != RoleId::RavensKeeper {
                ps2 == ps && acts2 == acts && tk2 == tk && r == Ok::<(), GameError>(())
            } else {
                sober_outcome(role, id, ps, acts, tk, ps2, acts2, tk2, r)
            }
        },
    }
}

/// What waking each role of `order` in turn does, stopping at the first error.
pub open spec fn wakes_in_order(order: Seq<RoleId>, ps: Seq<PlayerState>, acts: Seq<Action>, tk: Seq<Exchange>, ps2: Seq<PlayerState>, acts2: Seq<Action>, tk2: Seq<Exchange>, r: Result<(), GameError>) -> bool
    decreases order.len(),
{
    if order.len() == 0 {
        ps2 == ps && acts2 == acts && tk2 == tk && r == Ok::<(), GameError>(())
    } else {
        ||| (r is Err && wakes_in_order(order.drop_last(), ps, acts, tk, ps2, acts2, tk2, r))
        ||| exists|psm: Seq<PlayerState>, actsm: Seq<Action>, tkm: Seq<Exchange>| #[trigger] exec_outcome(order.last(), psm, actsm, tkm, ps2, acts2, tk2, r)
                && wakes_in_order(order.drop_last(), ps, acts, tk, psm, actsm, tkm, Ok::<(), GameError>(()))
    }
}

/// The role a seat's player believes it holds: the drunk believes it holds the role it was
/// given; everyone else knows their role.
pub open spec fn believed(role: Role) -> RoleId {
    match role {
        Role::Drunk { role } => role,
        _ => role.spec_id(),
    }
}

/// Each seat of `ps`, in order, told the role it believes it holds.
pub open spec fn role_tells(ps: Seq<PlayerState>) -> Seq<Exchange> {
    Seq::new(ps.len(), |i: int| Exchange::Told(i as PlayerId, Info::Role(believed(ps[i].role))))
}

/// The first night falls on `ps`: every seat is told it is night, then every seat its role.
pub open spec fn night_falls(ps: Seq<PlayerState>) -> Seq<Exchange> {
    told_all(ps.len() as int, Info::Night) + role_tells(ps)
}

/// The seat of the demon that the first night wakes: the first seat of the imp.
pub open spec fn demon_seat(ps: Seq<PlayerState>) -> int {
    match first_seat(ps, RoleId::Imp) {
        Some(d) => d,
        None => 0,
    }
}

/// Among the first `k` seats, in order, each minion told the demon's seat `d` and the demon
/// told the minion's seat.
pub open spec fn minion_tells(ps: Seq<PlayerState>, d: int, k: int) -> Seq<Exchange>
    decreases k,
{
    if k <= 0 {
        Seq::empty()
    } else {
        minion_tells(ps, d, k - 1) + if ps[k - 1].id().spec_is_minion() {
            seq![Exchange::Told((k - 1) as PlayerId, Info::Player(d as PlayerId)), Exchange::Told(d as PlayerId, Info::Player((k - 1) as PlayerId))]
        } else {
            Seq::empty()
        }
    }
}

/// The minions and the demon of `ps` learn each other.
pub open spec fn evil_tells(ps: Seq<PlayerState>) -> Seq<Exchange> {
    minion_tells(ps, demon_seat(ps), ps.len() as int)
}

/// The demon in seat `d` told one bluff, if there is one.
pub open spec fn bluff_told(d: int, bluff: Option<RoleId>) -> Seq<Exchange> {
    match bluff {
        Some(b) => seq![Exchange::Told(d as PlayerId, Info::Role(b))],
        None => Seq::empty(),
    }
}

/// The demon in seat `d` told its three bluffs, those there are, in order.
pub open spec fn bluff_tells(d: int, bluffs: Seq<Option<RoleId>>) -> Seq<Exchange> {
    bluff_told(d, bluffs[0]) + bluff_told(d, bluffs[1]) + bluff_told(d, bluffs[2])
}

/// The order in which roles wake on the first night.
pub open spec fn first_night_order() -> Seq<RoleId> {
    seq![
        RoleId::Poisoner,
        RoleId::WasherWoman,
        RoleId::Librarian,
        RoleId::Investigator,
        RoleId::Chef,
        RoleId::Empath,
        RoleId::FortuneTeller,
        RoleId::Butler,
        RoleId::Spy,
    ]
}

/// The order in which roles wake on every other night.
pub open spec fn night_order() -> Seq<RoleId> {
    seq![
        RoleId::Poisoner,
        RoleId::Monk,
        RoleId::Imp,
        RoleId::RavensKeeper,
        RoleId::Empath,
        RoleId::FortuneTeller,
        RoleId::Butler,
        RoleId::Undertaker,
        RoleId::Spy,
    ]
}

/// The roles that the demon may bluff with: those that `is_good` holds and no seat holds, in
/// the order of the script.
pub open spec fn free_roles(ps: Seq<PlayerState>) -> Seq<RoleId> {
    free_among(crate::roles::all_role_ids(), ps)
}

/// The roles of `s` that `is_good` holds and no seat holds.
pub open spec fn free_among(s: Seq<RoleId>, ps: Seq<PlayerState>) -> Seq<RoleId> {
    s.filter(|x: RoleId| x.spec_is_good() && !in_play(ps, x))
}

/// Whether the demon's bluffs are roles free to bluff with, all different, and drawn one after
/// another (no bluff after a missing one).
pub open spec fn fair_bluffs(ps: Seq<PlayerState>, bluffs: Seq<Option<RoleId>>) -> bool {
    &&& bluffs.len() == 3
    &&& forall|k: int| 0 <= k < 3 ==> (#[trigger] bluffs[k] matches Some(b) ==> free_roles(ps).contains(b))
    &&& forall|k: int, j: int| 0 <= k < j < 3 && bluffs[k] is Some ==> bluffs[k] != bluffs[j]
    &&& forall|k: int, j: int| 0 <= k < j < 3 && bluffs[k] is None ==> bluffs[j] is None
}

/// A player as dawn finds it: the monk's protection and the poison worn off.
pub open spec fn at_dusk(p: PlayerState) -> PlayerState {
    p.without(Note::MonkProtected, Note::Poisoned)
}

/// The whole table as night finds it.
pub open spec fn table_at_dusk(ps: Seq<PlayerState>) -> Seq<PlayerState> {
    ps.map_values(|p: PlayerState| at_dusk(p))
}

impl<IO: GrimIO> Grimoir<IO> {
    /// What the ravenskeeper or the undertaker learns of a role named `actual`: a role drawn
    /// at random for the spy (among those `is_good` holds) and the recluse (among those
    /// `is_evil` holds), the role itself otherwise.
    fn misread(&mut self, actual: RoleId) -> (seen: RoleId)
        ensures
            final(self).talk() == old(self).talk(),
            may_show_as(actual, seen),
            actual == RoleId::Recluse ==> seen.spec_is_evil() && seen != RoleId::Recluse,
            actual == RoleId::Spy ==> seen.spec_is_good(),
            actual != RoleId::Recluse && actual != RoleId::Spy ==> seen == actual,
            final(self).players@ == old(self).players@,
            final(self).actions@ == old(self).actions@,
    {
        if actual == RoleId::Spy {
            let vec = ids_where_good();
            vec[self.get_rand(vec.len())]
        } else if actual == RoleId::Recluse {
            let vec = ids_where_evil();
            let k = self.get_rand(vec.len());
            let seen = vec[k];
            proof {
                assert(seen.spec_is_evil());
                assert(!RoleId::Recluse.spec_is_evil());
            }
            seen
        } else {
            actual
        }
    }


    /// The sober washerwoman, librarian or investigator in seat `id` is shown two seats, one of
    /// them holding its kind of role, and that role.
    fn wake_informer(&mut self, id: PlayerId, role: RoleId) -> (r: Result<(), GameError>)
        requires
            role == RoleId::WasherWoman || role == RoleId::Librarian || role == RoleId::Investigator,
        ensures
            keeps(old(self).players(), old(self).actions(), final(self).players(), final(self).actions()),
            sober_outcome(role, id as int, old(self).players(), old(self).actions(), old(self).talk(), final(self).players(), final(self).actions(), final(self).talk(), r),
    {
        let pick = if role == RoleId::WasherWoman {
            Pick::Townsfolk
        } else if role == RoleId::Librarian {
            Pick::Outsider
        } else {
            Pick::NonSpyMinion
        };
        let play1 = match self.get_rand_player(pick) {
            Some(p) => p,
            None => return Err(GameError::NoCandidate),
        };
        let play2 = match self.get_rand_player(Pick::Except(play1)) {
            Some(p) => p,
            None => {
                proof {
                    if old(self).players().len() != 1 {
                        let other: int = if play1 == 0 { 1 } else { 0 };
                        assert(Pick::Except(play1).admits(other, old(self).players()[other]));
                    }
                }
                return Err(GameError::NoCandidate);
            },
        };
        let players = if play2 < play1 {
            [play2, play1]
        } else {
            [play1, play2]
        };
        let shown = self.seat_id(play1);
        if role == RoleId::WasherWoman {
            self.log(Action::WasherWoman { players, role: shown });
        } else if role == RoleId::Librarian {
            self.log(Action::Librarian { players, role: shown });
        } else {
            self.log(Action::Investigator { players, role: shown });
        }
        self.tell(id, Info::Role(shown));
        self.tell(id, Info::Player(players[0]));
        self.tell(id, Info::Player(players[1]));
        proof {
            assert(players@ =~= (if play1 <= play2 { seq![play1, play2] } else { seq![play2, play1] }));
            assert(informer_shown(old(self).players(), old(self).actions(), role, play1, play2, self.players(), self.actions()));
            assert(self.talk() =~= old(self).talk() + informer_tells(id as int, shown, play1, play2));
        }
        Ok(())
    }

    /// The imp has killed itself: a living minion, drawn at random, becomes the imp.
    fn pass_demon(&mut self)
        ensures
            final(self).talk() == old(self).talk(),
            keeps(old(self).players(), old(self).actions(), final(self).players(), final(self).actions()),
            demon_passes(old(self).players(), old(self).actions(), final(self).players(), final(self).actions()),
    {
        match self.get_rand_player(Pick::LivingMinion) {
            Some(minion) => {
                self.recast(minion, Role::Imp);
                self.log(Action::ImpTransfer(minion));
                assert(passes_to(old(self).players(), old(self).actions(), minion, self.players(), self.actions()));
            },
            None => {
                proof {
                    assert forall|i: int| 0 <= i < old(self).players().len() implies !#[trigger] Pick::LivingMinion.admits(i, old(self).players()[i]) by {}
                }
            },
        }
    }

    /// The mayor deflects the kill of the imp in seat `id`.
    fn deflect_kill(&mut self, id: PlayerId) -> (r: Result<(), GameError>)
        requires
            id < old(self).players@.len(),
        ensures
            final(self).talk() == old(self).talk(),
            keeps(old(self).players(), old(self).actions(), final(self).players(), final(self).actions()),
            !any_admits(old(self).players(), Pick::LivingNonMayor) ==> final(self).players() == old(self).players()
                && final(self).actions() == old(self).actions() && r == Err::<(), GameError>(GameError::NoCandidate),
            any_admits(old(self).players(), Pick::LivingNonMayor) ==> exists|alt: PlayerId| #[trigger] mayor_deflects(old(self).players(), old(self).actions(), id as int, alt, final(self).players(), final(self).actions(), r),
    {
        let alt = match self.get_rand_player(Pick::LivingNonMayor) {
            Some(a) => a,
            None => return Err(GameError::NoCandidate),
        };
        self.log(Action::MayorDeflection(alt));
        let ghost acts3 = self.actions();
        if lands_deflected_kill(&self.players[alt]) {
            proof {
                assert(self.players@[alt as int]@ == old(self).players()[alt as int]);
            }
            self.kill_tonight(alt);
            if alt == id {
                self.pass_demon();
                assert(mayor_deflects(old(self).players(), old(self).actions(), id as int, alt, self.players(), self.actions(), Ok(())));
                Ok(())
            } else {
                assert(mayor_deflects(old(self).players(), old(self).actions(), id as int, alt, self.players(), self.actions(), Err(GameError::Unwritten)));
                Err(GameError::Unwritten)
            }
        } else {
            proof {
                assert(self.players@[alt as int]@ == old(self).players()[alt as int]);
            }
            assert(mayor_deflects(old(self).players(), old(self).actions(), id as int, alt, self.players(), self.actions(), Ok(())));
            Ok(())
        }
    }

    /// The sober imp in seat `id` chooses a seat to attack.
    fn wake_imp(&mut self, id: PlayerId) -> (r: Result<(), GameError>)
        requires
            id < old(self).players@.len(),
            Pick::LivingDemon.admits(id as int, old(self).players()[id as int]),
        ensures
            keeps(old(self).players(), old(self).actions(), final(self).players(), final(self).actions()),
            sober_outcome(RoleId::Imp, id as int, old(self).players(), old(self).actions(), old(self).talk(), final(self).players(), final(self).actions(), final(self).talk(), r),
    {
        let player = self.prompt_player(id);
        self.log(Action::ImpKill(player));
        if player >= self.seats() {
            assert(imp_strikes(old(self).players(), old(self).actions(), id as int, player, self.players(), self.actions(), Err(GameError::NoSuchPlayer(player))));
            return Err(GameError::NoSuchPlayer(player));
        }
        proof {
            assert(self.players@[player as int]@ == old(self).players()[player as int]);
        }
        if lands_kill(&self.players[player]) {
            self.kill_tonight(player);
            if player == id {
                self.pass_demon();
                assert(imp_strikes(old(self).players(), old(self).actions(), id as int, player, self.players(), self.actions(), Ok(())));
            } else {
                proof {
                    assert(self.players()[id as int] == old(self).players()[id as int]);
                    assert(Pick::LivingDemon.admits(id as int, self.players()[id as int]));
                    assert(self.actions().last() == Action::ImpKill(player));
                }
                let never = self.win(true);
                proof {
                    use_type_invariant(&never);
                }
            }
            Ok(())
        } else if self.seat_id(player) == RoleId::Mayor {
            let r = self.deflect_kill(id);
            assert(imp_strikes(old(self).players(), old(self).actions(), id as int, player, self.players(), self.actions(), r));
            r
        } else {
            assert(imp_strikes(old(self).players(), old(self).actions(), id as int, player, self.players(), self.actions(), Ok(())));
            Ok(())
        }
    }


    /// The drunk or poisoned washerwoman, librarian or investigator is shown two seats at
    /// random and a role of its kind at random.
    fn misled_informer(&mut self, id: PlayerId, role: RoleId) -> (r: Result<(), GameError>)
        requires
            role == RoleId::WasherWoman || role == RoleId::Librarian || role == RoleId::Investigator,
            id < old(self).players@.len(),
        ensures
            keeps(old(self).players(), old(self).actions(), final(self).players(), final(self).actions()),
            drunk_outcome(role, id as int, old(self).players(), old(self).actions(), old(self).talk(), final(self).players(), final(self).actions(), final(self).talk(), r),
    {
        let play1 = match self.get_rand_player(Pick::Any) {
            Some(p) => p,
            None => {
                proof {
                    assert(Pick::Any.admits(id as int, old(self).players()[id as int]));
                }
                return Err(GameError::NoCandidate);
            },
        };
        let play2 = match self.get_rand_player(Pick::Except(play1)) {
            Some(p) => p,
            None => {
                proof {
                    if old(self).players().len() != 1 {
                        let other: int = if play1 == 0 { 1 } else { 0 };
                        assert(Pick::Except(play1).admits(other, old(self).players()[other]));
                    }
                }
                return Err(GameError::NoCandidate);
            },
        };
        let players = if play2 < play1 {
            [play2, play1]
        } else {
            [play1, play2]
        };
        let class = if role == RoleId::WasherWoman {
            Class::Townsfolk
        } else if role == RoleId::Librarian {
            Class::Outsider
        } else {
            Class::Minion
        };
        let all = RoleId::all();
        let roles = ids_in_class(&all, class);
        proof {
            let holds = |x: RoleId| class.holds(x);
            assert(class.holds(all@[0]) || class.holds(all@[13]) || class.holds(all@[17]) || class.holds(all@[21]));
            let w: int = if class.holds(all@[0]) { 0 } else if class.holds(all@[13]) { 13 } else if class.holds(all@[17]) { 17 } else { 21 };
            all@.lemma_filter_contains(holds, w);
            assert forall|i: int| 0 <= i < roles@.len() implies class.holds(#[trigger] roles@[i]) by {
                all@.lemma_filter_pred(holds, i);
            }
        }
        let drawn = roles[self.get_rand(roles.len())];
        let shown = self.seat_id(play1);
        proof {
            assert(players@ =~= (if play1 <= play2 { seq![play1, play2] } else { seq![play2, play1] }));
        }
        if drawn == RoleId::WasherWoman {
            self.log(Action::WasherWoman { players, role: shown });
        } else if drawn == RoleId::Librarian {
            self.log(Action::Librarian { players, role: shown });
        } else if drawn == RoleId::Investigator {
            self.log(Action::Investigator { players, role: shown });
        } else {
            assert(informer_misled(old(self).players(), old(self).actions(), role, play1, play2, drawn, self.players(), self.actions(), Err(GameError::MismatchedReading)));
            return Err(GameError::MismatchedReading);
        }
        self.tell(id, Info::Role(drawn));
        self.tell(id, Info::Player(players[0]));
        self.tell(id, Info::Player(players[1]));
        assert(informer_misled(old(self).players(), old(self).actions(), role, play1, play2, drawn, self.players(), self.actions(), Ok(())));
        assert(self.talk() =~= old(self).talk() + informer_tells(id as int, drawn, play1, play2));
        Ok(())
    }

    /// The drunk or poisoned chef learns a number below the count of evil seats less one.
    fn misled_chef(&mut self, id: PlayerId) -> (r: Result<(), GameError>)
        requires
            old(self).seats_fit(),
        ensures
            keeps(old(self).players(), old(self).actions(), final(self).players(), final(self).actions()),
            drunk_outcome(RoleId::Chef, id as int, old(self).players(), old(self).actions(), old(self).talk(), final(self).players(), final(self).actions(), final(self).talk(), r),
    {
        let evil = self.count_evil_seats();
        if evil < 2 {
            return Err(GameError::TooFewEvil);
        }
        let pairs = self.get_rand(evil - 1) as u32;
        self.log(Action::Chef { pairs });
        self.tell(id, Info::Number(pairs));
        Ok(())
    }

    /// How many seats hold a role that `is_evil` holds.
    fn count_evil_seats(&self) -> (r: usize)
        ensures
            r == evil_seats(self.players()),
    {
        let ghost ps = self.players();
        let mut count: usize = 0;
        let mut i: usize = 0;
        while i < self.players.len()
            invariant
                i <= self.players@.len(),
                ps == self.players(),
                count == evil_seats(ps.take(i as int)),
                count <= i,
            decreases self.players@.len() - i,
        {
            proof {
                assert(ps.take(i + 1).drop_last() =~= ps.take(i as int));
                assert(ps[i as int] == self.players@[i as int]@);
            }
            if self.players[i].role.id().is_evil() {
                count = count + 1;
            }
            i = i + 1;
        }
        proof {
            assert(ps.take(i as int) =~= ps);
        }
        count
    }

    /// The drunk or poisoned empath learns a number below three.
    fn misled_empath(&mut self, id: PlayerId) -> (r: Result<(), GameError>)
        ensures
            keeps(old(self).players(), old(self).actions(), final(self).players(), final(self).actions()),
            drunk_outcome(RoleId::Empath, id as int, old(self).players(), old(self).actions(), old(self).talk(), final(self).players(), final(self).actions(), final(self).talk(), r),
    {
        let count = self.get_rand(3) as u32;
        self.log(Action::Empath(count));
        self.tell(id, Info::Number(count));
        Ok(())
    }

    /// The drunk or poisoned fortune teller asks about two seats and learns a coin toss.
    fn misled_fortune_teller(&mut self, id: PlayerId) -> (r: Result<(), GameError>)
        ensures
            keeps(old(self).players(), old(self).actions(), final(self).players(), final(self).actions()),
            drunk_outcome(RoleId::FortuneTeller, id as int, old(self).players(), old(self).actions(), old(self).talk(), final(self).players(), final(self).actions(), final(self).talk(), r),
    {
        let target = [self.prompt_player(id), self.prompt_player(id)];
        let num = self.get_rand(2) == 1;
        self.log(Action::FortuneTeller { target, response: num });
        self.tell(id, Info::Bool(num));
        assert(self.talk() =~= old(self).talk() + seq![Exchange::Named(id, target[0]), Exchange::Named(id, target[1]), Exchange::Told(id, Info::Bool(num))]);
        Ok(())
    }

    /// The drunk or poisoned undertaker learns a role at random, if there was an execution, and
    /// forgets the execution.
    fn misled_undertaker(&mut self, id: PlayerId) -> (r: Result<(), GameError>)
        requires
            id < old(self).players@.len(),
            old(self).players()[id as int].id() == RoleId::Undertaker,
        ensures
            keeps(old(self).players(), old(self).actions(), final(self).players(), final(self).actions()),
            drunk_outcome(RoleId::Undertaker, id as int, old(self).players(), old(self).actions(), old(self).talk(), final(self).players(), final(self).actions(), final(self).talk(), r),
    {
        let last_exec = match self.seat_role(id) {
            Role::Undertaker { last_exec } => last_exec,
            _ => None,
        };
        let mut seen = RoleId::Undertaker;
        if let Some(_) = last_exec {
            let vec = RoleId::all();
            seen = vec[self.get_rand(vec.len())];
            self.log(Action::Undertaker(seen));
            self.tell(id, Info::Role(seen));
        }
        self.recast(id, Role::Undertaker { last_exec: None });
        assert(undertaker_learns(old(self).players(), old(self).actions(), id as int, seen, false, self.players(), self.actions()));
        assert(self.talk() =~= old(self).talk() + undertaker_tells(old(self).players(), id as int, seen));
        Ok(())
    }

    /// The drunk or poisoned monk chooses a seat, to no effect.
    fn misled_monk(&mut self, id: PlayerId) -> (r: Result<(), GameError>)
        ensures
            keeps(old(self).players(), old(self).actions(), final(self).players(), final(self).actions()),
            drunk_outcome(RoleId::Monk, id as int, old(self).players(), old(self).actions(), old(self).talk(), final(self).players(), final(self).actions(), final(self).talk(), r),
    {
        let protected = self.prompt_player(id);
        self.log(Action::Monk { protected });
        Ok(())
    }

    /// The drunk or poisoned ravenskeeper, dead tonight, chooses a seat and learns a role at
    /// random.
    fn misled_ravenskeeper(&mut self, id: PlayerId) -> (r: Result<(), GameError>)
        requires
            id < old(self).players@.len(),
        ensures
            keeps(old(self).players(), old(self).actions(), final(self).players(), final(self).actions()),
            drunk_outcome(RoleId::RavensKeeper, id as int, old(self).players(), old(self).actions(), old(self).talk(), final(self).players(), final(self).actions(), final(self).talk(), r),
    {
        if !self.seat_has(id, Note::DiedTonight) {
            return Err(GameError::NotDiedTonight);
        }
        let target = self.prompt_player(id);
        let vec = RoleId::all();
        let role = vec[self.get_rand(vec.len())];
        self.log(Action::RavensKeeper { target, response: role });
        self.tell(id, Info::Role(role));
        assert(ravenskeeper_learns(old(self).players(), old(self).actions(), target, role, false, self.players(), self.actions(), Ok(())));
        assert(self.talk() =~= old(self).talk() + seq![Exchange::Named(id, target), Exchange::Told(id, Info::Role(role))]);
        Ok(())
    }

    /// The drunk or poisoned poisoner chooses a seat, to no effect.
    fn misled_poisoner(&mut self, id: PlayerId) -> (r: Result<(), GameError>)
        ensures
            keeps(old(self).players(), old(self).actions(), final(self).players(), final(self).actions()),
            drunk_outcome(RoleId::Poisoner, id as int, old(self).players(), old(self).actions(), old(self).talk(), final(self).players(), final(self).actions(), final(self).talk(), r),
    {
        let target = self.prompt_player(id);
        self.log(Action::Poisoner { target });
        Ok(())
    }

    /// The drunk or poisoned imp chooses a seat, to no effect.
    fn misled_imp(&mut self, id: PlayerId) -> (r: Result<(), GameError>)
        ensures
            keeps(old(self).players(), old(self).actions(), final(self).players(), final(self).actions()),
            drunk_outcome(RoleId::Imp, id as int, old(self).players(), old(self).actions(), old(self).talk(), final(self).players(), final(self).actions(), final(self).talk(), r),
    {
        let player = self.prompt_player(id);
        self.log(Action::ImpKill(player));
        Ok(())
    }


    /// Wakes the role `role` for the night: the seat that holds it acts, drunk or poisoned when
    /// marked poisoned, not at all when dead (but for the ravenskeeper).
    fn exec(&mut self, role: RoleId) -> (r: Result<(), GameError>)
        requires
            wakes_at_night(role) || idle_at_night(old(self).players(), role),
            old(self).seats_fit(),
        ensures
            r != Err::<(), GameError>(GameError::NoFreeRole),
            !(r matches Err(GameError::MissingRole(_))),
            exec_outcome(role, old(self).players(), old(self).actions(), old(self).talk(), final(self).players(), final(self).actions(), final(self).talk(), r),
            keeps(old(self).players(), old(self).actions(), final(self).players(), final(self).actions()),
            (match first_seat(old(self).players(), role) {
                None => true,
                Some(f) => role != RoleId::Imp && role != RoleId::RavensKeeper && !old(self).players()[f].alive,
            }) ==> final(self).rand == old(self).rand,
    {
        let first = match self.get_role(role) {
            Some(i) => i,
            None => return Ok(()),
        };
        let mut id = first;
        if role == RoleId::Imp && !self.seat_alive(id) {
            match self.get_rand_player(Pick::LivingDemon) {
                Some(s) => id = s,
                None => return Err(GameError::NoLivingDemon),
            }
        }
        assert(acts_for(old(self).players(), role, first as int, id as int));
        if role == RoleId::Drunk || self.seat_has(id, Note::Poisoned) {
            let r = self.poisoned_exec(role);
            proof {
                if !old(self).players()[id as int].has(Note::Poisoned) {
                    assert(role == RoleId::Drunk && !old(self).players()[id as int].alive);
                }
            }
            assert(acts_for(old(self).players(), role, first as int, id as int));
            return r;
        }
        if !self.seat_alive(id) && role != RoleId::RavensKeeper {
            return Ok(());
        }
        let r = match role {
            RoleId::WasherWoman | RoleId::Librarian | RoleId::Investigator => self.wake_informer(id, role),
            RoleId::Chef => self.wake_chef(id),
            RoleId::Empath => self.wake_empath(id),
            RoleId::FortuneTeller => self.wake_fortune_teller(id),
            RoleId::Undertaker => self.wake_undertaker(id),
            RoleId::Monk => self.wake_monk(id),
            RoleId::RavensKeeper => self.wake_ravenskeeper(id),
            RoleId::Butler => self.wake_butler(id),
            RoleId::Poisoner => self.wake_poisoner(id),
            RoleId::Spy => self.wake_spy(id),
            _ => self.wake_imp(id),
        };
        assert(acts_for(old(self).players(), role, first as int, id as int));
        r
    }

    /// Wakes the role `role` while it acts drunk or poisoned.
    fn poisoned_exec(&mut self, role: RoleId) -> (r: Result<(), GameError>)
        requires
            wakes_at_night(role) || idle_at_night(old(self).players(), role),
            in_play(old(self).players(), role),
            old(self).seats_fit(),
        ensures
            r != Err::<(), GameError>(GameError::NoFreeRole),
            !(r matches Err(GameError::MissingRole(_))),
            poisoned_outcome(role, old(self).players(), old(self).actions(), old(self).talk(), final(self).players(), final(self).actions(), final(self).talk(), r),
            keeps(old(self).players(), old(self).actions(), final(self).players(), final(self).actions()),
            (match first_seat(old(self).players(), role) {
                None => true,
                Some(f) => role != RoleId::Imp && role != RoleId::RavensKeeper && !old(self).players()[f].alive,
            }) ==> final(self).rand == old(self).rand,
    {
        let first = match self.get_role(role) {
            Some(i) => i,
            None => return Err(GameError::MissingRole(role)),
        };
        let mut id = first;
        if role == RoleId::Imp && !self.seat_alive(id) {
            match self.get_rand_player(Pick::LivingDemon) {
                Some(s) => id = s,
                None => return Err(GameError::NoLivingDemon),
            }
        }
        assert(acts_for(old(self).players(), role, first as int, id as int));
        if !self.seat_alive(id) && role != RoleId::RavensKeeper {
            return Ok(());
        }
        if !self.seat_has(id, Note::Poisoned) {
            return Err(GameError::NotPoisoned);
        }
        let r = match role {
            RoleId::WasherWoman | RoleId::Librarian | RoleId::Investigator => self.misled_informer(id, role),
            RoleId::Chef => self.misled_chef(id),
            RoleId::Empath => self.misled_empath(id),
            RoleId::FortuneTeller => self.misled_fortune_teller(id),
            RoleId::Undertaker => self.misled_undertaker(id),
            RoleId::Monk => self.misled_monk(id),
            RoleId::RavensKeeper => self.misled_ravenskeeper(id),
            RoleId::Butler => self.wake_butler(id),
            RoleId::Poisoner => self.misled_poisoner(id),
            RoleId::Spy => Err(GameError::Unwritten),
            _ => self.misled_imp(id),
        };
        assert(acts_for(old(self).players(), role, first as int, id as int));
        r
    }


    /// Wakes each role of `order` in turn, stopping at the first error.
    fn exec_each(&mut self, order: &Vec<RoleId>) -> (r: Result<(), GameError>)
        requires
            forall|i: int| 0 <= i < order@.len() ==> wakes_at_night(#[trigger] order@[i]),
            old(self).seats_fit(),
        ensures
            r != Err::<(), GameError>(GameError::NoFreeRole),
            !(r matches Err(GameError::MissingRole(_))),
            wakes_in_order(order@, old(self).players(), old(self).actions(), old(self).talk(), final(self).players(), final(self).actions(), final(self).talk(), r),
            keeps(old(self).players(), old(self).actions(), final(self).players(), final(self).actions()),
    {
        let mut i: usize = 0;
        while i < order.len()
            invariant
                i <= order@.len(),
                forall|k: int| 0 <= k < order@.len() ==> wakes_at_night(#[trigger] order@[k]),
                self.seats_fit(),
                wakes_in_order(order@.take(i as int), old(self).players(), old(self).actions(), old(self).talk(), self.players(), self.actions(), self.talk(), Ok::<(), GameError>(())),
                keeps(old(self).players(), old(self).actions(), self.players(), self.actions()),
            decreases order@.len() - i,
        {
            let ghost psm = self.players();
            let ghost actsm = self.actions();
            let ghost tkm = self.talk();
            let r = self.exec(order[i]);
            proof {
                lemma_keeps_chain(old(self).players(), old(self).actions(), psm, actsm, self.players(), self.actions());
                let next = order@.take(i + 1);
                assert(next.drop_last() =~= order@.take(i as int));
                assert(next.last() == order@[i as int]);
                assert(exec_outcome(next.last(), psm, actsm, tkm, self.players(), self.actions(), self.talk(), r));
                assert(wakes_in_order(next, old(self).players(), old(self).actions(), old(self).talk(), self.players(), self.actions(), self.talk(), r));
            }
            match r {
                Err(e) => {
                    proof {
                        lemma_error_stops(order@, i + 1, old(self).players(), old(self).actions(), old(self).talk(), self.players(), self.actions(), self.talk(), r);
                    }
                    return Err(e);
                },
                Ok(()) => {},
            }
            i = i + 1;
        }
        proof {
            assert(order@.take(i as int) =~= order@);
        }
        Ok(())
    }


    /// The first night: every player learns their role (the drunk, the role it believes it
    /// has), the minions and the demon learn each other, the demon learns up to three roles to
    /// bluff with, and the roles of the first night wake in turn.
    pub fn first_night(&mut self) -> (r: Result<(), GameError>)
        requires
            old(self).seats_fit(),
        ensures
            keeps(old(self).players(), old(self).actions(), final(self).players(), final(self).actions()),
            !in_play(old(self).players(), RoleId::Imp) ==> r == Err::<(), GameError>(GameError::MissingRole(RoleId::Imp))
                && final(self).players() == old(self).players() && final(self).actions() == old(self).actions()
                && final(self).talk() == old(self).talk() + night_falls(old(self).players()),
            r matches Err(GameError::MissingRole(x)) ==> x == RoleId::Imp && !in_play(old(self).players(), RoleId::Imp),
            in_play(old(self).players(), RoleId::Imp) && free_roles(old(self).players()).len() == 0
                ==> r == Err::<(), GameError>(GameError::NoFreeRole),
            r == Err::<(), GameError>(GameError::NoFreeRole) ==> in_play(old(self).players(), RoleId::Imp)
                && free_roles(old(self).players()).len() == 0
                && final(self).players() == old(self).players() && final(self).actions() == old(self).actions()
                && final(self).talk() == old(self).talk() + night_falls(old(self).players()) + evil_tells(old(self).players()),
            in_play(old(self).players(), RoleId::Imp) && r != Err::<(), GameError>(GameError::NoFreeRole) ==> exists|bluffs: [Option<RoleId>; 3]|
                #[trigger] fair_bluffs(old(self).players(), bluffs@)
                && (exists|ks: Seq<usize>| #[trigger] bluff_draws(free_roles(old(self).players()).len() as int, ks)
                    && bluffs@ == bluffs_drawn(free_roles(old(self).players()), ks))
                && wakes_in_order(
                    first_night_order(),
                    old(self).players(),
                    old(self).actions().push(Action::ImpInfo(bluffs)),
                    old(self).talk() + night_falls(old(self).players()) + evil_tells(old(self).players())
                        + bluff_tells(demon_seat(old(self).players()), bluffs@),
                    final(self).players(),
                    final(self).actions(),
                    final(self).talk(),
                    r,
                ),
    {
        let ghost ps0 = self.players();
        let ghost tk0 = self.talk();
        self.tell_all(Info::Night);
        let n = self.seats();
        let mut i: usize = 0;
        while i < n
            invariant
                n == self.players@.len(),
                i <= n,
                self.players@ == old(self).players@,
                self.actions@ == old(self).actions@,
                ps0 == self.players(),
                self.talk() == tk0 + told_all(n as int, Info::Night) + role_tells(ps0).take(i as int),
            decreases n - i,
        {
            let ghost before = self.talk();
            match self.seat_role(i) {
                Role::Drunk { role } => self.tell(i, Info::Role(role)),
                x => self.tell(i, Info::Role(x.id())),
            }
            proof {
                assert(role_tells(ps0).take(i + 1) =~= role_tells(ps0).take(i as int).push(role_tells(ps0)[i as int]));
                assert(self.talk() =~= tk0 + told_all(n as int, Info::Night) + role_tells(ps0).take(i + 1));
            }
            i = i + 1;
        }
        proof {
            assert(role_tells(ps0).take(n as int) =~= role_tells(ps0));
            assert(self.talk() =~= tk0 + night_falls(ps0));
        }
        let demon = match self.get_role(RoleId::Imp) {
            Some(d) => d,
            None => return Err(GameError::MissingRole(RoleId::Imp)),
        };
        let ghost tk1 = self.talk();
        let mut i: usize = 0;
        while i < n
            invariant
                n == self.players@.len(),
                i <= n,
                demon < n,
                self.players@ == old(self).players@,
                self.actions@ == old(self).actions@,
                ps0 == self.players(),
                self.talk() == tk1 + minion_tells(ps0, demon as int, i as int),
            decreases n - i,
        {
            proof {
                assert(ps0[i as int] == self.players@[i as int]@);
            }
            if self.players[i].role.id().is_minion() {
                self.tell(i, Info::Player(demon));
                self.tell(demon, Info::Player(i));
            }
            proof {
                assert(self.talk() =~= tk1 + minion_tells(ps0, demon as int, i + 1));
            }
            i = i + 1;
        }
        proof {
            assert(demon_seat(ps0) == demon);
            assert(self.talk() =~= tk0 + night_falls(ps0) + evil_tells(ps0));
        }
        let ghost tk2 = self.talk();
        let free = self.free_role_list();
        let ghost free0 = free@;
        if free.len() == 0 {
            proof {
                let none: Seq<Option<RoleId>> = seq![None, None, None];
                assert(bluff_tells(demon as int, none) =~= Seq::<Exchange>::empty());
                assert(self.talk() == tk2 + bluff_tells(demon as int, none));
            }
            return Err(GameError::NoFreeRole);
        }
        let draws = self.draw_bluff_numbers(free.len());
        let bluffs = bluffs_from_draws(free, &draws);
        proof {
            assert(fair_bluffs(old(self).players(), bluffs@));
            assert(bluff_tells(demon as int, bluffs@) =~= bluff_told(demon as int, bluffs@[0]) + bluff_told(demon as int, bluffs@[1]) + bluff_told(demon as int, bluffs@[2]));
        }
        if let Some(b) = bluffs[0] {
            self.tell(demon, Info::Role(b));
        }
        proof {
            assert(self.talk() =~= tk2 + bluff_told(demon as int, bluffs@[0]));
        }
        if let Some(b) = bluffs[1] {
            self.tell(demon, Info::Role(b));
        }
        proof {
            assert(self.talk() =~= tk2 + bluff_told(demon as int, bluffs@[0]) + bluff_told(demon as int, bluffs@[1]));
        }
        if let Some(b) = bluffs[2] {
            self.tell(demon, Info::Role(b));
        }
        proof {
            assert(self.talk() =~= tk2 + bluff_tells(demon as int, bluffs@));
        }
        self.log(Action::ImpInfo(bluffs));
        let order = vec![
            RoleId::Poisoner,
            RoleId::WasherWoman,
            RoleId::Librarian,
            RoleId::Investigator,
            RoleId::Chef,
            RoleId::Empath,
            RoleId::FortuneTeller,
            RoleId::Butler,
            RoleId::Spy,
        ];
        proof {
            assert(order@ =~= first_night_order());
        }
        let ghost ps1 = self.players();
        let ghost acts1 = self.actions();
        let r = self.exec_each(&order);
        proof {
            assert(keeps(old(self).players(), old(self).actions(), ps1, acts1));
            lemma_keeps_chain(old(self).players(), old(self).actions(), ps1, acts1, self.players(), self.actions());
            assert(fair_bluffs(old(self).players(), bluffs@));
        }
        r
    }

    /// Draws the numbers of the demon's bluffs out of `n` roles free to bluff with: up to three,
    /// each from what is left of the roles, stopping after a zero.
    fn draw_bluff_numbers(&mut self, n: usize) -> (ks: Vec<usize>)
        requires
            n > 0,
        ensures
            bluff_draws(n as int, ks@),
            final(self).players@ == old(self).players@,
            final(self).actions@ == old(self).actions@,
            final(self).talk() == old(self).talk(),
    {
        let mut ks: Vec<usize> = Vec::new();
        let mut i: usize = 0;
        let mut stop = false;
        while i < 3 && !stop
            invariant
                n > 0,
                i <= 3,
                ks@.len() == i,
                forall|j: int| 0 <= j < i ==> #[trigger] ks@[j] < n - j,
                forall|j: int| 0 <= j < i - 1 ==> #[trigger] ks@[j] != 0,
                stop ==> i >= 1 && ks@[i - 1] == 0,
                !stop && i >= 1 ==> ks@[i - 1] != 0,
                i == 0 ==> !stop,
                self.players@ == old(self).players@,
                self.actions@ == old(self).actions@,
                self.talk() == old(self).talk(),
            decreases 3 - i,
        {
            proof {
                if i > 0 {
                    assert(ks@[i - 1] < n - (i - 1));
                }
            }
            let k = self.get_rand(n - i);
            ks.push(k);
            i = i + 1;
            if k == 0 {
                stop = true;
            }
        }
        ks
    }

    /// The roles free to bluff with, in the order of the script.
    fn free_role_list(&self) -> (r: Vec<RoleId>)
        ensures
            r@ == free_roles(self.players()),
            r@.no_duplicates(),
    {
        let all = RoleId::all();
        let ghost ps = self.players();
        let mut free: Vec<RoleId> = Vec::new();
        let mut i: usize = 0;
        proof {
            crate::roles::lemma_all_lists_each_role_once(RoleId::Imp);
        }
        while i < all.len()
            invariant
                i <= all@.len(),
                all@ == crate::roles::all_role_ids(),
                all@.no_duplicates(),
                ps == self.players(),
                free@ == free_among(all@.take(i as int), ps),
                free@.no_duplicates(),
                forall|k: int| #![trigger free@[k]] 0 <= k < free@.len() ==> exists|j: int| 0 <= j < i && #[trigger] all@[j] == free@[k],
            decreases all@.len() - i,
        {
            proof {
                assert(all@.take(i + 1).drop_last() =~= all@.take(i as int));
                reveal_with_fuel(Seq::filter, 1);
            }
            let x = all[i];
            if x.is_good() && self.get_role(x).is_none() {
                proof {
                    assert forall|k: int| 0 <= k < free@.len() implies free@[k] != x by {
                        let j = choose|j: int| 0 <= j < i && #[trigger] all@[j] == free@[k];
                        assert(all@[j] != all@[i as int]);
                    }
                }
                free.push(x);
                proof {
                    assert forall|k: int| #![trigger free@[k]] 0 <= k < free@.len() implies exists|j: int| 0 <= j < i + 1 && #[trigger] all@[j] == free@[k] by {
                        if k == free@.len() - 1 {
                            assert(all@[i as int] == free@[k]);
                        } else {
                            let j = choose|j: int| 0 <= j < i && #[trigger] all@[j] == free@[k];
                            assert(all@[j] == free@[k]);
                        }
                    }
                }
            }
            i = i + 1;
        }
        proof {
            assert(all@.take(i as int) =~= all@);
        }
        free
    }


    /// A night after the first: the monk's protection and the poison wear off, and the roles
    /// of the night wake in turn.
    pub fn night(&mut self) -> (r: Result<(), GameError>)
        requires
            old(self).seats_fit(),
        ensures
            keeps(old(self).players(), old(self).actions(), final(self).players(), final(self).actions()),
            wakes_in_order(night_order(), table_at_dusk(old(self).players()), old(self).actions(), old(self).talk() + told_all(old(self).players().len() as int, Info::Night), final(self).players(), final(self).actions(), final(self).talk(), r),
    {
        self.tell_all(Info::Night);
        let n = self.seats();
        let mut i: usize = 0;
        while i < n
            invariant
                n == self.players().len(),
                n == old(self).players().len(),
                i <= n,
                self.actions() == old(self).actions(),
                self.talk() == old(self).talk() + told_all(n as int, Info::Night),
                forall|k: int| 0 <= k < i ==> #[trigger] self.players()[k] == at_dusk(old(self).players()[k]),
                forall|k: int| i <= k < n ==> #[trigger] self.players()[k] == old(self).players()[k],
            decreases n - i,
        {
            self.drop_notes(i, Note::MonkProtected, Note::Poisoned);
            i = i + 1;
        }
        proof {
            assert(self.players() =~= table_at_dusk(old(self).players()));
            assert(keeps(old(self).players(), old(self).actions(), self.players(), self.actions()));
        }
        let order = vec![
            RoleId::Poisoner,
            RoleId::Monk,
            RoleId::Imp,
            RoleId::RavensKeeper,
            RoleId::Empath,
            RoleId::FortuneTeller,
            RoleId::Butler,
            RoleId::Undertaker,
            RoleId::Spy,
        ];
        proof {
            assert(order@ =~= night_order());
        }
        let ghost ps1 = self.players();
        let ghost acts1 = self.actions();
        let r = self.exec_each(&order);
        proof {
            lemma_keeps_chain(old(self).players(), old(self).actions(), ps1, acts1, self.players(), self.actions());
        }
        r
    }

    /// The sober chef learns the chef's number.
    fn wake_chef(&mut self, id: PlayerId) -> (r: Result<(), GameError>)
        requires
            id < old(self).players@.len(),
            old(self).seats_fit(),
        ensures
            keeps(old(self).players(), old(self).actions(), final(self).players(), final(self).actions()),
            sober_outcome(RoleId::Chef, id as int, old(self).players(), old(self).actions(), old(self).talk(), final(self).players(), final(self).actions(), final(self).talk(), r),
    {
        let pairs = chef_pairs(&self.players);
        self.log(Action::Chef { pairs });
        self.tell(id, Info::Number(pairs));
        Ok(())
    }

    /// The sober empath in seat `id` learns the empath's number.
    fn wake_empath(&mut self, id: PlayerId) -> (r: Result<(), GameError>)
        requires
            id < old(self).players@.len(),
        ensures
            keeps(old(self).players(), old(self).actions(), final(self).players(), final(self).actions()),
            sober_outcome(RoleId::Empath, id as int, old(self).players(), old(self).actions(), old(self).talk(), final(self).players(), final(self).actions(), final(self).talk(), r),
    {
        let count = empath_count(&self.players, id);
        self.log(Action::Empath(count));
        self.tell(id, Info::Number(count));
        Ok(())
    }

    /// The sober monk protects a seat of its choice.
    fn wake_monk(&mut self, id: PlayerId) -> (r: Result<(), GameError>)
        ensures
            keeps(old(self).players(), old(self).actions(), final(self).players(), final(self).actions()),
            sober_outcome(RoleId::Monk, id as int, old(self).players(), old(self).actions(), old(self).talk(), final(self).players(), final(self).actions(), final(self).talk(), r),
    {
        let player = self.prompt_player(id);
        self.log(Action::Monk { protected: player });
        if player >= self.seats() {
            assert(monk_protects(old(self).players(), old(self).actions(), player, self.players(), self.actions(), Err(GameError::NoSuchPlayer(player))));
            return Err(GameError::NoSuchPlayer(player));
        }
        self.mark(player, Note::MonkProtected);
        assert(monk_protects(old(self).players(), old(self).actions(), player, self.players(), self.actions(), Ok(())));
        Ok(())
    }

    /// The sober poisoner poisons a seat of its choice.
    fn wake_poisoner(&mut self, id: PlayerId) -> (r: Result<(), GameError>)
        ensures
            keeps(old(self).players(), old(self).actions(), final(self).players(), final(self).actions()),
            sober_outcome(RoleId::Poisoner, id as int, old(self).players(), old(self).actions(), old(self).talk(), final(self).players(), final(self).actions(), final(self).talk(), r),
    {
        let player = self.prompt_player(id);
        self.log(Action::Poisoner { target: player });
        if player >= self.seats() {
            assert(poisoner_targets(old(self).players(), old(self).actions(), player, self.players(), self.actions(), Err(GameError::NoSuchPlayer(player))));
            return Err(GameError::NoSuchPlayer(player));
        }
        self.mark(player, Note::Poisoned);
        assert(poisoner_targets(old(self).players(), old(self).actions(), player, self.players(), self.actions(), Ok(())));
        Ok(())
    }

    /// The butler in seat `id` chooses a master.
    fn wake_butler(&mut self, id: PlayerId) -> (r: Result<(), GameError>)
        requires
            id < old(self).players@.len(),
        ensures
            keeps(old(self).players(), old(self).actions(), final(self).players(), final(self).actions()),
            sober_outcome(RoleId::Butler, id as int, old(self).players(), old(self).actions(), old(self).talk(), final(self).players(), final(self).actions(), final(self).talk(), r),
            drunk_outcome(RoleId::Butler, id as int, old(self).players(), old(self).actions(), old(self).talk(), final(self).players(), final(self).actions(), final(self).talk(), r),
    {
        let player = self.prompt_player(id);
        self.log(Action::Butler(player));
        self.recast(id, Role::Butler { butlered: Some(player) });
        assert(butler_chooses(old(self).players(), old(self).actions(), id as int, player, self.players(), self.actions()));
        Ok(())
    }

    /// The sober spy sees the grimoire.
    fn wake_spy(&mut self, id: PlayerId) -> (r: Result<(), GameError>)
        ensures
            keeps(old(self).players(), old(self).actions(), final(self).players(), final(self).actions()),
            sober_outcome(RoleId::Spy, id as int, old(self).players(), old(self).actions(), old(self).talk(), final(self).players(), final(self).actions(), final(self).talk(), r),
    {
        let shown = duplicate_players(&self.players);
        proof {
            assert(views(shown@) =~= self.players());
        }
        self.tell(id, Info::Grim(shown));
        let copy = duplicate_players(&self.players);
        proof {
            assert(views(copy@) =~= self.players());
        }
        self.log(Action::Spy(copy));
        Ok(())
    }

    /// The sober undertaker in seat `id` learns what the executed player shows as, if there was
    /// an execution, and forgets the execution.
    fn wake_undertaker(&mut self, id: PlayerId) -> (r: Result<(), GameError>)
        requires
            id < old(self).players@.len(),
            old(self).players()[id as int].id() == RoleId::Undertaker,
        ensures
            keeps(old(self).players(), old(self).actions(), final(self).players(), final(self).actions()),
            sober_outcome(RoleId::Undertaker, id as int, old(self).players(), old(self).actions(), old(self).talk(), final(self).players(), final(self).actions(), final(self).talk(), r),
    {
        let last_exec = match self.seat_role(id) {
            Role::Undertaker { last_exec } => last_exec,
            _ => None,
        };
        let mut seen = RoleId::Undertaker;
        if let Some(role) = last_exec {
            seen = self.misread(role);
            self.log(Action::Undertaker(seen));
            self.tell(id, Info::Role(seen));
        }
        self.recast(id, Role::Undertaker { last_exec: None });
        assert(undertaker_learns(old(self).players(), old(self).actions(), id as int, seen, true, self.players(), self.actions()));
        assert(self.talk() =~= old(self).talk() + undertaker_tells(old(self).players(), id as int, seen));
        Ok(())
    }

    /// The sober ravenskeeper in seat `id`, dead tonight, learns what a seat of its choice shows
    /// as.
    fn wake_ravenskeeper(&mut self, id: PlayerId) -> (r: Result<(), GameError>)
        requires
            id < old(self).players@.len(),
        ensures
            keeps(old(self).players(), old(self).actions(), final(self).players(), final(self).actions()),
            sober_outcome(RoleId::RavensKeeper, id as int, old(self).players(), old(self).actions(), old(self).talk(), final(self).players(), final(self).actions(), final(self).talk(), r),
    {
        if !self.seat_has(id, Note::DiedTonight) {
            return Err(GameError::NotDiedTonight);
        }
        let player = self.prompt_player(id);
        if player >= self.seats() {
            assert(ravenskeeper_learns(old(self).players(), old(self).actions(), player, RoleId::Spy, true, self.players(), self.actions(), Err(GameError::NoSuchPlayer(player))));
            assert(self.talk() == old(self).talk().push(Exchange::Named(id, player)));
            return Err(GameError::NoSuchPlayer(player));
        }
        let actual = self.seat_id(player);
        let seen = self.misread(actual);
        self.log(Action::RavensKeeper { target: player, response: seen });
        self.tell(id, Info::Role(seen));
        assert(ravenskeeper_learns(old(self).players(), old(self).actions(), player, seen, true, self.players(), self.actions(), Ok(())));
        assert(self.talk() =~= old(self).talk() + seq![Exchange::Named(id, player), Exchange::Told(id, Info::Role(seen))]);
        Ok(())
    }

    /// The sober fortune teller in seat `id` asks about two seats of its choice.
    fn wake_fortune_teller(&mut self, id: PlayerId) -> (r: Result<(), GameError>)
        requires
            id < old(self).players@.len(),
        ensures
            keeps(old(self).players(), old(self).actions(), final(self).players(), final(self).actions()),
            sober_outcome(RoleId::FortuneTeller, id as int, old(self).players(), old(self).actions(), old(self).talk(), final(self).players(), final(self).actions(), final(self).talk(), r),
    {
        let red_herring = match self.seat_role(id) {
            Role::FortuneTeller { red_herring } => red_herring,
            _ => 0,
        };
        assert(red_herring == red_herring_of(old(self).players()[id as int].role));
        let play1 = self.prompt_player(id);
        let play2 = self.prompt_player(id);
        let response = match fortune_teller_reading(&self.players, red_herring, play1, play2) {
            Ok(b) => b,
            Err(e) => {
                assert(fortune_teller_asks(old(self).players(), old(self).actions(), red_herring, play1, play2, self.players(), self.actions(), Err(e)));
                assert(self.talk() =~= old(self).talk() + seq![Exchange::Named(id, play1), Exchange::Named(id, play2)]);
                return Err(e);
            },
        };
        let target = [play1, play2];
        self.log(Action::FortuneTeller { target, response });
        self.tell(id, Info::Bool(response));
        proof {
            assert(target@ =~= seq![play1, play2]);
            assert(self.actions().last() == Action::FortuneTeller { target, response });
        }
        assert(fortune_teller_asks(old(self).players(), old(self).actions(), red_herring, play1, play2, self.players(), self.actions(), Ok(())));
        assert(self.talk() =~= old(self).talk() + seq![Exchange::Named(id, play1), Exchange::Named(id, play2), Exchange::Told(id, Info::Bool(response))]);
        Ok(())
    }
}

/// Once a role's waking fails, waking the rest of the order changes nothing more.
proof fn lemma_error_stops(order: Seq<RoleId>, k: int, ps: Seq<PlayerState>, acts: Seq<Action>, tk: Seq<Exchange>, ps2: Seq<PlayerState>, acts2: Seq<Action>, tk2: Seq<Exchange>, r: Result<(), GameError>)
    requires
        0 <= k <= order.len(),
        r is Err,
        wakes_in_order(order.take(k), ps, acts, tk, ps2, acts2, tk2, r),
    ensures
        wakes_in_order(order, ps, acts, tk, ps2, acts2, tk2, r),
    decreases order.len() - k,
{
    if k == order.len() {
        assert(order.take(k) =~= order);
    } else {
        assert(order.drop_last().take(k) =~= order.take(k));
        lemma_error_stops(order.drop_last(), k, ps, acts, tk, ps2, acts2, tk2, r);
    }
}

/// Whether the role named `role` does nothing at night at table `ps`, whatever it is: no seat
/// holds it, or the first seat that does is dead (but for the imp and the ravenskeeper).
pub open spec fn idle_at_night(ps: Seq<PlayerState>, role: RoleId) -> bool {
    match first_seat(ps, role) {
        None => true,
        Some(f) => role != RoleId::Imp && role != RoleId::RavensKeeper && !ps[f].alive,
    }
}

/// Whether `ks` are the numbers drawn for the demon's bluffs out of `n` roles free to bluff
/// with: one to three numbers, each below the count of roles left when it is drawn (one fewer
/// after each bluff), all but the last not zero, and the last zero when fewer than three.
pub open spec fn bluff_draws(n: int, ks: Seq<usize>) -> bool {
    &&& 1 <= ks.len() <= 3
    &&& forall|j: int| 0 <= j < ks.len() ==> #[trigger] ks[j] < n - j
    &&& forall|j: int| 0 <= j < ks.len() - 1 ==> #[trigger] ks[j] != 0
    &&& ks.len() < 3 ==> ks.last() == 0
}

/// The demon's three bluffs that the numbers `ks` draw out of the roles `free`: a number that
/// is not zero takes out the role it names among those left and bluffs it; a zero stops the
/// bluffs, so the first role left is never bluffed.
pub open spec fn bluffs_drawn(free: Seq<RoleId>, ks: Seq<usize>) -> Seq<Option<RoleId>> {
    Seq::new(
        3,
        |j: int| if j < ks.len() && ks[j] != 0 {
            Some(super::draws::left_after(free, ks.take(j))[ks[j] as int])
        } else {
            None
        },
    )
}

/// The demon's bluffs that the numbers `draws` draw out of the roles `free` to bluff with.
pub fn bluffs_from_draws(free: Vec<RoleId>, draws: &Vec<usize>) -> (r: [Option<RoleId>; 3])
    requires
        bluff_draws(free@.len() as int, draws@),
        free@.no_duplicates(),
    ensures
        r@ == bluffs_drawn(free@, draws@),
        forall|k: int| 0 <= k < 3 ==> (#[trigger] r@[k] matches Some(b) ==> free@.contains(b)),
        forall|k: int, j: int| 0 <= k < j < 3 && r@[k] is Some ==> r@[k] != r@[j],
        forall|k: int, j: int| 0 <= k < j < 3 && r@[k] is None ==> r@[j] is None,
{
    let ghost free0 = free@;
    let mut pool = free;
    let mut bluffs: [Option<RoleId>; 3] = [None, None, None];
    let mut i: usize = 0;
    proof {
        assert(draws@.take(0) =~= Seq::<usize>::empty());
    }
    while i < draws.len() && draws[i] != 0
        invariant
            bluff_draws(free0.len() as int, draws@),
            free0.no_duplicates(),
            i <= draws@.len(),
            i <= 3,
            forall|j: int| 0 <= j < i ==> #[trigger] draws@[j] != 0,
            pool@ == super::draws::left_after(free0, draws@.take(i as int)),
            pool@.len() == free0.len() - i,
            pool@.no_duplicates(),
            forall|x: RoleId| #[trigger] pool@.contains(x) ==> free0.contains(x),
            forall|k: int| 0 <= k < i ==> (#[trigger] bluffs@[k] matches Some(b) && free0.contains(b) && !pool@.contains(b)),
            forall|k: int, j: int| 0 <= k < j < i ==> bluffs@[k] != bluffs@[j],
            forall|k: int| i <= k < 3 ==> #[trigger] bluffs@[k] is None,
            forall|k: int| 0 <= k < i ==> #[trigger] bluffs@[k] == bluffs_drawn(free0, draws@)[k],
        decreases draws@.len() - i,
    {
        let k = draws[i];
        proof {
            assert(k < free0.len() - i);
            lemma_remove_keeps_distinct(pool@, k as int);
            assert(pool@.contains(pool@[k as int]));
            assert(draws@.take(i + 1).drop_last() =~= draws@.take(i as int));
        }
        let b = pool.remove(k);
        bluffs[i] = Some(b);
        i = i + 1;
    }
    proof {
        assert forall|k: int| 0 <= k < 3 implies #[trigger] bluffs@[k] == bluffs_drawn(free0, draws@)[k] by {
            if k >= i && k < draws@.len() {
                assert(k == i);
            }
        }
        assert(bluffs@ =~= bluffs_drawn(free0, draws@));
    }
    bluffs
}

/// The relation `keeps` composes: a step that keeps the table after a step that keeps it keeps
/// it too (seats kept, log extended, the dead dead, spent ghost votes spent).
pub proof fn lemma_keeps_chain(ps: Seq<PlayerState>, acts: Seq<Action>, ps1: Seq<PlayerState>, acts1: Seq<Action>, ps2: Seq<PlayerState>, acts2: Seq<Action>)
    requires
        keeps(ps, acts, ps1, acts1),
        keeps(ps1, acts1, ps2, acts2),
    ensures
        keeps(ps, acts, ps2, acts2),
{
    assert forall|i: int| 0 <= i < acts.len() implies acts2[i] == acts[i] by {
        assert(acts1[i] == acts[i]);
        assert(acts2[i] == acts1[i]);
    }
    assert(acts =~= acts2.subrange(0, acts.len() as int));
    assert forall|i: int| 0 <= i < ps.len() && !ps[i].alive implies !#[trigger] ps2[i].alive by {
        assert(!ps1[i].alive);
    }
    assert forall|i: int| 0 <= i < ps.len() && !ps[i].ghost_vote implies !#[trigger] ps2[i].ghost_vote by {
        assert(!ps1[i].ghost_vote);
    }
}

/// The role names that `is_good` holds, in the order of the script.
fn ids_where_good() -> (r: Vec<RoleId>)
    ensures
        r@.len() > 0,
        forall|i: int| 0 <= i < r@.len() ==> #[trigger] r@[i].spec_is_good(),
{
    let all = RoleId::all();
    let mut r: Vec<RoleId> = Vec::new();
    let mut i: usize = 0;
    while i < all.len()
        invariant
            i <= all@.len(),
            all@ == crate::roles::all_role_ids(),
            forall|k: int| 0 <= k < r@.len() ==> #[trigger] r@[k].spec_is_good(),
            i > 21 ==> r@.len() > 0,
        decreases all@.len() - i,
    {
        if all[i].is_good() {
            r.push(all[i]);
        }
        i = i + 1;
    }
    r
}

/// The role names that `is_evil` holds, in the order of the script.
fn ids_where_evil() -> (r: Vec<RoleId>)
    ensures
        r@.len() > 0,
        forall|i: int| 0 <= i < r@.len() ==> #[trigger] r@[i].spec_is_evil(),
{
    let all = RoleId::all();
    let mut r: Vec<RoleId> = Vec::new();
    let mut i: usize = 0;
    while i < all.len()
        invariant
            i <= all@.len(),
            all@ == crate::roles::all_role_ids(),
            forall|k: int| 0 <= k < r@.len() ==> #[trigger] r@[k].spec_is_evil(),
            i > 0 ==> r@.len() > 0,
        decreases all@.len() - i,
    {
        if all[i].is_evil() {
            r.push(all[i]);
        }
        i = i + 1;
    }
    r
}

} // verus!
