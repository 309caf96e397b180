use vstd::prelude::*;

use super::day::{
    ghost_votes_spent, talk_blocks, talk_fails, chat_ok, after_claims, after_execution, day_outcome, demon_dies, executed, nominates, nominations_close,
    nominations_end, round_fails, rounds,
    scarlet_takes_over, slayer_spent, slays, slays_upto, table_at_dawn, virgin_spent, vote_decides,
    vote_round, votes_cast, ballots, round_talk, called_until,
};
use super::night::{
    acts_for, any_admits, butler_chooses, demon_passes, drunk_outcome, exec_outcome, imp_strikes,
    mayor_deflects, monk_protects, passes_to, poisoned_outcome, poisoner_targets, sober_outcome,
    table_at_dusk, undertaker_learns, wakes_at_night, wakes_in_order,
};
use super::rules::{
    chef_number, deflected_kill_lands, empath_number, evil_pairs_upto, fortune_reading, kill_lands,
    living_anticlockwise, living_clockwise, may_show_as, seat_after,
};
use super::setup::{is_standard_setup, seat_ids};
use super::{first_seat, in_play, is_first_seat, Action, Exchange, GameError, Note, Pick, PlayerState};
use crate::roles::{PlayerId, Role, RoleId};

verus! {

/// Whether at most one seat holds a living demon.
pub open spec fn one_demon_at_most(ps: Seq<PlayerState>) -> bool {
    forall|i: int, j: int|
        0 <= i < ps.len() && 0 <= j < ps.len() && #[trigger] Pick::LivingDemon.admits(i, ps[i])
            && #[trigger] Pick::LivingDemon.admits(j, ps[j]) ==> i == j
}

/// Whether the table `ps2` has the seats of `ps` and a living demon only where `ps` has one.
pub open spec fn no_new_demon(ps: Seq<PlayerState>, ps2: Seq<PlayerState>) -> bool {
    &&& ps2.len() == ps.len()
    &&& forall|i: int| 0 <= i < ps.len() && #[trigger] Pick::LivingDemon.admits(i, ps2[i]) ==> Pick::LivingDemon.admits(i, ps[i])
}

/// Whether no seat of `ps` holds a living demon.
pub open spec fn no_living_demon(ps: Seq<PlayerState>) -> bool {
    forall|i: int| 0 <= i < ps.len() ==> !#[trigger] Pick::LivingDemon.admits(i, ps[i])
}

/// A table seated from a standard setup has at most one living demon.
pub proof fn lemma_setup_has_one_demon(roles: Seq<Role>)
    requires
        is_standard_setup(roles),
    ensures
        one_demon_at_most(roles.map_values(|r: Role| PlayerState::seated(r))),
{
    let ps = roles.map_values(|r: Role| PlayerState::seated(r));
    let ids = seat_ids(roles);
    assert forall|i: int, j: int|
        0 <= i < ps.len() && 0 <= j < ps.len() && #[trigger] Pick::LivingDemon.admits(i, ps[i])
            && #[trigger] Pick::LivingDemon.admits(j, ps[j]) implies i == j by {
        assert(ids[i] == ps[i].id());
        assert(ids[j] == ps[j].id());
    }
}

/// A step that makes no new demon keeps at most one.
proof fn lemma_no_new_keeps(ps: Seq<PlayerState>, ps2: Seq<PlayerState>)
    requires
        no_new_demon(ps, ps2),
        one_demon_at_most(ps),
    ensures
        one_demon_at_most(ps2),
{
    assert forall|i: int, j: int|
        0 <= i < ps2.len() && 0 <= j < ps2.len() && #[trigger] Pick::LivingDemon.admits(i, ps2[i])
            && #[trigger] Pick::LivingDemon.admits(j, ps2[j]) implies i == j by {
        assert(Pick::LivingDemon.admits(i, ps[i]));
        assert(Pick::LivingDemon.admits(j, ps[j]));
    }
}

/// Two steps that make no new demon make none together.
proof fn lemma_no_new_chain(ps: Seq<PlayerState>, ps1: Seq<PlayerState>, ps2: Seq<PlayerState>)
    requires
        no_new_demon(ps, ps1),
        no_new_demon(ps1, ps2),
    ensures
        no_new_demon(ps, ps2),
{
    assert forall|i: int| 0 <= i < ps.len() && #[trigger] Pick::LivingDemon.admits(i, ps2[i]) implies Pick::LivingDemon.admits(i, ps[i]) by {
        assert(Pick::LivingDemon.admits(i, ps1[i]));
    }
}

/// Changing one seat, in a way that makes no living demon of it, makes no new demon.
proof fn lemma_update_no_new(ps: Seq<PlayerState>, k: int, q: PlayerState)
    requires
        0 <= k < ps.len(),
        Pick::LivingDemon.admits(k, q) ==> Pick::LivingDemon.admits(k, ps[k]),
    ensures
        no_new_demon(ps, ps.update(k, q)),
{
    assert forall|i: int| 0 <= i < ps.len() && #[trigger] Pick::LivingDemon.admits(i, ps.update(k, q)[i]) implies Pick::LivingDemon.admits(i, ps[i]) by {
        if i != k {
            assert(ps.update(k, q)[i] == ps[i]);
        }
    }
}

/// On a table with no living demon, making one seat the demon leaves at most one.
proof fn lemma_one_new_demon(ps: Seq<PlayerState>, k: int, q: PlayerState)
    requires
        0 <= k < ps.len(),
        no_living_demon(ps),
    ensures
        one_demon_at_most(ps.update(k, q)),
{
    let ps2 = ps.update(k, q);
    assert forall|i: int, j: int|
        0 <= i < ps2.len() && 0 <= j < ps2.len() && #[trigger] Pick::LivingDemon.admits(i, ps2[i])
            && #[trigger] Pick::LivingDemon.admits(j, ps2[j]) implies i == j by {
        if i != k {
            assert(ps2[i] == ps[i]);
            assert(!Pick::LivingDemon.admits(i, ps[i]));
        }
        if j != k {
            assert(ps2[j] == ps[j]);
            assert(!Pick::LivingDemon.admits(j, ps[j]));
        }
    }
}

/// Killing the only living demon leaves none.
proof fn lemma_kill_only_demon(ps: Seq<PlayerState>, k: int, q: PlayerState)
    requires
        0 <= k < ps.len(),
        one_demon_at_most(ps),
        Pick::LivingDemon.admits(k, ps[k]),
        !q.alive,
    ensures
        no_living_demon(ps.update(k, q)),
{
    assert forall|i: int| 0 <= i < ps.len() implies !#[trigger] Pick::LivingDemon.admits(i, ps.update(k, q)[i]) by {
        if i != k {
            assert(ps.update(k, q)[i] == ps[i]);
            if Pick::LivingDemon.admits(i, ps[i]) {
                assert(i == k);
            }
        }
    }
}

/// The first seat of a role in play holds that role.
proof fn lemma_first_seat_holds(ps: Seq<PlayerState>, role: RoleId)
    requires
        in_play(ps, role),
    ensures
        first_seat(ps, role) matches Some(f) && is_first_seat(ps, role, f),
{
    let k = choose|k: int| 0 <= k < ps.len() && #[trigger] ps[k].id() == role;
    lemma_first_below(ps, role, k);
}

/// Some seat at or before seat `k`, which holds `role`, is the first to hold it.
proof fn lemma_first_below(ps: Seq<PlayerState>, role: RoleId, k: int)
    requires
        0 <= k < ps.len(),
        ps[k].id() == role,
    ensures
        exists|i: int| #[trigger] is_first_seat(ps, role, i),
    decreases k,
{
    if forall|j: int| 0 <= j < k ==> #[trigger] ps[j].id() != role {
        assert(is_first_seat(ps, role, k));
    } else {
        let j = choose|j: int| 0 <= j < k && #[trigger] ps[j].id() == role;
        lemma_first_below(ps, role, j);
    }
}

/// The seat that acts for a role is a seat of the table; for the imp, a living one acts only
/// when it is a living demon.
proof fn lemma_acts_for(ps: Seq<PlayerState>, role: RoleId, first: int, id: int)
    requires
        first_seat(ps, role) == Some(first),
        acts_for(ps, role, first, id),
    ensures
        0 <= id < ps.len(),
        role == RoleId::Imp && ps[id].alive ==> Pick::LivingDemon.admits(id, ps[id]),
{
    lemma_first_seat_holds(ps, role);
}

/// When a living minion takes over from a demon that left no living demon, at most one is
/// left.
proof fn lemma_passes_keeps(ps1: Seq<PlayerState>, acts1: Seq<Action>, ps2: Seq<PlayerState>, acts2: Seq<Action>)
    requires
        demon_passes(ps1, acts1, ps2, acts2),
        no_living_demon(ps1),
    ensures
        one_demon_at_most(ps2),
{
    if any_admits(ps1, Pick::LivingMinion) {
        let m = choose|m: PlayerId| #[trigger] passes_to(ps1, acts1, m, ps2, acts2);
        lemma_one_new_demon(ps1, m as int, ps1[m as int].with_role(Role::Imp));
    }
}

/// The living demon in seat `id` strikes, and at most one living demon is left.
proof fn lemma_strike_keeps(ps: Seq<PlayerState>, acts: Seq<Action>, id: int, p: PlayerId, ps2: Seq<PlayerState>, acts2: Seq<Action>, r: Result<(), GameError>)
    requires
        imp_strikes(ps, acts, id, p, ps2, acts2, r),
        one_demon_at_most(ps),
        0 <= id < ps.len(),
        Pick::LivingDemon.admits(id, ps[id]),
    ensures
        one_demon_at_most(ps2),
{
    let acts1 = acts.push(Action::ImpKill(p));
    if p >= ps.len() {
    } else if super::rules::kill_lands(ps[p as int]) {
        lemma_kill_only_demon(ps, id, ps[id].killed_tonight());
        lemma_passes_keeps(ps.update(id, ps[id].killed_tonight()), acts1, ps2, acts2);
    } else if ps[p as int].id() == RoleId::Mayor {
        if any_admits(ps, Pick::LivingNonMayor) {
            let alt = choose|alt: PlayerId| #[trigger] mayor_deflects(ps, acts1, id, alt, ps2, acts2, r);
            let a = alt as int;
            if super::rules::deflected_kill_lands(ps[a]) {
                let ps1 = ps.update(a, ps[a].killed_tonight());
                if a == id {
                    lemma_kill_only_demon(ps, id, ps[id].killed_tonight());
                    lemma_passes_keeps(ps1, acts1.push(Action::MayorDeflection(alt)), ps2, acts2);
                } else {
                    lemma_update_no_new(ps, a, ps[a].killed_tonight());
                    lemma_no_new_keeps(ps, ps2);
                }
            }
        }
    }
}

/// A drunk or poisoned role makes no new demon.
proof fn lemma_drunk_no_new(role: RoleId, id: int, ps: Seq<PlayerState>, acts: Seq<Action>, tk: Seq<Exchange>, ps2: Seq<PlayerState>, acts2: Seq<Action>, tk2: Seq<Exchange>, r: Result<(), GameError>)
    requires
        drunk_outcome(role, id, ps, acts, tk, ps2, acts2, tk2, r),
        0 <= id < ps.len(),
    ensures
        no_new_demon(ps, ps2),
{
    if role == RoleId::Undertaker {
        let seen = choose|seen: RoleId| #[trigger] undertaker_learns(ps, acts, id, seen, false, ps2, acts2);
        lemma_update_no_new(ps, id, ps[id].with_role(Role::Undertaker { last_exec: None }));
    } else if role == RoleId::Butler {
        let p = choose|p: PlayerId| #[trigger] butler_chooses(ps, acts, id, p, ps2, acts2);
        lemma_update_no_new(ps, id, ps[id].with_role(Role::Butler { butlered: Some(p) }));
    } else if role == RoleId::WasherWoman || role == RoleId::Librarian || role == RoleId::Investigator {
        if ps.len() != 1 {
            let (p1, p2, drawn) = choose|p1: PlayerId, p2: PlayerId, drawn: RoleId| #[trigger] super::night::informer_misled(ps, acts, role, p1, p2, drawn, ps2, acts2, r);
        }
    } else if role == RoleId::RavensKeeper {
        if ps[id].has(super::Note::DiedTonight) {
            let (p, seen) = choose|p: PlayerId, seen: RoleId| #[trigger] super::night::ravenskeeper_learns(ps, acts, p, seen, false, ps2, acts2, r);
        }
    }
}

/// A sober role, waking in seat `id`, leaves at most one living demon.
proof fn lemma_sober_keeps(role: RoleId, id: int, ps: Seq<PlayerState>, acts: Seq<Action>, tk: Seq<Exchange>, ps2: Seq<PlayerState>, acts2: Seq<Action>, tk2: Seq<Exchange>, r: Result<(), GameError>)
    requires
        sober_outcome(role, id, ps, acts, tk, ps2, acts2, tk2, r),
        wakes_at_night(role),
        one_demon_at_most(ps),
        0 <= id < ps.len(),
        role == RoleId::Imp ==> Pick::LivingDemon.admits(id, ps[id]),
    ensures
        one_demon_at_most(ps2),
{
    if role == RoleId::WasherWoman || role == RoleId::Librarian || role == RoleId::Investigator {
        if any_admits(ps, super::night::informer_pick(role)) && ps.len() != 1 {
            let (p1, p2) = choose|p1: PlayerId, p2: PlayerId| #[trigger] super::night::informer_shown(ps, acts, role, p1, p2, ps2, acts2);
        }
    } else if role == RoleId::FortuneTeller {
        let (p1, p2) = choose|p1: PlayerId, p2: PlayerId| #[trigger] super::night::fortune_teller_asks(ps, acts, super::night::red_herring_of(ps[id].role), p1, p2, ps2, acts2, r);
    } else if role == RoleId::Undertaker {
        let seen = choose|seen: RoleId| #[trigger] undertaker_learns(ps, acts, id, seen, true, ps2, acts2);
        lemma_update_no_new(ps, id, ps[id].with_role(Role::Undertaker { last_exec: None }));
        lemma_no_new_keeps(ps, ps2);
    } else if role == RoleId::Monk {
        let p = choose|p: PlayerId| #[trigger] monk_protects(ps, acts, p, ps2, acts2, r);
        if p < ps.len() {
            lemma_update_no_new(ps, p as int, ps[p as int].noted(super::Note::MonkProtected));
            lemma_no_new_keeps(ps, ps2);
        }
    } else if role == RoleId::RavensKeeper {
        if ps[id].has(super::Note::DiedTonight) {
            let (p, seen) = choose|p: PlayerId, seen: RoleId| #[trigger] super::night::ravenskeeper_learns(ps, acts, p, seen, true, ps2, acts2, r);
        }
    } else if role == RoleId::Butler {
        let p = choose|p: PlayerId| #[trigger] butler_chooses(ps, acts, id, p, ps2, acts2);
        lemma_update_no_new(ps, id, ps[id].with_role(Role::Butler { butlered: Some(p) }));
        lemma_no_new_keeps(ps, ps2);
    } else if role == RoleId::Poisoner {
        let p = choose|p: PlayerId| #[trigger] poisoner_targets(ps, acts, p, ps2, acts2, r);
        if p < ps.len() {
            lemma_update_no_new(ps, p as int, ps[p as int].noted(super::Note::Poisoned));
            lemma_no_new_keeps(ps, ps2);
        }
    } else if role == RoleId::Imp {
        let p = choose|p: PlayerId| #[trigger] imp_strikes(ps, acts, id, p, ps2, acts2, r);
        lemma_strike_keeps(ps, acts, id, p, ps2, acts2, r);
    }
}

/// Waking a drunk or poisoned role leaves at most one living demon.
proof fn lemma_poisoned_keeps(role: RoleId, ps: Seq<PlayerState>, acts: Seq<Action>, tk: Seq<Exchange>, ps2: Seq<PlayerState>, acts2: Seq<Action>, tk2: Seq<Exchange>, r: Result<(), GameError>)
    requires
        poisoned_outcome(role, ps, acts, tk, ps2, acts2, tk2, r),
        one_demon_at_most(ps),
    ensures
        one_demon_at_most(ps2),
{
    match first_seat(ps, role) {
        None => {},
        Some(first) => {
            if !(role == RoleId::Imp && !ps[first].alive && !any_admits(ps, Pick::LivingDemon)) {
                let id = choose|id: int| #[trigger] acts_for(ps, role, first, id) && if !ps[id].alive && role != RoleId::RavensKeeper {
                    ps2 == ps && acts2 == acts && r == Ok::<(), GameError>(())
                } else if !ps[id].has(super::Note::Poisoned) {
                    ps2 == ps && acts2 == acts && r == Err::<(), GameError>(GameError::NotPoisoned)
                } else {
                    drunk_outcome(role, id, ps, acts, tk, ps2, acts2, tk2, r)
                };
                lemma_acts_for(ps, role, first, id);
                if (ps[id].alive || role == RoleId::RavensKeeper) && ps[id].has(super::Note::Poisoned) {
                    lemma_drunk_no_new(role, id, ps, acts, tk, ps2, acts2, tk2, r);
                    lemma_no_new_keeps(ps, ps2);
                }
            }
        },
    }
}

/// Waking a role in the night leaves at most one living demon.
proof fn lemma_exec_keeps(role: RoleId, ps: Seq<PlayerState>, acts: Seq<Action>, tk: Seq<Exchange>, ps2: Seq<PlayerState>, acts2: Seq<Action>, tk2: Seq<Exchange>, r: Result<(), GameError>)
    requires
        exec_outcome(role, ps, acts, tk, ps2, acts2, tk2, r),
        wakes_at_night(role),
        one_demon_at_most(ps),
    ensures
        one_demon_at_most(ps2),
{
    match first_seat(ps, role) {
        None => {},
        Some(first) => {
            if !(role == RoleId::Imp && !ps[first].alive && !any_admits(ps, Pick::LivingDemon)) {
                let id = choose|id: int| #[trigger] acts_for(ps, role, first, id) && if ps[id].has(super::Note::Poisoned) {
                    poisoned_outcome(role, ps, acts, tk, ps2, acts2, tk2, r)
                } else if !ps[id].alive && role != RoleId::RavensKeeper {
                    ps2 == ps && acts2 == acts && r == Ok::<(), GameError>(())
                } else {
                    sober_outcome(role, id, ps, acts, tk, ps2, acts2, tk2, r)
                };
                lemma_acts_for(ps, role, first, id);
                if ps[id].has(super::Note::Poisoned) {
                    lemma_poisoned_keeps(role, ps, acts, tk, ps2, acts2, tk2, r);
                } else if ps[id].alive || role == RoleId::RavensKeeper {
                    lemma_sober_keeps(role, id, ps, acts, tk, ps2, acts2, tk2, r);
                }
            }
        },
    }
}

/// Waking the roles of `order` in turn leaves at most one living demon.
proof fn lemma_wakes_keep(order: Seq<RoleId>, ps: Seq<PlayerState>, acts: Seq<Action>, tk: Seq<Exchange>, ps2: Seq<PlayerState>, acts2: Seq<Action>, tk2: Seq<Exchange>, r: Result<(), GameError>)
    requires
        wakes_in_order(order, ps, acts, tk, ps2, acts2, tk2, r),
        forall|k: int| 0 <= k < order.len() ==> wakes_at_night(#[trigger] order[k]),
        one_demon_at_most(ps),
    ensures
        one_demon_at_most(ps2),
    decreases order.len(),
{
    if order.len() > 0 {
        let rest = order.drop_last();
        assert forall|k: int| 0 <= k < rest.len() implies wakes_at_night(#[trigger] rest[k]) by {
            assert(rest[k] == order[k]);
        }
        if r is Err && wakes_in_order(rest, ps, acts, tk, ps2, acts2, tk2, r) {
            lemma_wakes_keep(rest, ps, acts, tk, ps2, acts2, tk2, r);
        } else {
            let (psm, actsm, tkm) = choose|psm: Seq<PlayerState>, actsm: Seq<Action>, tkm: Seq<Exchange>| #[trigger] exec_outcome(order.last(), psm, actsm, tkm, ps2, acts2, tk2, r)
                && wakes_in_order(rest, ps, acts, tk, psm, actsm, tkm, Ok::<(), GameError>(()));
            lemma_wakes_keep(rest, ps, acts, tk, psm, actsm, tkm, Ok::<(), GameError>(()));
            assert(wakes_at_night(order[order.len() - 1]));
            lemma_exec_keeps(order.last(), psm, actsm, tkm, ps2, acts2, tk2, r);
        }
    }
}

/// The first night keeps at most one living demon at the table.
pub proof fn lemma_first_night_keeps_one_demon(ps: Seq<PlayerState>, acts: Seq<Action>, tk: Seq<Exchange>, ps2: Seq<PlayerState>, acts2: Seq<Action>, tk2: Seq<Exchange>, r: Result<(), GameError>)
    requires
        one_demon_at_most(ps),
        wakes_in_order(super::night::first_night_order(), ps, acts, tk, ps2, acts2, tk2, r),
    ensures
        one_demon_at_most(ps2),
{
    assert forall|k: int| 0 <= k < super::night::first_night_order().len() implies wakes_at_night(#[trigger] super::night::first_night_order()[k]) by {}
    lemma_wakes_keep(super::night::first_night_order(), ps, acts, tk, ps2, acts2, tk2, r);
}

/// A night after the first keeps at most one living demon at the table.
pub proof fn lemma_night_keeps_one_demon(ps: Seq<PlayerState>, acts: Seq<Action>, tk: Seq<Exchange>, ps2: Seq<PlayerState>, acts2: Seq<Action>, tk2: Seq<Exchange>, r: Result<(), GameError>)
    requires
        one_demon_at_most(ps),
        wakes_in_order(super::night::night_order(), table_at_dusk(ps), acts, tk, ps2, acts2, tk2, r),
    ensures
        one_demon_at_most(ps2),
{
    assert(no_new_demon(ps, table_at_dusk(ps)));
    lemma_no_new_keeps(ps, table_at_dusk(ps));
    assert forall|k: int| 0 <= k < super::night::night_order().len() implies wakes_at_night(#[trigger] super::night::night_order()[k]) by {}
    lemma_wakes_keep(super::night::night_order(), table_at_dusk(ps), acts, tk, ps2, acts2, tk2, r);
}

/// The scarlet woman, becoming the imp at a table with no living demon, leaves at most one.
proof fn lemma_scarlet_keeps(ps: Seq<PlayerState>)
    requires
        no_living_demon(ps),
    ensures
        one_demon_at_most(scarlet_takes_over(ps)),
        scarlet_takes_over(ps).len() == ps.len(),
{
    match first_seat(ps, RoleId::ScarletWoman) {
        Some(s) => {
            lemma_first_seat_holds(ps, RoleId::ScarletWoman);
            lemma_one_new_demon(ps, s, ps[s].with_role(Role::Imp));
        },
        None => {
            assert forall|i: int, j: int|
                0 <= i < ps.len() && 0 <= j < ps.len() && #[trigger] Pick::LivingDemon.admits(i, ps[i])
                    && #[trigger] Pick::LivingDemon.admits(j, ps[j]) implies i == j by {}
        },
    }
}

/// The death of the demon leaves at most one living demon.
proof fn lemma_demon_dies_keeps(ps: Seq<PlayerState>, acts: Seq<Action>, ps2: Seq<PlayerState>, acts2: Seq<Action>, r: Result<(), GameError>)
    requires
        demon_dies(ps, acts, ps2, acts2, r),
        one_demon_at_most(ps),
    ensures
        one_demon_at_most(ps2),
        ps2.len() == ps.len(),
{
    if !any_admits(ps, Pick::LivingDemon) {
        assert forall|i: int| 0 <= i < ps.len() implies !#[trigger] Pick::LivingDemon.admits(i, ps[i]) by {}
        lemma_scarlet_keeps(ps);
    }
}

/// Marking the seat of a role in play, or giving it a role that is not the demon, makes no
/// new demon.
proof fn lemma_first_seat_no_new(ps: Seq<PlayerState>, role: RoleId, q: spec_fn(PlayerState) -> PlayerState)
    requires
        forall|p: PlayerState| #![trigger q(p)] q(p).alive == p.alive && (q(p).id() == RoleId::Imp ==> p.id() == RoleId::Imp),
    ensures
        no_new_demon(ps, match first_seat(ps, role) {
            Some(f) => ps.update(f, q(ps[f])),
            None => ps,
        }),
{
    match first_seat(ps, role) {
        Some(f) => {
            lemma_first_seat_holds(ps, role);
            lemma_update_no_new(ps, f, q(ps[f]));
        },
        None => {},
    }
}

/// The execution of seat `p`, before the demon's death is dealt with, makes no new demon.
proof fn lemma_after_execution_no_new(ps: Seq<PlayerState>, p: int)
    requires
        0 <= p < ps.len(),
    ensures
        no_new_demon(ps, after_execution(ps, p)),
{
    let ps1 = ps.update(p, ps[p].dead());
    lemma_update_no_new(ps, p, ps[p].dead());
    let mark = |x: PlayerState| x.noted(super::Note::ExecToday);
    lemma_first_seat_no_new(ps1, RoleId::Mayor, mark);
    let ps2 = match first_seat(ps1, RoleId::Mayor) {
        Some(m) => ps1.update(m, ps1[m].noted(super::Note::ExecToday)),
        None => ps1,
    };
    assert(ps2 == match first_seat(ps1, RoleId::Mayor) {
        Some(f) => ps1.update(f, mark(ps1[f])),
        None => ps1,
    });
    lemma_no_new_chain(ps, ps1, ps2);
    let seen = ps2[p].id();
    let remember = |x: PlayerState| x.with_role(Role::Undertaker { last_exec: Some(seen) });
    lemma_first_seat_no_new(ps2, RoleId::Undertaker, remember);
    let ps3 = match first_seat(ps2, RoleId::Undertaker) {
        Some(u) => ps2.update(u, ps2[u].with_role(Role::Undertaker { last_exec: Some(ps2[p].id()) })),
        None => ps2,
    };
    assert(ps3 == match first_seat(ps2, RoleId::Undertaker) {
        Some(f) => ps2.update(f, remember(ps2[f])),
        None => ps2,
    });
    lemma_no_new_chain(ps, ps2, ps3);
    match first_seat(ps3, RoleId::Drunk) {
        Some(d) => {
            lemma_first_seat_holds(ps3, RoleId::Drunk);
            if ps3[d].role == (Role::Drunk { role: RoleId::Undertaker }) {
                lemma_update_no_new(ps3, d, ps3[d].noted(super::Note::ExecToday));
                lemma_no_new_chain(ps, ps3, ps3.update(d, ps3[d].noted(super::Note::ExecToday)));
            }
        },
        None => {},
    }
}

/// An execution leaves at most one living demon.
proof fn lemma_executed_keeps(ps: Seq<PlayerState>, acts: Seq<Action>, p: PlayerId, ps2: Seq<PlayerState>, acts2: Seq<Action>, r: Result<(), GameError>)
    requires
        executed(ps, acts, p, ps2, acts2, r),
        one_demon_at_most(ps),
    ensures
        one_demon_at_most(ps2),
        ps2.len() == ps.len(),
{
    if p < ps.len() {
        let ps1 = after_execution(ps, p as int);
        lemma_after_execution_no_new(ps, p as int);
        lemma_no_new_keeps(ps, ps1);
        if ps1[p as int].id().spec_is_demon() {
            lemma_demon_dies_keeps(ps1, acts, ps2, acts2, r);
        }
    }
}

/// The table once a slayer has used its ability has no new demon.
proof fn lemma_slayer_spent_no_new(ps: Seq<PlayerState>, id: int)
    requires
        0 <= id < ps.len(),
    ensures
        no_new_demon(ps, slayer_spent(ps, id)),
{
    match ps[id].role {
        Role::Slayer { .. } => lemma_update_no_new(ps, id, ps[id].with_role(Role::Slayer { ability_used: true })),
        _ => {},
    }
}

/// A claim to slay leaves at most one living demon.
proof fn lemma_slays_keeps(ps: Seq<PlayerState>, acts: Seq<Action>, id: int, t: PlayerId, ps2: Seq<PlayerState>, acts2: Seq<Action>, r: Result<(), GameError>)
    requires
        slays(ps, acts, id, t, ps2, acts2, r),
        one_demon_at_most(ps),
        0 <= id < ps.len(),
    ensures
        one_demon_at_most(ps2),
        ps2.len() == ps.len(),
{
    if ps[id].role == (Role::Slayer { ability_used: false }) && t < ps.len()
        && ps[t as int].id().spec_is_demon() && !ps[id].has(super::Note::Poisoned) {
        let ps1 = ps.update(t as int, ps[t as int].dead());
        lemma_update_no_new(ps, t as int, ps[t as int].dead());
        lemma_no_new_keeps(ps, ps1);
        if !any_admits(ps1, Pick::LivingDemon) {
            assert forall|i: int| 0 <= i < ps1.len() implies !#[trigger] Pick::LivingDemon.admits(i, ps1[i]) by {}
            lemma_scarlet_keeps(ps1);
            lemma_slayer_spent_no_new(scarlet_takes_over(ps1), id);
            lemma_no_new_keeps(scarlet_takes_over(ps1), ps2);
        }
    } else if !(ps[id].role == (Role::Slayer { ability_used: false }) && t >= ps.len()) {
        lemma_slayer_spent_no_new(ps, id);
        lemma_no_new_keeps(ps, ps2);
    }
}

/// The claims to slay of the first `k` seats leave at most one living demon.
proof fn lemma_slays_upto_keeps(ps: Seq<PlayerState>, acts: Seq<Action>, tk: Seq<Exchange>, k: int, ps2: Seq<PlayerState>, acts2: Seq<Action>, tk2: Seq<Exchange>, r: Result<(), GameError>)
    requires
        slays_upto(ps, acts, tk, k, ps2, acts2, tk2, r),
        one_demon_at_most(ps),
        k <= ps.len(),
    ensures
        one_demon_at_most(ps2),
        ps2.len() == ps.len(),
    decreases k,
{
    if k > 0 {
        if r is Err && slays_upto(ps, acts, tk, k - 1, ps2, acts2, tk2, r) {
            lemma_slays_upto_keeps(ps, acts, tk, k - 1, ps2, acts2, tk2, r);
        } else if r is Ok && tk2.len() > 0 && tk2.last() == Exchange::MayName((k - 1) as PlayerId, None)
            && slays_upto(ps, acts, tk, k - 1, ps2, acts2, tk2.drop_last(), r) {
            lemma_slays_upto_keeps(ps, acts, tk, k - 1, ps2, acts2, tk2.drop_last(), r);
        } else {
            let (psm, actsm, t) = choose|psm: Seq<PlayerState>, actsm: Seq<Action>, t: PlayerId| #[trigger] slays(psm, actsm, k - 1, t, ps2, acts2, r) && ({
                let tail = seq![Exchange::MayName((k - 1) as PlayerId, Some(t))] + super::day::slay_talk(psm, k - 1, t);
                &&& tk2.len() >= tail.len()
                &&& tk2.skip(tk2.len() - tail.len()) == tail
                &&& slays_upto(ps, acts, tk, k - 1, psm, actsm, tk2.take(tk2.len() - tail.len()), Ok::<(), GameError>(()))
            });
            let tkm = tk2.take(tk2.len() - (seq![Exchange::MayName((k - 1) as PlayerId, Some(t))] + super::day::slay_talk(psm, k - 1, t)).len());
            lemma_slays_upto_keeps(ps, acts, tk, k - 1, psm, actsm, tkm, Ok::<(), GameError>(()));
            lemma_slays_keeps(psm, actsm, k - 1, t, ps2, acts2, r);
        }
    }
}

/// A nomination that stands makes no new demon.
proof fn lemma_standing_nomination_no_new(ps: Seq<PlayerState>, acts: Seq<Action>, i: int, nom: PlayerId, ps2: Seq<PlayerState>, acts2: Seq<Action>)
    requires
        nominates(ps, acts, i, nom, ps2, acts2, Ok::<bool, GameError>(false)),
    ensures
        no_new_demon(ps, ps2),
{
    if nom < ps.len() && ps[nom as int].role == (Role::Virgin { ability_used: false }) {
        if ps[i].id().spec_is_townsfolk() && !ps[nom as int].has(super::Note::Poisoned) {
            let (ps3, r3) = choose|ps3: Seq<PlayerState>, r3: Result<(), GameError>| #[trigger] executed(ps, acts.push(Action::Nomination(i as usize, nom)), i as usize, ps3, acts2, r3)
                && match r3 {
                    Err(e) => ps2 == ps3 && Ok::<bool, GameError>(false) == Err::<bool, GameError>(e),
                    Ok(_) => ps2 == virgin_spent(ps3, nom as int) && Ok::<bool, GameError>(false) == Ok::<bool, GameError>(true),
                };
        } else {
            lemma_update_no_new(ps, nom as int, ps[nom as int].with_role(Role::Virgin { ability_used: true }));
        }
    }
}

/// The nomination rounds `his` leave at most one living demon.
proof fn lemma_rounds_keep(ps: Seq<PlayerState>, acts: Seq<Action>, tk: Seq<Exchange>, his: Seq<(usize, usize, usize)>, ps2: Seq<PlayerState>, acts2: Seq<Action>, tk2: Seq<Exchange>)
    requires
        rounds(ps, acts, tk, his, ps2, acts2, tk2),
        one_demon_at_most(ps),
    ensures
        one_demon_at_most(ps2),
        ps2.len() == ps.len(),
    decreases his.len(),
{
    if his.len() > 0 {
        let last = his.last();
        let (psm, actsm, tkm) = choose|psm: Seq<PlayerState>, actsm: Seq<Action>, tkm: Seq<Exchange>| rounds(ps, acts, tk, his.drop_last(), psm, actsm, tkm)
            && #[trigger] vote_round(his.drop_last(), psm, actsm, tkm, last.0 as int, last.1, last.2 as int, ps2, acts2, tk2);
        lemma_rounds_keep(ps, acts, tk, his.drop_last(), psm, actsm, tkm);
        let (psn, actsn, votes) = choose|psn: Seq<PlayerState>, actsn: Seq<Action>, votes: [bool; 15]|
            #![trigger nominates(psm, actsm, last.0 as int, last.1, psn, actsn, Ok::<bool, GameError>(false)), votes_cast(psn, votes@, ps2)]
            nominates(psm, actsm, last.0 as int, last.1, psn, actsn, Ok::<bool, GameError>(false)) && votes_cast(psn, votes@, ps2);
        lemma_standing_nomination_no_new(psm, actsm, last.0 as int, last.1, psn, actsn);
        assert(no_new_demon(psn, ps2));
        lemma_no_new_chain(psm, psn, ps2);
        lemma_no_new_keeps(psm, ps2);
    }
}

/// A nomination, whatever comes of it, leaves at most one living demon.
proof fn lemma_nomination_keeps(ps: Seq<PlayerState>, acts: Seq<Action>, i: int, nom: PlayerId, ps2: Seq<PlayerState>, acts2: Seq<Action>, v: Result<bool, GameError>)
    requires
        nominates(ps, acts, i, nom, ps2, acts2, v),
        one_demon_at_most(ps),
        0 <= i < ps.len(),
    ensures
        one_demon_at_most(ps2),
{
    if nom < ps.len() && ps[nom as int].role == (Role::Virgin { ability_used: false }) {
        if ps[i].id().spec_is_townsfolk() && !ps[nom as int].has(super::Note::Poisoned) {
            let acts_n = acts.push(Action::Nomination(i as usize, nom));
            let (ps3, r3) = choose|ps3: Seq<PlayerState>, r3: Result<(), GameError>| #[trigger] executed(ps, acts_n, i as usize, ps3, acts2, r3)
                && match r3 {
                    Err(e) => ps2 == ps3 && v == Err::<bool, GameError>(e),
                    Ok(_) => ps2 == virgin_spent(ps3, nom as int) && v == Ok::<bool, GameError>(true),
                };
            lemma_executed_keeps(ps, acts_n, i as usize, ps3, acts2, r3);
            if r3 is Ok {
                lemma_update_no_new(ps3, nom as int, ps3[nom as int].with_role(Role::Virgin { ability_used: true }));
                lemma_no_new_keeps(ps3, ps2);
            }
        } else {
            lemma_update_no_new(ps, nom as int, ps[nom as int].with_role(Role::Virgin { ability_used: true }));
            lemma_no_new_keeps(ps, ps2);
        }
    }
}

/// A day keeps at most one living demon at the table, however it ends.
pub proof fn lemma_day_keeps_one_demon(ps: Seq<PlayerState>, acts: Seq<Action>, tk: Seq<Exchange>, ps2: Seq<PlayerState>, acts2: Seq<Action>, tk2: Seq<Exchange>, r: Result<(), GameError>)
    requires
        one_demon_at_most(ps),
        day_outcome(ps, acts, tk, ps2, acts2, tk2, r),
    ensures
        one_demon_at_most(ps2),
{
    let ok = Ok::<(), GameError>(());
    let dawn = table_at_dawn(ps);
    let n = ps.len() as int;
    assert(no_new_demon(ps, dawn));
    lemma_no_new_keeps(ps, dawn);
    let c0 = choose|c: Seq<Exchange>| #[trigger] talk_blocks(c) && ({
        let tkd = tk + super::day::dawn_talk(ps) + c;
        ||| ps2 == dawn && acts2 == acts && tk2 == tkd && talk_fails(c, r)
        ||| chat_ok(c) && r is Err && slays_upto(dawn, acts, tkd, n, ps2, acts2, tk2, r)
        ||| chat_ok(c) && exists|ps1: Seq<PlayerState>, acts1: Seq<Action>, tk1: Seq<Exchange>| #[trigger] slays_upto(dawn, acts, tkd, n, ps1, acts1, tk1, ok)
                && after_claims(ps, acts, ps1, acts1, tk1, ps2, acts2, tk2, r)
    });
    let tkd = tk + super::day::dawn_talk(ps) + c0;
    if ps2 == dawn && acts2 == acts && tk2 == tkd && talk_fails(c0, r) {
    } else if r is Err && slays_upto(dawn, acts, tkd, n, ps2, acts2, tk2, r) {
        lemma_slays_upto_keeps(dawn, acts, tkd, n, ps2, acts2, tk2, r);
    } else {
        let (ps1, acts1, tk1) = choose|ps1: Seq<PlayerState>, acts1: Seq<Action>, tk1: Seq<Exchange>| #[trigger] slays_upto(dawn, acts, tkd, n, ps1, acts1, tk1, ok)
            && after_claims(ps, acts, ps1, acts1, tk1, ps2, acts2, tk2, r);
        lemma_slays_upto_keeps(dawn, acts, tkd, n, ps1, acts1, tk1, ok);
        let claimed = acts1.len() > acts.len();
        let c = choose|c: Seq<Exchange>| #[trigger] talk_blocks(c) && ({
            ||| claimed && ps2 == ps1 && acts2 == acts1 && tk2 == tk1 + c && talk_fails(c, r)
            ||| (if claimed { chat_ok(c) } else { c.len() == 0 }) && ({
                    ||| ps.len() == 0 && ps2 == ps1 && acts2 == acts1 && tk2 == tk1 + c && r == Err::<(), GameError>(GameError::NoPlayers)
                    ||| ps.len() > 0 && nominations_end(ps1, acts1, tk1 + c, ps2, acts2, tk2, r)
                })
        });
        if ps.len() > 0 && nominations_end(ps1, acts1, tk1 + c, ps2, acts2, tk2, r) {
            let (his, psr, actsr, tkr) = choose|his: Seq<(usize, usize, usize)>, psr: Seq<PlayerState>, actsr: Seq<Action>, tkr: Seq<Exchange>| #[trigger] rounds(ps1, acts1, tk1 + c, his, psr, actsr, tkr)
                && super::day::nominations_distinct(his) && nominations_close(his, psr, actsr, tkr, ps2, acts2, tk2, r);
            lemma_rounds_keep(ps1, acts1, tk1 + c, his, psr, actsr, tkr);
            if vote_decides(psr, actsr, his, ps2, acts2, r) {
                match super::day::execution_choice(his, (super::day::living(psr) + 1) / 2) {
                    Some(p) => lemma_executed_keeps(psr, actsr, p, ps2, acts2, r),
                    None => {},
                }
            } else if exists|i: int, nom: PlayerId| #[trigger] round_fails(his, psr, actsr, tkr, i, nom, ps2, acts2, tk2, r)
                    && 0 <= i < psr.len() && psr[i].alive && super::day::fresh_nomination(his, i, nom) {
                let (i, nom) = choose|i: int, nom: PlayerId| #[trigger] round_fails(his, psr, actsr, tkr, i, nom, ps2, acts2, tk2, r)
                    && 0 <= i < psr.len() && psr[i].alive && super::day::fresh_nomination(his, i, nom);
                let (psn, actsn, d, cc) = choose|psn: Seq<PlayerState>, actsn: Seq<Action>, d: Seq<Exchange>, cc: Seq<Exchange>|
                    #![trigger nominates(psr, actsr, i, nom, psn, actsn, Ok::<bool, GameError>(false)), super::day::called_until(psr, his, i, d), talk_blocks(cc)]
                    nominates(psr, actsr, i, nom, psn, actsn, Ok::<bool, GameError>(false)) && super::day::called_until(psr, his, i, d) && talk_blocks(cc) && ({
                        let tkc = tkr + d + seq![Exchange::MayName(i as PlayerId, Some(nom))] + cc;
                        ||| ps2 == psn && acts2 == actsn && tk2 == tkc && talk_fails(cc, r)
                        ||| chat_ok(cc) && ghost_votes_spent(psn, ps2) && acts2 == actsn && tkc.is_prefix_of(tk2)
                                && r == Err::<(), GameError>(GameError::TooManyPlayers) && psr.len() > 15
                    });
                lemma_standing_nomination_no_new(psr, actsr, i, nom, psn, actsn);
                lemma_no_new_keeps(psr, psn);
                if ghost_votes_spent(psn, ps2) {
                    assert(no_new_demon(psn, ps2));
                    lemma_no_new_keeps(psn, ps2);
                }
            } else {
                let (i, nom, v, d) = choose|i: int, nom: PlayerId, v: Result<bool, GameError>, d: Seq<Exchange>| #![trigger nominates(psr, actsr, i, nom, ps2, acts2, v), super::day::called_until(psr, his, i, d)]
                    nominates(psr, actsr, i, nom, ps2, acts2, v) && super::day::called_until(psr, his, i, d)
                    && 0 <= i < psr.len() && psr[i].alive && super::day::fresh_nomination(his, i, nom) && match v {
                        Ok(ends) => ends && r == Ok::<(), GameError>(()),
                        Err(e) => r == Err::<(), GameError>(e),
                    } && tk2 == tkr + d + seq![Exchange::MayName(i as PlayerId, Some(nom))] + super::day::nomination_talk(psr, i, nom);
                lemma_nomination_keeps(psr, actsr, i, nom, ps2, acts2, v);
            }
        }
    }
}

/// Every seat asked in the vote `s` over the first `k` seats is one of them, living or holding a
/// ghost vote, and answers with a seat exactly when its vote is for.
proof fn lemma_ballots_asks(ps: Seq<PlayerState>, votes: Seq<bool>, k: int, s: Seq<Exchange>)
    requires
        0 <= k <= ps.len(),
        ballots(ps, votes, k, s),
    ensures
        forall|m: int| 0 <= m < s.len() ==> (#[trigger] s[m] matches Exchange::MayName(j, a) && j < k
            && (ps[j as int].alive || ps[j as int].ghost_vote) && (a is Some <==> (j < 15 && votes[j as int]))),
    decreases k,
{
    if k > 0 {
        if ps[k - 1].alive || ps[k - 1].ghost_vote {
            lemma_ballots_asks(ps, votes, k - 1, s.drop_last());
            assert forall|m: int| 0 <= m < s.len() implies (#[trigger] s[m] matches Exchange::MayName(j, a) && j < k
                && (ps[j as int].alive || ps[j as int].ghost_vote) && (a is Some <==> (j < 15 && votes[j as int]))) by {
                if m < s.len() - 1 {
                    assert(s[m] == s.drop_last()[m]);
                }
            }
        } else {
            lemma_ballots_asks(ps, votes, k - 1, s);
        }
    }
}

/// In a vote on a nomination, a dead player is asked to vote only while it holds its ghost
/// vote; a dead player who votes (answers with a seat) spends it; and no spent ghost vote comes
/// back.
pub proof fn lemma_vote_spends_ghost_votes(ps: Seq<PlayerState>, votes: Seq<bool>, s: Seq<Exchange>, ps2: Seq<PlayerState>)
    requires
        ballots(ps, votes, ps.len() as int, s),
        votes_cast(ps, votes, ps2),
    ensures
        forall|m: int| 0 <= m < s.len() ==> (#[trigger] s[m] matches Exchange::MayName(j, _) && j < ps.len()
            && (!ps[j as int].alive ==> ps[j as int].ghost_vote)),
        forall|m: int| 0 <= m < s.len() ==> (#[trigger] s[m] matches Exchange::MayName(j, a)
            && (a is Some && !ps[j as int].alive ==> !ps2[j as int].ghost_vote)),
        forall|j: int| 0 <= j < ps.len() && !ps[j].ghost_vote ==> !#[trigger] ps2[j].ghost_vote,
{
    lemma_ballots_asks(ps, votes, ps.len() as int, s);
    assert forall|m: int| 0 <= m < s.len() implies (#[trigger] s[m] matches Exchange::MayName(j, a)
        && (a is Some && !ps[j as int].alive ==> !ps2[j as int].ghost_vote)) by {
        if let Exchange::MayName(j, a) = s[m] {
            assert(ps2[j as int] == if j < 15 && votes[j as int] && !ps[j as int].alive {
                PlayerState { ghost_vote: false, ..ps[j as int] }
            } else {
                ps[j as int]
            });
        }
    }
    assert forall|j: int| 0 <= j < ps.len() && !ps[j].ghost_vote implies !#[trigger] ps2[j].ghost_vote by {
        assert(ps2[j] == if j < 15 && votes[j] && !ps[j].alive {
            PlayerState { ghost_vote: false, ..ps[j] }
        } else {
            ps[j]
        });
    }
}

/// Whether in the vote `b`, at a table that goes from `ps` to `ps2`, every dead player asked
/// holds a ghost vote, and every dead player who votes has spent it afterwards.
pub open spec fn vote_spends_ghost_votes(ps: Seq<PlayerState>, b: Seq<Exchange>, ps2: Seq<PlayerState>) -> bool {
    &&& forall|m: int| 0 <= m < b.len() ==> (#[trigger] b[m] matches Exchange::MayName(j, _) && j < ps.len()
            && (!ps[j as int].alive ==> ps[j as int].ghost_vote))
    &&& forall|m: int| 0 <= m < b.len() ==> (#[trigger] b[m] matches Exchange::MayName(j, a)
            && (a is Some && !ps[j as int].alive ==> !ps2[j as int].ghost_vote))
}

/// In every nomination round of a day, which takes the table from `ps` to `ps2` and ends the
/// talk `tk2` with the vote: a dead player is asked to vote only while it holds its ghost
/// vote, a dead player who votes spends it, and no spent ghost vote comes back.
pub proof fn lemma_round_spends_ghost_votes(
    before: Seq<(usize, usize, usize)>,
    ps: Seq<PlayerState>,
    acts: Seq<Action>,
    tk: Seq<Exchange>,
    i: int,
    nom: PlayerId,
    count: int,
    ps2: Seq<PlayerState>,
    acts2: Seq<Action>,
    tk2: Seq<Exchange>,
)
    requires
        vote_round(before, ps, acts, tk, i, nom, count, ps2, acts2, tk2),
    ensures
        exists|b: Seq<Exchange>| #[trigger] vote_spends_ghost_votes(ps, b, ps2) && b.len() <= tk2.len()
            && tk2.skip(tk2.len() - b.len()) == b,
        forall|j: int| 0 <= j < ps.len() && !ps[j].ghost_vote ==> !#[trigger] ps2[j].ghost_vote,
{
    let (psn, actsn, votes) = choose|psn: Seq<PlayerState>, actsn: Seq<Action>, votes: [bool; 15]|
        #![trigger nominates(ps, acts, i, nom, psn, actsn, Ok::<bool, GameError>(false)), votes_cast(psn, votes@, ps2)]
        nominates(ps, acts, i, nom, psn, actsn, Ok::<bool, GameError>(false)) && votes_cast(psn, votes@, ps2)
            && count == super::day::votes_for(votes@, 15) && acts2 == actsn.push(Action::Vote(votes))
            && round_talk(before, ps, tk, i, nom, psn, votes@, tk2);
    let (d, c, b) = choose|d: Seq<Exchange>, c: Seq<Exchange>, b: Seq<Exchange>| #![trigger called_until(ps, before, i, d), talk_blocks(c), ballots(psn, votes@, psn.len() as int, b)]
        called_until(ps, before, i, d) && talk_blocks(c) && chat_ok(c) && ballots(psn, votes@, psn.len() as int, b)
            && tk2 == tk + d + seq![Exchange::MayName(i as PlayerId, Some(nom))] + c + b;
    lemma_vote_spends_ghost_votes(psn, votes@, b, ps2);
    assert(psn.len() == ps.len());
    assert forall|j: int| 0 <= j < ps.len() implies #[trigger] psn[j].alive == ps[j].alive && psn[j].ghost_vote == ps[j].ghost_vote by {}
    let x = tk + d + seq![Exchange::MayName(i as PlayerId, Some(nom))] + c;
    assert(tk2.skip(tk2.len() - b.len()) =~= b) by {
        assert(tk2 == x + b);
    }
    assert(vote_spends_ghost_votes(ps, b, ps2));
}

/// The seat after seat `i` around a table of `n` seats: the first seat after the last.
pub open spec fn seat_next(i: int, n: int) -> int {
    if i + 1 < n {
        i + 1
    } else {
        0
    }
}

/// Whether no two neighbouring seats of the table (a seat and the seat after it, the last
/// seat and the first) both register evil.
pub open spec fn no_evil_neighbours(ps: Seq<PlayerState>) -> bool {
    forall|i: int| 0 <= i < ps.len() ==> !(ps[i].registers_evil() && #[trigger] ps[seat_next(i, ps.len() as int)].registers_evil())
}

/// The count of the first `k` seats' pairs is zero when no neighbours both register evil.
proof fn lemma_chef_zero_upto(ps: Seq<PlayerState>, k: int)
    requires
        no_evil_neighbours(ps),
        0 <= k <= ps.len(),
    ensures
        evil_pairs_upto(ps, k) == 0,
    decreases k,
{
    if k > 0 {
        lemma_chef_zero_upto(ps, k - 1);
        let i = k - 1;
        let n = ps.len() as int;
        if i == 0 {
            assert(!(ps[n - 1].registers_evil() && ps[seat_next(n - 1, n)].registers_evil()));
        } else {
            assert(!(ps[i - 1].registers_evil() && ps[seat_next(i - 1, n)].registers_evil()));
        }
    }
}

/// The chef's number is zero when no two neighbouring seats around the table (the last seat
/// and the first among them) both register evil; in particular, when only one seat of a table
/// of two or more registers evil.
pub proof fn lemma_chef_no_pairs(ps: Seq<PlayerState>)
    requires
        no_evil_neighbours(ps),
    ensures
        chef_number(ps) == 0,
{
    lemma_chef_zero_upto(ps, ps.len() as int);
}

/// The count of the first `k` seats' pairs when exactly seats `a` and the seat after it
/// register evil, at a table of three or more.
proof fn lemma_chef_one_upto(ps: Seq<PlayerState>, a: int, k: int)
    requires
        ps.len() >= 3,
        0 <= a < ps.len(),
        forall|x: int| 0 <= x < ps.len() ==> (#[trigger] ps[x].registers_evil() <==> (x == a || x == seat_next(a, ps.len() as int))),
        0 <= k <= ps.len(),
    ensures
        evil_pairs_upto(ps, k) == if k > seat_next(a, ps.len() as int) { 1nat } else { 0nat },
    decreases k,
{
    if k > 0 {
        lemma_chef_one_upto(ps, a, k - 1);
        let i = k - 1;
        let n = ps.len() as int;
        let before = if i == 0 { n - 1 } else { i - 1 };
        assert(ps[i].registers_evil() <==> (i == a || i == seat_next(a, n)));
        assert(ps[before].registers_evil() <==> (before == a || before == seat_next(a, n)));
    }
}

/// At a table of three or more where exactly one pair of neighbouring seats register evil
/// (seat `a` and the seat after it, the first seat after the last), the chef's number is one.
pub proof fn lemma_chef_one_pair(ps: Seq<PlayerState>, a: int)
    requires
        ps.len() >= 3,
        0 <= a < ps.len(),
        forall|x: int| 0 <= x < ps.len() ==> (#[trigger] ps[x].registers_evil() <==> (x == a || x == seat_next(a, ps.len() as int))),
    ensures
        chef_number(ps) == 1,
{
    lemma_chef_one_upto(ps, a, ps.len() as int);
}

/// The count of the first `k` seats' pairs when every seat registers evil.
proof fn lemma_chef_all_upto(ps: Seq<PlayerState>, k: int)
    requires
        forall|x: int| 0 <= x < ps.len() ==> #[trigger] ps[x].registers_evil(),
        0 <= k <= ps.len(),
    ensures
        evil_pairs_upto(ps, k) == k,
    decreases k,
{
    if k > 0 {
        lemma_chef_all_upto(ps, k - 1);
        let i = k - 1;
        let before = if i == 0 { ps.len() - 1 } else { i - 1 };
        assert(ps[i].registers_evil() && ps[before].registers_evil());
    }
}

/// When every seat registers evil, each seat makes a pair with the seat before it: the chef's
/// number is the number of seats.
pub proof fn lemma_chef_all_evil(ps: Seq<PlayerState>)
    requires
        forall|x: int| 0 <= x < ps.len() ==> #[trigger] ps[x].registers_evil(),
    ensures
        chef_number(ps) == ps.len(),
{
    lemma_chef_all_upto(ps, ps.len() as int);
}

/// The count of the first `k` seats' pairs reads only the roles.
proof fn lemma_chef_roles_upto(ps: Seq<PlayerState>, ps2: Seq<PlayerState>, k: int)
    requires
        ps2.len() == ps.len(),
        forall|x: int| 0 <= x < ps.len() ==> #[trigger] ps2[x].id() == ps[x].id(),
        0 <= k <= ps.len(),
    ensures
        evil_pairs_upto(ps2, k) == evil_pairs_upto(ps, k),
    decreases k,
{
    if k > 0 {
        lemma_chef_roles_upto(ps, ps2, k - 1);
        let i = k - 1;
        let before = if i == 0 { ps.len() - 1 } else { i - 1 };
        assert(ps2[i].id() == ps[i].id());
        assert(ps2[before].id() == ps[before].id());
    }
}

/// The chef's number depends on the roles alone: not on who is alive, poisoned or marked.
pub proof fn lemma_chef_reads_roles_only(ps: Seq<PlayerState>, ps2: Seq<PlayerState>)
    requires
        ps2.len() == ps.len(),
        forall|x: int| 0 <= x < ps.len() ==> #[trigger] ps2[x].id() == ps[x].id(),
    ensures
        chef_number(ps2) == chef_number(ps),
{
    lemma_chef_roles_upto(ps, ps2, ps.len() as int);
}

/// One for a seat that registers evil, zero otherwise.
pub open spec fn evil_one(p: PlayerState) -> nat {
    if p.registers_evil() {
        1
    } else {
        0
    }
}

/// Going clockwise from offset `t`, the first living seat is the one at offset `i` when the
/// seats between are dead.
proof fn lemma_clockwise_finds(ps: Seq<PlayerState>, id: int, i: int, t: int)
    requires
        1 <= t <= i < ps.len(),
        ps[seat_after(id, i, ps.len() as int)].alive,
        forall|u: int| t <= u < i ==> !#[trigger] ps[seat_after(id, u, ps.len() as int)].alive,
    ensures
        living_clockwise(ps, id, t) == Some(seat_after(id, i, ps.len() as int)),
    decreases i - t,
{
    if t < i {
        lemma_clockwise_finds(ps, id, i, t + 1);
    }
}

/// Going anticlockwise from offset `t`, the first living seat is the one at offset `j` when
/// the seats between are dead.
proof fn lemma_anticlockwise_finds(ps: Seq<PlayerState>, id: int, j: int, t: int)
    requires
        1 <= j <= t < ps.len(),
        ps[seat_after(id, j, ps.len() as int)].alive,
        forall|u: int| j < u <= t ==> !#[trigger] ps[seat_after(id, u, ps.len() as int)].alive,
    ensures
        living_anticlockwise(ps, id, t) == Some(seat_after(id, j, ps.len() as int)),
    decreases t - j,
{
    if t > j {
        lemma_anticlockwise_finds(ps, id, j, t - 1);
    }
}

/// No seat is found going clockwise from offset `t` when all the seats from there are dead.
proof fn lemma_clockwise_none(ps: Seq<PlayerState>, id: int, t: int)
    requires
        1 <= t,
        forall|u: int| t <= u < ps.len() ==> !#[trigger] ps[seat_after(id, u, ps.len() as int)].alive,
    ensures
        living_clockwise(ps, id, t) is None,
    decreases ps.len() - t,
{
    if t < ps.len() {
        lemma_clockwise_none(ps, id, t + 1);
    }
}

/// No seat is found going anticlockwise from offset `t` when all the seats down to the
/// empath's neighbour are dead.
proof fn lemma_anticlockwise_none(ps: Seq<PlayerState>, id: int, t: int)
    requires
        t < ps.len(),
        forall|u: int| 1 <= u <= t ==> !#[trigger] ps[seat_after(id, u, ps.len() as int)].alive,
    ensures
        living_anticlockwise(ps, id, t) is None,
    decreases t,
{
    if t >= 1 {
        lemma_anticlockwise_none(ps, id, t - 1);
    }
}

/// The empath reads its nearest living neighbours, dead seats passed over in both directions:
/// with the seat `i` places clockwise the first living one that way, and the seat `j` places
/// clockwise (`n - j` places anticlockwise) the first living one the other way, the empath's
/// number is how many of those two register evil (the same seat counted twice when it is
/// both).
pub proof fn lemma_empath_reads_nearest_living(ps: Seq<PlayerState>, id: int, i: int, j: int)
    requires
        0 <= id < ps.len(),
        1 <= i < ps.len(),
        1 <= j < ps.len(),
        ps[seat_after(id, i, ps.len() as int)].alive,
        forall|u: int| 1 <= u < i ==> !#[trigger] ps[seat_after(id, u, ps.len() as int)].alive,
        ps[seat_after(id, j, ps.len() as int)].alive,
        forall|u: int| j < u < ps.len() ==> !#[trigger] ps[seat_after(id, u, ps.len() as int)].alive,
    ensures
        empath_number(ps, id) == evil_one(ps[seat_after(id, i, ps.len() as int)]) + evil_one(
            ps[seat_after(id, j, ps.len() as int)],
        ),
{
    lemma_clockwise_finds(ps, id, i, 1);
    lemma_anticlockwise_finds(ps, id, j, ps.len() - 1);
}

/// An empath with no other living player at the table reads zero.
pub proof fn lemma_empath_alone(ps: Seq<PlayerState>, id: int)
    requires
        0 <= id < ps.len(),
        forall|u: int| 1 <= u < ps.len() ==> !#[trigger] ps[seat_after(id, u, ps.len() as int)].alive,
    ensures
        empath_number(ps, id) == 0,
{
    lemma_clockwise_none(ps, id, 1);
    lemma_anticlockwise_none(ps, id, ps.len() - 1);
}

/// Who the demon's kill lands on: never on a player the monk protects; always, when not
/// protected by the monk, on a poisoned player, whatever the role; never on a sober soldier or
/// a sober mayor; always on an unprotected player of any other role.
pub proof fn lemma_kill_lands_cases(p: PlayerState)
    ensures
        p.has(Note::MonkProtected) ==> !kill_lands(p),
        !p.has(Note::MonkProtected) && p.has(Note::Poisoned) ==> kill_lands(p),
        (p.id() == RoleId::Soldier || p.id() == RoleId::Mayor) && !p.has(Note::Poisoned) ==> !kill_lands(p),
        !p.has(Note::MonkProtected) && p.id() != RoleId::Soldier && p.id() != RoleId::Mayor ==> kill_lands(p),
{
}

/// Who a kill deflected by the mayor lands on: never on a player the monk protects; always,
/// when not protected by the monk, on a poisoned player; never on a sober soldier; always on an
/// unprotected player who is not a soldier (a mayor included).
pub proof fn lemma_deflected_kill_lands_cases(p: PlayerState)
    ensures
        p.has(Note::MonkProtected) ==> !deflected_kill_lands(p),
        !p.has(Note::MonkProtected) && p.has(Note::Poisoned) ==> deflected_kill_lands(p),
        p.id() == RoleId::Soldier && !p.has(Note::Poisoned) ==> !deflected_kill_lands(p),
        !p.has(Note::MonkProtected) && p.id() != RoleId::Soldier ==> deflected_kill_lands(p),
{
}

/// The fortune teller's reading: yes when either seat is the red herring; yes when either of
/// two seats at the table holds the demon, alive or dead, or the recluse; no when both are at
/// the table and neither is the red herring, the demon or the recluse. A first seat not at the
/// table is an error; so is a second one, unless the first already holds the demon.
pub proof fn lemma_fortune_reading_cases(ps: Seq<PlayerState>, red_herring: int, p1: int, p2: int)
    ensures
        p1 == red_herring || p2 == red_herring ==> fortune_reading(ps, red_herring, p1, p2) == Ok::<bool, GameError>(true),
        0 <= p1 < ps.len() && 0 <= p2 < ps.len() && (ps[p1].id().spec_is_demon() || ps[p2].id().spec_is_demon())
            ==> fortune_reading(ps, red_herring, p1, p2) == Ok::<bool, GameError>(true),
        0 <= p1 < ps.len() && 0 <= p2 < ps.len() && p1 != red_herring && p2 != red_herring
            && !ps[p1].id().spec_is_demon() && !ps[p2].id().spec_is_demon()
            && ps[p1].id() != RoleId::Recluse && ps[p2].id() != RoleId::Recluse
            ==> fortune_reading(ps, red_herring, p1, p2) == Ok::<bool, GameError>(false),
        0 <= p1 < ps.len() && 0 <= p2 < ps.len() && (ps[p1].id() == RoleId::Recluse || ps[p2].id() == RoleId::Recluse)
            ==> fortune_reading(ps, red_herring, p1, p2) == Ok::<bool, GameError>(true),
        p1 != red_herring && p2 != red_herring && !(0 <= p1 < ps.len())
            ==> fortune_reading(ps, red_herring, p1, p2) == Err::<bool, GameError>(GameError::NoSuchPlayer(p1 as usize)),
        p1 != red_herring && p2 != red_herring && 0 <= p1 < ps.len() && !ps[p1].id().spec_is_demon() && !(0 <= p2 < ps.len())
            ==> fortune_reading(ps, red_herring, p1, p2) == Err::<bool, GameError>(GameError::NoSuchPlayer(p2 as usize)),
{
}

/// The fortune teller's reading depends on the roles alone: who is alive, poisoned or marked
/// changes nothing.
pub proof fn lemma_fortune_reads_roles_only(ps: Seq<PlayerState>, ps2: Seq<PlayerState>, red_herring: int, p1: int, p2: int)
    requires
        ps2.len() == ps.len(),
        forall|x: int| 0 <= x < ps.len() ==> #[trigger] ps2[x].id() == ps[x].id(),
    ensures
        fortune_reading(ps2, red_herring, p1, p2) == fortune_reading(ps, red_herring, p1, p2),
{
    if 0 <= p1 < ps.len() {
        assert(ps2[p1].id() == ps[p1].id());
    }
    if 0 <= p2 < ps.len() {
        assert(ps2[p2].id() == ps[p2].id());
    }
}

/// What the ravenskeeper or the undertaker may learn of a role: of the recluse, only a role
/// `is_evil` holds of, so never the recluse itself; of the spy, only a role `is_good` holds
/// of; of any other role, the role itself.
pub proof fn lemma_show_as_cases(actual: RoleId, seen: RoleId)
    ensures
        actual == RoleId::Recluse && may_show_as(actual, seen) ==> seen.spec_is_evil() && seen != RoleId::Recluse,
        actual == RoleId::Spy && may_show_as(actual, seen) ==> seen.spec_is_good(),
        actual != RoleId::Recluse && actual != RoleId::Spy ==> (may_show_as(actual, seen) <==> seen == actual),
{
}

} // verus!
