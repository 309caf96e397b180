use vstd::prelude::*;

use crate::roles::{all_role_ids, PlayerId, Role, RoleId};

verus! {

/// The townsfolk of the script, in its order.
pub open spec fn script_townsfolk() -> Seq<RoleId> {
    all_role_ids().take(13)
}

/// The outsiders of the script, in its order.
pub open spec fn script_outsiders() -> Seq<RoleId> {
    all_role_ids().subrange(13, 17)
}

/// The minions of the script, in its order.
pub open spec fn script_minions() -> Seq<RoleId> {
    all_role_ids().subrange(17, 21)
}

/// What is left of `pool` once the entries at the indices `ks` have been picked in turn, each
/// taken out as it is picked.
pub open spec fn left_after(pool: Seq<RoleId>, ks: Seq<usize>) -> Seq<RoleId>
    decreases ks.len(),
{
    if ks.len() == 0 {
        pool
    } else {
        left_after(pool, ks.drop_last()).remove(ks.last() as int)
    }
}

/// The entries of `pool` picked in turn at the indices `ks`, each taken out as it is picked.
pub open spec fn picked(pool: Seq<RoleId>, ks: Seq<usize>) -> Seq<RoleId>
    decreases ks.len(),
{
    if ks.len() == 0 {
        Seq::empty()
    } else {
        picked(pool, ks.drop_last()).push(left_after(pool, ks.drop_last())[ks.last() as int])
    }
}

/// The minions picked by the first three numbers of the draws `d`.
pub open spec fn minion_picks(d: Seq<usize>) -> Seq<RoleId> {
    picked(script_minions(), d.subrange(0, 3))
}

/// How many outsiders the draws `d` pick: four when the baron is among the minions, else two.
pub open spec fn outsider_count(d: Seq<usize>) -> int {
    if minion_picks(d).contains(RoleId::Baron) {
        4
    } else {
        2
    }
}

/// Where the numbers that pick the townsfolk start in the draws `d`.
pub open spec fn town_start(d: Seq<usize>) -> int {
    3 + outsider_count(d)
}

/// The outsiders picked by the draws `d`.
pub open spec fn outsider_picks(d: Seq<usize>) -> Seq<RoleId> {
    picked(script_outsiders(), d.subrange(3, town_start(d)))
}

/// How many townsfolk the draws `d` pick: seven when the baron has been picked, else nine.
pub open spec fn town_count(d: Seq<usize>) -> int {
    if (minion_picks(d) + outsider_picks(d)).contains(RoleId::Baron) {
        7
    } else {
        9
    }
}

/// Where the number of swaps stands in the draws `d`.
pub open spec fn swap_at(d: Seq<usize>) -> int {
    town_start(d) + town_count(d)
}

/// The numbers of the draws `d` that pick the townsfolk.
pub open spec fn town_draws(d: Seq<usize>) -> Seq<usize> {
    d.subrange(town_start(d), swap_at(d))
}

/// The role names the draws `d` pick, in the order picked: minions, outsiders, townsfolk and
/// the imp.
pub open spec fn drawn_names(d: Seq<usize>) -> Seq<RoleId> {
    (minion_picks(d) + outsider_picks(d) + picked(script_townsfolk(), town_draws(d))).push(RoleId::Imp)
}

/// The townsfolk that the draws `d` leave unpicked, in the script's order.
pub open spec fn spare_of(d: Seq<usize>) -> Seq<RoleId> {
    left_after(script_townsfolk(), town_draws(d))
}

/// How many swaps the draws `d` make.
pub open spec fn swap_count(d: Seq<usize>) -> int {
    d[swap_at(d)] as int
}

/// Where the numbers after the swaps start in the draws `d`.
pub open spec fn extras_at(d: Seq<usize>) -> int {
    swap_at(d) + 1 + 2 * swap_count(d)
}

/// The role names `ids` after swapping, in turn, the seats of each pair of numbers in `pairs`.
pub open spec fn swapped(ids: Seq<RoleId>, pairs: Seq<usize>) -> Seq<RoleId>
    decreases pairs.len(),
{
    if pairs.len() < 2 {
        ids
    } else {
        let t = swapped(ids, pairs.subrange(0, pairs.len() - 2));
        let a = pairs[pairs.len() - 2] as int;
        let b = pairs[pairs.len() - 1] as int;
        t.update(a, t[b]).update(b, t[a])
    }
}

/// The role names of the draws `d`, seat by seat, once shuffled.
pub open spec fn seated_names(d: Seq<usize>) -> Seq<RoleId> {
    swapped(drawn_names(d), d.subrange(swap_at(d) + 1, extras_at(d)))
}

/// Whether the role named `x` needs a number of its own when seated: the fortune teller its
/// red herring, the drunk the role it believes it has.
pub open spec fn draws_at_seat(x: RoleId) -> bool {
    x == RoleId::FortuneTeller || x == RoleId::Drunk
}

/// The entries of `ids` that need a number when seated, in order.
pub open spec fn seat_drawers(ids: Seq<RoleId>) -> Seq<RoleId>
    decreases ids.len(),
{
    if ids.len() == 0 {
        Seq::empty()
    } else if draws_at_seat(ids.last()) {
        seat_drawers(ids.drop_last()).push(ids.last())
    } else {
        seat_drawers(ids.drop_last())
    }
}

/// The entries of `ids` the fortune teller's red herring may be: those `is_good` holds of,
/// but the fortune teller, in order.
pub open spec fn herring_choices(ids: Seq<RoleId>) -> Seq<RoleId>
    decreases ids.len(),
{
    if ids.len() == 0 {
        Seq::empty()
    } else if ids.last().spec_is_good() && ids.last() != RoleId::FortuneTeller {
        herring_choices(ids.drop_last()).push(ids.last())
    } else {
        herring_choices(ids.drop_last())
    }
}

/// A seat of `ids` holding the role named `x`.
pub open spec fn seat_holding(ids: Seq<RoleId>, x: RoleId) -> int {
    choose|p: int| 0 <= p < ids.len() && ids[p] == x
}

/// The role that a role name starts a game with, for a role that needs no number.
pub open spec fn plain_role(x: RoleId) -> Role {
    match x {
        RoleId::WasherWoman => Role::WasherWoman,
        RoleId::Librarian => Role::Librarian,
        RoleId::Investigator => Role::Investigator,
        RoleId::Chef => Role::Chef,
        RoleId::Empath => Role::Empath,
        RoleId::FortuneTeller => Role::FortuneTeller { red_herring: 0 },
        RoleId::Undertaker => Role::Undertaker { last_exec: None },
        RoleId::Monk => Role::Monk,
        RoleId::RavensKeeper => Role::RavensKeeper,
        RoleId::Virgin => Role::Virgin { ability_used: false },
        RoleId::Slayer => Role::Slayer { ability_used: false },
        RoleId::Soldier => Role::Soldier,
        RoleId::Mayor => Role::Mayor,
        RoleId::Butler => Role::Butler { butlered: None },
        RoleId::Drunk => Role::Drunk { role: RoleId::WasherWoman },
        RoleId::Recluse => Role::Recluse,
        RoleId::Saint => Role::Saint,
        RoleId::Poisoner => Role::Poisoner,
        RoleId::Spy => Role::Spy,
        RoleId::ScarletWoman => Role::ScarletWoman,
        RoleId::Baron => Role::Baron,
        RoleId::Imp => Role::Imp,
    }
}

/// The role seated in seat `i` of the shuffled names `ids`, where `spare` are the townsfolk
/// left unpicked and the numbers for the seats that need one are read in seat order from
/// position `e` of `d`: the fortune teller's red herring is the seat of the choice that its
/// number names, the drunk believes itself the spare townsfolk that its number names.
pub open spec fn role_at(ids: Seq<RoleId>, spare: Seq<RoleId>, d: Seq<usize>, e: int, i: int) -> Role {
    let k = d[e + seat_drawers(ids.take(i)).len()] as int;
    match ids[i] {
        RoleId::FortuneTeller => Role::FortuneTeller {
            red_herring: seat_holding(ids, herring_choices(ids)[k]) as PlayerId,
        },
        RoleId::Drunk => Role::Drunk { role: spare[k] },
        x => plain_role(x),
    }
}

/// The fifteen roles, seat by seat, that the draws `d` give.
pub open spec fn setup_of(d: Seq<usize>) -> Seq<Role> {
    Seq::new(
        15,
        |i: int| role_at(seated_names(d), spare_of(d), d, extras_at(d), i),
    )
}

/// The range (from, below) of the next number drawn once the numbers `p` have been drawn, or
/// `None` when the setup is complete: the three minions, the outsiders and the townsfolk are
/// picked from what is left of their pools (of four, four and thirteen), the number of swaps
/// is from five to nine, each swap names two of the fifteen seats, and then, seat by seat,
/// the fortune teller draws one of its red herring choices and the drunk one of the spare
/// townsfolk.
pub open spec fn next_range(p: Seq<usize>) -> Option<(int, int)> {
    let l = p.len() as int;
    if l < 3 {
        Some((0int, 4 - l))
    } else if l < town_start(p) {
        Some((0int, 4 - (l - 3)))
    } else if l < swap_at(p) {
        Some((0int, 13 - (l - town_start(p))))
    } else if l == swap_at(p) {
        Some((5int, 10int))
    } else if l < extras_at(p) {
        Some((0int, 15int))
    } else if l - extras_at(p) < seat_drawers(seated_names(p)).len() {
        if seat_drawers(seated_names(p))[l - extras_at(p)] == RoleId::FortuneTeller {
            Some((0int, herring_choices(seated_names(p)).len() as int))
        } else {
            Some((0int, spare_of(p).len() as int))
        }
    } else {
        None
    }
}

/// Whether each number of `d` lies in the range that the numbers before it leave for it.
pub open spec fn draws_fit(d: Seq<usize>) -> bool {
    forall|j: int| 0 <= j < d.len() ==> (#[trigger] next_range(d.take(j)) matches Some(r) && r.0 <= d[j] < r.1)
}

/// Whether `d` is a whole draw of a setup: each number in its range, and no more needed.
pub open spec fn draws_in_range(d: Seq<usize>) -> bool {
    draws_fit(d) && next_range(d) is None
}

/// A number drawn in its range keeps the draws fitting.
pub proof fn lemma_fit_push(p: Seq<usize>, v: usize)
    requires
        draws_fit(p),
        next_range(p) matches Some(r) && r.0 <= v < r.1,
    ensures
        draws_fit(p.push(v)),
{
    let q = p.push(v);
    assert forall|j: int| 0 <= j < q.len() implies (#[trigger] next_range(q.take(j)) matches Some(r) && r.0 <= q[j] < r.1) by {
        if j < p.len() {
            assert(q.take(j) =~= p.take(j));
            assert(next_range(p.take(j)) matches Some(r) && r.0 <= p[j] < r.1);
        } else {
            assert(q.take(j) =~= p);
        }
    }
}

/// The stages of a draw read only the numbers before them: drawing more changes none of what
/// is already decided.
pub proof fn lemma_draws_extend(p: Seq<usize>, q: Seq<usize>)
    requires
        p.is_prefix_of(q),
    ensures
        p.len() >= 3 ==> minion_picks(q) == minion_picks(p) && outsider_count(q) == outsider_count(p)
            && town_start(q) == town_start(p),
        p.len() >= town_start(p) ==> outsider_picks(q) == outsider_picks(p) && town_count(q) == town_count(p)
            && swap_at(q) == swap_at(p),
        p.len() >= swap_at(p) ==> town_draws(q) == town_draws(p) && drawn_names(q) == drawn_names(p)
            && spare_of(q) == spare_of(p),
        p.len() > swap_at(p) ==> swap_count(q) == swap_count(p) && extras_at(q) == extras_at(p),
        p.len() > swap_at(p) && p.len() >= extras_at(p) ==> seated_names(q) == seated_names(p),
{
    if p.len() >= 3 {
        assert(q.subrange(0, 3) =~= p.subrange(0, 3));
        if p.len() >= town_start(p) {
            assert(q.subrange(3, town_start(p)) =~= p.subrange(3, town_start(p)));
            if p.len() >= swap_at(p) {
                assert(town_draws(q) =~= town_draws(p));
                if p.len() > swap_at(p) {
                    assert(q[swap_at(p)] == p[swap_at(p)]);
                    if p.len() >= extras_at(p) {
                        assert(q.subrange(swap_at(p) + 1, extras_at(p)) =~= p.subrange(swap_at(p) + 1, extras_at(p)));
                    }
                }
            }
        }
    }
}

/// The seats needing a number among the first `i` entries of `ids` come first among those of
/// `ids`, and one more comes when entry `i` needs one.
pub proof fn lemma_drawers_take(ids: Seq<RoleId>, i: int)
    requires
        0 <= i < ids.len(),
    ensures
        seat_drawers(ids.take(i + 1)) == if draws_at_seat(ids[i]) {
            seat_drawers(ids.take(i)).push(ids[i])
        } else {
            seat_drawers(ids.take(i))
        },
        seat_drawers(ids.take(i)).len() <= seat_drawers(ids).len(),
        draws_at_seat(ids[i]) ==> seat_drawers(ids.take(i)).len() < seat_drawers(ids).len()
            && seat_drawers(ids)[seat_drawers(ids.take(i)).len() as int] == ids[i],
    decreases ids.len(),
{
    assert(ids.take(i + 1).drop_last() =~= ids.take(i));
    if i + 1 == ids.len() {
        assert(ids.take(i + 1) =~= ids);
    } else {
        lemma_drawers_take(ids.drop_last(), i);
        assert(ids.drop_last().take(i) =~= ids.take(i));
        assert(ids.drop_last().take(i + 1) =~= ids.take(i + 1));
    }
}

/// Fewer entries of `ids` hold no more of those that need a number.
pub proof fn lemma_drawers_prefix(ids: Seq<RoleId>, a: int, b: int)
    requires
        0 <= a <= b <= ids.len(),
    ensures
        seat_drawers(ids.take(a)).len() <= seat_drawers(ids.take(b)).len(),
    decreases b - a,
{
    if a < b {
        lemma_drawers_prefix(ids, a, b - 1);
        lemma_drawers_take(ids, b - 1);
    }
}

} // verus!
