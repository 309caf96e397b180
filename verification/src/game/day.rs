use vstd::prelude::*;

use super::night::{any_admits, keeps, lemma_keeps_chain};
use vstd::set_lib::{lemma_int_range, lemma_len_subset, set_int_range};
use super::{first_seat, told_all, Action, Exchange, GameError, GrimIO, Grimoir, Info, Note, Pick, PlayerState};
use crate::roles::{PlayerId, Role, RoleId};

verus! {

/// A player as the day finds it: yesterday's execution mark and the night's death mark worn
/// off.
pub open spec fn at_dawn(p: PlayerState) -> PlayerState {
    p.without(Note::ExecToday, Note::DiedTonight)
}

/// The whole table as the day finds it.
pub open spec fn table_at_dawn(ps: Seq<PlayerState>) -> Seq<PlayerState> {
    ps.map_values(|p: PlayerState| at_dawn(p))
}

/// How many seats hold a living player.
pub open spec fn living(ps: Seq<PlayerState>) -> nat
    decreases ps.len(),
{
    if ps.len() == 0 {
        0
    } else {
        living(ps.drop_last()) + if ps.last().alive {
            1nat
        } else {
            0nat
        }
    }
}

/// Whether the scarlet woman takes over from a dead demon: she is in play and not poisoned.
pub open spec fn scarlet_saves(ps: Seq<PlayerState>) -> bool {
    match first_seat(ps, RoleId::ScarletWoman) {
        Some(s) => !ps[s].has(Note::Poisoned),
        None => false,
    }
}

/// The table once the scarlet woman has become the imp.
pub open spec fn scarlet_takes_over(ps: Seq<PlayerState>) -> Seq<PlayerState> {
    match first_seat(ps, RoleId::ScarletWoman) {
        Some(s) => ps.update(s, ps[s].with_role(Role::Imp)),
        None => ps,
    }
}

/// The demon has died. With a demon still alive, that is an error. Otherwise the sober
/// scarlet woman becomes the imp; without her the good team wins and the game does not go on.
pub open spec fn demon_dies(ps: Seq<PlayerState>, acts: Seq<Action>, ps2: Seq<PlayerState>, acts2: Seq<Action>, r: Result<(), GameError>) -> bool {
    &&& acts2 == acts
    &&& if any_admits(ps, Pick::LivingDemon) {
        ps2 == ps && r == Err::<(), GameError>(GameError::DemonAlive)
    } else {
        scarlet_saves(ps) && ps2 == scarlet_takes_over(ps) && r == Ok::<(), GameError>(())
    }
}

/// The table once seat `p` is executed, before the demon's death is dealt with: the player
/// dead, the mayor marked as having seen an execution, the undertaker remembering the role
/// executed, and a drunk who believes itself the undertaker marked as well.
pub open spec fn after_execution(ps: Seq<PlayerState>, p: int) -> Seq<PlayerState> {
    let ps1 = ps.update(p, ps[p].dead());
    let ps2 = match first_seat(ps1, RoleId::Mayor) {
        Some(m) => ps1.update(m, ps1[m].noted(Note::ExecToday)),
        None => ps1,
    };
    let ps3 = match first_seat(ps2, RoleId::Undertaker) {
        Some(u) => ps2.update(u, ps2[u].with_role(Role::Undertaker { last_exec: Some(ps2[p].id()) })),
        None => ps2,
    };
    match first_seat(ps3, RoleId::Drunk) {
        Some(d) => if ps3[d].role == (Role::Drunk { role: RoleId::Undertaker }) {
            ps3.update(d, ps3[d].noted(Note::ExecToday))
        } else {
            ps3
        },
        None => ps3,
    }
}

/// Seat `p` is executed; when it held the demon, the demon dies.
pub open spec fn executed(ps: Seq<PlayerState>, acts: Seq<Action>, p: PlayerId, ps2: Seq<PlayerState>, acts2: Seq<Action>, r: Result<(), GameError>) -> bool {
    if p >= ps.len() {
        ps2 == ps && acts2 == acts && r == Err::<(), GameError>(GameError::NoSuchPlayer(p))
    } else {
        let ps1 = after_execution(ps, p as int);
        if ps1[p as int].id().spec_is_demon() {
            demon_dies(ps1, acts, ps2, acts2, r)
        } else {
            ps2 == ps1 && acts2 == acts && r == Ok::<(), GameError>(())
        }
    }
}

/// The table once the player in seat `id` has used a slayer's ability, if it is a slayer.
pub open spec fn slayer_spent(ps: Seq<PlayerState>, id: int) -> Seq<PlayerState> {
    match ps[id].role {
        Role::Slayer { .. } => ps.update(id, ps[id].with_role(Role::Slayer { ability_used: true })),
        _ => ps,
    }
}

/// The player in seat `id` claims to slay seat `t`. The claim is logged; a sober slayer with
/// its ability unused kills the demon it names, and the demon dies; a slayer has used its
/// ability after the claim.
pub open spec fn slays(ps: Seq<PlayerState>, acts: Seq<Action>, id: int, t: PlayerId, ps2: Seq<PlayerState>, acts2: Seq<Action>, r: Result<(), GameError>) -> bool {
    let acts1 = acts.push(Action::Slay(id as usize, t));
    if ps[id].role == (Role::Slayer { ability_used: false }) {
        if t >= ps.len() {
            ps2 == ps && acts2 == acts1 && r == Err::<(), GameError>(GameError::NoSuchPlayer(t))
        } else if ps[t as int].id().spec_is_demon() && !ps[id].has(Note::Poisoned) {
            let ps1 = ps.update(t as int, ps[t as int].dead());
            &&& acts2 == acts1
            &&& if any_admits(ps1, Pick::LivingDemon) {
                ps2 == ps1 && r == Err::<(), GameError>(GameError::DemonAlive)
            } else {
                scarlet_saves(ps1) && ps2 == slayer_spent(scarlet_takes_over(ps1), id) && r == Ok::<(), GameError>(())
            }
        } else {
            ps2 == slayer_spent(ps, id) && acts2 == acts1 && r == Ok::<(), GameError>(())
        }
    } else {
        ps2 == slayer_spent(ps, id) && acts2 == acts1 && r == Ok::<(), GameError>(())
    }
}

/// The table once the virgin in seat `v` has used her ability.
pub open spec fn virgin_spent(ps: Seq<PlayerState>, v: int) -> Seq<PlayerState> {
    ps.update(v, ps[v].with_role(Role::Virgin { ability_used: true }))
}

/// The player in seat `i` nominates seat `nom`: logged. A virgin with her ability unused uses
/// it; when she is sober and the nominator a townsfolk, the nominator is executed at once and
/// the result is `Ok(true)`: the nominations are over.
pub open spec fn nominates(ps: Seq<PlayerState>, acts: Seq<Action>, i: int, nom: PlayerId, ps2: Seq<PlayerState>, acts2: Seq<Action>, r: Result<bool, GameError>) -> bool {
    let acts1 = acts.push(Action::Nomination(i as usize, nom));
    if nom >= ps.len() {
        ps2 == ps && acts2 == acts1 && r == Err::<bool, GameError>(GameError::NoSuchPlayer(nom))
    } else if ps[nom as int].role == (Role::Virgin { ability_used: false }) {
        if ps[i].id().spec_is_townsfolk() && !ps[nom as int].has(Note::Poisoned) {
            exists|ps3: Seq<PlayerState>, r3: Result<(), GameError>| #[trigger] executed(ps, acts1, i as usize, ps3, acts2, r3)
                && match r3 {
                    Err(e) => ps2 == ps3 && r == Err::<bool, GameError>(e),
                    Ok(_) => ps2 == virgin_spent(ps3, nom as int) && r == Ok::<bool, GameError>(true),
                }
        } else {
            ps2 == virgin_spent(ps, nom as int) && acts2 == acts1 && r == Ok::<bool, GameError>(false)
        }
    } else {
        ps2 == ps && acts2 == acts1 && r == Ok::<bool, GameError>(false)
    }
}

/// The votes `votes`, cast at table `ps`, leave it as `ps2`: only living players and dead
/// players who still hold their ghost vote have voted, and a dead player who voted has spent
/// the ghost vote.
pub open spec fn votes_cast(ps: Seq<PlayerState>, votes: Seq<bool>, ps2: Seq<PlayerState>) -> bool {
    &&& votes.len() == 15
    &&& ps2.len() == ps.len()
    &&& forall|j: int| 0 <= j < 15 && #[trigger] votes[j] ==> j < ps.len() && (ps[j].alive || ps[j].ghost_vote)
    &&& forall|j: int| 0 <= j < ps.len() ==> #[trigger] ps2[j] == if j < 15 && votes[j] && !ps[j].alive {
        PlayerState { ghost_vote: false, ..ps[j] }
    } else {
        ps[j]
    }
}

/// How many of the first `k` votes are for.
pub open spec fn votes_for(votes: Seq<bool>, k: int) -> nat
    decreases k,
{
    if k <= 0 {
        0
    } else {
        votes_for(votes, k - 1) + if votes[k - 1] {
            1nat
        } else {
            0nat
        }
    }
}

/// The most votes any nomination of `his` received.
pub open spec fn most_votes(his: Seq<(usize, usize, usize)>) -> nat
    decreases his.len(),
{
    if his.len() == 0 {
        0
    } else {
        let rest = most_votes(his.drop_last());
        if his.last().2 >= rest {
            his.last().2 as nat
        } else {
            rest
        }
    }
}

/// How many nominations of `his` received exactly `v` votes.
pub open spec fn nominations_with(his: Seq<(usize, usize, usize)>, v: nat) -> nat
    decreases his.len(),
{
    if his.len() == 0 {
        0
    } else {
        nominations_with(his.drop_last(), v) + if his.last().2 == v {
            1nat
        } else {
            0nat
        }
    }
}

/// Who is executed after the nominations `his` (nominator, nominee, votes), when `thresh`
/// votes are needed: the nominee with the most votes, when they reach the threshold and no
/// other nomination has as many.
pub open spec fn execution_choice(his: Seq<(usize, usize, usize)>, thresh: nat) -> Option<usize> {
    if his.len() > 0 && most_votes(his) >= thresh && nominations_with(his, most_votes(his)) == 1 {
        Some(his[choose|k: int| 0 <= k < his.len() && his[k].2 == most_votes(his)].1)
    } else {
        None
    }
}

/// Whether every entry that the log `acts2` has beyond `acts` is a slay, a nomination or a
/// vote.
pub open spec fn day_entries(acts: Seq<Action>, acts2: Seq<Action>) -> bool {
    forall|k: int| acts.len() <= k < acts2.len() ==> (#[trigger] acts2[k] is Slay || acts2[k] is Nomination || acts2[k] is Vote)
}

/// Whether the day ends with a win: two players left alive (evil wins), or three with the
/// mayor in play and not executed today (good wins).
pub open spec fn day_ends_game(ps: Seq<PlayerState>) -> bool {
    ||| living(ps) == 2
    ||| living(ps) == 3 && match first_seat(ps, RoleId::Mayor) {
        Some(m) => !ps[m].has(Note::ExecToday),
        None => false,
    }
}

/// Daybreak announced at table `ps`: every seat told it is day, then, for each seat that died
/// in the night, in seat order, every seat told of the death.
pub open spec fn dawn_talk(ps: Seq<PlayerState>) -> Seq<Exchange> {
    told_all(ps.len() as int, Info::Day) + death_tells(ps, ps.len() as int)
}

/// Every seat of `ps` told of each death of the night among the first `k` seats, in order.
pub open spec fn death_tells(ps: Seq<PlayerState>, k: int) -> Seq<Exchange>
    decreases k,
{
    if k <= 0 {
        Seq::empty()
    } else {
        death_tells(ps, k - 1) + if ps[k - 1].has(Note::DiedTonight) {
            told_all(ps.len() as int, Info::Player((k - 1) as PlayerId))
        } else {
            Seq::empty()
        }
    }
}

/// Talk followed by one more block in which a player speaks is talk.
proof fn lemma_talk_block(s: Seq<Exchange>, i: PlayerId, p: PlayerId, info: Info)
    requires
        talk_blocks(s),
    ensures
        talk_blocks(s + seq![Exchange::Talked(i, Some((p, info))), Exchange::Told(p, Info::Player(i)), Exchange::Told(p, info)]),
{
    let t = s + seq![Exchange::Talked(i, Some((p, info))), Exchange::Told(p, Info::Player(i)), Exchange::Told(p, info)];
    assert(t.subrange(0, t.len() - 3) =~= s);
}

/// Whether exchange `e` tells seat `i` something.
pub open spec fn told_to(e: Exchange, i: PlayerId) -> bool {
    e matches Exchange::Told(j, _) && j == i
}

/// Whether seat `i` has, in the talk `s`, been asked whom to tell what and answered no one,
/// and has been told nothing since.
pub open spec fn settled(s: Seq<Exchange>, i: PlayerId) -> bool {
    exists|k: int| 0 <= k < s.len() && #[trigger] s[k] == Exchange::Talked(i, None)
        && forall|m: int| k < m < s.len() ==> !told_to(#[trigger] s[m], i)
}

/// A seat stays settled while it is told nothing.
proof fn lemma_settled_extend(s: Seq<Exchange>, t: Seq<Exchange>, i: PlayerId)
    requires
        settled(s, i),
        forall|m: int| 0 <= m < t.len() ==> !told_to(#[trigger] t[m], i),
    ensures
        settled(s + t, i),
{
    let k = choose|k: int| 0 <= k < s.len() && #[trigger] s[k] == Exchange::Talked(i, None)
        && forall|m: int| k < m < s.len() ==> !told_to(#[trigger] s[m], i);
    let u = s + t;
    assert(u[k] == s[k]);
    assert forall|m: int| k < m < u.len() implies !told_to(#[trigger] u[m], i) by {
        if m < s.len() {
            assert(u[m] == s[m]);
        } else {
            assert(u[m] == t[m - s.len()]);
        }
    }
}

/// Whether the exchanges `s` are talk: blocks, each a player asked whom to tell what who
/// answers no one, or who answers a player and a piece of information, after which that player
/// is told who speaks and then the information.
pub open spec fn talk_blocks(s: Seq<Exchange>) -> bool
    decreases s.len(),
{
    if s.len() == 0 {
        true
    } else if s.last() matches Exchange::Talked(_, None) {
        talk_blocks(s.drop_last())
    } else {
        &&& s.len() >= 3
        &&& s[s.len() - 3] matches Exchange::Talked(i, Some(pair)) && s[s.len() - 2] == Exchange::Told(pair.0, Info::Player(i))
            && s[s.len() - 1] == Exchange::Told(pair.0, pair.1)
        &&& talk_blocks(s.subrange(0, s.len() - 3))
    }
}

/// What the table `ps` is told when the demon has died, before the scarlet woman takes over:
/// the scarlet woman, if she does, that she is the imp.
pub open spec fn demon_death_talk(ps: Seq<PlayerState>) -> Seq<Exchange> {
    if any_admits(ps, Pick::LivingDemon) {
        Seq::empty()
    } else {
        match first_seat(ps, RoleId::ScarletWoman) {
            Some(s) => if !ps[s].has(Note::Poisoned) {
                seq![Exchange::Told(s as PlayerId, Info::Role(RoleId::Imp))]
            } else {
                Seq::empty()
            },
            None => Seq::empty(),
        }
    }
}

/// What the table `ps` is told when seat `p` is executed: every seat told of it, then what the
/// death of the demon tells, if the demon died.
pub open spec fn execution_talk(ps: Seq<PlayerState>, p: PlayerId) -> Seq<Exchange> {
    told_all(ps.len() as int, Info::Player(p)) + if p < ps.len() && after_execution(ps, p as int)[p as int].id().spec_is_demon() {
        demon_death_talk(after_execution(ps, p as int))
    } else {
        Seq::empty()
    }
}

/// What the table `ps` is told when seat `id` claims to slay seat `t`: every seat told of the
/// claim; when the claim kills the demon, every seat told of the death, then what the death of
/// the demon tells.
pub open spec fn slay_talk(ps: Seq<PlayerState>, id: int, t: PlayerId) -> Seq<Exchange> {
    let claim = told_all(ps.len() as int, Info::Slays(id as PlayerId, t));
    if ps[id].role == (Role::Slayer { ability_used: false }) && t < ps.len() && ps[t as int].id().spec_is_demon()
        && !ps[id].has(Note::Poisoned) {
        claim + told_all(ps.len() as int, Info::Player(t)) + demon_death_talk(ps.update(t as int, ps[t as int].dead()))
    } else {
        claim
    }
}

/// What the table `ps` is told when seat `i` nominates seat `nom`: the execution of the
/// nominator, when the virgin executes it.
pub open spec fn nomination_talk(ps: Seq<PlayerState>, i: int, nom: PlayerId) -> Seq<Exchange> {
    if nom < ps.len() && ps[nom as int].role == (Role::Virgin { ability_used: false }) && ps[i].id().spec_is_townsfolk()
        && !ps[nom as int].has(Note::Poisoned) {
        execution_talk(ps, i as PlayerId)
    } else {
        Seq::empty()
    }
}

/// Whether `s` is the vote on a nomination at table `ps`, over the first `k` seats in order:
/// each living player, and each dead player holding a ghost vote, asked to vote, and `votes`
/// true exactly for those who answered with a seat.
pub open spec fn ballots(ps: Seq<PlayerState>, votes: Seq<bool>, k: int, s: Seq<Exchange>) -> bool
    decreases k,
{
    if k <= 0 {
        s.len() == 0
    } else if ps[k - 1].alive || ps[k - 1].ghost_vote {
        &&& s.len() > 0
        &&& s.last() matches Exchange::MayName(j, a) && j == k - 1 && (a is Some <==> (k - 1 < 15 && votes[k - 1]))
        &&& ballots(ps, votes, k - 1, s.drop_last())
    } else {
        ballots(ps, votes, k - 1, s)
    }
}

/// `ballots` of the first `k` seats reads no vote at or after `k`.
proof fn lemma_ballots_frame(ps: Seq<PlayerState>, v1: Seq<bool>, v2: Seq<bool>, k: int, s: Seq<Exchange>)
    requires
        ballots(ps, v1, k, s),
        forall|i: int| 0 <= i < k && i < 15 ==> v1[i] == v2[i],
    ensures
        ballots(ps, v2, k, s),
    decreases k,
{
    if k > 0 {
        if ps[k - 1].alive || ps[k - 1].ghost_vote {
            lemma_ballots_frame(ps, v1, v2, k - 1, s.drop_last());
        } else {
            lemma_ballots_frame(ps, v1, v2, k - 1, s);
        }
    }
}

/// The seat `k` turns after seat `a`, round a table of `n` seats.
pub open spec fn turn(n: int, a: int, k: int) -> int {
    if a + k < n {
        a + k
    } else {
        a + k - n
    }
}

/// How many turns after seat `a` seat `i` comes, round a table of `n` seats.
pub open spec fn turns_to(n: int, a: int, i: int) -> int {
    if i >= a {
        i - a
    } else {
        i + n - a
    }
}

/// Whether the player in seat `x` has nominated in `his`.
pub open spec fn has_nominated_in(his: Seq<(usize, usize, usize)>, x: int) -> bool {
    exists|k: int| 0 <= k < his.len() && #[trigger] his[k].0 == x
}

/// Whether the answer `a` to the call for nominations declines, after the nominations `his`:
/// it names no one, or a seat already nominated.
pub open spec fn declining(his: Seq<(usize, usize, usize)>, a: Option<PlayerId>) -> bool {
    a matches Some(y) ==> exists|j: int| 0 <= j < his.len() && #[trigger] his[j].1 == y
}

/// Where the call for nominations starts, after the nominations `his`, at a table of `n` seats:
/// the first seat, or the seat after the last nominator.
pub open spec fn call_start(n: int, his: Seq<(usize, usize, usize)>) -> int {
    if his.len() == 0 {
        0
    } else {
        turn(n, his.last().0 as int, 1)
    }
}

/// How many turns the call for nominations takes at most, after the nominations `his`, at a
/// table of `n` seats: once round the table, or up to the last nominator.
pub open spec fn call_length(n: int, his: Seq<(usize, usize, usize)>) -> int {
    if his.len() == 0 {
        n
    } else {
        n - 1
    }
}

/// Whether `d` is the call for nominations at table `ps`, after the nominations `his`, over
/// `len` turns from seat `a`: seat by seat in turn, each living player who has not nominated
/// is asked and declines; the other seats are passed over.
pub open spec fn called(ps: Seq<PlayerState>, his: Seq<(usize, usize, usize)>, a: int, len: int, d: Seq<Exchange>) -> bool
    decreases len,
{
    if len <= 0 {
        d.len() == 0
    } else {
        let s = turn(ps.len() as int, a, len - 1);
        if ps[s].alive && !has_nominated_in(his, s) {
            &&& d.len() > 0
            &&& d.last() matches Exchange::MayName(j, x) && j == s && declining(his, x)
            &&& called(ps, his, a, len - 1, d.drop_last())
        } else {
            called(ps, his, a, len - 1, d)
        }
    }
}

/// Whether the call for nominations at table `ps`, after the nominations `his`, reaches seat
/// `i` with the declines `d` before it, and before it comes back to where it stops.
pub open spec fn called_until(ps: Seq<PlayerState>, his: Seq<(usize, usize, usize)>, i: int, d: Seq<Exchange>) -> bool {
    let n = ps.len() as int;
    let a = call_start(n, his);
    &&& 0 <= i < n
    &&& turns_to(n, a, i) < call_length(n, his)
    &&& called(ps, his, a, turns_to(n, a, i), d)
}

/// Whether `d` is the whole call for nominations at table `ps` after the nominations `his`,
/// with everyone asked declining: from its start until it comes back to the last nominator,
/// or once round the table when no one has nominated.
pub open spec fn called_through(ps: Seq<PlayerState>, his: Seq<(usize, usize, usize)>, d: Seq<Exchange>) -> bool {
    let n = ps.len() as int;
    called(ps, his, call_start(n, his), call_length(n, his), d)
}

/// The claims to slay of the first `k` seats, in seat order, take the table from `ps` to `ps2`,
/// the log from `acts` to `acts2` and the talk from `tk` to `tk2`: each seat is asked whom it
/// claims to slay, and claims to slay the seat it names, or makes no claim; the first claim
/// that fails ends them with its error.
pub open spec fn slays_upto(ps: Seq<PlayerState>, acts: Seq<Action>, tk: Seq<Exchange>, k: int, ps2: Seq<PlayerState>, acts2: Seq<Action>, tk2: Seq<Exchange>, r: Result<(), GameError>) -> bool
    decreases k,
{
    if k <= 0 {
        ps2 == ps && acts2 == acts && tk2 == tk && r == Ok::<(), GameError>(())
    } else {
        ||| r is Err && slays_upto(ps, acts, tk, k - 1, ps2, acts2, tk2, r)
        ||| r is Ok && tk2.len() > 0 && tk2.last() == Exchange::MayName((k - 1) as PlayerId, None)
                && slays_upto(ps, acts, tk, k - 1, ps2, acts2, tk2.drop_last(), r)
        ||| exists|psm: Seq<PlayerState>, actsm: Seq<Action>, t: PlayerId| #[trigger] slays(psm, actsm, k - 1, t, ps2, acts2, r) && ({
                let tail = seq![Exchange::MayName((k - 1) as PlayerId, Some(t))] + slay_talk(psm, k - 1, t);
                &&& tk2.len() >= tail.len()
                &&& tk2.skip(tk2.len() - tail.len()) == tail
                &&& slays_upto(ps, acts, tk, k - 1, psm, actsm, tk2.take(tk2.len() - tail.len()), Ok::<(), GameError>(()))
            })
    }
}

/// The talk of a nomination round at table `ps0`, after the nominations `before`, from `tk` to
/// `tk2`: the call for nominations up to seat `i`, the player there naming seat `nom`, talk that
/// runs its course, and the vote `votes` at table `ps`.
pub open spec fn round_talk(before: Seq<(usize, usize, usize)>, ps0: Seq<PlayerState>, tk: Seq<Exchange>, i: int, nom: PlayerId, ps: Seq<PlayerState>, votes: Seq<bool>, tk2: Seq<Exchange>) -> bool {
    exists|d: Seq<Exchange>, c: Seq<Exchange>, b: Seq<Exchange>| #![trigger called_until(ps0, before, i, d), talk_blocks(c), ballots(ps, votes, ps.len() as int, b)]
        called_until(ps0, before, i, d) && talk_blocks(c) && chat_ok(c) && ballots(ps, votes, ps.len() as int, b)
            && tk2 == tk + d + seq![Exchange::MayName(i as PlayerId, Some(nom))] + c + b
}

/// A nomination round, after the nominations `before`: the living player in seat `i` nominates
/// seat `nom`, the seat it names, no virgin ends the nominations, and `count` players vote for
/// the nominee: those that answer the vote with a seat.
pub open spec fn vote_round(before: Seq<(usize, usize, usize)>, ps: Seq<PlayerState>, acts: Seq<Action>, tk: Seq<Exchange>, i: int, nom: PlayerId, count: int, ps2: Seq<PlayerState>, acts2: Seq<Action>, tk2: Seq<Exchange>) -> bool {
    &&& 0 <= i < ps.len()
    &&& ps[i].alive
    &&& exists|psn: Seq<PlayerState>, actsn: Seq<Action>, votes: [bool; 15]|
        #![trigger nominates(ps, acts, i, nom, psn, actsn, Ok::<bool, GameError>(false)), votes_cast(psn, votes@, ps2)]
        nominates(ps, acts, i, nom, psn, actsn, Ok::<bool, GameError>(false)) && votes_cast(psn, votes@, ps2)
            && count == votes_for(votes@, 15) && acts2 == actsn.push(Action::Vote(votes))
            && round_talk(before, ps, tk, i, nom, psn, votes@, tk2)
}

/// The nomination rounds `his` (nominator, nominee, votes for), in order, take the table from
/// `ps` to `ps2`, the log from `acts` to `acts2` and the talk from `tk` to `tk2`.
pub open spec fn rounds(ps: Seq<PlayerState>, acts: Seq<Action>, tk: Seq<Exchange>, his: Seq<(usize, usize, usize)>, ps2: Seq<PlayerState>, acts2: Seq<Action>, tk2: Seq<Exchange>) -> bool
    decreases his.len(),
{
    if his.len() == 0 {
        ps2 == ps && acts2 == acts && tk2 == tk
    } else {
        exists|psm: Seq<PlayerState>, actsm: Seq<Action>, tkm: Seq<Exchange>| rounds(ps, acts, tk, his.drop_last(), psm, actsm, tkm)
            && #[trigger] vote_round(his.drop_last(), psm, actsm, tkm, his.last().0 as int, his.last().1, his.last().2 as int, ps2, acts2, tk2)
    }
}

/// One more round extends the rounds.
proof fn lemma_rounds_step(ps: Seq<PlayerState>, acts: Seq<Action>, tk: Seq<Exchange>, his: Seq<(usize, usize, usize)>, psm: Seq<PlayerState>, actsm: Seq<Action>, tkm: Seq<Exchange>, x: (usize, usize, usize), ps2: Seq<PlayerState>, acts2: Seq<Action>, tk2: Seq<Exchange>)
    requires
        rounds(ps, acts, tk, his, psm, actsm, tkm),
        vote_round(his, psm, actsm, tkm, x.0 as int, x.1, x.2 as int, ps2, acts2, tk2),
    ensures
        rounds(ps, acts, tk, his.push(x), ps2, acts2, tk2),
{
    assert(his.push(x).drop_last() =~= his);
    assert(his.push(x).last() == x);
}

/// Whether, after the nominations `his`, seat `i` has not nominated and seat `nom` has not
/// been nominated.
pub open spec fn fresh_nomination(his: Seq<(usize, usize, usize)>, i: int, nom: PlayerId) -> bool {
    forall|k: int| 0 <= k < his.len() ==> #[trigger] his[k].0 != i && his[k].1 != nom
}

/// Whether no one nominates twice and no one is nominated twice in `his`.
pub open spec fn nominations_distinct(his: Seq<(usize, usize, usize)>) -> bool {
    forall|a: int, b: int| 0 <= a < b < his.len() ==> #[trigger] his[a].0 != #[trigger] his[b].0 && his[a].1 != his[b].1
}

/// After the nominations `his`, the votes decide: the nominee that `execution_choice` names,
/// with half the living players (rounded up) needed, is executed; with none named, nothing
/// happens.
pub open spec fn vote_decides(ps: Seq<PlayerState>, acts: Seq<Action>, his: Seq<(usize, usize, usize)>, ps2: Seq<PlayerState>, acts2: Seq<Action>, r: Result<(), GameError>) -> bool {
    match execution_choice(his, (living(ps) + 1) / 2) {
        Some(p) => executed(ps, acts, p, ps2, acts2, r),
        None => ps2 == ps && acts2 == acts && r == Ok::<(), GameError>(()),
    }
}

/// What the table `ps` is told when the votes on the nominations `his` decide: the execution,
/// if there is one.
pub open spec fn decision_talk(ps: Seq<PlayerState>, his: Seq<(usize, usize, usize)>) -> Seq<Exchange> {
    match execution_choice(his, (living(ps) + 1) / 2) {
        Some(p) => execution_talk(ps, p),
        None => Seq::empty(),
    }
}

/// Whether the talk `s` fails with outcome `r`: it ends with a player who answers that it tells
/// a seat beyond the fifteenth something, that seat told who speaks and what, and `r` names
/// that seat.
pub open spec fn talk_fails(s: Seq<Exchange>, r: Result<(), GameError>) -> bool {
    &&& s.len() >= 3
    &&& s[s.len() - 3] matches Exchange::Talked(i, Some(pair)) && pair.0 >= 15
        && s[s.len() - 2] == Exchange::Told(pair.0, Info::Player(i)) && s[s.len() - 1] == Exchange::Told(pair.0, pair.1)
        && r == Err::<(), GameError>(GameError::NoSuchPlayer(pair.0))
}

/// Whether the talk `s` has run its course: every one of the fifteen seats has settled, or more
/// than `3 * u64::MAX` exchanges have passed.
pub open spec fn chat_ok(s: Seq<Exchange>) -> bool {
    (forall|i: PlayerId| i < 15 ==> settled(s, i)) || s.len() > 3 * u64::MAX
}

/// The table `ps2` is `ps` with, at most, some dead players' ghost votes spent.
pub open spec fn ghost_votes_spent(ps: Seq<PlayerState>, ps2: Seq<PlayerState>) -> bool {
    &&& ps2.len() == ps.len()
    &&& forall|k: int| 0 <= k < ps.len() ==> #[trigger] ps2[k] == ps[k] || (!ps[k].alive && ps2[k] == PlayerState { ghost_vote: false, ..ps[k] })
}

/// A round that goes wrong, after the nominations `before`, once the call for nominations has
/// reached seat `i`, whose player names seat `nom`, and the nomination stands: the talk that
/// follows fails, or a player beyond the fifteenth seat votes.
pub open spec fn round_fails(before: Seq<(usize, usize, usize)>, ps: Seq<PlayerState>, acts: Seq<Action>, tk: Seq<Exchange>, i: int, nom: PlayerId, ps2: Seq<PlayerState>, acts2: Seq<Action>, tk2: Seq<Exchange>, r: Result<(), GameError>) -> bool {
    exists|psn: Seq<PlayerState>, actsn: Seq<Action>, d: Seq<Exchange>, c: Seq<Exchange>|
        #![trigger nominates(ps, acts, i, nom, psn, actsn, Ok::<bool, GameError>(false)), called_until(ps, before, i, d), talk_blocks(c)]
        nominates(ps, acts, i, nom, psn, actsn, Ok::<bool, GameError>(false)) && called_until(ps, before, i, d) && talk_blocks(c) && ({
            let tkc = tk + d + seq![Exchange::MayName(i as PlayerId, Some(nom))] + c;
            ||| ps2 == psn && acts2 == actsn && tk2 == tkc && talk_fails(c, r)
            ||| chat_ok(c) && ghost_votes_spent(psn, ps2) && acts2 == actsn && tkc.is_prefix_of(tk2)
                    && r == Err::<(), GameError>(GameError::TooManyPlayers) && ps.len() > 15
        })
}

/// How the nominations close after the rounds `his`, which left table `ps2` and talk `tk2`,
/// ending at table `ps` with outcome `r`: the call for nominations reaches a living nominator,
/// new to the day, who names a seat, and the nomination ends the day (executed for nominating
/// the virgin) or fails; a round fails; or the call goes all the way with no one nominating,
/// and the votes decide.
pub open spec fn nominations_close(his: Seq<(usize, usize, usize)>, ps2: Seq<PlayerState>, acts2: Seq<Action>, tk2: Seq<Exchange>, ps: Seq<PlayerState>, acts: Seq<Action>, tk: Seq<Exchange>, r: Result<(), GameError>) -> bool {
    ||| exists|i: int, nom: PlayerId, v: Result<bool, GameError>, d: Seq<Exchange>| #![trigger nominates(ps2, acts2, i, nom, ps, acts, v), called_until(ps2, his, i, d)]
            nominates(ps2, acts2, i, nom, ps, acts, v) && called_until(ps2, his, i, d)
            && 0 <= i < ps2.len() && ps2[i].alive && fresh_nomination(his, i, nom) && match v {
                Ok(ends) => ends && r == Ok::<(), GameError>(()),
                Err(e) => r == Err::<(), GameError>(e),
            } && tk == tk2 + d + seq![Exchange::MayName(i as PlayerId, Some(nom))] + nomination_talk(ps2, i, nom)
    ||| exists|i: int, nom: PlayerId| #[trigger] round_fails(his, ps2, acts2, tk2, i, nom, ps, acts, tk, r)
            && 0 <= i < ps2.len() && ps2[i].alive && fresh_nomination(his, i, nom)
    ||| exists|d: Seq<Exchange>| #[trigger] called_through(ps2, his, d) && vote_decides(ps2, acts2, his, ps, acts, r)
            && tk == tk2 + d + decision_talk(ps2, his)
}

/// The nominations of a day, from table `ps1` and talk `tk1`, end at table `ps` with outcome
/// `r`: rounds by different living nominators of different nominees, then the close of the
/// nominations.
pub open spec fn nominations_end(ps1: Seq<PlayerState>, acts1: Seq<Action>, tk1: Seq<Exchange>, ps: Seq<PlayerState>, acts: Seq<Action>, tk: Seq<Exchange>, r: Result<(), GameError>) -> bool {
    exists|his: Seq<(usize, usize, usize)>, ps2: Seq<PlayerState>, acts2: Seq<Action>, tk2: Seq<Exchange>| #[trigger] rounds(ps1, acts1, tk1, his, ps2, acts2, tk2)
        && nominations_distinct(his) && nominations_close(his, ps2, acts2, tk2, ps, acts, tk, r)
}

/// What follows the claims to slay, which took the log from `acts0` to `acts1` and left table
/// `ps1` and talk `tk1`, at a table that started the day as `ps0`: when a claim was made (the
/// log grew), more talk, which may fail; then no nominations at an empty table, or the
/// nominations.
pub open spec fn after_claims(ps0: Seq<PlayerState>, acts0: Seq<Action>, ps1: Seq<PlayerState>, acts1: Seq<Action>, tk1: Seq<Exchange>, ps: Seq<PlayerState>, acts: Seq<Action>, tk: Seq<Exchange>, r: Result<(), GameError>) -> bool {
    let claimed = acts1.len() > acts0.len();
    exists|c: Seq<Exchange>| #[trigger] talk_blocks(c) && ({
        ||| claimed && ps == ps1 && acts == acts1 && tk == tk1 + c && talk_fails(c, r)
        ||| (if claimed { chat_ok(c) } else { c.len() == 0 }) && ({
                ||| ps0.len() == 0 && ps == ps1 && acts == acts1 && tk == tk1 + c && r == Err::<(), GameError>(GameError::NoPlayers)
                ||| ps0.len() > 0 && nominations_end(ps1, acts1, tk1 + c, ps, acts, tk, r)
            })
    })
}

/// A day from table `ps0` and talk `tk0` to table `ps` and talk `tk`, with outcome `r`:
/// daybreak announced, then talk, which fails or runs its course, the claims to slay seat by
/// seat, which may fail, and what follows them.
pub open spec fn day_outcome(ps0: Seq<PlayerState>, acts0: Seq<Action>, tk0: Seq<Exchange>, ps: Seq<PlayerState>, acts: Seq<Action>, tk: Seq<Exchange>, r: Result<(), GameError>) -> bool {
    let dawn = table_at_dawn(ps0);
    exists|c: Seq<Exchange>| #[trigger] talk_blocks(c) && ({
        let tkd = tk0 + dawn_talk(ps0) + c;
        ||| ps == dawn && acts == acts0 && tk == tkd && talk_fails(c, r)
        ||| chat_ok(c) && r is Err && slays_upto(dawn, acts0, tkd, ps0.len() as int, ps, acts, tk, r)
        ||| chat_ok(c) && exists|ps1: Seq<PlayerState>, acts1: Seq<Action>, tk1: Seq<Exchange>| #[trigger] slays_upto(dawn, acts0, tkd, ps0.len() as int, ps1, acts1, tk1, Ok::<(), GameError>(()))
                && after_claims(ps0, acts0, ps1, acts1, tk1, ps, acts, tk, r)
    })
}

/// Once a claim to slay fails, the claims of the later seats change nothing.
proof fn lemma_slays_upto_extend(ps: Seq<PlayerState>, acts: Seq<Action>, tk: Seq<Exchange>, k: int, n: int, ps2: Seq<PlayerState>, acts2: Seq<Action>, tk2: Seq<Exchange>, r: Result<(), GameError>)
    requires
        r is Err,
        0 <= k <= n,
        slays_upto(ps, acts, tk, k, ps2, acts2, tk2, r),
    ensures
        slays_upto(ps, acts, tk, n, ps2, acts2, tk2, r),
    decreases n - k,
{
    if k < n {
        assert(slays_upto(ps, acts, tk, k + 1, ps2, acts2, tk2, r));
        lemma_slays_upto_extend(ps, acts, tk, k + 1, n, ps2, acts2, tk2, r);
    }
}

/// Whether the rules end the game here with a win for `team` (`true` for the good team): the
/// demon is dead with no sober scarlet woman to take over; the imp's kill, the last thing
/// logged, killed a player while a demon lives on; two players are left alive (the evil team
/// wins); or three with the mayor in play and not executed today.
pub open spec fn game_won(ps: Seq<PlayerState>, acts: Seq<Action>, team: bool) -> bool {
    ||| team && !any_admits(ps, Pick::LivingDemon) && !scarlet_saves(ps)
    ||| team && acts.len() > 0 && (acts.last() matches Action::ImpKill(p) && p < ps.len() && !ps[p as int].alive
            && any_admits(ps, Pick::LivingDemon))
    ||| !team && living(ps) == 2
    ||| team && day_ends_game(ps) && living(ps) == 3
}

/// How many votes are for.
pub fn tally(votes: &[bool; 15]) -> (r: usize)
    ensures
        r == votes_for(votes@, 15),
        r <= 15,
{
    let mut count: usize = 0;
    let mut k: usize = 0;
    while k < 15
        invariant
            k <= 15,
            votes@.len() == 15,
            count == votes_for(votes@, k as int),
            count <= k,
        decreases 15 - k,
    {
        if votes[k] {
            count = count + 1;
        }
        k = k + 1;
    }
    count
}

/// When one nomination alone has `v` votes, any two with `v` votes are the same.
proof fn lemma_single_nomination(his: Seq<(usize, usize, usize)>, v: nat, a: int, b: int)
    requires
        nominations_with(his, v) == 1,
        0 <= a < his.len(),
        0 <= b < his.len(),
        his[a].2 == v,
        his[b].2 == v,
    ensures
        a == b,
    decreases his.len(),
{
    let last = his.len() - 1;
    if a == last && b != last {
        lemma_nomination_counted(his.drop_last(), v, b);
    } else if b == last && a != last {
        lemma_nomination_counted(his.drop_last(), v, a);
    } else if a != last && b != last {
        assert(his.drop_last()[a] == his[a]);
        assert(his.drop_last()[b] == his[b]);
        if his.last().2 == v {
            lemma_nomination_counted(his.drop_last(), v, a);
        } else {
            lemma_single_nomination(his.drop_last(), v, a, b);
        }
    }
}

/// A nomination with `v` votes is counted among those with `v` votes.
proof fn lemma_nomination_counted(his: Seq<(usize, usize, usize)>, v: nat, a: int)
    requires
        0 <= a < his.len(),
        his[a].2 == v,
    ensures
        nominations_with(his, v) >= 1,
    decreases his.len(),
{
    if a < his.len() - 1 {
        assert(his.drop_last()[a] == his[a]);
        lemma_nomination_counted(his.drop_last(), v, a);
    }
}

/// Who is executed after the nominations `his`, when `thresh` votes are needed.
pub fn pick_execution(his: &Vec<(usize, usize, usize)>, thresh: usize) -> (r: Option<usize>)
    ensures
        r == execution_choice(his@, thresh as nat),
{
    if his.len() == 0 {
        return None;
    }
    let mut best: usize = 0;
    let mut k: usize = 1;
    proof {
        assert(his@.take(1).drop_last() =~= Seq::<(usize, usize, usize)>::empty());
        assert(his@.take(1).last() == his@[0]);
        assert(most_votes(his@.take(1).drop_last()) == 0);
    }
    while k < his.len()
        invariant
            1 <= k <= his@.len(),
            best < k,
            his@[best as int].2 == most_votes(his@.take(k as int)),
        decreases his@.len() - k,
    {
        proof {
            assert(his@.take(k + 1).drop_last() =~= his@.take(k as int));
        }
        if his[k].2 >= his[best].2 {
            best = k;
        }
        k = k + 1;
    }
    proof {
        assert(his@.take(k as int) =~= his@);
    }
    let votes = his[best].2;
    let mut count: usize = 0;
    let mut k: usize = 0;
    while k < his.len()
        invariant
            k <= his@.len(),
            count == nominations_with(his@.take(k as int), votes as nat),
            count <= k,
        decreases his@.len() - k,
    {
        proof {
            assert(his@.take(k + 1).drop_last() =~= his@.take(k as int));
        }
        if his[k].2 == votes {
            count = count + 1;
        }
        k = k + 1;
    }
    proof {
        assert(his@.take(k as int) =~= his@);
    }
    if votes >= thresh && count == 1 {
        proof {
            let c = choose|c: int| 0 <= c < his@.len() && his@[c].2 == most_votes(his@);
            lemma_single_nomination(his@, votes as nat, best as int, c);
        }
        Some(his[best].1)
    } else {
        None
    }
}

/// How many entries of `s` are true.
pub open spec fn trues(s: Seq<bool>) -> nat
    decreases s.len(),
{
    if s.len() == 0 {
        0
    } else {
        trues(s.drop_last()) + if s.last() {
            1nat
        } else {
            0nat
        }
    }
}

/// Turning an entry from false to true, with no entry turned back, raises the count of trues.
proof fn lemma_fewer_trues(a: Seq<bool>, b: Seq<bool>, f: int)
    requires
        a.len() == b.len(),
        forall|k: int| 0 <= k < a.len() && #[trigger] a[k] ==> b[k],
        0 <= f < a.len(),
        b[f],
        !a[f],
    ensures
        trues(a) < trues(b),
    decreases a.len(),
{
    lemma_no_more_trues(a.drop_last(), b.drop_last());
    if f < a.len() - 1 {
        assert(a.drop_last()[f] == a[f]);
        assert(b.drop_last()[f] == b[f]);
        assert forall|k: int| 0 <= k < a.drop_last().len() && #[trigger] a.drop_last()[k] implies b.drop_last()[k] by {
            assert(a.drop_last()[k] == a[k]);
        }
        lemma_fewer_trues(a.drop_last(), b.drop_last(), f);
    }
}

/// With no entry turned from false to true, the count of trues does not grow.
proof fn lemma_no_more_trues(a: Seq<bool>, b: Seq<bool>)
    requires
        a.len() == b.len(),
        forall|k: int| 0 <= k < a.len() && #[trigger] a[k] ==> b[k],
    ensures
        trues(a) <= trues(b),
    decreases a.len(),
{
    if a.len() > 0 {
        assert forall|k: int| 0 <= k < a.drop_last().len() && #[trigger] a.drop_last()[k] implies b.drop_last()[k] by {
            assert(a.drop_last()[k] == a[k]);
        }
        lemma_no_more_trues(a.drop_last(), b.drop_last());
    }
}

/// Whether some entry of `flags` is true.
fn any_set(flags: &[bool; 15]) -> (r: bool)
    ensures
        r == exists|k: int| 0 <= k < 15 && #[trigger] flags@[k],
{
    let mut k: usize = 0;
    while k < 15
        invariant
            k <= 15,
            flags@.len() == 15,
            forall|j: int| 0 <= j < k ==> !#[trigger] flags@[j],
        decreases 15 - k,
    {
        if flags[k] {
            return true;
        }
        k = k + 1;
    }
    false
}

/// Day entries added in two steps are day entries.
proof fn lemma_day_entries_chain(acts: Seq<Action>, acts1: Seq<Action>, acts2: Seq<Action>)
    requires
        acts.is_prefix_of(acts1),
        acts1.is_prefix_of(acts2),
        day_entries(acts, acts1),
        day_entries(acts1, acts2),
    ensures
        day_entries(acts, acts2),
{
    assert forall|k: int| acts.len() <= k < acts2.len() implies (#[trigger] acts2[k] is Slay || acts2[k] is Nomination || acts2[k] is Vote) by {
        if k < acts1.len() {
            assert(acts2[k] == acts1[k]);
        }
    }
}

/// Whether the player in seat `i` has nominated today.
fn has_nominated(his: &Vec<(usize, usize, usize)>, i: usize) -> (r: bool)
    ensures
        r == exists|k: int| 0 <= k < his@.len() && #[trigger] his@[k].0 == i,
{
    let mut k: usize = 0;
    while k < his.len()
        invariant
            k <= his@.len(),
            forall|j: int| 0 <= j < k ==> #[trigger] his@[j].0 != i,
        decreases his@.len() - k,
    {
        if his[k].0 == i {
            return true;
        }
        k = k + 1;
    }
    false
}

/// Whether seat `nom` has been nominated today.
fn was_nominated(his: &Vec<(usize, usize, usize)>, nom: usize) -> (r: bool)
    ensures
        r == exists|k: int| 0 <= k < his@.len() && #[trigger] his@[k].1 == nom,
{
    let mut k: usize = 0;
    while k < his.len()
        invariant
            k <= his@.len(),
            forall|j: int| 0 <= j < k ==> #[trigger] his@[j].1 != nom,
        decreases his@.len() - k,
    {
        if his[k].1 == nom {
            return true;
        }
        k = k + 1;
    }
    false
}

impl<IO: GrimIO> Grimoir<IO> {
    /// Daybreak: the day is announced, so is each death of the night, and the marks of
    /// yesterday's execution and of the night's deaths wear off.
    fn dawn(&mut self)
        ensures
            final(self).players() == table_at_dawn(old(self).players()),
            final(self).actions() == old(self).actions(),
            final(self).talk() == old(self).talk() + dawn_talk(old(self).players()),
            keeps(old(self).players(), old(self).actions(), final(self).players(), final(self).actions()),
    {
        self.tell_all(Info::Day);
        let n = self.seats();
        let mut i: usize = 0;
        while i < n
            invariant
                n == self.players@.len(),
                i <= n,
                self.players@ == old(self).players@,
                self.actions@ == old(self).actions@,
                self.talk() == old(self).talk() + told_all(n as int, Info::Day) + death_tells(old(self).players(), i as int),
            decreases n - i,
        {
            if self.seat_has(i, Note::DiedTonight) {
                self.tell_all(Info::Player(i));
            }
            proof {
                assert(self.talk() =~= old(self).talk() + told_all(n as int, Info::Day) + death_tells(old(self).players(), i + 1));
            }
            i = i + 1;
        }
        proof {
            assert(self.talk() =~= old(self).talk() + dawn_talk(old(self).players()));
        }
        let mut i: usize = 0;
        while i < n
            invariant
                n == self.players().len(),
                n == old(self).players().len(),
                i <= n,
                self.actions() == old(self).actions(),
                self.talk() == old(self).talk() + dawn_talk(old(self).players()),
                forall|k: int| 0 <= k < i ==> #[trigger] self.players()[k] == at_dawn(old(self).players()[k]),
                forall|k: int| i <= k < n ==> #[trigger] self.players()[k] == old(self).players()[k],
            decreases n - i,
        {
            self.drop_notes(i, Note::ExecToday, Note::DiedTonight);
            i = i + 1;
        }
        proof {
            assert(self.players() =~= table_at_dawn(old(self).players()));
            assert(old(self).actions() =~= self.actions().subrange(0, old(self).actions().len() as int));
        }
    }

    /// The demon has died: the sober scarlet woman becomes the imp, or the good team wins.
    fn demon_kill(&mut self) -> (r: Result<(), GameError>)
        ensures
            demon_dies(old(self).players(), old(self).actions(), final(self).players(), final(self).actions(), r),
            keeps(old(self).players(), old(self).actions(), final(self).players(), final(self).actions()),
            final(self).talk() == old(self).talk() + demon_death_talk(old(self).players()),
    {
        proof {
            assert(old(self).actions() =~= self.actions().subrange(0, old(self).actions().len() as int));
        }
        if self.demon_lives() {
            return Err(GameError::DemonAlive);
        }
        match self.get_role(RoleId::ScarletWoman) {
            Some(scarlet) => {
                if !self.seat_has(scarlet, Note::Poisoned) {
                    self.recast(scarlet, Role::Imp);
                    self.tell(scarlet, Info::Role(RoleId::Imp));
                    return Ok(());
                }
            },
            None => {},
        }
        let never = self.win(true);
        proof {
            use_type_invariant(&never);
        }
        Ok(())
    }

    /// Whether a demon lives.
    fn demon_lives(&self) -> (r: bool)
        ensures
            r == any_admits(self.players(), Pick::LivingDemon),
    {
        let mut i: usize = 0;
        while i < self.players.len()
            invariant
                i <= self.players@.len(),
                forall|k: int| 0 <= k < i ==> !#[trigger] Pick::LivingDemon.admits(k, self.players()[k]),
            decreases self.players@.len() - i,
        {
            proof {
                assert(self.players()[i as int] == self.players@[i as int]@);
            }
            if self.players[i].role.id().is_demon() && self.players[i].alive {
                assert(Pick::LivingDemon.admits(i as int, self.players()[i as int]));
                return true;
            }
            i = i + 1;
        }
        false
    }

    /// Executes seat `player`.
    fn execute(&mut self, player: PlayerId) -> (r: Result<(), GameError>)
        ensures
            executed(old(self).players(), old(self).actions(), player, final(self).players(), final(self).actions(), r),
            keeps(old(self).players(), old(self).actions(), final(self).players(), final(self).actions()),
            final(self).talk() == old(self).talk() + execution_talk(old(self).players(), player),
    {
        proof {
            assert(old(self).actions() =~= self.actions().subrange(0, old(self).actions().len() as int));
        }
        self.tell_all(Info::Player(player));
        if player >= self.seats() {
            return Err(GameError::NoSuchPlayer(player));
        }
        self.kill(player);
        if let Some(mayor) = self.get_role(RoleId::Mayor) {
            self.mark(mayor, Note::ExecToday);
        }
        if let Some(undertaker) = self.get_role(RoleId::Undertaker) {
            let role = Some(self.seat_id(player));
            self.recast(undertaker, Role::Undertaker { last_exec: role });
        }
        if let Some(drunk) = self.get_role(RoleId::Drunk) {
            if let Role::Drunk { role: RoleId::Undertaker } = self.seat_role(drunk) {
                self.mark(drunk, Note::ExecToday);
            }
        }
        proof {
            assert(self.players() == after_execution(old(self).players(), player as int));
        }
        if self.seat_id(player).is_demon() {
            return self.demon_kill();
        }
        Ok(())
    }

    /// The players talk: each player with something to say may tell one player something,
    /// and the player told may then answer, until no one has anything more to say. Talk also
    /// ends once `u64::MAX` messages have passed, which no table reaches.
    fn chat(&mut self) -> (r: Result<(), GameError>)
        ensures
            final(self).players@ == old(self).players@,
            final(self).actions@ == old(self).actions@,
            old(self).talk().is_prefix_of(final(self).talk()),
            talk_blocks(final(self).talk().skip(old(self).talk().len() as int)),
            r is Ok ==> chat_ok(final(self).talk().skip(old(self).talk().len() as int)),
            r is Err ==> talk_fails(final(self).talk().skip(old(self).talk().len() as int), r),
    {
        let mut needs_update: [bool; 15] = [true, true, true, true, true, true, true, true, true, true, true, true, true, true, true];
        let mut told: u64 = 0;
        while any_set(&needs_update)
            invariant
                needs_update@.len() == 15,
                self.players@ == old(self).players@,
                self.actions@ == old(self).actions@,
                old(self).talk().is_prefix_of(self.talk()),
                talk_blocks(self.talk().skip(old(self).talk().len() as int)),
                self.talk().len() - old(self).talk().len() >= 3 * told,
                forall|k: int| 0 <= k < 15 && !#[trigger] needs_update@[k] ==> settled(self.talk().skip(old(self).talk().len() as int), k as PlayerId),
            decreases u64::MAX - told, trues(needs_update@),
        {
            let ghost told0 = told;
            let ghost needs0 = needs_update@;
            let ghost first = choose|k: int| 0 <= k < 15 && #[trigger] needs0[k];
            let mut i: usize = 0;
            while i < 15
                invariant
                    i <= 15,
                    needs_update@.len() == 15,
                    needs0.len() == 15,
                    0 <= first < 15,
                    needs0[first],
                    self.players@ == old(self).players@,
                    self.actions@ == old(self).actions@,
                    old(self).talk().is_prefix_of(self.talk()),
                    talk_blocks(self.talk().skip(old(self).talk().len() as int)),
                    self.talk().len() - old(self).talk().len() >= 3 * told,
                    forall|k: int| 0 <= k < 15 && !#[trigger] needs_update@[k] ==> settled(self.talk().skip(old(self).talk().len() as int), k as PlayerId),
                    told >= told0,
                    told == told0 ==> forall|k: int| 0 <= k < 15 && #[trigger] needs_update@[k] ==> needs0[k],
                    told == told0 && i <= first ==> needs_update@[first],
                    told == told0 && i > first ==> !needs_update@[first],
                decreases 15 - i,
            {
                if needs_update[i] {
                    let ghost before = self.talk();
                    let answer = self.prompt_tell(i);
                    let ghost said = answer;
                    match answer {
                        Some((player, info)) => {
                            let ghost told_info = info;
                            self.tell(player, Info::Player(i));
                            self.tell(player, info);
                            proof {
                                let l = old(self).talk().len() as int;
                                lemma_talk_block(before.skip(l), i, player, told_info);
                                assert(self.talk().skip(l) =~= before.skip(l) + seq![
                                    Exchange::Talked(i, Some((player, told_info))),
                                    Exchange::Told(player, Info::Player(i)),
                                    Exchange::Told(player, told_info),
                                ]);
                            }
                            if player >= 15 {
                                return Err(GameError::NoSuchPlayer(player));
                            }
                            needs_update[player] = true;
                            proof {
                                let l = old(self).talk().len() as int;
                                let t = seq![
                                    Exchange::Talked(i, Some((player, told_info))),
                                    Exchange::Told(player, Info::Player(i)),
                                    Exchange::Told(player, told_info),
                                ];
                                assert(self.talk().skip(l) =~= before.skip(l) + t);
                                assert forall|k: int| 0 <= k < 15 && !#[trigger] needs_update@[k] implies settled(self.talk().skip(l), k as PlayerId) by {
                                    assert(k != player);
                                    assert(!told_to(t[0], k as PlayerId));
                                    assert(!told_to(t[1], k as PlayerId));
                                    assert(!told_to(t[2], k as PlayerId));
                                    lemma_settled_extend(before.skip(l), t, k as PlayerId);
                                }
                            }
                            if told == u64::MAX {
                                return Ok(());
                            }
                            told = told + 1;
                        },
                        None => {
                            proof {
                                let l = old(self).talk().len() as int;
                                assert(self.talk().skip(l) =~= before.skip(l).push(Exchange::Talked(i, None)));
                                assert(self.talk().skip(l).drop_last() =~= before.skip(l));
                            }
                            needs_update[i] = false;
                            proof {
                                let l = old(self).talk().len() as int;
                                let s1 = self.talk().skip(l);
                                let t = seq![Exchange::Talked(i, None)];
                                assert(s1 =~= before.skip(l) + t);
                                assert forall|k: int| 0 <= k < 15 && !#[trigger] needs_update@[k] implies settled(s1, k as PlayerId) by {
                                    if k == i {
                                        assert(s1[s1.len() - 1] == Exchange::Talked(i, None));
                                    } else {
                                        assert(!told_to(t[0], k as PlayerId));
                                        lemma_settled_extend(before.skip(l), t, k as PlayerId);
                                    }
                                }
                            }
                        },
                    }
                }
                i = i + 1;
            }
            proof {
                if told == told0 {
                    lemma_fewer_trues(needs_update@, needs0, first);
                }
            }
        }
        proof {
            let l = old(self).talk().len() as int;
            assert forall|i: PlayerId| i < 15 implies settled(self.talk().skip(l), i) by {
                assert(!needs_update@[i as int]);
            }
        }
        Ok(())
    }


    /// How many seats hold a living player.
    fn living_count(&self) -> (r: usize)
        ensures
            r == living(self.players()),
            r <= self.players().len(),
    {
        let ghost ps = self.players();
        let mut count: usize = 0;
        let mut i: usize = 0;
        while i < self.players.len()
            invariant
                i <= self.players@.len(),
                ps == self.players(),
                count == living(ps.take(i as int)),
                count <= i,
            decreases self.players@.len() - i,
        {
            proof {
                assert(ps.take(i + 1).drop_last() =~= ps.take(i as int));
                assert(ps[i as int] == self.players@[i as int]@);
            }
            if self.players[i].alive {
                count = count + 1;
            }
            i = i + 1;
        }
        proof {
            assert(ps.take(i as int) =~= ps);
        }
        count
    }

    /// A day: daybreak, talk, claims to slay, then nominations and votes around the table,
    /// starting from the first seat and ending when the turn comes back to the last nominator
    /// (or to the first seat, when no one nominates), and the execution of the nominee with the
    /// most votes when they reach half the living players and no other nominee has as many.
    /// The day ends the game when two players live, or three with a mayor not executed today.
    pub fn day(&mut self) -> (r: Result<(), GameError>)
        requires
            old(self).seats_fit(),
        ensures
            keeps(old(self).players(), old(self).actions(), final(self).players(), final(self).actions()),
            day_entries(old(self).actions(), final(self).actions()),
            day_outcome(old(self).players(), old(self).actions(), old(self).talk(), final(self).players(), final(self).actions(), final(self).talk(), r),
            r is Ok ==> !day_ends_game(final(self).players()),
            old(self).players().len() == 0 ==> r is Err,
            r == Err::<(), GameError>(GameError::NoPlayers) ==> old(self).players().len() == 0,
            r == Err::<(), GameError>(GameError::TooManyPlayers) ==> old(self).players().len() > 15,
    {
        self.dawn();
        let ghost ps0 = self.players();
        let ghost tk_dawn = self.talk();
        let r1 = self.chat();
        let ghost c1 = self.talk().skip(tk_dawn.len() as int);
        let ghost tkd = self.talk();
        proof {
            assert(tkd =~= tk_dawn + c1);
            assert(talk_blocks(c1));
            if r1 is Ok {
                assert(chat_ok(c1));
            }
        }
        match r1 {
            Err(e) => return Err(e),
            Ok(()) => {},
        }
        let n = self.seats();
        proof {
            assert(old(self).actions() =~= self.actions().subrange(0, old(self).actions().len() as int));
        }
        let mut claimed = false;
        let mut id: usize = 0;
        while id < n
            invariant
                n == self.players().len(),
                n == old(self).players().len(),
                ps0 == table_at_dawn(old(self).players()),
                tkd == old(self).talk() + dawn_talk(old(self).players()) + c1,
                talk_blocks(c1),
                chat_ok(c1),
                claimed == (self.actions().len() > old(self).actions().len()),
                keeps(old(self).players(), old(self).actions(), self.players(), self.actions()),
                day_entries(old(self).actions(), self.actions()),
                id <= n,
                slays_upto(ps0, old(self).actions(), tkd, id as int, self.players(), self.actions(), self.talk(), Ok::<(), GameError>(())),
            decreases n - id,
        {
            let ghost tkm = self.talk();
            let res = self.prompt_player_optional(id);
            if let Some(target) = res {
                claimed = true;
                let ghost ps1 = self.players();
                let ghost acts1 = self.actions();
                let r = self.slay(id, target);
                proof {
                    lemma_keeps_chain(old(self).players(), old(self).actions(), ps1, acts1, self.players(), self.actions());
                    lemma_day_entries_chain(old(self).actions(), acts1, self.actions());
                    assert(slays(ps1, acts1, id as int, target, self.players(), self.actions(), r));
                    let tail = seq![Exchange::MayName(id, Some(target))] + slay_talk(ps1, id as int, target);
                    assert(self.talk() =~= tkm + tail);
                    assert(self.talk().skip(self.talk().len() - tail.len()) =~= tail);
                    assert(self.talk().take(self.talk().len() - tail.len()) =~= tkm);
                    assert(slays_upto(ps0, old(self).actions(), tkd, id + 1, self.players(), self.actions(), self.talk(), r));
                }
                match r {
                    Err(e) => {
                        proof {
                            lemma_slays_upto_extend(ps0, old(self).actions(), tkd, id + 1, n as int, self.players(), self.actions(), self.talk(), r);
                            assert(day_outcome(old(self).players(), old(self).actions(), old(self).talk(), self.players(), self.actions(), self.talk(), r));
                        }
                        return Err(e);
                    },
                    Ok(()) => {},
                }
            } else {
                proof {
                    assert(self.talk().drop_last() =~= tkm);
                    assert(slays_upto(ps0, old(self).actions(), tkd, id + 1, self.players(), self.actions(), self.talk(), Ok::<(), GameError>(())));
                }
            }
            id = id + 1;
        }
        let ghost ps1 = self.players();
        let ghost acts1 = self.actions();
        let ghost tk1 = self.talk();
        let mut r2: Result<(), GameError> = Ok(());
        if claimed {
            r2 = self.chat();
        }
        let ghost c2 = self.talk().skip(tk1.len() as int);
        let ghost tkc = self.talk();
        proof {
            assert(slays_upto(table_at_dawn(old(self).players()), old(self).actions(), tkd, n as int, ps1, acts1, tk1, Ok::<(), GameError>(())));
            assert(tkc =~= tk1 + c2);
            if !claimed {
                assert(c2 =~= Seq::<Exchange>::empty());
            }
            assert(talk_blocks(c2));
            assert(claimed == (acts1.len() > old(self).actions().len()));
        }
        match r2 {
            Err(e) => {
                proof {
                    assert(after_claims(old(self).players(), old(self).actions(), ps1, acts1, tk1, self.players(), self.actions(), self.talk(), Err::<(), GameError>(e)));
                    assert(day_outcome(old(self).players(), old(self).actions(), old(self).talk(), self.players(), self.actions(), self.talk(), Err::<(), GameError>(e)));
                }
                return Err(e);
            },
            Ok(()) => {},
        }
        if n == 0 {
            proof {
                assert(after_claims(old(self).players(), old(self).actions(), ps1, acts1, tk1, self.players(), self.actions(), self.talk(), Err::<(), GameError>(GameError::NoPlayers)));
                assert(day_outcome(old(self).players(), old(self).actions(), old(self).talk(), self.players(), self.actions(), self.talk(), Err::<(), GameError>(GameError::NoPlayers)));
            }
            return Err(GameError::NoPlayers);
        }
        let mut last_nom: Option<usize> = None;
        let mut i: usize = 0;
        let mut voting_his: Vec<(usize, PlayerId, usize)> = Vec::new();
        let ghost mut nominators: Set<int> = Set::empty();
        let ghost mut scanned: int = 0;
        let ghost mut tk_r: Seq<Exchange> = tkc;
        let mut ended_early = false;
        proof {
            lemma_int_range(0, n as int);
            assert(self.talk().skip(tk_r.len() as int) =~= Seq::<Exchange>::empty());
        }
        loop
            invariant_except_break
                scanned < call_length(n as int, voting_his@),
                i == turn(n as int, call_start(n as int, voting_his@), scanned),
                !ended_early,
                rounds(ps1, acts1, tkc, voting_his@, self.players(), self.actions(), tk_r),
                tk_r.is_prefix_of(self.talk()),
                called(self.players(), voting_his@, call_start(n as int, voting_his@), scanned, self.talk().skip(tk_r.len() as int)),
            invariant
                0 <= scanned,
                match last_nom { Some(x) => x < n && voting_his@.len() > 0 && x == voting_his@.last().0, None => voting_his@.len() == 0 },
                0 <= call_start(n as int, voting_his@) < n,
                n == self.players().len(),
                n == old(self).players().len(),
                0 < n <= u32::MAX,
                i < n,
                ps1.len() == n,
                keeps(old(self).players(), old(self).actions(), self.players(), self.actions()),
                day_entries(old(self).actions(), self.actions()),
                nominators.finite(),
                nominators.subset_of(set_int_range(0, n as int)),
                set_int_range(0, n as int).finite(),
                set_int_range(0, n as int).len() == n,
                nominators.len() == voting_his@.len(),
                forall|x: int| nominators.contains(x) <==> exists|k: int| 0 <= k < voting_his@.len() && #[trigger] voting_his@[k].0 == x,
                nominations_distinct(voting_his@),
                slays_upto(table_at_dawn(old(self).players()), old(self).actions(), tkd, n as int, ps1, acts1, tk1, Ok::<(), GameError>(())),
                tkd == old(self).talk() + dawn_talk(old(self).players()) + c1,
                talk_blocks(c1),
                chat_ok(c1),
                talk_blocks(c2),
                if acts1.len() > old(self).actions().len() { chat_ok(c2) } else { c2.len() == 0 },
                tkc == tk1 + c2,
            ensures
                n == self.players().len(),
                keeps(old(self).players(), old(self).actions(), self.players(), self.actions()),
                day_entries(old(self).actions(), self.actions()),
                ended_early ==> nominations_end(ps1, acts1, tkc, self.players(), self.actions(), self.talk(), Ok::<(), GameError>(())),
                !ended_early ==> rounds(ps1, acts1, tkc, voting_his@, self.players(), self.actions(), tk_r)
                    && tk_r.is_prefix_of(self.talk()) && called_through(self.players(), voting_his@, self.talk().skip(tk_r.len() as int)),
                nominations_distinct(voting_his@),
            decreases n - nominators.len(), call_length(n as int, voting_his@) - scanned,
        {
            proof {
                lemma_len_subset(nominators, set_int_range(0, n as int));
            }
            let mut nominated = false;
            if self.seat_alive(i) && !has_nominated(&voting_his, i) {
                let ghost tk_p = self.talk();
                let ghost d = tk_p.skip(tk_r.len() as int);
                let answer = self.prompt_player_optional(i);
                let mut declined = true;
                if let Some(nom) = answer {
                    if !was_nominated(&voting_his, nom) {
                        declined = false;
                        let ghost psm = self.players();
                        let ghost actsm = self.actions();
                        let ghost his0 = voting_his@;
                        let ghost tk_n = self.talk();
                        proof {
                            assert(rounds(ps1, acts1, tkc, his0, psm, actsm, tk_r));
                            assert(psm[i as int].alive);
                            assert(fresh_nomination(his0, i as int, nom));
                            assert(tk_p =~= tk_r + d);
                            assert(tk_n == tk_r + d + seq![Exchange::MayName(i, Some(nom))]);
                        }
                        let early = self.nominate(i, nom);
                        proof {
                            lemma_keeps_chain(old(self).players(), old(self).actions(), psm, actsm, self.players(), self.actions());
                            lemma_day_entries_chain(old(self).actions(), actsm, self.actions());
                            assert(nominates(psm, actsm, i as int, nom, self.players(), self.actions(), early));
                            assert(called_until(psm, his0, i as int, d));
                        }
                        match early {
                            Err(e) => {
                                proof {
                                    assert(nominations_close(his0, psm, actsm, tk_r, self.players(), self.actions(), self.talk(), Err::<(), GameError>(e)));
                                    assert(nominations_end(ps1, acts1, tkc, self.players(), self.actions(), self.talk(), Err::<(), GameError>(e)));
                                    assert(after_claims(old(self).players(), old(self).actions(), ps1, acts1, tk1, self.players(), self.actions(), self.talk(), Err::<(), GameError>(e)));
                                    assert(day_outcome(old(self).players(), old(self).actions(), old(self).talk(), self.players(), self.actions(), self.talk(), Err::<(), GameError>(e)));
                                }
                                return Err(e);
                            },
                            Ok(true) => {
                                proof {
                                    assert(nominations_close(his0, psm, actsm, tk_r, self.players(), self.actions(), self.talk(), Ok::<(), GameError>(())));
                                    assert(nominations_end(ps1, acts1, tkc, self.players(), self.actions(), self.talk(), Ok::<(), GameError>(())));
                                }
                                ended_early = true;
                                break;
                            },
                            Ok(false) => {},
                        }
                        let ghost psn = self.players();
                        let ghost actsn = self.actions();
                        let ghost tk_c = self.talk();
                        proof {
                            assert(tk_c == tk_n);
                        }
                        let rc = self.chat();
                        let ghost c = self.talk().skip(tk_c.len() as int);
                        proof {
                            assert(self.talk() =~= tk_n + c);
                        }
                        match rc {
                            Err(e) => {
                                proof {
                                    assert(round_fails(his0, psm, actsm, tk_r, i as int, nom, self.players(), self.actions(), self.talk(), Err::<(), GameError>(e)));
                                    assert(nominations_close(his0, psm, actsm, tk_r, self.players(), self.actions(), self.talk(), Err::<(), GameError>(e)));
                                    assert(nominations_end(ps1, acts1, tkc, self.players(), self.actions(), self.talk(), Err::<(), GameError>(e)));
                                    assert(after_claims(old(self).players(), old(self).actions(), ps1, acts1, tk1, self.players(), self.actions(), self.talk(), Err::<(), GameError>(e)));
                                    assert(day_outcome(old(self).players(), old(self).actions(), old(self).talk(), self.players(), self.actions(), self.talk(), Err::<(), GameError>(e)));
                                }
                                return Err(e);
                            },
                            Ok(()) => {},
                        }
                        let ghost ps2 = self.players();
                        let ghost acts2 = self.actions();
                        let ghost tk_v = self.talk();
                        let votes = match self.take_votes() {
                            Err(e) => {
                                proof {
                                    lemma_keeps_chain(old(self).players(), old(self).actions(), ps2, acts2, self.players(), self.actions());
                                    assert(round_fails(his0, psm, actsm, tk_r, i as int, nom, self.players(), self.actions(), self.talk(), Err::<(), GameError>(e)));
                                    assert(nominations_close(his0, psm, actsm, tk_r, self.players(), self.actions(), self.talk(), Err::<(), GameError>(e)));
                                    assert(nominations_end(ps1, acts1, tkc, self.players(), self.actions(), self.talk(), Err::<(), GameError>(e)));
                                    assert(after_claims(old(self).players(), old(self).actions(), ps1, acts1, tk1, self.players(), self.actions(), self.talk(), Err::<(), GameError>(e)));
                                    assert(day_outcome(old(self).players(), old(self).actions(), old(self).talk(), self.players(), self.actions(), self.talk(), Err::<(), GameError>(e)));
                                }
                                return Err(e);
                            },
                            Ok(v) => v,
                        };
                        let ghost b = self.talk().skip(tk_v.len() as int);
                        proof {
                            lemma_keeps_chain(old(self).players(), old(self).actions(), ps2, acts2, self.players(), self.actions());
                            assert(self.talk() =~= tk_v + b);
                        }
                        last_nom = Some(i);
                        let count = tally(&votes);
                        let ghost noms0 = nominators;
                        proof {
                            assert(!nominators.contains(i as int));
                            nominators = nominators.insert(i as int);
                            assert(nominators.len() == noms0.len() + 1);
                            lemma_len_subset(nominators, set_int_range(0, n as int));
                        }
                        voting_his.push((i, nom, count));
                        let ghost ps3 = self.players();
                        let ghost acts3 = self.actions();
                        self.log(Action::Vote(votes));
                        proof {
                            assert(acts3 =~= self.actions().subrange(0, acts3.len() as int));
                            lemma_keeps_chain(old(self).players(), old(self).actions(), ps3, acts3, self.players(), self.actions());
                            lemma_day_entries_chain(old(self).actions(), acts3, self.actions());
                            assert forall|x: int| nominators.contains(x) <==> exists|k: int| 0 <= k < voting_his@.len() && #[trigger] voting_his@[k].0 == x by {
                                if nominators.contains(x) && x != i {
                                    assert(noms0.contains(x));
                                    let k = choose|k: int| 0 <= k < his0.len() && #[trigger] his0[k].0 == x;
                                    assert(voting_his@[k] == his0[k]);
                                }
                                if x == i {
                                    assert(voting_his@[voting_his@.len() - 1].0 == x);
                                }
                                if exists|k: int| 0 <= k < voting_his@.len() && #[trigger] voting_his@[k].0 == x {
                                    let k = choose|k: int| 0 <= k < voting_his@.len() && #[trigger] voting_his@[k].0 == x;
                                    if k < voting_his@.len() - 1 {
                                        assert(his0[k] == voting_his@[k]);
                                        assert(noms0.contains(x));
                                    }
                                }
                            }
                            assert(nominates(psm, actsm, i as int, nom, psn, actsn, Ok::<bool, GameError>(false)));
                            assert(votes_cast(psn, votes@, self.players()));
                            assert(psn == ps2);
                            assert(round_talk(his0, psm, tk_r, i as int, nom, psn, votes@, self.talk()));
                            assert(vote_round(his0, psm, actsm, tk_r, i as int, nom, count as int, self.players(), self.actions(), self.talk()));
                            assert(voting_his@ =~= his0.push((i, nom, count)));
                            lemma_rounds_step(ps1, acts1, tkc, his0, psm, actsm, tk_r, (i, nom, count), self.players(), self.actions(), self.talk());
                            assert forall|a: int, b: int| 0 <= a < b < voting_his@.len() implies #[trigger] voting_his@[a].0 != #[trigger] voting_his@[b].0 && voting_his@[a].1 != voting_his@[b].1 by {
                                assert(voting_his@[a] == his0[a]);
                                if b < his0.len() {
                                    assert(voting_his@[b] == his0[b]);
                                }
                            }
                            tk_r = self.talk();
                            assert(self.talk().skip(tk_r.len() as int) =~= Seq::<Exchange>::empty());
                        }
                        nominated = true;
                    }
                }
                if declined {
                    proof {
                        let d2 = self.talk().skip(tk_r.len() as int);
                        assert(self.talk() == tk_p.push(Exchange::MayName(i, answer)));
                        assert(d2 =~= d.push(Exchange::MayName(i, answer)));
                        assert(d2.drop_last() =~= d);
                        assert(declining(voting_his@, answer));
                        assert(turn(n as int, call_start(n as int, voting_his@), scanned + 1 - 1) == i);
                        assert(called(self.players(), voting_his@, call_start(n as int, voting_his@), scanned + 1, d2));
                    }
                }
            } else {
                proof {
                    assert(turn(n as int, call_start(n as int, voting_his@), scanned + 1 - 1) == i);
                    assert(called(self.players(), voting_his@, call_start(n as int, voting_his@), scanned + 1, self.talk().skip(tk_r.len() as int)));
                }
            }
            let ghost i_prev = i;
            i = if i + 1 < n {
                i + 1
            } else {
                0
            };
            proof {
                if nominated {
                    scanned = 0;
                    assert(call_start(n as int, voting_his@) == turn(n as int, i_prev as int, 1));
                    assert(self.talk().skip(tk_r.len() as int) =~= Seq::<Exchange>::empty());
                } else {
                    scanned = scanned + 1;
                }
                let a = call_start(n as int, voting_his@);
                let stop: int = match last_nom { Some(x) => x as int, None => 0 };
                assert(i == turn(n as int, a, scanned));
                assert(i == stop ==> scanned == call_length(n as int, voting_his@));
                assert(i != stop ==> scanned < call_length(n as int, voting_his@));
            }
            if i == match last_nom {
                Some(x) => x,
                None => 0,
            } {
                break;
            }
        }
        if !ended_early {
            let ghost ps2 = self.players();
            let ghost acts2 = self.actions();
            let ghost tk2 = self.talk();
            let ghost d = tk2.skip(tk_r.len() as int);
            proof {
                assert(tk2 =~= tk_r + d);
            }
            let alive = self.living_count();
            let thresh = alive / 2 + alive % 2;
            proof {
                assert(thresh == (living(ps2) + 1) / 2);
            }
            let mut r: Result<(), GameError> = Ok(());
            if let Some(nomed) = pick_execution(&voting_his, thresh) {
                r = self.execute(nomed);
                proof {
                    lemma_keeps_chain(old(self).players(), old(self).actions(), ps2, acts2, self.players(), self.actions());
                }
            }
            proof {
                assert(vote_decides(ps2, acts2, voting_his@, self.players(), self.actions(), r));
                assert(self.talk() == tk2 + decision_talk(ps2, voting_his@));
                assert(nominations_close(voting_his@, ps2, acts2, tk_r, self.players(), self.actions(), self.talk(), r));
                assert(nominations_end(ps1, acts1, tkc, self.players(), self.actions(), self.talk(), r));
                assert(after_claims(old(self).players(), old(self).actions(), ps1, acts1, tk1, self.players(), self.actions(), self.talk(), r));
                assert(day_outcome(old(self).players(), old(self).actions(), old(self).talk(), self.players(), self.actions(), self.talk(), r));
            }
            match r {
                Err(e) => return Err(e),
                Ok(()) => {},
            }
        } else {
            proof {
                assert(after_claims(old(self).players(), old(self).actions(), ps1, acts1, tk1, self.players(), self.actions(), self.talk(), Ok::<(), GameError>(())));
                assert(day_outcome(old(self).players(), old(self).actions(), old(self).talk(), self.players(), self.actions(), self.talk(), Ok::<(), GameError>(())));
            }
        }
        let count = self.living_count();
        if count == 3 {
            if let Some(mayor) = self.get_role(RoleId::Mayor) {
                if !self.seat_has(mayor, Note::ExecToday) {
                    let never = self.win(true);
                    proof {
                        use_type_invariant(&never);
                    }
                }
            }
        } else if count == 2 {
            let never = self.win(false);
            proof {
                use_type_invariant(&never);
            }
        }
        Ok(())
    }

    /// The player in seat `id` claims to slay seat `target`.
    fn slay(&mut self, id: PlayerId, target: PlayerId) -> (r: Result<(), GameError>)
        requires
            id < old(self).players@.len(),
        ensures
            slays(old(self).players(), old(self).actions(), id as int, target, final(self).players(), final(self).actions(), r),
            keeps(old(self).players(), old(self).actions(), final(self).players(), final(self).actions()),
            day_entries(old(self).actions(), final(self).actions()),
            final(self).talk() == old(self).talk() + slay_talk(old(self).players(), id as int, target),
    {
        self.log(Action::Slay(id, target));
        proof {
            assert(old(self).actions() =~= self.actions().subrange(0, old(self).actions().len() as int));
        }
        self.tell_all(Info::Slays(id, target));
        if let Role::Slayer { ability_used: false } = self.seat_role(id) {
            if target >= self.seats() {
                return Err(GameError::NoSuchPlayer(target));
            }
            if self.seat_id(target).is_demon() && !self.seat_has(id, Note::Poisoned) {
                self.kill(target);
                self.tell_all(Info::Player(target));
                match self.demon_kill() {
                    Err(e) => return Err(e),
                    Ok(()) => {},
                }
            }
        }
        if let Role::Slayer { .. } = self.seat_role(id) {
            self.recast(id, Role::Slayer { ability_used: true });
        }
        Ok(())
    }

    /// The player in seat `i` nominates seat `nom`; `Ok(true)` when the nominator is executed
    /// by the virgin's ability.
    fn nominate(&mut self, i: PlayerId, nom: PlayerId) -> (r: Result<bool, GameError>)
        requires
            i < old(self).players@.len(),
        ensures
            nominates(old(self).players(), old(self).actions(), i as int, nom, final(self).players(), final(self).actions(), r),
            keeps(old(self).players(), old(self).actions(), final(self).players(), final(self).actions()),
            day_entries(old(self).actions(), final(self).actions()),
            final(self).talk() == old(self).talk() + nomination_talk(old(self).players(), i as int, nom),
    {
        self.log(Action::Nomination(i, nom));
        proof {
            assert(old(self).actions() =~= self.actions().subrange(0, old(self).actions().len() as int));
        }
        if nom >= self.seats() {
            return Err(GameError::NoSuchPlayer(nom));
        }
        if let Role::Virgin { ability_used: false } = self.seat_role(nom) {
            if self.seat_id(i).is_townsfolk() && !self.seat_has(nom, Note::Poisoned) {
                let ghost ps1 = self.players();
                let ghost acts1 = self.actions();
                let r3 = self.execute(i);
                proof {
                    assert(executed(old(self).players(), acts1, i, self.players(), self.actions(), r3));
                    lemma_keeps_chain(old(self).players(), old(self).actions(), ps1, acts1, self.players(), self.actions());
                }
                match r3 {
                    Err(e) => return Err(e),
                    Ok(()) => {},
                }
                self.recast(nom, Role::Virgin { ability_used: true });
                return Ok(true);
            }
            self.recast(nom, Role::Virgin { ability_used: true });
        }
        Ok(false)
    }

    /// Every player who may vote is asked whether they vote for the nomination.
    fn take_votes(&mut self) -> (r: Result<[bool; 15], GameError>)
        ensures
            final(self).actions() == old(self).actions(),
            keeps(old(self).players(), old(self).actions(), final(self).players(), final(self).actions()),
            r matches Ok(votes) ==> votes_cast(old(self).players(), votes@, final(self).players()),
            r is Err ==> r == Err::<[bool; 15], GameError>(GameError::TooManyPlayers) && old(self).players().len() > 15,
            r is Err ==> ghost_votes_spent(old(self).players(), final(self).players()),
            old(self).talk().is_prefix_of(final(self).talk()),
            r matches Ok(votes) ==> ballots(old(self).players(), votes@, old(self).players().len() as int, final(self).talk().skip(old(self).talk().len() as int)),
    {
        let mut votes: [bool; 15] = [false, false, false, false, false, false, false, false, false, false, false, false, false, false, false];
        let n = self.seats();
        let mut j: usize = 0;
        while j < n
            invariant
                n == self.players().len(),
                n == old(self).players().len(),
                j <= n,
                votes@.len() == 15,
                self.actions() == old(self).actions(),
                forall|k: int| 0 <= k < 15 && #[trigger] votes@[k] ==> k < j && (old(self).players()[k].alive || old(self).players()[k].ghost_vote),
                forall|k: int| 0 <= k < j ==> #[trigger] self.players()[k] == if k < 15 && votes@[k] && !old(self).players()[k].alive {
                    PlayerState { ghost_vote: false, ..old(self).players()[k] }
                } else {
                    old(self).players()[k]
                },
                forall|k: int| j <= k < n ==> #[trigger] self.players()[k] == old(self).players()[k],
                old(self).talk().is_prefix_of(self.talk()),
                ballots(old(self).players(), votes@, j as int, self.talk().skip(old(self).talk().len() as int)),
            decreases n - j,
        {
            let ghost votes0 = votes@;
            let ghost ps0 = self.players();
            let ghost tk0 = self.talk();
            let ghost base = old(self).talk().len() as int;
            if self.seat_alive(j) {
                let answer = self.prompt_player_optional(j);
                proof {
                    assert(self.talk().skip(base) =~= tk0.skip(base).push(Exchange::MayName(j, answer)));
                }
                if answer.is_some() {
                    if j >= 15 {
                        proof {
                            assert(old(self).actions() =~= self.actions().subrange(0, old(self).actions().len() as int));
                            assert(keeps(old(self).players(), old(self).actions(), self.players(), self.actions()));
                            assert(ghost_votes_spent(old(self).players(), self.players()));
                        }
                        return Err(GameError::TooManyPlayers);
                    }
                    votes[j] = true;
                    assert(votes@ == votes0.update(j as int, true));
                }
                proof {
                    lemma_ballots_frame(old(self).players(), votes0, votes@, j as int, tk0.skip(base));
                    let s1 = self.talk().skip(base);
                    assert(s1.drop_last() =~= tk0.skip(base));
                    assert(s1.last() == Exchange::MayName(j, answer));
                    assert(ps0[j as int] == old(self).players()[j as int]);
                    assert(ballots(old(self).players(), votes@, j as int + 1, s1));
                }
            } else if self.seat_ghost_vote(j) {
                let answer = self.prompt_player_optional(j);
                proof {
                    assert(self.talk().skip(base) =~= tk0.skip(base).push(Exchange::MayName(j, answer)));
                }
                if answer.is_some() {
                    if j >= 15 {
                        proof {
                            assert(old(self).actions() =~= self.actions().subrange(0, old(self).actions().len() as int));
                            assert(keeps(old(self).players(), old(self).actions(), self.players(), self.actions()));
                            assert(ghost_votes_spent(old(self).players(), self.players()));
                        }
                        return Err(GameError::TooManyPlayers);
                    }
                    votes[j] = true;
                    assert(votes@ == votes0.update(j as int, true));
                    let ghost before = self.players();
                    self.spend_ghost_vote(j);
                    assert(before == ps0);
                    assert(self.players()[j as int] == PlayerState { ghost_vote: false, ..ps0[j as int] });
                }
                proof {
                    lemma_ballots_frame(old(self).players(), votes0, votes@, j as int, tk0.skip(base));
                    let s1 = self.talk().skip(base);
                    assert(s1.drop_last() =~= tk0.skip(base));
                    assert(s1.last() == Exchange::MayName(j, answer));
                    assert(ps0[j as int] == old(self).players()[j as int]);
                    assert(ballots(old(self).players(), votes@, j as int + 1, s1));
                }
            } else {
                proof {
                    assert(ps0[j as int] == old(self).players()[j as int]);
                    assert(self.talk() == tk0);
                    assert(ballots(old(self).players(), votes@, j as int + 1, self.talk().skip(base)));
                }
            }
            proof {
                let jj = j as int;
                assert(ps0[jj] == old(self).players()[jj]);
                if jj < 15 && votes@[jj] && !old(self).players()[jj].alive {
                    assert(self.players()[jj] == PlayerState { ghost_vote: false, ..ps0[jj] });
                } else {
                    assert(self.players()[jj] == ps0[jj]);
                }
                assert forall|k: int| 0 <= k < j + 1 implies #[trigger] self.players()[k] == if k < 15 && votes@[k] && !old(self).players()[k].alive {
                    PlayerState { ghost_vote: false, ..old(self).players()[k] }
                } else {
                    old(self).players()[k]
                } by {
                    if k < j {
                        assert(votes@[k] == votes0[k]);
                        assert(self.players()[k] == ps0[k]);
                    }
                }
            }
            j = j + 1;
        }
        proof {
            assert(old(self).actions() =~= self.actions().subrange(0, old(self).actions().len() as int));
        }
        Ok(votes)
    }
}

} // verus!
