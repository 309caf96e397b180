use vstd::prelude::*;

use super::{GrimIO, Grimoir};
use crate::rng::{random_index, seeded_rng};
use super::draws::{
    draws_at_seat, draws_fit, draws_in_range, drawn_names, extras_at, herring_choices, lemma_draws_extend,
    lemma_drawers_prefix, lemma_drawers_take, lemma_fit_push, left_after, next_range, picked, role_at, script_minions,
    script_outsiders, script_townsfolk, seat_drawers, seat_holding, seated_names, setup_of, spare_of, swap_at,
    swapped,
};
use crate::roles::{all_role_ids, PlayerId, Role, RoleId};

verus! {

/// The four kinds of role.
#[derive(Clone, Copy, Debug, PartialEq, Eq, Structural)]
pub enum Class {
    Townsfolk,
    Outsider,
    Minion,
    Demon,
}

impl Class {
    /// Whether the role named `r` is of this kind.
    pub open spec fn holds(self, r: RoleId) -> bool {
        match self {
            Class::Townsfolk => r.spec_is_townsfolk(),
            Class::Outsider => r.spec_is_outsider(),
            Class::Minion => r.spec_is_minion(),
            Class::Demon => r.spec_is_demon(),
        }
    }

    pub(crate) fn holds_exec(self, r: RoleId) -> (b: bool)
        ensures
            b == self.holds(r),
    {
        match self {
            Class::Townsfolk => r.is_townsfolk(),
            Class::Outsider => r.is_outsider(),
            Class::Minion => r.is_minion(),
            Class::Demon => r.is_demon(),
        }
    }
}

/// How many entries of `s` are roles of kind `c`.
pub open spec fn class_count(s: Seq<RoleId>, c: Class) -> nat
    decreases s.len(),
{
    if s.len() == 0 {
        0
    } else {
        class_count(s.drop_last(), c) + if c.holds(s.last()) {
            1nat
        } else {
            0nat
        }
    }
}

/// The role names of a list of roles, seat by seat.
pub open spec fn seat_ids(roles: Seq<Role>) -> Seq<RoleId> {
    roles.map_values(|r: Role| r.spec_id())
}

/// Whether `role`, seated at a table whose role names are `ids`, keeps the state that it
/// starts a game with: no ability used, nothing remembered, the fortune teller's red herring
/// a seat whose role `is_good` holds (other than the fortune teller), and the drunk believing
/// itself a townsfolk that is not in play.
pub open spec fn fresh_for(role: Role, ids: Seq<RoleId>) -> bool {
    match role {
        Role::FortuneTeller { red_herring } => {
            &&& red_herring < ids.len()
            &&& ids[red_herring as int].spec_is_good()
            &&& ids[red_herring as int] != RoleId::FortuneTeller
        },
        Role::Undertaker { last_exec } => last_exec is None,
        Role::Virgin { ability_used } => !ability_used,
        Role::Slayer { ability_used } => !ability_used,
        Role::Butler { butlered } => butlered is None,
        Role::Drunk { role } => role.spec_is_townsfolk() && !ids.contains(role),
        _ => true,
    }
}

/// Whether the role in seat `i` keeps the state that it starts a game with.
pub open spec fn starts_fresh(roles: Seq<Role>, i: int) -> bool {
    fresh_for(roles[i], seat_ids(roles))
}

/// A fifteen-player setup: fifteen different roles, one demon and three minions; four
/// outsiders and seven townsfolk when the baron is in play, two and nine otherwise; and each
/// role in the state that it starts a game with.
pub open spec fn is_standard_setup(roles: Seq<Role>) -> bool {
    let ids = seat_ids(roles);
    let baron = ids.contains(RoleId::Baron);
    &&& roles.len() == 15
    &&& ids.no_duplicates()
    &&& class_count(ids, Class::Demon) == 1
    &&& class_count(ids, Class::Minion) == 3
    &&& class_count(ids, Class::Outsider) == if baron { 4nat } else { 2nat }
    &&& class_count(ids, Class::Townsfolk) == if baron { 7nat } else { 9nat }
    &&& forall|i: int| 0 <= i < 15 ==> #[trigger] starts_fresh(roles, i)
}

/// Adding a role adds one to the count of its class.
proof fn lemma_count_push(s: Seq<RoleId>, x: RoleId, c: Class)
    ensures
        class_count(s.push(x), c) == class_count(s, c) + if c.holds(x) {
            1nat
        } else {
            0nat
        },
{
    assert(s.push(x).drop_last() =~= s);
}

/// Replacing a role moves one from the count of its class to the count of the new role's.
proof fn lemma_count_update(s: Seq<RoleId>, i: int, v: RoleId, c: Class)
    requires
        0 <= i < s.len(),
    ensures
        class_count(s.update(i, v), c) + (if c.holds(s[i]) {
            1nat
        } else {
            0nat
        }) == class_count(s, c) + if c.holds(v) {
            1nat
        } else {
            0nat
        },
    decreases s.len(),
{
    if i == s.len() - 1 {
        assert(s.update(i, v).drop_last() =~= s.drop_last());
    } else {
        assert(s.update(i, v).drop_last() =~= s.drop_last().update(i, v));
        lemma_count_update(s.drop_last(), i, v, c);
    }
}

/// Removing an entry from a list without repeats leaves a list without repeats, holding the
/// rest.
pub(crate) proof fn lemma_remove_keeps_distinct(s: Seq<RoleId>, k: int)
    requires
        0 <= k < s.len(),
        s.no_duplicates(),
    ensures
        s.remove(k).no_duplicates(),
        forall|x: RoleId| #[trigger] s.remove(k).contains(x) <==> (s.contains(x) && x != s[k]),
        s.remove(k).len() == s.len() - 1,
{
    let t = s.remove(k);
    assert forall|a: int, b: int| 0 <= a < b < t.len() implies t[a] != t[b] by {
        let a2 = if a < k { a } else { a + 1 };
        let b2 = if b < k { b } else { b + 1 };
        assert(t[a] == s[a2]);
        assert(t[b] == s[b2]);
    }
    assert forall|x: RoleId| #[trigger] t.contains(x) <==> (s.contains(x) && x != s[k]) by {
        if t.contains(x) {
            let a = choose|a: int| 0 <= a < t.len() && t[a] == x;
            let a2 = if a < k { a } else { a + 1 };
            assert(s[a2] == x);
        }
        if s.contains(x) && x != s[k] {
            let a = choose|a: int| 0 <= a < s.len() && s[a] == x;
            if a < k {
                assert(t[a] == x);
            } else {
                assert(a != k);
                assert(t[a - 1] == x);
            }
        }
    }
}

/// Swapping two seats keeps the counts of each class and the absence of repeats.
proof fn lemma_swap_keeps_setup(s: Seq<RoleId>, a: int, b: int)
    requires
        0 <= a < s.len(),
        0 <= b < s.len(),
        s.no_duplicates(),
    ensures
        s.update(a, s[b]).update(b, s[a]).no_duplicates(),
        s.update(a, s[b]).update(b, s[a]).len() == s.len(),
        forall|x: RoleId| #[trigger]
            s.update(a, s[b]).update(b, s[a]).contains(x) <==> s.contains(x),
        forall|c: Class| #[trigger]
            class_count(s.update(a, s[b]).update(b, s[a]), c) == class_count(s, c),
{
    let t = s.update(a, s[b]).update(b, s[a]);
    let perm = |i: int|
        if i == a {
            b
        } else if i == b {
            a
        } else {
            i
        };
    assert forall|i: int| 0 <= i < t.len() implies t[i] == s[perm(i)] by {}
    assert forall|i: int, j: int| 0 <= i < j < t.len() implies t[i] != t[j] by {
        assert(t[i] == s[perm(i)]);
        assert(t[j] == s[perm(j)]);
    }
    assert forall|x: RoleId| #[trigger] t.contains(x) <==> s.contains(x) by {
        if t.contains(x) {
            let i = choose|i: int| 0 <= i < t.len() && t[i] == x;
            assert(s[perm(i)] == x);
        }
        if s.contains(x) {
            let i = choose|i: int| 0 <= i < s.len() && s[i] == x;
            assert(t[perm(i)] == x);
        }
    }
    assert forall|c: Class| #[trigger] class_count(t, c) == class_count(s, c) by {
        lemma_count_update(s, a, s[b], c);
        lemma_count_update(s.update(a, s[b]), b, s[a], c);
    }
}

/// The role names of `all` that are of kind `class`, in order.
pub(crate) fn ids_in_class(all: &Vec<RoleId>, class: Class) -> (r: Vec<RoleId>)
    ensures
        r@ == all@.filter(|x: RoleId| class.holds(x)),
{
    let mut r: Vec<RoleId> = Vec::new();
    let mut i: usize = 0;
    while i < all.len()
        invariant
            i <= all@.len(),
            r@ == all@.take(i as int).filter(|x: RoleId| class.holds(x)),
        decreases all@.len() - i,
    {
        assert(all@.take(i + 1).drop_last() =~= all@.take(i as int));
        reveal_with_fuel(Seq::filter, 1);
        if class.holds_exec(all[i]) {
            r.push(all[i]);
        }
        i = i + 1;
    }
    assert(all@.take(all@.len() as int) =~= all@);
    r
}

/// Whether `ids` holds the role named `role`.
fn holds_id(ids: &Vec<RoleId>, role: RoleId) -> (r: bool)
    ensures
        r == ids@.contains(role),
{
    let mut i: usize = 0;
    while i < ids.len()
        invariant
            i <= ids@.len(),
            forall|j: int| 0 <= j < i ==> ids@[j] != role,
        decreases ids@.len() - i,
    {
        if ids[i] == role {
            return true;
        }
        i = i + 1;
    }
    false
}

/// The first seat of `ids` that holds the role named `role`.
fn seat_of_id(ids: &Vec<RoleId>, role: RoleId) -> (r: Option<PlayerId>)
    ensures
        r matches Some(p) ==> p < ids@.len() && ids@[p as int] == role,
        r is None ==> !ids@.contains(role),
{
    let mut i: usize = 0;
    while i < ids.len()
        invariant
            i <= ids@.len(),
            forall|j: int| 0 <= j < i ==> ids@[j] != role,
        decreases ids@.len() - i,
    {
        if ids[i] == role {
            return Some(i);
        }
        i = i + 1;
    }
    None
}

/// Where the numbers of a setup come from: the random generator, or numbers given in advance
/// and read in turn; with the record of the numbers read so far.
struct Drawer {
    rng: Option<rand::rngs::SmallRng>,
    given: Vec<usize>,
    pos: usize,
    taken: Ghost<Seq<usize>>,
}

impl Drawer {
    /// The numbers read so far each lie in their range; numbers given in advance are a whole
    /// draw, read up to `pos`.
    spec fn wf(&self) -> bool {
        &&& draws_fit(self.taken@)
        &&& self.rng is None ==> self.pos <= self.given@.len() && self.taken@ == self.given@.take(self.pos as int)
            && draws_in_range(self.given@)
    }

    /// Whether `self` reads from the same place as `other`.
    spec fn same_source(&self, other: &Drawer) -> bool {
        &&& self.given@ == other.given@
        &&& (self.rng is None) == (other.rng is None)
    }

    /// The next number, drawn from `low..high`, the range that the numbers so far leave for it.
    fn draw(&mut self, low: usize, high: usize) -> (r: usize)
        requires
            old(self).wf(),
            low < high,
            next_range(old(self).taken@) == Some((low as int, high as int)),
        ensures
            final(self).wf(),
            final(self).same_source(old(self)),
            final(self).taken@ == old(self).taken@.push(r),
            low <= r < high,
    {
        match self.rng.take() {
            Some(g) => {
                let mut g = g;
                let v = random_index(&mut g, low, high);
                self.rng = Some(g);
                proof {
                    lemma_fit_push(self.taken@, v);
                    self.taken@ = self.taken@.push(v);
                }
                v
            },
            None => {
                proof {
                    if self.pos as int == self.given@.len() {
                        assert(self.given@.take(self.pos as int) =~= self.given@);
                    }
                    assert(self.given@.take(self.pos as int) == self.taken@);
                    assert(next_range(self.given@.take(self.pos as int)) matches Some(r) && r.0 <= self.given@[self.pos as int] < r.1);
                    assert((self.pos as int) < self.given@.len());
                }
                let cur = self.pos;
                let len = self.given.len();
                assert(cur < len);
                let v = self.given[cur];
                proof {
                    lemma_fit_push(self.taken@, v);
                    assert(self.given@.take(self.pos + 1) =~= self.taken@.push(v));
                    self.taken@ = self.taken@.push(v);
                }
                self.pos = cur + 1;
                v
            },
        }
    }
}

/// Draws `count` roles out of `pool`, all of kind `class`, onto the end of `ids`: each number
/// drawn names the entry of what is left of the pool that is taken out.
fn draw_roles(
    ids: &mut Vec<RoleId>,
    pool: &mut Vec<RoleId>,
    src: &mut Drawer,
    count: usize,
    Ghost(class): Ghost<Class>,
)
    requires
        old(src).wf(),
        forall|q: Seq<usize>| q.len() < count ==> #[trigger] next_range(old(src).taken@ + q) == Some((0int, old(pool)@.len() - q.len())),
        old(pool)@.len() >= count,
        old(ids)@.no_duplicates(),
        old(pool)@.no_duplicates(),
        forall|x: RoleId| #[trigger] old(pool)@.contains(x) ==> class.holds(x),
        forall|x: RoleId| old(ids)@.contains(x) ==> !#[trigger] old(pool)@.contains(x),
    ensures
        final(ids)@.len() == old(ids)@.len() + count,
        final(pool)@.len() == old(pool)@.len() - count,
        final(ids)@.no_duplicates(),
        final(pool)@.no_duplicates(),
        forall|x: RoleId| #[trigger] final(pool)@.contains(x) ==> old(pool)@.contains(x),
        forall|x: RoleId| #[trigger]
            final(ids)@.contains(x) ==> old(ids)@.contains(x) || old(pool)@.contains(x),
        forall|x: RoleId| old(ids)@.contains(x) ==> #[trigger] final(ids)@.contains(x),
        forall|x: RoleId| final(ids)@.contains(x) ==> !#[trigger] final(pool)@.contains(x),
        forall|c: Class| #[trigger]
            class_count(final(ids)@, c) == class_count(old(ids)@, c) + if c == class {
                count as nat
            } else {
                0nat
            },
        final(src).wf(),
        final(src).same_source(old(src)),
        old(src).taken@.is_prefix_of(final(src).taken@),
        final(src).taken@.len() == old(src).taken@.len() + count,
        final(ids)@ == old(ids)@ + picked(old(pool)@, final(src).taken@.skip(old(src).taken@.len() as int)),
        final(pool)@ == left_after(old(pool)@, final(src).taken@.skip(old(src).taken@.len() as int)),
{
    let mut n: usize = 0;
    proof {
        assert(src.taken@.skip(src.taken@.len() as int) =~= Seq::<usize>::empty());
        assert(ids@ =~= old(ids)@ + picked(old(pool)@, Seq::<usize>::empty()));
    }
    while n < count
        invariant
            src.wf(),
            src.same_source(old(src)),
            old(src).taken@.is_prefix_of(src.taken@),
            src.taken@.len() == old(src).taken@.len() + n,
            forall|q: Seq<usize>| q.len() < count ==> #[trigger] next_range(old(src).taken@ + q) == Some((0int, old(pool)@.len() - q.len())),
            ids@ == old(ids)@ + picked(old(pool)@, src.taken@.skip(old(src).taken@.len() as int)),
            pool@ == left_after(old(pool)@, src.taken@.skip(old(src).taken@.len() as int)),
            n <= count,
            old(pool)@.len() >= count,
            ids@.len() == old(ids)@.len() + n,
            pool@.len() == old(pool)@.len() - n,
            ids@.no_duplicates(),
            pool@.no_duplicates(),
            forall|x: RoleId| #[trigger] pool@.contains(x) ==> old(pool)@.contains(x),
            forall|x: RoleId| #[trigger]
                ids@.contains(x) ==> old(ids)@.contains(x) || old(pool)@.contains(x),
            forall|x: RoleId| old(ids)@.contains(x) ==> #[trigger] ids@.contains(x),
            forall|x: RoleId| ids@.contains(x) ==> !#[trigger] pool@.contains(x),
            forall|x: RoleId| #[trigger] old(pool)@.contains(x) ==> class.holds(x),
            forall|c: Class| #[trigger]
                class_count(ids@, c) == class_count(old(ids)@, c) + if c == class {
                    n as nat
                } else {
                    0nat
                },
        decreases count - n,
    {
        let ghost t0 = old(src).taken@;
        let ghost portion = src.taken@.skip(t0.len() as int);
        proof {
            assert(src.taken@ =~= t0 + portion);
            assert(next_range(t0 + portion) == Some((0int, old(pool)@.len() - portion.len())));
        }
        let k = src.draw(0, pool.len());
        proof {
            lemma_remove_keeps_distinct(pool@, k as int);
            assert(pool@.contains(pool@[k as int]));
            let portion2 = src.taken@.skip(t0.len() as int);
            assert(portion2 =~= portion.push(k));
            assert(portion2.drop_last() =~= portion);
            assert(t0.is_prefix_of(src.taken@)) by {
                assert(src.taken@.subrange(0, t0.len() as int) =~= t0);
            }
        }
        let x = pool.remove(k);
        let ghost before = ids@;
        ids.push(x);
        proof {
            assert(ids@ =~= old(ids)@ + picked(old(pool)@, src.taken@.skip(t0.len() as int)));
            assert forall|y: RoleId| #[trigger] ids@.contains(y) <==> (before.contains(y) || y == x) by {
                if ids@.contains(y) {
                    let j = choose|j: int| 0 <= j < ids@.len() && ids@[j] == y;
                    if j < before.len() {
                        assert(before[j] == y);
                    }
                }
                if before.contains(y) {
                    let j = choose|j: int| 0 <= j < before.len() && before[j] == y;
                    assert(ids@[j] == y);
                }
                if y == x {
                    assert(ids@[before.len() as int] == y);
                }
            }
            assert forall|a: int, b: int| 0 <= a < b < ids@.len() implies ids@[a] != ids@[b] by {
                if b == before.len() {
                    assert(before.contains(ids@[a]));
                }
            }
            assert forall|c: Class| #[trigger]
                class_count(ids@, c) == class_count(old(ids)@, c) + if c == class {
                    (n + 1) as nat
                } else {
                    0nat
                } by {
                lemma_count_push(before, x, c);
            }
        }
        n = n + 1;
    }
}

/// Whether `ids` names fifteen different roles: the imp, three minions, and four outsiders
/// with seven townsfolk when the baron is among them, two outsiders with nine townsfolk
/// otherwise.
pub open spec fn drawn_ids(ids: Seq<RoleId>) -> bool {
    let baron = ids.contains(RoleId::Baron);
    &&& ids.len() == 15
    &&& ids.no_duplicates()
    &&& ids.contains(RoleId::Imp)
    &&& class_count(ids, Class::Demon) == 1
    &&& class_count(ids, Class::Minion) == 3
    &&& class_count(ids, Class::Outsider) == if baron { 4nat } else { 2nat }
    &&& class_count(ids, Class::Townsfolk) == if baron { 7nat } else { 9nat }
}

/// Whether `towns` holds at least four different townsfolk, none of them named in `ids`.
pub open spec fn spare_towns(towns: Seq<RoleId>, ids: Seq<RoleId>) -> bool {
    &&& towns.len() >= 4
    &&& towns.no_duplicates()
    &&& forall|x: RoleId| #[trigger] towns.contains(x) ==> x.spec_is_townsfolk() && !ids.contains(x)
}

/// Draws the role names of the game, in the order drawn, and the townsfolk left over.
#[verifier::spinoff_prover]
#[verifier::rlimit(60)]
fn draw_setup_ids(src: &mut Drawer) -> (r: (Vec<RoleId>, Vec<RoleId>))
    requires
        old(src).wf(),
        old(src).taken@.len() == 0,
    ensures
        drawn_ids(r.0@),
        spare_towns(r.1@, r.0@),
        final(src).wf(),
        final(src).same_source(old(src)),
        final(src).taken@.len() == swap_at(final(src).taken@),
        r.0@ == drawn_names(final(src).taken@),
        r.1@ == spare_of(final(src).taken@),
{
        let mut ids: Vec<RoleId> = Vec::new();
        let all = RoleId::all();
        let mut towns = ids_in_class(&all, Class::Townsfolk);
        let mut outside = ids_in_class(&all, Class::Outsider);
        let mut minions = ids_in_class(&all, Class::Minion);
        proof {
            reveal_with_fuel(Seq::filter, 23);
            assert(towns@ =~= all_role_ids().take(13));
            assert(outside@ =~= all_role_ids().subrange(13, 17));
            assert(minions@ =~= all_role_ids().subrange(17, 21));
            assert(ids@.no_duplicates());
            assert(class_count(ids@, Class::Minion) == 0);
            assert(class_count(ids@, Class::Outsider) == 0);
            assert(class_count(ids@, Class::Townsfolk) == 0);
            assert(class_count(ids@, Class::Demon) == 0);
            assert forall|x: RoleId| #[trigger] minions@.contains(x) implies x.spec_is_minion() by {}
            assert forall|x: RoleId| #[trigger] outside@.contains(x) implies x.spec_is_outsider() by {}
            assert forall|x: RoleId| #[trigger] towns@.contains(x) implies x.spec_is_townsfolk() by {}
            assert(towns@.no_duplicates());
            assert(outside@.no_duplicates());
            assert(minions@.no_duplicates());
        }
        let ghost minions_all = minions@;
        let ghost outside_all = outside@;
        let ghost towns_all = towns@;
        proof {
            assert(minions_all == script_minions());
            assert(outside_all == script_outsiders());
            assert(towns_all == script_townsfolk());
            assert forall|q: Seq<usize>| q.len() < 3 implies #[trigger] next_range(src.taken@ + q) == Some((0int, minions@.len() - q.len())) by {
                assert(src.taken@ + q =~= q);
            }
        }
        draw_roles(&mut ids, &mut minions, src, 3, Ghost(Class::Minion));
        let ghost t3 = src.taken@;
        proof {
            assert(t3.skip(0) =~= t3.subrange(0, 3));
            assert(ids@ =~= super::draws::minion_picks(t3));
            assert forall|x: RoleId| ids@.contains(x) implies !#[trigger] outside@.contains(x) by {
                assert(minions_all.contains(x));
            }
        }
        let baron = holds_id(&ids, RoleId::Baron);
        let n_out: usize = if baron {
            4
        } else {
            2
        };
        let ghost after_minions = ids@;
        proof {
            assert(n_out == super::draws::outsider_count(t3));
            assert forall|q: Seq<usize>| q.len() < n_out implies #[trigger] next_range(src.taken@ + q) == Some((0int, outside@.len() - q.len())) by {
                let p = src.taken@ + q;
                assert(t3.is_prefix_of(p)) by {
                    assert(p.subrange(0, t3.len() as int) =~= t3);
                }
                lemma_draws_extend(t3, p);
            }
        }
        draw_roles(&mut ids, &mut outside, src, n_out, Ghost(Class::Outsider));
        let ghost t5 = src.taken@;
        proof {
            lemma_draws_extend(t3, t5);
            assert(t5.skip(3) =~= t5.subrange(3, super::draws::town_start(t5)));
            assert(after_minions == super::draws::minion_picks(t5));
            assert(ids@ =~= super::draws::minion_picks(t5) + super::draws::outsider_picks(t5));
            assert forall|x: RoleId| ids@.contains(x) implies !#[trigger] towns@.contains(x) by {
                if after_minions.contains(x) {
                    assert(minions_all.contains(x));
                } else {
                    assert(outside_all.contains(x));
                }
            }
            if ids@.contains(RoleId::Baron) {
                if !after_minions.contains(RoleId::Baron) {
                    assert(outside_all.contains(RoleId::Baron));
                }
            }
        }
        let baron_now = holds_id(&ids, RoleId::Baron);
        let n_town: usize = if baron_now {
            7
        } else {
            9
        };
        let ghost after_outside = ids@;
        proof {
            assert(n_town == super::draws::town_count(t5));
            assert forall|q: Seq<usize>| q.len() < n_town implies #[trigger] next_range(src.taken@ + q) == Some((0int, towns@.len() - q.len())) by {
                let p = src.taken@ + q;
                assert(t5.is_prefix_of(p)) by {
                    assert(p.subrange(0, t5.len() as int) =~= t5);
                }
                lemma_draws_extend(t5, p);
                lemma_draws_extend(t3, p);
            }
        }
        draw_roles(&mut ids, &mut towns, src, n_town, Ghost(Class::Townsfolk));
        let ghost t14 = src.taken@;
        proof {
            lemma_draws_extend(t5, t14);
            lemma_draws_extend(t3, t14);
            assert(t14.skip(t5.len() as int) =~= super::draws::town_draws(t14));
            assert(after_outside == super::draws::minion_picks(t14) + super::draws::outsider_picks(t14));
            assert(towns@ == spare_of(t14));
            assert forall|x: RoleId| #[trigger] ids@.contains(x) implies x != RoleId::Imp by {
                if after_minions.contains(x) {
                    assert(minions_all.contains(x));
                } else if after_outside.contains(x) {
                    assert(outside_all.contains(x));
                } else {
                    assert(towns_all.contains(x));
                }
            }
            if ids@.contains(RoleId::Baron) {
                if !after_outside.contains(RoleId::Baron) {
                    assert(towns_all.contains(RoleId::Baron));
                }
            }
            lemma_count_push(ids@, RoleId::Imp, Class::Minion);
            lemma_count_push(ids@, RoleId::Imp, Class::Outsider);
            lemma_count_push(ids@, RoleId::Imp, Class::Townsfolk);
            lemma_count_push(ids@, RoleId::Imp, Class::Demon);
        }
        let ghost before_imp = ids@;
        ids.push(RoleId::Imp);
        proof {
            assert(ids@ =~= drawn_names(t14));
            assert forall|a: int, b: int| 0 <= a < b < ids@.len() implies ids@[a] != ids@[b] by {
                if b == before_imp.len() {
                    assert(before_imp.contains(ids@[a]));
                }
            }
            assert forall|x: RoleId| #[trigger] ids@.contains(x) <==> (before_imp.contains(x) || x
                == RoleId::Imp) by {
                if ids@.contains(x) {
                    let j = choose|j: int| 0 <= j < ids@.len() && ids@[j] == x;
                    if j < before_imp.len() {
                        assert(before_imp[j] == x);
                    }
                }
                if before_imp.contains(x) {
                    let j = choose|j: int| 0 <= j < before_imp.len() && before_imp[j] == x;
                    assert(ids@[j] == x);
                }
                if x == RoleId::Imp {
                    assert(ids@[before_imp.len() as int] == x);
                }
            }
            assert forall|x: RoleId| ids@.contains(x) implies !#[trigger] towns@.contains(x) by {
                if x == RoleId::Imp {
                    assert(!towns_all.contains(x));
                }
            }
        }
        proof {
            assert forall|x: RoleId| #[trigger] towns@.contains(x) implies x.spec_is_townsfolk() && !ids@.contains(x) by {
                assert(towns_all.contains(x));
            }
        }
        (ids, towns)
}

/// Swaps the role names a few times: draws how many swaps, then the two seats of each.
fn shuffle_ids(ids: &mut Vec<RoleId>, src: &mut Drawer)
    requires
        old(ids)@.len() == 15,
        old(ids)@.no_duplicates(),
        old(src).wf(),
        old(src).taken@.len() == swap_at(old(src).taken@),
    ensures
        final(ids)@.len() == 15,
        final(ids)@.no_duplicates(),
        forall|x: RoleId| #[trigger] final(ids)@.contains(x) <==> old(ids)@.contains(x),
        forall|c: Class| #[trigger] class_count(final(ids)@, c) == class_count(old(ids)@, c),
        final(src).wf(),
        final(src).same_source(old(src)),
        old(src).taken@.is_prefix_of(final(src).taken@),
        final(src).taken@.len() > swap_at(final(src).taken@),
        final(src).taken@.len() == extras_at(final(src).taken@),
        final(ids)@ == swapped(old(ids)@, final(src).taken@.subrange(swap_at(old(src).taken@) + 1, final(src).taken@.len() as int)),
{
        let ghost drawn = ids@;
        let ghost t0 = src.taken@;
        let ghost base = swap_at(t0) + 1;
        let swaps = src.draw(5, 10);
        let ghost t1 = src.taken@;
        proof {
            assert(t0.is_prefix_of(t1)) by {
                assert(t1.subrange(0, t0.len() as int) =~= t0);
            }
            lemma_draws_extend(t0, t1);
            assert(t1.subrange(base, t1.len() as int) =~= Seq::<usize>::empty());
        }
        let mut s: usize = 0;
        while s < swaps
            invariant
                ids@.len() == 15,
                ids@.no_duplicates(),
                forall|x: RoleId| #[trigger] ids@.contains(x) <==> drawn.contains(x),
                forall|c: Class| #[trigger] class_count(ids@, c) == class_count(drawn, c),
                src.wf(),
                src.same_source(old(src)),
                t0 == old(src).taken@,
                base == swap_at(t0) + 1,
                t1 == t0.push(swaps),
                t1.is_prefix_of(src.taken@),
                t0.is_prefix_of(src.taken@),
                swap_at(t1) == swap_at(t0),
                t1.len() > swap_at(t1),
                super::draws::swap_count(t1) == swaps,
                s <= swaps,
                src.taken@.len() == base + 2 * s,
                ids@ == swapped(drawn, src.taken@.subrange(base, src.taken@.len() as int)),
            decreases swaps - s,
        {
            let ghost ta0 = src.taken@;
            proof {
                lemma_draws_extend(t1, ta0);
            }
            let a = src.draw(0, 15);
            let ghost ta1 = src.taken@;
            proof {
                assert(t1.is_prefix_of(ta1)) by {
                    assert(ta1.subrange(0, t1.len() as int) =~= t1);
                }
                lemma_draws_extend(t1, ta1);
            }
            let b = src.draw(0, 15);
            proof {
                lemma_swap_keeps_setup(ids@, a as int, b as int);
                let pairs = src.taken@.subrange(base, src.taken@.len() as int);
                assert(pairs.subrange(0, pairs.len() - 2) =~= ta0.subrange(base, ta0.len() as int));
                assert(t1.is_prefix_of(src.taken@)) by {
                    assert(src.taken@.subrange(0, t1.len() as int) =~= t1);
                }
                assert(t0.is_prefix_of(src.taken@)) by {
                    assert(src.taken@.subrange(0, t0.len() as int) =~= t0);
                }
            }
            let ta = ids[a];
            let tb = ids[b];
            ids[a] = tb;
            ids[b] = ta;
            s = s + 1;
        }
        proof {
            lemma_draws_extend(t1, src.taken@);
        }
}

/// Turns each role name into its role at the start of a game, drawing the fortune teller's
/// red herring and the drunk's believed role.
fn seat_roles(ids: &Vec<RoleId>, towns: Vec<RoleId>, src: &mut Drawer) -> (roles: Vec<Role>)
    requires
        drawn_ids(ids@),
        spare_towns(towns@, ids@),
        old(src).wf(),
        old(src).taken@.len() > swap_at(old(src).taken@),
        old(src).taken@.len() == extras_at(old(src).taken@),
        ids@ == seated_names(old(src).taken@),
        towns@ == spare_of(old(src).taken@),
    ensures
        is_standard_setup(roles@),
        final(src).wf(),
        final(src).same_source(old(src)),
        next_range(final(src).taken@) is None,
        roles@ == setup_of(final(src).taken@),
{
        let mut towns = towns;
        let ghost towns_left = towns@.len();
        let ghost t0 = src.taken@;
        let ghost e = t0.len() as int;
        let ghost spare0 = towns@;
        proof {
            assert(ids@.take(0) =~= Seq::<RoleId>::empty());
        }
        let mut roles: Vec<Role> = Vec::new();
        let mut i: usize = 0;
        while i < 15
            invariant
                ids@.len() == 15,
                ids@.no_duplicates(),
                ids@.contains(RoleId::Imp),
                towns_left >= 4,
                forall|x: RoleId| #[trigger] towns@.contains(x) ==> x.spec_is_townsfolk(),
                towns@.no_duplicates(),
                forall|x: RoleId| ids@.contains(x) ==> !#[trigger] towns@.contains(x),
                !ids@.take(i as int).contains(RoleId::Drunk) ==> towns@.len() == towns_left,
                i <= 15,
                roles@.len() == i,
                forall|j: int| 0 <= j < i ==> #[trigger] roles@[j].spec_id() == ids@[j],
                forall|j: int| 0 <= j < i ==> fresh_for(#[trigger] roles@[j], ids@),
                src.wf(),
                src.same_source(old(src)),
                t0 == old(src).taken@,
                e == t0.len(),
                t0.len() > swap_at(t0),
                e == extras_at(t0),
                ids@ == seated_names(t0),
                spare0 == spare_of(t0),
                t0.is_prefix_of(src.taken@),
                src.taken@.len() == e + seat_drawers(ids@.take(i as int)).len(),
                !ids@.take(i as int).contains(RoleId::Drunk) ==> towns@ == spare0,
                forall|j: int| 0 <= j < i ==> #[trigger] roles@[j] == role_at(ids@, spare0, src.taken@, e, j),
            decreases 15 - i,
        {
            let ghost tk = src.taken@;
            proof {
                lemma_draws_extend(t0, tk);
                lemma_drawers_take(ids@, i as int);
            }
            proof {
                let next = ids@.take(i + 1);
                let prev = ids@.take(i as int);
                assert forall|x: RoleId| #[trigger] next.contains(x) <==> (prev.contains(x) || x
                    == ids@[i as int]) by {
                    if next.contains(x) {
                        let j = choose|j: int| 0 <= j < next.len() && next[j] == x;
                        if j < i {
                            assert(prev[j] == x);
                        }
                    }
                    if prev.contains(x) {
                        let j = choose|j: int| 0 <= j < prev.len() && prev[j] == x;
                        assert(next[j] == x);
                    }
                    if x == ids@[i as int] {
                        assert(next[i as int] == x);
                    }
                }
                if ids@[i as int] == RoleId::Drunk {
                    if prev.contains(RoleId::Drunk) {
                        let j = choose|j: int| 0 <= j < prev.len() && prev[j] == RoleId::Drunk;
                        assert(ids@[j] == ids@[i as int]);
                    }
                }
            }
            let role = match ids[i] {
                RoleId::WasherWoman => Role::WasherWoman,
                RoleId::Librarian => Role::Librarian,
                RoleId::Investigator => Role::Investigator,
                RoleId::Chef => Role::Chef,
                RoleId::Empath => Role::Empath,
                RoleId::FortuneTeller => Role::FortuneTeller {
                    red_herring: draw_red_herring(ids, src),
                },
                RoleId::Undertaker => Role::Undertaker { last_exec: None },
                RoleId::Monk => Role::Monk,
                RoleId::RavensKeeper => Role::RavensKeeper,
                RoleId::Virgin => Role::Virgin { ability_used: false },
                RoleId::Slayer => Role::Slayer { ability_used: false },
                RoleId::Soldier => Role::Soldier,
                RoleId::Mayor => Role::Mayor,
                RoleId::Butler => Role::Butler { butlered: None },
                RoleId::Drunk => {
                    proof {
                        assert(towns@ == spare0);
                    }
                    let k = src.draw(0, towns.len());
                    proof {
                        assert(towns@.contains(towns@[k as int]));
                        lemma_remove_keeps_distinct(towns@, k as int);
                    }
                    let believed = towns.remove(k);
                    Role::Drunk { role: believed }
                },
                RoleId::Recluse => Role::Recluse,
                RoleId::Saint => Role::Saint,
                RoleId::Poisoner => Role::Poisoner,
                RoleId::Spy => Role::Spy,
                RoleId::ScarletWoman => Role::ScarletWoman,
                RoleId::Baron => Role::Baron,
                RoleId::Imp => Role::Imp,
            };
            proof {
                let tn = src.taken@;
                assert(tn.len() == tk.len() || tn == tk.push(tn.last()));
                assert(t0.is_prefix_of(tn)) by {
                    assert(tn.subrange(0, t0.len() as int) =~= t0);
                }
                assert forall|j: int| 0 <= j < i implies #[trigger] roles@[j] == role_at(ids@, spare0, tn, e, j) by {
                    if draws_at_seat(ids@[j]) {
                        lemma_drawers_take(ids@, j);
                        assert(seat_drawers(ids@.take(j + 1)).len() <= seat_drawers(ids@.take(i as int)).len()) by {
                            lemma_drawers_prefix(ids@, j + 1, i as int);
                        }
                        assert(tn[e + seat_drawers(ids@.take(j)).len()] == tk[e + seat_drawers(ids@.take(j)).len()]);
                    }
                }
                assert(role == role_at(ids@, spare0, tn, e, i as int));
            }
            roles.push(role);
            i = i + 1;
        }
        proof {
            assert(ids@.take(15) =~= ids@);
            lemma_draws_extend(t0, src.taken@);
            assert(roles@ =~= setup_of(src.taken@));
            assert(seat_ids(roles@) =~= ids@);
            assert forall|i: int| 0 <= i < 15 implies #[trigger] starts_fresh(roles@, i) by {
                assert(fresh_for(roles@[i], ids@));
            }
        }
        roles
}


impl<IO: GrimIO> Grimoir<IO> {
    /// Draws the roles of a fifteen-player game: three minions, two outsiders (four with the
    /// baron), nine townsfolk (seven with the baron) and the imp, shuffled by a few swaps; the
    /// fortune teller's red herring and the drunk's believed role are drawn as well.
    pub fn gen_roles(seed: Option<u64>) -> (roles: Vec<Role>)
        ensures
            is_standard_setup(roles@),
            exists|d: Seq<usize>| draws_in_range(d) && roles@ == setup_of(d),
    {
        let rand = seeded_rng(
            match seed {
                Some(s) => s,
                None => 0,
            },
        );
        let mut src = Drawer { rng: Some(rand), given: Vec::new(), pos: 0, taken: Ghost(Seq::empty()) };
        let roles = deal(&mut src);
        proof {
            assert(draws_in_range(src.taken@));
        }
        roles
    }
}

/// The setup that the numbers `draws` give, read in turn as the draws of `gen_roles`: the
/// picks of the minions, the outsiders and the townsfolk, the number of swaps and the two
/// seats of each, then, seat by seat, the fortune teller's red herring and the drunk's
/// believed role.
pub fn setup_from_draws(draws: Vec<usize>) -> (roles: Vec<Role>)
    requires
        draws_in_range(draws@),
    ensures
        roles@ == setup_of(draws@),
        is_standard_setup(roles@),
{
    let ghost d = draws@;
    let mut src = Drawer { rng: None, given: draws, pos: 0, taken: Ghost(Seq::empty()) };
    proof {
        assert(src.given@.take(0) =~= Seq::<usize>::empty());
    }
    let roles = deal(&mut src);
    proof {
        if (src.pos as int) < d.len() {
            assert(d.take(src.pos as int) == src.taken@);
            assert(next_range(d.take(src.pos as int)) matches Some(r) && r.0 <= d[src.pos as int] < r.1);
        }
        assert(d.take(d.len() as int) =~= d);
    }
    roles
}

/// Deals a setup from the numbers of `src`: draws the role names, shuffles them, and seats
/// their roles.
fn deal(src: &mut Drawer) -> (roles: Vec<Role>)
    requires
        old(src).wf(),
        old(src).taken@.len() == 0,
    ensures
        is_standard_setup(roles@),
        final(src).wf(),
        final(src).same_source(old(src)),
        next_range(final(src).taken@) is None,
        roles@ == setup_of(final(src).taken@),
{
        let (mut ids, towns) = draw_setup_ids(src);
        let ghost drawn = ids@;
        let ghost t14 = src.taken@;
        shuffle_ids(&mut ids, src);
        proof {
            lemma_draws_extend(t14, src.taken@);
            assert(ids@ == seated_names(src.taken@));
        }
        proof {
            assert(ids@.contains(RoleId::Baron) == drawn.contains(RoleId::Baron));
            assert(ids@.contains(RoleId::Imp));
            assert forall|x: RoleId| #[trigger] towns@.contains(x) implies x.spec_is_townsfolk()
                && !ids@.contains(x) by {}
        }
        seat_roles(&ids, towns, src)
}

/// A seat whose role `is_good` holds, other than the fortune teller, drawn at random.
fn draw_red_herring(ids: &Vec<RoleId>, src: &mut Drawer) -> (r: PlayerId)
    requires
        ids@.contains(RoleId::Imp),
        ids@.no_duplicates(),
        old(src).wf(),
        next_range(old(src).taken@) == Some((0int, herring_choices(ids@).len() as int)),
    ensures
        r < ids@.len(),
        ids@[r as int].spec_is_good(),
        ids@[r as int] != RoleId::FortuneTeller,
        final(src).wf(),
        final(src).same_source(old(src)),
        final(src).taken@ == old(src).taken@.push(final(src).taken@.last()),
        r as int == seat_holding(ids@, herring_choices(ids@)[final(src).taken@.last() as int]),
{
    let mut goods: Vec<RoleId> = Vec::new();
    let mut j: usize = 0;
    proof {
        assert(ids@.take(0) =~= Seq::<RoleId>::empty());
    }
    while j < ids.len()
        invariant
            j <= ids@.len(),
            forall|k: int|
                0 <= k < goods@.len() ==> ids@.contains(#[trigger] goods@[k]) && goods@[k].spec_is_good()
                    && goods@[k] != RoleId::FortuneTeller,
            ids@.take(j as int).contains(RoleId::Imp) ==> goods@.len() > 0,
            goods@ == herring_choices(ids@.take(j as int)),
        decreases ids@.len() - j,
    {
        proof {
            assert(ids@.take(j + 1).drop_last() =~= ids@.take(j as int));
        }
        proof {
            let next = ids@.take(j + 1);
            let prev = ids@.take(j as int);
            if next.contains(RoleId::Imp) && !prev.contains(RoleId::Imp) {
                let k = choose|k: int| 0 <= k < next.len() && next[k] == RoleId::Imp;
                if k < j {
                    assert(prev[k] == RoleId::Imp);
                }
            }
        }
        if ids[j].is_good() && ids[j] != RoleId::FortuneTeller {
            proof {
                assert(ids@.contains(ids@[j as int]));
            }
            goods.push(ids[j]);
        }
        j = j + 1;
    }
    proof {
        assert(ids@.take(ids@.len() as int) =~= ids@);
    }
    let k = src.draw(0, goods.len());
    let pick = goods[k];
    match seat_of_id(ids, pick) {
        Some(p) => {
            proof {
                let q = seat_holding(ids@, pick);
                assert(0 <= q < ids@.len() && ids@[q] == pick);
            }
            p
        },
        None => {
            proof {
                assert(false);
            }
            0
        },
    }
}

} // verus!
