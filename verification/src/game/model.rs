//! The mathematical model shared by rounds and games: player-name sequences,
//! lookup by name, the active (nonzero-dice) portion of a dice-count table,
//! and the flattened roll sequence a challenge is judged against.

use vstd::prelude::*;

use crate::game::round::PlayerRolls;
use crate::player::Player;

verus! {

/// The names of a dice-count table, in table order.
pub open spec fn table_names(t: Seq<(Player, usize)>) -> Seq<Seq<char>> {
    t.map_values(|e: (Player, usize)| e.0@)
}

/// The names of a sequence of players, in order.
pub open spec fn player_names(ps: Seq<Player>) -> Seq<Seq<char>> {
    ps.map_values(|p: Player| p@)
}

/// The names of a roll table, in table order.
pub open spec fn round_names(prs: Seq<PlayerRolls>) -> Seq<Seq<char>> {
    prs.map_values(|pr: PlayerRolls| pr.player@)
}

/// No two entries share a name.
pub open spec fn distinct_names(ns: Seq<Seq<char>>) -> bool {
    forall|i: int, j: int| 0 <= i < j < ns.len() ==> ns[i] != ns[j]
}

/// Some entry has the name `n`.
pub open spec fn has_name(ns: Seq<Seq<char>>, n: Seq<char>) -> bool {
    exists|i: int| 0 <= i < ns.len() && ns[i] == n
}

/// The index of the entry named `n` (unique when names are distinct).
pub open spec fn name_index(ns: Seq<Seq<char>>, n: Seq<char>) -> int {
    choose|i: int| 0 <= i < ns.len() && ns[i] == n
}

pub proof fn lemma_name_index_in_bounds(ns: Seq<Seq<char>>, n: Seq<char>)
    requires
        has_name(ns, n),
    ensures
        0 <= name_index(ns, n) < ns.len(),
        ns[name_index(ns, n)] == n,
{
}

pub proof fn lemma_name_index_unique(ns: Seq<Seq<char>>, n: Seq<char>, i: int)
    requires
        distinct_names(ns),
        0 <= i < ns.len(),
        ns[i] == n,
    ensures
        name_index(ns, n) == i,
{
    lemma_name_index_in_bounds(ns, n);
}

/// The entries of a dice-count table whose player still holds dice, in
/// table order.
pub open spec fn active(t: Seq<(Player, usize)>) -> Seq<(Player, usize)> {
    t.filter(|e: (Player, usize)| e.1 != 0)
}

pub proof fn lemma_active_push(t: Seq<(Player, usize)>, x: (Player, usize))
    ensures
        active(t.push(x)) == if x.1 != 0 {
            active(t).push(x)
        } else {
            active(t)
        },
{
    reveal(Seq::filter);
    assert(t.push(x).drop_last() =~= t);
}

pub proof fn lemma_active_all_nonzero(t: Seq<(Player, usize)>)
    requires
        forall|i: int| 0 <= i < t.len() ==> (#[trigger] t[i]).1 != 0,
    ensures
        active(t) == t,
    decreases t.len(),
{
    reveal(Seq::filter);
    if t.len() == 0 {
    } else {
        lemma_active_all_nonzero(t.drop_last());
        assert(active(t) =~= t);
    }
}

/// Every active entry is an entry of the table.
pub proof fn lemma_active_entries(t: Seq<(Player, usize)>, k: int)
    requires
        0 <= k < active(t).len(),
    ensures
        exists|i: int| 0 <= i < t.len() && t[i] == active(t)[k],
    decreases t.len(),
{
    reveal(Seq::filter);
    if t.len() > 0 {
        let dl = t.drop_last();
        if k < active(dl).len() {
            lemma_active_entries(dl, k);
            let i = choose|i: int| 0 <= i < dl.len() && dl[i] == active(dl)[k];
            assert(t[i] == active(t)[k]);
        } else {
            assert(t[t.len() - 1] == active(t)[k]);
        }
    }
}

/// A table entry with a name still holding dice appears among the active
/// entries.
pub proof fn lemma_active_keeps(t: Seq<(Player, usize)>, i: int)
    requires
        0 <= i < t.len(),
        t[i].1 != 0,
    ensures
        exists|k: int| 0 <= k < active(t).len() && active(t)[k] == t[i],
    decreases t.len(),
{
    reveal(Seq::filter);
    let dl = t.drop_last();
    if i == t.len() - 1 {
        assert(active(t)[active(t).len() - 1] == t[i]);
    } else {
        lemma_active_keeps(dl, i);
        let k = choose|k: int| 0 <= k < active(dl).len() && active(dl)[k] == dl[i];
        assert(active(t)[k] == t[i]);
    }
}

/// A name is among the active entries' names exactly when the table holds
/// that name with a nonzero count.
pub proof fn lemma_active_has_name(t: Seq<(Player, usize)>, n: Seq<char>)
    ensures
        has_name(table_names(active(t)), n) <==> exists|i: int|
            0 <= i < t.len() && (#[trigger] t[i]).0@ == n && t[i].1 != 0,
{
    if has_name(table_names(active(t)), n) {
        let k = choose|k: int|
            0 <= k < table_names(active(t)).len() && table_names(active(t))[k] == n;
        lemma_active_entries(t, k);
        let i = choose|i: int| 0 <= i < t.len() && t[i] == active(t)[k];
        Seq::lemma_filter_pred(t, |e: (Player, usize)| e.1 != 0, k);
        assert(t[i].0@ == n && t[i].1 != 0);
    }
    if exists|i: int| 0 <= i < t.len() && (#[trigger] t[i]).0@ == n && t[i].1 != 0 {
        let i = choose|i: int| 0 <= i < t.len() && (#[trigger] t[i]).0@ == n && t[i].1 != 0;
        lemma_active_keeps(t, i);
        let k = choose|k: int| 0 <= k < active(t).len() && active(t)[k] == t[i];
        assert(table_names(active(t))[k] == n);
    }
}

/// Filtering to the active entries keeps the names distinct.
pub proof fn lemma_active_distinct(t: Seq<(Player, usize)>)
    requires
        distinct_names(table_names(t)),
    ensures
        distinct_names(table_names(active(t))),
{
    assert forall|k1: int, k2: int|
        0 <= k1 < k2 < table_names(active(t)).len() implies table_names(active(t))[k1]
        != table_names(active(t))[k2] by {
        lemma_active_index_increasing(t, k1, k2);
        let (i1, i2) = choose|i1: int, i2: int|
            0 <= i1 < i2 < t.len() && t[i1] == active(t)[k1] && t[i2] == active(t)[k2]
                && #[trigger] order_witness(i1, i2);
        assert(table_names(t)[i1] == active(t)[k1].0@);
        assert(table_names(t)[i2] == active(t)[k2].0@);
        assert(table_names(t)[i1] != table_names(t)[i2]);
    }
}

/// Distinct positions among the active entries come from distinct (and
/// ordered) positions of the table.
pub proof fn lemma_active_index_increasing(t: Seq<(Player, usize)>, k1: int, k2: int)
    requires
        0 <= k1 < k2 < active(t).len(),
    ensures
        exists|i1: int, i2: int|
            0 <= i1 < i2 < t.len() && t[i1] == active(t)[k1] && t[i2] == active(t)[k2]
                && #[trigger] order_witness(i1, i2),
    decreases t.len(),
{
    reveal(Seq::filter);
    let dl = t.drop_last();
    if k2 < active(dl).len() {
        lemma_active_index_increasing(dl, k1, k2);
        let (i1, i2) = choose|i1: int, i2: int|
            0 <= i1 < i2 < dl.len() && dl[i1] == active(dl)[k1] && dl[i2] == active(dl)[k2]
                && #[trigger] order_witness(i1, i2);
        assert(t[i1] == active(t)[k1] && t[i2] == active(t)[k2]);
        assert(order_witness(i1, i2));
    } else {
        lemma_active_entries(dl, k1);
        let i1 = choose|i: int| 0 <= i < dl.len() && dl[i] == active(dl)[k1];
        let i2 = t.len() - 1;
        assert(t[i2] == active(t)[k2]);
        assert(t[i1] == active(t)[k1]);
        assert(order_witness(i1, i2));
    }
}

/// A marker used only to give the previous lemma a stable quantifier
/// pattern.
pub open spec fn order_witness(i1: int, i2: int) -> bool {
    true
}

/// Taking one die from a player with exactly one die left removes one
/// entry from the active set; otherwise the active count is unchanged.
pub proof fn lemma_elimination_counts(t: Seq<(Player, usize)>, i: int)
    requires
        0 <= i < t.len(),
        t[i].1 >= 1,
    ensures
        active(t.update(i, (t[i].0, (t[i].1 - 1) as usize))).len() == if t[i].1 == 1 {
            active(t).len() - 1
        } else {
            active(t).len() as int
        },
    decreases t.len(),
{
    reveal(Seq::filter);
    let u = t.update(i, (t[i].0, (t[i].1 - 1) as usize));
    if i == t.len() - 1 {
        assert(u.drop_last() =~= t.drop_last());
    } else {
        assert(u.drop_last() =~= t.drop_last().update(i, (t[i].0, (t[i].1 - 1) as usize)));
        lemma_elimination_counts(t.drop_last(), i);
        assert(u.last() == t.last());
    }
}

/// A player recorded with zero dice is not among the active entries.
pub proof fn lemma_zero_count_not_active(t: Seq<(Player, usize)>, i: int)
    requires
        distinct_names(table_names(t)),
        0 <= i < t.len(),
        t[i].1 == 0,
    ensures
        !has_name(table_names(active(t)), t[i].0@),
{
    lemma_active_has_name(t, t[i].0@);
    if exists|j: int| 0 <= j < t.len() && (#[trigger] t[j]).0@ == t[i].0@ && t[j].1 != 0 {
        let j = choose|j: int| 0 <= j < t.len() && (#[trigger] t[j]).0@ == t[i].0@ && t[j].1 != 0;
        assert(table_names(t)[i] == table_names(t)[j]);
    }
}

/// The cyclic successor of a position is a different position whenever the
/// cycle has at least two of them.
pub proof fn lemma_cyclic_successor(i: int, n: int)
    requires
        0 <= i < n,
    ensures
        0 <= (i + 1) % n < n,
        n >= 2 ==> (i + 1) % n != i,
{
    if i == n - 1 {
        assert((i + 1) % n == 0) by (nonlinear_arith)
            requires
                i == n - 1,
                n >= 1,
        ;
    } else {
        assert((i + 1) % n == i + 1) by (nonlinear_arith)
            requires
                0 <= i + 1 < n,
        ;
    }
}

/// All rolls of all players of a round, flattened in table order.
pub open spec fn flat_rolls(prs: Seq<PlayerRolls>) -> Seq<usize>
    decreases prs.len(),
{
    if prs.len() == 0 {
        Seq::empty()
    } else {
        prs[0].rolls@ + flat_rolls(prs.skip(1))
    }
}

pub proof fn lemma_flat_rolls_push(prs: Seq<PlayerRolls>, x: PlayerRolls)
    ensures
        flat_rolls(prs.push(x)) == flat_rolls(prs) + x.rolls@,
    decreases prs.len(),
{
    if prs.len() == 0 {
        let p = prs.push(x);
        assert(p[0] == x);
        assert(p.skip(1) =~= Seq::<PlayerRolls>::empty());
        assert(flat_rolls(p.skip(1)) =~= Seq::<usize>::empty());
        assert(flat_rolls(p) =~= x.rolls@);
        assert(flat_rolls(prs) + x.rolls@ =~= x.rolls@);
    } else {
        assert(prs.push(x).skip(1) =~= prs.skip(1).push(x));
        lemma_flat_rolls_push(prs.skip(1), x);
        assert(prs.push(x)[0] == prs[0]);
        assert(flat_rolls(prs.push(x)) == prs[0].rolls@ + (flat_rolls(prs.skip(1)) + x.rolls@));
        assert(prs[0].rolls@ + (flat_rolls(prs.skip(1)) + x.rolls@) =~= (prs[0].rolls@ + flat_rolls(
            prs.skip(1),
        )) + x.rolls@);
    }
}

/// The rolled hands agree with the active portion of a dice-count table:
/// the same players in the same order, each holding as many dice as the
/// table records.
pub open spec fn rolls_match_table(prs: Seq<PlayerRolls>, t: Seq<(Player, usize)>) -> bool {
    let a = active(t);
    &&& prs.len() == a.len()
    &&& forall|k: int|
        0 <= k < prs.len() ==> (#[trigger] prs[k]).player@ == a[k].0@ && prs[k].rolls@.len()
            == a[k].1
}

/// Every roll of every hand lies in `1 ..= max_roll`.
pub open spec fn rolls_in_range(prs: Seq<PlayerRolls>, max_roll: usize) -> bool {
    forall|k: int, i: int|
        0 <= k < prs.len() && 0 <= i < prs[k].rolls@.len() ==> 1 <= #[trigger] prs[k].rolls@[i]
            <= max_roll
}

} // verus!
