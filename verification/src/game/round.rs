//! A single round: each active player's secret hand of dice plus the
//! sequence of bets made, advancing through the phases fresh -> betting ->
//! resolved.

use vstd::prelude::*;

use rand::Rng;

use crate::bet::{Bet, RaiseError};
use crate::game::model::{
    active, distinct_names, flat_rolls, has_name, lemma_cyclic_successor, lemma_flat_rolls_push,
    lemma_name_index_unique, name_index, round_names, rolls_in_range, rolls_match_table,
    table_names,
};
use crate::game::model::{lemma_active_distinct, lemma_active_push};
use crate::game::state::{Betting, Called, NewRound, RoundState, UnfinishedRound};
use crate::player::Player;

verus! {

/// One player's hand for the duration of a round.
#[derive(Debug, PartialEq, Eq)]
pub struct PlayerRolls {
    pub player: Player,
    pub rolls: Vec<usize>,
}

impl PlayerRolls {
    /// Die faces are positive integers.
    pub open spec fn wf(self) -> bool {
        forall|i: int| 0 <= i < self.rolls@.len() ==> #[trigger] self.rolls@[i] >= 1
    }

    /// The same player with the same hand (hands compared by contents).
    pub open spec fn same(self, other: PlayerRolls) -> bool {
        self.player == other.player && self.rolls@ == other.rolls@
    }
}

impl Clone for PlayerRolls {
    fn clone(&self) -> (r: Self)
        ensures
            r.same(*self),
    {
        PlayerRolls { player: self.player.clone(), rolls: copy_rolls(&self.rolls) }
    }
}

/// One entry of a round's bet history.
#[derive(Debug, PartialEq, Eq)]
pub struct Turn {
    pub player: Player,
    pub bet: Bet,
}

impl Clone for Turn {
    fn clone(&self) -> (r: Self)
        ensures
            r == *self,
    {
        Turn { player: self.player.clone(), bet: self.bet }
    }
}

fn copy_rolls(v: &Vec<usize>) -> (r: Vec<usize>)
    ensures
        r@ == v@,
{
    let mut r: Vec<usize> = Vec::new();
    let mut i: usize = 0;
    while i < v.len()
        invariant
            i <= v@.len(),
            r@ == v@.take(i as int),
        decreases v@.len() - i,
    {
        r.push(v[i]);
        proof {
            assert(v@.take(i + 1) =~= v@.take(i as int).push(v@[i as int]));
        }
        i = i + 1;
    }
    proof {
        assert(v@.take(v@.len() as int) =~= v@);
    }
    r
}

/// Relies on rand's `Rng::gen_range` (through `thread_rng`): a uniform draw
/// from the inclusive range, which is nonempty since `max_roll >= 1`.
#[verifier::external_body]
fn roll_die(max_roll: usize) -> (r: usize)
    requires
        max_roll >= 1,
    ensures
        1 <= r <= max_roll,
{
    rand::thread_rng().gen_range(1..=max_roll)
}

/// Rolls a hand of `dice_count` independent dice with faces in
/// `1 ..= max_roll`.
fn roll_hand(dice_count: usize, max_roll: usize) -> (r: Vec<usize>)
    requires
        max_roll >= 1,
    ensures
        r@.len() == dice_count,
        forall|i: int| 0 <= i < r@.len() ==> 1 <= #[trigger] r@[i] <= max_roll,
{
    let mut r: Vec<usize> = Vec::new();
    let mut i: usize = 0;
    while i < dice_count
        invariant
            max_roll >= 1,
            i <= dice_count,
            r@.len() == i,
            forall|j: int| 0 <= j < r@.len() ==> 1 <= #[trigger] r@[j] <= max_roll,
        decreases dice_count - i,
    {
        r.push(roll_die(max_roll));
        i = i + 1;
    }
    r
}

/// Finds the entry of `p` in a roll table: the first index whose player has
/// the same name, which is the only one when names are distinct.
fn find_player(prs: &Vec<PlayerRolls>, p: &Player) -> (r: Option<usize>)
    ensures
        match r {
            Some(i) => i < prs@.len() && prs@[i as int].player@ == p@ && (distinct_names(
                round_names(prs@),
            ) ==> i == name_index(round_names(prs@), p@)),
            None => !has_name(round_names(prs@), p@),
        },
{
    let mut i: usize = 0;
    while i < prs.len()
        invariant
            i <= prs@.len(),
            forall|j: int| 0 <= j < i ==> round_names(prs@)[j] != p@,
        decreases prs@.len() - i,
    {
        let pr = &prs[i];
        if pr.player.eq(p) {
            proof {
                if distinct_names(round_names(prs@)) {
                    lemma_name_index_unique(round_names(prs@), p@, i as int);
                }
            }
            return Some(i);
        }
        i = i + 1;
    }
    None
}

/// The error of seeding a round with a designated first player who holds no
/// dice.
#[derive(Debug, Copy, Clone)]
pub struct FirstPlayerNotInGivenPlayers {}

/// A round, parameterized by its phase.
#[derive(Debug, PartialEq, Eq)]
pub struct Round<State: RoundState = NewRound> {
    pub players_rolls: Vec<PlayerRolls>,
    pub turns: Vec<Turn>,
    pub state_data: State,
}

impl<State: RoundState> Round<State> {
    /// The fixed per-round player table: nonempty, no two entries share a
    /// name, all die faces positive.
    pub open spec fn players_wf(self) -> bool {
        &&& self.players_rolls@.len() >= 1
        &&& distinct_names(round_names(self.players_rolls@))
        &&& forall|k: int|
            0 <= k < self.players_rolls@.len() ==> (#[trigger] self.players_rolls@[k]).wf()
    }

    pub fn state_data(&self) -> (r: &State)
        ensures
            r == &self.state_data,
    {
        &self.state_data
    }
}

impl<State: UnfinishedRound> Round<State> {
    /// The betting state after `turn`: the previous bet is `turn.bet` and
    /// the player due to act is the cyclic successor of `turn.player` in
    /// table order.
    fn init_next_state(&self, turn: &Turn) -> (r: Betting)
        requires
            self.players_wf(),
            has_name(round_names(self.players_rolls@), turn.player@),
        ensures
            r.prev_bet == turn.bet,
            r.curr_player_rolls.same(
                self.players_rolls@[(name_index(round_names(self.players_rolls@), turn.player@)
                    + 1) % (self.players_rolls@.len() as int)],
            ),
    {
        let i = match find_player(&self.players_rolls, &turn.player) {
            Some(i) => i,
            None => {
                proof {
                    assert(false);
                }
                vstd::pervasive::unreached()
            },
        };
        let n = self.players_rolls.len();
        let next_player_index = (i + 1) % n;
        proof {
            lemma_cyclic_successor(i as int, n as int);
        }
        let next_player_rolls = self.players_rolls[next_player_index].clone();
        Betting { curr_player_rolls: next_player_rolls, prev_bet: turn.bet }
    }
}

impl Round<NewRound> {
    /// Fresh-phase invariant: no turn yet, and the denormalized first
    /// player's entry is one of the table's entries.
    pub open spec fn wf(self) -> bool {
        &&& self.players_wf()
        &&& self.turns@.len() == 0
        &&& exists|k: int|
            0 <= k < self.players_rolls@.len() && self.state_data.first_player_rolls.same(
                #[trigger] self.players_rolls@[k],
            )
    }

    /// Builds a fresh round directly from already-rolled hands; the first
    /// player in table order acts first. This is the deterministic seam
    /// that `new` feeds with random hands.
    pub fn new_with_rolls(players_rolls: Vec<PlayerRolls>) -> (r: Round<NewRound>)
        requires
            players_rolls@.len() >= 1,
            distinct_names(round_names(players_rolls@)),
            forall|k: int| 0 <= k < players_rolls@.len() ==> (#[trigger] players_rolls@[k]).wf(),
        ensures
            r.players_rolls == players_rolls,
            r.turns@.len() == 0,
            r.state_data.first_player_rolls.same(players_rolls@[0]),
            r.wf(),
    {
        let first_player_rolls = players_rolls[0].clone();
        let r = Round {
            players_rolls,
            turns: Vec::new(),
            state_data: NewRound { first_player_rolls },
        };
        proof {
            assert(r.state_data.first_player_rolls.same(r.players_rolls@[0]));
        }
        r
    }

    /// Rolls a fresh hand for every player still holding dice, in table
    /// order; the first of them acts first.
    pub fn new(player_dice_counts: &Vec<(Player, usize)>, max_roll: usize) -> (r: Round<NewRound>)
        requires
            max_roll >= 1,
            distinct_names(table_names(player_dice_counts@)),
            active(player_dice_counts@).len() >= 1,
        ensures
            r.wf(),
            rolls_match_table(r.players_rolls@, player_dice_counts@),
            rolls_in_range(r.players_rolls@, max_roll),
            r.turns@.len() == 0,
            r.state_data.first_player_rolls.same(r.players_rolls@[0]),
    {
        let t = player_dice_counts;
        let mut prs: Vec<PlayerRolls> = Vec::new();
        let mut i: usize = 0;
        proof {
            reveal(Seq::filter);
            assert(t@.take(0) =~= Seq::<(Player, usize)>::empty());
        }
        while i < t.len()
            invariant
                max_roll >= 1,
                i <= t@.len(),
                prs@.len() == active(t@.take(i as int)).len(),
                forall|k: int|
                    0 <= k < prs@.len() ==> (#[trigger] prs@[k]).player@ == active(
                        t@.take(i as int),
                    )[k].0@ && prs@[k].rolls@.len() == active(t@.take(i as int))[k].1,
                rolls_in_range(prs@, max_roll),
            decreases t@.len() - i,
        {
            proof {
                assert(t@.take(i + 1) =~= t@.take(i as int).push(t@[i as int]));
                lemma_active_push(t@.take(i as int), t@[i as int]);
            }
            let e = &t[i];
            if e.1 != 0 {
                let rolls = roll_hand(e.1, max_roll);
                let pr = PlayerRolls { player: e.0.clone(), rolls };
                prs.push(pr);
            }
            i = i + 1;
        }
        proof {
            assert(t@.take(t@.len() as int) =~= t@);
            lemma_active_distinct(t@);
            assert forall|k1: int, k2: int|
                0 <= k1 < k2 < round_names(prs@).len() implies round_names(prs@)[k1] != round_names(
                prs@,
            )[k2] by {
                assert(round_names(prs@)[k1] == table_names(active(t@))[k1]);
                assert(round_names(prs@)[k2] == table_names(active(t@))[k2]);
            }
        }
        Self::new_with_rolls(prs)
    }

    /// Like `new`, but the designated player (normally the previous round's
    /// winner) acts first. Fails exactly when that player holds no dice.
    pub fn new_with_first_player(
        player_dice_counts: &Vec<(Player, usize)>,
        max_roll: usize,
        first_player: &Player,
    ) -> (r: Result<Round<NewRound>, FirstPlayerNotInGivenPlayers>)
        requires
            max_roll >= 1,
            distinct_names(table_names(player_dice_counts@)),
            active(player_dice_counts@).len() >= 1,
        ensures
            match r {
                Ok(rd) => {
                    &&& has_name(table_names(active(player_dice_counts@)), first_player@)
                    &&& rd.wf()
                    &&& rolls_match_table(rd.players_rolls@, player_dice_counts@)
                    &&& rolls_in_range(rd.players_rolls@, max_roll)
                    &&& rd.turns@.len() == 0
                    &&& rd.state_data.first_player_rolls.player@ == first_player@
                },
                Err(e) => !has_name(table_names(active(player_dice_counts@)), first_player@),
            },
    {
        let mut round = Self::new(player_dice_counts, max_roll);
        proof {
            assert(round_names(round.players_rolls@) =~= table_names(active(player_dice_counts@)));
        }
        match find_player(&round.players_rolls, first_player) {
            Some(i) => {
                round.state_data.first_player_rolls = round.players_rolls[i].clone();
                proof {
                    assert(round.state_data.first_player_rolls.same(
                        round.players_rolls@[i as int],
                    ));
                    assert(round_names(round.players_rolls@)[i as int] == first_player@);
                }
                Ok(round)
            },
            None => Err(FirstPlayerNotInGivenPlayers {}),
        }
    }

    /// The first bet of the round: unconditionally accepted, recorded as the
    /// first turn; play passes to the cyclic successor of the first player.
    pub fn raise_bet(self, bet: Bet) -> (r: Round<Betting>)
        requires
            self.wf(),
        ensures
            r.players_rolls == self.players_rolls,
            r.turns@ == self.turns@.push(
                Turn { player: self.state_data.first_player_rolls.player, bet },
            ),
            r.state_data.prev_bet == bet,
            r.wf(),
    {
        let turn = Turn { player: self.state_data.first_player_rolls.player.clone(), bet };
        proof {
            let k = choose|k: int|
                0 <= k < self.players_rolls@.len() && self.state_data.first_player_rolls.same(
                    #[trigger] self.players_rolls@[k],
                );
            assert(round_names(self.players_rolls@)[k] == turn.player@);
        }
        let state_data = self.init_next_state(&turn);
        let mut turns = self.turns;
        turns.push(turn);
        Round { players_rolls: self.players_rolls, turns, state_data }
    }
}

impl Round<Betting> {
    /// Betting-phase invariant: at least one turn was taken, the stored
    /// previous bet is the last turn's bet, and the player due to act is
    /// the cyclic successor of the last better.
    pub open spec fn wf(self) -> bool {
        &&& self.players_wf()
        &&& self.turns@.len() >= 1
        &&& self.state_data.prev_bet == self.turns@.last().bet
        &&& has_name(round_names(self.players_rolls@), self.turns@.last().player@)
        &&& self.state_data.curr_player_rolls.same(
            self.players_rolls@[(name_index(
                round_names(self.players_rolls@),
                self.turns@.last().player@,
            ) + 1) % (self.players_rolls@.len() as int)],
        )
    }

    /// Whether the current claim is false of all rolls of this round,
    /// flattened in table order.
    fn is_fluff(&self) -> (r: bool)
        ensures
            r == self.state_data.prev_bet.spec_is_fluff(flat_rolls(self.players_rolls@)),
    {
        let mut all: Vec<usize> = Vec::new();
        let mut k: usize = 0;
        proof {
            assert(self.players_rolls@.take(0) =~= Seq::<PlayerRolls>::empty());
        }
        while k < self.players_rolls.len()
            invariant
                k <= self.players_rolls@.len(),
                all@ == flat_rolls(self.players_rolls@.take(k as int)),
            decreases self.players_rolls@.len() - k,
        {
            let pr = &self.players_rolls[k];
            let mut j: usize = 0;
            while j < pr.rolls.len()
                invariant
                    j <= pr.rolls@.len(),
                    all@ == flat_rolls(self.players_rolls@.take(k as int)) + pr.rolls@.take(
                        j as int,
                    ),
                decreases pr.rolls@.len() - j,
            {
                all.push(pr.rolls[j]);
                proof {
                    assert(pr.rolls@.take(j + 1) =~= pr.rolls@.take(j as int).push(
                        pr.rolls@[j as int],
                    ));
                }
                j = j + 1;
            }
            proof {
                assert(pr.rolls@.take(pr.rolls@.len() as int) =~= pr.rolls@);
                lemma_flat_rolls_push(self.players_rolls@.take(k as int), self.players_rolls@[k as int]);
                assert(self.players_rolls@.take(k + 1) =~= self.players_rolls@.take(
                    k as int,
                ).push(self.players_rolls@[k as int]));
            }
            k = k + 1;
        }
        proof {
            assert(self.players_rolls@.take(self.players_rolls@.len() as int)
                =~= self.players_rolls@);
        }
        self.state_data.prev_bet.is_fluff(&all)
    }

    /// A raise during betting: checked against the previous bet; on success
    /// the turn is recorded and play advances, on failure nothing changes.
    pub fn raise_bet(&mut self, bet: Bet) -> (r: Result<(), RaiseError>)
        requires
            old(self).wf(),
        ensures
            r == bet.raise_outcome(old(self).state_data.prev_bet),
            r is Ok ==> {
                &&& final(self).players_rolls == old(self).players_rolls
                &&& final(self).turns@ == old(self).turns@.push(
                    Turn { player: old(self).state_data.curr_player_rolls.player, bet },
                )
                &&& final(self).state_data.prev_bet == bet
                &&& final(self).wf()
            },
            r is Err ==> *final(self) == *old(self),
    {
        match bet.is_raised_from(&self.state_data.prev_bet) {
            Err(e) => Err(e),
            Ok(()) => {
                let turn = Turn { player: self.state_data.curr_player_rolls.player.clone(), bet };
                proof {
                    let ns = round_names(self.players_rolls@);
                    let idx = (name_index(ns, self.turns@.last().player@) + 1) % (
                    self.players_rolls@.len() as int);
                    assert(ns[idx] == turn.player@);
                }
                let next = self.init_next_state(&turn);
                self.state_data = next;
                self.turns.push(turn);
                Ok(())
            },
        }
    }

    /// Resolves the round: the player due to act challenges the last bet.
    /// The verdict records the challenger, the last better, and whether the
    /// claim was false of all rolls.
    pub fn call_fluff(self) -> (r: Round<Called>)
        requires
            self.wf(),
        ensures
            r.players_rolls == self.players_rolls,
            r.turns == self.turns,
            r.state_data.caller == self.state_data.curr_player_rolls.player,
            r.state_data.better == self.turns@.last().player,
            r.state_data.was_fluff == self.state_data.prev_bet.spec_is_fluff(
                flat_rolls(self.players_rolls@),
            ),
            r.wf(),
    {
        let was_fluff = self.is_fluff();
        let caller = self.state_data.curr_player_rolls.player.clone();
        let last_index = self.turns.len() - 1;
        let better = self.turns[last_index].player.clone();
        proof {
            let ns = round_names(self.players_rolls@);
            let idx = (name_index(ns, self.turns@.last().player@) + 1) % (
            self.players_rolls@.len() as int);
            assert(ns[idx] == caller@);
        }
        Round {
            players_rolls: self.players_rolls,
            turns: self.turns,
            state_data: Called { caller, better, was_fluff },
        }
    }
}

impl Round<Called> {
    /// Resolved-phase invariant: the verdict names players of this round.
    pub open spec fn wf(self) -> bool {
        &&& self.players_wf()
        &&& self.turns@.len() >= 1
        &&& has_name(round_names(self.players_rolls@), self.state_data.caller@)
        &&& has_name(round_names(self.players_rolls@), self.state_data.better@)
    }

    /// The full bet history of the resolved round.
    pub fn turns(&self) -> (r: &Vec<Turn>)
        ensures
            r == &self.turns,
    {
        &self.turns
    }

    /// Every player's hand, opened for audit once the round is resolved.
    pub fn players_rolls(&self) -> (r: &Vec<PlayerRolls>)
        ensures
            r == &self.players_rolls,
    {
        &self.players_rolls
    }
}

} // verus!
