//! The outer game state machine: per-player remaining dice counts, the
//! configuration, the history of resolved rounds, and either the round in
//! progress or the declared winner.

use vstd::prelude::*;

pub use round::Round;

use crate::bet::{Bet, RaiseError};
use crate::game::model::{
    active, distinct_names, flat_rolls, has_name, lemma_active_all_nonzero, lemma_active_has_name,
    lemma_elimination_counts, lemma_name_index_in_bounds, lemma_name_index_unique,
    lemma_zero_count_not_active, name_index, player_names, round_names, rolls_in_range,
    rolls_match_table, table_names,
};
use crate::game::round::Turn;
use crate::game::state::{Betting, Called, GameOver, GameState, InRound, NewRound, RoundState};
use crate::player::Player;

pub mod model;
pub mod round;
pub mod state;

verus! {

/// Fixed configuration of a game: every player starts with `max_dice` dice,
/// and each die shows a face in `1 ..= max_roll`.
#[derive(Debug, PartialEq, Eq, Copy, Clone, Structural)]
pub struct GameConfig {
    pub max_dice: usize,
    pub max_roll: usize,
}

impl GameConfig {
    /// Both parameters are positive integers.
    pub open spec fn wf(self) -> bool {
        &&& self.max_dice >= 1
        &&& self.max_roll >= 1
    }
}

impl Default for GameConfig {
    /// The conventional game: five dice per player, six-sided dice.
    fn default() -> (r: Self)
        ensures
            r == (GameConfig { max_dice: 5, max_roll: 6 }),
    {
        GameConfig { max_dice: 5, max_roll: 6 }
    }
}

/// A game, parameterized by its phase.
#[derive(Debug, PartialEq, Eq)]
pub struct Game<State: GameState = InRound<NewRound>> {
    pub player_dice_counts: Vec<(Player, usize)>,
    pub config: GameConfig,
    pub round_history: Vec<Round<Called>>,
    pub state_data: State,
}

/// The parts of the game invariant that do not depend on the phase.
pub open spec fn game_base_wf<State: GameState>(g: Game<State>) -> bool {
    &&& g.config.wf()
    &&& g.player_dice_counts@.len() >= 1
    &&& distinct_names(table_names(g.player_dice_counts@))
}

/// The round in progress was rolled for exactly the players still holding
/// dice, in table order, with hands of the recorded sizes and faces within
/// the configured range.
pub open spec fn round_fits_game<S: RoundState>(rd: Round<S>, g: Game<InRound<S>>) -> bool {
    &&& rolls_match_table(rd.players_rolls@, g.player_dice_counts@)
    &&& rolls_in_range(rd.players_rolls@, g.config.max_roll)
}

impl Game<InRound<NewRound>> {
    pub open spec fn wf(self) -> bool {
        &&& game_base_wf(self)
        &&& self.state_data.curr_round.wf()
        &&& round_fits_game(self.state_data.curr_round, self)
    }

    /// Starts a game: every player begins with `config.max_dice` dice, and
    /// the first round is rolled immediately, the first listed player to
    /// act first.
    pub fn new(players: Vec<Player>, config: GameConfig) -> (r: Game<InRound<NewRound>>)
        requires
            players@.len() >= 1,
            distinct_names(player_names(players@)),
            config.wf(),
        ensures
            r.config == config,
            r.round_history@.len() == 0,
            r.player_dice_counts@.len() == players@.len(),
            forall|i: int|
                0 <= i < players@.len() ==> (#[trigger] r.player_dice_counts@[i]).0 == players@[i]
                    && r.player_dice_counts@[i].1 == config.max_dice,
            r.state_data.curr_round.players_rolls@.len() == players@.len(),
            forall|i: int|
                0 <= i < players@.len() ==> (#[trigger] r.state_data.curr_round.players_rolls@[i]).player@
                    == players@[i]@ && r.state_data.curr_round.players_rolls@[i].rolls@.len()
                    == config.max_dice,
            r.state_data.curr_round.state_data.first_player_rolls.player@ == players@[0]@,
            r.wf(),
    {
        let mut table: Vec<(Player, usize)> = Vec::new();
        let mut i: usize = 0;
        while i < players.len()
            invariant
                i <= players@.len(),
                table@.len() == i,
                forall|j: int|
                    0 <= j < i ==> (#[trigger] table@[j]).0 == players@[j] && table@[j].1
                        == config.max_dice,
            decreases players@.len() - i,
        {
            let p = players[i].clone();
            table.push((p, config.max_dice));
            i = i + 1;
        }
        proof {
            assert forall|k1: int, k2: int|
                0 <= k1 < k2 < table_names(table@).len() implies table_names(table@)[k1]
                != table_names(table@)[k2] by {
                assert(table_names(table@)[k1] == player_names(players@)[k1]);
                assert(table_names(table@)[k2] == player_names(players@)[k2]);
            }
            lemma_active_all_nonzero(table@);
        }
        let curr_round = Round::new(&table, config.max_roll);
        Game {
            player_dice_counts: table,
            config,
            round_history: Vec::new(),
            state_data: InRound { curr_round },
        }
    }
}

impl<T: GameState> Game<T> {
    /// All rounds resolved so far, oldest first.
    pub fn round_history(&self) -> (r: &Vec<Round<Called>>)
        ensures
            r == &self.round_history,
    {
        &self.round_history
    }

    /// The full dice-count table, in turn order.
    pub fn player_dice_counts(&self) -> (r: &Vec<(Player, usize)>)
        ensures
            r == &self.player_dice_counts,
    {
        &self.player_dice_counts
    }
}

impl<T: RoundState> Game<InRound<T>> {
    /// The round in progress.
    pub fn curr_round(&self) -> (r: &Round<T>)
        ensures
            r == &self.state_data.curr_round,
    {
        &self.state_data.curr_round
    }
}

impl Game<InRound<NewRound>> {
    /// The first bet of the round; always legal, consumes the fresh-phase
    /// game and yields the betting-phase game.
    pub fn raise_bet(self, bet: Bet) -> (r: Game<InRound<Betting>>)
        requires
            self.wf(),
        ensures
            r.player_dice_counts == self.player_dice_counts,
            r.config == self.config,
            r.round_history == self.round_history,
            r.state_data.curr_round.players_rolls == self.state_data.curr_round.players_rolls,
            r.state_data.curr_round.turns@ == self.state_data.curr_round.turns@.push(
                Turn {
                    player: self.state_data.curr_round.state_data.first_player_rolls.player,
                    bet,
                },
            ),
            r.state_data.curr_round.state_data.prev_bet == bet,
            r.wf(),
    {
        Game {
            player_dice_counts: self.player_dice_counts,
            config: self.config,
            round_history: self.round_history,
            state_data: InRound { curr_round: self.state_data.curr_round.raise_bet(bet) },
        }
    }
}

/// The outcome of resolving a challenge: either the next round is ready, or
/// the game is over.
pub enum FluffCallTransition {
    NextRound(Game<InRound<NewRound>>),
    GameOver(Game<GameOver>),
}

impl From<Game<InRound<NewRound>>> for FluffCallTransition {
    fn from(value: Game<InRound<NewRound>>) -> (r: Self) {
        FluffCallTransition::NextRound(value)
    }
}

impl vstd::std_specs::convert::FromSpecImpl<Game<InRound<NewRound>>> for FluffCallTransition {
    open spec fn obeys_from_spec() -> bool {
        true
    }

    open spec fn from_spec(v: Game<InRound<NewRound>>) -> Self {
        FluffCallTransition::NextRound(v)
    }
}

impl From<Game<GameOver>> for FluffCallTransition {
    fn from(value: Game<GameOver>) -> (r: Self) {
        FluffCallTransition::GameOver(value)
    }
}

impl vstd::std_specs::convert::FromSpecImpl<Game<GameOver>> for FluffCallTransition {
    open spec fn obeys_from_spec() -> bool {
        true
    }

    open spec fn from_spec(v: Game<GameOver>) -> Self {
        FluffCallTransition::GameOver(v)
    }
}

/// The value a betting-phase round resolves to on a challenge.
pub open spec fn resolved_round_of(rd: Round<Betting>) -> Round<Called> {
    Round::<Called> {
        players_rolls: rd.players_rolls,
        turns: rd.turns,
        state_data: (Called {
            caller: rd.state_data.curr_player_rolls.player,
            better: rd.turns@.last().player,
            was_fluff: rd.state_data.prev_bet.spec_is_fluff(flat_rolls(rd.players_rolls@)),
        }),
    }
}

/// The table position of the player who loses a die when the game's current
/// round is challenged.
pub open spec fn loser_index(g: Game<InRound<Betting>>) -> int {
    name_index(
        table_names(g.player_dice_counts@),
        resolved_round_of(g.state_data.curr_round).state_data.spec_loser()@,
    )
}

/// The dice-count table after the loser of the challenge gives up one die.
pub open spec fn table_after_loss(g: Game<InRound<Betting>>) -> Seq<(Player, usize)> {
    let t = g.player_dice_counts@;
    let li = loser_index(g);
    t.update(li, (t[li].0, (t[li].1 - 1) as usize))
}

/// Whether resolving the challenge ends the game: the loser ran out of dice
/// and exactly one player still holds any.
pub open spec fn game_over_after(g: Game<InRound<Betting>>) -> bool {
    &&& table_after_loss(g)[loser_index(g)].1 == 0
    &&& active(table_after_loss(g)).len() == 1
}

/// What `Game::call_fluff` guarantees: the current round resolves, the
/// loser's dice count drops by one, the resolved round is appended to the
/// history, and the game either ends with the round's winner or continues
/// with a fresh round in which the winner acts first.
pub open spec fn call_fluff_post(pre: Game<InRound<Betting>>, r: FluffCallTransition) -> bool {
    let rd = resolved_round_of(pre.state_data.curr_round);
    let nt = table_after_loss(pre);
    match r {
        FluffCallTransition::GameOver(g) => {
            &&& game_over_after(pre)
            &&& g.player_dice_counts@ == nt
            &&& g.config == pre.config
            &&& g.round_history@ == pre.round_history@.push(rd)
            &&& g.state_data.winner == rd.state_data.spec_winner()
            &&& g.wf()
        },
        FluffCallTransition::NextRound(g) => {
            &&& !game_over_after(pre)
            &&& g.player_dice_counts@ == nt
            &&& g.config == pre.config
            &&& g.round_history@ == pre.round_history@.push(rd)
            &&& rolls_match_table(g.state_data.curr_round.players_rolls@, nt)
            &&& g.state_data.curr_round.state_data.first_player_rolls.player@
                == rd.state_data.spec_winner()@
            &&& g.wf()
        },
    }
}

impl Game<GameOver> {
    pub open spec fn wf(self) -> bool {
        &&& game_base_wf(self)
        &&& has_name(table_names(self.player_dice_counts@), self.state_data.winner@)
    }
}

/// Finds the table entry of `p`: the index whose player has the same name.
fn find_in_table(t: &Vec<(Player, usize)>, p: &Player) -> (r: usize)
    requires
        distinct_names(table_names(t@)),
        has_name(table_names(t@), p@),
    ensures
        r < t@.len(),
        t@[r as int].0@ == p@,
        r as int == name_index(table_names(t@), p@),
{
    let mut i: usize = 0;
    while i < t.len()
        invariant
            i <= t@.len(),
            distinct_names(table_names(t@)),
            forall|j: int| 0 <= j < i ==> table_names(t@)[j] != p@,
        decreases t@.len() - i,
    {
        let e = &t[i];
        if e.0.eq(p) {
            proof {
                lemma_name_index_unique(table_names(t@), p@, i as int);
            }
            return i;
        }
        i = i + 1;
    }
    proof {
        let k = choose|k: int| 0 <= k < table_names(t@).len() && table_names(t@)[k] == p@;
        assert(false);
    }
    vstd::pervasive::unreached()
}

/// How many players still hold dice.
fn count_active(t: &Vec<(Player, usize)>) -> (r: usize)
    ensures
        r == active(t@).len(),
{
    let mut c: usize = 0;
    let mut i: usize = 0;
    proof {
        reveal(Seq::filter);
        assert(t@.take(0) =~= Seq::<(Player, usize)>::empty());
    }
    while i < t.len()
        invariant
            i <= t@.len(),
            c == active(t@.take(i as int)).len(),
            c <= i,
        decreases t@.len() - i,
    {
        proof {
            assert(t@.take(i + 1) =~= t@.take(i as int).push(t@[i as int]));
            crate::game::model::lemma_active_push(t@.take(i as int), t@[i as int]);
        }
        let e = &t[i];
        if e.1 != 0 {
            c = c + 1;
        }
        i = i + 1;
    }
    proof {
        assert(t@.take(t@.len() as int) =~= t@);
    }
    c
}

/// The loser of the game's current round holds a seat in the dice-count
/// table and at least one die.
pub proof fn lemma_loser_in_table(g: Game<InRound<Betting>>)
    requires
        g.wf(),
    ensures
        0 <= loser_index(g) < g.player_dice_counts@.len(),
        g.player_dice_counts@[loser_index(g)].0@ == resolved_round_of(
            g.state_data.curr_round,
        ).state_data.spec_loser()@,
        g.player_dice_counts@[loser_index(g)].1 >= 1,
{
    let rd = g.state_data.curr_round;
    let loser = resolved_round_of(rd).state_data.spec_loser();
    lemma_caller_better_present(g);
    lemma_player_of_round_in_table(g, loser@);
}

/// Any name present in the current round's table is present in the game's
/// dice-count table with a nonzero count, at the table position the name
/// indexes.
pub proof fn lemma_player_of_round_in_table(g: Game<InRound<Betting>>, n: Seq<char>)
    requires
        g.wf(),
        has_name(round_names(g.state_data.curr_round.players_rolls@), n),
    ensures
        0 <= name_index(table_names(g.player_dice_counts@), n) < g.player_dice_counts@.len(),
        g.player_dice_counts@[name_index(table_names(g.player_dice_counts@), n)].0@ == n,
        g.player_dice_counts@[name_index(table_names(g.player_dice_counts@), n)].1 >= 1,
{
    let rd = g.state_data.curr_round;
    let prs = rd.players_rolls@;
    let t = g.player_dice_counts@;
    let k = choose|k: int| 0 <= k < round_names(prs).len() && round_names(prs)[k] == n;
    assert(table_names(active(t))[k] == n);
    lemma_active_has_name(t, n);
    let i = choose|i: int| 0 <= i < t.len() && (#[trigger] t[i]).0@ == n && t[i].1 != 0;
    lemma_name_index_unique(table_names(t), n, i);
}

/// In the current round, the challenger and the last better are names of
/// round players, and with two or more players they differ.
pub proof fn lemma_caller_better_present(g: Game<InRound<Betting>>)
    requires
        g.wf(),
    ensures
        has_name(
            round_names(g.state_data.curr_round.players_rolls@),
            resolved_round_of(g.state_data.curr_round).state_data.caller@,
        ),
        has_name(
            round_names(g.state_data.curr_round.players_rolls@),
            resolved_round_of(g.state_data.curr_round).state_data.better@,
        ),
        g.state_data.curr_round.players_rolls@.len() >= 2 ==> resolved_round_of(
            g.state_data.curr_round,
        ).state_data.caller@ != resolved_round_of(g.state_data.curr_round).state_data.better@,
{
    let rd = g.state_data.curr_round;
    let prs = rd.players_rolls@;
    let ns = round_names(prs);
    let n = prs.len() as int;
    let better = rd.turns@.last().player;
    let bi = name_index(ns, better@);
    lemma_name_index_in_bounds(ns, better@);
    let ci = (bi + 1) % n;
    crate::game::model::lemma_cyclic_successor(bi, n);
    assert(ns[ci] == rd.state_data.curr_player_rolls.player@);
}

impl Game<InRound<Betting>> {
    pub open spec fn wf(self) -> bool {
        &&& game_base_wf(self)
        &&& self.state_data.curr_round.wf()
        &&& round_fits_game(self.state_data.curr_round, self)
    }

    /// A raise during betting, delegated to the round in progress: on
    /// success the turn is recorded and play advances, on failure the game
    /// is unchanged and the reason is reported.
    pub fn raise_bet(&mut self, bet: Bet) -> (r: Result<(), RaiseError>)
        requires
            old(self).wf(),
        ensures
            r == bet.raise_outcome(old(self).state_data.curr_round.state_data.prev_bet),
            r is Ok ==> {
                &&& final(self).player_dice_counts == old(self).player_dice_counts
                &&& final(self).config == old(self).config
                &&& final(self).round_history == old(self).round_history
                &&& final(self).state_data.curr_round.players_rolls == old(
                    self,
                ).state_data.curr_round.players_rolls
                &&& final(self).state_data.curr_round.turns@ == old(
                    self,
                ).state_data.curr_round.turns@.push(
                    Turn {
                        player: old(
                            self,
                        ).state_data.curr_round.state_data.curr_player_rolls.player,
                        bet,
                    },
                )
                &&& final(self).state_data.curr_round.state_data.prev_bet == bet
                &&& final(self).wf()
            },
            r is Err ==> *final(self) == *old(self),
    {
        let r = self.state_data.curr_round.raise_bet(bet);
        r
    }

    /// Resolves the round by a challenge from the player due to act: the
    /// loser of the verdict gives up a die; the game either ends with the
    /// round's winner, or a fresh round is rolled in which the winner acts
    /// first. Requires at least two players in the round, which every
    /// multi-player game maintains.
    pub fn call_fluff(self) -> (r: FluffCallTransition)
        requires
            self.wf(),
            self.state_data.curr_round.players_rolls@.len() >= 2,
        ensures
            call_fluff_post(self, r),
    {
        let ghost pre = self;
        proof {
            lemma_loser_in_table(pre);
            lemma_caller_better_present(pre);
        }
        let Game { player_dice_counts, config, round_history, state_data } = self;
        let finished_round = state_data.curr_round.call_fluff();
        proof {
            assert(finished_round == resolved_round_of(pre.state_data.curr_round));
        }
        let winner = finished_round.state_data().winner().clone();
        let loser = finished_round.state_data().loser().clone();
        let mut table = player_dice_counts;
        proof {
            assert(table_names(table@)[loser_index(pre)] == loser@);
        }
        let li = find_in_table(&table, &loser);
        let entry = &table[li];
        let new_count = entry.1 - 1;
        let kept_player = entry.0.clone();
        table.set(li, (kept_player, new_count));
        proof {
            assert(table@ =~= table_after_loss(pre));
            assert(table_names(table@) =~= table_names(pre.player_dice_counts@));
        }
        let mut round_history = round_history;
        round_history.push(finished_round);
        let n_active = count_active(&table);
        proof {
            // The winner keeps a seat with dice in the updated table.
            lemma_player_of_round_in_table(pre, winner@);
            let t = pre.player_dice_counts@;
            let wi = name_index(table_names(t), winner@);
            assert(winner@ != loser@);
            assert(wi != li as int) by {
                if wi == li as int {
                    assert(t[wi].0@ == winner@ && t[li as int].0@ == loser@);
                }
            }
            assert(table@[wi] == t[wi]);
            assert(table_names(table@)[wi] == winner@);
            lemma_active_has_name(table@, winner@);
            assert(has_name(table_names(active(table@)), winner@));
            lemma_name_index_in_bounds(table_names(active(table@)), winner@);
        }
        if new_count == 0 && n_active == 1 {
            FluffCallTransition::GameOver(
                Game {
                    player_dice_counts: table,
                    config,
                    round_history,
                    state_data: GameOver { winner },
                },
            )
        } else {
            let new_round = match Round::new_with_first_player(&table, config.max_roll, &winner) {
                Ok(rd) => rd,
                Err(_) => {
                    proof {
                        assert(false);
                    }
                    vstd::pervasive::unreached()
                },
            };
            FluffCallTransition::NextRound(
                Game {
                    player_dice_counts: table,
                    config,
                    round_history,
                    state_data: InRound { curr_round: new_round },
                },
            )
        }
    }
}

/// A challenge that does not end the game hands back a round that can be
/// played on: at least two players still hold dice in it.
pub proof fn lemma_next_round_playable(pre: Game<InRound<Betting>>, g: Game<InRound<NewRound>>)
    requires
        pre.wf(),
        pre.state_data.curr_round.players_rolls@.len() >= 2,
        call_fluff_post(pre, FluffCallTransition::NextRound(g)),
    ensures
        g.state_data.curr_round.players_rolls@.len() >= 2,
{
    let t = pre.player_dice_counts@;
    let li = loser_index(pre);
    let nt = table_after_loss(pre);
    lemma_loser_in_table(pre);
    lemma_elimination_counts(t, li);
    if t[li].1 == 1 {
        assert(active(nt).len() == active(t).len() - 1);
        assert(active(nt).len() != 1);
    } else {
        assert(active(nt).len() == active(t).len());
    }
}

/// Eliminating the last die of one of exactly two players with dice ends
/// the game at once: after the loss only one player holds dice.
pub proof fn lemma_two_player_elimination_ends_game(g: Game<InRound<Betting>>)
    requires
        g.wf(),
        active(g.player_dice_counts@).len() == 2,
        g.player_dice_counts@[loser_index(g)].1 == 1,
    ensures
        game_over_after(g),
{
    lemma_loser_in_table(g);
    lemma_elimination_counts(g.player_dice_counts@, loser_index(g));
}

/// With three or more players holding dice, one elimination does not end
/// the game, and the eliminated player is excluded from the following
/// round's table.
pub proof fn lemma_elimination_with_three_or_more(g: Game<InRound<Betting>>)
    requires
        g.wf(),
        active(g.player_dice_counts@).len() >= 3,
        g.player_dice_counts@[loser_index(g)].1 == 1,
    ensures
        !game_over_after(g),
        !has_name(
            table_names(active(table_after_loss(g))),
            resolved_round_of(g.state_data.curr_round).state_data.spec_loser()@,
        ),
{
    lemma_loser_in_table(g);
    lemma_elimination_counts(g.player_dice_counts@, loser_index(g));
    let nt = table_after_loss(g);
    assert forall|k1: int, k2: int|
        0 <= k1 < k2 < table_names(nt).len() implies table_names(nt)[k1] != table_names(nt)[k2] by {
        assert(table_names(nt)[k1] == table_names(g.player_dice_counts@)[k1]);
        assert(table_names(nt)[k2] == table_names(g.player_dice_counts@)[k2]);
    }
    lemma_zero_count_not_active(nt, loser_index(g));
}

} // verus!
