//! A serialized snapshot form of games, rounds, bets and players: a flat
//! stream of machine words. Encoding is exact: decoding an encoded value
//! yields a value structurally equal to the original, with the player
//! tables in their original order and the full turn history.
//!
//! Every decoder states both directions as its contract: whatever it
//! returns, the consumed tokens are exactly the encoding of the returned
//! value; and whenever the stream starts with the encoding of a value, that
//! value is returned.

use vstd::prelude::*;

use crate::bet::Bet;
use crate::game::round::{PlayerRolls, Round, Turn};
use crate::game::state::{Betting, Called, GameOver, InRound, NewRound};
use crate::game::{Game, GameConfig};
use crate::player::Player;

verus! {

// ---------------------------------------------------------------------
// Models: the view-level value of each encodable type.
// ---------------------------------------------------------------------

/// A hand: the player's name and the rolled faces.
pub type PrModel = (Seq<char>, Seq<usize>);

/// A turn: the acting player's name and the bet made.
pub type TurnModel = (Seq<char>, Bet);

/// A challenge outcome: who challenged, who made the last bet, and whether
/// that claim was false.
pub type CalledModel = (Seq<char>, Seq<char>, bool);

/// A resolved round: hands, turn history, verdict.
pub type RoundCalledModel = (Seq<PrModel>, Seq<TurnModel>, CalledModel);

/// One dice-count table entry: a name and the dice the player holds.
pub type EntryModel = (Seq<char>, usize);

pub open spec fn pr_model(pr: PlayerRolls) -> PrModel {
    (pr.player@, pr.rolls@)
}

pub open spec fn turn_model(t: Turn) -> TurnModel {
    (t.player@, t.bet)
}

pub open spec fn called_model(c: Called) -> CalledModel {
    (c.caller@, c.better@, c.was_fluff)
}

pub open spec fn prs_model(prs: Seq<PlayerRolls>) -> Seq<PrModel> {
    prs.map_values(|pr: PlayerRolls| pr_model(pr))
}

pub open spec fn turns_model(ts: Seq<Turn>) -> Seq<TurnModel> {
    ts.map_values(|t: Turn| turn_model(t))
}

pub open spec fn round_called_model(rd: Round<Called>) -> RoundCalledModel {
    (prs_model(rd.players_rolls@), turns_model(rd.turns@), called_model(rd.state_data))
}

pub open spec fn rounds_model(rds: Seq<Round<Called>>) -> Seq<RoundCalledModel> {
    rds.map_values(|rd: Round<Called>| round_called_model(rd))
}

pub open spec fn table_model(t: Seq<(Player, usize)>) -> Seq<EntryModel> {
    t.map_values(|e: (Player, usize)| (e.0@, e.1))
}

/// A fresh-phase round: hands, turn history, the first player's entry.
pub type RoundNewModel = (Seq<PrModel>, Seq<TurnModel>, PrModel);

/// A betting-phase round: hands, turn history, the current player's entry
/// and the bet to beat.
pub type RoundBettingModel = (Seq<PrModel>, Seq<TurnModel>, (PrModel, Bet));

pub open spec fn round_new_model(rd: Round<NewRound>) -> RoundNewModel {
    (
        prs_model(rd.players_rolls@),
        turns_model(rd.turns@),
        pr_model(rd.state_data.first_player_rolls),
    )
}

pub open spec fn round_betting_model(rd: Round<Betting>) -> RoundBettingModel {
    (
        prs_model(rd.players_rolls@),
        turns_model(rd.turns@),
        (pr_model(rd.state_data.curr_player_rolls), rd.state_data.prev_bet),
    )
}

/// A game with a freshly rolled round.
pub type GameNewModel = (Seq<EntryModel>, GameConfig, Seq<RoundCalledModel>, RoundNewModel);

/// A game with betting in progress.
pub type GameBettingModel = (Seq<EntryModel>, GameConfig, Seq<RoundCalledModel>, RoundBettingModel);

/// A finished game: the winner's name closes it.
pub type GameOverModel = (Seq<EntryModel>, GameConfig, Seq<RoundCalledModel>, Seq<char>);

pub open spec fn game_new_model(g: Game<InRound<NewRound>>) -> GameNewModel {
    (
        table_model(g.player_dice_counts@),
        g.config,
        rounds_model(g.round_history@),
        round_new_model(g.state_data.curr_round),
    )
}

pub open spec fn game_betting_model(g: Game<InRound<Betting>>) -> GameBettingModel {
    (
        table_model(g.player_dice_counts@),
        g.config,
        rounds_model(g.round_history@),
        round_betting_model(g.state_data.curr_round),
    )
}

pub open spec fn game_over_model(g: Game<GameOver>) -> GameOverModel {
    (
        table_model(g.player_dice_counts@),
        g.config,
        rounds_model(g.round_history@),
        g.state_data.winner@,
    )
}

// ---------------------------------------------------------------------
// Size bounds: what must fit in one machine word for the length prefixes.
// ---------------------------------------------------------------------

pub open spec fn name_ok(n: Seq<char>) -> bool {
    n.len() <= usize::MAX
}

pub open spec fn rolls_ok(rs: Seq<usize>) -> bool {
    rs.len() <= usize::MAX
}

pub open spec fn pr_ok(m: PrModel) -> bool {
    name_ok(m.0) && rolls_ok(m.1)
}

pub open spec fn turn_ok(m: TurnModel) -> bool {
    name_ok(m.0)
}

pub open spec fn called_ok(m: CalledModel) -> bool {
    name_ok(m.0) && name_ok(m.1)
}

pub open spec fn prs_ok(ms: Seq<PrModel>) -> bool {
    ms.len() <= usize::MAX && forall|k: int| 0 <= k < ms.len() ==> pr_ok(#[trigger] ms[k])
}

pub open spec fn turns_ok(ms: Seq<TurnModel>) -> bool {
    ms.len() <= usize::MAX && forall|k: int| 0 <= k < ms.len() ==> turn_ok(#[trigger] ms[k])
}

pub open spec fn round_called_ok(m: RoundCalledModel) -> bool {
    prs_ok(m.0) && turns_ok(m.1) && called_ok(m.2)
}

pub open spec fn rounds_ok(ms: Seq<RoundCalledModel>) -> bool {
    ms.len() <= usize::MAX && forall|k: int| 0 <= k < ms.len() ==> round_called_ok(#[trigger] ms[k])
}

pub open spec fn entry_ok(m: EntryModel) -> bool {
    name_ok(m.0)
}

pub open spec fn table_ok(ms: Seq<EntryModel>) -> bool {
    ms.len() <= usize::MAX && forall|k: int| 0 <= k < ms.len() ==> entry_ok(#[trigger] ms[k])
}

pub open spec fn round_new_ok(m: RoundNewModel) -> bool {
    prs_ok(m.0) && turns_ok(m.1) && pr_ok(m.2)
}

pub open spec fn round_betting_ok(m: RoundBettingModel) -> bool {
    prs_ok(m.0) && turns_ok(m.1) && pr_ok(m.2.0)
}

pub open spec fn game_new_ok(m: GameNewModel) -> bool {
    table_ok(m.0) && rounds_ok(m.2) && round_new_ok(m.3)
}

pub open spec fn game_betting_ok(m: GameBettingModel) -> bool {
    table_ok(m.0) && rounds_ok(m.2) && round_betting_ok(m.3)
}

pub open spec fn game_over_ok(m: GameOverModel) -> bool {
    table_ok(m.0) && rounds_ok(m.2) && name_ok(m.3)
}

// ---------------------------------------------------------------------
// Encodings.
// ---------------------------------------------------------------------

pub open spec fn enc_num(x: usize) -> Seq<usize> {
    seq![x]
}

pub open spec fn enc_bool(b: bool) -> Seq<usize> {
    if b {
        seq![1usize]
    } else {
        seq![0usize]
    }
}

/// The token a character is carried as: its code point.
pub open spec fn char_token(c: char) -> usize {
    (c as u32) as usize
}

pub open spec fn name_tokens(n: Seq<char>) -> Seq<usize> {
    n.map_values(|c: char| char_token(c))
}

pub open spec fn enc_name(n: Seq<char>) -> Seq<usize> {
    seq![n.len() as usize] + name_tokens(n)
}

pub open spec fn enc_rolls(rs: Seq<usize>) -> Seq<usize> {
    seq![rs.len() as usize] + rs
}

pub open spec fn enc_bet(b: Bet) -> Seq<usize> {
    seq![b.count, b.roll]
}

pub open spec fn enc_pr(m: PrModel) -> Seq<usize> {
    enc_name(m.0) + enc_rolls(m.1)
}

pub open spec fn enc_turn(m: TurnModel) -> Seq<usize> {
    enc_name(m.0) + enc_bet(m.1)
}

pub open spec fn enc_called(m: CalledModel) -> Seq<usize> {
    enc_name(m.0) + enc_name(m.1) + enc_bool(m.2)
}

pub open spec fn enc_prs_items(ms: Seq<PrModel>) -> Seq<usize>
    decreases ms.len(),
{
    if ms.len() == 0 {
        Seq::empty()
    } else {
        enc_pr(ms[0]) + enc_prs_items(ms.skip(1))
    }
}

pub open spec fn enc_prs(ms: Seq<PrModel>) -> Seq<usize> {
    seq![ms.len() as usize] + enc_prs_items(ms)
}

pub open spec fn enc_turns_items(ms: Seq<TurnModel>) -> Seq<usize>
    decreases ms.len(),
{
    if ms.len() == 0 {
        Seq::empty()
    } else {
        enc_turn(ms[0]) + enc_turns_items(ms.skip(1))
    }
}

pub open spec fn enc_turns(ms: Seq<TurnModel>) -> Seq<usize> {
    seq![ms.len() as usize] + enc_turns_items(ms)
}

pub open spec fn enc_round_called(m: RoundCalledModel) -> Seq<usize> {
    enc_prs(m.0) + enc_turns(m.1) + enc_called(m.2)
}

pub open spec fn enc_rounds_items(ms: Seq<RoundCalledModel>) -> Seq<usize>
    decreases ms.len(),
{
    if ms.len() == 0 {
        Seq::empty()
    } else {
        enc_round_called(ms[0]) + enc_rounds_items(ms.skip(1))
    }
}

pub open spec fn enc_rounds(ms: Seq<RoundCalledModel>) -> Seq<usize> {
    seq![ms.len() as usize] + enc_rounds_items(ms)
}

pub open spec fn enc_entry(m: EntryModel) -> Seq<usize> {
    enc_name(m.0) + enc_num(m.1)
}

pub open spec fn enc_table_items(ms: Seq<EntryModel>) -> Seq<usize>
    decreases ms.len(),
{
    if ms.len() == 0 {
        Seq::empty()
    } else {
        enc_entry(ms[0]) + enc_table_items(ms.skip(1))
    }
}

pub open spec fn enc_table(ms: Seq<EntryModel>) -> Seq<usize> {
    seq![ms.len() as usize] + enc_table_items(ms)
}

pub open spec fn enc_config(c: GameConfig) -> Seq<usize> {
    seq![c.max_dice, c.max_roll]
}

/// The leading token telling the three game phases apart.
pub open spec fn phase_tag_new() -> usize {
    0
}

pub open spec fn phase_tag_betting() -> usize {
    1
}

pub open spec fn phase_tag_over() -> usize {
    2
}

pub open spec fn enc_round_new(m: RoundNewModel) -> Seq<usize> {
    enc_prs(m.0) + enc_turns(m.1) + enc_pr(m.2)
}

pub open spec fn enc_round_betting(m: RoundBettingModel) -> Seq<usize> {
    enc_prs(m.0) + enc_turns(m.1) + enc_pr(m.2.0) + enc_bet(m.2.1)
}

pub open spec fn enc_game_new(m: GameNewModel) -> Seq<usize> {
    enc_num(phase_tag_new()) + enc_table(m.0) + enc_config(m.1) + enc_rounds(m.2) + enc_round_new(
        m.3,
    )
}

pub open spec fn enc_game_betting(m: GameBettingModel) -> Seq<usize> {
    enc_num(phase_tag_betting()) + enc_table(m.0) + enc_config(m.1) + enc_rounds(m.2)
        + enc_round_betting(m.3)
}

pub open spec fn enc_game_over(m: GameOverModel) -> Seq<usize> {
    enc_num(phase_tag_over()) + enc_table(m.0) + enc_config(m.1) + enc_rounds(m.2) + enc_name(m.3)
}

// ---------------------------------------------------------------------
// Prefix and subrange helpers.
// ---------------------------------------------------------------------

proof fn lemma_prefix_split(x: Seq<usize>, y: Seq<usize>, z: Seq<usize>)
    requires
        (x + y).is_prefix_of(z),
    ensures
        x.is_prefix_of(z),
        y.is_prefix_of(z.skip(x.len() as int)),
{
    assert((x + y) =~= z.subrange(0, x.len() + y.len() as int));
    assert forall|i: int| 0 <= i < y.len() implies y[i] == z[x.len() + i] by {
        assert(y[i] == (x + y)[x.len() + i]);
    }
    assert(x =~= z.subrange(0, x.len() as int));
    assert(y =~= z.skip(x.len() as int).subrange(0, y.len() as int));
}

proof fn lemma_skip_skip(z: Seq<usize>, a: int, b: int)
    requires
        0 <= a,
        0 <= b,
        a + b <= z.len(),
    ensures
        z.skip(a).skip(b) == z.skip(a + b),
{
    assert(z.skip(a).skip(b) =~= z.skip(a + b));
}

proof fn lemma_subrange_glue(z: Seq<usize>, a: int, b: int, c: int)
    requires
        0 <= a <= b <= c <= z.len(),
    ensures
        z.subrange(a, c) == z.subrange(a, b) + z.subrange(b, c),
{
    assert(z.subrange(a, c) =~= z.subrange(a, b) + z.subrange(b, c));
}

// ---------------------------------------------------------------------
// Character tokens.
// ---------------------------------------------------------------------

/// Relies on char::from_u32: `Some` exactly on Unicode scalar values (no
/// surrogates, at most 0x10FFFF), returning the character with that code
/// point.
#[verifier::external_body]
fn char_from_u32(u: u32) -> (r: Option<char>)
    ensures
        match r {
            Some(c) => vstd::utf8::is_scalar(u) && c as u32 == u,
            None => !vstd::utf8::is_scalar(u),
        },
{
    char::from_u32(u)
}

/// Characters with equal code points are equal.
proof fn lemma_char_u32_injective(c1: char, c2: char)
    requires
        c1 as u32 == c2 as u32,
    ensures
        c1 == c2,
{
    vstd::utf8::char_u32_cast(c1, c1 as u32);
    vstd::utf8::char_u32_cast(c2, c2 as u32);
}

/// Relies on String::push: appends one character at the end of the string.
#[verifier::external_body]
fn push_char(s: &mut String, c: char)
    ensures
        final(s)@ == old(s)@.push(c),
{
    s.push(c);
}

// ---------------------------------------------------------------------
// Decoders. Each states both directions: the consumed tokens are exactly
// the encoding of the returned value, and a stream that starts with the
// encoding of a value yields that value.
// ---------------------------------------------------------------------

fn dec_num(s: &Vec<usize>, pos: usize) -> (r: Option<(usize, usize)>)
    requires
        pos <= s@.len(),
    ensures
        (match r {
            Some(p) => p.1 == pos + 1 && pos < s@.len() && p.0 == s@[pos as int] && s@.subrange(
                pos as int,
                p.1 as int,
            ) == enc_num(p.0),
            None => pos == s@.len(),
        }),
{
    if pos < s.len() {
        let v = s[pos];
        proof {
            assert(s@.subrange(pos as int, pos + 1) =~= enc_num(s@[pos as int]));
        }
        Some((v, pos + 1))
    } else {
        None
    }
}

fn dec_bool(s: &Vec<usize>, pos: usize) -> (r: Option<(bool, usize)>)
    requires
        pos <= s@.len(),
    ensures
        (match r {
            Some(p) => pos < p.1 <= s@.len() && s@.subrange(pos as int, p.1 as int) == enc_bool(
                p.0,
            ),
            None => true,
        }),
        forall|m: bool| (#[trigger] enc_bool(m)).is_prefix_of(s@.skip(pos as int)) ==> (r matches Some(p)
            && p.0 == m && p.1 == pos + enc_bool(m).len()),
{
    proof {
        assert(forall|m: bool| (#[trigger] enc_bool(m)).is_prefix_of(s@.skip(pos as int)) ==> s@.skip(
            pos as int,
        )[0] == enc_bool(m)[0]);
        assert(pos < s@.len() ==> s@.skip(pos as int)[0] == s@[pos as int]);
    }
    match dec_num(s, pos) {
        None => None,
        Some((v, j)) => {
            if v == 0 {
                proof {
                    assert(s@.subrange(pos as int, j as int) =~= enc_bool(false));
                }
                Some((false, j))
            } else if v == 1 {
                proof {
                    assert(s@.subrange(pos as int, j as int) =~= enc_bool(true));
                }
                Some((true, j))
            } else {
                None
            }
        },
    }
}

fn dec_bet(s: &Vec<usize>, pos: usize) -> (r: Option<(Bet, usize)>)
    requires
        pos <= s@.len(),
    ensures
        (match r {
            Some(p) => pos < p.1 <= s@.len() && s@.subrange(pos as int, p.1 as int) == enc_bet(
                p.0,
            ),
            None => true,
        }),
        forall|m: Bet| (#[trigger] enc_bet(m)).is_prefix_of(s@.skip(pos as int)) ==> (r matches Some(p)
            && p.0 == m && p.1 == pos + enc_bet(m).len()),
{
    proof {
        assert forall|m: Bet| (#[trigger] enc_bet(m)).is_prefix_of(s@.skip(pos as int)) implies pos
            + 2 <= s@.len() && s@[pos as int] == m.count && s@[pos + 1] == m.roll by {
            assert(enc_bet(m)[0] == s@.skip(pos as int)[0]);
            assert(enc_bet(m)[1] == s@.skip(pos as int)[1]);
        }
    }
    if pos < s.len() && s.len() - pos >= 2 {
        let count = s[pos];
        let roll = s[pos + 1];
        proof {
            assert(s@.subrange(pos as int, pos + 2) =~= enc_bet(Bet { count, roll }));
        }
        Some((Bet { count, roll }, pos + 2))
    } else {
        None
    }
}

fn dec_config(s: &Vec<usize>, pos: usize) -> (r: Option<(GameConfig, usize)>)
    requires
        pos <= s@.len(),
    ensures
        (match r {
            Some(p) => pos < p.1 <= s@.len() && s@.subrange(pos as int, p.1 as int) == enc_config(
                p.0,
            ),
            None => true,
        }),
        forall|m: GameConfig| (#[trigger] enc_config(m)).is_prefix_of(s@.skip(pos as int)) ==> (r matches Some(
            p,
        ) && p.0 == m && p.1 == pos + enc_config(m).len()),
{
    proof {
        assert forall|m: GameConfig| (#[trigger] enc_config(m)).is_prefix_of(
            s@.skip(pos as int),
        ) implies pos + 2 <= s@.len() && s@[pos as int] == m.max_dice && s@[pos + 1]
            == m.max_roll by {
            assert(enc_config(m)[0] == s@.skip(pos as int)[0]);
            assert(enc_config(m)[1] == s@.skip(pos as int)[1]);
        }
    }
    if pos < s.len() && s.len() - pos >= 2 {
        let max_dice = s[pos];
        let max_roll = s[pos + 1];
        proof {
            assert(s@.subrange(pos as int, pos + 2) =~= enc_config(GameConfig { max_dice, max_roll }));
        }
        Some((GameConfig { max_dice, max_roll }, pos + 2))
    } else {
        None
    }
}

fn dec_name(s: &Vec<usize>, pos: usize) -> (r: Option<(Player, usize)>)
    requires
        pos <= s@.len(),
    ensures
        (match r {
            Some(p) => pos < p.1 <= s@.len() && name_ok(p.0@) && s@.subrange(pos as int, p.1 as int)
                == enc_name(p.0@),
            None => true,
        }),
        forall|m: Seq<char>| name_ok(m) && (#[trigger] enc_name(m)).is_prefix_of(
            s@.skip(pos as int),
        ) ==> (r matches Some(p) && p.0@ == m && p.1 == pos + enc_name(m).len()),
{
    proof {
        assert forall|m: Seq<char>| name_ok(m) && (#[trigger] enc_name(m)).is_prefix_of(
            s@.skip(pos as int),
        ) implies pos < s@.len() && s@[pos as int] == m.len() && pos + 1 + m.len() <= s@.len()
            && (forall|k: int| 0 <= k < m.len() ==> s@[pos + 1 + k] == char_token(m[k])) by {
            assert(enc_name(m)[0] == s@.skip(pos as int)[0]);
            assert forall|k: int| 0 <= k < m.len() implies s@[pos + 1 + k] == char_token(m[k]) by {
                assert(enc_name(m)[1 + k] == s@.skip(pos as int)[1 + k]);
                assert(enc_name(m)[1 + k] == name_tokens(m)[k]);
            }
        }
    }
    if pos >= s.len() {
        return None;
    }
    let n = s[pos];
    if n > s.len() - pos - 1 {
        return None;
    }
    let slen = s.len();
    let mut name = String::new();
    let mut j: usize = 0;
    while j < n
        invariant
            slen == s@.len(),
            pos < s@.len(),
            n == s@[pos as int],
            pos + 1 + n <= s@.len(),
            j <= n,
            name@.len() == j,
            forall|k: int| 0 <= k < j ==> s@[pos + 1 + k] == char_token(#[trigger] name@[k]),
        decreases n - j,
    {
        proof {
            assert(pos + 1 + j < s@.len());
        }
        let tok = s[pos + 1 + j];
        if tok > u32::MAX as usize {
            proof {
                assert forall|m: Seq<char>|
                    name_ok(m) && (#[trigger] enc_name(m)).is_prefix_of(
                        s@.skip(pos as int),
                    ) implies false by {
                    assert(enc_name(m)[0] == s@.skip(pos as int)[0]);
                    assert(m.len() == n);
                    assert(enc_name(m)[1 + j] == s@.skip(pos as int)[1 + j]);
                    assert(enc_name(m)[1 + j] == name_tokens(m)[j as int]);
                    assert(s@[pos + 1 + j] == char_token(m[j as int]));
                }
            }
            return None;
        }
        match char_from_u32(tok as u32) {
            None => {
                proof {
                    assert forall|m: Seq<char>|
                        name_ok(m) && (#[trigger] enc_name(m)).is_prefix_of(
                            s@.skip(pos as int),
                        ) implies false by {
                        assert(enc_name(m)[0] == s@.skip(pos as int)[0]);
                        assert(m.len() == n);
                        assert(enc_name(m)[1 + j] == s@.skip(pos as int)[1 + j]);
                        assert(enc_name(m)[1 + j] == name_tokens(m)[j as int]);
                        assert(s@[pos + 1 + j] == char_token(m[j as int]));
                        vstd::utf8::char_is_scalar(m[j as int]);
                        assert(tok as u32 == m[j as int] as u32);
                    }
                }
                return None;
            },
            Some(c) => {
                push_char(&mut name, c);
                proof {
                    assert(char_token(c) == tok);
                }
            },
        }
        j = j + 1;
    }
    let p = Player::new(name);
    proof {
        assert(s@.subrange(pos as int, pos + 1 + n as int) =~= enc_name(p@)) by {
            assert(name_tokens(p@).len() == n);
            assert forall|k: int| 0 <= k < 1 + n implies s@.subrange(pos as int, pos + 1 + n as int)[k]
                == enc_name(p@)[k] by {
                if k >= 1 {
                    assert(enc_name(p@)[k] == name_tokens(p@)[k - 1]);
                    assert(s@[pos + 1 + (k - 1)] == char_token(p@[k - 1]));
                }
            }
        }
        assert forall|m: Seq<char>|
            name_ok(m) && (#[trigger] enc_name(m)).is_prefix_of(s@.skip(pos as int)) implies p@ == m
            && pos + 1 + n == pos + enc_name(m).len() by {
            assert(m.len() == n);
            assert forall|k: int| 0 <= k < m.len() implies m[k] == p@[k] by {
                assert(s@[pos + 1 + k] == char_token(m[k]));
                assert(s@[pos + 1 + k] == char_token(p@[k]));
                lemma_char_token_injective(m[k], p@[k]);
            }
            assert(p@ =~= m);
        }
    }
    Some((p, pos + 1 + n))
}

/// Character tokens are injective: equal tokens, equal characters.
proof fn lemma_char_token_injective(c1: char, c2: char)
    requires
        char_token(c1) == char_token(c2),
    ensures
        c1 == c2,
{
    lemma_char_u32_injective(c1, c2);
}

fn dec_rolls(s: &Vec<usize>, pos: usize) -> (r: Option<(Vec<usize>, usize)>)
    requires
        pos <= s@.len(),
    ensures
        (match r {
            Some(p) => pos < p.1 <= s@.len() && rolls_ok(p.0@) && s@.subrange(
                pos as int,
                p.1 as int,
            ) == enc_rolls(p.0@),
            None => true,
        }),
        forall|m: Seq<usize>| rolls_ok(m) && (#[trigger] enc_rolls(m)).is_prefix_of(
            s@.skip(pos as int),
        ) ==> (r matches Some(p) && p.0@ == m && p.1 == pos + enc_rolls(m).len()),
{
    proof {
        assert forall|m: Seq<usize>| rolls_ok(m) && (#[trigger] enc_rolls(m)).is_prefix_of(
            s@.skip(pos as int),
        ) implies pos < s@.len() && s@[pos as int] == m.len() && pos + 1 + m.len() <= s@.len()
            && (forall|k: int| 0 <= k < m.len() ==> s@[pos + 1 + k] == m[k]) by {
            assert(enc_rolls(m)[0] == s@.skip(pos as int)[0]);
            assert forall|k: int| 0 <= k < m.len() implies s@[pos + 1 + k] == m[k] by {
                assert(enc_rolls(m)[1 + k] == s@.skip(pos as int)[1 + k]);
            }
        }
    }
    if pos >= s.len() {
        return None;
    }
    let n = s[pos];
    if n > s.len() - pos - 1 {
        return None;
    }
    let slen = s.len();
    let mut rolls: Vec<usize> = Vec::new();
    let mut j: usize = 0;
    while j < n
        invariant
            slen == s@.len(),
            pos < s@.len(),
            n == s@[pos as int],
            pos + 1 + n <= s@.len(),
            j <= n,
            rolls@.len() == j,
            forall|k: int| 0 <= k < j ==> s@[pos + 1 + k] == #[trigger] rolls@[k],
        decreases n - j,
    {
        proof {
            assert(pos + 1 + j < s@.len());
        }
        rolls.push(s[pos + 1 + j]);
        j = j + 1;
    }
    proof {
        assert(s@.subrange(pos as int, pos + 1 + n as int) =~= enc_rolls(rolls@)) by {
            assert forall|k: int| 0 <= k < 1 + n implies s@.subrange(pos as int, pos + 1 + n as int)[k]
                == enc_rolls(rolls@)[k] by {
                if k >= 1 {
                    assert(s@[pos + 1 + (k - 1)] == rolls@[k - 1]);
                }
            }
        }
        assert forall|m: Seq<usize>|
            rolls_ok(m) && (#[trigger] enc_rolls(m)).is_prefix_of(s@.skip(pos as int)) implies rolls@
            == m && pos + 1 + n == pos + enc_rolls(m).len() by {
            assert(m.len() == n);
            assert(rolls@ =~= m);
        }
    }
    Some((rolls, pos + 1 + n))
}

fn dec_pr(s: &Vec<usize>, pos: usize) -> (r: Option<(PlayerRolls, usize)>)
    requires
        pos <= s@.len(),
    ensures
        (match r {
            Some(p) => pos < p.1 <= s@.len() && pr_ok(pr_model(p.0)) && s@.subrange(
                pos as int,
                p.1 as int,
            ) == enc_pr(pr_model(p.0)),
            None => true,
        }),
        forall|m: PrModel| pr_ok(m) && (#[trigger] enc_pr(m)).is_prefix_of(s@.skip(pos as int))
            ==> (r matches Some(p) && pr_model(p.0) == m && p.1 == pos + enc_pr(m).len()),
{
    proof {
        assert forall|m: PrModel| pr_ok(m) && (#[trigger] enc_pr(m)).is_prefix_of(
            s@.skip(pos as int),
        ) implies (enc_name(m.0)).is_prefix_of(s@.skip(pos as int)) && (enc_rolls(
            m.1,
        )).is_prefix_of(s@.skip(pos + enc_name(m.0).len())) by {
            lemma_prefix_split(enc_name(m.0), enc_rolls(m.1), s@.skip(pos as int));
            lemma_skip_skip(s@, pos as int, enc_name(m.0).len() as int);
        }
    }
    let (player, j1) = match dec_name(s, pos) {
        Some(x) => x,
        None => {
            return None;
        },
    };
    let (rolls, j2) = match dec_rolls(s, j1) {
        Some(x) => x,
        None => {
            return None;
        },
    };
    proof {
        lemma_subrange_glue(s@, pos as int, j1 as int, j2 as int);
    }
    Some((PlayerRolls { player, rolls }, j2))
}

fn dec_turn(s: &Vec<usize>, pos: usize) -> (r: Option<(Turn, usize)>)
    requires
        pos <= s@.len(),
    ensures
        (match r {
            Some(p) => pos < p.1 <= s@.len() && turn_ok(turn_model(p.0)) && s@.subrange(
                pos as int,
                p.1 as int,
            ) == enc_turn(turn_model(p.0)),
            None => true,
        }),
        forall|m: TurnModel| turn_ok(m) && (#[trigger] enc_turn(m)).is_prefix_of(
            s@.skip(pos as int),
        ) ==> (r matches Some(p) && turn_model(p.0) == m && p.1 == pos + enc_turn(m).len()),
{
    proof {
        assert forall|m: TurnModel| turn_ok(m) && (#[trigger] enc_turn(m)).is_prefix_of(
            s@.skip(pos as int),
        ) implies (enc_name(m.0)).is_prefix_of(s@.skip(pos as int)) && (enc_bet(m.1)).is_prefix_of(
            s@.skip(pos + enc_name(m.0).len()),
        ) by {
            lemma_prefix_split(enc_name(m.0), enc_bet(m.1), s@.skip(pos as int));
            lemma_skip_skip(s@, pos as int, enc_name(m.0).len() as int);
        }
    }
    let (player, j1) = match dec_name(s, pos) {
        Some(x) => x,
        None => {
            return None;
        },
    };
    let (bet, j2) = match dec_bet(s, j1) {
        Some(x) => x,
        None => {
            return None;
        },
    };
    proof {
        lemma_subrange_glue(s@, pos as int, j1 as int, j2 as int);
    }
    Some((Turn { player, bet }, j2))
}

fn dec_called(s: &Vec<usize>, pos: usize) -> (r: Option<(Called, usize)>)
    requires
        pos <= s@.len(),
    ensures
        (match r {
            Some(p) => pos < p.1 <= s@.len() && called_ok(called_model(p.0)) && s@.subrange(
                pos as int,
                p.1 as int,
            ) == enc_called(called_model(p.0)),
            None => true,
        }),
        forall|m: CalledModel| called_ok(m) && (#[trigger] enc_called(m)).is_prefix_of(
            s@.skip(pos as int),
        ) ==> (r matches Some(p) && called_model(p.0) == m && p.1 == pos + enc_called(m).len()),
{
    proof {
        assert forall|m: CalledModel| called_ok(m) && (#[trigger] enc_called(m)).is_prefix_of(
            s@.skip(pos as int),
        ) implies (enc_name(m.0)).is_prefix_of(s@.skip(pos as int)) && (enc_name(
            m.1,
        )).is_prefix_of(s@.skip(pos + enc_name(m.0).len())) && (enc_bool(m.2)).is_prefix_of(
            s@.skip(pos + enc_name(m.0).len() + enc_name(m.1).len()),
        ) by {
            assert(enc_called(m) =~= enc_name(m.0) + (enc_name(m.1) + enc_bool(m.2)));
            lemma_prefix_split(enc_name(m.0), enc_name(m.1) + enc_bool(m.2), s@.skip(pos as int));
            lemma_skip_skip(s@, pos as int, enc_name(m.0).len() as int);
            lemma_prefix_split(
                enc_name(m.1),
                enc_bool(m.2),
                s@.skip(pos + enc_name(m.0).len()),
            );
            lemma_skip_skip(
                s@,
                pos + enc_name(m.0).len(),
                enc_name(m.1).len() as int,
            );
        }
    }
    let (caller, j1) = match dec_name(s, pos) {
        Some(x) => x,
        None => {
            return None;
        },
    };
    let (better, j2) = match dec_name(s, j1) {
        Some(x) => x,
        None => {
            return None;
        },
    };
    let (was_fluff, j3) = match dec_bool(s, j2) {
        Some(x) => x,
        None => {
            return None;
        },
    };
    proof {
        lemma_subrange_glue(s@, pos as int, j1 as int, j2 as int);
        lemma_subrange_glue(s@, pos as int, j2 as int, j3 as int);
        assert(s@.subrange(pos as int, j3 as int) =~= enc_called(
            called_model(Called { caller, better, was_fluff }),
        ));
    }
    Some((Called { caller, better, was_fluff }, j3))
}

fn dec_entry(s: &Vec<usize>, pos: usize) -> (r: Option<((Player, usize), usize)>)
    requires
        pos <= s@.len(),
    ensures
        (match r {
            Some(p) => pos < p.1 <= s@.len() && entry_ok((p.0.0@, p.0.1)) && s@.subrange(
                pos as int,
                p.1 as int,
            ) == enc_entry((p.0.0@, p.0.1)),
            None => true,
        }),
        forall|m: EntryModel| entry_ok(m) && (#[trigger] enc_entry(m)).is_prefix_of(
            s@.skip(pos as int),
        ) ==> (r matches Some(p) && (p.0.0@, p.0.1) == m && p.1 == pos + enc_entry(m).len()),
{
    proof {
        assert forall|m: EntryModel| entry_ok(m) && (#[trigger] enc_entry(m)).is_prefix_of(
            s@.skip(pos as int),
        ) implies (enc_name(m.0)).is_prefix_of(s@.skip(pos as int)) && pos + enc_name(m.0).len()
            < s@.len() && s@[pos + enc_name(m.0).len()] == m.1 by {
            lemma_prefix_split(enc_name(m.0), enc_num(m.1), s@.skip(pos as int));
            lemma_skip_skip(s@, pos as int, enc_name(m.0).len() as int);
            assert(enc_num(m.1)[0] == s@.skip(pos + enc_name(m.0).len())[0]);
        }
    }
    let (player, j1) = match dec_name(s, pos) {
        Some(x) => x,
        None => {
            return None;
        },
    };
    let (count, j2) = match dec_num(s, j1) {
        Some(x) => x,
        None => {
            return None;
        },
    };
    proof {
        lemma_subrange_glue(s@, pos as int, j1 as int, j2 as int);
    }
    Some(((player, count), j2))
}

fn dec_prs(s: &Vec<usize>, pos: usize) -> (r: Option<(Vec<PlayerRolls>, usize)>)
    requires
        pos <= s@.len(),
    ensures
        (match r {
            Some(p) => pos < p.1 <= s@.len() && prs_ok(prs_model(p.0@)) && s@.subrange(
                pos as int,
                p.1 as int,
            ) == enc_prs(prs_model(p.0@)),
            None => true,
        }),
        forall|ms: Seq<PrModel>| prs_ok(ms) && (#[trigger] enc_prs(ms)).is_prefix_of(
            s@.skip(pos as int),
        ) ==> (r matches Some(p) && prs_model(p.0@) == ms && p.1 == pos + enc_prs(ms).len()),
{
    proof {
        assert forall|ms: Seq<PrModel>| prs_ok(ms) && (#[trigger] enc_prs(ms)).is_prefix_of(
            s@.skip(pos as int),
        ) implies pos < s@.len() && s@[pos as int] == ms.len() && (enc_prs_items(
            ms,
        )).is_prefix_of(s@.skip(pos + 1)) by {
            lemma_prefix_split(seq![ms.len() as usize], enc_prs_items(ms), s@.skip(pos as int));
            assert(seq![ms.len() as usize][0] == s@.skip(pos as int)[0]);
            lemma_skip_skip(s@, pos as int, 1);
        }
    }
    if pos >= s.len() {
        return None;
    }
    let n = s[pos];
    let start = pos + 1;
    let mut out: Vec<PlayerRolls> = Vec::new();
    let mut k: usize = 0;
    let mut j: usize = start;
    proof {
        assert(prs_model(out@) =~= Seq::<PrModel>::empty());
        assert(enc_prs_items(prs_model(out@)) =~= Seq::<usize>::empty());
        assert(s@.subrange(start as int, start as int) =~= enc_prs_items(prs_model(out@)));
        assert forall|ms: Seq<PrModel>|
            prs_ok(ms) && ms.len() == n && (#[trigger] enc_prs_items(ms)).is_prefix_of(
                s@.skip(start as int),
            ) implies prs_model(out@) == ms.take(0) && j == start + enc_prs_items(
            ms.take(0),
        ).len() by {
            assert(ms.take(0) =~= Seq::<PrModel>::empty());
            assert(enc_prs_items(ms.take(0)) =~= Seq::<usize>::empty());
            assert(prs_model(out@) =~= ms.take(0));
        }
    }
    while k < n
        invariant
            pos < s@.len(),
            n == s@[pos as int],
            start == pos + 1,
            start <= j <= s@.len(),
            k <= n,
            out@.len() == k,
            forall|q: int| 0 <= q < k ==> pr_ok(#[trigger] prs_model(out@)[q]),
            s@.subrange(start as int, j as int) == enc_prs_items(prs_model(out@)),
            forall|ms: Seq<PrModel>|
                prs_ok(ms) && ms.len() == n && (#[trigger] enc_prs_items(ms)).is_prefix_of(
                    s@.skip(start as int),
                ) ==> prs_model(out@) == ms.take(k as int) && j == start + enc_prs_items(
                    ms.take(k as int),
                ).len(),
        decreases n - k,
    {
        proof {
            assert forall|ms: Seq<PrModel>|
                prs_ok(ms) && ms.len() == n && (#[trigger] enc_prs_items(ms)).is_prefix_of(
                    s@.skip(start as int),
                ) implies pr_ok(ms[k as int]) && (enc_pr(ms[k as int])).is_prefix_of(
                s@.skip(j as int),
            ) by {
                lemma_enc_prs_items_split(ms, k as int);
                assert(ms.skip(k as int)[0] == ms[k as int]);
                assert(ms.skip(k as int).skip(1) =~= ms.skip(k + 1));
                assert(enc_prs_items(ms.skip(k as int)) == enc_pr(ms[k as int]) + enc_prs_items(
                    ms.skip(k + 1),
                ));
                lemma_prefix_split(
                    enc_prs_items(ms.take(k as int)),
                    enc_prs_items(ms.skip(k as int)),
                    s@.skip(start as int),
                );
                lemma_skip_skip(s@, start as int, enc_prs_items(ms.take(k as int)).len() as int);
                lemma_prefix_split(
                    enc_pr(ms[k as int]),
                    enc_prs_items(ms.skip(k + 1)),
                    s@.skip(j as int),
                );
            }
        }
        let ghost m_prev = prs_model(out@);
        let (pr, j2) = match dec_pr(s, j) {
            Some(x) => x,
            None => {
                proof {
                    assert forall|ms: Seq<PrModel>|
                        prs_ok(ms) && (#[trigger] enc_prs(ms)).is_prefix_of(
                            s@.skip(pos as int),
                        ) implies false by {
                        lemma_prefix_split(
                            seq![ms.len() as usize],
                            enc_prs_items(ms),
                            s@.skip(pos as int),
                        );
                        assert(seq![ms.len() as usize][0] == s@.skip(pos as int)[0]);
                        lemma_skip_skip(s@, pos as int, 1);
                        assert(ms.len() == n);
                    }
                }
                return None;
            },
        };
        out.push(pr);
        j = j2;
        k = k + 1;
        proof {
            assert(prs_model(out@) =~= m_prev.push(pr_model(pr)));
            lemma_enc_prs_items_push(m_prev, pr_model(pr));
            lemma_subrange_glue(s@, start as int, j as int - enc_pr(pr_model(pr)).len(), j as int);
            assert(s@.subrange(start as int, j as int) =~= enc_prs_items(prs_model(out@)));
            assert forall|ms: Seq<PrModel>|
                prs_ok(ms) && ms.len() == n && (#[trigger] enc_prs_items(ms)).is_prefix_of(
                    s@.skip(start as int),
                ) implies prs_model(out@) == ms.take(k as int) && j == start + enc_prs_items(
                ms.take(k as int),
            ).len() by {
                assert(ms.take(k as int) =~= ms.take(k - 1).push(ms[k - 1]));
                lemma_enc_prs_items_push(ms.take(k - 1), ms[k - 1]);
                assert(prs_model(out@) =~= ms.take(k as int));
            }
        }
    }
    proof {
        assert(s@.subrange(pos as int, pos + 1) =~= seq![n]);
        lemma_subrange_glue(s@, pos as int, start as int, j as int);
        assert(s@.subrange(pos as int, j as int) =~= enc_prs(prs_model(out@)));
        assert forall|ms: Seq<PrModel>| prs_ok(ms) && (#[trigger] enc_prs(ms)).is_prefix_of(
            s@.skip(pos as int),
        ) implies prs_model(out@) == ms && j == pos + enc_prs(ms).len() by {
            assert(ms.len() == n);
            assert(ms.take(n as int) =~= ms);
        }
    }
    Some((out, j))
}

fn dec_turns(s: &Vec<usize>, pos: usize) -> (r: Option<(Vec<Turn>, usize)>)
    requires
        pos <= s@.len(),
    ensures
        (match r {
            Some(p) => pos < p.1 <= s@.len() && turns_ok(turns_model(p.0@)) && s@.subrange(
                pos as int,
                p.1 as int,
            ) == enc_turns(turns_model(p.0@)),
            None => true,
        }),
        forall|ms: Seq<TurnModel>| turns_ok(ms) && (#[trigger] enc_turns(ms)).is_prefix_of(
            s@.skip(pos as int),
        ) ==> (r matches Some(p) && turns_model(p.0@) == ms && p.1 == pos + enc_turns(ms).len()),
{
    proof {
        assert forall|ms: Seq<TurnModel>| turns_ok(ms) && (#[trigger] enc_turns(ms)).is_prefix_of(
            s@.skip(pos as int),
        ) implies pos < s@.len() && s@[pos as int] == ms.len() && (enc_turns_items(
            ms,
        )).is_prefix_of(s@.skip(pos + 1)) by {
            lemma_prefix_split(seq![ms.len() as usize], enc_turns_items(ms), s@.skip(pos as int));
            assert(seq![ms.len() as usize][0] == s@.skip(pos as int)[0]);
            lemma_skip_skip(s@, pos as int, 1);
        }
    }
    if pos >= s.len() {
        return None;
    }
    let n = s[pos];
    let start = pos + 1;
    let mut out: Vec<Turn> = Vec::new();
    let mut k: usize = 0;
    let mut j: usize = start;
    proof {
        assert(turns_model(out@) =~= Seq::<TurnModel>::empty());
        assert(enc_turns_items(turns_model(out@)) =~= Seq::<usize>::empty());
        assert(s@.subrange(start as int, start as int) =~= enc_turns_items(turns_model(out@)));
        assert forall|ms: Seq<TurnModel>|
            turns_ok(ms) && ms.len() == n && (#[trigger] enc_turns_items(ms)).is_prefix_of(
                s@.skip(start as int),
            ) implies turns_model(out@) == ms.take(0) && j == start + enc_turns_items(
            ms.take(0),
        ).len() by {
            assert(ms.take(0) =~= Seq::<TurnModel>::empty());
            assert(enc_turns_items(ms.take(0)) =~= Seq::<usize>::empty());
            assert(turns_model(out@) =~= ms.take(0));
        }
    }
    while k < n
        invariant
            pos < s@.len(),
            n == s@[pos as int],
            start == pos + 1,
            start <= j <= s@.len(),
            k <= n,
            out@.len() == k,
            forall|q: int| 0 <= q < k ==> turn_ok(#[trigger] turns_model(out@)[q]),
            s@.subrange(start as int, j as int) == enc_turns_items(turns_model(out@)),
            forall|ms: Seq<TurnModel>|
                turns_ok(ms) && ms.len() == n && (#[trigger] enc_turns_items(ms)).is_prefix_of(
                    s@.skip(start as int),
                ) ==> turns_model(out@) == ms.take(k as int) && j == start + enc_turns_items(
                    ms.take(k as int),
                ).len(),
        decreases n - k,
    {
        proof {
            assert forall|ms: Seq<TurnModel>|
                turns_ok(ms) && ms.len() == n && (#[trigger] enc_turns_items(ms)).is_prefix_of(
                    s@.skip(start as int),
                ) implies turn_ok(ms[k as int]) && (enc_turn(ms[k as int])).is_prefix_of(
                s@.skip(j as int),
            ) by {
                lemma_enc_turns_items_split(ms, k as int);
                assert(ms.skip(k as int)[0] == ms[k as int]);
                assert(ms.skip(k as int).skip(1) =~= ms.skip(k + 1));
                assert(enc_turns_items(ms.skip(k as int)) == enc_turn(ms[k as int])
                    + enc_turns_items(ms.skip(k + 1)));
                lemma_prefix_split(
                    enc_turns_items(ms.take(k as int)),
                    enc_turns_items(ms.skip(k as int)),
                    s@.skip(start as int),
                );
                lemma_skip_skip(s@, start as int, enc_turns_items(ms.take(k as int)).len() as int);
                lemma_prefix_split(
                    enc_turn(ms[k as int]),
                    enc_turns_items(ms.skip(k + 1)),
                    s@.skip(j as int),
                );
            }
        }
        let ghost m_prev = turns_model(out@);
        let (t, j2) = match dec_turn(s, j) {
            Some(x) => x,
            None => {
                proof {
                    assert forall|ms: Seq<TurnModel>|
                        turns_ok(ms) && (#[trigger] enc_turns(ms)).is_prefix_of(
                            s@.skip(pos as int),
                        ) implies false by {
                        lemma_prefix_split(
                            seq![ms.len() as usize],
                            enc_turns_items(ms),
                            s@.skip(pos as int),
                        );
                        assert(seq![ms.len() as usize][0] == s@.skip(pos as int)[0]);
                        lemma_skip_skip(s@, pos as int, 1);
                        assert(ms.len() == n);
                    }
                }
                return None;
            },
        };
        out.push(t);
        j = j2;
        k = k + 1;
        proof {
            assert(turns_model(out@) =~= m_prev.push(turn_model(t)));
            lemma_enc_turns_items_push(m_prev, turn_model(t));
            lemma_subrange_glue(s@, start as int, j as int - enc_turn(turn_model(t)).len(), j as int);
            assert(s@.subrange(start as int, j as int) =~= enc_turns_items(turns_model(out@)));
            assert forall|ms: Seq<TurnModel>|
                turns_ok(ms) && ms.len() == n && (#[trigger] enc_turns_items(ms)).is_prefix_of(
                    s@.skip(start as int),
                ) implies turns_model(out@) == ms.take(k as int) && j == start + enc_turns_items(
                ms.take(k as int),
            ).len() by {
                assert(ms.take(k as int) =~= ms.take(k - 1).push(ms[k - 1]));
                lemma_enc_turns_items_push(ms.take(k - 1), ms[k - 1]);
                assert(turns_model(out@) =~= ms.take(k as int));
            }
        }
    }
    proof {
        assert(s@.subrange(pos as int, pos + 1) =~= seq![n]);
        lemma_subrange_glue(s@, pos as int, start as int, j as int);
        assert(s@.subrange(pos as int, j as int) =~= enc_turns(turns_model(out@)));
        assert forall|ms: Seq<TurnModel>| turns_ok(ms) && (#[trigger] enc_turns(ms)).is_prefix_of(
            s@.skip(pos as int),
        ) implies turns_model(out@) == ms && j == pos + enc_turns(ms).len() by {
            assert(ms.len() == n);
            assert(ms.take(n as int) =~= ms);
        }
    }
    Some((out, j))
}

fn dec_table(s: &Vec<usize>, pos: usize) -> (r: Option<(Vec<(Player, usize)>, usize)>)
    requires
        pos <= s@.len(),
    ensures
        (match r {
            Some(p) => pos < p.1 <= s@.len() && table_ok(table_model(p.0@)) && s@.subrange(
                pos as int,
                p.1 as int,
            ) == enc_table(table_model(p.0@)),
            None => true,
        }),
        forall|ms: Seq<EntryModel>| table_ok(ms) && (#[trigger] enc_table(ms)).is_prefix_of(
            s@.skip(pos as int),
        ) ==> (r matches Some(p) && table_model(p.0@) == ms && p.1 == pos + enc_table(ms).len()),
{
    proof {
        assert forall|ms: Seq<EntryModel>| table_ok(ms) && (#[trigger] enc_table(ms)).is_prefix_of(
            s@.skip(pos as int),
        ) implies pos < s@.len() && s@[pos as int] == ms.len() && (enc_table_items(
            ms,
        )).is_prefix_of(s@.skip(pos + 1)) by {
            lemma_prefix_split(seq![ms.len() as usize], enc_table_items(ms), s@.skip(pos as int));
            assert(seq![ms.len() as usize][0] == s@.skip(pos as int)[0]);
            lemma_skip_skip(s@, pos as int, 1);
        }
    }
    if pos >= s.len() {
        return None;
    }
    let n = s[pos];
    let start = pos + 1;
    let mut out: Vec<(Player, usize)> = Vec::new();
    let mut k: usize = 0;
    let mut j: usize = start;
    proof {
        assert(table_model(out@) =~= Seq::<EntryModel>::empty());
        assert(enc_table_items(table_model(out@)) =~= Seq::<usize>::empty());
        assert(s@.subrange(start as int, start as int) =~= enc_table_items(table_model(out@)));
        assert forall|ms: Seq<EntryModel>|
            table_ok(ms) && ms.len() == n && (#[trigger] enc_table_items(ms)).is_prefix_of(
                s@.skip(start as int),
            ) implies table_model(out@) == ms.take(0) && j == start + enc_table_items(
            ms.take(0),
        ).len() by {
            assert(ms.take(0) =~= Seq::<EntryModel>::empty());
            assert(enc_table_items(ms.take(0)) =~= Seq::<usize>::empty());
            assert(table_model(out@) =~= ms.take(0));
        }
    }
    while k < n
        invariant
            pos < s@.len(),
            n == s@[pos as int],
            start == pos + 1,
            start <= j <= s@.len(),
            k <= n,
            out@.len() == k,
            forall|q: int| 0 <= q < k ==> entry_ok(#[trigger] table_model(out@)[q]),
            s@.subrange(start as int, j as int) == enc_table_items(table_model(out@)),
            forall|ms: Seq<EntryModel>|
                table_ok(ms) && ms.len() == n && (#[trigger] enc_table_items(ms)).is_prefix_of(
                    s@.skip(start as int),
                ) ==> table_model(out@) == ms.take(k as int) && j == start + enc_table_items(
                    ms.take(k as int),
                ).len(),
        decreases n - k,
    {
        proof {
            assert forall|ms: Seq<EntryModel>|
                table_ok(ms) && ms.len() == n && (#[trigger] enc_table_items(ms)).is_prefix_of(
                    s@.skip(start as int),
                ) implies entry_ok(ms[k as int]) && (enc_entry(ms[k as int])).is_prefix_of(
                s@.skip(j as int),
            ) by {
                lemma_enc_table_items_split(ms, k as int);
                assert(ms.skip(k as int)[0] == ms[k as int]);
                assert(ms.skip(k as int).skip(1) =~= ms.skip(k + 1));
                assert(enc_table_items(ms.skip(k as int)) == enc_entry(ms[k as int])
                    + enc_table_items(ms.skip(k + 1)));
                lemma_prefix_split(
                    enc_table_items(ms.take(k as int)),
                    enc_table_items(ms.skip(k as int)),
                    s@.skip(start as int),
                );
                lemma_skip_skip(s@, start as int, enc_table_items(ms.take(k as int)).len() as int);
                lemma_prefix_split(
                    enc_entry(ms[k as int]),
                    enc_table_items(ms.skip(k + 1)),
                    s@.skip(j as int),
                );
            }
        }
        let ghost m_prev = table_model(out@);
        let (e, j2) = match dec_entry(s, j) {
            Some(x) => x,
            None => {
                proof {
                    assert forall|ms: Seq<EntryModel>|
                        table_ok(ms) && (#[trigger] enc_table(ms)).is_prefix_of(
                            s@.skip(pos as int),
                        ) implies false by {
                        lemma_prefix_split(
                            seq![ms.len() as usize],
                            enc_table_items(ms),
                            s@.skip(pos as int),
                        );
                        assert(seq![ms.len() as usize][0] == s@.skip(pos as int)[0]);
                        lemma_skip_skip(s@, pos as int, 1);
                        assert(ms.len() == n);
                    }
                }
                return None;
            },
        };
        let ghost em = (e.0@, e.1);
        out.push(e);
        j = j2;
        k = k + 1;
        proof {
            assert(table_model(out@) =~= m_prev.push(em));
            lemma_enc_table_items_push(m_prev, em);
            lemma_subrange_glue(s@, start as int, j as int - enc_entry(em).len(), j as int);
            assert(s@.subrange(start as int, j as int) =~= enc_table_items(table_model(out@)));
            assert forall|ms: Seq<EntryModel>|
                table_ok(ms) && ms.len() == n && (#[trigger] enc_table_items(ms)).is_prefix_of(
                    s@.skip(start as int),
                ) implies table_model(out@) == ms.take(k as int) && j == start + enc_table_items(
                ms.take(k as int),
            ).len() by {
                assert(ms.take(k as int) =~= ms.take(k - 1).push(ms[k - 1]));
                lemma_enc_table_items_push(ms.take(k - 1), ms[k - 1]);
                assert(table_model(out@) =~= ms.take(k as int));
            }
        }
    }
    proof {
        assert(s@.subrange(pos as int, pos + 1) =~= seq![n]);
        lemma_subrange_glue(s@, pos as int, start as int, j as int);
        assert(s@.subrange(pos as int, j as int) =~= enc_table(table_model(out@)));
        assert forall|ms: Seq<EntryModel>| table_ok(ms) && (#[trigger] enc_table(ms)).is_prefix_of(
            s@.skip(pos as int),
        ) implies table_model(out@) == ms && j == pos + enc_table(ms).len() by {
            assert(ms.len() == n);
            assert(ms.take(n as int) =~= ms);
        }
    }
    Some((out, j))
}

fn dec_round_called(s: &Vec<usize>, pos: usize) -> (r: Option<(Round<Called>, usize)>)
    requires
        pos <= s@.len(),
    ensures
        (match r {
            Some(p) => pos < p.1 <= s@.len() && round_called_ok(round_called_model(p.0))
                && s@.subrange(pos as int, p.1 as int) == enc_round_called(
                round_called_model(p.0),
            ),
            None => true,
        }),
        forall|m: RoundCalledModel| round_called_ok(m) && (#[trigger] enc_round_called(
            m,
        )).is_prefix_of(s@.skip(pos as int)) ==> (r matches Some(p) && round_called_model(p.0) == m
            && p.1 == pos + enc_round_called(m).len()),
{
    proof {
        assert forall|m: RoundCalledModel| round_called_ok(m) && (#[trigger] enc_round_called(
            m,
        )).is_prefix_of(s@.skip(pos as int)) implies (enc_prs(m.0)).is_prefix_of(
            s@.skip(pos as int),
        ) && (enc_turns(m.1)).is_prefix_of(s@.skip(pos + enc_prs(m.0).len())) && (enc_called(
            m.2,
        )).is_prefix_of(s@.skip(pos + enc_prs(m.0).len() + enc_turns(m.1).len())) by {
            assert(enc_round_called(m) =~= enc_prs(m.0) + (enc_turns(m.1) + enc_called(m.2)));
            lemma_prefix_split(enc_prs(m.0), enc_turns(m.1) + enc_called(m.2), s@.skip(pos as int));
            lemma_skip_skip(s@, pos as int, enc_prs(m.0).len() as int);
            lemma_prefix_split(enc_turns(m.1), enc_called(m.2), s@.skip(pos + enc_prs(m.0).len()));
            lemma_skip_skip(s@, pos + enc_prs(m.0).len(), enc_turns(m.1).len() as int);
        }
    }
    let (players_rolls, j1) = match dec_prs(s, pos) {
        Some(x) => x,
        None => {
            return None;
        },
    };
    let (turns, j2) = match dec_turns(s, j1) {
        Some(x) => x,
        None => {
            return None;
        },
    };
    let (state_data, j3) = match dec_called(s, j2) {
        Some(x) => x,
        None => {
            return None;
        },
    };
    let rd = Round { players_rolls, turns, state_data };
    proof {
        lemma_subrange_glue(s@, pos as int, j1 as int, j2 as int);
        lemma_subrange_glue(s@, pos as int, j2 as int, j3 as int);
        assert(s@.subrange(pos as int, j3 as int) =~= enc_round_called(round_called_model(rd)));
    }
    Some((rd, j3))
}

fn dec_round_new(s: &Vec<usize>, pos: usize) -> (r: Option<(Round<NewRound>, usize)>)
    requires
        pos <= s@.len(),
    ensures
        (match r {
            Some(p) => pos < p.1 <= s@.len() && round_new_ok(round_new_model(p.0)) && s@.subrange(
                pos as int,
                p.1 as int,
            ) == enc_round_new(round_new_model(p.0)),
            None => true,
        }),
        forall|m: RoundNewModel| round_new_ok(m) && (#[trigger] enc_round_new(m)).is_prefix_of(
            s@.skip(pos as int),
        ) ==> (r matches Some(p) && round_new_model(p.0) == m && p.1 == pos + enc_round_new(
            m,
        ).len()),
{
    proof {
        assert forall|m: RoundNewModel| round_new_ok(m) && (#[trigger] enc_round_new(
            m,
        )).is_prefix_of(s@.skip(pos as int)) implies (enc_prs(m.0)).is_prefix_of(
            s@.skip(pos as int),
        ) && (enc_turns(m.1)).is_prefix_of(s@.skip(pos + enc_prs(m.0).len())) && (enc_pr(
            m.2,
        )).is_prefix_of(s@.skip(pos + enc_prs(m.0).len() + enc_turns(m.1).len())) by {
            assert(enc_round_new(m) =~= enc_prs(m.0) + (enc_turns(m.1) + enc_pr(m.2)));
            lemma_prefix_split(enc_prs(m.0), enc_turns(m.1) + enc_pr(m.2), s@.skip(pos as int));
            lemma_skip_skip(s@, pos as int, enc_prs(m.0).len() as int);
            lemma_prefix_split(enc_turns(m.1), enc_pr(m.2), s@.skip(pos + enc_prs(m.0).len()));
            lemma_skip_skip(s@, pos + enc_prs(m.0).len(), enc_turns(m.1).len() as int);
        }
    }
    let (players_rolls, j1) = match dec_prs(s, pos) {
        Some(x) => x,
        None => {
            return None;
        },
    };
    let (turns, j2) = match dec_turns(s, j1) {
        Some(x) => x,
        None => {
            return None;
        },
    };
    let (first_player_rolls, j3) = match dec_pr(s, j2) {
        Some(x) => x,
        None => {
            return None;
        },
    };
    let rd = Round { players_rolls, turns, state_data: NewRound { first_player_rolls } };
    proof {
        lemma_subrange_glue(s@, pos as int, j1 as int, j2 as int);
        lemma_subrange_glue(s@, pos as int, j2 as int, j3 as int);
        assert(s@.subrange(pos as int, j3 as int) =~= enc_round_new(round_new_model(rd)));
    }
    Some((rd, j3))
}

fn dec_round_betting(s: &Vec<usize>, pos: usize) -> (r: Option<(Round<Betting>, usize)>)
    requires
        pos <= s@.len(),
    ensures
        (match r {
            Some(p) => pos < p.1 <= s@.len() && round_betting_ok(round_betting_model(p.0))
                && s@.subrange(pos as int, p.1 as int) == enc_round_betting(
                round_betting_model(p.0),
            ),
            None => true,
        }),
        forall|m: RoundBettingModel| round_betting_ok(m) && (#[trigger] enc_round_betting(
            m,
        )).is_prefix_of(s@.skip(pos as int)) ==> (r matches Some(p) && round_betting_model(p.0)
            == m && p.1 == pos + enc_round_betting(m).len()),
{
    proof {
        assert forall|m: RoundBettingModel| round_betting_ok(m) && (#[trigger] enc_round_betting(
            m,
        )).is_prefix_of(s@.skip(pos as int)) implies (enc_prs(m.0)).is_prefix_of(
            s@.skip(pos as int),
        ) && (enc_turns(m.1)).is_prefix_of(s@.skip(pos + enc_prs(m.0).len())) && (enc_pr(
            m.2.0,
        )).is_prefix_of(s@.skip(pos + enc_prs(m.0).len() + enc_turns(m.1).len())) && (enc_bet(
            m.2.1,
        )).is_prefix_of(
            s@.skip(pos + enc_prs(m.0).len() + enc_turns(m.1).len() + enc_pr(m.2.0).len()),
        ) by {
            assert(enc_round_betting(m) =~= enc_prs(m.0) + (enc_turns(m.1) + (enc_pr(m.2.0)
                + enc_bet(m.2.1))));
            lemma_prefix_split(
                enc_prs(m.0),
                enc_turns(m.1) + (enc_pr(m.2.0) + enc_bet(m.2.1)),
                s@.skip(pos as int),
            );
            lemma_skip_skip(s@, pos as int, enc_prs(m.0).len() as int);
            lemma_prefix_split(
                enc_turns(m.1),
                enc_pr(m.2.0) + enc_bet(m.2.1),
                s@.skip(pos + enc_prs(m.0).len()),
            );
            lemma_skip_skip(s@, pos + enc_prs(m.0).len(), enc_turns(m.1).len() as int);
            lemma_prefix_split(
                enc_pr(m.2.0),
                enc_bet(m.2.1),
                s@.skip(pos + enc_prs(m.0).len() + enc_turns(m.1).len()),
            );
            lemma_skip_skip(
                s@,
                pos + enc_prs(m.0).len() + enc_turns(m.1).len(),
                enc_pr(m.2.0).len() as int,
            );
        }
    }
    let (players_rolls, j1) = match dec_prs(s, pos) {
        Some(x) => x,
        None => {
            return None;
        },
    };
    let (turns, j2) = match dec_turns(s, j1) {
        Some(x) => x,
        None => {
            return None;
        },
    };
    let (curr_player_rolls, j3) = match dec_pr(s, j2) {
        Some(x) => x,
        None => {
            return None;
        },
    };
    let (prev_bet, j4) = match dec_bet(s, j3) {
        Some(x) => x,
        None => {
            return None;
        },
    };
    let rd = Round { players_rolls, turns, state_data: Betting { curr_player_rolls, prev_bet } };
    proof {
        lemma_subrange_glue(s@, pos as int, j1 as int, j2 as int);
        lemma_subrange_glue(s@, pos as int, j2 as int, j3 as int);
        lemma_subrange_glue(s@, pos as int, j3 as int, j4 as int);
        assert(s@.subrange(pos as int, j4 as int) =~= enc_round_betting(round_betting_model(rd)));
    }
    Some((rd, j4))
}

/// Reconstructs a fresh-phase game from its serialized snapshot: exactly
/// the encodings of such games decode, and decoding the encoding of a game
/// yields a game whose every part equals the original's.
pub fn decode_game_new(s: &Vec<usize>) -> (r: Option<Game<InRound<NewRound>>>)
    ensures
        (match r {
            Some(g) => game_new_ok(game_new_model(g)) && s@ == enc_game_new(game_new_model(g)),
            None => true,
        }),
        forall|m: GameNewModel| game_new_ok(m) && s@ == #[trigger] enc_game_new(m) ==> (r matches Some(
            g,
        ) && game_new_model(g) == m),
{
    proof {
        assert forall|m: GameNewModel| game_new_ok(m) && s@ == #[trigger] enc_game_new(
            m,
        ) implies 0 < s@.len() && s@[0] == phase_tag_new() && (enc_table(m.0)).is_prefix_of(
            s@.skip(1),
        ) && (enc_config(m.1)).is_prefix_of(s@.skip(1int + enc_table(m.0).len())) && (enc_rounds(
            m.2,
        )).is_prefix_of(s@.skip(1int + enc_table(m.0).len() + enc_config(m.1).len()))
            && (enc_round_new(m.3)).is_prefix_of(
            s@.skip(1int + enc_table(m.0).len() + enc_config(m.1).len() + enc_rounds(m.2).len()),
        ) && s@.len() == 1 + enc_table(m.0).len() + enc_config(m.1).len() + enc_rounds(m.2).len()
            + enc_round_new(m.3).len() by {
            assert(s@.is_prefix_of(s@));
            assert(s@ =~= enc_num(phase_tag_new()) + (enc_table(m.0) + (enc_config(m.1) + (
            enc_rounds(m.2) + enc_round_new(m.3)))));
            lemma_prefix_split(
                enc_num(phase_tag_new()),
                enc_table(m.0) + (enc_config(m.1) + (enc_rounds(m.2) + enc_round_new(m.3))),
                s@,
            );
            assert(s@.skip(0) =~= s@);
            lemma_skip_skip(s@, 0, 1);
            lemma_prefix_split(
                enc_table(m.0),
                enc_config(m.1) + (enc_rounds(m.2) + enc_round_new(m.3)),
                s@.skip(1),
            );
            lemma_skip_skip(s@, 1, enc_table(m.0).len() as int);
            lemma_prefix_split(
                enc_config(m.1),
                enc_rounds(m.2) + enc_round_new(m.3),
                s@.skip(1int + enc_table(m.0).len()),
            );
            lemma_skip_skip(s@, 1int + enc_table(m.0).len(), enc_config(m.1).len() as int);
            lemma_prefix_split(
                enc_rounds(m.2),
                enc_round_new(m.3),
                s@.skip(1int + enc_table(m.0).len() + enc_config(m.1).len()),
            );
            lemma_skip_skip(
                s@,
                1int + enc_table(m.0).len() + enc_config(m.1).len(),
                enc_rounds(m.2).len() as int,
            );
        }
    }
    if s.len() == 0 {
        return None;
    }
    if s[0] != 0 {
        return None;
    }
    proof {
        assert(s@.skip(0) =~= s@);
    }
    let (player_dice_counts, j1) = match dec_table(s, 1) {
        Some(x) => x,
        None => {
            return None;
        },
    };
    let (config, j2) = match dec_config(s, j1) {
        Some(x) => x,
        None => {
            return None;
        },
    };
    let (round_history, j3) = match dec_rounds(s, j2) {
        Some(x) => x,
        None => {
            return None;
        },
    };
    let (curr_round, j4) = match dec_round_new(s, j3) {
        Some(x) => x,
        None => {
            return None;
        },
    };
    if j4 != s.len() {
        return None;
    }
    let g = Game {
        player_dice_counts,
        config,
        round_history,
        state_data: InRound { curr_round },
    };
    proof {
        assert(s@.subrange(0, 1) =~= enc_num(phase_tag_new()));
        lemma_subrange_glue(s@, 0, 1, j1 as int);
        lemma_subrange_glue(s@, 0, j1 as int, j2 as int);
        lemma_subrange_glue(s@, 0, j2 as int, j3 as int);
        lemma_subrange_glue(s@, 0, j3 as int, j4 as int);
        assert(s@.subrange(0, s@.len() as int) =~= s@);
        assert(s@ =~= enc_game_new(game_new_model(g)));
    }
    Some(g)
}

/// Reconstructs a betting-phase game from its serialized snapshot.
pub fn decode_game_betting(s: &Vec<usize>) -> (r: Option<Game<InRound<Betting>>>)
    ensures
        (match r {
            Some(g) => game_betting_ok(game_betting_model(g)) && s@ == enc_game_betting(
                game_betting_model(g),
            ),
            None => true,
        }),
        forall|m: GameBettingModel| game_betting_ok(m) && s@ == #[trigger] enc_game_betting(m)
            ==> (r matches Some(g) && game_betting_model(g) == m),
{
    proof {
        assert forall|m: GameBettingModel| game_betting_ok(m) && s@ == #[trigger] enc_game_betting(
            m,
        ) implies 0 < s@.len() && s@[0] == phase_tag_betting() && (enc_table(m.0)).is_prefix_of(
            s@.skip(1),
        ) && (enc_config(m.1)).is_prefix_of(s@.skip(1int + enc_table(m.0).len())) && (enc_rounds(
            m.2,
        )).is_prefix_of(s@.skip(1int + enc_table(m.0).len() + enc_config(m.1).len()))
            && (enc_round_betting(m.3)).is_prefix_of(
            s@.skip(1int + enc_table(m.0).len() + enc_config(m.1).len() + enc_rounds(m.2).len()),
        ) && s@.len() == 1 + enc_table(m.0).len() + enc_config(m.1).len() + enc_rounds(m.2).len()
            + enc_round_betting(m.3).len() by {
            assert(s@.is_prefix_of(s@));
            assert(s@ =~= enc_num(phase_tag_betting()) + (enc_table(m.0) + (enc_config(m.1) + (
            enc_rounds(m.2) + enc_round_betting(m.3)))));
            lemma_prefix_split(
                enc_num(phase_tag_betting()),
                enc_table(m.0) + (enc_config(m.1) + (enc_rounds(m.2) + enc_round_betting(m.3))),
                s@,
            );
            assert(s@.skip(0) =~= s@);
            lemma_skip_skip(s@, 0, 1);
            lemma_prefix_split(
                enc_table(m.0),
                enc_config(m.1) + (enc_rounds(m.2) + enc_round_betting(m.3)),
                s@.skip(1),
            );
            lemma_skip_skip(s@, 1, enc_table(m.0).len() as int);
            lemma_prefix_split(
                enc_config(m.1),
                enc_rounds(m.2) + enc_round_betting(m.3),
                s@.skip(1int + enc_table(m.0).len()),
            );
            lemma_skip_skip(s@, 1int + enc_table(m.0).len(), enc_config(m.1).len() as int);
            lemma_prefix_split(
                enc_rounds(m.2),
                enc_round_betting(m.3),
                s@.skip(1int + enc_table(m.0).len() + enc_config(m.1).len()),
            );
            lemma_skip_skip(
                s@,
                1int + enc_table(m.0).len() + enc_config(m.1).len(),
                enc_rounds(m.2).len() as int,
            );
        }
    }
    if s.len() == 0 {
        return None;
    }
    if s[0] != 1 {
        return None;
    }
    proof {
        assert(s@.skip(0) =~= s@);
    }
    let (player_dice_counts, j1) = match dec_table(s, 1) {
        Some(x) => x,
        None => {
            return None;
        },
    };
    let (config, j2) = match dec_config(s, j1) {
        Some(x) => x,
        None => {
            return None;
        },
    };
    let (round_history, j3) = match dec_rounds(s, j2) {
        Some(x) => x,
        None => {
            return None;
        },
    };
    let (curr_round, j4) = match dec_round_betting(s, j3) {
        Some(x) => x,
        None => {
            return None;
        },
    };
    if j4 != s.len() {
        return None;
    }
    let g = Game {
        player_dice_counts,
        config,
        round_history,
        state_data: InRound { curr_round },
    };
    proof {
        assert(s@.subrange(0, 1) =~= enc_num(phase_tag_betting()));
        lemma_subrange_glue(s@, 0, 1, j1 as int);
        lemma_subrange_glue(s@, 0, j1 as int, j2 as int);
        lemma_subrange_glue(s@, 0, j2 as int, j3 as int);
        lemma_subrange_glue(s@, 0, j3 as int, j4 as int);
        assert(s@.subrange(0, s@.len() as int) =~= s@);
        assert(s@ =~= enc_game_betting(game_betting_model(g)));
    }
    Some(g)
}

/// Reconstructs a finished game from its serialized snapshot.
pub fn decode_game_over(s: &Vec<usize>) -> (r: Option<Game<GameOver>>)
    ensures
        (match r {
            Some(g) => game_over_ok(game_over_model(g)) && s@ == enc_game_over(game_over_model(g)),
            None => true,
        }),
        forall|m: GameOverModel| game_over_ok(m) && s@ == #[trigger] enc_game_over(m) ==> (r matches Some(
            g,
        ) && game_over_model(g) == m),
{
    proof {
        assert forall|m: GameOverModel| game_over_ok(m) && s@ == #[trigger] enc_game_over(
            m,
        ) implies 0 < s@.len() && s@[0] == phase_tag_over() && (enc_table(m.0)).is_prefix_of(
            s@.skip(1),
        ) && (enc_config(m.1)).is_prefix_of(s@.skip(1int + enc_table(m.0).len())) && (enc_rounds(
            m.2,
        )).is_prefix_of(s@.skip(1int + enc_table(m.0).len() + enc_config(m.1).len())) && (enc_name(
            m.3,
        )).is_prefix_of(
            s@.skip(1int + enc_table(m.0).len() + enc_config(m.1).len() + enc_rounds(m.2).len()),
        ) && s@.len() == 1 + enc_table(m.0).len() + enc_config(m.1).len() + enc_rounds(m.2).len()
            + enc_name(m.3).len() by {
            assert(s@.is_prefix_of(s@));
            assert(s@ =~= enc_num(phase_tag_over()) + (enc_table(m.0) + (enc_config(m.1) + (
            enc_rounds(m.2) + enc_name(m.3)))));
            lemma_prefix_split(
                enc_num(phase_tag_over()),
                enc_table(m.0) + (enc_config(m.1) + (enc_rounds(m.2) + enc_name(m.3))),
                s@,
            );
            assert(s@.skip(0) =~= s@);
            lemma_skip_skip(s@, 0, 1);
            lemma_prefix_split(
                enc_table(m.0),
                enc_config(m.1) + (enc_rounds(m.2) + enc_name(m.3)),
                s@.skip(1),
            );
            lemma_skip_skip(s@, 1, enc_table(m.0).len() as int);
            lemma_prefix_split(
                enc_config(m.1),
                enc_rounds(m.2) + enc_name(m.3),
                s@.skip(1int + enc_table(m.0).len()),
            );
            lemma_skip_skip(s@, 1int + enc_table(m.0).len(), enc_config(m.1).len() as int);
            lemma_prefix_split(
                enc_rounds(m.2),
                enc_name(m.3),
                s@.skip(1int + enc_table(m.0).len() + enc_config(m.1).len()),
            );
            lemma_skip_skip(
                s@,
                1int + enc_table(m.0).len() + enc_config(m.1).len(),
                enc_rounds(m.2).len() as int,
            );
        }
    }
    if s.len() == 0 {
        return None;
    }
    if s[0] != 2 {
        return None;
    }
    proof {
        assert(s@.skip(0) =~= s@);
    }
    let (player_dice_counts, j1) = match dec_table(s, 1) {
        Some(x) => x,
        None => {
            return None;
        },
    };
    let (config, j2) = match dec_config(s, j1) {
        Some(x) => x,
        None => {
            return None;
        },
    };
    let (round_history, j3) = match dec_rounds(s, j2) {
        Some(x) => x,
        None => {
            return None;
        },
    };
    let (winner, j4) = match dec_name(s, j3) {
        Some(x) => x,
        None => {
            return None;
        },
    };
    if j4 != s.len() {
        return None;
    }
    let g = Game { player_dice_counts, config, round_history, state_data: GameOver { winner } };
    proof {
        assert(s@.subrange(0, 1) =~= enc_num(phase_tag_over()));
        lemma_subrange_glue(s@, 0, 1, j1 as int);
        lemma_subrange_glue(s@, 0, j1 as int, j2 as int);
        lemma_subrange_glue(s@, 0, j2 as int, j3 as int);
        lemma_subrange_glue(s@, 0, j3 as int, j4 as int);
        assert(s@.subrange(0, s@.len() as int) =~= s@);
        assert(s@ =~= enc_game_over(game_over_model(g)));
    }
    Some(g)
}

fn dec_rounds(s: &Vec<usize>, pos: usize) -> (r: Option<(Vec<Round<Called>>, usize)>)
    requires
        pos <= s@.len(),
    ensures
        (match r {
            Some(p) => pos < p.1 <= s@.len() && rounds_ok(rounds_model(p.0@)) && s@.subrange(
                pos as int,
                p.1 as int,
            ) == enc_rounds(rounds_model(p.0@)),
            None => true,
        }),
        forall|ms: Seq<RoundCalledModel>| rounds_ok(ms) && (#[trigger] enc_rounds(
            ms,
        )).is_prefix_of(s@.skip(pos as int)) ==> (r matches Some(p) && rounds_model(p.0@) == ms
            && p.1 == pos + enc_rounds(ms).len()),
{
    proof {
        assert forall|ms: Seq<RoundCalledModel>| rounds_ok(ms) && (#[trigger] enc_rounds(
            ms,
        )).is_prefix_of(s@.skip(pos as int)) implies pos < s@.len() && s@[pos as int] == ms.len()
            && (enc_rounds_items(ms)).is_prefix_of(s@.skip(pos + 1)) by {
            lemma_prefix_split(seq![ms.len() as usize], enc_rounds_items(ms), s@.skip(pos as int));
            assert(seq![ms.len() as usize][0] == s@.skip(pos as int)[0]);
            lemma_skip_skip(s@, pos as int, 1);
        }
    }
    if pos >= s.len() {
        return None;
    }
    let n = s[pos];
    let start = pos + 1;
    let mut out: Vec<Round<Called>> = Vec::new();
    let mut k: usize = 0;
    let mut j: usize = start;
    proof {
        assert(rounds_model(out@) =~= Seq::<RoundCalledModel>::empty());
        assert(enc_rounds_items(rounds_model(out@)) =~= Seq::<usize>::empty());
        assert(s@.subrange(start as int, start as int) =~= enc_rounds_items(rounds_model(out@)));
        assert forall|ms: Seq<RoundCalledModel>|
            rounds_ok(ms) && ms.len() == n && (#[trigger] enc_rounds_items(ms)).is_prefix_of(
                s@.skip(start as int),
            ) implies rounds_model(out@) == ms.take(0) && j == start + enc_rounds_items(
            ms.take(0),
        ).len() by {
            assert(ms.take(0) =~= Seq::<RoundCalledModel>::empty());
            assert(enc_rounds_items(ms.take(0)) =~= Seq::<usize>::empty());
            assert(rounds_model(out@) =~= ms.take(0));
        }
    }
    while k < n
        invariant
            pos < s@.len(),
            n == s@[pos as int],
            start == pos + 1,
            start <= j <= s@.len(),
            k <= n,
            out@.len() == k,
            forall|q: int| 0 <= q < k ==> round_called_ok(#[trigger] rounds_model(out@)[q]),
            s@.subrange(start as int, j as int) == enc_rounds_items(rounds_model(out@)),
            forall|ms: Seq<RoundCalledModel>|
                rounds_ok(ms) && ms.len() == n && (#[trigger] enc_rounds_items(ms)).is_prefix_of(
                    s@.skip(start as int),
                ) ==> rounds_model(out@) == ms.take(k as int) && j == start + enc_rounds_items(
                    ms.take(k as int),
                ).len(),
        decreases n - k,
    {
        proof {
            assert forall|ms: Seq<RoundCalledModel>|
                rounds_ok(ms) && ms.len() == n && (#[trigger] enc_rounds_items(ms)).is_prefix_of(
                    s@.skip(start as int),
                ) implies round_called_ok(ms[k as int]) && (enc_round_called(
                ms[k as int],
            )).is_prefix_of(s@.skip(j as int)) by {
                lemma_enc_rounds_items_split(ms, k as int);
                assert(ms.skip(k as int)[0] == ms[k as int]);
                assert(ms.skip(k as int).skip(1) =~= ms.skip(k + 1));
                assert(enc_rounds_items(ms.skip(k as int)) == enc_round_called(ms[k as int])
                    + enc_rounds_items(ms.skip(k + 1)));
                lemma_prefix_split(
                    enc_rounds_items(ms.take(k as int)),
                    enc_rounds_items(ms.skip(k as int)),
                    s@.skip(start as int),
                );
                lemma_skip_skip(s@, start as int, enc_rounds_items(ms.take(k as int)).len() as int);
                lemma_prefix_split(
                    enc_round_called(ms[k as int]),
                    enc_rounds_items(ms.skip(k + 1)),
                    s@.skip(j as int),
                );
            }
        }
        let ghost m_prev = rounds_model(out@);
        let (rd, j2) = match dec_round_called(s, j) {
            Some(x) => x,
            None => {
                proof {
                    assert forall|ms: Seq<RoundCalledModel>|
                        rounds_ok(ms) && (#[trigger] enc_rounds(ms)).is_prefix_of(
                            s@.skip(pos as int),
                        ) implies false by {
                        lemma_prefix_split(
                            seq![ms.len() as usize],
                            enc_rounds_items(ms),
                            s@.skip(pos as int),
                        );
                        assert(seq![ms.len() as usize][0] == s@.skip(pos as int)[0]);
                        lemma_skip_skip(s@, pos as int, 1);
                        assert(ms.len() == n);
                    }
                }
                return None;
            },
        };
        out.push(rd);
        j = j2;
        k = k + 1;
        proof {
            assert(rounds_model(out@) =~= m_prev.push(round_called_model(rd)));
            lemma_enc_rounds_items_push(m_prev, round_called_model(rd));
            lemma_subrange_glue(
                s@,
                start as int,
                j as int - enc_round_called(round_called_model(rd)).len(),
                j as int,
            );
            assert(s@.subrange(start as int, j as int) =~= enc_rounds_items(rounds_model(out@)));
            assert forall|ms: Seq<RoundCalledModel>|
                rounds_ok(ms) && ms.len() == n && (#[trigger] enc_rounds_items(ms)).is_prefix_of(
                    s@.skip(start as int),
                ) implies rounds_model(out@) == ms.take(k as int) && j == start + enc_rounds_items(
                ms.take(k as int),
            ).len() by {
                assert(ms.take(k as int) =~= ms.take(k - 1).push(ms[k - 1]));
                lemma_enc_rounds_items_push(ms.take(k - 1), ms[k - 1]);
                assert(rounds_model(out@) =~= ms.take(k as int));
            }
        }
    }
    proof {
        assert(s@.subrange(pos as int, pos + 1) =~= seq![n]);
        lemma_subrange_glue(s@, pos as int, start as int, j as int);
        assert(s@.subrange(pos as int, j as int) =~= enc_rounds(rounds_model(out@)));
        assert forall|ms: Seq<RoundCalledModel>| rounds_ok(ms) && (#[trigger] enc_rounds(
            ms,
        )).is_prefix_of(s@.skip(pos as int)) implies rounds_model(out@) == ms && j == pos
            + enc_rounds(ms).len() by {
            assert(ms.len() == n);
            assert(ms.take(n as int) =~= ms);
        }
    }
    Some((out, j))
}

// ---------------------------------------------------------------------
// Item-list encodings split at any position.
// ---------------------------------------------------------------------

proof fn lemma_enc_prs_items_split(ms: Seq<PrModel>, k: int)
    requires
        0 <= k <= ms.len(),
    ensures
        enc_prs_items(ms) == enc_prs_items(ms.take(k)) + enc_prs_items(ms.skip(k)),
    decreases k,
{
    if k == 0 {
        assert(ms.take(0) =~= Seq::<PrModel>::empty());
        assert(enc_prs_items(ms.take(0)) =~= Seq::<usize>::empty());
        assert(ms.skip(0) =~= ms);
        assert(enc_prs_items(ms.take(0)) + enc_prs_items(ms.skip(0)) =~= enc_prs_items(ms));
    } else {
        lemma_enc_prs_items_split(ms, k - 1);
        assert(ms.skip(k - 1)[0] == ms[k - 1]);
        assert(ms.skip(k - 1).skip(1) =~= ms.skip(k));
        assert(enc_prs_items(ms.skip(k - 1)) == enc_pr(ms[k - 1]) + enc_prs_items(ms.skip(k)));
        assert(ms.take(k) =~= ms.take(k - 1).push(ms[k - 1]));
        lemma_enc_prs_items_push(ms.take(k - 1), ms[k - 1]);
        assert(enc_prs_items(ms.take(k)) + enc_prs_items(ms.skip(k)) =~= enc_prs_items(
            ms.take(k - 1),
        ) + (enc_pr(ms[k - 1]) + enc_prs_items(ms.skip(k))));
    }
}

proof fn lemma_enc_turns_items_split(ms: Seq<TurnModel>, k: int)
    requires
        0 <= k <= ms.len(),
    ensures
        enc_turns_items(ms) == enc_turns_items(ms.take(k)) + enc_turns_items(ms.skip(k)),
    decreases k,
{
    if k == 0 {
        assert(ms.take(0) =~= Seq::<TurnModel>::empty());
        assert(enc_turns_items(ms.take(0)) =~= Seq::<usize>::empty());
        assert(ms.skip(0) =~= ms);
        assert(enc_turns_items(ms.take(0)) + enc_turns_items(ms.skip(0)) =~= enc_turns_items(ms));
    } else {
        lemma_enc_turns_items_split(ms, k - 1);
        assert(ms.skip(k - 1)[0] == ms[k - 1]);
        assert(ms.skip(k - 1).skip(1) =~= ms.skip(k));
        assert(enc_turns_items(ms.skip(k - 1)) == enc_turn(ms[k - 1]) + enc_turns_items(
            ms.skip(k),
        ));
        assert(ms.take(k) =~= ms.take(k - 1).push(ms[k - 1]));
        lemma_enc_turns_items_push(ms.take(k - 1), ms[k - 1]);
        assert(enc_turns_items(ms.take(k)) + enc_turns_items(ms.skip(k)) =~= enc_turns_items(
            ms.take(k - 1),
        ) + (enc_turn(ms[k - 1]) + enc_turns_items(ms.skip(k))));
    }
}

proof fn lemma_enc_rounds_items_split(ms: Seq<RoundCalledModel>, k: int)
    requires
        0 <= k <= ms.len(),
    ensures
        enc_rounds_items(ms) == enc_rounds_items(ms.take(k)) + enc_rounds_items(ms.skip(k)),
    decreases k,
{
    if k == 0 {
        assert(ms.take(0) =~= Seq::<RoundCalledModel>::empty());
        assert(enc_rounds_items(ms.take(0)) =~= Seq::<usize>::empty());
        assert(ms.skip(0) =~= ms);
        assert(enc_rounds_items(ms.take(0)) + enc_rounds_items(ms.skip(0)) =~= enc_rounds_items(
            ms,
        ));
    } else {
        lemma_enc_rounds_items_split(ms, k - 1);
        assert(ms.skip(k - 1)[0] == ms[k - 1]);
        assert(ms.skip(k - 1).skip(1) =~= ms.skip(k));
        assert(enc_rounds_items(ms.skip(k - 1)) == enc_round_called(ms[k - 1]) + enc_rounds_items(
            ms.skip(k),
        ));
        assert(ms.take(k) =~= ms.take(k - 1).push(ms[k - 1]));
        lemma_enc_rounds_items_push(ms.take(k - 1), ms[k - 1]);
        assert(enc_rounds_items(ms.take(k)) + enc_rounds_items(ms.skip(k)) =~= enc_rounds_items(
            ms.take(k - 1),
        ) + (enc_round_called(ms[k - 1]) + enc_rounds_items(ms.skip(k))));
    }
}

proof fn lemma_enc_table_items_split(ms: Seq<EntryModel>, k: int)
    requires
        0 <= k <= ms.len(),
    ensures
        enc_table_items(ms) == enc_table_items(ms.take(k)) + enc_table_items(ms.skip(k)),
    decreases k,
{
    if k == 0 {
        assert(ms.take(0) =~= Seq::<EntryModel>::empty());
        assert(enc_table_items(ms.take(0)) =~= Seq::<usize>::empty());
        assert(ms.skip(0) =~= ms);
        assert(enc_table_items(ms.take(0)) + enc_table_items(ms.skip(0)) =~= enc_table_items(ms));
    } else {
        lemma_enc_table_items_split(ms, k - 1);
        assert(ms.skip(k - 1)[0] == ms[k - 1]);
        assert(ms.skip(k - 1).skip(1) =~= ms.skip(k));
        assert(enc_table_items(ms.skip(k - 1)) == enc_entry(ms[k - 1]) + enc_table_items(
            ms.skip(k),
        ));
        assert(ms.take(k) =~= ms.take(k - 1).push(ms[k - 1]));
        lemma_enc_table_items_push(ms.take(k - 1), ms[k - 1]);
        assert(enc_table_items(ms.take(k)) + enc_table_items(ms.skip(k)) =~= enc_table_items(
            ms.take(k - 1),
        ) + (enc_entry(ms[k - 1]) + enc_table_items(ms.skip(k))));
    }
}

// ---------------------------------------------------------------------
// Encoders: append a value's encoding to the token stream.
// ---------------------------------------------------------------------

fn push_num(out: &mut Vec<usize>, x: usize)
    ensures
        final(out)@ == old(out)@ + enc_num(x),
{
    out.push(x);
    proof {
        assert(final(out)@ =~= old(out)@ + enc_num(x));
    }
}

fn push_bool(out: &mut Vec<usize>, b: bool)
    ensures
        final(out)@ == old(out)@ + enc_bool(b),
{
    if b {
        out.push(1);
    } else {
        out.push(0);
    }
    proof {
        assert(final(out)@ =~= old(out)@ + enc_bool(b));
    }
}

fn push_bet(out: &mut Vec<usize>, b: &Bet)
    ensures
        final(out)@ == old(out)@ + enc_bet(*b),
{
    out.push(b.count);
    out.push(b.roll);
    proof {
        assert(final(out)@ =~= old(out)@ + enc_bet(*b));
    }
}

fn push_name(out: &mut Vec<usize>, p: &Player)
    ensures
        final(out)@ == old(out)@ + enc_name(p@),
        name_ok(p@),
{
    let s = p.as_str();
    let n = s.unicode_len();
    out.push(n);
    let mut i: usize = 0;
    proof {
        assert(out@ =~= old(out)@ + seq![n] + name_tokens(s@.take(0)));
    }
    while i < n
        invariant
            n == s@.len(),
            s@ == p@,
            i <= n,
            out@ == old(out)@ + seq![n] + name_tokens(s@.take(i as int)),
        decreases n - i,
    {
        let c = s.get_char(i);
        out.push((c as u32) as usize);
        proof {
            assert(name_tokens(s@.take(i + 1)) =~= name_tokens(s@.take(i as int)).push(
                char_token(s@[i as int]),
            ));
            assert(out@ =~= old(out)@ + seq![n] + name_tokens(s@.take(i + 1)));
        }
        i = i + 1;
    }
    proof {
        assert(s@.take(n as int) =~= s@);
        assert(out@ =~= old(out)@ + enc_name(p@));
    }
}

fn push_rolls(out: &mut Vec<usize>, rs: &Vec<usize>)
    ensures
        final(out)@ == old(out)@ + enc_rolls(rs@),
        rolls_ok(rs@),
{
    let n = rs.len();
    out.push(n);
    let mut i: usize = 0;
    while i < n
        invariant
            n == rs@.len(),
            i <= n,
            out@ == old(out)@ + seq![n] + rs@.take(i as int),
        decreases n - i,
    {
        out.push(rs[i]);
        proof {
            assert(rs@.take(i + 1) =~= rs@.take(i as int).push(rs@[i as int]));
            assert(out@ =~= old(out)@ + seq![n] + rs@.take(i + 1));
        }
        i = i + 1;
    }
    proof {
        assert(rs@.take(n as int) =~= rs@);
        assert(out@ =~= old(out)@ + enc_rolls(rs@));
    }
}

fn push_pr(out: &mut Vec<usize>, pr: &PlayerRolls)
    ensures
        final(out)@ == old(out)@ + enc_pr(pr_model(*pr)),
        pr_ok(pr_model(*pr)),
{
    push_name(out, &pr.player);
    push_rolls(out, &pr.rolls);
    proof {
        assert(out@ =~= old(out)@ + enc_pr(pr_model(*pr)));
    }
}

fn push_turn(out: &mut Vec<usize>, t: &Turn)
    ensures
        final(out)@ == old(out)@ + enc_turn(turn_model(*t)),
        turn_ok(turn_model(*t)),
{
    push_name(out, &t.player);
    push_bet(out, &t.bet);
    proof {
        assert(out@ =~= old(out)@ + enc_turn(turn_model(*t)));
    }
}

fn push_called(out: &mut Vec<usize>, c: &Called)
    ensures
        final(out)@ == old(out)@ + enc_called(called_model(*c)),
        called_ok(called_model(*c)),
{
    push_name(out, &c.caller);
    push_name(out, &c.better);
    push_bool(out, c.was_fluff);
    proof {
        assert(out@ =~= old(out)@ + enc_called(called_model(*c)));
    }
}

fn push_prs(out: &mut Vec<usize>, prs: &Vec<PlayerRolls>)
    ensures
        final(out)@ == old(out)@ + enc_prs(prs_model(prs@)),
        prs_ok(prs_model(prs@)),
{
    let n = prs.len();
    out.push(n);
    let mut i: usize = 0;
    proof {
        assert(prs_model(prs@.take(0)) =~= Seq::<PrModel>::empty());
        assert(enc_prs_items(prs_model(prs@.take(0))) =~= Seq::<usize>::empty());
        assert(out@ =~= old(out)@ + seq![n] + enc_prs_items(prs_model(prs@.take(0))));
    }
    while i < n
        invariant
            n == prs@.len(),
            i <= n,
            out@ == old(out)@ + seq![n] + enc_prs_items(prs_model(prs@.take(i as int))),
            forall|k: int| 0 <= k < i ==> pr_ok(#[trigger] prs_model(prs@)[k]),
        decreases n - i,
    {
        push_pr(out, &prs[i]);
        proof {
            assert(prs_model(prs@.take(i + 1)) =~= prs_model(prs@.take(i as int)).push(
                pr_model(prs@[i as int]),
            ));
            lemma_enc_prs_items_push(prs_model(prs@.take(i as int)), pr_model(prs@[i as int]));
            assert(out@ =~= old(out)@ + seq![n] + enc_prs_items(prs_model(prs@.take(i + 1))));
            assert(prs_model(prs@)[i as int] == pr_model(prs@[i as int]));
        }
        i = i + 1;
    }
    proof {
        assert(prs@.take(n as int) =~= prs@);
        assert(out@ =~= old(out)@ + enc_prs(prs_model(prs@)));
    }
}

fn push_turns(out: &mut Vec<usize>, ts: &Vec<Turn>)
    ensures
        final(out)@ == old(out)@ + enc_turns(turns_model(ts@)),
        turns_ok(turns_model(ts@)),
{
    let n = ts.len();
    out.push(n);
    let mut i: usize = 0;
    proof {
        assert(turns_model(ts@.take(0)) =~= Seq::<TurnModel>::empty());
        assert(enc_turns_items(turns_model(ts@.take(0))) =~= Seq::<usize>::empty());
        assert(out@ =~= old(out)@ + seq![n] + enc_turns_items(turns_model(ts@.take(0))));
    }
    while i < n
        invariant
            n == ts@.len(),
            i <= n,
            out@ == old(out)@ + seq![n] + enc_turns_items(turns_model(ts@.take(i as int))),
            forall|k: int| 0 <= k < i ==> turn_ok(#[trigger] turns_model(ts@)[k]),
        decreases n - i,
    {
        push_turn(out, &ts[i]);
        proof {
            assert(turns_model(ts@.take(i + 1)) =~= turns_model(ts@.take(i as int)).push(
                turn_model(ts@[i as int]),
            ));
            lemma_enc_turns_items_push(turns_model(ts@.take(i as int)), turn_model(ts@[i as int]));
            assert(out@ =~= old(out)@ + seq![n] + enc_turns_items(turns_model(ts@.take(i + 1))));
            assert(turns_model(ts@)[i as int] == turn_model(ts@[i as int]));
        }
        i = i + 1;
    }
    proof {
        assert(ts@.take(n as int) =~= ts@);
        assert(out@ =~= old(out)@ + enc_turns(turns_model(ts@)));
    }
}

fn push_round_called(out: &mut Vec<usize>, rd: &Round<Called>)
    ensures
        final(out)@ == old(out)@ + enc_round_called(round_called_model(*rd)),
        round_called_ok(round_called_model(*rd)),
{
    push_prs(out, &rd.players_rolls);
    push_turns(out, &rd.turns);
    push_called(out, &rd.state_data);
    proof {
        assert(out@ =~= old(out)@ + enc_round_called(round_called_model(*rd)));
    }
}

fn push_rounds(out: &mut Vec<usize>, rds: &Vec<Round<Called>>)
    ensures
        final(out)@ == old(out)@ + enc_rounds(rounds_model(rds@)),
        rounds_ok(rounds_model(rds@)),
{
    let n = rds.len();
    out.push(n);
    let mut i: usize = 0;
    proof {
        assert(rounds_model(rds@.take(0)) =~= Seq::<RoundCalledModel>::empty());
        assert(enc_rounds_items(rounds_model(rds@.take(0))) =~= Seq::<usize>::empty());
        assert(out@ =~= old(out)@ + seq![n] + enc_rounds_items(rounds_model(rds@.take(0))));
    }
    while i < n
        invariant
            n == rds@.len(),
            i <= n,
            out@ == old(out)@ + seq![n] + enc_rounds_items(rounds_model(rds@.take(i as int))),
            forall|k: int| 0 <= k < i ==> round_called_ok(#[trigger] rounds_model(rds@)[k]),
        decreases n - i,
    {
        push_round_called(out, &rds[i]);
        proof {
            assert(rounds_model(rds@.take(i + 1)) =~= rounds_model(rds@.take(i as int)).push(
                round_called_model(rds@[i as int]),
            ));
            lemma_enc_rounds_items_push(
                rounds_model(rds@.take(i as int)),
                round_called_model(rds@[i as int]),
            );
            assert(out@ =~= old(out)@ + seq![n] + enc_rounds_items(rounds_model(rds@.take(i + 1))));
            assert(rounds_model(rds@)[i as int] == round_called_model(rds@[i as int]));
        }
        i = i + 1;
    }
    proof {
        assert(rds@.take(n as int) =~= rds@);
        assert(out@ =~= old(out)@ + enc_rounds(rounds_model(rds@)));
    }
}

fn push_table(out: &mut Vec<usize>, t: &Vec<(Player, usize)>)
    ensures
        final(out)@ == old(out)@ + enc_table(table_model(t@)),
        table_ok(table_model(t@)),
{
    let n = t.len();
    out.push(n);
    let mut i: usize = 0;
    proof {
        assert(table_model(t@.take(0)) =~= Seq::<EntryModel>::empty());
        assert(enc_table_items(table_model(t@.take(0))) =~= Seq::<usize>::empty());
        assert(out@ =~= old(out)@ + seq![n] + enc_table_items(table_model(t@.take(0))));
    }
    while i < n
        invariant
            n == t@.len(),
            i <= n,
            out@ == old(out)@ + seq![n] + enc_table_items(table_model(t@.take(i as int))),
            forall|k: int| 0 <= k < i ==> entry_ok(#[trigger] table_model(t@)[k]),
        decreases n - i,
    {
        let e = &t[i];
        push_name(out, &e.0);
        push_num(out, e.1);
        proof {
            assert(table_model(t@.take(i + 1)) =~= table_model(t@.take(i as int)).push(
                (t@[i as int].0@, t@[i as int].1),
            ));
            lemma_enc_table_items_push(table_model(t@.take(i as int)), (t@[i as int].0@, t@[i as int].1));
            assert(out@ =~= old(out)@ + seq![n] + enc_table_items(table_model(t@.take(i + 1))));
            assert(table_model(t@)[i as int] == (t@[i as int].0@, t@[i as int].1));
        }
        i = i + 1;
    }
    proof {
        assert(t@.take(n as int) =~= t@);
        assert(out@ =~= old(out)@ + enc_table(table_model(t@)));
    }
}

fn push_config(out: &mut Vec<usize>, c: &GameConfig)
    ensures
        final(out)@ == old(out)@ + enc_config(*c),
{
    out.push(c.max_dice);
    out.push(c.max_roll);
    proof {
        assert(out@ =~= old(out)@ + enc_config(*c));
    }
}

/// Serializes a fresh-phase game.
pub fn encode_game_new(g: &Game<InRound<NewRound>>) -> (r: Vec<usize>)
    ensures
        r@ == enc_game_new(game_new_model(*g)),
        game_new_ok(game_new_model(*g)),
{
    let mut out: Vec<usize> = Vec::new();
    push_num(&mut out, 0);
    push_table(&mut out, &g.player_dice_counts);
    push_config(&mut out, &g.config);
    push_rounds(&mut out, &g.round_history);
    push_prs(&mut out, &g.state_data.curr_round.players_rolls);
    push_turns(&mut out, &g.state_data.curr_round.turns);
    push_pr(&mut out, &g.state_data.curr_round.state_data.first_player_rolls);
    proof {
        assert(out@ =~= enc_game_new(game_new_model(*g)));
    }
    out
}

/// Serializes a betting-phase game.
pub fn encode_game_betting(g: &Game<InRound<Betting>>) -> (r: Vec<usize>)
    ensures
        r@ == enc_game_betting(game_betting_model(*g)),
        game_betting_ok(game_betting_model(*g)),
{
    let mut out: Vec<usize> = Vec::new();
    push_num(&mut out, 1);
    push_table(&mut out, &g.player_dice_counts);
    push_config(&mut out, &g.config);
    push_rounds(&mut out, &g.round_history);
    push_prs(&mut out, &g.state_data.curr_round.players_rolls);
    push_turns(&mut out, &g.state_data.curr_round.turns);
    push_pr(&mut out, &g.state_data.curr_round.state_data.curr_player_rolls);
    push_bet(&mut out, &g.state_data.curr_round.state_data.prev_bet);
    proof {
        assert(out@ =~= enc_game_betting(game_betting_model(*g)));
    }
    out
}

/// Serializes a finished game.
pub fn encode_game_over(g: &Game<GameOver>) -> (r: Vec<usize>)
    ensures
        r@ == enc_game_over(game_over_model(*g)),
        game_over_ok(game_over_model(*g)),
{
    let mut out: Vec<usize> = Vec::new();
    push_num(&mut out, 2);
    push_table(&mut out, &g.player_dice_counts);
    push_config(&mut out, &g.config);
    push_rounds(&mut out, &g.round_history);
    push_name(&mut out, &g.state_data.winner);
    proof {
        assert(out@ =~= enc_game_over(game_over_model(*g)));
    }
    out
}

// ---------------------------------------------------------------------
// Item-list encodings grow one element at a time.
// ---------------------------------------------------------------------

proof fn lemma_enc_prs_items_push(ms: Seq<PrModel>, x: PrModel)
    ensures
        enc_prs_items(ms.push(x)) == enc_prs_items(ms) + enc_pr(x),
    decreases ms.len(),
{
    if ms.len() == 0 {
        let p = ms.push(x);
        assert(p[0] == x);
        assert(p.skip(1) =~= Seq::<PrModel>::empty());
        assert(enc_prs_items(p.skip(1)) =~= Seq::<usize>::empty());
        assert(enc_prs_items(p) =~= enc_pr(x));
        assert(enc_prs_items(ms) + enc_pr(x) =~= enc_pr(x));
    } else {
        assert(ms.push(x).skip(1) =~= ms.skip(1).push(x));
        lemma_enc_prs_items_push(ms.skip(1), x);
        assert(ms.push(x)[0] == ms[0]);
        assert(enc_pr(ms[0]) + (enc_prs_items(ms.skip(1)) + enc_pr(x)) =~= (enc_pr(ms[0])
            + enc_prs_items(ms.skip(1))) + enc_pr(x));
    }
}

proof fn lemma_enc_turns_items_push(ms: Seq<TurnModel>, x: TurnModel)
    ensures
        enc_turns_items(ms.push(x)) == enc_turns_items(ms) + enc_turn(x),
    decreases ms.len(),
{
    if ms.len() == 0 {
        let p = ms.push(x);
        assert(p[0] == x);
        assert(p.skip(1) =~= Seq::<TurnModel>::empty());
        assert(enc_turns_items(p.skip(1)) =~= Seq::<usize>::empty());
        assert(enc_turns_items(p) =~= enc_turn(x));
        assert(enc_turns_items(ms) + enc_turn(x) =~= enc_turn(x));
    } else {
        assert(ms.push(x).skip(1) =~= ms.skip(1).push(x));
        lemma_enc_turns_items_push(ms.skip(1), x);
        assert(ms.push(x)[0] == ms[0]);
        assert(enc_turn(ms[0]) + (enc_turns_items(ms.skip(1)) + enc_turn(x)) =~= (enc_turn(ms[0])
            + enc_turns_items(ms.skip(1))) + enc_turn(x));
    }
}

proof fn lemma_enc_rounds_items_push(ms: Seq<RoundCalledModel>, x: RoundCalledModel)
    ensures
        enc_rounds_items(ms.push(x)) == enc_rounds_items(ms) + enc_round_called(x),
    decreases ms.len(),
{
    if ms.len() == 0 {
        let p = ms.push(x);
        assert(p[0] == x);
        assert(p.skip(1) =~= Seq::<RoundCalledModel>::empty());
        assert(enc_rounds_items(p.skip(1)) =~= Seq::<usize>::empty());
        assert(enc_rounds_items(p) =~= enc_round_called(x));
        assert(enc_rounds_items(ms) + enc_round_called(x) =~= enc_round_called(x));
    } else {
        assert(ms.push(x).skip(1) =~= ms.skip(1).push(x));
        lemma_enc_rounds_items_push(ms.skip(1), x);
        assert(ms.push(x)[0] == ms[0]);
        assert(enc_round_called(ms[0]) + (enc_rounds_items(ms.skip(1)) + enc_round_called(x)) =~= (
        enc_round_called(ms[0]) + enc_rounds_items(ms.skip(1))) + enc_round_called(x));
    }
}

proof fn lemma_enc_table_items_push(ms: Seq<EntryModel>, x: EntryModel)
    ensures
        enc_table_items(ms.push(x)) == enc_table_items(ms) + enc_entry(x),
    decreases ms.len(),
{
    if ms.len() == 0 {
        let p = ms.push(x);
        assert(p[0] == x);
        assert(p.skip(1) =~= Seq::<EntryModel>::empty());
        assert(enc_table_items(p.skip(1)) =~= Seq::<usize>::empty());
        assert(enc_table_items(p) =~= enc_entry(x));
        assert(enc_table_items(ms) + enc_entry(x) =~= enc_entry(x));
    } else {
        assert(ms.push(x).skip(1) =~= ms.skip(1).push(x));
        lemma_enc_table_items_push(ms.skip(1), x);
        assert(ms.push(x)[0] == ms[0]);
        assert(enc_entry(ms[0]) + (enc_table_items(ms.skip(1)) + enc_entry(x)) =~= (enc_entry(
            ms[0],
        ) + enc_table_items(ms.skip(1))) + enc_entry(x));
    }
}

} // verus!
