//! Bets: immutable claims `(count, roll)` with a strict-raise ordering rule
//! and the dice-matching predicate used to resolve a challenge.

use vstd::prelude::*;

verus! {

/// The wildcard face: a die showing `1` counts toward any claimed face.
pub const WILDCARD: usize = 1;

/// A claim that at least `count` dice across all hands show the face `roll`
/// (or the wildcard face). Ordered lexicographically by `(count, roll)`.
#[derive(Debug, PartialEq, Eq, PartialOrd, Ord, Copy, Clone, Structural)]
pub struct Bet {
    pub count: usize,
    pub roll: usize,
}

/// Why a candidate bet is not a legal raise of the previous bet.
#[derive(Debug, PartialEq, Eq, Copy, Clone, Structural)]
pub enum RaiseError {
    CountDecreased { prev: usize, new: usize },
    SameBet(Bet),
    SameCountLowerRoll { prev: usize, new: usize },
}

impl Bet {
    /// Both arguments denote positive quantities; the caller is responsible
    /// for supplying positive integers.
    pub open spec fn wf(self) -> bool {
        &&& self.count >= 1
        &&& self.roll >= 1
    }

    /// `self` is a strictly greater claim than `previous` under the
    /// lexicographic order on `(count, roll)`.
    pub open spec fn raised_from(self, previous: Bet) -> bool {
        ||| self.count > previous.count
        ||| (self.count == previous.count && self.roll > previous.roll)
    }

    /// The exact outcome of checking `self` against `previous`.
    pub open spec fn raise_outcome(self, previous: Bet) -> Result<(), RaiseError> {
        if self.count < previous.count {
            Err(RaiseError::CountDecreased { prev: previous.count, new: self.count })
        } else if self.count > previous.count {
            Ok(())
        } else if self.roll < previous.roll {
            Err(RaiseError::SameCountLowerRoll { prev: previous.roll, new: self.roll })
        } else if self.roll == previous.roll {
            Err(RaiseError::SameBet(self))
        } else {
            Ok(())
        }
    }

    /// How many entries of `rolls` support the claim `self`: those equal to
    /// the claimed face and those showing the wildcard face.
    pub open spec fn spec_count_matches(self, rolls: Seq<usize>) -> nat
        decreases rolls.len(),
    {
        if rolls.len() == 0 {
            0
        } else {
            (if rolls[0] == self.roll || rolls[0] == WILDCARD {
                1nat
            } else {
                0nat
            }) + self.spec_count_matches(rolls.skip(1))
        }
    }

    /// The claim is false of `rolls`: fewer supporting dice than claimed.
    pub open spec fn spec_is_fluff(self, rolls: Seq<usize>) -> bool {
        self.spec_count_matches(rolls) < self.count
    }

    pub fn new(count: usize, roll: usize) -> (r: Bet)
        ensures
            r == (Bet { count, roll }),
    {
        Bet { count, roll }
    }

    /// Builds the candidate bet `(count, roll)` and checks that it is a
    /// legal raise of `self`.
    pub fn raise(&self, count: usize, roll: usize) -> (r: Result<Bet, RaiseError>)
        ensures
            r == match (Bet { count, roll }).raise_outcome(*self) {
                Ok(()) => Ok::<Bet, RaiseError>(Bet { count, roll }),
                Err(e) => Err::<Bet, RaiseError>(e),
            },
            r is Ok <==> (Bet { count, roll }).raised_from(*self),
    {
        let new_bet = Bet { count, roll };
        match new_bet.is_raised_from(self) {
            Ok(()) => Ok(new_bet),
            Err(err) => Err(err),
        }
    }

    /// Succeeds exactly when `self` is a strictly greater claim than
    /// `previous`; on failure, reports which sub-rule was violated.
    pub fn is_raised_from(&self, previous: &Bet) -> (r: Result<(), RaiseError>)
        ensures
            r == self.raise_outcome(*previous),
            r is Ok <==> self.raised_from(*previous),
    {
        if self.count < previous.count {
            Err(RaiseError::CountDecreased { prev: previous.count, new: self.count })
        } else if self.count > previous.count {
            Ok(())
        } else if self.roll < previous.roll {
            Err(RaiseError::SameCountLowerRoll { prev: previous.roll, new: self.roll })
        } else if self.roll == previous.roll {
            Err(RaiseError::SameBet(*self))
        } else {
            Ok(())
        }
    }

    /// Counts the entries of `rolls` equal to the claimed face or to the
    /// wildcard face.
    pub fn count_matches(&self, rolls: &Vec<usize>) -> (r: usize)
        ensures
            r == self.spec_count_matches(rolls@),
    {
        let mut c: usize = 0;
        let mut i: usize = 0;
        proof {
            assert(rolls@.skip(0) =~= rolls@);
        }
        while i < rolls.len()
            invariant
                i <= rolls.len(),
                c <= i,
                c + self.spec_count_matches(rolls@.skip(i as int)) == self.spec_count_matches(
                    rolls@,
                ),
            decreases rolls.len() - i,
        {
            proof {
                assert(rolls@.skip(i as int)[0] == rolls@[i as int]);
                assert(rolls@.skip(i as int).skip(1) =~= rolls@.skip(i + 1));
            }
            if rolls[i] == self.roll || rolls[i] == WILDCARD {
                c = c + 1;
            }
            i = i + 1;
        }
        proof {
            assert(rolls@.skip(i as int) =~= Seq::<usize>::empty());
        }
        c
    }

    /// The claim is false of `rolls`.
    pub fn is_fluff(&self, rolls: &Vec<usize>) -> (r: bool)
        ensures
            r == self.spec_is_fluff(rolls@),
    {
        self.count_matches(rolls) < self.count
    }
}

/// The character for one decimal digit.
pub open spec fn digit_char(d: nat) -> char {
    if d == 0 {
        '0'
    } else if d == 1 {
        '1'
    } else if d == 2 {
        '2'
    } else if d == 3 {
        '3'
    } else if d == 4 {
        '4'
    } else if d == 5 {
        '5'
    } else if d == 6 {
        '6'
    } else if d == 7 {
        '7'
    } else if d == 8 {
        '8'
    } else {
        '9'
    }
}

/// The decimal notation of a number: its digits, most significant first.
pub open spec fn spec_decimal(n: nat) -> Seq<char>
    decreases n,
{
    if n < 10 {
        seq![digit_char(n)]
    } else {
        spec_decimal(n / 10).push(digit_char(n % 10))
    }
}

/// Relies on usize's `to_string` (through its `Display`): the decimal
/// digits of the value, most significant first, with no sign and no
/// leading zeros.
#[verifier::external_body]
fn usize_to_string(x: usize) -> (r: String)
    ensures
        r@ == spec_decimal(x as nat),
{
    x.to_string()
}

impl Bet {
    /// The rendering convention for a bet: `"<count> <roll>"`, pluralized
    /// as `"<count> <roll>s"` when the count is not one.
    pub open spec fn spec_text(self) -> Seq<char> {
        spec_decimal(self.count as nat) + seq![' '] + spec_decimal(self.roll as nat) + (if self.count
            != 1 {
            seq!['s']
        } else {
            Seq::<char>::empty()
        })
    }

    /// Renders the bet in its human-readable form.
    pub fn render(&self) -> (r: String)
        ensures
            r@ == self.spec_text(),
    {
        let mut s = usize_to_string(self.count);
        s.append(" ");
        let roll_s = usize_to_string(self.roll);
        s.append(roll_s.as_str());
        if self.count != 1 {
            s.append("s");
        }
        proof {
            reveal_strlit(" ");
            reveal_strlit("s");
            assert(" "@ =~= seq![' ']);
            assert("s"@ =~= seq!['s']);
            assert(s@ =~= self.spec_text());
        }
        s
    }
}

/// A bet compared against an identical bet is always rejected as the same
/// bet, never under another rule.
pub proof fn lemma_identical_bet_rejected(a: Bet, b: Bet)
    requires
        a.count == b.count,
        a.roll == b.roll,
    ensures
        a.raise_outcome(b) == Err::<(), RaiseError>(RaiseError::SameBet(a)),
{
}

/// Raising succeeds exactly when the candidate is lexicographically greater
/// by `(count, roll)`, for every pair of bets.
pub proof fn lemma_raise_iff_lexicographic(a: Bet, b: Bet)
    ensures
        a.raise_outcome(b) is Ok <==> (a.count > b.count || (a.count == b.count && a.roll
            > b.roll)),
{
}

/// Matches counted over a concatenation split into the two parts; in
/// particular, appending further dice never decreases the count.
pub proof fn lemma_count_matches_concat(b: Bet, s: Seq<usize>, t: Seq<usize>)
    ensures
        b.spec_count_matches(s + t) == b.spec_count_matches(s) + b.spec_count_matches(t),
        b.spec_count_matches(s + t) >= b.spec_count_matches(s),
    decreases s.len(),
{
    if s.len() == 0 {
        assert(s + t =~= t);
    } else {
        assert((s + t).skip(1) =~= s.skip(1) + t);
        lemma_count_matches_concat(b, s.skip(1), t);
    }
}

/// A hand showing only the wildcard face supports a bet on any face: every
/// die counts.
pub proof fn lemma_all_wildcards_match(b: Bet, s: Seq<usize>)
    requires
        forall|i: int| 0 <= i < s.len() ==> s[i] == WILDCARD,
    ensures
        b.spec_count_matches(s) == s.len(),
    decreases s.len(),
{
    if s.len() > 0 {
        lemma_all_wildcards_match(b, s.skip(1));
    }
}

} // verus!
