//! The round engine of the guessing game: classifying a line of input into a
//! token, and the state machine that consumes tokens for one round.
use crate::random::generated_by;
use std::cmp::Ordering;
use std::ops::RangeInclusive;
use vstd::prelude::*;

verus! {

/// How many inputs one round allows.
pub const MAXIMUM_ATTEMPTS: u8 = 5;

/// Smallest value the hidden target can take.
pub const LOWEST_TARGET: u8 = 1;

/// Largest value the hidden target can take.
pub const HIGHEST_TARGET: u8 = 100;

/// One classified line of input.
#[derive(Clone, Copy, Debug, PartialEq, Eq, Structural)]
pub enum Token {
    /// A number the player guesses.
    Guess(u8),
    /// "Y": play again / continue.
    Confirm,
    /// "Q": leave the game.
    Quit,
}

/// Why a line could not be classified.
#[derive(Clone, Copy, Debug, PartialEq, Eq, Structural)]
pub enum ClassifyError {
    Unrecognized,
}

/// A token that is well formed but not allowed in the current state.
#[derive(Clone, Copy, Debug, PartialEq, Eq, Structural)]
pub enum StepError {
    Invalid,
}

/// How a guess that missed compares with the target.
#[derive(Clone, Copy, Debug, PartialEq, Eq, Structural)]
pub enum Hint {
    TooSmall,
    TooBig,
}

/// What one step of the state machine leads to.
#[derive(Clone, Copy, Debug, PartialEq, Eq, Structural)]
pub enum RoundState {
    /// The guess missed; the player is asked again.
    AwaitingInput(Hint),
    /// The guess hit the target.
    Won,
    /// No more guesses are compared in this round.
    LimitReached,
    /// A new round is to begin.
    Restarting,
    /// The game ends.
    Quitting,
}

/// The counters of one round.
#[derive(Clone, Copy, Debug, PartialEq, Eq, Structural)]
pub struct Guess {
    pub maximum_attempts: u8,
    pub attempts_made: u8,
    pub has_won: bool,
}

// ---------------------------------------------------------------------------
// Classification, as mathematics
// ---------------------------------------------------------------------------

pub open spec fn is_digit(c: char) -> bool {
    '0' <= c && c <= '9'
}

pub open spec fn digit_value(c: char) -> int {
    (c as int) - ('0' as int)
}

pub open spec fn all_digits(s: Seq<char>) -> bool {
    forall|i: int| 0 <= i < s.len() ==> is_digit(#[trigger] s[i])
}

/// The number that a string of decimal digits denotes.
pub open spec fn decimal_value(s: Seq<char>) -> int
    decreases s.len(),
{
    if s.len() == 0 {
        0
    } else {
        10 * decimal_value(s.drop_last()) + digit_value(s.last())
    }
}

/// The digits of a number, without its optional leading '+'.
pub open spec fn unsigned_digits(s: Seq<char>) -> Seq<char> {
    if s.len() > 0 && s[0] == '+' {
        s.drop_first()
    } else {
        s
    }
}

/// Reading `s` as a `u8`: an optional '+', then at least one decimal digit,
/// and a value that fits in a byte.
pub open spec fn parsed_u8(s: Seq<char>) -> Option<u8> {
    let d = unsigned_digits(s);
    if d.len() > 0 && all_digits(d) && decimal_value(d) <= 255 {
        Some(decimal_value(d) as u8)
    } else {
        None
    }
}

/// What a line of input stands for.
pub open spec fn classify(s: Seq<char>) -> Result<Token, ClassifyError> {
    match parsed_u8(s) {
        Some(v) => Ok(Token::Guess(v)),
        None => if s == seq!['Y'] {
            Ok(Token::Confirm)
        } else if s == seq!['Q'] {
            Ok(Token::Quit)
        } else {
            Err(ClassifyError::Unrecognized)
        },
    }
}

/// The decimal writing of `v`, without leading zeros.
pub open spec fn decimal_string(v: nat) -> Seq<char>
    decreases v,
{
    let d = seq!['0', '1', '2', '3', '4', '5', '6', '7', '8', '9'][(v % 10) as int];
    if v < 10 {
        seq![d]
    } else {
        decimal_string(v / 10).push(d)
    }
}

// ---------------------------------------------------------------------------
// The state machine, as mathematics
// ---------------------------------------------------------------------------

impl Guess {
    /// The counter never passes the limit, and the limit is positive.
    pub open spec fn wf(&self) -> bool {
        &&& 0 < self.maximum_attempts
        &&& self.attempts_made <= self.maximum_attempts
    }

    pub open spec fn limit_reached(&self) -> bool {
        self.attempts_made >= self.maximum_attempts
    }
}

/// The counters at the start of a round.
pub open spec fn fresh_game() -> Guess {
    Guess { maximum_attempts: MAXIMUM_ATTEMPTS, attempts_made: 0, has_won: false }
}

/// One more attempt, clamped at the limit.
pub open spec fn bumped(g: Guess) -> Guess {
    Guess {
        attempts_made: if g.attempts_made < g.maximum_attempts {
            (g.attempts_made + 1) as u8
        } else {
            g.maximum_attempts
        },
        ..g
    }
}

pub open spec fn ordering_of(a: u8, b: u8) -> Ordering {
    if a < b {
        Ordering::Less
    } else if a > b {
        Ordering::Greater
    } else {
        Ordering::Equal
    }
}

/// One step of a round: the counters afterwards, and the outcome. `None`
/// stands for a line that could not be classified.
pub open spec fn step(g: Guess, target: u8, token: Option<Token>) -> (Guess, Result<
    RoundState,
    StepError,
>) {
    let b = bumped(g);
    match token {
        None => if b.limit_reached() {
            (b, Ok(RoundState::LimitReached))
        } else {
            (b, Err(StepError::Invalid))
        },
        Some(Token::Guess(v)) => if b.limit_reached() {
            (b, Ok(RoundState::LimitReached))
        } else if g.has_won {
            (b, Err(StepError::Invalid))
        } else if v == target {
            (Guess { has_won: true, ..b }, Ok(RoundState::Won))
        } else if v < target {
            (b, Ok(RoundState::AwaitingInput(Hint::TooSmall)))
        } else {
            (b, Ok(RoundState::AwaitingInput(Hint::TooBig)))
        },
        Some(Token::Confirm) => if g.has_won || b.limit_reached() {
            (b, Ok(RoundState::Restarting))
        } else {
            (b, Err(StepError::Invalid))
        },
        Some(Token::Quit) => (b, Ok(RoundState::Quitting)),
    }
}

/// The counters after a sequence of steps.
pub open spec fn run_steps(g: Guess, target: u8, tokens: Seq<Option<Token>>) -> Guess
    decreases tokens.len(),
{
    if tokens.len() == 0 {
        g
    } else {
        run_steps(step(g, target, tokens[0]).0, target, tokens.drop_first())
    }
}

pub open spec fn valid_target(t: u8) -> bool {
    LOWEST_TARGET <= t <= HIGHEST_TARGET
}

/// One input fed to a round; `draw` is the target a restart would take.
pub open spec fn play_step(r: Round, token: Option<Token>, draw: u8) -> Round {
    let (g, res) = step(r.game, r.target, token);
    if res == Ok::<RoundState, StepError>(RoundState::Restarting) {
        Round { game: fresh_game(), target: draw }
    } else {
        Round { game: g, target: r.target }
    }
}

/// A round after a sequence of inputs, `draws[i]` being the target that a
/// restart at the `i`-th input takes.
pub open spec fn play_steps(r: Round, tokens: Seq<Option<Token>>, draws: Seq<u8>) -> Round
    decreases tokens.len(),
{
    if tokens.len() == 0 {
        r
    } else {
        play_steps(play_step(r, tokens[0], draws[0]), tokens.drop_first(), draws.drop_first())
    }
}

impl Round {
    /// A round as the game keeps it: the counters within the usual limit and
    /// the target in range.
    pub open spec fn in_play(&self) -> bool {
        &&& self.game.wf()
        &&& self.game.maximum_attempts == MAXIMUM_ATTEMPTS
        &&& valid_target(self.target)
    }
}

// ---------------------------------------------------------------------------
// Lemmas on decimal strings
// ---------------------------------------------------------------------------

/// A prefix of a digit string never denotes more than the whole.
proof fn lemma_prefix_value(d: Seq<char>, k: int)
    requires
        all_digits(d),
        0 <= k <= d.len(),
    ensures
        0 <= decimal_value(d.take(k)) <= decimal_value(d),
    decreases d.len(),
{
    if d.len() == 0 {
        assert(d.take(k) =~= d);
    } else {
        let dl = d.drop_last();
        assert(is_digit(d[d.len() - 1]));
        if k == d.len() {
            assert(d.take(k) =~= d);
            lemma_prefix_value(dl, 0);
        } else {
            assert(dl.take(k) =~= d.take(k));
            lemma_prefix_value(dl, k);
        }
    }
}

proof fn lemma_decimal_string(v: nat)
    ensures
        decimal_string(v).len() > 0,
        all_digits(decimal_string(v)),
        decimal_value(decimal_string(v)) == v,
    decreases v,
{
    let digits = seq!['0', '1', '2', '3', '4', '5', '6', '7', '8', '9'];
    let d = digits[(v % 10) as int];
    assert(is_digit(d) && digit_value(d) == v % 10) by {
        assert(digits[0] == '0' && digits[1] == '1' && digits[2] == '2' && digits[3] == '3');
        assert(digits[4] == '4' && digits[5] == '5' && digits[6] == '6' && digits[7] == '7');
        assert(digits[8] == '8' && digits[9] == '9');
    }
    let s = decimal_string(v);
    assert(s.last() == d);
    if v < 10 {
        assert(s.drop_last() =~= Seq::<char>::empty());
        assert(decimal_value(Seq::<char>::empty()) == 0);
    } else {
        lemma_decimal_string(v / 10);
        let p = decimal_string(v / 10);
        assert(s.drop_last() =~= p);
        assert forall|i: int| 0 <= i < s.len() implies is_digit(#[trigger] s[i]) by {
            if i < p.len() {
                assert(s[i] == p[i]);
            }
        }
    }
}

// ---------------------------------------------------------------------------
// What holds of classification and of every round
// ---------------------------------------------------------------------------

/// Every target value, written in decimal, is classified as a guess of that
/// very value.
pub proof fn lemma_decimal_guess(v: u8)
    requires
        valid_target(v),
    ensures
        classify(decimal_string(v as nat)) == Ok::<Token, ClassifyError>(Token::Guess(v)),
{
    lemma_decimal_string(v as nat);
    let s = decimal_string(v as nat);
    assert(is_digit(s[0]));
    assert(unsigned_digits(s) == s);
}

/// "Y" confirms, "Q" quits, and a line that is not a number (empty, or with
/// a character that is neither a digit nor a leading '+') is unrecognized
/// unless it is one of those two codes.
pub proof fn lemma_control_codes(s: Seq<char>)
    ensures
        classify(seq!['Y']) == Ok::<Token, ClassifyError>(Token::Confirm),
        classify(seq!['Q']) == Ok::<Token, ClassifyError>(Token::Quit),
        (unsigned_digits(s).len() == 0 || !all_digits(unsigned_digits(s))) && s != seq!['Y']
            && s != seq!['Q'] ==> classify(s) == Err::<Token, ClassifyError>(
            ClassifyError::Unrecognized,
        ),
{
    assert(!is_digit(seq!['Y'][0]));
    assert(!is_digit(seq!['Q'][0]));
}

/// One step keeps the counter within the limit.
pub proof fn lemma_step_wf(g: Guess, target: u8, token: Option<Token>)
    requires
        g.wf(),
    ensures
        step(g, target, token).0.wf(),
        step(g, target, token).0.maximum_attempts == g.maximum_attempts,
{
}

/// Whatever sequence of inputs a round receives, the attempt counter never
/// exceeds the limit.
pub proof fn lemma_attempts_bounded(g: Guess, target: u8, tokens: Seq<Option<Token>>)
    requires
        g.wf(),
    ensures
        run_steps(g, target, tokens).wf(),
        run_steps(g, target, tokens).attempts_made <= run_steps(
            g,
            target,
            tokens,
        ).maximum_attempts,
    decreases tokens.len(),
{
    if tokens.len() > 0 {
        lemma_step_wf(g, target, tokens[0]);
        lemma_attempts_bounded(step(g, target, tokens[0]).0, target, tokens.drop_first());
    }
}

/// After a win, a guess neither clears the win nor is compared with the
/// target.
pub proof fn lemma_win_is_final(g: Guess, target: u8, v: u8)
    requires
        g.wf(),
        g.has_won,
    ensures
        step(g, target, Some(Token::Guess(v))).0.has_won,
        step(g, target, Some(Token::Guess(v))).1 != Ok::<RoundState, StepError>(RoundState::Won),
        !(step(g, target, Some(Token::Guess(v))).1 matches Ok(RoundState::AwaitingInput(_))),
{
}

/// Once won, a round stays won whatever inputs follow.
pub proof fn lemma_win_kept(g: Guess, target: u8, tokens: Seq<Option<Token>>)
    requires
        g.has_won,
    ensures
        run_steps(g, target, tokens).has_won,
    decreases tokens.len(),
{
    if tokens.len() > 0 {
        lemma_win_kept(step(g, target, tokens[0]).0, target, tokens.drop_first());
    }
}

/// At the limit, a guess or an unclassified line yields `LimitReached` and
/// leaves the counters as they are.
pub proof fn lemma_limit_is_stable(g: Guess, target: u8, token: Option<Token>)
    requires
        g.wf(),
        g.attempts_made == g.maximum_attempts,
        token matches None || token matches Some(Token::Guess(_)),
    ensures
        step(g, target, token).1 == Ok::<RoundState, StepError>(RoundState::LimitReached),
        step(g, target, token).0 == g,
{
}

/// At the limit, any run of guesses and unclassified lines leaves the
/// counters unchanged, so each of them meets `LimitReached` in turn.
pub proof fn lemma_limit_kept(g: Guess, target: u8, tokens: Seq<Option<Token>>)
    requires
        g.wf(),
        g.attempts_made == g.maximum_attempts,
        forall|i: int|
            0 <= i < tokens.len() ==> (#[trigger] tokens[i] matches None || tokens[i] matches Some(
                Token::Guess(_),
            )),
    ensures
        run_steps(g, target, tokens) == g,
    decreases tokens.len(),
{
    if tokens.len() > 0 {
        lemma_limit_is_stable(g, target, tokens[0]);
        let rest = tokens.drop_first();
        assert forall|i: int| 0 <= i < rest.len() implies (#[trigger] rest[i] matches None
            || rest[i] matches Some(Token::Guess(_))) by {
            assert(rest[i] == tokens[i + 1]);
        }
        lemma_limit_kept(g, target, rest);
    }
}

// ---------------------------------------------------------------------------
// Executable code
// ---------------------------------------------------------------------------

/// Reads `s` as a `u8` in decimal, with an optional leading '+'.
fn parse_u8(s: &str) -> (r: Option<u8>)
    ensures
        r == parsed_u8(s@),
{
    let n = s.unicode_len();
    let start: usize = if n > 0 && s.get_char(0) == '+' {
        1
    } else {
        0
    };
    let ghost d = unsigned_digits(s@);
    assert(d =~= s@.subrange(start as int, n as int));
    if start == n {
        return None;
    }
    let mut i: usize = start;
    let mut acc: u16 = 0;
    while i < n
        invariant
            start <= i <= n,
            n == s@.len(),
            d == unsigned_digits(s@),
            d == s@.subrange(start as int, n as int),
            all_digits(d.take(i - start)),
            acc == decimal_value(d.take(i - start)),
            acc <= 255,
        decreases n - i,
    {
        let c = s.get_char(i);
        if !('0' <= c && c <= '9') {
            assert(d[i - start] == c);
            assert(!is_digit(d[i - start]));
            return None;
        }
        let next: u16 = acc * 10 + (c as u16 - '0' as u16);
        proof {
            let k = i - start;
            assert(d.take(k + 1).drop_last() =~= d.take(k));
            assert(d.take(k + 1).last() == c);
            assert forall|j: int| 0 <= j < k + 1 implies is_digit(#[trigger] d.take(k + 1)[j]) by {
                if j < k {
                    assert(d.take(k + 1)[j] == d.take(k)[j]);
                }
            }
            assert(decimal_value(d.take(k + 1)) == next);
        }
        if next > 255 {
            proof {
                if all_digits(d) {
                    lemma_prefix_value(d, i - start + 1);
                }
            }
            return None;
        }
        acc = next;
        i = i + 1;
    }
    assert(d.take(n - start) =~= d);
    Some(acc as u8)
}

impl Guess {
    /// Classifies one trimmed line of input: a number that fits in a byte is
    /// a guess, "Y" confirms, "Q" quits, and anything else is unrecognized.
    pub fn parse_input(input: &str) -> (r: Result<Token, ClassifyError>)
        ensures
            r == classify(input@),
    {
        match parse_u8(input) {
            Some(v) => Ok(Token::Guess(v)),
            None => {
                if input.unicode_len() == 1 {
                    let c = input.get_char(0);
                    if c == 'Y' {
                        assert(input@ =~= seq!['Y']);
                        return Ok(Token::Confirm);
                    } else if c == 'Q' {
                        assert(input@ =~= seq!['Q']);
                        return Ok(Token::Quit);
                    }
                    assert(input@ != seq!['Y'] && input@ != seq!['Q']) by {
                        assert(seq!['Y'][0] == 'Y' && seq!['Q'][0] == 'Q');
                    }
                }
                Err(ClassifyError::Unrecognized)
            },
        }
    }

    /// Whether the counter has reached the limit.
    pub fn over_limits(&self) -> (r: bool)
        ensures
            r == self.limit_reached(),
    {
        self.attempts_made >= self.maximum_attempts
    }

    /// Counts one more attempt, never passing the limit.
    pub fn increment_times(&mut self)
        requires
            old(self).wf(),
        ensures
            *final(self) == bumped(*old(self)),
            final(self).wf(),
    {
        if !self.over_limits() {
            self.attempts_made = self.attempts_made + 1;
        } else {
            self.attempts_made = self.maximum_attempts;
        }
    }

    /// Compares a guess with the target and records whether it hit.
    pub fn wining(&mut self, value: u8, target: u8) -> (r: Ordering)
        ensures
            r == ordering_of(value, target),
            *final(self) == (Guess { has_won: value == target, ..*old(self) }),
    {
        let r = compare(value, target);
        self.has_won = match r {
            Ordering::Equal => true,
            _ => false,
        };
        r
    }

    /// One step of the round: counts the attempt, then applies `token`
    /// (`None` for a line that could not be classified) under the guards on
    /// the limit and on a win already made.
    pub fn parse_token(&mut self, target: u8, token: Option<Token>) -> (r: Result<
        RoundState,
        StepError,
    >)
        requires
            old(self).wf(),
        ensures
            (*final(self), r) == step(*old(self), target, token),
            final(self).wf(),
    {
        self.increment_times();
        match token {
            None => {
                if self.over_limits() {
                    Ok(RoundState::LimitReached)
                } else {
                    Err(StepError::Invalid)
                }
            },
            Some(Token::Guess(v)) => {
                if self.over_limits() {
                    Ok(RoundState::LimitReached)
                } else if self.has_won {
                    Err(StepError::Invalid)
                } else {
                    match self.wining(v, target) {
                        Ordering::Equal => Ok(RoundState::Won),
                        Ordering::Less => Ok(RoundState::AwaitingInput(Hint::TooSmall)),
                        Ordering::Greater => Ok(RoundState::AwaitingInput(Hint::TooBig)),
                    }
                }
            },
            Some(Token::Confirm) => {
                if self.has_won || self.over_limits() {
                    Ok(RoundState::Restarting)
                } else {
                    Err(StepError::Invalid)
                }
            },
            Some(Token::Quit) => Ok(RoundState::Quitting),
        }
    }
}

/// How `value` stands against `other`.
pub fn compare(value: u8, other: u8) -> (r: Ordering)
    ensures
        r == ordering_of(value, other),
{
    if value < other {
        Ordering::Less
    } else if value > other {
        Ordering::Greater
    } else {
        Ordering::Equal
    }
}

/// Whatever inputs a game receives, across restarts, the attempt counter
/// never exceeds the limit, and the limit stays the usual one.
pub proof fn lemma_game_bounded(r: Round, tokens: Seq<Option<Token>>, draws: Seq<u8>)
    requires
        r.in_play(),
        draws.len() >= tokens.len(),
        forall|i: int| 0 <= i < draws.len() ==> valid_target(#[trigger] draws[i]),
    ensures
        play_steps(r, tokens, draws).in_play(),
        play_steps(r, tokens, draws).game.attempts_made <= MAXIMUM_ATTEMPTS,
    decreases tokens.len(),
{
    if tokens.len() > 0 {
        lemma_step_wf(r.game, r.target, tokens[0]);
        assert(valid_target(draws[0]));
        let rest = draws.drop_first();
        assert forall|i: int| 0 <= i < rest.len() implies valid_target(#[trigger] rest[i]) by {
            assert(rest[i] == draws[i + 1]);
        }
        lemma_game_bounded(play_step(r, tokens[0], draws[0]), tokens.drop_first(), rest);
    }
}

/// The counters of a new round: no attempt made, no win, the usual limit.
pub fn init_guess() -> (r: Guess)
    ensures
        r == fresh_game(),
        r.wf(),
{
    Guess { maximum_attempts: MAXIMUM_ATTEMPTS, attempts_made: 0, has_won: false }
}

/// Draws a new hidden target from the fixed range.
pub fn generate_egg() -> (r: u8)
    ensures
        valid_target(r),
{
    generated_by(RangeInclusive::new(LOWEST_TARGET, HIGHEST_TARGET))
}

/// One round of play: its counters and its hidden target.
#[derive(Clone, Copy, Debug, PartialEq, Eq, Structural)]
pub struct Round {
    pub game: Guess,
    pub target: u8,
}

impl Round {
    /// A fresh round with a newly drawn target.
    pub fn new() -> (r: Round)
        ensures
            r.game == fresh_game(),
            valid_target(r.target),
            r.in_play(),
    {
        Round { game: init_guess(), target: generate_egg() }
    }

    /// Feeds one input to the round. When it leads to `Restarting`, the
    /// counters are replaced by fresh ones and a new target is drawn;
    /// otherwise the target stays and the counters take one step.
    pub fn play(&mut self, token: Option<Token>) -> (r: Result<RoundState, StepError>)
        requires
            old(self).game.wf(),
        ensures
            r == step(old(self).game, old(self).target, token).1,
            *final(self) == play_step(*old(self), token, final(self).target),
            final(self).game.wf(),
            old(self).in_play() ==> final(self).in_play(),
            r == Ok::<RoundState, StepError>(RoundState::Restarting) ==> {
                &&& final(self).game == fresh_game()
                &&& valid_target(final(self).target)
            },
            r != Ok::<RoundState, StepError>(RoundState::Restarting) ==> {
                &&& final(self).game == step(old(self).game, old(self).target, token).0
                &&& final(self).target == old(self).target
            },
    {
        let r = self.game.parse_token(self.target, token);
        if let Ok(RoundState::Restarting) = r {
            self.game = init_guess();
            self.target = generate_egg();
        }
        r
    }
}

} // verus!
