use game::guess::{
    compare, generate_egg, init_guess, ClassifyError, Guess, Hint, Round, RoundState, StepError,
    Token, HIGHEST_TARGET, LOWEST_TARGET, MAXIMUM_ATTEMPTS,
};
use game::random::generated_by;
use std::cmp::Ordering;

fn round_with(target: u8) -> Round {
    Round { game: init_guess(), target }
}

#[test]
fn every_target_in_decimal_is_a_guess() {
    for v in 1u8..=100 {
        assert_eq!(Guess::parse_input(&v.to_string()), Ok(Token::Guess(v)));
    }
}

#[test]
fn control_codes_are_classified() {
    assert_eq!(Guess::parse_input("Y"), Ok(Token::Confirm));
    assert_eq!(Guess::parse_input("Q"), Ok(Token::Quit));
}

#[test]
fn other_text_is_unrecognized() {
    for s in ["", "y", "q", "YES", "abc", "4x", "-5", "+", "1 2", "256", "1000", "YQ"] {
        assert_eq!(Guess::parse_input(s), Err(ClassifyError::Unrecognized), "{s}");
    }
}

#[test]
fn numbers_in_byte_range_are_guesses() {
    assert_eq!(Guess::parse_input("0"), Ok(Token::Guess(0)));
    assert_eq!(Guess::parse_input("007"), Ok(Token::Guess(7)));
    assert_eq!(Guess::parse_input("+7"), Ok(Token::Guess(7)));
    assert_eq!(Guess::parse_input("255"), Ok(Token::Guess(255)));
}

#[test]
fn compare_orders_values() {
    assert_eq!(compare(3, 9), Ordering::Less);
    assert_eq!(compare(9, 3), Ordering::Greater);
    assert_eq!(compare(9, 9), Ordering::Equal);
}

#[test]
fn new_game_is_fresh() {
    let g = init_guess();
    assert_eq!(g.maximum_attempts, MAXIMUM_ATTEMPTS);
    assert_eq!(g.maximum_attempts, 5);
    assert_eq!(g.attempts_made, 0);
    assert!(!g.has_won);
    assert!(!g.over_limits());
}

#[test]
fn increment_clamps_at_limit() {
    let mut g = init_guess();
    for expected in [1u8, 2, 3, 4, 5, 5, 5] {
        g.increment_times();
        assert_eq!(g.attempts_made, expected);
    }
    assert!(g.over_limits());
}

#[test]
fn wining_records_hit_and_miss() {
    let mut g = init_guess();
    assert_eq!(g.wining(10, 20), Ordering::Less);
    assert!(!g.has_won);
    assert_eq!(g.wining(30, 20), Ordering::Greater);
    assert!(!g.has_won);
    assert_eq!(g.wining(20, 20), Ordering::Equal);
    assert!(g.has_won);
}

#[test]
fn scenario_three_guesses_win() {
    let mut r = round_with(50);
    let mut seen = Vec::new();
    for line in ["25", "75", "50"] {
        let token = Guess::parse_input(line).ok();
        seen.push(r.play(token));
    }
    assert_eq!(
        seen,
        vec![
            Ok(RoundState::AwaitingInput(Hint::TooSmall)),
            Ok(RoundState::AwaitingInput(Hint::TooBig)),
            Ok(RoundState::Won),
        ]
    );
    assert_eq!(r.game.attempts_made, 3);
    assert!(r.game.has_won);
}

#[test]
fn scenario_five_misses_reach_limit_then_quit() {
    let mut r = round_with(7);
    assert_eq!(r.game.maximum_attempts, 5);
    for v in [1u8, 2, 3, 4] {
        assert_eq!(
            r.play(Some(Token::Guess(v))),
            Ok(RoundState::AwaitingInput(Hint::TooSmall))
        );
    }
    assert_eq!(r.play(Some(Token::Guess(5))), Ok(RoundState::LimitReached));
    assert_eq!(r.game.attempts_made, 5);
    assert!(r.game.over_limits());
    assert!(!r.game.has_won);
    assert_eq!(r.play(Guess::parse_input("Q").ok()), Ok(RoundState::Quitting));
}

#[test]
fn guess_that_reaches_limit_is_not_compared() {
    let mut g = Guess { maximum_attempts: 5, attempts_made: 4, has_won: false };
    assert_eq!(g.parse_token(7, Some(Token::Guess(7))), Ok(RoundState::LimitReached));
    assert_eq!(g.attempts_made, 5);
    assert!(!g.has_won);
}

#[test]
fn scenario_quit_first() {
    let mut r = round_with(42);
    assert_eq!(r.play(Guess::parse_input("Q").ok()), Ok(RoundState::Quitting));
    assert_eq!(r.game.attempts_made, 1);
    assert!(!r.game.has_won);
    assert_eq!(r.target, 42);
}

#[test]
fn scenario_confirm_after_win_restarts() {
    let mut r = round_with(33);
    assert_eq!(r.play(Some(Token::Guess(33))), Ok(RoundState::Won));
    assert_eq!(r.play(Guess::parse_input("Y").ok()), Ok(RoundState::Restarting));
    assert_eq!(r.game.attempts_made, 0);
    assert!(!r.game.has_won);
    assert!((LOWEST_TARGET..=HIGHEST_TARGET).contains(&r.target));
}

#[test]
fn confirm_after_limit_restarts() {
    let mut r = round_with(7);
    for _ in 0..5 {
        r.play(Some(Token::Guess(8))).unwrap();
    }
    assert_eq!(r.play(Some(Token::Confirm)), Ok(RoundState::Restarting));
    assert_eq!(r.game, init_guess());
}

#[test]
fn confirm_before_win_or_limit_is_invalid() {
    let mut r = round_with(7);
    assert_eq!(r.play(Some(Token::Confirm)), Err(StepError::Invalid));
    assert_eq!(r.game.attempts_made, 1);
    assert_eq!(r.target, 7);
}

#[test]
fn unclassified_line_before_limit_is_invalid() {
    let mut g = init_guess();
    assert_eq!(g.parse_token(7, None), Err(StepError::Invalid));
    assert_eq!(g.attempts_made, 1);
}

#[test]
fn unclassified_line_at_limit_is_limit_reached() {
    let mut g = Guess { maximum_attempts: 5, attempts_made: 4, has_won: false };
    assert_eq!(g.parse_token(7, None), Ok(RoundState::LimitReached));
    assert_eq!(g.attempts_made, 5);
}

#[test]
fn guesses_after_win_are_not_compared() {
    let mut g = init_guess();
    assert_eq!(g.parse_token(9, Some(Token::Guess(9))), Ok(RoundState::Won));
    for v in [1u8, 9, 200] {
        assert_eq!(g.parse_token(9, Some(Token::Guess(v))), Err(StepError::Invalid));
        assert!(g.has_won);
    }
    assert_eq!(g.parse_token(9, Some(Token::Guess(9))), Ok(RoundState::LimitReached));
    assert!(g.has_won);
}

#[test]
fn limit_state_is_stable() {
    let mut g = Guess { maximum_attempts: 5, attempts_made: 5, has_won: false };
    for token in [None, Some(Token::Guess(7)), Some(Token::Guess(1)), None] {
        assert_eq!(g.parse_token(7, token), Ok(RoundState::LimitReached));
        assert_eq!(g, Guess { maximum_attempts: 5, attempts_made: 5, has_won: false });
    }
}

#[test]
fn attempts_never_exceed_limit_on_many_sequences() {
    let tokens = [None, Some(Token::Guess(3)), Some(Token::Guess(50)), Some(Token::Confirm)];
    let mut seed: u32 = 12345;
    for _ in 0..200 {
        let mut g = init_guess();
        for _ in 0..20 {
            seed = seed.wrapping_mul(1103515245).wrapping_add(12345);
            let t = tokens[((seed >> 16) % 4) as usize];
            let _ = g.parse_token(50, t);
            assert!(g.attempts_made <= g.maximum_attempts);
        }
    }
}

#[test]
fn quit_is_always_accepted() {
    let mut g = Guess { maximum_attempts: 5, attempts_made: 5, has_won: true };
    assert_eq!(g.parse_token(1, Some(Token::Quit)), Ok(RoundState::Quitting));
    assert_eq!(g.attempts_made, 5);
}

#[test]
fn new_round_draws_target_in_range() {
    for _ in 0..200 {
        let r = Round::new();
        assert_eq!(r.game, init_guess());
        assert!((1..=100).contains(&r.target));
        let e = generate_egg();
        assert!((1..=100).contains(&e));
    }
}

#[test]
fn generated_by_stays_in_range() {
    assert_eq!(generated_by(3..=3), 3);
    for _ in 0..200 {
        let v = generated_by(10..=12);
        assert!((10..=12).contains(&v));
    }
}
