use wordsmith::counter::Counter;
use wordsmith::game::{Game, GuessError, GuessResult, LetterMatch, LetterState, State};
use wordsmith::solver::{first_guess, Solver, SolverMode};
use wordsmith::words::{get_words, is_valid_word, sort_by_frequency, word_frequency, WordList,
    WordSource};
use wordsmith::{Letter, Word};

use LetterMatch::{Exact, Partial, Wrong};

fn wl(words: &str, top_n: usize) -> WordList {
    let source = WordSource::Scrabble { letter_count: 5, top_n };
    WordList::from_source(&source, words, &Vec::new())
}

#[test]
fn test_guess_check_solved() {
    let actual = GuessResult::check(&Word::from_text("relax"), "relax", 5);
    let expected = GuessResult {
        guess: Word::from_text("relax"),
        result: vec![Exact, Exact, Exact, Exact, Exact],
    };
    assert_eq!(expected, actual);
    assert!(actual.is_solved());
}

#[test]
fn test_guess_check_wrong() {
    let actual = GuessResult::check(&Word::from_text("relax"), "bbbbb", 5);
    let expected = GuessResult {
        guess: Word::from_text("relax"),
        result: vec![Wrong, Wrong, Wrong, Wrong, Wrong],
    };
    assert_eq!(expected, actual);
    assert!(!actual.is_solved());
}

#[test]
fn test_guess_check_partial_1() {
    let actual = GuessResult::check(&Word::from_text("accca"), "aaabb", 5);
    let expected = GuessResult {
        guess: Word::from_text("accca"),
        result: vec![Exact, Wrong, Wrong, Wrong, Partial],
    };
    assert_eq!(expected, actual);
    assert!(!actual.is_solved());
}

#[test]
fn test_guess_check_partial_2() {
    let actual = GuessResult::check(&Word::from_text("acaaa"), "aabbb", 5);
    let expected = GuessResult {
        guess: Word::from_text("acaaa"),
        result: vec![Exact, Wrong, Partial, Wrong, Wrong],
    };
    assert_eq!(expected, actual);
    assert!(!actual.is_solved());
}

#[test]
fn test_guess_check_duplicate_letters() {
    // "erase" holds two unmatched 'e's, so both non-exact 'e's of "speed" are
    // partial: the partial count per letter is min(count in guess, count
    // unmatched in solution).
    let actual = GuessResult::check(&Word::from_text("speed"), "erase", 5);
    let expected = GuessResult {
        guess: Word::from_text("speed"),
        result: vec![Partial, Wrong, Partial, Partial, Wrong],
    };
    assert_eq!(expected, actual);
    let e_partials = actual
        .result
        .iter()
        .zip(actual.guess.vec.iter())
        .filter(|(m, l)| **m == Partial && l.as_char() == 'e')
        .count();
    assert_eq!(e_partials, 2);
}

#[test]
fn test_letter_round_trip() {
    let l = Letter::from_char('q');
    assert_eq!(l.as_char(), 'q');
    assert_eq!(l.as_index(), 16);
    assert_eq!(l.as_byte(), b'q');
    let m = Letter::from_byte(b'a');
    assert_eq!(m.as_index(), 0);
    assert_eq!(m.as_char(), 'a');
}

#[test]
fn test_word_round_trip() {
    let w = Word::from_text("tares");
    assert_eq!(w.len(), 5);
    assert!(!w.is_empty());
    assert_eq!(w.as_string(), "tares");
    assert!(Word::new().is_empty());
    assert_eq!(Word::from_text("tares"), w);
    assert!(Word::from_text("tare") != w);
}

#[test]
fn test_is_valid_word() {
    assert!(is_valid_word("apple", 5));
    assert!(!is_valid_word("apple", 6));
    assert!(!is_valid_word("appl3", 5));
    assert!(!is_valid_word("Apple", 5));
    assert!(!is_valid_word("", 5));
}

#[test]
fn test_get_words() {
    let text = "apple\nbanana\ngrape\nxy\nMANGO\npeach";
    let words = get_words(text, 5);
    assert_eq!(words, vec!["apple".to_string(), "grape".to_string(), "peach".to_string()]);
    let six = get_words(text, 6);
    assert_eq!(six, vec!["banana".to_string()]);
}

#[test]
fn test_word_frequency() {
    let freq = vec![("mango".to_string(), 10u64), ("apple".to_string(), 5u64)];
    assert_eq!(word_frequency("mango", &freq), 10);
    assert_eq!(word_frequency("apple", &freq), 5);
    assert_eq!(word_frequency("grape", &freq), 0);
}

#[test]
fn test_sort_by_frequency() {
    let freq = vec![("mango".to_string(), 10u64), ("apple".to_string(), 5u64)];
    let mut words = vec!["apple".to_string(), "grape".to_string(), "mango".to_string()];
    sort_by_frequency(&mut words, &freq);
    assert_eq!(words, vec!["mango".to_string(), "apple".to_string(), "grape".to_string()]);
}

#[test]
fn test_wordlist_from_source() {
    let freq = vec![("mango".to_string(), 10u64), ("apple".to_string(), 5u64)];
    let source = WordSource::Scrabble { letter_count: 5, top_n: 2 };
    let list = WordList::from_source(&source, "apple\ngrape\nmango", &freq);
    assert_eq!(list.words, vec!["mango".to_string(), "apple".to_string(), "grape".to_string()]);
    assert_eq!(list.allowed_solutions, vec!["mango".to_string(), "apple".to_string()]);
    assert!(list.is_valid_guess("grape"));
    assert!(!list.is_valid_guess("peach"));
    assert!(list.is_valid_solution("apple"));
    assert!(!list.is_valid_solution("grape"));
}

#[test]
fn test_wordlist_top_n_clamped() {
    let source = WordSource::Scrabble { letter_count: 5, top_n: 99 };
    let list = WordList::from_source(&source, "apple\ngrape", &Vec::new());
    assert_eq!(list.allowed_solutions.len(), 2);
}

#[test]
fn test_word_source_letter_count() {
    assert_eq!(WordSource::Wordle.letter_count(), 5);
    assert_eq!(WordSource::Scrabble { letter_count: 7, top_n: 10 }.letter_count(), 7);
    assert_eq!(WordSource::Dictionary { letter_count: 6, top_n: 10 }.letter_count(), 6);
    assert_eq!(WordSource::Wordle.top_n(), 2315);
}

#[test]
fn test_game_new_single_solution() {
    // With one allowed solution the random draw has one possible outcome.
    let game = Game::new(wl("mango\napple\ngrape", 1));
    assert_eq!(game.solution, game.wordlist.allowed_solutions[0]);
    assert_eq!(game.letter_count(), 5);
    assert!(matches!(game.state(), State::Unsolved));
}

#[test]
fn test_game_set_solution() {
    let mut game = Game::new(wl("mango\napple\ngrape", 2));
    assert!(game.set_solution("apple".to_string()).is_ok());
    assert_eq!(game.solution, "apple");
    let err = game.set_solution("grape".to_string()).unwrap_err();
    assert!(matches!(err, GuessError::InvalidSolution(w) if w == "grape"));
    assert_eq!(game.solution, "apple");
}

#[test]
fn test_game_guess_invalid() {
    let mut game = Game::new(wl("mango\napple", 1));
    let err = game.guess("zzzzz".to_string()).unwrap_err();
    assert!(matches!(err, GuessError::InvalidGuess(w) if w == "zzzzz"));
    assert_eq!(game.guesses.len(), 0);
}

#[test]
fn test_game_finished_error() {
    let mut game = Game::new(wl("mango\napple", 1));
    game.set_solution("mango".to_string()).unwrap();
    let gr = game.guess("mango".to_string()).unwrap();
    assert!(gr.is_solved());
    assert!(matches!(game.state(), State::Solved));
    let err = game.guess("apple".to_string()).unwrap_err();
    assert!(matches!(err, GuessError::GameFinished(State::Solved)));
    game.restart();
    assert!(matches!(game.state(), State::Unsolved));
    assert_eq!(game.guesses.len(), 0);
}

#[test]
fn test_game_failed_after_five_misses() {
    let words = "aaaaa\nbbbbb\nccccc\nddddd\neeeee\nmango";
    let mut game = Game::new(wl(words, 6));
    game.set_solution("mango".to_string()).unwrap();
    for miss in ["aaaaa", "bbbbb", "ccccc", "ddddd", "eeeee"] {
        game.guess(miss.to_string()).unwrap();
    }
    assert!(matches!(game.state(), State::Failed));
    let err = game.guess("mango".to_string()).unwrap_err();
    assert!(matches!(err, GuessError::GameFinished(State::Failed)));
}

#[test]
fn test_letter_states() {
    let mut game = Game::new(wl("tares\nmango", 2));
    game.set_solution("mango".to_string()).unwrap();
    game.guess("tares".to_string()).unwrap();
    let states = game.letter_states();
    assert_eq!(states.len(), 26);
    assert!(matches!(states[0], LetterState::Exact)); // 'a' matched in place
    assert!(matches!(states[19], LetterState::Eliminated)); // 't'
    assert!(matches!(states[4], LetterState::Eliminated)); // 'e'
    assert!(matches!(states[1], LetterState::Unknown)); // 'b' never guessed
}

#[test]
fn test_letter_states_partial() {
    let mut game = Game::new(wl("amigo\nmango", 2));
    game.set_solution("mango".to_string()).unwrap();
    game.guess("amigo".to_string()).unwrap();
    let states = game.letter_states();
    assert!(matches!(states[0], LetterState::Partial)); // 'a' misplaced
    assert!(matches!(states[14], LetterState::Exact)); // 'o' in place
    assert!(matches!(states[8], LetterState::Eliminated)); // 'i'
}

#[test]
fn test_first_guess() {
    let mode = SolverMode::MinEV;
    assert_eq!(first_guess(&mode, &WordSource::Wordle), Some("tares".to_string()));
    let s6 = WordSource::Scrabble { letter_count: 6, top_n: 1 };
    assert_eq!(first_guess(&mode, &s6), Some("salter".to_string()));
    let s7 = WordSource::Dictionary { letter_count: 7, top_n: 1 };
    assert_eq!(first_guess(&SolverMode::Minimax, &s7), Some("saltier".to_string()));
    let s8 = WordSource::Scrabble { letter_count: 8, top_n: 1 };
    assert_eq!(first_guess(&SolverMode::MinLogEV, &s8), Some("notaries".to_string()));
    let s9 = WordSource::Scrabble { letter_count: 9, top_n: 1 };
    assert_eq!(first_guess(&mode, &s9), None);
}

#[test]
fn test_solver_new_replays_history() {
    let mut game = Game::new(wl("tares\nmango\nmanga\npeach", 4));
    game.set_solution("mango".to_string()).unwrap();
    let fresh = Solver::new(&game);
    assert!(fresh.first_guess);
    assert_eq!(fresh.possible_solutions.len(), 4);
    game.guess("manga".to_string()).unwrap();
    let replayed = Solver::new(&game);
    assert!(!replayed.first_guess);
    // Feedback for "manga" against "mango" keeps only "mango" itself.
    assert_eq!(replayed.possible_solutions, vec!["mango".to_string()]);
}

#[test]
fn test_compute_score_minev() {
    let game = Game::new(wl("aaaaa\nbbbbb\nccccc", 3));
    let solver = Solver::new(&game);
    // "aaaaa" splits {aaaaa},{bbbbb,ccccc}: score 1 + 4.
    let score = solver.compute_score(&Word::from_text("aaaaa"), &SolverMode::MinEV, 5);
    assert_eq!(score, 5);
    // "ddddd" leaves one class of three: the fully uninformative worst case.
    let worst = solver.compute_score(&Word::from_text("ddddd"), &SolverMode::MinEV, 5);
    assert_eq!(worst, 9);
}

#[test]
fn test_compute_score_minev_bounds() {
    // N <= score <= N * N for every guess.
    let game = Game::new(wl("tares\nmango\nmanga\npeach\nlemon", 5));
    let solver = Solver::new(&game);
    let n = solver.possible_solutions.len() as u64;
    for guess in ["tares", "mango", "manga", "peach", "lemon"] {
        let score = solver.compute_score(&Word::from_text(guess), &SolverMode::MinEV, 5);
        assert!(n <= score && score <= n * n);
    }
}

#[test]
fn test_compute_score_minimax() {
    let game = Game::new(wl("aaaaa\nbbbbb\nccccc", 3));
    let solver = Solver::new(&game);
    let score = solver.compute_score(&Word::from_text("aaaaa"), &SolverMode::Minimax, 5);
    assert_eq!(score, 2);
    let worst = solver.compute_score(&Word::from_text("ddddd"), &SolverMode::Minimax, 5);
    assert_eq!(worst, 3);
}

#[test]
fn test_class_counts() {
    let game = Game::new(wl("aaaaa\nbbbbb\nccccc", 3));
    let solver = Solver::new(&game);
    let mut counts = solver.class_counts(&Word::from_text("aaaaa"), 5);
    counts.sort();
    assert_eq!(counts, vec![1, 2]);
    let counts_worst = solver.class_counts(&Word::from_text("ddddd"), 5);
    assert_eq!(counts_worst, vec![3]);
}

#[test]
fn test_filter_idempotent() {
    // Filtering an already-filtered set by the same feedback shrinks nothing.
    let gr = GuessResult::check(&Word::from_text("manga"), "mango", 5);
    let mut sols =
        vec!["tares".to_string(), "mango".to_string(), "manga".to_string(), "peach".to_string()];
    wordsmith::solver::filter_solutions(5, &gr, &mut sols);
    let once = sols.clone();
    wordsmith::solver::filter_solutions(5, &gr, &mut sols);
    assert_eq!(sols, once);
}

#[test]
fn test_filter_monotone() {
    let gr = GuessResult::check(&Word::from_text("manga"), "mango", 5);
    let mut sols =
        vec!["tares".to_string(), "mango".to_string(), "manga".to_string(), "peach".to_string()];
    let before = sols.len();
    wordsmith::solver::filter_solutions(5, &gr, &mut sols);
    // Some candidate disagreed with the feedback, so the set strictly shrank.
    assert!(sols.len() < before);
    // An uninformative feedback keeps the set whole.
    let gr_all = GuessResult::check(&Word::from_text("zzzzz"), "mango", 5);
    let mut same = vec!["mango".to_string(), "manga".to_string()];
    wordsmith::solver::filter_solutions(5, &gr_all, &mut same);
    assert_eq!(same, vec!["mango".to_string(), "manga".to_string()]);
}

#[test]
fn test_find_guess_single_candidate() {
    let mut game = Game::new(wl("tares\nmango", 2));
    game.set_solution("mango".to_string()).unwrap();
    let mut solver = Solver::new(&game);
    solver.possible_solutions = vec!["mango".to_string()];
    let w = solver.find_guess(&game, &SolverMode::MinEV).unwrap();
    assert_eq!(w.as_string(), "mango");
}

#[test]
fn test_find_guess_no_candidates() {
    let game = Game::new(wl("tares\nmango", 2));
    let mut solver = Solver::new(&game);
    solver.possible_solutions = Vec::new();
    solver.first_guess = false;
    let err = solver.guess(&mut Game::new(wl("tares\nmango", 2)), &SolverMode::MinEV).unwrap_err();
    assert!(matches!(err, GuessError::NoCandidatesRemain));
}

#[test]
fn test_opening_word_submitted_first() {
    let words = "tares\napple\ngrape\nmango\npeach\nlemon";
    let mut game = Game::new(wl(words, 6));
    game.set_solution("mango".to_string()).unwrap();
    let mut solver = Solver::new(&game);
    assert!(solver.first_guess);
    solver.guess(&mut game, &SolverMode::MinEV).unwrap();
    assert_eq!(game.guesses[0].guess.as_string(), "tares");
    assert!(!solver.first_guess);
}

#[test]
fn test_no_candidates_on_opening_turn() {
    let mut game = Game::new(wl("tares\nmango", 2));
    let mut solver = Solver::new(&game);
    solver.possible_solutions = Vec::new();
    assert!(solver.first_guess);
    let err = solver.guess(&mut game, &SolverMode::MinEV).unwrap_err();
    assert!(matches!(err, GuessError::NoCandidatesRemain));
    assert_eq!(game.guesses.len(), 0);
}

#[test]
fn test_solver_solves_round() {
    // Repeated select-and-submit reaches Solved within the attempt limit.
    let words = "tares\napple\ngrape\nmango\npeach\nlemon";
    let mut game = Game::new(wl(words, 6));
    game.set_solution("mango".to_string()).unwrap();
    game.restart();
    let mut solver = Solver::new(&game);
    let mode = SolverMode::MinEV;
    let mut turns = 0;
    while matches!(game.state(), State::Unsolved) {
        solver.guess(&mut game, &mode).unwrap();
        turns += 1;
        assert!(turns <= 5);
    }
    assert!(matches!(game.state(), State::Solved));
    assert!(game.guesses.len() <= 5);
}

#[test]
fn test_solver_solves_round_minimax() {
    let words = "tares\napple\ngrape\nmango\npeach\nlemon";
    let mut game = Game::new(wl(words, 6));
    game.set_solution("peach".to_string()).unwrap();
    game.restart();
    let mut solver = Solver::new(&game);
    let mode = SolverMode::Minimax;
    while matches!(game.state(), State::Unsolved) {
        solver.guess(&mut game, &mode).unwrap();
    }
    assert!(matches!(game.state(), State::Solved));
}

#[test]
fn test_candidate_set_shrinks_each_turn() {
    let words = "tares\napple\ngrape\nmango\npeach\nlemon";
    let mut game = Game::new(wl(words, 6));
    game.set_solution("lemon".to_string()).unwrap();
    game.restart();
    let mut solver = Solver::new(&game);
    let mode = SolverMode::MinEV;
    let mut last = solver.possible_solutions.len();
    while matches!(game.state(), State::Unsolved) {
        solver.guess(&mut game, &mode).unwrap();
        assert!(solver.possible_solutions.len() <= last);
        last = solver.possible_solutions.len();
    }
    assert!(matches!(game.state(), State::Solved));
}

#[test]
fn test_counter() {
    let mut c = Counter::new();
    c.add(3);
    c.add(3);
    c.add(5);
    assert_eq!(c.get(3), Some(2));
    assert_eq!(c.get(5), Some(1));
    assert_eq!(c.get(1), None);
    assert_eq!(c.sum(), 11);
    assert_eq!(c.count(), 3);
    assert_eq!(c.max(), 5);
    assert_eq!(c.as_vec(), vec![(3, 2), (5, 1)]);
}

#[test]
fn test_counter_unordered_adds() {
    let mut c = Counter::new();
    c.add(9);
    c.add(2);
    c.add(9);
    c.add(4);
    assert_eq!(c.as_vec(), vec![(2, 1), (4, 1), (9, 2)]);
    assert_eq!(c.max(), 9);
    assert_eq!(c.sum(), 24);
}
