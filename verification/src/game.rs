use vstd::prelude::*;

use crate::words::{WordList, WordSource};
use crate::{lemma_word_of_text_wf, wf_text, wf_word, word_of_text, Letter, Word};

verus! {

/// Where a round stands: still open, won, or out of attempts.
#[derive(Clone, Copy, Debug, PartialEq, Eq, Structural)]
pub enum State {
    Unsolved,
    Solved,
    Failed,
}

/// The per-position feedback for one letter of a guess.
#[derive(Clone, Copy, Debug, PartialEq, Eq, Structural)]
pub enum LetterMatch {
    Exact,
    Partial,
    Wrong,
}

/// What a round so far has revealed about one letter of the alphabet.
#[derive(Clone, Copy, Debug, PartialEq, Eq, Structural)]
pub enum LetterState {
    Exact,
    Partial,
    Eliminated,
    Unknown,
}

/// Why a guess or a solution was rejected.
#[derive(Clone, Debug)]
pub enum GuessError {
    /// The guess is not in the acceptable-guess vocabulary.
    InvalidGuess(String),
    /// The proposed solution is not in the allowed-solution pool.
    InvalidSolution(String),
    /// A guess was submitted after the round reached the given terminal state.
    GameFinished(State),
    /// No candidate solution is consistent with the feedback seen so far.
    NoCandidatesRemain,
}

/// How many of the first `n` positions hold a solution letter `c` that the
/// guess does not match exactly. Such letters are the budget from which
/// `Partial` classifications for `c` are paid.
pub open spec fn spec_nonexact_solution(g: Seq<Letter>, s: Seq<Letter>, c: Letter, n: int) -> int
    decreases n,
{
    if n <= 0 {
        0
    } else {
        spec_nonexact_solution(g, s, c, n - 1) + if g[n - 1] != s[n - 1] && s[n - 1] == c {
            1int
        } else {
            0int
        }
    }
}

/// How many of the first `n` positions hold a guess letter `c` that does not
/// match the solution exactly.
pub open spec fn spec_nonexact_guess(g: Seq<Letter>, s: Seq<Letter>, c: Letter, n: int) -> int
    decreases n,
{
    if n <= 0 {
        0
    } else {
        spec_nonexact_guess(g, s, c, n - 1) + if g[n - 1] != s[n - 1] && g[n - 1] == c {
            1int
        } else {
            0int
        }
    }
}

/// The classification of position `i` when guess `g` is played against
/// solution `s`: `Exact` on a direct match; otherwise `Partial` as long as the
/// earlier non-exact occurrences of the guessed letter have not used up all
/// non-exact occurrences of that letter in the solution; otherwise `Wrong`.
pub open spec fn spec_feedback_at(g: Seq<Letter>, s: Seq<Letter>, i: int) -> LetterMatch {
    if g[i] == s[i] {
        LetterMatch::Exact
    } else if spec_nonexact_guess(g, s, g[i], i) < spec_nonexact_solution(
        g,
        s,
        g[i],
        g.len() as int,
    ) {
        LetterMatch::Partial
    } else {
        LetterMatch::Wrong
    }
}

/// The full per-position feedback for guess `g` against solution `s`.
pub open spec fn spec_feedback(g: Seq<Letter>, s: Seq<Letter>) -> Seq<LetterMatch> {
    Seq::new(g.len(), |i: int| spec_feedback_at(g, s, i))
}

/// Feedback that solves the round: every position matched exactly.
pub open spec fn spec_is_solved(res: Seq<LetterMatch>) -> bool {
    forall|i: int| 0 <= i < res.len() ==> res[i] == LetterMatch::Exact
}

/// How many of the first `n` positions hold the guess letter `c` and
/// classify as `Partial`.
pub open spec fn spec_partial_count(g: Seq<Letter>, s: Seq<Letter>, c: Letter, n: int) -> int
    decreases n,
{
    if n <= 0 {
        0
    } else {
        spec_partial_count(g, s, c, n - 1) + if g[n - 1] == c && spec_feedback_at(g, s, n - 1)
            == LetterMatch::Partial {
            1int
        } else {
            0int
        }
    }
}

/// The non-exact occurrence counts are counts: never negative.
proof fn lemma_nonexact_nonneg(g: Seq<Letter>, s: Seq<Letter>, c: Letter, n: int)
    ensures
        spec_nonexact_guess(g, s, c, n) >= 0,
        spec_nonexact_solution(g, s, c, n) >= 0,
    decreases n,
{
    if n > 0 {
        lemma_nonexact_nonneg(g, s, c, n - 1);
    }
}

proof fn lemma_partial_count_upto(g: Seq<Letter>, s: Seq<Letter>, c: Letter, n: int)
    requires
        g.len() == s.len(),
        0 <= n <= g.len(),
    ensures
        spec_partial_count(g, s, c, n) == vstd::math::min(
            spec_nonexact_guess(g, s, c, n),
            spec_nonexact_solution(g, s, c, g.len() as int),
        ),
    decreases n,
{
    lemma_nonexact_nonneg(g, s, c, g.len() as int);
    if n > 0 {
        lemma_partial_count_upto(g, s, c, n - 1);
        let limit = spec_nonexact_solution(g, s, c, g.len() as int);
        let a = spec_nonexact_guess(g, s, c, n - 1);
        if g[n - 1] == c && g[n - 1] != s[n - 1] {
            assert(spec_nonexact_guess(g, s, c, n) == a + 1);
            if a < limit {
                assert(spec_feedback_at(g, s, n - 1) == LetterMatch::Partial);
            } else {
                assert(spec_feedback_at(g, s, n - 1) != LetterMatch::Partial);
            }
        } else {
            assert(spec_nonexact_guess(g, s, c, n) == a);
            if g[n - 1] == c {
                assert(spec_feedback_at(g, s, n - 1) == LetterMatch::Exact);
            }
        }
    }
}

/// Duplicate letters are scored once per available occurrence: for any letter,
/// the feedback holds exactly as many `Partial` classifications of it as the
/// smaller of its non-exact occurrences in the guess and in the solution.
pub proof fn lemma_duplicate_letter_accounting(g: Seq<Letter>, s: Seq<Letter>, c: Letter)
    requires
        g.len() == s.len(),
    ensures
        spec_partial_count(g, s, c, g.len() as int) == vstd::math::min(
            spec_nonexact_guess(g, s, c, g.len() as int),
            spec_nonexact_solution(g, s, c, g.len() as int),
        ),
{
    lemma_partial_count_upto(g, s, c, g.len() as int);
}

/// A guess played against itself matches exactly everywhere: its feedback has
/// one classification per position, all of them `Exact`, so it solves the
/// round.
pub proof fn lemma_self_guess_solved(g: Seq<Letter>)
    ensures
        spec_feedback(g, g).len() == g.len(),
        forall|i: int| 0 <= i < g.len() ==> spec_feedback(g, g)[i] == LetterMatch::Exact,
        spec_is_solved(spec_feedback(g, g)),
{
}

/// A guess word paired with the per-position feedback it received.
#[derive(Debug)]
pub struct GuessResult {
    pub guess: Word,
    pub result: Vec<LetterMatch>,
}

impl Clone for GuessResult {
    fn clone(&self) -> (r: GuessResult)
        ensures
            r.guess@ == self.guess@,
            r.result@ == self.result@,
    {
        let n = self.result.len();
        let mut result: Vec<LetterMatch> = Vec::new();
        let mut i: usize = 0;
        while i < n
            invariant
                n == self.result@.len(),
                0 <= i <= n,
                result@ =~= self.result@.subrange(0, i as int),
            decreases n - i,
        {
            result.push(self.result[i]);
            i += 1;
        }
        assert(result@ =~= self.result@);
        GuessResult { guess: self.guess.clone(), result }
    }
}

/// Whether two feedback sequences are equal position by position.
pub fn matches_eq(a: &Vec<LetterMatch>, b: &Vec<LetterMatch>) -> (r: bool)
    ensures
        r == (a@ == b@),
{
    if a.len() != b.len() {
        assert(a@.len() != b@.len());
        return false;
    }
    let n = a.len();
    let mut i: usize = 0;
    while i < n
        invariant
            n == a@.len() == b@.len(),
            0 <= i <= n,
            forall|j: int| 0 <= j < i ==> a@[j] == b@[j],
        decreases n - i,
    {
        if a[i] != b[i] {
            return false;
        }
        i += 1;
    }
    assert(a@ =~= b@);
    true
}

impl PartialEq for GuessResult {
    fn eq(&self, other: &GuessResult) -> (r: bool) {
        crate::word_eq(&self.guess, &other.guess) && matches_eq(&self.result, &other.result)
    }
}

impl Eq for GuessResult {

}

impl vstd::std_specs::cmp::PartialEqSpecImpl for GuessResult {
    open spec fn obeys_eq_spec() -> bool {
        true
    }

    open spec fn eq_spec(&self, other: &GuessResult) -> bool {
        self.guess@ == other.guess@ && self.result@ == other.result@
    }
}

impl GuessResult {
    /// The feedback for `guess_word` played against `solution`, with correct
    /// accounting for duplicate letters: a letter is classified `Partial` only
    /// while non-exact occurrences of it remain unconsumed in the solution.
    pub fn check(guess_word: &Word, solution: &str, letter_count: usize) -> (r: GuessResult)
        requires
            wf_word(guess_word@),
            guess_word@.len() == letter_count,
            wf_text(solution@),
            solution@.len() == letter_count,
        ensures
            r.guess@ == guess_word@,
            r.result@ == spec_feedback(guess_word@, word_of_text(solution@)),
    {
        broadcast use Letter::lemma_eq_idx;

        let solution_word = Word::from_text(solution);
        let ghost g: Seq<Letter> = guess_word@;
        let ghost s: Seq<Letter> = solution_word@;

        let mut count_sol: Vec<usize> = Vec::new();
        let mut k: usize = 0;
        while k < 26
            invariant
                0 <= k <= 26,
                count_sol@.len() == k,
                forall|j: int| 0 <= j < k ==> count_sol@[j] == 0,
            decreases 26 - k,
        {
            count_sol.push(0);
            k += 1;
        }

        let mut i: usize = 0;
        while i < letter_count
            invariant
                guess_word@ == g,
                solution_word@ == s,
                g.len() == letter_count,
                s.len() == letter_count,
                wf_word(g),
                wf_word(s),
                0 <= i <= letter_count,
                count_sol@.len() == 26,
                forall|j: int| 0 <= j < 26 ==> #[trigger] count_sol@[j] <= i,
                forall|c: Letter|
                    c.wf() ==> count_sol@[c.idx()] == spec_nonexact_solution(g, s, c, i as int),
            decreases letter_count - i,
        {
            let gl = guess_word.vec[i];
            let sl = solution_word.vec[i];
            if gl != sl {
                let idx = sl.as_index();
                let old_count = count_sol[idx];
                count_sol.set(idx, old_count + 1);
            }
            i += 1;
        }

        let mut count_guess: Vec<usize> = Vec::new();
        let mut k2: usize = 0;
        while k2 < 26
            invariant
                0 <= k2 <= 26,
                count_guess@.len() == k2,
                forall|j: int| 0 <= j < k2 ==> count_guess@[j] == 0,
            decreases 26 - k2,
        {
            count_guess.push(0);
            k2 += 1;
        }

        let mut res: Vec<LetterMatch> = Vec::new();
        let mut i2: usize = 0;
        while i2 < letter_count
            invariant
                guess_word@ == g,
                solution_word@ == s,
                g.len() == letter_count,
                s.len() == letter_count,
                wf_word(g),
                wf_word(s),
                0 <= i2 <= letter_count,
                count_sol@.len() == 26,
                forall|c: Letter|
                    c.wf() ==> count_sol@[c.idx()] == spec_nonexact_solution(
                        g,
                        s,
                        c,
                        letter_count as int,
                    ),
                count_guess@.len() == 26,
                forall|j: int| 0 <= j < 26 ==> #[trigger] count_guess@[j] <= i2,
                forall|c: Letter|
                    c.wf() ==> count_guess@[c.idx()] == vstd::math::min(
                        spec_nonexact_guess(g, s, c, i2 as int),
                        spec_nonexact_solution(g, s, c, letter_count as int),
                    ),
                res@.len() == i2,
                forall|j: int| 0 <= j < i2 ==> res@[j] == spec_feedback_at(g, s, j),
            decreases letter_count - i2,
        {
            let gl = guess_word.vec[i2];
            let sl = solution_word.vec[i2];
            if gl == sl {
                res.push(LetterMatch::Exact);
            } else {
                let idx = gl.as_index();
                let cg = count_guess[idx];
                let cs = count_sol[idx];
                if cg < cs {
                    res.push(LetterMatch::Partial);
                    count_guess.set(idx, cg + 1);
                } else {
                    res.push(LetterMatch::Wrong);
                }
            }
            i2 += 1;
        }

        let r = GuessResult { guess: guess_word.clone(), result: res };
        assert(r.guess@ =~= g);
        assert(r.result@ =~= spec_feedback(g, s));
        r
    }

    /// Whether this feedback solves the round: every position `Exact`.
    pub fn is_solved(&self) -> (r: bool)
        ensures
            r == spec_is_solved(self.result@),
    {
        let n = self.result.len();
        let mut i: usize = 0;
        while i < n
            invariant
                n == self.result@.len(),
                0 <= i <= n,
                forall|j: int| 0 <= j < i ==> self.result@[j] == LetterMatch::Exact,
            decreases n - i,
        {
            match self.result[i] {
                LetterMatch::Exact => {},
                _ => {
                    return false;
                },
            }
            i += 1;
        }
        true
    }
}


/// The state a guess history puts the round in: `Unsolved` before any guess,
/// `Solved` once the last feedback is all `Exact`, `Failed` when the attempt
/// limit is reached without solving, `Unsolved` otherwise.
pub open spec fn spec_state(guesses: Seq<GuessResult>, tries: int) -> State {
    if guesses.len() == 0 {
        State::Unsolved
    } else if spec_is_solved(guesses.last().result@) {
        State::Solved
    } else if guesses.len() == tries {
        State::Failed
    } else {
        State::Unsolved
    }
}

/// Relies on rand's `Rng::gen_range` on `thread_rng`: a sample from the
/// non-empty range `0..n` lies in that range. Nothing else is assumed of the
/// drawn value.
#[verifier::external_body]
fn random_index(n: usize) -> (i: usize)
    requires
        n > 0,
    ensures
        i < n,
{
    rand::Rng::gen_range(&mut rand::thread_rng(), 0..n)
}


/// How feedback for one occurrence of a letter refines what is known of it:
/// an exact match is definitive, a partial match outranks elimination, and a
/// wrong match eliminates only letters nothing better is known about.
pub open spec fn spec_combine(prev: LetterState, m: LetterMatch) -> LetterState {
    match (prev, m) {
        (_, LetterMatch::Exact) => LetterState::Exact,
        (LetterState::Exact, _) => LetterState::Exact,
        (_, LetterMatch::Partial) => LetterState::Partial,
        (LetterState::Partial, _) => LetterState::Partial,
        (_, _) => LetterState::Eliminated,
    }
}

fn combine(prev: LetterState, m: LetterMatch) -> (r: LetterState)
    ensures
        r == spec_combine(prev, m),
{
    match (prev, m) {
        (_, LetterMatch::Exact) => LetterState::Exact,
        (LetterState::Exact, _) => LetterState::Exact,
        (_, LetterMatch::Partial) => LetterState::Partial,
        (LetterState::Partial, _) => LetterState::Partial,
        (_, _) => LetterState::Eliminated,
    }
}

/// What is known about the letter with alphabet index `c` after folding the
/// first `n` positions of one guess's feedback into `init`.
pub open spec fn spec_letter_state_word(
    init: LetterState,
    g: Seq<Letter>,
    res: Seq<LetterMatch>,
    c: int,
    n: int,
) -> LetterState
    decreases n,
{
    if n <= 0 {
        init
    } else {
        let prev = spec_letter_state_word(init, g, res, c, n - 1);
        if g[n - 1].idx() == c {
            spec_combine(prev, res[n - 1])
        } else {
            prev
        }
    }
}

/// What is known about the letter with alphabet index `c` after the first `m`
/// recorded guesses, starting from `Unknown`.
pub open spec fn spec_letter_states(guesses: Seq<GuessResult>, c: int, m: int) -> LetterState
    decreases m,
{
    if m <= 0 {
        LetterState::Unknown
    } else {
        spec_letter_state_word(
            spec_letter_states(guesses, c, m - 1),
            guesses[m - 1].guess@,
            guesses[m - 1].result@,
            c,
            guesses[m - 1].guess@.len() as int,
        )
    }
}

/// One round of the game: a fixed word list and solution, and the ordered
/// feedback history of the guesses submitted so far.
pub struct Game {
    pub letter_count: usize,
    pub tries: usize,
    pub solution: String,
    pub wordlist: WordList,
    pub guesses: Vec<GuessResult>,
}

impl Game {
    /// The word list is well formed and matches the letter count, the
    /// solution is drawn from the allowed pool, and every recorded feedback is
    /// the feedback of its guess against the current solution; at most the
    /// last guess solves the round, and the history never exceeds the attempt
    /// limit.
    pub open spec fn wf(&self) -> bool {
        &&& self.wordlist.wf()
        &&& self.letter_count == self.wordlist.source.spec_letter_count()
        &&& self.tries >= 1
        &&& self.wordlist.spec_is_valid_solution(self.solution@)
        &&& self.guesses@.len() <= self.tries
        &&& forall|i: int|
            0 <= i < self.guesses@.len() ==> {
                let gr = #[trigger] self.guesses@[i];
                wf_word(gr.guess@) && gr.guess@.len() == self.letter_count && gr.result@
                    == spec_feedback(gr.guess@, word_of_text(self.solution@))
            }
        &&& forall|i: int|
            0 <= i < self.guesses@.len() - 1 ==> !spec_is_solved(
                (#[trigger] self.guesses@[i]).result@,
            )
    }

    /// A solution drawn from the allowed pool is lowercase text of the
    /// variant's length.
    pub proof fn lemma_solution_wf(&self)
        requires
            self.wf(),
        ensures
            wf_text(self.solution@),
            self.solution@.len() == self.letter_count,
    {
        let i = choose|i: int|
            0 <= i < self.wordlist.allowed_solutions@.len()
                && (#[trigger] self.wordlist.allowed_solutions@[i])@ == self.solution@;
        assert(self.wordlist.allowed_solutions@[i]@ == self.wordlist.words@[i]@);
    }

    /// Starts a round over `wordlist` with a solution drawn at random from the
    /// allowed pool and the default limit of five attempts.
    pub fn new(wordlist: WordList) -> (g: Game)
        requires
            wordlist.wf(),
            wordlist.allowed_solutions@.len() > 0,
        ensures
            g.wf(),
            g.wordlist == wordlist,
            g.letter_count == wordlist.source.spec_letter_count(),
            g.tries == 5,
            g.guesses@.len() == 0,
            wordlist.spec_is_valid_solution(g.solution@),
    {
        let letter_count = wordlist.source.letter_count();
        let i = random_index(wordlist.allowed_solutions.len());
        let solution = wordlist.allowed_solutions[i].clone();
        let g = Game { letter_count, tries: 5, solution, wordlist, guesses: Vec::new() };
        assert(g.wordlist.spec_is_valid_solution(g.solution@)) by {
            assert(g.wordlist.allowed_solutions@[i as int]@ == g.solution@);
        }
        g
    }

    /// Builds the variant's word list from raw text and a frequency table and
    /// starts a round over it. The text must yield at least one word and the
    /// variant must allow at least one solution.
    pub fn from_source(source: &WordSource, raw_words: &str, freq: &Vec<(String, u64)>) -> (g:
        Game)
        requires
            source.spec_top_n() > 0,
            crate::words::spec_words_from(
                raw_words@,
                source.spec_letter_count() as int,
                0,
            ).len() > 0,
        ensures
            g.wf(),
            g.wordlist.source == *source,
            g.letter_count == source.spec_letter_count(),
            g.tries == 5,
            g.guesses@.len() == 0,
            g.wordlist.spec_is_valid_solution(g.solution@),
            g.wordlist.words@.len() == crate::words::spec_words_from(
                raw_words@,
                source.spec_letter_count() as int,
                0,
            ).len(),
            g.wordlist.words.deep_view().to_multiset() == crate::words::spec_words_from(
                raw_words@,
                source.spec_letter_count() as int,
                0,
            ).to_multiset(),
            crate::words::spec_sorted_by_freq(g.wordlist.words@, freq@),
            g.wordlist.allowed_solutions@.len() == vstd::math::min(
                source.spec_top_n() as int,
                crate::words::spec_words_from(
                    raw_words@,
                    source.spec_letter_count() as int,
                    0,
                ).len() as int,
            ),
    {
        let wordlist = WordList::from_source(source, raw_words, freq);
        Game::new(wordlist)
    }

    /// Makes `solution` the hidden answer and starts a fresh round: the guess
    /// history is cleared. Rejected when `solution` is not in the allowed
    /// pool; the game is then left unchanged.
    pub fn set_solution(&mut self, solution: String) -> (r: Result<(), GuessError>)
        requires
            old(self).wf(),
        ensures
            final(self).wf(),
            final(self).wordlist == old(self).wordlist,
            final(self).letter_count == old(self).letter_count,
            final(self).tries == old(self).tries,
            match r {
                Ok(()) => old(self).wordlist.spec_is_valid_solution(solution@)
                    && final(self).solution == solution && final(self).guesses@.len() == 0,
                Err(GuessError::InvalidSolution(w)) => !old(self).wordlist.spec_is_valid_solution(
                    solution@,
                ) && w == solution && *final(self) == *old(self),
                Err(_) => false,
            },
    {
        if !self.wordlist.is_valid_solution(solution.as_str()) {
            return Err(GuessError::InvalidSolution(solution));
        }
        self.solution = solution;
        self.guesses = Vec::new();
        Ok(())
    }

    /// Clears the guess history; the solution and word list are kept.
    pub fn restart(&mut self)
        requires
            old(self).wf(),
        ensures
            final(self).wf(),
            final(self).guesses@.len() == 0,
            final(self).solution == old(self).solution,
            final(self).wordlist == old(self).wordlist,
            final(self).letter_count == old(self).letter_count,
            final(self).tries == old(self).tries,
    {
        self.guesses = Vec::new();
    }

    /// Where the round stands, derived from the guess history.
    pub fn state(&self) -> (st: State)
        ensures
            st == spec_state(self.guesses@, self.tries as int),
    {
        let n = self.guesses.len();
        if n == 0 {
            State::Unsolved
        } else if self.guesses[n - 1].is_solved() {
            State::Solved
        } else if n == self.tries {
            State::Failed
        } else {
            State::Unsolved
        }
    }

    /// Submits a guess. Rejected with `InvalidGuess` when the text is not in
    /// the guess vocabulary and with `GameFinished` when the round is already
    /// terminal; otherwise the feedback against the hidden solution is
    /// appended to the history and returned.
    pub fn guess(&mut self, guess: String) -> (r: Result<GuessResult, GuessError>)
        requires
            old(self).wf(),
        ensures
            final(self).wf(),
            final(self).wordlist == old(self).wordlist,
            final(self).letter_count == old(self).letter_count,
            final(self).tries == old(self).tries,
            final(self).solution == old(self).solution,
            match r {
                Ok(gr) => {
                    &&& old(self).wordlist.spec_is_valid_guess(guess@)
                    &&& spec_state(old(self).guesses@, old(self).tries as int) is Unsolved
                    &&& gr.guess@ == word_of_text(guess@)
                    &&& gr.result@ == spec_feedback(
                        word_of_text(guess@),
                        word_of_text(old(self).solution@),
                    )
                    &&& final(self).guesses@.len() == old(self).guesses@.len() + 1
                    &&& final(self).guesses@.subrange(0, old(self).guesses@.len() as int) == old(
                        self,
                    ).guesses@
                    &&& final(self).guesses@.last().guess@ == gr.guess@
                    &&& final(self).guesses@.last().result@ == gr.result@
                },
                Err(GuessError::InvalidGuess(w)) => !old(self).wordlist.spec_is_valid_guess(guess@)
                    && w == guess && final(self).guesses@ == old(self).guesses@,
                Err(GuessError::GameFinished(st)) => old(self).wordlist.spec_is_valid_guess(guess@)
                    && !(spec_state(old(self).guesses@, old(self).tries as int) is Unsolved) && st
                    == spec_state(old(self).guesses@, old(self).tries as int)
                    && final(self).guesses@ == old(self).guesses@,
                Err(_) => false,
            },
    {
        if !self.wordlist.is_valid_guess(guess.as_str()) {
            return Err(GuessError::InvalidGuess(guess));
        }
        proof {
            let i = choose|i: int|
                0 <= i < self.wordlist.words@.len() && (#[trigger] self.wordlist.words@[i])@
                    == guess@;
            assert(wf_text(guess@));
            self.lemma_solution_wf();
            lemma_word_of_text_wf(guess@);
        }
        match self.state() {
            State::Unsolved => {
                let guess_word = Word::from_text(guess.as_str());
                let result = GuessResult::check(
                    &guess_word,
                    self.solution.as_str(),
                    self.letter_count,
                );
                let stored = result.clone();
                let ghost before = self.guesses@;
                self.guesses.push(stored);
                proof {
                    assert(self.guesses@.subrange(0, before.len() as int) =~= before);
                    assert(self.guesses@.last().result@ == result.result@);
                    if before.len() > 0 {
                        assert(!spec_is_solved(before.last().result@));
                    }
                }
                Ok(result)
            },
            State::Solved => Err(GuessError::GameFinished(State::Solved)),
            State::Failed => Err(GuessError::GameFinished(State::Failed)),
        }
    }


    /// What the round so far has revealed about each letter of the alphabet,
    /// indexed by alphabet position: the feedback of every recorded guess,
    /// folded in order over every position.
    pub fn letter_states(&self) -> (states: Vec<LetterState>)
        requires
            self.wf(),
        ensures
            states@.len() == 26,
            forall|c: int|
                0 <= c < 26 ==> states@[c] == spec_letter_states(
                    self.guesses@,
                    c,
                    self.guesses@.len() as int,
                ),
    {
        let mut states: Vec<LetterState> = Vec::new();
        let mut k: usize = 0;
        while k < 26
            invariant
                0 <= k <= 26,
                states@.len() == k,
                forall|j: int| 0 <= j < k ==> states@[j] == LetterState::Unknown,
            decreases 26 - k,
        {
            states.push(LetterState::Unknown);
            k += 1;
        }
        let ng = self.guesses.len();
        let mut gi: usize = 0;
        while gi < ng
            invariant
                self.wf(),
                ng == self.guesses@.len(),
                0 <= gi <= ng,
                states@.len() == 26,
                forall|c: int|
                    0 <= c < 26 ==> states@[c] == spec_letter_states(self.guesses@, c, gi as int),
            decreases ng - gi,
        {
            let gr = &self.guesses[gi];
            let ghost g = gr.guess@;
            let ghost res = gr.result@;
            let n = gr.guess.len();
            assert(res.len() == n) by {
                assert(gr.result@ == spec_feedback(gr.guess@, word_of_text(self.solution@)));
            }
            let mut i: usize = 0;
            while i < n
                invariant
                    self.wf(),
                    ng == self.guesses@.len(),
                    0 <= gi < ng,
                    gr == &self.guesses@[gi as int],
                    g == gr.guess@,
                    res == gr.result@,
                    n == g.len() == res.len(),
                    wf_word(g),
                    0 <= i <= n,
                    states@.len() == 26,
                    forall|c: int|
                        0 <= c < 26 ==> states@[c] == spec_letter_state_word(
                            spec_letter_states(self.guesses@, c, gi as int),
                            g,
                            res,
                            c,
                            i as int,
                        ),
                decreases n - i,
            {
                let letter = gr.guess.vec[i];
                let lm = gr.result[i];
                let idx = letter.as_index();
                let next = combine(states[idx], lm);
                states.set(idx, next);
                i += 1;
            }
            gi += 1;
        }
        states
    }

    pub fn letter_count(&self) -> (n: usize)
        ensures
            n == self.letter_count,
    {
        self.letter_count
    }
}

} // verus!

