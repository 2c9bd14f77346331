use vstd::prelude::*;

use crate::game::{spec_feedback, spec_state, Game, GuessError, GuessResult, LetterMatch};
use crate::words::WordSource;
use crate::{lemma_text_of_word_wf, lemma_text_word_round_trip, lemma_word_of_text_wf,
    text_of_word, wf_text, wf_word, word_of_text, Letter, Word};

verus! {

/// The scoring strategy the solver minimizes: expected remaining candidates,
/// expected remaining uncertainty, or worst-case remaining candidates.
#[derive(Debug, Clone, Copy, PartialEq, Eq, Structural)]
pub enum SolverMode {
    MinEV,
    MinLogEV,
    Minimax,
}

/// The feedback pattern candidate solution text `s` would produce against
/// guess `g`.
pub open spec fn spec_pattern(g: Seq<Letter>, s: Seq<char>) -> Seq<LetterMatch> {
    spec_feedback(g, word_of_text(s))
}

/// Whether candidate text `s` is consistent with feedback `pattern` for guess
/// `g`: it would produce exactly that pattern.
pub open spec fn spec_matches(g: Seq<Letter>, pattern: Seq<LetterMatch>, s: Seq<char>) -> bool {
    spec_pattern(g, s) == pattern
}

/// The candidates of `sols` consistent with the feedback recorded in `gr`, in
/// their original order.
pub open spec fn spec_filter(gr: GuessResult, sols: Seq<String>) -> Seq<String> {
    sols.filter(|s: String| spec_matches(gr.guess@, gr.result@, s@))
}


/// Every element of a filtered sequence passes the predicate; when every
/// element passes already, filtering keeps the whole sequence.
proof fn lemma_filter_all<A>(s: Seq<A>, pred: spec_fn(A) -> bool)
    requires
        forall|i: int| 0 <= i < s.len() ==> pred(#[trigger] s[i]),
    ensures
        s.filter(pred) == s,
    decreases s.len(),
{
    reveal(Seq::filter);
    if s.len() == 0 {
        assert(s.filter(pred) =~= s);
    } else {
        assert forall|i: int| 0 <= i < s.drop_last().len() implies pred(
            #[trigger] s.drop_last()[i],
        ) by {
            assert(s.drop_last()[i] == s[i]);
        }
        lemma_filter_all(s.drop_last(), pred);
        assert(pred(s.last()));
        assert(s.drop_last().push(s.last()) =~= s);
        assert(s.filter(pred) =~= s);
    }
}

/// Filtering drops at least the element that fails the predicate.
proof fn lemma_filter_strict<A>(s: Seq<A>, pred: spec_fn(A) -> bool, i: int)
    requires
        0 <= i < s.len(),
        !pred(s[i]),
    ensures
        s.filter(pred).len() < s.len(),
    decreases s.len(),
{
    reveal(Seq::filter);
    broadcast use Seq::lemma_filter_len;

    if i == s.len() - 1 {
        assert(s.filter(pred) == s.drop_last().filter(pred));
        assert(s.drop_last().filter(pred).len() <= s.drop_last().len());
    } else {
        assert(s.drop_last()[i] == s[i]);
        lemma_filter_strict(s.drop_last(), pred, i);
    }
}

/// Filtering an already-filtered candidate set by the same recorded feedback
/// again yields the identical set: everything kept matches the feedback, so a
/// second pass keeps it all.
pub proof fn lemma_filter_idempotent(gr: GuessResult, sols: Seq<String>)
    ensures
        spec_filter(gr, spec_filter(gr, sols)) == spec_filter(gr, sols),
{
    broadcast use vstd::seq_lib::group_filter_ensures;

    let pred = |s: String| spec_matches(gr.guess@, gr.result@, s@);
    lemma_filter_all(sols.filter(pred), pred);
}

/// Applying a guess never grows the candidate set; it strictly shrinks it
/// when some candidate disagrees with the recorded feedback, and keeps it
/// whole exactly when the feedback is uninformative: every candidate would
/// have produced it.
pub proof fn lemma_filter_monotone(gr: GuessResult, sols: Seq<String>)
    ensures
        spec_filter(gr, sols).len() <= sols.len(),
        (exists|i: int|
            0 <= i < sols.len() && !spec_matches(gr.guess@, gr.result@, (#[trigger] sols[i])@))
            ==> spec_filter(gr, sols).len() < sols.len(),
        (forall|i: int|
            0 <= i < sols.len() ==> spec_matches(gr.guess@, gr.result@, (#[trigger] sols[i])@))
            ==> spec_filter(gr, sols) == sols,
{
    broadcast use vstd::seq_lib::group_filter_ensures;

    let pred = |s: String| spec_matches(gr.guess@, gr.result@, s@);
    if exists|i: int|
        0 <= i < sols.len() && !spec_matches(gr.guess@, gr.result@, (#[trigger] sols[i])@) {
        let i = choose|i: int|
            0 <= i < sols.len() && !spec_matches(gr.guess@, gr.result@, (#[trigger] sols[i])@);
        lemma_filter_strict(sols, pred, i);
    }
    if forall|i: int|
        0 <= i < sols.len() ==> spec_matches(gr.guess@, gr.result@, (#[trigger] sols[i])@) {
        lemma_filter_all(sols, pred);
    }
}

/// The candidate set left after replaying every recorded guess, in order,
/// through the candidate filter.
pub open spec fn spec_replay(sols: Seq<String>, guesses: Seq<GuessResult>) -> Seq<String>
    decreases guesses.len(),
{
    if guesses.len() == 0 {
        sols
    } else {
        spec_filter(guesses.last(), spec_replay(sols, guesses.drop_last()))
    }
}

/// How many of the first `n` candidates would produce feedback `p` against
/// guess `g`.
pub open spec fn class_size_upto(
    g: Seq<Letter>,
    sols: Seq<String>,
    p: Seq<LetterMatch>,
    n: int,
) -> int
    decreases n,
{
    if n <= 0 {
        0
    } else {
        class_size_upto(g, sols, p, n - 1) + if spec_pattern(g, sols[n - 1]@) == p {
            1int
        } else {
            0int
        }
    }
}

/// The size of the feedback class `p`: how many candidates of `sols` would
/// produce feedback `p` against guess `g`.
pub open spec fn class_size(g: Seq<Letter>, sols: Seq<String>, p: Seq<LetterMatch>) -> int {
    class_size_upto(g, sols, p, sols.len() as int)
}

pub open spec fn spec_minev_upto(g: Seq<Letter>, sols: Seq<String>, n: int) -> int
    decreases n,
{
    if n <= 0 {
        0
    } else {
        spec_minev_upto(g, sols, n - 1) + class_size(g, sols, spec_pattern(g, sols[n - 1]@))
    }
}

/// The expected-remaining-candidates score of guess `g` over `sols`: the sum,
/// over the candidates, of the size of the feedback class each falls into.
/// Grouping the candidates by class, this is the sum of the squared class
/// sizes.
pub open spec fn spec_minev(g: Seq<Letter>, sols: Seq<String>) -> int {
    spec_minev_upto(g, sols, sols.len() as int)
}

pub open spec fn spec_minimax_upto(g: Seq<Letter>, sols: Seq<String>, n: int) -> int
    decreases n,
{
    if n <= 0 {
        0
    } else {
        vstd::math::max(
            spec_minimax_upto(g, sols, n - 1),
            class_size(g, sols, spec_pattern(g, sols[n - 1]@)),
        )
    }
}

/// The worst-case score of guess `g` over `sols`: the size of the largest
/// feedback class, and zero when no candidate remains.
pub open spec fn spec_minimax(g: Seq<Letter>, sols: Seq<String>) -> int {
    spec_minimax_upto(g, sols, sols.len() as int)
}

/// The integer score a strategy assigns to guess `g` over `sols`; lower is
/// better. The log-expectation strategy scores in the reals and has no
/// integer score; it is given the constant zero here and never consulted.
pub open spec fn spec_score(mode: SolverMode, g: Seq<Letter>, sols: Seq<String>) -> int {
    match mode {
        SolverMode::MinEV => spec_minev(g, sols),
        SolverMode::Minimax => spec_minimax(g, sols),
        SolverMode::MinLogEV => 0,
    }
}

/// Whether some minimally scored vocabulary word is itself a candidate.
pub open spec fn spec_min_candidate_exists(mode: SolverMode, sols: Seq<String>, vocab: Seq<String>) -> bool {
    exists|j: int|
        0 <= j < vocab.len() && spec_is_candidate(word_of_text((#[trigger] vocab[j])@), sols) && (
        forall|k: int|
            0 <= k < vocab.len() ==> spec_score(mode, word_of_text(vocab[j]@), sols) <= spec_score(
                mode,
                word_of_text((#[trigger] vocab[k])@),
                sols,
            ))
}

/// Whether the vocabulary word at index `i` qualifies for selection over
/// `sols`: no vocabulary word scores lower, and when some minimally scored
/// vocabulary word is itself a candidate, this one is. The selector returns
/// the earliest qualifying word, so ties break deterministically in the
/// vocabulary's frequency order.
pub open spec fn spec_selected_at(
    mode: SolverMode,
    sols: Seq<String>,
    vocab: Seq<String>,
    i: int,
) -> bool {
    &&& forall|j: int|
        0 <= j < vocab.len() ==> spec_score(mode, word_of_text(vocab[i]@), sols) <= spec_score(
            mode,
            word_of_text((#[trigger] vocab[j])@),
            sols,
        )
    &&& (spec_min_candidate_exists(mode, sols, vocab) ==> spec_is_candidate(
        word_of_text(vocab[i]@),
        sols,
    ))
}

/// Whether the word `w` is itself one of the candidate solutions.
pub open spec fn spec_is_candidate(w: Seq<Letter>, sols: Seq<String>) -> bool {
    exists|i: int| 0 <= i < sols.len() && word_of_text((#[trigger] sols[i])@) == w
}

/// A class counts at most the candidates it is drawn from, and never
/// negatively many.
proof fn lemma_class_size_bounds(g: Seq<Letter>, sols: Seq<String>, p: Seq<LetterMatch>, n: int)
    ensures
        0 <= class_size_upto(g, sols, p, n),
        n >= 0 ==> class_size_upto(g, sols, p, n) <= n,
    decreases n,
{
    if n > 0 {
        lemma_class_size_bounds(g, sols, p, n - 1);
    }
}

/// Counting over the first `n` candidates ignores everything pushed past them.
proof fn lemma_class_size_upto_push(
    g: Seq<Letter>,
    sols: Seq<String>,
    x: String,
    p: Seq<LetterMatch>,
    n: int,
)
    requires
        n <= sols.len(),
    ensures
        class_size_upto(g, sols.push(x), p, n) == class_size_upto(g, sols, p, n),
    decreases n,
{
    if n > 0 {
        lemma_class_size_upto_push(g, sols, x, p, n - 1);
        assert(sols.push(x)[n - 1] == sols[n - 1]);
    }
}

/// Appending a candidate grows its own class by one and no other.
proof fn lemma_class_size_push(g: Seq<Letter>, sols: Seq<String>, x: String, p: Seq<LetterMatch>)
    ensures
        class_size(g, sols.push(x), p) == class_size(g, sols, p) + if spec_pattern(g, x@) == p {
            1int
        } else {
            0int
        },
{
    lemma_class_size_upto_push(g, sols, x, p, sols.len() as int);
    assert(sols.push(x)[sols.len() as int] == x);
}

/// A class someone fell into has a member: a positive count yields a witness.
proof fn lemma_class_nonempty(g: Seq<Letter>, sols: Seq<String>, p: Seq<LetterMatch>, n: int)
    requires
        n <= sols.len(),
        class_size_upto(g, sols, p, n) > 0,
    ensures
        exists|i: int| 0 <= i < n && spec_pattern(g, (#[trigger] sols[i])@) == p,
    decreases n,
{
    if n > 0 {
        if spec_pattern(g, sols[n - 1]@) == p {
            assert(spec_pattern(g, (sols[n - 1])@) == p);
        } else {
            lemma_class_nonempty(g, sols, p, n - 1);
        }
    }
}

/// When no candidate among the first `n` produces pattern `p`, its class is
/// empty there.
proof fn lemma_class_size_zero(g: Seq<Letter>, sols: Seq<String>, p: Seq<LetterMatch>, n: int)
    requires
        n <= sols.len(),
        forall|i: int| 0 <= i < n ==> spec_pattern(g, (#[trigger] sols[i])@) != p,
    ensures
        class_size_upto(g, sols, p, n) == 0,
    decreases n,
{
    if n > 0 {
        lemma_class_size_zero(g, sols, p, n - 1);
    }
}

proof fn lemma_minev_upto_push(g: Seq<Letter>, sols: Seq<String>, x: String, n: int)
    requires
        n <= sols.len(),
    ensures
        spec_minev_upto(g, sols.push(x), n) == spec_minev_upto(g, sols, n) + class_size_upto(
            g,
            sols,
            spec_pattern(g, x@),
            n,
        ),
    decreases n,
{
    if n > 0 {
        lemma_minev_upto_push(g, sols, x, n - 1);
        assert(sols.push(x)[n - 1] == sols[n - 1]);
        lemma_class_size_push(g, sols, x, spec_pattern(g, sols[n - 1]@));
    }
}

/// Appending candidate `x`, whose class held `c` candidates before, raises the
/// expected-remaining score by `2 c + 1`: the `c` classmates each count `x`
/// once more, and `x` itself counts `c + 1`.
proof fn lemma_minev_push(g: Seq<Letter>, sols: Seq<String>, x: String)
    ensures
        spec_minev(g, sols.push(x)) == spec_minev(g, sols) + 2 * class_size(
            g,
            sols,
            spec_pattern(g, x@),
        ) + 1,
{
    let p = spec_pattern(g, x@);
    lemma_minev_upto_push(g, sols, x, sols.len() as int);
    assert(sols.push(x)[sols.len() as int] == x);
    lemma_class_size_push(g, sols, x, p);
    assert(spec_minev(g, sols.push(x)) == spec_minev_upto(g, sols.push(x), sols.len() as int)
        + class_size(g, sols.push(x), p));
}

/// The worst-case score is the largest class size: no candidate's class is
/// larger, and some candidate's class attains it when any candidate remains.
proof fn lemma_minimax_is_max(g: Seq<Letter>, sols: Seq<String>, n: int)
    requires
        0 <= n <= sols.len(),
    ensures
        forall|i: int|
            0 <= i < n ==> class_size(g, sols, spec_pattern(g, (#[trigger] sols[i])@))
                <= spec_minimax_upto(g, sols, n),
        n > 0 ==> exists|i: int|
            0 <= i < n && class_size(g, sols, spec_pattern(g, (#[trigger] sols[i])@))
                == spec_minimax_upto(g, sols, n),
        n == 0 ==> spec_minimax_upto(g, sols, n) == 0,
    decreases n,
{
    if n > 0 {
        lemma_minimax_is_max(g, sols, n - 1);
        let last_size = class_size(g, sols, spec_pattern(g, sols[n - 1]@));
        lemma_class_size_bounds(g, sols, spec_pattern(g, sols[n - 1]@), sols.len() as int);
        if last_size >= spec_minimax_upto(g, sols, n - 1) {
            assert(class_size(g, sols, spec_pattern(g, sols[n - 1]@)) == spec_minimax_upto(
                g,
                sols,
                n,
            ));
        } else {
            assert(spec_minimax_upto(g, sols, n - 1) > 0);
            assert(n - 1 > 0);
            let i = choose|i: int|
                0 <= i < n - 1 && class_size(g, sols, spec_pattern(g, (#[trigger] sols[i])@))
                    == spec_minimax_upto(g, sols, n - 1);
            assert(class_size(g, sols, spec_pattern(g, sols[i]@)) == spec_minimax_upto(
                g,
                sols,
                n,
            ));
        }
    }
}

/// The curated opening word of a variant with `letter_count` letters;
/// meaningful for counts five to eight, the ones that have one.
pub open spec fn spec_opening_word(letter_count: int) -> Seq<char> {
    if letter_count == 5 {
        "tares"@
    } else if letter_count == 6 {
        "salter"@
    } else if letter_count == 7 {
        "saltier"@
    } else {
        "notaries"@
    }
}

/// Whether a turn plays the precomputed opening word: it is the round's first
/// guess and the letter count has one.
pub open spec fn spec_plays_opening(first: bool, letter_count: int) -> bool {
    first && 5 <= letter_count <= 8
}

/// The curated opening word for each supported letter count, chosen offline by
/// exhaustive precomputation; the first turn's best move does not depend on
/// the solution pool. Variants with other letter counts have none.
pub fn first_guess(_mode: &SolverMode, source: &WordSource) -> (r: Option<String>)
    ensures
        match r {
            Some(w) => 5 <= source.spec_letter_count() <= 8 && w@ == spec_opening_word(
                source.spec_letter_count() as int,
            ),
            None => !(5 <= source.spec_letter_count() <= 8),
        },
{
    match source.letter_count() {
        5 => Some("tares".to_owned()),
        6 => Some("salter".to_owned()),
        7 => Some("saltier".to_owned()),
        8 => Some("notaries".to_owned()),
        _ => None,
    }
}

/// Elements kept by the candidate filter come from the filtered set.
proof fn lemma_filter_elements(gr: GuessResult, sols: Seq<String>)
    ensures
        forall|i: int|
            0 <= i < spec_filter(gr, sols).len() ==> sols.contains(#[trigger] spec_filter(
                gr,
                sols,
            )[i]),
{
    let pred = |s: String| spec_matches(gr.guess@, gr.result@, s@);
    assert forall|i: int| 0 <= i < spec_filter(gr, sols).len() implies sols.contains(
        #[trigger] spec_filter(gr, sols)[i],
    ) by {
        assert(sols.filter(pred).contains(sols.filter(pred)[i]));
        sols.lemma_filter_contains_rev(pred, sols.filter(pred)[i]);
    }
}

/// Retains exactly the candidates whose feedback against the recorded guess
/// is the recorded feedback, in their original order.
pub fn filter_solutions(letter_count: usize, gr: &GuessResult, solutions: &mut Vec<String>)
    requires
        wf_word(gr.guess@),
        gr.guess@.len() == letter_count,
        forall|i: int|
            0 <= i < old(solutions)@.len() ==> wf_text((#[trigger] old(solutions)@[i])@) && old(
                solutions,
            )@[i]@.len() == letter_count,
    ensures
        final(solutions)@ == spec_filter(*gr, old(solutions)@),
{
    let ghost orig = solutions@;
    let ghost pred = |s: String| spec_matches(gr.guess@, gr.result@, s@);
    let n = solutions.len();
    let mut kept: Vec<String> = Vec::new();
    let mut i: usize = 0;
    assert(orig.take(0) =~= Seq::<String>::empty());
    assert(kept@ == orig.take(0).filter(pred)) by {
        reveal(Seq::filter);
    }
    while i < n
        invariant
            orig == solutions@,
            n == orig.len(),
            0 <= i <= n,
            wf_word(gr.guess@),
            gr.guess@.len() == letter_count,
            forall|k: int|
                0 <= k < orig.len() ==> wf_text((#[trigger] orig[k])@) && orig[k]@.len()
                    == letter_count,
            pred == (|s: String| spec_matches(gr.guess@, gr.result@, s@)),
            kept@ == orig.take(i as int).filter(pred),
        decreases n - i,
    {
        let cand = GuessResult::check(&gr.guess, solutions[i].as_str(), letter_count);
        let ghost kept_before = kept@;
        if *gr == cand {
            kept.push(solutions[i].clone());
        }
        proof {
            assert(orig.take(i + 1) =~= orig.take(i as int).push(orig[i as int]));
            reveal(Seq::filter);
            assert(orig.take(i as int).push(orig[i as int]).filter(pred) == if pred(
                orig[i as int],
            ) {
                orig.take(i as int).filter(pred).push(orig[i as int])
            } else {
                orig.take(i as int).filter(pred)
            }) by {
                assert(orig.take(i as int).push(orig[i as int]).drop_last() == orig.take(i as int));
                assert(orig.take(i as int).push(orig[i as int]).last() == orig[i as int]);
            }
            assert(pred(orig[i as int]) == (cand.result@ == gr.result@));
        }
        i += 1;
    }
    assert(orig.take(n as int) =~= orig);
    *solutions = kept;
}

/// One solver session: the candidate solutions still consistent with every
/// guess made so far, and whether the round's first guess is still to come.
pub struct Solver {
    pub possible_solutions: Vec<String>,
    pub first_guess: bool,
}

impl Solver {
    /// Every candidate is lowercase text of the variant's length.
    pub open spec fn wf(&self, letter_count: usize) -> bool {
        forall|i: int|
            0 <= i < self.possible_solutions@.len() ==> wf_text(
                (#[trigger] self.possible_solutions@[i])@,
            ) && self.possible_solutions@[i]@.len() == letter_count
    }

    /// Opens a solver session on `game`: the candidate set is the allowed
    /// solution pool with every recorded guess replayed through the filter.
    pub fn new(game: &Game) -> (s: Solver)
        requires
            game.wf(),
        ensures
            s.wf(game.letter_count),
            s.possible_solutions@ == spec_replay(
                game.wordlist.allowed_solutions@,
                game.guesses@,
            ),
            s.first_guess == (game.guesses@.len() == 0),
    {
        let ghost allowed = game.wordlist.allowed_solutions@;
        let na = game.wordlist.allowed_solutions.len();
        let mut possible_solutions: Vec<String> = Vec::new();
        let mut i: usize = 0;
        while i < na
            invariant
                allowed == game.wordlist.allowed_solutions@,
                na == allowed.len(),
                0 <= i <= na,
                possible_solutions@ =~= allowed.take(i as int),
            decreases na - i,
        {
            let w = game.wordlist.allowed_solutions[i].clone();
            possible_solutions.push(w);
            i += 1;
        }
        assert(possible_solutions@ =~= allowed);
        assert forall|k: int| 0 <= k < allowed.len() implies wf_text((#[trigger] allowed[k])@)
            && allowed[k]@.len() == game.letter_count by {
            assert(allowed[k]@ == game.wordlist.words@[k]@);
        }
        let ng = game.guesses.len();
        let mut j: usize = 0;
        while j < ng
            invariant
                game.wf(),
                allowed == game.wordlist.allowed_solutions@,
                ng == game.guesses@.len(),
                0 <= j <= ng,
                possible_solutions@ == spec_replay(allowed, game.guesses@.take(j as int)),
                forall|k: int|
                    0 <= k < possible_solutions@.len() ==> wf_text(
                        (#[trigger] possible_solutions@[k])@,
                    ) && possible_solutions@[k]@.len() == game.letter_count,
            decreases ng - j,
        {
            let ghost before = possible_solutions@;
            filter_solutions(game.letter_count, &game.guesses[j], &mut possible_solutions);
            proof {
                assert(game.guesses@.take(j + 1).drop_last() =~= game.guesses@.take(j as int));
                assert(game.guesses@.take(j + 1).last() == game.guesses@[j as int]);
                lemma_filter_elements(game.guesses@[j as int], before);
            }
            j += 1;
        }
        assert(game.guesses@.take(ng as int) =~= game.guesses@);
        let first_guess = game.guesses.len() == 0;
        Solver { possible_solutions, first_guess }
    }

    /// Whether `w` is itself one of the remaining candidate solutions.
    pub fn is_candidate(&self, w: &Word, letter_count: usize) -> (r: bool)
        requires
            self.wf(letter_count),
            wf_word(w@),
        ensures
            r == spec_is_candidate(w@, self.possible_solutions@),
    {
        let n = self.possible_solutions.len();
        let mut i: usize = 0;
        while i < n
            invariant
                self.wf(letter_count),
                wf_word(w@),
                n == self.possible_solutions@.len(),
                0 <= i <= n,
                forall|j: int|
                    0 <= j < i ==> word_of_text((#[trigger] self.possible_solutions@[j])@) != w@,
            decreases n - i,
        {
            if w.matches_text(self.possible_solutions[i].as_str()) {
                return true;
            }
            i += 1;
        }
        false
    }
}


/// Counting within a prefix is counting within the first `m` positions.
proof fn lemma_class_size_take(
    g: Seq<Letter>,
    sols: Seq<String>,
    p: Seq<LetterMatch>,
    n: int,
    m: int,
)
    requires
        0 <= m <= n <= sols.len(),
    ensures
        class_size_upto(g, sols.take(n), p, m) == class_size_upto(g, sols, p, m),
    decreases m,
{
    if m > 0 {
        lemma_class_size_take(g, sols, p, n, m - 1);
        assert(sols.take(n)[m - 1] == sols[m - 1]);
    }
}

/// Every candidate is counted by its own class once the count passes it.
proof fn lemma_class_size_self_upto(g: Seq<Letter>, sols: Seq<String>, i: int, n: int)
    requires
        0 <= i < n <= sols.len(),
    ensures
        class_size_upto(g, sols, spec_pattern(g, sols[i]@), n) >= 1,
    decreases n,
{
    lemma_class_size_bounds(g, sols, spec_pattern(g, sols[i]@), n - 1);
    if n - 1 > i {
        lemma_class_size_self_upto(g, sols, i, n - 1);
    }
}

/// A class counts all of the first `n` candidates exactly when every one of
/// them produces its pattern.
proof fn lemma_class_size_full(g: Seq<Letter>, sols: Seq<String>, p: Seq<LetterMatch>, n: int)
    requires
        0 <= n <= sols.len(),
    ensures
        class_size_upto(g, sols, p, n) == n <==> (forall|i: int|
            0 <= i < n ==> spec_pattern(g, (#[trigger] sols[i])@) == p),
    decreases n,
{
    if n > 0 {
        lemma_class_size_full(g, sols, p, n - 1);
        lemma_class_size_bounds(g, sols, p, n - 1);
    }
}

proof fn lemma_minev_upto_low(g: Seq<Letter>, sols: Seq<String>, n: int)
    requires
        0 <= n <= sols.len(),
    ensures
        spec_minev_upto(g, sols, n) >= n,
        spec_minev_upto(g, sols, n) == n <==> (forall|i: int|
            0 <= i < n ==> class_size(g, sols, spec_pattern(g, (#[trigger] sols[i])@)) == 1),
    decreases n,
{
    if n > 0 {
        lemma_minev_upto_low(g, sols, n - 1);
        lemma_class_size_self_upto(g, sols, n - 1, sols.len() as int);
    }
}

proof fn lemma_minev_upto_high(g: Seq<Letter>, sols: Seq<String>, n: int)
    requires
        0 <= n <= sols.len(),
    ensures
        spec_minev_upto(g, sols, n) <= n * sols.len(),
        spec_minev_upto(g, sols, n) == n * sols.len() <==> (forall|i: int|
            0 <= i < n ==> class_size(g, sols, spec_pattern(g, (#[trigger] sols[i])@))
                == sols.len()),
    decreases n,
{
    if n > 0 {
        lemma_minev_upto_high(g, sols, n - 1);
        let len = sols.len() as int;
        let cs_last = class_size(g, sols, spec_pattern(g, sols[n - 1]@));
        lemma_class_size_bounds(g, sols, spec_pattern(g, sols[n - 1]@), len);
        assert((n - 1) * len + len == n * len) by (nonlinear_arith);
        if spec_minev_upto(g, sols, n) == n * len {
            assert(spec_minev_upto(g, sols, n - 1) == (n - 1) * len && cs_last == len);
            assert forall|i: int| 0 <= i < n implies class_size(
                g,
                sols,
                spec_pattern(g, (#[trigger] sols[i])@),
            ) == len by {
                if i < n - 1 {
                    assert(class_size(g, sols, spec_pattern(g, sols[i]@)) == len);
                }
            }
        }
        if forall|i: int|
            0 <= i < n ==> class_size(g, sols, spec_pattern(g, (#[trigger] sols[i])@))
                == sols.len() {
            assert(forall|i: int|
                0 <= i < n - 1 ==> class_size(g, sols, spec_pattern(g, (#[trigger] sols[i])@))
                    == sols.len());
            assert(spec_minev_upto(g, sols, n - 1) == (n - 1) * len);
            assert(cs_last == len);
        }
    } else {
        assert(spec_minev_upto(g, sols, n) == 0);
        assert(n * sols.len() == 0);
    }
}

/// Bounds on the expected-remaining score of a guess over `N` candidates: at
/// least `N`, with equality exactly when every feedback class is a singleton
/// (a maximally informative guess), and at most `N * N`, attained exactly when
/// every candidate produces the same feedback (a fully uninformative guess).
pub proof fn lemma_minev_bounds(g: Seq<Letter>, sols: Seq<String>)
    ensures
        sols.len() <= spec_minev(g, sols) <= sols.len() * sols.len(),
        spec_minev(g, sols) == sols.len() <==> (forall|i: int|
            0 <= i < sols.len() ==> class_size(g, sols, spec_pattern(g, (#[trigger] sols[i])@))
                == 1),
        spec_minev(g, sols) == sols.len() * sols.len() <==> (forall|i: int, j: int|
            0 <= i < sols.len() && 0 <= j < sols.len() ==> spec_pattern(g, (#[trigger] sols[i])@)
                == spec_pattern(g, (#[trigger] sols[j])@)),
{
    let n = sols.len() as int;
    lemma_minev_upto_low(g, sols, n);
    lemma_minev_upto_high(g, sols, n);
    assert((forall|i: int|
        0 <= i < n ==> class_size(g, sols, spec_pattern(g, (#[trigger] sols[i])@)) == n) <==> (
    forall|i: int, j: int|
        0 <= i < n && 0 <= j < n ==> spec_pattern(g, (#[trigger] sols[i])@) == spec_pattern(
            g,
            (#[trigger] sols[j])@,
        ))) by {
        if forall|i: int|
            0 <= i < n ==> class_size(g, sols, spec_pattern(g, (#[trigger] sols[i])@)) == n {
            assert forall|i: int, j: int|
                0 <= i < n && 0 <= j < n implies spec_pattern(g, (#[trigger] sols[i])@)
                == spec_pattern(g, (#[trigger] sols[j])@) by {
                assert(class_size(g, sols, spec_pattern(g, sols[i]@)) == n);
                lemma_class_size_full(g, sols, spec_pattern(g, sols[i]@), n);
            }
        }
        if forall|i: int, j: int|
            0 <= i < n && 0 <= j < n ==> spec_pattern(g, (#[trigger] sols[i])@) == spec_pattern(
                g,
                (#[trigger] sols[j])@,
            ) {
            assert forall|i: int| 0 <= i < n implies class_size(
                g,
                sols,
                spec_pattern(g, (#[trigger] sols[i])@),
            ) == n by {
                lemma_class_size_full(g, sols, spec_pattern(g, sols[i]@), n);
            }
        }
    }
}

/// The index of the key equal to `p`, if one is there.
fn find_pattern(keys: &Vec<Vec<LetterMatch>>, p: &Vec<LetterMatch>) -> (r: Option<usize>)
    ensures
        match r {
            Some(k) => 0 <= k < keys@.len() && (#[trigger] keys@[k as int])@ == p@,
            None => forall|k: int| 0 <= k < keys@.len() ==> (#[trigger] keys@[k])@ != p@,
        },
{
    let n = keys.len();
    let mut k: usize = 0;
    while k < n
        invariant
            n == keys@.len(),
            0 <= k <= n,
            forall|k2: int| 0 <= k2 < k ==> (#[trigger] keys@[k2])@ != p@,
        decreases n - k,
    {
        if crate::game::matches_eq(&keys[k], p) {
            return Some(k);
        }
        k += 1;
    }
    None
}

/// Groups the candidates of `solutions` by the feedback pattern each would
/// produce against `guess`. Returns the distinct patterns, the size of each
/// pattern's class, and the expected-remaining score.
#[verifier::rlimit(100)]
#[verifier::spinoff_prover]
fn group_patterns(guess: &Word, solutions: &Vec<String>, letter_count: usize) -> (r: (
    Vec<Vec<LetterMatch>>,
    Vec<usize>,
    u64,
))
    requires
        wf_word(guess@),
        guess@.len() == letter_count,
        forall|i: int|
            0 <= i < solutions@.len() ==> wf_text((#[trigger] solutions@[i])@)
                && solutions@[i]@.len() == letter_count,
        solutions@.len() <= 0x7fff_ffff,
    ensures
        r.0@.len() == r.1@.len(),
        forall|k1: int, k2: int|
            0 <= k1 < k2 < r.0@.len() ==> (#[trigger] r.0@[k1])@ != (#[trigger] r.0@[k2])@,
        forall|k: int|
            0 <= k < r.0@.len() ==> (#[trigger] r.1@[k]) == class_size(
                guess@,
                solutions@,
                r.0@[k]@,
            ),
        forall|i: int|
            0 <= i < solutions@.len() ==> exists|k: int|
                0 <= k < r.0@.len() && (#[trigger] r.0@[k])@ == spec_pattern(
                    guess@,
                    (#[trigger] solutions@[i])@,
                ),
        forall|k: int|
            0 <= k < r.0@.len() ==> exists|i: int|
                0 <= i < solutions@.len() && spec_pattern(guess@, (#[trigger] solutions@[i])@) == (
                #[trigger] r.0@[k])@,
        r.2 == spec_minev(guess@, solutions@),
{
    let ghost sols = solutions@;
    let n = solutions.len();
    let mut keys: Vec<Vec<LetterMatch>> = Vec::new();
    let mut counts: Vec<usize> = Vec::new();
    let mut score: u64 = 0;
    assert(sols.take(0) =~= Seq::<String>::empty());
    let mut j: usize = 0;
    while j < n
        invariant
            sols == solutions@,
            n == sols.len(),
            n <= 0x7fff_ffff,
            wf_word(guess@),
            guess@.len() == letter_count,
            forall|i: int|
                0 <= i < sols.len() ==> wf_text((#[trigger] sols[i])@) && sols[i]@.len()
                    == letter_count,
            0 <= j <= n,
            keys@.len() == counts@.len(),
            forall|k1: int, k2: int|
                0 <= k1 < k2 < keys@.len() ==> (#[trigger] keys@[k1])@ != (#[trigger] keys@[k2])@,
            forall|k: int|
                0 <= k < keys@.len() ==> (#[trigger] counts@[k]) == class_size_upto(
                    guess@,
                    sols,
                    keys@[k]@,
                    j as int,
                ),
            forall|i: int|
                0 <= i < j ==> exists|k: int|
                    0 <= k < keys@.len() && (#[trigger] keys@[k])@ == spec_pattern(
                        guess@,
                        (#[trigger] sols[i])@,
                    ),
            forall|k: int| 0 <= k < counts@.len() ==> 1 <= #[trigger] counts@[k],
            score == spec_minev(guess@, sols.take(j as int)),
        decreases n - j,
    {
        let cand = GuessResult::check(guess, solutions[j].as_str(), letter_count);
        let ghost p = spec_pattern(guess@, sols[j as int]@);
        assert(cand.result@ == p);
        proof {
            lemma_minev_bounds(guess@, sols.take(j as int));
            assert(sols.take(j as int).len() == j as int);
            assert((j as int) * (j as int) + 2 * (j as int) + 1 == (j + 1) * (j as int + 1))
                by (nonlinear_arith);
            assert((j as int + 1) * (j as int + 1) <= 0x7fff_ffff * 0x7fff_ffff)
                by (nonlinear_arith)
                requires
                    0 <= j as int + 1 <= 0x7fff_ffff,
            ;
        }
        let ghost keys_before = keys@;
        let ghost counts_before = counts@;
        match find_pattern(&keys, &cand.result) {
            Some(k) => {
                let c = counts[k];
                proof {
                    lemma_class_size_bounds(guess@, sols, p, j as int);
                    lemma_class_size_take(guess@, sols, p, j as int, j as int);
                    assert(sols.take(j as int).take(j as int) =~= sols.take(j as int));
                    assert(c == class_size(guess@, sols.take(j as int), p));
                }
                score = score + 2 * (c as u64) + 1;
                counts.set(k, c + 1);
                proof {
                    assert(keys@[k as int]@ == p);
                    assert(exists|kk: int|
                        0 <= kk < keys@.len() && (#[trigger] keys@[kk])@ == p);
                }
            },
            None => {
                proof {
                    assert forall|i: int| 0 <= i < j implies spec_pattern(
                        guess@,
                        (#[trigger] sols[i])@,
                    ) != p by {
                        let k = choose|k: int|
                            0 <= k < keys_before.len() && (#[trigger] keys_before[k])@
                                == spec_pattern(guess@, sols[i]@);
                    }
                    lemma_class_size_zero(guess@, sols, p, j as int);
                    lemma_class_size_take(guess@, sols, p, j as int, j as int);
                    assert(sols.take(j as int).take(j as int) =~= sols.take(j as int));
                    assert(class_size(guess@, sols.take(j as int), p) == 0);
                }
                keys.push(cand.result);
                counts.push(1);
                score = score + 1;
                proof {
                    assert(keys@[keys@.len() - 1]@ == p);
                    assert(exists|kk: int|
                        0 <= kk < keys@.len() && (#[trigger] keys@[kk])@ == p);
                }
            },
        }
        proof {
            assert(sols.take(j as int + 1) =~= sols.take(j as int).push(sols[j as int]));
            lemma_minev_push(guess@, sols.take(j as int), sols[j as int]);
            assert forall|k2: int| 0 <= k2 < keys@.len() implies (#[trigger] counts@[k2])
                == class_size_upto(guess@, sols, keys@[k2]@, j as int + 1) by {
                if k2 < keys_before.len() {
                    if keys@[k2]@ == p {
                        assert(counts@[k2] == counts_before[k2] + 1);
                    } else {
                        assert(counts@[k2] == counts_before[k2]);
                    }
                } else {
                    assert(keys@[k2]@ == p && counts@[k2] == 1);
                }
            }
            assert forall|i: int| 0 <= i < j + 1 implies exists|kk: int|
                0 <= kk < keys@.len() && (#[trigger] keys@[kk])@ == spec_pattern(
                    guess@,
                    (#[trigger] sols[i])@,
                ) by {
                if i < j {
                    let kk = choose|kk: int|
                        0 <= kk < keys_before.len() && (#[trigger] keys_before[kk])@
                            == spec_pattern(guess@, sols[i]@);
                    assert(keys@[kk]@ == spec_pattern(guess@, sols[i]@));
                } else {
                    let kk = choose|kk: int|
                        0 <= kk < keys@.len() && (#[trigger] keys@[kk])@ == p;
                    assert(keys@[kk]@ == spec_pattern(guess@, sols[i]@));
                }
            }
        }
        j += 1;
    }
    assert(sols.take(n as int) =~= sols);
    assert forall|k: int| 0 <= k < keys@.len() implies exists|i: int|
        0 <= i < sols.len() && spec_pattern(guess@, (#[trigger] sols[i])@) == (
        #[trigger] keys@[k])@ by {
        assert(counts@[k] == class_size_upto(guess@, sols, keys@[k]@, n as int));
        assert(counts@[k] >= 1);
        lemma_class_nonempty(guess@, sols, keys@[k]@, n as int);
    }
    let r = (keys, counts, score);
    assert forall|i: int| 0 <= i < solutions@.len() implies exists|k: int|
        0 <= k < r.0@.len() && (#[trigger] r.0@[k])@ == spec_pattern(
            guess@,
            (#[trigger] solutions@[i])@,
        ) by {
        let k = choose|k: int|
            0 <= k < keys@.len() && (#[trigger] keys@[k])@ == spec_pattern(guess@, sols[i]@);
        assert(0 <= k < r.0@.len() && r.0@[k]@ == spec_pattern(guess@, solutions@[i]@));
    }
    r
}


impl Solver {
    /// The score of `guess` under the chosen integer-scored strategy; lower is
    /// better. The log-expectation strategy scores in the reals; callers fold
    /// over `class_counts` for it instead.
    #[verifier::rlimit(60)]
    #[verifier::spinoff_prover]
    pub fn compute_score(&self, guess: &Word, mode: &SolverMode, letter_count: usize) -> (score:
        u64)
        requires
            self.wf(letter_count),
            wf_word(guess@),
            guess@.len() == letter_count,
            self.possible_solutions@.len() <= 0x7fff_ffff,
            !(mode is MinLogEV),
            mode is Minimax ==> self.possible_solutions@.len() > 0,
        ensures
            score == spec_score(*mode, guess@, self.possible_solutions@),
    {
        let ghost sols = self.possible_solutions@;
        let (keys, counts, minev) = group_patterns(guess, &self.possible_solutions, letter_count);
        match mode {
            SolverMode::MinEV => minev,
            SolverMode::MinLogEV => {
                proof {
                    assert(false);
                }
                0
            },
            SolverMode::Minimax => {
                assert(keys@.len() > 0) by {
                    assert(exists|k: int|
                        0 <= k < keys@.len() && (#[trigger] keys@[k])@ == spec_pattern(
                            guess@,
                            sols[0]@,
                        ));
                }
                let nk = counts.len();
                let mut m: usize = counts[0];
                let mut k: usize = 1;
                while k < nk
                    invariant
                        nk == counts@.len(),
                        1 <= k <= nk,
                        forall|k2: int| 0 <= k2 < k ==> #[trigger] counts@[k2] <= m,
                        exists|k2: int| 0 <= k2 < k && #[trigger] counts@[k2] == m,
                    decreases nk - k,
                {
                    if counts[k] > m {
                        m = counts[k];
                    }
                    k += 1;
                }
                proof {
                    lemma_minimax_is_max(guess@, sols, sols.len() as int);
                    let i_hi = choose|i: int|
                        0 <= i < sols.len() && class_size(guess@, sols, spec_pattern(
                            guess@,
                            (#[trigger] sols[i])@,
                        )) == spec_minimax(guess@, sols);
                    assert(spec_minimax(guess@, sols) <= m) by {
                        let k_hi = choose|kk: int|
                            0 <= kk < keys@.len() && (#[trigger] keys@[kk])@ == spec_pattern(
                                guess@,
                                sols[i_hi]@,
                            );
                        assert(counts@[k_hi] == class_size(guess@, sols, keys@[k_hi]@));
                        assert(counts@[k_hi] <= m);
                    }
                    assert(m <= spec_minimax(guess@, sols)) by {
                        let k0 = choose|k2: int| 0 <= k2 < nk && #[trigger] counts@[k2] == m;
                        let i0 = choose|i: int|
                            0 <= i < sols.len() && spec_pattern(guess@, (#[trigger] sols[i])@) == (
                            keys@[k0])@;
                        assert(class_size(guess@, sols, spec_pattern(guess@, sols[i0]@)) == m);
                    }
                }
                m as u64
            },
        }
    }

    /// The sizes of the feedback classes `guess` splits the remaining
    /// candidates into: one count per distinct feedback pattern, each counting
    /// the candidates that would produce that pattern, with every candidate in
    /// exactly one class.
    pub fn class_counts(&self, guess: &Word, letter_count: usize) -> (counts: Vec<usize>)
        requires
            self.wf(letter_count),
            wf_word(guess@),
            guess@.len() == letter_count,
            self.possible_solutions@.len() <= 0x7fff_ffff,
        ensures
            exists|keys: Seq<Seq<LetterMatch>>|
                {
                    &&& #[trigger] keys.len() == counts@.len()
                    &&& (forall|k1: int, k2: int|
                        0 <= k1 < k2 < keys.len() ==> #[trigger] keys[k1] != #[trigger] keys[k2])
                    &&& (forall|k: int|
                        0 <= k < keys.len() ==> #[trigger] counts@[k] == class_size(
                            guess@,
                            self.possible_solutions@,
                            keys[k],
                        ))
                    &&& (forall|i: int|
                        0 <= i < self.possible_solutions@.len() ==> exists|k: int|
                            0 <= k < keys.len() && keys[k] == spec_pattern(
                                guess@,
                                (#[trigger] self.possible_solutions@[i])@,
                            ))
                },
    {
        let (keys, counts, minev) = group_patterns(guess, &self.possible_solutions, letter_count);
        proof {
            let kview = Seq::new(keys@.len(), |k: int| keys@[k]@);
            assert(kview.len() == counts@.len());
            assert(forall|k1: int, k2: int|
                0 <= k1 < k2 < kview.len() ==> #[trigger] kview[k1] != #[trigger] kview[k2]);
            assert(forall|k: int|
                0 <= k < kview.len() ==> #[trigger] counts@[k] == class_size(
                    guess@,
                    self.possible_solutions@,
                    kview[k],
                ));
            assert forall|i: int| 0 <= i < self.possible_solutions@.len() implies exists|k: int|
                0 <= k < kview.len() && kview[k] == spec_pattern(
                    guess@,
                    (#[trigger] self.possible_solutions@[i])@,
                ) by {
                let k = choose|k: int|
                    0 <= k < keys@.len() && (#[trigger] keys@[k])@ == spec_pattern(
                        guess@,
                        self.possible_solutions@[i]@,
                    );
                assert(kview[k] == spec_pattern(guess@, self.possible_solutions@[i]@));
            }
        }
        counts
    }

    /// Selects the guess to play: the single remaining candidate when only one
    /// is left; otherwise the word of the full guess vocabulary with the best
    /// (lowest) score, preferring, among equally scored words, one that is
    /// itself a remaining candidate. Fails with `NoCandidatesRemain` when the
    /// candidate set is empty.
    #[verifier::rlimit(60)]
    #[verifier::spinoff_prover]
    pub fn find_guess(&self, game: &Game, mode: &SolverMode) -> (r: Result<Word, GuessError>)
        requires
            game.wf(),
            self.wf(game.letter_count),
            self.possible_solutions@.len() <= 0x7fff_ffff,
            !(mode is MinLogEV),
        ensures
            match r {
                Ok(w) => {
                    &&& wf_word(w@)
                    &&& w@.len() == game.letter_count
                    &&& self.possible_solutions@.len() >= 1
                    &&& ({
                        if self.possible_solutions@.len() == 1 {
                            w@ == word_of_text(self.possible_solutions@[0]@)
                        } else {
                            &&& exists|i: int|
                                0 <= i < game.wordlist.words@.len() && w@ == word_of_text(
                                    (#[trigger] game.wordlist.words@[i])@,
                                )
                            &&& forall|i: int|
                                0 <= i < game.wordlist.words@.len() ==> spec_score(
                                    *mode,
                                    w@,
                                    self.possible_solutions@,
                                ) <= spec_score(
                                    *mode,
                                    word_of_text((#[trigger] game.wordlist.words@[i])@),
                                    self.possible_solutions@,
                                )
                            &&& ((exists|i: int|
                                0 <= i < game.wordlist.words@.len() && spec_score(
                                    *mode,
                                    word_of_text((#[trigger] game.wordlist.words@[i])@),
                                    self.possible_solutions@,
                                ) == spec_score(*mode, w@, self.possible_solutions@)
                                    && spec_is_candidate(
                                    word_of_text(game.wordlist.words@[i]@),
                                    self.possible_solutions@,
                                )) ==> spec_is_candidate(w@, self.possible_solutions@))
                            &&& exists|i: int|
                                {
                                    &&& 0 <= i < game.wordlist.words@.len()
                                    &&& w@ == word_of_text((#[trigger] game.wordlist.words@[i])@)
                                    &&& spec_selected_at(
                                        *mode,
                                        self.possible_solutions@,
                                        game.wordlist.words@,
                                        i,
                                    )
                                    &&& forall|j: int|
                                        0 <= j < i ==> !spec_selected_at(
                                            *mode,
                                            self.possible_solutions@,
                                            game.wordlist.words@,
                                            j,
                                        )
                                }
                        }
                    })
                },
                Err(GuessError::NoCandidatesRemain) => self.possible_solutions@.len() == 0,
                Err(_) => false,
            },
    {
        if self.possible_solutions.len() == 0 {
            return Err(GuessError::NoCandidatesRemain);
        }
        if self.possible_solutions.len() == 1 {
            let w = Word::from_text(self.possible_solutions[0].as_str());
            proof {
                lemma_word_of_text_wf(self.possible_solutions@[0]@);
            }
            return Ok(w);
        }
        proof {
            let i = choose|i: int|
                0 <= i < game.wordlist.allowed_solutions@.len() && (
                #[trigger] game.wordlist.allowed_solutions@[i])@ == game.solution@;
            assert(game.wordlist.words@.len() > 0);
        }
        let ghost sols = self.possible_solutions@;
        let ghost vocab = game.wordlist.words@;
        let lc = game.letter_count;
        let nw = game.wordlist.words.len();
        let mut best_word = Word::from_text(game.wordlist.words[0].as_str());
        proof {
            lemma_word_of_text_wf(vocab[0]@);
        }
        let mut best_score = self.compute_score(&best_word, mode, lc);
        let mut best_cand = self.is_candidate(&best_word, lc);
        let ghost mut bi: int = 0;
        let mut idx: usize = 1;
        while idx < nw
            invariant
                sols == self.possible_solutions@,
                vocab == game.wordlist.words@,
                game.wf(),
                self.wf(lc),
                lc == game.letter_count,
                sols.len() >= 2,
                sols.len() <= 0x7fff_ffff,
                !(mode is MinLogEV),
                nw == vocab.len(),
                1 <= idx <= nw,
                wf_word(best_word@),
                best_word@.len() == lc,
                0 <= bi < idx,
                best_word@ == word_of_text(vocab[bi]@),
                exists|i: int|
                    0 <= i < vocab.len() && best_word@ == word_of_text((#[trigger] vocab[i])@),
                best_score == spec_score(*mode, best_word@, sols),
                best_cand == spec_is_candidate(best_word@, sols),
                forall|i: int|
                    0 <= i < idx ==> best_score <= spec_score(
                        *mode,
                        word_of_text((#[trigger] vocab[i])@),
                        sols,
                    ),
                (exists|i: int|
                    0 <= i < idx && spec_score(*mode, word_of_text((#[trigger] vocab[i])@), sols)
                        == best_score && spec_is_candidate(word_of_text(vocab[i]@), sols))
                    ==> best_cand,
                forall|j: int|
                    0 <= j < bi ==> spec_score(*mode, word_of_text((#[trigger] vocab[j])@), sols)
                        > best_score || (!spec_is_candidate(word_of_text(vocab[j]@), sols)
                        && best_cand),
                !best_cand ==> forall|j: int|
                    bi <= j < idx && spec_score(*mode, word_of_text((#[trigger] vocab[j])@), sols)
                        == best_score ==> !spec_is_candidate(word_of_text(vocab[j]@), sols),
            decreases nw - idx,
        {
            let w = Word::from_text(game.wordlist.words[idx].as_str());
            proof {
                lemma_word_of_text_wf(vocab[idx as int]@);
            }
            let score = self.compute_score(&w, mode, lc);
            if score == best_score {
                if !best_cand {
                    if self.is_candidate(&w, lc) {
                        best_word = w;
                        best_cand = true;
                        proof {
                            bi = idx as int;
                        }
                    }
                }
            } else if score < best_score {
                best_word = w;
                best_score = score;
                best_cand = self.is_candidate(&best_word, lc);
                proof {
                    bi = idx as int;
                }
            }
            idx += 1;
        }
        proof {
            assert(spec_selected_at(*mode, sols, vocab, bi)) by {
                if spec_min_candidate_exists(*mode, sols, vocab) {
                    let j = choose|j: int|
                        0 <= j < vocab.len() && spec_is_candidate(
                            word_of_text((#[trigger] vocab[j])@),
                            sols,
                        ) && (forall|k: int|
                            0 <= k < vocab.len() ==> spec_score(
                                *mode,
                                word_of_text(vocab[j]@),
                                sols,
                            ) <= spec_score(*mode, word_of_text((#[trigger] vocab[k])@), sols));
                    assert(spec_score(*mode, word_of_text(vocab[j]@), sols) == best_score);
                    assert(best_cand);
                }
            }
            assert forall|j: int| 0 <= j < bi implies !spec_selected_at(
                *mode,
                sols,
                vocab,
                j,
            ) by {
                if spec_score(*mode, word_of_text(vocab[j]@), sols) > best_score {
                    assert(spec_score(*mode, word_of_text(vocab[bi]@), sols) < spec_score(
                        *mode,
                        word_of_text(vocab[j]@),
                        sols,
                    ));
                } else {
                    assert(!spec_is_candidate(word_of_text(vocab[j]@), sols) && best_cand);
                    assert(spec_min_candidate_exists(*mode, sols, vocab)) by {
                        assert(spec_is_candidate(word_of_text((vocab[bi])@), sols));
                    }
                }
            }
        }
        Ok(best_word)
    }

    /// Plays one solver turn: selects a guess (the precomputed opening word on
    /// the round's first turn, where the variant has one), submits it to the
    /// game, and narrows the candidate set by the feedback received, which
    /// never grows it. Failures of selection or submission are surfaced
    /// unchanged. Turns under the log-expectation strategy, whose score is a
    /// real number, are driven by the caller through `class_counts` instead.
    pub fn guess(&mut self, game: &mut Game, mode: &SolverMode) -> (r: Result<
        GuessResult,
        GuessError,
    >)
        requires
            old(game).wf(),
            old(self).wf(old(game).letter_count),
            old(self).possible_solutions@.len() <= 0x7fff_ffff,
            !(mode is MinLogEV),
        ensures
            final(game).wf(),
            final(game).wordlist == old(game).wordlist,
            final(game).solution == old(game).solution,
            final(game).letter_count == old(game).letter_count,
            final(game).tries == old(game).tries,
            final(self).wf(old(game).letter_count),
            final(self).first_guess == false,
            old(self).possible_solutions@.len() == 0 <==> r matches Err(
                GuessError::NoCandidatesRemain,
            ),
            ({
                let unsolved = spec_state(old(game).guesses@, old(game).tries as int) is Unsolved;
                let opening = spec_plays_opening(
                    old(self).first_guess,
                    old(game).letter_count as int,
                );
                let sols = old(self).possible_solutions@;
                &&& (sols.len() > 0 && unsolved && opening && old(
                    game,
                ).wordlist.spec_is_valid_guess(spec_opening_word(old(game).letter_count as int))
                    ==> r is Ok)
                &&& (sols.len() > 1 && unsolved && !opening ==> r is Ok)
                &&& (sols.len() == 1 && unsolved && !opening && old(
                    game,
                ).wordlist.spec_is_valid_guess(sols[0]@) ==> r is Ok)
            }),
            match r {
                Ok(gr) => {
                    &&& spec_state(old(game).guesses@, old(game).tries as int) is Unsolved
                    &&& old(game).wordlist.spec_is_valid_guess(text_of_word(gr.guess@))
                    &&& wf_word(gr.guess@)
                    &&& gr.guess@.len() == old(game).letter_count
                    &&& gr.result@ == spec_feedback(gr.guess@, word_of_text(old(game).solution@))
                    &&& final(game).guesses@.len() == old(game).guesses@.len() + 1
                    &&& final(game).guesses@.subrange(0, old(game).guesses@.len() as int) == old(
                        game,
                    ).guesses@
                    &&& final(game).guesses@.last().guess@ == gr.guess@
                    &&& final(game).guesses@.last().result@ == gr.result@
                    &&& final(self).possible_solutions@ == spec_filter(
                        gr,
                        old(self).possible_solutions@,
                    )
                    &&& final(self).possible_solutions@.len() <= old(
                        self,
                    ).possible_solutions@.len()
                    &&& (spec_plays_opening(old(self).first_guess, old(game).letter_count as int)
                        ==> gr.guess@ == word_of_text(
                        spec_opening_word(old(game).letter_count as int),
                    ))
                    &&& (!old(self).first_guess && old(self).possible_solutions@.len() == 1
                        ==> gr.guess@ == word_of_text(old(self).possible_solutions@[0]@))
                    &&& (!old(self).first_guess && old(self).possible_solutions@.len() > 1
                        ==> forall|i: int|
                        0 <= i < old(game).wordlist.words@.len() ==> spec_score(
                            *mode,
                            gr.guess@,
                            old(self).possible_solutions@,
                        ) <= spec_score(
                            *mode,
                            word_of_text((#[trigger] old(game).wordlist.words@[i])@),
                            old(self).possible_solutions@,
                        ))
                },
                Err(_) => {
                    &&& final(game).guesses@ == old(game).guesses@
                    &&& final(self).possible_solutions@ == old(self).possible_solutions@
                },
            },
    {
        let ghost sols0 = self.possible_solutions@;
        let ghost was_first = self.first_guess;
        let lc = game.letter_count;
        if self.possible_solutions.len() == 0 {
            self.first_guess = false;
            return Err(GuessError::NoCandidatesRemain);
        }
        let chosen: Word = if self.first_guess {
            self.first_guess = false;
            match first_guess(mode, &game.wordlist.source) {
                Some(text) => {
                    proof {
                        reveal_strlit("tares");
                        reveal_strlit("salter");
                        reveal_strlit("saltier");
                        reveal_strlit("notaries");
                        assert(wf_text(text@));
                        assert(text@.len() == lc);
                    }
                    Word::from_text(text.as_str())
                },
                None => {
                    match self.find_guess(game, mode) {
                        Ok(w) => w,
                        Err(e) => {
                            proof {
                                assert(sols0.len() > 0);
                                assert(false);
                            }
                            return Err(e);
                        },
                    }
                },
            }
        } else {
            self.first_guess = false;
            match self.find_guess(game, mode) {
                Ok(w) => w,
                Err(e) => {
                    proof {
                        assert(sols0.len() > 0);
                        assert(false);
                    }
                    return Err(e);
                },
            }
        };
        proof {
            lemma_word_of_text_wf(text_of_word(chosen@));
            lemma_text_of_word_wf(chosen@);
            lemma_text_word_round_trip(text_of_word(chosen@), chosen@);
        }
        let text = chosen.as_string();
        proof {
            let vocab = game.wordlist.words@;
            if spec_plays_opening(was_first, lc as int) {
                reveal_strlit("tares");
                reveal_strlit("salter");
                reveal_strlit("saltier");
                reveal_strlit("notaries");
                assert(wf_text(spec_opening_word(lc as int)));
                lemma_text_word_round_trip(spec_opening_word(lc as int), chosen@);
                assert(text@ == spec_opening_word(lc as int));
            } else if sols0.len() > 1 {
                let i = choose|i: int|
                    0 <= i < vocab.len() && chosen@ == word_of_text((#[trigger] vocab[i])@);
                lemma_text_word_round_trip(vocab[i]@, chosen@);
                assert(text@ == vocab[i]@);
                assert(game.wordlist.spec_is_valid_guess(text@));
            } else {
                lemma_text_word_round_trip(sols0[0]@, chosen@);
                assert(text@ == sols0[0]@);
            }
        }
        let ghost sols_before = self.possible_solutions@;
        match game.guess(text) {
            Ok(res) => {
                assert(res.guess@ == chosen@);
                filter_solutions(lc, &res, &mut self.possible_solutions);
                proof {
                    lemma_filter_elements(res, sols_before);
                    lemma_filter_monotone(res, sols_before);
                    assert forall|i: int| 0 <= i < self.possible_solutions@.len() implies wf_text(
                        (#[trigger] self.possible_solutions@[i])@,
                    ) && self.possible_solutions@[i]@.len() == lc by {
                        let x = self.possible_solutions@[i];
                        assert(sols_before.contains(x));
                        let j = choose|j: int|
                            0 <= j < sols_before.len() && sols_before[j] == x;
                    }
                }
                Ok(res)
            },
            Err(e) => Err(e),
        }
    }
}

} // verus!

