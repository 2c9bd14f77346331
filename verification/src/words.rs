use vstd::prelude::*;

use vstd::multiset::Multiset;

use crate::{is_lower_char, wf_text};

verus! {

/// Which dictionary a game variant draws its words from, together with the
/// word length and the size of the solution pool.
#[derive(Debug, Clone, Copy, PartialEq, Eq, Structural)]
pub enum WordSource {
    Wordle,
    Scrabble { letter_count: usize, top_n: usize },
    Dictionary { letter_count: usize, top_n: usize },
}

impl WordSource {
    /// The length of every word of this variant.
    pub open spec fn spec_letter_count(&self) -> usize {
        match self {
            WordSource::Wordle => 5,
            WordSource::Scrabble { letter_count, .. } => *letter_count,
            WordSource::Dictionary { letter_count, .. } => *letter_count,
        }
    }

    /// How many of the most frequent words are eligible as hidden solutions.
    pub open spec fn spec_top_n(&self) -> usize {
        match self {
            WordSource::Wordle => 2315,
            WordSource::Scrabble { top_n, .. } => *top_n,
            WordSource::Dictionary { top_n, .. } => *top_n,
        }
    }

    pub fn letter_count(&self) -> (n: usize)
        ensures
            n == self.spec_letter_count(),
    {
        match self {
            WordSource::Wordle => 5,
            WordSource::Scrabble { letter_count, .. } => *letter_count,
            WordSource::Dictionary { letter_count, .. } => *letter_count,
        }
    }

    pub fn top_n(&self) -> (n: usize)
        ensures
            n == self.spec_top_n(),
    {
        match self {
            WordSource::Wordle => 2315,
            WordSource::Scrabble { top_n, .. } => *top_n,
            WordSource::Dictionary { top_n, .. } => *top_n,
        }
    }
}

/// Whether two string slices hold the same characters.
pub(crate) fn str_eq(a: &str, b: &str) -> (r: bool)
    ensures
        r == (a@ == b@),
{
    let na = a.unicode_len();
    let nb = b.unicode_len();
    if na != nb {
        assert(a@.len() != b@.len());
        return false;
    }
    let mut i: usize = 0;
    while i < na
        invariant
            na == a@.len() == b@.len(),
            0 <= i <= na,
            forall|j: int| 0 <= j < i ==> a@[j] == b@[j],
        decreases na - i,
    {
        if a.get_char(i) != b.get_char(i) {
            return false;
        }
        i += 1;
    }
    assert(a@ =~= b@);
    true
}

/// An acceptable dictionary entry: exactly `letter_count` characters, all of
/// them lowercase alphabetic.
pub fn is_valid_word(word: &str, letter_count: usize) -> (r: bool)
    ensures
        r == (word@.len() == letter_count && wf_text(word@)),
{
    let n = word.unicode_len();
    if n != letter_count {
        return false;
    }
    let mut i: usize = 0;
    while i < n
        invariant
            n == word@.len() == letter_count,
            0 <= i <= n,
            forall|j: int| 0 <= j < i ==> is_lower_char(#[trigger] word@[j]),
        decreases n - i,
    {
        let c = word.get_char(i);
        if c < 'a' || c > 'z' {
            return false;
        }
        i += 1;
    }
    true
}

/// The position of the first line break at or after `from`: the first index
/// holding `'\n'`, or the end of the text.
pub open spec fn spec_line_end(s: Seq<char>, from: int) -> int
    decreases s.len() - from,
    when 0 <= from <= s.len()
{
    if from >= s.len() {
        s.len() as int
    } else if s[from] == '\n' {
        from
    } else {
        spec_line_end(s, from + 1)
    }
}

pub proof fn lemma_line_end(s: Seq<char>, from: int)
    requires
        0 <= from <= s.len(),
    ensures
        from <= spec_line_end(s, from) <= s.len(),
        spec_line_end(s, from) == s.len() || s[spec_line_end(s, from)] == '\n',
        forall|j: int| from <= j < spec_line_end(s, from) ==> s[j] != '\n',
    decreases s.len() - from,
{
    if from < s.len() && s[from] != '\n' {
        lemma_line_end(s, from + 1);
    }
}

/// The first line break at or after `from` is at `i` exactly when no earlier
/// position at or after `from` holds one and `i` does (or is the end).
pub proof fn lemma_line_end_at(s: Seq<char>, from: int, i: int)
    requires
        0 <= from <= i <= s.len(),
        forall|j: int| from <= j < i ==> s[j] != '\n',
        i == s.len() || s[i] == '\n',
    ensures
        spec_line_end(s, from) == i,
    decreases i - from,
{
    if from < i {
        lemma_line_end_at(s, from + 1, i);
    }
}

/// The acceptable words of length `lc` among the newline-separated lines of
/// `s`, from position `from` on, in the order they stand in the text.
pub open spec fn spec_words_from(s: Seq<char>, lc: int, from: int) -> Seq<Seq<char>>
    decreases s.len() - from,
    when 0 <= from <= s.len()
    via lemma_spec_words_from_decreases
{
    let e = spec_line_end(s, from);
    let line = s.subrange(from, e);
    let rest = if e < s.len() {
        spec_words_from(s, lc, e + 1)
    } else {
        Seq::<Seq<char>>::empty()
    };
    if line.len() == lc && wf_text(line) {
        seq![line] + rest
    } else {
        rest
    }
}

#[via_fn]
proof fn lemma_spec_words_from_decreases(s: Seq<char>, lc: int, from: int) {
    lemma_line_end(s, from);
}

/// Every word listed by `spec_words_from` has length `lc` and is lowercase.
pub proof fn lemma_words_from_wf(s: Seq<char>, lc: int, from: int)
    requires
        0 <= from <= s.len(),
    ensures
        forall|i: int|
            0 <= i < spec_words_from(s, lc, from).len() ==> {
                let w = #[trigger] spec_words_from(s, lc, from)[i];
                w.len() == lc && wf_text(w)
            },
    decreases s.len() - from,
{
    lemma_line_end(s, from);
    let e = spec_line_end(s, from);
    let line = s.subrange(from, e);
    let ws = spec_words_from(s, lc, from);
    if e < s.len() {
        lemma_words_from_wf(s, lc, e + 1);
        let rest = spec_words_from(s, lc, e + 1);
        if line.len() == lc && wf_text(line) {
            assert(ws == seq![line] + rest);
            assert forall|i: int| 0 <= i < ws.len() implies {
                let w = #[trigger] ws[i];
                w.len() == lc && wf_text(w)
            } by {
                if i > 0 {
                    assert(ws[i] == rest[i - 1]);
                }
            }
        } else {
            assert(ws == rest);
        }
    } else {
        if line.len() == lc && wf_text(line) {
            assert(ws == seq![line] + Seq::<Seq<char>>::empty());
            assert(ws[0] == line);
        }
    }
}

/// The words of length `letter_count` among the newline-separated lines of
/// `wordlist`, in text order.
pub fn get_words(wordlist: &str, letter_count: usize) -> (words: Vec<String>)
    ensures
        words.deep_view() == spec_words_from(wordlist@, letter_count as int, 0),
        forall|i: int|
            0 <= i < words@.len() ==> (#[trigger] words@[i])@.len() == letter_count && wf_text(
                words@[i]@,
            ),
{
    let ghost t = wordlist@;
    let n = wordlist.unicode_len();
    let mut words: Vec<String> = Vec::new();
    let mut start: usize = 0;
    let mut i: usize = 0;
    while i < n
        invariant
            t == wordlist@,
            n == t.len(),
            0 <= start <= i <= n,
            forall|j: int| start <= j < i ==> t[j] != '\n',
            spec_words_from(t, letter_count as int, 0) == words.deep_view() + spec_words_from(
                t,
                letter_count as int,
                start as int,
            ),
        decreases n - i,
    {
        if wordlist.get_char(i) == '\n' {
            proof {
                lemma_line_end_at(t, start as int, i as int);
            }
            let line = wordlist.substring_char(start, i);
            if is_valid_word(line, letter_count) {
                let ghost prev = words.deep_view();
                words.push(line.to_owned());
                assert(words.deep_view() =~= prev.push(line@));
            }
            assert(spec_words_from(t, letter_count as int, 0) =~= words.deep_view()
                + spec_words_from(t, letter_count as int, i + 1));
            start = i + 1;
        }
        i += 1;
    }
    proof {
        lemma_line_end_at(t, start as int, n as int);
    }
    let line = wordlist.substring_char(start, n);
    if is_valid_word(line, letter_count) {
        let ghost prev = words.deep_view();
        words.push(line.to_owned());
        assert(words.deep_view() =~= prev.push(line@));
    }
    assert(words.deep_view() =~= spec_words_from(t, letter_count as int, 0));
    assert forall|i2: int| 0 <= i2 < words@.len() implies (#[trigger] words@[i2])@.len()
        == letter_count && wf_text(words@[i2]@) by {
        lemma_words_from_wf(t, letter_count as int, 0);
        assert(words.deep_view()[i2] == words@[i2]@);
    }
    words
}

/// The usage frequency `table` assigns to `w`: the count beside its first
/// entry for `w`, or zero when the table does not list it.
pub open spec fn spec_frequency(table: Seq<(String, u64)>, w: Seq<char>) -> u64
    decreases table.len(),
{
    if table.len() == 0 {
        0u64
    } else if table[0].0@ == w {
        table[0].1
    } else {
        spec_frequency(table.drop_first(), w)
    }
}

/// The frequency the table assigns to `word`; unknown words rank lowest.
pub fn word_frequency(word: &str, freq: &Vec<(String, u64)>) -> (f: u64)
    ensures
        f == spec_frequency(freq@, word@),
{
    let n = freq.len();
    assert(freq@.skip(0) =~= freq@);
    let mut i: usize = 0;
    while i < n
        invariant
            n == freq@.len(),
            0 <= i <= n,
            spec_frequency(freq@, word@) == spec_frequency(freq@.skip(i as int), word@),
        decreases n - i,
    {
        let entry = &freq[i];
        if str_eq(entry.0.as_str(), word) {
            assert(freq@.skip(i as int)[0] == freq@[i as int]);
            return entry.1;
        }
        assert(freq@.skip(i as int).drop_first() =~= freq@.skip(i + 1));
        assert(freq@.skip(i as int)[0] == freq@[i as int]);
        i += 1;
    }
    assert(freq@.skip(n as int).len() == 0);
    0
}

/// Words ordered from most to least frequent.
pub open spec fn spec_sorted_by_freq(words: Seq<String>, table: Seq<(String, u64)>) -> bool {
    forall|i: int, j: int|
        0 <= i < j < words.len() ==> spec_frequency(table, #[trigger] words[i]@) >= spec_frequency(
            table,
            #[trigger] words[j]@,
        )
}

/// Reorders `words` from most to least frequent according to `freq`. The
/// order is deterministic: of two words with the same frequency, the one
/// that stood earlier keeps its place first.
pub fn sort_by_frequency(words: &mut Vec<String>, freq: &Vec<(String, u64)>)
    ensures
        final(words)@.to_multiset() == old(words)@.to_multiset(),
        final(words).deep_view().to_multiset() == old(words).deep_view().to_multiset(),
        final(words)@.len() == old(words)@.len(),
        spec_sorted_by_freq(final(words)@, freq@),
        exists|pi: Seq<int>|
            {
                &&& #[trigger] pi.len() == final(words)@.len()
                &&& (forall|i: int|
                    0 <= i < pi.len() ==> 0 <= #[trigger] pi[i] < pi.len() && final(words)@[i]
                        == old(words)@[pi[i]])
                &&& (forall|i: int, j: int| 0 <= i < j < pi.len() ==> pi[i] != pi[j])
                &&& (forall|i: int, j: int|
                    0 <= i < j < pi.len() && spec_frequency(freq@, (#[trigger] final(words)@[i])@)
                        == spec_frequency(freq@, (#[trigger] final(words)@[j])@) ==> pi[i] < pi[j])
            },
{
    broadcast use vstd::seq_lib::group_to_multiset_ensures;
    broadcast use vstd::multiset::group_multiset_axioms;

    let ghost orig = words@;
    let ghost dorig = words.deep_view();
    let ghost mut src: Seq<int> = Seq::new(orig.len(), |i: int| i);
    let ghost mut out_src: Seq<int> = Seq::new(0, |i: int| i);
    let mut result: Vec<String> = Vec::new();
    while words.len() > 0
        invariant
            result@.to_multiset().add(words@.to_multiset()) == orig.to_multiset(),
            result.deep_view().to_multiset().add(words.deep_view().to_multiset())
                == dorig.to_multiset(),
            result@.len() + words@.len() == orig.len(),
            spec_sorted_by_freq(result@, freq@),
            forall|k: int, j: int|
                0 <= k < result@.len() && 0 <= j < words@.len() ==> spec_frequency(
                    freq@,
                    #[trigger] result@[k]@,
                ) >= spec_frequency(freq@, #[trigger] words@[j]@),
            src.len() == words@.len(),
            forall|i: int|
                0 <= i < src.len() ==> 0 <= #[trigger] src[i] < orig.len() && words@[i]
                    == orig[src[i]],
            forall|i: int, j: int| 0 <= i < j < src.len() ==> src[i] < src[j],
            out_src.len() == result@.len(),
            forall|i: int|
                0 <= i < out_src.len() ==> 0 <= #[trigger] out_src[i] < orig.len() && result@[i]
                    == orig[out_src[i]],
            forall|i: int, j: int| 0 <= i < j < out_src.len() ==> out_src[i] != out_src[j],
            forall|i: int, j: int|
                0 <= i < out_src.len() && 0 <= j < src.len() ==> #[trigger] out_src[i]
                    != #[trigger] src[j],
            forall|i: int, j: int|
                0 <= i < j < out_src.len() && spec_frequency(freq@, (#[trigger] result@[i])@)
                    == spec_frequency(freq@, (#[trigger] result@[j])@) ==> out_src[i] < out_src[j],
            forall|i: int, j: int|
                0 <= i < out_src.len() && 0 <= j < src.len() && spec_frequency(
                    freq@,
                    (#[trigger] result@[i])@,
                ) == spec_frequency(freq@, (#[trigger] words@[j])@) ==> out_src[i] < src[j],
        decreases words@.len(),
    {
        let mut best: usize = 0;
        let mut best_f: u64 = word_frequency(words[0].as_str(), freq);
        let mut j: usize = 1;
        while j < words.len()
            invariant
                words@.len() > 0,
                0 <= best < j <= words@.len(),
                best_f == spec_frequency(freq@, words@[best as int]@),
                forall|k: int|
                    0 <= k < j ==> spec_frequency(freq@, #[trigger] words@[k]@) <= best_f,
                forall|k: int|
                    0 <= k < best ==> spec_frequency(freq@, #[trigger] words@[k]@) < best_f,
            decreases words@.len() - j,
        {
            let f = word_frequency(words[j].as_str(), freq);
            if f > best_f {
                best = j;
                best_f = f;
            }
            j += 1;
        }
        let ghost words_before = words@;
        let ghost words_before_dv = words.deep_view();
        let ghost result_before = result@;
        let ghost result_before_dv = result.deep_view();
        let ghost src_before = src;
        let ghost o = src[best as int];
        let w = words.remove(best);
        proof {
            src = src.remove(best as int);
            assert forall|i: int| 0 <= i < src.len() implies 0 <= #[trigger] src[i] < orig.len()
                && words@[i] == orig[src[i]] by {
                if i < best {
                    assert(src[i] == src_before[i] && words@[i] == words_before[i]);
                } else {
                    assert(src[i] == src_before[i + 1] && words@[i] == words_before[i + 1]);
                }
            }
            vstd::seq_lib::to_multiset_remove::<String>(words_before, best as int);
            assert(words@.to_multiset() == words_before.to_multiset().remove(w));
            assert(words.deep_view() =~= words_before_dv.remove(best as int));
            vstd::seq_lib::to_multiset_remove::<Seq<char>>(words_before_dv, best as int);
            assert(words_before_dv[best as int] == w@);
            assert(words.deep_view().to_multiset() == words_before_dv.to_multiset().remove(w@));
        }
        result.push(w);
        proof {
            out_src = out_src.push(o);
            assert(result@[result@.len() - 1] == orig[o]);
            assert(spec_frequency(freq@, w@) == best_f);
            assert forall|i: int, j: int|
                0 <= i < out_src.len() && 0 <= j < src.len() && spec_frequency(
                    freq@,
                    (#[trigger] result@[i])@,
                ) == spec_frequency(freq@, (#[trigger] words@[j])@) implies out_src[i]
                < src[j] by {
                if i == out_src.len() - 1 {
                    let jb = if j < best { j } else { j + 1 };
                    assert(words@[j] == words_before[jb] && src[j] == src_before[jb]);
                    if jb < best {
                        assert(spec_frequency(freq@, words_before[jb]@) < best_f);
                    } else {
                        assert(src_before[jb] > src_before[best as int]);
                    }
                }
            }
            assert(result@ == result_before.push(w));
            vstd::seq_lib::to_multiset_build::<String>(result_before, w);
            assert(result_before.push(w).to_multiset() =~= result_before.to_multiset().insert(w));
            assert(result.deep_view() =~= result_before_dv.push(w@));
            vstd::seq_lib::to_multiset_build::<Seq<char>>(result_before_dv, w@);
            assert(result_before_dv.push(w@).to_multiset() =~= result_before_dv.to_multiset()
                .insert(w@));
            assert(words_before.contains(w)) by {
                assert(words_before[best as int] == w);
            }
            vstd::seq_lib::to_multiset_contains::<String>(words_before, w);
            assert(words_before.to_multiset().count(w) > 0);
            assert(words_before_dv.contains(w@)) by {
                assert(words_before_dv[best as int] == w@);
            }
            vstd::seq_lib::to_multiset_contains::<Seq<char>>(words_before_dv, w@);
            assert(words_before_dv.to_multiset().count(w@) > 0);
            assert(result@.to_multiset().add(words@.to_multiset()) =~= result_before.to_multiset()
                .add(words_before.to_multiset()));
            assert(result.deep_view().to_multiset().add(words.deep_view().to_multiset())
                =~= result_before_dv.to_multiset().add(words_before_dv.to_multiset()));
        }
    }
    proof {
        assert(words@.to_multiset() =~= Multiset::<String>::empty());
        assert(words.deep_view().to_multiset() =~= Multiset::<Seq<char>>::empty());
        assert(result@.to_multiset() =~= orig.to_multiset());
        assert(result.deep_view().to_multiset() =~= dorig.to_multiset());
    }
    *words = result;
    assert(words@.len() == orig.len()) by {
        assert(words@.to_multiset().len() == orig.to_multiset().len());
    }
}


/// Whether some element of `v` holds the characters `w`.
pub(crate) fn contains_str(v: &Vec<String>, w: &str) -> (r: bool)
    ensures
        r == exists|i: int| 0 <= i < v@.len() && (#[trigger] v@[i])@ == w@,
{
    let n = v.len();
    let mut i: usize = 0;
    while i < n
        invariant
            n == v@.len(),
            0 <= i <= n,
            forall|j: int| 0 <= j < i ==> (#[trigger] v@[j])@ != w@,
        decreases n - i,
    {
        if str_eq(v[i].as_str(), w) {
            return true;
        }
        i += 1;
    }
    false
}

/// An immutable pair of word sets for one game variant: the full guess
/// vocabulary, ordered from most to least frequent, and the prefix of it that
/// is eligible as a hidden solution.
pub struct WordList {
    pub source: WordSource,
    /// The acceptable guesses, from most to least frequent.
    pub words: Vec<String>,
    /// The acceptable solutions: the most frequent words of the vocabulary.
    pub allowed_solutions: Vec<String>,
}

impl WordList {
    /// Every word has the variant's length and is lowercase, and the solution
    /// pool is a prefix of the frequency-ordered vocabulary, so in particular
    /// a subset of it.
    pub open spec fn wf(&self) -> bool {
        &&& forall|i: int|
            0 <= i < self.words@.len() ==> wf_text((#[trigger] self.words@[i])@)
                && self.words@[i]@.len() == self.source.spec_letter_count()
        &&& self.allowed_solutions@.len() <= self.words@.len()
        &&& forall|i: int|
            0 <= i < self.allowed_solutions@.len() ==> (#[trigger] self.allowed_solutions@[i])@
                == self.words@[i]@
    }

    /// Whether `w` is among the acceptable guesses.
    pub open spec fn spec_is_valid_guess(&self, w: Seq<char>) -> bool {
        exists|i: int| 0 <= i < self.words@.len() && (#[trigger] self.words@[i])@ == w
    }

    /// Whether `w` is among the allowed solutions.
    pub open spec fn spec_is_valid_solution(&self, w: Seq<char>) -> bool {
        exists|i: int|
            0 <= i < self.allowed_solutions@.len() && (#[trigger] self.allowed_solutions@[i])@ == w
    }

    /// Builds the list for a variant: orders `words` from most to least
    /// frequent and opens the `allow_top_n_solutions` most frequent ones as
    /// solutions (all of them, when fewer words are given).
    pub fn new(
        words: Vec<String>,
        allow_top_n_solutions: usize,
        source: WordSource,
        freq: &Vec<(String, u64)>,
    ) -> (r: WordList)
        requires
            forall|i: int|
                0 <= i < words@.len() ==> wf_text((#[trigger] words@[i])@) && words@[i]@.len()
                    == source.spec_letter_count(),
        ensures
            r.wf(),
            r.source == source,
            r.words@.len() == words@.len(),
            r.words.deep_view().to_multiset() == words.deep_view().to_multiset(),
            spec_sorted_by_freq(r.words@, freq@),
            r.allowed_solutions@.len() == vstd::math::min(
                allow_top_n_solutions as int,
                words@.len() as int,
            ),
    {
        broadcast use vstd::seq_lib::group_to_multiset_ensures;

        let ghost orig = words@;
        let mut words = words;
        sort_by_frequency(&mut words, freq);
        assert forall|i: int| 0 <= i < words@.len() implies wf_text((#[trigger] words@[i])@)
            && words@[i]@.len() == source.spec_letter_count() by {
            assert(words@.contains(words@[i]));
            assert(words@.to_multiset().count(words@[i]) > 0);
            assert(orig.to_multiset().count(words@[i]) > 0);
            assert(orig.contains(words@[i]));
            let j = choose|j: int| 0 <= j < orig.len() && orig[j] == words@[i];
            assert(wf_text(orig[j]@));
        }
        let top = if allow_top_n_solutions < words.len() {
            allow_top_n_solutions
        } else {
            words.len()
        };
        let mut allowed: Vec<String> = Vec::new();
        let mut k: usize = 0;
        while k < top
            invariant
                top <= words@.len(),
                0 <= k <= top,
                allowed@.len() == k,
                forall|j: int| 0 <= j < k ==> (#[trigger] allowed@[j])@ == words@[j]@,
            decreases top - k,
        {
            let w = words[k].clone();
            allowed.push(w);
            k += 1;
        }
        WordList { source, words, allowed_solutions: allowed }
    }

    /// Builds the word list of a variant from the raw newline-separated word
    /// text and a parsed frequency table.
    pub fn from_source(source: &WordSource, raw_words: &str, freq: &Vec<(String, u64)>) -> (r:
        WordList)
        ensures
            r.wf(),
            r.source == *source,
            r.words@.len() == spec_words_from(
                raw_words@,
                source.spec_letter_count() as int,
                0,
            ).len(),
            r.words.deep_view().to_multiset() == spec_words_from(
                raw_words@,
                source.spec_letter_count() as int,
                0,
            ).to_multiset(),
            spec_sorted_by_freq(r.words@, freq@),
            r.allowed_solutions@.len() == vstd::math::min(
                source.spec_top_n() as int,
                spec_words_from(raw_words@, source.spec_letter_count() as int, 0).len() as int,
            ),
    {
        let lc = source.letter_count();
        let words = get_words(raw_words, lc);
        assert(words@.len() == words.deep_view().len());
        WordList::new(words, source.top_n(), *source, freq)
    }

    pub fn is_valid_guess(&self, word: &str) -> (r: bool)
        ensures
            r == self.spec_is_valid_guess(word@),
    {
        contains_str(&self.words, word)
    }

    pub fn is_valid_solution(&self, word: &str) -> (r: bool)
        ensures
            r == self.spec_is_valid_solution(word@),
    {
        contains_str(&self.allowed_solutions, word)
    }
}

} // verus!

