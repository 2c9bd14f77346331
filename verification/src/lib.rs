use vstd::prelude::*;

pub mod counter;
pub mod game;
pub mod solver;
pub mod words;

verus! {

/// A lowercase character, the only kind a [`Letter`] can stand for.
pub open spec fn is_lower_char(c: char) -> bool {
    'a' <= c && c <= 'z'
}

/// Text made of lowercase characters only.
pub open spec fn wf_text(s: Seq<char>) -> bool {
    forall|i: int| 0 <= i < s.len() ==> is_lower_char(#[trigger] s[i])
}

/// One of the 26 lowercase alphabetic symbols, stored as an index `0..26`.
#[derive(Debug, Copy, Clone, PartialEq, Eq, Structural, Hash)]
pub struct Letter(u8);

impl Letter {
    /// The index of this letter in the alphabet, as a mathematical integer.
    pub closed spec fn idx(self) -> int {
        self.0 as int
    }

    /// A well-formed letter is an index into the 26-letter alphabet.
    pub open spec fn wf(self) -> bool {
        0 <= self.idx() < 26
    }

    /// The character this letter stands for.
    pub open spec fn spec_char(self) -> char {
        (self.idx() + 97) as char
    }

    /// The letter standing for character `c`; meaningful when `is_lower_char(c)`.
    pub closed spec fn spec_of_char(c: char) -> Letter {
        Letter(((c as int) - 97) as u8)
    }

    /// Two letters are equal exactly when their alphabet indices are.
    pub broadcast proof fn lemma_eq_idx(a: Letter, b: Letter)
        ensures
            #![trigger a.idx(), b.idx()]
            a == b <==> a.idx() == b.idx(),
    {
    }

    /// On lowercase characters, `spec_of_char` yields a well-formed letter
    /// standing for that same character.
    pub broadcast proof fn lemma_of_char(c: char)
        requires
            is_lower_char(c),
        ensures
            (#[trigger] Letter::spec_of_char(c)).wf(),
            Letter::spec_of_char(c).idx() == c as int - 97,
            Letter::spec_of_char(c).spec_char() == c,
    {
    }

    pub fn from_byte(byte: u8) -> (l: Letter)
        requires
            97 <= byte <= 122,
        ensures
            l.wf(),
            l.idx() == byte - 97,
    {
        Letter(byte - 97)
    }

    pub fn from_char(c: char) -> (l: Letter)
        requires
            is_lower_char(c),
        ensures
            l == Letter::spec_of_char(c),
            l.wf(),
            l.idx() == c as int - 97,
            l.spec_char() == c,
    {
        Letter::from_byte(c as u8)
    }

    pub fn as_index(&self) -> (i: usize)
        ensures
            i == self.idx(),
    {
        self.0 as usize
    }

    pub fn as_byte(&self) -> (b: u8)
        requires
            self.wf(),
        ensures
            b == self.idx() + 97,
    {
        self.0 + 97
    }

    pub fn as_char(&self) -> (c: char)
        requires
            self.wf(),
        ensures
            c == self.spec_char(),
    {
        self.as_byte() as char
    }
}

/// The sequence of letters standing for a piece of lowercase text.
pub open spec fn word_of_text(s: Seq<char>) -> Seq<Letter> {
    Seq::new(s.len(), |i: int| Letter::spec_of_char(s[i]))
}

/// The text a sequence of letters stands for.
pub open spec fn text_of_word(w: Seq<Letter>) -> Seq<char> {
    Seq::new(w.len(), |i: int| w[i].spec_char())
}

/// A word is well formed when every letter is.
pub open spec fn wf_word(w: Seq<Letter>) -> bool {
    forall|i: int| 0 <= i < w.len() ==> (#[trigger] w[i]).wf()
}

/// Lowercase text and the word read from it stand for each other: reading
/// letters from text and writing them back is the identity, and so is the
/// reverse on well-formed words.
pub proof fn lemma_text_word_round_trip(s: Seq<char>, w: Seq<Letter>)
    requires
        wf_text(s),
        wf_word(w),
    ensures
        text_of_word(word_of_text(s)) =~= s,
        word_of_text(text_of_word(w)) =~= w,
{
    broadcast use Letter::lemma_of_char, Letter::lemma_eq_idx;

    assert forall|i: int| 0 <= i < w.len() implies word_of_text(text_of_word(w))[i] == w[i] by {
        assert(is_lower_char(w[i].spec_char()));
        assert(Letter::spec_of_char(w[i].spec_char()).idx() == w[i].idx());
    }
}

/// The word read from lowercase text is well formed and has the text's length.
pub proof fn lemma_word_of_text_wf(s: Seq<char>)
    requires
        wf_text(s),
    ensures
        wf_word(word_of_text(s)),
        word_of_text(s).len() == s.len(),
{
    broadcast use Letter::lemma_of_char;

}

/// The text a well-formed word stands for is lowercase and has its length.
pub proof fn lemma_text_of_word_wf(w: Seq<Letter>)
    requires
        wf_word(w),
    ensures
        wf_text(text_of_word(w)),
        text_of_word(w).len() == w.len(),
{
    assert forall|i: int| 0 <= i < text_of_word(w).len() implies is_lower_char(
        #[trigger] text_of_word(w)[i],
    ) by {
        assert(text_of_word(w)[i] == (w[i].idx() + 97) as char);
    }
}

/// An ordered sequence of letters; the length is fixed by the game variant.
#[derive(Debug, Hash)]
pub struct Word {
    pub vec: Vec<Letter>,
}

impl Clone for Word {
    fn clone(&self) -> (r: Word)
        ensures
            r@ == self@,
    {
        let n = self.vec.len();
        let mut vec: Vec<Letter> = Vec::new();
        let mut i: usize = 0;
        while i < n
            invariant
                n == self@.len(),
                0 <= i <= n,
                vec@ =~= self@.subrange(0, i as int),
            decreases n - i,
        {
            vec.push(self.vec[i]);
            i += 1;
        }
        assert(vec@ =~= self@);
        Word { vec }
    }
}

impl Default for Word {
    fn default() -> (w: Word)
        ensures
            w@ == Seq::<Letter>::empty(),
    {
        Word::new()
    }
}

impl View for Word {
    type V = Seq<Letter>;

    open spec fn view(&self) -> Seq<Letter> {
        self.vec@
    }
}

impl PartialEq for Word {
    fn eq(&self, other: &Word) -> (r: bool) {
        word_eq(self, other)
    }
}

impl Eq for Word {

}

impl vstd::std_specs::cmp::PartialEqSpecImpl for Word {
    open spec fn obeys_eq_spec() -> bool {
        true
    }

    open spec fn eq_spec(&self, other: &Word) -> bool {
        self@ == other@
    }
}

/// Whether two words hold the same letters in the same order.
pub fn word_eq(a: &Word, b: &Word) -> (r: bool)
    ensures
        r == (a@ == b@),
{
    if a.vec.len() != b.vec.len() {
        assert(a@.len() != b@.len());
        return false;
    }
    let n = a.vec.len();
    let mut i: usize = 0;
    while i < n
        invariant
            n == a@.len() == b@.len(),
            0 <= i <= n,
            forall|j: int| 0 <= j < i ==> a@[j] == b@[j],
        decreases n - i,
    {
        if a.vec[i] != b.vec[i] {
            return false;
        }
        i += 1;
    }
    assert(a@ =~= b@);
    true
}

impl Word {
    pub fn new() -> (w: Word)
        ensures
            w@ == Seq::<Letter>::empty(),
    {
        Word { vec: Vec::new() }
    }

    pub fn len(&self) -> (n: usize)
        ensures
            n == self@.len(),
    {
        self.vec.len()
    }

    pub fn is_empty(&self) -> (r: bool)
        ensures
            r == (self@.len() == 0),
    {
        self.vec.is_empty()
    }

    /// The word read from a piece of lowercase text.
    pub fn from_text(s: &str) -> (w: Word)
        requires
            wf_text(s@),
        ensures
            w@ == word_of_text(s@),
            wf_word(w@),
    {
        broadcast use Letter::lemma_of_char;

        let n = s.unicode_len();
        let mut vec: Vec<Letter> = Vec::new();
        let mut i: usize = 0;
        while i < n
            invariant
                n == s@.len(),
                wf_text(s@),
                0 <= i <= n,
                vec@.len() == i,
                forall|j: int| 0 <= j < i ==> vec@[j] == word_of_text(s@)[j],
            decreases n - i,
        {
            let c = s.get_char(i);
            assert(is_lower_char(c));
            vec.push(Letter::from_char(c));
            i += 1;
        }
        let w = Word { vec };
        assert(w@ =~= word_of_text(s@));
        w
    }

    /// Whether this word is the one read from the lowercase text `s`.
    pub fn matches_text(&self, s: &str) -> (r: bool)
        requires
            wf_word(self@),
            wf_text(s@),
        ensures
            r == (self@ == word_of_text(s@)),
    {
        broadcast use Letter::lemma_of_char;

        let n = self.vec.len();
        if n != s.unicode_len() {
            assert(self@.len() != word_of_text(s@).len());
            return false;
        }
        let mut i: usize = 0;
        while i < n
            invariant
                wf_word(self@),
                wf_text(s@),
                n == self@.len() == s@.len(),
                0 <= i <= n,
                forall|j: int| 0 <= j < i ==> self@[j] == word_of_text(s@)[j],
            decreases n - i,
        {
            let c = s.get_char(i);
            let l = Letter::from_char(c);
            if self.vec[i] != l {
                assert(self@[i as int] != word_of_text(s@)[i as int]);
                return false;
            }
            i += 1;
        }
        assert(self@ =~= word_of_text(s@));
        true
    }

    /// The text this word stands for.
    pub fn as_string(&self) -> (s: String)
        requires
            wf_word(self@),
        ensures
            s@ == text_of_word(self@),
    {
        let n = self.vec.len();
        let mut bytes: Vec<u8> = Vec::new();
        let mut i: usize = 0;
        while i < n
            invariant
                n == self@.len(),
                wf_word(self@),
                0 <= i <= n,
                bytes@.len() == i,
                forall|j: int| 0 <= j < i ==> 97 <= #[trigger] bytes@[j] <= 122 && bytes@[j]
                    == self@[j].idx() + 97,
            decreases n - i,
        {
            bytes.push(self.vec[i].as_byte());
            i += 1;
        }
        let s = ascii_to_string(bytes);
        assert forall|j: int| 0 <= j < n implies s@[j] == text_of_word(self@)[j] by {
            assert(s@[j] == ((self@[j].idx() + 97) as u8) as char);
        }
        assert(s@ =~= text_of_word(self@));
        s
    }
}

/// Relies on std's `String::from_utf8`: a sequence of bytes below 0x80 is
/// valid UTF-8 and decodes to one character per byte, with the same code
/// points.
#[verifier::external_body]
fn ascii_to_string(bytes: Vec<u8>) -> (s: String)
    requires
        forall|i: int| 0 <= i < bytes@.len() ==> bytes@[i] < 128,
    ensures
        s@.len() == bytes@.len(),
        forall|i: int| 0 <= i < s@.len() ==> s@[i] == bytes@[i] as char,
{
    String::from_utf8(bytes).unwrap_or_default()
}

} // verus!
