use vstd::prelude::*;
use vstd::string::StrSliceExecFns;
use crate::errors::SolverError;

verus! {

/// Number of occurrences of the letter `c` among the first `k` entries of `s`.
pub open spec fn count_letter(s: Seq<u8>, c: u8, k: int) -> int
    decreases k,
{
    if k <= 0 {
        0
    } else {
        count_letter(s, c, k - 1) + if s[k - 1] == c {
            1int
        } else {
            0int
        }
    }
}

pub proof fn lemma_count_letter_bounds(s: Seq<u8>, c: u8, k: int)
    requires
        k >= 0,
    ensures
        0 <= count_letter(s, c, k) <= k,
    decreases k,
{
    if k > 0 {
        lemma_count_letter_bounds(s, c, k - 1);
    }
}

pub proof fn lemma_count_letter_monotone(s: Seq<u8>, c: u8, k1: int, k2: int)
    requires
        0 <= k1 <= k2,
    ensures
        count_letter(s, c, k1) <= count_letter(s, c, k2),
    decreases k2 - k1,
{
    if k1 < k2 {
        lemma_count_letter_monotone(s, c, k1, k2 - 1);
    }
}

/// A string is a valid game word when it has exactly five characters,
/// each a lowercase ASCII letter.
pub open spec fn valid_word_chars(s: Seq<char>) -> bool {
    &&& s.len() == 5
    &&& forall|i: int| 0 <= i < s.len() ==> 97 <= (#[trigger] s[i] as u32) <= 122
}

/// The letters of a valid word string, as alphabet indices in `0..26`.
pub open spec fn letters_of(s: Seq<char>) -> Seq<u8> {
    Seq::new(s.len(), |i: int| ((s[i] as u32) - 97) as u8)
}

/// The letter sequences of a list of words.
pub open spec fn letter_views(ws: Seq<Word>) -> Seq<Seq<u8>> {
    Seq::new(ws.len(), |i: int| ws[i].w@)
}

/// All words in the list are well-formed.
pub open spec fn all_wf(ws: Seq<Word>) -> bool {
    forall|i: int| 0 <= i < ws.len() ==> (#[trigger] ws[i]).wf()
}

/// A fixed-length game word over the 26-letter lowercase alphabet.
///
/// `w` holds the five letters as indices in `0..26`, `set` holds the
/// multiset of letters as per-letter counts, and `s` keeps the original
/// text for presentation.
pub struct Word {
    pub w: Vec<u8>,
    pub set: Vec<u8>,
    pub s: String,
}

impl Word {
    /// Well-formedness: five in-range letters, `set` counting exactly the
    /// letters of `w`, and `s` spelling those letters.
    pub open spec fn wf(&self) -> bool {
        &&& self.w@.len() == 5
        &&& forall|i: int| 0 <= i < 5 ==> #[trigger] self.w@[i] < 26
        &&& self.set@.len() == 26
        &&& forall|c: u8| c < 26 ==> #[trigger] self.set@[c as int] == count_letter(self.w@, c, 5)
        &&& self.s@.len() == 5
        &&& forall|i: int| 0 <= i < 5 ==> (#[trigger] self.s@[i] as u32) == self.w@[i] + 97
    }

    /// Parses a word, rejecting any string that is not exactly five
    /// lowercase ASCII letters. Nothing is ever truncated or padded.
    pub fn new(s: &str) -> (r: Result<Word, SolverError>)
        ensures
            r is Ok <==> valid_word_chars(s@),
            r is Ok ==> r->Ok_0.wf() && r->Ok_0.s@ == s@ && r->Ok_0.w@ == letters_of(s@),
            r is Err ==> r->Err_0 == SolverError::LengthMismatch,
    {
        let n = s.unicode_len();
        if n != 5 {
            return Err(SolverError::LengthMismatch);
        }
        let mut w: Vec<u8> = Vec::new();
        for i in 0..5usize
            invariant
                s@.len() == 5,
                w@.len() == i,
                forall|j: int| 0 <= j < i ==> 97 <= (#[trigger] s@[j] as u32) <= 122,
                forall|j: int| 0 <= j < i ==> #[trigger] w@[j] < 26,
                forall|j: int| 0 <= j < i ==> (s@[j] as u32) == #[trigger] w@[j] + 97,
        {
            let c = s.get_char(i);
            let u = c as u32;
            if u < 97 || u > 122 {
                return Err(SolverError::LengthMismatch);
            }
            w.push((u - 97) as u8);
        }
        let mut set: Vec<u8> = Vec::new();
        for c in 0..26usize
            invariant
                set@.len() == c,
                forall|d: int| 0 <= d < c ==> #[trigger] set@[d] == 0,
        {
            set.push(0);
        }
        for i in 0..5usize
            invariant
                w@.len() == 5,
                forall|j: int| 0 <= j < 5 ==> #[trigger] w@[j] < 26,
                set@.len() == 26,
                forall|c: u8| c < 26 ==> #[trigger] set@[c as int] == count_letter(w@, c, i as int),
        {
            proof {
                assert forall|c: u8| c < 26 implies 0 <= #[trigger] count_letter(w@, c, i as int) <= i by {
                    lemma_count_letter_bounds(w@, c, i as int);
                }
            }
            let l = w[i] as usize;
            set[l] = set[l] + 1;
        }
        let text = s.to_owned();
        proof {
            assert(w@ =~= letters_of(s@));
        }
        Ok(Word { w, set, s: text })
    }

    /// True exactly when the two words spell the same letters.
    pub fn same_letters(&self, other: &Word) -> (r: bool)
        requires
            self.wf(),
            other.wf(),
        ensures
            r <==> self.w@ == other.w@,
    {
        let eq = self.w[0] == other.w[0] && self.w[1] == other.w[1] && self.w[2] == other.w[2]
            && self.w[3] == other.w[3] && self.w[4] == other.w[4];
        proof {
            if eq {
                assert(self.w@ =~= other.w@);
            }
        }
        eq
    }

    /// An independent copy with the same letters, counts and text.
    pub fn duplicate(&self) -> (r: Word)
        ensures
            r.w@ == self.w@,
            r.set@ == self.set@,
            r.s@ == self.s@,
    {
        let mut w: Vec<u8> = Vec::new();
        for i in 0..self.w.len()
            invariant
                w@.len() == i,
                forall|j: int| 0 <= j < i ==> #[trigger] w@[j] == self.w@[j],
        {
            w.push(self.w[i]);
        }
        let mut set: Vec<u8> = Vec::new();
        for i in 0..self.set.len()
            invariant
                set@.len() == i,
                forall|j: int| 0 <= j < i ==> #[trigger] set@[j] == self.set@[j],
        {
            set.push(self.set[i]);
        }
        let text = self.s.clone();
        proof {
            assert(w@ =~= self.w@);
            assert(set@ =~= self.set@);
        }
        Word { w, set, s: text }
    }
}

} // verus!
