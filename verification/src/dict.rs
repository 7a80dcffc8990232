//! The dictionary: an ordered sequence of unique fixed-length words, and the
//! one-letter-difference relation (Hamming distance exactly 1) on its entries.

use vstd::prelude::*;

verus! {

/// Every dictionary word has exactly this many letters.
pub const WORD_LEN: usize = 4;

/// Number of positions at which two equal-length words differ.
pub open spec fn hamming(a: Seq<u8>, b: Seq<u8>) -> nat
    decreases a.len(),
{
    if a.len() == 0 {
        0
    } else {
        hamming(a.drop_last(), b.drop_last()) + if a.last() == b.last() {
            0nat
        } else {
            1nat
        }
    }
}

/// The one-letter-difference relation is symmetric (for equal-length words,
/// the Hamming distance does not depend on the order of its arguments).
pub proof fn lemma_hamming_symmetric(a: Seq<u8>, b: Seq<u8>)
    requires
        a.len() == b.len(),
    ensures
        hamming(a, b) == hamming(b, a),
    decreases a.len(),
{
    if a.len() > 0 {
        lemma_hamming_symmetric(a.drop_last(), b.drop_last());
    }
}

/// Extending both prefixes by one position adds 1 to their Hamming distance
/// exactly when the new position differs.
proof fn lemma_hamming_take_step(a: Seq<u8>, b: Seq<u8>, k: int)
    requires
        0 <= k < a.len(),
        k < b.len(),
    ensures
        hamming(a.take(k + 1), b.take(k + 1)) == hamming(a.take(k), b.take(k)) + if a[k] == b[k] {
            0nat
        } else {
            1nat
        },
{
    assert(a.take(k + 1).drop_last() =~= a.take(k));
    assert(b.take(k + 1).drop_last() =~= b.take(k));
    assert(a.take(k + 1).last() == a[k]);
    assert(b.take(k + 1).last() == b[k]);
}

/// An ordered, immutable list of unique words, all of length `WORD_LEN`.
/// Words are sequences of bytes; graph and search code refers to a word by
/// its index in this list.
pub struct Dictionary {
    words: Vec<Vec<u8>>,
}

impl View for Dictionary {
    type V = Seq<Seq<u8>>;

    closed spec fn view(&self) -> Seq<Seq<u8>> {
        Seq::new(self.words@.len(), |i: int| self.words@[i]@)
    }
}

impl Dictionary {
    /// Every entry has exactly `WORD_LEN` letters and no entry repeats.
    pub open spec fn wf(&self) -> bool {
        &&& forall|i: int| 0 <= i < self@.len() ==> (#[trigger] self@[i]).len() == WORD_LEN
        &&& forall|i: int, j: int| 0 <= i < j < self@.len() ==> self@[i] != self@[j]
    }

    pub fn len(&self) -> (n: usize)
        ensures
            n == self@.len(),
    {
        self.words.len()
    }

    pub fn word_at(&self, i: usize) -> (w: &Vec<u8>)
        requires
            i < self@.len(),
        ensures
            w@ == self@[i as int],
    {
        &self.words[i]
    }

    /// Builds a dictionary after checking its invariant: accepts the word
    /// list exactly when every word has length `WORD_LEN` and no word repeats.
    pub fn new(words: Vec<Vec<u8>>) -> (r: Option<Dictionary>)
        ensures
            match r {
                Some(d) => {
                    &&& d.wf()
                    &&& d@.len() == words@.len()
                    &&& forall|i: int| 0 <= i < words@.len() ==> d@[i] == words@[i]@
                },
                None => {
                    ||| exists|i: int| 0 <= i < words@.len() && (#[trigger] words@[i]@).len() != WORD_LEN
                    ||| exists|i: int, j: int|
                        0 <= i < j < words@.len() && words@[i]@ == words@[j]@
                },
            },
    {
        let n = words.len();
        let mut i: usize = 0;
        while i < n
            invariant
                n == words@.len(),
                i <= n,
                forall|k: int| 0 <= k < i ==> (#[trigger] words@[k]@).len() == WORD_LEN,
            decreases n - i,
        {
            if words[i].len() != WORD_LEN {
                return None;
            }
            i = i + 1;
        }
        let mut a: usize = 0;
        while a < n
            invariant
                n == words@.len(),
                a <= n,
                forall|k: int| 0 <= k < n ==> (#[trigger] words@[k]@).len() == WORD_LEN,
                forall|k: int, l: int| 0 <= k < l < n && k < a ==> words@[k]@ != words@[l]@,
            decreases n - a,
        {
            let mut b: usize = a + 1;
            while b < n
                invariant
                    n == words@.len(),
                    a < b || a + 1 == b,
                    a < n,
                    b <= n,
                    a < b,
                    forall|k: int| 0 <= k < n ==> (#[trigger] words@[k]@).len() == WORD_LEN,
                    forall|l: int| a < l < b ==> words@[a as int]@ != (#[trigger] words@[l]@),
                decreases n - b,
            {
                if words_equal(&words[a], &words[b]) {
                    return None;
                }
                b = b + 1;
            }
            a = a + 1;
        }
        let d = Dictionary { words };
        assert(forall|i: int| 0 <= i < d@.len() ==> d@[i] == d.words@[i]@);
        Some(d)
    }
}

/// Byte-for-byte equality of two words.
pub fn words_equal(a: &Vec<u8>, b: &Vec<u8>) -> (r: bool)
    ensures
        r == (a@ == b@),
{
    if a.len() != b.len() {
        assert(a@ != b@);
        return false;
    }
    let n = a.len();
    let mut i: usize = 0;
    while i < n
        invariant
            n == a@.len(),
            n == b@.len(),
            i <= n,
            forall|k: int| 0 <= k < i ==> a@[k] == b@[k],
        decreases n - i,
    {
        if a[i] != b[i] {
            assert(a@ != b@);
            return false;
        }
        i = i + 1;
    }
    assert(a@ =~= b@);
    true
}

/// True exactly when the words at indices `i` and `j` differ in exactly one
/// letter position (all positions are compared; the count must be exactly 1,
/// so identical words never match).
pub fn matches(dict: &Dictionary, i: usize, j: usize) -> (r: bool)
    requires
        dict.wf(),
        i < dict@.len(),
        j < dict@.len(),
    ensures
        r == (hamming(dict@[i as int], dict@[j as int]) == 1),
{
    let a = dict.word_at(i);
    let b = dict.word_at(j);
    let ghost av = dict@[i as int];
    let ghost bv = dict@[j as int];
    let mut count: usize = 0;
    let mut pos: usize = 0;
    while pos < WORD_LEN
        invariant
            a@ == av,
            b@ == bv,
            av.len() == WORD_LEN,
            bv.len() == WORD_LEN,
            pos <= WORD_LEN,
            count <= pos,
            count == hamming(av.take(pos as int), bv.take(pos as int)),
        decreases WORD_LEN - pos,
    {
        proof {
            lemma_hamming_take_step(av, bv, pos as int);
        }
        if a[pos] != b[pos] {
            count = count + 1;
        }
        pos = pos + 1;
    }
    proof {
        assert(av.take(WORD_LEN as int) =~= av);
        assert(bv.take(WORD_LEN as int) =~= bv);
    }
    count == 1
}

/// Why a candidate word was rejected.
#[derive(Debug, PartialEq, Eq)]
pub enum WordError {
    /// The word does not have exactly `WORD_LEN` letters.
    WrongLength,
    /// The word has the right length but is not a dictionary entry.
    NotInDictionary,
}

/// Index of the first dictionary entry equal to `word`, if any.
pub fn find_word_index(dict: &Dictionary, word: &Vec<u8>) -> (r: Option<usize>)
    ensures
        match r {
            Some(i) => {
                &&& i < dict@.len()
                &&& dict@[i as int] == word@
                &&& forall|j: int| 0 <= j < i ==> dict@[j] != word@
            },
            None => !dict@.contains(word@),
        },
{
    let n = dict.len();
    let mut i: usize = 0;
    while i < n
        invariant
            n == dict@.len(),
            i <= n,
            forall|j: int| 0 <= j < i ==> dict@[j] != word@,
        decreases n - i,
    {
        if words_equal(dict.word_at(i), word) {
            return Some(i);
        }
        i = i + 1;
    }
    assert(!dict@.contains(word@)) by {
        if dict@.contains(word@) {
            let j = choose|j: int| 0 <= j < dict@.len() && dict@[j] == word@;
            assert(dict@[j] != word@);
        }
    }
    None
}

/// Accepts a candidate word exactly when it has the fixed length and occurs
/// in the dictionary; otherwise says which of the two checks failed.
pub fn valid_word(dict: &Dictionary, word: &Vec<u8>) -> (r: Result<Vec<u8>, WordError>)
    ensures
        match r {
            Ok(w) => w@ == word@ && word@.len() == WORD_LEN && dict@.contains(word@),
            Err(WordError::WrongLength) => word@.len() != WORD_LEN,
            Err(WordError::NotInDictionary) => word@.len() == WORD_LEN && !dict@.contains(
                word@,
            ),
        },
{
    if word.len() != WORD_LEN {
        return Err(WordError::WrongLength);
    }
    match find_word_index(dict, word) {
        Some(i) => {
            assert(dict@.contains(word@)) by {
                assert(dict@[i as int] == word@);
            }
            let mut copy: Vec<u8> = Vec::new();
            let n = word.len();
            let mut k: usize = 0;
            while k < n
                invariant
                    n == word@.len(),
                    k <= n,
                    copy@ == word@.take(k as int),
                decreases n - k,
            {
                copy.push(word[k]);
                assert(copy@ =~= word@.take(k + 1 as int));
                k = k + 1;
            }
            assert(copy@ =~= word@);
            Ok(copy)
        },
        None => Err(WordError::NotInDictionary),
    }
}

} // verus!
