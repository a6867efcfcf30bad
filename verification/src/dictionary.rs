//! The dictionary: the word list in alphabetical order, each word once.

use vstd::prelude::*;
use crate::word::{is_valid_word, valid_word, valid_words, Word};

verus! {

/// The place of `w` in alphabetical order: its letters read as the digits
/// of a number in base 26.
pub open spec fn rank(w: Word) -> int {
    (((w[0] * 26 + w[1]) * 26 + w[2]) * 26 + w[3]) * 26 + w[4]
}

/// `a` stands before `b` in alphabetical order: at the first position where
/// they differ, `a` has the smaller letter.
pub open spec fn alphabetically_before(a: Word, b: Word) -> bool {
    exists|k: int|
        0 <= k < 5 && #[trigger] a[k] < b[k] && forall|j: int| 0 <= j < k ==> a[j] == b[j]
}

/// Each word of `words` has a smaller rank than the next.
pub open spec fn ascending(words: Seq<Word>) -> bool {
    forall|i: int, j: int| 0 <= i < j < words.len() ==> rank(words[i]) < rank(words[j])
}

/// `i` is where `w` belongs in `words`: everything before it ranks lower,
/// nothing from it on does.
pub open spec fn is_slot(words: Seq<Word>, w: Word, i: int) -> bool {
    &&& 0 <= i <= words.len()
    &&& forall|j: int| 0 <= j < i ==> rank(#[trigger] words[j]) < rank(w)
    &&& forall|j: int| i <= j < words.len() ==> rank(#[trigger] words[j]) >= rank(w)
}

/// Valid words with the same rank are the same word.
pub proof fn lemma_rank_injective(a: Word, b: Word)
    requires
        valid_word(a),
        valid_word(b),
        rank(a) == rank(b),
    ensures
        a == b,
{
    assert(a[0] < 26 && a[1] < 26 && a[2] < 26 && a[3] < 26 && a[4] < 26);
    assert(b[0] < 26 && b[1] < 26 && b[2] < 26 && b[3] < 26 && b[4] < 26);
    assert forall|i: int| 0 <= i < 5 implies a[i] == b[i] by {
        assert(a[0] == b[0]);
        assert(a[1] == b[1]);
        assert(a[2] == b[2]);
        assert(a[3] == b[3]);
        assert(a[4] == b[4]);
    }
    assert(a =~= b);
}

/// On valid words the order of ranks is alphabetical order.
pub proof fn lemma_rank_is_alphabetical(a: Word, b: Word)
    requires
        valid_word(a),
        valid_word(b),
    ensures
        rank(a) < rank(b) <==> alphabetically_before(a, b),
{
    assert(a[0] < 26 && a[1] < 26 && a[2] < 26 && a[3] < 26 && a[4] < 26);
    assert(b[0] < 26 && b[1] < 26 && b[2] < 26 && b[3] < 26 && b[4] < 26);
    if alphabetically_before(a, b) {
        let k = choose|k: int|
            0 <= k < 5 && #[trigger] a[k] < b[k] && forall|j: int| 0 <= j < k ==> a[j] == b[j];
        assert(forall|j: int| 0 <= j < k ==> a[j] == b[j]);
        assert(rank(a) < rank(b));
    }
    if rank(a) < rank(b) {
        let k: int = if a[0] != b[0] {
            0
        } else if a[1] != b[1] {
            1
        } else if a[2] != b[2] {
            2
        } else if a[3] != b[3] {
            3
        } else {
            4
        };
        assert(a[k] < b[k]);
        assert(forall|j: int| 0 <= j < k ==> a[j] == b[j]);
    }
}

/// An ascending list holds no word twice.
pub proof fn lemma_ascending_no_duplicates(words: Seq<Word>)
    requires
        ascending(words),
    ensures
        words.no_duplicates(),
{
    assert forall|i: int, j: int| 0 <= i < words.len() && 0 <= j < words.len() && i != j implies words[i]
        != words[j] by {
        if i < j {
            assert(rank(words[i]) < rank(words[j]));
        } else {
            assert(rank(words[j]) < rank(words[i]));
        }
    }
}

/// Ascending lists with the same words are the same list.
pub proof fn lemma_ascending_unique(a: Seq<Word>, b: Seq<Word>)
    requires
        ascending(a),
        ascending(b),
        forall|x: Word| a.contains(x) <==> b.contains(x),
    ensures
        a == b,
    decreases a.len(),
{
    if a.len() == 0 {
        if b.len() > 0 {
            assert(b.contains(b[0]));
        }
        assert(a =~= b);
    } else {
        let top = a.last();
        assert(a.contains(top));
        let j = choose|j: int| 0 <= j < b.len() && b[j] == top;
        assert(b.contains(b.last()));
        let i = choose|i: int| 0 <= i < a.len() && a[i] == b.last();
        if i < a.len() - 1 {
            assert(rank(a[i]) < rank(a[a.len() - 1]));
        }
        if j < b.len() - 1 {
            assert(rank(b[j]) < rank(b[b.len() - 1]));
        }
        assert(b.last() == top);
        let a0 = a.drop_last();
        let b0 = b.drop_last();
        assert forall|x: Word| a0.contains(x) <==> b0.contains(x) by {
            if a0.contains(x) {
                let k = choose|k: int| 0 <= k < a0.len() && a0[k] == x;
                assert(a[k] == x);
                assert(rank(a[k]) < rank(a[a.len() - 1]));
                assert(a.contains(x));
                let m = choose|m: int| 0 <= m < b.len() && b[m] == x;
                assert(b0[m] == x);
            }
            if b0.contains(x) {
                let k = choose|k: int| 0 <= k < b0.len() && b0[k] == x;
                assert(b[k] == x);
                assert(rank(b[k]) < rank(b[b.len() - 1]));
                assert(b.contains(x));
                let m = choose|m: int| 0 <= m < a.len() && a[m] == x;
                assert(a0[m] == x);
            }
        }
        assert(ascending(a0)) by {
            assert forall|p: int, q: int| 0 <= p < q < a0.len() implies rank(a0[p]) < rank(
                a0[q],
            ) by {
                assert(rank(a[p]) < rank(a[q]));
            }
        }
        assert(ascending(b0)) by {
            assert forall|p: int, q: int| 0 <= p < q < b0.len() implies rank(b0[p]) < rank(
                b0[q],
            ) by {
                assert(rank(b[p]) < rank(b[q]));
            }
        }
        lemma_ascending_unique(a0, b0);
        assert(a =~= a0.push(top));
        assert(b =~= b0.push(top));
    }
}

/// Computes the rank of a valid word.
pub fn word_rank(w: &Word) -> (r: u32)
    requires
        valid_word(*w),
    ensures
        r == rank(*w),
        r < 11_881_376,
{
    assert(w[0] < 26 && w[1] < 26 && w[2] < 26 && w[3] < 26 && w[4] < 26);
    let mut r: u32 = w[0] as u32;
    r = r * 26 + w[1] as u32;
    r = r * 26 + w[2] as u32;
    r = r * 26 + w[3] as u32;
    r = r * 26 + w[4] as u32;
    r
}

/// A word list in alphabetical order, without repetitions.
#[derive(Debug)]
pub struct Dictionary {
    pub words: Vec<Word>,
}

impl View for Dictionary {
    type V = Seq<Word>;

    open spec fn view(&self) -> Seq<Word> {
        self.words@
    }
}

impl Dictionary {
    /// The words are valid and stand in ascending order.
    pub open spec fn wf(&self) -> bool {
        valid_words(self@) && ascending(self@)
    }

    /// The dictionary without words.
    pub fn new() -> (d: Dictionary)
        ensures
            d.wf(),
            d@.len() == 0,
    {
        Dictionary { words: Vec::new() }
    }

    /// The number of words.
    pub fn len(&self) -> (n: usize)
        ensures
            n == self@.len(),
    {
        self.words.len()
    }

    /// The words in order.
    pub fn words(&self) -> (list: &Vec<Word>)
        ensures
            list@ == self@,
    {
        &self.words
    }

    /// Finds where `w` belongs, by halving the range that may hold it.
    pub fn slot(&self, w: &Word) -> (i: usize)
        requires
            self.wf(),
            valid_word(*w),
        ensures
            is_slot(self@, *w, i as int),
    {
        let target = word_rank(w);
        let mut low: usize = 0;
        let mut high: usize = self.words.len();
        while low < high
            invariant
                low <= high <= self@.len(),
                self.wf(),
                target == rank(*w),
                forall|j: int| 0 <= j < low ==> rank(#[trigger] self@[j]) < target,
                forall|j: int| high <= j < self@.len() ==> rank(#[trigger] self@[j]) >= target,
            decreases high - low,
        {
            let middle = low + (high - low) / 2;
            if word_rank(&self.words[middle]) < target {
                low = middle + 1;
            } else {
                high = middle;
            }
        }
        low
    }

    /// Tells whether `w` is one of the words.
    pub fn contains(&self, w: &Word) -> (found: bool)
        requires
            self.wf(),
        ensures
            found == self@.contains(*w),
    {
        if !is_valid_word(w) {
            return false;
        }
        let i = self.slot(w);
        if i < self.words.len() && word_rank(&self.words[i]) == word_rank(w) {
            proof {
                lemma_rank_injective(self@[i as int], *w);
            }
            true
        } else {
            proof {
                if self@.contains(*w) {
                    let k = choose|k: int| 0 <= k < self@.len() && self@[k] == *w;
                    assert(rank(self@[k]) == rank(*w));
                }
            }
            false
        }
    }

    /// Puts `w` at its place unless it is there already; tells whether the
    /// dictionary grew.
    pub fn insert(&mut self, w: Word) -> (added: bool)
        requires
            old(self).wf(),
            valid_word(w),
        ensures
            final(self).wf(),
            added == !old(self)@.contains(w),
            !added ==> final(self)@ == old(self)@,
            added ==> exists|i: int|
                #[trigger] is_slot(old(self)@, w, i) && final(self)@ == old(self)@.insert(i, w),
            forall|x: Word| final(self)@.contains(x) <==> old(self)@.contains(x) || x == w,
    {
        let i = self.slot(&w);
        if i < self.words.len() && word_rank(&self.words[i]) == word_rank(&w) {
            proof {
                lemma_rank_injective(self@[i as int], w);
            }
            return false;
        }
        let ghost before = self@;
        self.words.insert(i, w);
        proof {
            let after = self@;
            assert(is_slot(before, w, i as int));
            if before.contains(w) {
                let k = choose|k: int| 0 <= k < before.len() && before[k] == w;
                assert(rank(before[k]) == rank(w));
            }
            assert forall|k: int| 0 <= k < after.len() implies valid_word(#[trigger] after[k]) by {
                if k < i {
                    assert(after[k] == before[k]);
                } else if k > i {
                    assert(after[k] == before[k - 1]);
                }
            }
            assert forall|a: int, b: int| 0 <= a < b < after.len() implies rank(after[a]) < rank(
                after[b],
            ) by {
                let ra = if a < i { before[a] } else if a == i { w } else { before[a - 1] };
                let rb = if b < i { before[b] } else if b == i { w } else { before[b - 1] };
                assert(after[a] == ra && after[b] == rb);
            }
            assert forall|x: Word| after.contains(x) <==> before.contains(x) || x == w by {
                if after.contains(x) {
                    let k = choose|k: int| 0 <= k < after.len() && after[k] == x;
                    if k < i {
                        assert(before[k] == x);
                    } else if k > i {
                        assert(before[k - 1] == x);
                    }
                }
                if before.contains(x) {
                    let k = choose|k: int| 0 <= k < before.len() && before[k] == x;
                    if k < i {
                        assert(after[k] == x);
                    } else {
                        assert(after[k + 1] == x);
                    }
                }
                if x == w {
                    assert(after[i as int] == x);
                }
            }
        }
        true
    }

    /// Orders `list` and drops its repetitions; `None` if one of its words
    /// is not valid.
    pub fn from_words(list: &Vec<Word>) -> (made: Option<Dictionary>)
        ensures
            made is Some <==> valid_words(list@),
            made matches Some(d) ==> d.wf() && forall|x: Word|
                d@.contains(x) <==> list@.contains(x),
    {
        let mut d = Dictionary::new();
        let mut i: usize = 0;
        while i < list.len()
            invariant
                i <= list.len(),
                d.wf(),
                valid_words(list@.take(i as int)),
                forall|x: Word| d@.contains(x) <==> list@.take(i as int).contains(x),
            decreases list.len() - i,
        {
            if !is_valid_word(&list[i]) {
                return None;
            }
            let ghost seen = list@.take(i as int);
            d.insert(list[i]);
            proof {
                let now = list@.take(i + 1);
                assert(now =~= seen.push(list@[i as int]));
                assert forall|x: Word| d@.contains(x) <==> now.contains(x) by {
                    if now.contains(x) {
                        let k = choose|k: int| 0 <= k < now.len() && now[k] == x;
                        if k < i {
                            assert(seen[k] == x);
                        }
                    }
                    if seen.contains(x) {
                        let k = choose|k: int| 0 <= k < seen.len() && seen[k] == x;
                        assert(now[k] == x);
                    }
                    if x == list@[i as int] {
                        assert(now[i as int] == x);
                    }
                }
                assert forall|k: int| 0 <= k < now.len() implies valid_word(#[trigger] now[k]) by {
                    if k < i {
                        assert(now[k] == seen[k]);
                    }
                }
            }
            i += 1;
        }
        assert(list@.take(list.len() as int) =~= list@);
        Some(d)
    }
}

} // verus!
