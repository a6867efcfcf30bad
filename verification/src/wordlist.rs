//! The word list as text: one word per line.
//!
//! A line holds five letters, in either case, with any white space around
//! them. The text is read as bytes; only ASCII letters count as letters.

use vstd::prelude::*;
use crate::dictionary::Dictionary;
use crate::word::{valid_word, Word};

verus! {

/// ASCII white space: the blank, and tab to carriage return.
pub open spec fn is_space(b: u8) -> bool {
    b == 32 || 9 <= b <= 13
}

/// An ASCII letter of either case.
pub open spec fn is_alpha(b: u8) -> bool {
    (65 <= b <= 90) || (97 <= b <= 122)
}

/// The alphabet index of the ASCII letter `b`, whatever its case.
pub open spec fn alpha_index(b: u8) -> int
    recommends
        is_alpha(b),
{
    if b <= 90 {
        b - 65
    } else {
        b - 97
    }
}

/// `k` is where the first line of `text` ends: at the first line feed, or
/// at the end of the text if it holds none.
pub open spec fn is_first_break(text: Seq<u8>, k: int) -> bool {
    &&& 0 <= k <= text.len()
    &&& forall|j: int| 0 <= j < k ==> text[j] != 10
    &&& k < text.len() ==> text[k] == 10
}

/// Where the first line of `text` ends.
pub open spec fn first_break(text: Seq<u8>) -> int {
    choose|k: int| is_first_break(text, k)
}

/// The lines of `text`, without their line feeds. A line feed at the very
/// end starts no further line.
pub open spec fn lines(text: Seq<u8>) -> Seq<Seq<u8>>
    decreases text.len(),
{
    if text.len() == 0 {
        Seq::empty()
    } else {
        let k = first_break(text);
        if 0 <= k < text.len() {
            seq![text.take(k)] + lines(text.skip(k + 1))
        } else {
            seq![text]
        }
    }
}

/// Five letters start at `a` in `line`, and all around them is white space.
pub open spec fn framed(line: Seq<u8>, a: int) -> bool {
    &&& 0 <= a
    &&& a + 5 <= line.len()
    &&& forall|j: int| 0 <= j < a ==> is_space(#[trigger] line[j])
    &&& forall|j: int| a <= j < a + 5 ==> is_alpha(#[trigger] line[j])
    &&& forall|j: int| a + 5 <= j < line.len() ==> is_space(#[trigger] line[j])
}

/// `line` holds one word and white space only.
pub open spec fn well_formed(line: Seq<u8>) -> bool {
    exists|a: int| framed(line, a)
}

/// `line` holds the word `w` and white space only.
pub open spec fn spells(line: Seq<u8>, w: Word) -> bool {
    exists|a: int|
        #[trigger] framed(line, a) && forall|i: int|
            0 <= i < 5 ==> w[i] == alpha_index(#[trigger] line[a + i])
}

/// Why a word list could not be loaded.
#[derive(Clone, Copy, Debug, PartialEq, Eq)]
pub enum LoadError {
    /// The text holds no line.
    Empty,
    /// The line with this index, counted from zero, is the first that does
    /// not hold one word.
    BadLine { line: usize },
}

/// The first break is the only break.
proof fn lemma_first_break(text: Seq<u8>, k: int)
    requires
        is_first_break(text, k),
    ensures
        first_break(text) == k,
{
    let c = first_break(text);
    assert(is_first_break(text, c));
    if c < k {
        assert(text[c] != 10);
    }
    if k < c {
        assert(text[k] != 10);
    }
}

/// The words start at one place only.
proof fn lemma_frame_unique(line: Seq<u8>, a: int, b: int)
    requires
        framed(line, a),
        framed(line, b),
    ensures
        a == b,
{
    if a < b {
        assert(is_alpha(line[a]));
        assert(is_space(line[a]));
    }
    if b < a {
        assert(is_alpha(line[b]));
        assert(is_space(line[b]));
    }
}

/// Tells whether `b` is ASCII white space.
pub fn byte_is_space(b: u8) -> (yes: bool)
    ensures
        yes == is_space(b),
{
    b == 32 || (9 <= b && b <= 13)
}

/// Reads the line `text[from..to]` as a word.
pub fn parse_line(text: &[u8], from: usize, to: usize) -> (parsed: Option<Word>)
    requires
        from <= to <= text@.len(),
    ensures
        parsed is Some <==> well_formed(text@.subrange(from as int, to as int)),
        parsed matches Some(w) ==> valid_word(w) && spells(
            text@.subrange(from as int, to as int),
            w,
        ),
{
    let ghost line = text@.subrange(from as int, to as int);
    let mut a: usize = from;
    while a < to && byte_is_space(text[a])
        invariant
            from <= a <= to <= text@.len(),
            line == text@.subrange(from as int, to as int),
            forall|j: int| 0 <= j < a - from ==> is_space(#[trigger] line[j]),
        decreases to - a,
    {
        a += 1;
    }
    let ghost start = a - from;
    if to - a < 5 {
        proof {
            if well_formed(line) {
                let s = choose|s: int| framed(line, s);
                assert(is_alpha(line[s]));
                if s < start {
                    assert(is_space(line[s]));
                } else {
                    assert(a < to);
                    assert(line[start] == text@[a as int]);
                    if start < s {
                        assert(is_space(line[start]));
                    }
                }
            }
        }
        return None;
    }
    let mut w: Word = [0u8; 5];
    let mut i: usize = 0;
    while i < 5
        invariant
            i <= 5,
            from <= a,
            a + 5 <= to <= text@.len(),
            start == a - from,
            line == text@.subrange(from as int, to as int),
            forall|j: int| 0 <= j < start ==> is_space(#[trigger] line[j]),
            forall|j: int| start <= j < start + i ==> is_alpha(#[trigger] line[j]),
            forall|k: int| 0 <= k < i ==> w[k] == alpha_index(#[trigger] line[start + k]),
            forall|k: int| 0 <= k < i ==> w[k] < 26,
            !is_space(line[start]),
        decreases 5 - i,
    {
        let b = text[a + i];
        assert(line[start + i] == b);
        if 65 <= b && b <= 90 {
            w[i] = b - 65;
        } else if 97 <= b && b <= 122 {
            w[i] = b - 97;
        } else {
            proof {
                if well_formed(line) {
                    let s = choose|s: int| framed(line, s);
                    assert(is_alpha(line[s]));
                    if s < start {
                        assert(is_space(line[s]));
                    }
                    if start < s {
                        assert(is_space(line[start]));
                    }
                    assert(is_alpha(line[start + i]));
                }
            }
            return None;
        }
        i += 1;
    }
    let mut e: usize = a + 5;
    while e < to
        invariant
            a + 5 <= e <= to <= text@.len(),
            from <= a,
            start == a - from,
            line == text@.subrange(from as int, to as int),
            forall|j: int| 0 <= j < start ==> is_space(#[trigger] line[j]),
            forall|j: int| start <= j < start + 5 ==> is_alpha(#[trigger] line[j]),
            forall|j: int| start + 5 <= j < e - from ==> is_space(#[trigger] line[j]),
        decreases to - e,
    {
        if !byte_is_space(text[e]) {
            proof {
                assert(line[e - from] == text@[e as int]);
                if well_formed(line) {
                    let s = choose|s: int| framed(line, s);
                    assert(framed(line, start)) by {
                        assert(is_alpha(line[s]));
                        assert(is_alpha(line[start]));
                        if s < start {
                            assert(is_space(line[s]));
                        }
                        if start < s {
                            assert(is_space(line[start]));
                        }
                        assert(s == start);
                    }
                    assert(is_space(line[e - from]));
                }
            }
            return None;
        }
        e += 1;
    }
    proof {
        assert(framed(line, start));
        assert forall|k: int| 0 <= k < 5 implies w[k] == alpha_index(#[trigger] line[start + k]) by {}
    }
    Some(w)
}

/// The end of the line that starts at `from`: the index of the next line
/// feed, or the length of `text`.
pub fn line_end(text: &[u8], from: usize) -> (end: usize)
    requires
        from <= text@.len(),
    ensures
        from <= end <= text@.len(),
        is_first_break(text@.skip(from as int), end - from),
{
    let mut end: usize = from;
    while end < text.len() && text[end] != 10
        invariant
            from <= end <= text@.len(),
            forall|j: int| 0 <= j < end - from ==> text@.skip(from as int)[j] != 10,
        decreases text@.len() - end,
    {
        end += 1;
    }
    end
}

/// Reads a word list: every line must hold one word, and there must be at
/// least one line. The words come out in alphabetical order, in lower case,
/// each once.
pub fn load(text: &[u8]) -> (loaded: Result<Dictionary, LoadError>)
    ensures
        match loaded {
            Ok(d) => {
                &&& d.wf()
                &&& lines(text@).len() > 0
                &&& forall|k: int| 0 <= k < lines(text@).len() ==> well_formed(#[trigger] lines(text@)[k])
                &&& forall|w: Word|
                    d@.contains(w) <==> exists|k: int|
                        0 <= k < lines(text@).len() && spells(#[trigger] lines(text@)[k], w)
            },
            Err(LoadError::Empty) => lines(text@).len() == 0,
            Err(LoadError::BadLine { line }) => {
                &&& line < lines(text@).len()
                &&& !well_formed(lines(text@)[line as int])
                &&& forall|k: int| 0 <= k < line ==> well_formed(#[trigger] lines(text@)[k])
            },
        },
{
    let mut d = Dictionary::new();
    let mut from: usize = 0;
    let ghost mut done: Seq<Seq<u8>> = Seq::empty();
    let mut count: usize = 0;
    proof {
        assert(text@.skip(0) =~= text@);
        assert(done + lines(text@.skip(0)) =~= lines(text@));
    }
    while from < text.len()
        invariant
            from <= text@.len(),
            count == done.len(),
            count <= from,
            d.wf(),
            lines(text@) == done + lines(text@.skip(from as int)),
            forall|k: int| 0 <= k < done.len() ==> well_formed(#[trigger] done[k]),
            forall|w: Word|
                d@.contains(w) <==> exists|k: int| 0 <= k < done.len() && spells(#[trigger] done[k], w),
        decreases text@.len() - from,
    {
        let end = line_end(text, from);
        let ghost tail = text@.skip(from as int);
        let ghost line = text@.subrange(from as int, end as int);
        let next: usize = if end < text.len() {
            end + 1
        } else {
            end
        };
        proof {
            lemma_first_break(tail, end - from);
            if end < text@.len() {
                assert(tail.take(end - from) =~= line);
                assert(tail.skip(end - from + 1) =~= text@.skip(next as int));
            } else {
                assert(tail =~= line);
                assert(text@.skip(next as int).len() == 0);
            }
            assert(lines(tail) =~= seq![line] + lines(text@.skip(next as int)));
            assert(lines(text@) =~= done.push(line) + lines(text@.skip(next as int)));
            assert(lines(text@)[done.len() as int] == line);
            assert forall|k: int| 0 <= k < done.len() implies lines(text@)[k] == done[k] by {}
        }
        match parse_line(text, from, end) {
            None => {
                return Err(LoadError::BadLine { line: count });
            },
            Some(w) => {
                let ghost earlier = d@;
                d.insert(w);
                proof {
                    let now = done.push(line);
                    assert forall|x: Word|
                        d@.contains(x) <==> exists|k: int|
                            0 <= k < now.len() && spells(#[trigger] now[k], x) by {
                        if d@.contains(x) {
                            if x == w {
                                assert(spells(now[done.len() as int], x));
                            } else {
                                assert(earlier.contains(x));
                                let k = choose|k: int|
                                    0 <= k < done.len() && spells(#[trigger] done[k], x);
                                assert(spells(now[k], x));
                            }
                        }
                        if exists|k: int| 0 <= k < now.len() && spells(#[trigger] now[k], x) {
                            let k = choose|k: int| 0 <= k < now.len() && spells(#[trigger] now[k], x);
                            if k < done.len() {
                                assert(spells(done[k], x));
                            } else {
                                lemma_spells_one(line, x, w);
                            }
                        }
                    }
                    assert forall|k: int| 0 <= k < now.len() implies well_formed(#[trigger] now[k]) by {
                        if k < done.len() {
                            assert(well_formed(done[k]));
                        }
                    }
                    done = now;
                }
                count += 1;
                from = next;
            },
        }
    }
    proof {
        assert(lines(text@.skip(from as int)) =~= Seq::<Seq<u8>>::empty());
        assert(lines(text@) =~= done);
    }
    if count == 0 {
        return Err(LoadError::Empty);
    }
    Ok(d)
}

/// A line spells at most one word.
pub proof fn lemma_spells_one(line: Seq<u8>, w1: Word, w2: Word)
    requires
        spells(line, w1),
        spells(line, w2),
    ensures
        w1 == w2,
{
    let a = choose|a: int|
        #[trigger] framed(line, a) && forall|i: int|
            0 <= i < 5 ==> w1[i] == alpha_index(#[trigger] line[a + i]);
    let b = choose|b: int|
        #[trigger] framed(line, b) && forall|i: int|
            0 <= i < 5 ==> w2[i] == alpha_index(#[trigger] line[b + i]);
    lemma_frame_unique(line, a, b);
    assert forall|i: int| 0 <= i < 5 implies w1[i] == w2[i] by {
        assert(w1[i] == alpha_index(line[a + i]));
        assert(w2[i] == alpha_index(line[a + i]));
    }
    assert(w1 =~= w2);
}

} // verus!
