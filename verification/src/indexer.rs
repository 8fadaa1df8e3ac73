//! Word indexing: translating byte offsets in a chapter to ordinal word
//! positions, so that proximity between mentions can be measured in words
//! rather than bytes.

use vstd::prelude::*;
use crate::text::{word_count, word_start_at, word_starts, word_starts_from};
use crate::text::{cont_byte, count_word_runs, lemma_word_starts_from_props, ws_at_exec, ws_before_exec};

verus! {

/// The word index for position `pos` among the ascending word-start offsets
/// `st`: the index of the last start at or before `pos`, and `0` when `pos`
/// lies before every start or no word exists.
pub open spec fn index_among(st: Seq<int>, pos: int) -> int
    decreases st.len(),
{
    if st.len() == 0 {
        0
    } else if st.last() <= pos {
        st.len() - 1
    } else {
        index_among(st.drop_last(), pos)
    }
}

/// The 0-based index of the word of `s` containing position `pos`, or of the
/// word just before `pos` when `pos` falls in whitespace.
pub open spec fn word_index_of(s: Seq<u8>, pos: int) -> int {
    index_among(word_starts(s), pos)
}

/// If every start below `cut` is at or before `pos` and every start from
/// `cut` on is after `pos`, then the word index is `cut - 1` (or `0` when
/// `cut` is `0`).
proof fn lemma_index_among_split(st: Seq<int>, pos: int, cut: int)
    requires
        0 <= cut <= st.len(),
        forall|k: int| 0 <= k < cut ==> st[k] <= pos,
        forall|k: int| cut <= k < st.len() ==> st[k] > pos,
    ensures
        index_among(st, pos) == if cut == 0 {
            0int
        } else {
            cut - 1
        },
    decreases st.len(),
{
    if st.len() > 0 {
        if st.last() <= pos {
            assert(cut == st.len());
        } else {
            assert(cut <= st.len() - 1);
            lemma_index_among_split(st.drop_last(), pos, cut);
        }
    }
}

/// All word starts of `s` lie within `s`, in strictly ascending order.
pub proof fn lemma_word_starts_bounds(s: Seq<u8>)
    ensures
        forall|k: int|
            0 <= k < word_starts(s).len() ==> 0 <= #[trigger] word_starts(s)[k] < s.len(),
        forall|k: int, l: int|
            0 <= k < l < word_starts(s).len() ==> word_starts(s)[k] < word_starts(s)[l],
{
    lemma_word_starts_from_props(s, 0);
}

/// Maps byte offsets of one text to word indices via the precomputed,
/// ascending list of word start offsets.
pub struct WordIndexer {
    /// Byte offsets where words start.
    word_starts: Vec<usize>,
}

impl WordIndexer {
    /// The stored start offsets, as mathematical integers.
    pub closed spec fn starts(self) -> Seq<int> {
        self.word_starts@.map_values(|x: usize| x as int)
    }

    /// The indexer was built over the text `s`.
    pub open spec fn for_text(self, s: Seq<u8>) -> bool {
        self.starts() == word_starts(s)
    }

    /// The stored start offsets are strictly ascending.
    pub open spec fn wf(self) -> bool {
        forall|k: int, l: int|
            0 <= k < l < self.starts().len() ==> self.starts()[k] < self.starts()[l]
    }

    /// Precomputes the word start offsets of `text`.
    pub fn new(text: &[u8]) -> (r: WordIndexer)
        ensures
            r.for_text(text@),
            r.wf(),
    {
        let n = text.len();
        let mut starts: Vec<usize> = Vec::new();
        let mut i: usize = 0;
        while i < n
            invariant
                i <= n,
                n == text@.len(),
                starts@.map_values(|x: usize| x as int) + word_starts_from(text@, i as int)
                    == word_starts(text@),
                forall|j: int| 0 <= j < starts@.len() ==> (#[trigger] starts@[j]) < i,
            decreases n - i,
        {
            let starts_here: bool = !cont_byte(text[i]) && !ws_at_exec(text, i) && (i == 0
                || ws_before_exec(text, i));
            proof {
                assert(starts_here == word_start_at(text@, i as int));
            }
            if starts_here {
                let ghost prev = starts@;
                starts.push(i);
                proof {
                    assert(starts@.map_values(|x: usize| x as int) =~= prev.map_values(
                        |x: usize| x as int,
                    ).push(i as int));
                    assert(word_starts_from(text@, i as int) == seq![i as int]
                        + word_starts_from(text@, i + 1));
                    assert(prev.map_values(|x: usize| x as int) + word_starts_from(
                        text@,
                        i as int,
                    ) =~= starts@.map_values(|x: usize| x as int) + word_starts_from(
                        text@,
                        i + 1,
                    ));
                }
            } else {
                proof {
                    assert(word_starts_from(text@, i as int) == word_starts_from(text@, i + 1));
                }
            }
            i = i + 1;
        }
        proof {
            assert(word_starts_from(text@, n as int) =~= Seq::<int>::empty());
            assert(starts@.map_values(|x: usize| x as int) + Seq::<int>::empty()
                =~= starts@.map_values(|x: usize| x as int));
            lemma_word_starts_bounds(text@);
        }
        WordIndexer { word_starts: starts }
    }

    /// Translates a byte offset to the index of the word containing it (or
    /// the nearest word before it), by binary search over the start offsets.
    pub fn get_word_index(&self, char_pos: usize) -> (r: usize)
        requires
            self.wf(),
        ensures
            r == index_among(self.starts(), char_pos as int),
    {
        let n = self.word_starts.len();
        let mut lo: usize = 0;
        let mut hi: usize = n;
        while lo < hi
            invariant
                self.wf(),
                0 <= lo <= hi <= n,
                n == self.starts().len(),
                forall|k: int| 0 <= k < lo ==> self.starts()[k] <= char_pos,
                forall|k: int| hi <= k < n ==> self.starts()[k] > char_pos,
            decreases hi - lo,
        {
            let mid = lo + (hi - lo) / 2;
            proof {
                assert(self.starts()[mid as int] == self.word_starts@[mid as int] as int);
            }
            if self.word_starts[mid] <= char_pos {
                proof {
                    assert forall|k: int| 0 <= k < mid + 1 implies self.starts()[k]
                        <= char_pos by {
                        if k < mid {
                            assert(self.starts()[k] < self.starts()[mid as int]);
                        }
                    }
                }
                lo = mid + 1;
            } else {
                proof {
                    assert forall|k: int| mid <= k < n implies self.starts()[k] > char_pos by {
                        if k > mid {
                            assert(self.starts()[mid as int] < self.starts()[k]);
                        }
                    }
                }
                hi = mid;
            }
        }
        proof {
            lemma_index_among_split(self.starts(), char_pos as int, lo as int);
        }
        if lo == 0 {
            0
        } else {
            lo - 1
        }
    }
}

/// The number of words that begin strictly before `char_pos` in `text`
/// (clipped to the text's end): an approximate word index derived directly
/// from a prefix word count.
pub fn char_pos_to_word_index(text: &[u8], char_pos: usize) -> (r: usize)
    ensures
        ({
            let w = word_count(text@.take(if char_pos <= text@.len() {
                char_pos as int
            } else {
                text@.len() as int
            }));
            r == w || (r == usize::MAX && w > usize::MAX)
        }),
{
    let end = if char_pos <= text.len() {
        char_pos
    } else {
        text.len()
    };
    let prefix = &text[0..end];
    proof {
        assert(prefix@ =~= text@.take(end as int));
    }
    count_word_runs(prefix)
}

} // verus!
