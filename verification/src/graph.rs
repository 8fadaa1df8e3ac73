//! The graph builder: turns per-chapter mention lists into a weighted
//! interaction graph with connectivity metrics.
//!
//! All weights are fixed-point numbers in thousandths (milli-units): a
//! co-presence contributes 1000, and a proximity bonus of
//! `base × window / distance` is computed in milli-units. Accumulated
//! weights and counts saturate at their type's maximum instead of
//! overflowing; every contract states the exact saturated sum.

use vstd::prelude::*;
use crate::models::Character;
use crate::unionfind::{UnionFind, count_eq, dedup_first};

verus! {

/// Type of interaction between two characters.
#[derive(Clone, Copy, Debug, PartialEq, Eq, Structural)]
pub enum InteractionType {
    /// Both characters appear in the same chapter.
    CoPresence,
    /// One character is mentioned in context of another.
    Reference,
}

/// Location of a character mention in the manuscript.
#[derive(Clone, Debug, PartialEq)]
pub struct MentionLocation {
    /// Chapter id where the mention appears.
    pub chapter_id: Vec<u8>,
    /// Byte offset within the chapter content.
    pub char_offset: usize,
}

/// One mention found in one chapter: where it sits, which word that is, and
/// which roster entry it names.
#[derive(Clone, Copy, Debug, PartialEq, Eq, Structural)]
pub struct Mention {
    /// Byte offset of the match.
    pub offset: usize,
    /// Ordinal index of the word containing the match.
    pub word_index: usize,
    /// Index of the mentioned character in the roster.
    pub character: usize,
}

/// One scanned chapter, ready for aggregation: its id, and the mentions
/// found in its text.
#[derive(Clone, Debug)]
pub struct ChapterScan {
    pub chapter_id: Vec<u8>,
    pub mentions: Vec<Mention>,
}

/// A node in the character graph. The importance score is derived by the
/// caller as `ln(1 + mention_count) × role_weight`; the node carries the
/// exact mention count that feeds it.
#[derive(Clone, Debug)]
pub struct GraphNode {
    /// Id of the character.
    pub id: Vec<u8>,
    /// Character's display name.
    pub label: Vec<u8>,
    /// Total number of mentions across all chapters.
    pub mention_count: u32,
    /// True if the character has at least 1 mention.
    pub is_mapped: bool,
    /// Location of the first mention.
    pub first_mention: Option<MentionLocation>,
}

/// An edge in the character graph.
#[derive(Clone, Debug)]
pub struct GraphEdge {
    /// Source character id.
    pub source: Vec<u8>,
    /// Target character id.
    pub target: Vec<u8>,
    /// Aggregate interaction strength, in milli-units.
    pub weight: u64,
    /// Type of interaction.
    pub interaction_type: InteractionType,
}

/// An exact non-negative ratio; numerator and denominator saturate at
/// `u64::MAX`.
#[derive(Clone, Copy, Debug, PartialEq, Eq, Structural)]
pub struct Ratio {
    pub num: u64,
    pub den: u64,
}

/// Graph-level metrics for narrative health diagnostics.
#[derive(Clone, Debug)]
pub struct GraphMetrics {
    /// Network density: |E| over |V|·(|V|−1)/2.
    pub network_density: Ratio,
    /// Number of connected components.
    pub connected_components: u32,
    /// Size of the largest connected component.
    pub largest_component_size: u32,
    /// Ratio of isolated nodes to total nodes.
    pub isolation_ratio: Ratio,
}

/// Complete payload returned by an analysis.
#[derive(Clone, Debug)]
pub struct CharacterGraphPayload {
    pub nodes: Vec<GraphNode>,
    pub edges: Vec<GraphEdge>,
    pub metrics: GraphMetrics,
}

/// Weighting configuration, in milli-units. The role weights feed the
/// caller's importance score and strictly order
/// Protagonist > Antagonist > Secondary > Extra.
#[derive(Clone, Copy, Debug)]
pub struct GraphWeights {
    pub protagonist: u64,
    pub antagonist: u64,
    pub secondary: u64,
    pub extra: u64,
    pub base_proximity_bonus: u64,
}

impl Default for GraphWeights {
    /// Role weights 2.0, 1.8, 1.5, 1.0 and base bonus 0.1, in milli-units.
    fn default() -> (r: GraphWeights)
        ensures
            r.protagonist == 2000,
            r.antagonist == 1800,
            r.secondary == 1500,
            r.extra == 1000,
            r.base_proximity_bonus == 100,
    {
        GraphWeights {
            protagonist: 2000,
            antagonist: 1800,
            secondary: 1500,
            extra: 1000,
            base_proximity_bonus: 100,
        }
    }
}

/// Clips a mathematical count to `u32`.
pub open spec fn sat32(x: int) -> int {
    if x > u32::MAX {
        u32::MAX as int
    } else {
        x
    }
}

/// Clips a mathematical weight to `u64`.
pub open spec fn sat64(x: int) -> int {
    if x > u64::MAX {
        u64::MAX as int
    } else {
        x
    }
}

/// The proximity bonus for two mentions `distance` words apart, in
/// milli-units: zero at distance zero and beyond the window, and
/// `base × window / distance` inside it, decaying as distance grows.
pub open spec fn bonus_value(distance: int, window: int, base: int) -> int {
    if distance <= 0 || distance > window {
        0
    } else {
        base * window / distance
    }
}

/// Computes the proximity bonus, saturating at `u64::MAX`.
pub fn proximity_bonus(word_distance: usize, proximity_window: usize, base_bonus: u64) -> (r: u64)
    ensures
        r == sat64(bonus_value(word_distance as int, proximity_window as int, base_bonus as int)),
{
    if word_distance == 0 || word_distance > proximity_window {
        0
    } else {
        proof {
            assert((base_bonus as int) * (proximity_window as int) < u128::MAX) by (nonlinear_arith)
                requires
                    base_bonus <= u64::MAX && proximity_window <= u64::MAX,
            ;
        }
        let wide: u128 = (base_bonus as u128) * (proximity_window as u128);
        let q: u128 = wide / (word_distance as u128);
        proof {
            assert(q == bonus_value(
                word_distance as int,
                proximity_window as int,
                base_bonus as int,
            ));
        }
        if q > u64::MAX as u128 {
            u64::MAX
        } else {
            q as u64
        }
    }
}

/// How many of the mentions `ms` name character `ch`.
pub open spec fn cnt_in(ms: Seq<Mention>, ch: int) -> int
    decreases ms.len(),
{
    if ms.len() == 0 {
        0
    } else {
        cnt_in(ms.drop_last(), ch) + if ms.last().character == ch {
            1int
        } else {
            0int
        }
    }
}

/// Character `ch` is mentioned somewhere in `ms`.
pub open spec fn has_char(ms: Seq<Mention>, ch: int) -> bool {
    exists|k: int| 0 <= k < ms.len() && (#[trigger] ms[k]).character == ch
}

/// The total number of mentions of `ch` across all chapters.
pub open spec fn total_count(cs: Seq<ChapterScan>, ch: int) -> int {
    cs.fold_left(0int, |acc: int, c: ChapterScan| acc + cnt_in(c.mentions@, ch))
}

/// The proximity bonus that the mention pair `(mi, mj)` contributes to the
/// unordered character pair `(a, b)`.
pub open spec fn pair_bonus(mi: Mention, mj: Mention, a: int, b: int, window: int, base: int) -> int {
    if (mi.character == a && mj.character == b) || (mi.character == b && mj.character == a) {
        let d = if mi.word_index >= mj.word_index {
            mi.word_index - mj.word_index
        } else {
            mj.word_index - mi.word_index
        };
        bonus_value(d, window, base)
    } else {
        0
    }
}

/// The proximity bonus that mention `m` collects against every mention of
/// the list `ms`, for the pair `(a, b)`.
pub open spec fn prox_one(ms: Seq<Mention>, m: Mention, a: int, b: int, window: int, base: int) -> int
    decreases ms.len(),
{
    if ms.len() == 0 {
        0
    } else {
        prox_one(ms.drop_last(), m, a, b, window, base) + pair_bonus(
            ms.last(),
            m,
            a,
            b,
            window,
            base,
        )
    }
}

/// The proximity bonus over all unordered mention pairs of `ms`, for the
/// character pair `(a, b)`.
pub open spec fn prox_sum(ms: Seq<Mention>, a: int, b: int, window: int, base: int) -> int
    decreases ms.len(),
{
    if ms.len() == 0 {
        0
    } else {
        prox_sum(ms.drop_last(), a, b, window, base) + prox_one(
            ms.drop_last(),
            ms.last(),
            a,
            b,
            window,
            base,
        )
    }
}

/// What one chapter adds to the weight of the pair `(a, b)`: 1000
/// milli-units of co-presence when both appear in it, plus the proximity
/// bonuses of its mention pairs.
pub open spec fn chapter_weight(c: ChapterScan, a: int, b: int, window: int, base: int) -> int {
    copres_w(c.mentions@, a, b) + prox_sum(c.mentions@, a, b, window, base)
}

/// The accumulated interaction weight of the pair `(a, b)` over all
/// chapters, before saturation.
pub open spec fn pair_weight(cs: Seq<ChapterScan>, a: int, b: int, window: int, base: int) -> int {
    cs.fold_left(0int, |acc: int, c: ChapterScan| acc + chapter_weight(c, a, b, window, base))
}

/// The two characters share at least one chapter.
pub open spec fn ever_copresent(cs: Seq<ChapterScan>, a: int, b: int) -> bool {
    exists|c: ChapterScan| cs.contains(c) && has_char(c.mentions@, a) && has_char(c.mentions@, b)
}

/// The byte offset of the first mention of `ch` in the list `ms` (first in
/// list order, which for scanned chapters is ascending offset).
pub open spec fn first_offset(ms: Seq<Mention>, ch: int) -> int
    decreases ms.len(),
{
    if ms.len() == 0 {
        0
    } else if ms.first().character == ch {
        ms.first().offset as int
    } else {
        first_offset(ms.drop_first(), ch)
    }
}

/// The project-wide first mention of `ch`: the first chapter, in processing
/// order, that mentions it, together with the offset of its first mention
/// there.
pub open spec fn first_mention_of(cs: Seq<ChapterScan>, ch: int) -> Option<(Seq<u8>, int)>
    decreases cs.len(),
{
    if cs.len() == 0 {
        None
    } else if has_char(cs.first().mentions@, ch) {
        Some((cs.first().chapter_id@, first_offset(cs.first().mentions@, ch)))
    } else {
        first_mention_of(cs.drop_first(), ch)
    }
}

/// The pair `(a, b)` earns an edge: its weight is positive (the two
/// interacted at all) and reaches the prune threshold.
pub open spec fn pair_qualifies(
    cs: Seq<ChapterScan>,
    a: int,
    b: int,
    window: int,
    base: int,
    prune: int,
) -> bool {
    &&& sat64(pair_weight(cs, a, b, window, base)) > 0
    &&& sat64(pair_weight(cs, a, b, window, base)) >= prune
}

/// The qualifying pairs among the first `t` cells of the n×n pair grid, in
/// row-major (lexicographic) order; cell `t` holds the pair
/// `(t / n, t mod n)` and only cells above the diagonal count.
pub open spec fn edge_pairs_upto(
    cs: Seq<ChapterScan>,
    n: int,
    window: int,
    base: int,
    prune: int,
    t: int,
) -> Seq<(int, int)>
    decreases t,
{
    if t <= 0 {
        Seq::empty()
    } else {
        let a = (t - 1) / n;
        let b = (t - 1) % n;
        edge_pairs_upto(cs, n, window, base, prune, t - 1) + if a < b && pair_qualifies(
            cs,
            a,
            b,
            window,
            base,
            prune,
        ) {
            seq![(a, b)]
        } else {
            Seq::empty()
        }
    }
}

/// All qualifying pairs, in lexicographic order.
pub open spec fn edge_pairs(
    cs: Seq<ChapterScan>,
    n: int,
    window: int,
    base: int,
    prune: int,
) -> Seq<(int, int)> {
    edge_pairs_upto(cs, n, window, base, prune, n * n)
}

/// The identity representative assignment over `n` nodes.
pub open spec fn uf_identity(n: int) -> Seq<int> {
    Seq::new(n as nat, |i: int| i)
}

/// One union step on a representative assignment: every node of `b`'s
/// component is re-pointed at `a`'s representative.
pub open spec fn uf_merge(p: Seq<int>, a: int, b: int) -> Seq<int> {
    Seq::new(p.len(), |i: int| if p[i] == p[b] { p[a] } else { p[i] })
}

/// The representative assignment after uniting every pair of `pairs` in
/// order, starting from `n` singletons.
pub open spec fn uf_fold(n: int, pairs: Seq<(int, int)>) -> Seq<int>
    decreases pairs.len(),
{
    if pairs.len() == 0 {
        uf_identity(n)
    } else {
        uf_merge(uf_fold(n, pairs.drop_last()), pairs.last().0, pairs.last().1)
    }
}

/// Node `c` appears in some pair of `pairs`.
pub open spec fn in_pairs(pairs: Seq<(int, int)>, c: int) -> bool {
    exists|k: int| 0 <= k < pairs.len() && ((#[trigger] pairs[k]).0 == c || pairs[k].1 == c)
}

/// How many of the nodes `0..hi` appear in no pair.
pub open spec fn isolated_below(pairs: Seq<(int, int)>, hi: int) -> int
    decreases hi,
{
    if hi <= 0 {
        0
    } else {
        isolated_below(pairs, hi - 1) + if in_pairs(pairs, hi - 1) {
            0int
        } else {
            1int
        }
    }
}

/// The size of the largest component of the representative assignment `p`:
/// the greatest number of nodes sharing one representative.
pub open spec fn largest_component(p: Seq<int>) -> int {
    largest_over(p, dedup_first(p))
}

/// The greatest count among the given representatives.
pub open spec fn largest_over(p: Seq<int>, roots: Seq<int>) -> int
    decreases roots.len(),
{
    if roots.len() == 0 {
        0
    } else {
        let rest = largest_over(p, roots.drop_last());
        let c = count_eq(p, roots.last()) as int;
        if c > rest {
            c
        } else {
            rest
        }
    }
}

/// Appending a chapter extends the running total by that chapter's count.
proof fn lemma_total_count_push(cs: Seq<ChapterScan>, c: ChapterScan, ch: int)
    ensures
        total_count(cs.push(c), ch) == total_count(cs, ch) + cnt_in(c.mentions@, ch),
{
    assert(cs.push(c).drop_last() =~= cs);
}

/// Appending a mention extends the running chapter count.
proof fn lemma_cnt_in_push(ms: Seq<Mention>, m: Mention, ch: int)
    ensures
        cnt_in(ms.push(m), ch) == cnt_in(ms, ch) + if m.character == ch {
            1int
        } else {
            0int
        },
{
    assert(ms.push(m).drop_last() =~= ms);
}

/// How the first offset of a chapter grows as its mentions are appended.
proof fn lemma_first_offset_push(ms: Seq<Mention>, m: Mention, ch: int)
    ensures
        has_char(ms, ch) ==> first_offset(ms.push(m), ch) == first_offset(ms, ch),
        !has_char(ms, ch) && m.character == ch ==> first_offset(ms.push(m), ch) == m.offset,
    decreases ms.len(),
{
    if ms.len() == 0 {
        assert(ms.push(m).first() == m);
    } else {
        assert(ms.push(m).first() == ms.first());
        assert(ms.push(m).drop_first() =~= ms.drop_first().push(m));
        lemma_first_offset_push(ms.drop_first(), m, ch);
        if has_char(ms, ch) && ms.first().character != ch {
            let k = choose|k: int| 0 <= k < ms.len() && (#[trigger] ms[k]).character == ch;
            assert(ms.drop_first()[k - 1].character == ch);
            assert(has_char(ms.drop_first(), ch));
        }
        if has_char(ms.drop_first(), ch) {
            let k = choose|k: int|
                0 <= k < ms.drop_first().len() && (#[trigger] ms.drop_first()[k]).character == ch;
            assert(ms[k + 1].character == ch);
            assert(has_char(ms, ch));
        }
    }
}

/// How the project-wide first mention grows as chapters are appended.
proof fn lemma_first_mention_push(cs: Seq<ChapterScan>, c: ChapterScan, ch: int)
    ensures
        first_mention_of(cs.push(c), ch) == if first_mention_of(cs, ch) is Some {
            first_mention_of(cs, ch)
        } else if has_char(c.mentions@, ch) {
            Some((c.chapter_id@, first_offset(c.mentions@, ch)))
        } else {
            None::<(Seq<u8>, int)>
        },
    decreases cs.len(),
{
    if cs.len() == 0 {
        assert(cs.push(c).first() == c);
        assert(cs.push(c).drop_first() =~= Seq::<ChapterScan>::empty());
    } else {
        assert(cs.push(c).first() == cs.first());
        assert(cs.push(c).drop_first() =~= cs.drop_first().push(c));
        lemma_first_mention_push(cs.drop_first(), c, ch);
    }
}

/// Tallies, for each roster index, its total mention count (saturated) and
/// its project-wide first mention.
fn tally_counts(n: usize, chapters: &Vec<ChapterScan>) -> (r: (
    Vec<u32>,
    Vec<Option<MentionLocation>>,
))
    ensures
        r.0@.len() == n,
        r.1@.len() == n,
        forall|c: int| 0 <= c < n ==> (#[trigger] r.0@[c]) as int == sat32(total_count(chapters@, c)),
        forall|c: int|
            0 <= c < n ==> (match #[trigger] r.1@[c] {
                Option::None => first_mention_of(chapters@, c) is None,
                Option::Some(loc) => first_mention_of(chapters@, c) == Some(
                    (loc.chapter_id@, loc.char_offset as int),
                ),
            }),
{
    let mut counts: Vec<u32> = Vec::new();
    let mut first: Vec<Option<MentionLocation>> = Vec::new();
    let mut c0: usize = 0;
    while c0 < n
        invariant
            c0 <= n,
            counts@.len() == c0,
            first@.len() == c0,
            forall|c: int| 0 <= c < c0 ==> (#[trigger] counts@[c]) == 0,
            forall|c: int| 0 <= c < c0 ==> (#[trigger] first@[c]) is None,
        decreases n - c0,
    {
        counts.push(0);
        first.push(None);
        c0 = c0 + 1;
    }
    proof {
        assert(chapters@.take(0) =~= Seq::<ChapterScan>::empty());
        assert(forall|c: int|
            0 <= c < n ==> (#[trigger] counts@[c]) as int == sat32(
                total_count(chapters@.take(0), c),
            ));
    }
    let mut t: usize = 0;
    while t < chapters.len()
        invariant
            t <= chapters@.len(),
            counts@.len() == n,
            first@.len() == n,
            forall|c: int|
                0 <= c < n ==> (#[trigger] counts@[c]) as int == sat32(
                    total_count(chapters@.take(t as int), c),
                ),
            forall|c: int|
                0 <= c < n ==> (match #[trigger] first@[c] {
                    Option::None => first_mention_of(chapters@.take(t as int), c) is None,
                    Option::Some(loc) => first_mention_of(chapters@.take(t as int), c) == Some(
                        (loc.chapter_id@, loc.char_offset as int),
                    ),
                }),
        decreases chapters@.len() - t,
    {
        let ghost prefix = chapters@.take(t as int);
        let chapter = &chapters[t];
        let ghost ms = chapter.mentions@;
        let mut j: usize = 0;
        proof {
            assert(ms.take(0) =~= Seq::<Mention>::empty());
        }
        while j < chapter.mentions.len()
            invariant
                j <= ms.len(),
                ms == chapter.mentions@,
                chapter == chapters@[t as int],
                t < chapters@.len(),
                prefix == chapters@.take(t as int),
                n == counts@.len(),
                n == first@.len(),
                forall|c: int|
                    0 <= c < n ==> (#[trigger] counts@[c]) as int == sat32(
                        total_count(prefix, c) + cnt_in(ms.take(j as int), c),
                    ),
                forall|c: int|
                    0 <= c < n ==> (match #[trigger] first@[c] {
                        Option::None => first_mention_of(prefix, c) is None && !has_char(
                            ms.take(j as int),
                            c,
                        ),
                        Option::Some(loc) => {
                            if first_mention_of(prefix, c) is Some {
                                first_mention_of(prefix, c) == Some(
                                    (loc.chapter_id@, loc.char_offset as int),
                                )
                            } else {
                                has_char(ms.take(j as int), c) && loc.chapter_id@
                                    == chapter.chapter_id@ && first_offset(ms.take(j as int), c)
                                    == loc.char_offset as int
                            }
                        },
                    }),
            decreases ms.len() - j,
        {
            let m = chapter.mentions[j];
            proof {
                assert(ms.take(j + 1).drop_last() =~= ms.take(j as int));
                assert(ms.take(j + 1) =~= ms.take(j as int).push(m));
            }
            if m.character < n {
                let ch = m.character;
                let ghost old_counts = counts@;
                let ghost old_first = first@;
                let cur = counts[ch];
                if cur < u32::MAX {
                    counts.set(ch, cur + 1);
                }
                let needs_first = first[ch].is_none();
                if needs_first {
                    first.set(
                        ch,
                        Some(
                            MentionLocation {
                                chapter_id: clone_bytes(&chapter.chapter_id),
                                char_offset: m.offset,
                            },
                        ),
                    );
                }
                proof {
                    assert forall|c: int| 0 <= c < n implies (#[trigger] counts@[c]) as int
                        == sat32(total_count(prefix, c) + cnt_in(ms.take(j + 1), c)) by {
                        lemma_cnt_in_push(ms.take(j as int), m, c);
                        if c != ch {
                            assert(counts@[c] == old_counts[c]);
                        }
                    }
                    assert forall|c: int| 0 <= c < n implies (match #[trigger] first@[c] {
                        Option::None => first_mention_of(prefix, c) is None && !has_char(
                            ms.take(j + 1),
                            c,
                        ),
                        Option::Some(loc) => {
                            if first_mention_of(prefix, c) is Some {
                                first_mention_of(prefix, c) == Some(
                                    (loc.chapter_id@, loc.char_offset as int),
                                )
                            } else {
                                has_char(ms.take(j + 1), c) && loc.chapter_id@
                                    == chapter.chapter_id@ && first_offset(ms.take(j + 1), c)
                                    == loc.char_offset as int
                            }
                        },
                    }) by {
                        lemma_first_offset_push(ms.take(j as int), m, c);
                        lemma_has_char_push(ms.take(j as int), m, c);
                        if c != ch {
                            assert(first@[c] == old_first[c]);
                        }
                    }
                }
            } else {
                proof {
                    assert forall|c: int| 0 <= c < n implies (#[trigger] counts@[c]) as int
                        == sat32(total_count(prefix, c) + cnt_in(ms.take(j + 1), c)) by {
                        lemma_cnt_in_push(ms.take(j as int), m, c);
                    }
                    assert forall|c: int| 0 <= c < n implies (match #[trigger] first@[c] {
                        Option::None => first_mention_of(prefix, c) is None && !has_char(
                            ms.take(j + 1),
                            c,
                        ),
                        Option::Some(loc) => {
                            if first_mention_of(prefix, c) is Some {
                                first_mention_of(prefix, c) == Some(
                                    (loc.chapter_id@, loc.char_offset as int),
                                )
                            } else {
                                has_char(ms.take(j + 1), c) && loc.chapter_id@
                                    == chapter.chapter_id@ && first_offset(ms.take(j + 1), c)
                                    == loc.char_offset as int
                            }
                        },
                    }) by {
                        lemma_first_offset_push(ms.take(j as int), m, c);
                        lemma_has_char_push(ms.take(j as int), m, c);
                    }
                }
            }
            j = j + 1;
        }
        proof {
            assert(ms.take(ms.len() as int) =~= ms);
            assert(chapters@.take(t + 1) =~= prefix.push(chapters@[t as int]));
            assert forall|c: int| 0 <= c < n implies (#[trigger] counts@[c]) as int == sat32(
                total_count(chapters@.take(t + 1), c),
            ) by {
                lemma_total_count_push(prefix, chapters@[t as int], c);
            }
            assert forall|c: int| 0 <= c < n implies (match #[trigger] first@[c] {
                Option::None => first_mention_of(chapters@.take(t + 1), c) is None,
                Option::Some(loc) => first_mention_of(chapters@.take(t + 1), c) == Some(
                    (loc.chapter_id@, loc.char_offset as int),
                ),
            }) by {
                lemma_first_mention_push(prefix, chapters@[t as int], c);
            }
        }
        t = t + 1;
    }
    proof {
        assert(chapters@.take(chapters@.len() as int) =~= chapters@);
    }
    (counts, first)
}

/// A mention of `ch` in `ms.push(m)` is either in `ms` or is `m`.
proof fn lemma_has_char_push(ms: Seq<Mention>, m: Mention, ch: int)
    ensures
        has_char(ms.push(m), ch) == (has_char(ms, ch) || m.character == ch),
{
    if has_char(ms, ch) {
        let k = choose|k: int| 0 <= k < ms.len() && (#[trigger] ms[k]).character == ch;
        assert(ms.push(m)[k].character == ch);
    }
    if m.character == ch {
        assert(ms.push(m)[ms.len() as int].character == ch);
    }
    if has_char(ms.push(m), ch) {
        let k = choose|k: int|
            0 <= k < ms.push(m).len() && (#[trigger] ms.push(m)[k]).character == ch;
        if k < ms.len() {
            assert(ms[k].character == ch);
        }
    }
}

/// Appending a chapter extends the running pair weight by that chapter's
/// contribution.
proof fn lemma_pair_weight_push(cs: Seq<ChapterScan>, c: ChapterScan, a: int, b: int, w: int, base: int)
    ensures
        pair_weight(cs.push(c), a, b, w, base) == pair_weight(cs, a, b, w, base) + chapter_weight(
            c,
            a,
            b,
            w,
            base,
        ),
{
    assert(cs.push(c).drop_last() =~= cs);
}

/// Appending a chapter can only add co-presence.
proof fn lemma_ever_copresent_push(cs: Seq<ChapterScan>, c: ChapterScan, a: int, b: int)
    ensures
        ever_copresent(cs.push(c), a, b) == (ever_copresent(cs, a, b) || (has_char(c.mentions@, a)
            && has_char(c.mentions@, b))),
{
    if ever_copresent(cs, a, b) {
        let x = choose|x: ChapterScan|
            cs.contains(x) && has_char(x.mentions@, a) && has_char(x.mentions@, b);
        let k = choose|k: int| 0 <= k < cs.len() && cs[k] == x;
        assert(cs.push(c)[k] == x);
        assert(cs.push(c).contains(x));
    }
    if has_char(c.mentions@, a) && has_char(c.mentions@, b) {
        assert(cs.push(c)[cs.len() as int] == c);
        assert(cs.push(c).contains(c));
    }
    if ever_copresent(cs.push(c), a, b) {
        let x = choose|x: ChapterScan|
            cs.push(c).contains(x) && has_char(x.mentions@, a) && has_char(x.mentions@, b);
        let k = choose|k: int| 0 <= k < cs.push(c).len() && cs.push(c)[k] == x;
        if k < cs.len() {
            assert(cs[k] == x);
            assert(cs.contains(x));
        }
    }
}

/// Appending a mention to a chapter extends each running one-against-all
/// bonus sum.
proof fn lemma_prox_one_push(ms: Seq<Mention>, x: Mention, m: Mention, a: int, b: int, w: int, base: int)
    ensures
        prox_one(ms.push(x), m, a, b, w, base) == prox_one(ms, m, a, b, w, base) + pair_bonus(
            x,
            m,
            a,
            b,
            w,
            base,
        ),
{
    assert(ms.push(x).drop_last() =~= ms);
}

/// Appending a mention extends the running pair-bonus sum of a chapter.
proof fn lemma_prox_sum_push(ms: Seq<Mention>, m: Mention, a: int, b: int, w: int, base: int)
    ensures
        prox_sum(ms.push(m), a, b, w, base) == prox_sum(ms, a, b, w, base) + prox_one(
            ms,
            m,
            a,
            b,
            w,
            base,
        ),
{
    assert(ms.push(m).drop_last() =~= ms);
}

/// Adds `v` to `*w`, saturating at `u64::MAX`; keeps a running saturated
/// sum exact.
fn sat_add64(w: u64, v: u64) -> (r: u64)
    ensures
        r as int == sat64(w + v),
{
    if w > u64::MAX - v {
        u64::MAX
    } else {
        w + v
    }
}

/// Accumulates, for every unordered character pair, its interaction weight
/// (saturated milli-units) and whether the pair was ever co-present.
fn accumulate_weights(n: usize, chapters: &Vec<ChapterScan>, window: usize, base: u64) -> (r: (
    Vec<Vec<u64>>,
    Vec<Vec<bool>>,
))
    ensures
        r.0@.len() == n,
        r.1@.len() == n,
        forall|a: int| 0 <= a < n ==> (#[trigger] r.0@[a])@.len() == n,
        forall|a: int| 0 <= a < n ==> (#[trigger] r.1@[a])@.len() == n,
        forall|a: int, b: int|
            0 <= a < b < n ==> (#[trigger] r.0@[a]@[b]) as int == sat64(
                pair_weight(chapters@, a, b, window as int, base as int),
            ),
        forall|a: int, b: int|
            0 <= a < b < n ==> (#[trigger] r.1@[a]@[b]) == ever_copresent(chapters@, a, b),
{
    let mut weights: Vec<Vec<u64>> = Vec::new();
    let mut co: Vec<Vec<bool>> = Vec::new();
    let mut c0: usize = 0;
    while c0 < n
        invariant
            c0 <= n,
            weights@.len() == c0,
            co@.len() == c0,
            forall|a: int| 0 <= a < c0 ==> (#[trigger] weights@[a])@.len() == n,
            forall|a: int| 0 <= a < c0 ==> (#[trigger] co@[a])@.len() == n,
            forall|a: int, b: int| 0 <= a < c0 && 0 <= b < n ==> (#[trigger] weights@[a]@[b]) == 0,
            forall|a: int, b: int| 0 <= a < c0 && 0 <= b < n ==> (#[trigger] co@[a]@[b]) == false,
        decreases n - c0,
    {
        let mut wrow: Vec<u64> = Vec::new();
        let mut crow: Vec<bool> = Vec::new();
        let mut b0: usize = 0;
        while b0 < n
            invariant
                b0 <= n,
                wrow@.len() == b0,
                crow@.len() == b0,
                forall|b: int| 0 <= b < b0 ==> (#[trigger] wrow@[b]) == 0,
                forall|b: int| 0 <= b < b0 ==> (#[trigger] crow@[b]) == false,
            decreases n - b0,
        {
            wrow.push(0);
            crow.push(false);
            b0 = b0 + 1;
        }
        weights.push(wrow);
        co.push(crow);
        c0 = c0 + 1;
    }
    proof {
        assert(chapters@.take(0) =~= Seq::<ChapterScan>::empty());
    }
    let mut t: usize = 0;
    while t < chapters.len()
        invariant
            t <= chapters@.len(),
            weights@.len() == n,
            co@.len() == n,
            forall|a: int| 0 <= a < n ==> (#[trigger] weights@[a])@.len() == n,
            forall|a: int| 0 <= a < n ==> (#[trigger] co@[a])@.len() == n,
            forall|a: int, b: int|
                0 <= a < b < n ==> (#[trigger] weights@[a]@[b]) as int == sat64(
                    pair_weight(chapters@.take(t as int), a, b, window as int, base as int),
                ),
            forall|a: int, b: int|
                0 <= a < b < n ==> (#[trigger] co@[a]@[b]) == ever_copresent(
                    chapters@.take(t as int),
                    a,
                    b,
                ),
        decreases chapters@.len() - t,
    {
        let ghost prefix = chapters@.take(t as int);
        let chapter = &chapters[t];
        let ghost ms = chapter.mentions@;

        // which characters appear in this chapter
        let mut present: Vec<bool> = Vec::new();
        let mut c1: usize = 0;
        while c1 < n
            invariant
                c1 <= n,
                present@.len() == c1,
                forall|c: int| 0 <= c < c1 ==> (#[trigger] present@[c]) == false,
            decreases n - c1,
        {
            present.push(false);
            c1 = c1 + 1;
        }
        let mut j: usize = 0;
        proof {
            assert(ms.take(0) =~= Seq::<Mention>::empty());
            assert(forall|c: int| 0 <= c < n ==> !has_char(ms.take(0), c));
        }
        while j < chapter.mentions.len()
            invariant
                j <= ms.len(),
                ms == chapter.mentions@,
                chapter == chapters@[t as int],
                t < chapters@.len(),
                present@.len() == n,
                forall|c: int|
                    0 <= c < n ==> (#[trigger] present@[c]) == has_char(ms.take(j as int), c),
            decreases ms.len() - j,
        {
            let m = chapter.mentions[j];
            proof {
                assert(ms.take(j + 1) =~= ms.take(j as int).push(m));
            }
            let ghost old_present = present@;
            if m.character < n {
                present[m.character] = true;
            }
            proof {
                assert forall|c: int| 0 <= c < n implies (#[trigger] present@[c]) == has_char(
                    ms.take(j + 1),
                    c,
                ) by {
                    lemma_has_char_push(ms.take(j as int), m, c);
                    if m.character < n && c != m.character {
                        assert(present@[c] == old_present[c]);
                    }
                }
            }
            j = j + 1;
        }
        proof {
            assert(ms.take(ms.len() as int) =~= ms);
        }

        // chapter-level co-presence: +1000 for every present pair
        let mut a: usize = 0;
        while a < n
            invariant
                a <= n,
                ms == chapter.mentions@,
                chapter == chapters@[t as int],
                t < chapters@.len(),
                prefix == chapters@.take(t as int),
                present@.len() == n,
                forall|c: int| 0 <= c < n ==> (#[trigger] present@[c]) == has_char(ms, c),
                weights@.len() == n,
                co@.len() == n,
                forall|x: int| 0 <= x < n ==> (#[trigger] weights@[x])@.len() == n,
                forall|x: int| 0 <= x < n ==> (#[trigger] co@[x])@.len() == n,
                forall|x: int, y: int|
                    0 <= x < y < n && x < a ==> (#[trigger] weights@[x]@[y]) as int == sat64(
                        pair_weight(prefix, x, y, window as int, base as int) + copres_w(ms, x, y),
                    ),
                forall|x: int, y: int|
                    0 <= x < y < n && x >= a ==> (#[trigger] weights@[x]@[y]) as int == sat64(
                        pair_weight(prefix, x, y, window as int, base as int),
                    ),
                forall|x: int, y: int|
                    0 <= x < y < n && x < a ==> (#[trigger] co@[x]@[y]) == (ever_copresent(
                        prefix,
                        x,
                        y,
                    ) || (has_char(ms, x) && has_char(ms, y))),
                forall|x: int, y: int|
                    0 <= x < y < n && x >= a ==> (#[trigger] co@[x]@[y]) == ever_copresent(
                        prefix,
                        x,
                        y,
                    ),
            decreases n - a,
        {
            let a_present = present[a];
            let mut b: usize = a + 1;
            while b < n
                invariant
                    a < n,
                    a + 1 <= b <= n,
                    a_present == has_char(ms, a as int),
                    ms == chapter.mentions@,
                    chapter == chapters@[t as int],
                    t < chapters@.len(),
                    prefix == chapters@.take(t as int),
                    present@.len() == n,
                    forall|c: int| 0 <= c < n ==> (#[trigger] present@[c]) == has_char(ms, c),
                    weights@.len() == n,
                    co@.len() == n,
                    forall|x: int| 0 <= x < n ==> (#[trigger] weights@[x])@.len() == n,
                    forall|x: int| 0 <= x < n ==> (#[trigger] co@[x])@.len() == n,
                    forall|x: int, y: int|
                        0 <= x < y < n && (x < a || (x == a && y < b)) ==> (
                        #[trigger] weights@[x]@[y]) as int == sat64(
                            pair_weight(prefix, x, y, window as int, base as int) + copres_w(
                                ms,
                                x,
                                y,
                            ),
                        ),
                    forall|x: int, y: int|
                        0 <= x < y < n && !(x < a || (x == a && y < b)) ==> (
                        #[trigger] weights@[x]@[y]) as int == sat64(
                            pair_weight(prefix, x, y, window as int, base as int),
                        ),
                    forall|x: int, y: int|
                        0 <= x < y < n && (x < a || (x == a && y < b)) ==> (#[trigger] co@[x]@[y])
                            == (ever_copresent(prefix, x, y) || (has_char(ms, x) && has_char(
                            ms,
                            y,
                        ))),
                    forall|x: int, y: int|
                        0 <= x < y < n && !(x < a || (x == a && y < b)) ==> (#[trigger] co@[x]@[y])
                            == ever_copresent(prefix, x, y),
                decreases n - b,
            {
                let ghost old_w = weights@;
                let ghost old_co = co@;
                if a_present && present[b] {
                    let cur = weights[a][b];
                    weights[a][b] = sat_add64(cur, 1000);
                    co[a][b] = true;
                }
                proof {
                    if !(a_present && present@[b as int]) {
                        assert(copres_w(ms, a as int, b as int) == 0);
                    } else {
                        assert(copres_w(ms, a as int, b as int) == 1000);
                    }
                    assert forall|x: int, y: int|
                        0 <= x < y < n && (x < a || (x == a && y < b + 1)) implies (
                    #[trigger] weights@[x]@[y]) as int == sat64(
                        pair_weight(prefix, x, y, window as int, base as int) + copres_w(ms, x, y),
                    ) by {
                        if x != a {
                            assert(weights@[x] == old_w[x]);
                        } else if y != b {
                            assert(weights@[a as int]@[y] == old_w[a as int]@[y]);
                        }
                    }
                    assert forall|x: int, y: int|
                        0 <= x < y < n && !(x < a || (x == a && y < b + 1)) implies (
                    #[trigger] weights@[x]@[y]) as int == sat64(
                        pair_weight(prefix, x, y, window as int, base as int),
                    ) by {
                        if x != a {
                            assert(weights@[x] == old_w[x]);
                        } else {
                            assert(weights@[a as int]@[y] == old_w[a as int]@[y]);
                        }
                    }
                    assert forall|x: int, y: int|
                        0 <= x < y < n && (x < a || (x == a && y < b + 1)) implies (
                    #[trigger] co@[x]@[y]) == (ever_copresent(prefix, x, y) || (has_char(ms, x)
                        && has_char(ms, y))) by {
                        if x != a {
                            assert(co@[x] == old_co[x]);
                        } else if y != b {
                            assert(co@[a as int]@[y] == old_co[a as int]@[y]);
                        }
                    }
                    assert forall|x: int, y: int|
                        0 <= x < y < n && !(x < a || (x == a && y < b + 1)) implies (
                    #[trigger] co@[x]@[y]) == ever_copresent(prefix, x, y) by {
                        if x != a {
                            assert(co@[x] == old_co[x]);
                        } else {
                            assert(co@[a as int]@[y] == old_co[a as int]@[y]);
                        }
                    }
                }
                b = b + 1;
            }
            a = a + 1;
        }

        // proximity bonuses over mention pairs
        let mut j2: usize = 0;
        proof {
            assert(ms.take(0) =~= Seq::<Mention>::empty());
            assert(forall|x: int, y: int|
                0 <= x < y < n ==> prox_sum(ms.take(0), x, y, window as int, base as int) == 0);
        }
        while j2 < chapter.mentions.len()
            invariant
                j2 <= ms.len(),
                ms == chapter.mentions@,
                chapter == chapters@[t as int],
                t < chapters@.len(),
                prefix == chapters@.take(t as int),
                weights@.len() == n,
                co@.len() == n,
                forall|x: int| 0 <= x < n ==> (#[trigger] weights@[x])@.len() == n,
                forall|x: int| 0 <= x < n ==> (#[trigger] co@[x])@.len() == n,
                forall|x: int, y: int|
                    0 <= x < y < n ==> (#[trigger] weights@[x]@[y]) as int == sat64(
                        pair_weight(prefix, x, y, window as int, base as int) + copres_w(ms, x, y)
                            + prox_sum(ms.take(j2 as int), x, y, window as int, base as int),
                    ),
                forall|x: int, y: int|
                    0 <= x < y < n ==> (#[trigger] co@[x]@[y]) == (ever_copresent(prefix, x, y) || (
                    has_char(ms, x) && has_char(ms, y))),
            decreases ms.len() - j2,
        {
            let mj = chapter.mentions[j2];
            let mut i: usize = 0;
            proof {
                assert(ms.take(0) =~= Seq::<Mention>::empty());
                assert(ms.take(j2 + 1) =~= ms.take(j2 as int).push(mj));
                assert(forall|x: int, y: int|
                    0 <= x < y < n ==> prox_one(ms.take(0), mj, x, y, window as int, base as int)
                        == 0);
            }
            while i < j2
                invariant
                    i <= j2 < ms.len(),
                    mj == ms[j2 as int],
                    ms == chapter.mentions@,
                    chapter == chapters@[t as int],
                    t < chapters@.len(),
                    prefix == chapters@.take(t as int),
                    weights@.len() == n,
                    co@.len() == n,
                    forall|x: int| 0 <= x < n ==> (#[trigger] weights@[x])@.len() == n,
                    forall|x: int| 0 <= x < n ==> (#[trigger] co@[x])@.len() == n,
                    forall|x: int, y: int|
                        0 <= x < y < n ==> (#[trigger] weights@[x]@[y]) as int == sat64(
                            pair_weight(prefix, x, y, window as int, base as int) + copres_w(
                                ms,
                                x,
                                y,
                            ) + prox_sum(ms.take(j2 as int), x, y, window as int, base as int)
                                + prox_one(ms.take(i as int), mj, x, y, window as int, base as int),
                        ),
                    forall|x: int, y: int|
                        0 <= x < y < n ==> (#[trigger] co@[x]@[y]) == (ever_copresent(prefix, x, y)
                            || (has_char(ms, x) && has_char(ms, y))),
                decreases j2 - i,
            {
                let mi = chapter.mentions[i];
                proof {
                    assert(ms.take(i + 1) =~= ms.take(i as int).push(mi));
                }
                let ghost old_w = weights@;
                if mi.character < n && mj.character < n && mi.character != mj.character {
                    let d = if mi.word_index >= mj.word_index {
                        mi.word_index - mj.word_index
                    } else {
                        mj.word_index - mi.word_index
                    };
                    let bonus = proximity_bonus(d, window, base);
                    let (lo, hi) = if mi.character < mj.character {
                        (mi.character, mj.character)
                    } else {
                        (mj.character, mi.character)
                    };
                    let cur = weights[lo][hi];
                    weights[lo][hi] = sat_add64(cur, bonus);
                    proof {
                        assert(sat64(cur + bonus) == sat64(
                            pair_weight(prefix, lo as int, hi as int, window as int, base as int)
                                + copres_w(ms, lo as int, hi as int) + prox_sum(
                                ms.take(j2 as int),
                                lo as int,
                                hi as int,
                                window as int,
                                base as int,
                            ) + prox_one(
                                ms.take(i as int),
                                mj,
                                lo as int,
                                hi as int,
                                window as int,
                                base as int,
                            ) + pair_bonus(mi, mj, lo as int, hi as int, window as int, base as int),
                        ));
                    }
                }
                proof {
                    assert forall|x: int, y: int| 0 <= x < y < n implies (
                    #[trigger] weights@[x]@[y]) as int == sat64(
                        pair_weight(prefix, x, y, window as int, base as int) + copres_w(ms, x, y)
                            + prox_sum(ms.take(j2 as int), x, y, window as int, base as int)
                            + prox_one(ms.take(i + 1), mj, x, y, window as int, base as int),
                    ) by {
                        lemma_prox_one_push(ms.take(i as int), mi, mj, x, y, window as int, base as int);
                        if !(mi.character < n && mj.character < n && mi.character != mj.character
                            && ((x == mi.character && y == mj.character) || (x == mj.character && y
                            == mi.character))) {
                            assert(pair_bonus(mi, mj, x, y, window as int, base as int) == 0);
                            if mi.character < n && mj.character < n && mi.character
                                != mj.character {
                                let lo_g = if mi.character < mj.character {
                                    mi.character as int
                                } else {
                                    mj.character as int
                                };
                                if x != lo_g {
                                    assert(weights@[x] == old_w[x]);
                                } else {
                                    assert(weights@[x]@[y] == old_w[x]@[y]);
                                }
                            } else {
                                assert(weights@[x] == old_w[x]);
                            }
                        }
                    }
                }
                i = i + 1;
            }
            proof {
                assert forall|x: int, y: int| 0 <= x < y < n implies (#[trigger] weights@[x]@[y]) as int
                    == sat64(
                    pair_weight(prefix, x, y, window as int, base as int) + copres_w(ms, x, y)
                        + prox_sum(ms.take(j2 + 1), x, y, window as int, base as int),
                ) by {
                    lemma_prox_sum_push(ms.take(j2 as int), mj, x, y, window as int, base as int);
                }
            }
            j2 = j2 + 1;
        }
        proof {
            assert(ms.take(ms.len() as int) =~= ms);
            assert(chapters@.take(t + 1) =~= prefix.push(chapters@[t as int]));
            assert forall|x: int, y: int| 0 <= x < y < n implies (#[trigger] weights@[x]@[y]) as int
                == sat64(
                pair_weight(chapters@.take(t + 1), x, y, window as int, base as int),
            ) by {
                lemma_pair_weight_push(prefix, chapters@[t as int], x, y, window as int, base as int);
            }
            assert forall|x: int, y: int| 0 <= x < y < n implies (#[trigger] co@[x]@[y])
                == ever_copresent(chapters@.take(t + 1), x, y) by {
                lemma_ever_copresent_push(prefix, chapters@[t as int], x, y);
            }
        }
        t = t + 1;
    }
    proof {
        assert(chapters@.take(chapters@.len() as int) =~= chapters@);
    }
    (weights, co)
}

/// The co-presence milli-weight one chapter's mention list gives a pair.
pub open spec fn copres_w(ms: Seq<Mention>, a: int, b: int) -> int {
    if has_char(ms, a) && has_char(ms, b) {
        1000
    } else {
        0
    }
}

/// Unfolds one cell of the pair grid.
proof fn lemma_edge_pairs_step(
    cs: Seq<ChapterScan>,
    n: int,
    window: int,
    base: int,
    prune: int,
    a: int,
    b: int,
)
    requires
        0 <= a,
        0 <= b < n,
    ensures
        edge_pairs_upto(cs, n, window, base, prune, a * n + b + 1) == edge_pairs_upto(
            cs,
            n,
            window,
            base,
            prune,
            a * n + b,
        ) + if a < b && pair_qualifies(cs, a, b, window, base, prune) {
            seq![(a, b)]
        } else {
            Seq::<(int, int)>::empty()
        },
{
    let t = a * n + b + 1;
    vstd::arithmetic::div_mod::lemma_fundamental_div_mod_converse(t - 1, n, a, b);
    assert((t - 1) / n == a);
    assert((t - 1) % n == b);
}

/// Appending a pair extends pair membership by its two ends.
proof fn lemma_in_pairs_push(pairs: Seq<(int, int)>, p: (int, int), c: int)
    ensures
        in_pairs(pairs.push(p), c) == (in_pairs(pairs, c) || p.0 == c || p.1 == c),
{
    if in_pairs(pairs, c) {
        let k = choose|k: int|
            0 <= k < pairs.len() && ((#[trigger] pairs[k]).0 == c || pairs[k].1 == c);
        assert(pairs.push(p)[k] == pairs[k]);
    }
    if p.0 == c || p.1 == c {
        assert(pairs.push(p)[pairs.len() as int] == p);
    }
    if in_pairs(pairs.push(p), c) {
        let k = choose|k: int|
            0 <= k < pairs.push(p).len() && ((#[trigger] pairs.push(p)[k]).0 == c || pairs.push(
                p,
            )[k].1 == c);
        if k < pairs.len() {
            assert(pairs[k] == pairs.push(p)[k]);
        }
    }
}

/// A deduplication is never longer than its source.
proof fn lemma_dedup_len(p: Seq<int>)
    ensures
        dedup_first(p).len() <= p.len(),
    decreases p.len(),
{
    if p.len() > 0 {
        lemma_dedup_len(p.drop_last());
    }
}

/// Unfolds one entry of the running maximum over component sizes.
proof fn lemma_largest_over_step(p: Seq<int>, roots: Seq<int>, k: int)
    requires
        0 <= k < roots.len(),
    ensures
        largest_over(p, roots.take(k + 1)) == ({
            let rest = largest_over(p, roots.take(k));
            let c = count_eq(p, roots[k]) as int;
            if c > rest {
                c
            } else {
                rest
            }
        }),
{
    assert(roots.take(k + 1).drop_last() =~= roots.take(k));
    assert(roots.take(k + 1).last() == roots[k]);
}

/// The prune threshold rule and connectivity metrics of an analysis result,
/// relative to the scanned chapters.
pub open spec fn max_pairs(n: int) -> int {
    if n > 1 {
        n * (n - 1) / 2
    } else {
        1
    }
}

/// The graph payload `p` is exactly the analysis of `chapters` against the
/// roster `characters` with the given proximity window, base bonus and
/// prune threshold (all weights in milli-units, saturating at their type's
/// maximum).
pub open spec fn payload_matches(
    characters: Seq<Character>,
    cs: Seq<ChapterScan>,
    window: int,
    base: int,
    prune: int,
    p: CharacterGraphPayload,
) -> bool {
    let n = characters.len() as int;
    let pairs = edge_pairs(cs, n, window, base, prune);
    let reps = uf_fold(n, pairs);
    &&& p.nodes@.len() == n
    &&& forall|c: int|
        0 <= c < n ==> {
            let node = #[trigger] p.nodes@[c];
            &&& node.id@ == characters[c].id@
            &&& node.label@ == characters[c].name@
            &&& node.mention_count as int == sat32(total_count(cs, c))
            &&& node.is_mapped == (total_count(cs, c) > 0)
            &&& (match node.first_mention {
                Option::None => first_mention_of(cs, c) is None,
                Option::Some(loc) => first_mention_of(cs, c) == Some(
                    (loc.chapter_id@, loc.char_offset as int),
                ),
            })
        }
    &&& p.edges@.len() == pairs.len()
    &&& forall|k: int|
        0 <= k < pairs.len() ==> {
            let edge = #[trigger] p.edges@[k];
            let (a, b) = pairs[k];
            &&& edge.source@ == characters[a].id@
            &&& edge.target@ == characters[b].id@
            &&& edge.weight as int == sat64(pair_weight(cs, a, b, window, base))
            &&& edge.interaction_type == (if ever_copresent(cs, a, b) {
                InteractionType::CoPresence
            } else {
                InteractionType::Reference
            })
        }
    &&& p.metrics.connected_components as int == sat32(dedup_first(reps).len() as int)
    &&& p.metrics.largest_component_size as int == sat32(largest_component(reps))
    &&& p.metrics.isolation_ratio == (Ratio {
        num: isolated_below(pairs, n) as u64,
        den: (if n > 0 {
            n
        } else {
            1
        }) as u64,
    })
    &&& p.metrics.network_density.num as int == pairs.len()
    &&& p.metrics.network_density.den as int == sat64(max_pairs(n))
}

/// The proximity base bonus selected by an optional weight configuration.
pub open spec fn base_of(w: Option<GraphWeights>) -> int {
    match w {
        Option::Some(w) => w.base_proximity_bonus as int,
        Option::None => 100,
    }
}

/// Builds the interaction graph: one node per roster entry with its mention
/// count and first mention; one edge per character pair whose accumulated
/// weight is positive and reaches `prune_threshold` (milli-units); and the
/// connectivity metrics derived from the retained edges.
pub fn build_character_graph(
    characters: &Vec<Character>,
    chapters: &Vec<ChapterScan>,
    proximity_window: usize,
    prune_threshold: u64,
    custom_weights: Option<GraphWeights>,
) -> (r: CharacterGraphPayload)
    ensures
        payload_matches(
            characters@,
            chapters@,
            proximity_window as int,
            base_of(custom_weights),
            prune_threshold as int,
            r,
        ),
{
    let n = characters.len();
    let base: u64 = match custom_weights {
        Option::Some(w) => w.base_proximity_bonus,
        Option::None => 100,
    };
    let ghost gw = proximity_window as int;
    let ghost gb = base as int;
    let ghost gp = prune_threshold as int;
    let ghost cs = chapters@;

    let (counts, first) = tally_counts(n, chapters);
    let (weights, co) = accumulate_weights(n, chapters, proximity_window, base);

    // nodes, in roster order
    let mut nodes: Vec<GraphNode> = Vec::new();
    let mut c: usize = 0;
    while c < n
        invariant
            c <= n,
            n == characters@.len(),
            counts@.len() == n,
            first@.len() == n,
            forall|x: int|
                0 <= x < n ==> (#[trigger] counts@[x]) as int == sat32(total_count(cs, x)),
            forall|x: int|
                0 <= x < n ==> (match #[trigger] first@[x] {
                    Option::None => first_mention_of(cs, x) is None,
                    Option::Some(loc) => first_mention_of(cs, x) == Some(
                        (loc.chapter_id@, loc.char_offset as int),
                    ),
                }),
            cs == chapters@,
            nodes@.len() == c,
            forall|x: int|
                0 <= x < c ==> {
                    let node = #[trigger] nodes@[x];
                    &&& node.id@ == characters@[x].id@
                    &&& node.label@ == characters@[x].name@
                    &&& node.mention_count as int == sat32(total_count(cs, x))
                    &&& node.is_mapped == (total_count(cs, x) > 0)
                    &&& (match node.first_mention {
                        Option::None => first_mention_of(cs, x) is None,
                        Option::Some(loc) => first_mention_of(cs, x) == Some(
                            (loc.chapter_id@, loc.char_offset as int),
                        ),
                    })
                },
        decreases n - c,
    {
        let count = counts[c];
        let fm = clone_first(&first, c);
        nodes.push(
            GraphNode {
                id: clone_bytes(&characters[c].id),
                label: clone_bytes(&characters[c].name),
                mention_count: count,
                is_mapped: count > 0,
                first_mention: fm,
            },
        );
        c = c + 1;
    }

    // edges, in lexicographic pair order, with a disjoint-set union over them
    let mut edges: Vec<GraphEdge> = Vec::new();
    let mut uf = UnionFind::new(n);
    let mut connected: Vec<bool> = Vec::new();
    let mut c2: usize = 0;
    while c2 < n
        invariant
            c2 <= n,
            connected@.len() == c2,
            forall|x: int| 0 <= x < c2 ==> (#[trigger] connected@[x]) == false,
        decreases n - c2,
    {
        connected.push(false);
        c2 = c2 + 1;
    }
    proof {
        assert(edge_pairs_upto(cs, n as int, gw, gb, gp, 0) =~= Seq::<(int, int)>::empty());
        assert(uf.reps() =~= uf_fold(n as int, edge_pairs_upto(cs, n as int, gw, gb, gp, 0)));
    }
    let mut a: usize = 0;
    while a < n
        invariant
            a <= n,
            n == characters@.len(),
            cs == chapters@,
            gw == proximity_window as int,
            gb == base as int,
            gp == prune_threshold as int,
            weights@.len() == n,
            co@.len() == n,
            forall|x: int| 0 <= x < n ==> (#[trigger] weights@[x])@.len() == n,
            forall|x: int| 0 <= x < n ==> (#[trigger] co@[x])@.len() == n,
            forall|x: int, y: int|
                0 <= x < y < n ==> (#[trigger] weights@[x]@[y]) as int == sat64(
                    pair_weight(cs, x, y, gw, gb),
                ),
            forall|x: int, y: int|
                0 <= x < y < n ==> (#[trigger] co@[x]@[y]) == ever_copresent(cs, x, y),
            edge_invariant(
                characters@,
                cs,
                gw,
                gb,
                gp,
                edges@,
                uf,
                connected@,
                (a * n) as int,
            ),
        decreases n - a,
    {
        let mut b: usize = 0;
        while b < n
            invariant
                a < n,
                b <= n,
                n == characters@.len(),
                cs == chapters@,
                gw == proximity_window as int,
                gb == base as int,
                gp == prune_threshold as int,
                weights@.len() == n,
                co@.len() == n,
                forall|x: int| 0 <= x < n ==> (#[trigger] weights@[x])@.len() == n,
                forall|x: int| 0 <= x < n ==> (#[trigger] co@[x])@.len() == n,
                forall|x: int, y: int|
                    0 <= x < y < n ==> (#[trigger] weights@[x]@[y]) as int == sat64(
                        pair_weight(cs, x, y, gw, gb),
                    ),
                forall|x: int, y: int|
                    0 <= x < y < n ==> (#[trigger] co@[x]@[y]) == ever_copresent(cs, x, y),
                edge_invariant(
                    characters@,
                    cs,
                    gw,
                    gb,
                    gp,
                    edges@,
                    uf,
                    connected@,
                    (a * n + b) as int,
                ),
            decreases n - b,
        {
            let ghost t = (a * n + b) as int;
            let ghost pairs_pre = edge_pairs_upto(cs, n as int, gw, gb, gp, t);
            proof {
                lemma_edge_pairs_step(cs, n as int, gw, gb, gp, a as int, b as int);
            }
            if b > a {
                let w = weights[a][b];
                proof {
                    assert(weights@[a as int]@[b as int] as int == sat64(
                        pair_weight(cs, a as int, b as int, gw, gb),
                    ));
                }
                if w > 0 && w >= prune_threshold {
                    let is_co = co[a][b];
                    edges.push(
                        GraphEdge {
                            source: clone_bytes(&characters[a].id),
                            target: clone_bytes(&characters[b].id),
                            weight: w,
                            interaction_type: if is_co {
                                InteractionType::CoPresence
                            } else {
                                InteractionType::Reference
                            },
                        },
                    );
                    uf.union(a, b);
                    let ghost old_connected = connected@;
                    connected[a] = true;
                    connected[b] = true;
                    proof {
                        let pairs_new = pairs_pre.push((a as int, b as int));
                        assert(pair_qualifies(cs, a as int, b as int, gw, gb, gp));
                        assert(edge_pairs_upto(cs, n as int, gw, gb, gp, t + 1) =~= pairs_new);
                        assert(pairs_new.drop_last() =~= pairs_pre);
                        assert(uf.reps() =~= uf_merge(
                            uf_fold(n as int, pairs_pre),
                            a as int,
                            b as int,
                        ));
                        assert forall|x: int| 0 <= x < n implies (#[trigger] connected@[x])
                            == in_pairs(pairs_new, x) by {
                            lemma_in_pairs_push(pairs_pre, (a as int, b as int), x);
                            if x != a && x != b {
                                assert(connected@[x] == old_connected[x]);
                            }
                        }
                    }
                } else {
                    proof {
                        assert(!pair_qualifies(cs, a as int, b as int, gw, gb, gp));
                        assert(edge_pairs_upto(cs, n as int, gw, gb, gp, t + 1) =~= pairs_pre);
                    }
                }
            } else {
                proof {
                    assert(edge_pairs_upto(cs, n as int, gw, gb, gp, t + 1) =~= pairs_pre);
                }
            }
            b = b + 1;
        }
        a = a + 1;
        proof {
            assert((a - 1) * n + n == a * n) by (nonlinear_arith);
        }
    }
    let ghost pairs = edge_pairs(cs, n as int, gw, gb, gp);
    proof {
        assert((n * n) as int == (n as int) * (n as int)) by (nonlinear_arith);
        assert(pairs == edge_pairs_upto(cs, n as int, gw, gb, gp, (n * n) as int));
    }

    // metrics
    let ghost reps = uf_fold(n as int, pairs);
    let sizes = uf.component_sizes();
    proof {
        lemma_dedup_len(reps);
    }
    let comp_count: u32 = if sizes.len() > u32::MAX as usize {
        u32::MAX
    } else {
        sizes.len() as u32
    };
    let mut largest: u32 = 0;
    let mut k: usize = 0;
    proof {
        assert(dedup_first(reps).take(0) =~= Seq::<int>::empty());
    }
    while k < sizes.len()
        invariant
            k <= sizes@.len(),
            reps == uf_fold(n as int, pairs),
            sizes@.len() == dedup_first(reps).len(),
            forall|j: int|
                0 <= j < sizes@.len() ==> ({
                    let cj = count_eq(reps, dedup_first(reps)[j]);
                    (#[trigger] sizes@[j]) == cj || (sizes@[j] == u32::MAX && cj > u32::MAX)
                }),
            largest as int == sat32(largest_over(reps, dedup_first(reps).take(k as int))),
        decreases sizes@.len() - k,
    {
        let s = sizes[k];
        proof {
            lemma_largest_over_step(reps, dedup_first(reps), k as int);
        }
        if s > largest {
            largest = s;
        }
        k = k + 1;
    }
    proof {
        assert(dedup_first(reps).take(dedup_first(reps).len() as int) =~= dedup_first(reps));
    }

    let mut iso: usize = 0;
    let mut c3: usize = 0;
    while c3 < n
        invariant
            c3 <= n,
            iso <= c3,
            n == characters@.len(),
            connected@.len() == n,
            forall|x: int| 0 <= x < n ==> (#[trigger] connected@[x]) == in_pairs(pairs, x),
            iso as int == isolated_below(pairs, c3 as int),
        decreases n - c3,
    {
        if !connected[c3] {
            iso = iso + 1;
        }
        c3 = c3 + 1;
    }

    let den_iso: u64 = if n > 0 {
        n as u64
    } else {
        1
    };
    let max_e: u64 = if n > 1 {
        proof {
            assert((n as int) * ((n - 1) as int) < u128::MAX) by (nonlinear_arith)
                requires
                    n <= u64::MAX,
            ;
        }
        let wide: u128 = (n as u128) * ((n - 1) as u128) / 2;
        if wide > u64::MAX as u128 {
            u64::MAX
        } else {
            wide as u64
        }
    } else {
        1
    };

    let metrics = GraphMetrics {
        network_density: Ratio { num: edges.len() as u64, den: max_e },
        connected_components: comp_count,
        largest_component_size: largest,
        isolation_ratio: Ratio { num: iso as u64, den: den_iso },
    };
    CharacterGraphPayload { nodes, edges, metrics }
}

/// The running state of the edge construction after the first `t` cells of
/// the pair grid: the edges, the disjoint-set state and the connectivity
/// flags all reflect the qualifying pairs seen so far.
pub open spec fn edge_invariant(
    characters: Seq<Character>,
    cs: Seq<ChapterScan>,
    window: int,
    base: int,
    prune: int,
    edges: Seq<GraphEdge>,
    uf: UnionFind,
    connected: Seq<bool>,
    t: int,
) -> bool {
    let n = characters.len() as int;
    let pairs = edge_pairs_upto(cs, n, window, base, prune, t);
    &&& edges.len() == pairs.len()
    &&& forall|k: int|
        0 <= k < pairs.len() ==> {
            let edge = #[trigger] edges[k];
            let (a, b) = pairs[k];
            &&& edge.source@ == characters[a].id@
            &&& edge.target@ == characters[b].id@
            &&& edge.weight as int == sat64(pair_weight(cs, a, b, window, base))
            &&& edge.interaction_type == (if ever_copresent(cs, a, b) {
                InteractionType::CoPresence
            } else {
                InteractionType::Reference
            })
        }
    &&& uf.wf()
    &&& uf.len() == n
    &&& uf.reps() == uf_fold(n, pairs)
    &&& connected.len() == n
    &&& forall|x: int| 0 <= x < n ==> (#[trigger] connected[x]) == in_pairs(pairs, x)
}

/// An analysis of an empty roster yields zero nodes, zero edges and zero
/// connected components, whatever the chapters hold.
pub proof fn lemma_empty_roster_graph(
    characters: Seq<Character>,
    cs: Seq<ChapterScan>,
    window: int,
    base: int,
    prune: int,
    p: CharacterGraphPayload,
)
    requires
        characters.len() == 0,
        payload_matches(characters, cs, window, base, prune, p),
    ensures
        p.nodes@.len() == 0,
        p.edges@.len() == 0,
        p.metrics.connected_components == 0,
{
    assert(edge_pairs(cs, 0, window, base, prune) =~= Seq::<(int, int)>::empty());
    assert(uf_fold(0, edge_pairs(cs, 0, window, base, prune)) =~= Seq::<int>::empty());
    assert(dedup_first(Seq::<int>::empty()) =~= Seq::<int>::empty());
}

/// If no chapter mentions character `c`, its total count is zero.
pub proof fn lemma_total_count_zero(cs: Seq<ChapterScan>, c: int)
    requires
        forall|k: int| 0 <= k < cs.len() ==> cnt_in((#[trigger] cs[k]).mentions@, c) == 0,
    ensures
        total_count(cs, c) == 0,
    decreases cs.len(),
{
    if cs.len() > 0 {
        assert(cs.drop_last() =~= cs.drop_last());
        assert(forall|k: int|
            0 <= k < cs.drop_last().len() ==> cnt_in(
                (#[trigger] cs.drop_last()[k]).mentions@,
                c,
            ) == 0);
        lemma_total_count_zero(cs.drop_last(), c);
        assert(total_count(cs, c) == total_count(cs.drop_last(), c) + cnt_in(cs.last().mentions@, c));
    }
}

/// A character mentioned in no chapter comes out with mention count zero
/// and is not mapped.
pub proof fn lemma_unmentioned_character(
    characters: Seq<Character>,
    cs: Seq<ChapterScan>,
    window: int,
    base: int,
    prune: int,
    p: CharacterGraphPayload,
    c: int,
)
    requires
        payload_matches(characters, cs, window, base, prune, p),
        0 <= c < characters.len(),
        forall|k: int| 0 <= k < cs.len() ==> cnt_in((#[trigger] cs[k]).mentions@, c) == 0,
    ensures
        p.nodes@[c].mention_count == 0,
        !p.nodes@[c].is_mapped,
{
    lemma_total_count_zero(cs, c);
}

/// The proximity bonus is never negative.
pub proof fn lemma_bonus_nonneg(distance: int, window: int, base: int)
    requires
        base >= 0,
    ensures
        bonus_value(distance, window, base) >= 0,
{
    if 0 < distance <= window {
        vstd::arithmetic::div_mod::lemma_div_pos_is_pos(base * window, distance);
        assert(base * window >= 0) by (nonlinear_arith)
            requires
                base >= 0 && window > 0,
        ;
    }
}

/// The proximity bonus decays as distance grows: of two positive distances,
/// the smaller one never earns less, and any distance beyond the window
/// earns nothing.
pub proof fn lemma_bonus_decays(d1: int, d2: int, window: int, base: int)
    requires
        0 < d1 <= d2,
        base >= 0,
    ensures
        bonus_value(d1, window, base) >= bonus_value(d2, window, base),
        d2 > window ==> bonus_value(d2, window, base) == 0,
{
    if d2 <= window {
        vstd::arithmetic::div_mod::lemma_div_is_ordered_by_denominator(base * window, d1, d2);
    } else {
        lemma_bonus_nonneg(d1, window, base);
    }
}

/// The per-chapter accumulators are commutative, so shuffling the chapter
/// order changes no total count.
proof fn lemma_total_count_permuted(cs1: Seq<ChapterScan>, cs2: Seq<ChapterScan>, ch: int)
    requires
        cs1.to_multiset() == cs2.to_multiset(),
    ensures
        total_count(cs1, ch) == total_count(cs2, ch),
{
    let f = |acc: int, c: ChapterScan| acc + cnt_in(c.mentions@, ch);
    assert(vstd::seq_lib::commutative_foldl(f)) by {
        assert(forall|x: ChapterScan, y: ChapterScan, v: int| #[trigger] f(f(v, x), y) == f(f(v, y), x));
    }
    vstd::seq_lib::lemma_fold_left_permutation(cs1, cs2, f, 0int);
}

/// Shuffling the chapter order changes no pair weight.
proof fn lemma_pair_weight_permuted(
    cs1: Seq<ChapterScan>,
    cs2: Seq<ChapterScan>,
    a: int,
    b: int,
    window: int,
    base: int,
)
    requires
        cs1.to_multiset() == cs2.to_multiset(),
    ensures
        pair_weight(cs1, a, b, window, base) == pair_weight(cs2, a, b, window, base),
{
    let f = |acc: int, c: ChapterScan| acc + chapter_weight(c, a, b, window, base);
    assert(vstd::seq_lib::commutative_foldl(f)) by {
        assert(forall|x: ChapterScan, y: ChapterScan, v: int| #[trigger] f(f(v, x), y) == f(f(v, y), x));
    }
    vstd::seq_lib::lemma_fold_left_permutation(cs1, cs2, f, 0int);
}

/// Shuffling the chapter order changes no co-presence fact.
proof fn lemma_copresent_permuted(cs1: Seq<ChapterScan>, cs2: Seq<ChapterScan>, a: int, b: int)
    requires
        cs1.to_multiset() == cs2.to_multiset(),
    ensures
        ever_copresent(cs1, a, b) == ever_copresent(cs2, a, b),
{
    broadcast use vstd::seq_lib::group_to_multiset_ensures;

    assert forall|x: ChapterScan| cs1.contains(x) <==> cs2.contains(x) by {
        assert(cs1.contains(x) <==> cs1.to_multiset().count(x) > 0);
        assert(cs2.contains(x) <==> cs2.to_multiset().count(x) > 0);
    }
}

/// Equal pair weights and co-presence facts give the same qualifying pair
/// list.
proof fn lemma_edge_pairs_same(
    cs1: Seq<ChapterScan>,
    cs2: Seq<ChapterScan>,
    n: int,
    window: int,
    base: int,
    prune: int,
    t: int,
)
    requires
        forall|a: int, b: int|
            pair_weight(cs1, a, b, window, base) == pair_weight(cs2, a, b, window, base),
    ensures
        edge_pairs_upto(cs1, n, window, base, prune, t) == edge_pairs_upto(
            cs2,
            n,
            window,
            base,
            prune,
            t,
        ),
    decreases t,
{
    if t > 0 {
        lemma_edge_pairs_same(cs1, cs2, n, window, base, prune, t - 1);
    }
}

/// Law of order independence: shuffling the order in which chapters are
/// aggregated (any permutation, hence any concurrent completion order)
/// changes no node count, no mapped flag, no edge, and no metric of the
/// resulting graph.
pub proof fn lemma_analysis_order_independent(
    characters: Seq<Character>,
    cs1: Seq<ChapterScan>,
    cs2: Seq<ChapterScan>,
    window: int,
    base: int,
    prune: int,
    p1: CharacterGraphPayload,
    p2: CharacterGraphPayload,
)
    requires
        cs1.to_multiset() == cs2.to_multiset(),
        payload_matches(characters, cs1, window, base, prune, p1),
        payload_matches(characters, cs2, window, base, prune, p2),
    ensures
        p1.nodes@.len() == p2.nodes@.len(),
        forall|c: int|
            0 <= c < characters.len() ==> {
                &&& (#[trigger] p1.nodes@[c]).mention_count == p2.nodes@[c].mention_count
                &&& p1.nodes@[c].is_mapped == p2.nodes@[c].is_mapped
                &&& p1.nodes@[c].id@ == p2.nodes@[c].id@
                &&& p1.nodes@[c].label@ == p2.nodes@[c].label@
            },
        p1.edges@.len() == p2.edges@.len(),
        forall|k: int|
            0 <= k < p1.edges@.len() ==> {
                &&& (#[trigger] p1.edges@[k]).source@ == p2.edges@[k].source@
                &&& p1.edges@[k].target@ == p2.edges@[k].target@
                &&& p1.edges@[k].weight == p2.edges@[k].weight
                &&& p1.edges@[k].interaction_type == p2.edges@[k].interaction_type
            },
        p1.metrics == p2.metrics,
{
    let n = characters.len() as int;
    assert forall|c: int| true implies #[trigger] total_count(cs1, c) == total_count(cs2, c) by {
        lemma_total_count_permuted(cs1, cs2, c);
    }
    assert forall|a: int, b: int| true implies #[trigger] pair_weight(cs1, a, b, window, base)
        == pair_weight(cs2, a, b, window, base) by {
        lemma_pair_weight_permuted(cs1, cs2, a, b, window, base);
    }
    assert forall|a: int, b: int| true implies #[trigger] ever_copresent(cs1, a, b)
        == ever_copresent(cs2, a, b) by {
        lemma_copresent_permuted(cs1, cs2, a, b);
    }
    lemma_edge_pairs_same(cs1, cs2, n, window, base, prune, n * n);
    let pairs = edge_pairs(cs1, n, window, base, prune);
    assert(edge_pairs(cs2, n, window, base, prune) == pairs);
    assert(p1.metrics.isolation_ratio == p2.metrics.isolation_ratio);
    assert(p1.metrics.network_density == p2.metrics.network_density);
    assert(p1.metrics.connected_components == p2.metrics.connected_components);
    assert(p1.metrics.largest_component_size == p2.metrics.largest_component_size);
}

/// Two chapter lists carry the same data: equal ids and equal mention
/// lists, position by position.
pub open spec fn chapters_view_equal(cs1: Seq<ChapterScan>, cs2: Seq<ChapterScan>) -> bool {
    &&& cs1.len() == cs2.len()
    &&& forall|k: int|
        0 <= k < cs1.len() ==> (#[trigger] cs1[k]).chapter_id@ == cs2[k].chapter_id@ && cs1[
            k].mentions@ == cs2[k].mentions@
}

proof fn lemma_total_count_congruent(cs1: Seq<ChapterScan>, cs2: Seq<ChapterScan>, ch: int)
    requires
        chapters_view_equal(cs1, cs2),
    ensures
        total_count(cs1, ch) == total_count(cs2, ch),
    decreases cs1.len(),
{
    if cs1.len() > 0 {
        assert(chapters_view_equal(cs1.drop_last(), cs2.drop_last()));
        lemma_total_count_congruent(cs1.drop_last(), cs2.drop_last(), ch);
        assert(cs1.last().mentions@ == cs2.last().mentions@);
    }
}

proof fn lemma_pair_weight_congruent(
    cs1: Seq<ChapterScan>,
    cs2: Seq<ChapterScan>,
    a: int,
    b: int,
    window: int,
    base: int,
)
    requires
        chapters_view_equal(cs1, cs2),
    ensures
        pair_weight(cs1, a, b, window, base) == pair_weight(cs2, a, b, window, base),
    decreases cs1.len(),
{
    if cs1.len() > 0 {
        assert(chapters_view_equal(cs1.drop_last(), cs2.drop_last()));
        lemma_pair_weight_congruent(cs1.drop_last(), cs2.drop_last(), a, b, window, base);
        assert(cs1.last().mentions@ == cs2.last().mentions@);
    }
}

proof fn lemma_copresent_congruent(cs1: Seq<ChapterScan>, cs2: Seq<ChapterScan>, a: int, b: int)
    requires
        chapters_view_equal(cs1, cs2),
    ensures
        ever_copresent(cs1, a, b) == ever_copresent(cs2, a, b),
{
    if ever_copresent(cs1, a, b) {
        let x = choose|x: ChapterScan|
            cs1.contains(x) && has_char(x.mentions@, a) && has_char(x.mentions@, b);
        let k = choose|k: int| 0 <= k < cs1.len() && cs1[k] == x;
        assert(cs2[k].mentions@ == x.mentions@);
        assert(cs2.contains(cs2[k]));
    }
    if ever_copresent(cs2, a, b) {
        let x = choose|x: ChapterScan|
            cs2.contains(x) && has_char(x.mentions@, a) && has_char(x.mentions@, b);
        let k = choose|k: int| 0 <= k < cs2.len() && cs2[k] == x;
        assert(cs1[k].mentions@ == x.mentions@);
        assert(cs1.contains(cs1[k]));
    }
}

proof fn lemma_first_mention_congruent(cs1: Seq<ChapterScan>, cs2: Seq<ChapterScan>, ch: int)
    requires
        chapters_view_equal(cs1, cs2),
    ensures
        first_mention_of(cs1, ch) == first_mention_of(cs2, ch),
    decreases cs1.len(),
{
    if cs1.len() > 0 {
        assert(cs1.first().mentions@ == cs2.first().mentions@);
        assert(cs1.first().chapter_id@ == cs2.first().chapter_id@);
        assert(chapters_view_equal(cs1.drop_first(), cs2.drop_first())) by {
            assert(forall|k: int|
                0 <= k < cs1.len() - 1 ==> (#[trigger] cs1.drop_first()[k]) == cs1[k + 1]
                    && cs2.drop_first()[k] == cs2[k + 1]);
        }
        lemma_first_mention_congruent(cs1.drop_first(), cs2.drop_first(), ch);
    }
}

/// Law of cache transparency: two analyses over chapter inputs that carry
/// the same ids and the same mentions (however they were obtained — scanned
/// afresh or replayed from a cache) produce identical graphs, first
/// mentions included.
pub proof fn lemma_payload_congruent(
    characters: Seq<Character>,
    cs1: Seq<ChapterScan>,
    cs2: Seq<ChapterScan>,
    window: int,
    base: int,
    prune: int,
    p1: CharacterGraphPayload,
    p2: CharacterGraphPayload,
)
    requires
        chapters_view_equal(cs1, cs2),
        payload_matches(characters, cs1, window, base, prune, p1),
        payload_matches(characters, cs2, window, base, prune, p2),
    ensures
        p1.nodes@.len() == p2.nodes@.len(),
        forall|c: int|
            0 <= c < characters.len() ==> {
                &&& (#[trigger] p1.nodes@[c]).mention_count == p2.nodes@[c].mention_count
                &&& p1.nodes@[c].is_mapped == p2.nodes@[c].is_mapped
                &&& p1.nodes@[c].id@ == p2.nodes@[c].id@
                &&& p1.nodes@[c].label@ == p2.nodes@[c].label@
                &&& (p1.nodes@[c].first_mention is None <==> p2.nodes@[c].first_mention is None)
                &&& (p1.nodes@[c].first_mention matches Some(l1) ==> p2.nodes@[c].first_mention
                    matches Some(l2) && l1.chapter_id@ == l2.chapter_id@ && l1.char_offset
                    == l2.char_offset)
            },
        p1.edges@.len() == p2.edges@.len(),
        forall|k: int|
            0 <= k < p1.edges@.len() ==> {
                &&& (#[trigger] p1.edges@[k]).source@ == p2.edges@[k].source@
                &&& p1.edges@[k].target@ == p2.edges@[k].target@
                &&& p1.edges@[k].weight == p2.edges@[k].weight
                &&& p1.edges@[k].interaction_type == p2.edges@[k].interaction_type
            },
        p1.metrics == p2.metrics,
{
    let n = characters.len() as int;
    assert forall|c: int| true implies #[trigger] total_count(cs1, c) == total_count(cs2, c) by {
        lemma_total_count_congruent(cs1, cs2, c);
    }
    assert forall|a: int, b: int| true implies #[trigger] pair_weight(cs1, a, b, window, base)
        == pair_weight(cs2, a, b, window, base) by {
        lemma_pair_weight_congruent(cs1, cs2, a, b, window, base);
    }
    assert forall|a: int, b: int| true implies #[trigger] ever_copresent(cs1, a, b)
        == ever_copresent(cs2, a, b) by {
        lemma_copresent_congruent(cs1, cs2, a, b);
    }
    assert forall|c: int| true implies #[trigger] first_mention_of(cs1, c) == first_mention_of(
        cs2,
        c,
    ) by {
        lemma_first_mention_congruent(cs1, cs2, c);
    }
    lemma_edge_pairs_same(cs1, cs2, n, window, base, prune, n * n);
    assert(p1.metrics.isolation_ratio == p2.metrics.isolation_ratio);
    assert(p1.metrics.network_density == p2.metrics.network_density);
    assert(p1.metrics.connected_components == p2.metrics.connected_components);
    assert(p1.metrics.largest_component_size == p2.metrics.largest_component_size);
}

/// Copies one first-mention slot.
fn clone_first(first: &Vec<Option<MentionLocation>>, c: usize) -> (r: Option<MentionLocation>)
    requires
        c < first@.len(),
    ensures
        (match r {
            Option::None => first@[c as int] is None,
            Option::Some(loc) => first@[c as int] matches Some(l) && l.chapter_id@ == loc.chapter_id@
                && l.char_offset == loc.char_offset,
        }),
{
    match &first[c] {
        Option::None => None,
        Option::Some(loc) => Some(
            MentionLocation {
                chapter_id: clone_bytes(&loc.chapter_id),
                char_offset: loc.char_offset,
            },
        ),
    }
}

/// Copies a byte string.
pub fn clone_bytes(v: &Vec<u8>) -> (r: Vec<u8>)
    ensures
        r@ == v@,
{
    let mut out: Vec<u8> = Vec::new();
    let mut i: usize = 0;
    while i < v.len()
        invariant
            i <= v@.len(),
            out@ =~= v@.take(i as int),
        decreases v@.len() - i,
    {
        out.push(v[i]);
        i = i + 1;
    }
    proof {
        assert(v@.take(v@.len() as int) =~= v@);
    }
    out
}

} // verus!
