//! The pattern scanner: compiles the roster's names, aliases, tag forms and
//! machine-reference forms into one multi-pattern automaton, and scans
//! chapter text for character mentions in a single pass.
//!
//! The automaton itself comes from the `aho_corasick` crate and is trusted;
//! everything around it — pattern compilation, the word-boundary filter and
//! the mention list — is verified against the contracts stated on the
//! trusted items below.

use vstd::prelude::*;
use crate::models::{Character, CharacterIdent, roster_idents};
use crate::text::{eq_ignore_case, lower_bytes, to_lower_bytes};
use crate::text::{cont_byte, word_char_at, word_char_at_exec, word_char_before, word_char_before_exec, ws_at, ws_at_exec};

verus! {

#[verifier::external_type_specification]
#[verifier::external_body]
pub struct ExAhoCorasick(aho_corasick::AhoCorasick);

/// The list of patterns an automaton was built from, in order.
pub uninterp spec fn ac_patterns(ac: aho_corasick::AhoCorasick) -> Seq<Seq<u8>>;

/// The matches that an ASCII-case-insensitive, leftmost-longest,
/// non-overlapping search for `patterns` finds in `text`: triples of
/// (pattern index, start offset, end offset), in match order.
///
/// The automaton's configuration is not an argument of this name; that is
/// sound because every automaton in this crate comes from `ac_build` (or a
/// clone of its result), which fixes one configuration.
pub uninterp spec fn ac_hits(patterns: Seq<Seq<u8>>, text: Seq<u8>) -> Seq<(int, int, int)>;

/// Whether the automaton builder accepts this pattern set. Build success
/// depends on the patterns alone (the builder's size limits are fixed
/// constants), so it can be named.
pub uninterp spec fn ac_buildable(patterns: Seq<Seq<u8>>) -> bool;

/// Relies on `AhoCorasick::builder().ascii_case_insensitive(true)
/// .match_kind(MatchKind::LeftmostLongest).build(..)`: it succeeds exactly
/// when the builder accepts the pattern set, and on success the automaton
/// holds exactly the given patterns.
#[verifier::external_body]
fn ac_build(patterns: &Vec<Vec<u8>>) -> (r: Result<aho_corasick::AhoCorasick, String>)
    ensures
        r is Ok <==> ac_buildable(patterns.deep_view()),
        r matches Ok(ac) ==> ac_patterns(ac) == patterns.deep_view(),
{
    let built = aho_corasick::AhoCorasick::builder()
        .ascii_case_insensitive(true)
        .match_kind(aho_corasick::MatchKind::LeftmostLongest)
        .build(patterns);
    match built {
        Ok(ac) => Ok(ac),
        Err(e) => Err(e.to_string()),
    }
}

/// Two byte strings are equal up to ASCII case, position by position.
pub open spec fn ascii_case_eq(a: Seq<u8>, b: Seq<u8>) -> bool {
    a.len() == b.len() && forall|k: int| 0 <= k < a.len() ==> eq_ignore_case(a[k], b[k])
}

/// Relies on `AhoCorasick::find_iter` over a byte haystack: it yields the
/// non-overlapping matches in ascending position; each match is an
/// occurrence of its pattern, byte for byte up to ASCII case. Because the
/// automaton folds ASCII case, the match list is the same for any haystack
/// equal to this one up to ASCII case. The unanchored default configuration
/// is used, so the call cannot fail.
#[verifier::external_body]
fn ac_find(ac: &aho_corasick::AhoCorasick, text: &[u8]) -> (r: Vec<(usize, usize, usize)>)
    ensures
        r@.map_values(|m: (usize, usize, usize)| (m.0 as int, m.1 as int, m.2 as int)) == ac_hits(
            ac_patterns(*ac),
            text@,
        ),
        forall|t2: Seq<u8>|
            ascii_case_eq(t2, text@) ==> ac_hits(ac_patterns(*ac), t2) == r@.map_values(
                |m: (usize, usize, usize)| (m.0 as int, m.1 as int, m.2 as int),
            ),
        forall|i: int|
            0 <= i < r@.len() ==> {
                let (p, s, e) = #[trigger] r@[i];
                &&& (p as int) < ac_patterns(*ac).len()
                &&& e == s + ac_patterns(*ac)[p as int].len()
                &&& e <= text@.len()
                &&& forall|k: int|
                    0 <= k < ac_patterns(*ac)[p as int].len() ==> eq_ignore_case(
                        text@[s + k],
                        ac_patterns(*ac)[p as int][k],
                    )
            },
        forall|i: int, j: int| 0 <= i < j < r@.len() ==> (#[trigger] r@[i]).2 <= (#[trigger] r@[j]).1,
{
    ac.find_iter(text).map(|m| (m.pattern().as_usize(), m.start(), m.end())).collect()
}

/// Relies on `AhoCorasick`'s `Clone`: a clone of the automaton searches
/// for exactly the same patterns.
pub assume_specification[ <aho_corasick::AhoCorasick as Clone>::clone ](
    ac: &aho_corasick::AhoCorasick,
) -> (r: aho_corasick::AhoCorasick)
    ensures
        ac_patterns(r) == ac_patterns(*ac),
;

/// One compiled search pattern: its byte string, whether matches must sit on
/// word boundaries, and the roster index of the character it belongs to.
pub ghost struct Pattern {
    pub bytes: Seq<u8>,
    pub boundary: bool,
    pub owner: int,
}

/// Names and aliases longer than this many bytes are truncated before
/// compilation.
pub const MAX_NAME_LEN: usize = 256;

/// The first `MAX_NAME_LEN` bytes of `s`.
pub open spec fn truncated(s: Seq<u8>) -> Seq<u8> {
    if s.len() <= MAX_NAME_LEN {
        s
    } else {
        s.take(MAX_NAME_LEN as int)
    }
}

/// The string trims to nothing as UTF-8: every position either lies in a
/// whitespace character's encoding or is a stray continuation byte.
pub open spec fn is_blank(s: Seq<u8>) -> bool {
    forall|k: int|
        0 <= k < s.len() ==> (ws_at(s, k) || vstd::utf8::is_continuation_byte(s[k]))
}

/// Tests whether a byte string trims to nothing.
fn blank_bytes(s: &[u8]) -> (r: bool)
    ensures
        r == is_blank(s@),
{
    let n = s.len();
    let mut k: usize = 0;
    while k < n
        invariant
            k <= n,
            n == s@.len(),
            forall|j: int|
                0 <= j < k ==> (ws_at(s@, j) || vstd::utf8::is_continuation_byte(#[trigger] s@[j])),
        decreases n - k,
    {
        if !cont_byte(s[k]) && !ws_at_exec(s, k) {
            proof {
                assert(!(ws_at(s@, k as int) || vstd::utf8::is_continuation_byte(s@[k as int])));
            }
            return false;
        }
        k = k + 1;
    }
    true
}

/// The alias patterns of one character: each non-blank alias, truncated and
/// lowercased, with word-boundary checking required.
pub open spec fn alias_patterns(aliases: Seq<Seq<u8>>, owner: int) -> Seq<Pattern>
    decreases aliases.len(),
{
    if aliases.len() == 0 {
        Seq::empty()
    } else if is_blank(aliases.last()) {
        alias_patterns(aliases.drop_last(), owner)
    } else {
        alias_patterns(aliases.drop_last(), owner).push(
            Pattern {
                bytes: lower_bytes(truncated(aliases.last())),
                boundary: true,
                owner,
            },
        )
    }
}

/// The opening bytes of the double-quoted machine-reference form:
/// `data-id="`.
pub open spec fn data_id_dq_prefix() -> Seq<u8> {
    seq![100u8, 97, 116, 97, 45, 105, 100, 61, 34]
}

/// The opening bytes of the single-quoted machine-reference form:
/// `data-id='`.
pub open spec fn data_id_sq_prefix() -> Seq<u8> {
    seq![100u8, 97, 116, 97, 45, 105, 100, 61, 39]
}

/// The patterns of one character: the lowercased name (boundary-checked),
/// its non-blank aliases (boundary-checked), the `@name` tag form, and the
/// two quoted machine-reference forms embedding the id.
pub open spec fn character_patterns(c: CharacterIdent, owner: int) -> Seq<Pattern> {
    let name = lower_bytes(truncated(c.name));
    seq![Pattern { bytes: name, boundary: true, owner }] + alias_patterns(c.aliases, owner) + seq![
        Pattern { bytes: seq![64u8] + name, boundary: false, owner },
        Pattern { bytes: data_id_dq_prefix() + c.id + seq![34u8], boundary: false, owner },
        Pattern { bytes: data_id_sq_prefix() + c.id + seq![39u8], boundary: false, owner },
    ]
}

/// The byte strings of a pattern list.
pub open spec fn pattern_bytes(ps: Seq<Pattern>) -> Seq<Seq<u8>> {
    ps.map_values(|p: Pattern| p.bytes)
}

/// The full pattern list of a roster, in roster order.
pub open spec fn patterns_of(roster: Seq<CharacterIdent>) -> Seq<Pattern>
    decreases roster.len(),
{
    if roster.len() == 0 {
        Seq::empty()
    } else {
        patterns_of(roster.drop_last()) + character_patterns(roster.last(), roster.len() - 1)
    }
}

/// A match at `start..end` of `text` sits on word boundaries: the
/// character ending just before the match and the character starting just
/// after it — where they exist — are neither alphanumeric nor the
/// underscore.
pub open spec fn boundary_ok(text: Seq<u8>, start: int, end: int) -> bool {
    &&& (start == 0 || !word_char_before(text, start))
    &&& (end >= text.len() || !word_char_at(text, end))
}

/// Check if a match at `start..end` is surrounded by word boundaries.
pub fn is_word_boundary(text: &[u8], start: usize, end: usize) -> (r: bool)
    requires
        start <= end <= text@.len(),
    ensures
        r == boundary_ok(text@, start as int, end as int),
{
    if start > 0 && word_char_before_exec(text, start) {
        return false;
    }
    if end < text.len() && word_char_at_exec(text, end) {
        return false;
    }
    true
}

/// A hit survives the boundary filter: its pattern either needs no boundary
/// check, or the match sits on word boundaries.
pub open spec fn hit_kept(ps: Seq<Pattern>, text: Seq<u8>, h: (int, int, int)) -> bool {
    &&& 0 <= h.0 < ps.len()
    &&& (!ps[h.0].boundary || boundary_ok(text, h.1, h.2))
}

/// The mentions that a list of raw hits yields: each kept hit contributes
/// (start offset, owner index), in hit order.
pub open spec fn mentions_from_hits(
    ps: Seq<Pattern>,
    text: Seq<u8>,
    hits: Seq<(int, int, int)>,
) -> Seq<(int, int)>
    decreases hits.len(),
{
    if hits.len() == 0 {
        Seq::empty()
    } else if hit_kept(ps, text, hits.last()) {
        mentions_from_hits(ps, text, hits.drop_last()).push(
            (hits.last().1, ps[hits.last().0].owner),
        )
    } else {
        mentions_from_hits(ps, text, hits.drop_last())
    }
}

/// The mentions that scanning `text` against the pattern list `ps` yields.
pub open spec fn scan_mentions(ps: Seq<Pattern>, text: Seq<u8>) -> Seq<(int, int)> {
    mentions_from_hits(ps, text, ac_hits(ps.map_values(|p: Pattern| p.bytes), text))
}

/// Building a scanner can fail: an empty roster has nothing to scan for, and
/// the automaton construction itself can refuse a pattern set.
#[derive(Debug)]
pub enum BuildError {
    /// No characters to analyze.
    EmptyRoster,
    /// The automaton could not be built; the message is the builder's.
    Automaton(String),
}

/// Pre-compiled search patterns for all characters: one automaton holding
/// every pattern, plus the boundary flags and owner indices, pattern by
/// pattern.
pub struct CharacterScanner {
    /// Automaton for the single-pass multi-pattern search.
    ac: aho_corasick::AhoCorasick,
    /// Maps pattern index to roster index.
    pattern_to_char_idx: Vec<usize>,
    /// Which patterns require strict word-boundary checks.
    requires_boundary: Vec<bool>,
    /// The compiled pattern list, for specification.
    pats: Ghost<Seq<Pattern>>,
}

impl CharacterScanner {
    /// The compiled pattern list.
    pub closed spec fn patterns(self) -> Seq<Pattern> {
        self.pats@
    }

    /// The stored tables agree with the pattern list, and the automaton was
    /// built from exactly these patterns.
    pub closed spec fn wf(self) -> bool {
        &&& self.pattern_to_char_idx@.len() == self.pats@.len()
        &&& self.requires_boundary@.len() == self.pats@.len()
        &&& forall|i: int|
            0 <= i < self.pats@.len() ==> (#[trigger] self.pattern_to_char_idx@[i]) as int
                == self.pats@[i].owner && self.requires_boundary@[i] == self.pats@[i].boundary
        &&& forall|i: int| 0 <= i < self.pats@.len() ==> 0 <= (#[trigger] self.pats@[i]).owner
        &&& ac_patterns(self.ac) == self.pats@.map_values(|p: Pattern| p.bytes)
    }

    /// The scanner was compiled for this roster.
    pub open spec fn for_roster(self, roster: Seq<CharacterIdent>) -> bool {
        self.patterns() == patterns_of(roster)
    }

    /// Compiles the patterns of every roster entry. Fails exactly on an
    /// empty roster, or when the automaton builder refuses the pattern set.
    pub fn try_new(characters: &Vec<Character>) -> (r: Result<CharacterScanner, BuildError>)
        ensures
            characters@.len() == 0 <==> r matches Err(BuildError::EmptyRoster),
            r matches Err(BuildError::Automaton(_)) <==> characters@.len() > 0 && !ac_buildable(
                pattern_bytes(patterns_of(roster_idents(characters@))),
            ),
            r is Ok <==> characters@.len() > 0 && ac_buildable(
                pattern_bytes(patterns_of(roster_idents(characters@))),
            ),
            r matches Ok(s) ==> s.wf() && s.for_roster(roster_idents(characters@)),
    {
        let mut patterns: Vec<Vec<u8>> = Vec::new();
        let mut pattern_to_char_idx: Vec<usize> = Vec::new();
        let mut requires_boundary: Vec<bool> = Vec::new();

        let ghost idents = roster_idents(characters@);
        let mut i: usize = 0;
        proof {
            assert(idents.take(0) =~= Seq::<CharacterIdent>::empty());
            assert(flat(patterns@, requires_boundary@, pattern_to_char_idx@) =~= patterns_of(
                idents.take(0),
            ));
        }
        while i < characters.len()
            invariant
                i <= characters@.len(),
                idents == roster_idents(characters@),
                patterns@.len() == pattern_to_char_idx@.len(),
                patterns@.len() == requires_boundary@.len(),
                flat(patterns@, requires_boundary@, pattern_to_char_idx@) == patterns_of(
                    idents.take(i as int),
                ),
            decreases characters@.len() - i,
        {
            let c = &characters[i];
            let ghost ident = idents[i as int];
            proof {
                assert(ident == characters@[i as int].ident());
                assert(idents.take(i + 1).drop_last() =~= idents.take(i as int));
                assert(idents.take(i + 1).last() == ident);
                assert(patterns_of(idents.take(i + 1)) == patterns_of(idents.take(i as int))
                    + character_patterns(ident, i as int));
            }

            // 1. literal name, truncated, lowercased, boundary-checked
            let name_len = c.name.len();
            let take_len = if name_len < MAX_NAME_LEN {
                name_len
            } else {
                MAX_NAME_LEN
            };
            let name_lower = to_lower_bytes(&c.name.as_slice()[0..take_len]);
            proof {
                assert(c.name@.subrange(0, take_len as int) =~= truncated(ident.name));
            }
            let ghost before_b = patterns@;
            let ghost before_f = requires_boundary@;
            let ghost before_o = pattern_to_char_idx@;
            patterns.push(name_lower.clone());
            requires_boundary.push(true);
            pattern_to_char_idx.push(i);
            proof {
                lemma_flat_push(before_b, before_f, before_o, patterns@.last(), true, i);
                assert(flat(patterns@, requires_boundary@, pattern_to_char_idx@) == flat(
                    before_b,
                    before_f,
                    before_o,
                ).push(
                    Pattern { bytes: lower_bytes(truncated(ident.name)), boundary: true, owner: i as int },
                ));
            }

            // 2. aliases, boundary-checked
            let mut a: usize = 0;
            proof {
                assert(ident.aliases.take(0) =~= Seq::<Seq<u8>>::empty());
                assert(alias_patterns(ident.aliases.take(0), i as int) =~= Seq::<Pattern>::empty());
            }
            while a < c.aliases.len()
                invariant
                    a <= c.aliases@.len(),
                    ident == characters@[i as int].ident(),
                    i < characters@.len(),
                    c == characters@[i as int],
                    ident.aliases.len() == c.aliases@.len(),
                    patterns@.len() == pattern_to_char_idx@.len(),
                    patterns@.len() == requires_boundary@.len(),
                    flat(patterns@, requires_boundary@, pattern_to_char_idx@) == flat(
                        before_b,
                        before_f,
                        before_o,
                    ).push(
                        Pattern {
                            bytes: lower_bytes(truncated(ident.name)),
                            boundary: true,
                            owner: i as int,
                        },
                    ) + alias_patterns(ident.aliases.take(a as int), i as int),
                decreases c.aliases@.len() - a,
            {
                let alias = &c.aliases[a];
                proof {
                    assert(ident.aliases[a as int] == c.aliases@[a as int]@);
                    assert(ident.aliases.take(a + 1).drop_last() =~= ident.aliases.take(a as int));
                    assert(ident.aliases.take(a + 1).last() == ident.aliases[a as int]);
                }
                // skip aliases that trim to nothing
                let blank = blank_bytes(alias.as_slice());
                if !blank {
                    let alias_len = alias.len();
                    let atake = if alias_len < MAX_NAME_LEN {
                        alias_len
                    } else {
                        MAX_NAME_LEN
                    };
                    let alias_lower = to_lower_bytes(&alias.as_slice()[0..atake]);
                    proof {
                        assert(alias@.subrange(0, atake as int) =~= truncated(
                            ident.aliases[a as int],
                        ));
                    }
                    let ghost b2_b = patterns@;
                    let ghost b2_f = requires_boundary@;
                    let ghost b2_o = pattern_to_char_idx@;
                    patterns.push(alias_lower);
                    requires_boundary.push(true);
                    pattern_to_char_idx.push(i);
                    proof {
                        lemma_flat_push(b2_b, b2_f, b2_o, patterns@.last(), true, i);
                        assert(flat(patterns@, requires_boundary@, pattern_to_char_idx@) == flat(
                            b2_b,
                            b2_f,
                            b2_o,
                        ).push(
                            Pattern {
                                bytes: lower_bytes(truncated(ident.aliases[a as int])),
                                boundary: true,
                                owner: i as int,
                            },
                        ));
                    }
                }
                a = a + 1;
            }
            proof {
                assert(ident.aliases.take(ident.aliases.len() as int) =~= ident.aliases);
            }

            // 3. @name tag form
            let mut at_pat: Vec<u8> = Vec::new();
            at_pat.push(64);
            let mut k: usize = 0;
            while k < name_lower.len()
                invariant
                    k <= name_lower@.len(),
                    at_pat@ =~= seq![64u8] + name_lower@.take(k as int),
                decreases name_lower@.len() - k,
            {
                at_pat.push(name_lower[k]);
                k = k + 1;
            }
            proof {
                assert(name_lower@.take(name_lower@.len() as int) =~= name_lower@);
            }
            let ghost b3_b = patterns@;
            let ghost b3_f = requires_boundary@;
            let ghost b3_o = pattern_to_char_idx@;
            patterns.push(at_pat);
            requires_boundary.push(false);
            pattern_to_char_idx.push(i);
            proof {
                lemma_flat_push(b3_b, b3_f, b3_o, patterns@.last(), false, i);
                assert(flat(patterns@, requires_boundary@, pattern_to_char_idx@) == flat(
                    b3_b,
                    b3_f,
                    b3_o,
                ).push(
                    Pattern {
                        bytes: seq![64u8] + lower_bytes(truncated(ident.name)),
                        boundary: false,
                        owner: i as int,
                    },
                ));
            }

            // 4. data-id machine-reference forms, double and single quoted
            let dq = data_id_pattern(&c.id, true);
            let ghost b4_b = patterns@;
            let ghost b4_f = requires_boundary@;
            let ghost b4_o = pattern_to_char_idx@;
            patterns.push(dq);
            requires_boundary.push(false);
            pattern_to_char_idx.push(i);
            proof {
                lemma_flat_push(b4_b, b4_f, b4_o, patterns@.last(), false, i);
                assert(flat(patterns@, requires_boundary@, pattern_to_char_idx@) == flat(
                    b4_b,
                    b4_f,
                    b4_o,
                ).push(
                    Pattern {
                        bytes: data_id_dq_prefix() + ident.id + seq![34u8],
                        boundary: false,
                        owner: i as int,
                    },
                ));
            }
            let sq = data_id_pattern(&c.id, false);
            let ghost b5_b = patterns@;
            let ghost b5_f = requires_boundary@;
            let ghost b5_o = pattern_to_char_idx@;
            patterns.push(sq);
            requires_boundary.push(false);
            pattern_to_char_idx.push(i);
            proof {
                lemma_flat_push(b5_b, b5_f, b5_o, patterns@.last(), false, i);
                assert(flat(patterns@, requires_boundary@, pattern_to_char_idx@) == flat(
                    b5_b,
                    b5_f,
                    b5_o,
                ).push(
                    Pattern {
                        bytes: data_id_sq_prefix() + ident.id + seq![39u8],
                        boundary: false,
                        owner: i as int,
                    },
                ));
                assert(flat(patterns@, requires_boundary@, pattern_to_char_idx@) =~= patterns_of(
                    idents.take(i + 1),
                ));
            }

            i = i + 1;
        }
        proof {
            assert(idents.take(idents.len() as int) =~= idents);
        }

        if patterns.is_empty() {
            proof {
                assert(patterns_of(idents).len() == 0);
                assert(characters@.len() == 0) by {
                    if characters@.len() > 0 {
                        lemma_patterns_of_nonempty(idents);
                    }
                }
            }
            return Err(BuildError::EmptyRoster);
        }
        proof {
            assert(characters@.len() > 0) by {
                if characters@.len() == 0 {
                    assert(patterns_of(idents) =~= Seq::<Pattern>::empty());
                }
            }
        }

        proof {
            lemma_flat_bytes(patterns@, requires_boundary@, pattern_to_char_idx@);
            assert(patterns.deep_view() =~~= patterns@.map_values(|v: Vec<u8>| v@));
            assert(patterns.deep_view() == pattern_bytes(patterns_of(idents)));
        }
        match ac_build(&patterns) {
            Ok(ac) => {
                Ok(
                    CharacterScanner {
                        ac,
                        pattern_to_char_idx,
                        requires_boundary,
                        pats: Ghost(patterns_of(idents)),
                    },
                )
            },
            Err(e) => Err(BuildError::Automaton(e)),
        }
    }

    /// Returns a second scanner over the same patterns, sharing nothing
    /// mutable with this one.
    pub fn duplicate(&self) -> (r: CharacterScanner)
        requires
            self.wf(),
        ensures
            r.wf(),
            r.patterns() == self.patterns(),
    {
        let r = CharacterScanner {
            ac: self.ac.clone(),
            pattern_to_char_idx: clone_usizes(&self.pattern_to_char_idx),
            requires_boundary: clone_bools(&self.requires_boundary),
            pats: Ghost(self.pats@),
        };
        proof {
            assert(ac_patterns(r.ac) == r.pats@.map_values(|p: Pattern| p.bytes));
            assert forall|i: int| 0 <= i < r.pats@.len() implies (#[trigger] r.pattern_to_char_idx@[i]) as int
                == r.pats@[i].owner && r.requires_boundary@[i] == r.pats@[i].boundary by {
                assert(self.pattern_to_char_idx@[i] as int == self.pats@[i].owner);
            }
        }
        r
    }

    /// Scans `text` and returns its mentions as (byte offset, roster index)
    /// pairs, in ascending match order, filtered by the word-boundary rule.
    pub fn scan(&self, text: &[u8]) -> (r: Vec<(usize, usize)>)
        requires
            self.wf(),
        ensures
            r@.map_values(|m: (usize, usize)| (m.0 as int, m.1 as int)) == scan_mentions(
                self.patterns(),
                text@,
            ),
            forall|k1: int, k2: int| 0 <= k1 < k2 < r@.len() ==> (#[trigger] r@[k1]).0 <= (
            #[trigger] r@[k2]).0,
            (forall|p: int| 0 <= p < self.patterns().len() ==> (#[trigger] self.patterns()[p]).bytes.len() > 0)
                ==> forall|k1: int, k2: int|
                0 <= k1 < k2 < r@.len() ==> (#[trigger] r@[k1]).0 < (#[trigger] r@[k2]).0,
    {
        let ghost nonempty = forall|p: int|
            0 <= p < self.patterns().len() ==> (#[trigger] self.patterns()[p]).bytes.len() > 0;
        let hits = ac_find(&self.ac, text);
        let ghost ps = self.pats@;
        let ghost hseq = hits@.map_values(|m: (usize, usize, usize)| (m.0 as int, m.1 as int, m.2 as int));
        let mut mentions: Vec<(usize, usize)> = Vec::new();
        let mut i: usize = 0;
        proof {
            assert(hseq.take(0) =~= Seq::<(int, int, int)>::empty());
            assert(mentions@.map_values(|m: (usize, usize)| (m.0 as int, m.1 as int))
                =~= mentions_from_hits(ps, text@, hseq.take(0)));
        }
        while i < hits.len()
            invariant
                self.wf(),
                ps == self.pats@,
                i <= hits@.len(),
                hseq == hits@.map_values(
                    |m: (usize, usize, usize)| (m.0 as int, m.1 as int, m.2 as int),
                ),
                forall|j: int|
                    0 <= j < hits@.len() ==> {
                        let (p, s, e) = #[trigger] hits@[j];
                        (p as int) < ps.len() && s <= e <= text@.len()
                    },
                forall|j1: int, j2: int|
                    0 <= j1 < j2 < hits@.len() ==> (#[trigger] hits@[j1]).2 <= (
                    #[trigger] hits@[j2]).1,
                mentions@.map_values(|m: (usize, usize)| (m.0 as int, m.1 as int))
                    == mentions_from_hits(ps, text@, hseq.take(i as int)),
                forall|k1: int, k2: int|
                    0 <= k1 < k2 < mentions@.len() ==> (#[trigger] mentions@[k1]).0 <= (
                    #[trigger] mentions@[k2]).0,
                forall|k: int, j: int|
                    0 <= k < mentions@.len() && i <= j < hits@.len() ==> (
                    #[trigger] mentions@[k]).0 <= (#[trigger] hits@[j]).1,
                nonempty == (forall|p: int|
                    0 <= p < self.patterns().len() ==> (#[trigger] self.patterns()[p]).bytes.len()
                        > 0),
                nonempty ==> forall|k1: int, k2: int|
                    0 <= k1 < k2 < mentions@.len() ==> (#[trigger] mentions@[k1]).0 < (
                    #[trigger] mentions@[k2]).0,
                nonempty ==> forall|k: int, j: int|
                    0 <= k < mentions@.len() && i <= j < hits@.len() ==> (
                    #[trigger] mentions@[k]).0 < (#[trigger] hits@[j]).1,
                forall|j: int|
                    0 <= j < hits@.len() ==> ({
                        let (p, st, e) = #[trigger] hits@[j];
                        e == st + ps[p as int].bytes.len()
                    }),
            decreases hits@.len() - i,
        {
            let (p, s, e) = hits[i];
            proof {
                assert(hseq.take(i + 1).drop_last() =~= hseq.take(i as int));
                assert(hseq[i as int] == (p as int, s as int, e as int));
            }
            proof {
                assert(hits@[i as int] == (p, s, e));
                assert(self.pattern_to_char_idx@[p as int] as int == ps[p as int].owner);
            }
            let keep: bool = if self.requires_boundary[p] {
                is_word_boundary(text, s, e)
            } else {
                true
            };
            proof {
                assert(keep == hit_kept(ps, text@, hseq[i as int]));
            }
            if keep {
                let ghost mpre = mentions@;
                mentions.push((s, self.pattern_to_char_idx[p]));
                proof {
                    assert(mentions@.map_values(|m: (usize, usize)| (m.0 as int, m.1 as int))
                        =~= mpre.map_values(|m: (usize, usize)| (m.0 as int, m.1 as int)).push(
                        (s as int, ps[p as int].owner),
                    ));
                    assert forall|k: int, j: int|
                        0 <= k < mentions@.len() && i + 1 <= j < hits@.len() implies (
                    #[trigger] mentions@[k]).0 <= (#[trigger] hits@[j]).1 by {
                        if k < mentions@.len() - 1 {
                            assert(mentions@[k] == mpre[k]);
                        } else {
                            assert(mentions@[k].0 == s);
                            assert(hits@[i as int].2 <= hits@[j].1);
                        }
                    }
                    if nonempty {
                        assert(self.patterns() == ps);
                        assert(self.patterns()[p as int].bytes.len() > 0);
                        assert(e == s + ps[p as int].bytes.len());
                        assert forall|k: int, j: int|
                            0 <= k < mentions@.len() && i + 1 <= j < hits@.len() implies (
                        #[trigger] mentions@[k]).0 < (#[trigger] hits@[j]).1 by {
                            if k < mentions@.len() - 1 {
                                assert(mentions@[k] == mpre[k]);
                            } else {
                                assert(mentions@[k].0 == s);
                                assert((s as int) < e);
                                assert(hits@[i as int].2 <= hits@[j].1);
                            }
                        }
                        assert forall|k1: int, k2: int|
                            0 <= k1 < k2 < mentions@.len() implies (#[trigger] mentions@[k1]).0 < (
                        #[trigger] mentions@[k2]).0 by {
                            if k2 < mentions@.len() - 1 {
                                assert(mentions@[k1] == mpre[k1]);
                                assert(mentions@[k2] == mpre[k2]);
                            } else {
                                assert(mentions@[k1] == mpre[k1]);
                                assert(mpre[k1].0 < hits@[i as int].1);
                                assert(mentions@[k2].0 == s);
                            }
                        }
                    }
                }
            }
            i = i + 1;
        }
        proof {
            assert(hseq.take(hseq.len() as int) =~= hseq);
            assert(ps.map_values(|p: Pattern| p.bytes) == ac_patterns(self.ac));
        }
        mentions
    }
}

/// A non-empty roster compiles to a non-empty pattern list.
proof fn lemma_patterns_of_nonempty(roster: Seq<CharacterIdent>)
    requires
        roster.len() > 0,
    ensures
        patterns_of(roster).len() > 0,
{
}

/// The pattern list that three parallel tables stand for: bytes, boundary
/// flag and owner index, position by position.
pub open spec fn flat(bytes: Seq<Vec<u8>>, bounds: Seq<bool>, owners: Seq<usize>) -> Seq<Pattern> {
    Seq::new(
        bytes.len(),
        |i: int| Pattern { bytes: bytes[i]@, boundary: bounds[i], owner: owners[i] as int },
    )
}

/// Pushing one entry onto all three tables appends one pattern.
proof fn lemma_flat_push(
    bytes: Seq<Vec<u8>>,
    bounds: Seq<bool>,
    owners: Seq<usize>,
    nb: Vec<u8>,
    nf: bool,
    no: usize,
)
    requires
        bytes.len() == bounds.len() == owners.len(),
    ensures
        flat(bytes.push(nb), bounds.push(nf), owners.push(no)) == flat(bytes, bounds, owners).push(
            Pattern { bytes: nb@, boundary: nf, owner: no as int },
        ),
{
    assert(flat(bytes.push(nb), bounds.push(nf), owners.push(no)) =~= flat(
        bytes,
        bounds,
        owners,
    ).push(Pattern { bytes: nb@, boundary: nf, owner: no as int }));
}

/// The byte strings of the flattened table are the byte strings themselves.
proof fn lemma_flat_bytes(bytes: Seq<Vec<u8>>, bounds: Seq<bool>, owners: Seq<usize>)
    requires
        bytes.len() == bounds.len() == owners.len(),
    ensures
        flat(bytes, bounds, owners).map_values(|p: Pattern| p.bytes) == bytes.map_values(
            |v: Vec<u8>| v@,
        ),
{
    assert(flat(bytes, bounds, owners).map_values(|p: Pattern| p.bytes) =~= bytes.map_values(
        |v: Vec<u8>| v@,
    ));
}

/// Builds the `data-id` machine-reference pattern for an id, with double or
/// single quotes.
fn data_id_pattern(id: &Vec<u8>, double: bool) -> (r: Vec<u8>)
    ensures
        double ==> r@ == data_id_dq_prefix() + id@ + seq![34u8],
        !double ==> r@ == data_id_sq_prefix() + id@ + seq![39u8],
{
    let mut v: Vec<u8> = Vec::new();
    v.push(100);
    v.push(97);
    v.push(116);
    v.push(97);
    v.push(45);
    v.push(105);
    v.push(100);
    v.push(61);
    if double {
        v.push(34);
    } else {
        v.push(39);
    }
    let ghost prefix = v@;
    let mut k: usize = 0;
    while k < id.len()
        invariant
            k <= id@.len(),
            v@ =~= prefix + id@.take(k as int),
        decreases id@.len() - k,
    {
        v.push(id[k]);
        k = k + 1;
    }
    proof {
        assert(id@.take(id@.len() as int) =~= id@);
    }
    if double {
        v.push(34);
        proof {
            assert(prefix =~= data_id_dq_prefix());
            assert(v@ =~= data_id_dq_prefix() + id@ + seq![34u8]);
        }
    } else {
        v.push(39);
        proof {
            assert(prefix =~= data_id_sq_prefix());
            assert(v@ =~= data_id_sq_prefix() + id@ + seq![39u8]);
        }
    }
    v
}

/// Copies a vector of indices.
fn clone_usizes(v: &Vec<usize>) -> (r: Vec<usize>)
    ensures
        r@ == v@,
{
    let mut out: Vec<usize> = Vec::new();
    let mut i: usize = 0;
    while i < v.len()
        invariant
            i <= v@.len(),
            out@ =~= v@.take(i as int),
        decreases v@.len() - i,
    {
        out.push(v[i]);
        i = i + 1;
    }
    proof {
        assert(v@.take(v@.len() as int) =~= v@);
    }
    out
}

/// Copies a vector of flags.
fn clone_bools(v: &Vec<bool>) -> (r: Vec<bool>)
    ensures
        r@ == v@,
{
    let mut out: Vec<bool> = Vec::new();
    let mut i: usize = 0;
    while i < v.len()
        invariant
            i <= v@.len(),
            out@ =~= v@.take(i as int),
        decreases v@.len() - i,
    {
        out.push(v[i]);
        i = i + 1;
    }
    proof {
        assert(v@.take(v@.len() as int) =~= v@);
    }
    out
}

} // verus!
