//! The coordinator: decides cache hits and misses, rebuilds the scanner when
//! the roster changes, records per-chapter scan results, and assembles the
//! inputs of the graph builder.
//!
//! Cache validity is decided exactly as the data model prescribes: a chapter
//! entry is reused only if file length, modification time and roster
//! signature all match; any mismatch forces a rescan. A reused entry may
//! still describe an older text whose length and timestamp coincide — the
//! contracts state precisely that, and nothing stronger.

use vstd::prelude::*;
use sha2::Digest;
use crate::graph::{ChapterScan, CharacterGraphPayload, Mention};
use crate::indexer::{WordIndexer, word_index_of};
use crate::models::{Character, CharacterIdent, roster_idents};
use crate::scanner::{ac_buildable, BuildError, CharacterScanner, Pattern, pattern_bytes, patterns_of, scan_mentions};

verus! {

/// The SHA-256 digest of a byte string; 32 bytes determined by the input
/// alone.
pub uninterp spec fn sha256_of(data: Seq<u8>) -> Seq<u8>;

/// Relies on `sha2::Sha256::digest`: a 32-byte digest that depends on the
/// input bytes alone.
#[verifier::external_body]
fn sha256(data: &Vec<u8>) -> (r: Vec<u8>)
    ensures
        r@ == sha256_of(data@),
        r@.len() == 32,
{
    sha2::Sha256::digest(data).to_vec()
}

/// The byte stream hashed for a roster signature: each character's id, name
/// and aliases, concatenated in roster order.
pub open spec fn sig_bytes_of(idents: Seq<CharacterIdent>) -> Seq<u8>
    decreases idents.len(),
{
    if idents.len() == 0 {
        Seq::empty()
    } else {
        sig_bytes_of(idents.drop_last()) + ident_bytes(idents.last())
    }
}

/// One character's contribution to the signature stream.
pub open spec fn ident_bytes(c: CharacterIdent) -> Seq<u8> {
    c.id + c.name + concat_all(c.aliases)
}

/// The concatenation of a list of byte strings.
pub open spec fn concat_all(ss: Seq<Seq<u8>>) -> Seq<u8>
    decreases ss.len(),
{
    if ss.len() == 0 {
        Seq::empty()
    } else {
        concat_all(ss.drop_last()) + ss.last()
    }
}

/// The first eight digest bytes read as a little-endian 64-bit integer.
pub open spec fn le64(d: Seq<u8>) -> int {
    d[0] + d[1] * 0x100 + d[2] * 0x1_0000 + d[3] * 0x100_0000 + d[4] * 0x1_0000_0000 + d[5]
        * 0x100_0000_0000 + d[6] * 0x1_0000_0000_0000 + d[7] * 0x100_0000_0000_0000
}

/// The roster's signature: 64 bits of the SHA-256 digest over its ids,
/// names and aliases, in roster order.
pub open spec fn signature_of(idents: Seq<CharacterIdent>) -> int {
    le64(sha256_of(sig_bytes_of(idents)))
}

/// Appends all of `src` to `out`.
fn append_bytes(out: &mut Vec<u8>, src: &Vec<u8>)
    ensures
        final(out)@ == old(out)@ + src@,
{
    let mut k: usize = 0;
    proof {
        assert(out@ =~= old(out)@ + src@.take(0));
    }
    while k < src.len()
        invariant
            k <= src@.len(),
            out@ == old(out)@ + src@.take(k as int),
        decreases src@.len() - k,
    {
        let ghost pre = out@;
        out.push(src[k]);
        k = k + 1;
        proof {
            assert(old(out)@ + src@.take(k as int) =~= pre.push(src@[k - 1]));
        }
    }
    proof {
        assert(src@.take(src@.len() as int) =~= src@);
    }
}

/// Computes the roster signature: a deterministic fingerprint over each
/// character's id, name and aliases, in roster order.
pub fn roster_signature(characters: &Vec<Character>) -> (r: u64)
    ensures
        r as int == signature_of(roster_idents(characters@)),
{
    let ghost idents = roster_idents(characters@);
    let mut data: Vec<u8> = Vec::new();
    let mut i: usize = 0;
    proof {
        assert(idents.take(0) =~= Seq::<CharacterIdent>::empty());
        assert(data@ =~= sig_bytes_of(idents.take(0)));
    }
    while i < characters.len()
        invariant
            i <= characters@.len(),
            idents == roster_idents(characters@),
            data@ == sig_bytes_of(idents.take(i as int)),
        decreases characters@.len() - i,
    {
        let c = &characters[i];
        let ghost ident = idents[i as int];
        proof {
            assert(ident == characters@[i as int].ident());
            assert(idents.take(i + 1).drop_last() =~= idents.take(i as int));
            assert(idents.take(i + 1).last() == ident);
        }
        append_bytes(&mut data, &c.id);
        append_bytes(&mut data, &c.name);
        let ghost mid = data@;
        let mut a: usize = 0;
        proof {
            assert(ident.aliases.take(0) =~= Seq::<Seq<u8>>::empty());
            assert(concat_all(ident.aliases.take(0)) =~= Seq::<u8>::empty());
            assert(data@ =~= mid + concat_all(ident.aliases.take(0)));
        }
        while a < c.aliases.len()
            invariant
                a <= c.aliases@.len(),
                c == characters@[i as int],
                i < characters@.len(),
                ident == characters@[i as int].ident(),
                ident.aliases.len() == c.aliases@.len(),
                data@ == mid + concat_all(ident.aliases.take(a as int)),
            decreases c.aliases@.len() - a,
        {
            proof {
                assert(ident.aliases[a as int] == c.aliases@[a as int]@);
                assert(ident.aliases.take(a + 1).drop_last() =~= ident.aliases.take(a as int));
                assert(ident.aliases.take(a + 1).last() == ident.aliases[a as int]);
            }
            let ghost pre = data@;
            append_bytes(&mut data, &c.aliases[a]);
            a = a + 1;
            proof {
                assert(mid + concat_all(ident.aliases.take(a as int)) =~= pre
                    + c.aliases@[a - 1]@);
            }
        }
        proof {
            assert(ident.aliases.take(ident.aliases.len() as int) =~= ident.aliases);
            assert(data@ =~= sig_bytes_of(idents.take(i as int)) + ident_bytes(ident));
        }
        i = i + 1;
    }
    proof {
        assert(idents.take(idents.len() as int) =~= idents);
    }
    let digest = sha256(&data);
    let b0 = digest[0] as u64;
    let b1 = digest[1] as u64;
    let b2 = digest[2] as u64;
    let b3 = digest[3] as u64;
    let b4 = digest[4] as u64;
    let b5 = digest[5] as u64;
    let b6 = digest[6] as u64;
    let b7 = digest[7] as u64;
    let r = b0 + b1 * 0x100 + b2 * 0x1_0000 + b3 * 0x100_0000 + b4 * 0x1_0000_0000 + b5
        * 0x100_0000_0000 + b6 * 0x1_0000_0000_0000 + b7 * 0x100_0000_0000_0000;
    proof {
        assert(r as int == le64(digest@));
    }
    r
}

/// Compares two byte strings.
pub fn bytes_eq(a: &Vec<u8>, b: &Vec<u8>) -> (r: bool)
    ensures
        r == (a@ == b@),
{
    if a.len() != b.len() {
        proof {
            assert(a@.len() != b@.len());
        }
        return false;
    }
    let mut i: usize = 0;
    while i < a.len()
        invariant
            i <= a@.len(),
            a@.len() == b@.len(),
            forall|k: int| 0 <= k < i ==> a@[k] == b@[k],
        decreases a@.len() - i,
    {
        if a[i] != b[i] {
            return false;
        }
        i = i + 1;
    }
    proof {
        assert(a@ =~= b@);
    }
    true
}

/// The view of one scanner cache entry: which project it serves, the roster
/// signature it was built for, and the compiled pattern list.
pub ghost struct ScannerEntryV {
    pub project_id: Seq<u8>,
    pub signature: int,
    pub patterns: Seq<Pattern>,
}

struct ScannerCacheEntry {
    project_id: Vec<u8>,
    signature: u64,
    scanner: CharacterScanner,
}

/// Project id → (roster signature, compiled scanner). A scanner is reused
/// exactly when the current roster signature equals the stored one.
pub struct ScannerCache {
    entries: Vec<ScannerCacheEntry>,
}

/// The index of the entry for `pid`, or `-1`.
pub open spec fn sc_index(es: Seq<ScannerEntryV>, pid: Seq<u8>) -> int
    decreases es.len(),
{
    if es.len() == 0 {
        -1
    } else if es.first().project_id == pid {
        0
    } else if sc_index(es.drop_first(), pid) < 0 {
        -1
    } else {
        sc_index(es.drop_first(), pid) + 1
    }
}

/// The patterns cached for `pid`, provided the stored signature is `sig`.
pub open spec fn cached_patterns(es: Seq<ScannerEntryV>, pid: Seq<u8>, sig: int) -> Option<
    Seq<Pattern>,
> {
    let i = sc_index(es, pid);
    if i >= 0 && es[i].signature == sig {
        Some(es[i].patterns)
    } else {
        None
    }
}

/// The pattern list an analysis of this roster uses, given the cache state:
/// the cached one when the signature matches, a fresh compilation
/// otherwise.
pub open spec fn analysis_patterns(
    es: Seq<ScannerEntryV>,
    pid: Seq<u8>,
    idents: Seq<CharacterIdent>,
) -> Seq<Pattern> {
    match cached_patterns(es, pid, signature_of(idents)) {
        Option::Some(p) => p,
        Option::None => patterns_of(idents),
    }
}

/// The cache after the entry for `pid` is set to `(sig, pats)`.
pub open spec fn sc_update(
    es: Seq<ScannerEntryV>,
    pid: Seq<u8>,
    sig: int,
    pats: Seq<Pattern>,
) -> Seq<ScannerEntryV> {
    let e = ScannerEntryV { project_id: pid, signature: sig, patterns: pats };
    if sc_index(es, pid) >= 0 {
        es.update(sc_index(es, pid), e)
    } else {
        es.push(e)
    }
}

/// The entry for `pid` sits where `sc_index` says, and nowhere before.
proof fn lemma_sc_index(es: Seq<ScannerEntryV>, pid: Seq<u8>)
    ensures
        sc_index(es, pid) < 0 ==> forall|k: int| 0 <= k < es.len() ==> (#[trigger] es[k]).project_id
            != pid,
        sc_index(es, pid) >= 0 ==> sc_index(es, pid) < es.len() && es[sc_index(
            es,
            pid,
        )].project_id == pid && forall|k: int|
            0 <= k < sc_index(es, pid) ==> (#[trigger] es[k]).project_id != pid,
    decreases es.len(),
{
    if es.len() > 0 && es.first().project_id != pid {
        lemma_sc_index(es.drop_first(), pid);
        assert(forall|k: int| 1 <= k < es.len() ==> es[k] == es.drop_first()[k - 1]);
    }
}

impl ScannerCache {
    /// The entries, as views.
    pub closed spec fn entries_view(self) -> Seq<ScannerEntryV> {
        self.entries@.map_values(
            |e: ScannerCacheEntry|
                ScannerEntryV {
                    project_id: e.project_id@,
                    signature: e.signature as int,
                    patterns: e.scanner.patterns(),
                },
        )
    }

    /// Every stored scanner is well formed, and project ids are unique.
    pub closed spec fn wf(self) -> bool {
        &&& forall|k: int| 0 <= k < self.entries@.len() ==> (#[trigger] self.entries@[k]).scanner.wf()
        &&& forall|k: int, l: int|
            0 <= k < l < self.entries@.len() ==> (#[trigger] self.entries@[k]).project_id@ != (
            #[trigger] self.entries@[l]).project_id@
    }

    /// An empty cache.
    pub fn new() -> (r: ScannerCache)
        ensures
            r.wf(),
            r.entries_view() == Seq::<ScannerEntryV>::empty(),
    {
        let r = ScannerCache { entries: Vec::new() };
        proof {
            assert(r.entries_view() =~= Seq::<ScannerEntryV>::empty());
        }
        r
    }

    /// Returns a scanner for this roster: the cached one when the stored
    /// signature matches the roster's current signature, a freshly compiled
    /// one otherwise (which is then stored). Fails exactly when a rebuild
    /// was needed and the compilation failed.
    pub fn get_or_create(&mut self, project_id: &Vec<u8>, characters: &Vec<Character>) -> (r:
        Result<(CharacterScanner, u64), BuildError>)
        requires
            old(self).wf(),
        ensures
            final(self).wf(),
            ({
                let idents = roster_idents(characters@);
                let sig = signature_of(idents);
                let v0 = old(self).entries_view();
                let v1 = final(self).entries_view();
                &&& (r matches Ok((s, g)) ==> s.wf() && g as int == sig && s.patterns()
                    == analysis_patterns(v0, project_id@, idents))
                &&& (cached_patterns(v0, project_id@, sig) is Some ==> r is Ok && v1 == v0)
                &&& (cached_patterns(v0, project_id@, sig) is None ==> {
                    &&& (r is Ok <==> characters@.len() > 0 && ac_buildable(
                        pattern_bytes(patterns_of(idents)),
                    ))
                    &&& (r is Ok ==> v1 == sc_update(v0, project_id@, sig, patterns_of(idents)))
                    &&& (r is Err ==> v1 == v0)
                    &&& (characters@.len() == 0 <==> r matches Err(BuildError::EmptyRoster))
                })
            }),
    {
        let ghost v0 = self.entries_view();
        let ghost idents = roster_idents(characters@);
        let sig = roster_signature(characters);
        proof {
            lemma_sc_index(v0, project_id@);
        }
        let mut i: usize = 0;
        let mut found = false;
        let mut at: usize = 0;
        while i < self.entries.len()
            invariant
                at <= i <= self.entries@.len(),
                v0 == self.entries_view(),
                !found ==> forall|k: int| 0 <= k < i ==> (#[trigger] v0[k]).project_id
                    != project_id@,
                found ==> at < i && v0[at as int].project_id == project_id@,
            decreases self.entries@.len() - i,
        {
            if !found && bytes_eq(&self.entries[i].project_id, project_id) {
                proof {
                    assert(v0[i as int].project_id == project_id@);
                }
                found = true;
                at = i;
            }
            i = i + 1;
        }
        proof {
            if found {
                assert(sc_index(v0, project_id@) == at as int) by {
                    lemma_sc_index(v0, project_id@);
                    if sc_index(v0, project_id@) < 0 {
                    } else if sc_index(v0, project_id@) != at as int {
                        assert(v0[sc_index(v0, project_id@)].project_id == project_id@);
                        assert(old(self).entries@[sc_index(v0, project_id@)].project_id@
                            == project_id@);
                        assert(old(self).entries@[at as int].project_id@ == project_id@);
                    }
                }
            } else {
                assert(sc_index(v0, project_id@) < 0) by {
                    lemma_sc_index(v0, project_id@);
                    if sc_index(v0, project_id@) >= 0 {
                        assert(v0[sc_index(v0, project_id@)].project_id == project_id@);
                    }
                }
            }
        }
        if found && self.entries[at].signature == sig {
            proof {
                assert(v0[at as int].signature == sig as int);
                assert(cached_patterns(v0, project_id@, sig as int) == Some(
                    v0[at as int].patterns,
                ));
                assert(self.entries@[at as int].scanner.wf());
            }
            let dup = self.entries[at].scanner.duplicate();
            return Ok((dup, sig));
        }
        proof {
            assert(cached_patterns(v0, project_id@, signature_of(idents)) is None);
        }
        match CharacterScanner::try_new(characters) {
            Ok(s) => {
                let dup = s.duplicate();
                let entry = ScannerCacheEntry {
                    project_id: crate::graph::clone_bytes(project_id),
                    signature: sig,
                    scanner: s,
                };
                let ghost ev = ScannerEntryV {
                    project_id: project_id@,
                    signature: sig as int,
                    patterns: patterns_of(idents),
                };
                if found {
                    self.entries.set(at, entry);
                    proof {
                        assert(self.entries_view() =~= v0.update(at as int, ev));
                    }
                } else {
                    self.entries.push(entry);
                    proof {
                        assert(self.entries_view() =~= v0.push(ev));
                    }
                }
                proof {
                    assert(final(self).entries_view() == sc_update(
                        v0,
                        project_id@,
                        sig as int,
                        patterns_of(idents),
                    ));
                    assert forall|k: int, l: int|
                        0 <= k < l < self.entries@.len() implies (
                    #[trigger] self.entries@[k]).project_id@ != (
                    #[trigger] self.entries@[l]).project_id@ by {
                        if found {
                        } else {
                            if l == self.entries@.len() - 1 {
                                assert(v0[k].project_id != project_id@);
                            }
                        }
                    }
                }
                Ok((dup, sig))
            },
            Err(e) => Err(e),
        }
    }
}

/// The mention list that scanning `text` against the pattern list `ps`
/// yields, with each offset translated to its word index.
pub open spec fn mention_seq(ps: Seq<Pattern>, text: Seq<u8>) -> Seq<Mention> {
    Seq::new(
        scan_mentions(ps, text).len(),
        |k: int|
            Mention {
                offset: scan_mentions(ps, text)[k].0 as usize,
                word_index: word_index_of(text, scan_mentions(ps, text)[k].0) as usize,
                character: scan_mentions(ps, text)[k].1 as usize,
            },
    )
}

/// The view of one mention cache entry: the chapter key, the file metadata
/// and roster signature it is valid for, the stored mentions, and the
/// pattern list and text they were computed from.
pub ghost struct MentionEntryV {
    pub chapter_id: Seq<u8>,
    pub file_len: u64,
    pub modified: u64,
    pub signature: int,
    pub mentions: Seq<Mention>,
    pub pats: Seq<Pattern>,
    pub text: Seq<u8>,
}

struct MentionCacheEntry {
    chapter_id: Vec<u8>,
    file_len: u64,
    modified: u64,
    signature: u64,
    mentions: Vec<Mention>,
    source: Ghost<(Seq<Pattern>, Seq<u8>)>,
}

/// Chapter id → (file length, modification time, roster signature, mention
/// list). An entry is reused only if all three of length, time and
/// signature match the chapter's current state.
pub struct MentionCache {
    entries: Vec<MentionCacheEntry>,
}

/// The index of the entry for chapter `id`, or `-1`.
pub open spec fn mc_index(es: Seq<MentionEntryV>, id: Seq<u8>) -> int
    decreases es.len(),
{
    if es.len() == 0 {
        -1
    } else if es.first().chapter_id == id {
        0
    } else if mc_index(es.drop_first(), id) < 0 {
        -1
    } else {
        mc_index(es.drop_first(), id) + 1
    }
}

/// The cache holds an entry for this chapter whose file length, time and
/// signature all match.
pub open spec fn mc_valid(
    es: Seq<MentionEntryV>,
    id: Seq<u8>,
    len: u64,
    modified: u64,
    sig: int,
) -> bool {
    let i = mc_index(es, id);
    i >= 0 && es[i].file_len == len && es[i].modified == modified && es[i].signature == sig
}

/// The mentions stored for this chapter (meaningful when an entry exists).
pub open spec fn mc_mentions(es: Seq<MentionEntryV>, id: Seq<u8>) -> Seq<Mention> {
    if mc_index(es, id) >= 0 {
        es[mc_index(es, id)].mentions
    } else {
        Seq::empty()
    }
}

/// The cache after the entry for chapter `e.chapter_id` is set to `e`.
pub open spec fn mc_update(es: Seq<MentionEntryV>, e: MentionEntryV) -> Seq<MentionEntryV> {
    if mc_index(es, e.chapter_id) >= 0 {
        es.update(mc_index(es, e.chapter_id), e)
    } else {
        es.push(e)
    }
}

/// The entry for an id sits where `mc_index` says, and nowhere before.
proof fn lemma_mc_index(es: Seq<MentionEntryV>, id: Seq<u8>)
    ensures
        mc_index(es, id) < 0 ==> forall|k: int| 0 <= k < es.len() ==> (#[trigger] es[k]).chapter_id
            != id,
        mc_index(es, id) >= 0 ==> mc_index(es, id) < es.len() && es[mc_index(es, id)].chapter_id
            == id && forall|k: int|
            0 <= k < mc_index(es, id) ==> (#[trigger] es[k]).chapter_id != id,
    decreases es.len(),
{
    if es.len() > 0 && es.first().chapter_id != id {
        lemma_mc_index(es.drop_first(), id);
        assert(forall|k: int| 1 <= k < es.len() ==> es[k] == es.drop_first()[k - 1]);
    }
}

impl MentionCache {
    /// The entries, as views.
    pub closed spec fn entries_view(self) -> Seq<MentionEntryV> {
        self.entries@.map_values(
            |e: MentionCacheEntry|
                MentionEntryV {
                    chapter_id: e.chapter_id@,
                    file_len: e.file_len,
                    modified: e.modified,
                    signature: e.signature as int,
                    mentions: e.mentions@,
                    pats: e.source@.0,
                    text: e.source@.1,
                },
        )
    }

    /// Chapter ids are unique, and every stored mention list is the scan of
    /// the text it was recorded from.
    pub open spec fn wf(self) -> bool {
        &&& forall|k: int, l: int|
            0 <= k < l < self.entries_view().len() ==> (
            #[trigger] self.entries_view()[k]).chapter_id != (
            #[trigger] self.entries_view()[l]).chapter_id
        &&& forall|k: int|
            0 <= k < self.entries_view().len() ==> (#[trigger] self.entries_view()[k]).mentions
                == mention_seq(self.entries_view()[k].pats, self.entries_view()[k].text)
    }

    /// An empty cache.
    pub fn new() -> (r: MentionCache)
        ensures
            r.wf(),
            r.entries_view() == Seq::<MentionEntryV>::empty(),
    {
        let r = MentionCache { entries: Vec::new() };
        proof {
            assert(r.entries_view() =~= Seq::<MentionEntryV>::empty());
        }
        r
    }

    /// Finds the position of the entry for this chapter id, if any.
    fn find_index(&self, chapter_id: &Vec<u8>) -> (r: Option<usize>)
        ensures
            ({
                let i = mc_index(self.entries_view(), chapter_id@);
                match r {
                    Option::Some(at) => at as int == i && (at as int) < self.entries_view().len(),
                    Option::None => i < 0,
                }
            }),
    {
        let ghost v = self.entries_view();
        proof {
            lemma_mc_index(v, chapter_id@);
        }
        let mut i: usize = 0;
        while i < self.entries.len()
            invariant
                i <= self.entries@.len(),
                v == self.entries_view(),
                forall|k: int| 0 <= k < i ==> (#[trigger] v[k]).chapter_id != chapter_id@,
            decreases self.entries@.len() - i,
        {
            if bytes_eq(&self.entries[i].chapter_id, chapter_id) {
                proof {
                    assert(v[i as int].chapter_id == chapter_id@);
                    lemma_mc_index(v, chapter_id@);
                    assert(mc_index(v, chapter_id@) == i as int) by {
                        if mc_index(v, chapter_id@) < 0 {
                            assert(v[i as int].chapter_id != chapter_id@);
                        } else if mc_index(v, chapter_id@) < i as int {
                            assert(v[mc_index(v, chapter_id@)].chapter_id == chapter_id@);
                        } else if mc_index(v, chapter_id@) > i as int {
                            assert(v[i as int].chapter_id != chapter_id@);
                        }
                    }
                }
                return Some(i);
            }
            i = i + 1;
        }
        proof {
            lemma_mc_index(v, chapter_id@);
            if mc_index(v, chapter_id@) >= 0 {
                assert(v[mc_index(v, chapter_id@)].chapter_id == chapter_id@);
            }
        }
        None
    }

    /// Metadata-first lookup: returns the stored mentions exactly when the
    /// chapter's current file length, modification time and roster
    /// signature all match the entry; no content is touched.
    pub fn lookup_mentions(
        &self,
        chapter_id: &Vec<u8>,
        file_len: u64,
        modified: u64,
        signature: u64,
    ) -> (r: Option<Vec<Mention>>)
        ensures
            r is Some <==> mc_valid(
                self.entries_view(),
                chapter_id@,
                file_len,
                modified,
                signature as int,
            ),
            r matches Some(m) ==> m@ == mc_mentions(self.entries_view(), chapter_id@),
    {
        let ghost v = self.entries_view();
        match self.find_index(chapter_id) {
            Option::Some(at) => {
                proof {
                    lemma_mc_index(v, chapter_id@);
                    assert(v[at as int] == MentionEntryV {
                        chapter_id: self.entries@[at as int].chapter_id@,
                        file_len: self.entries@[at as int].file_len,
                        modified: self.entries@[at as int].modified,
                        signature: self.entries@[at as int].signature as int,
                        mentions: self.entries@[at as int].mentions@,
                        pats: self.entries@[at as int].source@.0,
                        text: self.entries@[at as int].source@.1,
                    });
                }
                let e = &self.entries[at];
                if e.file_len == file_len && e.modified == modified && e.signature == signature {
                    Some(clone_mentions(&e.mentions))
                } else {
                    None
                }
            },
            Option::None => None,
        }
    }

    /// Scans `text`, translates each mention's offset to a word index, and
    /// records the result for this chapter under the given file metadata
    /// and signature, replacing any older entry for the chapter.
    pub fn record_scan(
        &mut self,
        chapter_id: &Vec<u8>,
        file_len: u64,
        modified: u64,
        signature: u64,
        scanner: &CharacterScanner,
        text: &Vec<u8>,
    ) -> (r: Vec<Mention>)
        requires
            old(self).wf(),
            scanner.wf(),
        ensures
            final(self).wf(),
            r@ == mention_seq(scanner.patterns(), text@),
            final(self).entries_view() == mc_update(
                old(self).entries_view(),
                MentionEntryV {
                    chapter_id: chapter_id@,
                    file_len,
                    modified,
                    signature: signature as int,
                    mentions: mention_seq(scanner.patterns(), text@),
                    pats: scanner.patterns(),
                    text: text@,
                },
        ),
    {
        let ghost v0 = self.entries_view();
        let raw = scanner.scan(text.as_slice());
        let indexer = WordIndexer::new(text.as_slice());
        let ghost sm = scan_mentions(scanner.patterns(), text@);
        let ghost target = mention_seq(scanner.patterns(), text@);
        let mut mentions: Vec<Mention> = Vec::new();
        let mut k: usize = 0;
        proof {
            assert(raw@.map_values(|m: (usize, usize)| (m.0 as int, m.1 as int)) == sm);
            assert(mentions@ =~= target.take(0));
        }
        while k < raw.len()
            invariant
                k <= raw@.len(),
                raw@.map_values(|m: (usize, usize)| (m.0 as int, m.1 as int)) == sm,
                sm == scan_mentions(scanner.patterns(), text@),
                target == mention_seq(scanner.patterns(), text@),
                indexer.wf(),
                indexer.for_text(text@),
                mentions@ == target.take(k as int),
            decreases raw@.len() - k,
        {
            let (off, ch) = raw[k];
            proof {
                assert(sm[k as int] == (off as int, ch as int));
            }
            let w = indexer.get_word_index(off);
            mentions.push(Mention { offset: off, word_index: w, character: ch });
            k = k + 1;
            proof {
                assert(target[k - 1] == Mention { offset: off, word_index: w, character: ch });
                assert(mentions@ =~= target.take(k as int));
            }
        }
        proof {
            assert(target.take(target.len() as int) =~= target);
        }
        let stored = clone_mentions(&mentions);
        let entry = MentionCacheEntry {
            chapter_id: crate::graph::clone_bytes(chapter_id),
            file_len,
            modified,
            signature,
            mentions: stored,
            source: Ghost((scanner.patterns(), text@)),
        };
        let ghost ev = MentionEntryV {
            chapter_id: chapter_id@,
            file_len,
            modified,
            signature: signature as int,
            mentions: target,
            pats: scanner.patterns(),
            text: text@,
        };
        proof {
            lemma_mc_index(v0, chapter_id@);
        }
        match self.find_index(chapter_id) {
            Option::Some(at) => {
                self.entries.set(at, entry);
                proof {
                    assert(self.entries_view() =~= v0.update(at as int, ev));
                }
            },
            Option::None => {
                self.entries.push(entry);
                proof {
                    assert(self.entries_view() =~= v0.push(ev));
                }
            },
        }
        proof {
            assert(final(self).entries_view() == mc_update(v0, ev));
            let v1 = self.entries_view();
            assert forall|x: int, l: int| 0 <= x < l < v1.len() implies (
            #[trigger] v1[x]).chapter_id != (#[trigger] v1[l]).chapter_id by {
                if mc_index(v0, chapter_id@) < 0 && l == v1.len() - 1 {
                    assert(v0[x].chapter_id != chapter_id@);
                }
            }
        }
        mentions
    }
}

/// Configuration of one analysis request.
pub struct AnalysisOptions {
    /// Word-distance cutoff beyond which no proximity bonus accrues.
    pub proximity_window: usize,
    /// Minimum accumulated edge weight to retain, in milli-units.
    pub prune_threshold: u64,
    /// Restrict the analysis to these chapter ids, when present.
    pub chapter_filter: Option<Vec<Vec<u8>>>,
}

/// One chapter as the caller hands it in: its id, the stat results of its
/// file, and its content where the caller read it (`None` when the read
/// failed — such a chapter is treated as empty).
pub struct ChapterData {
    pub chapter_id: Vec<u8>,
    pub file_len: u64,
    pub modified: u64,
    pub content: Option<Vec<u8>>,
}

/// `id` is one of the byte strings of `f`.
pub open spec fn filter_contains(f: Seq<Vec<u8>>, id: Seq<u8>) -> bool {
    exists|k: int| 0 <= k < f.len() && (#[trigger] f[k])@ == id
}

/// The chapter is part of this analysis: no filter, or its id is listed.
pub open spec fn included(o: AnalysisOptions, id: Seq<u8>) -> bool {
    match o.chapter_filter {
        Option::None => true,
        Option::Some(f) => filter_contains(f@, id),
    }
}

/// Decides whether the chapter is part of the analysis.
fn is_included(options: &AnalysisOptions, id: &Vec<u8>) -> (r: bool)
    ensures
        r == included(*options, id@),
{
    match &options.chapter_filter {
        Option::None => true,
        Option::Some(f) => {
            let mut k: usize = 0;
            while k < f.len()
                invariant
                    k <= f@.len(),
                    options.chapter_filter matches Some(fv) && fv@ == f@,
                    forall|j: int| 0 <= j < k ==> (#[trigger] f@[j])@ != id@,
                decreases f@.len() - k,
            {
                if bytes_eq(&f[k], id) {
                    return true;
                }
                k = k + 1;
            }
            false
        },
    }
}

/// The cache entry one cache-missed chapter leaves behind.
pub open spec fn chapter_entry(pats: Seq<Pattern>, sig: int, ch: ChapterData) -> MentionEntryV {
    MentionEntryV {
        chapter_id: ch.chapter_id@,
        file_len: ch.file_len,
        modified: ch.modified,
        signature: sig,
        mentions: mention_seq(pats, ch.content->0@),
        pats,
        text: ch.content->0@,
    }
}

/// How one chapter changes the mention cache: a record is written exactly
/// when the chapter is included, the cache has no valid entry for it, and
/// its content was readable.
pub open spec fn mc_step(
    mv: Seq<MentionEntryV>,
    pats: Seq<Pattern>,
    sig: int,
    o: AnalysisOptions,
    ch: ChapterData,
) -> Seq<MentionEntryV> {
    if included(o, ch.chapter_id@) && !mc_valid(mv, ch.chapter_id@, ch.file_len, ch.modified, sig)
        && ch.content is Some {
        mc_update(mv, chapter_entry(pats, sig, ch))
    } else {
        mv
    }
}

/// The mention cache after the first `k` chapters were processed.
pub open spec fn mc_after(
    mv: Seq<MentionEntryV>,
    pats: Seq<Pattern>,
    sig: int,
    o: AnalysisOptions,
    chapters: Seq<ChapterData>,
    k: int,
) -> Seq<MentionEntryV>
    decreases k,
{
    if k <= 0 {
        mv
    } else {
        mc_step(mc_after(mv, pats, sig, o, chapters, k - 1), pats, sig, o, chapters[k - 1])
    }
}

/// The mentions one chapter contributes to the analysis: the cached list on
/// a valid hit, a fresh scan of its content on a miss, nothing when it is
/// filtered out or unreadable.
pub open spec fn chapter_used(
    mv: Seq<MentionEntryV>,
    pats: Seq<Pattern>,
    sig: int,
    o: AnalysisOptions,
    ch: ChapterData,
) -> Seq<Mention> {
    if !included(o, ch.chapter_id@) {
        Seq::empty()
    } else if mc_valid(mv, ch.chapter_id@, ch.file_len, ch.modified, sig) {
        mc_mentions(mv, ch.chapter_id@)
    } else {
        match ch.content {
            Option::Some(t) => mention_seq(pats, t@),
            Option::None => Seq::empty(),
        }
    }
}

/// The per-chapter scan inputs `cs` are exactly what this analysis feeds
/// the graph builder: one entry per requested chapter, carrying the
/// mentions `chapter_used` describes against the evolving cache.
pub open spec fn chapters_used_match(
    mv: Seq<MentionEntryV>,
    pats: Seq<Pattern>,
    sig: int,
    o: AnalysisOptions,
    chapters: Seq<ChapterData>,
    cs: Seq<ChapterScan>,
) -> bool {
    &&& cs.len() == chapters.len()
    &&& forall|k: int|
        0 <= k < chapters.len() ==> (#[trigger] cs[k]).chapter_id@ == chapters[k].chapter_id@
            && cs[k].mentions@ == chapter_used(
            mc_after(mv, pats, sig, o, chapters, k),
            pats,
            sig,
            o,
            chapters[k],
        )
}

/// What one analysis run does, as a relation between the cache states
/// before and after, the inputs, and the result. The analysis fails only
/// when the scanner had to be rebuilt and the automaton construction
/// failed; an empty roster yields an empty graph and touches nothing.
pub open spec fn analyze_post(
    sv0: Seq<ScannerEntryV>,
    sv1: Seq<ScannerEntryV>,
    mv0: Seq<MentionEntryV>,
    mv1: Seq<MentionEntryV>,
    project_id: Seq<u8>,
    characters: Seq<Character>,
    chapters: Seq<ChapterData>,
    o: AnalysisOptions,
    r: Result<CharacterGraphPayload, BuildError>,
) -> bool {
    let idents = roster_idents(characters);
    let sig = signature_of(idents);
    let pats = analysis_patterns(sv0, project_id, idents);
    if characters.len() == 0 {
        &&& sv1 == sv0
        &&& mv1 == mv0
        &&& r matches Ok(p) && crate::graph::payload_matches(
            characters,
            Seq::empty(),
            o.proximity_window as int,
            100,
            o.prune_threshold as int,
            p,
        )
    } else {
        match r {
            Result::Ok(p) => {
                &&& (cached_patterns(sv0, project_id, sig) is None ==> ac_buildable(
                    pattern_bytes(patterns_of(idents)),
                ))
                &&& (exists|cs: Seq<ChapterScan>|
                    chapters_used_match(mv0, pats, sig, o, chapters, cs)
                        && crate::graph::payload_matches(
                        characters,
                        cs,
                        o.proximity_window as int,
                        100,
                        o.prune_threshold as int,
                        p,
                    ))
                &&& sv1 == (if cached_patterns(sv0, project_id, sig) is Some {
                    sv0
                } else {
                    sc_update(sv0, project_id, sig, patterns_of(idents))
                })
                &&& mv1 == mc_after(mv0, pats, sig, o, chapters, chapters.len() as int)
            },
            Result::Err(e) => {
                &&& e is Automaton
                &&& cached_patterns(sv0, project_id, sig) is None
                &&& !ac_buildable(pattern_bytes(patterns_of(idents)))
                &&& sv1 == sv0
                &&& mv1 == mv0
            },
        }
    }
}

/// Analyzes a project: obtains a scanner for the roster (from cache or
/// freshly compiled), resolves each requested chapter's mentions (cached on
/// a metadata hit, scanned from the given content on a miss, empty when
/// unreadable), and aggregates everything into the interaction graph. An
/// empty roster short-circuits to an empty graph; a failed chapter never
/// fails the request.
pub fn analyze_project(
    scanner_cache: &mut ScannerCache,
    mention_cache: &mut MentionCache,
    project_id: &Vec<u8>,
    characters: &Vec<Character>,
    chapters: &Vec<ChapterData>,
    options: &AnalysisOptions,
) -> (r: Result<CharacterGraphPayload, BuildError>)
    requires
        old(scanner_cache).wf(),
        old(mention_cache).wf(),
    ensures
        final(scanner_cache).wf(),
        final(mention_cache).wf(),
        analyze_post(
            old(scanner_cache).entries_view(),
            final(scanner_cache).entries_view(),
            old(mention_cache).entries_view(),
            final(mention_cache).entries_view(),
            project_id@,
            characters@,
            chapters@,
            *options,
            r,
        ),
{
    let ghost sv0 = scanner_cache.entries_view();
    let ghost mv0 = mention_cache.entries_view();
    let ghost idents = roster_idents(characters@);
    let ghost sig_g = signature_of(idents);

    if characters.len() == 0 {
        let empty: Vec<ChapterScan> = Vec::new();
        let payload = crate::graph::build_character_graph(
            characters,
            &empty,
            options.proximity_window,
            options.prune_threshold,
            None,
        );
        return Ok(payload);
    }

    let (scanner, sig) = match scanner_cache.get_or_create(project_id, characters) {
        Ok(pair) => pair,
        Err(e) => {
            proof {
                assert(e is Automaton);
            }
            return Err(e);
        },
    };
    let ghost pats = scanner.patterns();

    let mut scans: Vec<ChapterScan> = Vec::new();
    let mut t: usize = 0;
    proof {
        assert(mention_cache.entries_view() =~= mc_after(mv0, pats, sig_g, *options, chapters@, 0));
    }
    while t < chapters.len()
        invariant
            t <= chapters@.len(),
            scanner.wf(),
            pats == scanner.patterns(),
            sig as int == sig_g,
            mention_cache.wf(),
            mention_cache.entries_view() == mc_after(
                mv0,
                pats,
                sig_g,
                *options,
                chapters@,
                t as int,
            ),
            scans@.len() == t,
            forall|k: int|
                0 <= k < t ==> (#[trigger] scans@[k]).chapter_id@ == chapters@[k].chapter_id@
                    && scans@[k].mentions@ == chapter_used(
                    mc_after(mv0, pats, sig_g, *options, chapters@, k),
                    pats,
                    sig_g,
                    *options,
                    chapters@[k],
                ),
        decreases chapters@.len() - t,
    {
        let ghost mv_t = mention_cache.entries_view();
        let chapter = &chapters[t];
        let inc = is_included(options, &chapter.chapter_id);
        let mentions: Vec<Mention> = if !inc {
            Vec::new()
        } else {
            match mention_cache.lookup_mentions(
                &chapter.chapter_id,
                chapter.file_len,
                chapter.modified,
                sig,
            ) {
                Option::Some(m) => m,
                Option::None => {
                    match &chapter.content {
                        Option::Some(text) => mention_cache.record_scan(
                            &chapter.chapter_id,
                            chapter.file_len,
                            chapter.modified,
                            sig,
                            &scanner,
                            text,
                        ),
                        Option::None => Vec::new(),
                    }
                },
            }
        };
        proof {
            assert(mentions@ == chapter_used(mv_t, pats, sig_g, *options, chapters@[t as int]));
            assert(mention_cache.entries_view() == mc_step(
                mv_t,
                pats,
                sig_g,
                *options,
                chapters@[t as int],
            ));
        }
        scans.push(
            ChapterScan { chapter_id: crate::graph::clone_bytes(&chapter.chapter_id), mentions },
        );
        t = t + 1;
    }

    let payload = crate::graph::build_character_graph(
        characters,
        &scans,
        options.proximity_window,
        options.prune_threshold,
        None,
    );
    proof {
        assert(chapters_used_match(mv0, pats, sig_g, *options, chapters@, scans@));
    }
    Ok(payload)
}

/// The full entry stored for a chapter id, if any.
pub open spec fn mc_entry(es: Seq<MentionEntryV>, id: Seq<u8>) -> Option<MentionEntryV> {
    if mc_index(es, id) >= 0 {
        Some(es[mc_index(es, id)])
    } else {
        None
    }
}

/// Updating position `i` with an entry of the same id moves no index.
proof fn lemma_mc_index_update(es: Seq<MentionEntryV>, i: int, e: MentionEntryV, id: Seq<u8>)
    requires
        0 <= i < es.len(),
        es[i].chapter_id == e.chapter_id,
    ensures
        mc_index(es.update(i, e), id) == mc_index(es, id),
    decreases es.len(),
{
    let es2 = es.update(i, e);
    if es.len() > 0 {
        if i == 0 {
            assert(es2.first().chapter_id == es.first().chapter_id);
            if es.first().chapter_id != id {
                assert(es2.drop_first() =~= es.drop_first());
            }
        } else {
            assert(es2.first() == es.first());
            if es.first().chapter_id != id {
                assert(es2.drop_first() =~= es.drop_first().update(i - 1, e));
                lemma_mc_index_update(es.drop_first(), i - 1, e, id);
            }
        }
    }
}

/// Where a pushed entry lands in the index.
proof fn lemma_mc_index_push(es: Seq<MentionEntryV>, e: MentionEntryV, id: Seq<u8>)
    ensures
        mc_index(es.push(e), id) == if mc_index(es, id) >= 0 {
            mc_index(es, id)
        } else if e.chapter_id == id {
            es.len() as int
        } else {
            -1
        },
    decreases es.len(),
{
    let es2 = es.push(e);
    if es.len() == 0 {
        assert(es2.len() == 1);
        assert(es2.first() == e);
        assert(es2.drop_first() =~= Seq::<MentionEntryV>::empty());
        assert(mc_index(es2.drop_first(), id) == -1);
        if e.chapter_id == id {
            assert(mc_index(es2, id) == 0);
        } else {
            assert(mc_index(es2, id) == -1);
        }
    } else {
        assert(es2.first() == es.first());
        assert(es2.drop_first() =~= es.drop_first().push(e));
        lemma_mc_index_push(es.drop_first(), e, id);
        if es.first().chapter_id == id {
            assert(mc_index(es2, id) == 0);
            assert(mc_index(es, id) == 0);
        } else {
            assert(mc_index(es2, id) == if mc_index(es2.drop_first(), id) < 0 {
                -1int
            } else {
                mc_index(es2.drop_first(), id) + 1
            });
        }
    }
}

/// After an update, the updated id maps to the new entry.
proof fn lemma_mc_update_same(es: Seq<MentionEntryV>, e: MentionEntryV)
    ensures
        mc_entry(mc_update(es, e), e.chapter_id) == Some(e),
{
    lemma_mc_index(es, e.chapter_id);
    if mc_index(es, e.chapter_id) >= 0 {
        lemma_mc_index_update(es, mc_index(es, e.chapter_id), e, e.chapter_id);
    } else {
        lemma_mc_index_push(es, e, e.chapter_id);
    }
}

/// After an update, every other id maps to what it mapped to before.
proof fn lemma_mc_update_frame(es: Seq<MentionEntryV>, e: MentionEntryV, id: Seq<u8>)
    requires
        id != e.chapter_id,
    ensures
        mc_entry(mc_update(es, e), id) == mc_entry(es, id),
{
    lemma_mc_index(es, e.chapter_id);
    lemma_mc_index(es, id);
    if mc_index(es, e.chapter_id) >= 0 {
        lemma_mc_index_update(es, mc_index(es, e.chapter_id), e, id);
        if mc_index(es, id) >= 0 {
            assert(es[mc_index(es, id)].chapter_id == id);
            assert(mc_index(es, id) != mc_index(es, e.chapter_id));
        }
    } else {
        lemma_mc_index_push(es, e, id);
    }
}

/// A step for one chapter leaves every other chapter's entry alone.
proof fn lemma_mc_step_frame(
    mv: Seq<MentionEntryV>,
    pats: Seq<Pattern>,
    sig: int,
    o: AnalysisOptions,
    ch: ChapterData,
    id: Seq<u8>,
)
    requires
        id != ch.chapter_id@,
    ensures
        mc_entry(mc_step(mv, pats, sig, o, ch), id) == mc_entry(mv, id),
{
    if included(o, ch.chapter_id@) && !mc_valid(mv, ch.chapter_id@, ch.file_len, ch.modified, sig)
        && ch.content is Some {
        lemma_mc_update_frame(mv, chapter_entry(pats, sig, ch), id);
    }
}

/// Once chapter `k` has been processed, later chapters (all with other ids)
/// leave its entry alone.
proof fn lemma_mc_after_preserves(
    mv: Seq<MentionEntryV>,
    pats: Seq<Pattern>,
    sig: int,
    o: AnalysisOptions,
    chapters: Seq<ChapterData>,
    k: int,
    j: int,
)
    requires
        0 <= k < j <= chapters.len(),
        forall|x: int, y: int|
            0 <= x < y < chapters.len() ==> (#[trigger] chapters[x]).chapter_id@ != (
            #[trigger] chapters[y]).chapter_id@,
    ensures
        mc_entry(mc_after(mv, pats, sig, o, chapters, j), chapters[k].chapter_id@) == mc_entry(
            mc_after(mv, pats, sig, o, chapters, k + 1),
            chapters[k].chapter_id@,
        ),
    decreases j - k,
{
    if j > k + 1 {
        lemma_mc_after_preserves(mv, pats, sig, o, chapters, k, j - 1);
        assert(chapters[k].chapter_id@ != chapters[j - 1].chapter_id@);
        lemma_mc_step_frame(
            mc_after(mv, pats, sig, o, chapters, j - 1),
            pats,
            sig,
            o,
            chapters[j - 1],
            chapters[k].chapter_id@,
        );
    }
}

/// After a refreshing update, the scanner cache serves the new patterns.
proof fn lemma_sc_index_update(es: Seq<ScannerEntryV>, i: int, e: ScannerEntryV, pid: Seq<u8>)
    requires
        0 <= i < es.len(),
        es[i].project_id == e.project_id,
    ensures
        sc_index(es.update(i, e), pid) == sc_index(es, pid),
    decreases es.len(),
{
    let es2 = es.update(i, e);
    if es.len() > 0 {
        if i == 0 {
            assert(es2.first().project_id == es.first().project_id);
            if es.first().project_id != pid {
                assert(es2.drop_first() =~= es.drop_first());
            }
        } else {
            assert(es2.first() == es.first());
            if es.first().project_id != pid {
                assert(es2.drop_first() =~= es.drop_first().update(i - 1, e));
                lemma_sc_index_update(es.drop_first(), i - 1, e, pid);
            }
        }
    }
}

proof fn lemma_sc_index_push(es: Seq<ScannerEntryV>, e: ScannerEntryV, pid: Seq<u8>)
    ensures
        sc_index(es.push(e), pid) == if sc_index(es, pid) >= 0 {
            sc_index(es, pid)
        } else if e.project_id == pid {
            es.len() as int
        } else {
            -1
        },
    decreases es.len(),
{
    let es2 = es.push(e);
    if es.len() == 0 {
        assert(es2.len() == 1);
        assert(es2.first() == e);
        assert(es2.drop_first() =~= Seq::<ScannerEntryV>::empty());
        assert(sc_index(es2.drop_first(), pid) == -1);
        if e.project_id == pid {
            assert(sc_index(es2, pid) == 0);
        } else {
            assert(sc_index(es2, pid) == -1);
        }
    } else {
        assert(es2.first() == es.first());
        assert(es2.drop_first() =~= es.drop_first().push(e));
        lemma_sc_index_push(es.drop_first(), e, pid);
        if es.first().project_id == pid {
            assert(sc_index(es2, pid) == 0);
            assert(sc_index(es, pid) == 0);
        } else {
            assert(sc_index(es2, pid) == if sc_index(es2.drop_first(), pid) < 0 {
                -1int
            } else {
                sc_index(es2.drop_first(), pid) + 1
            });
        }
    }
}

/// After storing a freshly compiled scanner, the cache serves it for this
/// project and signature.
proof fn lemma_sc_update_found(es: Seq<ScannerEntryV>, pid: Seq<u8>, sig: int, pats: Seq<Pattern>)
    ensures
        cached_patterns(sc_update(es, pid, sig, pats), pid, sig) == Some(pats),
{
    let e = ScannerEntryV { project_id: pid, signature: sig, patterns: pats };
    lemma_sc_index(es, pid);
    if sc_index(es, pid) >= 0 {
        lemma_sc_index_update(es, sc_index(es, pid), e, pid);
    } else {
        lemma_sc_index_push(es, e, pid);
    }
}

/// Law of idempotence: running the same analysis twice, with the same
/// roster, the same chapter stats and contents and the same options,
/// returns an identical graph both times — the cache hits of the second run
/// reproduce exactly what the first run computed — and the second run
/// leaves both caches untouched.
pub proof fn lemma_analyze_idempotent(
    sv0: Seq<ScannerEntryV>,
    sv1: Seq<ScannerEntryV>,
    sv2: Seq<ScannerEntryV>,
    mv0: Seq<MentionEntryV>,
    mv1: Seq<MentionEntryV>,
    mv2: Seq<MentionEntryV>,
    project_id: Seq<u8>,
    characters: Seq<Character>,
    chapters: Seq<ChapterData>,
    o: AnalysisOptions,
    r1: Result<CharacterGraphPayload, BuildError>,
    r2: Result<CharacterGraphPayload, BuildError>,
)
    requires
        forall|x: int, y: int|
            0 <= x < y < chapters.len() ==> (#[trigger] chapters[x]).chapter_id@ != (
            #[trigger] chapters[y]).chapter_id@,
        analyze_post(sv0, sv1, mv0, mv1, project_id, characters, chapters, o, r1),
        analyze_post(sv1, sv2, mv1, mv2, project_id, characters, chapters, o, r2),
        r1 is Ok,
    ensures
        r2 is Ok,
        sv2 == sv1,
        mv2 == mv1,
        ({
            let p1 = r1->Ok_0;
            let p2 = r2->Ok_0;
            &&& p1.nodes@.len() == p2.nodes@.len()
            &&& forall|c: int|
                0 <= c < characters.len() ==> {
                    &&& (#[trigger] p1.nodes@[c]).mention_count == p2.nodes@[c].mention_count
                    &&& p1.nodes@[c].is_mapped == p2.nodes@[c].is_mapped
                    &&& p1.nodes@[c].id@ == p2.nodes@[c].id@
                    &&& p1.nodes@[c].label@ == p2.nodes@[c].label@
                    &&& (p1.nodes@[c].first_mention is None <==> p2.nodes@[c].first_mention
                        is None)
                    &&& (p1.nodes@[c].first_mention matches Some(l1) ==> p2.nodes@[c].first_mention
                        matches Some(l2) && l1.chapter_id@ == l2.chapter_id@ && l1.char_offset
                        == l2.char_offset)
                }
            &&& p1.edges@.len() == p2.edges@.len()
            &&& forall|k: int|
                0 <= k < p1.edges@.len() ==> {
                    &&& (#[trigger] p1.edges@[k]).source@ == p2.edges@[k].source@
                    &&& p1.edges@[k].target@ == p2.edges@[k].target@
                    &&& p1.edges@[k].weight == p2.edges@[k].weight
                    &&& p1.edges@[k].interaction_type == p2.edges@[k].interaction_type
                }
            &&& p1.metrics == p2.metrics
        }),
{
    let idents = roster_idents(characters);
    let sig = signature_of(idents);
    let w = o.proximity_window as int;
    let pr = o.prune_threshold as int;
    let p1 = r1->Ok_0;
    if characters.len() == 0 {
        let p2 = r2->Ok_0;
        crate::graph::lemma_payload_congruent(
            characters,
            Seq::empty(),
            Seq::empty(),
            w,
            100,
            pr,
            p1,
            p2,
        );
        return ;
    }
    let pats = analysis_patterns(sv0, project_id, idents);
    let len = chapters.len() as int;

    // the scanner cache now serves exactly the patterns the first run used
    assert(cached_patterns(sv1, project_id, sig) == Some(pats)) by {
        if cached_patterns(sv0, project_id, sig) is Some {
        } else {
            lemma_sc_update_found(sv0, project_id, sig, patterns_of(idents));
        }
    }
    assert(analysis_patterns(sv1, project_id, idents) == pats);
    assert(r2 is Ok) by {
        if r2 is Err {
            assert(cached_patterns(sv1, project_id, sig) is None);
        }
    }
    let p2 = r2->Ok_0;
    assert(sv2 == sv1);

    // every chapter that was included and resolvable is valid in the cache
    // the first run left behind, with exactly the mentions that run used
    assert forall|k: int| 0 <= k < len implies ({
        let ch = #[trigger] chapters[k];
        let used = chapter_used(mc_after(mv0, pats, sig, o, chapters, k), pats, sig, o, ch);
        &&& (included(o, ch.chapter_id@) && (mc_valid(
            mc_after(mv0, pats, sig, o, chapters, k),
            ch.chapter_id@,
            ch.file_len,
            ch.modified,
            sig,
        ) || ch.content is Some) ==> mc_valid(mv1, ch.chapter_id@, ch.file_len, ch.modified, sig)
            && mc_mentions(mv1, ch.chapter_id@) == used)
        &&& (included(o, ch.chapter_id@) && !mc_valid(
            mc_after(mv0, pats, sig, o, chapters, k),
            ch.chapter_id@,
            ch.file_len,
            ch.modified,
            sig,
        ) && ch.content is None ==> !mc_valid(mv1, ch.chapter_id@, ch.file_len, ch.modified, sig))
    }) by {
        let ch = chapters[k];
        let id = ch.chapter_id@;
        let mvk = mc_after(mv0, pats, sig, o, chapters, k);
        let after = mc_after(mv0, pats, sig, o, chapters, k + 1);
        assert(after == mc_step(mvk, pats, sig, o, ch));
        lemma_mc_after_preserves(mv0, pats, sig, o, chapters, k, len);
        assert(mv1 == mc_after(mv0, pats, sig, o, chapters, len));
        assert(mc_entry(mv1, id) == mc_entry(after, id));
        lemma_mc_index(mvk, id);
        lemma_mc_index(after, id);
        lemma_mc_index(mv1, id);
        if included(o, id) {
            if mc_valid(mvk, id, ch.file_len, ch.modified, sig) {
                assert(after == mvk);
            } else if ch.content is Some {
                lemma_mc_update_same(mvk, chapter_entry(pats, sig, ch));
                assert(mc_entry(after, id) == Some(chapter_entry(pats, sig, ch)));
            }
        }
    }

    // so the second run never writes: the cache is a fixed point
    assert forall|j: int| 0 <= j <= len implies mc_after(mv1, pats, sig, o, chapters, j)
        == mv1 by {
        lemma_mc_stable(mv0, mv1, pats, sig, o, chapters, j);
    }
    assert(mv2 == mv1);

    // and each chapter contributes the same mentions both times
    let cs1 = choose|cs: Seq<ChapterScan>|
        chapters_used_match(mv0, pats, sig, o, chapters, cs) && crate::graph::payload_matches(
            characters,
            cs,
            w,
            100,
            pr,
            p1,
        );
    let cs2 = choose|cs: Seq<ChapterScan>|
        chapters_used_match(mv1, pats, sig, o, chapters, cs) && crate::graph::payload_matches(
            characters,
            cs,
            w,
            100,
            pr,
            p2,
        );
    assert(crate::graph::chapters_view_equal(cs1, cs2)) by {
        assert forall|k: int| 0 <= k < len implies (#[trigger] cs2[k]).mentions@
            == cs1[k].mentions@ by {
            let ch = chapters[k];
            let id = ch.chapter_id@;
            let mvk = mc_after(mv0, pats, sig, o, chapters, k);
            assert(mc_after(mv1, pats, sig, o, chapters, k) == mv1);
            assert(cs1[k].mentions@ == chapter_used(mvk, pats, sig, o, ch));
            assert(cs2[k].mentions@ == chapter_used(mv1, pats, sig, o, ch));
            lemma_mc_index(mvk, id);
            lemma_mc_index(mv1, id);
        }
    }
    crate::graph::lemma_payload_congruent(characters, cs1, cs2, w, 100, pr, p1, p2);
}

/// The cache the first run left is a fixed point of the chapter steps.
proof fn lemma_mc_stable(
    mv0: Seq<MentionEntryV>,
    mv1: Seq<MentionEntryV>,
    pats: Seq<Pattern>,
    sig: int,
    o: AnalysisOptions,
    chapters: Seq<ChapterData>,
    j: int,
)
    requires
        0 <= j <= chapters.len(),
        forall|k: int|
            0 <= k < chapters.len() ==> ({
                let ch = #[trigger] chapters[k];
                included(o, ch.chapter_id@) && ch.content is Some ==> mc_valid(
                    mv1,
                    ch.chapter_id@,
                    ch.file_len,
                    ch.modified,
                    sig,
                )
            }),
    ensures
        mc_after(mv1, pats, sig, o, chapters, j) == mv1,
    decreases j,
{
    if j > 0 {
        lemma_mc_stable(mv0, mv1, pats, sig, o, chapters, j - 1);
        let ch = chapters[j - 1];
        assert(included(o, ch.chapter_id@) && ch.content is Some ==> mc_valid(
            mv1,
            ch.chapter_id@,
            ch.file_len,
            ch.modified,
            sig,
        ));
    }
}

/// Copies a mention list.
fn clone_mentions(v: &Vec<Mention>) -> (r: Vec<Mention>)
    ensures
        r@ == v@,
{
    let mut out: Vec<Mention> = Vec::new();
    let mut i: usize = 0;
    while i < v.len()
        invariant
            i <= v@.len(),
            out@ =~= v@.take(i as int),
        decreases v@.len() - i,
    {
        out.push(v[i]);
        i = i + 1;
    }
    proof {
        assert(v@.take(v@.len() as int) =~= v@);
    }
    out
}

} // verus!
