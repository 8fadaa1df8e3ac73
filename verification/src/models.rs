//! The data model: cast roster entries, chapters, the manifest and related
//! project records.
//!
//! Character ids, names and aliases are held as UTF-8 byte strings, since the
//! scanning engine works on bytes.

use vstd::prelude::*;
use vstd::string::StringExecFns;

verus! {

/// The narrative role of a character; used only for importance weighting.
/// Role weights strictly order Protagonist > Antagonist > Secondary > Extra.
#[derive(Clone, Copy, Debug, PartialEq, Eq, Structural)]
pub enum CharacterRole {
    Protagonist,
    Antagonist,
    Secondary,
    Extra,
}

/// Free-form motivation notes for a character.
#[derive(Clone, Debug)]
pub struct CharacterEngine {
    pub desire: String,
    pub fear: String,
    pub wound: String,
    pub secret: String,
}

impl Default for CharacterEngine {
    /// All four entries start empty.
    fn default() -> (r: CharacterEngine)
        ensures
            r.desire@.len() == 0,
            r.fear@.len() == 0,
            r.wound@.len() == 0,
            r.secret@.len() == 0,
    {
        CharacterEngine {
            desire: String::new(),
            fear: String::new(),
            wound: String::new(),
            secret: String::new(),
        }
    }
}

/// A cast roster entry. The id is opaque and globally unique; the name and
/// aliases seed the mention scanner; the role weights the importance score.
#[derive(Clone, Debug)]
pub struct Character {
    pub id: Vec<u8>,
    pub name: Vec<u8>,
    pub role: CharacterRole,
    pub archetype: String,
    pub description: String,
    pub engine: CharacterEngine,
    pub physical_features: String,
    pub traits: Vec<String>,
    pub arc: String,
    pub notes: String,
    pub aliases: Vec<Vec<u8>>,
}

/// The identity of a character as the scanner sees it: id bytes, name bytes,
/// alias byte strings.
pub ghost struct CharacterIdent {
    pub id: Seq<u8>,
    pub name: Seq<u8>,
    pub aliases: Seq<Seq<u8>>,
}

impl Character {
    /// The scanner-relevant projection of this entry.
    pub open spec fn ident(self) -> CharacterIdent {
        CharacterIdent {
            id: self.id@,
            name: self.name@,
            aliases: self.aliases.deep_view(),
        }
    }
}

/// The scanner-relevant projection of a whole roster.
pub open spec fn roster_idents(roster: Seq<Character>) -> Seq<CharacterIdent> {
    roster.map_values(|c: Character| c.ident())
}

/// The default word target of a project.
pub fn default_word_target() -> (r: u32)
    ensures
        r == 50000,
{
    50000
}

/// Writing-goal settings of a project.
#[derive(Clone, Debug)]
pub struct ProjectSettings {
    pub daily_target: u32,
    pub word_target: u32,
}

impl Default for ProjectSettings {
    /// 2000 words per day, 50000 words overall.
    fn default() -> (r: ProjectSettings)
        ensures
            r.daily_target == 2000,
            r.word_target == 50000,
    {
        ProjectSettings { daily_target: 2000, word_target: default_word_target() }
    }
}

/// A named plotline, used to group chapters into swimlanes.
#[derive(Clone, Debug)]
pub struct Plotline {
    pub id: String,
    pub name: String,
    pub color: String,
}

/// One chapter of the manuscript, as listed in the manifest.
#[derive(Clone, Debug)]
pub struct Chapter {
    pub id: String,
    pub parent_id: Option<String>,
    pub title: String,
    pub filename: String,
    pub word_count: u32,
    pub order: u32,
    /// ISO 8601 date/time for chronological placement.
    pub chronological_date: Option<String>,
    /// Abstract timeframe for fantasy or science fiction settings.
    pub abstract_timeframe: Option<String>,
    /// Estimated in-world duration.
    pub duration: Option<String>,
    /// Plotline tag for swimlane grouping.
    pub plotline_tag: Option<String>,
    /// Scene that must occur before this one.
    pub depends_on: Option<String>,
    /// Point-of-view character id.
    pub pov_character_id: Option<String>,
}

/// A partial update of a chapter's descriptive fields.
#[derive(Clone, Debug)]
pub struct NodeMetadataUpdate {
    pub title: Option<String>,
    pub chronological_date: Option<String>,
    pub abstract_timeframe: Option<String>,
    pub duration: Option<String>,
    pub plotline_tag: Option<String>,
    pub depends_on: Option<String>,
    pub pov_character_id: Option<String>,
}

/// The ordered chapter list of a project.
#[derive(Clone, Debug)]
pub struct Manifest {
    pub chapters: Vec<Chapter>,
}

impl Default for Manifest {
    /// A manifest with no chapters.
    fn default() -> (r: Manifest)
        ensures
            r.chapters@.len() == 0,
    {
        Manifest { chapters: Vec::new() }
    }
}

/// The view of an optional chapter reference.
pub open spec fn opt_view(o: Option<String>) -> Option<Seq<char>> {
    match o {
        Option::Some(s) => Some(s@),
        Option::None => None,
    }
}

/// `s` names every chapter whose parent it names: removing `s` leaves no
/// orphan.
pub open spec fn closed_under(chs: Seq<Chapter>, s: Set<Seq<char>>) -> bool {
    forall|k: int|
        0 <= k < chs.len() ==> match (#[trigger] chs[k]).parent_id {
            Option::Some(p) => s.contains(p@) ==> s.contains(chs[k].id@),
            Option::None => true,
        }
}

/// `s` is exactly the subtree rooted at `root`: it holds the root, is
/// closed under the parent relation, and is the least such set.
pub open spec fn removal_set_ok(chs: Seq<Chapter>, root: Seq<char>, s: Set<Seq<char>>) -> bool {
    &&& s.contains(root)
    &&& closed_under(chs, s)
    &&& forall|t: Set<Seq<char>>|
        t.contains(root) && closed_under(chs, t) ==> #[trigger] s.subset_of(t)
}

/// Copies one chapter record.
pub fn clone_chapter(c: &Chapter) -> (r: Chapter)
    ensures
        r == *c,
{
    Chapter {
        id: c.id.clone(),
        parent_id: clone_opt_string(&c.parent_id),
        title: c.title.clone(),
        filename: c.filename.clone(),
        word_count: c.word_count,
        order: c.order,
        chronological_date: clone_opt_string(&c.chronological_date),
        abstract_timeframe: clone_opt_string(&c.abstract_timeframe),
        duration: clone_opt_string(&c.duration),
        plotline_tag: clone_opt_string(&c.plotline_tag),
        depends_on: clone_opt_string(&c.depends_on),
        pov_character_id: clone_opt_string(&c.pov_character_id),
    }
}

/// Copies an optional string.
pub fn clone_opt_string(o: &Option<String>) -> (r: Option<String>)
    ensures
        r == *o,
{
    match o {
        Option::Some(s) => Some(s.clone()),
        Option::None => None,
    }
}

/// Compares two strings character for character.
pub fn string_eq(a: &String, b: &String) -> (r: bool)
    ensures
        r == (a@ == b@),
{
    a.eq(b)
}

/// Does some string of `v` hold exactly these characters?
fn contains_string(v: &Vec<String>, s: &String) -> (r: bool)
    ensures
        r == exists|k: int| 0 <= k < v@.len() && (#[trigger] v@[k])@ == s@,
{
    let mut k: usize = 0;
    while k < v.len()
        invariant
            k <= v@.len(),
            forall|j: int| 0 <= j < k ==> (#[trigger] v@[j])@ != s@,
        decreases v@.len() - k,
    {
        if string_eq(&v[k], s) {
            proof {
                assert(v@[k as int]@ == s@);
            }
            return true;
        }
        k = k + 1;
    }
    false
}

/// `x` is a member of every set that holds `root` and is closed under the
/// parent relation of `chs`.
pub open spec fn justified(chs: Seq<Chapter>, root: Seq<char>, x: Seq<char>) -> bool {
    forall|t: Set<Seq<char>>| t.contains(root) && #[trigger] closed_under(chs, t) ==> t.contains(x)
}

/// Some string of `v` holds exactly the characters `x`.
pub open spec fn in_views(v: Seq<String>, x: Seq<char>) -> bool {
    exists|j: int| 0 <= j < v.len() && (#[trigger] v[j])@ == x
}

/// `v` is the id of some chapter of `chs`.
pub open spec fn is_chapter_id(chs: Seq<Chapter>, v: Seq<char>) -> bool {
    exists|k: int| 0 <= k < chs.len() && (#[trigger] chs[k]).id@ == v
}

/// `v` is the id of a chapter of `chs` whose parent is `par`.
pub open spec fn is_child_of(chs: Seq<Chapter>, par: Seq<char>, v: Seq<char>) -> bool {
    exists|k: int|
        0 <= k < chs.len() && (#[trigger] chs[k]).id@ == v && (chs[k].parent_id matches Some(p)
            && p@ == par)
}

/// A duplicate-free list of ids drawn from the chapters plus one root is
/// no longer than the chapter count plus one.
proof fn lemma_ids_bound(vs: Seq<Seq<char>>, chs: Seq<Chapter>, root: Seq<char>)
    requires
        vs.no_duplicates(),
        forall|j: int|
            0 <= j < vs.len() ==> (#[trigger] vs[j]) == root || is_chapter_id(chs, vs[j]),
    ensures
        vs.len() <= chs.len() + 1,
{
    broadcast use vstd::seq_lib::seq_to_set_is_finite;
    broadcast use vstd::set::group_set_axioms;

    let ids = chs.map_values(|c: Chapter| c.id@);
    let dom = ids.to_set().insert(root);
    vs.unique_seq_to_set();
    ids.lemma_cardinality_of_set();
    assert(vs.to_set().subset_of(dom)) by {
        assert forall|x: Seq<char>| vs.to_set().contains(x) implies dom.contains(x) by {
            let j = choose|j: int| 0 <= j < vs.len() && vs[j] == x;
            if x != root {
                assert(is_chapter_id(chs, x));
                let k = choose|k: int| 0 <= k < chs.len() && (#[trigger] chs[k]).id@ == x;
                assert(ids[k] == x);
                assert(ids.contains(x));
                assert(ids.to_set().contains(x));
            }
        }
    }
    assert(dom.len() <= chs.len() + 1);
    vstd::set_lib::lemma_len_subset(vs.to_set(), dom);
}

/// Pushes the ids of every child of `parent` onto the stack, leaving the
/// stack's existing entries in place.
fn push_children(chapters: &Vec<Chapter>, parent: &String, stack: &mut Vec<String>)
    ensures
        final(stack)@.len() >= old(stack)@.len(),
        forall|j: int| 0 <= j < old(stack)@.len() ==> (#[trigger] final(stack)@[j]) == old(stack)@[j],
        forall|j: int|
            old(stack)@.len() <= j < final(stack)@.len() ==> is_child_of(
                chapters@,
                parent@,
                (#[trigger] final(stack)@[j])@,
            ),
        forall|k: int|
            0 <= k < chapters@.len() && ((#[trigger] chapters@[k]).parent_id matches Some(p) && p@
                == parent@) ==> in_views(final(stack)@, chapters@[k].id@),
{
    let ghost base = stack@.len() as int;
    let mut k: usize = 0;
    while k < chapters.len()
        invariant
            k <= chapters@.len(),
            stack@.len() >= base,
            base == old(stack)@.len(),
            forall|j: int| 0 <= j < base ==> (#[trigger] stack@[j]) == old(stack)@[j],
            forall|j: int|
                base <= j < stack@.len() ==> is_child_of(
                    chapters@,
                    parent@,
                    (#[trigger] stack@[j])@,
                ),
            forall|x: int|
                0 <= x < k && ((#[trigger] chapters@[x]).parent_id matches Some(p) && p@
                    == parent@) ==> in_views(stack@, chapters@[x].id@),
        decreases chapters@.len() - k,
    {
        let is_child: bool = match &chapters[k].parent_id {
            Option::Some(p) => *p == *parent,
            Option::None => false,
        };
        let ghost pre = stack@;
        if is_child {
            stack.push(chapters[k].id.clone());
            proof {
                assert(stack@[stack@.len() - 1]@ == chapters@[k as int].id@);
                assert(is_child_of(chapters@, parent@, chapters@[k as int].id@));
                assert forall|x: int|
                    0 <= x < k && ((#[trigger] chapters@[x]).parent_id matches Some(p) && p@
                        == parent@) implies in_views(stack@, chapters@[x].id@) by {
                    let j = choose|j: int|
                        0 <= j < pre.len() && (#[trigger] pre[j])@ == chapters@[x].id@;
                    assert(stack@[j]@ == chapters@[x].id@);
                }
                assert(in_views(stack@, chapters@[k as int].id@));
            }
        }
        k = k + 1;
    }
}

/// Some chapter of `chs` has this parent reference.
pub open spec fn has_sibling(chs: Seq<Chapter>, p: Option<Seq<char>>) -> bool {
    exists|k: int| 0 <= k < chs.len() && opt_view((#[trigger] chs[k]).parent_id) == p
}

/// The greatest order among the chapters with this parent reference, or 0
/// when there is none.
pub open spec fn max_sibling_order(chs: Seq<Chapter>, p: Option<Seq<char>>) -> int
    decreases chs.len(),
{
    if chs.len() == 0 {
        0
    } else {
        let rest = max_sibling_order(chs.drop_last(), p);
        if opt_view(chs.last().parent_id) == p && chs.last().order > rest {
            chs.last().order as int
        } else {
            rest
        }
    }
}

/// The order a freshly created chapter receives under this parent: 0 when
/// it has no siblings, one past the greatest sibling order otherwise
/// (capped at the type's maximum).
pub open spec fn next_order(chs: Seq<Chapter>, p: Option<Seq<char>>) -> int {
    if !has_sibling(chs, p) {
        0
    } else if max_sibling_order(chs, p) >= u32::MAX {
        u32::MAX as int
    } else {
        max_sibling_order(chs, p) + 1
    }
}

/// The index of the first chapter with this id, or `-1`.
pub open spec fn chapter_index(chs: Seq<Chapter>, id: Seq<char>) -> int
    decreases chs.len(),
{
    if chs.len() == 0 {
        -1
    } else if chs.first().id@ == id {
        0
    } else if chapter_index(chs.drop_first(), id) < 0 {
        -1
    } else {
        chapter_index(chs.drop_first(), id) + 1
    }
}

proof fn lemma_chapter_index(chs: Seq<Chapter>, id: Seq<char>)
    ensures
        chapter_index(chs, id) < 0 ==> forall|k: int|
            0 <= k < chs.len() ==> (#[trigger] chs[k]).id@ != id,
        chapter_index(chs, id) >= 0 ==> chapter_index(chs, id) < chs.len() && chs[chapter_index(
            chs,
            id,
        )].id@ == id && forall|k: int|
            0 <= k < chapter_index(chs, id) ==> (#[trigger] chs[k]).id@ != id,
    decreases chs.len(),
{
    if chs.len() > 0 && chs.first().id@ != id {
        lemma_chapter_index(chs.drop_first(), id);
        assert(forall|k: int| 1 <= k < chs.len() ==> chs[k] == chs.drop_first()[k - 1]);
    }
}

impl Manifest {
    /// Creates a chapter under the given parent: a fresh id of the form
    /// `chapter-` plus a random identifier, a filename derived from the id,
    /// and an order one past the parent's greatest existing sibling order.
    pub fn create_chapter(&self, parent_id: Option<String>, title: String) -> (r: Chapter)
        ensures
            r.parent_id == parent_id,
            r.title == title,
            r.word_count == 0,
            r.order as int == next_order(self.chapters@, opt_view(parent_id)),
            r.id@.len() == 44,
            r.filename@ == r.id@ + seq!['.', 'm', 'd'],
            r.chronological_date is None,
            r.abstract_timeframe is None,
            r.duration is None,
            r.plotline_tag is None,
            r.depends_on is None,
            r.pov_character_id is None,
    {
        let ghost chs = self.chapters@;
        let ghost pv = opt_view(parent_id);
        let mut found = false;
        let mut max_order: u32 = 0;
        let mut k: usize = 0;
        proof {
            assert(chs.take(0) =~= Seq::<Chapter>::empty());
        }
        while k < self.chapters.len()
            invariant
                k <= chs.len(),
                chs == self.chapters@,
                pv == opt_view(parent_id),
                found == has_sibling(chs.take(k as int), pv),
                max_order as int == max_sibling_order(chs.take(k as int), pv),
            decreases chs.len() - k,
        {
            let c = &self.chapters[k];
            proof {
                assert(chs.take(k + 1).drop_last() =~= chs.take(k as int));
                assert(chs.take(k + 1).last() == chs[k as int]);
            }
            let same: bool = match (&c.parent_id, &parent_id) {
                (Option::Some(a), Option::Some(b)) => string_eq(a, b),
                (Option::None, Option::None) => true,
                _ => false,
            };
            proof {
                assert(same == (opt_view(chs[k as int].parent_id) == pv));
            }
            let ghost pre = chs.take(k as int);
            if same {
                if c.order > max_order {
                    max_order = c.order;
                }
                found = true;
                proof {
                    assert(opt_view(chs.take(k + 1)[k as int].parent_id) == pv);
                    assert(has_sibling(chs.take(k + 1), pv));
                }
            } else {
                proof {
                    if has_sibling(pre, pv) {
                        let j = choose|j: int|
                            0 <= j < pre.len() && opt_view((#[trigger] pre[j]).parent_id) == pv;
                        assert(opt_view(chs.take(k + 1)[j].parent_id) == pv);
                    }
                    if has_sibling(chs.take(k + 1), pv) {
                        let j = choose|j: int|
                            0 <= j < k + 1 && opt_view(
                                (#[trigger] chs.take(k + 1)[j]).parent_id,
                            ) == pv;
                        assert(j < k);
                        assert(opt_view(pre[j].parent_id) == pv);
                    }
                }
            }
            k = k + 1;
        }
        proof {
            assert(chs.take(chs.len() as int) =~= chs);
        }
        let new_order: u32 = if !found {
            0
        } else if max_order == u32::MAX {
            u32::MAX
        } else {
            max_order + 1
        };
        let uid = crate::ids::fresh_id();
        let mut id = String::from_str("chapter-");
        id.append(uid.as_str());
        let filename = id.clone().concat(".md");
        proof {
            reveal_strlit("chapter-");
            reveal_strlit(".md");
            assert("chapter-"@.len() == 8);
            assert(".md"@ =~= seq!['.', 'm', 'd']);
        }
        Chapter {
            id,
            parent_id,
            title,
            filename,
            word_count: 0,
            order: new_order,
            chronological_date: None,
            abstract_timeframe: None,
            duration: None,
            plotline_tag: None,
            depends_on: None,
            pov_character_id: None,
        }
    }

    /// Looks a chapter up by id and returns its filename, so that a caller
    /// can resolve the chapter's file.
    pub fn chapter_filename(&self, chapter_id: &String) -> (r: Option<String>)
        ensures
            (match r {
                Option::Some(f) => chapter_index(self.chapters@, chapter_id@) >= 0 && f@
                    == self.chapters@[chapter_index(self.chapters@, chapter_id@)].filename@,
                Option::None => chapter_index(self.chapters@, chapter_id@) < 0,
            }),
    {
        let ghost chs = self.chapters@;
        let mut k: usize = 0;
        while k < self.chapters.len()
            invariant
                k <= chs.len(),
                chs == self.chapters@,
                forall|j: int| 0 <= j < k ==> (#[trigger] chs[j]).id@ != chapter_id@,
            decreases chs.len() - k,
        {
            if string_eq(&self.chapters[k].id, chapter_id) {
                proof {
                    lemma_chapter_index(chs, chapter_id@);
                    assert(chs[k as int].id@ == chapter_id@);
                    assert(chapter_index(chs, chapter_id@) == k as int) by {
                        if chapter_index(chs, chapter_id@) < 0 {
                            assert(chs[k as int].id@ != chapter_id@);
                        } else if chapter_index(chs, chapter_id@) < k as int {
                            assert(chs[chapter_index(chs, chapter_id@)].id@ == chapter_id@);
                        } else if chapter_index(chs, chapter_id@) > k as int {
                            assert(chs[k as int].id@ != chapter_id@);
                        }
                    }
                }
                return Some(self.chapters[k].filename.clone());
            }
            k = k + 1;
        }
        proof {
            lemma_chapter_index(chs, chapter_id@);
            if chapter_index(chs, chapter_id@) >= 0 {
                assert(chs[chapter_index(chs, chapter_id@)].id@ == chapter_id@);
            }
        }
        None
    }
}

impl Manifest {
    /// Removes the chapter `node_id` and, recursively, every chapter whose
    /// parent chain leads to it; returns the filenames of the removed
    /// chapters, in manifest order. The removed ids form the least set that
    /// holds `node_id` and is closed under the parent relation.
    pub fn remove_node_recursively(&mut self, node_id: String) -> (removed: Vec<String>)
        ensures
            exists|s: Set<Seq<char>>|
                {
                    &&& #[trigger] removal_set_ok(old(self).chapters@, node_id@, s)
                    &&& final(self).chapters@ == old(self).chapters@.filter(
                        |c: Chapter| !s.contains(c.id@),
                    )
                    &&& removed@.map_values(|f: String| f@) == old(self).chapters@.filter(
                        |c: Chapter| s.contains(c.id@),
                    ).map_values(|c: Chapter| c.filename@)
                },
    {
        let ghost chs = self.chapters@;
        let ghost root = node_id@;
        let n = self.chapters.len();
        let mut ids: Vec<String> = Vec::new();
        let mut stack: Vec<String> = Vec::new();
        stack.push(node_id);
        proof {
            assert(ids@.map_values(|x: String| x@).no_duplicates());
            assert(stack@[0]@ == root);
            assert(in_views(stack@, root));
        }
        while stack.len() > 0
            invariant
                chs == self.chapters@,
                n == chs.len(),
                ids@.map_values(|x: String| x@).no_duplicates(),
                forall|j: int|
                    0 <= j < ids@.len() ==> (#[trigger] ids@[j])@ == root || is_chapter_id(
                        chs,
                        ids@[j]@,
                    ),
                forall|j: int|
                    0 <= j < stack@.len() ==> (#[trigger] stack@[j])@ == root || is_chapter_id(
                        chs,
                        stack@[j]@,
                    ),
                in_views(ids@, root) || in_views(stack@, root),
                forall|k: int|
                    0 <= k < n ==> match (#[trigger] chs[k]).parent_id {
                        Option::Some(p) => in_views(ids@, p@) ==> (in_views(ids@, chs[k].id@)
                            || in_views(stack@, chs[k].id@)),
                        Option::None => true,
                    },
                forall|j: int| 0 <= j < ids@.len() ==> justified(chs, root, (#[trigger] ids@[j])@),
                forall|j: int|
                    0 <= j < stack@.len() ==> justified(chs, root, (#[trigger] stack@[j])@),
                ids@.len() <= n + 1,
            decreases (n + 1 - ids@.len()), stack@.len(),
        {
            let ghost stack_full = stack@;
            let cur = match stack.pop() {
                Option::Some(c) => c,
                Option::None => {
                    proof {
                        assert(false);
                    }
                    String::new()
                },
            };
            proof {
                assert(cur@ == stack_full[stack_full.len() - 1]@);
                assert(justified(chs, root, cur@));
                assert(cur@ == root || is_chapter_id(chs, cur@));
            }
            let already = contains_string(&ids, &cur);
            if !already {
                let ghost ids_pre = ids@;
                ids.push(cur.clone());
                proof {
                    assert(ids@[ids@.len() - 1]@ == cur@);
                    assert(ids@.map_values(|x: String| x@) =~= ids_pre.map_values(
                        |x: String| x@,
                    ).push(cur@));
                    assert(ids@.map_values(|x: String| x@).no_duplicates()) by {
                        let vpre = ids_pre.map_values(|x: String| x@);
                        assert forall|j: int| 0 <= j < vpre.len() implies (#[trigger] vpre[j])
                            != cur@ by {
                            assert(ids_pre[j]@ != cur@);
                        }
                    }
                    lemma_ids_bound(ids@.map_values(|x: String| x@), chs, root);
                }
                let ghost stack_mid = stack@;
                push_children(&self.chapters, &cur, &mut stack);
                proof {
                    // the root stays accounted for
                    if in_views(ids_pre, root) {
                        let j = choose|j: int|
                            0 <= j < ids_pre.len() && (#[trigger] ids_pre[j])@ == root;
                        assert(ids@[j]@ == root);
                        assert(in_views(ids@, root));
                    } else if in_views(stack_full, root) {
                        let j = choose|j: int|
                            0 <= j < stack_full.len() && (#[trigger] stack_full[j])@ == root;
                        if j < stack_full.len() - 1 {
                            assert(stack_mid[j]@ == root);
                            assert(stack@[j]@ == root);
                            assert(in_views(stack@, root));
                        } else {
                            assert(cur@ == root);
                            assert(in_views(ids@, root));
                        }
                    }
                    // closure bookkeeping
                    assert forall|k: int| 0 <= k < n implies match (#[trigger] chs[k]).parent_id {
                        Option::Some(p) => in_views(ids@, p@) ==> (in_views(ids@, chs[k].id@)
                            || in_views(stack@, chs[k].id@)),
                        Option::None => true,
                    } by {
                        if chs[k].parent_id matches Some(p) && in_views(ids@, p@) {
                            let pv = chs[k].parent_id->0@;
                            let j = choose|j: int|
                                0 <= j < ids@.len() && (#[trigger] ids@[j])@ == pv;
                            if j < ids@.len() - 1 {
                                assert(ids_pre[j]@ == pv);
                                assert(in_views(ids_pre, pv));
                                if in_views(ids_pre, chs[k].id@) {
                                    let x = choose|x: int|
                                        0 <= x < ids_pre.len() && (#[trigger] ids_pre[x])@
                                            == chs[k].id@;
                                    assert(ids@[x]@ == chs[k].id@);
                                    assert(in_views(ids@, chs[k].id@));
                                } else {
                                    assert(in_views(stack_full, chs[k].id@));
                                    let x = choose|x: int|
                                        0 <= x < stack_full.len() && (#[trigger] stack_full[x])@
                                            == chs[k].id@;
                                    if x < stack_full.len() - 1 {
                                        assert(stack_mid[x]@ == chs[k].id@);
                                        assert(stack@[x]@ == chs[k].id@);
                                        assert(in_views(stack@, chs[k].id@));
                                    } else {
                                        assert(cur@ == chs[k].id@);
                                        assert(ids@[ids@.len() - 1]@ == chs[k].id@);
                                        assert(in_views(ids@, chs[k].id@));
                                    }
                                }
                            } else {
                                assert(pv == cur@);
                                assert(in_views(stack@, chs[k].id@));
                            }
                        }
                    }
                    // every stack entry is still the root or a chapter id
                    assert forall|j: int| 0 <= j < stack@.len() implies (#[trigger] stack@[j])@
                        == root || is_chapter_id(chs, stack@[j]@) by {
                        if j < stack_mid.len() {
                            assert(stack_mid[j] == stack_full[j]);
                        } else {
                            assert(is_child_of(chs, cur@, stack@[j]@));
                            let k = choose|k: int|
                                0 <= k < chs.len() && (#[trigger] chs[k]).id@ == stack@[j]@ && (
                                chs[k].parent_id matches Some(p) && p@ == cur@);
                            assert(is_chapter_id(chs, stack@[j]@));
                        }
                    }
                    // the new stack entries are justified through cur
                    assert forall|j: int| 0 <= j < stack@.len() implies justified(
                        chs,
                        root,
                        (#[trigger] stack@[j])@,
                    ) by {
                        if j < stack_mid.len() {
                            assert(stack_mid[j] == stack_full[j]);
                            assert(justified(chs, root, stack_full[j]@));
                        } else {
                            assert(is_child_of(chs, cur@, stack@[j]@));
                            let k = choose|k: int|
                                0 <= k < chs.len() && (#[trigger] chs[k]).id@ == stack@[j]@ && (
                                chs[k].parent_id matches Some(p) && p@ == cur@);
                            assert forall|t: Set<Seq<char>>|
                                t.contains(root) && #[trigger] closed_under(
                                    chs,
                                    t,
                                ) implies t.contains(stack@[j]@) by {
                                assert(t.contains(cur@));
                                assert(chs[k].parent_id matches Some(p) && t.contains(p@));
                            }
                        }
                    }
                }
            } else {
                proof {
                    let w = choose|w: int| 0 <= w < ids@.len() && (#[trigger] ids@[w])@ == cur@;
                    if in_views(ids@, root) {
                    } else if in_views(stack_full, root) {
                        let j = choose|j: int|
                            0 <= j < stack_full.len() && (#[trigger] stack_full[j])@ == root;
                        if j < stack_full.len() - 1 {
                            assert(stack@[j]@ == root);
                            assert(in_views(stack@, root));
                        } else {
                            assert(ids@[w]@ == root);
                            assert(in_views(ids@, root));
                        }
                    }
                    assert forall|k: int| 0 <= k < n implies match (#[trigger] chs[k]).parent_id {
                        Option::Some(p) => in_views(ids@, p@) ==> (in_views(ids@, chs[k].id@)
                            || in_views(stack@, chs[k].id@)),
                        Option::None => true,
                    } by {
                        if chs[k].parent_id matches Some(p) && in_views(ids@, p@) && !in_views(
                            ids@,
                            chs[k].id@,
                        ) {
                            assert(in_views(stack_full, chs[k].id@));
                            let x = choose|x: int|
                                0 <= x < stack_full.len() && (#[trigger] stack_full[x])@
                                    == chs[k].id@;
                            if x < stack_full.len() - 1 {
                                assert(stack@[x]@ == chs[k].id@);
                                assert(in_views(stack@, chs[k].id@));
                            } else {
                                assert(ids@[w]@ == chs[k].id@);
                                assert(in_views(ids@, chs[k].id@));
                            }
                        }
                    }
                }
            }
        }
        let ghost removed_set = ids@.map_values(|x: String| x@).to_set();
        proof {
            broadcast use vstd::seq_lib::seq_to_set_is_finite;
            broadcast use vstd::set::group_set_axioms;

            let vs = ids@.map_values(|x: String| x@);
            assert(removed_set.contains(root)) by {
                assert(in_views(ids@, root));
                let j = choose|j: int| 0 <= j < ids@.len() && (#[trigger] ids@[j])@ == root;
                assert(vs[j] == root);
                assert(vs.contains(root));
            }
            assert(closed_under(chs, removed_set)) by {
                assert forall|k: int| 0 <= k < n implies match (#[trigger] chs[k]).parent_id {
                    Option::Some(p) => removed_set.contains(p@) ==> removed_set.contains(
                        chs[k].id@,
                    ),
                    Option::None => true,
                } by {
                    if chs[k].parent_id matches Some(p) && removed_set.contains(
                        chs[k].parent_id->0@,
                    ) {
                        let pv = chs[k].parent_id->0@;
                        assert(vs.contains(pv));
                        let j = choose|j: int| 0 <= j < vs.len() && vs[j] == pv;
                        assert(ids@[j]@ == pv);
                        assert(in_views(ids@, pv));
                        assert(in_views(ids@, chs[k].id@));
                        let x = choose|x: int|
                            0 <= x < ids@.len() && (#[trigger] ids@[x])@ == chs[k].id@;
                        assert(vs[x] == chs[k].id@);
                        assert(vs.contains(chs[k].id@));
                    }
                }
            }
            assert forall|t: Set<Seq<char>>|
                t.contains(root) && closed_under(chs, t) implies #[trigger] removed_set.subset_of(
                t,
            ) by {
                assert forall|x: Seq<char>| removed_set.contains(x) implies t.contains(x) by {
                    assert(vs.contains(x));
                    let j = choose|j: int| 0 <= j < vs.len() && vs[j] == x;
                    assert(ids@[j]@ == x);
                    assert(justified(chs, root, x));
                }
            }
            assert(removal_set_ok(chs, root, removed_set));
        }

        // rebuild the chapter list, collecting the removed filenames
        let mut kept: Vec<Chapter> = Vec::new();
        let mut removed_files: Vec<String> = Vec::new();
        let mut i: usize = 0;
        proof {
            reveal_with_fuel(Seq::filter, 1);
            assert(chs.take(0) =~= Seq::<Chapter>::empty());
            assert(kept@ =~= chs.take(0).filter(|c: Chapter| !removed_set.contains(c.id@)));
            assert(removed_files@.map_values(|f: String| f@) =~= chs.take(0).filter(
                |c: Chapter| removed_set.contains(c.id@),
            ).map_values(|c: Chapter| c.filename@));
        }
        while i < n
            invariant
                chs == self.chapters@,
                n == chs.len(),
                i <= n,
                kept@ == chs.take(i as int).filter(|c: Chapter| !removed_set.contains(c.id@)),
                removed_files@.map_values(|f: String| f@) == chs.take(i as int).filter(
                    |c: Chapter| removed_set.contains(c.id@),
                ).map_values(|c: Chapter| c.filename@),
                removed_set == ids@.map_values(|x: String| x@).to_set(),
            decreases n - i,
        {
            let ghost pre_kept = kept@;
            let ghost pre_removed = removed_files@.map_values(|f: String| f@);
            let c = &self.chapters[i];
            let in_set = contains_string(&ids, &c.id);
            proof {
                broadcast use vstd::set::group_set_axioms;

                let vs = ids@.map_values(|x: String| x@);
                if in_set {
                    let j = choose|j: int| 0 <= j < ids@.len() && (#[trigger] ids@[j])@ == c.id@;
                    assert(vs[j] == c.id@);
                    assert(vs.contains(c.id@));
                    assert(removed_set.contains(c.id@));
                } else {
                    if removed_set.contains(c.id@) {
                        assert(vs.contains(c.id@));
                        let j = choose|j: int| 0 <= j < vs.len() && vs[j] == c.id@;
                        assert(ids@[j]@ == c.id@);
                        assert(in_views(ids@, c.id@));
                    }
                }
                assert(in_set == removed_set.contains(chs[i as int].id@));
                assert(chs.take(i + 1).drop_last() =~= chs.take(i as int));
                assert(chs.take(i + 1).last() == chs[i as int]);
                reveal_with_fuel(Seq::filter, 2);
            }
            if in_set {
                removed_files.push(c.filename.clone());
                proof {
                    assert(removed_files@.map_values(|f: String| f@) =~= pre_removed.push(
                        chs[i as int].filename@,
                    ));
                    assert(chs.take(i + 1).filter(|c: Chapter| removed_set.contains(c.id@)).map_values(
                        |c: Chapter| c.filename@,
                    ) =~= pre_removed.push(chs[i as int].filename@));
                    assert(chs.take(i + 1).filter(|c: Chapter| !removed_set.contains(c.id@))
                        =~= pre_kept);
                }
            } else {
                kept.push(clone_chapter(c));
                proof {
                    assert(kept@ =~= pre_kept.push(chs[i as int]));
                    assert(chs.take(i + 1).filter(|c: Chapter| !removed_set.contains(c.id@))
                        =~= pre_kept.push(chs[i as int]));
                    assert(chs.take(i + 1).filter(|c: Chapter| removed_set.contains(c.id@)).map_values(
                        |c: Chapter| c.filename@,
                    ) =~= pre_removed);
                }
            }
            i = i + 1;
        }
        proof {
            assert(chs.take(n as int) =~= chs);
        }
        self.chapters = kept;
        removed_files
    }
}

} // verus!
