//! Research artifacts: typed references to the files of a project's
//! research folder, and the reconciliation of the stored index with what is
//! on disk.

use vstd::prelude::*;
use crate::ids::fresh_id;
use crate::models::string_eq;
use crate::text::lower_byte;

verus! {

/// A reference to one research file: a stable id, the file's path and
/// display name, a coarse type, and free-form tags.
#[derive(Clone, Debug)]
pub struct ResearchArtifact {
    pub id: String,
    pub path: String,
    pub name: String,
    pub file_type: String,
    pub tags: Vec<String>,
}

/// The coarse type that a file name maps to, as characters: the part after
/// the last dot of the last slash-separated component decides, ignoring
/// ASCII case; a leading dot marks no extension.
pub open spec fn file_type_of(s: Seq<u8>) -> Seq<char> {
    let ext = extension_of(s);
    if ext == seq![112u8, 100, 102] {  // pdf
        seq!['p', 'd', 'f']
    } else if ext == seq![112u8, 110, 103] || ext == seq![106u8, 112, 103] || ext == seq![
        106u8,
        112,
        101,
        103,
    ] || ext == seq![119u8, 101, 98, 112] {  // png jpg jpeg webp
        seq!['i', 'm', 'a', 'g', 'e']
    } else if ext == seq![109u8, 100] || ext == seq![116u8, 120, 116] {  // md txt
        seq!['t', 'e', 'x', 't']
    } else {
        seq!['o', 't', 'h', 'e', 'r']
    }
}

/// The ASCII-lowercased extension of a file name, or the empty string when
/// it has none.
pub open spec fn extension_of(s: Seq<u8>) -> Seq<u8> {
    let base_start = last_index_of(s, 47) + 1;
    let base = s.skip(base_start);
    let dot = last_index_of(base, 46);
    if dot <= 0 {
        Seq::empty()
    } else {
        base.skip(dot + 1).map_values(|b: u8| lower_byte(b))
    }
}

/// The last position of `b` in `s`, or `-1`.
pub open spec fn last_index_of(s: Seq<u8>, b: u8) -> int
    decreases s.len(),
{
    if s.len() == 0 {
        -1
    } else if s.last() == b {
        s.len() - 1
    } else {
        last_index_of(s.drop_last(), b)
    }
}

proof fn lemma_last_index_of(s: Seq<u8>, b: u8)
    ensures
        last_index_of(s, b) >= -1,
        last_index_of(s, b) < s.len(),
        last_index_of(s, b) >= 0 ==> s[last_index_of(s, b)] == b,
        forall|k: int| last_index_of(s, b) < k < s.len() ==> s[k] != b,
    decreases s.len(),
{
    if s.len() > 0 && s.last() != b {
        lemma_last_index_of(s.drop_last(), b);
        assert forall|k: int| last_index_of(s, b) < k < s.len() implies s[k] != b by {
            if k < s.len() - 1 {
                assert(0 <= k < s.drop_last().len());
                assert(last_index_of(s.drop_last(), b) < k);
                assert(s.drop_last()[k] != b);
                assert(s.drop_last()[k] == s[k]);
            } else {
                assert(s[k] == s.last());
            }
        }
    }
}

/// Finds the last position of byte `b` in `s`, if any.
fn find_last(s: &[u8], b: u8) -> (r: Option<usize>)
    ensures
        match r {
            Option::Some(i) => i as int == last_index_of(s@, b) && (i as int) < s@.len(),
            Option::None => last_index_of(s@, b) < 0,
        },
{
    proof {
        lemma_last_index_of(s@, b);
    }
    let mut i: usize = s.len();
    while i > 0
        invariant
            i <= s@.len(),
            forall|k: int| i <= k < s@.len() ==> s@[k] != b,
        decreases i,
    {
        i = i - 1;
        if s[i] == b {
            proof {
                lemma_last_index_of(s@, b);
                assert(s@[i as int] == b);
                assert(last_index_of(s@, b) == i as int) by {
                    if last_index_of(s@, b) > i as int {
                        assert(s@[last_index_of(s@, b)] != b);
                    } else if 0 <= last_index_of(s@, b) < i as int {
                        assert(s@[i as int] != b);
                    } else if last_index_of(s@, b) < 0 {
                        lemma_last_absent(s@, b);
                    }
                }
            }
            return Some(i);
        }
    }
    proof {
        lemma_last_index_of(s@, b);
        if last_index_of(s@, b) >= 0 {
            assert(s@[last_index_of(s@, b)] == b);
        }
    }
    None
}

/// If `b` does not occur at or after any position, the last index is below
/// every occurrence; in particular an occurrence forces a non-negative
/// last index.
proof fn lemma_last_absent(s: Seq<u8>, b: u8)
    requires
        last_index_of(s, b) < 0,
    ensures
        forall|k: int| 0 <= k < s.len() ==> s[k] != b,
    decreases s.len(),
{
    if s.len() > 0 {
        lemma_last_absent(s.drop_last(), b);
        assert(forall|k: int| 0 <= k < s.len() - 1 ==> s[k] == s.drop_last()[k]);
    }
}

/// Maps a file name to its coarse type: `pdf`, `image`, `text` or `other`,
/// decided by the name's extension.
pub fn get_file_type_from_name(file_name: &[u8]) -> (r: String)
    ensures
        r@ == file_type_of(file_name@),
{
    let nlen = file_name.len();
    let base: &[u8];
    match find_last(file_name, 47) {
        Option::Some(i) => {
            base = &file_name[i + 1..nlen];
            proof {
                assert(base@ =~= file_name@.skip(last_index_of(file_name@, 47) + 1));
            }
        },
        Option::None => {
            base = file_name;
            proof {
                lemma_last_index_of(file_name@, 47);
                assert(last_index_of(file_name@, 47) == -1);
                assert(file_name@.skip(0) =~= file_name@);
            }
        },
    }
    let blen = base.len();
    let ext: &[u8];
    match find_last(base, 46) {
        Option::Some(i) => {
            if i == 0 {
                ext = &base[0..0];
                proof {
                    assert(ext@ =~= Seq::<u8>::empty());
                }
            } else {
                ext = &base[i + 1..blen];
                proof {
                    assert(ext@ =~= base@.skip(last_index_of(base@, 46) + 1));
                }
            }
        },
        Option::None => {
            ext = &base[0..0];
            proof {
                assert(ext@ =~= Seq::<u8>::empty());
            }
        },
    }
    let lowered = crate::text::to_lower_bytes(ext);
    proof {
        if last_index_of(base@, 46) > 0 {
            assert(lowered@ == extension_of(file_name@));
        } else {
            assert(extension_of(file_name@) =~= Seq::<u8>::empty());
            assert(lowered@ =~= extension_of(file_name@));
        }
    }
    let r: String = if is_bytes3(&lowered, 112, 100, 102) {
        "pdf".to_owned()
    } else if is_bytes3(&lowered, 112, 110, 103) || is_bytes3(&lowered, 106, 112, 103)
        || is_bytes4(&lowered, 106, 112, 101, 103) || is_bytes4(&lowered, 119, 101, 98, 112) {
        "image".to_owned()
    } else if is_bytes2(&lowered, 109, 100) || is_bytes3(&lowered, 116, 120, 116) {
        "text".to_owned()
    } else {
        "other".to_owned()
    };
    proof {
        reveal_strlit("pdf");
        reveal_strlit("image");
        reveal_strlit("text");
        reveal_strlit("other");
        assert(lowered@ == extension_of(file_name@));
        if is3(lowered@, 112, 100, 102) {
            assert(lowered@ =~= seq![112u8, 100, 102]);
        }
        if is3(lowered@, 112, 110, 103) {
            assert(lowered@ =~= seq![112u8, 110, 103]);
        }
        if is3(lowered@, 106, 112, 103) {
            assert(lowered@ =~= seq![106u8, 112, 103]);
        }
        if is4(lowered@, 106, 112, 101, 103) {
            assert(lowered@ =~= seq![106u8, 112, 101, 103]);
        }
        if is4(lowered@, 119, 101, 98, 112) {
            assert(lowered@ =~= seq![119u8, 101, 98, 112]);
        }
        if is2(lowered@, 109, 100) {
            assert(lowered@ =~= seq![109u8, 100]);
        }
        if is3(lowered@, 116, 120, 116) {
            assert(lowered@ =~= seq![116u8, 120, 116]);
        }
    }
    r
}

/// `s` is exactly the two given bytes.
pub open spec fn is2(s: Seq<u8>, a: u8, b: u8) -> bool {
    s.len() == 2 && s[0] == a && s[1] == b
}

/// `s` is exactly the three given bytes.
pub open spec fn is3(s: Seq<u8>, a: u8, b: u8, c: u8) -> bool {
    s.len() == 3 && s[0] == a && s[1] == b && s[2] == c
}

/// `s` is exactly the four given bytes.
pub open spec fn is4(s: Seq<u8>, a: u8, b: u8, c: u8, d: u8) -> bool {
    s.len() == 4 && s[0] == a && s[1] == b && s[2] == c && s[3] == d
}

fn is_bytes2(s: &Vec<u8>, a: u8, b: u8) -> (r: bool)
    ensures
        r == is2(s@, a, b),
{
    s.len() == 2 && s[0] == a && s[1] == b
}

fn is_bytes3(s: &Vec<u8>, a: u8, b: u8, c: u8) -> (r: bool)
    ensures
        r == is3(s@, a, b, c),
{
    s.len() == 3 && s[0] == a && s[1] == b && s[2] == c
}

fn is_bytes4(s: &Vec<u8>, a: u8, b: u8, c: u8, d: u8) -> (r: bool)
    ensures
        r == is4(s@, a, b, c, d),
{
    s.len() == 4 && s[0] == a && s[1] == b && s[2] == c && s[3] == d
}

impl ResearchArtifact {
    /// Creates an artifact for a file, with a freshly drawn id and no tags.
    pub fn new(path: String, name: String, file_type: String) -> (r: ResearchArtifact)
        ensures
            r.path == path,
            r.name == name,
            r.file_type == file_type,
            r.tags@.len() == 0,
            r.id@.len() == 36,
    {
        ResearchArtifact { id: fresh_id(), path, name, file_type, tags: Vec::new() }
    }

    /// Maps a file name to its coarse type.
    pub fn determine_type(file_name: &[u8]) -> (r: String)
        ensures
            r@ == file_type_of(file_name@),
    {
        get_file_type_from_name(file_name)
    }
}

/// The index of the first artifact whose path is `p`, or `-1`.
pub open spec fn artifact_index(index: Seq<ResearchArtifact>, p: Seq<char>) -> int
    decreases index.len(),
{
    if index.len() == 0 {
        -1
    } else if index.first().path@ == p {
        0
    } else if artifact_index(index.drop_first(), p) < 0 {
        -1
    } else {
        artifact_index(index.drop_first(), p) + 1
    }
}

proof fn lemma_artifact_index(index: Seq<ResearchArtifact>, p: Seq<char>)
    ensures
        artifact_index(index, p) < 0 ==> forall|k: int|
            0 <= k < index.len() ==> (#[trigger] index[k]).path@ != p,
        artifact_index(index, p) >= 0 ==> artifact_index(index, p) < index.len() && index[
            artifact_index(index, p)].path@ == p && forall|k: int|
            0 <= k < artifact_index(index, p) ==> (#[trigger] index[k]).path@ != p,
    decreases index.len(),
{
    if index.len() > 0 && index.first().path@ != p {
        lemma_artifact_index(index.drop_first(), p);
        assert(forall|k: int| 1 <= k < index.len() ==> index[k] == index.drop_first()[k - 1]);
    }
}

/// The remaining index after the first `k` disk files have been matched:
/// each match consumes its artifact.
pub open spec fn index_after(
    index: Seq<ResearchArtifact>,
    disk: Seq<(String, String)>,
    k: int,
) -> Seq<ResearchArtifact>
    decreases k,
{
    if k <= 0 {
        index
    } else {
        let prev = index_after(index, disk, k - 1);
        let i = artifact_index(prev, disk[k - 1].0@);
        if i >= 0 {
            prev.remove(i)
        } else {
            prev
        }
    }
}

/// Rebuilds the artifact index from what is on disk: a disk file whose path
/// an indexed artifact already holds keeps that artifact (with its name
/// refreshed); any other disk file gets a fresh artifact typed from its
/// name. Artifacts whose files are gone are dropped.
pub fn reconcile_index(disk_files: Vec<(String, String)>, index: Vec<ResearchArtifact>) -> (r: Vec<
    ResearchArtifact,
>)
    ensures
        r@.len() == disk_files@.len(),
        forall|k: int|
            0 <= k < disk_files@.len() ==> {
                let rem = index_after(index@, disk_files@, k);
                let i = artifact_index(rem, disk_files@[k].0@);
                let a = #[trigger] r@[k];
                &&& a.path@ == disk_files@[k].0@
                &&& a.name@ == disk_files@[k].1@
                &&& (i >= 0 ==> a.id@ == rem[i].id@ && a.file_type@ == rem[i].file_type@
                    && a.tags@ == rem[i].tags@)
                &&& (i < 0 ==> a.id@.len() == 36 && a.file_type@ == file_type_of(
                    vstd::utf8::encode_utf8(disk_files@[k].1@),
                ) && a.tags@.len() == 0)
            },
{
    let ghost disk0 = disk_files@;
    let ghost index0 = index@;
    let mut remaining = index;
    let mut out: Vec<ResearchArtifact> = Vec::new();
    let mut k: usize = 0;
    while k < disk_files.len()
        invariant
            k <= disk0.len(),
            disk_files@ == disk0,
            remaining@ == index_after(index0, disk0, k as int),
            out@.len() == k,
            forall|j: int|
                0 <= j < k ==> {
                    let rem = index_after(index0, disk0, j);
                    let i = artifact_index(rem, disk0[j].0@);
                    let a = #[trigger] out@[j];
                    &&& a.path@ == disk0[j].0@
                    &&& a.name@ == disk0[j].1@
                    &&& (i >= 0 ==> a.id@ == rem[i].id@ && a.file_type@ == rem[i].file_type@
                        && a.tags@ == rem[i].tags@)
                    &&& (i < 0 ==> a.id@.len() == 36 && a.file_type@ == file_type_of(
                        vstd::utf8::encode_utf8(disk0[j].1@),
                    ) && a.tags@.len() == 0)
                },
        decreases disk0.len() - k,
    {
        let ghost rem = remaining@;
        let (path, name) = (&disk_files[k].0, &disk_files[k].1);
        proof {
            lemma_artifact_index(rem, path@);
        }
        // look for an artifact already covering this path
        let mut j: usize = 0;
        let mut found = false;
        let mut at: usize = 0;
        while j < remaining.len()
            invariant
                at <= j <= remaining@.len(),
                remaining@ == rem,
                path == disk_files@[k as int].0,
                k < disk_files@.len(),
                !found ==> forall|x: int| 0 <= x < j ==> (#[trigger] rem[x]).path@ != path@,
                found ==> at < j && rem[at as int].path@ == path@ && forall|x: int|
                    0 <= x < at ==> (#[trigger] rem[x]).path@ != path@,
            decreases remaining@.len() - j,
        {
            if !found && string_eq(&remaining[j].path, path) {
                found = true;
                at = j;
            }
            j = j + 1;
        }
        if found {
            proof {
                lemma_artifact_index(rem, path@);
                assert(artifact_index(rem, path@) == at as int) by {
                    if artifact_index(rem, path@) < 0 {
                        assert(rem[at as int].path@ != path@);
                    } else if artifact_index(rem, path@) != at as int {
                        assert(rem[artifact_index(rem, path@)].path@ == path@);
                    }
                }
            }
            let found_artifact = remaining.remove(at);
            out.push(
                ResearchArtifact {
                    id: found_artifact.id,
                    path: path.clone(),
                    name: name.clone(),
                    file_type: found_artifact.file_type,
                    tags: found_artifact.tags,
                },
            );
        } else {
            proof {
                lemma_artifact_index(rem, path@);
                assert(artifact_index(rem, path@) < 0) by {
                    if artifact_index(rem, path@) >= 0 {
                        assert(rem[artifact_index(rem, path@)].path@ == path@);
                    }
                }
            }
            let file_type = get_file_type_from_name(name.as_str().as_bytes());
            out.push(ResearchArtifact::new(path.clone(), name.clone(), file_type));
        }
        k = k + 1;
    }
    out
}

} // verus!
