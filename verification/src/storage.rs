//! The file-repository abstraction the engine's callers provide, and an
//! in-memory implementation of it for tests.

use vstd::prelude::*;
use crate::models::string_eq;

verus! {

/// A store of text files keyed by path. Implementations live with the
/// caller (a real one reads the filesystem); the in-memory
/// `MockFileRepository` below is the reference implementation.
pub trait FileRepository {
    /// Reads a file's content.
    fn read_file(&self, path: &String) -> Result<String, String>;

    /// Writes a file, replacing its content.
    fn write_file(&mut self, path: &String, content: &String) -> Result<(), String>;

    /// Does the path exist?
    fn path_exists(&self, path: &String) -> Result<bool, String>;

    /// Removes a file.
    fn delete(&mut self, path: &String) -> Result<(), String>;

    /// Creates a directory and its ancestors.
    fn create_dir_all(&mut self, path: &String) -> Result<(), String>;
}

/// The position of the entry with key `k`, or `-1`.
pub open spec fn kv_index<V>(es: Seq<(String, V)>, k: Seq<char>) -> int
    decreases es.len(),
{
    if es.len() == 0 {
        -1
    } else if es.first().0@ == k {
        0
    } else if kv_index(es.drop_first(), k) < 0 {
        -1
    } else {
        kv_index(es.drop_first(), k) + 1
    }
}

proof fn lemma_kv_index<V>(es: Seq<(String, V)>, k: Seq<char>)
    ensures
        kv_index(es, k) < 0 ==> forall|j: int| 0 <= j < es.len() ==> (#[trigger] es[j]).0@ != k,
        kv_index(es, k) >= 0 ==> kv_index(es, k) < es.len() && es[kv_index(es, k)].0@ == k
            && forall|j: int| 0 <= j < kv_index(es, k) ==> (#[trigger] es[j]).0@ != k,
    decreases es.len(),
{
    if es.len() > 0 && es.first().0@ != k {
        lemma_kv_index(es.drop_first(), k);
        assert(forall|j: int| 1 <= j < es.len() ==> es[j] == es.drop_first()[j - 1]);
    }
}

/// An in-memory file store: file contents by path, plus explicit existence
/// overrides for exercising error paths.
pub struct MockFileRepository {
    files: Vec<(String, String)>,
    exists_override: Vec<(String, bool)>,
}

impl MockFileRepository {
    /// The stored files, as a keyed sequence.
    pub closed spec fn files_view(self) -> Seq<(String, String)> {
        self.files@
    }

    /// The existence overrides, as a keyed sequence.
    pub closed spec fn overrides_view(self) -> Seq<(String, bool)> {
        self.exists_override@
    }

    /// The content stored under a path, if any.
    pub open spec fn content_of(self, path: Seq<char>) -> Option<Seq<char>> {
        if kv_index(self.files_view(), path) >= 0 {
            Some(self.files_view()[kv_index(self.files_view(), path)].1@)
        } else {
            None
        }
    }

    /// An empty store.
    pub fn new() -> (r: MockFileRepository)
        ensures
            r.files_view() == Seq::<(String, String)>::empty(),
            r.overrides_view() == Seq::<(String, bool)>::empty(),
    {
        let r = MockFileRepository { files: Vec::new(), exists_override: Vec::new() };
        proof {
            assert(r.files_view() =~= Seq::<(String, String)>::empty());
            assert(r.overrides_view() =~= Seq::<(String, bool)>::empty());
        }
        r
    }

    /// Stores content under a path, replacing what was there.
    pub fn set_content(&mut self, path: String, content: String)
        ensures
            final(self).content_of(path@) == Some(content@),
            final(self).overrides_view() == old(self).overrides_view(),
            forall|p: Seq<char>|
                p != path@ ==> #[trigger] final(self).content_of(p) == old(self).content_of(p),
    {
        let ghost v0 = self.files@;
        proof {
            lemma_kv_index(v0, path@);
        }
        let mut i: usize = 0;
        while i < self.files.len()
            invariant
                i <= self.files@.len(),
                self.files@ == v0,
                v0 == old(self).files_view(),
                self.exists_override@ == old(self).exists_override@,
                forall|j: int| 0 <= j < i ==> (#[trigger] v0[j]).0@ != path@,
            decreases self.files@.len() - i,
        {
            if string_eq(&self.files[i].0, &path) {
                proof {
                    lemma_kv_index(v0, path@);
                    assert(v0[i as int].0@ == path@);
                    assert(kv_index(v0, path@) == i as int) by {
                        if kv_index(v0, path@) < 0 {
                        } else if kv_index(v0, path@) < i as int {
                            assert(v0[kv_index(v0, path@)].0@ == path@);
                        } else if kv_index(v0, path@) > i as int {
                            assert(v0[i as int].0@ != path@);
                        }
                    }
                }
                self.files[i] = (path, content);
                proof {
                    lemma_kv_set_frame(v0, self.files@, i as int);
                    assert(self.exists_override@ == old(self).exists_override@);
                    assert(kv_index(self.files@, path@) == i as int);
                    assert(self.files@[i as int].1@ == content@);
                    assert forall|p: Seq<char>| p != path@ implies #[trigger] self.content_of(p)
                        == old(self).content_of(p) by {
                        assert(kv_index(self.files@, p) == kv_index(v0, p));
                        assert(old(self).files_view() == v0);
                        let idx = kv_index(v0, p);
                        if idx >= 0 {
                            lemma_kv_index(v0, p);
                            assert(v0[idx].0@ == p);
                            assert(idx != i as int);
                            assert(self.files@[idx] == v0[idx]);
                            assert(self.content_of(p) == Some(v0[idx].1@));
                            assert(old(self).content_of(p) == Some(v0[idx].1@));
                        } else {
                            assert(self.content_of(p) is None);
                            assert(old(self).content_of(p) is None);
                        }
                    }
                }
                return ;
            }
            i = i + 1;
        }
        proof {
            lemma_kv_index(v0, path@);
            if kv_index(v0, path@) >= 0 {
                assert(v0[kv_index(v0, path@)].0@ == path@);
            }
        }
        self.files.push((path, content));
        proof {
            lemma_kv_push_frame(v0, self.files@);
            assert(self.exists_override@ == old(self).exists_override@);
            assert(kv_index(self.files@, path@) == v0.len() as int);
            assert(self.files@[v0.len() as int].1@ == content@);
            assert forall|p: Seq<char>| p != path@ implies #[trigger] self.content_of(p)
                == old(self).content_of(p) by {
                assert(kv_index(self.files@, p) == kv_index(v0, p));
                if kv_index(v0, p) >= 0 {
                    lemma_kv_index(v0, p);
                }
            }
        }
    }

    /// Reads the content stored under a path.
    pub fn get_content(&self, path: &String) -> (r: Option<String>)
        ensures
            (match r {
                Option::Some(c) => self.content_of(path@) == Some(c@),
                Option::None => self.content_of(path@) is None,
            }),
    {
        let ghost v = self.files@;
        proof {
            lemma_kv_index(v, path@);
        }
        let mut i: usize = 0;
        while i < self.files.len()
            invariant
                i <= self.files@.len(),
                self.files@ == v,
                forall|j: int| 0 <= j < i ==> (#[trigger] v[j]).0@ != path@,
            decreases self.files@.len() - i,
        {
            if string_eq(&self.files[i].0, path) {
                proof {
                    lemma_kv_index(v, path@);
                    assert(v[i as int].0@ == path@);
                    assert(kv_index(v, path@) == i as int) by {
                        if kv_index(v, path@) < 0 {
                        } else if kv_index(v, path@) < i as int {
                            assert(v[kv_index(v, path@)].0@ == path@);
                        } else if kv_index(v, path@) > i as int {
                            assert(v[i as int].0@ != path@);
                        }
                    }
                }
                return Some(self.files[i].1.clone());
            }
            i = i + 1;
        }
        proof {
            lemma_kv_index(v, path@);
            if kv_index(v, path@) >= 0 {
                assert(v[kv_index(v, path@)].0@ == path@);
            }
        }
        None
    }

    /// Overrides what `exists` reports for a path.
    pub fn set_exists(&mut self, path: String, present: bool)
        ensures
            final(self).files_view() == old(self).files_view(),
            final(self).overrides_view() == old(self).overrides_view().push((path, present)),
    {
        self.exists_override.push((path, present));
    }
}

impl FileRepository for MockFileRepository {
    fn read_file(&self, path: &String) -> Result<String, String> {
        match self.get_content(path) {
            Option::Some(c) => Ok(c),
            Option::None => Err("File not found in mock".to_owned()),
        }
    }

    fn write_file(&mut self, path: &String, content: &String) -> Result<(), String> {
        self.set_content(path.clone(), content.clone());
        Ok(())
    }

    fn path_exists(&self, path: &String) -> Result<bool, String> {
        let mut i: usize = 0;
        let n = self.exists_override.len();
        while i < n
            invariant
                i <= n,
                n == self.exists_override@.len(),
            decreases n - i,
        {
            if string_eq(&self.exists_override[i].0, path) {
                return Ok(self.exists_override[i].1);
            }
            i = i + 1;
        }
        match self.get_content(path) {
            Option::Some(_) => Ok(true),
            Option::None => Ok(false),
        }
    }

    fn delete(&mut self, path: &String) -> Result<(), String> {
        let mut kept: Vec<(String, String)> = Vec::new();
        let n = self.files.len();
        let mut i: usize = 0;
        while i < n
            invariant
                i <= n,
                n == self.files@.len(),
            decreases n - i,
        {
            if !string_eq(&self.files[i].0, path) {
                let entry = (self.files[i].0.clone(), self.files[i].1.clone());
                kept.push(entry);
            }
            i = i + 1;
        }
        self.files = kept;
        Ok(())
    }

    fn create_dir_all(&mut self, _path: &String) -> Result<(), String> {
        Ok(())
    }
}

/// Updating the entry at its own index leaves every other key's lookup
/// unchanged.
proof fn lemma_kv_set_frame(v0: Seq<(String, String)>, v1: Seq<(String, String)>, i: int)
    requires
        0 <= i < v0.len(),
        v1.len() == v0.len(),
        forall|j: int| 0 <= j < v0.len() && j != i ==> #[trigger] v1[j] == v0[j],
        v1[i].0@ == v0[i].0@,
    ensures
        forall|p: Seq<char>| #[trigger] kv_index(v1, p) == kv_index(v0, p),
    decreases v0.len(),
{
    assert forall|p: Seq<char>| #[trigger] kv_index(v1, p) == kv_index(v0, p) by {
        lemma_kv_same_keys(v0, v1, p);
    }
}

/// Lookups agree on any two sequences with the same keys in the same
/// positions.
proof fn lemma_kv_same_keys(v0: Seq<(String, String)>, v1: Seq<(String, String)>, p: Seq<char>)
    requires
        v1.len() == v0.len(),
        forall|j: int| 0 <= j < v0.len() ==> (#[trigger] v1[j]).0@ == v0[j].0@,
    ensures
        kv_index(v1, p) == kv_index(v0, p),
    decreases v0.len(),
{
    if v0.len() > 0 {
        assert(v1.first().0@ == v0.first().0@);
        assert(v1.drop_first().len() == v0.drop_first().len());
        assert(forall|j: int|
            0 <= j < v0.drop_first().len() ==> (#[trigger] v1.drop_first()[j]).0@
                == v0.drop_first()[j].0@);
        lemma_kv_same_keys(v0.drop_first(), v1.drop_first(), p);
    }
}

/// Appending a new entry leaves existing keys' lookups unchanged.
proof fn lemma_kv_push_frame(v0: Seq<(String, String)>, v1: Seq<(String, String)>)
    requires
        v1.len() == v0.len() + 1,
        forall|j: int| 0 <= j < v0.len() ==> #[trigger] v1[j] == v0[j],
    ensures
        forall|p: Seq<char>|
            p != v1[v1.len() - 1].0@ ==> #[trigger] kv_index(v1, p) == kv_index(v0, p),
        kv_index(v0, v1[v1.len() - 1].0@) < 0 ==> kv_index(v1, v1[v1.len() - 1].0@) == v0.len(),
    decreases v0.len(),
{
    let e = v1[v1.len() - 1];
    assert(v1 =~= v0.push(e));
    assert forall|p: Seq<char>|
        p != v1[v1.len() - 1].0@ implies #[trigger] kv_index(v1, p) == kv_index(v0, p) by {
        lemma_kv_push_one(v0, e, p);
    }
    lemma_kv_push_one(v0, e, e.0@);
}

/// How one pushed entry changes a lookup.
proof fn lemma_kv_push_one(v0: Seq<(String, String)>, e: (String, String), p: Seq<char>)
    ensures
        kv_index(v0.push(e), p) == if kv_index(v0, p) >= 0 {
            kv_index(v0, p)
        } else if e.0@ == p {
            v0.len() as int
        } else {
            -1
        },
    decreases v0.len(),
{
    let v1 = v0.push(e);
    if v0.len() == 0 {
        assert(v1.len() == 1);
        assert(v1.first() == e);
        assert(v1.drop_first() =~= Seq::<(String, String)>::empty());
        assert(kv_index(v1.drop_first(), p) == -1);
    } else {
        assert(v1.first() == v0.first());
        assert(v1.drop_first() =~= v0.drop_first().push(e));
        lemma_kv_push_one(v0.drop_first(), e, p);
        if v0.first().0@ == p {
            assert(kv_index(v1, p) == 0);
            assert(kv_index(v0, p) == 0);
        } else {
            assert(kv_index(v1, p) == if kv_index(v1.drop_first(), p) < 0 {
                -1int
            } else {
                kv_index(v1.drop_first(), p) + 1
            });
        }
    }
}

} // verus!
