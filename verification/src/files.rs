//! A set of files by name, as one directory of a store holds them.

use vstd::prelude::*;

use crate::order::by_name;
use crate::order::by_name_antisymmetric;
use crate::order::name_le;
use crate::order::name_le_total;
use crate::order::name_le_transitive;
use crate::order::name_not_after;
use crate::order::strictly;
use crate::order::strictly_unique;
use crate::text::same_text;
use crate::text::texts;

verus! {

/// Files by name.
#[derive(Debug, Clone, PartialEq, Eq)]
pub struct Files {
    pub names: Vec<String>,
    pub contents: Vec<Vec<u8>>,
}

/// What a set of files holds: the bytes under each name.
pub type FileMap = Map<Seq<char>, Seq<u8>>;

/// `names` is in ascending order, none occurring twice.
pub open spec fn ascending_names(names: Seq<Seq<char>>) -> bool {
    strictly(names, by_name())
}

/// `names` are the names of `files`, in ascending order.
pub open spec fn lists(names: Seq<Seq<char>>, files: FileMap) -> bool {
    ascending_names(names) && forall|k: Seq<char>| #[trigger]
        names.contains(k) <==> files.contains_key(k)
}

/// The names of `files`, in ascending order.
pub open spec fn names_of(files: FileMap) -> Seq<Seq<char>> {
    choose|names: Seq<Seq<char>>| lists(names, files)
}

/// There is only one way to list the names of `files` in ascending order.
pub proof fn lists_unique(names: Seq<Seq<char>>, files: FileMap)
    requires
        lists(names, files),
    ensures
        names == names_of(files),
{
    assert(lists(names_of(files), files));
    by_name_antisymmetric();
    strictly_unique(names, names_of(files), by_name());
}

impl Files {
    /// The names, in ascending order.
    pub open spec fn keys(&self) -> Seq<Seq<char>> {
        texts(self.names@)
    }

    /// Every name has content, and the names are in ascending order.
    pub open spec fn wf(&self) -> bool {
        self.names@.len() == self.contents@.len() && ascending_names(self.keys())
    }
}

impl View for Files {
    type V = FileMap;

    open spec fn view(&self) -> FileMap {
        Map::new(
            |k: Seq<char>| self.keys().contains(k),
            |k: Seq<char>| self.contents@[self.keys().index_of(k)]@,
        )
    }
}

/// The file at position `i` is the one under its name.
pub proof fn file_at(f: &Files, i: int)
    requires
        f.wf(),
        0 <= i < f.names@.len(),
    ensures
        f@.contains_key(f.names@[i]@),
        f@[f.names@[i]@] == f.contents@[i]@,
{
    let k = f.keys()[i];
    assert(f.keys().contains(k));
    let j = f.keys().index_of(k);
    assert(f.keys()[j] == k);
}

/// The names of well-formed files list them.
pub proof fn files_listed(f: &Files)
    requires
        f.wf(),
    ensures
        lists(f.keys(), f@),
        f.keys() == names_of(f@),
{
    assert(lists(f.keys(), f@));
    lists_unique(f.keys(), f@);
}

/// Where a name is, or belongs.
pub struct Slot {
    pub at: usize,
    pub found: bool,
}

impl Files {
    /// No files.
    pub fn new() -> (f: Files)
        ensures
            f.wf(),
            f@ == FileMap::empty(),
    {
        let f = Files { names: Vec::new(), contents: Vec::new() };
        assert(f@ =~= FileMap::empty());
        f
    }

    fn slot(&self, name: &str) -> (s: Slot)
        requires
            self.wf(),
        ensures
            s.at <= self.names@.len(),
            s.found ==> s.at < self.names@.len() && self.names@[s.at as int]@ == name@,
            s.found <==> self@.contains_key(name@),
            forall|j: int|
                0 <= j < s.at ==> name_le(#[trigger] self.keys()[j], name@) && self.keys()[j]
                    != name@,
            forall|j: int|
                s.at <= j < self.names@.len() ==> name_le(name@, #[trigger] self.keys()[j]),
    {
        let ghost keys = self.keys();
        let mut lo: usize = 0;
        let mut hi: usize = self.names.len();
        while lo < hi
            invariant
                self.wf(),
                keys == self.keys(),
                lo <= hi <= self.names@.len(),
                forall|j: int| 0 <= j < lo ==> !name_le(name@, #[trigger] keys[j]),
                forall|j: int| hi <= j < keys.len() ==> name_le(name@, #[trigger] keys[j]),
            decreases hi - lo,
        {
            let mid: usize = lo + (hi - lo) / 2;
            assert(keys[mid as int] == self.names@[mid as int]@);
            if name_not_after(name, self.names[mid].as_str()) {
                assert forall|j: int| mid <= j < keys.len() implies name_le(
                    name@,
                    #[trigger] keys[j],
                ) by {
                    if j > mid {
                        name_le_transitive(name@, keys[mid as int], keys[j]);
                    }
                }
                hi = mid;
            } else {
                assert forall|j: int| 0 <= j <= mid implies !name_le(
                    name@,
                    #[trigger] keys[j],
                ) by {
                    if j < mid && name_le(name@, keys[j]) {
                        name_le_transitive(name@, keys[j], keys[mid as int]);
                    }
                }
                lo = mid + 1;
            }
        }
        assert forall|j: int| 0 <= j < lo implies name_le(#[trigger] keys[j], name@) && keys[j]
            != name@ by {
            name_le_total(keys[j], name@);
        }
        let found = lo < self.names.len() && same_text(self.names[lo].as_str(), name);
        proof {
            if found {
                file_at(self, lo as int);
            }
            if self@.contains_key(name@) {
                let i = choose|i: int| 0 <= i < keys.len() && keys[i] == name@;
                if i > lo {
                    assert(name_le(keys[lo as int], keys[i]));
                    name_le_total(keys[lo as int], name@);
                }
                assert(keys[lo as int] == self.names@[lo as int]@);
            }
        }
        Slot { at: lo, found }
    }

    /// Is there a file of this name?
    pub fn contains(&self, name: &str) -> (r: bool)
        requires
            self.wf(),
        ensures
            r == self@.contains_key(name@),
    {
        self.slot(name).found
    }

    /// The content of the file of this name.
    pub fn get(&self, name: &str) -> (r: Option<&Vec<u8>>)
        requires
            self.wf(),
        ensures
            match r {
                None => !self@.contains_key(name@),
                Some(b) => self@.contains_key(name@) && self@[name@] == b@,
            },
    {
        let s = self.slot(name);
        if s.found {
            proof {
                file_at(self, s.at as int);
            }
            Some(&self.contents[s.at])
        } else {
            None
        }
    }

    /// Writes a file, replacing what was there.
    pub fn put(&mut self, name: &str, bytes: Vec<u8>)
        requires
            old(self).wf(),
        ensures
            final(self).wf(),
            final(self)@ == old(self)@.insert(name@, bytes@),
    {
        let s = self.slot(name);
        let at: usize = s.at;
        let ghost before = *self;
        let ghost keys = self.keys();
        let ghost b = bytes@;
        if s.found {
            self.contents.set(at, bytes);
            proof {
                assert(self.keys() =~= keys);
                assert forall|k: Seq<char>| self@.contains_key(k) implies #[trigger] self@[k]
                    == before@.insert(name@, b)[k] by {
                    let i = choose|i: int| 0 <= i < keys.len() && keys[i] == k;
                    file_at(self, i);
                    file_at(&before, i);
                    assert(keys[at as int] == name@);
                    if i < at {
                        assert(keys[i] != keys[at as int]);
                    } else if i > at {
                        assert(keys[at as int] != keys[i]);
                    }
                }
                assert(self@ =~= before@.insert(name@, b));
            }
        } else {
            self.names.insert(at, name.to_string());
            self.contents.insert(at, bytes);
            proof {
                let now = self.keys();
                assert(now =~= keys.insert(at as int, name@));
                assert forall|i: int, j: int| 0 <= i < j < now.len() implies name_le(
                    #[trigger] now[i],
                    #[trigger] now[j],
                ) && now[i] != now[j] by {
                    let p = if i < at {
                        i
                    } else {
                        i - 1
                    };
                    let q = if j < at {
                        j
                    } else {
                        j - 1
                    };
                    if i == at {
                        assert(now[j] == keys[q]);
                        assert(keys.contains(keys[q]));
                    } else if j == at {
                        assert(now[i] == keys[p]);
                        assert(keys.contains(keys[p]));
                    } else {
                        assert(now[i] == keys[p] && now[j] == keys[q]);
                    }
                }
                assert(self.wf());
                assert forall|k: Seq<char>| #[trigger] now.contains(k) <==> keys.contains(k) || k
                    == name@ by {
                    if keys.contains(k) {
                        let i = choose|i: int| 0 <= i < keys.len() && keys[i] == k;
                        if i < at {
                            assert(now[i] == k);
                        } else {
                            assert(now[i + 1] == k);
                        }
                    }
                    if k == name@ {
                        assert(now[at as int] == k);
                    }
                    if now.contains(k) {
                        let i = choose|i: int| 0 <= i < now.len() && now[i] == k;
                        if i < at {
                            assert(keys[i] == k);
                        } else if i > at {
                            assert(keys[i - 1] == k);
                        }
                    }
                }
                assert forall|k: Seq<char>| self@.contains_key(k) implies #[trigger] self@[k]
                    == before@.insert(name@, b)[k] by {
                    let i = choose|i: int| 0 <= i < now.len() && now[i] == k;
                    file_at(self, i);
                    if i < at {
                        file_at(&before, i);
                    } else if i > at {
                        file_at(&before, i - 1);
                    }
                }
                assert(self@ =~= before@.insert(name@, b));
            }
        }
    }

    /// Removes a file, and says whether there was one.
    pub fn remove(&mut self, name: &str) -> (r: bool)
        requires
            old(self).wf(),
        ensures
            final(self).wf(),
            final(self)@ == old(self)@.remove(name@),
            r == old(self)@.contains_key(name@),
    {
        let s = self.slot(name);
        let at: usize = s.at;
        let ghost before = *self;
        let ghost keys = self.keys();
        if s.found {
            let _ = self.names.remove(at);
            let _ = self.contents.remove(at);
            proof {
                let now = self.keys();
                assert(now =~= keys.remove(at as int));
                assert forall|i: int, j: int| 0 <= i < j < now.len() implies name_le(
                    #[trigger] now[i],
                    #[trigger] now[j],
                ) && now[i] != now[j] by {
                    let p = if i < at {
                        i
                    } else {
                        i + 1
                    };
                    let q = if j < at {
                        j
                    } else {
                        j + 1
                    };
                    assert(now[i] == keys[p] && now[j] == keys[q]);
                }
                assert(self.wf());
                assert forall|k: Seq<char>| #[trigger] now.contains(k) <==> keys.contains(k) && k
                    != name@ by {
                    if keys.contains(k) && k != name@ {
                        let i = choose|i: int| 0 <= i < keys.len() && keys[i] == k;
                        if i < at {
                            assert(now[i] == k);
                        } else {
                            assert(now[i - 1] == k);
                        }
                    }
                    if now.contains(k) {
                        let i = choose|i: int| 0 <= i < now.len() && now[i] == k;
                        if i < at {
                            assert(keys[i] == k);
                            assert(keys[i] != keys[at as int]);
                        } else {
                            assert(keys[i + 1] == k);
                            assert(keys[at as int] != keys[i + 1]);
                        }
                    }
                }
                assert forall|k: Seq<char>| self@.contains_key(k) implies #[trigger] self@[k]
                    == before@.remove(name@)[k] by {
                    let i = choose|i: int| 0 <= i < now.len() && now[i] == k;
                    file_at(self, i);
                    if i < at {
                        file_at(&before, i);
                    } else {
                        file_at(&before, i + 1);
                    }
                }
                assert(self@ =~= before@.remove(name@));
            }
        } else {
            assert(self@ =~= before@.remove(name@));
        }
        s.found
    }
}

// ---------------------------------------------------------------------------------------
// Changes
// ---------------------------------------------------------------------------------------
/// The names in `after` that `before` lacks, in ascending order.
pub open spec fn added_names(before: FileMap, after: FileMap) -> Seq<Seq<char>> {
    names_of(after).filter(|k: Seq<char>| !before.contains_key(k))
}

/// The names in `after` that `before` lacks or holds with other content, in ascending order.
pub open spec fn changed_names(before: FileMap, after: FileMap) -> Seq<Seq<char>> {
    names_of(after).filter(|k: Seq<char>| !before.contains_key(k) || before[k] != after[k])
}

fn same_bytes(a: &Vec<u8>, b: &Vec<u8>) -> (same: bool)
    ensures
        same == (a@ == b@),
{
    if a.len() != b.len() {
        return false;
    }
    let mut i: usize = 0;
    while i < a.len()
        invariant
            i <= a@.len() == b@.len(),
            forall|j: int| 0 <= j < i ==> a@[j] == b@[j],
        decreases a@.len() - i,
    {
        if a[i] != b[i] {
            return false;
        }
        i = i + 1;
    }
    assert(a@ =~= b@);
    true
}

impl Files {
    /// The names of the files that `before` lacks, in ascending order.
    pub fn added_since(&self, before: &Files) -> (r: Vec<String>)
        requires
            self.wf(),
            before.wf(),
        ensures
            texts(r@) == added_names(before@, self@),
    {
        let mut r: Vec<String> = Vec::new();
        let ghost keys = self.keys();
        let ghost new = |k: Seq<char>| !before@.contains_key(k);
        proof {
            files_listed(self);
            reveal(Seq::filter);
        }
        let mut i: usize = 0;
        assert(texts(r@) =~= keys.take(0).filter(new));
        while i < self.names.len()
            invariant
                before.wf(),
                keys == self.keys(),
                new == (|k: Seq<char>| !before@.contains_key(k)),
                i <= keys.len(),
                texts(r@) == keys.take(i as int).filter(new),
            decreases keys.len() - i,
        {
            let ghost done = texts(r@);
            proof {
                reveal(Seq::filter);
                assert(keys.take(i + 1).drop_last() =~= keys.take(i as int));
            }
            if !before.contains(self.names[i].as_str()) {
                r.push(self.names[i].clone());
                assert(texts(r@) =~= done.push(keys[i as int]));
            }
            i = i + 1;
        }
        assert(keys.take(i as int) =~= keys);
        r
    }

    /// The names of the files that `before` lacks or holds with other content, in ascending
    /// order.
    pub fn changed_since(&self, before: &Files) -> (r: Vec<String>)
        requires
            self.wf(),
            before.wf(),
        ensures
            texts(r@) == changed_names(before@, self@),
    {
        let mut r: Vec<String> = Vec::new();
        let ghost keys = self.keys();
        let ghost new = |k: Seq<char>| !before@.contains_key(k) || before@[k] != self@[k];
        proof {
            files_listed(self);
            reveal(Seq::filter);
        }
        let mut i: usize = 0;
        assert(texts(r@) =~= keys.take(0).filter(new));
        while i < self.names.len()
            invariant
                self.wf(),
                before.wf(),
                keys == self.keys(),
                new == (|k: Seq<char>| !before@.contains_key(k) || before@[k] != self@[k]),
                i <= keys.len(),
                texts(r@) == keys.take(i as int).filter(new),
            decreases keys.len() - i,
        {
            let ghost done = texts(r@);
            proof {
                reveal(Seq::filter);
                assert(keys.take(i + 1).drop_last() =~= keys.take(i as int));
                file_at(self, i as int);
            }
            let known = match before.get(self.names[i].as_str()) {
                None => false,
                Some(bytes) => same_bytes(bytes, &self.contents[i]),
            };
            if !known {
                r.push(self.names[i].clone());
                assert(texts(r@) =~= done.push(keys[i as int]));
            }
            i = i + 1;
        }
        assert(keys.take(i as int) =~= keys);
        r
    }
}

} // verus!
