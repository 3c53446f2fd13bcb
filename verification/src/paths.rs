//! Paths below a directory of a store. A branch name is a path below `refs/heads`, and what
//! stands before a `/` in it is a directory; a snapshot id is a path below `snaps`.

use vstd::prelude::*;

use crate::files::files_listed;
use crate::files::FileMap;
use crate::files::Files;
use crate::render::join;
use crate::render::join_strings;
use crate::text::cut;
use crate::text::cut_at;
use crate::text::ends;
use crate::text::ends_with;
use crate::text::index_of_facts;
use crate::text::same_text;
use crate::text::split_at_first;
use crate::text::starts;
use crate::text::starts_with;
use crate::text::texts;

verus! {

/// What `part` adds to a path: nothing if it is empty or a dot.
pub open spec fn step(part: Seq<char>) -> Seq<Seq<char>> {
    if part.len() == 0 || part == "."@ {
        Seq::empty()
    } else {
        seq![part]
    }
}

/// The directories and the file that `path` names, from the top.
pub open spec fn steps(path: Seq<char>) -> Seq<Seq<char>>
    decreases path.len(),
{
    match cut(path, '/') {
        None => step(path),
        Some((first, rest)) => step(first) + steps(rest),
    }
}

/// The name of the file that `path` leads to. Several paths may lead to one file: `a//b` and
/// `a/./b` are `a/b`.
pub open spec fn path_key(path: Seq<char>) -> Seq<char> {
    join(steps(path), "/"@)
}

/// The directory of the file that `path` leads to; `None` if that is the topmost one.
pub open spec fn parent_key(path: Seq<char>) -> Option<Seq<char>> {
    if steps(path).len() >= 2 {
        Some(join(steps(path).drop_last(), "/"@))
    } else {
        None
    }
}

/// Does `path` lead nowhere but up? Where it does there is a directory.
pub open spec fn leads_up(path: Seq<char>) -> bool {
    forall|i: int| 0 <= i < steps(path).len() ==> #[trigger] steps(path)[i] == ".."@
}

/// What there is at the place of a branch.
#[derive(Debug, Clone, Copy, PartialEq, Eq, Structural)]
pub enum Place {
    Nothing,
    File,
    /// A directory, which other branches may lie in.
    Directory,
    /// A file stands where there would have to be a directory.
    Blocked,
}

/// Does a file stand where `key` needs a directory?
pub open spec fn is_below_file(refs: FileMap, key: Seq<char>) -> bool {
    exists|n: Seq<char>| #[trigger] refs.contains_key(n) && starts(key, n.push('/'))
}

/// Is there a directory `key`? The directories that files lie in need not be among `dirs`.
pub open spec fn is_directory(refs: FileMap, dirs: Set<Seq<char>>, key: Seq<char>) -> bool {
    ||| dirs.contains(key)
    ||| exists|n: Seq<char>| #[trigger] refs.contains_key(n) && starts(n, key.push('/'))
    ||| exists|d: Seq<char>| #[trigger] dirs.contains(d) && starts(d, key.push('/'))
}

/// Does `name` say that it is a directory?
pub open spec fn says_directory(name: Seq<char>) -> bool {
    ends(name, "/."@)
}

/// What there is at the place of branch `name`, where `refs` are the files and `dirs` the
/// directories.
pub open spec fn place_of(refs: FileMap, dirs: Set<Seq<char>>, name: Seq<char>) -> Place {
    let key = path_key(name);
    if is_below_file(refs, key) {
        Place::Blocked
    } else if is_directory(refs, dirs, key) {
        Place::Directory
    } else if !refs.contains_key(key) {
        Place::Nothing
    } else if says_directory(name) {
        Place::Blocked
    } else {
        Place::File
    }
}

fn add_step(list: &mut Vec<String>, part: String)
    ensures
        texts(final(list)@) == texts(old(list)@) + step(part@),
{
    let ghost before = texts(list@);
    let ghost p = part@;
    if part.as_str().as_bytes().len() > 0 && !same_text(part.as_str(), ".") {
        list.push(part);
        assert(texts(list@) =~= before + seq![p]);
    } else {
        assert(before + Seq::<Seq<char>>::empty() =~= before);
    }
}

/// The directories and the file that `path` names, from the top.
fn list_steps(path: &str) -> (list: Vec<String>)
    ensures
        texts(list@) == steps(path@),
{
    let mut list: Vec<String> = Vec::new();
    let mut rest = path.to_string();
    let mut more = true;
    assert(texts(list@) + steps(path@) =~= steps(path@));
    while more
        invariant
            more ==> texts(list@) + steps(rest@) == steps(path@),
            !more ==> texts(list@) == steps(path@),
        decreases (if more { rest@.len() + 1 } else { 0 }),
    {
        let ghost before = texts(list@);
        match split_at_first(rest.as_str(), '/') {
            None => {
                add_step(&mut list, rest.clone());
                more = false;
            },
            Some((first, after)) => {
                assert(after@.len() < rest@.len());
                assert(before + (step(first@) + steps(after@)) =~= (before + step(first@)) + steps(
                    after@,
                ));
                add_step(&mut list, first);
                rest = after;
            },
        }
    }
    list
}

/// How many directories and files `path` names.
pub fn count_steps(path: &str) -> (n: usize)
    ensures
        n == steps(path@).len(),
{
    let list = list_steps(path);
    assert(texts(list@).len() == list@.len());
    list.len()
}

/// The name of the file that `path` leads to.
pub fn key_of_path(path: &str) -> (key: String)
    ensures
        key@ == path_key(path@),
{
    join_strings(&list_steps(path), "/")
}

/// The directory of the file that `path` leads to; `None` if that is the topmost one.
pub fn parent_of_path(path: &str) -> (key: Option<String>)
    ensures
        match key {
            None => parent_key(path@) is None,
            Some(k) => parent_key(path@) == Some(k@),
        },
{
    let mut list = list_steps(path);
    if list.len() < 2 {
        return None;
    }
    let ghost all = texts(list@);
    list.pop();
    assert(texts(list@) =~= all.drop_last());
    Some(join_strings(&list, "/"))
}

/// Does `path` lead nowhere but up?
pub fn path_leads_up(path: &str) -> (r: bool)
    ensures
        r == leads_up(path@),
{
    let list = list_steps(path);
    let mut i: usize = 0;
    while i < list.len()
        invariant
            i <= list@.len(),
            texts(list@) == steps(path@),
            forall|j: int| 0 <= j < i ==> #[trigger] steps(path@)[j] == ".."@,
        decreases list@.len() - i,
    {
        assert(steps(path@)[i as int] == list@[i as int]@);
        if !same_text(list[i].as_str(), "..") {
            return false;
        }
        i = i + 1;
    }
    true
}

/// The directories in a list of them.
pub open spec fn dirs_in(list: Seq<String>) -> Set<Seq<char>> {
    Set::new(|d: Seq<char>| texts(list).contains(d))
}

/// Is there a directory `key` in `dirs`, or one below it?
fn lists_directory(dirs: &Vec<String>, key: &str) -> (r: bool)
    ensures
        r == (dirs_in(dirs@).contains(key@) || exists|d: Seq<char>| #[trigger]
            dirs_in(dirs@).contains(d) && starts(d, key@.push('/'))),
{
    let ghost all = texts(dirs@);
    let mut below = key.to_string();
    below.push('/');
    let mut i: usize = 0;
    while i < dirs.len()
        invariant
            i <= all.len(),
            all == texts(dirs@),
            below@ == key@.push('/'),
            forall|j: int|
                0 <= j < i ==> #[trigger] all[j] != key@ && !starts(all[j], key@.push('/')),
        decreases all.len() - i,
    {
        assert(all[i as int] == dirs@[i as int]@);
        if same_text(dirs[i].as_str(), key) || starts_with(dirs[i].as_str(), below.as_str()) {
            assert(dirs_in(dirs@).contains(all[i as int])) by {
                assert(all.contains(all[i as int]));
            }
            return true;
        }
        i = i + 1;
    }
    assert forall|d: Seq<char>| #[trigger] dirs_in(dirs@).contains(d) implies d != key@ && !starts(
        d,
        key@.push('/'),
    ) by {
        let j = all.index_of(d);
        assert(all[j] == d);
    }
    false
}

/// Adds a directory to a list of them.
pub fn add_directory(dirs: &mut Vec<String>, key: String)
    ensures
        dirs_in(final(dirs)@) == dirs_in(old(dirs)@).insert(key@),
{
    let ghost before = texts(dirs@);
    let ghost k = key@;
    dirs.push(key);
    let ghost after = texts(dirs@);
    assert(after =~= before.push(k));
    assert forall|d: Seq<char>| after.contains(d) <==> before.contains(d) || d == k by {
        if before.contains(d) {
            assert(after[before.index_of(d)] == d);
        }
        if d == k {
            assert(after[before.len() as int] == d);
        }
    }
    assert(dirs_in(dirs@) =~= dirs_in(old(dirs)@).insert(k));
}

/// What there is at the place of branch `name`.
pub fn find_place(refs: &Files, dirs: &Vec<String>, name: &str) -> (p: Place)
    requires
        refs.wf(),
    ensures
        p == place_of(refs@, dirs_in(dirs@), name@),
{
    let key = key_of_path(name);
    let mut as_directory = key.clone();
    as_directory.push('/');
    let ghost keys = refs.keys();
    let mut blocked = false;
    let mut directory = false;
    let mut i: usize = 0;
    while i < refs.names.len()
        invariant
            i <= keys.len(),
            keys == refs.keys(),
            as_directory@ == key@.push('/'),
            blocked <==> exists|j: int|
                0 <= j < i && starts(key@, #[trigger] keys[j].push('/')),
            directory <==> exists|j: int|
                0 <= j < i && starts(#[trigger] keys[j], key@.push('/')),
        decreases keys.len() - i,
    {
        let mut above = refs.names[i].clone();
        above.push('/');
        assert(above@ == keys[i as int].push('/'));
        if starts_with(key.as_str(), above.as_str()) {
            blocked = true;
        }
        if starts_with(refs.names[i].as_str(), as_directory.as_str()) {
            directory = true;
        }
        i = i + 1;
    }
    proof {
        files_listed(refs);
        if blocked {
            let j = choose|j: int|
                0 <= j < keys.len() && starts(key@, #[trigger] keys[j].push('/'));
            assert(keys.contains(keys[j]));
            assert(refs@.contains_key(keys[j]));
        }
        if is_below_file(refs@, key@) {
            let n = choose|n: Seq<char>| #[trigger]
                refs@.contains_key(n) && starts(key@, n.push('/'));
            assert(keys.contains(n));
            let j = keys.index_of(n);
            assert(starts(key@, keys[j].push('/')));
        }
        if directory {
            let j = choose|j: int|
                0 <= j < keys.len() && starts(#[trigger] keys[j], key@.push('/'));
            assert(keys.contains(keys[j]));
            assert(refs@.contains_key(keys[j]));
        }
        if exists|n: Seq<char>| #[trigger] refs@.contains_key(n) && starts(n, key@.push('/')) {
            let n = choose|n: Seq<char>| #[trigger]
                refs@.contains_key(n) && starts(n, key@.push('/'));
            assert(keys.contains(n));
            let j = keys.index_of(n);
            assert(starts(keys[j], key@.push('/')));
        }
    }
    if blocked {
        Place::Blocked
    } else if directory || lists_directory(dirs, key.as_str()) {
        Place::Directory
    } else if !refs.contains(key.as_str()) {
        Place::Nothing
    } else if ends_with(name, "/.") {
        Place::Blocked
    } else {
        Place::File
    }
}

// ---------------------------------------------------------------------------------------
// What holds of places
// ---------------------------------------------------------------------------------------
/// A name without a slash is its own file, and nothing can stand in its way.
pub proof fn plain_name(refs: FileMap, dirs: Set<Seq<char>>, name: Seq<char>)
    requires
        name.len() > 0,
        name != "."@,
        !name.contains('/'),
    ensures
        steps(name) == seq![name],
        path_key(name) == name,
        place_of(refs, dirs, name) != Place::Blocked,
{
    index_of_facts(name, '/', 0);
    assert(steps(name) =~= seq![name]);
    if is_below_file(refs, name) {
        let n = choose|n: Seq<char>| #[trigger] refs.contains_key(n) && starts(name, n.push('/'));
        assert(name.take(n.len() as int + 1)[n.len() as int] == '/');
        assert(name[n.len() as int] == '/');
    }
    if says_directory(name) {
        reveal_strlit("/.");
        assert(name.skip(name.len() - 2)[0] == '/');
        assert(name[name.len() - 2] == '/');
    }
}

/// A step of a path: a name that is no dot and has no slash in it.
pub open spec fn is_step(part: Seq<char>) -> bool {
    part.len() > 0 && part != "."@ && !part.contains('/')
}

proof fn steps_are_steps(path: Seq<char>)
    ensures
        forall|i: int| 0 <= i < steps(path).len() ==> is_step(#[trigger] steps(path)[i]),
    decreases path.len(),
{
    index_of_facts(path, '/', 0);
    match cut(path, '/') {
        None => {
            assert(!path.contains('/'));
        },
        Some((first, rest)) => {
            steps_are_steps(rest);
            assert(!first.contains('/'));
            assert forall|i: int| 0 <= i < steps(path).len() implies is_step(
                #[trigger] steps(path)[i],
            ) by {
                if i >= step(first).len() {
                    assert(is_step(steps(rest)[i - step(first).len()]));
                }
            }
        },
    }
}

proof fn join_from_the_front(parts: Seq<Seq<char>>, sep: Seq<char>)
    requires
        parts.len() > 1,
    ensures
        join(parts, sep) == parts[0] + sep + join(parts.skip(1), sep),
    decreases parts.len(),
{
    let tail = parts.skip(1);
    let init = parts.drop_last();
    if parts.len() > 2 {
        join_from_the_front(init, sep);
        assert(tail.drop_last() =~= init.skip(1));
        assert(tail.last() == parts.last());
        assert(join(parts, sep) =~= parts[0] + sep + (join(tail.drop_last(), sep) + sep
            + tail.last()));
    } else {
        assert(init =~= seq![parts[0]]);
        assert(tail =~= seq![parts[1]]);
        assert(join(init, sep) == parts[0]);
        assert(join(tail, sep) == parts[1]);
        assert(join(parts, sep) == parts[0] + sep + parts[1]);
    }
}

proof fn steps_of_joined(parts: Seq<Seq<char>>)
    requires
        forall|i: int| 0 <= i < parts.len() ==> is_step(#[trigger] parts[i]),
    ensures
        steps(join(parts, "/"@)) == parts,
    decreases parts.len(),
{
    reveal_strlit("/");
    let path = join(parts, "/"@);
    index_of_facts(path, '/', 0);
    if parts.len() == 0 {
        assert(steps(path) =~= parts);
    } else if parts.len() == 1 {
        assert(is_step(parts[0]));
        assert(steps(path) =~= parts);
    } else {
        let tail = parts.skip(1);
        assert forall|i: int| 0 <= i < tail.len() implies is_step(#[trigger] tail[i]) by {
            assert(is_step(parts[i + 1]));
        }
        join_from_the_front(parts, "/"@);
        steps_of_joined(tail);
        assert(is_step(parts[0]));
        assert("/"@ =~= seq!['/']);
        assert(path =~= parts[0].push('/') + join(tail, "/"@));
        cut_at(parts[0], '/', join(tail, "/"@));
        assert(seq![parts[0]] + tail =~= parts);
    }
}

/// The name of the file of a branch is a name of that branch.
pub proof fn keys_are_names(name: Seq<char>)
    ensures
        path_key(path_key(name)) == path_key(name),
{
    steps_are_steps(name);
    steps_of_joined(steps(name));
}

/// Where the head of one branch is written, it is found, and whatever else was a file stays
/// one.
pub proof fn writing_keeps_places(
    refs: FileMap,
    dirs: Set<Seq<char>>,
    name: Seq<char>,
    bytes: Seq<u8>,
    other: Seq<char>,
)
    requires
        place_of(refs, dirs, name) == Place::File || place_of(refs, dirs, name) == Place::Nothing,
        !says_directory(name),
    ensures
        place_of(refs.insert(path_key(name), bytes), dirs, name) == Place::File,
        place_of(refs, dirs, other) == Place::File ==> place_of(
            refs.insert(path_key(name), bytes),
            dirs,
            other,
        ) == Place::File,
{
    let key = path_key(name);
    let k2 = path_key(other);
    let after = refs.insert(key, bytes);
    assert forall|n: Seq<char>| #[trigger] after.contains_key(n) implies n == key
        || refs.contains_key(n) by {}
    assert(!is_below_file(after, key)) by {
        if is_below_file(after, key) {
            let n = choose|n: Seq<char>| #[trigger]
                after.contains_key(n) && starts(key, n.push('/'));
            assert(n != key);
            assert(refs.contains_key(n));
        }
    }
    assert(!is_directory(after, dirs, key)) by {
        if is_directory(after, dirs, key) {
            let n = choose|n: Seq<char>| #[trigger]
                after.contains_key(n) && starts(n, key.push('/'));
            assert(n != key);
            assert(refs.contains_key(n));
        }
    }
    if place_of(refs, dirs, other) == Place::File {
        if is_below_file(after, k2) {
            let n = choose|n: Seq<char>| #[trigger]
                after.contains_key(n) && starts(k2, n.push('/'));
            if n == key {
                assert(refs.contains_key(k2));
                assert(is_directory(refs, dirs, key));
            } else {
                assert(refs.contains_key(n));
            }
        }
        if is_directory(after, dirs, k2) {
            let n = choose|n: Seq<char>| #[trigger]
                after.contains_key(n) && starts(n, k2.push('/'));
            if n == key {
                assert(refs.contains_key(k2));
                assert(is_below_file(refs, key));
            } else {
                assert(refs.contains_key(n));
            }
        }
    }
}

/// Where the directory of a branch is made, whatever was a file stays one.
pub proof fn making_a_directory_keeps_places(
    refs: FileMap,
    dirs: Set<Seq<char>>,
    name: Seq<char>,
    other: Seq<char>,
)
    requires
        place_of(refs, dirs, name) == Place::Nothing,
        parent_key(name) is Some,
        place_of(refs, dirs, other) == Place::File,
    ensures
        place_of(refs, dirs.insert(parent_key(name).unwrap()), other) == Place::File,
{
    reveal_strlit("/");
    let key = path_key(name);
    let made = parent_key(name).unwrap();
    let k2 = path_key(other);
    let after = dirs.insert(made);
    assert("/"@ =~= seq!['/']);
    assert(key =~= made.push('/') + steps(name).last());
    assert(starts(key, made.push('/'))) by {
        assert(key.take(made.len() as int + 1) =~= made.push('/'));
    }
    if is_directory(refs, after, k2) {
        if made != k2 && !starts(made, k2.push('/')) {
            assert forall|d: Seq<char>| #[trigger] after.contains(d) && starts(
                d,
                k2.push('/'),
            ) implies dirs.contains(d) by {}
            assert(is_directory(refs, dirs, k2));
        } else if starts(made, k2.push('/')) {
            assert(key.take(k2.len() as int + 1) =~= made.take(k2.len() as int + 1));
            assert(starts(key, k2.push('/')));
        }
        assert(refs.contains_key(k2));
        assert(is_below_file(refs, key));
    }
}

} // verus!
