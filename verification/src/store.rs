//! The content-addressed store: page objects, snapshot manifests, branches.
//!
//! A store lies in a `<db>.litegraft/` directory next to the database it tracks:
//!
//! ```text
//! app.db.litegraft/
//! ├── LITEGRAFT            format marker ("litegraft store 1")
//! ├── objects/ab/cd…       raw page bytes, keyed by SHA-256
//! ├── snaps/<id>           snapshot manifests (plain text, line-based)
//! ├── refs/heads/<name>    branch heads (one snapshot id per file)
//! └── HEAD                 "ref: <branch>" or "snap: <id>" (detached)
//! ```
//!
//! [`Store`] holds the files of such a directory. A snapshot id is the hash of the database
//! state, so snapping an unchanged database changes nothing, and two branches with the same
//! content share one manifest.

use vstd::prelude::*;
use vstd::slice::slice_to_vec;
use vstd::utf8::encode_utf8;

use crate::error::invalid_data;
use crate::error::refused;
use crate::error::Error;
use crate::error::ErrorView;
use crate::files::file_at;
use crate::files::files_listed;
use crate::files::names_of;
use crate::files::FileMap;
use crate::files::Files;
use crate::manifest::is_hash;
use crate::manifest::manifest_in;
use crate::manifest::manifest_text;
use crate::manifest::parse_manifest;
use crate::manifest::render_manifest;
use crate::paths::add_directory;
use crate::paths::count_steps;
use crate::paths::dirs_in;
use crate::paths::find_place;
use crate::paths::key_of_path;
use crate::paths::leads_up;
use crate::paths::parent_key;
use crate::paths::parent_of_path;
use crate::paths::path_key;
use crate::paths::path_leads_up;
use crate::paths::place_of;
use crate::paths::plain_name;
use crate::paths::says_directory;
use crate::paths::steps;
use crate::paths::Place;
use crate::sha256::hex_sha256;
use crate::text::after_prefix;
use crate::text::all_hex;
use crate::text::as_text;
use crate::text::begins;
use crate::text::begins_with;
use crate::text::bytes_of;
use crate::text::chars_of;
use crate::text::dec;
use crate::text::decimal;
use crate::text::ends;
use crate::text::ends_with;
use crate::text::first_bytes;
use crate::text::fitting;
use crate::text::fitting_is_prefix;
use crate::text::is_all_hex;
use crate::text::is_hex;
use crate::text::quote;
use crate::text::quoted;
use crate::text::same_text;
use crate::text::starts;
use crate::text::starts_with;
use crate::text::string_of;
use crate::text::strip;
use crate::text::text_from_utf8;
use crate::text::texts;
use crate::text::trim_right;
use crate::text::trimmed;

pub use crate::manifest::escape_line;
pub use crate::manifest::page_hash;
pub use crate::manifest::state_id;
pub use crate::manifest::unescape_line;
pub use crate::manifest::Manifest;
pub use crate::manifest::ManifestView;

verus! {

/// Where HEAD points.
#[derive(Debug, Clone, PartialEq, Eq)]
pub enum Head {
    Branch(String),
    Detached(String),
}

/// The mathematical value of a [`Head`].
pub enum HeadView {
    Branch(Seq<char>),
    Detached(Seq<char>),
}

impl View for Head {
    type V = HeadView;

    open spec fn view(&self) -> HeadView {
        match self {
            Head::Branch(b) => HeadView::Branch(b@),
            Head::Detached(id) => HeadView::Detached(id@),
        }
    }
}

/// The files of a store.
#[derive(Debug, Clone, PartialEq, Eq)]
pub struct Store {
    /// Where the store lies.
    pub dir: String,
    /// The content of `HEAD`, if there is such a file.
    pub head_file: Option<Vec<u8>>,
    /// The objects, each under its key.
    pub objects: Files,
    /// The manifests, each under its id.
    pub snaps: Files,
    /// The branch heads, each under its path below `refs/heads`.
    pub refs: Files,
    /// The directories below `refs/heads`; those that a branch head lies in may be left out.
    pub dirs: Vec<String>,
}

/// The mathematical value of a [`Store`].
#[verifier::ext_equal]
pub struct StoreView {
    pub dir: Seq<char>,
    pub head: Option<Seq<u8>>,
    pub objects: FileMap,
    pub snaps: FileMap,
    pub refs: FileMap,
    pub dirs: Set<Seq<char>>,
}

impl View for Store {
    type V = StoreView;

    open spec fn view(&self) -> StoreView {
        StoreView {
            dir: self.dir@,
            head: match self.head_file {
                None => None,
                Some(b) => Some(b@),
            },
            objects: self.objects@,
            snaps: self.snaps@,
            refs: self.refs@,
            dirs: dirs_in(self.dirs@),
        }
    }
}

/// The store directory of a database, unless another is chosen: `<db>.litegraft`.
pub fn default_store_dir(db_path: &str) -> (dir: String)
    ensures
        dir@ == db_path@ + ".litegraft"@,
{
    let mut dir = db_path.to_string();
    dir.push_str(".litegraft");
    dir
}

// ---------------------------------------------------------------------------------------
// Branch names
// ---------------------------------------------------------------------------------------
/// May `c` stand in a branch name?
pub open spec fn is_name_char(c: char) -> bool {
    '0' <= c <= '9' || 'a' <= c <= 'z' || 'A' <= c <= 'Z' || c == '.' || c == '_' || c == '-' || c
        == '/'
}

/// May every character of `s` stand in a branch name?
pub open spec fn all_name_chars(s: Seq<char>) -> bool {
    forall|i: int| 0 <= i < s.len() ==> is_name_char(#[trigger] s[i])
}

/// Are there two dots in a row in `s`?
pub open spec fn has_double_dot(s: Seq<char>) -> bool {
    exists|i: int| 0 <= i < s.len() - 1 && #[trigger] s[i] == '.' && s[i + 1] == '.'
}

/// The number of bytes that `s` takes in UTF-8.
pub open spec fn byte_len(s: Seq<char>) -> nat {
    encode_utf8(s).len()
}

/// Why `name` is not a branch name, if it is not: a branch name has 1 to 100 characters from
/// `[a-zA-Z0-9._/-]`, does not start with a dash, a dot or a slash, does not end in a slash,
/// has no two dots in a row, and is not 64 hexadecimal digits, which would be a snapshot id.
pub open spec fn name_refusal(name: Seq<char>) -> Option<ErrorView> {
    let say = "invalid branch name "@ + quoted(name);
    if name.len() == 0 || byte_len(name) > 100 {
        Some(invalid_data(say + ": empty or too long"@))
    } else if begins(name, '-') || begins(name, '.') || begins(name, '/') {
        Some(invalid_data(say + ": bad leading character"@))
    } else if has_double_dot(name) || name.last() == '/' || !all_name_chars(name) {
        Some(invalid_data(say))
    } else if byte_len(name) == 64 && all_hex(name) {
        Some(invalid_data(say + ": looks like a snapshot id"@))
    } else {
        None
    }
}

fn scan_name(v: &Vec<char>) -> (r: bool)
    requires
        v@.len() > 0,
    ensures
        r == (has_double_dot(v@) || v@.last() == '/' || !all_name_chars(v@)),
{
    let mut i: usize = 0;
    while i < v.len()
        invariant
            i <= v@.len(),
            forall|j: int| 0 <= j < i ==> is_name_char(#[trigger] v@[j]),
            forall|j: int|
                0 <= j < i && j + 1 < v@.len() ==> !(#[trigger] v@[j] == '.' && v@[j + 1] == '.'),
        decreases v@.len() - i,
    {
        let c: char = v[i];
        let ok = ('0' <= c && c <= '9') || ('a' <= c && c <= 'z') || ('A' <= c && c <= 'Z') || c
            == '.' || c == '_' || c == '-' || c == '/';
        if !ok {
            assert(!is_name_char(v@[i as int]));
            return true;
        }
        if c == '.' && i + 1 < v.len() && v[i + 1] == '.' {
            assert(v@[i as int] == '.' && v@[i + 1] == '.');
            return true;
        }
        i = i + 1;
    }
    v[v.len() - 1] == '/'
}

fn name_error(name: &str, rest: &str) -> (e: Error)
    ensures
        e@ == invalid_data("invalid branch name "@ + quoted(name@) + rest@),
{
    let mut m = "invalid branch name ".to_string();
    m.push_str(quote(name).as_str());
    m.push_str(rest);
    Error::invalid_data(m)
}

/// Is `name` a branch name?
pub fn validate_branch_name(name: &str) -> (r: Result<(), Error>)
    ensures
        match r {
            Ok(()) => name_refusal(name@) is None,
            Err(e) => name_refusal(name@) == Some(e@),
        },
{
    let v = chars_of(name);
    let bytes: usize = name.as_bytes().len();
    if v.len() == 0 || bytes > 100 {
        return Err(name_error(name, ": empty or too long"));
    }
    if v[0] == '-' || v[0] == '.' || v[0] == '/' {
        return Err(name_error(name, ": bad leading character"));
    }
    if scan_name(&v) {
        let mut m = "invalid branch name ".to_string();
        m.push_str(quote(name).as_str());
        return Err(Error::invalid_data(m));
    }
    if bytes == 64 && is_all_hex(name) {
        return Err(name_error(name, ": looks like a snapshot id"));
    }
    Ok(())
}

// ---------------------------------------------------------------------------------------
// Where files lie
// ---------------------------------------------------------------------------------------
/// Where the object under `hash` lies: in a shard named by the first two bytes of its key.
/// A key without two such bytes has no place.
pub open spec fn object_place(dir: Seq<char>, hash: Seq<char>) -> Option<Seq<char>> {
    let shard = fitting(hash, 2);
    if byte_len(shard) == 2 {
        Some(dir + "/objects/"@ + shard + "/"@ + hash.skip(shard.len() as int))
    } else {
        None
    }
}

/// Where the manifest of snapshot `id` lies.
pub open spec fn snap_place(dir: Seq<char>, id: Seq<char>) -> Seq<char> {
    dir + "/snaps/"@ + id
}

/// Where the head of branch `name` lies.
pub open spec fn branch_place(dir: Seq<char>, name: Seq<char>) -> Seq<char> {
    dir + "/refs/heads/"@ + name
}

// ---------------------------------------------------------------------------------------
// Reading a store
// ---------------------------------------------------------------------------------------
/// What is said of a file that is not UTF-8 text.
pub open spec fn not_text() -> ErrorView {
    invalid_data("stream did not contain valid UTF-8"@)
}

/// The object under `hash`, or that it is missing.
pub open spec fn object_of(s: StoreView, hash: Seq<char>) -> Result<Seq<u8>, ErrorView> {
    if s.objects.contains_key(hash) {
        Ok(s.objects[hash])
    } else {
        Err(
            invalid_data(
                "missing object "@ + hash + " (store corrupt? run `litegraft verify`)"@,
            ),
        )
    }
}

/// Is `name` the name of a finished object?
pub open spec fn is_object_name() -> spec_fn(Seq<char>) -> bool {
    |name: Seq<char>| !ends(name, ".tmp"@)
}

/// The keys of the objects, in ascending order.
pub open spec fn object_list(s: StoreView) -> Seq<Seq<char>> {
    names_of(s.objects).filter(is_object_name())
}

/// Does `path` lead to a file of the directory that it starts from? It does not if it starts
/// at the root, leads up, or says that it is a directory.
pub open spec fn leads_to_file(path: Seq<char>) -> bool {
    !begins(path, '/') && !leads_up(path) && !ends(path, "/"@) && !says_directory(path)
}

/// What the file of snapshot `id` holds, if there is one. An id is a path below `snaps`.
pub open spec fn snap_file(s: StoreView, id: Seq<char>) -> Option<Seq<u8>> {
    if leads_to_file(id) && s.snaps.contains_key(path_key(id)) {
        Some(s.snaps[path_key(id)])
    } else {
        None
    }
}

/// Is there anything at the place of snapshot `id`? At that of the empty id lies the directory
/// of all of them. (What lies beside the snapshots and outside of the store is not seen.)
pub open spec fn has_snap(s: StoreView, id: Seq<char>) -> bool {
    leads_up(id) || snap_file(s, id) is Some
}

/// The manifest of snapshot `id`, or what is wrong with it.
pub open spec fn manifest_of(s: StoreView, id: Seq<char>) -> Result<ManifestView, ErrorView> {
    match snap_file(s, id) {
        None => Err(invalid_data("no snapshot "@ + id)),
        Some(bytes) => match as_text(bytes) {
            None => Err(invalid_data("no snapshot "@ + id)),
            Some(text) => manifest_in(text),
        },
    }
}

/// Why no manifest can be written under `id`, if none can.
pub open spec fn id_refusal(id: Seq<char>) -> Option<ErrorView> {
    if leads_to_file(id) && steps(id).len() == 1 {
        None
    } else {
        Some(refused("no snapshot can have the id "@ + quoted(id)))
    }
}

/// A snapshot whose id is a hash lies in the file of that name.
pub proof fn hash_is_its_path(s: StoreView, id: Seq<char>)
    requires
        is_hash(id),
    ensures
        path_key(id) == id,
        id_refusal(id) is None,
        has_snap(s, id) == s.snaps.contains_key(id),
        snap_file(s, id) == (if s.snaps.contains_key(id) {
            Some(s.snaps[id])
        } else {
            None
        }),
{
    reveal_strlit(".");
    reveal_strlit("..");
    reveal_strlit("/");
    reveal_strlit("/.");
    assert(is_hex(id[0]) && is_hex(id[62]) && is_hex(id[63]));
    if id.contains('/') {
        let i = choose|i: int| 0 <= i < id.len() && id[i] == '/';
        assert(is_hex(id[i]));
    }
    plain_name(s.refs, s.dirs, id);
    assert(steps(id)[0] == id);
    if ends(id, "/"@) {
        assert(id.skip(63)[0] == '/');
    }
    if says_directory(id) {
        assert(id.skip(62)[0] == '/');
    }
}

/// Is `name` the name of a finished snapshot?
pub open spec fn is_snapshot_name() -> spec_fn(Seq<char>) -> bool {
    |name: Seq<char>| byte_len(name) == 64 && !ends(name, ".tmp"@)
}

/// The ids of the snapshots, in ascending order.
pub open spec fn snapshot_list(s: StoreView) -> Seq<Seq<char>> {
    names_of(s.snaps).filter(is_snapshot_name())
}

/// What the text of `HEAD` means.
pub open spec fn head_in(text: Seq<char>) -> Result<HeadView, ErrorView> {
    match after_prefix(text, "ref: "@) {
        Some(branch) => Ok(HeadView::Branch(branch)),
        None => match after_prefix(text, "snap: "@) {
            Some(id) => Ok(HeadView::Detached(id)),
            None => Err(invalid_data("unparseable HEAD: "@ + quoted(text))),
        },
    }
}

/// Where HEAD points.
pub open spec fn head_of(s: StoreView) -> Result<HeadView, ErrorView> {
    match s.head {
        None => Err(invalid_data("store has no HEAD"@)),
        Some(bytes) => match as_text(bytes) {
            None => Err(not_text()),
            Some(text) => head_in(trimmed(text)),
        },
    }
}

/// What `HEAD` holds when it points to `head`.
pub open spec fn head_text(head: HeadView) -> Seq<char> {
    match head {
        HeadView::Branch(b) => "ref: "@ + b + "\n"@,
        HeadView::Detached(id) => "snap: "@ + id + "\n"@,
    }
}

/// What is said of a branch that is a directory.
pub open spec fn directory_refusal(name: Seq<char>) -> ErrorView {
    refused("branch "@ + quoted(name) + " is a directory"@)
}

/// What is said of a branch below a branch.
pub open spec fn blocked_refusal(name: Seq<char>) -> ErrorView {
    refused("branch "@ + quoted(name) + " lies below another branch"@)
}

/// The id in the file of branch `name`; `None` if there is no such file.
pub open spec fn ref_of(s: StoreView, name: Seq<char>) -> Result<Option<Seq<char>>, ErrorView> {
    match place_of(s.refs, s.dirs, name) {
        Place::Nothing => Ok(None),
        Place::Directory => Err(directory_refusal(name)),
        Place::Blocked => Err(blocked_refusal(name)),
        Place::File => match as_text(s.refs[path_key(name)]) {
            None => Err(not_text()),
            Some(text) => Ok(Some(trimmed(text))),
        },
    }
}

/// The head snapshot of a branch; `None` if the branch has none yet.
pub open spec fn branch_head_of(s: StoreView, name: Seq<char>) -> Result<
    Option<Seq<char>>,
    ErrorView,
> {
    match name_refusal(name) {
        Some(e) => Err(e),
        None => ref_of(s, name),
    }
}

/// Is there a branch `name`, or a directory of branches?
pub open spec fn has_branch(s: StoreView, name: Seq<char>) -> bool {
    name_refusal(name) is None && (place_of(s.refs, s.dirs, name) == Place::File || place_of(s.refs, s.dirs, name)
        == Place::Directory)
}

/// Why no head can be written for branch `name`, if none can: it is no branch name, there is a
/// directory at its place or a file above it, or it says itself that it is a directory.
pub open spec fn branch_refusal(s: StoreView, name: Seq<char>) -> Option<ErrorView> {
    if name_refusal(name) is Some {
        name_refusal(name)
    } else {
        match place_of(s.refs, s.dirs, name) {
            Place::Directory => Some(directory_refusal(name)),
            Place::Blocked => Some(blocked_refusal(name)),
            _ => if says_directory(name) {
                Some(refused("branch "@ + quoted(name) + " names a directory"@))
            } else {
                None
            },
        }
    }
}

/// The ids that start with `prefix`.
pub open spec fn matching(ids: Seq<Seq<char>>, prefix: Seq<char>) -> Seq<Seq<char>> {
    ids.filter(|id: Seq<char>| starts(id, prefix))
}

/// What is said of a reference that leads nowhere.
pub open spec fn unknown_ref(name: Seq<char>) -> ErrorView {
    invalid_data(
        "unknown ref "@ + quoted(name) + " (not a branch, snapshot id, or unique prefix)"@,
    )
}

/// The snapshot whose id is `name`, or the only one whose id starts with it.
pub open spec fn by_id(s: StoreView, name: Seq<char>) -> Result<Seq<char>, ErrorView> {
    let found = matching(snapshot_list(s), name);
    if byte_len(name) == 64 && has_snap(s, name) {
        Ok(name)
    } else if byte_len(name) >= 4 && all_hex(name) && found.len() == 1 {
        Ok(found[0])
    } else if byte_len(name) >= 4 && all_hex(name) && found.len() > 1 {
        Err(
            invalid_data(
                "ambiguous ref "@ + quoted(name) + " ("@ + dec(found.len())
                    + " snapshots match)"@,
            ),
        )
    } else {
        Err(unknown_ref(name))
    }
}

/// What a user's reference resolves to: the head of the branch of that name, the snapshot of
/// that id, or the only snapshot whose id starts with it (four digits at least).
pub open spec fn resolved(s: StoreView, name: Seq<char>) -> Result<Seq<char>, ErrorView> {
    if name_refusal(name) is Some {
        by_id(s, name)
    } else {
        match ref_of(s, name) {
            Err(e) => Err(e),
            Ok(Some(id)) => Ok(id),
            Ok(None) => by_id(s, name),
        }
    }
}

/// The branches and their heads, by name; an error if one of them cannot be read.
pub open spec fn branches_from(s: StoreView, names: Seq<Seq<char>>) -> Result<
    Seq<(Seq<char>, Seq<char>)>,
    ErrorView,
>
    decreases names.len(),
{
    if names.len() == 0 {
        Ok(Seq::empty())
    } else {
        match branches_from(s, names.drop_last()) {
            Err(e) => Err(e),
            Ok(before) => match as_text(s.refs[names.last()]) {
                None => Err(not_text()),
                Some(text) => Ok(before.push((names.last(), trimmed(text)))),
            },
        }
    }
}

/// The branches and their heads, by name.
pub open spec fn branch_list(s: StoreView) -> Result<Seq<(Seq<char>, Seq<char>)>, ErrorView> {
    branches_from(s, names_of(s.refs))
}

/// The views of a list of pairs of strings.
pub open spec fn pair_views(pairs: Seq<(String, String)>) -> Seq<(Seq<char>, Seq<char>)> {
    Seq::new(pairs.len(), |i: int| (pairs[i].0@, pairs[i].1@))
}

// ---------------------------------------------------------------------------------------
// Writing a store
// ---------------------------------------------------------------------------------------
/// Is there an object under `hash` that has this hash? One that has another was damaged.
pub open spec fn has_sound_object(s: StoreView, hash: Seq<char>) -> bool {
    s.objects.contains_key(hash) && hex_sha256(s.objects[hash]) == hash
}

/// The store after page bytes were written under their hash: a sound object stays as it is, a
/// damaged one is replaced.
pub open spec fn with_object(s: StoreView, hash: Seq<char>, bytes: Seq<u8>) -> StoreView {
    if has_sound_object(s, hash) {
        s
    } else {
        StoreView { objects: s.objects.insert(hash, bytes), ..s }
    }
}

/// The store after the object under `hash` was removed.
pub open spec fn without_object(s: StoreView, hash: Seq<char>) -> StoreView {
    StoreView { objects: s.objects.remove(hash), ..s }
}

/// The store after a manifest was written under its id.
pub open spec fn with_manifest(s: StoreView, m: ManifestView) -> StoreView {
    StoreView { snaps: s.snaps.insert(path_key(m.id), encode_utf8(manifest_text(m))), ..s }
}

/// The store after HEAD was pointed to `head`.
pub open spec fn with_head(s: StoreView, head: HeadView) -> StoreView {
    StoreView { head: Some(encode_utf8(head_text(head))), ..s }
}

/// The store after `id` was made the head snapshot of branch `name`.
pub open spec fn with_branch(s: StoreView, name: Seq<char>, id: Seq<char>) -> StoreView {
    StoreView { refs: s.refs.insert(path_key(name), encode_utf8(id + "\n"@)), ..s }
}

/// The store after branch `name` was not written: its directory is made before it turns out
/// that the name is one of a directory itself.
pub open spec fn without_branch(s: StoreView, name: Seq<char>) -> StoreView {
    if name_refusal(name) is None && place_of(s.refs, s.dirs, name) == Place::Nothing
        && says_directory(name) && parent_key(name) is Some {
        StoreView { dirs: s.dirs.insert(parent_key(name).unwrap()), ..s }
    } else {
        s
    }
}

// ---------------------------------------------------------------------------------------
// The store
// ---------------------------------------------------------------------------------------
/// A store with nothing in it, on the branch `main`.
pub open spec fn fresh_store(dir: Seq<char>) -> StoreView {
    StoreView {
        dir,
        head: Some(encode_utf8(head_text(HeadView::Branch("main"@)))),
        objects: FileMap::empty(),
        snaps: FileMap::empty(),
        refs: FileMap::empty(),
        dirs: Set::empty(),
    }
}

/// Why the store at `dir` with this format marker cannot be opened, if it cannot.
pub open spec fn marker_refusal(dir: Seq<char>, marker: Option<Seq<u8>>) -> Option<ErrorView> {
    if marker is None || as_text(marker.unwrap()) is None {
        Some(
            invalid_data(
                "no litegraft store at "@ + dir + " (run `litegraft init` first)"@,
            ),
        )
    } else if as_text(marker.unwrap()) != Some("litegraft store 1\n"@) {
        Some(invalid_data("unrecognized store format at "@ + dir))
    } else {
        None
    }
}

/// What a file holds, if there is such a file.
pub open spec fn content_of(file: Option<&Vec<u8>>) -> Option<Seq<u8>> {
    match file {
        None => None,
        Some(b) => Some(b@),
    }
}

/// The format marker of a store.
pub fn marker_text() -> (s: &'static str)
    ensures
        s@ == "litegraft store 1\n"@,
{
    "litegraft store 1\n"
}

/// Can the store at `dir`, whose marker file holds `marker`, be opened?
pub fn check_marker(dir: &str, marker: Option<&Vec<u8>>) -> (r: Result<(), Error>)
    ensures
        match r {
            Ok(()) => marker_refusal(dir@, content_of(marker)) is None,
            Err(e) => marker_refusal(dir@, content_of(marker)) == Some(e@),
        },
{
    let text = match marker {
        None => None,
        Some(b) => text_from_utf8(b.as_slice()),
    };
    match text {
        None => {
            let mut m = "no litegraft store at ".to_string();
            m.push_str(dir);
            m.push_str(" (run `litegraft init` first)");
            Err(Error::invalid_data(m))
        },
        Some(t) => {
            if !same_text(t.as_str(), marker_text()) {
                let mut m = "unrecognized store format at ".to_string();
                m.push_str(dir);
                Err(Error::invalid_data(m))
            } else {
                Ok(())
            }
        },
    }
}

impl Store {
    /// The files of each directory are in order.
    pub open spec fn wf(&self) -> bool {
        self.objects.wf() && self.snaps.wf() && self.refs.wf()
    }

    /// Makes a fresh store at `dir`, unless there is one already (`exists`).
    pub fn init(dir: &str, exists: bool) -> (r: Result<Store, Error>)
        ensures
            match r {
                Ok(s) => !exists && s.wf() && s@ == fresh_store(dir@),
                Err(e) => exists && e@ == invalid_data("store already initialized at "@ + dir@),
            },
    {
        if exists {
            let mut m = "store already initialized at ".to_string();
            m.push_str(dir);
            return Err(Error::invalid_data(m));
        }
        let mut s = Store {
            dir: dir.to_string(),
            head_file: None,
            objects: Files::new(),
            snaps: Files::new(),
            refs: Files::new(),
            dirs: Vec::new(),
        };
        assert(dirs_in(s.dirs@) =~= Set::empty());
        s.set_head(&Head::Branch("main".to_string()));
        Ok(s)
    }

    /// Opens the store at `dir` that holds these files. `marker` is the content of the marker
    /// file, if there is one.
    pub fn open(
        dir: &str,
        marker: Option<&Vec<u8>>,
        head_file: Option<Vec<u8>>,
        objects: Files,
        snaps: Files,
        refs: Files,
        dirs: Vec<String>,
    ) -> (r: Result<Store, Error>)
        requires
            objects.wf(),
            snaps.wf(),
            refs.wf(),
        ensures
            match r {
                Ok(s) => marker_refusal(dir@, content_of(marker)) is None && s.wf() && s@ == (
                StoreView {
                    dir: dir@,
                    head: match head_file {
                        None => None,
                        Some(b) => Some(b@),
                    },
                    objects: objects@,
                    snaps: snaps@,
                    refs: refs@,
                    dirs: dirs_in(dirs@),
                }),
                Err(e) => marker_refusal(dir@, content_of(marker)) == Some(e@),
            },
    {
        match check_marker(dir, marker) {
            Err(e) => Err(e),
            Ok(()) => Ok(Store { dir: dir.to_string(), head_file, objects, snaps, refs, dirs }),
        }
    }

    // ---- paths ----
    /// The path of the object under `hash`.
    pub fn object_path(&self, hash: &str) -> (r: Option<String>)
        ensures
            match r {
                Some(path) => object_place(self@.dir, hash@) == Some(path@),
                None => object_place(self@.dir, hash@) is None,
            },
    {
        let shard = first_bytes(hash, 2);
        if shard.as_str().as_bytes().len() != 2 {
            return None;
        }
        proof {
            fitting_is_prefix(hash@, 2);
        }
        let n: usize = chars_of(shard.as_str()).len();
        let v = chars_of(hash);
        let rest = string_of(&v, n, v.len());
        assert(rest@ =~= hash@.skip(n as int));
        let mut path = self.dir.clone();
        path.push_str("/objects/");
        path.push_str(shard.as_str());
        path.push_str("/");
        path.push_str(rest.as_str());
        Some(path)
    }

    /// The path of the manifest of snapshot `id`.
    pub fn snap_path(&self, id: &str) -> (path: String)
        ensures
            path@ == snap_place(self@.dir, id@),
    {
        let mut path = self.dir.clone();
        path.push_str("/snaps/");
        path.push_str(id);
        path
    }

    /// The path of the head of branch `name`.
    pub fn branch_path(&self, name: &str) -> (r: Result<String, Error>)
        ensures
            match r {
                Ok(path) => name_refusal(name@) is None && path@ == branch_place(self@.dir, name@),
                Err(e) => name_refusal(name@) == Some(e@),
            },
    {
        if let Err(e) = validate_branch_name(name) {
            return Err(e);
        }
        let mut path = self.dir.clone();
        path.push_str("/refs/heads/");
        path.push_str(name);
        Ok(path)
    }

    // ---- objects ----
    /// Is there an object under `hash`?
    pub fn has_object(&self, hash: &str) -> (r: bool)
        requires
            self.wf(),
        ensures
            r == self@.objects.contains_key(hash@),
    {
        self.objects.contains(hash)
    }

    /// Stores page bytes under their hash, unless they are stored there already. An object
    /// that does not have the hash it is stored under was damaged, and is replaced. Says
    /// whether anything was written.
    pub fn write_object(&mut self, hash: &str, bytes: &[u8]) -> (new: bool)
        requires
            old(self).wf(),
        ensures
            final(self).wf(),
            new == !has_sound_object(old(self)@, hash@),
            final(self)@ == with_object(old(self)@, hash@, bytes@),
    {
        if let Some(there) = self.objects.get(hash) {
            if same_text(page_hash(there.as_slice()).as_str(), hash) {
                return false;
            }
        }
        self.objects.put(hash, slice_to_vec(bytes));
        true
    }

    /// The object under `hash`.
    pub fn read_object(&self, hash: &str) -> (r: Result<Vec<u8>, Error>)
        requires
            self.wf(),
        ensures
            match r {
                Ok(b) => object_of(self@, hash@) == Ok::<Seq<u8>, ErrorView>(b@),
                Err(e) => object_of(self@, hash@) == Err::<Seq<u8>, ErrorView>(e@),
            },
    {
        match self.objects.get(hash) {
            Some(b) => Ok(slice_to_vec(b.as_slice())),
            None => {
                let mut m = "missing object ".to_string();
                m.push_str(hash);
                m.push_str(" (store corrupt? run `litegraft verify`)");
                Err(Error::invalid_data(m))
            },
        }
    }

    /// The keys of all objects, in ascending order.
    pub fn list_objects(&self) -> (r: Vec<String>)
        requires
            self.wf(),
        ensures
            texts(r@) == object_list(self@),
    {
        let mut r: Vec<String> = Vec::new();
        let ghost keys = self.objects.keys();
        proof {
            files_listed(&self.objects);
            reveal(Seq::filter);
        }
        let mut i: usize = 0;
        assert(texts(r@) =~= keys.take(0).filter(is_object_name()));
        while i < self.objects.names.len()
            invariant
                keys == self.objects.keys(),
                i <= keys.len(),
                texts(r@) == keys.take(i as int).filter(is_object_name()),
            decreases keys.len() - i,
        {
            let ghost before = texts(r@);
            proof {
                reveal(Seq::filter);
                assert(keys.take(i + 1).drop_last() =~= keys.take(i as int));
            }
            if !ends_with(self.objects.names[i].as_str(), ".tmp") {
                r.push(self.objects.names[i].clone());
                assert(texts(r@) =~= before.push(keys[i as int]));
            }
            i = i + 1;
        }
        assert(keys.take(i as int) =~= keys);
        r
    }

    /// Removes the object under `hash`, and says whether there was one.
    pub fn remove_object(&mut self, hash: &str) -> (r: bool)
        requires
            old(self).wf(),
        ensures
            final(self).wf(),
            r == old(self)@.objects.contains_key(hash@),
            final(self)@ == without_object(old(self)@, hash@),
    {
        self.objects.remove(hash)
    }

    // ---- manifests ----
    /// What the file of snapshot `id` holds, if there is one.
    fn snapshot_file(&self, id: &str) -> (r: Option<&Vec<u8>>)
        requires
            self.wf(),
        ensures
            content_of(r) == snap_file(self@, id@),
    {
        if path_leads_to_file(id) {
            self.snaps.get(key_of_path(id).as_str())
        } else {
            None
        }
    }

    /// Is there anything at the place of snapshot `id`?
    pub fn has_snapshot(&self, id: &str) -> (r: bool)
        requires
            self.wf(),
        ensures
            r == has_snap(self@, id@),
    {
        path_leads_up(id) || self.snapshot_file(id).is_some()
    }

    /// Writes a manifest under its id.
    pub fn write_manifest(&mut self, m: &Manifest) -> (r: Result<(), Error>)
        requires
            old(self).wf(),
        ensures
            final(self).wf(),
            match r {
                Ok(()) => id_refusal(m.id@) is None && final(self)@ == with_manifest(
                    old(self)@,
                    m@,
                ),
                Err(e) => id_refusal(m.id@) == Some(e@) && final(self)@ == old(self)@,
            },
    {
        let id = m.id.as_str();
        if !path_leads_to_file(id) || count_steps(id) != 1 {
            let mut m = "no snapshot can have the id ".to_string();
            m.push_str(quote(id).as_str());
            return Err(Error::refused(m));
        }
        let text = render_manifest(m);
        self.snaps.put(key_of_path(id).as_str(), bytes_of(text.as_str()));
        Ok(())
    }

    /// Reads the manifest of snapshot `id`.
    pub fn read_manifest(&self, id: &str) -> (r: Result<Manifest, Error>)
        requires
            self.wf(),
        ensures
            match r {
                Ok(m) => manifest_of(self@, id@) == Ok::<ManifestView, ErrorView>(m@),
                Err(e) => manifest_of(self@, id@) == Err::<ManifestView, ErrorView>(e@),
            },
    {
        if let Some(bytes) = self.snapshot_file(id) {
            if let Some(text) = text_from_utf8(bytes.as_slice()) {
                return parse_manifest(text.as_str());
            }
        }
        let mut m = "no snapshot ".to_string();
        m.push_str(id);
        Err(Error::invalid_data(m))
    }

    /// The ids of all snapshots, in ascending order.
    pub fn list_snapshots(&self) -> (r: Vec<String>)
        requires
            self.wf(),
        ensures
            texts(r@) == snapshot_list(self@),
    {
        let mut r: Vec<String> = Vec::new();
        let ghost keys = self.snaps.keys();
        proof {
            files_listed(&self.snaps);
            reveal(Seq::filter);
        }
        let mut i: usize = 0;
        assert(texts(r@) =~= keys.take(0).filter(is_snapshot_name()));
        while i < self.snaps.names.len()
            invariant
                keys == self.snaps.keys(),
                i <= keys.len(),
                texts(r@) == keys.take(i as int).filter(is_snapshot_name()),
            decreases keys.len() - i,
        {
            let ghost before = texts(r@);
            proof {
                reveal(Seq::filter);
                assert(keys.take(i + 1).drop_last() =~= keys.take(i as int));
            }
            let name = self.snaps.names[i].as_str();
            if name.as_bytes().len() == 64 && !ends_with(name, ".tmp") {
                r.push(self.snaps.names[i].clone());
                assert(texts(r@) =~= before.push(keys[i as int]));
            }
            i = i + 1;
        }
        assert(keys.take(i as int) =~= keys);
        r
    }

    // ---- refs and HEAD ----
    /// Where HEAD points.
    pub fn head(&self) -> (r: Result<Head, Error>)
        ensures
            match r {
                Ok(h) => head_of(self@) == Ok::<HeadView, ErrorView>(h@),
                Err(e) => head_of(self@) == Err::<HeadView, ErrorView>(e@),
            },
    {
        let text = match &self.head_file {
            None => {
                return Err(Error::invalid_data("store has no HEAD".to_string()));
            },
            Some(bytes) => match text_from_utf8(bytes.as_slice()) {
                None => {
                    return Err(not_text_error());
                },
                Some(t) => trim_right(t.as_str()),
            },
        };
        if let Some(branch) = strip(text.as_str(), "ref: ") {
            Ok(Head::Branch(branch))
        } else if let Some(id) = strip(text.as_str(), "snap: ") {
            Ok(Head::Detached(id))
        } else {
            let mut m = "unparseable HEAD: ".to_string();
            m.push_str(quote(text.as_str()).as_str());
            Err(Error::invalid_data(m))
        }
    }

    /// Points HEAD to `head`.
    pub fn set_head(&mut self, head: &Head)
        ensures
            final(self)@ == with_head(old(self)@, head@),
            final(self).wf() == old(self).wf(),
    {
        let mut t = match head {
            Head::Branch(b) => {
                let mut t = "ref: ".to_string();
                t.push_str(b.as_str());
                t
            },
            Head::Detached(id) => {
                let mut t = "snap: ".to_string();
                t.push_str(id.as_str());
                t
            },
        };
        t.push_str("\n");
        self.head_file = Some(bytes_of(t.as_str()));
    }

    /// The head snapshot of a branch; `None` if the branch has none yet.
    pub fn branch_head(&self, name: &str) -> (r: Result<Option<String>, Error>)
        requires
            self.wf(),
        ensures
            match r {
                Ok(None) => branch_head_of(self@, name@) == Ok::<Option<Seq<char>>, ErrorView>(
                    None,
                ),
                Ok(Some(id)) => branch_head_of(self@, name@) == Ok::<
                    Option<Seq<char>>,
                    ErrorView,
                >(Some(id@)),
                Err(e) => branch_head_of(self@, name@) == Err::<Option<Seq<char>>, ErrorView>(e@),
            },
    {
        if let Err(e) = validate_branch_name(name) {
            return Err(e);
        }
        match find_place(&self.refs, &self.dirs, name) {
            Place::Nothing => Ok(None),
            Place::Directory => Err(directory_error(name)),
            Place::Blocked => Err(blocked_error(name)),
            Place::File => match self.refs.get(key_of_path(name).as_str()) {
                None => Ok(None),
                Some(bytes) => match text_from_utf8(bytes.as_slice()) {
                    None => Err(not_text_error()),
                    Some(t) => Ok(Some(trim_right(t.as_str()))),
                },
            },
        }
    }

    /// Can a head be written for branch `name`?
    fn check_branch(&self, name: &str) -> (r: Result<(), Error>)
        requires
            self.wf(),
        ensures
            match r {
                Ok(()) => branch_refusal(self@, name@) is None,
                Err(e) => branch_refusal(self@, name@) == Some(e@),
            },
    {
        if let Err(e) = validate_branch_name(name) {
            return Err(e);
        }
        match find_place(&self.refs, &self.dirs, name) {
            Place::Directory => Err(directory_error(name)),
            Place::Blocked => Err(blocked_error(name)),
            _ => {
                if ends_with(name, "/.") {
                    let mut m = "branch ".to_string();
                    m.push_str(quote(name).as_str());
                    m.push_str(" names a directory");
                    Err(Error::refused(m))
                } else {
                    Ok(())
                }
            },
        }
    }

    /// Makes the directory of branch `name`, which cannot be written, where nothing lies.
    fn make_directory(&mut self, name: &str)
        requires
            old(self).wf(),
        ensures
            final(self).wf(),
            final(self)@ == without_branch(old(self)@, name@),
    {
        if validate_branch_name(name).is_err() || !ends_with(name, "/.") {
            return;
        }
        if let Place::Nothing = find_place(&self.refs, &self.dirs, name) {
            if let Some(key) = parent_of_path(name) {
                add_directory(&mut self.dirs, key);
            }
        }
    }

    /// Makes `id` the head snapshot of branch `name`. Where it cannot, a directory may be left.
    pub fn set_branch(&mut self, name: &str, id: &str) -> (r: Result<(), Error>)
        requires
            old(self).wf(),
        ensures
            final(self).wf(),
            match r {
                Ok(()) => branch_refusal(old(self)@, name@) is None && final(self)@ == with_branch(
                    old(self)@,
                    name@,
                    id@,
                ),
                Err(e) => branch_refusal(old(self)@, name@) == Some(e@) && final(self)@
                    == without_branch(old(self)@, name@),
            },
    {
        if let Err(e) = self.check_branch(name) {
            self.make_directory(name);
            return Err(e);
        }
        let mut t = id.to_string();
        t.push_str("\n");
        self.refs.put(key_of_path(name).as_str(), bytes_of(t.as_str()));
        Ok(())
    }

    /// Is there a branch `name`, or a directory of branches?
    pub fn branch_exists(&self, name: &str) -> (r: bool)
        requires
            self.wf(),
        ensures
            r == has_branch(self@, name@),
    {
        match validate_branch_name(name) {
            Ok(()) => match find_place(&self.refs, &self.dirs, name) {
                Place::File => true,
                Place::Directory => true,
                _ => false,
            },
            Err(_) => false,
        }
    }

    /// The branches and their heads, by name.
    pub fn list_branches(&self) -> (r: Result<Vec<(String, String)>, Error>)
        requires
            self.wf(),
        ensures
            match r {
                Ok(list) => branch_list(self@) == Ok::<Seq<(Seq<char>, Seq<char>)>, ErrorView>(
                    pair_views(list@),
                ),
                Err(e) => branch_list(self@) == Err::<Seq<(Seq<char>, Seq<char>)>, ErrorView>(e@),
            },
    {
        let mut list: Vec<(String, String)> = Vec::new();
        let ghost keys = self.refs.keys();
        proof {
            files_listed(&self.refs);
        }
        let mut i: usize = 0;
        assert(pair_views(list@) =~= Seq::empty());
        while i < self.refs.names.len()
            invariant
                self.wf(),
                keys == self.refs.keys(),
                keys == names_of(self@.refs),
                i <= keys.len(),
                branches_from(self@, keys.take(i as int)) == Ok::<
                    Seq<(Seq<char>, Seq<char>)>,
                    ErrorView,
                >(pair_views(list@)),
            decreases keys.len() - i,
        {
            let ghost before = pair_views(list@);
            proof {
                assert(keys.take(i + 1).drop_last() =~= keys.take(i as int));
                file_at(&self.refs, i as int);
            }
            let name = self.refs.names[i].clone();
            match text_from_utf8(self.refs.contents[i].as_slice()) {
                None => {
                    proof {
                        branches_fail(self@, keys, i + 1);
                    }
                    return Err(not_text_error());
                },
                Some(t) => {
                    let id = trim_right(t.as_str());
                    let ghost pair = (name@, id@);
                    list.push((name, id));
                    assert(pair_views(list@) =~= before.push(pair));
                },
            }
            i = i + 1;
        }
        assert(keys.take(i as int) =~= keys);
        Ok(list)
    }

    /// What a user's reference resolves to: a branch name, a snapshot id, or a prefix of at
    /// least four digits that only one id has.
    pub fn resolve(&self, refname: &str) -> (r: Result<String, Error>)
        requires
            self.wf(),
        ensures
            match r {
                Ok(id) => resolved(self@, refname@) == Ok::<Seq<char>, ErrorView>(id@),
                Err(e) => resolved(self@, refname@) == Err::<Seq<char>, ErrorView>(e@),
            },
    {
        if validate_branch_name(refname).is_ok() {
            match self.branch_head(refname) {
                Err(e) => {
                    return Err(e);
                },
                Ok(Some(id)) => {
                    return Ok(id);
                },
                Ok(None) => {},
            }
        }
        let bytes: usize = refname.as_bytes().len();
        if bytes == 64 && self.has_snapshot(refname) {
            return Ok(refname.to_string());
        }
        if bytes >= 4 && is_all_hex(refname) {
            let ids = self.list_snapshots();
            let found = with_prefix(&ids, refname);
            if found.len() == 1 {
                return Ok(found[0].clone());
            }
            if found.len() > 1 {
                let mut m = "ambiguous ref ".to_string();
                m.push_str(quote(refname).as_str());
                m.push_str(" (");
                m.push_str(decimal(found.len() as u64).as_str());
                m.push_str(" snapshots match)");
                return Err(Error::invalid_data(m));
            }
        }
        let mut m = "unknown ref ".to_string();
        m.push_str(quote(refname).as_str());
        m.push_str(" (not a branch, snapshot id, or unique prefix)");
        Err(Error::invalid_data(m))
    }
}

fn path_leads_to_file(path: &str) -> (r: bool)
    ensures
        r == leads_to_file(path@),
{
    !begins_with(path, '/') && !path_leads_up(path) && !ends_with(path, "/") && !ends_with(
        path,
        "/.",
    )
}

fn directory_error(name: &str) -> (e: Error)
    ensures
        e@ == directory_refusal(name@),
{
    let mut m = "branch ".to_string();
    m.push_str(quote(name).as_str());
    m.push_str(" is a directory");
    Error::refused(m)
}

fn blocked_error(name: &str) -> (e: Error)
    ensures
        e@ == blocked_refusal(name@),
{
    let mut m = "branch ".to_string();
    m.push_str(quote(name).as_str());
    m.push_str(" lies below another branch");
    Error::refused(m)
}

fn not_text_error() -> (e: Error)
    ensures
        e@ == not_text(),
{
    Error::invalid_data("stream did not contain valid UTF-8".to_string())
}

proof fn branches_fail(s: StoreView, names: Seq<Seq<char>>, i: int)
    requires
        0 <= i <= names.len(),
        branches_from(s, names.take(i)) is Err,
    ensures
        branches_from(s, names) == branches_from(s, names.take(i)),
    decreases names.len() - i,
{
    if i < names.len() {
        assert(names.take(i + 1).drop_last() =~= names.take(i));
        branches_fail(s, names, i + 1);
    } else {
        assert(names.take(i) =~= names);
    }
}

fn with_prefix(ids: &Vec<String>, prefix: &str) -> (r: Vec<String>)
    ensures
        texts(r@) == matching(texts(ids@), prefix@),
{
    let mut r: Vec<String> = Vec::new();
    let ghost all = texts(ids@);
    let ghost pred = |id: Seq<char>| starts(id, prefix@);
    let mut i: usize = 0;
    proof {
        reveal(Seq::filter);
        assert(texts(r@) =~= all.take(0).filter(pred));
    }
    while i < ids.len()
        invariant
            all == texts(ids@),
            pred == (|id: Seq<char>| starts(id, prefix@)),
            i <= ids@.len(),
            texts(r@) == all.take(i as int).filter(pred),
        decreases ids@.len() - i,
    {
        let ghost before = texts(r@);
        proof {
            reveal(Seq::filter);
            assert(all.take(i + 1).drop_last() =~= all.take(i as int));
        }
        if starts_with(ids[i].as_str(), prefix) {
            r.push(ids[i].clone());
            assert(texts(r@) =~= before.push(all[i as int]));
        }
        i = i + 1;
    }
    assert(all.take(i as int) =~= all);
    r
}

} // verus!
