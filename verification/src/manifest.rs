//! Snapshot manifests: plain text, one fact per line, under an id that is the hash of the
//! database state they describe.

use vstd::prelude::*;
use vstd::utf8::encode_utf8;

use crate::error::invalid_data;
use crate::error::Error;
use crate::error::ErrorView;
use crate::numerals::number_upto;
use crate::numerals::parse_number;
use crate::sha256::hex_digest;
use crate::sha256::hex_sha256;
use crate::text::all_hex;
use crate::text::chars_of;
use crate::text::cut;
use crate::text::dec;
use crate::text::decimal;
use crate::text::is_all_hex;
use crate::text::lines;
use crate::text::quote;
use crate::text::quoted;
use crate::text::same_text;
use crate::text::split_at_first;
use crate::text::split_lines;
use crate::text::texts;

verus! {

/// A snapshot manifest.
#[derive(Debug, Clone, PartialEq, Eq)]
pub struct Manifest {
    pub id: String,
    pub parent: Option<String>,
    /// The branch on which the snapshot was first taken.
    pub branch: String,
    /// When it was taken, in seconds since 1970-01-01 UTC.
    pub created: u64,
    pub message: String,
    pub page_size: u32,
    /// The hash of each page, in page order.
    pub page_hashes: Vec<String>,
}

/// The mathematical value of a [`Manifest`].
#[verifier::ext_equal]
pub struct ManifestView {
    pub id: Seq<char>,
    pub parent: Option<Seq<char>>,
    pub branch: Seq<char>,
    pub created: u64,
    pub message: Seq<char>,
    pub page_size: u32,
    pub page_hashes: Seq<Seq<char>>,
}

/// The text of an optional string.
pub open spec fn opt_text(s: Option<String>) -> Option<Seq<char>> {
    match s {
        None => None,
        Some(s) => Some(s@),
    }
}

/// A copy of an optional string.
pub fn clone_text(s: &Option<String>) -> (r: Option<String>)
    ensures
        opt_text(r) == opt_text(*s),
{
    match s {
        None => None,
        Some(t) => Some(t.clone()),
    }
}

impl View for Manifest {
    type V = ManifestView;

    open spec fn view(&self) -> ManifestView {
        ManifestView {
            id: self.id@,
            parent: opt_text(self.parent),
            branch: self.branch@,
            created: self.created,
            message: self.message@,
            page_size: self.page_size,
            page_hashes: texts(self.page_hashes@),
        }
    }
}

impl Manifest {
    /// The number of pages of the snapshot, in 32 bits.
    pub fn page_count(&self) -> (n: u32)
        ensures
            n == self@.page_hashes.len() as u32,
    {
        self.page_hashes.len() as u32
    }
}

// ---------------------------------------------------------------------------------------
// Ids
// ---------------------------------------------------------------------------------------
/// The text made of `ls`, each followed by a line feed.
pub open spec fn unlines(ls: Seq<Seq<char>>) -> Seq<char>
    decreases ls.len(),
{
    if ls.len() == 0 {
        Seq::empty()
    } else {
        (unlines(ls.drop_last()) + ls.last()).push('\n')
    }
}

/// The lines that describe a database state: the page size and the page hashes.
pub open spec fn state_lines(page_size: u32, hashes: Seq<Seq<char>>) -> Seq<Seq<char>> {
    seq!["litegraft-state 1"@, dec(page_size as nat)] + hashes
}

/// What the id of a database state is computed from.
pub open spec fn state_text(page_size: u32, hashes: Seq<Seq<char>>) -> Seq<char> {
    unlines(state_lines(page_size, hashes))
}

/// The id of a database state.
pub open spec fn id_of(page_size: u32, hashes: Seq<Seq<char>>) -> Seq<char> {
    hex_sha256(encode_utf8(state_text(page_size, hashes)))
}

fn push_line(s: &mut String, line: &str, Ghost(ls): Ghost<Seq<Seq<char>>>)
    requires
        old(s)@ == unlines(ls),
    ensures
        final(s)@ == unlines(ls.push(line@)),
{
    s.push_str(line);
    s.push('\n');
    assert(ls.push(line@).drop_last() =~= ls);
}

fn push_lines(s: &mut String, more: &[String], Ghost(ls): Ghost<Seq<Seq<char>>>)
    requires
        old(s)@ == unlines(ls),
    ensures
        final(s)@ == unlines(ls + texts(more@)),
{
    let mut i: usize = 0;
    let ghost all = texts(more@);
    assert(ls + all.take(0) =~= ls);
    while i < more.len()
        invariant
            i <= more@.len(),
            all == texts(more@),
            s@ == unlines(ls + all.take(i as int)),
        decreases more@.len() - i,
    {
        push_line(s, more[i].as_str(), Ghost(ls + all.take(i as int)));
        assert((ls + all.take(i as int)).push(all[i as int]) =~= ls + all.take(i + 1));
        i = i + 1;
    }
    assert(all.take(i as int) =~= all);
}

/// The id of the database state with this page size and these page hashes.
pub fn state_id(page_size: u32, page_hashes: &[String]) -> (id: String)
    ensures
        id@ == id_of(page_size, texts(page_hashes@)),
{
    let mut s = String::new();
    let ghost none = Seq::<Seq<char>>::empty();
    assert(s@ =~= unlines(none));
    push_line(&mut s, "litegraft-state 1", Ghost(none));
    let size = decimal(page_size as u64);
    push_line(&mut s, size.as_str(), Ghost(none.push("litegraft-state 1"@)));
    let ghost head = none.push("litegraft-state 1"@).push(dec(page_size as nat));
    push_lines(&mut s, page_hashes, Ghost(head));
    assert(head =~= seq!["litegraft-state 1"@, dec(page_size as nat)]);
    hex_digest(s.as_str().as_bytes())
}

/// The key under which a page is stored: the hash of its bytes.
pub fn page_hash(bytes: &[u8]) -> (h: String)
    ensures
        h@ == hex_sha256(bytes@),
{
    hex_digest(bytes)
}

// ---------------------------------------------------------------------------------------
// Messages on one line
// ---------------------------------------------------------------------------------------
/// How one character of a message is written.
pub open spec fn escaped_char(c: char) -> Seq<char> {
    if c == '\\' {
        seq!['\\', '\\']
    } else if c == '\n' {
        seq!['\\', 'n']
    } else {
        seq![c]
    }
}

/// A message on one line: backslashes and line feeds escaped.
pub open spec fn escaped(s: Seq<char>) -> Seq<char>
    decreases s.len(),
{
    if s.len() == 0 {
        Seq::empty()
    } else {
        escaped_char(s.first()) + escaped(s.drop_first())
    }
}

/// The message that was written as `s`. A backslash before anything else stands for itself.
pub open spec fn unescaped(s: Seq<char>) -> Seq<char>
    decreases s.len(),
{
    if s.len() == 0 {
        Seq::empty()
    } else if s[0] != '\\' {
        seq![s[0]] + unescaped(s.skip(1))
    } else if s.len() == 1 {
        seq!['\\']
    } else if s[1] == 'n' {
        seq!['\n'] + unescaped(s.skip(2))
    } else if s[1] == '\\' {
        seq!['\\'] + unescaped(s.skip(2))
    } else {
        seq!['\\', s[1]] + unescaped(s.skip(2))
    }
}

/// Writes a message on one line.
pub fn escape_line(s: &str) -> (r: String)
    ensures
        r@ == escaped(s@),
{
    let v = chars_of(s);
    let mut r = String::new();
    let mut i: usize = 0;
    assert(r@ + escaped(s@.skip(0)) =~= escaped(s@)) by {
        assert(s@.skip(0) =~= s@);
    }
    while i < v.len()
        invariant
            v@ == s@,
            i <= v@.len(),
            r@ + escaped(s@.skip(i as int)) == escaped(s@),
        decreases v@.len() - i,
    {
        let c: char = v[i];
        let ghost before = r@;
        let ghost rest = s@.skip(i as int);
        if c == '\\' {
            r.push('\\');
            r.push('\\');
        } else if c == '\n' {
            r.push('\\');
            r.push('n');
        } else {
            r.push(c);
        }
        i = i + 1;
        proof {
            assert(rest.drop_first() =~= s@.skip(i as int));
            assert(r@ =~= before + escaped_char(c));
            assert(r@ + escaped(s@.skip(i as int)) =~= before + escaped(rest));
        }
    }
    assert(r@ + escaped(s@.skip(i as int)) =~= r@);
    r
}

/// Reads back a message that was written on one line.
pub fn unescape_line(s: &str) -> (r: String)
    ensures
        r@ == unescaped(s@),
{
    let v = chars_of(s);
    let mut r = String::new();
    let mut i: usize = 0;
    assert(r@ + unescaped(s@.skip(0)) =~= unescaped(s@)) by {
        assert(s@.skip(0) =~= s@);
    }
    while i < v.len()
        invariant
            v@ == s@,
            i <= v@.len(),
            r@ + unescaped(s@.skip(i as int)) == unescaped(s@),
        decreases v@.len() - i,
    {
        let ghost before = r@;
        let ghost rest = s@.skip(i as int);
        let c: char = v[i];
        if c != '\\' {
            r.push(c);
            i = i + 1;
            assert(rest.skip(1) =~= s@.skip(i as int));
        } else if i + 1 >= v.len() {
            r.push('\\');
            i = i + 1;
            assert(unescaped(s@.skip(i as int)) =~= Seq::<char>::empty());
        } else {
            let d: char = v[i + 1];
            if d == 'n' {
                r.push('\n');
            } else if d == '\\' {
                r.push('\\');
            } else {
                r.push('\\');
                r.push(d);
            }
            i = i + 2;
            assert(rest.skip(2) =~= s@.skip(i as int));
        }
        assert(r@ + unescaped(s@.skip(i as int)) =~= before + unescaped(rest));
    }
    assert(r@ + unescaped(s@.skip(i as int)) =~= r@);
    r
}

/// A message reads back as it was written.
pub proof fn escape_round_trip(s: Seq<char>)
    ensures
        unescaped(escaped(s)) == s,
    decreases s.len(),
{
    if s.len() > 0 {
        escape_round_trip(s.drop_first());
        let e = escaped(s);
        let rest = escaped(s.drop_first());
        if s.first() == '\\' || s.first() == '\n' {
            assert(e.skip(2) =~= rest);
        } else {
            assert(e.skip(1) =~= rest);
        }
        assert(unescaped(e) =~= seq![s.first()] + s.drop_first());
        assert(seq![s.first()] + s.drop_first() =~= s);
    } else {
        assert(unescaped(escaped(s)) =~= s);
    }
}

/// A message never takes more than one line.
pub proof fn escaped_is_one_line(s: Seq<char>)
    ensures
        !escaped(s).contains('\n'),
    decreases s.len(),
{
    if s.len() > 0 {
        escaped_is_one_line(s.drop_first());
        let e = escaped(s);
        let head = escaped_char(s.first());
        let rest = escaped(s.drop_first());
        assert forall|i: int| 0 <= i < e.len() implies e[i] != '\n' by {
            if i >= head.len() {
                assert(rest.contains(rest[i - head.len()]));
            }
        }
    }
}

// ---------------------------------------------------------------------------------------
// Writing
// ---------------------------------------------------------------------------------------
/// How a parent is written.
pub open spec fn parent_text(parent: Option<Seq<char>>) -> Seq<char> {
    match parent {
        None => "-"@,
        Some(id) => id,
    }
}

/// The lines of a manifest before the page hashes.
pub open spec fn manifest_head(m: ManifestView) -> Seq<Seq<char>> {
    seq![
        "litegraft snapshot 1"@,
        "id "@ + m.id,
        "parent "@ + parent_text(m.parent),
        "branch "@ + m.branch,
        "created "@ + dec(m.created as nat),
        "message "@ + escaped(m.message),
        "pagesize "@ + dec(m.page_size as nat),
        "pages "@ + dec(m.page_hashes.len()),
        "--"@,
    ]
}

/// A manifest as text.
pub open spec fn manifest_text(m: ManifestView) -> Seq<char> {
    unlines(manifest_head(m) + m.page_hashes)
}

fn push_field(s: &mut String, key: &str, value: &str, Ghost(ls): Ghost<Seq<Seq<char>>>)
    requires
        old(s)@ == unlines(ls),
    ensures
        final(s)@ == unlines(ls.push(key@ + value@)),
{
    let mut line = key.to_string();
    line.push_str(value);
    push_line(s, line.as_str(), Ghost(ls));
}

/// Writes a manifest as text.
pub fn render_manifest(m: &Manifest) -> (s: String)
    ensures
        s@ == manifest_text(m@),
{
    let mut s = String::new();
    let ghost none = Seq::<Seq<char>>::empty();
    assert(s@ =~= unlines(none));
    let ghost v = m@;
    let ghost all = manifest_head(v);
    push_line(&mut s, "litegraft snapshot 1", Ghost(none));
    assert(none.push("litegraft snapshot 1"@) =~= all.take(1));
    push_field(&mut s, "id ", m.id.as_str(), Ghost(all.take(1)));
    assert(all.take(1).push("id "@ + v.id) =~= all.take(2));
    match &m.parent {
        None => {
            push_field(&mut s, "parent ", "-", Ghost(all.take(2)));
        },
        Some(id) => {
            push_field(&mut s, "parent ", id.as_str(), Ghost(all.take(2)));
        },
    }
    assert(all.take(2).push("parent "@ + parent_text(v.parent)) =~= all.take(3));
    push_field(&mut s, "branch ", m.branch.as_str(), Ghost(all.take(3)));
    assert(all.take(3).push("branch "@ + v.branch) =~= all.take(4));
    push_field(&mut s, "created ", decimal(m.created).as_str(), Ghost(all.take(4)));
    assert(all.take(4).push("created "@ + dec(v.created as nat)) =~= all.take(5));
    push_field(&mut s, "message ", escape_line(m.message.as_str()).as_str(), Ghost(all.take(5)));
    assert(all.take(5).push("message "@ + escaped(v.message)) =~= all.take(6));
    push_field(&mut s, "pagesize ", decimal(m.page_size as u64).as_str(), Ghost(all.take(6)));
    assert(all.take(6).push("pagesize "@ + dec(v.page_size as nat)) =~= all.take(7));
    push_field(
        &mut s,
        "pages ",
        decimal(m.page_hashes.len() as u64).as_str(),
        Ghost(all.take(7)),
    );
    assert(all.take(7).push("pages "@ + dec(v.page_hashes.len())) =~= all.take(8));
    push_line(&mut s, "--", Ghost(all.take(8)));
    assert(all.take(8).push("--"@) =~= all);
    push_lines(&mut s, m.page_hashes.as_slice(), Ghost(all));
    s
}

// ---------------------------------------------------------------------------------------
// Reading
// ---------------------------------------------------------------------------------------
/// The fields on the lines from line `i` up to the separator, added to `fields`, and where
/// the page hashes start.
pub open spec fn fields_from(
    ls: Seq<Seq<char>>,
    i: nat,
    fields: Seq<(Seq<char>, Seq<char>)>,
) -> Result<(Seq<(Seq<char>, Seq<char>)>, nat), ErrorView>
    decreases ls.len() - i,
{
    if i >= ls.len() {
        Ok((fields, i))
    } else if ls[i as int] == "--"@ {
        Ok((fields, i + 1))
    } else {
        match cut(ls[i as int], ' ') {
            None => Err(invalid_data("bad manifest line "@ + quoted(ls[i as int]))),
            Some(f) => fields_from(ls, i + 1, fields.push(f)),
        }
    }
}

/// The value of the last field under `key`.
pub open spec fn field(fields: Seq<(Seq<char>, Seq<char>)>, key: Seq<char>) -> Option<Seq<char>>
    decreases fields.len(),
{
    if fields.len() == 0 {
        None
    } else if fields.last().0 == key {
        Some(fields.last().1)
    } else {
        field(fields.drop_last(), key)
    }
}

/// What is said of a manifest without a field.
pub open spec fn missing_field(key: Seq<char>) -> ErrorView {
    invalid_data("manifest missing field "@ + quoted(key))
}

/// Does `line` have the form of a page hash?
pub open spec fn is_hash(line: Seq<char>) -> bool {
    line.len() == 64 && all_hex(line)
}

/// The first of `ls` from line `i` on that is not a page hash.
pub open spec fn bad_hash(ls: Seq<Seq<char>>, i: nat) -> Option<Seq<char>>
    decreases ls.len() - i,
{
    if i >= ls.len() {
        None
    } else if !is_hash(ls[i as int]) {
        Some(ls[i as int])
    } else {
        bad_hash(ls, i + 1)
    }
}

/// The manifest if its id is that of the state it describes.
pub open spec fn with_matching_id(m: ManifestView) -> Result<ManifestView, ErrorView> {
    if m.id != id_of(m.page_size, m.page_hashes) {
        Err(
            invalid_data(
                "manifest id "@ + m.id + " does not match its content ("@ + id_of(
                    m.page_size,
                    m.page_hashes,
                ) + ")"@,
            ),
        )
    } else {
        Ok(m)
    }
}

/// The parent that is written as `s`.
pub open spec fn parent_of(s: Seq<char>) -> Option<Seq<char>> {
    if s == "-"@ {
        None
    } else {
        Some(s)
    }
}

/// The manifest with these fields and these page hashes.
pub open spec fn manifest_with(
    fields: Seq<(Seq<char>, Seq<char>)>,
    parent: Seq<char>,
    hashes: Seq<Seq<char>>,
) -> Result<ManifestView, ErrorView> {
    match field(fields, "id"@) {
        None => Err(missing_field("id"@)),
        Some(id) => match field(fields, "branch"@) {
            None => Err(missing_field("branch"@)),
            Some(branch) => match field(fields, "created"@) {
                None => Err(missing_field("created"@)),
                Some(created) => match number_upto(created, u64::MAX as nat) {
                    None => Err(invalid_data("bad created field"@)),
                    Some(at) => match field(fields, "message"@) {
                        None => Err(missing_field("message"@)),
                        Some(message) => match field(fields, "pagesize"@) {
                            None => Err(missing_field("pagesize"@)),
                            Some(size) => match number_upto(size, u32::MAX as nat) {
                                None => Err(invalid_data("bad pagesize field"@)),
                                Some(page_size) => with_matching_id(
                                    ManifestView {
                                        id,
                                        parent: parent_of(parent),
                                        branch,
                                        created: at as u64,
                                        message: unescaped(message),
                                        page_size: page_size as u32,
                                        page_hashes: hashes,
                                    },
                                ),
                            },
                        },
                    },
                },
            },
        },
    }
}

/// The manifest with these fields and the page hashes on the lines from line `next` on.
pub open spec fn manifest_from(
    fields: Seq<(Seq<char>, Seq<char>)>,
    ls: Seq<Seq<char>>,
    next: nat,
) -> Result<ManifestView, ErrorView> {
    match field(fields, "parent"@) {
        None => Err(missing_field("parent"@)),
        Some(parent) => match field(fields, "pages"@) {
            None => Err(missing_field("pages"@)),
            Some(count) => match number_upto(count, usize::MAX as nat) {
                None => Err(invalid_data("bad pages field"@)),
                Some(pages) => match bad_hash(ls, next) {
                    Some(line) => Err(invalid_data("bad page hash line "@ + quoted(line))),
                    None => if ls.len() - next != pages {
                        Err(
                            invalid_data(
                                "manifest lists "@ + dec((ls.len() - next) as nat)
                                    + " page hashes but declares "@ + dec(pages),
                            ),
                        )
                    } else {
                        manifest_with(fields, parent, ls.skip(next as int))
                    },
                },
            },
        },
    }
}

/// The manifest that is written as `text`, or what is wrong with it.
pub open spec fn manifest_in(text: Seq<char>) -> Result<ManifestView, ErrorView> {
    let ls = lines(text);
    if ls.len() == 0 || ls[0] != "litegraft snapshot 1"@ {
        Err(invalid_data("bad manifest header"@))
    } else {
        match fields_from(ls, 1, Seq::empty()) {
            Err(e) => Err(e),
            Ok((fields, next)) => manifest_from(fields, ls, next),
        }
    }
}

/// The views of a list of fields.
spec fn field_views(fields: Seq<(String, String)>) -> Seq<(Seq<char>, Seq<char>)> {
    Seq::new(fields.len(), |i: int| (fields[i].0@, fields[i].1@))
}

fn read_fields(ls: &Vec<String>) -> (r: Result<(Vec<(String, String)>, usize), Error>)
    requires
        ls@.len() >= 1,
    ensures
        match r {
            Ok((fields, next)) => fields_from(texts(ls@), 1, Seq::empty()) == Ok::<
                (Seq<(Seq<char>, Seq<char>)>, nat),
                ErrorView,
            >((field_views(fields@), next as nat)) && next <= ls@.len(),
            Err(e) => fields_from(texts(ls@), 1, Seq::empty()) == Err::<
                (Seq<(Seq<char>, Seq<char>)>, nat),
                ErrorView,
            >(e@),
        },
{
    let mut fields: Vec<(String, String)> = Vec::new();
    let ghost all = texts(ls@);
    let mut i: usize = 1;
    assert(field_views(fields@) =~= Seq::empty());
    while i < ls.len()
        invariant
            all == texts(ls@),
            1 <= i <= ls@.len(),
            fields_from(all, 1, Seq::empty()) == fields_from(all, i as nat, field_views(fields@)),
        decreases ls@.len() - i,
    {
        assert(all[i as int] == ls@[i as int]@);
        if same_text(ls[i].as_str(), "--") {
            return Ok((fields, i + 1));
        }
        match split_at_first(ls[i].as_str(), ' ') {
            None => {
                let mut m = "bad manifest line ".to_string();
                m.push_str(quote(ls[i].as_str()).as_str());
                return Err(Error::invalid_data(m));
            },
            Some((key, value)) => {
                let ghost before = field_views(fields@);
                let ghost f = (key@, value@);
                fields.push((key, value));
                assert(field_views(fields@) =~= before.push(f));
            },
        }
        i = i + 1;
    }
    Ok((fields, i))
}

fn get_field(fields: &Vec<(String, String)>, key: &str) -> (r: Result<String, Error>)
    ensures
        match r {
            Ok(s) => field(field_views(fields@), key@) == Some(s@),
            Err(e) => field(field_views(fields@), key@) is None && e@ == missing_field(key@),
        },
{
    let ghost all = field_views(fields@);
    let mut n: usize = fields.len();
    assert(all.take(n as int) =~= all);
    while n > 0
        invariant
            n <= fields@.len(),
            all == field_views(fields@),
            field(all, key@) == field(all.take(n as int), key@),
        decreases n,
    {
        assert(all.take(n as int).last() == (fields@[n - 1].0@, fields@[n - 1].1@));
        if same_text(fields[n - 1].0.as_str(), key) {
            return Ok(fields[n - 1].1.clone());
        }
        assert(all.take(n as int).drop_last() =~= all.take(n - 1));
        n = n - 1;
    }
    let mut m = "manifest missing field ".to_string();
    m.push_str(quote(key).as_str());
    Err(Error::invalid_data(m))
}

fn read_hashes(ls: &Vec<String>, next: usize) -> (r: Result<Vec<String>, Error>)
    requires
        next <= ls@.len(),
    ensures
        match r {
            Ok(hashes) => bad_hash(texts(ls@), next as nat) is None && texts(hashes@) == texts(
                ls@,
            ).skip(next as int),
            Err(e) => bad_hash(texts(ls@), next as nat) matches Some(line) && e@ == invalid_data(
                "bad page hash line "@ + quoted(line),
            ),
        },
{
    let mut hashes: Vec<String> = Vec::new();
    let ghost all = texts(ls@);
    let mut i: usize = next;
    assert(texts(hashes@) =~= all.subrange(next as int, i as int));
    while i < ls.len()
        invariant
            next <= i <= ls@.len(),
            all == texts(ls@),
            bad_hash(all, next as nat) == bad_hash(all, i as nat),
            texts(hashes@) == all.subrange(next as int, i as int),
        decreases ls@.len() - i,
    {
        assert(all[i as int] == ls@[i as int]@);
        if chars_of(ls[i].as_str()).len() != 64 || !is_all_hex(ls[i].as_str()) {
            let mut m = "bad page hash line ".to_string();
            m.push_str(quote(ls[i].as_str()).as_str());
            return Err(Error::invalid_data(m));
        }
        let ghost before = texts(hashes@);
        hashes.push(ls[i].clone());
        assert(texts(hashes@) =~= before.push(all[i as int]));
        assert(all.subrange(next as int, i + 1) =~= before.push(all[i as int]));
        i = i + 1;
    }
    assert(all.subrange(next as int, i as int) =~= all.skip(next as int));
    Ok(hashes)
}

fn build_manifest(
    fields: &Vec<(String, String)>,
    parent: String,
    hashes: Vec<String>,
) -> (r: Result<Manifest, Error>)
    ensures
        match r {
            Ok(m) => manifest_with(field_views(fields@), parent@, texts(hashes@)) == Ok::<
                ManifestView,
                ErrorView,
            >(m@),
            Err(e) => manifest_with(field_views(fields@), parent@, texts(hashes@)) == Err::<
                ManifestView,
                ErrorView,
            >(e@),
        },
{
    let id = match get_field(fields, "id") {
        Ok(s) => s,
        Err(e) => {
            return Err(e);
        },
    };
    let branch = match get_field(fields, "branch") {
        Ok(s) => s,
        Err(e) => {
            return Err(e);
        },
    };
    let created: u64 = match get_field(fields, "created") {
        Ok(s) => match parse_number(s.as_str(), u64::MAX) {
            Some(n) => n,
            None => {
                return Err(Error::invalid_data("bad created field".to_string()));
            },
        },
        Err(e) => {
            return Err(e);
        },
    };
    let message = match get_field(fields, "message") {
        Ok(s) => unescape_line(s.as_str()),
        Err(e) => {
            return Err(e);
        },
    };
    let page_size: u32 = match get_field(fields, "pagesize") {
        Ok(s) => match parse_number(s.as_str(), u32::MAX as u64) {
            Some(n) => n as u32,
            None => {
                return Err(Error::invalid_data("bad pagesize field".to_string()));
            },
        },
        Err(e) => {
            return Err(e);
        },
    };
    let parent = if same_text(parent.as_str(), "-") {
        None
    } else {
        Some(parent)
    };
    let want = state_id(page_size, hashes.as_slice());
    let m = Manifest { id, parent, branch, created, message, page_size, page_hashes: hashes };
    if !same_text(m.id.as_str(), want.as_str()) {
        let mut t = "manifest id ".to_string();
        t.push_str(m.id.as_str());
        t.push_str(" does not match its content (");
        t.push_str(want.as_str());
        t.push_str(")");
        return Err(Error::invalid_data(t));
    }
    Ok(m)
}

/// Reads a manifest. Its id must be that of the state it describes.
pub fn parse_manifest(text: &str) -> (r: Result<Manifest, Error>)
    ensures
        match r {
            Ok(m) => manifest_in(text@) == Ok::<ManifestView, ErrorView>(m@),
            Err(e) => manifest_in(text@) == Err::<ManifestView, ErrorView>(e@),
        },
{
    let ls = split_lines(text);
    let ghost all = texts(ls@);
    if ls.len() == 0 || !same_text(ls[0].as_str(), "litegraft snapshot 1") {
        return Err(Error::invalid_data("bad manifest header".to_string()));
    }
    let (fields, next) = match read_fields(&ls) {
        Ok(p) => p,
        Err(e) => {
            return Err(e);
        },
    };
    let parent = match get_field(&fields, "parent") {
        Ok(s) => s,
        Err(e) => {
            return Err(e);
        },
    };
    let pages: usize = match get_field(&fields, "pages") {
        Ok(s) => match parse_number(s.as_str(), usize::MAX as u64) {
            Some(n) => n as usize,
            None => {
                return Err(Error::invalid_data("bad pages field".to_string()));
            },
        },
        Err(e) => {
            return Err(e);
        },
    };
    let hashes = match read_hashes(&ls, next) {
        Ok(h) => h,
        Err(e) => {
            return Err(e);
        },
    };
    assert(texts(hashes@).len() == all.len() - next);
    if hashes.len() != pages {
        let mut t = "manifest lists ".to_string();
        t.push_str(decimal(hashes.len() as u64).as_str());
        t.push_str(" page hashes but declares ");
        t.push_str(decimal(pages as u64).as_str());
        return Err(Error::invalid_data(t));
    }
    build_manifest(&fields, parent, hashes)
}

} // verus!
