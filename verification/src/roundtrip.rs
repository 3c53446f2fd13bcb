//! A manifest that is written reads back, and says what its id says.

use vstd::prelude::*;

use crate::error::ErrorView;
use crate::manifest::bad_hash;
use crate::manifest::escape_round_trip;
use crate::manifest::escaped;
use crate::manifest::escaped_char;
use crate::manifest::escaped_is_one_line;
use crate::manifest::field;
use crate::manifest::fields_from;
use crate::manifest::id_of;
use crate::manifest::is_hash;
use crate::manifest::manifest_head;
use crate::manifest::manifest_in;
use crate::manifest::manifest_text;
use crate::manifest::parent_text;
use crate::manifest::state_lines;
use crate::manifest::state_text;
use crate::manifest::unlines;
use crate::manifest::ManifestView;
use crate::numerals::dec_reads_back;
use crate::numerals::is_digit;
use crate::text::cut;
use crate::text::cut_at;
use crate::text::dec;
use crate::text::index_of_is;
use crate::text::is_hex;
use crate::text::lines;
use crate::text::without_return;

verus! {

/// `s` fits on one line.
pub open spec fn single(s: Seq<char>) -> bool {
    !s.contains('\n')
}

/// `s` fits on one line and comes back from it unchanged: it does not end in a carriage
/// return, which would be taken for a part of the line's end.
pub open spec fn one_line(s: Seq<char>) -> bool {
    single(s) && (s.len() > 0 ==> s.last() != '\r')
}

proof fn unlines_first(ls: Seq<Seq<char>>)
    requires
        ls.len() > 0,
    ensures
        unlines(ls) == ls.first().push('\n') + unlines(ls.drop_first()),
    decreases ls.len(),
{
    if ls.len() == 1 {
        assert(ls.drop_last() =~= Seq::empty());
        assert(ls.drop_first() =~= Seq::empty());
        assert(unlines(ls) =~= ls.first().push('\n') + unlines(ls.drop_first()));
    } else {
        unlines_first(ls.drop_last());
        assert(ls.drop_last().drop_first() =~= ls.drop_first().drop_last());
        assert(unlines(ls) =~= ls.first().push('\n') + unlines(ls.drop_first()));
    }
}

/// Lines that are written one after the other are read one after the other; each loses a
/// carriage return at its end.
pub proof fn lines_of_unlines(ls: Seq<Seq<char>>)
    requires
        forall|i: int| 0 <= i < ls.len() ==> single(#[trigger] ls[i]),
    ensures
        lines(unlines(ls)) == Seq::new(ls.len(), |i: int| without_return(ls[i])),
    decreases ls.len(),
{
    let read = Seq::new(ls.len(), |i: int| without_return(ls[i]));
    if ls.len() > 0 {
        unlines_first(ls);
        let first = ls.first();
        let rest = unlines(ls.drop_first());
        let s = first.push('\n') + rest;
        let n = first.len();
        assert(single(ls[0]));
        assert forall|i: int| 0 <= i < n implies s[i] != '\n' by {
            assert(first.contains(first[i]));
        }
        index_of_is(s, '\n', 0, n);
        assert(s.take(n as int) =~= first);
        assert(s.skip(n as int + 1) =~= rest);
        assert forall|i: int| 0 <= i < ls.drop_first().len() implies single(
            #[trigger] ls.drop_first()[i],
        ) by {
            assert(single(ls[i + 1]));
        }
        lines_of_unlines(ls.drop_first());
        let tail = Seq::new(
            ls.drop_first().len(),
            |i: int| without_return(ls.drop_first()[i]),
        );
        assert(seq![without_return(first)] + tail =~= read);
    } else {
        assert(lines(unlines(ls)) =~= read);
    }
}

/// What can be written as a manifest and read: the id is that of the state, the page hashes
/// have the form of hashes, and the branch and the parent fit on a line.
pub open spec fn writable(m: ManifestView) -> bool {
    &&& m.id == id_of(m.page_size, m.page_hashes)
    &&& forall|i: int| 0 <= i < m.page_hashes.len() ==> is_hash(#[trigger] m.page_hashes[i])
    &&& m.page_hashes.len() <= usize::MAX
    &&& one_line(m.id)
    &&& one_line(m.branch)
    &&& m.parent matches Some(p) ==> one_line(p)
}

/// What is read of the manifest `m`: a carriage return at the end of its message is lost to
/// the line's end, and a dash for a parent stands for none.
pub open spec fn as_read(m: ManifestView) -> ManifestView {
    ManifestView {
        message: without_return(m.message),
        parent: if m.parent == Some("-"@) {
            None
        } else {
            m.parent
        },
        ..m
    }
}

proof fn one_line_concat(a: Seq<char>, b: Seq<char>)
    requires
        one_line(a),
        one_line(b),
    ensures
        one_line(a + b),
{
    let s = a + b;
    assert forall|i: int| 0 <= i < s.len() implies s[i] != '\n' by {
        if i < a.len() {
            assert(a.contains(a[i]));
        } else {
            assert(b.contains(b[i - a.len()]));
        }
    }
    if b.len() == 0 {
        assert(s =~= a);
    }
}

proof fn dec_one_line(n: nat)
    ensures
        one_line(dec(n)),
{
    dec_reads_back(n);
    let s = dec(n);
    assert forall|i: int| 0 <= i < s.len() implies s[i] != '\n' && s[i] != '\r' by {
        assert(is_digit(s[i]));
    }
}

proof fn hash_one_line(s: Seq<char>)
    requires
        is_hash(s),
    ensures
        one_line(s),
{
    assert forall|i: int| 0 <= i < s.len() implies s[i] != '\n' && s[i] != '\r' by {
        assert(is_hex(s[i]));
    }
}

proof fn escaped_return(s: Seq<char>)
    ensures
        without_return(escaped(s)) == escaped(without_return(s)),
        escaped(s).len() > 0 && escaped(s).last() == '\r' <==> s.len() > 0 && s.last() == '\r',
        s.len() > 0 ==> escaped(s).len() > 0,
    decreases s.len(),
{
    let e = escaped(s);
    if s.len() == 0 {
        assert(without_return(e) =~= escaped(without_return(s)));
    } else if s.len() == 1 {
        assert(escaped(s.drop_first()) =~= Seq::empty());
        assert(e =~= escaped_char(s.first()));
        if s.last() == '\r' {
            assert(without_return(s) =~= Seq::empty());
            assert(without_return(e) =~= Seq::empty());
        }
    } else {
        let t = s.drop_first();
        escaped_return(t);
        assert(t.last() == s.last());
        let head = escaped_char(s.first());
        assert(e == head + escaped(t));
        assert(e.last() == escaped(t).last());
        if s.last() == '\r' {
            assert(without_return(s).drop_first() =~= without_return(t));
            assert(without_return(s).first() == s.first());
            assert(without_return(e) =~= head + without_return(escaped(t)));
        }
    }
}

proof fn field_line(word: Seq<char>, key: Seq<char>, value: Seq<char>)
    requires
        word == key.push(' '),
        !key.contains(' '),
        key.len() > 0,
        key[0] != '-',
    ensures
        cut(word + value, ' ') == Some((key, value)),
        word + value != "--"@,
{
    cut_at(key, ' ', value);
    reveal_strlit("--");
    assert((word + value)[0] == key[0]);
}

proof fn good_hashes(ls: Seq<Seq<char>>, i: nat)
    requires
        forall|j: int| i <= j < ls.len() ==> is_hash(#[trigger] ls[j]),
    ensures
        bad_hash(ls, i) is None,
    decreases ls.len() - i,
{
    if i < ls.len() {
        good_hashes(ls, i + 1);
    }
}

/// The keys and values of the field lines of `m`.
spec fn written_fields(m: ManifestView) -> Seq<(Seq<char>, Seq<char>)> {
    seq![
        ("id"@, m.id),
        ("parent"@, parent_text(m.parent)),
        ("branch"@, m.branch),
        ("created"@, dec(m.created as nat)),
        ("message"@, escaped(m.message)),
        ("pagesize"@, dec(m.page_size as nat)),
        ("pages"@, dec(m.page_hashes.len())),
    ]
}

proof fn field_words()
    ensures
        "id "@ == "id"@.push(' ') && !"id"@.contains(' ') && "id"@.len() > 0 && "id"@[0] != '-',
        "parent "@ == "parent"@.push(' ') && !"parent"@.contains(' ') && "parent"@.len() > 0
            && "parent"@[0] != '-',
        "branch "@ == "branch"@.push(' ') && !"branch"@.contains(' ') && "branch"@.len() > 0
            && "branch"@[0] != '-',
        "created "@ == "created"@.push(' ') && !"created"@.contains(' ') && "created"@.len() > 0
            && "created"@[0] != '-',
        "message "@ == "message"@.push(' ') && !"message"@.contains(' ') && "message"@.len() > 0
            && "message"@[0] != '-',
        "pagesize "@ == "pagesize"@.push(' ') && !"pagesize"@.contains(' ') && "pagesize"@.len() > 0
            && "pagesize"@[0] != '-',
        "pages "@ == "pages"@.push(' ') && !"pages"@.contains(' ') && "pages"@.len() > 0
            && "pages"@[0] != '-',
{
    reveal_strlit("id ");
    reveal_strlit("id");
    reveal_strlit("parent ");
    reveal_strlit("parent");
    reveal_strlit("branch ");
    reveal_strlit("branch");
    reveal_strlit("created ");
    reveal_strlit("created");
    reveal_strlit("message ");
    reveal_strlit("message");
    reveal_strlit("pagesize ");
    reveal_strlit("pagesize");
    reveal_strlit("pages ");
    reveal_strlit("pages");
    assert("id "@ =~= "id"@.push(' '));
    assert("parent "@ =~= "parent"@.push(' '));
    assert("branch "@ =~= "branch"@.push(' '));
    assert("created "@ =~= "created"@.push(' '));
    assert("message "@ =~= "message"@.push(' '));
    assert("pagesize "@ =~= "pagesize"@.push(' '));
    assert("pages "@ =~= "pages"@.push(' '));
}

proof fn plain_line(word: Seq<char>, value: Seq<char>)
    requires
        one_line(word),
        one_line(value),
    ensures
        single(word + value),
        without_return(word + value) == word + value,
{
    one_line_concat(word, value);
}

/// The lines of `m`, and what is read of them.
proof fn head_lines_read(m: ManifestView)
    requires
        writable(m),
    ensures
        forall|i: int| 0 <= i < 9 ==> single(#[trigger] manifest_head(m)[i]),
        forall|i: int|
            0 <= i < 9 ==> without_return(#[trigger] manifest_head(m)[i]) == manifest_head(
                as_read(m),
            )[i],
{
    reveal_strlit("litegraft snapshot 1");
    reveal_strlit("id ");
    reveal_strlit("parent ");
    reveal_strlit("branch ");
    reveal_strlit("created ");
    reveal_strlit("message ");
    reveal_strlit("pagesize ");
    reveal_strlit("pages ");
    reveal_strlit("-");
    reveal_strlit("--");
    plain_line("id "@, m.id);
    plain_line("parent "@, parent_text(m.parent));
    assert(parent_text(as_read(m).parent) == parent_text(m.parent));
    plain_line("branch "@, m.branch);
    dec_one_line(m.created as nat);
    plain_line("created "@, dec(m.created as nat));
    dec_one_line(m.page_size as nat);
    plain_line("pagesize "@, dec(m.page_size as nat));
    dec_one_line(m.page_hashes.len());
    plain_line("pages "@, dec(m.page_hashes.len()));
    let e = escaped(m.message);
    escaped_is_one_line(m.message);
    escaped_return(m.message);
    let line = "message "@ + e;
    assert(single(line)) by {
        assert forall|i: int| 0 <= i < line.len() implies line[i] != '\n' by {
            if i >= 8 {
                assert(e.contains(e[i - 8]));
            }
        }
    }
    assert(without_return(line) =~= "message "@ + without_return(e)) by {
        if e.len() == 0 {
            assert(line =~= "message "@);
        }
    }
}

proof fn fields_read_back(m: ManifestView)
    ensures
        fields_from(manifest_head(m) + m.page_hashes, 1, Seq::empty()) == Ok::<
            (Seq<(Seq<char>, Seq<char>)>, nat),
            ErrorView,
        >((written_fields(m), 9)),
{
    let ls = manifest_head(m) + m.page_hashes;
    let fs = written_fields(m);
    field_words();
    field_line("id "@, "id"@, m.id);
    field_line("parent "@, "parent"@, parent_text(m.parent));
    field_line("branch "@, "branch"@, m.branch);
    field_line("created "@, "created"@, dec(m.created as nat));
    field_line("message "@, "message"@, escaped(m.message));
    field_line("pagesize "@, "pagesize"@, dec(m.page_size as nat));
    field_line("pages "@, "pages"@, dec(m.page_hashes.len()));
    assert(fs.take(0) =~= Seq::empty());
    assert(fs.take(0).push(fs[0]) =~= fs.take(1));
    assert(fs.take(1).push(fs[1]) =~= fs.take(2));
    assert(fs.take(2).push(fs[2]) =~= fs.take(3));
    assert(fs.take(3).push(fs[3]) =~= fs.take(4));
    assert(fs.take(4).push(fs[4]) =~= fs.take(5));
    assert(fs.take(5).push(fs[5]) =~= fs.take(6));
    assert(fs.take(6).push(fs[6]) =~= fs);
    assert(ls[8] == "--"@);
    assert(fields_from(ls, 1, fs.take(0)) == fields_from(ls, 2, fs.take(1)));
    assert(fields_from(ls, 2, fs.take(1)) == fields_from(ls, 3, fs.take(2)));
    assert(fields_from(ls, 3, fs.take(2)) == fields_from(ls, 4, fs.take(3)));
    assert(fields_from(ls, 4, fs.take(3)) == fields_from(ls, 5, fs.take(4)));
    assert(fields_from(ls, 5, fs.take(4)) == fields_from(ls, 6, fs.take(5)));
    assert(fields_from(ls, 6, fs.take(5)) == fields_from(ls, 7, fs.take(6)));
    assert(fields_from(ls, 7, fs.take(6)) == fields_from(ls, 8, fs));
}

proof fn written_field_values(m: ManifestView)
    ensures
        field(written_fields(m), "id"@) == Some(m.id),
        field(written_fields(m), "parent"@) == Some(parent_text(m.parent)),
        field(written_fields(m), "branch"@) == Some(m.branch),
        field(written_fields(m), "created"@) == Some(dec(m.created as nat)),
        field(written_fields(m), "message"@) == Some(escaped(m.message)),
        field(written_fields(m), "pagesize"@) == Some(dec(m.page_size as nat)),
        field(written_fields(m), "pages"@) == Some(dec(m.page_hashes.len())),
{
    reveal_strlit("id");
    reveal_strlit("parent");
    reveal_strlit("branch");
    reveal_strlit("created");
    reveal_strlit("message");
    reveal_strlit("pagesize");
    reveal_strlit("pages");
    // The keys differ in length or in their first letter.
    let (id, parent, branch) = ("id"@, "parent"@, "branch"@);
    let (created, message, pagesize, pages) = ("created"@, "message"@, "pagesize"@, "pages"@);
    assert(id.len() == 2 && parent.len() == 6 && branch.len() == 6 && created.len() == 7
        && message.len() == 7 && pagesize.len() == 8 && pages.len() == 5);
    assert(parent[0] == 'p' && branch[0] == 'b' && created[0] == 'c' && message[0] == 'm');
    let fs = written_fields(m);
    assert(fs.drop_last() =~= fs.take(6));
    assert(fs.take(6).drop_last() =~= fs.take(5));
    assert(fs.take(5).drop_last() =~= fs.take(4));
    assert(fs.take(4).drop_last() =~= fs.take(3));
    assert(fs.take(3).drop_last() =~= fs.take(2));
    assert(fs.take(2).drop_last() =~= fs.take(1));
    reveal_with_fuel(field, 8);
}

/// A manifest that is written reads back as it was, but for a carriage return at the end of
/// its message and a dash for a parent.
pub proof fn manifest_round_trip(m: ManifestView)
    requires
        writable(m),
    ensures
        manifest_in(manifest_text(m)) == Ok::<ManifestView, ErrorView>(as_read(m)),
        (m.message.len() > 0 ==> m.message.last() != '\r') && m.parent != Some("-"@) ==> as_read(m)
            == m,
{
    let written = manifest_head(m) + m.page_hashes;
    let r = as_read(m);
    let ls = manifest_head(r) + r.page_hashes;
    head_lines_read(m);
    assert forall|i: int| 0 <= i < written.len() implies single(#[trigger] written[i])
        && without_return(written[i]) == ls[i] by {
        if i >= 9 {
            hash_one_line(m.page_hashes[i - 9]);
        } else {
            assert(single(manifest_head(m)[i]));
        }
    }
    lines_of_unlines(written);
    assert(lines(manifest_text(m)) =~= ls);
    fields_read_back(r);
    written_field_values(r);
    dec_reads_back(r.created as nat);
    dec_reads_back(r.page_size as nat);
    dec_reads_back(r.page_hashes.len());
    escape_round_trip(r.message);
    assert forall|j: int| 9 <= j < ls.len() implies is_hash(#[trigger] ls[j]) by {
        assert(is_hash(r.page_hashes[j - 9]));
    }
    good_hashes(ls, 9);
    assert(ls.skip(9) =~= r.page_hashes);
}

proof fn hashes_are_good(ls: Seq<Seq<char>>, i: nat, j: int)
    requires
        bad_hash(ls, i) is None,
        i <= j < ls.len(),
    ensures
        is_hash(ls[j]),
    decreases ls.len() - i,
{
    if i < j {
        hashes_are_good(ls, i + 1, j);
    }
}

/// A manifest that can be read is intact: its id is that of the state it describes, and its
/// page hashes have the form of hashes.
pub proof fn manifest_is_intact(text: Seq<char>, m: ManifestView)
    requires
        manifest_in(text) == Ok::<ManifestView, ErrorView>(m),
    ensures
        m.id == id_of(m.page_size, m.page_hashes),
        forall|i: int| 0 <= i < m.page_hashes.len() ==> is_hash(#[trigger] m.page_hashes[i]),
{
    let ls = lines(text);
    let next = fields_from(ls, 1, Seq::empty())->Ok_0.1;
    fields_end(ls, 1, Seq::empty());
    assert(m.page_hashes == ls.skip(next as int));
    assert forall|i: int| 0 <= i < m.page_hashes.len() implies is_hash(
        #[trigger] m.page_hashes[i],
    ) by {
        hashes_are_good(ls, next, i + next);
    }
}

proof fn fields_end(ls: Seq<Seq<char>>, i: nat, fields: Seq<(Seq<char>, Seq<char>)>)
    requires
        i <= ls.len(),
    ensures
        fields_from(ls, i, fields) matches Ok(r) ==> i <= r.1 <= ls.len(),
    decreases ls.len() - i,
{
    if i < ls.len() {
        if let Some(f) = cut(ls[i as int], ' ') {
            fields_end(ls, i + 1, fields.push(f));
        }
    }
}

/// States that differ in page size, or in any page hash, differ in what their ids are
/// computed from.
pub proof fn state_text_is_injective(
    size: u32,
    hashes: Seq<Seq<char>>,
    other_size: u32,
    other_hashes: Seq<Seq<char>>,
)
    requires
        forall|i: int| 0 <= i < hashes.len() ==> is_hash(#[trigger] hashes[i]),
        forall|i: int| 0 <= i < other_hashes.len() ==> is_hash(#[trigger] other_hashes[i]),
        state_text(size, hashes) == state_text(other_size, other_hashes),
    ensures
        size == other_size,
        hashes == other_hashes,
{
    let a = state_lines(size, hashes);
    let b = state_lines(other_size, other_hashes);
    state_lines_fit(size, hashes);
    state_lines_fit(other_size, other_hashes);
    lines_of_unlines(a);
    lines_of_unlines(b);
    assert(a =~= lines(unlines(a)));
    assert(b =~= lines(unlines(b)));
    assert(a[1] == b[1]);
    dec_reads_back(size as nat);
    dec_reads_back(other_size as nat);
    assert(a.skip(2) =~= hashes);
    assert(b.skip(2) =~= other_hashes);
}

proof fn state_lines_fit(size: u32, hashes: Seq<Seq<char>>)
    requires
        forall|i: int| 0 <= i < hashes.len() ==> is_hash(#[trigger] hashes[i]),
    ensures
        forall|i: int|
            0 <= i < hashes.len() + 2 ==> single(#[trigger] state_lines(size, hashes)[i])
                && without_return(state_lines(size, hashes)[i]) == state_lines(size, hashes)[i],
{
    let a = state_lines(size, hashes);
    reveal_strlit("litegraft-state 1");
    dec_one_line(size as nat);
    assert forall|i: int| 0 <= i < a.len() implies single(#[trigger] a[i]) && without_return(a[i])
        == a[i] by {
        if i >= 2 {
            hash_one_line(hashes[i - 2]);
        }
    }
}

} // verus!
