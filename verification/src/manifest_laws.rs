//! What a manifest says, line by line.

use vstd::prelude::*;
use vstd::utf8::encode_utf8;

use crate::error::ErrorView;
use crate::manifest::field;
use crate::manifest::fields_from;
use crate::manifest::id_of;
use crate::manifest::is_hash;
use crate::manifest::manifest_in;
use crate::manifest::state_text;
use crate::manifest::unescaped;
use crate::manifest::unlines;
use crate::manifest::ManifestView;
use crate::numerals::number_upto;
use crate::roundtrip::manifest_is_intact;
use crate::sha256::hex_sha256;
use crate::text::cut;
use crate::text::dec;
use crate::text::index_of;
use crate::text::index_of_facts;
use crate::text::index_of_is;
use crate::text::lines;

verus! {

/// Line `j` of `ls` gives `key` the value `v`.
pub open spec fn gives(ls: Seq<Seq<char>>, j: int, key: Seq<char>, v: Seq<char>) -> bool {
    ls[j] == key.push(' ') + v
}

/// Line `j` of `ls` gives `key` some value.
pub open spec fn names(ls: Seq<Seq<char>>, j: int, key: Seq<char>) -> bool {
    ls[j].len() > key.len() && ls[j].take(key.len() as int) == key && ls[j][key.len() as int] == ' '
}

/// Of the lines of `ls` from the second to before line `end`, the last that gives `key` a value
/// gives it `v`.
pub open spec fn says(ls: Seq<Seq<char>>, end: int, key: Seq<char>, v: Seq<char>) -> bool {
    exists|j: int|
        1 <= j < end && #[trigger] gives(ls, j, key, v) && forall|l: int|
            j < l < end ==> !#[trigger] names(ls, l, key)
}

proof fn cut_is_line(line: Seq<char>, f: (Seq<char>, Seq<char>))
    requires
        cut(line, ' ') == Some(f),
    ensures
        line == f.0.push(' ') + f.1,
        !f.0.contains(' '),
{
    index_of_facts(line, ' ', 0);
    let n = index_of(line, ' ', 0) as int;
    assert(line =~= f.0.push(' ') + f.1);
}

proof fn fields_are_lines(
    ls: Seq<Seq<char>>,
    i: nat,
    fields: Seq<(Seq<char>, Seq<char>)>,
    r: Seq<(Seq<char>, Seq<char>)>,
    next: nat,
)
    requires
        i <= ls.len(),
        fields_from(ls, i, fields) == Ok::<(Seq<(Seq<char>, Seq<char>)>, nat), ErrorView>(
            (r, next),
        ),
    ensures
        fields.len() <= r.len(),
        r.take(fields.len() as int) == fields,
        forall|x: int|
            fields.len() <= x < r.len() ==> cut(#[trigger] ls[i + x - fields.len()], ' ') == Some(
                r[x],
            ),
        i <= next <= ls.len(),
        next == i + r.len() - fields.len() + 1 && ls[next - 1] == "--"@ || next == ls.len() && next
            == i + r.len() - fields.len(),
    decreases ls.len() - i,
{
    if i < ls.len() && ls[i as int] != "--"@ {
        let f = cut(ls[i as int], ' ').unwrap();
        fields_are_lines(ls, i + 1, fields.push(f), r, next);
        assert(r[fields.len() as int] == f) by {
            assert(r.take(fields.len() as int + 1)[fields.len() as int] == fields.push(
                f,
            )[fields.len() as int]);
        }
        assert(r.take(fields.len() as int) =~= fields) by {
            assert forall|x: int| 0 <= x < fields.len() implies r[x] == fields[x] by {
                assert(r.take(fields.len() as int + 1)[x] == fields.push(f)[x]);
            }
        }
        assert forall|x: int| fields.len() <= x < r.len() implies cut(
            #[trigger] ls[i + x - fields.len()],
            ' ',
        ) == Some(r[x]) by {
            if x > fields.len() {
                assert(cut(ls[(i + 1) + x - fields.push(f).len()], ' ') == Some(r[x]));
            }
        }
    } else {
        assert(r.take(fields.len() as int) =~= fields);
    }
}

proof fn field_is_last(fields: Seq<(Seq<char>, Seq<char>)>, key: Seq<char>, v: Seq<char>)
    requires
        field(fields, key) == Some(v),
    ensures
        exists|x: int|
            0 <= x < fields.len() && #[trigger] fields[x] == (key, v) && forall|y: int|
                x < y < fields.len() ==> (#[trigger] fields[y]).0 != key,
    decreases fields.len(),
{
    let last = fields.len() - 1;
    if fields.last().0 == key {
        assert(fields[last] == (key, v));
    } else {
        let rest = fields.drop_last();
        field_is_last(rest, key, v);
        let x = choose|x: int|
            0 <= x < rest.len() && #[trigger] rest[x] == (key, v) && forall|y: int|
                x < y < rest.len() ==> (#[trigger] rest[y]).0 != key;
        assert(fields[x] == (key, v));
        assert forall|y: int| x < y < fields.len() implies (#[trigger] fields[y]).0 != key by {
            if y < last {
                assert(rest[y] == fields[y]);
            }
        }
    }
}

proof fn field_is_said(
    ls: Seq<Seq<char>>,
    r: Seq<(Seq<char>, Seq<char>)>,
    next: nat,
    key: Seq<char>,
    v: Seq<char>,
)
    requires
        1 <= ls.len(),
        fields_from(ls, 1, Seq::empty()) == Ok::<(Seq<(Seq<char>, Seq<char>)>, nat), ErrorView>(
            (r, next),
        ),
        field(r, key) == Some(v),
        !key.contains(' '),
    ensures
        says(ls, r.len() as int + 1, key, v),
{
    fields_are_lines(ls, 1, Seq::empty(), r, next);
    field_is_last(r, key, v);
    let x = choose|x: int|
        0 <= x < r.len() && #[trigger] r[x] == (key, v) && forall|y: int|
            x < y < r.len() ==> (#[trigger] r[y]).0 != key;
    let none = Seq::<(Seq<char>, Seq<char>)>::empty();
    assert(cut(ls[1 + x - none.len()], ' ') == Some(r[x]));
    cut_is_line(ls[x + 1], r[x]);
    assert(gives(ls, x + 1, key, v));
    assert forall|l: int| x + 1 < l < r.len() + 1 implies !#[trigger] names(ls, l, key) by {
        let y = l - 1;
        assert(r[y].0 != key);
        assert(cut(ls[1 + y - none.len()], ' ') == Some(r[y]));
        if names(ls, l, key) {
            assert forall|k: int| 0 <= k < key.len() implies ls[l][k] != ' ' by {
                assert(ls[l].take(key.len() as int)[k] == key[k]);
                assert(key.contains(key[k]));
            }
            index_of_is(ls[l], ' ', 0, key.len());
            assert(r[y].0 == ls[l].take(key.len() as int));
        }
    }
}

/// The lines `ls` give the fields of `m` before line `end`, where two dashes end them unless the
/// lines end there; behind that come its page hashes, as many as the lines say.
pub open spec fn say_all(ls: Seq<Seq<char>>, end: int, m: ManifestView) -> bool {
    &&& 1 <= end <= ls.len()
    &&& end < ls.len() ==> ls[end] == "--"@ && m.page_hashes == ls.skip(end + 1)
    &&& end == ls.len() ==> m.page_hashes.len() == 0
    &&& says(ls, end, "id"@, m.id)
    &&& says(ls, end, "branch"@, m.branch)
    &&& exists|v: Seq<char>| #[trigger]
        says(ls, end, "pages"@, v) && number_upto(v, usize::MAX as nat) == Some(m.page_hashes.len())
    &&& exists|v: Seq<char>| #[trigger]
        says(ls, end, "created"@, v) && number_upto(v, u64::MAX as nat) == Some(m.created as nat)
    &&& exists|v: Seq<char>| #[trigger]
        says(ls, end, "pagesize"@, v) && number_upto(v, u32::MAX as nat) == Some(m.page_size as nat)
    &&& exists|v: Seq<char>| #[trigger]
        says(ls, end, "message"@, v) && m.message == unescaped(v)
    &&& exists|v: Seq<char>| #[trigger]
        says(ls, end, "parent"@, v) && m.parent == (if v == "-"@ {
            None
        } else {
            Some(v)
        })
}

/// A manifest that can be read says itself what was read of it. It starts with the line that names
/// the format; its fields are lines of a key and a value, and the last of a key counts; a line of
/// two dashes ends them; what follows are the page hashes, as many as the manifest says. All of
/// them are hashes, and the id is that of the state that they make up.
pub proof fn manifest_says_what_is_read(text: Seq<char>, m: ManifestView)
    requires
        manifest_in(text) == Ok::<ManifestView, ErrorView>(m),
    ensures
        lines(text)[0] == "litegraft snapshot 1"@,
        exists|end: int| #[trigger] say_all(lines(text), end, m),
        m.id == id_of(m.page_size, m.page_hashes),
        forall|i: int| 0 <= i < m.page_hashes.len() ==> is_hash(#[trigger] m.page_hashes[i]),
{
    reveal_strlit("id");
    reveal_strlit("branch");
    reveal_strlit("pages");
    reveal_strlit("created");
    reveal_strlit("pagesize");
    reveal_strlit("message");
    reveal_strlit("parent");
    reveal_strlit("--");
    let ls = lines(text);
    let (r, next) = fields_from(ls, 1, Seq::empty())->Ok_0;
    fields_are_lines(ls, 1, Seq::empty(), r, next);
    manifest_is_intact(text, m);
    assert(m.page_hashes == ls.skip(next as int));
    field_is_said(ls, r, next, "id"@, m.id);
    field_is_said(ls, r, next, "branch"@, m.branch);
    field_is_said(ls, r, next, "pages"@, field(r, "pages"@).unwrap());
    field_is_said(ls, r, next, "created"@, field(r, "created"@).unwrap());
    field_is_said(ls, r, next, "pagesize"@, field(r, "pagesize"@).unwrap());
    field_is_said(ls, r, next, "message"@, field(r, "message"@).unwrap());
    field_is_said(ls, r, next, "parent"@, field(r, "parent"@).unwrap());
    assert(say_all(ls, r.len() as int + 1, m));
}

/// The id of a state is the hash of its description: a line that names the format, a line with the
/// page size, and a line for each page with its hash, in the order of the pages.
pub proof fn id_hashes_the_state_line_by_line(size: u32, hashes: Seq<Seq<char>>, h: Seq<char>)
    ensures
        id_of(size, hashes) == hex_sha256(encode_utf8(state_text(size, hashes))),
        state_text(size, Seq::empty()) == "litegraft-state 1\n"@ + dec(size as nat).push('\n'),
        state_text(size, hashes.push(h)) == (state_text(size, hashes) + h).push('\n'),
{
    reveal_strlit("litegraft-state 1");
    reveal_strlit("litegraft-state 1\n");
    reveal_with_fuel(unlines, 3);
    let none = Seq::<Seq<char>>::empty();
    let two = seq!["litegraft-state 1"@, dec(size as nat)];
    assert(two + none =~= two);
    assert(two.drop_last() =~= seq!["litegraft-state 1"@]);
    assert(two.drop_last().drop_last() =~= none);
    assert((two + hashes.push(h)).drop_last() =~= two + hashes);
    assert((two + hashes.push(h)).last() == h);
    assert(state_text(size, none) =~= "litegraft-state 1\n"@ + dec(size as nat).push('\n'));
}

} // verus!
