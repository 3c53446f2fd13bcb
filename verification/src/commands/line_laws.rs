//! What the commands print: with `--json` objects of named values, and lines without.

use vstd::prelude::*;

use crate::calendar::utc_text;
use crate::commands::branches::branch_json;
use crate::commands::branches::checkout_line;
use crate::commands::branches::fork_lines;
use crate::commands::branches::status_json;
use crate::commands::branches::status_lines;
use crate::commands::branches::StatusView;
use crate::commands::compare::delta_json;
use crate::commands::compare::diff_lines;
use crate::commands::compare::owner_json;
use crate::commands::compare::owner_line;
use crate::commands::compare::owner_width;
use crate::commands::compare::table_json;
use crate::commands::compare::SideView;
use crate::commands::snaps::log_json;
use crate::commands::snaps::snap_json;
use crate::commands::upkeep::at_most_u64;
use crate::commands::upkeep::gc_lines;
use crate::commands::upkeep::verify_lines;
use crate::commands::upkeep::GcCounts;
use crate::commands::upkeep::VerifyCounts;
use crate::diff::change_label;
use crate::diff::DiffReportView;
use crate::diff::OwnerDeltaView;
use crate::diff::PageDelta;
use crate::manifest::ManifestView;
use crate::render::json;
use crate::render::json_or_null;
use crate::render::truth;
use crate::snapshot::SnapOutcomeView;
use crate::store::HeadView;
use crate::tally::RowView;
use crate::text::dec;

verus! {

/// The member `key` with the value `v` of an object.
pub open spec fn member(key: Seq<char>, v: Seq<char>) -> Seq<char> {
    seq!['"'] + key + seq!['"', ':'] + v
}

/// The members of an object, without the closing brace.
pub open spec fn members(fields: Seq<(Seq<char>, Seq<char>)>) -> Seq<char>
    decreases fields.len(),
{
    if fields.len() == 0 {
        Seq::empty()
    } else {
        members(fields.drop_last()) + (if fields.len() == 1 {
            seq!['{']
        } else {
            seq![',']
        }) + member(fields.last().0, fields.last().1)
    }
}

/// The object with these members, in this order.
pub open spec fn object(fields: Seq<(Seq<char>, Seq<char>)>) -> Seq<char> {
    members(fields).push('}')
}

proof fn first_member(lit: Seq<char>, key: Seq<char>, v: Seq<char>)
    requires
        lit =~= seq!['{', '"'] + key + seq!['"', ':'],
    ensures
        lit + v == members(seq![(key, v)]),
{
    reveal_with_fuel(members, 2);
    let one = seq![(key, v)];
    assert(one.drop_last() =~= Seq::empty());
    assert(lit + v =~= members(one));
}

proof fn next_member(
    before: Seq<char>,
    fields: Seq<(Seq<char>, Seq<char>)>,
    lit: Seq<char>,
    key: Seq<char>,
    v: Seq<char>,
)
    requires
        before == members(fields),
        fields.len() > 0,
        lit =~= seq![',', '"'] + key + seq!['"', ':'],
    ensures
        before + lit + v == members(fields.push((key, v))),
{
    let all = fields.push((key, v));
    assert(all.drop_last() =~= fields);
    assert(before + lit + v =~= members(fields) + seq![','] + member(key, v));
}

proof fn closing(before: Seq<char>, fields: Seq<(Seq<char>, Seq<char>)>)
    requires
        before == members(fields),
    ensures
        before + "}"@ == object(fields),
{
    reveal_strlit("}");
    assert(before + "}"@ =~= before.push('}'));
}

/// The status is an object with these members.
pub proof fn status_is_an_object(v: StatusView)
    ensures
        status_json(v) == object(
            seq![
                ("db"@, json(v.db)),
                ("branch"@, json(v.branch)),
                ("head"@, json_or_null(v.head)),
                ("pages"@, dec(v.pages)),
                ("page_size"@, dec(v.page_size as nat)),
                ("dirty"@, truth(v.dirty)),
                ("pages_changed"@, dec(v.pages_changed as nat)),
            ],
        ),
{
    reveal_strlit("db");
    reveal_strlit("branch");
    reveal_strlit("head");
    reveal_strlit("pages");
    reveal_strlit("page_size");
    reveal_strlit("dirty");
    reveal_strlit("pages_changed");
    reveal_strlit("{\"db\":");
    reveal_strlit(",\"branch\":");
    reveal_strlit(",\"head\":");
    reveal_strlit(",\"pages\":");
    reveal_strlit(",\"page_size\":");
    reveal_strlit(",\"dirty\":");
    reveal_strlit(",\"pages_changed\":");
    first_member("{\"db\":"@, "db"@, json(v.db));
    let f = seq![("db"@, json(v.db))];
    let l = "{\"db\":"@ + json(v.db);
    next_member(l, f, ",\"branch\":"@, "branch"@, json(v.branch));
    let f = f.push(("branch"@, json(v.branch)));
    let l = l + ",\"branch\":"@ + json(v.branch);
    next_member(l, f, ",\"head\":"@, "head"@, json_or_null(v.head));
    let f = f.push(("head"@, json_or_null(v.head)));
    let l = l + ",\"head\":"@ + json_or_null(v.head);
    next_member(l, f, ",\"pages\":"@, "pages"@, dec(v.pages));
    let f = f.push(("pages"@, dec(v.pages)));
    let l = l + ",\"pages\":"@ + dec(v.pages);
    next_member(l, f, ",\"page_size\":"@, "page_size"@, dec(v.page_size as nat));
    let f = f.push(("page_size"@, dec(v.page_size as nat)));
    let l = l + ",\"page_size\":"@ + dec(v.page_size as nat);
    next_member(l, f, ",\"dirty\":"@, "dirty"@, truth(v.dirty));
    let f = f.push(("dirty"@, truth(v.dirty)));
    let l = l + ",\"dirty\":"@ + truth(v.dirty);
    next_member(l, f, ",\"pages_changed\":"@, "pages_changed"@, dec(v.pages_changed as nat));
    let f = f.push(("pages_changed"@, dec(v.pages_changed as nat)));
    let l = l + ",\"pages_changed\":"@ + dec(v.pages_changed as nat);
    closing(l, f);
    assert(f =~= seq![
        ("db"@, json(v.db)),
        ("branch"@, json(v.branch)),
        ("head"@, json_or_null(v.head)),
        ("pages"@, dec(v.pages)),
        ("page_size"@, dec(v.page_size as nat)),
        ("dirty"@, truth(v.dirty)),
        ("pages_changed"@, dec(v.pages_changed as nat)),
    ]);
}

/// What `snap` did is an object with these members.
pub proof fn snap_is_an_object(o: SnapOutcomeView, elapsed: Seq<char>)
    ensures
        snap_json(o, elapsed) == object(
            seq![
                ("id"@, json(o.id)),
                ("branch"@, json(o.branch)),
                ("pages"@, dec(o.pages as nat)),
                ("new_objects"@, dec(o.new_objects as nat)),
                ("dedup_pages"@, dec(o.dedup_pages as nat)),
                ("bytes_written"@, dec(o.bytes_written as nat)),
                ("elapsed_ms"@, elapsed),
                ("changed"@, truth(o.changed)),
            ],
        ),
{
    reveal_strlit("id");
    reveal_strlit("branch");
    reveal_strlit("pages");
    reveal_strlit("new_objects");
    reveal_strlit("dedup_pages");
    reveal_strlit("bytes_written");
    reveal_strlit("elapsed_ms");
    reveal_strlit("changed");
    reveal_strlit("{\"id\":");
    reveal_strlit(",\"branch\":");
    reveal_strlit(",\"pages\":");
    reveal_strlit(",\"new_objects\":");
    reveal_strlit(",\"dedup_pages\":");
    reveal_strlit(",\"bytes_written\":");
    reveal_strlit(",\"elapsed_ms\":");
    reveal_strlit(",\"changed\":");
    first_member("{\"id\":"@, "id"@, json(o.id));
    let f = seq![("id"@, json(o.id))];
    let l = "{\"id\":"@ + json(o.id);
    next_member(l, f, ",\"branch\":"@, "branch"@, json(o.branch));
    let f = f.push(("branch"@, json(o.branch)));
    let l = l + ",\"branch\":"@ + json(o.branch);
    next_member(l, f, ",\"pages\":"@, "pages"@, dec(o.pages as nat));
    let f = f.push(("pages"@, dec(o.pages as nat)));
    let l = l + ",\"pages\":"@ + dec(o.pages as nat);
    next_member(l, f, ",\"new_objects\":"@, "new_objects"@, dec(o.new_objects as nat));
    let f = f.push(("new_objects"@, dec(o.new_objects as nat)));
    let l = l + ",\"new_objects\":"@ + dec(o.new_objects as nat);
    next_member(l, f, ",\"dedup_pages\":"@, "dedup_pages"@, dec(o.dedup_pages as nat));
    let f = f.push(("dedup_pages"@, dec(o.dedup_pages as nat)));
    let l = l + ",\"dedup_pages\":"@ + dec(o.dedup_pages as nat);
    next_member(l, f, ",\"bytes_written\":"@, "bytes_written"@, dec(o.bytes_written as nat));
    let f = f.push(("bytes_written"@, dec(o.bytes_written as nat)));
    let l = l + ",\"bytes_written\":"@ + dec(o.bytes_written as nat);
    next_member(l, f, ",\"elapsed_ms\":"@, "elapsed_ms"@, elapsed);
    let f = f.push(("elapsed_ms"@, elapsed));
    let l = l + ",\"elapsed_ms\":"@ + elapsed;
    next_member(l, f, ",\"changed\":"@, "changed"@, truth(o.changed));
    let f = f.push(("changed"@, truth(o.changed)));
    let l = l + ",\"changed\":"@ + truth(o.changed);
    closing(l, f);
    assert(f =~= seq![
        ("id"@, json(o.id)),
        ("branch"@, json(o.branch)),
        ("pages"@, dec(o.pages as nat)),
        ("new_objects"@, dec(o.new_objects as nat)),
        ("dedup_pages"@, dec(o.dedup_pages as nat)),
        ("bytes_written"@, dec(o.bytes_written as nat)),
        ("elapsed_ms"@, elapsed),
        ("changed"@, truth(o.changed)),
    ]);
}

/// A snapshot in the log is an object with these members.
pub proof fn log_entry_is_an_object(m: ManifestView)
    ensures
        log_json(m) == object(
            seq![
                ("id"@, json(m.id)),
                ("parent"@, json_or_null(m.parent)),
                ("branch"@, json(m.branch)),
                ("created"@, dec(m.created as nat)),
                ("created_utc"@, json(utc_text(m.created as nat))),
                ("pages"@, dec((m.page_hashes.len() as u32) as nat)),
                ("message"@, json(m.message)),
            ],
        ),
{
    reveal_strlit("id");
    reveal_strlit("parent");
    reveal_strlit("branch");
    reveal_strlit("created");
    reveal_strlit("created_utc");
    reveal_strlit("pages");
    reveal_strlit("message");
    reveal_strlit("{\"id\":");
    reveal_strlit(",\"parent\":");
    reveal_strlit(",\"branch\":");
    reveal_strlit(",\"created\":");
    reveal_strlit(",\"created_utc\":");
    reveal_strlit(",\"pages\":");
    reveal_strlit(",\"message\":");
    first_member("{\"id\":"@, "id"@, json(m.id));
    let f = seq![("id"@, json(m.id))];
    let l = "{\"id\":"@ + json(m.id);
    next_member(l, f, ",\"parent\":"@, "parent"@, json_or_null(m.parent));
    let f = f.push(("parent"@, json_or_null(m.parent)));
    let l = l + ",\"parent\":"@ + json_or_null(m.parent);
    next_member(l, f, ",\"branch\":"@, "branch"@, json(m.branch));
    let f = f.push(("branch"@, json(m.branch)));
    let l = l + ",\"branch\":"@ + json(m.branch);
    next_member(l, f, ",\"created\":"@, "created"@, dec(m.created as nat));
    let f = f.push(("created"@, dec(m.created as nat)));
    let l = l + ",\"created\":"@ + dec(m.created as nat);
    next_member(l, f, ",\"created_utc\":"@, "created_utc"@, json(utc_text(m.created as nat)));
    let f = f.push(("created_utc"@, json(utc_text(m.created as nat))));
    let l = l + ",\"created_utc\":"@ + json(utc_text(m.created as nat));
    next_member(l, f, ",\"pages\":"@, "pages"@, dec((m.page_hashes.len() as u32) as nat));
    let f = f.push(("pages"@, dec((m.page_hashes.len() as u32) as nat)));
    let l = l + ",\"pages\":"@ + dec((m.page_hashes.len() as u32) as nat);
    next_member(l, f, ",\"message\":"@, "message"@, json(m.message));
    let f = f.push(("message"@, json(m.message)));
    let l = l + ",\"message\":"@ + json(m.message);
    closing(l, f);
    assert(f =~= seq![
        ("id"@, json(m.id)),
        ("parent"@, json_or_null(m.parent)),
        ("branch"@, json(m.branch)),
        ("created"@, dec(m.created as nat)),
        ("created_utc"@, json(utc_text(m.created as nat))),
        ("pages"@, dec((m.page_hashes.len() as u32) as nat)),
        ("message"@, json(m.message)),
    ]);
}

/// An owner in a diff is an object with these members.
pub proof fn diff_row_is_an_object(o: OwnerDeltaView)
    ensures
        owner_json(o) == object(
            seq![
                ("owner"@, json(o.owner)),
                ("changed"@, dec(o.changed as nat)),
                ("added"@, dec(o.added as nat)),
                ("removed"@, dec(o.removed as nat)),
            ],
        ),
{
    reveal_strlit("owner");
    reveal_strlit("changed");
    reveal_strlit("added");
    reveal_strlit("removed");
    reveal_strlit("{\"owner\":");
    reveal_strlit(",\"changed\":");
    reveal_strlit(",\"added\":");
    reveal_strlit(",\"removed\":");
    first_member("{\"owner\":"@, "owner"@, json(o.owner));
    let f = seq![("owner"@, json(o.owner))];
    let l = "{\"owner\":"@ + json(o.owner);
    next_member(l, f, ",\"changed\":"@, "changed"@, dec(o.changed as nat));
    let f = f.push(("changed"@, dec(o.changed as nat)));
    let l = l + ",\"changed\":"@ + dec(o.changed as nat);
    next_member(l, f, ",\"added\":"@, "added"@, dec(o.added as nat));
    let f = f.push(("added"@, dec(o.added as nat)));
    let l = l + ",\"added\":"@ + dec(o.added as nat);
    next_member(l, f, ",\"removed\":"@, "removed"@, dec(o.removed as nat));
    let f = f.push(("removed"@, dec(o.removed as nat)));
    let l = l + ",\"removed\":"@ + dec(o.removed as nat);
    closing(l, f);
    assert(f =~= seq![
        ("owner"@, json(o.owner)),
        ("changed"@, dec(o.changed as nat)),
        ("added"@, dec(o.added as nat)),
        ("removed"@, dec(o.removed as nat)),
    ]);
}

/// An owner in `tables` is an object with these members: its pages are those of all kinds, and
/// its bytes are what they take.
pub proof fn table_row_is_an_object(r: RowView, page_size: u32)
    ensures
        table_json(r, page_size) == object(
            seq![
                ("object"@, json(r.label)),
                ("pages"@, dec((r.first + r.second + r.third) as nat)),
                ("btree"@, dec(r.first as nat)),
                ("overflow"@, dec(r.second as nat)),
                ("bytes"@, dec((r.first + r.second + r.third) as nat * page_size as nat)),
            ],
        ),
{
    reveal_strlit("object");
    reveal_strlit("pages");
    reveal_strlit("btree");
    reveal_strlit("overflow");
    reveal_strlit("bytes");
    reveal_strlit("{\"object\":");
    reveal_strlit(",\"pages\":");
    reveal_strlit(",\"btree\":");
    reveal_strlit(",\"overflow\":");
    reveal_strlit(",\"bytes\":");
    first_member("{\"object\":"@, "object"@, json(r.label));
    let f = seq![("object"@, json(r.label))];
    let l = "{\"object\":"@ + json(r.label);
    next_member(l, f, ",\"pages\":"@, "pages"@, dec((r.first + r.second + r.third) as nat));
    let f = f.push(("pages"@, dec((r.first + r.second + r.third) as nat)));
    let l = l + ",\"pages\":"@ + dec((r.first + r.second + r.third) as nat);
    next_member(l, f, ",\"btree\":"@, "btree"@, dec(r.first as nat));
    let f = f.push(("btree"@, dec(r.first as nat)));
    let l = l + ",\"btree\":"@ + dec(r.first as nat);
    next_member(l, f, ",\"overflow\":"@, "overflow"@, dec(r.second as nat));
    let f = f.push(("overflow"@, dec(r.second as nat)));
    let l = l + ",\"overflow\":"@ + dec(r.second as nat);
    let bytes = dec((r.first + r.second + r.third) as nat * page_size as nat);
    next_member(l, f, ",\"bytes\":"@, "bytes"@, bytes);
    let f = f.push(("bytes"@, dec((r.first + r.second + r.third) as nat * page_size as nat)));
    let l = l + ",\"bytes\":"@ + dec((r.first + r.second + r.third) as nat * page_size as nat);
    closing(l, f);
    assert(f =~= seq![
        ("object"@, json(r.label)),
        ("pages"@, dec((r.first + r.second + r.third) as nat)),
        ("btree"@, dec(r.first as nat)),
        ("overflow"@, dec(r.second as nat)),
        ("bytes"@, dec((r.first + r.second + r.third) as nat * page_size as nat)),
    ]);
}

/// What `gc` counted is an object with these members.
pub proof fn gc_is_an_object(c: GcCounts)
    ensures
        gc_lines(c, true)[0] == object(
            seq![
                ("removed"@, dec(c.removed)),
                ("bytes_freed"@, dec(at_most_u64(c.freed))),
                ("kept"@, dec(c.kept)),
            ],
        ),
{
    reveal_strlit("removed");
    reveal_strlit("bytes_freed");
    reveal_strlit("kept");
    reveal_strlit("{\"removed\":");
    reveal_strlit(",\"bytes_freed\":");
    reveal_strlit(",\"kept\":");
    first_member("{\"removed\":"@, "removed"@, dec(c.removed));
    let f = seq![("removed"@, dec(c.removed))];
    let l = "{\"removed\":"@ + dec(c.removed);
    next_member(l, f, ",\"bytes_freed\":"@, "bytes_freed"@, dec(at_most_u64(c.freed)));
    let f = f.push(("bytes_freed"@, dec(at_most_u64(c.freed))));
    let l = l + ",\"bytes_freed\":"@ + dec(at_most_u64(c.freed));
    next_member(l, f, ",\"kept\":"@, "kept"@, dec(c.kept));
    let f = f.push(("kept"@, dec(c.kept)));
    let l = l + ",\"kept\":"@ + dec(c.kept);
    closing(l, f);
    assert(f =~= seq![
        ("removed"@, dec(c.removed)),
        ("bytes_freed"@, dec(at_most_u64(c.freed))),
        ("kept"@, dec(c.kept)),
    ]);
}

/// What `verify` counted is an object with these members; all is well where nothing is counted as
/// corrupt, missing or broken.
pub proof fn verify_is_an_object(c: VerifyCounts)
    ensures
        verify_lines(c, true)[0] == object(
            seq![
                ("objects"@, dec(c.objects)),
                ("corrupt"@, dec(c.corrupt)),
                ("snapshots"@, dec(c.snapshots)),
                ("missing"@, dec(c.missing)),
                ("bad_refs"@, dec(c.bad_refs)),
                ("ok"@, truth(c.corrupt == 0 && c.missing == 0 && c.bad_refs == 0)),
            ],
        ),
{
    reveal_strlit("objects");
    reveal_strlit("corrupt");
    reveal_strlit("snapshots");
    reveal_strlit("missing");
    reveal_strlit("bad_refs");
    reveal_strlit("ok");
    reveal_strlit("{\"objects\":");
    reveal_strlit(",\"corrupt\":");
    reveal_strlit(",\"snapshots\":");
    reveal_strlit(",\"missing\":");
    reveal_strlit(",\"bad_refs\":");
    reveal_strlit(",\"ok\":");
    first_member("{\"objects\":"@, "objects"@, dec(c.objects));
    let f = seq![("objects"@, dec(c.objects))];
    let l = "{\"objects\":"@ + dec(c.objects);
    next_member(l, f, ",\"corrupt\":"@, "corrupt"@, dec(c.corrupt));
    let f = f.push(("corrupt"@, dec(c.corrupt)));
    let l = l + ",\"corrupt\":"@ + dec(c.corrupt);
    next_member(l, f, ",\"snapshots\":"@, "snapshots"@, dec(c.snapshots));
    let f = f.push(("snapshots"@, dec(c.snapshots)));
    let l = l + ",\"snapshots\":"@ + dec(c.snapshots);
    next_member(l, f, ",\"missing\":"@, "missing"@, dec(c.missing));
    let f = f.push(("missing"@, dec(c.missing)));
    let l = l + ",\"missing\":"@ + dec(c.missing);
    next_member(l, f, ",\"bad_refs\":"@, "bad_refs"@, dec(c.bad_refs));
    let f = f.push(("bad_refs"@, dec(c.bad_refs)));
    let l = l + ",\"bad_refs\":"@ + dec(c.bad_refs);
    let ok = truth(c.corrupt == 0 && c.missing == 0 && c.bad_refs == 0);
    next_member(l, f, ",\"ok\":"@, "ok"@, ok);
    let f = f.push(("ok"@, truth(c.corrupt == 0 && c.missing == 0 && c.bad_refs == 0)));
    let l = l + ",\"ok\":"@ + truth(c.corrupt == 0 && c.missing == 0 && c.bad_refs == 0);
    closing(l, f);
    assert(f =~= seq![
        ("objects"@, dec(c.objects)),
        ("corrupt"@, dec(c.corrupt)),
        ("snapshots"@, dec(c.snapshots)),
        ("missing"@, dec(c.missing)),
        ("bad_refs"@, dec(c.bad_refs)),
        ("ok"@, truth(c.corrupt == 0 && c.missing == 0 && c.bad_refs == 0)),
    ]);
}

/// The branch that HEAD is on, as a JSON value.
pub open spec fn branch_or_null(head: HeadView) -> Seq<char> {
    match head {
        HeadView::Branch(name) => json(name),
        HeadView::Detached(_) => "null"@,
    }
}

/// A branch that was made is an object with these members.
pub proof fn new_branch_is_an_object(db: Seq<char>, name: Seq<char>, id: Seq<char>)
    ensures
        fork_lines(db, name, id, true)[0] == object(
            seq![
                ("branch"@, json(name)),
                ("id"@, json(id)),
            ],
        ),
{
    reveal_strlit("branch");
    reveal_strlit("id");
    reveal_strlit("{\"branch\":");
    reveal_strlit(",\"id\":");
    first_member("{\"branch\":"@, "branch"@, json(name));
    let f = seq![("branch"@, json(name))];
    let l = "{\"branch\":"@ + json(name);
    next_member(l, f, ",\"id\":"@, "id"@, json(id));
    let f = f.push(("id"@, json(id)));
    let l = l + ",\"id\":"@ + json(id);
    closing(l, f);
    assert(f =~= seq![
        ("branch"@, json(name)),
        ("id"@, json(id)),
    ]);
}

/// A branch in the list of branches is an object with these members.
pub proof fn listed_branch_is_an_object(name: Seq<char>, id: Seq<char>)
    ensures
        branch_json((name, id)) == object(
            seq![
                ("name"@, json(name)),
                ("id"@, json(id)),
            ],
        ),
{
    reveal_strlit("name");
    reveal_strlit("id");
    reveal_strlit("{\"name\":");
    reveal_strlit(",\"id\":");
    first_member("{\"name\":"@, "name"@, json(name));
    let f = seq![("name"@, json(name))];
    let l = "{\"name\":"@ + json(name);
    next_member(l, f, ",\"id\":"@, "id"@, json(id));
    let f = f.push(("id"@, json(id)));
    let l = l + ",\"id\":"@ + json(id);
    closing(l, f);
    assert(f =~= seq![
        ("name"@, json(name)),
        ("id"@, json(id)),
    ]);
}

/// A page of a diff is an object with these members.
pub proof fn diff_page_is_an_object(d: PageDelta)
    ensures
        delta_json(d) == object(
            seq![
                ("pgno"@, dec(d.pgno as nat)),
                ("change"@, json(change_label(d.change))),
            ],
        ),
{
    reveal_strlit("pgno");
    reveal_strlit("change");
    reveal_strlit("{\"pgno\":");
    reveal_strlit(",\"change\":");
    first_member("{\"pgno\":"@, "pgno"@, dec(d.pgno as nat));
    let f = seq![("pgno"@, dec(d.pgno as nat))];
    let l = "{\"pgno\":"@ + dec(d.pgno as nat);
    next_member(l, f, ",\"change\":"@, "change"@, json(change_label(d.change)));
    let f = f.push(("change"@, json(change_label(d.change))));
    let l = l + ",\"change\":"@ + json(change_label(d.change));
    closing(l, f);
    assert(f =~= seq![
        ("pgno"@, dec(d.pgno as nat)),
        ("change"@, json(change_label(d.change))),
    ]);
}

/// A checkout is an object with these members; a detached HEAD is on no branch.
pub proof fn checkout_is_an_object(head: HeadView, db: Seq<char>, id: Seq<char>, pages: u32)
    ensures
        checkout_line(head, db, id, pages, true) == object(
            seq![
                ("branch"@, branch_or_null(head)),
                ("id"@, json(id)),
                ("pages"@, dec(pages as nat)),
            ],
        ),
{
    reveal_strlit("branch");
    reveal_strlit("id");
    reveal_strlit("pages");
    reveal_strlit("{\"branch\":");
    reveal_strlit(",\"id\":");
    reveal_strlit(",\"pages\":");
    first_member("{\"branch\":"@, "branch"@, branch_or_null(head));
    let f = seq![("branch"@, branch_or_null(head))];
    let l = "{\"branch\":"@ + branch_or_null(head);
    next_member(l, f, ",\"id\":"@, "id"@, json(id));
    let f = f.push(("id"@, json(id)));
    let l = l + ",\"id\":"@ + json(id);
    next_member(l, f, ",\"pages\":"@, "pages"@, dec(pages as nat));
    let f = f.push(("pages"@, dec(pages as nat)));
    let l = l + ",\"pages\":"@ + dec(pages as nat);
    closing(l, f);
    assert(f =~= seq![
        ("branch"@, branch_or_null(head)),
        ("id"@, json(id)),
        ("pages"@, dec(pages as nat)),
    ]);
}

/// Without `--json`, the last line of the status says `clean` exactly where the file is, and the
/// first lines name the file and the branch.
pub proof fn status_says_clean_where_it_is(v: StatusView)
    ensures
        status_lines(v, false).len() == 4,
        status_lines(v, false)[3] == "state:   clean"@ <==> !v.dirty,
        v.dirty ==> status_lines(v, false)[3] == "state:   dirty ("@ + dec(v.pages_changed as nat)
            + " page(s) differ; see `litegraft diff`)"@,
        status_lines(v, false)[1] == "branch:  "@ + v.branch,
        status_lines(v, false)[2] == "head:    (no snapshots yet)"@ <== v.head is None,
{
    reveal_strlit("state:   clean");
    reveal_strlit("state:   dirty (");
    if v.dirty {
        let line = status_lines(v, false)[3];
        assert(line[9] == 'd' && "state:   clean"@[9] == 'c');
    }
}

/// Without `--json`, the last line of `verify` says `OK` exactly where nothing is counted as
/// corrupt, missing or broken.
pub proof fn verify_says_ok_where_it_is(c: VerifyCounts)
    ensures
        verify_lines(c, false).len() == 2,
        verify_lines(c, false)[1] == "verify OK"@ <==> c.corrupt == 0 && c.missing == 0
            && c.bad_refs == 0,
        verify_lines(c, false)[1] == "verify FAILED"@ <==> c.corrupt > 0 || c.missing > 0
            || c.bad_refs > 0,
{
    reveal_strlit("verify OK");
    reveal_strlit("verify FAILED");
    assert("verify OK"@.len() == 9 && "verify FAILED"@.len() == 13);
}

/// A diff says that there is no difference exactly where no page differs, and otherwise shows a
/// line for each owner, in order, between its title and its totals.
pub proof fn diff_shows_every_owner(old: SideView, new: SideView, r: DiffReportView, i: int)
    requires
        0 <= i < r.by_owner.len(),
    ensures
        r.deltas.len() == 0 ==> diff_lines(old, new, r, false).len() == 2,
        r.deltas.len() > 0 ==> diff_lines(old, new, r, false).len() == r.by_owner.len() + 2
            && diff_lines(old, new, r, false)[i + 1] == owner_line(
            r.by_owner[i],
            owner_width(r.by_owner),
        ),
{
}

} // verus!
