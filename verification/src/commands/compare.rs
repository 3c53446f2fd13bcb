//! Comparing states, and breaking one down by owner.

use vstd::prelude::*;

use crate::args::Args;
use crate::args::ArgsView;
use crate::btree::owners::attribute_pages;
use crate::btree::owners::owner_views;
use crate::btree::owners::owners;
use crate::btree::owners::owners_cover_the_database;
use crate::btree::owners::PageKind;
use crate::btree::owners::PageOwnerView;
use crate::cli::add_line;
use crate::cli::one_line;
use crate::cli::open_working;
use crate::cli::working_header;
use crate::cli::Working;
use crate::commands::branches::working_hashes;
use crate::dbfile::file_source;
use crate::dbfile::DbFile;
use crate::dbfile::DbHeader;
use crate::dbfile::PageSource;
use crate::dbfile::Pages;
use crate::diff::change_label;
use crate::diff::compared;
use crate::diff::count_change;
use crate::diff::diff_sources;
use crate::diff::label_of;
use crate::diff::owner_label;
use crate::diff::rollup_views;
use crate::diff::Change;
use crate::diff::DiffReport;
use crate::diff::DiffReportView;
use crate::diff::OwnerDelta;
use crate::diff::OwnerDeltaView;
use crate::diff::PageDelta;
use crate::error::refused;
use crate::error::Error;
use crate::error::ErrorView;
use crate::numerals::align_left;
use crate::numerals::align_right;
use crate::numerals::left_aligned;
use crate::numerals::right_aligned;
use crate::render::bytes_text;
use crate::render::human_bytes;
use crate::render::join;
use crate::render::join_strings;
use crate::render::json;
use crate::render::json_str;
use crate::render::short;
use crate::render::short_id;
use crate::snapshot::guard_refusal;
use crate::snapshot::guard_sidecars;
use crate::snapshot::snapshot_header;
use crate::snapshot::snapshot_pages;
use crate::snapshot::state_of_file;
use crate::snapshot::SnapshotSource;
use crate::store::branch_head_of;
use crate::store::byte_len;
use crate::store::head_of;
use crate::store::manifest_of;
use crate::store::resolved;
use crate::store::Head;
use crate::store::HeadView;
use crate::store::Store;
use crate::store::StoreView;
use crate::tally::is_rollup;
use crate::tally::roll_up;
use crate::tally::rollup;
use crate::tally::row_of;
use crate::tally::row_views;
use crate::tally::tags_of;
use crate::tally::tally_bound;
use crate::tally::Row;
use crate::tally::RowView;
use crate::tally::Slot;
use crate::tally::Tag;
use crate::text::dec;
use crate::text::decimal;
use crate::text::quote;
use crate::text::quoted;
use crate::text::same_text;
use crate::text::texts;

verus! {

// ---------------------------------------------------------------------------------------
// The sides of a diff
// ---------------------------------------------------------------------------------------
/// One side of a diff: the working file, or a snapshot.
#[derive(Debug, Clone, PartialEq, Eq)]
pub enum Side {
    Working,
    Snap(String),
}

/// The mathematical value of a [`Side`].
pub enum SideView {
    Working,
    Snap(Seq<char>),
}

impl View for Side {
    type V = SideView;

    open spec fn view(&self) -> SideView {
        match self {
            Side::Working => SideView::Working,
            Side::Snap(id) => SideView::Snap(id@),
        }
    }
}

/// The side that `name` stands for: `@` is the working file.
pub open spec fn side_of(s: StoreView, name: Seq<char>) -> Result<SideView, ErrorView> {
    if name == "@"@ {
        Ok(SideView::Working)
    } else {
        match resolved(s, name) {
            Err(e) => Err(e),
            Ok(id) => Ok(SideView::Snap(id)),
        }
    }
}

/// How a side is called in human output.
pub open spec fn side_label(side: SideView) -> Seq<char> {
    match side {
        SideView::Working => "@ (working file)"@,
        SideView::Snap(id) => short_id(id),
    }
}

impl Side {
    /// The side that `name` stands for.
    pub fn parse(store: &Store, name: &str) -> (r: Result<Side, Error>)
        requires
            store.wf(),
        ensures
            match r {
                Ok(side) => side_of(store@, name@) == Ok::<SideView, ErrorView>(side@),
                Err(e) => side_of(store@, name@) == Err::<SideView, ErrorView>(e@),
            },
    {
        if same_text(name, "@") {
            Ok(Side::Working)
        } else {
            match store.resolve(name) {
                Ok(id) => Ok(Side::Snap(id)),
                Err(e) => Err(e),
            }
        }
    }

    /// How the side is called in human output.
    pub fn label(&self) -> (s: String)
        ensures
            s@ == side_label(self@),
    {
        match self {
            Side::Working => "@ (working file)".to_string(),
            Side::Snap(id) => short(id.as_str()),
        }
    }
}

/// The snapshot that a diff without references starts from: the current head.
pub open spec fn diff_base(s: StoreView) -> Result<SideView, ErrorView> {
    match head_of(s) {
        Err(e) => Err(e),
        Ok(HeadView::Detached(id)) => Ok(SideView::Snap(id)),
        Ok(HeadView::Branch(name)) => match branch_head_of(s, name) {
            Err(e) => Err(e),
            Ok(Some(id)) => Ok(SideView::Snap(id)),
            Ok(None) => Err(
                refused(
                    "branch "@ + quoted(name)
                        + " has no snapshots yet; nothing to diff against"@,
                ),
            ),
        },
    }
}

/// The two sides of a diff. The first word names the database, the others name sides; what is
/// not named is the current head and the working file.
pub open spec fn diff_sides(s: StoreView, words: Seq<Seq<char>>) -> Result<
    (SideView, SideView),
    ErrorView,
> {
    if words.len() > 3 {
        Err(refused("diff takes at most two refs"@))
    } else if words.len() <= 1 {
        match diff_base(s) {
            Err(e) => Err(e),
            Ok(side) => Ok((side, SideView::Working)),
        }
    } else {
        match side_of(s, words[1]) {
            Err(e) => Err(e),
            Ok(a) => if words.len() == 2 {
                Ok((a, SideView::Working))
            } else {
                match side_of(s, words[2]) {
                    Err(e) => Err(e),
                    Ok(b) => Ok((a, b)),
                }
            },
        }
    }
}

fn find_diff_base(store: &Store) -> (r: Result<Side, Error>)
    requires
        store.wf(),
    ensures
        match r {
            Ok(side) => diff_base(store@) == Ok::<SideView, ErrorView>(side@),
            Err(e) => diff_base(store@) == Err::<SideView, ErrorView>(e@),
        },
{
    match store.head() {
        Err(e) => Err(e),
        Ok(Head::Detached(id)) => Ok(Side::Snap(id)),
        Ok(Head::Branch(name)) => match store.branch_head(name.as_str()) {
            Err(e) => Err(e),
            Ok(Some(id)) => Ok(Side::Snap(id)),
            Ok(None) => {
                let mut m = "branch ".to_string();
                m.push_str(quote(name.as_str()).as_str());
                m.push_str(" has no snapshots yet; nothing to diff against");
                Err(Error::refused(m))
            },
        },
    }
}

/// Finds the two sides of a diff.
pub fn find_sides(store: &Store, words: &Vec<String>) -> (r: Result<(Side, Side), Error>)
    requires
        store.wf(),
    ensures
        match r {
            Ok((a, b)) => diff_sides(store@, texts(words@)) == Ok::<
                (SideView, SideView),
                ErrorView,
            >((a@, b@)),
            Err(e) => diff_sides(store@, texts(words@)) == Err::<(SideView, SideView), ErrorView>(
                e@,
            ),
        },
{
    if words.len() > 3 {
        return Err(Error::refused("diff takes at most two refs".to_string()));
    }
    if words.len() <= 1 {
        return match find_diff_base(store) {
            Ok(side) => Ok((side, Side::Working)),
            Err(e) => Err(e),
        };
    }
    assert(texts(words@)[1] == words@[1]@);
    let a = match Side::parse(store, words[1].as_str()) {
        Ok(a) => a,
        Err(e) => {
            return Err(e);
        },
    };
    if words.len() == 2 {
        return Ok((a, Side::Working));
    }
    assert(texts(words@)[2] == words@[2]@);
    match Side::parse(store, words[2].as_str()) {
        Ok(b) => Ok((a, b)),
        Err(e) => Err(e),
    }
}

/// A live file or a snapshot.
pub enum Source<'a> {
    File(DbFile),
    Snap(SnapshotSource<'a>),
}

impl<'a> PageSource for Source<'a> {
    open spec fn wf(&self) -> bool {
        match self {
            Source::File(f) => f.wf(),
            Source::Snap(s) => s.wf(),
        }
    }

    open spec fn pages(&self) -> Pages {
        match self {
            Source::File(f) => f.pages(),
            Source::Snap(s) => s.pages(),
        }
    }

    open spec fn reads(&self) -> Seq<u32> {
        match self {
            Source::File(f) => f.reads(),
            Source::Snap(s) => s.reads(),
        }
    }

    fn header(&self) -> (h: &DbHeader) {
        match self {
            Source::File(f) => f.header(),
            Source::Snap(s) => s.header(),
        }
    }

    fn page(&mut self, pgno: u32) -> (r: Result<Vec<u8>, Error>) {
        match self {
            Source::File(f) => f.page(pgno),
            Source::Snap(s) => s.page(pgno),
        }
    }
}

/// The page hashes and the pages of one side, or why it cannot be read.
pub open spec fn side_state(s: StoreView, w: Working, allow_wal: bool, side: SideView) -> Result<
    (Seq<Seq<char>>, Pages),
    ErrorView,
> {
    match side {
        SideView::Working => match working_header(w) {
            Err(e) => Err(e),
            Ok(h) => match guard_refusal(w.path@, h.page_size, allow_wal, w.beside) {
                Some(e) => Err(e),
                None => Ok((working_hashes(w, h), file_source(w.content->Ok_0@, h))),
            },
        },
        SideView::Snap(id) => match manifest_of(s, id) {
            Err(e) => Err(e),
            Ok(m) => match snapshot_header(s, id, m) {
                Err(e) => Err(e),
                Ok(h) => Ok((m.page_hashes, snapshot_pages(s, m, h))),
            },
        },
    }
}

fn copy_strings(v: &Vec<String>) -> (r: Vec<String>)
    ensures
        texts(r@) == texts(v@),
{
    let mut r: Vec<String> = Vec::new();
    let ghost all = texts(v@);
    let mut i: usize = 0;
    assert(texts(r@) =~= all.take(0));
    while i < v.len()
        invariant
            i <= v@.len(),
            all == texts(v@),
            texts(r@) == all.take(i as int),
        decreases v@.len() - i,
    {
        add_line(&mut r, v[i].clone());
        assert(all.take(i + 1) =~= all.take(i as int).push(all[i as int]));
        i = i + 1;
    }
    assert(all.take(i as int) =~= all);
    r
}

/// Opens one side: its page hashes, and a source of its pages.
pub fn open_side<'a>(store: &'a Store, w: &Working, allow_wal: bool, side: &Side) -> (r: Result<
    (Vec<String>, Source<'a>),
    Error,
>)
    requires
        store.wf(),
    ensures
        match r {
            Ok((hashes, src)) => src.wf() && side_state(store@, *w, allow_wal, side@) == Ok::<
                (Seq<Seq<char>>, Pages),
                ErrorView,
            >((texts(hashes@), src.pages())),
            Err(e) => side_state(store@, *w, allow_wal, side@) == Err::<
                (Seq<Seq<char>>, Pages),
                ErrorView,
            >(e@),
        },
{
    match side {
        Side::Working => {
            let mut db = match open_working(w) {
                Ok(db) => db,
                Err(e) => {
                    return Err(e);
                },
            };
            let st = state_of_file(&mut db);
            if let Err(e) = guard_sidecars(w.path.as_str(), st.page_size, allow_wal, &w.beside) {
                return Err(e);
            }
            Ok((st.page_hashes, Source::File(db)))
        },
        Side::Snap(id) => match SnapshotSource::open(store, id.as_str()) {
            Ok(src) => {
                let hashes = copy_strings(&src.manifest().page_hashes);
                Ok((hashes, Source::Snap(src)))
            },
            Err(e) => Err(e),
        },
    }
}

// ---------------------------------------------------------------------------------------
// diff
// ---------------------------------------------------------------------------------------
/// A side in `diff --json`.
pub open spec fn side_json(side: SideView) -> Seq<char> {
    match side {
        SideView::Working => "\"@\""@,
        SideView::Snap(id) => json(id),
    }
}

/// An owner in `diff --json`.
pub open spec fn owner_json(o: OwnerDeltaView) -> Seq<char> {
    "{\"owner\":"@ + json(o.owner) + ",\"changed\":"@ + dec(o.changed as nat) + ",\"added\":"@
        + dec(o.added as nat) + ",\"removed\":"@ + dec(o.removed as nat) + "}"@
}

/// A page in `diff --json`.
pub open spec fn delta_json(d: PageDelta) -> Seq<char> {
    "{\"pgno\":"@ + dec(d.pgno as nat) + ",\"change\":"@ + json(change_label(d.change)) + "}"@
}

/// What `diff` prints with `--json`.
pub open spec fn diff_json(old: SideView, new: SideView, r: DiffReportView) -> Seq<char> {
    "{\"old\":"@ + side_json(old) + ",\"new\":"@ + side_json(new) + ",\"page_size\":"@ + dec(
        r.page_size as nat,
    ) + ",\"changed\":"@ + dec(count_change(r.deltas, Change::Changed) as u32 as nat)
        + ",\"added\":"@ + dec(count_change(r.deltas, Change::Added) as u32 as nat)
        + ",\"removed\":"@ + dec(count_change(r.deltas, Change::Removed) as u32 as nat)
        + ",\"owners\":["@ + join(
        Seq::new(r.by_owner.len(), |i: int| owner_json(r.by_owner[i])),
        ","@,
    ) + "],\"pages\":["@ + join(
        Seq::new(r.deltas.len(), |i: int| delta_json(r.deltas[i])),
        ","@,
    ) + "]}"@
}

/// The length of the longest owner, in bytes.
pub open spec fn owner_width(rows: Seq<OwnerDeltaView>) -> nat
    decreases rows.len(),
{
    if rows.len() == 0 {
        0
    } else {
        let before = owner_width(rows.drop_last());
        if byte_len(rows.last().owner) > before {
            byte_len(rows.last().owner)
        } else {
            before
        }
    }
}

/// A count and what it counts, if it is not zero.
pub open spec fn part(n: u32, what: Seq<char>) -> Seq<Seq<char>> {
    if n > 0 {
        seq![dec(n as nat) + what]
    } else {
        seq![]
    }
}

/// What changed of an owner.
pub open spec fn owner_parts(o: OwnerDeltaView) -> Seq<Seq<char>> {
    part(o.changed, " changed"@) + part(o.added, " added"@) + part(o.removed, " removed"@)
}

/// An owner in `diff`.
pub open spec fn owner_line(o: OwnerDeltaView, width: nat) -> Seq<char> {
    "  "@ + left_aligned(o.owner, width) + "  "@ + join(owner_parts(o), ", "@)
}

/// The last line of `diff`.
pub open spec fn diff_total(r: DiffReportView) -> Seq<char> {
    dec(count_change(r.deltas, Change::Changed) as u32 as nat) + " changed, "@ + dec(
        count_change(r.deltas, Change::Added) as u32 as nat,
    ) + " added, "@ + dec(count_change(r.deltas, Change::Removed) as u32 as nat) + " removed ("@
        + dec(r.old_pages as nat) + " -> "@ + dec(r.new_pages as nat) + " pages x "@ + dec(
        r.page_size as nat,
    ) + " bytes)"@
}

/// What `diff` prints.
pub open spec fn diff_lines(
    old: SideView,
    new: SideView,
    r: DiffReportView,
    as_json: bool,
) -> Seq<Seq<char>> {
    let title = "diff "@ + side_label(old) + " -> "@ + side_label(new);
    let width = owner_width(r.by_owner);
    if as_json {
        seq![diff_json(old, new, r)]
    } else if r.deltas.len() == 0 {
        seq![title, "  no page-level differences ("@ + dec(r.new_pages as nat) + " pages)"@]
    } else {
        (seq![title] + Seq::new(
            r.by_owner.len(),
            |i: int| owner_line(r.by_owner[i], width),
        )).push(diff_total(r))
    }
}

/// What `diff` prints, or why it cannot.
pub open spec fn diff_output(s: StoreView, w: Working, a: ArgsView) -> Result<
    Seq<Seq<char>>,
    ErrorView,
> {
    match diff_sides(s, a.positional) {
        Err(e) => Err(e),
        Ok((old, new)) => match side_state(s, w, a.allow_wal, old) {
            Err(e) => Err(e),
            Ok((old_hashes, old_pages)) => match side_state(s, w, a.allow_wal, new) {
                Err(e) => Err(e),
                Ok((new_hashes, new_pages)) => match compared(
                    old_pages,
                    new_pages,
                    old_hashes,
                    new_hashes,
                ) {
                    Err(e) => Err(e),
                    Ok(r) => Ok(diff_lines(old, new, r, a.json)),
                },
            },
        },
    }
}

fn push_side_json(s: &mut String, side: &Side)
    ensures
        final(s)@ == old(s)@ + side_json(side@),
{
    match side {
        Side::Working => {
            s.push_str("\"@\"");
        },
        Side::Snap(id) => {
            s.push_str(json_str(id.as_str()).as_str());
        },
    }
}

fn owners_json(rows: &Vec<OwnerDelta>) -> (items: Vec<String>)
    ensures
        texts(items@) == Seq::new(rows@.len(), |i: int| owner_json(rollup_views(rows@)[i])),
{
    let ghost wanted = Seq::new(rows@.len(), |i: int| owner_json(rollup_views(rows@)[i]));
    let mut items: Vec<String> = Vec::new();
    let mut i: usize = 0;
    assert(texts(items@) =~= wanted.take(0));
    while i < rows.len()
        invariant
            i <= rows@.len(),
            wanted == Seq::new(rows@.len(), |i: int| owner_json(rollup_views(rows@)[i])),
            texts(items@) == wanted.take(i as int),
        decreases rows@.len() - i,
    {
        let o = &rows[i];
        let mut s = "{\"owner\":".to_string();
        s.push_str(json_str(o.owner.as_str()).as_str());
        s.push_str(",\"changed\":");
        s.push_str(decimal(o.changed as u64).as_str());
        s.push_str(",\"added\":");
        s.push_str(decimal(o.added as u64).as_str());
        s.push_str(",\"removed\":");
        s.push_str(decimal(o.removed as u64).as_str());
        s.push_str("}");
        assert(s@ == wanted[i as int]);
        add_line(&mut items, s);
        assert(wanted.take(i + 1) =~= wanted.take(i as int).push(wanted[i as int]));
        i = i + 1;
    }
    assert(wanted.take(i as int) =~= wanted);
    items
}

fn deltas_json(ds: &Vec<PageDelta>) -> (items: Vec<String>)
    ensures
        texts(items@) == Seq::new(ds@.len(), |i: int| delta_json(ds@[i])),
{
    let ghost wanted = Seq::new(ds@.len(), |i: int| delta_json(ds@[i]));
    let mut items: Vec<String> = Vec::new();
    let mut i: usize = 0;
    assert(texts(items@) =~= wanted.take(0));
    while i < ds.len()
        invariant
            i <= ds@.len(),
            wanted == Seq::new(ds@.len(), |i: int| delta_json(ds@[i])),
            texts(items@) == wanted.take(i as int),
        decreases ds@.len() - i,
    {
        let mut s = "{\"pgno\":".to_string();
        s.push_str(decimal(ds[i].pgno as u64).as_str());
        s.push_str(",\"change\":");
        s.push_str(json_str(ds[i].change.label()).as_str());
        s.push_str("}");
        assert(s@ == wanted[i as int]);
        add_line(&mut items, s);
        assert(wanted.take(i + 1) =~= wanted.take(i as int).push(wanted[i as int]));
        i = i + 1;
    }
    assert(wanted.take(i as int) =~= wanted);
    items
}

fn print_diff_json(old_side: &Side, new_side: &Side, r: &DiffReport) -> (s: String)
    ensures
        s@ == diff_json(old_side@, new_side@, r@),
{
    let mut s = "{\"old\":".to_string();
    push_side_json(&mut s, old_side);
    s.push_str(",\"new\":");
    push_side_json(&mut s, new_side);
    s.push_str(",\"page_size\":");
    s.push_str(decimal(r.page_size as u64).as_str());
    s.push_str(",\"changed\":");
    s.push_str(decimal(r.total_changed() as u64).as_str());
    s.push_str(",\"added\":");
    s.push_str(decimal(r.total_added() as u64).as_str());
    s.push_str(",\"removed\":");
    s.push_str(decimal(r.total_removed() as u64).as_str());
    s.push_str(",\"owners\":[");
    let owners = owners_json(&r.by_owner);
    s.push_str(join_strings(&owners, ",").as_str());
    s.push_str("],\"pages\":[");
    let pages = deltas_json(&r.deltas);
    s.push_str(join_strings(&pages, ",").as_str());
    s.push_str("]}");
    proof {
        assert(texts(owners@) =~= Seq::new(
            r@.by_owner.len(),
            |i: int| owner_json(r@.by_owner[i]),
        ));
        assert(texts(pages@) =~= Seq::new(r@.deltas.len(), |i: int| delta_json(r@.deltas[i])));
    }
    s
}

fn widest_owner(rows: &Vec<OwnerDelta>) -> (n: usize)
    ensures
        n == owner_width(rollup_views(rows@)),
{
    let ghost vs = rollup_views(rows@);
    let mut n: usize = 0;
    let mut i: usize = 0;
    assert(vs.take(0) =~= Seq::empty());
    while i < rows.len()
        invariant
            i <= rows@.len(),
            vs == rollup_views(rows@),
            n == owner_width(vs.take(i as int)),
        decreases rows@.len() - i,
    {
        let len: usize = rows[i].owner.as_str().as_bytes().len();
        assert(vs.take(i + 1).drop_last() =~= vs.take(i as int));
        assert(vs.take(i + 1).last() == rows@[i as int]@);
        if len > n {
            n = len;
        }
        i = i + 1;
    }
    assert(vs.take(i as int) =~= vs);
    n
}

fn render_owner_line(o: &OwnerDelta, width: usize) -> (s: String)
    ensures
        s@ == owner_line(o@, width as nat),
{
    let mut parts: Vec<String> = Vec::new();
    assert(texts(parts@) =~= Seq::empty());
    if o.changed > 0 {
        let mut p = decimal(o.changed as u64);
        p.push_str(" changed");
        add_line(&mut parts, p);
    }
    assert(texts(parts@) =~= part(o.changed, " changed"@));
    if o.added > 0 {
        let mut p = decimal(o.added as u64);
        p.push_str(" added");
        add_line(&mut parts, p);
    }
    assert(texts(parts@) =~= part(o.changed, " changed"@) + part(o.added, " added"@));
    if o.removed > 0 {
        let mut p = decimal(o.removed as u64);
        p.push_str(" removed");
        add_line(&mut parts, p);
    }
    assert(texts(parts@) =~= owner_parts(o@));
    let mut s = "  ".to_string();
    s.push_str(align_left(o.owner.as_str(), width).as_str());
    s.push_str("  ");
    s.push_str(join_strings(&parts, ", ").as_str());
    s
}

fn render_diff_total(r: &DiffReport) -> (s: String)
    ensures
        s@ == diff_total(r@),
{
    let mut s = decimal(r.total_changed() as u64);
    s.push_str(" changed, ");
    s.push_str(decimal(r.total_added() as u64).as_str());
    s.push_str(" added, ");
    s.push_str(decimal(r.total_removed() as u64).as_str());
    s.push_str(" removed (");
    s.push_str(decimal(r.old_pages as u64).as_str());
    s.push_str(" -> ");
    s.push_str(decimal(r.new_pages as u64).as_str());
    s.push_str(" pages x ");
    s.push_str(decimal(r.page_size as u64).as_str());
    s.push_str(" bytes)");
    s
}

/// What `diff` prints of its report.
pub fn diff_report(old_side: &Side, new_side: &Side, r: &DiffReport, as_json: bool) -> (lines: Vec<
    String,
>)
    ensures
        texts(lines@) == diff_lines(old_side@, new_side@, r@, as_json),
{
    if as_json {
        return one_line(print_diff_json(old_side, new_side, r));
    }
    let mut title = "diff ".to_string();
    title.push_str(old_side.label().as_str());
    title.push_str(" -> ");
    title.push_str(new_side.label().as_str());
    let ghost t = title@;
    let mut lines = one_line(title);
    if r.is_empty() {
        let mut s = "  no page-level differences (".to_string();
        s.push_str(decimal(r.new_pages as u64).as_str());
        s.push_str(" pages)");
        add_line(&mut lines, s);
        assert(texts(lines@) =~= diff_lines(old_side@, new_side@, r@, as_json));
        return lines;
    }
    let width: usize = widest_owner(&r.by_owner);
    let ghost rows = r@.by_owner;
    let ghost listed = Seq::new(rows.len(), |i: int| owner_line(rows[i], width as nat));
    let mut i: usize = 0;
    assert(texts(lines@) =~= seq![t] + listed.take(0));
    while i < r.by_owner.len()
        invariant
            i <= r.by_owner@.len(),
            rows == r@.by_owner,
            listed == Seq::new(rows.len(), |i: int| owner_line(rows[i], width as nat)),
            texts(lines@) == seq![t] + listed.take(i as int),
        decreases r.by_owner@.len() - i,
    {
        let ghost before = texts(lines@);
        let line = render_owner_line(&r.by_owner[i], width);
        assert(rows[i as int] == r.by_owner@[i as int]@);
        assert(line@ == listed[i as int]);
        add_line(&mut lines, line);
        assert(before.push(listed[i as int]) =~= seq![t] + listed.take(i + 1));
        i = i + 1;
    }
    assert(listed.take(i as int) =~= listed);
    add_line(&mut lines, render_diff_total(r));
    assert(listed =~= Seq::new(rows.len(), |i: int| owner_line(rows[i], owner_width(rows))));
    lines
}

/// Compares two states, page by page and owner by owner.
pub fn cmd_diff(store: &Store, w: &Working, args: &Args) -> (r: Result<Vec<String>, Error>)
    requires
        store.wf(),
    ensures
        match r {
            Ok(lines) => diff_output(store@, *w, args@) == Ok::<Seq<Seq<char>>, ErrorView>(
                texts(lines@),
            ),
            Err(e) => diff_output(store@, *w, args@) == Err::<Seq<Seq<char>>, ErrorView>(e@),
        },
{
    let (old_side, new_side) = match find_sides(store, &args.positional) {
        Ok(sides) => sides,
        Err(e) => {
            return Err(e);
        },
    };
    let (old_hashes, mut old_src) = match open_side(store, w, args.allow_wal, &old_side) {
        Ok(p) => p,
        Err(e) => {
            return Err(e);
        },
    };
    let (new_hashes, mut new_src) = match open_side(store, w, args.allow_wal, &new_side) {
        Ok(p) => p,
        Err(e) => {
            return Err(e);
        },
    };
    match diff_sources(
        &mut old_src,
        &mut new_src,
        old_hashes.as_slice(),
        new_hashes.as_slice(),
    ) {
        Ok(report) => Ok(diff_report(&old_side, &new_side, &report, args.json)),
        Err(e) => Err(e),
    }
}

// ---------------------------------------------------------------------------------------
// tables
// ---------------------------------------------------------------------------------------
/// The counter of a kind of page.
pub open spec fn kind_slot(kind: PageKind) -> Slot {
    match kind {
        PageKind::BTree => Slot::First,
        PageKind::Overflow => Slot::Second,
        _ => Slot::Third,
    }
}

/// The pages of a database, by the label of their owner.
pub open spec fn page_tags(map: Map<u32, PageOwnerView>, page_count: u32) -> Seq<Tag> {
    Seq::new(
        page_count as nat,
        |i: int|
            Tag {
                label: label_of(map[(i + 1) as u32]),
                slot: kind_slot(map[(i + 1) as u32].kind),
            },
    )
}

/// The pages of one owner.
pub open spec fn row_total(r: RowView) -> nat {
    (r.first + r.second + r.third) as nat
}

/// An owner in `tables --json`.
pub open spec fn table_json(r: RowView, page_size: u32) -> Seq<char> {
    "{\"object\":"@ + json(r.label) + ",\"pages\":"@ + dec(row_total(r)) + ",\"btree\":"@ + dec(
        r.first as nat,
    ) + ",\"overflow\":"@ + dec(r.second as nat) + ",\"bytes\":"@ + dec(
        row_total(r) * page_size as nat,
    ) + "}"@
}

/// An owner in `tables`.
pub open spec fn table_line(r: RowView, page_size: u32) -> Seq<char> {
    left_aligned(r.label, 28) + " "@ + right_aligned(dec(row_total(r)), 6, ' ') + " "@
        + right_aligned(dec(r.first as nat), 6, ' ') + " "@ + right_aligned(
        dec(r.second as nat),
        9,
        ' ',
    ) + " "@ + right_aligned(bytes_text(row_total(r) * page_size as nat), 10, ' ')
}

/// The first line of `tables`.
pub open spec fn table_title() -> Seq<char> {
    left_aligned("OBJECT"@, 28) + " "@ + right_aligned("PAGES"@, 6, ' ') + " "@ + right_aligned(
        "BTREE"@,
        6,
        ' ',
    ) + " "@ + right_aligned("OVERFLOW"@, 9, ' ') + " "@ + right_aligned("BYTES"@, 10, ' ')
}

/// What `tables` prints of the state called `label`.
pub open spec fn table_lines(
    rows: Seq<RowView>,
    h: DbHeader,
    label: Seq<char>,
    as_json: bool,
) -> Seq<Seq<char>> {
    if as_json {
        seq![
            "["@ + join(
                Seq::new(rows.len(), |i: int| table_json(rows[i], h.page_size)),
                ","@,
            ) + "]"@,
        ]
    } else {
        (seq![table_title()] + Seq::new(
            rows.len(),
            |i: int| table_line(rows[i], h.page_size),
        )).push(
            dec(h.page_count as nat) + " pages x "@ + dec(h.page_size as nat) + " bytes in "@
                + label,
        )
    }
}

/// What `tables` prints of a page source called `label`, or why it cannot.
pub open spec fn tables_of(src: Pages, label: Seq<char>, as_json: bool) -> Result<
    Seq<Seq<char>>,
    ErrorView,
> {
    match owners(src) {
        Err(e) => Err(e),
        Ok(map) => Ok(
            table_lines(
                rollup(page_tags(map, src.header.page_count)),
                src.header,
                label,
                as_json,
            ),
        ),
    }
}

/// What `tables` prints of the working file, or why it cannot.
pub open spec fn tables_of_working(w: Working, a: ArgsView) -> Result<Seq<Seq<char>>, ErrorView> {
    match working_header(w) {
        Err(e) => Err(e),
        Ok(h) => match guard_refusal(w.path@, h.page_size, a.allow_wal, w.beside) {
            Some(e) => Err(e),
            None => tables_of(file_source(w.content->Ok_0@, h), "@ (working file)"@, a.json),
        },
    }
}

/// What `tables` prints of the state that `name` stands for, or why it cannot.
pub open spec fn tables_of_ref(s: StoreView, name: Seq<char>, as_json: bool) -> Result<
    Seq<Seq<char>>,
    ErrorView,
> {
    match resolved(s, name) {
        Err(e) => Err(e),
        Ok(id) => match manifest_of(s, id) {
            Err(e) => Err(e),
            Ok(m) => match snapshot_header(s, id, m) {
                Err(e) => Err(e),
                Ok(h) => tables_of(snapshot_pages(s, m, h), short_id(id), as_json),
            },
        },
    }
}

/// The state that `tables` is asked about; the working file if none is named.
pub open spec fn tables_ref(a: ArgsView) -> Seq<char> {
    if a.positional.len() < 2 {
        "@"@
    } else {
        a.positional[1]
    }
}

/// Is `tables` asked about the working file? It needs no store to answer that.
pub fn tables_wants_working(args: &Args) -> (r: bool)
    ensures
        r == (tables_ref(args@) == "@"@),
{
    if args.positional.len() < 2 {
        return true;
    }
    assert(args@.positional[1] == args.positional@[1]@);
    same_text(args.positional[1].as_str(), "@")
}

fn slot_for_kind(kind: PageKind) -> (s: Slot)
    ensures
        s == kind_slot(kind),
{
    match kind {
        PageKind::BTree => Slot::First,
        PageKind::Overflow => Slot::Second,
        _ => Slot::Third,
    }
}

/// The rows of `tables`, one per owner.
pub fn table_rows<S: PageSource>(src: &mut S) -> (r: Result<Vec<Row>, Error>)
    requires
        old(src).wf(),
    ensures
        final(src).wf(),
        final(src).pages() == old(src).pages(),
        match r {
            Ok(rows) => {
                let n = old(src).pages().header.page_count;
                &&& owners(old(src).pages()) is Ok
                &&& row_views(rows@) == rollup(page_tags(owners(old(src).pages())->Ok_0, n))
                &&& is_rollup(row_views(rows@), page_tags(owners(old(src).pages())->Ok_0, n))
                &&& forall|i: int|
                    0 <= i < rows@.len() ==> row_total(#[trigger] row_views(rows@)[i]) <= n
            },
            Err(e) => owners(old(src).pages()) == Err::<Map<u32, PageOwnerView>, ErrorView>(e@),
        },
{
    let n: u32 = src.page_count();
    let map = match attribute_pages(src) {
        Ok(map) => map,
        Err(e) => {
            return Err(e);
        },
    };
    let ghost views = owner_views(map@);
    let ghost wanted = page_tags(views, n);
    proof {
        owners_cover_the_database(src.pages(), views);
    }
    let mut items: Vec<(String, Slot)> = Vec::new();
    let mut p: u32 = 0;
    while p < n
        invariant
            p == items@.len(),
            p <= n,
            views == owner_views(map@),
            wanted == page_tags(views, n),
            forall|q: u32| #[trigger] views.contains_key(q) <==> 1 <= q <= n,
            forall|j: int| 0 <= j < p ==> #[trigger] tags_of(items@)[j] == wanted[j],
        decreases n - p,
    {
        let ghost before = tags_of(items@);
        let ghost at = p as int;
        p = p + 1;
        assert(views.contains_key(p));
        match map.get(&p) {
            Some(owner) => {
                items.push((owner_label(owner), slot_for_kind(owner.kind)));
            },
            None => {
                items.push((String::new(), Slot::Third));
            },
        }
        assert forall|j: int| 0 <= j < p implies #[trigger] tags_of(items@)[j] == wanted[j] by {
            if j < at {
                assert(tags_of(items@)[j] == before[j]);
            }
        }
    }
    assert(tags_of(items@) =~= wanted);
    let rows = roll_up(&items);
    proof {
        assert forall|i: int| 0 <= i < rows@.len() implies row_total(
            #[trigger] row_views(rows@)[i],
        ) <= n by {
            let r = row_views(rows@)[i];
            assert(r == row_of(wanted, r.label));
            tally_bound(wanted, r.label);
        }
    }
    Ok(rows)
}

proof fn bytes_fit(total: nat, page_size: u32)
    requires
        total <= u32::MAX,
        page_size <= 65536,
    ensures
        total * page_size as nat <= u64::MAX,
{
    assert(total * page_size as nat <= 0xffff_ffff * 65536) by (nonlinear_arith)
        requires
            total <= 0xffff_ffff,
            page_size <= 65536,
    ;
}

fn render_table_json(r: &Row, page_size: u32) -> (s: String)
    requires
        row_total(r@) <= u32::MAX,
        page_size <= 65536,
    ensures
        s@ == table_json(r@, page_size),
{
    let total: u32 = r.first + r.second + r.third;
    proof {
        bytes_fit(total as nat, page_size);
    }
    let mut s = "{\"object\":".to_string();
    s.push_str(json_str(r.label.as_str()).as_str());
    s.push_str(",\"pages\":");
    s.push_str(decimal(total as u64).as_str());
    s.push_str(",\"btree\":");
    s.push_str(decimal(r.first as u64).as_str());
    s.push_str(",\"overflow\":");
    s.push_str(decimal(r.second as u64).as_str());
    s.push_str(",\"bytes\":");
    s.push_str(decimal(total as u64 * page_size as u64).as_str());
    s.push_str("}");
    s
}

fn render_table_line(r: &Row, page_size: u32) -> (s: String)
    requires
        row_total(r@) <= u32::MAX,
        page_size <= 65536,
    ensures
        s@ == table_line(r@, page_size),
{
    let total: u32 = r.first + r.second + r.third;
    proof {
        bytes_fit(total as nat, page_size);
    }
    let mut s = align_left(r.label.as_str(), 28);
    s.push_str(" ");
    s.push_str(align_right(decimal(total as u64).as_str(), 6, ' ').as_str());
    s.push_str(" ");
    s.push_str(align_right(decimal(r.first as u64).as_str(), 6, ' ').as_str());
    s.push_str(" ");
    s.push_str(align_right(decimal(r.second as u64).as_str(), 9, ' ').as_str());
    s.push_str(" ");
    let bytes = human_bytes(total as u64 * page_size as u64);
    s.push_str(align_right(bytes.as_str(), 10, ' ').as_str());
    s
}

fn render_table_title() -> (s: String)
    ensures
        s@ == table_title(),
{
    let mut s = align_left("OBJECT", 28);
    s.push_str(" ");
    s.push_str(align_right("PAGES", 6, ' ').as_str());
    s.push_str(" ");
    s.push_str(align_right("BTREE", 6, ' ').as_str());
    s.push_str(" ");
    s.push_str(align_right("OVERFLOW", 9, ' ').as_str());
    s.push_str(" ");
    s.push_str(align_right("BYTES", 10, ' ').as_str());
    s
}

/// What `tables` prints of the state called `label`.
pub fn table_report(rows: &Vec<Row>, h: &DbHeader, label: &str, as_json: bool) -> (lines: Vec<
    String,
>)
    requires
        h.wf(),
        forall|i: int|
            0 <= i < rows@.len() ==> row_total(#[trigger] row_views(rows@)[i]) <= u32::MAX,
    ensures
        texts(lines@) == table_lines(row_views(rows@), *h, label@, as_json),
{
    let ghost vs = row_views(rows@);
    let ghost wanted = Seq::new(
        vs.len(),
        |i: int|
            if as_json {
                table_json(vs[i], h.page_size)
            } else {
                table_line(vs[i], h.page_size)
            },
    );
    let ghost first: Seq<Seq<char>> = if as_json {
        seq![]
    } else {
        seq![table_title()]
    };
    let mut lines: Vec<String> = Vec::new();
    assert(texts(lines@) =~= Seq::empty());
    if !as_json {
        add_line(&mut lines, render_table_title());
    }
    let mut i: usize = 0;
    assert(texts(lines@) =~= first + wanted.take(0));
    while i < rows.len()
        invariant
            h.wf(),
            i <= rows@.len(),
            vs == row_views(rows@),
            forall|i: int| 0 <= i < rows@.len() ==> row_total(#[trigger] vs[i]) <= u32::MAX,
            wanted == Seq::new(
                vs.len(),
                |i: int|
                    if as_json {
                        table_json(vs[i], h.page_size)
                    } else {
                        table_line(vs[i], h.page_size)
                    },
            ),
            texts(lines@) == first + wanted.take(i as int),
        decreases rows@.len() - i,
    {
        let ghost before = texts(lines@);
        assert(row_total(vs[i as int]) <= u32::MAX);
        let line = if as_json {
            render_table_json(&rows[i], h.page_size)
        } else {
            render_table_line(&rows[i], h.page_size)
        };
        assert(line@ == wanted[i as int]);
        add_line(&mut lines, line);
        assert(before.push(wanted[i as int]) =~= first + wanted.take(i + 1));
        i = i + 1;
    }
    assert(wanted.take(i as int) =~= wanted);
    if as_json {
        proof {
            assert(wanted =~= Seq::new(vs.len(), |i: int| table_json(vs[i], h.page_size)));
            assert(first + wanted =~= wanted);
        }
        let mut s = "[".to_string();
        s.push_str(join_strings(&lines, ",").as_str());
        s.push_str("]");
        one_line(s)
    } else {
        assert(wanted =~= Seq::new(vs.len(), |i: int| table_line(vs[i], h.page_size)));
        let mut s = decimal(h.page_count as u64);
        s.push_str(" pages x ");
        s.push_str(decimal(h.page_size as u64).as_str());
        s.push_str(" bytes in ");
        s.push_str(label);
        add_line(&mut lines, s);
        lines
    }
}

/// Breaks a page source down by owner.
pub fn print_tables<S: PageSource>(src: &mut S, label: &str, as_json: bool) -> (r: Result<
    Vec<String>,
    Error,
>)
    requires
        old(src).wf(),
    ensures
        final(src).wf(),
        final(src).pages() == old(src).pages(),
        match r {
            Ok(lines) => tables_of(old(src).pages(), label@, as_json) == Ok::<
                Seq<Seq<char>>,
                ErrorView,
            >(texts(lines@)),
            Err(e) => tables_of(old(src).pages(), label@, as_json) == Err::<
                Seq<Seq<char>>,
                ErrorView,
            >(e@),
        },
{
    match table_rows(src) {
        Err(e) => Err(e),
        Ok(rows) => {
            let h: DbHeader = *src.header();
            Ok(table_report(&rows, &h, label, as_json))
        },
    }
}

/// Breaks the working file down by owner.
pub fn cmd_tables_working(w: &Working, args: &Args) -> (r: Result<Vec<String>, Error>)
    ensures
        match r {
            Ok(lines) => tables_of_working(*w, args@) == Ok::<Seq<Seq<char>>, ErrorView>(
                texts(lines@),
            ),
            Err(e) => tables_of_working(*w, args@) == Err::<Seq<Seq<char>>, ErrorView>(e@),
        },
{
    let mut db = match open_working(w) {
        Ok(db) => db,
        Err(e) => {
            return Err(e);
        },
    };
    let page_size: u32 = db.page_size();
    if let Err(e) = guard_sidecars(w.path.as_str(), page_size, args.allow_wal, &w.beside) {
        return Err(e);
    }
    print_tables(&mut db, "@ (working file)", args.json)
}

/// Breaks the state that the arguments name down by owner.
pub fn cmd_tables_ref(store: &Store, args: &Args) -> (r: Result<Vec<String>, Error>)
    requires
        store.wf(),
        args@.positional.len() >= 2,
    ensures
        match r {
            Ok(lines) => tables_of_ref(store@, tables_ref(args@), args@.json) == Ok::<
                Seq<Seq<char>>,
                ErrorView,
            >(texts(lines@)),
            Err(e) => tables_of_ref(store@, tables_ref(args@), args@.json) == Err::<
                Seq<Seq<char>>,
                ErrorView,
            >(e@),
        },
{
    assert(args@.positional[1] == args.positional@[1]@);
    let id = match store.resolve(args.positional[1].as_str()) {
        Ok(id) => id,
        Err(e) => {
            return Err(e);
        },
    };
    match SnapshotSource::open(store, id.as_str()) {
        Err(e) => Err(e),
        Ok(src) => {
            let mut src = src;
            print_tables(&mut src, short(id.as_str()).as_str(), args.json)
        },
    }
}

} // verus!
