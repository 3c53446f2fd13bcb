//! Branches: listing and forking them, checking them out, and comparing the working file.

use vstd::prelude::*;

use crate::args::Args;
use crate::args::ArgsView;
use crate::cli::add_line;
use crate::cli::one_line;
use crate::cli::open_working;
use crate::cli::two_lines;
use crate::cli::working_header;
use crate::cli::Working;
use crate::dbfile::DbHeader;
use crate::diff::deltas;
use crate::diff::diff_hashes;
use crate::error::refused;
use crate::error::Error;
use crate::error::ErrorView;
use crate::manifest::id_of;
use crate::manifest::opt_text;
use crate::numerals::align_left;
use crate::numerals::left_aligned;
use crate::render::join;
use crate::render::join_strings;
use crate::render::json;
use crate::render::json_or_null;
use crate::render::json_str;
use crate::render::short;
use crate::render::short_id;
use crate::render::truth;
use crate::render::truth_str;
use crate::snapshot::file_pages;
use crate::snapshot::guard_refusal;
use crate::snapshot::guard_sidecars;
use crate::snapshot::hashes_of;
use crate::snapshot::restore;
use crate::snapshot::restored_at;
use crate::snapshot::state_of_file;
use crate::snapshot::FileState;
use crate::snapshot_laws::ids_are_hashes;
use crate::store::branch_head_of;
use crate::store::branch_list;
use crate::store::branch_refusal;
use crate::store::has_branch;
use crate::store::hash_is_its_path;
use crate::store::head_of;
use crate::store::manifest_of;
use crate::store::name_refusal;
use crate::store::pair_views;
use crate::store::resolved;
use crate::store::validate_branch_name;
use crate::store::with_branch;
use crate::store::with_head;
use crate::store::without_branch;
use crate::store::Head;
use crate::store::HeadView;
use crate::store::Store;
use crate::store::StoreView;
use crate::text::dec;
use crate::text::decimal;
use crate::text::quote;
use crate::text::quoted;
use crate::text::same_text;
use crate::text::texts;

verus! {

// ---------------------------------------------------------------------------------------
// branch
// ---------------------------------------------------------------------------------------
/// One branch in the list; the current one is marked.
pub open spec fn branch_line(head: HeadView, branch: (Seq<char>, Seq<char>)) -> Seq<char> {
    (if head == HeadView::Branch(branch.0) {
        "*"@
    } else {
        " "@
    }) + " "@ + left_aligned(branch.0, 24) + " "@ + short_id(branch.1)
}

/// One branch in the list with `--json`.
pub open spec fn branch_json(branch: (Seq<char>, Seq<char>)) -> Seq<char> {
    "{\"name\":"@ + json(branch.0) + ",\"id\":"@ + json(branch.1) + "}"@
}

/// What `branch` prints without a name and with `--json`: the current branch, or the snapshot
/// at which HEAD is detached, and the branches.
pub open spec fn branches_json(
    head: HeadView,
    branches: Seq<(Seq<char>, Seq<char>)>,
) -> Seq<char> {
    (match head {
        HeadView::Branch(name) => "{\"current\":"@ + json(name) + ",\"detached\":null"@,
        HeadView::Detached(id) => "{\"current\":null,\"detached\":"@ + json(id),
    }) + ",\"branches\":["@ + join(
        Seq::new(branches.len(), |i: int| branch_json(branches[i])),
        ","@,
    ) + "]}"@
}

/// What `branch` prints without a name.
pub open spec fn branch_lines(
    head: HeadView,
    branches: Seq<(Seq<char>, Seq<char>)>,
    as_json: bool,
) -> Seq<Seq<char>> {
    if as_json {
        seq![branches_json(head, branches)]
    } else if branches.len() == 0 {
        seq!["no branches with snapshots yet (run `litegraft snap <db>`)"@]
    } else {
        let listed = Seq::new(branches.len(), |i: int| branch_line(head, branches[i]));
        match head {
            HeadView::Branch(_) => listed,
            HeadView::Detached(id) => listed.push("! HEAD detached at "@ + short_id(id)),
        }
    }
}

/// Where a new branch forks off: at the given reference, or at the current head.
pub open spec fn fork_point(s: StoreView, head: HeadView, at: Option<Seq<char>>) -> Result<
    Seq<char>,
    ErrorView,
> {
    match at {
        Some(r) => resolved(s, r),
        None => match head {
            HeadView::Detached(id) => Ok(id),
            HeadView::Branch(current) => match branch_head_of(s, current) {
                Err(e) => Err(e),
                Ok(Some(id)) => Ok(id),
                Ok(None) => Err(
                    refused(
                        "branch "@ + quoted(current)
                            + " has no snapshots yet; snap first or use --at <ref>"@,
                    ),
                ),
            },
        },
    }
}

/// What `branch` prints after it has made branch `name` at snapshot `id`.
pub open spec fn fork_lines(
    db: Seq<char>,
    name: Seq<char>,
    id: Seq<char>,
    as_json: bool,
) -> Seq<Seq<char>> {
    if as_json {
        seq!["{\"branch\":"@ + json(name) + ",\"id\":"@ + json(id) + "}"@]
    } else {
        seq![
            "branch "@ + name + " created at "@ + short_id(id),
            "switch with: litegraft checkout "@ + db + " "@ + name,
        ]
    }
}

/// What `branch` does with a name: the store with the new branch, and what is printed.
pub open spec fn forked(
    s: StoreView,
    head: HeadView,
    db: Seq<char>,
    name: Seq<char>,
    a: ArgsView,
) -> Result<(StoreView, Seq<Seq<char>>), ErrorView> {
    if name_refusal(name) is Some {
        Err(name_refusal(name).unwrap())
    } else if has_branch(s, name) {
        Err(refused("branch "@ + quoted(name) + " already exists"@))
    } else {
        match fork_point(s, head, a.at) {
            Err(e) => Err(e),
            Ok(id) => match branch_refusal(s, name) {
                Some(e) => Err(e),
                None => Ok((with_branch(s, name, id), fork_lines(db, name, id, a.json))),
            },
        }
    }
}

/// What `branch` does: lists the branches, or makes the one that is named.
pub open spec fn branch_output(s: StoreView, db: Seq<char>, a: ArgsView) -> Result<
    (StoreView, Seq<Seq<char>>),
    ErrorView,
> {
    match head_of(s) {
        Err(e) => Err(e),
        Ok(head) => if a.positional.len() < 2 {
            match branch_list(s) {
                Err(e) => Err(e),
                Ok(branches) => Ok((s, branch_lines(head, branches, a.json))),
            }
        } else {
            forked(s, head, db, a.positional[1], a)
        },
    }
}

/// The store after `branch` made no branch. It is as it was, unless the branch turned out to be
/// one that cannot be written.
pub open spec fn unforked(s: StoreView, a: ArgsView) -> StoreView {
    if a.positional.len() < 2 || head_of(s) is Err || has_branch(s, a.positional[1]) || fork_point(
        s,
        head_of(s)->Ok_0,
        a.at,
    ) is Err {
        s
    } else {
        without_branch(s, a.positional[1])
    }
}

fn render_branch_line(head: &Head, name: &String, id: &String) -> (s: String)
    ensures
        s@ == branch_line(head@, (name@, id@)),
{
    let current = match head {
        Head::Branch(current) => same_text(current.as_str(), name.as_str()),
        Head::Detached(_) => false,
    };
    let mut s = if current {
        "*".to_string()
    } else {
        " ".to_string()
    };
    s.push_str(" ");
    s.push_str(align_left(name.as_str(), 24).as_str());
    s.push_str(" ");
    s.push_str(short(id.as_str()).as_str());
    s
}

fn render_branch_json(name: &String, id: &String) -> (s: String)
    ensures
        s@ == branch_json((name@, id@)),
{
    let mut s = "{\"name\":".to_string();
    s.push_str(json_str(name.as_str()).as_str());
    s.push_str(",\"id\":");
    s.push_str(json_str(id.as_str()).as_str());
    s.push_str("}");
    s
}

fn render_branches_json(head: &Head, branches: &Vec<(String, String)>) -> (s: String)
    ensures
        s@ == branches_json(head@, pair_views(branches@)),
{
    let ghost bs = pair_views(branches@);
    let ghost listed = Seq::new(bs.len(), |i: int| branch_json(bs[i]));
    let mut items: Vec<String> = Vec::new();
    let mut i: usize = 0;
    assert(texts(items@) =~= listed.take(0));
    while i < branches.len()
        invariant
            i <= branches@.len(),
            bs == pair_views(branches@),
            listed == Seq::new(bs.len(), |i: int| branch_json(bs[i])),
            texts(items@) == listed.take(i as int),
        decreases branches@.len() - i,
    {
        let item = render_branch_json(&branches[i].0, &branches[i].1);
        add_line(&mut items, item);
        assert(listed.take(i + 1) =~= listed.take(i as int).push(listed[i as int]));
        i = i + 1;
    }
    assert(listed.take(i as int) =~= listed);
    let mut s = match head {
        Head::Branch(name) => {
            let mut s = "{\"current\":".to_string();
            s.push_str(json_str(name.as_str()).as_str());
            s.push_str(",\"detached\":null");
            s
        },
        Head::Detached(id) => {
            let mut s = "{\"current\":null,\"detached\":".to_string();
            s.push_str(json_str(id.as_str()).as_str());
            s
        },
    };
    s.push_str(",\"branches\":[");
    s.push_str(join_strings(&items, ",").as_str());
    s.push_str("]}");
    s
}

fn branch_report(head: &Head, branches: &Vec<(String, String)>, as_json: bool) -> (lines: Vec<
    String,
>)
    ensures
        texts(lines@) == branch_lines(head@, pair_views(branches@), as_json),
{
    if as_json {
        return one_line(render_branches_json(head, branches));
    }
    if branches.len() == 0 {
        return one_line("no branches with snapshots yet (run `litegraft snap <db>`)".to_string());
    }
    let ghost bs = pair_views(branches@);
    let ghost h = head@;
    let ghost listed = Seq::new(bs.len(), |i: int| branch_line(h, bs[i]));
    let mut lines: Vec<String> = Vec::new();
    let mut i: usize = 0;
    assert(texts(lines@) =~= listed.take(0));
    while i < branches.len()
        invariant
            i <= branches@.len(),
            h == head@,
            bs == pair_views(branches@),
            listed == Seq::new(bs.len(), |i: int| branch_line(h, bs[i])),
            texts(lines@) == listed.take(i as int),
        decreases branches@.len() - i,
    {
        let line = render_branch_line(head, &branches[i].0, &branches[i].1);
        add_line(&mut lines, line);
        assert(listed.take(i + 1) =~= listed.take(i as int).push(listed[i as int]));
        i = i + 1;
    }
    assert(listed.take(i as int) =~= listed);
    if let Head::Detached(id) = head {
        let mut s = "! HEAD detached at ".to_string();
        s.push_str(short(id.as_str()).as_str());
        add_line(&mut lines, s);
    }
    lines
}

fn find_fork_point(store: &Store, head: &Head, at: &Option<String>) -> (r: Result<String, Error>)
    requires
        store.wf(),
    ensures
        ({
            let point = fork_point(store@, head@, opt_text(*at));
            match r {
                Ok(id) => point == Ok::<Seq<char>, ErrorView>(id@),
                Err(e) => point == Err::<Seq<char>, ErrorView>(e@),
            }
        }),
{
    match at {
        Some(r) => store.resolve(r.as_str()),
        None => match head {
            Head::Detached(id) => Ok(id.clone()),
            Head::Branch(current) => match store.branch_head(current.as_str()) {
                Err(e) => Err(e),
                Ok(Some(id)) => Ok(id),
                Ok(None) => {
                    let mut m = "branch ".to_string();
                    m.push_str(quote(current.as_str()).as_str());
                    m.push_str(" has no snapshots yet; snap first or use --at <ref>");
                    Err(Error::refused(m))
                },
            },
        },
    }
}

fn fork_report(db: &str, name: &str, id: &str, as_json: bool) -> (lines: Vec<String>)
    ensures
        texts(lines@) == fork_lines(db@, name@, id@, as_json),
{
    if as_json {
        let mut s = "{\"branch\":".to_string();
        s.push_str(json_str(name).as_str());
        s.push_str(",\"id\":");
        s.push_str(json_str(id).as_str());
        s.push_str("}");
        return one_line(s);
    }
    let mut a = "branch ".to_string();
    a.push_str(name);
    a.push_str(" created at ");
    a.push_str(short(id).as_str());
    let mut b = "switch with: litegraft checkout ".to_string();
    b.push_str(db);
    b.push_str(" ");
    b.push_str(name);
    two_lines(a, b)
}

/// Lists the branches, or makes the one that is named.
pub fn cmd_branch(store: &mut Store, db: &str, args: &Args) -> (r: Result<Vec<String>, Error>)
    requires
        old(store).wf(),
    ensures
        final(store).wf(),
        match r {
            Ok(lines) => branch_output(old(store)@, db@, args@) == Ok::<
                (StoreView, Seq<Seq<char>>),
                ErrorView,
            >((final(store)@, texts(lines@))),
            Err(e) => branch_output(old(store)@, db@, args@) == Err::<
                (StoreView, Seq<Seq<char>>),
                ErrorView,
            >(e@) && final(store)@ == unforked(old(store)@, args@),
        },
{
    let head = match store.head() {
        Ok(h) => h,
        Err(e) => {
            return Err(e);
        },
    };
    if args.positional.len() < 2 {
        return match store.list_branches() {
            Ok(branches) => Ok(branch_report(&head, &branches, args.json)),
            Err(e) => Err(e),
        };
    }
    let name = args.positional[1].as_str();
    assert(args@.positional[1] == name@);
    if let Err(e) = validate_branch_name(name) {
        return Err(e);
    }
    if store.branch_exists(name) {
        let mut m = "branch ".to_string();
        m.push_str(quote(name).as_str());
        m.push_str(" already exists");
        return Err(Error::refused(m));
    }
    let at = match find_fork_point(store, &head, &args.at) {
        Ok(id) => id,
        Err(e) => {
            return Err(e);
        },
    };
    if let Err(e) = store.set_branch(name, at.as_str()) {
        return Err(e);
    }
    Ok(fork_report(db, name, at.as_str(), args.json))
}

// ---------------------------------------------------------------------------------------
// checkout
// ---------------------------------------------------------------------------------------
/// The page hashes of the working file with header `h`.
pub open spec fn working_hashes(w: Working, h: DbHeader) -> Seq<Seq<char>> {
    hashes_of(file_pages(w.content->Ok_0@, h))
}

/// The id of the state of the working file with header `h`.
pub open spec fn working_id(w: Working, h: DbHeader) -> Seq<char> {
    id_of(h.page_size, working_hashes(w, h))
}

/// Opens and hashes the working file.
pub fn hash_working(w: &Working) -> (r: Result<FileState, Error>)
    ensures
        match r {
            Ok(st) => working_header(*w) matches Ok(h) && w.content is Ok && st.page_size
                == h.page_size && st.id@ == working_id(*w, h) && texts(st.page_hashes@)
                == working_hashes(*w, h),
            Err(e) => working_header(*w) == Err::<DbHeader, ErrorView>(e@),
        },
{
    match open_working(w) {
        Ok(db) => {
            let mut db = db;
            Ok(state_of_file(&mut db))
        },
        Err(e) => Err(e),
    }
}

/// Why the state of the working file cannot be discarded, if it cannot: the file is no
/// database, the files beside it say that it is incomplete, or its state is in no snapshot.
/// With `--force` it can.
pub open spec fn discard_refusal(s: StoreView, w: Working, a: ArgsView) -> Option<ErrorView> {
    if !w.exists || a.force {
        None
    } else {
        match working_header(w) {
            Err(e) => Some(e),
            Ok(h) => match guard_refusal(w.path@, h.page_size, a.allow_wal, w.beside) {
                Some(e) => Some(e),
                None => if s.snaps.contains_key(working_id(w, h)) {
                    None
                } else {
                    Some(
                        refused(
                            "working file has un-snapshotted changes (state "@ + short_id(
                                working_id(w, h),
                            ) + "); run `litegraft snap "@ + w.path@
                                + "` first, or pass --force to discard them"@,
                        ),
                    )
                },
            },
        }
    }
}

/// Where HEAD points after a checkout of `name`, which resolved to `id`.
pub open spec fn checkout_head(s: StoreView, name: Seq<char>, id: Seq<char>) -> HeadView {
    if has_branch(s, name) {
        HeadView::Branch(name)
    } else {
        HeadView::Detached(id)
    }
}

/// What `checkout` prints; `head` is where HEAD points after it.
pub open spec fn checkout_line(
    head: HeadView,
    db: Seq<char>,
    id: Seq<char>,
    pages: u32,
    as_json: bool,
) -> Seq<char> {
    if as_json {
        "{\"branch\":"@ + (match head {
            HeadView::Branch(name) => json(name),
            HeadView::Detached(_) => "null"@,
        }) + ",\"id\":"@ + json(id) + ",\"pages\":"@ + dec(pages as nat) + "}"@
    } else {
        match head {
            HeadView::Branch(name) => "checked out branch "@ + name + " at "@ + short_id(id)
                + " ("@ + dec(pages as nat) + " pages restored)"@,
            HeadView::Detached(_) => "checked out snapshot "@ + short_id(id) + " ("@ + dec(
                pages as nat,
            ) + " pages restored); HEAD is detached — `litegraft branch "@ + db
                + " <name>` to keep working here"@,
        }
    }
}

/// What a checkout leads to.
pub struct Checkout {
    /// The snapshot that was checked out.
    pub id: String,
    /// The new content of the working file.
    pub bytes: Vec<u8>,
    /// What is printed.
    pub lines: Vec<String>,
}

/// What `checkout` of `name` does: the store, the content of the working file, and what is
/// printed.
pub open spec fn checkout_of(s: StoreView, w: Working, a: ArgsView, name: Seq<char>) -> Result<
    (StoreView, Seq<u8>, Seq<Seq<char>>),
    ErrorView,
> {
    match resolved(s, name) {
        Err(e) => Err(e),
        Ok(id) => match discard_refusal(s, w, a) {
            Some(e) => Err(e),
            None => match restored_at(s, id, w.path@, a.allow_wal, w.beside) {
                Err(e) => Err(e),
                Ok(bytes) => Ok(
                    (
                        with_head(s, checkout_head(s, name, id)),
                        bytes,
                        seq![
                            checkout_line(
                                checkout_head(s, name, id),
                                w.path@,
                                id,
                                manifest_of(s, id)->Ok_0.page_hashes.len() as u32,
                                a.json,
                            ),
                        ],
                    ),
                ),
            },
        },
    }
}

/// What `checkout` does.
pub open spec fn checkout_output(s: StoreView, w: Working, a: ArgsView) -> Result<
    (StoreView, Seq<u8>, Seq<Seq<char>>),
    ErrorView,
> {
    if a.positional.len() < 2 {
        Err(refused("checkout needs a ref (branch, snapshot id, or prefix)"@))
    } else {
        checkout_of(s, w, a, a.positional[1])
    }
}

fn check_discard(store: &Store, w: &Working, args: &Args) -> (r: Result<(), Error>)
    requires
        store.wf(),
    ensures
        match r {
            Ok(()) => discard_refusal(store@, *w, args@) is None,
            Err(e) => discard_refusal(store@, *w, args@) == Some(e@),
        },
{
    if !w.exists || args.force {
        return Ok(());
    }
    let st = match hash_working(w) {
        Ok(st) => st,
        Err(e) => {
            return Err(e);
        },
    };
    if let Err(e) = guard_sidecars(w.path.as_str(), st.page_size, args.allow_wal, &w.beside) {
        return Err(e);
    }
    proof {
        let h = working_header(*w)->Ok_0;
        ids_are_hashes(h.page_size, working_hashes(*w, h));
        hash_is_its_path(store@, st.id@);
    }
    if !store.has_snapshot(st.id.as_str()) {
        let mut m = "working file has un-snapshotted changes (state ".to_string();
        m.push_str(short(st.id.as_str()).as_str());
        m.push_str("); run `litegraft snap ");
        m.push_str(w.path.as_str());
        m.push_str("` first, or pass --force to discard them");
        return Err(Error::refused(m));
    }
    Ok(())
}

fn checkout_report(head: &Head, db: &str, id: &str, pages: u32, as_json: bool) -> (s: String)
    ensures
        s@ == checkout_line(head@, db@, id@, pages, as_json),
{
    let count = decimal(pages as u64);
    if as_json {
        let mut s = "{\"branch\":".to_string();
        match head {
            Head::Branch(name) => {
                s.push_str(json_str(name.as_str()).as_str());
            },
            Head::Detached(_) => {
                s.push_str("null");
            },
        }
        s.push_str(",\"id\":");
        s.push_str(json_str(id).as_str());
        s.push_str(",\"pages\":");
        s.push_str(count.as_str());
        s.push_str("}");
        return s;
    }
    match head {
        Head::Branch(name) => {
            let mut s = "checked out branch ".to_string();
            s.push_str(name.as_str());
            s.push_str(" at ");
            s.push_str(short(id).as_str());
            s.push_str(" (");
            s.push_str(count.as_str());
            s.push_str(" pages restored)");
            s
        },
        Head::Detached(_) => {
            let mut s = "checked out snapshot ".to_string();
            s.push_str(short(id).as_str());
            s.push_str(" (");
            s.push_str(count.as_str());
            s.push_str(" pages restored); HEAD is detached — `litegraft branch ");
            s.push_str(db);
            s.push_str(" <name>` to keep working here");
            s
        },
    }
}

/// Replaces the working file by a branch or a snapshot.
pub fn cmd_checkout(store: &mut Store, w: &Working, args: &Args) -> (r: Result<Checkout, Error>)
    requires
        old(store).wf(),
    ensures
        final(store).wf(),
        match r {
            Ok(c) => checkout_output(old(store)@, *w, args@) == Ok::<
                (StoreView, Seq<u8>, Seq<Seq<char>>),
                ErrorView,
            >((final(store)@, c.bytes@, texts(c.lines@))) && resolved(
                old(store)@,
                args@.positional[1],
            ) == Ok::<Seq<char>, ErrorView>(c.id@),
            Err(e) => checkout_output(old(store)@, *w, args@) == Err::<
                (StoreView, Seq<u8>, Seq<Seq<char>>),
                ErrorView,
            >(e@) && final(store)@ == old(store)@,
        },
{
    if args.positional.len() < 2 {
        return Err(
            Error::refused("checkout needs a ref (branch, snapshot id, or prefix)".to_string()),
        );
    }
    let name = args.positional[1].as_str();
    assert(args@.positional[1] == name@);
    let target = match store.resolve(name) {
        Ok(id) => id,
        Err(e) => {
            return Err(e);
        },
    };
    if let Err(e) = check_discard(store, w, args) {
        return Err(e);
    }
    let path = w.path.as_str();
    let bytes = match restore(store, target.as_str(), path, args.allow_wal, &w.beside) {
        Ok(b) => b,
        Err(e) => {
            return Err(e);
        },
    };
    let manifest = match store.read_manifest(target.as_str()) {
        Ok(m) => m,
        Err(e) => {
            return Err(e);
        },
    };
    let head = if store.branch_exists(name) {
        Head::Branch(name.to_string())
    } else {
        Head::Detached(target.clone())
    };
    store.set_head(&head);
    let line = checkout_report(&head, path, target.as_str(), manifest.page_count(), args.json);
    Ok(Checkout { id: target, bytes, lines: one_line(line) })
}

// ---------------------------------------------------------------------------------------
// status
// ---------------------------------------------------------------------------------------
/// What `status` reports.
pub struct StatusView {
    pub db: Seq<char>,
    pub branch: Seq<char>,
    pub head: Option<Seq<char>>,
    /// The message of the head snapshot.
    pub message: Seq<char>,
    pub pages: nat,
    pub page_size: u32,
    pub dirty: bool,
    pub pages_changed: u32,
}

/// The name of the current branch, and the snapshot that HEAD stands for.
pub open spec fn current_branch(s: StoreView) -> Result<(Seq<char>, Option<Seq<char>>), ErrorView> {
    match head_of(s) {
        Err(e) => Err(e),
        Ok(HeadView::Detached(id)) => Ok(("(detached)"@, Some(id))),
        Ok(HeadView::Branch(name)) => match branch_head_of(s, name) {
            Err(e) => Err(e),
            Ok(id) => Ok((name, id)),
        },
    }
}

/// The working file with header `h` against the current head.
pub open spec fn status_against(
    s: StoreView,
    w: Working,
    h: DbHeader,
    current: (Seq<char>, Option<Seq<char>>),
) -> Result<StatusView, ErrorView> {
    let hashes = working_hashes(w, h);
    match current.1 {
        None => Ok(
            StatusView {
                db: w.path@,
                branch: current.0,
                head: None,
                message: Seq::empty(),
                pages: hashes.len(),
                page_size: h.page_size,
                dirty: true,
                pages_changed: hashes.len() as u32,
            },
        ),
        Some(id) => match manifest_of(s, id) {
            Err(e) => Err(e),
            Ok(m) => Ok(
                StatusView {
                    db: w.path@,
                    branch: current.0,
                    head: Some(id),
                    message: m.message,
                    pages: hashes.len(),
                    page_size: h.page_size,
                    dirty: working_id(w, h) != id,
                    pages_changed: deltas(m.page_hashes, hashes).len() as u32,
                },
            ),
        },
    }
}

/// What `status` reports, or why it cannot.
pub open spec fn status_of(s: StoreView, w: Working, allow_wal: bool) -> Result<
    StatusView,
    ErrorView,
> {
    match current_branch(s) {
        Err(e) => Err(e),
        Ok(current) => match working_header(w) {
            Err(e) => Err(e),
            Ok(h) => match guard_refusal(w.path@, h.page_size, allow_wal, w.beside) {
                Some(e) => Err(e),
                None => status_against(s, w, h, current),
            },
        },
    }
}

/// What `status` prints with `--json`.
pub open spec fn status_json(v: StatusView) -> Seq<char> {
    "{\"db\":"@ + json(v.db) + ",\"branch\":"@ + json(v.branch) + ",\"head\":"@ + json_or_null(
        v.head,
    ) + ",\"pages\":"@ + dec(v.pages) + ",\"page_size\":"@ + dec(v.page_size as nat)
        + ",\"dirty\":"@ + truth(v.dirty) + ",\"pages_changed\":"@ + dec(v.pages_changed as nat)
        + "}"@
}

/// What `status` prints.
pub open spec fn status_lines(v: StatusView, as_json: bool) -> Seq<Seq<char>> {
    if as_json {
        seq![status_json(v)]
    } else {
        seq![
            "db:      "@ + v.db + " ("@ + dec(v.pages) + " pages x "@ + dec(v.page_size as nat)
                + " bytes)"@,
            "branch:  "@ + v.branch,
            match v.head {
                Some(id) => "head:    "@ + short_id(id) + " "@ + quoted(v.message),
                None => "head:    (no snapshots yet)"@,
            },
            if v.dirty {
                "state:   dirty ("@ + dec(v.pages_changed as nat)
                    + " page(s) differ; see `litegraft diff`)"@
            } else {
                "state:   clean"@
            },
        ]
    }
}

/// What `status` reports.
pub struct Status {
    pub db: String,
    pub branch: String,
    pub head: Option<String>,
    pub message: String,
    pub pages: usize,
    pub page_size: u32,
    pub dirty: bool,
    pub pages_changed: u32,
}

impl View for Status {
    type V = StatusView;

    open spec fn view(&self) -> StatusView {
        StatusView {
            db: self.db@,
            branch: self.branch@,
            head: opt_text(self.head),
            message: self.message@,
            pages: self.pages as nat,
            page_size: self.page_size,
            dirty: self.dirty,
            pages_changed: self.pages_changed,
        }
    }
}

fn read_current_branch(store: &Store) -> (r: Result<(String, Option<String>), Error>)
    requires
        store.wf(),
    ensures
        match r {
            Ok((name, id)) => current_branch(store@) == Ok::<
                (Seq<char>, Option<Seq<char>>),
                ErrorView,
            >((name@, opt_text(id))),
            Err(e) => current_branch(store@) == Err::<(Seq<char>, Option<Seq<char>>), ErrorView>(
                e@,
            ),
        },
{
    match store.head() {
        Err(e) => Err(e),
        Ok(Head::Detached(id)) => Ok(("(detached)".to_string(), Some(id))),
        Ok(Head::Branch(name)) => match store.branch_head(name.as_str()) {
            Err(e) => Err(e),
            Ok(id) => Ok((name, id)),
        },
    }
}

/// Compares the working file with the current head.
pub fn read_status(store: &Store, w: &Working, allow_wal: bool) -> (r: Result<Status, Error>)
    requires
        store.wf(),
    ensures
        match r {
            Ok(v) => status_of(store@, *w, allow_wal) == Ok::<StatusView, ErrorView>(v@),
            Err(e) => status_of(store@, *w, allow_wal) == Err::<StatusView, ErrorView>(e@),
        },
{
    let (branch, head) = match read_current_branch(store) {
        Ok(c) => c,
        Err(e) => {
            return Err(e);
        },
    };
    let st = match hash_working(w) {
        Ok(st) => st,
        Err(e) => {
            return Err(e);
        },
    };
    if let Err(e) = guard_sidecars(w.path.as_str(), st.page_size, allow_wal, &w.beside) {
        return Err(e);
    }
    let pages: usize = st.page_hashes.len();
    let mut v = Status {
        db: w.path.clone(),
        branch,
        head: None,
        message: String::new(),
        pages,
        page_size: st.page_size,
        dirty: true,
        pages_changed: pages as u32,
    };
    assert(v.message@ =~= Seq::empty());
    if let Some(id) = head {
        let m = match store.read_manifest(id.as_str()) {
            Ok(m) => m,
            Err(e) => {
                return Err(e);
            },
        };
        let changed = diff_hashes(m.page_hashes.as_slice(), st.page_hashes.as_slice());
        v.pages_changed = changed.len() as u32;
        v.dirty = !same_text(st.id.as_str(), id.as_str());
        v.message = m.message;
        v.head = Some(id);
    }
    Ok(v)
}

/// What `status` prints of its report.
pub fn status_report(v: &Status, as_json: bool) -> (lines: Vec<String>)
    ensures
        texts(lines@) == status_lines(v@, as_json),
{
    if as_json {
        let mut s = "{\"db\":".to_string();
        s.push_str(json_str(v.db.as_str()).as_str());
        s.push_str(",\"branch\":");
        s.push_str(json_str(v.branch.as_str()).as_str());
        s.push_str(",\"head\":");
        match &v.head {
            None => {
                s.push_str("null");
            },
            Some(id) => {
                s.push_str(json_str(id.as_str()).as_str());
            },
        }
        s.push_str(",\"pages\":");
        s.push_str(decimal(v.pages as u64).as_str());
        s.push_str(",\"page_size\":");
        s.push_str(decimal(v.page_size as u64).as_str());
        s.push_str(",\"dirty\":");
        s.push_str(truth_str(v.dirty));
        s.push_str(",\"pages_changed\":");
        s.push_str(decimal(v.pages_changed as u64).as_str());
        s.push_str("}");
        return one_line(s);
    }
    let mut a = "db:      ".to_string();
    a.push_str(v.db.as_str());
    a.push_str(" (");
    a.push_str(decimal(v.pages as u64).as_str());
    a.push_str(" pages x ");
    a.push_str(decimal(v.page_size as u64).as_str());
    a.push_str(" bytes)");
    let mut b = "branch:  ".to_string();
    b.push_str(v.branch.as_str());
    let mut lines = two_lines(a, b);
    match &v.head {
        Some(id) => {
            let mut c = "head:    ".to_string();
            c.push_str(short(id.as_str()).as_str());
            c.push_str(" ");
            c.push_str(quote(v.message.as_str()).as_str());
            add_line(&mut lines, c);
        },
        None => {
            add_line(&mut lines, "head:    (no snapshots yet)".to_string());
        },
    }
    if v.dirty {
        let mut d = "state:   dirty (".to_string();
        d.push_str(decimal(v.pages_changed as u64).as_str());
        d.push_str(" page(s) differ; see `litegraft diff`)");
        add_line(&mut lines, d);
    } else {
        add_line(&mut lines, "state:   clean".to_string());
    }
    assert(texts(lines@) =~= status_lines(v@, as_json));
    lines
}

/// Reports the working file against the current head.
pub fn cmd_status(store: &Store, w: &Working, args: &Args) -> (r: Result<Vec<String>, Error>)
    requires
        store.wf(),
    ensures
        match r {
            Ok(lines) => status_of(store@, *w, args@.allow_wal) matches Ok(v) && texts(lines@)
                == status_lines(v, args@.json),
            Err(e) => status_of(store@, *w, args@.allow_wal) == Err::<StatusView, ErrorView>(e@),
        },
{
    match read_status(store, w, args.allow_wal) {
        Ok(v) => Ok(status_report(&v, args.json)),
        Err(e) => Err(e),
    }
}

} // verus!
