//! Making a store, taking snapshots, and listing them.

use vstd::prelude::*;

use crate::args::Args;
use crate::args::ArgsView;
use crate::calendar::format_utc;
use crate::calendar::utc_text;
use crate::cli::add_line;
use crate::cli::is_opened;
use crate::cli::one_line;
use crate::cli::open_working;
use crate::cli::two_lines;
use crate::cli::working_header;
use crate::cli::Working;
use crate::dbfile::DbFile;
use crate::dbfile::DbHeader;
use crate::dbfile::PageSource;
use crate::error::invalid_data;
use crate::error::Error;
use crate::error::ErrorView;
use crate::files::files_listed;
use crate::files::names_of;
use crate::manifest::clone_text;
use crate::manifest::opt_text;
use crate::manifest::Manifest;
use crate::manifest::ManifestView;
use crate::numerals::align_right;
use crate::numerals::right_aligned;
use crate::render::bytes_text;
use crate::render::human_bytes;
use crate::render::join;
use crate::render::join_strings;
use crate::render::json;
use crate::render::json_or_null;
use crate::render::json_str;
use crate::render::short;
use crate::render::short_id;
use crate::render::truth;
use crate::render::truth_str;
use crate::snapshot::guard_refusal;
use crate::snapshot::snap;
use crate::snapshot::snap_outcome;
use crate::snapshot::snap_target;
use crate::snapshot::snapped;
use crate::snapshot::unsnapped;
use crate::snapshot::SnapOutcome;
use crate::snapshot::SnapOutcomeView;
use crate::store::branch_head_of;
use crate::store::fresh_store;
use crate::store::head_of;
use crate::store::manifest_of;
use crate::store::Head;
use crate::store::HeadView;
use crate::store::Store;
use crate::store::StoreView;
use crate::text::chars_of;
use crate::text::dec;
use crate::text::decimal;
use crate::text::texts;

verus! {

// ---------------------------------------------------------------------------------------
// init
// ---------------------------------------------------------------------------------------
/// What `init` prints.
pub open spec fn init_lines(
    db: Seq<char>,
    dir: Seq<char>,
    h: DbHeader,
    as_json: bool,
) -> Seq<Seq<char>> {
    if as_json {
        seq![
            "{\"store\":"@ + json(dir) + ",\"branch\":\"main\",\"pages\":"@ + dec(
                h.page_count as nat,
            ) + ",\"page_size\":"@ + dec(h.page_size as nat) + "}"@,
        ]
    } else {
        seq![
            "initialized empty store at "@ + dir + " (branch main; "@ + dec(h.page_count as nat)
                + " pages x "@ + dec(h.page_size as nat) + " bytes tracked)"@,
            "next: litegraft snap "@ + db + " -m \"baseline\""@,
        ]
    }
}

/// Why no store can be made, if none can: the file is no database, or there is a store.
pub open spec fn init_refusal(w: Working, dir: Seq<char>, exists: bool) -> Option<ErrorView> {
    match working_header(w) {
        Err(e) => Some(e),
        Ok(_) => if exists {
            Some(invalid_data("store already initialized at "@ + dir))
        } else {
            None
        },
    }
}

/// Makes a store at `dir` for the working file, unless there is one already (`exists`).
pub fn cmd_init(w: &Working, dir: &str, exists: bool, as_json: bool) -> (r: Result<
    (Store, Vec<String>),
    Error,
>)
    ensures
        match r {
            Ok((s, lines)) => init_refusal(*w, dir@, exists) is None && s.wf() && s@ == fresh_store(
                dir@,
            ) && texts(lines@) == init_lines(w.path@, dir@, working_header(*w)->Ok_0, as_json),
            Err(e) => init_refusal(*w, dir@, exists) == Some(e@),
        },
{
    let file = match open_working(w) {
        Ok(f) => f,
        Err(e) => {
            return Err(e);
        },
    };
    let pages: u32 = file.page_count();
    let page_size: u32 = file.page_size();
    let store = match Store::init(dir, exists) {
        Ok(s) => s,
        Err(e) => {
            return Err(e);
        },
    };
    if as_json {
        let mut s = "{\"store\":".to_string();
        s.push_str(json_str(dir).as_str());
        s.push_str(",\"branch\":\"main\",\"pages\":");
        s.push_str(decimal(pages as u64).as_str());
        s.push_str(",\"page_size\":");
        s.push_str(decimal(page_size as u64).as_str());
        s.push_str("}");
        return Ok((store, one_line(s)));
    }
    let mut a = "initialized empty store at ".to_string();
    a.push_str(dir);
    a.push_str(" (branch main; ");
    a.push_str(decimal(pages as u64).as_str());
    a.push_str(" pages x ");
    a.push_str(decimal(page_size as u64).as_str());
    a.push_str(" bytes tracked)");
    let mut b = "next: litegraft snap ".to_string();
    b.push_str(w.path.as_str());
    b.push_str(" -m \"baseline\"");
    Ok((store, two_lines(a, b)))
}

// ---------------------------------------------------------------------------------------
// snap
// ---------------------------------------------------------------------------------------
/// What `snap` prints with `--json`; `elapsed` is the time that it took, in milliseconds.
pub open spec fn snap_json(o: SnapOutcomeView, elapsed: Seq<char>) -> Seq<char> {
    "{\"id\":"@ + json(o.id) + ",\"branch\":"@ + json(o.branch) + ",\"pages\":"@ + dec(
        o.pages as nat,
    ) + ",\"new_objects\":"@ + dec(o.new_objects as nat) + ",\"dedup_pages\":"@ + dec(
        o.dedup_pages as nat,
    ) + ",\"bytes_written\":"@ + dec(o.bytes_written as nat) + ",\"elapsed_ms\":"@ + elapsed
        + ",\"changed\":"@ + truth(o.changed) + "}"@
}

/// What `snap` prints; `elapsed` is the time that it took, in milliseconds.
pub open spec fn snap_lines(
    o: SnapOutcomeView,
    as_json: bool,
    elapsed: Seq<char>,
) -> Seq<Seq<char>> {
    if as_json {
        seq![snap_json(o, elapsed)]
    } else if o.changed {
        seq![
            "snap "@ + short_id(o.id) + " (branch "@ + o.branch + ")"@,
            "  pages: "@ + dec(o.pages as nat) + " total, "@ + dec(o.new_objects as nat)
                + " new, "@ + dec(o.dedup_pages as nat) + " deduped ("@ + bytes_text(
                o.bytes_written as nat,
            ) + " written) in "@ + elapsed + " ms"@,
        ]
    } else {
        seq!["no page changes; "@ + o.branch + " stays at "@ + short_id(o.id)]
    }
}

/// Why no snapshot of the working file can be taken, if none can.
pub open spec fn cmd_snap_refusal(s: StoreView, w: Working, a: ArgsView) -> Option<ErrorView> {
    match working_header(w) {
        Err(e) => Some(e),
        Ok(h) => match guard_refusal(w.path@, h.page_size, a.allow_wal, w.beside) {
            Some(e) => Some(e),
            None => match snap_target(s) {
                Err(e) => Some(e),
                Ok(_) => None,
            },
        },
    }
}

/// Takes a snapshot of the working file, at the time `now`, and advances the current branch.
pub fn cmd_snap(store: &mut Store, w: &Working, args: &Args, now: u64) -> (r: Result<
    SnapOutcome,
    Error,
>)
    requires
        old(store).wf(),
    ensures
        final(store).wf(),
        match r {
            Ok(o) => {
                let target = snap_target(old(store)@)->Ok_0;
                &&& cmd_snap_refusal(old(store)@, *w, args@) is None
                &&& forall|db: DbFile| #[trigger]
                    is_opened(db, *w) ==> o@ == snap_outcome(old(store)@, db, target)
                        && final(store)@ == snapped(
                        old(store)@,
                        db,
                        target,
                        args@.message,
                        now,
                    )
            },
            Err(e) => {
                &&& cmd_snap_refusal(old(store)@, *w, args@) == Some(e@)
                &&& working_header(*w) is Err ==> final(store)@ == old(store)@
                &&& forall|db: DbFile| #[trigger]
                    is_opened(db, *w) ==> final(store)@ == unsnapped(
                        old(store)@,
                        db,
                        w.beside,
                        args@.allow_wal,
                        args@.message,
                        now,
                    )
            },
        },
{
    let mut db = match open_working(w) {
        Ok(db) => db,
        Err(e) => {
            return Err(e);
        },
    };
    snap(store, &mut db, &w.beside, args.message.as_str(), args.allow_wal, now)
}

/// What `snap` prints of its outcome; `elapsed` is the time that it took, in milliseconds.
pub fn snap_report(o: &SnapOutcome, as_json: bool, elapsed: &str) -> (lines: Vec<String>)
    ensures
        texts(lines@) == snap_lines(o@, as_json, elapsed@),
{
    if as_json {
        let mut s = "{\"id\":".to_string();
        s.push_str(json_str(o.id.as_str()).as_str());
        s.push_str(",\"branch\":");
        s.push_str(json_str(o.branch.as_str()).as_str());
        s.push_str(",\"pages\":");
        s.push_str(decimal(o.pages as u64).as_str());
        s.push_str(",\"new_objects\":");
        s.push_str(decimal(o.new_objects as u64).as_str());
        s.push_str(",\"dedup_pages\":");
        s.push_str(decimal(o.dedup_pages as u64).as_str());
        s.push_str(",\"bytes_written\":");
        s.push_str(decimal(o.bytes_written).as_str());
        s.push_str(",\"elapsed_ms\":");
        s.push_str(elapsed);
        s.push_str(",\"changed\":");
        s.push_str(truth_str(o.changed));
        s.push_str("}");
        one_line(s)
    } else if o.changed {
        let mut a = "snap ".to_string();
        a.push_str(short(o.id.as_str()).as_str());
        a.push_str(" (branch ");
        a.push_str(o.branch.as_str());
        a.push_str(")");
        let mut b = "  pages: ".to_string();
        b.push_str(decimal(o.pages as u64).as_str());
        b.push_str(" total, ");
        b.push_str(decimal(o.new_objects as u64).as_str());
        b.push_str(" new, ");
        b.push_str(decimal(o.dedup_pages as u64).as_str());
        b.push_str(" deduped (");
        b.push_str(human_bytes(o.bytes_written).as_str());
        b.push_str(" written) in ");
        b.push_str(elapsed);
        b.push_str(" ms");
        two_lines(a, b)
    } else {
        let mut s = "no page changes; ".to_string();
        s.push_str(o.branch.as_str());
        s.push_str(" stays at ");
        s.push_str(short(o.id.as_str()).as_str());
        one_line(s)
    }
}

// ---------------------------------------------------------------------------------------
// log
// ---------------------------------------------------------------------------------------
/// The views of a list of manifests.
pub open spec fn manifest_views(ms: Seq<Manifest>) -> Seq<ManifestView> {
    Seq::new(ms.len(), |i: int| ms[i]@)
}

/// The snapshot that HEAD stands for, if there is one.
pub open spec fn head_snapshot(s: StoreView) -> Result<Option<Seq<char>>, ErrorView> {
    match head_of(s) {
        Err(e) => Err(e),
        Ok(HeadView::Branch(name)) => branch_head_of(s, name),
        Ok(HeadView::Detached(id)) => Ok(Some(id)),
    }
}

/// The snapshot that HEAD stands for, if there is one.
pub fn read_head_snapshot(store: &Store) -> (r: Result<Option<String>, Error>)
    requires
        store.wf(),
    ensures
        match r {
            Ok(None) => head_snapshot(store@) == Ok::<Option<Seq<char>>, ErrorView>(None),
            Ok(Some(id)) => head_snapshot(store@) == Ok::<Option<Seq<char>>, ErrorView>(Some(id@)),
            Err(e) => head_snapshot(store@) == Err::<Option<Seq<char>>, ErrorView>(e@),
        },
{
    match store.head() {
        Err(e) => Err(e),
        Ok(Head::Branch(name)) => store.branch_head(name.as_str()),
        Ok(Head::Detached(id)) => Ok(Some(id)),
    }
}

/// The manifests from snapshot `cursor` back along the parents, after those in `done`: at
/// most `limit` of them in all. Without a limit, more of them than there are snapshots mean
/// that the parents run in a circle.
pub open spec fn history_from(
    s: StoreView,
    cursor: Option<Seq<char>>,
    limit: Option<usize>,
    done: Seq<ManifestView>,
) -> Result<Seq<ManifestView>, ErrorView>
    decreases
            (match limit {
                Some(n) => n as int,
                None => names_of(s.snaps).len() as int,
            }) - done.len(),
{
    if cursor is None || (limit matches Some(n) && done.len() >= n) {
        Ok(done)
    } else {
        match manifest_of(s, cursor.unwrap()) {
            Err(e) => Err(e),
            Ok(m) => if limit is None && done.len() >= names_of(s.snaps).len() {
                Err(invalid_data("snapshot history runs in a circle"@))
            } else {
                history_from(s, m.parent, limit, done.push(m))
            },
        }
    }
}

/// The snapshots of the current branch, the newest first.
pub open spec fn history(s: StoreView, limit: Option<usize>) -> Result<
    Seq<ManifestView>,
    ErrorView,
> {
    match head_snapshot(s) {
        Err(e) => Err(e),
        Ok(cursor) => history_from(s, cursor, limit, Seq::empty()),
    }
}

fn read_history(store: &Store, from: Option<String>, limit: Option<usize>) -> (r: Result<
    Vec<Manifest>,
    Error,
>)
    requires
        store.wf(),
    ensures
        ({
            let all = history_from(
                store@,
                opt_text(from),
                limit,
                Seq::empty(),
            );
            match r {
                Ok(ms) => all == Ok::<Seq<ManifestView>, ErrorView>(manifest_views(ms@)),
                Err(e) => all == Err::<Seq<ManifestView>, ErrorView>(e@),
            }
        }),
{
    let ghost start = opt_text(from);
    let ghost all = history_from(store@, start, limit, Seq::empty());
    let count: usize = store.snaps.names.len();
    proof {
        files_listed(&store.snaps);
    }
    let mut ms: Vec<Manifest> = Vec::new();
    let mut cursor = from;
    assert(manifest_views(ms@) =~= Seq::empty());
    loop
        invariant
            store.wf(),
            count == names_of(store@.snaps).len(),
            limit is None ==> ms@.len() <= count,
            limit matches Some(n) ==> ms@.len() <= n,
            all == history_from(
                store@,
                start,
                limit,
                Seq::empty(),
            ),
            start == opt_text(from),
            all == history_from(
                store@,
                opt_text(cursor),
                limit,
                manifest_views(ms@),
            ),
        decreases
                (match limit {
                    Some(n) => n as int,
                    None => count as int,
                }) - ms@.len(),
    {
        if let Some(n) = limit {
            if ms.len() >= n {
                return Ok(ms);
            }
        }
        let id = match cursor {
            None => {
                return Ok(ms);
            },
            Some(id) => id,
        };
        let m = match store.read_manifest(id.as_str()) {
            Ok(m) => m,
            Err(e) => {
                return Err(e);
            },
        };
        if limit.is_none() && ms.len() >= count {
            return Err(Error::invalid_data("snapshot history runs in a circle".to_string()));
        }
        let ghost before = manifest_views(ms@);
        let ghost v = m@;
        cursor = clone_text(&m.parent);
        ms.push(m);
        assert(manifest_views(ms@) =~= before.push(v));
    }
}

/// One snapshot in `log --json`.
pub open spec fn log_json(m: ManifestView) -> Seq<char> {
    "{\"id\":"@ + json(m.id) + ",\"parent\":"@ + json_or_null(m.parent) + ",\"branch\":"@ + json(
        m.branch,
    ) + ",\"created\":"@ + dec(m.created as nat) + ",\"created_utc\":"@ + json(
        utc_text(m.created as nat),
    ) + ",\"pages\":"@ + dec((m.page_hashes.len() as u32) as nat) + ",\"message\":"@ + json(
        m.message,
    ) + "}"@
}

/// One snapshot in `log`.
pub open spec fn log_line(m: ManifestView) -> Seq<char> {
    "snap "@ + short_id(m.id) + "  "@ + utc_text(m.created as nat) + "  "@ + right_aligned(
        dec((m.page_hashes.len() as u32) as nat),
        5,
        ' ',
    ) + " pages  "@ + if m.message.len() == 0 {
        "(no message)"@
    } else {
        m.message
    }
}

/// What `log` prints of the snapshots `ms`; `any` says whether there are any at all.
pub open spec fn log_lines(ms: Seq<ManifestView>, any: bool, as_json: bool) -> Seq<Seq<char>> {
    if as_json {
        seq![
            "["@ + join(Seq::new(ms.len(), |i: int| log_json(ms[i])), ","@) + "]"@,
        ]
    } else if !any {
        seq!["no snapshots yet (run `litegraft snap <db>`)"@]
    } else {
        Seq::new(ms.len(), |i: int| log_line(ms[i]))
    }
}

fn render_log_json(m: &Manifest) -> (s: String)
    ensures
        s@ == log_json(m@),
{
    let mut s = "{\"id\":".to_string();
    s.push_str(json_str(m.id.as_str()).as_str());
    s.push_str(",\"parent\":");
    match &m.parent {
        None => {
            s.push_str("null");
        },
        Some(p) => {
            s.push_str(json_str(p.as_str()).as_str());
        },
    }
    s.push_str(",\"branch\":");
    s.push_str(json_str(m.branch.as_str()).as_str());
    s.push_str(",\"created\":");
    s.push_str(decimal(m.created).as_str());
    s.push_str(",\"created_utc\":");
    s.push_str(json_str(format_utc(m.created).as_str()).as_str());
    s.push_str(",\"pages\":");
    s.push_str(decimal(m.page_count() as u64).as_str());
    s.push_str(",\"message\":");
    s.push_str(json_str(m.message.as_str()).as_str());
    s.push_str("}");
    s
}

fn render_log_line(m: &Manifest) -> (s: String)
    ensures
        s@ == log_line(m@),
{
    let mut s = "snap ".to_string();
    s.push_str(short(m.id.as_str()).as_str());
    s.push_str("  ");
    s.push_str(format_utc(m.created).as_str());
    s.push_str("  ");
    s.push_str(align_right(decimal(m.page_count() as u64).as_str(), 5, ' ').as_str());
    s.push_str(" pages  ");
    if chars_of(m.message.as_str()).len() == 0 {
        s.push_str("(no message)");
    } else {
        s.push_str(m.message.as_str());
    }
    s
}

/// What `log` prints of the snapshots `ms`; `any` says whether there are any at all.
pub fn log_report(ms: &Vec<Manifest>, any: bool, as_json: bool) -> (lines: Vec<String>)
    ensures
        texts(lines@) == log_lines(manifest_views(ms@), any, as_json),
{
    let ghost vs = manifest_views(ms@);
    if !as_json && !any {
        return one_line("no snapshots yet (run `litegraft snap <db>`)".to_string());
    }
    let mut items: Vec<String> = Vec::new();
    let ghost wanted = Seq::new(
        vs.len(),
        |i: int|
            if as_json {
                log_json(vs[i])
            } else {
                log_line(vs[i])
            },
    );
    let mut i: usize = 0;
    assert(texts(items@) =~= wanted.take(0));
    while i < ms.len()
        invariant
            i <= ms@.len(),
            vs == manifest_views(ms@),
            wanted == Seq::new(
                vs.len(),
                |i: int|
                    if as_json {
                        log_json(vs[i])
                    } else {
                        log_line(vs[i])
                    },
            ),
            texts(items@) == wanted.take(i as int),
        decreases ms@.len() - i,
    {
        let item = if as_json {
            render_log_json(&ms[i])
        } else {
            render_log_line(&ms[i])
        };
        add_line(&mut items, item);
        assert(wanted.take(i + 1) =~= wanted.take(i as int).push(wanted[i as int]));
        i = i + 1;
    }
    assert(wanted.take(i as int) =~= wanted);
    if as_json {
        assert(wanted =~= Seq::new(vs.len(), |i: int| log_json(vs[i])));
        let mut s = "[".to_string();
        s.push_str(join_strings(&items, ",").as_str());
        s.push_str("]");
        one_line(s)
    } else {
        assert(wanted =~= Seq::new(vs.len(), |i: int| log_line(vs[i])));
        items
    }
}

/// What `log` prints, or why it cannot.
pub open spec fn log_output(s: StoreView, limit: Option<usize>, as_json: bool) -> Result<
    Seq<Seq<char>>,
    ErrorView,
> {
    match history(s, limit) {
        Err(e) => Err(e),
        Ok(ms) => Ok(log_lines(ms, head_snapshot(s)->Ok_0 is Some, as_json)),
    }
}

/// Lists the snapshots of the current branch, the newest first, at most `limit` of them.
pub fn cmd_log(store: &Store, limit: Option<usize>, as_json: bool) -> (r: Result<
    Vec<String>,
    Error,
>)
    requires
        store.wf(),
    ensures
        match r {
            Ok(lines) => log_output(store@, limit, as_json) == Ok::<Seq<Seq<char>>, ErrorView>(
                texts(lines@),
            ),
            Err(e) => log_output(store@, limit, as_json) == Err::<Seq<Seq<char>>, ErrorView>(e@),
        },
{
    let head = match read_head_snapshot(store) {
        Ok(h) => h,
        Err(e) => {
            return Err(e);
        },
    };
    let any = head.is_some();
    match read_history(store, head, limit) {
        Ok(ms) => Ok(log_report(&ms, any, as_json)),
        Err(e) => Err(e),
    }
}

} // verus!
