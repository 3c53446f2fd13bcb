//! What the commands work on: the working database file, and the lines they print.

use vstd::prelude::*;
use vstd::slice::slice_to_vec;

use crate::dbfile::open_file;
use crate::dbfile::DbFile;
use crate::dbfile::DbHeader;
use crate::dbfile::PageSource;
use crate::error::refused;
use crate::error::Error;
use crate::error::ErrorView;
use crate::snapshot::Sidecars;
use crate::text::texts;

pub use crate::args::parse_args;
pub use crate::args::plan;
pub use crate::args::Args;
pub use crate::args::Command;
pub use crate::args::Plan;
pub use crate::args::USAGE;
pub use crate::calendar::format_utc;
pub use crate::render::human_bytes;
pub use crate::render::json_str;
pub use crate::render::short;

verus! {

/// The working database file, as it was found.
pub struct Working {
    pub path: String,
    /// Is there anything at this path?
    pub exists: bool,
    /// The content of the file, or why it cannot be read.
    pub content: Result<Vec<u8>, String>,
    /// The files beside it.
    pub beside: Sidecars,
}

/// The header of the working file, or why it cannot be opened.
pub open spec fn working_header(w: Working) -> Result<DbHeader, ErrorView> {
    match w.content {
        Err(why) => Err(refused("cannot open "@ + w.path@ + ": "@ + why@)),
        Ok(bytes) => open_file(w.path@, bytes@),
    }
}

/// `db` is the working file, opened.
pub open spec fn is_opened(db: DbFile, w: Working) -> bool {
    &&& db.wf()
    &&& db.path@ == w.path@
    &&& w.content matches Ok(bytes) && db.bytes@ == bytes@
    &&& working_header(w) == Ok::<DbHeader, ErrorView>(db.header)
}

/// Opens the working file.
pub fn open_working(w: &Working) -> (r: Result<DbFile, Error>)
    ensures
        match r {
            Ok(db) => is_opened(db, *w),
            Err(e) => working_header(*w) == Err::<DbHeader, ErrorView>(e@),
        },
{
    match &w.content {
        Err(why) => {
            let mut m = "cannot open ".to_string();
            m.push_str(w.path.as_str());
            m.push_str(": ");
            m.push_str(why.as_str());
            Err(Error::refused(m))
        },
        Ok(bytes) => DbFile::open(w.path.as_str(), slice_to_vec(bytes.as_slice())),
    }
}

/// One line of output.
pub fn one_line(line: String) -> (v: Vec<String>)
    ensures
        texts(v@) == seq![line@],
{
    let ghost l = line@;
    let mut v: Vec<String> = Vec::new();
    v.push(line);
    assert(texts(v@) =~= seq![l]);
    v
}

/// Two lines of output.
pub fn two_lines(first: String, second: String) -> (v: Vec<String>)
    ensures
        texts(v@) == seq![first@, second@],
{
    let ghost (a, b) = (first@, second@);
    let mut v: Vec<String> = Vec::new();
    v.push(first);
    v.push(second);
    assert(texts(v@) =~= seq![a, b]);
    v
}

/// Adds a line of output.
pub fn add_line(v: &mut Vec<String>, line: String)
    ensures
        texts(final(v)@) == texts(old(v)@).push(line@),
{
    let ghost before = texts(v@);
    let ghost l = line@;
    v.push(line);
    assert(texts(v@) =~= before.push(l));
}

} // verus!
