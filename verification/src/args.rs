//! The command line: what is asked for, and of which database.

use vstd::prelude::*;

use crate::numerals::is_digit;
use crate::numerals::number_upto;
use crate::numerals::parse_number;
use crate::store::default_store_dir;
use crate::text::begins;
use crate::text::chars_of;
use crate::text::quote;
use crate::text::quoted;
use crate::text::same_text;
use crate::text::texts;

verus! {

/// How the program is used.
pub const USAGE: &'static str = "litegraft — instant branch, snapshot and diff for SQLite database files

USAGE:
    litegraft <COMMAND> <db> [ARGS] [OPTIONS]

COMMANDS:
    init <db>                   Create a snapshot store next to the database
    snap <db> [-m <msg>]        Snapshot the database (page-level dedup)
    log <db>                    Snapshot history of the current branch
    branch <db> [<name>]        List branches, or fork one at the current head
    checkout <db> <ref>         Restore the file from a branch or snapshot
    status <db>                 Working file vs current branch head
    diff <db> [<ref> [<ref>]]   Page diff attributed to tables (default: head vs @)
    tables <db> [<ref>]         Page-ownership breakdown of a state
    verify <db>                 Re-hash every object, validate every manifest
    gc <db>                     Delete objects unreachable from any snapshot

REFS:
    a branch name, a snapshot id (or unique prefix >= 4 hex chars),
    or `@` for the working database file.

OPTIONS:
    --store <dir>        Store directory (default: <db>.litegraft)
    --json               Machine-readable output
    -m, --message <msg>  Snapshot message (snap)
    --at <ref>           Fork point for `branch` (default: current head)
    --allow-wal          Proceed even if -wal holds uncheckpointed frames
    --force              Checkout even if the working state is not snapshotted
    --limit <n>          Maximum entries for `log` (default: all)
    -h, --help           Print this help
    -V, --version        Print version";

/// A command line, taken apart.
#[derive(Debug, Clone, PartialEq, Eq)]
pub struct Args {
    pub command: String,
    pub positional: Vec<String>,
    pub store: Option<String>,
    pub json: bool,
    pub message: String,
    pub at: Option<String>,
    pub allow_wal: bool,
    pub force: bool,
    pub limit: Option<usize>,
}

/// The mathematical value of [`Args`].
#[verifier::ext_equal]
pub struct ArgsView {
    pub command: Seq<char>,
    pub positional: Seq<Seq<char>>,
    pub store: Option<Seq<char>>,
    pub json: bool,
    pub message: Seq<char>,
    pub at: Option<Seq<char>>,
    pub allow_wal: bool,
    pub force: bool,
    pub limit: Option<usize>,
}

impl View for Args {
    type V = ArgsView;

    open spec fn view(&self) -> ArgsView {
        ArgsView {
            command: self.command@,
            positional: texts(self.positional@),
            store: match self.store {
                None => None,
                Some(s) => Some(s@),
            },
            json: self.json,
            message: self.message@,
            at: match self.at {
                None => None,
                Some(s) => Some(s@),
            },
            allow_wal: self.allow_wal,
            force: self.force,
            limit: self.limit,
        }
    }
}

/// What a word of the command line is.
#[derive(Debug, Clone, Copy, PartialEq, Eq, Structural)]
pub enum Word {
    Help,
    Version,
    Json,
    AllowWal,
    Force,
    Message,
    StoreDir,
    At,
    Limit,
    /// An option that does not exist.
    Unknown,
    /// The command, or one of its arguments.
    Plain,
}

/// What the word `s` is. A dash alone, and a dash before a digit, start no option.
pub open spec fn word_of(s: Seq<char>) -> Word {
    if s == "-h"@ || s == "--help"@ {
        Word::Help
    } else if s == "-V"@ || s == "--version"@ {
        Word::Version
    } else if s == "--json"@ {
        Word::Json
    } else if s == "--allow-wal"@ {
        Word::AllowWal
    } else if s == "--force"@ {
        Word::Force
    } else if s == "-m"@ || s == "--message"@ {
        Word::Message
    } else if s == "--store"@ {
        Word::StoreDir
    } else if s == "--at"@ {
        Word::At
    } else if s == "--limit"@ {
        Word::Limit
    } else if begins(s, '-') && s.len() > 1 && !is_digit(s[1]) {
        Word::Unknown
    } else {
        Word::Plain
    }
}

/// What the word `s` is.
fn classify(s: &str) -> (w: Word)
    ensures
        w == word_of(s@),
{
    if same_text(s, "-h") || same_text(s, "--help") {
        Word::Help
    } else if same_text(s, "-V") || same_text(s, "--version") {
        Word::Version
    } else if same_text(s, "--json") {
        Word::Json
    } else if same_text(s, "--allow-wal") {
        Word::AllowWal
    } else if same_text(s, "--force") {
        Word::Force
    } else if same_text(s, "-m") || same_text(s, "--message") {
        Word::Message
    } else if same_text(s, "--store") {
        Word::StoreDir
    } else if same_text(s, "--at") {
        Word::At
    } else if same_text(s, "--limit") {
        Word::Limit
    } else {
        let v = chars_of(s);
        if v.len() > 1 && v[0] == '-' && !('0' <= v[1] && v[1] <= '9') {
            Word::Unknown
        } else {
            Word::Plain
        }
    }
}

/// Does the word take the next one as its value?
pub open spec fn takes_value(w: Word) -> bool {
    w == Word::Message || w == Word::StoreDir || w == Word::At || w == Word::Limit
}

/// The arguments after an option with the value `v`, or that the value makes no sense.
pub open spec fn with_value(a: ArgsView, w: Word, v: Seq<char>) -> Result<ArgsView, Seq<char>> {
    if w == Word::Message {
        Ok(ArgsView { message: v, ..a })
    } else if w == Word::StoreDir {
        Ok(ArgsView { store: Some(v), ..a })
    } else if w == Word::At {
        Ok(ArgsView { at: Some(v), ..a })
    } else {
        match number_upto(v, usize::MAX as nat) {
            None => Err("--limit: not a number: "@ + v),
            Some(n) => Ok(ArgsView { limit: Some(n as usize), ..a }),
        }
    }
}

/// The arguments after the plain word `s`: the first is the command.
pub open spec fn with_plain(a: ArgsView, s: Seq<char>) -> ArgsView {
    if a.command.len() == 0 {
        ArgsView { command: s, ..a }
    } else {
        ArgsView { positional: a.positional.push(s), ..a }
    }
}

/// The arguments after the words from word `i` on, or what is wrong with them. Asking for
/// help is an error without words.
pub open spec fn args_from(words: Seq<Seq<char>>, i: nat, a: ArgsView) -> Result<
    ArgsView,
    Seq<char>,
>
    decreases words.len() - i,
{
    if i >= words.len() {
        if a.command.len() == 0 {
            Err("no command given"@)
        } else {
            Ok(a)
        }
    } else {
        let s = words[i as int];
        let w = word_of(s);
        if w == Word::Help {
            Err(Seq::empty())
        } else if w == Word::Version {
            Ok(ArgsView { command: "version"@, ..a })
        } else if w == Word::Json {
            args_from(words, i + 1, ArgsView { json: true, ..a })
        } else if w == Word::AllowWal {
            args_from(words, i + 1, ArgsView { allow_wal: true, ..a })
        } else if w == Word::Force {
            args_from(words, i + 1, ArgsView { force: true, ..a })
        } else if w == Word::Unknown {
            Err("unknown option "@ + s)
        } else if w == Word::Plain {
            args_from(words, i + 1, with_plain(a, s))
        } else if i + 1 >= words.len() {
            Err(s + " needs a value"@)
        } else {
            match with_value(a, w, words[i as int + 1]) {
                Err(m) => Err(m),
                Ok(b) => args_from(words, i + 2, b),
            }
        }
    }
}

/// No arguments yet.
pub open spec fn no_args() -> ArgsView {
    ArgsView {
        command: Seq::empty(),
        positional: Seq::empty(),
        store: None,
        json: false,
        message: Seq::empty(),
        at: None,
        allow_wal: false,
        force: false,
        limit: None,
    }
}

/// The arguments that `words` give, or what is wrong with them.
pub open spec fn args_of(words: Seq<Seq<char>>) -> Result<ArgsView, Seq<char>> {
    args_from(words, 0, no_args())
}

fn take_value(args: &mut Args, w: Word, v: &String) -> (r: Result<(), String>)
    requires
        takes_value(w),
    ensures
        match r {
            Ok(()) => with_value(old(args)@, w, v@) == Ok::<ArgsView, Seq<char>>(final(args)@),
            Err(m) => with_value(old(args)@, w, v@) == Err::<ArgsView, Seq<char>>(m@),
        },
{
    if w == Word::Message {
        args.message = v.clone();
    } else if w == Word::StoreDir {
        args.store = Some(v.clone());
    } else if w == Word::At {
        args.at = Some(v.clone());
    } else {
        match parse_number(v.as_str(), usize::MAX as u64) {
            None => {
                let mut m = "--limit: not a number: ".to_string();
                m.push_str(v.as_str());
                return Err(m);
            },
            Some(n) => {
                args.limit = Some(n as usize);
            },
        }
    }
    Ok(())
}

fn take_plain(args: &mut Args, s: &String)
    ensures
        final(args)@ == with_plain(old(args)@, s@),
{
    if chars_of(args.command.as_str()).len() == 0 {
        args.command = s.clone();
    } else {
        let ghost before = texts(args.positional@);
        args.positional.push(s.clone());
        assert(texts(args.positional@) =~= before.push(s@));
    }
}

/// Takes a command line apart. An empty error asks for help.
pub fn parse_args(argv: &[String]) -> (r: Result<Args, String>)
    ensures
        match r {
            Ok(a) => args_of(texts(argv@)) == Ok::<ArgsView, Seq<char>>(a@),
            Err(m) => args_of(texts(argv@)) == Err::<ArgsView, Seq<char>>(m@),
        },
{
    let mut args = Args {
        command: String::new(),
        positional: Vec::new(),
        store: None,
        json: false,
        message: String::new(),
        at: None,
        allow_wal: false,
        force: false,
        limit: None,
    };
    let ghost words = texts(argv@);
    assert(args@ =~= no_args());
    let mut i: usize = 0;
    while i < argv.len()
        invariant
            i <= argv@.len(),
            words == texts(argv@),
            args_of(words) == args_from(words, i as nat, args@),
        decreases argv@.len() - i,
    {
        assert(words[i as int] == argv@[i as int]@);
        let s = &argv[i];
        let w = classify(s.as_str());
        if w == Word::Help {
            let m = String::new();
            assert(m@ =~= Seq::empty());
            return Err(m);
        } else if w == Word::Version {
            args.command = "version".to_string();
            return Ok(args);
        } else if w == Word::Json {
            args.json = true;
            i = i + 1;
        } else if w == Word::AllowWal {
            args.allow_wal = true;
            i = i + 1;
        } else if w == Word::Force {
            args.force = true;
            i = i + 1;
        } else if w == Word::Unknown {
            let mut m = "unknown option ".to_string();
            m.push_str(s.as_str());
            return Err(m);
        } else if w == Word::Plain {
            take_plain(&mut args, s);
            i = i + 1;
        } else if i + 1 >= argv.len() {
            let mut m = s.clone();
            m.push_str(" needs a value");
            return Err(m);
        } else {
            if let Err(m) = take_value(&mut args, w, &argv[i + 1]) {
                return Err(m);
            }
            i = i + 2;
        }
    }
    if chars_of(args.command.as_str()).len() == 0 {
        return Err("no command given".to_string());
    }
    Ok(args)
}

// ---------------------------------------------------------------------------------------
// Dispatch
// ---------------------------------------------------------------------------------------
/// The commands.
#[derive(Debug, Clone, Copy, PartialEq, Eq, Structural)]
pub enum Command {
    Init,
    Snap,
    Log,
    Branch,
    Checkout,
    Status,
    Diff,
    Tables,
    Verify,
    Gc,
}

/// The command of this name.
pub open spec fn command_of(name: Seq<char>) -> Option<Command> {
    if name == "init"@ {
        Some(Command::Init)
    } else if name == "snap"@ {
        Some(Command::Snap)
    } else if name == "log"@ {
        Some(Command::Log)
    } else if name == "branch"@ {
        Some(Command::Branch)
    } else if name == "checkout"@ {
        Some(Command::Checkout)
    } else if name == "status"@ {
        Some(Command::Status)
    } else if name == "diff"@ {
        Some(Command::Diff)
    } else if name == "tables"@ {
        Some(Command::Tables)
    } else if name == "verify"@ {
        Some(Command::Verify)
    } else if name == "gc"@ {
        Some(Command::Gc)
    } else {
        None
    }
}

fn find_command(name: &str) -> (c: Option<Command>)
    ensures
        c == command_of(name@),
{
    if same_text(name, "init") {
        Some(Command::Init)
    } else if same_text(name, "snap") {
        Some(Command::Snap)
    } else if same_text(name, "log") {
        Some(Command::Log)
    } else if same_text(name, "branch") {
        Some(Command::Branch)
    } else if same_text(name, "checkout") {
        Some(Command::Checkout)
    } else if same_text(name, "status") {
        Some(Command::Status)
    } else if same_text(name, "diff") {
        Some(Command::Diff)
    } else if same_text(name, "tables") {
        Some(Command::Tables)
    } else if same_text(name, "verify") {
        Some(Command::Verify)
    } else if same_text(name, "gc") {
        Some(Command::Gc)
    } else {
        None
    }
}

/// What a command line asks for.
pub enum Plan {
    /// Print the usage.
    Usage,
    /// Print the version.
    Version,
    /// Print these complaints, and fail.
    Refuse(Vec<String>),
    /// Run a command on the database `db` and the store at `store_dir`.
    Run { command: Command, args: Args, db: String, store_dir: String },
}

/// The mathematical value of a [`Plan`].
pub enum PlanView {
    Usage,
    Version,
    Refuse(Seq<Seq<char>>),
    Run { command: Command, args: ArgsView, db: Seq<char>, store_dir: Seq<char> },
}

impl View for Plan {
    type V = PlanView;

    open spec fn view(&self) -> PlanView {
        match self {
            Plan::Usage => PlanView::Usage,
            Plan::Version => PlanView::Version,
            Plan::Refuse(lines) => PlanView::Refuse(texts(lines@)),
            Plan::Run { command, args, db, store_dir } => PlanView::Run {
                command: *command,
                args: args@,
                db: db@,
                store_dir: store_dir@,
            },
        }
    }
}

/// Where the store of `db` lies: where the arguments say, or next to the database.
pub open spec fn store_dir_of(a: ArgsView, db: Seq<char>) -> Seq<char> {
    match a.store {
        Some(dir) => dir,
        None => db + ".litegraft"@,
    }
}

/// What the arguments ask for.
pub open spec fn plan_for(a: ArgsView) -> PlanView {
    if a.command == "version"@ {
        PlanView::Version
    } else if a.positional.len() == 0 {
        PlanView::Refuse(seq!["litegraft "@ + a.command + ": a database path is required"@])
    } else {
        match command_of(a.command) {
            None => PlanView::Refuse(
                seq![
                    "litegraft: unknown command "@ + quoted(a.command),
                    "run `litegraft --help` for usage"@,
                ],
            ),
            Some(command) => PlanView::Run {
                command,
                args: a,
                db: a.positional[0],
                store_dir: store_dir_of(a, a.positional[0]),
            },
        }
    }
}

/// What a command line asks for.
pub open spec fn plan_of(words: Seq<Seq<char>>) -> PlanView {
    match args_of(words) {
        Ok(a) => plan_for(a),
        Err(m) => if m.len() == 0 {
            PlanView::Usage
        } else {
            PlanView::Refuse(seq!["litegraft: "@ + m, "run `litegraft --help` for usage"@])
        },
    }
}

/// What a command line asks for.
pub fn plan(argv: &[String]) -> (p: Plan)
    ensures
        p@ == plan_of(texts(argv@)),
{
    let args = match parse_args(argv) {
        Ok(a) => a,
        Err(m) => {
            if chars_of(m.as_str()).len() == 0 {
                return Plan::Usage;
            }
            let mut first = "litegraft: ".to_string();
            first.push_str(m.as_str());
            let mut lines: Vec<String> = Vec::new();
            lines.push(first);
            lines.push("run `litegraft --help` for usage".to_string());
            assert(texts(lines@) =~= seq![
                "litegraft: "@ + m@,
                "run `litegraft --help` for usage"@,
            ]);
            return Plan::Refuse(lines);
        },
    };
    if same_text(args.command.as_str(), "version") {
        return Plan::Version;
    }
    let mut lines: Vec<String> = Vec::new();
    if args.positional.len() == 0 {
        let mut first = "litegraft ".to_string();
        first.push_str(args.command.as_str());
        first.push_str(": a database path is required");
        let ghost l = first@;
        lines.push(first);
        assert(texts(lines@) =~= seq![l]);
        return Plan::Refuse(lines);
    }
    match find_command(args.command.as_str()) {
        None => {
            let mut first = "litegraft: unknown command ".to_string();
            first.push_str(quote(args.command.as_str()).as_str());
            let ghost l = first@;
            lines.push(first);
            lines.push("run `litegraft --help` for usage".to_string());
            assert(texts(lines@) =~= seq![l, "run `litegraft --help` for usage"@]);
            Plan::Refuse(lines)
        },
        Some(command) => {
            let db = args.positional[0].clone();
            let store_dir = match &args.store {
                Some(dir) => dir.clone(),
                None => default_store_dir(db.as_str()),
            };
            Plan::Run { command, args, db, store_dir }
        },
    }
}

} // verus!
