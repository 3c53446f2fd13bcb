//! What the words of a command line mean, whatever stands around them.

use vstd::prelude::*;

use crate::args::args_from;
use crate::args::args_of;
use crate::args::no_args;
use crate::args::plan_of;
use crate::args::takes_value;
use crate::args::with_plain;
use crate::args::with_value;
use crate::args::word_of;
use crate::args::ArgsView;
use crate::args::PlanView;
use crate::args::Word;
use crate::numerals::number_upto;

verus! {

// ---------------------------------------------------------------------------------------
// Words
// ---------------------------------------------------------------------------------------
/// The options go by these names.
pub proof fn options_have_their_names()
    ensures
        word_of("-h"@) == Word::Help,
        word_of("--help"@) == Word::Help,
        word_of("-V"@) == Word::Version,
        word_of("--version"@) == Word::Version,
        word_of("--json"@) == Word::Json,
        word_of("--allow-wal"@) == Word::AllowWal,
        word_of("--force"@) == Word::Force,
        word_of("-m"@) == Word::Message,
        word_of("--message"@) == Word::Message,
        word_of("--store"@) == Word::StoreDir,
        word_of("--at"@) == Word::At,
        word_of("--limit"@) == Word::Limit,
{
    reveal_strlit("-h");
    reveal_strlit("--help");
    reveal_strlit("-V");
    reveal_strlit("--version");
    reveal_strlit("--json");
    reveal_strlit("--allow-wal");
    reveal_strlit("--force");
    reveal_strlit("-m");
    reveal_strlit("--message");
    reveal_strlit("--store");
    reveal_strlit("--at");
    reveal_strlit("--limit");
    assert("-h"@[1] == 'h' && "-V"@[1] == 'V' && "-m"@[1] == 'm');
    assert("--at"@.len() == 4 && "-h"@.len() == 2);
    assert("--help"@.len() == 6 && "--version"@.len() == 9);
    assert("--help"@[2] == 'h' && "--json"@[2] == 'j');
    assert("--version"@[2] == 'v' && "--message"@[2] == 'm');
    assert("--force"@[2] == 'f' && "--store"@[2] == 's' && "--limit"@[2] == 'l');
}

/// A word that does not start with a dash is the command or an argument; so are a dash alone and a
/// negative number.
pub proof fn plain_words(s: Seq<char>)
    requires
        s.len() == 0 || s[0] != '-' || s.len() == 1 || '0' <= s[1] <= '9',
    ensures
        word_of(s) == Word::Plain,
{
    reveal_strlit("-h");
    reveal_strlit("--help");
    reveal_strlit("-V");
    reveal_strlit("--version");
    reveal_strlit("--json");
    reveal_strlit("--allow-wal");
    reveal_strlit("--force");
    reveal_strlit("-m");
    reveal_strlit("--message");
    reveal_strlit("--store");
    reveal_strlit("--at");
    reveal_strlit("--limit");
    assert("-h"@[1] == 'h' && "-V"@[1] == 'V' && "-m"@[1] == 'm');
}

// ---------------------------------------------------------------------------------------
// Reading on
// ---------------------------------------------------------------------------------------
/// What `later` words gave, after what the `first` ones did: a flag that was given stays given, and
/// of a value that was given twice the later counts.
pub open spec fn followed_by(first: ArgsView, later: ArgsView) -> ArgsView {
    ArgsView {
        json: first.json || later.json,
        allow_wal: first.allow_wal || later.allow_wal,
        force: first.force || later.force,
        store: if later.store is Some {
            later.store
        } else {
            first.store
        },
        at: if later.at is Some {
            later.at
        } else {
            first.at
        },
        limit: if later.limit is Some {
            later.limit
        } else {
            first.limit
        },
        ..later
    }
}

proof fn read_on(words: Seq<Seq<char>>, i: nat, first: ArgsView, a: ArgsView)
    ensures
        args_from(words, i, a) matches Ok(r) ==> args_from(words, i, followed_by(first, a)) == Ok::<
            ArgsView,
            Seq<char>,
        >(followed_by(first, r)),
        args_from(words, i, a) is Err ==> args_from(words, i, followed_by(first, a)) == args_from(
            words,
            i,
            a,
        ),
    decreases words.len() - i,
{
    if i < words.len() {
        let s = words[i as int];
        let w = word_of(s);
        let b = followed_by(first, a);
        if w == Word::Json {
            let next = ArgsView { json: true, ..a };
            read_on(words, i + 1, first, next);
            assert(followed_by(first, next) == (ArgsView { json: true, ..b }));
        } else if w == Word::AllowWal {
            let next = ArgsView { allow_wal: true, ..a };
            read_on(words, i + 1, first, next);
            assert(followed_by(first, next) == (ArgsView { allow_wal: true, ..b }));
        } else if w == Word::Force {
            let next = ArgsView { force: true, ..a };
            read_on(words, i + 1, first, next);
            assert(followed_by(first, next) == (ArgsView { force: true, ..b }));
        } else if w == Word::Plain {
            read_on(words, i + 1, first, with_plain(a, s));
            assert(followed_by(first, with_plain(a, s)) == with_plain(b, s));
        } else if takes_value(w) && i + 1 < words.len() {
            let v = words[i as int + 1];
            match with_value(a, w, v) {
                Err(_) => {},
                Ok(next) => {
                    read_on(words, i + 2, first, next);
                    assert(with_value(b, w, v) == Ok::<ArgsView, Seq<char>>(
                        followed_by(first, next),
                    ));
                },
            }
        }
    }
}

proof fn read_later(lead: Seq<Seq<char>>, words: Seq<Seq<char>>, i: nat, a: ArgsView)
    ensures
        args_from(lead + words, lead.len() + i, a) == args_from(words, i, a),
    decreases words.len() - i,
{
    let all = lead + words;
    if i < words.len() {
        let s = words[i as int];
        let w = word_of(s);
        assert(all[(lead.len() + i) as int] == s);
        if w == Word::Json {
            read_later(lead, words, i + 1, ArgsView { json: true, ..a });
        } else if w == Word::AllowWal {
            read_later(lead, words, i + 1, ArgsView { allow_wal: true, ..a });
        } else if w == Word::Force {
            read_later(lead, words, i + 1, ArgsView { force: true, ..a });
        } else if w == Word::Plain {
            read_later(lead, words, i + 1, with_plain(a, s));
        } else if takes_value(w) && i + 1 < words.len() {
            let v = words[i as int + 1];
            assert(all[(lead.len() + i) as int + 1] == v);
            if let Ok(next) = with_value(a, w, v) {
                read_later(lead, words, i + 2, next);
            }
        }
    }
}

/// A flag in front of other words adds that flag and changes nothing else.
pub proof fn flags_add_to_the_rest(words: Seq<Seq<char>>, a: ArgsView)
    requires
        args_of(words) == Ok::<ArgsView, Seq<char>>(a),
    ensures
        args_of(seq!["--json"@] + words) == Ok::<ArgsView, Seq<char>>(ArgsView { json: true, ..a }),
        args_of(seq!["--allow-wal"@] + words) == Ok::<ArgsView, Seq<char>>(
            ArgsView { allow_wal: true, ..a },
        ),
        args_of(seq!["--force"@] + words) == Ok::<ArgsView, Seq<char>>(
            ArgsView { force: true, ..a },
        ),
{
    options_have_their_names();
    let j = ArgsView { json: true, ..no_args() };
    read_on(words, 0, j, no_args());
    read_later(seq!["--json"@], words, 0, j);
    assert((seq!["--json"@] + words)[0] == "--json"@);
    let w = ArgsView { allow_wal: true, ..no_args() };
    read_on(words, 0, w, no_args());
    read_later(seq!["--allow-wal"@], words, 0, w);
    assert((seq!["--allow-wal"@] + words)[0] == "--allow-wal"@);
    let f = ArgsView { force: true, ..no_args() };
    read_on(words, 0, f, no_args());
    read_later(seq!["--force"@], words, 0, f);
    assert((seq!["--force"@] + words)[0] == "--force"@);
}

/// An option with a value in front of other words gives that value, unless it is given again, and
/// changes nothing else.
pub proof fn values_add_to_the_rest(words: Seq<Seq<char>>, a: ArgsView, v: Seq<char>)
    requires
        args_of(words) == Ok::<ArgsView, Seq<char>>(a),
    ensures
        args_of(seq!["--at"@, v] + words) == Ok::<ArgsView, Seq<char>>(
            ArgsView {
                at: if a.at is Some {
                    a.at
                } else {
                    Some(v)
                },
                ..a
            },
        ),
        args_of(seq!["--store"@, v] + words) == Ok::<ArgsView, Seq<char>>(
            ArgsView {
                store: if a.store is Some {
                    a.store
                } else {
                    Some(v)
                },
                ..a
            },
        ),
        number_upto(v, usize::MAX as nat) matches Some(n) ==> args_of(seq!["--limit"@, v] + words)
            == Ok::<ArgsView, Seq<char>>(
            ArgsView {
                limit: if a.limit is Some {
                    a.limit
                } else {
                    Some(n as usize)
                },
                ..a
            },
        ),
        number_upto(v, usize::MAX as nat) is None ==> args_of(seq!["--limit"@, v] + words) is Err,
{
    options_have_their_names();
    let at = ArgsView { at: Some(v), ..no_args() };
    let p = seq!["--at"@, v];
    read_on(words, 0, at, no_args());
    read_later(p, words, 0, at);
    assert((p + words)[0] == "--at"@ && (p + words)[1] == v);
    let st = ArgsView { store: Some(v), ..no_args() };
    let q = seq!["--store"@, v];
    read_on(words, 0, st, no_args());
    read_later(q, words, 0, st);
    assert((q + words)[0] == "--store"@ && (q + words)[1] == v);
    let l = seq!["--limit"@, v];
    assert((l + words)[0] == "--limit"@ && (l + words)[1] == v);
    if let Some(n) = number_upto(v, usize::MAX as nat) {
        let li = ArgsView { limit: Some(n as usize), ..no_args() };
        read_on(words, 0, li, no_args());
        read_later(l, words, 0, li);
    }
}

/// After a command and its arguments, a message is the message: its last word counts as it stands,
/// whatever it looks like.
pub proof fn message_is_taken_as_it_stands(command: Seq<char>, db: Seq<char>, v: Seq<char>)
    requires
        word_of(command) == Word::Plain,
        word_of(db) == Word::Plain,
        command.len() > 0,
    ensures
        args_of(seq![command, db, "-m"@, v]) matches Ok(a) && a.message == v && a.command
            == command && a.positional == seq![db] && !a.json && !a.force && !a.allow_wal
            && a.at is None && a.store is None && a.limit is None,
{
    options_have_their_names();
    reveal_with_fuel(args_from, 5);
    assert(no_args().positional.push(db) =~= seq![db]);
}

proof fn one_more_positional(words: Seq<Seq<char>>, i: nat, s: Seq<char>, a: ArgsView)
    requires
        s.len() > 0,
        args_from(words, i, a) matches Ok(r) && r.command != "version"@,
        forall|k: int| i <= k < words.len() ==> (#[trigger] words[k]).len() > 0,
    ensures
        ({
            let r = args_from(words, i, a)->Ok_0;
            let b = ArgsView {
                command: s,
                positional: if a.command.len() == 0 {
                    a.positional
                } else {
                    seq![a.command] + a.positional
                },
                ..a
            };
            a.command.len() > 0 || a.positional.len() == 0 ==> args_from(words, i, b) == Ok::<
                ArgsView,
                Seq<char>,
            >(ArgsView { command: s, positional: seq![r.command] + r.positional, ..r })
        }),
    decreases words.len() - i,
{
    let b = ArgsView {
        command: s,
        positional: if a.command.len() == 0 {
            a.positional
        } else {
            seq![a.command] + a.positional
        },
        ..a
    };
    if (a.command.len() > 0 || a.positional.len() == 0) && i < words.len() {
        let t = words[i as int];
        let w = word_of(t);
        if w == Word::Json {
            one_more_positional(words, i + 1, s, ArgsView { json: true, ..a });
        } else if w == Word::AllowWal {
            one_more_positional(words, i + 1, s, ArgsView { allow_wal: true, ..a });
        } else if w == Word::Force {
            one_more_positional(words, i + 1, s, ArgsView { force: true, ..a });
        } else if w == Word::Plain {
            one_more_positional(words, i + 1, s, with_plain(a, t));
            if a.command.len() == 0 {
                assert(a.positional.push(t) =~= seq![t] + a.positional);
            } else {
                assert((seq![a.command] + a.positional).push(t) =~= seq![a.command]
                    + a.positional.push(t));
            }
        } else if takes_value(w) && i + 1 < words.len() {
            let v = words[i as int + 1];
            one_more_positional(words, i + 2, s, with_value(a, w, v)->Ok_0);
        }
    }
}

/// The first plain word is the command, and the others are its arguments, in order: a plain word
/// in front of others makes what was the command the first argument.
pub proof fn plain_words_keep_their_order(s: Seq<char>, words: Seq<Seq<char>>, a: ArgsView)
    requires
        word_of(s) == Word::Plain,
        s.len() > 0,
        args_of(words) == Ok::<ArgsView, Seq<char>>(a),
        a.command != "version"@,
        forall|k: int| 0 <= k < words.len() ==> (#[trigger] words[k]).len() > 0,
    ensures
        args_of(seq![s] + words) == Ok::<ArgsView, Seq<char>>(
            ArgsView { command: s, positional: seq![a.command] + a.positional, ..a },
        ),
        args_of(seq![s]) == Ok::<ArgsView, Seq<char>>(ArgsView { command: s, ..no_args() }),
{
    let first = ArgsView { command: s, ..no_args() };
    read_later(seq![s], words, 0, first);
    assert((seq![s] + words)[0] == s);
    one_more_positional(words, 0, s, no_args());
    reveal_with_fuel(args_from, 2);
}

/// A command line that starts by asking for help gets it; one that starts with an option that does
/// not exist, or ends with one that lacks its value, is refused, and so is one without a command.
pub proof fn bad_lines_are_refused(words: Seq<Seq<char>>, s: Seq<char>)
    ensures
        plan_of(seq!["--help"@] + words) is Usage,
        plan_of(seq!["--version"@] + words) is Version,
        s.len() > 1 && s[0] == '-' && !('0' <= s[1] <= '9') && word_of(s) == Word::Unknown
            ==> plan_of(seq![s] + words) is Refuse,
        plan_of(seq!["--at"@]) is Refuse,
        plan_of(seq!["--store"@]) is Refuse,
        plan_of(seq!["--limit"@]) is Refuse,
        plan_of(seq!["-m"@]) is Refuse,
        plan_of(Seq::empty()) is Refuse,
{
    options_have_their_names();
    reveal_strlit("unknown option ");
    reveal_strlit(" needs a value");
    reveal_strlit("no command given");
    assert((seq!["--help"@] + words)[0] == "--help"@);
    assert((seq!["--version"@] + words)[0] == "--version"@);
    assert((seq![s] + words)[0] == s);
}

/// A command runs on the database that is named first, with the store that the arguments name, or
/// else with the one next to the database.
pub proof fn command_runs_on_the_first_argument(words: Seq<Seq<char>>, a: ArgsView)
    requires
        args_of(words) == Ok::<ArgsView, Seq<char>>(a),
    ensures
        plan_of(words) matches PlanView::Run { command, args, db, store_dir } ==> {
            &&& args == a
            &&& a.positional.len() > 0
            &&& db == a.positional[0]
            &&& a.store matches Some(dir) ==> store_dir == dir
            &&& a.store is None ==> store_dir == db + ".litegraft"@
        },
        a.command != "version"@ && a.positional.len() == 0 ==> plan_of(words) is Refuse,
{
}

} // verus!
