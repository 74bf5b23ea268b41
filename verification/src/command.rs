//! The command line: which command the arguments name, what it does to the
//! store, and what it prints.

use crate::error::{Error, USAGE};
use crate::format::{parse, serialize};
use crate::store::Database;
use crate::table;
use crate::table::{lookup, Table, Text};
use vstd::prelude::*;
use vstd::string::StringExecFns;

verus! {

/// A command, as the arguments give it.
#[derive(Debug)]
pub enum Command {
    /// Store a value under a key.
    Put { key: String, value: String },
    /// Print the value of a key.
    Get { key: String },
    /// Remove a key.
    Drop { key: String },
    /// Print every pair.
    Show,
    /// Any other command name: print how the program is called.
    Unknown,
}

/// A command with its arguments as character sequences.
pub enum Request {
    Put { key: Text, value: Text },
    Get { key: Text },
    Drop { key: Text },
    Show,
    Unknown,
}

impl View for Command {
    type V = Request;

    open spec fn view(&self) -> Request {
        match self {
            Command::Put { key, value } => Request::Put { key: key@, value: value@ },
            Command::Get { key } => Request::Get { key: key@ },
            Command::Drop { key } => Request::Drop { key: key@ },
            Command::Show => Request::Show,
            Command::Unknown => Request::Unknown,
        }
    }
}

/// The command that the arguments name. The first argument is the command's
/// name, in lower case; `put` needs a key and a value after it, `get` and
/// `drop` need a key, and further arguments are passed over. A name that is
/// none of the four is no failure.
pub open spec fn request_of(args: Seq<Text>) -> Result<Request, Error> {
    if args.len() == 0 {
        Err(Error::MissingArgument)
    } else if args[0] == "put"@ {
        if args.len() >= 3 {
            Ok(Request::Put { key: args[1], value: args[2] })
        } else {
            Err(Error::MissingArgument)
        }
    } else if args[0] == "get"@ {
        if args.len() >= 2 {
            Ok(Request::Get { key: args[1] })
        } else {
            Err(Error::MissingArgument)
        }
    } else if args[0] == "drop"@ {
        if args.len() >= 2 {
            Ok(Request::Drop { key: args[1] })
        } else {
            Err(Error::MissingArgument)
        }
    } else if args[0] == "show"@ {
        Ok(Request::Show)
    } else {
        Ok(Request::Unknown)
    }
}

/// A printed pair: what is said of it, the key, an arrow, the value.
pub open spec fn shown(said: Text, key: Text, value: Text) -> Text {
    said + key + " -> "@ + value
}

/// The listing of a table: one line for each pair, in the table's order.
pub open spec fn listing(t: Table) -> Seq<Text> {
    Seq::new(t.len(), |i: int| shown(Seq::empty(), t[i].0, t[i].1))
}

/// The lines that a command prints when it is run on the table `t`, or the
/// failure that ends it: `get` and `drop` fail on a key that is not stored.
pub open spec fn reply(t: Table, r: Request) -> Result<Seq<Text>, Error> {
    match r {
        Request::Put { key, value } => Ok(
            seq![
                shown(
                    if lookup(t, key) is Some {
                        "Replaced: "@
                    } else {
                        "Put: "@
                    },
                    key,
                    value,
                ),
            ],
        ),
        Request::Get { key } => match lookup(t, key) {
            Some(value) => Ok(seq![shown(Seq::empty(), key, value)]),
            None => Err(Error::KeyNotFound),
        },
        Request::Drop { key } => match lookup(t, key) {
            Some(value) => Ok(seq![shown("Dropped: "@, key, value)]),
            None => Err(Error::KeyNotFound),
        },
        Request::Show => Ok(listing(t)),
        Request::Unknown => Ok(seq![USAGE@]),
    }
}

/// The table that a command leaves when it is run on the table `t`.
pub open spec fn effect(t: Table, r: Request) -> Table {
    match r {
        Request::Put { key, value } => table::put(t, key, value),
        Request::Drop { key } => table::erase(t, key),
        _ => t,
    }
}

/// One run of the program, from the saved text and the arguments to the
/// lines printed and the text saved at the end. The command name is looked
/// for first, then the saved text is read, then the command is made out and
/// carried out; the first of these that fails ends the run, and nothing is
/// saved then.
pub open spec fn outcome(contents: Text, args: Seq<Text>) -> Result<(Seq<Text>, Text), Error> {
    if args.len() == 0 {
        Err(Error::MissingArgument)
    } else {
        match parse(contents) {
            None => Err(Error::CorruptData),
            Some(t) => match request_of(args) {
                Err(e) => Err(e),
                Ok(r) => match reply(t, r) {
                    Err(e) => Err(e),
                    Ok(printed) => Ok((printed, serialize(effect(t, r)))),
                },
            },
        }
    }
}

/// Whether `s` is the word `word`.
fn is_word(s: &String, word: &str) -> (same: bool)
    ensures
        same == (s@ == word@),
{
    *s == String::from_str(word)
}

/// The line for a pair.
fn show_pair(said: &str, key: &String, value: &String) -> (line: String)
    ensures
        line@ == shown(said@, key@, value@),
{
    let mut line = String::from_str(said);
    line.append(key.as_str());
    line.append(" -> ");
    line.append(value.as_str());
    line
}

impl Command {
    /// Makes out the command that the arguments name; `args` holds what
    /// follows the program's name.
    pub fn parse(args: &Vec<String>) -> (parsed: Result<Command, Error>)
        ensures
            match parsed {
                Ok(command) => request_of(args.deep_view()) == Ok::<Request, Error>(command@),
                Err(e) => request_of(args.deep_view()) == Err::<Request, Error>(e),
            },
    {
        let n = args.len();
        if n == 0 {
            return Err(Error::MissingArgument);
        }
        assert(args.deep_view()[0] == args@[0]@);
        if is_word(&args[0], "put") {
            if n >= 3 {
                assert(args.deep_view()[1] == args@[1]@);
                assert(args.deep_view()[2] == args@[2]@);
                Ok(Command::Put { key: args[1].clone(), value: args[2].clone() })
            } else {
                Err(Error::MissingArgument)
            }
        } else if is_word(&args[0], "get") {
            if n >= 2 {
                assert(args.deep_view()[1] == args@[1]@);
                Ok(Command::Get { key: args[1].clone() })
            } else {
                Err(Error::MissingArgument)
            }
        } else if is_word(&args[0], "drop") {
            if n >= 2 {
                assert(args.deep_view()[1] == args@[1]@);
                Ok(Command::Drop { key: args[1].clone() })
            } else {
                Err(Error::MissingArgument)
            }
        } else if is_word(&args[0], "show") {
            Ok(Command::Show)
        } else {
            Ok(Command::Unknown)
        }
    }

    /// Carries the command out on the store and returns the lines to print.
    /// A command that fails leaves the store as it was.
    pub fn apply(self, db: &mut Database) -> (printed: Result<Vec<String>, Error>)
        requires
            old(db).wf(),
        ensures
            final(db).wf(),
            final(db)@ == effect(old(db)@, self@),
            match printed {
                Ok(out) => reply(old(db)@, self@) == Ok::<Seq<Text>, Error>(out.deep_view()),
                Err(e) => reply(old(db)@, self@) == Err::<Seq<Text>, Error>(e) && final(db)@ == old(
                    db,
                )@,
            },
    {
        let mut out: Vec<String> = Vec::new();
        match self {
            Command::Put { key, value } => {
                let line = match db.put(key.clone(), value.clone()) {
                    Some(_) => show_pair("Replaced: ", &key, &value),
                    None => show_pair("Put: ", &key, &value),
                };
                out.push(line);
            },
            Command::Get { key } => {
                match db.get(&key) {
                    Some(value) => {
                        let line = show_pair("", &key, &value);
                        proof {
                            reveal_strlit("");
                            assert(""@ =~= Seq::<char>::empty());
                        }
                        out.push(line);
                    },
                    None => {
                        return Err(Error::KeyNotFound);
                    },
                }
            },
            Command::Drop { key } => {
                match db.drop(&key) {
                    Some(value) => {
                        out.push(show_pair("Dropped: ", &key, &value));
                    },
                    None => {
                        return Err(Error::KeyNotFound);
                    },
                }
            },
            Command::Show => {
                let pairs = db.entries();
                let mut i: usize = 0;
                proof {
                    reveal_strlit("");
                    assert(""@ =~= Seq::<char>::empty());
                }
                while i < pairs.len()
                    invariant
                        i <= pairs.len(),
                        out.len() == i,
                        ""@ == Seq::<char>::empty(),
                        forall|j: int|
                            0 <= j < i ==> out@[j]@ == shown(
                                Seq::empty(),
                                pairs@[j].0@,
                                pairs@[j].1@,
                            ),
                    decreases pairs.len() - i,
                {
                    out.push(show_pair("", &pairs[i].0, &pairs[i].1));
                    i += 1;
                }
                assert(out.deep_view() =~= listing(db@)) by {
                    assert(pairs.deep_view() == db@);
                    assert forall|j: int| 0 <= j < pairs.len() implies db@[j] == (
                        pairs@[j].0@,
                        pairs@[j].1@,
                    ) by {
                        assert(pairs.deep_view()[j] == (pairs@[j].0@, pairs@[j].1@));
                    }
                }
            },
            Command::Unknown => {
                out.push(String::from_str(USAGE));
            },
        }
        assert(out.deep_view() =~= reply(old(db)@, self@)->Ok_0);
        Ok(out)
    }
}

/// Runs the program once: reads the store from `contents`, carries out the
/// command that `args` name, and returns the lines to print together with
/// the text to save. `args` holds what follows the program's name.
pub fn run(contents: &str, args: &Vec<String>) -> (ran: Result<(Vec<String>, String), Error>)
    ensures
        match ran {
            Ok(done) => outcome(contents@, args.deep_view()) == Ok::<(Seq<Text>, Text), Error>(
                done.deep_view(),
            ),
            Err(e) => outcome(contents@, args.deep_view()) == Err::<(Seq<Text>, Text), Error>(e),
        },
{
    if args.len() == 0 {
        return Err(Error::MissingArgument);
    }
    let mut db = match Database::load(contents) {
        Ok(db) => db,
        Err(e) => {
            return Err(e);
        },
    };
    let command = match Command::parse(args) {
        Ok(command) => command,
        Err(e) => {
            return Err(e);
        },
    };
    let printed = match command.apply(&mut db) {
        Ok(printed) => printed,
        Err(e) => {
            return Err(e);
        },
    };
    let saved = db.commit();
    Ok((printed, saved))
}

} // verus!
