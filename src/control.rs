//! The decisions of one invocation: what it does to the store and what is
//! left for the caller to do (print, save, hand over to the login client).

use vstd::prelude::*;
use vstd::string::*;
use crate::args::{Args, Command};
use crate::bookmark::{
    Bookmark, BookmarkModel, EmbeddedNul, argument_strings, bytes_view, c_string_bytes, describe,
    has_nul,
};
use crate::bookmarks::{Bookmarks, lookup, new_entry, render};

verus! {

/// What the caller does once the store has been dealt with.
#[derive(Debug)]
pub enum Outcome {
    /// Print this text.
    Print(String),
    /// Write the changed store back.
    Save,
    /// Nothing: an overwrite was declined.
    Unchanged,
    /// Replace the process with the login client, with this argument
    /// vector; its first element is the client's name.
    Exec(Vec<Vec<u8>>),
}

/// Why an invocation fails.
#[derive(Debug)]
pub enum Failure {
    /// No bookmark is stored under this key.
    NotFound(String),
    /// A string of the bookmark cannot be passed to a process.
    EmbeddedNul(EmbeddedNul),
}

/// The login client's name, NUL-terminated: `ssh`.
pub open spec fn login_program() -> Seq<u8> {
    seq![115u8, 115u8, 104u8, 0u8]
}

/// Puts the login client's name in front of a bookmark's argument vector.
pub fn login_command(cmd: Vec<Vec<u8>>) -> (r: Vec<Vec<u8>>)
    ensures
        bytes_view(r@) == seq![login_program()] + bytes_view(cmd@),
{
    let mut r: Vec<Vec<u8>> = Vec::new();
    r.push(vec![115u8, 115u8, 104u8, 0u8]);
    let mut rest = cmd;
    let ghost orig = bytes_view(rest@);
    let ghost mut i: int = 0;
    assert(bytes_view(r@) =~= seq![login_program()] + orig.subrange(0, 0));
    while rest.len() > 0
        invariant
            0 <= i <= orig.len(),
            bytes_view(rest@) == orig.subrange(i, orig.len() as int),
            bytes_view(r@) == seq![login_program()] + orig.subrange(0, i),
        decreases rest@.len(),
    {
        let ghost rest0 = rest@;
        let ghost r0 = bytes_view(r@);
        proof {
            assert(bytes_view(rest0).len() == rest0.len());
            assert(bytes_view(rest0)[0] == rest0[0]@);
        }
        let b = rest.remove(0);
        proof {
            assert(b@ == orig[i]);
        }
        r.push(b);
        proof {
            assert(bytes_view(r@) =~= r0.push(orig[i]));
            assert(r0.push(orig[i]) =~= seq![login_program()] + orig.subrange(0, i + 1));
            assert(rest@ =~= rest0.subrange(1, rest0.len() as int));
            assert forall|j: int| 0 <= j < rest@.len() implies #[trigger] bytes_view(rest@)[j]
                == orig.subrange(i + 1, orig.len() as int)[j] by {
                assert(rest@[j] == rest0[j + 1]);
                assert(bytes_view(rest0)[j + 1] == orig[i + 1 + j]);
            }
            assert(bytes_view(rest@) =~= orig.subrange(i + 1, orig.len() as int));
            i = i + 1;
        }
    }
    assert(orig.subrange(0, i) =~= orig);
    r
}

/// Whether a line read in answer to the overwrite question says yes: with
/// its last character (the line feed) taken off, it is `y` or `Y`.
pub open spec fn is_yes(line: Seq<char>) -> bool {
    line.len() > 0 && (line.drop_last() == seq!['y'] || line.drop_last() == seq!['Y'])
}

/// Whether a line read in answer to the overwrite question says yes.
pub fn confirms(line: &str) -> (r: bool)
    ensures
        r == is_yes(line@),
{
    if line.unicode_len() != 2 {
        assert(line@.len() > 0 ==> line@.drop_last().len() != 1);
        return false;
    }
    let c = line.get_char(0);
    assert(line@.drop_last() =~= seq![c]);
    assert(seq![c][0] == c && seq!['y'][0] == 'y' && seq!['Y'][0] == 'Y');
    if c == 'y' {
        assert(seq![c] =~= seq!['y']);
    }
    if c == 'Y' {
        assert(seq![c] =~= seq!['Y']);
    }
    c == 'y' || c == 'Y'
}

/// The question put before a bookmark is overwritten.
pub open spec fn prompt_text(key: Seq<char>, existing: BookmarkModel) -> Seq<char> {
    "A bookmark named \""@ + key + "\" already exists. Overwrite it?\n"@ + describe(existing)
        + "\n[y/n]: "@
}

/// The key that an invocation would overwrite, if it adds under a key that
/// is taken.
pub open spec fn overwritten_key(store: Map<Seq<char>, BookmarkModel>, args: Args) -> Option<
    Seq<char>,
> {
    match args.command {
        Some(Command::Add { key, .. }) => if store.contains_key(key@) {
            Some(key@)
        } else {
            None
        },
        _ => None,
    }
}

/// The question to ask before `run`, where the invocation would overwrite a
/// bookmark; `None` where there is nothing to ask.
pub fn overwrite_prompt(store: &Bookmarks, args: &Args) -> (r: Option<String>)
    requires
        store.wf(),
    ensures
        match overwritten_key(store@, *args) {
            Some(k) => r is Some && r->0@ == prompt_text(k, store@[k]),
            None => r is None,
        },
{
    match &args.command {
        Some(Command::Add { key, .. }) => match store.get(key.as_str()) {
            Some(b) => {
                let mut out = String::new();
                out.append("A bookmark named \"");
                out.append(key.as_str());
                out.append("\" already exists. Overwrite it?\n");
                let d = b.to_text();
                out.append(d.as_str());
                out.append("\n[y/n]: ");
                Some(out)
            },
            None => None,
        },
        _ => None,
    }
}

/// Carries out one invocation on the store. `reply` is the line read in
/// answer to the question of `overwrite_prompt`, where one was asked.
/// Listing leaves the store as it is; removing and adding change it and ask
/// for it to be saved, but an overwrite goes ahead only on a yes; connecting
/// takes the bookmark out of the store, which is not saved, and gives the
/// login client's argument vector.
pub fn run(store: &mut Bookmarks, args: Args, reply: Option<&str>) -> (r: Result<Outcome, Failure>)
    requires
        old(store).wf(),
        args.command is None ==> args.key is Some,
    ensures
        final(store).wf(),
        match args.command {
            Some(Command::List) => {
                &&& *final(store) == *old(store)
                &&& match r {
                    Ok(Outcome::Print(t)) => t@ == render(old(store).listing()),
                    _ => false,
                }
            },
            Some(Command::Rm { key }) => match lookup(old(store)@, key@) {
                Some(_) => r matches Ok(Outcome::Save) && final(store)@ == old(store)@.remove(key@),
                None => {
                    &&& *final(store) == *old(store)
                    &&& match r {
                        Err(Failure::NotFound(k)) => k@ == key@,
                        _ => false,
                    }
                },
            },
            Some(Command::Add { key, val, ssh_args }) => if old(store)@.contains_key(key@) && !(
            reply is Some && is_yes(reply->0@)) {
                r matches Ok(Outcome::Unchanged) && *final(store) == *old(store)
            } else {
                &&& r matches Ok(Outcome::Save)
                &&& final(store)@ == old(store)@.insert(
                    key@,
                    new_entry(
                        val@,
                        match ssh_args {
                            Some(a) => Some(a@),
                            None => None,
                        },
                    ),
                )
            },
            None => {
                let key = args.key->0;
                match lookup(old(store)@, key@) {
                    None => {
                        &&& *final(store) == *old(store)
                        &&& match r {
                            Err(Failure::NotFound(k)) => k@ == key@,
                            _ => false,
                        }
                    },
                    Some(m) => {
                        let strs = argument_strings(m);
                        &&& final(store)@ == old(store)@.remove(key@)
                        &&& match r {
                            Ok(Outcome::Exec(v)) => {
                                &&& forall|i: int|
                                    0 <= i < strs.len() ==> !has_nul(#[trigger] strs[i])
                                &&& bytes_view(v@) == seq![login_program()] + strs.map_values(
                                    |s: Seq<char>| c_string_bytes(s),
                                )
                            },
                            Err(Failure::EmbeddedNul(e)) => {
                                &&& e.index < strs.len()
                                &&& has_nul(strs[e.index as int])
                                &&& forall|i: int| 0 <= i < e.index ==> !has_nul(#[trigger] strs[i])
                            },
                            _ => false,
                        }
                    },
                }
            },
        },
{
    match args.command {
        Some(Command::List) => Ok(Outcome::Print(store.to_text())),
        Some(Command::Rm { key }) => match store.remove(key.as_str()) {
            Some(_) => Ok(Outcome::Save),
            None => Err(Failure::NotFound(key)),
        },
        Some(Command::Add { key, val, ssh_args }) => {
            if store.get(key.as_str()).is_some() {
                let yes = match reply {
                    Some(line) => confirms(line),
                    None => false,
                };
                if !yes {
                    return Ok(Outcome::Unchanged);
                }
            }
            let a: Option<&str> = match &ssh_args {
                Some(s) => Some(s.as_str()),
                None => None,
            };
            store.insert(key.as_str(), val.as_str(), a);
            Ok(Outcome::Save)
        },
        None => {
            let key = match args.key {
                Some(k) => k,
                None => String::new(),
            };
            match store.remove(key.as_str()) {
                Some(b) => match b.into_cmd() {
                    Ok(cmd) => Ok(Outcome::Exec(login_command(cmd))),
                    Err(e) => Err(Failure::EmbeddedNul(e)),
                },
                None => Err(Failure::NotFound(key)),
            }
        },
    }
}

} // verus!
