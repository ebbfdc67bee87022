//! One bookmark: a login address with optional extra arguments, and the
//! NUL-safe argument vector that it becomes when it is used.

use vstd::prelude::*;
use vstd::string::*;
use vstd::utf8::encode_utf8;

verus! {

/// What a bookmark holds, as mathematical values.
pub struct BookmarkModel {
    pub addr: Seq<char>,
    pub args: Option<Seq<Seq<char>>>,
}

/// The characters of each string of a sequence.
pub open spec fn strings_view(v: Seq<String>) -> Seq<Seq<char>> {
    v.map_values(|s: String| s@)
}

/// One bookmark: the login target and, when supplied, the extra arguments
/// that precede it on the login client's command line.
#[derive(Debug)]
pub struct Bookmark {
    pub addr: String,
    pub args: Option<Vec<String>>,
}

impl View for Bookmark {
    type V = BookmarkModel;

    open spec fn view(&self) -> BookmarkModel {
        BookmarkModel {
            addr: self.addr@,
            args: match self.args {
                Some(a) => Some(strings_view(a@)),
                None => None,
            },
        }
    }
}

/// The strings handed to the login client for a bookmark: the extra
/// arguments in their order, then the address.
pub open spec fn argument_strings(m: BookmarkModel) -> Seq<Seq<char>> {
    match m.args {
        Some(a) => a.push(m.addr),
        None => seq![m.addr],
    }
}

/// Whether the UTF-8 encoding of `s` holds a zero byte.
pub open spec fn has_nul(s: Seq<char>) -> bool {
    encode_utf8(s).contains(0u8)
}

/// The NUL-terminated form of `s`: its UTF-8 bytes, then one zero byte.
pub open spec fn c_string_bytes(s: Seq<char>) -> Seq<u8> {
    encode_utf8(s).push(0u8)
}

/// The bytes of each argument of a vector.
pub open spec fn bytes_view(v: Seq<Vec<u8>>) -> Seq<Seq<u8>> {
    v.map_values(|b: Vec<u8>| b@)
}

/// An argument string that holds a zero byte, at `index` in the argument
/// vector; such a string cannot be passed to a process.
#[derive(Debug, PartialEq, Eq, Structural)]
pub struct EmbeddedNul {
    pub index: usize,
}

/// Whether a byte sequence holds a zero byte.
fn holds_zero(b: &[u8]) -> (r: bool)
    ensures
        r == b@.contains(0u8),
{
    let mut i: usize = 0;
    while i < b.len()
        invariant
            i <= b@.len(),
            forall|j: int| 0 <= j < i ==> b@[j] != 0u8,
        decreases b@.len() - i,
    {
        if b[i] == 0u8 {
            return true;
        }
        i = i + 1;
    }
    false
}

/// The NUL-terminated bytes of `s`, or `None` where `s` holds a zero byte.
fn c_string(s: &String) -> (r: Option<Vec<u8>>)
    ensures
        match r {
            Some(b) => !has_nul(s@) && b@ == c_string_bytes(s@),
            None => has_nul(s@),
        },
{
    let bytes = s.as_str().as_bytes();
    if holds_zero(bytes) {
        return None;
    }
    let mut out: Vec<u8> = Vec::new();
    let mut i: usize = 0;
    while i < bytes.len()
        invariant
            i <= bytes@.len(),
            out@ == bytes@.subrange(0, i as int),
        decreases bytes@.len() - i,
    {
        out.push(bytes[i]);
        i = i + 1;
    }
    out.push(0u8);
    assert(bytes@.subrange(0, bytes@.len() as int) =~= bytes@);
    Some(out)
}

/// The text that `{:?}` gives for a list of strings.
pub uninterp spec fn debug_list_of(items: Seq<Seq<char>>) -> Seq<char>;

/// Relies on the `Debug` impl of `Vec<String>` (`format!("{:?}")`): the
/// bracketed list of quoted, escaped strings, which depends on the strings
/// alone.
#[verifier::external_body]
fn debug_list(items: &Vec<String>) -> (r: String)
    ensures
        r@ == debug_list_of(strings_view(items@)),
{
    format!("{:?}", items)
}

/// How a bookmark reads in a listing: its address always, its extra
/// arguments only when it has them.
pub open spec fn describe(m: BookmarkModel) -> Seq<char> {
    match m.args {
        Some(a) => "(addr: "@ + m.addr + ", args: "@ + debug_list_of(a) + ")"@,
        None => "(addr: "@ + m.addr + ")"@,
    }
}

impl Bookmark {
    /// The bookmark as it reads in a listing.
    pub fn to_text(&self) -> (r: String)
        ensures
            r@ == describe(self@),
    {
        let mut out = String::new();
        out.append("(addr: ");
        out.append(self.addr.as_str());
        match &self.args {
            Some(a) => {
                out.append(", args: ");
                let d = debug_list(a);
                out.append(d.as_str());
                out.append(")");
            },
            None => {
                out.append(")");
            },
        }
        out
    }

    /// Spends the bookmark on an argument vector for the login client: the
    /// extra arguments, then the address, each NUL-terminated. Fails at the
    /// first string that holds a zero byte.
    pub fn into_cmd(self) -> (r: Result<Vec<Vec<u8>>, EmbeddedNul>)
        ensures
            match r {
                Ok(v) => {
                    &&& forall|i: int|
                        0 <= i < argument_strings(self@).len() ==> !has_nul(
                            #[trigger] argument_strings(self@)[i],
                        )
                    &&& bytes_view(v@) == argument_strings(self@).map_values(
                        |s: Seq<char>| c_string_bytes(s),
                    )
                },
                Err(e) => {
                    &&& e.index < argument_strings(self@).len()
                    &&& has_nul(argument_strings(self@)[e.index as int])
                    &&& forall|i: int|
                        0 <= i < e.index ==> !has_nul(#[trigger] argument_strings(self@)[i])
                },
            },
    {
        let ghost strs = argument_strings(self@);
        let mut all: Vec<String> = match self.args {
            Some(a) => a,
            None => Vec::new(),
        };
        all.push(self.addr);
        assert(strings_view(all@) =~= strs);
        let mut out: Vec<Vec<u8>> = Vec::new();
        let mut i: usize = 0;
        while i < all.len()
            invariant
                strings_view(all@) == strs,
                strs == argument_strings(self@),
                i <= all@.len(),
                forall|j: int| 0 <= j < i ==> !has_nul(#[trigger] strs[j]),
                out@.len() == i,
                forall|j: int| 0 <= j < i ==> #[trigger] out@[j]@ == c_string_bytes(strs[j]),
            decreases all@.len() - i,
        {
            assert(all@[i as int]@ == strs[i as int]);
            match c_string(&all[i]) {
                Some(b) => {
                    out.push(b);
                },
                None => {
                    return Err(EmbeddedNul { index: i });
                },
            }
            i = i + 1;
        }
        assert(bytes_view(out@) =~= strs.map_values(|s: Seq<char>| c_string_bytes(s)));
        Ok(out)
    }
}

} // verus!
