//! The command line of the asset check.

use crate::text::same_text;
use vstd::prelude::*;

verus! {

/// What the words ask for.
#[derive(Clone, Copy, Debug, PartialEq, Eq, Structural)]
pub enum Request {
    /// The canonical lists of the sheet at this place among the words.
    Canon(usize),
    /// A check of every word as a model.
    Verify,
    /// How the program is used.
    Usage,
}

/// `--canon` takes exactly one sheet; any other words are models; no words ask for help.
pub open spec fn requested(words: Seq<Seq<char>>) -> Request {
    if words.len() == 0 {
        Request::Usage
    } else if words[0] != "--canon"@ {
        Request::Verify
    } else if words.len() == 2 {
        Request::Canon(1)
    } else {
        Request::Usage
    }
}

pub open spec fn words_of(args: Seq<String>) -> Seq<Seq<char>> {
    Seq::new(args.len(), |i: int| args[i]@)
}

/// Reads the words that follow the program's name.
pub fn request(args: &Vec<String>) -> (request: Request)
    ensures
        request == requested(words_of(args@)),
{
    if args.len() == 0 {
        return Request::Usage;
    }
    assert(words_of(args@)[0] == args@[0]@);
    if !same_text(args[0].as_str(), "--canon") {
        Request::Verify
    } else if args.len() == 2 {
        Request::Canon(1)
    } else {
        Request::Usage
    }
}

/// The exit code of a check: one where any model was refused.
pub fn exit_code(refused: &Vec<bool>) -> (code: i32)
    ensures
        code == if exists|i: int| 0 <= i < refused@.len() && #[trigger] refused@[i] {
            1i32
        } else {
            0
        },
{
    let mut i: usize = 0;
    while i < refused.len()
        invariant
            i <= refused@.len(),
            forall|j: int| 0 <= j < i ==> !#[trigger] refused@[j],
        decreases refused.len() - i,
    {
        if refused[i] {
            return 1;
        }
        i = i + 1;
    }
    0
}

} // verus!
