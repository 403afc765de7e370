//! Names for things that were given none.

use rand::Rng;
use vstd::prelude::*;

verus! {

/// The characters that a generated name is made of: the capital letters, the
/// small letters and the digits.
pub const CHARSET: &'static str = "ABCDEFGHIJKLMNOPQRSTUVWXYZabcdefghijklmnopqrstuvwxyz0123456789";

/// How long a generated name is where no length is asked for.
pub const DEFAULT_LENGTH: usize = 10;

/// `String::push` of std: the character is appended to the string.
pub assume_specification[ String::push ](text: &mut String, ch: char)
    ensures
        final(text)@ == old(text)@.push(ch),
;

/// `rand::thread_rng().gen_range(0..bound)`: a number below `bound`, drawn by
/// the thread's generator. Which number comes is not said. rand panics on an
/// empty range, so `bound` is not 0. The generator is seeded from the system
/// the first time a thread asks for it, and rand panics where the system has
/// no seed to give.
#[verifier::external_body]
fn random_below(bound: usize) -> (index: usize)
    requires
        bound > 0,
    ensures
        index < bound,
{
    rand::thread_rng().gen_range(0..bound)
}

/// `name` is made of characters of `CHARSET` only.
pub open spec fn is_id(name: Seq<char>) -> bool {
    forall|i: int| 0 <= i < name.len() ==> CHARSET@.contains(#[trigger] name[i])
}

/// A random name of `length` characters, or of `DEFAULT_LENGTH` where no
/// length is given, each drawn from `CHARSET`.
pub fn gen_id(length: Option<usize>) -> (id: String)
    ensures
        id@.len() == match length {
            Some(asked) => asked,
            None => DEFAULT_LENGTH,
        },
        is_id(id@),
{
    let length = match length {
        Some(asked) => asked,
        None => DEFAULT_LENGTH,
    };
    proof {
        reveal_strlit("ABCDEFGHIJKLMNOPQRSTUVWXYZabcdefghijklmnopqrstuvwxyz0123456789");
    }
    let mut id = String::new();
    let mut made: usize = 0;
    while made < length
        invariant
            made <= length,
            id@.len() == made,
            is_id(id@),
            CHARSET@.len() == 62,
        decreases length - made,
    {
        let index = random_below(62);
        let ch = CHARSET.get_char(index);
        id.push(ch);
        made += 1;
    }
    id
}

} // verus!
