//! The greeting: `Hello, NAME!`, in capitals on request.

use vstd::prelude::*;
use vstd::string::*;

verus! {

/// The upper-case form of a text, as `str::to_uppercase` of the standard
/// library gives it: the Unicode mapping of each character, which may change
/// the number of characters.
pub uninterp spec fn uppercase(text: Seq<char>) -> Seq<char>;

/// The greeting for a name as it is written.
pub open spec fn plain_greeting(name: Seq<char>) -> Seq<char> {
    seq!['H', 'e', 'l', 'l', 'o', ',', ' '] + name + seq!['!']
}

/// The greeting for a name, in capitals if `upper` is set.
pub open spec fn greeting_text(name: Seq<char>, upper: bool) -> Seq<char> {
    if upper {
        uppercase(plain_greeting(name))
    } else {
        plain_greeting(name)
    }
}

/// Calls `str::to_uppercase` of the standard library.
///
/// The result is a function of the text alone and goes by the name
/// [`uppercase`]; nothing more is claimed of it.
#[verifier::external_body]
fn to_uppercase(text: &str) -> (upper: String)
    ensures
        upper@ == uppercase(text@),
{
    text.to_uppercase()
}

/// Writes the greeting for `name`: `Hello, `, the name, and `!`.
pub fn greet(name: &str) -> (text: String)
    ensures
        text@ == plain_greeting(name@),
{
    proof {
        reveal_strlit("Hello, ");
        reveal_strlit("!");
    }
    let mut text = String::from_str("Hello, ");
    text.append(name);
    text.append("!");
    assert(text@ =~= plain_greeting(name@));
    text
}

/// Writes the greeting for `name`, in capitals if `upper` is set.
pub fn greeting(name: &str, upper: bool) -> (text: String)
    ensures
        text@ == greeting_text(name@, upper),
{
    let plain = greet(name);
    if upper {
        to_uppercase(plain.as_str())
    } else {
        plain
    }
}

} // verus!
