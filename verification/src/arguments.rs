//! What the command line says: the value of an option, and where the
//! authentication token comes from.

use vstd::prelude::*;
use vstd::string::*;
use vstd::utf8::encode_utf8;

use crate::text::{chars_of, same_text, string_of, texts};

verus! {

/// The longest token that is taken from standard input, in bytes.
pub const MAX_STDIN_TOKEN_BYTES: usize = 256;

/// The value behind the first occurrence of an option that has one.
pub open spec fn value_of(args: Seq<Seq<char>>, name: Seq<char>) -> Option<Seq<char>>
    decreases args.len(),
{
    if args.len() < 2 {
        None
    } else if args[0] == name {
        Some(args[1])
    } else {
        value_of(args.drop_first(), name)
    }
}

/// Finds the value behind an option.
pub fn argument_value(args: &[String], name: &str) -> (value: Option<String>)
    ensures
        value is Some <==> value_of(texts(args@), name@) is Some,
        value matches Some(text) ==> value_of(texts(args@), name@) == Some(text@),
{
    let mut i: usize = 0;
    proof {
        assert(texts(args@).skip(0) =~= texts(args@));
    }
    while i < args.len() && i + 1 < args.len()
        invariant
            i <= args@.len(),
            value_of(texts(args@), name@) == value_of(texts(args@).skip(i as int), name@),
        decreases args@.len() - i,
    {
        let ghost rest = texts(args@).skip(i as int);
        proof {
            assert(rest.drop_first() =~= texts(args@).skip(i + 1));
        }
        if same_text(args[i].as_str(), name) {
            return Some(args[i + 1].clone());
        }
        i += 1;
    }
    None
}

/// Where the authentication token of a managed agent comes from.
pub enum TokenSource {
    /// It stands on the command line.
    Given(String),
    /// It comes through standard input.
    Stdin,
    /// There is none: the agent runs one probe and ends.
    Absent,
}

/// The token on the command line comes before standard input.
pub open spec fn token_comes(args: Seq<Seq<char>>, source: TokenSource) -> bool {
    match value_of(args, "--token"@) {
        Some(token) => source matches TokenSource::Given(text) && text@ == token,
        None => if args.contains("--token-stdin"@) {
            source is Stdin
        } else {
            source is Absent
        },
    }
}

/// Finds out where the authentication token comes from.
pub fn managed_token(args: &[String]) -> (source: TokenSource)
    ensures
        token_comes(texts(args@), source),
{
    match argument_value(args, "--token") {
        Some(token) => {
            return TokenSource::Given(token);
        },
        None => {},
    }
    let mut i: usize = 0;
    while i < args.len()
        invariant
            i <= args@.len(),
            value_of(texts(args@), "--token"@) is None,
            forall|j: int| 0 <= j < i ==> #[trigger] texts(args@)[j] != "--token-stdin"@,
        decreases args@.len() - i,
    {
        if same_text(args[i].as_str(), "--token-stdin") {
            proof {
                assert(texts(args@)[i as int] == "--token-stdin"@);
            }
            return TokenSource::Stdin;
        }
        i += 1;
    }
    TokenSource::Absent
}

/// Line endings, which a pipe may leave behind a token.
pub open spec fn ends_line(c: char) -> bool {
    c == '\r' || c == '\n'
}

/// Text without the line endings at its end.
pub open spec fn without_line_end(text: Seq<char>) -> Seq<char>
    decreases text.len(),
{
    if text.len() > 0 && ends_line(text.last()) {
        without_line_end(text.drop_last())
    } else {
        text
    }
}

/// A token that may be taken from standard input.
pub open spec fn is_token(text: Seq<char>) -> bool {
    text.len() > 0 && encode_utf8(text).len() <= MAX_STDIN_TOKEN_BYTES
}

/// Takes the line endings off a token that came through standard input, and
/// refuses one that is empty or too long.
pub fn normalize_stdin_token(token: &str) -> (normal: Result<String, &'static str>)
    ensures
        normal is Ok <==> is_token(without_line_end(token@)),
        normal matches Ok(text) ==> text@ == without_line_end(token@),
        normal matches Err(message) ==> message@
            == "managed authentication token from stdin has an invalid length"@,
{
    let chars = chars_of(token);
    let mut n: usize = chars.len();
    proof {
        assert(chars@.take(n as int) =~= token@);
    }
    while n > 0 && (chars[n - 1] == '\r' || chars[n - 1] == '\n')
        invariant
            n <= chars@.len(),
            without_line_end(token@) == without_line_end(chars@.take(n as int)),
        decreases n,
    {
        proof {
            assert(chars@.take(n as int).drop_last() =~= chars@.take(n - 1));
        }
        n -= 1;
    }
    let kept = string_of(vstd::slice::slice_subrange(chars.as_slice(), 0, n));
    proof {
        assert(kept@ =~= chars@.take(n as int));
    }
    if n == 0 || kept.as_str().as_bytes().len() > MAX_STDIN_TOKEN_BYTES {
        return Err("managed authentication token from stdin has an invalid length");
    }
    Ok(kept)
}

}
