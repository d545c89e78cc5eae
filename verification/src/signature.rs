//! Byte signatures with wildcards: reading them from text and finding where
//! they occur.

use vstd::prelude::*;
use vstd::string::*;
use vstd::utf8::{is_ascii_chars, is_ascii_chars_encode_utf8};

use crate::protocol::MAX_SIGNATURE_BYTES;
use crate::text::{
    chars_of, digits_value, is_white, numeral, parse_numeral, same_text, string_of, white,
};

verus! {

/// The maximal runs of characters that are no white space.
pub open spec fn words(s: Seq<char>) -> Seq<Seq<char>>
    decreases s.len(),
{
    if s.len() == 0 {
        Seq::empty()
    } else {
        let before = words(s.drop_last());
        if is_white(s.last()) {
            before
        } else if s.len() == 1 || is_white(s[s.len() - 2]) {
            before.push(seq![s.last()])
        } else {
            before.drop_last().push(before.last().push(s.last()))
        }
    }
}

/// How many bytes text takes.
pub open spec fn byte_len(s: Seq<char>) -> usize {
    vstd::utf8::encode_utf8(s).len() as usize
}

/// Why a token is no byte of a signature.
#[derive(Clone, Copy, Debug, PartialEq, Eq, Structural)]
pub enum TokenFault {
    /// Two bytes that are no hexadecimal numeral.
    InvalidByte,
    /// Neither two bytes nor a wildcard.
    InvalidToken,
}

/// What a token of a signature stands for; a wildcard stands for no byte.
pub open spec fn token_byte(token: Seq<char>) -> Result<Option<u8>, TokenFault> {
    if token == "??"@ {
        Ok(None)
    } else if byte_len(token) == 2 {
        match numeral(token, 16) {
            Some(value) if value <= 255 => Ok(Some(value as u8)),
            _ => Err(TokenFault::InvalidByte),
        }
    } else {
        Err(TokenFault::InvalidToken)
    }
}

/// Why text is no signature.
#[derive(Debug)]
pub enum SignatureFault {
    /// Too few or too many tokens.
    Length,
    /// The first token that is no byte.
    Token { token: String, fault: TokenFault },
}

/// What tokens stand for, or the first that stands for nothing.
pub open spec fn read_tokens(tokens: Seq<Seq<char>>) -> Result<
    Seq<Option<u8>>,
    (Seq<char>, TokenFault),
>
    decreases tokens.len(),
{
    if tokens.len() == 0 {
        Ok(Seq::empty())
    } else {
        match read_tokens(tokens.drop_last()) {
            Err(fault) => Err(fault),
            Ok(front) => match token_byte(tokens.last()) {
                Ok(byte) => Ok(front.push(byte)),
                Err(fault) => Err((tokens.last(), fault)),
            },
        }
    }
}

/// What reading text as a signature gives.
pub open spec fn reads_as(text: Seq<char>, read: Result<Seq<Option<u8>>, SignatureFault>) -> bool {
    let tokens = words(text);
    if tokens.len() < 1 || tokens.len() > MAX_SIGNATURE_BYTES {
        read == Err::<Seq<Option<u8>>, _>(SignatureFault::Length)
    } else {
        match read_tokens(tokens) {
            Ok(signature) => read == Ok::<_, SignatureFault>(signature),
            Err((wrong, why)) => read matches Err(SignatureFault::Token { token, fault }) && token@
                == wrong && fault == why,
        }
    }
}

proof fn lemma_read_tokens(tokens: Seq<Seq<char>>, n: int)
    requires
        0 <= n <= tokens.len(),
        read_tokens(tokens.take(n)) is Err,
    ensures
        read_tokens(tokens) == read_tokens(tokens.take(n)),
    decreases tokens.len(),
{
    if n < tokens.len() {
        assert(tokens.drop_last().take(n) =~= tokens.take(n));
        lemma_read_tokens(tokens.drop_last(), n);
    } else {
        assert(tokens.take(n) =~= tokens);
    }
}

/// A signature has one byte for each token.
pub proof fn lemma_signature_len(tokens: Seq<Seq<char>>)
    ensures
        read_tokens(tokens) matches Ok(signature) ==> signature.len() == tokens.len(),
    decreases tokens.len(),
{
    if tokens.len() > 0 {
        lemma_signature_len(tokens.drop_last());
    }
}

fn word_list(s: &str) -> (out: Vec<Vec<char>>)
    ensures
        out@.map_values(|word: Vec<char>| word@) == words(s@),
{
    let chars = chars_of(s);
    let mut out: Vec<Vec<char>> = Vec::new();
    let mut word: Vec<char> = Vec::new();
    let mut inside = false;
    let mut i: usize = 0;
    let ghost view = |word: Vec<char>| word@;
    proof {
        assert(out@.map_values(view) =~= words(s@.take(0)));
    }
    while i < chars.len()
        invariant
            i <= chars.len(),
            chars@ == s@,
            view == (|word: Vec<char>| word@),
            inside == (i > 0 && !is_white(s@[i - 1])),
            inside ==> words(s@.take(i as int)) == out@.map_values(view).push(word@),
            !inside ==> words(s@.take(i as int)) == out@.map_values(view) && word@.len() == 0,
        decreases chars.len() - i,
    {
        let c = chars[i];
        let ghost next = s@.take(i + 1);
        proof {
            assert(next.drop_last() =~= s@.take(i as int));
            assert(next.last() == c);
            if i > 0 {
                assert(next[next.len() - 2] == s@[i - 1]);
            }
        }
        if white(c) {
            if inside {
                let ghost before = out@.map_values(view);
                let done = word;
                word = Vec::new();
                out.push(done);
                proof {
                    assert(out@.map_values(view) =~= before.push(done@));
                }
            }
            inside = false;
        } else {
            let ghost before = word@;
            word.push(c);
            proof {
                let list = out@.map_values(view);
                if inside {
                    assert(list.push(before).drop_last() =~= list);
                } else {
                    assert(word@ =~= seq![c]);
                }
            }
            inside = true;
        }
        i += 1;
    }
    proof {
        assert(s@.take(i as int) =~= s@);
    }
    if inside {
        let ghost before = out@.map_values(view);
        out.push(word);
        proof {
            assert(out@.map_values(view) =~= before.push(word@));
        }
    }
    out
}

fn read_token(token: &str) -> (byte: Result<Option<u8>, TokenFault>)
    ensures
        byte == token_byte(token@),
{
    if same_text(token, "??") {
        return Ok(None);
    }
    if token.len() != 2 {
        return Err(TokenFault::InvalidToken);
    }
    match parse_numeral(token, 16, 255) {
        Some(value) => Ok(Some(value as u8)),
        None => Err(TokenFault::InvalidByte),
    }
}

/// Reads a signature: two hexadecimal digits for a byte, `??` for any byte.
pub fn read_signature(text: &str) -> (read: Result<Vec<Option<u8>>, SignatureFault>)
    ensures
        match read {
            Ok(signature) => reads_as(text@, Ok(signature@)),
            Err(fault) => reads_as(text@, Err(fault)),
        },
{
    let tokens = word_list(text);
    let ghost view = |word: Vec<char>| word@;
    proof {
        assert(tokens@.map_values(view).len() == tokens@.len());
        assert forall|i: int| 0 <= i < tokens@.len() implies #[trigger] words(text@)[i]
            == tokens@[i]@ by {
            assert(tokens@.map_values(view)[i] == tokens@[i]@);
        }
    }
    if tokens.len() < 1 || tokens.len() > MAX_SIGNATURE_BYTES {
        return Err(SignatureFault::Length);
    }
    let mut signature: Vec<Option<u8>> = Vec::new();
    let mut i: usize = 0;
    let ghost list = words(text@);
    proof {
        assert(read_tokens(list.take(0)) == Ok::<_, (Seq<char>, TokenFault)>(signature@));
    }
    while i < tokens.len()
        invariant
            i <= tokens.len(),
            list == words(text@),
            tokens@.len() == list.len(),
            1 <= tokens.len() <= MAX_SIGNATURE_BYTES,
            forall|j: int| 0 <= j < tokens@.len() ==> #[trigger] list[j] == tokens@[j]@,
            read_tokens(list.take(i as int)) == Ok::<_, (Seq<char>, TokenFault)>(signature@),
        decreases tokens.len() - i,
    {
        let token = string_of(tokens[i].as_slice());
        let ghost next = list.take(i + 1);
        proof {
            assert(list[i as int] == token@);
            assert(next.drop_last() =~= list.take(i as int));
            assert(next.last() == token@);
        }
        match read_token(token.as_str()) {
            Ok(byte) => {
                signature.push(byte);
            },
            Err(fault) => {
                proof {
                    lemma_read_tokens(list, i + 1);
                }
                return Err(SignatureFault::Token { token, fault });
            },
        }
        i += 1;
    }
    proof {
        assert(list.take(i as int) =~= list);
    }
    Ok(signature)
}

/// The indices below `len` at which a predicate holds, in ascending order.
pub open spec fn hits(len: nat, holds: spec_fn(int) -> bool) -> Seq<int>
    decreases len,
{
    if len == 0 {
        Seq::empty()
    } else {
        let before = hits((len - 1) as nat, holds);
        if holds(len - 1) {
            before.push(len - 1)
        } else {
            before
        }
    }
}

/// `hits` lists every index at which the predicate holds, once and in order.
pub proof fn hits_are_complete(len: nat, holds: spec_fn(int) -> bool)
    ensures
        forall|i: int|
            0 <= i < hits(len, holds).len() ==> 0 <= #[trigger] hits(len, holds)[i] < len && holds(
                hits(len, holds)[i],
            ),
        forall|i: int, j: int|
            0 <= i < j < hits(len, holds).len() ==> #[trigger] hits(len, holds)[i] < #[trigger] hits(
                len,
                holds,
            )[j],
        forall|k: int| 0 <= k < len && #[trigger] holds(k) ==> hits(len, holds).contains(k),
    decreases len,
{
    if len > 0 {
        let less = (len - 1) as nat;
        hits_are_complete(less, holds);
        assert forall|k: int| 0 <= k < len && #[trigger] holds(k) implies hits(len, holds).contains(
            k,
        ) by {
            if k < less {
                let i = choose|i: int| 0 <= i < hits(less, holds).len() && hits(less, holds)[i] == k;
                assert(hits(len, holds)[i] == k);
            } else {
                assert(hits(len, holds)[hits(len, holds).len() - 1] == k);
            }
        }
    }
}

/// Two predicates that agree below `len` have the same hits there.
pub proof fn lemma_hits_agree(len: nat, one: spec_fn(int) -> bool, other: spec_fn(int) -> bool)
    requires
        forall|i: int| 0 <= i < len ==> #[trigger] one(i) == other(i),
    ensures
        hits(len, one) == hits(len, other),
    decreases len,
{
    if len > 0 {
        lemma_hits_agree((len - 1) as nat, one, other);
    }
}

/// Where nothing holds from `low` to `high`, the hits below both are the same.
pub proof fn lemma_hits_gap(low: nat, high: nat, holds: spec_fn(int) -> bool)
    requires
        low <= high,
        forall|i: int| low <= i < high ==> !#[trigger] holds(i),
    ensures
        hits(high, holds) == hits(low, holds),
    decreases high - low,
{
    if low < high {
        lemma_hits_gap(low, (high - 1) as nat, holds);
    }
}

/// A signature matches where each of its bytes that is no wildcard stands.
pub open spec fn matches_at(data: Seq<u8>, signature: Seq<Option<u8>>, at: int) -> bool {
    &&& 0 <= at
    &&& at + signature.len() <= data.len()
    &&& forall|k: int|
        0 <= k < signature.len() ==> (#[trigger] signature[k] matches Some(byte) ==> data[at + k]
            == byte)
}

/// The offsets at which a signature occurs, in ascending order. An empty
/// signature occurs nowhere.
pub open spec fn occurrences(data: Seq<u8>, signature: Seq<Option<u8>>) -> Seq<int> {
    if signature.len() == 0 || signature.len() > data.len() {
        Seq::empty()
    } else {
        hits(
            (data.len() - signature.len() + 1) as nat,
            |at: int| matches_at(data, signature, at),
        )
    }
}

/// `memchr::memchr_iter` yields the offset of every occurrence of a byte, in
/// ascending order.
#[verifier::external_body]
fn byte_offsets(byte: u8, haystack: &[u8]) -> (offsets: Vec<usize>)
    ensures
        forall|i: int|
            0 <= i < offsets@.len() ==> #[trigger] offsets@[i] < haystack@.len()
                && haystack@[offsets@[i] as int] == byte,
        forall|i: int, j: int|
            0 <= i < j < offsets@.len() ==> #[trigger] offsets@[i] < #[trigger] offsets@[j],
        forall|k: int|
            0 <= k < haystack@.len() && #[trigger] haystack@[k] == byte ==> exists|i: int|
                0 <= i < offsets@.len() && #[trigger] offsets@[i] == k,
{
    memchr::memchr_iter(byte, haystack).collect()
}

/// Whether a signature matches a whole span.
pub fn signature_matches(bytes: &[u8], signature: &[Option<u8>]) -> (matched: bool)
    ensures
        matched == (bytes@.len() == signature@.len() && matches_at(bytes@, signature@, 0)),
{
    bytes.len() == signature.len() && span_matches(bytes, signature, 0)
}

fn span_matches(bytes: &[u8], signature: &[Option<u8>], at: usize) -> (matched: bool)
    requires
        at + signature@.len() <= bytes@.len(),
    ensures
        matched == matches_at(bytes@, signature@, at as int),
{
    let mut k: usize = 0;
    while k < signature.len()
        invariant
            k <= signature@.len(),
            at + signature@.len() <= bytes.len(),
            forall|j: int|
                0 <= j < k ==> (#[trigger] signature@[j] matches Some(byte) ==> bytes@[at + j]
                    == byte),
        decreases signature@.len() - k,
    {
        if let Some(byte) = signature[k] {
            if bytes[at + k] != byte {
                assert(signature@[k as int] == Some(byte));
                return false;
            }
        }
        k += 1;
    }
    true
}

/// The longest run of bytes without a wildcard, the first of several.
fn longest_exact_run(signature: &[Option<u8>]) -> (run: (usize, usize))
    ensures
        run.0 + run.1 <= signature@.len(),
        forall|k: int| run.0 <= k < run.0 + run.1 ==> #[trigger] signature@[k] is Some,
        run.1 == 0 ==> forall|k: int| 0 <= k < signature@.len() ==> #[trigger] signature@[k] is None,
{
    let mut best_start: usize = 0;
    let mut best_len: usize = 0;
    let mut run_len: usize = 0;
    let mut i: usize = 0;
    while i < signature.len()
        invariant
            i <= signature@.len(),
            run_len <= i,
            run_len <= best_len,
            best_start + best_len <= i,
            forall|k: int| i - run_len <= k < i ==> #[trigger] signature@[k] is Some,
            forall|k: int|
                best_start <= k < best_start + best_len ==> #[trigger] signature@[k] is Some,
            best_len == 0 ==> forall|k: int| 0 <= k < i ==> #[trigger] signature@[k] is None,
        decreases signature@.len() - i,
    {
        if signature[i].is_some() {
            run_len += 1;
            if run_len > best_len {
                best_start = i + 1 - run_len;
                best_len = run_len;
            }
        } else {
            run_len = 0;
        }
        i += 1;
    }
    (best_start, best_len)
}

/// The offsets at which a signature occurs, in ascending order.
pub fn signature_offsets(bytes: &[u8], signature: &[Option<u8>]) -> (offsets: Vec<usize>)
    ensures
        offsets@.map_values(|offset: usize| offset as int) == occurrences(bytes@, signature@),
{
    let mut offsets: Vec<usize> = Vec::new();
    let ghost value = |offset: usize| offset as int;
    if signature.len() == 0 || signature.len() > bytes.len() {
        proof {
            assert(offsets@.map_values(value) =~= Seq::<int>::empty());
        }
        return offsets;
    }
    let ghost holds = |at: int| matches_at(bytes@, signature@, at);
    let (start, len) = longest_exact_run(signature);
    let last: usize = bytes.len() - signature.len();
    if len == 0 {
        let mut at: usize = 0;
        proof {
            assert(offsets@.map_values(value) =~= hits(0, holds));
        }
        while at <= last
            invariant
                at <= last + 1,
                last + signature@.len() == bytes@.len(),
                bytes@.len() <= usize::MAX,
                signature@.len() > 0,
                forall|k: int| 0 <= k < signature@.len() ==> #[trigger] signature@[k] is None,
                value == (|offset: usize| offset as int),
                holds == (|at: int| matches_at(bytes@, signature@, at)),
                offsets@.map_values(value) == hits(at as nat, holds),
            decreases last + 1 - at,
        {
            let ghost before = offsets@.map_values(value);
            offsets.push(at);
            proof {
                assert(holds(at as int));
                assert(offsets@.map_values(value) =~= before.push(at as int));
            }
            at += 1;
        }
        return offsets;
    }
    let anchor: u8 = match signature[start] {
        Some(byte) => byte,
        None => {
            assert(signature@[start as int] is Some);
            0
        },
    };
    let haystack = vstd::slice::slice_subrange(bytes, start, last + start + 1);
    let anchors = byte_offsets(anchor, haystack);
    let mut i: usize = 0;
    let ghost mut done: nat = 0;
    proof {
        assert(offsets@.map_values(value) =~= hits(0, holds));
        assert forall|at: int| 0 <= at <= last && #[trigger] holds(at) implies exists|j: int|
            0 <= j < anchors@.len() && #[trigger] anchors@[j] == at by {
            assert(signature@[start as int] == Some(anchor));
            assert(haystack@[at] == bytes@[at + start]);
        }
    }
    while i < anchors.len()
        invariant
            i <= anchors@.len(),
            last + signature@.len() == bytes@.len(),
            0 < len,
            start + len <= signature@.len(),
            haystack@ == bytes@.subrange(start as int, last + start + 1),
            forall|j: int| 0 <= j < anchors@.len() ==> #[trigger] anchors@[j] < haystack@.len(),
            forall|j: int, k: int|
                0 <= j < k < anchors@.len() ==> #[trigger] anchors@[j] < #[trigger] anchors@[k],
            forall|at: int|
                0 <= at <= last && #[trigger] holds(at) ==> exists|j: int|
                    0 <= j < anchors@.len() && #[trigger] anchors@[j] == at,
            value == (|offset: usize| offset as int),
            holds == (|at: int| matches_at(bytes@, signature@, at)),
            done == (if i == 0 {
                0
            } else {
                anchors@[i - 1] + 1
            }),
            offsets@.map_values(value) == hits(done, holds),
        decreases anchors@.len() - i,
    {
        let offset: usize = anchors[i];
        proof {
            assert forall|at: int| done <= at < offset implies !#[trigger] holds(at) by {
                if holds(at) {
                    let j = choose|j: int| 0 <= j < anchors@.len() && #[trigger] anchors@[j] == at;
                    assert(j >= i);
                    assert(j == i || anchors@[i as int] < anchors@[j]);
                }
            }
            lemma_hits_gap(done, offset as nat, holds);
        }
        let ghost before = offsets@.map_values(value);
        if span_matches(bytes, signature, offset) {
            offsets.push(offset);
            proof {
                assert(holds(offset as int));
                assert(offsets@.map_values(value) =~= before.push(offset as int));
            }
        } else {
            proof {
                assert(!holds(offset as int));
            }
        }
        proof {
            done = (offset + 1) as nat;
        }
        i += 1;
    }
    proof {
        let end = (last + 1) as nat;
        assert forall|at: int| done <= at < end implies !#[trigger] holds(at) by {
            if holds(at) {
                let j = choose|j: int| 0 <= j < anchors@.len() && #[trigger] anchors@[j] == at;
                assert(j == i - 1 || anchors@[j] < anchors@[i - 1]);
            }
        }
        if anchors@.len() > 0 {
            assert(anchors@[i - 1] < haystack@.len());
        }
        lemma_hits_gap(done, end, holds);
    }
    offsets
}

/// The upper-case digit that stands for a value below sixteen.
pub open spec fn upper_digit(value: int) -> char {
    if value < 10 {
        (0x30 + value) as char
    } else {
        (0x37 + value) as char
    }
}

/// A byte as two upper-case digits.
pub open spec fn byte_text(byte: u8) -> Seq<char> {
    seq![upper_digit((byte / 16) as int), upper_digit((byte % 16) as int)]
}

/// The signature of exactly the given bytes.
pub open spec fn signature_text(bytes: Seq<u8>) -> Seq<char>
    decreases bytes.len(),
{
    if bytes.len() == 0 {
        Seq::empty()
    } else if bytes.len() == 1 {
        byte_text(bytes[0])
    } else {
        signature_text(bytes.drop_last()) + " "@ + byte_text(bytes.last())
    }
}

proof fn lemma_byte_text(byte: u8)
    ensures
        token_byte(byte_text(byte)) == Ok::<Option<u8>, TokenFault>(Some(byte)),
        !is_white(byte_text(byte)[0]),
        !is_white(byte_text(byte)[1]),
{
    let text = byte_text(byte);
    reveal_strlit("??");
    assert(text[0] != "??"@[0]);
    assert(is_ascii_chars(text));
    is_ascii_chars_encode_utf8(text);
    let high = text.drop_last();
    assert(high.len() == 1 && high.last() == text[0]);
    assert(high.drop_last() =~= Seq::empty());
    assert(digits_value(high.drop_last(), 16) == Some(0nat));
    assert(digits_value(high, 16) == Some((byte / 16) as nat));
    assert(digits_value(text, 16) == Some(byte as nat));
}

proof fn lemma_signature_words(bytes: Seq<u8>)
    ensures
        words(signature_text(bytes)) == bytes.map_values(|byte: u8| byte_text(byte)),
    decreases bytes.len(),
{
    let wanted = bytes.map_values(|byte: u8| byte_text(byte));
    if bytes.len() == 0 {
        assert(words(Seq::empty()) =~= wanted);
    } else {
        let word = byte_text(bytes.last());
        lemma_byte_text(bytes.last());
        let whole = signature_text(bytes);
        let half = whole.drop_last();
        if bytes.len() == 1 {
            assert(whole =~= word);
            assert(half =~= seq![word[0]]);
            assert(half.drop_last() =~= Seq::empty());
            assert(words(half.drop_last()) =~= Seq::empty());
            assert(words(half) =~= seq![seq![word[0]]]);
            assert(words(whole) =~= seq![seq![word[0]].push(word[1])]);
            assert(seq![word[0]].push(word[1]) =~= word);
            assert(words(whole) =~= wanted);
        } else {
            let front = signature_text(bytes.drop_last());
            lemma_signature_words(bytes.drop_last());
            reveal_strlit(" ");
            let spaced = front + " "@;
            assert(whole =~= spaced + word);
            assert(half =~= spaced.push(word[0]));
            assert(whole =~= half.push(word[1]));
            assert(half.drop_last() =~= spaced);
            assert(spaced.drop_last() =~= front);
            assert(words(spaced) == words(front));
            assert(words(half) == words(front).push(seq![word[0]]));
            assert(words(half).drop_last() =~= words(front));
            assert(words(whole) =~= words(front).push(seq![word[0]].push(word[1])));
            assert(seq![word[0]].push(word[1]) =~= word);
            assert(words(whole) =~= wanted);
        }
    }
}

proof fn lemma_byte_tokens(bytes: Seq<u8>)
    ensures
        read_tokens(bytes.map_values(|byte: u8| byte_text(byte))) == Ok::<_, (Seq<char>, TokenFault)>(
            bytes.map_values(|byte: u8| Some(byte)),
        ),
    decreases bytes.len(),
{
    let tokens = bytes.map_values(|byte: u8| byte_text(byte));
    let read = bytes.map_values(|byte: u8| Some(byte));
    if bytes.len() > 0 {
        lemma_byte_tokens(bytes.drop_last());
        lemma_byte_text(bytes.last());
        assert(tokens.drop_last() =~= bytes.drop_last().map_values(|byte: u8| byte_text(byte)));
        assert(read =~= bytes.drop_last().map_values(|byte: u8| Some(byte)).push(Some(bytes.last())));
    } else {
        assert(read =~= Seq::empty());
    }
}

/// The signature that is written for bytes reads back as those bytes, without
/// a wildcard: it occurs where they stand and nowhere else.
pub proof fn exact_signatures_read_back(bytes: Seq<u8>)
    requires
        1 <= bytes.len() <= MAX_SIGNATURE_BYTES,
    ensures
        reads_as(
            signature_text(bytes),
            Ok(bytes.map_values(|byte: u8| Some(byte))),
        ),
{
    lemma_signature_words(bytes);
    lemma_byte_tokens(bytes);
}

/// Appends a byte as two upper-case digits.
pub fn push_byte(out: &mut String, byte: u8)
    ensures
        final(out)@ == old(out)@ + byte_text(byte),
{
    let high: u8 = byte / 16;
    let low: u8 = byte % 16;
    let first: u8 = if high < 10 {
        0x30 + high
    } else {
        0x37 + high
    };
    let second: u8 = if low < 10 {
        0x30 + low
    } else {
        0x37 + low
    };
    out.push(first as char);
    out.push(second as char);
    proof {
        assert(out@ =~= old(out)@ + byte_text(byte));
    }
}

/// Writes the signature of exactly the given bytes.
pub fn write_signature(bytes: &Vec<u8>) -> (text: String)
    ensures
        text@ == signature_text(bytes@),
{
    let mut out = String::new();
    let mut i: usize = 0;
    while i < bytes.len()
        invariant
            i <= bytes@.len(),
            out@ == signature_text(bytes@.take(i as int)),
        decreases bytes@.len() - i,
    {
        proof {
            let next = bytes@.take(i + 1);
            assert(next.drop_last() =~= bytes@.take(i as int));
            assert(next.last() == bytes@[i as int]);
            if i == 0 {
                assert(Seq::<char>::empty() + byte_text(bytes@[0]) =~= byte_text(bytes@[0]));
            }
        }
        if i > 0 {
            out.append(" ");
        }
        push_byte(&mut out, bytes[i]);
        i += 1;
    }
    proof {
        assert(bytes@.take(i as int) =~= bytes@);
    }
    out
}

}
