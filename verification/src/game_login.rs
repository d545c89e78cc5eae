//! Automatic login: a command that the game is made to run once, and what it leaves
//! behind until it is cleaned up.

use vstd::prelude::*;
use vstd::string::*;

use crate::backend::{
    ClientWindowCandidate, ClientWindowTarget, MutationBackend, OpenedProcess, ProcessBackendError,
    ProcessBackendErrorKind, SuspendedProcess,
};
use crate::calls::{
    agrees, allocate_near_of, allocate_of, calls_made, fault_of, flush_of, free_of, goes_on,
    lemma_stays, lemma_then, modules_of, protect_of, read_of, resume_of, suspend_of, validated,
    write_of, Call, Caller, Calls, Fault,
};
use crate::codec::{
    copy_bytes, filled, from_bits, le_bytes, le_value, lemma_le_bytes_len, lemma_pow256, push_all,
    push_i32, push_u64, read_le, same_bytes, signed32, wrap32, written_value_reads_back, zeros,
};
use crate::hook::validate_relocatable_x64;
use crate::clients::{discovers, discovery_reported, resolves, ClientRegistry, Clients};
use crate::ordered::{in_order, TextMap};
use crate::protocol::{
    AgentIdentity, ClientId, GameLoginRequest, GameLoginResponse, ListClientsResponse,
    MemoryProtection, ProcessDescriptor, ModuleDescriptor, ProcessAccessMode, ProcessIdentity,
    MAX_GAME_OPERATION_TIMEOUT_MS, WIZARD101_EXECUTABLE,
};
use crate::rpc::{failure, Details, Failure, RpcError, RpcErrorCode};
use crate::signature::{hits, hits_are_complete, matches_at, occurrences, signature_offsets};
use crate::text::{
    chars_of, dec_text, format_decimal, format_signed, hex_value, join2, join3, lowered, numeral,
    parse_numeral, same_text, same_ignoring_case, signed_text, string_of, texts,
};
use crate::x64::first_fault;

verus! {

/// How many bytes of the hook site the detour takes.
pub const HOOK_OVERWRITE_BYTES: usize = 7;

/// The largest module that is read.
pub const MAX_MODULE_BYTES: usize = 268_435_456;

/// How many credential transfers an agent takes before it is to be restarted.
pub const MAX_USED_TRANSFERS: usize = 4096;

/// The code that calls the login dispatcher.
#[verifier::opaque]
pub open spec fn login_bytes() -> Seq<Option<u8>> {
    seq![
        Some(0x41u8),
        Some(0xb1u8),
        Some(0x01u8),
        Some(0x45u8),
        Some(0x33u8),
        Some(0xc0u8),
        Some(0x48u8),
        Some(0x8du8),
        Some(0x55u8),
        Some(0xcfu8),
        Some(0x48u8),
        Some(0x8bu8),
        Some(0x0du8),
        None,
        None,
        None,
        None,
        Some(0xe8u8),
        None,
        None,
        None,
        None,
    ]
}

/// The code that the hook goes into.
#[verifier::opaque]
pub open spec fn hook_bytes() -> Seq<Option<u8>> {
    seq![
        None,
        None,
        None,
        None,
        None,
        None,
        None,
        Some(0x48u8),
        Some(0x8bu8),
        Some(0x01u8),
        None,
        None,
        None,
        None,
        None,
        None,
        None,
        Some(0xffu8),
        Some(0x50u8),
        Some(0x70u8),
        Some(0x84u8),
    ]
}

/// The code that calls the login dispatcher.
pub fn login_pattern() -> (pattern: Vec<Option<u8>>)
    ensures
        pattern@ == login_bytes(),
        pattern@.len() == 22,
{
    let pattern: Vec<Option<u8>> = vec![
        Some(0x41u8),
        Some(0xb1u8),
        Some(0x01u8),
        Some(0x45u8),
        Some(0x33u8),
        Some(0xc0u8),
        Some(0x48u8),
        Some(0x8du8),
        Some(0x55u8),
        Some(0xcfu8),
        Some(0x48u8),
        Some(0x8bu8),
        Some(0x0du8),
        None,
        None,
        None,
        None,
        Some(0xe8u8),
        None,
        None,
        None,
        None,
    ];
    proof {
        reveal(login_bytes);
        assert(pattern@ =~= login_bytes());
    }
    pattern
}

/// The code that the hook goes into.
pub fn hook_pattern() -> (pattern: Vec<Option<u8>>)
    ensures
        pattern@ == hook_bytes(),
        pattern@.len() == 21,
{
    let pattern: Vec<Option<u8>> = vec![
        None,
        None,
        None,
        None,
        None,
        None,
        None,
        Some(0x48u8),
        Some(0x8bu8),
        Some(0x01u8),
        None,
        None,
        None,
        None,
        None,
        None,
        None,
        Some(0xffu8),
        Some(0x50u8),
        Some(0x70u8),
        Some(0x84u8),
    ];
    proof {
        reveal(hook_bytes);
        assert(pattern@ =~= hook_bytes());
    }
    pattern
}

/// A failed login.
#[derive(Debug)]
pub struct GameLoginError {
    code: RpcErrorCode,
    message: String,
    details: Details,
}

impl View for GameLoginError {
    type V = Failure;

    closed spec fn view(&self) -> Failure {
        Failure { code: self.code, message: self.message@, details: self.details@ }
    }
}

/// A login that was given up.
pub open spec fn login_failed(message: Seq<char>) -> Failure {
    failure(RpcErrorCode::GameLoginFailed, message)
}

/// A login that took too long.
pub open spec fn login_timed_out(timeout_ms: u32) -> Failure {
    failure(
        RpcErrorCode::GameLoginTimeout,
        "automatic login did not complete within "@ + dec_text(timeout_ms as nat) + " ms"@,
    ).with("timeout_ms"@, dec_text(timeout_ms as nat))
}

/// How a failed platform call is reported for a login.
pub open spec fn login_code(kind: ProcessBackendErrorKind) -> RpcErrorCode {
    match kind {
        ProcessBackendErrorKind::NotFound => RpcErrorCode::ClientNotFound,
        ProcessBackendErrorKind::AccessDenied => RpcErrorCode::ProcessAccessDenied,
        ProcessBackendErrorKind::Exited => RpcErrorCode::ProcessExited,
        ProcessBackendErrorKind::IdentityMismatch => RpcErrorCode::ProcessExited,
        ProcessBackendErrorKind::Native => RpcErrorCode::GameLoginFailed,
    }
}

/// A login that a platform call stopped.
pub open spec fn login_stopped(action: Seq<char>, fault: Fault) -> Failure {
    let bare = failure(login_code(fault.kind), action + ": "@ + fault.message);
    match fault.native {
        Some(code) => bare.with("native_code"@, signed_text(code as int)),
        None => bare,
    }
}

/// A login whose traces could not all be removed.
pub open spec fn login_unclean(primary: Seq<char>, failures: nat) -> Failure {
    failure(
        RpcErrorCode::GameLoginFailed,
        primary + "; cleanup could not be fully verified and remains agent-owned for retry"@,
    ).with("cleanup_failures"@, dec_text(failures))
}

impl GameLoginError {
    fn request(message: String) -> (error: Self)
        ensures
            error@ == failure(RpcErrorCode::InvalidRequest, message@),
    {
        GameLoginError { code: RpcErrorCode::InvalidRequest, message, details: Details::new() }
    }

    fn failed(message: &str) -> (error: Self)
        ensures
            error@ == login_failed(message@),
    {
        GameLoginError {
            code: RpcErrorCode::GameLoginFailed,
            message: message.to_owned(),
            details: Details::new(),
        }
    }

    fn timeout(timeout_ms: u32) -> (error: Self)
        ensures
            error@ == login_timed_out(timeout_ms),
    {
        let limit = format_decimal(timeout_ms as u64);
        let message = join3("automatic login did not complete within ", limit.as_str(), " ms");
        let mut details = Details::new();
        details.insert("timeout_ms", limit);
        GameLoginError { code: RpcErrorCode::GameLoginTimeout, message, details }
    }

    fn backend(action: &str, error: ProcessBackendError) -> (failed: Self)
        ensures
            failed@ == login_stopped(action@, fault_of(error)),
    {
        let code = match error.kind {
            ProcessBackendErrorKind::NotFound => RpcErrorCode::ClientNotFound,
            ProcessBackendErrorKind::AccessDenied => RpcErrorCode::ProcessAccessDenied,
            ProcessBackendErrorKind::Exited => RpcErrorCode::ProcessExited,
            ProcessBackendErrorKind::IdentityMismatch => RpcErrorCode::ProcessExited,
            ProcessBackendErrorKind::Native => RpcErrorCode::GameLoginFailed,
        };
        let mut details = Details::new();
        if let Some(native_code) = error.native_code {
            details.insert("native_code", format_signed(native_code));
        }
        GameLoginError {
            code,
            message: join3(action, ": ", error.message.as_str()),
            details,
        }
    }

    fn cleanup(primary: &str, failures: usize) -> (error: Self)
        ensures
            error@ == login_unclean(primary@, failures as nat),
    {
        let mut details = Details::new();
        details.insert("cleanup_failures", format_decimal(failures as u64));
        GameLoginError {
            code: RpcErrorCode::GameLoginFailed,
            message: join2(
                primary,
                "; cleanup could not be fully verified and remains agent-owned for retry",
            ),
            details,
        }
    }

    /// The error as the answer to one request.
    pub fn into_rpc_error(self, request_id: u64, operation: &str) -> (error: RpcError)
        ensures
            error.answers(self@, request_id, operation@),
            error.native_context is None,
    {
        let mut error = RpcError::new(self.code, self.message, request_id, operation, None);
        error.details = self.details;
        error
    }
}

/// Memory in the game that a login allocated.
#[derive(Debug)]
pub struct RemoteAllocation {
    pub address: usize,
    pub size: usize,
    pub sensitive: bool,
}

/// The same, as it counts.
pub ghost struct Piece {
    pub at: usize,
    pub size: usize,
    pub sensitive: bool,
}

impl View for RemoteAllocation {
    type V = Piece;

    open spec fn view(&self) -> Piece {
        Piece { at: self.address, size: self.size, sensitive: self.sensitive }
    }
}

/// Several allocations.
pub open spec fn pieces(list: Seq<RemoteAllocation>) -> Seq<Piece> {
    list.map_values(|allocation: RemoteAllocation| allocation@)
}

/// What a login has changed in the game and has to change back.
#[derive(Debug)]
pub struct LoginRecord<H> {
    pub handle: H,
    pub identity: ProcessIdentity,
    pub hook_address: usize,
    pub original_bytes: Vec<u8>,
    pub original_protection: Option<MemoryProtection>,
    pub patch_may_be_active: bool,
    pub allocations: Vec<RemoteAllocation>,
    pub code_range: Option<(usize, usize)>,
    pub execution_flag: Option<usize>,
}

/// The same, as it counts, without the handle and the identity.
#[verifier::ext_equal]
pub ghost struct Trace {
    pub hook: usize,
    pub original: Seq<u8>,
    pub protection: Option<MemoryProtection>,
    pub active: bool,
    pub pieces: Seq<Piece>,
    pub code: Option<(usize, usize)>,
    pub flag: Option<usize>,
}

impl<H> View for LoginRecord<H> {
    type V = Trace;

    open spec fn view(&self) -> Trace {
        Trace {
            hook: self.hook_address,
            original: self.original_bytes@,
            protection: self.original_protection,
            active: self.patch_may_be_active,
            pieces: pieces(self.allocations@),
            code: self.code_range,
            flag: self.execution_flag,
        }
    }
}

/// Whether some thread stands inside a range, or the range wraps around.
pub open spec fn inside(pointers: Seq<usize>, at: usize, size: usize) -> bool {
    ||| at + size > usize::MAX
    ||| exists|i: int| 0 <= i < pointers.len() && at <= #[trigger] pointers[i] < at + size
}

/// Why the code of a login has to stay for now, if it has to: a thread stands in it, or
/// the game has not come back from it.
pub open spec fn holds_back(calls: Calls, k: int, trace: Trace, pointers: Seq<usize>) -> (
    int,
    Option<Seq<char>>,
) {
    if inside(pointers, trace.hook, trace.original.len() as usize) || (trace.code matches Some(
        (at, size),
    ) && inside(pointers, at, size)) {
        (k, Some("target code was still executing"@))
    } else {
        match trace.flag {
            None => (k, None),
            Some(at) => (
                k + 1,
                match read_of(calls, k, at, 1) {
                    Ok(bytes) if bytes.len() > 0 && bytes[0] <= 1 => None,
                    Ok(bytes) if bytes.len() > 0 && bytes[0] == 2 => Some(
                        "the game login dispatcher was still executing"@,
                    ),
                    _ => Some("automatic login execution state could not be verified"@),
                },
            ),
        }
    }
}

/// A reason that came at a place of the calls.
pub open spec fn reason_at(
    answer: Option<&'static str>,
    k: int,
    outcome: (int, Option<Seq<char>>),
) -> bool {
    outcome.0 == k && match (answer, outcome.1) {
        (Some(text), Some(expected)) => text@ == expected,
        (None, None) => true,
        _ => false,
    }
}

fn find_reason<B: MutationBackend>(
    caller: &mut Caller<'_, B>,
    record: &LoginRecord<B::Handle>,
    suspended: &SuspendedProcess,
) -> (answer: Option<&'static str>)
    requires
        old(caller).sound(),
        record.handle == old(caller).handle(),
    ensures
        old(caller).leads_to(final(caller)),
        forall|calls: Calls| #[trigger]
            goes_on(final(caller).calls(), calls) ==> reason_at(
                answer,
                final(caller).calls().len() as int,
                holds_back(calls, old(caller).calls().len() as int, record@, suspended.pointers()),
            ),
{
    let ghost start = caller.calls();
    proof {
        lemma_stays(start);
    }
    let in_hook = suspended.executes_range(record.hook_address, record.original_bytes.len());
    let in_code = match record.code_range {
        Some((at, size)) => suspended.executes_range(at, size),
        None => false,
    };
    if in_hook || in_code {
        return Some("target code was still executing");
    }
    match record.execution_flag {
        None => None,
        Some(at) => {
            let read = caller.read(&record.handle, at, 1);
            let ghost a = caller.calls();
            proof {
                lemma_then(start, start, a);
            }
            match read {
                Ok(bytes) => if bytes.len() > 0 && bytes[0] <= 1 {
                    None
                } else if bytes.len() > 0 && bytes[0] == 2 {
                    Some("the game login dispatcher was still executing")
                } else {
                    Some("automatic login execution state could not be verified")
                },
                Err(_) => Some("automatic login execution state could not be verified"),
            }
        },
    }
}

/// The hook site is given its bytes and its protection back.
pub open spec fn patched_back(calls: Calls, k: int, trace: Trace) -> (int, bool) {
    let size = trace.original.len() as usize;
    match trace.protection {
        None => (k, false),
        Some(protection) => if protect_of(
            calls,
            k,
            trace.hook,
            size,
            MemoryProtection::ExecuteReadWrite,
        ) is Err {
            (k + 1, false)
        } else if write_of(calls, k + 1, trace.hook, trace.original) is Err {
            (k + 2, false)
        } else if flush_of(calls, k + 2, trace.hook, size) is Err {
            (k + 3, false)
        } else {
            (k + 4, protect_of(calls, k + 3, trace.hook, size, protection) is Ok)
        },
    }
}

/// A verdict that came at a place of the calls.
pub open spec fn verdict_at(answer: bool, k: int, outcome: (int, bool)) -> bool {
    outcome == (k, answer)
}

fn patch_back<B: MutationBackend>(
    caller: &mut Caller<'_, B>,
    record: &LoginRecord<B::Handle>,
) -> (answer: bool)
    requires
        old(caller).sound(),
        record.handle == old(caller).handle(),
    ensures
        old(caller).leads_to(final(caller)),
        forall|calls: Calls| #[trigger]
            goes_on(final(caller).calls(), calls) ==> verdict_at(
                answer,
                final(caller).calls().len() as int,
                patched_back(calls, old(caller).calls().len() as int, record@),
            ),
{
    let ghost start = caller.calls();
    proof {
        lemma_stays(start);
    }
    let size: usize = record.original_bytes.len();
    let protection = match record.original_protection {
        Some(protection) => protection,
        None => {
            return false;
        },
    };
    let unlocked = caller.protect(
        &record.handle,
        record.hook_address,
        size,
        MemoryProtection::ExecuteReadWrite,
    );
    let ghost a = caller.calls();
    proof {
        lemma_then(start, start, a);
    }
    if unlocked.is_err() {
        return false;
    }
    let written = caller.write(
        &record.handle,
        record.hook_address,
        record.original_bytes.as_slice(),
    );
    let ghost b = caller.calls();
    proof {
        lemma_then(start, a, b);
    }
    if written.is_err() {
        return false;
    }
    let flushed = caller.flush(&record.handle, record.hook_address, size);
    let ghost c = caller.calls();
    proof {
        lemma_then(start, b, c);
    }
    if flushed.is_err() {
        return false;
    }
    let locked = caller.protect(&record.handle, record.hook_address, size, protection);
    let ghost d = caller.calls();
    proof {
        lemma_then(start, c, d);
    }
    locked.is_ok()
}

/// What is left of some allocations and what went wrong, once the first ones were given
/// back. One that held a secret is cleared first.
pub open spec fn given_back(calls: Calls, k: int, list: Seq<Piece>, n: int) -> (
    int,
    Seq<Piece>,
    Seq<Seq<char>>,
)
    decreases n,
{
    if n <= 0 {
        (k, Seq::empty(), Seq::empty())
    } else {
        let (k, kept, failures) = given_back(calls, k, list, n - 1);
        let piece = list[n - 1];
        let clean = !piece.sensitive || write_of(
            calls,
            k,
            piece.at,
            Seq::new(piece.size as nat, |i: int| 0u8),
        ) is Ok;
        let k = if piece.sensitive {
            k + 1
        } else {
            k
        };
        if !clean {
            (
                k,
                kept.push(piece),
                failures.push("sensitive remote memory could not be cleared"@),
            )
        } else if free_of(calls, k, piece.at) is Err {
            (
                k + 1,
                kept.push(piece),
                failures.push("remote login memory could not be released"@),
            )
        } else {
            (k + 1, kept, failures)
        }
    }
}

/// Allocations and failures that came at a place of the calls.
pub open spec fn left_at(
    answer: (Vec<RemoteAllocation>, Vec<String>),
    k: int,
    outcome: (int, Seq<Piece>, Seq<Seq<char>>),
) -> bool {
    &&& outcome.0 == k
    &&& pieces(answer.0@) == outcome.1
    &&& texts(answer.1@) == outcome.2
}

fn add_piece(list: &mut Vec<RemoteAllocation>, piece: &RemoteAllocation)
    ensures
        pieces(final(list)@) == pieces(old(list)@).push(piece@),
        final(list)@.len() == old(list)@.len() + 1,
{
    list.push(
        RemoteAllocation {
            address: piece.address,
            size: piece.size,
            sensitive: piece.sensitive,
        },
    );
    proof {
        assert(pieces(list@) =~= pieces(old(list)@).push(piece@));
    }
}

fn add_text(list: &mut Vec<String>, text: &str)
    ensures
        texts(final(list)@) == texts(old(list)@).push(text@),
{
    list.push(text.to_owned());
    proof {
        assert(texts(list@) =~= texts(old(list)@).push(text@));
    }
}

fn give_one_back<B: MutationBackend>(
    caller: &mut Caller<'_, B>,
    handle: &B::Handle,
    list: &Vec<RemoteAllocation>,
    n: usize,
) -> (answer: (Vec<RemoteAllocation>, Vec<String>))
    requires
        old(caller).sound(),
        *handle == old(caller).handle(),
        n <= list@.len(),
    ensures
        old(caller).leads_to(final(caller)),
        forall|calls: Calls| #[trigger]
            goes_on(final(caller).calls(), calls) ==> left_at(
                answer,
                final(caller).calls().len() as int,
                given_back(calls, old(caller).calls().len() as int, pieces(list@), n as int),
            ),
    decreases n,
{
    let ghost start = caller.calls();
    proof {
        lemma_stays(start);
    }
    if n == 0 {
        let kept: Vec<RemoteAllocation> = Vec::new();
        let failures: Vec<String> = Vec::new();
        proof {
            assert(pieces(kept@) =~= Seq::<Piece>::empty());
            assert(texts(failures@) =~= Seq::<Seq<char>>::empty());
        }
        return (kept, failures);
    }
    let (earlier, faults) = give_one_back(caller, handle, list, n - 1);
    let ghost a = caller.calls();
    proof {
        lemma_then(start, start, a);
    }
    let mut kept = earlier;
    let mut failures = faults;
    let piece = &list[n - 1];
    proof {
        assert(pieces(list@)[n - 1] == piece@);
    }
    if piece.sensitive {
        let blank = zeros(piece.size);
        let cleared = caller.write(handle, piece.address, blank.as_slice());
        let ghost b = caller.calls();
        proof {
            lemma_then(start, a, b);
        }
        if cleared.is_err() {
            add_piece(&mut kept, piece);
            add_text(&mut failures, "sensitive remote memory could not be cleared");
            return (kept, failures);
        }
    }
    let ghost c = caller.calls();
    proof {
        lemma_stays(c);
        lemma_then(start, c, c);
    }
    let freed = caller.free(handle, piece.address);
    proof {
        lemma_then(start, c, caller.calls());
    }
    if freed.is_err() {
        add_piece(&mut kept, piece);
        add_text(&mut failures, "remote login memory could not be released");
    }
    (kept, failures)
}

/// Some allocation has this address.
pub open spec fn kept_at(list: Seq<Piece>, at: usize) -> bool {
    exists|i: int| 0 <= i < list.len() && (#[trigger] list[i]).at == at
}

fn is_kept(list: &Vec<RemoteAllocation>, at: usize) -> (yes: bool)
    ensures
        yes == kept_at(pieces(list@), at),
{
    let mut i: usize = 0;
    while i < list.len()
        invariant
            i <= list@.len(),
            forall|j: int| 0 <= j < i ==> (#[trigger] pieces(list@)[j]).at != at,
        decreases list@.len() - i,
    {
        proof {
            assert(pieces(list@)[i as int] == list@[i as int]@);
        }
        if list[i].address == at {
            return true;
        }
        i += 1;
    }
    false
}

/// What is left once the allocations were given back. Of what lay in them, nothing is
/// known any more.
pub open spec fn released(calls: Calls, k: int, trace: Trace) -> (int, Trace, Seq<Seq<char>>) {
    let (k, kept, failures) = given_back(calls, k, trace.pieces, trace.pieces.len() as int);
    (
        k,
        Trace {
            pieces: kept,
            flag: match trace.flag {
                Some(at) if kept_at(kept, at) => Some(at),
                _ => None,
            },
            code: match trace.code {
                Some((at, size)) if kept_at(kept, at) => Some((at, size)),
                _ => None,
            },
            ..trace
        },
        failures,
    )
}

/// What is left of a login once its code rests: the hook site is restored, and where it
/// is, the memory is given back.
pub open spec fn undone(calls: Calls, k: int, trace: Trace) -> (int, Trace, Seq<Seq<char>>) {
    if trace.active {
        match patched_back(calls, k, trace) {
            (k, false) => (k, trace, seq!["temporary login patch could not be restored"@]),
            (k, true) => released(calls, k, Trace { active: false, ..trace }),
        }
    } else {
        released(calls, k, trace)
    }
}

/// The failures with that of letting the threads go on.
pub open spec fn resumed(
    calls: Calls,
    k: int,
    stopped: SuspendedProcess,
    failures: Seq<Seq<char>>,
) -> Seq<Seq<char>> {
    if resume_of(calls, k, stopped) is Err {
        failures.push("target threads could not be resumed"@)
    } else {
        failures
    }
}

/// What is left of a login and what went wrong, once it was cleaned up. A game that has
/// gone takes everything with it. While code of the login may run, nothing is changed.
pub open spec fn cleaned(calls: Calls, k: int, trace: Trace) -> (int, Trace, Seq<Seq<char>>) {
    match validated(calls, k) {
        Err(fault) => if fault.kind == ProcessBackendErrorKind::Exited || fault.kind
            == ProcessBackendErrorKind::NotFound {
            (
                k + 1,
                Trace { pieces: Seq::empty(), active: false, ..trace },
                Seq::empty(),
            )
        } else {
            (k + 1, trace, seq!["target identity could not be revalidated"@])
        },
        Ok(_) => if !trace.active {
            undone(calls, k + 1, trace)
        } else {
            match suspend_of(calls, k + 1) {
                Err(_) => (k + 2, trace, seq!["target threads could not be suspended"@]),
                Ok(stopped) => match holds_back(calls, k + 2, trace, stopped.pointers()) {
                    (k, Some(reason)) => (k + 1, trace, resumed(calls, k, stopped, seq![reason])),
                    (k, None) => {
                        let (k, left, failures) = undone(calls, k, trace);
                        (k + 1, left, resumed(calls, k, stopped, failures))
                    },
                },
            }
        },
    }
}

fn one_text(text: &str) -> (list: Vec<String>)
    ensures
        texts(list@) == seq![text@],
{
    let mut list: Vec<String> = Vec::new();
    list.push(text.to_owned());
    proof {
        assert(texts(list@) =~= seq![text@]);
    }
    list
}

/// A cleanup that came to a place of the calls.
pub open spec fn cleaned_at(
    answer: Vec<String>,
    k: int,
    left: Trace,
    outcome: (int, Trace, Seq<Seq<char>>),
) -> bool {
    &&& outcome.0 == k
    &&& outcome.1 == left
    &&& outcome.2 == texts(answer@)
}

fn release<B: MutationBackend>(
    caller: &mut Caller<'_, B>,
    record: &mut LoginRecord<B::Handle>,
) -> (answer: Vec<String>)
    requires
        old(caller).sound(),
        old(record).handle == old(caller).handle(),
        old(record).identity == old(caller).identity(),
    ensures
        old(caller).leads_to(final(caller)),
        forall|calls: Calls| #[trigger]
            goes_on(final(caller).calls(), calls) ==> cleaned_at(
                answer,
                final(caller).calls().len() as int,
                final(record)@,
                released(calls, old(caller).calls().len() as int, old(record)@),
            ),
        final(record).handle == old(record).handle,
        final(record).identity == old(record).identity,
{
    let ghost start = caller.calls();
    proof {
        lemma_stays(start);
    }
    let ghost before = record@;
    let count: usize = record.allocations.len();
    let (kept, failures) = give_one_back(caller, &record.handle, &record.allocations, count);
    record.allocations = kept;
    if let Some(at) = record.execution_flag {
        if !is_kept(&record.allocations, at) {
            record.execution_flag = None;
        }
    }
    if let Some((at, _)) = record.code_range {
        if !is_kept(&record.allocations, at) {
            record.code_range = None;
        }
    }
    failures
}

fn undo<B: MutationBackend>(
    caller: &mut Caller<'_, B>,
    record: &mut LoginRecord<B::Handle>,
) -> (answer: Vec<String>)
    requires
        old(caller).sound(),
        old(record).handle == old(caller).handle(),
        old(record).identity == old(caller).identity(),
    ensures
        old(caller).leads_to(final(caller)),
        forall|calls: Calls| #[trigger]
            goes_on(final(caller).calls(), calls) ==> cleaned_at(
                answer,
                final(caller).calls().len() as int,
                final(record)@,
                undone(calls, old(caller).calls().len() as int, old(record)@),
            ),
        final(record).handle == old(record).handle,
        final(record).identity == old(record).identity,
{
    let ghost start = caller.calls();
    proof {
        lemma_stays(start);
    }
    if record.patch_may_be_active {
        let restored = patch_back(caller, record);
        let ghost a = caller.calls();
        proof {
            lemma_then(start, start, a);
        }
        if !restored {
            return one_text("temporary login patch could not be restored");
        }
        record.patch_may_be_active = false;
        let failures = release(caller, record);
        proof {
            lemma_then(start, a, caller.calls());
        }
        failures
    } else {
        release(caller, record)
    }
}

/// Failures that came at a place of the calls.
pub open spec fn failures_at(
    answer: Vec<String>,
    k: int,
    outcome: (int, Seq<Seq<char>>),
) -> bool {
    outcome.0 == k && outcome.1 == texts(answer@)
}

fn resume_threads<B: MutationBackend>(
    caller: &mut Caller<'_, B>,
    suspended: SuspendedProcess,
    failures: Vec<String>,
) -> (answer: Vec<String>)
    requires
        old(caller).sound(),
    ensures
        old(caller).leads_to(final(caller)),
        forall|calls: Calls| #[trigger]
            goes_on(final(caller).calls(), calls) ==> failures_at(
                answer,
                final(caller).calls().len() as int,
                (
                    old(caller).calls().len() as int + 1,
                    resumed(
                        calls,
                        old(caller).calls().len() as int,
                        suspended,
                        texts(failures@),
                    ),
                ),
            ),
{
    let ghost start = caller.calls();
    proof {
        lemma_stays(start);
    }
    let outcome = caller.resume(suspended);
    let ghost a = caller.calls();
    proof {
        lemma_then(start, start, a);
    }
    let mut failures = failures;
    if outcome.is_err() {
        add_text(&mut failures, "target threads could not be resumed");
    }
    failures
}

fn clean_up<B: MutationBackend>(
    caller: &mut Caller<'_, B>,
    record: &mut LoginRecord<B::Handle>,
) -> (answer: Vec<String>)
    requires
        old(caller).sound(),
        old(record).handle == old(caller).handle(),
        old(record).identity == old(caller).identity(),
    ensures
        old(caller).leads_to(final(caller)),
        forall|calls: Calls| #[trigger]
            goes_on(final(caller).calls(), calls) ==> cleaned_at(
                answer,
                final(caller).calls().len() as int,
                final(record)@,
                cleaned(calls, old(caller).calls().len() as int, old(record)@),
            ),
        final(record).handle == old(record).handle,
        final(record).identity == old(record).identity,
{
    let ghost start = caller.calls();
    proof {
        lemma_stays(start);
    }
    let verdict = caller.validate(&record.handle, &record.identity);
    let ghost a = caller.calls();
    proof {
        lemma_then(start, start, a);
    }
    if let Err(error) = verdict {
        let gone = match error.kind {
            ProcessBackendErrorKind::Exited | ProcessBackendErrorKind::NotFound => true,
            _ => false,
        };
        if gone {
            record.allocations = Vec::new();
            record.patch_may_be_active = false;
            let none: Vec<String> = Vec::new();
            proof {
                assert(texts(none@) =~= Seq::<Seq<char>>::empty());
                assert(pieces(record.allocations@) =~= Seq::<Piece>::empty());
            }
            return none;
        }
        return one_text("target identity could not be revalidated");
    }
    if !record.patch_may_be_active {
        let failures = undo(caller, record);
        proof {
            lemma_then(start, a, caller.calls());
        }
        return failures;
    }
    let threads = caller.suspend(&record.handle);
    let ghost b = caller.calls();
    proof {
        lemma_then(start, a, b);
    }
    let suspended = match threads {
        Ok(suspended) => suspended,
        Err(_) => {
            return one_text("target threads could not be suspended");
        },
    };
    let reason = find_reason(caller, record, &suspended);
    let ghost c = caller.calls();
    proof {
        lemma_then(start, b, c);
    }
    if let Some(reason) = reason {
        let failures = resume_threads(caller, suspended, one_text(reason));
        proof {
            lemma_then(start, c, caller.calls());
        }
        return failures;
    }
    let undone = undo(caller, record);
    let ghost d = caller.calls();
    proof {
        lemma_then(start, c, d);
    }
    let failures = resume_threads(caller, suspended, undone);
    let ghost e = caller.calls();
    proof {
        lemma_then(start, d, e);
    }
    failures
}

/// What cleaning a login up does: calls on its process alone, what they leave, and what
/// went wrong.
pub open spec fn cleans<B: MutationBackend>(
    backend: &B,
    handle: B::Handle,
    identity: ProcessIdentity,
    calls: Calls,
    trace: Trace,
    left: Trace,
    failures: Seq<Seq<char>>,
) -> bool {
    &&& calls_made(backend, handle, identity, calls)
    &&& cleaned(calls, 0, trace) == (calls.len() as int, left, failures)
}

/// Takes back what a login changed in the game. The answer says what went wrong; what
/// could not be taken back stays in the record, and is tried again the next time.
pub fn cleanup_record<B: MutationBackend>(
    backend: &B,
    record: &mut LoginRecord<B::Handle>,
) -> (failures: Vec<String>)
    ensures
        final(record).handle == old(record).handle,
        final(record).identity == old(record).identity,
        exists|calls: Calls| #[trigger]
            cleans(
                backend,
                old(record).handle,
                old(record).identity,
                calls,
                old(record)@,
                final(record)@,
                texts(failures@),
            ),
{
    let mut caller = Caller::new(backend, Ghost(record.handle), Ghost(record.identity));
    let failures = clean_up(&mut caller, record);
    proof {
        lemma_stays(caller.calls());
        assert(cleans(
            backend,
            old(record).handle,
            old(record).identity,
            caller.calls(),
            old(record)@,
            record@,
            texts(failures@),
        ));
    }
    failures
}

/// A cleanup after which nothing went wrong leaves nothing behind: no patch and no
/// memory.
pub proof fn clean_ends_leave_nothing(calls: Calls, k: int, trace: Trace)
    requires
        cleaned(calls, k, trace).2.len() == 0,
    ensures
        !cleaned(calls, k, trace).1.active,
        cleaned(calls, k, trace).1.pieces.len() == 0,
{
    let n = trace.pieces.len() as int;
    if validated(calls, k) is Ok {
        if trace.active {
            if let Ok(stopped) = suspend_of(calls, k + 1) {
                let (next, reason) = holds_back(calls, k + 2, trace, stopped.pointers());
                if reason is None {
                    let (then, restored) = patched_back(calls, next, trace);
                    lemma_kept_and_failed(calls, then, trace.pieces, n);
                }
            }
        } else {
            lemma_kept_and_failed(calls, k + 1, trace.pieces, n);
        }
    }
}

proof fn lemma_kept_and_failed(calls: Calls, k: int, list: Seq<Piece>, n: int)
    ensures
        given_back(calls, k, list, n).1.len() == given_back(calls, k, list, n).2.len(),
    decreases n,
{
    if n > 0 {
        lemma_kept_and_failed(calls, k, list, n - 1);
    }
}

/// While the code of a login may be running, its memory is not given back and its patch
/// is not touched.
pub proof fn running_code_is_kept(calls: Calls, k: int, trace: Trace, stopped: SuspendedProcess)
    requires
        trace.active,
        validated(calls, k) is Ok,
        suspend_of(calls, k + 1) == Ok::<SuspendedProcess, Fault>(stopped),
        holds_back(calls, k + 2, trace, stopped.pointers()).1 is Some,
    ensures
        cleaned(calls, k, trace).1 == trace,
        cleaned(calls, k, trace).2.len() > 0,
{
}

/// A result that agrees with an outcome.
pub open spec fn tells<T>(result: Result<T, GameLoginError>, outcome: Result<T, Failure>) -> bool {
    match (result, outcome) {
        (Ok(value), Ok(expected)) => value == expected,
        (Err(error), Err(fault)) => error@ == fault,
        _ => false,
    }
}

/// Bytes that agree with an outcome.
pub open spec fn spells(
    result: Result<Vec<u8>, GameLoginError>,
    outcome: Result<Seq<u8>, Failure>,
) -> bool {
    match (result, outcome) {
        (Ok(value), Ok(expected)) => value@ == expected,
        (Err(error), Err(fault)) => error@ == fault,
        _ => false,
    }
}

/// The one place of a pattern.
pub open spec fn only_match(bytes: Seq<u8>, pattern: Seq<Option<u8>>, label: Seq<char>) -> Result<
    usize,
    Failure,
> {
    let places = occurrences(bytes, pattern);
    if places.len() == 1 {
        Ok(places[0] as usize)
    } else if places.len() == 0 {
        Err(login_failed("the required "@ + label + " pattern was not found"@))
    } else {
        Err(login_failed("the required "@ + label + " pattern matched more than once"@))
    }
}

/// Finds the one place of a pattern.
pub fn unique_match(bytes: &[u8], pattern: &[Option<u8>], label: &str) -> (place: Result<
    usize,
    GameLoginError,
>)
    ensures
        tells(place, only_match(bytes@, pattern@, label@)),
{
    let offsets = signature_offsets(bytes, pattern);
    proof {
        let places = offsets@.map_values(|offset: usize| offset as int);
        assert(places.len() == offsets@.len());
        if offsets@.len() == 1 {
            assert(places[0] == offsets@[0] as int);
        }
    }
    if offsets.len() == 1 {
        return Ok(offsets[0]);
    }
    let text = if offsets.len() == 0 {
        join3("the required ", label, " pattern was not found")
    } else {
        join3("the required ", label, " pattern matched more than once")
    };
    Err(GameLoginError::failed(text.as_str()))
}

/// A signed displacement in code.
pub open spec fn displacement(bytes: Seq<u8>, offset: int) -> Result<int, Failure> {
    if offset + 4 <= bytes.len() {
        Ok(signed32(le_value(bytes.subrange(offset, offset + 4))))
    } else {
        Err(login_failed("login displacement is incomplete"@))
    }
}

/// The address that an instruction names relative to its end.
pub open spec fn named_from(base: int, end: int, distance: int) -> Result<usize, Failure> {
    if base + end > usize::MAX {
        Err(login_failed("login relative address overflowed"@))
    } else if 0 <= base + end + distance <= usize::MAX {
        Ok((base + end + distance) as usize)
    } else {
        Err(login_failed("login relative address is invalid"@))
    }
}

/// The address that an instruction at an offset of the module names.
pub open spec fn operand(
    bytes: Seq<u8>,
    base: int,
    offset: int,
    field: int,
    end: int,
) -> Result<usize, Failure> {
    match displacement(bytes, offset + field) {
        Err(fault) => Err(fault),
        Ok(distance) => named_from(base + offset, end, distance),
    }
}

fn read_operand(bytes: &Vec<u8>, base: usize, offset: usize, field: usize, end: usize) -> (address:
    Result<usize, GameLoginError>)
    requires
        base + offset <= usize::MAX,
        field <= 32,
        end <= 32,
    ensures
        tells(address, operand(bytes@, base as int, offset as int, field as int, end as int)),
{
    if bytes.len() < field + 4 || offset > bytes.len() - (field + 4) {
        return Err(GameLoginError::failed("login displacement is incomplete"));
    }
    let at: usize = offset + field;
    proof {
        lemma_pow256();
    }
    let distance: i32 = from_bits(read_le(bytes.as_slice(), at, 4) as u32);
    let next: usize = match (base + offset).checked_add(end) {
        Some(next) => next,
        None => {
            return Err(GameLoginError::failed("login relative address overflowed"));
        },
    };
    let there: i128 = next as i128 + distance as i128;
    if there < 0 || there > usize::MAX as i128 {
        return Err(GameLoginError::failed("login relative address is invalid"));
    }
    Ok(there as usize)
}

/// The address of a module.
pub open spec fn module_address(text: Seq<char>) -> Result<usize, Failure> {
    if text.len() >= 2 && text[0] == '0' && text[1] == 'x' {
        match numeral(text.skip(2), 16) {
            Some(value) if value <= usize::MAX => Ok(value as usize),
            _ => Err(login_failed("game module address is invalid"@)),
        }
    } else {
        Err(login_failed("game module address is invalid"@))
    }
}

fn parse_address(value: &str) -> (address: Result<usize, GameLoginError>)
    ensures
        tells(address, module_address(value@)),
{
    let chars = chars_of(value);
    if chars.len() >= 2 && chars[0] == '0' && chars[1] == 'x' {
        let digits = vstd::slice::slice_subrange(chars.as_slice(), 2, chars.len());
        proof {
            assert(digits@ =~= value@.skip(2));
        }
        let digits = string_of(digits);
        if let Some(address) = parse_numeral(digits.as_str(), 16, usize::MAX as u64) {
            return Ok(address as usize);
        }
    }
    Err(GameLoginError::failed("game module address is invalid"))
}

/// An account for automatic login.
pub struct CredentialSecret {
    username: Vec<u8>,
    password: Vec<u8>,
}

impl CredentialSecret {
    /// The name of the account.
    pub closed spec fn name(&self) -> Seq<u8> {
        self.username@
    }

    /// The password of the account.
    pub closed spec fn secret(&self) -> Seq<u8> {
        self.password@
    }

    /// An account of the given name and password.
    pub fn new(username: Vec<u8>, password: Vec<u8>) -> (credential: Self)
        ensures
            credential.name() == username@,
            credential.secret() == password@,
    {
        CredentialSecret { username, password }
    }

    /// Overwrites the account in memory.
    pub fn wipe(&mut self)
        ensures
            final(self).name().len() == 0,
            final(self).secret().len() == 0,
    {
        wipe(&mut self.username);
        wipe(&mut self.password);
    }
}

/// `zeroize::Zeroize::zeroize` on a vector of bytes overwrites them and leaves the
/// vector empty.
#[verifier::external_body]
fn wipe(bytes: &mut Vec<u8>)
    ensures
        final(bytes)@.len() == 0,
{
    zeroize::Zeroize::zeroize(bytes)
}

/// How long a login command is, if that can be said.
pub open spec fn command_size(credential: CredentialSecret) -> Result<usize, Failure> {
    let size = 8 + credential.name().len() + credential.secret().len();
    if size <= usize::MAX {
        Ok(size as usize)
    } else {
        Err(login_failed("login command size overflowed"@))
    }
}

fn login_command_size(credential: &CredentialSecret) -> (size: Result<usize, GameLoginError>)
    ensures
        tells(size, command_size(*credential)),
{
    let name: usize = credential.username.len();
    let secret: usize = credential.password.len();
    if name <= usize::MAX - 8 && secret <= usize::MAX - 8 - name {
        Ok(8 + name + secret)
    } else {
        Err(GameLoginError::failed("login command size overflowed"))
    }
}

/// A byte that text does not show.
pub open spec fn is_control(byte: u8) -> bool {
    byte < 0x20 || byte == 0x7f
}

/// Some byte is one that text does not show.
pub open spec fn has_control(bytes: Seq<u8>) -> bool {
    exists|i: int| 0 <= i < bytes.len() && is_control(#[trigger] bytes[i])
}

fn holds_control(bytes: &Vec<u8>) -> (yes: bool)
    ensures
        yes == has_control(bytes@),
{
    let mut i: usize = 0;
    while i < bytes.len()
        invariant
            i <= bytes@.len(),
            forall|j: int| 0 <= j < i ==> !is_control(#[trigger] bytes@[j]),
        decreases bytes@.len() - i,
    {
        let byte: u8 = bytes[i];
        if byte < 0x20 || byte == 0x7f {
            assert(is_control(bytes@[i as int]));
            return true;
        }
        i += 1;
    }
    false
}

/// The command that the game runs: `login`, the name and the password, and a closing
/// zero.
pub open spec fn command_bytes(name: Seq<u8>, secret: Seq<u8>) -> Seq<u8> {
    seq![0x6cu8, 0x6f, 0x67, 0x69, 0x6e, 0x20] + name + seq![0x20u8] + secret + seq![0u8]
}

/// The command for an account, if there is one.
pub open spec fn login_command(credential: CredentialSecret) -> Result<Seq<u8>, Failure> {
    if has_control(credential.name()) || has_control(credential.secret()) {
        Err(
            login_failed(
                "the saved account contains characters that cannot be used by automatic login"@,
            ),
        )
    } else {
        match command_size(credential) {
            Err(fault) => Err(fault),
            Ok(_) => Ok(command_bytes(credential.name(), credential.secret())),
        }
    }
}

/// Builds the command for an account.
pub fn build_login_command(credential: &CredentialSecret) -> (command: Result<
    Vec<u8>,
    GameLoginError,
>)
    ensures
        spells(command, login_command(*credential)),
{
    if holds_control(&credential.username) || holds_control(&credential.password) {
        return Err(
            GameLoginError::failed(
                "the saved account contains characters that cannot be used by automatic login",
            ),
        );
    }
    let size: usize = login_command_size(credential)?;
    let mut command: Vec<u8> = Vec::with_capacity(size);
    command.push(0x6c);
    command.push(0x6f);
    command.push(0x67);
    command.push(0x69);
    command.push(0x6e);
    command.push(0x20);
    push_all(&mut command, credential.username.as_slice());
    command.push(0x20);
    push_all(&mut command, credential.password.as_slice());
    command.push(0);
    proof {
        assert(command@ =~= command_bytes(credential.name(), credential.secret()));
    }
    Ok(command)
}

/// A string of the game whose text lies elsewhere.
pub open spec fn string_bytes(data: usize, length: nat) -> Seq<u8> {
    le_bytes(data as nat, 8) + Seq::new(8, |i: int| 0u8) + le_bytes(length, 8) + le_bytes(
        length,
        8,
    )
}

fn build_string_struct(data_address: usize, length: usize) -> (bytes: Vec<u8>)
    ensures
        bytes@ == string_bytes(data_address, length as nat),
{
    let mut bytes: Vec<u8> = Vec::new();
    push_u64(&mut bytes, data_address as u64);
    let gap = zeros(8);
    push_all(&mut bytes, gap.as_slice());
    push_u64(&mut bytes, length as u64);
    push_u64(&mut bytes, length as u64);
    proof {
        assert(bytes@ =~= string_bytes(data_address, length as nat));
    }
    bytes
}

/// Whether a distance fits a relative jump.
pub open spec fn in_reach(distance: int) -> bool {
    i32::MIN <= distance <= i32::MAX
}

/// A jump over a site, filled up with idle instructions.
pub open spec fn relative_jump(source: usize, destination: usize, size: nat) -> Result<
    Seq<u8>,
    Failure,
> {
    if source + 5 > usize::MAX {
        Err(login_failed("login detour address overflowed"@))
    } else if !in_reach(destination - (source + 5)) {
        Err(login_failed("login code is outside relative jump range"@))
    } else {
        Ok(
            seq![0xe9u8] + le_bytes(wrap32(destination - (source + 5)), 4) + Seq::new(
                (size - 5) as nat,
                |i: int| 0x90u8,
            ),
        )
    }
}

/// Builds a jump over a site.
pub fn relative_detour(source: usize, destination: usize, size: usize) -> (bytes: Result<
    Vec<u8>,
    GameLoginError,
>)
    requires
        size >= 5,
    ensures
        spells(bytes, relative_jump(source, destination, size as nat)),
{
    let next: usize = match source.checked_add(5) {
        Some(next) => next,
        None => {
            return Err(GameLoginError::failed("login detour address overflowed"));
        },
    };
    let distance: i128 = destination as i128 - next as i128;
    if distance < i32::MIN as i128 || distance > i32::MAX as i128 {
        return Err(GameLoginError::failed("login code is outside relative jump range"));
    }
    let mut bytes: Vec<u8> = Vec::new();
    bytes.push(0xe9);
    push_i32(&mut bytes, distance as i32);
    let idle = filled(0x90, size - 5);
    push_all(&mut bytes, idle.as_slice());
    proof {
        assert(bytes@ =~= relative_jump(source, destination, size as nat)->Ok_0);
    }
    Ok(bytes)
}

/// A jump over a site leads to its destination and fills the site.
pub proof fn relative_jumps_lead_to_their_destination(source: usize, destination: usize, size: nat)
    requires
        size >= 5,
        relative_jump(source, destination, size) is Ok,
    ensures
        relative_jump(source, destination, size)->Ok_0.len() == size,
        relative_jump(source, destination, size)->Ok_0[0] == 0xe9,
        source + 5 + signed32(
            le_value(relative_jump(source, destination, size)->Ok_0.subrange(1, 5)),
        ) == destination,
{
    let bytes = relative_jump(source, destination, size)->Ok_0;
    let distance = destination - (source + 5);
    lemma_le_bytes_len(wrap32(distance), 4);
    assert(bytes.subrange(1, 5) =~= le_bytes(wrap32(distance), 4));
    lemma_pow256();
    written_value_reads_back(wrap32(distance), 4);
}

/// Moves a register for vectors to or from the stack.
pub open spec fn vector_move(opcode: u8, register: int) -> Seq<u8> {
    seq![
        0xf3u8,
        0x0f,
        opcode,
        (0x44 + register * 8) as u8,
        0x24,
        (0x20 + register * 0x10) as u8,
    ]
}

/// Moves the first registers for vectors.
pub open spec fn vector_moves(opcode: u8, n: int) -> Seq<u8>
    decreases n,
{
    if n <= 0 {
        Seq::empty()
    } else {
        vector_moves(opcode, n - 1) + vector_move(opcode, n - 1)
    }
}

fn emit_vector_moves(code: &mut Vec<u8>, opcode: u8)
    ensures
        final(code)@ == old(code)@ + vector_moves(opcode, 6),
{
    let ghost before = code@;
    proof {
        assert(before + vector_moves(opcode, 0) =~= before);
    }
    let mut register: u8 = 0;
    while register < 6
        invariant
            register <= 6,
            code@ == before + vector_moves(opcode, register as int),
        decreases 6 - register,
    {
        code.push(0xf3);
        code.push(0x0f);
        code.push(opcode);
        code.push(0x44 + register * 8);
        code.push(0x24);
        code.push(0x20 + register * 0x10);
        register += 1;
        proof {
            assert(code@ =~= before + vector_moves(opcode, register as int));
        }
    }
}

pub(crate) proof fn lemma_vector_moves_len(opcode: u8, n: int)
    requires
        0 <= n,
    ensures
        vector_moves(opcode, n).len() == 6 * n,
    decreases n,
{
    if n > 0 {
        lemma_vector_moves_len(opcode, n - 1);
    }
}

/// The code up to the call of the dispatcher: whoever sets the flag from one to two first
/// goes on with all registers saved; all others go to the code at the end.
pub open spec fn login_entry(flag: usize) -> Seq<u8> {
    seq![0x9cu8, 0x50, 0x51, 0x52, 0x48, 0xba] + le_bytes(flag as nat, 8) + seq![
        0xb0u8, 0x01, 0xb1, 0x02, 0xf0, 0x0f, 0xb0, 0x0a, 0x0f, 0x85,
    ]
        + le_bytes(173, 4) + seq![
            0x5au8, 0x59, 0x58, 0x50, 0x51, 0x52, 0x41, 0x50, 0x41, 0x51, 0x41, 0x52, 0x41, 0x53,
            0x48, 0x81, 0xec, 0x80, 0x00, 0x00, 0x00,
        ]
        + vector_moves(0x7f, 6)
}

/// The call of the dispatcher.
pub open spec fn login_call(structure: usize, client: usize, function: usize) -> Seq<u8> {
    seq![
        0x41u8, 0xb1, 0x01, 0x45, 0x33, 0xc0, 0x48, 0xba,
    ] + le_bytes(structure as nat, 8) + seq![0x48u8, 0xb8]
        + le_bytes(client as nat, 8) + seq![0x48u8, 0x8b, 0x08, 0x48, 0xb8] + le_bytes(function as nat, 8)
        + seq![0xffu8, 0xd0]
}

/// The code behind the call: the registers are restored and the flag is cleared.
pub open spec fn login_exit(flag: usize) -> Seq<u8> {
    vector_moves(0x6f, 6) + seq![
        0x48u8, 0x81, 0xc4, 0x80, 0x00, 0x00, 0x00, 0x41, 0x5b, 0x41, 0x5a, 0x41, 0x59, 0x41, 0x58,
        0x5a, 0x59, 0x58, 0x50, 0x48, 0xb8,
    ]
        + le_bytes(flag as nat, 8) + seq![0xc6u8, 0x00, 0x00, 0x58, 0x9d, 0xe9] + le_bytes(4, 4) + seq![0x5au8, 0x59, 0x58, 0x9d]
}

/// The code of a login without what it took the place of.
pub open spec fn login_head(flag: usize, structure: usize, client: usize, function: usize) -> Seq<u8> {
    login_entry(flag) + login_call(structure, client, function) + login_exit(flag)
}

/// The code of a login: it calls the dispatcher once, runs what it took the place of and
/// goes back behind that.
pub open spec fn login_code_bytes(
    block: usize,
    flag: usize,
    structure: usize,
    client: usize,
    function: usize,
    original: Seq<u8>,
    back: usize,
) -> Result<Seq<u8>, Failure> {
    let end = block + 210 + original.len();
    if end > usize::MAX {
        Err(login_failed("login return address overflowed"@))
    } else if !in_reach(back - end) {
        Err(login_failed("login return is outside relative jump range"@))
    } else {
        Ok(
            login_head(flag, structure, client, function) + original + seq![0xe9u8] + le_bytes(
                wrap32(back - end),
                4,
            ),
        )
    }
}

pub(crate) proof fn lemma_login_head_len(flag: usize, structure: usize, client: usize, function: usize)
    ensures
        login_entry(flag).len() == 85,
        login_call(structure, client, function).len() == 41,
        login_exit(flag).len() == 79,
        login_head(flag, structure, client, function).len() == 205,
{
    lemma_vector_moves_len(0x7f, 6);
    lemma_vector_moves_len(0x6f, 6);
    lemma_le_bytes_len(flag as nat, 8);
    lemma_le_bytes_len(structure as nat, 8);
    lemma_le_bytes_len(client as nat, 8);
    lemma_le_bytes_len(function as nat, 8);
    lemma_le_bytes_len(173, 4);
    lemma_le_bytes_len(4, 4);
}

fn emit(code: &mut Vec<u8>, bytes: &[u8])
    ensures
        final(code)@ == old(code)@ + bytes@,
{
    push_all(code, bytes);
}

fn emit_entry(code: &mut Vec<u8>, flag: usize)
    ensures
        final(code)@ == old(code)@ + login_entry(flag),
{
    let ghost before = code@;
    emit(code, &[0x9c, 0x50, 0x51, 0x52, 0x48, 0xba]);
    push_u64(code, flag as u64);
    emit(code, &[0xb0, 0x01, 0xb1, 0x02, 0xf0, 0x0f, 0xb0, 0x0a, 0x0f, 0x85]);
    push_i32(code, 173);
    emit(
        code,
        &[0x5a, 0x59, 0x58, 0x50, 0x51, 0x52, 0x41, 0x50, 0x41, 0x51, 0x41, 0x52, 0x41, 0x53, 0x48, 0x81, 0xec, 0x80, 0x00, 0x00, 0x00],
    );
    emit_vector_moves(code, 0x7f);
    proof {
        assert(code@ =~= before + login_entry(flag));
    }
}

fn emit_call(code: &mut Vec<u8>, structure: usize, client: usize, function: usize)
    ensures
        final(code)@ == old(code)@ + login_call(structure, client, function),
{
    let ghost before = code@;
    emit(code, &[0x41, 0xb1, 0x01, 0x45, 0x33, 0xc0, 0x48, 0xba]);
    push_u64(code, structure as u64);
    emit(code, &[0x48, 0xb8]);
    push_u64(code, client as u64);
    emit(code, &[0x48, 0x8b, 0x08, 0x48, 0xb8]);
    push_u64(code, function as u64);
    emit(code, &[0xff, 0xd0]);
    proof {
        assert(code@ =~= before + login_call(structure, client, function));
    }
}

fn emit_exit(code: &mut Vec<u8>, flag: usize)
    ensures
        final(code)@ == old(code)@ + login_exit(flag),
{
    let ghost before = code@;
    emit_vector_moves(code, 0x6f);
    emit(
        code,
        &[0x48, 0x81, 0xc4, 0x80, 0x00, 0x00, 0x00, 0x41, 0x5b, 0x41, 0x5a, 0x41, 0x59, 0x41, 0x58, 0x5a, 0x59, 0x58, 0x50, 0x48, 0xb8],
    );
    push_u64(code, flag as u64);
    emit(code, &[0xc6, 0x00, 0x00, 0x58, 0x9d, 0xe9]);
    push_i32(code, 4);
    emit(code, &[0x5a, 0x59, 0x58, 0x9d]);
    proof {
        assert(code@ =~= before + login_exit(flag));
    }
}

/// Builds the code of a login.
pub fn build_login_code(
    block_address: usize,
    flag_address: usize,
    string_struct_address: usize,
    client_pointer_address: usize,
    function_address: usize,
    original: &[u8],
    return_address: usize,
) -> (code: Result<Vec<u8>, GameLoginError>)
    requires
        original@.len() + 0x1000 <= usize::MAX,
    ensures
        spells(
            code,
            login_code_bytes(
                block_address,
                flag_address,
                string_struct_address,
                client_pointer_address,
                function_address,
                original@,
                return_address,
            ),
        ),
{
    let mut code: Vec<u8> = Vec::new();
    emit_entry(&mut code, flag_address);
    emit_call(&mut code, string_struct_address, client_pointer_address, function_address);
    emit_exit(&mut code, flag_address);
    proof {
        lemma_login_head_len(
            flag_address,
            string_struct_address,
            client_pointer_address,
            function_address,
        );
        assert(code@ =~= login_head(
            flag_address,
            string_struct_address,
            client_pointer_address,
            function_address,
        ));
    }
    push_all(&mut code, original);
    code.push(0xe9);
    let end: usize = match block_address.checked_add(code.len() + 4) {
        Some(end) => end,
        None => {
            return Err(GameLoginError::failed("login return address overflowed"));
        },
    };
    let distance: i128 = return_address as i128 - end as i128;
    if distance < i32::MIN as i128 || distance > i32::MAX as i128 {
        return Err(GameLoginError::failed("login return is outside relative jump range"));
    }
    push_i32(&mut code, distance as i32);
    proof {
        assert(code@ =~= login_code_bytes(
            block_address,
            flag_address,
            string_struct_address,
            client_pointer_address,
            function_address,
            original@,
            return_address,
        )->Ok_0);
    }
    Ok(code)
}

/// The code of a login goes back to where it was told to, with what it took the place of
/// run before.
pub proof fn login_code_goes_back(
    block: usize,
    flag: usize,
    structure: usize,
    client: usize,
    function: usize,
    original: Seq<u8>,
    back: usize,
)
    requires
        login_code_bytes(block, flag, structure, client, function, original, back) is Ok,
    ensures
        ({
            let code = login_code_bytes(
                block,
                flag,
                structure,
                client,
                function,
                original,
                back,
            )->Ok_0;
            &&& code.len() == 210 + original.len()
            &&& code.subrange(205, 205 + original.len() as int) == original
            &&& block + code.len() + signed32(
                le_value(code.subrange(code.len() - 4, code.len() as int)),
            ) == back
        }),
{
    let code = login_code_bytes(block, flag, structure, client, function, original, back)->Ok_0;
    let distance = back - (block + 210 + original.len());
    lemma_login_head_len(flag, structure, client, function);
    lemma_le_bytes_len(wrap32(distance), 4);
    assert(code.subrange(205, 205 + original.len() as int) =~= original);
    assert(code.subrange(code.len() - 4, code.len() as int) =~= le_bytes(wrap32(distance), 4));
    lemma_pow256();
    written_value_reads_back(wrap32(distance), 4);
}

/// The module of the game, from the given one on.
pub open spec fn game_module(modules: Seq<ModuleDescriptor>, from: int) -> Option<int>
    decreases modules.len() - from,
{
    if from >= modules.len() {
        None
    } else if lowered(modules[from].name@) == lowered(WIZARD101_EXECUTABLE@) {
        Some(from)
    } else {
        game_module(modules, from + 1)
    }
}

fn find_game_module(modules: &Vec<ModuleDescriptor>) -> (found: Option<usize>)
    ensures
        match game_module(modules@, 0) {
            Some(i) => found matches Some(at) && at == i && at < modules@.len(),
            None => found is None,
        },
{
    let mut i: usize = 0;
    while i < modules.len()
        invariant
            i <= modules@.len(),
            game_module(modules@, 0) == game_module(modules@, i as int),
        decreases modules@.len() - i,
    {
        if same_ignoring_case(modules[i].name.as_str(), WIZARD101_EXECUTABLE) {
            return Some(i);
        }
        i += 1;
    }
    None
}

/// Where the module of the game is and how large it is, if it can be read.
pub open spec fn game_range(modules: Seq<ModuleDescriptor>) -> Result<(usize, usize), Failure> {
    match game_module(modules, 0) {
        None => Err(login_failed("Wizard101 executable module was not found"@)),
        Some(i) => match module_address(modules[i].base_address@) {
            Err(fault) => Err(fault),
            Ok(base) => if 22 < modules[i].size <= MAX_MODULE_BYTES {
                Ok((base, modules[i].size as usize))
            } else {
                Err(login_failed("Wizard101 module size is outside safe limits"@))
            },
        },
    }
}

fn find_range(modules: &Vec<ModuleDescriptor>) -> (range: Result<(usize, usize), GameLoginError>)
    ensures
        tells(range, game_range(modules@)),
{
    let i: usize = match find_game_module(modules) {
        Some(i) => i,
        None => {
            return Err(GameLoginError::failed("Wizard101 executable module was not found"));
        },
    };
    let module = &modules[i];
    let base: usize = parse_address(module.base_address.as_str())?;
    if module.size <= 22 || module.size as usize > MAX_MODULE_BYTES {
        return Err(GameLoginError::failed("Wizard101 module size is outside safe limits"));
    }
    Ok((base, module.size as usize))
}

/// The places of the login in the module: of the dispatcher and of the hook.
pub open spec fn login_places(bytes: Seq<u8>) -> Result<(usize, usize), Failure> {
    match only_match(bytes, login_bytes(), "login dispatcher"@) {
        Err(fault) => Err(fault),
        Ok(login) => match only_match(bytes, hook_bytes(), "login hook"@) {
            Err(fault) => Err(fault),
            Ok(hook) => Ok((login, hook)),
        },
    }
}

fn find_places(bytes: &Vec<u8>) -> (places: Result<(usize, usize), GameLoginError>)
    ensures
        tells(places, login_places(bytes@)),
        places matches Ok((login, hook)) ==> login + 22 <= bytes@.len() && hook + 21
            <= bytes@.len(),
{
    let login_code = login_pattern();
    let hook_code = hook_pattern();
    let login: usize = unique_match(bytes.as_slice(), login_code.as_slice(), "login dispatcher")?;
    let hook: usize = unique_match(bytes.as_slice(), hook_code.as_slice(), "login hook")?;
    let length: usize = bytes.len();
    proof {
        assert(bytes@.len() == length);
        lemma_only_match(bytes@, login_code@, "login dispatcher"@);
        lemma_only_match(bytes@, hook_code@, "login hook"@);
    }
    Ok((login, hook))
}

proof fn lemma_only_match(bytes: Seq<u8>, pattern: Seq<Option<u8>>, label: Seq<char>)
    requires
        only_match(bytes, pattern, label) is Ok,
        bytes.len() <= usize::MAX,
    ensures
        only_match(bytes, pattern, label)->Ok_0 + pattern.len() <= bytes.len(),
{
    let holds = |at: int| matches_at(bytes, pattern, at);
    let len = (bytes.len() - pattern.len() + 1) as nat;
    hits_are_complete(len, holds);
    assert(occurrences(bytes, pattern) == hits(len, holds));
    let at = hits(len, holds)[0];
    assert(hits(len, holds).contains(at));
}

/// The addresses that the dispatcher's code names: of the client and of the function.
pub open spec fn login_operands(bytes: Seq<u8>, base: int, login: int) -> Result<
    (usize, usize),
    Failure,
> {
    match operand(bytes, base, login, 13, 17) {
        Err(fault) => Err(fault),
        Ok(client) => match operand(bytes, base, login, 18, 22) {
            Err(fault) => Err(fault),
            Ok(function) => Ok((client, function)),
        },
    }
}

fn find_operands(bytes: &Vec<u8>, base: usize, login: usize) -> (operands: Result<
    (usize, usize),
    GameLoginError,
>)
    requires
        base + login <= usize::MAX,
    ensures
        tells(operands, login_operands(bytes@, base as int, login as int)),
{
    let client: usize = read_operand(bytes, base, login, 13, 17)?;
    let function: usize = read_operand(bytes, base, login, 18, 22)?;
    Ok((client, function))
}

/// Where the hook goes and what stands there, where the dispatcher is, and what it needs.
#[verifier::ext_equal]
pub ghost struct Sites {
    pub hook: usize,
    pub original: Seq<u8>,
    pub client: usize,
    pub function: usize,
}

/// What a module says of the login before anything was changed.
pub open spec fn first_sites(bytes: Seq<u8>, base: usize) -> Result<Sites, Failure> {
    match login_places(bytes) {
        Err(fault) => Err(fault),
        Ok((login, hook)) => if base + hook > usize::MAX {
            Err(login_failed("login hook address overflowed"@))
        } else {
            let original = bytes.subrange(hook as int, hook + HOOK_OVERWRITE_BYTES);
            if first_fault(original, 0) is Some {
                Err(
                    login_failed(
                        "login hook does not span complete relocatable instructions"@,
                    ),
                )
            } else if base + login > usize::MAX {
                Err(login_failed("login dispatcher address overflowed"@))
            } else {
                match login_operands(bytes, base as int, login as int) {
                    Err(fault) => Err(fault),
                    Ok((client, function)) => Ok(
                        Sites { hook: (base + hook) as usize, original, client, function },
                    ),
                }
            }
        },
    }
}

/// What a module says of the login, once it was prepared for: the hook site must not have
/// changed.
pub open spec fn later_sites(bytes: Seq<u8>, base: usize, trace: Trace) -> Result<
    (usize, usize),
    Failure,
> {
    match login_places(bytes) {
        Err(fault) => Err(fault),
        Ok((login, hook)) => if hook + trace.original.len() > bytes.len() {
            Err(login_failed("login hook bytes are incomplete"@))
        } else if base + hook > usize::MAX {
            Err(login_failed("login hook address overflowed"@))
        } else if bytes.subrange(hook as int, hook + trace.original.len()) != trace.original
            || base + hook != trace.hook {
            Err(login_failed("login hook changed after validation and before mutation"@))
        } else if base + login > usize::MAX {
            Err(login_failed("login dispatcher address overflowed"@))
        } else {
            login_operands(bytes, base as int, login as int)
        },
    }
}

struct FoundSites {
    hook: usize,
    original: Vec<u8>,
    client: usize,
    function: usize,
}

impl FoundSites {
    spec fn sites(&self) -> Sites {
        Sites {
            hook: self.hook,
            original: self.original@,
            client: self.client,
            function: self.function,
        }
    }
}

fn find_sites(bytes: &Vec<u8>, base: usize) -> (found: Result<FoundSites, GameLoginError>)
    ensures
        match (found, first_sites(bytes@, base)) {
            (Ok(found), Ok(sites)) => found.sites() == sites,
            (Err(error), Err(fault)) => error@ == fault,
            _ => false,
        },
        found matches Ok(found) ==> found.original@.len() == HOOK_OVERWRITE_BYTES,
{
    let (login, hook) = find_places(bytes)?;
    let hook_address: usize = match base.checked_add(hook) {
        Some(address) => address,
        None => {
            return Err(GameLoginError::failed("login hook address overflowed"));
        },
    };
    let length: usize = bytes.len();
    assert(hook + HOOK_OVERWRITE_BYTES <= length);
    let original = copy_bytes(
        vstd::slice::slice_subrange(bytes.as_slice(), hook, hook + HOOK_OVERWRITE_BYTES),
    );
    if validate_relocatable_x64(original.as_slice()).is_err() {
        return Err(
            GameLoginError::failed("login hook does not span complete relocatable instructions"),
        );
    }
    if base.checked_add(login).is_none() {
        return Err(GameLoginError::failed("login dispatcher address overflowed"));
    }
    let (client, function) = find_operands(bytes, base, login)?;
    Ok(FoundSites { hook: hook_address, original, client, function })
}

fn confirm_sites(
    bytes: &Vec<u8>,
    base: usize,
    hook_address: usize,
    original: &Vec<u8>,
    Ghost(trace): Ghost<Trace>,
) -> (found: Result<
    (usize, usize),
    GameLoginError,
>)
    requires
        hook_address == trace.hook,
        original@ == trace.original,
    ensures
        tells(found, later_sites(bytes@, base, trace)),
{
    let (login, hook) = find_places(bytes)?;
    if original.len() > bytes.len() - hook {
        return Err(GameLoginError::failed("login hook bytes are incomplete"));
    }
    let current_address: usize = match base.checked_add(hook) {
        Some(address) => address,
        None => {
            return Err(GameLoginError::failed("login hook address overflowed"));
        },
    };
    let current = vstd::slice::slice_subrange(bytes.as_slice(), hook, hook + original.len());
    if !same_bytes(current, original.as_slice()) || current_address != hook_address {
        return Err(
            GameLoginError::failed("login hook changed after validation and before mutation"),
        );
    }
    if base.checked_add(login).is_none() {
        return Err(GameLoginError::failed("login dispatcher address overflowed"));
    }
    find_operands(bytes, base, login)
}

/// The module of the game, read.
pub open spec fn module_read(calls: Calls, k: int, listing: Seq<char>, reading: Seq<char>) -> (
    int,
    Result<(usize, Seq<u8>), Failure>,
) {
    match modules_of(calls, k) {
        Err(fault) => (k + 1, Err(login_stopped(listing, fault))),
        Ok(modules) => match game_range(modules) {
            Err(fault) => (k + 1, Err(fault)),
            Ok((base, size)) => match read_of(calls, k + 1, base, size) {
                Err(fault) => (k + 2, Err(login_stopped(reading, fault))),
                Ok(bytes) => (k + 2, Ok((base, bytes))),
            },
        },
    }
}

/// A module that came at a place of the calls.
pub open spec fn module_at(
    answer: Result<(usize, Vec<u8>), GameLoginError>,
    k: int,
    outcome: (int, Result<(usize, Seq<u8>), Failure>),
) -> bool {
    outcome.0 == k && match (answer, outcome.1) {
        (Ok(value), Ok(expected)) => value.0 == expected.0 && value.1@ == expected.1,
        (Err(error), Err(fault)) => error@ == fault,
        _ => false,
    }
}

fn read_module<B: MutationBackend>(
    caller: &mut Caller<'_, B>,
    handle: &B::Handle,
    identity: &ProcessIdentity,
    listing: &str,
    reading: &str,
) -> (answer: Result<(usize, Vec<u8>), GameLoginError>)
    requires
        old(caller).sound(),
        *handle == old(caller).handle(),
        *identity == old(caller).identity(),
    ensures
        old(caller).leads_to(final(caller)),
        forall|calls: Calls| #[trigger]
            goes_on(final(caller).calls(), calls) ==> module_at(
                answer,
                final(caller).calls().len() as int,
                module_read(calls, old(caller).calls().len() as int, listing@, reading@),
            ),
{
    let ghost start = caller.calls();
    proof {
        lemma_stays(start);
    }
    let modules = caller.modules(handle, identity);
    let ghost a = caller.calls();
    proof {
        lemma_then(start, start, a);
    }
    let modules = match modules {
        Ok(modules) => modules,
        Err(error) => {
            return Err(GameLoginError::backend(listing, error));
        },
    };
    let (base, size) = find_range(&modules)?;
    let bytes = caller.read(handle, base, size);
    let ghost b = caller.calls();
    proof {
        lemma_then(start, a, b);
    }
    match bytes {
        Ok(bytes) => Ok((base, bytes)),
        Err(error) => Err(GameLoginError::backend(reading, error)),
    }
}

/// A login that nothing was changed for yet.
pub open spec fn fresh(sites: Sites) -> Trace {
    Trace {
        hook: sites.hook,
        original: sites.original,
        protection: None,
        active: false,
        pieces: Seq::empty(),
        code: None,
        flag: None,
    }
}

/// What is found out about a login before anything is changed: the game is the one that
/// was selected, and all that the login needs is there.
pub open spec fn prepared(calls: Calls, k: int, credential: CredentialSecret) -> (
    int,
    Result<Trace, Failure>,
) {
    match validated(calls, k) {
        Err(fault) => (
            k + 1,
            Err(login_stopped("client identity changed before login"@, fault)),
        ),
        Ok(_) => match module_read(
            calls,
            k + 1,
            "could not inspect the game module"@,
            "could not read the game module"@,
        ) {
            (k, Err(fault)) => (k, Err(fault)),
            (k, Ok((base, bytes))) => match first_sites(bytes, base) {
                Err(fault) => (k, Err(fault)),
                Ok(sites) => match read_of(calls, k, sites.client, 8) {
                    Err(fault) => (
                        k + 1,
                        Err(login_stopped("login client pointer is unreadable"@, fault)),
                    ),
                    Ok(_) => match read_of(calls, k + 1, sites.function, 1) {
                        Err(fault) => (
                            k + 2,
                            Err(login_stopped("login dispatcher is unreadable"@, fault)),
                        ),
                        Ok(_) => match command_size(credential) {
                            Err(fault) => (k + 2, Err(fault)),
                            Ok(_) => (k + 2, Ok(fresh(sites))),
                        },
                    },
                },
            },
        },
    }
}

/// Sites that came at a place of the calls, as the trace of a login.
pub open spec fn trace_at(
    answer: Result<(usize, Vec<u8>), GameLoginError>,
    k: int,
    outcome: (int, Result<Trace, Failure>),
) -> bool {
    outcome.0 == k && match (answer, outcome.1) {
        (Ok(value), Ok(trace)) => trace == fresh(
            Sites { hook: value.0, original: value.1@, client: 0, function: 0 },
        ),
        (Err(error), Err(fault)) => error@ == fault,
        _ => false,
    }
}

fn prepare<B: MutationBackend>(
    caller: &mut Caller<'_, B>,
    handle: &B::Handle,
    identity: &ProcessIdentity,
    credential: &CredentialSecret,
) -> (answer: Result<(usize, Vec<u8>), GameLoginError>)
    requires
        old(caller).sound(),
        *handle == old(caller).handle(),
        *identity == old(caller).identity(),
    ensures
        old(caller).leads_to(final(caller)),
        forall|calls: Calls| #[trigger]
            goes_on(final(caller).calls(), calls) ==> trace_at(
                answer,
                final(caller).calls().len() as int,
                prepared(calls, old(caller).calls().len() as int, *credential),
            ),
        answer matches Ok(found) ==> found.1@.len() == HOOK_OVERWRITE_BYTES,
{
    let ghost start = caller.calls();
    proof {
        lemma_stays(start);
    }
    let verdict = caller.validate(handle, identity);
    let ghost a = caller.calls();
    proof {
        lemma_then(start, start, a);
    }
    if let Err(error) = verdict {
        return Err(GameLoginError::backend("client identity changed before login", error));
    }
    let module = read_module(
        caller,
        handle,
        identity,
        "could not inspect the game module",
        "could not read the game module",
    );
    let ghost b = caller.calls();
    proof {
        lemma_then(start, a, b);
    }
    let (base, bytes) = module?;
    let found = find_sites(&bytes, base)?;
    let pointer = caller.read(handle, found.client, 8);
    let ghost c = caller.calls();
    proof {
        lemma_then(start, b, c);
    }
    if let Err(error) = pointer {
        return Err(GameLoginError::backend("login client pointer is unreadable", error));
    }
    let code = caller.read(handle, found.function, 1);
    let ghost d = caller.calls();
    proof {
        lemma_then(start, c, d);
    }
    if let Err(error) = code {
        return Err(GameLoginError::backend("login dispatcher is unreadable", error));
    }
    let size: usize = login_command_size(credential)?;
    Ok((found.hook, found.original))
}

/// The trace with one more allocation.
pub open spec fn with_piece(trace: Trace, at: usize, size: usize, sensitive: bool) -> Trace {
    Trace { pieces: trace.pieces.push(Piece { at, size, sensitive }), ..trace }
}

/// Memory for a login is allocated.
pub open spec fn allocated(
    calls: Calls,
    k: int,
    trace: Trace,
    size: usize,
    sensitive: bool,
) -> (int, Trace, Result<(), Failure>) {
    match allocate_of(calls, k, size, MemoryProtection::ReadWrite) {
        Err(fault) => (
            k + 1,
            trace,
            Err(login_stopped("could not allocate automatic login memory"@, fault)),
        ),
        Ok(at) => (k + 1, with_piece(trace, at, size, sensitive), Ok(())),
    }
}

/// A change of the trace that came at a place of the calls.
pub open spec fn changed_at<T>(
    answer: Result<T, GameLoginError>,
    k: int,
    left: Trace,
    outcome: (int, Trace, Result<T, Failure>),
) -> bool {
    &&& outcome.0 == k
    &&& outcome.1 == left
    &&& tells(answer, outcome.2)
}

fn allocate<B: MutationBackend>(
    caller: &mut Caller<'_, B>,
    record: &mut LoginRecord<B::Handle>,
    size: usize,
    sensitive: bool,
) -> (answer: Result<(), GameLoginError>)
    requires
        old(caller).sound(),
        old(record).handle == old(caller).handle(),
        old(record).identity == old(caller).identity(),
    ensures
        old(caller).leads_to(final(caller)),
        forall|calls: Calls| #[trigger]
            goes_on(final(caller).calls(), calls) ==> changed_at(
                answer,
                final(caller).calls().len() as int,
                final(record)@,
                allocated(calls, old(caller).calls().len() as int, old(record)@, size, sensitive),
            ),
        final(record).handle == old(record).handle,
        final(record).identity == old(record).identity,
{
    let ghost start = caller.calls();
    proof {
        lemma_stays(start);
    }
    let outcome = caller.allocate(&record.handle, size, MemoryProtection::ReadWrite);
    let ghost a = caller.calls();
    proof {
        lemma_then(start, start, a);
    }
    match outcome {
        Ok(address) => {
            let piece = RemoteAllocation { address, size, sensitive };
            add_piece(&mut record.allocations, &piece);
            Ok(())
        },
        Err(error) => Err(
            GameLoginError::backend("could not allocate automatic login memory", error),
        ),
    }
}

/// All memory of a login is allocated: for the command, its string, the flag and the
/// code.
pub open spec fn all_allocated(calls: Calls, k: int, trace: Trace, credential: CredentialSecret) -> (
    int,
    Trace,
    Result<(), Failure>,
) {
    match validated(calls, k) {
        Err(fault) => (
            k + 1,
            trace,
            Err(login_stopped("client identity changed before mutation"@, fault)),
        ),
        Ok(_) => match command_size(credential) {
            Err(fault) => (k + 1, trace, Err(fault)),
            Ok(size) => match allocated(calls, k + 1, trace, size, true) {
                (k, trace, Err(fault)) => (k, trace, Err(fault)),
                (k, trace, Ok(_)) => match allocated(calls, k, trace, 32, false) {
                    (k, trace, Err(fault)) => (k, trace, Err(fault)),
                    (k, trace, Ok(_)) => match allocated(calls, k, trace, 8, false) {
                        (k, trace, Err(fault)) => (k, trace, Err(fault)),
                        (k, trace, Ok(_)) => code_allocated(calls, k, trace),
                    },
                },
            },
        },
    }
}

/// The memory for the code of a login is allocated near its hook.
pub open spec fn code_allocated(calls: Calls, k: int, trace: Trace) -> (
    int,
    Trace,
    Result<(), Failure>,
) {
    match allocate_near_of(calls, k, trace.hook, 512, MemoryProtection::ExecuteReadWrite) {
        Err(fault) => (
            k + 1,
            trace,
            Err(login_stopped("could not allocate login code"@, fault)),
        ),
        Ok(at) => {
            let placed = with_piece(trace, at, 512, false);
            (
                k + 1,
                Trace { code: Some((at, 512usize)), flag: Some(placed.pieces[2].at), ..placed },
                Ok(()),
            )
        },
    }
}

fn allocate_code<B: MutationBackend>(
    caller: &mut Caller<'_, B>,
    record: &mut LoginRecord<B::Handle>,
) -> (answer: Result<(), GameLoginError>)
    requires
        old(caller).sound(),
        old(record).handle == old(caller).handle(),
        old(record).identity == old(caller).identity(),
        old(record).allocations@.len() == 3,
    ensures
        old(caller).leads_to(final(caller)),
        forall|calls: Calls| #[trigger]
            goes_on(final(caller).calls(), calls) ==> changed_at(
                answer,
                final(caller).calls().len() as int,
                final(record)@,
                code_allocated(calls, old(caller).calls().len() as int, old(record)@),
            ),
        final(record).handle == old(record).handle,
        final(record).identity == old(record).identity,
{
    let ghost start = caller.calls();
    proof {
        lemma_stays(start);
    }
    let outcome = caller.allocate_near(
        &record.handle,
        record.hook_address,
        512,
        MemoryProtection::ExecuteReadWrite,
    );
    let ghost a = caller.calls();
    proof {
        lemma_then(start, start, a);
    }
    match outcome {
        Ok(address) => {
            let piece = RemoteAllocation { address, size: 512, sensitive: false };
            add_piece(&mut record.allocations, &piece);
            record.code_range = Some((address, 512));
            record.execution_flag = Some(record.allocations[2].address);
            proof {
                assert(pieces(record.allocations@)[2] == record.allocations@[2]@);
            }
            Ok(())
        },
        Err(error) => Err(GameLoginError::backend("could not allocate login code", error)),
    }
}

fn allocate_all<B: MutationBackend>(
    caller: &mut Caller<'_, B>,
    record: &mut LoginRecord<B::Handle>,
    credential: &CredentialSecret,
) -> (answer: Result<(), GameLoginError>)
    requires
        old(caller).sound(),
        old(record).handle == old(caller).handle(),
        old(record).identity == old(caller).identity(),
        old(record).allocations@.len() == 0,
    ensures
        old(caller).leads_to(final(caller)),
        forall|calls: Calls| #[trigger]
            goes_on(final(caller).calls(), calls) ==> changed_at(
                answer,
                final(caller).calls().len() as int,
                final(record)@,
                all_allocated(calls, old(caller).calls().len() as int, old(record)@, *credential),
            ),
        final(record).handle == old(record).handle,
        final(record).identity == old(record).identity,
{
    let ghost start = caller.calls();
    proof {
        lemma_stays(start);
    }
    let verdict = caller.validate(&record.handle, &record.identity);
    let ghost a = caller.calls();
    proof {
        lemma_then(start, start, a);
    }
    if let Err(error) = verdict {
        return Err(GameLoginError::backend("client identity changed before mutation", error));
    }
    let size: usize = login_command_size(credential)?;
    let one = allocate(caller, record, size, true);
    let ghost b = caller.calls();
    proof {
        lemma_then(start, a, b);
    }
    one?;
    let two = allocate(caller, record, 32, false);
    let ghost c = caller.calls();
    proof {
        lemma_then(start, b, c);
    }
    two?;
    let three = allocate(caller, record, 8, false);
    let ghost d = caller.calls();
    proof {
        lemma_then(start, c, d);
    }
    three?;
    proof {
        lemma_stays(d);
        assert(record@.pieces.len() == 3);
        assert(pieces(record.allocations@).len() == record.allocations@.len());
    }
    let four = allocate_code(caller, record);
    let ghost e = caller.calls();
    proof {
        lemma_then(start, d, e);
    }
    four
}

/// The code and the data of a login are written and the flag is set.
pub open spec fn written(
    calls: Calls,
    k: int,
    trace: Trace,
    client: usize,
    function: usize,
    credential: CredentialSecret,
) -> (int, Result<(), Failure>) {
    let command = trace.pieces[0].at;
    let structure = trace.pieces[1].at;
    let flag = trace.pieces[2].at;
    match command_written(calls, k, command, credential) {
        (k, Err(fault)) => (k, Err(fault)),
        (k, Ok(length)) => match write_of(
            calls,
            k,
            structure,
            string_bytes(command, length as nat),
        ) {
            Err(fault) => (
                k + 1,
                Err(login_stopped("could not write the login string"@, fault)),
            ),
            Ok(_) => match write_of(calls, k + 1, flag, Seq::new(8, |i: int| 0u8)) {
                Err(fault) => (
                    k + 2,
                    Err(login_stopped("could not initialize automatic login"@, fault)),
                ),
                Ok(_) => armed(calls, k + 2, trace, client, function),
            },
        },
    }
}

/// The code of a login is written and the flag is set.
pub open spec fn armed(calls: Calls, k: int, trace: Trace, client: usize, function: usize) -> (
    int,
    Result<(), Failure>,
) {
    let structure = trace.pieces[1].at;
    let flag = trace.pieces[2].at;
    let block = trace.pieces[3].at;
    if trace.hook + trace.original.len() > usize::MAX {
        (k, Err(login_failed("login return address overflowed"@)))
    } else {
        match login_code_bytes(
            block,
            flag,
            structure,
            client,
            function,
            trace.original,
            (trace.hook + trace.original.len()) as usize,
        ) {
            Err(fault) => (k, Err(fault)),
            Ok(code) => match write_of(calls, k, block, code) {
                Err(fault) => (
                    k + 1,
                    Err(login_stopped("could not write automatic login code"@, fault)),
                ),
                Ok(_) => match flush_of(calls, k + 1, block, code.len() as usize) {
                    Err(fault) => (
                        k + 2,
                        Err(login_stopped("could not publish automatic login code"@, fault)),
                    ),
                    Ok(_) => match write_of(calls, k + 2, flag, seq![1u8]) {
                        Err(fault) => (
                            k + 3,
                            Err(login_stopped("could not arm automatic login"@, fault)),
                        ),
                        Ok(_) => (k + 3, Ok(())),
                    },
                },
            },
        }
    }
}

/// A result that came at a place of the calls.
pub open spec fn tells_at<T>(
    answer: Result<T, GameLoginError>,
    k: int,
    outcome: (int, Result<T, Failure>),
) -> bool {
    outcome.0 == k && tells(answer, outcome.1)
}

fn flag_byte(byte: u8) -> (bytes: Vec<u8>)
    ensures
        bytes@ == seq![byte],
{
    let mut bytes: Vec<u8> = Vec::new();
    bytes.push(byte);
    proof {
        assert(bytes@ =~= seq![byte]);
    }
    bytes
}

fn arm<B: MutationBackend>(
    caller: &mut Caller<'_, B>,
    record: &LoginRecord<B::Handle>,
    client: usize,
    function: usize,
) -> (answer: Result<(), GameLoginError>)
    requires
        old(caller).sound(),
        record.handle == old(caller).handle(),
        record.allocations@.len() == 4,
        record.original_bytes@.len() == HOOK_OVERWRITE_BYTES,
    ensures
        old(caller).leads_to(final(caller)),
        forall|calls: Calls| #[trigger]
            goes_on(final(caller).calls(), calls) ==> tells_at(
                answer,
                final(caller).calls().len() as int,
                armed(calls, old(caller).calls().len() as int, record@, client, function),
            ),
{
    let ghost start = caller.calls();
    proof {
        lemma_stays(start);
    }
    proof {
        assert(pieces(record.allocations@)[0] == record.allocations@[0]@);
        assert(pieces(record.allocations@)[1] == record.allocations@[1]@);
        assert(pieces(record.allocations@)[2] == record.allocations@[2]@);
        assert(pieces(record.allocations@)[3] == record.allocations@[3]@);
    }
    let structure: usize = record.allocations[1].address;
    let flag: usize = record.allocations[2].address;
    let block: usize = record.allocations[3].address;
    let back: usize = match record.hook_address.checked_add(record.original_bytes.len()) {
        Some(back) => back,
        None => {
            return Err(GameLoginError::failed("login return address overflowed"));
        },
    };
    let mut code = build_login_code(
        block,
        flag,
        structure,
        client,
        function,
        record.original_bytes.as_slice(),
        back,
    )?;
    let stored = caller.write(&record.handle, block, code.as_slice());
    let ghost a = caller.calls();
    proof {
        lemma_then(start, start, a);
    }
    if let Err(error) = stored {
        return Err(GameLoginError::backend("could not write automatic login code", error));
    }
    let published = caller.flush(&record.handle, block, code.len());
    let ghost b = caller.calls();
    proof {
        lemma_then(start, a, b);
    }
    if let Err(error) = published {
        return Err(GameLoginError::backend("could not publish automatic login code", error));
    }
    wipe(&mut code);
    let set = caller.write(&record.handle, flag, flag_byte(1).as_slice());
    let ghost c = caller.calls();
    proof {
        lemma_then(start, b, c);
    }
    match set {
        Ok(_) => Ok(()),
        Err(error) => Err(GameLoginError::backend("could not arm automatic login", error)),
    }
}

/// The command of a login is written; how long it is without its closing zero.
pub open spec fn command_written(calls: Calls, k: int, command: usize, credential: CredentialSecret) -> (
    int,
    Result<usize, Failure>,
) {
    match login_command(credential) {
        Err(fault) => (k, Err(fault)),
        Ok(bytes) => (
            k + 1,
            match write_of(calls, k, command, bytes) {
                Err(fault) => Err(login_stopped("could not write the login command"@, fault)),
                Ok(_) => Ok((bytes.len() - 1) as usize),
            },
        ),
    }
}

fn write_command<B: MutationBackend>(
    caller: &mut Caller<'_, B>,
    record: &LoginRecord<B::Handle>,
    command: usize,
    credential: &CredentialSecret,
) -> (answer: Result<usize, GameLoginError>)
    requires
        old(caller).sound(),
        record.handle == old(caller).handle(),
    ensures
        old(caller).leads_to(final(caller)),
        forall|calls: Calls| #[trigger]
            goes_on(final(caller).calls(), calls) ==> tells_at(
                answer,
                final(caller).calls().len() as int,
                command_written(calls, old(caller).calls().len() as int, command, *credential),
            ),
{
    let ghost start = caller.calls();
    proof {
        lemma_stays(start);
    }
    let mut bytes = build_login_command(credential)?;
    let stored = caller.write(&record.handle, command, bytes.as_slice());
    let ghost a = caller.calls();
    proof {
        lemma_then(start, start, a);
    }
    let length: usize = bytes.len();
    wipe(&mut bytes);
    match stored {
        Ok(_) => Ok(length - 1),
        Err(error) => Err(GameLoginError::backend("could not write the login command", error)),
    }
}

fn write_all<B: MutationBackend>(
    caller: &mut Caller<'_, B>,
    record: &LoginRecord<B::Handle>,
    client: usize,
    function: usize,
    credential: &CredentialSecret,
) -> (answer: Result<(), GameLoginError>)
    requires
        old(caller).sound(),
        record.handle == old(caller).handle(),
        record.allocations@.len() == 4,
        record.original_bytes@.len() == HOOK_OVERWRITE_BYTES,
    ensures
        old(caller).leads_to(final(caller)),
        forall|calls: Calls| #[trigger]
            goes_on(final(caller).calls(), calls) ==> tells_at(
                answer,
                final(caller).calls().len() as int,
                written(calls, old(caller).calls().len() as int, record@, client, function, *credential),
            ),
{
    let ghost start = caller.calls();
    proof {
        lemma_stays(start);
    }
    proof {
        assert(pieces(record.allocations@)[0] == record.allocations@[0]@);
        assert(pieces(record.allocations@)[1] == record.allocations@[1]@);
        assert(pieces(record.allocations@)[2] == record.allocations@[2]@);
        assert(pieces(record.allocations@)[3] == record.allocations@[3]@);
    }
    let command: usize = record.allocations[0].address;
    let structure: usize = record.allocations[1].address;
    let flag: usize = record.allocations[2].address;
    let length = write_command(caller, record, command, credential);
    let ghost a = caller.calls();
    proof {
        lemma_then(start, start, a);
    }
    let length: usize = length?;
    let string = build_string_struct(command, length);
    let named = caller.write(&record.handle, structure, string.as_slice());
    let ghost b = caller.calls();
    proof {
        lemma_then(start, a, b);
    }
    if let Err(error) = named {
        return Err(GameLoginError::backend("could not write the login string", error));
    }
    let cleared = caller.write(&record.handle, flag, zeros(8).as_slice());
    let ghost c = caller.calls();
    proof {
        lemma_then(start, b, c);
    }
    if let Err(error) = cleared {
        return Err(GameLoginError::backend("could not initialize automatic login", error));
    }
    let ready = arm(caller, record, client, function);
    let ghost d = caller.calls();
    proof {
        lemma_then(start, c, d);
    }
    ready
}

/// The hook of a login is put in place.
pub open spec fn hooked(calls: Calls, k: int, trace: Trace) -> (int, Trace, Result<(), Failure>) {
    let size = trace.original.len() as usize;
    match protect_of(calls, k, trace.hook, size, MemoryProtection::ExecuteReadWrite) {
        Err(fault) => (
            k + 1,
            trace,
            Err(login_stopped("could not unlock the login hook"@, fault)),
        ),
        Ok(previous) => {
            let open = Trace { protection: Some(previous), active: true, ..trace };
            match relative_jump(trace.hook, trace.pieces[3].at, trace.original.len()) {
                Err(fault) => (k + 1, open, Err(fault)),
                Ok(detour) => match write_of(calls, k + 1, trace.hook, detour) {
                    Err(fault) => (
                        k + 2,
                        open,
                        Err(login_stopped("could not activate automatic login"@, fault)),
                    ),
                    Ok(_) => match flush_of(calls, k + 2, trace.hook, size) {
                        Err(fault) => (
                            k + 3,
                            open,
                            Err(login_stopped("could not publish the login hook"@, fault)),
                        ),
                        Ok(_) => match protect_of(calls, k + 3, trace.hook, size, previous) {
                            Err(fault) => (
                                k + 4,
                                open,
                                Err(login_stopped("could not relock the login hook"@, fault)),
                            ),
                            Ok(_) => (k + 4, open, Ok(())),
                        },
                    },
                },
            }
        },
    }
}

fn place_hook<B: MutationBackend>(
    caller: &mut Caller<'_, B>,
    record: &mut LoginRecord<B::Handle>,
) -> (answer: Result<(), GameLoginError>)
    requires
        old(caller).sound(),
        old(record).handle == old(caller).handle(),
        old(record).identity == old(caller).identity(),
        old(record).allocations@.len() == 4,
        old(record).original_bytes@.len() == HOOK_OVERWRITE_BYTES,
    ensures
        old(caller).leads_to(final(caller)),
        forall|calls: Calls| #[trigger]
            goes_on(final(caller).calls(), calls) ==> changed_at(
                answer,
                final(caller).calls().len() as int,
                final(record)@,
                hooked(calls, old(caller).calls().len() as int, old(record)@),
            ),
        final(record).handle == old(record).handle,
        final(record).identity == old(record).identity,
{
    let ghost start = caller.calls();
    proof {
        lemma_stays(start);
    }
    proof {
        assert(pieces(record.allocations@)[0] == record.allocations@[0]@);
        assert(pieces(record.allocations@)[1] == record.allocations@[1]@);
        assert(pieces(record.allocations@)[2] == record.allocations@[2]@);
        assert(pieces(record.allocations@)[3] == record.allocations@[3]@);
    }
    let block: usize = record.allocations[3].address;
    let size: usize = record.original_bytes.len();
    let unlocked = caller.protect(
        &record.handle,
        record.hook_address,
        size,
        MemoryProtection::ExecuteReadWrite,
    );
    let ghost a = caller.calls();
    proof {
        lemma_then(start, start, a);
    }
    let previous = match unlocked {
        Ok(previous) => previous,
        Err(error) => {
            return Err(GameLoginError::backend("could not unlock the login hook", error));
        },
    };
    record.original_protection = Some(previous);
    record.patch_may_be_active = true;
    let detour = relative_detour(record.hook_address, block, size)?;
    let stored = caller.write(&record.handle, record.hook_address, detour.as_slice());
    let ghost b = caller.calls();
    proof {
        lemma_then(start, a, b);
    }
    if let Err(error) = stored {
        return Err(GameLoginError::backend("could not activate automatic login", error));
    }
    let published = caller.flush(&record.handle, record.hook_address, size);
    let ghost c = caller.calls();
    proof {
        lemma_then(start, b, c);
    }
    if let Err(error) = published {
        return Err(GameLoginError::backend("could not publish the login hook", error));
    }
    let locked = caller.protect(&record.handle, record.hook_address, size, previous);
    let ghost d = caller.calls();
    proof {
        lemma_then(start, c, d);
    }
    match locked {
        Ok(_) => Ok(()),
        Err(error) => Err(GameLoginError::backend("could not relock the login hook", error)),
    }
}

/// A login is begun: memory is allocated, the module is looked at once more, the code is
/// written, and the hook is put in place.
pub open spec fn started(calls: Calls, k: int, trace: Trace, credential: CredentialSecret) -> (
    int,
    Trace,
    Result<(), Failure>,
) {
    match all_allocated(calls, k, trace, credential) {
        (k, trace, Err(fault)) => (k, trace, Err(fault)),
        (k, trace, Ok(_)) => match module_read(
            calls,
            k,
            "could not revalidate the game module"@,
            "could not revalidate login patterns"@,
        ) {
            (k, Err(fault)) => (k, trace, Err(fault)),
            (k, Ok((base, bytes))) => match later_sites(bytes, base, trace) {
                Err(fault) => (k, trace, Err(fault)),
                Ok((client, function)) => match written(
                    calls,
                    k,
                    trace,
                    client,
                    function,
                    credential,
                ) {
                    (k, Err(fault)) => (k, trace, Err(fault)),
                    (k, Ok(_)) => hooked(calls, k, trace),
                },
            },
        },
    }
}

fn start<B: MutationBackend>(
    caller: &mut Caller<'_, B>,
    record: &mut LoginRecord<B::Handle>,
    credential: &CredentialSecret,
) -> (answer: Result<(), GameLoginError>)
    requires
        old(caller).sound(),
        old(record).handle == old(caller).handle(),
        old(record).identity == old(caller).identity(),
        old(record).allocations@.len() == 0,
        old(record).original_bytes@.len() == HOOK_OVERWRITE_BYTES,
    ensures
        old(caller).leads_to(final(caller)),
        forall|calls: Calls| #[trigger]
            goes_on(final(caller).calls(), calls) ==> changed_at(
                answer,
                final(caller).calls().len() as int,
                final(record)@,
                started(calls, old(caller).calls().len() as int, old(record)@, *credential),
            ),
        final(record).handle == old(record).handle,
        final(record).identity == old(record).identity,
{
    let ghost start = caller.calls();
    proof {
        lemma_stays(start);
    }
    let placed = allocate_all(caller, record, credential);
    let ghost a = caller.calls();
    proof {
        lemma_then(start, start, a);
    }
    placed?;
    proof {
        lemma_stays(a);
        assert(record@.pieces.len() == 4);
        assert(pieces(record.allocations@).len() == record.allocations@.len());
        assert(record@.original == old(record)@.original);
    }
    let module = read_module(
        caller,
        &record.handle,
        &record.identity,
        "could not revalidate the game module",
        "could not revalidate login patterns",
    );
    let ghost b = caller.calls();
    proof {
        lemma_then(start, a, b);
    }
    let (base, bytes) = module?;
    let (client, function) = confirm_sites(
        &bytes,
        base,
        record.hook_address,
        &record.original_bytes,
        Ghost(record@),
    )?;
    let ready = write_all(caller, record, client, function, credential);
    let ghost c = caller.calls();
    proof {
        lemma_then(start, b, c);
    }
    ready?;
    let set = place_hook(caller, record);
    let ghost d = caller.calls();
    proof {
        lemma_then(start, c, d);
    }
    set
}

/// What preparing a login does: the process is opened, and all that is done with it is to
/// look.
pub open spec fn prepares<B: MutationBackend>(
    backend: &B,
    target: ClientWindowTarget,
    credential: CredentialSecret,
    opened: Result<OpenedProcess<B::Handle>, ProcessBackendError>,
    calls: Calls,
    answer: Result<LoginRecord<B::Handle>, GameLoginError>,
) -> bool {
    &&& call_ensures(
        B::open_process_for_access,
        (backend, target.process_identity.pid, ProcessAccessMode::Mutation),
        opened,
    )
    &&& match opened {
        Err(error) => answer matches Err(failed) && failed@ == login_stopped(
            "could not open the selected client"@,
            fault_of(error),
        ),
        Ok(process) => {
            let (k, outcome) = prepared(calls, 0, credential);
            &&& calls_made(backend, process.handle, target.process_identity, calls)
            &&& k == calls.len()
            &&& match (answer, outcome) {
                (Ok(record), Ok(trace)) => {
                    &&& record@ == trace
                    &&& record.handle == process.handle
                    &&& record.identity == target.process_identity
                },
                (Err(error), Err(fault)) => error@ == fault,
                _ => false,
            }
        },
    }
}

/// Finds out about a login before anything is changed in the game.
pub fn prepare_record<B: MutationBackend>(
    backend: &B,
    target: &ClientWindowTarget,
    credential: &CredentialSecret,
) -> (answer: Result<LoginRecord<B::Handle>, GameLoginError>)
    ensures
        exists|
            opened: Result<OpenedProcess<B::Handle>, ProcessBackendError>,
            calls: Calls,
        | #[trigger]
            prepares(backend, *target, *credential, opened, calls, answer),
        answer matches Ok(record) ==> record.allocations@.len() == 0
            && record.original_bytes@.len() == HOOK_OVERWRITE_BYTES,
{
    let opened = backend.open_process_for_access(
        target.process_identity.pid,
        ProcessAccessMode::Mutation,
    );
    let ghost outcome = opened;
    let process = match opened {
        Ok(process) => process,
        Err(error) => {
            let answer = Err(GameLoginError::backend("could not open the selected client", error));
            proof {
                lemma_prepares(
                    backend,
                    *target,
                    *credential,
                    outcome,
                    Seq::<Call>::empty(),
                    answer,
                );
            }
            return answer;
        },
    };
    let mut caller = Caller::new(backend, Ghost(process.handle), Ghost(target.process_identity));
    let found = prepare(&mut caller, &process.handle, &target.process_identity, credential);
    proof {
        lemma_stays(caller.calls());
    }
    match found {
        Ok((hook_address, original_bytes)) => {
            let record = LoginRecord {
                handle: process.handle,
                identity: target.process_identity.clone(),
                hook_address,
                original_bytes,
                original_protection: None,
                patch_may_be_active: false,
                allocations: Vec::new(),
                code_range: None,
                execution_flag: None,
            };
            let ghost answer = Ok::<LoginRecord<B::Handle>, GameLoginError>(record);
            proof {
                assert(pieces(record.allocations@) =~= Seq::<Piece>::empty());
                lemma_prepares(backend, *target, *credential, outcome, caller.calls(), answer);
            }
            Ok(record)
        },
        Err(error) => {
            let answer = Err(error);
            proof {
                lemma_prepares(backend, *target, *credential, outcome, caller.calls(), answer);
            }
            answer
        },
    }
}

proof fn lemma_prepares<B: MutationBackend>(
    backend: &B,
    target: ClientWindowTarget,
    credential: CredentialSecret,
    opened: Result<OpenedProcess<B::Handle>, ProcessBackendError>,
    calls: Calls,
    answer: Result<LoginRecord<B::Handle>, GameLoginError>,
)
    requires
        prepares(backend, target, credential, opened, calls, answer),
    ensures
        exists|
            opened: Result<OpenedProcess<B::Handle>, ProcessBackendError>,
            calls: Calls,
        | #[trigger]
            prepares(backend, target, credential, opened, calls, answer),
{
}

/// What beginning a login does: calls on its process alone, what they leave, and how it
/// went.
pub open spec fn begins<B: MutationBackend>(
    backend: &B,
    handle: B::Handle,
    identity: ProcessIdentity,
    credential: CredentialSecret,
    calls: Calls,
    trace: Trace,
    left: Trace,
    answer: Result<(), GameLoginError>,
) -> bool {
    &&& calls_made(backend, handle, identity, calls)
    &&& changed_at(answer, calls.len() as int, left, started(calls, 0, trace, credential))
}

/// Begins a login: once this succeeds, the game runs the command the next time that it
/// comes by the hook, and clears the flag. What is left when it fails is in the record.
pub fn execute_login<B: MutationBackend>(
    backend: &B,
    record: &mut LoginRecord<B::Handle>,
    credential: &CredentialSecret,
) -> (answer: Result<(), GameLoginError>)
    requires
        old(record).allocations@.len() == 0,
        old(record).original_bytes@.len() == HOOK_OVERWRITE_BYTES,
    ensures
        final(record).handle == old(record).handle,
        final(record).identity == old(record).identity,
        exists|calls: Calls| #[trigger]
            begins(
                backend,
                old(record).handle,
                old(record).identity,
                *credential,
                calls,
                old(record)@,
                final(record)@,
                answer,
            ),
{
    let mut caller = Caller::new(backend, Ghost(record.handle), Ghost(record.identity));
    let answer = start(&mut caller, record, credential);
    proof {
        lemma_stays(caller.calls());
        assert(begins(
            backend,
            old(record).handle,
            old(record).identity,
            *credential,
            caller.calls(),
            old(record)@,
            record@,
            answer,
        ));
    }
    answer
}

/// Where a login that was begun stands: done, still to be waited for, or given up.
pub open spec fn watched(
    flag: Result<Seq<u8>, Fault>,
    timeout_ms: u32,
    expired: bool,
) -> Result<bool, Failure> {
    match flag {
        Err(fault) => Err(login_stopped("could not observe automatic login"@, fault)),
        Ok(bytes) => if bytes.len() > 0 && bytes[0] == 0 {
            Ok(true)
        } else if expired {
            Err(login_timed_out(timeout_ms))
        } else {
            Ok(false)
        },
    }
}

/// What looking at a login that was begun does.
pub open spec fn watches<B: MutationBackend>(
    backend: &B,
    handle: B::Handle,
    identity: ProcessIdentity,
    trace: Trace,
    timeout_ms: u32,
    expired: bool,
    cancelled: bool,
    calls: Calls,
    answer: Result<bool, GameLoginError>,
) -> bool {
    &&& calls_made(backend, handle, identity, calls)
    &&& if cancelled {
        &&& calls.len() == 0
        &&& tells(
            answer,
            Err(login_failed("the agent began shutting down during automatic login"@)),
        )
    } else {
        match trace.flag {
            None => calls.len() == 0 && tells(
                answer,
                Err(login_failed("automatic login was not started"@)),
            ),
            Some(at) => calls.len() == 1 && tells(
                answer,
                watched(read_of(calls, 0, at, 1), timeout_ms, expired),
            ),
        }
    }
}

/// Looks whether the game has run the command of a login. Where it has not, it is to be
/// asked again a little later.
pub fn watch_login<B: MutationBackend>(
    backend: &B,
    record: &LoginRecord<B::Handle>,
    timeout_ms: u32,
    expired: bool,
    cancelled: bool,
) -> (answer: Result<bool, GameLoginError>)
    ensures
        exists|calls: Calls| #[trigger]
            watches(
                backend,
                record.handle,
                record.identity,
                record@,
                timeout_ms,
                expired,
                cancelled,
                calls,
                answer,
            ),
{
    let mut caller = Caller::new(backend, Ghost(record.handle), Ghost(record.identity));
    let answer = if cancelled {
        Err(GameLoginError::failed("the agent began shutting down during automatic login"))
    } else {
        match record.execution_flag {
            None => Err(GameLoginError::failed("automatic login was not started")),
            Some(at) => match caller.read(&record.handle, at, 1) {
                Err(error) => Err(
                    GameLoginError::backend("could not observe automatic login", error),
                ),
                Ok(bytes) => if bytes.len() > 0 && bytes[0] == 0 {
                    Ok(true)
                } else if expired {
                    Err(GameLoginError::timeout(timeout_ms))
                } else {
                    Ok(false)
                },
            },
        }
    };
    proof {
        lemma_stays(caller.calls());
        assert(watches(
            backend,
            record.handle,
            record.identity,
            record@,
            timeout_ms,
            expired,
            cancelled,
            caller.calls(),
            answer,
        ));
    }
    answer
}

/// The logins of an agent: those that are still to be cleaned up, by client, and the
/// transfers that were used.
#[verifier::reject_recursive_types(H)]
pub struct LoginState<H> {
    records: TextMap<LoginRecord<H>>,
    used_transfers: Vec<String>,
}

impl<H> LoginState<H> {
    /// The logins that are still to be cleaned up.
    pub closed spec fn pending(&self) -> Map<Seq<char>, LoginRecord<H>> {
        self.records@
    }

    /// The transfers that were used, each once.
    pub closed spec fn used(&self) -> Seq<Seq<char>> {
        texts(self.used_transfers@)
    }

    /// The state is kept in order.
    pub closed spec fn wf(&self) -> bool {
        self.records.wf()
    }

    /// How many transfers were used.
    pub fn used_count(&self) -> (count: usize)
        ensures
            count == self.used().len(),
    {
        self.used_transfers.len()
    }

    fn has_used(&self, transfer: &str) -> (yes: bool)
        ensures
            yes == self.used().contains(transfer@),
    {
        let mut i: usize = 0;
        while i < self.used_transfers.len()
            invariant
                i <= self.used_transfers@.len(),
                forall|j: int| 0 <= j < i ==> #[trigger] self.used()[j] != transfer@,
            decreases self.used_transfers@.len() - i,
        {
            proof {
                assert(self.used()[i as int] == self.used_transfers@[i as int]@);
            }
            if same_text(self.used_transfers[i].as_str(), transfer) {
                return true;
            }
            i += 1;
        }
        false
    }
}

impl<H> Default for LoginState<H> {
    fn default() -> (state: Self)
        ensures
            state.wf(),
            state.pending() == Map::<Seq<char>, LoginRecord<H>>::empty(),
            state.used() == Seq::<Seq<char>>::empty(),
    {
        let state = LoginState { records: TextMap::new(), used_transfers: Vec::new() };
        proof {
            assert(state.used() =~= Seq::<Seq<char>>::empty());
        }
        state
    }
}

/// The name of a transfer: sixty-four hexadecimal digits.
pub open spec fn names_transfer(text: Seq<char>) -> bool {
    text.len() == 64 && forall|i: int| 0 <= i < text.len() ==> hex_value(#[trigger] text[i]) is Some
}

fn is_transfer(text: &str) -> (yes: bool)
    ensures
        yes == names_transfer(text@),
{
    let chars = chars_of(text);
    if chars.len() != 64 {
        return false;
    }
    let mut i: usize = 0;
    while i < chars.len()
        invariant
            i <= chars@.len(),
            chars@ == text@,
            forall|j: int| 0 <= j < i ==> hex_value(#[trigger] text@[j]) is Some,
        decreases chars@.len() - i,
    {
        let c: char = chars[i];
        if !(('0' <= c && c <= '9') || ('a' <= c && c <= 'f') || ('A' <= c && c <= 'F')) {
            assert(hex_value(text@[i as int]) is None);
            return false;
        }
        i += 1;
    }
    true
}

/// Why a request for a login is refused before its account is opened.
pub open spec fn login_refusal(
    used: Seq<Seq<char>>,
    instance: Seq<char>,
    request: GameLoginRequest,
) -> Option<Failure> {
    if request.timeout_ms == 0 || request.timeout_ms > MAX_GAME_OPERATION_TIMEOUT_MS {
        Some(
            failure(
                RpcErrorCode::InvalidRequest,
                "timeout_ms must be between 1 and 300000"@,
            ),
        )
    } else if request.agent_instance_id@ != instance {
        Some(login_failed("secure account data was sealed for a different agent instance"@))
    } else if !names_transfer(request.transfer_id@) {
        Some(
            failure(
                RpcErrorCode::InvalidRequest,
                "credential transfer ID must be a 64-character hexadecimal value"@,
            ),
        )
    } else if used.contains(request.transfer_id@) {
        Some(login_failed("this one-time credential transfer has already been consumed"@))
    } else if used.len() >= MAX_USED_TRANSFERS {
        Some(
            login_failed(
                "the agent has reached its one-time credential transfer limit; restart the agent"@,
            ),
        )
    } else {
        None
    }
}

/// Checks a request for a login before its account is opened.
pub fn validate_request<H>(
    state: &LoginState<H>,
    identity: &AgentIdentity,
    request: &GameLoginRequest,
) -> (verdict: Result<(), GameLoginError>)
    ensures
        match login_refusal(state.used(), identity.instance_id@, *request) {
            None => verdict is Ok,
            Some(fault) => verdict matches Err(error) && error@ == fault,
        },
{
    if request.timeout_ms == 0 || request.timeout_ms > MAX_GAME_OPERATION_TIMEOUT_MS {
        return Err(
            GameLoginError::request("timeout_ms must be between 1 and 300000".to_owned()),
        );
    }
    if !same_text(request.agent_instance_id.as_str(), identity.instance_id.as_str()) {
        return Err(
            GameLoginError::failed("secure account data was sealed for a different agent instance"),
        );
    }
    if !is_transfer(request.transfer_id.as_str()) {
        return Err(
            GameLoginError::request(
                "credential transfer ID must be a 64-character hexadecimal value".to_owned(),
            ),
        );
    }
    if state.has_used(request.transfer_id.as_str()) {
        return Err(
            GameLoginError::failed("this one-time credential transfer has already been consumed"),
        );
    }
    if state.used_count() >= MAX_USED_TRANSFERS {
        return Err(
            GameLoginError::failed(
                "the agent has reached its one-time credential transfer limit; restart the agent",
            ),
        );
    }
    Ok(())
}

/// Takes the account of a request that was opened, if it could be. A transfer is used up by
/// an account that could be opened, and only by one.
pub fn authenticate_transfer<H>(
    state: &mut LoginState<H>,
    identity: &AgentIdentity,
    request: &GameLoginRequest,
    opened: Option<CredentialSecret>,
) -> (answer: Result<CredentialSecret, GameLoginError>)
    requires
        old(state).wf(),
    ensures
        final(state).wf(),
        final(state).pending() == old(state).pending(),
        match login_refusal(old(state).used(), identity.instance_id@, *request) {
            Some(fault) => {
                &&& final(state).used() == old(state).used()
                &&& answer matches Err(error) && error@ == fault
            },
            None => match opened {
                None => {
                    &&& final(state).used() == old(state).used()
                    &&& answer matches Err(error) && error@ == login_failed(
                        "secure account data could not be authenticated"@,
                    )
                },
                Some(credential) => {
                    &&& final(state).used() == old(state).used().push(request.transfer_id@)
                    &&& answer == Ok::<CredentialSecret, GameLoginError>(credential)
                },
            },
        },
{
    validate_request(state, identity, request)?;
    match opened {
        None => Err(GameLoginError::failed("secure account data could not be authenticated")),
        Some(credential) => {
            let ghost before = state.used();
            state.used_transfers.push(request.transfer_id.clone());
            proof {
                assert(state.used() =~= before.push(request.transfer_id@));
            }
            Ok(credential)
        },
    }
}

/// A transfer that was used is refused from then on, whoever asks.
pub proof fn transfers_are_used_once(
    used: Seq<Seq<char>>,
    instance: Seq<char>,
    request: GameLoginRequest,
)
    requires
        used.contains(request.transfer_id@),
    ensures
        login_refusal(used, instance, request) is Some,
{
}

/// What cleaning up an earlier login of a client does to those that are pending.
pub open spec fn retries<B: MutationBackend>(
    backend: &B,
    held: Map<Seq<char>, LoginRecord<B::Handle>>,
    client: Seq<char>,
    calls: Calls,
    record: LoginRecord<B::Handle>,
    failures: Seq<Seq<char>>,
    left: Map<Seq<char>, LoginRecord<B::Handle>>,
) -> bool {
    if held.dom().contains(client) {
        let before = held[client];
        &&& cleans(
            backend,
            before.handle,
            before.identity,
            calls,
            before@,
            record@,
            failures,
        )
        &&& record.handle == before.handle
        &&& record.identity == before.identity
        &&& left == if failures.len() == 0 {
            held.remove(client)
        } else {
            held.insert(client, record)
        }
    } else {
        left == held && failures.len() == 0
    }
}

/// Cleans up an earlier login of a client, if one is pending. What could not be cleaned up
/// stays pending.
pub fn retry_cleanup<B: MutationBackend>(
    state: &mut LoginState<B::Handle>,
    backend: &B,
    client_id: &ClientId,
) -> (failures: Vec<String>)
    requires
        old(state).wf(),
    ensures
        final(state).wf(),
        final(state).used() == old(state).used(),
        exists|calls: Calls, record: LoginRecord<B::Handle>| #[trigger]
            retries(
                backend,
                old(state).pending(),
                client_id.0@,
                calls,
                record,
                texts(failures@),
                final(state).pending(),
            ),
{
    let ghost held = state.pending();
    match state.records.remove(client_id.0.as_str()) {
        None => {
            let failures: Vec<String> = Vec::new();
            proof {
                assert(texts(failures@).len() == 0);
                assert(state.pending() =~= held);
                let record: LoginRecord<B::Handle> = arbitrary();
                assert(retries(
                    backend,
                    held,
                    client_id.0@,
                    Seq::<Call>::empty(),
                    record,
                    texts(failures@),
                    state.pending(),
                ));
            }
            failures
        },
        Some(previous) => {
            let mut record = previous;
            let failures = cleanup_record(backend, &mut record);
            let ghost calls = choose|calls: Calls| #[trigger]
                cleans(
                    backend,
                    previous.handle,
                    previous.identity,
                    calls,
                    previous@,
                    record@,
                    texts(failures@),
                );
            let ghost cleaned = record;
            proof {
                assert(texts(failures@).len() == failures@.len());
            }
            if failures.len() != 0 {
                state.records.put(client_id.0.clone(), record);
                proof {
                    assert(state.pending() =~= held.insert(client_id.0@, cleaned));
                }
            }
            proof {
                lemma_retries(
                    backend,
                    held,
                    client_id.0@,
                    calls,
                    cleaned,
                    texts(failures@),
                    state.pending(),
                );
            }
            failures
        },
    }
}

proof fn lemma_retries<B: MutationBackend>(
    backend: &B,
    held: Map<Seq<char>, LoginRecord<B::Handle>>,
    client: Seq<char>,
    calls: Calls,
    record: LoginRecord<B::Handle>,
    failures: Seq<Seq<char>>,
    left: Map<Seq<char>, LoginRecord<B::Handle>>,
)
    requires
        retries(backend, held, client, calls, record, failures, left),
    ensures
        exists|calls: Calls, record: LoginRecord<B::Handle>| #[trigger]
            retries(backend, held, client, calls, record, failures, left),
{
}

/// How a login that went so is answered once it was cleaned up.
pub open spec fn login_outcome(failures: nat, stopped: Option<Failure>) -> Option<Failure> {
    if failures > 0 {
        Some(
            login_unclean(
                match stopped {
                    Some(fault) => fault.message,
                    None => "automatic login cleanup failed"@,
                },
                failures,
            ),
        )
    } else {
        stopped
    }
}

/// Why a login was given up, if it was.
pub open spec fn stop_of(result: Result<(), GameLoginError>) -> Option<Failure> {
    match result {
        Ok(_) => None,
        Err(error) => Some(error@),
    }
}

/// An answer to a request for a login.
pub open spec fn answers_login(
    answer: Result<GameLoginResponse, GameLoginError>,
    client: Seq<char>,
    stopped: Option<Failure>,
) -> bool {
    match stopped {
        Some(fault) => answer matches Err(error) && error@ == fault,
        None => answer matches Ok(response) && {
            &&& response.client_id.0@ == client
            &&& response.authenticated
            &&& response.cleanup_complete
        },
    }
}

/// What ending a login does: it is cleaned up, and what could not be is pending from then
/// on.
pub open spec fn ends<B: MutationBackend>(
    backend: &B,
    held: Map<Seq<char>, LoginRecord<B::Handle>>,
    client: Seq<char>,
    record: LoginRecord<B::Handle>,
    stopped: Option<Failure>,
    calls: Calls,
    after: LoginRecord<B::Handle>,
    failures: Seq<Seq<char>>,
    left: Map<Seq<char>, LoginRecord<B::Handle>>,
    answer: Result<GameLoginResponse, GameLoginError>,
) -> bool {
    &&& cleans(
        backend,
        record.handle,
        record.identity,
        calls,
        record@,
        after@,
        failures,
    )
    &&& after.handle == record.handle
    &&& after.identity == record.identity
    &&& left == if failures.len() == 0 {
        held
    } else {
        held.insert(client, after)
    }
    &&& answers_login(answer, client, login_outcome(failures.len(), stopped))
}

/// Ends a login that went so: takes back what it changed in the game, and answers the
/// request.
pub fn finish_login<B: MutationBackend>(
    state: &mut LoginState<B::Handle>,
    backend: &B,
    client_id: &ClientId,
    record: LoginRecord<B::Handle>,
    result: Result<(), GameLoginError>,
) -> (answer: Result<GameLoginResponse, GameLoginError>)
    requires
        old(state).wf(),
    ensures
        final(state).wf(),
        final(state).used() == old(state).used(),
        result is Err ==> answer is Err,
        exists|calls: Calls, after: LoginRecord<B::Handle>, failures: Seq<Seq<char>>| #[trigger]
            ends(
                backend,
                old(state).pending(),
                client_id.0@,
                record,
                stop_of(result),
                calls,
                after,
                failures,
                final(state).pending(),
                answer,
            ),
{
    let ghost held = state.pending();
    let ghost before = record;
    let ghost stopped = stop_of(result);
    let mut record = record;
    let failures = cleanup_record(backend, &mut record);
    let ghost calls = choose|calls: Calls| #[trigger]
        cleans(
            backend,
            before.handle,
            before.identity,
            calls,
            before@,
            record@,
            texts(failures@),
        );
    let ghost after = record;
    proof {
        assert(texts(failures@).len() == failures@.len());
    }
    let answer = if failures.len() != 0 {
        let error = match &result {
            Ok(_) => GameLoginError::cleanup("automatic login cleanup failed", failures.len()),
            Err(primary) => GameLoginError::cleanup(primary.message.as_str(), failures.len()),
        };
        state.records.put(client_id.0.clone(), record);
        proof {
            assert(state.pending() =~= held.insert(client_id.0@, after));
        }
        Err(error)
    } else {
        match result {
            Ok(_) => Ok(
                GameLoginResponse {
                    client_id: client_id.clone(),
                    authenticated: true,
                    cleanup_complete: true,
                },
            ),
            Err(error) => Err(error),
        }
    };
    proof {
        lemma_ends(
            backend,
            held,
            client_id.0@,
            before,
            stopped,
            calls,
            after,
            texts(failures@),
            state.pending(),
            answer,
        );
    }
    answer
}

proof fn lemma_ends<B: MutationBackend>(
    backend: &B,
    held: Map<Seq<char>, LoginRecord<B::Handle>>,
    client: Seq<char>,
    record: LoginRecord<B::Handle>,
    stopped: Option<Failure>,
    calls: Calls,
    after: LoginRecord<B::Handle>,
    failures: Seq<Seq<char>>,
    left: Map<Seq<char>, LoginRecord<B::Handle>>,
    answer: Result<GameLoginResponse, GameLoginError>,
)
    requires
        ends(backend, held, client, record, stopped, calls, after, failures, left, answer),
    ensures
        exists|calls: Calls, after: LoginRecord<B::Handle>, failures: Seq<Seq<char>>| #[trigger]
            ends(backend, held, client, record, stopped, calls, after, failures, left, answer),
{
}

/// What a request for a login went through until the game was to run its command.
pub ghost struct Attempt<H> {
    pub earlier: Calls,
    pub left_over: LoginRecord<H>,
    pub earlier_failures: Seq<Seq<char>>,
    pub middle: Map<Seq<char>, LoginRecord<H>>,
    pub target: Result<ClientWindowTarget, ProcessBackendError>,
    pub opened: Result<OpenedProcess<H>, ProcessBackendError>,
    pub looks: Calls,
    pub found: Result<LoginRecord<H>, GameLoginError>,
    pub runs: Calls,
    pub begun: LoginRecord<H>,
    pub result: Result<(), GameLoginError>,
    pub cleanup: Calls,
    pub after: LoginRecord<H>,
    pub failures: Seq<Seq<char>>,
    pub ending: Result<GameLoginResponse, GameLoginError>,
}

/// An attempt that was made: an earlier login of the client is cleaned up, the client is
/// looked up, the login is prepared and begun, and where it cannot be begun it is ended at
/// once.
pub open spec fn attempt_made<B: MutationBackend>(
    backend: &B,
    held: Map<Seq<char>, LoginRecord<B::Handle>>,
    client: Seq<char>,
    credential: CredentialSecret,
    a: Attempt<B::Handle>,
    left: Map<Seq<char>, LoginRecord<B::Handle>>,
    answer: Result<LoginRecord<B::Handle>, GameLoginError>,
) -> bool {
    let stopped = |fault: Failure| left == a.middle && (answer matches Err(error) && error@ == fault);
    &&& retries(
        backend,
        held,
        client,
        a.earlier,
        a.left_over,
        a.earlier_failures,
        a.middle,
    )
    &&& if a.earlier_failures.len() > 0 {
        stopped(
            login_failed(
                "a previous automatic login cleanup is still pending for this client"@,
            ),
        )
    } else {
        match a.target {
            Err(error) => stopped(
                login_stopped("could not resolve the selected client"@, fault_of(error)),
            ),
            Ok(target) => {
                &&& prepares(backend, target, credential, a.opened, a.looks, a.found)
                &&& match a.found {
                    Err(error) => stopped(error@),
                    Ok(record) => {
                        &&& begins(
                            backend,
                            record.handle,
                            record.identity,
                            credential,
                            a.runs,
                            record@,
                            a.begun@,
                            a.result,
                        )
                        &&& a.begun.handle == record.handle
                        &&& a.begun.identity == record.identity
                        &&& match a.result {
                            Ok(_) => left == a.middle && answer == Ok::<
                                LoginRecord<B::Handle>,
                                GameLoginError,
                            >(a.begun),
                            Err(error) => {
                                &&& ends(
                                    backend,
                                    a.middle,
                                    client,
                                    a.begun,
                                    Some(error@),
                                    a.cleanup,
                                    a.after,
                                    a.failures,
                                    left,
                                    a.ending,
                                )
                                &&& a.ending matches Err(fault) && (answer matches Err(error)
                                    && error@ == fault@)
                            },
                        }
                    },
                }
            },
        }
    }
}

proof fn lemma_attempt<B: MutationBackend>(
    backend: &B,
    held: Map<Seq<char>, LoginRecord<B::Handle>>,
    client: Seq<char>,
    credential: CredentialSecret,
    a: Attempt<B::Handle>,
    left: Map<Seq<char>, LoginRecord<B::Handle>>,
    answer: Result<LoginRecord<B::Handle>, GameLoginError>,
)
    requires
        attempt_made(backend, held, client, credential, a, left, answer),
    ensures
        exists|b: Attempt<B::Handle>| #[trigger]
            attempt_made(backend, held, client, credential, b, left, answer) && b.target
                == a.target && b.earlier_failures == a.earlier_failures,
{
}

/// Begins the login that a request asks for, on the client that was looked up. The lookup
/// is the caller's, after `retry_cleanup` had nothing to complain of.
fn begin_on<B: MutationBackend>(
    state: &mut LoginState<B::Handle>,
    backend: &B,
    client_id: &ClientId,
    target: &ClientWindowTarget,
    credential: &CredentialSecret,
    Ghost(held): Ghost<Map<Seq<char>, LoginRecord<B::Handle>>>,
    Ghost(so_far): Ghost<Attempt<B::Handle>>,
) -> (answer: Result<LoginRecord<B::Handle>, GameLoginError>)
    requires
        old(state).wf(),
        so_far.target == Ok::<ClientWindowTarget, ProcessBackendError>(*target),
        so_far.middle == old(state).pending(),
        so_far.earlier_failures.len() == 0,
        retries(
            backend,
            held,
            client_id.0@,
            so_far.earlier,
            so_far.left_over,
            so_far.earlier_failures,
            so_far.middle,
        ),
    ensures
        final(state).wf(),
        final(state).used() == old(state).used(),
        exists|a: Attempt<B::Handle>| #[trigger]
            attempt_made(
                backend,
                held,
                client_id.0@,
                *credential,
                a,
                final(state).pending(),
                answer,
            ) && a.target == so_far.target && a.earlier_failures == so_far.earlier_failures,
{
    let found = prepare_record(backend, target, credential);
    let ghost (opened, looks) = choose|
        opened: Result<OpenedProcess<B::Handle>, ProcessBackendError>,
        looks: Calls,
    | #[trigger]
        prepares(backend, *target, *credential, opened, looks, found);
    let ghost prepared = found;
    let mut record = match found {
        Ok(record) => record,
        Err(error) => {
            let answer = Err(error);
            proof {
                let a = Attempt { opened, looks, found: prepared, ..so_far };
                lemma_attempt(
                    backend,
                    held,
                    client_id.0@,
                    *credential,
                    a,
                    state.pending(),
                    answer,
                );
            }
            return answer;
        },
    };
    let ghost fresh = record;
    let result = execute_login(backend, &mut record, credential);
    let ghost runs = choose|runs: Calls| #[trigger]
        begins(
            backend,
            fresh.handle,
            fresh.identity,
            *credential,
            runs,
            fresh@,
            record@,
            result,
        );
    let ghost begun = record;
    let ghost went = result;
    match result {
        Ok(_) => {
            let ghost answer = Ok::<LoginRecord<B::Handle>, GameLoginError>(record);
            proof {
                let a = Attempt {
                    opened,
                    looks,
                    found: prepared,
                    runs,
                    begun,
                    result: went,
                    ..so_far
                };
                lemma_attempt(
                    backend,
                    held,
                    client_id.0@,
                    *credential,
                    a,
                    state.pending(),
                    answer,
                );
            }
            Ok(record)
        },
        Err(error) => {
            let ghost middle = state.pending();
            let ghost fault = error@;
            let ending = finish_login(state, backend, client_id, record, Err(error));
            let ghost (cleanup, after, failures) = choose|
                cleanup: Calls,
                after: LoginRecord<B::Handle>,
                failures: Seq<Seq<char>>,
            | #[trigger]
                ends(
                    backend,
                    middle,
                    client_id.0@,
                    begun,
                    Some(fault),
                    cleanup,
                    after,
                    failures,
                    state.pending(),
                    ending,
                );
            let ghost end = ending;
            let answer = match ending {
                Err(error) => Err(error),
                Ok(_) => {
                    assert(false);
                    Err(GameLoginError::failed("automatic login cleanup failed"))
                },
            };
            proof {
                let a = Attempt {
                    opened,
                    looks,
                    found: prepared,
                    runs,
                    begun,
                    result: went,
                    cleanup,
                    after,
                    failures,
                    ending: end,
                    ..so_far
                };
                lemma_attempt(
                    backend,
                    held,
                    client_id.0@,
                    *credential,
                    a,
                    state.pending(),
                    answer,
                );
            }
            answer
        },
    }
}

/// Looking up the client of a login: the clients are discovered anew.
pub open spec fn looks_up<B: MutationBackend>(
    backend: &B,
    held: Clients,
    client: Seq<char>,
    left: Clients,
    target: Result<ClientWindowTarget, ProcessBackendError>,
) -> bool {
    exists|
        windows: Result<Vec<ClientWindowCandidate>, ProcessBackendError>,
        processes: Result<Vec<ProcessDescriptor>, ProcessBackendError>,
        listed: Result<ListClientsResponse, ProcessBackendError>,
    |
        {
            &&& #[trigger] discovery_reported(backend, windows, processes)
            &&& #[trigger] discovers(held, windows, processes, left, listed)
            &&& match listed {
                Err(error) => target == Err::<ClientWindowTarget, _>(error),
                Ok(_) => resolves(left, client, target),
            }
        }
}

/// What a login does with an account that was opened: the client is looked up once its
/// earlier login is cleaned up, and the login begun.
pub open spec fn login_begins<B: MutationBackend>(
    backend: &B,
    held: Map<Seq<char>, LoginRecord<B::Handle>>,
    known: Clients,
    client: Seq<char>,
    credential: CredentialSecret,
    left: Map<Seq<char>, LoginRecord<B::Handle>>,
    then: Clients,
    answer: Result<LoginRecord<B::Handle>, GameLoginError>,
) -> bool {
    exists|a: Attempt<B::Handle>|
        {
            &&& #[trigger] attempt_made(backend, held, client, credential, a, left, answer)
            &&& if a.earlier_failures.len() > 0 {
                then == known
            } else {
                looks_up(backend, known, client, then, a.target)
            }
        }
}

fn begin_login<B: MutationBackend>(
    state: &mut LoginState<B::Handle>,
    clients: &mut ClientRegistry,
    backend: &B,
    request: &GameLoginRequest,
    credential: &CredentialSecret,
) -> (answer: Result<LoginRecord<B::Handle>, GameLoginError>)
    requires
        old(state).wf(),
        old(clients).wf(),
    ensures
        final(state).wf(),
        final(clients).wf(),
        final(state).used() == old(state).used(),
        login_begins(
            backend,
            old(state).pending(),
            old(clients)@,
            request.client_id.0@,
            *credential,
            final(state).pending(),
            final(clients)@,
            answer,
        ),
{
    let ghost held = state.pending();
    let ghost known = clients@;
    let failures = retry_cleanup(state, backend, &request.client_id);
    let ghost (earlier, left_over) = choose|calls: Calls, record: LoginRecord<B::Handle>| #[trigger]
        retries(
            backend,
            held,
            request.client_id.0@,
            calls,
            record,
            texts(failures@),
            state.pending(),
        );
    let ghost blank: Attempt<B::Handle> = arbitrary();
    let ghost begun = Attempt {
        earlier,
        left_over,
        earlier_failures: texts(failures@),
        middle: state.pending(),
        ..blank
    };
    proof {
        assert(texts(failures@).len() == failures@.len());
    }
    if failures.len() != 0 {
        let answer = Err(
            GameLoginError::failed(
                "a previous automatic login cleanup is still pending for this client",
            ),
        );
        proof {
            lemma_attempt(
                backend,
                held,
                request.client_id.0@,
                *credential,
                begun,
                state.pending(),
                answer,
            );
        }
        return answer;
    }
    let resolved = clients.resolve(backend, &request.client_id);
    let ghost target = resolved;
    let ghost a = Attempt { target, ..begun };
    proof {
        assert(looks_up(backend, known, request.client_id.0@, clients@, target));
    }
    match resolved {
        Err(error) => {
            let answer = Err(
                GameLoginError::backend("could not resolve the selected client", error),
            );
            proof {
                lemma_attempt(
                    backend,
                    held,
                    request.client_id.0@,
                    *credential,
                    a,
                    state.pending(),
                    answer,
                );
            }
            answer
        },
        Ok(found) => begin_on(
            state,
            backend,
            &request.client_id,
            &found,
            credential,
            Ghost(held),
            Ghost(a),
        ),
    }
}

/// Begins the login that a request asks for. The request is checked, its account, which
/// the caller opened if it could, is taken and its transfer used up. What comes back is
/// the login to be watched and then ended. The account is wiped.
pub fn login<B: MutationBackend>(
    state: &mut LoginState<B::Handle>,
    clients: &mut ClientRegistry,
    backend: &B,
    identity: &AgentIdentity,
    request: &GameLoginRequest,
    opened: Option<CredentialSecret>,
) -> (answer: Result<LoginRecord<B::Handle>, GameLoginError>)
    requires
        old(state).wf(),
        old(clients).wf(),
    ensures
        final(state).wf(),
        final(clients).wf(),
        match (login_refusal(old(state).used(), identity.instance_id@, *request), opened) {
            (Some(fault), _) => {
                &&& answer matches Err(error) && error@ == fault
                &&& final(state).used() == old(state).used()
                &&& final(state).pending() == old(state).pending()
                &&& final(clients)@ == old(clients)@
            },
            (None, None) => {
                &&& answer matches Err(error) && error@ == login_failed(
                    "secure account data could not be authenticated"@,
                )
                &&& final(state).used() == old(state).used()
                &&& final(state).pending() == old(state).pending()
                &&& final(clients)@ == old(clients)@
            },
            (None, Some(credential)) => {
                &&& final(state).used() == old(state).used().push(request.transfer_id@)
                &&& login_begins(
                    backend,
                    old(state).pending(),
                    old(clients)@,
                    request.client_id.0@,
                    credential,
                    final(state).pending(),
                    final(clients)@,
                    answer,
                )
            },
        },
{
    let mut credential = authenticate_transfer(state, identity, request, opened)?;
    let answer = begin_login(state, clients, backend, request, &credential);
    credential.wipe();
    answer
}

/// One client's turn when all pending logins are cleaned up.
pub ghost struct Retry<H> {
    pub calls: Calls,
    pub record: LoginRecord<H>,
    pub failures: Seq<Seq<char>>,
    pub left: Map<Seq<char>, LoginRecord<H>>,
}

/// A turn that was made.
#[verifier::opaque]
pub open spec fn retry_made<B: MutationBackend>(
    backend: &B,
    held: Map<Seq<char>, LoginRecord<B::Handle>>,
    client: Seq<char>,
    turn: Retry<B::Handle>,
) -> bool {
    retries(backend, held, client, turn.calls, turn.record, turn.failures, turn.left)
}

/// The pending logins after the first turns.
pub open spec fn pending_after<H>(
    held: Map<Seq<char>, LoginRecord<H>>,
    turns: Seq<Retry<H>>,
    n: int,
) -> Map<Seq<char>, LoginRecord<H>> {
    if n <= 0 {
        held
    } else {
        turns[n - 1].left
    }
}

/// Turns that were made one after the other, one for each client.
pub open spec fn retries_made<B: MutationBackend>(
    backend: &B,
    held: Map<Seq<char>, LoginRecord<B::Handle>>,
    clients: Seq<Seq<char>>,
    turns: Seq<Retry<B::Handle>>,
) -> bool {
    &&& turns.len() == clients.len()
    &&& forall|i: int|
        0 <= i < turns.len() ==> retry_made(
            backend,
            pending_after(held, turns, i),
            clients[i],
            #[trigger] turns[i],
        )
}

/// How many of the first turns left something behind.
pub open spec fn unclean<H>(turns: Seq<Retry<H>>, n: int) -> nat
    decreases n,
{
    if n <= 0 {
        0
    } else if turns[n - 1].failures.len() > 0 {
        unclean(turns, n - 1) + 1
    } else {
        unclean(turns, n - 1)
    }
}

/// How cleaning all logins up is answered.
pub open spec fn all_clean(failed: nat) -> Option<Failure> {
    if failed == 0 {
        None
    } else {
        Some(
            login_failed(
                "automatic login cleanup failed for "@ + dec_text(failed)
                    + " client(s); records remain tracked for retry"@,
            ),
        )
    }
}

proof fn lemma_unclean<H>(turns: Seq<Retry<H>>, longer: Seq<Retry<H>>, n: int)
    requires
        n <= turns.len() <= longer.len(),
        forall|i: int| 0 <= i < turns.len() ==> turns[i] == #[trigger] longer[i],
    ensures
        unclean(turns, n) == unclean(longer, n),
        unclean(turns, n) <= if n > 0 { n } else { 0 },
    decreases n,
{
    if n > 0 {
        lemma_unclean(turns, longer, n - 1);
    }
}

fn pending_clients<H>(state: &LoginState<H>) -> (names: Vec<String>)
    requires
        state.wf(),
    ensures
        texts(names@) == in_order(state.pending().dom()),
{
    proof {
        state.records.lemma_keys();
    }
    let mut names: Vec<String> = Vec::new();
    let mut i: usize = 0;
    proof {
        assert(texts(names@) =~= state.records.keys().take(0));
    }
    while i < state.records.len()
        invariant
            i <= state.records.keys().len(),
            texts(names@) == state.records.keys().take(i as int),
        decreases state.records.keys().len() - i,
    {
        let name = state.records.key_at(i).clone();
        let ghost before = names@;
        names.push(name);
        proof {
            assert(texts(names@) =~= texts(before).push(name@));
            assert(texts(names@) =~= state.records.keys().take(i + 1));
        }
        i += 1;
    }
    proof {
        assert(state.records.keys().take(i as int) =~= state.records.keys());
    }
    names
}

fn retry_one<B: MutationBackend>(
    state: &mut LoginState<B::Handle>,
    backend: &B,
    client: &str,
) -> (turn: (bool, Ghost<Retry<B::Handle>>))
    requires
        old(state).wf(),
    ensures
        final(state).wf(),
        final(state).used() == old(state).used(),
        retry_made(backend, old(state).pending(), client@, turn.1@),
        turn.1@.left == final(state).pending(),
        turn.0 == (turn.1@.failures.len() > 0),
{
    let ghost held = state.pending();
    let client_id = ClientId(client.to_owned());
    let failures = retry_cleanup(state, backend, &client_id);
    let ghost (calls, record) = choose|calls: Calls, record: LoginRecord<B::Handle>| #[trigger]
        retries(
            backend,
            held,
            client@,
            calls,
            record,
            texts(failures@),
            state.pending(),
        );
    let ghost turn = Retry { calls, record, failures: texts(failures@), left: state.pending() };
    proof {
        reveal(retry_made);
        assert(texts(failures@).len() == failures@.len());
    }
    (failures.len() != 0, Ghost(turn))
}

/// Cleans up all logins that are pending, client by client. What could not be cleaned up
/// stays pending.
pub fn cleanup_all<B: MutationBackend>(
    state: &mut LoginState<B::Handle>,
    backend: &B,
) -> (answer: Result<(), GameLoginError>)
    requires
        old(state).wf(),
    ensures
        final(state).wf(),
        final(state).used() == old(state).used(),
        exists|turns: Seq<Retry<B::Handle>>|
            {
                &&& #[trigger] retries_made(
                    backend,
                    old(state).pending(),
                    in_order(old(state).pending().dom()),
                    turns,
                )
                &&& final(state).pending() == pending_after(
                    old(state).pending(),
                    turns,
                    turns.len() as int,
                )
                &&& match all_clean(unclean(turns, turns.len() as int)) {
                    None => answer is Ok,
                    Some(fault) => answer matches Err(error) && error@ == fault,
                }
            },
{
    let ghost held = state.pending();
    let ghost order = in_order(held.dom());
    let names = pending_clients(state);
    let ghost mut turns: Seq<Retry<B::Handle>> = Seq::empty();
    let mut failed: usize = 0;
    let mut i: usize = 0;
    while i < names.len()
        invariant
            i <= names@.len(),
            state.wf(),
            state.used() == old(state).used(),
            texts(names@) == order,
            turns.len() == i,
            forall|j: int|
                0 <= j < turns.len() ==> retry_made(
                    backend,
                    pending_after(held, turns, j),
                    order[j],
                    #[trigger] turns[j],
                ),
            state.pending() == pending_after(held, turns, i as int),
            failed == unclean(turns, i as int),
            failed <= i,
        decreases names@.len() - i,
    {
        let ghost before = turns;
        let (bad, Ghost(turn)) = retry_one(state, backend, names[i].as_str());
        proof {
            assert(order[i as int] == names@[i as int]@);
            turns = before.push(turn);
            lemma_unclean(before, turns, i as int);
            assert forall|j: int| 0 <= j < turns.len() implies retry_made(
                backend,
                pending_after(held, turns, j),
                order[j],
                #[trigger] turns[j],
            ) by {
                assert(pending_after(held, turns, j) == pending_after(held, before, j));
                if j < i {
                    assert(before[j] == turns[j]);
                }
            }
        }
        if bad {
            failed += 1;
        }
        i += 1;
    }
    proof {
        assert(texts(names@).len() == names@.len());
        assert(retries_made(backend, held, order, turns));
    }
    if failed == 0 {
        Ok(())
    } else {
        let count = format_decimal(failed as u64);
        let text = join3(
            "automatic login cleanup failed for ",
            count.as_str(),
            " client(s); records remain tracked for retry",
        );
        Err(GameLoginError::failed(text.as_str()))
    }
}

}
