//! Single operations on a process, as the steps of a longer procedure.

use vstd::prelude::*;
use vstd::string::*;

use crate::backend::{MutationBackend, ProcessBackendError, SuspendedProcess};
use crate::calls::{
    call_made, calls_made, lemma_went_on, read_answer, suspend_answer, suspend_of, went_on, Answer,
    Calls,
};
use crate::memory::{self, read_does, MemoryApiError};
use crate::mutation::{
    self, admits_effect, after_polls, allocate_does, flush_does, free_does, free_made,
    free_outcome, is_zero_counter, looked, occupied, protect_does, quiet_calls, quiet_does,
    released, write_does, written_address_reads_back, Around, FreeCalls, MutationApiError,
    MutationState, Occupancy, Owned,
};
use crate::process::{
    after_ensure_live, checked, lists_modules, modules_reported, process_error_text, reports,
    ProcessApiError, ProcessSessionRegistry, Sessions,
};
use crate::protocol::{
    ListModulesResponse, ModuleDescriptor, MemoryAllocateRequest, MemoryAllocationResponse,
    MemoryFreeRequest, MemoryFreeResponse, MemoryProtectRequest, MemoryProtectResponse,
    MemoryProtection, MemoryReadRequest, MemoryReadResponse, MemoryScanRequest, MemoryScanResponse,
    MemoryScanScope, MemoryWriteRequest, MemoryWriteResponse, ProcessIdentity, ProcessSessionId,
};
use crate::rpc::Failure;
use crate::search::{
    address_texts, contents, scan_does, scans_answer_places, unique_scan_answers_one_place,
    unique_scan_does,
};
use crate::text::{address_text, texts};

verus! {

/// What an agent knows: its sessions and what they own.
#[verifier::ext_equal]
pub ghost struct World<H, T> {
    pub sessions: Sessions<H>,
    pub owned: Owned<T>,
}

/// One operation on the process of a session.
pub ghost enum Op {
    /// Finds the one place where a signature occurs.
    Scan { signature: Seq<char>, scope: Option<Seq<char>> },
    /// Finds the places where a signature occurs.
    ScanMany { signature: Seq<char>, scope: Option<Seq<char>> },
    /// Finds the one place, if there is one, of each of several signatures.
    ScanEach { signatures: Seq<Seq<char>>, scope: Option<Seq<char>> },
    /// Lists the modules of the process.
    ListModules,
    /// Asks whether the process is still there.
    Status,
    Read { address: Seq<char>, size: usize },
    Allocate { near: Option<usize>, size: usize, protection: MemoryProtection },
    Write { address: Seq<char>, bytes: Seq<u8> },
    Flush { address: Seq<char>, size: usize },
    Protect { address: Seq<char>, size: usize, protection: MemoryProtection },
    /// Looks whether nothing runs in memory that is to be released.
    Vacate { at: usize, size: usize, counter: usize },
    Free { name: Seq<char> },
}

/// What an operation answered.
pub ghost enum Reply {
    Fault { fault: Failure, said: Seq<char> },
    Found { at: usize },
    Places { places: Seq<usize> },
    Each { found: Seq<Option<usize>> },
    Modules { modules: Seq<ModuleDescriptor> },
    Bytes { bytes: Seq<u8> },
    Allocated { name: Seq<char>, at: usize },
    Previous { protection: MemoryProtection },
    Done,
}

/// An operation, its answer and the world after it.
pub ghost struct Step<H, T> {
    pub op: Op,
    pub reply: Reply,
    pub after: World<H, T>,
}

/// The module that a scan is restricted to.
pub open spec fn scope_name(scope: MemoryScanScope) -> Option<Seq<char>> {
    match scope {
        MemoryScanScope::Process => None,
        MemoryScanScope::Module { name } => Some(name@),
    }
}

/// A scan for the places where a signature occurs.
pub open spec fn scans_many(
    request: MemoryScanRequest,
    id: Seq<char>,
    signature: Seq<char>,
    scope: Option<Seq<char>>,
) -> bool {
    &&& request.session_id.0@ == id
    &&& request.signature@ == signature
    &&& scope_name(request.scope) == scope
    &&& request.required
    &&& !request.unique
    &&& request.max_matches == 64
}

/// The answer to a scan for several signatures.
pub open spec fn each_reply(answer: Result<Vec<Option<usize>>, MemoryApiError>) -> Reply {
    match answer {
        Err(error) => Reply::Fault { fault: error@, said: error.text() },
        Ok(found) => Reply::Each { found: found@ },
    }
}

/// The answer to a request for modules.
pub open spec fn modules_reply(answer: Result<ListModulesResponse, ProcessApiError>) -> Reply {
    match answer {
        Err(error) => Reply::Fault { fault: error@, said: process_error_text(error@) },
        Ok(response) => Reply::Modules { modules: response.modules@ },
    }
}

/// What listing modules does.
pub open spec fn modules_do<B: MutationBackend>(
    backend: &B,
    held: Sessions<B::Handle>,
    id: Seq<char>,
    later: Sessions<B::Handle>,
    answer: Result<ListModulesResponse, ProcessApiError>,
) -> bool {
    exists|
        before: Result<(), ProcessBackendError>,
        modules: Result<Vec<ModuleDescriptor>, ProcessBackendError>,
    | #[trigger]
        modules_reported(backend, held, id, before, modules) && lists_modules(
            held,
            id,
            before,
            modules,
            later,
            answer,
        )
}

/// The answer to a question for the process.
pub open spec fn status_reply<T>(answer: Result<T, ProcessApiError>) -> Reply {
    match answer {
        Ok(_) => Reply::Done,
        Err(error) => Reply::Fault { fault: error@, said: process_error_text(error@) },
    }
}

/// How a question for the process ends.
pub open spec fn status_ends<H>(
    held: Sessions<H>,
    id: Seq<char>,
    outcome: Result<(), ProcessBackendError>,
    later: Sessions<H>,
    reply: Reply,
) -> bool {
    let (then, fault) = after_ensure_live(held, id, outcome);
    &&& later == then
    &&& reply == match fault {
        None => Reply::Done,
        Some(fault) => Reply::Fault { fault, said: process_error_text(fault) },
    }
}

/// The answer to a read.
pub open spec fn bytes_reply(answer: Result<MemoryReadResponse, MemoryApiError>) -> Reply {
    match answer {
        Err(error) => Reply::Fault { fault: error@, said: error.text() },
        Ok(response) => Reply::Bytes { bytes: response.bytes@ },
    }
}

/// The answer to a change that tells no more than that it was made.
pub open spec fn done_reply<R>(answer: Result<R, MutationApiError>) -> Reply {
    match answer {
        Err(error) => Reply::Fault { fault: error@, said: error.text() },
        Ok(_) => Reply::Done,
    }
}

/// The answer to a change of access rights.
pub open spec fn previous_reply(answer: Result<MemoryProtectResponse, MutationApiError>) -> Reply {
    match answer {
        Err(error) => Reply::Fault { fault: error@, said: error.text() },
        Ok(response) => Reply::Previous { protection: response.previous_protection },
    }
}

/// A scan for the one place where a signature occurs.
pub open spec fn scans_once(
    request: MemoryScanRequest,
    id: Seq<char>,
    signature: Seq<char>,
    scope: Option<Seq<char>>,
) -> bool {
    &&& request.session_id.0@ == id
    &&& request.signature@ == signature
    &&& scope_name(request.scope) == scope
    &&& request.required
    &&& request.unique
    &&& request.max_matches == 2
}

/// Whether a step was made.
#[verifier::opaque]
pub open spec fn step_made<B: MutationBackend>(
    backend: &B,
    id: Seq<char>,
    before: World<B::Handle, B::ThreadHandle>,
    step: Step<B::Handle, B::ThreadHandle>,
) -> bool {
    let after = step.after;
    match step.op {
        Op::Scan { signature, scope } => {
            &&& after.owned == before.owned
            &&& exists|request: MemoryScanRequest, answer: Result<MemoryScanResponse, MemoryApiError>|
                {
                    &&& #[trigger] scan_does(
                        backend,
                        before.sessions,
                        request,
                        after.sessions,
                        answer,
                    )
                    &&& scans_once(request, id, signature, scope)
                    &&& match answer {
                        Err(error) => step.reply == Reply::Fault { fault: error@, said: error.text() },
                        Ok(response) => {
                            &&& step.reply is Found
                            &&& texts(response.matches@) == seq![
                                address_text(step.reply->Found_at as nat),
                            ]
                        },
                    }
                }
        },
        Op::ScanMany { signature, scope } => {
            &&& after.owned == before.owned
            &&& exists|request: MemoryScanRequest, answer: Result<MemoryScanResponse, MemoryApiError>|
                {
                    &&& #[trigger] scan_does(
                        backend,
                        before.sessions,
                        request,
                        after.sessions,
                        answer,
                    )
                    &&& scans_many(request, id, signature, scope)
                    &&& match answer {
                        Err(error) => step.reply == Reply::Fault { fault: error@, said: error.text() },
                        Ok(response) => {
                            &&& step.reply is Places
                            &&& texts(response.matches@) == address_texts(step.reply->places)
                        },
                    }
                }
        },
        Op::ScanEach { signatures, scope } => {
            &&& after.owned == before.owned
            &&& exists|where_to: MemoryScanScope, answer: Result<Vec<Option<usize>>, MemoryApiError>|
                {
                    &&& #[trigger] unique_scan_does(
                        backend,
                        before.sessions,
                        id,
                        where_to,
                        signatures,
                        after.sessions,
                        answer,
                    )
                    &&& scope_name(where_to) == scope
                    &&& step.reply == each_reply(answer)
                }
        },
        Op::ListModules => {
            &&& after.owned == before.owned
            &&& exists|answer: Result<ListModulesResponse, ProcessApiError>|
                {
                    &&& #[trigger] modules_do(
                        backend,
                        before.sessions,
                        id,
                        after.sessions,
                        answer,
                    )
                    &&& step.reply == modules_reply(answer)
                }
        },
        Op::Status => {
            &&& after.owned == before.owned
            &&& exists|outcome: Result<(), ProcessBackendError>|
                {
                    &&& #[trigger] checked(backend, before.sessions, id, outcome)
                    &&& status_ends(before.sessions, id, outcome, after.sessions, step.reply)
                }
        },
        Op::Read { address, size } => {
            &&& after.owned == before.owned
            &&& exists|request: MemoryReadRequest, answer: Result<MemoryReadResponse, MemoryApiError>|
                {
                    &&& #[trigger] read_does(
                        backend,
                        before.sessions,
                        request,
                        after.sessions,
                        answer,
                    )
                    &&& request.session_id.0@ == id
                    &&& request.address@ == address
                    &&& request.size == size
                    &&& step.reply == bytes_reply(answer)
                }
        },
        Op::Allocate { near, size, protection } => exists|
            request: MemoryAllocateRequest,
            answer: Result<MemoryAllocationResponse, MutationApiError>,
        |
            {
                &&& #[trigger] allocate_does(
                    backend,
                    before.sessions,
                    before.owned,
                    near,
                    request,
                    after.sessions,
                    after.owned,
                    answer,
                )
                &&& request.session_id.0@ == id
                &&& request.size == size
                &&& request.protection == protection
                &&& match answer {
                    Err(error) => step.reply == Reply::Fault { fault: error@, said: error.text() },
                    Ok(response) => {
                        &&& step.reply is Allocated
                        &&& step.reply->name == response.allocation_id@
                        &&& address_text(step.reply->Allocated_at as nat) == response.address@
                    },
                }
            },
        Op::Write { address, bytes } => {
            &&& after.owned == before.owned
            &&& exists|
                request: MemoryWriteRequest,
                answer: Result<MemoryWriteResponse, MutationApiError>,
            |
                {
                    &&& #[trigger] write_does(
                        backend,
                        before.sessions,
                        request,
                        after.sessions,
                        answer,
                    )
                    &&& request.session_id.0@ == id
                    &&& request.address@ == address
                    &&& request.bytes@ == bytes
                    &&& step.reply == done_reply(answer)
                }
        },
        Op::Flush { address, size } => {
            &&& after.owned == before.owned
            &&& exists|answer: Result<(), MutationApiError>|
                {
                    &&& #[trigger] flush_does(
                        backend,
                        before.sessions,
                        id,
                        address,
                        size,
                        after.sessions,
                        answer,
                    )
                    &&& step.reply == done_reply(answer)
                }
        },
        Op::Protect { address, size, protection } => {
            &&& after.owned == before.owned
            &&& exists|
                request: MemoryProtectRequest,
                answer: Result<MemoryProtectResponse, MutationApiError>,
            |
                {
                    &&& #[trigger] protect_does(
                        backend,
                        before.sessions,
                        request,
                        after.sessions,
                        answer,
                    )
                    &&& request.session_id.0@ == id
                    &&& request.address@ == address
                    &&& request.size == size
                    &&& request.protection == protection
                    &&& step.reply == previous_reply(answer)
                }
        },
        Op::Vacate { at, size, counter } => {
            &&& after.owned == before.owned
            &&& exists|answer: Result<(), MutationApiError>|
                {
                    &&& #[trigger] quiet_does(
                        backend,
                        before.sessions,
                        id,
                        at,
                        size,
                        counter,
                        after.sessions,
                        answer,
                    )
                    &&& step.reply == done_reply(answer)
                }
        },
        Op::Free { name } => exists|
            request: MemoryFreeRequest,
            answer: Result<MemoryFreeResponse, MutationApiError>,
        |
            {
                &&& #[trigger] free_does(
                    backend,
                    before.sessions,
                    before.owned,
                    request,
                    after.sessions,
                    after.owned,
                    answer,
                )
                &&& request.session_id.0@ == id
                &&& request.allocation_id@ == name
                &&& step.reply == done_reply(answer)
            },
    }
}

/// The world before a step.
pub open spec fn world_at<H, T>(start: World<H, T>, steps: Seq<Step<H, T>>, i: int) -> World<H, T> {
    if i == 0 {
        start
    } else {
        steps[i - 1].after
    }
}

/// The world after all steps.
pub open spec fn world_after<H, T>(start: World<H, T>, steps: Seq<Step<H, T>>) -> World<H, T> {
    world_at(start, steps, steps.len() as int)
}

/// Steps of which the last one failed.
pub open spec fn faulted<H, T>(steps: Seq<Step<H, T>>) -> bool {
    steps.len() > 0 && steps.last().reply is Fault
}

/// Steps that follow a script, each made in the world that the one before left,
/// up to the first that fails.
pub open spec fn follows<B: MutationBackend>(
    backend: &B,
    id: Seq<char>,
    start: World<B::Handle, B::ThreadHandle>,
    script: Seq<Op>,
    steps: Seq<Step<B::Handle, B::ThreadHandle>>,
) -> bool {
    &&& steps.len() <= script.len()
    &&& forall|i: int|
        0 <= i < steps.len() ==> (#[trigger] steps[i]).op == script[i] && step_made(
            backend,
            id,
            world_at(start, steps, i),
            steps[i],
        )
    &&& forall|i: int| 0 <= i < steps.len() - 1 ==> !((#[trigger] steps[i]).reply is Fault)
}

/// A script that was followed to its end or to the first step that failed.
pub open spec fn ran<B: MutationBackend>(
    backend: &B,
    id: Seq<char>,
    start: World<B::Handle, B::ThreadHandle>,
    script: Seq<Op>,
    steps: Seq<Step<B::Handle, B::ThreadHandle>>,
) -> bool {
    &&& follows(backend, id, start, script, steps)
    &&& steps.len() < script.len() ==> faulted(steps)
}

/// A script that was followed to its end without a failure.
pub open spec fn completed<H, T>(script: Seq<Op>, steps: Seq<Step<H, T>>) -> bool {
    steps.len() == script.len() && !faulted(steps)
}

/// The failure that a script ended with.
pub open spec fn fault_of<H, T>(steps: Seq<Step<H, T>>) -> Failure {
    steps.last().reply->fault
}

/// One more step of a script.
pub proof fn lemma_follows_step<B: MutationBackend>(
    backend: &B,
    id: Seq<char>,
    start: World<B::Handle, B::ThreadHandle>,
    script: Seq<Op>,
    steps: Seq<Step<B::Handle, B::ThreadHandle>>,
    step: Step<B::Handle, B::ThreadHandle>,
)
    requires
        follows(backend, id, start, script, steps),
        !faulted(steps),
        steps.len() < script.len(),
        step.op == script[steps.len() as int],
        step_made(backend, id, world_after(start, steps), step),
    ensures
        follows(backend, id, start, script, steps.push(step)),
        world_after(start, steps.push(step)) == step.after,
        faulted(steps.push(step)) == (step.reply is Fault),
        steps.push(step).last() == step,
{
    let longer = steps.push(step);
    assert forall|i: int| 0 <= i < longer.len() implies (#[trigger] longer[i]).op == script[i]
        && step_made(backend, id, world_at(start, longer, i), longer[i]) by {
        if i < steps.len() {
            assert(steps[i].op == script[i]);
            assert(world_at(start, longer, i) == world_at(start, steps, i));
        } else {
            assert(world_at(start, longer, i) == world_after(start, steps));
        }
    }
    assert forall|i: int| 0 <= i < longer.len() - 1 implies !((#[trigger] longer[i]).reply
        is Fault) by {
        if i == steps.len() - 1 {
            assert(steps.last() == steps[i]);
        } else {
            assert(!(steps[i].reply is Fault));
        }
    }
}

proof fn lemma_read_step<B: MutationBackend>(
    backend: &B,
    id: Seq<char>,
    before: World<B::Handle, B::ThreadHandle>,
    after: World<B::Handle, B::ThreadHandle>,
    request: MemoryReadRequest,
    answer: Result<MemoryReadResponse, MemoryApiError>,
)
    requires
        read_does(backend, before.sessions, request, after.sessions, answer),
        request.session_id.0@ == id,
        after.owned == before.owned,
    ensures
        step_made(
            backend,
            id,
            before,
            Step { op: Op::Read { address: request.address@, size: request.size }, reply: bytes_reply(answer), after },
        ),
{
    reveal(step_made);
    let step = Step {
        op: Op::Read { address: request.address@, size: request.size },
        reply: bytes_reply(answer),
        after,
    };
    assert(read_does(backend, before.sessions, request, step.after.sessions, answer));
    assert(step_made(backend, id, before, step));
}

proof fn lemma_write_step<B: MutationBackend>(
    backend: &B,
    id: Seq<char>,
    before: World<B::Handle, B::ThreadHandle>,
    after: World<B::Handle, B::ThreadHandle>,
    request: MemoryWriteRequest,
    answer: Result<MemoryWriteResponse, MutationApiError>,
)
    requires
        write_does(backend, before.sessions, request, after.sessions, answer),
        request.session_id.0@ == id,
        after.owned == before.owned,
    ensures
        step_made(
            backend,
            id,
            before,
            Step { op: Op::Write { address: request.address@, bytes: request.bytes@ }, reply: done_reply(answer), after },
        ),
{
    reveal(step_made);
    let step = Step {
        op: Op::Write { address: request.address@, bytes: request.bytes@ },
        reply: done_reply(answer),
        after,
    };
    assert(write_does(backend, before.sessions, request, step.after.sessions, answer));
    assert(step_made(backend, id, before, step));
}

proof fn lemma_flush_step<B: MutationBackend>(
    backend: &B,
    id: Seq<char>,
    before: World<B::Handle, B::ThreadHandle>,
    after: World<B::Handle, B::ThreadHandle>,
    address: Seq<char>,
    size: usize,
    answer: Result<(), MutationApiError>,
)
    requires
        flush_does(backend, before.sessions, id, address, size, after.sessions, answer),
        after.owned == before.owned,
    ensures
        step_made(
            backend,
            id,
            before,
            Step { op: Op::Flush { address, size }, reply: done_reply(answer), after },
        ),
{
    reveal(step_made);
    let step = Step {
        op: Op::Flush { address, size },
        reply: done_reply(answer),
        after,
    };
    assert(flush_does(backend, before.sessions, id, address, size, step.after.sessions, answer));
    assert(flush_does(
        backend,
        before.sessions,
        id,
        step.op->Flush_address,
        step.op->Flush_size,
        step.after.sessions,
        answer,
    ));
    assert(step_made(backend, id, before, step));
}

proof fn lemma_protect_step<B: MutationBackend>(
    backend: &B,
    id: Seq<char>,
    before: World<B::Handle, B::ThreadHandle>,
    after: World<B::Handle, B::ThreadHandle>,
    request: MemoryProtectRequest,
    answer: Result<MemoryProtectResponse, MutationApiError>,
)
    requires
        protect_does(backend, before.sessions, request, after.sessions, answer),
        request.session_id.0@ == id,
        after.owned == before.owned,
    ensures
        step_made(
            backend,
            id,
            before,
            Step { op: Op::Protect { address: request.address@, size: request.size, protection: request.protection }, reply: previous_reply(answer), after },
        ),
{
    reveal(step_made);
    let step = Step {
        op: Op::Protect { address: request.address@, size: request.size, protection: request.protection },
        reply: previous_reply(answer),
        after,
    };
    assert(protect_does(backend, before.sessions, request, step.after.sessions, answer));
    assert(step_made(backend, id, before, step));
}

proof fn lemma_free_step<B: MutationBackend>(
    backend: &B,
    id: Seq<char>,
    before: World<B::Handle, B::ThreadHandle>,
    after: World<B::Handle, B::ThreadHandle>,
    request: MemoryFreeRequest,
    answer: Result<MemoryFreeResponse, MutationApiError>,
)
    requires
        free_does(
            backend,
            before.sessions,
            before.owned,
            request,
            after.sessions,
            after.owned,
            answer,
        ),
        request.session_id.0@ == id,
    ensures
        step_made(
            backend,
            id,
            before,
            Step { op: Op::Free { name: request.allocation_id@ }, reply: done_reply(answer), after },
        ),
{
    reveal(step_made);
    let step = Step {
        op: Op::Free { name: request.allocation_id@ },
        reply: done_reply(answer),
        after,
    };
    assert(free_does(
            backend,
            before.sessions,
            before.owned,
            request,
            step.after.sessions,
            step.after.owned,
            answer,
        ));
    assert(step_made(backend, id, before, step));
}

proof fn lemma_allocate_step<B: MutationBackend>(
    backend: &B,
    id: Seq<char>,
    before: World<B::Handle, B::ThreadHandle>,
    after: World<B::Handle, B::ThreadHandle>,
    near: Option<usize>,
    request: MemoryAllocateRequest,
    answer: Result<MemoryAllocationResponse, MutationApiError>,
    reply: Reply,
)
    requires
        allocate_does(
            backend,
            before.sessions,
            before.owned,
            near,
            request,
            after.sessions,
            after.owned,
            answer,
        ),
        request.session_id.0@ == id,
        match answer {
            Err(error) => reply == Reply::Fault { fault: error@, said: error.text() },
            Ok(response) => {
                &&& reply is Allocated
                &&& reply->name == response.allocation_id@
                &&& address_text(reply->Allocated_at as nat) == response.address@
            },
        },
    ensures
        step_made(
            backend,
            id,
            before,
            Step { op: Op::Allocate { near, size: request.size, protection: request.protection }, reply, after },
        ),
{
    reveal(step_made);
    let step = Step {
        op: Op::Allocate { near, size: request.size, protection: request.protection },
        reply,
        after,
    };
    assert(allocate_does(
            backend,
            before.sessions,
            before.owned,
            near,
            request,
            step.after.sessions,
            step.after.owned,
            answer,
        ));
    assert(step_made(backend, id, before, step));
}

proof fn lemma_scan_step<B: MutationBackend>(
    backend: &B,
    id: Seq<char>,
    before: World<B::Handle, B::ThreadHandle>,
    after: World<B::Handle, B::ThreadHandle>,
    request: MemoryScanRequest,
    answer: Result<MemoryScanResponse, MemoryApiError>,
    reply: Reply,
)
    requires
        scan_does(backend, before.sessions, request, after.sessions, answer),
        scans_once(request, id, request.signature@, scope_name(request.scope)),
        after.owned == before.owned,
        match answer {
            Err(error) => reply == Reply::Fault { fault: error@, said: error.text() },
            Ok(response) => {
                &&& reply is Found
                &&& texts(response.matches@) == seq![address_text(reply->Found_at as nat)]
            },
        },
    ensures
        step_made(
            backend,
            id,
            before,
            Step { op: Op::Scan { signature: request.signature@, scope: scope_name(request.scope) }, reply, after },
        ),
{
    reveal(step_made);
    let step = Step {
        op: Op::Scan { signature: request.signature@, scope: scope_name(request.scope) },
        reply,
        after,
    };
    assert(scan_does(backend, before.sessions, request, step.after.sessions, answer));
    assert(step_made(backend, id, before, step));
}

/// Reads bytes, as a step.
pub(crate) fn step_read<B: MutationBackend>(
    sessions: &mut ProcessSessionRegistry<B::Handle>,
    backend: &B,
    session_id: &ProcessSessionId,
    address: &str,
    size: usize,
    Ghost(owned): Ghost<Owned<B::ThreadHandle>>,
) -> (taken: (Result<Vec<u8>, MemoryApiError>, Ghost<Step<B::Handle, B::ThreadHandle>>))
    requires
        old(sessions).wf(),
    ensures
        final(sessions).wf(),
        old(sessions)@.leads_to(final(sessions)@),
        step_made(
            backend,
            session_id.0@,
            World { sessions: old(sessions)@, owned },
            taken.1@,
        ),
        taken.1@.op == (Op::Read { address: address@, size }),
        taken.1@.after == (World { sessions: final(sessions)@, owned }),
        taken.1@.reply == match taken.0 {
            Ok(bytes) => Reply::Bytes { bytes: bytes@ },
            Err(error) => Reply::Fault { fault: error@, said: error.text() },
        },
{
    let ghost held = sessions@;
    let request = MemoryReadRequest {
        session_id: session_id.clone(),
        address: address.to_owned(),
        size,
    };
    let answer = memory::read(sessions, backend, &request);
    let ghost reply = bytes_reply(answer);
    let ghost step = Step {
        op: Op::Read { address: address@, size },
        reply,
        after: World { sessions: sessions@, owned },
    };
    proof {
        lemma_read_step(
            backend,
            session_id.0@,
            World { sessions: held, owned },
            step.after,
            request,
            answer,
        );
    }
    match answer {
        Ok(response) => (Ok(response.bytes), Ghost(step)),
        Err(error) => (Err(error), Ghost(step)),
    }
}

/// Writes bytes, as a step.
pub(crate) fn step_write<B: MutationBackend>(
    sessions: &mut ProcessSessionRegistry<B::Handle>,
    backend: &B,
    session_id: &ProcessSessionId,
    address: &str,
    bytes: Vec<u8>,
    Ghost(owned): Ghost<Owned<B::ThreadHandle>>,
) -> (taken: (Result<(), MutationApiError>, Ghost<Step<B::Handle, B::ThreadHandle>>))
    requires
        old(sessions).wf(),
    ensures
        final(sessions).wf(),
        old(sessions)@.leads_to(final(sessions)@),
        step_made(
            backend,
            session_id.0@,
            World { sessions: old(sessions)@, owned },
            taken.1@,
        ),
        taken.1@.op == (Op::Write { address: address@, bytes: bytes@ }),
        taken.1@.after == (World { sessions: final(sessions)@, owned }),
        taken.1@.reply == match taken.0 {
            Ok(_) => Reply::Done,
            Err(error) => Reply::Fault { fault: error@, said: error.text() },
        },
{
    let ghost written = bytes@;
    let ghost held = sessions@;
    let request = MemoryWriteRequest {
        session_id: session_id.clone(),
        address: address.to_owned(),
        bytes,
    };
    let answer = mutation::write(sessions, backend, &request);
    let ghost reply = done_reply(answer);
    let ghost step = Step {
        op: Op::Write { address: address@, bytes: written },
        reply,
        after: World { sessions: sessions@, owned },
    };
    proof {
        lemma_write_step(
            backend,
            session_id.0@,
            World { sessions: held, owned },
            step.after,
            request,
            answer,
        );
    }
    match answer {
        Ok(_) => (Ok(()), Ghost(step)),
        Err(error) => (Err(error), Ghost(step)),
    }
}

proof fn lemma_vacate_step<B: MutationBackend>(
    backend: &B,
    id: Seq<char>,
    before: World<B::Handle, B::ThreadHandle>,
    after: World<B::Handle, B::ThreadHandle>,
    at: usize,
    size: usize,
    counter: usize,
    answer: Result<(), MutationApiError>,
)
    requires
        quiet_does(backend, before.sessions, id, at, size, counter, after.sessions, answer),
        after.owned == before.owned,
    ensures
        step_made(
            backend,
            id,
            before,
            Step { op: Op::Vacate { at, size, counter }, reply: done_reply(answer), after },
        ),
{
    reveal(step_made);
    let step = Step { op: Op::Vacate { at, size, counter }, reply: done_reply(answer), after };
    assert(quiet_does(
        backend,
        before.sessions,
        id,
        step.op->Vacate_at,
        step.op->Vacate_size,
        step.op->counter,
        step.after.sessions,
        answer,
    ));
    assert(step_made(backend, id, before, step));
}

/// Looks whether nothing runs in memory that is to be released, as a step.
pub(crate) fn step_vacate<B: MutationBackend>(
    sessions: &mut ProcessSessionRegistry<B::Handle>,
    backend: &B,
    session_id: &ProcessSessionId,
    at: usize,
    size: usize,
    counter: usize,
    Ghost(owned): Ghost<Owned<B::ThreadHandle>>,
) -> (taken: (Result<(), MutationApiError>, Ghost<Step<B::Handle, B::ThreadHandle>>))
    requires
        old(sessions).wf(),
    ensures
        final(sessions).wf(),
        old(sessions)@.leads_to(final(sessions)@),
        step_made(
            backend,
            session_id.0@,
            World { sessions: old(sessions)@, owned },
            taken.1@,
        ),
        taken.1@.op == (Op::Vacate { at, size, counter }),
        taken.1@.after == (World { sessions: final(sessions)@, owned }),
        taken.1@.reply == match taken.0 {
            Ok(_) => Reply::Done,
            Err(error) => Reply::Fault { fault: error@, said: error.text() },
        },
{
    let ghost held = sessions@;
    let answer = mutation::ensure_vacant(sessions, backend, session_id, at, size, counter);
    let ghost reply = done_reply(answer);
    let ghost step = Step {
        op: Op::Vacate { at, size, counter },
        reply,
        after: World { sessions: sessions@, owned },
    };
    proof {
        lemma_vacate_step(
            backend,
            session_id.0@,
            World { sessions: held, owned },
            step.after,
            at,
            size,
            counter,
            answer,
        );
    }
    (answer, Ghost(step))
}

/// Makes written code visible, as a step.
pub(crate) fn step_flush<B: MutationBackend>(
    sessions: &mut ProcessSessionRegistry<B::Handle>,
    backend: &B,
    session_id: &ProcessSessionId,
    address: &str,
    size: usize,
    Ghost(owned): Ghost<Owned<B::ThreadHandle>>,
) -> (taken: (Result<(), MutationApiError>, Ghost<Step<B::Handle, B::ThreadHandle>>))
    requires
        old(sessions).wf(),
    ensures
        final(sessions).wf(),
        old(sessions)@.leads_to(final(sessions)@),
        step_made(
            backend,
            session_id.0@,
            World { sessions: old(sessions)@, owned },
            taken.1@,
        ),
        taken.1@.op == (Op::Flush { address: address@, size }),
        taken.1@.after == (World { sessions: final(sessions)@, owned }),
        taken.1@.reply == match taken.0 {
            Ok(_) => Reply::Done,
            Err(error) => Reply::Fault { fault: error@, said: error.text() },
        },
{
    let ghost held = sessions@;
    let answer = mutation::flush_instruction_cache(sessions, backend, session_id, address, size);
    let ghost reply = done_reply(answer);
    let ghost step = Step {
        op: Op::Flush { address: address@, size },
        reply,
        after: World { sessions: sessions@, owned },
    };
    proof {
        lemma_flush_step(
            backend,
            session_id.0@,
            World { sessions: held, owned },
            step.after,
            address@,
            size,
            answer,
        );
    }
    (answer, Ghost(step))
}

/// Changes access rights, as a step.
pub(crate) fn step_protect<B: MutationBackend>(
    sessions: &mut ProcessSessionRegistry<B::Handle>,
    backend: &B,
    session_id: &ProcessSessionId,
    address: &str,
    size: usize,
    protection: MemoryProtection,
    Ghost(owned): Ghost<Owned<B::ThreadHandle>>,
) -> (taken: (Result<MemoryProtection, MutationApiError>, Ghost<Step<B::Handle, B::ThreadHandle>>))
    requires
        old(sessions).wf(),
    ensures
        final(sessions).wf(),
        old(sessions)@.leads_to(final(sessions)@),
        step_made(
            backend,
            session_id.0@,
            World { sessions: old(sessions)@, owned },
            taken.1@,
        ),
        taken.1@.op == (Op::Protect { address: address@, size, protection }),
        taken.1@.after == (World { sessions: final(sessions)@, owned }),
        taken.1@.reply == match taken.0 {
            Ok(previous) => Reply::Previous { protection: previous },
            Err(error) => Reply::Fault { fault: error@, said: error.text() },
        },
{
    let ghost held = sessions@;
    let request = MemoryProtectRequest {
        session_id: session_id.clone(),
        address: address.to_owned(),
        size,
        protection,
    };
    let answer = mutation::protect(sessions, backend, &request);
    let ghost reply = previous_reply(answer);
    let ghost step = Step {
        op: Op::Protect { address: address@, size, protection },
        reply,
        after: World { sessions: sessions@, owned },
    };
    proof {
        lemma_protect_step(
            backend,
            session_id.0@,
            World { sessions: held, owned },
            step.after,
            request,
            answer,
        );
    }
    match answer {
        Ok(response) => (Ok(response.previous_protection), Ghost(step)),
        Err(error) => (Err(error), Ghost(step)),
    }
}

/// Finds the one place where a signature occurs, as a step.
pub(crate) fn step_scan<B: MutationBackend>(
    sessions: &mut ProcessSessionRegistry<B::Handle>,
    backend: &B,
    session_id: &ProcessSessionId,
    signature: &str,
    scope: &MemoryScanScope,
    Ghost(owned): Ghost<Owned<B::ThreadHandle>>,
) -> (taken: (Result<usize, MemoryApiError>, Ghost<Step<B::Handle, B::ThreadHandle>>))
    requires
        old(sessions).wf(),
    ensures
        final(sessions).wf(),
        old(sessions)@.leads_to(final(sessions)@),
        step_made(
            backend,
            session_id.0@,
            World { sessions: old(sessions)@, owned },
            taken.1@,
        ),
        taken.1@.op == (Op::Scan { signature: signature@, scope: scope_name(*scope) }),
        taken.1@.after == (World { sessions: final(sessions)@, owned }),
        taken.1@.reply == match taken.0 {
            Ok(at) => Reply::Found { at },
            Err(error) => Reply::Fault { fault: error@, said: error.text() },
        },
{
    let request = MemoryScanRequest {
        session_id: session_id.clone(),
        signature: signature.to_owned(),
        required: true,
        unique: true,
        max_matches: 2,
        scope: scope.clone(),
    };
    let ghost held = sessions@;
    let answer = memory::scan(sessions, backend, &request);
    let ghost op = Op::Scan { signature: signature@, scope: scope_name(*scope) };
    match answer {
        Err(error) => {
            let ghost step = Step {
                op,
                reply: Reply::Fault { fault: error@, said: error.text() },
                after: World { sessions: sessions@, owned },
            };
            proof {
                lemma_scan_step(
                    backend,
                    session_id.0@,
                    World { sessions: held, owned },
                    step.after,
                    request,
                    answer,
                    step.reply,
                );
            }
            (Err(error), Ghost(step))
        },
        Ok(response) => {
            proof {
                unique_scan_answers_one_place(backend, held, request, sessions@, response);
            }
            let ghost at = choose|at: usize|
                texts(response.matches@) == seq![#[trigger] address_text(at as nat)];
            proof {
                assert(texts(response.matches@).len() == 1);
                assert(texts(response.matches@)[0] == response.matches@[0]@);
            }
            let found = read_address(response.matches[0].as_str(), Ghost(at));
            let ghost step = Step {
                op,
                reply: Reply::Found { at: found },
                after: World { sessions: sessions@, owned },
            };
            proof {
                lemma_scan_step(
                    backend,
                    session_id.0@,
                    World { sessions: held, owned },
                    step.after,
                    request,
                    answer,
                    step.reply,
                );
            }
            (Ok(found), Ghost(step))
        },
    }
}

/// Reads back an address that the agent wrote.
fn read_address(text: &str, Ghost(at): Ghost<usize>) -> (address: usize)
    requires
        text@ == address_text(at as nat),
    ensures
        address == at,
{
    proof {
        written_address_reads_back(at);
    }
    match mutation::validate_address(text) {
        Ok(address) => address,
        Err(_) => {
            proof {
                assert(false);
            }
            0
        },
    }
}

/// Allocates memory, as a step.
pub(crate) fn step_allocate<B: MutationBackend>(
    sessions: &mut ProcessSessionRegistry<B::Handle>,
    backend: &B,
    mutations: &mut MutationState<B::ThreadHandle>,
    session_id: &ProcessSessionId,
    near: Option<usize>,
    size: usize,
    protection: MemoryProtection,
) -> (taken: (
    Result<(String, usize), MutationApiError>,
    Ghost<Step<B::Handle, B::ThreadHandle>>,
))
    requires
        old(sessions).wf(),
        old(mutations).wf(),
    ensures
        final(sessions).wf(),
        final(mutations).wf(),
        old(sessions)@.leads_to(final(sessions)@),
        step_made(
            backend,
            session_id.0@,
            World { sessions: old(sessions)@, owned: old(mutations)@ },
            taken.1@,
        ),
        taken.1@.op == (Op::Allocate { near, size, protection }),
        taken.1@.after == (World { sessions: final(sessions)@, owned: final(mutations)@ }),
        taken.1@.reply == match taken.0 {
            Ok((name, at)) => Reply::Allocated { name: name@, at },
            Err(error) => Reply::Fault { fault: error@, said: error.text() },
        },
{
    let request = MemoryAllocateRequest { session_id: session_id.clone(), size, protection };
    let ghost held = sessions@;
    let ghost owned = mutations@;
    let answer = mutation::allocate_placed(sessions, backend, mutations, near, &request);
    let ghost op = Op::Allocate { near, size, protection };
    match answer {
        Err(error) => {
            let ghost step = Step {
                op,
                reply: Reply::Fault { fault: error@, said: error.text() },
                after: World { sessions: sessions@, owned: mutations@ },
            };
            proof {
                lemma_allocate_step(
                    backend,
                    session_id.0@,
                    World { sessions: held, owned },
                    step.after,
                    near,
                    request,
                    answer,
                    step.reply,
                );
            }
            (Err(error), Ghost(step))
        },
        Ok(response) => {
            let ghost at = choose|at: usize| response.address@ == #[trigger] address_text(at as nat);
            let address = read_address(response.address.as_str(), Ghost(at));
            let ghost step = Step {
                op,
                reply: Reply::Allocated { name: response.allocation_id@, at: address },
                after: World { sessions: sessions@, owned: mutations@ },
            };
            proof {
                lemma_allocate_step(
                    backend,
                    session_id.0@,
                    World { sessions: held, owned },
                    step.after,
                    near,
                    request,
                    answer,
                    step.reply,
                );
            }
            (Ok((response.allocation_id, address)), Ghost(step))
        },
    }
}

/// Releases an allocation, as a step.
pub(crate) fn step_free<B: MutationBackend>(
    sessions: &mut ProcessSessionRegistry<B::Handle>,
    backend: &B,
    mutations: &mut MutationState<B::ThreadHandle>,
    session_id: &ProcessSessionId,
    name: &str,
) -> (taken: (Result<(), MutationApiError>, Ghost<Step<B::Handle, B::ThreadHandle>>))
    requires
        old(sessions).wf(),
        old(mutations).wf(),
    ensures
        final(sessions).wf(),
        final(mutations).wf(),
        old(sessions)@.leads_to(final(sessions)@),
        step_made(
            backend,
            session_id.0@,
            World { sessions: old(sessions)@, owned: old(mutations)@ },
            taken.1@,
        ),
        taken.1@.op == (Op::Free { name: name@ }),
        taken.1@.after == (World { sessions: final(sessions)@, owned: final(mutations)@ }),
        taken.1@.reply == match taken.0 {
            Ok(_) => Reply::Done,
            Err(error) => Reply::Fault { fault: error@, said: error.text() },
        },
{
    let ghost held = sessions@;
    let ghost owned = mutations@;
    let request = MemoryFreeRequest {
        session_id: session_id.clone(),
        allocation_id: name.to_owned(),
    };
    let answer = mutation::free(sessions, backend, mutations, &request);
    let ghost reply = done_reply(answer);
    let ghost step = Step {
        op: Op::Free { name: name@ },
        reply,
        after: World { sessions: sessions@, owned: mutations@ },
    };
    proof {
        lemma_free_step(
            backend,
            session_id.0@,
            World { sessions: held, owned },
            step.after,
            request,
            answer,
        );
    }
    match answer {
        Ok(_) => (Ok(()), Ghost(step)),
        Err(error) => (Err(error), Ghost(step)),
    }
}

proof fn lemma_scan_many_step<B: MutationBackend>(
    backend: &B,
    id: Seq<char>,
    before: World<B::Handle, B::ThreadHandle>,
    after: World<B::Handle, B::ThreadHandle>,
    request: MemoryScanRequest,
    answer: Result<MemoryScanResponse, MemoryApiError>,
    reply: Reply,
)
    requires
        scan_does(backend, before.sessions, request, after.sessions, answer),
        scans_many(request, id, request.signature@, scope_name(request.scope)),
        after.owned == before.owned,
        match answer {
            Err(error) => reply == Reply::Fault { fault: error@, said: error.text() },
            Ok(response) => {
                &&& reply is Places
                &&& texts(response.matches@) == address_texts(reply->places)
            },
        },
    ensures
        step_made(
            backend,
            id,
            before,
            Step {
                op: Op::ScanMany {
                    signature: request.signature@,
                    scope: scope_name(request.scope),
                },
                reply,
                after,
            },
        ),
{
    reveal(step_made);
    let step = Step {
        op: Op::ScanMany { signature: request.signature@, scope: scope_name(request.scope) },
        reply,
        after,
    };
    assert(scan_does(backend, before.sessions, request, step.after.sessions, answer));
    assert(step_made(backend, id, before, step));
}

/// Finds the places where a signature occurs, as a step.
pub(crate) fn step_scan_many<B: MutationBackend>(
    sessions: &mut ProcessSessionRegistry<B::Handle>,
    backend: &B,
    session_id: &ProcessSessionId,
    signature: &str,
    scope: &MemoryScanScope,
    Ghost(owned): Ghost<Owned<B::ThreadHandle>>,
) -> (taken: (Result<Vec<usize>, MemoryApiError>, Ghost<Step<B::Handle, B::ThreadHandle>>))
    requires
        old(sessions).wf(),
    ensures
        final(sessions).wf(),
        old(sessions)@.leads_to(final(sessions)@),
        step_made(
            backend,
            session_id.0@,
            World { sessions: old(sessions)@, owned },
            taken.1@,
        ),
        taken.1@.op == (Op::ScanMany { signature: signature@, scope: scope_name(*scope) }),
        taken.1@.after == (World { sessions: final(sessions)@, owned }),
        taken.1@.reply == match taken.0 {
            Ok(places) => Reply::Places { places: places@ },
            Err(error) => Reply::Fault { fault: error@, said: error.text() },
        },
{
    let request = MemoryScanRequest {
        session_id: session_id.clone(),
        signature: signature.to_owned(),
        required: true,
        unique: false,
        max_matches: 64,
        scope: scope.clone(),
    };
    let ghost held = sessions@;
    let answer = memory::scan(sessions, backend, &request);
    let ghost op = Op::ScanMany { signature: signature@, scope: scope_name(*scope) };
    match answer {
        Err(error) => {
            let ghost step = Step {
                op,
                reply: Reply::Fault { fault: error@, said: error.text() },
                after: World { sessions: sessions@, owned },
            };
            proof {
                lemma_scan_many_step(
                    backend,
                    session_id.0@,
                    World { sessions: held, owned },
                    step.after,
                    request,
                    answer,
                    step.reply,
                );
            }
            (Err(error), Ghost(step))
        },
        Ok(response) => {
            proof {
                scans_answer_places(backend, held, request, sessions@, response);
            }
            let ghost places = choose|places: Seq<usize>|
                texts(response.matches@) == #[trigger] address_texts(places);
            let mut found: Vec<usize> = Vec::new();
            let mut i: usize = 0;
            proof {
                assert(texts(response.matches@).len() == response.matches@.len());
                assert(address_texts(places).len() == places.len());
            }
            while i < response.matches.len()
                invariant
                    i <= response.matches@.len(),
                    texts(response.matches@) == address_texts(places),
                    response.matches@.len() == places.len(),
                    found@ == places.take(i as int),
                decreases response.matches@.len() - i,
            {
                proof {
                    assert(texts(response.matches@)[i as int] == response.matches@[i as int]@);
                    assert(address_texts(places)[i as int] == address_text(
                        places[i as int] as nat,
                    ));
                }
                let address: usize = read_address(
                    response.matches[i].as_str(),
                    Ghost(places[i as int]),
                );
                found.push(address);
                proof {
                    assert(places.take(i + 1) =~= places.take(i as int).push(address));
                }
                i += 1;
            }
            let ghost step = Step {
                op,
                reply: Reply::Places { places: found@ },
                after: World { sessions: sessions@, owned },
            };
            proof {
                assert(found@ =~= places);
                lemma_scan_many_step(
                    backend,
                    session_id.0@,
                    World { sessions: held, owned },
                    step.after,
                    request,
                    answer,
                    step.reply,
                );
            }
            (Ok(found), Ghost(step))
        },
    }
}

proof fn lemma_scan_each_step<B: MutationBackend>(
    backend: &B,
    id: Seq<char>,
    before: World<B::Handle, B::ThreadHandle>,
    after: World<B::Handle, B::ThreadHandle>,
    scope: MemoryScanScope,
    signatures: Seq<Seq<char>>,
    answer: Result<Vec<Option<usize>>, MemoryApiError>,
)
    requires
        unique_scan_does(
            backend,
            before.sessions,
            id,
            scope,
            signatures,
            after.sessions,
            answer,
        ),
        after.owned == before.owned,
    ensures
        step_made(
            backend,
            id,
            before,
            Step {
                op: Op::ScanEach { signatures, scope: scope_name(scope) },
                reply: each_reply(answer),
                after,
            },
        ),
{
    reveal(step_made);
    let step = Step {
        op: Op::ScanEach { signatures, scope: scope_name(scope) },
        reply: each_reply(answer),
        after,
    };
    assert(unique_scan_does(
        backend,
        before.sessions,
        id,
        scope,
        step.op->signatures,
        step.after.sessions,
        answer,
    ));
    assert(step_made(backend, id, before, step));
}

/// Finds the one place, if there is one, of each of several signatures, as a step.
pub(crate) fn step_scan_each<B: MutationBackend>(
    sessions: &mut ProcessSessionRegistry<B::Handle>,
    backend: &B,
    session_id: &ProcessSessionId,
    signatures: &[&str],
    scope: &MemoryScanScope,
    Ghost(owned): Ghost<Owned<B::ThreadHandle>>,
) -> (taken: (
    Result<Vec<Option<usize>>, MemoryApiError>,
    Ghost<Step<B::Handle, B::ThreadHandle>>,
))
    requires
        old(sessions).wf(),
    ensures
        final(sessions).wf(),
        old(sessions)@.leads_to(final(sessions)@),
        step_made(
            backend,
            session_id.0@,
            World { sessions: old(sessions)@, owned },
            taken.1@,
        ),
        taken.1@.op == (Op::ScanEach {
            signatures: contents(signatures@),
            scope: scope_name(*scope),
        }),
        taken.1@.after == (World { sessions: final(sessions)@, owned }),
        taken.1@.reply == each_reply(taken.0),
{
    let ghost held = sessions@;
    let answer = memory::scan_optional_unique_signatures(
        sessions,
        backend,
        session_id,
        scope,
        signatures,
    );
    let ghost step = Step {
        op: Op::ScanEach { signatures: contents(signatures@), scope: scope_name(*scope) },
        reply: each_reply(answer),
        after: World { sessions: sessions@, owned },
    };
    proof {
        lemma_scan_each_step(
            backend,
            session_id.0@,
            World { sessions: held, owned },
            step.after,
            *scope,
            contents(signatures@),
            answer,
        );
    }
    (answer, Ghost(step))
}

proof fn lemma_modules_step<B: MutationBackend>(
    backend: &B,
    id: Seq<char>,
    before: World<B::Handle, B::ThreadHandle>,
    after: World<B::Handle, B::ThreadHandle>,
    answer: Result<ListModulesResponse, ProcessApiError>,
)
    requires
        modules_do(backend, before.sessions, id, after.sessions, answer),
        after.owned == before.owned,
    ensures
        step_made(
            backend,
            id,
            before,
            Step { op: Op::ListModules, reply: modules_reply(answer), after },
        ),
{
    reveal(step_made);
    let step = Step { op: Op::ListModules, reply: modules_reply(answer), after };
    assert(modules_do(backend, before.sessions, id, step.after.sessions, answer));
    assert(step_made(backend, id, before, step));
}

/// Lists the modules of the process, as a step.
pub(crate) fn step_modules<B: MutationBackend>(
    sessions: &mut ProcessSessionRegistry<B::Handle>,
    backend: &B,
    session_id: &ProcessSessionId,
    Ghost(owned): Ghost<Owned<B::ThreadHandle>>,
) -> (taken: (
    Result<Vec<ModuleDescriptor>, ProcessApiError>,
    Ghost<Step<B::Handle, B::ThreadHandle>>,
))
    requires
        old(sessions).wf(),
    ensures
        final(sessions).wf(),
        old(sessions)@.leads_to(final(sessions)@),
        step_made(
            backend,
            session_id.0@,
            World { sessions: old(sessions)@, owned },
            taken.1@,
        ),
        taken.1@.op == Op::ListModules,
        taken.1@.after == (World { sessions: final(sessions)@, owned }),
        taken.1@.reply == match taken.0 {
            Ok(modules) => Reply::Modules { modules: modules@ },
            Err(error) => Reply::Fault { fault: error@, said: process_error_text(error@) },
        },
{
    let ghost held = sessions@;
    let answer = sessions.modules(backend, session_id);
    let ghost step = Step {
        op: Op::ListModules,
        reply: modules_reply(answer),
        after: World { sessions: sessions@, owned },
    };
    proof {
        assert(modules_do(backend, held, session_id.0@, sessions@, answer));
        lemma_modules_step(
            backend,
            session_id.0@,
            World { sessions: held, owned },
            step.after,
            answer,
        );
    }
    match answer {
        Ok(response) => (Ok(response.modules), Ghost(step)),
        Err(error) => (Err(error), Ghost(step)),
    }
}

proof fn lemma_status_step<B: MutationBackend>(
    backend: &B,
    id: Seq<char>,
    before: World<B::Handle, B::ThreadHandle>,
    after: World<B::Handle, B::ThreadHandle>,
    outcome: Result<(), ProcessBackendError>,
    reply: Reply,
)
    requires
        checked(backend, before.sessions, id, outcome),
        status_ends(before.sessions, id, outcome, after.sessions, reply),
        after.owned == before.owned,
    ensures
        step_made(backend, id, before, Step { op: Op::Status, reply, after }),
{
    reveal(step_made);
    let step = Step { op: Op::Status, reply, after };
    assert(checked(backend, before.sessions, id, outcome));
    assert(step_made(backend, id, before, step));
}

/// Asks whether the process of a session is still there, as a step.
pub(crate) fn step_status<B: MutationBackend>(
    sessions: &mut ProcessSessionRegistry<B::Handle>,
    backend: &B,
    session_id: &ProcessSessionId,
    Ghost(owned): Ghost<Owned<B::ThreadHandle>>,
) -> (taken: (Result<(), ProcessApiError>, Ghost<Step<B::Handle, B::ThreadHandle>>))
    requires
        old(sessions).wf(),
    ensures
        final(sessions).wf(),
        old(sessions)@.leads_to(final(sessions)@),
        step_made(
            backend,
            session_id.0@,
            World { sessions: old(sessions)@, owned },
            taken.1@,
        ),
        taken.1@.op == Op::Status,
        taken.1@.after == (World { sessions: final(sessions)@, owned }),
        taken.1@.reply == match taken.0 {
            Ok(_) => Reply::Done,
            Err(error) => Reply::Fault { fault: error@, said: process_error_text(error@) },
        },
{
    let ghost held = sessions@;
    let answer = sessions.status(backend, session_id);
    let ghost reply = status_reply(answer);
    let ghost step = Step {
        op: Op::Status,
        reply,
        after: World { sessions: sessions@, owned },
    };
    proof {
        let outcome = choose|outcome: Result<(), ProcessBackendError>| #[trigger]
            checked(backend, held, session_id.0@, outcome) && ({
                let (later, fault) = after_ensure_live(held, session_id.0@, outcome);
                sessions@ == later && reports(answer, fault)
            });
        lemma_status_step(
            backend,
            session_id.0@,
            World { sessions: held, owned },
            step.after,
            outcome,
            reply,
        );
    }
    match answer {
        Ok(_) => (Ok(()), Ghost(step)),
        Err(error) => (Err(error), Ghost(step)),
    }
}

/// A look into memory that was answered found nothing running in it: the threads could be
/// suspended, none of them stood inside, the counter of calls was zero, and the threads
/// went on.
pub proof fn answered_looks_found_nothing<B: MutationBackend>(
    backend: &B,
    id: Seq<char>,
    before: World<B::Handle, B::ThreadHandle>,
    step: Step<B::Handle, B::ThreadHandle>,
    at: usize,
    size: usize,
    counter: usize,
)
    requires
        step_made(backend, id, before, step),
        step.op == (Op::Vacate { at, size, counter }),
        !(step.reply is Fault),
    ensures
        before.sessions.is_open(id),
        exists|stopped: SuspendedProcess, bytes: Vec<u8>|
            {
                &&& #[trigger] call_ensures(
                    B::suspend_process_threads,
                    (backend, &before.sessions.handle(id)),
                    Ok(stopped),
                )
                &&& !stopped.executes(at, size)
                &&& #[trigger] call_ensures(
                    B::read_memory,
                    (backend, &before.sessions.handle(id), counter, 8usize),
                    Ok(bytes),
                )
                &&& is_zero_counter(bytes@)
                &&& stopped.answers(Ok(()))
            },
{
    reveal(step_made);
    let answer = choose|answer: Result<(), MutationApiError>|
        {
            &&& #[trigger] quiet_does(
                backend,
                before.sessions,
                id,
                at,
                size,
                counter,
                step.after.sessions,
                answer,
            )
            &&& step.reply == done_reply(answer)
        };
    let handle = before.sessions.handle(id);
    let around = choose|around: Around<Occupancy>|
        {
            &&& #[trigger] quiet_calls(backend, before.sessions, id, at, size, counter, around)
            &&& around.value == Ok::<Occupancy, ProcessBackendError>(Occupancy::Vacant)
            &&& admits_effect(before.sessions, id, around.before)
        };
    assert(occupied(backend, &handle, at, size, counter, around.value));
    let (identity, calls) = choose|identity: ProcessIdentity, calls: Calls|
        {
            &&& #[trigger] calls_made(backend, handle, identity, calls)
            &&& looked(calls, at, size, counter, around.value)
        };
    let stopped = suspend_of(calls, 0)->Ok_0;
    reveal(call_made);
    assert(call_made(backend, handle, identity, calls[0]));
    assert(call_made(backend, handle, identity, calls[1]));
    assert(call_made(backend, handle, identity, calls[2]));
    let suspended = choose|outcome: Result<SuspendedProcess, ProcessBackendError>|
        {
            &&& #[trigger] call_ensures(B::suspend_process_threads, (backend, &handle), outcome)
            &&& calls[0].answer == suspend_answer(outcome)
        };
    assert(suspended == Ok::<SuspendedProcess, ProcessBackendError>(stopped));
    let read = choose|outcome: Result<Vec<u8>, ProcessBackendError>|
        {
            &&& #[trigger] call_ensures(B::read_memory, (backend, &handle, counter, 8usize), outcome)
            &&& calls[1].answer == read_answer(outcome)
        };
    assert(read == Ok::<Vec<u8>, ProcessBackendError>(read->Ok_0));
    assert(went_on(stopped, Answer::Done));
    lemma_went_on(stopped);
}

/// The sessions after an effect: one that is still open is as it was.
pub open spec fn keeps_session<H>(before: Sessions<H>, after: Sessions<H>, id: Seq<char>) -> bool {
    after.is_open(id) ==> before.is_open(id) && after.sessions[id] == before.sessions[id]
}

/// A step that undoes something leaves the session as it was, or closed to further steps.
pub(crate) proof fn lemma_keeps_session<B: MutationBackend>(
    backend: &B,
    id: Seq<char>,
    before: World<B::Handle, B::ThreadHandle>,
    step: Step<B::Handle, B::ThreadHandle>,
)
    requires
        step_made(backend, id, before, step),
        step.op is Write || step.op is Flush || step.op is Protect || step.op is Vacate
            || step.op is Free,
    ensures
        keeps_session(before.sessions, step.after.sessions, id),
{
    reveal(step_made);
}

/// A release that was answered leaves nothing of the allocation with the session.
pub(crate) proof fn lemma_freed<B: MutationBackend>(
    backend: &B,
    id: Seq<char>,
    before: World<B::Handle, B::ThreadHandle>,
    step: Step<B::Handle, B::ThreadHandle>,
    name: Seq<char>,
)
    requires
        step_made(backend, id, before, step),
        step.op == (Op::Free { name }),
        !(step.reply is Fault),
    ensures
        !step.after.owned.of(id).allocations.dom().contains(name),
{
    reveal(step_made);
    let (request, answer) = choose|
        request: MemoryFreeRequest,
        answer: Result<MemoryFreeResponse, MutationApiError>,
    |
        {
            &&& #[trigger] free_does(
                backend,
                before.sessions,
                before.owned,
                request,
                step.after.sessions,
                step.after.owned,
                answer,
            )
            &&& request.session_id.0@ == id
            &&& request.allocation_id@ == name
            &&& step.reply == done_reply(answer)
        };
    let calls = choose|calls: FreeCalls|
        {
            &&& #[trigger] free_made(backend, before.sessions, before.owned, id, name, calls)
            &&& free_outcome(before.sessions, before.owned, id, name, calls).1 == step.after.owned
            &&& free_outcome(before.sessions, before.owned, id, name, calls).2 is Ok
        };
    let holds = after_polls(before.owned.of(id), calls.ids, calls.polls).0;
    before.owned.lemma_with(id, released(holds, name));
}

}
