//! Calls of the platform on one process that are looked back on.

use vstd::prelude::*;

use crate::backend::{
    MutationBackend, ProcessBackendError, ProcessBackendErrorKind, StartedRemoteThread,
    SuspendedProcess,
};
use crate::protocol::{MemoryProtection, ModuleDescriptor, ProcessIdentity};

verus! {

/// A call on one process.
pub ghost enum Wish {
    Validate,
    Modules,
    Read { at: usize, size: usize },
    Write { at: usize, bytes: Seq<u8> },
    Allocate { size: usize, protection: MemoryProtection },
    AllocateNear { target: usize, size: usize, protection: MemoryProtection },
    Protect { at: usize, size: usize, protection: MemoryProtection },
    Flush { at: usize, size: usize },
    Free { at: usize },
    Suspend,
    Resume { stopped: SuspendedProcess },
    Start { at: usize, parameter: Option<usize> },
}

/// What the platform says of a call that failed.
pub ghost struct Fault {
    pub kind: ProcessBackendErrorKind,
    pub message: Seq<char>,
    pub native: Option<i32>,
}

/// An error of the platform, as it counts.
pub open spec fn fault_of(error: ProcessBackendError) -> Fault {
    Fault { kind: error.kind, message: error.message@, native: error.native_code }
}

/// What a call answered.
pub ghost enum Answer {
    Fault { fault: Fault },
    Done,
    Modules { modules: Seq<ModuleDescriptor> },
    Bytes { bytes: Seq<u8> },
    Address { at: usize },
    Earlier { protection: MemoryProtection },
    Threads { stopped: SuspendedProcess },
    Started { id: u32 },
}

/// A call and its answer.
pub ghost struct Call {
    pub wish: Wish,
    pub answer: Answer,
}

/// Calls, one after the other.
pub type Calls = Seq<Call>;

/// The answer to a call.
pub open spec fn done_answer(outcome: Result<(), ProcessBackendError>) -> Answer {
    match outcome {
        Ok(_) => Answer::Done,
        Err(error) => Answer::Fault { fault: fault_of(error) },
    }
}

/// The answer to a call.
pub open spec fn modules_answer(outcome: Result<Vec<ModuleDescriptor>, ProcessBackendError>) -> Answer {
    match outcome {
        Ok(value) => Answer::Modules { modules: value@ },
        Err(error) => Answer::Fault { fault: fault_of(error) },
    }
}

/// The answer to a call.
pub open spec fn read_answer(outcome: Result<Vec<u8>, ProcessBackendError>) -> Answer {
    match outcome {
        Ok(value) => Answer::Bytes { bytes: value@ },
        Err(error) => Answer::Fault { fault: fault_of(error) },
    }
}

/// The answer to a call.
pub open spec fn address_answer(outcome: Result<usize, ProcessBackendError>) -> Answer {
    match outcome {
        Ok(value) => Answer::Address { at: value },
        Err(error) => Answer::Fault { fault: fault_of(error) },
    }
}

/// The answer to a call.
pub open spec fn protect_answer(outcome: Result<MemoryProtection, ProcessBackendError>) -> Answer {
    match outcome {
        Ok(value) => Answer::Earlier { protection: value },
        Err(error) => Answer::Fault { fault: fault_of(error) },
    }
}

/// The answer to a call.
pub open spec fn suspend_answer(outcome: Result<SuspendedProcess, ProcessBackendError>) -> Answer {
    match outcome {
        Ok(value) => Answer::Threads { stopped: value },
        Err(error) => Answer::Fault { fault: fault_of(error) },
    }
}

/// The answer to a call.
pub open spec fn start_answer<T>(
    outcome: Result<StartedRemoteThread<T>, ProcessBackendError>,
) -> Answer {
    match outcome {
        Ok(value) => Answer::Started { id: value.thread_id },
        Err(error) => Answer::Fault { fault: fault_of(error) },
    }
}

/// Suspended threads were let go on, and it was answered so.
pub open spec fn went_on(stopped: SuspendedProcess, answer: Answer) -> bool {
    exists|outcome: Result<(), ProcessBackendError>|
        {
            &&& #[trigger] stopped.answers(outcome)
            &&& answer == done_answer(outcome)
        }
}

/// Threads that went on without a fault were let go by the one that had them.
pub(crate) proof fn lemma_went_on(stopped: SuspendedProcess)
    requires
        went_on(stopped, Answer::Done),
    ensures
        stopped.answers(Ok(())),
{
    let outcome = choose|outcome: Result<(), ProcessBackendError>|
        {
            &&& #[trigger] stopped.answers(outcome)
            &&& Answer::Done == done_answer(outcome)
        };
    match outcome {
        Ok(unit) => {
            assert(unit == ());
        },
        Err(_) => {},
    }
}

/// The call was made on the process with this handle and identity, and answered so.
#[verifier::opaque]
pub open spec fn call_made<B: MutationBackend>(
    backend: &B,
    handle: B::Handle,
    identity: ProcessIdentity,
    call: Call,
) -> bool {
    match call.wish {
        Wish::Validate => exists|outcome: Result<(), ProcessBackendError>|
            {
                &&& #[trigger] call_ensures(B::validate_process, (backend, &handle, &identity), outcome)
                &&& call.answer == done_answer(outcome)
            },
        Wish::Modules => exists|outcome: Result<Vec<ModuleDescriptor>, ProcessBackendError>|
            {
                &&& #[trigger] call_ensures(B::enumerate_modules, (backend, &handle, &identity), outcome)
                &&& call.answer == modules_answer(outcome)
            },
        Wish::Read { at, size } => exists|outcome: Result<Vec<u8>, ProcessBackendError>|
            {
                &&& #[trigger] call_ensures(B::read_memory, (backend, &handle, at, size), outcome)
                &&& call.answer == read_answer(outcome)
            },
        Wish::Write { at, bytes } => exists|outcome: Result<(), ProcessBackendError>, given: &[u8]|
            {
                &&& #[trigger] call_ensures(B::write_memory, (backend, &handle, at, given), outcome)
                &&& given@ == bytes
                &&& call.answer == done_answer(outcome)
            },
        Wish::Allocate { size, protection } => exists|outcome: Result<usize, ProcessBackendError>|
            {
                &&& #[trigger] call_ensures(
                    B::allocate_memory,
                    (backend, &handle, size, protection),
                    outcome,
                )
                &&& call.answer == address_answer(outcome)
            },
        Wish::AllocateNear { target, size, protection } => exists|outcome: Result<usize, ProcessBackendError>|
            {
                &&& #[trigger] call_ensures(
                    B::allocate_memory_near,
                    (backend, &handle, target, size, protection),
                    outcome,
                )
                &&& call.answer == address_answer(outcome)
            },
        Wish::Protect { at, size, protection } => exists|outcome: Result<MemoryProtection, ProcessBackendError>|
            {
                &&& #[trigger] call_ensures(
                    B::protect_memory,
                    (backend, &handle, at, size, protection),
                    outcome,
                )
                &&& call.answer == protect_answer(outcome)
            },
        Wish::Flush { at, size } => exists|outcome: Result<(), ProcessBackendError>|
            {
                &&& #[trigger] call_ensures(
                    B::flush_instruction_cache,
                    (backend, &handle, at, size),
                    outcome,
                )
                &&& call.answer == done_answer(outcome)
            },
        Wish::Free { at } => exists|outcome: Result<(), ProcessBackendError>|
            {
                &&& #[trigger] call_ensures(B::free_memory, (backend, &handle, at), outcome)
                &&& call.answer == done_answer(outcome)
            },
        Wish::Suspend => exists|outcome: Result<SuspendedProcess, ProcessBackendError>|
            {
                &&& #[trigger] call_ensures(B::suspend_process_threads, (backend, &handle), outcome)
                &&& call.answer == suspend_answer(outcome)
            },
        Wish::Resume { stopped } => went_on(stopped, call.answer),
        Wish::Start { at, parameter } => exists|
            outcome: Result<StartedRemoteThread<B::ThreadHandle>, ProcessBackendError>,
        |
            {
                &&& #[trigger] call_ensures(
                    B::start_remote_thread,
                    (backend, &handle, at, parameter),
                    outcome,
                )
                &&& call.answer == start_answer(outcome)
            },
    }
}

/// Calls that were made one after the other.
pub open spec fn calls_made<B: MutationBackend>(
    backend: &B,
    handle: B::Handle,
    identity: ProcessIdentity,
    calls: Calls,
) -> bool {
    forall|i: int|
        0 <= i < calls.len() ==> call_made(backend, handle, identity, #[trigger] calls[i])
}

/// Calls that go on from others.
pub open spec fn goes_on(calls: Calls, longer: Calls) -> bool {
    calls.len() <= longer.len() && longer.take(calls.len() as int) == calls
}

/// What a call at a place answered, if it was this one.
pub open spec fn validated(calls: Calls, k: int) -> Result<(), Fault> {
    if calls[k].wish == Wish::Validate {
        match calls[k].answer {
            Answer::Done => Ok(()),
            Answer::Fault { fault } => Err(fault),
            _ => arbitrary(),
        }
    } else {
        arbitrary()
    }
}

/// What a call at a place answered, if it was this one.
pub open spec fn modules_of(calls: Calls, k: int) -> Result<Seq<ModuleDescriptor>, Fault> {
    if calls[k].wish == Wish::Modules {
        match calls[k].answer {
            Answer::Modules { modules } => Ok(modules),
            Answer::Fault { fault } => Err(fault),
            _ => arbitrary(),
        }
    } else {
        arbitrary()
    }
}

/// What a call at a place answered, if it was this one.
pub open spec fn read_of(calls: Calls, k: int, at: usize, size: usize) -> Result<Seq<u8>, Fault> {
    if calls[k].wish == (Wish::Read { at, size }) {
        match calls[k].answer {
            Answer::Bytes { bytes } => Ok(bytes),
            Answer::Fault { fault } => Err(fault),
            _ => arbitrary(),
        }
    } else {
        arbitrary()
    }
}

/// What a call at a place answered, if it was this one.
pub open spec fn write_of(calls: Calls, k: int, at: usize, bytes: Seq<u8>) -> Result<(), Fault> {
    if calls[k].wish == (Wish::Write { at, bytes }) {
        match calls[k].answer {
            Answer::Done => Ok(()),
            Answer::Fault { fault } => Err(fault),
            _ => arbitrary(),
        }
    } else {
        arbitrary()
    }
}

/// What a call at a place answered, if it was this one.
pub open spec fn allocate_of(
    calls: Calls,
    k: int,
    size: usize,
    protection: MemoryProtection,
) -> Result<usize, Fault> {
    if calls[k].wish == (Wish::Allocate { size, protection }) {
        match calls[k].answer {
            Answer::Address { at } => Ok(at),
            Answer::Fault { fault } => Err(fault),
            _ => arbitrary(),
        }
    } else {
        arbitrary()
    }
}

/// What a call at a place answered, if it was this one.
pub open spec fn allocate_near_of(
    calls: Calls,
    k: int,
    target: usize,
    size: usize,
    protection: MemoryProtection,
) -> Result<usize, Fault> {
    if calls[k].wish == (Wish::AllocateNear { target, size, protection }) {
        match calls[k].answer {
            Answer::Address { at } => Ok(at),
            Answer::Fault { fault } => Err(fault),
            _ => arbitrary(),
        }
    } else {
        arbitrary()
    }
}

/// What a call at a place answered, if it was this one.
pub open spec fn protect_of(
    calls: Calls,
    k: int,
    at: usize,
    size: usize,
    protection: MemoryProtection,
) -> Result<MemoryProtection, Fault> {
    if calls[k].wish == (Wish::Protect { at, size, protection }) {
        match calls[k].answer {
            Answer::Earlier { protection: earlier } => Ok(earlier),
            Answer::Fault { fault } => Err(fault),
            _ => arbitrary(),
        }
    } else {
        arbitrary()
    }
}

/// What a call at a place answered, if it was this one.
pub open spec fn flush_of(calls: Calls, k: int, at: usize, size: usize) -> Result<(), Fault> {
    if calls[k].wish == (Wish::Flush { at, size }) {
        match calls[k].answer {
            Answer::Done => Ok(()),
            Answer::Fault { fault } => Err(fault),
            _ => arbitrary(),
        }
    } else {
        arbitrary()
    }
}

/// What a call at a place answered, if it was this one.
pub open spec fn free_of(calls: Calls, k: int, at: usize) -> Result<(), Fault> {
    if calls[k].wish == (Wish::Free { at }) {
        match calls[k].answer {
            Answer::Done => Ok(()),
            Answer::Fault { fault } => Err(fault),
            _ => arbitrary(),
        }
    } else {
        arbitrary()
    }
}

/// What a call at a place answered, if it was this one.
pub open spec fn suspend_of(calls: Calls, k: int) -> Result<SuspendedProcess, Fault> {
    if calls[k].wish == Wish::Suspend {
        match calls[k].answer {
            Answer::Threads { stopped } => Ok(stopped),
            Answer::Fault { fault } => Err(fault),
            _ => arbitrary(),
        }
    } else {
        arbitrary()
    }
}

/// What a call at a place answered, if it was this one.
pub open spec fn resume_of(calls: Calls, k: int, stopped: SuspendedProcess) -> Result<(), Fault> {
    if calls[k].wish == (Wish::Resume { stopped }) {
        match calls[k].answer {
            Answer::Done => Ok(()),
            Answer::Fault { fault } => Err(fault),
            _ => arbitrary(),
        }
    } else {
        arbitrary()
    }
}

/// An outcome of a call that agrees with what was looked back on.
pub open spec fn agrees<T>(outcome: Result<T, ProcessBackendError>, seen: Result<T, Fault>) -> bool {
    match (outcome, seen) {
        (Ok(value), Ok(expected)) => value == expected,
        (Err(error), Err(fault)) => fault_of(error) == fault,
        _ => false,
    }
}

/// The same, for a list.
pub open spec fn lists_as<T>(
    outcome: Result<Vec<T>, ProcessBackendError>,
    seen: Result<Seq<T>, Fault>,
) -> bool {
    match (outcome, seen) {
        (Ok(value), Ok(expected)) => value@ == expected,
        (Err(error), Err(fault)) => fault_of(error) == fault,
        _ => false,
    }
}

/// Calls of the platform on one process, with what they answered.
pub struct Caller<'a, B: MutationBackend> {
    backend: &'a B,
    handle: Ghost<B::Handle>,
    identity: Ghost<ProcessIdentity>,
    calls: Ghost<Calls>,
}

impl<'a, B: MutationBackend> Caller<'a, B> {
    /// The calls so far.
    pub closed spec fn calls(&self) -> Calls {
        self.calls@
    }

    /// The backend.
    pub closed spec fn backend(&self) -> &B {
        self.backend
    }

    /// The handle of the process.
    pub closed spec fn handle(&self) -> B::Handle {
        self.handle@
    }

    /// The identity of the process.
    pub closed spec fn identity(&self) -> ProcessIdentity {
        self.identity@
    }

    /// The calls were made.
    pub open spec fn sound(&self) -> bool {
        calls_made(self.backend(), self.handle(), self.identity(), self.calls())
    }

    /// The same caller after more calls.
    pub open spec fn leads_to(&self, later: &Self) -> bool {
        &&& later.backend() == self.backend()
        &&& later.handle() == self.handle()
        &&& later.identity() == self.identity()
        &&& goes_on(self.calls(), later.calls())
        &&& later.sound()
    }

    pub(crate) fn new(
        backend: &'a B,
        Ghost(handle): Ghost<B::Handle>,
        Ghost(identity): Ghost<ProcessIdentity>,
    ) -> (caller: Self)
        ensures
            caller.sound(),
            caller.calls() == Seq::<Call>::empty(),
            caller.backend() == backend,
            caller.handle() == handle,
            caller.identity() == identity,
    {
        Caller {
            backend,
            handle: Ghost(handle),
            identity: Ghost(identity),
            calls: Ghost(Seq::empty()),
        }
    }

    pub(crate) fn validate(
        &mut self,
        handle: &B::Handle,
        identity: &ProcessIdentity,
    ) -> (outcome: Result<(), ProcessBackendError>)
        requires
            old(self).sound(),
            *handle == old(self).handle(),
            *identity == old(self).identity(),
        ensures
            old(self).leads_to(final(self)),
            final(self).calls().len() == old(self).calls().len() + 1,
            forall|calls: Calls| #[trigger]
                goes_on(final(self).calls(), calls) ==> agrees(
                    outcome,
                    validated(calls, old(self).calls().len() as int),
                ),
    {
        let outcome = self.backend.validate_process(handle, identity);
        let ghost call = Call { wish: Wish::Validate, answer: done_answer(outcome) };
        proof {
            reveal(call_made);
            assert(call_ensures(
                B::validate_process,
                (self.backend, handle, identity),
                outcome,
            ));
            assert(call_made(self.backend(), self.handle@, self.identity@, call));
            lemma_one_more(self.backend(), self.handle@, self.identity@, self.calls@, call);
        }
        self.calls = Ghost(self.calls@.push(call));
        outcome
    }

    pub(crate) fn modules(
        &mut self,
        handle: &B::Handle,
        identity: &ProcessIdentity,
    ) -> (outcome: Result<Vec<ModuleDescriptor>, ProcessBackendError>)
        requires
            old(self).sound(),
            *handle == old(self).handle(),
            *identity == old(self).identity(),
        ensures
            old(self).leads_to(final(self)),
            final(self).calls().len() == old(self).calls().len() + 1,
            forall|calls: Calls| #[trigger]
                goes_on(final(self).calls(), calls) ==> lists_as(
                    outcome,
                    modules_of(calls, old(self).calls().len() as int),
                ),
    {
        let outcome = self.backend.enumerate_modules(handle, identity);
        let ghost call = Call { wish: Wish::Modules, answer: modules_answer(outcome) };
        proof {
            reveal(call_made);
            assert(call_ensures(
                B::enumerate_modules,
                (self.backend, handle, identity),
                outcome,
            ));
            assert(call_made(self.backend(), self.handle@, self.identity@, call));
            lemma_one_more(self.backend(), self.handle@, self.identity@, self.calls@, call);
        }
        self.calls = Ghost(self.calls@.push(call));
        outcome
    }

    pub(crate) fn read(
        &mut self,
        handle: &B::Handle,
        at: usize,
        size: usize,
    ) -> (outcome: Result<Vec<u8>, ProcessBackendError>)
        requires
            old(self).sound(),
            *handle == old(self).handle(),
        ensures
            old(self).leads_to(final(self)),
            final(self).calls().len() == old(self).calls().len() + 1,
            final(self).calls() == old(self).calls().push(
                (Call { wish: Wish::Read { at, size }, answer: read_answer(outcome) }),
            ),
            forall|calls: Calls| #[trigger]
                goes_on(final(self).calls(), calls) ==> lists_as(
                    outcome,
                    read_of(calls, old(self).calls().len() as int, at, size),
                ),
    {
        let outcome = self.backend.read_memory(handle, at, size);
        let ghost call = Call { wish: Wish::Read { at, size }, answer: read_answer(outcome) };
        proof {
            reveal(call_made);
            assert(call_ensures(
                B::read_memory,
                (self.backend, handle, at, size),
                outcome,
            ));
            assert(call_made(self.backend(), self.handle@, self.identity@, call));
            lemma_one_more(self.backend(), self.handle@, self.identity@, self.calls@, call);
        }
        self.calls = Ghost(self.calls@.push(call));
        outcome
    }

    pub(crate) fn write(
        &mut self,
        handle: &B::Handle,
        at: usize,
        bytes: &[u8],
    ) -> (outcome: Result<(), ProcessBackendError>)
        requires
            old(self).sound(),
            *handle == old(self).handle(),
        ensures
            old(self).leads_to(final(self)),
            final(self).calls().len() == old(self).calls().len() + 1,
            forall|calls: Calls| #[trigger]
                goes_on(final(self).calls(), calls) ==> agrees(
                    outcome,
                    write_of(calls, old(self).calls().len() as int, at, bytes@),
                ),
    {
        let outcome = self.backend.write_memory(handle, at, bytes);
        let ghost call = Call { wish: Wish::Write { at, bytes: bytes@ }, answer: done_answer(outcome) };
        proof {
            reveal(call_made);
            assert(call_ensures(
                B::write_memory,
                (self.backend, handle, at, bytes),
                outcome,
            ));
            assert(call_made(self.backend(), self.handle@, self.identity@, call));
            lemma_one_more(self.backend(), self.handle@, self.identity@, self.calls@, call);
        }
        self.calls = Ghost(self.calls@.push(call));
        outcome
    }

    pub(crate) fn allocate(
        &mut self,
        handle: &B::Handle,
        size: usize,
        protection: MemoryProtection,
    ) -> (outcome: Result<usize, ProcessBackendError>)
        requires
            old(self).sound(),
            *handle == old(self).handle(),
        ensures
            old(self).leads_to(final(self)),
            final(self).calls().len() == old(self).calls().len() + 1,
            forall|calls: Calls| #[trigger]
                goes_on(final(self).calls(), calls) ==> agrees(
                    outcome,
                    allocate_of(calls, old(self).calls().len() as int, size, protection),
                ),
    {
        let outcome = self.backend.allocate_memory(handle, size, protection);
        let ghost call = Call { wish: Wish::Allocate { size, protection }, answer: address_answer(outcome) };
        proof {
            reveal(call_made);
            assert(call_ensures(
                B::allocate_memory,
                (self.backend, handle, size, protection),
                outcome,
            ));
            assert(call_made(self.backend(), self.handle@, self.identity@, call));
            lemma_one_more(self.backend(), self.handle@, self.identity@, self.calls@, call);
        }
        self.calls = Ghost(self.calls@.push(call));
        outcome
    }

    pub(crate) fn allocate_near(
        &mut self,
        handle: &B::Handle,
        target: usize,
        size: usize,
        protection: MemoryProtection,
    ) -> (outcome: Result<usize, ProcessBackendError>)
        requires
            old(self).sound(),
            *handle == old(self).handle(),
        ensures
            old(self).leads_to(final(self)),
            final(self).calls().len() == old(self).calls().len() + 1,
            forall|calls: Calls| #[trigger]
                goes_on(final(self).calls(), calls) ==> agrees(
                    outcome,
                    allocate_near_of(calls, old(self).calls().len() as int, target, size, protection),
                ),
    {
        let outcome = self.backend.allocate_memory_near(handle, target, size, protection);
        let ghost call = Call { wish: Wish::AllocateNear { target, size, protection }, answer: address_answer(outcome) };
        proof {
            reveal(call_made);
            assert(call_ensures(
                B::allocate_memory_near,
                (self.backend, handle, target, size, protection),
                outcome,
            ));
            assert(call_made(self.backend(), self.handle@, self.identity@, call));
            lemma_one_more(self.backend(), self.handle@, self.identity@, self.calls@, call);
        }
        self.calls = Ghost(self.calls@.push(call));
        outcome
    }

    pub(crate) fn protect(
        &mut self,
        handle: &B::Handle,
        at: usize,
        size: usize,
        protection: MemoryProtection,
    ) -> (outcome: Result<MemoryProtection, ProcessBackendError>)
        requires
            old(self).sound(),
            *handle == old(self).handle(),
        ensures
            old(self).leads_to(final(self)),
            final(self).calls().len() == old(self).calls().len() + 1,
            forall|calls: Calls| #[trigger]
                goes_on(final(self).calls(), calls) ==> agrees(
                    outcome,
                    protect_of(calls, old(self).calls().len() as int, at, size, protection),
                ),
    {
        let outcome = self.backend.protect_memory(handle, at, size, protection);
        let ghost call = Call { wish: Wish::Protect { at, size, protection }, answer: protect_answer(outcome) };
        proof {
            reveal(call_made);
            assert(call_ensures(
                B::protect_memory,
                (self.backend, handle, at, size, protection),
                outcome,
            ));
            assert(call_made(self.backend(), self.handle@, self.identity@, call));
            lemma_one_more(self.backend(), self.handle@, self.identity@, self.calls@, call);
        }
        self.calls = Ghost(self.calls@.push(call));
        outcome
    }

    pub(crate) fn flush(
        &mut self,
        handle: &B::Handle,
        at: usize,
        size: usize,
    ) -> (outcome: Result<(), ProcessBackendError>)
        requires
            old(self).sound(),
            *handle == old(self).handle(),
        ensures
            old(self).leads_to(final(self)),
            final(self).calls().len() == old(self).calls().len() + 1,
            final(self).calls() == old(self).calls().push(
                (Call { wish: Wish::Flush { at, size }, answer: done_answer(outcome) }),
            ),
            forall|calls: Calls| #[trigger]
                goes_on(final(self).calls(), calls) ==> agrees(
                    outcome,
                    flush_of(calls, old(self).calls().len() as int, at, size),
                ),
    {
        let outcome = self.backend.flush_instruction_cache(handle, at, size);
        let ghost call = Call { wish: Wish::Flush { at, size }, answer: done_answer(outcome) };
        proof {
            reveal(call_made);
            assert(call_ensures(
                B::flush_instruction_cache,
                (self.backend, handle, at, size),
                outcome,
            ));
            assert(call_made(self.backend(), self.handle@, self.identity@, call));
            lemma_one_more(self.backend(), self.handle@, self.identity@, self.calls@, call);
        }
        self.calls = Ghost(self.calls@.push(call));
        outcome
    }

    pub(crate) fn free(
        &mut self,
        handle: &B::Handle,
        at: usize,
    ) -> (outcome: Result<(), ProcessBackendError>)
        requires
            old(self).sound(),
            *handle == old(self).handle(),
        ensures
            old(self).leads_to(final(self)),
            final(self).calls().len() == old(self).calls().len() + 1,
            forall|calls: Calls| #[trigger]
                goes_on(final(self).calls(), calls) ==> agrees(
                    outcome,
                    free_of(calls, old(self).calls().len() as int, at),
                ),
    {
        let outcome = self.backend.free_memory(handle, at);
        let ghost call = Call { wish: Wish::Free { at }, answer: done_answer(outcome) };
        proof {
            reveal(call_made);
            assert(call_ensures(
                B::free_memory,
                (self.backend, handle, at),
                outcome,
            ));
            assert(call_made(self.backend(), self.handle@, self.identity@, call));
            lemma_one_more(self.backend(), self.handle@, self.identity@, self.calls@, call);
        }
        self.calls = Ghost(self.calls@.push(call));
        outcome
    }

    pub(crate) fn suspend(
        &mut self,
        handle: &B::Handle,
    ) -> (outcome: Result<SuspendedProcess, ProcessBackendError>)
        requires
            old(self).sound(),
            *handle == old(self).handle(),
        ensures
            old(self).leads_to(final(self)),
            final(self).calls().len() == old(self).calls().len() + 1,
            final(self).calls() == old(self).calls().push(
                (Call { wish: Wish::Suspend, answer: suspend_answer(outcome) }),
            ),
            forall|calls: Calls| #[trigger]
                goes_on(final(self).calls(), calls) ==> agrees(
                    outcome,
                    suspend_of(calls, old(self).calls().len() as int),
                ),
    {
        let outcome = self.backend.suspend_process_threads(handle);
        let ghost call = Call { wish: Wish::Suspend, answer: suspend_answer(outcome) };
        proof {
            reveal(call_made);
            assert(call_ensures(
                B::suspend_process_threads,
                (self.backend, handle),
                outcome,
            ));
            assert(call_made(self.backend(), self.handle@, self.identity@, call));
            lemma_one_more(self.backend(), self.handle@, self.identity@, self.calls@, call);
        }
        self.calls = Ghost(self.calls@.push(call));
        outcome
    }

    /// Lets suspended threads go on.
    pub(crate) fn resume(&mut self, suspended: SuspendedProcess) -> (outcome: Result<
        (),
        ProcessBackendError,
    >)
        requires
            old(self).sound(),
        ensures
            old(self).leads_to(final(self)),
            final(self).calls().len() == old(self).calls().len() + 1,
            final(self).calls() == old(self).calls().push(
                (Call { wish: Wish::Resume { stopped: suspended }, answer: done_answer(outcome) }),
            ),
            forall|calls: Calls| #[trigger]
                goes_on(final(self).calls(), calls) ==> agrees(
                    outcome,
                    resume_of(calls, old(self).calls().len() as int, suspended),
                ),
    {
        let outcome = suspended.resume();
        let ghost call = Call {
            wish: Wish::Resume { stopped: suspended },
            answer: done_answer(outcome),
        };
        proof {
            reveal(call_made);
            assert(suspended.answers(outcome));
            assert(went_on(suspended, call.answer));
            assert(call_made(self.backend(), self.handle@, self.identity@, call));
            lemma_one_more(self.backend(), self.handle@, self.identity@, self.calls@, call);
        }
        self.calls = Ghost(self.calls@.push(call));
        outcome
    }

    /// Starts a thread.
    pub(crate) fn start(
        &mut self,
        handle: &B::Handle,
        at: usize,
        parameter: Option<usize>,
    ) -> (outcome: Result<StartedRemoteThread<B::ThreadHandle>, ProcessBackendError>)
        requires
            old(self).sound(),
            *handle == old(self).handle(),
        ensures
            old(self).leads_to(final(self)),
            final(self).calls().len() == old(self).calls().len() + 1,
            final(self).calls() == old(self).calls().push(
                (Call { wish: Wish::Start { at, parameter }, answer: start_answer(outcome) }),
            ),
            call_ensures(
                B::start_remote_thread,
                (old(self).backend(), handle, at, parameter),
                outcome,
            ),
    {
        let outcome = self.backend.start_remote_thread(handle, at, parameter);
        let ghost call = Call {
            wish: Wish::Start { at, parameter },
            answer: start_answer(outcome),
        };
        proof {
            reveal(call_made);
            assert(call_ensures(
                B::start_remote_thread,
                (self.backend, handle, at, parameter),
                outcome,
            ));
            assert(call_made(self.backend(), self.handle@, self.identity@, call));
            lemma_one_more(self.backend(), self.handle@, self.identity@, self.calls@, call);
        }
        self.calls = Ghost(self.calls@.push(call));
        outcome
    }
}

proof fn lemma_one_more<B: MutationBackend>(
    backend: &B,
    handle: B::Handle,
    identity: ProcessIdentity,
    calls: Calls,
    call: Call,
)
    requires
        calls_made(backend, handle, identity, calls),
        call_made(backend, handle, identity, call),
    ensures
        calls_made(backend, handle, identity, calls.push(call)),
        goes_on(calls, calls.push(call)),
        forall|later: Calls| #[trigger]
            goes_on(calls.push(call), later) ==> later[calls.len() as int] == call,
{
    let longer = calls.push(call);
    assert forall|i: int| 0 <= i < longer.len() implies call_made(
        backend,
        handle,
        identity,
        #[trigger] longer[i],
    ) by {
        if i < calls.len() {
            assert(calls[i] == longer[i]);
        }
    }
    assert(longer.take(calls.len() as int) =~= calls);
    assert forall|later: Calls| #[trigger] goes_on(longer, later) implies later[calls.len() as int]
        == call by {
        assert(later.take(longer.len() as int)[calls.len() as int] == call);
    }
}

/// Calls go on from themselves.
pub(crate) proof fn lemma_stays(calls: Calls)
    ensures
        goes_on(calls, calls),
{
    assert(calls.take(calls.len() as int) =~= calls);
}

/// What goes on from later calls goes on from earlier ones.
pub(crate) proof fn lemma_then(start: Calls, before: Calls, now: Calls)
    requires
        goes_on(start, before),
        goes_on(before, now),
    ensures
        goes_on(start, now),
        forall|calls: Calls| #[trigger] goes_on(now, calls) ==> goes_on(before, calls),
{
    assert(now.take(start.len() as int) =~= now.take(before.len() as int).take(
        start.len() as int,
    ));
    assert forall|calls: Calls| #[trigger] goes_on(now, calls) implies goes_on(before, calls) by {
        assert(calls.take(before.len() as int) =~= calls.take(now.len() as int).take(
            before.len() as int,
        ));
    }
}

}
