//! Operations on another process that are looked back on.

use vstd::prelude::*;

use crate::backend::MutationBackend;
use crate::feature_error::{gives, FeatureHookApiError};
use crate::process::{ProcessSessionRegistry, Sessions};
use crate::protocol::{MemoryScanScope, ModuleDescriptor, ProcessSessionId};
use crate::rpc::Failure;
use crate::search::contents;
use crate::steps::{
    scope_name, step_flush, step_made, step_modules, step_read, step_scan, step_scan_each,
    step_scan_many, step_status, step_write, world_at, Op, Reply, Step, World,
};
use crate::text::{address_text, format_address};

verus! {

/// Operations, one after the other.
pub type Log<H, T> = Seq<Step<H, T>>;

/// Whether operations were made one after the other.
pub open spec fn steps_made<B: MutationBackend>(
    backend: &B,
    id: Seq<char>,
    start: World<B::Handle, B::ThreadHandle>,
    log: Log<B::Handle, B::ThreadHandle>,
) -> bool {
    forall|i: int|
        0 <= i < log.len() ==> step_made(backend, id, world_at(start, log, i), #[trigger] log[i])
}

/// A log that goes on from another one.
pub open spec fn extends<H, T>(log: Log<H, T>, longer: Log<H, T>) -> bool {
    log.len() <= longer.len() && longer.take(log.len() as int) == log
}

/// The bytes of one read of the log. A read of anything else gives nothing that
/// could be relied on.
pub open spec fn fetched<H, T>(log: Log<H, T>, k: int, address: usize, size: usize) -> Result<
    Seq<u8>,
    Failure,
> {
    if log[k].op == (Op::Read { address: address_text(address as nat), size }) {
        match log[k].reply {
            Reply::Bytes { bytes } => Ok(bytes),
            Reply::Fault { fault, said } => Err(fault),
            _ => arbitrary(),
        }
    } else {
        arbitrary()
    }
}

/// How a write of the log ended.
pub open spec fn put<H, T>(log: Log<H, T>, k: int, address: usize, bytes: Seq<u8>) -> Result<(), Failure> {
    if log[k].op == (Op::Write { address: address_text(address as nat), bytes }) {
        match log[k].reply {
            Reply::Done => Ok(()),
            Reply::Fault { fault, said } => Err(fault),
            _ => arbitrary(),
        }
    } else {
        arbitrary()
    }
}

/// How a flush of the log ended.
pub open spec fn flushed<H, T>(log: Log<H, T>, k: int, address: usize, size: usize) -> Result<
    (),
    Failure,
> {
    if log[k].op == (Op::Flush { address: address_text(address as nat), size }) {
        match log[k].reply {
            Reply::Done => Ok(()),
            Reply::Fault { fault, said } => Err(fault),
            _ => arbitrary(),
        }
    } else {
        arbitrary()
    }
}

/// The place that a search of the log found.
pub open spec fn found<H, T>(
    log: Log<H,
    T>,
    k: int,
    signature: Seq<char>,
    scope: Option<Seq<char>>,
) -> Result<usize, Failure> {
    if log[k].op == (Op::Scan { signature, scope }) {
        match log[k].reply {
            Reply::Found { at } => Ok(at),
            Reply::Fault { fault, said } => Err(fault),
            _ => arbitrary(),
        }
    } else {
        arbitrary()
    }
}

/// The places that a search of the log found.
pub open spec fn found_all<H, T>(
    log: Log<H,
    T>,
    k: int,
    signature: Seq<char>,
    scope: Option<Seq<char>>,
) -> Result<Seq<usize>, Failure> {
    if log[k].op == (Op::ScanMany { signature, scope }) {
        match log[k].reply {
            Reply::Places { places } => Ok(places),
            Reply::Fault { fault, said } => Err(fault),
            _ => arbitrary(),
        }
    } else {
        arbitrary()
    }
}

/// What a search of the log found for each of several signatures.
pub open spec fn found_each<H, T>(
    log: Log<H,
    T>,
    k: int,
    signatures: Seq<Seq<char>>,
    scope: Option<Seq<char>>,
) -> Result<Seq<Option<usize>>, Failure> {
    if log[k].op == (Op::ScanEach { signatures, scope }) {
        match log[k].reply {
            Reply::Each { found } => Ok(found),
            Reply::Fault { fault, said } => Err(fault),
            _ => arbitrary(),
        }
    } else {
        arbitrary()
    }
}

/// The modules that the log lists.
pub open spec fn listed<H, T>(log: Log<H, T>, k: int) -> Result<Seq<ModuleDescriptor>, Failure> {
    if log[k].op == Op::ListModules {
        match log[k].reply {
            Reply::Modules { modules } => Ok(modules),
            Reply::Fault { fault, said } => Err(fault),
            _ => arbitrary(),
        }
    } else {
        arbitrary()
    }
}

/// How a question for the process ended.
pub open spec fn alive<H, T>(log: Log<H, T>, k: int) -> Result<(), Failure> {
    if log[k].op == Op::Status {
        match log[k].reply {
            Reply::Done => Ok(()),
            Reply::Fault { fault, said } => Err(fault),
            _ => arbitrary(),
        }
    } else {
        arbitrary()
    }
}

/// Bytes that agree with an outcome.
pub open spec fn reads_as(
    bytes: Result<Vec<u8>, FeatureHookApiError>,
    outcome: Result<Seq<u8>, Failure>,
) -> bool {
    match (bytes, outcome) {
        (Ok(bytes), Ok(expected)) => bytes@ == expected,
        (Err(error), Err(fault)) => error@ == fault,
        _ => false,
    }
}

/// A list that agrees with an outcome.
pub open spec fn lists<T>(
    list: Result<Vec<T>, FeatureHookApiError>,
    outcome: Result<Seq<T>, Failure>,
) -> bool {
    match (list, outcome) {
        (Ok(list), Ok(expected)) => list@ == expected,
        (Err(error), Err(fault)) => error@ == fault,
        _ => false,
    }
}

/// Operations on another process, with what they answered.
pub struct Probe<'a, B: MutationBackend> {
    backend: &'a B,
    session_id: &'a ProcessSessionId,
    start: Ghost<World<B::Handle, B::ThreadHandle>>,
    log: Ghost<Log<B::Handle, B::ThreadHandle>>,
}

impl<'a, B: MutationBackend> Probe<'a, B> {
    /// What was done.
    pub closed spec fn log(&self) -> Log<B::Handle, B::ThreadHandle> {
        self.log@
    }

    /// The world before the first operation.
    pub closed spec fn start(&self) -> World<B::Handle, B::ThreadHandle> {
        self.start@
    }

    /// The backend.
    pub closed spec fn backend(&self) -> &B {
        self.backend
    }

    /// The session.
    pub closed spec fn id(&self) -> Seq<char> {
        self.session_id.0@
    }

    /// The operations were made and led to where the sessions stand.
    pub open spec fn sound(&self, sessions: Sessions<B::Handle>) -> bool {
        &&& steps_made(self.backend(), self.id(), self.start(), self.log())
        &&& world_at(self.start(), self.log(), self.log().len() as int) == (World {
            sessions,
            owned: self.start().owned,
        })
        &&& self.start().sessions.leads_to(sessions)
    }

    /// The same probe after more operations.
    pub open spec fn goes_on(&self, later: &Self) -> bool {
        &&& later.backend() == self.backend()
        &&& later.id() == self.id()
        &&& later.start() == self.start()
        &&& extends(self.log(), later.log())
    }

    pub(crate) fn new(
        sessions: &ProcessSessionRegistry<B::Handle>,
        backend: &'a B,
        session_id: &'a ProcessSessionId,
    ) -> (probe: Self)
        requires
            sessions.wf(),
        ensures
            probe.sound(sessions@),
            probe.log() == Seq::<Step<B::Handle, B::ThreadHandle>>::empty(),
            probe.start().sessions == sessions@,
            probe.backend() == backend,
            probe.id() == session_id.0@,
    {
        let probe = Probe {
            backend,
            session_id,
            start: Ghost(World { sessions: sessions@, owned: arbitrary() }),
            log: Ghost(Seq::empty()),
        };
        probe
    }

    /// Reads bytes.
    pub(crate) fn fetch(
        &mut self,
        sessions: &mut ProcessSessionRegistry<B::Handle>,
        address: usize,
        size: usize,
    ) -> (answer: Result<Vec<u8>, FeatureHookApiError>)
        requires
            old(sessions).wf(),
            old(self).sound(old(sessions)@),
        ensures
            final(sessions).wf(),
            final(self).sound(final(sessions)@),
            old(self).goes_on(final(self)),
            final(self).log().len() == old(self).log().len() + 1,
            forall|log: Log<B::Handle, B::ThreadHandle>| #[trigger]
                extends(final(self).log(), log) ==> reads_as(
                    answer,
                    fetched(log, old(self).log().len() as int, address, size),
                ),
    {
        let text = format_address(address);
        let ghost before = self.log@;
        let (answer, Ghost(step)) = step_read(
            sessions,
            self.backend,
            self.session_id,
            text.as_str(),
            size,
            Ghost(self.start@.owned),
        );
        proof {
            lemma_goes_on(self.backend(), self.id(), self.start@, before, step);
        }
        self.log = Ghost(before.push(step));
        match answer {
            Ok(value) => Ok(value),
            Err(error) => Err(FeatureHookApiError::Memory(error)),
        }
    }

    /// Writes bytes.
    pub(crate) fn put(
        &mut self,
        sessions: &mut ProcessSessionRegistry<B::Handle>,
        address: usize,
        bytes: Vec<u8>,
    ) -> (answer: Result<(), FeatureHookApiError>)
        requires
            old(sessions).wf(),
            old(self).sound(old(sessions)@),
        ensures
            final(sessions).wf(),
            final(self).sound(final(sessions)@),
            old(self).goes_on(final(self)),
            final(self).log().len() == old(self).log().len() + 1,
            forall|log: Log<B::Handle, B::ThreadHandle>| #[trigger]
                extends(final(self).log(), log) ==> gives(
                    answer,
                    put(log, old(self).log().len() as int, address, bytes@),
                ),
    {
        let text = format_address(address);
        let ghost before = self.log@;
        let (answer, Ghost(step)) = step_write(
            sessions,
            self.backend,
            self.session_id,
            text.as_str(),
            bytes,
            Ghost(self.start@.owned),
        );
        proof {
            lemma_goes_on(self.backend(), self.id(), self.start@, before, step);
        }
        self.log = Ghost(before.push(step));
        match answer {
            Ok(value) => Ok(value),
            Err(error) => Err(FeatureHookApiError::Mutation(error)),
        }
    }

    /// Makes a processor forget the code that it holds of a range.
    pub(crate) fn flush(
        &mut self,
        sessions: &mut ProcessSessionRegistry<B::Handle>,
        address: usize,
        size: usize,
    ) -> (answer: Result<(), FeatureHookApiError>)
        requires
            old(sessions).wf(),
            old(self).sound(old(sessions)@),
        ensures
            final(sessions).wf(),
            final(self).sound(final(sessions)@),
            old(self).goes_on(final(self)),
            final(self).log().len() == old(self).log().len() + 1,
            forall|log: Log<B::Handle, B::ThreadHandle>| #[trigger]
                extends(final(self).log(), log) ==> gives(
                    answer,
                    flushed(log, old(self).log().len() as int, address, size),
                ),
    {
        let text = format_address(address);
        let ghost before = self.log@;
        let (answer, Ghost(step)) = step_flush(
            sessions,
            self.backend,
            self.session_id,
            text.as_str(),
            size,
            Ghost(self.start@.owned),
        );
        proof {
            lemma_goes_on(self.backend(), self.id(), self.start@, before, step);
        }
        self.log = Ghost(before.push(step));
        match answer {
            Ok(value) => Ok(value),
            Err(error) => Err(FeatureHookApiError::Mutation(error)),
        }
    }

    /// Finds the one place where a signature occurs.
    pub(crate) fn find(
        &mut self,
        sessions: &mut ProcessSessionRegistry<B::Handle>,
        signature: &str,
        scope: &MemoryScanScope,
    ) -> (answer: Result<usize, FeatureHookApiError>)
        requires
            old(sessions).wf(),
            old(self).sound(old(sessions)@),
        ensures
            final(sessions).wf(),
            final(self).sound(final(sessions)@),
            old(self).goes_on(final(self)),
            final(self).log().len() == old(self).log().len() + 1,
            forall|log: Log<B::Handle, B::ThreadHandle>| #[trigger]
                extends(final(self).log(), log) ==> gives(
                    answer,
                    found(log, old(self).log().len() as int, signature@, scope_name(*scope)),
                ),
    {
        let ghost before = self.log@;
        let (answer, Ghost(step)) = step_scan(
            sessions,
            self.backend,
            self.session_id,
            signature,
            scope,
            Ghost(self.start@.owned),
        );
        proof {
            lemma_goes_on(self.backend(), self.id(), self.start@, before, step);
        }
        self.log = Ghost(before.push(step));
        match answer {
            Ok(value) => Ok(value),
            Err(error) => Err(FeatureHookApiError::Memory(error)),
        }
    }

    /// Finds the places where a signature occurs.
    pub(crate) fn find_all(
        &mut self,
        sessions: &mut ProcessSessionRegistry<B::Handle>,
        signature: &str,
        scope: &MemoryScanScope,
    ) -> (answer: Result<Vec<usize>, FeatureHookApiError>)
        requires
            old(sessions).wf(),
            old(self).sound(old(sessions)@),
        ensures
            final(sessions).wf(),
            final(self).sound(final(sessions)@),
            old(self).goes_on(final(self)),
            final(self).log().len() == old(self).log().len() + 1,
            forall|log: Log<B::Handle, B::ThreadHandle>| #[trigger]
                extends(final(self).log(), log) ==> lists(
                    answer,
                    found_all(log, old(self).log().len() as int, signature@, scope_name(*scope)),
                ),
    {
        let ghost before = self.log@;
        let (answer, Ghost(step)) = step_scan_many(
            sessions,
            self.backend,
            self.session_id,
            signature,
            scope,
            Ghost(self.start@.owned),
        );
        proof {
            lemma_goes_on(self.backend(), self.id(), self.start@, before, step);
        }
        self.log = Ghost(before.push(step));
        match answer {
            Ok(value) => Ok(value),
            Err(error) => Err(FeatureHookApiError::Memory(error)),
        }
    }

    /// Finds the one place, if there is one, of each of several signatures.
    pub(crate) fn find_each(
        &mut self,
        sessions: &mut ProcessSessionRegistry<B::Handle>,
        signatures: &[&str],
        scope: &MemoryScanScope,
    ) -> (answer: Result<Vec<Option<usize>>, FeatureHookApiError>)
        requires
            old(sessions).wf(),
            old(self).sound(old(sessions)@),
        ensures
            final(sessions).wf(),
            final(self).sound(final(sessions)@),
            old(self).goes_on(final(self)),
            final(self).log().len() == old(self).log().len() + 1,
            forall|log: Log<B::Handle, B::ThreadHandle>| #[trigger]
                extends(final(self).log(), log) ==> lists(
                    answer,
                    found_each(
                        log,
                        old(self).log().len() as int,
                        contents(signatures@),
                        scope_name(*scope),
                    ),
                ),
    {
        let ghost before = self.log@;
        let (answer, Ghost(step)) = step_scan_each(
            sessions,
            self.backend,
            self.session_id,
            signatures,
            scope,
            Ghost(self.start@.owned),
        );
        proof {
            lemma_goes_on(self.backend(), self.id(), self.start@, before, step);
        }
        self.log = Ghost(before.push(step));
        match answer {
            Ok(value) => Ok(value),
            Err(error) => Err(FeatureHookApiError::Memory(error)),
        }
    }

    /// Lists the modules of the process.
    pub(crate) fn modules(
        &mut self,
        sessions: &mut ProcessSessionRegistry<B::Handle>,
    ) -> (answer: Result<Vec<ModuleDescriptor>, FeatureHookApiError>)
        requires
            old(sessions).wf(),
            old(self).sound(old(sessions)@),
        ensures
            final(sessions).wf(),
            final(self).sound(final(sessions)@),
            old(self).goes_on(final(self)),
            final(self).log().len() == old(self).log().len() + 1,
            forall|log: Log<B::Handle, B::ThreadHandle>| #[trigger]
                extends(final(self).log(), log) ==> lists(
                    answer,
                    listed(log, old(self).log().len() as int),
                ),
    {
        let ghost before = self.log@;
        let (answer, Ghost(step)) = step_modules(
            sessions,
            self.backend,
            self.session_id,
            Ghost(self.start@.owned),
        );
        proof {
            lemma_goes_on(self.backend(), self.id(), self.start@, before, step);
        }
        self.log = Ghost(before.push(step));
        match answer {
            Ok(value) => Ok(value),
            Err(error) => Err(FeatureHookApiError::Process(error)),
        }
    }

    /// Asks whether the process is still there.
    pub(crate) fn status(
        &mut self,
        sessions: &mut ProcessSessionRegistry<B::Handle>,
    ) -> (answer: Result<(), FeatureHookApiError>)
        requires
            old(sessions).wf(),
            old(self).sound(old(sessions)@),
        ensures
            final(sessions).wf(),
            final(self).sound(final(sessions)@),
            old(self).goes_on(final(self)),
            final(self).log().len() == old(self).log().len() + 1,
            forall|log: Log<B::Handle, B::ThreadHandle>| #[trigger]
                extends(final(self).log(), log) ==> gives(
                    answer,
                    alive(log, old(self).log().len() as int),
                ),
    {
        let ghost before = self.log@;
        let (answer, Ghost(step)) = step_status(
            sessions,
            self.backend,
            self.session_id,
            Ghost(self.start@.owned),
        );
        proof {
            lemma_goes_on(self.backend(), self.id(), self.start@, before, step);
        }
        self.log = Ghost(before.push(step));
        match answer {
            Ok(value) => Ok(value),
            Err(error) => Err(FeatureHookApiError::Process(error)),
        }
    }
}

pub(crate) proof fn lemma_extends<H, T>(a: Log<H, T>, b: Log<H, T>, c: Log<H, T>)
    requires
        extends(a, b),
        extends(b, c),
    ensures
        extends(a, c),
{
    assert(c.take(a.len() as int) =~= c.take(b.len() as int).take(a.len() as int));
}

pub(crate) proof fn lemma_prefixes<H, T>(a: Log<H, T>, b: Log<H, T>)
    requires
        extends(a, b),
    ensures
        forall|log: Log<H, T>| #[trigger] extends(b, log) ==> extends(a, log),
{
    assert forall|log: Log<H, T>| #[trigger] extends(b, log) implies extends(a, log) by {
        lemma_extends(a, b, log);
    }
}

/// One more operation.
proof fn lemma_goes_on<B: MutationBackend>(
    backend: &B,
    id: Seq<char>,
    start: World<B::Handle, B::ThreadHandle>,
    before: Log<B::Handle, B::ThreadHandle>,
    step: Step<B::Handle, B::ThreadHandle>,
)
    requires
        steps_made(backend, id, start, before),
        step_made(backend, id, world_at(start, before, before.len() as int), step),
    ensures
        steps_made(backend, id, start, before.push(step)),
        extends(before, before.push(step)),
        world_at(start, before.push(step), before.len() as int + 1) == step.after,
        forall|log: Log<B::Handle, B::ThreadHandle>| #[trigger]
            extends(before.push(step), log) ==> log[before.len() as int] == step,
{
    let longer = before.push(step);
    assert forall|i: int| 0 <= i < longer.len() implies step_made(
        backend,
        id,
        world_at(start, longer, i),
        #[trigger] longer[i],
    ) by {
        assert(world_at(start, longer, i) == world_at(start, before, i));
        if i < before.len() {
            assert(before[i] == longer[i]);
        }
    }
    assert(longer.take(before.len() as int) =~= before);
    assert forall|log: Log<B::Handle, B::ThreadHandle>| #[trigger]
        extends(longer, log) implies log[before.len() as int] == step by {
        assert(log.take(longer.len() as int)[before.len() as int] == step);
    }
}

}
