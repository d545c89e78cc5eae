//! Scanning a region of memory, chunk by chunk, for signatures that may lie
//! across the chunks.

use vstd::prelude::*;
use vstd::slice::*;

use crate::backend::{MemoryBackend, ProcessBackendError};
use crate::protocol::{MemoryScanRegionError, MAX_SCAN_ERRORS};
use crate::rpc::{failure, Failure, RpcErrorCode};
use crate::signature::{
    hits, lemma_hits_agree, lemma_hits_gap, hits_are_complete, matches_at, occurrences,
    signature_offsets,
};
use crate::text::{address_text, format_address};

verus! {

/// How much is read at once.
pub const SCAN_CHUNK_SIZE: usize = 1048576;

/// How little is still tried where larger reads fail.
pub const MIN_SCAN_CHUNK_SIZE: usize = 65536;

/// One read and what came of it.
pub ghost struct Read {
    pub address: int,
    pub size: int,
    pub outcome: Result<Vec<u8>, ProcessBackendError>,
}

/// Reads that the backend was asked for and answered.
pub open spec fn all_read<B: MemoryBackend>(
    backend: &B,
    handle: &B::Handle,
    reads: Seq<Read>,
) -> bool {
    forall|i: int|
        0 <= i < reads.len() ==> {
            let read = #[trigger] reads[i];
            &&& 0 <= read.address <= usize::MAX
            &&& 0 <= read.size <= usize::MAX
            &&& call_ensures(
                B::read_memory,
                (backend, handle, read.address as usize, read.size as usize),
                read.outcome,
            )
        }
}

/// How far the reading of a region has come.
pub ghost enum Progress {
    /// The next read asks for so many bytes at that offset.
    More { offset: int, request: int },
    /// The whole region was read.
    Complete,
    /// A read gave less than was asked for.
    Short,
    /// A read of the smallest size failed.
    Unreadable { error: ProcessBackendError },
    /// The reads are none that a scan makes.
    Stray,
}

pub open spec fn smaller(a: int, b: int) -> int {
    if a <= b {
        a
    } else {
        b
    }
}

/// The bytes that the reads of a region gave, and how far they have come. The
/// region is read from its start on. Where a read fails, half of it is tried,
/// down to the smallest chunk, and later reads ask for no more than that.
pub open spec fn reading(start: int, size: int, reads: Seq<Read>) -> (Seq<u8>, Progress)
    decreases reads.len(),
{
    if reads.len() == 0 {
        (
            Seq::empty(),
            if size <= 0 {
                Progress::Complete
            } else {
                Progress::More { offset: 0, request: smaller(size, SCAN_CHUNK_SIZE as int) }
            },
        )
    } else {
        let (data, before) = reading(start, size, reads.drop_last());
        let read = reads.last();
        match before {
            Progress::More { offset, request } => if read.address == start + offset && read.size
                == request {
                match read.outcome {
                    Err(error) => (
                        data,
                        if request > MIN_SCAN_CHUNK_SIZE {
                            let half = request / 2;
                            Progress::More {
                                offset,
                                request: if half < MIN_SCAN_CHUNK_SIZE {
                                    MIN_SCAN_CHUNK_SIZE as int
                                } else {
                                    half
                                },
                            }
                        } else {
                            Progress::Unreadable { error }
                        },
                    ),
                    Ok(bytes) => (data + bytes@, after_chunk(size, offset, request, bytes@.len() as int)),
                }
            } else {
                (data, Progress::Stray)
            },
            _ => (data, Progress::Stray),
        }
    }
}

/// How far the reading has come after a chunk.
pub open spec fn after_chunk(size: int, offset: int, request: int, got: int) -> Progress {
    if got < request {
        Progress::Short
    } else if offset + got >= size {
        Progress::Complete
    } else {
        Progress::More { offset: offset + got, request: smaller(size - (offset + got), request) }
    }
}

/// What a scan has found so far.
pub ghost struct Collected {
    pub matches: Seq<usize>,
    pub scanned_regions: nat,
    pub skipped_regions: nat,
    pub errors: Seq<(Seq<char>, Seq<char>)>,
}

/// Whether a scan goes on after a match.
pub ghost enum Visit {
    /// It goes on.
    Going,
    /// A unique signature matched again.
    Ambiguous,
    /// It fails.
    Failed { fault: Failure },
}

pub open spec fn match_address_overflow() -> Failure {
    failure(RpcErrorCode::MemoryInvalidAddress, "scan match address overflowed"@)
}

pub open spec fn match_range_overflow() -> Failure {
    failure(RpcErrorCode::MemoryInvalidAddress, "scan match range overflowed"@)
}

pub open spec fn too_many_matches() -> Failure {
    failure(RpcErrorCode::MemoryLimitExceeded, "scan match count exceeds the requested limit"@)
}

/// What a scan asks for.
pub ghost struct Wanted {
    pub signature: Seq<Option<u8>>,
    pub max_matches: nat,
    pub unique: bool,
}

/// The matches after one more occurrence.
pub open spec fn visit_one(
    matches: Seq<usize>,
    start: int,
    at: int,
    wanted: Wanted,
) -> (Seq<usize>, Visit) {
    if start + at > usize::MAX {
        (matches, Visit::Failed { fault: match_address_overflow() })
    } else if start + at + wanted.signature.len() > usize::MAX {
        (matches, Visit::Failed { fault: match_range_overflow() })
    } else {
        let more = matches.push((start + at) as usize);
        (
            more,
            if wanted.unique && more.len() > 1 {
                Visit::Ambiguous
            } else if more.len() > wanted.max_matches {
                Visit::Failed { fault: too_many_matches() }
            } else {
                Visit::Going
            },
        )
    }
}

/// The matches after the given occurrences, in order, up to the one at which
/// the scan ends.
pub open spec fn visit_all(
    matches: Seq<usize>,
    start: int,
    offsets: Seq<int>,
    wanted: Wanted,
) -> (Seq<usize>, Visit)
    decreases offsets.len(),
{
    if offsets.len() == 0 {
        (matches, Visit::Going)
    } else {
        let (seen, visit) = visit_all(matches, start, offsets.drop_last(), wanted);
        match visit {
            Visit::Going => visit_one(seen, start, offsets.last(), wanted),
            _ => (seen, visit),
        }
    }
}

/// Once a scan has ended, further occurrences change nothing.
pub proof fn lemma_visit_ended(
    matches: Seq<usize>,
    start: int,
    offsets: Seq<int>,
    n: int,
    wanted: Wanted,
)
    requires
        0 <= n <= offsets.len(),
        !(visit_all(matches, start, offsets.take(n), wanted).1 is Going),
    ensures
        visit_all(matches, start, offsets, wanted) == visit_all(
            matches,
            start,
            offsets.take(n),
            wanted,
        ),
    decreases offsets.len(),
{
    if n < offsets.len() {
        let front = offsets.drop_last();
        assert(front.take(n) =~= offsets.take(n));
        lemma_visit_ended(matches, start, front, n, wanted);
    } else {
        assert(offsets.take(n) =~= offsets);
    }
}

/// The predicate that a signature matches at an offset.
pub open spec fn matching(data: Seq<u8>, signature: Seq<Option<u8>>) -> spec_fn(int) -> bool {
    |at: int| matches_at(data, signature, at)
}

/// How many offsets there are at which a signature may stand.
pub open spec fn places(data: Seq<u8>, signature: Seq<Option<u8>>) -> nat {
    if signature.len() == 0 || signature.len() > data.len() {
        0
    } else {
        (data.len() - signature.len() + 1) as nat
    }
}

proof fn lemma_occurrences(data: Seq<u8>, signature: Seq<Option<u8>>)
    ensures
        occurrences(data, signature) == hits(places(data, signature), matching(data, signature)),
{
    lemma_hits_agree(
        places(data, signature),
        |at: int| matches_at(data, signature, at),
        matching(data, signature),
    );
}

/// What more data shows leaves the occurrences in the data before it alone.
proof fn lemma_occurrences_extend(data: Seq<u8>, more: Seq<u8>, signature: Seq<Option<u8>>)
    ensures
        occurrences(data, signature) == hits(
            places(data, signature),
            matching(data + more, signature),
        ),
        places(data, signature) <= places(data + more, signature),
{
    let all = data + more;
    lemma_occurrences(data, signature);
    assert forall|at: int| 0 <= at < places(data, signature) implies #[trigger] matching(
        data,
        signature,
    )(at) == matching(all, signature)(at) by {
        if matches_at(data, signature, at) {
            assert(matches_at(all, signature, at));
        }
        if matches_at(all, signature, at) {
            assert(matches_at(data, signature, at));
        }
    }
    lemma_hits_agree(places(data, signature), matching(data, signature), matching(all, signature));
}

/// A signature stands at an offset of a tail exactly if it stands there in the
/// whole.
proof fn lemma_matches_in_tail(
    all: Seq<u8>,
    tail: Seq<u8>,
    base: int,
    signature: Seq<Option<u8>>,
    at: int,
)
    requires
        0 <= base <= all.len(),
        tail == all.skip(base),
        0 <= at,
    ensures
        matches_at(tail, signature, at) == matches_at(all, signature, base + at),
{
    if at + signature.len() <= tail.len() {
        if matches_at(tail, signature, at) {
            assert(matches_at(all, signature, base + at));
        }
        if matches_at(all, signature, base + at) {
            assert forall|k: int| 0 <= k < signature.len() implies (#[trigger] signature[k] matches
                Some(byte) ==> tail[at + k] == byte) by {
                assert(all[(base + at) + k] == tail[at + k]);
            }
        }
    }
}

/// How a scan stands after some matches.
#[derive(Clone, Copy, PartialEq, Eq, Structural)]
enum Step {
    Going,
    Ambiguous,
    AddressOverflow,
    RangeOverflow,
    TooMany,
}

impl Step {
    spec fn visit(self) -> Visit {
        match self {
            Step::Going => Visit::Going,
            Step::Ambiguous => Visit::Ambiguous,
            Step::AddressOverflow => Visit::Failed { fault: match_address_overflow() },
            Step::RangeOverflow => Visit::Failed { fault: match_range_overflow() },
            Step::TooMany => Visit::Failed { fault: too_many_matches() },
        }
    }
}

/// What a scan asks for.
#[derive(Clone, Copy)]
pub struct ScanOptions<'a> {
    pub signature: &'a [Option<u8>],
    pub max_matches: usize,
    pub unique: bool,
}

impl<'a> View for ScanOptions<'a> {
    type V = Wanted;

    open spec fn view(&self) -> Wanted {
        Wanted {
            signature: self.signature@,
            max_matches: self.max_matches as nat,
            unique: self.unique,
        }
    }
}

/// Takes in the match `at` bytes behind an address.
fn visit_match(
    matches: &mut Vec<usize>,
    base_address: usize,
    at: usize,
    options: ScanOptions<'_>,
    Ghost(start): Ghost<int>,
    Ghost(base): Ghost<int>,
) -> (step: Step)
    requires
        base_address == start + base,
    ensures
        (final(matches)@, step.visit()) == visit_one(old(matches)@, start, base + at, options@),
{
    let address: usize = match base_address.checked_add(at) {
        Some(address) => address,
        None => {
            return Step::AddressOverflow;
        },
    };
    if address.checked_add(options.signature.len()).is_none() {
        return Step::RangeOverflow;
    }
    matches.push(address);
    if options.unique && matches.len() > 1 {
        Step::Ambiguous
    } else if matches.len() > options.max_matches {
        Step::TooMany
    } else {
        Step::Going
    }
}

/// Takes in the matches that a chunk shows together with the tail of the data
/// before it. A match that lies wholly in the earlier data was taken in with
/// it and is passed over.
fn visit_chunk(
    combined: &[u8],
    base_address: usize,
    earlier: usize,
    options: ScanOptions<'_>,
    matches: &mut Vec<usize>,
    Ghost(first): Ghost<Seq<usize>>,
    Ghost(start): Ghost<int>,
    Ghost(data): Ghost<Seq<u8>>,
    Ghost(more): Ghost<Seq<u8>>,
    Ghost(base): Ghost<int>,
) -> (step: Step)
    requires
        0 <= base <= data.len(),
        base == 0 || base + options.signature@.len() <= data.len() + 1,
        combined@ == (data + more).skip(base),
        earlier == data.len() - base,
        base_address == start + base,
        visit_all(first, start, occurrences(data, options.signature@), options@) == (
            old(matches)@,
            Visit::Going,
        ),
    ensures
        visit_all(first, start, occurrences(data + more, options.signature@), options@) == (
            final(matches)@,
            step.visit(),
        ),
{
    let ghost all = data + more;
    let ghost signature = options.signature@;
    let ghost holds = matching(all, signature);
    let ghost total = places(all, signature);
    let ghost mut done: nat = places(data, signature);
    let offsets = signature_offsets(combined, options.signature);
    let ghost local = matching(combined@, signature);
    let ghost value = |offset: usize| offset as int;
    proof {
        lemma_occurrences_extend(data, more, signature);
        lemma_occurrences(all, signature);
        lemma_occurrences(combined@, signature);
        hits_are_complete(places(combined@, signature), local);
        assert(offsets@.map_values(value) == hits(places(combined@, signature), local));
        assert forall|j: int| 0 <= j < offsets@.len() implies #[trigger] offsets@[j] as int == hits(
            places(combined@, signature),
            local,
        )[j] by {
            assert(offsets@.map_values(value)[j] == offsets@[j] as int);
        }
        assert(offsets@.len() == hits(places(combined@, signature), local).len());
        assert forall|at: int| base <= at < total && #[trigger] holds(at) implies exists|j: int|
            0 <= j < offsets@.len() && #[trigger] offsets@[j] + base == at by {
            lemma_matches_in_tail(all, combined@, base, signature, at - base);
            assert(local(at - base));
            let list = hits(places(combined@, signature), local);
            let j = choose|j: int| 0 <= j < list.len() && list[j] == at - base;
            assert(offsets@[j] + base == at);
        }
        assert forall|j: int| 0 <= j < offsets@.len() implies #[trigger] offsets@[j] + base < total
            && holds(offsets@[j] + base) by {
            lemma_matches_in_tail(all, combined@, base, signature, offsets@[j] as int);
        }
        assert forall|j: int, k: int| 0 <= j < k < offsets@.len() implies #[trigger] offsets@[j]
            < #[trigger] offsets@[k] by {}
    }
    let mut i: usize = 0;
    while i < offsets.len()
        invariant
            i <= offsets@.len(),
            0 <= base <= data.len(),
            base == 0 || base + signature.len() <= data.len() + 1,
            signature == options.signature@,
            all == data + more,
            holds == matching(all, signature),
            total == places(all, signature),
            earlier == data.len() - base,
            base_address == start + base,
            done <= total,
            done >= places(data, signature),
            forall|at: int|
                base <= at < total && #[trigger] holds(at) ==> exists|j: int|
                    0 <= j < offsets@.len() && #[trigger] offsets@[j] + base == at,
            forall|j: int|
                0 <= j < offsets@.len() ==> #[trigger] offsets@[j] + base < total && holds(
                    offsets@[j] + base,
                ),
            forall|j: int, k: int|
                0 <= j < k < offsets@.len() ==> #[trigger] offsets@[j] < #[trigger] offsets@[k],
            forall|j: int| i <= j < offsets@.len() ==> done <= #[trigger] offsets@[j] + base
                || offsets@[j] + base < places(data, signature),
            forall|j: int| 0 <= j < i ==> #[trigger] offsets@[j] + base < done,
            visit_all(first, start, hits(done, holds), options@) == (matches@, Visit::Going),
        decreases offsets@.len() - i,
    {
        let at: usize = offsets[i];
        let ghost here = at + base;
        // The end of the match lies in the earlier data.
        let known = earlier >= options.signature.len() && at <= earlier - options.signature.len();
        proof {
            assert(known == (here + signature.len() <= data.len()));
            assert(known == (here < places(data, signature)));
        }
        if !known {
            proof {
                assert forall|p: int| done <= p < here implies !#[trigger] holds(p) by {
                    if holds(p) {
                        assert(p >= base) by {
                            if base > 0 {
                                assert(done + signature.len() >= data.len() + 1);
                            }
                        }
                        let j = choose|j: int| 0 <= j < offsets@.len() && #[trigger] offsets@[j]
                            + base == p;
                        assert(j >= i);
                        assert(j == i || offsets@[i as int] < offsets@[j]);
                    }
                }
                lemma_hits_gap(done, here as nat, holds);
                assert(hits((here + 1) as nat, holds) == hits(here as nat, holds).push(here));
                assert(hits((here + 1) as nat, holds).drop_last() =~= hits(here as nat, holds));
                done = (here + 1) as nat;
            }
            let step = visit_match(
                matches,
                base_address,
                at,
                options,
                Ghost(start),
                Ghost(base),
            );
            proof {
                assert(visit_all(first, start, hits(done, holds), options@) == (
                    matches@,
                    step.visit(),
                ));
            }
            if step != Step::Going {
                proof {
                    lemma_hits_prefix(done, total, holds);
                    lemma_visit_ended(
                        first,
                        start,
                        hits(total, holds),
                        hits(done, holds).len() as int,
                        options@,
                    );
                }
                return step;
            }
        }
        i += 1;
    }
    proof {
        assert forall|p: int| done <= p < total implies !#[trigger] holds(p) by {
            if holds(p) {
                assert(p >= base) by {
                    if base > 0 {
                        assert(done + signature.len() >= data.len() + 1);
                    }
                }
                let j = choose|j: int| 0 <= j < offsets@.len() && #[trigger] offsets@[j] + base == p;
                assert(offsets@[j] + base < done);
            }
        }
        lemma_hits_gap(done, total, holds);
    }
    Step::Going
}

/// Fewer places show the first of the hits.
proof fn lemma_hits_prefix(low: nat, high: nat, holds: spec_fn(int) -> bool)
    requires
        low <= high,
    ensures
        hits(low, holds).len() <= hits(high, holds).len(),
        hits(high, holds).take(hits(low, holds).len() as int) == hits(low, holds),
    decreases high,
{
    if low < high {
        lemma_hits_prefix(low, (high - 1) as nat, holds);
        let less = hits((high - 1) as nat, holds);
        assert(hits(high, holds).take(hits(low, holds).len() as int) =~= less.take(
            hits(low, holds).len() as int,
        ));
    } else {
        assert(hits(high, holds).take(hits(low, holds).len() as int) =~= hits(low, holds));
    }
}

/// Why a scan fails.
#[derive(Clone, Copy, Debug, PartialEq, Eq, Structural)]
pub enum ScanFault {
    AddressOverflow,
    RangeOverflow,
    TooManyMatches,
}

impl ScanFault {
    pub open spec fn fault(self) -> Failure {
        match self {
            ScanFault::AddressOverflow => match_address_overflow(),
            ScanFault::RangeOverflow => match_range_overflow(),
            ScanFault::TooManyMatches => too_many_matches(),
        }
    }
}

impl Step {
    /// The failure of a step, where it is one.
    fn fault(self) -> (fault: Option<ScanFault>)
        ensures
            match self.visit() {
                Visit::Failed { fault: expected } => fault matches Some(found) && found.fault()
                    == expected,
                _ => fault is None,
            },
    {
        match self {
            Step::AddressOverflow => Some(ScanFault::AddressOverflow),
            Step::RangeOverflow => Some(ScanFault::RangeOverflow),
            Step::TooMany => Some(ScanFault::TooManyMatches),
            _ => None,
        }
    }
}

/// What a scan has found so far.
pub struct ScanCollected {
    pub matches: Vec<usize>,
    pub scanned_regions: usize,
    pub skipped_regions: usize,
    pub errors: Vec<MemoryScanRegionError>,
}

impl View for ScanCollected {
    type V = Collected;

    open spec fn view(&self) -> Collected {
        Collected {
            matches: self.matches@,
            scanned_regions: self.scanned_regions as nat,
            skipped_regions: self.skipped_regions as nat,
            errors: self.errors@.map_values(
                |error: MemoryScanRegionError| (error.base_address@, error.message@),
            ),
        }
    }
}

/// Reads that the scan of one region makes: it reads on until nothing more can
/// be read or a match ends it.
pub open spec fn reads_fit(
    start: int,
    size: int,
    wanted: Wanted,
    before: Collected,
    reads: Seq<Read>,
) -> bool {
    let (data, progress) = reading(start, size, reads);
    let (matches, visit) = visit_all(
        before.matches,
        start,
        occurrences(data, wanted.signature),
        wanted,
    );
    &&& !(progress is Stray)
    &&& visit is Going ==> !(progress is More)
}

/// What the scan of one region adds, and the failure that ends it.
pub open spec fn region_outcome(
    start: int,
    size: int,
    wanted: Wanted,
    before: Collected,
    reads: Seq<Read>,
) -> (Collected, Option<Failure>) {
    let (data, progress) = reading(start, size, reads);
    let (matches, visit) = visit_all(
        before.matches,
        start,
        occurrences(data, wanted.signature),
        wanted,
    );
    let found = Collected { matches, ..before };
    match (visit, progress) {
        (Visit::Failed { fault }, _) => (found, Some(fault)),
        (Visit::Going, Progress::Short) => (
            Collected { skipped_regions: before.skipped_regions + 1, ..found },
            None,
        ),
        (Visit::Going, Progress::Unreadable { error }) => (
            Collected {
                skipped_regions: before.skipped_regions + 1,
                errors: if before.errors.len() < MAX_SCAN_ERRORS {
                    before.errors.push((address_text(start as nat), error.message@))
                } else {
                    before.errors
                },
                ..found
            },
            None,
        ),
        _ => (found, None),
    }
}

/// Reads the next chunk of a region, with smaller requests where larger ones
/// fail.
fn read_scan_chunk<B: MemoryBackend>(
    backend: &B,
    handle: &B::Handle,
    address: usize,
    preferred_size: usize,
    Ghost(start): Ghost<int>,
    Ghost(size): Ghost<int>,
    Ghost(reads): Ghost<Seq<Read>>,
) -> (chunk: (Result<(Vec<u8>, usize), ProcessBackendError>, Ghost<Seq<Read>>))
    requires
        all_read(backend, handle, reads),
        preferred_size > 0,
        reading(start, size, reads).1 == (Progress::More {
            offset: address - start,
            request: preferred_size as int,
        }),
    ensures
        all_read(backend, handle, chunk.1@),
        match chunk.0 {
            Ok((bytes, request)) => {
                &&& request > 0
                &&& reading(start, size, chunk.1@) == (
                    reading(start, size, reads).0 + bytes@,
                    after_chunk(size, address - start, request as int, bytes@.len() as int),
                )
            },
            Err(error) => reading(start, size, chunk.1@) == (
                reading(start, size, reads).0,
                Progress::Unreadable { error },
            ),
        },
{
    let mut request_size: usize = preferred_size;
    let ghost mut log = reads;
    loop
        invariant
            request_size > 0,
            all_read(backend, handle, log),
            reading(start, size, log) == (
                reading(start, size, reads).0,
                Progress::More { offset: address - start, request: request_size as int },
            ),
        decreases request_size,
    {
        let outcome = backend.read_memory(handle, address, request_size);
        let ghost read = Read { address: address as int, size: request_size as int, outcome };
        let ghost next = log.push(read);
        proof {
            assert(next.drop_last() =~= log);
            assert forall|i: int| 0 <= i < next.len() implies {
                let read = #[trigger] next[i];
                &&& 0 <= read.address <= usize::MAX
                &&& 0 <= read.size <= usize::MAX
                &&& call_ensures(
                    B::read_memory,
                    (backend, handle, read.address as usize, read.size as usize),
                    read.outcome,
                )
            } by {
                if i < log.len() {
                    assert(next[i] == log[i]);
                }
            }
        }
        match outcome {
            Ok(bytes) => {
                return (Ok((bytes, request_size)), Ghost(next));
            },
            Err(error) => {
                if request_size > MIN_SCAN_CHUNK_SIZE {
                    let half: usize = request_size / 2;
                    request_size = if half < MIN_SCAN_CHUNK_SIZE {
                        MIN_SCAN_CHUNK_SIZE
                    } else {
                        half
                    };
                    proof {
                        log = next;
                    }
                } else {
                    return (Err(error), Ghost(next));
                }
            },
        }
    }
}

/// The last bytes of a run, at most so many.
fn tail_of(bytes: &Vec<u8>, most: usize) -> (tail: Vec<u8>)
    ensures
        tail@ == bytes@.skip(
            if bytes@.len() <= most {
                0
            } else {
                bytes@.len() - most
            },
        ),
{
    let from: usize = if bytes.len() <= most {
        0
    } else {
        bytes.len() - most
    };
    let tail = slice_to_vec(slice_subrange(bytes.as_slice(), from, bytes.len()));
    proof {
        assert(tail@ =~= bytes@.skip(from as int));
    }
    tail
}

/// Scans one region for a signature.
pub(crate) fn scan_region<B: MemoryBackend>(
    backend: &B,
    handle: &B::Handle,
    start: usize,
    size: usize,
    options: ScanOptions<'_>,
    collected: &mut ScanCollected,
) -> (scanned: (Result<(), ScanFault>, Ghost<Seq<Read>>))
    requires
        start + size <= usize::MAX,
        options.signature@.len() > 0,
        old(collected).skipped_regions < usize::MAX,
    ensures
        all_read(backend, handle, scanned.1@),
        reads_fit(start as int, size as int, options@, old(collected)@, scanned.1@),
        (
            final(collected)@,
            match scanned.0 {
                Ok(_) => None,
                Err(fault) => Some(fault.fault()),
            },
        ) == region_outcome(start as int, size as int, options@, old(collected)@, scanned.1@),
        final(collected).skipped_regions <= old(collected).skipped_regions + 1,
{
    let ghost before = collected@;
    let ghost first = collected.matches@;
    let ghost signature = options.signature@;
    let overlap: usize = options.signature.len() - 1;
    let mut offset: usize = 0;
    let mut chunk_size: usize = SCAN_CHUNK_SIZE;
    let mut previous: Vec<u8> = Vec::new();
    let ghost mut reads: Seq<Read> = Seq::empty();
    let ghost mut data: Seq<u8> = Seq::empty();
    proof {
        assert(previous@ =~= data.skip(0));
        assert(occurrences(data, signature) =~= Seq::<int>::empty());
    }
    while offset < size
        invariant
            start + size <= usize::MAX,
            options.signature@ == signature,
            signature.len() == overlap + 1,
            before == old(collected)@,
            first == before.matches,
            before.skipped_regions < usize::MAX,
            all_read(backend, handle, reads),
            reading(start as int, size as int, reads).0 == data,
            !(reading(start as int, size as int, reads).1 is Stray),
            offset < size ==> data.len() == offset && chunk_size > 0 && reading(
                start as int,
                size as int,
                reads,
            ).1 == (Progress::More {
                offset: offset as int,
                request: smaller(size - offset, chunk_size as int),
            }),
            offset >= size ==> reading(start as int, size as int, reads).1 is Complete,
            previous@ == data.skip(
                if data.len() <= overlap {
                    0
                } else {
                    data.len() - overlap
                },
            ),
            visit_all(first, start as int, occurrences(data, signature), options@) == (
                collected.matches@,
                Visit::Going,
            ),
            collected@ == (Collected { matches: collected.matches@, ..before }),
        decreases
            (if offset < size {
                size - offset
            } else {
                0
            }),
    {
        let request_size: usize = if size - offset <= chunk_size {
            size - offset
        } else {
            chunk_size
        };
        let address: usize = start + offset;
        let (chunk, Ghost(log)) = read_scan_chunk(
            backend,
            handle,
            address,
            request_size,
            Ghost(start as int),
            Ghost(size as int),
            Ghost(reads),
        );
        match chunk {
            Err(error) => {
                collected.skipped_regions = collected.skipped_regions + 1;
                if collected.errors.len() < MAX_SCAN_ERRORS {
                    let ghost noted = collected@.errors;
                    collected.errors.push(
                        MemoryScanRegionError {
                            base_address: format_address(start),
                            message: error.message,
                        },
                    );
                    proof {
                        assert(collected@.errors =~= noted.push(
                            (address_text(start as nat), error.message@),
                        ));
                    }
                }
                return (Ok(()), Ghost(log));
            },
            Ok((bytes, actual_request_size)) => {
                chunk_size = actual_request_size;
                let earlier: usize = previous.len();
                let ghost base = data.len() - earlier;
                let mut combined: Vec<u8> = previous;
                combined.extend_from_slice(bytes.as_slice());
                proof {
                    assert(combined@ =~= (data + bytes@).skip(base));
                }
                let step = visit_chunk(
                    combined.as_slice(),
                    address - earlier,
                    earlier,
                    options,
                    &mut collected.matches,
                    Ghost(first),
                    Ghost(start as int),
                    Ghost(data),
                    Ghost(bytes@),
                    Ghost(base),
                );
                proof {
                    reads = log;
                    data = data + bytes@;
                }
                if let Some(fault) = step.fault() {
                    return (Err(fault), Ghost(reads));
                }
                if step == Step::Ambiguous {
                    return (Ok(()), Ghost(reads));
                }
                if bytes.len() < actual_request_size {
                    collected.skipped_regions = collected.skipped_regions + 1;
                    return (Ok(()), Ghost(reads));
                }
                previous = tail_of(&combined, overlap);
                proof {
                    assert(previous@ =~= data.skip(
                        if data.len() <= overlap {
                            0
                        } else {
                            data.len() - overlap
                        },
                    ));
                }
                offset = offset.saturating_add(bytes.len());
            },
        }
    }
    (Ok(()), Ghost(reads))
}

/// A scan that has not ended has taken in every occurrence in what was read,
/// once each and in ascending order.
pub proof fn scan_takes_every_occurrence(
    matches: Seq<usize>,
    start: int,
    data: Seq<u8>,
    wanted: Wanted,
)
    requires
        0 <= start,
        visit_all(matches, start, occurrences(data, wanted.signature), wanted).1 is Going,
    ensures
        ({
            let after = visit_all(matches, start, occurrences(data, wanted.signature), wanted).0;
            let offsets = occurrences(data, wanted.signature);
            &&& after.len() == matches.len() + offsets.len()
            &&& after.take(matches.len() as int) == matches
            &&& forall|i: int|
                0 <= i < offsets.len() ==> #[trigger] after[matches.len() + i] == start + offsets[i]
            &&& forall|at: int|
                0 < wanted.signature.len() && #[trigger] matches_at(data, wanted.signature, at)
                    ==> exists|i: int|
                    matches.len() <= i < after.len() && #[trigger] after[i] == start + at
        }),
{
    let offsets = occurrences(data, wanted.signature);
    let after = visit_all(matches, start, offsets, wanted).0;
    lemma_occurrences(data, wanted.signature);
    hits_are_complete(places(data, wanted.signature), matching(data, wanted.signature));
    lemma_visit_going(matches, start, offsets, wanted);
    assert forall|at: int|
        0 < wanted.signature.len() && #[trigger] matches_at(
            data,
            wanted.signature,
            at,
        ) implies exists|i: int|
        matches.len() <= i < after.len() && #[trigger] after[i] == start + at by {
        assert(matching(data, wanted.signature)(at));
        let i = choose|i: int| 0 <= i < offsets.len() && offsets[i] == at;
        assert(after[matches.len() + i] == start + offsets[i]);
    }
}

proof fn lemma_visit_going(matches: Seq<usize>, start: int, offsets: Seq<int>, wanted: Wanted)
    requires
        0 <= start,
        forall|i: int| 0 <= i < offsets.len() ==> 0 <= #[trigger] offsets[i],
        visit_all(matches, start, offsets, wanted).1 is Going,
    ensures
        ({
            let after = visit_all(matches, start, offsets, wanted).0;
            &&& after.len() == matches.len() + offsets.len()
            &&& after.take(matches.len() as int) == matches
            &&& forall|i: int|
                0 <= i < offsets.len() ==> #[trigger] after[matches.len() + i] == start + offsets[i]
        }),
    decreases offsets.len(),
{
    let after = visit_all(matches, start, offsets, wanted).0;
    if offsets.len() > 0 {
        let front = offsets.drop_last();
        lemma_visit_going(matches, start, front, wanted);
        let seen = visit_all(matches, start, front, wanted).0;
        assert(after.take(matches.len() as int) =~= seen.take(matches.len() as int));
        assert forall|i: int| 0 <= i < offsets.len() implies #[trigger] after[matches.len() + i]
            == start + offsets[i] by {
            if i < front.len() {
                assert(seen[matches.len() + i] == start + front[i]);
            }
        }
    } else {
        assert(after.take(matches.len() as int) =~= matches);
    }
}

/// What looking for one of several unique signatures asks for.
pub open spec fn wanted_once(signature: Seq<Option<u8>>) -> Wanted {
    Wanted { signature, max_matches: 1, unique: true }
}

/// The matches of a unique signature after the occurrences in the data were
/// taken in without a failure.
pub open spec fn taken_in(
    before: Seq<usize>,
    start: int,
    data: Seq<u8>,
    signature: Seq<Option<u8>>,
    after: Seq<usize>,
) -> bool {
    let (matches, visit) = visit_unique(before, start, occurrences(data, signature), signature);
    after == matches && !(visit is Failed)
}

/// What the scan of one region for several unique signatures adds. Reading
/// goes on to the end of what can be read; of each signature the first match
/// and the one that makes it ambiguous are kept.
pub open spec fn region_scanned_for_all(
    start: int,
    size: int,
    signatures: Seq<Vec<Option<u8>>>,
    before: Seq<Vec<usize>>,
    reads: Seq<Read>,
    after: Seq<Vec<usize>>,
    fault: Option<Failure>,
) -> bool {
    let (data, progress) = reading(start, size, reads);
    match fault {
        None => {
            &&& progress is Complete || progress is Short || progress is Unreadable
            &&& after.len() == before.len()
            &&& forall|k: int|
                0 <= k < signatures.len() ==> taken_in(
                    before[k]@,
                    start,
                    data,
                    signatures[k]@,
                    (#[trigger] after[k])@,
                )
        },
        Some(cause) => {
            &&& !(progress is Stray)
            &&& exists|k: int|
                0 <= k < signatures.len() && (#[trigger] visit_unique(
                    before[k]@,
                    start,
                    occurrences(data, signatures[k]@),
                    signatures[k]@,
                )).1 == (Visit::Failed { fault: cause })
        },
    }
}

/// The matches of a unique signature after more occurrences. One that is
/// ambiguous already is left as it is.
pub open spec fn visit_unique(
    matches: Seq<usize>,
    start: int,
    offsets: Seq<int>,
    signature: Seq<Option<u8>>,
) -> (Seq<usize>, Visit) {
    if matches.len() > 1 {
        (matches, Visit::Ambiguous)
    } else {
        visit_all(matches, start, offsets, wanted_once(signature))
    }
}

/// The matches that a signature has after a chunk, whether or not the scan
/// for it had ended before.
proof fn lemma_visit_unique_ended(
    matches: Seq<usize>,
    start: int,
    data: Seq<u8>,
    more: Seq<u8>,
    signature: Seq<Option<u8>>,
)
    requires
        !(visit_unique(matches, start, occurrences(data, signature), signature).1 is Going),
    ensures
        visit_unique(matches, start, occurrences(data + more, signature), signature)
            == visit_unique(matches, start, occurrences(data, signature), signature),
{
    if matches.len() <= 1 {
        let holds = matching(data + more, signature);
        let low = places(data, signature);
        let high = places(data + more, signature);
        lemma_occurrences_extend(data, more, signature);
        lemma_occurrences(data + more, signature);
        lemma_hits_prefix(low, high, holds);
        lemma_visit_ended(
            matches,
            start,
            occurrences(data + more, signature),
            hits(low, holds).len() as int,
            wanted_once(signature),
        );
    }
}

/// A visit that goes on has at most one match; an ambiguous one has more.
proof fn lemma_visit_unique_len(
    matches: Seq<usize>,
    start: int,
    offsets: Seq<int>,
    signature: Seq<Option<u8>>,
)
    ensures
        visit_unique(matches, start, offsets, signature).1 is Going ==> visit_unique(
            matches,
            start,
            offsets,
            signature,
        ).0.len() <= 1,
        visit_unique(matches, start, offsets, signature).1 is Ambiguous ==> visit_unique(
            matches,
            start,
            offsets,
            signature,
        ).0.len() > 1,
    decreases offsets.len(),
{
    if matches.len() <= 1 && offsets.len() > 0 {
        lemma_visit_unique_len(matches, start, offsets.drop_last(), signature);
    }
}

fn longest(signatures: &Vec<Vec<Option<u8>>>) -> (len: usize)
    ensures
        forall|k: int| 0 <= k < signatures@.len() ==> (#[trigger] signatures@[k])@.len() <= len,
{
    let mut len: usize = 0;
    let mut i: usize = 0;
    while i < signatures.len()
        invariant
            i <= signatures@.len(),
            forall|k: int| 0 <= k < i ==> (#[trigger] signatures@[k])@.len() <= len,
        decreases signatures@.len() - i,
    {
        if signatures[i].len() > len {
            len = signatures[i].len();
        }
        i += 1;
    }
    len
}

/// Scans one region for several signatures that are each to be unique.
pub(crate) fn scan_region_for_unique_signatures<B: MemoryBackend>(
    backend: &B,
    handle: &B::Handle,
    start: usize,
    size: usize,
    signatures: &Vec<Vec<Option<u8>>>,
    matches: &mut Vec<Vec<usize>>,
) -> (scanned: (Result<(), ScanFault>, Ghost<Seq<Read>>))
    requires
        start + size <= usize::MAX,
        old(matches)@.len() == signatures@.len(),
    ensures
        all_read(backend, handle, scanned.1@),
        final(matches)@.len() == signatures@.len(),
        region_scanned_for_all(
            start as int,
            size as int,
            signatures@,
            old(matches)@,
            scanned.1@,
            final(matches)@,
            match scanned.0 {
                Ok(_) => None,
                Err(fault) => Some(fault.fault()),
            },
        ),
{
    let ghost before = matches@;
    let most: usize = longest(signatures);
    let overlap: usize = if most > 0 {
        most - 1
    } else {
        0
    };
    let mut offset: usize = 0;
    let mut chunk_size: usize = SCAN_CHUNK_SIZE;
    let mut previous: Vec<u8> = Vec::new();
    let ghost mut reads: Seq<Read> = Seq::empty();
    let ghost mut data: Seq<u8> = Seq::empty();
    proof {
        assert(previous@ =~= data.skip(0));
        assert forall|k: int| 0 <= k < signatures@.len() implies occurrences(
            data,
            (#[trigger] signatures@[k])@,
        ) =~= Seq::<int>::empty() by {}
    }
    while offset < size
        invariant
            start + size <= usize::MAX,
            before == old(matches)@,
            before.len() == signatures@.len(),
            matches@.len() == signatures@.len(),
            forall|k: int|
                0 <= k < signatures@.len() ==> (#[trigger] signatures@[k])@.len() <= overlap + 1,
            all_read(backend, handle, reads),
            reading(start as int, size as int, reads).0 == data,
            offset < size ==> data.len() == offset && chunk_size > 0 && reading(
                start as int,
                size as int,
                reads,
            ).1 == (Progress::More {
                offset: offset as int,
                request: smaller(size - offset, chunk_size as int),
            }),
            offset >= size ==> reading(start as int, size as int, reads).1 is Complete,
            previous@ == data.skip(
                if data.len() <= overlap {
                    0
                } else {
                    data.len() - overlap
                },
            ),
            forall|k: int|
                0 <= k < signatures@.len() ==> taken_in(
                    before[k]@,
                    start as int,
                    data,
                    signatures@[k]@,
                    (#[trigger] matches@[k])@,
                ),
        decreases
            (if offset < size {
                size - offset
            } else {
                0
            }),
    {
        let request_size: usize = if size - offset <= chunk_size {
            size - offset
        } else {
            chunk_size
        };
        let address: usize = start + offset;
        let (chunk, Ghost(log)) = read_scan_chunk(
            backend,
            handle,
            address,
            request_size,
            Ghost(start as int),
            Ghost(size as int),
            Ghost(reads),
        );
        let (bytes, actual_request_size) = match chunk {
            Ok(read) => read,
            Err(_) => {
                return (Ok(()), Ghost(log));
            },
        };
        chunk_size = actual_request_size;
        let earlier: usize = previous.len();
        let ghost base = data.len() - earlier;
        let mut combined: Vec<u8> = previous;
        combined.extend_from_slice(bytes.as_slice());
        let ghost all = data + bytes@;
        proof {
            assert(combined@ =~= all.skip(base));
        }
        let mut k: usize = 0;
        while k < signatures.len()
            invariant
                k <= signatures@.len(),
                before == old(matches)@,
                before.len() == signatures@.len(),
                matches@.len() == signatures@.len(),
                all == data + bytes@,
                combined@ == all.skip(base),
                0 <= base <= data.len(),
                base == 0 || base + overlap == data.len(),
                earlier == data.len() - base,
                address == start + data.len(),
                all_read(backend, handle, log),
                reading(start as int, size as int, log).0 == all,
                !(reading(start as int, size as int, log).1 is Stray),
                forall|j: int|
                    0 <= j < signatures@.len() ==> (#[trigger] signatures@[j])@.len() <= overlap
                        + 1,
                forall|j: int|
                    0 <= j < k ==> taken_in(
                        before[j]@,
                        start as int,
                        all,
                        signatures@[j]@,
                        (#[trigger] matches@[j])@,
                    ),
                forall|j: int|
                    k <= j < signatures@.len() ==> taken_in(
                        before[j]@,
                        start as int,
                        data,
                        signatures@[j]@,
                        (#[trigger] matches@[j])@,
                    ),
            decreases signatures@.len() - k,
        {
            let signature = &signatures[k];
            let ghost held = matches@;
            proof {
                let (seen, visit) = visit_unique(
                    before[k as int]@,
                    start as int,
                    occurrences(data, signature@),
                    signature@,
                );
                assert(matches@[k as int]@ == seen);
                lemma_visit_unique_len(
                    before[k as int]@,
                    start as int,
                    occurrences(data, signature@),
                    signature@,
                );
                if seen.len() > 1 {
                    lemma_visit_unique_ended(
                        before[k as int]@,
                        start as int,
                        data,
                        bytes@,
                        signature@,
                    );
                }
                if before[k as int]@.len() > 1 {
                    assert(seen.len() > 1);
                }
            }
            if matches[k].len() <= 1 {
                let options = ScanOptions {
                    signature: signature.as_slice(),
                    max_matches: 1,
                    unique: true,
                };
                proof {
                    assert(signatures@[k as int]@.len() <= overlap + 1);
                }
                let step = visit_chunk(
                    combined.as_slice(),
                    address - earlier,
                    earlier,
                    options,
                    &mut matches[k],
                    Ghost(before[k as int]@),
                    Ghost(start as int),
                    Ghost(data),
                    Ghost(bytes@),
                    Ghost(base),
                );
                proof {
                    assert(options@ == wanted_once(signature@));
                }
                if let Some(fault) = step.fault() {
                    proof {
                        assert(visit_unique(
                            before[k as int]@,
                            start as int,
                            occurrences(all, signatures@[k as int]@),
                            signatures@[k as int]@,
                        ).1 == (Visit::Failed { fault: fault.fault() }));
                    }
                    return (Err(fault), Ghost(log));
                }
            }
            proof {
                assert forall|j: int|
                    0 <= j < signatures@.len() && j != k implies #[trigger] matches@[j]
                    == held[j] by {}
                assert forall|j: int| k < j < signatures@.len() implies taken_in(
                    before[j]@,
                    start as int,
                    data,
                    signatures@[j]@,
                    (#[trigger] matches@[j])@,
                ) by {
                    assert(matches@[j] == held[j]);
                }
                assert forall|j: int| 0 <= j < k + 1 implies taken_in(
                    before[j]@,
                    start as int,
                    all,
                    signatures@[j]@,
                    (#[trigger] matches@[j])@,
                ) by {
                    if j < k {
                        assert(matches@[j] == held[j]);
                    }
                }
            }
            k += 1;
        }
        proof {
            reads = log;
            data = all;
        }
        if bytes.len() < actual_request_size {
            return (Ok(()), Ghost(reads));
        }
        previous = tail_of(&combined, overlap);
        proof {
            assert(previous@ =~= data.skip(
                if data.len() <= overlap {
                    0
                } else {
                    data.len() - overlap
                },
            ));
        }
        offset = offset.saturating_add(bytes.len());
    }
    (Ok(()), Ghost(reads))
}

}
