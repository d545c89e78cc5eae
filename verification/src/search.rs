//! Finding signatures in the memory of a session's process.

use vstd::prelude::*;
use vstd::string::*;

use crate::backend::{MemoryBackend, ProcessBackendError};
use crate::codec::{
    be_value, be_values_are_spelled, le_value, le_values_are_spelled, read_be, read_le, spelled_be,
    spelled_le,
};
use crate::memory::{
    address_of, admits, decode_typed, fails, live_checks, live_outcome, parse_address, read_failure,
    regions_value, take_regions, typed_mismatch, typed_value, MemoryApiError,
};
use crate::order::{sorted_by, sorting_orders_the_items, stable_sort};
use crate::process::{ProcessSessionRegistry, Sessions};
use crate::protocol::{
    ByteOrder, MemoryPointerChainRequest, MemoryPointerChainResponse, MemoryRegionDescriptor,
    MemoryScanRegionError, MemoryScanRequest, MemoryScanResponse, MemoryScanScope, ModuleDescriptor,
    ProcessIdentity, ProcessSessionId, TypedMemoryValue, MAX_POINTER_OFFSETS, MAX_SCAN_MATCHES,
    MAX_SCAN_REGIONS, MAX_SIGNATURE_BYTES,
};
use crate::rpc::{failure, Failure, RpcErrorCode};
use crate::scan::{
    all_read, reads_fit, region_outcome, region_scanned_for_all, scan_region,
    scan_region_for_unique_signatures, Collected, Read, ScanCollected, ScanFault, ScanOptions,
    Wanted,
};
use crate::signature::{
    lemma_signature_len, read_signature, read_tokens, words, SignatureFault, TokenFault,
};
use crate::text::{
    address_text, dec_text, format_address, format_decimal, join2, join3, lowered, quoted,
    quoted_text, same_ignoring_case, texts,
};

verus! {

/// The signature that text denotes.
pub open spec fn signature_value(text: Seq<char>) -> Result<Seq<Option<u8>>, Failure> {
    let tokens = words(text);
    if tokens.len() < 1 || tokens.len() > MAX_SIGNATURE_BYTES {
        Err(
            failure(
                RpcErrorCode::MemoryPatternInvalid,
                "signature must contain 1..="@ + dec_text(MAX_SIGNATURE_BYTES as nat) + " bytes"@,
            ),
        )
    } else {
        match read_tokens(tokens) {
            Ok(signature) => Ok(signature),
            Err((token, TokenFault::InvalidByte)) => Err(
                failure(
                    RpcErrorCode::MemoryPatternInvalid,
                    "invalid signature byte "@ + quoted_text(token),
                ),
            ),
            Err((token, TokenFault::InvalidToken)) => Err(
                failure(
                    RpcErrorCode::MemoryPatternInvalid,
                    "signature token "@ + quoted_text(token)
                        + " must be two hex digits or ??"@,
                ),
            ),
        }
    }
}

/// Reads a signature.
pub fn parse_signature(value: &str) -> (signature: Result<Vec<Option<u8>>, MemoryApiError>)
    ensures
        match (signature, signature_value(value@)) {
            (Ok(read), Ok(expected)) => read@ == expected && 1 <= read@.len()
                <= MAX_SIGNATURE_BYTES,
            (Err(error), Err(fault)) => error@ == fault && error is Request,
            _ => false,
        },
{
    proof {
        lemma_signature_len(words(value@));
    }
    match read_signature(value) {
        Ok(signature) => Ok(signature),
        Err(SignatureFault::Length) => {
            let most = format_decimal(MAX_SIGNATURE_BYTES as u64);
            Err(
                MemoryApiError::request(
                    RpcErrorCode::MemoryPatternInvalid,
                    join3("signature must contain 1..=", most.as_str(), " bytes"),
                ),
            )
        },
        Err(SignatureFault::Token { token, fault }) => {
            let shown = quoted(token.as_str());
            let message = match fault {
                TokenFault::InvalidByte => join2("invalid signature byte ", shown.as_str()),
                TokenFault::InvalidToken => join3(
                    "signature token ",
                    shown.as_str(),
                    " must be two hex digits or ??",
                ),
            };
            Err(MemoryApiError::request(RpcErrorCode::MemoryPatternInvalid, message))
        },
    }
}

/// Why a number of matches may not be asked for.
pub open spec fn limits_refusal(max_matches: usize) -> Option<Failure> {
    if max_matches == 0 || max_matches > MAX_SCAN_MATCHES {
        Some(
            failure(
                RpcErrorCode::MemoryLimitExceeded,
                "max_matches must be between 1 and "@ + dec_text(MAX_SCAN_MATCHES as nat),
            ),
        )
    } else {
        None
    }
}

/// Checks how many matches are asked for.
pub fn validate_scan_limits(max_matches: usize) -> (valid: Result<(), MemoryApiError>)
    ensures
        match limits_refusal(max_matches) {
            Some(fault) => fails(valid, fault),
            None => valid is Ok,
        },
{
    if max_matches == 0 || max_matches > MAX_SCAN_MATCHES {
        let most = format_decimal(MAX_SCAN_MATCHES as u64);
        return Err(
            MemoryApiError::request(
                RpcErrorCode::MemoryLimitExceeded,
                join2("max_matches must be between 1 and ", most.as_str()),
            ),
        );
    }
    Ok(())
}

/// Modules of the given name, ASCII case ignored.
pub open spec fn modules_named(modules: Seq<ModuleDescriptor>, name: Seq<char>) -> Seq<
    ModuleDescriptor,
> {
    modules.filter(|module: ModuleDescriptor| lowered(module.name@) == lowered(name))
}

/// The address range of the one module of that name.
pub open spec fn bounds_of(modules: Seq<ModuleDescriptor>, name: Seq<char>) -> Result<
    (usize, usize),
    Failure,
> {
    let named = modules_named(modules, name);
    if named.len() == 0 {
        Err(
            failure(
                RpcErrorCode::InvalidRequest,
                "module "@ + quoted_text(name) + " was not found in the process session"@,
            ),
        )
    } else if named.len() > 1 {
        Err(
            failure(
                RpcErrorCode::InvalidRequest,
                "module "@ + quoted_text(name) + " is ambiguous"@,
            ),
        )
    } else {
        match address_of(named[0].base_address@) {
            Err(fault) => Err(fault),
            Ok(start) => if start + named[0].size > usize::MAX {
                Err(
                    failure(
                        RpcErrorCode::MemoryInvalidAddress,
                        "module address range overflowed"@,
                    ),
                )
            } else {
                Ok((start, (start + named[0].size) as usize))
            },
        }
    }
}

/// The address range of the one module of that name.
pub fn module_bounds(modules: &Vec<ModuleDescriptor>, name: &str) -> (bounds: Result<
    (usize, usize),
    MemoryApiError,
>)
    ensures
        match (bounds, bounds_of(modules@, name@)) {
            (Ok(found), Ok(expected)) => found == expected,
            (Err(error), Err(fault)) => error@ == fault,
            _ => false,
        },
{
    let ghost wanted = |module: ModuleDescriptor| lowered(module.name@) == lowered(name@);
    let mut found: Option<usize> = None;
    let mut several = false;
    let mut i: usize = 0;
    proof {
        assert(modules@.take(0).filter(wanted) =~= Seq::<ModuleDescriptor>::empty()) by {
            reveal(Seq::filter);
        }
    }
    while i < modules.len()
        invariant
            i <= modules@.len(),
            wanted == (|module: ModuleDescriptor| lowered(module.name@) == lowered(name@)),
            several == (modules@.take(i as int).filter(wanted).len() > 1),
            match found {
                None => modules@.take(i as int).filter(wanted).len() == 0,
                Some(at) => at < i && modules@.take(i as int).filter(wanted).len() > 0
                    && modules@.take(i as int).filter(wanted)[0] == modules@[at as int],
            },
        decreases modules@.len() - i,
    {
        proof {
            let next = modules@.take(i + 1);
            assert(next.drop_last() =~= modules@.take(i as int));
            assert(next.last() == modules@[i as int]);
            assert(next.filter(wanted) == if wanted(modules@[i as int]) {
                next.drop_last().filter(wanted).push(modules@[i as int])
            } else {
                next.drop_last().filter(wanted)
            }) by {
                reveal(Seq::filter);
            }
        }
        if same_ignoring_case(modules[i].name.as_str(), name) {
            if found.is_some() {
                several = true;
            } else {
                found = Some(i);
            }
        }
        i += 1;
    }
    proof {
        assert(modules@.take(i as int) =~= modules@);
    }
    match found {
        None => {
            let shown = quoted(name);
            Err(
                MemoryApiError::request(
                    RpcErrorCode::InvalidRequest,
                    join3("module ", shown.as_str(), " was not found in the process session"),
                ),
            )
        },
        Some(at) => {
            if several {
                let shown = quoted(name);
                return Err(
                    MemoryApiError::request(
                        RpcErrorCode::InvalidRequest,
                        join3("module ", shown.as_str(), " is ambiguous"),
                    ),
                );
            }
            let start = parse_address(modules[at].base_address.as_str())?;
            match start.checked_add(modules[at].size as usize) {
                Some(end) => Ok((start, end)),
                None => Err(
                    MemoryApiError::request(
                        RpcErrorCode::MemoryInvalidAddress,
                        "module address range overflowed".to_owned(),
                    ),
                ),
            }
        },
    }
}

/// The part of the address space that a scan is confined to.
pub open spec fn scope_bounds(
    scope: MemoryScanScope,
    modules: Result<Vec<ModuleDescriptor>, ProcessBackendError>,
) -> Result<Option<(usize, usize)>, Failure> {
    match scope {
        MemoryScanScope::Process => Ok(None),
        MemoryScanScope::Module { name } => match modules {
            Err(error) => Err(read_failure(error)),
            Ok(modules) => match bounds_of(modules@, name@) {
                Err(fault) => Err(fault),
                Ok(bounds) => Ok(Some(bounds)),
            },
        },
    }
}

/// The part of a region that a scan looks at.
pub open spec fn span_of(
    region: MemoryRegionDescriptor,
    bounds: Option<(usize, usize)>,
) -> Result<(int, int), Failure> {
    match address_of(region.base_address@) {
        Err(fault) => Err(fault),
        Ok(start) => if start + region.size > usize::MAX {
            Err(
                failure(
                    RpcErrorCode::MemoryInvalidAddress,
                    "memory region address range overflowed"@,
                ),
            )
        } else {
            let end = start + region.size;
            match bounds {
                None => Ok((start as int, end)),
                Some((low, high)) => Ok(
                    (
                        if start < low {
                            low as int
                        } else {
                            start as int
                        },
                        if end > high {
                            high as int
                        } else {
                            end
                        },
                    ),
                ),
            }
        },
    }
}

/// The part of a region that a scan looks at.
fn region_span(region: &MemoryRegionDescriptor, bounds: Option<(usize, usize)>) -> (span: Result<
    (usize, usize),
    MemoryApiError,
>)
    ensures
        match (span, span_of(*region, bounds)) {
            (Ok(found), Ok(expected)) => found.0 == expected.0 && found.1 == expected.1,
            (Err(error), Err(fault)) => error@ == fault,
            _ => false,
        },
{
    let start = parse_address(region.base_address.as_str())?;
    let end: usize = match start.checked_add(region.size) {
        Some(end) => end,
        None => {
            return Err(
                MemoryApiError::request(
                    RpcErrorCode::MemoryInvalidAddress,
                    "memory region address range overflowed".to_owned(),
                ),
            );
        },
    };
    match bounds {
        None => Ok((start, end)),
        Some((low, high)) => Ok(
            (
                if start < low {
                    low
                } else {
                    start
                },
                if end > high {
                    high
                } else {
                    end
                },
            ),
        ),
    }
}

/// Nothing found yet.
pub open spec fn nothing_found() -> Collected {
    Collected {
        matches: Seq::empty(),
        scanned_regions: 0,
        skipped_regions: 0,
        errors: Seq::empty(),
    }
}

pub open spec fn ambiguous_match(count: nat) -> Failure {
    failure(
        RpcErrorCode::MemoryAmbiguousMatch,
        "signature matched more than one address"@,
    ).with("match_count"@, dec_text(count))
}

/// Whether the part of a region is wide enough for a signature.
pub open spec fn is_wide(low: int, high: int, wanted: Wanted) -> bool {
    low < high && high - low >= wanted.signature.len()
}

/// What one more region adds to what a scan has found.
pub open spec fn after_region(
    found: Collected,
    region: MemoryRegionDescriptor,
    bounds: Option<(usize, usize)>,
    wanted: Wanted,
    reads: Seq<Read>,
) -> (Collected, Option<Failure>) {
    match span_of(region, bounds) {
        Err(fault) => (found, Some(fault)),
        Ok((low, high)) => if !is_wide(low, high, wanted) {
            (found, None)
        } else {
            let counted = Collected { scanned_regions: found.scanned_regions + 1, ..found };
            let (after, fault) = region_outcome(low, high - low, wanted, counted, reads);
            if fault is None && wanted.unique && after.matches.len() > 1 {
                (after, Some(ambiguous_match(after.matches.len())))
            } else {
                (after, fault)
            }
        },
    }
}

/// What a scan has found after the first `n` regions, one list of reads each.
pub open spec fn after_regions(
    regions: Seq<MemoryRegionDescriptor>,
    n: nat,
    bounds: Option<(usize, usize)>,
    wanted: Wanted,
    logs: Seq<Seq<Read>>,
) -> (Collected, Option<Failure>)
    decreases n,
{
    if n == 0 {
        (nothing_found(), None)
    } else {
        let (found, fault) = after_regions(regions, (n - 1) as nat, bounds, wanted, logs);
        if fault is Some {
            (found, fault)
        } else {
            after_region(found, regions[n - 1], bounds, wanted, logs[n - 1])
        }
    }
}

/// The reads that one more region takes.
pub open spec fn region_read<B: MemoryBackend>(
    backend: &B,
    handle: &B::Handle,
    found: Collected,
    region: MemoryRegionDescriptor,
    bounds: Option<(usize, usize)>,
    wanted: Wanted,
    reads: Seq<Read>,
) -> bool {
    match span_of(region, bounds) {
        Ok((low, high)) => is_wide(low, high, wanted) ==> {
            &&& all_read(backend, handle, reads)
            &&& reads_fit(
                low,
                high - low,
                wanted,
                Collected { scanned_regions: found.scanned_regions + 1, ..found },
                reads,
            )
        },
        Err(_) => true,
    }
}

/// The reads that the first `n` regions take.
pub open spec fn regions_read<B: MemoryBackend>(
    backend: &B,
    handle: &B::Handle,
    regions: Seq<MemoryRegionDescriptor>,
    n: nat,
    bounds: Option<(usize, usize)>,
    wanted: Wanted,
    logs: Seq<Seq<Read>>,
) -> bool
    decreases n,
{
    if n == 0 {
        true
    } else {
        let less = (n - 1) as nat;
        let (found, fault) = after_regions(regions, less, bounds, wanted, logs);
        &&& regions_read(backend, handle, regions, less, bounds, wanted, logs)
        &&& fault is None ==> region_read(
            backend,
            handle,
            found,
            regions[n - 1],
            bounds,
            wanted,
            logs[n - 1],
        )
    }
}

proof fn lemma_logs_extend<B: MemoryBackend>(
    backend: &B,
    handle: &B::Handle,
    regions: Seq<MemoryRegionDescriptor>,
    n: nat,
    bounds: Option<(usize, usize)>,
    wanted: Wanted,
    logs: Seq<Seq<Read>>,
    more: Seq<Seq<Read>>,
)
    requires
        n <= logs.len() <= more.len(),
        forall|i: int| 0 <= i < n ==> #[trigger] logs[i] == more[i],
    ensures
        after_regions(regions, n, bounds, wanted, logs) == after_regions(
            regions,
            n,
            bounds,
            wanted,
            more,
        ),
        regions_read(backend, handle, regions, n, bounds, wanted, logs) == regions_read(
            backend,
            handle,
            regions,
            n,
            bounds,
            wanted,
            more,
        ),
    decreases n,
{
    if n > 0 {
        lemma_logs_extend(
            backend,
            handle,
            regions,
            (n - 1) as nat,
            bounds,
            wanted,
            logs,
            more,
        );
        assert(logs[n - 1] == more[n - 1]);
    }
}

/// A failure stays.
proof fn lemma_fault_stays(
    regions: Seq<MemoryRegionDescriptor>,
    n: nat,
    m: nat,
    bounds: Option<(usize, usize)>,
    wanted: Wanted,
    logs: Seq<Seq<Read>>,
)
    requires
        n <= m,
        after_regions(regions, n, bounds, wanted, logs).1 is Some,
    ensures
        after_regions(regions, m, bounds, wanted, logs) == after_regions(
            regions,
            n,
            bounds,
            wanted,
            logs,
        ),
    decreases m,
{
    if n < m {
        lemma_fault_stays(regions, n, (m - 1) as nat, bounds, wanted, logs);
    }
}

proof fn lemma_fault_stays_read<B: MemoryBackend>(
    backend: &B,
    handle: &B::Handle,
    regions: Seq<MemoryRegionDescriptor>,
    n: nat,
    m: nat,
    bounds: Option<(usize, usize)>,
    wanted: Wanted,
    logs: Seq<Seq<Read>>,
)
    requires
        n <= m,
        after_regions(regions, n, bounds, wanted, logs).1 is Some,
        regions_read(backend, handle, regions, n, bounds, wanted, logs),
    ensures
        regions_read(backend, handle, regions, m, bounds, wanted, logs),
    decreases m,
{
    if n < m {
        lemma_fault_stays(regions, n, (m - 1) as nat, bounds, wanted, logs);
        lemma_fault_stays_read(
            backend,
            handle,
            regions,
            n,
            (m - 1) as nat,
            bounds,
            wanted,
            logs,
        );
    }
}

/// What the backend answered to a scan.
pub ghost struct ScanCalls {
    pub regions: Result<Vec<MemoryRegionDescriptor>, ProcessBackendError>,
    pub modules: Result<Vec<ModuleDescriptor>, ProcessBackendError>,
    pub logs: Seq<Seq<Read>>,
}

pub open spec fn scan_limit_message() -> Seq<char> {
    "scan region count exceeds the protocol limit"@
}

/// The calls that a scan makes.
pub open spec fn scan_made<B: MemoryBackend>(
    backend: &B,
    handle: &B::Handle,
    identity: &ProcessIdentity,
    scope: MemoryScanScope,
    wanted: Wanted,
    calls: ScanCalls,
) -> bool {
    &&& call_ensures(B::enumerate_memory_regions, (backend, handle, identity), calls.regions)
    &&& regions_value(calls.regions, scan_limit_message()) matches Ok(regions) ==> {
        &&& scope is Module ==> call_ensures(
            B::enumerate_modules,
            (backend, handle, identity),
            calls.modules,
        )
        &&& scope_bounds(scope, calls.modules) matches Ok(bounds) ==> regions_read(
            backend,
            handle,
            regions,
            regions.len(),
            bounds,
            wanted,
            calls.logs,
        )
    }
}

/// Ascending addresses.
pub open spec fn by_address() -> spec_fn(usize) -> int {
    |address: usize| address as int
}

/// What a scan finds for what the backend answered.
pub open spec fn scan_value(
    scope: MemoryScanScope,
    wanted: Wanted,
    calls: ScanCalls,
) -> Result<Collected, Failure> {
    match regions_value(calls.regions, scan_limit_message()) {
        Err(fault) => Err(fault),
        Ok(regions) => match scope_bounds(scope, calls.modules) {
            Err(fault) => Err(fault),
            Ok(bounds) => {
                let (found, fault) = after_regions(
                    regions,
                    regions.len(),
                    bounds,
                    wanted,
                    calls.logs,
                );
                match fault {
                    Some(fault) => Err(fault),
                    None => Ok(
                        Collected { matches: sorted_by(found.matches, by_address()), ..found },
                    ),
                }
            },
        },
    }
}

fn fault_error(fault: ScanFault) -> (error: MemoryApiError)
    ensures
        error@ == fault.fault(),
{
    match fault {
        ScanFault::AddressOverflow => MemoryApiError::request(
            RpcErrorCode::MemoryInvalidAddress,
            "scan match address overflowed".to_owned(),
        ),
        ScanFault::RangeOverflow => MemoryApiError::request(
            RpcErrorCode::MemoryInvalidAddress,
            "scan match range overflowed".to_owned(),
        ),
        ScanFault::TooManyMatches => MemoryApiError::request(
            RpcErrorCode::MemoryLimitExceeded,
            "scan match count exceeds the requested limit".to_owned(),
        ),
    }
}

fn ambiguous_error(count: usize) -> (error: MemoryApiError)
    ensures
        error@ == ambiguous_match(count as nat),
{
    MemoryApiError::request(
        RpcErrorCode::MemoryAmbiguousMatch,
        "signature matched more than one address".to_owned(),
    ).with_detail("match_count", format_decimal(count as u64))
}

fn sort_addresses(addresses: Vec<usize>) -> (sorted: Vec<usize>)
    ensures
        sorted@ == sorted_by(addresses@, by_address()),
        sorted@.len() == addresses@.len(),
{
    let mut keys: Vec<i128> = Vec::new();
    let mut i: usize = 0;
    while i < addresses.len()
        invariant
            i <= addresses@.len(),
            keys@.len() == i,
            forall|j: int| 0 <= j < i ==> #[trigger] keys@[j] == by_address()(addresses@[j]),
        decreases addresses@.len() - i,
    {
        keys.push(addresses[i] as i128);
        i += 1;
    }
    proof {
        sorting_orders_the_items(addresses@, by_address());
    }
    stable_sort(addresses, keys, Ghost(by_address()))
}

/// The regions and the bounds of a scan.
fn scan_ground<B: MemoryBackend>(
    backend: &B,
    handle: &B::Handle,
    identity: &ProcessIdentity,
    scope: &MemoryScanScope,
) -> (ground: (
    Result<(Vec<MemoryRegionDescriptor>, Option<(usize, usize)>), MemoryApiError>,
    Ghost<Result<Vec<MemoryRegionDescriptor>, ProcessBackendError>>,
    Ghost<Result<Vec<ModuleDescriptor>, ProcessBackendError>>,
))
    ensures
        call_ensures(B::enumerate_memory_regions, (backend, handle, identity), ground.1@),
        regions_value(ground.1@, scan_limit_message()) is Ok && *scope is Module ==> call_ensures(
            B::enumerate_modules,
            (backend, handle, identity),
            ground.2@,
        ),
        match regions_value(ground.1@, scan_limit_message()) {
            Err(fault) => fails(ground.0, fault),
            Ok(regions) => match scope_bounds(*scope, ground.2@) {
                Err(fault) => fails(ground.0, fault),
                Ok(bounds) => ground.0 matches Ok((found, limits)) && found@ == regions && limits
                    == bounds && regions.len() <= MAX_SCAN_REGIONS,
            },
        },
{
    let reported = backend.enumerate_memory_regions(handle, identity);
    let ghost seen = reported;
    let ghost mut modules_seen: Result<Vec<ModuleDescriptor>, ProcessBackendError> = arbitrary();
    let regions = match take_regions(reported, "scan region count exceeds the protocol limit") {
        Ok(regions) => regions,
        Err(error) => {
            return (Err(error), Ghost(seen), Ghost(modules_seen));
        },
    };
    let bounds = match scope {
        MemoryScanScope::Process => None,
        MemoryScanScope::Module { name } => {
            let modules = backend.enumerate_modules(handle, identity);
            proof {
                modules_seen = modules;
            }
            match modules {
                Err(error) => {
                    return (
                        Err(MemoryApiError::from_backend(error)),
                        Ghost(seen),
                        Ghost(modules_seen),
                    );
                },
                Ok(modules) => match module_bounds(&modules, name.as_str()) {
                    Err(error) => {
                        return (Err(error), Ghost(seen), Ghost(modules_seen));
                    },
                    Ok(bounds) => Some(bounds),
                },
            }
        },
    };
    (Ok((regions, bounds)), Ghost(seen), Ghost(modules_seen))
}

/// Scans the memory of a process for a signature.
pub(crate) fn scan_for_addresses<B: MemoryBackend>(
    backend: &B,
    handle: &B::Handle,
    identity: &ProcessIdentity,
    scope: &MemoryScanScope,
    options: ScanOptions<'_>,
) -> (scanned: (Result<ScanCollected, MemoryApiError>, Ghost<ScanCalls>))
    requires
        options.signature@.len() > 0,
    ensures
        scan_made(backend, handle, identity, *scope, options@, scanned.1@),
        match (scanned.0, scan_value(*scope, options@, scanned.1@)) {
            (Ok(found), Ok(expected)) => found@ == expected,
            (Err(error), Err(fault)) => error@ == fault,
            _ => false,
        },
        options.unique ==> (scanned.0 matches Ok(found) ==> found.matches@.len() <= 1),
{
    let (ground, Ghost(reported), Ghost(modules)) = scan_ground(backend, handle, identity, scope);
    let ghost mut logs: Seq<Seq<Read>> = Seq::empty();
    let (regions, bounds) = match ground {
        Ok(ground) => ground,
        Err(error) => {
            return (Err(error), Ghost(ScanCalls { regions: reported, modules, logs }));
        },
    };
    let mut collected = ScanCollected {
        matches: Vec::new(),
        scanned_regions: 0,
        skipped_regions: 0,
        errors: Vec::new(),
    };
    proof {
        assert(collected@.errors =~= nothing_found().errors);
        assert(collected@ == nothing_found());
    }
    let ghost wanted = options@;
    let ghost total = regions@.len();
    let mut i: usize = 0;
    while i < regions.len()
        invariant
            i <= regions@.len(),
            total == regions@.len(),
            regions@.len() <= MAX_SCAN_REGIONS,
            wanted == options@,
            options.signature@.len() > 0,
            regions_value(reported, scan_limit_message()) == Ok::<_, Failure>(regions@),
            scope_bounds(*scope, modules) == Ok::<_, Failure>(bounds),
            call_ensures(B::enumerate_memory_regions, (backend, handle, identity), reported),
            *scope is Module ==> call_ensures(
                B::enumerate_modules,
                (backend, handle, identity),
                modules,
            ),
            logs.len() == i,
            after_regions(regions@, i as nat, bounds, wanted, logs) == (
                collected@,
                None::<Failure>,
            ),
            regions_read(backend, handle, regions@, i as nat, bounds, wanted, logs),
            collected.scanned_regions <= i,
            collected.skipped_regions <= i,
            options.unique ==> collected.matches@.len() <= 1,
        decreases regions@.len() - i,
    {
        let region = &regions[i];
        let ghost before = collected@;
        let ghost earlier = logs;
        let ghost mut fault: Option<Failure> = None;
        let mut failed: Option<MemoryApiError> = None;
        match region_span(region, bounds) {
            Err(error) => {
                proof {
                    logs = logs.push(Seq::empty());
                    fault = Some(error@);
                }
                failed = Some(error);
            },
            Ok((low, high)) => {
                if low >= high || high - low < options.signature.len() {
                    proof {
                        logs = logs.push(Seq::empty());
                    }
                } else {
                    collected.scanned_regions = collected.scanned_regions + 1;
                    proof {
                        assert(collected@ == (Collected {
                            scanned_regions: before.scanned_regions + 1,
                            ..before
                        }));
                    }
                    let (scanned, Ghost(reads)) = scan_region(
                        backend,
                        handle,
                        low,
                        high - low,
                        options,
                        &mut collected,
                    );
                    proof {
                        logs = logs.push(reads);
                    }
                    match scanned {
                        Err(cause) => {
                            let error = fault_error(cause);
                            proof {
                                fault = Some(error@);
                            }
                            failed = Some(error);
                        },
                        Ok(()) => {
                            if options.unique && collected.matches.len() > 1 {
                                let error = ambiguous_error(collected.matches.len());
                                proof {
                                    fault = Some(error@);
                                }
                                failed = Some(error);
                            }
                        },
                    }
                }
            },
        }
        proof {
            lemma_logs_extend(
                backend,
                handle,
                regions@,
                i as nat,
                bounds,
                wanted,
                earlier,
                logs,
            );
            assert(after_regions(regions@, (i + 1) as nat, bounds, wanted, logs) == after_region(
                before,
                regions@[i as int],
                bounds,
                wanted,
                logs[i as int],
            ));
            assert(after_regions(regions@, (i + 1) as nat, bounds, wanted, logs) == (
                collected@,
                fault,
            ));
            assert(regions_read(
                backend,
                handle,
                regions@,
                (i + 1) as nat,
                bounds,
                wanted,
                logs,
            ));
        }
        if let Some(error) = failed {
            proof {
                lemma_fault_stays(regions@, (i + 1) as nat, total, bounds, wanted, logs);
                lemma_fault_stays_read(
                    backend,
                    handle,
                    regions@,
                    (i + 1) as nat,
                    total,
                    bounds,
                    wanted,
                    logs,
                );
            }
            return (Err(error), Ghost(ScanCalls { regions: reported, modules, logs }));
        }
        i += 1;
    }
    let ghost found = collected@;
    let matches = sort_addresses(collected.matches);
    let collected = ScanCollected {
        matches,
        scanned_regions: collected.scanned_regions,
        skipped_regions: collected.skipped_regions,
        errors: collected.errors,
    };
    proof {
        assert(collected@ == (Collected {
            matches: sorted_by(found.matches, by_address()),
            ..found
        }));
    }
    (Ok(collected), Ghost(ScanCalls { regions: reported, modules, logs }))
}

/// The calls that a scan of a session makes.
pub open spec fn session_scan_made<B: MemoryBackend>(
    backend: &B,
    held: Sessions<B::Handle>,
    id: Seq<char>,
    scope: MemoryScanScope,
    wanted: Wanted,
    before: Result<(), ProcessBackendError>,
    calls: ScanCalls,
    after: Result<(), ProcessBackendError>,
) -> bool {
    &&& live_checks(backend, held, id, before, after)
    &&& admits(held, id, before) ==> scan_made(
        backend,
        &held.handle(id),
        &held.identity(id),
        scope,
        wanted,
        calls,
    )
}

/// The answer to a scan for what it found.
pub open spec fn scan_answer(
    request: MemoryScanRequest,
    found: Collected,
    answer: Result<MemoryScanResponse, MemoryApiError>,
) -> bool {
    if request.required && found.matches.len() == 0 {
        fails(
            answer,
            failure(
                RpcErrorCode::MemoryRequiredMatchNotFound,
                "required signature did not match any readable address"@,
            ),
        )
    } else if request.unique && found.matches.len() > 1 {
        fails(answer, ambiguous_match(found.matches.len()))
    } else {
        answer matches Ok(response) && {
            &&& response.session_id.0@ == request.session_id.0@
            &&& texts(response.matches@) == found.matches.map_values(
                |address: usize| address_text(address as nat),
            )
            &&& response.scanned_regions == found.scanned_regions
            &&& response.skipped_regions == found.skipped_regions
            &&& response.errors@.map_values(
                |error: MemoryScanRegionError| (error.base_address@, error.message@),
            ) == found.errors
        }
    }
}

/// Answers a scan for what it found.
pub fn finish_scan(request: &MemoryScanRequest, collected: ScanCollected) -> (answer: Result<
    MemoryScanResponse,
    MemoryApiError,
>)
    ensures
        scan_answer(*request, collected@, answer),
{
    if request.required && collected.matches.len() == 0 {
        return Err(
            MemoryApiError::request(
                RpcErrorCode::MemoryRequiredMatchNotFound,
                "required signature did not match any readable address".to_owned(),
            ),
        );
    }
    if request.unique && collected.matches.len() > 1 {
        return Err(ambiguous_error(collected.matches.len()));
    }
    let ghost shown = |address: usize| address_text(address as nat);
    let mut matches: Vec<String> = Vec::new();
    let mut i: usize = 0;
    while i < collected.matches.len()
        invariant
            i <= collected.matches@.len(),
            matches@.len() == i,
            forall|j: int|
                0 <= j < i ==> (#[trigger] matches@[j])@ == address_text(
                    collected.matches@[j] as nat,
                ),
        decreases collected.matches@.len() - i,
    {
        matches.push(format_address(collected.matches[i]));
        i += 1;
    }
    proof {
        assert(texts(matches@) =~= collected.matches@.map_values(shown));
    }
    Ok(
        MemoryScanResponse {
            session_id: request.session_id.clone(),
            matches,
            scanned_regions: collected.scanned_regions,
            skipped_regions: collected.skipped_regions,
            errors: collected.errors,
        },
    )
}

/// What a scan does: the sessions after it and its answer.
pub open spec fn scan_does<B: MemoryBackend>(
    backend: &B,
    held: Sessions<B::Handle>,
    request: MemoryScanRequest,
    later: Sessions<B::Handle>,
    answer: Result<MemoryScanResponse, MemoryApiError>,
) -> bool {
    let id = request.session_id.0@;
    match signature_value(request.signature@) {
        Err(fault) => later == held && fails(answer, fault),
        Ok(signature) => match limits_refusal(request.max_matches) {
            Some(fault) => later == held && fails(answer, fault),
            None => {
                let wanted = Wanted {
                    signature,
                    max_matches: request.max_matches as nat,
                    unique: request.unique,
                };
                exists|
                    before: Result<(), ProcessBackendError>,
                    calls: ScanCalls,
                    after: Result<(), ProcessBackendError>,
                |
                    {
                        &&& #[trigger] session_scan_made(
                            backend,
                            held,
                            id,
                            request.scope,
                            wanted,
                            before,
                            calls,
                            after,
                        )
                        &&& ({
                            let (left, outcome) = live_outcome(
                                held,
                                id,
                                before,
                                scan_value(request.scope, wanted, calls),
                                after,
                            );
                            later == left && match outcome {
                                Err(fault) => fails(answer, fault),
                                Ok(found) => scan_answer(request, found, answer),
                            }
                        })
                    }
            },
        },
    }
}

/// Addresses as the agent writes them.
pub open spec fn address_texts(places: Seq<usize>) -> Seq<Seq<char>> {
    places.map_values(|address: usize| address_text(address as nat))
}

/// A scan that succeeds answers with addresses, and those are as many as the
/// request allows: at least one where one is required, and at most one where it
/// is to be the only one.
pub proof fn scans_answer_places<B: MemoryBackend>(
    backend: &B,
    held: Sessions<B::Handle>,
    request: MemoryScanRequest,
    later: Sessions<B::Handle>,
    response: MemoryScanResponse,
)
    requires
        scan_does(backend, held, request, later, Ok(response)),
    ensures
        exists|places: Seq<usize>|
            texts(response.matches@) == #[trigger] address_texts(places) && (request.required
                ==> places.len() >= 1) && (request.unique ==> places.len() <= 1),
{
    let signature = signature_value(request.signature@)->Ok_0;
    let wanted = Wanted {
        signature,
        max_matches: request.max_matches as nat,
        unique: request.unique,
    };
    let id = request.session_id.0@;
    let (before, calls, after) = choose|
        before: Result<(), ProcessBackendError>,
        calls: ScanCalls,
        after: Result<(), ProcessBackendError>,
    |
        {
            &&& #[trigger] session_scan_made(
                backend,
                held,
                id,
                request.scope,
                wanted,
                before,
                calls,
                after,
            )
            &&& ({
                let (left, outcome) = live_outcome(
                    held,
                    id,
                    before,
                    scan_value(request.scope, wanted, calls),
                    after,
                );
                later == left && match outcome {
                    Err(fault) => fails(Ok::<MemoryScanResponse, MemoryApiError>(response), fault),
                    Ok(found) => scan_answer(request, found, Ok(response)),
                }
            })
        };
    let found = live_outcome(
        held,
        id,
        before,
        scan_value(request.scope, wanted, calls),
        after,
    ).1->Ok_0;
    let shown = |address: usize| address_text(address as nat);
    assert(scan_answer(request, found, Ok(response)));
    assert(texts(response.matches@) == found.matches.map_values(shown));
    assert(address_texts(found.matches) == found.matches.map_values(shown));
}

/// A scan that requires a match and no more than one, where it succeeds, has
/// found one place.
pub proof fn unique_scan_answers_one_place<B: MemoryBackend>(
    backend: &B,
    held: Sessions<B::Handle>,
    request: MemoryScanRequest,
    later: Sessions<B::Handle>,
    response: MemoryScanResponse,
)
    requires
        request.required,
        request.unique,
        scan_does(backend, held, request, later, Ok(response)),
    ensures
        exists|at: usize|
            texts(response.matches@) == seq![#[trigger] address_text(at as nat)],
{
    scans_answer_places(backend, held, request, later, response);
    let places = choose|places: Seq<usize>|
        texts(response.matches@) == #[trigger] address_texts(places) && (request.required
            ==> places.len() >= 1) && (request.unique ==> places.len() <= 1);
    assert(address_texts(places) =~= seq![address_text(places[0] as nat)]);
}

/// Scans the memory of a session's process for a signature.
pub fn scan<B: MemoryBackend>(
    sessions: &mut ProcessSessionRegistry<B::Handle>,
    backend: &B,
    request: &MemoryScanRequest,
) -> (answer: Result<MemoryScanResponse, MemoryApiError>)
    requires
        old(sessions).wf(),
    ensures
        final(sessions).wf(),
        old(sessions)@.leads_to(final(sessions)@),
        scan_does(backend, old(sessions)@, *request, final(sessions)@, answer),
{
    let signature = parse_signature(request.signature.as_str())?;
    validate_scan_limits(request.max_matches)?;
    let options = ScanOptions {
        signature: signature.as_slice(),
        max_matches: request.max_matches,
        unique: request.unique,
    };
    let ghost held = sessions@;
    let ghost id = request.session_id.0@;
    let ghost wanted = options@;
    let (verdict, Ghost(before)) = sessions.enter(backend, &request.session_id, false);
    if let Err(error) = verdict {
        proof {
            let calls: ScanCalls = arbitrary();
            let after: Result<(), ProcessBackendError> = arbitrary();
            assert(session_scan_made(
                backend,
                held,
                id,
                request.scope,
                wanted,
                before,
                calls,
                after,
            ));
        }
        return Err(MemoryApiError::Process(error));
    }
    let (handle, process) = sessions.live(&request.session_id);
    let (scanned, Ghost(calls)) = match &process.identity {
        Some(identity) => scan_for_addresses(backend, handle, identity, &request.scope, options),
        None => {
            assert(false);
            vstd::pervasive::unreached()
        },
    };
    let (verdict, Ghost(after)) = sessions.recheck(backend, &request.session_id);
    assert(session_scan_made(backend, held, id, request.scope, wanted, before, calls, after));
    if let Err(error) = verdict {
        return Err(MemoryApiError::Process(error));
    }
    match scanned {
        Ok(collected) => finish_scan(request, collected),
        Err(error) => Err(error),
    }
}

/// The pointer that bytes hold.
pub open spec fn pointer_value(width: u8, order: ByteOrder, bytes: Seq<u8>) -> Result<
    usize,
    Failure,
> {
    let number = match order {
        ByteOrder::LittleEndian => le_value(bytes),
        ByteOrder::BigEndian => be_value(bytes),
    };
    if width != 4 && width != 8 {
        Err(failure(RpcErrorCode::InvalidRequest, "pointer width must be 4 or 8 bytes"@))
    } else if bytes.len() != width {
        Err(failure(RpcErrorCode::MemoryReadFailed, "pointer read size mismatch"@))
    } else if number > usize::MAX {
        Err(offset_too_wide())
    } else {
        Ok(number as usize)
    }
}

pub open spec fn offset_too_wide() -> Failure {
    failure(
        RpcErrorCode::MemoryInvalidAddress,
        "pointer-chain offset does not fit the agent address width"@,
    )
}

fn u64_to_usize(value: u64) -> (fitted: Result<usize, MemoryApiError>)
    ensures
        value <= usize::MAX ==> fitted == Ok::<usize, MemoryApiError>(value as usize),
        value > usize::MAX ==> fails(fitted, offset_too_wide()),
{
    if value > usize::MAX as u64 {
        return Err(
            MemoryApiError::request(
                RpcErrorCode::MemoryInvalidAddress,
                "pointer-chain offset does not fit the agent address width".to_owned(),
            ),
        );
    }
    Ok(value as usize)
}

/// Decodes a pointer.
pub fn decode_pointer(width: u8, order: ByteOrder, bytes: &[u8]) -> (pointer: Result<
    usize,
    MemoryApiError,
>)
    ensures
        match (pointer, pointer_value(width, order, bytes@)) {
            (Ok(n), Ok(m)) => n == m,
            (Err(error), Err(fault)) => error@ == fault,
            _ => false,
        },
{
    if width != 4 && width != 8 {
        return Err(
            MemoryApiError::request(
                RpcErrorCode::InvalidRequest,
                "pointer width must be 4 or 8 bytes".to_owned(),
            ),
        );
    }
    if bytes.len() != width as usize {
        return Err(
            MemoryApiError::request(
                RpcErrorCode::MemoryReadFailed,
                "pointer read size mismatch".to_owned(),
            ),
        );
    }
    proof {
        assert(bytes@.subrange(0, bytes@.len() as int) =~= bytes@);
    }
    let number: u64 = match order {
        ByteOrder::LittleEndian => read_le(bytes, 0, width as usize),
        ByteOrder::BigEndian => read_be(bytes, 0, width as usize),
    };
    u64_to_usize(number)
}

/// An address moved by an offset.
pub open spec fn moved(address: usize, offset: u64, message: Seq<char>) -> Result<usize, Failure> {
    if offset > usize::MAX {
        Err(offset_too_wide())
    } else if address + offset > usize::MAX {
        Err(failure(RpcErrorCode::MemoryInvalidAddress, message))
    } else {
        Ok((address + offset) as usize)
    }
}

fn move_address(address: usize, offset: u64, message: &str) -> (result: Result<
    usize,
    MemoryApiError,
>)
    ensures
        match (result, moved(address, offset, message@)) {
            (Ok(n), Ok(m)) => n == m,
            (Err(error), Err(fault)) => error@ == fault,
            _ => false,
        },
{
    let offset: usize = u64_to_usize(offset)?;
    match address.checked_add(offset) {
        Some(moved) => Ok(moved),
        None => Err(
            MemoryApiError::request(RpcErrorCode::MemoryInvalidAddress, message.to_owned()),
        ),
    }
}

/// Where a chain of pointers has led after `n` of them.
pub open spec fn chain_address(
    root: usize,
    request: MemoryPointerChainRequest,
    reads: Seq<Result<Vec<u8>, ProcessBackendError>>,
    n: nat,
) -> Result<usize, Failure>
    decreases n,
{
    if n == 0 {
        Ok(root)
    } else {
        match chain_address(root, request, reads, (n - 1) as nat) {
            Err(fault) => Err(fault),
            Ok(address) => match moved(
                address,
                request.offsets@[n - 1],
                "pointer-chain address overflowed"@,
            ) {
                Err(fault) => Err(fault),
                Ok(_) => match reads[n - 1] {
                    Err(error) => Err(read_failure(error)),
                    Ok(bytes) => pointer_value(request.pointer_width, request.byte_order, bytes@),
                },
            },
        }
    }
}

/// Where the chain ends.
pub open spec fn chain_target(
    root: usize,
    request: MemoryPointerChainRequest,
    reads: Seq<Result<Vec<u8>, ProcessBackendError>>,
) -> Result<usize, Failure> {
    match chain_address(root, request, reads, request.dereference_count as nat) {
        Err(fault) => Err(fault),
        Ok(address) => moved(
            address,
            request.offsets@.last(),
            "pointer-chain target address overflowed"@,
        ),
    }
}

/// The pointers of a chain that were read.
pub open spec fn chain_read<B: MemoryBackend>(
    backend: &B,
    handle: &B::Handle,
    root: usize,
    request: MemoryPointerChainRequest,
    reads: Seq<Result<Vec<u8>, ProcessBackendError>>,
    n: nat,
) -> bool
    decreases n,
{
    if n == 0 {
        true
    } else {
        let less = (n - 1) as nat;
        &&& chain_read(backend, handle, root, request, reads, less)
        &&& chain_address(root, request, reads, less) matches Ok(address) ==> (moved(
            address,
            request.offsets@[n - 1],
            "pointer-chain address overflowed"@,
        ) matches Ok(at) ==> call_ensures(
            B::read_memory,
            (backend, handle, at, request.pointer_width as usize),
            reads[n - 1],
        ))
    }
}

proof fn lemma_chain_extends<B: MemoryBackend>(
    backend: &B,
    handle: &B::Handle,
    root: usize,
    request: MemoryPointerChainRequest,
    reads: Seq<Result<Vec<u8>, ProcessBackendError>>,
    more: Seq<Result<Vec<u8>, ProcessBackendError>>,
    n: nat,
)
    requires
        n <= reads.len() <= more.len(),
        forall|i: int| 0 <= i < n ==> #[trigger] reads[i] == more[i],
    ensures
        chain_address(root, request, reads, n) == chain_address(root, request, more, n),
        chain_read(backend, handle, root, request, reads, n) == chain_read(
            backend,
            handle,
            root,
            request,
            more,
            n,
        ),
    decreases n,
{
    if n > 0 {
        lemma_chain_extends(backend, handle, root, request, reads, more, (n - 1) as nat);
        assert(reads[n - 1] == more[n - 1]);
    }
}

proof fn lemma_chain_stays<B: MemoryBackend>(
    backend: &B,
    handle: &B::Handle,
    root: usize,
    request: MemoryPointerChainRequest,
    reads: Seq<Result<Vec<u8>, ProcessBackendError>>,
    n: nat,
    m: nat,
)
    requires
        n <= m,
        chain_address(root, request, reads, n) is Err,
        chain_read(backend, handle, root, request, reads, n),
    ensures
        chain_address(root, request, reads, m) == chain_address(root, request, reads, n),
        chain_read(backend, handle, root, request, reads, m),
    decreases m,
{
    if n < m {
        lemma_chain_stays(backend, handle, root, request, reads, n, (m - 1) as nat);
    }
}

/// Why a chain of pointers may not be asked for.
pub open spec fn chain_refusal(request: MemoryPointerChainRequest) -> Option<Failure> {
    if request.offsets@.len() == 0 || request.offsets@.len() > MAX_POINTER_OFFSETS
        || request.offsets@.len() != request.dereference_count + 1 {
        Some(
            failure(
                RpcErrorCode::InvalidRequest,
                "pointer-chain offsets must contain dereference_count + 1 entries"@,
            ),
        )
    } else if request.pointer_width != 4 && request.pointer_width != 8 {
        Some(failure(RpcErrorCode::InvalidRequest, "pointer width must be 4 or 8 bytes"@))
    } else {
        None
    }
}

/// What the backend answered to a chain of pointers.
pub ghost struct ChainCalls {
    pub scan: ScanCalls,
    pub pointers: Seq<Result<Vec<u8>, ProcessBackendError>>,
    pub value: Result<Vec<u8>, ProcessBackendError>,
}

/// Where a chain starts: at the one match of its signature.
pub open spec fn chain_root(
    request: MemoryPointerChainRequest,
    signature: Seq<Option<u8>>,
    calls: ChainCalls,
) -> Result<usize, Failure> {
    match scan_value(request.scope, chain_wanted(signature), calls.scan) {
        Err(fault) => Err(fault),
        Ok(found) => if found.matches.len() == 0 {
            Err(
                failure(
                    RpcErrorCode::MemoryRequiredMatchNotFound,
                    "pointer-chain signature did not match"@,
                ),
            )
        } else {
            Ok(found.matches[0])
        },
    }
}

pub open spec fn chain_wanted(signature: Seq<Option<u8>>) -> Wanted {
    Wanted { signature, max_matches: 2, unique: true }
}

/// A value at the end of a chain.
pub ghost struct ChainEnd {
    pub root: usize,
    pub target: usize,
    pub bytes: Seq<u8>,
    pub value: TypedMemoryValue,
}

/// What is found at the end of a chain.
pub open spec fn chain_end(
    request: MemoryPointerChainRequest,
    signature: Seq<Option<u8>>,
    calls: ChainCalls,
) -> Result<ChainEnd, Failure> {
    match chain_root(request, signature, calls) {
        Err(fault) => Err(fault),
        Ok(root) => match chain_target(root, request, calls.pointers) {
            Err(fault) => Err(fault),
            Ok(target) => match calls.value {
                Err(error) => Err(read_failure(error)),
                Ok(bytes) => match typed_value(request.value_type, request.byte_order, bytes@) {
                    None => Err(typed_mismatch()),
                    Some(value) => Ok(ChainEnd { root, target, bytes: bytes@, value }),
                },
            },
        },
    }
}

/// The calls that following a chain makes.
pub open spec fn chain_made<B: MemoryBackend>(
    backend: &B,
    handle: &B::Handle,
    identity: &ProcessIdentity,
    request: MemoryPointerChainRequest,
    signature: Seq<Option<u8>>,
    calls: ChainCalls,
) -> bool {
    &&& scan_made(
        backend,
        handle,
        identity,
        request.scope,
        chain_wanted(signature),
        calls.scan,
    )
    &&& chain_root(request, signature, calls) matches Ok(root) ==> {
        &&& chain_read(
            backend,
            handle,
            root,
            request,
            calls.pointers,
            request.dereference_count as nat,
        )
        &&& chain_target(root, request, calls.pointers) matches Ok(target) ==> call_ensures(
            B::read_memory,
            (backend, handle, target, request.value_type.width()),
            calls.value,
        )
    }
}

/// Follows a chain of pointers.
fn follow_chain<B: MemoryBackend>(
    backend: &B,
    handle: &B::Handle,
    identity: &ProcessIdentity,
    request: &MemoryPointerChainRequest,
    signature: &Vec<Option<u8>>,
) -> (followed: (Result<MemoryPointerChainResponse, MemoryApiError>, Ghost<ChainCalls>))
    requires
        signature@.len() > 0,
        chain_refusal(*request) is None,
    ensures
        chain_made(backend, handle, identity, *request, signature@, followed.1@),
        match chain_end(*request, signature@, followed.1@) {
            Err(fault) => fails(followed.0, fault),
            Ok(end) => followed.0 matches Ok(response) && shows_chain(response, *request, end),
        },
{
    let options = ScanOptions { signature: signature.as_slice(), max_matches: 2, unique: true };
    let (scanned, Ghost(scan)) = scan_for_addresses(
        backend,
        handle,
        identity,
        &request.scope,
        options,
    );
    let ghost wanted = chain_wanted(signature@);
    assert(options@ == wanted);
    let ghost mut pointers: Seq<Result<Vec<u8>, ProcessBackendError>> = Seq::empty();
    let ghost mut value: Result<Vec<u8>, ProcessBackendError> = arbitrary();
    let collected = match scanned {
        Ok(collected) => collected,
        Err(error) => {
            return (Err(error), Ghost(ChainCalls { scan, pointers, value }));
        },
    };
    if collected.matches.len() == 0 {
        return (
            Err(
                MemoryApiError::request(
                    RpcErrorCode::MemoryRequiredMatchNotFound,
                    "pointer-chain signature did not match".to_owned(),
                ),
            ),
            Ghost(ChainCalls { scan, pointers, value }),
        );
    }
    let root: usize = collected.matches[0];
    let ghost count = request.dereference_count as nat;
    let mut address: usize = root;
    let mut n: usize = 0;
    while n < request.dereference_count
        invariant
            n <= request.dereference_count,
            count == request.dereference_count,
            chain_refusal(*request) is None,
            scan_made(backend, handle, identity, request.scope, wanted, scan),
            wanted == chain_wanted(signature@),
            scan_value(request.scope, wanted, scan) matches Ok(found) && found.matches.len() > 0
                && found.matches[0] == root,
            pointers.len() == n,
            chain_address(root, *request, pointers, n as nat) == Ok::<usize, Failure>(address),
            chain_read(backend, handle, root, *request, pointers, n as nat),
        decreases request.dereference_count - n,
    {
        let ghost earlier = pointers;
        let ghost next = (n + 1) as nat;
        let moved = move_address(
            address,
            request.offsets[n],
            "pointer-chain address overflowed",
        );
        let at: usize = match moved {
            Ok(at) => at,
            Err(error) => {
                proof {
                    pointers = pointers.push(arbitrary());
                    lemma_chain_extends(
                        backend,
                        handle,
                        root,
                        *request,
                        earlier,
                        pointers,
                        n as nat,
                    );
                    lemma_chain_stays(backend, handle, root, *request, pointers, next, count);
                }
                return (Err(error), Ghost(ChainCalls { scan, pointers, value }));
            },
        };
        let read = backend.read_memory(handle, at, request.pointer_width as usize);
        proof {
            pointers = pointers.push(read);
            lemma_chain_extends(backend, handle, root, *request, earlier, pointers, n as nat);
            assert(pointers[n as int] == read);
            assert(chain_read(backend, handle, root, *request, pointers, next));
        }
        let bytes = match read {
            Ok(bytes) => bytes,
            Err(error) => {
                proof {
                    lemma_chain_stays(backend, handle, root, *request, pointers, next, count);
                }
                return (
                    Err(MemoryApiError::from_backend(error)),
                    Ghost(ChainCalls { scan, pointers, value }),
                );
            },
        };
        match decode_pointer(request.pointer_width, request.byte_order, bytes.as_slice()) {
            Ok(pointer) => {
                address = pointer;
            },
            Err(error) => {
                proof {
                    lemma_chain_stays(backend, handle, root, *request, pointers, next, count);
                }
                return (Err(error), Ghost(ChainCalls { scan, pointers, value }));
            },
        }
        n += 1;
    }
    let last: u64 = request.offsets[request.offsets.len() - 1];
    let target: usize = match move_address(
        address,
        last,
        "pointer-chain target address overflowed",
    ) {
        Ok(target) => target,
        Err(error) => {
            return (Err(error), Ghost(ChainCalls { scan, pointers, value }));
        },
    };
    let read = backend.read_memory(handle, target, request.value_type.size());
    proof {
        value = read;
    }
    let raw_bytes = match read {
        Ok(bytes) => bytes,
        Err(error) => {
            return (
                Err(MemoryApiError::from_backend(error)),
                Ghost(ChainCalls { scan, pointers, value }),
            );
        },
    };
    let decoded = match decode_typed(
        request.value_type,
        request.byte_order,
        raw_bytes.as_slice(),
    ) {
        Ok(decoded) => decoded,
        Err(error) => {
            return (Err(error), Ghost(ChainCalls { scan, pointers, value }));
        },
    };
    (
        Ok(
            MemoryPointerChainResponse {
                session_id: request.session_id.clone(),
                root_match: format_address(root),
                target_address: format_address(target),
                value_type: request.value_type,
                byte_order: request.byte_order,
                raw_bytes,
                value: decoded,
            },
        ),
        Ghost(ChainCalls { scan, pointers, value }),
    )
}

/// A response that shows the end of a chain.
pub open spec fn shows_chain(
    response: MemoryPointerChainResponse,
    request: MemoryPointerChainRequest,
    end: ChainEnd,
) -> bool {
    &&& response.session_id.0@ == request.session_id.0@
    &&& response.root_match@ == address_text(end.root as nat)
    &&& response.target_address@ == address_text(end.target as nat)
    &&& response.value_type == request.value_type
    &&& response.byte_order == request.byte_order
    &&& response.raw_bytes@ == end.bytes
    &&& response.value == end.value
}

/// The calls that following a chain on a session makes.
pub open spec fn session_chain_made<B: MemoryBackend>(
    backend: &B,
    held: Sessions<B::Handle>,
    request: MemoryPointerChainRequest,
    signature: Seq<Option<u8>>,
    before: Result<(), ProcessBackendError>,
    calls: ChainCalls,
    after: Result<(), ProcessBackendError>,
) -> bool {
    let id = request.session_id.0@;
    &&& live_checks(backend, held, id, before, after)
    &&& admits(held, id, before) ==> chain_made(
        backend,
        &held.handle(id),
        &held.identity(id),
        request,
        signature,
        calls,
    )
}

/// What following a chain does: the sessions after it and its answer.
pub open spec fn pointer_chain_does<B: MemoryBackend>(
    backend: &B,
    held: Sessions<B::Handle>,
    request: MemoryPointerChainRequest,
    later: Sessions<B::Handle>,
    answer: Result<MemoryPointerChainResponse, MemoryApiError>,
) -> bool {
    let id = request.session_id.0@;
    match signature_value(request.signature@) {
        Err(fault) => later == held && fails(answer, fault),
        Ok(signature) => match chain_refusal(request) {
            Some(fault) => later == held && fails(answer, fault),
            None => exists|
                before: Result<(), ProcessBackendError>,
                calls: ChainCalls,
                after: Result<(), ProcessBackendError>,
            |
                {
                    &&& #[trigger] session_chain_made(
                        backend,
                        held,
                        request,
                        signature,
                        before,
                        calls,
                        after,
                    )
                    &&& ({
                        let (left, outcome) = live_outcome(
                            held,
                            id,
                            before,
                            chain_end(request, signature, calls),
                            after,
                        );
                        later == left && match outcome {
                            Err(fault) => fails(answer, fault),
                            Ok(end) => answer matches Ok(response) && shows_chain(
                                response,
                                request,
                                end,
                            ),
                        }
                    })
                },
        },
    }
}

/// Bytes spell a number in a byte order.
pub open spec fn spelled(order: ByteOrder, bytes: Seq<u8>, value: nat) -> bool {
    match order {
        ByteOrder::LittleEndian => spelled_le(bytes, value),
        ByteOrder::BigEndian => spelled_be(bytes, value),
    }
}

/// The pointer at an offset from one station leads to the next.
pub open spec fn points_on<B: MemoryBackend>(
    backend: &B,
    handle: &B::Handle,
    request: MemoryPointerChainRequest,
    from: usize,
    offset: u64,
    to: usize,
) -> bool {
    exists|at: usize, bytes: Vec<u8>|
        {
            &&& #[trigger] call_ensures(
                B::read_memory,
                (backend, handle, at, request.pointer_width as usize),
                Ok(bytes),
            )
            &&& at == from + offset
            &&& bytes@.len() == request.pointer_width
            &&& spelled(request.byte_order, bytes@, to as nat)
        }
}

/// The stations of a chain: each pointer that is read leads from one to the next, and the
/// target is at the last offset from the last one.
pub open spec fn passes<B: MemoryBackend>(
    backend: &B,
    handle: &B::Handle,
    request: MemoryPointerChainRequest,
    stations: Seq<usize>,
    target: usize,
) -> bool {
    let n = request.dereference_count as int;
    &&& stations.len() == n + 1
    &&& request.offsets@.len() == n + 1
    &&& forall|k: int|
        0 <= k < n ==> points_on(
            backend,
            handle,
            request,
            #[trigger] stations[k],
            request.offsets@[k],
            stations[k + 1],
        )
    &&& target == stations[n] + request.offsets@[n]
}

proof fn lemma_stations<B: MemoryBackend>(
    backend: &B,
    handle: &B::Handle,
    root: usize,
    request: MemoryPointerChainRequest,
    reads: Seq<Result<Vec<u8>, ProcessBackendError>>,
    n: nat,
) -> (stations: Seq<usize>)
    requires
        chain_read(backend, handle, root, request, reads, n),
        chain_address(root, request, reads, n) is Ok,
    ensures
        stations.len() == n + 1,
        stations[0] == root,
        stations[n as int] == chain_address(root, request, reads, n)->Ok_0,
        forall|k: int|
            0 <= k < n ==> points_on(
                backend,
                handle,
                request,
                #[trigger] stations[k],
                request.offsets@[k],
                stations[k + 1],
            ),
    decreases n,
{
    if n == 0 {
        seq![root]
    } else {
        let less = (n - 1) as nat;
        let before = lemma_stations(backend, handle, root, request, reads, less);
        let bytes = reads[n - 1]->Ok_0;
        let from = before[n - 1];
        let to = chain_address(root, request, reads, n)->Ok_0;
        let at = (from + request.offsets@[n - 1]) as usize;
        assert(reads[n - 1] == Ok::<Vec<u8>, ProcessBackendError>(bytes));
        le_values_are_spelled(bytes@);
        be_values_are_spelled(bytes@);
        assert(call_ensures(
            B::read_memory,
            (backend, handle, at, request.pointer_width as usize),
            Ok::<Vec<u8>, ProcessBackendError>(bytes),
        ));
        let stations = before.push(to);
        assert forall|k: int| 0 <= k < n implies points_on(
            backend,
            handle,
            request,
            #[trigger] stations[k],
            request.offsets@[k],
            stations[k + 1],
        ) by {
            if k < n - 1 {
                assert(stations[k] == before[k] && stations[k + 1] == before[k + 1]);
            }
        }
        stations
    }
}

/// A chain of pointers that is answered was followed from its root: at each offset but the
/// last a pointer was read, which led to the next station, and the target is at the last
/// offset from the last station. The value is read there.
pub proof fn chains_use_every_offset<B: MemoryBackend>(
    backend: &B,
    held: Sessions<B::Handle>,
    request: MemoryPointerChainRequest,
    later: Sessions<B::Handle>,
    response: MemoryPointerChainResponse,
)
    requires
        pointer_chain_does(backend, held, request, later, Ok(response)),
    ensures
        exists|stations: Seq<usize>, target: usize, bytes: Vec<u8>|
            {
                &&& #[trigger] passes(
                    backend,
                    &held.handle(request.session_id.0@),
                    request,
                    stations,
                    target,
                )
                &&& response.root_match@ == address_text(stations[0] as nat)
                &&& response.target_address@ == address_text(target as nat)
                &&& #[trigger] call_ensures(
                    B::read_memory,
                    (
                        backend,
                        &held.handle(request.session_id.0@),
                        target,
                        request.value_type.width(),
                    ),
                    Ok(bytes),
                )
                &&& response.raw_bytes@ == bytes@
            },
        typed_value(request.value_type, request.byte_order, response.raw_bytes@) == Some(
            response.value,
        ),
        response.value_type == request.value_type,
        response.byte_order == request.byte_order,
{
    let id = request.session_id.0@;
    let signature = signature_value(request.signature@)->Ok_0;
    let (before, calls, after) = choose|
        before: Result<(), ProcessBackendError>,
        calls: ChainCalls,
        after: Result<(), ProcessBackendError>,
    |
        {
            &&& #[trigger] session_chain_made(
                backend,
                held,
                request,
                signature,
                before,
                calls,
                after,
            )
            &&& live_outcome(
                held,
                id,
                before,
                chain_end(request, signature, calls),
                after,
            ).1 matches Ok(end)
            &&& shows_chain(response, request, end)
        };
    let end = chain_end(request, signature, calls)->Ok_0;
    let n = request.dereference_count as nat;
    let stations = lemma_stations(
        backend,
        &held.handle(id),
        end.root,
        request,
        calls.pointers,
        n,
    );
    let bytes = calls.value->Ok_0;
    assert(calls.value == Ok::<Vec<u8>, ProcessBackendError>(bytes));
    assert(passes(backend, &held.handle(id), request, stations, end.target));
}

/// Follows a chain of pointers from the one match of a signature.
pub fn pointer_chain<B: MemoryBackend>(
    sessions: &mut ProcessSessionRegistry<B::Handle>,
    backend: &B,
    request: &MemoryPointerChainRequest,
) -> (answer: Result<MemoryPointerChainResponse, MemoryApiError>)
    requires
        old(sessions).wf(),
    ensures
        final(sessions).wf(),
        old(sessions)@.leads_to(final(sessions)@),
        pointer_chain_does(backend, old(sessions)@, *request, final(sessions)@, answer),
{
    let signature = parse_signature(request.signature.as_str())?;
    if request.offsets.len() == 0 || request.offsets.len() > MAX_POINTER_OFFSETS
        || request.offsets.len() - 1 != request.dereference_count {
        return Err(
            MemoryApiError::request(
                RpcErrorCode::InvalidRequest,
                "pointer-chain offsets must contain dereference_count + 1 entries".to_owned(),
            ),
        );
    }
    if request.pointer_width != 4 && request.pointer_width != 8 {
        return Err(
            MemoryApiError::request(
                RpcErrorCode::InvalidRequest,
                "pointer width must be 4 or 8 bytes".to_owned(),
            ),
        );
    }
    let ghost held = sessions@;
    let (verdict, Ghost(before)) = sessions.enter(backend, &request.session_id, false);
    if let Err(error) = verdict {
        proof {
            let calls: ChainCalls = arbitrary();
            let after: Result<(), ProcessBackendError> = arbitrary();
            assert(session_chain_made(
                backend,
                held,
                *request,
                signature@,
                before,
                calls,
                after,
            ));
        }
        return Err(MemoryApiError::Process(error));
    }
    let (handle, process) = sessions.live(&request.session_id);
    let (followed, Ghost(calls)) = match &process.identity {
        Some(identity) => follow_chain(backend, handle, identity, request, &signature),
        None => {
            assert(false);
            vstd::pervasive::unreached()
        },
    };
    let (verdict, Ghost(after)) = sessions.recheck(backend, &request.session_id);
    assert(session_chain_made(backend, held, *request, signature@, before, calls, after));
    if let Err(error) = verdict {
        return Err(MemoryApiError::Process(error));
    }
    followed
}

/// The signatures that texts denote, or the first failure.
pub open spec fn signatures_value(list: Seq<Seq<char>>) -> Result<Seq<Seq<Option<u8>>>, Failure>
    decreases list.len(),
{
    if list.len() == 0 {
        Ok(Seq::empty())
    } else {
        match signatures_value(list.drop_last()) {
            Err(fault) => Err(fault),
            Ok(front) => match signature_value(list.last()) {
                Err(fault) => Err(fault),
                Ok(signature) => Ok(front.push(signature)),
            },
        }
    }
}

proof fn lemma_signatures_stay(list: Seq<Seq<char>>, n: int)
    requires
        0 <= n <= list.len(),
        signatures_value(list.take(n)) is Err,
    ensures
        signatures_value(list) == signatures_value(list.take(n)),
    decreases list.len(),
{
    if n < list.len() {
        assert(list.drop_last().take(n) =~= list.take(n));
        lemma_signatures_stay(list.drop_last(), n);
    } else {
        assert(list.take(n) =~= list);
    }
}

/// The contents of each of several texts.
pub open spec fn contents(list: Seq<&str>) -> Seq<Seq<char>> {
    list.map_values(|text: &str| text@)
}

/// The bytes of each of several signatures.
pub open spec fn patterns(list: Seq<Vec<Option<u8>>>) -> Seq<Seq<Option<u8>>> {
    list.map_values(|signature: Vec<Option<u8>>| signature@)
}

fn parse_signatures(signatures: &[&str]) -> (parsed: Result<Vec<Vec<Option<u8>>>, MemoryApiError>)
    ensures
        match (parsed, signatures_value(contents(signatures@))) {
            (Ok(read), Ok(expected)) => patterns(read@) == expected && read@.len()
                == signatures@.len() && forall|k: int|
                0 <= k < read@.len() ==> (#[trigger] read@[k])@.len() > 0,
            (Err(error), Err(fault)) => error@ == fault,
            _ => false,
        },
{
    let ghost list = contents(signatures@);
    let mut parsed: Vec<Vec<Option<u8>>> = Vec::new();
    let mut i: usize = 0;
    proof {
        assert(patterns(parsed@) =~= Seq::<Seq<Option<u8>>>::empty());
        assert(list.take(0) =~= Seq::<Seq<char>>::empty());
    }
    while i < signatures.len()
        invariant
            i <= signatures@.len(),
            list == contents(signatures@),
            parsed@.len() == i,
            forall|k: int| 0 <= k < i ==> (#[trigger] parsed@[k])@.len() > 0,
            signatures_value(list.take(i as int)) == Ok::<_, Failure>(patterns(parsed@)),
        decreases signatures@.len() - i,
    {
        let ghost next = list.take(i + 1);
        let ghost before = patterns(parsed@);
        proof {
            assert(next.drop_last() =~= list.take(i as int));
            assert(next.last() == signatures@[i as int]@);
        }
        match parse_signature(signatures[i]) {
            Ok(signature) => {
                parsed.push(signature);
                proof {
                    assert(patterns(parsed@) =~= before.push(signature@));
                }
            },
            Err(error) => {
                proof {
                    lemma_signatures_stay(list, i + 1);
                }
                return Err(error);
            },
        }
        i += 1;
    }
    proof {
        assert(list.take(i as int) =~= list);
    }
    Ok(parsed)
}

/// Whether part of a region is wide enough for one of the signatures.
pub open spec fn is_wide_for_any(low: int, high: int, signatures: Seq<Vec<Option<u8>>>) -> bool {
    low < high && exists|k: int|
        0 <= k < signatures.len() && high - low >= (#[trigger] signatures[k])@.len()
}

/// What one more region adds to the matches of several unique signatures.
pub open spec fn unique_step(
    before: Seq<Vec<usize>>,
    region: MemoryRegionDescriptor,
    bounds: Option<(usize, usize)>,
    signatures: Seq<Vec<Option<u8>>>,
    reads: Seq<Read>,
    after: Seq<Vec<usize>>,
    fault: Option<Failure>,
) -> bool {
    match span_of(region, bounds) {
        Err(cause) => fault == Some(cause),
        Ok((low, high)) => if is_wide_for_any(low, high, signatures) {
            region_scanned_for_all(low, high - low, signatures, before, reads, after, fault)
        } else {
            fault is None && after == before
        },
    }
}

/// What the backend answered to a scan for several unique signatures, and the
/// matches after each region.
pub ghost struct UniqueCalls {
    pub regions: Result<Vec<MemoryRegionDescriptor>, ProcessBackendError>,
    pub modules: Result<Vec<ModuleDescriptor>, ProcessBackendError>,
    pub logs: Seq<Seq<Read>>,
    pub found: Seq<Seq<Vec<usize>>>,
    pub fault: Option<Failure>,
}

/// A scan for several unique signatures goes region by region, up to the first
/// that fails.
pub open spec fn unique_run(
    regions: Seq<MemoryRegionDescriptor>,
    bounds: Option<(usize, usize)>,
    signatures: Seq<Vec<Option<u8>>>,
    calls: UniqueCalls,
) -> bool {
    &&& calls.found.len() == calls.logs.len() + 1
    &&& calls.found[0].len() == signatures.len()
    &&& forall|k: int| 0 <= k < signatures.len() ==> (#[trigger] calls.found[0][k])@.len() == 0
    &&& forall|i: int|
        #![trigger calls.logs[i]]
        0 <= i < calls.logs.len() ==> unique_step(
            calls.found[i],
            regions[i],
            bounds,
            signatures,
            calls.logs[i],
            calls.found[i + 1],
            if i == calls.logs.len() - 1 {
                calls.fault
            } else {
                None
            },
        )
    &&& calls.logs.len() <= regions.len()
    &&& calls.fault is None ==> calls.logs.len() == regions.len()
    &&& calls.fault is Some ==> calls.logs.len() > 0
}

/// The calls that a scan for several unique signatures makes.
pub open spec fn unique_made<B: MemoryBackend>(
    backend: &B,
    handle: &B::Handle,
    identity: &ProcessIdentity,
    scope: MemoryScanScope,
    signatures: Seq<Vec<Option<u8>>>,
    calls: UniqueCalls,
) -> bool {
    &&& call_ensures(B::enumerate_memory_regions, (backend, handle, identity), calls.regions)
    &&& regions_value(calls.regions, scan_limit_message()) matches Ok(regions) ==> {
        &&& scope is Module ==> call_ensures(
            B::enumerate_modules,
            (backend, handle, identity),
            calls.modules,
        )
        &&& scope_bounds(scope, calls.modules) matches Ok(bounds) ==> {
            &&& unique_run(regions, bounds, signatures, calls)
            &&& forall|i: int|
                0 <= i < calls.logs.len() ==> all_read(backend, handle, #[trigger] calls.logs[i])
        }
    }
}

pub open spec fn ambiguous_index(index: nat, count: nat) -> Failure {
    failure(
        RpcErrorCode::MemoryAmbiguousMatch,
        "signature at index "@ + dec_text(index) + " matched more than one address"@,
    ).with("match_count"@, dec_text(count))
}

/// The one match of each signature, if it has one, or the first signature that
/// is ambiguous.
pub open spec fn resolved(found: Seq<Vec<usize>>) -> Result<Seq<Option<usize>>, Failure>
    decreases found.len(),
{
    if found.len() == 0 {
        Ok(Seq::empty())
    } else {
        match resolved(found.drop_last()) {
            Err(fault) => Err(fault),
            Ok(front) => if found.last()@.len() == 0 {
                Ok(front.push(None))
            } else if found.last()@.len() == 1 {
                Ok(front.push(Some(found.last()@[0])))
            } else {
                Err(ambiguous_index((found.len() - 1) as nat, found.last()@.len()))
            },
        }
    }
}

proof fn lemma_resolved_stays(found: Seq<Vec<usize>>, n: int)
    requires
        0 <= n <= found.len(),
        resolved(found.take(n)) is Err,
    ensures
        resolved(found) == resolved(found.take(n)),
    decreases found.len(),
{
    if n < found.len() {
        assert(found.drop_last().take(n) =~= found.take(n));
        lemma_resolved_stays(found.drop_last(), n);
    } else {
        assert(found.take(n) =~= found);
    }
}

/// The one match of each signature.
pub fn resolve_matches(found: &Vec<Vec<usize>>) -> (answer: Result<
    Vec<Option<usize>>,
    MemoryApiError,
>)
    ensures
        match (answer, resolved(found@)) {
            (Ok(list), Ok(expected)) => list@ == expected,
            (Err(error), Err(fault)) => error@ == fault,
            _ => false,
        },
{
    let mut list: Vec<Option<usize>> = Vec::new();
    let mut i: usize = 0;
    proof {
        assert(found@.take(0) =~= Seq::<Vec<usize>>::empty());
    }
    while i < found.len()
        invariant
            i <= found@.len(),
            resolved(found@.take(i as int)) == Ok::<_, Failure>(list@),
        decreases found@.len() - i,
    {
        let ghost next = found@.take(i + 1);
        proof {
            assert(next.drop_last() =~= found@.take(i as int));
            assert(next.last() == found@[i as int]);
        }
        let addresses = &found[i];
        if addresses.len() == 0 {
            list.push(None);
        } else if addresses.len() == 1 {
            list.push(Some(addresses[0]));
        } else {
            let index = format_decimal(i as u64);
            proof {
                lemma_resolved_stays(found@, i + 1);
            }
            return Err(
                MemoryApiError::request(
                    RpcErrorCode::MemoryAmbiguousMatch,
                    join3(
                        "signature at index ",
                        index.as_str(),
                        " matched more than one address",
                    ),
                ).with_detail("match_count", format_decimal(addresses.len() as u64)),
            );
        }
        i += 1;
    }
    proof {
        assert(found@.take(i as int) =~= found@);
    }
    Ok(list)
}

/// What a scan for several unique signatures finds.
pub open spec fn unique_value(scope: MemoryScanScope, calls: UniqueCalls) -> Result<
    Seq<Option<usize>>,
    Failure,
> {
    match regions_value(calls.regions, scan_limit_message()) {
        Err(fault) => Err(fault),
        Ok(regions) => match scope_bounds(scope, calls.modules) {
            Err(fault) => Err(fault),
            Ok(bounds) => match calls.fault {
                Some(fault) => Err(fault),
                None => resolved(calls.found.last()),
            },
        },
    }
}

fn wide_for_any(low: usize, high: usize, signatures: &Vec<Vec<Option<u8>>>) -> (wide: bool)
    ensures
        wide == is_wide_for_any(low as int, high as int, signatures@),
{
    if low >= high {
        return false;
    }
    let mut k: usize = 0;
    while k < signatures.len()
        invariant
            k <= signatures@.len(),
            low < high,
            forall|j: int| 0 <= j < k ==> high - low < (#[trigger] signatures@[j])@.len(),
        decreases signatures@.len() - k,
    {
        if high - low >= signatures[k].len() {
            assert(high - low >= signatures@[k as int]@.len());
            return true;
        }
        k += 1;
    }
    false
}

spec fn cause_of(failed: Option<MemoryApiError>) -> Option<Failure> {
    match failed {
        Some(error) => Some(error@),
        None => None,
    }
}

/// Scans the memory of a process for several signatures at once.
fn scan_for_optional_unique_signatures<B: MemoryBackend>(
    backend: &B,
    handle: &B::Handle,
    identity: &ProcessIdentity,
    scope: &MemoryScanScope,
    signatures: &Vec<Vec<Option<u8>>>,
) -> (scanned: (Result<Vec<Option<usize>>, MemoryApiError>, Ghost<UniqueCalls>))
    ensures
        unique_made(backend, handle, identity, *scope, signatures@, scanned.1@),
        match (scanned.0, unique_value(*scope, scanned.1@)) {
            (Ok(list), Ok(expected)) => list@ == expected,
            (Err(error), Err(fault)) => error@ == fault,
            _ => false,
        },
{
    let (ground, Ghost(reported), Ghost(modules)) = scan_ground(backend, handle, identity, scope);
    let ghost mut logs: Seq<Seq<Read>> = Seq::empty();
    let ghost mut found: Seq<Seq<Vec<usize>>> = Seq::empty();
    let (regions, bounds) = match ground {
        Ok(ground) => ground,
        Err(error) => {
            return (
                Err(error),
                Ghost(UniqueCalls { regions: reported, modules, logs, found, fault: None }),
            );
        },
    };
    let mut matches: Vec<Vec<usize>> = Vec::new();
    let mut k: usize = 0;
    while k < signatures.len()
        invariant
            k <= signatures@.len(),
            matches@.len() == k,
            forall|j: int| 0 <= j < k ==> (#[trigger] matches@[j])@.len() == 0,
        decreases signatures@.len() - k,
    {
        matches.push(Vec::new());
        k += 1;
    }
    proof {
        found = seq![matches@];
    }
    let mut i: usize = 0;
    while i < regions.len()
        invariant
            i <= regions@.len(),
            regions_value(reported, scan_limit_message()) == Ok::<_, Failure>(regions@),
            scope_bounds(*scope, modules) == Ok::<_, Failure>(bounds),
            call_ensures(B::enumerate_memory_regions, (backend, handle, identity), reported),
            *scope is Module ==> call_ensures(
                B::enumerate_modules,
                (backend, handle, identity),
                modules,
            ),
            logs.len() == i,
            found.len() == i + 1,
            found.last() == matches@,
            matches@.len() == signatures@.len(),
            found[0].len() == signatures@.len(),
            forall|j: int| 0 <= j < signatures@.len() ==> (#[trigger] found[0][j])@.len() == 0,
            forall|j: int|
                #![trigger logs[j]]
                0 <= j < i ==> unique_step(
                    found[j],
                    regions@[j],
                    bounds,
                    signatures@,
                    logs[j],
                    found[j + 1],
                    None,
                ),
            forall|j: int| 0 <= j < i ==> all_read(backend, handle, #[trigger] logs[j]),
        decreases regions@.len() - i,
    {
        let ghost earlier = logs;
        let ghost held = found;
        let ghost mut reads: Seq<Read> = Seq::empty();
        let ghost before = matches@;
        let mut failed: Option<MemoryApiError> = None;
        match region_span(&regions[i], bounds) {
            Err(error) => {
                failed = Some(error);
            },
            Ok((low, high)) => {
                if wide_for_any(low, high, signatures) {
                    let (scanned, Ghost(log)) = scan_region_for_unique_signatures(
                        backend,
                        handle,
                        low,
                        high - low,
                        signatures,
                        &mut matches,
                    );
                    proof {
                        reads = log;
                    }
                    if let Err(cause) = scanned {
                        failed = Some(fault_error(cause));
                    }
                }
            },
        }
        let ghost fault = cause_of(failed);
        proof {
            logs = logs.push(reads);
            found = found.push(matches@);
            assert(unique_step(
                before,
                regions@[i as int],
                bounds,
                signatures@,
                reads,
                matches@,
                fault,
            ));
            assert forall|j: int| 0 <= j < i + 1 implies all_read(
                backend,
                handle,
                #[trigger] logs[j],
            ) by {
                if j < i {
                    assert(logs[j] == earlier[j]);
                }
            }
            assert forall|j: int|
                #![trigger logs[j]]
                0 <= j < i + 1 implies unique_step(
                found[j],
                regions@[j],
                bounds,
                signatures@,
                logs[j],
                found[j + 1],
                if j == i {
                    fault
                } else {
                    None
                },
            ) by {
                if j < i {
                    assert(logs[j] == earlier[j]);
                    assert(found[j] == held[j] && found[j + 1] == held[j + 1]);
                } else {
                    assert(found[j] == before);
                }
            }
            assert(found[0] == held[0]);
        }
        if let Some(error) = failed {
            let ghost calls = UniqueCalls { regions: reported, modules, logs, found, fault };
            assert(unique_run(regions@, bounds, signatures@, calls));
            return (Err(error), Ghost(calls));
        }
        i += 1;
    }
    let ghost calls = UniqueCalls { regions: reported, modules, logs, found, fault: None };
    assert(unique_run(regions@, bounds, signatures@, calls));
    (resolve_matches(&matches), Ghost(calls))
}

/// The calls that a scan of a session for several unique signatures makes.
pub open spec fn session_unique_made<B: MemoryBackend>(
    backend: &B,
    held: Sessions<B::Handle>,
    id: Seq<char>,
    scope: MemoryScanScope,
    signatures: Seq<Vec<Option<u8>>>,
    before: Result<(), ProcessBackendError>,
    calls: UniqueCalls,
    after: Result<(), ProcessBackendError>,
) -> bool {
    &&& live_checks(backend, held, id, before, after)
    &&& admits(held, id, before) ==> unique_made(
        backend,
        &held.handle(id),
        &held.identity(id),
        scope,
        signatures,
        calls,
    )
}

/// What a scan for several unique signatures does: the sessions after it and
/// its answer.
pub open spec fn unique_scan_does<B: MemoryBackend>(
    backend: &B,
    held: Sessions<B::Handle>,
    id: Seq<char>,
    scope: MemoryScanScope,
    signatures: Seq<Seq<char>>,
    later: Sessions<B::Handle>,
    answer: Result<Vec<Option<usize>>, MemoryApiError>,
) -> bool {
    match signatures_value(signatures) {
        Err(fault) => later == held && fails(answer, fault),
        Ok(wanted) => if wanted.len() == 0 {
            later == held && (answer matches Ok(list) && list@.len() == 0)
        } else {
            exists|
                parsed: Seq<Vec<Option<u8>>>,
                before: Result<(), ProcessBackendError>,
                calls: UniqueCalls,
                after: Result<(), ProcessBackendError>,
            |
                {
                    &&& #[trigger] session_unique_made(
                        backend,
                        held,
                        id,
                        scope,
                        parsed,
                        before,
                        calls,
                        after,
                    )
                    &&& patterns(parsed) == wanted
                    &&& ({
                        let (left, outcome) = live_outcome(
                            held,
                            id,
                            before,
                            unique_value(scope, calls),
                            after,
                        );
                        later == left && match (answer, outcome) {
                            (Ok(list), Ok(expected)) => list@ == expected,
                            (Err(error), Err(fault)) => error@ == fault,
                            _ => false,
                        }
                    })
                }
        },
    }
}

/// Scans the memory of a session's process for several signatures at once,
/// each of which may occur once or not at all.
pub fn scan_optional_unique_signatures<B: MemoryBackend>(
    sessions: &mut ProcessSessionRegistry<B::Handle>,
    backend: &B,
    session_id: &ProcessSessionId,
    scope: &MemoryScanScope,
    signatures: &[&str],
) -> (answer: Result<Vec<Option<usize>>, MemoryApiError>)
    requires
        old(sessions).wf(),
    ensures
        final(sessions).wf(),
        old(sessions)@.leads_to(final(sessions)@),
        unique_scan_does(
            backend,
            old(sessions)@,
            session_id.0@,
            *scope,
            contents(signatures@),
            final(sessions)@,
            answer,
        ),
{
    let parsed = parse_signatures(signatures)?;
    if parsed.len() == 0 {
        return Ok(Vec::new());
    }
    let ghost held = sessions@;
    let ghost id = session_id.0@;
    let (verdict, Ghost(before)) = sessions.enter(backend, session_id, false);
    if let Err(error) = verdict {
        proof {
            let calls: UniqueCalls = arbitrary();
            let after: Result<(), ProcessBackendError> = arbitrary();
            assert(session_unique_made(
                backend,
                held,
                id,
                *scope,
                parsed@,
                before,
                calls,
                after,
            ));
        }
        return Err(MemoryApiError::Process(error));
    }
    let (handle, process) = sessions.live(session_id);
    let (scanned, Ghost(calls)) = match &process.identity {
        Some(identity) => scan_for_optional_unique_signatures(
            backend,
            handle,
            identity,
            scope,
            &parsed,
        ),
        None => {
            assert(false);
            vstd::pervasive::unreached()
        },
    };
    let (verdict, Ghost(after)) = sessions.recheck(backend, session_id);
    assert(session_unique_made(backend, held, id, *scope, parsed@, before, calls, after));
    if let Err(error) = verdict {
        return Err(MemoryApiError::Process(error));
    }
    scanned
}

}
