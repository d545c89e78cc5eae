//! What the agent decides of what Windows answers: which memory may be read,
//! written, run or protected anew, where memory near an address can be had,
//! what an opened process is, and what a failed call means.

use vstd::arithmetic::power2::{
    lemma2_to64, lemma2_to64_rest, lemma_pow2_adds, lemma_pow2_pos, pow2,
};
use vstd::bits::{lemma_usize_low_bits_mask_is_mod, low_bits_mask};
use vstd::prelude::*;
use vstd::string::*;

use crate::backend::{ProcessBackendError, ProcessBackendErrorKind};
use crate::protocol::{
    classify_process, process_kind, MemoryProtection, MemoryRegionDescriptor, ProcessAccessMode,
    ProcessDescriptor, ProcessIdentity,
};
use crate::text::{
    address_text, chars_of, dec_text, format_address, format_decimal, format_hex, join2, join3,
    join4, lowered, same_ignoring_case, same_text, string_of,
};

verus! {

/// Committed pages.
pub const MEM_COMMIT: u32 = 0x1000;

/// Pages that nothing uses.
pub const MEM_FREE: u32 = 0x10000;

/// Pages that raise an exception when they are touched.
pub const PAGE_GUARD: u32 = 0x100;

/// Memory is given out in steps of this size.
pub const ALLOCATION_GRANULARITY: usize = 0x10000;

/// How far a relative jump reaches.
pub const REL32_REACH: usize = 0x7fff_ffff;

/// The exit code of a process or a thread that still runs.
pub const STILL_ACTIVE: u32 = 259;

/// The window class of a game client.
pub const WIZARD_WINDOW_CLASS: &'static str = "Wizard Graphical Client";

/// A stretch of address space as `VirtualQueryEx` describes it.
#[derive(Clone, Copy, Debug, PartialEq, Eq, Structural)]
pub struct QueriedRegion {
    pub base: usize,
    pub size: usize,
    pub state: u32,
    pub protection: u32,
}

// ---------------------------------------------------------------------------
// Protections.
// ---------------------------------------------------------------------------

/// The flag of a protection.
pub open spec fn flag_of(protection: MemoryProtection) -> u32 {
    match protection {
        MemoryProtection::ReadOnly => 0x02,
        MemoryProtection::ReadWrite => 0x04,
        MemoryProtection::CopyOnWrite => 0x08,
        MemoryProtection::ExecuteRead => 0x20,
        MemoryProtection::ExecuteReadWrite => 0x40,
        MemoryProtection::ExecuteCopyOnWrite => 0x80,
    }
}

/// The protection of a flag that stands alone.
pub open spec fn protection_of(flags: u32) -> Option<MemoryProtection> {
    if flags == 0x02 {
        Some(MemoryProtection::ReadOnly)
    } else if flags == 0x04 {
        Some(MemoryProtection::ReadWrite)
    } else if flags == 0x08 {
        Some(MemoryProtection::CopyOnWrite)
    } else if flags == 0x20 {
        Some(MemoryProtection::ExecuteRead)
    } else if flags == 0x40 {
        Some(MemoryProtection::ExecuteReadWrite)
    } else if flags == 0x80 {
        Some(MemoryProtection::ExecuteCopyOnWrite)
    } else {
        None
    }
}

/// The protection of pages that can be read, whatever caching they have.
pub open spec fn readable_as(flags: u32) -> Option<MemoryProtection> {
    if flags & PAGE_GUARD != 0 {
        None
    } else {
        protection_of(flags & 0xff)
    }
}

/// A protection is told by its own flag, and by no other.
pub proof fn protections_have_one_flag(protection: MemoryProtection, flags: u32)
    ensures
        protection_of(flags) == Some(protection) <==> flags == flag_of(protection),
{
}

/// The flag that Windows takes for a protection.
pub fn native_protection(protection: MemoryProtection) -> (flags: u32)
    ensures
        flags == flag_of(protection),
{
    match protection {
        MemoryProtection::ReadOnly => 0x02,
        MemoryProtection::ReadWrite => 0x04,
        MemoryProtection::CopyOnWrite => 0x08,
        MemoryProtection::ExecuteRead => 0x20,
        MemoryProtection::ExecuteReadWrite => 0x40,
        MemoryProtection::ExecuteCopyOnWrite => 0x80,
    }
}

/// The protection that flags give, if they are the flag of one and no more.
pub fn exact_protection(flags: u32) -> (protection: Option<MemoryProtection>)
    ensures
        protection == protection_of(flags),
{
    match flags {
        0x02 => Some(MemoryProtection::ReadOnly),
        0x04 => Some(MemoryProtection::ReadWrite),
        0x08 => Some(MemoryProtection::CopyOnWrite),
        0x20 => Some(MemoryProtection::ExecuteRead),
        0x40 => Some(MemoryProtection::ExecuteReadWrite),
        0x80 => Some(MemoryProtection::ExecuteCopyOnWrite),
        _ => None,
    }
}

/// The protection of pages that can be read.
pub fn readable_protection(flags: u32) -> (protection: Option<MemoryProtection>)
    ensures
        protection == readable_as(flags),
{
    if flags & PAGE_GUARD != 0 {
        return None;
    }
    exact_protection(flags & 0xff)
}

// ---------------------------------------------------------------------------
// Ranges that an access needs.
// ---------------------------------------------------------------------------

/// What an access needs of the pages that it touches.
#[derive(Clone, Copy, Debug, PartialEq, Eq, Structural)]
pub enum Need {
    Readable,
    Writable,
    Executable,
}

/// Whether pages of these flags give what is needed.
pub open spec fn meets(need: Need, flags: u32) -> bool {
    match need {
        Need::Readable => readable_as(flags) is Some,
        Need::Writable => {
            &&& flags & PAGE_GUARD == 0
            &&& {
                ||| flags & 0xff == 0x04
                ||| flags & 0xff == 0x40
                ||| flags & 0xff == 0x08
                ||| flags & 0xff == 0x80
            }
        },
        Need::Executable => {
            &&& flags & PAGE_GUARD == 0
            &&& {
                ||| flags & 0xff == 0x20
                ||| flags & 0xff == 0x40
                ||| flags & 0xff == 0x80
            }
        },
    }
}

fn accepts(need: Need, flags: u32) -> (yes: bool)
    ensures
        yes == meets(need, flags),
{
    match need {
        Need::Readable => readable_protection(flags).is_some(),
        Need::Writable => {
            let low: u32 = flags & 0xff;
            flags & PAGE_GUARD == 0 && (low == 0x04 || low == 0x40 || low == 0x08 || low == 0x80)
        },
        Need::Executable => {
            let low: u32 = flags & 0xff;
            flags & PAGE_GUARD == 0 && (low == 0x20 || low == 0x40 || low == 0x80)
        },
    }
}

/// A need in words.
pub open spec fn need_text(need: Need) -> Seq<char> {
    match need {
        Need::Readable => "readable"@,
        Need::Writable => "writable"@,
        Need::Executable => "executable and committed"@,
    }
}

fn requirement(need: Need) -> (text: &'static str)
    ensures
        text@ == need_text(need),
{
    match need {
        Need::Readable => "readable",
        Need::Writable => "writable",
        Need::Executable => "executable and committed",
    }
}

/// Where a range ends. One that runs past the last address is refused.
pub fn range_end(address: usize, size: usize) -> (end: Result<usize, ProcessBackendError>)
    ensures
        end is Ok <==> address + size <= usize::MAX,
        end matches Ok(place) ==> place == address + size,
        end matches Err(error) ==> error.says(
            ProcessBackendErrorKind::Native,
            "memory address plus size overflowed"@,
        ),
{
    match address.checked_add(size) {
        Some(end) => Ok(end),
        None => Err(
            ProcessBackendError::new(
                ProcessBackendErrorKind::Native,
                "memory address plus size overflowed",
            ),
        ),
    }
}

/// Why the pages at the cursor do not serve an access, if they do not.
pub open spec fn range_fault(cursor: usize, queried: Option<QueriedRegion>, need: Need) -> Option<
    Seq<char>,
> {
    match queried {
        Some(region) if region.size != 0 => if region.base + region.size > usize::MAX {
            Some("VirtualQueryEx region address overflowed"@)
        } else if cursor < region.base || region.base + region.size <= cursor || region.state
            != MEM_COMMIT || !meets(need, region.protection) {
            Some("memory range at "@ + address_text(cursor as nat) + " is not "@ + need_text(need))
        } else {
            None
        },
        _ => Some("VirtualQueryEx could not validate address "@ + address_text(cursor as nat)),
    }
}

/// Holds what was queried at the cursor against what an access needs, and says
/// from where the rest of its range is still to be looked at.
pub fn range_step(cursor: usize, end: usize, queried: Option<QueriedRegion>, need: Need) -> (next:
    Result<usize, ProcessBackendError>)
    ensures
        next is Ok <==> range_fault(cursor, queried, need) is None,
        next matches Ok(place) ==> place == (if end <= queried->0.base + queried->0.size {
            end as int
        } else {
            queried->0.base + queried->0.size
        }),
        next matches Err(error) ==> error.says(
            ProcessBackendErrorKind::Native,
            range_fault(cursor, queried, need)->0,
        ),
{
    let region = match queried {
        Some(region) if region.size != 0 => region,
        _ => {
            let message = join2(
                "VirtualQueryEx could not validate address ",
                format_address(cursor).as_str(),
            );
            return Err(
                ProcessBackendError::new(ProcessBackendErrorKind::Native, message.as_str()),
            );
        },
    };
    let region_end: usize = match region.base.checked_add(region.size) {
        Some(region_end) => region_end,
        None => {
            return Err(
                ProcessBackendError::new(
                    ProcessBackendErrorKind::Native,
                    "VirtualQueryEx region address overflowed",
                ),
            );
        },
    };
    if cursor < region.base || region_end <= cursor || region.state != MEM_COMMIT || !accepts(
        need,
        region.protection,
    ) {
        let message = join4(
            "memory range at ",
            format_address(cursor).as_str(),
            " is not ",
            requirement(need),
        );
        return Err(ProcessBackendError::new(ProcessBackendErrorKind::Native, message.as_str()));
    }
    Ok(
        if end <= region_end {
            end
        } else {
            region_end
        },
    )
}

/// A step over a range makes headway, and every address that it passes lies in
/// committed pages that give what the access needs.
pub proof fn passed_addresses_serve(
    cursor: usize,
    end: usize,
    queried: Option<QueriedRegion>,
    need: Need,
    next: int,
    address: int,
)
    requires
        cursor < end,
        range_fault(cursor, queried, need) is None,
        next == (if end <= queried->0.base + queried->0.size {
            end as int
        } else {
            queried->0.base + queried->0.size
        }),
    ensures
        cursor < next <= end,
        queried->0.state == MEM_COMMIT,
        meets(need, queried->0.protection),
        cursor <= address < next ==> queried->0.base <= address < queried->0.base
            + queried->0.size,
{
}

// ---------------------------------------------------------------------------
// The list of readable regions.
// ---------------------------------------------------------------------------

/// Regions that the agent lists: committed, readable and not empty.
pub open spec fn is_listed(region: QueriedRegion) -> bool {
    &&& region.state == MEM_COMMIT
    &&& readable_as(region.protection) is Some
    &&& region.size > 0
}

/// Describes a region, if it belongs into the list.
pub fn list_region(region: QueriedRegion) -> (listed: Option<MemoryRegionDescriptor>)
    ensures
        listed is Some <==> is_listed(region),
        listed matches Some(descriptor) ==> {
            &&& descriptor.base_address@ == address_text(region.base as nat)
            &&& descriptor.size == region.size
            &&& Some(descriptor.protection) == readable_as(region.protection)
        },
{
    match readable_protection(region.protection) {
        Some(protection) if region.state == MEM_COMMIT && region.size > 0 => Some(
            MemoryRegionDescriptor {
                base_address: format_address(region.base),
                size: region.size,
                protection,
            },
        ),
        _ => None,
    }
}

/// Where the walk over the regions goes on, if it does.
pub fn next_region(address: usize, region: QueriedRegion) -> (next: Result<
    Option<usize>,
    ProcessBackendError,
>)
    ensures
        next is Ok <==> region.base + region.size <= usize::MAX,
        next matches Ok(place) ==> match place {
            Some(place) => place == region.base + region.size && address < place,
            None => region.base + region.size <= address,
        },
        next matches Err(error) ==> error.says(
            ProcessBackendErrorKind::Native,
            "VirtualQueryEx region address overflowed"@,
        ),
{
    match region.base.checked_add(region.size) {
        Some(next) => if next <= address {
            Ok(None)
        } else {
            Ok(Some(next))
        },
        None => Err(
            ProcessBackendError::new(
                ProcessBackendErrorKind::Native,
                "VirtualQueryEx region address overflowed",
            ),
        ),
    }
}

// ---------------------------------------------------------------------------
// Memory near an address.
// ---------------------------------------------------------------------------

/// The first place at or above a value where an allocation may begin.
pub open spec fn granule_at(value: int) -> int {
    (value + ALLOCATION_GRANULARITY - 1) / ALLOCATION_GRANULARITY as int
        * ALLOCATION_GRANULARITY
}

/// Whether a value is a power of two.
pub open spec fn is_power_of_two(value: usize) -> bool {
    exists|n: nat| n < usize::BITS && value == #[trigger] pow2(n)
}

/// A value raised to below the next multiple and freed of its low bits.
pub open spec fn masked_up(value: usize, alignment: usize) -> Option<usize> {
    if alignment == 0 || value + (alignment - 1) > usize::MAX {
        None
    } else {
        Some(((value + (alignment - 1)) as usize) & !((alignment - 1) as usize))
    }
}

/// Rounds up to a multiple of a power of two, if that is still an address.
pub fn align_up(value: usize, alignment: usize) -> (aligned: Option<usize>)
    ensures
        aligned == masked_up(value, alignment),
        is_power_of_two(alignment) ==> match aligned {
            Some(place) => is_least_multiple(place as int, value as int, alignment as int),
            None => forall|place: int|
                is_least_multiple(place, value as int, alignment as int) ==> #[trigger] off_limits(
                    place,
                ),
        },
{
    if alignment == 0 {
        return None;
    }
    proof {
        if is_power_of_two(alignment) {
            aligned_values_are_least_multiples(value, alignment);
        }
    }
    match value.checked_add(alignment - 1) {
        Some(raised) => Some(raised & !(alignment - 1)),
        None => None,
    }
}

/// The least multiple of an alignment that is no less than a value.
pub open spec fn is_least_multiple(place: int, value: int, alignment: int) -> bool {
    place % alignment == 0 && value <= place < value + alignment
}

/// A number that is no address.
pub open spec fn off_limits(place: int) -> bool {
    place > usize::MAX
}

/// Rounding up to a multiple of a power of two gives the least one that is no less than
/// the value, and fails just where that one is no address. A multiple stays as it is.
pub proof fn aligned_values_are_least_multiples(value: usize, alignment: usize)
    requires
        is_power_of_two(alignment),
    ensures
        match masked_up(value, alignment) {
            Some(place) => {
                &&& is_least_multiple(place as int, value as int, alignment as int)
                &&& masked_up(place, alignment) == Some(place)
            },
            None => forall|place: int|
                is_least_multiple(place, value as int, alignment as int) ==> #[trigger] off_limits(
                    place,
                ),
        },
        value as int % alignment as int == 0 ==> masked_up(value, alignment) == Some(value),
{
    let n = choose|n: nat| n < usize::BITS && alignment == #[trigger] pow2(n);
    assert(alignment > 0) by {
        lemma_pow2_pos(n);
    }
    assert(low_bits_mask(n) == alignment - 1);
    lemma_top_is_full(n);
    assert forall|raised: usize| (#[trigger] (raised & !((alignment - 1) as usize))) == raised
        - raised % alignment by {
        lemma_masked(raised, alignment, n);
    }
    lemma_rounding(value as int, alignment as int);
    if value + (alignment - 1) <= usize::MAX {
        let raised = (value + (alignment - 1)) as usize;
        let place = raised & !((alignment - 1) as usize);
        lemma_rounding(place as int, alignment as int);
        if place + (alignment - 1) > usize::MAX {
            lemma_multiple_fits(place as int, alignment as int, n);
        }
    } else {
        assert forall|place: int|
            is_least_multiple(place, value as int, alignment as int) implies #[trigger] off_limits(
            place,
        ) by {
            if place <= usize::MAX {
                lemma_multiple_fits(place, alignment as int, n);
            }
        }
        if value as int % alignment as int == 0 {
            lemma_multiple_fits(value as int, alignment as int, n);
        }
    }
}

proof fn lemma_masked(raised: usize, alignment: usize, n: nat)
    requires
        n < usize::BITS,
        alignment == pow2(n),
        alignment > 0,
    ensures
        raised & !((alignment - 1) as usize) == raised - raised % alignment,
{
    lemma_usize_low_bits_mask_is_mod(raised, n);
    let mask = (alignment - 1) as usize;
    assert(raised & mask == raised % alignment);
    assert((raised & !mask) == raised - (raised & mask)) by (bit_vector);
}

proof fn lemma_rounding(value: int, alignment: int)
    requires
        alignment > 0,
    ensures
        ({
            let raised = value + alignment - 1;
            let place = raised - raised % alignment;
            &&& place % alignment == 0
            &&& value <= place < value + alignment
            &&& value % alignment == 0 ==> place == value
        }),
{
    let raised = value + alignment - 1;
    let q = raised / alignment;
    assert(raised == alignment * q + raised % alignment && 0 <= raised % alignment < alignment)
        by (nonlinear_arith)
        requires
            alignment > 0,
            q == raised / alignment,
    ;
    assert((alignment * q) % alignment == 0) by (nonlinear_arith)
        requires
            alignment > 0,
    ;
    if value % alignment == 0 {
        let k = value / alignment;
        assert(value == alignment * k) by (nonlinear_arith)
            requires
                alignment > 0,
                k == value / alignment,
                value % alignment == 0,
        ;
        assert(q == k) by (nonlinear_arith)
            requires
                alignment > 0,
                q == (alignment * k + alignment - 1) / alignment,
        ;
    }
}

proof fn lemma_top_is_full(n: nat)
    requires
        n < usize::BITS,
    ensures
        (usize::MAX + 1) % pow2(n) as int == 0,
{
    let rest = (usize::BITS - n) as nat;
    lemma_pow2_pos(n);
    lemma_pow2_adds(n, rest);
    lemma2_to64();
    lemma2_to64_rest();
    assert(usize::MAX + 1 == pow2(usize::BITS as nat));
    assert((pow2(rest) * pow2(n)) % pow2(n) == 0) by (nonlinear_arith)
        requires
            pow2(n) > 0,
    ;
}

proof fn lemma_multiple_fits(place: int, alignment: int, n: nat)
    requires
        n < usize::BITS,
        alignment == pow2(n),
        alignment > 0,
        0 <= place <= usize::MAX,
        place % alignment == 0,
    ensures
        place + alignment - 1 <= usize::MAX,
{
    lemma_top_is_full(n);
    let top = usize::MAX + 1;
    let a = place / alignment;
    let b = top / alignment;
    assert(place == alignment * a && top == alignment * b) by (nonlinear_arith)
        requires
            alignment > 0,
            a == place / alignment,
            b == top / alignment,
            place % alignment == 0,
            top % alignment == 0,
    ;
    assert(alignment * a + alignment <= alignment * b) by (nonlinear_arith)
        requires
            alignment > 0,
            alignment * a < alignment * b,
    ;
}

proof fn lemma_granules(value: usize)
    ensures
        is_power_of_two(ALLOCATION_GRANULARITY),
        masked_up(value, ALLOCATION_GRANULARITY) is Some <==> value + ALLOCATION_GRANULARITY - 1
            <= usize::MAX,
        masked_up(value, ALLOCATION_GRANULARITY) matches Some(place) ==> place == granule_at(
            value as int,
        ),
{
    lemma2_to64();
    assert(pow2(16) == ALLOCATION_GRANULARITY);
    if value + ALLOCATION_GRANULARITY - 1 <= usize::MAX {
        let raised = (value + (ALLOCATION_GRANULARITY - 1)) as usize;
        assert(raised & !0xffffusize == raised / 0x10000 * 0x10000) by (bit_vector);
    }
}

/// The lowest place that the search for memory near a target looks at.
pub open spec fn near_floor(target: usize) -> int {
    let reached = target - REL32_REACH;
    granule_at(
        if reached < ALLOCATION_GRANULARITY {
            ALLOCATION_GRANULARITY as int
        } else {
            reached
        },
    )
}

/// Where memory near a target has to end.
pub open spec fn near_ceiling(target: usize) -> int {
    if target + REL32_REACH > usize::MAX {
        usize::MAX as int
    } else {
        target + REL32_REACH
    }
}

/// The range in which memory near a target is looked for.
pub fn near_range(target: usize) -> (range: Result<(usize, usize), ProcessBackendError>)
    ensures
        range is Ok,
        range matches Ok(bounds) ==> bounds.0 == near_floor(target) && bounds.1 == near_ceiling(
            target,
        ),
{
    let reached: usize = target.saturating_sub(REL32_REACH);
    let lowest: usize = if reached < ALLOCATION_GRANULARITY {
        ALLOCATION_GRANULARITY
    } else {
        reached
    };
    proof {
        lemma_granules(lowest);
    }
    match align_up(lowest, ALLOCATION_GRANULARITY) {
        Some(minimum) => Ok((minimum, target.saturating_add(REL32_REACH))),
        None => Err(
            ProcessBackendError::new(
                ProcessBackendErrorKind::Native,
                "near-allocation lower bound overflowed",
            ),
        ),
    }
}

/// Where in a region memory would begin.
pub open spec fn candidate_at(region: QueriedRegion, minimum: usize) -> int {
    granule_at(
        if region.base < minimum {
            minimum as int
        } else {
            region.base as int
        },
    )
}

/// Whether a region has room for memory that begins at the candidate.
pub open spec fn has_room(
    region: QueriedRegion,
    minimum: usize,
    maximum: usize,
    size: usize,
) -> bool {
    let end = candidate_at(region, minimum) + size;
    &&& region.state == MEM_FREE
    &&& end <= usize::MAX
    &&& end <= region.base + region.size
    &&& end <= maximum
}

/// Finds where in a region memory of the given size could be had.
pub fn near_candidate(region: QueriedRegion, minimum: usize, maximum: usize, size: usize) -> (place:
    Result<Option<usize>, ProcessBackendError>)
    ensures
        place is Err <==> region.state == MEM_FREE && (if region.base < minimum {
            minimum
        } else {
            region.base
        }) + ALLOCATION_GRANULARITY - 1 > usize::MAX,
        place matches Ok(found) ==> {
            &&& found is Some <==> has_room(region, minimum, maximum, size)
            &&& found matches Some(candidate) ==> candidate == candidate_at(region, minimum)
        },
        place matches Err(error) ==> error.says(
            ProcessBackendErrorKind::Native,
            "near-allocation candidate overflowed"@,
        ),
{
    if region.state != MEM_FREE {
        return Ok(None);
    }
    let lowest: usize = if region.base < minimum {
        minimum
    } else {
        region.base
    };
    proof {
        lemma_granules(lowest);
    }
    let candidate: usize = match align_up(lowest, ALLOCATION_GRANULARITY) {
        Some(candidate) => candidate,
        None => {
            return Err(
                ProcessBackendError::new(
                    ProcessBackendErrorKind::Native,
                    "near-allocation candidate overflowed",
                ),
            );
        },
    };
    let region_end: usize = region.base.saturating_add(region.size);
    match candidate.checked_add(size) {
        Some(end) if end <= region_end && end <= maximum => Ok(Some(candidate)),
        _ => Ok(None),
    }
}

/// Where the search goes on behind a region: at its end, and one step further
/// at least.
pub fn near_next(cursor: usize, region: QueriedRegion) -> (next: usize)
    ensures
        next == vstd::math::min(
            usize::MAX as int,
            vstd::math::max(region.base + region.size, cursor + ALLOCATION_GRANULARITY),
        ),
{
    let region_end: usize = region.base.saturating_add(region.size);
    let further: usize = cursor.saturating_add(ALLOCATION_GRANULARITY);
    if region_end < further {
        further
    } else {
        region_end
    }
}

/// Memory that the search finds near a target begins on a granule, lies in the
/// free region, and is reached from the target by a relative jump.
pub proof fn near_memory_is_within_reach(
    target: usize,
    region: QueriedRegion,
    minimum: usize,
    maximum: usize,
    size: usize,
)
    requires
        minimum == near_floor(target),
        maximum == near_ceiling(target),
        has_room(region, minimum, maximum, size),
    ensures
        candidate_at(region, minimum) % ALLOCATION_GRANULARITY as int == 0,
        region.base <= candidate_at(region, minimum),
        candidate_at(region, minimum) + size <= region.base + region.size,
        target - REL32_REACH <= candidate_at(region, minimum),
        candidate_at(region, minimum) + size <= target + REL32_REACH,
{
}

// ---------------------------------------------------------------------------
// Changing the protection of pages.
// ---------------------------------------------------------------------------

/// Why the protection of a range may not be changed, if it may not.
pub open spec fn protection_fault(
    address: usize,
    size: usize,
    queried: Option<QueriedRegion>,
) -> Option<Seq<char>> {
    let homogeneous = "VirtualProtectEx requires one homogeneous committed region for "@
        + address_text(address as nat) + ".."@ + address_text((address + size) as nat);
    if address + size > usize::MAX {
        Some("memory protection range overflowed"@)
    } else {
        match queried {
            None => Some(homogeneous),
            Some(region) => if region.base + region.size > usize::MAX {
                Some("VirtualQueryEx protection region overflowed"@)
            } else if region.size == 0 || region.state != MEM_COMMIT || address < region.base
                || address + size > region.base + region.size {
                Some(homogeneous)
            } else if protection_of(region.protection) is None {
                Some(
                    "memory at "@ + address_text(address as nat)
                        + " has unsupported or modified protection "@ + address_text(
                        region.protection as nat,
                    ),
                )
            } else {
                None
            },
        }
    }
}

/// Finds the protection of a range that lies in one committed region, with
/// the flags that it stands for.
pub fn validate_protection_range(address: usize, size: usize, queried: Option<QueriedRegion>) -> (
    found: Result<(MemoryProtection, u32), ProcessBackendError>)
    ensures
        found is Ok <==> protection_fault(address, size, queried) is None,
        found matches Ok(pair) ==> {
            &&& pair.1 == queried->0.protection
            &&& protection_of(pair.1) == Some(pair.0)
        },
        found matches Err(error) ==> error.says(
            ProcessBackendErrorKind::Native,
            protection_fault(address, size, queried)->0,
        ),
{
    let end: usize = match address.checked_add(size) {
        Some(end) => end,
        None => {
            return Err(
                ProcessBackendError::new(
                    ProcessBackendErrorKind::Native,
                    "memory protection range overflowed",
                ),
            );
        },
    };
    let homogeneous = join4(
        "VirtualProtectEx requires one homogeneous committed region for ",
        format_address(address).as_str(),
        "..",
        format_address(end).as_str(),
    );
    let region = match queried {
        Some(region) => region,
        None => {
            return Err(
                ProcessBackendError::new(ProcessBackendErrorKind::Native, homogeneous.as_str()),
            );
        },
    };
    let region_end: usize = match region.base.checked_add(region.size) {
        Some(region_end) => region_end,
        None => {
            return Err(
                ProcessBackendError::new(
                    ProcessBackendErrorKind::Native,
                    "VirtualQueryEx protection region overflowed",
                ),
            );
        },
    };
    if region.size == 0 || region.state != MEM_COMMIT || address < region.base || end
        > region_end {
        return Err(
            ProcessBackendError::new(ProcessBackendErrorKind::Native, homogeneous.as_str()),
        );
    }
    match exact_protection(region.protection) {
        Some(protection) => Ok((protection, region.protection)),
        None => {
            let message = join4(
                "memory at ",
                format_address(address).as_str(),
                " has unsupported or modified protection ",
                format_hex(region.protection as u64).as_str(),
            );
            Err(ProcessBackendError::new(ProcessBackendErrorKind::Native, message.as_str()))
        },
    }
}

/// Whether a change of protection has to be taken back: what it replaced is
/// not what was found before, or is no protection that the agent knows.
pub fn rollback_needed(previous: u32, expected: u32) -> (needed: bool)
    ensures
        needed <==> previous != expected || protection_of(previous) is None,
{
    previous != expected || exact_protection(previous).is_none()
}

/// What is said of a change of protection that was taken back, or could not be.
pub fn rollback_message(address: usize, size: usize, previous: u32, expected: u32, restored: bool) -> (
    message: String)
    requires
        address + size <= usize::MAX,
    ensures
        message@ == "VirtualProtectEx changed "@ + address_text(address as nat) + ".."@
            + address_text((address + size) as nat) + ", but raw previous flags "@ + address_text(
            previous as nat,
        ) + " did not match the prevalidated flags "@ + address_text(expected as nat) + (
        if restored {
            "; rollback succeeded and restored the raw previous flags"@
        } else {
            "; rollback failed and the requested protection may remain active"@
        }),
{
    let range = join4(
        "VirtualProtectEx changed ",
        format_address(address).as_str(),
        "..",
        format_address(address + size).as_str(),
    );
    let flags = join4(
        ", but raw previous flags ",
        format_hex(previous as u64).as_str(),
        " did not match the prevalidated flags ",
        format_hex(expected as u64).as_str(),
    );
    let outcome = if restored {
        "; rollback succeeded and restored the raw previous flags"
    } else {
        "; rollback failed and the requested protection may remain active"
    };
    let message = join3(range.as_str(), flags.as_str(), outcome);
    proof {
        assert(message@ =~= "VirtualProtectEx changed "@ + address_text(address as nat) + ".."@
            + address_text((address + size) as nat) + ", but raw previous flags "@ + address_text(
            previous as nat,
        ) + " did not match the prevalidated flags "@ + address_text(expected as nat) + outcome@);
    }
    message
}

// ---------------------------------------------------------------------------
// Processes and threads.
// ---------------------------------------------------------------------------

/// The rights that a session asks for when it opens a process.
pub fn access_rights(access_mode: ProcessAccessMode) -> (rights: u32)
    ensures
        rights == (match access_mode {
            ProcessAccessMode::ReadOnly => 0x0410u32,
            ProcessAccessMode::Mutation => 0x043au32,
        }),
{
    match access_mode {
        ProcessAccessMode::ReadOnly => 0x0410,
        ProcessAccessMode::Mutation => 0x043a,
    }
}

/// What stands between the parts of a path.
pub open spec fn separates(c: char) -> bool {
    c == '\\' || c == '/'
}

/// The last part of a path.
pub open spec fn file_name(path: Seq<char>) -> Seq<char>
    decreases path.len(),
{
    if path.len() == 0 || separates(path.last()) {
        Seq::empty()
    } else {
        file_name(path.drop_last()).push(path.last())
    }
}

proof fn lemma_file_name(path: Seq<char>, start: int)
    requires
        0 <= start <= path.len(),
        start == 0 || separates(path[start - 1]),
        forall|i: int| start <= i < path.len() ==> !separates(#[trigger] path[i]),
    ensures
        file_name(path) == path.skip(start),
    decreases path.len(),
{
    if path.len() == start {
        assert(path.skip(start) =~= Seq::empty());
    } else {
        lemma_file_name(path.drop_last(), start);
        assert(path.drop_last().skip(start).push(path.last()) =~= path.skip(start));
    }
}

/// The name of the file that a path leads to.
pub fn executable_name(path: &str) -> (name: String)
    ensures
        name@ == file_name(path@),
{
    let chars = chars_of(path);
    let mut start: usize = chars.len();
    while start > 0 && chars[start - 1] != '\\' && chars[start - 1] != '/'
        invariant
            start <= chars@.len(),
            forall|i: int| start <= i < chars@.len() ==> !separates(#[trigger] chars@[i]),
        decreases start,
    {
        start -= 1;
    }
    proof {
        lemma_file_name(path@, start as int);
    }
    string_of(vstd::slice::slice_subrange(chars.as_slice(), start, chars.len()))
}

/// Identifies a run of a process by its id, the two halves of the time at
/// which it was made and the path of its executable.
pub fn process_identity(pid: u32, high: u32, low: u32, executable_path: String) -> (identity:
    ProcessIdentity)
    ensures
        identity.pid == pid,
        identity.creation_time_100ns@ == dec_text((high * 0x1_0000_0000 + low) as nat),
        identity.executable_path == executable_path,
{
    let creation: u64 = high as u64 * 0x1_0000_0000 + low as u64;
    ProcessIdentity { pid, creation_time_100ns: format_decimal(creation), executable_path }
}

/// What a process is described as: where it could be identified, everything
/// comes from that; its name in the list of processes serves only where it
/// could not.
pub open spec fn described(
    process: ProcessDescriptor,
    pid: u32,
    listed_name: Seq<char>,
    identity: Option<ProcessIdentity>,
) -> bool {
    &&& process.pid == pid
    &&& process.name@ == (match identity {
        Some(known) => file_name(known.executable_path@),
        None => listed_name,
    })
    &&& process.kind == process_kind(process.name@)
    &&& process.identity == identity
    &&& match identity {
        Some(known) => process.executable_path matches Some(path) && path@
            == known.executable_path@,
        None => process.executable_path is None,
    }
}

/// Describes a process.
pub fn describe_process(pid: u32, listed_name: String, identity: Option<ProcessIdentity>) -> (
    process: ProcessDescriptor)
    ensures
        described(process, pid, listed_name@, identity),
{
    match identity {
        Some(known) => {
            let name = executable_name(known.executable_path.as_str());
            let kind = classify_process(name.as_str());
            let path = known.executable_path.clone();
            ProcessDescriptor {
                pid,
                name,
                kind,
                executable_path: Some(path),
                identity: Some(known),
            }
        },
        None => {
            let kind = classify_process(listed_name.as_str());
            ProcessDescriptor { pid, name: listed_name, kind, executable_path: None, identity: None }
        },
    }
}

/// Says that a process ended, if its exit code says so.
pub fn exit_fault(pid: u32, exit_code: u32) -> (fault: Option<ProcessBackendError>)
    ensures
        fault is None <==> exit_code == STILL_ACTIVE,
        fault matches Some(error) ==> error.says(
            ProcessBackendErrorKind::Exited,
            "process "@ + dec_text(pid as nat) + " exited with code "@ + dec_text(
                exit_code as nat,
            ),
        ),
{
    if exit_code == STILL_ACTIVE {
        return None;
    }
    let message = join4(
        "process ",
        format_decimal(pid as u64).as_str(),
        " exited with code ",
        format_decimal(exit_code as u64).as_str(),
    );
    Some(ProcessBackendError::new(ProcessBackendErrorKind::Exited, message.as_str()))
}

/// The error of a process that runs but could not be identified again.
pub fn unidentified(pid: u32, error: ProcessBackendError) -> (contextual: ProcessBackendError)
    ensures
        contextual.kind == error.kind,
        contextual.native_code == error.native_code,
        contextual.message@ == "active process "@ + dec_text(pid as nat)
            + " could not be re-identified: "@ + error.message@,
{
    let message = join4(
        "active process ",
        format_decimal(pid as u64).as_str(),
        " could not be re-identified: ",
        error.message.as_str(),
    );
    ProcessBackendError { kind: error.kind, message, native_code: error.native_code }
}

/// Says that a process is not the run that a session opened, if it is not:
/// one made at another time or from another executable, ASCII case ignored.
pub fn identity_fault(actual: &ProcessIdentity, expected: &ProcessIdentity) -> (fault: Option<
    ProcessBackendError,
>)
    ensures
        fault is None <==> {
            &&& actual.creation_time_100ns@ == expected.creation_time_100ns@
            &&& lowered(actual.executable_path@) == lowered(expected.executable_path@)
        },
        fault matches Some(error) ==> error.says(
            ProcessBackendErrorKind::Native,
            "active process "@ + dec_text(expected.pid as nat)
                + " could not be verified against the identity captured when the session opened"@,
        ),
{
    if same_text(
        actual.creation_time_100ns.as_str(),
        expected.creation_time_100ns.as_str(),
    ) && same_ignoring_case(actual.executable_path.as_str(), expected.executable_path.as_str()) {
        return None;
    }
    let message = join3(
        "active process ",
        format_decimal(expected.pid as u64).as_str(),
        " could not be verified against the identity captured when the session opened",
    );
    Some(ProcessBackendError::new(ProcessBackendErrorKind::Native, message.as_str()))
}

/// Why a process could not be opened, by the code that Windows gave.
pub open spec fn open_kind(code: i32) -> ProcessBackendErrorKind {
    if code == -2147024891 {
        ProcessBackendErrorKind::AccessDenied
    } else if code == -2147024809 {
        ProcessBackendErrorKind::NotFound
    } else {
        ProcessBackendErrorKind::Native
    }
}

/// The error of a process that could not be opened.
pub fn open_error(pid: u32, code: i32, text: &str) -> (error: ProcessBackendError)
    ensures
        error.kind == open_kind(code),
        error.native_code == Some(code),
        error.message@ == "OpenProcess failed for process "@ + dec_text(pid as nat) + ": "@ + text@,
{
    let kind = if code == -2147024891 {
        ProcessBackendErrorKind::AccessDenied
    } else if code == -2147024809 {
        ProcessBackendErrorKind::NotFound
    } else {
        ProcessBackendErrorKind::Native
    };
    let message = join4(
        "OpenProcess failed for process ",
        format_decimal(pid as u64).as_str(),
        ": ",
        text,
    );
    ProcessBackendError { kind, message, native_code: Some(code) }
}

/// The error of another call that failed.
pub fn native_error(context: &str, code: i32, text: &str) -> (error: ProcessBackendError)
    ensures
        error.kind == ProcessBackendErrorKind::Native,
        error.native_code == Some(code),
        error.message@ == context@ + ": "@ + text@,
{
    ProcessBackendError {
        kind: ProcessBackendErrorKind::Native,
        message: join3(context, ": ", text),
        native_code: Some(code),
    }
}

/// How a wait for a thread ended.
pub enum ThreadWait {
    /// The thread still runs.
    Running,
    /// The thread ended.
    Ended,
    /// The wait itself failed.
    Failed,
    /// An answer that a wait for one thread does not give.
    Unexpected(ProcessBackendError),
}

/// Reads the answer of `WaitForSingleObject`.
pub fn thread_wait(status: u32) -> (wait: ThreadWait)
    ensures
        wait is Running <==> status == 0x102,
        wait is Failed <==> status == 0xffff_ffff,
        wait is Ended <==> status == 0,
        wait matches ThreadWait::Unexpected(error) ==> error.says(
            ProcessBackendErrorKind::Native,
            "remote thread returned unexpected wait status "@ + address_text(status as nat),
        ),
{
    match status {
        0x102 => ThreadWait::Running,
        0xffff_ffff => ThreadWait::Failed,
        0 => ThreadWait::Ended,
        _ => {
            let message = join2(
                "remote thread returned unexpected wait status ",
                format_hex(status as u64).as_str(),
            );
            ThreadWait::Unexpected(
                ProcessBackendError::new(ProcessBackendErrorKind::Native, message.as_str()),
            )
        },
    }
}

/// The threads of a list that were not seen before, each once, in the order of
/// the list.
pub open spec fn fresh(listed: Seq<u32>, seen: Seq<u32>) -> Seq<u32>
    decreases listed.len(),
{
    if listed.len() == 0 {
        Seq::empty()
    } else {
        let before = fresh(listed.drop_last(), seen);
        if (seen + before).contains(listed.last()) {
            before
        } else {
            before.push(listed.last())
        }
    }
}

/// Takes the threads of a list that were not seen before, and notes them.
pub fn fresh_threads(listed: &Vec<u32>, seen: &mut Vec<u32>) -> (new: Vec<u32>)
    ensures
        new@ == fresh(listed@, old(seen)@),
        final(seen)@ == old(seen)@ + new@,
{
    let mut new: Vec<u32> = Vec::new();
    let mut i: usize = 0;
    proof {
        assert(seen@ =~= old(seen)@ + new@);
        assert(listed@.take(0) =~= Seq::empty());
    }
    while i < listed.len()
        invariant
            i <= listed@.len(),
            new@ == fresh(listed@.take(i as int), old(seen)@),
            seen@ == old(seen)@ + new@,
        decreases listed@.len() - i,
    {
        let thread: u32 = listed[i];
        proof {
            assert(listed@.take(i + 1).drop_last() =~= listed@.take(i as int));
            assert(listed@.take(i + 1).last() == thread);
        }
        if !holds_thread(seen, thread) {
            new.push(thread);
            seen.push(thread);
            proof {
                assert(seen@ =~= old(seen)@ + new@);
            }
        }
        i += 1;
    }
    proof {
        assert(listed@.take(i as int) =~= listed@);
    }
    new
}

fn holds_thread(threads: &Vec<u32>, thread: u32) -> (yes: bool)
    ensures
        yes == threads@.contains(thread),
{
    let mut i: usize = 0;
    while i < threads.len()
        invariant
            i <= threads@.len(),
            forall|j: int| 0 <= j < i ==> threads@[j] != thread,
        decreases threads@.len() - i,
    {
        if threads[i] == thread {
            assert(threads@[i as int] == thread);
            return true;
        }
        i += 1;
    }
    false
}

/// A thread is suspended once: what is fresh was not seen before, holds
/// nothing twice, and nothing of the list is left out.
pub proof fn threads_are_suspended_once(listed: Seq<u32>, seen: Seq<u32>)
    ensures
        fresh(listed, seen).no_duplicates(),
        forall|thread: u32| #[trigger]
            fresh(listed, seen).contains(thread) <==> listed.contains(thread) && !seen.contains(
                thread,
            ),
    decreases listed.len(),
{
    if listed.len() > 0 {
        let before = fresh(listed.drop_last(), seen);
        let last = listed.last();
        threads_are_suspended_once(listed.drop_last(), seen);
        assert forall|thread: u32|
            listed.contains(thread) <==> listed.drop_last().contains(thread) || thread == last by {
            if listed.contains(thread) {
                let i = listed.index_of(thread);
                if i < listed.len() - 1 {
                    assert(listed.drop_last()[i] == thread);
                }
            }
            if listed.drop_last().contains(thread) {
                let i = listed.drop_last().index_of(thread);
                assert(listed[i] == thread);
            }
            assert(listed[listed.len() - 1] == last);
        }
        assert forall|thread: u32|
            (seen + before).contains(thread) <==> seen.contains(thread) || before.contains(
                thread,
            ) by {
            if (seen + before).contains(thread) {
                let i = (seen + before).index_of(thread);
                if i < seen.len() {
                    assert(seen[i] == thread);
                } else {
                    assert(before[i - seen.len()] == thread);
                }
            }
            if seen.contains(thread) {
                assert((seen + before)[seen.index_of(thread)] == thread);
            }
            if before.contains(thread) {
                assert((seen + before)[seen.len() + before.index_of(thread)] == thread);
            }
        }
        if !(seen + before).contains(last) {
            assert forall|thread: u32|
                before.push(last).contains(thread) <==> before.contains(thread) || thread
                    == last by {
                if before.push(last).contains(thread) {
                    let i = before.push(last).index_of(thread);
                    if i < before.len() {
                        assert(before[i] == thread);
                    }
                }
                if before.contains(thread) {
                    assert(before.push(last)[before.index_of(thread)] == thread);
                }
                assert(before.push(last)[before.len() as int] == last);
            }
            assert forall|i: int, j: int|
                0 <= i < j < before.push(last).len() implies before.push(last)[i] != before.push(
                last,
            )[j] by {
                if j == before.len() {
                    assert(before.contains(before[i]));
                }
            }
        }
        assert forall|thread: u32| #[trigger]
            fresh(listed, seen).contains(thread) <==> listed.contains(thread) && !seen.contains(
                thread,
            ) by {
            assert(before.contains(thread) <==> listed.drop_last().contains(thread)
                && !seen.contains(thread));
        }
    }
}

/// Whether a window class is that of a game client.
pub open spec fn is_game_class(class: Seq<u16>) -> bool {
    &&& class.len() == WIZARD_WINDOW_CLASS@.len()
    &&& forall|i: int|
        0 <= i < class.len() ==> (#[trigger] class[i]) as int == WIZARD_WINDOW_CLASS@[i] as int
}

fn same_unit(unit: u16, c: char) -> (same: bool)
    ensures
        same == (unit as int == c as int),
{
    unit as u32 == c as u32
}

/// Tells a game client by its window class, given in UTF-16.
pub fn is_client_class(class: &[u16]) -> (yes: bool)
    ensures
        yes == is_game_class(class@),
{
    let name = chars_of(WIZARD_WINDOW_CLASS);
    if class.len() != name.len() {
        return false;
    }
    let mut i: usize = 0;
    while i < class.len()
        invariant
            i <= class@.len(),
            class@.len() == name@.len(),
            name@ == WIZARD_WINDOW_CLASS@,
            forall|j: int|
                0 <= j < i ==> (#[trigger] class@[j]) as int == WIZARD_WINDOW_CLASS@[j] as int,
        decreases class@.len() - i,
    {
        if !same_unit(class[i], name[i]) {
            assert(class@[i as int] as int != WIZARD_WINDOW_CLASS@[i as int] as int);
            return false;
        }
        i += 1;
    }
    true
}

}
