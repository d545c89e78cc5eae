//! What lies inside what: pages, regions, allocations and images.

use vstd::prelude::*;

use crate::inspection::headers_of;
use crate::machine::number;
use crate::memory::address_of;
use crate::mutation::{
    covers, first_covering, flushed_range, is_zero_counter, Holds, TrackedAllocation,
};
use crate::protocol::{MemoryProtection, MemoryRegionDescriptor};
use crate::search::span_of;
use crate::text::{dec_text, digits_value, numeral};
use crate::windows_process::{file_name, flag_of, meets, Need};

verus! {

/// Pages can be written where their protection lets them be written, and code there can
/// run where it lets code run. All of them can be read.
pub proof fn pages_serve_by_their_protection(protection: MemoryProtection)
    ensures
        meets(Need::Readable, flag_of(protection)),
        meets(Need::Writable, flag_of(protection)) <==> {
            ||| protection is ReadWrite
            ||| protection is CopyOnWrite
            ||| protection is ExecuteReadWrite
            ||| protection is ExecuteCopyOnWrite
        },
        meets(Need::Executable, flag_of(protection)) <==> {
            ||| protection is ExecuteRead
            ||| protection is ExecuteReadWrite
            ||| protection is ExecuteCopyOnWrite
        },
{
    let flags = flag_of(protection);
    assert(flags & 0x100 == 0 && flags & 0xff == flags) by (bit_vector)
        requires
            flags < 0x100,
    ;
}

/// Guarded pages serve nothing.
pub proof fn guarded_pages_serve_nothing(need: Need, flags: u32)
    requires
        flags & 0x100 != 0,
    ensures
        !meets(need, flags),
{
}

/// A scan looks at what lies both in the region and in what it is confined to.
pub proof fn scans_look_at_what_both_have(
    region: MemoryRegionDescriptor,
    bounds: Option<(usize, usize)>,
    start: usize,
    place: int,
)
    requires
        address_of(region.base_address@) == Ok::<usize, crate::rpc::Failure>(start),
        start + region.size <= usize::MAX,
    ensures
        span_of(region, bounds) matches Ok((low, high)) && (low <= place < high <==> {
            &&& start <= place < start + region.size
            &&& bounds matches Some((first, end)) ==> first <= place < end
        }),
{
}

proof fn lemma_first_covering(
    names: Seq<Seq<char>>,
    allocations: Map<Seq<char>, TrackedAllocation>,
    address: usize,
)
    ensures
        match first_covering(names, allocations, address) {
            Some(allocation) => exists|i: int|
                0 <= i < names.len() && allocation == #[trigger] allocations[names[i]]
                    && allocation.address <= address < allocation.address + allocation.size,
            None => forall|i: int|
                0 <= i < names.len() && allocations[names[i]].address
                    + allocations[names[i]].size <= usize::MAX ==> !(allocations[#[trigger] names[i]].address
                    <= address < allocations[names[i]].address + allocations[names[i]].size),
        },
    decreases names.len(),
{
    if names.len() > 0 && !covers(allocations[names[0]], address) {
        let rest = names.skip(1);
        lemma_first_covering(rest, allocations, address);
        if let Some(allocation) = first_covering(rest, allocations, address) {
            let i = choose|i: int|
                0 <= i < rest.len() && allocation == #[trigger] allocations[rest[i]]
                    && allocation.address <= address < allocation.address + allocation.size;
            assert(names[i + 1] == rest[i]);
            assert(allocation == allocations[names[i + 1]]);
        } else {
            assert forall|i: int|
                0 <= i < names.len() && allocations[names[i]].address
                    + allocations[names[i]].size <= usize::MAX implies !(
            allocations[#[trigger] names[i]].address <= address
                < allocations[names[i]].address + allocations[names[i]].size) by {
                if i > 0 {
                    assert(rest[i - 1] == names[i]);
                }
            }
        }
    }
}

/// What is made visible before a thread starts is the memory that its start lies in, where
/// that is memory of the session, and everything otherwise.
pub proof fn threads_start_in_visible_code<T>(
    holds: Holds<T>,
    names: Seq<Seq<char>>,
    start: usize,
)
    requires
        forall|i: int|
            0 <= i < names.len() ==> holds.allocations[#[trigger] names[i]].address
                + holds.allocations[names[i]].size <= usize::MAX,
    ensures
        ({
            let (from, size) = flushed_range(holds, names, start);
            ||| from <= start < from + size && exists|i: int|
                0 <= i < names.len() && holds.allocations[#[trigger] names[i]].address == from
                    && holds.allocations[names[i]].size == size
            ||| from == 0 && size == 0 && forall|i: int|
                0 <= i < names.len() ==> !(holds.allocations[#[trigger] names[i]].address <= start
                    < holds.allocations[names[i]].address + holds.allocations[names[i]].size)
        }),
{
    lemma_first_covering(names, holds.allocations, start);
    if let Some(allocation) = first_covering(names, holds.allocations, start) {
        let i = choose|i: int|
            0 <= i < names.len() && allocation == #[trigger] holds.allocations[names[i]]
                && allocation.address <= start < allocation.address + allocation.size;
        assert(holds.allocations[names[i]].address == allocation.address);
    }
}

/// A counter is at zero exactly if the number that it holds is.
pub proof fn counters_at_zero_hold_nothing(bytes: Seq<u8>)
    requires
        bytes.len() == 8,
    ensures
        is_zero_counter(bytes) <==> number(bytes, 0, 8) == 0,
{
    assert(bytes.subrange(0, 8) =~= bytes);
    crate::codec::eight_bytes_count(bytes);
}

/// The name of a file is what follows the last separator of its path.
pub proof fn file_names_follow_the_last_separator(
    directory: Seq<char>,
    separator: char,
    name: Seq<char>,
)
    requires
        separator == '\\' || separator == '/',
        !name.contains('\\'),
        !name.contains('/'),
    ensures
        file_name(directory + seq![separator] + name) == name,
        file_name(name) == name,
    decreases name.len(),
{
    if name.len() > 0 {
        let less = name.drop_last();
        assert(name.contains(name.last()));
        assert forall|c: char| less.contains(c) implies name.contains(c) by {
            let i = choose|i: int| 0 <= i < less.len() && less[i] == c;
            assert(name[i] == c);
        }
        file_names_follow_the_last_separator(directory, separator, less);
        assert((directory + seq![separator] + name).drop_last() =~= directory + seq![separator]
            + less);
        assert(less.push(name.last()) =~= name);
    } else {
        assert((directory + seq![separator] + name).last() == separator);
        assert(file_name(name) =~= name);
    }
}

/// An image says behind its second mark what machine it is for and how many sections it
/// has.
pub proof fn headers_say_machine_and_sections(bytes: Seq<u8>, start: int)
    requires
        bytes.len() >= 0x40,
        bytes[0] == 0x4d,
        bytes[1] == 0x5a,
        start == number(bytes, 0x3c, 4),
        start + 8 <= bytes.len(),
        bytes[start] == 0x50,
        bytes[start + 1] == 0x45,
        bytes[start + 2] == 0,
        bytes[start + 3] == 0,
    ensures
        headers_of(bytes) matches Ok(headers) && headers.machine == bytes[start + 4] + 0x100
            * bytes[start + 5] && headers.section_count == bytes[start + 6] + 0x100 * bytes[start
            + 7],
{
    assert(bytes.subrange(start, start + 4) =~= seq![0x50u8, 0x45, 0, 0]);
    lemma_two(bytes.subrange(start + 4, start + 6));
    lemma_two(bytes.subrange(start + 6, start + 8));
}

proof fn lemma_two(bytes: Seq<u8>)
    requires
        bytes.len() == 2,
    ensures
        crate::codec::le_value(bytes) == bytes[0] + 0x100 * bytes[1],
{
    reveal_with_fuel(crate::codec::le_value, 3);
    assert(bytes.skip(1).skip(1).len() == 0);
}

/// A number in decimal digits reads back.
pub proof fn decimal_reads_back(value: nat)
    ensures
        digits_value(dec_text(value), 10) == Some(value),
        numeral(dec_text(value), 10) == Some(value),
{
    lemma_decimal(value);
}

proof fn lemma_decimal(value: nat)
    ensures
        digits_value(dec_text(value), 10) == Some(value),
        dec_text(value).len() > 0,
        dec_text(value)[0] != '+',
    decreases value,
{
    let text = dec_text(value);
    if value < 10 {
        assert(text.drop_last() =~= Seq::empty());
        assert(digits_value(text.drop_last(), 10) == Some(0nat));
    } else {
        lemma_decimal(value / 10);
        assert(text.drop_last() =~= dec_text(value / 10));
    }
}

}
