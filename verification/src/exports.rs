//! Finds the exports of modules in another process.

use vstd::prelude::*;
use vstd::string::*;
use vstd::utf8::{decode_utf8, valid_utf8};

use crate::backend::MutationBackend;
use crate::codec::{le_value, lemma_pow256, read_le, same_bytes};
use crate::feature_error::{feature_address, gives, parse_address, FeatureHookApiError};
use crate::process::{ProcessSessionRegistry, Sessions};
use crate::protocol::{ModuleDescriptor, ProcessSessionId};
use crate::rpc::{failure, Failure, RpcErrorCode};
use crate::probe::{
    extends, fetched, lemma_extends, lemma_prefixes, reads_as, steps_made, Log, Probe,
};
use crate::machine::number;
use crate::steps::{world_at, Op, Reply, World};
use crate::text::{
    address_text, ascii_lowercase, chars_of, contains_char, join2, join3, join4, lowered, numeral,
    parse_numeral, same_text, string_of, utf8_text,
};

verus! {

/// How many forwarders are followed.
pub const MAX_EXPORT_FORWARD_DEPTH: usize = 4;

/// The longest export name that is read, with its end mark.
pub const MAX_EXPORT_NAME_BYTES: usize = 4096;

/// The largest export table that is walked.
pub const MAX_EXPORT_TABLE_ENTRIES: usize = 1_000_000;

/// What export is looked for.
#[derive(Debug)]
pub enum ExportLookup {
    Name(String),
    Ordinal(u32),
}

/// The same, as it counts.
pub ghost enum Lookup {
    Named { name: Seq<char> },
    Ordinal { ordinal: u32 },
}

impl View for ExportLookup {
    type V = Lookup;

    open spec fn view(&self) -> Lookup {
        match self {
            ExportLookup::Name(name) => Lookup::Named { name: name@ },
            ExportLookup::Ordinal(ordinal) => Lookup::Ordinal { ordinal: *ordinal },
        }
    }
}

/// A module in memory.
pub ghost struct Image {
    pub base: usize,
    pub size: usize,
    pub name: Seq<char>,
}

/// A module whose exports cannot be made out.
pub open spec fn malformed(module: Seq<char>, reason: Seq<char>) -> Failure {
    failure(
        RpcErrorCode::MemoryInvalidAddress,
        "target module "@ + module + " has a malformed PE export directory: "@ + reason,
    )
}

fn malformed_export(module: &str, reason: &str) -> (error: FeatureHookApiError)
    ensures
        error@ == malformed(module@, reason@),
{
    FeatureHookApiError::request(
        RpcErrorCode::MemoryInvalidAddress,
        join4(
            "target module ",
            module,
            " has a malformed PE export directory: ",
            reason,
        ),
    )
}

/// Why a range is not one of an image.
pub open spec fn range_refusal(
    size: int,
    rva: int,
    length: int,
    module: Seq<char>,
    field: Seq<char>,
) -> Option<Failure> {
    if length == 0 || rva + length > size {
        Some(malformed(module, field + " extends outside the remote image"@))
    } else {
        None
    }
}

fn checked_rva(
    image_size: usize,
    rva: usize,
    size: usize,
    module: &str,
    field: &str,
) -> (verdict: Result<(), FeatureHookApiError>)
    ensures
        match range_refusal(image_size as int, rva as int, size as int, module@, field@) {
            None => verdict is Ok,
            Some(fault) => verdict matches Err(error) && error@ == fault,
        },
{
    let outside = match rva.checked_add(size) {
        Some(end) => end > image_size,
        None => true,
    };
    if size == 0 || outside {
        let reason = join2(field, " extends outside the remote image");
        return Err(malformed_export(module, reason.as_str()));
    }
    Ok(())
}

/// The bytes of a range of an image, read at a place of the log, and the place
/// after it.
pub open spec fn image_bytes<H, T>(log: Log<H, T>, k: int, image: Image, rva: int, size: int) -> (
    int,
    Result<Seq<u8>, Failure>,
) {
    match range_refusal(image.size as int, rva, size, image.name, "read"@) {
        Some(fault) => (k, Err(fault)),
        None => if image.base + rva > usize::MAX {
            (k, Err(malformed(image.name, "remote image address overflowed"@)))
        } else {
            match fetched(log, k, (image.base + rva) as usize, size as usize) {
                Err(fault) => (k + 1, Err(fault)),
                Ok(bytes) => if bytes.len() != size {
                    (
                        k + 1,
                        Err(malformed(image.name, "remote image read returned a short buffer"@)),
                    )
                } else {
                    (k + 1, Ok(bytes))
                },
            }
        },
    }
}

fn read_image<B: MutationBackend>(
    reader: &mut Probe<'_, B>,
    sessions: &mut ProcessSessionRegistry<B::Handle>,
    base: usize,
    image_size: usize,
    rva: usize,
    size: usize,
    module: &str,
) -> (bytes: Result<Vec<u8>, FeatureHookApiError>)
    requires
        old(sessions).wf(),
        old(reader).sound(old(sessions)@),
    ensures
        final(sessions).wf(),
        final(reader).sound(final(sessions)@),
        old(reader).goes_on(final(reader)),
        bytes matches Ok(held) ==> held@.len() == size,
        forall|log: Log<B::Handle, B::ThreadHandle>| #[trigger]
            extends(final(reader).log(), log) ==> ({
                let (k, outcome) = image_bytes(
                    log,
                    old(reader).log().len() as int,
                    Image { base, size: image_size, name: module@ },
                    rva as int,
                    size as int,
                );
                k == final(reader).log().len() && reads_as(bytes, outcome)
            }),
{
    proof {
        assert(reader.log().take(reader.log().len() as int) =~= reader.log());
    }
    checked_rva(image_size, rva, size, module, "read")?;
    let address: usize = match base.checked_add(rva) {
        Some(address) => address,
        None => {
            return Err(malformed_export(module, "remote image address overflowed"));
        },
    };
    let bytes = match reader.fetch(sessions, address, size) {
        Ok(bytes) => bytes,
        Err(error) => {
            return Err(error);
        },
    };
    if bytes.len() != size {
        return Err(malformed_export(module, "remote image read returned a short buffer"));
    }
    Ok(bytes)
}

/// A number of so many bytes at a range of an image.
pub open spec fn image_number<H, T>(log: Log<H, T>, k: int, image: Image, rva: int, size: int) -> (
    int,
    Result<nat, Failure>,
) {
    match image_bytes(log, k, image, rva, size) {
        (k, Err(fault)) => (k, Err(fault)),
        (k, Ok(bytes)) => (k, Ok(le_value(bytes))),
    }
}

fn read_image_number<B: MutationBackend>(
    reader: &mut Probe<'_, B>,
    sessions: &mut ProcessSessionRegistry<B::Handle>,
    base: usize,
    image_size: usize,
    rva: usize,
    size: usize,
    module: &str,
) -> (number: Result<usize, FeatureHookApiError>)
    requires
        old(sessions).wf(),
        old(reader).sound(old(sessions)@),
        size == 2 || size == 4,
    ensures
        final(sessions).wf(),
        final(reader).sound(final(sessions)@),
        old(reader).goes_on(final(reader)),
        number matches Ok(value) ==> value <= u32::MAX,
        forall|log: Log<B::Handle, B::ThreadHandle>| #[trigger]
            extends(final(reader).log(), log) ==> ({
                let (k, outcome) = image_number(
                    log,
                    old(reader).log().len() as int,
                    Image { base, size: image_size, name: module@ },
                    rva as int,
                    size as int,
                );
                k == final(reader).log().len() && counts_as(number, outcome)
            }),
{
    let bytes = read_image(reader, sessions, base, image_size, rva, size, module)?;
    let value: u64 = read_le(bytes.as_slice(), 0, size);
    proof {
        lemma_pow256();
        assert(bytes@.subrange(0, size as int) =~= bytes@);
    }
    Ok(value as usize)
}

/// A number that agrees with an outcome.
pub open spec fn counts_as(
    number: Result<usize, FeatureHookApiError>,
    outcome: Result<nat, Failure>,
) -> bool {
    match (number, outcome) {
        (Ok(number), Ok(expected)) => number == expected,
        (Err(error), Err(fault)) => error@ == fault,
        _ => false,
    }
}

/// Where the first zero byte is.
pub open spec fn zero_at(bytes: Seq<u8>, from: int) -> Option<int>
    decreases bytes.len() - from,
{
    if from >= bytes.len() {
        None
    } else if bytes[from] == 0 {
        Some(from)
    } else {
        zero_at(bytes, from + 1)
    }
}

/// What a string of an image is for.
#[derive(Clone, Copy, PartialEq, Eq, Structural)]
pub enum ImageText {
    Name,
    Forwarder,
}

/// The words for a string of an image: what it is, that it has no end mark, and
/// that it is no text.
pub open spec fn text_words(kind: ImageText) -> (Seq<char>, Seq<char>, Seq<char>) {
    match kind {
        ImageText::Name => (
            "export string"@,
            "export string is not null-terminated within its image bounds"@,
            "export string is not valid ASCII-compatible UTF-8"@,
        ),
        ImageText::Forwarder => (
            "export forwarder"@,
            "export forwarder is not null-terminated inside the export directory"@,
            "export forwarder is not valid ASCII-compatible UTF-8"@,
        ),
    }
}

/// The smaller of two numbers.
pub open spec fn least(a: int, b: int) -> int {
    if a < b {
        a
    } else {
        b
    }
}

/// The text that bytes hold up to their first zero.
pub open spec fn marked_text(bytes: Seq<u8>, module: Seq<char>, kind: ImageText) -> Result<
    Seq<char>,
    Failure,
> {
    match zero_at(bytes, 0) {
        None => Err(malformed(module, text_words(kind).1)),
        Some(end) => if valid_utf8(bytes.take(end)) {
            Ok(decode_utf8(bytes.take(end)))
        } else {
            Err(malformed(module, text_words(kind).2))
        },
    }
}

/// The text at a place of an image, of at most so many bytes.
pub open spec fn image_text<H, T>(
    log: Log<H, T>,
    k: int,
    image: Image,
    rva: int,
    limit: int,
    kind: ImageText,
) -> (int, Result<Seq<char>, Failure>) {
    match range_refusal(image.size as int, rva, 1, image.name, text_words(kind).0) {
        Some(fault) => (k, Err(fault)),
        None => {
            let available = least(least(image.size - rva, limit), MAX_EXPORT_NAME_BYTES as int);
            match image_bytes(log, k, image, rva, available) {
                (k, Err(fault)) => (k, Err(fault)),
                (k, Ok(bytes)) => (k, marked_text(bytes, image.name, kind)),
            }
        },
    }
}

/// Text that agrees with an outcome.
pub open spec fn spells(
    text: Result<String, FeatureHookApiError>,
    outcome: Result<Seq<char>, Failure>,
) -> bool {
    match (text, outcome) {
        (Ok(text), Ok(expected)) => text@ == expected,
        (Err(error), Err(fault)) => error@ == fault,
        _ => false,
    }
}

fn find_zero(bytes: &Vec<u8>) -> (end: Option<usize>)
    ensures
        match end {
            Some(i) => zero_at(bytes@, 0) == Some(i as int) && i < bytes@.len(),
            None => zero_at(bytes@, 0) is None,
        },
{
    let mut i: usize = 0;
    while i < bytes.len()
        invariant
            i <= bytes@.len(),
            zero_at(bytes@, 0) == zero_at(bytes@, i as int),
        decreases bytes@.len() - i,
    {
        if bytes[i] == 0 {
            return Some(i);
        }
        i += 1;
    }
    None
}

fn read_image_text<B: MutationBackend>(
    reader: &mut Probe<'_, B>,
    sessions: &mut ProcessSessionRegistry<B::Handle>,
    base: usize,
    image_size: usize,
    rva: usize,
    limit: usize,
    module: &str,
    kind: ImageText,
) -> (text: Result<String, FeatureHookApiError>)
    requires
        old(sessions).wf(),
        old(reader).sound(old(sessions)@),
    ensures
        final(sessions).wf(),
        final(reader).sound(final(sessions)@),
        old(reader).goes_on(final(reader)),
        forall|log: Log<B::Handle, B::ThreadHandle>| #[trigger]
            extends(final(reader).log(), log) ==> ({
                let (k, outcome) = image_text(
                    log,
                    old(reader).log().len() as int,
                    Image { base, size: image_size, name: module@ },
                    rva as int,
                    limit as int,
                    kind,
                );
                k == final(reader).log().len() && spells(text, outcome)
            }),
{
    proof {
        assert(reader.log().take(reader.log().len() as int) =~= reader.log());
    }
    let (what, endless, garbled): (&'static str, &'static str, &'static str) = match kind {
        ImageText::Name => (
            "export string",
            "export string is not null-terminated within its image bounds",
            "export string is not valid ASCII-compatible UTF-8",
        ),
        ImageText::Forwarder => (
            "export forwarder",
            "export forwarder is not null-terminated inside the export directory",
            "export forwarder is not valid ASCII-compatible UTF-8",
        ),
    };
    checked_rva(image_size, rva, 1, module, what)?;
    let mut available: usize = image_size - rva;
    if limit < available {
        available = limit;
    }
    if MAX_EXPORT_NAME_BYTES < available {
        available = MAX_EXPORT_NAME_BYTES;
    }
    let bytes = read_image(reader, sessions, base, image_size, rva, available, module)?;
    let end: usize = match find_zero(&bytes) {
        Some(end) => end,
        None => {
            return Err(malformed_export(module, endless));
        },
    };
    let span = vstd::slice::slice_subrange(bytes.as_slice(), 0, end);
    proof {
        assert(span@ =~= bytes@.take(end as int));
    }
    match utf8_text(span) {
        Some(text) => Ok(text),
        None => Err(malformed_export(module, garbled)),
    }
}

/// Where one of two characters occurs last, or -1.
pub open spec fn last_of(text: Seq<char>, a: char, b: char) -> int
    decreases text.len(),
{
    if text.len() == 0 {
        -1
    } else if text.last() == a || text.last() == b {
        text.len() - 1
    } else {
        last_of(text.drop_last(), a, b)
    }
}

/// The name of a module without its directory, in lower case and with an
/// extension.
pub open spec fn normalized(value: Seq<char>) -> Seq<char> {
    let lower = lowered(value.skip(last_of(value, '\\', '/') + 1));
    if lower.contains('.') {
        lower
    } else {
        lower + ".dll"@
    }
}

fn find_last(chars: &Vec<char>, a: char, b: char) -> (after: usize)
    ensures
        after == last_of(chars@, a, b) + 1,
        after <= chars@.len(),
{
    let mut i: usize = chars.len();
    proof {
        assert(chars@.take(i as int) =~= chars@);
    }
    while i > 0
        invariant
            i <= chars@.len(),
            last_of(chars@, a, b) == last_of(chars@.take(i as int), a, b),
        decreases i,
    {
        if chars[i - 1] == a || chars[i - 1] == b {
            return i;
        }
        proof {
            assert(chars@.take(i as int).drop_last() =~= chars@.take(i - 1));
        }
        i -= 1;
    }
    0
}

fn normalize_module_name(value: &str) -> (name: String)
    ensures
        name@ == normalized(value@),
{
    let chars = chars_of(value);
    let start: usize = find_last(&chars, '\\', '/');
    let tail = vstd::slice::slice_subrange(chars.as_slice(), start, chars.len());
    proof {
        assert(tail@ =~= value@.skip(last_of(value@, '\\', '/') + 1));
    }
    let tail = string_of(tail);
    let lower = ascii_lowercase(tail.as_str());
    if contains_char(lower.as_str(), '.') {
        lower
    } else {
        join2(lower.as_str(), ".dll")
    }
}

/// The first module of a name, from a place on.
pub open spec fn module_named(modules: Seq<ModuleDescriptor>, wanted: Seq<char>, from: int) -> Option<
    int,
>
    decreases modules.len() - from,
{
    if from >= modules.len() {
        None
    } else if normalized(modules[from].name@) == normalized(wanted) {
        Some(from)
    } else {
        module_named(modules, wanted, from + 1)
    }
}

fn find_module(modules: &Vec<ModuleDescriptor>, requested: &str) -> (found: Option<usize>)
    ensures
        match found {
            Some(i) => module_named(modules@, requested@, 0) == Some(i as int) && i
                < modules@.len(),
            None => module_named(modules@, requested@, 0) is None,
        },
{
    let wanted = normalize_module_name(requested);
    let mut i: usize = 0;
    while i < modules.len()
        invariant
            i <= modules@.len(),
            wanted@ == normalized(requested@),
            module_named(modules@, requested@, 0) == module_named(
                modules@,
                requested@,
                i as int,
            ),
        decreases modules@.len() - i,
    {
        let name = normalize_module_name(modules[i].name.as_str());
        if same_text(name.as_str(), wanted.as_str()) {
            return Some(i);
        }
        i += 1;
    }
    None
}

/// The export directory of an image.
pub ghost struct Directory {
    pub rva: int,
    pub size: int,
}

/// A number inside bytes that were read.
pub open spec fn field(bytes: Seq<u8>, at: int, width: int) -> nat {
    le_value(bytes.subrange(at, at + width))
}

/// What the header of an image says of its export directory.
pub open spec fn directory_of(nt: Seq<u8>, image: Image) -> Result<Directory, Failure> {
    let magic = field(nt, 24, 2);
    let (data, count) = if magic == 0x10b {
        (120int, 116int)
    } else {
        (136int, 132int)
    };
    let declared = field(nt, 80, 4);
    let rva = field(nt, data, 4);
    let size = field(nt, data + 4, 4);
    if nt.take(4) != seq![0x50u8, 0x45, 0, 0] {
        Err(malformed(image.name, "PE signature is invalid"@))
    } else if magic != 0x10b && magic != 0x20b {
        Err(malformed(image.name, "optional-header magic is neither PE32 nor PE32+"@))
    } else if field(nt, 20, 2) < data - 24 + 8 {
        Err(malformed(image.name, "optional header does not contain the export data directory"@))
    } else if field(nt, count, 4) == 0 {
        Err(malformed(image.name, "optional header reports no data directories"@))
    } else if declared == 0 || declared > image.size {
        Err(
            malformed(
                image.name,
                "optional-header image size exceeds the loaded module bounds"@,
            ),
        )
    } else if rva == 0 || size < 40 {
        Err(
            failure(
                RpcErrorCode::MemoryRequiredMatchNotFound,
                "target module "@ + image.name + " has no usable export directory"@,
            ),
        )
    } else {
        match range_refusal(
            image.size as int,
            rva as int,
            size as int,
            image.name,
            "export directory"@,
        ) {
            Some(fault) => Err(fault),
            None => Ok(Directory { rva: rva as int, size: size as int }),
        }
    }
}

/// The export directory of an image, as its headers give it.
pub open spec fn directory_at<H, T>(log: Log<H, T>, k: int, image: Image) -> (
    int,
    Result<Directory, Failure>,
) {
    match image_bytes(log, k, image, 0, 0x40) {
        (k, Err(fault)) => (k, Err(fault)),
        (k, Ok(dos)) => if dos.take(2) != seq![0x4du8, 0x5a] {
            (k, Err(malformed(image.name, "DOS signature is not MZ"@)))
        } else {
            match image_bytes(log, k, image, field(dos, 0x3c, 4) as int, 0x90) {
                (k, Err(fault)) => (k, Err(fault)),
                (k, Ok(nt)) => (k, directory_of(nt, image)),
            }
        },
    }
}

fn starts_with(bytes: &Vec<u8>, start: &Vec<u8>) -> (yes: bool)
    requires
        start@.len() <= bytes@.len(),
    ensures
        yes == (bytes@.take(start@.len() as int) == start@),
{
    let head = vstd::slice::slice_subrange(bytes.as_slice(), 0, start.len());
    proof {
        assert(head@ =~= bytes@.take(start@.len() as int));
    }
    same_bytes(head, start.as_slice())
}

fn number_in(bytes: &Vec<u8>, at: usize, width: usize) -> (number: usize)
    requires
        at + width <= bytes@.len(),
        width == 2 || width == 4,
    ensures
        number == field(bytes@, at as int, width as int),
        number <= u32::MAX,
{
    proof {
        lemma_pow256();
    }
    let value: u64 = read_le(bytes.as_slice(), at, width);
    value as usize
}

fn check_directory(nt: &Vec<u8>, base: usize, image_size: usize, module: &str) -> (found: Result<
    (usize, usize),
    FeatureHookApiError,
>)
    requires
        nt@.len() == 0x90,
    ensures
        match (
            found,
            directory_of(nt@, Image { base, size: image_size, name: module@ }),
        ) {
            (Ok((rva, size)), Ok(directory)) => rva == directory.rva && size == directory.size
                && rva + size <= image_size && size > 0,
            (Err(error), Err(fault)) => error@ == fault,
            _ => false,
        },
{
    let mark: Vec<u8> = vec![0x50, 0x45, 0, 0];
    proof {
        assert(mark@ =~= seq![0x50u8, 0x45, 0, 0]);
    }
    if !starts_with(nt, &mark) {
        return Err(malformed_export(module, "PE signature is invalid"));
    }
    let magic: usize = number_in(nt, 24, 2);
    let (data, count): (usize, usize) = if magic == 0x10b {
        (120, 116)
    } else {
        (136, 132)
    };
    if magic != 0x10b && magic != 0x20b {
        return Err(
            malformed_export(module, "optional-header magic is neither PE32 nor PE32+"),
        );
    }
    if number_in(nt, 20, 2) < data - 24 + 8 {
        return Err(
            malformed_export(
                module,
                "optional header does not contain the export data directory",
            ),
        );
    }
    if number_in(nt, count, 4) == 0 {
        return Err(malformed_export(module, "optional header reports no data directories"));
    }
    let declared: usize = number_in(nt, 80, 4);
    if declared == 0 || declared > image_size {
        return Err(
            malformed_export(
                module,
                "optional-header image size exceeds the loaded module bounds",
            ),
        );
    }
    let rva: usize = number_in(nt, data, 4);
    let size: usize = number_in(nt, data + 4, 4);
    if rva == 0 || size < 40 {
        return Err(
            FeatureHookApiError::request(
                RpcErrorCode::MemoryRequiredMatchNotFound,
                join3("target module ", module, " has no usable export directory"),
            ),
        );
    }
    checked_rva(image_size, rva, size, module, "export directory")?;
    Ok((rva, size))
}

fn find_directory<B: MutationBackend>(
    reader: &mut Probe<'_, B>,
    sessions: &mut ProcessSessionRegistry<B::Handle>,
    base: usize,
    image_size: usize,
    module: &str,
) -> (found: Result<(usize, usize), FeatureHookApiError>)
    requires
        old(sessions).wf(),
        old(reader).sound(old(sessions)@),
    ensures
        final(sessions).wf(),
        final(reader).sound(final(sessions)@),
        old(reader).goes_on(final(reader)),
        found matches Ok((rva, size)) ==> rva + size <= image_size && size > 0,
        forall|log: Log<B::Handle, B::ThreadHandle>| #[trigger]
            extends(final(reader).log(), log) ==> ({
                let (k, outcome) = directory_at(
                    log,
                    old(reader).log().len() as int,
                    Image { base, size: image_size, name: module@ },
                );
                &&& k == final(reader).log().len()
                &&& match (found, outcome) {
                    (Ok((rva, size)), Ok(directory)) => rva == directory.rva && size
                        == directory.size,
                    (Err(error), Err(fault)) => error@ == fault,
                    _ => false,
                }
            }),
{
    let ghost first = reader.log();
    let dos = read_image(reader, sessions, base, image_size, 0, 0x40, module)?;
    let mark: Vec<u8> = vec![0x4d, 0x5a];
    proof {
        assert(mark@ =~= seq![0x4du8, 0x5a]);
    }
    if !starts_with(&dos, &mark) {
        return Err(malformed_export(module, "DOS signature is not MZ"));
    }
    let offset: usize = number_in(&dos, 0x3c, 4);
    let ghost second = reader.log();
    let answer = read_image(reader, sessions, base, image_size, offset, 0x90, module);
    proof {
        lemma_extends(first, second, reader.log());
        lemma_prefixes(second, reader.log());
    }
    let nt = answer?;
    check_directory(&nt, base, image_size, module)
}

/// The tables of an export directory.
pub ghost struct Tables {
    pub ordinal_base: nat,
    pub functions: nat,
    pub names: nat,
    pub functions_rva: int,
    pub names_rva: int,
    pub ordinals_rva: int,
}

/// What an export directory says of its tables.
pub open spec fn tables_of(directory: Seq<u8>, image: Image) -> Result<Tables, Failure> {
    let tables = Tables {
        ordinal_base: field(directory, 16, 4),
        functions: field(directory, 20, 4),
        names: field(directory, 24, 4),
        functions_rva: field(directory, 28, 4) as int,
        names_rva: field(directory, 32, 4) as int,
        ordinals_rva: field(directory, 36, 4) as int,
    };
    let excess = Err::<Tables, Failure>(
        malformed(image.name, "export table count exceeds its safety limit"@),
    );
    if tables.functions > MAX_EXPORT_TABLE_ENTRIES {
        excess
    } else if tables.functions == 0 {
        Err(malformed(image.name, "export function table is empty"@))
    } else if tables.names > MAX_EXPORT_TABLE_ENTRIES {
        excess
    } else {
        match range_refusal(
            image.size as int,
            tables.functions_rva,
            (tables.functions * 4) as int,
            image.name,
            "function table"@,
        ) {
            Some(fault) => Err(fault),
            None => Ok(tables),
        }
    }
}

struct TableSet {
    ordinal_base: usize,
    functions: usize,
    names: usize,
    functions_rva: usize,
    names_rva: usize,
    ordinals_rva: usize,
}

impl TableSet {
    spec fn tables(&self) -> Tables {
        Tables {
            ordinal_base: self.ordinal_base as nat,
            functions: self.functions as nat,
            names: self.names as nat,
            functions_rva: self.functions_rva as int,
            names_rva: self.names_rva as int,
            ordinals_rva: self.ordinals_rva as int,
        }
    }
}

fn table_count(value: usize, module: &str) -> (count: Result<usize, FeatureHookApiError>)
    ensures
        match count {
            Ok(count) => count == value && value <= MAX_EXPORT_TABLE_ENTRIES,
            Err(error) => value > MAX_EXPORT_TABLE_ENTRIES && error@ == malformed(
                module@,
                "export table count exceeds its safety limit"@,
            ),
        },
{
    if value > MAX_EXPORT_TABLE_ENTRIES {
        return Err(malformed_export(module, "export table count exceeds its safety limit"));
    }
    Ok(value)
}

fn check_tables(directory: &Vec<u8>, base: usize, image_size: usize, module: &str) -> (found: Result<
    TableSet,
    FeatureHookApiError,
>)
    requires
        directory@.len() == 40,
    ensures
        match (
            found,
            tables_of(directory@, Image { base, size: image_size, name: module@ }),
        ) {
            (Ok(set), Ok(tables)) => {
                &&& set.tables() == tables
                &&& set.functions <= MAX_EXPORT_TABLE_ENTRIES
                &&& set.names <= MAX_EXPORT_TABLE_ENTRIES
                &&& set.ordinal_base <= u32::MAX
                &&& set.functions_rva + set.functions * 4 <= image_size
            },
            (Err(error), Err(fault)) => error@ == fault,
            _ => false,
        },
{
    let ordinal_base: usize = number_in(directory, 16, 4);
    let functions: usize = table_count(number_in(directory, 20, 4), module)?;
    if functions == 0 {
        return Err(malformed_export(module, "export function table is empty"));
    }
    let names: usize = table_count(number_in(directory, 24, 4), module)?;
    let functions_rva: usize = number_in(directory, 28, 4);
    let names_rva: usize = number_in(directory, 32, 4);
    let ordinals_rva: usize = number_in(directory, 36, 4);
    checked_rva(image_size, functions_rva, functions * 4, module, "function table")?;
    Ok(
        TableSet {
            ordinal_base,
            functions,
            names,
            functions_rva,
            names_rva,
            ordinals_rva,
        },
    )
}

/// Walks the name table for a name, and gives what the ordinal table has at the
/// place of the first that is the same.
pub open spec fn named_index<H, T>(
    log: Log<H, T>,
    k: int,
    image: Image,
    tables: Tables,
    name: Seq<char>,
    from: int,
) -> (int, Result<nat, Failure>)
    decreases tables.names - from,
{
    if from >= tables.names {
        (
            k,
            Err(
                failure(
                    RpcErrorCode::MemoryRequiredMatchNotFound,
                    "target module "@ + image.name + " does not export "@ + name,
                ),
            ),
        )
    } else {
        match image_number(log, k, image, tables.names_rva + from * 4, 4) {
            (k, Err(fault)) => (k, Err(fault)),
            (k, Ok(rva)) => match image_text(
                log,
                k,
                image,
                rva as int,
                usize::MAX as int,
                ImageText::Name,
            ) {
                (k, Err(fault)) => (k, Err(fault)),
                (k, Ok(candidate)) => if candidate == name {
                    image_number(log, k, image, tables.ordinals_rva + from * 2, 2)
                } else {
                    named_index(log, k, image, tables, name, from + 1)
                },
            },
        }
    }
}

/// The place of an export in the function table.
pub open spec fn export_index<H, T>(
    log: Log<H, T>,
    k: int,
    image: Image,
    tables: Tables,
    lookup: Lookup,
) -> (int, Result<nat, Failure>) {
    match lookup {
        Lookup::Ordinal { ordinal } => if ordinal < tables.ordinal_base {
            (
                k,
                Err(
                    malformed(
                        image.name,
                        "export ordinal is below the module ordinal base"@,
                    ),
                ),
            )
        } else {
            (k, Ok((ordinal - tables.ordinal_base) as nat))
        },
        Lookup::Named { name } => match range_refusal(
            image.size as int,
            tables.names_rva,
            (tables.names * 4) as int,
            image.name,
            "name table"@,
        ) {
            Some(fault) => (k, Err(fault)),
            None => match range_refusal(
                image.size as int,
                tables.ordinals_rva,
                (tables.names * 2) as int,
                image.name,
                "ordinal table"@,
            ) {
                Some(fault) => (k, Err(fault)),
                None => named_index(log, k, image, tables, name, 0),
            },
        },
    }
}

fn find_index<B: MutationBackend>(
    reader: &mut Probe<'_, B>,
    sessions: &mut ProcessSessionRegistry<B::Handle>,
    base: usize,
    image_size: usize,
    module: &str,
    tables: &TableSet,
    name: &String,
) -> (index: Result<usize, FeatureHookApiError>)
    requires
        old(sessions).wf(),
        old(reader).sound(old(sessions)@),
        tables.names <= MAX_EXPORT_TABLE_ENTRIES,
        tables.names_rva + tables.names * 4 <= image_size,
        tables.ordinals_rva + tables.names * 2 <= image_size,
    ensures
        final(sessions).wf(),
        final(reader).sound(final(sessions)@),
        old(reader).goes_on(final(reader)),
        forall|log: Log<B::Handle, B::ThreadHandle>| #[trigger]
            extends(final(reader).log(), log) ==> ({
                let (k, outcome) = named_index(
                    log,
                    old(reader).log().len() as int,
                    Image { base, size: image_size, name: module@ },
                    tables.tables(),
                    name@,
                    0,
                );
                k == final(reader).log().len() && counts_as(index, outcome)
            }),
{
    let ghost image = Image { base, size: image_size, name: module@ };
    let ghost first = reader.log();
    let ghost at = first.len() as int;
    proof {
        assert(first.take(at) =~= first);
    }
    let mut i: usize = 0;
    while i < tables.names
        invariant
            i <= tables.names,
            sessions.wf(),
            reader.sound(sessions@),
            tables.names <= MAX_EXPORT_TABLE_ENTRIES,
            tables.names_rva + tables.names * 4 <= image_size,
            tables.ordinals_rva + tables.names * 2 <= image_size,
            image == (Image { base, size: image_size, name: module@ }),
            first == old(reader).log(),
            at == first.len(),
            old(reader).goes_on(reader),
            forall|log: Log<B::Handle, B::ThreadHandle>| #[trigger]
                extends(reader.log(), log) ==> named_index(
                    log,
                    at,
                    image,
                    tables.tables(),
                    name@,
                    0,
                ) == named_index(
                    log,
                    reader.log().len() as int,
                    image,
                    tables.tables(),
                    name@,
                    i as int,
                ),
        decreases tables.names - i,
    {
        let ghost a = reader.log();
        let number = read_image_number(
            reader,
            sessions,
            base,
            image_size,
            tables.names_rva + i * 4,
            4,
            module,
        );
        let ghost b = reader.log();
        proof {
            lemma_extends(first, a, b);
            lemma_prefixes(a, b);
        }
        let rva: usize = number?;
        let text = read_image_text(
            reader,
            sessions,
            base,
            image_size,
            rva,
            usize::MAX,
            module,
            ImageText::Name,
        );
        let ghost c = reader.log();
        proof {
            lemma_extends(first, b, c);
            lemma_prefixes(b, c);
        }
        let candidate = text?;
        if same_text(candidate.as_str(), name.as_str()) {
            let found = read_image_number(
                reader,
                sessions,
                base,
                image_size,
                tables.ordinals_rva + i * 2,
                2,
                module,
            );
            proof {
                lemma_extends(first, c, reader.log());
                lemma_prefixes(c, reader.log());
            }
            return found;
        }
        i += 1;
    }
    Err(
        FeatureHookApiError::request(
            RpcErrorCode::MemoryRequiredMatchNotFound,
            join4("target module ", module, " does not export ", name.as_str()),
        ),
    )
}

fn find_export<B: MutationBackend>(
    reader: &mut Probe<'_, B>,
    sessions: &mut ProcessSessionRegistry<B::Handle>,
    base: usize,
    image_size: usize,
    module: &str,
    tables: &TableSet,
    lookup: &ExportLookup,
) -> (index: Result<usize, FeatureHookApiError>)
    requires
        old(sessions).wf(),
        old(reader).sound(old(sessions)@),
        tables.names <= MAX_EXPORT_TABLE_ENTRIES,
        tables.ordinal_base <= u32::MAX,
    ensures
        final(sessions).wf(),
        final(reader).sound(final(sessions)@),
        old(reader).goes_on(final(reader)),
        forall|log: Log<B::Handle, B::ThreadHandle>| #[trigger]
            extends(final(reader).log(), log) ==> ({
                let (k, outcome) = export_index(
                    log,
                    old(reader).log().len() as int,
                    Image { base, size: image_size, name: module@ },
                    tables.tables(),
                    lookup@,
                );
                k == final(reader).log().len() && counts_as(index, outcome)
            }),
{
    proof {
        assert(reader.log().take(reader.log().len() as int) =~= reader.log());
    }
    match lookup {
        ExportLookup::Ordinal(ordinal) => {
            let ordinal: usize = *ordinal as usize;
            if ordinal < tables.ordinal_base {
                return Err(
                    malformed_export(module, "export ordinal is below the module ordinal base"),
                );
            }
            Ok(ordinal - tables.ordinal_base)
        },
        ExportLookup::Name(name) => {
            checked_rva(image_size, tables.names_rva, tables.names * 4, module, "name table")?;
            checked_rva(
                image_size,
                tables.ordinals_rva,
                tables.names * 2,
                module,
                "ordinal table",
            )?;
            find_index(reader, sessions, base, image_size, module, tables, name)
        },
    }
}

/// Where a forwarder leads: a module and what to look up there.
pub open spec fn forwarded(text: Seq<char>, module: Seq<char>) -> Result<
    (Seq<char>, Lookup),
    Failure,
> {
    let dot = last_of(text, '.', '.');
    let symbol = text.skip(dot + 1);
    if dot < 0 {
        Err(malformed(module, "export forwarder does not contain a module and symbol"@))
    } else if symbol.len() > 0 && symbol[0] == '#' {
        match numeral(symbol.skip(1), 10) {
            Some(ordinal) if ordinal <= u32::MAX => Ok(
                (text.take(dot), Lookup::Ordinal { ordinal: ordinal as u32 }),
            ),
            _ => Err(malformed(module, "forwarded export ordinal is invalid"@)),
        }
    } else {
        Ok((text.take(dot), Lookup::Named { name: symbol }))
    }
}

fn split_forwarder(text: &str, module: &str) -> (target: Result<
    (String, ExportLookup),
    FeatureHookApiError,
>)
    ensures
        match (target, forwarded(text@, module@)) {
            (Ok((name, lookup)), Ok((expected, wanted))) => name@ == expected && lookup@ == wanted,
            (Err(error), Err(fault)) => error@ == fault,
            _ => false,
        },
{
    let chars = chars_of(text);
    let after: usize = find_last(&chars, '.', '.');
    if after == 0 {
        return Err(
            malformed_export(module, "export forwarder does not contain a module and symbol"),
        );
    }
    let head = vstd::slice::slice_subrange(chars.as_slice(), 0, after - 1);
    let tail = vstd::slice::slice_subrange(chars.as_slice(), after, chars.len());
    proof {
        assert(head@ =~= text@.take(after - 1));
        assert(tail@ =~= text@.skip(after as int));
    }
    let name = string_of(head);
    if tail.len() > 0 && tail[0] == '#' {
        let digits = vstd::slice::slice_subrange(tail, 1, tail.len());
        proof {
            assert(digits@ =~= tail@.skip(1));
        }
        let digits = string_of(digits);
        return match parse_numeral(digits.as_str(), 10, u32::MAX as u64) {
            Some(ordinal) => Ok((name, ExportLookup::Ordinal(ordinal as u32))),
            None => Err(malformed_export(module, "forwarded export ordinal is invalid")),
        };
    }
    Ok((name, ExportLookup::Name(string_of(tail))))
}

/// Where an export leads: to an address, or on to another module.
pub ghost enum Found {
    Address { address: usize },
    Forwarder { text: Seq<char> },
}

/// What the function table has for an export.
pub open spec fn export_found<H, T>(
    log: Log<H, T>,
    k: int,
    image: Image,
    directory: Directory,
    tables: Tables,
    index: nat,
) -> (int, Result<Found, Failure>) {
    let end = directory.rva + directory.size;
    if index >= tables.functions {
        (k, Err(malformed(image.name, "export ordinal indexes past the function table"@)))
    } else {
        match image_number(log, k, image, tables.functions_rva + index * 4, 4) {
            (k, Err(fault)) => (k, Err(fault)),
            (k, Ok(rva)) => if rva == 0 {
                (k, Err(malformed(image.name, "export function RVA is null"@)))
            } else if directory.rva <= rva < end {
                match image_text(
                    log,
                    k,
                    image,
                    rva as int,
                    end - rva,
                    ImageText::Forwarder,
                ) {
                    (k, Err(fault)) => (k, Err(fault)),
                    (k, Ok(text)) => (k, Ok(Found::Forwarder { text })),
                }
            } else {
                match range_refusal(
                    image.size as int,
                    rva as int,
                    1,
                    image.name,
                    "export function"@,
                ) {
                    Some(fault) => (k, Err(fault)),
                    None => if image.base + rva > usize::MAX {
                        (
                            k,
                            Err(
                                failure(
                                    RpcErrorCode::MemoryInvalidAddress,
                                    "remote export address overflowed the agent address width"@,
                                ),
                            ),
                        )
                    } else {
                        (k, Ok(Found::Address { address: (image.base + rva) as usize }))
                    },
                }
            },
        }
    }
}

/// What an image has for an export.
pub open spec fn image_export<H, T>(log: Log<H, T>, k: int, image: Image, lookup: Lookup) -> (
    int,
    Result<Found, Failure>,
) {
    match directory_at(log, k, image) {
        (k, Err(fault)) => (k, Err(fault)),
        (k, Ok(directory)) => match image_bytes(log, k, image, directory.rva, 40) {
            (k, Err(fault)) => (k, Err(fault)),
            (k, Ok(bytes)) => match tables_of(bytes, image) {
                Err(fault) => (k, Err(fault)),
                Ok(tables) => match export_index(log, k, image, tables, lookup) {
                    (k, Err(fault)) => (k, Err(fault)),
                    (k, Ok(index)) => export_found(log, k, image, directory, tables, index),
                },
            },
        },
    }
}

/// The address of an export, with forwarders followed.
pub open spec fn export_address<H, T>(
    log: Log<H, T>,
    k: int,
    modules: Seq<ModuleDescriptor>,
    module: Seq<char>,
    lookup: Lookup,
    depth: int,
) -> (int, Result<usize, Failure>)
    decreases MAX_EXPORT_FORWARD_DEPTH + 1 - depth,
{
    if depth > MAX_EXPORT_FORWARD_DEPTH {
        (
            k,
            Err(
                failure(
                    RpcErrorCode::MemoryLimitExceeded,
                    "remote export forwarder chain exceeded the supported depth"@,
                ),
            ),
        )
    } else {
        match module_named(modules, module, 0) {
            None => (
                k,
                Err(
                    failure(
                        RpcErrorCode::MemoryRequiredMatchNotFound,
                        "target process has no loaded module named "@ + module,
                    ),
                ),
            ),
            Some(i) => match feature_address(modules[i].base_address@) {
                Err(fault) => (k, Err(fault)),
                Ok(base) => {
                    let image = Image {
                        base,
                        size: modules[i].size as usize,
                        name: modules[i].name@,
                    };
                    match image_export(log, k, image, lookup) {
                        (k, Err(fault)) => (k, Err(fault)),
                        (k, Ok(Found::Address { address })) => (k, Ok(address)),
                        (k, Ok(Found::Forwarder { text })) => match forwarded(text, image.name) {
                            Err(fault) => (k, Err(fault)),
                            Ok((next, wanted)) => export_address(
                                log,
                                k,
                                modules,
                                next,
                                wanted,
                                depth + 1,
                            ),
                        },
                    }
                },
            },
        }
    }
}

enum FoundExport {
    Address(usize),
    Forwarder(String),
}

spec fn finds(found: Result<FoundExport, FeatureHookApiError>, outcome: Result<Found, Failure>) -> bool {
    match (found, outcome) {
        (Ok(FoundExport::Address(a)), Ok(Found::Address { address })) => a == address,
        (Ok(FoundExport::Forwarder(t)), Ok(Found::Forwarder { text })) => t@ == text,
        (Err(error), Err(fault)) => error@ == fault,
        _ => false,
    }
}

fn read_export<B: MutationBackend>(
    reader: &mut Probe<'_, B>,
    sessions: &mut ProcessSessionRegistry<B::Handle>,
    base: usize,
    image_size: usize,
    module: &str,
    directory: (usize, usize),
    tables: &TableSet,
    index: usize,
) -> (found: Result<FoundExport, FeatureHookApiError>)
    requires
        old(sessions).wf(),
        old(reader).sound(old(sessions)@),
        directory.0 + directory.1 <= image_size,
        tables.functions_rva + tables.functions * 4 <= image_size,
    ensures
        final(sessions).wf(),
        final(reader).sound(final(sessions)@),
        old(reader).goes_on(final(reader)),
        forall|log: Log<B::Handle, B::ThreadHandle>| #[trigger]
            extends(final(reader).log(), log) ==> ({
                let (k, outcome) = export_found(
                    log,
                    old(reader).log().len() as int,
                    Image { base, size: image_size, name: module@ },
                    Directory { rva: directory.0 as int, size: directory.1 as int },
                    tables.tables(),
                    index as nat,
                );
                k == final(reader).log().len() && finds(found, outcome)
            }),
{
    let ghost a = reader.log();
    proof {
        assert(a.take(a.len() as int) =~= a);
    }
    if index >= tables.functions {
        return Err(
            malformed_export(module, "export ordinal indexes past the function table"),
        );
    }
    let rva: usize = read_image_number(
        reader,
        sessions,
        base,
        image_size,
        tables.functions_rva + index * 4,
        4,
        module,
    )?;
    if rva == 0 {
        return Err(malformed_export(module, "export function RVA is null"));
    }
    let end: usize = directory.0 + directory.1;
    if rva >= directory.0 && rva < end {
        let ghost b = reader.log();
        let text = read_image_text(
            reader,
            sessions,
            base,
            image_size,
            rva,
            end - rva,
            module,
            ImageText::Forwarder,
        );
        proof {
            lemma_extends(a, b, reader.log());
            lemma_prefixes(b, reader.log());
        }
        return match text {
            Ok(text) => Ok(FoundExport::Forwarder(text)),
            Err(error) => Err(error),
        };
    }
    checked_rva(image_size, rva, 1, module, "export function")?;
    match base.checked_add(rva) {
        Some(address) => Ok(FoundExport::Address(address)),
        None => Err(
            FeatureHookApiError::request(
                RpcErrorCode::MemoryInvalidAddress,
                "remote export address overflowed the agent address width".to_owned(),
            ),
        ),
    }
}

fn search_image<B: MutationBackend>(
    reader: &mut Probe<'_, B>,
    sessions: &mut ProcessSessionRegistry<B::Handle>,
    base: usize,
    image_size: usize,
    module: &str,
    lookup: &ExportLookup,
) -> (found: Result<FoundExport, FeatureHookApiError>)
    requires
        old(sessions).wf(),
        old(reader).sound(old(sessions)@),
    ensures
        final(sessions).wf(),
        final(reader).sound(final(sessions)@),
        old(reader).goes_on(final(reader)),
        forall|log: Log<B::Handle, B::ThreadHandle>| #[trigger]
            extends(final(reader).log(), log) ==> ({
                let (k, outcome) = image_export(
                    log,
                    old(reader).log().len() as int,
                    Image { base, size: image_size, name: module@ },
                    lookup@,
                );
                k == final(reader).log().len() && finds(found, outcome)
            }),
{
    let ghost a = reader.log();
    let directory = find_directory(reader, sessions, base, image_size, module)?;
    let ghost b = reader.log();
    let answer = read_image(reader, sessions, base, image_size, directory.0, 40, module);
    let ghost c = reader.log();
    proof {
        lemma_extends(a, b, c);
        lemma_prefixes(b, c);
    }
    let bytes = answer?;
    let tables = check_tables(&bytes, base, image_size, module)?;
    let answer = find_export(reader, sessions, base, image_size, module, &tables, lookup);
    let ghost d = reader.log();
    proof {
        lemma_extends(a, c, d);
        lemma_prefixes(c, d);
    }
    let index: usize = answer?;
    let answer = read_export(
        reader,
        sessions,
        base,
        image_size,
        module,
        directory,
        &tables,
        index,
    );
    proof {
        lemma_extends(a, d, reader.log());
        lemma_prefixes(d, reader.log());
    }
    answer
}

pub(crate) fn follow_export<B: MutationBackend>(
    reader: &mut Probe<'_, B>,
    sessions: &mut ProcessSessionRegistry<B::Handle>,
    modules: &Vec<ModuleDescriptor>,
    module_name: &str,
    lookup: ExportLookup,
    depth: usize,
) -> (address: Result<usize, FeatureHookApiError>)
    requires
        old(sessions).wf(),
        old(reader).sound(old(sessions)@),
    ensures
        final(sessions).wf(),
        final(reader).sound(final(sessions)@),
        old(reader).goes_on(final(reader)),
        forall|log: Log<B::Handle, B::ThreadHandle>| #[trigger]
            extends(final(reader).log(), log) ==> ({
                let (k, outcome) = export_address(
                    log,
                    old(reader).log().len() as int,
                    modules@,
                    module_name@,
                    lookup@,
                    depth as int,
                );
                k == final(reader).log().len() && gives(address, outcome)
            }),
    decreases (if depth <= MAX_EXPORT_FORWARD_DEPTH {
        MAX_EXPORT_FORWARD_DEPTH + 1 - depth
    } else {
        0
    }),
{
    let ghost a = reader.log();
    proof {
        assert(a.take(a.len() as int) =~= a);
    }
    if depth > MAX_EXPORT_FORWARD_DEPTH {
        return Err(
            FeatureHookApiError::request(
                RpcErrorCode::MemoryLimitExceeded,
                "remote export forwarder chain exceeded the supported depth".to_owned(),
            ),
        );
    }
    let i: usize = match find_module(modules, module_name) {
        Some(i) => i,
        None => {
            return Err(
                FeatureHookApiError::request(
                    RpcErrorCode::MemoryRequiredMatchNotFound,
                    join2("target process has no loaded module named ", module_name),
                ),
            );
        },
    };
    let module = &modules[i];
    let base: usize = parse_address(module.base_address.as_str())?;
    let image_size: usize = module.size as usize;
    let answer = search_image(
        reader,
        sessions,
        base,
        image_size,
        module.name.as_str(),
        &lookup,
    );
    let ghost b = reader.log();
    let found = answer?;
    match found {
        FoundExport::Address(address) => Ok(address),
        FoundExport::Forwarder(text) => {
            let (next, wanted) = split_forwarder(text.as_str(), module.name.as_str())?;
            let answer = follow_export(
                reader,
                sessions,
                modules,
                next.as_str(),
                wanted,
                depth + 1,
            );
            proof {
                lemma_extends(a, b, reader.log());
                lemma_prefixes(b, reader.log());
            }
            answer
        },
    }
}

/// What resolving an export does: reads of the target's images alone, and the
/// address that they give.
pub open spec fn resolves<B: MutationBackend>(
    backend: &B,
    id: Seq<char>,
    modules: Seq<ModuleDescriptor>,
    module: Seq<char>,
    lookup: Lookup,
    depth: int,
    before: Sessions<B::Handle>,
    start: World<B::Handle, B::ThreadHandle>,
    log: Log<B::Handle, B::ThreadHandle>,
    after: Sessions<B::Handle>,
    outcome: Result<usize, Failure>,
) -> bool {
    &&& start.sessions == before
    &&& steps_made(backend, id, start, log)
    &&& world_at(start, log, log.len() as int) == (World { sessions: after, owned: start.owned })
    &&& export_address(log, 0, modules, module, lookup, depth) == (log.len() as int, outcome)
}

/// Resolves an export in the modules of another process.
pub fn resolve_export_from_modules<B: MutationBackend>(
    sessions: &mut ProcessSessionRegistry<B::Handle>,
    backend: &B,
    session_id: &ProcessSessionId,
    modules: &Vec<ModuleDescriptor>,
    module_name: &str,
    lookup: ExportLookup,
    depth: usize,
) -> (address: Result<usize, FeatureHookApiError>)
    requires
        old(sessions).wf(),
    ensures
        final(sessions).wf(),
        old(sessions)@.leads_to(final(sessions)@),
        exists|
            start: World<B::Handle, B::ThreadHandle>,
            log: Log<B::Handle, B::ThreadHandle>,
            outcome: Result<usize, Failure>,
        |
            {
                &&& #[trigger] resolves(
                    backend,
                    session_id.0@,
                    modules@,
                    module_name@,
                    lookup@,
                    depth as int,
                    old(sessions)@,
                    start,
                    log,
                    final(sessions)@,
                    outcome,
                )
                &&& gives(address, outcome)
            },
{
    let ghost wanted = lookup@;
    let mut reader = Probe::new(sessions, backend, session_id);
    let answer = follow_export(&mut reader, sessions, modules, module_name, lookup, depth);
    proof {
        let log = reader.log();
        assert(log.take(log.len() as int) =~= log);
        assert(extends(log, log));
        let outcome = export_address(log, 0, modules@, module_name@, wanted, depth as int).1;
        lemma_resolves(
            backend,
            session_id.0@,
            modules@,
            module_name@,
            wanted,
            depth as int,
            old(sessions)@,
            reader.start(),
            log,
            sessions@,
            outcome,
            answer,
        );
    }
    answer
}

proof fn lemma_resolves<B: MutationBackend>(
    backend: &B,
    id: Seq<char>,
    modules: Seq<ModuleDescriptor>,
    module: Seq<char>,
    lookup: Lookup,
    depth: int,
    before: Sessions<B::Handle>,
    start: World<B::Handle, B::ThreadHandle>,
    log: Log<B::Handle, B::ThreadHandle>,
    after: Sessions<B::Handle>,
    outcome: Result<usize, Failure>,
    address: Result<usize, FeatureHookApiError>,
)
    requires
        resolves(
            backend,
            id,
            modules,
            module,
            lookup,
            depth,
            before,
            start,
            log,
            after,
            outcome,
        ),
        gives(address, outcome),
    ensures
        exists|
            start: World<B::Handle, B::ThreadHandle>,
            log: Log<B::Handle, B::ThreadHandle>,
            outcome: Result<usize, Failure>,
        |
            {
                &&& #[trigger] resolves(
                    backend,
                    id,
                    modules,
                    module,
                    lookup,
                    depth,
                    before,
                    start,
                    log,
                    after,
                    outcome,
                )
                &&& gives(address, outcome)
            },
{
}

/// An address that is resolved lies inside one of the modules.
pub proof fn resolved_exports_lie_in_a_module<H, T>(
    log: Log<H, T>,
    k: int,
    modules: Seq<ModuleDescriptor>,
    module: Seq<char>,
    lookup: Lookup,
    depth: int,
)
    requires
        export_address(log, k, modules, module, lookup, depth).1 is Ok,
    ensures
        exists|i: int|
            0 <= i < modules.len() && (#[trigger] feature_address(modules[i].base_address@) matches Ok(
                base,
            ) && base <= export_address(log, k, modules, module, lookup, depth).1->Ok_0 < base
                + modules[i].size),
    decreases MAX_EXPORT_FORWARD_DEPTH + 1 - depth,
{
    let i = module_named(modules, module, 0)->Some_0;
    lemma_module_named(modules, module, 0);
    let base = feature_address(modules[i].base_address@)->Ok_0;
    let image = Image { base, size: modules[i].size as usize, name: modules[i].name@ };
    let (next, found) = image_export(log, k, image, lookup);
    if let Ok(Found::Forwarder { text }) = found {
        let (name, wanted) = forwarded(text, image.name)->Ok_0;
        resolved_exports_lie_in_a_module(log, next, modules, name, wanted, depth + 1);
    }
}

proof fn lemma_module_named(modules: Seq<ModuleDescriptor>, wanted: Seq<char>, from: int)
    requires
        0 <= from,
        module_named(modules, wanted, from) is Some,
    ensures
        from <= module_named(modules, wanted, from)->Some_0 < modules.len(),
    decreases modules.len() - from,
{
    if from < modules.len() && normalized(modules[from].name@) != normalized(wanted) {
        lemma_module_named(modules, wanted, from + 1);
    }
}

/// A chain of forwarders longer than the limit is refused, wherever it leads.
pub proof fn long_forwarder_chains_are_refused<H, T>(
    log: Log<H, T>,
    k: int,
    modules: Seq<ModuleDescriptor>,
    module: Seq<char>,
    lookup: Lookup,
    depth: int,
)
    requires
        depth > MAX_EXPORT_FORWARD_DEPTH,
    ensures
        export_address(log, k, modules, module, lookup, depth) == (
            k,
            Err::<usize, Failure>(
                failure(
                    RpcErrorCode::MemoryLimitExceeded,
                    "remote export forwarder chain exceeded the supported depth"@,
                ),
            ),
        ),
{
}

/// A read that was made and answered.
pub open spec fn was_read<H, T>(log: Log<H, T>, k: int, at: int, bytes: Seq<u8>) -> bool {
    &&& 0 <= at <= usize::MAX
    &&& bytes.len() <= usize::MAX
    &&& log[k].op == (Op::Read { address: address_text(at as nat), size: bytes.len() as usize })
    &&& log[k].reply == (Reply::Bytes { bytes })
}

/// The headers of an image: the marks, a header of twenty bytes behind the second mark, and
/// an optional header, which ends with the data directories. The first of these is the
/// export directory.
pub open spec fn are_headers(dos: Seq<u8>, nt: Seq<u8>, size: int, rva: int, length: int) -> bool {
    let optional = 4int + 20;
    let directories = optional + if number(nt, optional, 2) == 0x10b {
        96int
    } else {
        112int
    };
    &&& dos.len() == 0x40
    &&& dos[0] == 0x4d
    &&& dos[1] == 0x5a
    &&& number(dos, 0x3c, 4) + 0x90int <= size
    &&& nt.len() == 0x90
    &&& nt[0] == 0x50
    &&& nt[1] == 0x45
    &&& nt[2] == 0
    &&& nt[3] == 0
    &&& number(nt, optional, 2) == 0x10b || number(nt, optional, 2) == 0x20b
    &&& optional + number(nt, 4int + 16, 2) >= directories + 8
    &&& number(nt, directories - 4, 4) > 0
    &&& 0 < number(nt, optional + 56, 4) <= size
    &&& rva == number(nt, directories, 4)
    &&& length == number(nt, directories + 4, 4)
    &&& rva > 0
    &&& length >= 40
    &&& rva + length <= size
}

/// An image with sound headers and a sound function table gives for an ordinal what the
/// table has at the ordinal less the first one: an address behind the base of the image,
/// where the table does not lead back into the export directory.
pub proof fn ordinals_lead_to_their_functions<H, T>(
    log: Log<H, T>,
    k: int,
    image: Image,
    ordinal: u32,
    dos: Seq<u8>,
    nt: Seq<u8>,
    directory: Seq<u8>,
    entry: Seq<u8>,
    rva: int,
    length: int,
)
    requires
        are_headers(dos, nt, image.size as int, rva, length),
        image.base + image.size <= usize::MAX,
        directory.len() == 40,
        entry.len() == 4,
        0 < number(directory, 20, 4) <= 1_000_000,
        number(directory, 24, 4) <= 1_000_000,
        number(directory, 28, 4) + 4 * number(directory, 20, 4) <= image.size,
        0 <= ordinal - number(directory, 16, 4) < number(directory, 20, 4),
        was_read(log, k, image.base as int, dos),
        was_read(log, k + 1, image.base + number(dos, 0x3c, 4), nt),
        was_read(log, k + 2, image.base + rva, directory),
        was_read(
            log,
            k + 3,
            image.base + number(directory, 28, 4) + 4 * (ordinal - number(directory, 16, 4)),
            entry,
        ),
        0 < number(entry, 0, 4) < image.size,
        number(entry, 0, 4) < rva || number(entry, 0, 4) >= rva + length,
    ensures
        image_export(log, k, image, Lookup::Ordinal { ordinal }) == (
            k + 4,
            Ok::<Found, Failure>(
                Found::Address { address: (image.base + number(entry, 0, 4)) as usize },
            ),
        ),
{
    assert(dos.take(2) =~= seq![0x4du8, 0x5a]);
    assert(nt.take(4) =~= seq![0x50u8, 0x45, 0, 0]);
    assert(directory_at(log, k, image) == (
        k + 2,
        Ok::<Directory, Failure>(Directory { rva, size: length }),
    ));
    assert(entry.subrange(0, 4) =~= entry);
    let index = (ordinal - number(directory, 16, 4)) as nat;
    let tables = tables_of(directory, image)->Ok_0;
    assert(image_number(log, k + 3, image, tables.functions_rva + index * 4, 4) == (
        k + 4,
        Ok::<nat, Failure>(number(entry, 0, 4)),
    ));
}

proof fn lemma_zero_at(bytes: Seq<u8>, from: int, end: int)
    requires
        0 <= from <= end < bytes.len(),
        bytes[end] == 0,
        forall|i: int| from <= i < end ==> #[trigger] bytes[i] != 0,
    ensures
        zero_at(bytes, from) == Some(end),
    decreases end - from,
{
    if from < end {
        lemma_zero_at(bytes, from + 1, end);
    }
}

/// A text that ends at its first zero.
pub open spec fn ends_with_zero(bytes: Seq<u8>, text: Seq<u8>) -> bool {
    &&& text.len() < bytes.len()
    &&& bytes.take(text.len() as int) == text
    &&& bytes[text.len() as int] == 0
    &&& forall|i: int| 0 <= i < text.len() ==> #[trigger] text[i] != 0
}

proof fn lemma_marked_text(bytes: Seq<u8>, text: Seq<u8>, module: Seq<char>, kind: ImageText)
    requires
        ends_with_zero(bytes, text),
        valid_utf8(text),
    ensures
        marked_text(bytes, module, kind) == Ok::<Seq<char>, Failure>(decode_utf8(text)),
{
    assert forall|i: int| 0 <= i < text.len() implies #[trigger] bytes[i] != 0 by {
        assert(text[i] == bytes.take(text.len() as int)[i]);
    }
    lemma_zero_at(bytes, 0, text.len() as int);
}

/// An entry of the name table that spells the name gives what the ordinal table has at the
/// same place, and any other is passed over.
pub proof fn names_lead_to_their_ordinals<H, T>(
    log: Log<H, T>,
    k: int,
    image: Image,
    tables: Tables,
    name: Seq<char>,
    from: int,
    pointer: Seq<u8>,
    bytes: Seq<u8>,
    text: Seq<u8>,
    entry: Seq<u8>,
)
    requires
        image.base + image.size <= usize::MAX,
        0 <= from < tables.names,
        0 <= tables.names_rva,
        0 <= tables.ordinals_rva,
        tables.names_rva + 4 * tables.names <= image.size,
        tables.ordinals_rva + 2 * tables.names <= image.size,
        pointer.len() == 4,
        entry.len() == 2,
        number(pointer, 0, 4) < image.size,
        bytes.len() == least(image.size - number(pointer, 0, 4), 4096),
        ends_with_zero(bytes, text),
        valid_utf8(text),
        was_read(log, k, image.base + tables.names_rva + 4 * from, pointer),
        was_read(log, k + 1, image.base + number(pointer, 0, 4), bytes),
    ensures
        decode_utf8(text) == name && was_read(
            log,
            k + 2,
            image.base + tables.ordinals_rva + 2 * from,
            entry,
        ) ==> named_index(log, k, image, tables, name, from) == (
            k + 3,
            Ok::<nat, Failure>(number(entry, 0, 2)),
        ),
        decode_utf8(text) != name ==> named_index(log, k, image, tables, name, from)
            == named_index(log, k + 2, image, tables, name, from + 1),
{
    lemma_marked_text(bytes, text, image.name, ImageText::Name);
    assert(pointer.subrange(0, 4) =~= pointer);
    assert(entry.subrange(0, 2) =~= entry);
    let at = number(pointer, 0, 4) as int;
    assert(image_number(log, k, image, tables.names_rva + from * 4, 4) == (
        k + 1,
        Ok::<nat, Failure>(at as nat),
    ));
    assert(least(least(image.size - at, usize::MAX as int), MAX_EXPORT_NAME_BYTES as int)
        == bytes.len());
    assert(image_text(log, k + 1, image, at, usize::MAX as int, ImageText::Name) == (
        k + 2,
        Ok::<Seq<char>, Failure>(decode_utf8(text)),
    ));
}

/// An entry of the function table that leads into the export directory is no address: the
/// text there says where the export is.
pub proof fn forwarders_are_texts_in_the_directory<H, T>(
    log: Log<H, T>,
    k: int,
    image: Image,
    directory: Directory,
    tables: Tables,
    index: nat,
    entry: Seq<u8>,
    bytes: Seq<u8>,
    text: Seq<u8>,
)
    requires
        image.base + image.size <= usize::MAX,
        0 <= directory.rva,
        directory.rva + directory.size <= image.size,
        index < tables.functions,
        0 <= tables.functions_rva,
        tables.functions_rva + 4 * tables.functions <= image.size,
        entry.len() == 4,
        0 < number(entry, 0, 4),
        directory.rva <= number(entry, 0, 4) < directory.rva + directory.size,
        bytes.len() == least(directory.rva + directory.size - number(entry, 0, 4), 4096),
        ends_with_zero(bytes, text),
        valid_utf8(text),
        was_read(log, k, image.base + tables.functions_rva + 4 * index, entry),
        was_read(log, k + 1, image.base + number(entry, 0, 4), bytes),
    ensures
        export_found(log, k, image, directory, tables, index) == (
            k + 2,
            Ok::<Found, Failure>(Found::Forwarder { text: decode_utf8(text) }),
        ),
{
    lemma_marked_text(bytes, text, image.name, ImageText::Forwarder);
    assert(entry.subrange(0, 4) =~= entry);
    assert(image_number(log, k, image, tables.functions_rva + index * 4, 4) == (
        k + 1,
        Ok::<nat, Failure>(number(entry, 0, 4)),
    ));
}

proof fn lemma_last_of(head: Seq<char>, mark: char, tail: Seq<char>, a: char, b: char)
    requires
        mark == a || mark == b,
        !tail.contains(a),
        !tail.contains(b),
    ensures
        last_of(head + seq![mark] + tail, a, b) == head.len(),
    decreases tail.len(),
{
    let whole = head + seq![mark] + tail;
    if tail.len() > 0 {
        let less = tail.drop_last();
        assert(tail.contains(tail.last()));
        assert forall|c: char| less.contains(c) implies tail.contains(c) by {
            let i = choose|i: int| 0 <= i < less.len() && less[i] == c;
            assert(tail[i] == c);
        }
        lemma_last_of(head, mark, less, a, b);
        assert(whole.drop_last() =~= head + seq![mark] + less);
    }
}

proof fn lemma_forwarder(module: Seq<char>, symbol: Seq<char>)
    requires
        !symbol.contains('.'),
    ensures
        ({
            let text = module + seq!['.'] + symbol;
            &&& last_of(text, '.', '.') == module.len()
            &&& text.skip(module.len() as int + 1) == symbol
            &&& text.take(module.len() as int) == module
        }),
{
    let text = module + seq!['.'] + symbol;
    lemma_last_of(module, '.', symbol, '.', '.');
    assert(text.skip(module.len() as int + 1) =~= symbol);
    assert(text.take(module.len() as int) =~= module);
}

/// A forwarder is a module and a name with a dot between them.
pub proof fn forwarders_name_a_module_and_a_symbol(
    module: Seq<char>,
    symbol: Seq<char>,
    within: Seq<char>,
)
    requires
        !symbol.contains('.'),
        symbol.len() == 0 || symbol[0] != '#',
    ensures
        forwarded(module + seq!['.'] + symbol, within) == Ok::<(Seq<char>, Lookup), Failure>(
            (module, Lookup::Named { name: symbol }),
        ),
{
    lemma_forwarder(module, symbol);
}

/// A number sign behind the dot makes what follows it an ordinal.
pub proof fn forwarders_may_name_an_ordinal(
    module: Seq<char>,
    digits: Seq<char>,
    ordinal: u32,
    within: Seq<char>,
)
    requires
        !digits.contains('.'),
        numeral(digits, 10) == Some(ordinal as nat),
    ensures
        forwarded(module + seq!['.', '#'] + digits, within) == Ok::<(Seq<char>, Lookup), Failure>(
            (module, Lookup::Ordinal { ordinal }),
        ),
{
    let symbol = seq!['#'] + digits;
    assert(!symbol.contains('.')) by {
        if symbol.contains('.') {
            let i = choose|i: int| 0 <= i < symbol.len() && symbol[i] == '.';
            assert(digits[i - 1] == '.');
        }
    }
    lemma_forwarder(module, symbol);
    assert(module + seq!['.', '#'] + digits =~= module + seq!['.'] + symbol);
    assert(symbol.skip(1) =~= digits);
}

/// A module is known by its name alone, wherever its file is.
pub proof fn modules_are_known_without_their_directory(directory: Seq<char>, name: Seq<char>)
    requires
        !name.contains('\\'),
        !name.contains('/'),
    ensures
        normalized(directory + seq!['\\'] + name) == normalized(name),
        normalized(directory + seq!['/'] + name) == normalized(name),
        normalized(name) == lowered(name) || normalized(name) == lowered(name) + ".dll"@,
{
    lemma_last_of(directory, '\\', name, '\\', '/');
    lemma_last_of(directory, '/', name, '\\', '/');
    lemma_none_of(name, '\\', '/');
    assert((directory + seq!['\\'] + name).skip(directory.len() as int + 1) =~= name);
    assert((directory + seq!['/'] + name).skip(directory.len() as int + 1) =~= name);
    assert(name.skip(0) =~= name);
}

proof fn lemma_none_of(text: Seq<char>, a: char, b: char)
    requires
        !text.contains(a),
        !text.contains(b),
    ensures
        last_of(text, a, b) == -1,
    decreases text.len(),
{
    if text.len() > 0 {
        let less = text.drop_last();
        assert(text.contains(text.last()));
        assert forall|c: char| less.contains(c) implies text.contains(c) by {
            let i = choose|i: int| 0 <= i < less.len() && less[i] == c;
            assert(text[i] == c);
        }
        lemma_none_of(less, a, b);
    }
}

}
