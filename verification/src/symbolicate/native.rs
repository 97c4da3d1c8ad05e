//! Reading what native resolution needs from an image's object file: the
//! slice for the native architecture, the text segment's address, and the
//! symbol table; then resolving each address from what DWARF or the symbol
//! table says of it.

use std::borrow::Cow;
use std::rc::Rc;

use addr2line::Context;
use gimli::{Dwarf, EndianRcSlice, Error, RunTimeEndian};
use object::read::macho::{FatArch, MachOFatFile32, MachOFatFile64};
use object::{Architecture, FileKind, Object, ObjectSection, ObjectSegment, ObjectSymbol};
use vstd::prelude::*;

use crate::symbolicate::{
    best_symbol_of, demangle, demangled, file_address, file_address_of, image_index_for_address, image_index_of,
    resolve_via_symbol_table, segment_views, symbol_views, text_segment_vmaddr, text_vmaddr_of, SymbolInfo,
};
use crate::sampler::LoadedImage;
use crate::sampler::chars_of;
use crate::sorting::{sort_by_rank, total_preorder};
use crate::text::collect_chars;
use crate::text::{hex16, hex_address};
use vstd::relations::sorted_by;

verus! {

// ---------------------------------------------------------------------------
// The object file, as the object crate reads it
// ---------------------------------------------------------------------------

/// The architectures a Mach-O slice can be for, as far as profiling cares.
#[derive(Debug, Clone, Copy, PartialEq, Eq, Structural)]
pub enum MachArch {
    Arm64,
    X86_64,
    Other,
}

/// The kinds of object file that choosing a slice tells apart.
#[derive(Debug, Clone, Copy, PartialEq, Eq)]
pub enum ObjectKind {
    MachOFat32,
    MachOFat64,
    Other,
}

/// What `object::FileKind::parse` recognizes `data` as, if anything.
pub uninterp spec fn object_kind_of(data: Seq<u8>) -> Option<ObjectKind>;

/// `object::FileKind::parse`: the kind of object file `data` starts with,
/// or `None` when the object crate recognizes none; a function of the bytes
/// alone, named `object_kind_of`.
#[verifier::external_body]
fn object_kind(data: &[u8]) -> (r: Option<ObjectKind>)
    ensures
        r == object_kind_of(data@),
{
    match FileKind::parse(data) {
        Ok(FileKind::MachOFat32) => Some(ObjectKind::MachOFat32),
        Ok(FileKind::MachOFat64) => Some(ObjectKind::MachOFat64),
        Ok(_) => Some(ObjectKind::Other),
        Err(_) => None,
    }
}

/// The arches a 32-bit universal header lists: architecture, offset, size.
pub uninterp spec fn fat32_arches_of(data: Seq<u8>) -> Option<Seq<(MachArch, u64, u64)>>;

/// `MachOFatFile32::parse` and its `arches()`: for each arch, its
/// `architecture()` and `file_range()`, in header order; `None` when the
/// header does not parse. A function of the bytes alone, named
/// `fat32_arches_of`.
#[verifier::external_body]
fn fat32_arches(data: &[u8]) -> (r: Option<Vec<(MachArch, u64, u64)>>)
    ensures
        match r {
            Some(v) => fat32_arches_of(data@) == Some(v@),
            None => fat32_arches_of(data@) is None,
        },
{
    let fat = MachOFatFile32::parse(data).ok()?;
    let arch_of = |a: Architecture| match a {
        Architecture::Aarch64 => MachArch::Arm64,
        Architecture::X86_64 => MachArch::X86_64,
        _ => MachArch::Other,
    };
    Some(fat.arches().iter().map(|a| (arch_of(a.architecture()), a.file_range().0, a.file_range().1)).collect())
}

/// The arches a 64-bit universal header lists: architecture, offset, size.
pub uninterp spec fn fat64_arches_of(data: Seq<u8>) -> Option<Seq<(MachArch, u64, u64)>>;

/// `MachOFatFile64::parse` and its `arches()`, as `fat32_arches` reads the
/// 32-bit header; named `fat64_arches_of`.
#[verifier::external_body]
fn fat64_arches(data: &[u8]) -> (r: Option<Vec<(MachArch, u64, u64)>>)
    ensures
        match r {
            Some(v) => fat64_arches_of(data@) == Some(v@),
            None => fat64_arches_of(data@) is None,
        },
{
    let fat = MachOFatFile64::parse(data).ok()?;
    let arch_of = |a: Architecture| match a {
        Architecture::Aarch64 => MachArch::Arm64,
        Architecture::X86_64 => MachArch::X86_64,
        _ => MachArch::Other,
    };
    Some(fat.arches().iter().map(|a| (arch_of(a.architecture()), a.file_range().0, a.file_range().1)).collect())
}

/// The segments of the object file in `data`: name (where readable) and
/// address, in the file's order.
pub uninterp spec fn object_segments_of(data: Seq<u8>) -> Option<Seq<(Option<Seq<char>>, u64)>>;

/// `object::File::parse` and its `segments()`: each segment's name (`None`
/// where it has none or it is not readable) and address; `None` when the
/// file does not parse. A function of the bytes alone, named
/// `object_segments_of`.
#[verifier::external_body]
fn object_segments(data: &[u8]) -> (r: Option<Vec<(Option<String>, u64)>>)
    ensures
        match r {
            Some(v) => object_segments_of(data@) == Some(segment_views(v@)),
            None => object_segments_of(data@) is None,
        },
{
    let obj = object::File::parse(data).ok()?;
    Some(obj.segments().map(|s| (s.name().ok().flatten().map(|n| n.to_string()), s.address())).collect())
}

/// The symbols of the object file in `data`: address and name, in the
/// file's order.
pub uninterp spec fn object_symbols_of(data: Seq<u8>) -> Option<Seq<(u64, Seq<char>)>>;

/// `object::File::parse` and its `symbols()`: each symbol's address and
/// name (empty where the name is not readable); `None` when the file does
/// not parse. A function of the bytes alone, named `object_symbols_of`.
#[verifier::external_body]
fn object_symbols(data: &[u8]) -> (r: Option<Vec<(u64, String)>>)
    ensures
        match r {
            Some(v) => object_symbols_of(data@) == Some(symbol_views(v@)),
            None => object_symbols_of(data@) is None,
        },
{
    let obj = object::File::parse(data).ok()?;
    Some(obj.symbols().map(|s| (s.address(), s.name().unwrap_or("").to_string())).collect())
}

// ---------------------------------------------------------------------------
// The native slice of a universal binary
// ---------------------------------------------------------------------------

/// Why no object data could be taken from an image file.
#[derive(Debug, Clone, Copy, PartialEq, Eq)]
pub enum SliceError {
    /// The object crate does not recognize the file.
    UnknownFormat,
    /// The universal header does not parse.
    InvalidUniversalHeader,
    /// No slice of the universal binary is for the native architecture.
    NoNativeArchitecture,
    /// The native slice lies outside the file.
    SliceOutOfBounds,
}

/// The first arch for `native`: its offset and size.
pub open spec fn native_arch_of(arches: Seq<(MachArch, u64, u64)>, native: MachArch) -> Option<(u64, u64)>
    decreases arches.len(),
{
    if arches.len() == 0 {
        None
    } else if arches[0].0 == native {
        Some((arches[0].1, arches[0].2))
    } else {
        native_arch_of(arches.drop_first(), native)
    }
}

/// The bytes `offset .. offset + size` of a file of `len` bytes, as the
/// object crate reads them for a slice: an empty slice when `size` is 0,
/// nothing when the range leaves the file.
pub open spec fn slice_range_of(len: nat, offset: u64, size: u64) -> Option<(nat, nat)> {
    if size == 0 {
        Some((0, 0))
    } else if offset <= len && size <= len - offset {
        Some((offset as nat, size as nat))
    } else {
        None
    }
}

/// The slice for `native` of the arches of a universal header.
pub open spec fn universal_slice_of(
    len: nat,
    arches: Option<Seq<(MachArch, u64, u64)>>,
    native: MachArch,
) -> Result<(nat, nat), SliceError> {
    match arches {
        None => Err(SliceError::InvalidUniversalHeader),
        Some(a) => match native_arch_of(a, native) {
            None => Err(SliceError::NoNativeArchitecture),
            Some((offset, size)) => match slice_range_of(len, offset, size) {
                None => Err(SliceError::SliceOutOfBounds),
                Some(r) => Ok(r),
            },
        },
    }
}

/// Where the object data for `native` lies in an image file (start and
/// length): the native slice of a universal binary, else the whole file.
pub open spec fn macho_slice_of(data: Seq<u8>, native: MachArch) -> Result<(nat, nat), SliceError> {
    match object_kind_of(data) {
        None => Err(SliceError::UnknownFormat),
        Some(ObjectKind::MachOFat32) => universal_slice_of(data.len(), fat32_arches_of(data), native),
        Some(ObjectKind::MachOFat64) => universal_slice_of(data.len(), fat64_arches_of(data), native),
        Some(ObjectKind::Other) => Ok((0, data.len())),
    }
}

fn native_arch(arches: &Vec<(MachArch, u64, u64)>, native: MachArch) -> (r: Option<(u64, u64)>)
    ensures
        r == native_arch_of(arches@, native),
{
    let mut i: usize = 0;
    assert(arches@.skip(0) =~= arches@);
    while i < arches.len()
        invariant
            i <= arches@.len(),
            native_arch_of(arches@, native) == native_arch_of(arches@.skip(i as int), native),
        decreases arches@.len() - i,
    {
        proof {
            assert(arches@.skip(i as int).drop_first() =~= arches@.skip(i + 1));
        }
        if arches[i].0 == native {
            return Some((arches[i].1, arches[i].2));
        }
        i = i + 1;
    }
    None
}

fn universal_slice(len: usize, arches: Option<Vec<(MachArch, u64, u64)>>, native: MachArch) -> (r: Result<
    (usize, usize),
    SliceError,
>)
    ensures
        match universal_slice_of(len as nat, match arches {
            Some(v) => Some(v@),
            None => None,
        }, native) {
            Ok((start, n)) => r == Ok::<(usize, usize), SliceError>((start as usize, n as usize)),
            Err(e) => r == Err::<(usize, usize), SliceError>(e),
        },
{
    let arches = match arches {
        Some(a) => a,
        None => return Err(SliceError::InvalidUniversalHeader),
    };
    let (offset, size) = match native_arch(&arches, native) {
        Some(found) => found,
        None => return Err(SliceError::NoNativeArchitecture),
    };
    if size == 0 {
        return Ok((0, 0));
    }
    if offset <= len as u64 && size <= len as u64 - offset {
        Ok((offset as usize, size as usize))
    } else {
        Err(SliceError::SliceOutOfBounds)
    }
}

/// Where the object data for the `native` architecture lies in an image
/// file (start and length; see `macho_slice_of`).
pub fn native_macho_slice(data: &[u8], native: MachArch) -> (r: Result<(usize, usize), SliceError>)
    ensures
        match macho_slice_of(data@, native) {
            Ok((start, n)) => r == Ok::<(usize, usize), SliceError>((start as usize, n as usize)),
            Err(e) => r == Err::<(usize, usize), SliceError>(e),
        },
        r matches Ok((start, n)) ==> start + n <= data@.len(),
{
    match object_kind(data) {
        None => Err(SliceError::UnknownFormat),
        Some(ObjectKind::MachOFat32) => universal_slice(data.len(), fat32_arches(data), native),
        Some(ObjectKind::MachOFat64) => universal_slice(data.len(), fat64_arches(data), native),
        Some(ObjectKind::Other) => Ok((0, data.len())),
    }
}

// ---------------------------------------------------------------------------
// What an image's object data says
// ---------------------------------------------------------------------------

/// The preferred address of the text segment of the object file in
/// `object_data`, or `None` when the file does not parse.
pub fn image_text_vmaddr(object_data: &[u8]) -> (r: Option<u64>)
    ensures
        r == match object_segments_of(object_data@) {
            Some(segments) => Some(text_vmaddr_of(segments)),
            None => None::<u64>,
        },
{
    match object_segments(object_data) {
        Some(segments) => Some(text_segment_vmaddr(&segments)),
        None => None,
    }
}

/// Object data larger than this is not searched for DWARF (indexing it is
/// linear in its compilation units and stalls on large debug builds); its
/// symbol table is still used.
pub const MAX_DWARF_BYTES: usize = 52_428_800;

/// Whether the DWARF of object data of this length is searched.
pub fn dwarf_searched(object_len: usize) -> (r: bool)
    ensures
        r == (object_len <= MAX_DWARF_BYTES),
{
    object_len <= MAX_DWARF_BYTES
}

/// What a DWARF lookup found for an address: the innermost frame's raw
/// function name, if it has one, and its location (file and line, each if
/// known), if it has one.
#[derive(Debug, Clone, PartialEq, Eq)]
pub struct DwarfFrame {
    pub function: Option<String>,
    pub location: Option<(Option<String>, Option<u32>)>,
}

/// A DWARF frame as values.
pub struct DwarfFrameView {
    pub function: Option<Seq<char>>,
    pub location: Option<(Option<Seq<char>>, Option<u32>)>,
}

impl DwarfFrame {
    pub open spec fn view(&self) -> DwarfFrameView {
        DwarfFrameView {
            function: match self.function {
                Some(f) => Some(f@),
                None => None,
            },
            location: match self.location {
                Some((file, line)) => Some((
                    match file {
                        Some(f) => Some(f@),
                        None => None,
                    },
                    line,
                )),
                None => None,
            },
        }
    }
}

/// The resolution a DWARF frame gives `address`: the demangled function
/// name, else the address in hex; the file, else empty; the line, else 0.
pub open spec fn dwarf_symbol_of(frame: DwarfFrameView, address: u64) -> (Seq<char>, Seq<char>, u32) {
    (
        match frame.function {
            Some(name) => demangled(name),
            None => hex16(address),
        },
        match frame.location {
            Some((Some(file), _)) => file,
            _ => Seq::empty(),
        },
        match frame.location {
            Some((_, Some(line))) => line,
            _ => 0,
        },
    )
}

/// The resolution of `address` from what DWARF found for it.
pub fn symbol_from_dwarf(frame: &DwarfFrame, address: u64) -> (r: SymbolInfo)
    ensures
        r@ == dwarf_symbol_of(frame@, address),
{
    let function = match &frame.function {
        Some(name) => demangle(name.as_str()),
        None => hex_address(address),
    };
    let file = match &frame.location {
        Some((Some(f), _)) => f.clone(),
        _ => String::new(),
    };
    let line: u32 = match &frame.location {
        Some((_, Some(l))) => *l,
        _ => 0,
    };
    SymbolInfo { function, file, line }
}

/// The resolution of one address of an image: what DWARF found, else what
/// the symbol table says (`None` for either when it has nothing).
pub open spec fn image_symbol_of(
    symbols: Seq<(u64, Seq<char>)>,
    dwarf: Option<DwarfFrameView>,
    address: u64,
    file_addr: u64,
) -> Option<(Seq<char>, Seq<char>, u32)> {
    match dwarf {
        Some(frame) => Some(dwarf_symbol_of(frame, address)),
        None => match best_symbol_of(symbols, file_addr) {
            Some(name) => Some((demangled(name), Seq::empty(), 0u32)),
            None => None,
        },
    }
}

/// The resolutions of `addresses[..k]` of an image, in order, leaving out
/// the addresses nothing resolves.
pub open spec fn image_resolutions_of(
    symbols: Seq<(u64, Seq<char>)>,
    dwarf: Seq<Option<DwarfFrameView>>,
    addresses: Seq<u64>,
    load_address: u64,
    text_vmaddr: u64,
    k: nat,
) -> Seq<(u64, (Seq<char>, Seq<char>, u32))>
    decreases k,
{
    if k == 0 {
        Seq::empty()
    } else {
        let before = image_resolutions_of(symbols, dwarf, addresses, load_address, text_vmaddr, (k - 1) as nat);
        let a = addresses[k - 1];
        let found = if k - 1 < dwarf.len() {
            dwarf[k - 1]
        } else {
            None
        };
        match image_symbol_of(symbols, found, a, file_address_of(a, load_address, text_vmaddr)) {
            Some(info) => before.push((a, info)),
            None => before,
        }
    }
}

/// DWARF frames as values.
pub open spec fn dwarf_views(v: Seq<Option<DwarfFrame>>) -> Seq<Option<DwarfFrameView>> {
    v.map_values(|f: Option<DwarfFrame>| match f {
        Some(frame) => Some(frame@),
        None => None,
    })
}

/// Resolutions as values.
pub open spec fn resolution_views(v: Seq<(u64, SymbolInfo)>) -> Seq<(u64, (Seq<char>, Seq<char>, u32))> {
    v.map_values(|e: (u64, SymbolInfo)| (e.0, e.1@))
}

/// Resolves the `addresses` that fall in one image, whose object data is
/// `object_data`, loaded at `load_address` with its text segment preferred
/// at `text_vmaddr`; `dwarf[i]` is what a DWARF lookup of the file address
/// of `addresses[i]` found (nothing where it was not searched). When the
/// object data does not parse, nothing is resolved.
pub fn resolve_image_addresses(
    object_data: &[u8],
    load_address: u64,
    text_vmaddr: u64,
    addresses: &Vec<u64>,
    dwarf: &Vec<Option<DwarfFrame>>,
) -> (r: Vec<(u64, SymbolInfo)>)
    ensures
        match object_symbols_of(object_data@) {
            None => r@.len() == 0,
            Some(symbols) => resolution_views(r@) == image_resolutions_of(
                symbols,
                dwarf_views(dwarf@),
                addresses@,
                load_address,
                text_vmaddr,
                addresses@.len(),
            ),
        },
{
    let mut out: Vec<(u64, SymbolInfo)> = Vec::new();
    let symbols = match object_symbols(object_data) {
        Some(s) => s,
        None => return out,
    };
    let ghost sv = symbol_views(symbols@);
    let ghost dv = dwarf_views(dwarf@);
    let mut i: usize = 0;
    while i < addresses.len()
        invariant
            sv == symbol_views(symbols@),
            dv == dwarf_views(dwarf@),
            i <= addresses@.len(),
            resolution_views(out@) == image_resolutions_of(sv, dv, addresses@, load_address, text_vmaddr, i as nat),
        decreases addresses@.len() - i,
    {
        let a = addresses[i];
        let file_addr = file_address(a, load_address, text_vmaddr);
        let found: Option<SymbolInfo> = if i < dwarf.len() {
            match &dwarf[i] {
                Some(frame) => Some(symbol_from_dwarf(frame, a)),
                None => resolve_via_symbol_table(&symbols, file_addr),
            }
        } else {
            resolve_via_symbol_table(&symbols, file_addr)
        };
        let ghost before = out@;
        match found {
            Some(info) => {
                out.push((a, info));
                proof {
                    assert(resolution_views(out@) =~= resolution_views(before).push((a, info@)));
                }
            },
            None => {},
        }
        i = i + 1;
    }
    out
}

// ---------------------------------------------------------------------------
// DWARF of an image
// ---------------------------------------------------------------------------

/// What the object crate gives for the section named `name` of the object
/// file in `data`: `None` when the file does not parse or has no section of
/// that name, `Some(None)` when the section's data cannot be read.
pub uninterp spec fn section_data_of(data: Seq<u8>, name: Seq<char>) -> Option<Option<Seq<u8>>>;

/// `object::File::parse`, `section_by_name` and the section's `data()`,
/// copied out; a function of the bytes and the name alone, named
/// `section_data_of`.
#[verifier::external_body]
fn section_data(data: &[u8], name: &str) -> (r: Option<Option<Vec<u8>>>)
    ensures
        section_data_of(data@, name@) == match r {
            None => None,
            Some(None) => Some(None),
            Some(Some(bytes)) => Some(Some(bytes@)),
        },
{
    let file = object::File::parse(data).ok()?;
    let section = file.section_by_name(name)?;
    Some(section.data().ok().map(|bytes| bytes.to_vec()))
}

/// Whether the object file in `data` is little-endian, as the object crate
/// reads it; `None` when it does not parse.
pub uninterp spec fn little_endian_of(data: Seq<u8>) -> Option<bool>;

/// `object::File::parse` and `is_little_endian`; a function of the bytes
/// alone, named `little_endian_of`.
#[verifier::external_body]
fn object_little_endian(data: &[u8]) -> (r: Option<bool>)
    ensures
        r == little_endian_of(data@),
{
    object::File::parse(data).ok().map(|file| file.is_little_endian())
}

/// The Mach-O name of a DWARF section: its ELF name (`.debug_info`) with
/// the leading dot replaced by two underscores (`__debug_info`).
pub open spec fn macho_section_name_of(elf_name: Seq<char>) -> Seq<char> {
    if elf_name.len() == 0 {
        seq!['_', '_']
    } else {
        seq!['_', '_'] + elf_name.skip(1)
    }
}

/// The Mach-O name of the DWARF section whose ELF name is `elf_name`.
pub fn macho_section_name(elf_name: &str) -> (r: String)
    ensures
        r@ == macho_section_name_of(elf_name@),
{
    let chars = chars_of(elf_name);
    let mut out: Vec<char> = Vec::new();
    out.push('_');
    out.push('_');
    assert(out@ =~= seq!['_', '_']);
    if chars.len() == 0 {
        return collect_chars(out);
    }
    let mut i: usize = 1;
    assert(chars@.subrange(1, 1) =~= Seq::<char>::empty());
    while i < chars.len()
        invariant
            chars@ == elf_name@,
            1 <= i <= chars@.len(),
            out@ == seq!['_', '_'] + chars@.subrange(1, i as int),
        decreases chars@.len() - i,
    {
        out.push(chars[i]);
        proof {
            assert(chars@.subrange(1, i + 1) =~= chars@.subrange(1, i as int).push(chars@[i as int]));
        }
        i = i + 1;
    }
    assert(chars@.subrange(1, chars@.len() as int) =~= elf_name@.skip(1));
    collect_chars(out)
}

/// The bytes of the DWARF section whose ELF name is `elf_name` in the object
/// file in `data`: the section of that name, else the one of its Mach-O
/// name; empty where neither exists or the section's data cannot be read.
pub open spec fn dwarf_section_of(data: Seq<u8>, elf_name: Seq<char>) -> Seq<u8> {
    match section_data_of(data, elf_name) {
        Some(found) => match found {
            Some(bytes) => bytes,
            None => Seq::empty(),
        },
        None => match section_data_of(data, macho_section_name_of(elf_name)) {
            Some(Some(bytes)) => bytes,
            _ => Seq::empty(),
        },
    }
}

/// The bytes of a DWARF section of an object file (see `dwarf_section_of`).
pub fn dwarf_section_bytes(data: &[u8], elf_name: &str) -> (r: Vec<u8>)
    ensures
        r@ == dwarf_section_of(data@, elf_name@),
{
    match section_data(data, elf_name) {
        Some(Some(bytes)) => bytes,
        Some(None) => Vec::new(),
        None => {
            let macho = macho_section_name(elf_name);
            match section_data(data, macho.as_str()) {
                Some(Some(bytes)) => bytes,
                _ => Vec::new(),
            }
        },
    }
}

/// What addr2line finds for each of `file_addresses` in the DWARF whose
/// sections `dwarf_section_of(data, _)` gives, read in the given byte order:
/// the innermost frame's raw function name and its location, or `None` for
/// an address without a frame; `None` as a whole when the DWARF does not
/// load.
pub uninterp spec fn dwarf_frames_of(data: Seq<u8>, little_endian: bool, file_addresses: Seq<u64>) -> Option<
    Seq<Option<DwarfFrameView>>,
>;

/// `gimli::Dwarf::load` over the sections `dwarf_section_bytes` gives,
/// `addr2line::Context::from_dwarf`, and for each address `find_frames`
/// with its first frame; a function of its arguments alone, named
/// `dwarf_frames_of`, with one answer per address.
#[verifier::external_body]
fn dwarf_frames(data: &[u8], little_endian: bool, file_addresses: &[u64]) -> (r: Option<Vec<Option<DwarfFrame>>>)
    ensures
        dwarf_frames_of(data@, little_endian, file_addresses@) == match r {
            None => None,
            Some(frames) => Some(dwarf_views(frames@)),
        },
        r matches Some(frames) ==> frames@.len() == file_addresses@.len(),
{
    let endian = if little_endian { RunTimeEndian::Little } else { RunTimeEndian::Big };
    let dwarf = Dwarf::load(|id| Ok::<_, Error>(EndianRcSlice::new(Rc::from(dwarf_section_bytes(data, id.name())), endian)));
    let ctx = Context::from_dwarf(dwarf.ok()?).ok()?;
    Some(file_addresses.iter().map(|&a| {
        let frame = ctx.find_frames(a).skip_all_loads().ok()?.next().ok()??;
        Some(DwarfFrame {
            function: frame.function.as_ref().and_then(|f| f.raw_name().ok()).map(Cow::into_owned),
            location: frame.location.map(|l| (l.file.map(str::to_string), l.line)),
        })
    }).collect())
}

/// The file addresses of `addresses` of an image loaded at `load_address`
/// whose text segment starts at `text_vmaddr`.
pub open spec fn file_addresses_of(addresses: Seq<u64>, load_address: u64, text_vmaddr: u64) -> Seq<u64> {
    addresses.map_values(|a: u64| file_address_of(a, load_address, text_vmaddr))
}

/// What DWARF says of each of `addresses` of an image: nothing for any of
/// them when the object data is too large to search, does not parse, or its
/// DWARF does not load; else what `dwarf_frames_of` gives for their file
/// addresses.
pub open spec fn image_dwarf_of(data: Seq<u8>, load_address: u64, text_vmaddr: u64, addresses: Seq<u64>) -> Seq<
    Option<DwarfFrameView>,
> {
    let nothing = Seq::new(addresses.len(), |i: int| None::<DwarfFrameView>);
    if data.len() > MAX_DWARF_BYTES {
        nothing
    } else {
        match little_endian_of(data) {
            None => nothing,
            Some(little_endian) => match dwarf_frames_of(
                data,
                little_endian,
                file_addresses_of(addresses, load_address, text_vmaddr),
            ) {
                Some(frames) => frames,
                None => nothing,
            },
        }
    }
}

fn no_frames(n: usize) -> (r: Vec<Option<DwarfFrame>>)
    ensures
        dwarf_views(r@) == Seq::new(n as nat, |i: int| None::<DwarfFrameView>),
{
    let mut out: Vec<Option<DwarfFrame>> = Vec::new();
    let mut i: usize = 0;
    while i < n
        invariant
            i <= n,
            dwarf_views(out@) == Seq::new(i as nat, |k: int| None::<DwarfFrameView>),
        decreases n - i,
    {
        let ghost before = out@;
        out.push(None);
        assert(dwarf_views(out@) =~= dwarf_views(before).push(None));
        i = i + 1;
        assert(dwarf_views(out@) =~= Seq::new(i as nat, |k: int| None::<DwarfFrameView>));
    }
    out
}

/// What DWARF says of each of `addresses` of one image (see
/// `image_dwarf_of`).
pub fn image_dwarf_frames(object_data: &[u8], load_address: u64, text_vmaddr: u64, addresses: &Vec<u64>) -> (r: Vec<
    Option<DwarfFrame>,
>)
    ensures
        dwarf_views(r@) == image_dwarf_of(object_data@, load_address, text_vmaddr, addresses@),
{
    if !dwarf_searched(object_data.len()) {
        return no_frames(addresses.len());
    }
    let little_endian = match object_little_endian(object_data) {
        Some(le) => le,
        None => return no_frames(addresses.len()),
    };
    let mut file_addresses: Vec<u64> = Vec::new();
    let mut i: usize = 0;
    while i < addresses.len()
        invariant
            i <= addresses@.len(),
            file_addresses@ == file_addresses_of(addresses@.take(i as int), load_address, text_vmaddr),
        decreases addresses@.len() - i,
    {
        file_addresses.push(file_address(addresses[i], load_address, text_vmaddr));
        proof {
            assert(addresses@.take(i + 1) =~= addresses@.take(i as int).push(addresses@[i as int]));
        }
        i = i + 1;
        assert(file_addresses@ =~= file_addresses_of(addresses@.take(i as int), load_address, text_vmaddr));
    }
    assert(addresses@.take(i as int) =~= addresses@);
    match dwarf_frames(object_data, little_endian, file_addresses.as_slice()) {
        Some(frames) => frames,
        None => no_frames(addresses.len()),
    }
}

/// The resolutions of `addresses` of one image from its own DWARF and
/// symbol table: none when its object data does not parse.
pub open spec fn image_resolutions(data: Seq<u8>, load_address: u64, text_vmaddr: u64, addresses: Seq<u64>) -> Seq<
    (u64, (Seq<char>, Seq<char>, u32)),
> {
    match object_symbols_of(data) {
        None => Seq::empty(),
        Some(symbols) => image_resolutions_of(
            symbols,
            image_dwarf_of(data, load_address, text_vmaddr, addresses),
            addresses,
            load_address,
            text_vmaddr,
            addresses.len(),
        ),
    }
}

/// Resolves the `addresses` that fall in one image, whose object data is
/// `object_data`, loaded at `load_address` with its text segment at
/// `text_vmaddr`: each from what the image's DWARF says of it, else from
/// its symbol table; the addresses nothing resolves are left out.
pub fn resolve_image(object_data: &[u8], load_address: u64, text_vmaddr: u64, addresses: &Vec<u64>) -> (r: Vec<
    (u64, SymbolInfo),
>)
    ensures
        resolution_views(r@) == image_resolutions(object_data@, load_address, text_vmaddr, addresses@),
{
    let dwarf = image_dwarf_frames(object_data, load_address, text_vmaddr, addresses);
    let r = resolve_image_addresses(object_data, load_address, text_vmaddr, addresses, &dwarf);
    proof {
        if object_symbols_of(object_data@) is None {
            assert(resolution_views(r@) =~= Seq::<(u64, (Seq<char>, Seq<char>, u32))>::empty());
        }
    }
    r
}

// ---------------------------------------------------------------------------
// Which image each address belongs to
// ---------------------------------------------------------------------------

/// The addresses of `addresses` that fall in image `i` (see
/// `image_index_of`), in order.
pub open spec fn addresses_in_image(images: Seq<(u64, u64)>, addresses: Seq<u64>, i: nat) -> Seq<u64> {
    addresses.filter(in_image(images, i))
}

/// Whether an address falls in image `i`.
pub open spec fn in_image(images: Seq<(u64, u64)>, i: nat) -> spec_fn(u64) -> bool {
    |a: u64| image_index_of(images, a) == Some(i)
}

proof fn lemma_filter_push(s: Seq<u64>, a: u64, p: spec_fn(u64) -> bool)
    ensures
        s.push(a).filter(p) == if p(a) {
            s.filter(p).push(a)
        } else {
            s.filter(p)
        },
{
    reveal(Seq::filter);
    assert(s.push(a).drop_last() =~= s);
}

/// Splits `addresses` by the image whose object data holds them (images
/// are `(load address, object length)` pairs sorted by load address);
/// addresses no image holds are left out.
#[verifier::spinoff_prover]
pub fn group_by_image(images: &Vec<(u64, u64)>, addresses: &Vec<u64>) -> (r: Vec<Vec<u64>>)
    requires
        forall|i: int, j: int| 0 <= i < j < images@.len() ==> images@[i].0 <= images@[j].0,
    ensures
        r@.len() == images@.len(),
        forall|i: int| 0 <= i < r@.len() ==> (#[trigger] r@[i])@ == addresses_in_image(images@, addresses@, i as nat),
{
    let mut groups: Vec<Vec<u64>> = Vec::new();
    let mut k: usize = 0;
    while k < images.len()
        invariant
            k <= images@.len(),
            groups@.len() == k,
            forall|i: int| 0 <= i < k ==> (#[trigger] groups@[i])@ == Seq::<u64>::empty(),
        decreases images@.len() - k,
    {
        groups.push(Vec::new());
        k = k + 1;
    }
    let mut j: usize = 0;
    while j < addresses.len()
        invariant
            forall|i: int, l: int| 0 <= i < l < images@.len() ==> images@[i].0 <= images@[l].0,
            j <= addresses@.len(),
            groups@.len() == images@.len(),
            forall|i: int|
                0 <= i < groups@.len() ==> (#[trigger] groups@[i])@ == addresses_in_image(
                    images@,
                    addresses@.take(j as int),
                    i as nat,
                ),
        decreases addresses@.len() - j,
    {
        let a = addresses[j];
        let found = image_index_for_address(images, a);
        let ghost before = groups@;
        proof {
            assert(addresses@.take(j + 1) =~= addresses@.take(j as int).push(a));
        }
        match found {
            Some(idx) => {
                let mut g = groups.remove(idx);
                g.push(a);
                let ghost grown = g;
                groups.insert(idx, g);
                proof {
                    assert(grown@ == before[idx as int]@.push(a));
                    assert(groups@ =~= before.update(idx as int, grown));
                }
            },
            None => {},
        }
        proof {
            assert forall|i: int| 0 <= i < groups@.len() implies (#[trigger] groups@[i])@ == addresses_in_image(
                images@,
                addresses@.take(j + 1),
                i as nat,
            ) by {
                lemma_filter_push(addresses@.take(j as int), a, in_image(images@, i as nat));
                match found {
                    Some(idx) => {
                        assert(image_index_of(images@, a) == Some(idx as nat));
                        if i != idx {
                            assert(groups@[i] == before[i]);
                        }
                    },
                    None => {
                        assert(image_index_of(images@, a) is None);
                    },
                }
            }
        }
        j = j + 1;
    }
    proof {
        assert(addresses@.take(j as int) =~= addresses@);
    }
    groups
}

// ---------------------------------------------------------------------------
// Images in load order
// ---------------------------------------------------------------------------

/// Images ranked by load address.
pub open spec fn load_le() -> spec_fn(LoadedImage, LoadedImage) -> bool {
    |a: LoadedImage, b: LoadedImage| a.load_address <= b.load_address
}

/// The images sorted by load address.
pub fn sort_images_by_load(images: Vec<LoadedImage>) -> (r: Vec<LoadedImage>)
    ensures
        sorted_by(r@, load_le()),
        r@.to_multiset() == images@.to_multiset(),
        r@.len() == images@.len(),
{
    proof {
        let le = load_le();
        assert(vstd::relations::reflexive(le));
        assert(vstd::relations::transitive(le));
        assert(vstd::relations::strongly_connected(le));
        assert(total_preorder(le));
    }
    let by_load = |a: &LoadedImage, b: &LoadedImage| -> (r: bool)
        ensures
            r == (a.load_address <= b.load_address),
        { a.load_address <= b.load_address };
    sort_by_rank(images, by_load, Ghost(load_le()))
}

} // verus!
