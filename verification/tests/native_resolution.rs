use pprofessor::symbolicate::native::{
    dwarf_searched, dwarf_section_bytes, group_by_image, image_dwarf_frames, image_text_vmaddr, macho_section_name,
    native_macho_slice, resolve_image, resolve_image_addresses, sort_images_by_load, symbol_from_dwarf, DwarfFrame,
    MachArch, SliceError,
};
use pprofessor::{LoadedImage, NativeSymbolizer, Symbolizer};

const CPU_TYPE_X86_64: u32 = 0x0100_0007;
const CPU_TYPE_ARM64: u32 = 0x0100_000c;

fn fat32(arches: &[(u32, u32, u32)], declared: u32, total_len: usize) -> Vec<u8> {
    let mut data = Vec::new();
    data.extend_from_slice(&0xcafe_babeu32.to_be_bytes());
    data.extend_from_slice(&declared.to_be_bytes());
    for &(cputype, offset, size) in arches {
        data.extend_from_slice(&cputype.to_be_bytes());
        data.extend_from_slice(&0u32.to_be_bytes());
        data.extend_from_slice(&offset.to_be_bytes());
        data.extend_from_slice(&size.to_be_bytes());
        data.extend_from_slice(&12u32.to_be_bytes());
    }
    data.resize(total_len, 0);
    data
}

#[test]
fn the_native_slice_of_a_universal_binary_is_chosen() {
    let data = fat32(&[(CPU_TYPE_X86_64, 64, 16), (CPU_TYPE_ARM64, 80, 16)], 2, 96);
    assert_eq!(native_macho_slice(&data, MachArch::Arm64), Ok((80, 16)));
    assert_eq!(native_macho_slice(&data, MachArch::X86_64), Ok((64, 16)));
    assert_eq!(native_macho_slice(&data, MachArch::Other), Err(SliceError::NoNativeArchitecture));
}

#[test]
fn universal_binaries_with_bad_headers_or_ranges_are_refused() {
    let outside = fat32(&[(CPU_TYPE_ARM64, 90, 16)], 1, 96);
    assert_eq!(native_macho_slice(&outside, MachArch::Arm64), Err(SliceError::SliceOutOfBounds));
    let empty = fat32(&[(CPU_TYPE_ARM64, 1000, 0)], 1, 96);
    assert_eq!(native_macho_slice(&empty, MachArch::Arm64), Ok((0, 0)));
    let truncated = fat32(&[(CPU_TYPE_ARM64, 40, 8)], 5, 48);
    assert_eq!(native_macho_slice(&truncated, MachArch::Arm64), Err(SliceError::InvalidUniversalHeader));
}

#[test]
fn thin_objects_are_used_whole_and_unknown_files_refused() {
    let mut elf = vec![0x7f, b'E', b'L', b'F', 2, 1, 1, 0];
    elf.resize(40, 0);
    assert_eq!(native_macho_slice(&elf, MachArch::Arm64), Ok((0, 40)));
    assert_eq!(native_macho_slice(&[1, 2, 3], MachArch::Arm64), Err(SliceError::UnknownFormat));
}

#[test]
fn unparsable_object_data_has_no_text_segment_and_resolves_nothing() {
    let garbage = vec![0u8; 32];
    assert_eq!(image_text_vmaddr(&garbage), None);
    let frames = vec![Some(DwarfFrame { function: Some("main".to_string()), location: None })];
    assert!(resolve_image_addresses(&garbage, 0x1000, 0, &vec![0x1010], &frames).is_empty());
}

#[test]
fn dwarf_frames_fill_in_defaults() {
    let unnamed = DwarfFrame { function: None, location: Some((Some("src/a.rs".to_string()), None)) };
    let info = symbol_from_dwarf(&unnamed, 0xabc);
    assert_eq!(info.function, "0x0000000000000abc");
    assert_eq!(info.file, "src/a.rs");
    assert_eq!(info.line, 0);
    let named = DwarfFrame { function: Some("_ZN3foo3barE".to_string()), location: Some((None, Some(7))) };
    let info = symbol_from_dwarf(&named, 1);
    assert_eq!(info.function, "foo::bar");
    assert_eq!(info.file, "");
    assert_eq!(info.line, 7);
}

#[test]
fn addresses_are_grouped_by_the_image_that_holds_them() {
    let spans = vec![(0x1000, 0x100), (0x2000, 0x100)];
    let groups = group_by_image(&spans, &vec![0x1050, 0x0fff, 0x2000, 0x2100, 0x10ff, 0x1100]);
    assert_eq!(groups, vec![vec![0x1050, 0x10ff], vec![0x2000]]);
    assert!(group_by_image(&vec![], &vec![1, 2]).is_empty());
}

#[test]
fn images_are_sorted_by_load_address_and_dwarf_is_bounded() {
    let images = vec![
        LoadedImage { load_address: 3, path: "c".to_string() },
        LoadedImage { load_address: 1, path: "a".to_string() },
        LoadedImage { load_address: 2, path: "b".to_string() },
    ];
    let sorted = sort_images_by_load(images);
    assert_eq!(sorted.iter().map(|i| i.path.as_str()).collect::<Vec<_>>(), ["a", "b", "c"]);
    assert!(dwarf_searched(50 * 1024 * 1024));
    assert!(!dwarf_searched(50 * 1024 * 1024 + 1));
}

/// A little-endian ELF64 relocatable object with three sections:
/// `.shstrtab`, `.debug_str` ("hello\0") and `__debug_line` ([1, 2, 3]).
fn small_elf() -> Vec<u8> {
    let shstrtab = b"\0.shstrtab\0.debug_str\0__debug_line\0".to_vec();
    let debug_str = b"hello\0".to_vec();
    let debug_line = vec![1u8, 2, 3];
    let shstrtab_off = 64u64;
    let debug_str_off = shstrtab_off + shstrtab.len() as u64;
    let debug_line_off = debug_str_off + debug_str.len() as u64;
    let mut shoff = debug_line_off + debug_line.len() as u64;
    shoff = (shoff + 7) / 8 * 8;

    let mut data = vec![0x7f, b'E', b'L', b'F', 2, 1, 1, 0];
    data.resize(16, 0);
    data.extend_from_slice(&1u16.to_le_bytes());
    data.extend_from_slice(&62u16.to_le_bytes());
    data.extend_from_slice(&1u32.to_le_bytes());
    data.extend_from_slice(&0u64.to_le_bytes());
    data.extend_from_slice(&0u64.to_le_bytes());
    data.extend_from_slice(&shoff.to_le_bytes());
    data.extend_from_slice(&0u32.to_le_bytes());
    data.extend_from_slice(&64u16.to_le_bytes());
    data.extend_from_slice(&0u16.to_le_bytes());
    data.extend_from_slice(&0u16.to_le_bytes());
    data.extend_from_slice(&64u16.to_le_bytes());
    data.extend_from_slice(&4u16.to_le_bytes());
    data.extend_from_slice(&1u16.to_le_bytes());
    data.extend_from_slice(&shstrtab);
    data.extend_from_slice(&debug_str);
    data.extend_from_slice(&debug_line);
    data.resize(shoff as usize, 0);

    let mut header = |name: u32, kind: u32, offset: u64, size: u64| {
        data.extend_from_slice(&name.to_le_bytes());
        data.extend_from_slice(&kind.to_le_bytes());
        data.extend_from_slice(&0u64.to_le_bytes());
        data.extend_from_slice(&0u64.to_le_bytes());
        data.extend_from_slice(&offset.to_le_bytes());
        data.extend_from_slice(&size.to_le_bytes());
        data.extend_from_slice(&0u32.to_le_bytes());
        data.extend_from_slice(&0u32.to_le_bytes());
        data.extend_from_slice(&1u64.to_le_bytes());
        data.extend_from_slice(&0u64.to_le_bytes());
    };
    header(0, 0, 0, 0);
    header(1, 3, shstrtab_off, shstrtab.len() as u64);
    header(11, 1, debug_str_off, debug_str.len() as u64);
    header(22, 1, debug_line_off, debug_line.len() as u64);
    data
}

#[test]
fn dwarf_sections_have_a_mach_o_name() {
    assert_eq!(macho_section_name(".debug_info"), "__debug_info");
    assert_eq!(macho_section_name(".debug_str_offsets"), "__debug_str_offsets");
    assert_eq!(macho_section_name(""), "__");
}

#[test]
fn dwarf_sections_are_found_by_their_elf_or_mach_o_name() {
    let elf = small_elf();
    assert_eq!(dwarf_section_bytes(&elf, ".debug_str"), b"hello\0".to_vec());
    assert_eq!(dwarf_section_bytes(&elf, ".debug_line"), vec![1, 2, 3]);
    assert!(dwarf_section_bytes(&elf, ".debug_abbrev").is_empty());
    assert!(dwarf_section_bytes(&[0u8; 32], ".debug_str").is_empty());
}

#[test]
fn objects_without_dwarf_units_give_no_frames() {
    let elf = small_elf();
    let frames = image_dwarf_frames(&elf, 0x1000, 0, &vec![0x1010, 0x1020]);
    assert_eq!(frames, vec![None, None]);
    assert_eq!(image_dwarf_frames(&[0u8; 32], 0x1000, 0, &vec![0x1010]), vec![None]);
    assert!(resolve_image(&elf, 0x1000, 0, &vec![0x1010]).is_empty());
    assert!(resolve_image(&[0u8; 32], 0x1000, 0, &vec![0x1010]).is_empty());
}

#[test]
fn resolving_in_an_image_records_only_what_resolves() {
    let mut symbolizer = NativeSymbolizer::new(vec![], &[]);
    let pending = symbolizer.resolve_more(&[0x1010]);
    assert_eq!(pending, vec![0x1010]);
    symbolizer.resolve_in_image(&small_elf(), 0x1000, 0, &pending);
    assert!(symbolizer.symbolize_frame(0x1010).is_none());
}
