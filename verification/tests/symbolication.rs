use pprofessor::symbolicate::{
    best_symbol, file_address, image_index_for_address, is_system_cache_path, resolve_via_symbol_table, text_segment_vmaddr,
    SymbolInfo,
};
use pprofessor::{FrameInfo, LoadedImage, NativeSymbolizer, Symbolizer, SymbolizerChain};

#[test]
fn test_native_symbolizer_unknown_returns_none() {
    let sym = NativeSymbolizer::new(vec![], &[0x1000u64]);
    assert!(sym.symbolize_frame(0x1000).is_none());
}

#[test]
fn test_native_symbolizer_can_resolve_incremental_batches() {
    let mut sym = NativeSymbolizer::new(vec![], &[]);
    sym.resolve_more(&[0x1000u64, 0x2000u64]);
    assert!(sym.symbolize_frame(0x1000).is_none());
}

#[test]
fn native_symbolizer_hands_out_each_address_once_and_retries_after_refresh() {
    let image = LoadedImage { load_address: 0x1000, path: "/tmp/a".to_string() };
    let mut sym = NativeSymbolizer::new(vec![image.clone()], &[0x10, 0x20]);
    assert_eq!(sym.resolve_more(&[0x20, 0x30, 0x30, 0x40]), vec![0x30, 0x40]);
    sym.record_resolutions(vec![(0x10, SymbolInfo { function: "f".to_string(), file: "a.rs".to_string(), line: 3 })]);
    let info = sym.symbolize_frame(0x10).unwrap();
    assert_eq!((info.function.as_str(), info.file.as_str(), info.line), ("f", "a.rs", 3));
    sym.refresh_images(vec![image.clone()]);
    assert!(sym.resolve_more(&[0x20]).is_empty());
    sym.refresh_images(vec![LoadedImage { load_address: 0x2000, path: "/tmp/b".to_string() }]);
    assert_eq!(sym.resolve_more(&[0x10, 0x20, 0x30]), vec![0x20, 0x30]);
    assert!(sym.symbolize_frame(0x10).is_some());
}

struct AlwaysFoo;
impl Symbolizer for AlwaysFoo {
    fn symbolize_frame(&self, _: u64) -> Option<FrameInfo> {
        Some(FrameInfo { function: "foo".to_string(), file: String::new(), line: 0 })
    }
}

struct AlwaysBar;
impl Symbolizer for AlwaysBar {
    fn symbolize_frame(&self, _: u64) -> Option<FrameInfo> {
        Some(FrameInfo { function: "bar".to_string(), file: String::new(), line: 0 })
    }
}

struct AlwaysNone;
impl Symbolizer for AlwaysNone {
    fn symbolize_frame(&self, _: u64) -> Option<FrameInfo> {
        None
    }
}

struct AlwaysBaz;
impl Symbolizer for AlwaysBaz {
    fn symbolize_frame(&self, _: u64) -> Option<FrameInfo> {
        Some(FrameInfo { function: "baz".to_string(), file: String::new(), line: 0 })
    }
}

#[test]
fn test_symbolizer_chain_first_some_wins() {
    let chain = SymbolizerChain::new(vec![Box::new(AlwaysFoo), Box::new(AlwaysBar)]);
    let result = chain.symbolize_frame(0x1000).unwrap();
    assert_eq!(result.function, "foo");
}

#[test]
fn symbolicate_test_symbolizer_chain_fallback() {
    let chain = SymbolizerChain::new(vec![Box::new(AlwaysNone), Box::new(AlwaysBaz)]);
    let result = chain.symbolize_frame(0x1000).unwrap();
    assert_eq!(result.function, "baz");
}

#[test]
fn test_symbolizer_chain_all_none() {
    let chain = SymbolizerChain::new(vec![Box::new(AlwaysNone)]);
    assert!(chain.symbolize_frame(0x1000).is_none());
}

#[test]
fn system_cache_paths_are_recognized() {
    assert!(is_system_cache_path("/usr/lib/libSystem.B.dylib"));
    assert!(is_system_cache_path("/System/Library/Frameworks/Foundation"));
    assert!(!is_system_cache_path("/usr/local/lib/x"));
}

#[test]
fn symbol_tables_pick_the_nearest_symbol_below() {
    let symbols = vec![
        (0x100u64, "a".to_string()),
        (0x200, "b".to_string()),
        (0x200, "b2".to_string()),
        (0x300, String::new()),
        (0, "zero".to_string()),
        (0x500, "c".to_string()),
    ];
    assert_eq!(best_symbol(&symbols, 0x350), Some("b".to_string()));
    assert_eq!(best_symbol(&symbols, 0x100), Some("a".to_string()));
    assert_eq!(best_symbol(&symbols, 0x50), None);
    let info = resolve_via_symbol_table(&symbols, 0x250).unwrap();
    assert_eq!(info.function, "b");
    assert_eq!(info.line, 0);
    let mangled = vec![(0x10u64, "_ZN4core3fmt5write17h0123456789abcdefE".to_string())];
    assert_eq!(resolve_via_symbol_table(&mangled, 0x10).unwrap().function, "core::fmt::write");
}

#[test]
fn addresses_map_into_images_and_files() {
    let images = vec![(0x1000u64, 0x100u64), (0x2000, 0x10)];
    assert_eq!(image_index_for_address(&images, 0x1050), Some(0));
    assert_eq!(image_index_for_address(&images, 0x1100), None);
    assert_eq!(image_index_for_address(&images, 0x200f), Some(1));
    assert_eq!(image_index_for_address(&images, 0x10), None);
    assert_eq!(file_address(0x1050, 0x1000, 0x4000), 0x4050);
    assert_eq!(file_address(0x10, 0x20, 0x5), u64::MAX - 10);
    let segments = vec![(Some("__PAGEZERO".to_string()), 0u64), (Some("__TEXT".to_string()), 0x1_0000_0000), (None, 5)];
    assert_eq!(text_segment_vmaddr(&segments), 0x1_0000_0000);
    let segments = vec![(None, 0x400000u64), (Some(".data".to_string()), 0x3000)];
    assert_eq!(text_segment_vmaddr(&segments), 0x3000);
    assert_eq!(text_segment_vmaddr(&vec![]), 0);
}
