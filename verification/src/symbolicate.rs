//! Symbolication: the `Symbolizer` interface, chains of symbolizers, and the
//! bookkeeping and decisions of the native (DWARF and symbol table) symbolizer.

pub mod native;

use vstd::prelude::*;

use std::collections::{HashMap, HashSet};

use crate::assoc::{assoc_map, lemma_assoc_take};
use crate::sampler::LoadedImage;
use crate::text::{compare_str, has_prefix, hex16, hex_address, starts_with};

verus! {

broadcast use vstd::std_specs::hash::group_hash_axioms;

/// Symbolication output for a single address.
#[derive(Debug, Clone)]
pub struct FrameInfo {
    pub function: String,
    pub file: String,
    pub line: u32,
}

/// Resolves raw instruction pointer addresses to stack frames.
///
/// Implement this trait for custom symbolication (e.g. JIT code in a language VM).
/// Return `None` if this symbolizer doesn't handle the given address.
pub trait Symbolizer {
    /// `answer` is an answer this symbolizer gives for `address`. Nothing
    /// is claimed of a symbolizer that does not say more.
    open spec fn answers(&self, address: u64, answer: Option<FrameInfo>) -> bool {
        true
    }

    fn symbolize_frame(&self, address: u64) -> (r: Option<FrameInfo>)
        ensures
            self.answers(address, r),
    ;
}

/// `r` is an answer the symbolizers `syms`, asked in order, give for
/// `address`: the first `Some` among their answers, or `None` when each of
/// them answers `None`.
pub open spec fn chain_answers(syms: Seq<Box<dyn Symbolizer>>, address: u64, r: Option<FrameInfo>) -> bool
    decreases syms.len(),
{
    if syms.len() == 0 {
        r is None
    } else {
        ||| (r is Some && syms[0].answers(address, r))
        ||| (syms[0].answers(address, None) && chain_answers(syms.drop_first(), address, r))
    }
}

/// Composes multiple symbolizers. Tries each in order; first `Some` wins.
pub struct SymbolizerChain {
    symbolizers: Vec<Box<dyn Symbolizer>>,
}

impl SymbolizerChain {
    /// The symbolizers, in the order they are tried.
    pub closed spec fn view(&self) -> Seq<Box<dyn Symbolizer>> {
        self.symbolizers@
    }

    pub fn new(symbolizers: Vec<Box<dyn Symbolizer>>) -> (r: Self)
        ensures
            r@ == symbolizers@,
    {
        SymbolizerChain { symbolizers }
    }
}

impl Symbolizer for SymbolizerChain {
    /// The first answer that is `Some`, asking the symbolizers in order.
    open spec fn answers(&self, address: u64, answer: Option<FrameInfo>) -> bool {
        chain_answers(self@, address, answer)
    }

    /// Asks the symbolizers in order and returns the first `Some`; `None`
    /// when every one of them answers `None`.
    fn symbolize_frame(&self, address: u64) -> (r: Option<FrameInfo>) {
        let mut i: usize = 0;
        assert(self@.skip(0) =~= self@);
        while i < self.symbolizers.len()
            invariant
                i <= self.symbolizers@.len(),
                forall|x: Option<FrameInfo>| #[trigger] chain_answers(self@.skip(i as int), address, x)
                    ==> chain_answers(self@, address, x),
            decreases self.symbolizers@.len() - i,
        {
            let answer = self.symbolizers[i].symbolize_frame(address);
            proof {
                let rest = self@.skip(i as int);
                assert(rest[0] == self@[i as int]);
                assert(rest.drop_first() =~= self@.skip(i + 1));
            }
            match answer {
                Some(info) => {
                    assert(chain_answers(self@.skip(i as int), address, Some(info)));
                    return Some(info);
                },
                None => {
                    proof {
                        let rest = self@.skip(i as int);
                        assert(rest[0].answers(address, None));
                        assert forall|x: Option<FrameInfo>| #[trigger] chain_answers(self@.skip(i + 1), address, x)
                            implies chain_answers(self@, address, x) by {
                            assert(chain_answers(rest, address, x));
                        }
                    }
                },
            }
            i = i + 1;
        }
        assert(self@.skip(i as int).len() == 0);
        assert(chain_answers(self@.skip(i as int), address, None));
        None
    }
}


/// The resolved name and source location for a single address.
#[derive(Debug, Clone)]
pub struct SymbolInfo {
    pub function: String,
    pub file: String,
    pub line: u32,
}

impl SymbolInfo {
    pub open spec fn view(&self) -> (Seq<char>, Seq<char>, u32) {
        (self.function@, self.file@, self.line)
    }
}

impl FrameInfo {
    pub open spec fn view(&self) -> (Seq<char>, Seq<char>, u32) {
        (self.function@, self.file@, self.line)
    }
}

/// An image as a mathematical value.
pub open spec fn image_view(image: LoadedImage) -> (u64, Seq<char>) {
    (image.load_address, image.path@)
}

/// A list of images as mathematical values.
pub open spec fn image_views(images: Seq<LoadedImage>) -> Seq<(u64, Seq<char>)> {
    images.map_values(|i: LoadedImage| image_view(i))
}

/// What a native symbolizer knows.
pub struct NativeModel {
    /// The images addresses are resolved against.
    pub images: Seq<(u64, Seq<char>)>,
    /// The resolutions obtained so far.
    pub resolved: Map<u64, (Seq<char>, Seq<char>, u32)>,
    /// Every address handed out for resolution against the current images.
    pub attempted: Set<u64>,
}

/// Native symbolizer: resolves addresses using DWARF debug info and symbol
/// tables of the loaded images.
///
/// The symbolizer keeps the bookkeeping of a session: which addresses have
/// been handed out for resolution and what they resolved to.  Reading the
/// image files is done by its caller, who records what it found with
/// `record_resolutions`; addresses without a resolution give `None`.
pub struct NativeSymbolizer {
    images: Vec<LoadedImage>,
    resolved: HashMap<u64, SymbolInfo>,
    attempted: HashSet<u64>,
}

/// The view of a resolution.
pub open spec fn symbol_view() -> spec_fn(SymbolInfo) -> (Seq<char>, Seq<char>, u32) {
    |i: SymbolInfo| i@
}

/// The addresses of `addresses` not in `seen` and not earlier in the list,
/// in order.
pub open spec fn fresh_addresses(seen: Set<u64>, addresses: Seq<u64>) -> Seq<u64>
    decreases addresses.len(),
{
    if addresses.len() == 0 {
        Seq::empty()
    } else {
        let before = fresh_addresses(seen, addresses.drop_last());
        let a = addresses.last();
        if seen.contains(a) || addresses.drop_last().contains(a) {
            before
        } else {
            before.push(a)
        }
    }
}

/// An address is handed out exactly when it occurs in `s` and was not seen
/// before.
pub proof fn lemma_fresh_membership(seen: Set<u64>, s: Seq<u64>, a: u64)
    ensures
        fresh_addresses(seen, s).contains(a) <==> (s.contains(a) && !seen.contains(a)),
    decreases s.len(),
{
    if s.len() > 0 {
        lemma_fresh_membership(seen, s.drop_last(), a);
        vstd::seq_lib::lemma_seq_contains_after_push(s.drop_last(), s.last(), a);
        assert(s.drop_last().push(s.last()) =~= s);
        let f = fresh_addresses(seen, s.drop_last());
        vstd::seq_lib::lemma_seq_contains_after_push(f, s.last(), a);
    }
}

/// After a change of images, asking again for `addresses` hands out exactly
/// those of them that were not both attempted and resolved before: what did
/// not resolve against the old images is tried against the new ones, and
/// what resolved is not.
pub proof fn lemma_refresh_retries_unresolved(before: NativeModel, after: NativeModel, addresses: Seq<u64>, a: u64)
    requires
        after.resolved == before.resolved,
        after.attempted == before.attempted.filter(|x: u64| before.resolved.contains_key(x)),
    ensures
        fresh_addresses(after.attempted, addresses).contains(a) <==> (addresses.contains(a) && !(
        before.attempted.contains(a) && before.resolved.contains_key(a))),
{
    lemma_fresh_membership(after.attempted, addresses, a);
}

/// Resolutions as `(address, (function, file, line))` pairs.
pub open spec fn resolution_entries(v: Seq<(u64, SymbolInfo)>) -> Seq<(u64, (Seq<char>, Seq<char>, u32))> {
    v.map_values(|e: (u64, SymbolInfo)| (e.0, e.1@))
}

impl NativeSymbolizer {
    pub closed spec fn view(&self) -> NativeModel {
        NativeModel {
            images: image_views(self.images@),
            resolved: self.resolved@.map_values(symbol_view()),
            attempted: self.attempted@,
        }
    }

    /// The bookkeeping holds finitely many addresses.
    pub closed spec fn wf(&self) -> bool {
        &&& self.resolved@.dom().finite()
        &&& self.attempted@.finite()
    }

    /// A symbolizer for `images` that has handed out `addresses` for
    /// resolution and resolved none of them yet.
    pub fn new(images: Vec<LoadedImage>, addresses: &[u64]) -> (r: Self)
        ensures
            r.wf(),
            r@.images == image_views(images@),
            r@.resolved == Map::<u64, (Seq<char>, Seq<char>, u32)>::empty(),
            r@.attempted == addresses@.to_set(),
    {
        let mut r = NativeSymbolizer { images, resolved: HashMap::new(), attempted: HashSet::new() };
        proof {
            assert(r@.resolved =~= Map::<u64, (Seq<char>, Seq<char>, u32)>::empty());
        }
        let _ = r.resolve_more(addresses);
        proof {
            assert(r@.attempted =~= addresses@.to_set());
        }
        r
    }

    /// The images addresses are resolved against.
    pub fn images(&self) -> (r: &Vec<LoadedImage>)
        ensures
            image_views(r@) == self@.images,
    {
        &self.images
    }

    /// Hands out the addresses not handed out before (each once, in order of
    /// first occurrence) and counts them as attempted.
    pub fn resolve_more(&mut self, addresses: &[u64]) -> (r: Vec<u64>)
        requires
            old(self).wf(),
        ensures
            final(self).wf(),
            r@ == fresh_addresses(old(self)@.attempted, addresses@),
            final(self)@.attempted == old(self)@.attempted.union(addresses@.to_set()),
            final(self)@.resolved == old(self)@.resolved,
            final(self)@.images == old(self)@.images,
    {
        let ghost start = self.attempted@;
        let mut pending: Vec<u64> = Vec::new();
        let mut i: usize = 0;
        proof {
            assert(start.union(addresses@.take(0).to_set()) =~= start);
        }
        while i < addresses.len()
            invariant
                self.wf(),
                i <= addresses@.len(),
                pending@ == fresh_addresses(start, addresses@.take(i as int)),
                self.attempted@ == start.union(addresses@.take(i as int).to_set()),
                self.resolved == old(self).resolved,
                self.images == old(self).images,
            decreases addresses@.len() - i,
        {
            let a = addresses[i];
            proof {
                let t = addresses@.take(i as int);
                assert(addresses@.take(i + 1).drop_last() =~= t);
                assert(addresses@.take(i + 1) =~= t.push(a));
                assert forall|x: u64| #[trigger] t.push(a).to_set().contains(x) <==> t.to_set().insert(a).contains(x) by {
                    vstd::seq_lib::lemma_seq_contains_after_push(t, a, x);
                }
                assert(t.push(a).to_set() =~= t.to_set().insert(a));
                assert(t.contains(a) <==> t.to_set().contains(a));
            }
            if !self.attempted.contains(&a) {
                self.attempted.insert(a);
                pending.push(a);
            }
            i = i + 1;
            proof {
                assert(self.attempted@ =~= start.union(addresses@.take(i as int).to_set()));
            }
        }
        proof {
            assert(addresses@.take(i as int) =~= addresses@);
        }
        pending
    }

    /// Resolves `addresses`, which fall in one image whose object data is
    /// `object_data` (loaded at `load_address`, text segment at
    /// `text_vmaddr`), from that image's DWARF and symbol table, and records
    /// what they resolved to.
    pub fn resolve_in_image(
        &mut self,
        object_data: &[u8],
        load_address: u64,
        text_vmaddr: u64,
        addresses: &Vec<u64>,
    )
        requires
            old(self).wf(),
        ensures
            final(self).wf(),
            final(self)@.resolved == old(self)@.resolved.union_prefer_right(
                assoc_map(native::image_resolutions(object_data@, load_address, text_vmaddr, addresses@)),
            ),
            final(self)@.attempted == old(self)@.attempted,
            final(self)@.images == old(self)@.images,
    {
        let results = native::resolve_image(object_data, load_address, text_vmaddr, addresses);
        proof {
            assert(resolution_entries(results@) =~= native::resolution_views(results@));
        }
        self.record_resolutions(results);
    }

    /// Records resolutions found for some addresses (a later resolution of an
    /// address replaces an earlier one).
    pub fn record_resolutions(&mut self, results: Vec<(u64, SymbolInfo)>)
        requires
            old(self).wf(),
        ensures
            final(self).wf(),
            final(self)@.resolved == old(self)@.resolved.union_prefer_right(
                assoc_map(resolution_entries(results@)),
            ),
            final(self)@.attempted == old(self)@.attempted,
            final(self)@.images == old(self)@.images,
    {
        let ghost start = self@.resolved;
        let ghost all = resolution_entries(results@);
        let mut rest = results;
        let ghost mut k: int = 0;
        proof {
            assert(assoc_map(all.take(0)) =~= Map::<u64, (Seq<char>, Seq<char>, u32)>::empty());
            assert(start.union_prefer_right(assoc_map(all.take(0))) =~= start);
        }
        while rest.len() > 0
            invariant
                self.wf(),
                0 <= k <= all.len(),
                resolution_entries(rest@) == all.skip(k),
                self@.resolved == start.union_prefer_right(assoc_map(all.take(k))),
                self.attempted == old(self).attempted,
                self.images == old(self).images,
            decreases rest@.len(),
        {
            let ghost rest_before = rest@;
            let (address, info) = rest.remove(0);
            proof {
                assert(resolution_entries(rest@) =~= resolution_entries(rest_before).drop_first());
                assert(all.skip(k + 1) =~= all.skip(k).drop_first());
                assert(resolution_entries(rest_before)[0] == (address, info@));
                assert(all.skip(k)[0] == all[k]);
                assert(all[k] == (address, info@));
                lemma_assoc_take(all, k);
            }
            let ghost before = self@.resolved;
            self.resolved.insert(address, info);
            proof {
                assert(self@.resolved =~= before.insert(address, info@));
                k = k + 1;
                assert(self@.resolved =~= start.union_prefer_right(assoc_map(all.take(k))));
            }
        }
        proof {
            assert(all.take(k) =~= all);
        }
    }

    /// Replaces the loaded images after the target changed, so that addresses
    /// that could not be resolved against the previous images are handed out
    /// again.  An empty or unchanged image list is ignored.
    pub fn refresh_images(&mut self, images: Vec<LoadedImage>)
        requires
            old(self).wf(),
        ensures
            final(self).wf(),
            final(self)@.resolved == old(self)@.resolved,
            (images@.len() == 0 || image_views(images@) == old(self)@.images) ==> final(self)@ == old(self)@,
            !(images@.len() == 0 || image_views(images@) == old(self)@.images) ==> {
                &&& final(self)@.images == image_views(images@)
                &&& final(self)@.attempted == old(self)@.attempted.filter(|a: u64| old(self)@.resolved.contains_key(a))
            },
    {
        if images.len() == 0 || same_images(&images, &self.images) {
            return;
        }
        self.images = images;
        let ghost p = |a: u64| self@.resolved.contains_key(a);
        let ghost all = self.attempted@;
        let mut kept: HashSet<u64> = HashSet::new();
        for a in it: self.attempted.iter()
            invariant
                all == self.attempted@,
                p == (|a: u64| self@.resolved.contains_key(a)),
                it.seq().unref().to_set() == all,
                kept@ == it.seq().take(it.index()).unref().to_set().filter(p),
                it.index() == it.seq().len() ==> kept@ == all.filter(p),
        {
            let ghost done = it.seq().take(it.index()).unref();
            proof {
                assert(it.seq().take(it.index() + 1).unref() =~= done.push(*a));
                assert forall|x: u64| #[trigger] done.push(*a).to_set().contains(x) <==> done.to_set().insert(*a).contains(x) by {
                    vstd::seq_lib::lemma_seq_contains_after_push(done, *a, x);
                }
            }
            if self.resolved.contains_key(a) {
                kept.insert(*a);
            }
            proof {
                assert(kept@ =~= done.push(*a).to_set().filter(p));
                assert(it.seq().take(it.seq().len() as int) =~= it.seq());
                assert(all.filter(p) =~= it.seq().unref().to_set().filter(p));
            }
        }
        self.attempted = kept;
    }
}

/// Whether two image lists are equal.
fn same_images(a: &Vec<LoadedImage>, b: &Vec<LoadedImage>) -> (r: bool)
    ensures
        r == (image_views(a@) == image_views(b@)),
{
    if a.len() != b.len() {
        assert(image_views(a@).len() != image_views(b@).len());
        return false;
    }
    let mut i: usize = 0;
    while i < a.len()
        invariant
            a@.len() == b@.len(),
            i <= a@.len(),
            forall|j: int| 0 <= j < i ==> image_view(#[trigger] a@[j]) == image_view(b@[j]),
        decreases a@.len() - i,
    {
        if a[i].load_address != b[i].load_address || compare_str(a[i].path.as_str(), b[i].path.as_str()) != 0 {
            proof {
                crate::text::lemma_chars_order(a@[i as int].path@, b@[i as int].path@);
                assert(image_views(a@)[i as int] != image_views(b@)[i as int]);
            }
            return false;
        }
        proof {
            crate::text::lemma_chars_order(a@[i as int].path@, b@[i as int].path@);
        }
        i = i + 1;
    }
    assert(image_views(a@) =~= image_views(b@));
    true
}

impl Symbolizer for NativeSymbolizer {
    /// The resolution recorded for `address`, if any.
    open spec fn answers(&self, address: u64, answer: Option<FrameInfo>) -> bool {
        match answer {
            Some(info) => self@.resolved.contains_key(address) && info@ == self@.resolved[address],
            None => !self@.resolved.contains_key(address),
        }
    }

    fn symbolize_frame(&self, address: u64) -> (r: Option<FrameInfo>)
        ensures
            match r {
                Some(info) => self@.resolved.contains_key(address) && info@ == self@.resolved[address],
                None => !self@.resolved.contains_key(address),
            },
    {
        match self.resolved.get(&address) {
            Some(info) => Some(FrameInfo { function: info.function.clone(), file: info.file.clone(), line: info.line }),
            None => None,
        }
    }
}


// ---------------------------------------------------------------------------
// Decisions of native resolution
// ---------------------------------------------------------------------------

/// Paths of the macOS dyld shared cache: such images are not files on disk
/// (macOS 12+), so failing to open them is expected.
pub open spec fn is_system_cache_path_of(path: Seq<char>) -> bool {
    has_prefix(path, "/usr/lib/"@) || has_prefix(path, "/System/Library/"@)
}

/// Whether `path` lives in the macOS dyld shared cache rather than on disk.
pub fn is_system_cache_path(path: &str) -> (r: bool)
    ensures
        r == is_system_cache_path_of(path@),
{
    starts_with(path, "/usr/lib/") || starts_with(path, "/System/Library/")
}

/// The file address that runtime address `addr` corresponds to, for an image
/// loaded at `load_address` whose text segment starts at `text_vmaddr` in the
/// file (modulo 2^64).
pub open spec fn file_address_of(addr: u64, load_address: u64, text_vmaddr: u64) -> u64 {
    ((addr as int - load_address as int + text_vmaddr as int) % 0x1_0000_0000_0000_0000) as u64
}

/// The file address of runtime address `addr` (wrapping arithmetic).
pub fn file_address(addr: u64, load_address: u64, text_vmaddr: u64) -> (r: u64)
    ensures
        r == file_address_of(addr, load_address, text_vmaddr),
{
    let offset: u64 = if addr >= load_address {
        addr - load_address
    } else {
        (0xffff_ffff_ffff_ffffu64 - (load_address - addr)) + 1
    };
    let r: u64 = if offset <= 0xffff_ffff_ffff_ffffu64 - text_vmaddr {
        offset + text_vmaddr
    } else {
        text_vmaddr - (0xffff_ffff_ffff_ffffu64 - offset) - 1
    };
    r
}

/// Segments (name, if readable, and address) as values.
pub open spec fn segment_views(v: Seq<(Option<String>, u64)>) -> Seq<(Option<Seq<char>>, u64)> {
    v.map_values(|e: (Option<String>, u64)| (match e.0 {
        Some(n) => Some(n@),
        None => None,
    }, e.1))
}

/// Symbols (address and name) as values.
pub open spec fn symbol_views(v: Seq<(u64, String)>) -> Seq<(u64, Seq<char>)> {
    v.map_values(|e: (u64, String)| (e.0, e.1@))
}

/// The address of the first segment named `__TEXT`.
pub open spec fn first_text_segment(segments: Seq<(Option<Seq<char>>, u64)>) -> Option<u64>
    decreases segments.len(),
{
    if segments.len() == 0 {
        None
    } else if segments[0].0 == Some("__TEXT"@) {
        Some(segments[0].1)
    } else {
        first_text_segment(segments.drop_first())
    }
}

/// The lowest segment address, or 0 without segments.
pub open spec fn lowest_segment(segments: Seq<(Option<Seq<char>>, u64)>) -> u64
    decreases segments.len(),
{
    if segments.len() == 0 {
        0
    } else if segments.len() == 1 {
        segments[0].1
    } else {
        let rest = lowest_segment(segments.drop_first());
        if segments[0].1 <= rest {
            segments[0].1
        } else {
            rest
        }
    }
}

/// The preferred address of an object's text segment: the first segment
/// named `__TEXT`, else the lowest segment address, else 0.
pub open spec fn text_vmaddr_of(segments: Seq<(Option<Seq<char>>, u64)>) -> u64 {
    match first_text_segment(segments) {
        Some(a) => a,
        None => lowest_segment(segments),
    }
}

/// The preferred address of the text segment among an object's segments
/// (name, if readable, and address).
pub fn text_segment_vmaddr(segments: &Vec<(Option<String>, u64)>) -> (r: u64)
    ensures
        r == text_vmaddr_of(segment_views(segments@)),
{
    let ghost views = segment_views(segments@);
    proof {
        reveal_strlit("__TEXT");
        assert(views.skip(0) =~= views);
    }
    let mut i: usize = 0;
    while i < segments.len()
        invariant
            views == segment_views(segments@),
            i <= segments@.len(),
            first_text_segment(views) == first_text_segment(views.skip(i as int)),
        decreases segments@.len() - i,
    {
        proof {
            assert(views.skip(i as int).drop_first() =~= views.skip(i + 1));
        }
        let is_text = match &segments[i].0 {
            Some(name) => {
                let c = compare_str(name.as_str(), "__TEXT");
                proof {
                    crate::text::lemma_chars_order(name@, "__TEXT"@);
                }
                c == 0
            },
            None => false,
        };
        if is_text {
            return segments[i].1;
        }
        i = i + 1;
    }
    proof {
        assert(views.skip(i as int).len() == 0);
    }
    if segments.len() == 0 {
        return 0;
    }
    let mut k: usize = segments.len() - 1;
    let mut low: u64 = segments[k].1;
    proof {
        assert(views.skip(k as int).drop_first().len() == 0);
    }
    while k > 0
        invariant
            views == segment_views(segments@),
            k < segments@.len(),
            low == lowest_segment(views.skip(k as int)),
        decreases k,
    {
        proof {
            assert(views.skip(k - 1).drop_first() =~= views.skip(k as int));
        }
        let a = segments[k - 1].1;
        if a <= low {
            low = a;
        }
        k = k - 1;
    }
    proof {
        assert(views.skip(0) =~= views);
    }
    low
}

/// The symbol chosen for file address `file_addr`: among the symbols with a
/// non-zero address at most `file_addr` and a non-empty name, the one with
/// the highest address (the first of those when several share it).
pub open spec fn best_symbol_of(symbols: Seq<(u64, Seq<char>)>, file_addr: u64) -> Option<Seq<char>>
    decreases symbols.len(),
{
    if symbols.len() == 0 {
        None
    } else {
        let before = best_symbol_of(symbols.drop_last(), file_addr);
        let (addr, name) = symbols.last();
        if addr == 0 || addr > file_addr || name.len() == 0 {
            before
        } else {
            match best_symbol_address(symbols.drop_last(), file_addr) {
                Some(best) => if addr > best {
                    Some(name)
                } else {
                    before
                },
                None => Some(name),
            }
        }
    }
}

/// The address of the symbol `best_symbol_of` chooses.
pub open spec fn best_symbol_address(symbols: Seq<(u64, Seq<char>)>, file_addr: u64) -> Option<u64>
    decreases symbols.len(),
{
    if symbols.len() == 0 {
        None
    } else {
        let before = best_symbol_address(symbols.drop_last(), file_addr);
        let (addr, name) = symbols.last();
        if addr == 0 || addr > file_addr || name.len() == 0 {
            before
        } else {
            match before {
                Some(best) => if addr > best {
                    Some(addr)
                } else {
                    before
                },
                None => Some(addr),
            }
        }
    }
}

/// Symbol `i` of `symbols` can name file address `file_addr`: its address
/// is non-zero and at most `file_addr`, and its name is not empty.
pub open spec fn symbol_covers(symbols: Seq<(u64, Seq<char>)>, i: int, file_addr: u64) -> bool {
    &&& 0 <= i < symbols.len()
    &&& symbols[i].0 != 0
    &&& symbols[i].0 <= file_addr
    &&& symbols[i].1.len() > 0
}

proof fn lemma_best_symbol_choice(symbols: Seq<(u64, Seq<char>)>, file_addr: u64)
    ensures
        best_symbol_address(symbols, file_addr) is None <==> best_symbol_of(symbols, file_addr) is None,
        best_symbol_address(symbols, file_addr) is None ==> forall|j: int| !#[trigger] symbol_covers(symbols, j, file_addr),
        best_symbol_address(symbols, file_addr) matches Some(a) ==> exists|i: int| {
            &&& #[trigger] symbol_covers(symbols, i, file_addr)
            &&& symbols[i].0 == a
            &&& best_symbol_of(symbols, file_addr) == Some(symbols[i].1)
            &&& forall|j: int| #[trigger] symbol_covers(symbols, j, file_addr) ==> symbols[j].0 <= a
            &&& forall|j: int| 0 <= j < i && #[trigger] symbol_covers(symbols, j, file_addr) ==> symbols[j].0 < a
        },
    decreases symbols.len(),
{
    if symbols.len() > 0 {
        let init = symbols.drop_last();
        let n = symbols.len() - 1;
        lemma_best_symbol_choice(init, file_addr);
        assert forall|j: int| 0 <= j < n implies symbol_covers(symbols, j, file_addr) == symbol_covers(init, j, file_addr) by {
            assert(init[j] == symbols[j]);
        }
        if let Some(a) = best_symbol_address(init, file_addr) {
            let i = choose|i: int| {
                &&& #[trigger] symbol_covers(init, i, file_addr)
                &&& init[i].0 == a
                &&& best_symbol_of(init, file_addr) == Some(init[i].1)
                &&& forall|j: int| #[trigger] symbol_covers(init, j, file_addr) ==> init[j].0 <= a
                &&& forall|j: int| 0 <= j < i && #[trigger] symbol_covers(init, j, file_addr) ==> init[j].0 < a
            };
            assert(symbol_covers(symbols, i, file_addr));
            if symbol_covers(symbols, n, file_addr) && symbols[n].0 > a {
                assert(symbol_covers(symbols, n, file_addr));
            }
        } else {
            if symbol_covers(symbols, n, file_addr) {
                assert(symbol_covers(symbols, n, file_addr));
            }
        }
    }
}

/// The symbol chosen for a file address is the one with the highest address
/// among the symbols that can name it (non-zero address at most the file
/// address, non-empty name), the first in table order among those at that
/// address, whatever order the table is in; none is chosen only when no
/// symbol can name the address.
pub proof fn lemma_best_symbol_is_highest(symbols: Seq<(u64, Seq<char>)>, file_addr: u64)
    ensures
        best_symbol_of(symbols, file_addr) is None ==> forall|j: int| !#[trigger] symbol_covers(symbols, j, file_addr),
        best_symbol_of(symbols, file_addr) matches Some(name) ==> exists|i: int| {
            &&& #[trigger] symbol_covers(symbols, i, file_addr)
            &&& symbols[i].1 == name
            &&& forall|j: int| #[trigger] symbol_covers(symbols, j, file_addr) ==> symbols[j].0 <= symbols[i].0
            &&& forall|j: int| 0 <= j < i && #[trigger] symbol_covers(symbols, j, file_addr) ==> symbols[j].0 < symbols[i].0
        },
{
    lemma_best_symbol_choice(symbols, file_addr);
}

/// The name of the symbol that covers `file_addr` (see `best_symbol_of`).
pub fn best_symbol(symbols: &Vec<(u64, String)>, file_addr: u64) -> (r: Option<String>)
    ensures
        match best_symbol_of(symbol_views(symbols@), file_addr) {
            Some(name) => r matches Some(s) && s@ == name,
            None => r is None,
        },
{
    let ghost views = symbol_views(symbols@);
    let mut best: Option<(u64, usize)> = None;
    let mut i: usize = 0;
    while i < symbols.len()
        invariant
            views == symbol_views(symbols@),
            i <= symbols@.len(),
            match best {
                Some((a, k)) => k < i && best_symbol_address(views.take(i as int), file_addr) == Some(a)
                    && best_symbol_of(views.take(i as int), file_addr) == Some(views[k as int].1),
                None => best_symbol_address(views.take(i as int), file_addr) is None
                    && best_symbol_of(views.take(i as int), file_addr) is None,
            },
        decreases symbols@.len() - i,
    {
        proof {
            assert(views.take(i + 1).drop_last() =~= views.take(i as int));
            assert(views.take(i + 1).last() == views[i as int]);
        }
        let addr = symbols[i].0;
        let empty = symbols[i].1.as_str().is_empty();
        if !(addr == 0 || addr > file_addr || empty) {
            match best {
                Some((b, _)) => {
                    if addr > b {
                        best = Some((addr, i));
                    }
                },
                None => {
                    best = Some((addr, i));
                },
            }
        }
        i = i + 1;
    }
    proof {
        assert(views.take(i as int) =~= views);
    }
    match best {
        Some((_, k)) => Some(symbols[k].1.clone()),
        None => None,
    }
}

/// What `symbolic_demangle::demangle` makes of a symbol name.
pub uninterp spec fn demangled(name: Seq<char>) -> Seq<char>;

/// Demangles a symbol name with `symbolic_demangle::demangle` (the name
/// itself when it is not a mangled name it knows); the result depends on the
/// name alone and is named `demangled`.
#[verifier::external_body]
pub(crate) fn demangle(name: &str) -> (r: String)
    ensures
        r@ == demangled(name@),
{
    symbolic_demangle::demangle(name).to_string()
}

/// The resolution of `file_addr` through an object's symbol table: the
/// demangled name of the covering symbol, without source location.
pub fn resolve_via_symbol_table(symbols: &Vec<(u64, String)>, file_addr: u64) -> (r: Option<SymbolInfo>)
    ensures
        match best_symbol_of(symbol_views(symbols@), file_addr) {
            Some(name) => r matches Some(info) && info@ == (demangled(name), Seq::<char>::empty(), 0u32),
            None => r is None,
        },
{
    match best_symbol(symbols, file_addr) {
        Some(name) => Some(SymbolInfo { function: demangle(name.as_str()), file: String::new(), line: 0 }),
        None => None,
    }
}

/// The image that contains `addr`, among images sorted by load address and
/// given with the length of their object data: the last image loaded at or
/// below `addr`, when `addr` lies within its object data.
pub open spec fn image_index_of(images: Seq<(u64, u64)>, addr: u64) -> Option<nat> {
    let below = images.filter(|i: (u64, u64)| i.0 <= addr).len();
    if below == 0 {
        None
    } else if (addr - images[below - 1].0) < images[below - 1].1 {
        Some((below - 1) as nat)
    } else {
        None
    }
}

/// The index of the image whose object data holds `addr` (see
/// `image_index_of`); `images` are `(load address, object length)` pairs
/// sorted by load address.
pub fn image_index_for_address(images: &Vec<(u64, u64)>, addr: u64) -> (r: Option<usize>)
    requires
        forall|i: int, j: int| 0 <= i < j < images@.len() ==> images@[i].0 <= images@[j].0,
    ensures
        match image_index_of(images@, addr) {
            Some(i) => r == Some(i as usize),
            None => r is None,
        },
        r matches Some(i) ==> image_index_of(images@, addr) == Some(i as nat),
{
    let mut below: usize = 0;
    while below < images.len() && images[below].0 <= addr
        invariant
            below <= images@.len(),
            forall|i: int, j: int| 0 <= i < j < images@.len() ==> images@[i].0 <= images@[j].0,
            forall|j: int| 0 <= j < below ==> images@[j].0 <= addr,
        decreases images@.len() - below,
    {
        below = below + 1;
    }
    proof {
        let p = |i: (u64, u64)| i.0 <= addr;
        assert(images@ =~= images@.take(below as int) + images@.skip(below as int));
        Seq::filter_distributes_over_add(images@.take(below as int), images@.skip(below as int), p);
        images@.take(below as int).filter_lemma(p);
        images@.skip(below as int).filter_lemma(p);
        lemma_filter_all(images@.take(below as int), p);
        assert forall|i: int| 0 <= i < images@.skip(below as int).len() implies !p(#[trigger] images@.skip(below as int)[i]) by {
            assert(images@.skip(below as int)[i] == images@[below + i]);
            assert(images@[below as int].0 > addr);
            assert(images@[below as int].0 <= images@[below + i].0);
        }
        lemma_filter_none(images@.skip(below as int), p);
    }
    if below == 0 {
        return None;
    }
    let (load, len) = images[below - 1];
    if addr - load < len {
        Some(below - 1)
    } else {
        None
    }
}

proof fn lemma_filter_all<A>(s: Seq<A>, p: spec_fn(A) -> bool)
    requires
        forall|i: int| 0 <= i < s.len() ==> p(#[trigger] s[i]),
    ensures
        s.filter(p) == s,
    decreases s.len(),
{
    reveal(Seq::filter);
    if s.len() > 0 {
        lemma_filter_all(s.drop_last(), p);
        assert(s.drop_last().push(s.last()) =~= s);
    }
}

proof fn lemma_filter_none<A>(s: Seq<A>, p: spec_fn(A) -> bool)
    requires
        forall|i: int| 0 <= i < s.len() ==> !p(#[trigger] s[i]),
    ensures
        s.filter(p).len() == 0,
    decreases s.len(),
{
    reveal(Seq::filter);
    if s.len() > 0 {
        lemma_filter_none(s.drop_last(), p);
        assert(!p(s.last()));
    }
}

} // verus!
