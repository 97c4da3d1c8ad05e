//! Process listing: which processes a profiler may attach to, and the
//! pieces of the system's process records the listing is made of.

use vstd::prelude::*;

use crate::sampler::chars_of;
use crate::sampler::linux::{lossy_string, utf8_lossy};
use crate::sorting::{lemma_map_multiset, sort_by_rank, total_preorder};
use crate::text::{chars_lt, format_i64, decimal};
use vstd::relations::sorted_by;
use crate::text::{compare_str, lemma_chars_order, parse_unsigned_of, split_words, words};

verus! {

/// One process of the current user, as listed for attaching.
#[derive(Debug, Clone, PartialEq, Eq)]
pub struct ProcessInfo {
    pub pid: u32,
    pub parent_pid: u32,
    pub uid: u32,
    pub name: String,
    pub executable_path: Option<String>,
    pub start_time_micros: u64,
    pub architecture: String,
    pub attachable: bool,
    pub attachability_reason: Option<String>,
}

/// Whether a profiler may attach to a process, and why not.
#[derive(Debug, Clone, PartialEq, Eq)]
pub struct Attachability {
    pub attachable: bool,
    pub reason: Option<String>,
}

/// Code-signing flag: the process allows a debugger to take its task port.
pub const CS_GET_TASK_ALLOW: u32 = 0x0000_0004;
/// Code-signing flag: the hardened runtime is enabled.
pub const CS_RUNTIME: u32 = 0x0001_0000;
/// Code-signing flag: the process is an Apple platform binary.
pub const CS_PLATFORM_BINARY: u32 = 0x0400_0000;

/// The reason given for a protected process.
pub open spec fn protected_reason() -> Seq<char> {
    "Protected by macOS: this process does not allow debugging"@
}

/// A process is protected when it runs hardened or as a platform binary
/// without allowing debugging.
pub open spec fn is_protected(flags: u32) -> bool {
    (flags & (CS_RUNTIME | CS_PLATFORM_BINARY)) != 0 && (flags & CS_GET_TASK_ALLOW) == 0
}

/// Whether a process with these code-signing flags can be attached to.
pub fn classify_attachability(code_signing_flags: u32) -> (r: Attachability)
    ensures
        r.attachable == !is_protected(code_signing_flags),
        is_protected(code_signing_flags) ==> (r.reason matches Some(s) && s@ == protected_reason()),
        !is_protected(code_signing_flags) ==> r.reason is None,
{
    let target_allows_debugging = code_signing_flags & CS_GET_TASK_ALLOW != 0;
    let target_is_protected = code_signing_flags & (CS_RUNTIME | CS_PLATFORM_BINARY) != 0;
    if target_is_protected && !target_allows_debugging {
        proof {
            reveal_strlit("Protected by macOS: this process does not allow debugging");
        }
        Attachability {
            attachable: false,
            reason: Some(
                <String as vstd::string::StringExecFns>::from_str(
                    "Protected by macOS: this process does not allow debugging",
                ),
            ),
        }
    } else {
        Attachability { attachable: true, reason: None }
    }
}

/// The architectures a helper can be built for.
pub open spec fn is_known_arch(s: Seq<char>) -> bool {
    s == "arm64"@ || s == "x86_64"@
}

/// The architecture a relay helper must run as to sample `target` from a
/// profiler running as `current`: `target` when it is a known architecture
/// other than `current`, else none.
pub fn required_helper_arch<'a>(current: &str, target: &'a str) -> (r: Option<&'a str>)
    ensures
        (is_known_arch(target@) && target@ != current@) ==> r == Some(target),
        !(is_known_arch(target@) && target@ != current@) ==> r is None,
{
    proof {
        reveal_strlit("arm64");
        reveal_strlit("x86_64");
        lemma_chars_order(target@, "arm64"@);
        lemma_chars_order(target@, "x86_64"@);
        lemma_chars_order(target@, current@);
    }
    let known = compare_str(target, "arm64") == 0 || compare_str(target, "x86_64") == 0;
    if known && compare_str(target, current) != 0 {
        Some(target)
    } else {
        None
    }
}

/// The architecture named by a Mach-O CPU type.
pub open spec fn cpu_arch_name(cpu_type: i32) -> Seq<char> {
    if cpu_type == 0x0100_000c {
        "arm64"@
    } else if cpu_type == 0x0100_0007 {
        "x86_64"@
    } else {
        "unknown"@
    }
}

/// The architecture named by a Mach-O CPU type (`arm64`, `x86_64`, or
/// `unknown`).
pub fn cpu_architecture(cpu_type: i32) -> (r: &'static str)
    ensures
        r@ == cpu_arch_name(cpu_type),
{
    proof {
        reveal_strlit("arm64");
        reveal_strlit("x86_64");
        reveal_strlit("unknown");
    }
    if cpu_type == 0x0100_000c {
        "arm64"
    } else if cpu_type == 0x0100_0007 {
        "x86_64"
    } else {
        "unknown"
    }
}

/// `a * 1_000_000 + b` in microseconds, saturating at `u64::MAX`.
pub open spec fn start_micros_of(seconds: u64, micros: u64) -> u64 {
    let scaled = if seconds * 1_000_000 > u64::MAX {
        u64::MAX
    } else {
        (seconds * 1_000_000) as u64
    };
    if scaled + micros > u64::MAX {
        u64::MAX
    } else {
        (scaled + micros) as u64
    }
}

/// A process start time in microseconds from its seconds and microseconds
/// parts, saturating.
pub fn start_time_micros(seconds: u64, micros: u64) -> (r: u64)
    ensures
        r == start_micros_of(seconds, micros),
{
    let scaled = if seconds > u64::MAX / 1_000_000 {
        u64::MAX
    } else {
        seconds * 1_000_000
    };
    if scaled > u64::MAX - micros {
        u64::MAX
    } else {
        scaled + micros
    }
}

/// The architecture recorded in an ELF header's first twenty bytes: `None`
/// without the ELF magic or with an unknown data encoding.
pub open spec fn elf_arch_of(header: Seq<u8>) -> Option<Seq<char>> {
    if header.len() < 20 || header[0] != 0x7f || header[1] != 0x45 || header[2] != 0x4c || header[3] != 0x46 {
        None
    } else {
        let machine: int = if header[5] == 1 {
            header[18] + 256 * header[19]
        } else if header[5] == 2 {
            256 * header[18] + header[19]
        } else {
            -1
        };
        if machine < 0 {
            None
        } else if machine == 62 {
            Some("x86_64"@)
        } else if machine == 183 {
            Some("arm64"@)
        } else {
            Some("unknown"@)
        }
    }
}

/// The architecture of an ELF executable from its first twenty bytes.
pub fn elf_architecture(header: &[u8]) -> (r: Option<&'static str>)
    ensures
        match elf_arch_of(header@) {
            Some(name) => r matches Some(s) && s@ == name,
            None => r is None,
        },
{
    proof {
        reveal_strlit("arm64");
        reveal_strlit("x86_64");
        reveal_strlit("unknown");
    }
    if header.len() < 20 || header[0] != 0x7f || header[1] != 0x45 || header[2] != 0x4c || header[3] != 0x46 {
        return None;
    }
    let machine: u32 = if header[5] == 1 {
        header[18] as u32 + 256 * (header[19] as u32)
    } else if header[5] == 2 {
        256 * (header[18] as u32) + header[19] as u32
    } else {
        return None;
    };
    if machine == 62 {
        Some("x86_64")
    } else if machine == 183 {
        Some("arm64")
    } else {
        Some("unknown")
    }
}

/// The index of the first occurrence of `c` in `s`.
pub open spec fn first_index_of_char(s: Seq<char>, c: char) -> Option<int>
    decreases s.len(),
{
    if s.len() == 0 {
        None
    } else if s[0] == c {
        Some(0)
    } else {
        match first_index_of_char(s.drop_first(), c) {
            Some(i) => Some(i + 1),
            None => None,
        }
    }
}

/// The index of the last occurrence of `c` in `s`.
pub open spec fn last_index_of_char(s: Seq<char>, c: char) -> Option<int>
    decreases s.len(),
{
    if s.len() == 0 {
        None
    } else if s.last() == c {
        Some(s.len() - 1)
    } else {
        last_index_of_char(s.drop_last(), c)
    }
}

proof fn lemma_first_char(s: Seq<char>, c: char, i: int)
    requires
        0 <= i <= s.len(),
        forall|j: int| 0 <= j < i ==> s[j] != c,
    ensures
        i < s.len() && s[i] == c ==> first_index_of_char(s, c) == Some(i),
        i == s.len() ==> first_index_of_char(s, c) is None,
    decreases i,
{
    if i > 0 {
        lemma_first_char(s.drop_first(), c, i - 1);
    }
}

proof fn lemma_last_char(s: Seq<char>, c: char, i: int)
    requires
        0 <= i <= s.len(),
        forall|j: int| i <= j < s.len() ==> s[j] != c,
    ensures
        last_index_of_char(s, c) == last_index_of_char(s.take(i), c),
    decreases s.len() - i,
{
    if i < s.len() {
        assert(s.drop_last().take(i) =~= s.take(i));
        lemma_last_char(s.drop_last(), c, i);
    } else {
        assert(s.take(i) =~= s);
    }
}

/// A position found for `c` lies in `s` and holds `c`.
pub proof fn lemma_index_bounds(s: Seq<char>, c: char)
    ensures
        first_index_of_char(s, c) matches Some(i) ==> 0 <= i < s.len() && s[i] == c,
        last_index_of_char(s, c) matches Some(i) ==> 0 <= i < s.len() && s[i] == c,
    decreases s.len(),
{
    if s.len() > 0 {
        lemma_index_bounds(s.drop_first(), c);
        lemma_index_bounds(s.drop_last(), c);
    }
}

/// What a `/proc/<pid>/stat` line gives: the command name (between the
/// first `(` and the last `)`), the parent pid (the second field after the
/// name) and the start time in microseconds (the twentieth field, in clock
/// ticks, scaled saturating and divided by the ticks per second).
pub open spec fn stat_of(stat: Seq<char>, ticks_per_second: u64) -> Option<(Seq<char>, u32, u64)> {
    match (first_index_of_char(stat, '('), last_index_of_char(stat, ')')) {
        (Some(open), Some(close)) => if open + 1 > close || close + 2 > stat.len() {
            None
        } else {
            let fields = words(stat.skip(close + 2));
            if fields.len() < 20 {
                None
            } else {
                match (parse_unsigned_of(fields[1], 10, u32::MAX as nat), parse_unsigned_of(fields[19], 10, u64::MAX as nat)) {
                    (Some(ppid), Some(ticks)) => if ticks_per_second == 0 {
                        None
                    } else {
                        let scaled: nat = if ticks * 1_000_000 > u64::MAX {
                            u64::MAX as nat
                        } else {
                            ticks * 1_000_000
                        };
                        Some((stat.subrange(open + 1, close), ppid as u32, (scaled / (ticks_per_second as nat)) as u64))
                    },
                    _ => None,
                }
            }
        },
        _ => None,
    }
}

pub fn find_first(chars: &Vec<char>, c: char) -> (r: Option<usize>)
    ensures
        match first_index_of_char(chars@, c) {
            Some(i) => r == Some(i as usize),
            None => r is None,
        },
{
    let mut i: usize = 0;
    while i < chars.len()
        invariant
            i <= chars@.len(),
            forall|j: int| 0 <= j < i ==> chars@[j] != c,
        decreases chars@.len() - i,
    {
        if chars[i] == c {
            proof {
                lemma_first_char(chars@, c, i as int);
            }
            return Some(i);
        }
        i = i + 1;
    }
    proof {
        lemma_first_char(chars@, c, i as int);
    }
    None
}

fn find_last(chars: &Vec<char>, c: char) -> (r: Option<usize>)
    ensures
        match last_index_of_char(chars@, c) {
            Some(i) => r == Some(i as usize),
            None => r is None,
        },
{
    let mut i: usize = chars.len();
    while i > 0
        invariant
            i <= chars@.len(),
            forall|j: int| i <= j < chars@.len() ==> chars@[j] != c,
        decreases i,
    {
        if chars[i - 1] == c {
            proof {
                lemma_last_char(chars@, c, i as int);
            }
            return Some(i - 1);
        }
        i = i - 1;
    }
    proof {
        lemma_last_char(chars@, c, 0);
    }
    None
}

#[verifier::rlimit(60)]
/// Parses a `/proc/<pid>/stat` line into the command name, the parent pid
/// and the start time in microseconds (see `stat_of`).
pub fn parse_stat(stat: &str, ticks_per_second: u64) -> (r: Option<(String, u32, u64)>)
    ensures
        match stat_of(stat@, ticks_per_second) {
            Some((name, ppid, start)) => r matches Some(v) && v.0@ == name && v.1 == ppid && v.2 == start,
            None => r is None,
        },
{
    let chars = chars_of(stat);
    let open = match find_first(&chars, '(') {
        Some(i) => i,
        None => return None,
    };
    let close = match find_last(&chars, ')') {
        Some(i) => i,
        None => return None,
    };
    assert(chars@.len() == chars.len());
    proof {
        lemma_index_bounds(chars@, '(');
        lemma_index_bounds(chars@, ')');
    }
    if open >= close || close + 1 >= chars.len() {
        return None;
    }
    let mut name_chars: Vec<char> = Vec::new();
    let mut k: usize = open + 1;
    while k < close
        invariant
            open + 1 <= k <= close < chars@.len(),
            name_chars@ == chars@.subrange(open + 1, k as int),
        decreases close - k,
    {
        name_chars.push(chars[k]);
        k = k + 1;
        assert(name_chars@ =~= chars@.subrange(open + 1, k as int));
    }
    let mut rest: Vec<char> = Vec::new();
    let mut j: usize = close + 2;
    while j < chars.len()
        invariant
            close + 2 <= j <= chars@.len(),
            rest@ == chars@.subrange(close + 2, j as int),
        decreases chars@.len() - j,
    {
        rest.push(chars[j]);
        j = j + 1;
        assert(rest@ =~= chars@.subrange(close + 2, j as int));
    }
    assert(rest@ =~= stat@.skip(close + 2));
    let fields = split_words(&rest);
    if fields.len() < 20 {
        return None;
    }
    proof {
        assert(fields@[1]@ == words(rest@)[1]);
        assert(fields@[19]@ == words(rest@)[19]);
    }
    let parent = crate::text::parse_unsigned(crate::text::collect_chars(copy_chars(&fields[1])).as_str(), 10, u32::MAX as u64);
    let ticks = crate::text::parse_unsigned(crate::text::collect_chars(copy_chars(&fields[19])).as_str(), 10, u64::MAX);
    match (parent, ticks) {
        (Some(ppid), Some(t)) => {
            if ticks_per_second == 0 {
                return None;
            }
            let scaled = if t > u64::MAX / 1_000_000 {
                u64::MAX
            } else {
                t * 1_000_000
            };
            Some((crate::text::collect_chars(name_chars), ppid as u32, scaled / ticks_per_second))
        },
        _ => None,
    }
}

fn copy_chars(v: &Vec<char>) -> (r: Vec<char>)
    ensures
        r@ == v@,
{
    let mut out: Vec<char> = Vec::new();
    let mut i: usize = 0;
    while i < v.len()
        invariant
            i <= v@.len(),
            out@ == v@.take(i as int),
        decreases v@.len() - i,
    {
        out.push(v[i]);
        i = i + 1;
        assert(out@ =~= v@.take(i as int));
    }
    assert(v@.take(i as int) =~= v@);
    out
}

// ---------------------------------------------------------------------------
// Process names
// ---------------------------------------------------------------------------

/// How many bytes come before the first NUL (all of them, without one).
pub open spec fn nul_position(b: Seq<u8>) -> nat
    decreases b.len(),
{
    if b.len() == 0 || b[0] == 0 {
        0
    } else {
        1 + nul_position(b.drop_first())
    }
}

proof fn lemma_nul_position(b: Seq<u8>, i: int)
    requires
        0 <= i <= b.len(),
        forall|k: int| 0 <= k < i ==> b[k] != 0,
        i < b.len() ==> b[i] == 0,
    ensures
        nul_position(b) == i,
    decreases i,
{
    if i > 0 {
        let t = b.drop_first();
        assert forall|k: int| 0 <= k < i - 1 implies t[k] != 0 by {
            assert(t[k] == b[k + 1]);
        }
        lemma_nul_position(t, i - 1);
    }
}

/// A NUL-terminated C character array as text: the bytes before the first
/// NUL, decoded lossily, or `None` when there are none.
pub fn c_char_array(value: &[u8]) -> (r: Option<String>)
    ensures
        nul_position(value@) == 0 ==> r is None,
        nul_position(value@) > 0 ==> (r matches Some(s) && s@ == utf8_lossy(value@.take(nul_position(value@) as int))),
{
    let mut bytes: Vec<u8> = Vec::new();
    let mut i: usize = 0;
    while i < value.len() && value[i] != 0
        invariant
            i <= value@.len(),
            bytes@ == value@.take(i as int),
            forall|k: int| 0 <= k < i ==> value@[k] != 0,
        decreases value@.len() - i,
    {
        bytes.push(value[i]);
        i = i + 1;
        assert(bytes@ =~= value@.take(i as int));
    }
    proof {
        lemma_nul_position(value@, i as int);
    }
    if bytes.len() == 0 {
        None
    } else {
        Some(lossy_string(bytes.as_slice()))
    }
}

/// The name listed for a process: its name field, else its command field
/// (each as `c_char_array` reads it), else its pid in decimal.
pub fn process_name(name: &[u8], comm: &[u8], pid: i32) -> (r: String)
    ensures
        nul_position(name@) > 0 ==> r@ == utf8_lossy(name@.take(nul_position(name@) as int)),
        nul_position(name@) == 0 && nul_position(comm@) > 0 ==> r@ == utf8_lossy(
            comm@.take(nul_position(comm@) as int),
        ),
        nul_position(name@) == 0 && nul_position(comm@) == 0 ==> r@ == decimal(pid as int),
{
    match c_char_array(name) {
        Some(s) => s,
        None => match c_char_array(comm) {
            Some(s) => s,
            None => format_i64(pid as i64),
        },
    }
}

// ---------------------------------------------------------------------------
// Listing order
// ---------------------------------------------------------------------------

/// What `str::to_lowercase` makes of `s`.
pub uninterp spec fn lowercase_of(s: Seq<char>) -> Seq<char>;

/// `str::to_lowercase`: the Unicode lowercase mapping of the text, a
/// function of the text alone, named `lowercase_of`.
#[verifier::external_body]
fn lowercase(s: &str) -> (r: String)
    ensures
        r@ == lowercase_of(s@),
{
    s.to_lowercase()
}

/// Processes are listed by lowercased name, then by pid.
pub open spec fn process_le(a: ProcessInfo, b: ProcessInfo) -> bool {
    ||| chars_lt(lowercase_of(a.name@), lowercase_of(b.name@))
    ||| (lowercase_of(a.name@) == lowercase_of(b.name@) && a.pid <= b.pid)
}

/// A process beside its lowercased name: by that name, then by pid.
pub open spec fn keyed_le() -> spec_fn((String, ProcessInfo), (String, ProcessInfo)) -> bool {
    |a: (String, ProcessInfo), b: (String, ProcessInfo)|
        chars_lt(a.0@, b.0@) || (a.0@ == b.0@ && a.1.pid <= b.1.pid)
}

proof fn lemma_keyed_le_total_preorder()
    ensures
        total_preorder(keyed_le()),
{
    lemma_chars_order(Seq::empty(), Seq::empty());
    let le = keyed_le();
    let lt = |x: Seq<char>, y: Seq<char>| chars_lt(x, y);
    assert forall|a: (String, ProcessInfo)| #[trigger] le(a, a) by {
        assert(!lt(a.0@, a.0@));
    }
    assert forall|a: (String, ProcessInfo), b: (String, ProcessInfo), c: (String, ProcessInfo)|
        #[trigger] le(a, b) && #[trigger] le(b, c) implies le(a, c) by {
        assert(lt(a.0@, b.0@) || a.0@ == b.0@);
        assert(lt(b.0@, c.0@) || b.0@ == c.0@);
        if lt(a.0@, b.0@) && lt(b.0@, c.0@) {
            assert(lt(a.0@, c.0@));
        }
    }
    assert forall|a: (String, ProcessInfo), b: (String, ProcessInfo)| #[trigger] le(a, b) || le(b, a) by {
        if a.0@ != b.0@ {
            assert(lt(a.0@, b.0@) || lt(b.0@, a.0@));
        }
    }
    assert(vstd::relations::reflexive(le));
    assert(vstd::relations::transitive(le));
    assert(vstd::relations::strongly_connected(le));
}

/// The second part of each pair.
pub open spec fn second_of() -> spec_fn((String, ProcessInfo)) -> ProcessInfo {
    |e: (String, ProcessInfo)| e.1
}

/// The processes in listing order: by lowercased name, then by pid.
pub fn order_processes(processes: Vec<ProcessInfo>) -> (r: Vec<ProcessInfo>)
    ensures
        r@.to_multiset() == processes@.to_multiset(),
        forall|i: int, j: int| 0 <= i < j < r@.len() ==> process_le(r@[i], r@[j]),
{
    broadcast use vstd::seq_lib::group_to_multiset_ensures;

    let ghost original = processes@;
    let mut keyed: Vec<(String, ProcessInfo)> = Vec::new();
    let mut rest = processes;
    let ghost mut k: int = 0;
    while rest.len() > 0
        invariant
            0 <= k <= original.len(),
            rest@ == original.skip(k),
            keyed@.map_values(second_of()) == original.take(k),
            forall|i: int| 0 <= i < keyed@.len() ==> #[trigger] keyed@[i].0@ == lowercase_of(keyed@[i].1.name@),
        decreases rest@.len(),
    {
        let p = rest.remove(0);
        let key = lowercase(p.name.as_str());
        proof {
            assert(original.skip(k + 1) =~= original.skip(k).drop_first());
            assert(original.take(k + 1) =~= original.take(k).push(p));
        }
        keyed.push((key, p));
        proof {
            assert(keyed@.map_values(second_of()) =~= original.take(k + 1));
            k = k + 1;
        }
    }
    proof {
        assert(original.take(k) =~= original);
        lemma_keyed_le_total_preorder();
    }
    let before = |a: &(String, ProcessInfo), b: &(String, ProcessInfo)| -> (r: bool)
        ensures
            r == keyed_le()(*a, *b),
        {
            let c = compare_str(a.0.as_str(), b.0.as_str());
            proof {
                lemma_chars_order(a.0@, b.0@);
            }
            c == -1 || (c == 0 && a.1.pid <= b.1.pid)
        };
    let ghost unsorted = keyed@;
    let sorted = sort_by_rank(keyed, before, Ghost(keyed_le()));
    proof {
        lemma_map_multiset(sorted@, unsorted, second_of());
        assert forall|i: int| 0 <= i < sorted@.len() implies #[trigger] sorted@[i].0@ == lowercase_of(sorted@[i].1.name@) by {
            let e = sorted@[i];
            assert(sorted@.to_multiset().count(e) > 0);
            assert(unsorted.to_multiset().count(e) > 0);
            let j = choose|j: int| 0 <= j < unsorted.len() && unsorted[j] == e;
        }
    }
    let mut out: Vec<ProcessInfo> = Vec::new();
    let mut rest = sorted;
    let ghost sorted_view = rest@;
    let ghost mut m: int = 0;
    while rest.len() > 0
        invariant
            0 <= m <= sorted_view.len(),
            rest@ == sorted_view.skip(m),
            out@ == sorted_view.take(m).map_values(second_of()),
        decreases rest@.len(),
    {
        let e = rest.remove(0);
        proof {
            assert(sorted_view.skip(m + 1) =~= sorted_view.skip(m).drop_first());
        }
        out.push(e.1);
        proof {
            assert(sorted_view.take(m + 1).map_values(second_of()) =~= sorted_view.take(m).map_values(second_of()).push(e.1));
            m = m + 1;
        }
    }
    proof {
        assert(sorted_view.take(m) =~= sorted_view);
        assert forall|i: int, j: int| 0 <= i < j < out@.len() implies process_le(out@[i], out@[j]) by {
            assert(keyed_le()(sorted_view[i], sorted_view[j]));
            assert(out@[i] == sorted_view[i].1);
            assert(out@[j] == sorted_view[j].1);
        }
    }
    out
}

/// A process is listed when it has a positive pid and belongs to user `uid`.
pub open spec fn listed_for(uid: u32) -> spec_fn(ProcessInfo) -> bool {
    |p: ProcessInfo| p.pid > 0 && p.uid == uid
}

proof fn lemma_filter_push_process(s: Seq<ProcessInfo>, p: ProcessInfo, keep: spec_fn(ProcessInfo) -> bool)
    ensures
        s.push(p).filter(keep) == if keep(p) {
            s.filter(keep).push(p)
        } else {
            s.filter(keep)
        },
{
    reveal(Seq::filter);
    assert(s.push(p).drop_last() =~= s);
}

/// The processes of user `uid` with a positive pid among `processes`, in
/// listing order (see `order_processes`).
pub fn listed_processes(processes: Vec<ProcessInfo>, uid: u32) -> (r: Vec<ProcessInfo>)
    ensures
        r@.to_multiset() == processes@.filter(listed_for(uid)).to_multiset(),
        forall|i: int, j: int| 0 <= i < j < r@.len() ==> process_le(r@[i], r@[j]),
{
    let ghost original = processes@;
    let mut kept: Vec<ProcessInfo> = Vec::new();
    let mut rest = processes;
    let ghost mut k: int = 0;
    assert(original.take(0).filter(listed_for(uid)) =~= Seq::<ProcessInfo>::empty());
    while rest.len() > 0
        invariant
            0 <= k <= original.len(),
            rest@ == original.skip(k),
            kept@ == original.take(k).filter(listed_for(uid)),
        decreases rest@.len(),
    {
        let p = rest.remove(0);
        proof {
            assert(original.skip(k + 1) =~= original.skip(k).drop_first());
            assert(original.take(k + 1) =~= original.take(k).push(p));
            lemma_filter_push_process(original.take(k), p, listed_for(uid));
        }
        if p.pid > 0 && p.uid == uid {
            kept.push(p);
        }
        proof {
            k = k + 1;
        }
    }
    assert(original.take(k) =~= original);
    order_processes(kept)
}

} // verus!
