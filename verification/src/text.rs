//! Text helpers shared by the report and symbolication code: fixed-width
//! hexadecimal addresses, decimal numbers, lexicographic string order and
//! Markdown escaping.

use vstd::prelude::*;

use crate::sampler::chars_of;

verus! {

/// The string made of `chars`.
#[verifier::external_body]
pub(crate) fn collect_chars(chars: Vec<char>) -> (r: String)
    ensures
        r@ == chars@,
{
    chars.into_iter().collect()
}

/// The lowercase hexadecimal digit for `d < 16`.
pub open spec fn hex_char(d: nat) -> char {
    if d < 10 {
        ((48 + d) as u32) as char
    } else {
        ((87 + d) as u32) as char
    }
}

/// `16` to the power `k`.
pub open spec fn pow16(k: nat) -> nat
    decreases k,
{
    if k == 0 {
        1
    } else {
        16 * pow16((k - 1) as nat)
    }
}

/// `addr` as `0x` followed by sixteen lowercase hexadecimal digits.
pub open spec fn hex16(addr: u64) -> Seq<char> {
    seq!['0', 'x'] + Seq::new(16, |i: int| hex_char(((addr as nat) / pow16((15 - i) as nat)) % 16))
}

fn hex_digit(d: u64) -> (c: char)
    requires
        d < 16,
    ensures
        c == hex_char(d as nat),
{
    if d < 10 {
        ((48 + d) as u8) as char
    } else {
        ((87 + d) as u8) as char
    }
}

proof fn lemma_pow16_pos(k: nat)
    ensures
        pow16(k) > 0,
    decreases k,
{
    if k > 0 {
        lemma_pow16_pos((k - 1) as nat);
    }
}

/// Formats `addr` as `0x` and sixteen zero-padded lowercase hexadecimal digits.
pub fn hex_address(addr: u64) -> (r: String)
    ensures
        r@ == hex16(addr),
{
    let mut digits: Vec<char> = Vec::new();
    let mut k: usize = 0;
    while k < 16
        invariant
            k <= 16,
            digits@.len() == k,
            forall|j: int|
                0 <= j < k ==> #[trigger] digits@[j] == hex_char(
                    ((addr as nat) / pow16(j as nat)) % 16,
                ),
        decreases 16 - k,
    {
        let ghost p = pow16(k as nat);
        proof {
            lemma_pow16_pos(k as nat);
        }
        let v: u64 = addr / pow16_u64(k);
        digits.push(hex_digit(v % 16));
        k = k + 1;
    }
    let mut out: Vec<char> = Vec::new();
    out.push('0');
    out.push('x');
    let mut i: usize = 0;
    while i < 16
        invariant
            i <= 16,
            digits@.len() == 16,
            out@.len() == 2 + i,
            out@[0] == '0',
            out@[1] == 'x',
            forall|j: int|
                0 <= j < 16 ==> #[trigger] digits@[j] == hex_char(
                    ((addr as nat) / pow16(j as nat)) % 16,
                ),
            forall|j: int| 0 <= j < i ==> #[trigger] out@[2 + j] == digits@[15 - j],
        decreases 16 - i,
    {
        out.push(digits[15 - i]);
        i = i + 1;
    }
    let ghost h = hex16(addr);
    assert forall|k: int| 0 <= k < 18 implies #[trigger] out@[k] == h[k] by {
        if k >= 2 {
            let j = k - 2;
            assert(out@[2 + j] == digits@[15 - j]);
            assert(digits@[15 - j] == hex_char(((addr as nat) / pow16((15 - j) as nat)) % 16));
        }
    }
    assert(out@ =~= hex16(addr));
    collect_chars(out)
}

fn pow16_u64(k: usize) -> (r: u64)
    requires
        k < 16,
    ensures
        r == pow16(k as nat),
{
    let mut r: u64 = 1;
    let mut i: usize = 0;
    while i < k
        invariant
            i <= k < 16,
            r == pow16(i as nat),
        decreases k - i,
    {
        proof {
            lemma_pow16_split(i as nat);
        }
        r = r * 16;
        i = i + 1;
    }
    r
}

proof fn lemma_pow16_split(i: nat)
    requires
        i < 15,
    ensures
        pow16(i + 1) == 16 * pow16(i),
        pow16(i + 1) <= 0x1000_0000_0000_0000,
    decreases i,
{
    reveal_with_fuel(pow16, 16);
    if i > 0 {
        lemma_pow16_split((i - 1) as nat);
    }
}

/// The decimal digits of `n`.
pub open spec fn decimal_digits(n: nat) -> Seq<char>
    decreases n,
{
    if n < 10 {
        seq![((48 + n) as u32) as char]
    } else {
        decimal_digits(n / 10).push(((48 + n % 10) as u32) as char)
    }
}

/// `n` in decimal, with a leading `-` when negative.
pub open spec fn decimal(n: int) -> Seq<char> {
    if n < 0 {
        seq!['-'] + decimal_digits((-n) as nat)
    } else {
        decimal_digits(n as nat)
    }
}

/// The decimal digits of `n`.
pub fn decimal_u64(n: u64) -> (r: Vec<char>)
    ensures
        r@ == decimal_digits(n as nat),
    decreases n,
{
    if n < 10 {
        let mut v: Vec<char> = Vec::new();
        v.push(((48 + n) as u8) as char);
        v
    } else {
        let mut v = decimal_u64(n / 10);
        v.push(((48 + n % 10) as u8) as char);
        v
    }
}

/// `n` in decimal, with a leading `-` when negative.
pub fn format_i64(n: i64) -> (r: String)
    ensures
        r@ == decimal(n as int),
{
    if n < 0 {
        let magnitude: u64 = if n == i64::MIN {
            9_223_372_036_854_775_808u64
        } else {
            (-n) as u64
        };
        let digits = decimal_u64(magnitude);
        let mut out: Vec<char> = Vec::new();
        out.push('-');
        let mut i: usize = 0;
        while i < digits.len()
            invariant
                i <= digits@.len(),
                out@ == seq!['-'] + digits@.take(i as int),
            decreases digits@.len() - i,
        {
            out.push(digits[i]);
            i = i + 1;
            assert(out@ =~= seq!['-'] + digits@.take(i as int));
        }
        assert(digits@.take(i as int) =~= digits@);
        collect_chars(out)
    } else {
        collect_chars(decimal_u64(n as u64))
    }
}

/// `a` comes strictly before `b` in the lexicographic order built on `lt`
/// (a proper prefix comes first).
pub open spec fn lex_lt<T>(a: Seq<T>, b: Seq<T>, lt: spec_fn(T, T) -> bool) -> bool
    decreases a.len(),
{
    if b.len() == 0 {
        false
    } else if a.len() == 0 {
        true
    } else if a[0] != b[0] {
        lt(a[0], b[0])
    } else {
        lex_lt(a.drop_first(), b.drop_first(), lt)
    }
}

/// `lt` is a strict total order.
pub open spec fn strict_total<T>(lt: spec_fn(T, T) -> bool) -> bool {
    &&& forall|x: T| !#[trigger] lt(x, x)
    &&& forall|x: T, y: T, z: T| #[trigger] lt(x, y) && #[trigger] lt(y, z) ==> lt(x, z)
    &&& forall|x: T, y: T| x != y ==> #[trigger] lt(x, y) || #[trigger] lt(y, x)
}

/// The lexicographic order built on a strict total order is one too.
pub proof fn lemma_lex_strict_total<T>(lt: spec_fn(T, T) -> bool)
    requires
        strict_total(lt),
    ensures
        strict_total(|a: Seq<T>, b: Seq<T>| lex_lt(a, b, lt)),
{
    assert forall|a: Seq<T>| !lex_lt(a, a, lt) by {
        lemma_lex_irreflexive(a, lt);
    }
    assert forall|a: Seq<T>, b: Seq<T>, c: Seq<T>|
        lex_lt(a, b, lt) && lex_lt(b, c, lt) implies lex_lt(a, c, lt) by {
        lemma_lex_transitive(a, b, c, lt);
    }
    assert forall|a: Seq<T>, b: Seq<T>| a != b implies lex_lt(a, b, lt) || lex_lt(b, a, lt) by {
        lemma_lex_total(a, b, lt);
    }
}

proof fn lemma_lex_irreflexive<T>(a: Seq<T>, lt: spec_fn(T, T) -> bool)
    requires
        strict_total(lt),
    ensures
        !lex_lt(a, a, lt),
    decreases a.len(),
{
    if a.len() > 0 {
        lemma_lex_irreflexive(a.drop_first(), lt);
    }
}

proof fn lemma_lex_transitive<T>(a: Seq<T>, b: Seq<T>, c: Seq<T>, lt: spec_fn(T, T) -> bool)
    requires
        strict_total(lt),
        lex_lt(a, b, lt),
        lex_lt(b, c, lt),
    ensures
        lex_lt(a, c, lt),
    decreases a.len(),
{
    if a.len() > 0 && b.len() > 0 && c.len() > 0 {
        if a[0] == b[0] && b[0] == c[0] {
            lemma_lex_transitive(a.drop_first(), b.drop_first(), c.drop_first(), lt);
        } else if a[0] != b[0] && b[0] != c[0] {
            assert(lt(a[0], b[0]) && lt(b[0], c[0]));
            assert(lt(a[0], c[0]));
            if a[0] == c[0] {
                assert(!lt(a[0], a[0]));
            }
        }
    }
}

proof fn lemma_lex_total<T>(a: Seq<T>, b: Seq<T>, lt: spec_fn(T, T) -> bool)
    requires
        strict_total(lt),
        a != b,
    ensures
        lex_lt(a, b, lt) || lex_lt(b, a, lt),
    decreases a.len(),
{
    if a.len() > 0 && b.len() > 0 && a[0] == b[0] {
        if a.drop_first() == b.drop_first() {
            assert(a =~= seq![a[0]] + a.drop_first());
            assert(b =~= seq![b[0]] + b.drop_first());
        }
        lemma_lex_total(a.drop_first(), b.drop_first(), lt);
    } else if a.len() == 0 && b.len() == 0 {
        assert(a =~= b);
    }
}

/// Code points in increasing order.
pub open spec fn char_lt() -> spec_fn(char, char) -> bool {
    |x: char, y: char| (x as int) < (y as int)
}

/// `a` comes strictly before `b` in lexicographic order of code points.
pub open spec fn chars_lt(a: Seq<char>, b: Seq<char>) -> bool {
    lex_lt(a, b, char_lt())
}

/// Lexicographic comparison of `a` and `b`: `-1`, `0` or `1` as `a` is
/// before, equal to or after `b`.
pub open spec fn chars_order(a: Seq<char>, b: Seq<char>) -> int {
    if a == b {
        0
    } else if chars_lt(a, b) {
        -1
    } else {
        1
    }
}

/// Sequences that agree on their first `i` elements compare as their rests do.
pub proof fn lemma_lex_step<T>(a: Seq<T>, b: Seq<T>, i: int, lt: spec_fn(T, T) -> bool)
    requires
        0 <= i <= a.len(),
        i <= b.len(),
        a.take(i) == b.take(i),
    ensures
        lex_lt(a, b, lt) == lex_lt(a.skip(i), b.skip(i), lt),
    decreases i,
{
    if i == 0 {
        assert(a.skip(0) =~= a);
        assert(b.skip(0) =~= b);
    } else {
        assert(a[0] == a.take(i)[0]);
        assert(b[0] == b.take(i)[0]);
        assert(a.drop_first().take(i - 1) =~= a.take(i).drop_first());
        assert(b.drop_first().take(i - 1) =~= b.take(i).drop_first());
        lemma_lex_step(a.drop_first(), b.drop_first(), i - 1, lt);
        assert(a.drop_first().skip(i - 1) =~= a.skip(i));
        assert(b.drop_first().skip(i - 1) =~= b.skip(i));
    }
}

/// Code points order characters strictly and totally.
pub proof fn lemma_char_lt_strict_total()
    ensures
        strict_total(char_lt()),
{
    assert forall|x: char, y: char| x != y implies #[trigger] char_lt()(x, y) || #[trigger] char_lt()(y, x) by {
        assert((x as int) != (y as int));
    }
}

/// The lexicographic order of code points is a strict total order, and
/// `chars_order` says where `a` stands relative to `b`.
pub proof fn lemma_chars_order(a: Seq<char>, b: Seq<char>)
    ensures
        strict_total(|x: Seq<char>, y: Seq<char>| chars_lt(x, y)),
        chars_order(a, b) != 1 <==> !chars_lt(b, a),
        chars_order(a, b) == 0 <==> a == b,
{
    lemma_char_lt_strict_total();
    assert(strict_total(|x: Seq<char>, y: Seq<char>| chars_lt(x, y))) by {
        assert forall|x: Seq<char>, y: Seq<char>, z: Seq<char>|
            chars_lt(x, y) && chars_lt(y, z) implies chars_lt(x, z) by {
            lemma_lex_transitive(x, y, z, char_lt());
        }
        assert forall|x: Seq<char>, y: Seq<char>| x != y implies chars_lt(x, y) || chars_lt(y, x) by {
            lemma_lex_total(x, y, char_lt());
        }
        assert forall|x: Seq<char>| !chars_lt(x, x) by {
            lemma_lex_irreflexive(x, char_lt());
        }
    }
    if chars_lt(a, b) && chars_lt(b, a) {
        lemma_lex_transitive(a, b, a, char_lt());
        lemma_lex_irreflexive(a, char_lt());
    }
    if a == b {
        lemma_lex_irreflexive(a, char_lt());
    }
    if a != b {
        lemma_lex_total(a, b, char_lt());
    }
}

proof fn lemma_chars_lt_step(a: Seq<char>, b: Seq<char>, i: int)
    requires
        0 <= i <= a.len(),
        i <= b.len(),
        a.take(i) == b.take(i),
    ensures
        lex_lt(a, b, char_lt()) == lex_lt(a.skip(i), b.skip(i), char_lt()),
    decreases i,
{
    if i == 0 {
        assert(a.skip(0) =~= a);
        assert(b.skip(0) =~= b);
    } else {
        assert(a[0] == a.take(i)[0]);
        assert(b[0] == b.take(i)[0]);
        assert(a.drop_first().take(i - 1) =~= a.take(i).drop_first());
        assert(b.drop_first().take(i - 1) =~= b.take(i).drop_first());
        lemma_chars_lt_step(a.drop_first(), b.drop_first(), i - 1);
        assert(a.drop_first().skip(i - 1) =~= a.skip(i));
        assert(b.drop_first().skip(i - 1) =~= b.skip(i));
    }
}

/// Lexicographic comparison of two strings by code point: `-1`, `0` or `1`.
pub fn compare_str(a: &str, b: &str) -> (r: i8)
    ensures
        r as int == chars_order(a@, b@),
{
    let x = chars_of(a);
    let y = chars_of(b);
    let mut i: usize = 0;
    while i < x.len() && i < y.len()
        invariant
            x@ == a@,
            y@ == b@,
            i <= x@.len(),
            i <= y@.len(),
            x@.take(i as int) == y@.take(i as int),
        decreases x@.len() - i,
    {
        if x[i] != y[i] {
            proof {
                lemma_chars_lt_step(x@, y@, i as int);
                assert(x@ != y@ ==> true);
                assert(x@[i as int] != y@[i as int]);
            }
            if x[i] < y[i] {
                return -1;
            } else {
                return 1;
            }
        }
        proof {
            assert(x@.take(i + 1) =~= x@.take(i as int).push(x@[i as int]));
            assert(y@.take(i + 1) =~= y@.take(i as int).push(y@[i as int]));
        }
        i = i + 1;
    }
    proof {
        lemma_chars_lt_step(x@, y@, i as int);
    }
    if x.len() == y.len() {
        assert(x@ =~= x@.take(i as int));
        assert(y@ =~= y@.take(i as int));
        0
    } else if x.len() < y.len() {
        assert(x@.len() != y@.len());
        -1
    } else {
        assert(x@.len() != y@.len());
        1
    }
}

/// `value` as a Markdown code span (double backticks when it holds one).
pub open spec fn markdown_code_of(value: Seq<char>) -> Seq<char> {
    if value.contains('`') {
        seq!['`', '`', ' '] + value + seq![' ', '`', '`']
    } else {
        seq!['`'] + value + seq!['`']
    }
}

/// Wraps `value` in a Markdown code span; a value that holds a backtick is
/// fenced with double backticks and padded with spaces.
pub fn markdown_code(value: &str) -> (r: String)
    ensures
        r@ == markdown_code_of(value@),
{
    let chars = chars_of(value);
    let mut has_tick = false;
    let mut i: usize = 0;
    while i < chars.len()
        invariant
            chars@ == value@,
            i <= chars@.len(),
            has_tick == chars@.take(i as int).contains('`'),
        decreases chars@.len() - i,
    {
        let ghost before = chars@.take(i as int);
        let ghost after = chars@.take(i + 1);
        proof {
            assert(after =~= before.push(chars@[i as int]));
            if after.contains('`') {
                let j = choose|j: int| 0 <= j < after.len() && after[j] == '`';
                if j < i {
                    assert(before[j] == '`');
                }
            }
            if before.contains('`') {
                let j = choose|j: int| 0 <= j < before.len() && before[j] == '`';
                assert(after[j] == '`');
            }
            if chars@[i as int] == '`' {
                assert(after[i as int] == '`');
            }
        }
        if chars[i] == '`' {
            has_tick = true;
        }
        i = i + 1;
    }
    assert(chars@.take(i as int) =~= chars@);
    let mut out: String = if has_tick {
        <String as vstd::string::StringExecFns>::from_str("`` ")
    } else {
        <String as vstd::string::StringExecFns>::from_str("`")
    };
    proof {
        reveal_strlit("`` ");
        reveal_strlit("`");
        reveal_strlit(" ``");
    }
    out.append(value);
    if has_tick {
        out.append(" ``");
    } else {
        out.append("`");
    }
    proof {
        assert(out@ =~= markdown_code_of(value@));
    }
    out
}

/// The text that stands for `c` in a Markdown table cell.
pub open spec fn cell_text(c: char) -> Seq<char> {
    if c == '\\' {
        seq!['\\', '\\']
    } else if c == '|' {
        seq!['\\', '|']
    } else if c == '\n' {
        seq![' ']
    } else {
        seq![c]
    }
}

/// `value` with each character replaced by its cell text.
pub open spec fn markdown_cell_of(value: Seq<char>) -> Seq<char>
    decreases value.len(),
{
    if value.len() == 0 {
        Seq::empty()
    } else {
        markdown_cell_of(value.drop_last()) + cell_text(value.last())
    }
}

/// Escapes `value` for a Markdown table cell: backslashes are doubled,
/// pipes are escaped and newlines become spaces.
pub fn markdown_cell(value: &str) -> (r: String)
    ensures
        r@ == markdown_cell_of(value@),
{
    let chars = chars_of(value);
    let mut out: Vec<char> = Vec::new();
    let mut i: usize = 0;
    while i < chars.len()
        invariant
            chars@ == value@,
            i <= chars@.len(),
            out@ == markdown_cell_of(chars@.take(i as int)),
        decreases chars@.len() - i,
    {
        let c = chars[i];
        proof {
            assert(chars@.take(i + 1).drop_last() =~= chars@.take(i as int));
        }
        if c == '\\' {
            out.push('\\');
            out.push('\\');
        } else if c == '|' {
            out.push('\\');
            out.push('|');
        } else if c == '\n' {
            out.push(' ');
        } else {
            out.push(c);
        }
        i = i + 1;
        assert(out@ =~= markdown_cell_of(chars@.take(i as int)));
    }
    assert(chars@.take(i as int) =~= chars@);
    collect_chars(out)
}

/// `value` without its backticks.
pub open spec fn without_ticks(value: Seq<char>) -> Seq<char> {
    value.filter(|c: char| c != '`')
}

/// Removes every backtick from `value`.
pub fn strip_markdown_code(value: &str) -> (r: String)
    ensures
        r@ == without_ticks(value@),
{
    let chars = chars_of(value);
    let mut out: Vec<char> = Vec::new();
    let mut i: usize = 0;
    while i < chars.len()
        invariant
            chars@ == value@,
            i <= chars@.len(),
            out@ == without_ticks(chars@.take(i as int)),
        decreases chars@.len() - i,
    {
        proof {
            assert(chars@.take(i + 1).drop_last() =~= chars@.take(i as int));
            reveal(Seq::filter);
        }
        if chars[i] != '`' {
            out.push(chars[i]);
        }
        i = i + 1;
    }
    assert(chars@.take(i as int) =~= chars@);
    collect_chars(out)
}

/// The value of the digit `c` in `radix` (at most 36), if it is one.
pub open spec fn digit_of(c: char, radix: nat) -> Option<nat> {
    let code = c as u32;
    let v: Option<nat> = if 48 <= code <= 57 {
        Some((code - 48) as nat)
    } else if 97 <= code <= 122 {
        Some((code - 87) as nat)
    } else if 65 <= code <= 90 {
        Some((code - 55) as nat)
    } else {
        None
    };
    match v {
        Some(d) => if d < radix {
            Some(d)
        } else {
            None
        },
        None => None,
    }
}

/// The value of the digit string `d` in `radix`, if every character is a digit.
pub open spec fn digits_value(d: Seq<char>, radix: nat) -> Option<nat>
    decreases d.len(),
{
    if d.len() == 0 {
        Some(0)
    } else {
        match (digits_value(d.drop_last(), radix), digit_of(d.last(), radix)) {
            (Some(v), Some(x)) => Some(v * radix + x),
            _ => None,
        }
    }
}

/// What parsing `s` as an unsigned number in `radix` gives: an optional `+`
/// followed by at least one digit, with a value of at most `max`.
pub open spec fn parse_unsigned_of(s: Seq<char>, radix: nat, max: nat) -> Option<nat> {
    let d = if s.len() > 0 && s[0] == '+' {
        s.drop_first()
    } else {
        s
    };
    if d.len() == 0 {
        None
    } else {
        match digits_value(d, radix) {
            Some(v) => if v <= max {
                Some(v)
            } else {
                None
            },
            None => None,
        }
    }
}

proof fn lemma_digits_grow(d: Seq<char>, radix: nat, i: int)
    requires
        1 <= radix,
        0 <= i <= d.len(),
        digits_value(d.take(i), radix) is Some,
        digits_value(d, radix) is Some,
    ensures
        digits_value(d.take(i), radix).unwrap() <= digits_value(d, radix).unwrap(),
    decreases d.len() - i,
{
    if i == d.len() {
        assert(d.take(i) =~= d);
    } else {
        let n = d.len();
        assert(d.drop_last().take(i) =~= d.take(i));
        if digits_value(d.drop_last(), radix) is Some {
            lemma_digits_grow(d.drop_last(), radix, i);
            let v = digits_value(d.drop_last(), radix).unwrap();
            assert(v * radix >= v) by (nonlinear_arith)
                requires
                    radix >= 1,
            ;
        }
    }
}

fn digit_value(c: char, radix: u64) -> (r: Option<u64>)
    requires
        radix <= 36,
    ensures
        match digit_of(c, radix as nat) {
            Some(d) => r == Some(d as u64),
            None => r is None,
        },
{
    let code = c as u32;
    let v: u64 = if 48 <= code && code <= 57 {
        (code - 48) as u64
    } else if 97 <= code && code <= 122 {
        (code - 87) as u64
    } else if 65 <= code && code <= 90 {
        (code - 55) as u64
    } else {
        return None;
    };
    if v < radix {
        Some(v)
    } else {
        None
    }
}

/// Parses `s` as an unsigned number in `radix`: an optional `+` and at
/// least one digit, with a value of at most `max`.
pub fn parse_unsigned(s: &str, radix: u64, max: u64) -> (r: Option<u64>)
    requires
        2 <= radix <= 36,
    ensures
        match parse_unsigned_of(s@, radix as nat, max as nat) {
            Some(v) => r == Some(v as u64),
            None => r is None,
        },
{
    let chars = chars_of(s);
    let ghost d = if s@.len() > 0 && s@[0] == '+' {
        s@.drop_first()
    } else {
        s@
    };
    let start: usize = if chars.len() > 0 && chars[0] == '+' {
        1
    } else {
        0
    };
    if start >= chars.len() {
        return None;
    }
    assert(d =~= chars@.skip(start as int));
    let mut acc: u64 = 0;
    let mut i: usize = start;
    while i < chars.len()
        invariant
            chars@ == s@,
            2 <= radix <= 36,
            start <= i <= chars@.len(),
            d == chars@.skip(start as int),
            d == (if s@.len() > 0 && s@[0] == '+' {
                s@.drop_first()
            } else {
                s@
            }),
            d.len() > 0,
            digits_value(d.take(i - start), radix as nat) == Some(acc as nat),
            acc <= max,
        decreases chars@.len() - i,
    {
        let ghost k = i - start;
        proof {
            assert(d.take(k + 1).drop_last() =~= d.take(k));
            assert(d.take(k + 1).last() == chars@[i as int]);
        }
        let x = match digit_value(chars[i], radix) {
            Some(x) => x,
            None => {
                proof {
                    assert(digits_value(d.take(k + 1), radix as nat) is None);
                    lemma_none_extends(d, radix as nat, k + 1);
                }
                return None;
            },
        };
        assert(digits_value(d.take(k + 1), radix as nat) == Some((acc * radix + x) as nat));
        if x > max {
            proof {
                assert(acc * radix + x > max) by (nonlinear_arith)
                    requires
                        x > max,
                        radix >= 2,
                ;
                if digits_value(d, radix as nat) is Some {
                    lemma_digits_grow(d, radix as nat, k + 1);
                    assert(digits_value(d, radix as nat).unwrap() > max);
                }
            }
            return None;
        }
        let limit: u64 = (max - x) / radix;
        if acc > limit {
            proof {
                assert(acc * radix + x > max) by (nonlinear_arith)
                    requires
                        acc > limit,
                        limit == (max - x) / (radix as int),
                        radix >= 2,
                        x <= max,
                ;
                if digits_value(d, radix as nat) is Some {
                    lemma_digits_grow(d, radix as nat, k + 1);
                    assert(digits_value(d, radix as nat).unwrap() > max);
                }
            }
            return None;
        }
        proof {
            assert(acc * radix + x <= max) by (nonlinear_arith)
                requires
                    acc <= limit,
                    limit == (max - x) / (radix as int),
                    radix >= 2,
                    x <= max,
            ;
        }
        acc = acc * radix + x;
        i = i + 1;
    }
    proof {
        assert(d.take(i - start) =~= d);
    }
    Some(acc)
}

proof fn lemma_none_extends(d: Seq<char>, radix: nat, i: int)
    requires
        0 <= i <= d.len(),
        digits_value(d.take(i), radix) is None,
    ensures
        digits_value(d, radix) is None,
    decreases d.len() - i,
{
    if i == d.len() {
        assert(d.take(i) =~= d);
    } else {
        assert(d.drop_last().take(i) =~= d.take(i));
        lemma_none_extends(d.drop_last(), radix, i);
    }
}


/// `s` begins with `prefix`.
pub open spec fn has_prefix(s: Seq<char>, prefix: Seq<char>) -> bool {
    prefix.len() <= s.len() && s.take(prefix.len() as int) == prefix
}

/// `s` ends with `suffix`.
pub open spec fn has_suffix(s: Seq<char>, suffix: Seq<char>) -> bool {
    suffix.len() <= s.len() && s.skip(s.len() - suffix.len()) == suffix
}

/// Whether `s` begins with `prefix`.
pub fn starts_with(s: &str, prefix: &str) -> (r: bool)
    ensures
        r == has_prefix(s@, prefix@),
{
    let x = chars_of(s);
    let p = chars_of(prefix);
    if p.len() > x.len() {
        return false;
    }
    let mut i: usize = 0;
    while i < p.len()
        invariant
            x@ == s@,
            p@ == prefix@,
            p@.len() <= x@.len(),
            i <= p@.len(),
            forall|j: int| 0 <= j < i ==> x@[j] == p@[j],
        decreases p@.len() - i,
    {
        if x[i] != p[i] {
            assert(x@.take(p@.len() as int)[i as int] != p@[i as int]);
            return false;
        }
        i = i + 1;
    }
    assert(x@.take(p@.len() as int) =~= p@);
    true
}

/// Whether `s` ends with `suffix`.
pub fn ends_with(s: &str, suffix: &str) -> (r: bool)
    ensures
        r == has_suffix(s@, suffix@),
{
    let x = chars_of(s);
    let p = chars_of(suffix);
    if p.len() > x.len() {
        return false;
    }
    let start = x.len() - p.len();
    assert(x@.len() == x.len());
    let mut i: usize = 0;
    while i < p.len()
        invariant
            x@ == s@,
            p@ == suffix@,
            start == x@.len() - p@.len(),
            x@.len() <= usize::MAX,
            i <= p@.len(),
            forall|j: int| 0 <= j < i ==> x@[start + j] == p@[j],
        decreases p@.len() - i,
    {
        if x[start + i] != p[i] {
            assert(x@.skip(start as int)[i as int] != p@[i as int]);
            return false;
        }
        i = i + 1;
    }
    assert(x@.skip(start as int) =~= p@);
    true
}


/// Whitespace as `char::is_whitespace` defines it.
pub open spec fn is_space(c: char) -> bool {
    let x = c as u32;
    (9 <= x <= 13) || x == 32 || x == 0x85 || x == 0xa0 || x == 0x1680 || (0x2000 <= x <= 0x200a)
        || x == 0x2028 || x == 0x2029 || x == 0x202f || x == 0x205f || x == 0x3000
}

/// The maximal runs of non-whitespace characters of `s`, in order.
pub open spec fn words(s: Seq<char>) -> Seq<Seq<char>>
    decreases s.len(),
{
    if s.len() == 0 {
        Seq::empty()
    } else {
        let w = words(s.drop_last());
        let c = s.last();
        if is_space(c) {
            w
        } else if s.len() >= 2 && !is_space(s[s.len() - 2]) {
            w.update(w.len() - 1, w.last().push(c))
        } else {
            w.push(seq![c])
        }
    }
}

/// Whether `c` is whitespace.
pub fn char_is_space(c: char) -> (r: bool)
    ensures
        r == is_space(c),
{
    let x = c as u32;
    (9 <= x && x <= 13) || x == 32 || x == 0x85 || x == 0xa0 || x == 0x1680 || (0x2000 <= x && x <= 0x200a)
        || x == 0x2028 || x == 0x2029 || x == 0x202f || x == 0x205f || x == 0x3000
}

proof fn lemma_words_last(s: Seq<char>)
    ensures
        s.len() > 0 && !is_space(s.last()) ==> words(s).len() > 0,
    decreases s.len(),
{
    if s.len() >= 2 && !is_space(s[s.len() - 2]) {
        lemma_words_last(s.drop_last());
        assert(s.drop_last().last() == s[s.len() - 2]);
    }
}

/// The whitespace-separated words of `chars`.
pub fn split_words(chars: &Vec<char>) -> (r: Vec<Vec<char>>)
    ensures
        r@.map_values(|w: Vec<char>| w@) == words(chars@),
{
    let mut out: Vec<Vec<char>> = Vec::new();
    let mut i: usize = 0;
    while i < chars.len()
        invariant
            i <= chars@.len(),
            out@.map_values(|w: Vec<char>| w@) == words(chars@.take(i as int)),
        decreases chars@.len() - i,
    {
        let c = chars[i];
        let ghost before = out@.map_values(|w: Vec<char>| w@);
        proof {
            assert(chars@.take(i + 1).drop_last() =~= chars@.take(i as int));
            assert(chars@.take(i + 1).last() == c);
            if i >= 1 {
                assert(chars@.take(i + 1)[i - 1] == chars@[i - 1]);
                lemma_words_last(chars@.take(i as int));
                assert(chars@.take(i as int).last() == chars@[i - 1]);
            }
        }
        if !char_is_space(c) {
            if i >= 1 && !char_is_space(chars[i - 1]) {
                let last = out.len() - 1;
                let mut w = out.remove(last);
                w.push(c);
                out.push(w);
                proof {
                    assert(out@.map_values(|w: Vec<char>| w@) =~= before.update(before.len() - 1, before.last().push(c)));
                }
            } else {
                let mut w: Vec<char> = Vec::new();
                w.push(c);
                out.push(w);
                proof {
                    assert(out@.map_values(|w: Vec<char>| w@) =~= before.push(seq![c]));
                }
            }
        }
        i = i + 1;
    }
    assert(chars@.take(i as int) =~= chars@);
    out
}

} // verus!
