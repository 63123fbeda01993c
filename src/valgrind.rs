//! Memory-access events and the text trace (as written by Valgrind's lackey
//! tool) they are read from.
//!
//! A trace is a sequence of lines separated by `\n`. Each line, once
//! characters with the Unicode White_Space property (in their UTF-8 forms)
//! are trimmed from both ends, holds exactly two fields separated by
//! one or more spaces: an operation code (`L`, `S`, `M` or `I`) and
//! `address,size`, with the address in hexadecimal and the size in decimal,
//! each optionally preceded by `+`. A load or a store gives one event, a
//! modify gives a load then a store of the same address, and an instruction
//! fetch gives none. One malformed line rejects the whole trace.

use vstd::prelude::*;
use vstd::string::StringSliceAdditionalSpecFns;

verus! {

/// The kind of a memory access.
#[derive(PartialEq, Eq, Structural, Debug, Clone, Copy)]
pub enum Operation {
    Load,
    Store,
    Modify,
    Instruction,
}

/// One access: its kind, its address and its size in bytes.
#[derive(PartialEq, Eq, Structural, Debug, Clone, Copy)]
pub struct MemoryAccess {
    pub operation: Operation,
    pub address: u64,
    pub size: u8,
}

/// Why a trace was rejected.
#[derive(PartialEq, Eq, Structural, Debug, Clone, Copy)]
pub enum TraceError {
    /// A line does not hold exactly two fields.
    FieldCount,
    /// The operation code is not one of `L`, `S`, `M`, `I`.
    UnknownOperation,
    /// The second field does not hold exactly one comma.
    Operands,
    /// The address is not a hexadecimal number that fits in 64 bits.
    Address,
    /// The size is not a decimal number that fits in 8 bits.
    Size,
}

/// An ASCII byte with the Unicode White_Space property.
pub open spec fn is_ascii_blank(c: u8) -> bool {
    c == 0x20 || (0x09 <= c && c <= 0x0D)
}

/// The three-byte UTF-8 forms of U+1680, U+2000 to U+200A, U+2028, U+2029,
/// U+202F, U+205F and U+3000, the White_Space characters of that length.
pub open spec fn is_wide_blank(x: u8, y: u8, z: u8) -> bool {
    ||| x == 0xE1 && y == 0x9A && z == 0x80
    ||| x == 0xE2 && y == 0x80 && ((0x80 <= z && z <= 0x8A) || z == 0xA8 || z == 0xA9 || z == 0xAF)
    ||| x == 0xE2 && y == 0x81 && z == 0x9F
    ||| x == 0xE3 && y == 0x80 && z == 0x80
}

/// The two-byte UTF-8 forms of U+0085 and U+00A0.
pub open spec fn is_latin_blank(x: u8, y: u8) -> bool {
    x == 0xC2 && (y == 0x85 || y == 0xA0)
}

/// The length in bytes of the White_Space character that starts at `i` and
/// lies within `[i, end)`, or 0 if there is none.
pub open spec fn blank_at(b: Seq<u8>, i: int, end: int) -> nat {
    if end - i >= 1 && is_ascii_blank(b[i]) {
        1
    } else if end - i >= 2 && is_latin_blank(b[i], b[i + 1]) {
        2
    } else if end - i >= 3 && is_wide_blank(b[i], b[i + 1], b[i + 2]) {
        3
    } else {
        0
    }
}

/// The length in bytes of the White_Space character that ends at `k` and
/// lies within `[lo, k)`, or 0 if there is none.
pub open spec fn blank_before(b: Seq<u8>, lo: int, k: int) -> nat {
    if k - lo >= 1 && is_ascii_blank(b[k - 1]) {
        1
    } else if k - lo >= 2 && is_latin_blank(b[k - 2], b[k - 1]) {
        2
    } else if k - lo >= 3 && is_wide_blank(b[k - 3], b[k - 2], b[k - 1]) {
        3
    } else {
        0
    }
}

/// The number of bytes from `i` to the first `\n` at or after it, or to
/// the end of `b`.
pub open spec fn line_len(b: Seq<u8>, i: int) -> nat
    decreases b.len() - i,
{
    if i >= b.len() || b[i] == 0x0A {
        0
    } else {
        1 + line_len(b, i + 1)
    }
}

/// Where `[i, end)` stops starting with White_Space characters.
pub open spec fn skip_blank(b: Seq<u8>, i: int, end: int) -> int
    decreases end - i,
{
    if blank_at(b, i, end) == 0 {
        i
    } else {
        skip_blank(b, i + blank_at(b, i, end), end)
    }
}

/// The end of `[lo, k)` once trailing White_Space characters are dropped.
pub open spec fn trim_back(b: Seq<u8>, lo: int, k: int) -> int
    decreases k - lo,
{
    if blank_before(b, lo, k) == 0 {
        k
    } else {
        trim_back(b, lo, k - blank_before(b, lo, k))
    }
}

/// The first index in `[i, end)` holding `c` (when `want`) or not holding
/// `c` (when `!want`), or `end`.
pub open spec fn find_byte(b: Seq<u8>, i: int, end: int, c: u8, want: bool) -> int
    decreases end - i,
{
    if i >= end {
        end
    } else if (b[i] == c) == want {
        i
    } else {
        find_byte(b, i + 1, end, c, want)
    }
}

/// The value of `c` as a digit in base `radix`, if it is one.
pub open spec fn digit_of(c: u8, radix: nat) -> Option<nat> {
    let d: int = if 0x30 <= c <= 0x39 {
        c - 0x30
    } else if 0x61 <= c <= 0x66 {
        c - 0x61 + 10
    } else if 0x41 <= c <= 0x46 {
        c - 0x41 + 10
    } else {
        16
    };
    if d < radix {
        Some(d as nat)
    } else {
        None
    }
}

/// Every byte of `[i, j)` is a digit in base `radix`.
pub open spec fn all_digits(b: Seq<u8>, i: int, j: int, radix: nat) -> bool {
    forall|k: int| i <= k < j ==> (#[trigger] digit_of(b[k], radix)) is Some
}

/// The number that the digits of `[i, j)` spell in base `radix`.
pub open spec fn digits_value(b: Seq<u8>, i: int, j: int, radix: nat) -> nat
    decreases j - i,
{
    if j <= i {
        0
    } else {
        digits_value(b, i, j - 1, radix) * radix + digit_of(b[j - 1], radix).unwrap()
    }
}

/// The number written in `[i, j)` in base `radix`, with an optional leading
/// `+`, if it is one and does not exceed `max`.
pub open spec fn number_in(b: Seq<u8>, i: int, j: int, radix: nat, max: nat) -> Option<nat> {
    let k = if i < j && b[i] == 0x2B { i + 1 } else { i };
    if k < j && all_digits(b, k, j, radix) && digits_value(b, k, j, radix) <= max {
        Some(digits_value(b, k, j, radix))
    } else {
        None
    }
}

/// The operation that the field `[i, j)` names.
pub open spec fn operation_in(b: Seq<u8>, i: int, j: int) -> Option<Operation> {
    if j != i + 1 {
        None
    } else if b[i] == 0x4C {
        Some(Operation::Load)
    } else if b[i] == 0x53 {
        Some(Operation::Store)
    } else if b[i] == 0x4D {
        Some(Operation::Modify)
    } else if b[i] == 0x49 {
        Some(Operation::Instruction)
    } else {
        None
    }
}

/// The address and size that the field `[i, j)` holds.
pub open spec fn operands_in(b: Seq<u8>, i: int, j: int) -> Result<(u64, u8), TraceError> {
    let comma = find_byte(b, i, j, 0x2C, true);
    if comma == j || find_byte(b, comma + 1, j, 0x2C, true) != j {
        Err(TraceError::Operands)
    } else {
        match number_in(b, i, comma, 16, u64::MAX as nat) {
            None => Err(TraceError::Address),
            Some(address) => match number_in(b, comma + 1, j, 10, u8::MAX as nat) {
                None => Err(TraceError::Size),
                Some(size) => Ok((address as u64, size as u8)),
            },
        }
    }
}

/// The events that one access of `operation` stands for.
pub open spec fn events_of(operation: Operation, address: u64, size: u8) -> Seq<MemoryAccess> {
    match operation {
        Operation::Modify => seq![
            MemoryAccess { operation: Operation::Load, address, size },
            MemoryAccess { operation: Operation::Store, address, size },
        ],
        Operation::Instruction => seq![],
        _ => seq![MemoryAccess { operation, address, size }],
    }
}

/// `[i, j)` is one field: not empty, and without a space.
pub open spec fn is_field(b: Seq<u8>, i: int, j: int) -> bool {
    i < j && forall|k: int| i <= k < j ==> b[k] != 0x20
}

/// `[lo, hi)` is a field `[lo, e1)`, one or more spaces, and a field
/// `[s2, hi)`.
pub open spec fn splits_in_two(b: Seq<u8>, lo: int, hi: int, e1: int, s2: int) -> bool {
    &&& is_field(b, lo, e1)
    &&& e1 < s2
    &&& forall|k: int| e1 <= k < s2 ==> b[k] == 0x20
    &&& is_field(b, s2, hi)
}

/// The events of the line `[start, end)`: once trimmed, it must hold exactly
/// two fields, an operation and its operands.
pub open spec fn line_events(b: Seq<u8>, start: int, end: int) -> Result<Seq<MemoryAccess>, TraceError> {
    let lo = skip_blank(b, start, end);
    let hi = trim_back(b, lo, end);
    if exists|e1: int, s2: int| splits_in_two(b, lo, hi, e1, s2) {
        let (e1, s2) = choose|e1: int, s2: int| splits_in_two(b, lo, hi, e1, s2);
        match operation_in(b, lo, e1) {
            None => Err(TraceError::UnknownOperation),
            Some(op) => match operands_in(b, s2, hi) {
                Err(e) => Err(e),
                Ok((address, size)) => Ok(events_of(op, address, size)),
            },
        }
    } else {
        Err(TraceError::FieldCount)
    }
}

proof fn lemma_find_byte(b: Seq<u8>, i: int, end: int, c: u8, want: bool)
    requires
        0 <= i <= end <= b.len(),
    ensures
        i <= find_byte(b, i, end, c, want) <= end,
        forall|k: int| i <= k < find_byte(b, i, end, c, want) ==> (b[k] == c) != want,
        find_byte(b, i, end, c, want) < end ==> (b[find_byte(b, i, end, c, want)] == c) == want,
    decreases end - i,
{
    if i < end && (b[i] == c) != want {
        lemma_find_byte(b, i + 1, end, c, want);
    }
}

/// The two fields of a line are where the first space and the first
/// non-space after it put them.
proof fn lemma_split_points(b: Seq<u8>, lo: int, hi: int, e1: int, s2: int)
    requires
        0 <= lo <= hi <= b.len(),
        splits_in_two(b, lo, hi, e1, s2),
    ensures
        e1 == find_byte(b, lo, hi, 0x20, true),
        s2 == find_byte(b, e1, hi, 0x20, false),
{
    lemma_find_byte(b, lo, hi, 0x20, true);
    let r = find_byte(b, lo, hi, 0x20, true);
    assert(b[e1] == 0x20);
    if r > e1 {
        assert((b[e1] == 0x20) != true);
    }
    if r < e1 {
        assert(b[r] != 0x20);
    }
    lemma_find_byte(b, e1, hi, 0x20, false);
    let q = find_byte(b, e1, hi, 0x20, false);
    assert(b[s2] != 0x20);
    if q > s2 {
        assert((b[s2] == 0x20) != false);
    }
    if q < s2 {
        assert(b[q] == 0x20);
    }
}

/// The events of the lines from `start` on.
pub open spec fn trace_from(b: Seq<u8>, start: int) -> Result<Seq<MemoryAccess>, TraceError>
    decreases b.len() - start,
{
    if start >= b.len() || start < 0 {
        Ok(seq![])
    } else {
        let e = start + line_len(b, start);
        match line_events(b, start, e) {
            Err(x) => Err(x),
            Ok(events) => if e >= b.len() {
                Ok(events)
            } else {
                match trace_from(b, e + 1) {
                    Err(x) => Err(x),
                    Ok(rest) => Ok(events + rest),
                }
            },
        }
    }
}

spec fn prepend(acc: Seq<MemoryAccess>, r: Result<Seq<MemoryAccess>, TraceError>) -> Result<
    Seq<MemoryAccess>,
    TraceError,
> {
    match r {
        Ok(rest) => Ok(acc + rest),
        Err(x) => Err(x),
    }
}

/// Reads the trace in `trace_input` into the events it stands for, in order.
pub fn parse(trace_input: &str) -> (r: Result<Vec<MemoryAccess>, TraceError>)
    ensures
        match r {
            Ok(v) => trace_from(trace_input.spec_bytes(), 0) == Ok::<_, TraceError>(v@),
            Err(x) => trace_from(trace_input.spec_bytes(), 0) == Err::<Seq<MemoryAccess>, _>(x),
        },
{
    let b = trace_input.as_bytes();
    let ghost bs = b@;
    let n = b.len();
    let mut traces: Vec<MemoryAccess> = Vec::new();
    let mut pos: usize = 0;
    assert(traces@ + seq![] =~= traces@);
    while pos < n
        invariant
            bs == b@,
            bs == trace_input.spec_bytes(),
            n == bs.len(),
            pos <= n,
            trace_from(bs, 0) == prepend(traces@, trace_from(bs, pos as int)),
        decreases n - pos,
    {
        let end = scan_line_end(b, pos);
        let ghost before = traces@;
        match parse_line(b, pos, end, &mut traces) {
            Err(x) => {
                assert(trace_from(bs, pos as int) == Err::<Seq<MemoryAccess>, _>(x));
                return Err(x);
            },
            Ok(()) => {},
        }
        let ghost events = line_events(bs, pos as int, end as int)->Ok_0;
        assert(trace_from(bs, pos as int) == (if end >= n {
            Ok::<_, TraceError>(events)
        } else {
            prepend(events, trace_from(bs, end + 1))
        }));
        if end >= n {
            assert(traces@ + seq![] =~= traces@);
            pos = n;
        } else {
            proof {
                match trace_from(bs, end + 1) {
                    Ok(rest) => {
                        assert(before + (events + rest) =~= traces@ + rest);
                    },
                    Err(_) => {},
                }
            }
            pos = end + 1;
        }
    }
    assert(traces@ + seq![] =~= traces@);
    Ok(traces)
}

/// The first `\n` at or after `i`, or the end of `b`.
fn scan_line_end(b: &[u8], i: usize) -> (r: usize)
    requires
        i <= b@.len(),
    ensures
        r as int == i + line_len(b@, i as int),
        i <= r <= b@.len(),
{
    let mut j: usize = i;
    while j < b.len() && b[j] != 0x0A
        invariant
            i <= j <= b@.len(),
            i + line_len(b@, i as int) == j + line_len(b@, j as int),
        decreases b@.len() - j,
    {
        j = j + 1;
    }
    j
}

fn is_ascii_blank_byte(c: u8) -> (r: bool)
    ensures
        r == is_ascii_blank(c),
{
    c == 0x20 || (0x09 <= c && c <= 0x0D)
}

fn is_wide_blank_bytes(x: u8, y: u8, z: u8) -> (r: bool)
    ensures
        r == is_wide_blank(x, y, z),
{
    (x == 0xE1 && y == 0x9A && z == 0x80) || (x == 0xE2 && y == 0x80 && ((0x80 <= z && z <= 0x8A) || z
        == 0xA8 || z == 0xA9 || z == 0xAF)) || (x == 0xE2 && y == 0x81 && z == 0x9F) || (x == 0xE3 && y
        == 0x80 && z == 0x80)
}

/// The length of the White_Space character at the start of `[i, end)`.
fn blank_len_at(b: &[u8], i: usize, end: usize) -> (r: usize)
    requires
        i <= end <= b@.len(),
    ensures
        r as nat == blank_at(b@, i as int, end as int),
        i + r <= end,
{
    if end - i >= 1 && is_ascii_blank_byte(b[i]) {
        1
    } else if end - i >= 2 && b[i] == 0xC2 && (b[i + 1] == 0x85 || b[i + 1] == 0xA0) {
        2
    } else if end - i >= 3 && is_wide_blank_bytes(b[i], b[i + 1], b[i + 2]) {
        3
    } else {
        0
    }
}

/// The length of the White_Space character at the end of `[lo, k)`.
fn blank_len_before(b: &[u8], lo: usize, k: usize) -> (r: usize)
    requires
        lo <= k <= b@.len(),
    ensures
        r as nat == blank_before(b@, lo as int, k as int),
        lo + r <= k,
{
    if k - lo >= 1 && is_ascii_blank_byte(b[k - 1]) {
        1
    } else if k - lo >= 2 && b[k - 2] == 0xC2 && (b[k - 1] == 0x85 || b[k - 1] == 0xA0) {
        2
    } else if k - lo >= 3 && is_wide_blank_bytes(b[k - 3], b[k - 2], b[k - 1]) {
        3
    } else {
        0
    }
}

/// Where `[i, end)` stops starting with White_Space characters.
fn skip_blank_bytes(b: &[u8], i: usize, end: usize) -> (r: usize)
    requires
        i <= end <= b@.len(),
    ensures
        r as int == skip_blank(b@, i as int, end as int),
        i <= r <= end,
{
    let mut j: usize = i;
    let mut w: usize = blank_len_at(b, j, end);
    while w > 0
        invariant
            i <= j <= end <= b@.len(),
            j + w <= end,
            w as nat == blank_at(b@, j as int, end as int),
            skip_blank(b@, i as int, end as int) == skip_blank(b@, j as int, end as int),
        decreases end - j,
    {
        j = j + w;
        w = blank_len_at(b, j, end);
    }
    j
}

/// The end of `[lo, k)` once trailing White_Space characters are dropped.
fn trim_back_bytes(b: &[u8], lo: usize, k: usize) -> (r: usize)
    requires
        lo <= k <= b@.len(),
    ensures
        r as int == trim_back(b@, lo as int, k as int),
        lo <= r <= k,
{
    let mut j: usize = k;
    let mut w: usize = blank_len_before(b, lo, j);
    while w > 0
        invariant
            lo <= j <= k <= b@.len(),
            lo + w <= j,
            w as nat == blank_before(b@, lo as int, j as int),
            trim_back(b@, lo as int, k as int) == trim_back(b@, lo as int, j as int),
        decreases j,
    {
        j = j - w;
        w = blank_len_before(b, lo, j);
    }
    j
}

/// The first index in `[i, end)` holding `c` (when `want`) or not holding
/// `c` (when `!want`), or `end`.
fn find_byte_in(b: &[u8], i: usize, end: usize, c: u8, want: bool) -> (r: usize)
    requires
        i <= end <= b@.len(),
    ensures
        r as int == find_byte(b@, i as int, end as int, c, want),
        i <= r <= end,
{
    let mut j: usize = i;
    while j < end && (b[j] == c) != want
        invariant
            i <= j <= end <= b@.len(),
            find_byte(b@, i as int, end as int, c, want) == find_byte(b@, j as int, end as int, c, want),
        decreases end - j,
    {
        j = j + 1;
    }
    j
}

/// The value of `c` as a digit in base `radix`, if it is one.
fn digit(c: u8, radix: u64) -> (r: Option<u64>)
    requires
        radix <= 16,
    ensures
        match r {
            Some(d) => digit_of(c, radix as nat) == Some(d as nat),
            None => digit_of(c, radix as nat) is None,
        },
{
    let d: u64 = if 0x30 <= c && c <= 0x39 {
        (c - 0x30) as u64
    } else if 0x61 <= c && c <= 0x66 {
        (c - 0x61 + 10) as u64
    } else if 0x41 <= c && c <= 0x46 {
        (c - 0x41 + 10) as u64
    } else {
        16
    };
    if d < radix {
        Some(d)
    } else {
        None
    }
}

proof fn lemma_digits_value_grows(b: Seq<u8>, k: int, p: int, j: int, radix: nat)
    requires
        k <= p <= j,
        radix >= 1,
    ensures
        digits_value(b, k, p, radix) <= digits_value(b, k, j, radix),
    decreases j - p,
{
    if p < j {
        lemma_digits_value_grows(b, k, p, j - 1, radix);
        let v = digits_value(b, k, j - 1, radix);
        assert(v * radix >= v) by (nonlinear_arith)
            requires
                radix >= 1,
        ;
    }
}

/// The number written in `[i, j)` in base `radix`, with an optional leading
/// `+`, if it is one and does not exceed `max`.
fn parse_number(b: &[u8], i: usize, j: usize, radix: u64, max: u64) -> (r: Option<u64>)
    requires
        i <= j <= b@.len(),
        1 <= radix <= 16,
    ensures
        match r {
            Some(v) => number_in(b@, i as int, j as int, radix as nat, max as nat) == Some(v as nat),
            None => number_in(b@, i as int, j as int, radix as nat, max as nat) is None,
        },
{
    let k = if i < j && b[i] == 0x2B {
        i + 1
    } else {
        i
    };
    if k >= j {
        return None;
    }
    let mut v: u64 = 0;
    let mut p: usize = k;
    while p < j
        invariant
            i <= k <= p <= j <= b@.len(),
            k < j,
            1 <= radix <= 16,
            k as int == (if i < j && b@[i as int] == 0x2B { i + 1 } else { i as int }),
            all_digits(b@, k as int, p as int, radix as nat),
            v as nat == digits_value(b@, k as int, p as int, radix as nat),
            v <= max,
        decreases j - p,
    {
        match digit(b[p], radix) {
            None => {
                return None;
            },
            Some(d) => {
                assert(v as u128 * radix as u128 + d as u128 <= 0x10_0000_0000_0000_000f) by (nonlinear_arith)
                    requires
                        v <= u64::MAX,
                        radix <= 16,
                        d < 16,
                ;
                let wide: u128 = v as u128 * radix as u128 + d as u128;
                assert(wide == v * radix + d) by (nonlinear_arith)
                    requires
                        v <= u64::MAX,
                        radix <= 16,
                        d < 16,
                        wide == v as u128 * radix as u128 + d as u128,
                ;
                if wide > max as u128 {
                    proof {
                        lemma_digits_value_grows(b@, k as int, p + 1, j as int, radix as nat);
                    }
                    return None;
                }
                v = wide as u64;
                p = p + 1;
            },
        }
    }
    Some(v)
}

/// The operation that the field `[i, j)` names.
fn parse_operation(b: &[u8], i: usize, j: usize) -> (r: Result<Operation, TraceError>)
    requires
        i <= j <= b@.len(),
    ensures
        match r {
            Ok(op) => operation_in(b@, i as int, j as int) == Some(op),
            Err(x) => operation_in(b@, i as int, j as int) is None && x == TraceError::UnknownOperation,
        },
{
    if j - i != 1 {
        Err(TraceError::UnknownOperation)
    } else if b[i] == 0x4C {
        Ok(Operation::Load)
    } else if b[i] == 0x53 {
        Ok(Operation::Store)
    } else if b[i] == 0x4D {
        Ok(Operation::Modify)
    } else if b[i] == 0x49 {
        Ok(Operation::Instruction)
    } else {
        Err(TraceError::UnknownOperation)
    }
}

/// The address and size that the field `[i, j)` holds.
fn parse_address_size(b: &[u8], i: usize, j: usize) -> (r: Result<(u64, u8), TraceError>)
    requires
        i <= j <= b@.len(),
    ensures
        r == operands_in(b@, i as int, j as int),
{
    let comma = find_byte_in(b, i, j, 0x2C, true);
    if comma == j {
        return Err(TraceError::Operands);
    }
    if find_byte_in(b, comma + 1, j, 0x2C, true) != j {
        return Err(TraceError::Operands);
    }
    let address = match parse_number(b, i, comma, 16, u64::MAX) {
        None => {
            return Err(TraceError::Address);
        },
        Some(a) => a,
    };
    let size = match parse_number(b, comma + 1, j, 10, 255) {
        None => {
            return Err(TraceError::Size);
        },
        Some(s) => s,
    };
    Ok((address, size as u8))
}

/// Appends the events of the line `[start, end)` to `out`.
fn parse_line(b: &[u8], start: usize, end: usize, out: &mut Vec<MemoryAccess>) -> (r: Result<(), TraceError>)
    requires
        start <= end <= b@.len(),
    ensures
        match r {
            Ok(()) => line_events(b@, start as int, end as int) matches Ok(events) && final(out)@ == old(out)@ + events,
            Err(x) => line_events(b@, start as int, end as int) == Err::<Seq<MemoryAccess>, _>(x),
        },
{
    let lo = skip_blank_bytes(b, start, end);
    let hi = trim_back_bytes(b, lo, end);
    let e1 = find_byte_in(b, lo, hi, 0x20, true);
    let s2 = find_byte_in(b, e1, hi, 0x20, false);
    let e2 = find_byte_in(b, s2, hi, 0x20, true);
    proof {
        lemma_find_byte(b@, lo as int, hi as int, 0x20, true);
        lemma_find_byte(b@, e1 as int, hi as int, 0x20, false);
        lemma_find_byte(b@, s2 as int, hi as int, 0x20, true);
    }
    if e1 == lo || e1 == hi || s2 == hi || e2 != hi {
        proof {
            if exists|x: int, y: int| splits_in_two(b@, lo as int, hi as int, x, y) {
                let (x, y) = choose|x: int, y: int| splits_in_two(b@, lo as int, hi as int, x, y);
                lemma_split_points(b@, lo as int, hi as int, x, y);
                if e2 != hi {
                    assert(b@[e2 as int] == 0x20);
                }
            }
        }
        return Err(TraceError::FieldCount);
    }
    proof {
        assert(splits_in_two(b@, lo as int, hi as int, e1 as int, s2 as int));
        let (x, y) = choose|x: int, y: int| splits_in_two(b@, lo as int, hi as int, x, y);
        lemma_split_points(b@, lo as int, hi as int, x, y);
    }
    let operation = match parse_operation(b, lo, e1) {
        Err(x) => {
            return Err(x);
        },
        Ok(op) => op,
    };
    let (address, size) = match parse_address_size(b, s2, hi) {
        Err(x) => {
            return Err(x);
        },
        Ok(pair) => pair,
    };
    let ghost events = events_of(operation, address, size);
    match operation {
        Operation::Modify => {
            out.push(MemoryAccess { operation: Operation::Load, address, size });
            out.push(MemoryAccess { operation: Operation::Store, address, size });
        },
        Operation::Instruction => {},
        _ => {
            out.push(MemoryAccess { operation, address, size });
        },
    }
    assert(out@ =~= old(out)@ + events);
    Ok(())
}

} // verus!
