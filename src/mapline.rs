//! Finds an address and a symbol name on one line of a map file, whatever
//! the line's column layout.
use vstd::prelude::*;
use core::ops::Range;
use crate::cursor::{
    CharClass, Cursor, take_c_token, take_while, is_digit, is_hex_digit, is_ident_start,
    run_end, ident_end, lemma_run_end_bounds, lemma_ident_end_bounds, hex_digit, ident_start,
};

verus! {

/// The lowest accepted address.
pub const ADDR_MIN: u32 = 0x8000_0000;

/// One past the highest accepted address.
pub const ADDR_END: u32 = 0x8180_0000;

/// The number of hexadecimal digits in an address.
pub const ADDR_DIGITS: usize = 8;

/// Whether `c` belongs to one of Unicode's numeric general categories.
pub uninterp spec fn numeric_char(c: char) -> bool;

/// Whether `c` is numeric: among ASCII characters exactly the decimal
/// digits are; beyond ASCII, Unicode decides.
pub open spec fn is_numeric_char(c: char) -> bool {
    if (c as u32) < 128 {
        is_digit(c)
    } else {
        numeric_char(c)
    }
}

/// Relies on `char::is_numeric`: whether `c` is in Unicode category Nd, Nl
/// or No, of which ASCII holds only the decimal digits.
#[verifier::external_body]
fn is_numeric(c: char) -> (r: bool)
    ensures
        (c as u32) < 128 ==> r == is_digit(c),
        (c as u32) >= 128 ==> r == numeric_char(c),
{
    c.is_numeric()
}

/// The value of one hexadecimal digit.
pub open spec fn hex_digit_value(c: char) -> int {
    if '0' <= c && c <= '9' {
        c as int - '0' as int
    } else if 'a' <= c && c <= 'f' {
        c as int - 'a' as int + 10
    } else {
        c as int - 'A' as int + 10
    }
}

/// The value of a string of hexadecimal digits, most significant first.
pub open spec fn hex_number(s: Seq<char>) -> int
    decreases s.len(),
{
    if s.len() == 0 {
        0
    } else {
        hex_number(s.drop_last()) * 16 + hex_digit_value(s.last())
    }
}

pub open spec fn pow16(n: nat) -> int
    decreases n,
{
    if n == 0 {
        1
    } else {
        16 * pow16((n - 1) as nat)
    }
}

/// The eight characters of `l` from `i` on are hexadecimal digits.
pub open spec fn is_hex_window(l: Seq<char>, i: int) -> bool {
    &&& 0 <= i
    &&& i + ADDR_DIGITS <= l.len()
    &&& forall|k: int| i <= k < i + ADDR_DIGITS ==> is_hex_digit(#[trigger] l[k])
}

/// The number that the eight characters of `l` from `i` on spell.
pub open spec fn window_number(l: Seq<char>, i: int) -> int {
    hex_number(l.subrange(i, i + ADDR_DIGITS))
}

/// An address within the accepted window starts at `i`.
pub open spec fn is_addr_at(l: Seq<char>, i: int) -> bool {
    is_hex_window(l, i) && ADDR_MIN <= window_number(l, i) < ADDR_END
}

/// The leftmost `i` at or after `from` where an accepted address starts.
pub open spec fn first_addr_from(l: Seq<char>, from: int) -> Option<int>
    decreases l.len() - from,
{
    if from < 0 || from + ADDR_DIGITS > l.len() {
        None
    } else if is_addr_at(l, from) {
        Some(from)
    } else {
        first_addr_from(l, from + 1)
    }
}

/// Where the symbol search, at offset `i` of `l`, finds its start. A numeric
/// character there begins a hex-looking run that is skipped (the character,
/// then the hexadecimal digits after it); a letter or `_` is the start;
/// anything else is passed over. Running off the end finds nothing.
pub open spec fn symbol_start_from(l: Seq<char>, i: int) -> Option<int>
    decreases l.len() - i,
    when 0 <= i
    via symbol_start_from_decreases
{
    if i >= l.len() {
        None
    } else if is_numeric_char(l[i]) {
        let j = run_end(l, i + 1, CharClass::HexDigit);
        if j >= l.len() {
            None
        } else {
            symbol_start_from(l, j)
        }
    } else if is_ident_start(l[i]) {
        Some(i)
    } else {
        symbol_start_from(l, i + 1)
    }
}

#[via_fn]
proof fn symbol_start_from_decreases(l: Seq<char>, i: int) {
    if 0 <= i < l.len() && is_numeric_char(l[i]) {
        lemma_run_end_bounds(l, i + 1, CharClass::HexDigit);
    }
}

/// What a line parses to: the offset of the address, and the range of the
/// symbol; `None` where the line has no accepted address or no symbol.
pub open spec fn parse_line(l: Seq<char>) -> Option<(int, int, int)> {
    match first_addr_from(l, 0) {
        None => None,
        Some(a) => match symbol_start_from(l, 0) {
            None => None,
            Some(s) => Some((a, s, ident_end(l, s))),
        },
    }
}

/// The symbol search ends within the line.
pub proof fn lemma_symbol_start_bounds(l: Seq<char>, i: int)
    requires
        0 <= i,
    ensures
        match symbol_start_from(l, i) {
            None => true,
            Some(s) => i <= s < l.len(),
        },
    decreases l.len() - i,
{
    if i < l.len() {
        if is_numeric_char(l[i]) {
            let j = run_end(l, i + 1, CharClass::HexDigit);
            lemma_run_end_bounds(l, i + 1, CharClass::HexDigit);
            if j < l.len() {
                lemma_symbol_start_bounds(l, j);
            }
        } else if !is_ident_start(l[i]) {
            lemma_symbol_start_bounds(l, i + 1);
        }
    }
}

/// What a line parses to lies within it.
pub proof fn lemma_parse_line_bounds(l: Seq<char>)
    ensures
        match parse_line(l) {
            None => true,
            Some((a, s, e)) => 0 <= a && a + ADDR_DIGITS <= l.len() && 0 <= s <= e <= l.len(),
        },
{
    lemma_first_addr_bounds(l, 0);
    lemma_symbol_start_bounds(l, 0);
    match symbol_start_from(l, 0) {
        Some(s) => lemma_ident_end_bounds(l, s),
        None => {},
    }
}

proof fn lemma_first_addr_bounds(l: Seq<char>, from: int)
    ensures
        match first_addr_from(l, from) {
            None => true,
            Some(a) => from <= a && is_addr_at(l, a),
        },
    decreases l.len() - from,
{
    if !(from < 0 || from + ADDR_DIGITS > l.len()) && !is_addr_at(l, from) {
        lemma_first_addr_bounds(l, from + 1);
    }
}

proof fn lemma_first_addr_leftmost(l: Seq<char>, from: int)
    requires
        0 <= from,
    ensures
        match first_addr_from(l, from) {
            None => forall|j: int| from <= j ==> !#[trigger] is_addr_at(l, j),
            Some(a) => is_addr_at(l, a) && forall|j: int| from <= j < a ==> !#[trigger] is_addr_at(l, j),
        },
    decreases l.len() - from,
{
    if from + ADDR_DIGITS <= l.len() && !is_addr_at(l, from) {
        lemma_first_addr_leftmost(l, from + 1);
    }
}

/// The address that a line gives is the leftmost run of eight hexadecimal
/// digits whose value lies in `[ADDR_MIN, ADDR_END)`; runs before it are out
/// of that window, and a line with no such run gives nothing.
pub proof fn lemma_leftmost_address_in_window(l: Seq<char>)
    ensures
        match parse_line(l) {
            None => true,
            Some((a, _, _)) => {
                &&& is_hex_window(l, a)
                &&& ADDR_MIN <= window_number(l, a) < ADDR_END
                &&& forall|j: int| 0 <= j < a ==> !#[trigger] is_addr_at(l, j)
            },
        },
        (forall|j: int| !#[trigger] is_addr_at(l, j)) ==> parse_line(l) is None,
{
    lemma_first_addr_leftmost(l, 0);
    lemma_first_addr_bounds(l, 0);
}

/// An address and a symbol found on one line, with their ranges in it.
pub struct SymAddr<'a> {
    pub addr: u32,
    pub addr_range: Range<usize>,
    pub symbol: &'a [char],
    pub symbol_range: Range<usize>,
}

/// `r` is what `parse_line` gives for `l`, in full.
pub open spec fn parsed_as(l: Seq<char>, r: Option<SymAddr>) -> bool {
    match parse_line(l) {
        None => r is None,
        Some((a, s, e)) => match r {
            None => false,
            Some(sa) => {
                &&& sa.addr as int == window_number(l, a)
                &&& sa.addr_range.start == a
                &&& sa.addr_range.end == a + ADDR_DIGITS
                &&& sa.symbol_range.start == s
                &&& sa.symbol_range.end == e
                &&& s <= e <= l.len()
                &&& sa.symbol@ == l.subrange(s, e)
            },
        },
    }
}

proof fn lemma_hex_number_bound(s: Seq<char>)
    requires
        forall|k: int| 0 <= k < s.len() ==> is_hex_digit(#[trigger] s[k]),
    ensures
        0 <= hex_number(s) < pow16(s.len()),
    decreases s.len(),
{
    if s.len() > 0 {
        let p = s.drop_last();
        assert forall|k: int| 0 <= k < p.len() implies is_hex_digit(#[trigger] p[k]) by {
            assert(p[k] == s[k]);
        }
        lemma_hex_number_bound(p);
        let h = hex_number(p);
        let q = pow16(p.len());
        let d = hex_digit_value(s.last());
        assert(0 <= d < 16);
        assert(0 <= h * 16 + d < q * 16) by (nonlinear_arith)
            requires
                0 <= h < q,
                0 <= d < 16,
        ;
    }
}

proof fn lemma_pow16_mono(a: nat, b: nat)
    requires
        a <= b,
    ensures
        1 <= pow16(a) <= pow16(b),
    decreases b,
{
    if b > 0 {
        if a < b {
            lemma_pow16_mono(a, (b - 1) as nat);
        } else {
            lemma_pow16_mono(0, (b - 1) as nat);
        }
    }
}

/// The value of the window at `i`, where all eight of its characters are
/// hexadecimal digits.
fn window_value(line: &[char], i: usize) -> (r: Option<u32>)
    requires
        i + ADDR_DIGITS <= line@.len(),
    ensures
        r is Some <==> is_hex_window(line@, i as int),
        r is Some ==> r->0 as int == window_number(line@, i as int),
{
    let ghost l = line@;
    let n = line.len();
    let mut cur: u64 = 0;
    let mut k: usize = 0;
    while k < ADDR_DIGITS
        invariant
            l == line@,
            n == l.len(),
            i + ADDR_DIGITS <= l.len(),
            k <= ADDR_DIGITS,
            forall|m: int| i <= m < i + k ==> is_hex_digit(#[trigger] l[m]),
            cur as int == hex_number(l.subrange(i as int, i + k)),
            cur < pow16(k as nat),
        decreases ADDR_DIGITS - k,
    {
        let c = line[i + k];
        if !hex_digit(c) {
            return None;
        }
        let d: u64 = if '0' <= c && c <= '9' {
            (c as u64) - ('0' as u64)
        } else if 'a' <= c && c <= 'f' {
            (c as u64) - ('a' as u64) + 10
        } else {
            (c as u64) - ('A' as u64) + 10
        };
        proof {
            let ghost s = l.subrange(i as int, i + k + 1);
            assert(s.drop_last() =~= l.subrange(i as int, i + k));
            assert(pow16((k + 1) as nat) == 16 * pow16(k as nat));
            lemma_pow16_mono((k + 1) as nat, 8);
            assert(pow16(8) == 0x1_0000_0000) by {
                reveal_with_fuel(pow16, 9);
            }
            assert(cur * 16 + d < 16 * pow16(k as nat)) by (nonlinear_arith)
                requires
                    cur < pow16(k as nat),
                    d < 16,
            ;
        }
        cur = cur * 16 + d;
        k = k + 1;
    }
    assert(pow16(8) == 0x1_0000_0000) by {
        reveal_with_fuel(pow16, 9);
    }
    assert(l.subrange(i as int, i + ADDR_DIGITS) == l.subrange(i as int, i + k));
    Some(cur as u32)
}

/// The offset of the leftmost accepted address of `line`.
fn find_addr(line: &[char]) -> (r: Option<(usize, u32)>)
    ensures
        first_addr_from(line@, 0) == match r {
            None => None::<int>,
            Some((a, _)) => Some(a as int),
        },
        match r {
            None => true,
            Some((a, _)) => a + ADDR_DIGITS <= line@.len(),
        },
        match r {
            None => true,
            Some((a, v)) => v as int == window_number(line@, a as int),
        },
{
    let len = line.len();
    if len < ADDR_DIGITS {
        return None;
    }
    let mut i: usize = 0;
    while i <= len - ADDR_DIGITS
        invariant
            len == line@.len(),
            ADDR_DIGITS <= len,
            i <= len - ADDR_DIGITS + 1,
            first_addr_from(line@, 0) == first_addr_from(line@, i as int),
        decreases len - i,
    {
        match window_value(line, i) {
            Some(v) => {
                if ADDR_MIN <= v && v < ADDR_END {
                    return Some((i, v));
                }
            },
            None => {},
        }
        i = i + 1;
    }
    None
}

/// Finds, on one line, the leftmost 8-digit hexadecimal address within
/// `[ADDR_MIN, ADDR_END)`, and the first identifier that the symbol search
/// reaches from the line's start (see `symbol_start_from`). `None` where
/// either is missing.
pub fn line_symaddr(line: &[char]) -> (r: Option<SymAddr<'_>>)
    ensures
        parsed_as(line@, r),
{
    let (addr_start, addr) = match find_addr(line) {
        Some(found) => found,
        None => return None,
    };
    let ghost l = line@;
    let n = line.len();
    let mut cur = Cursor::new(line);
    loop
        invariant
            cur.wf(),
            cur@.0 == l,
            l == line@,
            0 <= cur@.1,
            symbol_start_from(l, 0) == symbol_start_from(l, cur@.1),
        ensures
            cur.wf(),
            cur@.0 == l,
            symbol_start_from(l, 0) == Some(cur@.1),
        decreases l.len() - cur@.1,
    {
        proof {
            cur.lemma_wf();
        }
        let c = match cur.peek() {
            Some(c) => c,
            None => return None,
        };
        if is_numeric(c) {
            cur.advance();
            take_while(&mut cur, CharClass::HexDigit);
            if cur.peek().is_none() {
                return None;
            }
        } else if ident_start(c) {
            break;
        } else {
            cur.advance();
        }
    }
    let start = cur.offset();
    let symbol = take_c_token(&mut cur);
    let end = cur.offset();
    proof {
        cur.lemma_wf();
    }
    Some(SymAddr {
        addr,
        addr_range: addr_start..addr_start + ADDR_DIGITS,
        symbol,
        symbol_range: start..end,
    })
}

} // verus!
