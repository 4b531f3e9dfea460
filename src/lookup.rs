//! Looks up symbol addresses in a map file, and formats the answers.
use vstd::prelude::*;
use vstd::arithmetic::div_mod::{lemma_div_denominator, lemma_fundamental_div_mod};
use crate::cursor::{CharClass, Cursor, take_while, lemma_run_end_bounds};
use crate::extract::same_chars;
use crate::mapline::{line_symaddr, hex_number, hex_digit_value, pow16, lemma_parse_line_bounds};
use crate::update::{copy_chars, line_end, line_rename};

verus! {

/// The symbol table that the lines of `t` from offset `i` on build, on top
/// of `acc`: each line that parses maps its symbol to its address, and a
/// later line overrides an earlier one.
pub open spec fn symbols_map_from(t: Seq<char>, i: int, acc: Map<Seq<char>, u32>) -> Map<Seq<char>, u32>
    decreases t.len() - i,
    when 0 <= i <= t.len()
    via symbols_map_from_decreases
{
    let e = line_end(t, i);
    let acc2 = match line_rename(t.subrange(i, e)) {
        None => acc,
        Some((addr, sym)) => acc.insert(sym, addr),
    };
    if e >= t.len() {
        acc2
    } else {
        symbols_map_from(t, e + 1, acc2)
    }
}

#[via_fn]
proof fn symbols_map_from_decreases(t: Seq<char>, i: int, acc: Map<Seq<char>, u32>) {
    lemma_run_end_bounds(t, i, CharClass::Except('\n'));
}

/// The symbol table of the map text `t`.
pub open spec fn symbols_map(t: Seq<char>) -> Map<Seq<char>, u32> {
    symbols_map_from(t, 0, Map::empty())
}

/// The map that a list of `(symbol, address)` entries stands for: a later
/// entry overrides an earlier one.
pub open spec fn entries_map(s: Seq<(Seq<char>, u32)>) -> Map<Seq<char>, u32>
    decreases s.len(),
{
    if s.len() == 0 {
        Map::empty()
    } else {
        entries_map(s.drop_last()).insert(s.last().0, s.last().1)
    }
}

/// Symbols and their addresses, as read from a map file.
pub struct SymbolTable {
    entries: Vec<(Vec<char>, u32)>,
}

impl SymbolTable {
    pub closed spec fn entries_view(&self) -> Seq<(Seq<char>, u32)> {
        self.entries@.map_values(|p: (Vec<char>, u32)| (p.0@, p.1))
    }
}

impl View for SymbolTable {
    type V = Map<Seq<char>, u32>;

    closed spec fn view(&self) -> Map<Seq<char>, u32> {
        entries_map(self.entries_view())
    }
}

proof fn lemma_entries_map_get(s: Seq<(Seq<char>, u32)>, k: int, sym: Seq<char>)
    requires
        0 <= k <= s.len(),
        forall|j: int| k <= j < s.len() ==> (#[trigger] s[j]).0 != sym,
    ensures
        entries_map(s).contains_key(sym) == entries_map(s.take(k)).contains_key(sym),
        entries_map(s).contains_key(sym) ==> entries_map(s)[sym] == entries_map(s.take(k))[sym],
    decreases s.len(),
{
    if s.len() > k {
        let p = s.drop_last();
        assert(s.last() == s[s.len() - 1]);
        assert forall|j: int| k <= j < p.len() implies (#[trigger] p[j]).0 != sym by {
            assert(p[j] == s[j]);
        }
        lemma_entries_map_get(p, k, sym);
        assert(p.take(k) =~= s.take(k));
    } else {
        assert(s.take(k) =~= s);
    }
}

impl SymbolTable {
    /// Reads the table from the map text `text`: each line that parses
    /// maps its symbol to its address; a later line overrides an earlier
    /// one with the same symbol.
    pub fn from_map(text: &[char]) -> (r: SymbolTable)
        ensures
            r@ == symbols_map(text@),
    {
        let ghost t = text@;
        let mut entries: Vec<(Vec<char>, u32)> = Vec::new();
        let mut cur = Cursor::new(text);
        loop
            invariant
                cur.wf(),
                cur@.0 == t,
                t == text@,
                0 <= cur@.1 <= t.len(),
                symbols_map(t) == symbols_map_from(
                    t,
                    cur@.1,
                    entries_map(entries@.map_values(|p: (Vec<char>, u32)| (p.0@, p.1))),
                ),
            decreases t.len() - cur@.1,
        {
            let line = take_while(&mut cur, CharClass::Except('\n'));
            proof {
                cur.lemma_wf();
            }
            let ghost before = entries@.map_values(|p: (Vec<char>, u32)| (p.0@, p.1));
            match line_symaddr(line) {
                Some(sa) => {
                    let sym = copy_chars(sa.symbol);
                    entries.push((sym, sa.addr));
                    proof {
                        lemma_parse_line_bounds(line@);
                        let now = entries@.map_values(|p: (Vec<char>, u32)| (p.0@, p.1));
                        assert(now.drop_last() =~= before);
                    }
                },
                None => {},
            }
            match cur.peek() {
                Some(_) => cur.advance(),
                None => {
                    return SymbolTable { entries };
                },
            }
        }
    }

    /// The address of `sym`, if the table has it.
    pub fn get(&self, sym: &[char]) -> (r: Option<u32>)
        ensures
            r == (if self@.contains_key(sym@) {
                Some(self@[sym@])
            } else {
                None
            }),
    {
        let ghost s = self.entries_view();
        let mut k: usize = self.entries.len();
        while k > 0
            invariant
                s == self.entries_view(),
                k <= s.len(),
                forall|j: int| k <= j < s.len() ==> (#[trigger] s[j]).0 != sym@,
            decreases k,
        {
            k = k - 1;
            let entry = &self.entries[k];
            assert(s[k as int] == (entry.0@, entry.1));
            if same_chars(entry.0.as_slice(), sym) {
                proof {
                    lemma_entries_map_get(s, k + 1, sym@);
                    assert(s.take(k + 1).drop_last() =~= s.take(k as int));
                }
                return Some(entry.1);
            }
        }
        proof {
            lemma_entries_map_get(s, 0, sym@);
            assert(s.take(0) =~= Seq::<(Seq<char>, u32)>::empty());
        }
        None
    }
}

/// `c` is a digit or an upper-case letter `A` to `F`.
pub open spec fn is_upper_hex_digit(c: char) -> bool {
    ('0' <= c && c <= '9') || ('A' <= c && c <= 'F')
}

/// `addr` as eight upper-case hexadecimal digits, zero-padded.
pub fn hex8(addr: u32) -> (r: Vec<char>)
    ensures
        r@.len() == 8,
        hex_number(r@) == addr as int,
        forall|k: int| 0 <= k < 8 ==> is_upper_hex_digit(#[trigger] r@[k]),
{
    let mut out: Vec<char> = Vec::new();
    let mut p: u32 = 0x1000_0000;
    let mut k: usize = 0;
    proof {
        reveal_with_fuel(pow16, 9);
        assert(pow16(8) == 0x1_0000_0000);
        assert(pow16(7) == 0x1000_0000);
        let x = addr as int;
        assert(x / 0x1_0000_0000 == 0) by (nonlinear_arith)
            requires
                0 <= x < 0x1_0000_0000,
        ;
        assert(hex_number(out@) == 0);
    }
    while k < 8
        invariant
            k <= 8,
            out@.len() == k,
            k < 8 ==> p as int == pow16((7 - k) as nat),
            hex_number(out@) == addr as int / pow16((8 - k) as nat),
            forall|m: int| 0 <= m < k ==> is_upper_hex_digit(#[trigger] out@[m]),
        decreases 8 - k,
    {
        assert(pow16((8 - k) as nat) == 16 * pow16((7 - k) as nat));
        assert(p > 0) by {
            reveal_with_fuel(pow16, 9);
            assert(pow16((7 - k) as nat) >= 1) by {
                lemma_pow16_positive((7 - k) as nat);
            }
        }
        let q = addr / p;
        let d = q % 16;
        let c: char = if d < 10 {
            ((d as u8) + 48) as char
        } else {
            ((d as u8) + 55) as char
        };
        let ghost before = out@;
        out.push(c);
        proof {
            assert(out@.drop_last() =~= before);
            assert(hex_digit_value(c) == d as int);
            lemma_div_denominator(addr as int, p as int, 16);
            lemma_fundamental_div_mod(q as int, 16);
            assert(hex_number(out@) == hex_number(before) * 16 + d);
            assert(p as int * 16 == pow16((8 - k) as nat));
        }
        if k < 7 {
            proof {
                assert(pow16((7 - k) as nat) == 16 * pow16((6 - k) as nat));
            }
            p = p / 16;
        }
        k = k + 1;
    }
    out
}

proof fn lemma_pow16_positive(n: nat)
    ensures
        pow16(n) >= 1,
    decreases n,
{
    if n > 0 {
        lemma_pow16_positive((n - 1) as nat);
    }
}

/// The answer line for a symbol found in the table: the symbol, a space,
/// and its address as eight upper-case hexadecimal digits.
pub fn addr_line(sym: &[char], addr: u32) -> (r: Vec<char>)
    ensures
        r@.len() == sym@.len() + 9,
        r@.subrange(0, sym@.len() as int) == sym@,
        r@[sym@.len() as int] == ' ',
        hex_number(r@.subrange(sym@.len() + 1int, r@.len() as int)) == addr as int,
        forall|k: int| sym@.len() + 1 <= k < r@.len() ==> is_upper_hex_digit(#[trigger] r@[k]),
{
    let mut out = copy_chars(sym);
    out.push(' ');
    let digits = hex8(addr);
    let mut i: usize = 0;
    let ghost head = out@;
    while i < 8
        invariant
            i <= 8,
            digits@.len() == 8,
            head.len() == sym@.len() + 1,
            head.subrange(0, sym@.len() as int) == sym@,
            head[sym@.len() as int] == ' ',
            out@ == head + digits@.subrange(0, i as int),
        decreases 8 - i,
    {
        out.push(digits[i]);
        i = i + 1;
        assert(out@ =~= head + digits@.subrange(0, i as int));
    }
    assert(out@.subrange(sym@.len() + 1int, out@.len() as int) =~= digits@);
    assert(out@.subrange(0, sym@.len() as int) =~= head.subrange(0, sym@.len() as int));
    out
}

/// The answer for one query: its line where the table has the symbol.
pub fn lookup_line(table: &SymbolTable, sym: &[char]) -> (r: Option<Vec<char>>)
    ensures
        r is Some <==> table@.contains_key(sym@),
        match r {
            None => true,
            Some(line) => {
                &&& line@.subrange(0, sym@.len() as int) == sym@
                &&& line@.len() == sym@.len() + 9
                &&& line@[sym@.len() as int] == ' '
                &&& hex_number(line@.subrange(sym@.len() + 1int, line@.len() as int)) == table@[sym@] as int
                &&& forall|k: int| sym@.len() + 1 <= k < line@.len() ==> is_upper_hex_digit(#[trigger] line@[k])
            },
        },
{
    match table.get(sym) {
        Some(addr) => Some(addr_line(sym, addr)),
        None => None,
    }
}

} // verus!
