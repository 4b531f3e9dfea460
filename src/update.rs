//! Renames symbols in a map file by address. The renames become a list of
//! edits, each replacing one symbol's range with a new name, and the edits
//! are applied to the unchanged input text to build the new one.
use vstd::prelude::*;
use std::collections::HashMap;
use crate::cursor::{CharClass, Cursor, take_while, run_end, lemma_run_end_bounds};
use crate::mapline::{line_symaddr, parse_line, window_number, lemma_parse_line_bounds};

verus! {

broadcast use vstd::std_specs::hash::group_hash_axioms;

/// A replacement of the characters in `[start, end)` by `text`.
pub struct Edit {
    pub start: usize,
    pub end: usize,
    pub text: Vec<char>,
}

impl View for Edit {
    type V = (int, int, Seq<char>);

    open spec fn view(&self) -> (int, int, Seq<char>) {
        (self.start as int, self.end as int, self.text@)
    }
}

/// The edits in view.
pub open spec fn edits_view(edits: Seq<Edit>) -> Seq<(int, int, Seq<char>)> {
    edits.map_values(|e: Edit| e@)
}

/// Each edit lies within a text of length `len`, and each ends at or before
/// the start of the next.
pub open spec fn edits_ordered(edits: Seq<(int, int, Seq<char>)>, len: int) -> bool {
    &&& forall|k: int| 0 <= k < edits.len() ==> 0 <= (#[trigger] edits[k]).0 <= edits[k].1 <= len
    &&& forall|k: int, m: int| 0 <= k < m < edits.len() ==> (#[trigger] edits[k]).1 <= (#[trigger] edits[m]).0
}

/// `t` with the ordered `edits` applied: each range replaced by its text,
/// every other character kept in place.
pub open spec fn apply(t: Seq<char>, edits: Seq<(int, int, Seq<char>)>) -> Seq<char>
    decreases edits.len(),
{
    if edits.len() == 0 {
        t
    } else {
        let (s, e, r) = edits.last();
        apply(t.subrange(0, s), edits.drop_last()) + r + t.subrange(e, t.len() as int)
    }
}

/// Text appended after the last edit is carried through.
pub proof fn lemma_apply_append(u: Seq<char>, v: Seq<char>, edits: Seq<(int, int, Seq<char>)>)
    requires
        edits_ordered(edits, u.len() as int),
    ensures
        apply(u + v, edits) == apply(u, edits) + v,
    decreases edits.len(),
{
    if edits.len() == 0 {
    } else {
        let (s, e, r) = edits.last();
        let p = edits.drop_last();
        assert(edits.last() == edits[edits.len() - 1]);
        assert(edits_ordered(p, s)) by {
            assert forall|k: int| 0 <= k < p.len() implies 0 <= (#[trigger] p[k]).0 <= p[k].1 <= s by {
                assert(p[k] == edits[k]);
                assert(edits[k].1 <= edits[edits.len() - 1].0);
            }
            assert forall|k: int, m: int| 0 <= k < m < p.len() implies (#[trigger] p[k]).1 <= (#[trigger] p[m]).0 by {
                assert(p[k] == edits[k] && p[m] == edits[m]);
            }
        }
        assert((u + v).subrange(0, s) =~= u.subrange(0, s));
        assert((u + v).subrange(e, (u + v).len() as int) =~= u.subrange(e, u.len() as int) + v);
    }
}

/// Edits that put back what they replace leave the text as it was.
pub proof fn lemma_apply_same_text(t: Seq<char>, edits: Seq<(int, int, Seq<char>)>)
    requires
        edits_ordered(edits, t.len() as int),
        forall|k: int| 0 <= k < edits.len() ==> (#[trigger] edits[k]).2 == t.subrange(edits[k].0, edits[k].1),
    ensures
        apply(t, edits) == t,
    decreases edits.len(),
{
    if edits.len() > 0 {
        let (s, e, r) = edits.last();
        let p = edits.drop_last();
        let u = t.subrange(0, s);
        assert(edits.last() == edits[edits.len() - 1]);
        assert(edits_ordered(p, s)) by {
            assert forall|k: int| 0 <= k < p.len() implies 0 <= (#[trigger] p[k]).0 <= p[k].1 <= s by {
                assert(p[k] == edits[k]);
                assert(edits[k].1 <= edits[edits.len() - 1].0);
            }
            assert forall|k: int, m: int| 0 <= k < m < p.len() implies (#[trigger] p[k]).1 <= (#[trigger] p[m]).0 by {
                assert(p[k] == edits[k] && p[m] == edits[m]);
            }
        }
        assert forall|k: int| 0 <= k < p.len() implies (#[trigger] p[k]).2 == u.subrange(p[k].0, p[k].1) by {
            assert(p[k] == edits[k]);
            assert(edits[k].1 <= edits[edits.len() - 1].0);
            assert(u.subrange(p[k].0, p[k].1) =~= t.subrange(p[k].0, p[k].1));
        }
        lemma_apply_same_text(u, p);
        assert(t =~= u + t.subrange(s, e) + t.subrange(e, t.len() as int));
    }
}

/// A copy of `s`.
pub fn copy_chars(s: &[char]) -> (r: Vec<char>)
    ensures
        r@ == s@,
{
    let mut r: Vec<char> = Vec::new();
    let mut i: usize = 0;
    while i < s.len()
        invariant
            i <= s@.len(),
            r@ == s@.subrange(0, i as int),
        decreases s@.len() - i,
    {
        r.push(s[i]);
        i = i + 1;
        assert(r@ =~= s@.subrange(0, i as int));
    }
    assert(s@.subrange(0, i as int) =~= s@);
    r
}

/// Appends the characters of `s` to `out`.
fn push_chars(out: &mut Vec<char>, s: &[char])
    ensures
        final(out)@ == old(out)@ + s@,
{
    let mut i: usize = 0;
    while i < s.len()
        invariant
            i <= s@.len(),
            out@ == old(out)@ + s@.subrange(0, i as int),
        decreases s@.len() - i,
    {
        out.push(s[i]);
        i = i + 1;
        assert(out@ =~= old(out)@ + s@.subrange(0, i as int));
    }
    assert(s@.subrange(0, i as int) =~= s@);
}

/// Applies ordered edits to `text` and returns the new text.
pub fn apply_edits(text: &[char], edits: &[Edit]) -> (r: Vec<char>)
    requires
        edits_ordered(edits_view(edits@), text@.len() as int),
    ensures
        r@ == apply(text@, edits_view(edits@)),
{
    let ghost t = text@;
    let ghost ev = edits_view(edits@);
    let mut out: Vec<char> = Vec::new();
    let mut cur: usize = 0;
    let mut k: usize = 0;
    while k < edits.len()
        invariant
            t == text@,
            ev == edits_view(edits@),
            edits_ordered(ev, t.len() as int),
            k <= ev.len(),
            cur <= t.len(),
            k > 0 ==> cur as int == ev[k - 1].1,
            k == 0 ==> cur == 0,
            edits_ordered(ev.take(k as int), cur as int),
            out@ == apply(t.subrange(0, cur as int), ev.take(k as int)),
        decreases ev.len() - k,
    {
        let ed = &edits[k];
        assert(ev[k as int] == ed@);
        assert(cur <= ed.start);
        let ghost before = ev.take(k as int);
        proof {
            lemma_apply_append(t.subrange(0, cur as int), t.subrange(cur as int, ed.start as int), before);
            assert(t.subrange(0, cur as int) + t.subrange(cur as int, ed.start as int)
                =~= t.subrange(0, ed.start as int));
        }
        push_chars(&mut out, &text[cur..ed.start]);
        push_chars(&mut out, ed.text.as_slice());
        proof {
            let after = ev.take(k + 1);
            assert(after.drop_last() =~= before);
            assert(after.last() == ed@);
            assert(t.subrange(0, ed.end as int).subrange(0, ed.start as int) =~= t.subrange(0, ed.start as int));
            assert(t.subrange(0, ed.end as int).subrange(ed.end as int, ed.end as int) =~= Seq::<char>::empty());
            assert(out@ =~= apply(t.subrange(0, ed.end as int), after));
            assert forall|m: int| 0 <= m < after.len() implies 0 <= (#[trigger] after[m]).0 <= after[m].1 <= ed.end by {
                assert(after[m] == ev[m]);
            }
        }
        cur = ed.end;
        k = k + 1;
    }
    proof {
        assert(ev.take(k as int) =~= ev);
        lemma_apply_append(t.subrange(0, cur as int), t.subrange(cur as int, t.len() as int), ev);
        assert(t.subrange(0, cur as int) + t.subrange(cur as int, t.len() as int) =~= t);
    }
    push_chars(&mut out, &text[cur..text.len()]);
    out
}

/// The end of the line of `t` that starts at `i`: the next line feed, or
/// the end of the text.
pub open spec fn line_end(t: Seq<char>, i: int) -> int {
    run_end(t, i, CharClass::Except('\n'))
}

/// The address and the symbol that a line gives, if it parses.
pub open spec fn line_rename(l: Seq<char>) -> Option<(u32, Seq<char>)> {
    match parse_line(l) {
        None => None,
        Some((a, s, e)) => Some((window_number(l, a) as u32, l.subrange(s, e))),
    }
}

/// The rename table that the lines of `t` from offset `i` on build, on top
/// of `acc`: each line that parses maps its address to its symbol, and a
/// later line overrides an earlier one.
pub open spec fn renames_from(t: Seq<char>, i: int, acc: Map<u32, Seq<char>>) -> Map<u32, Seq<char>>
    decreases t.len() - i,
    when 0 <= i <= t.len()
    via renames_from_decreases
{
    let e = line_end(t, i);
    let acc2 = match line_rename(t.subrange(i, e)) {
        None => acc,
        Some((addr, sym)) => acc.insert(addr, sym),
    };
    if e >= t.len() {
        acc2
    } else {
        renames_from(t, e + 1, acc2)
    }
}

#[via_fn]
proof fn renames_from_decreases(t: Seq<char>, i: int, acc: Map<u32, Seq<char>>) {
    lemma_run_end_bounds(t, i, CharClass::Except('\n'));
}

/// The rename table that the lines of `t` build.
pub open spec fn rename_map(t: Seq<char>) -> Map<u32, Seq<char>> {
    renames_from(t, 0, Map::empty())
}

/// A rename table in view: addresses to names.
pub open spec fn table_view(m: Map<u32, Vec<char>>) -> Map<u32, Seq<char>> {
    m.map_values(|v: Vec<char>| v@)
}

/// The edit that the line of `t` starting at `i` calls for under `tbl`:
/// its symbol replaced by the new name of its address, if it has one.
pub open spec fn line_edit(t: Seq<char>, tbl: Map<u32, Seq<char>>, i: int) -> Seq<(int, int, Seq<char>)> {
    let l = t.subrange(i, line_end(t, i));
    match parse_line(l) {
        None => seq![],
        Some((a, s, e)) => {
            let addr = window_number(l, a) as u32;
            if tbl.contains_key(addr) {
                seq![(i + s, i + e, tbl[addr])]
            } else {
                seq![]
            }
        },
    }
}

/// The edits that `tbl` calls for on the lines of `t` from offset `i` on.
pub open spec fn rename_edits_from(t: Seq<char>, tbl: Map<u32, Seq<char>>, i: int) -> Seq<(int, int, Seq<char>)>
    decreases t.len() - i,
    when 0 <= i <= t.len()
    via rename_edits_from_decreases
{
    let e = line_end(t, i);
    if e >= t.len() {
        line_edit(t, tbl, i)
    } else {
        line_edit(t, tbl, i) + rename_edits_from(t, tbl, e + 1)
    }
}

#[via_fn]
proof fn rename_edits_from_decreases(t: Seq<char>, tbl: Map<u32, Seq<char>>, i: int) {
    lemma_run_end_bounds(t, i, CharClass::Except('\n'));
}

/// The edits that `tbl` calls for on the whole map text `t`.
pub open spec fn rename_edits(t: Seq<char>, tbl: Map<u32, Seq<char>>) -> Seq<(int, int, Seq<char>)> {
    rename_edits_from(t, tbl, 0)
}

/// A line's edit lies within the line.
pub proof fn lemma_line_edit_bounds(t: Seq<char>, tbl: Map<u32, Seq<char>>, i: int)
    requires
        0 <= i <= t.len(),
    ensures
        line_edit(t, tbl, i).len() <= 1,
        forall|k: int| 0 <= k < line_edit(t, tbl, i).len() ==>
            i <= (#[trigger] line_edit(t, tbl, i)[k]).0 <= line_edit(t, tbl, i)[k].1 <= line_end(t, i),
{
    lemma_run_end_bounds(t, i, CharClass::Except('\n'));
    lemma_parse_line_bounds(t.subrange(i, line_end(t, i)));
}

/// The edits for the lines from `i` on are ordered and start at or after `i`.
pub proof fn lemma_rename_edits_ordered(t: Seq<char>, tbl: Map<u32, Seq<char>>, i: int)
    requires
        0 <= i <= t.len(),
    ensures
        edits_ordered(rename_edits_from(t, tbl, i), t.len() as int),
        forall|k: int| 0 <= k < rename_edits_from(t, tbl, i).len() ==> i <= (#[trigger] rename_edits_from(t, tbl, i)[k]).0,
    decreases t.len() - i,
{
    let e = line_end(t, i);
    lemma_run_end_bounds(t, i, CharClass::Except('\n'));
    lemma_line_edit_bounds(t, tbl, i);
    let here = line_edit(t, tbl, i);
    if e < t.len() {
        lemma_rename_edits_ordered(t, tbl, e + 1);
        let rest = rename_edits_from(t, tbl, e + 1);
        let all = here + rest;
        assert(all == rename_edits_from(t, tbl, i));
        assert forall|k: int, m: int| 0 <= k < m < all.len() implies (#[trigger] all[k]).1 <= (#[trigger] all[m]).0 by {
            if k < here.len() {
                assert(all[k] == here[k]);
                assert(all[m] == rest[m - here.len()]);
            } else {
                assert(all[k] == rest[k - here.len()]);
                assert(all[m] == rest[m - here.len()]);
            }
        }
        assert forall|k: int| 0 <= k < all.len() implies 0 <= (#[trigger] all[k]).0 <= all[k].1 <= t.len() && i <= all[k].0 by {
            if k < here.len() {
                assert(all[k] == here[k]);
            } else {
                assert(all[k] == rest[k - here.len()]);
            }
        }
    }
}

/// Builds the rename table from lines of text, such as `new_name 80010000`:
/// each line that parses maps its address to its symbol; a later line
/// overrides an earlier one with the same address.
pub fn rename_table(input: &[char]) -> (r: HashMap<u32, Vec<char>>)
    ensures
        table_view(r@) == rename_map(input@),
{
    let ghost t = input@;
    let mut table: HashMap<u32, Vec<char>> = HashMap::new();
    let mut cur = Cursor::new(input);
    proof {
        assert(table_view(table@) =~= Map::<u32, Seq<char>>::empty());
    }
    loop
        invariant
            cur.wf(),
            cur@.0 == t,
            t == input@,
            0 <= cur@.1 <= t.len(),
            rename_map(t) == renames_from(t, cur@.1, table_view(table@)),
        decreases t.len() - cur@.1,
    {
        let ghost i = cur@.1;
        let line = take_while(&mut cur, CharClass::Except('\n'));
        proof {
            cur.lemma_wf();
        }
        let ghost before = table_view(table@);
        match line_symaddr(line) {
            Some(sa) => {
                let sym = copy_chars(sa.symbol);
                table.insert(sa.addr, sym);
                proof {
                    lemma_parse_line_bounds(line@);
                    assert(table_view(table@) =~= before.insert(sa.addr, sa.symbol@));
                }
            },
            None => {},
        }
        match cur.peek() {
            Some(_) => cur.advance(),
            None => {
                return table;
            },
        }
    }
}

/// The edits that `table` calls for on the map text `text`, in text order.
pub fn rename_edits_of(table: &HashMap<u32, Vec<char>>, text: &[char]) -> (r: Vec<Edit>)
    ensures
        edits_view(r@) == rename_edits(text@, table_view(table@)),
{
    let ghost t = text@;
    let ghost tbl = table_view(table@);
    let mut edits: Vec<Edit> = Vec::new();
    let n = text.len();
    let mut cur = Cursor::new(text);
    loop
        invariant
            n == text@.len(),
            cur.wf(),
            cur@.0 == t,
            t == text@,
            tbl == table_view(table@),
            0 <= cur@.1 <= t.len(),
            rename_edits(t, tbl) == edits_view(edits@) + rename_edits_from(t, tbl, cur@.1),
        decreases t.len() - cur@.1,
    {
        let ghost i = cur@.1;
        let start = cur.offset();
        let line = take_while(&mut cur, CharClass::Except('\n'));
        proof {
            cur.lemma_wf();
        }
        let ghost here = line_edit(t, tbl, i);
        let ghost before = edits_view(edits@);
        match line_symaddr(line) {
            Some(sa) => {
                proof {
                    lemma_parse_line_bounds(line@);
                }
                match table.get(&sa.addr) {
                    Some(name) => {
                        let ed = Edit {
                            start: start + sa.symbol_range.start,
                            end: start + sa.symbol_range.end,
                            text: copy_chars(name.as_slice()),
                        };
                        edits.push(ed);
                        proof {
                            assert(edits_view(edits@) =~= before + here);
                        }
                    },
                    None => {
                        assert(edits_view(edits@) =~= before + here);
                    },
                }
            },
            None => {
                assert(edits_view(edits@) =~= before + here);
            },
        }
        match cur.peek() {
            Some(_) => {
                cur.advance();
                assert(rename_edits_from(t, tbl, i) == here + rename_edits_from(t, tbl, cur@.1));
            },
            None => {
                assert(rename_edits_from(t, tbl, i) == here);
                assert(edits_view(edits@) =~= rename_edits(t, tbl));
                return edits;
            },
        }
    }
}

/// The result of renaming symbols in a map text: the new text, and the
/// `(old name, new name)` pairs of the replacements, from the end of the
/// text toward its start.
pub struct MapUpdate {
    pub text: Vec<char>,
    pub renames: Vec<(Vec<char>, Vec<char>)>,
}

/// The reported pairs in view.
pub open spec fn renames_view(s: Seq<(Vec<char>, Vec<char>)>) -> Seq<(Seq<char>, Seq<char>)> {
    s.map_values(|p: (Vec<char>, Vec<char>)| (p.0@, p.1@))
}

/// The `(old name, new name)` pair of each edit of `t`, last edit first.
pub open spec fn reported(t: Seq<char>, edits: Seq<(int, int, Seq<char>)>) -> Seq<(Seq<char>, Seq<char>)> {
    Seq::new(
        edits.len(),
        |k: int|
            {
                let ed = edits[edits.len() - 1 - k];
                (t.subrange(ed.0, ed.1), ed.2)
            },
    )
}

/// Renames symbols in the map text `text`: on each line whose address has
/// an entry in `table`, the line's symbol is replaced by that entry. All
/// other characters are kept.
pub fn update_map(table: &HashMap<u32, Vec<char>>, text: &[char]) -> (r: MapUpdate)
    ensures
        r.text@ == apply(text@, rename_edits(text@, table_view(table@))),
        renames_view(r.renames@) == reported(text@, rename_edits(text@, table_view(table@))),
{
    let ghost t = text@;
    let ghost ev = rename_edits(t, table_view(table@));
    let edits = rename_edits_of(table, text);
    proof {
        lemma_rename_edits_ordered(t, table_view(table@), 0);
    }
    let new_text = apply_edits(text, edits.as_slice());
    let mut renames: Vec<(Vec<char>, Vec<char>)> = Vec::new();
    let mut k: usize = edits.len();
    while k > 0
        invariant
            t == text@,
            ev == edits_view(edits@),
            edits_ordered(ev, t.len() as int),
            k <= ev.len(),
            renames_view(renames@) == reported(t, ev).take(ev.len() - k),
        decreases k,
    {
        k = k - 1;
        let ed = &edits[k];
        assert(ev[k as int] == ed@);
        let old_name = copy_chars(&text[ed.start..ed.end]);
        let new_name = copy_chars(ed.text.as_slice());
        let ghost before = renames_view(renames@);
        let ghost pair = (old_name@, new_name@);
        assert(pair == reported(t, ev)[ev.len() - 1 - k]);
        renames.push((old_name, new_name));
        assert(renames_view(renames@) =~= before.push(pair));
        assert(renames_view(renames@) =~= reported(t, ev).take(ev.len() - k));
    }
    assert(reported(t, ev).take(ev.len() as int) =~= reported(t, ev));
    MapUpdate { text: new_text, renames }
}

/// The report line for one replacement: `old -> new`.
pub fn rename_line(old: &[char], new: &[char]) -> (r: Vec<char>)
    ensures
        r@ == old@ + seq![' ', '-', '>', ' '] + new@,
{
    let mut out = copy_chars(old);
    let arrow: [char; 4] = [' ', '-', '>', ' '];
    push_chars(&mut out, &arrow);
    push_chars(&mut out, new);
    assert(arrow@ =~= seq![' ', '-', '>', ' ']);
    out
}

/// `i` is where a line of `t` starts.
pub open spec fn is_line_start(t: Seq<char>, i: int) -> bool {
    0 <= i <= t.len() && (i == 0 || t[i - 1] == '\n')
}

/// No line of `t` gives an address and a symbol.
pub open spec fn no_line_parses(t: Seq<char>) -> bool {
    forall|i: int| is_line_start(t, i) ==> #[trigger] line_rename(t.subrange(i, line_end(t, i))) is None
}

/// On every line of `t` that gives an address with an entry in `tbl`,
/// that entry is the line's own symbol.
pub open spec fn renames_to_same(t: Seq<char>, tbl: Map<u32, Seq<char>>) -> bool {
    forall|i: int| #[trigger] is_line_start(t, i) ==> match line_rename(t.subrange(i, line_end(t, i))) {
        None => true,
        Some((addr, sym)) => tbl.contains_key(addr) ==> tbl[addr] == sym,
    }
}

proof fn lemma_next_line_start(t: Seq<char>, i: int)
    requires
        0 <= i <= t.len(),
        line_end(t, i) < t.len(),
    ensures
        is_line_start(t, line_end(t, i) + 1),
{
    lemma_run_end_bounds(t, i, CharClass::Except('\n'));
}

proof fn lemma_no_parse_keeps_table(t: Seq<char>, i: int, acc: Map<u32, Seq<char>>)
    requires
        is_line_start(t, i),
        no_line_parses(t),
    ensures
        renames_from(t, i, acc) == acc,
    decreases t.len() - i,
{
    lemma_run_end_bounds(t, i, CharClass::Except('\n'));
    assert(line_rename(t.subrange(i, line_end(t, i))) is None);
    if line_end(t, i) < t.len() {
        lemma_next_line_start(t, i);
        lemma_no_parse_keeps_table(t, line_end(t, i) + 1, acc);
    }
}

proof fn lemma_empty_table_no_edits(t: Seq<char>, tbl: Map<u32, Seq<char>>, i: int)
    requires
        0 <= i <= t.len(),
        tbl == Map::<u32, Seq<char>>::empty(),
    ensures
        rename_edits_from(t, tbl, i) == Seq::<(int, int, Seq<char>)>::empty(),
    decreases t.len() - i,
{
    lemma_run_end_bounds(t, i, CharClass::Except('\n'));
    assert(line_edit(t, tbl, i) =~= Seq::<(int, int, Seq<char>)>::empty());
    if line_end(t, i) < t.len() {
        lemma_empty_table_no_edits(t, tbl, line_end(t, i) + 1);
        assert(rename_edits_from(t, tbl, i) =~= Seq::<(int, int, Seq<char>)>::empty());
    }
}

/// Renames read from input in which no line gives an address form an empty
/// table, which edits nothing: the map text stays as it is and nothing is
/// reported.
pub proof fn lemma_update_without_addresses(input: Seq<char>, t: Seq<char>)
    requires
        no_line_parses(input),
    ensures
        rename_map(input) == Map::<u32, Seq<char>>::empty(),
        rename_edits(t, rename_map(input)).len() == 0,
        apply(t, rename_edits(t, rename_map(input))) == t,
        reported(t, rename_edits(t, rename_map(input))).len() == 0,
{
    lemma_no_parse_keeps_table(input, 0, Map::empty());
    lemma_empty_table_no_edits(t, rename_map(input), 0);
}

proof fn lemma_same_names_same_edits(t: Seq<char>, tbl: Map<u32, Seq<char>>, i: int)
    requires
        is_line_start(t, i),
        renames_to_same(t, tbl),
    ensures
        forall|k: int| 0 <= k < rename_edits_from(t, tbl, i).len() ==>
            (#[trigger] rename_edits_from(t, tbl, i)[k]).2
                == t.subrange(rename_edits_from(t, tbl, i)[k].0, rename_edits_from(t, tbl, i)[k].1),
    decreases t.len() - i,
{
    let e = line_end(t, i);
    let l = t.subrange(i, e);
    lemma_run_end_bounds(t, i, CharClass::Except('\n'));
    lemma_parse_line_bounds(l);
    assert(is_line_start(t, i));
    let here = line_edit(t, tbl, i);
    assert forall|k: int| 0 <= k < here.len() implies (#[trigger] here[k]).2 == t.subrange(here[k].0, here[k].1) by {
        match parse_line(l) {
            Some((a, s, se)) => {
                assert(l.subrange(s, se) =~= t.subrange(i + s, i + se));
            },
            None => {},
        }
    }
    if e < t.len() {
        lemma_next_line_start(t, i);
        lemma_same_names_same_edits(t, tbl, e + 1);
        let rest = rename_edits_from(t, tbl, e + 1);
        let all = here + rest;
        assert forall|k: int| 0 <= k < all.len() implies (#[trigger] all[k]).2 == t.subrange(all[k].0, all[k].1) by {
            if k < here.len() {
                assert(all[k] == here[k]);
            } else {
                assert(all[k] == rest[k - here.len()]);
            }
        }
    }
}

/// Renaming each symbol of `t` to itself leaves the text as it is; the
/// replacements are still made, and reported, one per edit.
pub proof fn lemma_same_names_keep_text(t: Seq<char>, tbl: Map<u32, Seq<char>>)
    requires
        renames_to_same(t, tbl),
    ensures
        apply(t, rename_edits(t, tbl)) == t,
        reported(t, rename_edits(t, tbl)).len() == rename_edits(t, tbl).len(),
{
    lemma_rename_edits_ordered(t, tbl, 0);
    lemma_same_names_same_edits(t, tbl, 0);
    lemma_apply_same_text(t, rename_edits(t, tbl));
}

} // verus!
