//! Finds function-definition-like sites in C-like source text: an
//! identifier followed by `(`, unless a `*` follows the `(` or the
//! identifier is a keyword. Calls and macro invocations are reported too.
use vstd::prelude::*;
use crate::cursor::{
    CharClass, Cursor, take_c_token, take_while, take_whitespace, run_end, ident_end,
    is_ident_start, lemma_run_end_bounds, lemma_ident_end_bounds,
};

verus! {

/// The control-flow and operator keywords that look like calls.
pub open spec fn is_keyword(s: Seq<char>) -> bool {
    ||| s == seq!['i', 'f']
    ||| s == seq!['f', 'o', 'r']
    ||| s == seq!['w', 'h', 'i', 'l', 'e']
    ||| s == seq!['r', 'e', 't', 'u', 'r', 'n']
    ||| s == seq!['s', 'w', 'i', 't', 'c', 'h']
    ||| s == seq!['c', 'a', 's', 'e']
    ||| s == seq!['s', 'i', 'z', 'e', 'o', 'f']
    ||| s == seq!['a', 'l', 'i', 'g', 'n', 'o', 'f']
    ||| s == seq![
        '_', '_', 'a', 't', 't', 'r', 'i', 'b', 'u', 't', 'e', '_', '_',
    ]
}

/// One attempt at offset `i` of `t`: the range of the identifier it
/// reports, if any, and the offset where it stopped.
pub open spec fn attempt(t: Seq<char>, i: int) -> (Option<(int, int)>, int) {
    let a = run_end(t, i, CharClass::Whitespace);
    let b = ident_end(t, a);
    if b == a {
        (None, a)
    } else {
        let c = run_end(t, b, CharClass::Whitespace);
        let d = run_end(t, c, CharClass::Exactly('('));
        if d == c {
            (None, c)
        } else {
            let e = run_end(t, d, CharClass::Whitespace);
            let f = run_end(t, e, CharClass::Exactly('*'));
            if f != e {
                (None, f)
            } else if is_keyword(t.subrange(a, b)) {
                (None, e)
            } else {
                (Some((a, b)), e)
            }
        }
    }
}

/// Where the attempt after the one at `i` starts: past the characters that
/// cannot start an identifier.
pub open spec fn next_attempt(t: Seq<char>, i: int) -> int {
    run_end(t, attempt(t, i).1, CharClass::NotIdentStart)
}

/// The symbols reported from offset `i` of `t` on, in order.
pub open spec fn symbols_from(t: Seq<char>, i: int) -> Seq<Seq<char>>
    decreases t.len() - i,
    when 0 <= i
    via symbols_from_decreases
{
    if i >= t.len() {
        seq![]
    } else {
        let found = match attempt(t, i).0 {
            Some((a, b)) => seq![t.subrange(a, b)],
            None => seq![],
        };
        found + symbols_from(t, next_attempt(t, i))
    }
}

/// The symbols that the extractor reports for the whole of `t`.
pub open spec fn symbols(t: Seq<char>) -> Seq<Seq<char>> {
    symbols_from(t, 0)
}

#[via_fn]
proof fn symbols_from_decreases(t: Seq<char>, i: int) {
    if 0 <= i < t.len() {
        lemma_attempt_progress(t, i);
    }
}

/// An attempt stays within the text, and the next one starts further on.
pub proof fn lemma_attempt_progress(t: Seq<char>, i: int)
    requires
        0 <= i < t.len(),
    ensures
        i <= attempt(t, i).1 <= t.len(),
        i < next_attempt(t, i) <= t.len(),
        match attempt(t, i).0 {
            None => true,
            Some((a, b)) => i <= a <= b <= t.len(),
        },
{
    let a = run_end(t, i, CharClass::Whitespace);
    lemma_run_end_bounds(t, i, CharClass::Whitespace);
    let b = ident_end(t, a);
    lemma_ident_end_bounds(t, a);
    let c = run_end(t, b, CharClass::Whitespace);
    lemma_run_end_bounds(t, b, CharClass::Whitespace);
    let d = run_end(t, c, CharClass::Exactly('('));
    lemma_run_end_bounds(t, c, CharClass::Exactly('('));
    let e = run_end(t, d, CharClass::Whitespace);
    lemma_run_end_bounds(t, d, CharClass::Whitespace);
    lemma_run_end_bounds(t, e, CharClass::Exactly('*'));
    let s = attempt(t, i).1;
    lemma_run_end_bounds(t, s, CharClass::NotIdentStart);
    if s == i {
        assert(a == i && b == a);
        assert(!is_ident_start(t[i]));
    }
}

/// No reported symbol is a keyword.
pub proof fn lemma_no_keyword_reported(t: Seq<char>, i: int)
    requires
        0 <= i,
    ensures
        forall|k: int| 0 <= k < symbols_from(t, i).len() ==> !is_keyword(#[trigger] symbols_from(t, i)[k]),
    decreases t.len() - i,
{
    if i < t.len() {
        lemma_attempt_progress(t, i);
        let n = next_attempt(t, i);
        lemma_no_keyword_reported(t, n);
        let found = match attempt(t, i).0 {
            Some((a, b)) => seq![t.subrange(a, b)],
            None => seq![],
        };
        let all = found + symbols_from(t, n);
        assert forall|k: int| 0 <= k < all.len() implies !is_keyword(#[trigger] all[k]) by {
            if k >= found.len() {
                assert(all[k] == symbols_from(t, n)[k - found.len()]);
            }
        }
    }
}

/// Whether `tok` is one of the keywords that `is_keyword` lists.
fn keyword(tok: &[char]) -> (r: bool)
    ensures
        r == is_keyword(tok@),
{
    let w0: [char; 2] = ['i', 'f'];
    let w1: [char; 3] = ['f', 'o', 'r'];
    let w2: [char; 5] = ['w', 'h', 'i', 'l', 'e'];
    let w3: [char; 6] = ['r', 'e', 't', 'u', 'r', 'n'];
    let w4: [char; 6] = ['s', 'w', 'i', 't', 'c', 'h'];
    let w5: [char; 4] = ['c', 'a', 's', 'e'];
    let w6: [char; 6] = ['s', 'i', 'z', 'e', 'o', 'f'];
    let w7: [char; 7] = ['a', 'l', 'i', 'g', 'n', 'o', 'f'];
    let w8: [char; 13] = ['_', '_', 'a', 't', 't', 'r', 'i', 'b', 'u', 't', 'e', '_', '_'];
    assert(w0@ =~= seq!['i', 'f']);
    assert(w1@ =~= seq!['f', 'o', 'r']);
    assert(w2@ =~= seq!['w', 'h', 'i', 'l', 'e']);
    assert(w3@ =~= seq!['r', 'e', 't', 'u', 'r', 'n']);
    assert(w4@ =~= seq!['s', 'w', 'i', 't', 'c', 'h']);
    assert(w5@ =~= seq!['c', 'a', 's', 'e']);
    assert(w6@ =~= seq!['s', 'i', 'z', 'e', 'o', 'f']);
    assert(w7@ =~= seq!['a', 'l', 'i', 'g', 'n', 'o', 'f']);
    assert(w8@ =~= seq!['_', '_', 'a', 't', 't', 'r', 'i', 'b', 'u', 't', 'e', '_', '_']);
    same_chars(tok, &w0) || same_chars(tok, &w1) || same_chars(tok, &w2) || same_chars(tok, &w3)
        || same_chars(tok, &w4) || same_chars(tok, &w5) || same_chars(tok, &w6)
        || same_chars(tok, &w7) || same_chars(tok, &w8)
}

/// Whether two character slices hold the same characters.
pub fn same_chars(a: &[char], b: &[char]) -> (r: bool)
    ensures
        r == (a@ == b@),
{
    if a.len() != b.len() {
        return false;
    }
    let mut i: usize = 0;
    while i < a.len()
        invariant
            a@.len() == b@.len(),
            i <= a@.len(),
            forall|k: int| 0 <= k < i ==> a@[k] == b@[k],
        decreases a@.len() - i,
    {
        if a[i] != b[i] {
            return false;
        }
        i = i + 1;
    }
    assert(a@ =~= b@);
    true
}

/// One attempt at the cursor: reports an identifier followed by `(` that is
/// neither followed by `*` nor a keyword.
fn find_symbol<'a>(src: &mut Cursor<'a>) -> (r: Option<&'a [char]>)
    requires
        old(src).wf(),
    ensures
        final(src).wf(),
        final(src)@.0 == old(src)@.0,
        final(src)@.1 == attempt(old(src)@.0, old(src)@.1).1,
        match attempt(old(src)@.0, old(src)@.1).0 {
            None => r is None,
            Some((a, b)) => r is Some && r->0@ == old(src)@.0.subrange(a, b),
        },
{
    proof {
        src.lemma_wf();
    }
    take_whitespace(src);
    proof {
        src.lemma_wf();
    }
    let name = take_c_token(src);
    proof {
        src.lemma_wf();
    }
    if name.len() == 0 {
        return None;
    }
    take_whitespace(src);
    proof {
        src.lemma_wf();
    }
    let open = take_while(src, CharClass::Exactly('('));
    proof {
        src.lemma_wf();
    }
    if open.len() == 0 {
        return None;
    }
    take_whitespace(src);
    proof {
        src.lemma_wf();
    }
    let star = take_while(src, CharClass::Exactly('*'));
    proof {
        src.lemma_wf();
    }
    if star.len() != 0 {
        return None;
    }
    if keyword(name) {
        return None;
    }
    Some(name)
}

/// Every candidate function symbol of `text`, in order of occurrence,
/// duplicates included.
pub fn extract_symbols<'a>(text: &'a [char]) -> (r: Vec<&'a [char]>)
    ensures
        r@.len() == symbols(text@).len(),
        forall|k: int| 0 <= k < r@.len() ==> (#[trigger] r@[k])@ == symbols(text@)[k],
{
    let ghost t = text@;
    let mut found: Vec<&'a [char]> = Vec::new();
    let mut src = Cursor::new(text);
    let ghost mut seen: Seq<Seq<char>> = seq![];
    loop
        invariant
            src.wf(),
            src@.0 == t,
            t == text@,
            0 <= src@.1 <= t.len(),
            found@.len() == seen.len(),
            forall|k: int| 0 <= k < found@.len() ==> (#[trigger] found@[k])@ == seen[k],
            symbols(t) == seen + symbols_from(t, src@.1),
        ensures
            found@.len() == seen.len(),
            forall|k: int| 0 <= k < found@.len() ==> (#[trigger] found@[k])@ == seen[k],
            symbols(t) == seen,
        decreases t.len() - src@.1,
    {
        proof {
            src.lemma_wf();
        }
        if src.remaining().len() == 0 {
            assert(seen + symbols_from(t, src@.1) =~= seen);
            break;
        }
        let ghost i = src@.1;
        proof {
            lemma_attempt_progress(t, i);
        }
        match find_symbol(&mut src) {
            Some(name) => {
                found.push(name);
                proof {
                    seen = seen.push(name@);
                }
            },
            None => {},
        }
        take_while(&mut src, CharClass::NotIdentStart);
        proof {
            let ghost step = match attempt(t, i).0 {
                Some((a, b)) => seq![t.subrange(a, b)],
                None => seq![],
            };
            assert(symbols_from(t, i) == step + symbols_from(t, src@.1));
            assert(seen + symbols_from(t, src@.1) =~= seen.take(seen.len() - step.len() as int)
                + step + symbols_from(t, src@.1));
        }
    }
    found
}

} // verus!
