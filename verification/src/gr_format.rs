//! The `.gr` edge-list text format.
//!
//! Every line is scanned for two whitespace-separated unsigned integers;
//! a line on which the first two tokens do not both parse as `u32` (a
//! comment, a preamble, an empty line) contributes no edge.  Tokens after
//! the second are ignored.  Whitespace means the ASCII separators space,
//! tab, carriage return, vertical tab and form feed; lines are separated
//! by `'\n'`.

use vstd::prelude::*;

verus! {

/// An intra-line whitespace character.
pub open spec fn is_line_ws(c: char) -> bool {
    c == ' ' || c == '\t' || c == '\r' || c == '\u{0B}' || c == '\u{0C}'
}

/// A decimal digit.
pub open spec fn is_digit(c: char) -> bool {
    48 <= c as u32 && c as u32 <= 57
}

/// The value of one digit; zero for any other character.
pub open spec fn digit_val(c: char) -> nat {
    if is_digit(c) {
        (c as u32 - 48) as nat
    } else {
        0
    }
}

/// Every character is a digit.
pub open spec fn all_digits(t: Seq<char>) -> bool {
    forall|i: int| 0 <= i < t.len() ==> is_digit(#[trigger] t[i])
}

/// The number denoted by a digit sequence, most significant first.
pub open spec fn digits_val(t: Seq<char>) -> nat
    decreases t.len(),
{
    if t.len() == 0 {
        0
    } else {
        digits_val(t.drop_last()) * 10 + digit_val(t.last())
    }
}

/// A longer digit prefix never denotes a smaller number.
proof fn lemma_digits_val_mono(t: Seq<char>, k: int)
    requires
        0 <= k <= t.len(),
    ensures
        digits_val(t.take(k)) <= digits_val(t),
    decreases t.len(),
{
    if k < t.len() {
        assert(t.drop_last().take(k) =~= t.take(k));
        lemma_digits_val_mono(t.drop_last(), k);
    } else {
        assert(t.take(k) =~= t);
    }
}

/// What `u32` parsing makes of a token: an optional leading `'+'`, then
/// one or more digits whose value fits in `u32`.
pub open spec fn spec_parse_u32(t: Seq<char>) -> Option<u32> {
    let d = if t.len() > 0 && t[0] == '+' {
        t.skip(1)
    } else {
        t
    };
    if d.len() > 0 && all_digits(d) && digits_val(d) <= u32::MAX {
        Some(digits_val(d) as u32)
    } else {
        None
    }
}

/// First position at or after `i` that holds a non-whitespace character.
pub open spec fn skip_ws(s: Seq<char>, i: int) -> int
    decreases s.len() - i when 0 <= i <= s.len()
{
    if i >= s.len() || !is_line_ws(s[i]) {
        i
    } else {
        skip_ws(s, i + 1)
    }
}

/// First position at or after `i` that ends a token (whitespace or the
/// end of the line).
pub open spec fn token_end(s: Seq<char>, i: int) -> int
    decreases s.len() - i when 0 <= i <= s.len()
{
    if i >= s.len() || is_line_ws(s[i]) {
        i
    } else {
        token_end(s, i + 1)
    }
}

/// First position at or after `i` that holds a newline, or the end.
pub open spec fn line_end(s: Seq<char>, i: int) -> int
    decreases s.len() - i when 0 <= i <= s.len()
{
    if i >= s.len() || s[i] == '\n' {
        i
    } else {
        line_end(s, i + 1)
    }
}

proof fn lemma_line_end_bounds(s: Seq<char>, i: int)
    requires
        0 <= i <= s.len(),
    ensures
        i <= line_end(s, i) <= s.len(),
    decreases s.len() - i,
{
    if !(i >= s.len() || s[i] == '\n') {
        lemma_line_end_bounds(s, i + 1);
    }
}

/// The edge denoted by one line: the first two whitespace-separated
/// tokens, when both parse as `u32`.
pub open spec fn spec_line_edge(line: Seq<char>) -> Option<(u32, u32)> {
    let t1s = skip_ws(line, 0);
    let t1e = token_end(line, t1s);
    let t2s = skip_ws(line, t1e);
    let t2e = token_end(line, t2s);
    match (spec_parse_u32(line.subrange(t1s, t1e)), spec_parse_u32(line.subrange(t2s, t2e))) {
        (Some(a), Some(b)) => Some((a, b)),
        _ => None,
    }
}

/// The edges denoted by the text from position `i` on, line by line.
pub open spec fn spec_gr_edges_from(s: Seq<char>, i: int) -> Seq<(u32, u32)>
    decreases s.len() - i when 0 <= i <= s.len() via spec_gr_edges_from_dec
{
    if i >= s.len() {
        Seq::empty()
    } else {
        let e = line_end(s, i);
        let rest = if e + 1 <= s.len() {
            spec_gr_edges_from(s, e + 1)
        } else {
            Seq::empty()
        };
        match spec_line_edge(s.subrange(i, e)) {
            Some(p) => seq![p] + rest,
            None => rest,
        }
    }
}

#[via_fn]
proof fn spec_gr_edges_from_dec(s: Seq<char>, i: int) {
    if i < s.len() {
        lemma_line_end_bounds(s, i);
    }
}

/// The edges denoted by a whole `.gr` text.
pub open spec fn spec_gr_edges(s: Seq<char>) -> Seq<(u32, u32)> {
    spec_gr_edges_from(s, 0)
}

/// Whether `c` separates tokens within a line.
fn is_ws_exec(c: char) -> (r: bool)
    ensures
        r == is_line_ws(c),
{
    c == ' ' || c == '\t' || c == '\r' || c == '\u{0B}' || c == '\u{0C}'
}

/// First non-whitespace position at or after `from`.
fn skip_ws_exec(v: &Vec<char>, from: usize) -> (r: usize)
    requires
        from <= v@.len(),
    ensures
        r == skip_ws(v@, from as int),
        from <= r <= v@.len(),
{
    let mut i = from;
    while i < v.len() && is_ws_exec(v[i])
        invariant
            from <= i <= v@.len(),
            skip_ws(v@, from as int) == skip_ws(v@, i as int),
        decreases v@.len() - i,
    {
        i += 1;
    }
    i
}

/// First token-ending position at or after `from`.
fn token_end_exec(v: &Vec<char>, from: usize) -> (r: usize)
    requires
        from <= v@.len(),
    ensures
        r == token_end(v@, from as int),
        from <= r <= v@.len(),
{
    let mut i = from;
    while i < v.len() && !is_ws_exec(v[i])
        invariant
            from <= i <= v@.len(),
            token_end(v@, from as int) == token_end(v@, i as int),
        decreases v@.len() - i,
    {
        i += 1;
    }
    i
}

/// First newline at or after `from`, or the end of the text.
fn line_end_exec(v: &Vec<char>, from: usize) -> (r: usize)
    requires
        from <= v@.len(),
    ensures
        r == line_end(v@, from as int),
        from <= r <= v@.len(),
{
    let mut i = from;
    while i < v.len() && v[i] != '\n'
        invariant
            from <= i <= v@.len(),
            line_end(v@, from as int) == line_end(v@, i as int),
        decreases v@.len() - i,
    {
        i += 1;
    }
    i
}

/// Parses the token `v[start..end]` as `u32`.
fn parse_u32_exec(v: &Vec<char>, start: usize, end: usize) -> (r: Option<u32>)
    requires
        start <= end <= v@.len(),
    ensures
        r == spec_parse_u32(v@.subrange(start as int, end as int)),
{
    let ghost t = v@.subrange(start as int, end as int);
    let mut i = start;
    if start < end && v[start] == '+' {
        i = start + 1;
    }
    let ghost d = if t.len() > 0 && t[0] == '+' {
        t.skip(1)
    } else {
        t
    };
    proof {
        assert(d =~= v@.subrange(i as int, end as int));
    }
    if i == end {
        return None;
    }
    let mut acc: u32 = 0;
    let mut j = i;
    while j < end
        invariant
            start <= i <= j <= end <= v@.len(),
            t == v@.subrange(start as int, end as int),
            d == (if t.len() > 0 && t[0] == '+' {
                t.skip(1)
            } else {
                t
            }),
            d =~= v@.subrange(i as int, end as int),
            d.len() == end - i,
            all_digits(d.take(j - i)),
            acc as nat == digits_val(d.take(j - i)),
        decreases end - j,
    {
        let c = v[j];
        let cu = c as u32;
        proof {
            assert(d[j - i] == c);
        }
        if cu < 48 || cu > 57 {
            proof {
                assert(!is_digit(d[j - i]));
                assert(!all_digits(d));
            }
            return None;
        }
        let dg = cu - 48;
        proof {
            assert(d.take(j - i + 1).drop_last() =~= d.take(j - i));
            assert(d.take(j - i + 1).last() == c);
        }
        if acc > 429496729 || (acc == 429496729 && dg > 5) {
            proof {
                assert(digits_val(d.take(j - i + 1)) > u32::MAX);
                lemma_digits_val_mono(d, j - i + 1);
                assert(digits_val(d) > u32::MAX);
            }
            return None;
        }
        acc = acc * 10 + dg;
        j += 1;
    }
    proof {
        assert(d.take(end - i) =~= d);
    }
    Some(acc)
}

/// The edge denoted by one line of text.
fn parse_line(line: &Vec<char>) -> (r: Option<(u32, u32)>)
    ensures
        r == spec_line_edge(line@),
{
    let t1s = skip_ws_exec(line, 0);
    let t1e = token_end_exec(line, t1s);
    let t2s = skip_ws_exec(line, t1e);
    let t2e = token_end_exec(line, t2s);
    let p1 = parse_u32_exec(line, t1s, t1e);
    let p2 = parse_u32_exec(line, t2s, t2e);
    match (p1, p2) {
        (Some(a), Some(b)) => Some((a, b)),
        _ => None,
    }
}

/// A copy of `v[from..to]`.
fn copy_range(v: &Vec<char>, from: usize, to: usize) -> (r: Vec<char>)
    requires
        from <= to <= v@.len(),
    ensures
        r@ == v@.subrange(from as int, to as int),
{
    let mut r: Vec<char> = Vec::new();
    let mut i = from;
    while i < to
        invariant
            from <= i <= to <= v@.len(),
            r@ =~= v@.subrange(from as int, i as int),
        decreases to - i,
    {
        r.push(v[i]);
        proof {
            assert(r@ =~= v@.subrange(from as int, i as int + 1));
        }
        i += 1;
    }
    r
}

/// Every edge that the text denotes, in line order.
pub fn parse_gr_edges(chars: &Vec<char>) -> (r: Vec<(u32, u32)>)
    ensures
        r@ == spec_gr_edges(chars@),
{
    let mut out: Vec<(u32, u32)> = Vec::new();
    let mut i: usize = 0;
    while i < chars.len()
        invariant
            i <= chars@.len(),
            out@ + spec_gr_edges_from(chars@, i as int) =~= spec_gr_edges(chars@),
        decreases chars@.len() - i,
    {
        let e = line_end_exec(chars, i);
        let line = copy_range(chars, i, e);
        let ghost rest = if e + 1 <= chars@.len() {
            spec_gr_edges_from(chars@, e as int + 1)
        } else {
            Seq::<(u32, u32)>::empty()
        };
        proof {
            assert(spec_gr_edges_from(chars@, i as int) == (match spec_line_edge(line@) {
                Some(p) => seq![p] + rest,
                None => rest,
            }));
        }
        match parse_line(&line) {
            Some(p) => {
                out.push(p);
                proof {
                    assert(out@ + rest =~= spec_gr_edges(chars@));
                }
            },
            None => (),
        }
        if e < chars.len() {
            i = e + 1;
        } else {
            i = e;
            proof {
                assert(spec_gr_edges_from(chars@, i as int) =~= rest);
            }
        }
    }
    proof {
        assert(spec_gr_edges_from(chars@, i as int) == Seq::<(u32, u32)>::empty());
        assert(out@ =~= spec_gr_edges(chars@));
    }
    out
}

} // verus!
