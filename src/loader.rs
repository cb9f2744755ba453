use vstd::prelude::*;

verus! {

/// ASCII white space: space, tab, line feed, vertical tab, form feed, carriage
/// return. Only these separate tokens; a line that uses other Unicode white
/// space (such as U+00A0) between its numbers is rejected.
pub open spec fn is_blank(b: u8) -> bool {
    b == 32 || (9 <= b && b <= 13)
}

/// First position at or after `i` that does not hold white space.
pub open spec fn skip_blank(s: Seq<u8>, i: int) -> int
    decreases s.len() - i,
{
    if i >= s.len() || !is_blank(s[i]) {
        i
    } else {
        skip_blank(s, i + 1)
    }
}

/// First position at or after `i` that holds white space, or the end.
pub open spec fn token_end(s: Seq<u8>, i: int) -> int
    decreases s.len() - i,
{
    if i >= s.len() || is_blank(s[i]) {
        i
    } else {
        token_end(s, i + 1)
    }
}

/// Value of a string of decimal digits.
pub open spec fn digits_value(d: Seq<u8>) -> nat
    decreases d.len(),
{
    if d.len() == 0 {
        0
    } else {
        digits_value(d.drop_last()) * 10 + (d.last() - 48) as nat
    }
}

/// Every byte is a decimal digit.
pub open spec fn all_digits(d: Seq<u8>) -> bool {
    forall|i: int| 0 <= i < d.len() ==> 48 <= #[trigger] d[i] <= 57
}

/// The unsigned number written by `t`: an optional `+`, then at least one
/// decimal digit.
pub open spec fn number_value(t: Seq<u8>) -> Option<nat> {
    let d = if t.len() > 0 && t[0] == 43 {
        t.subrange(1, t.len() as int)
    } else {
        t
    };
    if d.len() > 0 && all_digits(d) {
        Some(digits_value(d))
    } else {
        None
    }
}

/// The edge that a line states: its first two white-space separated tokens
/// as numbers that fit in a `usize`; anything after them is ignored.
pub open spec fn line_edge(s: Seq<u8>) -> Option<(usize, usize)> {
    let a0 = skip_blank(s, 0);
    let a1 = token_end(s, a0);
    let b0 = skip_blank(s, a1);
    let b1 = token_end(s, b0);
    match (number_value(s.subrange(a0, a1)), number_value(s.subrange(b0, b1))) {
        (Some(x), Some(y)) => if x <= usize::MAX && y <= usize::MAX {
            Some((x as usize, y as usize))
        } else {
            None
        },
        _ => None,
    }
}

proof fn lemma_skip_blank_bounds(s: Seq<u8>, i: int)
    requires
        0 <= i <= s.len(),
    ensures
        i <= skip_blank(s, i) <= s.len(),
        skip_blank(s, i) < s.len() ==> !is_blank(s[skip_blank(s, i)]),
    decreases s.len() - i,
{
    if i < s.len() && is_blank(s[i]) {
        lemma_skip_blank_bounds(s, i + 1);
    }
}

proof fn lemma_token_end_bounds(s: Seq<u8>, i: int)
    requires
        0 <= i <= s.len(),
    ensures
        i <= token_end(s, i) <= s.len(),
    decreases s.len() - i,
{
    if i < s.len() && !is_blank(s[i]) {
        lemma_token_end_bounds(s, i + 1);
    }
}

proof fn lemma_digits_grow(d: Seq<u8>, k: int)
    requires
        0 <= k <= d.len(),
        all_digits(d),
    ensures
        digits_value(d.subrange(0, k)) <= digits_value(d),
    decreases d.len() - k,
{
    if k < d.len() {
        lemma_digits_grow(d, k + 1);
        assert(d.subrange(0, k + 1).drop_last() =~= d.subrange(0, k));
    } else {
        assert(d.subrange(0, k) =~= d);
    }
}

fn skip_blanks(s: &[u8], i: usize) -> (r: usize)
    requires
        i <= s@.len(),
    ensures
        r == skip_blank(s@, i as int),
{
    let mut j = i;
    while j < s.len() && (s[j] == 32 || (9 <= s[j] && s[j] <= 13))
        invariant
            i <= j <= s@.len(),
            skip_blank(s@, j as int) == skip_blank(s@, i as int),
        decreases s@.len() - j,
    {
        j += 1;
    }
    j
}

fn find_token_end(s: &[u8], i: usize) -> (r: usize)
    requires
        i <= s@.len(),
    ensures
        r == token_end(s@, i as int),
{
    let mut j = i;
    while j < s.len() && !(s[j] == 32 || (9 <= s[j] && s[j] <= 13))
        invariant
            i <= j <= s@.len(),
            token_end(s@, j as int) == token_end(s@, i as int),
        decreases s@.len() - j,
    {
        j += 1;
    }
    j
}

/// Reads the number in `s[lo..hi]`; `None` unless it is well formed and fits
/// in a `usize`.
fn parse_number(s: &[u8], lo: usize, hi: usize) -> (r: Option<usize>)
    requires
        lo <= hi <= s@.len(),
    ensures
        r == (match number_value(s@.subrange(lo as int, hi as int)) {
            Some(x) => if x <= usize::MAX {
                Some(x as usize)
            } else {
                None
            },
            None => None,
        }),
{
    let ghost t = s@.subrange(lo as int, hi as int);
    let mut start = lo;
    if lo < hi && s[lo] == 43 {
        start = lo + 1;
    }
    let ghost d = s@.subrange(start as int, hi as int);
    assert(d =~= if t.len() > 0 && t[0] == 43 {
        t.subrange(1, t.len() as int)
    } else {
        t
    });
    if start == hi {
        return None;
    }
    let mut value: usize = 0;
    let mut k = start;
    while k < hi
        invariant
            start <= k <= hi <= s@.len(),
            d == s@.subrange(start as int, hi as int),
            t == s@.subrange(lo as int, hi as int),
            d == (if t.len() > 0 && t[0] == 43 {
                t.subrange(1, t.len() as int)
            } else {
                t
            }),
            all_digits(s@.subrange(start as int, k as int)),
            value == digits_value(s@.subrange(start as int, k as int)),
        decreases hi - k,
    {
        let c = s[k];
        let ghost prefix = s@.subrange(start as int, k as int + 1);
        assert(prefix.drop_last() =~= s@.subrange(start as int, k as int));
        if c < 48 || c > 57 {
            assert(!all_digits(d)) by {
                assert(d[k - start] == c);
            }
            return None;
        }
        let digit = (c - 48) as usize;
        if value > (usize::MAX - digit) / 10 {
            proof {
                assert(value * 10 + digit > usize::MAX) by (nonlinear_arith)
                    requires
                        value > (usize::MAX - digit) / 10,
                        digit <= 9,
                ;
                if all_digits(d) {
                    lemma_digits_grow(d, k - start + 1);
                    assert(d.subrange(0, k - start + 1) =~= prefix);
                }
            }
            return None;
        }
        assert(value * 10 + digit <= usize::MAX) by (nonlinear_arith)
            requires
                value <= (usize::MAX - digit) / 10,
                digit <= 9,
        ;
        value = value * 10 + digit;
        k += 1;
    }
    assert(s@.subrange(start as int, k as int) =~= d);
    Some(value)
}

/// Reads the edge that a line of an edge file states: its first two tokens,
/// separated by white space, as unsigned numbers. `None` where either is
/// missing, malformed or too large.
pub fn parse_edge_line(s: &[u8]) -> (r: Option<(usize, usize)>)
    ensures
        r == line_edge(s@),
{
    let a0 = skip_blanks(s, 0);
    proof {
        lemma_skip_blank_bounds(s@, 0);
    }
    let a1 = find_token_end(s, a0);
    proof {
        lemma_token_end_bounds(s@, a0 as int);
    }
    let b0 = skip_blanks(s, a1);
    proof {
        lemma_skip_blank_bounds(s@, a1 as int);
    }
    let b1 = find_token_end(s, b0);
    proof {
        lemma_token_end_bounds(s@, b0 as int);
    }
    let x = parse_number(s, a0, a1);
    let y = parse_number(s, b0, b1);
    match (x, y) {
        (Some(x), Some(y)) => Some((x, y)),
        _ => None,
    }
}

} // verus!
