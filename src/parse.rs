//! Reading the configuration and the access lines from bytes.

use vstd::prelude::*;
use crate::params::Params;
use crate::types::{Operation, Page, Tenant};

verus! {

/// Why the configuration or an access line could not be read.
#[derive(Debug, Clone, Copy, PartialEq, Eq, Structural)]
pub enum ParseError {
    /// The input ended before a required line.
    MissingLine,
    /// A line holds something other than the numbers it should.
    BadLine,
}

/// An ASCII decimal digit.
pub open spec fn is_digit(c: u8) -> bool {
    48 <= c <= 57
}

/// ASCII whitespace: space, tab, line feed, vertical tab, form feed, carriage return.
pub open spec fn is_blank(c: u8) -> bool {
    c == 32 || 9 <= c <= 13
}

/// The numbers of a line: each maximal run of decimal digits, possibly
/// right after a `+` that starts its token, the runs separated by blanks.
/// `None` when the line holds any other byte, a `+` not followed by a
/// digit, or a number above `usize::MAX`.
pub open spec fn fields(line: Seq<u8>) -> Option<Seq<usize>> {
    if line.len() > 0 && line.last() == 43 {
        None
    } else {
        fields_prefix(line)
    }
}

/// `fields` of a line read so far, which may end in a pending `+`.
pub open spec fn fields_prefix(line: Seq<u8>) -> Option<Seq<usize>>
    decreases line.len(),
{
    if line.len() == 0 {
        Some(Seq::<usize>::empty())
    } else {
        let c = line.last();
        let rest = line.drop_last();
        match fields_prefix(rest) {
            None => None,
            Some(ns) => if is_blank(c) {
                if rest.len() > 0 && rest.last() == 43 {
                    None
                } else {
                    Some(ns)
                }
            } else if c == 43 {
                if rest.len() > 0 && !is_blank(rest.last()) {
                    None
                } else {
                    Some(ns)
                }
            } else if is_digit(c) {
                if rest.len() > 0 && is_digit(rest.last()) && ns.len() > 0 {
                    let v = ns.last() * 10 + (c - 48);
                    if v > usize::MAX {
                        None
                    } else {
                        Some(ns.update(ns.len() - 1, v as usize))
                    }
                } else {
                    Some(ns.push((c - 48) as usize))
                }
            } else {
                None
            },
        }
    }
}

/// A line whose beginning is rejected is rejected.
pub proof fn lemma_fields_none_extends(line: Seq<u8>, k: int)
    requires
        0 <= k <= line.len(),
        fields_prefix(line.subrange(0, k)) is None,
    ensures
        fields_prefix(line) is None,
        fields(line) is None,
    decreases line.len(),
{
    if k < line.len() {
        assert(line.drop_last().subrange(0, k) =~= line.subrange(0, k));
        lemma_fields_none_extends(line.drop_last(), k);
    } else {
        assert(line.subrange(0, k) =~= line);
    }
}

/// Position of the line feed that ends the line starting at `pos`, or the
/// end of the input.
pub open spec fn line_end(input: Seq<u8>, pos: int) -> int
    decreases input.len() - pos,
{
    if pos >= input.len() || input[pos] == 10 {
        pos
    } else {
        line_end(input, pos + 1)
    }
}

/// The numbers of the line starting at `pos`, and where the next line starts.
pub open spec fn line_fields(input: Seq<u8>, pos: int) -> Result<(Seq<usize>, int), ParseError> {
    if pos >= input.len() {
        Err(ParseError::MissingLine)
    } else {
        let e = line_end(input, pos);
        match fields(input.subrange(pos, e)) {
            None => Err(ParseError::BadLine),
            Some(ns) => Ok((ns, if e < input.len() { e + 1 } else { e })),
        }
    }
}

/// A line ends within the input, at or after its start.
pub proof fn lemma_line_end(input: Seq<u8>, pos: int)
    requires
        0 <= pos <= input.len(),
    ensures
        pos <= line_end(input, pos) <= input.len(),
    decreases input.len() - pos,
{
    if pos < input.len() && input[pos] != 10 {
        lemma_line_end(input, pos + 1);
    }
}

fn find_line_end(input: &[u8], pos: usize) -> (e: usize)
    requires
        pos <= input@.len(),
    ensures
        e == line_end(input@, pos as int),
{
    let mut i = pos;
    while i < input.len() && input[i] != 10
        invariant
            pos <= i <= input@.len(),
            line_end(input@, pos as int) == line_end(input@, i as int),
        decreases input@.len() - i,
    {
        i = i + 1;
    }
    i
}

/// The numbers of `input[start..end]`, as `fields` states them.
pub fn parse_fields(input: &[u8], start: usize, end: usize) -> (r: Option<Vec<usize>>)
    requires
        start <= end <= input@.len(),
    ensures
        r matches Some(v) ==> fields(input@.subrange(start as int, end as int)) == Some(v@),
        r is None ==> fields(input@.subrange(start as int, end as int)) is None,
{
    let mut out: Vec<usize> = Vec::new();
    let mut i = start;
    assert(input@.subrange(start as int, start as int) =~= Seq::<u8>::empty());
    while i < end
        invariant
            start <= i <= end <= input@.len(),
            fields_prefix(input@.subrange(start as int, i as int)) == Some(out@),
            i > start && is_digit(input@[i - 1]) ==> out@.len() > 0,
        decreases end - i,
    {
        let c = input[i];
        let ghost line = input@.subrange(start as int, i + 1);
        assert(line.drop_last() =~= input@.subrange(start as int, i as int));
        assert(line.last() == c);
        let ghost whole = input@.subrange(start as int, end as int);
        assert(whole.subrange(0, i + 1 - start) =~= line);
        if c == 32 || (9 <= c && c <= 13) {
            if i > start && input[i - 1] == 43 {
                proof {
                    lemma_fields_none_extends(whole, i + 1 - start);
                }
                return None;
            }
        } else if c == 43 {
            if i > start && !(input[i - 1] == 32 || (9 <= input[i - 1] && input[i - 1] <= 13)) {
                proof {
                    lemma_fields_none_extends(whole, i + 1 - start);
                }
                return None;
            }
        } else if 48 <= c && c <= 57 {
            let d = (c - 48) as usize;
            if i > start && 48 <= input[i - 1] && input[i - 1] <= 57 {
                let k = out.len() - 1;
                let last = out[k];
                let v = match last.checked_mul(10) {
                    None => None,
                    Some(m) => m.checked_add(d),
                };
                match v {
                    None => {
                        proof {
                            lemma_fields_none_extends(whole, i + 1 - start);
                        }
                        return None;
                    },
                    Some(v) => {
                        out.set(k, v);
                    },
                }
            } else {
                out.push(d);
            }
        } else {
            proof {
                lemma_fields_none_extends(whole, i + 1 - start);
            }
            return None;
        }
        i = i + 1;
    }
    assert(input@.subrange(start as int, end as int) =~= input@.subrange(start as int, i as int));
    if end > start && input[end - 1] == 43 {
        return None;
    }
    Some(out)
}

/// Reads the numbers of the line at `*pos` and moves `*pos` to the next line.
fn read_line(input: &[u8], pos: &mut usize) -> (r: Result<Vec<usize>, ParseError>)
    requires
        *old(pos) <= input@.len(),
    ensures
        *final(pos) <= input@.len(),
        match line_fields(input@, *old(pos) as int) {
            Ok((ns, next)) => r matches Ok(v) && v@ == ns && *final(pos) == next,
            Err(e) => r == Err::<Vec<usize>, ParseError>(e),
        },
{
    if *pos >= input.len() {
        return Err(ParseError::MissingLine);
    }
    let e = find_line_end(input, *pos);
    proof {
        lemma_line_end(input@, *pos as int);
    }
    match parse_fields(input, *pos, e) {
        None => Err(ParseError::BadLine),
        Some(v) => {
            *pos = if e < input.len() {
                e + 1
            } else {
                e
            };
            Ok(v)
        },
    }
}

/// Quota triples from a flat list, tenant-major; a trailing remainder of
/// fewer than three numbers is ignored.
pub open spec fn triples(f: Seq<usize>) -> Seq<(usize, usize, usize)> {
    Seq::new(f.len() / 3, |i: int| (f[3 * i], f[3 * i + 1], f[3 * i + 2]))
}

/// The four configuration lines starting at `pos`: `N Q ...`, the
/// priorities (each at most 255), the page counts `D_t` and the quota
/// triples; and where the access lines start.
pub open spec fn read_config(input: Seq<u8>, pos: int) -> Result<
    (Seq<usize>, Seq<usize>, Seq<usize>, Seq<usize>, int),
    ParseError,
> {
    match line_fields(input, pos) {
        Err(e) => Err(e),
        Ok((f1, p1)) => if f1.len() < 2 {
            Err(ParseError::BadLine)
        } else {
            match line_fields(input, p1) {
                Err(e) => Err(e),
                Ok((f2, p2)) => if exists|i: int| 0 <= i < f2.len() && #[trigger] f2[i] > 255 {
                    Err(ParseError::BadLine)
                } else {
                    match line_fields(input, p2) {
                        Err(e) => Err(e),
                        Ok((f3, p3)) => match line_fields(input, p3) {
                            Err(e) => Err(e),
                            Ok((f4, p4)) => Ok((f1, f2, f3, f4, p4)),
                        },
                    }
                },
            }
        },
    }
}

/// The first position at or after `i`, before `end`, that is not a blank.
pub open spec fn skip_blanks(s: Seq<u8>, i: int, end: int) -> int
    decreases end - i,
{
    if i < end && is_blank(s[i]) {
        skip_blanks(s, i + 1, end)
    } else {
        i
    }
}

/// The first position at or after `i`, before `end`, that is a blank.
pub open spec fn token_end(s: Seq<u8>, i: int, end: int) -> int
    decreases end - i,
{
    if i < end && !is_blank(s[i]) {
        token_end(s, i + 1, end)
    } else {
        i
    }
}

/// The value of a string of decimal digits.
pub open spec fn digits_value(d: Seq<u8>) -> int
    decreases d.len(),
{
    if d.len() == 0 {
        0
    } else {
        digits_value(d.drop_last()) * 10 + (d.last() - 48)
    }
}

pub open spec fn all_digits(d: Seq<u8>) -> bool {
    forall|i: int| 0 <= i < d.len() ==> is_digit(#[trigger] d[i])
}

/// The unsigned number a token spells: an optional `+`, then at least one
/// decimal digit and nothing else.
pub open spec fn number(tok: Seq<u8>) -> Option<int> {
    let d = if tok.len() > 0 && tok[0] == 43 { tok.subrange(1, tok.len() as int) } else { tok };
    if d.len() > 0 && all_digits(d) {
        Some(digits_value(d))
    } else {
        None
    }
}

/// The access on the line at `pos`: `Ok(None)` at the end of the input.
/// The first token of the line is the tenant (at most 255), the second the
/// page (at most `u32::MAX`); whatever follows them is ignored.
pub open spec fn read_operation(input: Seq<u8>, pos: int) -> Result<Option<(Operation, int)>, ParseError> {
    if pos >= input.len() {
        Ok(None)
    } else {
        let e = line_end(input, pos);
        let next = if e < input.len() { e + 1 } else { e };
        let a = skip_blanks(input, pos, e);
        let b = token_end(input, a, e);
        let c = skip_blanks(input, b, e);
        let d = token_end(input, c, e);
        match (number(input.subrange(a, b)), number(input.subrange(c, d))) {
            (Some(u), Some(v)) => if u <= 255 && v <= u32::MAX {
                Ok(Some((Operation { tenant: Tenant(u as u8), page: Page(v as u32) }, next)))
            } else {
                Err(ParseError::BadLine)
            },
            _ => Err(ParseError::BadLine),
        }
    }
}

/// A longer run of digits is worth at least as much as its beginning.
pub proof fn lemma_digits_prefix(d: Seq<u8>, k: int)
    requires
        0 <= k <= d.len(),
        all_digits(d),
    ensures
        0 <= digits_value(d.subrange(0, k)) <= digits_value(d),
    decreases d.len(),
{
    if k < d.len() {
        assert(d.drop_last().subrange(0, k) =~= d.subrange(0, k));
        assert(all_digits(d.drop_last())) by {
            assert forall|i: int| 0 <= i < d.drop_last().len() implies is_digit(#[trigger] d.drop_last()[i]) by {
                assert(d.drop_last()[i] == d[i]);
            }
        }
        lemma_digits_prefix(d.drop_last(), k);
        assert(is_digit(d[d.len() - 1]));
    } else {
        assert(d.subrange(0, k) =~= d);
        if d.len() > 0 {
            assert(all_digits(d.drop_last())) by {
                assert forall|i: int| 0 <= i < d.drop_last().len() implies is_digit(#[trigger] d.drop_last()[i]) by {
                    assert(d.drop_last()[i] == d[i]);
                }
            }
            lemma_digits_prefix(d.drop_last(), d.len() - 1);
            assert(d.drop_last().subrange(0, d.len() - 1) =~= d.drop_last());
            assert(is_digit(d[d.len() - 1]));
        }
    }
}

fn skip_blanks_exec(input: &[u8], i: usize, end: usize) -> (r: usize)
    requires
        i <= end <= input@.len(),
    ensures
        r == skip_blanks(input@, i as int, end as int),
        i <= r <= end,
{
    let mut j = i;
    while j < end && (input[j] == 32 || (9 <= input[j] && input[j] <= 13))
        invariant
            i <= j <= end <= input@.len(),
            skip_blanks(input@, i as int, end as int) == skip_blanks(input@, j as int, end as int),
        decreases end - j,
    {
        j = j + 1;
    }
    j
}

fn token_end_exec(input: &[u8], i: usize, end: usize) -> (r: usize)
    requires
        i <= end <= input@.len(),
    ensures
        r == token_end(input@, i as int, end as int),
        i <= r <= end,
{
    let mut j = i;
    while j < end && !(input[j] == 32 || (9 <= input[j] && input[j] <= 13))
        invariant
            i <= j <= end <= input@.len(),
            token_end(input@, i as int, end as int) == token_end(input@, j as int, end as int),
        decreases end - j,
    {
        j = j + 1;
    }
    j
}

/// The number spelt by `input[a..b]` when it is at most `limit`.
fn parse_number(input: &[u8], a: usize, b: usize, limit: u64) -> (r: Option<u64>)
    requires
        a <= b <= input@.len(),
        limit <= u32::MAX,
    ensures
        r matches Some(v) ==> number(input@.subrange(a as int, b as int)) == Some(v as int) && v <= limit,
        r is None ==> !(number(input@.subrange(a as int, b as int)) matches Some(v) && v <= limit),
{
    let ghost tok = input@.subrange(a as int, b as int);
    let start = if a < b && input[a] == 43 { a + 1 } else { a };
    let ghost d = input@.subrange(start as int, b as int);
    assert(d =~= (if tok.len() > 0 && tok[0] == 43 { tok.subrange(1, tok.len() as int) } else { tok }));
    if start >= b {
        return None;
    }
    assert(number(tok) == (if d.len() > 0 && all_digits(d) { Some(digits_value(d)) } else { None::<int> }));
    let mut acc: u64 = 0;
    let mut i = start;
    assert(d.subrange(0, 0) =~= Seq::<u8>::empty());
    while i < b
        invariant
            start <= i <= b <= input@.len(),
            d == input@.subrange(start as int, b as int),
            tok == input@.subrange(a as int, b as int),
            number(tok) == (if d.len() > 0 && all_digits(d) { Some(digits_value(d)) } else { None::<int> }),
            acc == digits_value(d.subrange(0, i - start)),
            acc <= limit,
            limit <= u32::MAX,
            all_digits(d.subrange(0, i - start)),
        decreases b - i,
    {
        let c = input[i];
        if !(48 <= c && c <= 57) {
            assert(!is_digit(d[i - start]));
            assert(!all_digits(d));
            return None;
        }
        let ghost pre = d.subrange(0, i + 1 - start);
        assert(pre.drop_last() =~= d.subrange(0, i - start));
        assert(pre.last() == c);
        let v = acc * 10 + (c - 48) as u64;
        assert(digits_value(pre) == v);
        assert(all_digits(pre)) by {
            assert forall|j: int| 0 <= j < pre.len() implies is_digit(#[trigger] pre[j]) by {
                if j < pre.len() - 1 {
                    assert(pre[j] == d.subrange(0, i - start)[j]);
                }
            }
        }
        if v > limit {
            proof {
                if all_digits(d) {
                    lemma_digits_prefix(d, i + 1 - start);
                    assert(digits_value(d) > limit);
                }
            }
            return None;
        }
        acc = v;
        i = i + 1;
    }
    assert(d.subrange(0, b - start) =~= d);
    Some(acc)
}

impl Params {
    /// Reads the configuration from the lines of `input` starting at `*pos`,
    /// and moves `*pos` past them.
    pub fn from_lines(input: &[u8], pos: &mut usize) -> (r: Result<Params, ParseError>)
        requires
            *old(pos) <= input@.len(),
        ensures
            *final(pos) <= input@.len(),
            match read_config(input@, *old(pos) as int) {
                Ok((f1, f2, f3, f4, next)) => r matches Ok(p) && {
                    &&& p.num_tenants_n == f1[0]
                    &&& p.buffer_size_q == f1[1]
                    &&& p.priorities_lt@ == f2.map_values(|x: usize| x as u8)
                    &&& p.db_size_dt@ == f3
                    &&& p.buffer_sizes_qt@ == triples(f4)
                    &&& *final(pos) == next
                },
                Err(e) => r == Err::<Params, ParseError>(e),
            },
    {
        let ghost p0 = *pos;
        let f1 = match read_line(input, pos) {
            Err(e) => {
                return Err(e);
            },
            Ok(v) => v,
        };
        if f1.len() < 2 {
            return Err(ParseError::BadLine);
        }
        let ghost p1 = *pos;
        let f2 = match read_line(input, pos) {
            Err(e) => {
                return Err(e);
            },
            Ok(v) => v,
        };
        let ghost p2 = *pos;
        let mut priorities_lt: Vec<u8> = Vec::new();
        let mut i: usize = 0;
        while i < f2.len()
            invariant
                i <= f2@.len(),
                priorities_lt@ == f2@.subrange(0, i as int).map_values(|x: usize| x as u8),
                forall|j: int| 0 <= j < i ==> f2@[j] <= 255,
                *pos == p2,
                p0 == *old(pos),
                p2 <= input@.len(),
                line_fields(input@, p0 as int) == Ok::<(Seq<usize>, int), ParseError>((f1@, p1 as int)),
                f1@.len() >= 2,
                line_fields(input@, p1 as int) == Ok::<(Seq<usize>, int), ParseError>((f2@, p2 as int)),
            decreases f2@.len() - i,
        {
            if f2[i] > 255 {
                assert(f2@[i as int] > 255);
                return Err(ParseError::BadLine);
            }
            priorities_lt.push(f2[i] as u8);
            assert(f2@.subrange(0, i + 1).map_values(|x: usize| x as u8)
                =~= f2@.subrange(0, i as int).map_values(|x: usize| x as u8).push(f2@[i as int] as u8));
            i = i + 1;
        }
        assert(f2@.subrange(0, i as int) =~= f2@);
        let db_size_dt = match read_line(input, pos) {
            Err(e) => {
                return Err(e);
            },
            Ok(v) => v,
        };
        let f4 = match read_line(input, pos) {
            Err(e) => {
                return Err(e);
            },
            Ok(v) => v,
        };
        let mut buffer_sizes_qt: Vec<(usize, usize, usize)> = Vec::new();
        let count = f4.len() / 3;
        let mut k: usize = 0;
        while k < count
            invariant
                count == f4@.len() / 3,
                k <= count,
                buffer_sizes_qt@ == triples(f4@).subrange(0, k as int),
            decreases count - k,
        {
            let len = f4.len();
            assert(3 * k + 2 < len) by (nonlinear_arith)
                requires
                    k < count,
                    count == len / 3,
            ;
            buffer_sizes_qt.push((f4[3 * k], f4[3 * k + 1], f4[3 * k + 2]));
            assert(buffer_sizes_qt@ =~= triples(f4@).subrange(0, k + 1));
            k = k + 1;
        }
        assert(triples(f4@).subrange(0, count as int) =~= triples(f4@));
        Ok(
            Params {
                num_tenants_n: f1[0],
                buffer_size_q: f1[1],
                priorities_lt,
                db_size_dt,
                buffer_sizes_qt,
            },
        )
    }
}

impl Operation {
    /// Reads the access on the line at `*pos` and moves `*pos` to the next
    /// line; `Ok(None)` at the end of the input.
    pub fn from_lines(input: &[u8], pos: &mut usize) -> (r: Result<Option<Operation>, ParseError>)
        requires
            *old(pos) <= input@.len(),
        ensures
            *final(pos) <= input@.len(),
            match read_operation(input@, *old(pos) as int) {
                Ok(Some((op, next))) => r == Ok::<Option<Operation>, ParseError>(Some(op)) && *final(pos) == next,
                Ok(None) => r == Ok::<Option<Operation>, ParseError>(None) && *final(pos) == *old(pos),
                Err(e) => r == Err::<Option<Operation>, ParseError>(e),
            },
    {
        if *pos >= input.len() {
            return Ok(None);
        }
        let e = find_line_end(input, *pos);
        proof {
            lemma_line_end(input@, *pos as int);
        }
        let a = skip_blanks_exec(input, *pos, e);
        let b = token_end_exec(input, a, e);
        let c = skip_blanks_exec(input, b, e);
        let d = token_end_exec(input, c, e);
        let tenant = parse_number(input, a, b, 255);
        let page = parse_number(input, c, d, 0xffff_ffff);
        match (tenant, page) {
            (Some(u), Some(v)) => {
                *pos = if e < input.len() {
                    e + 1
                } else {
                    e
                };
                Ok(Some(Operation { tenant: Tenant(u as u8), page: Page(v as u32) }))
            },
            _ => Err(ParseError::BadLine),
        }
    }
}

} // verus!
