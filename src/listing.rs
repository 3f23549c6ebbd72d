//! Parsing a listing: lines of the form `<size> <path>`, the size a signed
//! decimal integer (negative sizes count as zero), the path taken as rooted.
use vstd::prelude::*;

verus! {

/// What `str::trim` returns: the string without leading and trailing
/// Unicode whitespace.
pub uninterp spec fn trimmed(s: Seq<char>) -> Seq<char>;

/// Relies on `str::trim`: removes leading and trailing whitespace; the result
/// depends on the characters alone.
#[verifier::external_body]
fn trim_line(s: &str) -> (r: &str)
    ensures
        r@ == trimmed(s@),
{
    s.trim()
}

pub open spec fn is_digit(c: char) -> bool {
    '0' <= c && c <= '9'
}

/// The value of a string of decimal digits.
pub open spec fn digits_value(s: Seq<char>) -> int
    decreases s.len(),
{
    if s.len() == 0 {
        0
    } else {
        digits_value(s.drop_last()) * 10 + (s.last() as int - '0' as int)
    }
}

/// `s` without its leading sign, if any.
pub open spec fn unsigned_part(s: Seq<char>) -> Seq<char> {
    if s.len() > 0 && (s[0] == '-' || s[0] == '+') {
        s.drop_first()
    } else {
        s
    }
}

pub open spec fn all_digits(ds: Seq<char>) -> bool {
    forall|i: int| 0 <= i < ds.len() ==> is_digit(#[trigger] ds[i])
}

/// A signed decimal integer as `i64`'s parser reads it: an optional `+` or
/// `-`, then one or more digits, with a value in `i64`'s range.
pub open spec fn parse_i64_spec(s: Seq<char>) -> Option<int> {
    let neg = s.len() > 0 && s[0] == '-';
    let ds = unsigned_part(s);
    if ds.len() == 0 || !all_digits(ds) {
        None
    } else {
        let v = if neg {
            -digits_value(ds)
        } else {
            digits_value(ds)
        };
        if i64::MIN <= v <= i64::MAX {
            Some(v)
        } else {
            None
        }
    }
}

/// Index of the first space in `t`, or its length.
pub open spec fn first_space(t: Seq<char>, k: int) -> int
    decreases t.len() - k,
{
    if k < 0 || k >= t.len() {
        t.len() as int
    } else if t[k] == ' ' {
        k
    } else {
        first_space(t, k + 1)
    }
}

/// A trimmed line: the size is what stands before the first space, clamped
/// at zero; the path is `/` followed by what stands after it.
pub open spec fn parse_line_spec(t: Seq<char>) -> Option<(u64, Seq<char>)> {
    let k = first_space(t, 0);
    let path = seq!['/'] + if k < t.len() {
        t.subrange(k + 1, t.len() as int)
    } else {
        Seq::empty()
    };
    match parse_i64_spec(t.subrange(0, k)) {
        Some(v) => Some((if v < 0 { 0u64 } else { v as u64 }, path)),
        None => None,
    }
}

proof fn lemma_first_space(t: Seq<char>, k: int)
    requires
        0 <= k <= t.len(),
    ensures
        k <= first_space(t, k) <= t.len(),
        first_space(t, k) < t.len() ==> t[first_space(t, k)] == ' ',
    decreases t.len() - k,
{
    if k < t.len() && t[k] != ' ' {
        lemma_first_space(t, k + 1);
    }
}

proof fn lemma_digits_grow(s: Seq<char>, j: int, k: int)
    requires
        0 <= j <= k <= s.len(),
        forall|i: int| 0 <= i < s.len() ==> is_digit(#[trigger] s[i]),
    ensures
        0 <= digits_value(s.subrange(0, j)) <= digits_value(s.subrange(0, k)),
    decreases k,
{
    if k > 0 {
        assert(s.subrange(0, k).drop_last() =~= s.subrange(0, k - 1));
        let jj = if j < k { j } else { k - 1 };
        lemma_digits_grow(s, jj, k - 1);
        let p = digits_value(s.subrange(0, k - 1));
        assert(is_digit(s[k - 1]));
        assert(p * 10 >= p) by (nonlinear_arith)
            requires
                p >= 0,
        ;
    } else {
        assert(s.subrange(0, 0).len() == 0);
    }
}

/// Parses a signed decimal integer into `i64`'s range.
pub fn parse_i64(s: &str) -> (r: Option<i64>)
    ensures
        match r {
            Some(v) => parse_i64_spec(s@) == Some(v as int),
            None => parse_i64_spec(s@) is None,
        },
{
    let n = s.unicode_len();
    let mut start: usize = 0;
    let mut neg = false;
    if n > 0 {
        let c0 = s.get_char(0);
        if c0 == '-' {
            neg = true;
            start = 1;
        } else if c0 == '+' {
            start = 1;
        }
    }
    let ghost ds = s@.subrange(start as int, n as int);
    proof {
        if n > 0 && (s@[0] == '-' || s@[0] == '+') {
            assert(ds =~= s@.drop_first());
        } else {
            assert(ds =~= s@);
        }
    }
    if start == n {
        return None;
    }
    let limit: u64 = 9223372036854775808;
    let mut acc: u64 = 0;
    let mut i: usize = start;
    proof {
        assert(ds.subrange(0, 0) =~= Seq::<char>::empty());
    }
    while i < n
        invariant
            n == s@.len(),
            start <= i <= n,
            start < n,
            ds == s@.subrange(start as int, n as int),
            ds == unsigned_part(s@),
            neg == (s@.len() > 0 && s@[0] == '-'),
            forall|k: int| 0 <= k < i - start ==> is_digit(#[trigger] ds[k]),
            acc as int == digits_value(ds.subrange(0, i - start)),
            acc <= limit,
            limit == 9223372036854775808u64,
        decreases n - i,
    {
        let c = s.get_char(i);
        if !('0' <= c && c <= '9') {
            proof {
                assert(!is_digit(ds[i - start]));
            }
            return None;
        }
        let d = (c as u32 - '0' as u32) as u64;
        proof {
            assert(ds.subrange(0, i + 1 - start).drop_last() =~= ds.subrange(0, i - start));
            assert(ds[i - start] == c);
        }
        if acc > (limit - d) / 10 {
            proof {
                assert(acc * 10 + d > limit) by (nonlinear_arith)
                    requires
                        acc > (limit - d) / 10,
                        d <= 9,
                        limit == 9223372036854775808u64,
                ;
                // the remaining characters can only make the value larger
                if all_digits(ds) {
                    lemma_digits_grow(ds, i + 1 - start, ds.len() as int);
                    assert(ds.subrange(0, ds.len() as int) =~= ds);
                }
            }
            return None;
        }
        proof {
            assert(acc * 10 + d <= limit) by (nonlinear_arith)
                requires
                    acc <= (limit - d) / 10,
                    d <= 9,
                    limit == 9223372036854775808u64,
            ;
        }
        acc = acc * 10 + d;
        i = i + 1;
    }
    proof {
        assert(ds.subrange(0, (n - start) as int) =~= ds);
    }
    if neg {
        if acc == limit {
            Some(-9223372036854775807i64 - 1)
        } else {
            Some(-(acc as i64))
        }
    } else if acc == limit {
        None
    } else {
        Some(acc as i64)
    }
}

/// Parses one trimmed line of the listing; `None` where what stands before
/// the first space is no `i64`.
pub fn parse_line(t: &str) -> (r: Option<(u64, String)>)
    ensures
        match r {
            Some((size, path)) => parse_line_spec(t@) == Some((size, path@)),
            None => parse_line_spec(t@) is None,
        },
{
    let n = t.unicode_len();
    let mut k: usize = 0;
    while k < n && t.get_char(k) != ' '
        invariant
            n == t@.len(),
            0 <= k <= n,
            first_space(t@, 0) == first_space(t@, k as int),
        decreases n - k,
    {
        k = k + 1;
    }
    proof {
        lemma_first_space(t@, 0);
        lemma_first_space(t@, k as int);
        assert(k as int == first_space(t@, 0));
    }
    let size_text = t.substring_char(0, k);
    match parse_i64(size_text) {
        None => None,
        Some(v) => {
            let size: u64 = if v < 0 {
                0
            } else {
                v as u64
            };
            let mut path = String::from_str("/");
            proof {
                reveal_strlit("/");
            }
            if k < n {
                path.append(t.substring_char(k + 1, n));
            }
            proof {
                if k < n {
                    assert(path@ =~= seq!['/'] + t@.subrange(k + 1, n as int));
                } else {
                    assert(path@ =~= seq!['/'] + Seq::<char>::empty());
                }
                assert(parse_i64_spec(t@.subrange(0, k as int)) == Some(v as int));
                assert(size as int == if v < 0 { 0 } else { v as int });
            }
            Some((size, path))
        },
    }
}

/// The line at `line` (counted from zero) is malformed.
#[derive(Debug, PartialEq, Eq, Structural)]
pub struct ParseFailure {
    pub line: usize,
}

/// Parses every line, each trimmed first; fails on the first malformed line.
pub fn parse_input(lines: &Vec<String>) -> (r: Result<Vec<(u64, String)>, ParseFailure>)
    ensures
        match r {
            Ok(v) => v.len() == lines.len() && forall|i: int|
                0 <= i < lines.len() ==> parse_line_spec(trimmed(#[trigger] lines@[i]@)) == Some(
                    (v@[i].0, v@[i].1@),
                ),
            Err(e) => e.line < lines.len() && parse_line_spec(trimmed(lines@[e.line as int]@))
                is None && forall|i: int|
                0 <= i < e.line ==> parse_line_spec(trimmed(#[trigger] lines@[i]@)) is Some,
        },
{
    let mut out: Vec<(u64, String)> = Vec::new();
    let mut i: usize = 0;
    while i < lines.len()
        invariant
            0 <= i <= lines.len(),
            out.len() == i,
            forall|j: int|
                0 <= j < i ==> parse_line_spec(trimmed(#[trigger] lines@[j]@)) == Some(
                    (out@[j].0, out@[j].1@),
                ),
        decreases lines.len() - i,
    {
        let t = trim_line(lines[i].as_str());
        match parse_line(t) {
            None => {
                return Err(ParseFailure { line: i });
            },
            Some(p) => {
                out.push(p);
            },
        }
        i = i + 1;
    }
    Ok(out)
}

} // verus!
