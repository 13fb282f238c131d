//! Queries and query results.
//!
//! A query line is one of `access I`, `rank B I` and `select B K`, with
//! `B` a bit written `0` or `1` and `I`, `K` decimal numbers; whitespace
//! may surround the number. `spec_parse_query` is the grammar, and
//! `Query::try_from` is proved to decide it. A result renders to one
//! output line: `0` or `1` for access, a decimal count for rank, and a
//! decimal position or the literal `None` for select.

use vstd::prelude::*;
use vstd::string::StrSliceExecFns;

verus! {

/// One query against the bit sequence.
#[derive(Debug, PartialEq, Eq, Structural)]
pub enum Query {
    Access(usize),
    Rank(bool, usize),
    Select(bool, usize),
}

/// The result of one query.
#[derive(Debug, PartialEq, Eq)]
pub enum QueryResult {
    Access(bool),
    Rank(usize),
    Select(Option<usize>),
}

/// The whitespace accepted around a number in a query line.
pub open spec fn ws_char(c: char) -> bool {
    c == ' ' || c == '\t' || c == '\n' || c == '\r'
}

/// A decimal digit.
pub open spec fn is_digit_char(c: char) -> bool {
    48 <= c as u32 <= 57
}

/// The text with leading and trailing whitespace removed.
pub open spec fn spec_trim(s: Seq<char>) -> Seq<char>
    decreases s.len(),
{
    if s.len() > 0 && ws_char(s[0]) {
        spec_trim(s.subrange(1, s.len() as int))
    } else if s.len() > 0 && ws_char(s[s.len() - 1]) {
        spec_trim(s.subrange(0, s.len() - 1))
    } else {
        s
    }
}

/// Every character is a decimal digit.
pub open spec fn all_digits(s: Seq<char>) -> bool {
    forall|i: int| 0 <= i < s.len() ==> is_digit_char(s[i])
}

/// The value of a digit string, most significant digit first.
pub open spec fn digits_val(s: Seq<char>) -> int
    decreases s.len(),
{
    if s.len() == 0 {
        0
    } else {
        digits_val(s.take(s.len() - 1)) * 10 + (s[s.len() - 1] as u32 - 48)
    }
}

/// The number denoted by the text once trimmed: present when what
/// remains is one or more digits whose value fits `usize`.
pub open spec fn spec_parse_num(s: Seq<char>) -> Option<usize> {
    let t = spec_trim(s);
    if t.len() > 0 && all_digits(t) && digits_val(t) <= usize::MAX as int {
        Some(digits_val(t) as usize)
    } else {
        None
    }
}

/// The query grammar: which query, if any, a line denotes.
pub open spec fn spec_parse_query(s: Seq<char>) -> Option<Query> {
    if s.len() >= 8 && s.subrange(0, 7) == "access "@ {
        match spec_parse_num(s.subrange(7, s.len() as int)) {
            Some(v) => Some(Query::Access(v)),
            None => None,
        }
    } else if s.len() >= 8 && s.subrange(0, 5) == "rank "@ && (s[5] == '0' || s[5] == '1') && s[6]
        == ' ' {
        match spec_parse_num(s.subrange(7, s.len() as int)) {
            Some(v) => Some(Query::Rank(s[5] == '1', v)),
            None => None,
        }
    } else if s.len() >= 10 && s.subrange(0, 7) == "select "@ && (s[7] == '0' || s[7] == '1')
        && s[8] == ' ' {
        match spec_parse_num(s.subrange(9, s.len() as int)) {
            Some(v) => Some(Query::Select(s[7] == '1', v)),
            None => None,
        }
    } else {
        None
    }
}

/// The bounds a query must respect against a sequence of `n` bits:
/// access and rank positions lie within it, and a select rank is between
/// 1 and `n`.
pub open spec fn query_in_range(q: Query, n: int) -> bool {
    match q {
        Query::Access(i) => i < n,
        Query::Rank(_, i) => i < n,
        Query::Select(_, k) => 1 <= k <= n,
    }
}

/// The result a query must produce over the bit sequence `s`: the bit
/// itself for access, the exact prefix count for rank, and for select
/// either the position whose rank is exactly `k - 1`, or absence exactly
/// when fewer than `k` such bits exist.
pub open spec fn result_matches(res: QueryResult, q: Query, s: Seq<bool>) -> bool {
    match (q, res) {
        (Query::Access(i), QueryResult::Access(b)) => b == s[i as int],
        (Query::Rank(w, i), QueryResult::Rank(r)) => r == crate::bits::count_upto(s, w, i as int),
        (Query::Select(w, k), QueryResult::Select(o)) => match o {
            Some(p) => p < s.len() && s[p as int] == w && crate::bits::count_upto(s, w, p as int)
                == k - 1,
            None => crate::bits::count_upto(s, w, s.len() as int) < k,
        },
        _ => false,
    }
}

/// As `result_matches`, but a select absence is taken at the select
/// engine's word: what a dispatcher over interchangeable engines can
/// promise when one of them may not support select at all.
pub open spec fn result_sound(res: QueryResult, q: Query, s: Seq<bool>) -> bool {
    match (q, res) {
        (Query::Access(i), QueryResult::Access(b)) => b == s[i as int],
        (Query::Rank(w, i), QueryResult::Rank(r)) => r == crate::bits::count_upto(s, w, i as int),
        (Query::Select(w, k), QueryResult::Select(o)) => match o {
            Some(p) => p < s.len() && s[p as int] == w && crate::bits::count_upto(s, w, p as int)
                == k - 1,
            None => true,
        },
        _ => false,
    }
}

/// The character of one decimal digit.
pub open spec fn digit_char(d: int) -> char {
    if d == 0 {
        '0'
    } else if d == 1 {
        '1'
    } else if d == 2 {
        '2'
    } else if d == 3 {
        '3'
    } else if d == 4 {
        '4'
    } else if d == 5 {
        '5'
    } else if d == 6 {
        '6'
    } else if d == 7 {
        '7'
    } else if d == 8 {
        '8'
    } else {
        '9'
    }
}

/// The decimal rendering of a non-negative number, most significant
/// digit first, without leading zeros.
pub open spec fn dec_chars(v: int) -> Seq<char>
    decreases v,
{
    if v <= 9 {
        seq![digit_char(v)]
    } else {
        dec_chars(v / 10).push(digit_char(v % 10))
    }
}

/// Trimming a text whose whitespace is exactly its ends outside
/// `[lo, hi)` yields the text between them.
proof fn lemma_trim_range(s: Seq<char>, lo: int, hi: int)
    requires
        0 <= lo <= hi <= s.len(),
        forall|i: int| 0 <= i < lo ==> ws_char(s[i]),
        forall|i: int| hi <= i < s.len() ==> ws_char(s[i]),
        lo < hi ==> !ws_char(s[lo]) && !ws_char(s[hi - 1]),
    ensures
        spec_trim(s) =~= s.subrange(lo, hi),
    decreases s.len(),
{
    if s.len() > 0 && ws_char(s[0]) {
        let tail = s.subrange(1, s.len() as int);
        if lo == hi {
            lemma_trim_range(tail, 0, 0);
            assert(tail.subrange(0, 0) =~= s.subrange(lo, hi));
        } else {
            lemma_trim_range(tail, lo - 1, hi - 1);
            assert(tail.subrange(lo - 1, hi - 1) =~= s.subrange(lo, hi));
        }
    } else if s.len() > 0 && ws_char(s[s.len() - 1]) {
        let front = s.subrange(0, s.len() - 1);
        if lo == hi {
            lemma_trim_range(front, 0, 0);
            assert(front.subrange(0, 0) =~= s.subrange(lo, hi));
        } else {
            lemma_trim_range(front, lo, hi);
            assert(front.subrange(lo, hi) =~= s.subrange(lo, hi));
        }
    } else {
        assert(s.subrange(lo, hi) =~= s);
    }
}

/// The digits are worth at least zero.
proof fn lemma_digits_val_nonneg(s: Seq<char>)
    requires
        all_digits(s),
    ensures
        digits_val(s) >= 0,
    decreases s.len(),
{
    if s.len() > 0 {
        assert(all_digits(s.take(s.len() - 1)));
        lemma_digits_val_nonneg(s.take(s.len() - 1));
    }
}

/// A digit string is worth at least any of its prefixes.
proof fn lemma_digits_val_prefix(s: Seq<char>, j: int)
    requires
        all_digits(s),
        0 <= j <= s.len(),
    ensures
        digits_val(s) >= digits_val(s.take(j)),
    decreases s.len() - j,
{
    if j < s.len() {
        assert(all_digits(s.take(j + 1)));
        assert(s.take(j + 1).take(j) =~= s.take(j));
        lemma_digits_val_nonneg(s.take(j));
        lemma_digits_val_prefix(s, j + 1);
    } else {
        assert(s.take(j) =~= s);
    }
}

/// Whether `pref` is a prefix of `line`, compared character by
/// character.
fn prefix_matches(line: &str, pref: &str) -> (r: bool)
    ensures
        r == (line@.len() >= pref@.len() && line@.subrange(0, pref@.len() as int) == pref@),
{
    let ln: usize = line.unicode_len();
    let pn: usize = pref.unicode_len();
    if ln < pn {
        return false;
    }
    let mut i: usize = 0;
    while i < pn
        invariant
            i <= pn,
            pn == pref@.len(),
            ln == line@.len(),
            pn <= ln,
            forall|j: int| 0 <= j < i ==> line@[j] == pref@[j],
        decreases pn - i,
    {
        if line.get_char(i) != pref.get_char(i) {
            proof {
                assert(line@.subrange(0, pn as int)[i as int] != pref@[i as int]);
            }
            return false;
        }
        i += 1;
    }
    proof {
        assert(line@.subrange(0, pn as int) =~= pref@);
    }
    true
}

/// Parses the number in `line` at and after position `start`, as
/// `spec_parse_num` reads it: whitespace trimmed, digits only, value
/// within `usize`.
fn parse_num_from(line: &str, start: usize) -> (r: Option<usize>)
    requires
        start as int <= line@.len(),
    ensures
        r == spec_parse_num(line@.subrange(start as int, line@.len() as int)),
{
    let ghost sub = line@.subrange(start as int, line@.len() as int);
    let len: usize = line.unicode_len();
    let mut lo: usize = start;
    loop
        invariant
            start <= lo <= len,
            len == line@.len(),
            start as int <= line@.len(),
            sub == line@.subrange(start as int, line@.len() as int),
            forall|j: int| start <= j < lo ==> ws_char(line@[j]),
        ensures
            start <= lo <= len,
            forall|j: int| start <= j < lo ==> ws_char(line@[j]),
            lo < len ==> !ws_char(line@[lo as int]),
        decreases len - lo,
    {
        if lo >= len {
            break ;
        }
        let c: char = line.get_char(lo);
        if !(c == ' ' || c == '\t' || c == '\n' || c == '\r') {
            break ;
        }
        lo += 1;
    }
    let mut hi: usize = len;
    loop
        invariant
            lo <= hi <= len,
            len == line@.len(),
            start <= lo,
            forall|j: int| hi <= j < len ==> ws_char(line@[j]),
            lo < len ==> !ws_char(line@[lo as int]),
        ensures
            lo <= hi <= len,
            forall|j: int| hi <= j < len ==> ws_char(line@[j]),
            hi > lo ==> !ws_char(line@[hi - 1]),
            lo < len ==> !ws_char(line@[lo as int]),
        decreases hi,
    {
        if hi <= lo {
            break ;
        }
        let c: char = line.get_char(hi - 1);
        if !(c == ' ' || c == '\t' || c == '\n' || c == '\r') {
            break ;
        }
        hi -= 1;
    }
    let ghost t = spec_trim(sub);
    proof {
        lemma_trim_range(sub, lo - start, hi - start);
        assert(sub.subrange(lo - start, hi - start) =~= line@.subrange(lo as int, hi as int));
        assert(t =~= line@.subrange(lo as int, hi as int));
    }
    if lo == hi {
        return None;
    }
    let mut acc: usize = 0;
    let mut i: usize = lo;
    while i < hi
        invariant
            start <= lo < hi <= len,
            lo <= i <= hi,
            len == line@.len(),
            sub == line@.subrange(start as int, line@.len() as int),
            t == spec_trim(sub),
            t == line@.subrange(lo as int, hi as int),
            t.len() == hi - lo,
            forall|j: int| 0 <= j < i - lo ==> is_digit_char(t[j]),
            acc as int == digits_val(t.take(i - lo)),
        decreases hi - i,
    {
        let c: char = line.get_char(i);
        proof {
            assert(t[i - lo] == line@[i as int]);
        }
        let u: u32 = c as u32;
        if u < 48 || u > 57 {
            proof {
                assert(!is_digit_char(t[i - lo]));
            }
            return None;
        }
        let d: usize = (u - 48) as usize;
        if acc > (usize::MAX - d) / 10 {
            proof {
                assert(digits_val(t.take(i - lo + 1)) == acc as int * 10 + d) by {
                    assert(t.take(i - lo + 1).take(i - lo) =~= t.take(i - lo));
                }
                if all_digits(t) {
                    lemma_digits_val_prefix(t, i - lo + 1);
                    assert(digits_val(t) > usize::MAX as int);
                }
            }
            return None;
        }
        proof {
            assert(t.take(i - lo + 1).take(i - lo) =~= t.take(i - lo));
        }
        acc = acc * 10 + d;
        i += 1;
    }
    proof {
        assert(t.take(hi - lo) =~= t);
        assert(all_digits(t));
    }
    Some(acc)
}

/// Relies on `String::push`: appends one character at the end.
#[verifier::external_body]
fn push_char(s: &mut String, c: char)
    ensures
        final(s)@ == old(s)@.push(c),
{
    s.push(c);
}

/// The character of one decimal digit.
fn digit_exec(d: usize) -> (c: char)
    requires
        d < 10,
    ensures
        c == digit_char(d as int),
{
    if d == 0 {
        '0'
    } else if d == 1 {
        '1'
    } else if d == 2 {
        '2'
    } else if d == 3 {
        '3'
    } else if d == 4 {
        '4'
    } else if d == 5 {
        '5'
    } else if d == 6 {
        '6'
    } else if d == 7 {
        '7'
    } else if d == 8 {
        '8'
    } else {
        '9'
    }
}

/// The decimal rendering of a number: digits gathered least significant
/// first, then written out in reverse.
fn dec_string(v: usize) -> (r: String)
    ensures
        r@ == dec_chars(v as int),
{
    let mut digits: Vec<char> = Vec::new();
    let mut x: usize = v;
    loop
        invariant_except_break
            digits@.len() >= 1 ==> x >= 1,
        invariant
            digits@.len() == 0 ==> x == v,
            digits@.len() >= 1 ==> dec_chars(v as int) == (if x > 0 {
                dec_chars(x as int) + Seq::new(
                    digits@.len(),
                    |i: int| digits@[digits@.len() - 1 - i],
                )
            } else {
                Seq::new(digits@.len(), |i: int| digits@[digits@.len() - 1 - i])
            }),
        ensures
            x == 0,
            digits@.len() >= 1,
            dec_chars(v as int) == Seq::new(digits@.len(), |i: int| digits@[digits@.len() - 1 - i]),
        decreases
                x,
                if digits@.len() == 0 {
                    1int
                } else {
                    0int
                },
    {
        let ghost old_digits = digits@;
        let ghost old_x = x as int;
        let d: usize = x % 10;
        digits.push(digit_exec(d));
        x = x / 10;
        proof {
            let revd = Seq::new(digits@.len(), |i: int| digits@[digits@.len() - 1 - i]);
            let old_rev = Seq::new(old_digits.len(), |i: int| old_digits[old_digits.len() - 1 - i]);
            if old_digits.len() == 0 {
                if x > 0 {
                    assert(dec_chars(old_x) == dec_chars(x as int).push(digit_char(old_x % 10)));
                    assert(dec_chars(x as int).push(digit_char(old_x % 10)) =~= dec_chars(x as int)
                        + revd);
                } else {
                    assert(dec_chars(old_x) =~= revd);
                }
            } else {
                assert(old_x > 0);
                if x > 0 {
                    assert(dec_chars(old_x) == dec_chars(x as int).push(digit_char(old_x % 10)));
                    assert(dec_chars(x as int) + revd =~= (dec_chars(x as int).push(
                        digit_char(old_x % 10),
                    )) + old_rev);
                } else {
                    assert(dec_chars(old_x) =~= seq![digit_char(old_x % 10)]);
                    assert(revd =~= dec_chars(old_x) + old_rev);
                }
            }
        }
        if x == 0 {
            break ;
        }
    }
    let mut out: String = String::new();
    let mut j: usize = digits.len();
    while j > 0
        invariant
            j <= digits@.len(),
            dec_chars(v as int) == Seq::new(digits@.len(), |i: int| digits@[digits@.len() - 1 - i]),
            out@ =~= dec_chars(v as int).take(digits@.len() - j),
        decreases j,
    {
        j -= 1;
        push_char(&mut out, digits[j]);
        proof {
            assert(out@ =~= dec_chars(v as int).take(digits@.len() - j));
        }
    }
    proof {
        assert(dec_chars(v as int).take(digits@.len() as int) =~= dec_chars(v as int));
    }
    out
}

impl QueryResult {
    /// The output line a result renders to.
    pub open spec fn spec_line(self) -> Seq<char> {
        match self {
            QueryResult::Access(b) => seq![
                if b {
                    '1'
                } else {
                    '0'
                },
                '\n',
            ],
            QueryResult::Rank(r) => dec_chars(r as int).push('\n'),
            QueryResult::Select(o) => match o {
                Some(p) => dec_chars(p as int).push('\n'),
                None => seq!['N', 'o', 'n', 'e', '\n'],
            },
        }
    }

    /// Renders the result as one newline-terminated output line.
    pub fn as_line(&self) -> (r: String)
        ensures
            r@ == self.spec_line(),
    {
        match self {
            QueryResult::Access(b) => {
                let mut out: String = String::new();
                push_char(
                    &mut out,
                    if *b {
                        '1'
                    } else {
                        '0'
                    },
                );
                push_char(&mut out, '\n');
                proof {
                    assert(out@ =~= self.spec_line());
                }
                out
            },
            QueryResult::Rank(v) => {
                let mut out: String = dec_string(*v);
                push_char(&mut out, '\n');
                out
            },
            QueryResult::Select(o) => match o {
                Some(p) => {
                    let mut out: String = dec_string(*p);
                    push_char(&mut out, '\n');
                    out
                },
                None => {
                    let mut out: String = String::new();
                    push_char(&mut out, 'N');
                    push_char(&mut out, 'o');
                    push_char(&mut out, 'n');
                    push_char(&mut out, 'e');
                    push_char(&mut out, '\n');
                    proof {
                        assert(out@ =~= self.spec_line());
                    }
                    out
                },
            },
        }
    }
}

impl Query {
    /// Reads one query line; `Ok` exactly on the lines of the grammar,
    /// with the query they denote.
    pub fn try_from(line: &str) -> (r: Result<Query, ()>)
        ensures
            r is Ok ==> spec_parse_query(line@) == Some(r->Ok_0),
            r is Err ==> spec_parse_query(line@) is None,
    {
        proof {
            reveal_strlit("access ");
            reveal_strlit("rank ");
            reveal_strlit("select ");
        }
        let len: usize = line.unicode_len();
        if prefix_matches(line, "access ") {
            if len < 8 {
                return Err(());
            }
            match parse_num_from(line, 7) {
                Some(v) => Ok(Query::Access(v)),
                None => Err(()),
            }
        } else if prefix_matches(line, "rank ") {
            if len < 8 {
                return Err(());
            }
            let b: char = line.get_char(5);
            let sp: char = line.get_char(6);
            if (b == '0' || b == '1') && sp == ' ' {
                match parse_num_from(line, 7) {
                    Some(v) => Ok(Query::Rank(b == '1', v)),
                    None => Err(()),
                }
            } else {
                proof {
                    assert(line@.subrange(0, 5)[0] == 'r');
                    if line@.len() >= 7 && line@.subrange(0, 7) == "select "@ {
                        assert(line@.subrange(0, 7)[0] == 's');
                        assert(false);
                    }
                }
                Err(())
            }
        } else if prefix_matches(line, "select ") {
            if len < 10 {
                return Err(());
            }
            let b: char = line.get_char(7);
            let sp: char = line.get_char(8);
            if (b == '0' || b == '1') && sp == ' ' {
                match parse_num_from(line, 9) {
                    Some(v) => Ok(Query::Select(b == '1', v)),
                    None => Err(()),
                }
            } else {
                proof {
                    assert(line@.subrange(0, 7)[0] == 's');
                    if line@.len() >= 5 && line@.subrange(0, 5) == "rank "@ {
                        assert(line@.subrange(0, 5)[0] == 'r');
                        assert(false);
                    }
                }
                Err(())
            }
        } else {
            Err(())
        }
    }
}

} // verus!
