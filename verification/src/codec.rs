//! The persisted route file: a JSON array with one object per route,
//! one route per line, holding the fields `method`, `path`, `status`,
//! `delay_ms` and `response`.  The response body travels as a JSON
//! string.  The encoder writes exactly this form and the parser reads
//! it back; an empty document stands for an empty route set, and any
//! other document the encoder cannot have written is malformed.

use vstd::prelude::*;

use crate::error::AppError;
use crate::route::{RouteConfig, RouteSpec};
use crate::text::string_of;

verus! {

// ---------------------------------------------------------------------
// Characters
// ---------------------------------------------------------------------
/// A decimal digit character.
pub open spec fn is_digit(c: char) -> bool {
    c == '0' || c == '1' || c == '2' || c == '3' || c == '4' || c == '5' || c == '6' || c == '7'
        || c == '8' || c == '9'
}

/// The value of a decimal digit character.
pub open spec fn digit_val(c: char) -> int {
    if c == '0' {
        0
    } else if c == '1' {
        1
    } else if c == '2' {
        2
    } else if c == '3' {
        3
    } else if c == '4' {
        4
    } else if c == '5' {
        5
    } else if c == '6' {
        6
    } else if c == '7' {
        7
    } else if c == '8' {
        8
    } else {
        9
    }
}

/// The character of a decimal digit value.
pub open spec fn digit_char(d: int) -> char {
    if d == 0 {
        '0'
    } else if d == 1 {
        '1'
    } else if d == 2 {
        '2'
    } else if d == 3 {
        '3'
    } else if d == 4 {
        '4'
    } else if d == 5 {
        '5'
    } else if d == 6 {
        '6'
    } else if d == 7 {
        '7'
    } else if d == 8 {
        '8'
    } else {
        '9'
    }
}

/// The decimal digits of a number, most significant first.
pub open spec fn digits(n: nat) -> Seq<char>
    decreases n,
{
    if n < 10 {
        seq![digit_char(n as int)]
    } else {
        digits(n / 10).push(digit_char((n % 10) as int))
    }
}

/// The number a digit sequence denotes.
pub open spec fn num_val(ds: Seq<char>) -> int
    decreases ds.len(),
{
    if ds.len() == 0 {
        0
    } else {
        num_val(ds.drop_last()) * 10 + digit_val(ds.last())
    }
}

/// How one character is written inside a JSON string: quotes and
/// backslashes get a backslash in front, everything else stands as is.
pub open spec fn esc_char(c: char) -> Seq<char> {
    if c == '"' || c == '\\' {
        seq!['\\', c]
    } else {
        seq![c]
    }
}

/// How a whole text is written inside a JSON string.
pub open spec fn escape(s: Seq<char>) -> Seq<char>
    decreases s.len(),
{
    if s.len() == 0 {
        Seq::empty()
    } else {
        esc_char(s[0]) + escape(s.skip(1))
    }
}

// ---------------------------------------------------------------------
// Encoding
// ---------------------------------------------------------------------
/// One route as a JSON object on one line.
pub open spec fn enc_entry(r: RouteSpec) -> Seq<char> {
    "{\"method\": \""@ + escape(r.method) + seq!['"'] + ", \"path\": \""@ + escape(r.path)
        + seq!['"'] + ", \"status\": "@ + digits(r.status as nat) + ", \"delay_ms\": "@ + digits(
        r.delay_ms as nat,
    ) + ", \"response\": \""@ + escape(r.response) + seq!['"'] + "}"@
}

/// The routes as comma-and-newline separated objects.
pub open spec fn enc_entries(s: Seq<RouteSpec>) -> Seq<char>
    decreases s.len(),
    when s.len() > 0
{
    if s.len() == 1 {
        enc_entry(s[0])
    } else {
        enc_entry(s[0]) + ",\n"@ + enc_entries(s.skip(1))
    }
}

/// The whole route document.
pub open spec fn spec_encode_routes(s: Seq<RouteSpec>) -> Seq<char> {
    if s.len() == 0 {
        "[]"@
    } else {
        "[\n"@ + enc_entries(s) + "\n]"@
    }
}

// ---------------------------------------------------------------------
// Parsing
// ---------------------------------------------------------------------
/// Succeeds when the literal stands at `i`, giving the position after it.
pub open spec fn expect(t: Seq<char>, i: int, lit: Seq<char>) -> Option<int> {
    if 0 <= i && i + lit.len() <= t.len() && t.subrange(i, i + lit.len()) == lit {
        Some(i + lit.len())
    } else {
        None
    }
}

/// Reads a string body from `i` up to its closing quote, undoing the
/// escapes; gives the text and the position after the quote.
pub open spec fn scan_string(t: Seq<char>, i: int) -> Option<(Seq<char>, int)>
    decreases t.len() - i,
    when 0 <= i <= t.len()
{
    if i >= t.len() {
        None
    } else if t[i] == '"' {
        Some((Seq::empty(), i + 1))
    } else if t[i] == '\\' {
        if i + 1 < t.len() && (t[i + 1] == '"' || t[i + 1] == '\\') {
            match scan_string(t, i + 2) {
                Some((s, j)) => Some((seq![t[i + 1]] + s, j)),
                None => None,
            }
        } else {
            None
        }
    } else {
        match scan_string(t, i + 1) {
            Some((s, j)) => Some((seq![t[i]] + s, j)),
            None => None,
        }
    }
}

/// The position after the run of digit characters starting at `i`.
pub open spec fn digit_run_end(t: Seq<char>, i: int) -> int
    decreases t.len() - i,
    when 0 <= i <= t.len()
{
    if i < t.len() && is_digit(t[i]) {
        digit_run_end(t, i + 1)
    } else {
        i
    }
}

/// Reads the decimal number starting at `i`, if a digit stands there.
pub open spec fn scan_number(t: Seq<char>, i: int) -> Option<(int, int)> {
    if 0 <= i && i < t.len() && is_digit(t[i]) {
        let j = digit_run_end(t, i);
        Some((num_val(t.subrange(i, j)), j))
    } else {
        None
    }
}

/// Reads one route object starting at `i`.
pub open spec fn parse_entry(t: Seq<char>, i: int) -> Option<(RouteSpec, int)> {
    match expect(t, i, "{\"method\": \""@) {
        None => None,
        Some(j1) => match scan_string(t, j1) {
            None => None,
            Some((method, j2)) => match expect(t, j2, ", \"path\": \""@) {
                None => None,
                Some(j3) => match scan_string(t, j3) {
                    None => None,
                    Some((path, j4)) => match expect(t, j4, ", \"status\": "@) {
                        None => None,
                        Some(j5) => match scan_number(t, j5) {
                            None => None,
                            Some((status, j6)) => if !(0 <= status <= u16::MAX) {
                                None
                            } else {
                                match expect(t, j6, ", \"delay_ms\": "@) {
                                    None => None,
                                    Some(j7) => match scan_number(t, j7) {
                                        None => None,
                                        Some((delay, j8)) => if !(0 <= delay <= u64::MAX) {
                                            None
                                        } else {
                                            match expect(t, j8, ", \"response\": \""@) {
                                                None => None,
                                                Some(j9) => match scan_string(t, j9) {
                                                    None => None,
                                                    Some((response, j10)) => match expect(
                                                        t,
                                                        j10,
                                                        "}"@,
                                                    ) {
                                                        None => None,
                                                        Some(j11) => Some(
                                                            (
                                                                RouteSpec {
                                                                    method,
                                                                    path,
                                                                    status: status as u16,
                                                                    delay_ms: delay as u64,
                                                                    response,
                                                                },
                                                                j11,
                                                            ),
                                                        ),
                                                    },
                                                },
                                            }
                                        },
                                    },
                                }
                            },
                        },
                    },
                },
            },
        },
    }
}

/// Reads route objects separated by `,\n` until the closing `\n]`.
pub open spec fn parse_entries(t: Seq<char>, i: int) -> Option<(Seq<RouteSpec>, int)>
    decreases t.len() - i,
    when 0 <= i <= t.len()
{
    match parse_entry(t, i) {
        None => None,
        Some((r, j)) => if !(i < j <= t.len()) {
            None
        } else {
            match expect(t, j, ",\n"@) {
                Some(j2) => if !(j < j2 <= t.len()) {
                    None
                } else {
                    match parse_entries(t, j2) {
                        None => None,
                        Some((rs, j3)) => Some((seq![r] + rs, j3)),
                    }
                },
                None => match expect(t, j, "\n]"@) {
                    None => None,
                    Some(j2) => Some((seq![r], j2)),
                },
            }
        },
    }
}

/// Reads a whole route document.  Exactly the texts the encoder writes
/// are accepted.
pub open spec fn spec_parse_routes(t: Seq<char>) -> Option<Seq<RouteSpec>> {
    if t == "[]"@ {
        Some(Seq::empty())
    } else {
        match expect(t, 0, "[\n"@) {
            None => None,
            Some(j) => match parse_entries(t, j) {
                None => None,
                Some((rs, j2)) => if j2 == t.len() {
                    Some(rs)
                } else {
                    None
                },
            },
        }
    }
}

// ---------------------------------------------------------------------
// Executable building blocks
// ---------------------------------------------------------------------
/// Appends the characters of a literal.
pub(crate) fn push_lit(out: &mut Vec<char>, lit: &str)
    ensures
        final(out)@ == old(out)@ + lit@,
{
    let cs = crate::text::chars_of(lit);
    let n = cs.len();
    let mut i: usize = 0;
    while i < n
        invariant
            n == cs.len(),
            cs@ == lit@,
            0 <= i <= n,
            out@ == old(out)@ + cs@.take(i as int),
        decreases n - i,
    {
        out.push(cs[i]);
        proof {
            assert(cs@.take(i + 1) =~= cs@.take(i as int).push(cs@[i as int]));
            assert(out@ =~= old(out)@ + cs@.take(i + 1));
        }
        i += 1;
    }
    proof {
        assert(cs@.take(n as int) =~= cs@);
    }
}

/// `escape` grows by one escaped character at the end.
proof fn lemma_escape_snoc(s: Seq<char>, c: char)
    ensures
        escape(s.push(c)) == escape(s) + esc_char(c),
    decreases s.len(),
{
    let sc = s.push(c);
    if s.len() == 0 {
        assert(sc[0] == c);
        assert(sc.skip(1) =~= Seq::<char>::empty());
        assert(escape(sc) == esc_char(c) + escape(sc.skip(1)));
        assert(escape(sc) =~= esc_char(c));
        assert(escape(s) + esc_char(c) =~= esc_char(c));
    } else {
        assert(sc[0] == s[0]);
        assert(sc.skip(1) =~= s.skip(1).push(c));
        lemma_escape_snoc(s.skip(1), c);
        assert(escape(sc) == esc_char(s[0]) + escape(sc.skip(1)));
        assert(escape(sc.skip(1)) == escape(s.skip(1)) + esc_char(c));
        assert(escape(s) == esc_char(s[0]) + escape(s.skip(1)));
        assert(esc_char(s[0]) + (escape(s.skip(1)) + esc_char(c)) =~= (esc_char(s[0]) + escape(
            s.skip(1),
        )) + esc_char(c));
    }
}

/// Appends a text in its escaped form.
pub(crate) fn push_escaped(out: &mut Vec<char>, s: &String)
    ensures
        final(out)@ == old(out)@ + escape(s@),
{
    let cs = crate::text::chars_of(s.as_str());
    let n = cs.len();
    let mut i: usize = 0;
    while i < n
        invariant
            n == cs.len(),
            cs@ == s@,
            0 <= i <= n,
            out@ == old(out)@ + escape(cs@.take(i as int)),
        decreases n - i,
    {
        let c = cs[i];
        if c == '"' || c == '\\' {
            out.push('\\');
            out.push(c);
        } else {
            out.push(c);
        }
        proof {
            assert(cs@.take(i + 1) =~= cs@.take(i as int).push(cs@[i as int]));
            lemma_escape_snoc(cs@.take(i as int), cs@[i as int]);
            assert(out@ =~= old(out)@ + escape(cs@.take(i + 1)));
        }
        i += 1;
    }
    proof {
        assert(cs@.take(n as int) =~= cs@);
    }
}

/// The digit character of a digit value.
fn digit_char_x(d: u64) -> (r: char)
    requires
        d < 10,
    ensures
        r == digit_char(d as int),
{
    if d == 0 {
        '0'
    } else if d == 1 {
        '1'
    } else if d == 2 {
        '2'
    } else if d == 3 {
        '3'
    } else if d == 4 {
        '4'
    } else if d == 5 {
        '5'
    } else if d == 6 {
        '6'
    } else if d == 7 {
        '7'
    } else if d == 8 {
        '8'
    } else {
        '9'
    }
}

/// Appends the decimal digits of a number.
fn push_digits(out: &mut Vec<char>, n: u64)
    ensures
        final(out)@ == old(out)@ + digits(n as nat),
    decreases n,
{
    if n < 10 {
        out.push(digit_char_x(n));
        proof {
            assert(out@ =~= old(out)@ + digits(n as nat));
        }
    } else {
        push_digits(out, n / 10);
        out.push(digit_char_x(n % 10));
        proof {
            assert(out@ =~= old(out)@ + digits(n as nat));
        }
    }
}

/// Appends one route in its encoded form.
fn push_entry(out: &mut Vec<char>, r: &RouteConfig)
    ensures
        final(out)@ == old(out)@ + enc_entry(r@),
{
    push_lit(out, "{\"method\": \"");
    push_escaped(out, &r.method);
    out.push('"');
    push_lit(out, ", \"path\": \"");
    push_escaped(out, &r.path);
    out.push('"');
    push_lit(out, ", \"status\": ");
    push_digits(out, r.status as u64);
    push_lit(out, ", \"delay_ms\": ");
    push_digits(out, r.delay_ms);
    push_lit(out, ", \"response\": \"");
    push_escaped(out, &r.response);
    out.push('"');
    push_lit(out, "}");
    proof {
        assert(r@.status as u64 as nat == r@.status as nat);
        assert(out@ =~= old(out)@ + enc_entry(r@));
    }
}

/// Appends the encoded routes from position `i` on, separated as the
/// document form asks.
fn push_entries(out: &mut Vec<char>, routes: &Vec<RouteConfig>, i: usize)
    requires
        i < routes.len(),
    ensures
        final(out)@ == old(out)@ + enc_entries(
            routes@.map(|k: int, c: RouteConfig| c@).skip(i as int),
        ),
    decreases routes.len() - i,
{
    let ghost rs = routes@.map(|k: int, c: RouteConfig| c@);
    push_entry(out, &routes[i]);
    if i + 1 < routes.len() {
        push_lit(out, ",\n");
        push_entries(out, routes, i + 1);
        proof {
            assert(rs.skip(i as int)[0] == rs[i as int]);
            assert(rs.skip(i as int).skip(1) =~= rs.skip(i + 1));
            assert(rs.skip(i as int).len() > 1);
            assert(out@ =~= old(out)@ + enc_entries(rs.skip(i as int)));
        }
    } else {
        proof {
            assert(rs.skip(i as int)[0] == rs[i as int]);
            assert(rs.skip(i as int).len() == 1);
            assert(out@ =~= old(out)@ + enc_entries(rs.skip(i as int)));
        }
    }
}

// ---------------------------------------------------------------------
// Scanner bounds
// ---------------------------------------------------------------------
/// A successful string scan moves forward and stays inside the text.
proof fn lemma_scan_string_bounds(t: Seq<char>, i: int)
    requires
        0 <= i <= t.len(),
    ensures
        scan_string(t, i) matches Some(p) ==> i < p.1 <= t.len(),
    decreases t.len() - i,
{
    if i < t.len() {
        if t[i] == '\\' {
            if i + 1 < t.len() && (t[i + 1] == '"' || t[i + 1] == '\\') {
                lemma_scan_string_bounds(t, i + 2);
            }
        } else if t[i] != '"' {
            lemma_scan_string_bounds(t, i + 1);
        }
    }
}

/// The digit run's end lies between `i` and the end of the text, every
/// character before it is a digit, and the character at it is not.
proof fn lemma_digit_run_end(t: Seq<char>, i: int)
    requires
        0 <= i <= t.len(),
    ensures
        i <= digit_run_end(t, i) <= t.len(),
        forall|k: int| i <= k < digit_run_end(t, i) ==> is_digit(t[k]),
        digit_run_end(t, i) < t.len() ==> !is_digit(t[digit_run_end(t, i)]),
    decreases t.len() - i,
{
    if i < t.len() && is_digit(t[i]) {
        lemma_digit_run_end(t, i + 1);
    }
}

/// A digit sequence denotes a non-negative number.
proof fn lemma_num_val_nonneg(ds: Seq<char>)
    ensures
        num_val(ds) >= 0,
    decreases ds.len(),
{
    if ds.len() > 0 {
        lemma_num_val_nonneg(ds.drop_last());
    }
}

/// The number of a digit sequence is at least the number of any prefix.
proof fn lemma_num_val_prefix_le(ds: Seq<char>, k: int)
    requires
        0 <= k <= ds.len(),
    ensures
        num_val(ds.take(k)) <= num_val(ds),
    decreases ds.len() - k,
{
    if k < ds.len() {
        lemma_num_val_prefix_le(ds, k + 1);
        assert(ds.take(k + 1).drop_last() =~= ds.take(k));
        assert(ds.take(k + 1).last() == ds[k]);
        lemma_num_val_nonneg(ds.take(k));
        assert(digit_val(ds[k]) >= 0);
    } else {
        assert(ds.take(k) =~= ds);
    }
}

// ---------------------------------------------------------------------
// Executable parsing
// ---------------------------------------------------------------------
/// Whether a character is a decimal digit.
fn is_digit_x(c: char) -> (r: bool)
    ensures
        r == is_digit(c),
{
    c == '0' || c == '1' || c == '2' || c == '3' || c == '4' || c == '5' || c == '6' || c == '7'
        || c == '8' || c == '9'
}

/// The value of a decimal digit character.
fn digit_val_x(c: char) -> (r: u64)
    requires
        is_digit(c),
    ensures
        r == digit_val(c),
{
    if c == '0' {
        0
    } else if c == '1' {
        1
    } else if c == '2' {
        2
    } else if c == '3' {
        3
    } else if c == '4' {
        4
    } else if c == '5' {
        5
    } else if c == '6' {
        6
    } else if c == '7' {
        7
    } else if c == '8' {
        8
    } else {
        9
    }
}

/// Checks a literal at position `i`.
fn expect_x(t: &Vec<char>, i: usize, lit: &str) -> (r: Option<usize>)
    requires
        i <= t.len(),
    ensures
        (match expect(t@, i as int, lit@) {
            Some(j) => r matches Some(jj) && jj == j,
            None => r is None,
        }),
{
    let cs = crate::text::chars_of(lit);
    let n = cs.len();
    if n > t.len() - i {
        return None;
    }
    let mut k: usize = 0;
    while k < n
        invariant
            n == cs.len(),
            cs@ == lit@,
            i + n <= t.len(),
            0 <= k <= n,
            forall|a: int| 0 <= a < k ==> t@[i + a] == cs@[a],
        decreases n - k,
    {
        if t[i + k] != cs[k] {
            proof {
                assert(t@.subrange(i as int, i + n) != lit@) by {
                    assert(t@[i + k] != lit@[k as int]);
                }
            }
            return None;
        }
        k += 1;
    }
    proof {
        assert(t@.subrange(i as int, i + n) =~= lit@);
    }
    Some(i + n)
}

/// Reads a string body, undoing the escapes.
fn scan_string_x(t: &Vec<char>, i: usize) -> (r: Option<(Vec<char>, usize)>)
    requires
        i <= t.len(),
    ensures
        (match scan_string(t@, i as int) {
            Some(p) => r matches Some(q) && q.0@ == p.0 && q.1 == p.1,
            None => r is None,
        }),
    decreases t.len() - i,
{
    if i >= t.len() {
        return None;
    }
    let c = t[i];
    if c == '"' {
        Some((Vec::new(), i + 1))
    } else if c == '\\' {
        if i + 1 < t.len() && (t[i + 1] == '"' || t[i + 1] == '\\') {
            match scan_string_x(t, i + 2) {
                Some((mut s, j)) => {
                    let ghost s0 = s@;
                    s.insert(0, t[i + 1]);
                    proof {
                        assert(s@ =~= seq![t@[i + 1]] + s0);
                    }
                    Some((s, j))
                },
                None => None,
            }
        } else {
            None
        }
    } else {
        match scan_string_x(t, i + 1) {
            Some((mut s, j)) => {
                let ghost s0 = s@;
                s.insert(0, c);
                proof {
                    assert(s@ =~= seq![t@[i as int]] + s0);
                }
                Some((s, j))
            },
            None => None,
        }
    }
}

/// Reads a decimal number, refusing one that does not fit in `u64`.
fn scan_number_x(t: &Vec<char>, i: usize) -> (r: Option<(u64, usize)>)
    requires
        i <= t.len(),
    ensures
        (match scan_number(t@, i as int) {
            Some(p) => if p.0 <= u64::MAX {
                r matches Some(q) && q.0 == p.0 && q.1 == p.1
            } else {
                r is None
            },
            None => r is None,
        }),
{
    if i >= t.len() {
        return None;
    }
    if !is_digit_x(t[i]) {
        return None;
    }
    proof {
        lemma_digit_run_end(t@, i as int);
    }
    let ghost end = digit_run_end(t@, i as int);
    let ghost full = t@.subrange(i as int, end);
    let mut acc: u64 = 0;
    let mut j: usize = i;
    while j < t.len() && is_digit_x(t[j])
        invariant
            i <= j <= t.len(),
            j <= end <= t.len(),
            end == digit_run_end(t@, i as int),
            full == t@.subrange(i as int, end),
            forall|k: int| i <= k < end ==> is_digit(t@[k]),
            end < t.len() ==> !is_digit(t@[end]),
            acc == num_val(t@.subrange(i as int, j as int)),
        decreases t.len() - j,
    {
        let d = digit_val_x(t[j]);
        proof {
            assert(j < end) by {
                if j >= end {
                    assert(j == end);
                    assert(!is_digit(t@[j as int]));
                }
            }
            assert(t@.subrange(i as int, j + 1).drop_last() =~= t@.subrange(i as int, j as int));
            assert(t@.subrange(i as int, j + 1).last() == t@[j as int]);
        }
        let m = match acc.checked_mul(10) {
            Some(m) => m,
            None => {
                proof {
                    lemma_num_val_prefix_le(full, j + 1 - i);
                    assert(full.take(j + 1 - i) =~= t@.subrange(i as int, j + 1));
                    assert(num_val(t@.subrange(i as int, j + 1)) == acc * 10 + digit_val(
                        t@[j as int],
                    ));
                    assert(num_val(full) >= acc * 10);
                }
                return None;
            },
        };
        let a = match m.checked_add(d) {
            Some(a) => a,
            None => {
                proof {
                    lemma_num_val_prefix_le(full, j + 1 - i);
                    assert(full.take(j + 1 - i) =~= t@.subrange(i as int, j + 1));
                    assert(num_val(t@.subrange(i as int, j + 1)) == acc * 10 + digit_val(
                        t@[j as int],
                    ));
                }
                return None;
            },
        };
        acc = a;
        j += 1;
    }
    proof {
        assert(j == end) by {
            if j < end {
                assert(is_digit(t@[j as int]));
            }
        }
        assert(t@.subrange(i as int, j as int) == full);
    }
    Some((acc, j))
}

/// Reads one route object.
fn parse_entry_x(t: &Vec<char>, i: usize) -> (r: Option<(RouteConfig, usize)>)
    requires
        i <= t.len(),
    ensures
        (match parse_entry(t@, i as int) {
            Some(p) => r matches Some(q) && q.0@ == p.0 && q.1 == p.1,
            None => r is None,
        }),
{
    let j1 = match expect_x(t, i, "{\"method\": \"") {
        Some(j) => j,
        None => {
            return None;
        },
    };
    proof {
        lemma_scan_string_bounds(t@, j1 as int);
    }
    let (method, j2) = match scan_string_x(t, j1) {
        Some(p) => p,
        None => {
            return None;
        },
    };
    let j3 = match expect_x(t, j2, ", \"path\": \"") {
        Some(j) => j,
        None => {
            return None;
        },
    };
    proof {
        lemma_scan_string_bounds(t@, j3 as int);
    }
    let (path, j4) = match scan_string_x(t, j3) {
        Some(p) => p,
        None => {
            return None;
        },
    };
    let j5 = match expect_x(t, j4, ", \"status\": ") {
        Some(j) => j,
        None => {
            return None;
        },
    };
    proof {
        if j5 < t@.len() && is_digit(t@[j5 as int]) {
            lemma_digit_run_end(t@, j5 as int);
            lemma_num_val_nonneg(t@.subrange(j5 as int, digit_run_end(t@, j5 as int)));
        }
    }
    let (status, j6) = match scan_number_x(t, j5) {
        Some(p) => p,
        None => {
            return None;
        },
    };
    if status > 65535 {
        return None;
    }
    let j7 = match expect_x(t, j6, ", \"delay_ms\": ") {
        Some(j) => j,
        None => {
            return None;
        },
    };
    proof {
        if j7 < t@.len() && is_digit(t@[j7 as int]) {
            lemma_digit_run_end(t@, j7 as int);
            lemma_num_val_nonneg(t@.subrange(j7 as int, digit_run_end(t@, j7 as int)));
        }
    }
    let (delay, j8) = match scan_number_x(t, j7) {
        Some(p) => p,
        None => {
            return None;
        },
    };
    let j9 = match expect_x(t, j8, ", \"response\": \"") {
        Some(j) => j,
        None => {
            return None;
        },
    };
    proof {
        lemma_scan_string_bounds(t@, j9 as int);
    }
    let (response, j10) = match scan_string_x(t, j9) {
        Some(p) => p,
        None => {
            return None;
        },
    };
    let j11 = match expect_x(t, j10, "}") {
        Some(j) => j,
        None => {
            return None;
        },
    };
    let rc = RouteConfig {
        method: string_of(&method),
        path: string_of(&path),
        status: status as u16,
        delay_ms: delay,
        response: string_of(&response),
    };
    Some((rc, j11))
}

/// Reads route objects up to the closing bracket.
fn parse_entries_x(t: &Vec<char>, i: usize) -> (r: Option<(Vec<RouteConfig>, usize)>)
    requires
        i <= t.len(),
    ensures
        (match parse_entries(t@, i as int) {
            Some(p) => r matches Some(q) && q.0@.map(|k: int, c: RouteConfig| c@) == p.0 && q.1
                == p.1,
            None => r is None,
        }),
    decreases t.len() - i,
{
    let (first, j) = match parse_entry_x(t, i) {
        Some(p) => p,
        None => {
            return None;
        },
    };
    if !(i < j && j <= t.len()) {
        return None;
    }
    match expect_x(t, j, ",\n") {
        Some(j2) => {
            if !(j < j2 && j2 <= t.len()) {
                return None;
            }
            match parse_entries_x(t, j2) {
                Some((mut rest, j3)) => {
                    let ghost r0 = rest@.map(|k: int, c: RouteConfig| c@);
                    rest.insert(0, first);
                    proof {
                        assert(rest@.map(|k: int, c: RouteConfig| c@) =~= seq![first@] + r0);
                    }
                    Some((rest, j3))
                },
                None => None,
            }
        },
        None => {
            match expect_x(t, j, "\n]") {
                Some(j2) => {
                    let mut v: Vec<RouteConfig> = Vec::new();
                    v.push(first);
                    proof {
                        assert(v@.map(|k: int, c: RouteConfig| c@) =~= seq![first@]);
                    }
                    Some((v, j2))
                },
                None => None,
            }
        },
    }
}

/// Reads a route document.  An empty text stands for an empty route
/// set; any text the encoder cannot have written is refused.
pub fn parse_routes(text: &String) -> (r: Result<Vec<RouteConfig>, AppError>)
    ensures
        text@.len() == 0 ==> (r matches Ok(v) && v@.len() == 0),
        text@.len() > 0 ==> (match spec_parse_routes(text@) {
            Some(rs) => r matches Ok(v) && v@.map(|k: int, c: RouteConfig| c@) == rs,
            None => (r matches Err(AppError::Json(m)) && m@ == "malformed route document"@),
        }),
{
    let t = crate::text::chars_of(text.as_str());
    if t.len() == 0 {
        return Ok(Vec::new());
    }
    proof {
        reveal_strlit("[]");
    }
    if t.len() == 2 && t[0] == '[' && t[1] == ']' {
        proof {
            assert(t@ =~= "[]"@);
        }
        return Ok(Vec::new());
    }
    proof {
        assert(t@ != "[]"@) by {
            if t@ == "[]"@ {
                assert(t@.len() == 2 && t@[0] == '[' && t@[1] == ']');
            }
        }
    }
    let j = match expect_x(&t, 0, "[\n") {
        Some(j) => j,
        None => {
            return Err(malformed_err());
        },
    };
    match parse_entries_x(&t, j) {
        Some((v, j2)) => {
            if j2 == t.len() {
                Ok(v)
            } else {
                Err(malformed_err())
            }
        },
        None => Err(malformed_err()),
    }
}

/// The error for a document the parser refuses.
fn malformed_err() -> (e: AppError)
    ensures
        e matches AppError::Json(m) && m@ == "malformed route document"@,
{
    AppError::Json("malformed route document".to_owned())
}

// ---------------------------------------------------------------------
// The round trip: parsing what the encoder wrote gives the routes back
// ---------------------------------------------------------------------
/// A subrange equal to a concatenation splits into two subranges.
proof fn lemma_subrange_split(t: Seq<char>, i: int, a: Seq<char>, b: Seq<char>)
    requires
        0 <= i,
        i + a.len() + b.len() <= t.len(),
        t.subrange(i, i + a.len() + b.len()) == a + b,
    ensures
        t.subrange(i, i + a.len()) == a,
        t.subrange(i + a.len(), i + a.len() + b.len()) == b,
{
    assert forall|k: int| 0 <= k < a.len() implies t.subrange(i, i + a.len())[k] == a[k] by {
        assert(t.subrange(i, i + a.len() + b.len())[k] == (a + b)[k]);
    }
    assert(t.subrange(i, i + a.len()) =~= a);
    assert forall|k: int|
        0 <= k < b.len() implies t.subrange(i + a.len(), i + a.len() + b.len())[k] == b[k] by {
        assert(t.subrange(i, i + a.len() + b.len())[a.len() + k] == (a + b)[a.len() + k]);
        assert(t.subrange(i, i + a.len() + b.len())[a.len() + k] == t[i + a.len() + k]);
        assert((a + b)[a.len() + k] == b[k]);
        assert(t.subrange(i + a.len(), i + a.len() + b.len())[k] == t[i + a.len() + k]);
    }
    assert(t.subrange(i + a.len(), i + a.len() + b.len()) =~= b);
}

/// Scanning an escaped text followed by a quote undoes the escaping.
proof fn lemma_scan_string_round(s: Seq<char>, t: Seq<char>, i: int)
    requires
        0 <= i,
        i + escape(s).len() + 1 <= t.len(),
        t.subrange(i, i + escape(s).len() + 1) == escape(s) + seq!['"'],
    ensures
        scan_string(t, i) == Some((s, i + escape(s).len() + 1)),
    decreases s.len(),
{
    let e = escape(s);
    if s.len() == 0 {
        assert(t.subrange(i, i + 1)[0] == (e + seq!['"'])[0]);
        assert(t[i] == '"');
    } else {
        let c = s[0];
        let e1 = escape(s.skip(1));
        assert(e == esc_char(c) + e1);
        assert(e + seq!['"'] =~= esc_char(c) + (e1 + seq!['"']));
        lemma_subrange_split(t, i, esc_char(c), e1 + seq!['"']);
        if c == '"' || c == '\\' {
            assert(esc_char(c) == seq!['\\', c]);
            assert(t.subrange(i, i + 2)[0] == '\\');
            assert(t.subrange(i, i + 2)[1] == c);
            assert(t[i] == '\\' && t[i + 1] == c);
            lemma_scan_string_round(s.skip(1), t, i + 2);
            assert(seq![t[i + 1]] + s.skip(1) =~= s);
        } else {
            assert(esc_char(c) == seq![c]);
            assert(t.subrange(i, i + 1)[0] == c);
            assert(t[i] == c);
            lemma_scan_string_round(s.skip(1), t, i + 1);
            assert(seq![t[i]] + s.skip(1) =~= s);
        }
    }
}

/// The digits of a number are digit characters, at least one of them,
/// and they denote the number again.
proof fn lemma_digits_props(n: nat)
    ensures
        digits(n).len() >= 1,
        forall|k: int| 0 <= k < digits(n).len() ==> is_digit(#[trigger] digits(n)[k]),
        num_val(digits(n)) == n,
    decreases n,
{
    if n < 10 {
        assert(digits(n) == seq![digit_char(n as int)]);
        assert(digits(n).len() == 1);
        assert(digits(n).drop_last() =~= Seq::<char>::empty());
        assert(digits(n).last() == digit_char(n as int));
        assert(num_val(Seq::<char>::empty()) == 0);
        assert(num_val(digits(n)) == num_val(digits(n).drop_last()) * 10 + digit_val(
            digits(n).last(),
        ));
        assert(digit_val(digit_char(n as int)) == n);
    } else {
        lemma_digits_props(n / 10);
        vstd::arithmetic::div_mod::lemma_fundamental_div_mod(n as int, 10);
        let d = digits(n / 10);
        let c = digit_char((n % 10) as int);
        assert(digits(n) == d.push(c));
        assert(digits(n).drop_last() =~= d);
        assert(digits(n).last() == c);
        assert(digit_val(c) == n % 10);
        assert(num_val(digits(n)) == num_val(d) * 10 + digit_val(c));
        assert(forall|k: int| 0 <= k < d.len() ==> is_digit(#[trigger] d.push(c)[k]));
        assert(is_digit(d.push(c)[d.len() as int]));
    }
}

/// A run of digits bounded by a non-digit ends exactly at that bound.
proof fn lemma_digit_run_terminated(t: Seq<char>, i: int, j: int)
    requires
        0 <= i <= j <= t.len(),
        forall|k: int| i <= k < j ==> is_digit(t[k]),
        j == t.len() || !is_digit(t[j]),
    ensures
        digit_run_end(t, i) == j,
    decreases j - i,
{
    if i < j {
        assert(is_digit(t[i]));
        lemma_digit_run_terminated(t, i + 1, j);
    }
}

/// Scanning the digits of a number followed by a non-digit gives the
/// number back.
proof fn lemma_scan_number_round(n: nat, t: Seq<char>, i: int)
    requires
        0 <= i,
        i + digits(n).len() < t.len(),
        t.subrange(i, i + digits(n).len()) == digits(n),
        !is_digit(t[i + digits(n).len()]),
    ensures
        scan_number(t, i) == Some((n as int, i + digits(n).len())),
{
    lemma_digits_props(n);
    let d = digits(n);
    let j = i + d.len();
    assert forall|k: int| i <= k < j implies is_digit(t[k]) by {
        assert(t.subrange(i, j)[k - i] == d[k - i]);
    }
    assert(is_digit(t[i]));
    lemma_digit_run_terminated(t, i, j);
    assert(num_val(t.subrange(i, j)) == n);
}

/// Parsing an encoded route gives the route back.
#[verifier::rlimit(100)]
proof fn lemma_parse_entry_round(r: RouteSpec, t: Seq<char>, i: int)
    requires
        0 <= i,
        i + enc_entry(r).len() <= t.len(),
        t.subrange(i, i + enc_entry(r).len()) == enc_entry(r),
    ensures
        parse_entry(t, i) == Some((r, i + enc_entry(r).len())),
{
    reveal_strlit("{\"method\": \"");
    reveal_strlit(", \"path\": \"");
    reveal_strlit(", \"status\": ");
    reveal_strlit(", \"delay_ms\": ");
    reveal_strlit(", \"response\": \"");
    reveal_strlit("}");
    let a1 = "{\"method\": \""@;
    let a2 = ", \"path\": \""@;
    let a3 = ", \"status\": "@;
    let a4 = ", \"delay_ms\": "@;
    let a5 = ", \"response\": \""@;
    let a6 = "}"@;
    let q = seq!['"'];
    let e1 = escape(r.method);
    let e2 = escape(r.path);
    let e3 = escape(r.response);
    let d1 = digits(r.status as nat);
    let d2 = digits(r.delay_ms as nat);
    let e = enc_entry(r);

    let rest1 = e1 + q + a2 + e2 + q + a3 + d1 + a4 + d2 + a5 + e3 + q + a6;
    assert(e =~= a1 + rest1);
    lemma_subrange_split(t, i, a1, rest1);
    assert(expect(t, i, a1) == Some(i + a1.len()));
    let j1 = i + a1.len();

    let rest2 = a2 + e2 + q + a3 + d1 + a4 + d2 + a5 + e3 + q + a6;
    assert(rest1 =~= (e1 + q) + rest2);
    lemma_subrange_split(t, j1, e1 + q, rest2);
    assert((e1 + q).len() == e1.len() + 1);
    lemma_scan_string_round(r.method, t, j1);
    let j2 = j1 + e1.len() + 1;
    assert(scan_string(t, j1) == Some((r.method, j2)));

    let rest3 = e2 + q + a3 + d1 + a4 + d2 + a5 + e3 + q + a6;
    assert(rest2 =~= a2 + rest3);
    lemma_subrange_split(t, j2, a2, rest3);
    assert(expect(t, j2, a2) == Some(j2 + a2.len()));
    let j3 = j2 + a2.len();

    let rest4 = a3 + d1 + a4 + d2 + a5 + e3 + q + a6;
    assert(rest3 =~= (e2 + q) + rest4);
    lemma_subrange_split(t, j3, e2 + q, rest4);
    lemma_scan_string_round(r.path, t, j3);
    let j4 = j3 + e2.len() + 1;
    assert(scan_string(t, j3) == Some((r.path, j4)));

    let rest5 = d1 + a4 + d2 + a5 + e3 + q + a6;
    assert(rest4 =~= a3 + rest5);
    lemma_subrange_split(t, j4, a3, rest5);
    assert(expect(t, j4, a3) == Some(j4 + a3.len()));
    let j5 = j4 + a3.len();

    let rest6 = a4 + d2 + a5 + e3 + q + a6;
    assert(rest5 =~= d1 + rest6);
    lemma_subrange_split(t, j5, d1, rest6);
    let j6 = j5 + d1.len();
    assert(t[j6] == ',') by {
        assert(t.subrange(j6, j6 + rest6.len())[0] == rest6[0]);
        assert(rest6[0] == a4[0]);
    }
    lemma_scan_number_round(r.status as nat, t, j5);
    assert(scan_number(t, j5) == Some((r.status as int, j6)));

    let rest7 = d2 + a5 + e3 + q + a6;
    assert(rest6 =~= a4 + rest7);
    lemma_subrange_split(t, j6, a4, rest7);
    assert(expect(t, j6, a4) == Some(j6 + a4.len()));
    let j7 = j6 + a4.len();

    let rest8 = a5 + e3 + q + a6;
    assert(rest7 =~= d2 + rest8);
    lemma_subrange_split(t, j7, d2, rest8);
    let j8 = j7 + d2.len();
    assert(t[j8] == ',') by {
        assert(t.subrange(j8, j8 + rest8.len())[0] == rest8[0]);
        assert(rest8[0] == a5[0]);
    }
    lemma_scan_number_round(r.delay_ms as nat, t, j7);
    assert(scan_number(t, j7) == Some((r.delay_ms as int, j8)));

    let rest9 = e3 + q + a6;
    assert(rest8 =~= a5 + rest9);
    lemma_subrange_split(t, j8, a5, rest9);
    assert(expect(t, j8, a5) == Some(j8 + a5.len()));
    let j9 = j8 + a5.len();

    assert(rest9 =~= (e3 + q) + a6);
    lemma_subrange_split(t, j9, e3 + q, a6);
    lemma_scan_string_round(r.response, t, j9);
    let j10 = j9 + e3.len() + 1;
    assert(scan_string(t, j9) == Some((r.response, j10)));

    assert(expect(t, j10, a6) == Some(j10 + a6.len()));
    let j11 = j10 + a6.len();
    assert(j11 == i + e.len());

    assert(parse_entry(t, i) == Some(
        (
            RouteSpec {
                method: r.method,
                path: r.path,
                status: (r.status as int) as u16,
                delay_ms: (r.delay_ms as int) as u64,
                response: r.response,
            },
            j11,
        ),
    ));
    assert(RouteSpec {
        method: r.method,
        path: r.path,
        status: (r.status as int) as u16,
        delay_ms: (r.delay_ms as int) as u64,
        response: r.response,
    } == r);
}

/// Parsing encoded routes followed by the closing bracket gives the
/// routes back.
proof fn lemma_parse_entries_round(s: Seq<RouteSpec>, t: Seq<char>, i: int)
    requires
        s.len() >= 1,
        0 <= i,
        i + enc_entries(s).len() + 2 <= t.len(),
        t.subrange(i, i + enc_entries(s).len() + 2) == enc_entries(s) + "\n]"@,
    ensures
        parse_entries(t, i) == Some((s, i + enc_entries(s).len() + 2)),
    decreases s.len(),
{
    reveal_strlit("{\"method\": \"");
    reveal_strlit(",\n");
    reveal_strlit("\n]");
    let tail = "\n]"@;
    let first = enc_entry(s[0]);
    assert(first.len() >= 12) by {
        assert(first.len() >= "{\"method\": \""@.len());
    }
    if s.len() == 1 {
        assert(enc_entries(s) == first);
        lemma_subrange_split(t, i, first, tail);
        lemma_parse_entry_round(s[0], t, i);
        let j = i + first.len();
        assert(parse_entry(t, i) == Some((s[0], j)));
        assert(i < j <= t.len());
        assert(expect(t, j, ",\n"@) is None) by {
            if expect(t, j, ",\n"@) is Some {
                assert(t.subrange(j, j + 2) == ",\n"@);
                assert(",\n"@[0] == tail[0]);
            }
        }
        assert(expect(t, j, tail) == Some(j + 2));
        assert(seq![s[0]] =~= s);
    } else {
        let rest = enc_entries(s.skip(1));
        assert(enc_entries(s) == first + ",\n"@ + rest);
        assert(enc_entries(s) + tail =~= first + ((",\n"@ + rest) + tail));
        lemma_subrange_split(t, i, first, (",\n"@ + rest) + tail);
        lemma_parse_entry_round(s[0], t, i);
        let j = i + first.len();
        assert(parse_entry(t, i) == Some((s[0], j)));
        assert(i < j <= t.len());
        assert((",\n"@ + rest) + tail =~= ",\n"@ + (rest + tail));
        lemma_subrange_split(t, j, ",\n"@, rest + tail);
        assert(expect(t, j, ",\n"@) == Some(j + 2));
        let j2 = j + 2;
        assert(t.subrange(j2, j2 + rest.len() + 2) == rest + tail);
        lemma_parse_entries_round(s.skip(1), t, j2);
        assert(parse_entries(t, j2) == Some((s.skip(1), j2 + rest.len() + 2)));
        assert(seq![s[0]] + s.skip(1) =~= s);
        assert(j2 + rest.len() + 2 == i + enc_entries(s).len() + 2);
    }
}

/// Round-trip persistence: the document written for a route list parses
/// back to exactly that list, whatever the routes hold.
pub proof fn lemma_encode_parse_round_trip(s: Seq<RouteSpec>)
    ensures
        spec_parse_routes(spec_encode_routes(s)) == Some(s),
{
    reveal_strlit("[]");
    reveal_strlit("[\n");
    reveal_strlit("\n]");
    let t = spec_encode_routes(s);
    if s.len() == 0 {
        assert(t == "[]"@);
        assert(Seq::<RouteSpec>::empty() =~= s);
    } else {
        let body = enc_entries(s);
        assert(t == "[\n"@ + body + "\n]"@);
        assert(t.len() == body.len() + 4);
        assert(t != "[]"@) by {
            if t == "[]"@ {
                assert(t.len() == 2);
            }
        }
        assert(t =~= "[\n"@ + (body + "\n]"@));
        assert(t.subrange(0, t.len() as int) =~= t);
        lemma_subrange_split(t, 0, "[\n"@, body + "\n]"@);
        assert(expect(t, 0, "[\n"@) == Some(2int));
        lemma_parse_entries_round(s, t, 2);
        assert(parse_entries(t, 2) == Some((s, t.len() as int)));
    }
}

/// Writes the route document for a list of routes.
pub fn encode_routes(routes: &Vec<RouteConfig>) -> (r: String)
    ensures
        r@ == spec_encode_routes(routes@.map(|k: int, c: RouteConfig| c@)),
{
    let ghost rs = routes@.map(|k: int, c: RouteConfig| c@);
    let mut out: Vec<char> = Vec::new();
    if routes.len() == 0 {
        push_lit(&mut out, "[]");
        proof {
            assert(out@ =~= "[]"@);
        }
    } else {
        push_lit(&mut out, "[\n");
        push_entries(&mut out, routes, 0);
        push_lit(&mut out, "\n]");
        proof {
            assert(rs.skip(0) =~= rs);
            assert(out@ =~= spec_encode_routes(rs));
        }
    }
    string_of(&out)
}

} // verus!
