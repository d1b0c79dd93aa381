use vstd::prelude::*;

use crate::cnf::{Clause, Cnf, LiteralTpl, Var};

verus! {

/// Whitespace that separates tokens within a line.
pub open spec fn is_token_ws(c: char) -> bool {
    c == ' ' || c == '\t' || c == '\r' || c == '\u{000c}'
}

/// Decimal digit.
pub open spec fn is_digit(c: char) -> bool {
    48 <= c as u32 && c as u32 <= 57
}

/// Numeric value of a decimal digit.
pub open spec fn digit_val(c: char) -> int {
    c as u32 - 48
}

/// Every character of the sequence is a decimal digit.
pub open spec fn all_digits(ds: Seq<char>) -> bool {
    forall|k: int| 0 <= k < ds.len() ==> is_digit(#[trigger] ds[k])
}

/// The number denoted by a sequence of decimal digits, most significant
/// first.
pub open spec fn digits_val(ds: Seq<char>) -> int
    decreases ds.len(),
{
    if ds.len() == 0 {
        0
    } else {
        digits_val(ds.drop_last()) * 10 + digit_val(ds.last())
    }
}

/// The literal denoted by one token: an optional sign, then decimal digits.
/// `None` for anything else, for the value 0, and for a value beyond the
/// variable range.
pub open spec fn spec_token(t: Seq<char>) -> Option<LiteralTpl> {
    if t.len() == 0 {
        None
    } else {
        let neg = t[0] == '-';
        let signed = t[0] == '-' || t[0] == '+';
        let ds = if signed {
            t.subrange(1, t.len() as int)
        } else {
            t
        };
        if ds.len() == 0 || !all_digits(ds) {
            None
        } else {
            let v = digits_val(ds);
            if v == 0 || v > u32::MAX {
                None
            } else {
                Some((v as Var, !neg))
            }
        }
    }
}

/// Index of the first line break at or after `i`, or the text's length when
/// there is none.
pub open spec fn line_end(s: Seq<char>, i: int) -> int
    decreases s.len() - i,
{
    if i < 0 || i >= s.len() {
        s.len() as int
    } else if s[i] == '\n' {
        i
    } else {
        line_end(s, i + 1)
    }
}

/// Index of the first non-whitespace character at or after `i`, or the
/// line's length.
pub open spec fn tok_start(t: Seq<char>, i: int) -> int
    decreases t.len() - i,
{
    if i < 0 || i >= t.len() {
        t.len() as int
    } else if is_token_ws(t[i]) {
        tok_start(t, i + 1)
    } else {
        i
    }
}

/// Index of the first whitespace character at or after `i`, or the line's
/// length.
pub open spec fn tok_end(t: Seq<char>, i: int) -> int
    decreases t.len() - i,
{
    if i < 0 || i >= t.len() {
        t.len() as int
    } else if is_token_ws(t[i]) {
        i
    } else {
        tok_end(t, i + 1)
    }
}

/// `line_end` stays between `i` and the length.
pub proof fn lemma_line_end_bounds(s: Seq<char>, i: int)
    requires
        0 <= i <= s.len(),
    ensures
        i <= line_end(s, i) <= s.len(),
    decreases s.len() - i,
{
    if i < s.len() && s[i] != '\n' {
        lemma_line_end_bounds(s, i + 1);
    }
}

/// `tok_start` stays between `i` and the length, and lands on a
/// non-whitespace character when it is not the length.
pub proof fn lemma_tok_start_bounds(t: Seq<char>, i: int)
    requires
        0 <= i <= t.len(),
    ensures
        i <= tok_start(t, i) <= t.len(),
        tok_start(t, i) < t.len() ==> !is_token_ws(t[tok_start(t, i)]),
    decreases t.len() - i,
{
    if i < t.len() && is_token_ws(t[i]) {
        lemma_tok_start_bounds(t, i + 1);
    }
}

/// `tok_end` stays between `i` and the length.
pub proof fn lemma_tok_end_bounds(t: Seq<char>, i: int)
    requires
        0 <= i <= t.len(),
    ensures
        i <= tok_end(t, i) <= t.len(),
    decreases t.len() - i,
{
    if i < t.len() && !is_token_ws(t[i]) {
        lemma_tok_end_bounds(t, i + 1);
    }
}

/// The line's tokens from position `i` on: the maximal runs of
/// non-whitespace characters.
pub open spec fn toks_from(t: Seq<char>, i: int) -> Seq<Seq<char>>
    decreases t.len() - i,
    via toks_from_dec
{
    if i < 0 {
        Seq::empty()
    } else {
        let a = tok_start(t, i);
        if a >= t.len() {
            Seq::empty()
        } else {
            let b = tok_end(t, a);
            seq![t.subrange(a, b)] + toks_from(t, b)
        }
    }
}

#[via_fn]
proof fn toks_from_dec(t: Seq<char>, i: int) {
    if i >= 0 {
        if i <= t.len() {
            lemma_tok_start_bounds(t, i);
            let a = tok_start(t, i);
            if a < t.len() {
                lemma_tok_end_bounds(t, a + 1);
                assert(tok_end(t, a) == tok_end(t, a + 1));
            }
        }
    }
}

/// The clause described by a token list, as its positive and negative
/// variable lists: tokens are taken in order, a repeated literal is dropped,
/// a contradictory literal refuses the clause, as does a malformed token.
pub open spec fn clause_from_toks(toks: Seq<Seq<char>>) -> Option<(Seq<Var>, Seq<Var>)>
    decreases toks.len(),
{
    if toks.len() == 0 {
        Some((Seq::empty(), Seq::empty()))
    } else {
        match clause_from_toks(toks.drop_last()) {
            None => None,
            Some((ps, ns)) => match spec_token(toks.last()) {
                None => None,
                Some((v, pol)) => if pol {
                    if ps.contains(v) {
                        Some((ps, ns))
                    } else if ns.contains(v) {
                        None
                    } else {
                        Some((ps.push(v), ns))
                    }
                } else {
                    if ns.contains(v) {
                        Some((ps, ns))
                    } else if ps.contains(v) {
                        None
                    } else {
                        Some((ps, ns.push(v)))
                    }
                },
            },
        }
    }
}

/// The meaning of one line: `Some(None)` for a blank line, `Some(Some(..))`
/// for a clause (the single token `false` denotes the empty clause), `None`
/// for a malformed line.
pub open spec fn spec_parse_line(t: Seq<char>) -> Option<Option<(Seq<Var>, Seq<Var>)>> {
    let toks = toks_from(t, 0);
    if toks.len() == 0 {
        Some(None)
    } else if toks.len() == 1 && toks[0] == seq!['f', 'a', 'l', 's', 'e'] {
        Some(Some((Seq::empty(), Seq::empty())))
    } else {
        match clause_from_toks(toks) {
            None => None,
            Some(c) => Some(Some(c)),
        }
    }
}

/// The formula described by the text from position `i` on, one clause per
/// line; `None` when some line is malformed.
pub open spec fn spec_parse_from(s: Seq<char>, i: int) -> Option<Seq<(Seq<Var>, Seq<Var>)>>
    decreases s.len() - i,
    via spec_parse_from_dec
{
    if i < 0 || i >= s.len() {
        Some(Seq::empty())
    } else {
        let e = line_end(s, i);
        let head = spec_parse_line(s.subrange(i, e));
        let rest = if e >= s.len() {
            Some(Seq::<(Seq<Var>, Seq<Var>)>::empty())
        } else {
            spec_parse_from(s, e + 1)
        };
        match (head, rest) {
            (None, _) => None,
            (_, None) => None,
            (Some(None), Some(r)) => Some(r),
            (Some(Some(c)), Some(r)) => Some(seq![c] + r),
        }
    }
}

#[via_fn]
proof fn spec_parse_from_dec(s: Seq<char>, i: int) {
    if 0 <= i < s.len() {
        lemma_line_end_bounds(s, i);
    }
}

/// The whole text's formula.
pub open spec fn spec_parse(s: Seq<char>) -> Option<Seq<(Seq<Var>, Seq<Var>)>> {
    spec_parse_from(s, 0)
}

/// The positive and negative variable lists of each clause, in order.
pub open spec fn clauses_pairs(cs: Seq<Clause>) -> Seq<(Seq<Var>, Seq<Var>)> {
    cs.map_values(|c: Clause| (c.pos(), c.neg()))
}

/// A clause refused by some prefix of its tokens is refused by the whole
/// list.
proof fn lemma_clause_from_toks_prefix_none(toks: Seq<Seq<char>>, j: int)
    requires
        0 <= j <= toks.len(),
        clause_from_toks(toks.take(j)) is None,
    ensures
        clause_from_toks(toks) is None,
    decreases toks.len() - j,
{
    if j < toks.len() {
        assert(toks.take(j + 1).drop_last() =~= toks.take(j));
        lemma_clause_from_toks_prefix_none(toks, j + 1);
    } else {
        assert(toks.take(j) =~= toks);
    }
}

/// The characters of the text, as a vector.
fn chars_of(input: &str) -> (r: Vec<char>)
    ensures
        r@ == input@,
{
    let n = input.unicode_len();
    let mut r: Vec<char> = Vec::new();
    let mut i: usize = 0;
    while i < n
        invariant
            n == input@.len(),
            i <= n,
            r@.len() == i,
            forall|k: int| 0 <= k < i ==> r@[k] == input@[k],
        decreases n - i,
    {
        r.push(input.get_char(i));
        i += 1;
    }
    assert(r@ =~= input@);
    r
}

/// First line break at or after `i`.
fn scan_line_end(chars: &Vec<char>, i: usize) -> (e: usize)
    requires
        i <= chars@.len(),
    ensures
        e == line_end(chars@, i as int),
        i <= e <= chars@.len(),
{
    let mut j = i;
    while j < chars.len()
        invariant
            i <= j <= chars@.len(),
            line_end(chars@, i as int) == line_end(chars@, j as int),
        decreases chars@.len() - j,
    {
        if chars[j] == '\n' {
            return j;
        }
        j += 1;
    }
    j
}

/// First non-whitespace character at or after `i`.
fn scan_tok_start(line: &Vec<char>, i: usize) -> (a: usize)
    requires
        i <= line@.len(),
    ensures
        a == tok_start(line@, i as int),
        i <= a <= line@.len(),
{
    let mut j = i;
    while j < line.len()
        invariant
            i <= j <= line@.len(),
            tok_start(line@, i as int) == tok_start(line@, j as int),
        decreases line@.len() - j,
    {
        let c = line[j];
        if !(c == ' ' || c == '\t' || c == '\r' || c == '\u{000c}') {
            return j;
        }
        j += 1;
    }
    j
}

/// First whitespace character at or after `i`.
fn scan_tok_end(line: &Vec<char>, i: usize) -> (b: usize)
    requires
        i <= line@.len(),
    ensures
        b == tok_end(line@, i as int),
        i <= b <= line@.len(),
{
    let mut j = i;
    while j < line.len()
        invariant
            i <= j <= line@.len(),
            tok_end(line@, i as int) == tok_end(line@, j as int),
        decreases line@.len() - j,
    {
        let c = line[j];
        if c == ' ' || c == '\t' || c == '\r' || c == '\u{000c}' {
            return j;
        }
        j += 1;
    }
    j
}

/// The characters of `chars` between `from` and `to`.
fn copy_range(chars: &Vec<char>, from: usize, to: usize) -> (r: Vec<char>)
    requires
        from <= to <= chars@.len(),
    ensures
        r@ == chars@.subrange(from as int, to as int),
{
    let mut r: Vec<char> = Vec::new();
    let mut i = from;
    while i < to
        invariant
            from <= i <= to <= chars@.len(),
            r@.len() == i - from,
            forall|k: int| 0 <= k < i - from ==> r@[k] == chars@[from + k],
        decreases to - i,
    {
        r.push(chars[i]);
        i += 1;
    }
    assert(r@ =~= chars@.subrange(from as int, to as int));
    r
}

/// Parses one token as a literal.
#[verifier::loop_isolation(false)]
fn parse_token(line: &Vec<char>, a: usize, b: usize) -> (r: Option<LiteralTpl>)
    requires
        a < b <= line@.len(),
    ensures
        r == spec_token(line@.subrange(a as int, b as int)),
        match r {
            Some(l) => l.0 >= 1,
            None => true,
        },
{
    let ghost t = line@.subrange(a as int, b as int);
    let c0 = line[a];
    let neg = c0 == '-';
    let signed = c0 == '-' || c0 == '+';
    let p: usize = if signed {
        a + 1
    } else {
        a
    };
    let ghost ds = if signed {
        t.subrange(1, t.len() as int)
    } else {
        t
    };
    proof {
        assert(ds =~= line@.subrange(p as int, b as int));
    }
    if p >= b {
        assert(ds.len() == 0);
        return None;
    }
    let mut acc: u32 = 0;
    let mut too_big = false;
    let mut q = p;
    while q < b
        invariant
            p <= q <= b <= line@.len(),
            ds == line@.subrange(p as int, b as int),
            all_digits(line@.subrange(p as int, q as int)),
            !too_big ==> acc == digits_val(line@.subrange(p as int, q as int)),
            too_big ==> digits_val(line@.subrange(p as int, q as int)) > u32::MAX,
        decreases b - q,
    {
        let c = line[q];
        let cv = c as u32;
        if cv < 48 || cv > 57 {
            proof {
                assert(ds[q - p] == line@[q as int]);
                assert(!is_digit(ds[q - p]));
            }
            return None;
        }
        let d = cv - 48;
        proof {
            assert(line@.subrange(p as int, q + 1).drop_last() =~= line@.subrange(
                p as int,
                q as int,
            ));
            assert(line@.subrange(p as int, q + 1).last() == line@[q as int]);
        }
        if too_big {
            proof {
                assert(digits_val(line@.subrange(p as int, q + 1)) > u32::MAX);
            }
        } else if acc > (u32::MAX - d) / 10 {
            proof {
                assert(acc * 10 + d > u32::MAX) by (nonlinear_arith)
                    requires
                        acc > (u32::MAX - d) / 10,
                        d <= 9,
                        acc <= u32::MAX,
                {}
            }
            too_big = true;
        } else {
            proof {
                assert(acc * 10 + d <= u32::MAX) by (nonlinear_arith)
                    requires
                        acc <= (u32::MAX - d) / 10,
                        d <= 9,
                {}
            }
            acc = acc * 10 + d;
        }
        q += 1;
    }
    proof {
        assert(line@.subrange(p as int, b as int) == ds);
        assert(all_digits(ds));
    }
    if too_big {
        return None;
    }
    if acc == 0 {
        return None;
    }
    Some((acc, !neg))
}

/// Parses one line: `Some(None)` for a blank line, `Some(Some(..))` for a
/// clause, `None` for a malformed line.
#[verifier::loop_isolation(false)]
fn parse_line(line: &Vec<char>) -> (r: Option<Option<Clause>>)
    ensures
        match r {
            None => spec_parse_line(line@) is None,
            Some(None) => spec_parse_line(line@) == Some(None::<(Seq<Var>, Seq<Var>)>),
            Some(Some(c)) => spec_parse_line(line@) == Some(Some((c.pos(), c.neg()))) && c.wf(),
        },
{
    let ghost toks = toks_from(line@, 0);
    let a0 = scan_tok_start(line, 0);
    if a0 >= line.len() {
        assert(toks.len() == 0);
        return Some(None);
    }
    let b0 = scan_tok_end(line, a0);
    proof {
        lemma_tok_start_bounds(line@, 0);
        lemma_tok_end_bounds(line@, a0 as int);
        assert(tok_end(line@, a0 as int) == tok_end(line@, a0 + 1));
        lemma_tok_end_bounds(line@, a0 + 1);
        assert(toks == seq![line@.subrange(a0 as int, b0 as int)] + toks_from(line@, b0 as int));
    }
    // the single token `false` denotes the empty clause
    if b0 - a0 == 5 && scan_tok_start(line, b0) >= line.len() {
        if line[a0] == 'f' && line[a0 + 1] == 'a' && line[a0 + 2] == 'l' && line[a0 + 3] == 's'
            && line[a0 + 4] == 'e' {
            proof {
                assert(toks_from(line@, b0 as int).len() == 0);
                assert(toks.len() == 1);
                assert(toks[0] =~= seq!['f', 'a', 'l', 's', 'e']);
            }
            return Some(Some(Clause::new()));
        }
    }
    proof {
        if toks.len() == 1 && toks[0] == seq!['f', 'a', 'l', 's', 'e'] {
            assert(toks_from(line@, b0 as int).len() == 0);
            assert(tok_start(line@, b0 as int) >= line@.len()) by {
                if tok_start(line@, b0 as int) < line@.len() {
                    assert(toks_from(line@, b0 as int).len() >= 1);
                }
            }
            assert(line@.subrange(a0 as int, b0 as int) == toks[0]);
            assert(b0 - a0 == 5);
            assert(line@[a0 as int] == toks[0][0] && toks[0][0] == 'f');
            assert(line@[a0 + 1] == toks[0][1] && toks[0][1] == 'a');
            assert(line@[a0 + 2] == toks[0][2] && toks[0][2] == 'l');
            assert(line@[a0 + 3] == toks[0][3] && toks[0][3] == 's');
            assert(line@[a0 + 4] == toks[0][4] && toks[0][4] == 'e');
            assert(false);
        }
    }
    // general case: every token is a signed variable
    let mut c = Clause::new();
    let mut p: usize = 0;
    let ghost mut k: int = 0;
    let mut a = scan_tok_start(line, 0);
    while a < line.len()
        invariant
            0 <= k <= toks.len(),
            p <= line@.len(),
            a == tok_start(line@, p as int),
            p <= a <= line@.len(),
            toks_from(line@, p as int) == toks.skip(k),
            clause_from_toks(toks.take(k)) == Some((c.pos(), c.neg())),
            c.wf(),
        decreases line@.len() - p,
    {
        let b = scan_tok_end(line, a);
        proof {
            lemma_tok_start_bounds(line@, p as int);
            lemma_tok_end_bounds(line@, a as int);
            assert(tok_end(line@, a as int) == tok_end(line@, a + 1));
            lemma_tok_end_bounds(line@, a + 1);
            assert(toks_from(line@, p as int) == seq![line@.subrange(a as int, b as int)]
                + toks_from(line@, b as int));
            assert(toks.skip(k)[0] == line@.subrange(a as int, b as int));
            assert(toks[k] == line@.subrange(a as int, b as int));
            assert(toks.skip(k).drop_first() =~= toks.skip(k + 1));
            assert(toks_from(line@, b as int) =~= toks.skip(k + 1));
            assert(toks.take(k + 1).drop_last() =~= toks.take(k));
            assert(toks.take(k + 1).last() == toks[k]);
        }
        match parse_token(line, a, b) {
            None => {
                proof {
                    assert(clause_from_toks(toks.take(k + 1)) is None);
                    lemma_clause_from_toks_prefix_none(toks, k + 1);
                }
                return None;
            },
            Some((v, pol)) => {
                match c.get(v) {
                    None => {
                        if pol {
                            c.add_positive(v);
                        } else {
                            c.add_negative(v);
                        }
                    },
                    Some(was) => {
                        if was != pol {
                            proof {
                                assert(clause_from_toks(toks.take(k + 1)) is None);
                                lemma_clause_from_toks_prefix_none(toks, k + 1);
                            }
                            return None;
                        }
                    },
                }
                proof {
                    assert(clause_from_toks(toks.take(k + 1)) == Some((c.pos(), c.neg())));
                }
            },
        }
        p = b;
        proof {
            k = k + 1;
        }
        a = scan_tok_start(line, p);
    }
    proof {
        assert(toks_from(line@, p as int).len() == 0);
        assert(toks.skip(k).len() == 0);
        assert(k == toks.len());
        assert(toks.take(k) =~= toks);
        assert(clause_from_toks(toks) == Some((c.pos(), c.neg())));
    }
    Some(Some(c))
}

/// Parses a whole text as a formula, one clause per line.
///
/// Each line holds whitespace-separated signed decimal variables, `1 2 -3`
/// standing for the clause with variables 1 and 2 positive and 3 negative.
/// The single token `false` denotes the empty clause; blank lines are
/// skipped. `None` when some line is malformed: a token that is not a
/// nonzero signed number in variable range, or a variable repeated with
/// both polarities in one clause.
#[verifier::loop_isolation(false)]
pub fn parse_cnf_from_str(input: &str) -> (r: Option<Cnf>)
    ensures
        match r {
            None => spec_parse(input@) is None,
            Some(cnf) => spec_parse(input@) == Some(clauses_pairs(cnf.clauses@)) && cnf.wf(),
        },
{
    let chars = chars_of(input);
    let n = chars.len();
    let mut clauses: Vec<Clause> = Vec::new();
    let mut i: usize = 0;
    while i < n
        invariant
            n == chars@.len(),
            i <= n,
            spec_parse_from(chars@, 0) == (match spec_parse_from(chars@, i as int) {
                None => None::<Seq<(Seq<Var>, Seq<Var>)>>,
                Some(rest) => Some(clauses_pairs(clauses@) + rest),
            }),
            forall|j: int| 0 <= j < clauses@.len() ==> (#[trigger] clauses@[j]).wf(),
        decreases n - i,
    {
        let e = scan_line_end(&chars, i);
        let line = copy_range(&chars, i, e);
        let ghost rest = if e >= n {
            Some(Seq::<(Seq<Var>, Seq<Var>)>::empty())
        } else {
            spec_parse_from(chars@, e + 1)
        };
        let ghost pre = clauses_pairs(clauses@);
        match parse_line(&line) {
            None => {
                proof {
                    assert(spec_parse_from(chars@, i as int) is None);
                }
                return None;
            },
            Some(None) => {},
            Some(Some(c)) => {
                let ghost cp = (c.pos(), c.neg());
                proof {
                    assert(clauses_pairs(clauses@.push(c)) =~= pre.push(cp));
                    match rest {
                        Some(rr) => {
                            assert(spec_parse_from(chars@, i as int) == Some(seq![cp] + rr));
                            assert(pre + (seq![cp] + rr) =~= pre.push(cp) + rr);
                        },
                        None => {
                            assert(spec_parse_from(chars@, i as int) is None);
                        },
                    }
                }
                clauses.push(c);
            },
        }
        if e >= n {
            i = n;
        } else {
            i = e + 1;
        }
        proof {
            assert(spec_parse_from(chars@, n as int) == Some(Seq::<(Seq<Var>, Seq<Var>)>::empty()));
            match rest {
                Some(rr) => {
                    assert(spec_parse_from(chars@, i as int) == Some(rr));
                },
                None => {},
            }
        }
    }
    proof {
        assert(spec_parse_from(chars@, n as int) == Some(Seq::<(Seq<Var>, Seq<Var>)>::empty()));
        assert(clauses_pairs(clauses@) + Seq::<(Seq<Var>, Seq<Var>)>::empty() =~= clauses_pairs(
            clauses@,
        ));
    }
    Some(Cnf { clauses })
}

/// The decimal digits of a nonnegative number, most significant first.
pub open spec fn dec_digits(n: int) -> Seq<char>
    decreases n,
{
    if n <= 9 {
        seq![((48 + (if n >= 0 { n } else { 0 })) as u8) as char]
    } else {
        dec_digits(n / 10).push(((48 + n % 10) as u8) as char)
    }
}

/// The text of one literal: the variable in decimal, prefixed with `-` for
/// a negative literal.
pub open spec fn print_token(v: Var, pol: bool) -> Seq<char> {
    if pol {
        dec_digits(v as int)
    } else {
        seq!['-'] + dec_digits(v as int)
    }
}

/// The token texts of a clause: positive literals first, then negative
/// ones, as the clause stores them.
pub open spec fn clause_tokens(ps: Seq<Var>, ns: Seq<Var>) -> Seq<Seq<char>> {
    ps.map_values(|v: Var| print_token(v, true)) + ns.map_values(|v: Var| print_token(v, false))
}

/// Tokens joined by single spaces.
pub open spec fn join_tokens(tokens: Seq<Seq<char>>) -> Seq<char>
    decreases tokens.len(),
{
    if tokens.len() == 0 {
        Seq::empty()
    } else if tokens.len() == 1 {
        tokens[0]
    } else {
        join_tokens(tokens.drop_last()) + seq![' '] + tokens.last()
    }
}

/// The text of one clause: its literals separated by spaces, or the word
/// `false` for the empty clause.
pub open spec fn print_clause(ps: Seq<Var>, ns: Seq<Var>) -> Seq<char> {
    if ps.len() == 0 && ns.len() == 0 {
        seq!['f', 'a', 'l', 's', 'e']
    } else {
        join_tokens(clause_tokens(ps, ns))
    }
}

/// The text of a formula: one clause per line, each line ended by a line
/// break.
pub open spec fn print_cnf(cs: Seq<(Seq<Var>, Seq<Var>)>) -> Seq<char>
    decreases cs.len(),
{
    if cs.len() == 0 {
        Seq::empty()
    } else {
        print_clause(cs[0].0, cs[0].1) + seq!['\n'] + print_cnf(cs.subrange(1, cs.len() as int))
    }
}

/// Appends the decimal digits of the number.
fn append_u32(n: u32, out: &mut String)
    ensures
        final(out)@ == old(out)@ + dec_digits(n as int),
    decreases n,
{
    if n >= 10 {
        append_u32(n / 10, out);
    }
    let d = n % 10;
    proof {
        if n >= 10 {
            assert(dec_digits(n as int) == dec_digits(n as int / 10).push(
                ((48 + n as int % 10) as u8) as char,
            ));
        }
    }
    match d {
        0 => {
            proof {
                reveal_strlit("0");
            }
            out.append("0");
        },
        1 => {
            proof {
                reveal_strlit("1");
            }
            out.append("1");
        },
        2 => {
            proof {
                reveal_strlit("2");
            }
            out.append("2");
        },
        3 => {
            proof {
                reveal_strlit("3");
            }
            out.append("3");
        },
        4 => {
            proof {
                reveal_strlit("4");
            }
            out.append("4");
        },
        5 => {
            proof {
                reveal_strlit("5");
            }
            out.append("5");
        },
        6 => {
            proof {
                reveal_strlit("6");
            }
            out.append("6");
        },
        7 => {
            proof {
                reveal_strlit("7");
            }
            out.append("7");
        },
        8 => {
            proof {
                reveal_strlit("8");
            }
            out.append("8");
        },
        _ => {
            proof {
                reveal_strlit("9");
                assert(d == 9);
            }
            out.append("9");
        },
    }
    proof {
        assert(final(out)@ =~= old(out)@ + dec_digits(n as int));
    }
}

/// Renders a formula in the clause-per-line text format that
/// [`parse_cnf_from_str`] reads back: each clause's literals as signed
/// decimal variables separated by spaces, the empty clause as `false`, one
/// line per clause.
pub fn print_cnf_to_str(cnf: &Cnf) -> (r: String)
    ensures
        r@ == print_cnf(clauses_pairs(cnf.clauses@)),
{
    let ghost cs = clauses_pairs(cnf.clauses@);
    let mut out = String::new();
    proof {
        assert(cs.subrange(0, cs.len() as int) =~= cs);
        assert(Seq::<char>::empty() + print_cnf(cs) =~= print_cnf(cs));
    }
    let mut i: usize = 0;
    while i < cnf.clauses.len()
        invariant
            i <= cnf.clauses@.len(),
            cs == clauses_pairs(cnf.clauses@),
            out@ + print_cnf(cs.subrange(i as int, cs.len() as int)) == print_cnf(cs),
        decreases cnf.clauses@.len() - i,
    {
        let cls = &cnf.clauses[i];
        let ghost line = print_clause(cs[i as int].0, cs[i as int].1);
        if cls.is_empty() {
            proof {
                reveal_strlit("false");
                assert(cls.pos().len() == 0 && cls.neg().len() == 0);
                assert("false"@ =~= line);
            }
            out.append("false");
        } else {
            let ghost toks = clause_tokens(cs[i as int].0, cs[i as int].1);
            let ghost start = out@;
            let mut first = true;
            let positives = cls.positives();
            let mut j: usize = 0;
            while j < positives.len()
                invariant
                    positives@ == cls.pos(),
                    toks == clause_tokens(cls.pos(), cls.neg()),
                    j <= positives@.len(),
                    first == (j == 0),
                    out@ == start + join_tokens(toks.take(j as int)),
                decreases positives@.len() - j,
            {
                if !first {
                    proof {
                        reveal_strlit(" ");
                    }
                    out.append(" ");
                }
                append_u32(positives[j], &mut out);
                proof {
                    assert(toks[j as int] == print_token(cls.pos()[j as int], true));
                    assert(toks.take(j + 1).drop_last() =~= toks.take(j as int));
                    assert(toks.take(j + 1).last() == toks[j as int]);
                    if j == 0 {
                        assert(join_tokens(toks.take(1)) == toks[0]);
                        assert(out@ =~= start + join_tokens(toks.take(1)));
                    } else {
                        assert(out@ =~= start + (join_tokens(toks.take(j as int)) + seq![' ']
                            + toks[j as int]));
                    }
                }
                first = false;
                j += 1;
            }
            let negatives = cls.negatives();
            let mut j: usize = 0;
            while j < negatives.len()
                invariant
                    negatives@ == cls.neg(),
                    toks == clause_tokens(cls.pos(), cls.neg()),
                    j <= negatives@.len(),
                    first == (cls.pos().len() == 0 && j == 0),
                    out@ == start + join_tokens(toks.take(cls.pos().len() + j)),
                decreases negatives@.len() - j,
            {
                let ghost k = cls.pos().len() + j;
                if !first {
                    proof {
                        reveal_strlit(" ");
                    }
                    out.append(" ");
                }
                proof {
                    reveal_strlit("-");
                }
                out.append("-");
                append_u32(negatives[j], &mut out);
                proof {
                    assert(toks[k as int] == print_token(cls.neg()[j as int], false));
                    assert(toks.take(k + 1).drop_last() =~= toks.take(k as int));
                    assert(toks.take(k + 1).last() == toks[k as int]);
                    if k == 0 {
                        assert(join_tokens(toks.take(1)) == toks[0]);
                        assert(out@ =~= start + join_tokens(toks.take(1)));
                    } else {
                        assert(out@ =~= start + (join_tokens(toks.take(k as int)) + seq![' ']
                            + (seq!['-'] + dec_digits(cls.neg()[j as int] as int))));
                    }
                }
                first = false;
                j += 1;
            }
            proof {
                assert(toks.take(toks.len() as int) =~= toks);
                assert(out@ == start + join_tokens(toks));
                assert(toks.len() > 0);
                assert(line == join_tokens(toks));
            }
        }
        proof {
            reveal_strlit("\n");
        }
        out.append("\n");
        proof {
            assert(cs.subrange(i as int, cs.len() as int).subrange(
                1,
                cs.len() - i,
            ) =~= cs.subrange(i + 1, cs.len() as int));
            assert(cs.subrange(i as int, cs.len() as int)[0] == cs[i as int]);
            assert(print_cnf(cs.subrange(i as int, cs.len() as int)) == line + seq!['\n']
                + print_cnf(cs.subrange(i + 1, cs.len() as int)));
            assert(out@ + print_cnf(cs.subrange(i + 1, cs.len() as int)) =~= print_cnf(cs));
        }
        i += 1;
    }
    proof {
        assert(cs.subrange(cs.len() as int, cs.len() as int) =~= Seq::<(Seq<Var>, Seq<Var>)>::empty());
        assert(out@ + Seq::<char>::empty() =~= out@);
    }
    out
}

/// Positive and negative variable lists that a well-formed clause can
/// carry: variables distinct, polarities disjoint, all at least 1.
pub open spec fn pair_ok(ps: Seq<Var>, ns: Seq<Var>) -> bool {
    &&& forall|a: int, b: int| 0 <= a < b < ps.len() ==> ps[a] != ps[b]
    &&& forall|a: int, b: int| 0 <= a < b < ns.len() ==> ns[a] != ns[b]
    &&& forall|a: int, b: int| 0 <= a < ps.len() && 0 <= b < ns.len() ==> ps[a] != ns[b]
    &&& forall|a: int| 0 <= a < ps.len() ==> ps[a] >= 1
    &&& forall|a: int| 0 <= a < ns.len() ==> ns[a] >= 1
}

/// The decimal rendering of a nonnegative number is a nonempty digit
/// string.
proof fn lemma_dec_digits_chars(n: int)
    requires
        n >= 0,
    ensures
        dec_digits(n).len() >= 1,
        forall|k: int| 0 <= k < dec_digits(n).len() ==> is_digit(#[trigger] dec_digits(n)[k]),
    decreases n,
{
    if n > 9 {
        lemma_dec_digits_chars(n / 10);
        assert forall|k: int|
            0 <= k < dec_digits(n).len() implies is_digit(#[trigger] dec_digits(n)[k]) by {
            if k < dec_digits(n / 10).len() {
                assert(dec_digits(n)[k] == dec_digits(n / 10)[k]);
            } else {
                assert(dec_digits(n)[k] == ((48 + n % 10) as u8) as char);
            }
        }
    }
}

/// Reading the decimal rendering back gives the number.
proof fn lemma_dec_digits_val(n: int)
    requires
        n >= 0,
    ensures
        digits_val(dec_digits(n)) == n,
    decreases n,
{
    if n <= 9 {
        assert(dec_digits(n) == seq![((48 + n) as u8) as char]);
        assert(dec_digits(n).len() == 1);
        assert(dec_digits(n).last() == ((48 + n) as u8) as char);
        assert(dec_digits(n).drop_last() =~= Seq::<char>::empty());
        assert(digits_val(Seq::<char>::empty()) == 0);
        assert(digits_val(dec_digits(n)) == digits_val(dec_digits(n).drop_last()) * 10 + digit_val(
            dec_digits(n).last(),
        ));
        assert(digit_val(((48 + n) as u8) as char) == n);
    } else {
        lemma_dec_digits_val(n / 10);
        assert(dec_digits(n).drop_last() =~= dec_digits(n / 10));
        assert(dec_digits(n).last() == ((48 + n % 10) as u8) as char);
        assert(digits_val(dec_digits(n)) == digits_val(dec_digits(n).drop_last()) * 10 + digit_val(
            dec_digits(n).last(),
        ));
        assert(digit_val(((48 + n % 10) as u8) as char) == n % 10);
    }
}

/// A digit is not whitespace, not a line break, not a sign, and not an `f`.
proof fn lemma_digit_not_special(c: char)
    requires
        is_digit(c),
    ensures
        !is_token_ws(c),
        c != '\n',
        c != '-',
        c != '+',
        c != 'f',
{
}

/// The token of a literal: nonempty, free of whitespace and line breaks,
/// never starting like the word `false`, and parsing back to the literal.
proof fn lemma_token_round(v: Var, pol: bool)
    requires
        v >= 1,
    ensures
        print_token(v, pol).len() >= 1,
        forall|k: int|
            0 <= k < print_token(v, pol).len() ==> !is_token_ws(#[trigger] print_token(v, pol)[k])
                && print_token(v, pol)[k] != '\n',
        print_token(v, pol)[0] != 'f',
        spec_token(print_token(v, pol)) == Some((v, pol)),
{
    lemma_dec_digits_chars(v as int);
    lemma_dec_digits_val(v as int);
    let t = print_token(v, pol);
    assert forall|k: int|
        0 <= k < t.len() implies !is_token_ws(#[trigger] t[k]) && t[k] != '\n' by {
        if pol {
            lemma_digit_not_special(dec_digits(v as int)[k]);
        } else {
            if k == 0 {
            } else {
                assert(t[k] == dec_digits(v as int)[k - 1]);
                lemma_digit_not_special(dec_digits(v as int)[k - 1]);
            }
        }
    }
    if pol {
        assert(is_digit(t[0]));
        lemma_digit_not_special(t[0]);
        assert(t[0] != '-' && t[0] != '+');
        assert(all_digits(t));
        assert(digits_val(t) == v as int);
    } else {
        assert(t[0] == '-');
        assert(t.subrange(1, t.len() as int) =~= dec_digits(v as int));
        assert(all_digits(dec_digits(v as int)));
        assert(digits_val(dec_digits(v as int)) == v as int);
        assert(dec_digits(v as int)[0] != 'f') by {
            lemma_digit_not_special(dec_digits(v as int)[0]);
        }
    }
}

/// `tok_end` runs to the end of a whitespace-free stretch.
proof fn lemma_tok_end_run(s: Seq<char>, i: int, b: int)
    requires
        0 <= i <= b <= s.len(),
        forall|j: int| i <= j < b ==> !is_token_ws(#[trigger] s[j]),
        b == s.len() || is_token_ws(s[b]),
    ensures
        tok_end(s, i) == b,
    decreases b - i,
{
    if i < b {
        lemma_tok_end_run(s, i + 1, b);
    }
}

/// `line_end` runs to the end of a break-free stretch.
proof fn lemma_line_end_run(s: Seq<char>, i: int, e: int)
    requires
        0 <= i <= e <= s.len(),
        forall|j: int| i <= j < e ==> s[j] != '\n',
        e == s.len() || s[e] == '\n',
    ensures
        line_end(s, i) == e,
    decreases e - i,
{
    if i < e {
        lemma_line_end_run(s, i + 1, e);
    }
}

/// Splitting a space-join at the front.
proof fn lemma_join_front(tokens: Seq<Seq<char>>)
    requires
        tokens.len() >= 2,
    ensures
        join_tokens(tokens) == tokens[0] + seq![' '] + join_tokens(tokens.subrange(
            1,
            tokens.len() as int,
        )),
    decreases tokens.len(),
{
    let rest = tokens.subrange(1, tokens.len() as int);
    if tokens.len() == 2 {
        assert(tokens.drop_last() =~= seq![tokens[0]]);
        assert(join_tokens(tokens.drop_last()) == tokens[0]);
        assert(rest =~= seq![tokens[1]]);
        assert(join_tokens(rest) == tokens[1]);
    } else {
        lemma_join_front(tokens.drop_last());
        assert(tokens.drop_last()[0] == tokens[0]);
        assert(tokens.drop_last().subrange(1, tokens.drop_last().len() as int) =~= rest.drop_last());
        assert(join_tokens(tokens) == join_tokens(tokens.drop_last()) + seq![' '] + tokens.last());
        assert(join_tokens(tokens.drop_last()) == tokens[0] + seq![' '] + join_tokens(
            rest.drop_last(),
        ));
        assert(rest.last() == tokens.last());
        assert(join_tokens(rest) == join_tokens(rest.drop_last()) + seq![' '] + rest.last());
        assert(tokens[0] + seq![' '] + (join_tokens(rest.drop_last()) + seq![' '] + rest.last())
            =~= (tokens[0] + seq![' '] + join_tokens(rest.drop_last())) + seq![' '] + tokens.last());
    }
}

/// Tokenizing a text whose tail is a space-join of nonempty,
/// whitespace-free tokens yields exactly those tokens.
proof fn lemma_toks_structure(s: Seq<char>, i: int, tokens: Seq<Seq<char>>)
    requires
        0 <= i <= s.len(),
        s.subrange(i, s.len() as int) == join_tokens(tokens),
        forall|x: int| 0 <= x < tokens.len() ==> (#[trigger] tokens[x]).len() >= 1,
        forall|x: int, k: int|
            0 <= x < tokens.len() && 0 <= k < tokens[x].len() ==> !is_token_ws(
                #[trigger] tokens[x][k],
            ),
    ensures
        toks_from(s, i) == tokens,
    decreases tokens.len(),
{
    if tokens.len() == 0 {
        assert(join_tokens(tokens).len() == 0);
        assert(s.subrange(i, s.len() as int).len() == 0);
        assert(s.len() - i == 0);
        assert(toks_from(s, i) =~= tokens);
    } else {
        let t0 = tokens[0];
        let l0 = t0.len() as int;
        let rest = tokens.subrange(1, tokens.len() as int);
        if tokens.len() >= 2 {
            lemma_join_front(tokens);
            assert(join_tokens(tokens).len() == l0 + 1 + join_tokens(rest).len());
        } else {
            assert(join_tokens(tokens) == t0);
        }
        assert(s.len() - i == join_tokens(tokens).len());
        assert(i + l0 <= s.len());
        assert forall|j: int| i <= j < i + l0 implies !is_token_ws(#[trigger] s[j]) by {
            assert(s[j] == s.subrange(i, s.len() as int)[j - i]);
            if tokens.len() == 1 {
                assert(s.subrange(i, s.len() as int)[j - i] == t0[j - i]);
            } else {
                assert(s.subrange(i, s.len() as int)[j - i] == (t0 + seq![' '] + join_tokens(
                    rest,
                ))[j - i]);
            }
            assert(tokens[0][j - i] == t0[j - i]);
        }
        assert(tok_start(s, i) == i);
        if tokens.len() == 1 {
            assert(s.len() - i == l0);
            lemma_tok_end_run(s, i, i + l0);
            assert(s.subrange(i, i + l0) =~= t0);
            assert(toks_from(s, i + l0) =~= Seq::<Seq<char>>::empty());
            assert(toks_from(s, i) == seq![t0] + toks_from(s, i + l0));
            assert(toks_from(s, i) =~= tokens);
        } else {
            assert(s.subrange(i, s.len() as int) == t0 + seq![' '] + join_tokens(rest));
            assert(s[i + l0] == (t0 + seq![' '] + join_tokens(rest))[l0]);
            assert(s[i + l0] == ' ');
            lemma_tok_end_run(s, i, i + l0);
            assert(s.subrange(i, i + l0) =~= t0);
            // the space is skipped, then the remaining tokens follow
            assert(tok_start(s, i + l0) == tok_start(s, i + l0 + 1));
            assert forall|k: int|
                0 <= k < join_tokens(rest).len() implies s.subrange(
                i + l0 + 1,
                s.len() as int,
            )[k] == join_tokens(rest)[k] by {
                assert(s.subrange(i, s.len() as int)[l0 + 1 + k] == s[i + l0 + 1 + k]);
                assert((t0 + seq![' '] + join_tokens(rest))[l0 + 1 + k] == join_tokens(rest)[k]);
            }
            assert(s.subrange(i + l0 + 1, s.len() as int) =~= join_tokens(rest));
            lemma_toks_structure(s, i + l0 + 1, rest);
            assert(toks_from(s, i + l0) == toks_from(s, i + l0 + 1));
            assert(toks_from(s, i) == seq![t0] + rest);
            assert(seq![t0] + rest =~= tokens);
        }
    }
}

/// The token list of a clause reassembles into exactly that clause.
proof fn lemma_clause_from_toks_round(ps: Seq<Var>, ns: Seq<Var>)
    requires
        pair_ok(ps, ns),
    ensures
        clause_from_toks(clause_tokens(ps, ns)) == Some((ps, ns)),
    decreases ps.len() + ns.len(),
{
    let toks = clause_tokens(ps, ns);
    if ns.len() > 0 {
        let v = ns.last();
        assert(v == ns[ns.len() - 1]);
        assert(v >= 1);
        lemma_token_round(v, false);
        assert(toks.drop_last() =~= clause_tokens(ps, ns.drop_last()));
        assert(toks.last() == print_token(v, false));
        assert(pair_ok(ps, ns.drop_last())) by {
            assert(forall|a: int|
                0 <= a < ns.drop_last().len() ==> #[trigger] ns.drop_last()[a] == ns[a]);
        }
        lemma_clause_from_toks_round(ps, ns.drop_last());
        assert(!ns.drop_last().contains(v)) by {
            if ns.drop_last().contains(v) {
                let a = choose|a: int| 0 <= a < ns.drop_last().len() && ns.drop_last()[a] == v;
                assert(ns[a] == ns[ns.len() - 1]);
                assert(false);
            }
        }
        assert(!ps.contains(v)) by {
            if ps.contains(v) {
                let a = choose|a: int| 0 <= a < ps.len() && ps[a] == v;
                assert(ps[a] != ns[ns.len() - 1]);
                assert(false);
            }
        }
        assert(ns.drop_last().push(v) =~= ns);
    } else if ps.len() > 0 {
        let v = ps.last();
        assert(v == ps[ps.len() - 1]);
        assert(v >= 1);
        lemma_token_round(v, true);
        assert(toks.drop_last() =~= clause_tokens(ps.drop_last(), ns));
        assert(toks.last() == print_token(v, true));
        assert(pair_ok(ps.drop_last(), ns)) by {
            assert(forall|a: int|
                0 <= a < ps.drop_last().len() ==> #[trigger] ps.drop_last()[a] == ps[a]);
        }
        lemma_clause_from_toks_round(ps.drop_last(), ns);
        assert(!ps.drop_last().contains(v)) by {
            if ps.drop_last().contains(v) {
                let a = choose|a: int| 0 <= a < ps.drop_last().len() && ps.drop_last()[a] == v;
                assert(ps[a] == ps[ps.len() - 1]);
                assert(false);
            }
        }
        assert(ps.drop_last().push(v) =~= ps);
    } else {
        assert(toks =~= Seq::<Seq<char>>::empty());
    }
}

/// Parsing the printed line of a clause gives that clause back.
proof fn lemma_parse_line_round(ps: Seq<Var>, ns: Seq<Var>)
    requires
        pair_ok(ps, ns),
    ensures
        spec_parse_line(print_clause(ps, ns)) == Some(Some((ps, ns))),
        forall|k: int| 0 <= k < print_clause(ps, ns).len() ==> print_clause(ps, ns)[k] != '\n',
{
    let line = print_clause(ps, ns);
    if ps.len() == 0 && ns.len() == 0 {
        let ftok = seq!['f', 'a', 'l', 's', 'e'];
        assert(line == ftok);
        assert(join_tokens(seq![ftok]) == ftok);
        assert(line.subrange(0, line.len() as int) =~= join_tokens(seq![ftok]));
        lemma_toks_structure(line, 0, seq![ftok]);
        assert(toks_from(line, 0) == seq![ftok]);
        assert(toks_from(line, 0)[0] == ftok);
        assert(spec_parse_line(line) == Some(Some((Seq::<Var>::empty(), Seq::<Var>::empty()))));
    } else {
        let toks = clause_tokens(ps, ns);
        assert forall|x: int| 0 <= x < toks.len() implies (#[trigger] toks[x]).len() >= 1 && toks[
        x][0] != 'f' && (forall|k: int|
            0 <= k < toks[x].len() ==> !is_token_ws(#[trigger] toks[x][k]) && toks[x][k]
                != '\n') by {
            if x < ps.len() {
                assert(toks[x] == print_token(ps[x], true));
                assert(ps[x] >= 1);
                lemma_token_round(ps[x], true);
            } else {
                assert(toks[x] == print_token(ns[x - ps.len()], false));
                assert(ns[x - ps.len()] >= 1);
                lemma_token_round(ns[x - ps.len()], false);
            }
        }
        assert(line.subrange(0, line.len() as int) =~= join_tokens(toks));
        lemma_toks_structure(line, 0, toks);
        assert(toks.len() >= 1);
        if toks.len() == 1 {
            assert(toks[0][0] != 'f');
            assert(toks[0] != seq!['f', 'a', 'l', 's', 'e']);
        }
        lemma_clause_from_toks_round(ps, ns);
        // the whole line is free of line breaks
        assert forall|k: int| 0 <= k < line.len() implies line[k] != '\n' by {
            lemma_join_no_newline(toks, k);
        }
    }
}

/// A space-join of tokens free of line breaks is free of line breaks.
proof fn lemma_join_no_newline(tokens: Seq<Seq<char>>, k: int)
    requires
        forall|x: int, j: int|
            0 <= x < tokens.len() && 0 <= j < tokens[x].len() ==> (#[trigger] tokens[x][j])
                != '\n',
        0 <= k < join_tokens(tokens).len(),
    ensures
        join_tokens(tokens)[k] != '\n',
    decreases tokens.len(),
{
    if tokens.len() == 1 {
        assert(join_tokens(tokens)[k] == tokens[0][k]);
    } else if tokens.len() >= 2 {
        let pre = join_tokens(tokens.drop_last());
        if k < pre.len() {
            assert forall|x: int, j: int|
                0 <= x < tokens.drop_last().len() && 0 <= j < tokens.drop_last()[x].len() implies (
            #[trigger] tokens.drop_last()[x][j]) != '\n' by {
                assert(tokens.drop_last()[x] == tokens[x]);
            }
            lemma_join_no_newline(tokens.drop_last(), k);
            assert(join_tokens(tokens)[k] == pre[k]);
        } else if k == pre.len() {
            assert(join_tokens(tokens)[k] == ' ');
        } else {
            assert(join_tokens(tokens)[k] == tokens.last()[k - pre.len() - 1]);
            assert(tokens[tokens.len() - 1][k - pre.len() - 1] != '\n');
        }
    }
}

/// Parsing a text whose tail is the printed form of a clause list gives
/// back exactly that list.
proof fn lemma_parse_print_structure(s: Seq<char>, i: int, cs: Seq<(Seq<Var>, Seq<Var>)>)
    requires
        0 <= i <= s.len(),
        s.subrange(i, s.len() as int) == print_cnf(cs),
        forall|x: int| 0 <= x < cs.len() ==> pair_ok((#[trigger] cs[x]).0, cs[x].1),
    ensures
        spec_parse_from(s, i) == Some(cs),
    decreases cs.len(),
{
    if cs.len() == 0 {
        assert(s.len() - i == 0);
        assert(spec_parse_from(s, i) == Some(Seq::<(Seq<Var>, Seq<Var>)>::empty()));
        assert(Seq::<(Seq<Var>, Seq<Var>)>::empty() =~= cs);
    } else {
        let line = print_clause(cs[0].0, cs[0].1);
        let ll = line.len() as int;
        let rest = cs.subrange(1, cs.len() as int);
        lemma_parse_line_round(cs[0].0, cs[0].1);
        assert(s.subrange(i, s.len() as int) == line + seq!['\n'] + print_cnf(rest));
        assert(s.len() - i == ll + 1 + print_cnf(rest).len());
        assert forall|j: int| i <= j < i + ll implies s[j] != '\n' by {
            assert(s[j] == s.subrange(i, s.len() as int)[j - i]);
            assert((line + seq!['\n'] + print_cnf(rest))[j - i] == line[j - i]);
        }
        assert(s[i + ll] == (line + seq!['\n'] + print_cnf(rest))[ll]);
        assert(s[i + ll] == '\n');
        lemma_line_end_run(s, i, i + ll);
        assert forall|k: int| 0 <= k < ll implies s.subrange(i, i + ll)[k] == line[k] by {
            assert(s.subrange(i, s.len() as int)[k] == s[i + k]);
            assert((line + seq!['\n'] + print_cnf(rest))[k] == line[k]);
        }
        assert(s.subrange(i, i + ll) =~= line);
        assert forall|k: int|
            0 <= k < print_cnf(rest).len() implies s.subrange(i + ll + 1, s.len() as int)[k]
            == print_cnf(rest)[k] by {
            assert(s.subrange(i, s.len() as int)[ll + 1 + k] == s[i + ll + 1 + k]);
            assert((line + seq!['\n'] + print_cnf(rest))[ll + 1 + k] == print_cnf(rest)[k]);
        }
        assert(s.subrange(i + ll + 1, s.len() as int) =~= print_cnf(rest));
        lemma_parse_print_structure(s, i + ll + 1, rest);
        assert(spec_parse_from(s, i + ll + 1) == Some(rest));
        assert(spec_parse_line(s.subrange(i, i + ll)) == Some(Some(cs[0])));
        assert(i + ll < s.len());
        assert(spec_parse_from(s, i) == Some(seq![cs[0]] + rest));
        assert(seq![cs[0]] + rest =~= cs);
    }
}

/// Round trip: printing a well-formed formula and parsing the text back
/// yields the same formula, clause for clause, with each clause's positive
/// and negative variable lists unchanged.
pub proof fn lemma_parse_print_round_trip(cnf: Cnf)
    requires
        cnf.wf(),
    ensures
        spec_parse(print_cnf(clauses_pairs(cnf.clauses@))) == Some(clauses_pairs(cnf.clauses@)),
{
    let cs = clauses_pairs(cnf.clauses@);
    assert forall|x: int| 0 <= x < cs.len() implies pair_ok((#[trigger] cs[x]).0, cs[x].1) by {
        assert(cnf.clauses@[x].wf());
        assert(cs[x] == (cnf.clauses@[x].pos(), cnf.clauses@[x].neg()));
    }
    let s = print_cnf(cs);
    assert(s.subrange(0, s.len() as int) =~= s);
    lemma_parse_print_structure(s, 0, cs);
}

} // verus!
