//! The wire codec: an edit travels as a JSON-style array whose elements
//! are, in primitive order, a positive integer for a retain, a negative
//! integer for a delete, and a quoted string for an insert. Decoding
//! feeds every element through the builder, so any encoding — zero runs,
//! adjacent runs of one variant, a delete before an insert — decodes to
//! the canonical edit.

use vstd::prelude::*;

use crate::op::{
    Operation, OpView, op_base, op_target, sum_base, sum_target, build_ops,
    lemma_sums_split, lemma_sums_push, lemma_build_from_push,
};
use crate::edit::TextOperation;

verus! {

/// The character of a decimal digit.
pub open spec fn digit_char(d: nat) -> char {
    if d == 0 {
        '0'
    } else if d == 1 {
        '1'
    } else if d == 2 {
        '2'
    } else if d == 3 {
        '3'
    } else if d == 4 {
        '4'
    } else if d == 5 {
        '5'
    } else if d == 6 {
        '6'
    } else if d == 7 {
        '7'
    } else if d == 8 {
        '8'
    } else {
        '9'
    }
}

/// The decimal digits of a number, most significant first.
pub open spec fn dec_digits(n: nat) -> Seq<char>
    decreases n,
{
    if n < 10 {
        seq![digit_char(n)]
    } else {
        dec_digits(n / 10).push(digit_char(n % 10))
    }
}

/// A string's characters with the quote and the backslash escaped.
pub open spec fn esc_str(t: Seq<char>) -> Seq<char>
    decreases t.len(),
{
    if t.len() == 0 {
        Seq::empty()
    } else {
        let head = if t[0] == '"' {
            seq!['\\', '"']
        } else if t[0] == '\\' {
            seq!['\\', '\\']
        } else {
            seq![t[0]]
        };
        head + esc_str(t.drop_first())
    }
}

/// One encoded element.
pub open spec fn encode_op(op: OpView) -> Seq<char> {
    match op {
        OpView::Retain(n) => dec_digits(n),
        OpView::Delete(n) => seq!['-'] + dec_digits(n),
        OpView::Insert(t) => seq!['"'] + esc_str(t) + seq!['"'],
    }
}

/// The encoded elements, separated by commas.
pub open spec fn encode_items(ops: Seq<OpView>) -> Seq<char>
    decreases ops.len(),
{
    if ops.len() == 0 {
        Seq::empty()
    } else if ops.len() == 1 {
        encode_op(ops[0])
    } else {
        encode_op(ops[0]) + seq![','] + encode_items(ops.drop_first())
    }
}

/// The full encoded form of an edit's primitives.
pub open spec fn encode_wire(ops: Seq<OpView>) -> Seq<char> {
    seq!['['] + encode_items(ops) + seq![']']
}


/// A JSON whitespace character.
pub open spec fn is_ws(c: char) -> bool {
    c == ' ' || c == '\t' || c == '\n' || c == '\r'
}

/// A decimal digit character.
pub open spec fn is_digit(c: char) -> bool {
    ||| c == '0'
    ||| c == '1'
    ||| c == '2'
    ||| c == '3'
    ||| c == '4'
    ||| c == '5'
    ||| c == '6'
    ||| c == '7'
    ||| c == '8'
    ||| c == '9'
}

/// The value of a digit character.
pub open spec fn digit_val(c: char) -> nat {
    if c == '0' {
        0
    } else if c == '1' {
        1
    } else if c == '2' {
        2
    } else if c == '3' {
        3
    } else if c == '4' {
        4
    } else if c == '5' {
        5
    } else if c == '6' {
        6
    } else if c == '7' {
        7
    } else if c == '8' {
        8
    } else {
        9
    }
}

/// The first position at or after `i` that holds no whitespace.
pub open spec fn ws_end(s: Seq<char>, i: int) -> int
    decreases s.len() - i,
{
    if 0 <= i < s.len() && is_ws(s[i]) {
        ws_end(s, i + 1)
    } else {
        i
    }
}

/// The first position at or after `i` that holds no digit.
pub open spec fn digits_end(s: Seq<char>, i: int) -> int
    decreases s.len() - i,
{
    if 0 <= i < s.len() && is_digit(s[i]) {
        digits_end(s, i + 1)
    } else {
        i
    }
}

/// The number the digits between `i` and `j` spell.
pub open spec fn digits_val(s: Seq<char>, i: int, j: int) -> nat
    decreases j - i,
{
    if i >= j {
        0
    } else {
        digits_val(s, i, j - 1) * 10 + digit_val(s[j - 1])
    }
}

/// Parse a quoted string from just after its opening quote: a quote ends
/// it, a backslash escapes the next character, anything else stands for
/// itself. Yields the decoded characters and the position after the
/// closing quote.
pub open spec fn parse_str(s: Seq<char>, i: int) -> Option<(Seq<char>, int)>
    decreases s.len() - i,
{
    if i < 0 || i >= s.len() {
        None
    } else if s[i] == '"' {
        Some((Seq::empty(), i + 1))
    } else if s[i] == '\\' {
        if i + 1 >= s.len() {
            None
        } else {
            let e = s[i + 1];
            if e == '"' || e == '\\' || e == '/' || e == 'n' || e == 'r' || e == 't' {
                let c = if e == 'n' {
                    '\n'
                } else if e == 'r' {
                    '\r'
                } else if e == 't' {
                    '\t'
                } else {
                    e
                };
                match parse_str(s, i + 2) {
                    Some(q) => Some((seq![c] + q.0, q.1)),
                    None => None,
                }
            } else {
                None
            }
        }
    } else {
        match parse_str(s, i + 1) {
            Some(q) => Some((seq![s[i]] + q.0, q.1)),
            None => None,
        }
    }
}

/// Parse one array element at position `i`: a positive integer is a
/// retain, a negative integer a delete, a quoted string an insert.
/// A number too large for `usize` is refused.
pub open spec fn parse_elem(s: Seq<char>, i: int) -> Option<(OpView, int)> {
    if i < 0 || i >= s.len() {
        None
    } else if s[i] == '-' {
        let j = digits_end(s, i + 1);
        if j == i + 1 {
            None
        } else if digits_val(s, i + 1, j) > usize::MAX {
            None
        } else {
            Some((OpView::Delete(digits_val(s, i + 1, j)), j))
        }
    } else if is_digit(s[i]) {
        let j = digits_end(s, i);
        if digits_val(s, i, j) > usize::MAX {
            None
        } else {
            Some((OpView::Retain(digits_val(s, i, j)), j))
        }
    } else if s[i] == '"' {
        match parse_str(s, i + 1) {
            Some(q) => Some((OpView::Insert(q.0), q.1)),
            None => None,
        }
    } else {
        None
    }
}

/// Parse the elements of a nonempty array from the position of its first
/// element: elements separated by commas, closed by a bracket. Yields
/// the raw primitives and the position after the closing bracket.
pub open spec fn parse_items(s: Seq<char>, i: int) -> Option<(Seq<OpView>, int)>
    decreases s.len() - i,
{
    match parse_elem(s, i) {
        None => None,
        Some(p) => {
            let k = ws_end(s, p.1);
            if 0 <= k < s.len() && s[k] == ',' {
                let m = ws_end(s, k + 1);
                if i < m && m <= s.len() {
                    match parse_items(s, m) {
                        Some(q) => Some((seq![p.0] + q.0, q.1)),
                        None => None,
                    }
                } else {
                    None
                }
            } else if 0 <= k < s.len() && s[k] == ']' {
                Some((seq![p.0], k + 1))
            } else {
                None
            }
        },
    }
}

/// Parse a whole wire form: optional whitespace, a bracketed list of
/// elements, optional whitespace, nothing after. Yields the raw
/// primitives, before normalization.
pub open spec fn parse_wire(s: Seq<char>) -> Option<Seq<OpView>> {
    let i = ws_end(s, 0);
    if 0 <= i < s.len() && s[i] == '[' {
        let j = ws_end(s, i + 1);
        if 0 <= j < s.len() && s[j] == ']' {
            if ws_end(s, j + 1) == s.len() {
                Some(Seq::empty())
            } else {
                None
            }
        } else {
            match parse_items(s, j) {
                Some(q) => if ws_end(s, q.1) == s.len() {
                    Some(q.0)
                } else {
                    None
                },
                None => None,
            }
        }
    } else {
        None
    }
}

/// Scanning whitespace or digits never moves backward nor past the end.
proof fn lemma_scan_bounds(s: Seq<char>, i: int)
    requires
        0 <= i <= s.len(),
    ensures
        i <= ws_end(s, i) <= s.len(),
        i <= digits_end(s, i) <= s.len(),
    decreases s.len() - i,
{
    if i < s.len() {
        lemma_scan_bounds(s, i + 1);
    }
}

/// A longer digit run spells a number at least as large.
proof fn lemma_digits_val_mono(s: Seq<char>, i: int, j1: int, j2: int)
    requires
        i <= j1 <= j2,
    ensures
        digits_val(s, i, j2) >= digits_val(s, i, j1),
    decreases j2 - j1,
{
    if j1 < j2 {
        lemma_digits_val_mono(s, i, j1, j2 - 1);
    }
}

/// Append one decimal digit.
fn push_digit(out: &mut String, d: usize)
    requires
        d < 10,
    ensures
        final(out)@ == old(out)@ + seq![digit_char(d as nat)],
{
    proof {
        reveal_strlit("0");
        reveal_strlit("1");
        reveal_strlit("2");
        reveal_strlit("3");
        reveal_strlit("4");
        reveal_strlit("5");
        reveal_strlit("6");
        reveal_strlit("7");
        reveal_strlit("8");
        reveal_strlit("9");
    }
    match d {
        0 => out.append("0"),
        1 => out.append("1"),
        2 => out.append("2"),
        3 => out.append("3"),
        4 => out.append("4"),
        5 => out.append("5"),
        6 => out.append("6"),
        7 => out.append("7"),
        8 => out.append("8"),
        _ => out.append("9"),
    }
    proof {
        assert(final(out)@ =~= old(out)@ + seq![digit_char(d as nat)]);
    }
}

/// Append a number's decimal digits.
fn push_digits(out: &mut String, n: usize)
    ensures
        final(out)@ == old(out)@ + dec_digits(n as nat),
    decreases n,
{
    if n < 10 {
        push_digit(out, n);
    } else {
        push_digits(out, n / 10);
        push_digit(out, n % 10);
        proof {
            assert((old(out)@ + dec_digits((n / 10) as nat)) + seq![
                digit_char((n % 10) as nat),
            ] =~= old(out)@ + dec_digits((n / 10) as nat).push(digit_char((n % 10) as nat)));
            assert((n as nat) / 10 == (n / 10) as nat);
            assert((n as nat) % 10 == (n % 10) as nat);
        }
    }
}

/// Append a string's characters, escaping the quote and the backslash.
fn push_escaped(out: &mut String, t: &String)
    ensures
        final(out)@ == old(out)@ + esc_str(t@),
{
    proof {
        reveal_strlit("\\\"");
        reveal_strlit("\\\\");
    }
    let n = t.as_str().unicode_len();
    let mut i: usize = 0;
    proof {
        assert(t@.skip(0) =~= t@);
        assert(old(out)@ + Seq::<char>::empty() =~= old(out)@);
    }
    while i < n
        invariant
            n == t@.len(),
            i <= n,
            out@ + esc_str(t@.skip(i as int)) == old(out)@ + esc_str(t@),
        decreases n - i,
    {
        let ghost rem = t@.skip(i as int);
        let ghost out0 = out@;
        proof {
            assert(rem[0] == t@[i as int]);
            assert(rem.drop_first() =~= t@.skip(i + 1));
        }
        let c = t.as_str().get_char(i);
        if c == '"' {
            out.append("\\\"");
            proof {
                reveal_strlit("\\\"");
                assert(out@ =~= out0 + seq!['\\', '"']);
            }
        } else if c == '\\' {
            out.append("\\\\");
            proof {
                reveal_strlit("\\\\");
                assert(out@ =~= out0 + seq!['\\', '\\']);
            }
        } else {
            out.append(t.as_str().substring_char(i, i + 1));
            proof {
                assert(t@.subrange(i as int, i + 1) =~= seq![t@[i as int]]);
            }
        }
        proof {
            let head = if rem[0] == '"' {
                seq!['\\', '"']
            } else if rem[0] == '\\' {
                seq!['\\', '\\']
            } else {
                seq![rem[0]]
            };
            assert(esc_str(rem) == head + esc_str(rem.drop_first()));
            assert((out0 + head) + esc_str(t@.skip(i + 1)) =~= out0 + (head + esc_str(
                t@.skip(i + 1),
            )));
        }
        i = i + 1;
    }
    proof {
        assert(t@.skip(n as int) =~= Seq::<char>::empty());
        assert(out@ + Seq::<char>::empty() =~= out@);
    }
}


/// Move past whitespace.
fn skip_ws(s: &str, i: usize) -> (r: usize)
    requires
        i <= s@.len(),
    ensures
        r as int == ws_end(s@, i as int),
        i <= r <= s@.len(),
{
    let n = s.unicode_len();
    let mut r = i;
    while r < n
        invariant
            n == s@.len(),
            i <= r <= n,
            ws_end(s@, i as int) == ws_end(s@, r as int),
        decreases n - r,
    {
        let c = s.get_char(r);
        if c == ' ' || c == '\t' || c == '\n' || c == '\r' {
            proof {
                assert(ws_end(s@, r as int) == ws_end(s@, r + 1));
            }
            r = r + 1;
        } else {
            proof {
                assert(ws_end(s@, r as int) == r);
            }
            return r;
        }
    }
    proof {
        assert(ws_end(s@, r as int) == r);
    }
    r
}

/// The value of one digit character.
fn digit_of(c: char) -> (r: usize)
    requires
        is_digit(c),
    ensures
        r == digit_val(c),
{
    if c == '0' {
        0
    } else if c == '1' {
        1
    } else if c == '2' {
        2
    } else if c == '3' {
        3
    } else if c == '4' {
        4
    } else if c == '5' {
        5
    } else if c == '6' {
        6
    } else if c == '7' {
        7
    } else if c == '8' {
        8
    } else {
        9
    }
}

/// Whether the character is a decimal digit.
fn digit_check(c: char) -> (r: bool)
    ensures
        r == is_digit(c),
{
    c == '0' || c == '1' || c == '2' || c == '3' || c == '4' || c == '5' || c == '6' || c == '7'
        || c == '8' || c == '9'
}

/// Scan a digit run: its value and its end, or nothing when the value
/// does not fit in `usize`.
fn scan_number(s: &str, i: usize) -> (r: Option<(usize, usize)>)
    requires
        i <= s@.len(),
    ensures
        match r {
            Some(p) => p.0 == digits_val(s@, i as int, digits_end(s@, i as int)) && p.1 as int
                == digits_end(s@, i as int) && i <= p.1 <= s@.len(),
            None => digits_val(s@, i as int, digits_end(s@, i as int)) > usize::MAX,
        },
{
    let n = s.unicode_len();
    let mut j = i;
    let mut v: usize = 0;
    while j < n
        invariant
            n == s@.len(),
            i <= j <= n,
            digits_end(s@, i as int) == digits_end(s@, j as int),
            v == digits_val(s@, i as int, j as int),
        decreases n - j,
    {
        let c = s.get_char(j);
        if digit_check(c) {
            let d = digit_of(c);
            proof {
                assert(digits_end(s@, j as int) == digits_end(s@, j + 1));
                assert(digits_val(s@, i as int, j + 1) == digits_val(s@, i as int, j as int) * 10
                    + digit_val(s@[j as int]));
            }
            if v > (usize::MAX - d) / 10 {
                proof {
                    let m = usize::MAX as int;
                    assert((m - d) == (m - d) / 10 * 10 + (m - d) % 10);
                    assert(v * 10 + d > m);
                    lemma_scan_bounds(s@, j + 1);
                    lemma_digits_val_mono(s@, i as int, j + 1, digits_end(s@, j + 1));
                }
                return None;
            }
            v = v * 10 + d;
            j = j + 1;
        } else {
            proof {
                assert(digits_end(s@, j as int) == j);
            }
            return Some((v, j));
        }
    }
    proof {
        assert(digits_end(s@, j as int) == j);
    }
    Some((v, j))
}

/// Parse a quoted string from just after its opening quote.
fn parse_str_x(s: &str, i: usize) -> (r: Option<(String, usize)>)
    requires
        i <= s@.len(),
    ensures
        match r {
            Some(p) => parse_str(s@, i as int) == Some((p.0@, p.1 as int)) && i <= p.1
                <= s@.len(),
            None => parse_str(s@, i as int) is None,
        },
{
    let n = s.unicode_len();
    let mut cur = i;
    let mut out = String::new();
    proof {
        assert(out@ =~= Seq::<char>::empty());
    }
    loop
        invariant
            n == s@.len(),
            i <= cur <= n,
            match parse_str(s@, cur as int) {
                Some(q) => parse_str(s@, i as int) == Some((out@ + q.0, q.1)),
                None => parse_str(s@, i as int) is None,
            },
        decreases n - cur,
    {
        if cur >= n {
            return None;
        }
        let ghost out0 = out@;
        let c = s.get_char(cur);
        if c == '"' {
            proof {
                assert(parse_str(s@, cur as int) == Some((Seq::<char>::empty(), cur + 1)));
                assert(out0 + Seq::<char>::empty() =~= out0);
            }
            return Some((out, cur + 1));
        } else if c == '\\' {
            if cur + 1 >= n {
                return None;
            }
            let e = s.get_char(cur + 1);
            if e == '"' {
                out.append("\"");
                proof {
                    reveal_strlit("\"");
                }
            } else if e == '\\' {
                out.append("\\");
                proof {
                    reveal_strlit("\\");
                }
            } else if e == '/' {
                out.append("/");
                proof {
                    reveal_strlit("/");
                }
            } else if e == 'n' {
                out.append("\n");
                proof {
                    reveal_strlit("\n");
                }
            } else if e == 'r' {
                out.append("\r");
                proof {
                    reveal_strlit("\r");
                }
            } else if e == 't' {
                out.append("\t");
                proof {
                    reveal_strlit("\t");
                }
            } else {
                return None;
            }
            proof {
                let ec = s@[cur + 1];
                let c2 = if ec == 'n' {
                    '\n'
                } else if ec == 'r' {
                    '\r'
                } else if ec == 't' {
                    '\t'
                } else {
                    ec
                };
                assert(out@ =~= out0 + seq![c2]);
                match parse_str(s@, cur + 2) {
                    Some(q) => {
                        assert(parse_str(s@, cur as int) == Some((seq![c2] + q.0, q.1)));
                        assert(out0 + (seq![c2] + q.0) =~= (out0 + seq![c2]) + q.0);
                    },
                    None => {
                        assert(parse_str(s@, cur as int) is None);
                    },
                }
            }
            cur = cur + 2;
        } else {
            out.append(s.substring_char(cur, cur + 1));
            proof {
                assert(s@.subrange(cur as int, cur + 1) =~= seq![s@[cur as int]]);
                assert(out@ =~= out0 + seq![s@[cur as int]]);
                match parse_str(s@, cur + 1) {
                    Some(q) => {
                        assert(parse_str(s@, cur as int) == Some((seq![s@[cur as int]] + q.0, q.1)));
                        assert(out0 + (seq![s@[cur as int]] + q.0) =~= (out0 + seq![
                            s@[cur as int],
                        ]) + q.0);
                    },
                    None => {
                        assert(parse_str(s@, cur as int) is None);
                    },
                }
            }
            cur = cur + 1;
        }
    }
}

/// Parse one array element.
fn parse_elem_x(s: &str, i: usize) -> (r: Option<(Operation, usize)>)
    requires
        i <= s@.len(),
    ensures
        match r {
            Some(p) => parse_elem(s@, i as int) is Some && p.0@ == (parse_elem(
                s@,
                i as int,
            )->0).0 && p.1 as int == (parse_elem(s@, i as int)->0).1 && i <= p.1 <= s@.len(),
            None => parse_elem(s@, i as int) is None,
        },
{
    let n = s.unicode_len();
    if i >= n {
        return None;
    }
    let c = s.get_char(i);
    if c == '-' {
        match scan_number(s, i + 1) {
            None => None,
            Some((v, end)) => {
                if end == i + 1 {
                    None
                } else {
                    Some((Operation::Delete(v), end))
                }
            },
        }
    } else if digit_check(c) {
        match scan_number(s, i) {
            None => None,
            Some((v, end)) => Some((Operation::Retain(v), end)),
        }
    } else if c == '"' {
        match parse_str_x(s, i + 1) {
            None => None,
            Some((t, end)) => Some((Operation::Insert(t), end)),
        }
    } else {
        None
    }
}



/// A window inside a window of a sequence.
proof fn lemma_sub_sub(s: Seq<char>, i: int, l: int, a: int, b: int)
    requires
        0 <= i,
        i + l <= s.len(),
        0 <= a <= b <= l,
    ensures
        s.subrange(i + a, i + b) == s.subrange(i, i + l).subrange(a, b),
{
    assert(s.subrange(i + a, i + b) =~= s.subrange(i, i + l).subrange(a, b));
}

/// Digit characters are digits and nothing a parser confuses them with.
proof fn lemma_digit_char_class(d: nat)
    ensures
        is_digit(digit_char(d)),
        !is_ws(digit_char(d)),
        digit_char(d) != ',',
        digit_char(d) != ']',
        digit_char(d) != '"',
        digit_char(d) != '-',
        digit_char(d) != '[',
        d < 10 ==> digit_val(digit_char(d)) == d,
{
}

/// Every character of a number's decimal form is a digit, and there is
/// at least one.
proof fn lemma_dec_digits_shape(n: nat)
    ensures
        dec_digits(n).len() >= 1,
        forall|k: int| 0 <= k < dec_digits(n).len() ==> is_digit(#[trigger] dec_digits(n)[k]),
    decreases n,
{
    if n < 10 {
        lemma_digit_char_class(n);
        assert(dec_digits(n)[0] == digit_char(n));
    } else {
        lemma_dec_digits_shape(n / 10);
        lemma_digit_char_class(n % 10);
        assert forall|k: int| 0 <= k < dec_digits(n).len() implies is_digit(
            #[trigger] dec_digits(n)[k],
        ) by {
            if k < dec_digits(n / 10).len() {
                assert(dec_digits(n)[k] == dec_digits(n / 10)[k]);
            } else {
                assert(dec_digits(n)[k] == digit_char(n % 10));
            }
        }
    }
}

/// Scanning a run of digits ends exactly where the digits end.
proof fn lemma_digits_end_run(s: Seq<char>, i: int, j: int)
    requires
        0 <= i <= j <= s.len(),
        forall|k: int| i <= k < j ==> is_digit(#[trigger] s[k]),
        j == s.len() || !is_digit(s[j]),
    ensures
        digits_end(s, i) == j,
    decreases j - i,
{
    if i < j {
        assert(is_digit(s[i]));
        lemma_digits_end_run(s, i + 1, j);
    }
}

/// The digits of `n`, read back, spell `n`.
proof fn lemma_digits_val_of(n: nat, s: Seq<char>, i: int)
    requires
        0 <= i,
        i + dec_digits(n).len() <= s.len(),
        s.subrange(i, i + dec_digits(n).len()) == dec_digits(n),
    ensures
        digits_val(s, i, i + dec_digits(n).len()) == n,
    decreases n,
{
    let l = dec_digits(n).len() as int;
    if n < 10 {
        assert(s[i] == dec_digits(n)[0]);
        lemma_digit_char_class(n);
        assert(digits_val(s, i, i + 1) == digits_val(s, i, i) * 10 + digit_val(s[i]));
    } else {
        let l1 = dec_digits(n / 10).len() as int;
        assert(dec_digits(n) == dec_digits(n / 10).push(digit_char(n % 10)));
        assert(s.subrange(i, i + l1) =~= dec_digits(n / 10));
        lemma_digits_val_of(n / 10, s, i);
        assert(s[i + l - 1] == dec_digits(n)[l - 1]);
        assert(dec_digits(n)[l - 1] == digit_char(n % 10));
        lemma_digit_char_class(n % 10);
        assert(digits_val(s, i, i + l) == digits_val(s, i, i + l - 1) * 10 + digit_val(
            s[i + l - 1],
        ));
        assert(n / 10 * 10 + n % 10 == n);
    }
}

/// An escaped string followed by its closing quote parses back to the
/// original characters.
proof fn lemma_parse_esc(t: Seq<char>, s: Seq<char>, i: int)
    requires
        0 <= i,
        i + esc_str(t).len() + 1 <= s.len(),
        s.subrange(i, i + esc_str(t).len()) == esc_str(t),
        s[i + esc_str(t).len()] == '"',
    ensures
        parse_str(s, i) == Some((t, i + esc_str(t).len() + 1)),
    decreases t.len(),
{
    let l = esc_str(t).len() as int;
    if t.len() == 0 {
        assert(s[i] == '"');
    } else {
        let c = t[0];
        let t2 = t.drop_first();
        let head = if c == '"' {
            seq!['\\', '"']
        } else if c == '\\' {
            seq!['\\', '\\']
        } else {
            seq![c]
        };
        assert(esc_str(t) == head + esc_str(t2));
        let hl = head.len() as int;
        lemma_sub_sub(s, i, l, hl, l);
        assert(s.subrange(i, i + l).subrange(hl, l) =~= esc_str(t2));
        assert(s[i + l] == '"');
        lemma_parse_esc(t2, s, i + hl);
        if c == '"' || c == '\\' {
            assert(s[i] == s.subrange(i, i + l)[0]);
            assert(esc_str(t)[0] == '\\');
            assert(s[i + 1] == s.subrange(i, i + l)[1]);
            assert(esc_str(t)[1] == c);
            assert(parse_str(s, i) == Some((seq![c] + t2, i + l + 1)));
            assert(seq![c] + t2 =~= t);
        } else {
            assert(s[i] == s.subrange(i, i + l)[0]);
            assert(esc_str(t)[0] == c);
            assert(parse_str(s, i) == Some((seq![s[i]] + t2, i + l + 1)));
            assert(seq![c] + t2 =~= t);
        }
    }
}

/// A primitive's run fits in `usize`.
pub open spec fn op_bounded(op: OpView) -> bool {
    match op {
        OpView::Retain(n) => n <= usize::MAX,
        OpView::Delete(n) => n <= usize::MAX,
        OpView::Insert(_) => true,
    }
}

/// An encoded element followed by a comma or a closing bracket parses
/// back to the primitive.
proof fn lemma_parse_elem_enc(op: OpView, s: Seq<char>, i: int)
    requires
        0 <= i,
        op_bounded(op),
        i + encode_op(op).len() < s.len(),
        s.subrange(i, i + encode_op(op).len()) == encode_op(op),
        s[i + encode_op(op).len()] == ',' || s[i + encode_op(op).len()] == ']',
    ensures
        parse_elem(s, i) == Some((op, i + encode_op(op).len())),
{
    let l = encode_op(op).len() as int;
    match op {
        OpView::Retain(n) => {
            lemma_dec_digits_shape(n);
            assert(s[i] == s.subrange(i, i + l)[0]);
            assert(is_digit(s[i]));
            assert forall|k: int| i <= k < i + l implies is_digit(#[trigger] s[k]) by {
                assert(s[k] == s.subrange(i, i + l)[k - i]);
                assert(s.subrange(i, i + l)[k - i] == dec_digits(n)[k - i]);
            }
            assert(!is_digit(s[i + l]));
            lemma_digits_end_run(s, i, i + l);
            lemma_digits_val_of(n, s, i);
        },
        OpView::Delete(n) => {
            lemma_dec_digits_shape(n);
            assert(encode_op(op) == seq!['-'] + dec_digits(n));
            assert(s[i] == s.subrange(i, i + l)[0]);
            assert(s[i] == '-');
            lemma_sub_sub(s, i, l, 1, l);
            assert(s.subrange(i, i + l).subrange(1, l) =~= dec_digits(n));
            assert forall|k: int| i + 1 <= k < i + l implies is_digit(#[trigger] s[k]) by {
                assert(s[k] == s.subrange(i, i + l)[k - i]);
                assert(s.subrange(i, i + l)[k - i] == dec_digits(n)[k - i - 1]);
            }
            assert(!is_digit(s[i + l]));
            lemma_digits_end_run(s, i + 1, i + l);
            lemma_digits_val_of(n, s, i + 1);
            assert(digits_end(s, i + 1) == i + l);
            assert(i + l != i + 1);
        },
        OpView::Insert(t) => {
            assert(encode_op(op) == seq!['"'] + esc_str(t) + seq!['"']);
            assert(s[i] == s.subrange(i, i + l)[0]);
            assert(s[i] == '"');
            assert(!is_digit('"'));
            lemma_sub_sub(s, i, l, 1, l - 1);
            assert(s.subrange(i, i + l).subrange(1, l - 1) =~= esc_str(t));
            assert(s[i + l - 1] == s.subrange(i, i + l)[l - 1]);
            assert(s[i + l - 1] == '"');
            lemma_parse_esc(t, s, i + 1);
        },
    }
}


/// The first character of an encoded element is never whitespace nor a
/// bracket.
proof fn lemma_encode_op_first(op: OpView)
    ensures
        encode_op(op).len() >= 1,
        !is_ws(encode_op(op)[0]),
        encode_op(op)[0] != ']',
        encode_op(op)[0] != '[',
{
    match op {
        OpView::Retain(n) => {
            lemma_dec_digits_shape(n);
            assert(is_digit(encode_op(op)[0]));
        },
        OpView::Delete(n) => {
            lemma_dec_digits_shape(n);
            assert(encode_op(op)[0] == '-');
        },
        OpView::Insert(t) => {
            assert(encode_op(op) == seq!['"'] + esc_str(t) + seq!['"']);
            assert(encode_op(op)[0] == '"');
        },
    }
}

/// Encoded elements, separated by commas and closed by a bracket, parse
/// back to the primitives.
proof fn lemma_parse_items_enc(ops: Seq<OpView>, s: Seq<char>, i: int)
    requires
        ops.len() >= 1,
        forall|k: int| 0 <= k < ops.len() ==> op_bounded(#[trigger] ops[k]),
        0 <= i,
        i + encode_items(ops).len() < s.len(),
        s.subrange(i, i + encode_items(ops).len()) == encode_items(ops),
        s[i + encode_items(ops).len()] == ']',
    ensures
        parse_items(s, i) == Some((ops, i + encode_items(ops).len() + 1)),
    decreases ops.len(),
{
    let l = encode_items(ops).len() as int;
    let op0 = ops[0];
    let e0 = encode_op(op0);
    let l0 = e0.len() as int;
    assert(op_bounded(ops[0]));
    if ops.len() == 1 {
        assert(encode_items(ops) == e0);
        lemma_parse_elem_enc(op0, s, i);
        assert(!is_ws(']'));
        assert(ws_end(s, i + l0) == i + l0);
        assert(parse_items(s, i) == Some((seq![op0], i + l0 + 1)));
        assert(seq![op0] =~= ops);
    } else {
        let rest = ops.drop_first();
        let li = encode_items(rest).len() as int;
        assert(encode_items(ops) == e0 + seq![','] + encode_items(rest));
        assert(l == l0 + 1 + li);
        lemma_sub_sub(s, i, l, 0, l0);
        assert(s.subrange(i, i + l).subrange(0, l0) =~= e0);
        assert(s[i + l0] == s.subrange(i, i + l)[l0]);
        assert(encode_items(ops)[l0] == ',');
        assert(!is_digit(','));
        lemma_parse_elem_enc(op0, s, i);
        assert(!is_ws(','));
        assert(ws_end(s, i + l0) == i + l0);
        let m = i + l0 + 1;
        assert(s[m] == s.subrange(i, i + l)[l0 + 1]);
        assert(encode_items(ops)[l0 + 1] == encode_items(rest)[0]);
        assert(encode_items(rest) == encode_op(rest[0]) + seq![','] + encode_items(
            rest.drop_first(),
        ) || encode_items(rest) == encode_op(rest[0]));
        assert(encode_items(rest)[0] == encode_op(rest[0])[0]);
        lemma_encode_op_first(rest[0]);
        assert(!is_ws(s[m]));
        assert(ws_end(s, m) == m);
        lemma_sub_sub(s, i, l, l0 + 1, l);
        assert(s.subrange(i, i + l).subrange(l0 + 1, l) =~= encode_items(rest));
        assert(s[m + li] == ']');
        assert forall|k: int| 0 <= k < rest.len() implies op_bounded(#[trigger] rest[k]) by {
            assert(rest[k] == ops[k + 1]);
            assert(op_bounded(ops[k + 1]));
        }
        lemma_parse_items_enc(rest, s, m);
        assert(parse_items(s, i) == Some((seq![op0] + rest, m + li + 1)));
        assert(seq![op0] + rest =~= ops);
    }
}

/// The wire round trip at the grammar level: an encoded sequence of
/// primitives parses back to exactly that sequence.
pub proof fn lemma_parse_encode(ops: Seq<OpView>)
    requires
        forall|k: int| 0 <= k < ops.len() ==> op_bounded(#[trigger] ops[k]),
    ensures
        parse_wire(encode_wire(ops)) == Some(ops),
{
    let s = encode_wire(ops);
    let items = encode_items(ops);
    let l = items.len() as int;
    assert(s == seq!['['] + items + seq![']']);
    assert(s.len() == l + 2);
    assert(s[0] == '[');
    assert(!is_ws('['));
    assert(ws_end(s, 0) == 0);
    if ops.len() == 0 {
        assert(l == 0);
        assert(s[1] == ']');
        assert(!is_ws(']'));
        assert(ws_end(s, 1) == 1);
        assert(ws_end(s, 2) == 2);
    } else {
        assert(s[1] == items[0]);
        assert(items == encode_op(ops[0]) + seq![','] + encode_items(ops.drop_first()) || items
            == encode_op(ops[0]));
        assert(items[0] == encode_op(ops[0])[0]);
        lemma_encode_op_first(ops[0]);
        assert(!is_ws(s[1]));
        assert(ws_end(s, 1) == 1);
        assert(s[1] != ']');
        assert(s.subrange(1, 1 + l) =~= items);
        assert(s[1 + l] == ']');
        lemma_parse_items_enc(ops, s, 1);
        assert(parse_items(s, 1) == Some((ops, l + 2)));
        assert(ws_end(s, l + 2) == l + 2);
    }
}

impl TextOperation {
    /// Encode the edit for the wire: a canonical edit encodes to a
    /// canonical array.
    pub fn encode(&self) -> (r: String)
        ensures
            r@ == encode_wire(self@),
    {
        proof {
            reveal_strlit("[");
            reveal_strlit("]");
            reveal_strlit(",");
            reveal_strlit("-");
            reveal_strlit("\"");
        }
        let ghost va = self@;
        let mut out = String::new();
        out.append("[");
        proof {
            assert(out@ =~= seq!['[']);
        }
        let mut i: usize = 0;
        proof {
            assert(va.skip(0) =~= va);
        }
        while i < self.ops.len()
            invariant
                va == self@,
                va.len() == self.ops.len(),
                i <= self.ops.len(),
                out@ + encode_items(va.skip(i as int)) + seq![']'] == encode_wire(va),
            decreases self.ops.len() - i,
        {
            let ghost rem = va.skip(i as int);
            let ghost out0 = out@;
            proof {
                assert(rem[0] == va[i as int]);
                assert(rem.drop_first() =~= va.skip(i + 1));
                assert(va[i as int] == self.ops@[i as int]@);
            }
            match &self.ops[i] {
                Operation::Retain(n) => {
                    push_digits(&mut out, *n);
                    proof {
                        assert(out@ =~= out0 + encode_op(rem[0]));
                    }
                },
                Operation::Delete(n) => {
                    out.append("-");
                    push_digits(&mut out, *n);
                    proof {
                        reveal_strlit("-");
                        assert(out@ =~= out0 + encode_op(rem[0]));
                    }
                },
                Operation::Insert(t) => {
                    out.append("\"");
                    push_escaped(&mut out, t);
                    out.append("\"");
                    proof {
                        reveal_strlit("\"");
                        assert(out@ =~= out0 + encode_op(rem[0]));
                    }
                },
            }
            if i + 1 < self.ops.len() {
                out.append(",");
                proof {
                    reveal_strlit(",");
                    assert(encode_items(rem) == encode_op(rem[0]) + seq![','] + encode_items(
                        rem.drop_first(),
                    ));
                    assert(out@ + encode_items(va.skip(i + 1)) + seq![']'] =~= out0
                        + encode_items(rem) + seq![']']);
                }
            } else {
                proof {
                    assert(rem.len() == 1);
                    assert(encode_items(rem) == encode_op(rem[0]));
                    assert(va.skip(i + 1) =~= Seq::<OpView>::empty());
                    assert(out@ + encode_items(va.skip(i + 1)) + seq![']'] =~= out0
                        + encode_items(rem) + seq![']']);
                }
            }
            i = i + 1;
        }
        out.append("]");
        proof {
            reveal_strlit("]");
            assert(va.skip(va.len() as int) =~= Seq::<OpView>::empty());
            assert(encode_items(Seq::<OpView>::empty()) == Seq::<char>::empty());
            assert(out@ =~= encode_wire(va));
        }
        out
    }

    /// Decode a wire form: every element is fed through the builder, so a
    /// non-canonical encoding — zero runs, adjacent runs of one variant,
    /// a delete before an insert — decodes to the canonical edit. Nothing
    /// is returned exactly when the text does not parse, or when a sum of
    /// runs would not fit in `usize`.
    #[verifier::rlimit(100)]
    #[verifier::spinoff_prover]
    pub fn decode(s: &str) -> (r: Option<TextOperation>)
        ensures
            match r {
                Some(o) => {
                    &&& parse_wire(s@) is Some
                    &&& o.well_formed()
                    &&& o@ == build_ops(parse_wire(s@)->0)
                    &&& o.base_len == sum_base(parse_wire(s@)->0)
                    &&& o.target_len == sum_target(parse_wire(s@)->0)
                },
                None => parse_wire(s@) is None || sum_base(parse_wire(s@)->0) > usize::MAX
                    || sum_target(parse_wire(s@)->0) > usize::MAX,
            },
    {
        let n = s.unicode_len();
        let i = skip_ws(s, 0);
        if i >= n {
            return None;
        }
        if s.get_char(i) != '[' {
            return None;
        }
        let j = skip_ws(s, i + 1);
        if j < n && s.get_char(j) == ']' {
            let k = skip_ws(s, j + 1);
            if k == n {
                let o = TextOperation::default();
                proof {
                    assert(parse_wire(s@) == Some(Seq::<OpView>::empty()));
                    assert(build_ops(Seq::<OpView>::empty()) == Seq::<OpView>::empty());
                }
                return Some(o);
            } else {
                return None;
            }
        }
        let ghost start = j as int;
        let mut pos = j;
        let mut o = TextOperation::default();
        let ghost mut done: Seq<OpView> = Seq::empty();
        proof {
            assert(parse_wire(s@) == (match parse_items(s@, start) {
                Some(q) => if ws_end(s@, q.1) == s@.len() {
                    Some(q.0)
                } else {
                    None
                },
                None => None,
            }));
            assert(build_ops(Seq::<OpView>::empty()) == Seq::<OpView>::empty());
            match parse_items(s@, start) {
                Some(q) => {
                    assert(Seq::<OpView>::empty() + q.0 =~= q.0);
                },
                None => {},
            }
        }
        loop
            invariant
                n == s@.len(),
                pos <= n,
                o.well_formed(),
                o@ == build_ops(done),
                o.base_len == sum_base(done),
                o.target_len == sum_target(done),
                parse_wire(s@) == (match parse_items(s@, start) {
                    Some(q) => if ws_end(s@, q.1) == s@.len() {
                        Some(q.0)
                    } else {
                        None
                    },
                    None => None,
                }),
                match parse_items(s@, pos as int) {
                    Some(q) => parse_items(s@, start) == Some((done + q.0, q.1)),
                    None => parse_items(s@, start) is None,
                },
            decreases n - pos,
        {
            let ghost done0 = done;
            match parse_elem_x(s, pos) {
                None => {
                    proof {
                        assert(parse_items(s@, pos as int) is None);
                    }
                    return None;
                },
                Some((op, e)) => {
                    let ghost opv = op@;
                    let k2 = skip_ws(s, e);
                    let ob: usize = match &op {
                        Operation::Retain(x) => *x,
                        Operation::Delete(x) => *x,
                        Operation::Insert(_) => 0,
                    };
                    let ot: usize = match &op {
                        Operation::Retain(x) => *x,
                        Operation::Delete(_) => 0,
                        Operation::Insert(t) => t.as_str().unicode_len(),
                    };
                    proof {
                        assert(ob == op_base(opv));
                        assert(ot == op_target(opv));
                    }
                    if ob > usize::MAX - o.base_len || ot > usize::MAX - o.target_len {
                        proof {
                            match parse_items(s@, pos as int) {
                                Some(q) => {
                                    assert(q.0[0] == opv);
                                    assert(q.0.len() >= 1);
                                    assert(sum_base(q.0) == op_base(opv) + sum_base(
                                        q.0.drop_first(),
                                    ));
                                    assert(sum_target(q.0) == op_target(opv) + sum_target(
                                        q.0.drop_first(),
                                    ));
                                    let total = done0 + q.0;
                                    lemma_sums_split(total, done0.len() as int);
                                    assert(total.take(done0.len() as int) =~= done0);
                                    assert(total.skip(done0.len() as int) =~= q.0);
                                },
                                None => {},
                            }
                        }
                        return None;
                    }
                    o.add(op);
                    proof {
                        lemma_build_from_push(Seq::empty(), done0, opv);
                        lemma_sums_push(done0, opv);
                        done = done0.push(opv);
                    }
                    if k2 < n && s.get_char(k2) == ',' {
                        let m = skip_ws(s, k2 + 1);
                        if m <= pos {
                            proof {
                                assert(parse_items(s@, pos as int) is None);
                            }
                            return None;
                        }
                        proof {
                            match parse_items(s@, m as int) {
                                Some(q2) => {
                                    assert(parse_items(s@, pos as int) == Some((
                                        seq![opv] + q2.0,
                                        q2.1,
                                    )));
                                    assert(done0 + (seq![opv] + q2.0) =~= done + q2.0);
                                },
                                None => {
                                    assert(parse_items(s@, pos as int) is None);
                                },
                            }
                        }
                        pos = m;
                    } else if k2 < n && s.get_char(k2) == ']' {
                        proof {
                            assert(parse_items(s@, pos as int) == Some((seq![opv], k2 + 1)));
                            assert(done0 + seq![opv] =~= done);
                        }
                        let k3 = skip_ws(s, k2 + 1);
                        if k3 == n {
                            proof {
                                assert(parse_wire(s@) == Some(done));
                            }
                            return Some(o);
                        } else {
                            return None;
                        }
                    } else {
                        proof {
                            assert(parse_items(s@, pos as int) is None);
                        }
                        return None;
                    }
                },
            }
        }
    }

}

} // verus!
