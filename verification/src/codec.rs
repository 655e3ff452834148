//! The on-disk document format for the persistent state.
//!
//! The state file holds a small, fixed JSON shape; this module writes and
//! reads it directly, character by character. Writing is canonical — fixed
//! field order, no whitespace. Reading is strict: it accepts exactly the
//! canonical shape, rejects unknown or reordered fields, and re-validates
//! every branch name, so a corrupt or downgraded file can never smuggle an
//! invalid name into the model. Parsing what was written returns exactly
//! the value that was given, which is proved below.

use vstd::prelude::*;
use vstd::string::*;

use crate::branch_name::{is_control_char, valid_branch_name, BranchName};
use crate::errors::Error;
use crate::stack::{BranchRec, Stack, StackBranch};
use crate::text::{chars_of, push_char};

verus! {

/// A text that can stand between quotes unescaped: no quote, no backslash,
/// no control character.
pub open spec fn json_str_ok(s: Seq<char>) -> bool {
    forall|i: int| 0 <= i < s.len()
        ==> (#[trigger] s[i]) != '"' && s[i] != '\\' && !is_control_char(s[i])
}

/// A valid branch name needs no escaping: quotes and backslashes are
/// banned as shell metacharacters, control characters outright.
pub proof fn lemma_valid_name_json_ok(s: Seq<char>)
    requires
        valid_branch_name(s),
    ensures
        json_str_ok(s),
{
    assert forall|i: int| 0 <= i < s.len()
        implies (#[trigger] s[i]) != '"' && s[i] != '\\' && !is_control_char(s[i]) by {
        assert(crate::branch_name::char_ok(s, i));
    }
}

/// The decimal digits of a number, most significant first.
pub open spec fn dec_digits(n: nat) -> Seq<char>
    decreases n,
{
    if n < 10 {
        seq![digit_char(n)]
    } else {
        dec_digits(n / 10) + seq![digit_char(n % 10)]
    }
}

/// The character for one decimal digit.
pub open spec fn digit_char(d: nat) -> char {
    if d == 0 { '0' }
    else if d == 1 { '1' }
    else if d == 2 { '2' }
    else if d == 3 { '3' }
    else if d == 4 { '4' }
    else if d == 5 { '5' }
    else if d == 6 { '6' }
    else if d == 7 { '7' }
    else if d == 8 { '8' }
    else { '9' }
}

/// Append the decimal rendering of a number.
pub(crate) fn push_u64(out: &mut String, n: u64)
    ensures
        final(out)@ == old(out)@ + dec_digits(n as nat),
    decreases n,
{
    if n < 10 {
        let c: char = match n {
            0 => '0',
            1 => '1',
            2 => '2',
            3 => '3',
            4 => '4',
            5 => '5',
            6 => '6',
            7 => '7',
            8 => '8',
            _ => '9',
        };
        push_char(out, c);
        proof {
            assert(c == digit_char(n as nat));
            assert(old(out)@.push(c) =~= old(out)@ + seq![c]);
        }
    } else {
        push_u64(out, n / 10);
        let d = n % 10;
        let c: char = match d {
            0 => '0',
            1 => '1',
            2 => '2',
            3 => '3',
            4 => '4',
            5 => '5',
            6 => '6',
            7 => '7',
            8 => '8',
            _ => '9',
        };
        push_char(out, c);
        proof {
            assert(c == digit_char(n as nat % 10));
            assert((old(out)@ + dec_digits(n as nat / 10)).push(c)
                =~= old(out)@ + (dec_digits(n as nat / 10) + seq![c]));
        }
    }
}

/// The document text for one stack entry.
pub open spec fn branch_json(b: BranchRec) -> Seq<char> {
    "{\"name\":\""@ + b.name + "\",\"parent\":"@
        + (match b.parent {
            None => "null"@,
            Some(p) => seq!['"'] + p + seq!['"'],
        })
        + ",\"pr\":"@
        + (match b.pr {
            None => "null"@,
            Some(n) => dec_digits(n as nat),
        })
        + seq!['}']
}

/// The document text for a list of entries, comma-separated.
pub open spec fn branches_json(s: Seq<BranchRec>) -> Seq<char>
    decreases s.len(),
{
    if s.len() == 0 {
        Seq::empty()
    } else if s.len() == 1 {
        branch_json(s[0])
    } else {
        branch_json(s[0]) + seq![','] + branches_json(s.drop_first())
    }
}

/// The document text for a whole stack.
pub open spec fn stack_json(s: Seq<BranchRec>) -> Seq<char> {
    "{\"branches\":["@ + branches_json(s) + "]}"@
}

/// Append one entry's document text.
fn write_branch(out: &mut String, b: &StackBranch)
    ensures
        final(out)@ == old(out)@ + branch_json(b@),
{
    out.append("{\"name\":\"");
    out.append(b.name.as_str());
    out.append("\",\"parent\":");
    match &b.parent {
        None => out.append("null"),
        Some(p) => {
            push_char(out, '"');
            proof {
                assert(out@ =~= old(out)@ + "{\"name\":\""@ + b@.name + "\",\"parent\":"@
                    + seq!['"']);
            }
            out.append(p.as_str());
            push_char(out, '"');
        },
    }
    out.append(",\"pr\":");
    match b.pr {
        None => out.append("null"),
        Some(n) => push_u64(out, n),
    }
    push_char(out, '}');
    proof {
        assert(final(out)@ =~= old(out)@ + branch_json(b@));
    }
}

/// Serialize a stack to its document text: the entries in order, each with
/// its name, parent and pull-request number.
pub fn serialize_stack(stack: &Stack) -> (r: String)
    ensures
        r@ == stack_json(stack@),
{
    let ghost s = stack@;
    let mut out = String::from_str("{\"branches\":[");
    let n = stack.branches.len();
    let mut i: usize = 0;
    while i < n
        invariant
            i <= n,
            n == s.len(),
            s == stack@,
            out@ == "{\"branches\":["@ + branches_json(s.subrange(0, i as int))
                + (if 0 < i < s.len() { seq![','] } else { Seq::<char>::empty() }),
        decreases n - i,
    {
        write_branch(&mut out, &stack.branches[i]);
        proof {
            lemma_branches_json_snoc(s, i as int);
        }
        if i + 1 < n {
            push_char(&mut out, ',');
            proof {
                assert(out@ =~= "{\"branches\":["@ + branches_json(s.subrange(0, i + 1))
                    + seq![',']);
            }
        } else {
            proof {
                assert(out@ =~= "{\"branches\":["@ + branches_json(s.subrange(0, i + 1)));
            }
        }
        i += 1;
    }
    out.append("]}");
    proof {
        assert(s.subrange(0, n as int) =~= s);
        assert(out@ =~= stack_json(s));
    }
    out
}

/// Whether the expected literal stands at position `i`; the position after
/// it when it does.
pub open spec fn expect(s: Seq<char>, i: int, lit: Seq<char>) -> Option<int>
    decreases lit.len(),
{
    if lit.len() == 0 {
        Some(i)
    } else if 0 <= i < s.len() && s[i] == lit[0] {
        expect(s, i + 1, lit.drop_first())
    } else {
        None
    }
}

/// Position of the closing quote of string content starting at `i`, if the
/// content runs clean: no backslash, no control character.
pub open spec fn scan_string(s: Seq<char>, i: int) -> Option<int>
    decreases s.len() - i,
{
    if !(0 <= i < s.len()) {
        None
    } else if s[i] == '"' {
        Some(i)
    } else if s[i] == '\\' || is_control_char(s[i]) {
        None
    } else {
        scan_string(s, i + 1)
    }
}

/// A quoted string at position `i`: its content and the position after the
/// closing quote.
pub open spec fn parse_string(s: Seq<char>, i: int) -> Option<(Seq<char>, int)> {
    if 0 <= i < s.len() && s[i] == '"' {
        match scan_string(s, i + 1) {
            None => None,
            Some(e) => Some((s.subrange(i + 1, e), e + 1)),
        }
    } else {
        None
    }
}

/// Whether a character is a decimal digit.
pub open spec fn is_digit(c: char) -> bool {
    48 <= c as u32 <= 57
}

/// The value of one digit character.
pub open spec fn digit_val(c: char) -> nat {
    (c as u32 - 48) as nat
}

/// The end of the digit run starting at `i`.
pub open spec fn scan_digits(s: Seq<char>, i: int) -> int
    decreases s.len() - i,
{
    if 0 <= i < s.len() && is_digit(s[i]) {
        scan_digits(s, i + 1)
    } else {
        i
    }
}

/// The value of the digits `s[i..j)`.
pub open spec fn digits_val(s: Seq<char>, i: int, j: int) -> nat
    decreases j - i,
{
    if i >= j {
        0
    } else {
        digits_val(s, i, j - 1) * 10 + digit_val(s[j - 1])
    }
}

/// A number at position `i`: at most twenty digits, fitting a `u64`.
pub open spec fn parse_u64(s: Seq<char>, i: int) -> Option<(u64, int)> {
    let j = scan_digits(s, i);
    if j == i || j - i > 20 || digits_val(s, i, j) > u64::MAX {
        None
    } else {
        Some((digits_val(s, i, j) as u64, j))
    }
}

/// A quoted string or the literal `null`.
pub open spec fn parse_opt_string(s: Seq<char>, i: int) -> Option<(Option<Seq<char>>, int)> {
    if 0 <= i < s.len() && s[i] == '"' {
        match parse_string(s, i) {
            None => None,
            Some((v, i2)) => Some((Some(v), i2)),
        }
    } else {
        match expect(s, i, "null"@) {
            None => None,
            Some(i2) => Some((None, i2)),
        }
    }
}

/// A number or the literal `null`.
pub open spec fn parse_opt_u64(s: Seq<char>, i: int) -> Option<(Option<u64>, int)> {
    if 0 <= i < s.len() && is_digit(s[i]) {
        match parse_u64(s, i) {
            None => None,
            Some((v, i2)) => Some((Some(v), i2)),
        }
    } else {
        match expect(s, i, "null"@) {
            None => None,
            Some(i2) => Some((None, i2)),
        }
    }
}

/// One stack entry at position `i`: the three fields in their fixed order,
/// names re-validated. Anything else — an unknown field, a different
/// order, an invalid name — fails the parse.
pub open spec fn parse_branch(s: Seq<char>, i: int) -> Option<(BranchRec, int)> {
    match expect(s, i, "{\"name\":"@) {
        None => None,
        Some(i1) => match parse_string(s, i1) {
            None => None,
            Some((name, i2)) => if !valid_branch_name(name) {
                None
            } else {
                match expect(s, i2, ",\"parent\":"@) {
                    None => None,
                    Some(i3) => match parse_opt_string(s, i3) {
                        None => None,
                        Some((parent, i4)) => if match parent {
                            Some(p) => !valid_branch_name(p),
                            None => false,
                        } {
                            None
                        } else {
                            match expect(s, i4, ",\"pr\":"@) {
                                None => None,
                                Some(i5) => match parse_opt_u64(s, i5) {
                                    None => None,
                                    Some((pr, i6)) => match expect(s, i6, "}"@) {
                                        None => None,
                                        Some(i7) => Some((BranchRec { name, parent, pr },
                                            i7)),
                                    },
                                },
                            }
                        },
                    },
                }
            },
        },
    }
}

/// A parsed entry stands after its position.
proof fn lemma_parse_branch_progress(s: Seq<char>, i: int)
    ensures
        match parse_branch(s, i) {
            None => true,
            Some((b, i2)) => i < i2 <= s.len(),
        },
{
    lemma_expect_bounds(s, i, "{\"name\":"@);
    match expect(s, i, "{\"name\":"@) {
        None => {},
        Some(i1) => {
            lemma_parse_string_bounds(s, i1);
            match parse_string(s, i1) {
                None => {},
                Some((name, i2)) => {
                    lemma_expect_bounds(s, i2, ",\"parent\":"@);
                    match expect(s, i2, ",\"parent\":"@) {
                        None => {},
                        Some(i3) => {
                            lemma_parse_opt_string_bounds(s, i3);
                            match parse_opt_string(s, i3) {
                                None => {},
                                Some((parent, i4)) => {
                                    lemma_expect_bounds(s, i4, ",\"pr\":"@);
                                    match expect(s, i4, ",\"pr\":"@) {
                                        None => {},
                                        Some(i5) => {
                                            lemma_parse_opt_u64_bounds(s, i5);
                                            match parse_opt_u64(s, i5) {
                                                None => {},
                                                Some((pr, i6)) => {
                                                    lemma_expect_bounds(s, i6, "}"@);
                                                },
                                            }
                                        },
                                    }
                                },
                            }
                        },
                    }
                },
            }
        },
    }
}

/// A matched literal advances by its length, staying inside the text.
pub proof fn lemma_expect_bounds(s: Seq<char>, i: int, lit: Seq<char>)
    ensures
        match expect(s, i, lit) {
            None => true,
            Some(i2) => i2 == i + lit.len() && (lit.len() > 0 ==> 0 <= i && i2 <= s.len()),
        },
    decreases lit.len(),
{
    if lit.len() > 0 && 0 <= i < s.len() && s[i] == lit[0] {
        lemma_expect_bounds(s, i + 1, lit.drop_first());
    }
}

/// A scanned string ends inside the text.
proof fn lemma_scan_string_bounds(s: Seq<char>, i: int)
    ensures
        match scan_string(s, i) {
            None => true,
            Some(e) => i <= e < s.len() && s[e] == '"',
        },
    decreases s.len() - i,
{
    if 0 <= i < s.len() && s[i] != '"' && s[i] != '\\' && !is_control_char(s[i]) {
        lemma_scan_string_bounds(s, i + 1);
    }
}

/// A parsed string advances past both quotes.
proof fn lemma_parse_string_bounds(s: Seq<char>, i: int)
    ensures
        match parse_string(s, i) {
            None => true,
            Some((v, i2)) => i + 2 <= i2 <= s.len(),
        },
{
    lemma_scan_string_bounds(s, i + 1);
}

/// A digit run ends inside the text.
proof fn lemma_scan_digits_bounds(s: Seq<char>, i: int)
    ensures
        i <= scan_digits(s, i),
        0 <= i <= s.len() ==> scan_digits(s, i) <= s.len(),
    decreases s.len() - i,
{
    if 0 <= i < s.len() && is_digit(s[i]) {
        lemma_scan_digits_bounds(s, i + 1);
    }
}

/// A parsed number advances.
proof fn lemma_parse_u64_bounds(s: Seq<char>, i: int)
    ensures
        match parse_u64(s, i) {
            None => true,
            Some((v, i2)) => i < i2 && (0 <= i <= s.len() ==> i2 <= s.len()),
        },
{
    lemma_scan_digits_bounds(s, i);
}

/// A parsed optional string advances.
proof fn lemma_parse_opt_string_bounds(s: Seq<char>, i: int)
    ensures
        match parse_opt_string(s, i) {
            None => true,
            Some((v, i2)) => i < i2 <= s.len(),
        },
{
    lemma_parse_string_bounds(s, i);
    lemma_expect_bounds(s, i, "null"@);
    reveal_strlit("null");
}

/// A parsed optional number advances.
proof fn lemma_parse_opt_u64_bounds(s: Seq<char>, i: int)
    ensures
        match parse_opt_u64(s, i) {
            None => true,
            Some((v, i2)) => i < i2 <= s.len(),
        },
{
    if 0 <= i < s.len() && is_digit(s[i]) {
        lemma_parse_u64_bounds(s, i);
    } else {
        lemma_expect_bounds(s, i, "null"@);
        reveal_strlit("null");
    }
}

/// The entries of the list from position `i` up to the closing bracket:
/// one entry, then either the bracket or a comma and more entries.
pub open spec fn parse_items(s: Seq<char>, i: int) -> Option<(Seq<BranchRec>, int)>
    decreases s.len() - i,
    via parse_items_decreases
{
    match parse_branch(s, i) {
        None => None,
        Some((b, i2)) => match expect(s, i2, "]"@) {
            Some(e) => Some((seq![b], e)),
            None => match expect(s, i2, ","@) {
                None => None,
                Some(i3) => match parse_items(s, i3) {
                    None => None,
                    Some((rest, i4)) => Some((seq![b] + rest, i4)),
                },
            },
        },
    }
}

#[via_fn]
proof fn parse_items_decreases(s: Seq<char>, i: int) {
    lemma_parse_branch_progress(s, i);
    match parse_branch(s, i) {
        None => {},
        Some((b, i2)) => {
            lemma_expect_bounds(s, i2, "]"@);
            lemma_expect_bounds(s, i2, ","@);
            reveal_strlit("]");
            reveal_strlit(",");
        },
    }
}

/// A whole stack document: the fixed frame, the entries, and nothing after
/// the closing brace.
pub open spec fn parse_stack_doc(s: Seq<char>) -> Option<Seq<BranchRec>> {
    match expect(s, 0, "{\"branches\":["@) {
        None => None,
        Some(i1) => match expect(s, i1, "]"@) {
            Some(i2) => match expect(s, i2, "}"@) {
                Some(i3) => if i3 == s.len() {
                    Some(Seq::empty())
                } else {
                    None
                },
                None => None,
            },
            None => match parse_items(s, i1) {
                None => None,
                Some((recs, i2)) => match expect(s, i2, "}"@) {
                    Some(i3) => if i3 == s.len() {
                        Some(recs)
                    } else {
                        None
                    },
                    None => None,
                },
            },
        },
    }
}

/// Ten to the given power.
pub open spec fn pow10(n: int) -> int
    decreases n,
{
    if n <= 0 {
        1
    } else {
        10 * pow10(n - 1)
    }
}

/// A digit run's value is bounded by ten to its length.
proof fn lemma_digits_val_bound(s: Seq<char>, i: int, j: int)
    requires
        forall|k: int| i <= k < j ==> is_digit(#[trigger] s[k]),
    ensures
        0 <= digits_val(s, i, j) < pow10(j - i) || j <= i,
    decreases j - i,
{
    if i < j {
        lemma_digits_val_bound(s, i, j - 1);
        assert(is_digit(s[j - 1]));
        assert(digit_val(s[j - 1]) <= 9);
    }
}

/// Match a literal at position `i`.
pub(crate) fn e_expect(v: &Vec<char>, i: usize, lit: &str) -> (r: Option<usize>)
    requires
        i <= v@.len(),
    ensures
        match r {
            Some(i2) => expect(v@, i as int, lit@) == Some(i2 as int) && i2 <= v@.len(),
            None => expect(v@, i as int, lit@) is None,
        },
{
    let l = chars_of(lit);
    let m = l.len();
    let mut k: usize = 0;
    proof {
        assert(lit@.skip(0) =~= lit@);
    }
    while k < m
        invariant
            k <= m,
            m == lit@.len(),
            l@ == lit@,
            i <= v@.len(),
            i + k <= v@.len(),
            expect(v@, i as int, lit@) == expect(v@, i + k as int, lit@.skip(k as int)),
        decreases m - k,
    {
        proof {
            assert(lit@.skip(k as int)[0] == lit@[k as int]);
            assert(lit@.skip(k as int).drop_first() =~= lit@.skip(k + 1 as int));
        }
        if v.len() - i <= k {
            return None;
        }
        if v[i + k] != l[k] {
            return None;
        }
        k += 1;
    }
    let n = v.len();
    proof {
        assert(lit@.skip(m as int) =~= Seq::<char>::empty());
        assert(i + m <= n);
    }
    Some(i + m)
}

/// Find the closing quote of string content starting at `i`.
fn e_scan_string(v: &Vec<char>, i: usize) -> (r: Option<usize>)
    requires
        i <= v@.len(),
    ensures
        match r {
            Some(e) => scan_string(v@, i as int) == Some(e as int) && e < v@.len(),
            None => scan_string(v@, i as int) is None,
        },
{
    let mut j = i;
    while j < v.len()
        invariant
            i <= j <= v@.len(),
            scan_string(v@, i as int) == scan_string(v@, j as int),
        decreases v@.len() - j,
    {
        let c = v[j];
        if c == '"' {
            return Some(j);
        }
        if c == '\\' || (c as u32) < 32 || c as u32 == 127 {
            return None;
        }
        j += 1;
    }
    None
}

/// The characters `v[a..b)`.
fn copy_range(v: &Vec<char>, a: usize, b: usize) -> (r: Vec<char>)
    requires
        a <= b <= v@.len(),
    ensures
        r@ == v@.subrange(a as int, b as int),
{
    let mut r: Vec<char> = Vec::new();
    let mut k = a;
    while k < b
        invariant
            a <= k <= b <= v@.len(),
            r@ == v@.subrange(a as int, k as int),
        decreases b - k,
    {
        r.push(v[k]);
        assert(r@ =~= v@.subrange(a as int, k + 1 as int));
        k += 1;
    }
    r
}

/// Parse a quoted string at position `i`.
fn e_parse_string(v: &Vec<char>, i: usize) -> (r: Option<(Vec<char>, usize)>)
    requires
        i <= v@.len(),
    ensures
        match r {
            Some((content, i2)) => parse_string(v@, i as int)
                == Some((content@, i2 as int)) && i2 <= v@.len(),
            None => parse_string(v@, i as int) is None,
        },
{
    if i >= v.len() || v[i] != '"' {
        return None;
    }
    match e_scan_string(v, i + 1) {
        None => None,
        Some(e) => {
            proof {
                lemma_scan_string_bounds(v@, i + 1 as int);
            }
            let content = copy_range(v, i + 1, e);
            Some((content, e + 1))
        },
    }
}

/// Parse a number at position `i`: at most twenty digits, fitting a `u64`.
fn e_parse_u64(v: &Vec<char>, i: usize) -> (r: Option<(u64, usize)>)
    requires
        i <= v@.len(),
    ensures
        match r {
            Some((n, i2)) => parse_u64(v@, i as int) == Some((n, i2 as int))
                && i2 <= v@.len(),
            None => parse_u64(v@, i as int) is None,
        },
{
    let mut j = i;
    while j < v.len()
        invariant
            i <= j <= v@.len(),
            scan_digits(v@, i as int) == scan_digits(v@, j as int),
            forall|k: int| i <= k < j ==> is_digit(#[trigger] v@[k]),
        ensures
            j == v@.len() || !is_digit(v@[j as int]),
        decreases v@.len() - j,
    {
        let cu = v[j] as u32;
        if !(48 <= cu && cu <= 57) {
            proof {
                assert(!is_digit(v@[j as int]));
            }
            break;
        }
        proof {
            assert(is_digit(v@[j as int]));
        }
        j += 1;
    }
    proof {
        assert(scan_digits(v@, j as int) == j);
    }
    if j == i || j - i > 20 {
        return None;
    }
    let ghost s = v@;
    let mut acc: u128 = 0;
    let mut k = i;
    proof {
        reveal_with_fuel(pow10, 22);
        lemma_digits_val_bound(s, i as int, j as int);
    }
    while k < j
        invariant
            i <= k <= j <= v@.len(),
            s == v@,
            j - i <= 20,
            forall|t: int| i <= t < j ==> is_digit(#[trigger] s[t]),
            acc == digits_val(s, i as int, k as int),
            acc < 0x10000000000000000000000000000i128 as u128,
        decreases j - k,
    {
        proof {
            lemma_digits_val_bound(s, i as int, k as int);
            reveal_with_fuel(pow10, 22);
            assert(pow10(k - i) <= pow10(20)) by {
                lemma_pow10_mono(k - i, 20);
            }
        }
        let c = v[k];
        let d: u128 = (c as u32 - 48) as u128;
        proof {
            assert(is_digit(s[k as int]));
            assert(d == digit_val(s[k as int]));
            assert(d <= 9);
        }
        acc = acc * 10 + d;
        k += 1;
    }
    if acc > u64::MAX as u128 {
        return None;
    }
    Some((acc as u64, j))
}

/// Ten-to-the-power is monotone.
proof fn lemma_pow10_mono(a: int, b: int)
    requires
        a <= b,
    ensures
        pow10(a) <= pow10(b),
        pow10(a) >= 1,
    decreases b - a,
{
    if a < b {
        lemma_pow10_mono(a, b - 1);
    } else {
        lemma_pow10_pos(a);
    }
}

/// Ten-to-the-power is positive.
proof fn lemma_pow10_pos(a: int)
    ensures
        pow10(a) >= 1,
    decreases a,
{
    if a > 0 {
        lemma_pow10_pos(a - 1);
    }
}

/// Parse a quoted string or `null` at position `i`, validating any string
/// as a branch name.
fn e_parse_name_or_null(v: &Vec<char>, i: usize) -> (r: Option<(Option<BranchName>, usize)>)
    requires
        i <= v@.len(),
    ensures
        match r {
            Some((b, i2)) => i2 <= v@.len() && match parse_opt_string(v@, i as int) {
                Some((c, e)) => e == i2 && (match (b, c) {
                    (Some(bn), Some(cs)) => bn@ == cs && valid_branch_name(cs),
                    (None, None) => true,
                    _ => false,
                }),
                None => false,
            },
            None => match parse_opt_string(v@, i as int) {
                Some((c, e)) => c matches Some(cs) && !valid_branch_name(cs),
                None => true,
            },
        },
{
    if i < v.len() && v[i] == '"' {
        match e_parse_string(v, i) {
            None => None,
            Some((content, i2)) => {
                let text = crate::text::string_of_chars(&content);
                match BranchName::new(text.as_str()) {
                    Ok(b) => Some((Some(b), i2)),
                    Err(_) => None,
                }
            },
        }
    } else {
        match e_expect(v, i, "null") {
            None => None,
            Some(i2) => Some((None, i2)),
        }
    }
}

/// Parse one stack entry at position `i`.
fn e_parse_branch(v: &Vec<char>, i: usize) -> (r: Option<(StackBranch, usize)>)
    requires
        i <= v@.len(),
    ensures
        match r {
            Some((b, i2)) => parse_branch(v@, i as int) == Some((b@, i2 as int))
                && i < i2 <= v@.len(),
            None => parse_branch(v@, i as int) is None,
        },
{
    proof {
        lemma_parse_branch_progress(v@, i as int);
    }
    let i1 = match e_expect(v, i, "{\"name\":") {
        None => {
            return None;
        },
        Some(x) => x,
    };
    let (name, i2) = match e_parse_string(v, i1) {
        None => {
            return None;
        },
        Some(x) => x,
    };
    let name_text = crate::text::string_of_chars(&name);
    let bn = match BranchName::new(name_text.as_str()) {
        Ok(b) => b,
        Err(_) => {
            return None;
        },
    };
    let i3 = match e_expect(v, i2, ",\"parent\":") {
        None => {
            return None;
        },
        Some(x) => x,
    };
    let (parent, i4) = match e_parse_name_or_null(v, i3) {
        None => {
            return None;
        },
        Some(x) => x,
    };
    let i5 = match e_expect(v, i4, ",\"pr\":") {
        None => {
            return None;
        },
        Some(x) => x,
    };
    let mut digit_next = false;
    if i5 < v.len() {
        let cu = v[i5] as u32;
        digit_next = 48 <= cu && cu <= 57;
    }
    proof {
        assert(digit_next == (i5 < v@.len() && is_digit(v@[i5 as int])));
    }
    let (pr, i6) = if digit_next {
        match e_parse_u64(v, i5) {
            None => {
                return None;
            },
            Some((n, x)) => (Some(n), x),
        }
    } else {
        match e_expect(v, i5, "null") {
            None => {
                return None;
            },
            Some(x) => (None, x),
        }
    };
    let i7 = match e_expect(v, i6, "}") {
        None => {
            return None;
        },
        Some(x) => x,
    };
    Some((StackBranch { name: bn, parent, pr }, i7))
}

/// Parse the list entries from position `i` through the closing bracket.
fn e_parse_items(v: &Vec<char>, i: usize) -> (r: Option<(Vec<StackBranch>, usize)>)
    requires
        i <= v@.len(),
    ensures
        match r {
            Some((items, i2)) => parse_items(v@, i as int)
                == Some((items@.map(|k: int, b: StackBranch| b@), i2 as int))
                && i2 <= v@.len(),
            None => parse_items(v@, i as int) is None,
        },
{
    let ghost s = v@;
    let mut items: Vec<StackBranch> = Vec::new();
    let mut cur = i;
    loop
        invariant
            cur <= s.len(),
            s == v@,
            i <= s.len(),
            (match parse_items(s, cur as int) {
                None => parse_items(s, i as int) is None,
                Some((rest, e)) => parse_items(s, i as int)
                    == Some((items@.map(|k: int, b: StackBranch| b@) + rest, e)),
            }),
        decreases s.len() - cur,
    {
        let (b, i2) = match e_parse_branch(v, cur) {
            None => {
                return None;
            },
            Some(x) => x,
        };
        proof {
            lemma_expect_bounds(s, i2 as int, "]"@);
            lemma_expect_bounds(s, i2 as int, ","@);
        }
        let ghost before = items@.map(|k: int, x: StackBranch| x@);
        match e_expect(v, i2, "]") {
            Some(e) => {
                items.push(b);
                proof {
                    assert(items@.map(|k: int, x: StackBranch| x@) =~= before.push(b@));
                    assert(parse_items(s, cur as int) == Some((seq![b@], e as int)));
                    assert(before + seq![b@] =~= before.push(b@));
                }
                return Some((items, e));
            },
            None => {
                let i3 = match e_expect(v, i2, ",") {
                    None => {
                        return None;
                    },
                    Some(x) => x,
                };
                items.push(b);
                proof {
                    assert(items@.map(|k: int, x: StackBranch| x@) =~= before.push(b@));
                    match parse_items(s, i3 as int) {
                        None => {},
                        Some((rest, e)) => {
                            assert(parse_items(s, cur as int)
                                == Some((seq![b@] + rest, e)));
                            assert(before + (seq![b@] + rest)
                                =~= (before + seq![b@]) + rest);
                            assert(before.push(b@) =~= before + seq![b@]);
                        },
                    }
                }
                cur = i3;
            },
        }
    }
}

/// Parse a stack document: the inverse of [`serialize_stack`] on
/// everything it writes, and a strict reader of anything else — a
/// document that deviates from the expected shape, holds an unknown
/// field, or names an invalid branch is reported as corrupted.
pub fn parse_stack(text: &str) -> (r: Result<Stack, Error>)
    ensures
        match r {
            Ok(st) => parse_stack_doc(text@) == Some(st@),
            Err(e) => parse_stack_doc(text@) is None && e matches Error::Corrupted(_),
        },
{
    let v = chars_of(text);
    let corrupt = "stack document does not have the expected shape";
    let i1 = match e_expect(&v, 0, "{\"branches\":[") {
        None => {
            return Err(Error::Corrupted(String::from_str(corrupt)));
        },
        Some(x) => x,
    };
    proof {
        lemma_expect_bounds(v@, i1 as int, "]"@);
    }
    match e_expect(&v, i1, "]") {
        Some(i2) => {
            let i3 = match e_expect(&v, i2, "}") {
                None => {
                    return Err(Error::Corrupted(String::from_str(corrupt)));
                },
                Some(x) => x,
            };
            if i3 != v.len() {
                return Err(Error::Corrupted(String::from_str(corrupt)));
            }
            let st = Stack { branches: Vec::new() };
            proof {
                assert(st@ =~= Seq::<BranchRec>::empty());
            }
            Ok(st)
        },
        None => {
            let (items, i2) = match e_parse_items(&v, i1) {
                None => {
                    return Err(Error::Corrupted(String::from_str(corrupt)));
                },
                Some(x) => x,
            };
            let i3 = match e_expect(&v, i2, "}") {
                None => {
                    return Err(Error::Corrupted(String::from_str(corrupt)));
                },
                Some(x) => x,
            };
            if i3 != v.len() {
                return Err(Error::Corrupted(String::from_str(corrupt)));
            }
            Ok(Stack { branches: items })
        },
    }
}

/// A literal standing at a position is matched there.
proof fn lemma_expect_at(s: Seq<char>, i: int, lit: Seq<char>)
    requires
        0 <= i,
        i + lit.len() <= s.len(),
        s.subrange(i, i + lit.len()) == lit,
    ensures
        expect(s, i, lit) == Some(i + lit.len()),
    decreases lit.len(),
{
    if lit.len() > 0 {
        assert(s[i] == s.subrange(i, i + lit.len())[0]);
        assert(s.subrange(i + 1, i + lit.len()) =~= lit.drop_first());
        lemma_expect_at(s, i + 1, lit.drop_first());
    }
}

/// Clean string content standing at a position scans to the quote after it.
proof fn lemma_scan_at(s: Seq<char>, i: int, content: Seq<char>)
    requires
        0 <= i,
        i + content.len() < s.len(),
        s.subrange(i, i + content.len()) == content,
        json_str_ok(content),
        s[i + content.len()] == '"',
    ensures
        scan_string(s, i) == Some(i + content.len()),
    decreases content.len(),
{
    if content.len() > 0 {
        assert(s[i] == s.subrange(i, i + content.len())[0]);
        assert(content[0] != '"' && content[0] != '\\' && !is_control_char(content[0]));
        assert(s.subrange(i + 1, i + content.len()) =~= content.drop_first());
        assert(json_str_ok(content.drop_first())) by {
            assert(forall|k: int| 0 <= k < content.len() - 1
                ==> (#[trigger] content.drop_first()[k]) == content[k + 1]);
        }
        lemma_scan_at(s, i + 1, content.drop_first());
    }
}

/// A quoted clean string standing at a position parses to its content.
proof fn lemma_parse_string_at(s: Seq<char>, i: int, content: Seq<char>)
    requires
        0 <= i,
        i + content.len() + 2 <= s.len(),
        s[i] == '"',
        s.subrange(i + 1, i + 1 + content.len()) == content,
        json_str_ok(content),
        s[i + 1 + content.len()] == '"',
    ensures
        parse_string(s, i) == Some((content, i + content.len() + 2)),
{
    lemma_scan_at(s, i + 1, content);
}

/// Every character of a decimal rendering is a digit.
proof fn lemma_dec_digits_digits(n: nat)
    ensures
        dec_digits(n).len() >= 1,
        forall|k: int| 0 <= k < dec_digits(n).len() ==> is_digit(#[trigger] dec_digits(n)[k]),
    decreases n,
{
    if n < 10 {
        assert(is_digit(digit_char(n)));
    } else {
        lemma_dec_digits_digits(n / 10);
        assert(is_digit(digit_char(n % 10)));
        assert forall|k: int| 0 <= k < dec_digits(n).len()
            implies is_digit(#[trigger] dec_digits(n)[k]) by {
            if k < dec_digits(n / 10).len() {
                assert(dec_digits(n)[k] == dec_digits(n / 10)[k]);
            }
        }
    }
}

/// A number below ten to the `k` renders in at most `k` digits.
proof fn lemma_dec_digits_len(n: nat, k: int)
    requires
        k >= 1,
        n < pow10(k),
    ensures
        dec_digits(n).len() <= k,
    decreases n,
{
    if n >= 10 {
        assert(pow10(k) == 10 * pow10(k - 1));
        assert(k >= 2) by {
            if k == 1 {
                assert(pow10(1) == 10);
            }
        }
        lemma_dec_digits_len(n / 10, k - 1);
    }
}

/// The value of a rendered digit is the digit.
proof fn lemma_digit_roundtrip(d: nat)
    requires
        d < 10,
    ensures
        digit_val(digit_char(d)) == d,
{
}

/// A decimal rendering standing at a position evaluates back to the number.
proof fn lemma_digits_val_at(s: Seq<char>, i: int, n: nat)
    requires
        0 <= i,
        i + dec_digits(n).len() <= s.len(),
        s.subrange(i, i + dec_digits(n).len()) == dec_digits(n),
    ensures
        digits_val(s, i, i + dec_digits(n).len()) == n,
    decreases n,
{
    let dd = dec_digits(n);
    if n < 10 {
        assert(s[i] == s.subrange(i, i + 1)[0]);
        lemma_digit_roundtrip(n);
        assert(digits_val(s, i, i + 1) == digits_val(s, i, i) * 10 + digit_val(s[i]));
    } else {
        let dh = dec_digits(n / 10);
        assert(dd == dh + seq![digit_char(n % 10)]);
        assert(s.subrange(i, i + dh.len()) =~= dh) by {
            assert(forall|t: int| 0 <= t < dh.len()
                ==> s.subrange(i, i + dd.len())[t] == (#[trigger] dd[t]));
        }
        lemma_digits_val_at(s, i, n / 10);
        assert(s[i + dd.len() - 1] == s.subrange(i, i + dd.len())[dd.len() - 1]);
        assert(s[i + dd.len() - 1] == digit_char(n % 10));
        lemma_digit_roundtrip(n % 10);
        assert(digits_val(s, i, i + dd.len())
            == digits_val(s, i, i + dd.len() - 1) * 10 + digit_val(s[i + dd.len() - 1]));
    }
}

/// A digit run bounded by a non-digit scans to its end.
proof fn lemma_scan_digits_at(s: Seq<char>, i: int, len: int)
    requires
        0 <= i,
        len >= 0,
        i + len <= s.len(),
        forall|k: int| i <= k < i + len ==> is_digit(#[trigger] s[k]),
        i + len == s.len() || !is_digit(s[i + len]),
    ensures
        scan_digits(s, i) == i + len,
    decreases len,
{
    if len > 0 {
        assert(is_digit(s[i]));
        lemma_scan_digits_at(s, i + 1, len - 1);
    }
}

/// A rendered number standing at a position, bounded by a non-digit,
/// parses back to the number.
proof fn lemma_parse_u64_at(s: Seq<char>, i: int, n: u64)
    requires
        0 <= i,
        i + dec_digits(n as nat).len() <= s.len(),
        s.subrange(i, i + dec_digits(n as nat).len()) == dec_digits(n as nat),
        i + dec_digits(n as nat).len() == s.len()
            || !is_digit(s[i + dec_digits(n as nat).len()]),
    ensures
        parse_u64(s, i) == Some((n, i + dec_digits(n as nat).len())),
{
    let dd = dec_digits(n as nat);
    lemma_dec_digits_digits(n as nat);
    assert(forall|k: int| i <= k < i + dd.len()
        ==> is_digit(#[trigger] s[k])) by {
        assert(forall|k: int| i <= k < i + dd.len()
            ==> (#[trigger] s[k]) == s.subrange(i, i + dd.len())[k - i]);
    }
    lemma_scan_digits_at(s, i, dd.len() as int);
    reveal_with_fuel(pow10, 22);
    lemma_dec_digits_len(n as nat, 20);
    lemma_digits_val_at(s, i, n as nat);
}

/// Validity of the names carries over to the tail of the list.
proof fn lemma_names_valid_drop_first(recs: Seq<BranchRec>)
    requires
        recs.len() > 0,
        stack_names_valid(recs),
    ensures
        stack_names_valid(recs.drop_first()),
{
    let rest = recs.drop_first();
    assert forall|k: int| 0 <= k < rest.len()
        implies valid_branch_name(#[trigger] rest[k].name) && (match rest[k].parent {
            Some(q) => valid_branch_name(q),
            None => true,
        }) by {
        assert(rest[k] == recs[k + 1]);
        assert(valid_branch_name(recs[k + 1].name));
        match recs[k + 1].parent {
            Some(q) => {
                assert(valid_branch_name(q));
            },
            None => {},
        }
    }
}

/// Every name in a stack is valid, parents included.
pub open spec fn stack_names_valid(s: Seq<BranchRec>) -> bool {
    forall|i: int| 0 <= i < s.len() ==> valid_branch_name(#[trigger] s[i].name)
        && (match s[i].parent {
            Some(p) => valid_branch_name(p),
            None => true,
        })
}

/// A subrange of a matched region reads through to the region's text.
proof fn lemma_sub_through(s: Seq<char>, i: int, len: int, a: int, b: int)
    requires
        0 <= i,
        0 <= a <= b <= len,
        i + len <= s.len(),
    ensures
        s.subrange(i + a, i + b) =~= s.subrange(i, i + len).subrange(a, b),
{
}

/// One character of a matched region reads through to the region's text.
proof fn lemma_char_through(s: Seq<char>, i: int, len: int, t: int)
    requires
        0 <= i,
        0 <= t < len,
        i + len <= s.len(),
    ensures
        s[i + t] == s.subrange(i, i + len)[t],
{
}

/// A serialized entry standing at a position parses back to the entry.
#[verifier::rlimit(100)]
proof fn lemma_parse_branch_at(s: Seq<char>, i: int, b: BranchRec)
    requires
        0 <= i,
        i + branch_json(b).len() <= s.len(),
        s.subrange(i, i + branch_json(b).len()) == branch_json(b),
        valid_branch_name(b.name),
        match b.parent {
            Some(p) => valid_branch_name(p),
            None => true,
        },
    ensures
        parse_branch(s, i) == Some((b, i + branch_json(b).len())),
{
    reveal_strlit("{\"name\":\"");
    reveal_strlit("{\"name\":");
    reveal_strlit("\",\"parent\":");
    reveal_strlit(",\"parent\":");
    reveal_strlit("null");
    reveal_strlit(",\"pr\":");
    reveal_strlit("}");
    let bj = branch_json(b);
    let l = bj.len() as int;
    let nl = b.name.len() as int;
    lemma_valid_name_json_ok(b.name);

    // "{\"name\":" then the quoted name.
    lemma_sub_through(s, i, l, 0, 8);
    assert(bj.subrange(0, 8) =~= "{\"name\":"@);
    lemma_expect_at(s, i, "{\"name\":"@);
    lemma_char_through(s, i, l, 8);
    assert(bj[8] == '"');
    lemma_sub_through(s, i, l, 9, 9 + nl);
    assert(bj.subrange(9, 9 + nl) =~= b.name);
    lemma_char_through(s, i, l, 9 + nl);
    assert(bj[9 + nl] == '"');
    lemma_parse_string_at(s, i + 8, b.name);
    let i2 = i + 10 + nl;

    // ",\"parent\":" then the parent or null.
    lemma_sub_through(s, i, l, 10 + nl, 20 + nl);
    assert(bj.subrange(10 + nl, 20 + nl) =~= ",\"parent\":"@);
    lemma_expect_at(s, i2, ",\"parent\":"@);
    let i3 = i2 + 10;
    let i4 = match b.parent {
        None => {
            lemma_sub_through(s, i, l, 20 + nl, 24 + nl);
            assert(bj.subrange(20 + nl, 24 + nl) =~= "null"@);
            lemma_expect_at(s, i3, "null"@);
            lemma_char_through(s, i, l, 20 + nl);
            assert(bj[20 + nl] == 'n');
            assert(s[i3] != '"');
            i3 + 4
        },
        Some(p) => {
            let pl = p.len() as int;
            lemma_valid_name_json_ok(p);
            lemma_char_through(s, i, l, 20 + nl);
            assert(bj[20 + nl] == '"');
            lemma_sub_through(s, i, l, 21 + nl, 21 + nl + pl);
            assert(bj.subrange(21 + nl, 21 + nl + pl) =~= p);
            lemma_char_through(s, i, l, 21 + nl + pl);
            assert(bj[21 + nl + pl] == '"');
            lemma_parse_string_at(s, i3, p);
            i3 + pl + 2
        },
    };
    let po = i4 - i;

    // ",\"pr\":" then the number or null.
    lemma_sub_through(s, i, l, po, po + 6);
    assert(bj.subrange(po, po + 6) =~= ",\"pr\":"@);
    lemma_expect_at(s, i4, ",\"pr\":"@);
    let i5 = i4 + 6;
    let i6 = match b.pr {
        None => {
            lemma_sub_through(s, i, l, po + 6, po + 10);
            assert(bj.subrange(po + 6, po + 10) =~= "null"@);
            lemma_expect_at(s, i5, "null"@);
            lemma_char_through(s, i, l, po + 6);
            assert(bj[po + 6] == 'n');
            assert(!is_digit('n') && 'n' != '"');
            i5 + 4
        },
        Some(n) => {
            let dd = dec_digits(n as nat);
            lemma_dec_digits_digits(n as nat);
            lemma_sub_through(s, i, l, po + 6, po + 6 + dd.len() as int);
            assert(bj.subrange(po + 6, po + 6 + dd.len() as int) =~= dd);
            lemma_char_through(s, i, l, po + 6);
            assert(s[i5] == dd[0]) by {
                assert(s[i5] == s.subrange(i5, i5 + dd.len() as int)[0]);
            }
            lemma_char_through(s, i, l, po + 6 + dd.len() as int);
            assert(bj[po + 6 + dd.len() as int] == '}');
            assert(!is_digit('}'));
            lemma_parse_u64_at(s, i5, n);
            i5 + dd.len() as int
        },
    };

    // The closing brace.
    lemma_sub_through(s, i, l, i6 - i, i6 - i + 1);
    assert(bj.subrange(i6 - i, i6 - i + 1) =~= "}"@);
    lemma_expect_at(s, i6, "}"@);
    assert(i6 + 1 == i + l);
}

/// A serialized entry list standing at a position, closed by a bracket,
/// parses back to the entries.
#[verifier::rlimit(50)]
proof fn lemma_parse_items_at(s: Seq<char>, i: int, recs: Seq<BranchRec>)
    requires
        0 <= i,
        recs.len() >= 1,
        stack_names_valid(recs),
        i + branches_json(recs).len() < s.len(),
        s.subrange(i, i + branches_json(recs).len()) == branches_json(recs),
        s[i + branches_json(recs).len()] == ']',
    ensures
        parse_items(s, i) == Some((recs, i + branches_json(recs).len() + 1)),
    decreases recs.len(),
{
    reveal_strlit("]");
    reveal_strlit(",");
    let bl = branches_json(recs);
    let b0 = branch_json(recs[0]);
    assert(forall|t: int| 0 <= t < bl.len() ==> (#[trigger] s[i + t]) == bl[t]) by {
        assert(forall|t: int| 0 <= t < bl.len()
            ==> (#[trigger] s.subrange(i, i + bl.len())[t]) == s[i + t]);
    }
    if recs.len() == 1 {
        assert(bl == b0);
        assert(s.subrange(i, i + b0.len()) =~= b0);
        lemma_parse_branch_at(s, i, recs[0]);
        let p = i + b0.len();
        assert(s.subrange(p, p + 1) =~= "]"@);
        lemma_expect_at(s, p, "]"@);
        assert(seq![recs[0]] =~= recs);
    } else {
        let rest = recs.drop_first();
        assert(bl == b0 + seq![','] + branches_json(rest));
        assert(s.subrange(i, i + b0.len()) =~= b0);
        lemma_parse_branch_at(s, i, recs[0]);
        let p = i + b0.len();
        assert(s[p] == ',');
        assert(expect(s, p, "]"@) is None);
        assert(s.subrange(p, p + 1) =~= ","@);
        lemma_expect_at(s, p, ","@);
        lemma_names_valid_drop_first(recs);
        lemma_sub_through(s, i, bl.len() as int, b0.len() as int + 1, bl.len() as int);
        assert(bl.subrange(b0.len() as int + 1, bl.len() as int) =~= branches_json(rest));
        assert(s.subrange(p + 1, p + 1 + branches_json(rest).len())
            =~= branches_json(rest));
        assert(s[p + 1 + branches_json(rest).len()] == ']');
        lemma_parse_items_at(s, p + 1, rest);
        assert(seq![recs[0]] + rest =~= recs);
    }
}

/// Law: the codec round-trips. Parsing the serialized form of any stack
/// whose names are valid returns exactly that stack, so writing and
/// re-reading the state file is the identity.
pub proof fn lemma_stack_roundtrip(s: Seq<BranchRec>)
    requires
        stack_names_valid(s),
    ensures
        parse_stack_doc(stack_json(s)) == Some(s),
{
    reveal_strlit("{\"branches\":[");
    reveal_strlit("]}");
    reveal_strlit("]");
    reveal_strlit("}");
    let t = stack_json(s);
    let bl = branches_json(s);
    assert(t == "{\"branches\":["@ + bl + "]}"@);
    assert(t.subrange(0, 13) =~= "{\"branches\":["@);
    lemma_expect_at(t, 0, "{\"branches\":["@);
    if s.len() == 0 {
        assert(bl == Seq::<char>::empty());
        assert(t.subrange(13, 14) =~= "]"@);
        lemma_expect_at(t, 13, "]"@);
        assert(t.subrange(14, 15) =~= "}"@);
        lemma_expect_at(t, 14, "}"@);
        assert(t.len() == 15);
    } else {
        assert(t[13] == branch_json(s[0])[0]) by {
            if s.len() == 1 {
                assert(bl == branch_json(s[0]));
            } else {
                assert(bl == branch_json(s[0]) + seq![','] + branches_json(s.drop_first()));
            }
            assert(branch_json(s[0]).len() > 0);
            assert(bl[0] == branch_json(s[0])[0]);
        }
        assert(branch_json(s[0])[0] == '{') by {
            reveal_strlit("{\"name\":\"");
        }
        assert(expect(t, 13, "]"@) is None);
        assert(t.subrange(13, 13 + bl.len() as int) =~= bl);
        assert(t[13 + bl.len() as int] == ']');
        lemma_parse_items_at(t, 13, s);
        let after: int = 13 + bl.len() as int + 1;
        assert(t.subrange(after, after + 1) =~= "}"@);
        lemma_expect_at(t, after, "}"@);
        assert(after + 1 == t.len());
    }
}

/// Growing the serialized prefix by one entry appends a comma (when one
/// entry is already there) and the new entry's text.
proof fn lemma_branches_json_snoc(s: Seq<BranchRec>, i: int)
    requires
        0 <= i < s.len(),
    ensures
        branches_json(s.subrange(0, i + 1)) == branches_json(s.subrange(0, i))
            + (if i > 0 { seq![','] } else { Seq::<char>::empty() }) + branch_json(s[i]),
    decreases i,
{
    let pre = s.subrange(0, i + 1);
    if i == 0 {
        assert(pre.len() == 1 && pre[0] == s[0]);
        assert(branches_json(s.subrange(0, 0)) =~= Seq::<char>::empty());
        assert(branches_json(pre) == branch_json(s[0]));
        assert(branches_json(s.subrange(0, 0))
            + Seq::<char>::empty() + branch_json(s[0]) =~= branch_json(s[0]));
    } else {
        lemma_branches_json_snoc(s.drop_first(), i - 1);
        let sd = s.drop_first();
        assert(pre.drop_first() =~= sd.subrange(0, i));
        assert(s.subrange(0, i).drop_first() =~= sd.subrange(0, i - 1));
        assert(pre.len() >= 2);
        assert(branches_json(pre) == branch_json(pre[0]) + seq![',']
            + branches_json(pre.drop_first()));
        assert(branches_json(sd.subrange(0, i)) == branches_json(sd.subrange(0, i - 1))
            + (if i - 1 > 0 { seq![','] } else { Seq::<char>::empty() }) + branch_json(sd[i - 1]));
        if i == 1 {
            assert(s.subrange(0, 1).len() == 1);
            assert(branches_json(s.subrange(0, 1)) == branch_json(s[0]));
            assert(branches_json(sd.subrange(0, 0)) =~= Seq::<char>::empty());
            assert(branch_json(pre[0]) + seq![','] + branches_json(pre.drop_first())
                =~= branches_json(s.subrange(0, 1)) + seq![','] + branch_json(s[1]));
        } else {
            assert(s.subrange(0, i).len() >= 2);
            assert(branches_json(s.subrange(0, i)) == branch_json(s[0]) + seq![',']
                + branches_json(s.subrange(0, i).drop_first()));
            assert(branch_json(pre[0]) + seq![','] + branches_json(pre.drop_first())
                =~= branches_json(s.subrange(0, i)) + seq![','] + branch_json(s[i]));
        }
    }
}

} // verus!
