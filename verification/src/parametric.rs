//! The text of parametric L-systems: successor templates with `$N`
//! placeholders, and successor strings read as sequences of modules.
//!
//! A successor string such as `F($0/2)+F($0/2)` is read symbol by symbol: an
//! alphabetic symbol followed by `(` takes the text up to the matching `)` as
//! the expression of its parameter; every other character is a module of its
//! own without parameters. The parameters themselves are floating point
//! numbers, so this module stops at the parsed expressions.
use vstd::prelude::*;
use crate::expr::{
    all_digits, count_of, digits_value, expr_tree, is_digit, last_split, last_split_below,
    lemma_count_bound, lemma_digits_prefix, parse_expr_range, parse_index, splits_at, trim_seq,
    unicode_white_space, Expr, ExprTree,
};
use crate::text::{chars_of, push_char};

verus! {

/// Whether `c` has the Unicode `Alphabetic` property (what
/// `char::is_alphabetic` reports).
pub uninterp spec fn unicode_alphabetic(c: char) -> bool;

/// Whether `c` is alphabetic. Calls `char::is_alphabetic`; the contract claims
/// that the answer is the Unicode `Alphabetic` property of `c`, a fixed table
/// that it names without stating, and that among ASCII characters exactly the
/// letters `A` to `Z` and `a` to `z` have it.
#[verifier::external_body]
fn is_alphabetic(c: char) -> (r: bool)
    ensures
        r == unicode_alphabetic(c),
        (c as u32) < 128 ==> (r <==> ('A' <= c <= 'Z' || 'a' <= c <= 'z')),
{
    c.is_alphabetic()
}

/// Whether `c` is alphabetic, that is whether `c` followed by `(` in a
/// successor string takes the parenthesised text as its parameter.
pub fn is_alphabetic_symbol(c: char) -> (r: bool)
    ensures
        r == unicode_alphabetic(c),
        (c as u32) < 128 ==> (r <==> ('A' <= c <= 'Z' || 'a' <= c <= 'z')),
{
    is_alphabetic(c)
}

/// The nesting depth after `t[start..=e]`, starting inside one parenthesis.
pub open spec fn nesting(t: Seq<char>, start: int, e: int) -> int {
    1 + count_of(t.subrange(start, e + 1), '(') - count_of(t.subrange(start, e + 1), ')')
}

/// The first position `e >= from` at which the parenthesis opened just
/// before `start` is closed, or `t.len()` if it never is.
pub open spec fn closing_from(t: Seq<char>, start: int, from: int) -> int
    decreases t.len() - from,
{
    if from >= t.len() {
        t.len() as int
    } else if nesting(t, start, from) == 0 {
        from
    } else {
        closing_from(t, start, from + 1)
    }
}

/// The position of the parenthesis that closes the one opened just before
/// `start`, or `t.len()` if it is never closed.
pub open spec fn closing_paren(t: Seq<char>, start: int) -> int {
    closing_from(t, start, start)
}

/// A parsed module: its symbol, and the expression of its parameter if it
/// has one.
pub type TemplateView = (char, Option<ExprTree>);

/// The modules of `t` from position `i` on.
pub open spec fn modules_from(t: Seq<char>, i: int) -> Seq<TemplateView>
    decreases t.len() + 1 - i,
{
    if i < 0 || i >= t.len() {
        Seq::empty()
    } else if unicode_alphabetic(t[i]) && i + 1 < t.len() && t[i + 1] == '(' {
        proof {
            lemma_closing_range(t, i + 2, i + 2);
        }
        let end = closing_paren(t, i + 2);
        seq![(t[i], Some(expr_tree(t.subrange(i + 2, end))))] + modules_from(t, end + 1)
    } else {
        seq![(t[i], None)] + modules_from(t, i + 1)
    }
}

/// The closing position lies between where the search starts and the end.
pub proof fn lemma_closing_range(t: Seq<char>, start: int, from: int)
    requires
        0 <= start <= from <= t.len(),
    ensures
        from <= closing_from(t, start, from) <= t.len(),
    decreases t.len() - from,
{
    if from < t.len() && nesting(t, start, from) != 0 {
        lemma_closing_range(t, start, from + 1);
    }
}

/// A module of a successor string: its symbol, and the parsed expression of
/// its parameter if it has one.
pub type ModuleTemplate = (char, Option<Expr>);

/// The symbol and the parameter's syntax tree of a parsed module.
pub open spec fn template_model(m: ModuleTemplate) -> TemplateView {
    (
        m.0,
        match m.1 {
            Some(e) => Some(e.tree()),
            None => None,
        },
    )
}

/// The position of the parenthesis that closes the one opened before
/// `chars[start]`.
fn find_closing(chars: &Vec<char>, start: usize) -> (end: usize)
    requires
        start <= chars@.len(),
    ensures
        end == closing_paren(chars@, start as int),
        start <= end <= chars@.len(),
{
    let ghost t = chars@;
    let n = chars.len();
    let mut e = start;
    let mut opens: usize = 0;
    let mut closes: usize = 0;
    assert(t.subrange(start as int, start as int) == Seq::<char>::empty());
    while e < n
        invariant
            t == chars@,
            n == t.len(),
            start <= e <= n,
            closing_from(t, start as int, start as int) == closing_from(t, start as int, e as int),
            opens == count_of(t.subrange(start as int, e as int), '('),
            closes == count_of(t.subrange(start as int, e as int), ')'),
            closes <= opens,
        decreases n - e,
    {
        let c = chars[e];
        proof {
            let s1 = t.subrange(start as int, e + 1);
            assert(s1.drop_last() == t.subrange(start as int, e as int));
            assert(s1.last() == c);
            lemma_count_bound(s1, '(');
            lemma_count_bound(s1, ')');
        }
        if c == '(' {
            opens += 1;
        } else if c == ')' {
            closes += 1;
        }
        if closes > opens {
            return e;
        }
        e += 1;
    }
    proof {
        lemma_closing_range(t, start as int, start as int);
    }
    n
}

/// Read a successor string as a sequence of modules.
///
/// `F+G` gives the three modules `F`, `+` and `G`; `F($0/2)` gives the module
/// `F` whose parameter is the expression `$0/2`.
pub fn parse_modules(s: &str) -> (modules: Vec<ModuleTemplate>)
    ensures
        modules@.map_values(|m: ModuleTemplate| template_model(m)) == modules_from(s@, 0),
{
    let chars = chars_of(s);
    let n = chars.len();
    let mut modules: Vec<ModuleTemplate> = Vec::new();
    let mut i: usize = 0;
    while i < n
        invariant
            chars@ == s@,
            n == chars@.len(),
            i <= n,
            modules_from(s@, 0) == modules@.map_values(|m: ModuleTemplate| template_model(m)) + modules_from(s@, i as int),
        decreases n + 1 - i,
    {
        let ch = chars[i];
        let ghost before = modules@;
        let ghost i0 = i as int;
        let ghost mut mv: TemplateView = (ch, None);
        if is_alphabetic(ch) && i + 1 < n && chars[i + 1] == '(' {
            let start = i + 2;
            let end = find_closing(&chars, start);
            let e = parse_expr_range(&chars, start, end);
            let m: ModuleTemplate = (ch, Some(e));
            proof {
                mv = template_model(m);
                assert(mv == (s@[i0], Some(expr_tree(s@.subrange(i0 + 2, end as int)))));
                assert(modules_from(s@, end + 1) == modules_from(s@, if end < n { end + 1 } else { n as int }));
            }
            modules.push(m);
            if end < n {
                i = end + 1;
            } else {
                i = n;
            }
        } else {
            let m: ModuleTemplate = (ch, None);
            proof {
                mv = template_model(m);
            }
            modules.push(m);
            i += 1;
        }
        assert(modules_from(s@, i0) == seq![mv] + modules_from(s@, i as int));
        assert(modules@.map_values(|m: ModuleTemplate| template_model(m))
            =~= before.map_values(|m: ModuleTemplate| template_model(m)).push(mv));
        assert(before.map_values(|m: ModuleTemplate| template_model(m)).push(mv) + modules_from(s@, i as int)
            =~= before.map_values(|m: ModuleTemplate| template_model(m)) + (seq![mv] + modules_from(s@, i as int)));
    }
    assert(modules_from(s@, i as int) == Seq::<TemplateView>::empty());
    assert(modules@.map_values(|m: ModuleTemplate| template_model(m)) + Seq::<TemplateView>::empty()
        =~= modules@.map_values(|m: ModuleTemplate| template_model(m)));
    modules
}

/// The decimal digit `d` as a character.
pub open spec fn digit_char(d: nat) -> char {
    if d == 0 {
        '0'
    } else if d == 1 {
        '1'
    } else if d == 2 {
        '2'
    } else if d == 3 {
        '3'
    } else if d == 4 {
        '4'
    } else if d == 5 {
        '5'
    } else if d == 6 {
        '6'
    } else if d == 7 {
        '7'
    } else if d == 8 {
        '8'
    } else {
        '9'
    }
}

/// `n` written in decimal, without leading zeros.
pub open spec fn decimal(n: nat) -> Seq<char>
    decreases n,
{
    if n < 10 {
        seq![digit_char(n)]
    } else {
        decimal(n / 10).push(digit_char(n % 10))
    }
}

/// The placeholder `$N` that stands for parameter `N` in a successor template.
pub open spec fn placeholder(n: nat) -> Seq<char> {
    seq!['$'] + decimal(n)
}

/// `s` with every occurrence of the non-empty pattern `pat` replaced by
/// `rep`, occurrences taken from left to right without overlapping (what
/// `str::replace` returns).
pub open spec fn replace_all(s: Seq<char>, pat: Seq<char>, rep: Seq<char>) -> Seq<char>
    recommends
        pat.len() > 0,
    decreases s.len(),
{
    if s.len() == 0 {
        Seq::empty()
    } else if 0 < pat.len() <= s.len() && s.take(pat.len() as int) == pat {
        rep + replace_all(s.skip(pat.len() as int), pat, rep)
    } else {
        seq![s[0]] + replace_all(s.drop_first(), pat, rep)
    }
}

/// `template` with the placeholders of the first `k` values replaced, from
/// the highest index down: first `$(k-1)` by `values[k-1]`, ..., last `$0`
/// by `values[0]`. Going down, `$10` is filled before `$1` could take its
/// first two characters.
pub open spec fn fill_below(template: Seq<char>, values: Seq<Seq<char>>, k: nat) -> Seq<char>
    decreases k,
{
    if k == 0 {
        template
    } else {
        fill_below(
            replace_all(template, placeholder((k - 1) as nat), values[k - 1]),
            values,
            (k - 1) as nat,
        )
    }
}

/// `template` with every placeholder `$N` of `values` replaced by
/// `values[N]`, from the highest index down.
pub open spec fn fill_placeholders(template: Seq<char>, values: Seq<Seq<char>>) -> Seq<char> {
    fill_below(template, values, values.len())
}

/// The character of the decimal digit `d`.
fn digit_char_exec(d: usize) -> (c: char)
    requires
        d < 10,
    ensures
        c == digit_char(d as nat),
{
    if d == 0 {
        '0'
    } else if d == 1 {
        '1'
    } else if d == 2 {
        '2'
    } else if d == 3 {
        '3'
    } else if d == 4 {
        '4'
    } else if d == 5 {
        '5'
    } else if d == 6 {
        '6'
    } else if d == 7 {
        '7'
    } else if d == 8 {
        '8'
    } else {
        '9'
    }
}

/// `n` written in decimal.
fn decimal_chars(n: usize) -> (v: Vec<char>)
    ensures
        v@ == decimal(n as nat),
    decreases n,
{
    if n < 10 {
        let mut v: Vec<char> = Vec::new();
        v.push(digit_char_exec(n));
        v
    } else {
        let mut v = decimal_chars(n / 10);
        v.push(digit_char_exec(n % 10));
        v
    }
}

/// Copy the characters of `t` onto the end of `out`.
fn append_chars(out: &mut Vec<char>, t: &Vec<char>)
    ensures
        final(out)@ == old(out)@ + t@,
{
    let mut k: usize = 0;
    while k < t.len()
        invariant
            k <= t@.len(),
            out@ == old(out)@ + t@.take(k as int),
        decreases t@.len() - k,
    {
        out.push(t[k]);
        assert(t@.take(k + 1) == t@.take(k as int).push(t@[k as int]));
        k += 1;
    }
    assert(t@.take(t@.len() as int) == t@);
}

/// Whether `pat` occurs in `s` at position `i`.
fn occurs_at(s: &Vec<char>, i: usize, pat: &Vec<char>) -> (r: bool)
    requires
        i <= s@.len(),
    ensures
        r == (pat@.len() <= s@.len() - i && s@.skip(i as int).take(pat@.len() as int) == pat@),
{
    if pat.len() > s.len() - i {
        return false;
    }
    let mut j: usize = 0;
    while j < pat.len()
        invariant
            i <= s@.len(),
            pat@.len() <= s@.len() - i,
            j <= pat@.len(),
            forall|k: int| 0 <= k < j ==> s@[i + k] == pat@[k],
        decreases pat@.len() - j,
    {
        assert(i + j < s.len());
        if s[i + j] != pat[j] {
            assert(s@.skip(i as int).take(pat@.len() as int)[j as int] != pat@[j as int]);
            return false;
        }
        j += 1;
    }
    assert(s@.skip(i as int).take(pat@.len() as int) =~= pat@);
    true
}

/// `s` with every occurrence of `pat` replaced by `rep`.
fn replace_chars(s: &Vec<char>, pat: &Vec<char>, rep: &Vec<char>) -> (r: Vec<char>)
    requires
        pat@.len() > 0,
    ensures
        r@ == replace_all(s@, pat@, rep@),
{
    let n = s.len();
    let mut out: Vec<char> = Vec::new();
    let mut i: usize = 0;
    assert(s@.skip(0) == s@);
    while i < n
        invariant
            n == s@.len(),
            pat@.len() > 0,
            i <= n,
            replace_all(s@, pat@, rep@) == out@ + replace_all(s@.skip(i as int), pat@, rep@),
        decreases n - i,
    {
        let ghost rest = s@.skip(i as int);
        let ghost out0 = out@;
        if occurs_at(s, i, pat) {
            append_chars(&mut out, rep);
            assert(rest.skip(pat@.len() as int) == s@.skip(i + pat@.len()));
            assert(out0 + (rep@ + replace_all(rest.skip(pat@.len() as int), pat@, rep@))
                == out@ + replace_all(s@.skip(i + pat@.len()), pat@, rep@));
            i += pat.len();
        } else {
            out.push(s[i]);
            assert(rest[0] == s@[i as int]);
            assert(rest.drop_first() == s@.skip(i + 1));
            assert(out0 + (seq![rest[0]] + replace_all(rest.drop_first(), pat@, rep@))
                == out@ + replace_all(s@.skip(i + 1), pat@, rep@));
            i += 1;
        }
    }
    assert(out@ + replace_all(s@.skip(n as int), pat@, rep@) == out@);
    out
}

/// Fill a successor template as `ParametricRule::generate_successor` does
/// with the formatted parameter values: the placeholder `$N` is replaced by
/// `values[N]` (`$0` by the first value, `$1` by the second, and so on),
/// every occurrence of it, from the highest index down.
pub fn substitute_placeholders(template: &str, values: &Vec<String>) -> (result: String)
    ensures
        result@ == fill_placeholders(template@, values@.map_values(|v: String| v@)),
{
    let ghost vals = values@.map_values(|v: String| v@);
    let mut current = chars_of(template);
    let mut k: usize = values.len();
    while k > 0
        invariant
            k <= values@.len(),
            vals == values@.map_values(|v: String| v@),
            fill_placeholders(template@, vals) == fill_below(current@, vals, k as nat),
        decreases k,
    {
        let mut pat: Vec<char> = Vec::new();
        pat.push('$');
        let mut digits = decimal_chars(k - 1);
        pat.append(&mut digits);
        assert(pat@ == placeholder((k - 1) as nat));
        let rep = chars_of(values[k - 1].as_str());
        assert(vals[k - 1] == values@[k - 1]@);
        current = replace_chars(&current, &pat, &rep);
        k -= 1;
    }
    let mut result = String::new();
    let mut q: usize = 0;
    while q < current.len()
        invariant
            q <= current@.len(),
            result@ == current@.take(q as int),
        decreases current@.len() - q,
    {
        push_char(&mut result, current[q]);
        assert(current@.take(q + 1) == current@.take(q as int).push(current@[q as int]));
        q += 1;
    }
    assert(current@.take(current@.len() as int) == current@);
    result
}

/// The character of a digit is a digit worth that much.
proof fn lemma_digit_char(d: nat)
    requires
        d < 10,
    ensures
        is_digit(digit_char(d)),
        ((digit_char(d) as u32) - ('0' as u32)) as nat == d,
{
}

/// The digits of `decimal(n)` are decimal digits, and they are worth `n`.
pub proof fn lemma_decimal_digits(n: nat)
    ensures
        decimal(n).len() > 0,
        all_digits(decimal(n)),
        digits_value(decimal(n)) == n,
    decreases n,
{
    lemma_digit_char(n % 10);
    if n < 10 {
        assert(decimal(n).drop_last() == Seq::<char>::empty());
        assert(digits_value(Seq::<char>::empty()) == 0);
        assert(decimal(n).last() == digit_char(n));
    } else {
        lemma_decimal_digits(n / 10);
        let d = decimal(n);
        assert(d.drop_last() == decimal(n / 10));
        assert(d.last() == digit_char(n % 10));
        assert(10 * (n / 10) + n % 10 == n);
        assert forall|i: int| 0 <= i < d.len() implies #[trigger] is_digit(d[i]) by {
            if i < d.len() - 1 {
                assert(d[i] == decimal(n / 10)[i]);
            }
        }
    }
}

/// A placeholder index written in decimal is read back as the same index:
/// the digits after the `$` of `$N` parse to `N`.
pub proof fn law_placeholder_index_round_trip(n: usize)
    ensures
        parse_index(placeholder(n as nat).drop_first()) == Some(n),
{
    lemma_decimal_digits(n as nat);
    assert(placeholder(n as nat).drop_first() == decimal(n as nat));
    let d = decimal(n as nat);
    assert(!(d.len() > 0 && d[0] == '+')) by {
        assert(is_digit(d[0]));
    }
}

/// A successor string without parentheses, such as `F+G-F`, is read as one
/// module without parameters per character.
pub proof fn law_plain_string_modules(t: Seq<char>, i: int)
    requires
        0 <= i <= t.len(),
        forall|k: int| 0 <= k < t.len() ==> #[trigger] t[k] != '(',
    ensures
        modules_from(t, i) == t.skip(i).map_values(|c: char| (c, None::<ExprTree>)),
    decreases t.len() - i,
{
    if i < t.len() {
        law_plain_string_modules(t, i + 1);
        assert(i + 1 < t.len() ==> t[i + 1] != '(');
        assert(t.skip(i).map_values(|c: char| (c, None::<ExprTree>))
            =~= seq![(t[i], None::<ExprTree>)] + t.skip(i + 1).map_values(|c: char| (c, None::<ExprTree>)));
    } else {
        assert(t.skip(i).map_values(|c: char| (c, None::<ExprTree>)) =~= Seq::<TemplateView>::empty());
    }
}

/// A string in which neither `x` nor `y` occurs has no split position.
proof fn lemma_no_split(t: Seq<char>, x: char, y: char, k: int)
    requires
        forall|i: int| 0 <= i < t.len() ==> #[trigger] t[i] != x && t[i] != y,
    ensures
        last_split_below(t, x, y, k) is None,
    decreases k,
{
    if k > 1 {
        if 0 <= k - 1 < t.len() {
            assert(t[k - 1] != x && t[k - 1] != y);
        }
        assert(!splits_at(t, x, y, k - 1));
        lemma_no_split(t, x, y, k - 1);
    }
}

/// A placeholder `$N` read as an expression is a reference to parameter `N`,
/// so that a placeholder left without a value still names its parameter.
pub proof fn law_placeholder_expression(n: usize)
    ensures
        expr_tree(placeholder(n as nat)) == ExprTree::Param(n),
{
    let p = placeholder(n as nat);
    let d = decimal(n as nat);
    lemma_decimal_digits(n as nat);
    assert(p.drop_first() == d);
    assert forall|i: int| 0 <= i < p.len() implies
        #[trigger] p[i] != '+' && p[i] != '-' && p[i] != '*' && p[i] != '/' && p[i] != '(' by {
        if i > 0 {
            assert(p[i] == d[i - 1]);
            assert(is_digit(d[i - 1]));
        }
    }
    assert(is_digit(p[p.len() - 1])) by {
        assert(p[p.len() - 1] == d[d.len() - 1]);
    }
    assert(!unicode_white_space(p[0]));
    assert(!unicode_white_space(p.last()));
    assert(trim_seq(p) == p);
    lemma_no_split(p, '+', '-', p.len() as int);
    lemma_no_split(p, '*', '/', p.len() as int);
    assert(last_split(p, '+', '-') is None);
    assert(last_split(p, '*', '/') is None);
    law_placeholder_index_round_trip(n);
}

/// Whether `s` holds no `$`.
pub open spec fn has_no_dollar(s: Seq<char>) -> bool {
    forall|i: int| 0 <= i < s.len() ==> #[trigger] s[i] != '$'
}

/// A pattern that starts with `$` never occurs in text without `$`.
proof fn lemma_replace_without_dollar(s: Seq<char>, pat: Seq<char>, rep: Seq<char>)
    requires
        pat.len() > 0,
        pat[0] == '$',
        has_no_dollar(s),
    ensures
        replace_all(s, pat, rep) == s,
    decreases s.len(),
{
    if s.len() > 0 {
        if pat.len() <= s.len() {
            assert(s.take(pat.len() as int)[0] == s[0]);
        }
        assert forall|i: int| 0 <= i < s.drop_first().len() implies #[trigger] s.drop_first()[i] != '$' by {
            assert(s.drop_first()[i] == s[i + 1]);
        }
        lemma_replace_without_dollar(s.drop_first(), pat, rep);
        assert(seq![s[0]] + s.drop_first() == s);
    }
}

/// Filling text without `$` leaves it as it is.
proof fn lemma_fill_without_dollar(s: Seq<char>, values: Seq<Seq<char>>, k: nat)
    requires
        has_no_dollar(s),
    ensures
        fill_below(s, values, k) == s,
    decreases k,
{
    if k > 0 {
        assert(placeholder((k - 1) as nat)[0] == '$');
        lemma_replace_without_dollar(s, placeholder((k - 1) as nat), values[k - 1]);
        lemma_fill_without_dollar(s, values, (k - 1) as nat);
    }
}

/// The digits of a placeholder are no `$`.
proof fn lemma_decimal_no_dollar(n: nat)
    ensures
        has_no_dollar(decimal(n)),
{
    lemma_decimal_digits(n);
    assert forall|i: int| 0 <= i < decimal(n).len() implies #[trigger] decimal(n)[i] != '$' by {
        assert(is_digit(decimal(n)[i]));
    }
}

/// The placeholder of a higher index does not occur in `$N`.
proof fn lemma_higher_placeholder_absent(n: nat, k: nat, rep: Seq<char>)
    requires
        n < k,
    ensures
        replace_all(placeholder(n), placeholder(k), rep) == placeholder(n),
{
    let p = placeholder(n);
    let q = placeholder(k);
    lemma_decimal_digits(n);
    lemma_decimal_digits(k);
    lemma_decimal_no_dollar(n);
    assert(p.drop_first() == decimal(n));
    assert(q.drop_first() == decimal(k));
    if q.len() <= p.len() && p.take(q.len() as int) == q {
        let m = decimal(k).len() as int;
        assert(decimal(n).take(m) == decimal(k)) by {
            assert forall|i: int| 0 <= i < m implies decimal(n).take(m)[i] == decimal(k)[i] by {
                assert(p.take(q.len() as int)[i + 1] == q[i + 1]);
            }
        }
        lemma_digits_prefix(decimal(n), m);
        assert(false);
    }
    assert(q[0] == '$');
    lemma_replace_without_dollar(p.drop_first(), q, rep);
    assert(seq![p[0]] + p.drop_first() == p);
}

/// Filling `$N` with the values above `N` leaves it as it is.
proof fn lemma_fill_above(n: nat, values: Seq<Seq<char>>, k: nat)
    requires
        n < k <= values.len(),
    ensures
        fill_below(placeholder(n), values, k) == fill_below(placeholder(n), values, n + 1),
    decreases k,
{
    if k > n + 1 {
        lemma_higher_placeholder_absent(n, (k - 1) as nat, values[k - 1]);
        lemma_fill_above(n, values, (k - 1) as nat);
    }
}

/// The placeholder `$N` of a parameter that has a value is filled with that
/// value: `$0` with the first, `$1` with the second, `$10` with the eleventh
/// (values being numbers, they hold no `$`).
pub proof fn law_placeholder_filled(n: nat, values: Seq<Seq<char>>)
    requires
        n < values.len(),
        forall|i: int| 0 <= i < values.len() ==> #[trigger] has_no_dollar(values[i]),
    ensures
        fill_placeholders(placeholder(n), values) == values[n as int],
{
    let p = placeholder(n);
    lemma_fill_above(n, values, values.len());
    assert(p.take(p.len() as int) == p);
    assert(p.skip(p.len() as int) == Seq::<char>::empty());
    assert(replace_all(Seq::<char>::empty(), p, values[n as int]) == Seq::<char>::empty());
    assert(replace_all(p, p, values[n as int]) == values[n as int] + Seq::<char>::empty());
    assert(values[n as int] + Seq::<char>::empty() == values[n as int]);
    assert(has_no_dollar(values[n as int]));
    lemma_fill_without_dollar(values[n as int], values, n);
}

/// The parenthesis opened just before `start` closes at the first position
/// where the nesting depth, counted from `start`, drops to zero; until then
/// the depth stays positive, and if it never drops the argument runs to the
/// end of the string.
pub proof fn law_closing_paren(t: Seq<char>, start: int)
    requires
        0 <= start <= t.len(),
    ensures
        start <= closing_paren(t, start) <= t.len(),
        forall|k: int| start <= k < closing_paren(t, start) ==> #[trigger] nesting(t, start, k) > 0,
        closing_paren(t, start) < t.len() ==> nesting(t, start, closing_paren(t, start)) == 0,
{
    lemma_closing_scan(t, start, start);
}

proof fn lemma_closing_scan(t: Seq<char>, start: int, from: int)
    requires
        0 <= start <= from <= t.len(),
        forall|k: int| start <= k < from ==> #[trigger] nesting(t, start, k) > 0,
    ensures
        from <= closing_from(t, start, from) <= t.len(),
        forall|k: int| start <= k < closing_from(t, start, from) ==> #[trigger] nesting(t, start, k) > 0,
        closing_from(t, start, from) < t.len() ==> nesting(t, start, closing_from(t, start, from)) == 0,
    decreases t.len() - from,
{
    if from < t.len() && nesting(t, start, from) != 0 {
        lemma_nesting_positive(t, start, from);
        lemma_closing_scan(t, start, from + 1);
    }
}

/// Starting inside one parenthesis, the depth changes by at most one per
/// character, so it is positive until the first time it is zero.
proof fn lemma_nesting_positive(t: Seq<char>, start: int, e: int)
    requires
        0 <= start <= e < t.len(),
        forall|k: int| start <= k < e ==> #[trigger] nesting(t, start, k) > 0,
    ensures
        nesting(t, start, e) >= 0,
{
    let s1 = t.subrange(start, e + 1);
    assert(s1.drop_last() == t.subrange(start, e));
    if e > start {
        assert(nesting(t, start, e - 1) > 0);
        assert(t.subrange(start, e - 1 + 1) == t.subrange(start, e));
    } else {
        assert(t.subrange(start, e) == Seq::<char>::empty());
        assert(count_of(Seq::<char>::empty(), '(') == 0);
        assert(count_of(Seq::<char>::empty(), ')') == 0);
    }
}
} // verus!
