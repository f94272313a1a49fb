//! The arithmetic expressions that stand inside the parentheses of a
//! parametric module, such as `$0/2` in `F($0/2)`.
//!
//! An expression is trimmed of white space and then read as
//! - a sum or difference, split at the last `+` or `-` that is neither the
//!   first character nor inside parentheses;
//! - otherwise a product or quotient, split in the same way at `*` or `/`;
//! - otherwise, if it starts with `(` and ends with `)`, the expression
//!   between them;
//! - otherwise, if it starts with `$`, a reference to a parameter whose index
//!   is the decimal number after the `$`;
//! - otherwise a literal number.
//!
//! The numbers themselves are floating point: this module builds the syntax
//! tree, and the arithmetic on it is left to the caller.
use vstd::prelude::*;
use crate::text::{chars_of, push_char};

verus! {

/// Whether `c` has the Unicode `White_Space` property, which is what
/// `char::is_whitespace` and `str::trim` go by: U+0009 to U+000D, U+0020,
/// U+0085, U+00A0, U+1680, U+2000 to U+200A, U+2028, U+2029, U+202F, U+205F
/// and U+3000.
pub open spec fn unicode_white_space(c: char) -> bool {
    let u = c as u32;
    ||| 0x09 <= u <= 0x0D
    ||| u == 0x20
    ||| u == 0x85
    ||| u == 0xA0
    ||| u == 0x1680
    ||| 0x2000 <= u <= 0x200A
    ||| u == 0x2028
    ||| u == 0x2029
    ||| u == 0x202F
    ||| u == 0x205F
    ||| u == 0x3000
}

/// Whether `c` is white space.
fn is_white_space(c: char) -> (r: bool)
    ensures
        r == unicode_white_space(c),
{
    let u = c as u32;
    (0x09 <= u && u <= 0x0D) || u == 0x20 || u == 0x85 || u == 0xA0 || u == 0x1680 || (0x2000 <= u
        && u <= 0x200A) || u == 0x2028 || u == 0x2029 || u == 0x202F || u == 0x205F || u == 0x3000
}

/// `s` without its leading and trailing white space (what `str::trim` returns).
pub open spec fn trim_seq(s: Seq<char>) -> Seq<char>
    decreases s.len(),
{
    if s.len() > 0 && unicode_white_space(s[0]) {
        trim_seq(s.drop_first())
    } else if s.len() > 0 && unicode_white_space(s.last()) {
        trim_seq(s.drop_last())
    } else {
        s
    }
}

/// Number of occurrences of `c` in `s`.
pub open spec fn count_of<T>(s: Seq<T>, c: T) -> nat
    decreases s.len(),
{
    if s.len() == 0 {
        0
    } else {
        count_of(s.drop_last(), c) + if s.last() == c { 1nat } else { 0nat }
    }
}

/// Closing minus opening parentheses in `s`.
pub open spec fn paren_balance(s: Seq<char>) -> int {
    count_of(s, ')') - count_of(s, '(')
}

/// Whether position `i` of `t` splits it at the operator `x` or `y`: `i` is
/// not the first position, `t[i]` is one of the operators, and the text after
/// it closes as many parentheses as it opens.
pub open spec fn splits_at(t: Seq<char>, x: char, y: char, i: int) -> bool {
    &&& 1 <= i < t.len()
    &&& (t[i] == x || t[i] == y)
    &&& paren_balance(t.subrange(i + 1, t.len() as int)) == 0
}

/// The last position below `k` at which `t` splits at `x` or `y`.
pub open spec fn last_split_below(t: Seq<char>, x: char, y: char, k: int) -> Option<int>
    decreases k,
{
    if k <= 1 {
        None
    } else if splits_at(t, x, y, k - 1) {
        Some(k - 1)
    } else {
        last_split_below(t, x, y, k - 1)
    }
}

/// The last position at which `t` splits at `x` or `y`.
pub open spec fn last_split(t: Seq<char>, x: char, y: char) -> Option<int> {
    last_split_below(t, x, y, t.len() as int)
}

/// Whether `c` is an ASCII decimal digit.
pub open spec fn is_digit(c: char) -> bool {
    '0' <= c <= '9'
}

/// The value of a string of decimal digits.
pub open spec fn digits_value(s: Seq<char>) -> nat
    decreases s.len(),
{
    if s.len() == 0 {
        0
    } else {
        10 * digits_value(s.drop_last()) + ((s.last() as u32) - ('0' as u32)) as nat
    }
}

/// Whether every character of `d` is a decimal digit.
pub open spec fn all_digits(d: Seq<char>) -> bool {
    forall|i: int| 0 <= i < d.len() ==> #[trigger] is_digit(d[i])
}

/// `s` without a leading `+`, if it has one.
pub open spec fn unsigned_digits(s: Seq<char>) -> Seq<char> {
    if s.len() > 0 && s[0] == '+' {
        s.drop_first()
    } else {
        s
    }
}

/// What `usize::from_str` gives for `s`: an optional `+` followed by at least
/// one decimal digit, whose value fits in a `usize`.
pub open spec fn parse_index(s: Seq<char>) -> Option<usize> {
    let d = unsigned_digits(s);
    if d.len() > 0 && all_digits(d) && digits_value(d) <= usize::MAX {
        Some(digits_value(d) as usize)
    } else {
        None
    }
}

/// The syntax tree of an expression.
pub enum ExprTree {
    Add(Box<ExprTree>, Box<ExprTree>),
    Sub(Box<ExprTree>, Box<ExprTree>),
    Mul(Box<ExprTree>, Box<ExprTree>),
    Div(Box<ExprTree>, Box<ExprTree>),
    /// `$N` with a well-formed index `N`.
    Param(usize),
    /// `$` followed by something that is not an index.
    BadParam,
    /// Any other text, to be read as a number.
    Literal(Seq<char>),
}

/// Trimming never lengthens a string; the result is a contiguous part of it.
pub proof fn lemma_trim_shape(s: Seq<char>)
    ensures
        trim_seq(s).len() <= s.len(),
        exists|a: int, b: int| 0 <= a <= b <= s.len() && trim_seq(s) == s.subrange(a, b),
    decreases s.len(),
{
    if s.len() > 0 && unicode_white_space(s[0]) {
        lemma_trim_shape(s.drop_first());
        let (a, b) = choose|a: int, b: int|
            0 <= a <= b <= s.drop_first().len() && trim_seq(s.drop_first()) == s.drop_first().subrange(a, b);
        assert(s.drop_first().subrange(a, b) == s.subrange(a + 1, b + 1));
    } else if s.len() > 0 && unicode_white_space(s.last()) {
        lemma_trim_shape(s.drop_last());
        let (a, b) = choose|a: int, b: int|
            0 <= a <= b <= s.drop_last().len() && trim_seq(s.drop_last()) == s.drop_last().subrange(a, b);
        assert(s.drop_last().subrange(a, b) == s.subrange(a, b));
    } else {
        assert(s.subrange(0, s.len() as int) == s);
    }
}

/// A split position lies strictly inside the string, after its first character.
pub proof fn lemma_last_split_range(t: Seq<char>, x: char, y: char, k: int)
    requires
        k <= t.len(),
    ensures
        last_split_below(t, x, y, k) matches Some(i) ==> splits_at(t, x, y, i) && i < k,
    decreases k,
{
    if k > 1 && !splits_at(t, x, y, k - 1) {
        lemma_last_split_range(t, x, y, k - 1);
    }
}

/// The syntax tree of the expression `s`.
pub open spec fn expr_tree(s: Seq<char>) -> ExprTree
    decreases s.len(),
{
    let t = trim_seq(s);
    proof {
        lemma_trim_shape(s);
        lemma_last_split_range(t, '+', '-', t.len() as int);
        lemma_last_split_range(t, '*', '/', t.len() as int);
    }
    if let Some(i) = last_split(t, '+', '-') {
        let l = expr_tree(t.subrange(0, i));
        let r = expr_tree(t.subrange(i + 1, t.len() as int));
        if t[i] == '+' {
            ExprTree::Add(Box::new(l), Box::new(r))
        } else {
            ExprTree::Sub(Box::new(l), Box::new(r))
        }
    } else if let Some(i) = last_split(t, '*', '/') {
        let l = expr_tree(t.subrange(0, i));
        let r = expr_tree(t.subrange(i + 1, t.len() as int));
        if t[i] == '*' {
            ExprTree::Mul(Box::new(l), Box::new(r))
        } else {
            ExprTree::Div(Box::new(l), Box::new(r))
        }
    } else if t.len() >= 2 && t[0] == '(' && t.last() == ')' {
        expr_tree(t.subrange(1, t.len() - 1))
    } else if t.len() >= 1 && t[0] == '$' {
        match parse_index(t.drop_first()) {
            Some(n) => ExprTree::Param(n),
            None => ExprTree::BadParam,
        }
    } else {
        ExprTree::Literal(t)
    }
}

/// An expression, parsed.
#[derive(Debug)]
pub enum Expr {
    /// `left + right`
    Add(Box<Expr>, Box<Expr>),
    /// `left - right`
    Sub(Box<Expr>, Box<Expr>),
    /// `left * right`
    Mul(Box<Expr>, Box<Expr>),
    /// `left / right`
    Div(Box<Expr>, Box<Expr>),
    /// `$N`: the parameter at index `N`.
    Param(usize),
    /// `$` followed by something that is not an index; its value is zero.
    BadParam,
    /// Any other (trimmed) text, to be read as a number; zero if it is none.
    Literal(String),
}

impl Expr {
    /// The syntax tree that this expression stands for.
    pub open spec fn tree(self) -> ExprTree
        decreases self,
    {
        match self {
            Expr::Add(l, r) => ExprTree::Add(Box::new(l.tree()), Box::new(r.tree())),
            Expr::Sub(l, r) => ExprTree::Sub(Box::new(l.tree()), Box::new(r.tree())),
            Expr::Mul(l, r) => ExprTree::Mul(Box::new(l.tree()), Box::new(r.tree())),
            Expr::Div(l, r) => ExprTree::Div(Box::new(l.tree()), Box::new(r.tree())),
            Expr::Param(n) => ExprTree::Param(n),
            Expr::BadParam => ExprTree::BadParam,
            Expr::Literal(text) => ExprTree::Literal(text@),
        }
    }
}

/// Occurrences add up over a concatenation.
pub proof fn lemma_count_concat<T>(a: Seq<T>, b: Seq<T>, c: T)
    ensures
        count_of(a + b, c) == count_of(a, c) + count_of(b, c),
    decreases b.len(),
{
    if b.len() == 0 {
        assert(a + b == a);
    } else {
        lemma_count_concat(a, b.drop_last(), c);
        assert((a + b).drop_last() == a + b.drop_last());
    }
}

/// A character occurs in `s` at most as many times as `s` is long.
pub proof fn lemma_count_bound<T>(s: Seq<T>, c: T)
    ensures
        count_of(s, c) <= s.len(),
    decreases s.len(),
{
    if s.len() > 0 {
        lemma_count_bound(s.drop_last(), c);
    }
}

/// Counting over `s[i..n]` counts `s[i]` and then `s[i+1..n]`.
proof fn lemma_count_step(s: Seq<char>, i: int, n: int, c: char)
    requires
        0 <= i < n <= s.len(),
    ensures
        count_of(s.subrange(i, n), c)
            == count_of(s.subrange(i + 1, n), c) + if s[i] == c { 1nat } else { 0nat },
{
    assert(s.subrange(i, n) == seq![s[i]] + s.subrange(i + 1, n));
    lemma_count_concat(seq![s[i]], s.subrange(i + 1, n), c);
    assert(seq![s[i]].drop_last() == Seq::<char>::empty());
    assert(seq![s[i]].last() == s[i]);
    assert(count_of(Seq::<char>::empty(), c) == 0);
    assert(count_of(seq![s[i]], c) == if s[i] == c { 1nat } else { 0nat });
}

/// The trimmed part `[a, b)` of `chars[lo..hi]`.
fn trim_range(chars: &Vec<char>, lo: usize, hi: usize) -> (r: (usize, usize))
    requires
        lo <= hi <= chars@.len(),
    ensures
        lo <= r.0 <= r.1 <= hi,
        chars@.subrange(r.0 as int, r.1 as int) == trim_seq(chars@.subrange(lo as int, hi as int)),
{
    let mut a = lo;
    let mut b = hi;
    while a < b && is_white_space(chars[a])
        invariant
            lo <= a <= b == hi <= chars@.len(),
            trim_seq(chars@.subrange(lo as int, hi as int)) == trim_seq(chars@.subrange(a as int, b as int)),
        decreases b - a,
    {
        assert(chars@.subrange(a as int, b as int).drop_first() == chars@.subrange(a + 1, b as int));
        a += 1;
    }
    while b > a && is_white_space(chars[b - 1])
        invariant
            lo <= a <= b <= hi <= chars@.len(),
            a == b || !unicode_white_space(chars@[a as int]),
            trim_seq(chars@.subrange(lo as int, hi as int)) == trim_seq(chars@.subrange(a as int, b as int)),
        decreases b - a,
    {
        assert(chars@.subrange(a as int, b as int).drop_last() == chars@.subrange(a as int, b - 1));
        assert(chars@.subrange(a as int, b as int)[0] == chars@[a as int]);
        b -= 1;
    }
    let ghost t = chars@.subrange(a as int, b as int);
    assert(t.len() > 0 ==> t[0] == chars@[a as int]);
    assert(t.len() > 0 ==> t.last() == chars@[b - 1]);
    (a, b)
}

/// The last position of `chars[a..b]` at which it splits at `x` or `y`, as
/// an index into `chars`.
fn find_last_split(chars: &Vec<char>, a: usize, b: usize, x: char, y: char) -> (r: Option<usize>)
    requires
        a <= b <= chars@.len(),
        x != '(' && x != ')' && y != '(' && y != ')',
    ensures
        match r {
            Some(j) => a < j < b && last_split(chars@.subrange(a as int, b as int), x, y) == Some(j - a),
            None => last_split(chars@.subrange(a as int, b as int), x, y) is None,
        },
{
    let ghost t = chars@.subrange(a as int, b as int);
    let mut j = b;
    let mut closes: usize = 0;
    let mut opens: usize = 0;
    assert(t.subrange(t.len() as int, t.len() as int) == Seq::<char>::empty());
    while j - a > 1
        invariant
            a <= b <= chars@.len(),
            t == chars@.subrange(a as int, b as int),
            x != '(' && x != ')' && y != '(' && y != ')',
            a <= j <= b,
            j < a + 1 ==> j == b,
            last_split(t, x, y) == last_split_below(t, x, y, j - a),
            closes == count_of(t.subrange(j - a, t.len() as int), ')'),
            opens == count_of(t.subrange(j - a, t.len() as int), '('),
        decreases j,
    {
        let c = chars[j - 1];
        let ghost k = j - a;
        assert(t[k - 1] == c);
        proof {
            lemma_count_step(t, k - 1, t.len() as int, ')');
            lemma_count_step(t, k - 1, t.len() as int, '(');
            lemma_count_bound(t.subrange(k - 1, t.len() as int), ')');
            lemma_count_bound(t.subrange(k - 1, t.len() as int), '(');
        }
        if c == ')' {
            closes += 1;
        } else if c == '(' {
            opens += 1;
        } else if closes == opens && (c == x || c == y) {
            assert(splits_at(t, x, y, k - 1));
            return Some(j - 1);
        }
        j -= 1;
    }
    None
}

/// The value of `chars[a..b]` read as an index, as `usize::from_str` reads it.
fn parse_index_range(chars: &Vec<char>, a: usize, b: usize) -> (r: Option<usize>)
    requires
        a <= b <= chars@.len(),
    ensures
        r == parse_index(chars@.subrange(a as int, b as int)),
{
    let ghost s = chars@.subrange(a as int, b as int);
    let mut p = a;
    if p < b && chars[p] == '+' {
        p += 1;
    }
    let ghost d = chars@.subrange(p as int, b as int);
    assert(d == unsigned_digits(s));
    if p == b {
        return None;
    }
    let mut value: usize = 0;
    let mut q = p;
    assert(d.subrange(0, 0) == Seq::<char>::empty());
    while q < b
        invariant
            a <= p < b <= chars@.len(),
            s == chars@.subrange(a as int, b as int),
            d == chars@.subrange(p as int, b as int),
            d == unsigned_digits(s),
            p <= q <= b,
            forall|i: int| 0 <= i < q - p ==> #[trigger] is_digit(d[i]),
            value == digits_value(d.subrange(0, q - p)),
        decreases b - q,
    {
        let c = chars[q];
        assert(d[q - p] == c);
        if !('0' <= c && c <= '9') {
            assert(!is_digit(d[q - p]));
            assert(!all_digits(d));
            return None;
        }
        let digit = ((c as u32) - ('0' as u32)) as usize;
        assert(d.subrange(0, q - p + 1).drop_last() == d.subrange(0, q - p));
        assert(d.subrange(0, q - p + 1).last() == c);
        match value.checked_mul(10) {
            None => {
                proof { lemma_overflow_rejected(d, q - p + 1); }
                return None;
            },
            Some(m) => match m.checked_add(digit) {
                None => {
                    proof { lemma_overflow_rejected(d, q - p + 1); }
                    return None;
                },
                Some(v) => {
                    value = v;
                },
            },
        }
        q += 1;
    }
    assert(d.subrange(0, d.len() as int) == d);
    assert(all_digits(d));
    Some(value)
}

/// A string of digits is worth at least any of its prefixes.
pub proof fn lemma_digits_prefix(d: Seq<char>, k: int)
    requires
        0 <= k <= d.len(),
        forall|i: int| 0 <= i < d.len() ==> #[trigger] is_digit(d[i]),
    ensures
        digits_value(d) >= digits_value(d.subrange(0, k)),
    decreases d.len(),
{
    if k < d.len() {
        assert forall|i: int| 0 <= i < d.drop_last().len() implies #[trigger] is_digit(d.drop_last()[i]) by {
            assert(d.drop_last()[i] == d[i]);
        }
        lemma_digits_prefix(d.drop_last(), k);
        assert(d.drop_last().subrange(0, k) == d.subrange(0, k));
    } else {
        assert(d.subrange(0, k) == d);
    }
}

/// Once a prefix of `d` is worth more than a `usize` holds, `d` is no index.
proof fn lemma_overflow_rejected(d: Seq<char>, k: int)
    requires
        0 < k <= d.len(),
        digits_value(d.subrange(0, k)) > usize::MAX,
    ensures
        !(all_digits(d) && digits_value(d) <= usize::MAX),
{
    if all_digits(d) {
        lemma_digits_prefix(d, k);
    }
}

/// The text `chars[a..b]` as a string.
fn range_string(chars: &Vec<char>, a: usize, b: usize) -> (s: String)
    requires
        a <= b <= chars@.len(),
    ensures
        s@ == chars@.subrange(a as int, b as int),
{
    let mut s = String::new();
    let mut q = a;
    while q < b
        invariant
            a <= q <= b <= chars@.len(),
            s@ == chars@.subrange(a as int, q as int),
        decreases b - q,
    {
        push_char(&mut s, chars[q]);
        assert(chars@.subrange(a as int, q + 1) == chars@.subrange(a as int, q as int).push(chars@[q as int]));
        q += 1;
    }
    s
}

/// Parse the expression `chars[lo..hi]`.
#[verifier::spinoff_prover]
#[verifier::rlimit(40)]
pub(crate) fn parse_expr_range(chars: &Vec<char>, lo: usize, hi: usize) -> (e: Expr)
    requires
        lo <= hi <= chars@.len(),
    ensures
        e.tree() == expr_tree(chars@.subrange(lo as int, hi as int)),
    decreases hi - lo,
{
    let ghost s = chars@.subrange(lo as int, hi as int);
    let (a, b) = trim_range(chars, lo, hi);
    let ghost t = chars@.subrange(a as int, b as int);
    proof {
        lemma_trim_shape(s);
        lemma_last_split_range(t, '+', '-', t.len() as int);
        lemma_last_split_range(t, '*', '/', t.len() as int);
    }
    match find_last_split(chars, a, b, '+', '-') {
        Some(j) => {
            let l = parse_expr_range(chars, a, j);
            let r = parse_expr_range(chars, j + 1, b);
            assert(t.subrange(0, j - a) == chars@.subrange(a as int, j as int));
            assert(t.subrange(j - a + 1, t.len() as int) == chars@.subrange(j + 1, b as int));
            assert(t[j - a] == chars@[j as int]);
            if chars[j] == '+' {
                Expr::Add(Box::new(l), Box::new(r))
            } else {
                Expr::Sub(Box::new(l), Box::new(r))
            }
        },
        None => match find_last_split(chars, a, b, '*', '/') {
            Some(j) => {
                let l = parse_expr_range(chars, a, j);
                let r = parse_expr_range(chars, j + 1, b);
                assert(t.subrange(0, j - a) == chars@.subrange(a as int, j as int));
                assert(t.subrange(j - a + 1, t.len() as int) == chars@.subrange(j + 1, b as int));
                assert(t[j - a] == chars@[j as int]);
                if chars[j] == '*' {
                    Expr::Mul(Box::new(l), Box::new(r))
                } else {
                    Expr::Div(Box::new(l), Box::new(r))
                }
            },
            None => {
                if b - a >= 2 && chars[a] == '(' && chars[b - 1] == ')' {
                    assert(t.subrange(1, t.len() - 1) == chars@.subrange(a + 1, b - 1));
                    parse_expr_range(chars, a + 1, b - 1)
                } else if b > a && chars[a] == '$' {
                    assert(t.drop_first() == chars@.subrange(a + 1, b as int));
                    match parse_index_range(chars, a + 1, b) {
                        Some(n) => Expr::Param(n),
                        None => Expr::BadParam,
                    }
                } else {
                    Expr::Literal(range_string(chars, a, b))
                }
            },
        },
    }
}

/// Parse an expression such as `$0/2` or `(3 + $1) * 2`.
pub fn parse_expr(s: &str) -> (e: Expr)
    ensures
        e.tree() == expr_tree(s@),
{
    let chars = chars_of(s);
    assert(chars@.subrange(0, chars@.len() as int) == s@);
    parse_expr_range(&chars, 0, chars.len())
}

/// `last_split_below` finds `i` when `i` splits `t` and no position in
/// `(i, k)` does.
proof fn lemma_last_split_is(t: Seq<char>, x: char, y: char, i: int, k: int)
    requires
        i < k <= t.len(),
        splits_at(t, x, y, i),
        forall|j: int| i < j < k ==> !#[trigger] splits_at(t, x, y, j),
    ensures
        last_split_below(t, x, y, k) == Some(i),
    decreases k,
{
    if k - 1 > i {
        lemma_last_split_is(t, x, y, i, k - 1);
    }
}

/// `last_split_below` finds nothing when no position below `k` splits `t`.
proof fn lemma_last_split_none(t: Seq<char>, x: char, y: char, k: int)
    requires
        k <= t.len(),
        forall|j: int| 1 <= j < k ==> !#[trigger] splits_at(t, x, y, j),
    ensures
        last_split_below(t, x, y, k) is None,
    decreases k,
{
    if k > 1 {
        lemma_last_split_none(t, x, y, k - 1);
    }
}

/// Sums and differences are read from left to right: when the trimmed
/// expression `t` has a `+` or `-` at position `i >= 1` outside parentheses
/// (what follows it closes as many parentheses as it opens), and no later
/// `+` or `-` is outside parentheses, the expression is the sum or
/// difference of `t[..i]` and `t[i+1..]`. So `a-b+c` is `(a-b)+c`.
pub proof fn law_sum_splits_at_last_operator(s: Seq<char>, i: int)
    requires
        1 <= i < trim_seq(s).len(),
        trim_seq(s)[i] == '+' || trim_seq(s)[i] == '-',
        paren_balance(trim_seq(s).subrange(i + 1, trim_seq(s).len() as int)) == 0,
        forall|j: int|
            i < j < trim_seq(s).len() && (trim_seq(s)[j] == '+' || trim_seq(s)[j] == '-')
                ==> paren_balance(#[trigger] trim_seq(s).subrange(j + 1, trim_seq(s).len() as int)) != 0,
    ensures
        expr_tree(s) == if trim_seq(s)[i] == '+' {
            ExprTree::Add(
                Box::new(expr_tree(trim_seq(s).subrange(0, i))),
                Box::new(expr_tree(trim_seq(s).subrange(i + 1, trim_seq(s).len() as int))),
            )
        } else {
            ExprTree::Sub(
                Box::new(expr_tree(trim_seq(s).subrange(0, i))),
                Box::new(expr_tree(trim_seq(s).subrange(i + 1, trim_seq(s).len() as int))),
            )
        },
{
    let t = trim_seq(s);
    assert forall|j: int| i < j < t.len() implies !#[trigger] splits_at(t, '+', '-', j) by {
        if t[j] == '+' || t[j] == '-' {
            assert(paren_balance(t.subrange(j + 1, t.len() as int)) != 0);
        }
    }
    lemma_last_split_is(t, '+', '-', i, t.len() as int);
}

/// Products and quotients bind tighter than sums and are also read from
/// left to right: when the trimmed expression `t` has no `+` or `-` at a
/// position `>= 1` outside parentheses, and has a `*` or `/` at position
/// `i >= 1` outside parentheses with no later one, the expression is the
/// product or quotient of `t[..i]` and `t[i+1..]`.
pub proof fn law_product_splits_at_last_operator(s: Seq<char>, i: int)
    requires
        1 <= i < trim_seq(s).len(),
        trim_seq(s)[i] == '*' || trim_seq(s)[i] == '/',
        paren_balance(trim_seq(s).subrange(i + 1, trim_seq(s).len() as int)) == 0,
        forall|j: int|
            1 <= j < trim_seq(s).len() && (trim_seq(s)[j] == '+' || trim_seq(s)[j] == '-')
                ==> paren_balance(#[trigger] trim_seq(s).subrange(j + 1, trim_seq(s).len() as int)) != 0,
        forall|j: int|
            i < j < trim_seq(s).len() && (trim_seq(s)[j] == '*' || trim_seq(s)[j] == '/')
                ==> paren_balance(#[trigger] trim_seq(s).subrange(j + 1, trim_seq(s).len() as int)) != 0,
    ensures
        expr_tree(s) == if trim_seq(s)[i] == '*' {
            ExprTree::Mul(
                Box::new(expr_tree(trim_seq(s).subrange(0, i))),
                Box::new(expr_tree(trim_seq(s).subrange(i + 1, trim_seq(s).len() as int))),
            )
        } else {
            ExprTree::Div(
                Box::new(expr_tree(trim_seq(s).subrange(0, i))),
                Box::new(expr_tree(trim_seq(s).subrange(i + 1, trim_seq(s).len() as int))),
            )
        },
{
    let t = trim_seq(s);
    assert forall|j: int| 1 <= j < t.len() implies !#[trigger] splits_at(t, '+', '-', j) by {
        if t[j] == '+' || t[j] == '-' {
            assert(paren_balance(t.subrange(j + 1, t.len() as int)) != 0);
        }
    }
    lemma_last_split_none(t, '+', '-', t.len() as int);
    assert forall|j: int| i < j < t.len() implies !#[trigger] splits_at(t, '*', '/', j) by {
        if t[j] == '*' || t[j] == '/' {
            assert(paren_balance(t.subrange(j + 1, t.len() as int)) != 0);
        }
    }
    lemma_last_split_is(t, '*', '/', i, t.len() as int);
}

/// `s[a..b]` is `s` without its leading and trailing white space: all of
/// `s` before `a` and from `b` on is white space, and `s[a..b]` neither
/// starts nor ends with white space.
pub open spec fn trimmed_at(s: Seq<char>, a: int, b: int) -> bool {
    &&& 0 <= a <= b <= s.len()
    &&& forall|k: int| 0 <= k < a ==> #[trigger] unicode_white_space(s[k])
    &&& forall|k: int| b <= k < s.len() ==> #[trigger] unicode_white_space(s[k])
    &&& a < b ==> !unicode_white_space(s[a]) && !unicode_white_space(s[b - 1])
}

/// Trimming removes exactly the white space at both ends of `s`.
pub proof fn law_trim_removes_end_white_space(s: Seq<char>)
    ensures
        exists|a: int, b: int| #[trigger] trimmed_at(s, a, b) && trim_seq(s) == s.subrange(a, b),
    decreases s.len(),
{
    if s.len() > 0 && unicode_white_space(s[0]) {
        let r = s.drop_first();
        law_trim_removes_end_white_space(r);
        let (a, b) = choose|a: int, b: int| #[trigger] trimmed_at(r, a, b) && trim_seq(r) == r.subrange(a, b);
        lemma_trimmed_front(s, a, b);
        assert(r.subrange(a, b) == s.subrange(a + 1, b + 1));
    } else if s.len() > 0 && unicode_white_space(s.last()) {
        let r = s.drop_last();
        law_trim_removes_end_white_space(r);
        let (a, b) = choose|a: int, b: int| #[trigger] trimmed_at(r, a, b) && trim_seq(r) == r.subrange(a, b);
        lemma_trimmed_back(s, a, b);
        assert(r.subrange(a, b) == s.subrange(a, b));
    } else {
        assert(s.subrange(0, s.len() as int) == s);
        assert(trimmed_at(s, 0, s.len() as int));
    }
}

proof fn lemma_trimmed_front(s: Seq<char>, a: int, b: int)
    requires
        s.len() > 0,
        unicode_white_space(s[0]),
        trimmed_at(s.drop_first(), a, b),
    ensures
        trimmed_at(s, a + 1, b + 1),
{
    let r = s.drop_first();
    assert forall|k: int| 0 <= k < a + 1 implies #[trigger] unicode_white_space(s[k]) by {
        if k > 0 {
            assert(s[k] == r[k - 1]);
        }
    }
    assert forall|k: int| b + 1 <= k < s.len() implies #[trigger] unicode_white_space(s[k]) by {
        assert(s[k] == r[k - 1]);
    }
    if a < b {
        assert(s[a + 1] == r[a]);
        assert(s[b] == r[b - 1]);
    }
}

proof fn lemma_trimmed_back(s: Seq<char>, a: int, b: int)
    requires
        s.len() > 0,
        unicode_white_space(s.last()),
        trimmed_at(s.drop_last(), a, b),
    ensures
        trimmed_at(s, a, b),
{
    let r = s.drop_last();
    assert forall|k: int| 0 <= k < a implies #[trigger] unicode_white_space(s[k]) by {
        assert(s[k] == r[k]);
    }
    assert forall|k: int| b <= k < s.len() implies #[trigger] unicode_white_space(s[k]) by {
        if k < s.len() - 1 {
            assert(s[k] == r[k]);
        }
    }
    if a < b {
        assert(s[a] == r[a]);
        assert(s[b - 1] == r[b - 1]);
    }
}

} // verus!
