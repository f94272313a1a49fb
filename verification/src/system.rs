//! Core L-system: an initiator, production rules and parallel string rewriting.
//!
//! At each iteration every symbol of the current string is replaced by the
//! successor of the first rule whose predecessor it is, or kept as it is if
//! no rule matches.
use vstd::prelude::*;
use crate::expr::{count_of, lemma_count_bound};
use crate::rule::ProductionRule;
use crate::text::{chars_of, push_char};
use vstd::string::StringExecFns;
use std::collections::HashMap;

verus! {

/// The first rule of `rules` whose predecessor is `c`, if any.
pub open spec fn first_rule(rules: Seq<ProductionRule>, c: char) -> Option<ProductionRule>
    decreases rules.len(),
{
    if rules.len() == 0 {
        None
    } else if rules[0].predecessor == c {
        Some(rules[0])
    } else {
        first_rule(rules.drop_first(), c)
    }
}

/// What one rewriting step turns the symbol `c` into.
pub open spec fn successor_of(rules: Seq<ProductionRule>, c: char) -> Seq<char> {
    match first_rule(rules, c) {
        Some(rule) => rule.successor@,
        None => seq![c],
    }
}

/// One step of parallel rewriting: every symbol replaced by its successor.
pub open spec fn rewrite_seq(rules: Seq<ProductionRule>, s: Seq<char>) -> Seq<char>
    decreases s.len(),
{
    if s.len() == 0 {
        Seq::empty()
    } else {
        rewrite_seq(rules, s.drop_last()) + successor_of(rules, s.last())
    }
}

/// The string after `n` rewriting steps from `start`.
pub open spec fn iterate_seq(rules: Seq<ProductionRule>, start: Seq<char>, n: nat) -> Seq<char>
    decreases n,
{
    if n == 0 {
        start
    } else {
        rewrite_seq(rules, iterate_seq(rules, start, (n - 1) as nat))
    }
}

/// The code points of the characters of `s`.
pub open spec fn char_codes(s: Seq<char>) -> Seq<u32> {
    s.map_values(|c: char| c as u32)
}

/// A deterministic Lindenmayer system (D0L-system).
#[derive(Debug, Clone)]
pub struct LSystem {
    /// The initiator (initial string, the axiom of the system).
    pub initiator: String,
    /// Production rules.
    pub rules: Vec<ProductionRule>,
}

impl LSystem {
    /// The string after `n` iterations from the initiator.
    pub open spec fn generation(&self, n: nat) -> Seq<char> {
        iterate_seq(self.rules@, self.initiator@, n)
    }

    /// Create a new L-system with the given initiator and no rules.
    pub fn new(initiator: &str) -> (ls: Self)
        ensures
            ls.initiator@ == initiator@,
            ls.rules@.len() == 0,
    {
        proof {
            broadcast use vstd::string::group_string_axioms;
        }
        Self { initiator: initiator.to_string(), rules: Vec::new() }
    }

    /// Add a production rule.
    pub fn add_rule(&mut self, rule: ProductionRule)
        ensures
            final(self).initiator == old(self).initiator,
            final(self).rules@ == old(self).rules@.push(rule),
    {
        self.rules.push(rule);
    }

    /// Add a rule from a predecessor symbol and a successor string.
    pub fn add_rule_str(&mut self, predecessor: char, successor: &str)
        ensures
            final(self).initiator == old(self).initiator,
            final(self).rules@.len() == old(self).rules@.len() + 1,
            final(self).rules@.drop_last() == old(self).rules@,
            final(self).rules@.last().predecessor == predecessor,
            final(self).rules@.last().successor@ == successor@,
    {
        self.rules.push(ProductionRule::new(predecessor, successor));
    }

    /// Find the first rule matching the given symbol.
    pub fn find_rule(&self, symbol: char) -> (r: Option<&ProductionRule>)
        ensures
            match r {
                Some(rule) => first_rule(self.rules@, symbol) == Some(*rule),
                None => first_rule(self.rules@, symbol) is None,
            },
    {
        let mut i: usize = 0;
        assert(self.rules@.skip(0) == self.rules@);
        while i < self.rules.len()
            invariant
                i <= self.rules@.len(),
                first_rule(self.rules@, symbol) == first_rule(self.rules@.skip(i as int), symbol),
            decreases self.rules@.len() - i,
        {
            assert(self.rules@.skip(i as int).drop_first() == self.rules@.skip(i + 1));
            if self.rules[i].matches(symbol) {
                return Some(&self.rules[i]);
            }
            i += 1;
        }
        None
    }

    /// Apply one iteration of string rewriting.
    ///
    /// Each symbol of the input is replaced by its successor if a matching rule
    /// exists, or kept as it is otherwise.
    pub fn rewrite(&self, input: &str) -> (output: String)
        ensures
            output@ == rewrite_seq(self.rules@, input@),
    {
        let chars = chars_of(input);
        let mut output = String::new();
        let mut i: usize = 0;
        while i < chars.len()
            invariant
                i <= chars@.len(),
                chars@ == input@,
                output@ == rewrite_seq(self.rules@, chars@.take(i as int)),
            decreases chars@.len() - i,
        {
            let ch = chars[i];
            assert(chars@.take(i + 1).drop_last() == chars@.take(i as int));
            match self.find_rule(ch) {
                Some(rule) => output.append(rule.successor.as_str()),
                None => push_char(&mut output, ch),
            }
            i += 1;
        }
        assert(chars@.take(chars@.len() as int) == chars@);
        output
    }

    /// Iterate the L-system `n` times starting from the initiator.
    pub fn iterate(&mut self, n: usize) -> (result: String)
        ensures
            *final(self) == *old(self),
            result@ == old(self).generation(n as nat),
    {
        let mut current = self.initiator.clone();
        let mut k: usize = 0;
        while k < n
            invariant
                k <= n,
                current@ == self.generation(k as nat),
            decreases n - k,
        {
            current = self.rewrite(current.as_str());
            k += 1;
        }
        current
    }

    /// Iterate and return all intermediate strings, the initiator included.
    pub fn iterate_all(&mut self, n: usize) -> (results: Vec<String>)
        ensures
            *final(self) == *old(self),
            results@.len() == n + 1,
            forall|k: int| 0 <= k <= n ==> #[trigger] results@[k]@ == old(self).generation(k as nat),
    {
        let mut results: Vec<String> = Vec::new();
        results.push(self.initiator.clone());
        let mut k: usize = 0;
        while k < n
            invariant
                k <= n,
                results@.len() == k + 1,
                forall|j: int| 0 <= j <= k ==> #[trigger] results@[j]@ == self.generation(j as nat),
            decreases n - k,
        {
            let next = self.rewrite(results[k].as_str());
            results.push(next);
            k += 1;
        }
        results
    }

    /// Count the occurrences of each symbol of `s`, keyed by the symbol's
    /// code point (`c as u32`).
    pub fn symbol_counts(&self, s: &str) -> (counts: HashMap<u32, usize>)
        ensures
            forall|code: u32| #[trigger] counts@.contains_key(code) <==> count_of(char_codes(s@), code) > 0,
            forall|code: u32| #[trigger] counts@.contains_key(code) ==> counts@[code] == count_of(char_codes(s@), code),
    {
        proof {
            broadcast use vstd::std_specs::hash::group_hash_axioms;
        }
        let chars = chars_of(s);
        let mut counts: HashMap<u32, usize> = HashMap::new();
        let mut i: usize = 0;
        while i < chars.len()
            invariant
                i <= chars@.len(),
                chars@ == s@,
                forall|code: u32| #[trigger] counts@.contains_key(code) <==> count_of(char_codes(chars@.take(i as int)), code) > 0,
                forall|code: u32| #[trigger] counts@.contains_key(code) ==> counts@[code] == count_of(char_codes(chars@.take(i as int)), code),
            decreases chars@.len() - i,
        {
            let code = chars[i] as u32;
            let ghost before = char_codes(chars@.take(i as int));
            let ghost after = char_codes(chars@.take(i + 1));
            assert(after =~= before.push(code));
            assert(after.drop_last() == before);
            assert(after.last() == code);
            proof {
                lemma_count_bound(before, code);
            }
            let current: usize = match counts.get(&code) {
                Some(v) => *v,
                None => 0,
            };
            counts.insert(code, current + 1);
            i += 1;
        }
        assert(chars@.take(chars@.len() as int) == chars@);
        counts
    }

    /// The byte length of the string after `n` iterations.
    pub fn estimate_length(&mut self, n: usize) -> (len: usize)
        ensures
            *final(self) == *old(self),
            len == vstd::utf8::encode_utf8(old(self).generation(n as nat)).len() as usize,
    {
        let s = self.iterate(n);
        s.as_str().len()
    }
}

/// Rewriting is a morphism of strings: the successor of every symbol is
/// chosen independently of its neighbours, so rewriting a concatenation
/// rewrites each part.
pub proof fn law_rewrite_concat(rules: Seq<ProductionRule>, a: Seq<char>, b: Seq<char>)
    ensures
        rewrite_seq(rules, a + b) == rewrite_seq(rules, a) + rewrite_seq(rules, b),
    decreases b.len(),
{
    if b.len() == 0 {
        assert(a + b == a);
    } else {
        law_rewrite_concat(rules, a, b.drop_last());
        assert((a + b).drop_last() == a + b.drop_last());
        assert((a + b).last() == b.last());
    }
}

/// Iterating a concatenation iterates each part: `n` generations grown from
/// `a + b` are the generations of `a` followed by those of `b`.
pub proof fn law_iterate_concat(rules: Seq<ProductionRule>, a: Seq<char>, b: Seq<char>, n: nat)
    ensures
        iterate_seq(rules, a + b, n) == iterate_seq(rules, a, n) + iterate_seq(rules, b, n),
    decreases n,
{
    if n > 0 {
        law_iterate_concat(rules, a, b, (n - 1) as nat);
        law_rewrite_concat(
            rules,
            iterate_seq(rules, a, (n - 1) as nat),
            iterate_seq(rules, b, (n - 1) as nat),
        );
    }
}

/// Iteration composes: `n` generations grown from the `m`-th generation are
/// the `m + n`-th generation.
pub proof fn law_iterate_compose(rules: Seq<ProductionRule>, s: Seq<char>, m: nat, n: nat)
    ensures
        iterate_seq(rules, iterate_seq(rules, s, m), n) == iterate_seq(rules, s, m + n),
    decreases n,
{
    if n > 0 {
        law_iterate_compose(rules, s, m, (n - 1) as nat);
        assert((m + n - 1) as nat == m + (n - 1) as nat);
    }
}

/// A symbol that no rule matches is kept as it is.
pub proof fn law_unmatched_symbol_kept(rules: Seq<ProductionRule>, c: char)
    requires
        forall|i: int| 0 <= i < rules.len() ==> #[trigger] rules[i].predecessor != c,
    ensures
        first_rule(rules, c) is None,
        successor_of(rules, c) == seq![c],
        rewrite_seq(rules, seq![c]) == seq![c],
    decreases rules.len(),
{
    if rules.len() > 0 {
        assert(rules[0].predecessor != c);
        assert forall|i: int| 0 <= i < rules.drop_first().len() implies
            #[trigger] rules.drop_first()[i].predecessor != c by {
            assert(rules.drop_first()[i] == rules[i + 1]);
        }
        law_unmatched_symbol_kept(rules.drop_first(), c);
    }
    assert(seq![c].drop_last() == Seq::<char>::empty());
    assert(seq![c].last() == c);
    assert(rewrite_seq(rules, Seq::<char>::empty()) == Seq::<char>::empty());
    assert(Seq::<char>::empty() + seq![c] == seq![c]);
}

/// A string whose every symbol rewrites to itself (no rule matches it, or
/// its first matching rule maps it to itself) is a fixed point: every
/// generation grown from it is the string itself.
pub proof fn law_fixed_symbols_fixed_string(rules: Seq<ProductionRule>, s: Seq<char>, n: nat)
    requires
        forall|i: int| 0 <= i < s.len() ==> #[trigger] successor_of(rules, s[i]) == seq![s[i]],
    ensures
        rewrite_seq(rules, s) == s,
        iterate_seq(rules, s, n) == s,
    decreases n,
{
    lemma_fixed_symbols_rewrite(rules, s);
    if n > 0 {
        law_fixed_symbols_fixed_string(rules, s, (n - 1) as nat);
    }
}

proof fn lemma_fixed_symbols_rewrite(rules: Seq<ProductionRule>, s: Seq<char>)
    requires
        forall|i: int| 0 <= i < s.len() ==> #[trigger] successor_of(rules, s[i]) == seq![s[i]],
    ensures
        rewrite_seq(rules, s) == s,
    decreases s.len(),
{
    if s.len() > 0 {
        let t = s.drop_last();
        assert forall|i: int| 0 <= i < t.len() implies #[trigger] successor_of(rules, t[i]) == seq![t[i]] by {
            assert(t[i] == s[i]);
        }
        lemma_fixed_symbols_rewrite(rules, t);
        assert(successor_of(rules, s[s.len() - 1]) == seq![s[s.len() - 1]]);
        assert(t.push(s.last()) == s);
        assert(t + seq![s.last()] == s);
    }
}

/// Without rules an L-system never changes its string.
pub proof fn law_no_rules_identity(rules: Seq<ProductionRule>, s: Seq<char>, n: nat)
    requires
        rules.len() == 0,
    ensures
        iterate_seq(rules, s, n) == s,
{
    assert forall|i: int| 0 <= i < s.len() implies #[trigger] successor_of(rules, s[i]) == seq![s[i]] by {
        law_unmatched_symbol_kept(rules, s[i]);
    }
    law_fixed_symbols_fixed_string(rules, s, n);
}

/// With rules that never erase a symbol (every successor is non-empty), a
/// string never shrinks when it is rewritten, and the generations grow
/// monotonically in length.
pub proof fn law_non_erasing_growth(rules: Seq<ProductionRule>, s: Seq<char>, n: nat)
    requires
        forall|i: int| 0 <= i < rules.len() ==> #[trigger] rules[i].successor@.len() >= 1,
    ensures
        rewrite_seq(rules, s).len() >= s.len(),
        iterate_seq(rules, s, n + 1).len() >= iterate_seq(rules, s, n).len(),
{
    lemma_non_erasing_rewrite(rules, s);
    lemma_non_erasing_rewrite(rules, iterate_seq(rules, s, n));
}

proof fn lemma_first_rule_member(rules: Seq<ProductionRule>, c: char)
    ensures
        first_rule(rules, c) matches Some(r) ==> exists|i: int| 0 <= i < rules.len() && rules[i] == r,
    decreases rules.len(),
{
    if rules.len() > 0 && rules[0].predecessor != c {
        lemma_first_rule_member(rules.drop_first(), c);
        if let Some(r) = first_rule(rules, c) {
            let j = choose|j: int| 0 <= j < rules.drop_first().len() && rules.drop_first()[j] == r;
            assert(rules[j + 1] == r);
        }
    }
}

proof fn lemma_non_erasing_rewrite(rules: Seq<ProductionRule>, s: Seq<char>)
    requires
        forall|i: int| 0 <= i < rules.len() ==> #[trigger] rules[i].successor@.len() >= 1,
    ensures
        rewrite_seq(rules, s).len() >= s.len(),
    decreases s.len(),
{
    if s.len() > 0 {
        lemma_non_erasing_rewrite(rules, s.drop_last());
        lemma_first_rule_member(rules, s.last());
    }
}

/// The string of `n` copies of `c`.
pub open spec fn repeat_char(c: char, n: nat) -> Seq<char> {
    Seq::new(n, |i: int| c)
}

/// `k` raised to the power `n`.
pub open spec fn power(k: nat, n: nat) -> nat
    decreases n,
{
    if n == 0 {
        1
    } else {
        k * power(k, (n - 1) as nat)
    }
}

proof fn lemma_rewrite_repeat(rules: Seq<ProductionRule>, c: char, k: nat, m: nat)
    requires
        successor_of(rules, c) == repeat_char(c, k),
    ensures
        rewrite_seq(rules, repeat_char(c, m)) == repeat_char(c, k * m),
    decreases m,
{
    if m > 0 {
        lemma_rewrite_repeat(rules, c, k, (m - 1) as nat);
        assert(repeat_char(c, m).drop_last() == repeat_char(c, (m - 1) as nat));
        assert(repeat_char(c, m).last() == c);
        assert(k * m == k * (m - 1) + k) by (nonlinear_arith)
            requires
                m > 0,
        ;
        assert(repeat_char(c, (k * (m - 1)) as nat) + repeat_char(c, k) =~= repeat_char(c, k * m));
    } else {
        assert(repeat_char(c, 0) == Seq::<char>::empty());
        assert(k * m == 0) by (nonlinear_arith)
            requires
                m == 0,
        ;
        assert(repeat_char(c, k * m) =~= Seq::<char>::empty());
    }
}

/// A string of one symbol whose successor is that symbol `k` times grows by
/// a factor of `k` at each step: after `n` steps it is `k^n` times as long,
/// and still made of that one symbol.
pub proof fn law_single_symbol_growth(rules: Seq<ProductionRule>, c: char, k: nat, m: nat, n: nat)
    requires
        successor_of(rules, c) == repeat_char(c, k),
    ensures
        iterate_seq(rules, repeat_char(c, m), n) == repeat_char(c, power(k, n) * m),
    decreases n,
{
    if n == 0 {
        assert(power(k, 0) == 1);
        assert(power(k, 0) * m == m);
    } else {
        law_single_symbol_growth(rules, c, k, m, (n - 1) as nat);
        lemma_rewrite_repeat(rules, c, k, power(k, (n - 1) as nat) * m);
        assert(k * (power(k, (n - 1) as nat) * m) == power(k, n) * m) by (nonlinear_arith)
            requires
                power(k, n) == k * power(k, (n - 1) as nat),
        ;
    }
}

/// The Fibonacci L-system (`A -> AB`, `B -> A`, started from `A`): each
/// generation is the previous one followed by the one before it, so the
/// lengths of the generations are the Fibonacci numbers.
pub proof fn law_fibonacci_words(rules: Seq<ProductionRule>, n: nat)
    requires
        rules.len() == 2,
        rules[0].predecessor == 'A',
        rules[0].successor@ == seq!['A', 'B'],
        rules[1].predecessor == 'B',
        rules[1].successor@ == seq!['A'],
    ensures
        iterate_seq(rules, seq!['A'], n + 2)
            == iterate_seq(rules, seq!['A'], n + 1) + iterate_seq(rules, seq!['A'], n),
        iterate_seq(rules, seq!['A'], n + 2).len()
            == iterate_seq(rules, seq!['A'], n + 1).len() + iterate_seq(rules, seq!['A'], n).len(),
    decreases n,
{
    let a = seq!['A'];
    assert(first_rule(rules, 'A') == Some(rules[0]));
    assert(rules.drop_first()[0] == rules[1]);
    assert(first_rule(rules.drop_first(), 'B') == Some(rules.drop_first()[0]));
    assert(first_rule(rules, 'B') == Some(rules[1]));
    if n == 0 {
        assert(a.drop_last() == Seq::<char>::empty());
        assert(a.last() == 'A');
        assert(rewrite_seq(rules, Seq::<char>::empty()) == Seq::<char>::empty());
        assert(Seq::<char>::empty() + seq!['A', 'B'] =~= seq!['A', 'B']);
        assert(rewrite_seq(rules, a) == seq!['A', 'B']);
        let ab = seq!['A', 'B'];
        assert(ab.drop_last() == a);
        assert(ab.last() == 'B');
        assert(rewrite_seq(rules, ab) == seq!['A', 'B'] + seq!['A']);
        assert(iterate_seq(rules, a, 1) == rewrite_seq(rules, iterate_seq(rules, a, 0)));
        assert(iterate_seq(rules, a, 2) == rewrite_seq(rules, iterate_seq(rules, a, 1)));
    } else {
        law_fibonacci_words(rules, (n - 1) as nat);
        law_rewrite_concat(rules, iterate_seq(rules, a, n), iterate_seq(rules, a, (n - 1) as nat));
        assert(iterate_seq(rules, a, n + 2) == rewrite_seq(rules, iterate_seq(rules, a, n + 1)));
        assert(iterate_seq(rules, a, n + 1) == rewrite_seq(rules, iterate_seq(rules, a, n)));
        assert(iterate_seq(rules, a, n) == rewrite_seq(rules, iterate_seq(rules, a, (n - 1) as nat)));
    }
}

/// The generations of an L-system: generation 0 is its initiator, and each
/// next generation is the current one rewritten once.
pub proof fn law_generation_step(ls: LSystem, n: nat)
    ensures
        ls.generation(0) == ls.initiator@,
        ls.generation(n + 1) == rewrite_seq(ls.rules@, ls.generation(n)),
{
    assert((n + 1 - 1) as nat == n);
}

/// A symbol is rewritten by the first rule for it: when `rules[i]` is the
/// first rule whose predecessor is `c`, that rule is the one found and its
/// successor replaces `c`.
pub proof fn law_first_matching_rule(rules: Seq<ProductionRule>, c: char, i: int)
    requires
        0 <= i < rules.len(),
        rules[i].predecessor == c,
        forall|j: int| 0 <= j < i ==> #[trigger] rules[j].predecessor != c,
    ensures
        first_rule(rules, c) == Some(rules[i]),
        successor_of(rules, c) == rules[i].successor@,
    decreases i,
{
    if i > 0 {
        assert(rules[0].predecessor != c);
        assert forall|j: int| 0 <= j < i - 1 implies #[trigger] rules.drop_first()[j].predecessor != c by {
            assert(rules.drop_first()[j] == rules[j + 1]);
        }
        assert(rules.drop_first()[i - 1] == rules[i]);
        law_first_matching_rule(rules.drop_first(), c, i - 1);
    }
}

/// Rewriting replaces each symbol on its own: the result is the successors
/// of the symbols of `s`, one after the other, in the order of `s`.
pub proof fn law_rewrite_per_symbol(rules: Seq<ProductionRule>, s: Seq<char>)
    ensures
        rewrite_seq(rules, s) == Seq::new(s.len(), |i: int| successor_of(rules, s[i])).flatten(),
    decreases s.len(),
{
    let parts = Seq::new(s.len(), |i: int| successor_of(rules, s[i]));
    parts.lemma_flatten_and_flatten_alt_are_equivalent();
    if s.len() > 0 {
        law_rewrite_per_symbol(rules, s.drop_last());
        let prev = Seq::new(s.drop_last().len(), |i: int| successor_of(rules, s.drop_last()[i]));
        prev.lemma_flatten_and_flatten_alt_are_equivalent();
        assert(parts.drop_last() =~= prev);
        assert(parts.last() == successor_of(rules, s.last()));
    } else {
        assert(parts.flatten_alt() == Seq::<char>::empty());
    }
}

/// The key under which `symbol_counts` counts the `i`-th symbol is that
/// symbol's own code point.
pub proof fn law_symbol_keys(s: Seq<char>)
    ensures
        char_codes(s).len() == s.len(),
        forall|i: int| 0 <= i < s.len() ==> #[trigger] char_codes(s)[i] == s[i] as u32,
{
}
} // verus!
