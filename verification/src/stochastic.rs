//! The pseudo-random generator that drives rule selection in stochastic
//! L-systems: a xorshift64 generator, so that one seed always gives the same
//! sequence of choices.
//!
//! The rule probabilities and the random numbers drawn from the generator's
//! state are floating point numbers; this module holds the generator's
//! integer state and the assembly of a rewritten string from the successors
//! drawn for its symbols.
use vstd::prelude::*;
use crate::text::{chars_of, push_char};
use vstd::string::StringExecFns;

verus! {

/// The state that follows `x` in the xorshift64 sequence (shifts 13, 7, 17).
pub open spec fn xorshift64_spec(x: u64) -> u64 {
    let a = x ^ (x << 13u64);
    let b = a ^ (a >> 7u64);
    b ^ (b << 17u64)
}

/// The seed a stochastic L-system starts from until another one is set.
pub const DEFAULT_SEED: u64 = 12345;

/// Advance the xorshift64 state.
pub fn xorshift64(x: u64) -> (next: u64)
    ensures
        next == xorshift64_spec(x),
{
    let mut s = x;
    s = s ^ (s << 13u64);
    s = s ^ (s >> 7u64);
    s = s ^ (s << 17u64);
    s
}

/// The state after `n` steps from `seed`.
pub open spec fn xorshift64_after(seed: u64, n: nat) -> u64
    decreases n,
{
    if n == 0 {
        seed
    } else {
        xorshift64_spec(xorshift64_after(seed, (n - 1) as nat))
    }
}

/// Zero is the one fixed point of the generator: a zero state stays zero,
/// and a non-zero state never becomes zero.
pub proof fn law_zero_state(x: u64)
    ensures
        (xorshift64_spec(x) == 0) <==> (x == 0),
{
    assert((x ^ (x << 13u64)) == 0 <==> x == 0) by (bit_vector);
    let a = x ^ (x << 13u64);
    assert((a ^ (a >> 7u64)) == 0 <==> a == 0) by (bit_vector);
    let b = a ^ (a >> 7u64);
    assert((b ^ (b << 17u64)) == 0 <==> b == 0) by (bit_vector);
}

/// A non-zero seed gives a non-zero state after any number of steps.
pub proof fn law_nonzero_seed_stays_nonzero(seed: u64, n: nat)
    requires
        seed != 0,
    ensures
        xorshift64_after(seed, n) != 0,
    decreases n,
{
    if n > 0 {
        law_nonzero_seed_stays_nonzero(seed, (n - 1) as nat);
        law_zero_state(xorshift64_after(seed, (n - 1) as nat));
    }
}

/// The successor chosen for the `i`-th symbol, if any.
pub open spec fn choice_at(choices: Seq<Option<Seq<char>>>, i: int) -> Option<Seq<char>> {
    if 0 <= i < choices.len() {
        choices[i]
    } else {
        None
    }
}

/// `input` rewritten with one choice per symbol: the `i`-th symbol becomes
/// the successor chosen for it, or stays as it is where none was chosen.
pub open spec fn apply_choices(input: Seq<char>, choices: Seq<Option<Seq<char>>>) -> Seq<char>
    decreases input.len(),
{
    if input.len() == 0 {
        Seq::empty()
    } else {
        apply_choices(input.drop_last(), choices) + match choice_at(choices, input.len() - 1) {
            Some(successor) => successor,
            None => seq![input.last()],
        }
    }
}

/// The view of a list of optional strings.
pub open spec fn choices_view(choices: Seq<Option<String>>) -> Seq<Option<Seq<char>>> {
    choices.map_values(
        |o: Option<String>|
            match o {
                Some(t) => Some(t@),
                None => None,
            },
    )
}

/// One step of stochastic rewriting, once the successor of every symbol has
/// been drawn: `choices[i]` is the successor drawn for the `i`-th symbol of
/// `input`, or `None` where no rule matches it (the symbol is kept).
pub fn rewrite_with_choices(input: &str, choices: &Vec<Option<String>>) -> (output: String)
    ensures
        output@ == apply_choices(input@, choices_view(choices@)),
{
    let chars = chars_of(input);
    let ghost cv = choices_view(choices@);
    let mut output = String::new();
    let mut i: usize = 0;
    while i < chars.len()
        invariant
            i <= chars@.len(),
            chars@ == input@,
            cv == choices_view(choices@),
            output@ == apply_choices(chars@.take(i as int), cv),
        decreases chars@.len() - i,
    {
        assert(chars@.take(i + 1).drop_last() == chars@.take(i as int));
        assert(chars@.take(i + 1).last() == chars@[i as int]);
        if i < choices.len() {
            match &choices[i] {
                Some(successor) => output.append(successor.as_str()),
                None => push_char(&mut output, chars[i]),
            }
        } else {
            push_char(&mut output, chars[i]);
        }
        i += 1;
    }
    assert(chars@.take(chars@.len() as int) == chars@);
    output
}

/// Each symbol is rewritten by its own choice: the result is, for each
/// position `i` of `input` in order, the successor chosen for position `i`,
/// or the symbol `input[i]` itself where none was chosen.
pub proof fn law_choices_per_position(input: Seq<char>, choices: Seq<Option<Seq<char>>>)
    ensures
        apply_choices(input, choices) == Seq::new(
            input.len(),
            |i: int|
                match choice_at(choices, i) {
                    Some(successor) => successor,
                    None => seq![input[i]],
                },
        ).flatten(),
    decreases input.len(),
{
    let parts = Seq::new(
        input.len(),
        |i: int|
            match choice_at(choices, i) {
                Some(successor) => successor,
                None => seq![input[i]],
            },
    );
    parts.lemma_flatten_and_flatten_alt_are_equivalent();
    if input.len() > 0 {
        let d = input.drop_last();
        law_choices_per_position(d, choices);
        let prev = Seq::new(
            d.len(),
            |i: int|
                match choice_at(choices, i) {
                    Some(successor) => successor,
                    None => seq![d[i]],
                },
        );
        prev.lemma_flatten_and_flatten_alt_are_equivalent();
        assert(parts.drop_last() =~= prev);
    } else {
        assert(parts.flatten_alt() == Seq::<char>::empty());
    }
}
} // verus!
