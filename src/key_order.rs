//! The order in which row keys are listed: by number where both keys are
//! numbers, else by text.
use vstd::prelude::*;

use crate::text::{chars_of, is_u64_text, parse_u64, unsigned_text_value};

verus! {

/// `a` comes before `b` in code point order: at the first index where they
/// differ `a` has the smaller character, or `a` is a proper prefix of `b`.
pub open spec fn lex_lt(a: Seq<char>, b: Seq<char>) -> bool {
    exists|i: int|
        0 <= i <= a.len() && i <= b.len() && #[trigger] a.take(i) == b.take(i) && {
            ||| i == a.len() && i < b.len()
            ||| i < a.len() && i < b.len() && (a[i] as u32) < (b[i] as u32)
        }
}

/// `a` is listed before `b`: by value where both are `u64` numbers, else by
/// text.
pub open spec fn key_order_lt(a: Seq<char>, b: Seq<char>) -> bool {
    if is_u64_text(a) && is_u64_text(b) {
        unsigned_text_value(a) < unsigned_text_value(b)
    } else {
        lex_lt(a, b)
    }
}

/// Two keys are never each before the other.
pub proof fn lemma_key_order_asymmetric(a: Seq<char>, b: Seq<char>)
    ensures
        !(key_order_lt(a, b) && key_order_lt(b, a)),
{
    if !(is_u64_text(a) && is_u64_text(b)) && lex_lt(a, b) && lex_lt(b, a) {
        let i = choose|i: int|
            0 <= i <= a.len() && i <= b.len() && #[trigger] a.take(i) == b.take(i) && {
                ||| i == a.len() && i < b.len()
                ||| i < a.len() && i < b.len() && (a[i] as u32) < (b[i] as u32)
            };
        let j = choose|j: int|
            0 <= j <= b.len() && j <= a.len() && #[trigger] b.take(j) == a.take(j) && {
                ||| j == b.len() && j < a.len()
                ||| j < b.len() && j < a.len() && (b[j] as u32) < (a[j] as u32)
            };
        if i < j {
            assert(a.take(j)[i] == b.take(j)[i]);
        } else if j < i {
            assert(a.take(i)[j] == b.take(i)[j]);
        }
    }
}

/// Exact check of `lex_lt`.
fn text_lt(a: &str, b: &str) -> (r: bool)
    ensures
        r == lex_lt(a@, b@),
{
    let x = chars_of(a);
    let y = chars_of(b);
    let mut i: usize = 0;
    while i < x.len() && i < y.len() && x[i] == y[i]
        invariant
            i <= x.len(),
            i <= y.len(),
            x@.take(i as int) == y@.take(i as int),
        decreases x.len() - i,
    {
        assert(x@.take(i + 1) =~= x@.take(i as int).push(x@[i as int]));
        assert(y@.take(i + 1) =~= y@.take(i as int).push(y@[i as int]));
        i += 1;
    }
    let r = if i < x.len() && i < y.len() {
        (x[i] as u32) < (y[i] as u32)
    } else {
        i == x.len() && i < y.len()
    };
    proof {
        assert forall|j: int|
            0 <= j <= x@.len() && j <= y@.len() && #[trigger] x@.take(j) == y@.take(j) && {
                ||| j == x@.len() && j < y@.len()
                ||| j < x@.len() && j < y@.len() && (x@[j] as u32) < (y@[j] as u32)
            } implies j == i by {
            if j < i {
                assert(x@.take(i as int)[j] == y@.take(i as int)[j]);
            } else if j > i {
                assert(x@.take(j)[i as int] == y@.take(j)[i as int]);
            }
        }
    }
    r
}

/// Exact check of `key_order_lt`.
pub fn key_lt(a: &str, b: &str) -> (r: bool)
    ensures
        r == key_order_lt(a@, b@),
{
    match (parse_u64(a), parse_u64(b)) {
        (Some(x), Some(y)) => x < y,
        _ => text_lt(a, b),
    }
}

} // verus!
