//! Suggested-name generation for username conflicts.
//!
//! When a requested username is already taken, the suggestion is `base_i`
//! for the smallest positive `i` below 10000 whose candidate is free, and
//! `base_fallback` when every such candidate is taken.

use vstd::prelude::*;

verus! {

use crate::player::{name_taken, WorldState};

pub open spec fn digit_char(d: nat) -> char {
    if d == 0 { '0' }
    else if d == 1 { '1' }
    else if d == 2 { '2' }
    else if d == 3 { '3' }
    else if d == 4 { '4' }
    else if d == 5 { '5' }
    else if d == 6 { '6' }
    else if d == 7 { '7' }
    else if d == 8 { '8' }
    else { '9' }
}

/// The decimal digits of `n`, most significant first.
pub open spec fn decimal_digits(n: nat) -> Seq<char>
    decreases n,
{
    if n < 10 {
        seq![digit_char(n)]
    } else {
        decimal_digits(n / 10).push(digit_char(n % 10))
    }
}

/// The candidate suggestion `base_i`.
pub open spec fn candidate_name(base: Seq<char>, i: nat) -> Seq<char> {
    base + seq!['_'] + decimal_digits(i)
}

/// The suggestion of last resort, `base_fallback`.
pub open spec fn fallback_name(base: Seq<char>) -> Seq<char> {
    base + "_fallback"@
}

fn digit_str(d: u32) -> (r: &'static str)
    requires
        d < 10,
    ensures
        r@ == seq![digit_char(d as nat)],
{
    let r: &'static str = match d {
        0 => "0",
        1 => "1",
        2 => "2",
        3 => "3",
        4 => "4",
        5 => "5",
        6 => "6",
        7 => "7",
        8 => "8",
        _ => "9",
    };
    proof {
        reveal_strlit("0");
        reveal_strlit("1");
        reveal_strlit("2");
        reveal_strlit("3");
        reveal_strlit("4");
        reveal_strlit("5");
        reveal_strlit("6");
        reveal_strlit("7");
        reveal_strlit("8");
        reveal_strlit("9");
        assert(r@ =~= seq![digit_char(d as nat)]);
    }
    r
}

fn append_decimal(s: &mut String, n: u32)
    ensures
        final(s)@ == old(s)@ + decimal_digits(n as nat),
    decreases n,
{
    if n < 10 {
        s.append(digit_str(n));
    } else {
        append_decimal(s, n / 10);
        s.append(digit_str(n % 10));
        proof {
            assert(s@ =~= old(s)@ + decimal_digits(n as nat));
        }
    }
}

/// Suggest a free username derived from `base` against the given set of
/// players: `base_i` for the smallest `i` in `1..10000` not taken, and
/// `base_fallback` when all of them are taken.
pub fn generate_unique_name(world: &WorldState, base: &str) -> (r: String)
    ensures
        ({
            ||| exists|i: int|
                1 <= i < 10000
                && r@ == #[trigger] candidate_name(base@, i as nat)
                && !name_taken(world.players@, candidate_name(base@, i as nat))
                && (forall|j: int| 1 <= j < i ==> #[trigger] name_taken(world.players@, candidate_name(base@, j as nat)))
            ||| (r@ == fallback_name(base@)
                && forall|i: int| 1 <= i < 10000 ==> #[trigger] name_taken(world.players@, candidate_name(base@, i as nat)))
        }),
{
    let mut i: u32 = 1;
    while i < 10000
        invariant
            1 <= i <= 10000,
            forall|j: int| 1 <= j < i ==> #[trigger] name_taken(world.players@, candidate_name(base@, j as nat)),
        decreases 10000 - i,
    {
        let mut cand: String = base.to_owned();
        cand.append("_");
        append_decimal(&mut cand, i);
        proof {
            reveal_strlit("_");
            assert(cand@ =~= candidate_name(base@, i as nat));
        }
        if !world.has_name(&cand) {
            proof {
                let ghost w: int = i as int;
                assert(1 <= w < 10000);
                assert(cand@ == candidate_name(base@, w as nat));
                assert(!name_taken(world.players@, candidate_name(base@, w as nat)));
            }
            return cand;
        }
        i = i + 1;
    }
    let mut fb: String = base.to_owned();
    fb.append("_fallback");
    fb
}

} // verus!
