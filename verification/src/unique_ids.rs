use rand::rngs::{SysError, SysRng};
use rand::TryRng;
use vstd::prelude::*;

use crate::ResponsePayload;

verus! {

/// The character of a decimal digit.
pub open spec fn digit_char(d: int) -> char {
    if d == 0 {
        '0'
    } else if d == 1 {
        '1'
    } else if d == 2 {
        '2'
    } else if d == 3 {
        '3'
    } else if d == 4 {
        '4'
    } else if d == 5 {
        '5'
    } else if d == 6 {
        '6'
    } else if d == 7 {
        '7'
    } else if d == 8 {
        '8'
    } else {
        '9'
    }
}

/// The decimal notation of `n`, without leading zeros.
pub open spec fn decimal(n: nat) -> Seq<char>
    decreases n,
{
    if n < 10 {
        seq![digit_char(n as int)]
    } else {
        decimal(n / 10).push(digit_char((n % 10) as int))
    }
}

/// The identifier that `seed` and the number `n` make: the seed, a dash,
/// and `n` in decimal.
pub open spec fn id_text(seed: Seq<char>, n: u32) -> Seq<char> {
    seed + seq!['-'] + decimal(n as nat)
}

/// A decimal notation has at least one digit, and at least two from ten on.
proof fn lemma_decimal_len(n: nat)
    ensures
        decimal(n).len() >= 1,
        n >= 10 ==> decimal(n).len() >= 2,
    decreases n,
{
    if n >= 10 {
        lemma_decimal_len(n / 10);
    }
}

/// Different digits have different characters.
proof fn lemma_digit_injective(x: int, y: int)
    requires
        0 <= x < 10,
        0 <= y < 10,
        digit_char(x) == digit_char(y),
    ensures
        x == y,
{
}

/// Different numbers have different decimal notations.
pub proof fn law_decimal_injective(a: nat, b: nat)
    requires
        decimal(a) == decimal(b),
    ensures
        a == b,
    decreases a,
{
    lemma_decimal_len(a);
    lemma_decimal_len(b);
    if a < 10 && b < 10 {
        assert(decimal(a)[0] == digit_char(a as int));
        assert(decimal(b)[0] == digit_char(b as int));
        lemma_digit_injective(a as int, b as int);
    } else if a >= 10 && b >= 10 {
        assert(decimal(a) == decimal(a / 10).push(digit_char((a % 10) as int)));
        assert(decimal(b) == decimal(b / 10).push(digit_char((b % 10) as int)));
        assert(decimal(a).last() == digit_char((a % 10) as int));
        assert(decimal(b).last() == digit_char((b % 10) as int));
        assert(decimal(a).drop_last() =~= decimal(a / 10));
        assert(decimal(b).drop_last() =~= decimal(b / 10));
        law_decimal_injective(a / 10, b / 10);
        lemma_digit_injective((a % 10) as int, (b % 10) as int);
    }
}

/// A node gives two different random numbers different identifiers.
pub proof fn law_ids_distinct(seed: Seq<char>, a: u32, b: u32)
    requires
        a != b,
    ensures
        id_text(seed, a) != id_text(seed, b),
{
    if id_text(seed, a) == id_text(seed, b) {
        assert(id_text(seed, a).skip(seed.len() as int + 1) =~= decimal(a as nat));
        assert(id_text(seed, b).skip(seed.len() as int + 1) =~= decimal(b as nat));
        law_decimal_injective(a as nat, b as nat);
    }
}

/// A decimal notation holds no dash.
proof fn lemma_decimal_no_dash(n: nat)
    ensures
        !decimal(n).contains('-'),
    decreases n,
{
    if n >= 10 {
        lemma_decimal_no_dash(n / 10);
        let d = decimal(n);
        assert(d == decimal(n / 10).push(digit_char((n % 10) as int)));
        if d.contains('-') {
            let k = choose|k: int| 0 <= k < d.len() && d[k] == '-';
            if k < d.len() - 1 {
                assert(decimal(n / 10)[k] == '-');
            }
        }
    } else {
        if decimal(n).contains('-') {
            let k = choose|k: int| 0 <= k < decimal(n).len() && decimal(n)[k] == '-';
            assert(decimal(n)[k] == digit_char(n as int));
        }
    }
}

/// An identifier determines the node and the number it was made from: it
/// splits at its last dash into the seed and the number's digits. So two
/// identifiers differ whenever their (seed, number) pairs differ.
pub proof fn law_id_determines_seed_and_number(s1: Seq<char>, a: u32, s2: Seq<char>, b: u32)
    requires
        id_text(s1, a) == id_text(s2, b),
    ensures
        s1 == s2,
        a == b,
{
    let d1 = decimal(a as nat);
    let d2 = decimal(b as nat);
    let x = id_text(s1, a);
    lemma_decimal_no_dash(a as nat);
    lemma_decimal_no_dash(b as nat);
    assert(x.len() == s1.len() + 1 + d1.len());
    assert(x.len() == s2.len() + 1 + d2.len());
    assert(x[s1.len() as int] == '-');
    assert(id_text(s2, b)[s2.len() as int] == '-');
    if d1.len() < d2.len() {
        let p = s1.len() as int;
        assert(p > s2.len());
        assert(id_text(s2, b)[p] == d2[p - s2.len() - 1]);
        assert(d2.contains(d2[p - s2.len() - 1]));
    } else if d2.len() < d1.len() {
        let p = s2.len() as int;
        assert(p > s1.len());
        assert(x[p] == d1[p - s1.len() - 1]);
        assert(d1.contains(d1[p - s1.len() - 1]));
    } else {
        assert(s1 =~= x.take(s1.len() as int));
        assert(s2 =~= id_text(s2, b).take(s2.len() as int));
        assert(d1 =~= x.skip(s1.len() as int + 1));
        assert(d2 =~= id_text(s2, b).skip(s2.len() as int + 1));
        law_decimal_injective(a as nat, b as nat);
    }
}

pub(crate) fn digit_str(d: u32) -> (s: &'static str)
    requires
        d < 10,
    ensures
        s@ == seq![digit_char(d as int)],
{
    if d == 0 {
        proof {
            reveal_strlit("0");
        }
        "0"
    } else if d == 1 {
        proof {
            reveal_strlit("1");
        }
        "1"
    } else if d == 2 {
        proof {
            reveal_strlit("2");
        }
        "2"
    } else if d == 3 {
        proof {
            reveal_strlit("3");
        }
        "3"
    } else if d == 4 {
        proof {
            reveal_strlit("4");
        }
        "4"
    } else if d == 5 {
        proof {
            reveal_strlit("5");
        }
        "5"
    } else if d == 6 {
        proof {
            reveal_strlit("6");
        }
        "6"
    } else if d == 7 {
        proof {
            reveal_strlit("7");
        }
        "7"
    } else if d == 8 {
        proof {
            reveal_strlit("8");
        }
        "8"
    } else {
        proof {
            reveal_strlit("9");
        }
        "9"
    }
}

/// Writes `n` in decimal.
pub fn decimal_string(n: u32) -> (s: String)
    ensures
        s@ == decimal(n as nat),
    decreases n,
{
    if n < 10 {
        String::from_str(digit_str(n))
    } else {
        let mut s = decimal_string(n / 10);
        s.append(digit_str(n % 10));
        s
    }
}

/// The identifier made of `seed` and `n`.
pub fn generated_id(seed: &str, n: u32) -> (id: String)
    ensures
        id@ == id_text(seed@, n),
{
    let mut id = String::from_str(seed);
    proof {
        reveal_strlit("-");
    }
    id.append("-");
    let digits = decimal_string(n);
    id.append(digits.as_str());
    id
}

/// The error of the operating system's random source.
#[verifier::external_type_specification]
#[verifier::external_body]
pub struct ExSysError(SysError);

/// Draws a `u32` from the operating system's random source through
/// `SysRng::try_next_u32`, which reports a failure of the source as an
/// error. Nothing is claimed of the value: every `u32` may come back, two
/// calls may differ, and either call may fail.
#[verifier::external_body]
fn random_u32() -> (drawn: Result<u32, SysError>) {
    SysRng.try_next_u32()
}

/// Why no identifier could be made.
#[derive(Debug, Clone, Copy, PartialEq, Eq)]
pub enum GenerateError {
    /// The system's random source failed.
    NoRandomness,
}

/// The reply to a request for a unique identifier, once a number was drawn:
/// `seed`, a dash and the number in decimal; or the error if the draw failed.
pub fn generate_reply(seed: &str, drawn: Result<u32, SysError>) -> (res: Result<
    ResponsePayload,
    GenerateError,
>)
    ensures
        match drawn {
            Ok(n) => res matches Ok(ResponsePayload::GenerateOk { id }) && id@ == id_text(seed@, n),
            Err(_) => res == Err::<ResponsePayload, GenerateError>(GenerateError::NoRandomness),
        },
{
    match drawn {
        Ok(n) => Ok(ResponsePayload::GenerateOk { id: generated_id(seed, n) }),
        Err(_) => Err(GenerateError::NoRandomness),
    }
}

/// Answers a request for a unique identifier: `seed`, a dash and a random
/// number in decimal, or `NoRandomness` when the system's random source
/// fails.
pub fn handle_generate(seed: String) -> (res: Result<ResponsePayload, GenerateError>)
    ensures
        res matches Ok(reply) ==> reply matches ResponsePayload::GenerateOk { id } && exists|n: u32|
            id@ == id_text(seed@, n),
        res matches Err(e) ==> e == GenerateError::NoRandomness,
{
    let drawn = random_u32();
    generate_reply(seed.as_str(), drawn)
}

} // verus!
