//! Derivation of the cache key from a normalised limit.
//!
//! A key is a fixed prefix followed by the limit in decimal, with a leading
//! minus sign for a negative one, so that distinct limits never share a key.

use vstd::prelude::*;
use vstd::string::StringExecFns;

verus! {

/// The prefix that every key starts with.
pub open spec fn key_prefix() -> Seq<char> {
    "users_limit_"@
}

/// The character of one decimal digit.
pub open spec fn digit_char(d: nat) -> char {
    if d == 0 {
        '0'
    } else if d == 1 {
        '1'
    } else if d == 2 {
        '2'
    } else if d == 3 {
        '3'
    } else if d == 4 {
        '4'
    } else if d == 5 {
        '5'
    } else if d == 6 {
        '6'
    } else if d == 7 {
        '7'
    } else if d == 8 {
        '8'
    } else {
        '9'
    }
}

/// A natural number in decimal, most significant digit first, without
/// leading zeros.
pub open spec fn decimal(n: nat) -> Seq<char>
    decreases n,
{
    if n < 10 {
        seq![digit_char(n)]
    } else {
        decimal(n / 10).push(digit_char(n % 10))
    }
}

/// An integer in decimal: a minus sign before the magnitude of a negative one.
pub open spec fn signed_decimal(n: int) -> Seq<char> {
    if n < 0 {
        seq!['-'] + decimal((-n) as nat)
    } else {
        decimal(n as nat)
    }
}

/// The key under which the rows for a normalised limit are cached.
pub open spec fn key_text(limit: int) -> Seq<char> {
    key_prefix() + signed_decimal(limit)
}

/// Every decimal has at least one character, and none of them is a minus sign.
proof fn lemma_decimal_shape(n: nat)
    ensures
        decimal(n).len() >= 1,
        forall|i: int| 0 <= i < decimal(n).len() ==> decimal(n)[i] != '-',
    decreases n,
{
    if n >= 10 {
        lemma_decimal_shape(n / 10);
    }
}

/// Two naturals with the same decimal are the same number.
proof fn lemma_decimal_injective(a: nat, b: nat)
    requires
        decimal(a) == decimal(b),
    ensures
        a == b,
    decreases a,
{
    lemma_decimal_shape(a / 10);
    lemma_decimal_shape(b / 10);
    if a >= 10 && b >= 10 {
        let da = decimal(a / 10);
        let db = decimal(b / 10);
        assert(da.push(digit_char(a % 10)).drop_last() =~= da);
        assert(db.push(digit_char(b % 10)).drop_last() =~= db);
        assert(da.push(digit_char(a % 10)).last() == digit_char(a % 10));
        assert(db.push(digit_char(b % 10)).last() == digit_char(b % 10));
        lemma_decimal_injective(a / 10, b / 10);
    } else if a < 10 && b < 10 {
        assert(decimal(a)[0] == digit_char(a));
        assert(decimal(b)[0] == digit_char(b));
    } else if a < 10 {
        assert(decimal(a).len() == 1);
        assert(decimal(b).len() == decimal(b / 10).len() + 1);
    } else {
        assert(decimal(b).len() == 1);
        assert(decimal(a).len() == decimal(a / 10).len() + 1);
    }
}

/// Two integers with the same signed decimal are the same number.
proof fn lemma_signed_decimal_injective(a: int, b: int)
    requires
        signed_decimal(a) == signed_decimal(b),
    ensures
        a == b,
{
    let ma: nat = (if a < 0 { -a } else { a }) as nat;
    let mb: nat = (if b < 0 { -b } else { b }) as nat;
    lemma_decimal_shape(ma);
    lemma_decimal_shape(mb);
    if a < 0 && b < 0 {
        assert((seq!['-'] + decimal(ma)).subrange(1, 1 + decimal(ma).len() as int) =~= decimal(ma));
        assert((seq!['-'] + decimal(mb)).subrange(1, 1 + decimal(mb).len() as int) =~= decimal(mb));
        lemma_decimal_injective(ma, mb);
    } else if a >= 0 && b >= 0 {
        lemma_decimal_injective(ma, mb);
    } else if a < 0 {
        assert(signed_decimal(a)[0] == '-');
        assert(signed_decimal(b)[0] == decimal(mb)[0]);
    } else {
        assert(signed_decimal(b)[0] == '-');
        assert(signed_decimal(a)[0] == decimal(ma)[0]);
    }
}

/// Key derivation is a function of the limit, and an injective one: two limits
/// have the same key exactly when they are the same limit.
pub proof fn key_derivation_is_injective(a: int, b: int)
    ensures
        key_text(a) == key_text(b) <==> a == b,
{
    if key_text(a) == key_text(b) {
        let p = key_prefix();
        let sa = signed_decimal(a);
        let sb = signed_decimal(b);
        assert((p + sa).subrange(p.len() as int, (p + sa).len() as int) =~= sa);
        assert((p + sb).subrange(p.len() as int, (p + sb).len() as int) =~= sb);
        lemma_signed_decimal_injective(a, b);
    }
}

/// The one-character text of a decimal digit.
fn digit_text(d: u64) -> (text: &'static str)
    requires
        d < 10,
    ensures
        text@ == seq![digit_char(d as nat)],
{
    proof {
        reveal_strlit("0");
        reveal_strlit("1");
        reveal_strlit("2");
        reveal_strlit("3");
        reveal_strlit("4");
        reveal_strlit("5");
        reveal_strlit("6");
        reveal_strlit("7");
        reveal_strlit("8");
        reveal_strlit("9");
    }
    let text: &'static str = if d == 0 {
        "0"
    } else if d == 1 {
        "1"
    } else if d == 2 {
        "2"
    } else if d == 3 {
        "3"
    } else if d == 4 {
        "4"
    } else if d == 5 {
        "5"
    } else if d == 6 {
        "6"
    } else if d == 7 {
        "7"
    } else if d == 8 {
        "8"
    } else {
        "9"
    };
    assert(text@ =~= seq![digit_char(d as nat)]);
    text
}

/// Appends a natural number in decimal to a text.
fn append_decimal(text: &mut String, n: u64)
    ensures
        final(text)@ == old(text)@ + decimal(n as nat),
    decreases n,
{
    if n >= 10 {
        append_decimal(text, n / 10);
    }
    text.append(digit_text(n % 10));
    proof {
        if n >= 10 {
            assert(text@ =~= old(text)@ + decimal((n / 10) as nat).push(
                digit_char((n % 10) as nat),
            ));
        } else {
            assert(text@ =~= old(text)@ + decimal(n as nat));
        }
    }
}

/// Derives the cache key of a normalised limit.
pub fn cache_key(limit: i32) -> (key: String)
    ensures
        key@ == key_text(limit as int),
{
    let mut key = String::from_str("users_limit_");
    let wide: i64 = limit as i64;
    if wide < 0 {
        proof {
            reveal_strlit("-");
        }
        key.append("-");
        let magnitude: u64 = (0 - wide) as u64;
        append_decimal(&mut key, magnitude);
        assert(key@ =~= key_prefix() + (seq!['-'] + decimal(magnitude as nat)));
    } else {
        append_decimal(&mut key, wide as u64);
    }
    key
}

} // verus!
