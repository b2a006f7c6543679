use vstd::prelude::*;
use vstd::string::StringExecFns;

verus! {

/// The ASCII digit for `d < 10`.
pub open spec fn digit_char(d: nat) -> char {
    ((d + 48) as u8) as char
}

/// The decimal rendering of `n`, most significant digit first, as std's
/// `Display` for unsigned integers writes it.
pub open spec fn decimal(n: nat) -> Seq<char>
    decreases n,
{
    if n < 10 {
        seq![digit_char(n)]
    } else {
        decimal(n / 10).push(digit_char(n % 10))
    }
}

/// The one-digit text of `d < 10`.
fn digit_text(d: usize) -> (s: &'static str)
    requires
        d < 10,
    ensures
        s@ == seq![digit_char(d as nat)],
{
    proof {
        reveal_strlit("0");
        reveal_strlit("1");
        reveal_strlit("2");
        reveal_strlit("3");
        reveal_strlit("4");
        reveal_strlit("5");
        reveal_strlit("6");
        reveal_strlit("7");
        reveal_strlit("8");
        reveal_strlit("9");
    }
    match d {
        0 => "0",
        1 => "1",
        2 => "2",
        3 => "3",
        4 => "4",
        5 => "5",
        6 => "6",
        7 => "7",
        8 => "8",
        _ => "9",
    }
}

/// Appends `n` in decimal to `s`.
fn push_decimal(s: &mut String, n: usize)
    ensures
        final(s)@ == old(s)@ + decimal(n as nat),
    decreases n,
{
    if n >= 10 {
        push_decimal(s, n / 10);
    }
    let ghost before = s@;
    s.append(digit_text(n % 10));
    proof {
        if n >= 10 {
            assert(decimal(n as nat) == decimal((n / 10) as nat).push(digit_char((n % 10) as nat)));
            assert(s@ =~= old(s)@ + decimal(n as nat));
        } else {
            assert(s@ =~= old(s)@ + decimal(n as nat));
        }
    }
}

/// The text of the error that `Simulator::propagate_events` reports when the
/// step limit is exceeded.
pub open spec fn oscillation_text(max_steps: nat) -> Seq<char> {
    "Oscillation detected: exceeded max_steps limit of "@ + decimal(max_steps)
}

/// The oscillation error for a step limit of `max_steps`.
pub(crate) fn oscillation_message(max_steps: usize) -> (s: String)
    ensures
        s@ == oscillation_text(max_steps as nat),
{
    let mut s = String::from_str("Oscillation detected: exceeded max_steps limit of ");
    push_decimal(&mut s, max_steps);
    s
}

/// The error for a blueprint index that names no blueprint.
pub(crate) fn not_found_message(idx: usize) -> (s: String)
    ensures
        s@ == "Blueprint not found at index "@ + decimal(idx as nat),
{
    let mut s = String::from_str("Blueprint not found at index ");
    push_decimal(&mut s, idx);
    s
}

/// A name with a numeric suffix: `name`, an underscore, and `k` in decimal.
pub open spec fn suffixed(name: Seq<char>, k: nat) -> Seq<char> {
    name + "_"@ + decimal(k)
}

/// `name` with the suffix `_k`.
pub(crate) fn suffixed_name(name: &String, k: usize) -> (s: String)
    ensures
        s@ == suffixed(name@, k as nat),
{
    let mut s = name.clone();
    s.append("_");
    push_decimal(&mut s, k);
    s
}

/// Different numbers have different decimal renderings.
pub proof fn lemma_decimal_injective(a: nat, b: nat)
    requires
        decimal(a) == decimal(b),
    ensures
        a == b,
    decreases a,
{
    lemma_decimal_len(a);
    lemma_decimal_len(b);
    if a < 10 && b < 10 {
        assert(decimal(a)[0] == digit_char(a));
        assert(decimal(b)[0] == digit_char(b));
    } else if a >= 10 && b >= 10 {
        let da = decimal(a / 10);
        let db = decimal(b / 10);
        assert(decimal(a).last() == digit_char(a % 10));
        assert(decimal(b).last() == digit_char(b % 10));
        assert(decimal(a).drop_last() =~= da);
        assert(decimal(b).drop_last() =~= db);
        lemma_decimal_injective(a / 10, b / 10);
    } else {
        lemma_decimal_len(a / 10);
        lemma_decimal_len(b / 10);
    }
}

/// A number below 10 has one digit; a larger one has at least two.
pub proof fn lemma_decimal_len(n: nat)
    ensures
        n < 10 ==> decimal(n).len() == 1,
        n >= 10 ==> decimal(n).len() >= 2,
    decreases n,
{
    if n >= 10 {
        lemma_decimal_len(n / 10);
    }
}

/// Different suffixes give different names.
pub proof fn lemma_suffixed_injective(name: Seq<char>, a: nat, b: nat)
    requires
        suffixed(name, a) == suffixed(name, b),
    ensures
        a == b,
{
    let p = name + "_"@;
    assert(suffixed(name, a) == p + decimal(a));
    assert(suffixed(name, b) == p + decimal(b));
    assert((p + decimal(a)).subrange(p.len() as int, (p + decimal(a)).len() as int) =~= decimal(a));
    assert((p + decimal(b)).subrange(p.len() as int, (p + decimal(b)).len() as int) =~= decimal(b));
    lemma_decimal_injective(a, b);
}

} // verus!
