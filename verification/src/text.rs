//! The wording of messages.

use vstd::prelude::*;
use vstd::string::*;

verus! {

/// The decimal digit of a number below ten.
pub open spec fn digit(d: nat) -> char {
    (48 + d) as char
}

/// The decimal notation of a number, without leading zeros.
pub open spec fn decimal(n: nat) -> Seq<char>
    decreases n,
{
    if n < 10 {
        seq![digit(n)]
    } else {
        decimal(n / 10).push(digit(n % 10))
    }
}

/// Calls `usize::to_string`, which renders the number in decimal notation.
#[verifier::external_body]
pub(crate) fn usize_to_text(n: usize) -> (s: String)
    ensures
        s@ == decimal(n as nat),
{
    n.to_string()
}

/// `before`, then `n` in decimal notation, then `after`.
pub fn with_number(before: &str, n: usize, after: &str) -> (s: String)
    ensures
        s@ == before@ + decimal(n as nat) + after@,
{
    let mut s = before.to_owned();
    let number = usize_to_text(n);
    s.append(number.as_str());
    s.append(after);
    s
}

/// `parts`, one after the other.
pub fn concat(parts: &[&str]) -> (s: String)
    ensures
        s@ == joined(parts@),
{
    let mut s = String::new();
    let mut i: usize = 0;
    assert(parts@.take(0) =~= Seq::empty());
    while i < parts.len()
        invariant
            i <= parts@.len(),
            s@ == joined(parts@.take(i as int)),
        decreases parts@.len() - i,
    {
        s.append(parts[i]);
        assert(parts@.take(i + 1).drop_last() =~= parts@.take(i as int));
        i = i + 1;
    }
    assert(parts@.take(i as int) =~= parts@);
    s
}

/// The characters of `parts`, one after the other.
pub open spec fn joined(parts: Seq<&str>) -> Seq<char>
    decreases parts.len(),
{
    if parts.len() == 0 {
        Seq::empty()
    } else {
        joined(parts.drop_last()) + parts.last()@
    }
}

/// A number below ten is written as its digit; a further digit is written behind the others; and
/// the digits from `0` on follow each other.
pub proof fn law_digits_are_written_in_order(n: nat, d: nat)
    requires
        d < 10,
    ensures
        decimal(d) == seq![digit(d)],
        n > 0 ==> decimal(10 * n + d) == decimal(n).push(digit(d)),
        digit(d) as int == '0' as int + d,
{
    if n > 0 {
        assert((10 * n + d) / 10 == n);
        assert((10 * n + d) % 10 == d);
    }
}

/// The characters of all parts stand one part after the other.
pub proof fn law_parts_are_joined_in_order<'a>(parts: Seq<&'a str>, part: &'a str)
    ensures
        joined(Seq::<&'a str>::empty()) == Seq::<char>::empty(),
        joined(parts.push(part)) == joined(parts) + part@,
{
    assert(parts.push(part).drop_last() =~= parts);
}

} // verus!
