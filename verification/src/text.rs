//! Rendering numbers and entities as text.
use vstd::prelude::*;

verus! {

/// The decimal digits of `n`, most significant first, with no leading zeros.
pub open spec fn decimal(n: nat) -> Seq<char>
    decreases n,
{
    if n < 10 {
        seq![digit_char(n)]
    } else {
        decimal(n / 10).push(digit_char(n % 10))
    }
}

/// The character for a single decimal digit.
pub open spec fn digit_char(d: nat) -> char {
    if d == 0 { '0' } else if d == 1 { '1' } else if d == 2 { '2' } else if d == 3 { '3' }
    else if d == 4 { '4' } else if d == 5 { '5' } else if d == 6 { '6' } else if d == 7 { '7' }
    else if d == 8 { '8' } else { '9' }
}

/// Appends one character to a string with `String::push`; the contract
/// claims that the text grows by exactly that character at its end.
#[verifier::external_body]
fn push_char(s: &mut String, c: char)
    ensures
        final(s)@ == old(s)@.push(c),
{
    s.push(c)
}

fn digit(d: u64) -> (c: char)
    requires
        d < 10,
    ensures
        c == digit_char(d as nat),
{
    if d == 0 { '0' } else if d == 1 { '1' } else if d == 2 { '2' } else if d == 3 { '3' }
    else if d == 4 { '4' } else if d == 5 { '5' } else if d == 6 { '6' } else if d == 7 { '7' }
    else if d == 8 { '8' } else { '9' }
}

/// Renders `n` in decimal, as `format!("{}", n)` does.
pub fn decimal_string(n: u64) -> (s: String)
    ensures
        s@ == decimal(n as nat),
{
    let mut digits: Vec<char> = Vec::new();
    let mut m: u64 = n;
    // digits holds the low-order digits of n, least significant first
    loop
        invariant_except_break
            decimal(n as nat) == decimal(m as nat) + digits@.reverse(),
        ensures
            decimal(n as nat) == digits@.reverse(),
        decreases m,
    {
        if m < 10 {
            let d = digit(m);
            digits.push(d);
            assert(digits@.reverse() =~= seq![d] + digits@.drop_last().reverse());
            break;
        }
        let d = digit(m % 10);
        proof {
            assert(decimal(m as nat) == decimal((m / 10) as nat).push(digit_char((m % 10) as nat)));
        }
        digits.push(d);
        m = m / 10;
        assert(decimal(n as nat) =~= decimal(m as nat) + digits@.reverse()) by {
            assert(digits@.reverse() =~= seq![d] + digits@.drop_last().reverse());
        }
    }
    let mut s = String::new();
    let mut i = digits.len();
    while i > 0
        invariant
            i <= digits.len(),
            s@ =~= digits@.subrange(i as int, digits@.len() as int).reverse(),
            decimal(n as nat) == digits@.reverse(),
        decreases i,
    {
        i = i - 1;
        push_char(&mut s, digits[i]);
    }
    s
}

/// The bits of a valid entity: its row bits are not zero.
pub open spec fn entity_bits(bits: u64) -> bool {
    bits % 0x1_0000_0000 != 0
}

/// What bevy's `Display` for `Entity` writes for the entity with the given
/// bits: `PLACEHOLDER` for the placeholder entity (bits `1`), else
/// `{index}v{generation}`. The low half of the bits holds the row index
/// complemented (`u32::MAX - index`), the high half the generation.
pub open spec fn entity_display(bits: u64) -> Seq<char> {
    if bits == 1 {
        seq!['P', 'L', 'A', 'C', 'E', 'H', 'O', 'L', 'D', 'E', 'R']
    } else {
        decimal((0xFFFF_FFFFint - bits % 0x1_0000_0000) as nat) + seq!['v'] + decimal(
            (bits / 0x1_0000_0000) as nat,
        )
    }
}

/// Renders the entity with the given bits: `Entity::from_bits`, then
/// `to_string` through its `Display`. The contract claims that the text is
/// [`entity_display`] of the bits; `Entity::from_bits` panics on bits whose
/// row part is zero, which the `requires` leaves out.
#[verifier::external_body]
pub(crate) fn entity_text(bits: u64) -> (r: String)
    requires
        entity_bits(bits),
    ensures
        r@ == entity_display(bits),
{
    bevy::ecs::entity::Entity::from_bits(bits).to_string()
}

} // verus!
