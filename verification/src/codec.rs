//! Filling a one-time code into an address template, and making a template
//! from an address.
//!
//! A template is address text in which the character `x` marks a
//! placeholder. Exactly six of them take the six decimal digits of a code,
//! the first placeholder the first digit.

use crate::address::{
    address_of, all_digits, block, digit_value, expanded_text, hex_char, is_address_text,
    is_digit, is_expanded_form, is_hex_digit, lemma_expanded_form, lemma_expanded_text,
    lemma_group_value, lemma_hex_char, nibble, number_value, parse_chars, Ipv6Address,
};
use crate::error::Error;
use crate::text::{from_chars, to_chars};
use vstd::prelude::*;

verus! {

/// How many placeholders `template` holds.
pub open spec fn placeholder_count(template: Seq<char>) -> nat
    decreases template.len(),
{
    if template.len() == 0 {
        0
    } else {
        placeholder_count(template.drop_last()) + if template.last() == 'x' {
            1nat
        } else {
            0nat
        }
    }
}

/// The character for a decimal digit.
pub open spec fn digit_char(d: int) -> char {
    ((48 + d) as u8) as char
}

/// The last `width` decimal digits of `value`, with zeros in front where it
/// has fewer.
pub open spec fn padded_decimal(value: nat, width: nat) -> Seq<char>
    decreases width,
{
    if width == 0 {
        Seq::<char>::empty()
    } else {
        padded_decimal(value / 10, (width - 1) as nat).push(digit_char((value % 10) as int))
    }
}

/// Ten to the power `n`.
pub open spec fn pow10(n: nat) -> nat
    decreases n,
{
    if n == 0 {
        1
    } else {
        10 * pow10((n - 1) as nat)
    }
}

/// The six decimal digits of a code, with zeros in front.
pub open spec fn code_digits(code: u32) -> Seq<char> {
    padded_decimal(code as nat, 6)
}

/// `template` with each placeholder replaced by a digit: the placeholder
/// that has `k` placeholders before it takes `digits[k]`.
pub open spec fn filled(template: Seq<char>, digits: Seq<char>) -> Seq<char> {
    Seq::new(
        template.len(),
        |i: int|
            if template[i] == 'x' {
                digits[placeholder_count(template.take(i)) as int]
            } else {
                template[i]
            },
    )
}

/// What filling `code` into `template` gives.
pub open spec fn substituted(template: Seq<char>, code: u32) -> Result<Seq<char>, Error> {
    if code > 999_999 {
        Err(Error::CodeOutOfRange)
    } else if placeholder_count(template) > 6 {
        Err(Error::TooManyPlaceholders)
    } else if placeholder_count(template) < 6 {
        Err(Error::TooFewPlaceholders)
    } else if !is_address_text(filled(template, code_digits(code))) {
        Err(Error::InvalidAddress)
    } else {
        Ok(filled(template, code_digits(code)))
    }
}

/// Where a template made from an address has its placeholders: at the last
/// two digits of the seventh group and the four digits of the eighth.
pub open spec fn is_derived_placeholder(i: int) -> bool {
    i == 32 || i == 33 || 35 <= i <= 38
}

/// How many of those placeholders lie before index `i`.
pub open spec fn derived_rank(i: int) -> int {
    if i <= 32 {
        0
    } else if i == 33 {
        1
    } else if i <= 35 {
        2
    } else {
        i - 33
    }
}

/// The template made from an address: its expanded text with the last six
/// hexadecimal digits replaced by placeholders.
pub open spec fn derived_template(groups: Seq<u16>) -> Seq<char> {
    Seq::new(
        39,
        |i: int|
            if is_derived_placeholder(i) {
                'x'
            } else {
                expanded_text(groups)[i]
            },
    )
}

/// The expanded text of an address with the six digits of `code` in place of
/// its last six hexadecimal digits.
pub open spec fn keyed_text(groups: Seq<u16>, code: u32) -> Seq<char> {
    Seq::new(
        39,
        |i: int|
            if is_derived_placeholder(i) {
                code_digits(code)[derived_rank(i)]
            } else {
                expanded_text(groups)[i]
            },
    )
}

/// A prefix holds no more placeholders than the whole.
pub proof fn lemma_count_prefix(template: Seq<char>, n: int)
    requires
        0 <= n <= template.len(),
    ensures
        placeholder_count(template.take(n)) <= placeholder_count(template),
    decreases template.len(),
{
    if n == template.len() {
        assert(template.take(n) =~= template);
    } else {
        lemma_count_prefix(template.drop_last(), n);
        assert(template.drop_last().take(n) =~= template.take(n));
    }
}

/// A number that fits in `width` digits is what its padded rendering
/// spells, and the rendering has exactly `width` decimal digits.
pub proof fn lemma_padded_decimal(value: nat, width: nat)
    requires
        value < pow10(width),
    ensures
        padded_decimal(value, width).len() == width,
        all_digits(padded_decimal(value, width), 10),
        number_value(padded_decimal(value, width), 10) == value,
    decreases width,
{
    if width > 0 {
        let front = padded_decimal(value / 10, (width - 1) as nat);
        lemma_padded_decimal(value / 10, (width - 1) as nat);
        let whole = front.push(digit_char((value % 10) as int));
        assert(whole.drop_last() =~= front);
        assert(digit_value(whole.last()) == value % 10);
        assert forall|i: int| 0 <= i < whole.len() implies is_digit(#[trigger] whole[i], 10) by {
            if i < front.len() {
                assert(whole[i] == front[i]);
            }
        }
    }
}

/// The six digits of a code below a million are its decimal rendering,
/// zeros included.
pub proof fn lemma_code_digits(code: u32)
    requires
        code <= 999_999,
    ensures
        code_digits(code).len() == 6,
        all_digits(code_digits(code), 10),
        number_value(code_digits(code), 10) == code,
{
    reveal_with_fuel(pow10, 7);
    lemma_padded_decimal(code as nat, 6);
}

fn decimal_char(d: u32) -> (c: char)
    requires
        d < 10,
    ensures
        c == digit_char(d as int),
{
    (48u8 + d as u8) as char
}

fn code_chars(code: u32) -> (digits: [char; 6])
    requires
        code <= 999_999,
    ensures
        digits@ == code_digits(code),
{
    let c4: u32 = code / 10;
    let c3: u32 = c4 / 10;
    let c2: u32 = c3 / 10;
    let c1: u32 = c2 / 10;
    let c0: u32 = c1 / 10;
    let digits = [
        decimal_char(c0 % 10),
        decimal_char(c1 % 10),
        decimal_char(c2 % 10),
        decimal_char(c3 % 10),
        decimal_char(c4 % 10),
        decimal_char(code % 10),
    ];
    proof {
        reveal_with_fuel(padded_decimal, 7);
        assert(digits@ =~= code_digits(code));
    }
    digits
}

/// Fills `code` into `template`, and reads the result as an address.
pub fn fill_template(template: &Vec<char>, code: u32) -> (r: Result<
    (Vec<char>, Ipv6Address),
    Error,
>)
    ensures
        match r {
            Ok((text, address)) => substituted(template@, code) == Ok::<Seq<char>, Error>(text@)
                && address_of(text@) == Some(address@),
            Err(e) => substituted(template@, code) == Err::<Seq<char>, Error>(e),
        },
{
    if code > 999_999 {
        return Err(Error::CodeOutOfRange);
    }
    let digits = code_chars(code);
    let n = template.len();
    let mut text: Vec<char> = Vec::new();
    let mut used: usize = 0;
    let mut i: usize = 0;
    while i < n
        invariant
            i <= n == template@.len(),
            used == placeholder_count(template@.take(i as int)),
            used <= 6,
            code <= 999_999,
            digits@ == code_digits(code),
            text@ == filled(template@, digits@).take(i as int),
        decreases n - i,
    {
        let c = template[i];
        proof {
            assert(template@.take(i + 1).drop_last() =~= template@.take(i as int));
        }
        if c == 'x' {
            if used > 5 {
                proof {
                    assert(placeholder_count(template@.take(i + 1)) == used + 1);
                    lemma_count_prefix(template@, i + 1);
                }
                return Err(Error::TooManyPlaceholders);
            }
            text.push(digits[used]);
            used += 1;
        } else {
            text.push(c);
        }
        proof {
            assert(text@ =~= filled(template@, digits@).take(i + 1));
        }
        i += 1;
    }
    proof {
        assert(template@.take(n as int) =~= template@);
        assert(text@ =~= filled(template@, digits@));
    }
    if used != 6 {
        return Err(Error::TooFewPlaceholders);
    }
    match parse_chars(&text) {
        Some(address) => Ok((text, address)),
        None => Err(Error::InvalidAddress),
    }
}

/// Fills the six digits of `code` into the six placeholders of `base`.
///
/// The result is `base` with the placeholders replaced, in order, by the
/// digits of `code`, zeros in front included. It is an error if `code` has
/// more than six digits, if `base` has more or fewer than six placeholders,
/// or if the filled text does not spell an IPv6 address.
pub fn build_ip(base: &str, code: u32) -> (r: Result<String, Error>)
    ensures
        match r {
            Ok(text) => substituted(base@, code) == Ok::<Seq<char>, Error>(text@),
            Err(e) => substituted(base@, code) == Err::<Seq<char>, Error>(e),
        },
{
    let template = to_chars(base);
    match fill_template(&template, code) {
        Ok((text, _)) => Ok(from_chars(&text)),
        Err(e) => Err(e),
    }
}

/// Filling a template with six placeholders changes it at the placeholders
/// only, and there it writes the decimal digits of the code, zeros in front
/// included, from left to right.
pub proof fn lemma_substitute_positions(template: Seq<char>, code: u32)
    requires
        placeholder_count(template) == 6,
        code <= 999_999,
    ensures
        code_digits(code).len() == 6,
        all_digits(code_digits(code), 10),
        number_value(code_digits(code), 10) == code,
        filled(template, code_digits(code)).len() == template.len(),
        forall|i: int|
            0 <= i < template.len() && template[i] != 'x' ==> filled(
                template,
                code_digits(code),
            )[i] == template[i],
        forall|i: int|
            0 <= i < template.len() && template[i] == 'x' ==> {
                &&& placeholder_count(template.take(i)) < 6
                &&& filled(template, code_digits(code))[i] == code_digits(
                    code,
                )[placeholder_count(template.take(i)) as int]
            },
        substituted(template, code) is Ok ==> substituted(template, code) == Ok::<
            Seq<char>,
            Error,
        >(filled(template, code_digits(code))),
        substituted(template, code) is Err ==> substituted(template, code) == Err::<
            Seq<char>,
            Error,
        >(Error::InvalidAddress),
{
    lemma_code_digits(code);
    assert forall|i: int| 0 <= i < template.len() && template[i] == 'x' implies placeholder_count(
        template.take(i),
    ) < 6 by {
        lemma_count_prefix(template, i + 1);
        assert(template.take(i + 1).drop_last() =~= template.take(i));
    }
}

/// A template with more than six placeholders, or with fewer, is refused
/// whatever the code.
pub proof fn lemma_wrong_placeholder_count(template: Seq<char>, code: u32)
    requires
        code <= 999_999,
    ensures
        placeholder_count(template) > 6 ==> substituted(template, code) == Err::<
            Seq<char>,
            Error,
        >(Error::TooManyPlaceholders),
        placeholder_count(template) < 6 ==> substituted(template, code) == Err::<
            Seq<char>,
            Error,
        >(Error::TooFewPlaceholders),
{
}

/// How many placeholders a prefix of a derived template holds.
proof fn lemma_derived_prefix(groups: Seq<u16>, n: int)
    requires
        groups.len() == 8,
        0 <= n <= 39,
    ensures
        placeholder_count(derived_template(groups).take(n)) == derived_rank(n),
    decreases n,
{
    let template = derived_template(groups);
    if n > 0 {
        lemma_derived_prefix(groups, n - 1);
        assert(template.take(n).drop_last() =~= template.take(n - 1));
        assert(template.take(n).last() == template[n - 1]);
        if !is_derived_placeholder(n - 1) && (n - 1) % 5 != 4 {
            lemma_hex_char(nibble(groups[(n - 1) / 5], (n - 1) % 5));
        }
    }
}

/// The template made from an address has exactly six placeholders, at the
/// last two digits of the seventh group and the four of the eighth, and is
/// the address's expanded text everywhere else.
pub proof fn lemma_derived_template(groups: Seq<u16>)
    requires
        groups.len() == 8,
    ensures
        derived_template(groups).len() == 39,
        placeholder_count(derived_template(groups)) == 6,
        forall|i: int|
            0 <= i < 39 ==> (derived_template(groups)[i] == 'x' <==> is_derived_placeholder(i)),
        forall|i: int|
            0 <= i < 39 && !is_derived_placeholder(i) ==> derived_template(groups)[i]
                == expanded_text(groups)[i],
{
    let template = derived_template(groups);
    lemma_derived_prefix(groups, 39);
    assert(template.take(39) =~= template);
    assert forall|i: int| 0 <= i < 39 implies (template[i] == 'x' <==> is_derived_placeholder(
        i,
    )) by {
        if i % 5 != 4 {
            lemma_hex_char(nibble(groups[i / 5], i % 5));
        }
    }
}

/// The digits of a code, filled into a derived template, stand where the
/// placeholders stood.
proof fn lemma_filled_derived(groups: Seq<u16>, code: u32)
    requires
        groups.len() == 8,
        code <= 999_999,
    ensures
        filled(derived_template(groups), code_digits(code)) == keyed_text(groups, code),
        is_expanded_form(keyed_text(groups, code)),
{
    let template = derived_template(groups);
    let digits = code_digits(code);
    let text = keyed_text(groups, code);
    lemma_derived_template(groups);
    lemma_code_digits(code);
    assert forall|i: int| 0 <= i < 39 implies filled(template, digits)[i] == text[i] by {
        lemma_derived_prefix(groups, i);
    }
    assert(filled(template, digits) =~= text);
    lemma_expanded_text(groups);
    assert forall|i: int| 0 <= i < 39 && i % 5 != 4 implies is_hex_digit(#[trigger] text[i]) by {
        if is_derived_placeholder(i) {
            assert(is_digit(digits[derived_rank(i)], 10));
        } else {
            assert(is_hex_digit(expanded_text(groups)[i]));
        }
    }
}

/// The upper half of a group is what its first two digits spell.
proof fn lemma_upper_half(field: Seq<char>, other: Seq<char>)
    requires
        field.len() == 4,
        other.len() == 4,
        all_digits(field, 16),
        all_digits(other, 16),
        field[0] == other[0],
        field[1] == other[1],
    ensures
        number_value(field, 16) / 256 == number_value(other, 16) / 256,
{
    lemma_group_value(field);
    lemma_group_value(other);
    let upper = digit_value(field[0]) * 16 + digit_value(field[1]);
    let lower = digit_value(field[2]) * 16 + digit_value(field[3]);
    let other_lower = digit_value(other[2]) * 16 + digit_value(other[3]);
    assert(number_value(field, 16) == upper * 256 + lower);
    assert(number_value(other, 16) == upper * 256 + other_lower);
    assert(0 <= lower < 256 && 0 <= other_lower < 256);
}

/// Filling a code into the template made from an address always succeeds,
/// and gives the address's expanded text with the last six hexadecimal
/// digits replaced by the digits of the code, in order. The result spells
/// an address that has the first six groups, and the upper half of the
/// seventh, in common with the one the template was made from.
pub proof fn lemma_substitute_derived(groups: Seq<u16>, code: u32)
    requires
        groups.len() == 8,
        code <= 999_999,
    ensures
        substituted(derived_template(groups), code) == Ok::<Seq<char>, Error>(
            keyed_text(groups, code),
        ),
        is_expanded_form(keyed_text(groups, code)),
        forall|i: int|
            0 <= i < 39 && !is_derived_placeholder(i) ==> keyed_text(groups, code)[i]
                == expanded_text(groups)[i],
        forall|i: int|
            0 <= i < 39 && is_derived_placeholder(i) ==> keyed_text(groups, code)[i]
                == code_digits(code)[derived_rank(i)],
        address_of(keyed_text(groups, code)) is Some,
        forall|k: int|
            0 <= k < 6 ==> address_of(keyed_text(groups, code))->0[k] == groups[k],
        address_of(keyed_text(groups, code))->0[6] / 256 == groups[6] / 256,
{
    let text = keyed_text(groups, code);
    let plain = expanded_text(groups);
    lemma_derived_template(groups);
    lemma_filled_derived(groups, code);
    lemma_expanded_form(text);
    lemma_expanded_text(groups);
    lemma_expanded_form(plain);
    assert forall|k: int| 0 <= k < 6 implies address_of(text)->0[k] == groups[k] by {
        assert(block(text, k) =~= block(plain, k));
    }
    let seventh = block(text, 6);
    let before = block(plain, 6);
    assert forall|j: int| 0 <= j < 4 implies is_digit(#[trigger] seventh[j], 16) by {
        assert(seventh[j] == text[30 + j]);
    }
    assert forall|j: int| 0 <= j < 4 implies is_digit(#[trigger] before[j], 16) by {
        assert(before[j] == plain[30 + j]);
    }
    assert(seventh[0] == text[30] && seventh[1] == text[31]);
    assert(before[0] == plain[30] && before[1] == plain[31]);
    lemma_upper_half(seventh, before);
    lemma_group_value(seventh);
    lemma_group_value(before);
}

fn hex_digit_char(d: u16) -> (c: char)
    requires
        d < 16,
    ensures
        c == hex_char(d as int),
{
    if d < 10 {
        (48u8 + d as u8) as char
    } else {
        (87u8 + d as u8) as char
    }
}

/// Makes a template from an address: the address in expanded form, eight
/// groups of four hexadecimal digits, with placeholders for the last two
/// digits of the seventh group and all four of the eighth.
pub fn fmt_ipv6_expanded(addr: &Ipv6Address) -> (built: String)
    ensures
        built@ == derived_template(addr@),
{
    let ghost template = derived_template(addr@);
    let mut built = String::new();
    let mut idx: usize = 0;
    while idx < 8
        invariant
            idx <= 8,
            template == derived_template(addr@),
            built@.len() == if idx == 8 {
                39int
            } else {
                5 * idx
            },
            built@ == template.take(built@.len() as int),
        decreases 8 - idx,
    {
        let segment = addr.segments[idx];
        let ghost at = built@.len() as int;
        proof {
            assert(addr@[idx as int] == segment);
        }
        if idx == 7 {
            built.push('x');
            built.push('x');
        } else {
            built.push(hex_digit_char(segment / 16 / 16 / 16 % 16));
            built.push(hex_digit_char(segment / 16 / 16 % 16));
        }
        if idx >= 6 {
            built.push('x');
            built.push('x');
        } else {
            built.push(hex_digit_char(segment / 16 % 16));
            built.push(hex_digit_char(segment % 16));
        }
        if idx < 7 {
            built.push(':');
        }
        proof {
            assert((at + 0) / 5 == idx && (at + 1) / 5 == idx && (at + 2) / 5 == idx && (at + 3)
                / 5 == idx);
            assert(built@ =~= template.take(built@.len() as int));
        }
        idx += 1;
    }
    proof {
        assert(template.take(39) =~= template);
    }
    built
}

} // verus!
