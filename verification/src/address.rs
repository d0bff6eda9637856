//! IPv6 addresses and their textual form.
//!
//! An address is eight 16-bit groups. Its text is either eight fields
//! separated by `:`, or two runs of fields around one `::`, which stands for
//! the groups of zeros that are missing. A field is one to four hexadecimal
//! digits; the last field may instead be a dotted quad, which fills two
//! groups.

use crate::text::{
    field_bounds, free_of, join, lemma_empty_field, lemma_free_of_other, lemma_join_last,
    lemma_join_split, lemma_split_concat, lemma_split_free, lemma_split_join,
    lemma_split_nonempty, split, to_chars,
};
use vstd::prelude::*;

verus! {

/// An IPv6 address: its eight groups, the first one first.
#[derive(Clone, Copy, Debug, PartialEq, Eq)]
pub struct Ipv6Address {
    pub segments: [u16; 8],
}

impl View for Ipv6Address {
    type V = Seq<u16>;

    open spec fn view(&self) -> Seq<u16> {
        self.segments@
    }
}

/// A decimal digit.
pub open spec fn is_dec_digit(c: char) -> bool {
    '0' <= c <= '9'
}

/// A hexadecimal digit, in either case.
pub open spec fn is_hex_digit(c: char) -> bool {
    is_dec_digit(c) || 'a' <= c <= 'f' || 'A' <= c <= 'F'
}

/// Whether `c` is a digit in base `radix`, for the bases 10 and 16.
pub open spec fn is_digit(c: char, radix: int) -> bool {
    if radix == 16 {
        is_hex_digit(c)
    } else {
        is_dec_digit(c)
    }
}

/// What a digit is worth; letters count from ten in either case.
pub open spec fn digit_value(c: char) -> int {
    if 'a' <= c <= 'f' {
        c as int - 'a' as int + 10
    } else if 'A' <= c <= 'F' {
        c as int - 'A' as int + 10
    } else {
        c as int - '0' as int
    }
}

/// Every character is a digit in base `radix`.
pub open spec fn all_digits(digits: Seq<char>, radix: int) -> bool {
    forall|i: int| 0 <= i < digits.len() ==> is_digit(#[trigger] digits[i], radix)
}

/// The number that `digits` spell in base `radix`, most significant first.
pub open spec fn number_value(digits: Seq<char>, radix: int) -> int
    decreases digits.len(),
{
    if digits.len() == 0 {
        0
    } else {
        number_value(digits.drop_last(), radix) * radix + digit_value(digits.last())
    }
}

/// A field that spells one group: one to four hexadecimal digits.
pub open spec fn is_hex_group(field: Seq<char>) -> bool {
    1 <= field.len() <= 4 && all_digits(field, 16)
}

/// One part of a dotted quad: a decimal number up to 255, without a zero in
/// front of other digits.
pub open spec fn is_octet(part: Seq<char>) -> bool {
    &&& 1 <= part.len() <= 3
    &&& all_digits(part, 10)
    &&& part.len() > 1 ==> part[0] != '0'
    &&& number_value(part, 10) <= 255
}

/// A field that spells the last two groups as four octets between dots.
pub open spec fn is_dotted_quad(field: Seq<char>) -> bool {
    let parts = split(field, '.');
    parts.len() == 4 && forall|k: int| 0 <= k < 4 ==> is_octet(#[trigger] parts[k])
}

/// The two groups that a dotted quad fills.
pub open spec fn quad_groups(field: Seq<char>) -> Seq<u16> {
    let parts = split(field, '.');
    seq![
        (number_value(parts[0], 10) * 256 + number_value(parts[1], 10)) as u16,
        (number_value(parts[2], 10) * 256 + number_value(parts[3], 10)) as u16,
    ]
}

/// Every field spells one group.
pub open spec fn all_hex_groups(fields: Seq<Seq<char>>) -> bool {
    forall|k: int| 0 <= k < fields.len() ==> is_hex_group(#[trigger] fields[k])
}

/// The group that each field spells.
pub open spec fn hex_groups(fields: Seq<Seq<char>>) -> Seq<u16> {
    Seq::new(fields.len(), |k: int| number_value(fields[k], 16) as u16)
}

/// Fields that make a run: hexadecimal groups, the last of which may be a
/// dotted quad where `quad_allowed`.
pub open spec fn is_field_run(fields: Seq<Seq<char>>, quad_allowed: bool) -> bool {
    &&& fields.len() >= 1
    &&& all_hex_groups(fields.drop_last())
    &&& is_hex_group(fields.last()) || (quad_allowed && is_dotted_quad(fields.last()))
}

/// The groups that the fields of a run spell.
pub open spec fn field_groups(fields: Seq<Seq<char>>) -> Seq<u16> {
    if is_hex_group(fields.last()) {
        hex_groups(fields)
    } else {
        hex_groups(fields.drop_last()) + quad_groups(fields.last())
    }
}

/// The groups that a run of fields between colons spells, if it spells any.
/// The empty run spells none. `quad_allowed` says whether the last field may
/// be a dotted quad.
pub open spec fn run_groups(run: Seq<char>, quad_allowed: bool) -> Option<Seq<u16>> {
    let fields = split(run, ':');
    if run.len() == 0 {
        Some(Seq::<u16>::empty())
    } else if is_field_run(fields, quad_allowed) {
        Some(field_groups(fields))
    } else {
        None
    }
}

/// `text` has `::` at index `p`.
pub open spec fn is_gap(text: Seq<char>, p: int) -> bool {
    0 <= p && p + 1 < text.len() && text[p] == ':' && text[p + 1] == ':'
}

/// `text` has `::` somewhere.
pub open spec fn has_gap(text: Seq<char>) -> bool {
    exists|p: int| is_gap(text, p)
}

/// The index of the first `::` in a text that has one.
pub open spec fn first_gap(text: Seq<char>) -> int {
    choose|p: int| is_gap(text, p) && forall|q: int| 0 <= q < p ==> !is_gap(text, q)
}

/// `n` groups of zero.
pub open spec fn zeros(n: int) -> Seq<u16> {
    Seq::new(n as nat, |k: int| 0u16)
}

/// The address that `text` spells, if it spells one.
pub open spec fn address_of(text: Seq<char>) -> Option<Seq<u16>> {
    if has_gap(text) {
        let p = first_gap(text);
        let head = run_groups(text.take(p), false);
        let tail = run_groups(text.skip(p + 2), true);
        if head is Some && tail is Some && head->0.len() + tail->0.len() <= 7 {
            Some(head->0 + zeros(8 - head->0.len() - tail->0.len()) + tail->0)
        } else {
            None
        }
    } else {
        let groups = run_groups(text, true);
        if groups is Some && groups->0.len() == 8 {
            groups
        } else {
            None
        }
    }
}

/// Whether `text` spells an address.
pub open spec fn is_address_text(text: Seq<char>) -> bool {
    address_of(text) is Some
}

/// `run` is empty and spells no group, or it is the fields of a run joined
/// by colons and spells their groups.
pub open spec fn spells_run(run: Seq<char>, quad_allowed: bool, groups: Seq<u16>) -> bool {
    ||| run.len() == 0 && groups == Seq::<u16>::empty()
    ||| exists|fields: Seq<Seq<char>>|
        is_field_run(fields, quad_allowed) && run == join(fields, ':') && groups == field_groups(
            fields,
        )
}

/// The grammar of address text. `text` spells the eight `groups` if it is a
/// run that spells them, or if it is two runs around `::` that spell seven
/// groups or fewer, with zeros for the missing ones in between. A dotted
/// quad may stand at the very end only.
pub open spec fn spells(text: Seq<char>, groups: Seq<u16>) -> bool {
    ||| groups.len() == 8 && spells_run(text, true, groups)
    ||| exists|head: Seq<char>, tail: Seq<char>, front: Seq<u16>, back: Seq<u16>|
        {
            &&& text == head + seq![':', ':'] + tail
            &&& #[trigger] spells_run(head, false, front)
            &&& #[trigger] spells_run(tail, true, back)
            &&& front.len() + back.len() <= 7
            &&& groups == front + zeros(8 - front.len() - back.len()) + back
        }
}

/// A dotted quad holds no colon and is not empty.
proof fn lemma_quad_free(field: Seq<char>)
    requires
        is_dotted_quad(field),
    ensures
        free_of(field, ':'),
        field.len() >= 1,
{
    let parts = split(field, '.');
    assert forall|k: int| 0 <= k < parts.len() implies free_of(#[trigger] parts[k], ':') by {
        assert(is_octet(parts[k]));
        assert forall|i: int| 0 <= i < parts[k].len() implies parts[k][i] != ':' by {
            assert(is_digit(parts[k][i], 10));
        }
    }
    lemma_free_of_other(field, '.', ':');
    if free_of(field, '.') {
        lemma_split_free(field, '.');
    }
}

/// The fields of a run hold no colon, and none is empty.
proof fn lemma_run_fields(fields: Seq<Seq<char>>, quad_allowed: bool)
    requires
        is_field_run(fields, quad_allowed),
    ensures
        forall|k: int|
            0 <= k < fields.len() ==> free_of(#[trigger] fields[k], ':') && fields[k].len() >= 1,
        split(join(fields, ':'), ':') == fields,
        join(fields, ':').len() >= 1,
        join(fields, ':').last() != ':',
{
    assert forall|k: int| 0 <= k < fields.len() implies free_of(#[trigger] fields[k], ':')
        && fields[k].len() >= 1 by {
        if k < fields.len() - 1 {
            assert(fields[k] == fields.drop_last()[k]);
            assert(is_hex_group(fields.drop_last()[k]));
        }
        if is_hex_group(fields[k]) {
            assert forall|i: int| 0 <= i < fields[k].len() implies fields[k][i] != ':' by {
                assert(is_digit(fields[k][i], 16));
            }
        } else {
            lemma_quad_free(fields[k]);
        }
    }
    lemma_split_join(fields, ':');
    lemma_join_last(fields, ':');
    let last = fields.last();
    assert(fields[fields.len() - 1] == last);
    assert(last[last.len() - 1] != ':');
}

/// What the grammar says a run spells is what `run_groups` gives.
proof fn lemma_run_sound(run: Seq<char>, quad_allowed: bool, groups: Seq<u16>)
    requires
        spells_run(run, quad_allowed, groups),
    ensures
        run_groups(run, quad_allowed) == Some(groups),
        forall|p: int| !is_gap(run, p),
        run.len() >= 1 ==> run.last() != ':',
{
    if exists|fields: Seq<Seq<char>>|
        is_field_run(fields, quad_allowed) && run == join(fields, ':') && groups == field_groups(
            fields,
        ) {
        let fields = choose|fields: Seq<Seq<char>>|
            is_field_run(fields, quad_allowed) && run == join(fields, ':') && groups
                == field_groups(fields);
        lemma_run_fields(fields, quad_allowed);
        assert forall|p: int| !is_gap(run, p) by {
            if is_gap(run, p) {
                lemma_empty_field(run, p, ':');
            }
        }
    } else {
        assert forall|p: int| !is_gap(run, p) by {}
    }
}

/// What `run_groups` gives, the grammar says too.
proof fn lemma_run_complete(run: Seq<char>, quad_allowed: bool)
    requires
        run_groups(run, quad_allowed) is Some,
    ensures
        spells_run(run, quad_allowed, run_groups(run, quad_allowed)->0),
{
    if run.len() > 0 {
        let fields = split(run, ':');
        lemma_join_split(run, ':');
        assert(is_field_run(fields, quad_allowed) && run == join(fields, ':') && run_groups(
            run,
            quad_allowed,
        )->0 == field_groups(fields));
    }
}

/// A text with `::` somewhere has a first one.
pub proof fn lemma_first_gap(text: Seq<char>, p: int)
    requires
        is_gap(text, p),
    ensures
        is_gap(text, first_gap(text)),
        forall|q: int| 0 <= q < first_gap(text) ==> !is_gap(text, q),
        first_gap(text) <= p,
    decreases p,
{
    if exists|q: int| 0 <= q < p && is_gap(text, q) {
        let q = choose|q: int| 0 <= q < p && is_gap(text, q);
        lemma_first_gap(text, q);
    } else {
        assert(is_gap(text, p) && forall|q: int| 0 <= q < p ==> !is_gap(text, q));
    }
}

/// What `address_of` reads, the grammar says the text spells.
proof fn lemma_grammar_complete(text: Seq<char>, groups: Seq<u16>)
    requires
        address_of(text) == Some(groups),
    ensures
        spells(text, groups),
{
    if has_gap(text) {
        lemma_first_gap(text, choose|p: int| is_gap(text, p));
        let p = first_gap(text);
        let head = text.take(p);
        let tail = text.skip(p + 2);
        assert(text =~= head + seq![':', ':'] + tail);
        lemma_run_complete(head, false);
        lemma_run_complete(tail, true);
        let front = run_groups(head, false)->0;
        let back = run_groups(tail, true)->0;
        assert(spells_run(head, false, front) && spells_run(tail, true, back));
    } else {
        lemma_run_complete(text, true);
    }
}

/// Two runs around `::` are read as the groups of both with zeros between.
proof fn lemma_gap_form(
    text: Seq<char>,
    head: Seq<char>,
    tail: Seq<char>,
    front: Seq<u16>,
    back: Seq<u16>,
)
    requires
        text == head + seq![':', ':'] + tail,
        spells_run(head, false, front),
        spells_run(tail, true, back),
        front.len() + back.len() <= 7,
    ensures
        address_of(text) == Some(front + zeros(8 - front.len() - back.len()) + back),
{
    lemma_run_sound(head, false, front);
    lemma_run_sound(tail, true, back);
    let p = head.len() as int;
    assert(is_gap(text, p));
    assert forall|q: int| 0 <= q < p implies !is_gap(text, q) by {
        if is_gap(text, q) {
            if q + 1 < p {
                assert(is_gap(head, q));
            } else {
                assert(head.last() == text[q]);
            }
        }
    }
    let chosen = first_gap(text);
    assert(is_gap(text, chosen));
    assert(chosen == p);
    assert(text.take(p) =~= head);
    assert(text.skip(p + 2) =~= tail);
}

/// `address_of` reads text by the grammar: it gives the groups that the
/// text spells, and nothing where it spells none.
pub proof fn lemma_grammar(text: Seq<char>, groups: Seq<u16>)
    ensures
        address_of(text) == Some(groups) <==> spells(text, groups),
{
    if address_of(text) == Some(groups) {
        lemma_grammar_complete(text, groups);
    }
    if spells(text, groups) {
        if groups.len() == 8 && spells_run(text, true, groups) {
            lemma_run_sound(text, true, groups);
        } else {
            let (head, tail, front, back) = choose|
                head: Seq<char>,
                tail: Seq<char>,
                front: Seq<u16>,
                back: Seq<u16>,
            |
                {
                    &&& text == head + seq![':', ':'] + tail
                    &&& #[trigger] spells_run(head, false, front)
                    &&& #[trigger] spells_run(tail, true, back)
                    &&& front.len() + back.len() <= 7
                    &&& groups == front + zeros(8 - front.len() - back.len()) + back
                };
            lemma_gap_form(text, head, tail, front, back);
        }
    }
}

/// The character for a hexadecimal digit, letters in lower case.
pub open spec fn hex_char(d: int) -> char {
    if d < 10 {
        ((48 + d) as u8) as char
    } else {
        ((87 + d) as u8) as char
    }
}

/// The `k`-th of the four hexadecimal digits of a group, counted from the
/// most significant.
pub open spec fn nibble(group: u16, k: int) -> int {
    if k == 0 {
        group as int / 16 / 16 / 16 % 16
    } else if k == 1 {
        group as int / 16 / 16 % 16
    } else if k == 2 {
        group as int / 16 % 16
    } else {
        group as int % 16
    }
}

/// The expanded text of an address: each of the eight groups as four
/// hexadecimal digits, with a colon between neighbours.
pub open spec fn expanded_text(groups: Seq<u16>) -> Seq<char> {
    Seq::new(
        39,
        |i: int|
            if i % 5 == 4 {
                ':'
            } else {
                hex_char(nibble(groups[i / 5], i % 5))
            },
    )
}

/// `text` has the shape of expanded text: eight fields of four hexadecimal
/// digits each.
pub open spec fn is_expanded_form(text: Seq<char>) -> bool {
    &&& text.len() == 39
    &&& forall|i: int|
        0 <= i < 39 ==> if i % 5 == 4 {
            text[i] == ':'
        } else {
            is_hex_digit(#[trigger] text[i])
        }
}

/// The `k`-th run of four characters in a text that has a separator after
/// every fourth.
pub open spec fn block(text: Seq<char>, k: int) -> Seq<char> {
    text.subrange(5 * k, 5 * k + 4)
}

/// A text of `n` fields of four characters each has those as its fields.
proof fn lemma_split_blocks(text: Seq<char>, n: nat)
    requires
        n >= 1,
        text.len() == 5 * n - 1,
        forall|i: int| 0 <= i < text.len() ==> (text[i] == ':' <==> i % 5 == 4),
    ensures
        split(text, ':') =~= Seq::new(n, |k: int| block(text, k)),
    decreases n,
{
    if n == 1 {
        lemma_split_free(text, ':');
        assert(block(text, 0) =~= text);
    } else {
        let m: int = n - 1;
        let a = text.take(5 * m - 1);
        let b = text.skip(5 * m);
        assert(text =~= a.push(':') + b);
        lemma_split_blocks(a, m as nat);
        lemma_split_free(b, ':');
        lemma_split_concat(a, b, ':');
        assert forall|k: int| 0 <= k < m implies #[trigger] block(a, k) =~= block(text, k) by {}
        assert(b =~= block(text, m));
        assert(split(a, ':') + seq![b] =~= Seq::new(n, |k: int| block(text, k)));
    }
}

/// Text in expanded form spells the address whose groups its fields spell.
pub proof fn lemma_expanded_form(text: Seq<char>)
    requires
        is_expanded_form(text),
    ensures
        address_of(text) == Some(Seq::new(8, |k: int| number_value(block(text, k), 16) as u16)),
{
    assert forall|i: int| 0 <= i < text.len() implies (text[i] == ':' <==> i % 5 == 4) by {
        if i % 5 != 4 {
            assert(is_hex_digit(text[i]));
        }
    }
    lemma_split_blocks(text, 8);
    let fields = split(text, ':');
    assert(fields.len() == 8);
    assert forall|p: int| !is_gap(text, p) by {
        if is_gap(text, p) {
            assert(p % 5 == 4 && (p + 1) % 5 == 4);
        }
    }
    assert forall|k: int| 0 <= k < 8 implies is_hex_group(#[trigger] fields[k]) by {
        let field = fields[k];
        assert(field == block(text, k));
        assert forall|j: int| 0 <= j < field.len() implies is_digit(#[trigger] field[j], 16) by {
            assert(field[j] == text[5 * k + j]);
            assert(is_hex_digit(text[5 * k + j]));
        }
    }
    assert(hex_groups(fields) =~= Seq::new(8, |k: int| number_value(block(text, k), 16) as u16));
}

/// A hexadecimal digit's character is worth the digit.
pub proof fn lemma_hex_char(d: int)
    requires
        0 <= d < 16,
    ensures
        is_hex_digit(hex_char(d)),
        digit_value(hex_char(d)) == d,
        hex_char(d) != 'x',
        hex_char(d) != ':',
{
}

/// What a field of four hexadecimal digits is worth, digit by digit.
pub proof fn lemma_group_value(field: Seq<char>)
    requires
        field.len() == 4,
        all_digits(field, 16),
    ensures
        number_value(field, 16) == ((digit_value(field[0]) * 16 + digit_value(field[1])) * 16
            + digit_value(field[2])) * 16 + digit_value(field[3]),
        0 <= number_value(field, 16) < 0x10000,
        forall|j: int| 0 <= j < 4 ==> 0 <= digit_value(#[trigger] field[j]) < 16,
{
    reveal_with_fuel(number_value, 5);
    assert(field.drop_last() =~= seq![field[0], field[1], field[2]]);
    assert(field.drop_last().drop_last() =~= seq![field[0], field[1]]);
    assert(field.drop_last().drop_last().drop_last() =~= seq![field[0]]);
    assert forall|j: int| 0 <= j < 4 implies 0 <= digit_value(#[trigger] field[j]) < 16 by {
        assert(is_digit(field[j], 16));
    }
}

/// Reading the expanded text of an address gives the address back.
pub proof fn lemma_expanded_text(groups: Seq<u16>)
    requires
        groups.len() == 8,
    ensures
        is_expanded_form(expanded_text(groups)),
        address_of(expanded_text(groups)) == Some(groups),
{
    let text = expanded_text(groups);
    assert forall|i: int| 0 <= i < 39 && i % 5 != 4 implies is_hex_digit(#[trigger] text[i]) by {
        lemma_hex_char(nibble(groups[i / 5], i % 5));
    }
    lemma_expanded_form(text);
    assert forall|k: int| 0 <= k < 8 implies number_value(#[trigger] block(text, k), 16)
        == groups[k] by {
        let field = block(text, k);
        let g = groups[k];
        assert forall|j: int| 0 <= j < 4 implies is_digit(#[trigger] field[j], 16) by {
            assert(field[j] == text[5 * k + j]);
        }
        lemma_group_value(field);
        assert(field[0] == text[5 * k] && field[1] == text[5 * k + 1] && field[2] == text[5 * k
            + 2] && field[3] == text[5 * k + 3]);
        lemma_hex_char(nibble(g, 0));
        lemma_hex_char(nibble(g, 1));
        lemma_hex_char(nibble(g, 2));
        lemma_hex_char(nibble(g, 3));
        assert(g as int / 16 / 16 / 16 < 16);
    }
    assert(Seq::new(8, |k: int| number_value(block(text, k), 16) as u16) =~= groups);
}

/// Below this a number of so many digits stays, in base 16 or less.
spec fn digits_limit(n: int) -> int {
    if n <= 0 {
        1
    } else if n == 1 {
        0x10
    } else if n == 2 {
        0x100
    } else if n == 3 {
        0x1000
    } else {
        0x10000
    }
}

fn digit_of(c: char, radix: u32) -> (d: Option<u32>)
    requires
        radix == 10 || radix == 16,
    ensures
        d is Some <==> is_digit(c, radix as int),
        d is Some ==> d->0 == digit_value(c) && d->0 < radix,
{
    if '0' <= c && c <= '9' {
        Some(c as u32 - '0' as u32)
    } else if radix == 16 && 'a' <= c && c <= 'f' {
        Some(c as u32 - 'a' as u32 + 10)
    } else if radix == 16 && 'A' <= c && c <= 'F' {
        Some(c as u32 - 'A' as u32 + 10)
    } else {
        None
    }
}

/// Reads `t[lo..hi]`, at most four characters, as a number in base `radix`.
fn parse_number(t: &Vec<char>, lo: usize, hi: usize, radix: u32) -> (r: Option<u32>)
    requires
        lo <= hi <= t.len(),
        hi - lo <= 4,
        radix == 10 || radix == 16,
    ensures
        r is Some <==> all_digits(t@.subrange(lo as int, hi as int), radix as int),
        r is Some ==> r->0 == number_value(t@.subrange(lo as int, hi as int), radix as int)
            && r->0 <= 0xffff,
{
    let ghost digits = t@.subrange(lo as int, hi as int);
    let mut acc: u32 = 0;
    let mut i: usize = lo;
    proof {
        assert(digits.take(0) =~= Seq::<char>::empty());
    }
    while i < hi
        invariant
            lo <= i <= hi <= t.len(),
            hi - lo <= 4,
            radix == 10 || radix == 16,
            digits == t@.subrange(lo as int, hi as int),
            all_digits(digits.take(i - lo), radix as int),
            acc == number_value(digits.take(i - lo), radix as int),
            acc < digits_limit(i - lo),
        decreases hi - i,
    {
        match digit_of(t[i], radix) {
            None => {
                assert(!is_digit(digits[i - lo], radix as int));
                return None;
            },
            Some(d) => {
                proof {
                    assert(digits.take(i - lo + 1).drop_last() =~= digits.take(i - lo));
                    assert(digits.take(i - lo + 1).last() == t@[i as int]);
                    assert forall|j: int| 0 <= j < i - lo + 1 implies is_digit(
                        #[trigger] digits.take(i - lo + 1)[j],
                        radix as int,
                    ) by {
                        if j < i - lo {
                            assert(digits.take(i - lo)[j] == digits.take(i - lo + 1)[j]);
                        }
                    }
                }
                acc = acc * radix + d;
            },
        }
        i += 1;
    }
    proof {
        assert(digits.take(hi - lo) =~= digits);
    }
    Some(acc)
}

/// Reads `t[lo..hi]` as one group.
fn parse_hex_group(t: &Vec<char>, lo: usize, hi: usize) -> (r: Option<u16>)
    requires
        lo <= hi <= t.len(),
    ensures
        r is Some <==> is_hex_group(t@.subrange(lo as int, hi as int)),
        r is Some ==> r->0 == number_value(t@.subrange(lo as int, hi as int), 16),
{
    if hi - lo < 1 || hi - lo > 4 {
        return None;
    }
    match parse_number(t, lo, hi, 16) {
        Some(v) => Some(v as u16),
        None => None,
    }
}

/// Reads `t[lo..hi]` as one part of a dotted quad.
fn parse_octet(t: &Vec<char>, lo: usize, hi: usize) -> (r: Option<u16>)
    requires
        lo <= hi <= t.len(),
    ensures
        r is Some <==> is_octet(t@.subrange(lo as int, hi as int)),
        r is Some ==> r->0 == number_value(t@.subrange(lo as int, hi as int), 10) && r->0
            <= 255,
{
    if hi - lo < 1 || hi - lo > 3 {
        return None;
    }
    if hi - lo > 1 && t[lo] == '0' {
        return None;
    }
    match parse_number(t, lo, hi, 10) {
        Some(v) => if v <= 255 {
            Some(v as u16)
        } else {
            None
        },
        None => None,
    }
}

/// Reads `t[lo..hi]` as a dotted quad, and gives the two groups it fills.
fn parse_quad(t: &Vec<char>, lo: usize, hi: usize) -> (r: Option<(u16, u16)>)
    requires
        lo <= hi <= t.len(),
    ensures
        match r {
            Some((high, low)) => is_dotted_quad(t@.subrange(lo as int, hi as int)) && seq![
                high,
                low,
            ] == quad_groups(t@.subrange(lo as int, hi as int)),
            None => !is_dotted_quad(t@.subrange(lo as int, hi as int)),
        },
{
    let bounds = field_bounds(t, lo, hi, '.');
    if bounds.len() != 4 {
        return None;
    }
    let ghost parts = split(t@.subrange(lo as int, hi as int), '.');
    let mut octets: [u16; 4] = [0u16;4];
    let mut k: usize = 0;
    while k < 4
        invariant
            k <= 4,
            bounds@.len() == 4,
            parts.len() == 4,
            parts == split(t@.subrange(lo as int, hi as int), '.'),
            forall|j: int|
                0 <= j < 4 ==> {
                    &&& lo <= (#[trigger] bounds@[j]).0 <= bounds@[j].1 <= hi <= t.len()
                    &&& t@.subrange(bounds@[j].0 as int, bounds@[j].1 as int) == parts[j]
                },
            forall|j: int| 0 <= j < k ==> is_octet(#[trigger] parts[j]),
            forall|j: int|
                0 <= j < k ==> (#[trigger] octets@[j]) == number_value(parts[j], 10)
                    && octets@[j] <= 255,
        decreases 4 - k,
    {
        let (a, b) = bounds[k];
        match parse_octet(t, a, b) {
            None => {
                assert(!is_octet(parts[k as int]));
                return None;
            },
            Some(v) => {
                octets[k] = v;
            },
        }
        k += 1;
    }
    let high: u16 = octets[0] * 256 + octets[1];
    let low: u16 = octets[2] * 256 + octets[3];
    proof {
        assert(seq![high, low] =~= quad_groups(t@.subrange(lo as int, hi as int)));
    }
    Some((high, low))
}

/// Reads `t[lo..hi]` as a run of fields between colons.
fn parse_run(t: &Vec<char>, lo: usize, hi: usize, quad_allowed: bool) -> (r: Option<Vec<u16>>)
    requires
        lo <= hi <= t.len(),
    ensures
        match r {
            Some(groups) => run_groups(t@.subrange(lo as int, hi as int), quad_allowed) == Some(
                groups@,
            ),
            None => run_groups(t@.subrange(lo as int, hi as int), quad_allowed) is None,
        },
{
    let mut groups: Vec<u16> = Vec::new();
    if lo == hi {
        return Some(groups);
    }
    let bounds = field_bounds(t, lo, hi, ':');
    let n = bounds.len();
    let ghost fields = split(t@.subrange(lo as int, hi as int), ':');
    proof {
        lemma_split_nonempty(t@.subrange(lo as int, hi as int), ':');
    }
    let mut k: usize = 0;
    while k + 1 < n
        invariant
            k + 1 <= n,
            n == bounds@.len(),
            n == fields.len(),
            fields == split(t@.subrange(lo as int, hi as int), ':'),
            forall|j: int|
                0 <= j < n ==> {
                    &&& lo <= (#[trigger] bounds@[j]).0 <= bounds@[j].1 <= hi <= t.len()
                    &&& t@.subrange(bounds@[j].0 as int, bounds@[j].1 as int) == fields[j]
                },
            groups@.len() == k,
            forall|j: int|
                0 <= j < k ==> is_hex_group(#[trigger] fields[j]) && groups@[j] == number_value(
                    fields[j],
                    16,
                ),
        decreases n - k,
    {
        let (a, b) = bounds[k];
        match parse_hex_group(t, a, b) {
            None => {
                proof {
                    assert(!is_hex_group(fields[k as int]));
                    assert(fields.drop_last()[k as int] == fields[k as int]);
                }
                return None;
            },
            Some(v) => {
                groups.push(v);
            },
        }
        k += 1;
    }
    let (a, b) = bounds[n - 1];
    proof {
        assert forall|j: int| 0 <= j < n - 1 implies is_hex_group(
            #[trigger] fields.drop_last()[j],
        ) by {
            assert(fields.drop_last()[j] == fields[j]);
        }
        assert(fields.last() == fields[n - 1]);
    }
    match parse_hex_group(t, a, b) {
        Some(v) => {
            groups.push(v);
            proof {
                assert(groups@ =~= hex_groups(fields));
            }
            Some(groups)
        },
        None => {
            if !quad_allowed {
                return None;
            }
            match parse_quad(t, a, b) {
                Some((high, low)) => {
                    let ghost front = groups@;
                    groups.push(high);
                    groups.push(low);
                    proof {
                        assert(front =~= hex_groups(fields.drop_last()));
                        assert(groups@ =~= front + seq![high, low]);
                    }
                    Some(groups)
                },
                None => None,
            }
        },
    }
}

/// Finds the first `::` in `t`.
fn find_gap(t: &Vec<char>) -> (r: Option<usize>)
    ensures
        match r {
            Some(p) => is_gap(t@, p as int) && forall|q: int| 0 <= q < p ==> !is_gap(t@, q),
            None => !has_gap(t@),
        },
{
    let n = t.len();
    if n < 2 {
        assert forall|q: int| !is_gap(t@, q) by {}
        return None;
    }
    let mut i: usize = 0;
    while i < n - 1
        invariant
            2 <= n == t.len(),
            i <= n - 1,
            forall|q: int| 0 <= q < i ==> !is_gap(t@, q),
        decreases n - i,
    {
        if t[i] == ':' && t[i + 1] == ':' {
            return Some(i);
        }
        i += 1;
    }
    proof {
        assert forall|q: int| !is_gap(t@, q) by {}
    }
    None
}

/// Puts `head` at the front and `tail` at the end of eight groups of zeros.
fn around_zeros(head: &Vec<u16>, tail: &Vec<u16>) -> (segments: [u16; 8])
    requires
        head@.len() + tail@.len() <= 8,
    ensures
        segments@ == head@ + zeros(8 - head@.len() - tail@.len()) + tail@,
{
    let mut segments: [u16; 8] = [0u16;8];
    let h = head.len();
    let s = 8 - tail.len();
    let mut i: usize = 0;
    while i < h
        invariant
            i <= h == head@.len(),
            h <= s == 8 - tail@.len(),
            forall|j: int| 0 <= j < i ==> segments@[j] == head@[j],
            forall|j: int| i <= j < 8 ==> segments@[j] == 0,
        decreases h - i,
    {
        segments[i] = head[i];
        i += 1;
    }
    let mut k: usize = s;
    while k < 8
        invariant
            s <= k <= 8,
            h == head@.len(),
            h <= s == 8 - tail@.len(),
            forall|j: int| 0 <= j < h ==> segments@[j] == head@[j],
            forall|j: int| h <= j < s ==> segments@[j] == 0,
            forall|j: int| s <= j < k ==> segments@[j] == tail@[j - s],
            forall|j: int| k <= j < 8 ==> segments@[j] == 0,
        decreases 8 - k,
    {
        segments[k] = tail[k - s];
        k += 1;
    }
    proof {
        assert(segments@ =~= head@ + zeros(8 - head@.len() - tail@.len()) + tail@);
    }
    segments
}

/// Reads the characters `t` as an address.
pub fn parse_chars(t: &Vec<char>) -> (r: Option<Ipv6Address>)
    ensures
        match r {
            Some(address) => address_of(t@) == Some(address@),
            None => address_of(t@) is None,
        },
{
    let n = t.len();
    let empty: Vec<u16> = Vec::new();
    match find_gap(t) {
        None => {
            proof {
                assert(t@.subrange(0, n as int) =~= t@);
            }
            match parse_run(t, 0, n, true) {
                Some(groups) => if groups.len() == 8 {
                    let segments = around_zeros(&groups, &empty);
                    proof {
                        assert(segments@ =~= groups@);
                    }
                    Some(Ipv6Address { segments })
                } else {
                    None
                },
                None => None,
            }
        },
        Some(p) => {
            proof {
                assert(has_gap(t@));
                let chosen = first_gap(t@);
                assert(is_gap(t@, chosen));
                assert(chosen == p);
                assert(t@.subrange(0, p as int) =~= t@.take(p as int));
                assert(t@.subrange(p + 2, n as int) =~= t@.skip(p + 2));
            }
            let head = parse_run(t, 0, p, false);
            let tail = parse_run(t, p + 2, n, true);
            match (head, tail) {
                (Some(h), Some(l)) => if h.len() <= 7 && l.len() <= 7 - h.len() {
                    let segments = around_zeros(&h, &l);
                    Some(Ipv6Address { segments })
                } else {
                    None
                },
                _ => None,
            }
        },
    }
}

/// Reads `text` as an IPv6 address: `Some` exactly for the texts that spell
/// one, with the groups that they spell.
pub fn parse_ipv6(text: &str) -> (r: Option<Ipv6Address>)
    ensures
        match r {
            Some(address) => address_of(text@) == Some(address@),
            None => address_of(text@) is None,
        },
{
    let chars = to_chars(text);
    parse_chars(&chars)
}

} // verus!
