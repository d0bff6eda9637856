//! Strings as sequences of characters, and their fields between separators.

use vstd::prelude::*;

verus! {

/// `String::push` appends one character to the string.
pub assume_specification[ String::push ](s: &mut String, c: char)
    ensures
        final(s)@ == old(s)@.push(c),
;

/// The fields of `s`: the runs of characters between occurrences of `sep`.
/// A string without `sep` is one field; every `sep` starts a new one, so
/// that two separators in a row, or one at either end, give an empty field.
pub open spec fn split(s: Seq<char>, sep: char) -> Seq<Seq<char>>
    decreases s.len(),
{
    if s.len() == 0 {
        seq![Seq::<char>::empty()]
    } else {
        let before = split(s.drop_last(), sep);
        if s.last() == sep {
            before.push(Seq::<char>::empty())
        } else {
            before.drop_last().push(before.last().push(s.last()))
        }
    }
}

/// The fields written one after another with `sep` between neighbours.
pub open spec fn join(fields: Seq<Seq<char>>, sep: char) -> Seq<char>
    decreases fields.len(),
{
    if fields.len() == 0 {
        Seq::<char>::empty()
    } else if fields.len() == 1 {
        fields[0]
    } else {
        join(fields.drop_last(), sep).push(sep) + fields.last()
    }
}

/// `s` holds no `sep`.
pub open spec fn free_of(s: Seq<char>, sep: char) -> bool {
    forall|i: int| 0 <= i < s.len() ==> s[i] != sep
}

/// Every string has at least one field.
pub proof fn lemma_split_nonempty(s: Seq<char>, sep: char)
    ensures
        split(s, sep).len() >= 1,
    decreases s.len(),
{
    if s.len() > 0 {
        lemma_split_nonempty(s.drop_last(), sep);
    }
}

/// One more character either opens a new field or extends the last one.
pub proof fn lemma_split_push(s: Seq<char>, c: char, sep: char)
    ensures
        split(s, sep).len() >= 1,
        c == sep ==> split(s.push(c), sep) == split(s, sep).push(Seq::<char>::empty()),
        c != sep ==> split(s.push(c), sep) == split(s, sep).drop_last().push(
            split(s, sep).last().push(c),
        ),
{
    lemma_split_nonempty(s, sep);
    assert(s.push(c).drop_last() =~= s);
}

/// A string without separators is its own single field.
pub proof fn lemma_split_free(s: Seq<char>, sep: char)
    requires
        free_of(s, sep),
    ensures
        split(s, sep) == seq![s],
    decreases s.len(),
{
    if s.len() == 0 {
        assert(s =~= Seq::<char>::empty());
    } else {
        lemma_split_free(s.drop_last(), sep);
        assert(s.drop_last().push(s.last()) =~= s);
        assert(seq![s.drop_last()].drop_last().push(s) =~= seq![s]);
    }
}

/// The fields on both sides of a separator are the fields of the whole.
pub proof fn lemma_split_concat(a: Seq<char>, b: Seq<char>, sep: char)
    ensures
        split(a.push(sep) + b, sep) == split(a, sep) + split(b, sep),
    decreases b.len(),
{
    let whole = a.push(sep) + b;
    lemma_split_nonempty(a, sep);
    if b.len() == 0 {
        assert(whole =~= a.push(sep));
        lemma_split_push(a, sep, sep);
        assert(split(a, sep).push(Seq::<char>::empty()) =~= split(a, sep) + split(b, sep));
    } else {
        let front = b.drop_last();
        lemma_split_concat(a, front, sep);
        lemma_split_nonempty(front, sep);
        assert(whole.drop_last() =~= a.push(sep) + front);
        assert(whole.last() == b.last());
        let left = split(a, sep);
        let right = split(front, sep);
        if b.last() == sep {
            assert((left + right).push(Seq::<char>::empty()) =~= left + right.push(
                Seq::<char>::empty(),
            ));
        } else {
            assert((left + right).drop_last().push((left + right).last().push(b.last()))
                =~= left + right.drop_last().push(right.last().push(b.last())));
        }
    }
}

/// Splitting undoes joining, where no field holds the separator.
pub proof fn lemma_split_join(fields: Seq<Seq<char>>, sep: char)
    requires
        fields.len() >= 1,
        forall|k: int| 0 <= k < fields.len() ==> free_of(#[trigger] fields[k], sep),
    ensures
        split(join(fields, sep), sep) == fields,
    decreases fields.len(),
{
    if fields.len() == 1 {
        lemma_split_free(fields[0], sep);
        assert(seq![fields[0]] =~= fields);
    } else {
        let front = fields.drop_last();
        lemma_split_join(front, sep);
        lemma_split_concat(join(front, sep), fields.last(), sep);
        lemma_split_free(fields.last(), sep);
        assert(front + seq![fields.last()] =~= fields);
    }
}

/// Joining undoes splitting.
pub proof fn lemma_join_split(s: Seq<char>, sep: char)
    ensures
        join(split(s, sep), sep) == s,
    decreases s.len(),
{
    if s.len() == 0 {
        assert(s =~= Seq::<char>::empty());
    } else {
        let front = s.drop_last();
        let c = s.last();
        lemma_join_split(front, sep);
        lemma_split_nonempty(front, sep);
        let before = split(front, sep);
        assert(front.push(c) =~= s);
        if c == sep {
            let fields = before.push(Seq::<char>::empty());
            assert(fields.drop_last() =~= before);
            assert(join(before, sep).push(sep) + Seq::<char>::empty() =~= s);
        } else {
            let fields = before.drop_last().push(before.last().push(c));
            if before.len() == 1 {
                assert(fields[0] =~= s);
            } else {
                assert(fields.drop_last() =~= before.drop_last());
                assert(join(before.drop_last(), sep).push(sep) + before.last().push(c) =~= (join(
                    before.drop_last(),
                    sep,
                ).push(sep) + before.last()).push(c));
            }
        }
    }
}

/// A string whose fields hold no `other` holds none either, where `other`
/// is not the separator.
pub proof fn lemma_free_of_other(s: Seq<char>, sep: char, other: char)
    requires
        sep != other,
        forall|k: int| 0 <= k < split(s, sep).len() ==> free_of(#[trigger] split(s, sep)[k], other),
    ensures
        free_of(s, other),
    decreases s.len(),
{
    if s.len() > 0 {
        let front = s.drop_last();
        let before = split(front, sep);
        let fields = split(s, sep);
        lemma_split_nonempty(front, sep);
        assert forall|k: int| 0 <= k < before.len() implies free_of(
            #[trigger] before[k],
            other,
        ) by {
            if s.last() == sep || k < before.len() - 1 {
                assert(before[k] == fields[k]);
            } else {
                assert(fields[k] == before[k].push(s.last()));
                assert forall|i: int| 0 <= i < before[k].len() implies before[k][i] != other by {
                    assert(fields[k][i] == before[k][i]);
                }
            }
        }
        lemma_free_of_other(front, sep, other);
        if s.last() != sep {
            let last = fields[before.len() - 1];
            assert(last == before.last().push(s.last()));
            assert(last[last.len() - 1] == s.last());
        }
        assert forall|i: int| 0 <= i < s.len() implies s[i] != other by {
            if i < s.len() - 1 {
                assert(front[i] == s[i]);
            }
        }
    }
}

/// Two separators in a row have an empty field between them.
pub proof fn lemma_empty_field(s: Seq<char>, p: int, sep: char)
    requires
        0 <= p,
        p + 1 < s.len(),
        s[p] == sep,
        s[p + 1] == sep,
    ensures
        exists|k: int| 0 <= k < split(s, sep).len() && (#[trigger] split(s, sep)[k]).len() == 0,
{
    let a = s.take(p);
    let b = s.skip(p + 1);
    let c = s.skip(p + 2);
    let none = Seq::<char>::empty();
    assert(s =~= a.push(sep) + b);
    assert(b =~= none.push(sep) + c);
    lemma_split_concat(a, b, sep);
    lemma_split_concat(none, c, sep);
    lemma_split_nonempty(a, sep);
    let k = split(a, sep).len() as int;
    assert(split(none, sep)[0] == none);
    assert(split(b, sep)[0] == none);
    assert(split(s, sep)[k] == none);
}

/// A joined string ends as its last field ends.
pub proof fn lemma_join_last(fields: Seq<Seq<char>>, sep: char)
    requires
        fields.len() >= 1,
        fields.last().len() >= 1,
    ensures
        join(fields, sep).len() >= 1,
        join(fields, sep).last() == fields.last().last(),
{
}

/// The characters of `s`, in order.
pub fn to_chars(s: &str) -> (chars: Vec<char>)
    ensures
        chars@ == s@,
{
    let mut chars: Vec<char> = Vec::new();
    for c in it: s.chars()
        invariant
            chars@ == it.seq().take(it.index() as int),
            it.seq() == s@,
    {
        chars.push(c);
    }
    chars
}

/// The string that spells `chars`.
pub fn from_chars(chars: &Vec<char>) -> (s: String)
    ensures
        s@ == chars@,
{
    let mut s = String::new();
    let mut i: usize = 0;
    while i < chars.len()
        invariant
            i <= chars.len(),
            s@ == chars@.take(i as int),
        decreases chars.len() - i,
    {
        s.push(chars[i]);
        i += 1;
    }
    s
}

/// Where the fields of `t[lo..hi]` lie: for each field, in order, the index
/// of its first character and the index after its last.
pub fn field_bounds(t: &Vec<char>, lo: usize, hi: usize, sep: char) -> (bounds: Vec<
    (usize, usize),
>)
    requires
        lo <= hi <= t.len(),
    ensures
        bounds@.len() == split(t@.subrange(lo as int, hi as int), sep).len(),
        forall|k: int|
            0 <= k < bounds@.len() ==> {
                &&& lo <= (#[trigger] bounds@[k]).0 <= bounds@[k].1 <= hi
                &&& t@.subrange(bounds@[k].0 as int, bounds@[k].1 as int) == split(
                    t@.subrange(lo as int, hi as int),
                    sep,
                )[k]
            },
{
    let mut bounds: Vec<(usize, usize)> = Vec::new();
    let mut start: usize = lo;
    let mut i: usize = lo;
    proof {
        assert(t@.subrange(lo as int, lo as int) =~= Seq::<char>::empty());
    }
    while i < hi
        invariant
            lo <= start <= i <= hi <= t.len(),
            split(t@.subrange(lo as int, i as int), sep).len() == bounds@.len() + 1,
            split(t@.subrange(lo as int, i as int), sep).last() == t@.subrange(
                start as int,
                i as int,
            ),
            forall|k: int|
                0 <= k < bounds@.len() ==> {
                    &&& lo <= (#[trigger] bounds@[k]).0 <= bounds@[k].1 <= hi
                    &&& t@.subrange(bounds@[k].0 as int, bounds@[k].1 as int) == split(
                        t@.subrange(lo as int, i as int),
                        sep,
                    )[k]
                },
        decreases hi - i,
    {
        proof {
            lemma_split_push(t@.subrange(lo as int, i as int), t@[i as int], sep);
            assert(t@.subrange(lo as int, i + 1) =~= t@.subrange(lo as int, i as int).push(
                t@[i as int],
            ));
        }
        if t[i] == sep {
            bounds.push((start, i));
            start = i + 1;
            proof {
                assert(t@.subrange(i + 1, i + 1) =~= Seq::<char>::empty());
            }
        } else {
            proof {
                assert(t@.subrange(start as int, i + 1) =~= t@.subrange(
                    start as int,
                    i as int,
                ).push(t@[i as int]));
            }
        }
        i += 1;
    }
    bounds.push((start, hi));
    bounds
}

} // verus!
