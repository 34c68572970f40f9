use vstd::prelude::*;
use std::cmp::Ordering;

use crate::stream::texts;
use crate::text::chars_of;

verus! {

/// The positions of the dots in `s`, in increasing order.
pub open spec fn dot_positions(s: Seq<char>) -> Seq<int>
    decreases s.len(),
{
    if s.len() == 0 {
        Seq::empty()
    } else if s.last() == '.' {
        dot_positions(s.drop_last()).push(s.len() - 1)
    } else {
        dot_positions(s.drop_last())
    }
}

pub open spec fn is_digit(c: char) -> bool {
    48 <= c as u32 <= 57
}

/// A non-empty run of decimal digits.
pub open spec fn all_digits(m: Seq<char>) -> bool {
    m.len() >= 1 && forall|i: int| 0 <= i < m.len() ==> is_digit(#[trigger] m[i])
}

/// The number that a run of decimal digits spells.
pub open spec fn decimal_value(m: Seq<char>) -> int
    decreases m.len(),
{
    if m.len() == 0 {
        0
    } else {
        decimal_value(m.drop_last()) * 10 + (m.last() as u32 - 48)
    }
}

/// The value of an unsigned 32-bit number written in decimal, with an
/// optional leading `+`; `None` for any other text.
pub open spec fn unsigned_value(m: Seq<char>) -> Option<int> {
    let d = if m.len() > 0 && m[0] == '+' {
        m.skip(1)
    } else {
        m
    };
    if all_digits(d) && decimal_value(d) <= u32::MAX {
        Some(decimal_value(d))
    } else {
        None
    }
}

/// The frame number of a name of the form `stem.N.ext`: exactly two dots,
/// and an unsigned 32-bit number between them.
pub open spec fn frame_number(s: Seq<char>) -> Option<int> {
    let d = dot_positions(s);
    if d.len() == 2 {
        unsigned_value(s.subrange(d[0] + 1, d[1]))
    } else {
        None
    }
}

pub open spec fn int_order(x: int, y: int) -> Ordering {
    if x < y {
        Ordering::Less
    } else if x > y {
        Ordering::Greater
    } else {
        Ordering::Equal
    }
}

/// Lexicographic order of texts by character code.
pub open spec fn text_order(a: Seq<char>, b: Seq<char>) -> Ordering
    decreases a.len(),
{
    if a.len() == 0 && b.len() == 0 {
        Ordering::Equal
    } else if a.len() == 0 {
        Ordering::Less
    } else if b.len() == 0 {
        Ordering::Greater
    } else if (a[0] as u32) < (b[0] as u32) {
        Ordering::Less
    } else if (a[0] as u32) > (b[0] as u32) {
        Ordering::Greater
    } else {
        text_order(a.skip(1), b.skip(1))
    }
}

/// The order of frame files: by frame number when both names carry one,
/// else by the whole name.
pub open spec fn frame_order(a: Seq<char>, b: Seq<char>) -> Ordering {
    match (frame_number(a), frame_number(b)) {
        (Some(x), Some(y)) => int_order(x, y),
        _ => text_order(a, b),
    }
}

proof fn lemma_text_order_flip(a: Seq<char>, b: Seq<char>)
    ensures
        text_order(a, b) == Ordering::Greater <==> text_order(b, a) == Ordering::Less,
    decreases a.len(),
{
    if a.len() > 0 && b.len() > 0 && a[0] as u32 == b[0] as u32 {
        lemma_text_order_flip(a.skip(1), b.skip(1));
    }
}

proof fn lemma_frame_order_flip(a: Seq<char>, b: Seq<char>)
    ensures
        frame_order(a, b) == Ordering::Greater <==> frame_order(b, a) == Ordering::Less,
{
    lemma_text_order_flip(a, b);
}

proof fn lemma_decimal_grows(m: Seq<char>, i: int)
    requires
        0 <= i <= m.len(),
        forall|j: int| 0 <= j < m.len() ==> is_digit(#[trigger] m[j]),
    ensures
        decimal_value(m) >= decimal_value(m.subrange(0, i)),
        decimal_value(m.subrange(0, i)) >= 0,
    decreases m.len(),
{
    if m.len() > 0 {
        if i == m.len() {
            assert(m.subrange(0, i) =~= m);
            lemma_decimal_grows(m.drop_last(), 0);
        } else {
            let t = m.drop_last();
            assert forall|j: int| 0 <= j < t.len() implies is_digit(#[trigger] t[j]) by {
                assert(t[j] == m[j]);
            }
            lemma_decimal_grows(t, i);
            assert(t.subrange(0, i) =~= m.subrange(0, i));
            lemma_decimal_grows(t, t.len() as int);
            assert(t.subrange(0, t.len() as int) =~= t);
        }
    } else {
        assert(m.subrange(0, i) =~= m);
    }
}

/// Reads the unsigned number written in `s[from..to]`.
fn parse_unsigned(s: &Vec<char>, from: usize, to: usize) -> (r: Option<u32>)
    requires
        from <= to <= s@.len(),
    ensures
        r matches Some(v) ==> unsigned_value(s@.subrange(from as int, to as int)) == Some(v as int),
        r is None ==> unsigned_value(s@.subrange(from as int, to as int)) is None,
{
    let ghost m = s@.subrange(from as int, to as int);
    let mut start = from;
    if from < to && s[from] == '+' {
        start = from + 1;
    }
    let ghost d = s@.subrange(start as int, to as int);
    assert(d =~= (if m.len() > 0 && m[0] == '+' { m.skip(1) } else { m }));
    if start == to {
        assert(d.len() == 0);
        return None;
    }
    let mut i: usize = start;
    while i < to
        invariant
            start <= i <= to <= s@.len(),
            d == s@.subrange(start as int, to as int),
            m == s@.subrange(from as int, to as int),
            d == (if m.len() > 0 && m[0] == '+' { m.skip(1) } else { m }),
            forall|j: int| start <= j < i ==> is_digit(#[trigger] s@[j]),
        decreases to - i,
    {
        let c = s[i];
        assert(d[i - start] == s@[i as int]);
        if !((c as u32) >= 48 && (c as u32) <= 57) {
            assert(!is_digit(d[i - start]));
            return None;
        }
        i = i + 1;
    }
    assert forall|j: int| 0 <= j < d.len() implies is_digit(#[trigger] d[j]) by {
        assert(d[j] == s@[start + j]);
    }
    let mut v: u64 = 0;
    let mut k: usize = start;
    while k < to
        invariant
            start <= k <= to <= s@.len(),
            d == s@.subrange(start as int, to as int),
            m == s@.subrange(from as int, to as int),
            d == (if m.len() > 0 && m[0] == '+' { m.skip(1) } else { m }),
            forall|j: int| 0 <= j < d.len() ==> is_digit(#[trigger] d[j]),
            v as int == decimal_value(d.subrange(0, k - start)),
            v <= u32::MAX,
        decreases to - k,
    {
        assert(d[k - start] == s@[k as int]);
        assert(is_digit(d[k - start]));
        let digit = (s[k] as u32 - 48) as u64;
        assert(d.subrange(0, k + 1 - start).drop_last() =~= d.subrange(0, k - start));
        let ghost sub = d.subrange(0, k + 1 - start);
        assert(sub.last() == d[k - start]);
        v = v * 10 + digit;
        assert(v as int == decimal_value(sub));
        k = k + 1;
        if v > 0xffff_ffff {
            proof {
                lemma_decimal_grows(d, k - start);
            }
            return None;
        }
    }
    assert(d.subrange(0, d.len() as int) =~= d);
    Some(v as u32)
}

/// The frame number of a file name of the form `stem.N.ext`, if it has one.
pub fn frame_number_of(name: &str) -> (r: Option<u32>)
    ensures
        r matches Some(v) ==> frame_number(name@) == Some(v as int),
        r is None ==> frame_number(name@) is None,
{
    let s = chars_of(name);
    let mut dots: Vec<usize> = Vec::new();
    let mut i: usize = 0;
    while i < s.len()
        invariant
            i <= s@.len(),
            s@ == name@,
            dots@.map_values(|p: usize| p as int) == dot_positions(s@.subrange(0, i as int)),
            forall|j: int| 0 <= j < dots@.len() ==> #[trigger] dots@[j] < i,
        decreases s@.len() - i,
    {
        let ghost prefix = s@.subrange(0, i + 1);
        assert(prefix.drop_last() =~= s@.subrange(0, i as int));
        if s[i] == '.' {
            dots.push(i);
        }
        assert(dots@.map_values(|p: usize| p as int) =~= dot_positions(prefix));
        i = i + 1;
    }
    assert(s@.subrange(0, s@.len() as int) =~= s@);
    if dots.len() != 2 {
        return None;
    }
    let a = dots[0];
    let b = dots[1];
    assert(dot_positions(s@)[0] == a && dot_positions(s@)[1] == b);
    if a >= b {
        proof {
            lemma_dots_increase(s@);
        }
        return None;
    }
    parse_unsigned(&s, a + 1, b)
}

proof fn lemma_dots_increase(s: Seq<char>)
    ensures
        forall|j: int|
            0 <= j < dot_positions(s).len() ==> 0 <= #[trigger] dot_positions(s)[j] < s.len(),
        forall|j: int, k: int|
            0 <= j < k < dot_positions(s).len() ==> #[trigger] dot_positions(s)[j] < #[trigger] dot_positions(
                s,
            )[k],
    decreases s.len(),
{
    if s.len() > 0 {
        let t = s.drop_last();
        lemma_dots_increase(t);
        let d = dot_positions(s);
        let e = dot_positions(t);
        if s.last() == '.' {
            assert(d == e.push(s.len() - 1));
            assert forall|j: int, k: int| 0 <= j < k < d.len() implies #[trigger] d[j] < #[trigger] d[k] by {
                if k == d.len() - 1 {
                    assert(d[j] == e[j]);
                } else {
                    assert(d[j] == e[j] && d[k] == e[k]);
                }
            }
        } else {
            assert(d == e);
        }
    }
}

/// Compares two texts character by character.
fn compare_text(a: &Vec<char>, b: &Vec<char>) -> (r: Ordering)
    ensures
        r == text_order(a@, b@),
{
    let mut i: usize = 0;
    assert(a@.skip(0) =~= a@);
    assert(b@.skip(0) =~= b@);
    while i < a.len() && i < b.len()
        invariant
            i <= a@.len(),
            i <= b@.len(),
            text_order(a@, b@) == text_order(a@.skip(i as int), b@.skip(i as int)),
        decreases a@.len() - i,
    {
        let x = a[i] as u32;
        let y = b[i] as u32;
        assert(a@.skip(i as int)[0] == a@[i as int]);
        assert(b@.skip(i as int)[0] == b@[i as int]);
        if x < y {
            return Ordering::Less;
        } else if x > y {
            return Ordering::Greater;
        }
        assert(a@.skip(i as int).skip(1) =~= a@.skip(i + 1));
        assert(b@.skip(i as int).skip(1) =~= b@.skip(i + 1));
        i = i + 1;
    }
    if i == a.len() && i == b.len() {
        Ordering::Equal
    } else if i == a.len() {
        Ordering::Less
    } else {
        Ordering::Greater
    }
}

/// Orders two frame file names: numerically by frame number when both
/// carry one, otherwise by the whole name.
pub fn compare_frame_names(a: &str, b: &str) -> (r: Ordering)
    ensures
        r == frame_order(a@, b@),
{
    match (frame_number_of(a), frame_number_of(b)) {
        (Some(x), Some(y)) => {
            if x < y {
                Ordering::Less
            } else if x > y {
                Ordering::Greater
            } else {
                Ordering::Equal
            }
        },
        _ => compare_text(&chars_of(a), &chars_of(b)),
    }
}

/// Whether no name is ordered after the one that follows it.
pub open spec fn in_frame_order(s: Seq<Seq<char>>) -> bool {
    forall|k: int| 0 <= k < s.len() - 1 ==> #[trigger] frame_order(s[k], s[k + 1]) != Ordering::Greater
}

/// Names that all carry a frame number, once in frame order, are ordered by
/// that number: numerically, not as text; strictly where the numbers differ.
pub proof fn lemma_numbered_names_sorted(s: Seq<Seq<char>>)
    requires
        in_frame_order(s),
        forall|k: int| 0 <= k < s.len() ==> (#[trigger] frame_number(s[k])) is Some,
    ensures
        forall|i: int, j: int|
            0 <= i <= j < s.len() ==> frame_number(#[trigger] s[i])->0 <= frame_number(#[trigger] s[j])->0,
        (forall|i: int, j: int|
            0 <= i < j < s.len() ==> frame_number(#[trigger] s[i])->0 != frame_number(#[trigger] s[j])->0)
            ==> forall|i: int, j: int|
            0 <= i < j < s.len() ==> frame_number(#[trigger] s[i])->0 < frame_number(#[trigger] s[j])->0,
{
    assert forall|i: int, j: int| 0 <= i <= j < s.len() implies frame_number(#[trigger] s[i])->0
        <= frame_number(#[trigger] s[j])->0 by {
        lemma_numbered_prefix(s, i, j);
    }
}

proof fn lemma_numbered_prefix(s: Seq<Seq<char>>, i: int, j: int)
    requires
        in_frame_order(s),
        forall|k: int| 0 <= k < s.len() ==> (#[trigger] frame_number(s[k])) is Some,
        0 <= i <= j < s.len(),
    ensures
        frame_number(s[i])->0 <= frame_number(s[j])->0,
    decreases j - i,
{
    if i < j {
        lemma_numbered_prefix(s, i, j - 1);
        let m = j - 1;
        assert(frame_order(s[m], s[m + 1]) != Ordering::Greater);
        assert(frame_number(s[m]) is Some && frame_number(s[j]) is Some);
    }
}

/// Sorts frame file names into playback order (a stable insertion sort).
pub fn sort_frame_names(names: &mut Vec<String>)
    ensures
        texts(final(names)@).to_multiset() == texts(old(names)@).to_multiset(),
        in_frame_order(texts(final(names)@)),
{
    let ghost input = texts(names@);
    let mut out: Vec<String> = Vec::new();
    let mut i: usize = 0;
    assert(texts(out@) =~= Seq::<Seq<char>>::empty());
    assert(input.subrange(0, 0) =~= Seq::<Seq<char>>::empty());
    while i < names.len()
        invariant
            i <= names@.len(),
            input == texts(names@),
            texts(out@).to_multiset() == input.subrange(0, i as int).to_multiset(),
            in_frame_order(texts(out@)),
        decreases names@.len() - i,
    {
        let name = names[i].clone();
        let mut j: usize = out.len();
        loop
            invariant
                j <= out@.len(),
                forall|k: int| j <= k < out@.len() ==> frame_order(#[trigger] out@[k]@, name@) == Ordering::Greater,
            ensures
                j <= out@.len(),
                forall|k: int| j <= k < out@.len() ==> frame_order(#[trigger] out@[k]@, name@) == Ordering::Greater,
                j == 0 || frame_order(out@[j - 1]@, name@) != Ordering::Greater,
            decreases j,
        {
            if j == 0 {
                break;
            }
            match compare_frame_names(out[j - 1].as_str(), name.as_str()) {
                Ordering::Greater => {
                    j = j - 1;
                },
                _ => {
                    break;
                },
            }
        }
        let ghost before = texts(out@);
        let ghost old_out = out@;
        proof {
            if j < out@.len() {
                lemma_frame_order_flip(out@[j as int]@, name@);
            }
        }
        out.insert(j, name);
        proof {
            let x = name@;
            let now = texts(out@);
            let a = before.subrange(0, j as int);
            let b = before.subrange(j as int, before.len() as int);
            assert(now =~= a.push(x) + b);
            assert(a.push(x) =~= a + seq![x]);
            assert(before =~= a + b);
            vstd::seq_lib::lemma_multiset_commutative(a.push(x), b);
            vstd::seq_lib::lemma_multiset_commutative(a, seq![x]);
            vstd::seq_lib::lemma_multiset_commutative(a, b);
            let pre = input.subrange(0, i as int);
            assert(input.subrange(0, i + 1) =~= pre + seq![x]);
            assert(input[i as int] == x);
            vstd::seq_lib::lemma_multiset_commutative(pre, seq![x]);
            assert(now.to_multiset() =~= input.subrange(0, i + 1).to_multiset());
            assert forall|k: int| 0 <= k < now.len() - 1 implies #[trigger] frame_order(now[k], now[k + 1])
                != Ordering::Greater by {
                if k + 1 < j {
                    assert(now[k] == before[k] && now[k + 1] == before[k + 1]);
                    assert(frame_order(before[k], before[k + 1]) != Ordering::Greater);
                } else if k + 1 == j {
                    assert(now[k] == old_out[k]@ && now[k + 1] == x);
                    assert(frame_order(old_out[k]@, x) != Ordering::Greater);
                } else if k == j {
                    assert(now[k] == x && now[k + 1] == old_out[j as int]@);
                    assert(frame_order(old_out[j as int]@, x) == Ordering::Greater);
                } else {
                    let m = k - 1;
                    assert(now[k] == before[m] && now[k + 1] == before[m + 1]);
                    assert(frame_order(before[m], before[m + 1]) != Ordering::Greater);
                }
            }
        }
        i = i + 1;
    }
    assert(input.subrange(0, names@.len() as int) =~= input);
    *names = out;
}

} // verus!
