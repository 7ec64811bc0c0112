//! Numbers and lists in text.

use vstd::prelude::*;
use vstd::string::{StrSliceExecFns, StringExecFns};

verus! {

/// The decimal digit `d`.
pub open spec fn digit(d: nat) -> char {
    (48 + d) as char
}

/// A number in decimal notation.
pub open spec fn decimal(n: nat) -> Seq<char>
    decreases n,
{
    if n < 10 {
        seq![digit(n)]
    } else {
        decimal(n / 10).push(digit(n % 10))
    }
}

/// The number that a string of decimal digits denotes.
pub open spec fn decimal_value(digits: Seq<char>) -> nat
    decreases digits.len(),
{
    if digits.len() == 0 {
        0
    } else {
        (decimal_value(digits.drop_last()) * 10 + (digits.last() as int - 48)) as nat
    }
}

/// What is known of a number in decimal notation.
pub(crate) proof fn lemma_decimal(n: nat, bound: nat, len: nat)
    requires
        n < bound,
        bound == pow10(len),
        len >= 1,
    ensures
        1 <= decimal(n).len() <= len,
        forall|i: int| 0 <= i < decimal(n).len() ==> 48 <= (#[trigger] decimal(n)[i]) as int <= 57,
        decimal_value(decimal(n)) == n,
    decreases n,
{
    reveal_with_fuel(decimal_value, 2);
    if n < 10 {
        assert(decimal(n).drop_last() =~= Seq::<char>::empty());
    } else {
        if len == 1 {
            reveal_with_fuel(pow10, 2);
        }
        lemma_decimal(n / 10, pow10((len - 1) as nat), (len - 1) as nat);
        assert(decimal(n).drop_last() =~= decimal(n / 10));
    }
}

/// A power of ten.
pub open spec fn pow10(len: nat) -> nat
    decreases len,
{
    if len == 0 {
        1
    } else {
        10 * pow10((len - 1) as nat)
    }
}

/// One decimal digit.
fn digit_text(d: u32) -> (r: &'static str)
    requires
        d < 10,
    ensures
        r@ == seq![digit(d as nat)],
{
    proof {
        reveal_strlit("0");
        reveal_strlit("1");
        reveal_strlit("2");
        reveal_strlit("3");
        reveal_strlit("4");
        reveal_strlit("5");
        reveal_strlit("6");
        reveal_strlit("7");
        reveal_strlit("8");
        reveal_strlit("9");
    }
    let r: &'static str = match d {
        0 => "0",
        1 => "1",
        2 => "2",
        3 => "3",
        4 => "4",
        5 => "5",
        6 => "6",
        7 => "7",
        8 => "8",
        _ => "9",
    };
    proof {
        assert(r@ =~= seq![digit(d as nat)]);
    }
    r
}

/// A number in decimal notation.
pub fn decimal_text(n: u32) -> (r: String)
    ensures
        r@ == decimal(n as nat),
    decreases n,
{
    if n < 10 {
        return digit_text(n).to_owned();
    }
    let mut r: String = decimal_text(n / 10);
    r.append(digit_text(n % 10));
    proof {
        assert(r@ =~= decimal(n as nat));
    }
    r
}

/// Whether a character is a decimal digit.
pub open spec fn is_digit(c: char) -> bool {
    48 <= c as int <= 57
}

/// Whether a text consists of decimal digits, at least one.
pub open spec fn is_decimal(s: Seq<char>) -> bool {
    s.len() > 0 && forall|i: int| 0 <= i < s.len() ==> is_digit(#[trigger] s[i])
}

/// The text behind a leading sign.
pub open spec fn behind(sign: char, s: Seq<char>) -> Seq<char> {
    if s.len() > 0 && s[0] == sign {
        s.skip(1)
    } else {
        s
    }
}

/// The number in a text: decimal digits, which a plus sign may precede, worth at most `max`.
pub open spec fn unsigned(s: Seq<char>, max: nat) -> Option<nat> {
    let digits = behind('+', s);
    if is_decimal(digits) && decimal_value(digits) <= max {
        Some(decimal_value(digits))
    } else {
        None
    }
}

/// The number in a text: decimal digits, which a sign may precede, in 32 bits.
pub open spec fn signed(s: Seq<char>) -> Option<int> {
    if s.len() > 0 && s[0] == '-' {
        if is_decimal(s.skip(1)) && decimal_value(s.skip(1)) <= 0x8000_0000 {
            Some(-(decimal_value(s.skip(1)) as int))
        } else {
            None
        }
    } else {
        match unsigned(s, 0x7fff_ffff) {
            Some(n) => Some(n as int),
            None => None,
        }
    }
}

/// More digits never make a number smaller.
proof fn lemma_value_grows(s: Seq<char>, i: int)
    requires
        forall|k: int| 0 <= k < s.len() ==> is_digit(#[trigger] s[k]),
        0 <= i <= s.len(),
    ensures
        decimal_value(s.take(i)) <= decimal_value(s),
    decreases s.len(),
{
    if i == s.len() {
        assert(s.take(i) =~= s);
    } else {
        let fewer = s.drop_last();
        assert(fewer.take(i) =~= s.take(i));
        lemma_value_grows(fewer, i);
        assert(is_digit(s[s.len() - 1]));
    }
}

/// The digits from `from` on, where they are worth at most `max`.
fn parse_digits(s: &str, from: usize, max: u64) -> (r: Option<u64>)
    requires
        from <= s@.len(),
    ensures
        ({
            let digits = s@.skip(from as int);
            match r {
                Some(n) => is_decimal(digits) && decimal_value(digits) == n && n <= max,
                None => !is_decimal(digits) || decimal_value(digits) > max,
            }
        }),
{
    let len: usize = s.unicode_len();
    let ghost digits = s@.skip(from as int);
    if from == len {
        return None;
    }
    let mut value: u128 = 0;
    let mut i: usize = from;
    proof {
        assert(digits.take(0) =~= Seq::empty());
    }
    while i < len
        invariant
            from <= i <= len,
            len == s@.len(),
            digits == s@.skip(from as int),
            value <= max,
            value == decimal_value(digits.take(i - from)),
            forall|k: int| 0 <= k < i - from ==> is_digit(#[trigger] digits[k]),
        decreases len - i,
    {
        let c: char = s.get_char(i);
        proof {
            assert(digits[i - from] == c);
        }
        let code: u32 = c as u32;
        if code < 48 || code > 57 {
            return None;
        }
        proof {
            let more = digits.take(i - from + 1);
            assert(more.drop_last() =~= digits.take(i - from));
            assert(more.last() == c);
            if is_decimal(digits) {
                lemma_value_grows(digits, i - from + 1);
            }
        }
        value = value * 10 + (code - 48) as u128;
        if value > max as u128 {
            return None;
        }
        i = i + 1;
    }
    proof {
        assert(digits.take(i - from) =~= digits);
    }
    Some(value as u64)
}

/// The number in a text: decimal digits, which a plus sign may precede, worth at most `max`.
pub fn parse_unsigned(s: &str, max: u64) -> (r: Option<u64>)
    ensures
        match r {
            Some(n) => unsigned(s@, max as nat) == Some(n as nat),
            None => unsigned(s@, max as nat) is None,
        },
{
    let mut from: usize = 0;
    if s.unicode_len() > 0 {
        if s.get_char(0) == '+' {
            from = 1;
        }
    }
    proof {
        assert(s@.skip(0) =~= s@);
    }
    parse_digits(s, from, max)
}

/// The 32-bit number in a text.
pub fn parse_signed(s: &str) -> (r: Option<i64>)
    ensures
        match r {
            Some(n) => signed(s@) == Some(n as int),
            None => signed(s@) is None,
        },
{
    if s.unicode_len() > 0 {
        if s.get_char(0) == '-' {
            return match parse_digits(s, 1, 0x8000_0000) {
                Some(n) => Some(-(n as i64)),
                None => None,
            };
        }
    }
    match parse_unsigned(s, 0x7fff_ffff) {
        Some(n) => Some(n as i64),
        None => None,
    }
}

/// The parts of a text between the separators.
pub open spec fn split_on(s: Seq<char>, sep: char) -> Seq<Seq<char>>
    decreases s.len(),
{
    if s.len() == 0 {
        seq![Seq::empty()]
    } else {
        let parts = split_on(s.drop_last(), sep);
        if s.last() == sep {
            parts.push(Seq::empty())
        } else {
            parts.update(parts.len() - 1, parts.last().push(s.last()))
        }
    }
}

/// Texts as sequences of characters.
pub open spec fn texts(list: Seq<String>) -> Seq<Seq<char>> {
    list.map_values(|s: String| s@)
}

/// The parts of a text between the separators.
pub fn split(s: &str, sep: char) -> (r: Vec<String>)
    ensures
        texts(r@) == split_on(s@, sep),
{
    let len: usize = s.unicode_len();
    let mut parts: Vec<String> = Vec::new();
    let mut start: usize = 0;
    let mut i: usize = 0;
    proof {
        assert(s@.take(0) =~= Seq::empty());
        assert(s@.subrange(0, 0) =~= Seq::empty());
        assert(texts(parts@).push(s@.subrange(0, 0)) =~= split_on(s@.take(0), sep));
    }
    while i < len
        invariant
            start <= i <= len,
            len == s@.len(),
            texts(parts@).push(s@.subrange(start as int, i as int)) == split_on(
                s@.take(i as int),
                sep,
            ),
        decreases len - i,
    {
        let c: char = s.get_char(i);
        let ghost done = texts(parts@);
        let ghost open = s@.subrange(start as int, i as int);
        proof {
            assert(s@.take(i + 1).drop_last() =~= s@.take(i as int));
            assert(s@.take(i + 1).last() == c);
            assert(done.push(open).last() == open);
        }
        if c == sep {
            let part: String = s.substring_char(start, i).to_owned();
            parts.push(part);
            start = i + 1;
            proof {
                assert(texts(parts@) =~= done.push(open));
                assert(s@.subrange(start as int, i + 1) =~= Seq::empty());
            }
        } else {
            proof {
                assert(s@.subrange(start as int, i + 1) =~= open.push(c));
                assert(done.push(open).update(done.len() as int, open.push(c)) =~= done.push(
                    open.push(c),
                ));
            }
        }
        i = i + 1;
    }
    let ghost done = texts(parts@);
    let last: String = s.substring_char(start, len).to_owned();
    parts.push(last);
    proof {
        assert(s@.take(i as int) =~= s@);
        assert(texts(parts@) =~= done.push(s@.subrange(start as int, len as int)));
    }
    parts
}

/// Texts one after the other, with a separator between them.
pub open spec fn joined(parts: Seq<Seq<char>>, sep: char) -> Seq<char>
    decreases parts.len(),
{
    if parts.len() == 0 {
        Seq::empty()
    } else if parts.len() == 1 {
        parts[0]
    } else {
        joined(parts.drop_last(), sep).push(sep) + parts.last()
    }
}

/// What follows a text without separators is added to its last part.
proof fn lemma_split_append(s: Seq<char>, t: Seq<char>, sep: char)
    requires
        !t.contains(sep),
    ensures
        split_on(s, sep).len() > 0,
        split_on(s + t, sep) == split_on(s, sep).update(
            split_on(s, sep).len() - 1,
            split_on(s, sep).last() + t,
        ),
    decreases s.len() + t.len(),
{
    let parts = split_on(s, sep);
    if t.len() == 0 {
        if s.len() > 0 {
            lemma_split_append(s.drop_last(), Seq::empty(), sep);
        }
        assert(s + t =~= s);
        assert(parts.last() + t =~= parts.last());
        assert(parts.update(parts.len() - 1, parts.last()) =~= parts);
    } else {
        let fewer = t.drop_last();
        assert(!fewer.contains(sep)) by {
            if fewer.contains(sep) {
                let k = choose|k: int| 0 <= k < fewer.len() && fewer[k] == sep;
                assert(t[k] == sep);
            }
        }
        lemma_split_append(s, fewer, sep);
        assert((s + t).drop_last() =~= s + fewer);
        assert((s + t).last() == t.last());
        assert(t[t.len() - 1] != sep);
        assert((parts.last() + fewer).push(t.last()) =~= parts.last() + t);
        assert(split_on(s + t, sep) =~= parts.update(parts.len() - 1, parts.last() + t));
    }
}

/// Splitting what was joined gives the parts back, where none of them holds the separator.
pub proof fn law_split_undoes_join(parts: Seq<Seq<char>>, sep: char)
    requires
        parts.len() > 0,
        forall|i: int| 0 <= i < parts.len() ==> !(#[trigger] parts[i]).contains(sep),
    ensures
        split_on(joined(parts, sep), sep) == parts,
    decreases parts.len(),
{
    if parts.len() == 1 {
        lemma_split_append(Seq::empty(), parts[0], sep);
        assert(Seq::empty() + parts[0] =~= parts[0]);
        assert(split_on(parts[0], sep) =~= parts);
    } else {
        let fewer = parts.drop_last();
        assert forall|i: int| 0 <= i < fewer.len() implies !(#[trigger] fewer[i]).contains(sep) by {
            assert(fewer[i] == parts[i]);
        }
        law_split_undoes_join(fewer, sep);
        let front = joined(fewer, sep).push(sep);
        assert(front.drop_last() =~= joined(fewer, sep));
        assert(split_on(front, sep) == fewer.push(Seq::empty()));
        assert(parts.last() == parts[parts.len() - 1]);
        lemma_split_append(front, parts.last(), sep);
        assert(Seq::<char>::empty() + parts.last() =~= parts.last());
        assert(split_on(joined(parts, sep), sep) =~= parts);
    }
}

/// Whether two texts are the same.
pub fn same_text(a: &str, b: &str) -> (r: bool)
    ensures
        r == (a@ == b@),
{
    starts_with(a, b) && a.unicode_len() == b.unicode_len()
}

/// Whether a text begins with another.
pub open spec fn has_prefix(s: Seq<char>, prefix: Seq<char>) -> bool {
    prefix.len() <= s.len() && s.take(prefix.len() as int) == prefix
}

/// Whether a text begins with another.
pub fn starts_with(s: &str, prefix: &str) -> (r: bool)
    ensures
        r == has_prefix(s@, prefix@),
        prefix@.len() == s@.len() ==> r == (s@ == prefix@),
{
    let len: usize = prefix.unicode_len();
    if len > s.unicode_len() {
        return false;
    }
    let mut i: usize = 0;
    while i < len
        invariant
            i <= len,
            len == prefix@.len(),
            len <= s@.len(),
            forall|k: int| 0 <= k < i ==> s@[k] == prefix@[k],
        decreases len - i,
    {
        if s.get_char(i) != prefix.get_char(i) {
            proof {
                assert(s@.take(len as int)[i as int] != prefix@[i as int]);
            }
            return false;
        }
        i = i + 1;
    }
    proof {
        assert(s@.take(len as int) =~= prefix@);
        assert(s@.take(s@.len() as int) =~= s@);
    }
    true
}

} // verus!
