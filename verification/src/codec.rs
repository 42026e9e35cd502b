//! How values are written to a text, and read back from it.

use vstd::prelude::*;

use crate::text::text_of;

verus! {

/// Values that can be written to a text and read back.
pub trait Stored: DeepView + Sized {
    /// What a value is written as.
    spec fn written(value: Self::V) -> Seq<char>;

    /// The value that a text begins with, and what follows it.
    spec fn read(text: Seq<char>) -> Option<(Self::V, Seq<char>)>;

    /// The value is one that the machine can hold.
    spec fn fits(value: Self::V) -> bool;

    /// What is written is read back, whatever follows it.
    proof fn law_read_gives_back(value: Self::V, rest: Seq<char>)
        requires
            Self::fits(value),
        ensures
            Self::read(Self::written(value) + rest) == Some((value, rest)),
    ;

    /// Writes the value behind what the text holds.
    fn write_to(&self, out: &mut String)
        ensures
            final(out)@ == old(out)@ + Self::written(self.deep_view()),
            Self::fits(self.deep_view()),
    ;

    /// Reads the value that stands at a place of a text, and says where it ends.
    fn read_from(chars: &Vec<char>, from: usize) -> (res: Option<(Self, usize)>)
        requires
            from <= chars@.len(),
        ensures
            res is Some <==> Self::read(chars@.skip(from as int)) is Some,
            res matches Some((value, to)) ==> to <= chars@.len() && Self::read(
                chars@.skip(from as int),
            ) == Some((value.deep_view(), chars@.skip(to as int))),
    ;
}

/// A hexadecimal digit.
pub open spec fn digit(n: int) -> char {
    if n < 10 {
        ('0' as int + n) as char
    } else {
        ('a' as int + n - 10) as char
    }
}

/// The character is a hexadecimal digit.
pub open spec fn is_digit(c: char) -> bool {
    '0' <= c <= '9' || 'a' <= c <= 'f'
}

/// What a hexadecimal digit stands for.
pub open spec fn digit_value(c: char) -> int {
    if c <= '9' {
        c as int - '0' as int
    } else {
        c as int - 'a' as int + 10
    }
}

/// How many numbers can be written with some digits.
pub open spec fn limit(width: nat) -> nat
    decreases width,
{
    if width == 0 {
        1
    } else {
        16 * limit((width - 1) as nat)
    }
}

/// A number written with a number of digits.
pub open spec fn digits(n: nat, width: nat) -> Seq<char>
    decreases width,
{
    if width == 0 {
        seq![]
    } else {
        digits(n / 16, (width - 1) as nat).push(digit((n % 16) as int))
    }
}

/// The characters are all digits.
pub open spec fn all_digits(s: Seq<char>) -> bool {
    forall|i: int| 0 <= i < s.len() ==> is_digit(#[trigger] s[i])
}

/// The number that digits spell.
pub open spec fn spelled(s: Seq<char>) -> int
    decreases s.len(),
{
    if s.len() == 0 {
        0
    } else {
        16 * spelled(s.drop_last()) + digit_value(s.last())
    }
}

/// The number that a text begins with, and what follows it.
pub open spec fn read_number(text: Seq<char>, width: nat) -> Option<(int, Seq<char>)> {
    if text.len() < width || !all_digits(text.take(width as int)) {
        None
    } else {
        Some((spelled(text.take(width as int)), text.skip(width as int)))
    }
}

/// A number is what its digits spell, if they are enough.
proof fn lemma_digits_spell(n: nat, width: nat)
    requires
        n < limit(width),
    ensures
        digits(n, width).len() == width,
        all_digits(digits(n, width)),
        spelled(digits(n, width)) == n,
    decreases width,
{
    if width > 0 {
        lemma_digits_spell(n / 16, (width - 1) as nat);
        let all = digits(n, width);
        assert(all.drop_last() == digits(n / 16, (width - 1) as nat));
    }
}

/// Digits spell a number that they are enough for.
proof fn lemma_spelled_bound(s: Seq<char>)
    requires
        all_digits(s),
    ensures
        0 <= spelled(s) < limit(s.len()),
    decreases s.len(),
{
    if s.len() > 0 {
        assert forall|i: int| 0 <= i < s.len() - 1 implies is_digit(
            #[trigger] s.drop_last()[i],
        ) by {
            assert(is_digit(s[i]));
        }
        lemma_spelled_bound(s.drop_last());
        assert(is_digit(s[s.len() - 1]));
    }
}

/// A written number is read back.
proof fn lemma_number_is_read(n: nat, width: nat, rest: Seq<char>)
    requires
        n < limit(width),
    ensures
        read_number(digits(n, width) + rest, width) == Some((n as int, rest)),
{
    lemma_digits_spell(n, width);
    let text = digits(n, width) + rest;
    assert(text.take(width as int) == digits(n, width));
    assert(text.skip(width as int) == rest);
}

/// The widths in use are enough for the machine's numbers.
proof fn lemma_limits()
    ensures
        limit(16) == 0x1_0000_0000_0000_0000,
        limit(32) == 0x1_0000_0000_0000_0000 * 0x1_0000_0000_0000_0000,
{
    reveal_with_fuel(limit, 33);
}

/// Fewer digits are enough for fewer numbers.
proof fn lemma_limit_grows(narrow: nat, wide: nat)
    requires
        narrow <= wide,
    ensures
        0 < limit(narrow) <= limit(wide),
    decreases wide,
{
    if narrow < wide {
        lemma_limit_grows(narrow, (wide - 1) as nat);
    } else if narrow > 0 {
        lemma_limit_grows((narrow - 1) as nat, (narrow - 1) as nat);
    }
}

/// A hexadecimal digit.
fn digit_char(n: u8) -> (c: char)
    requires
        n < 16,
    ensures
        c == digit(n as int),
{
    if n < 10 {
        (48u8 + n) as char
    } else {
        (87u8 + n) as char
    }
}

/// What a character stands for, if it is a hexadecimal digit.
fn char_digit(c: char) -> (n: Option<u8>)
    ensures
        n is Some <==> is_digit(c),
        n matches Some(d) ==> d < 16 && d == digit_value(c),
{
    if '0' <= c && c <= '9' {
        Some((c as u32 - 48) as u8)
    } else if 'a' <= c && c <= 'f' {
        Some((c as u32 - 87) as u8)
    } else {
        None
    }
}

/// Writes a number with a number of digits behind what the text holds.
fn write_number(out: &mut String, n: u128, width: usize)
    ensures
        final(out)@ == old(out)@ + digits(n as nat, width as nat),
    decreases width,
{
    if width > 0 {
        write_number(out, n / 16, width - 1);
        out.push(digit_char((n % 16) as u8));
    }
    assert(out@ == old(out)@ + digits(n as nat, width as nat));
}

/// Reads the number that stands at a place of a text.
fn read_digits(chars: &Vec<char>, from: usize, width: usize) -> (res: Option<u128>)
    requires
        from <= chars@.len(),
        width <= 32,
    ensures
        res is Some <==> read_number(chars@.skip(from as int), width as nat) is Some,
        res matches Some(n) ==> from + width <= chars@.len() <= usize::MAX && read_number(
            chars@.skip(from as int),
            width as nat,
        ) == Some((n as int, chars@.skip(from + width))),
{
    let ghost rest = chars@.skip(from as int);
    if chars.len() - from < width {
        return None;
    }
    let mut n: u128 = 0;
    let mut i: usize = 0;
    assert(rest.take(0).len() == 0);
    while i < width
        invariant
            rest == chars@.skip(from as int),
            i <= width <= 32,
            from + width <= chars@.len() <= usize::MAX,
            all_digits(rest.take(i as int)),
            n == spelled(rest.take(i as int)),
        decreases width - i,
    {
        match char_digit(chars[from + i]) {
            Some(d) => {
                let ghost longer = rest.take(i + 1);
                proof {
                    assert(longer.drop_last() == rest.take(i as int));
                    assert forall|j: int| 0 <= j < longer.len() implies is_digit(
                        #[trigger] longer[j],
                    ) by {
                        if j < i {
                            assert(is_digit(rest.take(i as int)[j]));
                        }
                    }
                    lemma_spelled_bound(longer);
                    lemma_limit_grows((i + 1) as nat, 32);
                    lemma_limits();
                }
                n = n * 16 + d as u128;
            },
            None => {
                assert(!is_digit(rest.take(width as int)[i as int]));
                return None;
            },
        }
        i += 1;
    }
    assert(rest.skip(width as int) == chars@.skip(from + width));
    Some(n)
}

impl Stored for u64 {
    open spec fn written(value: u64) -> Seq<char> {
        digits(value as nat, 16)
    }

    open spec fn read(text: Seq<char>) -> Option<(u64, Seq<char>)> {
        match read_number(text, 16) {
            Some((n, rest)) => Some((n as u64, rest)),
            None => None,
        }
    }

    open spec fn fits(value: u64) -> bool {
        true
    }

    proof fn law_read_gives_back(value: u64, rest: Seq<char>) {
        lemma_limits();
        lemma_number_is_read(value as nat, 16, rest);
    }

    fn write_to(&self, out: &mut String) {
        write_number(out, *self as u128, 16);
    }

    fn read_from(chars: &Vec<char>, from: usize) -> (res: Option<(u64, usize)>) {
        match read_digits(chars, from, 16) {
            Some(n) => {
                proof {
                    lemma_spelled_bound(chars@.skip(from as int).take(16));
                    lemma_limits();
                }
                Some((n as u64, from + 16))
            },
            None => None,
        }
    }
}

impl Stored for i128 {
    open spec fn written(value: i128) -> Seq<char> {
        if value < 0 {
            seq!['-'] + digits((-(value as int)) as nat, 32)
        } else {
            seq!['+'] + digits(value as nat, 32)
        }
    }

    open spec fn read(text: Seq<char>) -> Option<(i128, Seq<char>)> {
        if text.len() == 0 || !(text[0] == '-' || text[0] == '+') {
            None
        } else {
            match read_number(text.skip(1), 32) {
                None => None,
                Some((n, rest)) => {
                    let value = if text[0] == '-' {
                        -n
                    } else {
                        n
                    };
                    if i128::MIN <= value <= i128::MAX {
                        Some((value as i128, rest))
                    } else {
                        None
                    }
                },
            }
        }
    }

    open spec fn fits(value: i128) -> bool {
        true
    }

    proof fn law_read_gives_back(value: i128, rest: Seq<char>) {
        lemma_limits();
        let size = (if value < 0 {
            -(value as int)
        } else {
            value as int
        }) as nat;
        lemma_number_is_read(size, 32, rest);
        let text = Self::written(value) + rest;
        assert(text.skip(1) == digits(size, 32) + rest);
    }

    fn write_to(&self, out: &mut String) {
        let value = *self;
        if value < 0 {
            out.push('-');
            write_number(out, (-(value + 1)) as u128 + 1, 32);
        } else {
            out.push('+');
            write_number(out, value as u128, 32);
        }
        assert(out@ == old(out)@ + Self::written(value));
    }

    fn read_from(chars: &Vec<char>, from: usize) -> (res: Option<(i128, usize)>) {
        let ghost rest = chars@.skip(from as int);
        if from == chars.len() {
            return None;
        }
        let sign = chars[from];
        assert(rest[0] == sign);
        if sign != '-' && sign != '+' {
            return None;
        }
        assert(rest.skip(1) == chars@.skip(from + 1));
        let n = match read_digits(chars, from + 1, 32) {
            Some(n) => n,
            None => {
                return None;
            },
        };
        if sign == '+' {
            if n > i128::MAX as u128 {
                return None;
            }
            Some((n as i128, from + 33))
        } else if n == 0 {
            Some((0, from + 33))
        } else {
            if n - 1 > i128::MAX as u128 {
                return None;
            }
            Some((-((n - 1) as i128) - 1, from + 33))
        }
    }
}

impl Stored for String {
    open spec fn written(value: Seq<char>) -> Seq<char> {
        digits(value.len(), 16) + value
    }

    open spec fn read(text: Seq<char>) -> Option<(Seq<char>, Seq<char>)> {
        match read_number(text, 16) {
            Some((n, rest)) => if n <= rest.len() {
                Some((rest.take(n), rest.skip(n)))
            } else {
                None
            },
            None => None,
        }
    }

    open spec fn fits(value: Seq<char>) -> bool {
        value.len() <= u64::MAX
    }

    proof fn law_read_gives_back(value: Seq<char>, rest: Seq<char>) {
        lemma_limits();
        lemma_number_is_read(value.len(), 16, value + rest);
        assert(Self::written(value) + rest == digits(value.len(), 16) + (value + rest));
        assert((value + rest).take(value.len() as int) == value);
        assert((value + rest).skip(value.len() as int) == rest);
    }

    fn write_to(&self, out: &mut String) {
        let length: usize = self.as_str().unicode_len();
        write_number(out, length as u128, 16);
        out.append(self.as_str());
        assert(out@ == old(out)@ + Self::written(self@));
    }

    fn read_from(chars: &Vec<char>, from: usize) -> (res: Option<(String, usize)>) {
        match read_digits(chars, from, 16) {
            Some(n) => {
                let start: usize = from + 16;
                let left: usize = chars.len() - start;
                if n > left as u128 {
                    return None;
                }
                let end: usize = start + n as usize;
                proof {
                    let rest = chars@.skip(start as int);
                    assert(rest.take(n as int) == chars@.subrange(start as int, end as int));
                    assert(rest.skip(n as int) == chars@.skip(end as int));
                }
                Some((text_of(chars, start, end), end))
            },
            None => None,
        }
    }
}

impl<T: Stored> Stored for Option<T> {
    open spec fn written(value: Option<T::V>) -> Seq<char> {
        match value {
            None => seq!['0'],
            Some(inner) => seq!['1'] + T::written(inner),
        }
    }

    open spec fn read(text: Seq<char>) -> Option<(Option<T::V>, Seq<char>)> {
        if text.len() == 0 {
            None
        } else if text[0] == '0' {
            Some((None, text.skip(1)))
        } else if text[0] == '1' {
            match T::read(text.skip(1)) {
                Some((inner, rest)) => Some((Some(inner), rest)),
                None => None,
            }
        } else {
            None
        }
    }

    open spec fn fits(value: Option<T::V>) -> bool {
        match value {
            Some(inner) => T::fits(inner),
            None => true,
        }
    }

    proof fn law_read_gives_back(value: Option<T::V>, rest: Seq<char>) {
        let text = Self::written(value) + rest;
        match value {
            None => {
                assert(text.skip(1) == rest);
            },
            Some(inner) => {
                T::law_read_gives_back(inner, rest);
                assert(text.skip(1) == T::written(inner) + rest);
            },
        }
    }

    fn write_to(&self, out: &mut String) {
        match self {
            None => {
                out.push('0');
            },
            Some(inner) => {
                out.push('1');
                inner.write_to(out);
            },
        }
        assert(out@ == old(out)@ + Self::written(self.deep_view()));
    }

    fn read_from(chars: &Vec<char>, from: usize) -> (res: Option<(Option<T>, usize)>) {
        let ghost rest = chars@.skip(from as int);
        if from == chars.len() {
            return None;
        }
        let mark = chars[from];
        assert(rest[0] == mark);
        assert(rest.skip(1) == chars@.skip(from + 1));
        if mark == '0' {
            Some((None, from + 1))
        } else if mark == '1' {
            match T::read_from(chars, from + 1) {
                Some((inner, to)) => Some((Some(inner), to)),
                None => None,
            }
        } else {
            None
        }
    }
}

/// Some values written one behind the other.
pub open spec fn written_items<T: Stored>(items: Seq<T::V>) -> Seq<char>
    decreases items.len(),
{
    if items.len() == 0 {
        seq![]
    } else {
        T::written(items[0]) + written_items::<T>(items.drop_first())
    }
}

/// So many values that stand one behind the other, and what follows them.
pub open spec fn read_items<T: Stored>(count: nat, text: Seq<char>) -> Option<
    (Seq<T::V>, Seq<char>),
>
    decreases count,
{
    if count == 0 {
        Some((seq![], text))
    } else {
        match T::read(text) {
            None => None,
            Some((item, rest)) => match read_items::<T>((count - 1) as nat, rest) {
                None => None,
                Some((items, end)) => Some((seq![item] + items, end)),
            },
        }
    }
}

/// Written values are read back.
proof fn lemma_items_are_read<T: Stored>(items: Seq<T::V>, rest: Seq<char>)
    requires
        forall|i: int| 0 <= i < items.len() ==> T::fits(#[trigger] items[i]),
    ensures
        read_items::<T>(items.len(), written_items::<T>(items) + rest) == Some((items, rest)),
    decreases items.len(),
{
    if items.len() == 0 {
        assert(written_items::<T>(items) + rest == rest);
        assert(items == Seq::<T::V>::empty());
    } else {
        let others = items.drop_first();
        lemma_items_are_read::<T>(others, rest);
        T::law_read_gives_back(items[0], written_items::<T>(others) + rest);
        assert(written_items::<T>(items) + rest == T::written(items[0]) + (written_items::<T>(
            others,
        ) + rest));
        assert(seq![items[0]] + others == items);
    }
}

/// One value more is written behind the others.
proof fn lemma_written_one_more<T: Stored>(items: Seq<T::V>, item: T::V)
    ensures
        written_items::<T>(items.push(item)) == written_items::<T>(items) + T::written(item),
    decreases items.len(),
{
    if items.len() == 0 {
        assert(items.push(item).drop_first() == Seq::<T::V>::empty());
        assert(written_items::<T>(Seq::<T::V>::empty()) == Seq::<char>::empty());
        assert(written_items::<T>(items.push(item)) == T::written(item));
        assert(written_items::<T>(items) + T::written(item) == T::written(item));
    } else {
        assert(items.push(item).drop_first() == items.drop_first().push(item));
        lemma_written_one_more::<T>(items.drop_first(), item);
        assert(items.push(item)[0] == items[0]);
    }
}

impl<T: Stored> Stored for Vec<T> {
    open spec fn written(value: Seq<T::V>) -> Seq<char> {
        digits(value.len(), 16) + written_items::<T>(value)
    }

    open spec fn read(text: Seq<char>) -> Option<(Seq<T::V>, Seq<char>)> {
        match read_number(text, 16) {
            Some((n, rest)) => read_items::<T>(n as nat, rest),
            None => None,
        }
    }

    open spec fn fits(value: Seq<T::V>) -> bool {
        value.len() <= u64::MAX && forall|i: int|
            0 <= i < value.len() ==> T::fits(#[trigger] value[i])
    }

    proof fn law_read_gives_back(value: Seq<T::V>, rest: Seq<char>) {
        lemma_limits();
        lemma_number_is_read(value.len(), 16, written_items::<T>(value) + rest);
        lemma_items_are_read::<T>(value, rest);
        assert(Self::written(value) + rest == digits(value.len(), 16) + (written_items::<T>(value)
            + rest));
    }

    fn write_to(&self, out: &mut String) {
        let ghost all = self.deep_view();
        let ghost start = out@;
        let length: usize = self.len();
        write_number(out, length as u128, 16);
        let ghost head = digits(all.len(), 16);
        let mut i: usize = 0;
        assert(out@ == start + head + written_items::<T>(all.take(0)));
        while i < self.len()
            invariant
                i <= self@.len(),
                all == self.deep_view(),
                out@ == start + head + written_items::<T>(all.take(i as int)),
                forall|j: int| 0 <= j < i ==> T::fits(#[trigger] all[j]),
            decreases self@.len() - i,
        {
            let ghost before = out@;
            self[i].write_to(out);
            proof {
                assert(all[i as int] == self@[i as int].deep_view());
                assert(all.take(i + 1) == all.take(i as int).push(all[i as int]));
                lemma_written_one_more::<T>(all.take(i as int), all[i as int]);
                assert(out@ == start + head + written_items::<T>(all.take(i + 1)));
            }
            i += 1;
        }
        assert(all.take(i as int) == all);
        assert(out@ == start + Self::written(all));
    }

    fn read_from(chars: &Vec<char>, from: usize) -> (res: Option<(Vec<T>, usize)>) {
        let count = match read_digits(chars, from, 16) {
            Some(n) => n,
            None => {
                return None;
            },
        };
        let mut items: Vec<T> = Vec::new();
        let mut at: usize = from + 16;
        let mut left: u128 = count;
        let ghost start = chars@.skip(at as int);
        assert(items.deep_view() == Seq::<T::V>::empty());
        while left > 0
            invariant
                at <= chars@.len(),
                read_items::<T>(count as nat, start) == match read_items::<T>(
                    left as nat,
                    chars@.skip(at as int),
                ) {
                    Some((others, end)) => Some((items.deep_view() + others, end)),
                    None => None,
                },
                Self::read(chars@.skip(from as int)) == read_items::<T>(count as nat, start),
            decreases left,
        {
            let ghost before = items.deep_view();
            let ghost here = chars@.skip(at as int);
            match T::read_from(chars, at) {
                None => {
                    return None;
                },
                Some((item, to)) => {
                    let ghost view = item.deep_view();
                    items.push(item);
                    at = to;
                    left = left - 1;
                    proof {
                        assert(items.deep_view() == before.push(view));
                        if let Some((others, end)) = read_items::<T>(
                            left as nat,
                            chars@.skip(at as int),
                        ) {
                            assert(before + (seq![view] + others) == items.deep_view() + others);
                        }
                    }
                },
            }
        }
        assert(items.deep_view() + Seq::<T::V>::empty() == items.deep_view());
        Some((items, at))
    }
}

} // verus!
