//! Decimal text: numbers and prices as ASCII bytes, written and read.
//!
//! A price is written as its whole units, then, unless the fraction is
//! zero, a point and the fraction in up to four digits without trailing
//! zeros: 3500 ticks read `0.35`, 10000 ticks read `1`.

use crate::base::PRICE_SCALE;
use vstd::prelude::*;
use vstd::string::*;

verus! {

/// The decimal digits of `n`, most significant first, without leading
/// zeros; `0` for zero.
pub open spec fn digits(n: nat) -> Seq<u8>
    decreases n,
{
    if n < 10 {
        seq![(48 + n) as u8]
    } else {
        digits(n / 10).push((48 + n % 10) as u8)
    }
}

/// Whether `b` is an ASCII digit.
pub open spec fn is_digit(b: u8) -> bool {
    48 <= b <= 57
}

/// Whether `s` consists of ASCII digits only.
pub open spec fn all_digits(s: Seq<u8>) -> bool {
    forall|i: int| 0 <= i < s.len() ==> is_digit(#[trigger] s[i])
}

/// The number that the digits `s` write.
pub open spec fn value(s: Seq<u8>) -> nat
    decreases s.len(),
{
    if s.len() == 0 {
        0
    } else {
        value(s.drop_last()) * 10 + (s.last() - 48) as nat
    }
}

/// The number that `s` writes, if `s` is a number: one digit or more.
pub open spec fn number(s: Seq<u8>) -> Option<nat> {
    if s.len() > 0 && all_digits(s) {
        Some(value(s))
    } else {
        None
    }
}

/// `s` without a leading `+`.
pub open spec fn unsigned_part(s: Seq<u8>) -> Seq<u8> {
    if s.len() > 0 && s[0] == 43 {
        s.skip(1)
    } else {
        s
    }
}

/// The unsigned number that `s` writes, if it writes one that fits: digits,
/// after an optional `+`.
pub open spec fn u64_of(s: Seq<u8>) -> Option<u64> {
    match number(unsigned_part(s)) {
        Some(v) => if v <= u64::MAX {
            Some(v as u64)
        } else {
            None
        },
        None => None,
    }
}

/// The signed number that `s` writes, if it writes one that fits: digits,
/// after an optional `+` or `-`.
pub open spec fn i64_of(s: Seq<u8>) -> Option<i64> {
    if s.len() > 0 && s[0] == 45 {
        match number(s.skip(1)) {
            Some(v) => if v <= 0x8000_0000_0000_0000 {
                Some((-(v as int)) as i64)
            } else {
                None
            },
            None => None,
        }
    } else {
        match number(unsigned_part(s)) {
            Some(v) => if v <= i64::MAX {
                Some(v as i64)
            } else {
                None
            },
            None => None,
        }
    }
}

/// The text of the signed number `n`.
pub open spec fn i64_text(n: i64) -> Seq<u8> {
    if n < 0 {
        seq![45u8] + digits((-(n as int)) as nat)
    } else {
        digits(n as nat)
    }
}

/// The fraction `f`, in ticks below one unit, as text: empty for zero, else
/// a point and up to four digits without trailing zeros.
pub open spec fn fraction_text(f: nat) -> Seq<u8> {
    let d1 = (48 + f / 1000 % 10) as u8;
    let d2 = (48 + f / 100 % 10) as u8;
    let d3 = (48 + f / 10 % 10) as u8;
    let d4 = (48 + f % 10) as u8;
    if f == 0 {
        Seq::empty()
    } else if f % 10 != 0 {
        seq![46u8, d1, d2, d3, d4]
    } else if f / 10 % 10 != 0 {
        seq![46u8, d1, d2, d3]
    } else if f / 100 % 10 != 0 {
        seq![46u8, d1, d2]
    } else {
        seq![46u8, d1]
    }
}

/// The text of a price of `ticks`.
pub open spec fn price_text(ticks: u64) -> Seq<u8> {
    digits((ticks / PRICE_SCALE) as nat) + fraction_text((ticks % PRICE_SCALE) as nat)
}

/// The place of the first `b` in `s`, or the length of `s` if there is
/// none.
pub open spec fn first_at(s: Seq<u8>, b: u8) -> int
    decreases s.len(),
{
    if s.len() == 0 {
        0
    } else if first_at(s.drop_last(), b) < s.len() - 1 {
        first_at(s.drop_last(), b)
    } else if s.last() == b {
        s.len() - 1
    } else {
        s.len() as int
    }
}

/// The place of the point in `s`, or the length of `s` if there is none.
pub open spec fn point_at(s: Seq<u8>) -> int {
    first_at(s, 46)
}

/// The ticks that the fraction digits `s` write: one to four digits, read
/// as ten-thousandths after padding with zeros.
pub open spec fn fraction_of(s: Seq<u8>) -> Option<nat> {
    if 1 <= s.len() <= 4 && all_digits(s) {
        Some(
            if s.len() == 1 {
                value(s) * 1000
            } else if s.len() == 2 {
                value(s) * 100
            } else if s.len() == 3 {
                value(s) * 10
            } else {
                value(s)
            },
        )
    } else {
        None
    }
}

/// The price, in ticks, that `s` writes, if it writes one that fits: whole
/// units in digits, then optionally a point and one to four digits.
pub open spec fn price_of(s: Seq<u8>) -> Option<u64> {
    let p = point_at(s);
    match number(s.take(p)) {
        Some(units) => {
            let fraction = if p < s.len() {
                fraction_of(s.skip(p + 1))
            } else {
                Some(0nat)
            };
            match fraction {
                Some(f) => if units * PRICE_SCALE + f <= u64::MAX {
                    Some((units * PRICE_SCALE + f) as u64)
                } else {
                    None
                },
                None => None,
            }
        },
        None => None,
    }
}

/// The digits of a number are digits, at least one, and write that number.
pub proof fn lemma_digits(n: nat)
    ensures
        digits(n).len() >= 1,
        all_digits(digits(n)),
        value(digits(n)) == n,
        number(digits(n)) == Some(n),
        n < 10 ==> digits(n).len() == 1,
    decreases n,
{
    if n < 10 {
        assert(digits(n).drop_last() =~= Seq::<u8>::empty());
        assert(value(digits(n).drop_last()) == 0);
    } else {
        lemma_digits(n / 10);
        assert(digits(n).drop_last() =~= digits(n / 10));
    }
}

/// `first_at` finds the first `b`.
pub proof fn lemma_first_at(s: Seq<u8>, b: u8)
    ensures
        0 <= first_at(s, b) <= s.len(),
        first_at(s, b) < s.len() ==> s[first_at(s, b)] == b,
        forall|k: int| 0 <= k < first_at(s, b) ==> #[trigger] s[k] != b,
    decreases s.len(),
{
    if s.len() > 0 {
        lemma_first_at(s.drop_last(), b);
        assert forall|k: int| 0 <= k < first_at(s, b) implies #[trigger] s[k] != b by {
            if k < s.len() - 1 {
                assert(s.drop_last()[k] == s[k]);
            }
        }
    }
}

/// The first `b` of `s` is at `p`, given that there is none before `p` and
/// either `p` is the end or there is one at `p`.
pub proof fn lemma_first_at_is(s: Seq<u8>, b: u8, p: int)
    requires
        0 <= p <= s.len(),
        forall|k: int| 0 <= k < p ==> #[trigger] s[k] != b,
        p < s.len() ==> s[p] == b,
    ensures
        first_at(s, b) == p,
{
    lemma_first_at(s, b);
}

/// The text before the first comma of `s`, and the text behind that comma;
/// nothing if `s` holds no comma.
pub open spec fn take_column(s: Seq<u8>) -> Option<(Seq<u8>, Seq<u8>)> {
    let k = first_at(s, 44);
    if k < s.len() {
        Some((s.take(k), s.skip(k + 1)))
    } else {
        None
    }
}

/// The first `n` columns of `s`, each closed by a comma, and the text
/// behind them; nothing if `s` holds fewer commas.
pub open spec fn split_columns(s: Seq<u8>, n: nat) -> Option<(Seq<Seq<u8>>, Seq<u8>)>
    decreases n,
{
    if n == 0 {
        Some((Seq::empty(), s))
    } else {
        match split_columns(s, (n - 1) as nat) {
            Some((columns, tail)) => match take_column(tail) {
                Some((column, rest)) => Some((columns.push(column), rest)),
                None => None,
            },
            None => None,
        }
    }
}

/// Where `s` holds fewer than `n` columns it holds fewer than any larger
/// number.
pub proof fn lemma_split_columns_none(s: Seq<u8>, n: nat, more: nat)
    requires
        split_columns(s, n).is_none(),
        n <= more,
    ensures
        split_columns(s, more).is_none(),
    decreases more,
{
    if n < more {
        lemma_split_columns_none(s, n, (more - 1) as nat);
    }
}

/// Reads `n` columns of `input` from `pos` on; returns the end of each, and
/// the position behind the last.  Fails if there are fewer.
pub fn read_columns(input: &[u8], pos: usize, n: usize) -> (r: Result<(Vec<usize>, usize), ()>)
    requires
        pos <= input@.len(),
    ensures
        match r {
            Ok((ends, next)) => {
                &&& ends@.len() == n
                &&& pos <= next <= input@.len()
                &&& split_columns(input@.skip(pos as int), n as nat) == Some(
                    (
                        Seq::new(
                            n as nat,
                            |i: int| input@.subrange(column_start(ends@, pos, i), ends@[i] as int),
                        ),
                        input@.skip(next as int),
                    ),
                )
                &&& forall|i: int|
                    0 <= i < n ==> column_start(ends@, pos, i) <= #[trigger] ends@[i]
                        < input@.len()
                &&& n > 0 ==> next == ends@[n - 1] + 1
                &&& n == 0 ==> next == pos
            },
            Err(_) => split_columns(input@.skip(pos as int), n as nat).is_none(),
        },
{
    let ghost s = input@.skip(pos as int);
    let mut ends: Vec<usize> = Vec::new();
    let mut at: usize = pos;
    let mut k: usize = 0;
    let len = input.len();
    proof {
        assert(Seq::new(0nat, |i: int| input@.subrange(column_start(ends@, pos, i), ends@[i] as int))
            =~= Seq::<Seq<u8>>::empty());
    }
    while k < n
        invariant
            k <= n,
            len == input@.len(),
            pos <= at <= input@.len(),
            s == input@.skip(pos as int),
            ends@.len() == k,
            split_columns(s, k as nat) == Some(
                (
                    Seq::new(
                        k as nat,
                        |i: int| input@.subrange(column_start(ends@, pos, i), ends@[i] as int),
                    ),
                    input@.skip(at as int),
                ),
            ),
            forall|i: int|
                0 <= i < k ==> column_start(ends@, pos, i) <= #[trigger] ends@[i] < input@.len(),
            k > 0 ==> at == ends@[k - 1] + 1,
            k == 0 ==> at == pos,
        decreases n - k,
    {
        let ghost had = ends@;
        let ghost columns = Seq::new(
            k as nat,
            |i: int| input@.subrange(column_start(had, pos, i), had[i] as int),
        );
        match read_column_str(input, at) {
            Ok(end) => {
                ends.push(end);
                proof {
                    assert(column_start(ends@, pos, k as int) == at);
                    assert forall|i: int| 0 <= i < k implies column_start(ends@, pos, i)
                        == column_start(had, pos, i) by {
                        if i > 0 {
                            assert(ends@[i - 1] == had[i - 1]);
                        }
                    }
                    assert(Seq::new(
                        (k + 1) as nat,
                        |i: int| input@.subrange(column_start(ends@, pos, i), ends@[i] as int),
                    ) =~= columns.push(input@.subrange(at as int, end as int)));
                }
                at = end + 1;
            },
            Err(_) => {
                proof {
                    assert(split_columns(s, (k + 1) as nat).is_none());
                    lemma_split_columns_none(s, (k + 1) as nat, n as nat);
                }
                return Err(());
            },
        }
        k = k + 1;
    }
    Ok((ends, at))
}

/// Where column `i` starts, given where the columns before it end: at
/// `pos` for the first, behind the comma of the one before otherwise.
pub open spec fn column_start(ends: Seq<usize>, pos: usize, i: int) -> int {
    if i <= 0 {
        pos as int
    } else {
        ends[i - 1] + 1
    }
}

/// The text of the columns `columns`, each closed by a comma.
pub open spec fn join_columns(columns: Seq<Seq<u8>>) -> Seq<u8>
    decreases columns.len(),
{
    if columns.len() == 0 {
        Seq::empty()
    } else {
        join_columns(columns.drop_last()) + columns.last() + seq![44u8]
    }
}

/// Comma-free columns, joined, split into the same columns again.
pub proof fn lemma_split_joined(columns: Seq<Seq<u8>>, tail: Seq<u8>)
    requires
        forall|i: int| 0 <= i < columns.len() ==> comma_free(#[trigger] columns[i]),
    ensures
        split_columns(join_columns(columns) + tail, columns.len()) == Some((columns, tail)),
    decreases columns.len(),
{
    if columns.len() > 0 {
        let front = columns.drop_last();
        let last = columns.last();
        assert forall|i: int| 0 <= i < front.len() implies comma_free(#[trigger] front[i]) by {
            assert(front[i] == columns[i]);
        }
        let rest = last + seq![44u8] + tail;
        lemma_split_joined(front, rest);
        assert(join_columns(columns) + tail =~= join_columns(front) + rest);
        assert(comma_free(columns[columns.len() - 1]));
        lemma_take_column(last, tail);
        assert(front.push(last) =~= columns);
    } else {
        assert(join_columns(columns) + tail =~= tail);
        assert(columns =~= Seq::<Seq<u8>>::empty());
    }
}

/// The bytes of the ASCII text `chars`.
pub open spec fn ascii(chars: Seq<char>) -> Seq<u8> {
    Seq::new(chars.len(), |i: int| chars[i] as u8)
}

/// Whether `s` holds no comma.
pub open spec fn comma_free(s: Seq<u8>) -> bool {
    forall|i: int| 0 <= i < s.len() ==> #[trigger] s[i] != 44
}

/// A comma-free column, closed by a comma, is taken off whole.
pub proof fn lemma_take_column(column: Seq<u8>, rest: Seq<u8>)
    requires
        comma_free(column),
    ensures
        take_column(column + seq![44u8] + rest) == Some((column, rest)),
{
    let s = column + seq![44u8] + rest;
    assert forall|k: int| 0 <= k < column.len() implies #[trigger] s[k] != 44 by {
        assert(s[k] == column[k]);
    }
    assert(s[column.len() as int] == 44);
    lemma_first_at_is(s, 44, column.len() as int);
    assert(s.take(column.len() as int) =~= column);
    assert(s.skip(column.len() as int + 1) =~= rest);
}

/// The texts of numbers and prices hold no comma.
pub proof fn lemma_comma_free(n: nat, i: i64, ticks: u64)
    ensures
        comma_free(digits(n)),
        comma_free(i64_text(i)),
        comma_free(price_text(ticks)),
{
    lemma_digits(n);
    lemma_digits((-(i as int)) as nat);
    lemma_digits(i as nat);
    lemma_digits((ticks / PRICE_SCALE) as nat);
    assert forall|k: int| 0 <= k < digits(n).len() implies #[trigger] digits(n)[k] != 44 by {
        assert(is_digit(digits(n)[k]));
    }
    if i < 0 {
        let d = digits((-(i as int)) as nat);
        assert forall|k: int| 0 <= k < i64_text(i).len() implies #[trigger] i64_text(i)[k]
            != 44 by {
            if k > 0 {
                assert(is_digit(d[k - 1]));
            }
        }
    } else {
        let d = digits(i as nat);
        assert forall|k: int| 0 <= k < i64_text(i).len() implies #[trigger] i64_text(i)[k]
            != 44 by {
            assert(is_digit(d[k]));
        }
    }
    let u = digits((ticks / PRICE_SCALE) as nat);
    let f = fraction_text((ticks % PRICE_SCALE) as nat);
    assert forall|k: int| 0 <= k < price_text(ticks).len() implies #[trigger] price_text(ticks)[k]
        != 44 by {
        if k < u.len() {
            assert(is_digit(u[k]));
        } else {
            assert(price_text(ticks)[k] == f[k - u.len()]);
        }
    }
}

/// Reading back the text of an unsigned number gives the number.
pub proof fn lemma_u64_round_trip(n: u64)
    ensures
        u64_of(digits(n as nat)) == Some(n),
{
    lemma_digits(n as nat);
    assert(is_digit(digits(n as nat)[0]));
}

/// Reading back the text of a signed number gives the number.
pub proof fn lemma_i64_round_trip(n: i64)
    ensures
        i64_of(i64_text(n)) == Some(n),
{
    if n < 0 {
        let m = (-(n as int)) as nat;
        lemma_digits(m);
        assert(i64_text(n).skip(1) =~= digits(m));
    } else {
        lemma_digits(n as nat);
        assert(is_digit(digits(n as nat)[0]));
    }
}

/// Reading back the text of a price gives the price.
pub proof fn lemma_price_round_trip(ticks: u64)
    ensures
        price_of(price_text(ticks)) == Some(ticks),
{
    let units = (ticks / PRICE_SCALE) as nat;
    let f = (ticks % PRICE_SCALE) as nat;
    let u = digits(units);
    let ft = fraction_text(f);
    let s = price_text(ticks);
    lemma_digits(units);
    assert forall|k: int| 0 <= k < u.len() implies #[trigger] s[k] != 46 by {
        assert(is_digit(u[k]));
        assert(s[k] == u[k]);
    }
    if f != 0 {
        assert(s[u.len() as int] == ft[0]);
    }
    lemma_first_at_is(s, 46, u.len() as int);
    assert(s.take(u.len() as int) =~= u);
    if f != 0 {
        let fd = s.skip(u.len() as int + 1);
        assert(fd =~= ft.skip(1));
        let d1 = (48 + f / 1000 % 10) as u8;
        let d2 = (48 + f / 100 % 10) as u8;
        let d3 = (48 + f / 10 % 10) as u8;
        let d4 = (48 + f % 10) as u8;
        assert(value(Seq::<u8>::empty()) == 0);
        let one = seq![d1];
        let two = seq![d1, d2];
        let three = seq![d1, d2, d3];
        let four = seq![d1, d2, d3, d4];
        assert(one.drop_last() =~= Seq::<u8>::empty());
        assert(two.drop_last() =~= one);
        assert(three.drop_last() =~= two);
        assert(four.drop_last() =~= three);
        assert(value(one) == f / 1000 % 10);
        assert(value(two) == value(one) * 10 + f / 100 % 10);
        assert(value(three) == value(two) * 10 + f / 10 % 10);
        assert(value(four) == value(three) * 10 + f % 10);
        if f % 10 != 0 {
            assert(fd =~= four);
        } else if f / 10 % 10 != 0 {
            assert(fd =~= three);
        } else if f / 100 % 10 != 0 {
            assert(fd =~= two);
        } else {
            assert(fd =~= one);
        }
        assert(all_digits(fd));
        assert(fraction_of(fd) == Some(f));
    }
}

/// Appends the digits of `n` to `buf`.
pub fn push_u64(buf: &mut Vec<u8>, n: u64)
    ensures
        final(buf)@ == old(buf)@ + digits(n as nat),
{
    let ghost start = buf@;
    let mut reversed: Vec<u8> = Vec::new();
    reversed.push(48u8 + (n % 10) as u8);
    let mut m: u64 = n / 10;
    proof {
        let d = (48 + n % 10) as u8;
        assert(reversed@.reverse() =~= seq![d]);
        if n >= 10 {
            assert(digits(n as nat) =~= digits(m as nat) + seq![d]);
        }
    }
    while m > 0
        invariant
            reversed@.len() > 0,
            digits(n as nat) == (if m == 0 {
                Seq::<u8>::empty()
            } else {
                digits(m as nat)
            }) + reversed@.reverse(),
        decreases m,
    {
        let ghost before = reversed@;
        let ghost was = m;
        reversed.push(48u8 + (m % 10) as u8);
        m = m / 10;
        proof {
            let d = (48 + was % 10) as u8;
            assert(reversed@.reverse() =~= seq![d] + before.reverse());
            if was < 10 {
                assert(digits(was as nat) =~= seq![d]);
            } else {
                assert(digits(was as nat) =~= digits(m as nat) + seq![d]);
            }
            assert(digits(n as nat) =~= (if m == 0 {
                Seq::<u8>::empty()
            } else {
                digits(m as nat)
            }) + reversed@.reverse());
        }
    }
    assert(digits(n as nat) =~= reversed@.reverse());
    let mut i: usize = reversed.len();
    assert(reversed@.reverse().take(0) =~= Seq::<u8>::empty());
    while i > 0
        invariant
            i <= reversed@.len(),
            buf@ == start + reversed@.reverse().take(reversed@.len() - i),
        decreases i,
    {
        i = i - 1;
        buf.push(reversed[i]);
        assert(buf@ =~= start + reversed@.reverse().take(reversed@.len() - i));
    }
    assert(reversed@.reverse().take(reversed@.len() as int) =~= reversed@.reverse());
}

/// Appends the text of the signed number `n` to `buf`.
pub fn push_i64(buf: &mut Vec<u8>, n: i64)
    ensures
        final(buf)@ == old(buf)@ + i64_text(n),
{
    let ghost start = buf@;
    if n < 0 {
        buf.push(45u8);
        let magnitude: u64 = if n == i64::MIN {
            0x8000_0000_0000_0000u64
        } else {
            (-n) as u64
        };
        push_u64(buf, magnitude);
        assert(buf@ =~= start + i64_text(n));
    } else {
        push_u64(buf, n as u64);
    }
}

/// Appends the text of a price of `ticks` to `buf`.
pub fn push_price(buf: &mut Vec<u8>, ticks: u64)
    ensures
        final(buf)@ == old(buf)@ + price_text(ticks),
{
    let ghost start = buf@;
    push_u64(buf, ticks / PRICE_SCALE);
    let f: u64 = ticks % PRICE_SCALE;
    if f != 0 {
        buf.push(46u8);
        buf.push(48u8 + (f / 1000 % 10) as u8);
        if f % 1000 != 0 {
            buf.push(48u8 + (f / 100 % 10) as u8);
            if f % 100 != 0 {
                buf.push(48u8 + (f / 10 % 10) as u8);
                if f % 10 != 0 {
                    buf.push(48u8 + (f % 10) as u8);
                }
            }
        }
    }
    assert(buf@ =~= start + price_text(ticks));
}

/// Reads the digits `input[from..to]` as a number.
pub fn parse_digits(input: &[u8], from: usize, to: usize) -> (r: Option<u64>)
    requires
        from <= to <= input@.len(),
    ensures
        r == match number(input@.subrange(from as int, to as int)) {
            Some(v) => if v <= u64::MAX {
                Some(v as u64)
            } else {
                None
            },
            None => None,
        },
{
    let ghost s = input@.subrange(from as int, to as int);
    if from == to {
        return None;
    }
    let mut acc: u64 = 0;
    let mut i: usize = from;
    proof {
        assert(s.take(0) =~= Seq::<u8>::empty());
    }
    while i < to
        invariant
            from <= i <= to <= input@.len(),
            s == input@.subrange(from as int, to as int),
            all_digits(s.take(i - from)),
            acc == value(s.take(i - from)),
        decreases to - i,
    {
        let b = input[i];
        proof {
            assert(s[i - from] == b);
            assert(s.take(i - from + 1).drop_last() =~= s.take(i - from));
            assert(s.take(i - from + 1).last() == b);
        }
        if b < 48 || b > 57 {
            return None;
        }
        let d = (b - 48) as u64;
        if acc > (u64::MAX - d) / 10 {
            proof {
                lemma_value_grows(s, i - from + 1);
            }
            return None;
        }
        acc = acc * 10 + d;
        i = i + 1;
        proof {
            assert forall|k: int| 0 <= k < s.take(i - from).len() implies is_digit(
                #[trigger] s.take(i - from)[k],
            ) by {
                if k < i - from - 1 {
                    assert(s.take(i - from - 1)[k] == s[k]);
                }
            }
        }
    }
    proof {
        assert(s.take(to - from) =~= s);
    }
    Some(acc)
}

/// The number that digits write is at least the number that any prefix of
/// them writes.
pub proof fn lemma_value_grows(s: Seq<u8>, j: int)
    requires
        0 <= j <= s.len(),
    ensures
        value(s.take(j)) <= value(s) || !all_digits(s),
    decreases s.len() - j,
{
    if j < s.len() {
        if all_digits(s) {
            lemma_value_grows(s, j + 1);
            assert(s.take(j + 1).drop_last() =~= s.take(j));
            assert(is_digit(s[j]));
            assert(s.take(j + 1).last() == s[j]);
        }
    } else {
        assert(s.take(j) =~= s);
    }
}

/// Reads `input[from..to]` as an unsigned number.
pub fn parse_u64(input: &[u8], from: usize, to: usize) -> (r: Option<u64>)
    requires
        from <= to <= input@.len(),
    ensures
        r == u64_of(input@.subrange(from as int, to as int)),
{
    let ghost s = input@.subrange(from as int, to as int);
    if from < to && input[from] == 43u8 {
        assert(s.skip(1) =~= input@.subrange(from + 1, to as int));
        parse_digits(input, from + 1, to)
    } else {
        parse_digits(input, from, to)
    }
}

/// Reads `input[from..to]` as a signed number.
pub fn parse_i64(input: &[u8], from: usize, to: usize) -> (r: Option<i64>)
    requires
        from <= to <= input@.len(),
    ensures
        r == i64_of(input@.subrange(from as int, to as int)),
{
    let ghost s = input@.subrange(from as int, to as int);
    if from < to && input[from] == 45u8 {
        assert(s.skip(1) =~= input@.subrange(from + 1, to as int));
        match parse_digits(input, from + 1, to) {
            Some(v) => {
                if v > 0x8000_0000_0000_0000u64 {
                    None
                } else if v == 0x8000_0000_0000_0000u64 {
                    Some(i64::MIN)
                } else {
                    Some(-(v as i64))
                }
            },
            None => {
                proof {
                    lemma_value_grows(s.skip(1), 0);
                }
                None
            },
        }
    } else {
        match parse_u64(input, from, to) {
            Some(v) => {
                if v > i64::MAX as u64 {
                    None
                } else {
                    Some(v as i64)
                }
            },
            None => None,
        }
    }
}

/// Reads `input[from..to]` as a price, in ticks.
pub fn parse_price(input: &[u8], from: usize, to: usize) -> (r: Option<u64>)
    requires
        from <= to <= input@.len(),
    ensures
        r == price_of(input@.subrange(from as int, to as int)),
{
    let ghost s = input@.subrange(from as int, to as int);
    let mut p: usize = from;
    while p < to && input[p] != 46u8
        invariant
            from <= p <= to <= input@.len(),
            s == input@.subrange(from as int, to as int),
            forall|k: int| 0 <= k < p - from ==> #[trigger] s[k] != 46,
        decreases to - p,
    {
        p = p + 1;
    }
    proof {
        lemma_first_at_is(s, 46, p - from);
        assert(s.take(p - from) =~= input@.subrange(from as int, p as int));
        if p < to {
            assert(s.skip(p - from + 1) =~= input@.subrange(p + 1, to as int));
        }
    }
    let units = match parse_digits(input, from, p) {
        Some(units) => units,
        None => {
            return None;
        },
    };
    let fraction: u64 = if p < to {
        let n = to - (p + 1);
        if n < 1 || n > 4 {
            return None;
        }
        let ghost fs = input@.subrange(p + 1, to as int);
        match parse_digits(input, p + 1, to) {
            Some(v) => {
                proof {
                    lemma_value_bound(fs);
                }
                if n == 1 {
                    v * 1000
                } else if n == 2 {
                    v * 100
                } else if n == 3 {
                    v * 10
                } else {
                    v
                }
            },
            None => {
                proof {
                    lemma_value_bound(fs);
                }
                return None;
            },
        }
    } else {
        0
    };
    if units > (u64::MAX - fraction) / PRICE_SCALE {
        return None;
    }
    Some(units * PRICE_SCALE + fraction)
}

/// Up to four digits write a number below ten thousand.
pub proof fn lemma_value_bound(s: Seq<u8>)
    requires
        s.len() <= 4,
    ensures
        all_digits(s) ==> value(s) < 10000,
        all_digits(s) && s.len() <= 3 ==> value(s) < 1000,
        all_digits(s) && s.len() <= 2 ==> value(s) < 100,
        all_digits(s) && s.len() <= 1 ==> value(s) < 10,
    decreases s.len(),
{
    if s.len() > 0 && all_digits(s) {
        assert forall|k: int| 0 <= k < s.drop_last().len() implies is_digit(
            #[trigger] s.drop_last()[k],
        ) by {
            assert(s.drop_last()[k] == s[k]);
        }
        lemma_value_bound(s.drop_last());
        assert(is_digit(s[s.len() - 1]));
    }
}

/// Appends the bytes of the text `s` to `buf`.
pub fn push_str(buf: &mut Vec<u8>, s: &str)
    ensures
        final(buf)@ == old(buf)@ + s.spec_bytes(),
        s.is_ascii() ==> final(buf)@ == old(buf)@ + ascii(s@),
{
    broadcast use vstd::string::is_ascii_spec_bytes;

    let ghost start = buf@;
    let bytes = s.as_bytes();
    let mut i: usize = 0;
    assert(bytes@.take(0) =~= Seq::<u8>::empty());
    while i < bytes.len()
        invariant
            i <= bytes@.len(),
            buf@ == start + bytes@.take(i as int),
        decreases bytes.len() - i,
    {
        buf.push(bytes[i]);
        i = i + 1;
        assert(buf@ =~= start + bytes@.take(i as int));
    }
    assert(bytes@.take(bytes@.len() as int) =~= bytes@);
    assert(s.is_ascii() ==> bytes@ =~= ascii(s@));
}

/// Whether `input[from..to]` is the text `s`.
pub fn is_text(input: &[u8], from: usize, to: usize, s: &str) -> (r: bool)
    requires
        from <= to <= input@.len(),
    ensures
        r == (input@.subrange(from as int, to as int) == s.spec_bytes()),
        s.is_ascii() ==> r == (input@.subrange(from as int, to as int) == ascii(s@)),
{
    broadcast use vstd::string::is_ascii_spec_bytes;

    let bytes = s.as_bytes();
    assert(s.is_ascii() ==> bytes@ =~= ascii(s@));
    let ghost part = input@.subrange(from as int, to as int);
    if to - from != bytes.len() {
        return false;
    }
    let mut i: usize = 0;
    while i < bytes.len()
        invariant
            i <= bytes@.len(),
            from <= to <= input@.len(),
            to - from == bytes@.len(),
            bytes@ == s.spec_bytes(),
            part == input@.subrange(from as int, to as int),
            forall|k: int| 0 <= k < i ==> part[k] == bytes@[k],
        decreases bytes.len() - i,
    {
        if input[from + i] != bytes[i] {
            assert(part[i as int] != bytes@[i as int]);
            return false;
        }
        i = i + 1;
    }
    assert(part =~= bytes@);
    true
}

/// Finds the end of the column that starts at `pos`: the place of the next
/// comma.  Fails if there is none.
pub fn read_column_str(input: &[u8], pos: usize) -> (r: Result<usize, ()>)
    requires
        pos <= input@.len(),
    ensures
        match r {
            Ok(end) => pos <= end < input@.len() && take_column(input@.skip(pos as int)) == Some(
                (input@.subrange(pos as int, end as int), input@.skip(end + 1)),
            ),
            Err(_) => take_column(input@.skip(pos as int)).is_none(),
        },
{
    let ghost s = input@.skip(pos as int);
    let mut end: usize = pos;
    while end < input.len() && input[end] != 44u8
        invariant
            pos <= end <= input@.len(),
            s == input@.skip(pos as int),
            forall|k: int| 0 <= k < end - pos ==> #[trigger] s[k] != 44,
        decreases input.len() - end,
    {
        end = end + 1;
    }
    proof {
        lemma_first_at_is(s, 44, end - pos);
    }
    if end < input.len() {
        proof {
            assert(s.take(end - pos) =~= input@.subrange(pos as int, end as int));
            assert(s.skip(end - pos + 1) =~= input@.skip(end + 1));
        }
        Ok(end)
    } else {
        Err(())
    }
}

/// Appends a column to `writer`: the bytes of `val`, if there are any, and
/// a comma.
pub fn write_column(writer: &mut Vec<u8>, val: Option<&[u8]>)
    ensures
        final(writer)@ == old(writer)@ + (match val {
            Some(v) => v@,
            None => Seq::<u8>::empty(),
        }) + seq![44u8],
{
    let ghost start = writer@;
    match val {
        Some(v) => {
            let mut i: usize = 0;
            assert(v@.take(0) =~= Seq::<u8>::empty());
            while i < v.len()
                invariant
                    i <= v@.len(),
                    writer@ == start + v@.take(i as int),
                decreases v.len() - i,
            {
                writer.push(v[i]);
                i = i + 1;
                assert(writer@ =~= start + v@.take(i as int));
            }
            assert(v@.take(v@.len() as int) =~= v@);
        },
        None => {},
    }
    writer.push(44u8);
    assert(writer@ =~= start + (match val {
        Some(v) => v@,
        None => Seq::<u8>::empty(),
    }) + seq![44u8]);
}

} // verus!
