use vstd::prelude::*;

verus! {

// ---------------------------------------------------------------------------
// Byte-sequence helpers shared by the codec and the ignore-rule parser.
// ---------------------------------------------------------------------------

/// The views of a sequence of byte vectors.
pub open spec fn views_of(s: Seq<Vec<u8>>) -> Seq<Seq<u8>> {
    Seq::new(s.len(), |i: int| s[i]@)
}

/// Index of the first occurrence of `b` in `s`, or `s.len()` if absent.
pub open spec fn first_byte(s: Seq<u8>, b: u8) -> int
    decreases s.len(),
{
    if s.len() == 0 {
        0
    } else if s[0] == b {
        0
    } else {
        1 + first_byte(s.skip(1), b)
    }
}

pub proof fn lemma_first_byte_bounds(s: Seq<u8>, b: u8)
    ensures
        0 <= first_byte(s, b) <= s.len(),
        first_byte(s, b) < s.len() ==> s[first_byte(s, b)] == b,
        forall|j: int| 0 <= j < first_byte(s, b) ==> s[j] != b,
    decreases s.len(),
{
    if s.len() == 0 {
    } else if s[0] == b {
    } else {
        lemma_first_byte_bounds(s.skip(1), b);
        assert forall|j: int| 0 <= j < first_byte(s, b) implies s[j] != b by {
            if j > 0 {
                assert(s.skip(1)[j - 1] != b);
            }
        }
    }
}

/// Pins `first_byte` down from a witness: `b` does not occur before `i`,
/// and occurs at `i` unless `i` is the length.
pub proof fn lemma_first_byte_is(s: Seq<u8>, b: u8, i: int)
    requires
        0 <= i <= s.len(),
        forall|j: int| 0 <= j < i ==> s[j] != b,
        i < s.len() ==> s[i] == b,
    ensures
        first_byte(s, b) == i,
    decreases s.len(),
{
    if s.len() == 0 {
    } else if s[0] == b {
        assert(i == 0);
    } else {
        assert(i >= 1);
        assert forall|j: int| 0 <= j < i - 1 implies s.skip(1)[j] != b by {
            assert(s[j + 1] != b);
        }
        assert(i - 1 < s.skip(1).len() ==> s.skip(1)[i - 1] == b);
        lemma_first_byte_is(s.skip(1), b, i - 1);
    }
}

/// Copy of `v[a..b]` as a fresh vector.
pub fn bytes_range(v: &Vec<u8>, a: usize, b: usize) -> (r: Vec<u8>)
    requires
        a <= b <= v@.len(),
    ensures
        r@ == v@.subrange(a as int, b as int),
{
    let mut r: Vec<u8> = Vec::new();
    let mut i: usize = a;
    while i < b
        invariant
            a <= i <= b <= v@.len(),
            r@ == v@.subrange(a as int, i as int),
        decreases b - i,
    {
        r.push(v[i]);
        i = i + 1;
        assert(r@ =~= v@.subrange(a as int, i as int));
    }
    r
}

/// Byte-wise equality of two vectors.
pub fn eq_bytes(a: &Vec<u8>, b: &Vec<u8>) -> (r: bool)
    ensures
        r == (a@ == b@),
{
    if a.len() != b.len() {
        assert(a@ != b@) by {
            assert(a@.len() != b@.len());
        }
        return false;
    }
    let mut i: usize = 0;
    while i < a.len()
        invariant
            0 <= i <= a@.len(),
            a@.len() == b@.len(),
            forall|j: int| 0 <= j < i ==> a@[j] == b@[j],
        decreases a@.len() - i,
    {
        if a[i] != b[i] {
            return false;
        }
        i = i + 1;
    }
    assert(a@ =~= b@);
    true
}

// ---------------------------------------------------------------------------
// Splitting a text into lines, as the standard library's line iterator does:
// lines end at a line feed, an immediately preceding carriage return is
// dropped, the final line ending is optional, and a final segment without a
// line feed keeps a stray trailing carriage return.
// ---------------------------------------------------------------------------

pub const LF: u8 = 10;
pub const CR: u8 = 13;

/// One line with a terminating carriage return removed.
pub open spec fn strip_cr(l: Seq<u8>) -> Seq<u8> {
    if l.len() > 0 && l.last() == CR {
        l.drop_last()
    } else {
        l
    }
}

/// The lines of `s`.
pub open spec fn spec_lines(s: Seq<u8>) -> Seq<Seq<u8>>
    decreases s.len(),
    via spec_lines_dec
{
    if s.len() == 0 {
        seq![]
    } else {
        let i = first_byte(s, LF);
        if i == s.len() {
            seq![s]
        } else {
            seq![strip_cr(s.take(i))] + spec_lines(s.skip(i + 1))
        }
    }
}

#[via_fn]
proof fn spec_lines_dec(s: Seq<u8>) {
    lemma_first_byte_bounds(s, LF);
}

/// Splits a document into its lines.
pub fn split_lines(v: &Vec<u8>) -> (r: Vec<Vec<u8>>)
    ensures
        views_of(r@) == spec_lines(v@),
{
    let mut out: Vec<Vec<u8>> = Vec::new();
    let mut start: usize = 0;
    proof {
        assert(views_of(out@) =~= Seq::<Seq<u8>>::empty());
        assert(v@.skip(0) =~= v@);
    }
    while start < v.len()
        invariant
            0 <= start <= v@.len(),
            spec_lines(v@) == views_of(out@) + spec_lines(v@.skip(start as int)),
        decreases v@.len() - start,
    {
        let ghost rest = v@.skip(start as int);
        // find the next line feed
        let mut i: usize = start;
        while i < v.len() && v[i] != LF
            invariant
                start <= i <= v@.len(),
                forall|j: int| start <= j < i ==> v@[j] != LF,
            decreases v@.len() - i,
        {
            i = i + 1;
        }
        proof {
            assert forall|j: int| 0 <= j < i - start implies rest[j] != LF by {
                assert(v@[start + j] != LF);
            }
            assert(i < v@.len() ==> rest[i - start] == LF);
            lemma_first_byte_is(rest, LF, i - start);
        }
        let mut line = bytes_range(v, start, i);
        proof {
            assert(line@ =~= rest.take(i - start));
        }
        if i == v.len() {
            // final line without a terminator: keep it as it stands
            proof {
                assert(rest.len() > 0);
                assert(first_byte(rest, LF) == rest.len());
                assert(spec_lines(rest) =~= seq![rest]);
                assert(line@ =~= rest);
            }
            let ghost old_views = views_of(out@);
            let ghost lv = line@;
            out.push(line);
            proof {
                assert(views_of(out@) =~= old_views + seq![lv]);
                assert(views_of(out@) =~= spec_lines(v@));
            }
            start = v.len();
        } else {
            // v[i] is the line feed
            if line.len() > 0 && line[line.len() - 1] == CR {
                line.pop();
                proof {
                    assert(line@ =~= strip_cr(rest.take(i - start)));
                }
            } else {
                proof {
                    assert(line@ =~= strip_cr(rest.take(i - start)));
                }
            }
            let ghost old_views = views_of(out@);
            let ghost lv = line@;
            out.push(line);
            proof {
                assert(first_byte(rest, LF) == i - start);
                assert(i - start < rest.len());
                assert(spec_lines(rest) =~= seq![strip_cr(rest.take(i - start))] + spec_lines(
                    rest.skip(i - start + 1),
                ));
                assert(rest.skip(i - start + 1) =~= v@.skip(i + 1));
                assert(views_of(out@) =~= old_views + seq![lv]);
                assert(views_of(out@) + spec_lines(v@.skip(i + 1)) =~= spec_lines(v@));
            }
            start = i + 1;
        }
    }
    proof {
        assert(spec_lines(v@.skip(start as int)) =~= Seq::<Seq<u8>>::empty());
        assert(views_of(out@) =~= spec_lines(v@));
    }
    out
}

// ---------------------------------------------------------------------------
// Whitespace and letter case, for the rule parser.
// ---------------------------------------------------------------------------

pub const SPACE: u8 = 32;

/// The whitespace bytes: tab, line feed, vertical tab, form feed, carriage
/// return and space.
pub open spec fn is_ws(b: u8) -> bool {
    b == 9 || b == 10 || b == 11 || b == 12 || b == 13 || b == SPACE
}

/// Executable form of `is_ws`.
pub fn is_ws_byte(b: u8) -> (r: bool)
    ensures
        r == is_ws(b),
{
    b == 9 || b == 10 || b == 11 || b == 12 || b == 13 || b == SPACE
}

/// The length of the whitespace prefix of `s`.
pub open spec fn ws_end(s: Seq<u8>) -> int
    decreases s.len(),
{
    if s.len() == 0 || !is_ws(s[0]) {
        0
    } else {
        1 + ws_end(s.skip(1))
    }
}

/// Pins `ws_end` down from a witness.
pub proof fn lemma_ws_end_is(s: Seq<u8>, i: int)
    requires
        0 <= i <= s.len(),
        forall|j: int| 0 <= j < i ==> is_ws(#[trigger] s[j]),
        i < s.len() ==> !is_ws(s[i]),
    ensures
        ws_end(s) == i,
    decreases s.len(),
{
    if s.len() == 0 || !is_ws(s[0]) {
        assert(i == 0);
    } else {
        assert(i >= 1) by {
            assert(is_ws(s[0]));
        }
        assert forall|j: int| 0 <= j < i - 1 implies is_ws(#[trigger] s.skip(1)[j]) by {
            assert(is_ws(s[j + 1]));
        }
        assert(i - 1 < s.skip(1).len() ==> !is_ws(s.skip(1)[i - 1]));
        lemma_ws_end_is(s.skip(1), i - 1);
    }
}

/// Index of the first whitespace byte of `s`, or `s.len()` if none.
pub open spec fn first_ws(s: Seq<u8>) -> int
    decreases s.len(),
{
    if s.len() == 0 {
        0
    } else if is_ws(s[0]) {
        0
    } else {
        1 + first_ws(s.skip(1))
    }
}

/// Pins `first_ws` down from a witness.
pub proof fn lemma_first_ws_is(s: Seq<u8>, i: int)
    requires
        0 <= i <= s.len(),
        forall|j: int| 0 <= j < i ==> !is_ws(#[trigger] s[j]),
        i < s.len() ==> is_ws(s[i]),
    ensures
        first_ws(s) == i,
    decreases s.len(),
{
    if s.len() == 0 {
    } else if is_ws(s[0]) {
        assert(i == 0);
    } else {
        assert(i >= 1);
        assert forall|j: int| 0 <= j < i - 1 implies !is_ws(#[trigger] s.skip(1)[j]) by {
            assert(!is_ws(s[j + 1]));
        }
        assert(i - 1 < s.skip(1).len() ==> is_ws(s.skip(1)[i - 1]));
        lemma_first_ws_is(s.skip(1), i - 1);
    }
}

/// One byte, upper-case letters turned lower-case.
pub open spec fn lower_byte(b: u8) -> u8 {
    if 65 <= b <= 90 {
        (b + 32) as u8
    } else {
        b
    }
}

/// A byte string, upper-case letters turned lower-case.
pub open spec fn lower(s: Seq<u8>) -> Seq<u8> {
    Seq::new(s.len(), |i: int| lower_byte(s[i]))
}

/// Lower-cases a byte string.
pub fn lower_bytes(s: &Vec<u8>) -> (r: Vec<u8>)
    ensures
        r@ == lower(s@),
{
    let mut r: Vec<u8> = Vec::new();
    let mut i: usize = 0;
    while i < s.len()
        invariant
            0 <= i <= s@.len(),
            r@.len() == i,
            forall|j: int| 0 <= j < i ==> r@[j] == lower_byte(#[trigger] s@[j]),
        decreases s@.len() - i,
    {
        let b = s[i];
        if 65 <= b && b <= 90 {
            r.push(b + 32);
        } else {
            r.push(b);
        }
        i = i + 1;
    }
    assert(r@ =~= lower(s@));
    r
}

// ---------------------------------------------------------------------------
// Decimal text for unsigned integers.
// ---------------------------------------------------------------------------

/// The decimal digits of `n`, most significant first.
pub open spec fn spec_dec(n: nat) -> Seq<u8>
    decreases n,
{
    if n < 10 {
        seq![(n + 48) as u8]
    } else {
        spec_dec(n / 10) + seq![(n % 10 + 48) as u8]
    }
}

pub open spec fn is_digit(b: u8) -> bool {
    48 <= b <= 57
}

pub proof fn lemma_dec_digits(n: nat)
    ensures
        spec_dec(n).len() >= 1,
        forall|i: int| 0 <= i < spec_dec(n).len() ==> is_digit(#[trigger] spec_dec(n)[i]),
    decreases n,
{
    if n < 10 {
    } else {
        lemma_dec_digits(n / 10);
        assert forall|i: int| 0 <= i < spec_dec(n).len() implies is_digit(
            #[trigger] spec_dec(n)[i],
        ) by {
            if i < spec_dec(n / 10).len() {
                assert(spec_dec(n)[i] == spec_dec(n / 10)[i]);
            }
        }
    }
}

/// Renders `n` in decimal.
pub fn u64_to_dec(n: u64) -> (r: Vec<u8>)
    ensures
        r@ == spec_dec(n as nat),
    decreases n,
{
    if n < 10 {
        let mut r: Vec<u8> = Vec::new();
        r.push((n as u8) + 48);
        proof {
            assert(r@ =~= spec_dec(n as nat));
        }
        r
    } else {
        let mut r = u64_to_dec(n / 10);
        r.push(((n % 10) as u8) + 48);
        proof {
            assert(r@ =~= spec_dec(n as nat));
        }
        r
    }
}

/// The number denoted by a digit string, most significant first.
pub open spec fn digits_value(s: Seq<u8>) -> nat
    decreases s.len(),
{
    if s.len() == 0 {
        0
    } else {
        (digits_value(s.drop_last()) * 10 + if s.last() >= 48 {
            (s.last() - 48) as nat
        } else {
            0
        }) as nat
    }
}

pub open spec fn all_digits(s: Seq<u8>) -> bool {
    forall|i: int| 0 <= i < s.len() ==> is_digit(#[trigger] s[i])
}

/// What parsing a decimal unsigned integer from text yields: an optional
/// leading plus sign, then at least one digit, and the value must fit.
pub open spec fn spec_parse_u64(s: Seq<u8>) -> Option<u64> {
    let t = if s.len() > 0 && s[0] == 43 {
        s.skip(1)
    } else {
        s
    };
    if t.len() >= 1 && all_digits(t) && digits_value(t) <= u64::MAX {
        Some(digits_value(t) as u64)
    } else {
        None
    }
}

proof fn lemma_digits_value_take_step(t: Seq<u8>, i: int)
    requires
        0 <= i < t.len(),
        t[i] >= 48,
    ensures
        digits_value(t.take(i + 1)) == digits_value(t.take(i)) * 10 + (t[i] - 48),
{
    assert(t.take(i + 1).drop_last() =~= t.take(i));
    assert(t.take(i + 1).last() == t[i]);
}

/// Once a digit prefix exceeds a bound, every longer prefix does too.
proof fn lemma_digits_value_grows(t: Seq<u8>, i: int, j: int)
    requires
        0 <= i <= j <= t.len(),
        all_digits(t),
    ensures
        digits_value(t.take(i)) <= digits_value(t.take(j)),
    decreases j - i,
{
    if i < j {
        lemma_digits_value_grows(t, i, j - 1);
        lemma_digits_value_take_step(t, j - 1);
        assert(digits_value(t.take(j - 1)) * 10 >= digits_value(t.take(j - 1))) by (nonlinear_arith);
    }
}

/// Parses a decimal unsigned integer, exactly as the standard parse for
/// `u64` accepts it.
pub fn parse_u64(s: &Vec<u8>) -> (r: Option<u64>)
    ensures
        r == spec_parse_u64(s@),
{
    let mut start: usize = 0;
    if s.len() > 0 && s[0] == 43 {
        start = 1;
    }
    let ghost t = if s@.len() > 0 && s@[0] == 43 {
        s@.skip(1)
    } else {
        s@
    };
    proof {
        assert(s@.skip(0) =~= s@);
        assert(t == s@.skip(start as int));
    }
    if s.len() == start {
        assert(t.len() == 0);
        return None;
    }
    let mut acc: u64 = 0;
    let mut i: usize = start;
    while i < s.len()
        invariant
            start <= i <= s@.len(),
            start == 0 || start == 1,
            start == 1 ==> s@.len() > 0 && s@[0] == 43,
            start == 0 ==> !(s@.len() > 0 && s@[0] == 43),
            t == s@.skip(start as int),
            t == (if s@.len() > 0 && s@[0] == 43 {
                s@.skip(1)
            } else {
                s@
            }),
            s@.len() > start,
            acc as nat == digits_value(t.take(i - start)),
            all_digits(t.take(i - start)),
        decreases s@.len() - i,
    {
        let b = s[i];
        if b < 48 || b > 57 {
            assert(!all_digits(t)) by {
                assert(t[i - start] == s@[i as int]);
                assert(!is_digit(t[i - start]));
            }
            return None;
        }
        let d = (b - 48) as u64;
        let next = match acc.checked_mul(10) {
            Some(m) => m.checked_add(d),
            None => None,
        };
        match next {
            Some(v) => {
                proof {
                    lemma_digits_value_take_step(t, i - start);
                    assert(t.take(i - start + 1).drop_last() =~= t.take(i - start));
                    assert(forall|j: int|
                        0 <= j < (i - start + 1) ==> is_digit(#[trigger] t.take(i - start + 1)[j]));
                }
                acc = v;
            },
            None => {
                // the digits read so far already exceed the largest value
                proof {
                    assert(t[i - start] == s@[i as int]);
                    lemma_digits_value_take_step(t, i - start);
                    assert(digits_value(t.take(i - start + 1)) > u64::MAX);
                    if all_digits(t) && digits_value(t) <= u64::MAX {
                        lemma_digits_value_grows(t, i - start + 1, t.len() as int);
                        assert(t.take(t.len() as int) =~= t);
                        assert(false);
                    }
                    assert(!(all_digits(t) && digits_value(t) <= u64::MAX));
                    assert(spec_parse_u64(s@) is None);
                }
                return None;
            },
        }
        i = i + 1;
    }
    proof {
        assert(t.take(t.len() as int) =~= t);
    }
    Some(acc)
}

/// The decimal text of a number parses back to that number.
pub proof fn lemma_dec_round_trip(n: u64)
    ensures
        spec_parse_u64(spec_dec(n as nat)) == Some(n),
{
    lemma_dec_digits(n as nat);
    lemma_digits_value_of_dec(n as nat);
    let s = spec_dec(n as nat);
    assert(s[0] != 43);
    assert(digits_value(s) == n as nat);
}

proof fn lemma_digits_value_of_dec(n: nat)
    ensures
        digits_value(spec_dec(n)) == n,
    decreases n,
{
    if n < 10 {
        assert(spec_dec(n).drop_last() =~= Seq::<u8>::empty());
        assert(spec_dec(n).last() == (n + 48) as u8);
        assert((spec_dec(n).last() - 48) as nat == n);
        assert(digits_value(Seq::<u8>::empty()) == 0);
        assert(spec_dec(n).last() >= 48);
        assert(digits_value(spec_dec(n)) == n);
    } else {
        lemma_digits_value_of_dec(n / 10);
        assert(spec_dec(n).drop_last() =~= spec_dec(n / 10));
        assert(spec_dec(n).last() == (n % 10 + 48) as u8);
        assert((spec_dec(n).last() - 48) as nat == n % 10);
        assert(digits_value(spec_dec(n)) == (n / 10) * 10 + n % 10);
        assert((n / 10) * 10 + n % 10 == n) by (nonlinear_arith);
    }
}

} // verus!
