//! Line splitting and decimal integers over raw file bytes.
use vstd::prelude::*;

verus! {

pub open spec fn is_digit(b: u8) -> bool {
    48 <= b <= 57
}

pub open spec fn all_digits(s: Seq<u8>) -> bool {
    forall|i: int| 0 <= i < s.len() ==> is_digit(#[trigger] s[i])
}

/// Value of a run of decimal digits, most significant first.
pub open spec fn digits_value(s: Seq<u8>) -> int
    decreases s.len(),
{
    if s.len() == 0 {
        0
    } else {
        digits_value(s.drop_last()) * 10 + (s.last() - 48)
    }
}

/// Shortest decimal text of `n`.
pub open spec fn decimal(n: nat) -> Seq<u8>
    decreases n,
{
    if n < 10 {
        seq![(n + 48) as u8]
    } else {
        decimal(n / 10).push((n % 10 + 48) as u8)
    }
}

/// Decimal text of a signed integer: a minus sign before negative values.
pub open spec fn int_text(v: int) -> Seq<u8> {
    if v < 0 {
        seq![45u8] + decimal((-v) as nat)
    } else {
        decimal(v as nat)
    }
}

/// An optionally signed decimal integer spanning the whole of `s`.
pub open spec fn int_value(s: Seq<u8>) -> Option<int> {
    if s.len() > 0 && (s[0] == 45 || s[0] == 43) {
        let rest = s.drop_first();
        if rest.len() > 0 && all_digits(rest) {
            Some(if s[0] == 45 { -digits_value(rest) } else { digits_value(rest) })
        } else {
            None
        }
    } else if s.len() > 0 && all_digits(s) {
        Some(digits_value(s))
    } else {
        None
    }
}

/// A process identifier written as text: an integer that fits in `i32`.
pub open spec fn pid_value(s: Seq<u8>) -> Option<int> {
    match int_value(s) {
        Some(v) => if i32::MIN <= v <= i32::MAX { Some(v) } else { None },
        None => None,
    }
}

/// Lines of `s` after the current, unfinished line `cur`.
pub open spec fn lines_after(s: Seq<u8>, cur: Seq<u8>) -> Seq<Seq<u8>>
    decreases s.len(),
{
    if s.len() == 0 {
        if cur.len() == 0 { seq![] } else { seq![cur] }
    } else if s[0] == 10 {
        seq![cur] + lines_after(s.drop_first(), seq![])
    } else {
        lines_after(s.drop_first(), cur.push(s[0]))
    }
}

/// The lines of a text: pieces between newlines, without the newline; a final
/// newline ends the last line rather than starting an empty one.
pub open spec fn lines_of(s: Seq<u8>) -> Seq<Seq<u8>> {
    lines_after(s, seq![])
}

pub open spec fn views(v: Seq<Vec<u8>>) -> Seq<Seq<u8>> {
    v.map_values(|x: Vec<u8>| x@)
}

pub proof fn lemma_digits_value_nonneg(s: Seq<u8>)
    requires
        all_digits(s),
    ensures
        digits_value(s) >= 0,
    decreases s.len(),
{
    if s.len() > 0 {
        lemma_digits_value_nonneg(s.drop_last());
    }
}

/// A prefix of a run of digits is worth no more than the whole run.
pub proof fn lemma_digits_value_prefix(s: Seq<u8>, i: int)
    requires
        all_digits(s),
        0 <= i <= s.len(),
    ensures
        digits_value(s.subrange(0, i)) <= digits_value(s),
    decreases s.len(),
{
    if i < s.len() {
        let t = s.drop_last();
        assert(t.subrange(0, i) == s.subrange(0, i));
        lemma_digits_value_prefix(t, i);
        lemma_digits_value_nonneg(t);
    } else {
        assert(s.subrange(0, i) == s);
    }
}

pub proof fn lemma_decimal_digits(n: nat)
    ensures
        all_digits(decimal(n)),
        decimal(n).len() > 0,
        digits_value(decimal(n)) == n,
    decreases n,
{
    if n >= 10 {
        lemma_decimal_digits(n / 10);
        let d = decimal(n);
        assert(d.drop_last() == decimal(n / 10));
        assert forall|i: int| 0 <= i < d.len() implies is_digit(#[trigger] d[i]) by {
            if i < d.len() - 1 {
                assert(d[i] == decimal(n / 10)[i]);
            }
        }
        assert(d.last() == (n % 10 + 48) as u8);
        assert(d.last() - 48 == n % 10);
        assert(digits_value(d) == digits_value(decimal(n / 10)) * 10 + (d.last() - 48));
        assert(n == (n / 10) * 10 + n % 10);
    } else {
        let d = decimal(n);
        assert(d.drop_last() =~= Seq::<u8>::empty());
        assert(digits_value(d.drop_last()) == 0);
        assert(d.last() - 48 == n);
    }
}

/// Reading back the text of an `i32` gives the same value.
pub proof fn lemma_pid_text_round_trip(v: i32)
    ensures
        pid_value(int_text(v as int)) == Some(v as int),
{
    if v < 0 {
        let m = (-(v as int)) as nat;
        lemma_decimal_digits(m);
        let t = int_text(v as int);
        assert(t.drop_first() == decimal(m));
    } else {
        lemma_decimal_digits(v as nat);
    }
}

/// Decimal text of `n`.
pub fn decimal_bytes(n: u32) -> (r: Vec<u8>)
    ensures
        r@ == decimal(n as nat),
{
    let mut m: u32 = n;
    let mut out: Vec<u8> = Vec::new();
    loop
        invariant
            decimal(n as nat) == decimal(m as nat) + out@,
        decreases m,
    {
        let ghost low = out@;
        if m < 10 {
            out.insert(0, (m as u8) + 48);
            assert(out@ == decimal(m as nat) + low);
            return out;
        }
        let d: u8 = (m % 10) as u8 + 48;
        out.insert(0, d);
        m = m / 10;
        assert(decimal(n as nat) == decimal(m as nat) + out@) by {
            assert(out@ == seq![d] + low);
            assert(decimal((m * 10 + d - 48) as nat) == decimal(m as nat).push(d));
        }
    }
}

/// Decimal text of a process identifier, with a minus sign when negative.
pub fn pid_text(pid: i32) -> (r: Vec<u8>)
    ensures
        r@ == int_text(pid as int),
{
    if pid < 0 {
        let mag: u32 = if pid == i32::MIN { 2147483648u32 } else { (-pid) as u32 };
        let digits = decimal_bytes(mag);
        let mut r: Vec<u8> = Vec::new();
        r.push(45u8);
        let mut i: usize = 0;
        while i < digits.len()
            invariant
                i <= digits@.len(),
                r@ == seq![45u8] + digits@.subrange(0, i as int),
            decreases digits@.len() - i,
        {
            r.push(digits[i]);
            i = i + 1;
            assert(r@ == seq![45u8] + digits@.subrange(0, i as int));
        }
        assert(digits@.subrange(0, i as int) == digits@);
        r
    } else {
        decimal_bytes(pid as u32)
    }
}

/// Reads a process identifier: optional sign, then decimal digits, the whole
/// of `s`, within the range of `i32`.
pub fn parse_pid(s: &[u8]) -> (r: Option<i32>)
    ensures
        r matches Some(v) ==> pid_value(s@) == Some(v as int),
        r is None ==> pid_value(s@) is None,
{
    let len = s.len();
    if len == 0 {
        return None;
    }
    let negative = s[0] == 45u8;
    let start: usize = if s[0] == 45u8 || s[0] == 43u8 { 1 } else { 0 };
    if start == len {
        return None;
    }
    let ghost body = s@.subrange(start as int, len as int);
    assert(s@[0] == s[0]);
    assert(start == 1 ==> body == s@.drop_first());
    assert(start == 0 ==> body == s@);
    let mut acc: u64 = 0;
    let mut i: usize = start;
    while i < len
        invariant
            start <= i <= len,
            len == s@.len(),
            len > 0,
            start == 0 || start == 1,
            start == 1 <==> (s@[0] == 45 || s@[0] == 43),
            negative <==> s@[0] == 45,
            start == 1 ==> body == s@.drop_first(),
            start == 0 ==> body == s@,
            body == s@.subrange(start as int, len as int),
            all_digits(s@.subrange(start as int, i as int)),
            acc as int == digits_value(s@.subrange(start as int, i as int)),
            acc <= 2147483648,
        decreases len - i,
    {
        let b = s[i];
        if b < 48u8 || b > 57u8 {
            assert(body[i - start] == b);
            assert(!is_digit(body[i - start]));
            assert(!all_digits(body));
            assert(int_value(s@) is None);
            return None;
        }
        let ghost prev = s@.subrange(start as int, i as int);
        let ghost next = s@.subrange(start as int, i + 1);
        assert(next.drop_last() == prev);
        assert(all_digits(next)) by {
            assert forall|k: int| 0 <= k < next.len() implies is_digit(#[trigger] next[k]) by {
                if k < prev.len() {
                    assert(next[k] == prev[k]);
                }
            }
        }
        let value: u64 = acc * 10 + (b - 48u8) as u64;
        assert(next.last() == b);
        assert(digits_value(next) == value);
        if value > 2147483648 {
            proof {
                let rest_end = len as int;
                let whole = body;
                let k = i + 1 - start;
                assert(whole.subrange(0, k) == next);
                if all_digits(whole) {
                    lemma_digits_value_prefix(whole, k);
                    assert(digits_value(whole) > 2147483648);
                    if start == 1 {
                        assert(int_value(s@) == Some(
                            if s@[0] == 45 { -digits_value(whole) } else { digits_value(whole) },
                        ));
                    } else {
                        assert(int_value(s@) == Some(digits_value(whole)));
                    }
                }
            }
            return None;
        }
        acc = value;
        i = i + 1;
    }
    assert(s@.subrange(start as int, i as int) == body);
    if negative {
        Some((0 - acc as i64) as i32)
    } else if acc > 2147483647 {
        None
    } else {
        Some(acc as i32)
    }
}

/// Splits a text into its lines, without the newlines.
pub fn split_lines(s: &[u8]) -> (r: Vec<Vec<u8>>)
    ensures
        views(r@) == lines_of(s@),
{
    let mut out: Vec<Vec<u8>> = Vec::new();
    let mut cur: Vec<u8> = Vec::new();
    let mut i: usize = 0;
    assert(s@.subrange(0, s@.len() as int) == s@);
    assert(views(out@) =~= Seq::<Seq<u8>>::empty());
    assert(cur@ =~= Seq::<u8>::empty());
    assert(lines_of(s@) == views(out@) + lines_after(s@, cur@));
    while i < s.len()
        invariant
            i <= s@.len(),
            lines_of(s@) == views(out@) + lines_after(s@.subrange(i as int, s@.len() as int), cur@),
        decreases s@.len() - i,
    {
        let ghost rest = s@.subrange(i as int, s@.len() as int);
        assert(rest.drop_first() == s@.subrange(i + 1, s@.len() as int));
        let b = s[i];
        if b == 10u8 {
            let line = cur;
            cur = Vec::new();
            let ghost before = out@;
            out.push(line);
            assert(views(out@) == views(before) + seq![line@]);
        } else {
            cur.push(b);
        }
        i = i + 1;
    }
    assert(s@.subrange(i as int, s@.len() as int) =~= Seq::<u8>::empty());
    if cur.len() > 0 {
        let ghost before = out@;
        out.push(cur);
        assert(views(out@) == views(before) + seq![out@.last()@]);
    } else {
        assert(views(out@) + Seq::<Seq<u8>>::empty() == views(out@));
    }
    out
}

} // verus!
