//! Whole-number text with `'` as the thousand separator, and the live
//! reformatting of a number field while the user types.

use vstd::prelude::*;
use crate::text::{chars_equal, chars_of, is_whitespace, string_of, to_uppercase, uppercase_of, white_space};

verus! {

/// The thousand separator.
pub const SEP: char = '\'';

/// An ASCII decimal digit.
pub open spec fn is_digit(c: char) -> bool {
    '0' <= c && c <= '9'
}

/// Every char of `s` is an ASCII digit.
pub open spec fn all_digits(s: Seq<char>) -> bool {
    forall|i: int| 0 <= i < s.len() ==> is_digit(#[trigger] s[i])
}

/// The ASCII digits of `s`, in their order.
pub open spec fn digits_of(s: Seq<char>) -> Seq<char>
    decreases s.len(),
{
    if s.len() == 0 {
        s
    } else if is_digit(s.last()) {
        digits_of(s.drop_last()).push(s.last())
    } else {
        digits_of(s.drop_last())
    }
}

/// `s` without its separators.
pub open spec fn without_sep(s: Seq<char>) -> Seq<char>
    decreases s.len(),
{
    if s.len() == 0 {
        s
    } else if s.last() != SEP {
        without_sep(s.drop_last()).push(s.last())
    } else {
        without_sep(s.drop_last())
    }
}

/// A digit string grouped in threes from the right: "1234567" becomes
/// "1'234'567".
pub open spec fn grouped(d: Seq<char>) -> Seq<char>
    decreases d.len(),
{
    if d.len() <= 3 {
        d
    } else {
        grouped(d.subrange(0, d.len() - 3)).push(SEP) + d.subrange(d.len() - 3, d.len() as int)
    }
}

/// What the grouping loop has written after the first `i` digits of `d`.
spec fn grouped_prefix(d: Seq<char>, i: int) -> Seq<char>
    decreases i,
{
    if i <= 0 {
        Seq::empty()
    } else {
        let before = grouped_prefix(d, i - 1);
        let with_sep = if i - 1 > 0 && (d.len() - (i - 1)) % 3 == 0 {
            before.push(SEP)
        } else {
            before
        };
        with_sep.push(d[i - 1])
    }
}

proof fn lemma_grouped_prefix_split(a: Seq<char>, b: Seq<char>, i: int)
    requires
        b.len() == 3,
        0 <= i <= a.len(),
    ensures
        grouped_prefix(a + b, i) == grouped_prefix(a, i),
    decreases i,
{
    if i > 0 {
        lemma_grouped_prefix_split(a, b, i - 1);
        assert(((a + b).len() - (i - 1)) % 3 == (a.len() - (i - 1)) % 3);
        assert((a + b)[i - 1] == a[i - 1]);
    }
}

proof fn lemma_grouped_prefix_full(d: Seq<char>)
    ensures
        grouped_prefix(d, d.len() as int) == grouped(d),
    decreases d.len(),
{
    let n = d.len() as int;
    if n <= 3 {
        reveal_with_fuel(grouped_prefix, 4);
        if n == 0 {
        } else if n == 1 {
            assert(grouped_prefix(d, 1) =~= d);
        } else if n == 2 {
            assert(grouped_prefix(d, 2) =~= d);
        } else {
            assert(grouped_prefix(d, 3) =~= d);
        }
    } else {
        let a = d.subrange(0, n - 3);
        let b = d.subrange(n - 3, n);
        assert(a + b =~= d);
        lemma_grouped_prefix_split(a, b, n - 3);
        lemma_grouped_prefix_full(a);
        assert(grouped_prefix(d, n - 2) =~= grouped(a).push(SEP).push(d[n - 3]));
        assert(grouped_prefix(d, n - 1) =~= grouped(a).push(SEP).push(d[n - 3]).push(d[n - 2]));
        assert(grouped_prefix(d, n) =~= grouped(a).push(SEP) + b);
    }
}

/// Groups a string of digits in threes: "1234567" becomes "1'234'567".
pub fn group_digits(d: &Vec<char>) -> (r: Vec<char>)
    ensures
        r@ == grouped(d@),
{
    let len = d.len();
    let mut out: Vec<char> = Vec::new();
    let mut i: usize = 0;
    while i < len
        invariant
            len == d.len(),
            i <= len,
            out@ == grouped_prefix(d@, i as int),
        decreases len - i,
    {
        if i > 0 && (len - i) % 3 == 0 {
            out.push(SEP);
        }
        out.push(d[i]);
        i += 1;
    }
    proof {
        lemma_grouped_prefix_full(d@);
    }
    out
}

/// The text of a whole number: a minus sign when `negative`, then
/// `digits` grouped in threes. `digits` is the magnitude's decimal form.
pub fn fmt_whole(negative: bool, digits: &str) -> (r: String)
    ensures
        r@ == (if negative { seq!['-'] } else { Seq::empty() }) + grouped(digits@),
{
    let d = chars_of(digits);
    let g = group_digits(&d);
    let mut out: Vec<char> = Vec::new();
    if negative {
        out.push('-');
    }
    let mut i: usize = 0;
    while i < g.len()
        invariant
            i <= g.len(),
            out@ == (if negative { seq!['-'] } else { Seq::empty() }) + g@.take(i as int),
        decreases g.len() - i,
    {
        out.push(g[i]);
        assert(g@.take(i + 1) == g@.take(i as int).push(g@[i as int]));
        i += 1;
    }
    assert(g@.take(g.len() as int) == g@);
    string_of(&out)
}


/// The value of an ASCII digit (0 for any other char).
pub open spec fn digit_value(c: char) -> nat {
    if is_digit(c) {
        (c as int - '0' as int) as nat
    } else {
        0
    }
}

/// The number that a digit string stands for (leading zeros allowed).
pub open spec fn value(d: Seq<char>) -> nat
    decreases d.len(),
{
    if d.len() == 0 {
        0
    } else {
        value(d.drop_last()) * 10 + digit_value(d.last())
    }
}

/// The digit char for `n` (`n < 10`).
pub open spec fn digit_char(n: nat) -> char {
    (n + '0' as int) as char
}

/// The decimal form of `n`, without leading zeros ("0" for zero).
pub open spec fn decimal(n: nat) -> Seq<char>
    decreases n,
{
    if n < 10 {
        seq![digit_char(n)]
    } else {
        decimal(n / 10).push(digit_char(n % 10))
    }
}

/// How many '0's `d` starts with.
pub open spec fn leading_zeros(d: Seq<char>) -> nat
    decreases d.len(),
{
    if d.len() > 0 && d[0] == '0' {
        1 + leading_zeros(d.drop_first())
    } else {
        0
    }
}

/// A digit string in its shortest form: no leading zero, or exactly "0".
pub open spec fn canonical(t: Seq<char>) -> bool {
    &&& t.len() > 0
    &&& all_digits(t)
    &&& (t[0] == '0' ==> t.len() == 1)
}

/// `t` plus one, as a digit string (carrying from the right).
spec fn incremented(t: Seq<char>) -> Seq<char>
    decreases t.len(),
{
    if t.len() == 0 {
        seq!['1']
    } else if t.last() != '9' {
        t.drop_last().push((t.last() as int + 1) as char)
    } else {
        incremented(t.drop_last()).push('0')
    }
}

proof fn lemma_value_zeros(z: Seq<char>)
    requires
        forall|i: int| 0 <= i < z.len() ==> z[i] == '0',
    ensures
        value(z) == 0,
    decreases z.len(),
{
    if z.len() > 0 {
        lemma_value_zeros(z.drop_last());
    }
}

proof fn lemma_value_after_zeros(z: Seq<char>, t: Seq<char>)
    requires
        forall|i: int| 0 <= i < z.len() ==> z[i] == '0',
    ensures
        value(z + t) == value(t),
    decreases t.len(),
{
    if t.len() == 0 {
        assert(z + t =~= z);
        lemma_value_zeros(z);
    } else {
        lemma_value_after_zeros(z, t.drop_last());
        assert((z + t).drop_last() =~= z + t.drop_last());
        assert((z + t).last() == t.last());
    }
}

proof fn lemma_leading_zeros(d: Seq<char>)
    ensures
        leading_zeros(d) <= d.len(),
        forall|i: int| 0 <= i < leading_zeros(d) ==> d[i] == '0',
        leading_zeros(d) < d.len() ==> d[leading_zeros(d) as int] != '0',
    decreases d.len(),
{
    if d.len() > 0 && d[0] == '0' {
        lemma_leading_zeros(d.drop_first());
        assert forall|i: int| 0 <= i < leading_zeros(d) implies d[i] == '0' by {
            if i > 0 {
                assert(d[i] == d.drop_first()[i - 1]);
            }
        }
    }
}

/// Dropping the leading zeros of a digit string keeps its value.
proof fn lemma_value_trimmed(d: Seq<char>)
    ensures
        value(d.skip(leading_zeros(d) as int)) == value(d),
{
    lemma_leading_zeros(d);
    let z = leading_zeros(d) as int;
    assert(d.take(z) + d.skip(z) =~= d);
    lemma_value_after_zeros(d.take(z), d.skip(z));
}

proof fn lemma_digit_char(c: char)
    requires
        is_digit(c),
    ensures
        digit_char(digit_value(c)) == c,
        digit_value(c) < 10,
{
    assert(digit_value(c) + '0' as int == c as int);
}

/// The decimal form of a canonical digit string's value is that string.
proof fn lemma_decimal_value(t: Seq<char>)
    requires
        canonical(t),
    ensures
        decimal(value(t)) == t,
        t.len() >= 2 ==> value(t) >= 10,
        t[0] != '0' ==> value(t) >= 1,
    decreases t.len(),
{
    if t.len() == 1 {
        assert(t.drop_last().len() == 0);
        assert(value(t.drop_last()) == 0);
        assert(t.last() == t[0]);
        lemma_digit_char(t[0]);
        assert(value(t) == digit_value(t[0]));
        assert(decimal(value(t)) =~= t);
    } else {
        let dl = t.drop_last();
        assert(dl[0] == t[0]);
        assert(all_digits(dl)) by {
            assert forall|i: int| 0 <= i < dl.len() implies is_digit(#[trigger] dl[i]) by {
                assert(dl[i] == t[i]);
            }
        }
        lemma_decimal_value(dl);
        let e = digit_value(t.last());
        lemma_digit_char(t.last());
        let v = value(t);
        assert(v == value(dl) * 10 + e);
        vstd::arithmetic::div_mod::lemma_fundamental_div_mod_converse(
            v as int,
            10,
            value(dl) as int,
            e as int,
        );
        assert(decimal(v) =~= dl.push(t.last()));
    }
}

proof fn lemma_incremented(t: Seq<char>)
    requires
        all_digits(t),
    ensures
        all_digits(incremented(t)),
        value(incremented(t)) == value(t) + 1,
        incremented(t).len() > 0,
        (t.len() == 0 || t[0] != '0') ==> incremented(t)[0] != '0',
    decreases t.len(),
{
    if t.len() == 0 {
        assert(incremented(t) =~= seq!['1']);
        assert(incremented(t).drop_last().len() == 0);
        assert(value(incremented(t).drop_last()) == 0);
        assert(value(t) == 0);
    } else {
        let dl = t.drop_last();
        assert(all_digits(dl)) by {
            assert forall|i: int| 0 <= i < dl.len() implies is_digit(#[trigger] dl[i]) by {
                assert(dl[i] == t[i]);
            }
        }
        let r = incremented(t);
        if t.last() != '9' {
            assert(is_digit(t.last()));
            let c = (t.last() as int + 1) as char;
            assert(c as int == t.last() as int + 1);
            assert(r == dl.push(c));
            assert(r.drop_last() =~= dl);
            assert(value(r) == value(dl) * 10 + digit_value(c));
            assert(all_digits(r)) by {
                assert forall|i: int| 0 <= i < r.len() implies is_digit(#[trigger] r[i]) by {
                    if i < dl.len() {
                        assert(r[i] == t[i]);
                    }
                }
            }
            if dl.len() > 0 {
                assert(r[0] == t[0]);
            }
        } else {
            lemma_incremented(dl);
            let rd = incremented(dl);
            assert(r == rd.push('0'));
            assert(r.drop_last() =~= rd);
            assert(value(r) == value(rd) * 10 + digit_value('0'));
            assert(all_digits(r)) by {
                assert forall|i: int| 0 <= i < r.len() implies is_digit(#[trigger] r[i]) by {
                    if i < rd.len() {
                        assert(r[i] == rd[i]);
                    }
                }
            }
            if dl.len() > 0 {
                assert(dl[0] == t[0]);
            }
            assert(r[0] == rd[0]);
        }
    }
}

/// The digits of `v[from..to]`, in order.
fn digits_in(v: &Vec<char>, from: usize, to: usize) -> (r: Vec<char>)
    requires
        from <= to <= v.len(),
    ensures
        r@ == digits_of(v@.subrange(from as int, to as int)),
        all_digits(r@),
{
    let mut out: Vec<char> = Vec::new();
    let mut i: usize = from;
    while i < to
        invariant
            from <= i <= to <= v.len(),
            out@ == digits_of(v@.subrange(from as int, i as int)),
            all_digits(out@),
        decreases to - i,
    {
        assert(v@.subrange(from as int, i + 1).drop_last() =~= v@.subrange(from as int, i as int));
        let c = v[i];
        if '0' <= c && c <= '9' {
            out.push(c);
        }
        i += 1;
    }
    out
}

/// How many '0's the digit string `d` starts with.
fn count_leading_zeros(d: &Vec<char>) -> (r: usize)
    ensures
        r == leading_zeros(d@),
{
    let mut i: usize = 0;
    assert(d@.skip(0) =~= d@);
    while i < d.len() && d[i] == '0'
        invariant
            i <= d.len(),
            leading_zeros(d@) == i + leading_zeros(d@.skip(i as int)),
        decreases d.len() - i,
    {
        assert(d@.skip(i as int).drop_first() =~= d@.skip(i + 1));
        i += 1;
    }
    i
}

/// A digit string plus one.
fn increment(t: &mut Vec<char>)
    requires
        all_digits(old(t)@),
    ensures
        final(t)@ == incremented(old(t)@),
{
    let ghost t0 = t@;
    let mut i: usize = t.len();
    assert(t0.take(i as int) =~= t0);
    assert(incremented(t0) =~= incremented(t0.take(i as int)) + Seq::new(0, |j: int| '0'));
    assert(t@ =~= t0.take(i as int) + Seq::new(0, |j: int| '0'));
    while i > 0 && t[i - 1] == '9'
        invariant
            i <= t.len() == t0.len(),
            all_digits(t0),
            t@ == t0.take(i as int) + Seq::new((t0.len() - i) as nat, |j: int| '0'),
            incremented(t0) == incremented(t0.take(i as int)) + Seq::new(
                (t0.len() - i) as nat,
                |j: int| '0',
            ),
        decreases i,
    {
        let ghost k = i - 1;
        assert(t0.take(i as int).drop_last() =~= t0.take(k));
        assert(t0.take(i as int).last() == '9');
        assert(incremented(t0.take(k)).push('0') + Seq::new((t0.len() - i) as nat, |j: int| '0')
            =~= incremented(t0.take(k)) + Seq::new((t0.len() - k) as nat, |j: int| '0'));
        t.set(i - 1, '0');
        assert(t@ =~= t0.take(k) + Seq::new((t0.len() - k) as nat, |j: int| '0'));
        i -= 1;
    }
    if i == 0 {
        assert(t0.take(0).len() == 0);
        t.insert(0, '1');
        assert(t@ =~= incremented(t0));
    } else {
        let c = t[i - 1];
        assert(is_digit(t0[i - 1]));
        let next = ((c as u8) + 1) as char;
        assert(t0.take(i as int).drop_last() =~= t0.take(i - 1));
        t.set(i - 1, next);
        assert(t@ =~= incremented(t0));
    }
}

/// Index of the first '.' in `s`, if any.
pub open spec fn first_dot(s: Seq<char>) -> Option<int>
    decreases s.len(),
{
    if s.len() == 0 {
        None
    } else if s[0] == '.' {
        Some(0)
    } else {
        match first_dot(s.drop_first()) {
            Some(k) => Some(k + 1),
            None => None,
        }
    }
}

/// The text of a number typed with a decimal point, rounded half up to a
/// whole number: the digits before the point give the whole part, the
/// first digit after it decides the rounding. Empty when there is no
/// whole digit and no rounding up.
pub open spec fn rounded_text(int_part: Seq<char>, frac_part: Seq<char>) -> Seq<char> {
    let di = digits_of(int_part);
    let df = digits_of(frac_part);
    let up = df.len() > 0 && '5' <= df[0];
    if di.len() == 0 && !up {
        Seq::empty()
    } else {
        grouped(decimal(value(di) + if up { 1nat } else { 0nat }))
    }
}

/// The digits typed, without leading zeros; "0" when they were all zeros.
pub open spec fn whole_digits(raw: Seq<char>) -> Seq<char> {
    let d = digits_of(raw);
    let t = d.skip(leading_zeros(d) as int);
    if t.len() == 0 && d.len() > 0 {
        seq!['0']
    } else {
        t
    }
}

/// How many digits of `raw` stand before char index `cursor`.
pub open spec fn digits_before(raw: Seq<char>, cursor: nat) -> nat {
    digits_of(raw.take(if cursor < raw.len() { cursor as int } else { raw.len() as int })).len()
}

/// How many digits of the reformatted whole number stand before the
/// cursor: the digits before it, less the leading zeros that were
/// dropped; when the number collapsed to "0", that zero counts once the
/// cursor is past the start.
pub open spec fn whole_cursor_digits(raw: Seq<char>, cursor: nat) -> nat {
    let d = digits_of(raw);
    let z = leading_zeros(d);
    let k = digits_before(raw, cursor);
    let kept: nat = if k > z { (k - z) as nat } else { 0 };
    if d.skip(z as int).len() == 0 && z > 0 && cursor > 0 {
        kept + 1
    } else {
        kept
    }
}

/// The index just past the `k`-th char of `s` that is not a separator
/// (0 when `k` is 0; the end of `s` when it has fewer).
pub open spec fn cursor_after(s: Seq<char>, k: nat) -> nat
    decreases s.len(),
{
    if k == 0 || s.len() == 0 {
        0
    } else if s[0] == SEP {
        1 + cursor_after(s.drop_first(), k)
    } else {
        1 + cursor_after(s.drop_first(), (k - 1) as nat)
    }
}

/// What a number field shows after the user typed `raw` with the cursor at
/// char index `cursor`: the new text and the new cursor index.
pub open spec fn reformatted(raw: Seq<char>, cursor: nat) -> (Seq<char>, nat) {
    match first_dot(raw) {
        Some(k) => {
            let t = rounded_text(raw.take(k), raw.skip(k + 1));
            (t, t.len())
        },
        None => {
            let t = grouped(whole_digits(raw));
            (t, cursor_after(t, whole_cursor_digits(raw, cursor)))
        },
    }
}

proof fn lemma_first_dot(s: Seq<char>, k: int)
    requires
        0 <= k <= s.len(),
        forall|j: int| 0 <= j < k ==> s[j] != '.',
    ensures
        k < s.len() && s[k] == '.' ==> first_dot(s) == Some(k),
        k == s.len() ==> first_dot(s) is None,
    decreases k,
{
    if k > 0 {
        assert forall|j: int| 0 <= j < k - 1 implies s.drop_first()[j] != '.' by {
            assert(s.drop_first()[j] == s[j + 1]);
        }
        lemma_first_dot(s.drop_first(), k - 1);
    }
}

/// Index of the first '.' in `v`.
fn find_dot(v: &Vec<char>) -> (r: Option<usize>)
    ensures
        r is Some ==> first_dot(v@) == Some(r->0 as int) && r->0 < v.len(),
        r is None ==> first_dot(v@) is None,
{
    let mut i: usize = 0;
    while i < v.len()
        invariant
            i <= v.len(),
            forall|j: int| 0 <= j < i ==> v@[j] != '.',
        decreases v.len() - i,
    {
        if v[i] == '.' {
            proof {
                lemma_first_dot(v@, i as int);
            }
            return Some(i);
        }
        i += 1;
    }
    proof {
        lemma_first_dot(v@, i as int);
    }
    None
}

/// The index just past the `k`-th non-separator char of `s`.
fn cursor_position(s: &Vec<char>, k: usize) -> (pos: usize)
    ensures
        pos == cursor_after(s@, k as nat),
{
    let mut pos: usize = 0;
    let mut seen: usize = 0;
    assert(s@.skip(0) =~= s@);
    while pos < s.len() && seen < k
        invariant
            pos <= s.len(),
            seen <= k,
            cursor_after(s@, k as nat) == pos + cursor_after(s@.skip(pos as int), (k - seen) as nat),
        decreases s.len() - pos,
    {
        assert(s@.skip(pos as int).drop_first() =~= s@.skip(pos + 1));
        assert(s@.skip(pos as int)[0] == s@[pos as int]);
        if s[pos] != SEP {
            seen += 1;
        }
        pos += 1;
    }
    pos
}

/// The canonical digit string for the digits `d` (their value's decimal
/// form), and the proof facts that tie it to `d`.
fn canonical_digits(d: Vec<char>) -> (t: Vec<char>)
    requires
        all_digits(d@),
    ensures
        canonical(t@),
        value(t@) == value(d@),
        t@ == decimal(value(d@)),
{
    let mut d = d;
    let ghost d0 = d@;
    let z = count_leading_zeros(&d);
    proof {
        lemma_leading_zeros(d0);
        lemma_value_trimmed(d0);
    }
    let mut t = d.split_off(z);
    assert(t@ == d0.skip(z as int));
    if t.len() == 0 {
        t.push('0');
        assert(value(d0.skip(z as int)) == 0);
        assert(t@ =~= seq!['0']);
        assert(value(t@.drop_last()) == 0);
        assert(value(t@) == 0);
    } else {
        assert(all_digits(t@)) by {
            assert forall|i: int| 0 <= i < t@.len() implies is_digit(#[trigger] t@[i]) by {
                assert(t@[i] == d0[i + z]);
            }
        }
    }
    proof {
        lemma_decimal_value(t@);
    }
    t
}

/// `reformat` on the chars of the typed text.
fn reformat_chars(raw: &Vec<char>, cursor: usize) -> (r: (Vec<char>, usize))
    ensures
        (r.0@, r.1 as nat) == reformatted(raw@, cursor as nat),
{
    let len = raw.len();
    assert(raw@.subrange(0, len as int) =~= raw@);
    match find_dot(raw) {
        Some(k) => {
            assert(raw@.take(k as int) =~= raw@.subrange(0, k as int));
            assert(raw@.skip(k + 1) =~= raw@.subrange(k + 1, len as int));
            let di = digits_in(raw, 0, k);
            let df = digits_in(raw, k + 1, len);
            let up = df.len() > 0 && df[0] >= '5';
            if di.len() == 0 && !up {
                return (Vec::new(), 0);
            }
            let ghost di0 = di@;
            let mut t = canonical_digits(di);
            if up {
                let ghost t0 = t@;
                proof {
                    lemma_incremented(t0);
                    if t0[0] == '0' {
                        assert(t0 =~= seq!['0']);
                        assert(t0.drop_last().len() == 0);
                        assert(incremented(t0) =~= seq!['1']);
                    }
                }
                increment(&mut t);
                proof {
                    lemma_decimal_value(t@);
                }
            }
            let out = group_digits(&t);
            let n = out.len();
            (out, n)
        },
        None => {
            let limit = if cursor < len {
                cursor
            } else {
                len
            };
            assert(raw@.take(limit as int) =~= raw@.subrange(0, limit as int));
            let d = digits_in(raw, 0, len);
            let before = digits_in(raw, 0, limit);
            let kept = before.len();
            let z = count_leading_zeros(&d);
            let ghost d0 = d@;
            proof {
                lemma_leading_zeros(d0);
            }
            let mut d = d;
            let mut whole = d.split_off(z);
            let mut k2: usize = if kept > z {
                kept - z
            } else {
                0
            };
            if whole.len() == 0 && z > 0 {
                whole.push('0');
                if cursor > 0 {
                    k2 += 1;
                }
            }
            assert(whole@ =~= whole_digits(raw@));
            let out = group_digits(&whole);
            let pos = cursor_position(&out, k2);
            (out, pos)
        },
    }
}

/// Normalizes raw typed text into a formatted whole number.
///
/// Returns the new text and the cursor position mapped from `cursor` (a
/// char index into `raw`), so typing feels natural while separators appear
/// and disappear. A pasted decimal like "245.7" is rounded to "246".
pub fn reformat(raw: &str, cursor: usize) -> (r: (String, usize))
    ensures
        (r.0@, r.1 as nat) == reformatted(raw@, cursor as nat),
{
    let chars = chars_of(raw);
    let (out, pos) = reformat_chars(&chars, cursor);
    (string_of(&out), pos)
}

/// `s` without separators and white space: the text that is handed to the
/// number parser.
pub open spec fn cleaned(s: Seq<char>) -> Seq<char>
    decreases s.len(),
{
    if s.len() == 0 {
        s
    } else if s.last() != SEP && !white_space(s.last()) {
        cleaned(s.drop_last()).push(s.last())
    } else {
        cleaned(s.drop_last())
    }
}

/// Drops separators and white space from user text such as "1'234 ", so
/// that what is left can be parsed as a number.
pub fn clean_number(s: &str) -> (r: String)
    ensures
        r@ == cleaned(s@),
{
    let v = chars_of(s);
    let mut out: Vec<char> = Vec::new();
    let mut i: usize = 0;
    while i < v.len()
        invariant
            i <= v.len(),
            out@ == cleaned(v@.take(i as int)),
        decreases v.len() - i,
    {
        assert(v@.take(i + 1).drop_last() =~= v@.take(i as int));
        let c = v[i];
        if c != SEP && !is_whitespace(c) {
            out.push(c);
        }
        i += 1;
    }
    assert(v@.take(v.len() as int) =~= v@);
    string_of(&out)
}

/// A ticker symbol as typed, with white space dropped and every char in
/// upper case.
pub open spec fn symbol_text(s: Seq<char>) -> Seq<char>
    decreases s.len(),
{
    if s.len() == 0 {
        s
    } else if white_space(s.last()) {
        symbol_text(s.drop_last())
    } else {
        symbol_text(s.drop_last()) + uppercase_of(s.last())
    }
}

/// Normalizes typed ticker text: drops white space and upper-cases the rest.
pub fn normalize_symbol(s: &str) -> (r: String)
    ensures
        r@ == symbol_text(s@),
{
    let v = chars_of(s);
    let mut out: Vec<char> = Vec::new();
    let mut i: usize = 0;
    while i < v.len()
        invariant
            i <= v.len(),
            out@ == symbol_text(v@.take(i as int)),
        decreases v.len() - i,
    {
        assert(v@.take(i + 1).drop_last() =~= v@.take(i as int));
        let c = v[i];
        if !is_whitespace(c) {
            let mut up = to_uppercase(c);
            out.append(&mut up);
        }
        i += 1;
    }
    assert(v@.take(v.len() as int) =~= v@);
    string_of(&out)
}

fn strip_separators(v: &Vec<char>) -> (r: Vec<char>)
    ensures
        r@ == without_sep(v@),
{
    let mut out: Vec<char> = Vec::new();
    let mut i: usize = 0;
    while i < v.len()
        invariant
            i <= v.len(),
            out@ == without_sep(v@.take(i as int)),
        decreases v.len() - i,
    {
        assert(v@.take(i + 1).drop_last() =~= v@.take(i as int));
        if v[i] != SEP {
            out.push(v[i]);
        }
        i += 1;
    }
    assert(v@.take(v.len() as int) =~= v@);
    out
}

/// The edit looks like a separator deletion: the text is one char shorter
/// and, separators aside, unchanged. (Separators may also have moved, as
/// from "1'234'567" to "12'34567".)
pub open spec fn only_separator_removed(before: Seq<char>, raw: Seq<char>) -> bool {
    raw.len() + 1 == before.len() && without_sep(raw) == without_sep(before)
}

/// The text and cursor to reformat after an edit of a number field that
/// showed `before` and now holds `raw`. When the edit looks like a
/// separator deletion, reformatting alone would let the separator
/// reappear, so the neighbouring digit is deleted instead: the one after
/// the cursor for a forward delete, else the one before it.
pub open spec fn edited(before: Seq<char>, raw: Seq<char>, cursor: nat, forward: bool) -> (
    Seq<char>,
    nat,
) {
    if only_separator_removed(before, raw) {
        if forward {
            if cursor < raw.len() {
                (raw.remove(cursor as int), cursor)
            } else {
                (raw, cursor)
            }
        } else if cursor > 0 {
            (raw.remove(cursor - 1), (cursor - 1) as nat)
        } else {
            (raw, cursor)
        }
    } else {
        (raw, cursor)
    }
}

/// Whether the edit from `before` to `raw` looks like a separator
/// deletion: one char fewer, and the same text once separators are taken
/// out.
pub fn separator_only_removed(before: &str, raw: &str) -> (r: bool)
    ensures
        r == only_separator_removed(before@, raw@),
{
    let b = chars_of(before);
    let r = chars_of(raw);
    if b.len() > 0 && r.len() == b.len() - 1 {
        let sb = strip_separators(&b);
        let sr = strip_separators(&r);
        chars_equal(&sr, &sb)
    } else {
        false
    }
}

/// The new text and cursor of a number field after the user edited it:
/// `before` is what it showed, `raw` what it holds now with the cursor at
/// char index `cursor`, and `forward_delete` whether the edit was the
/// Delete key. When the edit looks like a separator deletion, the
/// neighbouring digit is deleted too; then the text is reformatted.
pub fn edit_number(before: &str, raw: &str, cursor: usize, forward_delete: bool) -> (r: (
    String,
    usize,
))
    requires
        only_separator_removed(before@, raw@) && !forward_delete && cursor > 0 ==> cursor
            <= raw@.len(),
    ensures
        (r.0@, r.1 as nat) == reformatted(
            edited(before@, raw@, cursor as nat, forward_delete).0,
            edited(before@, raw@, cursor as nat, forward_delete).1,
        ),
{
    let mut chars = chars_of(raw);
    let mut cursor = cursor;
    if separator_only_removed(before, raw) {
        if forward_delete {
            if cursor < chars.len() {
                chars.remove(cursor);
            }
        } else if cursor > 0 {
            chars.remove(cursor - 1);
            cursor -= 1;
        }
    }
    let (out, pos) = reformat_chars(&chars, cursor);
    (string_of(&out), pos)
}


proof fn lemma_digits_of_concat(a: Seq<char>, b: Seq<char>)
    ensures
        digits_of(a + b) == digits_of(a) + digits_of(b),
        without_sep(a + b) == without_sep(a) + without_sep(b),
    decreases b.len(),
{
    if b.len() == 0 {
        assert(a + b =~= a);
        assert(digits_of(a) + digits_of(b) =~= digits_of(a));
        assert(without_sep(a) + without_sep(b) =~= without_sep(a));
    } else {
        lemma_digits_of_concat(a, b.drop_last());
        assert((a + b).drop_last() =~= a + b.drop_last());
        assert((a + b).last() == b.last());
        assert(digits_of(a + b) =~= digits_of(a) + digits_of(b));
        assert(without_sep(a + b) =~= without_sep(a) + without_sep(b));
    }
}

proof fn lemma_digits_of_digits(t: Seq<char>)
    requires
        all_digits(t),
    ensures
        digits_of(t) == t,
        without_sep(t) == t,
    decreases t.len(),
{
    if t.len() > 0 {
        assert(all_digits(t.drop_last())) by {
            assert forall|i: int| 0 <= i < t.len() - 1 implies is_digit(#[trigger] t.drop_last()[i]) by {
                assert(t.drop_last()[i] == t[i]);
            }
        }
        lemma_digits_of_digits(t.drop_last());
        assert(is_digit(t[t.len() - 1]));
        assert(t.drop_last().push(t.last()) =~= t);
    }
}

proof fn lemma_digits_of_all_digits(s: Seq<char>)
    ensures
        all_digits(digits_of(s)),
        digits_of(s).len() <= s.len(),
    decreases s.len(),
{
    if s.len() > 0 {
        lemma_digits_of_all_digits(s.drop_last());
        let p = digits_of(s.drop_last());
        if is_digit(s.last()) {
            assert forall|i: int| 0 <= i < p.len() + 1 implies is_digit(#[trigger] p.push(s.last())[i]) by {
                if i < p.len() {
                    assert(p.push(s.last())[i] == p[i]);
                }
            }
        }
    }
}

/// The chars of a grouped digit string are digits and separators.
proof fn lemma_grouped_chars(t: Seq<char>)
    requires
        all_digits(t),
    ensures
        forall|i: int| 0 <= i < grouped(t).len() ==> is_digit(#[trigger] grouped(t)[i]) || grouped(t)[i] == SEP,
        digits_of(grouped(t)) == t,
        without_sep(grouped(t)) == t,
    decreases t.len(),
{
    lemma_digits_of_digits(t);
    if t.len() > 3 {
        let n = t.len() as int;
        let a = t.subrange(0, n - 3);
        let b = t.subrange(n - 3, n);
        assert(all_digits(a)) by {
            assert forall|i: int| 0 <= i < a.len() implies is_digit(#[trigger] a[i]) by {
                assert(a[i] == t[i]);
            }
        }
        assert(all_digits(b)) by {
            assert forall|i: int| 0 <= i < b.len() implies is_digit(#[trigger] b[i]) by {
                assert(b[i] == t[i + n - 3]);
            }
        }
        lemma_grouped_chars(a);
        lemma_digits_of_digits(b);
        let g = grouped(a).push(SEP);
        lemma_digits_of_concat(g, b);
        assert(g.drop_last() =~= grouped(a));
        assert(digits_of(g) == digits_of(grouped(a)));
        assert(without_sep(g) == without_sep(grouped(a)));
        assert(a + b =~= t);
        assert forall|i: int| 0 <= i < grouped(t).len() implies is_digit(#[trigger] grouped(t)[i])
            || grouped(t)[i] == SEP by {
            if i < grouped(a).len() {
                assert(grouped(t)[i] == grouped(a)[i]);
            } else if i > grouped(a).len() {
                assert(grouped(t)[i] == b[i - grouped(a).len() - 1]);
            }
        }
    }
}

/// The decimal form of a number is a canonical digit string, starting
/// with a non-zero digit when the number is not zero.
proof fn lemma_decimal_canonical(n: nat)
    ensures
        canonical(decimal(n)),
        n >= 1 ==> decimal(n)[0] != '0',
    decreases n,
{
    if n < 10 {
        assert(digit_char(n) as int == n + '0' as int);
        assert(decimal(n) =~= seq![digit_char(n)]);
    } else {
        lemma_decimal_canonical(n / 10);
        let p = decimal(n / 10);
        let c = digit_char(n % 10);
        assert(c as int == n % 10 + '0' as int);
        assert(decimal(n) == p.push(c));
        assert forall|i: int| 0 <= i < p.len() + 1 implies is_digit(#[trigger] p.push(c)[i]) by {
            if i < p.len() {
                assert(p.push(c)[i] == p[i]);
            }
        }
        assert(p.push(c)[0] == p[0]);
    }
}

/// The whole-number digits of any typed text are empty or canonical.
proof fn lemma_whole_digits_canonical(raw: Seq<char>)
    ensures
        whole_digits(raw).len() == 0 || canonical(whole_digits(raw)),
        whole_digits(raw).len() == 0 ==> digits_of(raw).len() == 0,
        value(whole_digits(raw)) == value(digits_of(raw)),
{
    let d = digits_of(raw);
    lemma_digits_of_all_digits(raw);
    lemma_leading_zeros(d);
    lemma_value_trimmed(d);
    let z = leading_zeros(d) as int;
    let t = d.skip(z);
    if t.len() == 0 && d.len() > 0 {
        assert(seq!['0'].drop_last().len() == 0);
        assert(value(seq!['0'].drop_last()) == 0);
    } else if t.len() > 0 {
        assert(t[0] == d[z]);
        assert forall|i: int| 0 <= i < t.len() implies is_digit(#[trigger] t[i]) by {
            assert(t[i] == d[i + z]);
        }
    }
}

/// Reading back a canonical digit string that was grouped gives it again.
proof fn lemma_whole_digits_of_grouped(t: Seq<char>)
    requires
        t.len() == 0 || canonical(t),
    ensures
        first_dot(grouped(t)) is None,
        whole_digits(grouped(t)) == t,
{
    if t.len() == 0 {
        assert(grouped(t) == t);
        lemma_first_dot(t, 0);
    } else {
        lemma_grouped_chars(t);
        let g = grouped(t);
        assert forall|j: int| 0 <= j < g.len() implies g[j] != '.' by {
            assert(is_digit(g[j]) || g[j] == SEP);
        }
        lemma_first_dot(g, g.len() as int);
        lemma_leading_zeros(t);
        if t[0] == '0' {
            assert(t.drop_first().len() == 0);
            assert(leading_zeros(t.drop_first()) == 0);
            assert(leading_zeros(t) == 1);
        } else {
            assert(leading_zeros(t) == 0);
            assert(t.skip(0) =~= t);
        }
    }
}

/// The number text that reformatting produces: a grouped canonical digit
/// string, or nothing.
proof fn lemma_reformatted_shape(raw: Seq<char>, cursor: nat)
    ensures
        exists|t: Seq<char>|
            (t.len() == 0 || canonical(t)) && #[trigger] grouped(t) == reformatted(raw, cursor).0,
{
    match first_dot(raw) {
        Some(k) => {
            let di = digits_of(raw.take(k));
            let df = digits_of(raw.skip(k + 1));
            let up = df.len() > 0 && '5' <= df[0];
            if di.len() == 0 && !up {
                let e = Seq::<char>::empty();
                assert(grouped(e) == e);
            } else {
                let n = value(di) + if up { 1nat } else { 0nat };
                lemma_decimal_canonical(n);
                assert(grouped(decimal(n)) == reformatted(raw, cursor).0);
            }
        },
        None => {
            lemma_whole_digits_canonical(raw);
            assert(grouped(whole_digits(raw)) == reformatted(raw, cursor).0);
        },
    }
}

/// Reformatting is stable: the text it produces, reformatted again with
/// any cursor, comes back unchanged.
pub proof fn lemma_reformat_stable(raw: Seq<char>, cursor: nat, cursor2: nat)
    ensures
        reformatted(reformatted(raw, cursor).0, cursor2).0 == reformatted(raw, cursor).0,
{
    lemma_reformatted_shape(raw, cursor);
    let t = choose|t: Seq<char>|
        (t.len() == 0 || canonical(t)) && #[trigger] grouped(t) == reformatted(raw, cursor).0;
    lemma_whole_digits_of_grouped(t);
}

/// Grouping only inserts separators: taking them out again gives back the
/// digits.
pub proof fn lemma_grouping_round_trip(d: Seq<char>)
    requires
        all_digits(d),
    ensures
        without_sep(grouped(d)) == d,
        digits_of(grouped(d)) == d,
{
    lemma_grouped_chars(d);
}

/// Reformatting a whole number keeps its value: the number read from the
/// new text (separators taken out) is the number its digits stood for.
pub proof fn lemma_reformat_keeps_value(raw: Seq<char>, cursor: nat)
    requires
        first_dot(raw) is None,
    ensures
        value(without_sep(reformatted(raw, cursor).0)) == value(digits_of(raw)),
{
    lemma_whole_digits_canonical(raw);
    let t = whole_digits(raw);
    if t.len() > 0 {
        lemma_grouped_chars(t);
    } else {
        assert(grouped(t) == t);
        assert(without_sep(t) == t);
    }
}

/// A number typed with a decimal point becomes the whole number it rounds
/// to, half up: the new text reads as the whole digits' value, plus one
/// when the first digit after the point is 5 or more.
pub proof fn lemma_reformat_rounds(raw: Seq<char>, cursor: nat, k: int)
    requires
        first_dot(raw) == Some(k),
    ensures
        ({
            let df = digits_of(raw.skip(k + 1));
            let up = df.len() > 0 && '5' <= df[0];
            value(without_sep(reformatted(raw, cursor).0)) == value(digits_of(raw.take(k))) + if up {
                1nat
            } else {
                0nat
            }
        }),
{
    let di = digits_of(raw.take(k));
    let df = digits_of(raw.skip(k + 1));
    let up = df.len() > 0 && '5' <= df[0];
    if di.len() == 0 && !up {
        lemma_value_zeros(di);
        assert(without_sep(Seq::<char>::empty()) == Seq::<char>::empty());
    } else {
        let n = value(di) + if up { 1nat } else { 0nat };
        lemma_decimal_canonical(n);
        lemma_grouped_chars(decimal(n));
        lemma_decimal_value(decimal(n));
        assert(decimal(value(decimal(n))) == decimal(n));
        lemma_decimal_injective(value(decimal(n)), n);
    }
}

/// Deleting only a separator from a reformatted number and reformatting
/// again brings the separator back. This is why `edit_number` deletes the
/// neighbouring digit instead.
pub proof fn lemma_separator_reappears(typed: Seq<char>, cursor: nat, k: int, cursor2: nat)
    requires
        0 <= k < reformatted(typed, cursor).0.len(),
        reformatted(typed, cursor).0[k] == SEP,
    ensures
        reformatted(reformatted(typed, cursor).0.remove(k), cursor2).0 == reformatted(
            typed,
            cursor,
        ).0,
{
    let o = reformatted(typed, cursor).0;
    lemma_reformatted_shape(typed, cursor);
    let t = choose|t: Seq<char>|
        (t.len() == 0 || canonical(t)) && #[trigger] grouped(t) == reformatted(typed, cursor).0;
    assert(t.len() > 0) by {
        if t.len() == 0 {
            assert(grouped(t) == t);
        }
    }
    lemma_grouped_chars(t);
    let raw = o.remove(k);
    assert(o =~= o.take(k) + seq![SEP] + o.skip(k + 1));
    assert(raw =~= o.take(k) + o.skip(k + 1));
    lemma_digits_of_concat(o.take(k), seq![SEP]);
    lemma_digits_of_concat(o.take(k) + seq![SEP], o.skip(k + 1));
    lemma_digits_of_concat(o.take(k), o.skip(k + 1));
    assert(seq![SEP].drop_last() =~= Seq::<char>::empty());
    assert(seq![SEP].last() == SEP);
    assert(!is_digit(SEP));
    assert(digits_of(Seq::<char>::empty()) == Seq::<char>::empty());
    assert(digits_of(seq![SEP]) =~= Seq::<char>::empty());
    assert(digits_of(raw) == digits_of(o));
    assert forall|j: int| 0 <= j < raw.len() implies raw[j] != '.' by {
        if j < k {
            assert(raw[j] == o[j]);
        } else {
            assert(raw[j] == o[j + 1]);
        }
    }
    lemma_first_dot(raw, raw.len() as int);
    lemma_whole_digits_of_grouped(t);
}

/// Every char of `s` is a digit or a separator.
pub open spec fn number_text(s: Seq<char>) -> bool {
    forall|i: int| 0 <= i < s.len() ==> is_digit(#[trigger] s[i]) || s[i] == SEP
}

proof fn lemma_first_char_split(s: Seq<char>)
    requires
        s.len() > 0,
    ensures
        s == seq![s[0]] + s.drop_first(),
        digits_of(s).len() == digits_of(seq![s[0]]).len() + digits_of(s.drop_first()).len(),
        digits_of(seq![s[0]]).len() == if is_digit(s[0]) { 1nat } else { 0nat },
{
    assert(s =~= seq![s[0]] + s.drop_first());
    lemma_digits_of_concat(seq![s[0]], s.drop_first());
    assert(seq![s[0]].drop_last() =~= Seq::<char>::empty());
    assert(seq![s[0]].last() == s[0]);
    assert(digits_of(Seq::<char>::empty()).len() == 0);
    if is_digit(s[0]) {
        assert(digits_of(seq![s[0]]) == digits_of(Seq::<char>::empty()).push(s[0]));
    } else {
        assert(digits_of(seq![s[0]]) == digits_of(Seq::<char>::empty()));
    }
}

/// The cursor placed after the `k`-th digit of a number text stands after
/// as many digits as there are, up to `k`.
proof fn lemma_digits_before_cursor_after(s: Seq<char>, k: nat)
    requires
        number_text(s),
    ensures
        cursor_after(s, k) <= s.len(),
        digits_of(s.take(cursor_after(s, k) as int)).len() == if k < digits_of(s).len() {
            k
        } else {
            digits_of(s).len()
        },
    decreases s.len(),
{
    if k == 0 || s.len() == 0 {
        assert(s.take(0) =~= Seq::<char>::empty());
        if s.len() == 0 {
            assert(digits_of(s).len() == 0);
        }
    } else {
        let r = s.drop_first();
        assert(number_text(r)) by {
            assert forall|i: int| 0 <= i < r.len() implies is_digit(#[trigger] r[i]) || r[i] == SEP by {
                assert(r[i] == s[i + 1]);
            }
        }
        lemma_first_char_split(s);
        let k2: nat = if s[0] == SEP { k } else { (k - 1) as nat };
        lemma_digits_before_cursor_after(r, k2);
        let x = cursor_after(r, k2) as int;
        assert(s.take(1 + x) =~= seq![s[0]] + r.take(x));
        lemma_digits_of_concat(seq![s[0]], r.take(x));
        assert(is_digit(s[0]) || s[0] == SEP);
        assert(!is_digit(SEP));
    }
}

/// In a number text that ends with a digit, the cursor after all its
/// digits (or more) is at its end.
proof fn lemma_cursor_after_all(s: Seq<char>, k: nat)
    requires
        number_text(s),
        s.len() > 0,
        is_digit(s.last()),
        k >= digits_of(s).len(),
    ensures
        cursor_after(s, k) == s.len(),
    decreases s.len(),
{
    let r = s.drop_first();
    lemma_first_char_split(s);
    assert(digits_of(s) == digits_of(s.drop_last()).push(s.last()));
    assert(!is_digit(SEP));
    assert(k > 0);
    if s.len() == 1 {
        assert(s.last() == s[0]);
        assert(r.len() == 0);
        assert(s[0] != SEP);
        assert(cursor_after(r, (k - 1) as nat) == 0);
        assert(cursor_after(s, k) == 1 + cursor_after(r, (k - 1) as nat));
    } else {
        assert(number_text(r)) by {
            assert forall|i: int| 0 <= i < r.len() implies is_digit(#[trigger] r[i]) || r[i] == SEP by {
                assert(r[i] == s[i + 1]);
            }
        }
        assert(r.last() == s.last());
        if s[0] == SEP {
            lemma_cursor_after_all(r, k);
            assert(cursor_after(s, k) == 1 + cursor_after(r, k));
        } else {
            lemma_cursor_after_all(r, (k - 1) as nat);
            assert(cursor_after(s, k) == 1 + cursor_after(r, (k - 1) as nat));
        }
    }
}

proof fn lemma_grouped_last(t: Seq<char>)
    requires
        t.len() > 0,
    ensures
        grouped(t).len() > 0,
        grouped(t).last() == t.last(),
{
    if t.len() > 3 {
        let n = t.len() as int;
        assert(grouped(t).last() == t.subrange(n - 3, n).last());
    }
}

/// Reformatting the reformatted text with the reformatted cursor changes
/// neither: the field is at rest once it has been reformatted.
pub proof fn lemma_reformat_cursor_stable(raw: Seq<char>, cursor: nat)
    ensures
        reformatted(reformatted(raw, cursor).0, reformatted(raw, cursor).1) == reformatted(
            raw,
            cursor,
        ),
{
    let o = reformatted(raw, cursor).0;
    let p = reformatted(raw, cursor).1;
    lemma_reformatted_shape(raw, cursor);
    let t = choose|t: Seq<char>|
        (t.len() == 0 || canonical(t)) && #[trigger] grouped(t) == reformatted(raw, cursor).0;
    lemma_whole_digits_of_grouped(t);
    if t.len() == 0 {
        assert(grouped(t) == t);
        assert(o.len() == 0);
        assert(p == 0) by {
            if first_dot(raw) is None {
                assert(cursor_after(o, whole_cursor_digits(raw, cursor)) == 0);
            }
        }
        assert(digits_of(o.take(0)) == digits_of(o));
        assert(digits_of(o).len() == 0);
    } else {
        lemma_grouped_chars(t);
        lemma_grouped_last(t);
        assert(number_text(o));
        let n = t.len();
        assert(digits_of(o) == t);
        // the first cursor stands after some number of digits
        let big: nat = if first_dot(raw) is None { whole_cursor_digits(raw, cursor) } else { n };
        if first_dot(raw) is Some {
            lemma_cursor_after_all(o, n);
        }
        assert(p == cursor_after(o, big));
        lemma_digits_before_cursor_after(o, big);
        let m: nat = if big < n { big } else { n };
        assert(o.take(if p < o.len() { p as int } else { o.len() as int }) == o.take(p as int));
        assert(digits_before(o, p) == m);
        if big >= n {
            lemma_cursor_after_all(o, big);
            lemma_cursor_after_all(o, n);
        }
        assert(cursor_after(o, m) == p);
        lemma_leading_zeros(t);
        if t[0] == '0' {
            assert(t.drop_first().len() == 0);
            assert(leading_zeros(t.drop_first()) == 0);
            assert(leading_zeros(t) == 1);
            assert(o == t);
            assert(m <= 1);
        } else {
            assert(leading_zeros(t) == 0);
            assert(t.skip(0) =~= t);
        }
    }
    lemma_reformat_stable(raw, cursor, p);
}

proof fn lemma_decimal_injective(a: nat, b: nat)
    requires
        decimal(a) == decimal(b),
    ensures
        a == b,
    decreases a,
{
    if a < 10 || b < 10 {
        if a < 10 && b < 10 {
            assert(decimal(a)[0] == digit_char(a));
            assert(digit_char(a) as int == a + '0' as int);
            assert(digit_char(b) as int == b + '0' as int);
        } else if a < 10 {
            lemma_decimal_canonical(b / 10);
            assert(decimal(b).len() >= 2);
        } else {
            lemma_decimal_canonical(a / 10);
            assert(decimal(a).len() >= 2);
        }
    } else {
        let pa = decimal(a / 10);
        let pb = decimal(b / 10);
        assert(decimal(a).drop_last() =~= pa);
        assert(decimal(b).drop_last() =~= pb);
        lemma_decimal_injective(a / 10, b / 10);
        assert(decimal(a).last() == digit_char(a % 10));
        assert(digit_char(a % 10) as int == a % 10 + '0' as int);
        assert(digit_char(b % 10) as int == b % 10 + '0' as int);
    }
}

/// Cleaning keeps exactly the chars of the input that are neither a
/// separator nor white space, in their order; so no separator or white
/// space is left.
pub proof fn lemma_clean_number_filters(s: Seq<char>)
    ensures
        cleaned(s) == s.filter(|c: char| c != SEP && !white_space(c)),
        forall|i: int| 0 <= i < cleaned(s).len() ==> #[trigger] cleaned(s)[i] != SEP && !white_space(cleaned(s)[i]),
    decreases s.len(),
{
    reveal_with_fuel(Seq::filter, 1);
    if s.len() > 0 {
        lemma_clean_number_filters(s.drop_last());
    }
    assert forall|i: int| 0 <= i < cleaned(s).len() implies #[trigger] cleaned(s)[i] != SEP && !white_space(cleaned(s)[i]) by {
        s.lemma_filter_pred(|c: char| c != SEP && !white_space(c), i);
    }
}

/// A normalized symbol is the uppercase mappings of the input's chars that
/// are not white space, one after the other in their order: every other
/// char is kept.
pub proof fn lemma_symbol_text_is_uppercase_of_kept(s: Seq<char>)
    ensures
        symbol_text(s) == s.filter(|c: char| !white_space(c)).map_values(|c: char| uppercase_of(c)).flatten(),
    decreases s.len(),
{
    reveal_with_fuel(Seq::filter, 1);
    if s.len() > 0 {
        lemma_symbol_text_is_uppercase_of_kept(s.drop_last());
        let f = s.drop_last().filter(|c: char| !white_space(c));
        let m = f.map_values(|c: char| uppercase_of(c));
        if !white_space(s.last()) {
            assert(f.push(s.last()).map_values(|c: char| uppercase_of(c)) =~= m.push(uppercase_of(s.last())));
            m.lemma_flatten_push(uppercase_of(s.last()));
        }
    } else {
        assert(s.filter(|c: char| !white_space(c)).map_values(|c: char| uppercase_of(c)) =~= Seq::<Seq<char>>::empty());
    }
}

/// The digits of a text are its chars that are ASCII digits, in order;
/// taking out separators keeps every other char, in order.
pub proof fn lemma_digits_and_separators_filter(s: Seq<char>)
    ensures
        digits_of(s) == s.filter(|c: char| '0' <= c <= '9'),
        without_sep(s) == s.filter(|c: char| c != SEP),
    decreases s.len(),
{
    reveal_with_fuel(Seq::filter, 1);
    if s.len() > 0 {
        lemma_digits_and_separators_filter(s.drop_last());
    }
}

/// Grouping a digit string puts a separator before every third digit
/// counted from the right and nowhere else: the text has one separator per
/// full group of three after the first, separators stand exactly where a
/// multiple of four chars (a separator and three digits each) follows, and
/// taking them out gives back the digits.
pub proof fn lemma_grouped_layout(d: Seq<char>)
    requires
        d.len() > 0,
        all_digits(d),
    ensures
        grouped(d).len() == d.len() + (d.len() - 1) / 3,
        forall|j: int|
            0 <= j < grouped(d).len() ==> (#[trigger] grouped(d)[j] == SEP <==> (j > 0 && (
            grouped(d).len() - j) % 4 == 0)),
        without_sep(grouped(d)) == d,
    decreases d.len(),
{
    lemma_grouped_chars(d);
    assert(!is_digit(SEP));
    let n = d.len() as int;
    if n > 3 {
        let a = d.subrange(0, n - 3);
        let b = d.subrange(n - 3, n);
        assert(all_digits(a)) by {
            assert forall|i: int| 0 <= i < a.len() implies is_digit(#[trigger] a[i]) by {
                assert(a[i] == d[i]);
            }
        }
        lemma_grouped_layout(a);
        let ga = grouped(a);
        let g = grouped(d);
        assert(g == ga.push(SEP) + b);
        assert forall|j: int| 0 <= j < g.len() implies (#[trigger] g[j] == SEP <==> (j > 0 && (
            g.len() - j) % 4 == 0)) by {
            if j < ga.len() {
                assert(g[j] == ga[j]);
                assert((g.len() - j) % 4 == (ga.len() - j) % 4);
            } else if j == ga.len() {
            } else {
                assert(g[j] == b[j - ga.len() - 1]);
                assert(b[j - ga.len() - 1] == d[n - 3 + (j - ga.len() - 1)]);
                assert(is_digit(d[n - 3 + (j - ga.len() - 1)]));
            }
        }
    } else {
        assert forall|j: int| 0 <= j < grouped(d).len() implies (#[trigger] grouped(d)[j] == SEP
            <==> (j > 0 && (grouped(d).len() - j) % 4 == 0)) by {
            assert(is_digit(d[j]));
        }
    }
}

/// The decimal form of a number reads back as that number, and has no
/// leading zero.
pub proof fn lemma_decimal_round_trip(n: nat)
    ensures
        value(decimal(n)) == n,
        all_digits(decimal(n)),
        decimal(n).len() > 0,
        n > 0 ==> decimal(n)[0] != '0',
    decreases n,
{
    lemma_decimal_canonical(n);
    if n >= 10 {
        lemma_decimal_round_trip(n / 10);
        let p = decimal(n / 10);
        let c = digit_char(n % 10);
        assert(decimal(n).drop_last() =~= p);
        assert(c as int == n % 10 + '0' as int);
        assert(digit_value(c) == n % 10);
    } else {
        assert(decimal(n).drop_last().len() == 0);
        assert(value(decimal(n).drop_last()) == 0);
        assert(digit_char(n) as int == n + '0' as int);
    }
}

/// In a text of digits and separators, the cursor after the `k`-th digit
/// (0 < `k` <= the number of digits) stands just after a digit, with
/// exactly `k` digits before it; with no digits asked for it stands at the
/// start, and with more than there are, at the end.
pub proof fn lemma_cursor_after_digit(s: Seq<char>, k: nat)
    requires
        number_text(s),
    ensures
        k == 0 ==> cursor_after(s, k) == 0,
        0 < k <= digits_of(s).len() ==> {
            &&& 0 < cursor_after(s, k) <= s.len()
            &&& is_digit(s[cursor_after(s, k) - 1])
            &&& digits_of(s.take(cursor_after(s, k) as int)).len() == k
        },
        k > digits_of(s).len() ==> cursor_after(s, k) == s.len(),
    decreases s.len(),
{
    lemma_digits_before_cursor_after(s, k);
    if s.len() > 0 && k > 0 {
        let r = s.drop_first();
        assert(number_text(r)) by {
            assert forall|i: int| 0 <= i < r.len() implies is_digit(#[trigger] r[i]) || r[i] == SEP by {
                assert(r[i] == s[i + 1]);
            }
        }
        lemma_first_char_split(s);
        assert(!is_digit(SEP));
        assert(is_digit(s[0]) || s[0] == SEP);
        if s[0] == SEP {
            lemma_cursor_after_digit(r, k);
            if 0 < k <= digits_of(s).len() {
                assert(s[cursor_after(s, k) - 1] == r[cursor_after(r, k) - 1]);
            }
        } else {
            lemma_cursor_after_digit(r, (k - 1) as nat);
            if 1 < k <= digits_of(s).len() {
                assert(s[cursor_after(s, k) - 1] == r[cursor_after(r, (k - 1) as nat) - 1]);
            }
        }
    } else if s.len() == 0 {
        assert(digits_of(s).len() == 0);
    }
}

/// The first '.' of a text: the index of a '.' with none before it, or
/// nothing when the text has no '.'.
pub proof fn lemma_first_dot_is_first(s: Seq<char>)
    ensures
        first_dot(s) matches Some(k) ==> 0 <= k < s.len() && s[k] == '.' && forall|j: int|
            0 <= j < k ==> s[j] != '.',
        first_dot(s) is None ==> forall|j: int| 0 <= j < s.len() ==> s[j] != '.',
    decreases s.len(),
{
    if s.len() > 0 {
        lemma_first_dot_is_first(s.drop_first());
        assert forall|j: int| 1 <= j < s.len() implies s[j] == s.drop_first()[j - 1] by {}
    }
}

/// How many separators `s` holds.
pub open spec fn separator_count(s: Seq<char>) -> nat {
    s.filter(|c: char| c == SEP).len()
}

proof fn lemma_separator_count(s: Seq<char>)
    ensures
        s.len() == without_sep(s).len() + separator_count(s),
    decreases s.len(),
{
    reveal_with_fuel(Seq::filter, 1);
    if s.len() > 0 {
        lemma_separator_count(s.drop_last());
    }
}

/// An edit that looks like a separator deletion left every other char as
/// it was, in order, and one separator fewer.
pub proof fn lemma_separator_deletion_shape(before: Seq<char>, raw: Seq<char>)
    requires
        only_separator_removed(before, raw),
    ensures
        raw.filter(|c: char| c != SEP) == before.filter(|c: char| c != SEP),
        separator_count(raw) + 1 == separator_count(before),
{
    lemma_digits_and_separators_filter(raw);
    lemma_digits_and_separators_filter(before);
    lemma_separator_count(raw);
    lemma_separator_count(before);
}

} // verus!
