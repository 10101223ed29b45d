//! Byte-level scanning primitives the payload extractor is built from:
//! substring search, backslash stripping, and digit runs, each with an exact
//! sequence-level specification.

use vstd::prelude::*;

verus! {

/// Backslash, the escape character the transport wraps payloads with.
pub const BACKSLASH: u8 = 92;

/// `pat` occurs in `s` starting at index `i`.
pub open spec fn matches_at(s: Seq<u8>, pat: Seq<u8>, i: int) -> bool {
    0 <= i && i + pat.len() <= s.len() && (forall|k: int|
        0 <= k < pat.len() ==> s[i + k] == pat[k])
}

/// Index of the first occurrence of `pat` in `s` at or after `from`.
pub open spec fn find_from(s: Seq<u8>, pat: Seq<u8>, from: int) -> Option<int>
    decreases s.len() - from,
{
    if from + pat.len() > s.len() {
        None
    } else if matches_at(s, pat, from) {
        Some(from)
    } else {
        find_from(s, pat, from + 1)
    }
}

/// A found occurrence matches, and nothing between `from` and it does.
pub proof fn lemma_find_from_first(s: Seq<u8>, pat: Seq<u8>, from: int)
    ensures
        match find_from(s, pat, from) {
            Some(i) => from <= i && matches_at(s, pat, i) && (forall|j: int|
                from <= j < i ==> !matches_at(s, pat, j)),
            None => forall|j: int| j >= from ==> !matches_at(s, pat, j),
        },
    decreases s.len() - from,
{
    if from + pat.len() > s.len() {
    } else if matches_at(s, pat, from) {
    } else {
        lemma_find_from_first(s, pat, from + 1);
    }
}

/// Skipping a region without an occurrence does not move the first one.
pub proof fn lemma_find_from_skip(s: Seq<u8>, pat: Seq<u8>, from: int, to: int)
    requires
        from <= to,
        forall|j: int| from <= j < to ==> !matches_at(s, pat, j),
    ensures
        find_from(s, pat, from) == find_from(s, pat, to),
    decreases to - from,
{
    if from < to {
        assert(!matches_at(s, pat, from));
        lemma_find_from_skip(s, pat, from + 1, to);
    }
}

/// `s` with every backslash removed, the other bytes kept in order.
pub open spec fn strip_backslashes_spec(s: Seq<u8>) -> Seq<u8>
    decreases s.len(),
{
    if s.len() == 0 {
        Seq::empty()
    } else if s.last() == BACKSLASH {
        strip_backslashes_spec(s.drop_last())
    } else {
        strip_backslashes_spec(s.drop_last()).push(s.last())
    }
}

/// Stripping distributes over concatenation.
pub proof fn lemma_strip_concat(a: Seq<u8>, b: Seq<u8>)
    ensures
        strip_backslashes_spec(a + b) == strip_backslashes_spec(a) + strip_backslashes_spec(b),
    decreases b.len(),
{
    if b.len() == 0 {
        assert(a + b =~= a);
        assert(strip_backslashes_spec(a) + Seq::<u8>::empty() =~= strip_backslashes_spec(a));
    } else {
        lemma_strip_concat(a, b.drop_last());
        assert((a + b).drop_last() =~= a + b.drop_last());
        assert((a + b).last() == b.last());
    }
}

/// A sequence without backslashes is unchanged by stripping.
pub proof fn lemma_strip_clean(s: Seq<u8>)
    requires
        forall|i: int| 0 <= i < s.len() ==> s[i] != BACKSLASH,
    ensures
        strip_backslashes_spec(s) == s,
    decreases s.len(),
{
    if s.len() > 0 {
        lemma_strip_clean(s.drop_last());
        assert(strip_backslashes_spec(s.drop_last()).push(s.last()) =~= s);
    }
}

/// Removes every backslash byte, keeping the rest in order.
pub fn strip_backslashes(s: &Vec<u8>) -> (out: Vec<u8>)
    ensures
        out@ == strip_backslashes_spec(s@),
{
    let mut out: Vec<u8> = Vec::new();
    let mut i: usize = 0;
    while i < s.len()
        invariant
            i <= s@.len(),
            out@ == strip_backslashes_spec(s@.subrange(0, i as int)),
        decreases s@.len() - i,
    {
        proof {
            let pre = s@.subrange(0, i as int + 1);
            assert(pre.drop_last() =~= s@.subrange(0, i as int));
            assert(pre.last() == s@[i as int]);
        }
        if s[i] != BACKSLASH {
            out.push(s[i]);
        }
        i += 1;
    }
    proof {
        assert(s@.subrange(0, s@.len() as int) =~= s@);
    }
    out
}

/// Naive substring search: the first occurrence of `pat` at or after `from`.
pub fn find_pattern(s: &Vec<u8>, pat: &Vec<u8>, from: usize) -> (r: Option<usize>)
    requires
        pat@.len() >= 1,
    ensures
        match r {
            Some(i) => from <= i && Some(i as int) == find_from(s@, pat@, from as int),
            None => find_from(s@, pat@, from as int) is None,
        },
{
    let n: usize = s.len();
    let m: usize = pat.len();
    let mut i: usize = from;
    loop
        invariant
            from <= i,
            n == s@.len(),
            m == pat@.len(),
            m >= 1,
            find_from(s@, pat@, from as int) == find_from(s@, pat@, i as int),
        decreases s@.len() + pat@.len() - i,
    {
        if i >= n || n - i < m {
            return None;
        }
        let mut k: usize = 0;
        let mut hit = true;
        while k < m
            invariant
                n == s@.len(),
                m == pat@.len(),
                i + m <= n,
                k <= m,
                hit ==> forall|t: int| 0 <= t < k ==> s@[i + t] == pat@[t],
                !hit ==> !matches_at(s@, pat@, i as int),
            decreases m - k,
        {
            if s[i + k] != pat[k] {
                proof {
                    assert(s@[i + k] != pat@[k as int]);
                }
                hit = false;
                k = m;
            } else {
                k += 1;
            }
        }
        if hit {
            assert(matches_at(s@, pat@, i as int));
            return Some(i);
        }
        i += 1;
    }
}

/// The decimal value of a run of ASCII digits, most significant first.
pub open spec fn digits_value(d: Seq<u8>) -> int
    decreases d.len(),
{
    if d.len() == 0 {
        0
    } else {
        digits_value(d.drop_last()) * 10 + (d.last() - 48)
    }
}

/// Every byte of the run is an ASCII digit.
pub open spec fn all_digits(d: Seq<u8>) -> bool {
    forall|i: int| 0 <= i < d.len() ==> 48 <= #[trigger] d[i] <= 57
}

/// Index of the first byte at or after `from` that is not an ASCII digit
/// (the length of `s` when the digits run to the end).
pub open spec fn digit_run_end(s: Seq<u8>, from: int) -> int
    decreases s.len() - from,
{
    if from < 0 || from >= s.len() {
        from
    } else if 48 <= s[from] <= 57 {
        digit_run_end(s, from + 1)
    } else {
        from
    }
}

pub proof fn lemma_digit_run_end(s: Seq<u8>, from: int)
    requires
        0 <= from <= s.len(),
    ensures
        from <= digit_run_end(s, from) <= s.len(),
        forall|i: int| from <= i < digit_run_end(s, from) ==> 48 <= #[trigger] s[i] <= 57,
        digit_run_end(s, from) < s.len() ==> !(48 <= s[digit_run_end(s, from)] <= 57),
    decreases s.len() - from,
{
    if from < s.len() && 48 <= s[from] <= 57 {
        lemma_digit_run_end(s, from + 1);
    }
}

/// A run known to hold digits up to `to`, and to stop there, ends there.
pub proof fn lemma_digit_run_end_exact(s: Seq<u8>, from: int, to: int)
    requires
        0 <= from <= to <= s.len(),
        forall|j: int| from <= j < to ==> 48 <= #[trigger] s[j] <= 57,
        to == s.len() || !(48 <= s[to] <= 57),
    ensures
        digit_run_end(s, from) == to,
    decreases to - from,
{
    if from < to {
        lemma_digit_run_end_exact(s, from + 1, to);
    }
}

/// The value of a digit run is never negative.
pub proof fn lemma_digits_value_nonneg(d: Seq<u8>)
    requires
        all_digits(d),
    ensures
        digits_value(d) >= 0,
    decreases d.len(),
{
    if d.len() > 0 {
        assert(all_digits(d.drop_last()));
        lemma_digits_value_nonneg(d.drop_last());
    }
}

/// The decimal number written at `from`: at least one digit, no leading
/// zero unless the number is the single digit zero, and a value that fits
/// a byte. Anything else is no number.
pub open spec fn number_at_spec(s: Seq<u8>, from: int) -> Option<u8> {
    let end = digit_run_end(s, from);
    if end == from {
        None
    } else if s[from] == 48 && end != from + 1 {
        None
    } else if digits_value(s.subrange(from, end)) > 255 {
        None
    } else {
        Some(digits_value(s.subrange(from, end)) as u8)
    }
}

/// Reads the digit run at `from`: where it ends, and the byte value it
/// writes, if it is a well-formed byte-sized number.
pub fn parse_u8_run(s: &Vec<u8>, from: usize) -> (r: (usize, Option<u8>))
    requires
        from <= s@.len(),
    ensures
        from <= r.0 <= s@.len(),
        r.0 == digit_run_end(s@, from as int),
        r.1 == number_at_spec(s@, from as int),
{
    let n: usize = s.len();
    let mut end: usize = from;
    while end < n && 48 <= s[end] && s[end] <= 57
        invariant
            from <= end <= n,
            n == s@.len(),
            digit_run_end(s@, from as int) == digit_run_end(s@, end as int),
        decreases n - end,
    {
        end += 1;
    }
    proof {
        assert(digit_run_end(s@, end as int) == end);
        lemma_digit_run_end(s@, from as int);
    }
    if end == from {
        return (end, None);
    }
    if s[from] == 48 && end != from + 1 {
        return (end, None);
    }
    let mut acc: u16 = 0;
    let mut i: usize = from;
    while i < end
        invariant
            from <= i <= end <= n,
            n == s@.len(),
            end == digit_run_end(s@, from as int),
            forall|k: int| from <= k < end ==> 48 <= #[trigger] s@[k] <= 57,
            acc <= 300,
            ({
                let dv = digits_value(s@.subrange(from as int, i as int));
                (dv <= 255 ==> acc == dv) && (dv > 255 ==> acc == 300)
            }),
        decreases end - i,
    {
        let dig: u16 = (s[i] - 48) as u16;
        proof {
            let pre = s@.subrange(from as int, i as int);
            let post = s@.subrange(from as int, i as int + 1);
            assert(post.drop_last() =~= pre);
            assert(post.last() == s@[i as int]);
            assert(all_digits(pre));
            lemma_digits_value_nonneg(pre);
        }
        let t: u16 = if acc > 255 {
            300
        } else {
            acc * 10 + dig
        };
        acc = if t > 255 {
            300
        } else {
            t
        };
        i += 1;
    }
    proof {
        lemma_digits_value_nonneg(s@.subrange(from as int, end as int));
    }
    if acc > 255 {
        (end, None)
    } else {
        (end, Some(acc as u8))
    }
}

/// The canonical decimal spelling of a byte value, no leading zeros.
pub open spec fn digits_spec(n: u8) -> Seq<u8> {
    if n >= 100 {
        seq![((48 + n / 100) as u8), ((48 + (n / 10) % 10) as u8), ((48 + n % 10) as u8)]
    } else if n >= 10 {
        seq![((48 + n / 10) as u8), ((48 + n % 10) as u8)]
    } else {
        seq![((48 + n) as u8)]
    }
}

/// The canonical spelling is all digits, reads back to the same value, and
/// starts with a zero only for the value zero itself.
pub proof fn lemma_digits_spec_value(n: u8)
    ensures
        all_digits(digits_spec(n)),
        1 <= digits_spec(n).len() <= 3,
        digits_value(digits_spec(n)) == n,
        digits_spec(n)[0] == 48 ==> n == 0,
{
    let d = digits_spec(n);
    if n >= 100 {
        let a = ((48 + n / 100) as u8);
        let b = ((48 + (n / 10) % 10) as u8);
        let c = ((48 + n % 10) as u8);
        assert(d.drop_last() =~= seq![a, b]);
        assert(seq![a, b].drop_last() =~= seq![a]);
        assert(seq![a].drop_last() =~= Seq::<u8>::empty());
        assert(digits_value(Seq::<u8>::empty()) == 0);
        assert(digits_value(seq![a]) == a - 48);
        assert(digits_value(seq![a, b]) == (a - 48) * 10 + (b - 48));
        assert(digits_value(d) == ((a - 48) * 10 + (b - 48)) * 10 + (c - 48));
        assert((n as int) / 100 * 100 + ((n as int) / 10 % 10) * 10 + (n as int) % 10 == n as int)
            by (nonlinear_arith)
            requires 100 <= n as int <= 255;
    } else if n >= 10 {
        let a = ((48 + n / 10) as u8);
        let b = ((48 + n % 10) as u8);
        assert(d.drop_last() =~= seq![a]);
        assert(seq![a].drop_last() =~= Seq::<u8>::empty());
        assert(digits_value(Seq::<u8>::empty()) == 0);
        assert(digits_value(seq![a]) == a - 48);
        assert(digits_value(d) == (a - 48) * 10 + (b - 48));
        assert((n as int) / 10 * 10 + (n as int) % 10 == n as int) by (nonlinear_arith)
            requires 10 <= n as int <= 99;
    } else {
        assert(d.drop_last() =~= Seq::<u8>::empty());
        assert(digits_value(Seq::<u8>::empty()) == 0);
        assert(digits_value(d) == (48 + n) - 48);
    }
}

/// `s` with a backslash inserted before every double quote, the escaping
/// the transport's debug formatting applies to an embedded payload.
pub open spec fn escape_quotes_spec(s: Seq<u8>) -> Seq<u8>
    decreases s.len(),
{
    if s.len() == 0 {
        Seq::empty()
    } else if s.last() == 34 {
        escape_quotes_spec(s.drop_last()) + seq![BACKSLASH, 34u8]
    } else {
        escape_quotes_spec(s.drop_last()).push(s.last())
    }
}

/// Stripping undoes escaping on text that itself holds no backslash.
pub proof fn lemma_strip_escape(s: Seq<u8>)
    requires
        forall|i: int| 0 <= i < s.len() ==> #[trigger] s[i] != BACKSLASH,
    ensures
        strip_backslashes_spec(escape_quotes_spec(s)) == s,
    decreases s.len(),
{
    if s.len() > 0 {
        lemma_strip_escape(s.drop_last());
        if s.last() == 34 {
            lemma_strip_concat(escape_quotes_spec(s.drop_last()), seq![BACKSLASH, 34u8]);
            assert(seq![BACKSLASH, 34u8].drop_last() =~= seq![BACKSLASH]);
            assert(seq![BACKSLASH].drop_last() =~= Seq::<u8>::empty());
            assert(strip_backslashes_spec(Seq::<u8>::empty()) == Seq::<u8>::empty());
            assert(strip_backslashes_spec(seq![BACKSLASH]) == Seq::<u8>::empty());
            assert(strip_backslashes_spec(seq![BACKSLASH, 34u8]) =~= seq![34u8]);
            assert(s.drop_last() + seq![34u8] =~= s);
        } else {
            let e = escape_quotes_spec(s.drop_last());
            assert(strip_backslashes_spec(e.push(s.last())) == strip_backslashes_spec(
                e.push(s.last()).drop_last(),
            ).push(s.last()));
            assert(e.push(s.last()).drop_last() =~= e);
            assert(strip_backslashes_spec(e).push(s.last()) =~= s);
        }
    }
}

/// Copies `s[a..b]` into a fresh buffer.
pub fn subvec(s: &Vec<u8>, a: usize, b: usize) -> (out: Vec<u8>)
    requires
        a <= b <= s@.len(),
    ensures
        out@ == s@.subrange(a as int, b as int),
{
    let mut out: Vec<u8> = Vec::new();
    let mut i: usize = a;
    while i < b
        invariant
            a <= i <= b <= s@.len(),
            out@.len() == i - a,
            forall|k: int| 0 <= k < out@.len() ==> out@[k] == s@[a + k],
        decreases b - i,
    {
        out.push(s[i]);
        i += 1;
    }
    proof {
        assert(out@ =~= s@.subrange(a as int, b as int));
    }
    out
}

/// Byte-for-byte equality of two buffers.
pub fn bytes_eq(x: &Vec<u8>, y: &Vec<u8>) -> (r: bool)
    ensures
        r == (x@ == y@),
{
    if x.len() != y.len() {
        return false;
    }
    let mut i: usize = 0;
    while i < x.len()
        invariant
            i <= x@.len(),
            x@.len() == y@.len(),
            forall|k: int| 0 <= k < i ==> x@[k] == y@[k],
        decreases x@.len() - i,
    {
        if x[i] != y[i] {
            proof {
                assert(x@[i as int] != y@[i as int]);
            }
            return false;
        }
        i += 1;
    }
    proof {
        assert(x@ =~= y@);
    }
    true
}

/// Whether `pat` occurs in `s` at exactly the given position.
pub fn match_at(s: &Vec<u8>, pat: &Vec<u8>, at: usize) -> (r: bool)
    ensures
        r == matches_at(s@, pat@, at as int),
{
    let n: usize = s.len();
    let m: usize = pat.len();
    if at > n || n - at < m {
        return false;
    }
    let mut k: usize = 0;
    while k < m
        invariant
            n == s@.len(),
            m == pat@.len(),
            at + m <= n,
            k <= m,
            forall|t: int| 0 <= t < k ==> s@[at + t] == pat@[t],
        decreases m - k,
    {
        if s[at + k] != pat[k] {
            proof {
                assert(s@[at + k] != pat@[k as int]);
            }
            return false;
        }
        k += 1;
    }
    true
}


/// A JSON whitespace byte: space, tab, line feed or carriage return.
pub open spec fn is_ws(b: u8) -> bool {
    b == 32 || b == 9 || b == 10 || b == 13
}

/// Index of the first byte at or after `from` that is not whitespace (the
/// length of `s` when whitespace runs to the end).
pub open spec fn skip_ws(s: Seq<u8>, from: int) -> int
    decreases s.len() - from,
{
    if from < 0 || from >= s.len() {
        from
    } else if is_ws(s[from]) {
        skip_ws(s, from + 1)
    } else {
        from
    }
}

pub proof fn lemma_skip_ws(s: Seq<u8>, from: int)
    requires
        0 <= from <= s.len(),
    ensures
        from <= skip_ws(s, from) <= s.len(),
        skip_ws(s, from) < s.len() ==> !is_ws(s[skip_ws(s, from)]),
    decreases s.len() - from,
{
    if from < s.len() && is_ws(s[from]) {
        lemma_skip_ws(s, from + 1);
    }
}

/// Where the whitespace run at `from` ends.
pub fn skip_ws_run(s: &Vec<u8>, from: usize) -> (r: usize)
    requires
        from <= s@.len(),
    ensures
        from <= r <= s@.len(),
        r == skip_ws(s@, from as int),
{
    let n: usize = s.len();
    let mut i: usize = from;
    while i < n && (s[i] == 32 || s[i] == 9 || s[i] == 10 || s[i] == 13)
        invariant
            from <= i <= n,
            n == s@.len(),
            skip_ws(s@, from as int) == skip_ws(s@, i as int),
        decreases n - i,
    {
        i += 1;
    }
    proof {
        assert(skip_ws(s@, i as int) == i);
    }
    i
}

} // verus!
