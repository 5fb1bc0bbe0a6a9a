use vstd::prelude::*;

verus! {

/// Horizontal whitespace inside a line: space, tab, or carriage return.
pub open spec fn is_space(c: char) -> bool {
    c == ' ' || c == '\t' || c == '\r'
}

/// Whitespace including the line separator.
pub open spec fn is_blank(c: char) -> bool {
    is_space(c) || c == '\n'
}

pub fn char_is_space(c: char) -> (r: bool)
    ensures
        r == is_space(c),
{
    c == ' ' || c == '\t' || c == '\r'
}

/// Split on a separator, keeping empty pieces; the empty text is one empty
/// piece, so the result always has one piece more than there are
/// separators.
pub open spec fn spec_split(s: Seq<char>, sep: char) -> Seq<Seq<char>>
    decreases s.len(),
{
    if s.len() == 0 {
        seq![Seq::<char>::empty()]
    } else if s[0] == sep {
        seq![Seq::<char>::empty()] + spec_split(s.drop_first(), sep)
    } else {
        let r = spec_split(s.drop_first(), sep);
        seq![seq![s[0]] + r[0]] + r.drop_first()
    }
}

pub proof fn lemma_split_len(s: Seq<char>, sep: char)
    ensures
        spec_split(s, sep).len() >= 1,
    decreases s.len(),
{
    if s.len() > 0 {
        lemma_split_len(s.drop_first(), sep);
    }
}

/// Reading one whole piece at the front: if the first `j` characters are
/// free of the separator and position `j` holds the separator (or is the
/// end), the split is that prefix followed by the split of the remainder.
pub proof fn lemma_split_prefix(s: Seq<char>, sep: char, j: int)
    requires
        0 <= j <= s.len(),
        forall|k: int| 0 <= k < j ==> s[k] != sep,
        j == s.len() || s[j] == sep,
    ensures
        j == s.len() ==> spec_split(s, sep) == seq![s],
        j < s.len() ==> spec_split(s, sep) == seq![s.take(j)] + spec_split(s.skip(j + 1), sep),
    decreases j,
{
    lemma_split_len(s, sep);
    if j == 0 {
        if j < s.len() {
            assert(s.take(0) =~= Seq::<char>::empty());
            assert(s.skip(1) =~= s.drop_first());
            assert(spec_split(s, sep) =~= seq![s.take(0)] + spec_split(s.skip(1), sep));
        } else {
            assert(s =~= Seq::<char>::empty());
            assert(spec_split(s, sep) =~= seq![s]);
        }
    } else {
        let d = s.drop_first();
        assert forall|k: int| 0 <= k < j - 1 implies d[k] != sep by {
            assert(s[k + 1] != sep);
        }
        lemma_split_prefix(d, sep, j - 1);
        let r = spec_split(d, sep);
        if j == s.len() {
            assert(r == seq![d]);
            assert(seq![s[0]] + r[0] =~= s);
            assert(spec_split(s, sep) =~= seq![s]);
        } else {
            assert(d[j - 1] == sep);
            assert(r == seq![d.take(j - 1)] + spec_split(d.skip(j), sep));
            assert(r[0] == d.take(j - 1));
            assert(seq![s[0]] + d.take(j - 1) =~= s.take(j));
            assert(r.drop_first() =~= spec_split(d.skip(j), sep));
            assert(d.skip(j) =~= s.skip(j + 1));
            assert(spec_split(s, sep) =~= seq![s.take(j)] + spec_split(s.skip(j + 1), sep));
        }
    }
}

/// The whitespace-separated tokens of a line: maximal runs of non-space
/// characters, in order.
pub open spec fn spec_tokens(s: Seq<char>) -> Seq<Seq<char>>
    decreases s.len(),
{
    if s.len() == 0 {
        Seq::<Seq<char>>::empty()
    } else if is_space(s[0]) {
        spec_tokens(s.drop_first())
    } else if s.len() > 1 && !is_space(s[1]) {
        let r = spec_tokens(s.drop_first());
        seq![seq![s[0]] + r[0]] + r.drop_first()
    } else {
        seq![seq![s[0]]] + spec_tokens(s.drop_first())
    }
}

/// Reading one whole token at the front: if the first `j` characters are
/// non-space and position `j` is space (or the end), the tokens are that
/// prefix followed by the tokens of the remainder.
pub proof fn lemma_tokens_prefix(s: Seq<char>, j: int)
    requires
        0 < j <= s.len(),
        forall|k: int| 0 <= k < j ==> !is_space(#[trigger] s[k]),
        j == s.len() || is_space(s[j]),
    ensures
        spec_tokens(s) == seq![s.take(j)] + spec_tokens(s.skip(j)),
    decreases j,
{
    let d = s.drop_first();
    if j == 1 {
        assert(s.take(1) =~= seq![s[0]]);
        assert(s.skip(1) =~= d);
        if s.len() == 1 {
            assert(spec_tokens(s) =~= seq![s.take(1)] + spec_tokens(s.skip(1)));
        } else {
            assert(is_space(s[1]));
            assert(spec_tokens(s) =~= seq![s.take(1)] + spec_tokens(s.skip(1)));
        }
    } else {
        assert(!is_space(s[1]));
        assert forall|k: int| 0 <= k < j - 1 implies !is_space(#[trigger] d[k]) by {
            assert(!is_space(s[k + 1]));
        }
        lemma_tokens_prefix(d, j - 1);
        let r = spec_tokens(d);
        assert(r[0] == d.take(j - 1));
        assert(seq![s[0]] + d.take(j - 1) =~= s.take(j));
        assert(r.drop_first() =~= spec_tokens(d.skip(j - 1)));
        assert(d.skip(j - 1) =~= s.skip(j));
        assert(spec_tokens(s) =~= seq![s.take(j)] + spec_tokens(s.skip(j)));
    }
}

/// Whether `p` occurs in `s` as a contiguous run starting at `k`.
pub open spec fn spec_contains_at(s: Seq<char>, p: Seq<char>, k: int) -> bool {
    0 <= k && k + p.len() <= s.len() && s.subrange(k, k + p.len()) == p
}

/// Whether `p` occurs anywhere in `s`.
pub open spec fn spec_contains(s: Seq<char>, p: Seq<char>) -> bool {
    exists|k: int| spec_contains_at(s, p, k)
}

/// Substring search, by direct comparison at every start position.
pub fn str_contains(s: &str, p: &str) -> (r: bool)
    ensures
        r == spec_contains(s@, p@),
{
    let n = s.unicode_len();
    let m = p.unicode_len();
    if m > n {
        proof {
            assert(forall|k: int| !spec_contains_at(s@, p@, k));
        }
        return false;
    }
    let mut k: usize = 0;
    while k <= n - m
        invariant
            m <= n,
            n == s@.len(),
            m == p@.len(),
            k <= n - m + 1,
            forall|kk: int| 0 <= kk < k ==> !spec_contains_at(s@, p@, kk),
        decreases n - m + 1 - k,
    {
        let mut t: usize = 0;
        let mut found = true;
        while t < m
            invariant
                k + m <= n,
                n == s@.len(),
                m == p@.len(),
                t <= m,
                found <==> (forall|tt: int| 0 <= tt < t ==> s@[k + tt] == p@[tt]),
            decreases m - t,
        {
            let cs = s.get_char(k + t);
            let cp = p.get_char(t);
            if cs != cp {
                found = false;
            }
            t += 1;
        }
        if found {
            proof {
                assert(s@.subrange(k as int, k + m) =~= p@);
                assert(spec_contains_at(s@, p@, k as int));
            }
            return true;
        }
        k += 1;
    }
    proof {
        assert forall|kk: int| !spec_contains_at(s@, p@, kk) by {
            if 0 <= kk && kk + p@.len() <= s@.len() {
                assert(kk < k);
            }
        }
    }
    false
}

/// Decimal digits and their numeric reading.
pub open spec fn is_digit(c: char) -> bool {
    48 <= c as int && c as int <= 57
}

pub open spec fn digit_val(c: char) -> int {
    c as int - 48
}

pub open spec fn all_digits(s: Seq<char>) -> bool {
    forall|i: int| 0 <= i < s.len() ==> is_digit(#[trigger] s[i])
}

/// The number a digit run denotes, most significant digit first.
pub open spec fn digits_val(s: Seq<char>) -> int
    decreases s.len(),
{
    if s.len() == 0 {
        0
    } else {
        digits_val(s.drop_last()) * 10 + digit_val(s.last())
    }
}

pub open spec fn pow10(n: nat) -> int
    decreases n,
{
    if n == 0 {
        1
    } else {
        10 * pow10((n - 1) as nat)
    }
}

/// The number of leading zero characters of a digit run.
pub open spec fn leading_zeros(s: Seq<char>) -> int
    decreases s.len(),
{
    if s.len() == 0 {
        0
    } else if s[0] == '0' {
        1 + leading_zeros(s.drop_first())
    } else {
        0
    }
}

/// Significant digits: what remains after the leading zeros.
pub open spec fn sig_digits(s: Seq<char>) -> int {
    s.len() - leading_zeros(s)
}

/// A digit run is bounded by ten to the power of its length.
pub proof fn lemma_digits_val_bound(s: Seq<char>)
    requires
        all_digits(s),
    ensures
        0 <= digits_val(s) < pow10(s.len()),
    decreases s.len(),
{
    if s.len() > 0 {
        assert(all_digits(s.drop_last())) by {
            assert(forall|i: int|
                0 <= i < s.len() - 1 ==> #[trigger] s.drop_last()[i] == s[i]);
        }
        lemma_digits_val_bound(s.drop_last());
        assert(is_digit(s.last()));
    }
}

/// Dropping one leading zero keeps the value.
proof fn lemma_drop_zero(s: Seq<char>)
    requires
        s.len() > 0,
        s[0] == '0',
    ensures
        digits_val(s.drop_first()) == digits_val(s),
    decreases s.len(),
{
    if s.len() == 1 {
        assert(s.drop_first() =~= Seq::<char>::empty());
        assert(s.drop_last() =~= Seq::<char>::empty());
        assert(digit_val(s.last()) == 0);
    } else {
        let d = s.drop_last();
        assert(d[0] == '0');
        lemma_drop_zero(d);
        assert(s.drop_first().drop_last() =~= d.drop_first());
        assert(s.drop_first().last() == s.last());
    }
}

/// Leading zeros never change the value of a digit run.
pub proof fn lemma_skip_leading_zeros(s: Seq<char>, z: int)
    requires
        0 <= z <= s.len(),
        forall|k: int| 0 <= k < z ==> s[k] == '0',
    ensures
        digits_val(s.skip(z)) == digits_val(s),
    decreases z,
{
    if z > 0 {
        lemma_drop_zero(s);
        assert(s.drop_first().skip(z - 1) =~= s.skip(z));
        assert forall|k: int| 0 <= k < z - 1 implies s.drop_first()[k] == '0' by {
            assert(s[k + 1] == '0');
        }
        lemma_skip_leading_zeros(s.drop_first(), z - 1);
    } else {
        assert(s.skip(0) =~= s);
    }
}

/// A digit run within nineteen significant digits denotes a number below
/// ten to the nineteenth, which fits in 64 bits.
pub proof fn lemma_digits_value_fits(s: Seq<char>)
    requires
        all_digits(s),
        sig_digits(s) <= 19,
    ensures
        0 <= digits_val(s) < 10_000_000_000_000_000_000,
{
    lemma_leading_zeros_le(s);
    let z = leading_zeros(s);
    assert forall|k: int| 0 <= k < z implies s[k] == '0' by {
        lemma_leading_zeros_prefix(s, k);
    }
    lemma_skip_leading_zeros(s, z);
    let d = s.skip(z);
    assert(all_digits(d)) by {
        assert(forall|i: int| 0 <= i < d.len() ==> #[trigger] d[i] == s[i + z]);
    }
    lemma_digits_val_bound(d);
    lemma_pow10_mono(d.len() as nat, 19);
    assert(pow10(19) == 10_000_000_000_000_000_000) by {
        reveal_with_fuel(pow10, 21);
    }
}

/// Every position below the leading-zero count holds a zero.
proof fn lemma_leading_zeros_prefix(s: Seq<char>, k: int)
    requires
        0 <= k < leading_zeros(s),
        leading_zeros(s) <= s.len(),
    ensures
        s[k] == '0',
    decreases k,
{
    lemma_leading_zeros_le(s.drop_first());
    if k > 0 {
        lemma_leading_zeros_prefix(s.drop_first(), k - 1);
    }
}

/// The value of a digit run, or nothing when a non-digit appears or more
/// than nineteen significant digits would overflow the accumulator.
pub open spec fn spec_digits_value(s: Seq<char>) -> Option<u64> {
    if all_digits(s) && sig_digits(s) <= 19 {
        Some(digits_val(s) as u64)
    } else {
        None
    }
}

/// Read the digit run `s[from..to)` of `s` as a number.
pub fn parse_digit_run(s: &str, from: usize, to: usize) -> (r: Option<u64>)
    requires
        from <= to <= s@.len(),
    ensures
        r == spec_digits_value(s@.subrange(from as int, to as int)),
{
    let ghost d = s@.subrange(from as int, to as int);
    // Pass one: every character must be a digit.
    let mut i: usize = from;
    while i < to
        invariant
            from <= i <= to <= s@.len(),
            d == s@.subrange(from as int, to as int),
            forall|k: int| 0 <= k < i - from ==> is_digit(#[trigger] d[k]),
        decreases to - i,
    {
        let c = s.get_char(i);
        let cc = c as u32;
        proof {
            assert(d[i - from as int] == c);
        }
        if cc < 48 || cc > 57 {
            proof {
                assert(d[i - from as int] == c);
                assert(!is_digit(c));
                assert(!all_digits(d));
            }
            return None;
        }
        i += 1;
    }
    proof {
        assert(all_digits(d));
    }
    // Pass two: skip leading zeros.
    let mut z: usize = from;
    let mut zscan = true;
    while zscan && z < to
        invariant
            from <= z <= to,
            to <= s@.len(),
            d == s@.subrange(from as int, to as int),
            forall|k: int| 0 <= k < z - from ==> d[k] == '0',
            !zscan ==> z < to && d[z - from] != '0',
        decreases to - z + (if zscan { 1int } else { 0int }),
    {
        let c = s.get_char(z);
        proof {
            assert(d[z - from as int] == c);
        }
        if c != '0' {
            zscan = false;
        } else {
            z += 1;
        }
    }
    proof {
        assert(leading_zeros(d) >= z - from) by {
            lemma_leading_zeros_at_least(d, z - from as int);
        }
        lemma_leading_zeros_le(d);
        if z < to {
            assert(d[z - from as int] != '0');
            lemma_leading_zeros_at_most(d, z - from as int);
        }
    }
    if to - z > 19 {
        proof {
            assert(sig_digits(d) > 19);
        }
        return None;
    }
    // Pass three: accumulate.
    let mut acc: u64 = 0;
    let mut i2: usize = z;
    proof {
        assert(d.subrange(z - from as int, z - from as int) =~= Seq::<char>::empty());
        reveal_with_fuel(pow10, 21);
    }
    while i2 < to
        invariant
            z <= i2 <= to <= s@.len(),
            from <= z,
            to - z <= 19,
            d == s@.subrange(from as int, to as int),
            all_digits(d),
            acc == digits_val(d.subrange(z - from as int, i2 - from as int)),
            acc < pow10((i2 - z) as nat),
            pow10(19) == 10_000_000_000_000_000_000,
        decreases to - i2,
    {
        let c = s.get_char(i2);
        let cc = c as u32;
        proof {
            assert(d[i2 - from as int] == c);
            assert(is_digit(c));
            let pre = d.subrange(z - from as int, i2 - from as int);
            let post = d.subrange(z - from as int, i2 + 1 - from as int);
            assert(post.drop_last() =~= pre);
            assert(post.last() == c);
            assert(pow10((i2 - z) as nat) <= pow10(18)) by {
                lemma_pow10_mono((i2 - z) as nat, 18);
            }
            assert(pow10(19) == 10 * pow10(18));
            assert(acc * 10 + (cc - 48) < pow10(19));
        }
        acc = acc * 10 + (cc - 48) as u64;
        i2 += 1;
    }
    proof {
        assert(d.subrange(z - from as int, to - from as int) =~= d.skip(z - from as int));
        lemma_skip_leading_zeros(d, z - from as int);
        assert(acc == digits_val(d));
        assert(sig_digits(d) <= 19);
    }
    Some(acc)
}

/// The leading-zero count is at least any all-zero prefix length.
proof fn lemma_leading_zeros_at_least(s: Seq<char>, z: int)
    requires
        0 <= z <= s.len(),
        forall|k: int| 0 <= k < z ==> s[k] == '0',
    ensures
        leading_zeros(s) >= z,
    decreases z,
{
    if z > 0 {
        assert(s[0] == '0');
        assert forall|k: int| 0 <= k < z - 1 implies s.drop_first()[k] == '0' by {
            assert(s[k + 1] == '0');
        }
        lemma_leading_zeros_at_least(s.drop_first(), z - 1);
        assert(leading_zeros(s) == 1 + leading_zeros(s.drop_first()));
    } else {
        lemma_leading_zeros_le(s);
    }
}

/// The leading-zero count stops at the first non-zero character.
proof fn lemma_leading_zeros_at_most(s: Seq<char>, z: int)
    requires
        0 <= z < s.len(),
        s[z] != '0',
    ensures
        leading_zeros(s) <= z,
    decreases z,
{
    if s[0] != '0' {
    } else if z > 0 {
        assert(s.drop_first()[z - 1] != '0');
        lemma_leading_zeros_at_most(s.drop_first(), z - 1);
    }
}

proof fn lemma_leading_zeros_le(s: Seq<char>)
    ensures
        0 <= leading_zeros(s) <= s.len(),
    decreases s.len(),
{
    if s.len() > 0 && s[0] == '0' {
        lemma_leading_zeros_le(s.drop_first());
    }
}

proof fn lemma_pow10_mono(a: nat, b: nat)
    requires
        a <= b,
    ensures
        pow10(a) <= pow10(b),
        pow10(a) >= 1,
    decreases b,
{
    if a == b {
        lemma_pow10_pos(a);
    } else {
        lemma_pow10_mono(a, (b - 1) as nat);
    }
}

proof fn lemma_pow10_pos(n: nat)
    ensures
        pow10(n) >= 1,
    decreases n,
{
    if n > 0 {
        lemma_pow10_pos((n - 1) as nat);
    }
}

/// One past the last character that is not whitespace, or zero when there
/// is none.
pub open spec fn content_end(s: Seq<char>) -> int
    decreases s.len(),
{
    if s.len() == 0 {
        0
    } else if !is_blank(s.last()) {
        s.len() as int
    } else {
        content_end(s.drop_last())
    }
}

/// The first line break at or after position `p`, or the end of the text.
pub open spec fn line_break_after(s: Seq<char>, p: int) -> int
    decreases s.len() - p,
{
    if p < 0 || p >= s.len() {
        s.len() as int
    } else if s[p] == '\n' {
        p
    } else {
        line_break_after(s, p + 1)
    }
}

/// The text with its trailing blank lines removed: everything up to the
/// line break that follows the last non-whitespace character.
pub open spec fn trim_trailing_blank_lines(s: Seq<char>) -> Seq<char> {
    if content_end(s) == 0 {
        Seq::<char>::empty()
    } else {
        s.take(line_break_after(s, content_end(s)))
    }
}

/// Remove trailing blank (whitespace-only) lines from a text.
pub fn trim_trailing_blanks(s: &str) -> (r: String)
    ensures
        r@ == trim_trailing_blank_lines(s@),
{
    let n = s.unicode_len();
    proof {
        assert(s@.take(n as int) =~= s@);
    }
    let mut e: usize = n;
    let mut scanning = true;
    while scanning && e > 0
        invariant
            e <= n,
            n == s@.len(),
            scanning ==> content_end(s@) == content_end(s@.take(e as int)),
            !scanning ==> 0 < e && content_end(s@) == e,
        decreases e + (if scanning { 1int } else { 0int }),
    {
        let c = s.get_char(e - 1);
        if c == ' ' || c == '\t' || c == '\r' || c == '\n' {
            proof {
                assert(s@.take(e as int).drop_last() =~= s@.take(e - 1));
                assert(s@.take(e as int).last() == c);
            }
            e -= 1;
        } else {
            proof {
                assert(s@.take(e as int).last() == c);
                assert(content_end(s@.take(e as int)) == e);
            }
            scanning = false;
        }
    }
    proof {
        if scanning {
            assert(s@.take(0) =~= Seq::<char>::empty());
            assert(content_end(s@) == 0);
        }
    }
    if e == 0 {
        let r = String::new();
        return r;
    }
    let mut q: usize = e;
    let mut qscan = true;
    while qscan && q < n
        invariant
            e <= q <= n,
            n == s@.len(),
            line_break_after(s@, e as int) == line_break_after(s@, q as int),
            !qscan ==> q < n && s@[q as int] == '\n',
        decreases n - q + (if qscan { 1int } else { 0int }),
    {
        let c = s.get_char(q);
        if c == '\n' {
            qscan = false;
        } else {
            q += 1;
        }
    }
    proof {
        assert(line_break_after(s@, e as int) == q);
    }
    let piece = s.substring_char(0, q);
    proof {
        assert(piece@ =~= s@.take(q as int));
    }
    piece.to_owned()
}

} // verus!
