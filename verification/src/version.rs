//! Version triples, read from text of the shape `major.minor.patch`.
//!
//! The text may carry surrounding ASCII whitespace; each part is a
//! decimal numeral, optionally with a leading plus sign, that must fit
//! an unsigned 32-bit value.

use vstd::prelude::*;

verus! {

pub const CH_DOT: u8 = 46;
pub const CH_PLUS: u8 = 43;

/// A parsed version triple.
#[derive(Clone, Copy, Debug, PartialEq, Eq, Structural)]
pub struct Version {
    pub major: u32,
    pub minor: u32,
    pub patch: u32,
}

/// Why a text failed to parse as a version.
#[derive(Clone, Copy, Debug, PartialEq, Eq, Structural)]
pub enum VersionError {
    /// Not exactly three dot-separated parts.
    Format,
    InvalidMajor,
    InvalidMinor,
    InvalidPatch,
}

impl VersionError {
    /// The human-readable account of the failure.
    pub fn describe(&self) -> (r: &'static str)
        ensures
            r@ == match self {
                VersionError::Format => "Version must be in format 'major.minor.patch'"@,
                VersionError::InvalidMajor => "Invalid major version"@,
                VersionError::InvalidMinor => "Invalid minor version"@,
                VersionError::InvalidPatch => "Invalid patch version"@,
            },
    {
        match self {
            VersionError::Format => "Version must be in format 'major.minor.patch'",
            VersionError::InvalidMajor => "Invalid major version",
            VersionError::InvalidMinor => "Invalid minor version",
            VersionError::InvalidPatch => "Invalid patch version",
        }
    }
}

/// ASCII whitespace, as trimming removes it.
pub open spec fn is_ascii_ws(b: u8) -> bool {
    b == 9 || b == 10 || b == 11 || b == 12 || b == 13 || b == 32
}

pub open spec fn is_digit(b: u8) -> bool {
    48 <= b <= 57
}

pub open spec fn trim_start(s: Seq<u8>) -> Seq<u8>
    decreases s.len(),
{
    if s.len() > 0 && is_ascii_ws(s[0]) {
        trim_start(s.drop_first())
    } else {
        s
    }
}

pub open spec fn trim_end(s: Seq<u8>) -> Seq<u8>
    decreases s.len(),
{
    if s.len() > 0 && is_ascii_ws(s.last()) {
        trim_end(s.drop_last())
    } else {
        s
    }
}

/// The text without surrounding ASCII whitespace.
pub open spec fn trimmed(s: Seq<u8>) -> Seq<u8> {
    trim_end(trim_start(s))
}

/// How many dots the text holds.
pub open spec fn dot_count(s: Seq<u8>) -> int
    decreases s.len(),
{
    if s.len() == 0 {
        0
    } else {
        (if s[0] == CH_DOT {
            1int
        } else {
            0int
        }) + dot_count(s.drop_first())
    }
}

/// The part before the first dot; the whole text without one.
pub open spec fn upto_dot(s: Seq<u8>) -> Seq<u8>
    decreases s.len(),
{
    if s.len() == 0 {
        Seq::empty()
    } else if s[0] == CH_DOT {
        Seq::empty()
    } else {
        seq![s[0]] + upto_dot(s.drop_first())
    }
}

/// Everything behind the first dot; empty without one.
pub open spec fn after_dot(s: Seq<u8>) -> Seq<u8>
    decreases s.len(),
{
    if s.len() == 0 {
        Seq::empty()
    } else if s[0] == CH_DOT {
        s.drop_first()
    } else {
        after_dot(s.drop_first())
    }
}

/// The digits of a numeral: a leading plus sign is dropped.
pub open spec fn digits_of(s: Seq<u8>) -> Seq<u8> {
    if s.len() > 0 && s[0] == CH_PLUS {
        s.drop_first()
    } else {
        s
    }
}

pub open spec fn all_digits(s: Seq<u8>) -> bool {
    forall|i: int| 0 <= i < s.len() ==> is_digit(#[trigger] s[i])
}

/// The value a digit string denotes.
pub open spec fn dec_val(s: Seq<u8>) -> int
    decreases s.len(),
{
    if s.len() == 0 {
        0
    } else {
        dec_val(s.drop_last()) * 10 + (s.last() - 48)
    }
}

/// A numeral that fits an unsigned 32-bit value.
pub open spec fn is_u32_numeral(s: Seq<u8>) -> bool {
    let d = digits_of(s);
    d.len() > 0 && all_digits(d) && dec_val(d) <= u32::MAX
}

/// The three dot-separated parts of the trimmed text.
pub open spec fn version_parts(s: Seq<u8>) -> (Seq<u8>, Seq<u8>, Seq<u8>) {
    let t = trimmed(s);
    (upto_dot(t), upto_dot(after_dot(t)), after_dot(after_dot(t)))
}

// ---------------------------------------------------------------------
// Lemmas tying the recursive text functions to index arithmetic.

proof fn lemma_trim_start_at(s: Seq<u8>, k: int)
    requires
        0 <= k <= s.len(),
        forall|j: int| 0 <= j < k ==> is_ascii_ws(#[trigger] s[j]),
        k < s.len() ==> !is_ascii_ws(s[k]),
    ensures
        trim_start(s) == s.skip(k),
    decreases k,
{
    if k == 0 {
        assert(s.skip(0) =~= s);
    } else {
        assert(is_ascii_ws(s[0]));
        lemma_trim_start_at(s.drop_first(), k - 1);
        assert(s.drop_first().skip(k - 1) =~= s.skip(k));
    }
}

proof fn lemma_trim_end_at(s: Seq<u8>, k: int)
    requires
        0 <= k <= s.len(),
        forall|j: int| k <= j < s.len() ==> is_ascii_ws(#[trigger] s[j]),
        k > 0 ==> !is_ascii_ws(s[k - 1]),
    ensures
        trim_end(s) == s.take(k),
    decreases s.len(),
{
    if s.len() == 0 {
        assert(s.take(0) =~= s);
    } else if k == s.len() {
        assert(s.take(k) =~= s);
    } else {
        assert(is_ascii_ws(s.last()));
        lemma_trim_end_at(s.drop_last(), k);
        assert(s.drop_last().take(k) =~= s.take(k));
    }
}

/// Appending one byte raises the dot count by one exactly for a dot.
proof fn lemma_dot_count_snoc(s: Seq<u8>, x: u8)
    ensures
        dot_count(s.push(x)) == dot_count(s) + (if x == CH_DOT {
            1int
        } else {
            0int
        }),
    decreases s.len(),
{
    reveal_with_fuel(dot_count, 2);
    if s.len() == 0 {
        assert(s.push(x)[0] == x);
        assert(s.push(x).drop_first() =~= Seq::<u8>::empty());
    } else {
        assert(s.push(x).drop_first() =~= s.drop_first().push(x));
        assert(s.push(x)[0] == s[0]);
        lemma_dot_count_snoc(s.drop_first(), x);
    }
}

/// With the first dot at index `k` (or none at all, `k == s.len()`),
/// the part before it and the rest behind it are plain subranges.
proof fn lemma_split_at_dot(s: Seq<u8>, k: int)
    requires
        0 <= k <= s.len(),
        forall|j: int| 0 <= j < k ==> s[j] != CH_DOT,
        k < s.len() ==> s[k] == CH_DOT,
    ensures
        k == s.len() ==> upto_dot(s) == s && after_dot(s) == Seq::<u8>::empty(),
        k < s.len() ==> upto_dot(s) == s.take(k) && after_dot(s) == s.skip(k + 1),
    decreases k,
{
    if k == 0 {
        if k < s.len() {
            assert(upto_dot(s) =~= s.take(0));
        }
    } else {
        assert(s[0] != CH_DOT);
        lemma_split_at_dot(s.drop_first(), k - 1);
        if k == s.len() {
            assert(seq![s[0]] + s.drop_first() =~= s);
        } else {
            assert(seq![s[0]] + s.drop_first().take(k - 1) =~= s.take(k));
            assert(s.drop_first().skip(k) =~= s.skip(k + 1));
        }
    }
}

proof fn lemma_dec_val_nonneg(s: Seq<u8>)
    requires
        all_digits(s),
    ensures
        dec_val(s) >= 0,
    decreases s.len(),
{
    if s.len() > 0 {
        assert(all_digits(s.drop_last())) by {
            assert(forall|i: int| 0 <= i < s.len() - 1 ==> s.drop_last()[i] == s[i]);
        }
        lemma_dec_val_nonneg(s.drop_last());
        assert(is_digit(s.last()));
    }
}

/// A digit string is worth at least any of its prefixes.
proof fn lemma_dec_val_prefix(s: Seq<u8>, i: int)
    requires
        all_digits(s),
        0 <= i <= s.len(),
    ensures
        dec_val(s.take(i)) <= dec_val(s),
    decreases s.len(),
{
    if i == s.len() {
        assert(s.take(i) =~= s);
    } else {
        assert(all_digits(s.drop_last())) by {
            assert(forall|j: int| 0 <= j < s.len() - 1 ==> s.drop_last()[j] == s[j]);
        }
        lemma_dec_val_prefix(s.drop_last(), i);
        assert(s.drop_last().take(i) =~= s.take(i));
        lemma_dec_val_nonneg(s.drop_last());
        assert(is_digit(s.last()));
        assert(dec_val(s) >= dec_val(s.drop_last()));
    }
}

// ---------------------------------------------------------------------
// Executable parsing.

/// Parses `bytes[from..to]` as one version part.
fn parse_part(bytes: &[u8], from: usize, to: usize) -> (r: Option<u32>)
    requires
        from <= to <= bytes@.len(),
    ensures
        match r {
            Some(v) => {
                &&& is_u32_numeral(bytes@.subrange(from as int, to as int))
                &&& v == dec_val(digits_of(bytes@.subrange(from as int, to as int)))
            },
            None => !is_u32_numeral(bytes@.subrange(from as int, to as int)),
        },
{
    let ghost part = bytes@.subrange(from as int, to as int);
    if from == to {
        return None;
    }
    let start: usize = if bytes[from] == CH_PLUS {
        from + 1
    } else {
        from
    };
    let ghost digits = bytes@.subrange(start as int, to as int);
    proof {
        if bytes@[from as int] == CH_PLUS {
            assert(part[0] == CH_PLUS);
            assert(digits_of(part) =~= digits);
        } else {
            assert(digits_of(part) =~= digits);
        }
    }
    if start == to {
        proof {
            assert(digits_of(part).len() == 0);
        }
        return None;
    }
    let mut val: u64 = 0;
    let mut j: usize = start;
    while j < to
        invariant
            from <= start <= j <= to <= bytes@.len(),
            part == bytes@.subrange(from as int, to as int),
            digits == bytes@.subrange(start as int, to as int),
            digits_of(part) == digits,
            all_digits(digits.take(j - start)),
            val == dec_val(digits.take(j - start)),
            val <= u32::MAX,
        decreases to - j,
    {
        let b = bytes[j];
        proof {
            assert(digits[j - start] == bytes@[j as int]);
        }
        if b < 48 || b > 57 {
            proof {
                assert(!is_digit(digits[j - start]));
            }
            return None;
        }
        let d = (b - 48) as u64;
        let next: u64 = val * 10 + d;
        proof {
            assert(digits.take(j - start + 1).drop_last() =~= digits.take(j - start));
            assert(digits.take(j - start + 1).last() == digits[j - start]);
            assert(next == dec_val(digits.take(j - start + 1)));
            assert(all_digits(digits.take(j - start + 1))) by {
                assert(forall|i: int| 0 <= i < j - start
                    ==> #[trigger] digits.take(j - start + 1)[i] == digits.take(j - start)[i]);
            }
        }
        if next > 0xFFFF_FFFF {
            // Either a later byte is no digit, or the full value only
            // grows beyond this overflowing prefix: no numeral either way.
            proof {
                if all_digits(digits) {
                    lemma_dec_val_prefix(digits, j - start + 1);
                }
            }
            return None;
        }
        val = next;
        j = j + 1;
    }
    proof {
        assert(digits.take(to - start) =~= digits);
    }
    Some(val as u32)
}

/// ASCII whitespace test, the executable twin of [`is_ascii_ws`].
fn ws_byte(b: u8) -> (r: bool)
    ensures
        r == is_ascii_ws(b),
{
    b == 9 || b == 10 || b == 11 || b == 12 || b == 13 || b == 32
}

impl Version {
    /// Reads a version from text of the shape `major.minor.patch`:
    /// surrounding whitespace is dropped, exactly three dot-separated
    /// parts must remain, and each must be a decimal numeral fitting
    /// 32 bits. Each failure names the first part that is to blame.
    pub fn try_from(value: &[u8]) -> (r: Result<Version, VersionError>)
        ensures
            ({
                let t = trimmed(value@);
                let parts = version_parts(value@);
                match r {
                    Ok(v) => {
                        &&& dot_count(t) == 2
                        &&& is_u32_numeral(parts.0) && v.major == dec_val(digits_of(parts.0))
                        &&& is_u32_numeral(parts.1) && v.minor == dec_val(digits_of(parts.1))
                        &&& is_u32_numeral(parts.2) && v.patch == dec_val(digits_of(parts.2))
                    },
                    Err(VersionError::Format) => dot_count(t) != 2,
                    Err(VersionError::InvalidMajor) => dot_count(t) == 2 && !is_u32_numeral(
                        parts.0,
                    ),
                    Err(VersionError::InvalidMinor) => dot_count(t) == 2 && is_u32_numeral(
                        parts.0,
                    ) && !is_u32_numeral(parts.1),
                    Err(VersionError::InvalidPatch) => dot_count(t) == 2 && is_u32_numeral(
                        parts.0,
                    ) && is_u32_numeral(parts.1) && !is_u32_numeral(parts.2),
                }
            }),
    {
        let n = value.len();
        let mut lo: usize = 0;
        while lo < n && ws_byte(value[lo])
            invariant
                n == value@.len(),
                lo <= n,
                forall|j: int| 0 <= j < lo ==> is_ascii_ws(#[trigger] value@[j]),
            decreases n - lo,
        {
            lo = lo + 1;
        }
        let mut hi: usize = n;
        while hi > lo && ws_byte(value[hi - 1])
            invariant
                n == value@.len(),
                lo <= hi <= n,
                forall|j: int| 0 <= j < lo ==> is_ascii_ws(#[trigger] value@[j]),
                forall|j: int| hi <= j < n ==> is_ascii_ws(#[trigger] value@[j]),
            decreases hi,
        {
            hi = hi - 1;
        }
        let ghost t = trimmed(value@);
        proof {
            lemma_trim_start_at(value@, lo as int);
            lemma_trim_end_at(value@.skip(lo as int), hi - lo);
            assert(forall|j: int| hi - lo <= j < value@.skip(lo as int).len()
                ==> is_ascii_ws(#[trigger] value@.skip(lo as int)[j]));
            assert(t == value@.skip(lo as int).take(hi - lo));
            assert(t =~= value@.subrange(lo as int, hi as int));
        }
        let mut cnt: usize = 0;
        let mut d1: usize = 0;
        let mut d2: usize = 0;
        let mut i: usize = lo;
        while i < hi
            invariant
                n == value@.len(),
                lo <= i <= hi <= n,
                t == value@.subrange(lo as int, hi as int),
                cnt <= i,
                cnt == dot_count(t.take(i - lo)),
                cnt == 0 ==> forall|j: int| lo <= j < i ==> value@[j] != CH_DOT,
                cnt >= 1 ==> lo <= d1 < i && value@[d1 as int] == CH_DOT,
                cnt >= 1 ==> forall|j: int| lo <= j < d1 ==> value@[j] != CH_DOT,
                cnt == 1 ==> forall|j: int| d1 < j < i ==> value@[j] != CH_DOT,
                cnt >= 2 ==> d1 < d2 < i && value@[d2 as int] == CH_DOT,
                cnt >= 2 ==> forall|j: int| d1 < j < d2 ==> value@[j] != CH_DOT,
                cnt == 2 ==> forall|j: int| d2 < j < i ==> value@[j] != CH_DOT,
            decreases hi - i,
        {
            proof {
                lemma_dot_count_snoc(t.take(i - lo), t[i - lo]);
                assert(t.take(i - lo).push(t[i - lo]) =~= t.take(i - lo + 1));
                assert(t[i - lo] == value@[i as int]);
            }
            if value[i] == CH_DOT {
                if cnt == 0 {
                    d1 = i;
                } else if cnt == 1 {
                    d2 = i;
                }
                cnt = cnt + 1;
            }
            i = i + 1;
        }
        proof {
            assert(t.take(hi - lo) =~= t);
        }
        if cnt != 2 {
            return Err(VersionError::Format);
        }
        proof {
            assert forall|j: int| 0 <= j < d1 - lo implies t[j] != CH_DOT by {
                assert(t[j] == value@[lo + j]);
            }
            assert(t[d1 - lo] == value@[d1 as int]);
            lemma_split_at_dot(t, d1 - lo);
            assert(upto_dot(t) =~= value@.subrange(lo as int, d1 as int));
            let rest = after_dot(t);
            assert(rest == t.skip(d1 - lo + 1));
            assert(rest =~= value@.subrange(d1 + 1, hi as int));
            assert forall|j: int| 0 <= j < d2 - d1 - 1 implies rest[j] != CH_DOT by {
                assert(rest[j] == value@[d1 + 1 + j]);
            }
            assert(rest[d2 - d1 - 1] == value@[d2 as int]);
            lemma_split_at_dot(rest, d2 - d1 - 1);
            assert(upto_dot(rest) =~= value@.subrange(d1 + 1, d2 as int));
            assert(after_dot(rest) == rest.skip(d2 - d1));
            assert(after_dot(rest) =~= value@.subrange(d2 + 1, hi as int));
        }
        let major = match parse_part(value, lo, d1) {
            Some(v) => v,
            None => {
                return Err(VersionError::InvalidMajor);
            },
        };
        let minor = match parse_part(value, d1 + 1, d2) {
            Some(v) => v,
            None => {
                return Err(VersionError::InvalidMinor);
            },
        };
        let patch = match parse_part(value, d2 + 1, hi) {
            Some(v) => v,
            None => {
                return Err(VersionError::InvalidPatch);
            },
        };
        Ok(Version { major, minor, patch })
    }
}

/// The decimal rendering of a non-negative number, no sign, no zeros
/// padded.
pub open spec fn dec_rep(n: int) -> Seq<u8>
    recommends
        n >= 0,
    decreases n,
{
    if n < 10 {
        seq![(n + 48) as u8]
    } else {
        dec_rep(n / 10).push((n % 10 + 48) as u8)
    }
}

/// The text `to_text` renders: `major.minor.patch`.
pub open spec fn spec_version_text(v: Version) -> Seq<u8> {
    dec_rep(v.major as int) + seq![CH_DOT] + dec_rep(v.minor as int) + seq![CH_DOT]
        + dec_rep(v.patch as int)
}

/// A decimal rendering is a nonempty string of plain digits.
proof fn lemma_dec_rep_digits(n: int)
    requires
        n >= 0,
    ensures
        dec_rep(n).len() > 0,
        all_digits(dec_rep(n)),
        dec_rep(n)[0] != CH_PLUS,
        forall|j: int| 0 <= j < dec_rep(n).len() ==> #[trigger] dec_rep(n)[j] != CH_DOT,
        forall|j: int| 0 <= j < dec_rep(n).len() ==> !is_ascii_ws(#[trigger] dec_rep(n)[j]),
    decreases n,
{
    if n >= 10 {
        lemma_dec_rep_digits(n / 10);
        assert(forall|j: int| 0 <= j < dec_rep(n).len() - 1
            ==> #[trigger] dec_rep(n)[j] == dec_rep(n / 10)[j]);
    }
}

/// Rendering and evaluating are inverse.
proof fn lemma_dec_rep_val(n: int)
    requires
        n >= 0,
    ensures
        dec_val(dec_rep(n)) == n,
    decreases n,
{
    reveal_with_fuel(dec_val, 2);
    if n < 10 {
        assert(dec_rep(n).drop_last() =~= Seq::<u8>::empty());
    } else {
        lemma_dec_rep_val(n / 10);
        assert(dec_rep(n).drop_last() =~= dec_rep(n / 10));
        vstd::arithmetic::div_mod::lemma_fundamental_div_mod(n, 10);
    }
}

/// A text without a dot counts none.
proof fn lemma_dot_count_zero(s: Seq<u8>)
    requires
        forall|j: int| 0 <= j < s.len() ==> #[trigger] s[j] != CH_DOT,
    ensures
        dot_count(s) == 0,
    decreases s.len(),
{
    if s.len() > 0 {
        assert(forall|j: int| 0 <= j < s.len() - 1
            ==> #[trigger] s.drop_first()[j] == s[j + 1]);
        lemma_dot_count_zero(s.drop_first());
    }
}

/// Dot counts add over concatenation.
proof fn lemma_dot_count_add(a: Seq<u8>, b: Seq<u8>)
    ensures
        dot_count(a + b) == dot_count(a) + dot_count(b),
    decreases a.len(),
{
    if a.len() == 0 {
        assert(a + b =~= b);
    } else {
        assert((a + b)[0] == a[0]);
        assert((a + b).drop_first() =~= a.drop_first() + b);
        lemma_dot_count_add(a.drop_first(), b);
    }
}

/// Appends the decimal rendering of a number.
fn push_decimal(out: &mut Vec<u8>, n: u32)
    ensures
        final(out)@ == old(out)@ + dec_rep(n as int),
    decreases n,
{
    if n < 10 {
        out.push((n + 48) as u8);
        proof {
            assert(final(out)@ =~= old(out)@ + dec_rep(n as int));
        }
    } else {
        push_decimal(out, n / 10);
        out.push(((n % 10) + 48) as u8);
        proof {
            assert(final(out)@ =~= old(out)@ + dec_rep(n as int));
        }
    }
}

impl Version {
    /// Renders the version as `major.minor.patch`, in UTF-8 bytes.
    pub fn to_text(&self) -> (r: Vec<u8>)
        ensures
            r@ == spec_version_text(*self),
    {
        let mut out: Vec<u8> = Vec::new();
        push_decimal(&mut out, self.major);
        out.push(CH_DOT);
        push_decimal(&mut out, self.minor);
        out.push(CH_DOT);
        push_decimal(&mut out, self.patch);
        proof {
            assert(out@ =~= spec_version_text(*self));
        }
        out
    }
}

/// Rendering a version and reading the text back yields the version:
/// the rendered text meets exactly the conditions under which
/// `Version::try_from` succeeds, with the original three numbers.
#[verifier::spinoff_prover]
#[verifier::rlimit(100)]
pub proof fn lemma_version_text_round_trip(v: Version)
    ensures
        ({
            let text = spec_version_text(v);
            let parts = version_parts(text);
            &&& trimmed(text) == text
            &&& dot_count(text) == 2
            &&& is_u32_numeral(parts.0) && dec_val(digits_of(parts.0)) == v.major
            &&& is_u32_numeral(parts.1) && dec_val(digits_of(parts.1)) == v.minor
            &&& is_u32_numeral(parts.2) && dec_val(digits_of(parts.2)) == v.patch
        }),
{
    let a = dec_rep(v.major as int);
    let b = dec_rep(v.minor as int);
    let c = dec_rep(v.patch as int);
    let text = spec_version_text(v);
    lemma_dec_rep_digits(v.major as int);
    lemma_dec_rep_digits(v.minor as int);
    lemma_dec_rep_digits(v.patch as int);
    lemma_dec_rep_val(v.major as int);
    lemma_dec_rep_val(v.minor as int);
    lemma_dec_rep_val(v.patch as int);
    // No whitespace at either end: nothing is trimmed.
    assert(text[0] == a[0]);
    assert(text.last() == c.last());
    assert(trim_start(text) == text);
    assert(trim_end(text) == text);
    // Exactly the two separating dots.
    lemma_dot_count_zero(a);
    lemma_dot_count_zero(b);
    lemma_dot_count_zero(c);
    assert(text =~= a + (seq![CH_DOT] + (b + (seq![CH_DOT] + c))));
    lemma_dot_count_add(a, seq![CH_DOT] + (b + (seq![CH_DOT] + c)));
    lemma_dot_count_add(seq![CH_DOT], b + (seq![CH_DOT] + c));
    lemma_dot_count_add(b, seq![CH_DOT] + c);
    lemma_dot_count_add(seq![CH_DOT], c);
    reveal_with_fuel(dot_count, 2);
    assert(dot_count(seq![CH_DOT]) == 1) by {
        assert(seq![CH_DOT].drop_first() =~= Seq::<u8>::empty());
    }
    assert(dot_count(text) == 2);
    // The first dot splits off the major part.
    assert forall|j: int| 0 <= j < a.len() implies text[j] != CH_DOT by {
        assert(text[j] == a[j]);
    }
    assert(text[a.len() as int] == CH_DOT);
    lemma_split_at_dot(text, a.len() as int);
    assert(upto_dot(text) =~= a);
    let rest = after_dot(text);
    assert(rest =~= b + seq![CH_DOT] + c) by {
        assert(rest == text.skip(a.len() as int + 1));
    }
    // The second dot splits minor from patch.
    assert forall|j: int| 0 <= j < b.len() implies rest[j] != CH_DOT by {
        assert(rest[j] == b[j]);
    }
    assert(rest[b.len() as int] == CH_DOT);
    lemma_split_at_dot(rest, b.len() as int);
    assert(upto_dot(rest) =~= b);
    assert(after_dot(rest) =~= c) by {
        assert(after_dot(rest) == rest.skip(b.len() as int + 1));
    }
    assert(digits_of(a) == a);
    assert(digits_of(b) == b);
    assert(digits_of(c) == c);
}

} // verus!
