use vstd::prelude::*;
use vstd::string::StringSliceAdditionalSpecFns;

verus! {

/// Width and height of a rendered screen, in pixels.
#[derive(Debug, Copy, Clone, PartialEq, Eq, Structural)]
pub struct ScreenDimensions(pub u32, pub u32);

impl ScreenDimensions {
    /// The dimensions as a plain `(width, height)` pair.
    pub fn tuple(&self) -> (r: (u32, u32))
        ensures
            r == (self.0, self.1),
    {
        let ScreenDimensions(width, height) = *self;
        (width, height)
    }
}

impl Default for ScreenDimensions {
    /// The default screen is 800 by 600 pixels.
    fn default() -> (r: Self)
        ensures
            r == ScreenDimensions(800u32, 600u32),
    {
        ScreenDimensions(800, 600)
    }
}

/// Why a dimension string was rejected.
#[derive(Debug, Copy, Clone, PartialEq, Eq, Structural)]
pub enum DimensionsError {
    /// The string is not two fields separated by a single `x`.
    InvalidFormat,
    /// The field before the `x` is not a decimal 32-bit number.
    InvalidWidth,
    /// The field after the `x` is not a decimal 32-bit number.
    InvalidHeight,
}

impl DimensionsError {
    pub fn message(&self) -> (r: &'static str)
        ensures
            *self == DimensionsError::InvalidFormat ==> r@ == "invalid dimension format"@,
            *self == DimensionsError::InvalidWidth ==> r@ == "invalid width"@,
            *self == DimensionsError::InvalidHeight ==> r@ == "invalid height"@,
    {
        match self {
            DimensionsError::InvalidFormat => "invalid dimension format",
            DimensionsError::InvalidWidth => "invalid width",
            DimensionsError::InvalidHeight => "invalid height",
        }
    }
}

/// An ASCII blank, as trimmed from the ends of the input.
pub open spec fn is_ascii_ws(c: u8) -> bool {
    c == 32 || c == 9 || c == 10 || c == 13
}

/// An ASCII decimal digit.
pub open spec fn is_ascii_digit(c: u8) -> bool {
    48 <= c <= 57
}

/// The bytes with leading blanks removed.
pub open spec fn trim_front(s: Seq<u8>) -> Seq<u8>
    decreases s.len(),
{
    if s.len() > 0 && is_ascii_ws(s[0]) {
        trim_front(s.skip(1))
    } else {
        s
    }
}

/// The bytes with trailing blanks removed.
pub open spec fn trim_back(s: Seq<u8>) -> Seq<u8>
    decreases s.len(),
{
    if s.len() > 0 && is_ascii_ws(s.last()) {
        trim_back(s.drop_last())
    } else {
        s
    }
}

/// The bytes with blanks removed from both ends.
pub open spec fn trim(s: Seq<u8>) -> Seq<u8> {
    trim_back(trim_front(s))
}

/// The number the digit bytes spell in decimal.
pub open spec fn digits_val(s: Seq<u8>) -> int
    decreases s.len(),
{
    if s.len() == 0 {
        0
    } else {
        digits_val(s.drop_last()) * 10 + (s.last() - 48)
    }
}

pub open spec fn all_digits(s: Seq<u8>) -> bool {
    forall|i: int| 0 <= i < s.len() ==> is_ascii_digit(#[trigger] s[i])
}

/// A non-empty run of digits whose value fits a `u32`, as `u32` parsing
/// accepts it.
pub open spec fn valid_u32_digits(s: Seq<u8>) -> bool {
    s.len() > 0 && all_digits(s) && digits_val(s) <= u32::MAX
}

/// `i` is the position of the one and only `x` in `t`.
pub open spec fn single_sep(t: Seq<u8>, i: int) -> bool {
    &&& 0 <= i < t.len()
    &&& t[i] == 120
    &&& forall|j: int| 0 <= j < t.len() && #[trigger] t[j] == 120 ==> j == i
}

/// What parsing a trimmed dimension string yields: the text must be a
/// width and a height in decimal around a single `x`.
pub open spec fn parse_dimensions(t: Seq<u8>) -> Result<ScreenDimensions, DimensionsError> {
    if exists|i: int| single_sep(t, i) {
        let i = choose|i: int| single_sep(t, i);
        let left = t.take(i);
        let right = t.skip(i + 1);
        if !valid_u32_digits(left) {
            Err(DimensionsError::InvalidWidth)
        } else if !valid_u32_digits(right) {
            Err(DimensionsError::InvalidHeight)
        } else {
            Ok(ScreenDimensions(digits_val(left) as u32, digits_val(right) as u32))
        }
    } else {
        Err(DimensionsError::InvalidFormat)
    }
}

/// A run of digits never spells a negative value.
proof fn lemma_digits_val_nonneg(s: Seq<u8>)
    requires
        all_digits(s),
    ensures
        digits_val(s) >= 0,
    decreases s.len(),
{
    if s.len() > 0 {
        assert forall|i: int| 0 <= i < s.drop_last().len() implies is_ascii_digit(
            #[trigger] s.drop_last()[i],
        ) by {
            assert(s.drop_last()[i] == s[i]);
        }
        lemma_digits_val_nonneg(s.drop_last());
    }
}

/// Extending a run of digits never shrinks its value.
proof fn lemma_digits_val_prefix_le(s: Seq<u8>, k: int)
    requires
        all_digits(s),
        0 <= k <= s.len(),
    ensures
        digits_val(s.take(k)) <= digits_val(s),
    decreases s.len(),
{
    if k < s.len() {
        assert forall|i: int| 0 <= i < s.drop_last().len() implies is_ascii_digit(
            #[trigger] s.drop_last()[i],
        ) by {
            assert(s.drop_last()[i] == s[i]);
        }
        lemma_digits_val_prefix_le(s.drop_last(), k);
        assert(s.drop_last().take(k) =~= s.take(k));
        lemma_digits_val_nonneg(s.drop_last());
        assert(is_ascii_digit(s.last()));
    } else {
        assert(s.take(k) =~= s);
    }
}

/// `trim_front` removes exactly the leading blanks.
proof fn lemma_trim_front_index(s: Seq<u8>, lo: int)
    requires
        0 <= lo <= s.len(),
        forall|i: int| 0 <= i < lo ==> is_ascii_ws(#[trigger] s[i]),
        lo == s.len() || !is_ascii_ws(s[lo]),
    ensures
        trim_front(s) == s.skip(lo),
    decreases lo,
{
    if lo == 0 {
        assert(s.skip(0) =~= s);
    } else {
        assert(is_ascii_ws(s[0]));
        assert forall|i: int| 0 <= i < lo - 1 implies is_ascii_ws(#[trigger] s.skip(1)[i]) by {
            assert(s.skip(1)[i] == s[i + 1]);
        }
        lemma_trim_front_index(s.skip(1), lo - 1);
        assert(s.skip(1).skip(lo - 1) =~= s.skip(lo));
    }
}

/// `trim_back` removes exactly the trailing blanks.
proof fn lemma_trim_back_index(s: Seq<u8>, hi: int)
    requires
        0 <= hi <= s.len(),
        forall|i: int| hi <= i < s.len() ==> is_ascii_ws(#[trigger] s[i]),
        hi == 0 || !is_ascii_ws(s[hi - 1]),
    ensures
        trim_back(s) == s.take(hi),
    decreases s.len(),
{
    if hi == s.len() {
        if s.len() > 0 {
            assert(!is_ascii_ws(s.last()));
        }
        assert(s.take(hi) =~= s);
    } else {
        assert(is_ascii_ws(s.last()));
        assert(s.drop_last() =~= s.take(s.len() - 1));
        assert forall|i: int| hi <= i < s.drop_last().len() implies is_ascii_ws(
            #[trigger] s.drop_last()[i],
        ) by {
            assert(s.drop_last()[i] == s[i]);
        }
        lemma_trim_back_index(s.drop_last(), hi);
        assert(s.drop_last().take(hi) =~= s.take(hi));
    }
}

fn is_blank(c: u8) -> (r: bool)
    ensures
        r == is_ascii_ws(c),
{
    c == 32 || c == 9 || c == 10 || c == 13
}

/// Parse the decimal digits of `b` between `from` and `to` as a `u32`.
#[verifier::loop_isolation(false)]
fn parse_u32_segment(b: &[u8], from: usize, to: usize) -> (r: Option<u32>)
    requires
        from <= to <= b@.len(),
    ensures
        match r {
            Some(v) => valid_u32_digits(b@.subrange(from as int, to as int)) && v == digits_val(
                b@.subrange(from as int, to as int),
            ),
            None => !valid_u32_digits(b@.subrange(from as int, to as int)),
        },
{
    let ghost seg = b@.subrange(from as int, to as int);
    if from == to {
        return None;
    }
    let mut acc: u64 = 0;
    let mut i: usize = from;
    while i < to
        invariant
            from <= i <= to,
            acc == digits_val(b@.subrange(from as int, i as int)),
            acc <= u32::MAX,
            forall|j: int| from <= j < i ==> is_ascii_digit(#[trigger] b@[j]),
        decreases to - i,
    {
        let c = b[i];
        if !(48 <= c && c <= 57) {
            proof {
                assert(seg[i - from] == b@[i as int]);
                assert(!all_digits(seg));
            }
            return None;
        }
        proof {
            assert(b@.subrange(from as int, i + 1).drop_last() =~= b@.subrange(
                from as int,
                i as int,
            ));
            assert(b@.subrange(from as int, i + 1).last() == b@[i as int]);
        }
        acc = acc * 10 + ((c - 48) as u64);
        if acc > (u32::MAX as u64) {
            proof {
                let pre = b@.subrange(from as int, i + 1);
                if all_digits(seg) {
                    assert forall|j: int| 0 <= j < pre.len() implies is_ascii_digit(
                        #[trigger] pre[j],
                    ) by {
                        assert(pre[j] == seg[j]);
                    }
                    assert(pre =~= seg.take(i + 1 - from));
                    lemma_digits_val_prefix_le(seg, i + 1 - from);
                }
            }
            return None;
        }
        i = i + 1;
    }
    proof {
        assert(b@.subrange(from as int, to as int) == seg);
        assert forall|j: int| 0 <= j < seg.len() implies is_ascii_digit(#[trigger] seg[j]) by {
            assert(seg[j] == b@[from + j]);
        }
    }
    Some(acc as u32)
}

impl ScreenDimensions {
/// Parse a screen dimension string: optional blanks around
/// `<width>x<height>`, both fields decimal, as in `800x600`.
#[verifier::loop_isolation(false)]
#[verifier::rlimit(30)]
pub fn from_str(s: &str) -> (r: Result<ScreenDimensions, DimensionsError>)
    ensures
        r == parse_dimensions(trim(s.spec_bytes())),
{
    let b = s.as_bytes();
    let n = b.len();
    let mut lo: usize = 0;
    while lo < n && is_blank(b[lo])
        invariant
            lo <= n,
            forall|i: int| 0 <= i < lo ==> is_ascii_ws(#[trigger] b@[i]),
        decreases n - lo,
    {
        lo = lo + 1;
    }
    let mut hi: usize = n;
    while hi > lo && is_blank(b[hi - 1])
        invariant
            lo <= hi <= n,
            forall|i: int| hi <= i < n ==> is_ascii_ws(#[trigger] b@[i]),
        decreases hi,
    {
        hi = hi - 1;
    }
    proof {
        lemma_trim_front_index(b@, lo as int);
        assert forall|i: int| hi - lo <= i < b@.skip(lo as int).len() implies is_ascii_ws(
            #[trigger] b@.skip(lo as int)[i],
        ) by {
            assert(b@.skip(lo as int)[i] == b@[lo + i]);
        }
        if hi > lo {
            assert(b@.skip(lo as int)[hi - lo - 1] == b@[hi - 1]);
        }
        lemma_trim_back_index(b@.skip(lo as int), hi - lo as int);
        assert(trim(b@) =~= b@.subrange(lo as int, hi as int));
    }
    let ghost t = trim(s.spec_bytes());
    let mut sep: usize = 0;
    let mut nsep: usize = 0;
    let mut k: usize = lo;
    while k < hi
        invariant
            lo <= k <= hi,
            nsep == 0 ==> forall|j: int| lo <= j < k ==> (#[trigger] b@[j]) != 120,
            nsep >= 1 ==> lo <= sep < k && b@[sep as int] == 120,
            nsep == 1 ==> forall|j: int| lo <= j < k && (#[trigger] b@[j]) == 120 ==> j == sep,
            nsep >= 2 ==> exists|j: int| lo <= j < k && (#[trigger] b@[j]) == 120 && j != sep,
            nsep <= k,
        decreases hi - k,
    {
        if b[k] == 120 {
            if nsep == 0 {
                sep = k;
            }
            nsep = nsep + 1;
        }
        k = k + 1;
    }
    if nsep != 1 {
        proof {
            assert forall|i: int| !single_sep(t, i) by {
                if 0 <= i < t.len() {
                    assert(t[i] == b@[lo + i]);
                    if nsep == 0 {
                        assert(b@[lo + i] != 120);
                    } else {
                        if t[i] == 120 {
                            let j2 = choose|j: int|
                                lo <= j < k && (#[trigger] b@[j]) == 120 && j != sep;
                            assert(t[sep - lo] == b@[sep as int]);
                            assert(t[j2 - lo] == b@[j2]);
                        }
                    }
                }
            }
        }
        return Err(DimensionsError::InvalidFormat);
    }
    proof {
        assert forall|j: int| 0 <= j < t.len() && #[trigger] t[j] == 120 implies j == sep
            - lo by {
            assert(t[j] == b@[lo + j]);
        }
        assert(t[sep - lo] == b@[sep as int]);
        assert(single_sep(t, sep - lo));
        let i0 = choose|i: int| single_sep(t, i);
        assert(t[i0] == 120);
        assert(i0 == sep - lo);
        assert(t.take(sep - lo) =~= b@.subrange(lo as int, sep as int));
        assert(t.skip(sep - lo + 1) =~= b@.subrange(sep + 1, hi as int));
    }
    let width = parse_u32_segment(b, lo, sep);
    match width {
        None => Err(DimensionsError::InvalidWidth),
        Some(w) => {
            let height = parse_u32_segment(b, sep + 1, hi);
            match height {
                None => Err(DimensionsError::InvalidHeight),
                Some(h) => Ok(ScreenDimensions(w, h)),
            }
        },
    }
}
}

/// `n` is a power of four: 1, 4, 16, 64, ...
pub open spec fn spec_is_power_of_four(n: int) -> bool
    decreases n,
{
    if n <= 0 {
        false
    } else if n == 1 {
        true
    } else if n % 4 == 0 {
        spec_is_power_of_four(n / 4)
    } else {
        false
    }
}

/// The recursive test above means exactly "some power of four".
pub proof fn lemma_power_of_four_iff(n: int)
    requires
        n >= 0,
    ensures
        spec_is_power_of_four(n) <==> exists|k: nat| n == vstd::arithmetic::power::pow(4, k),
    decreases n,
{
    vstd::arithmetic::power::lemma_pow0(4);
    vstd::arithmetic::power::lemma_pow1(4);
    if spec_is_power_of_four(n) {
        if n == 1 {
            assert(n == vstd::arithmetic::power::pow(4, 0));
        } else {
            lemma_power_of_four_iff(n / 4);
            let k = choose|k: nat| n / 4 == vstd::arithmetic::power::pow(4, k);
            vstd::arithmetic::power::lemma_pow_adds(4, k, 1);
            assert(n == 4 * (n / 4));
            assert(n == vstd::arithmetic::power::pow(4, k + 1));
        }
    }
    if exists|k: nat| n == vstd::arithmetic::power::pow(4, k) {
        let k = choose|k: nat| n == vstd::arithmetic::power::pow(4, k);
        if k == 0 {
            assert(n == 1);
        } else {
            vstd::arithmetic::power::lemma_pow_positive(4, (k - 1) as nat);
            vstd::arithmetic::power::lemma_pow_adds(4, (k - 1) as nat, 1);
            let m = vstd::arithmetic::power::pow(4, (k - 1) as nat);
            assert(n == 4 * m);
            assert(n / 4 == m);
            lemma_power_of_four_iff(m);
            assert(spec_is_power_of_four(m));
        }
    }
}

/// Decides whether the anti-aliasing factor is a power of four,
/// the shape the supersampled render requires.
pub fn is_power_of_four(n: u32) -> (r: bool)
    ensures
        r == spec_is_power_of_four(n as int),
{
    if n == 0 {
        return false;
    }
    let mut m: u32 = n;
    while m > 1
        invariant
            m >= 1,
            spec_is_power_of_four(n as int) == spec_is_power_of_four(m as int),
        decreases m,
    {
        if m % 4 != 0 {
            return false;
        }
        m = m / 4;
    }
    true
}

} // verus!
