//! Vector quantization modes and the integer dot-product kernel.
use vstd::prelude::*;
use crate::text::{chars_of, lower_eq, lower_equals, trim, trim_bounds, string_range};

verus! {

#[derive(Debug, Clone, Copy, PartialEq, Eq, Structural)]
pub enum QuantizationMode {
    Unquantized,
    Int8,
    /// In-memory only; the on-disk projection stays int8.
    Binary,
}

impl Default for QuantizationMode {
    fn default() -> (r: Self)
        ensures
            r == QuantizationMode::Unquantized,
    {
        QuantizationMode::Unquantized
    }
}

/// The mode a configuration string names, ignoring surrounding whitespace and
/// ASCII case. Binary is deliberately not selectable.
pub open spec fn mode_named(s: Seq<char>) -> Option<QuantizationMode> {
    let t = trim(s);
    if lower_eq(t, "none"@) || lower_eq(t, "f32"@) || lower_eq(t, "f64"@) || lower_eq(t, "off"@) {
        Some(QuantizationMode::Unquantized)
    } else if lower_eq(t, "int8"@) || lower_eq(t, "i8"@) {
        Some(QuantizationMode::Int8)
    } else {
        None
    }
}

/// The label of each mode.
pub open spec fn mode_label(m: QuantizationMode) -> Seq<char> {
    match m {
        QuantizationMode::Unquantized => "none"@,
        QuantizationMode::Int8 => "int8"@,
        QuantizationMode::Binary => "binary"@,
    }
}

fn named(t: &[char], lit: &str) -> (b: bool)
    ensures
        b == lower_eq(t@, lit@),
{
    let l = chars_of(lit);
    lower_equals(t, l.as_slice())
}

impl QuantizationMode {
    pub fn parse(s: &str) -> (r: Option<Self>)
        ensures
            r == mode_named(s@),
    {
        let v = chars_of(s);
        let (a, b) = trim_bounds(v.as_slice());
        let t = chars_of(string_range(v.as_slice(), a, b).as_str());
        let ts = t.as_slice();
        if named(ts, "none") || named(ts, "f32") || named(ts, "f64") || named(ts, "off") {
            Some(QuantizationMode::Unquantized)
        } else if named(ts, "int8") || named(ts, "i8") {
            Some(QuantizationMode::Int8)
        } else {
            None
        }
    }

    pub fn as_str(self) -> (r: &'static str)
        ensures
            r@ == mode_label(self),
    {
        match self {
            QuantizationMode::Unquantized => "none",
            QuantizationMode::Int8 => "int8",
            QuantizationMode::Binary => "binary",
        }
    }
}

/// A selectable mode parses back from its own label; Binary is never
/// selectable.
pub proof fn lemma_mode_label_round_trip(m: QuantizationMode)
    ensures
        m != QuantizationMode::Binary ==> mode_named(mode_label(m)) == Some(m),
        mode_named(mode_label(QuantizationMode::Binary)) is None,
{
    reveal_strlit("none");
    reveal_strlit("int8");
    reveal_strlit("binary");
    reveal_strlit("f32");
    reveal_strlit("f64");
    reveal_strlit("off");
    reveal_strlit("i8");
    crate::text::lemma_trim_plain("none"@);
    crate::text::lemma_trim_plain("int8"@);
    crate::text::lemma_trim_plain("binary"@);
    assert(lower_eq("none"@, "none"@));
    assert(lower_eq("int8"@, "int8"@));
    if lower_eq("int8"@, "none"@) {
        assert(crate::text::lower_ascii("int8"@[0]) == "none"@[0]);
    }
    if lower_eq("binary"@, "none"@) || lower_eq("binary"@, "int8"@) || lower_eq("binary"@, "f32"@)
        || lower_eq("binary"@, "f64"@) || lower_eq("binary"@, "off"@) || lower_eq("binary"@, "i8"@) {
        assert(false);
    }
}

/// Σ a[i] * b[i] over the first `n` pairs.
pub open spec fn dot(a: Seq<i8>, b: Seq<i8>, n: int) -> int
    decreases n,
{
    if n <= 0 {
        0
    } else {
        dot(a, b, n - 1) + a[n - 1] * b[n - 1]
    }
}

proof fn lemma_dot_bounds(a: Seq<i8>, b: Seq<i8>, n: int)
    requires
        0 <= n <= a.len(),
        n <= b.len(),
    ensures
        -16384 * n <= dot(a, b, n) <= 16384 * n,
        dot(a, a, n) >= 0,
    decreases n,
{
    if n > 0 {
        lemma_dot_bounds(a, b, n - 1);
        let x = a[n - 1] as int;
        let y = b[n - 1] as int;
        assert(-16384 <= x * y <= 16384) by (nonlinear_arith)
            requires
                -128 <= x <= 127,
                -128 <= y <= 127,
        ;
        assert(x * x >= 0) by (nonlinear_arith);
    }
}

/// Every running sum the kernel keeps over the first `n` pairs fits an
/// `i32`: the dot product and both squared norms.
pub open spec fn sums_fit_i32(a: Seq<i8>, b: Seq<i8>, n: int) -> bool {
    forall|k: int|
        0 <= k <= n ==> {
            &&& i32::MIN <= #[trigger] dot(a, b, k) <= i32::MAX
            &&& dot(a, a, k) <= i32::MAX
            &&& dot(b, b, k) <= i32::MAX
        }
}

/// The number of pairs the kernel reads: the shorter length.
pub open spec fn pair_count(a: Seq<i8>, b: Seq<i8>) -> int {
    if a.len() <= b.len() {
        a.len() as int
    } else {
        b.len() as int
    }
}

/// Dot product and the two squared norms of the paired prefix of two `i8`
/// vectors, in `i32`. The running sums must fit an `i32` (they always do
/// for fewer than 131072 pairs).
pub fn int8_dot_norms_scalar(a: &[i8], b: &[i8]) -> (r: (i32, i32, i32))
    requires
        sums_fit_i32(a@, b@, pair_count(a@, b@)),
    ensures
        r.0 == dot(a@, b@, pair_count(a@, b@)),
        r.1 == dot(a@, a@, pair_count(a@, b@)),
        r.2 == dot(b@, b@, pair_count(a@, b@)),
{
    let n = if a.len() <= b.len() { a.len() } else { b.len() };
    let mut dot_v: i32 = 0;
    let mut na: i32 = 0;
    let mut nb: i32 = 0;
    let mut i: usize = 0;
    while i < n
        invariant
            i <= n,
            n == pair_count(a@, b@),
            n <= a@.len(),
            n <= b@.len(),
            sums_fit_i32(a@, b@, n as int),
            dot_v == dot(a@, b@, i as int),
            na == dot(a@, a@, i as int),
            nb == dot(b@, b@, i as int),
        decreases n - i,
    {
        let ai = a[i] as i32;
        let bi = b[i] as i32;
        proof {
            assert(i32::MIN <= dot(a@, b@, i + 1) <= i32::MAX);
            assert(dot(a@, b@, i + 1) == dot(a@, b@, i as int) + a@[i as int] * b@[i as int]);
            assert(dot(a@, a@, i + 1) == dot(a@, a@, i as int) + a@[i as int] * a@[i as int]);
            assert(dot(b@, b@, i + 1) == dot(b@, b@, i as int) + b@[i as int] * b@[i as int]);
            assert(-16384 <= ai * bi <= 16384) by (nonlinear_arith)
                requires
                    -128 <= ai <= 127,
                    -128 <= bi <= 127,
            ;
            assert(0 <= ai * ai <= 16384) by (nonlinear_arith)
                requires
                    -128 <= ai <= 127,
            ;
            assert(0 <= bi * bi <= 16384) by (nonlinear_arith)
                requires
                    -128 <= bi <= 127,
            ;
            lemma_dot_bounds(a@, a@, i as int);
            lemma_dot_bounds(b@, b@, i as int);
        }
        dot_v = dot_v + ai * bi;
        na = na + ai * ai;
        nb = nb + bi * bi;
        i = i + 1;
    }
    (dot_v, na, nb)
}

/// Fewer than 131072 pairs never overflow the kernel's sums.
pub proof fn lemma_short_vectors_fit(a: Seq<i8>, b: Seq<i8>)
    requires
        pair_count(a, b) <= 131071,
    ensures
        sums_fit_i32(a, b, pair_count(a, b)),
{
    let n = pair_count(a, b);
    assert forall|k: int| 0 <= k <= n implies {
        &&& i32::MIN <= #[trigger] dot(a, b, k) <= i32::MAX
        &&& dot(a, a, k) <= i32::MAX
        &&& dot(b, b, k) <= i32::MAX
    } by {
        lemma_dot_bounds(a, b, k);
        lemma_dot_bounds(a, a, k);
        lemma_dot_bounds(b, b, k);
        assert(16384 * k <= 16384 * 131071) by (nonlinear_arith)
            requires
                k <= 131071,
        ;
    }
}

} // verus!
