//! The runtime value model: a closed, tagged union over four variants —
//! 64-bit signed integers, 64-bit floating-point numbers (carried as their
//! IEEE 754 bit pattern), byte strings and booleans — together with the
//! type-checked arithmetic and comparison table.
//!
//! Every binary operation is total: combinations outside the rule table yield
//! `None` ("incompatible") rather than failing.  Floating-point *arithmetic*
//! cannot be computed here; the machine hands such pairs to its caller as an
//! event, so the operation functions below leave float pairs incompatible and
//! are never consulted for them.  Floating-point *comparison* is ordinary
//! integer logic on the bit patterns and is implemented and verified here.

use vstd::prelude::*;

verus! {

use crate::codec::{
    bytes_lt,
    bytes_lt_exec,
    clone_bytes,
    concat_bytes,
    dec_rep,
    render_integer,
    repeat_bytes,
    repeat_bytes_exec,
    spec_render_integer,
    wrap_to_i64,
    lemma_wrap_to_i64_id,
};
use vstd::arithmetic::div_mod::{
    lemma_div_is_ordered,
    lemma_div_is_ordered_by_denominator,
    lemma_mod_bound,
};

pub const CMP_TYPE_EQUAL: u8 = 0x01;

pub const CMP_TYPE_NOT_EQUAL: u8 = 0x02;

pub const CMP_TYPE_LESS_THAN: u8 = 0x03;

pub const CMP_TYPE_GREATER_THAN: u8 = 0x04;

pub const CMP_TYPE_LESS_EQUAL: u8 = 0x05;

pub const CMP_TYPE_GREATER_EQUAL: u8 = 0x06;

/// The mathematical shape of a runtime value: what `Value` looks like in
/// contracts.
pub enum AbsValue {
    Integer { value: i64 },
    Float { bits: u64 },
    Str { bytes: Seq<u8> },
    Boolean { value: bool },
}

/// A runtime value.  Strings are carried as raw bytes; the caller decodes
/// them as UTF-8 text only when printing.  Floats are carried as their IEEE
/// 754 bit pattern and never interpreted here.
#[derive(Debug, PartialEq, Eq)]
pub enum Value {
    Integer { value: i64 },
    Float { bits: u64 },
    Str { bytes: Vec<u8> },
    Boolean { value: bool },
}

impl View for Value {
    type V = AbsValue;

    open spec fn view(&self) -> AbsValue {
        match self {
            Value::Integer { value } => AbsValue::Integer { value: *value },
            Value::Float { bits } => AbsValue::Float { bits: *bits },
            Value::Str { bytes } => AbsValue::Str { bytes: bytes@ },
            Value::Boolean { value } => AbsValue::Boolean { value: *value },
        }
    }
}

/// Lifts a view over an optional value.
pub open spec fn opt_view(r: Option<Value>) -> Option<AbsValue> {
    match r {
        Some(v) => Some(v@),
        None => None,
    }
}

impl Value {
    /// An exact copy of the value.
    pub fn duplicate(&self) -> (r: Value)
        ensures
            r@ == self@,
    {
        match self {
            Value::Integer { value } => Value::Integer { value: *value },
            Value::Float { bits } => Value::Float { bits: *bits },
            Value::Str { bytes } => Value::Str { bytes: clone_bytes(bytes) },
            Value::Boolean { value } => Value::Boolean { value: *value },
        }
    }
}

// --- IEEE 754 double-precision bit patterns ---------------------------------
//
// For every non-NaN double, the numeric order coincides with the
// sign-magnitude order of the bit patterns, so comparison is plain integer
// logic on the bits.  A NaN (magnitude above the infinity pattern) compares
// false under every relation except not-equal.
/// Whether the sign bit of a double's bit pattern is set.
pub open spec fn f64_sign(b: u64) -> bool {
    b >= 0x8000_0000_0000_0000
}

/// The bit pattern with the sign bit cleared.
pub open spec fn f64_magnitude(b: u64) -> u64 {
    if b >= 0x8000_0000_0000_0000 {
        (b - 0x8000_0000_0000_0000) as u64
    } else {
        b
    }
}

/// Whether the bit pattern encodes a NaN: magnitude above the infinity
/// pattern.
pub open spec fn f64_is_nan(b: u64) -> bool {
    f64_magnitude(b) > 0x7FF0_0000_0000_0000
}

/// Whether the bit pattern encodes a (positive or negative) zero.
pub open spec fn f64_is_zero(b: u64) -> bool {
    f64_magnitude(b) == 0
}

/// The position of a double on the number line, as a signed magnitude; both
/// zeros sit at 0.
pub open spec fn f64_key(b: u64) -> int {
    if f64_sign(b) {
        -(f64_magnitude(b) as int)
    } else {
        f64_magnitude(b) as int
    }
}

/// Numeric equality of two doubles given by bit pattern: false if either is
/// NaN.
pub open spec fn f64_num_eq(a: u64, b: u64) -> bool {
    !f64_is_nan(a) && !f64_is_nan(b) && f64_key(a) == f64_key(b)
}

/// Numeric strict order of two doubles given by bit pattern: false if either
/// is NaN.
pub open spec fn f64_num_lt(a: u64, b: u64) -> bool {
    !f64_is_nan(a) && !f64_is_nan(b) && f64_key(a) < f64_key(b)
}

/// Splits a double's bit pattern into sign and magnitude.
fn f64_parts(b: u64) -> (r: (bool, u64))
    ensures
        r.0 == f64_sign(b),
        r.1 == f64_magnitude(b),
{
    if b >= 0x8000_0000_0000_0000u64 {
        (true, b - 0x8000_0000_0000_0000u64)
    } else {
        (false, b)
    }
}

/// Decides whether a double's bit pattern is a NaN.
pub fn f64_bits_is_nan(b: u64) -> (r: bool)
    ensures
        r == f64_is_nan(b),
{
    let (_, m) = f64_parts(b);
    m > 0x7FF0_0000_0000_0000u64
}

/// Decides whether a double's bit pattern is a zero.
pub fn f64_bits_is_zero(b: u64) -> (r: bool)
    ensures
        r == f64_is_zero(b),
{
    let (_, m) = f64_parts(b);
    m == 0
}

/// Decides numeric equality of two doubles given by bit pattern.
pub fn f64_bits_eq(a: u64, b: u64) -> (r: bool)
    ensures
        r == f64_num_eq(a, b),
{
    if f64_bits_is_nan(a) || f64_bits_is_nan(b) {
        return false;
    }
    let (sa, ma) = f64_parts(a);
    let (sb, mb) = f64_parts(b);
    (ma == 0 && mb == 0) || (sa == sb && ma == mb)
}

/// Decides numeric strict order of two doubles given by bit pattern.
pub fn f64_bits_lt(a: u64, b: u64) -> (r: bool)
    ensures
        r == f64_num_lt(a, b),
{
    if f64_bits_is_nan(a) || f64_bits_is_nan(b) {
        return false;
    }
    let (sa, ma) = f64_parts(a);
    let (sb, mb) = f64_parts(b);
    if sa && sb {
        mb < ma
    } else if sa {
        !(ma == 0 && mb == 0)
    } else if sb {
        false
    } else {
        ma < mb
    }
}

// --- The operation table ----------------------------------------------------
/// What comparing two values under a relation selector yields: `None` when
/// the variant pair or the selector is unsupported.
pub open spec fn compare_model(lhs: AbsValue, rhs: AbsValue, cmp_type: u8) -> Option<bool> {
    match (lhs, rhs) {
        (AbsValue::Integer { value: l }, AbsValue::Integer { value: r }) => {
            if cmp_type == CMP_TYPE_EQUAL {
                Some(l == r)
            } else if cmp_type == CMP_TYPE_NOT_EQUAL {
                Some(l != r)
            } else if cmp_type == CMP_TYPE_LESS_THAN {
                Some(l < r)
            } else if cmp_type == CMP_TYPE_GREATER_THAN {
                Some(l > r)
            } else if cmp_type == CMP_TYPE_LESS_EQUAL {
                Some(l <= r)
            } else if cmp_type == CMP_TYPE_GREATER_EQUAL {
                Some(l >= r)
            } else {
                None
            }
        },
        (AbsValue::Float { bits: l }, AbsValue::Float { bits: r }) => {
            if cmp_type == CMP_TYPE_EQUAL {
                Some(f64_num_eq(l, r))
            } else if cmp_type == CMP_TYPE_NOT_EQUAL {
                Some(!f64_num_eq(l, r))
            } else if cmp_type == CMP_TYPE_LESS_THAN {
                Some(f64_num_lt(l, r))
            } else if cmp_type == CMP_TYPE_GREATER_THAN {
                Some(f64_num_lt(r, l))
            } else if cmp_type == CMP_TYPE_LESS_EQUAL {
                Some(f64_num_lt(l, r) || f64_num_eq(l, r))
            } else if cmp_type == CMP_TYPE_GREATER_EQUAL {
                Some(f64_num_lt(r, l) || f64_num_eq(l, r))
            } else {
                None
            }
        },
        (AbsValue::Str { bytes: l }, AbsValue::Str { bytes: r }) => {
            if cmp_type == CMP_TYPE_EQUAL {
                Some(l == r)
            } else if cmp_type == CMP_TYPE_NOT_EQUAL {
                Some(l != r)
            } else if cmp_type == CMP_TYPE_LESS_THAN {
                Some(bytes_lt(l, r))
            } else if cmp_type == CMP_TYPE_GREATER_THAN {
                Some(bytes_lt(r, l))
            } else if cmp_type == CMP_TYPE_LESS_EQUAL {
                Some(!bytes_lt(r, l))
            } else if cmp_type == CMP_TYPE_GREATER_EQUAL {
                Some(!bytes_lt(l, r))
            } else {
                None
            }
        },
        (AbsValue::Boolean { value: l }, AbsValue::Boolean { value: r }) => {
            if cmp_type == CMP_TYPE_EQUAL {
                Some(l == r)
            } else if cmp_type == CMP_TYPE_NOT_EQUAL {
                Some(l != r)
            } else {
                None
            }
        },
        _ => None,
    }
}

/// What adding two values yields.  A float pair is handed to the caller by
/// the machine before this table is consulted.
pub open spec fn add_model(lhs: AbsValue, rhs: AbsValue) -> Option<AbsValue> {
    match (lhs, rhs) {
        (AbsValue::Integer { value: l }, AbsValue::Integer { value: r }) => Some(
            AbsValue::Integer { value: wrap_to_i64(l + r) },
        ),
        (AbsValue::Str { bytes: l }, AbsValue::Str { bytes: r }) => Some(
            AbsValue::Str { bytes: l + r },
        ),
        _ => None,
    }
}

/// What subtracting two values yields.
pub open spec fn sub_model(lhs: AbsValue, rhs: AbsValue) -> Option<AbsValue> {
    match (lhs, rhs) {
        (AbsValue::Integer { value: l }, AbsValue::Integer { value: r }) => Some(
            AbsValue::Integer { value: wrap_to_i64(l - r) },
        ),
        _ => None,
    }
}

/// What multiplying two values yields: integer product, or a byte string
/// repeated a non-negative number of times.
pub open spec fn mul_model(lhs: AbsValue, rhs: AbsValue) -> Option<AbsValue> {
    match (lhs, rhs) {
        (AbsValue::Integer { value: l }, AbsValue::Integer { value: r }) => Some(
            AbsValue::Integer { value: wrap_to_i64(l * r) },
        ),
        (AbsValue::Str { bytes: l }, AbsValue::Integer { value: r }) => {
            if r < 0 {
                None
            } else {
                Some(AbsValue::Str { bytes: repeat_bytes(l, r as nat) })
            }
        },
        _ => None,
    }
}

/// The quotient of `x` by `d`, truncated toward zero.
pub open spec fn quot_trunc(x: int, d: int) -> int {
    if x >= 0 && d > 0 {
        x / d
    } else if x >= 0 {
        -(x / -d)
    } else if d > 0 {
        -(-x / d)
    } else {
        -x / -d
    }
}

/// The remainder of `x` by `d` under truncating division: it carries the sign
/// of `x`.
pub open spec fn rem_trunc(x: int, d: int) -> int {
    if x >= 0 && d > 0 {
        x % d
    } else if x >= 0 {
        x % -d
    } else if d > 0 {
        -(-x % d)
    } else {
        -(-x % -d)
    }
}

/// What dividing two values yields: `None` for a zero divisor.
pub open spec fn div_model(lhs: AbsValue, rhs: AbsValue) -> Option<AbsValue> {
    match (lhs, rhs) {
        (AbsValue::Integer { value: l }, AbsValue::Integer { value: r }) => {
            if r == 0 {
                None
            } else {
                Some(AbsValue::Integer { value: wrap_to_i64(quot_trunc(l as int, r as int)) })
            }
        },
        _ => None,
    }
}

/// What the modulo of two values yields: integers only, `None` for a zero
/// divisor.
pub open spec fn modulo_model(lhs: AbsValue, rhs: AbsValue) -> Option<AbsValue> {
    match (lhs, rhs) {
        (AbsValue::Integer { value: l }, AbsValue::Integer { value: r }) => {
            if r == 0 {
                None
            } else {
                Some(AbsValue::Integer { value: rem_trunc(l as int, r as int) as i64 })
            }
        },
        _ => None,
    }
}

/// The truncated quotient of two 64-bit signed integers stays in range except
/// for the most negative value divided by minus one.
proof fn lemma_quot_trunc_range(x: i64, d: i64)
    requires
        d != 0,
    ensures
        i64::MIN <= quot_trunc(x as int, d as int) <= i64::MAX || (x == i64::MIN && d == -1),
{
    let xi = x as int;
    let di = d as int;
    if xi >= 0 {
        if di > 0 {
            lemma_div_is_ordered_by_denominator(xi, 1, di);
            assert(xi / 1 == xi);
        } else {
            lemma_div_is_ordered_by_denominator(xi, 1, -di);
            assert(xi / 1 == xi);
        }
    } else {
        if di > 0 {
            lemma_div_is_ordered_by_denominator(-xi, 1, di);
            assert((-xi) / 1 == -xi);
        } else {
            lemma_div_is_ordered_by_denominator(-xi, 1, -di);
            assert((-xi) / 1 == -xi);
            if -di >= 2 {
                assert((-xi) / (-di) <= (-xi) / 2) by {
                    lemma_div_is_ordered_by_denominator(-xi, 2, -di);
                }
                assert((-xi) / 2 <= i64::MAX) by {
                    assert(-xi <= 0x8000_0000_0000_0000);
                    lemma_div_is_ordered(-xi, 0x8000_0000_0000_0000, 2);
                }
            }
        }
    }
}

/// The truncated remainder of two 64-bit signed integers always stays in
/// range.
proof fn lemma_rem_trunc_range(x: i64, d: i64)
    requires
        d != 0,
    ensures
        i64::MIN <= rem_trunc(x as int, d as int) <= i64::MAX,
{
    let xi = x as int;
    let di = d as int;
    let m = if di > 0 {
        di
    } else {
        -di
    };
    assert(m > 0);
    if xi >= 0 {
        lemma_mod_bound(xi, m);
    } else {
        lemma_mod_bound(-xi, m);
    }
}

impl Value {
    /// Compares two values under a relation selector, as the rule table says.
    pub fn compare(&self, other: &Value, cmp_type: u8) -> (r: Option<bool>)
        ensures
            r == compare_model(self@, other@, cmp_type),
    {
        match (self, other) {
            (Value::Integer { value: l }, Value::Integer { value: r }) => {
                if cmp_type == CMP_TYPE_EQUAL {
                    Some(*l == *r)
                } else if cmp_type == CMP_TYPE_NOT_EQUAL {
                    Some(*l != *r)
                } else if cmp_type == CMP_TYPE_LESS_THAN {
                    Some(*l < *r)
                } else if cmp_type == CMP_TYPE_GREATER_THAN {
                    Some(*l > *r)
                } else if cmp_type == CMP_TYPE_LESS_EQUAL {
                    Some(*l <= *r)
                } else if cmp_type == CMP_TYPE_GREATER_EQUAL {
                    Some(*l >= *r)
                } else {
                    None
                }
            },
            (Value::Float { bits: l }, Value::Float { bits: r }) => {
                if cmp_type == CMP_TYPE_EQUAL {
                    Some(f64_bits_eq(*l, *r))
                } else if cmp_type == CMP_TYPE_NOT_EQUAL {
                    Some(!f64_bits_eq(*l, *r))
                } else if cmp_type == CMP_TYPE_LESS_THAN {
                    Some(f64_bits_lt(*l, *r))
                } else if cmp_type == CMP_TYPE_GREATER_THAN {
                    Some(f64_bits_lt(*r, *l))
                } else if cmp_type == CMP_TYPE_LESS_EQUAL {
                    Some(f64_bits_lt(*l, *r) || f64_bits_eq(*l, *r))
                } else if cmp_type == CMP_TYPE_GREATER_EQUAL {
                    Some(f64_bits_lt(*r, *l) || f64_bits_eq(*l, *r))
                } else {
                    None
                }
            },
            (Value::Str { bytes: l }, Value::Str { bytes: r }) => {
                if cmp_type == CMP_TYPE_EQUAL {
                    Some(crate::codec::bytes_eq(l, r))
                } else if cmp_type == CMP_TYPE_NOT_EQUAL {
                    Some(!crate::codec::bytes_eq(l, r))
                } else if cmp_type == CMP_TYPE_LESS_THAN {
                    Some(bytes_lt_exec(l, r))
                } else if cmp_type == CMP_TYPE_GREATER_THAN {
                    Some(bytes_lt_exec(r, l))
                } else if cmp_type == CMP_TYPE_LESS_EQUAL {
                    Some(!bytes_lt_exec(r, l))
                } else if cmp_type == CMP_TYPE_GREATER_EQUAL {
                    Some(!bytes_lt_exec(l, r))
                } else {
                    None
                }
            },
            (Value::Boolean { value: l }, Value::Boolean { value: r }) => {
                if cmp_type == CMP_TYPE_EQUAL {
                    Some(*l == *r)
                } else if cmp_type == CMP_TYPE_NOT_EQUAL {
                    Some(*l != *r)
                } else {
                    None
                }
            },
            _ => None,
        }
    }

    /// Adds two values: wrapping integer sum or byte-string concatenation.
    pub fn add(&self, other: &Value) -> (r: Option<Value>)
        ensures
            opt_view(r) == add_model(self@, other@),
    {
        match (self, other) {
            (Value::Integer { value: l }, Value::Integer { value: r }) => {
                proof {
                    lemma_wrapping_add_is_wrap(*l, *r);
                }
                Some(Value::Integer { value: l.wrapping_add(*r) })
            },
            (Value::Str { bytes: l }, Value::Str { bytes: r }) => Some(
                Value::Str { bytes: concat_bytes(l, r) },
            ),
            _ => None,
        }
    }

    /// Subtracts two values: wrapping integer difference.
    pub fn sub(&self, other: &Value) -> (r: Option<Value>)
        ensures
            opt_view(r) == sub_model(self@, other@),
    {
        match (self, other) {
            (Value::Integer { value: l }, Value::Integer { value: r }) => {
                proof {
                    lemma_wrapping_sub_is_wrap(*l, *r);
                }
                Some(Value::Integer { value: l.wrapping_sub(*r) })
            },
            _ => None,
        }
    }

    /// Multiplies two values: wrapping integer product, or a byte string
    /// repeated a non-negative number of times.
    pub fn mul(&self, other: &Value) -> (r: Option<Value>)
        ensures
            opt_view(r) == mul_model(self@, other@),
    {
        match (self, other) {
            (Value::Integer { value: l }, Value::Integer { value: r }) => {
                proof {
                    lemma_wrapping_mul_is_wrap(*l, *r);
                }
                Some(Value::Integer { value: l.wrapping_mul(*r) })
            },
            (Value::Str { bytes: l }, Value::Integer { value: r }) => {
                if *r < 0 {
                    None
                } else {
                    Some(Value::Str { bytes: repeat_bytes_exec(l, *r as u64) })
                }
            },
            _ => None,
        }
    }

    /// Divides two values: integer quotient truncated toward zero, `None` for
    /// a zero divisor.
    pub fn div(&self, other: &Value) -> (r: Option<Value>)
        ensures
            opt_view(r) == div_model(self@, other@),
    {
        match (self, other) {
            (Value::Integer { value: l }, Value::Integer { value: r }) => {
                if *r == 0 {
                    None
                } else {
                    let q = match l.checked_div(*r) {
                        Some(q) => q,
                        None => i64::MIN,
                    };
                    proof {
                        lemma_quot_trunc_range(*l, *r);
                        if *l == i64::MIN && *r == -1 {
                            assert(-(*l as int) == 0x8000_0000_0000_0000);
                            assert(-(*r as int) == 1);
                            assert(quot_trunc(*l as int, *r as int) == 0x8000_0000_0000_0000int
                                / 1int);
                            assert(0x8000_0000_0000_0000int / 1int == 0x8000_0000_0000_0000int);
                            assert(wrap_to_i64(0x8000_0000_0000_0000int) == i64::MIN);
                        } else {
                            lemma_wrap_to_i64_id(quot_trunc(*l as int, *r as int));
                        }
                    }
                    Some(Value::Integer { value: q })
                }
            },
            _ => None,
        }
    }

    /// The modulo of two values: integer remainder under truncating division,
    /// `None` for a zero divisor.
    pub fn modulo(&self, other: &Value) -> (r: Option<Value>)
        ensures
            opt_view(r) == modulo_model(self@, other@),
    {
        match (self, other) {
            (Value::Integer { value: l }, Value::Integer { value: r }) => {
                if *r == 0 {
                    None
                } else {
                    proof {
                        lemma_rem_trunc_range(*l, *r);
                    }
                    let m = match l.checked_rem(*r) {
                        Some(m) => m,
                        None => 0,
                    };
                    proof {
                        let xi = *l as int;
                        let di = *r as int;
                        if *l == i64::MIN && *r == -1 {
                            lemma_mod_bound(-xi, 1);
                            assert(rem_trunc(xi, di) == 0);
                        } else {
                            assert(m == rem_trunc(xi, di)) by {
                                let mag = if di > 0 {
                                    di
                                } else {
                                    -di
                                };
                                if xi >= 0 {
                                    lemma_mod_bound(xi, mag);
                                } else {
                                    lemma_mod_bound(-xi, mag);
                                }
                                if xi == 0 {
                                    vstd::arithmetic::div_mod::lemma_small_mod(0, mag as nat);
                                }
                            }
                        }
                    }
                    Some(Value::Integer { value: m })
                }
            },
            _ => None,
        }
    }

    /// The textual form of a value, for the display instructions.  Floats are
    /// `None`: only the caller can format them.
    pub fn render(&self) -> (r: Option<Vec<u8>>)
        ensures
            match r {
                Some(bytes) => !(self@ is Float) && bytes@ == render_value(self@),
                None => self@ is Float,
            },
    {
        match self {
            Value::Integer { value } => Some(render_integer(*value)),
            Value::Float { bits: _ } => None,
            Value::Str { bytes } => Some(clone_bytes(bytes)),
            Value::Boolean { value } => {
                let mut out: Vec<u8> = Vec::new();
                if *value {
                    out.push(116);
                    out.push(114);
                    out.push(117);
                    out.push(101);
                    proof {
                        assert(out@ =~= seq![116u8, 114u8, 117u8, 101u8]);
                    }
                } else {
                    out.push(102);
                    out.push(97);
                    out.push(108);
                    out.push(115);
                    out.push(101);
                    proof {
                        assert(out@ =~= seq![102u8, 97u8, 108u8, 115u8, 101u8]);
                    }
                }
                Some(out)
            },
        }
    }
}

/// The textual form of a non-float value: decimal for integers, the bytes
/// themselves for strings, the words `true` and `false` for booleans.
/// Floats are rendered by the caller; their entry here is a placeholder that
/// the machine never consults.
pub open spec fn render_value(v: AbsValue) -> Seq<u8> {
    match v {
        AbsValue::Integer { value } => spec_render_integer(value),
        AbsValue::Float { bits } => Seq::empty(),
        AbsValue::Str { bytes } => bytes,
        AbsValue::Boolean { value } => if value {
            seq![116u8, 114u8, 117u8, 101u8]
        } else {
            seq![102u8, 97u8, 108u8, 115u8, 101u8]
        },
    }
}

/// The standard wrapping addition equals reduction of the exact sum.
proof fn lemma_wrapping_add_is_wrap(x: i64, y: i64)
    ensures
        vstd::wrapping::i64_specs::wrapping_add(x, y) == wrap_to_i64(x + y),
{
    let s = x + y;
    if s > i64::MAX {
        assert(s % 0x1_0000_0000_0000_0000 == s);
    } else if s < i64::MIN {
        assert(s % 0x1_0000_0000_0000_0000 == s + 0x1_0000_0000_0000_0000);
    } else {
        lemma_wrap_to_i64_id(s);
    }
}

/// The standard wrapping subtraction equals reduction of the exact
/// difference.
proof fn lemma_wrapping_sub_is_wrap(x: i64, y: i64)
    ensures
        vstd::wrapping::i64_specs::wrapping_sub(x, y) == wrap_to_i64(x - y),
{
    let s = x - y;
    if s > i64::MAX {
        assert(s % 0x1_0000_0000_0000_0000 == s);
    } else if s < i64::MIN {
        assert(s % 0x1_0000_0000_0000_0000 == s + 0x1_0000_0000_0000_0000);
    } else {
        lemma_wrap_to_i64_id(s);
    }
}

/// The standard wrapping multiplication equals reduction of the exact
/// product.
proof fn lemma_wrapping_mul_is_wrap(x: i64, y: i64)
    ensures
        vstd::wrapping::i64_specs::wrapping_mul(x, y) == wrap_to_i64(x * y),
{
}

} // verus!
