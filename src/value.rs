use vstd::prelude::*;

verus! {

/// A floating-point literal, kept as written in the source.
///
/// It denotes `(int_part + frac_part / radix^frac_digits) * 10^exp`.
/// The library never does floating-point arithmetic; turning this into a
/// double is left to whoever displays it.
#[derive(Clone, Copy, Debug, PartialEq, Eq, Structural)]
pub struct FloatLit {
    /// The digits before the point.
    pub int_part: i64,
    /// The digits after the point, read as an integer in `radix`.
    pub frac_part: i64,
    /// How many digits stood after the point.
    pub frac_digits: u64,
    /// The base the literal was written in: 2, 8, 10 or 16.
    pub radix: u32,
    /// The decimal exponent (always 0 outside base 10).
    pub exp: i64,
}

/// A function provided by the host rather than by bytecode.
#[derive(Clone, Copy, Debug, PartialEq, Eq, Structural)]
pub enum HostFn {
    /// Writes the display form of its single argument and a newline.
    Print,
}

/// A value of the language.
///
/// A table is a handle: the index of the table in the interpreter's
/// table store. Two handles are the same table exactly when they are equal.
///
/// A float is held as the literal that wrote it, so two floats are equal
/// when they were written alike: `1.5` and `1.50` are different values
/// here (two constants, two table keys), though they denote one double.
#[derive(Debug)]
pub enum Value {
    Nil,
    Boolean(bool),
    Integer(i64),
    Float(FloatLit),
    String(Vec<u8>),
    Function(HostFn),
    Table(usize),
}

/// The mathematical meaning of a [`Value`]: strings are byte sequences.
pub enum Val {
    Nil,
    Boolean(bool),
    Integer(i64),
    Float(FloatLit),
    Str(Seq<u8>),
    Function(HostFn),
    Table(usize),
}

impl View for Value {
    type V = Val;

    open spec fn view(&self) -> Val {
        match self {
            Value::Nil => Val::Nil,
            Value::Boolean(b) => Val::Boolean(*b),
            Value::Integer(i) => Val::Integer(*i),
            Value::Float(f) => Val::Float(*f),
            Value::String(s) => Val::Str(s@),
            Value::Function(f) => Val::Function(*f),
            Value::Table(t) => Val::Table(*t),
        }
    }
}

/// Byte-wise equality of two byte strings.
pub fn bytes_eq(a: &[u8], b: &[u8]) -> (r: bool)
    ensures
        r == (a@ == b@),
{
    if a.len() != b.len() {
        return false;
    }
    let mut i: usize = 0;
    while i < a.len()
        invariant
            a@.len() == b@.len(),
            i <= a@.len(),
            a@.subrange(0, i as int) == b@.subrange(0, i as int),
        decreases a@.len() - i,
    {
        if a[i] != b[i] {
            assert(a@[i as int] != b@[i as int]);
            return false;
        }
        assert(a@.subrange(0, i + 1) =~= a@.subrange(0, i as int).push(a@[i as int]));
        assert(b@.subrange(0, i + 1) =~= b@.subrange(0, i as int).push(b@[i as int]));
        i = i + 1;
    }
    assert(a@ =~= a@.subrange(0, a@.len() as int));
    assert(b@ =~= b@.subrange(0, b@.len() as int));
    true
}

/// A fresh copy of a byte string.
pub fn copy_bytes(a: &[u8]) -> (r: Vec<u8>)
    ensures
        r@ == a@,
{
    let mut r: Vec<u8> = Vec::with_capacity(a.len());
    let mut i: usize = 0;
    while i < a.len()
        invariant
            i <= a@.len(),
            r@ == a@.subrange(0, i as int),
        decreases a@.len() - i,
    {
        r.push(a[i]);
        assert(a@.subrange(0, i + 1) =~= a@.subrange(0, i as int).push(a@[i as int]));
        i = i + 1;
    }
    assert(a@ =~= a@.subrange(0, a@.len() as int));
    r
}

impl Clone for Value {
    fn clone(&self) -> (r: Self)
        ensures
            r@ == self@,
    {
        match self {
            Value::Nil => Value::Nil,
            Value::Boolean(b) => Value::Boolean(*b),
            Value::Integer(i) => Value::Integer(*i),
            Value::Float(f) => Value::Float(*f),
            Value::String(s) => Value::String(copy_bytes(s.as_slice())),
            Value::Function(f) => Value::Function(*f),
            Value::Table(t) => Value::Table(*t),
        }
    }
}

impl PartialEq for Value {
    /// Primitives and strings compare by value; functions and tables by
    /// identity.
    fn eq(&self, other: &Value) -> (r: bool) {
        match (self, other) {
            (Value::Nil, Value::Nil) => true,
            (Value::Boolean(a), Value::Boolean(b)) => *a == *b,
            (Value::Integer(a), Value::Integer(b)) => *a == *b,
            (Value::Float(a), Value::Float(b)) => *a == *b,
            (Value::String(a), Value::String(b)) => bytes_eq(a.as_slice(), b.as_slice()),
            (Value::Function(a), Value::Function(b)) => *a == *b,
            (Value::Table(a), Value::Table(b)) => *a == *b,
            _ => false,
        }
    }
}

impl vstd::std_specs::cmp::PartialEqSpecImpl for Value {
    open spec fn obeys_eq_spec() -> bool {
        true
    }

    open spec fn eq_spec(&self, other: &Value) -> bool {
        self@ == other@
    }
}

// ---------------------------------------------------------------------
// Display forms.

/// The digit for `d` (below 16): `0`-`9`, then `a`-`f`.
pub open spec fn digit_char(d: nat) -> u8 {
    if d < 10 {
        ('0' as u8 + d) as u8
    } else {
        ('a' as u8 + d - 10) as u8
    }
}

/// `n` written in `base` (2 to 16), most significant digit first.
pub open spec fn digits_in(n: nat, base: nat) -> Seq<u8>
    decreases n,
{
    if base < 2 || n < base {
        seq![digit_char(n)]
    } else {
        proof {
            assert(n / base < n) by (nonlinear_arith)
                requires
                    base >= 2,
                    n >= base,
            ;
        }
        digits_in(n / base, base).push(digit_char(n % base))
    }
}

/// An integer in decimal, with a leading `-` when negative.
pub open spec fn int_text(i: int) -> Seq<u8> {
    if i < 0 {
        seq!['-' as u8] + digits_in((-i) as nat, 10)
    } else {
        digits_in(i as nat, 10)
    }
}

/// What `print` writes for a value other than a float (before the
/// newline). A table shows its handle as an address-like token.
pub open spec fn display_of(v: Val) -> Seq<u8> {
    match v {
        Val::Nil => seq!['n' as u8, 'i' as u8, 'l' as u8],
        Val::Boolean(true) => seq!['t' as u8, 'r' as u8, 'u' as u8, 'e' as u8],
        Val::Boolean(false) => seq!['f' as u8, 'a' as u8, 'l' as u8, 's' as u8, 'e' as u8],
        Val::Integer(i) => int_text(i as int),
        Val::Float(_) => Seq::empty(),
        Val::Str(s) => seq!['\'' as u8] + s + seq!['\'' as u8],
        Val::Function(_) => seq!['<' as u8, 'f' as u8, 'u' as u8, 'n' as u8, 'c' as u8, 't' as u8, 'i' as u8, 'o' as u8, 'n' as u8, '>' as u8],
        Val::Table(id) => seq![
            '{' as u8, 't' as u8, 'a' as u8, 'b' as u8, 'l' as u8, 'e' as u8, '}' as u8, ':' as u8, ' ' as u8,
            '0' as u8, 'x' as u8,
        ] + digits_in(id as nat, 16),
    }
}

/// Appends the bytes of `s`.
fn push_all(out: &mut Vec<u8>, s: &[u8])
    ensures
        final(out)@ == old(out)@ + s@,
{
    let mut i: usize = 0;
    while i < s.len()
        invariant
            i <= s@.len(),
            out@ == old(out)@ + s@.subrange(0, i as int),
        decreases s@.len() - i,
    {
        out.push(s[i]);
        assert(old(out)@ + s@.subrange(0, i + 1) =~= old(out)@ + s@.subrange(0, i as int) + seq![s@[i as int]]);
        i = i + 1;
    }
    assert(s@.subrange(0, s@.len() as int) =~= s@);
}

/// Appends `n` written in `base`.
fn push_digits(out: &mut Vec<u8>, n: u64, base: u64)
    requires
        2 <= base <= 16,
    ensures
        final(out)@ == old(out)@ + digits_in(n as nat, base as nat),
    decreases n,
{
    let d = n % base;
    let c: u8 = if d < 10 { '0' as u8 + d as u8 } else { 'a' as u8 + (d - 10) as u8 };
    if n >= base {
        assert(n / base < n) by (nonlinear_arith)
            requires
                base >= 2,
                n >= base,
        ;
        push_digits(out, n / base, base);
        out.push(c);
        assert(old(out)@ + digits_in(n as nat, base as nat) =~= old(out)@ + digits_in((n / base) as nat, base as nat) + seq![c]);
    } else {
        assert(d == n) by (nonlinear_arith)
            requires
                n < base,
                d == n % base,
        ;
        out.push(c);
        assert(old(out)@ + digits_in(n as nat, base as nat) =~= old(out)@.push(c));
    }
}

impl Value {
    /// What `print` writes for this value, without the newline: `nil`,
    /// `true`/`false`, an integer in decimal, a string's bytes between
    /// single quotes, `<function>`, or `{table}:` and the table's handle.
    /// Floats are written by the host.
    pub fn display(&self) -> (r: Vec<u8>)
        requires
            !(self@ is Float),
        ensures
            r@ == display_of(self@),
    {
        let mut out: Vec<u8> = Vec::new();
        match self {
            Value::Nil => push_all(&mut out, &['n' as u8, 'i' as u8, 'l' as u8]),
            Value::Boolean(b) => if *b {
                push_all(&mut out, &['t' as u8, 'r' as u8, 'u' as u8, 'e' as u8])
            } else {
                push_all(&mut out, &['f' as u8, 'a' as u8, 'l' as u8, 's' as u8, 'e' as u8])
            },
            Value::Integer(i) => {
                let i = *i;
                if i < 0 {
                    out.push('-' as u8);
                    let mag: u64 = (-(i + 1)) as u64 + 1;
                    push_digits(&mut out, mag, 10);
                } else {
                    push_digits(&mut out, i as u64, 10);
                }
            },
            Value::Float(_) => {},
            Value::String(s) => {
                out.push('\'' as u8);
                push_all(&mut out, s.as_slice());
                out.push('\'' as u8);
            },
            Value::Function(_) => push_all(
                &mut out,
                &['<' as u8, 'f' as u8, 'u' as u8, 'n' as u8, 'c' as u8, 't' as u8, 'i' as u8, 'o' as u8, 'n' as u8, '>' as u8],
            ),
            Value::Table(id) => {
                push_all(
                    &mut out,
                    &['{' as u8, 't' as u8, 'a' as u8, 'b' as u8, 'l' as u8, 'e' as u8, '}' as u8, ':' as u8, ' ' as u8, '0' as u8, 'x' as u8],
                );
                push_digits(&mut out, *id as u64, 16);
            },
        }
        assert(out@ =~= display_of(self@));
        out
    }
}

} // verus!
