//! Zero-copy values: classification of an extracted byte range as a JSON
//! value, without unescaping strings or converting numbers.

use vstd::prelude::*;

use crate::errors::Error;
use crate::model::{LEFT_BRACE, LEFT_BRACKET, QUOTE, RIGHT_BRACE, RIGHT_BRACKET};

verus! {

/// A borrowed field name or string body, escape sequences left intact.
#[derive(Clone, Copy, Debug, PartialEq, Eq, Hash)]
pub struct EscapedStr<'a>(pub &'a [u8]);

impl<'a> View for EscapedStr<'a> {
    type V = Seq<u8>;

    open spec fn view(&self) -> Seq<u8> {
        self.0@
    }
}

impl<'a> EscapedStr<'a> {
    /// The raw bytes, escape sequences intact.
    pub fn as_raw_str(&self) -> (r: &'a [u8])
        ensures
            r@ == self@,
    {
        self.0
    }
}

/// One field of a parsed object: its raw name and its value.
#[derive(Debug, PartialEq)]
pub struct ObjectField<'a> {
    pub name: EscapedStr<'a>,
    pub value: Value<'a>,
}

/// A parsed value. Strings keep their escape sequences; numbers keep their
/// raw text; `Raw` carries a range that was not analysed further.
#[derive(Debug, PartialEq)]
pub enum Value<'a> {
    Null,
    Boolean(bool),
    Number(&'a [u8]),
    String(EscapedStr<'a>),
    Array(Vec<Value<'a>>),
    Object(Vec<ObjectField<'a>>),
    Raw(&'a [u8]),
}

impl<'a> Value<'a> {
    /// Wrap a byte range left unanalysed.
    pub fn raw(val: &'a [u8]) -> (r: Self)
        ensures
            r == Value::Raw(val),
    {
        Value::Raw(val)
    }
}

/// What the classifier found: an atomic value, or a composite that the
/// caller recurses into.
#[derive(Debug)]
pub enum ValueType<'a> {
    Atomic(Value<'a>),
    Array,
    Object,
}

/// The byte text of `null`.
pub open spec fn null_bytes() -> Seq<u8> {
    seq![0x6eu8, 0x75u8, 0x6cu8, 0x6cu8]
}

/// The byte text of `true`.
pub open spec fn true_bytes() -> Seq<u8> {
    seq![0x74u8, 0x72u8, 0x75u8, 0x65u8]
}

/// The byte text of `false`.
pub open spec fn false_bytes() -> Seq<u8> {
    seq![0x66u8, 0x61u8, 0x6cu8, 0x73u8, 0x65u8]
}

/// An ASCII digit.
pub open spec fn is_digit(c: u8) -> bool {
    0x30 <= c <= 0x39
}

/// The first index at or after `i` that does not hold a digit.
pub open spec fn skip_digits(s: Seq<u8>, i: int) -> int
    recommends
        0 <= i <= s.len(),
    decreases s.len() - i,
{
    if i < s.len() && i >= 0 && is_digit(s[i]) {
        skip_digits(s, i + 1)
    } else {
        i
    }
}

/// Where the mantissa starting at `i0` ends: digits with an optional
/// fraction, or a fraction alone; `-1` when there is no mantissa.
pub open spec fn after_mantissa(s: Seq<u8>, i0: int) -> int
    recommends
        0 <= i0 <= s.len(),
{
    let i1 = skip_digits(s, i0);
    if i1 > i0 {
        if i1 < s.len() && s[i1] == 0x2e {
            skip_digits(s, i1 + 1)
        } else {
            i1
        }
    } else if i0 < s.len() && s[i0] == 0x2e && skip_digits(s, i0 + 1) > i0 + 1 {
        skip_digits(s, i0 + 1)
    } else {
        -1
    }
}

/// A decimal number: an optional sign, a mantissa, and an optional
/// exponent with at least one digit.
pub open spec fn is_number(s: Seq<u8>) -> bool {
    let n = s.len() as int;
    let i0: int = if n > 0 && (s[0] == 0x2b || s[0] == 0x2d) {
        1
    } else {
        0
    };
    let m = after_mantissa(s, i0);
    if m < 0 {
        false
    } else if m == n {
        true
    } else if s[m] == 0x65 || s[m] == 0x45 {
        let j0: int = if m + 1 < n && (s[m + 1] == 0x2b || s[m + 1] == 0x2d) {
            m + 2
        } else {
            m + 1
        };
        skip_digits(s, j0) == n && skip_digits(s, j0) > j0
    } else {
        false
    }
}

/// Two byte slices hold the same bytes.
fn bytes_eq(a: &[u8], b: &[u8]) -> (r: bool)
    ensures
        r == (a@ == b@),
{
    if a.len() != b.len() {
        proof {
            assert(a@.len() != b@.len());
        }
        return false;
    }
    let n = a.len();
    let mut i: usize = 0;
    while i < n
        invariant
            i <= n,
            n == a@.len() == b@.len(),
            forall|j: int| 0 <= j < i ==> a@[j] == b@[j],
        decreases n - i,
    {
        if a[i] != b[i] {
            return false;
        }
        i = i + 1;
    }
    proof {
        assert(a@ =~= b@);
    }
    true
}

/// The first index at or after `from` without a digit, executable.
fn scan_digits(s: &[u8], from: usize) -> (r: usize)
    requires
        from <= s@.len(),
    ensures
        r == skip_digits(s@, from as int),
        from <= r <= s@.len(),
{
    let n = s.len();
    let mut i = from;
    while i < n && s[i] >= 0x30 && s[i] <= 0x39
        invariant
            from <= i <= n,
            n == s@.len(),
            skip_digits(s@, from as int) == skip_digits(s@, i as int),
        decreases n - i,
    {
        i = i + 1;
    }
    i
}

/// Check the decimal-number grammar on raw bytes.
fn is_numeric(s: &[u8]) -> (r: bool)
    ensures
        r == is_number(s@),
{
    let n = s.len();
    let i0: usize = if n > 0 && (s[0] == 0x2b || s[0] == 0x2d) {
        1
    } else {
        0
    };
    let i1 = scan_digits(s, i0);
    let m: usize = if i1 > i0 {
        if i1 < n && s[i1] == 0x2e {
            scan_digits(s, i1 + 1)
        } else {
            i1
        }
    } else if i0 < n && s[i0] == 0x2e {
        let i2 = scan_digits(s, i0 + 1);
        if i2 > i0 + 1 {
            i2
        } else {
            return false;
        }
    } else {
        return false;
    };
    proof {
        assert(m as int == after_mantissa(s@, i0 as int));
    }
    if m == n {
        return true;
    }
    if s[m] == 0x65 || s[m] == 0x45 {
        let j0: usize = if m + 1 < n && (s[m + 1] == 0x2b || s[m + 1] == 0x2d) {
            m + 2
        } else {
            m + 1
        };
        let j1 = scan_digits(s, j0);
        j1 == n && j1 > j0
    } else {
        false
    }
}

/// The texts the classifier accepts: a literal, a quoted string, an array
/// or object frame, or a decimal number.
pub open spec fn lexes(v: Seq<u8>) -> bool {
    ||| v == null_bytes()
    ||| v == true_bytes()
    ||| v == false_bytes()
    ||| (v.len() > 1 && v[0] == QUOTE && v[v.len() - 1] == QUOTE)
    ||| (v.len() > 0 && v[0] == LEFT_BRACKET && v[v.len() - 1] == RIGHT_BRACKET)
    ||| (v.len() > 0 && v[0] == LEFT_BRACE && v[v.len() - 1] == RIGHT_BRACE)
    ||| is_number(v)
}

/// Classify the byte text of a value: the literals `null`, `true` and
/// `false`; a quoted string; an array or object to recurse into; or a
/// number. Anything else is a malformed record.
pub fn parse<'a>(s: &'a [u8]) -> (r: Result<ValueType<'a>, Error>)
    ensures
        r is Ok <==> lexes(s@),
        s@ == null_bytes() ==> r matches Ok(ValueType::Atomic(Value::Null)),
        s@ == true_bytes() ==> (r matches Ok(ValueType::Atomic(Value::Boolean(b))) && b),
        s@ == false_bytes() ==> (r matches Ok(ValueType::Atomic(Value::Boolean(b))) && !b),
        s@ != null_bytes() && s@ != true_bytes() && s@ != false_bytes() && s@.len() > 1 && s@[0]
            == QUOTE && s@[s@.len() - 1] == QUOTE ==> (r matches Ok(
            ValueType::Atomic(Value::String(body)),
        ) && body@ == s@.subrange(1, s@.len() - 1)),
        s@ != null_bytes() && s@ != true_bytes() && s@ != false_bytes() && !(s@.len() > 1 && s@[0]
            == QUOTE && s@[s@.len() - 1] == QUOTE) && s@.len() > 0 && s@[0] == LEFT_BRACKET && s@[
            s@.len() - 1] == RIGHT_BRACKET ==> r matches Ok(ValueType::Array),
        s@ != null_bytes() && s@ != true_bytes() && s@ != false_bytes() && !(s@.len() > 1 && s@[0]
            == QUOTE && s@[s@.len() - 1] == QUOTE) && !(s@.len() > 0 && s@[0] == LEFT_BRACKET
            && s@[s@.len() - 1] == RIGHT_BRACKET) && s@.len() > 0 && s@[0] == LEFT_BRACE && s@[
            s@.len() - 1] == RIGHT_BRACE ==> r matches Ok(ValueType::Object),
        s@ != null_bytes() && s@ != true_bytes() && s@ != false_bytes() && !(s@.len() > 1 && s@[0]
            == QUOTE && s@[s@.len() - 1] == QUOTE) && !(s@.len() > 0 && s@[0] == LEFT_BRACKET
            && s@[s@.len() - 1] == RIGHT_BRACKET) && !(s@.len() > 0 && s@[0] == LEFT_BRACE && s@[
            s@.len() - 1] == RIGHT_BRACE) ==> (is_number(s@) ==> (r matches Ok(
            ValueType::Atomic(Value::Number(t)),
        ) && t@ == s@)) && (!is_number(s@) ==> (r matches Err(e) && e == Error::InvalidRecord)),
{
    let n = s.len();
    if bytes_eq(s, &[0x6e, 0x75, 0x6c, 0x6c]) {
        proof {
            assert(s@ == null_bytes());
        }
        Result::Ok(ValueType::Atomic(Value::Null))
    } else if bytes_eq(s, &[0x74, 0x72, 0x75, 0x65]) {
        proof {
            assert(s@ == true_bytes());
        }
        Result::Ok(ValueType::Atomic(Value::Boolean(true)))
    } else if bytes_eq(s, &[0x66, 0x61, 0x6c, 0x73, 0x65]) {
        proof {
            assert(s@ == false_bytes());
        }
        Result::Ok(ValueType::Atomic(Value::Boolean(false)))
    } else if n > 1 && s[0] == QUOTE && s[n - 1] == QUOTE {
        let body = vstd::slice::slice_subrange(s, 1, n - 1);
        Result::Ok(ValueType::Atomic(Value::String(EscapedStr(body))))
    } else if n > 0 && s[0] == LEFT_BRACKET && s[n - 1] == RIGHT_BRACKET {
        Result::Ok(ValueType::Array)
    } else if n > 0 && s[0] == LEFT_BRACE && s[n - 1] == RIGHT_BRACE {
        Result::Ok(ValueType::Object)
    } else if is_numeric(s) {
        Result::Ok(ValueType::Atomic(Value::Number(s)))
    } else {
        proof {
            if s@ == null_bytes() || s@ == true_bytes() || s@ == false_bytes() {
                assert(false);
            }
        }
        Result::Err(Error::InvalidRecord)
    }
}

} // verus!
