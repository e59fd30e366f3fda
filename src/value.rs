use vstd::prelude::*;

use crate::classify::{classify, classify_chars, is_digit, is_parenthesized, is_quoted_bool, ValueType};
use crate::error::Error;
use crate::text::{chars_of, string_from_chars};

verus! {

/// Physical units that a value may carry.
#[derive(Debug, Clone, Copy, PartialEq, Eq, Structural)]
pub enum ValueUnits {
    Celcius,
    Farenheit,
    Degrees,
    Radians,
    Milliseconds,
    Seconds,
}

/// A raw value text with the type that classification gives it.
#[derive(Debug)]
pub struct Value {
    value_raw: String,
    chars: Vec<char>,
    value_type: ValueType,
}

impl View for Value {
    type V = Seq<char>;

    closed spec fn view(&self) -> Seq<char> {
        self.value_raw@
    }
}

/// The pieces of `s` between commas, in order: `n` commas give `n + 1` pieces.
pub open spec fn split_commas(s: Seq<char>) -> Seq<Seq<char>>
    decreases s.len(),
{
    if s.len() == 0 {
        seq![Seq::empty()]
    } else {
        let prev = split_commas(s.drop_last());
        if s.last() == ',' {
            prev.push(Seq::empty())
        } else {
            prev.update(prev.len() - 1, prev.last().push(s.last()))
        }
    }
}

/// The text between the first and the last character.
pub open spec fn inner_text(s: Seq<char>) -> Seq<char> {
    s.subrange(1, s.len() - 1)
}

pub open spec fn all_digits(d: Seq<char>) -> bool {
    forall|i: int| 0 <= i < d.len() ==> is_digit(#[trigger] d[i])
}

pub open spec fn digit_value(c: char) -> int {
    c as int - '0' as int
}

/// The number that a run of decimal digits denotes.
pub open spec fn decimal_value(d: Seq<char>) -> int
    decreases d.len(),
{
    if d.len() == 0 {
        0
    } else {
        10 * decimal_value(d.drop_last()) + digit_value(d.last())
    }
}

/// Rust's decimal integer syntax: an optional sign (`-` only where `signed`),
/// then one or more ASCII digits and nothing else.
pub open spec fn integer_syntax(s: Seq<char>, signed: bool) -> Option<int> {
    let neg = signed && s.len() > 0 && s[0] == '-';
    let digits = if s.len() > 0 && (s[0] == '+' || neg) {
        s.skip(1)
    } else {
        s
    };
    if digits.len() > 0 && all_digits(digits) {
        Some(
            if neg {
                -decimal_value(digits)
            } else {
                decimal_value(digits)
            },
        )
    } else {
        None
    }
}

/// What an integer accessor with range `lo..=hi` returns for a value with raw text `s`.
pub open spec fn integer_accessor(s: Seq<char>, signed: bool, lo: int, hi: int) -> Result<
    int,
    Error,
> {
    if classify(s) != ValueType::Integer {
        Err(Error::InvalidType)
    } else {
        match integer_syntax(s, signed) {
            Some(v) => if lo <= v <= hi {
                Ok(v)
            } else {
                Err(Error::ValueTypeParseError)
            },
            None => Err(Error::ValueTypeParseError),
        }
    }
}

/// Rust's boolean syntax: exactly `true` or `false`.
pub open spec fn bool_syntax(s: Seq<char>) -> Option<bool> {
    if s == seq!['t', 'r', 'u', 'e'] {
        Some(true)
    } else if s == seq!['f', 'a', 'l', 's', 'e'] {
        Some(false)
    } else {
        None
    }
}

/// A parenthesized text is an `Array`, whatever stands inside, and none of
/// the elements that splitting its inner text gives holds a comma.
pub proof fn lemma_parenthesized_is_array(s: Seq<char>)
    requires
        is_parenthesized(s),
    ensures
        classify(s) == ValueType::Array,
        forall|i: int, j: int|
            0 <= i < split_commas(inner_text(s)).len() && 0 <= j < split_commas(
                inner_text(s),
            )[i].len() ==> #[trigger] split_commas(inner_text(s))[i][j] != ',',
{
    assert(!is_quoted_bool(s)) by {
        if s == seq!['"', 'T', 'R', 'U', 'E', '"'] || s == seq!['"', 'F', 'A', 'L', 'S', 'E', '"'] {
            assert(s[0] == '"');
        }
    }
    lemma_split_commas_pieces(inner_text(s));
}

proof fn lemma_split_commas_pieces(s: Seq<char>)
    ensures
        split_commas(s).len() >= 1,
        forall|i: int, j: int|
            0 <= i < split_commas(s).len() && 0 <= j < split_commas(s)[i].len()
                ==> #[trigger] split_commas(s)[i][j] != ',',
    decreases s.len(),
{
    if s.len() > 0 {
        let prev = split_commas(s.drop_last());
        lemma_split_commas_pieces(s.drop_last());
        if s.last() != ',' {
            let cur = split_commas(s);
            assert forall|i: int, j: int|
                0 <= i < cur.len() && 0 <= j < cur[i].len() implies #[trigger] cur[i][j]
                    != ',' by {
                if i < prev.len() - 1 {
                    assert(cur[i] == prev[i]);
                } else if j < prev.last().len() {
                    assert(cur[i][j] == prev[prev.len() - 1][j]);
                }
            }
        } else {
            let cur = split_commas(s);
            assert forall|i: int, j: int|
                0 <= i < cur.len() && 0 <= j < cur[i].len() implies #[trigger] cur[i][j]
                    != ',' by {
                assert(cur[i] == prev[i]);
            }
        }
    }
}

proof fn lemma_decimal_value_grows(d: Seq<char>, k: int)
    requires
        all_digits(d),
        0 <= k <= d.len(),
    ensures
        0 <= decimal_value(d.take(k)) <= decimal_value(d),
    decreases d.len(),
{
    if k == d.len() {
        assert(d.take(k) =~= d);
        if d.len() > 0 {
            lemma_decimal_value_grows(d.drop_last(), 0);
        }
    } else {
        let p = d.drop_last();
        assert(all_digits(p));
        lemma_decimal_value_grows(p, k);
        assert(p.take(k) =~= d.take(k));
    }
}

/// The value of `s` under `integer_syntax`, where it lies in `lo..=hi`.
fn parse_integer_in(s: &[char], signed: bool, lo: i128, hi: i128) -> (r: Option<i128>)
    requires
        -0x1_0000_0000_0000_0000 <= lo <= 0 <= hi <= 0x1_0000_0000_0000_0000,
    ensures
        match integer_syntax(s@, signed) {
            Some(v) => if lo <= v <= hi {
                r == Some(v as i128)
            } else {
                r is None
            },
            None => r is None,
        },
{
    let n = s.len();
    let neg = signed && n > 0 && s[0] == '-';
    let st: usize = if n > 0 && (s[0] == '+' || neg) {
        1
    } else {
        0
    };
    let ghost digits = if st == 1 {
        s@.skip(1)
    } else {
        s@
    };
    if st == n {
        return None;
    }
    let bound: u128 = if neg {
        (0 - lo) as u128
    } else {
        hi as u128
    };
    let mut mag: u128 = 0;
    let mut i: usize = st;
    while i < n
        invariant
            st <= i <= n == s@.len(),
            digits =~= s@.skip(st as int),
            neg ==> st == 1,
            integer_syntax(s@, signed) == (if all_digits(digits) && digits.len() > 0 {
                Some(
                    if neg {
                        -decimal_value(digits)
                    } else {
                        decimal_value(digits)
                    },
                )
            } else {
                None
            }),
            bound == (if neg {
                -lo
            } else {
                hi as int
            }),
            all_digits(digits.take(i - st)),
            mag == decimal_value(digits.take(i - st)),
            mag <= bound <= 0x1_0000_0000_0000_0000,
        decreases n - i,
    {
        let c = s[i];
        if !('0' <= c && c <= '9') {
            assert(!is_digit(digits[i - st]));
            return None;
        }
        let d = (c as u32 - '0' as u32) as u128;
        assert(digits.take(i + 1 - st).drop_last() =~= digits.take(i - st));
        mag = mag * 10 + d;
        assert(all_digits(digits.take(i + 1 - st)));
        i = i + 1;
        if mag > bound {
            proof {
                if all_digits(digits) {
                    lemma_decimal_value_grows(digits, i - st);
                }
            }
            return None;
        }
    }
    assert(digits.take(n - st) =~= digits);
    if neg {
        Some(0 - mag as i128)
    } else {
        Some(mag as i128)
    }
}

impl Value {
    #[verifier::type_invariant]
    spec fn inv(&self) -> bool {
        &&& self.chars@ == self.value_raw@
        &&& self.value_type == classify(self.value_raw@)
    }

    /// A value with the given raw text, classified.
    pub fn new(value_raw: &str) -> (r: Self)
        ensures
            r@ == value_raw@,
    {
        let chars = chars_of(value_raw);
        let value_type = classify_chars(chars.as_slice());
        Value { value_raw: value_raw.to_owned(), chars, value_type }
    }

    /// A value whose raw text is the given characters.
    pub fn from_chars(chars: Vec<char>) -> (r: Self)
        ensures
            r@ == chars@,
    {
        let value_raw = string_from_chars(chars.as_slice());
        let value_type = classify_chars(chars.as_slice());
        Value { value_raw, chars, value_type }
    }

    /// The type that classification gives the raw text.
    pub fn determine_type(value_raw: &str) -> (r: ValueType)
        ensures
            r == classify(value_raw@),
    {
        let chars = chars_of(value_raw);
        classify_chars(chars.as_slice())
    }

    pub fn value_type(&self) -> (r: ValueType)
        ensures
            r == classify(self@),
    {
        proof {
            use_type_invariant(self);
        }
        self.value_type
    }

    /// The raw text, as it was read.
    pub fn raw(&self) -> (r: &str)
        ensures
            r@ == self@,
    {
        self.value_raw.as_str()
    }

    /// The elements of an array: the text between the parentheses, split on
    /// every comma. Commas inside quotes or nested parentheses split too.
    pub fn parse_array(&self) -> (r: Result<Vec<Value>, Error>)
        ensures
            classify(self@) != ValueType::Array ==> r == Err::<Vec<Value>, Error>(
                Error::InvalidType,
            ),
            classify(self@) == ValueType::Array ==> r is Ok && r->Ok_0@.len() == split_commas(
                inner_text(self@),
            ).len() && forall|i: int|
                0 <= i < r->Ok_0@.len() ==> (#[trigger] r->Ok_0@[i])@ == split_commas(
                    inner_text(self@),
                )[i],
    {
        proof {
            use_type_invariant(self);
        }
        if self.value_type != ValueType::Array {
            return Err(Error::InvalidType);
        }
        let s = self.chars.as_slice();
        let n = s.len();
        let ghost inner = inner_text(self@);
        let mut out: Vec<Value> = Vec::new();
        let mut cur: Vec<char> = Vec::new();
        let mut i: usize = 1;
        proof {
            assert(inner.take(0) =~= Seq::<char>::empty());
        }
        while i < n - 1
            invariant
                2 <= n == s@.len(),
                s@ == self@,
                inner == s@.subrange(1, n - 1),
                1 <= i <= n - 1,
                out@.len() + 1 == split_commas(inner.take(i - 1)).len(),
                forall|j: int|
                    0 <= j < out@.len() ==> (#[trigger] out@[j])@ == split_commas(
                        inner.take(i - 1),
                    )[j],
                cur@ == split_commas(inner.take(i - 1)).last(),
            decreases n - 1 - i,
        {
            let c = s[i];
            let ghost prev = split_commas(inner.take(i - 1));
            proof {
                lemma_split_commas_pieces(inner.take(i - 1));
                assert(inner.take(i as int).drop_last() =~= inner.take(i - 1));
                assert(inner.take(i as int).last() == c);
            }
            if c == ',' {
                let v = Value::from_chars(cur);
                out.push(v);
                cur = Vec::new();
                assert(cur@ =~= Seq::<char>::empty());
            } else {
                cur.push(c);
            }
            i = i + 1;
        }
        proof {
            assert(inner.take(i - 1) =~= inner);
        }
        out.push(Value::from_chars(cur));
        Ok(out)
    }

    fn parse_integer(&self, signed: bool, lo: i128, hi: i128) -> (r: Result<i128, Error>)
        requires
            -0x1_0000_0000_0000_0000 <= lo <= 0 <= hi <= 0x1_0000_0000_0000_0000,
        ensures
            match integer_accessor(self@, signed, lo as int, hi as int) {
                Ok(v) => r == Ok::<i128, Error>(v as i128),
                Err(e) => r == Err::<i128, Error>(e),
            },
    {
        proof {
            use_type_invariant(self);
        }
        if self.value_type != ValueType::Integer {
            return Err(Error::InvalidType);
        }
        match parse_integer_in(self.chars.as_slice(), signed, lo, hi) {
            Some(v) => Ok(v),
            None => Err(Error::ValueTypeParseError),
        }
    }

    pub fn parse_u8(&self) -> (r: Result<u8, Error>)
        ensures
            match integer_accessor(self@, false, 0, 0xff) {
                Ok(v) => r == Ok::<u8, Error>(v as u8),
                Err(e) => r == Err::<u8, Error>(e),
            },
    {
        match self.parse_integer(false, 0, 0xff) {
            Ok(v) => Ok(v as u8),
            Err(e) => Err(e),
        }
    }
    pub fn parse_u16(&self) -> (r: Result<u16, Error>)
        ensures
            match integer_accessor(self@, false, 0, 0xffff) {
                Ok(v) => r == Ok::<u16, Error>(v as u16),
                Err(e) => r == Err::<u16, Error>(e),
            },
    {
        match self.parse_integer(false, 0, 0xffff) {
            Ok(v) => Ok(v as u16),
            Err(e) => Err(e),
        }
    }

    pub fn parse_u32(&self) -> (r: Result<u32, Error>)
        ensures
            match integer_accessor(self@, false, 0, 0xffff_ffff) {
                Ok(v) => r == Ok::<u32, Error>(v as u32),
                Err(e) => r == Err::<u32, Error>(e),
            },
    {
        match self.parse_integer(false, 0, 0xffff_ffff) {
            Ok(v) => Ok(v as u32),
            Err(e) => Err(e),
        }
    }

    pub fn parse_u64(&self) -> (r: Result<u64, Error>)
        ensures
            match integer_accessor(self@, false, 0, 0xffff_ffff_ffff_ffff) {
                Ok(v) => r == Ok::<u64, Error>(v as u64),
                Err(e) => r == Err::<u64, Error>(e),
            },
    {
        match self.parse_integer(false, 0, 0xffff_ffff_ffff_ffff) {
            Ok(v) => Ok(v as u64),
            Err(e) => Err(e),
        }
    }

    pub fn parse_i8(&self) -> (r: Result<i8, Error>)
        ensures
            match integer_accessor(self@, true, -0x80, 0x7f) {
                Ok(v) => r == Ok::<i8, Error>(v as i8),
                Err(e) => r == Err::<i8, Error>(e),
            },
    {
        match self.parse_integer(true, -0x80, 0x7f) {
            Ok(v) => Ok(v as i8),
            Err(e) => Err(e),
        }
    }

    pub fn parse_i16(&self) -> (r: Result<i16, Error>)
        ensures
            match integer_accessor(self@, true, -0x8000, 0x7fff) {
                Ok(v) => r == Ok::<i16, Error>(v as i16),
                Err(e) => r == Err::<i16, Error>(e),
            },
    {
        match self.parse_integer(true, -0x8000, 0x7fff) {
            Ok(v) => Ok(v as i16),
            Err(e) => Err(e),
        }
    }

    pub fn parse_i32(&self) -> (r: Result<i32, Error>)
        ensures
            match integer_accessor(self@, true, -0x8000_0000, 0x7fff_ffff) {
                Ok(v) => r == Ok::<i32, Error>(v as i32),
                Err(e) => r == Err::<i32, Error>(e),
            },
    {
        match self.parse_integer(true, -0x8000_0000, 0x7fff_ffff) {
            Ok(v) => Ok(v as i32),
            Err(e) => Err(e),
        }
    }

    pub fn parse_i64(&self) -> (r: Result<i64, Error>)
        ensures
            match integer_accessor(self@, true, -0x8000_0000_0000_0000, 0x7fff_ffff_ffff_ffff) {
                Ok(v) => r == Ok::<i64, Error>(v as i64),
                Err(e) => r == Err::<i64, Error>(e),
            },
    {
        match self.parse_integer(true, -0x8000_0000_0000_0000, 0x7fff_ffff_ffff_ffff) {
            Ok(v) => Ok(v as i64),
            Err(e) => Err(e),
        }
    }

    /// The value as a boolean, by Rust's boolean syntax. A `Bool` value keeps
    /// its quotes in the raw text (`"TRUE"`), which that syntax does not take.
    pub fn parse_bool(&self) -> (r: Result<bool, Error>)
        ensures
            classify(self@) != ValueType::Bool ==> r == Err::<bool, Error>(Error::InvalidType),
            classify(self@) == ValueType::Bool ==> r == match bool_syntax(self@) {
                Some(b) => Ok::<bool, Error>(b),
                None => Err(Error::ValueTypeParseError),
            },
    {
        proof {
            use_type_invariant(self);
        }
        if self.value_type != ValueType::Bool {
            return Err(Error::InvalidType);
        }
        let s = self.chars.as_slice();
        if s.len() == 4 && s[0] == 't' && s[1] == 'r' && s[2] == 'u' && s[3] == 'e' {
            assert(s@ =~= seq!['t', 'r', 'u', 'e']);
            Ok(true)
        } else if s.len() == 5 && s[0] == 'f' && s[1] == 'a' && s[2] == 'l' && s[3] == 's' && s[4]
            == 'e' {
            assert(s@ =~= seq!['f', 'a', 'l', 's', 'e']);
            Ok(false)
        } else {
            Err(Error::ValueTypeParseError)
        }
    }

    /// The raw text of a `String` value, quotes included.
    pub fn parse_string(&self) -> (r: Result<String, Error>)
        ensures
            classify(self@) != ValueType::String ==> r == Err::<String, Error>(Error::InvalidType),
            classify(self@) == ValueType::String ==> r is Ok && r->Ok_0@ == self@,
    {
        proof {
            use_type_invariant(self);
        }
        if self.value_type != ValueType::String {
            return Err(Error::InvalidType);
        }
        Ok(self.value_raw.clone())
    }

    /// The raw text of a `Flag` value.
    pub fn parse_flag(&self) -> (r: Result<String, Error>)
        ensures
            classify(self@) != ValueType::Flag ==> r == Err::<String, Error>(Error::InvalidType),
            classify(self@) == ValueType::Flag ==> r is Ok && r->Ok_0@ == self@,
    {
        proof {
            use_type_invariant(self);
        }
        if self.value_type != ValueType::Flag {
            return Err(Error::InvalidType);
        }
        Ok(self.value_raw.clone())
    }
}

} // verus!
