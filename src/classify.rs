use vstd::prelude::*;

verus! {

/// The semantic type of a value's raw text.
#[derive(Debug, Clone, Copy, PartialEq, Eq, Structural)]
pub enum ValueType {
    Undetermined,
    Array,
    String,
    Float,
    Integer,
    Bool,
    /// A bare identifier that is not wrapped in quotes.
    Flag,
    BitMask,
}

/// The character classes that the classification rules scan runs of.
#[derive(Debug, Clone, Copy, PartialEq, Eq, Structural)]
pub enum CharClass {
    Dash,
    Digit,
    BinaryDigit,
    RadixDigit,
    LetterOrUnderscore,
    Alphanumeric,
}

pub open spec fn is_letter(c: char) -> bool {
    ('a' <= c && c <= 'z') || ('A' <= c && c <= 'Z')
}

pub open spec fn is_digit(c: char) -> bool {
    '0' <= c && c <= '9'
}

pub open spec fn in_class(k: CharClass, c: char) -> bool {
    match k {
        CharClass::Dash => c == '-',
        CharClass::Digit => is_digit(c),
        CharClass::BinaryDigit => c == '0' || c == '1',
        CharClass::RadixDigit => '1' <= c && c <= '8',
        CharClass::LetterOrUnderscore => is_letter(c) || c == '_',
        CharClass::Alphanumeric => is_letter(c) || is_digit(c),
    }
}

/// The end of the longest run of class `k` that starts at `i`.
pub open spec fn run_end(s: Seq<char>, i: int, k: CharClass) -> int
    decreases s.len() - i,
{
    if 0 <= i < s.len() && in_class(k, s[i]) {
        run_end(s, i + 1, k)
    } else {
        i
    }
}

pub open spec fn all_in_class(s: Seq<char>, lo: int, hi: int, k: CharClass) -> bool {
    forall|j: int| lo <= j < hi ==> in_class(k, #[trigger] s[j])
}

/// `"TRUE"` or `"FALSE"`, quotes included, and nothing else.
pub open spec fn is_quoted_bool(s: Seq<char>) -> bool {
    s == seq!['"', 'T', 'R', 'U', 'E', '"'] || s == seq!['"', 'F', 'A', 'L', 'S', 'E', '"']
}

/// Opens and closes with a double quote.
pub open spec fn is_quoted(s: Seq<char>) -> bool {
    s.len() >= 2 && s[0] == '"' && s[s.len() - 1] == '"'
}

/// Opens with `(` and closes with `)`.
pub open spec fn is_parenthesized(s: Seq<char>) -> bool {
    s.len() >= 2 && s[0] == '(' && s[s.len() - 1] == ')'
}

/// Leading dashes, at least one digit, a point and a digit (whatever follows).
pub open spec fn is_float_text(s: Seq<char>) -> bool {
    let a = run_end(s, 0, CharClass::Dash);
    let b = run_end(s, a, CharClass::Digit);
    a < b && b < s.len() - 1 && s[b] == '.' && is_digit(s[b + 1])
}

/// Leading dashes and at least one digit, the digits not followed by `#`.
pub open spec fn is_integer_text(s: Seq<char>) -> bool {
    let a = run_end(s, 0, CharClass::Dash);
    let b = run_end(s, a, CharClass::Digit);
    a < b && (b == s.len() || s[b] != '#')
}

/// One or more letters or underscores, then one or more letters or digits, to the end.
pub open spec fn is_flag_text(s: Seq<char>) -> bool {
    exists|k: int|
        1 <= k < s.len() && #[trigger] all_in_class(s, 0, k, CharClass::LetterOrUnderscore)
            && all_in_class(s, k, s.len() as int, CharClass::Alphanumeric)
}

/// Radix digits `1`-`8`, `#`, one or more binary digits, and a closing `#` at the end.
pub open spec fn is_bitmask_text(s: Seq<char>) -> bool {
    let r = run_end(s, 0, CharClass::RadixDigit);
    let q = run_end(s, r + 1, CharClass::BinaryDigit);
    r < s.len() && s[r] == '#' && r + 1 < q && q + 1 == s.len() && s[q] == '#'
}

/// The type of a raw text: the first rule that matches, in this order, wins.
pub open spec fn classify(s: Seq<char>) -> ValueType {
    if is_quoted_bool(s) {
        ValueType::Bool
    } else if is_quoted(s) {
        ValueType::String
    } else if is_parenthesized(s) {
        ValueType::Array
    } else if is_float_text(s) {
        ValueType::Float
    } else if is_integer_text(s) {
        ValueType::Integer
    } else if is_flag_text(s) {
        ValueType::Flag
    } else if is_bitmask_text(s) {
        ValueType::BitMask
    } else {
        ValueType::Undetermined
    }
}

proof fn lemma_run_end(s: Seq<char>, i: int, k: CharClass)
    requires
        0 <= i <= s.len(),
    ensures
        i <= run_end(s, i, k) <= s.len(),
        all_in_class(s, i, run_end(s, i, k), k),
        run_end(s, i, k) == s.len() || !in_class(k, s[run_end(s, i, k)]),
    decreases s.len() - i,
{
    if i < s.len() && in_class(k, s[i]) {
        lemma_run_end(s, i + 1, k);
    }
}

fn char_in_class(k: CharClass, c: char) -> (r: bool)
    ensures
        r == in_class(k, c),
{
    match k {
        CharClass::Dash => c == '-',
        CharClass::Digit => '0' <= c && c <= '9',
        CharClass::BinaryDigit => c == '0' || c == '1',
        CharClass::RadixDigit => '1' <= c && c <= '8',
        CharClass::LetterOrUnderscore => ('a' <= c && c <= 'z') || ('A' <= c && c <= 'Z') || c
            == '_',
        CharClass::Alphanumeric => ('a' <= c && c <= 'z') || ('A' <= c && c <= 'Z') || ('0' <= c
            && c <= '9'),
    }
}

/// Index just past the run of class `k` that starts at `i`.
fn skip_run(s: &[char], i: usize, k: CharClass) -> (r: usize)
    requires
        i <= s@.len(),
    ensures
        r == run_end(s@, i as int, k),
        i <= r <= s@.len(),
{
    proof {
        lemma_run_end(s@, i as int, k);
    }
    let mut j: usize = i;
    while j < s.len() && char_in_class(k, s[j])
        invariant
            i <= j <= s@.len(),
            run_end(s@, j as int, k) == run_end(s@, i as int, k),
        decreases s@.len() - j,
    {
        j = j + 1;
    }
    j
}

/// Start of the run of class `k` that ends at `hi`, scanning backwards.
fn skip_run_back(s: &[char], hi: usize, k: CharClass) -> (r: usize)
    requires
        hi <= s@.len(),
    ensures
        r <= hi,
        all_in_class(s@, r as int, hi as int, k),
        r == 0 || !in_class(k, s@[r - 1]),
{
    let mut j: usize = hi;
    while j > 0 && char_in_class(k, s[j - 1])
        invariant
            j <= hi <= s@.len(),
            all_in_class(s@, j as int, hi as int, k),
        decreases j,
    {
        j = j - 1;
    }
    j
}

fn is_quoted_bool_exec(s: &[char]) -> (r: bool)
    ensures
        r == is_quoted_bool(s@),
{
    let n = s.len();
    if n == 6 {
        let r = s[0] == '"' && s[1] == 'T' && s[2] == 'R' && s[3] == 'U' && s[4] == 'E' && s[5]
            == '"';
        assert(r ==> s@ =~= seq!['"', 'T', 'R', 'U', 'E', '"']);
        r
    } else if n == 7 {
        let r = s[0] == '"' && s[1] == 'F' && s[2] == 'A' && s[3] == 'L' && s[4] == 'S' && s[5]
            == 'E' && s[6] == '"';
        assert(r ==> s@ =~= seq!['"', 'F', 'A', 'L', 'S', 'E', '"']);
        r
    } else {
        false
    }
}

fn is_enclosed_exec(s: &[char], open: char, close: char) -> (r: bool)
    ensures
        r == (s@.len() >= 2 && s@[0] == open && s@[s@.len() - 1] == close),
{
    s.len() >= 2 && s[0] == open && s[s.len() - 1] == close
}

fn is_float_exec(s: &[char]) -> (r: bool)
    ensures
        r == is_float_text(s@),
{
    let a = skip_run(s, 0, CharClass::Dash);
    let b = skip_run(s, a, CharClass::Digit);
    a < b && b < s.len() - 1 && s[b] == '.' && char_in_class(CharClass::Digit, s[b + 1])
}

fn is_integer_exec(s: &[char]) -> (r: bool)
    ensures
        r == is_integer_text(s@),
{
    let a = skip_run(s, 0, CharClass::Dash);
    let b = skip_run(s, a, CharClass::Digit);
    a < b && (b == s.len() || s[b] != '#')
}

fn is_flag_exec(s: &[char]) -> (r: bool)
    ensures
        r == is_flag_text(s@),
{
    let n = s.len();
    if n < 2 {
        return false;
    }
    // The split may fall no later than the end of the leading letters and
    // underscores, and no earlier than the start of the trailing alphanumerics.
    let j = skip_run(s, 0, CharClass::LetterOrUnderscore);
    let m = skip_run_back(s, n, CharClass::Alphanumeric);
    proof {
        lemma_run_end(s@, 0, CharClass::LetterOrUnderscore);
    }
    let lo = if m < 1 {
        1
    } else {
        m
    };
    let hi = if j < n - 1 {
        j
    } else {
        n - 1
    };
    let r = lo <= hi;
    if r {
        assert(all_in_class(s@, 0, lo as int, CharClass::LetterOrUnderscore));
    } else {
        assert forall|k: int|
            1 <= k < s@.len() implies !#[trigger] all_in_class(
                s@,
                0,
                k,
                CharClass::LetterOrUnderscore,
            ) || !all_in_class(s@, k, s@.len() as int, CharClass::Alphanumeric) by {
            if all_in_class(s@, 0, k, CharClass::LetterOrUnderscore) && all_in_class(
                s@,
                k,
                s@.len() as int,
                CharClass::Alphanumeric,
            ) {
                if j < k {
                    assert(in_class(CharClass::LetterOrUnderscore, s@[j as int]));
                }
                if k < m {
                    assert(in_class(CharClass::Alphanumeric, s@[m - 1]));
                }
            }
        }
    }
    r
}

fn is_bitmask_exec(s: &[char]) -> (r: bool)
    ensures
        r == is_bitmask_text(s@),
{
    let n = s.len();
    let r = skip_run(s, 0, CharClass::RadixDigit);
    if r < n && s[r] == '#' {
        let q = skip_run(s, r + 1, CharClass::BinaryDigit);
        r + 1 < q && q == n - 1 && s[q] == '#'
    } else {
        false
    }
}

proof fn lemma_run_to_end(s: Seq<char>, i: int, k: CharClass)
    requires
        0 <= i <= s.len(),
        all_in_class(s, i, s.len() as int, k),
    ensures
        run_end(s, i, k) == s.len(),
    decreases s.len() - i,
{
    if i < s.len() {
        lemma_run_to_end(s, i + 1, k);
    }
}

/// A quoted `TRUE` or `FALSE` is a `Bool`, never a `String`.
pub proof fn lemma_quoted_boolean_is_bool(s: Seq<char>)
    requires
        is_quoted_bool(s),
    ensures
        classify(s) == ValueType::Bool,
        classify(s) != ValueType::String,
{
}

/// A run of decimal digits is an `Integer`, and never matches the bit mask rule.
pub proof fn lemma_digits_are_integer(s: Seq<char>)
    requires
        s.len() >= 1,
        all_in_class(s, 0, s.len() as int, CharClass::Digit),
    ensures
        classify(s) == ValueType::Integer,
        !is_bitmask_text(s),
{
    assert(in_class(CharClass::Digit, s[0]));
    assert(in_class(CharClass::Digit, s[s.len() - 1]));
    assert(!is_quoted_bool(s)) by {
        if s == seq!['"', 'T', 'R', 'U', 'E', '"'] || s == seq!['"', 'F', 'A', 'L', 'S', 'E', '"'] {
            assert(s[0] == '"');
        }
    }
    assert(run_end(s, 0, CharClass::Dash) == 0);
    lemma_run_to_end(s, 0, CharClass::Digit);
    lemma_run_end(s, 0, CharClass::RadixDigit);
    let r = run_end(s, 0, CharClass::RadixDigit);
    if r < s.len() {
        assert(in_class(CharClass::Digit, s[r]));
    }
}

/// Classifies a raw value text by the ordered rules of `classify`.
pub fn classify_chars(s: &[char]) -> (r: ValueType)
    ensures
        r == classify(s@),
{
    if is_quoted_bool_exec(s) {
        ValueType::Bool
    } else if is_enclosed_exec(s, '"', '"') {
        ValueType::String
    } else if is_enclosed_exec(s, '(', ')') {
        ValueType::Array
    } else if is_float_exec(s) {
        ValueType::Float
    } else if is_integer_exec(s) {
        ValueType::Integer
    } else if is_flag_exec(s) {
        ValueType::Flag
    } else if is_bitmask_exec(s) {
        ValueType::BitMask
    } else {
        ValueType::Undetermined
    }
}

} // verus!
