use vstd::prelude::*;
use vstd::string::StringSliceAdditionalSpecFns;

use crate::error::Error;
use crate::text::{latin1, latin1_chars, string_from_chars, trim, trimmed};
use crate::value::Value;

verus! {

/// Number of leading spaces that mark a line as continuing the previous value.
pub const CONTINUATION_INDENT: usize = 37;

pub const LF: u8 = 0x0a;
pub const CR: u8 = 0x0d;
pub const SPACE: u8 = 0x20;
pub const SLASH: u8 = 0x2f;
pub const STAR: u8 = 0x2a;
pub const EQUALS: u8 = 0x3d;
pub const CARET: u8 = 0x5e;

/// What `char_at(i)` gives on text `t`.
pub open spec fn char_result(t: Seq<u8>, i: int) -> Result<char, Error> {
    if 0 <= i < t.len() {
        Ok(t[i] as char)
    } else {
        Err(Error::Eof)
    }
}

/// One step forward, never past the end.
pub open spec fn advance_pos(t: Seq<u8>, p: int) -> int {
    if p < t.len() {
        p + 1
    } else {
        p
    }
}

pub open spec fn is_line_end(b: u8) -> bool {
    b == LF || b == CR
}

/// At the start of the text, or just after a carriage return or line feed.
pub open spec fn is_line_start(t: Seq<u8>, p: int) -> bool {
    p == 0 || (0 < p <= t.len() && is_line_end(t[p - 1]))
}

pub open spec fn is_pair_at(t: Seq<u8>, p: int, a: u8, b: u8) -> bool {
    0 <= p && p + 1 < t.len() && t[p] == a && t[p + 1] == b
}

/// A line start followed by `CONTINUATION_INDENT` spaces; `Eof` where those
/// columns and one more do not fit in the text.
pub open spec fn continuation_probe(t: Seq<u8>, p: int) -> Result<bool, Error> {
    if !is_line_start(t, p) {
        Ok(false)
    } else if p + CONTINUATION_INDENT >= t.len() {
        Err(Error::Eof)
    } else {
        Ok(forall|i: int| p <= i < p + CONTINUATION_INDENT ==> #[trigger] t[i] == SPACE)
    }
}

pub open spec fn is_continuation(t: Seq<u8>, p: int) -> bool {
    continuation_probe(t, p) == Ok::<bool, Error>(true)
}

/// The end of the left-hand side that starts at `p`: the first line end or
/// `=` at or after `p`, or the end of the text.
pub open spec fn symbol_end(t: Seq<u8>, p: int) -> int
    decreases t.len() - p,
{
    if 0 <= p < t.len() && !is_line_end(t[p]) && t[p] != EQUALS {
        symbol_end(t, p + 1)
    } else {
        p
    }
}

/// The bytes that reading the rest of a line from `p` keeps, and where it stops.
/// An `=` is skipped together with the byte after it.
pub open spec fn scan_line(t: Seq<u8>, p: int) -> (Seq<u8>, int)
    decreases t.len() - p,
{
    if p < 0 || p >= t.len() {
        (Seq::empty(), p)
    } else {
        let q = if t[p] == EQUALS {
            if p + 2 < t.len() {
                p + 2
            } else {
                t.len() as int
            }
        } else {
            p
        };
        if q >= t.len() || is_line_end(t[q]) {
            (Seq::empty(), q)
        } else {
            let rest = scan_line(t, q + 1);
            (seq![t[q]] + rest.0, rest.1)
        }
    }
}

/// The continuation lines from `p` on: their trimmed remainders joined in
/// order, and the position after the last of them.
pub open spec fn stitch(t: Seq<u8>, p: int) -> (Seq<u8>, int)
    decreases t.len() - p,
{
    if is_continuation(t, p) {
        let line = scan_line(t, p);
        let q = advance_pos(t, line.1);
        if p < q <= t.len() {
            let rest = stitch(t, q);
            (trim(line.0) + rest.0, rest.1)
        } else {
            (Seq::empty(), p)
        }
    } else {
        (Seq::empty(), p)
    }
}

/// What reading a key/value pair at line start `p` yields: the trimmed
/// left-hand side, the value text (the rest of the first line, trimmed,
/// followed by the continuation lines), and where the cursor ends.
pub open spec fn pair_parts(t: Seq<u8>, p: int) -> (Seq<u8>, Seq<u8>, int) {
    let e = symbol_end(t, p);
    let line = scan_line(t, e);
    let rest = stitch(t, advance_pos(t, line.1));
    (trim(t.subrange(p, e)), trim(line.0) + rest.0, rest.1)
}

/// The first `*/` at or after `i`, or the end of the text where there is none.
pub open spec fn comment_close(t: Seq<u8>, i: int) -> int
    decreases t.len() - i,
{
    if i < 0 || i + 1 >= t.len() {
        t.len() as int
    } else if t[i] == STAR && t[i + 1] == SLASH {
        i
    } else {
        comment_close(t, i + 1)
    }
}

/// Whether `w` stands at `p`; `Eof` unless at least six bytes remain from `p`.
pub open spec fn keyword_at(t: Seq<u8>, p: int, w: Seq<u8>) -> Result<bool, Error> {
    if p + 5 >= t.len() {
        Err(Error::Eof)
    } else {
        Ok(t.subrange(p, p + w.len()) == w)
    }
}

/// `GROUP` in ASCII.
pub open spec fn group_word() -> Seq<u8> {
    seq![71u8, 82u8, 79u8, 85u8, 80u8]
}

/// `OBJECT` in ASCII.
pub open spec fn object_word() -> Seq<u8> {
    seq![79u8, 66u8, 74u8, 69u8, 67u8, 84u8]
}

proof fn lemma_scan_line_end(t: Seq<u8>, p: int)
    requires
        0 <= p <= t.len(),
    ensures
        p <= scan_line(t, p).1 <= t.len(),
        p < t.len() && t[p] != EQUALS && !is_line_end(t[p]) ==> p < scan_line(t, p).1,
    decreases t.len() - p,
{
    if p < t.len() {
        let q = if t[p] == EQUALS {
            if p + 2 < t.len() {
                p + 2
            } else {
                t.len() as int
            }
        } else {
            p
        };
        if q < t.len() && !is_line_end(t[q]) {
            lemma_scan_line_end(t, q + 1);
        }
    }
}

/// Where a continuation line starts at `p`, the stitched text is that line's
/// trimmed remainder followed by the stitched text of the lines after it.
pub proof fn lemma_stitch_continuation(t: Seq<u8>, p: int)
    requires
        0 <= p <= t.len(),
        is_continuation(t, p),
    ensures
        p < advance_pos(t, scan_line(t, p).1) <= t.len(),
        stitch(t, p).0 == trim(scan_line(t, p).0) + stitch(
            t,
            advance_pos(t, scan_line(t, p).1),
        ).0,
        stitch(t, p).1 == stitch(t, advance_pos(t, scan_line(t, p).1)).1,
{
    assert(t[p] == SPACE);
    lemma_scan_line_end(t, p);
}

/// `CONTINUATION_INDENT` spaces.
pub open spec fn indent() -> Seq<u8> {
    Seq::new(CONTINUATION_INDENT as nat, |i: int| SPACE)
}

/// No `=` and no line end.
pub open spec fn is_plain(r: Seq<u8>) -> bool {
    forall|i: int| 0 <= i < r.len() ==> #[trigger] r[i] != EQUALS && !is_line_end(r[i])
}

/// Continuation lines with remainders `rs`: each is the indent, its
/// remainder and a line feed.
pub open spec fn continuation_block(rs: Seq<Seq<u8>>) -> Seq<u8>
    decreases rs.len(),
{
    if rs.len() == 0 {
        Seq::empty()
    } else {
        indent() + rs[0] + seq![LF] + continuation_block(rs.skip(1))
    }
}

/// The trimmed remainders `rs`, joined in order with nothing between them.
pub open spec fn joined_trims(rs: Seq<Seq<u8>>) -> Seq<u8>
    decreases rs.len(),
{
    if rs.len() == 0 {
        Seq::empty()
    } else {
        trim(rs[0]) + joined_trims(rs.skip(1))
    }
}

proof fn lemma_scan_plain(t: Seq<u8>, q: int, e: int)
    requires
        0 <= q <= e < t.len(),
        forall|i: int| q <= i < e ==> #[trigger] t[i] != EQUALS && !is_line_end(t[i]),
        is_line_end(t[e]),
    ensures
        scan_line(t, q) == (t.subrange(q, e), e),
    decreases e - q,
{
    if q == e {
        assert(t.subrange(q, e) =~= Seq::<u8>::empty());
    } else {
        lemma_scan_plain(t, q + 1, e);
        assert(seq![t[q]] + t.subrange(q + 1, e) =~= t.subrange(q, e));
    }
}

proof fn lemma_symbol_end_plain(t: Seq<u8>, q: int, e: int)
    requires
        0 <= q <= e < t.len(),
        forall|i: int| q <= i < e ==> #[trigger] t[i] != EQUALS && !is_line_end(t[i]),
        t[e] == EQUALS,
    ensures
        symbol_end(t, q) == e,
    decreases e - q,
{
    if q < e {
        lemma_symbol_end_plain(t, q + 1, e);
    }
}

proof fn lemma_trim_spaces(k: nat, r: Seq<u8>)
    ensures
        trim(Seq::new(k, |i: int| SPACE) + r) == trim(r),
    decreases k,
{
    let s = Seq::new(k, |i: int| SPACE) + r;
    if k > 0 {
        assert(s[0] == SPACE);
        assert(s.skip(1) =~= Seq::new((k - 1) as nat, |i: int| SPACE) + r);
        lemma_trim_spaces((k - 1) as nat, r);
    } else {
        assert(s =~= r);
    }
}

/// Continuation lines with remainders `rs` stitch to the trimmed remainders
/// joined in line order, and reading ends just after the last of them.
pub proof fn lemma_stitch_block(t: Seq<u8>, p: int, rs: Seq<Seq<u8>>)
    requires
        0 <= p,
        is_line_start(t, p),
        p + continuation_block(rs).len() <= t.len(),
        t.subrange(p, p + continuation_block(rs).len()) == continuation_block(rs),
        forall|i: int| 0 <= i < rs.len() ==> is_plain(#[trigger] rs[i]),
        !is_continuation(t, p + continuation_block(rs).len()),
    ensures
        stitch(t, p) == (joined_trims(rs), p + continuation_block(rs).len()),
    decreases rs.len(),
{
    if rs.len() > 0 {
        let r = rs[0];
        let rest = rs.skip(1);
        let b = continuation_block(rs);
        let w = CONTINUATION_INDENT as int;
        let e = p + w + r.len();
        let q = e + 1;
        assert(b =~= indent() + r + seq![LF] + continuation_block(rest));
        assert forall|i: int| p <= i < q implies #[trigger] t[i] == b[i - p] by {
            assert(t.subrange(p, p + b.len())[i - p] == t[i]);
        }
        assert(is_plain(r));
        assert forall|i: int| p <= i < p + w implies #[trigger] t[i] == SPACE by {
            assert(t[i] == b[i - p]);
        }
        assert(t[e] == LF) by {
            assert(t[e] == b[e - p]);
        }
        assert forall|i: int| p <= i < e implies #[trigger] t[i] != EQUALS && !is_line_end(
            t[i],
        ) by {
            assert(t[i] == b[i - p]);
            if i >= p + w {
                assert(b[i - p] == r[i - p - w]);
            }
        }
        lemma_scan_plain(t, p, e);
        assert(t.subrange(p, e) =~= indent() + r);
        lemma_trim_spaces(CONTINUATION_INDENT as nat, r);
        assert forall|i: int| 0 <= i < rest.len() implies is_plain(#[trigger] rest[i]) by {
            assert(rest[i] == rs[i + 1]);
        }
        assert(t.subrange(q, q + continuation_block(rest).len()) =~= continuation_block(rest))
            by {
            assert forall|i: int| 0 <= i < continuation_block(rest).len() implies t.subrange(
                q,
                q + continuation_block(rest).len(),
            )[i] == continuation_block(rest)[i] by {
                assert(t.subrange(p, p + b.len())[q - p + i] == b[q - p + i]);
            }
        }
        lemma_stitch_block(t, q, rest);
    }
}

/// A line `K = V` followed by continuation lines with remainders `rs` reads as
/// the trimmed `V` and the trimmed remainders, joined in line order.
pub proof fn lemma_pair_with_continuations(
    t: Seq<u8>,
    p: int,
    k: Seq<u8>,
    v: Seq<u8>,
    rs: Seq<Seq<u8>>,
)
    requires
        0 <= p,
        is_plain(k),
        is_plain(v),
        forall|i: int| 0 <= i < rs.len() ==> is_plain(#[trigger] rs[i]),
        p + k.len() + v.len() + 4 + continuation_block(rs).len() <= t.len(),
        t.subrange(p, p + k.len() + v.len() + 4 + continuation_block(rs).len()) == k + seq![
            SPACE,
            EQUALS,
            SPACE,
        ] + v + seq![LF] + continuation_block(rs),
        !is_continuation(t, p + k.len() + v.len() + 4 + continuation_block(rs).len()),
    ensures
        pair_parts(t, p).0 == trim(k + seq![SPACE]),
        pair_parts(t, p).1 == trim(v) + joined_trims(rs),
        pair_parts(t, p).2 == p + k.len() + v.len() + 4 + continuation_block(rs).len(),
{
    let line = k + seq![SPACE, EQUALS, SPACE] + v + seq![LF];
    let b = continuation_block(rs);
    let all = line + b;
    let n = line.len() + b.len();
    let eq = p + k.len() + 1;
    let e = eq + 2 + v.len();
    assert forall|i: int| p <= i < p + n implies #[trigger] t[i] == all[i - p] by {
        assert(t.subrange(p, p + n)[i - p] == t[i]);
    }
    assert forall|i: int| p <= i < eq implies #[trigger] t[i] != EQUALS && !is_line_end(t[i]) by {
        assert(t[i] == all[i - p]);
        if i < p + k.len() {
            assert(all[i - p] == k[i - p]);
        }
    }
    assert(t[eq] == EQUALS) by {
        assert(t[eq] == all[eq - p]);
    }
    lemma_symbol_end_plain(t, p, eq);
    assert(t.subrange(p, eq) =~= k + seq![SPACE]) by {
        assert forall|i: int| 0 <= i < k.len() + 1 implies t.subrange(p, eq)[i] == (k + seq![
            SPACE,
        ])[i] by {
            assert(t[p + i] == all[i]);
        }
    }
    assert forall|i: int| eq + 2 <= i < e implies #[trigger] t[i] != EQUALS && !is_line_end(
        t[i],
    ) by {
        assert(t[i] == all[i - p]);
        assert(all[i - p] == v[i - eq - 2]);
    }
    assert(t[e] == LF) by {
        assert(t[e] == all[e - p]);
    }
    lemma_scan_plain(t, eq + 2, e);
    assert(scan_line(t, eq) == scan_line(t, eq + 2));
    assert(t.subrange(eq + 2, e) =~= v) by {
        assert forall|i: int| 0 <= i < v.len() implies t.subrange(eq + 2, e)[i] == v[i] by {
            assert(t[eq + 2 + i] == all[eq + 2 + i - p]);
        }
    }
    assert(t.subrange(e + 1, e + 1 + b.len()) =~= b) by {
        assert forall|i: int| 0 <= i < b.len() implies t.subrange(e + 1, e + 1 + b.len())[i]
            == b[i] by {
            assert(t[e + 1 + i] == all[e + 1 + i - p]);
        }
    }
    lemma_stitch_block(t, e + 1, rs);
}

proof fn lemma_symbol_end(t: Seq<u8>, p: int)
    requires
        0 <= p <= t.len(),
    ensures
        p <= symbol_end(t, p) <= t.len(),
    decreases t.len() - p,
{
    if p < t.len() && !is_line_end(t[p]) && t[p] != EQUALS {
        lemma_symbol_end(t, p + 1);
    }
}

proof fn lemma_stitch_end(t: Seq<u8>, p: int)
    requires
        0 <= p <= t.len(),
    ensures
        p <= stitch(t, p).1 <= t.len(),
    decreases t.len() - p,
{
    if is_continuation(t, p) {
        lemma_stitch_continuation(t, p);
        lemma_stitch_end(t, advance_pos(t, scan_line(t, p).1));
    }
}

/// Reading a pair from `p` inside the text ends further on.
proof fn lemma_pair_moves_on(t: Seq<u8>, p: int)
    requires
        0 <= p < t.len(),
    ensures
        p < pair_parts(t, p).2 <= t.len(),
{
    lemma_symbol_end(t, p);
    let e = symbol_end(t, p);
    lemma_scan_line_end(t, e);
    lemma_stitch_end(t, advance_pos(t, scan_line(t, e).1));
}

proof fn lemma_comment_close(t: Seq<u8>, i: int)
    requires
        0 <= i,
    ensures
        comment_close(t, i) == t.len() || (i <= comment_close(t, i) && is_pair_at(
            t,
            comment_close(t, i),
            STAR,
            SLASH,
        )),
    decreases t.len() - i,
{
    if i + 1 < t.len() && !(t[i] == STAR && t[i + 1] == SLASH) {
        lemma_comment_close(t, i + 1);
    }
}

/// The left-hand side of a line.
#[derive(Debug)]
pub enum Symbol {
    /// A name starting with `^`, the caret kept.
    Pointer(String),
    Key(String),
    Group,
    Object,
    BlankLine,
}

/// `s` is what the trimmed left-hand side `name` reads as: the checks run in
/// this order, so a key named `GROUP` reads as the keyword.
pub open spec fn symbol_denotes(s: Symbol, name: Seq<u8>) -> bool {
    if name.len() == 0 {
        s == Symbol::BlankLine
    } else if name[0] == CARET {
        s is Pointer && s->Pointer_0@ == latin1(name)
    } else if name == group_word() {
        s == Symbol::Group
    } else if name == object_word() {
        s == Symbol::Object
    } else {
        s is Key && s->Key_0@ == latin1(name)
    }
}

impl Symbol {
    /// The name that a pointer or a key holds.
    pub fn value(&self) -> (r: Option<String>)
        ensures
            match self {
                Symbol::Pointer(v) => r is Some && r->Some_0@ == v@,
                Symbol::Key(v) => r is Some && r->Some_0@ == v@,
                _ => r is None,
            },
    {
        match self {
            Symbol::Pointer(value) => Some(value.clone()),
            Symbol::Key(value) => Some(value.clone()),
            _ => None,
        }
    }
}

fn bytes_equal(a: &[u8], b: &[u8]) -> (r: bool)
    ensures
        r == (a@ == b@),
{
    if a.len() != b.len() {
        return false;
    }
    let mut i: usize = 0;
    while i < a.len()
        invariant
            i <= a@.len() == b@.len(),
            forall|j: int| 0 <= j < i ==> a@[j] == b@[j],
        decreases a@.len() - i,
    {
        if a[i] != b[i] {
            return false;
        }
        i = i + 1;
    }
    assert(a@ =~= b@);
    true
}

fn symbol_from_name(name: Vec<u8>) -> (r: Symbol)
    ensures
        symbol_denotes(r, name@),
{
    // G R O U P
    let group: [u8; 5] = [71, 82, 79, 85, 80];
    // O B J E C T
    let object: [u8; 6] = [79, 66, 74, 69, 67, 84];
    assert(group@ =~= group_word());
    assert(object@ =~= object_word());
    if name.len() == 0 {
        Symbol::BlankLine
    } else if name[0] == CARET {
        Symbol::Pointer(string_from_chars(latin1_chars(name.as_slice()).as_slice()))
    } else if bytes_equal(name.as_slice(), group.as_slice()) {
        Symbol::Group
    } else if bytes_equal(name.as_slice(), object.as_slice()) {
        Symbol::Object
    } else {
        Symbol::Key(string_from_chars(latin1_chars(name.as_slice()).as_slice()))
    }
}

/// A left-hand side together with the value that follows it.
#[derive(Debug)]
pub struct KeyValuePairRaw {
    key: Symbol,
    value: Value,
}

impl KeyValuePairRaw {
    pub closed spec fn spec_key(&self) -> Symbol {
        self.key
    }

    pub closed spec fn spec_value(&self) -> Value {
        self.value
    }

    pub fn key(&self) -> (r: &Symbol)
        ensures
            *r == self.spec_key(),
    {
        &self.key
    }

    pub fn value(&self) -> (r: &Value)
        ensures
            *r == self.spec_value(),
    {
        &self.value
    }
}

/// What one step of a scan produced.
#[derive(Debug)]
pub enum ScanEvent {
    /// The text inside a comment.
    Comment(String),
    /// A key/value pair.
    Pair(KeyValuePairRaw),
    /// A read that failed; the cursor has still moved on, where it could.
    Failed(Error),
    /// The cursor moved one byte without reading anything.
    Advanced,
}

/// A cursor over a label text, read one byte at a time.
#[derive(Debug)]
pub struct PvlReader {
    content: Vec<u8>,
    pos: usize,
}

impl PvlReader {
    /// The text under the cursor.
    pub closed spec fn text(&self) -> Seq<u8> {
        self.content@
    }

    /// The cursor's offset into the text.
    pub closed spec fn position(&self) -> int {
        self.pos as int
    }

    /// The cursor lies within the text or just at its end.
    pub closed spec fn wf(&self) -> bool {
        self.pos <= self.content@.len()
    }

    /// The cursor's offset is never negative, and lies within the text where
    /// the reader is well formed.
    pub proof fn lemma_position_bounds(&self)
        ensures
            0 <= self.position(),
            self.wf() ==> self.position() <= self.text().len(),
    {
    }

    pub fn new(content: &str) -> (r: Self)
        ensures
            r.wf(),
            r.text() == content.spec_bytes(),
            r.position() == 0,
    {
        let bytes = content.as_bytes();
        let mut v: Vec<u8> = Vec::new();
        let mut i: usize = 0;
        while i < bytes.len()
            invariant
                i <= bytes@.len(),
                v@ == bytes@.take(i as int),
            decreases bytes@.len() - i,
        {
            v.push(bytes[i]);
            assert(v@ =~= bytes@.take(i + 1));
            i = i + 1;
        }
        assert(bytes@.take(i as int) =~= bytes@);
        PvlReader { content: v, pos: 0 }
    }

    /// The byte at offset `indx`, or `Eof` past the end.
    pub fn char_at(&self, indx: usize) -> (r: Result<char, Error>)
        ensures
            r == char_result(self.text(), indx as int),
    {
        if indx >= self.content.len() {
            Err(Error::Eof)
        } else {
            Ok(self.content[indx] as char)
        }
    }

    /// The byte `indx` places after the cursor, or `Eof` past the end.
    pub fn char_at_pos_plus_n(&self, indx: usize) -> (r: Result<char, Error>)
        requires
            self.wf(),
        ensures
            r == char_result(self.text(), self.position() + indx),
    {
        if indx >= self.content.len() - self.pos {
            Err(Error::Eof)
        } else {
            Ok(self.content[self.pos + indx] as char)
        }
    }

    pub fn current_char(&self) -> (r: Result<char, Error>)
        ensures
            r == char_result(self.text(), self.position()),
    {
        self.char_at(self.pos)
    }

    pub fn peek_char(&self) -> (r: Result<char, Error>)
        requires
            self.wf(),
        ensures
            r == char_result(self.text(), self.position() + 1),
    {
        self.char_at_pos_plus_n(1)
    }

    /// Moves one byte forward, staying at the end once there, and returns the
    /// byte now under the cursor.
    pub fn next(&mut self) -> (r: Result<char, Error>)
        requires
            old(self).wf(),
        ensures
            final(self).wf(),
            final(self).text() == old(self).text(),
            0 <= final(self).position() <= final(self).text().len(),
            final(self).position() == advance_pos(old(self).text(), old(self).position()),
            r == char_result(final(self).text(), final(self).position()),
    {
        if self.pos < self.content.len() {
            self.pos = self.pos + 1;
        }
        self.current_char()
    }

    pub fn is_eof(&self) -> (r: bool)
        ensures
            r == (self.position() >= self.text().len()),
    {
        self.pos >= self.content.len()
    }

    /// Moves `num_chars` bytes forward, stopping at the end of the text.
    pub fn jump(&mut self, num_chars: usize) -> (r: Result<(), Error>)
        requires
            old(self).wf(),
        ensures
            final(self).wf(),
            final(self).text() == old(self).text(),
            0 <= final(self).position() <= final(self).text().len(),
            old(self).position() >= old(self).text().len() ==> r == Err::<(), Error>(Error::Eof)
                && final(self).position() == old(self).position(),
            old(self).position() < old(self).text().len() ==> r == Ok::<(), Error>(())
                && final(self).position() == if old(self).position() + num_chars < old(self).text().len() {
                old(self).position() + num_chars
            } else {
                old(self).text().len() as int
            },
    {
        if self.pos >= self.content.len() {
            Err(Error::Eof)
        } else {
            let remaining = self.content.len() - self.pos;
            let do_num_chars = if num_chars >= remaining {
                remaining
            } else {
                num_chars
            };
            self.pos = self.pos + do_num_chars;
            Ok(())
        }
    }

    pub fn is_at_line_start(&self) -> (r: Result<bool, Error>)
        requires
            self.wf(),
        ensures
            r == Ok::<bool, Error>(is_line_start(self.text(), self.position())),
    {
        if self.pos == 0 {
            Ok(true)
        } else {
            let c = self.content[self.pos - 1];
            Ok(c == LF || c == CR)
        }
    }

    /// Whether `/*` starts at the cursor.
    pub fn is_at_multiline_comment_start(&self) -> (r: Result<bool, Error>)
        requires
            self.wf(),
        ensures
            r == Ok::<bool, Error>(is_pair_at(self.text(), self.position(), SLASH, STAR)),
    {
        Ok(self.pair_at_cursor(SLASH, STAR))
    }

    /// Whether `*/` starts at the cursor.
    pub fn is_at_multiline_comment_end(&self) -> (r: Result<bool, Error>)
        requires
            self.wf(),
        ensures
            r == Ok::<bool, Error>(is_pair_at(self.text(), self.position(), STAR, SLASH)),
    {
        Ok(self.pair_at_cursor(STAR, SLASH))
    }

    fn bytes_between(&self, lo: usize, hi: usize) -> (r: Vec<u8>)
        requires
            lo <= hi <= self.text().len(),
        ensures
            r@ == self.text().subrange(lo as int, hi as int),
    {
        let mut r: Vec<u8> = Vec::new();
        let mut i: usize = lo;
        while i < hi
            invariant
                lo <= i <= hi <= self.content@.len(),
                r@ == self.content@.subrange(lo as int, i as int),
            decreases hi - i,
        {
            r.push(self.content[i]);
            assert(r@ =~= self.content@.subrange(lo as int, i + 1));
            i = i + 1;
        }
        r
    }

    /// Skips the comment that opens at the cursor and returns the text between
    /// `/*` and the first `*/` after it; comments do not nest. The cursor ends
    /// just past the `*/`, or at the end of the text, with `Eof`, where the
    /// comment is not closed.
    pub fn skip_multiline_comment(&mut self) -> (r: Result<String, Error>)
        requires
            old(self).wf(),
        ensures
            final(self).wf(),
            final(self).text() == old(self).text(),
            ({
                let t = old(self).text();
                let p = old(self).position();
                let c = comment_close(t, p + 2);
                if !is_pair_at(t, p, SLASH, STAR) {
                    r == Err::<String, Error>(Error::CommentIsntComment) && final(self).position()
                        == p
                } else if c < t.len() {
                    r is Ok && r->Ok_0@ == latin1(t.subrange(p + 2, c)) && final(self).position()
                        == c + 2
                } else {
                    r == Err::<String, Error>(Error::Eof) && final(self).position() == t.len()
                }
            }),
    {
        if !self.pair_at_cursor(SLASH, STAR) {
            return Err(Error::CommentIsntComment);
        }
        let ghost t = self.content@;
        let _ = self.jump(2);
        let start = self.pos;
        proof {
            lemma_comment_close(t, start as int);
        }
        while !self.pair_at_cursor(STAR, SLASH) && !self.is_eof()
            invariant
                self.wf(),
                self.text() == t,
                start <= self.pos <= t.len(),
                comment_close(t, self.pos as int) == comment_close(t, start as int),
            decreases t.len() - self.pos,
        {
            let _ = self.next();
        }
        if self.is_eof() {
            return Err(Error::Eof);
        }
        let close = self.pos;
        let interior = self.bytes_between(start, close);
        let _ = self.jump(2);
        Ok(string_from_chars(latin1_chars(interior.as_slice()).as_slice()))
    }

    pub fn is_at_pointer(&self) -> (r: Result<bool, Error>)
        ensures
            r == match char_result(self.text(), self.position()) {
                Ok(c) => Ok::<bool, Error>(c == '^'),
                Err(e) => Err(e),
            },
    {
        match self.current_char() {
            Ok(c) => Ok(c == '^'),
            Err(why) => Err(why),
        }
    }

    fn word_at_cursor(&self, w: &[u8]) -> (r: Result<bool, Error>)
        requires
            self.wf(),
            w@.len() <= 6,
        ensures
            r == keyword_at(self.text(), self.position(), w@),
    {
        if self.content.len() - self.pos <= 5 {
            return Err(Error::Eof);
        }
        let n = self.content.len();
        let mut i: usize = 0;
        while i < w.len()
            invariant
                n == self.content@.len(),
                i <= w@.len(),
                self.pos + 5 < self.content@.len(),
                self.pos + w@.len() <= self.content@.len(),
                forall|j: int| 0 <= j < i ==> self.content@[self.pos + j] == w@[j],
            decreases w@.len() - i,
        {
            if self.content[self.pos + i] != w[i] {
                let ghost sub = self.content@.subrange(self.pos as int, self.pos + w@.len());
                assert(sub[i as int] != w@[i as int]);
                assert(sub != w@);
                return Ok(false);
            }
            i = i + 1;
        }
        assert(self.content@.subrange(self.pos as int, self.pos + w@.len()) =~= w@);
        Ok(true)
    }

    /// Whether `GROUP` stands at the cursor; `Eof` unless six bytes remain.
    pub fn is_at_group(&self) -> (r: Result<bool, Error>)
        requires
            self.wf(),
        ensures
            r == keyword_at(self.text(), self.position(), group_word()),
    {
        // G R O U P
        let group: [u8; 5] = [71, 82, 79, 85, 80];
        assert(group@ =~= group_word());
        self.word_at_cursor(group.as_slice())
    }

    /// Whether `OBJECT` stands at the cursor; `Eof` unless six bytes remain.
    pub fn is_at_object(&self) -> (r: Result<bool, Error>)
        requires
            self.wf(),
        ensures
            r == keyword_at(self.text(), self.position(), object_word()),
    {
        // O B J E C T
        let object: [u8; 6] = [79, 66, 74, 69, 67, 84];
        assert(object@ =~= object_word());
        self.word_at_cursor(object.as_slice())
    }

    pub fn is_at_equals(&self) -> (r: Result<bool, Error>)
        ensures
            r == match char_result(self.text(), self.position()) {
                Ok(c) => Ok::<bool, Error>(c == '='),
                Err(e) => Err(e),
            },
    {
        match self.current_char() {
            Ok(c) => Ok(c == '='),
            Err(why) => Err(why),
        }
    }

    /// Whether the line at the cursor continues the previous value.
    pub fn is_at_value_line_continuation(&self) -> (r: Result<bool, Error>)
        requires
            self.wf(),
        ensures
            r == continuation_probe(self.text(), self.position()),
    {
        if !self.pos_is_line_start() {
            return Ok(false);
        }
        if self.content.len() - self.pos <= CONTINUATION_INDENT {
            return Err(Error::Eof);
        }
        let n = self.content.len();
        let mut i: usize = 0;
        while i < CONTINUATION_INDENT
            invariant
                n == self.content@.len(),
                i <= CONTINUATION_INDENT,
                self.pos + CONTINUATION_INDENT < self.content@.len(),
                forall|j: int| self.pos <= j < self.pos + i ==> #[trigger] self.content@[j] == SPACE,
            decreases CONTINUATION_INDENT - i,
        {
            if self.content[self.pos + i] != SPACE {
                return Ok(false);
            }
            i = i + 1;
        }
        Ok(true)
    }

    fn pos_is_line_start(&self) -> (r: bool)
        requires
            self.wf(),
        ensures
            r == is_line_start(self.text(), self.position()),
    {
        self.pos == 0 || self.content[self.pos - 1] == LF || self.content[self.pos - 1] == CR
    }

    /// Reads up to the first line end or `=` and returns it trimmed.
    fn read_symbol_text(&mut self) -> (r: Vec<u8>)
        requires
            old(self).wf(),
        ensures
            final(self).wf(),
            final(self).text() == old(self).text(),
            final(self).position() == symbol_end(old(self).text(), old(self).position()),
            r@ == trim(
                old(self).text().subrange(
                    old(self).position(),
                    symbol_end(old(self).text(), old(self).position()),
                ),
            ),
    {
        let ghost t = self.content@;
        let start = self.pos;
        while self.pos < self.content.len() && self.content[self.pos] != LF
            && self.content[self.pos] != CR && self.content[self.pos] != EQUALS
            invariant
                self.wf(),
                self.text() == t,
                start <= self.pos <= t.len(),
                symbol_end(t, self.pos as int) == symbol_end(t, start as int),
            decreases t.len() - self.pos,
        {
            let _ = self.next();
        }
        let raw = self.bytes_between(start, self.pos);
        trimmed(raw.as_slice())
    }

    /// Reads the left-hand side of the line at the cursor, leaving the cursor
    /// at the line end or `=` that closes it.
    pub fn read_symbol(&mut self) -> (r: Result<Symbol, Error>)
        requires
            old(self).wf(),
        ensures
            final(self).wf(),
            final(self).text() == old(self).text(),
            ({
                let t = old(self).text();
                let p = old(self).position();
                if is_continuation(t, p) {
                    r is Err && r->Err_0 is Syntax && final(self).position() == p
                } else if !is_line_start(t, p) {
                    r is Err && r->Err_0 is Programming && final(self).position() == p
                } else {
                    r is Ok && symbol_denotes(r->Ok_0, trim(t.subrange(p, symbol_end(t, p))))
                        && final(self).position() == symbol_end(t, p)
                }
            }),
    {
        if let Ok(true) = self.is_at_value_line_continuation() {
            return Err(
                Error::Syntax("Value line continuation without a preceding key value pair".to_owned()),
            );
        }
        if !self.pos_is_line_start() {
            return Err(
                Error::Programming(
                    "Attempt to read a key value pair when not at beginning of a line".to_owned(),
                ),
            );
        }
        let name = self.read_symbol_text();
        Ok(symbol_from_name(name))
    }

    fn read_line_bytes(&mut self) -> (r: Vec<u8>)
        requires
            old(self).wf(),
        ensures
            final(self).wf(),
            final(self).text() == old(self).text(),
            final(self).position() == scan_line(old(self).text(), old(self).position()).1,
            r@ == trim(scan_line(old(self).text(), old(self).position()).0),
    {
        let ghost t = self.content@;
        let ghost start = self.pos as int;
        let mut acc: Vec<u8> = Vec::new();
        while self.pos < self.content.len()
            invariant_except_break
                acc@ + scan_line(t, self.pos as int).0 == scan_line(t, start).0,
                scan_line(t, self.pos as int).1 == scan_line(t, start).1,
            invariant
                self.wf(),
                self.text() == t,
                start <= self.pos <= t.len(),
            ensures
                acc@ == scan_line(t, start).0,
                self.pos == scan_line(t, start).1,
            decreases t.len() - self.pos,
        {
            let ghost p = self.pos as int;
            if self.content[self.pos] == EQUALS {
                let _ = self.jump(2);
                if self.pos >= self.content.len() {
                    assert(acc@ =~= acc@ + Seq::<u8>::empty());
                    break;
                }
            }
            let c = self.content[self.pos];
            if c == LF || c == CR {
                assert(acc@ =~= acc@ + Seq::<u8>::empty());
                break;
            }
            acc.push(c);
            let _ = self.next();
            assert(acc@ + scan_line(t, self.pos as int).0 =~= scan_line(t, start).0) by {
                assert(scan_line(t, p).0 =~= seq![c] + scan_line(t, self.pos as int).0);
            }
        }
        trimmed(acc.as_slice())
    }

    /// Reads the rest of the line at the cursor, trimmed. Each `=` met on the
    /// way is dropped together with the byte after it, even inside quotes.
    /// The cursor ends at the line end or at the end of the text.
    pub fn read_remaining_line(&mut self) -> (r: Result<String, Error>)
        requires
            old(self).wf(),
        ensures
            final(self).wf(),
            final(self).text() == old(self).text(),
            final(self).position() == scan_line(old(self).text(), old(self).position()).1,
            r is Ok && r->Ok_0@ == latin1(trim(scan_line(old(self).text(), old(self).position()).0)),
    {
        let line = self.read_line_bytes();
        Ok(string_from_chars(latin1_chars(line.as_slice()).as_slice()))
    }

    /// Reads one key/value pair: the left-hand side, the rest of its line and
    /// every continuation line after it, their texts joined in order.
    pub fn read_key_value_pair_raw(&mut self) -> (r: Result<KeyValuePairRaw, Error>)
        requires
            old(self).wf(),
        ensures
            final(self).wf(),
            final(self).text() == old(self).text(),
            ({
                let t = old(self).text();
                let p = old(self).position();
                let parts = pair_parts(t, p);
                if is_continuation(t, p) {
                    r is Err && r->Err_0 is Syntax && final(self).position() == p
                } else if !is_line_start(t, p) {
                    r is Err && r->Err_0 is Programming && final(self).position() == p
                } else {
                    r is Ok && symbol_denotes(r->Ok_0.spec_key(), parts.0)
                        && r->Ok_0.spec_value()@ == latin1(parts.1) && final(self).position()
                        == parts.2
                }
            }),
    {
        if let Ok(true) = self.is_at_value_line_continuation() {
            return Err(
                Error::Syntax("Value line continuation without a preceding key value pair".to_owned()),
            );
        }
        if !self.pos_is_line_start() {
            return Err(
                Error::Programming(
                    "Attempt to read a key value pair when not at beginning of a line".to_owned(),
                ),
            );
        }
        let ghost t = self.content@;
        let name = self.read_symbol_text();
        let key = symbol_from_name(name);
        let mut value = self.read_line_bytes();
        let ghost first = value@;
        let _ = self.next();
        let ghost q = self.pos as int;
        loop
            invariant_except_break
                value@ + stitch(t, self.pos as int).0 == first + stitch(t, q).0,
                stitch(t, self.pos as int).1 == stitch(t, q).1,
            invariant
                self.wf(),
                self.text() == t,
                q <= self.pos <= t.len(),
            ensures
                value@ == first + stitch(t, q).0,
                self.pos == stitch(t, q).1,
            decreases t.len() - self.pos,
        {
            match self.is_at_value_line_continuation() {
                Ok(true) => {
                    let ghost p = self.pos as int;
                    proof {
                        lemma_stitch_continuation(t, p);
                    }
                    let mut line = self.read_line_bytes();
                    let _ = self.next();
                    let ghost before = value@;
                    value.append(&mut line);
                    assert(value@ + stitch(t, self.pos as int).0 =~= first + stitch(t, q).0) by {
                        assert(before + stitch(t, p).0 == first + stitch(t, q).0);
                    }
                },
                _ => {
                    assert(value@ =~= value@ + stitch(t, self.pos as int).0);
                    break;
                },
            }
        }
        let chars = latin1_chars(value.as_slice());
        Ok(KeyValuePairRaw { key, value: Value::from_chars(chars) })
    }

    /// One step of a scan: skips the comment that opens at the cursor, or
    /// reads the pair whose line starts there, or else moves one byte on. A
    /// pair that cannot be read is reported and stepped over, so the scan goes
    /// on with the next byte; a step inside the text always moves the cursor.
    pub fn scan_step(&mut self) -> (r: ScanEvent)
        requires
            old(self).wf(),
        ensures
            final(self).wf(),
            final(self).text() == old(self).text(),
            old(self).position() < old(self).text().len() ==> old(self).position() < final(self).position(),
            ({
                let t = old(self).text();
                let p = old(self).position();
                let c = comment_close(t, p + 2);
                let parts = pair_parts(t, p);
                if p >= t.len() {
                    r == ScanEvent::Failed(Error::Eof) && final(self).position() == p
                } else if is_pair_at(t, p, SLASH, STAR) {
                    if c < t.len() {
                        r is Comment && r->Comment_0@ == latin1(t.subrange(p + 2, c)) && final(self).position() == c + 2
                    } else {
                        r == ScanEvent::Failed(Error::Eof) && final(self).position() == t.len()
                    }
                } else if is_line_start(t, p) && !is_continuation(t, p) {
                    r is Pair && symbol_denotes(r->Pair_0.spec_key(), parts.0)
                        && r->Pair_0.spec_value()@ == latin1(parts.1) && final(self).position()
                        == parts.2
                } else if is_line_start(t, p) {
                    r is Failed && r->Failed_0 is Syntax && final(self).position() == p + 1
                } else {
                    r == ScanEvent::Advanced && final(self).position() == p + 1
                }
            }),
    {
        if self.is_eof() {
            return ScanEvent::Failed(Error::Eof);
        }
        proof {
            lemma_pair_moves_on(self.content@, self.pos as int);
            lemma_comment_close(self.content@, self.pos + 2);
        }
        if self.pair_at_cursor(SLASH, STAR) {
            match self.skip_multiline_comment() {
                Ok(comment) => ScanEvent::Comment(comment),
                Err(e) => ScanEvent::Failed(e),
            }
        } else if self.pos_is_line_start() {
            match self.read_key_value_pair_raw() {
                Ok(kvp) => ScanEvent::Pair(kvp),
                Err(e) => {
                    let _ = self.next();
                    ScanEvent::Failed(e)
                },
            }
        } else {
            let _ = self.next();
            ScanEvent::Advanced
        }
    }

    fn pair_at_cursor(&self, a: u8, b: u8) -> (r: bool)
        requires
            self.wf(),
        ensures
            r == is_pair_at(self.text(), self.position(), a, b),
    {
        self.content.len() - self.pos >= 2 && self.content[self.pos] == a && self.content[self.pos
            + 1] == b
    }
}

} // verus!
