use crate::text::{nat_text, usize_text};
use vstd::prelude::*;
use vstd::string::StringExecFns;
use vstd::string::StringSliceAdditionalSpecFns;
use vstd::utf8::is_continuation_byte;

verus! {

/// A byte-offset range into the source string.
#[derive(Debug, Clone, Copy, PartialEq, Eq)]
pub struct Span {
    pub start: usize,
    pub end: usize,
}

/// Number of bytes equal to `b` in `s`.
pub open spec fn count_byte(s: Seq<u8>, b: u8) -> nat
    decreases s.len(),
{
    if s.len() == 0 {
        0
    } else {
        count_byte(s.drop_last(), b) + if s.last() == b { 1nat } else { 0nat }
    }
}

/// Number of characters encoded by `s`: the bytes that start a character.
pub open spec fn count_chars(s: Seq<u8>) -> nat
    decreases s.len(),
{
    if s.len() == 0 {
        0
    } else {
        count_chars(s.drop_last()) + if is_continuation_byte(s.last()) { 0nat } else { 1nat }
    }
}

/// Index just after the last newline byte in `s`, or 0 when there is none.
pub open spec fn line_start(s: Seq<u8>) -> nat
    decreases s.len(),
{
    if s.len() == 0 {
        0
    } else if s.last() == 0x0Au8 {
        s.len()
    } else {
        line_start(s.drop_last())
    }
}

/// The byte offset at which scanning for a location stops: `start` itself when it is
/// the offset of a character of `s`, otherwise the end of `s`.
pub open spec fn location_stop(s: Seq<u8>, start: int) -> int {
    if 0 <= start < s.len() && !is_continuation_byte(s[start]) {
        start
    } else {
        s.len() as int
    }
}

/// 1-based line of the text before `stop`.
pub open spec fn spec_line(s: Seq<u8>, stop: int) -> int {
    1 + count_byte(s.take(stop), 0x0Au8) as int
}

/// 1-based column of the text before `stop`: one more than the characters since the
/// last newline.
pub open spec fn spec_col(s: Seq<u8>, stop: int) -> int {
    let pre = s.take(stop);
    1 + count_chars(pre.skip(line_start(pre) as int)) as int
}

/// How a span is written out: `start..end`.
pub open spec fn span_text(s: Span) -> Seq<char> {
    nat_text(s.start as nat) + ".."@ + nat_text(s.end as nat)
}

/// The span from the earlier start to the later end of `a` and `b`.
pub open spec fn merged(a: Span, b: Span) -> Span {
    Span {
        start: if a.start <= b.start { a.start } else { b.start },
        end: if a.end >= b.end { a.end } else { b.end },
    }
}

/// `outer` starts no later and ends no earlier than `inner`.
pub open spec fn covers(outer: Span, inner: Span) -> bool {
    outer.start <= inner.start && inner.end <= outer.end
}

/// Merging two spans gives one that covers both, and that every span covering both
/// covers in turn: the least span that covers both.
pub proof fn law_merge_covers(a: Span, b: Span)
    ensures
        covers(merged(a, b), a),
        covers(merged(a, b), b),
        forall|c: Span| covers(c, a) && covers(c, b) ==> covers(c, #[trigger] merged(a, b)),
{
}

/// A start past the end of the source, or inside a character, is located where the end of
/// the source is.
pub proof fn law_location_off_char(s: Seq<u8>, start: int)
    requires
        start >= s.len() || (0 <= start && is_continuation_byte(s[start])),
    ensures
        location_stop(s, start) == location_stop(s, s.len() as int),
        spec_line(s, location_stop(s, start)) == spec_line(s, s.len() as int),
        spec_col(s, location_stop(s, start)) == spec_col(s, s.len() as int),
{
}

impl Span {
    pub fn new(start: usize, end: usize) -> (r: Self)
        ensures
            r.start == start,
            r.end == end,
    {
        Self { start, end }
    }

    /// The span written out as `start..end`.
    pub fn to_string(&self) -> (r: String)
        ensures
            r@ == span_text(*self),
    {
        let mut r = usize_text(self.start);
        r.append("..");
        r.append(usize_text(self.end).as_str());
        r
    }

    /// Length in bytes. The start must not lie past the end.
    pub fn len(&self) -> (r: usize)
        requires
            self.start <= self.end,
        ensures
            r == self.end - self.start,
    {
        self.end - self.start
    }

    pub fn is_empty(&self) -> (r: bool)
        ensures
            r == (self.start == self.end),
    {
        self.start == self.end
    }

    /// Extend this span to cover `other` as well.
    pub fn merge(self, other: Span) -> (r: Span)
        ensures
            r == merged(self, other),
    {
        Span {
            start: if self.start <= other.start { self.start } else { other.start },
            end: if self.end >= other.end { self.end } else { other.end },
        }
    }

    /// Return the (1-based line, 1-based column) of `start` in `src`. When `start` is not
    /// the offset of a character of `src`, the position just past the end is given.
    pub fn location(&self, src: &str) -> (r: (usize, usize))
        requires
            src.spec_bytes().len() < usize::MAX,
        ensures
            r.0 == spec_line(src.spec_bytes(), location_stop(src.spec_bytes(), self.start as int)),
            r.1 == spec_col(src.spec_bytes(), location_stop(src.spec_bytes(), self.start as int)),
    {
        let bytes = src.as_bytes();
        let ghost s = bytes@;
        let mut line: usize = 1;
        let mut col: usize = 1;
        let mut i: usize = 0;
        while i < bytes.len()
            invariant
                s == bytes@,
                s.len() < usize::MAX,
                i <= s.len(),
                forall|j: int| 0 <= j < i ==> (j == self.start ==> is_continuation_byte(s[j])),
                line == spec_line(s, i as int),
                col == spec_col(s, i as int),
                line + col <= i + 2,
                line >= 1,
                col >= 1,
            ensures
                i <= s.len(),
                line == spec_line(s, i as int),
                col == spec_col(s, i as int),
                i == location_stop(s, self.start as int),
            decreases bytes.len() - i,
        {
            let b = bytes[i];
            if !(0x80 <= b && b < 0xC0) && i == self.start {
                assert(location_stop(s, self.start as int) == i);
                break;
            }
            proof {
                let pre = s.take(i as int);
                let pre1 = s.take(i + 1);
                assert(pre1.drop_last() =~= pre);
                assert(pre1.last() == b);
                if b == 0x0A {
                    assert(line_start(pre1) == i + 1);
                    assert(pre1.skip(i + 1) =~= Seq::<u8>::empty());
                } else {
                    assert(line_start(pre1) == line_start(pre));
                    let ls = line_start(pre) as int;
                    lemma_line_start_le(pre);
                    assert(pre1.skip(ls).drop_last() =~= pre.skip(ls));
                }
            }
            if b == 0x0A {
                line = line + 1;
                col = 1;
            } else if !(0x80 <= b && b < 0xC0) {
                col = col + 1;
            }
            i = i + 1;
        }
        (line, col)
    }
}

proof fn lemma_line_start_le(s: Seq<u8>)
    ensures
        line_start(s) <= s.len(),
    decreases s.len(),
{
    if s.len() > 0 {
        lemma_line_start_le(s.drop_last());
    }
}

} // verus!
