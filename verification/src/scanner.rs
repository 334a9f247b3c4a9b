//! Line scanning: splitting a byte stream into physical lines, stripping
//! comments, trimming whitespace and classifying continuation lines.

use vstd::prelude::*;

verus! {

/// A single ASCII whitespace byte: space, tab, line feed, form feed or
/// carriage return.
pub open spec fn is_ws_byte(b: u8) -> bool {
    b == 32 || b == 9 || b == 10 || b == 12 || b == 13
}

/// The bytes that mark a continuation line: `+`, space or tab.
pub open spec fn is_cont_byte(b: u8) -> bool {
    b == 43 || b == 32 || b == 9
}

/// Index of the first occurrence of `b` in `s` at or after `from`.
pub open spec fn find_byte_spec(s: Seq<u8>, b: u8, from: int) -> Option<int>
    decreases s.len() - from,
{
    if from < 0 || from >= s.len() {
        None
    } else if s[from] == b {
        Some(from)
    } else {
        find_byte_spec(s, b, from + 1)
    }
}

/// Index of the first occurrence of `b1` or `b2` in `s` at or after `from`.
pub open spec fn find_byte2_spec(s: Seq<u8>, b1: u8, b2: u8, from: int) -> Option<int>
    decreases s.len() - from,
{
    if from < 0 || from >= s.len() {
        None
    } else if s[from] == b1 || s[from] == b2 {
        Some(from)
    } else {
        find_byte2_spec(s, b1, b2, from + 1)
    }
}

/// `find_byte_spec` returns exactly the first occurrence at or after `from`.
pub proof fn lemma_find_byte_spec(s: Seq<u8>, b: u8, from: int)
    requires
        0 <= from <= s.len(),
    ensures
        match find_byte_spec(s, b, from) {
            Some(i) => from <= i < s.len() && s[i] == b && (forall|j: int|
                from <= j < i ==> s[j] != b),
            None => forall|j: int| from <= j < s.len() ==> s[j] != b,
        },
    decreases s.len() - from,
{
    if from < s.len() && s[from] != b {
        lemma_find_byte_spec(s, b, from + 1);
    }
}

/// `find_byte2_spec` returns exactly the first occurrence at or after `from`.
pub proof fn lemma_find_byte2_spec(s: Seq<u8>, b1: u8, b2: u8, from: int)
    requires
        0 <= from <= s.len(),
    ensures
        match find_byte2_spec(s, b1, b2, from) {
            Some(i) => from <= i < s.len() && (s[i] == b1 || s[i] == b2) && (forall|j: int|
                from <= j < i ==> s[j] != b1 && s[j] != b2),
            None => forall|j: int| from <= j < s.len() ==> s[j] != b1 && s[j] != b2,
        },
    decreases s.len() - from,
{
    if from < s.len() && s[from] != b1 && s[from] != b2 {
        lemma_find_byte2_spec(s, b1, b2, from + 1);
    }
}

/// Relies on memchr::memchr: returns the index of the first occurrence of
/// `needle` in `haystack`, or `None` when it does not occur.
#[verifier::external_body]
pub fn find_byte(needle: u8, haystack: &[u8]) -> (r: Option<usize>)
    ensures
        match r {
            Some(i) => i < haystack@.len() && haystack@[i as int] == needle && (forall|j: int|
                0 <= j < i ==> haystack@[j] != needle),
            None => forall|j: int| 0 <= j < haystack@.len() ==> haystack@[j] != needle,
        },
{
    memchr::memchr(needle, haystack)
}

/// Relies on memchr::memchr2: returns the index of the first occurrence of
/// `needle1` or `needle2` in `haystack`, or `None` when neither occurs.
#[verifier::external_body]
pub fn find_byte2(needle1: u8, needle2: u8, haystack: &[u8]) -> (r: Option<usize>)
    ensures
        match r {
            Some(i) => i < haystack@.len() && (haystack@[i as int] == needle1
                || haystack@[i as int] == needle2) && (forall|j: int|
                0 <= j < i ==> haystack@[j] != needle1 && haystack@[j] != needle2),
            None => forall|j: int|
                0 <= j < haystack@.len() ==> haystack@[j] != needle1 && haystack@[j] != needle2,
        },
{
    memchr::memchr2(needle1, needle2, haystack)
}

/// The suffix of `s` after its leading ASCII whitespace.
pub open spec fn trim_spec(s: Seq<u8>) -> Seq<u8>
    decreases s.len(),
{
    if s.len() > 0 && is_ws_byte(s[0]) {
        trim_spec(s.drop_first())
    } else {
        s
    }
}

/// The physical line starting at `pos` and the position just past it:
/// everything up to the next line feed, with a carriage return before the
/// line feed stripped; at end of stream, the remaining bytes unchanged.
pub open spec fn line_at(input: Seq<u8>, pos: int) -> (Seq<u8>, int) {
    match find_byte_spec(input, 10, pos) {
        Some(n) => {
            let raw = input.subrange(pos, n);
            if raw.len() > 0 && raw.last() == 13 {
                (raw.drop_last(), n + 1)
            } else {
                (raw, n + 1)
            }
        },
        None => (input.subrange(pos, input.len() as int), input.len() as int),
    }
}

/// Reading a line from a position inside the input always advances.
pub proof fn lemma_line_at_advances(input: Seq<u8>, pos: int)
    requires
        0 <= pos < input.len(),
    ensures
        pos < line_at(input, pos).1 <= input.len(),
{
    lemma_find_byte_spec(input, 10, pos);
}

/// A line that starts with an ordinary byte keeps it as its first byte.
pub proof fn lemma_line_at_first_byte(input: Seq<u8>, pos: int)
    requires
        0 <= pos < input.len(),
        input[pos] != 10,
        input[pos] != 13,
    ensures
        line_at(input, pos).0.len() > 0,
        line_at(input, pos).0[0] == input[pos],
{
    lemma_find_byte_spec(input, 10, pos);
    match find_byte_spec(input, 10, pos) {
        Some(n) => {
            assert(input[n] == 10);
            assert(n > pos);
            let raw = input.subrange(pos, n);
            assert(raw[0] == input[pos]);
            if raw.len() > 0 && raw.last() == 13 {
                assert(raw.len() >= 2) by {
                    assert(raw.last() == raw[raw.len() - 1]);
                }
            }
        },
        None => {
            assert(input.subrange(pos, input.len() as int)[0] == input[pos]);
        },
    }
}

/// The line with its comment removed: the first `%` or `#` byte truncates
/// the line there, and a comment in the very first byte drops the line.
pub open spec fn strip_comment_spec(l: Seq<u8>) -> Option<Seq<u8>> {
    match find_byte2_spec(l, 37, 35, 0) {
        None => Some(l),
        Some(n) => if n == 0 {
            None
        } else {
            Some(l.subrange(0, n))
        },
    }
}

/// True when `ch` marks a continuation line.
pub fn is_continuation(ch: u8) -> (r: bool)
    ensures
        r == is_cont_byte(ch),
{
    ch == 43 || ch == 32 || ch == 9
}

/// True when `b` is an ASCII whitespace byte.
pub fn is_whitespace(b: u8) -> (r: bool)
    ensures
        r == is_ws_byte(b),
{
    b == 32 || b == 9 || b == 10 || b == 12 || b == 13
}

/// The slice with its leading ASCII whitespace removed.
pub fn trim(buf: &[u8]) -> (r: &[u8])
    ensures
        r@ == trim_spec(buf@),
{
    let mut i: usize = 0;
    proof {
        assert(buf@.subrange(0, buf@.len() as int) =~= buf@);
    }
    while i < buf.len() && is_whitespace(buf[i])
        invariant
            0 <= i <= buf@.len(),
            trim_spec(buf@) == trim_spec(buf@.subrange(i as int, buf@.len() as int)),
        decreases buf@.len() - i,
    {
        proof {
            let s = buf@.subrange(i as int, buf@.len() as int);
            assert(s.drop_first() =~= buf@.subrange(i as int + 1, buf@.len() as int));
        }
        i = i + 1;
    }
    proof {
        assert(buf@.subrange(buf@.len() as int, buf@.len() as int) =~= Seq::<u8>::empty());
    }
    vstd::slice::slice_subrange(buf, i, buf.len())
}

/// The byte at `pos`, or `None` at end of stream.
pub fn peek(input: &[u8], pos: usize) -> (r: Option<u8>)
    ensures
        r == (if (pos as int) < input@.len() {
            Some(input@[pos as int])
        } else {
            None::<u8>
        }),
{
    if pos < input.len() {
        Some(input[pos])
    } else {
        None
    }
}

/// True when the stream continues at `pos` with a continuation line.
pub fn next_is_continuation(input: &[u8], pos: usize) -> (r: bool)
    ensures
        r == ((pos as int) < input@.len() && is_cont_byte(input@[pos as int])),
{
    match peek(input, pos) {
        Some(ch) => is_continuation(ch),
        None => false,
    }
}

/// The next physical line, or `None` at end of stream.
pub fn read_line<'a>(input: &'a [u8], pos: usize) -> (r: Option<(&'a [u8], usize)>)
    requires
        pos <= input@.len(),
    ensures
        match r {
            Some(p) => (pos as int) < input@.len() && (p.0@, p.1 as int) == line_at(
                input@,
                pos as int,
            ) && pos < p.1 <= input@.len(),
            None => pos == input@.len(),
        },
{
    if pos == input.len() {
        return None;
    }
    let tail = vstd::slice::slice_subrange(input, pos, input.len());
    proof {
        lemma_find_byte_spec(input@, 10, pos as int);
    }
    match find_byte(10, tail) {
        Some(k) => {
            let n = pos + k;
            proof {
                assert(input@[n as int] == tail@[k as int]);
                assert forall|j: int| pos <= j < n implies input@[j] != 10 by {
                    assert(input@[j] == tail@[j - pos]);
                }
                assert(find_byte_spec(input@, 10, pos as int) == Some(n as int));
                assert(input@.subrange(pos as int, n as int).len() == k);
            }
            if k > 0 && input[n - 1] == 13 {
                let line = vstd::slice::slice_subrange(input, pos, n - 1);
                proof {
                    let raw = input@.subrange(pos as int, n as int);
                    assert(raw.last() == input@[n - 1]);
                    assert(raw.drop_last() =~= input@.subrange(pos as int, n as int - 1));
                }
                Some((line, n + 1))
            } else {
                let line = vstd::slice::slice_subrange(input, pos, n);
                proof {
                    let raw = input@.subrange(pos as int, n as int);
                    if raw.len() > 0 {
                        assert(raw.last() == input@[n - 1]);
                    }
                }
                Some((line, n + 1))
            }
        },
        None => {
            proof {
                assert forall|j: int| pos <= j < input@.len() implies input@[j] != 10 by {
                    assert(input@[j] == tail@[j - pos]);
                }
                assert(find_byte_spec(input@, 10, pos as int) is None);
            }
            Some((tail, input.len()))
        },
    }
}

/// The line with its comment removed, or `None` when the whole line is a
/// comment.
pub fn strip_comment<'a>(line: &'a [u8]) -> (r: Option<&'a [u8]>)
    ensures
        match r {
            Some(s) => strip_comment_spec(line@) == Some(s@),
            None => strip_comment_spec(line@) is None,
        },
{
    proof {
        lemma_find_byte2_spec(line@, 37, 35, 0);
    }
    match find_byte2(37, 35, line) {
        None => {
            proof {
                assert(find_byte2_spec(line@, 37, 35, 0) is None);
            }
            Some(line)
        },
        Some(n) => {
            proof {
                assert(find_byte2_spec(line@, 37, 35, 0) == Some(n as int));
            }
            if n == 0 {
                None
            } else {
                Some(vstd::slice::slice_subrange(line, 0, n))
            }
        },
    }
}

} // verus!
