//! The document chunker: splits an ordered sequence of lines into bounded,
//! boundary-aware segments.
//!
//! Lines are concatenated, without separators, into an accumulating buffer.
//! The buffer is flushed as a chunk before a line that would push it past the
//! maximum size, and flushed eagerly when less than a fifth of the maximum
//! remains free — unless the current line is the second of two consecutive
//! blank lines, which suppresses the eager cut so that the boundary can land
//! on the natural break instead.

use vstd::prelude::*;
use vstd::string::StrSliceExecFns;
use vstd::string::StringExecFns;

verus! {

/// A whitespace character, as `str::trim` understands it (the Unicode
/// `White_Space` set).
pub open spec fn is_space_char(c: char) -> bool {
    let u = c as u32;
    ||| u == 0x09
    ||| u == 0x0A
    ||| u == 0x0B
    ||| u == 0x0C
    ||| u == 0x0D
    ||| u == 0x20
    ||| u == 0x85
    ||| u == 0xA0
    ||| u == 0x1680
    ||| (0x2000 <= u && u <= 0x200A)
    ||| u == 0x2028
    ||| u == 0x2029
    ||| u == 0x202F
    ||| u == 0x205F
    ||| u == 0x3000
}

/// A line is blank when every character in it is whitespace.
pub open spec fn is_blank_line(l: Seq<char>) -> bool {
    forall|i: int| 0 <= i < l.len() ==> is_space_char(#[trigger] l[i])
}

fn is_space(c: char) -> (r: bool)
    ensures
        r == is_space_char(c),
{
    let u = c as u32;
    u == 0x09 || u == 0x0A || u == 0x0B || u == 0x0C || u == 0x0D || u == 0x20 || u == 0x85
        || u == 0xA0 || u == 0x1680 || (0x2000 <= u && u <= 0x200A) || u == 0x2028 || u == 0x2029
        || u == 0x202F || u == 0x205F || u == 0x3000
}

/// Whether a line consists of whitespace alone (so an empty line is blank).
pub fn is_blank(line: &str) -> (r: bool)
    ensures
        r == is_blank_line(line@),
{
    let len = line.unicode_len();
    let mut i: usize = 0;
    while i < len
        invariant
            0 <= i <= len,
            len == line@.len(),
            forall|k: int| 0 <= k < i ==> is_space_char(#[trigger] line@[k]),
        decreases len - i,
    {
        if !is_space(line.get_char(i)) {
            return false;
        }
        i = i + 1;
    }
    true
}

/// Less than a fifth of `max` is still free once the buffer holds `len`
/// characters: the fraction free, `(max - len) / max`, is below 20 percent.
pub open spec fn early_cut(len: int, max: int) -> bool {
    (max - len) * 100 < 20 * max
}

/// Whether a buffer of `len` characters is close enough to `max` that the
/// chunker should flush it eagerly.
pub fn should_cut(len: usize, max: usize) -> (r: bool)
    requires
        max > 0,
    ensures
        r == early_cut(len as int, max as int),
{
    if len >= max {
        true
    } else {
        let free: u128 = (max - len) as u128;
        free * 100 < 20 * (max as u128)
    }
}

/// The views of a sequence of owned lines or chunks.
pub open spec fn views(v: Seq<String>) -> Seq<Seq<char>> {
    v.map_values(|s: String| s@)
}

/// The chunks produced from `lines[i..]` when the accumulating buffer
/// already holds `buf` and `prev_blank` says whether the line before
/// `lines[i]` was blank. A line that would push the buffer past `max` first
/// flushes it; after the line is appended, the buffer is flushed eagerly
/// when under a fifth of `max` is free, unless the line closes a pair of
/// consecutive blank lines. Whatever is left in the buffer at the end forms
/// the last chunk.
pub open spec fn chunk_from(
    lines: Seq<Seq<char>>,
    i: int,
    buf: Seq<char>,
    prev_blank: bool,
    max: int,
) -> Seq<Seq<char>>
    decreases lines.len() - i,
{
    if i < 0 || i >= lines.len() {
        if buf.len() == 0 {
            Seq::empty()
        } else {
            seq![buf]
        }
    } else {
        let line = lines[i];
        let flush_before = buf.len() + line.len() > max;
        let pre: Seq<Seq<char>> = if flush_before {
            seq![buf]
        } else {
            Seq::empty()
        };
        let buf1 = if flush_before {
            line
        } else {
            buf + line
        };
        let two_blank = is_blank_line(line) && prev_blank;
        let cut = early_cut(buf1.len() as int, max) && !two_blank;
        let mid: Seq<Seq<char>> = if cut {
            seq![buf1]
        } else {
            Seq::empty()
        };
        let buf2: Seq<char> = if cut {
            Seq::empty()
        } else {
            buf1
        };
        pre + mid + chunk_from(lines, i + 1, buf2, is_blank_line(line), max)
    }
}

/// The chunks of a whole document: an ordered sequence of lines split into
/// bounded, boundary-aware segments.
pub open spec fn chunk_spec(lines: Seq<Seq<char>>, max: int) -> Seq<Seq<char>> {
    chunk_from(lines, 0, Seq::empty(), false, max)
}

/// Split a document, given as its ordered lines, into chunks of at most
/// `max_size` characters each — except that a single line longer than
/// `max_size` becomes an (oversized) chunk of its own, since lines are never
/// split. Concatenating the chunks, in order, gives back the concatenation
/// of the lines.
pub fn chunk(lines: &Vec<String>, max_size: usize) -> (chunks: Vec<String>)
    requires
        max_size > 0,
    ensures
        views(chunks@) == chunk_spec(views(lines@), max_size as int),
{
    let ghost gl: Seq<Seq<char>> = views(lines@);
    let mut out: Vec<String> = Vec::new();
    let mut buf: String = String::new();
    let mut size: usize = 0;
    let mut prev_blank: bool = false;
    let mut i: usize = 0;
    while i < lines.len()
        invariant
            max_size > 0,
            i <= lines.len(),
            gl == views(lines@),
            gl.len() == lines@.len(),
            size == buf@.len(),
            chunk_spec(gl, max_size as int) == views(out@) + chunk_from(
                gl,
                i as int,
                buf@,
                prev_blank,
                max_size as int,
            ),
        decreases lines.len() - i,
    {
        let line: &String = &lines[i];
        let line_len: usize = line.as_str().unicode_len();
        proof {
            assert(gl[i as int] == lines@[i as int]@);
        }
        let ghost prev_out: Seq<Seq<char>> = views(out@);
        let ghost prev_buf: Seq<char> = buf@;
        let flush_before: bool = size > max_size || line_len > max_size - size;
        assert(flush_before == (prev_buf.len() + gl[i as int].len() > max_size));
        if flush_before {
            out.push(buf);
            buf = String::new();
            size = 0;
            proof {
                assert(views(out@) =~= prev_out + seq![prev_buf]);
            }
        }
        buf.append(line.as_str());
        size = size + line_len;
        let ghost mid_out: Seq<Seq<char>> = views(out@);
        let ghost buf1: Seq<char> = buf@;
        let blank: bool = is_blank(line.as_str());
        let cut: bool = should_cut(size, max_size) && !(blank && prev_blank);
        if cut {
            out.push(buf);
            buf = String::new();
            size = 0;
            proof {
                assert(views(out@) =~= mid_out + seq![buf1]);
            }
        }
        prev_blank = blank;
        i = i + 1;
    }
    if size > 0 {
        let ghost prev_out: Seq<Seq<char>> = views(out@);
        let ghost prev_buf: Seq<char> = buf@;
        out.push(buf);
        proof {
            assert(views(out@) =~= prev_out + seq![prev_buf]);
        }
    }
    out
}

proof fn lemma_chunk_from_concat(
    lines: Seq<Seq<char>>,
    i: int,
    buf: Seq<char>,
    prev_blank: bool,
    max: int,
)
    requires
        0 <= i <= lines.len(),
    ensures
        chunk_from(lines, i, buf, prev_blank, max).flatten() == buf + lines.subrange(
            i,
            lines.len() as int,
        ).flatten(),
    decreases lines.len() - i,
{
    let rest = lines.subrange(i, lines.len() as int);
    if i >= lines.len() {
        assert(rest =~= Seq::<Seq<char>>::empty());
        assert(rest.flatten() == Seq::<char>::empty());
        if buf.len() == 0 {
            assert(chunk_from(lines, i, buf, prev_blank, max).flatten() =~= buf + rest.flatten());
        } else {
            chunk_from(lines, i, buf, prev_blank, max).lemma_flatten_one_element();
            assert(chunk_from(lines, i, buf, prev_blank, max).flatten() =~= buf + rest.flatten());
        }
    } else {
        let line = lines[i];
        let flush_before = buf.len() + line.len() > max;
        let pre: Seq<Seq<char>> = if flush_before {
            seq![buf]
        } else {
            Seq::empty()
        };
        let buf1 = if flush_before {
            line
        } else {
            buf + line
        };
        let two_blank = is_blank_line(line) && prev_blank;
        let cut = early_cut(buf1.len() as int, max) && !two_blank;
        let mid: Seq<Seq<char>> = if cut {
            seq![buf1]
        } else {
            Seq::empty()
        };
        let buf2: Seq<char> = if cut {
            Seq::empty()
        } else {
            buf1
        };
        let rec = chunk_from(lines, i + 1, buf2, is_blank_line(line), max);
        lemma_chunk_from_concat(lines, i + 1, buf2, is_blank_line(line), max);
        vstd::seq_lib::lemma_flatten_concat(pre + mid, rec);
        vstd::seq_lib::lemma_flatten_concat(pre, mid);
        if pre.len() == 1 {
            pre.lemma_flatten_one_element();
        } else {
            assert(pre.flatten() == Seq::<char>::empty());
        }
        if mid.len() == 1 {
            mid.lemma_flatten_one_element();
        } else {
            assert(mid.flatten() == Seq::<char>::empty());
        }
        assert(lines.subrange(i + 1, lines.len() as int) =~= rest.drop_first());
        assert(rest.first() == line);
        assert(rest.flatten() == line + rest.drop_first().flatten());
        assert(chunk_from(lines, i, buf, prev_blank, max).flatten() =~= buf + rest.flatten());
    }
}

/// Concatenating the chunks of a document, in order, reproduces the
/// concatenation of the document's lines.
pub proof fn lemma_chunk_concat(lines: Seq<Seq<char>>, max: int)
    ensures
        chunk_spec(lines, max).flatten() == lines.flatten(),
{
    lemma_chunk_from_concat(lines, 0, Seq::empty(), false, max);
    assert(lines.subrange(0, lines.len() as int) =~= lines);
    assert(Seq::<char>::empty() + lines.flatten() =~= lines.flatten());
}

proof fn lemma_chunk_from_bound(
    lines: Seq<Seq<char>>,
    i: int,
    buf: Seq<char>,
    prev_blank: bool,
    max: int,
    k: int,
)
    requires
        0 <= i <= lines.len(),
        max > 0,
        buf.len() <= max || (exists|j: int|
            0 <= j < lines.len() && lines[j] == buf && lines[j].len() > max),
        0 <= k < chunk_from(lines, i, buf, prev_blank, max).len(),
    ensures
        chunk_from(lines, i, buf, prev_blank, max)[k].len() <= max || (exists|j: int|
            0 <= j < lines.len() && lines[j] == chunk_from(lines, i, buf, prev_blank, max)[k]
                && lines[j].len() > max),
    decreases lines.len() - i,
{
    if i >= lines.len() {
        assert(chunk_from(lines, i, buf, prev_blank, max)[k] == buf);
    } else {
        let line = lines[i];
        let flush_before = buf.len() + line.len() > max;
        let pre: Seq<Seq<char>> = if flush_before {
            seq![buf]
        } else {
            Seq::empty()
        };
        let buf1 = if flush_before {
            line
        } else {
            buf + line
        };
        let two_blank = is_blank_line(line) && prev_blank;
        let cut = early_cut(buf1.len() as int, max) && !two_blank;
        let mid: Seq<Seq<char>> = if cut {
            seq![buf1]
        } else {
            Seq::empty()
        };
        let buf2: Seq<char> = if cut {
            Seq::empty()
        } else {
            buf1
        };
        if flush_before {
            assert(buf1 == lines[i]);
        }
        assert(buf1.len() <= max || (exists|j: int|
            0 <= j < lines.len() && lines[j] == buf1 && lines[j].len() > max));
        if k < pre.len() {
            assert(chunk_from(lines, i, buf, prev_blank, max)[k] == buf);
        } else if k < pre.len() + mid.len() {
            assert(chunk_from(lines, i, buf, prev_blank, max)[k] == buf1);
        } else {
            let k2 = k - pre.len() - mid.len();
            lemma_chunk_from_bound(lines, i + 1, buf2, is_blank_line(line), max, k2);
            assert(chunk_from(lines, i, buf, prev_blank, max)[k] == chunk_from(
                lines,
                i + 1,
                buf2,
                is_blank_line(line),
                max,
            )[k2]);
        }
    }
}

/// Every chunk holds at most `max` characters, except a chunk forced by a
/// single line that alone exceeds `max`: such a chunk is exactly that line.
pub proof fn lemma_chunk_size_bound(lines: Seq<Seq<char>>, max: int, k: int)
    requires
        max > 0,
        0 <= k < chunk_spec(lines, max).len(),
    ensures
        chunk_spec(lines, max)[k].len() <= max || (exists|j: int|
            0 <= j < lines.len() && lines[j] == chunk_spec(lines, max)[k] && lines[j].len()
                > max),
{
    lemma_chunk_from_bound(lines, 0, Seq::empty(), false, max, k);
}

/// Chunking is deterministic: the same document and the same maximum size
/// always yield the same chunk sequence.
pub proof fn lemma_chunk_deterministic(
    lines: Seq<Seq<char>>,
    max: int,
    a: Seq<Seq<char>>,
    b: Seq<Seq<char>>,
)
    requires
        a == chunk_spec(lines, max),
        b == chunk_spec(lines, max),
    ensures
        a == b,
{
}

} // verus!
