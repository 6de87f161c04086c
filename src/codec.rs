//! The bytes of a plain-text file and the lines of a document.
//!
//! A file is UTF-8 text whose lines are separated by CRLF. Line breaks are
//! held by the line structure alone: decoding keeps no terminator on any
//! line, the last one included, and encoding writes CRLF between each two
//! lines and none after the last. A file that ends with CRLF therefore has
//! an empty last line, and every well-formed file is written back byte for
//! byte.

use vstd::prelude::*;
use vstd::std_specs::iter::IteratorSpec;
use vstd::string::StrSliceExecFns;
use vstd::utf8::{
    decode_utf8, decode_utf8_encode_utf8, encode_utf8, encode_utf8_decode_utf8,
    encode_utf8_valid_utf8, valid_utf8,
};

verus! {

/// Why the contents of a file could not be had as lines of text.
#[derive(Clone, Copy, Debug, PartialEq, Eq, Structural)]
pub enum ReadError {
    /// There is no file at the path.
    NotFound,
    /// The file may not be read.
    PermissionDenied,
    /// Reading failed for another reason.
    Io,
    /// The bytes are not UTF-8.
    NotUtf8,
}

/// The characters of each string in `v`.
pub open spec fn lines_view(v: Seq<String>) -> Seq<Seq<char>> {
    v.map_values(|s: String| s@)
}

/// Whether `s` holds a carriage return at `i` directly followed by a line feed.
pub open spec fn crlf_at(s: Seq<char>, i: int) -> bool {
    0 <= i && i + 1 < s.len() && s[i] == '\r' && s[i + 1] == '\n'
}

/// Whether no carriage return in `s` is directly followed by a line feed.
pub open spec fn no_crlf(s: Seq<char>) -> bool {
    forall|i: int| !#[trigger] crlf_at(s, i)
}

/// The lines of `s`: the pieces between its CRLF pairs, which are dropped.
/// No piece gets a terminator of its own, so a text that ends with CRLF has
/// an empty last line, and an empty text is one empty line.
pub open spec fn split_crlf(s: Seq<char>) -> Seq<Seq<char>>
    decreases s.len(),
{
    if s.len() == 0 {
        seq![Seq::<char>::empty()]
    } else if crlf_at(s, s.len() - 2) {
        split_crlf(s.take(s.len() - 2)).push(Seq::<char>::empty())
    } else {
        let p = split_crlf(s.drop_last());
        p.update(p.len() - 1, p.last().push(s.last()))
    }
}

/// `lines` written one after the other, with CRLF between each two of them
/// and none after the last.
pub open spec fn join_crlf(lines: Seq<Seq<char>>) -> Seq<char>
    decreases lines.len(),
{
    if lines.len() == 0 {
        Seq::<char>::empty()
    } else if lines.len() == 1 {
        lines[0]
    } else {
        join_crlf(lines.drop_last()) + seq!['\r', '\n'] + lines.last()
    }
}

/// A text always has at least one line.
pub proof fn lemma_split_nonempty(s: Seq<char>)
    ensures
        split_crlf(s).len() >= 1,
    decreases s.len(),
{
    if s.len() == 0 {
    } else if crlf_at(s, s.len() - 2) {
        lemma_split_nonempty(s.take(s.len() - 2));
    } else {
        lemma_split_nonempty(s.drop_last());
    }
}

/// A text with no CRLF in it is one line.
proof fn lemma_split_single(b: Seq<char>)
    requires
        no_crlf(b),
    ensures
        split_crlf(b) == seq![b],
    decreases b.len(),
{
    if b.len() > 0 {
        let t = b.drop_last();
        assert(no_crlf(t)) by {
            assert forall|i: int| !#[trigger] crlf_at(t, i) by {
                assert(!crlf_at(b, i));
            }
        }
        assert(!crlf_at(b, b.len() - 2));
        lemma_split_single(t);
        assert(t.push(b.last()) =~= b);
        assert(split_crlf(b) =~= seq![b]);
    } else {
        assert(b =~= Seq::<char>::empty());
    }
}

/// A CRLF followed by a piece with no CRLF in it starts a last line that
/// is that piece.
proof fn lemma_split_after_break(a: Seq<char>, b: Seq<char>)
    requires
        no_crlf(b),
    ensures
        split_crlf(a + seq!['\r', '\n'] + b) == split_crlf(a).push(b),
    decreases b.len(),
{
    let s = a + seq!['\r', '\n'] + b;
    if b.len() == 0 {
        assert(b =~= Seq::<char>::empty());
        assert(crlf_at(s, s.len() - 2));
        assert(s.take(s.len() - 2) =~= a);
    } else {
        let t = b.drop_last();
        assert(no_crlf(t)) by {
            assert forall|i: int| !#[trigger] crlf_at(t, i) by {
                assert(!crlf_at(b, i));
            }
        }
        if b.len() >= 2 {
            assert(!crlf_at(b, b.len() - 2));
        }
        assert(!crlf_at(s, s.len() - 2));
        assert(s.drop_last() =~= a + seq!['\r', '\n'] + t);
        lemma_split_after_break(a, t);
        lemma_split_nonempty(a);
        assert(t.push(b.last()) =~= b);
        assert(split_crlf(s) =~= split_crlf(a).push(b));
    }
}

/// Lines with no CRLF inside any of them, joined with CRLF, split back into
/// the same lines.
pub proof fn lemma_split_join(lines: Seq<Seq<char>>)
    requires
        lines.len() >= 1,
        forall|i: int| 0 <= i < lines.len() ==> no_crlf(#[trigger] lines[i]),
    ensures
        split_crlf(join_crlf(lines)) == lines,
    decreases lines.len(),
{
    if lines.len() == 1 {
        lemma_split_single(lines[0]);
        assert(seq![lines[0]] =~= lines);
    } else {
        let init = lines.drop_last();
        assert(forall|i: int| 0 <= i < init.len() ==> init[i] == lines[i]);
        lemma_split_join(init);
        lemma_split_after_break(join_crlf(init), lines.last());
        assert(init.push(lines.last()) =~= lines);
    }
}

/// Extending the last line extends the joined text by the same character.
proof fn lemma_join_extend_last(p: Seq<Seq<char>>, c: char)
    requires
        p.len() >= 1,
    ensures
        join_crlf(p.update(p.len() - 1, p.last().push(c))) == join_crlf(p).push(c),
{
    let q = p.update(p.len() - 1, p.last().push(c));
    if p.len() > 1 {
        assert(q.drop_last() =~= p.drop_last());
    }
    assert(join_crlf(q) =~= join_crlf(p).push(c));
}

/// Splitting a text at its CRLF pairs and joining the lines with CRLF gives
/// back the text.
pub proof fn lemma_join_split(s: Seq<char>)
    ensures
        join_crlf(split_crlf(s)) == s,
    decreases s.len(),
{
    if s.len() == 0 {
    } else if crlf_at(s, s.len() - 2) {
        let t = s.take(s.len() - 2);
        lemma_join_split(t);
        lemma_split_nonempty(t);
        let p = split_crlf(t).push(Seq::<char>::empty());
        assert(p.drop_last() =~= split_crlf(t));
        assert(join_crlf(p) =~= s);
    } else {
        let t = s.drop_last();
        lemma_join_split(t);
        lemma_split_nonempty(t);
        lemma_join_extend_last(split_crlf(t), s.last());
        assert(t.push(s.last()) =~= s);
    }
}

/// Lines with no CRLF inside any of them, encoded and then decoded, come
/// back as the same lines: the encoding is well-formed UTF-8, and its text
/// splits into those lines.
pub proof fn lemma_round_trip(lines: Seq<Seq<char>>)
    requires
        lines.len() >= 1,
        forall|i: int| 0 <= i < lines.len() ==> no_crlf(#[trigger] lines[i]),
    ensures
        valid_utf8(encode_utf8(join_crlf(lines))),
        split_crlf(decode_utf8(encode_utf8(join_crlf(lines)))) == lines,
{
    encode_utf8_valid_utf8(join_crlf(lines));
    encode_utf8_decode_utf8(join_crlf(lines));
    lemma_split_join(lines);
}

/// Well-formed UTF-8 decoded into lines and encoded again gives back the
/// same bytes.
pub proof fn lemma_bytes_round_trip(raw: Seq<u8>)
    requires
        valid_utf8(raw),
    ensures
        encode_utf8(join_crlf(split_crlf(decode_utf8(raw)))) == raw,
{
    lemma_join_split(decode_utf8(raw));
    decode_utf8_encode_utf8(raw);
}

/// Relies on std::str::from_utf8: it gives the text that `v` encodes when
/// `v` is well-formed UTF-8, and fails otherwise.
#[verifier::external_body]
fn utf8_text(v: &[u8]) -> (r: Option<&str>)
    ensures
        r is Some <==> valid_utf8(v@),
        r matches Some(s) ==> encode_utf8(s@) == v@,
{
    std::str::from_utf8(v).ok()
}

/// The lines of `text`, cut at each CRLF.
fn split_lines(text: &str) -> (r: Vec<String>)
    ensures
        lines_view(r@) == split_crlf(text@),
{
    let ghost s = text@;
    let mut it = text.chars();
    let mut lines: Vec<String> = Vec::new();
    let mut cur = String::new();
    let mut pending_cr = false;
    let ghost mut i: int = 0;
    loop
        invariant
            s == text@,
            0 <= i <= s.len(),
            it.remaining() == s.skip(i),
            pending_cr == (i > 0 && s[i - 1] == '\r'),
            lines_view(lines@).push(
                if pending_cr { cur@.push('\r') } else { cur@ },
            ) == split_crlf(s.take(i)),
        decreases s.len() - i,
    {
        let next = it.next();
        match next {
            None => {
                assert(s.skip(i).len() == 0);
                assert(s.take(i) =~= s);
                if pending_cr {
                    push_char(&mut cur, '\r');
                }
                lines.push(cur);
                assert(lines_view(lines@) =~= split_crlf(s));
                return lines;
            },
            Some(c) => {
                assert(c == s[i]);
                let ghost before = lines_view(lines@);
                let ghost t = s.take(i + 1);
                assert(t.drop_last() =~= s.take(i));
                if pending_cr && c == '\n' {
                    assert(t.take(t.len() - 2) =~= s.take(i - 1));
                    assert(crlf_at(t, t.len() - 2));
                    assert(s.take(i).drop_last() =~= s.take(i - 1));
                    assert(!crlf_at(s.take(i), i - 2));
                    let ghost p = split_crlf(s.take(i - 1));
                    proof {
                        lemma_split_nonempty(s.take(i - 1));
                    }
                    let ghost q = split_crlf(s.take(i));
                    assert(q == p.update(p.len() - 1, p.last().push('\r')));
                    assert(q.last() == cur@.push('\r'));
                    assert(p.last().push('\r').drop_last() =~= p.last());
                    assert(cur@.push('\r').drop_last() =~= cur@);
                    assert(forall|k: int| 0 <= k < before.len() ==> q[k] == before[k]);
                    assert(before.push(cur@) =~= p);
                    lines.push(cur);
                    cur = String::new();
                    pending_cr = false;
                    assert(lines_view(lines@).push(cur@) =~= split_crlf(t));
                } else {
                    assert(!crlf_at(t, t.len() - 2));
                    if pending_cr {
                        push_char(&mut cur, '\r');
                    }
                    if c == '\r' {
                        pending_cr = true;
                    } else {
                        push_char(&mut cur, c);
                        pending_cr = false;
                    }
                    assert(lines_view(lines@).push(
                        if pending_cr { cur@.push('\r') } else { cur@ },
                    ) =~= split_crlf(t));
                }
                proof {
                    i = i + 1;
                }
            },
        }
    }
}

/// The lines of the file whose bytes are `raw`: its text cut at each CRLF,
/// with the CRLF pairs dropped. Fails when `raw` is not UTF-8.
pub fn decode(raw: &[u8]) -> (r: Result<Vec<String>, ReadError>)
    ensures
        r is Ok <==> valid_utf8(raw@),
        r matches Ok(v) ==> lines_view(v@) == split_crlf(decode_utf8(raw@)),
        r matches Err(e) ==> e == ReadError::NotUtf8,
{
    match utf8_text(raw) {
        Some(text) => {
            proof {
                encode_utf8_decode_utf8(text@);
            }
            Ok(split_lines(text))
        },
        None => Err(ReadError::NotUtf8),
    }
}

/// The bytes of a file that holds `lines`: their UTF-8 encoding, with CRLF
/// between each two lines and none after the last.
pub fn encode(lines: &Vec<String>) -> (r: Vec<u8>)
    ensures
        r@ == encode_utf8(join_crlf(lines_view(lines@))),
{
    let ghost ls = lines_view(lines@);
    let mut out = String::new();
    let mut i: usize = 0;
    while i < lines.len()
        invariant
            ls == lines_view(lines@),
            i <= lines.len(),
            out@ == join_crlf(ls.take(i as int)),
        decreases lines.len() - i,
    {
        proof {
            reveal_strlit("\r\n");
        }
        if i > 0 {
            out.append("\r\n");
        }
        out.append(lines[i].as_str());
        proof {
            let t = ls.take(i + 1);
            assert(t.drop_last() =~= ls.take(i as int));
            if i == 0 {
                assert(out@ =~= join_crlf(t));
            } else {
                assert("\r\n"@ =~= seq!['\r', '\n']);
                assert(out@ =~= join_crlf(t));
            }
        }
        i = i + 1;
    }
    assert(ls.take(i as int) =~= ls);
    out.as_str().as_bytes_vec()
}

/// Relies on String::push: appends `c` to `s`.
#[verifier::external_body]
pub(crate) fn push_char(s: &mut String, c: char)
    ensures
        final(s)@ == old(s)@.push(c),
{
    s.push(c)
}

} // verus!
