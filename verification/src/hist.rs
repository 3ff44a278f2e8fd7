//! The byte-level side of the fast histogram reader: finding each line's
//! first field without building a string per line.
use vstd::prelude::*;
use crate::text::{chars_of, string_from_chars};

verus! {

/// `memchr::memchr`: trusted to return the index of the first occurrence of
/// `needle` in `haystack`, or `None` when the byte does not occur.
#[verifier::external_body]
fn memchr(needle: u8, haystack: &[u8]) -> (r: Option<usize>)
    ensures
        r matches Some(i) ==> i < haystack@.len() && haystack@[i as int] == needle
            && forall|k: int| 0 <= k < i ==> haystack@[k] != needle,
        r is None ==> forall|k: int| 0 <= k < haystack@.len() ==> haystack@[k] != needle,
{
    memchr::memchr(needle, haystack)
}

/// Index of the first `b` in `s`, or -1.
pub open spec fn find_byte(s: Seq<u8>, b: u8) -> int
    decreases s.len(),
{
    if s.len() == 0 {
        -1
    } else if s[0] == b {
        0
    } else {
        let r = find_byte(s.drop_first(), b);
        if r < 0 { -1 } else { r + 1 }
    }
}

/// The pieces of `s` between occurrences of `b`.
pub open spec fn split_bytes(s: Seq<u8>, b: u8) -> Seq<Seq<u8>>
    decreases s.len(),
{
    let i = find_byte(s, b);
    if i < 0 || i >= s.len() {
        seq![s]
    } else {
        seq![s.take(i)] + split_bytes(s.skip(i + 1), b)
    }
}

/// Bytes trimmed around a field: the ASCII whitespace that `str::trim`
/// removes (tab, newline, vertical tab, form feed, carriage return, space).
pub open spec fn is_blank(b: u8) -> bool {
    b == 32 || (9 <= b && b <= 13)
}

pub open spec fn trim_blank_start(s: Seq<u8>) -> Seq<u8>
    decreases s.len(),
{
    if s.len() > 0 && is_blank(s[0]) { trim_blank_start(s.drop_first()) } else { s }
}

pub open spec fn trim_blank_end(s: Seq<u8>) -> Seq<u8>
    decreases s.len(),
{
    if s.len() > 0 && is_blank(s.last()) { trim_blank_end(s.drop_last()) } else { s }
}

/// The first field of a line: the bytes before the first delimiter (or the
/// whole line), without leading and trailing blanks.
pub open spec fn first_field_spec(line: Seq<u8>, delimiter: u8) -> Seq<u8> {
    let i = find_byte(line, delimiter);
    let field = if i >= 0 { line.take(i) } else { line };
    trim_blank_end(trim_blank_start(field))
}

proof fn lemma_find_byte_is_first(s: Seq<u8>, b: u8, i: int)
    requires
        0 <= i < s.len(),
        s[i] == b,
        forall|k: int| 0 <= k < i ==> s[k] != b,
    ensures
        find_byte(s, b) == i,
    decreases i,
{
    if i > 0 {
        lemma_find_byte_is_first(s.drop_first(), b, i - 1);
    }
}

proof fn lemma_find_byte_absent(s: Seq<u8>, b: u8)
    requires
        forall|k: int| 0 <= k < s.len() ==> s[k] != b,
    ensures
        find_byte(s, b) == -1,
    decreases s.len(),
{
    if s.len() > 0 {
        lemma_find_byte_absent(s.drop_first(), b);
    }
}

/// Where the first field of `line` lies: `line[r.0..r.1]`.
fn field_bounds(line: &[u8], delimiter: u8) -> (r: (usize, usize))
    ensures
        r.0 <= r.1 <= line@.len(),
        line@.subrange(r.0 as int, r.1 as int) == first_field_spec(line@, delimiter),
{
    let end = match memchr(delimiter, line) {
        Some(pos) => {
            proof { lemma_find_byte_is_first(line@, delimiter, pos as int); }
            pos
        },
        None => {
            proof { lemma_find_byte_absent(line@, delimiter); }
            line.len()
        },
    };
    let ghost field = line@.take(end as int);
    proof {
        assert(field == (if find_byte(line@, delimiter) >= 0 { line@.take(find_byte(line@, delimiter)) } else { line@ })) by {
            if find_byte(line@, delimiter) < 0 {
                assert(line@.take(line@.len() as int) =~= line@);
            }
        }
        assert(field.skip(0) =~= field);
    }
    let mut start: usize = 0;
    while start < end && (line[start] == 32 || (9 <= line[start] && line[start] <= 13))
        invariant
            start <= end <= line@.len(),
            field == line@.take(end as int),
            trim_blank_start(field) == trim_blank_start(field.skip(start as int)),
        decreases end - start,
    {
        proof { assert(field.skip(start as int).drop_first() =~= field.skip(start + 1)); }
        start = start + 1;
    }
    let ghost t = field.skip(start as int);
    proof {
        assert(trim_blank_start(field) == t);
        assert(field.subrange(start as int, end as int) =~= t);
    }
    let mut stop: usize = end;
    while stop > start && (line[stop - 1] == 32 || (9 <= line[stop - 1] && line[stop - 1] <= 13))
        invariant
            start <= stop <= end <= line@.len(),
            field == line@.take(end as int),
            t == field.skip(start as int),
            trim_blank_end(t) == trim_blank_end(field.subrange(start as int, stop as int)),
        decreases stop,
    {
        proof { assert(field.subrange(start as int, stop as int).drop_last() =~= field.subrange(start as int, stop - 1)); }
        stop = stop - 1;
    }
    proof {
        assert(line@.subrange(start as int, stop as int) =~= field.subrange(start as int, stop as int));
    }
    (start, stop)
}

/// Extract the first field from a line, trimming ASCII whitespace.
pub fn first_field(line: &[u8], delimiter: u8) -> (r: &[u8])
    ensures
        r@ == first_field_spec(line@, delimiter),
{
    let (a, b) = field_bounds(line, delimiter);
    &line[a..b]
}

/// A line without one trailing carriage return.
pub open spec fn strip_cr(l: Seq<u8>) -> Seq<u8> {
    if l.len() > 0 && l.last() == 13 { l.drop_last() } else { l }
}

/// A raw piece between newlines as a line of `str::lines`: the carriage
/// return of a `\r\n` ending is dropped (`ended`: a newline follows it).
pub open spec fn line_text(raw: Seq<u8>, ended: bool) -> Seq<u8> {
    if ended { strip_cr(raw) } else { raw }
}

/// The lines of `bytes` as `str::lines` cuts them, and a final empty piece
/// after a last newline.
pub open spec fn byte_lines(bytes: Seq<u8>) -> Seq<Seq<u8>> {
    let raw = split_bytes(bytes, 10);
    Seq::new(raw.len(), |k: int| line_text(raw[k], k < raw.len() - 1))
}

/// The non-empty lines, in order.
pub open spec fn nonempty_lines(lines: Seq<Seq<u8>>) -> Seq<Seq<u8>>
    decreases lines.len(),
{
    if lines.len() == 0 {
        Seq::empty()
    } else if lines.last().len() > 0 {
        nonempty_lines(lines.drop_last()).push(lines.last())
    } else {
        nonempty_lines(lines.drop_last())
    }
}

/// The data lines: the non-empty lines, after the first one when it is the header.
pub open spec fn after_header(ne: Seq<Seq<u8>>, has_headers: bool) -> Seq<Seq<u8>> {
    if !has_headers { ne } else if ne.len() > 0 { ne.drop_first() } else { Seq::empty() }
}

/// The fields a histogram reads from `bytes`: the first field of every
/// non-empty line (blank or not), after the header line when there is one;
/// `None` when a header is expected and there is no non-empty line.
pub open spec fn hist_fields_spec(bytes: Seq<u8>, delimiter: u8, has_headers: bool) -> Option<Seq<Seq<u8>>> {
    let ne = nonempty_lines(byte_lines(bytes));
    if has_headers && ne.len() == 0 {
        None
    } else {
        Some(after_header(ne, has_headers).map_values(|l: Seq<u8>| first_field_spec(l, delimiter)))
    }
}

/// `bytes[s.0..s.1]` is `f`.
pub open spec fn span_matches(bytes: Seq<u8>, s: (usize, usize), f: Seq<u8>) -> bool {
    s.0 <= s.1 <= bytes.len() && bytes.subrange(s.0 as int, s.1 as int) == f
}

/// The spans cut exactly the fields `fs` out of `bytes`.
pub open spec fn spans_match(bytes: Seq<u8>, spans: Seq<(usize, usize)>, fs: Seq<Seq<u8>>) -> bool {
    spans.len() == fs.len() && forall|k: int| 0 <= k < spans.len() ==> #[trigger] span_matches(bytes, spans[k], fs[k])
}

proof fn lemma_spans_push(bytes: Seq<u8>, spans: Seq<(usize, usize)>, fs: Seq<Seq<u8>>, s: (usize, usize), f: Seq<u8>)
    requires
        spans_match(bytes, spans, fs),
        span_matches(bytes, s, f),
    ensures
        spans_match(bytes, spans.push(s), fs.push(f)),
{
    assert forall|k: int| 0 <= k < spans.len() + 1 implies #[trigger] span_matches(bytes, spans.push(s)[k], fs.push(f)[k]) by {
        if k < spans.len() {
            assert(span_matches(bytes, spans[k], fs[k]));
        }
    }
}

/// The byte ranges of the fields a histogram reads (see `hist_fields_spec`):
/// `Err` with "no data (expected header row)" when a header is expected and
/// there is no non-empty line.
pub fn hist_field_spans(bytes: &[u8], delimiter: u8, has_headers: bool) -> (r: Result<Vec<(usize, usize)>, String>)
    ensures
        hist_fields_spec(bytes@, delimiter, has_headers) is None <==> r is Err,
        r matches Err(m) ==> m@ == "no data (expected header row)"@,
        r matches Ok(spans) ==> spans_match(bytes@, spans@, hist_fields_spec(bytes@, delimiter, has_headers).unwrap()),
{
    let ghost all = split_bytes(bytes@, 10);
    let mut spans: Vec<(usize, usize)> = Vec::new();
    let mut pos: usize = 0;
    let mut need_header = has_headers;
    let ghost mut done: Seq<Seq<u8>> = Seq::empty();
    let ghost mut seen: Seq<Seq<u8>> = Seq::empty();
    proof {
        assert(bytes@.skip(0) =~= bytes@);
        assert(done + split_bytes(bytes@.skip(pos as int), 10) =~= all);
    }
    loop
        invariant_except_break
            done + split_bytes(bytes@.skip(pos as int), 10) == all,
        invariant
            pos <= bytes@.len(),
            all == split_bytes(bytes@, 10),
            seen.len() == done.len(),
            forall|k: int| 0 <= k < done.len() ==> #[trigger] seen[k] == line_text(done[k], k < all.len() - 1),
            need_header == (has_headers && nonempty_lines(seen).len() == 0),
            spans_match(bytes@, spans@, after_header(nonempty_lines(seen), has_headers)
                .map_values(|l: Seq<u8>| first_field_spec(l, delimiter))),
        ensures
            done == all,
            seen.len() == all.len(),
            forall|k: int| 0 <= k < all.len() ==> #[trigger] seen[k] == line_text(all[k], k < all.len() - 1),
            need_header == (has_headers && nonempty_lines(seen).len() == 0),
            spans_match(bytes@, spans@, after_header(nonempty_lines(seen), has_headers)
                .map_values(|l: Seq<u8>| first_field_spec(l, delimiter))),
        decreases bytes@.len() - pos,
    {
        let rest = &bytes[pos..bytes.len()];
        let (line_end, last) = match memchr(10, rest) {
            Some(i) => {
                proof { lemma_find_byte_is_first(rest@, 10, i as int); }
                (pos + i, false)
            },
            None => {
                proof { lemma_find_byte_absent(rest@, 10); }
                (bytes.len(), true)
            },
        };
        let ghost line = bytes@.subrange(pos as int, line_end as int);
        let ghost tail = split_bytes(bytes@.skip(line_end + 1), 10);
        proof {
            assert(rest@ =~= bytes@.skip(pos as int));
            if last {
                assert(split_bytes(rest@, 10) == seq![rest@]);
                assert(line =~= rest@);
                assert(done.len() == all.len() - 1);
            } else {
                assert(split_bytes(rest@, 10) == seq![rest@.take(line_end - pos)] + split_bytes(rest@.skip(line_end - pos + 1), 10));
                assert(rest@.take(line_end - pos) =~= line);
                assert(rest@.skip(line_end - pos + 1) =~= bytes@.skip(line_end + 1));
                lemma_split_bytes_nonempty(bytes@.skip(line_end + 1), 10);
                assert(done.len() < all.len() - 1);
            }
            assert(all[done.len() as int] == line);
        }
        let mut stop = line_end;
        if !last && stop > pos && bytes[stop - 1] == 13 {
            stop = stop - 1;
        }
        let piece = &bytes[pos..stop];
        let ghost lt = line_text(line, !last);
        proof {
            assert(piece@ =~= lt);
        }
        let ghost old_seen = seen;
        let ghost old_fields = after_header(nonempty_lines(old_seen), has_headers)
            .map_values(|l: Seq<u8>| first_field_spec(l, delimiter));
        let ghost old_spans = spans@;
        proof {
            let old_done = done;
            done = done.push(line);
            seen = seen.push(lt);
            assert(done.drop_last() =~= old_done);
            assert(seen.drop_last() =~= old_seen);
            assert forall|k: int| 0 <= k < done.len() implies #[trigger] seen[k] == line_text(done[k], k < all.len() - 1) by {
                if k < old_done.len() {
                    assert(seen[k] == old_seen[k]);
                    assert(done[k] == old_done[k]);
                }
            }
        }
        if stop > pos {
            proof {
                assert(nonempty_lines(seen) == nonempty_lines(old_seen).push(lt));
            }
            if need_header {
                need_header = false;
                proof {
                    assert(after_header(nonempty_lines(seen), has_headers) =~= Seq::<Seq<u8>>::empty());
                    assert(after_header(nonempty_lines(old_seen), has_headers) =~= Seq::<Seq<u8>>::empty());
                }
            } else {
                let (a, b) = field_bounds(piece, delimiter);
                spans.push((pos + a, pos + b));
                proof {
                    assert(after_header(nonempty_lines(seen), has_headers)
                        =~= after_header(nonempty_lines(old_seen), has_headers).push(lt));
                    assert(after_header(nonempty_lines(seen), has_headers).map_values(|l: Seq<u8>| first_field_spec(l, delimiter))
                        =~= old_fields.push(first_field_spec(lt, delimiter)));
                    assert(bytes@.subrange(pos + a, pos + b) =~= piece@.subrange(a as int, b as int));
                    lemma_spans_push(bytes@, old_spans, old_fields, ((pos + a) as usize, (pos + b) as usize),
                        first_field_spec(lt, delimiter));
                }
            }
        } else {
            proof {
                assert(lt.len() == 0);
                assert(nonempty_lines(seen) == nonempty_lines(old_seen));
            }
        }
        if last {
            proof {
                assert(done =~= all) by {
                    assert(all == (done.drop_last() + seq![line]));
                }
            }
            break;
        }
        proof {
            assert(done.drop_last() + (seq![line] + tail) == all);
            assert(done.drop_last() + (seq![line] + tail) =~= done + tail);
        }
        pos = line_end + 1;
    }
    proof {
        assert(seen =~= byte_lines(bytes@));
    }
    if need_header {
        return Err(string_from_chars(&chars_of("no data (expected header row)")));
    }
    Ok(spans)
}

} // verus!

verus! {

/// The characters of ASCII bytes, one for one.
pub open spec fn ascii_text(s: Seq<u8>) -> Seq<char> {
    s.map_values(|b: u8| b as char)
}

/// ASCII bytes: each byte is its own character.
pub open spec fn plain_ascii(s: Seq<u8>) -> bool {
    forall|i: int| 0 <= i < s.len() ==> #[trigger] s[i] < 128
}

proof fn lemma_cast_facts(x: u8, y: u8)
    ensures
        (x as char == y as char) <==> x == y,
        x < 128 ==> (crate::text::is_ws(x as char) <==> is_blank(x)),
{
}

proof fn lemma_find_byte_bounds(s: Seq<u8>, b: u8)
    ensures
        -1 <= find_byte(s, b) < s.len(),
        find_byte(s, b) >= 0 ==> s[find_byte(s, b)] == b,
        forall|k: int| 0 <= k < s.len() && (find_byte(s, b) < 0 || k < find_byte(s, b)) ==> s[k] != b,
    decreases s.len(),
{
    if s.len() > 0 && s[0] != b {
        lemma_find_byte_bounds(s.drop_first(), b);
        assert forall|k: int| 0 <= k < s.len() && (find_byte(s, b) < 0 || k < find_byte(s, b)) implies s[k] != b by {
            if k > 0 {
                assert(s[k] == s.drop_first()[k - 1]);
            }
        }
    }
}

/// Finding a byte in bytes is finding its character in their text.
proof fn lemma_find_byte_text(s: Seq<u8>, b: u8)
    ensures
        find_byte(s, b) == crate::text::first_index(ascii_text(s), b as char),
    decreases s.len(),
{
    if s.len() > 0 {
        lemma_cast_facts(s[0], b);
        assert(ascii_text(s).drop_first() =~= ascii_text(s.drop_first()));
        lemma_find_byte_text(s.drop_first(), b);
    }
}

/// Splitting bytes at a byte is splitting their text at its character.
proof fn lemma_split_bytes_text(s: Seq<u8>, b: u8)
    ensures
        split_bytes(s, b).map_values(|p: Seq<u8>| ascii_text(p)) == crate::text::split_on(ascii_text(s), b as char),
    decreases s.len(),
{
    let i = find_byte(s, b);
    lemma_find_byte_text(s, b);
    lemma_find_byte_bounds(s, b);
    if i < 0 || i >= s.len() {
        assert(split_bytes(s, b).map_values(|p: Seq<u8>| ascii_text(p)) =~= seq![ascii_text(s)]);
    } else {
        lemma_split_bytes_text(s.skip(i + 1), b);
        assert(ascii_text(s).take(i) =~= ascii_text(s.take(i)));
        assert(ascii_text(s).skip(i + 1) =~= ascii_text(s.skip(i + 1)));
        let rest = split_bytes(s.skip(i + 1), b);
        assert(split_bytes(s, b) == seq![s.take(i)] + rest);
        assert(split_bytes(s, b).map_values(|p: Seq<u8>| ascii_text(p))
            =~= seq![ascii_text(s.take(i))] + rest.map_values(|p: Seq<u8>| ascii_text(p)));
    }
}

/// The pieces between newlines of ASCII bytes hold no newline and are ASCII.
proof fn lemma_split_pieces_plain(s: Seq<u8>)
    requires
        plain_ascii(s),
    ensures
        forall|k: int, j: int| 0 <= k < split_bytes(s, 10).len() && 0 <= j < split_bytes(s, 10)[k].len()
            ==> #[trigger] split_bytes(s, 10)[k][j] != 10 && plain_ascii(split_bytes(s, 10)[k]),
    decreases s.len(),
{
    let i = find_byte(s, 10);
    lemma_find_byte_bounds(s, 10);
    if i < 0 || i >= s.len() {
        assert(split_bytes(s, 10) == seq![s]);
    } else {
        let t = s.skip(i + 1);
        assert(plain_ascii(t)) by {
            assert forall|j: int| 0 <= j < t.len() implies #[trigger] t[j] < 128 by {
                assert(t[j] == s[j + i + 1]);
            }
        }
        assert(plain_ascii(s.take(i))) by {
            assert forall|j: int| 0 <= j < s.take(i).len() implies #[trigger] s.take(i)[j] < 128 by {
                assert(s.take(i)[j] == s[j]);
            }
        }
        lemma_split_pieces_plain(t);
        let rest = split_bytes(t, 10);
        assert(split_bytes(s, 10) == seq![s.take(i)] + rest);
        assert forall|k: int, j: int| 0 <= k < split_bytes(s, 10).len() && 0 <= j < split_bytes(s, 10)[k].len()
            implies #[trigger] split_bytes(s, 10)[k][j] != 10 && plain_ascii(split_bytes(s, 10)[k]) by {
            if k == 0 {
                assert(split_bytes(s, 10)[0] == s.take(i));
                assert(s.take(i)[j] == s[j]);
            } else {
                assert(split_bytes(s, 10)[k] == rest[k - 1]);
                assert(rest[k - 1][j] != 10);
            }
        }
    }
}

/// A line's bytes are whitespace as text exactly when they are blanks.
pub open spec fn ws_agrees(f: Seq<u8>) -> bool {
    forall|i: int| 0 <= i < f.len() ==> (crate::text::is_ws(#[trigger] f[i] as char) <==> is_blank(f[i]))
}

proof fn lemma_trim_start_text(f: Seq<u8>) -> (j: int)
    requires
        ws_agrees(f),
    ensures
        0 <= j <= f.len(),
        trim_blank_start(f) == f.skip(j),
        crate::text::trim_start(ascii_text(f)) == ascii_text(trim_blank_start(f)),
    decreases f.len(),
{
    if f.len() > 0 && is_blank(f[0]) {
        assert(ascii_text(f).drop_first() =~= ascii_text(f.drop_first()));
        assert(ws_agrees(f.drop_first())) by {
            assert forall|i: int| 0 <= i < f.drop_first().len() implies
                (crate::text::is_ws(#[trigger] f.drop_first()[i] as char) <==> is_blank(f.drop_first()[i])) by {
                assert(f.drop_first()[i] == f[i + 1]);
            }
        }
        let j = lemma_trim_start_text(f.drop_first());
        assert(f.drop_first().skip(j) =~= f.skip(j + 1));
        j + 1
    } else {
        if f.len() > 0 {
            assert(!crate::text::is_ws(f[0] as char));
        }
        assert(f.skip(0) =~= f);
        0
    }
}

proof fn lemma_trim_end_text(g: Seq<u8>)
    requires
        ws_agrees(g),
    ensures
        crate::text::trim_end(ascii_text(g)) == ascii_text(trim_blank_end(g)),
    decreases g.len(),
{
    if g.len() > 0 && is_blank(g.last()) {
        assert(ascii_text(g).drop_last() =~= ascii_text(g.drop_last()));
        assert(ws_agrees(g.drop_last())) by {
            assert forall|i: int| 0 <= i < g.drop_last().len() implies
                (crate::text::is_ws(#[trigger] g.drop_last()[i] as char) <==> is_blank(g.drop_last()[i])) by {
                assert(g.drop_last()[i] == g[i]);
            }
        }
        lemma_trim_end_text(g.drop_last());
    } else if g.len() > 0 {
        assert(!crate::text::is_ws(g[g.len() - 1] as char));
    }
}

/// On a line of plain bytes, the byte path's first field is the text path's:
/// the first piece of the split, trimmed.
proof fn lemma_first_field_text(line: Seq<u8>, d: u8)
    requires
        plain_ascii(line),
        forall|j: int| 0 <= j < line.len() ==> #[trigger] line[j] != 10,
    ensures
        ascii_text(first_field_spec(line, d)) == crate::text::trim(crate::text::split_on(ascii_text(line), d as char)[0]),
{
    let i = find_byte(line, d);
    lemma_find_byte_text(line, d);
    lemma_find_byte_bounds(line, d);
    let field = if i >= 0 { line.take(i) } else { line };
    assert(crate::text::split_on(ascii_text(line), d as char)[0] == ascii_text(field)) by {
        if i >= 0 {
            assert(ascii_text(line).take(i) =~= ascii_text(line.take(i)));
        }
    }
    assert(ws_agrees(field)) by {
        assert forall|k: int| 0 <= k < field.len() implies
            (crate::text::is_ws(#[trigger] field[k] as char) <==> is_blank(field[k])) by {
            assert(field[k] == line[k]);
            lemma_cast_facts(line[k], line[k]);
        }
    }
    let j = lemma_trim_start_text(field);
    let g = trim_blank_start(field);
    assert(ws_agrees(g)) by {
        assert forall|k: int| 0 <= k < g.len() implies
            (crate::text::is_ws(#[trigger] g[k] as char) <==> is_blank(g[k])) by {
            assert(g[k] == field[k + j]);
        }
    }
    lemma_trim_end_text(g);
}

/// A line of text without a final carriage return.
pub open spec fn strip_cr_text(l: Seq<char>) -> Seq<char> {
    if l.len() > 0 && l.last() == '\r' { l.drop_last() } else { l }
}

/// `str::lines`: the pieces between newlines, each without the carriage
/// return of a `\r\n` ending, and no empty piece after a final newline.
pub open spec fn lines_of(text: Seq<char>) -> Seq<Seq<char>> {
    let p = crate::text::split_on(text, '\n');
    let full = Seq::new(p.len(), |i: int| if i < p.len() - 1 { strip_cr_text(p[i]) } else { p[i] });
    if p.len() > 0 && p.last().len() == 0 { full.drop_last() } else { full }
}

proof fn lemma_split_bytes_nonempty(s: Seq<u8>, b: u8)
    ensures
        split_bytes(s, b).len() >= 1,
    decreases s.len(),
{
}

proof fn lemma_strip_cr_text(r: Seq<u8>)
    ensures
        strip_cr_text(ascii_text(r)) == ascii_text(strip_cr(r)),
{
    if r.len() > 0 {
        lemma_cast_facts(r.last(), 13);
        assert(ascii_text(r).drop_last() =~= ascii_text(r.drop_last()));
    }
}

/// The lines `str::lines` would give, before the final empty piece is
/// dropped, are the byte lines read as text; each byte line is ASCII
/// without a newline.
proof fn lemma_byte_lines_text(bytes: Seq<u8>)
    requires
        plain_ascii(bytes),
    ensures
        ({
            let p = crate::text::split_on(ascii_text(bytes), '\n');
            let full = Seq::new(p.len(), |i: int| if i < p.len() - 1 { strip_cr_text(p[i]) } else { p[i] });
            &&& full == byte_lines(bytes).map_values(|l: Seq<u8>| ascii_text(l))
            &&& crate::text::nonempty(lines_of(ascii_text(bytes))) == crate::text::nonempty(full)
        }),
        forall|k: int, j: int| 0 <= k < byte_lines(bytes).len() && 0 <= j < byte_lines(bytes)[k].len()
            ==> #[trigger] byte_lines(bytes)[k][j] != 10 && plain_ascii(byte_lines(bytes)[k]),
{
    let raw = split_bytes(bytes, 10);
    let bl = byte_lines(bytes);
    let p = crate::text::split_on(ascii_text(bytes), '\n');
    let full = Seq::new(p.len(), |i: int| if i < p.len() - 1 { strip_cr_text(p[i]) } else { p[i] });
    lemma_split_bytes_text(bytes, 10);
    lemma_split_bytes_nonempty(bytes, 10);
    lemma_split_pieces_plain(bytes);
    assert forall|k: int| 0 <= k < full.len() implies #[trigger] full[k] == ascii_text(bl[k]) by {
        assert(p[k] == ascii_text(raw[k]));
        lemma_strip_cr_text(raw[k]);
    }
    assert(full =~= bl.map_values(|l: Seq<u8>| ascii_text(l)));
    let lines = lines_of(ascii_text(bytes));
    if p.len() > 0 && p.last().len() == 0 {
        assert(lines =~= full.drop_last());
        assert(full.last().len() == 0);
        assert(crate::text::nonempty(full) == crate::text::nonempty(full.drop_last()));
    } else {
        assert(lines =~= full);
    }
    assert forall|k: int, j: int| 0 <= k < bl.len() && 0 <= j < bl[k].len()
        implies #[trigger] bl[k][j] != 10 && plain_ascii(bl[k]) by {
        let r = raw[k];
        assert(bl[k][j] == r[j]);
        assert(r[j] != 10);
        assert forall|i: int| 0 <= i < bl[k].len() implies #[trigger] bl[k][i] < 128 by {
            assert(bl[k][i] == r[i]);
            if r.len() > 0 {
                assert(r[0] != 10);
            }
        }
    }
}

/// Keeping the non-empty lines commutes with reading bytes as text; the
/// lines kept are lines of the input.
proof fn lemma_nonempty_text(ls: Seq<Seq<u8>>)
    ensures
        crate::text::nonempty(ls.map_values(|l: Seq<u8>| ascii_text(l)))
            == nonempty_lines(ls).map_values(|l: Seq<u8>| ascii_text(l)),
        forall|k: int| 0 <= k < nonempty_lines(ls).len() ==> ls.contains(#[trigger] nonempty_lines(ls)[k]),
    decreases ls.len(),
{
    if ls.len() > 0 {
        let t = ls.map_values(|l: Seq<u8>| ascii_text(l));
        lemma_nonempty_text(ls.drop_last());
        assert(t.drop_last() =~= ls.drop_last().map_values(|l: Seq<u8>| ascii_text(l)));
        assert(t.last() == ascii_text(ls.last()));
        assert(ascii_text(ls.last()).len() == ls.last().len());
        let ne = nonempty_lines(ls);
        let ne1 = nonempty_lines(ls.drop_last());
        assert forall|k: int| 0 <= k < ne.len() implies ls.contains(#[trigger] ne[k]) by {
            if k < ne1.len() {
                assert(ne[k] == ne1[k]);
                let i = choose|i: int| 0 <= i < ls.drop_last().len() && ls.drop_last()[i] == ne1[k];
                assert(ls[i] == ne1[k]);
            } else {
                assert(ne[k] == ls.last());
                assert(ls[ls.len() - 1] == ls.last());
            }
        }
        if ls.last().len() > 0 {
            assert(crate::text::nonempty(t) =~= ne.map_values(|l: Seq<u8>| ascii_text(l)));
        }
    }
}

/// A successful line read returns the trimmed first field of each data line.
proof fn lemma_hist_rows_fields(body: Seq<Seq<char>>, d: char)
    ensures
        crate::data::hist_rows(body, d) matches Ok(vs)
            ==> vs == body.map_values(|l: Seq<char>| crate::text::trim(crate::text::split_on(l, d)[0])),
    decreases body.len(),
{
    if body.len() > 0 {
        lemma_hist_rows_fields(body.drop_last(), d);
        if crate::data::hist_rows(body, d) is Ok {
            assert(body.map_values(|l: Seq<char>| crate::text::trim(crate::text::split_on(l, d)[0]))
                =~= body.drop_last().map_values(|l: Seq<char>| crate::text::trim(crate::text::split_on(l, d)[0]))
                    .push(crate::text::trim(crate::text::split_on(body.last(), d)[0])));
        }
    } else {
        assert(body.map_values(|l: Seq<char>| crate::text::trim(crate::text::split_on(l, d)[0])) =~= Seq::<Seq<char>>::empty());
    }
}

/// The byte path reads what the line path reads: on ASCII input, the byte
/// reader refuses a missing header exactly when the line reader does, and
/// otherwise hands out, line for line, the trimmed first fields that the
/// line reader checks and returns; so where the line reader succeeds the
/// byte reader holds the same values.
pub proof fn lemma_byte_fields_match_lines(bytes: Seq<u8>, d: u8, has_headers: bool)
    requires
        plain_ascii(bytes),
    ensures
        hist_fields_spec(bytes, d, has_headers) is None
            <==> crate::data::data_lines(lines_of(ascii_text(bytes)), has_headers) is None,
        hist_fields_spec(bytes, d, has_headers) matches Some(fs)
            ==> crate::data::data_lines(lines_of(ascii_text(bytes)), has_headers) matches Some(body)
                && fs.map_values(|f: Seq<u8>| ascii_text(f))
                    == body.map_values(|l: Seq<char>| crate::text::trim(crate::text::split_on(l, d as char)[0])),
        crate::data::hist_spec(lines_of(ascii_text(bytes)), d as char, has_headers) matches Ok(vs)
            ==> hist_fields_spec(bytes, d, has_headers) matches Some(fs)
                && fs.map_values(|f: Seq<u8>| ascii_text(f)) == vs,
{
    let bl = byte_lines(bytes);
    let dc = d as char;
    lemma_byte_lines_text(bytes);
    lemma_nonempty_text(bl);
    let ne = nonempty_lines(bl);
    let lines = lines_of(ascii_text(bytes));
    let nec = crate::text::nonempty(lines);
    assert(nec == ne.map_values(|l: Seq<u8>| ascii_text(l)));
    let body_b = after_header(ne, has_headers);
    assert(forall|k: int| 0 <= k < body_b.len() ==> ne.contains(#[trigger] body_b[k])) by {
        assert forall|k: int| 0 <= k < body_b.len() implies ne.contains(#[trigger] body_b[k]) by {
            if has_headers {
                assert(body_b[k] == ne[k + 1]);
            } else {
                assert(body_b[k] == ne[k]);
            }
        }
    }
    if !(has_headers && ne.len() == 0) {
        let body = if has_headers { nec.drop_first() } else { nec };
        assert(crate::data::data_lines(lines, has_headers) == Some(body));
        assert(body =~= body_b.map_values(|l: Seq<u8>| ascii_text(l)));
        let fs = body_b.map_values(|l: Seq<u8>| first_field_spec(l, d));
        let fa = fs.map_values(|f: Seq<u8>| ascii_text(f));
        let bb = body.map_values(|l: Seq<char>| crate::text::trim(crate::text::split_on(l, dc)[0]));
        assert forall|k: int| 0 <= k < fs.len() implies #[trigger] fa[k] == bb[k] by {
            let l = body_b[k];
            assert(ne.contains(l));
            let i = choose|i: int| 0 <= i < ne.len() && ne[i] == l;
            assert(bl.contains(ne[i]));
            let q = choose|q: int| 0 <= q < bl.len() && bl[q] == l;
            assert(forall|j: int| 0 <= j < l.len() ==> #[trigger] l[j] != 10 && plain_ascii(l)) by {
                assert forall|j: int| 0 <= j < l.len() implies #[trigger] l[j] != 10 && plain_ascii(l) by {
                    assert(bl[q][j] != 10 && plain_ascii(bl[q]));
                }
            }
            if l.len() > 0 {
                assert(l[0] != 10);
            }
            lemma_first_field_text(l, d);
            assert(body[k] == ascii_text(l));
        }
        assert(fa =~= bb);
        lemma_hist_rows_fields(body, dc);
    } else {
        assert(nec.len() == 0);
    }
}

} // verus!
