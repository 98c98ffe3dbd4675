//! A request that is written out is found and routed.

use vstd::prelude::*;
use vstd::utf8::is_ascii_chars_encode_utf8;
use crate::http::{
    blank_at, blank_from, blanks_end, job_of, length_from, length_name_at, lower, status_of, Job,
    Status,
};
use crate::laws::stand::{
    all_digits, free_of, lemma_byte_end_at, lemma_byte_of, lemma_digits_stand, lemma_free_stands,
    lemma_one, lemma_split,
};
use crate::parse::payload_of;
use crate::response::{digits_of, digits_write_number};
use crate::server::steps::{asked, is_whole};
use crate::text::{byte_end, decimal, word, word_at};

verus! {

/// The name of the length field, in small letters.
pub open spec fn length_name() -> Seq<u8> {
    seq![
        0x63u8, 0x6fu8, 0x6eu8, 0x74u8, 0x65u8, 0x6eu8, 0x74u8, 0x2du8, 0x6cu8, 0x65u8, 0x6eu8,
        0x67u8, 0x74u8, 0x68u8, 0x3au8,
    ]
}

/// Whether a byte is a small letter or other sign, or the capital of the small letter.
pub open spec fn same_letter(c: u8, small: u8) -> bool {
    c == small || (0x61 <= small <= 0x7a && c + 32 == small)
}

/// Whether a text is the name of the length field, whatever the case of its letters.
pub open spec fn names_length(t: Seq<u8>) -> bool {
    t.len() == 15 && forall|k: int| 0 <= k < 15 ==> same_letter(#[trigger] t[k], length_name()[k])
}

/// Whether the name of the length field is somewhere in a text.
pub open spec fn mentions_length(t: Seq<u8>) -> bool {
    exists|i: int| 0 <= i && i + 15 <= t.len() && #[trigger] names_length(t.subrange(i, i + 15))
}

/// The end of a line.
pub open spec fn line_end() -> Seq<u8> {
    seq![0x0du8, 0x0au8]
}

/// Lines, each with its end.
pub open spec fn lines_text(lines: Seq<Seq<u8>>) -> Seq<u8>
    decreases lines.len(),
{
    if lines.len() == 0 {
        Seq::empty()
    } else {
        (lines[0] + line_end()) + lines_text(lines.skip(1))
    }
}

/// Whether lines can stand in a head: none is empty, and none holds a line end.
pub open spec fn are_lines(lines: Seq<Seq<u8>>) -> bool {
    forall|k: int|
        0 <= k < lines.len() ==> (#[trigger] lines[k]).len() > 0 && free_of(lines[k], 0x0d)
}

/// Whether no line mentions the length field.
pub open spec fn no_length(lines: Seq<Seq<u8>>) -> bool {
    forall|k: int| 0 <= k < lines.len() ==> !mentions_length(#[trigger] lines[k])
}

/// The first line of a request.
pub open spec fn request_line(method: Seq<u8>, path: Seq<u8>, version: Seq<u8>) -> Seq<u8> {
    method + (seq![0x20u8] + (path + (seq![0x20u8] + version)))
}

/// Whether a request line can be written: neither method nor path holds a blank, and nothing a line
/// end.
pub open spec fn is_request_line(method: Seq<u8>, path: Seq<u8>, version: Seq<u8>) -> bool {
    &&& free_of(method, 0x20)
    &&& free_of(method, 0x0d)
    &&& free_of(path, 0x20)
    &&& free_of(path, 0x0d)
    &&& free_of(version, 0x0d)
}

/// The line that states the length of the body: the name of the field, the digits, and what comes
/// behind them.
pub open spec fn length_line(name: Seq<u8>, pad: Seq<u8>, d: Seq<u8>, tail: Seq<u8>) -> Seq<u8> {
    name + (pad + (d + tail))
}

/// Whether a length line can be written so: there are digits, or there are none and something else
/// comes behind the blanks.
pub open spec fn is_length_line(name: Seq<u8>, pad: Seq<u8>, d: Seq<u8>, tail: Seq<u8>) -> bool {
    &&& names_length(name)
    &&& is_pad(pad)
    &&& all_digits(d)
    &&& free_of(tail, 0x0d)
    &&& tail.len() > 0 ==> !(0x30 <= tail[0] <= 0x39)
    &&& d.len() == 0 && tail.len() > 0 ==> tail[0] != 0x20 && tail[0] != 0x09
}

/// Whether a text is blanks and tabs.
pub open spec fn is_pad(pad: Seq<u8>) -> bool {
    forall|k: int| 0 <= k < pad.len() ==> #[trigger] pad[k] == 0x20 || pad[k] == 0x09
}

/// A byte that ends a line is in no name of the length field.
proof fn lemma_names()
    ensures
        word("content-length:") == length_name(),
        word("GET") == seq![0x47u8, 0x45u8, 0x54u8],
        word("POST") == seq![0x50u8, 0x4fu8, 0x53u8, 0x54u8],
        forall|k: int| 0 <= k < 15 ==> !same_letter(0x0d, #[trigger] length_name()[k]),
        forall|k: int| 0 <= k < 15 ==> !same_letter(0x0a, #[trigger] length_name()[k]),
{
    reveal_strlit("content-length:");
    reveal_strlit("GET");
    reveal_strlit("POST");
    is_ascii_chars_encode_utf8("content-length:"@);
    is_ascii_chars_encode_utf8("GET"@);
    is_ascii_chars_encode_utf8("POST"@);
    assert(word("content-length:") =~= length_name());
    assert(word("GET") =~= seq![0x47u8, 0x45u8, 0x54u8]);
    assert(word("POST") =~= seq![0x50u8, 0x4fu8, 0x53u8, 0x54u8]);
}

/// Where the name of the length field stands.
proof fn lemma_name_at(h: Seq<u8>, i: int)
    requires
        0 <= i,
        i + 15 <= h.len(),
    ensures
        length_name_at(h, i) <==> names_length(h.subrange(i, i + 15)),
{
    lemma_names();
    let t = h.subrange(i, i + 15);
    let name = length_name();
    assert forall|k: int| 0 <= k < 15 implies (lower(#[trigger] h[i + k]) == name[k]
        <==> same_letter(t[k], name[k])) by {
        assert(t[k] == h[i + k]);
        assert(name[k] < 0x80);
    }
    if length_name_at(h, i) {
        assert forall|k: int| 0 <= k < 15 implies same_letter(#[trigger] t[k], name[k]) by {
            assert(lower(h[i + k]) == name[k]);
        }
    }
    if names_length(t) {
        assert forall|k: int| 0 <= k < 15 implies lower(#[trigger] h[i + k]) == name[k] by {
            assert(same_letter(t[k], name[k]));
        }
    }
}

/// Whether no name of the length field begins in a text, whatever comes behind it.
spec fn quiet(t: Seq<u8>) -> bool {
    forall|i: int| 0 <= i < t.len() ==> #[trigger] breaks_off(t, i)
}

/// Whether what begins at `i` is no name of the length field, as far as the text goes.
spec fn breaks_off(t: Seq<u8>, i: int) -> bool {
    exists|k: int|
        0 <= k < 15 && i + k < t.len() && !same_letter(#[trigger] t[i + k], length_name()[k])
}

proof fn lemma_quiet_line(line: Seq<u8>)
    requires
        !mentions_length(line),
    ensures
        quiet(line + line_end()),
{
    lemma_names();
    let t = line + line_end();
    let name = length_name();
    assert forall|i: int| 0 <= i < t.len() implies #[trigger] breaks_off(t, i) by {
        if i + 15 <= line.len() {
            let w = line.subrange(i, i + 15);
            assert(!names_length(w));
            let k = choose|k: int| 0 <= k < 15 && !same_letter(#[trigger] w[k], name[k]);
            assert(t[i + k] == w[k]);
            assert(!same_letter(t[i + k], name[k]));
        } else if i <= line.len() {
            let k = line.len() - i;
            assert(t[i + k] == 0x0d);
            assert(!same_letter(0x0d, name[k]));
        } else {
            assert(t[i + 0] == 0x0a);
            assert(!same_letter(0x0a, name[0]));
        }
    }
}

proof fn lemma_quiet_both(s: Seq<u8>, t: Seq<u8>)
    requires
        quiet(s),
        quiet(t),
    ensures
        quiet(s + t),
{
    let w = s + t;
    assert forall|i: int| 0 <= i < w.len() implies #[trigger] breaks_off(w, i) by {
        if i < s.len() {
            assert(breaks_off(s, i));
            let k = choose|k: int|
                0 <= k < 15 && i + k < s.len() && !same_letter(
                    #[trigger] s[i + k],
                    length_name()[k],
                );
            assert(w[i + k] == s[i + k]);
        } else {
            let j = i - s.len();
            assert(breaks_off(t, j));
            let k = choose|k: int|
                0 <= k < 15 && j + k < t.len() && !same_letter(
                    #[trigger] t[j + k],
                    length_name()[k],
                );
            assert(w[i + k] == t[j + k]);
        }
    }
}

proof fn lemma_quiet_lines(lines: Seq<Seq<u8>>)
    requires
        no_length(lines),
    ensures
        quiet(lines_text(lines)),
    decreases lines.len(),
{
    if lines.len() > 0 {
        assert(!mentions_length(lines[0]));
        lemma_quiet_line(lines[0]);
        let rest = lines.skip(1);
        assert forall|k: int| 0 <= k < rest.len() implies !mentions_length(#[trigger] rest[k]) by {
            assert(rest[k] == lines[k + 1]);
        }
        lemma_quiet_lines(rest);
        lemma_quiet_both(lines[0] + line_end(), lines_text(rest));
    }
}

/// The search for the length field passes over what does not name it.
proof fn lemma_pass(h: Seq<u8>, t: Seq<u8>, i: int)
    requires
        quiet(t),
        word_at(h, 0, t),
        0 <= i <= t.len(),
    ensures
        length_from(h, i) == length_from(h, t.len() as int),
    decreases t.len() - i,
{
    lemma_names();
    if i < t.len() {
        lemma_pass(h, t, i + 1);
        if i + 15 <= h.len() {
            lemma_name_at(h, i);
            assert(breaks_off(t, i));
            let k = choose|k: int|
                0 <= k < 15 && i + k < t.len() && !same_letter(
                    #[trigger] t[i + k],
                    length_name()[k],
                );
            lemma_byte_of(h, 0, t, i + k);
            let w = h.subrange(i, i + 15);
            assert(w[k] == h[i + k]);
            assert(!names_length(w));
        } else {
            lemma_none(h, i + 1);
            lemma_none(h, t.len() as int);
        }
    }
}

proof fn lemma_none(h: Seq<u8>, i: int)
    requires
        i + 15 > h.len(),
    ensures
        length_from(h, i) is None,
{
    lemma_names();
}

proof fn lemma_pad_end(h: Seq<u8>, i: int, pad: Seq<u8>)
    requires
        0 <= i,
        word_at(h, i, pad),
        is_pad(pad),
        i + pad.len() < h.len() ==> h[i + pad.len()] != 0x20 && h[i + pad.len()] != 0x09,
    ensures
        blanks_end(h, i) == i + pad.len(),
    decreases pad.len(),
{
    if pad.len() > 0 {
        lemma_byte_of(h, i, pad, 0);
        assert(pad[0] == 0x20 || pad[0] == 0x09);
        let rest = pad.skip(1);
        assert(pad =~= seq![pad[0]] + rest);
        lemma_split(h, i, seq![pad[0]], rest);
        assert forall|k: int| 0 <= k < rest.len() implies #[trigger] rest[k] == 0x20 || rest[k]
            == 0x09 by {
            assert(rest[k] == pad[k + 1]);
        }
        lemma_pad_end(h, i + 1, rest);
    }
}

/// The length that a head states.
proof fn lemma_length(
    h: Seq<u8>,
    t: Seq<u8>,
    name: Seq<u8>,
    pad: Seq<u8>,
    d: Seq<u8>,
    tail: Seq<u8>,
)
    requires
        quiet(t),
        is_length_line(name, pad, d, tail),
        word_at(h, 0, t + length_line(name, pad, d, tail)),
        ({
            let e = t.len() + length_line(name, pad, d, tail).len();
            e < h.len() ==> h[e as int] == 0x0d
        }),
    ensures
        length_from(h, 0) == (if d.len() > 0 && decimal(d) <= usize::MAX {
            Some(decimal(d))
        } else {
            None
        }),
{
    lemma_names();
    let p = t.len() as int;
    lemma_split(h, 0, t, length_line(name, pad, d, tail));
    lemma_pass(h, t, 0);
    lemma_split(h, p, name, pad + (d + tail));
    lemma_split(h, p + 15, pad, d + tail);
    let s = p + 15 + pad.len();
    lemma_split(h, s, d, tail);
    let e = s + d.len();
    if d.len() > 0 {
        lemma_byte_of(h, s, d, 0);
        assert(0x30 <= d[0] <= 0x39);
    }
    if tail.len() > 0 {
        lemma_byte_of(h, e, tail, 0);
    }
    lemma_name_at(h, p);
    assert(h.subrange(p, p + 15) == name);
    lemma_pad_end(h, p + 15, pad);
    lemma_digits_stand(h, s, d);
    assert(h.subrange(s, e) == d);
}

/// In lines no two line ends follow each other.
proof fn lemma_no_blank(b: Seq<u8>, at: int, lines: Seq<Seq<u8>>, i: int)
    requires
        0 <= at,
        are_lines(lines),
        word_at(b, at, lines_text(lines) + line_end()),
        at <= i < at + lines_text(lines).len(),
        lines.len() > 0,
    ensures
        blank_at(b, i) <==> i == at + lines_text(lines).len() - 2,
    decreases lines.len(),
{
    let line = lines[0];
    let rest = lines.skip(1);
    let t = lines_text(rest);
    assert(lines[0].len() > 0 && free_of(lines[0], 0x0d));
    assert(lines_text(lines) + line_end() =~= line + (line_end() + (t + line_end())));
    lemma_split(b, at, line, line_end() + (t + line_end()));
    let e = at + line.len();
    lemma_split(b, e, line_end(), t + line_end());
    lemma_byte_of(b, e, line_end(), 0);
    lemma_byte_of(b, e, line_end(), 1);
    if i < e {
        lemma_byte_of(b, at, line, i - at);
        reveal(free_of);
        assert(line[i - at] != 0x0d);
    } else if rest.len() == 0 {
        assert(t =~= Seq::empty());
        assert(t + line_end() =~= line_end());
        lemma_byte_of(b, e + 2, line_end(), 0);
        lemma_byte_of(b, e + 2, line_end(), 1);
    } else {
        assert forall|k: int| 0 <= k < rest.len() implies (#[trigger] rest[k]).len() > 0 && free_of(
            rest[k],
            0x0d,
        ) by {
            assert(rest[k] == lines[k + 1]);
        }
        assert(rest[0].len() > 0 && free_of(rest[0], 0x0d));
        if i < e + 2 {
            assert(t + line_end() =~= rest[0] + (line_end() + (lines_text(rest.skip(1))
                + line_end())));
            lemma_split(
                b,
                e + 2,
                rest[0],
                line_end() + (lines_text(rest.skip(1)) + line_end()),
            );
            lemma_byte_of(b, e + 2, rest[0], 0);
            reveal(free_of);
            assert(rest[0][0] != 0x0d);
            assert(t.len() >= 2);
        } else {
            lemma_no_blank(b, e + 2, rest, i);
        }
    }
}

proof fn lemma_blank(b: Seq<u8>, lines: Seq<Seq<u8>>, i: int)
    requires
        are_lines(lines),
        lines.len() > 0,
        word_at(b, 0, lines_text(lines) + line_end()),
        0 <= i <= lines_text(lines).len() - 2,
    ensures
        blank_from(b, i) == Some(lines_text(lines).len() - 2),
    decreases lines_text(lines).len() - i,
{
    lemma_no_blank(b, 0, lines, i);
    let e = lines_text(lines).len() - 2;
    lemma_no_blank(b, 0, lines, e);
    if i < e {
        lemma_blank(b, lines, i + 1);
    }
}

/// What a head with a request line as its first line says.
proof fn lemma_first_line(
    b: Seq<u8>,
    method: Seq<u8>,
    path: Seq<u8>,
    version: Seq<u8>,
    rest: Seq<Seq<u8>>,
)
    requires
        is_request_line(method, path, version),
        word_at(
            b,
            0,
            lines_text(seq![request_line(method, path, version)] + rest) + line_end(),
        ),
    ensures
        ({
            let line = b.take(byte_end(b, 0, 0x0d));
            let sp1 = byte_end(line, 0, 0x20);
            let after = line.skip(sp1 + 1);
            let sp2 = byte_end(after, 0, 0x20);
            &&& sp1 < line.len()
            &&& sp2 < after.len()
            &&& line.take(sp1) == method
            &&& after.take(sp2) == path
        }),
{
    let first = request_line(method, path, version);
    let all = seq![first] + rest;
    let t = lines_text(rest) + line_end();
    assert(all.skip(1) =~= rest);
    assert(lines_text(all) + line_end() =~= first + (line_end() + t));
    lemma_split(b, 0, first, line_end() + t);
    lemma_split(b, first.len() as int, line_end(), t);
    lemma_byte_of(b, first.len() as int, line_end(), 0);
    assert(free_of(first, 0x0d)) by {
        reveal(free_of);
        assert forall|k: int| 0 <= k < first.len() implies #[trigger] first[k] != 0x0d by {
            let p = k - method.len() - 1;
            let v = p - path.len() - 1;
            if k < method.len() {
                assert(first[k] == method[k]);
            } else if k == method.len() {
                assert(first[k] == 0x20);
            } else if p < path.len() {
                assert(first[k] == path[p]);
            } else if p == path.len() {
                assert(first[k] == 0x20);
            } else {
                assert(first[k] == version[v]);
            }
        }
    }
    lemma_free_stands(b, 0, first, 0x0d);
    let line = b.take(first.len() as int);
    assert(line =~= first);
    assert(line.subrange(0, line.len() as int) =~= line);
    let behind = path + (seq![0x20u8] + version);
    lemma_split(line, 0, method, seq![0x20u8] + behind);
    lemma_split(line, method.len() as int, seq![0x20u8], behind);
    lemma_one(line, method.len() as int, 0x20);
    lemma_free_stands(line, 0, method, 0x20);
    assert(line.take(method.len() as int) =~= method);
    let after = line.skip(method.len() as int + 1);
    assert(after =~= behind);
    assert(after.subrange(0, after.len() as int) =~= after);
    lemma_split(after, 0, path, seq![0x20u8] + version);
    lemma_split(after, path.len() as int, seq![0x20u8], version);
    lemma_one(after, path.len() as int, 0x20);
    lemma_free_stands(after, 0, path, 0x20);
    assert(after.take(path.len() as int) =~= path);
}

/// The lines of a request with a length field among others.
pub open spec fn head_lines(
    first: Seq<u8>,
    before: Seq<Seq<u8>>,
    length: Seq<u8>,
    behind: Seq<Seq<u8>>,
) -> Seq<Seq<u8>> {
    seq![first] + (before + (seq![length] + behind))
}

proof fn lemma_lines_both(a: Seq<Seq<u8>>, b: Seq<Seq<u8>>)
    ensures
        lines_text(a + b) == lines_text(a) + lines_text(b),
    decreases a.len(),
{
    if a.len() == 0 {
        assert(a + b =~= b);
        assert(lines_text(a) + lines_text(b) =~= lines_text(b));
    } else {
        lemma_lines_both(a.skip(1), b);
        assert((a + b).skip(1) =~= a.skip(1) + b);
        assert(lines_text(a + b) =~= lines_text(a) + lines_text(b));
    }
}

proof fn lemma_single(line: Seq<u8>)
    ensures
        lines_text(seq![line]) == line + line_end(),
{
    let one = seq![line];
    assert(one.skip(1) =~= Seq::empty());
    assert(lines_text(one.skip(1)) =~= Seq::empty());
    assert(lines_text(one) =~= line + line_end());
}

/// A request that is written out as a method, a path and a version, other fields, a length field in
/// letters of any case, a blank line and a body is found: whole where the body is there and has at
/// most 4096 bytes, not yet where it is not all there, and refused where it is longer or no length is
/// stated.
pub proof fn requests_are_found(
    method: Seq<u8>,
    path: Seq<u8>,
    version: Seq<u8>,
    before: Seq<Seq<u8>>,
    name: Seq<u8>,
    pad: Seq<u8>,
    d: Seq<u8>,
    tail: Seq<u8>,
    behind: Seq<Seq<u8>>,
    body: Seq<u8>,
)
    requires
        is_request_line(method, path, version),
        method != word("GET"),
        are_lines(before),
        are_lines(behind),
        no_length(before),
        !mentions_length(request_line(method, path, version)),
        is_length_line(name, pad, d, tail),
    ensures
        ({
            let first = request_line(method, path, version);
            let lines = head_lines(first, before, length_line(name, pad, d, tail), behind);
            let head = lines_text(lines) + line_end();
            let start = head.len() as int;
            let n = decimal(d);
            status_of(head + body) == (if d.len() == 0 || n > 4096 {
                Status::Bad
            } else if body.len() < n {
                Status::Need
            } else {
                Status::Got { method, path, body_start: start, body_end: start + n }
            })
        }),
{
    let first = request_line(method, path, version);
    let length = length_line(name, pad, d, tail);
    let lines = head_lines(first, before, length, behind);
    let head = lines_text(lines) + line_end();
    let b = head + body;
    assert(b.subrange(0, head.len() as int) =~= head);
    assert(word_at(b, 0, head));
    lemma_length_plain(name, pad, d, tail);
    lemma_first_plain(method, path, version);
    assert(are_lines(lines)) by {
        assert forall|k: int| 0 <= k < lines.len() implies (#[trigger] lines[k]).len() > 0
            && free_of(lines[k], 0x0d) by {
            if k == 0 {
                assert(lines[k] == first);
            } else if k < 1 + before.len() {
                assert(lines[k] == before[k - 1]);
            } else if k == 1 + before.len() {
                assert(lines[k] == length);
            } else {
                assert(lines[k] == behind[k - 2 - before.len()]);
            }
        }
    }
    assert(lines_text(lines).len() >= 2) by {
        assert(lines_text(lines) == (lines[0] + line_end()) + lines_text(lines.skip(1)));
    }
    lemma_blank(b, lines, 0);
    let end = lines_text(lines).len() - 2;
    lemma_first_line(b, method, path, version, before + (seq![length] + behind));
    // The head without its last line end.
    let h = b.take(end);
    let t = lines_text(seq![first] + before);
    lemma_lines_both(seq![first] + before, seq![length] + behind);
    assert(lines =~= (seq![first] + before) + (seq![length] + behind));
    lemma_lines_both(seq![length], behind);
    lemma_single(length);
    assert(no_length(seq![first] + before)) by {
        let all = seq![first] + before;
        assert forall|k: int| 0 <= k < all.len() implies !mentions_length(#[trigger] all[k]) by {
            if k > 0 {
                assert(all[k] == before[k - 1]);
            }
        }
    }
    lemma_quiet_lines(seq![first] + before);
    let e = t.len() + length.len();
    assert(lines_text(lines) =~= (t + length) + (line_end() + lines_text(behind)));
    assert(h.subrange(0, e as int) =~= t + length);
    if e < h.len() {
        assert(b[e as int] == head[e as int]);
        assert(head[e as int] == line_end()[0]);
    }
    lemma_length(h, t, name, pad, d, tail);
}

proof fn lemma_length_plain(name: Seq<u8>, pad: Seq<u8>, d: Seq<u8>, tail: Seq<u8>)
    requires
        is_length_line(name, pad, d, tail),
    ensures
        free_of(length_line(name, pad, d, tail), 0x0d),
        length_line(name, pad, d, tail).len() > 0,
{
    lemma_names();
    reveal(free_of);
    let length = length_line(name, pad, d, tail);
    assert forall|k: int| 0 <= k < length.len() implies #[trigger] length[k] != 0x0d by {
        let p = k - 15;
        let q = p - pad.len();
        let r = q - d.len();
        if k < 15 {
            assert(length[k] == name[k]);
            assert(same_letter(name[k], length_name()[k]));
            assert(!same_letter(0x0d, length_name()[k]));
        } else if p < pad.len() {
            assert(length[k] == pad[p]);
        } else if q < d.len() {
            assert(length[k] == d[q]);
        } else {
            assert(length[k] == tail[r]);
        }
    }
}

proof fn lemma_first_plain(method: Seq<u8>, path: Seq<u8>, version: Seq<u8>)
    requires
        is_request_line(method, path, version),
    ensures
        free_of(request_line(method, path, version), 0x0d),
{
    reveal(free_of);
    let first = request_line(method, path, version);
    assert forall|k: int| 0 <= k < first.len() implies #[trigger] first[k] != 0x0d by {
        let p = k - method.len() - 1;
        let v = p - path.len() - 1;
        if k < method.len() {
            assert(first[k] == method[k]);
        } else if k == method.len() {
            assert(first[k] == 0x20);
        } else if p < path.len() {
            assert(first[k] == path[p]);
        } else if p == path.len() {
            assert(first[k] == 0x20);
        } else {
            assert(first[k] == version[v]);
        }
    }
}

/// A request for something, without a body, is found as soon as its head is there. Any other request
/// without a length field is refused.
pub proof fn requests_without_length(
    method: Seq<u8>,
    path: Seq<u8>,
    version: Seq<u8>,
    fields: Seq<Seq<u8>>,
    more: Seq<u8>,
)
    requires
        is_request_line(method, path, version),
        are_lines(fields),
    ensures
        ({
            let lines = seq![request_line(method, path, version)] + fields;
            let head = lines_text(lines) + line_end();
            let start = head.len() as int;
            &&& method == word("GET") ==> status_of(head + more) == (Status::Got {
                method,
                path,
                body_start: start,
                body_end: start,
            })
            &&& method != word("GET") && no_length(lines) ==> status_of(head + more) is Bad
        }),
{
    let first = request_line(method, path, version);
    let lines = seq![first] + fields;
    let head = lines_text(lines) + line_end();
    let b = head + more;
    assert(b.subrange(0, head.len() as int) =~= head);
    assert(word_at(b, 0, head));
    lemma_first_plain(method, path, version);
    assert(are_lines(lines)) by {
        assert forall|k: int| 0 <= k < lines.len() implies (#[trigger] lines[k]).len() > 0
            && free_of(lines[k], 0x0d) by {
            if k > 0 {
                assert(lines[k] == fields[k - 1]);
            }
        }
    }
    assert(lines_text(lines) == (lines[0] + line_end()) + lines_text(lines.skip(1)));
    lemma_blank(b, lines, 0);
    lemma_first_line(b, method, path, version, fields);
    if no_length(lines) {
        let end = lines_text(lines).len() - 2;
        let h = b.take(end);
        assert(h =~= lines_text(lines).take(end));
        lemma_quiet_lines(lines);
        lemma_quiet_none(h, lines_text(lines), 0);
    }
}

/// A head in which the length field is not named states no length.
proof fn lemma_quiet_none(h: Seq<u8>, t: Seq<u8>, i: int)
    requires
        quiet(t),
        h.len() <= t.len(),
        h == t.take(h.len() as int),
        0 <= i,
    ensures
        length_from(h, i) is None,
    decreases h.len() - i,
{
    lemma_names();
    if i + 15 <= h.len() {
        lemma_name_at(h, i);
        assert(breaks_off(t, i));
        let k = choose|k: int|
            0 <= k < 15 && i + k < t.len() && !same_letter(#[trigger] t[i + k], length_name()[k]);
        let w = h.subrange(i, i + 15);
        assert(w[k] == t[i + k]);
        assert(!names_length(w));
        lemma_quiet_none(h, t, i + 1);
    }
}

/// Bytes without a blank line are not yet a request, or none where they are more than 4096.
pub proof fn heads_end_at_a_blank_line(b: Seq<u8>)
    requires
        forall|i: int|
            0 <= i && i + 4 <= b.len() ==> !(#[trigger] b[i] == 0x0d && b[i + 1] == 0x0a && b[i + 2]
                == 0x0d && b[i + 3] == 0x0a),
    ensures
        b.len() <= 4096 ==> status_of(b) is Need,
        b.len() > 4096 ==> status_of(b) is Bad,
{
    lemma_no_blanks(b, 0);
}

proof fn lemma_no_blanks(b: Seq<u8>, i: int)
    requires
        0 <= i,
        forall|i: int|
            0 <= i && i + 4 <= b.len() ==> !(#[trigger] b[i] == 0x0d && b[i + 1] == 0x0a && b[i + 2]
                == 0x0d && b[i + 3] == 0x0a),
    ensures
        blank_from(b, i) is None,
    decreases b.len() - i,
{
    if i + 4 <= b.len() {
        assert(!(b[i] == 0x0d && b[i + 1] == 0x0a && b[i + 2] == 0x0d && b[i + 3] == 0x0a));
        lemma_no_blanks(b, i + 1);
    }
}

/// What requests ask for: to score a payload, whether the service is ready, or nothing known.
pub proof fn requests_are_routed(method: Seq<u8>, path: Seq<u8>, body: Seq<u8>)
    ensures
        payload_of(body) matches Some(p) ==> job_of(word("POST"), word("/fraud-score"), body)
            == Job::Score(p),
        payload_of(body) is None ==> job_of(word("POST"), word("/fraud-score"), body)
            == Job::Fallback,
        job_of(word("GET"), word("/ready"), body) == Job::Ready,
        !(method == word("POST") && path == word("/fraud-score")) && !(method == word("GET") && path
            == word("/ready")) ==> job_of(method, path, body) == Job::Fallback,
{
    lemma_names();
    assert(word("GET").len() != word("POST").len());
}

/// A request to score a payload, written out with a length field, is one whole request that asks to
/// score just what its body reads as, and nothing known where the body is no payload.
pub proof fn payloads_are_asked_about(
    version: Seq<u8>,
    before: Seq<Seq<u8>>,
    name: Seq<u8>,
    pad: Seq<u8>,
    behind: Seq<Seq<u8>>,
    body: Seq<u8>,
)
    requires
        free_of(version, 0x0d),
        are_lines(before),
        are_lines(behind),
        no_length(before),
        !mentions_length(request_line(word("POST"), word("/fraud-score"), version)),
        names_length(name),
        is_pad(pad),
        body.len() <= 4096,
    ensures
        ({
            let first = request_line(word("POST"), word("/fraud-score"), version);
            let length = length_line(name, pad, digits_of(body.len() as int), Seq::empty());
            let lines = head_lines(first, before, length, behind);
            let request = (lines_text(lines) + line_end()) + body;
            &&& is_whole(request)
            &&& asked(request) == match payload_of(body) {
                Some(p) => Job::Score(p),
                None => Job::Fallback,
            }
        }),
{
    let method = word("POST");
    let path = word("/fraud-score");
    lemma_score_line(version);
    let first = request_line(method, path, version);
    let d = digits_of(body.len() as int);
    let none = Seq::<u8>::empty();
    let lines = head_lines(first, before, length_line(name, pad, d, none), behind);
    let head = lines_text(lines) + line_end();
    let request = head + body;
    digits_write_number(body.len() as int);
    assert(free_of(none, 0x0d)) by {
        reveal(free_of);
    }
    assert(all_digits(d));
    requests_are_found(method, path, version, before, name, pad, d, none, behind, body);
    assert(request.subrange(head.len() as int, request.len() as int) =~= body);
    requests_are_routed(method, path, body);
}

/// A request whose first line has fewer than two blanks is refused.
pub proof fn request_lines_have_two_blanks(
    a: Seq<u8>,
    c: Seq<u8>,
    blank: bool,
    fields: Seq<Seq<u8>>,
    more: Seq<u8>,
)
    requires
        free_of(a, 0x20),
        free_of(a, 0x0d),
        free_of(c, 0x20),
        free_of(c, 0x0d),
        are_lines(fields),
        blank || a.len() > 0,
    ensures
        ({
            let first = if blank {
                a + (seq![0x20u8] + c)
            } else {
                a
            };
            status_of((lines_text(seq![first] + fields) + line_end()) + more) is Bad
        }),
{
    let first = if blank {
        a + (seq![0x20u8] + c)
    } else {
        a
    };
    let lines = seq![first] + fields;
    let head = lines_text(lines) + line_end();
    let b = head + more;
    assert(b.subrange(0, head.len() as int) =~= head);
    assert(word_at(b, 0, head));
    assert(free_of(first, 0x0d)) by {
        reveal(free_of);
    }
    assert(are_lines(lines)) by {
        assert forall|k: int| 0 <= k < lines.len() implies (#[trigger] lines[k]).len() > 0
            && free_of(lines[k], 0x0d) by {
            if k > 0 {
                assert(lines[k] == fields[k - 1]);
            }
        }
    }
    assert(lines_text(lines) == (lines[0] + line_end()) + lines_text(lines.skip(1)));
    lemma_blank(b, lines, 0);
    let t = lines_text(fields) + line_end();
    assert(lines.skip(1) =~= fields);
    assert(head =~= first + (line_end() + t));
    lemma_split(b, 0, first, line_end() + t);
    lemma_split(b, first.len() as int, line_end(), t);
    lemma_byte_of(b, first.len() as int, line_end(), 0);
    lemma_free_stands(b, 0, first, 0x0d);
    let line = b.take(first.len() as int);
    assert(line =~= first);
    assert forall|j: int| 0 <= j < a.len() implies #[trigger] line[j] != 0x20 by {
        reveal(free_of);
        assert(line[j] == a[j]);
    }
    lemma_byte_end_at(line, 0, 0x20, a.len() as int);
    if blank {
        let after = line.skip(a.len() as int + 1);
        assert(after =~= c);
        assert forall|j: int| 0 <= j < c.len() implies #[trigger] after[j] != 0x20 by {
            reveal(free_of);
            assert(after[j] == c[j]);
        }
        lemma_byte_end_at(after, 0, 0x20, c.len() as int);
    }
}

proof fn lemma_score_line(version: Seq<u8>)
    requires
        free_of(version, 0x0d),
    ensures
        is_request_line(word("POST"), word("/fraud-score"), version),
        word("POST") != word("GET"),
{
    lemma_names();
    reveal_strlit("/fraud-score");
    is_ascii_chars_encode_utf8("/fraud-score"@);
    assert(word("GET").len() != word("POST").len());
    reveal(free_of);
}

} // verus!
