//! What holds of the string operations on located text whatever the text
//! and the span are: the parts stay inside the span they were cut from,
//! they account for every byte of the text, and trimming twice changes
//! nothing.

use crate::bytes::{line_ranges, LocatedBytes, CARRIAGE_RETURN, LINE_FEED};
use crate::spanned::Located;
use crate::text::{
    byte_len, ends_with, find, first_at, lemma_byte_len_step, lemma_encode_concat,
    lemma_encode_parts, lemma_seek, lemma_skip_while_shorter, lemma_trim_end_shorter, pieces,
    same_as, seek, skip_while, starts_with, trim_end_of, trim_of, trim_start_of, white_space,
};
use vstd::prelude::*;
use vstd::utf8::{
    decode_utf8, encode_utf8, encode_utf8_decode_utf8, encode_utf8_valid_utf8, is_char_boundary,
    decode_utf8_encode_utf8, valid_utf8_split,
};

verus! {

/// What is left after skipping does not begin with a character that is skipped.
pub proof fn lemma_skip_while_stops(text: Seq<char>, p: spec_fn(char) -> bool)
    ensures
        skip_while(text, p).len() > 0 ==> !p(skip_while(text, p)[0]),
        skip_while(skip_while(text, p), p) == skip_while(text, p),
    decreases text.len(),
{
    if text.len() > 0 && p(text[0]) {
        lemma_skip_while_stops(text.drop_first(), p);
    }
}

/// What is left after trimming the end is the start of the text, and does
/// not end with whitespace.
pub proof fn lemma_trim_end_stops(text: Seq<char>)
    ensures
        trim_end_of(text).len() <= text.len(),
        trim_end_of(text) == text.take(trim_end_of(text).len() as int),
        trim_end_of(text).len() > 0 ==> !crate::text::is_white_space(trim_end_of(text).last()),
        trim_end_of(trim_end_of(text)) == trim_end_of(text),
    decreases text.len(),
{
    if text.len() > 0 && crate::text::is_white_space(text.last()) {
        lemma_trim_end_stops(text.drop_last());
        let kept = trim_end_of(text.drop_last());
        assert(text.drop_last().take(kept.len() as int) =~= text.take(kept.len() as int));
    } else {
        assert(text.take(text.len() as int) =~= text);
    }
}

/// Trimming text that is trimmed already changes nothing.
pub proof fn lemma_trim_of_idempotent(text: Seq<char>)
    ensures
        trim_of(trim_of(text)) == trim_of(text),
{
    let start = trim_start_of(text);
    let both = trim_end_of(start);
    lemma_skip_while_stops(text, white_space());
    lemma_trim_end_stops(start);
    if both.len() > 0 {
        assert(both[0] == start[0]);
    }
    assert(trim_start_of(both) == both);
}

/// Trimming is idempotent: a located text that was trimmed is left as it
/// is, text and span, when it is trimmed again.
pub proof fn lemma_trim_idempotent(v: Located)
    ensures
        v.trim().trim() == v.trim(),
{
    let once = v.trim();
    lemma_trim_of_idempotent(v.text);
    lemma_skip_while_stops(v.text, white_space());
    lemma_trim_end_stops(trim_start_of(v.text));
    let both = once.text;
    if both.len() > 0 {
        assert(both[0] == trim_start_of(v.text)[0]);
    }
    assert(trim_start_of(both) == both);
    assert(once.trim_start() == once);
    assert(trim_end_of(both) == both);
}

/// Trimming keeps the span inside the span it had, and takes from it as
/// many bytes as it takes from the text.
pub proof fn lemma_trim_within(v: Located)
    requires
        v.fits(),
    ensures
        v.trim_start().span.within(v.span),
        v.trim_end().span.within(v.span),
        v.trim().span.within(v.span),
        v.trim_start().fits() && v.trim_end().fits() && v.trim().fits(),
        v.span.len() - v.trim_start().span.len() == byte_len(v.text) - byte_len(
            v.trim_start().text,
        ),
        v.span.len() - v.trim_end().span.len() == byte_len(v.text) - byte_len(v.trim_end().text),
        v.span.len() - v.trim().span.len() == byte_len(v.text) - byte_len(v.trim().text),
        v.exact() ==> v.trim_start().exact() && v.trim_end().exact() && v.trim().exact(),
{
    lemma_skip_while_shorter(v.text, white_space());
    lemma_trim_end_shorter(v.text);
    lemma_trim_end_shorter(trim_start_of(v.text));
}

/// Trimming a run of one character from the start keeps the span inside
/// the span it had, and takes from it as many bytes as it takes from the text.
pub proof fn lemma_trim_start_matches_within(v: Located, c: char)
    requires
        v.fits(),
    ensures
        v.trim_start_matches(c).span.within(v.span),
        v.trim_start_matches(c).fits(),
        v.span.len() - v.trim_start_matches(c).span.len() == byte_len(v.text) - byte_len(
            v.trim_start_matches(c).text,
        ),
        v.exact() ==> v.trim_start_matches(c).exact(),
{
    lemma_skip_while_shorter(v.text, same_as(c));
}

/// Cutting at a byte between two characters gives two texts that make up
/// the text again, and two spans that meet at the cut and make up the span.
pub proof fn lemma_split_at_rejoins(v: Located, pos: int)
    requires
        is_char_boundary(encode_utf8(v.text), pos),
    ensures
        v.split_at(pos).0.text + v.split_at(pos).1.text == v.text,
        byte_len(v.split_at(pos).0.text) == pos,
        byte_len(v.split_at(pos).0.text) + byte_len(v.split_at(pos).1.text) == byte_len(v.text),
        v.split_at(pos).0.span.end == v.split_at(pos).1.span.start,
        v.split_at(pos).0.span.start == v.span.start,
        v.split_at(pos).1.span.end == v.span.end,
        v.fits() ==> v.split_at(pos).0.span.within(v.span) && v.split_at(pos).1.span.within(
            v.span,
        ) && v.split_at(pos).0.exact() && v.split_at(pos).1.fits(),
        v.exact() ==> v.split_at(pos).1.exact(),
{
    broadcast use {encode_utf8_valid_utf8, encode_utf8_decode_utf8, decode_utf8_encode_utf8};

    let bytes = encode_utf8(v.text);
    let left = bytes.subrange(0, pos);
    let right = bytes.subrange(pos, bytes.len() as int);
    assert(0 <= pos <= bytes.len());
    valid_utf8_split(bytes, pos);
    assert(encode_utf8(decode_utf8(left)) == left);
    assert(encode_utf8(decode_utf8(right)) == right);
    crate::text::lemma_split_at_boundary(v.text, decode_utf8(left), decode_utf8(right), pos);
    lemma_encode_concat(decode_utf8(left), decode_utf8(right));
}

/// Cutting at the first place of a delimiter gives two spans inside the
/// span, and the two texts and the delimiter account for every byte of the
/// text.
pub proof fn lemma_split_once_accounts(v: Located, delimiter: Seq<char>)
    requires
        v.fits(),
        v.split_once(delimiter) is Some,
    ensures
        ({
            let (a, b) = v.split_once(delimiter)->Some_0;
            &&& a.text + delimiter + b.text == v.text
            &&& byte_len(a.text) + byte_len(delimiter) + byte_len(b.text) == byte_len(v.text)
            &&& a.span.within(v.span)
            &&& b.span.within(v.span)
            &&& a.span.end + byte_len(delimiter) == b.span.start
            &&& a.exact()
            &&& b.fits()
            &&& v.exact() ==> b.exact()
        }),
{
    let at = find(v.text, delimiter)->Some_0;
    assert(first_at(v.text, delimiter, at));
    let (a, b) = v.split_once(delimiter)->Some_0;
    let upto = at + delimiter.len();
    lemma_encode_parts(v.text, at);
    lemma_encode_parts(v.text, upto);
    lemma_encode_parts(v.text.take(upto), at);
    assert(v.text.take(upto).take(at) =~= v.text.take(at));
    assert(v.text.take(upto).skip(at) =~= delimiter);
    assert(a.text + delimiter + b.text =~= v.text);
}

/// Stripping a prefix or a suffix moves one end of the span by the bytes of
/// what went, and leaves the span inside the span it had.
pub proof fn lemma_strip_accounts(v: Located, p: Seq<char>)
    requires
        v.fits(),
    ensures
        v.strip_prefix(p) matches Some(rest) ==> {
            &&& p + rest.text == v.text
            &&& byte_len(p) + byte_len(rest.text) == byte_len(v.text)
            &&& rest.span.within(v.span)
            &&& rest.span.start == v.span.start + byte_len(p)
            &&& rest.fits()
            &&& v.exact() ==> rest.exact()
        },
        v.strip_suffix(p) matches Some(rest) ==> {
            &&& rest.text + p == v.text
            &&& byte_len(rest.text) + byte_len(p) == byte_len(v.text)
            &&& rest.span.within(v.span)
            &&& rest.span.end == v.span.end - byte_len(p)
            &&& rest.fits()
            &&& v.exact() ==> rest.exact()
        },
{
    if starts_with(v.text, p) {
        lemma_encode_parts(v.text, p.len() as int);
        assert(v.text.take(p.len() as int) =~= p);
        assert(p + v.text.skip(p.len() as int) =~= v.text);
    }
    if ends_with(v.text, p) {
        let cut = v.text.len() - p.len();
        lemma_encode_parts(v.text, cut);
        assert(v.text.skip(cut) =~= p);
        assert(v.text.take(cut) + p =~= v.text);
    }
}

/// A piece of a located text lies inside its span, and its own span covers
/// its own bytes and nothing else.
pub proof fn lemma_piece_within(v: Located, from: int, to: int)
    requires
        v.fits(),
        0 <= from <= to <= v.text.len(),
    ensures
        v.piece(from, to).span.within(v.span),
        v.piece(from, to).exact(),
{
    lemma_encode_parts(v.text, to);
    lemma_encode_parts(v.text.take(to), from);
    assert(v.text.take(to).take(from) =~= v.text.take(from));
    assert(v.text.take(to).skip(from) =~= v.text.subrange(from, to));
}

/// The pieces that a character cuts a text into follow each other from
/// `from` to the end of the text: none holds the character, and between
/// two neighbours stands the character and nothing else.
pub proof fn lemma_pieces(text: Seq<char>, c: char, from: int)
    requires
        0 <= from <= text.len(),
    ensures
        ({
            let p = pieces(text, c, from);
            &&& p.len() >= 1
            &&& p[0].0 == from
            &&& p.last().1 == text.len()
            &&& forall|i: int|
                0 <= i < p.len() ==> from <= (#[trigger] p[i]).0 <= p[i].1 <= text.len()
            &&& forall|i: int, j: int|
                0 <= i < p.len() && (#[trigger] p[i]).0 <= j < p[i].1 ==> #[trigger] text[j] != c
            &&& forall|i: int|
                0 <= i < p.len() - 1 ==> (#[trigger] p[i]).1 < text.len() && text[p[i].1] == c
                    && p[i + 1].0 == p[i].1 + 1
        }),
    decreases text.len() - from,
{
    let p = pieces(text, c, from);
    let to = seek(text, c, from);
    lemma_seek(text, c, from);
    if to < text.len() {
        let rest = pieces(text, c, to + 1);
        lemma_pieces(text, c, to + 1);
        assert(p =~= seq![(from, to)] + rest);
        assert forall|i: int| 0 <= i < p.len() implies from <= (#[trigger] p[i]).0 <= p[i].1
            <= text.len() by {
            if i > 0 {
                assert(p[i] == rest[i - 1]);
            }
        }
        assert forall|i: int, j: int| 0 <= i < p.len() && (#[trigger] p[i]).0 <= j
            < p[i].1 implies #[trigger] text[j] != c by {
            if i > 0 {
                assert(p[i] == rest[i - 1]);
            }
        }
        assert forall|i: int| 0 <= i < p.len() - 1 implies (#[trigger] p[i]).1 < text.len()
            && text[p[i].1] == c && p[i + 1].0 == p[i].1 + 1 by {
            assert(p[i + 1] == rest[i]);
            if i > 0 {
                assert(p[i] == rest[i - 1]);
            }
        }
        assert(p.last() == rest.last());
    }
}

/// Splitting a located text at a character gives spans that follow each
/// other inside the span of the text: the first begins where the text
/// begins, the last ends where the text ends, each covers its own piece
/// and nothing else, and between two neighbours lie the bytes of the
/// character and nothing else.
pub proof fn lemma_split_accounts(v: Located, c: char)
    requires
        v.fits(),
    ensures
        ({
            let parts = v.split(c);
            &&& parts.len() >= 1
            &&& parts[0].span.start == v.span.start
            &&& parts.last().span.end == v.span.start + byte_len(v.text)
            &&& forall|i: int|
                0 <= i < parts.len() ==> (#[trigger] parts[i]).span.within(v.span)
                    && parts[i].exact()
            &&& forall|i: int|
                0 <= i < parts.len() - 1 ==> parts[i + 1].span.start == (
                #[trigger] parts[i]).span.end + byte_len(seq![c])
        }),
{
    let p = pieces(v.text, c, 0);
    let parts = v.split(c);
    lemma_pieces(v.text, c, 0);
    assert(v.text.take(0) =~= Seq::<char>::empty());
    assert(v.text.take(v.text.len() as int) =~= v.text);
    assert forall|i: int| 0 <= i < parts.len() implies (#[trigger] parts[i]).span.within(v.span)
        && parts[i].exact() by {
        assert(parts[i] == v.piece(p[i].0, p[i].1));
        lemma_piece_within(v, p[i].0, p[i].1);
    }
    assert forall|i: int| 0 <= i < parts.len() - 1 implies parts[i + 1].span.start == (
    #[trigger] parts[i]).span.end + byte_len(seq![c]) by {
        assert(parts[i] == v.piece(p[i].0, p[i].1));
        assert(parts[i + 1] == v.piece(p[i + 1].0, p[i + 1].1));
        lemma_byte_len_step(v.text, p[i].1);
    }
    assert(parts[0] == v.piece(p[0].0, p[0].1));
    assert(parts.last() == v.piece(p.last().0, p.last().1));
}

/// The characters of a located text stand at places that follow each
/// other inside its span: the first where the text begins, and each next
/// one as many bytes on as the character before it takes up.
pub proof fn lemma_points_follow(v: Located, k: int)
    requires
        v.fits(),
        0 <= k < v.text.len(),
    ensures
        v.point(k).within(v.span),
        v.point(0).start == v.span.start,
        v.point(k + 1).start == v.point(k).start + byte_len(seq![v.text[k]]),
        v.point(k + 1).start <= v.span.start + byte_len(v.text),
{
    lemma_byte_len_step(v.text, k);
    lemma_encode_parts(v.text, k);
    assert(v.text.take(0) =~= Seq::<char>::empty());
}

/// The lines of a byte string follow each other from `from` on: none holds
/// a line feed, and after each stands a line feed, or a carriage return
/// and a line feed, and then the next line or the end; only the last may
/// end with the bytes themselves.
pub proof fn lemma_line_ranges(bytes: Seq<u8>, from: int)
    requires
        0 <= from <= bytes.len(),
    ensures
        ({
            let r = line_ranges(bytes, from);
            &&& (r.len() == 0 <==> from == bytes.len())
            &&& r.len() > 0 ==> r[0].0 == from
            &&& forall|i: int|
                0 <= i < r.len() ==> from <= (#[trigger] r[i]).0 <= r[i].1 <= bytes.len()
            &&& forall|i: int, j: int|
                0 <= i < r.len() && (#[trigger] r[i]).0 <= j < r[i].1 ==> #[trigger] bytes[j]
                    != LINE_FEED
            &&& forall|i: int|
                0 <= i < r.len() ==> (#[trigger] r[i]).1 == bytes.len() && i == r.len() - 1 || {
                    let next = if i == r.len() - 1 {
                        bytes.len() as int
                    } else {
                        r[i + 1].0
                    };
                    ||| next == r[i].1 + 1 && bytes[r[i].1] == LINE_FEED
                    ||| next == r[i].1 + 2 && bytes[r[i].1] == CARRIAGE_RETURN && bytes[r[i].1
                        + 1] == LINE_FEED
                }
        }),
    decreases bytes.len() - from,
{
    let r = line_ranges(bytes, from);
    if from < bytes.len() {
        let feed = seek(bytes, LINE_FEED, from);
        lemma_seek(bytes, LINE_FEED, from);
        if feed < bytes.len() {
            let rest = line_ranges(bytes, feed + 1);
            lemma_line_ranges(bytes, feed + 1);
            let first = r[0];
            assert(r =~= seq![first] + rest);
            assert forall|i: int| 0 <= i < r.len() implies from <= (#[trigger] r[i]).0 <= r[i].1
                <= bytes.len() by {
                if i > 0 {
                    assert(r[i] == rest[i - 1]);
                }
            }
            assert forall|i: int, j: int| 0 <= i < r.len() && (#[trigger] r[i]).0 <= j
                < r[i].1 implies #[trigger] bytes[j] != LINE_FEED by {
                if i > 0 {
                    assert(r[i] == rest[i - 1]);
                }
            }
            assert forall|i: int| 0 <= i < r.len() implies (#[trigger] r[i]).1 == bytes.len() && i
                == r.len() - 1 || {
                let next = if i == r.len() - 1 {
                    bytes.len() as int
                } else {
                    r[i + 1].0
                };
                ||| next == r[i].1 + 1 && bytes[r[i].1] == LINE_FEED
                ||| next == r[i].1 + 2 && bytes[r[i].1] == CARRIAGE_RETURN && bytes[r[i].1 + 1]
                    == LINE_FEED
            } by {
                if i > 0 {
                    assert(r[i] == rest[i - 1]);
                    if i < r.len() - 1 {
                        assert(r[i + 1] == rest[i]);
                    }
                } else if r.len() > 1 {
                    assert(r[1] == rest[0]);
                }
            }
        }
    }
}

/// The lines of a located byte string lie inside its span, each with the
/// span of its own bytes and nothing else, in the order of the bytes.
pub proof fn lemma_lines_within(v: LocatedBytes)
    requires
        v.fits(),
    ensures
        forall|i: int|
            0 <= i < v.lines().len() ==> (#[trigger] v.lines()[i]).span.within(v.span)
                && v.lines()[i].exact(),
        forall|i: int|
            0 <= i < v.lines().len() - 1 ==> (#[trigger] v.lines()[i]).span.end < v.lines()[i
                + 1].span.start,
{
    let r = line_ranges(v.bytes, 0);
    lemma_line_ranges(v.bytes, 0);
    assert forall|i: int| 0 <= i < v.lines().len() implies (#[trigger] v.lines()[i]).span.within(
        v.span,
    ) && v.lines()[i].exact() by {
        assert(v.lines()[i] == v.piece(r[i].0, r[i].1));
    }
    assert forall|i: int| 0 <= i < v.lines().len() - 1 implies (#[trigger] v.lines()[i]).span.end
        < v.lines()[i + 1].span.start by {
        assert(v.lines()[i] == v.piece(r[i].0, r[i].1));
        assert(v.lines()[i + 1] == v.piece(r[i + 1].0, r[i + 1].1));
    }
}

} // verus!
