//! What the string operations mean, stated over sequences of characters, and
//! the functions on `str` that carry them out.

use vstd::prelude::*;
use vstd::std_specs::iter::IteratorSpec;
use vstd::utf8::*;

verus! {

/// The number of bytes that `text` takes up in UTF-8.
pub open spec fn byte_len(text: Seq<char>) -> nat {
    encode_utf8(text).len()
}

/// Whether `pat` stands in `text` at index `i`.
pub open spec fn occurs_at<E>(text: Seq<E>, pat: Seq<E>, i: int) -> bool {
    &&& 0 <= i
    &&& i + pat.len() <= text.len()
    &&& text.subrange(i, i + pat.len()) == pat
}

/// Whether `i` is the first index at which `pat` stands in `text`.
pub open spec fn first_at<E>(text: Seq<E>, pat: Seq<E>, i: int) -> bool {
    &&& occurs_at(text, pat, i)
    &&& forall|j: int| 0 <= j < i ==> !occurs_at(text, pat, j)
}

/// The first index at which `pat` stands in `text`, if there is one.
pub open spec fn find<E>(text: Seq<E>, pat: Seq<E>) -> Option<int> {
    if exists|i: int| first_at(text, pat, i) {
        Some(choose|i: int| first_at(text, pat, i))
    } else {
        None
    }
}

/// Whether `text` begins with `pat`.
pub open spec fn starts_with<E>(text: Seq<E>, pat: Seq<E>) -> bool {
    pat.len() <= text.len() && text.subrange(0, pat.len() as int) == pat
}

/// Whether `text` ends with `pat`.
pub open spec fn ends_with<E>(text: Seq<E>, pat: Seq<E>) -> bool {
    pat.len() <= text.len() && text.subrange(text.len() - pat.len(), text.len() as int) == pat
}

/// The first index from `from` on at which `c` stands in `text`, or the
/// length of `text` where there is none.
pub open spec fn seek<E>(text: Seq<E>, c: E, from: int) -> int
    decreases text.len() - from,
{
    if from < 0 || from >= text.len() {
        text.len() as int
    } else if text[from] == c {
        from
    } else {
        seek(text, c, from + 1)
    }
}

/// The pieces that `c` cuts `text` into from index `from` on, each as the
/// range of the indices of its characters. Between two `c` that follow each
/// other, and after a `c` at the end, lies an empty piece.
pub open spec fn pieces(text: Seq<char>, c: char, from: int) -> Seq<(int, int)>
    decreases text.len() - from,
    via pieces_decreases
{
    if from < 0 || from > text.len() {
        seq![]
    } else {
        let to = seek(text, c, from);
        if to >= text.len() {
            seq![(from, text.len() as int)]
        } else {
            seq![(from, to)] + pieces(text, c, to + 1)
        }
    }
}

#[via_fn]
proof fn pieces_decreases(text: Seq<char>, c: char, from: int) {
    if 0 <= from <= text.len() {
        lemma_seek(text, c, from);
    }
}

/// `seek` stops at the first `c` from `from` on, or at the end.
pub proof fn lemma_seek<E>(text: Seq<E>, c: E, from: int)
    requires
        0 <= from <= text.len(),
    ensures
        from <= seek(text, c, from) <= text.len(),
        seek(text, c, from) < text.len() ==> text[seek(text, c, from)] == c,
        forall|j: int| from <= j < seek(text, c, from) ==> text[j] != c,
    decreases text.len() - from,
{
    if from < text.len() && text[from] != c {
        lemma_seek(text, c, from + 1);
    }
}

/// Whether `c` has the Unicode property `White_Space`, which is what
/// `char::is_whitespace` reports and what the trimming functions of `str`
/// remove.
pub uninterp spec fn is_white_space(c: char) -> bool;

/// `text` from its first character that `p` does not hold of on.
pub open spec fn skip_while(text: Seq<char>, p: spec_fn(char) -> bool) -> Seq<char>
    decreases text.len(),
{
    if text.len() > 0 && p(text[0]) {
        skip_while(text.drop_first(), p)
    } else {
        text
    }
}

/// The property of being whitespace.
pub open spec fn white_space() -> spec_fn(char) -> bool {
    |c: char| is_white_space(c)
}

/// The property of being the character `c`.
pub open spec fn same_as(c: char) -> spec_fn(char) -> bool {
    |x: char| x == c
}

/// `text` without the whitespace it begins with.
pub open spec fn trim_start_of(text: Seq<char>) -> Seq<char> {
    skip_while(text, white_space())
}

/// `text` without the run of `c` it begins with.
pub open spec fn trim_start_matches_of(text: Seq<char>, c: char) -> Seq<char> {
    skip_while(text, same_as(c))
}

/// `text` without the whitespace it ends with.
pub open spec fn trim_end_of(text: Seq<char>) -> Seq<char>
    decreases text.len(),
{
    if text.len() > 0 && is_white_space(text.last()) {
        trim_end_of(text.drop_last())
    } else {
        text
    }
}

/// `text` without the whitespace at either end.
pub open spec fn trim_of(text: Seq<char>) -> Seq<char> {
    trim_end_of(trim_start_of(text))
}

/// Encoding a concatenation gives the concatenation of the encodings.
pub proof fn lemma_encode_concat(a: Seq<char>, b: Seq<char>)
    ensures
        encode_utf8(a + b) == encode_utf8(a) + encode_utf8(b),
        byte_len(a + b) == byte_len(a) + byte_len(b),
    decreases a.len(),
{
    if a.len() == 0 {
        assert(a + b =~= b);
        assert(encode_utf8(a) + encode_utf8(b) =~= encode_utf8(b));
    } else {
        lemma_encode_concat(a.drop_first(), b);
        assert((a + b).drop_first() =~= a.drop_first() + b);
        assert(encode_utf8(a + b) =~= encode_utf8(a) + encode_utf8(b));
    }
}

/// The encoding of a prefix ends on a character boundary of the whole encoding.
pub proof fn lemma_prefix_boundary(a: Seq<char>, b: Seq<char>)
    ensures
        is_char_boundary(encode_utf8(a + b), byte_len(a) as int),
    decreases a.len(),
{
    broadcast use encode_utf8_valid_utf8;

    let bytes = encode_utf8(a + b);
    if a.len() == 0 {
    } else {
        lemma_encode_concat(a, b);
        lemma_prefix_boundary(a.drop_first(), b);
        encode_utf8_first_scalar(a + b);
        assert((a + b).drop_first() =~= a.drop_first() + b);
        assert(pop_first_scalar(bytes) =~= encode_utf8(a.drop_first() + b));
        assert(byte_len(a) == encode_scalar(a[0] as u32).len() + byte_len(a.drop_first()));
    }
}

/// Two texts with the same encoding are the same text.
pub proof fn lemma_encode_injective(a: Seq<char>, b: Seq<char>)
    requires
        encode_utf8(a) == encode_utf8(b),
    ensures
        a == b,
{
    broadcast use encode_utf8_decode_utf8;

    assert(decode_utf8(encode_utf8(a)) == a);
    assert(decode_utf8(encode_utf8(b)) == b);
}

/// Cutting an encoding at a character boundary cuts the text in two.
pub proof fn lemma_split_at_boundary(text: Seq<char>, left: Seq<char>, right: Seq<char>, pos: int)
    requires
        0 <= pos <= byte_len(text),
        encode_utf8(left) == encode_utf8(text).subrange(0, pos),
        encode_utf8(right) == encode_utf8(text).subrange(pos, byte_len(text) as int),
    ensures
        left + right == text,
        byte_len(left) == pos,
{
    lemma_encode_concat(left, right);
    assert(encode_utf8(left) + encode_utf8(right) =~= encode_utf8(text));
    lemma_encode_injective(left + right, text);
}

/// `char::is_whitespace`: whether `c` has the Unicode property `White_Space`.
#[verifier::external_body]
pub(crate) fn is_whitespace(c: char) -> (res: bool)
    ensures
        res == is_white_space(c),
{
    c.is_whitespace()
}

/// The number of bytes that `c` takes up in UTF-8.
pub(crate) fn len_utf8(c: char) -> (res: usize)
    ensures
        res == byte_len(seq![c]),
        1 <= res <= 4,
{
    proof {
        char_is_scalar(c);
        assert(seq![c].drop_first() =~= Seq::<char>::empty());
        assert(encode_utf8(Seq::<char>::empty()) =~= Seq::<u8>::empty());
        assert(encode_utf8(seq![c]) =~= encode_scalar(c as u32));
    }
    let code = c as u32;
    if code <= 0x7f {
        1
    } else if code <= 0x7ff {
        2
    } else if code <= 0xffff {
        3
    } else {
        4
    }
}

/// The first `k + 1` characters take up the bytes of the first `k` and of
/// the one after them.
pub proof fn lemma_byte_len_step(text: Seq<char>, k: int)
    requires
        0 <= k < text.len(),
    ensures
        byte_len(text.take(k + 1)) == byte_len(text.take(k)) + byte_len(seq![text[k]]),
        byte_len(text.take(k + 1)) <= byte_len(text),
{
    lemma_encode_concat(text.take(k), seq![text[k]]);
    assert(text.take(k + 1) =~= text.take(k) + seq![text[k]]);
    lemma_encode_concat(text.take(k + 1), text.skip(k + 1));
    assert(text.take(k + 1) + text.skip(k + 1) =~= text);
}

/// Where `p` holds of the first `k` characters and not of the next one, if
/// there is one, skipping leaves the text from `k` on.
pub proof fn lemma_skip_while_at(text: Seq<char>, p: spec_fn(char) -> bool, k: int)
    requires
        0 <= k <= text.len(),
        forall|j: int| 0 <= j < k ==> p(#[trigger] text[j]),
        k < text.len() ==> !p(text[k]),
    ensures
        skip_while(text, p) == text.skip(k),
    decreases k,
{
    if k == 0 {
        assert(text.skip(0) =~= text);
    } else {
        let rest = text.drop_first();
        assert forall|j: int| 0 <= j < k - 1 implies p(#[trigger] rest[j]) by {
            assert(rest[j] == text[j + 1]);
        }
        lemma_skip_while_at(rest, p, k - 1);
        assert(rest.skip(k - 1) =~= text.skip(k));
    }
}

/// Skipping leaves a text that takes up no more bytes.
pub proof fn lemma_skip_while_shorter(text: Seq<char>, p: spec_fn(char) -> bool)
    ensures
        byte_len(skip_while(text, p)) <= byte_len(text),
    decreases text.len(),
{
    if text.len() > 0 && p(text[0]) {
        lemma_skip_while_shorter(text.drop_first(), p);
        lemma_encode_parts(text, 1);
        assert(text.skip(1) =~= text.drop_first());
    }
}

/// Trimming the end leaves a text that takes up no more bytes.
pub proof fn lemma_trim_end_shorter(text: Seq<char>)
    ensures
        byte_len(trim_end_of(text)) <= byte_len(text),
    decreases text.len(),
{
    if text.len() > 0 && is_white_space(text.last()) {
        lemma_trim_end_shorter(text.drop_last());
        lemma_encode_parts(text, text.len() - 1);
        assert(text.take(text.len() - 1) =~= text.drop_last());
    }
}

/// The encoding of `text` is that of its first `k` characters followed by
/// that of the rest.
pub proof fn lemma_encode_parts(text: Seq<char>, k: int)
    requires
        0 <= k <= text.len(),
    ensures
        encode_utf8(text) == encode_utf8(text.take(k)) + encode_utf8(text.skip(k)),
        byte_len(text) == byte_len(text.take(k)) + byte_len(text.skip(k)),
        is_char_boundary(encode_utf8(text), byte_len(text.take(k)) as int),
{
    assert(text.take(k) + text.skip(k) =~= text);
    lemma_encode_concat(text.take(k), text.skip(k));
    lemma_prefix_boundary(text.take(k), text.skip(k));
}

/// The number of bytes in `s`.
pub(crate) fn str_len(s: &str) -> (res: usize)
    ensures
        res == byte_len(s@),
{
    s.as_bytes().len()
}

/// Whether `a` and `b` hold the same text.
pub fn str_eq(a: &str, b: &str) -> (res: bool)
    ensures
        res == (a@ == b@),
{
    let x = a.as_bytes();
    let y = b.as_bytes();
    if x.len() != y.len() {
        return false;
    }
    let mut i: usize = 0;
    while i < x.len()
        invariant
            i <= x.len() == y.len(),
            x@ == encode_utf8(a@),
            y@ == encode_utf8(b@),
            forall|j: int| 0 <= j < i ==> x@[j] == y@[j],
        decreases x.len() - i,
    {
        if x[i] != y[i] {
            return false;
        }
        i = i + 1;
    }
    proof {
        assert(x@ =~= y@);
        lemma_encode_injective(a@, b@);
    }
    true
}

/// Cuts `s` after its first `k` characters, which end at byte `off`.
pub(crate) fn split_str<'a>(s: &'a str, off: usize, k: Ghost<int>) -> (res: (&'a str, &'a str))
    requires
        0 <= k@ <= s@.len(),
        off == byte_len(s@.take(k@)),
    ensures
        res.0@ == s@.take(k@),
        res.1@ == s@.skip(k@),
{
    proof {
        lemma_encode_parts(s@, k@);
    }
    let res = s.split_at(off);
    proof {
        let bytes = encode_utf8(s@);
        assert(bytes.subrange(0, off as int) =~= encode_utf8(s@.take(k@)));
        assert(bytes.subrange(off as int, bytes.len() as int) =~= encode_utf8(s@.skip(k@)));
        lemma_encode_injective(res.0@, s@.take(k@));
        lemma_encode_injective(res.1@, s@.skip(k@));
    }
    res
}

/// The characters of `s`, each with the byte offset at which it begins.
pub fn char_offsets(s: &str) -> (res: Vec<(usize, char)>)
    ensures
        res.len() == s@.len(),
        forall|i: int|
            0 <= i < res.len() ==> (#[trigger] res[i]).0 == byte_len(s@.take(i)) && res[i].1
                == s@[i],
{
    broadcast use vstd::string::group_string_axioms;

    let total = str_len(s);
    let mut it = s.chars();
    let mut out: Vec<(usize, char)> = Vec::new();
    let mut off: usize = 0;
    loop
        invariant_except_break
            it.remaining() == s@.skip(out.len() as int),
            it.obeys_prophetic_iter_laws(),
            it.decrease() is Some,
        invariant
            out.len() <= s@.len(),
            total == byte_len(s@),
            off == byte_len(s@.take(out.len() as int)),
            forall|i: int|
                0 <= i < out.len() ==> (#[trigger] out[i]).0 == byte_len(s@.take(i)) && out[i].1
                    == s@[i],
        ensures
            out.len() == s@.len(),
        decreases s@.len() - out.len(),
    {
        match it.next() {
            None => {
                break ;
            },
            Some(c) => {
                proof {
                    lemma_byte_len_step(s@, out.len() as int);
                }
                out.push((off, c));
                off = off + len_utf8(c);
            },
        }
    }
    out
}

/// The text from its first character on of which `hold` does not hold,
/// where `hold` decides what `p` says.
fn skip_while_str<'a, F: Fn(char) -> bool>(
    s: &'a str,
    hold: F,
    p: Ghost<spec_fn(char) -> bool>,
) -> (res: &'a str)
    requires
        forall|c: char| #[trigger] hold.requires((c,)),
        forall|c: char, r: bool| #[trigger] hold.ensures((c,), r) ==> r == (p@)(c),
    ensures
        res@ == skip_while(s@, p@),
{
    broadcast use vstd::string::group_string_axioms;

    let total = str_len(s);
    let mut it = s.chars();
    let mut off: usize = 0;
    let ghost mut k: int = 0;
    loop
        invariant_except_break
            it.remaining() == s@.skip(k),
            it.obeys_prophetic_iter_laws(),
            it.decrease() is Some,
        invariant
            0 <= k <= s@.len(),
            total == byte_len(s@),
            off == byte_len(s@.take(k)),
            forall|c: char| #[trigger] hold.requires((c,)),
            forall|c: char, r: bool| #[trigger] hold.ensures((c,), r) ==> r == (p@)(c),
            forall|j: int| 0 <= j < k ==> (p@)(#[trigger] s@[j]),
        ensures
            k < s@.len() ==> !(p@)(s@[k]),
        decreases s@.len() - k,
    {
        match it.next() {
            None => {
                break ;
            },
            Some(c) => {
                proof {
                    lemma_byte_len_step(s@, k);
                }
                if !hold(c) {
                    break ;
                }
                off = off + len_utf8(c);
                proof {
                    k = k + 1;
                }
            },
        }
    }
    proof {
        lemma_skip_while_at(s@, p@, k);
    }
    split_str(s, off, Ghost(k)).1
}

/// The text from its first character that is not whitespace on.
pub fn trim_start_str<'a>(s: &'a str) -> (res: &'a str)
    ensures
        res@ == trim_start_of(s@),
{
    let hold = |c: char| -> (r: bool)
        ensures
            r == is_white_space(c),
        { is_whitespace(c) };
    skip_while_str(s, hold, Ghost(white_space()))
}

/// The text from its first character that is not `c` on.
pub fn trim_start_matches_str<'a>(s: &'a str, c: char) -> (res: &'a str)
    ensures
        res@ == trim_start_matches_of(s@, c),
{
    let hold = |x: char| -> (r: bool)
        ensures
            r == (x == c),
        { x == c };
    skip_while_str(s, hold, Ghost(same_as(c)))
}

/// The text up to and with its last character that is not whitespace.
pub fn trim_end_str<'a>(s: &'a str) -> (res: &'a str)
    ensures
        res@ == trim_end_of(s@),
{
    broadcast use vstd::string::group_string_axioms;

    let total = str_len(s);
    let mut it = s.chars();
    let mut off: usize = 0;
    let mut keep: usize = 0;
    let ghost mut k: int = 0;
    let ghost mut kept: int = 0;
    proof {
        assert(s@.take(0) =~= Seq::<char>::empty());
    }
    loop
        invariant_except_break
            it.remaining() == s@.skip(k),
            it.obeys_prophetic_iter_laws(),
            it.decrease() is Some,
        invariant
            0 <= kept <= k <= s@.len(),
            total == byte_len(s@),
            off == byte_len(s@.take(k)),
            keep == byte_len(s@.take(kept)),
            trim_end_of(s@.take(k)) == s@.take(kept),
        ensures
            k == s@.len(),
        decreases s@.len() - k,
    {
        match it.next() {
            None => {
                break ;
            },
            Some(c) => {
                proof {
                    lemma_byte_len_step(s@, k);
                    assert(s@.take(k + 1).drop_last() =~= s@.take(k));
                    assert(s@.take(k + 1).last() == s@[k]);
                }
                off = off + len_utf8(c);
                proof {
                    k = k + 1;
                }
                if !is_whitespace(c) {
                    keep = off;
                    proof {
                        kept = k;
                    }
                }
            },
        }
    }
    proof {
        assert(s@.take(k) =~= s@);
    }
    split_str(s, keep, Ghost(kept)).0
}

/// The byte offset at which character `k` of `s` begins, read from the
/// offsets of its characters.
pub(crate) fn offset_of(
    offsets: &Vec<(usize, char)>,
    total: usize,
    k: usize,
    s: Ghost<Seq<char>>,
) -> (res: usize)
    requires
        offsets.len() == s@.len(),
        total == byte_len(s@),
        k <= offsets.len(),
        forall|i: int|
            0 <= i < offsets.len() ==> (#[trigger] offsets[i]).0 == byte_len(s@.take(i)),
    ensures
        res == byte_len(s@.take(k as int)),
{
    if k < offsets.len() {
        offsets[k].0
    } else {
        proof {
            assert(s@.take(k as int) =~= s@);
        }
        total
    }
}

/// What is left of `s` after the prefix `p`, if `s` begins with it.
pub fn strip_prefix_str<'a>(s: &'a str, p: &str) -> (res: Option<&'a str>)
    ensures
        res is Some <==> starts_with(s@, p@),
        res matches Some(rest) ==> rest@ == s@.skip(p@.len() as int),
{
    broadcast use vstd::string::group_string_axioms;

    let total = str_len(s);
    let mut a = s.chars();
    let mut b = p.chars();
    let mut off: usize = 0;
    let mut matched = false;
    let ghost mut k: int = 0;
    loop
        invariant_except_break
            a.remaining() == s@.skip(k),
            a.obeys_prophetic_iter_laws(),
            a.decrease() is Some,
            b.remaining() == p@.skip(k),
            b.obeys_prophetic_iter_laws(),
            b.decrease() is Some,
            !matched,
        invariant
            0 <= k <= s@.len(),
            k <= p@.len(),
            total == byte_len(s@),
            off == byte_len(s@.take(k)),
            forall|j: int| 0 <= j < k ==> #[trigger] s@[j] == p@[j],
        ensures
            matched ==> k == p@.len(),
            !matched ==> !starts_with(s@, p@),
        decreases p@.len() - k,
    {
        match b.next() {
            None => {
                matched = true;
                break ;
            },
            Some(y) => {
                match a.next() {
                    None => {
                        break ;
                    },
                    Some(x) => {
                        proof {
                            lemma_byte_len_step(s@, k);
                        }
                        if x != y {
                            proof {
                                if p@.len() <= s@.len() {
                                    assert(s@.subrange(0, p@.len() as int)[k] == s@[k]);
                                }
                            }
                            break ;
                        }
                        off = off + len_utf8(x);
                        proof {
                            k = k + 1;
                        }
                    },
                }
            },
        }
    }
    if matched {
        proof {
            assert(s@.subrange(0, p@.len() as int) =~= p@);
        }
        Some(split_str(s, off, Ghost(k)).1)
    } else {
        None
    }
}

/// Whether `s` begins with `p`.
pub fn starts_with_str(s: &str, p: &str) -> (res: bool)
    ensures
        res == starts_with(s@, p@),
{
    strip_prefix_str(s, p).is_some()
}

/// Whether the characters of `pat` stand in `text` from index `at` on.
fn matches_at(
    text: &Vec<(usize, char)>,
    pat: &Vec<(usize, char)>,
    at: usize,
    s: Ghost<Seq<char>>,
    p: Ghost<Seq<char>>,
) -> (res: bool)
    requires
        text.len() == s@.len(),
        pat.len() == p@.len(),
        at + pat.len() <= text.len(),
        forall|i: int| 0 <= i < text.len() ==> (#[trigger] text[i]).1 == s@[i],
        forall|i: int| 0 <= i < pat.len() ==> (#[trigger] pat[i]).1 == p@[i],
    ensures
        res == occurs_at(s@, p@, at as int),
{
    let mut j: usize = 0;
    while j < pat.len()
        invariant
            j <= pat.len(),
            text.len() == s@.len(),
            pat.len() == p@.len(),
            at + pat.len() <= text.len(),
            forall|i: int| 0 <= i < text.len() ==> (#[trigger] text[i]).1 == s@[i],
            forall|i: int| 0 <= i < pat.len() ==> (#[trigger] pat[i]).1 == p@[i],
            forall|i: int| 0 <= i < j ==> s@[at + i] == #[trigger] p@[i],
        decreases pat.len() - j,
    {
        if text[at + j].1 != pat[j].1 {
            proof {
                assert(s@.subrange(at as int, at + p@.len())[j as int] == s@[at + j]);
            }
            return false;
        }
        j = j + 1;
    }
    proof {
        assert(s@.subrange(at as int, at + p@.len()) =~= p@);
    }
    true
}

/// What stands in `s` before the suffix `p`, if `s` ends with it.
pub fn strip_suffix_str<'a>(s: &'a str, p: &str) -> (res: Option<&'a str>)
    ensures
        res is Some <==> ends_with(s@, p@),
        res matches Some(rest) ==> rest@ == s@.take(s@.len() - p@.len()),
{
    let total = str_len(s);
    let text = char_offsets(s);
    let pat = char_offsets(p);
    if pat.len() > text.len() {
        return None;
    }
    let at = text.len() - pat.len();
    if matches_at(&text, &pat, at, Ghost(s@), Ghost(p@)) {
        let off = offset_of(&text, total, at, Ghost(s@));
        Some(split_str(s, off, Ghost(at as int)).0)
    } else {
        None
    }
}

/// The first place at which `p` stands in `s`: the byte offsets at which
/// the match begins and ends, and the index of its first character.
pub(crate) fn find_str(s: &str, p: &str) -> (res: Option<(usize, usize, Ghost<int>)>)
    ensures
        res == None::<(usize, usize, Ghost<int>)> <==> find(s@, p@) is None,
        res matches Some((from, to, at)) ==> {
            &&& find(s@, p@) == Some(at@)
            &&& first_at(s@, p@, at@)
            &&& from == byte_len(s@.take(at@))
            &&& to == byte_len(s@.take(at@ + p@.len()))
        },
{
    let total = str_len(s);
    let text = char_offsets(s);
    let pat = char_offsets(p);
    if pat.len() > text.len() {
        return None;
    }
    let last = text.len() - pat.len();
    let mut i: usize = 0;
    loop
        invariant
            i <= last,
            last == text.len() - pat.len(),
            text.len() == s@.len(),
            pat.len() == p@.len(),
            total == byte_len(s@),
            forall|k: int|
                0 <= k < text.len() ==> (#[trigger] text[k]).0 == byte_len(s@.take(k)) && text[k].1
                    == s@[k],
            forall|k: int| 0 <= k < pat.len() ==> (#[trigger] pat[k]).1 == p@[k],
            forall|j: int| 0 <= j < i ==> !occurs_at(s@, p@, j),
        ensures
            forall|j: int| 0 <= j <= last ==> !occurs_at(s@, p@, j),
        decreases last - i,
    {
        if matches_at(&text, &pat, i, Ghost(s@), Ghost(p@)) {
            let from = offset_of(&text, total, i, Ghost(s@));
            let to = offset_of(&text, total, i + pat.len(), Ghost(s@));
            proof {
                lemma_first_at_unique(s@, p@, i as int);
            }
            return Some((from, to, Ghost(i as int)));
        }
        if i == last {
            break ;
        }
        i = i + 1;
    }
    None
}

/// A pattern has at most one first place in a text, and `find` gives it.
pub proof fn lemma_first_at_unique<E>(text: Seq<E>, pat: Seq<E>, i: int)
    requires
        first_at(text, pat, i),
    ensures
        find(text, pat) == Some(i),
{
    let j = choose|j: int| first_at(text, pat, j);
    if j < i {
        assert(!occurs_at(text, pat, j));
    } else if i < j {
        assert(!occurs_at(text, pat, i));
    }
}

} // verus!
