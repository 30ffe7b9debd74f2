//! Text primitives shared by the rest of the library: character-level
//! comparisons, splitting and joining, the file stem of a file name, and the
//! two std string operations that the library trusts.

use vstd::prelude::*;
use vstd::utf8::decode_utf8;
use vstd::utf8::encode_utf8;
use vstd::utf8::group_utf8_lib;
use vstd::utf8::is_ascii_chars;
use vstd::utf8::is_char_boundary;

verus! {

broadcast use group_utf8_lib;

/// The lowercase form that `str::to_lowercase` gives of a text, by the Unicode
/// case tables of the standard library.
pub uninterp spec fn lowercase(s: Seq<char>) -> Seq<char>;

/// An ASCII letter in lowercase; any other character as it is.
pub open spec fn ascii_lower_char(c: char) -> char {
    if 'A' <= c <= 'Z' {
        ((c as u32) + 32) as char
    } else {
        c
    }
}

/// A text with its ASCII letters in lowercase.
pub open spec fn ascii_lowercase(s: Seq<char>) -> Seq<char> {
    s.map_values(|c: char| ascii_lower_char(c))
}

/// Calls `str::to_lowercase`. Trusted: the result's characters are the named
/// lowercase form of the argument's characters, so equal texts give equal
/// results; and an ASCII text's lowercase form is the text with its letters
/// `A`-`Z` made `a`-`z`, as Unicode's case mapping does for ASCII. Which
/// other characters change, and how, is not stated.
#[verifier::external_body]
pub(crate) fn to_lower(s: &str) -> (r: String)
    ensures
        r@ == lowercase(s@),
        is_ascii_chars(s@) ==> r@ == ascii_lowercase(s@),
{
    s.to_lowercase()
}

/// Calls `String::push`. Trusted: the character is appended at the end and
/// nothing else changes, as the documentation of `String::push` says.
#[verifier::external_body]
pub(crate) fn push_char(s: &mut String, c: char)
    ensures
        final(s)@ == old(s)@.push(c),
{
    s.push(c)
}

/// `t` is a suffix of `s`.
pub open spec fn ends_with(s: Seq<char>, t: Seq<char>) -> bool {
    t.len() <= s.len() && s.subrange(s.len() - t.len(), s.len() as int) == t
}

/// `t` is a prefix of `s`.
pub open spec fn starts_with(s: Seq<char>, t: Seq<char>) -> bool {
    t.len() <= s.len() && s.subrange(0, t.len() as int) == t
}

/// A text with every backslash turned into a forward slash.
pub open spec fn forward_slashes(s: Seq<char>) -> Seq<char> {
    s.map_values(|c: char| if c == '\\' { '/' } else { c })
}

/// The pieces of `s` between occurrences of `sep`, as `str::split` with a
/// character pattern yields them (an empty text gives one empty piece).
pub open spec fn split_on(s: Seq<char>, sep: char) -> Seq<Seq<char>>
    decreases s.len(),
{
    if s.len() == 0 {
        seq![Seq::empty()]
    } else {
        let prev = split_on(s.drop_last(), sep);
        if s.last() == sep {
            prev.push(Seq::empty())
        } else {
            prev.update(prev.len() - 1, prev.last().push(s.last()))
        }
    }
}

/// The pieces joined with `/` between consecutive pieces.
pub open spec fn join_with_slash(parts: Seq<Seq<char>>) -> Seq<char>
    decreases parts.len(),
{
    if parts.len() == 0 {
        Seq::empty()
    } else if parts.len() == 1 {
        parts[0]
    } else {
        join_with_slash(parts.drop_last()) + seq!['/'] + parts.last()
    }
}

/// Position of the last occurrence of byte `b` in `bs`.
pub open spec fn last_byte_index(bs: Seq<u8>, b: u8) -> Option<int>
    decreases bs.len(),
{
    if bs.len() == 0 {
        None
    } else if bs.last() == b {
        Some(bs.len() - 1)
    } else {
        last_byte_index(bs.drop_last(), b)
    }
}

/// The bytes of a file name's stem, as `Path::file_stem` cuts them: the name
/// up to its last `.`, unless there is no `.`, the only `.` leads the name, or
/// the name is `..`; then the whole name.
pub open spec fn stem_bytes(nb: Seq<u8>) -> Seq<u8> {
    if nb =~= seq![46u8, 46u8] {
        nb
    } else {
        match last_byte_index(nb, 46u8) {
            Some(i) => if i == 0 {
                nb
            } else {
                nb.subrange(0, i)
            },
            None => nb,
        }
    }
}

/// The stem of a file name.
pub open spec fn file_stem_of(name: Seq<char>) -> Seq<char> {
    decode_utf8(stem_bytes(encode_utf8(name)))
}

/// A position that `last_byte_index` finds holds the byte, and no later one does.
pub proof fn lemma_last_byte_index(bs: Seq<u8>, b: u8)
    ensures
        last_byte_index(bs, b) matches Some(i) ==> 0 <= i < bs.len() && bs[i] == b && forall|j: int|
            i < j < bs.len() ==> bs[j] != b,
        last_byte_index(bs, b) is None ==> forall|j: int| 0 <= j < bs.len() ==> bs[j] != b,
    decreases bs.len(),
{
    if bs.len() > 0 {
        let prefix = bs.drop_last();
        lemma_last_byte_index(prefix, b);
        assert forall|j: int| 0 <= j < prefix.len() implies prefix[j] == bs[j] by {}
    }
}

/// A text without the separator is one piece.
pub proof fn lemma_split_on_whole(s: Seq<char>, sep: char)
    requires
        forall|i: int| 0 <= i < s.len() ==> s[i] != sep,
    ensures
        split_on(s, sep) == seq![s],
    decreases s.len(),
{
    if s.len() > 0 {
        let prev = s.drop_last();
        lemma_split_on_whole(prev, sep);
        assert(s.last() != sep);
        assert(prev.push(s.last()) =~= s);
        assert(seq![prev].update(0, seq![prev].last().push(s.last())) =~= seq![s]);
    } else {
        assert(s =~= Seq::<char>::empty());
    }
}

/// A separator followed by a text without it adds that text as the last
/// piece.
pub proof fn lemma_split_on_push_piece(a: Seq<char>, b: Seq<char>, sep: char)
    requires
        forall|i: int| 0 <= i < b.len() ==> b[i] != sep,
    ensures
        split_on(a + seq![sep] + b, sep) == split_on(a, sep).push(b),
    decreases b.len(),
{
    let s = a + seq![sep] + b;
    if b.len() == 0 {
        assert(s.drop_last() =~= a);
        assert(s.last() == sep);
        assert(b =~= Seq::<char>::empty());
    } else {
        let b2 = b.drop_last();
        lemma_split_on_push_piece(a, b2, sep);
        assert(s.drop_last() =~= a + seq![sep] + b2);
        assert(s.last() == b.last());
        assert(b.last() != sep);
        assert(b2.push(b.last()) =~= b);
        let prev = split_on(a, sep).push(b2);
        assert(prev.update(prev.len() - 1, prev.last().push(s.last())) =~= split_on(a, sep).push(b));
    }
}

pub proof fn lemma_split_on_nonempty(s: Seq<char>, sep: char)
    ensures
        split_on(s, sep).len() >= 1,
    decreases s.len(),
{
    if s.len() > 0 {
        lemma_split_on_nonempty(s.drop_last(), sep);
    }
}

/// The characters of a string slice, in order.
pub fn chars_of(s: &str) -> (v: Vec<char>)
    ensures
        v@ == s@,
{
    let mut v: Vec<char> = Vec::new();
    for c in it: s.chars()
        invariant
            v@ == it.seq().take(it.index() as int),
            it.seq() == s@,
    {
        v.push(c);
    }
    v
}

/// Character-wise equality of two texts.
pub fn str_eq(a: &str, b: &str) -> (r: bool)
    ensures
        r == (a@ == b@),
{
    let av = chars_of(a);
    let bv = chars_of(b);
    if av.len() != bv.len() {
        return false;
    }
    let mut i: usize = 0;
    while i < av.len()
        invariant
            av@ == a@,
            bv@ == b@,
            av.len() == bv.len(),
            i <= av.len(),
            forall|j: int| 0 <= j < i ==> av@[j] == bv@[j],
        decreases av.len() - i,
    {
        if av[i] != bv[i] {
            return false;
        }
        i = i + 1;
    }
    assert(av@ =~= bv@);
    true
}

/// Does the character vector `s`, from position `start`, hold `t`?
fn holds_at(s: &Vec<char>, start: usize, t: &Vec<char>) -> (r: bool)
    requires
        start + t.len() <= s.len(),
    ensures
        r == (s@.subrange(start as int, start + t.len()) == t@),
{
    let mut i: usize = 0;
    while i < t.len()
        invariant
            start + t.len() <= s.len(),
            i <= t.len(),
            forall|j: int| 0 <= j < i ==> s@[start + j] == t@[j],
        decreases t.len() - i,
    {
        if s[start + i] != t[i] {
            assert(s@.subrange(start as int, start + t.len())[i as int] != t@[i as int]);
            return false;
        }
        i = i + 1;
    }
    assert(s@.subrange(start as int, start + t.len()) =~= t@);
    true
}

/// Does `s` end with `t`?
pub fn ends_with_str(s: &str, t: &str) -> (r: bool)
    ensures
        r == ends_with(s@, t@),
{
    let sv = chars_of(s);
    let tv = chars_of(t);
    if tv.len() > sv.len() {
        return false;
    }
    holds_at(&sv, sv.len() - tv.len(), &tv)
}

/// Does `s` start with `t`?
pub fn starts_with_str(s: &str, t: &str) -> (r: bool)
    ensures
        r == starts_with(s@, t@),
{
    let sv = chars_of(s);
    let tv = chars_of(t);
    if tv.len() > sv.len() {
        return false;
    }
    holds_at(&sv, 0, &tv)
}

/// A copy of `s` with every backslash turned into a forward slash.
pub fn to_forward_slashes(s: &str) -> (r: String)
    ensures
        r@ == forward_slashes(s@),
{
    let mut r = String::new();
    let v = chars_of(s);
    let mut i: usize = 0;
    while i < v.len()
        invariant
            v@ == s@,
            i <= v.len(),
            r@ == forward_slashes(s@.take(i as int)),
        decreases v.len() - i,
    {
        let c = v[i];
        let d = if c == '\\' {
            '/'
        } else {
            c
        };
        push_char(&mut r, d);
        assert(s@.take(i + 1) =~= s@.take(i as int).push(c));
        assert(forward_slashes(s@.take(i + 1)) =~= forward_slashes(s@.take(i as int)).push(d));
        i = i + 1;
    }
    assert(s@.take(v.len() as int) =~= s@);
    r
}

/// The pieces of `s` between occurrences of `sep`, as `str::split` gives them.
pub fn split_text(s: &str, sep: char) -> (parts: Vec<String>)
    ensures
        parts@.map_values(|p: String| p@) == split_on(s@, sep),
{
    let v = chars_of(s);
    let mut parts: Vec<String> = Vec::new();
    let mut cur = String::new();
    let mut i: usize = 0;
    assert(s@.take(0) =~= Seq::<char>::empty());
    assert(parts@.map_values(|p: String| p@).push(cur@) =~= split_on(s@.take(0), sep));
    while i < v.len()
        invariant
            v@ == s@,
            i <= v.len(),
            parts@.map_values(|p: String| p@).push(cur@) == split_on(s@.take(i as int), sep),
        decreases v.len() - i,
    {
        let c = v[i];
        let ghost prev = split_on(s@.take(i as int), sep);
        assert(s@.take(i + 1).drop_last() =~= s@.take(i as int));
        assert(s@.take(i + 1).last() == c);
        if c == sep {
            let old_cur = cur;
            parts.push(old_cur);
            cur = String::new();
            assert(parts@.map_values(|p: String| p@) =~= prev);
            assert(parts@.map_values(|p: String| p@).push(cur@) =~= prev.push(Seq::empty()));
        } else {
            let ghost pv = parts@.map_values(|p: String| p@);
            push_char(&mut cur, c);
            assert(pv.push(cur@) =~= prev.update(prev.len() - 1, prev.last().push(c)));
            assert(parts@.map_values(|p: String| p@) =~= pv);
        }
        i = i + 1;
    }
    parts.push(cur);
    assert(s@.take(v.len() as int) =~= s@);
    parts
}

/// Position of the last occurrence of byte `b` in `bs`.
pub fn last_index_of_byte(bs: &[u8], b: u8) -> (r: Option<usize>)
    ensures
        r matches Some(i) ==> last_byte_index(bs@, b) == Some(i as int),
        r is None ==> last_byte_index(bs@, b) is None,
{
    let mut i: usize = bs.len();
    assert(bs@.take(bs@.len() as int) =~= bs@);
    while i > 0
        invariant
            i <= bs@.len(),
            last_byte_index(bs@, b) == last_byte_index(bs@.take(i as int), b),
        decreases i,
    {
        assert(bs@.take(i as int).drop_last() =~= bs@.take(i - 1));
        if bs[i - 1] == b {
            return Some(i - 1);
        }
        i = i - 1;
    }
    None
}

/// The stem of a file name, as `Path::file_stem` gives it.
pub fn file_stem(name: &str) -> (r: &str)
    ensures
        r@ == file_stem_of(name@),
{
    let bytes = name.as_bytes();
    assert(bytes@ == encode_utf8(name@));
    if bytes.len() == 2 && bytes[0] == 46u8 && bytes[1] == 46u8 {
        assert(bytes@ =~= seq![46u8, 46u8]);
        return name;
    }
    assert(!(bytes@ =~= seq![46u8, 46u8]));
    match last_index_of_byte(bytes, 46u8) {
        Some(i) => {
            if i == 0 {
                name
            } else {
                proof {
                    lemma_last_byte_index(bytes@, 46u8);
                    assert(!vstd::utf8::is_continuation_byte(bytes@[i as int]));
                    vstd::utf8::is_char_boundary_iff_not_is_continuation_byte(bytes@, i as int);
                }
                assert(is_char_boundary(bytes@, i as int));
                let (head, _tail) = name.split_at(i);
                assert(head@ == decode_utf8(encode_utf8(head@)));
                head
            }
        },
        None => name,
    }
}

/// The ASCII lowercase form of an ASCII text is ASCII and as long.
pub proof fn lemma_ascii_lowercase(s: Seq<char>)
    requires
        is_ascii_chars(s),
    ensures
        is_ascii_chars(ascii_lowercase(s)),
        ascii_lowercase(s).len() == s.len(),
{
    let t = ascii_lowercase(s);
    assert forall|i: int| 0 <= i < t.len() implies '\0' <= #[trigger] t[i] <= '\u{7f}' by {
        let c = s[i];
        assert('\0' <= c <= '\u{7f}');
        if 'A' <= c <= 'Z' {
            assert((c as u32) + 32 <= 0x7f);
            assert(((c as u32) + 32) as char as u32 == (c as u32) + 32);
        }
    }
}

/// Every position of an ASCII text's encoding is a character boundary.
pub proof fn lemma_ascii_boundary(c: Seq<char>, j: int)
    requires
        is_ascii_chars(c),
        0 <= j <= c.len(),
    ensures
        is_char_boundary(encode_utf8(c), j),
{
    let b = encode_utf8(c);
    vstd::utf8::is_ascii_chars_encode_utf8(c);
    vstd::utf8::encode_utf8_valid_utf8(c);
    vstd::utf8::is_char_boundary_start_end_of_seq(b);
    if j < c.len() {
        assert('\0' <= c[j] <= '\u{7f}');
        assert(b[j] == c[j] as u8);
        assert(!vstd::utf8::is_continuation_byte(b[j]));
        vstd::utf8::is_char_boundary_iff_not_is_continuation_byte(b, j);
    }
}

/// A byte range of an ASCII text's encoding decodes to the same range of
/// the text, which is ASCII.
pub proof fn lemma_ascii_range(c: Seq<char>, a: int, b: int)
    requires
        is_ascii_chars(c),
        0 <= a <= b <= c.len(),
    ensures
        decode_utf8(encode_utf8(c).subrange(a, b)) == c.subrange(a, b),
        is_ascii_chars(c.subrange(a, b)),
{
    let part = c.subrange(a, b);
    assert(is_ascii_chars(part)) by {
        assert forall|i: int| 0 <= i < part.len() implies '\0' <= #[trigger] part[i] <= '\u{7f}' by {
            assert(part[i] == c[a + i]);
        }
    }
    vstd::utf8::is_ascii_chars_encode_utf8(c);
    vstd::utf8::is_ascii_chars_encode_utf8(part);
    assert(encode_utf8(c).subrange(a, b) =~= encode_utf8(part)) by {
        assert forall|i: int| 0 <= i < b - a implies encode_utf8(c).subrange(a, b)[i] == encode_utf8(
            part,
        )[i] by {
            assert(part[i] == c[a + i]);
        }
    }
    vstd::utf8::encode_utf8_decode_utf8(part);
}

/// The stem of an ASCII file name is ASCII.
pub proof fn lemma_ascii_stem(name: Seq<char>)
    requires
        is_ascii_chars(name),
    ensures
        is_ascii_chars(file_stem_of(name)),
{
    let nb = encode_utf8(name);
    vstd::utf8::is_ascii_chars_encode_utf8(name);
    lemma_ascii_range(name, 0, name.len() as int);
    assert(nb.subrange(0, name.len() as int) =~= nb);
    assert(name.subrange(0, name.len() as int) =~= name);
    lemma_last_byte_index(nb, 46u8);
    if let Some(i) = last_byte_index(nb, 46u8) {
        if i > 0 {
            lemma_ascii_range(name, 0, i);
        }
    }
}

} // verus!
