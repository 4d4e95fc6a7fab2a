//! Texts as sequences of characters: white space, trimming, searching,
//! splitting and joining, each with its meaning as a spec function and a
//! verified routine on string slices.

use vstd::prelude::*;
use vstd::string::*;

verus! {

/// The characters that count as white space: those of Unicode's
/// `White_Space` property.
pub open spec fn is_whitespace(c: char) -> bool {
    let n = c as u32;
    ||| 0x09 <= n <= 0x0D
    ||| n == 0x20
    ||| n == 0x85
    ||| n == 0xA0
    ||| n == 0x1680
    ||| 0x2000 <= n <= 0x200A
    ||| n == 0x2028
    ||| n == 0x2029
    ||| n == 0x202F
    ||| n == 0x205F
    ||| n == 0x3000
}

/// Whether the text is empty or made of white space only.
pub open spec fn is_blank(s: Seq<char>) -> bool {
    forall|i: int| 0 <= i < s.len() ==> is_whitespace(#[trigger] s[i])
}

/// The text without its leading white space.
pub open spec fn trim_start(s: Seq<char>) -> Seq<char>
    decreases s.len(),
{
    if s.len() > 0 && is_whitespace(s.first()) {
        trim_start(s.drop_first())
    } else {
        s
    }
}

/// The text without its trailing white space.
pub open spec fn trim_end(s: Seq<char>) -> Seq<char>
    decreases s.len(),
{
    if s.len() > 0 && is_whitespace(s.last()) {
        trim_end(s.drop_last())
    } else {
        s
    }
}

/// The text without the white space that surrounds it.
pub open spec fn trim(s: Seq<char>) -> Seq<char> {
    trim_end(trim_start(s))
}

/// Where `pattern` first occurs in `s`; the length of `s` where it does not
/// occur.
pub open spec fn find(s: Seq<char>, pattern: Seq<char>) -> int
    decreases s.len(),
{
    if pattern.is_prefix_of(s) || s.len() == 0 {
        0
    } else {
        1 + find(s.drop_first(), pattern)
    }
}

/// The parts of `s` before and after the first occurrence of `pattern`, if
/// it occurs.
pub open spec fn split_once(s: Seq<char>, pattern: Seq<char>) -> Option<(Seq<char>, Seq<char>)> {
    let at = find(s, pattern);
    if at + pattern.len() <= s.len() && pattern.is_prefix_of(s.skip(at)) {
        Some((s.take(at), s.skip(at + pattern.len())))
    } else {
        None
    }
}

/// The pieces of `s` between the occurrences of `separator`, in order.
///
/// There is always at least one piece; a separator at either end, or two in
/// a row, give an empty piece.
pub open spec fn split(s: Seq<char>, separator: char) -> Seq<Seq<char>>
    decreases s.len(),
{
    if s.len() == 0 {
        seq![Seq::empty()]
    } else {
        let before = split(s.drop_last(), separator);
        if s.last() == separator {
            before.push(Seq::empty())
        } else {
            before.drop_last().push(before.last().push(s.last()))
        }
    }
}

/// The pieces put together again with `separator` between them.
pub open spec fn join(pieces: Seq<Seq<char>>, separator: char) -> Seq<char>
    decreases pieces.len(),
{
    if pieces.len() == 0 {
        Seq::empty()
    } else if pieces.len() == 1 {
        pieces[0]
    } else {
        join(pieces.drop_last(), separator).push(separator) + pieces.last()
    }
}

/// The texts of a list of string slices.
pub open spec fn texts(items: Seq<&str>) -> Seq<Seq<char>> {
    Seq::new(items.len(), |i: int| items[i]@)
}

/// The texts of a list of pairs of string slices.
pub open spec fn text_pairs(pairs: Seq<(&str, &str)>) -> Seq<(Seq<char>, Seq<char>)> {
    Seq::new(pairs.len(), |i: int| (pairs[i].0@, pairs[i].1@))
}

/// Splitting never gives an empty list, and joining the pieces with the
/// same separator gives the text back.
pub proof fn lemma_join_of_split(s: Seq<char>, separator: char)
    ensures
        split(s, separator).len() > 0,
        join(split(s, separator), separator) == s,
    decreases s.len(),
{
    if s.len() == 0 {
        assert(join(seq![Seq::<char>::empty()], separator) == Seq::<char>::empty());
    } else {
        let front = s.drop_last();
        let before = split(front, separator);
        lemma_join_of_split(front, separator);
        if s.last() == separator {
            let pieces = before.push(Seq::empty());
            assert(pieces.drop_last() =~= before);
            assert(join(pieces, separator) =~= front.push(separator));
            assert(front.push(s.last()) =~= s);
        } else {
            let piece = before.last().push(s.last());
            let pieces = before.drop_last().push(piece);
            if before.len() == 1 {
                assert(join(pieces, separator) == piece);
                assert(piece =~= s);
            } else {
                assert(pieces.drop_last() =~= before.drop_last());
                assert(join(pieces, separator) =~= join(before, separator).push(s.last()));
                assert(front.push(s.last()) =~= s);
            }
        }
    }
}

/// No piece of a split holds the separator.
pub proof fn lemma_split_pieces_hold_no_separator(s: Seq<char>, separator: char)
    ensures
        forall|i: int|
            0 <= i < split(s, separator).len() ==> !(#[trigger] split(s, separator)[i]).contains(
                separator,
            ),
    decreases s.len(),
{
    if s.len() > 0 {
        lemma_join_of_split(s.drop_last(), separator);
        lemma_split_pieces_hold_no_separator(s.drop_last(), separator);
        let before = split(s.drop_last(), separator);
        if s.last() != separator {
            let piece = before.last().push(s.last());
            assert forall|j: int| 0 <= j < piece.len() implies piece[j] != separator by {
                if j < piece.len() - 1 {
                    assert(before.last().contains(before.last()[j]));
                }
            }
        }
    }
}

/// The position found by [`find`] is the first at which the pattern
/// begins.
pub proof fn lemma_find_is_first(s: Seq<char>, pattern: Seq<char>, at: int)
    requires
        0 <= at <= s.len(),
        forall|j: int| 0 <= j < at ==> !pattern.is_prefix_of(#[trigger] s.skip(j)),
        at == s.len() || pattern.is_prefix_of(s.skip(at)),
    ensures
        find(s, pattern) == at,
    decreases at,
{
    assert(s.skip(0) =~= s);
    if at > 0 {
        let rest = s.drop_first();
        assert forall|j: int| 0 <= j < at - 1 implies !pattern.is_prefix_of(
            #[trigger] rest.skip(j),
        ) by {
            assert(rest.skip(j) =~= s.skip(j + 1));
        }
        assert(rest.skip(at - 1) =~= s.skip(at));
        lemma_find_is_first(rest, pattern, at - 1);
    }
}

/// Where [`find`] stops short of the end, the pattern begins.
pub proof fn lemma_find_is_at_occurrence(s: Seq<char>, pattern: Seq<char>)
    ensures
        0 <= find(s, pattern) <= s.len(),
        find(s, pattern) < s.len() ==> pattern.is_prefix_of(s.skip(find(s, pattern))),
    decreases s.len(),
{
    assert(s.skip(0) =~= s);
    if !(pattern.is_prefix_of(s) || s.len() == 0) {
        let rest = s.drop_first();
        lemma_find_is_at_occurrence(rest, pattern);
        assert(rest.skip(find(rest, pattern)) =~= s.skip(find(rest, pattern) + 1));
    }
}

/// The characters of a string slice.
pub fn chars_of(s: &str) -> (chars: Vec<char>)
    ensures
        chars@ == s@,
{
    let mut chars: Vec<char> = Vec::new();
    for c in it: s.chars()
        invariant
            chars@ == it.seq().take(it.index() as int),
            it.seq() == s@,
    {
        chars.push(c);
    }
    chars
}

/// Whether `c` is white space.
pub fn char_is_whitespace(c: char) -> (b: bool)
    ensures
        b == is_whitespace(c),
{
    let n: u32 = c as u32;
    (0x09 <= n && n <= 0x0D) || n == 0x20 || n == 0x85 || n == 0xA0 || n == 0x1680 || (0x2000 <= n
        && n <= 0x200A) || n == 0x2028 || n == 0x2029 || n == 0x202F || n == 0x205F || n == 0x3000
}

/// Whether `chars` is empty or made of white space only.
pub fn chars_are_blank(chars: &Vec<char>) -> (b: bool)
    ensures
        b == is_blank(chars@),
{
    let mut i: usize = 0;
    while i < chars.len()
        invariant
            i <= chars.len(),
            forall|j: int| 0 <= j < i ==> is_whitespace(#[trigger] chars[j]),
        decreases chars.len() - i,
    {
        if !char_is_whitespace(chars[i]) {
            return false;
        }
        i = i + 1;
    }
    true
}

/// Whether `chars` spells `text`.
pub fn chars_spell(chars: &Vec<char>, text: &str) -> (b: bool)
    ensures
        b == (chars@ == text@),
{
    let other = chars_of(text);
    if chars.len() != other.len() {
        return false;
    }
    let mut i: usize = 0;
    while i < chars.len()
        invariant
            i <= chars.len() == other.len(),
            other@ == text@,
            forall|j: int| 0 <= j < i ==> chars[j] == other[j],
        decreases chars.len() - i,
    {
        if chars[i] != other[i] {
            return false;
        }
        i = i + 1;
    }
    assert(chars@ =~= other@);
    true
}

/// The bounds of what trimming leaves of `chars[from..to]`.
pub fn trim_bounds(chars: &Vec<char>, from: usize, to: usize) -> (bounds: (usize, usize))
    requires
        from <= to <= chars.len(),
    ensures
        from <= bounds.0 <= bounds.1 <= to,
        chars@.subrange(bounds.0 as int, bounds.1 as int) == trim(
            chars@.subrange(from as int, to as int),
        ),
{
    let mut first: usize = from;
    while first < to && char_is_whitespace(chars[first])
        invariant
            from <= first <= to <= chars.len(),
            trim_start(chars@.subrange(from as int, to as int)) == trim_start(
                chars@.subrange(first as int, to as int),
            ),
        decreases to - first,
    {
        assert(chars@.subrange(first as int, to as int).drop_first() =~= chars@.subrange(
            first + 1,
            to as int,
        ));
        first = first + 1;
    }
    let mut last: usize = to;
    while last > first && char_is_whitespace(chars[last - 1])
        invariant
            first <= last <= to <= chars.len(),
            trim_end(chars@.subrange(first as int, to as int)) == trim_end(
                chars@.subrange(first as int, last as int),
            ),
        decreases last,
    {
        assert(chars@.subrange(first as int, last as int).drop_last() =~= chars@.subrange(
            first as int,
            last - 1,
        ));
        last = last - 1;
    }
    (first, last)
}

/// The text without the white space that surrounds it.
pub fn trimmed<'a>(s: &'a str) -> (t: &'a str)
    ensures
        t@ == trim(s@),
{
    let chars = chars_of(s);
    let (first, last) = trim_bounds(&chars, 0, chars.len());
    assert(chars@.subrange(0, chars.len() as int) =~= chars@);
    s.substring_char(first, last)
}

/// Whether `pattern` stands in `chars` at position `at`.
fn occurs_at(chars: &Vec<char>, at: usize, pattern: &Vec<char>) -> (b: bool)
    requires
        at <= chars.len(),
    ensures
        b == pattern@.is_prefix_of(chars@.skip(at as int)),
{
    if pattern.len() > chars.len() - at {
        return false;
    }
    let mut i: usize = 0;
    while i < pattern.len()
        invariant
            i <= pattern.len() <= chars.len() - at,
            forall|j: int| 0 <= j < i ==> pattern[j] == chars[at + j],
        decreases pattern.len() - i,
    {
        if pattern[i] != chars[at + i] {
            assert(chars@.skip(at as int).subrange(0, pattern.len() as int)[i as int] != pattern[i as int]);
            return false;
        }
        i = i + 1;
    }
    assert(pattern@ =~= chars@.skip(at as int).subrange(0, pattern.len() as int));
    true
}

/// Where `pattern` first occurs in `chars`; the length of `chars` where it
/// does not occur.
pub fn position_of(chars: &Vec<char>, pattern: &Vec<char>) -> (at: usize)
    ensures
        at == find(chars@, pattern@),
        at <= chars.len(),
{
    let mut at: usize = 0;
    while at < chars.len() && !occurs_at(chars, at, pattern)
        invariant
            at <= chars.len(),
            forall|j: int| 0 <= j < at ==> !pattern@.is_prefix_of(#[trigger] chars@.skip(j)),
        decreases chars.len() - at,
    {
        at = at + 1;
    }
    proof {
        lemma_find_is_first(chars@, pattern@, at as int);
    }
    at
}

/// The parts of `s` before and after the first occurrence of `pattern`, if
/// it occurs.
pub fn split_at_first<'a>(s: &'a str, pattern: &str) -> (parts: Option<(&'a str, &'a str)>)
    ensures
        match parts {
            Some((before, after)) => split_once(s@, pattern@) == Some((before@, after@)),
            None => split_once(s@, pattern@) is None,
        },
{
    let chars = chars_of(s);
    let pattern_chars = chars_of(pattern);
    let at = position_of(&chars, &pattern_chars);
    if pattern_chars.len() <= chars.len() - at && occurs_at(&chars, at, &pattern_chars) {
        Some((s.substring_char(0, at), s.substring_char(at + pattern_chars.len(), chars.len())))
    } else {
        None
    }
}

/// The pieces of `s` between the occurrences of `separator`, in order.
pub fn split_on<'a>(s: &'a str, separator: char) -> (pieces: Vec<&'a str>)
    ensures
        texts(pieces@) == split(s@, separator),
        pieces.len() > 0,
{
    let chars = chars_of(s);
    let n = chars.len();
    let mut pieces: Vec<&'a str> = Vec::new();
    let mut start: usize = 0;
    let mut i: usize = 0;
    assert(s@.subrange(0, 0) =~= Seq::<char>::empty());
    assert(texts(pieces@).push(s@.subrange(0, 0)) =~= seq![Seq::<char>::empty()]);
    while i < n
        invariant
            start <= i <= n,
            n == chars.len(),
            chars@ == s@,
            split(s@.take(i as int), separator) == texts(pieces@).push(
                s@.subrange(start as int, i as int),
            ),
        decreases n - i,
    {
        let ghost next = s@.take(i + 1);
        let ghost before = texts(pieces@).push(s@.subrange(start as int, i as int));
        assert(next.drop_last() =~= s@.take(i as int));
        assert(next.last() == s@[i as int]);
        if chars[i] == separator {
            let piece = s.substring_char(start, i);
            assert(texts(pieces@.push(piece)) =~= before);
            pieces.push(piece);
            start = i + 1;
            assert(s@.subrange(start as int, start as int) =~= Seq::<char>::empty());
        } else {
            assert(before.drop_last() =~= texts(pieces@));
            assert(before.last().push(s@[i as int]) =~= s@.subrange(start as int, i + 1));
        }
        i = i + 1;
    }
    let piece = s.substring_char(start, n);
    assert(s@.take(n as int) =~= s@);
    assert(texts(pieces@.push(piece)) =~= texts(pieces@).push(piece@));
    pieces.push(piece);
    pieces
}

/// The pieces put together with a full stop between them.
pub fn joined_with_dots(pieces: &[&str]) -> (text: String)
    ensures
        text@ == join(texts(pieces@), '.'),
{
    let mut text = String::new();
    let mut i: usize = 0;
    while i < pieces.len()
        invariant
            i <= pieces.len(),
            text@ == join(texts(pieces@).take(i as int), '.'),
        decreases pieces.len() - i,
    {
        let ghost done = texts(pieces@).take(i as int);
        let ghost next = texts(pieces@).take(i + 1);
        assert(next.drop_last() =~= done);
        assert(next.last() == pieces@[i as int]@);
        if i > 0 {
            proof {
                reveal_strlit(".");
            }
            text.append(".");
            assert("."@ =~= seq!['.']);
            assert(text@ =~= join(done, '.').push('.'));
        } else {
            assert(Seq::<char>::empty() + pieces@[i as int]@ =~= pieces@[i as int]@);
        }
        text.append(pieces[i]);
        i = i + 1;
    }
    assert(texts(pieces@).take(pieces.len() as int) =~= texts(pieces@));
    text
}

} // verus!
