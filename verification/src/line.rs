//! One line of configuration text: whether it assigns, and what to what.

use crate::text::{
    chars_are_blank, chars_of, is_blank, lemma_find_is_at_occurrence, position_of, split_once,
    trim, trim_bounds,
};
use vstd::prelude::*;
use vstd::string::*;

verus! {

/// Whether the line is a comment: its very first character is `#` or `;`.
pub open spec fn is_comment(line: Seq<char>) -> bool {
    line.len() > 0 && (line[0] == '#' || line[0] == ';')
}

/// The key and the raw value that a line assigns, if it assigns.
///
/// Comments and blank lines assign nothing, and neither does a line
/// without `=`. Any other line is cut at its first `=`; the key is what
/// stands before it and the raw value what stands after it, each without
/// the white space around it.
pub open spec fn assignment(line: Seq<char>) -> Option<(Seq<char>, Seq<char>)> {
    if is_comment(line) || is_blank(line) {
        None
    } else {
        match split_once(line, seq!['=']) {
            Some((key, value)) => Some((trim(key), trim(value))),
            None => None,
        }
    }
}

/// The key and the raw value that `line` assigns, if it assigns.
pub fn key_value_of<'a>(line: &'a str) -> (pair: Option<(&'a str, &'a str)>)
    ensures
        match pair {
            Some((key, value)) => assignment(line@) == Some((key@, value@)),
            None => assignment(line@) is None,
        },
{
    let chars = chars_of(line);
    let n = chars.len();
    if n > 0 && (chars[0] == '#' || chars[0] == ';') {
        return None;
    }
    if chars_are_blank(&chars) {
        return None;
    }
    let pattern: Vec<char> = vec!['='];
    assert(pattern@ =~= seq!['=']);
    let at = position_of(&chars, &pattern);
    if at == n {
        assert(!pattern@.is_prefix_of(chars@.skip(at as int)));
        return None;
    }
    proof {
        lemma_find_is_at_occurrence(chars@, pattern@);
        assert(chars@.take(at as int) =~= chars@.subrange(0, at as int));
        assert(chars@.skip(at + 1) =~= chars@.subrange(at + 1, n as int));
    }
    let (key_from, key_to) = trim_bounds(&chars, 0, at);
    let (value_from, value_to) = trim_bounds(&chars, at + 1, n);
    Some((line.substring_char(key_from, key_to), line.substring_char(value_from, value_to)))
}

} // verus!
