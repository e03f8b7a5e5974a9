//! Splitting a line at every whitespace character.

use vstd::prelude::*;
use vstd::string::StrSliceExecFns;
use vstd::string::StringExecFns;

verus! {

/// The characters with the Unicode `White_Space` property.
pub open spec fn is_white_space(c: char) -> bool {
    let u = c as u32;
    ||| 0x9 <= u <= 0xd
    ||| u == 0x20
    ||| u == 0x85
    ||| u == 0xa0
    ||| u == 0x1680
    ||| 0x2000 <= u <= 0x200a
    ||| u == 0x2028
    ||| u == 0x2029
    ||| u == 0x202f
    ||| u == 0x205f
    ||| u == 0x3000
}

/// Tells whether `c` has the Unicode `White_Space` property, as
/// `char::is_whitespace` does.
pub fn is_whitespace(c: char) -> (ws: bool)
    ensures
        ws == is_white_space(c),
{
    let u = c as u32;
    (0x9 <= u && u <= 0xd) || u == 0x20 || u == 0x85 || u == 0xa0 || u == 0x1680 || (0x2000 <= u
        && u <= 0x200a) || u == 0x2028 || u == 0x2029 || u == 0x202f || u == 0x205f || u == 0x3000
}

/// The pieces of `s` between whitespace characters, as
/// `str::split(char::is_whitespace)` yields them: every whitespace
/// character ends a piece, so neighbouring whitespace gives empty
/// pieces, and there is always at least one piece.
pub open spec fn split_pieces(s: Seq<char>) -> Seq<Seq<char>>
    decreases s.len(),
{
    if s.len() == 0 {
        seq![Seq::<char>::empty()]
    } else {
        let p = split_pieces(s.drop_last());
        if is_white_space(s.last()) {
            p.push(Seq::<char>::empty())
        } else {
            p.update(p.len() - 1, p.last().push(s.last()))
        }
    }
}

/// The texts of a list of strings.
pub open spec fn texts(v: Seq<String>) -> Seq<Seq<char>> {
    v.map_values(|s: String| s@)
}

/// Splits `text` at every whitespace character.
pub fn split_whitespace(text: &str) -> (pieces: Vec<String>)
    ensures
        texts(pieces@) == split_pieces(text@),
        pieces@.len() >= 1,
{
    let n = text.unicode_len();
    let mut pieces: Vec<String> = Vec::new();
    let mut start: usize = 0;
    assert(text@.take(0) =~= Seq::<char>::empty());
    assert(text@.subrange(0, 0) =~= Seq::<char>::empty());
    assert(texts(pieces@).push(Seq::<char>::empty()) =~= seq![Seq::<char>::empty()]);
    for i in 0..n
        invariant
            n == text@.len(),
            start <= i,
            split_pieces(text@.take(i as int)) == texts(pieces@).push(text@.subrange(start as int, i as int)),
    {
        let c = text.get_char(i);
        let ghost before = text@.take(i as int);
        assert(text@.take(i + 1).drop_last() =~= before);
        assert(text@.take(i + 1).last() == c);
        if is_whitespace(c) {
            let piece = String::from_str(text.substring_char(start, i));
            pieces.push(piece);
            start = i + 1;
            assert(texts(pieces@) =~= texts(pieces@.drop_last()).push(piece@));
            assert(text@.subrange(start as int, i + 1) =~= Seq::<char>::empty());
        } else {
            let ghost p = split_pieces(before);
            assert(text@.subrange(start as int, i + 1) =~= text@.subrange(start as int, i as int).push(c));
            assert(p.update(p.len() - 1, p.last().push(c)) =~= texts(pieces@).push(text@.subrange(start as int, i + 1)));
        }
    }
    assert(text@.take(n as int) =~= text@);
    let last = String::from_str(text.substring_char(start, n));
    pieces.push(last);
    assert(texts(pieces@) =~= texts(pieces@.drop_last()).push(last@));
    pieces
}

} // verus!
