//! Text as a sequence of characters: searching, splitting, trimming, case and order.
//!
//! The rest of the library states what it does over `Seq<char>`. The functions here
//! carry those statements to the strings of std.

use vstd::prelude::*;
use vstd::slice::*;
use vstd::string::*;
use vstd::utf8::*;

verus! {

/// `String::push` of std appends one character to the end of the text.
pub assume_specification[ String::push ](string: &mut String, c: char)
    ensures
        final(string)@ == old(string)@.push(c),
;

/// Returns the characters of a text.
pub fn chars_of(text: &str) -> (chars: Vec<char>)
    ensures
        chars@ == text@,
{
    let mut chars: Vec<char> = Vec::new();
    for c in iter: text.chars()
        invariant
            chars@ == text@.take(iter.index() as int),
            iter.seq() == text@,
    {
        chars.push(c);
    }
    chars
}

/// Returns the text these characters make.
pub fn text_of(chars: &[char]) -> (text: String)
    ensures
        text@ == chars@,
{
    let mut text = String::new();
    let mut i: usize = 0;
    while i < chars.len()
        invariant
            i <= chars@.len(),
            text@ == chars@.take(i as int),
        decreases chars@.len() - i,
    {
        text.push(chars[i]);
        i += 1;
    }
    text
}

/// Returns whether two runs of characters are the same.
pub fn same_chars(a: &[char], b: &[char]) -> (same: bool)
    ensures
        same == (a@ == b@),
{
    if a.len() != b.len() {
        return false;
    }
    let mut i: usize = 0;
    while i < a.len()
        invariant
            i <= a@.len(),
            a@.len() == b@.len(),
            a@.take(i as int) == b@.take(i as int),
        decreases a@.len() - i,
    {
        if a[i] != b[i] {
            assert(a@[i as int] != b@[i as int]);
            return false;
        }
        assert(a@.take(i + 1) =~= a@.take(i as int).push(a@[i as int]));
        assert(b@.take(i + 1) =~= b@.take(i as int).push(b@[i as int]));
        i += 1;
    }
    assert(a@.take(i as int) =~= a@);
    assert(b@.take(i as int) =~= b@);
    true
}

/// Returns whether two texts are the same.
pub fn same_text(a: &str, b: &str) -> (same: bool)
    ensures
        same == (a@ == b@),
{
    let a = chars_of(a);
    let b = chars_of(b);
    same_chars(a.as_slice(), b.as_slice())
}

// --- Searching ---------------------------------------------------------------

/// The place of the first `c` in a text, or the length of the text when it holds none.
pub open spec fn first_index(text: Seq<char>, c: char) -> int
    decreases text.len(),
{
    if text.len() == 0 || text[0] == c {
        0
    } else {
        1 + first_index(text.drop_first(), c)
    }
}

/// The first `c` is where the text says: nothing before it is `c`.
pub proof fn lemma_first_index(text: Seq<char>, c: char)
    ensures
        0 <= first_index(text, c) <= text.len(),
        forall|i: int| 0 <= i < first_index(text, c) ==> text[i] != c,
        first_index(text, c) < text.len() ==> text[first_index(text, c)] == c,
        text.contains(c) <==> first_index(text, c) < text.len(),
    decreases text.len(),
{
    if text.len() != 0 && text[0] != c {
        let rest = text.drop_first();
        lemma_first_index(rest, c);
        assert forall|i: int| 0 <= i < first_index(text, c) implies text[i] != c by {
            if i > 0 {
                assert(text[i] == rest[i - 1]);
            }
        }
    }
}

/// The first index is the one place where `c` is and nothing before it is `c`.
pub proof fn lemma_first_index_is(text: Seq<char>, c: char, at: int)
    requires
        0 <= at <= text.len(),
        forall|i: int| 0 <= i < at ==> text[i] != c,
        at < text.len() ==> text[at] == c,
    ensures
        first_index(text, c) == at,
{
    lemma_first_index(text, c);
}

/// Returns the place of the first `c`, or the length when there is none.
pub fn find_char(text: &[char], c: char) -> (at: usize)
    ensures
        at == first_index(text@, c),
        at <= text@.len(),
{
    let mut i: usize = 0;
    while i < text.len() && text[i] != c
        invariant
            i <= text@.len(),
            forall|k: int| 0 <= k < i ==> text@[k] != c,
        decreases text@.len() - i,
    {
        i += 1;
    }
    proof {
        lemma_first_index_is(text@, c, i as int);
    }
    i
}

/// Whether `part` sits in `text` from this place on.
pub open spec fn has_at(text: Seq<char>, part: Seq<char>, at: int) -> bool {
    &&& 0 <= at
    &&& at + part.len() <= text.len()
    &&& text.subrange(at, at + part.len()) == part
}

/// Whether `part` sits anywhere in `text`.
pub open spec fn has_part(text: Seq<char>, part: Seq<char>) -> bool {
    exists|at: int| has_at(text, part, at)
}

/// Returns whether `part` sits in `text` from this place on.
pub fn part_at(text: &[char], part: &[char], at: usize) -> (found: bool)
    ensures
        found == has_at(text@, part@, at as int),
{
    if at > text.len() || part.len() > text.len() - at {
        return false;
    }
    let window = slice_subrange(text, at, at + part.len());
    same_chars(window, part)
}

/// Returns whether `part` sits anywhere in `text`.
pub fn holds_part(text: &[char], part: &[char]) -> (found: bool)
    ensures
        found == has_part(text@, part@),
{
    let mut at: usize = 0;
    while at < text.len()
        invariant
            at <= text@.len(),
            forall|k: int| 0 <= k < at ==> !has_at(text@, part@, k),
        decreases text@.len() - at,
    {
        if part_at(text, part, at) {
            assert(has_at(text@, part@, at as int));
            return true;
        }
        at += 1;
    }
    let found = part_at(text, part, at);
    assert(found ==> has_at(text@, part@, at as int));
    found
}

/// Returns whether a text starts with `part`.
pub fn starts_with(text: &[char], part: &[char]) -> (yes: bool)
    ensures
        yes == has_at(text@, part@, 0),
{
    part_at(text, part, 0)
}

/// Whether a text ends with `part`.
pub open spec fn has_end(text: Seq<char>, part: Seq<char>) -> bool {
    has_at(text, part, text.len() - part.len())
}

/// Returns whether a text ends with `part`.
pub fn ends_with(text: &[char], part: &[char]) -> (yes: bool)
    ensures
        yes == has_end(text@, part@),
{
    part.len() <= text.len() && part_at(text, part, text.len() - part.len())
}

// --- Splitting ---------------------------------------------------------------

/// The pieces of a text between its separators, the empty ones included.
pub open spec fn split(text: Seq<char>, sep: char) -> Seq<Seq<char>>
    decreases text.len(),
{
    if text.len() == 0 {
        seq![Seq::<char>::empty()]
    } else {
        let before = split(text.drop_last(), sep);
        if text.last() == sep {
            before.push(Seq::<char>::empty())
        } else {
            before.drop_last().push(before.last().push(text.last()))
        }
    }
}

/// The pieces written one after the other, with a separator between each two.
pub open spec fn join(pieces: Seq<Seq<char>>, sep: char) -> Seq<char>
    decreases pieces.len(),
{
    if pieces.len() == 0 {
        Seq::<char>::empty()
    } else if pieces.len() == 1 {
        pieces[0]
    } else {
        join(pieces.drop_last(), sep).push(sep) + pieces.last()
    }
}

/// There is always at least one piece.
pub proof fn lemma_split_nonempty(text: Seq<char>, sep: char)
    ensures
        split(text, sep).len() > 0,
    decreases text.len(),
{
    if text.len() > 0 {
        lemma_split_nonempty(text.drop_last(), sep);
    }
}

/// A text without the separator is its one piece.
pub proof fn lemma_split_one(text: Seq<char>, sep: char)
    requires
        !text.contains(sep),
    ensures
        split(text, sep) == seq![text],
    decreases text.len(),
{
    if text.len() > 0 {
        let short = text.drop_last();
        assert(!short.contains(sep)) by {
            if short.contains(sep) {
                let i = choose|i: int| 0 <= i < short.len() && short[i] == sep;
                assert(text[i] == sep);
            }
        }
        lemma_split_one(short, sep);
        assert(text.last() != sep) by {
            assert(text[text.len() - 1] == text.last());
        }
        assert(short.push(text.last()) =~= text);
        assert(split(text, sep) =~= seq![text]);
    } else {
        assert(text =~= Seq::<char>::empty());
    }
}

/// A separator divides the pieces before it from the pieces after it.
pub proof fn lemma_split_at(a: Seq<char>, b: Seq<char>, sep: char)
    ensures
        split(a.push(sep) + b, sep) == split(a, sep) + split(b, sep),
    decreases b.len(),
{
    let whole = a.push(sep) + b;
    if b.len() == 0 {
        assert(whole.drop_last() =~= a);
        assert(split(whole, sep) =~= split(a, sep) + split(b, sep));
    } else {
        lemma_split_at(a, b.drop_last(), sep);
        lemma_split_nonempty(b.drop_last(), sep);
        assert(whole.drop_last() =~= a.push(sep) + b.drop_last());
        assert(split(whole, sep) =~= split(a, sep) + split(b, sep));
    }
}

/// No piece holds the separator.
pub proof fn lemma_split_pieces(text: Seq<char>, sep: char)
    ensures
        forall|i: int| 0 <= i < split(text, sep).len() ==> !(#[trigger] split(text, sep)[i]).contains(sep),
    decreases text.len(),
{
    if text.len() > 0 {
        let before = split(text.drop_last(), sep);
        lemma_split_pieces(text.drop_last(), sep);
        lemma_split_nonempty(text.drop_last(), sep);
        assert forall|i: int| 0 <= i < split(text, sep).len() implies !(#[trigger] split(text, sep)[i]).contains(sep) by {
            let piece = split(text, sep)[i];
            if text.last() != sep && i == before.len() - 1 {
                assert(piece == before.last().push(text.last()));
                if piece.contains(sep) {
                    let k = choose|k: int| 0 <= k < piece.len() && piece[k] == sep;
                    assert(before.last()[k] == sep);
                    assert(before[i].contains(sep));
                }
            } else if i < before.len() {
                assert(piece == before[i]);
            }
        }
    }
}

/// Joining the pieces of a text gives the text back.
pub proof fn lemma_join_split(text: Seq<char>, sep: char)
    ensures
        join(split(text, sep), sep) == text,
    decreases text.len(),
{
    if text.len() > 0 {
        let before = split(text.drop_last(), sep);
        lemma_join_split(text.drop_last(), sep);
        lemma_split_nonempty(text.drop_last(), sep);
        let pieces = split(text, sep);
        if text.last() == sep {
            assert(pieces.drop_last() =~= before);
            assert(join(pieces, sep) =~= text);
        } else {
            if before.len() == 1 {
                assert(pieces.len() == 1);
                assert(join(before, sep) == before[0]);
                assert(join(pieces, sep) =~= text);
            } else {
                assert(pieces.drop_last() =~= before.drop_last());
                assert(pieces.last() == before.last().push(text.last()));
                assert(join(before, sep) == join(before.drop_last(), sep).push(sep) + before.last());
                assert(text =~= join(before, sep).push(text.last()));
                assert(join(pieces, sep) =~= text);
            }
        }
    }
}

/// What was joined starts with the first piece and its separator.
pub proof fn lemma_join_first(pieces: Seq<Seq<char>>, sep: char)
    requires
        pieces.len() > 1,
    ensures
        join(pieces, sep) == pieces[0].push(sep) + join(pieces.drop_first(), sep),
    decreases pieces.len(),
{
    let rest = pieces.drop_first();
    if pieces.len() == 2 {
        assert(pieces.drop_last() =~= seq![pieces[0]]);
        assert(rest =~= seq![pieces[1]]);
        assert(join(pieces.drop_last(), sep) == pieces[0]);
        assert(join(rest, sep) == pieces[1]);
    } else {
        lemma_join_first(pieces.drop_last(), sep);
        assert(pieces.drop_last().drop_first() =~= rest.drop_last());
        assert(join(rest, sep) == join(rest.drop_last(), sep).push(sep) + pieces.last());
        assert(join(pieces, sep) == join(pieces.drop_last(), sep).push(sep) + pieces.last());
    }
    assert(join(pieces, sep) =~= pieces[0].push(sep) + join(rest, sep));
}

/// A character in no piece, and not the separator, is not in what was joined.
pub proof fn lemma_join_lacks(pieces: Seq<Seq<char>>, sep: char, c: char)
    requires
        c != sep,
        forall|i: int| 0 <= i < pieces.len() ==> !(#[trigger] pieces[i]).contains(c),
    ensures
        !join(pieces, sep).contains(c),
    decreases pieces.len(),
{
    let whole = join(pieces, sep);
    if pieces.len() == 1 {
        assert(whole == pieces[0]);
    } else if pieces.len() > 1 {
        let short = pieces.drop_last();
        assert forall|i: int| 0 <= i < short.len() implies !(#[trigger] short[i]).contains(c) by {
            assert(short[i] == pieces[i]);
        }
        lemma_join_lacks(short, sep, c);
        let front = join(short, sep);
        if whole.contains(c) {
            let k = choose|k: int| 0 <= k < whole.len() && whole[k] == c;
            if k < front.len() {
                assert(front[k] == c);
            } else if k > front.len() {
                assert(pieces.last()[k - front.len() - 1] == c);
                assert(pieces[pieces.len() - 1].contains(c));
            }
        }
    }
}

/// Joining pieces that are not empty and do not hold the separator never puts two
/// separators in a row, nor one at an end.
pub proof fn lemma_join_ends(pieces: Seq<Seq<char>>, sep: char)
    requires
        pieces.len() > 0,
        forall|i: int|
            0 <= i < pieces.len() ==> (#[trigger] pieces[i]).len() > 0 && !pieces[i].contains(sep),
    ensures
        join(pieces, sep).len() > 0,
        join(pieces, sep)[0] != sep,
        join(pieces, sep).last() != sep,
        forall|i: int|
            #![trigger join(pieces, sep)[i]]
            0 <= i && i + 1 < join(pieces, sep).len() ==> !(join(pieces, sep)[i] == sep && join(
                pieces,
                sep,
            )[i + 1] == sep),
    decreases pieces.len(),
{
    let whole = join(pieces, sep);
    let end = pieces.last();
    assert(end == pieces[pieces.len() - 1]);
    assert forall|k: int| 0 <= k < end.len() implies end[k] != sep by {
        assert(end.contains(end[k]));
    }
    if pieces.len() > 1 {
        let short = pieces.drop_last();
        assert forall|i: int| 0 <= i < short.len() implies (#[trigger] short[i]).len() > 0
            && !short[i].contains(sep) by {
            assert(short[i] == pieces[i]);
        }
        lemma_join_ends(short, sep);
        let front = join(short, sep);
        assert(whole == front.push(sep) + end);
        assert(whole[0] == front[0]);
        assert forall|i: int| #![trigger whole[i]] 0 <= i && i + 1 < whole.len() implies !(whole[i]
            == sep && whole[i + 1] == sep) by {
            if i + 1 < front.len() {
                assert(front[i] == whole[i]);
                assert(front[i + 1] == whole[i + 1]);
            } else if i < front.len() {
                assert(whole[i] == front.last());
            } else {
                assert(whole[i + 1] == end[i + 1 - front.len() - 1]);
            }
        }
    } else {
        assert(whole == end);
    }
}

/// Splitting what was joined gives the pieces back, when no piece holds the separator.
pub proof fn lemma_split_join(pieces: Seq<Seq<char>>, sep: char)
    requires
        pieces.len() > 0,
        forall|i: int| 0 <= i < pieces.len() ==> !(#[trigger] pieces[i]).contains(sep),
    ensures
        split(join(pieces, sep), sep) == pieces,
    decreases pieces.len(),
{
    lemma_split_one(pieces.last(), sep);
    if pieces.len() > 1 {
        let short = pieces.drop_last();
        assert forall|i: int| 0 <= i < short.len() implies !(#[trigger] short[i]).contains(sep) by {
            assert(short[i] == pieces[i]);
        }
        lemma_split_join(short, sep);
        lemma_split_at(join(short, sep), pieces.last(), sep);
        assert(split(join(pieces, sep), sep) =~= pieces);
    } else {
        assert(split(join(pieces, sep), sep) =~= pieces);
    }
}

/// The characters each piece holds.
pub open spec fn chars_view(pieces: Seq<Vec<char>>) -> Seq<Seq<char>> {
    pieces.map_values(|piece: Vec<char>| piece@)
}

/// Returns the pieces of a text between its separators.
pub fn split_chars(text: &[char], sep: char) -> (pieces: Vec<Vec<char>>)
    ensures
        chars_view(pieces@) == split(text@, sep),
        pieces@.len() > 0,
{
    let mut pieces: Vec<Vec<char>> = Vec::new();
    let mut piece: Vec<char> = Vec::new();
    let mut i: usize = 0;
    while i < text.len()
        invariant
            i <= text@.len(),
            chars_view(pieces@).push(piece@) == split(text@.take(i as int), sep),
        decreases text@.len() - i,
    {
        let c = text[i];
        let ghost taken = text@.take(i + 1);
        assert(taken.drop_last() =~= text@.take(i as int));
        assert(taken.last() == c);
        let ghost before = chars_view(pieces@);
        let ghost last = piece@;
        if c == sep {
            pieces.push(piece);
            piece = Vec::new();
            assert(chars_view(pieces@) =~= before.push(last));
            assert(piece@ =~= Seq::<char>::empty());
        } else {
            piece.push(c);
            assert(before.push(last).drop_last() =~= before);
        }
        i += 1;
    }
    let ghost before = chars_view(pieces@);
    let ghost last = piece@;
    pieces.push(piece);
    assert(chars_view(pieces@) =~= before.push(last));
    assert(text@.take(i as int) =~= text@);
    pieces
}

/// The characters each text holds.
pub open spec fn texts_view(texts: Seq<String>) -> Seq<Seq<char>> {
    texts.map_values(|t: String| t@)
}

/// The characters each borrowed text holds.
pub open spec fn strs_view(texts: Seq<&str>) -> Seq<Seq<char>> {
    texts.map_values(|t: &str| t@)
}

/// The characters of an optional text, when there is one.
pub open spec fn option_view(t: Option<String>) -> Option<Seq<char>> {
    match t {
        Some(t) => Some(t@),
        None => None,
    }
}

/// Adding one more piece to what was joined.
pub proof fn lemma_join_push(pieces: Seq<Seq<char>>, piece: Seq<char>, sep: char)
    ensures
        join(pieces.push(piece), sep) == dotted(pieces, sep) + piece,
{
    let all = pieces.push(piece);
    assert(all.drop_last() =~= pieces);
    if pieces.len() == 0 {
        assert(dotted(pieces, sep) + piece =~= piece);
    }
}

/// The pieces written one after the other, with a separator after each.
pub open spec fn dotted(pieces: Seq<Seq<char>>, sep: char) -> Seq<char> {
    if pieces.len() == 0 {
        Seq::<char>::empty()
    } else {
        join(pieces, sep).push(sep)
    }
}

// --- Trimming ----------------------------------------------------------------

/// The characters with the Unicode `White_Space` property.
pub open spec fn is_space(c: char) -> bool {
    ||| '\u{9}' <= c <= '\u{d}'
    ||| c == ' ' || c == '\u{85}' || c == '\u{a0}' || c == '\u{1680}'
    ||| '\u{2000}' <= c <= '\u{200a}'
    ||| c == '\u{2028}' || c == '\u{2029}' || c == '\u{202f}' || c == '\u{205f}' || c == '\u{3000}'
}

/// The characters of the Unicode control category.
pub open spec fn is_control(c: char) -> bool {
    c <= '\u{1f}' || '\u{7f}' <= c <= '\u{9f}'
}

/// Returns whether a character is white space.
pub fn space(c: char) -> (yes: bool)
    ensures
        yes == is_space(c),
{
    ('\u{9}' <= c && c <= '\u{d}') || c == ' ' || c == '\u{85}' || c == '\u{a0}' || c == '\u{1680}' || (
    '\u{2000}' <= c && c <= '\u{200a}') || c == '\u{2028}' || c == '\u{2029}' || c == '\u{202f}' || c
        == '\u{205f}' || c == '\u{3000}'
}

/// Returns whether a character is a control character.
pub fn control(c: char) -> (yes: bool)
    ensures
        yes == is_control(c),
{
    c <= '\u{1f}' || ('\u{7f}' <= c && c <= '\u{9f}')
}

/// A text without the white space it starts with.
pub open spec fn trim_start(text: Seq<char>) -> Seq<char>
    decreases text.len(),
{
    if text.len() > 0 && is_space(text[0]) {
        trim_start(text.drop_first())
    } else {
        text
    }
}

/// A text without the white space it ends with.
pub open spec fn trim_end(text: Seq<char>) -> Seq<char>
    decreases text.len(),
{
    if text.len() > 0 && is_space(text.last()) {
        trim_end(text.drop_last())
    } else {
        text
    }
}

/// A text without the white space around it.
pub open spec fn trim(text: Seq<char>) -> Seq<char> {
    trim_end(trim_start(text))
}

/// Whether a text is white space and nothing else.
pub open spec fn all_space(text: Seq<char>) -> bool {
    forall|i: int| 0 <= i < text.len() ==> is_space(#[trigger] text[i])
}

/// White space before a text does not change what is left.
proof fn lemma_trim_start_around(before: Seq<char>, text: Seq<char>)
    requires
        all_space(before),
    ensures
        trim_start(before + text) == trim_start(text),
    decreases before.len(),
{
    if before.len() == 0 {
        assert(before + text =~= text);
    } else {
        assert((before + text)[0] == before[0]);
        assert((before + text).drop_first() =~= before.drop_first() + text);
        lemma_trim_start_around(before.drop_first(), text);
    }
}

/// White space after a text does not change what is left.
proof fn lemma_trim_end_around(text: Seq<char>, after: Seq<char>)
    requires
        all_space(after),
    ensures
        trim_end(text + after) == trim_end(text),
    decreases after.len(),
{
    if after.len() == 0 {
        assert(text + after =~= text);
    } else {
        assert((text + after).last() == after.last());
        assert((text + after).drop_last() =~= text + after.drop_last());
        lemma_trim_end_around(text, after.drop_last());
    }
}

/// A text that neither starts nor ends with white space is what is left of it with white
/// space around it.
pub proof fn lemma_trim_around(before: Seq<char>, text: Seq<char>, after: Seq<char>)
    requires
        all_space(before),
        all_space(after),
        text.len() > 0,
        !is_space(text[0]),
        !is_space(text.last()),
    ensures
        trim(before + text + after) == text,
{
    assert(before + text + after =~= before + (text + after));
    lemma_trim_start_around(before, text + after);
    assert((text + after)[0] == text[0]);
    lemma_trim_end_around(text, after);
}

/// A text without the run of `c` it starts with.
pub open spec fn drop_head(text: Seq<char>, c: char) -> Seq<char>
    decreases text.len(),
{
    if text.len() > 0 && text[0] == c {
        drop_head(text.drop_first(), c)
    } else {
        text
    }
}

/// A text without the run of `c` it ends with.
pub open spec fn drop_tail(text: Seq<char>, c: char) -> Seq<char>
    decreases text.len(),
{
    if text.len() > 0 && text.last() == c {
        drop_tail(text.drop_last(), c)
    } else {
        text
    }
}

/// Returns where a text starts and ends without the white space around it.
pub fn trim_bounds(text: &[char]) -> (bounds: (usize, usize))
    ensures
        bounds.0 <= bounds.1 <= text@.len(),
        text@.subrange(bounds.0 as int, bounds.1 as int) == trim(text@),
{
    let mut from: usize = 0;
    assert(text@.skip(0) =~= text@);
    while from < text.len() && space(text[from])
        invariant
            from <= text@.len(),
            trim_start(text@) == trim_start(text@.skip(from as int)),
        decreases text@.len() - from,
    {
        assert(text@.skip(from as int).drop_first() =~= text@.skip(from + 1));
        from += 1;
    }
    let ghost started = text@.skip(from as int);
    assert(started == trim_start(text@));
    let mut to: usize = text.len();
    assert(text@.subrange(from as int, to as int) =~= started);
    while to > from && space(text[to - 1])
        invariant
            from <= to <= text@.len(),
            trim_end(started) == trim_end(text@.subrange(from as int, to as int)),
        decreases to,
    {
        let ghost now = text@.subrange(from as int, to as int);
        assert(now.last() == text@[to - 1]);
        assert(now.drop_last() =~= text@.subrange(from as int, to - 1));
        to -= 1;
    }
    proof {
        let now = text@.subrange(from as int, to as int);
        if now.len() > 0 {
            assert(now.last() == text@[to - 1]);
        }
    }
    (from, to)
}

/// Returns the characters without the white space around them.
pub fn trim_chars(text: &[char]) -> (trimmed: &[char])
    ensures
        trimmed@ == trim(text@),
{
    let (from, to) = trim_bounds(text);
    slice_subrange(text, from, to)
}

/// Returns the characters without the run of `c` they start with.
pub fn drop_head_chars(text: &[char], c: char) -> (rest: &[char])
    ensures
        rest@ == drop_head(text@, c),
{
    let mut from: usize = 0;
    assert(text@.skip(0) =~= text@);
    while from < text.len() && text[from] == c
        invariant
            from <= text@.len(),
            drop_head(text@, c) == drop_head(text@.skip(from as int), c),
        decreases text@.len() - from,
    {
        assert(text@.skip(from as int).drop_first() =~= text@.skip(from + 1));
        from += 1;
    }
    assert(text@.skip(from as int) =~= text@.subrange(from as int, text@.len() as int));
    slice_subrange(text, from, text.len())
}

/// Returns the characters without the run of `c` they end with.
pub fn drop_tail_chars(text: &[char], c: char) -> (rest: &[char])
    ensures
        rest@ == drop_tail(text@, c),
{
    let mut to: usize = text.len();
    assert(text@.take(to as int) =~= text@);
    while to > 0 && text[to - 1] == c
        invariant
            to <= text@.len(),
            drop_tail(text@, c) == drop_tail(text@.take(to as int), c),
        decreases to,
    {
        assert(text@.take(to as int).drop_last() =~= text@.take(to - 1));
        to -= 1;
    }
    assert(text@.take(to as int) =~= text@.subrange(0, to as int));
    slice_subrange(text, 0, to)
}

// --- Case --------------------------------------------------------------------

/// The small letter of an ASCII capital, and any other character as it is.
pub open spec fn ascii_lower(c: char) -> char {
    if 'A' <= c <= 'Z' {
        (c as u8 + 32) as char
    } else {
        c
    }
}

/// The capital of a small ASCII letter, and any other character as it is.
pub open spec fn ascii_upper(c: char) -> char {
    if 'a' <= c <= 'z' {
        (c as u8 - 32) as char
    } else {
        c
    }
}

/// What `str::to_lowercase` of std gives for a text.
pub uninterp spec fn unicode_lower(text: Seq<char>) -> Seq<char>;

/// What `str::to_uppercase` of std gives for a text.
pub uninterp spec fn unicode_upper(text: Seq<char>) -> Seq<char>;

/// A text in small letters.
pub open spec fn lower(text: Seq<char>) -> Seq<char> {
    if is_ascii_chars(text) {
        text.map_values(|c: char| ascii_lower(c))
    } else {
        unicode_lower(text)
    }
}

/// A text in capitals.
pub open spec fn upper(text: Seq<char>) -> Seq<char> {
    if is_ascii_chars(text) {
        text.map_values(|c: char| ascii_upper(c))
    } else {
        unicode_upper(text)
    }
}

/// `str::to_lowercase` of std, by the Unicode mapping.
///
/// The result rests on the text alone. For ASCII text it is the text with each
/// capital `A` to `Z` made small. No ASCII capital is left in the result.
#[verifier::external_body]
pub(crate) fn to_lower(text: &str) -> (small: String)
    ensures
        !is_ascii_chars(text@) ==> small@ == unicode_lower(text@),
        is_ascii_chars(text@) ==> small@ == text@.map_values(|c: char| ascii_lower(c)),
        forall|i: int| 0 <= i < small@.len() ==> !('A' <= #[trigger] small@[i] <= 'Z'),
{
    text.to_lowercase()
}

/// `str::to_uppercase` of std, by the Unicode mapping.
///
/// The result rests on the text alone. For ASCII text it is the text with each small
/// letter `a` to `z` made a capital.
#[verifier::external_body]
pub(crate) fn to_upper(text: &str) -> (capitals: String)
    ensures
        !is_ascii_chars(text@) ==> capitals@ == unicode_upper(text@),
        is_ascii_chars(text@) ==> capitals@ == text@.map_values(|c: char| ascii_upper(c)),
{
    text.to_uppercase()
}

// --- Order -------------------------------------------------------------------

/// Whether one text comes before another: by the first character that differs, and
/// else the shorter one first.
///
/// This is how std orders strings: by the code points of their characters.
pub open spec fn text_before(a: Seq<char>, b: Seq<char>) -> bool
    decreases a.len(),
{
    if b.len() == 0 {
        false
    } else if a.len() == 0 {
        true
    } else if a[0] == b[0] {
        text_before(a.drop_first(), b.drop_first())
    } else {
        a[0] < b[0]
    }
}

/// No text comes before itself.
pub proof fn lemma_before_irreflexive(a: Seq<char>)
    ensures
        !text_before(a, a),
    decreases a.len(),
{
    if a.len() > 0 {
        lemma_before_irreflexive(a.drop_first());
    }
}

/// A text before one that is before a third is before the third.
pub proof fn lemma_before_transitive(a: Seq<char>, b: Seq<char>, c: Seq<char>)
    requires
        text_before(a, b),
        text_before(b, c),
    ensures
        text_before(a, c),
    decreases a.len(),
{
    if a.len() > 0 && b.len() > 0 && c.len() > 0 && a[0] == b[0] && b[0] == c[0] {
        lemma_before_transitive(a.drop_first(), b.drop_first(), c.drop_first());
    }
}

/// Of two texts, one comes before the other unless they are the same.
pub proof fn lemma_before_total(a: Seq<char>, b: Seq<char>)
    ensures
        text_before(a, b) || text_before(b, a) || a == b,
    decreases a.len(),
{
    if a.len() > 0 && b.len() > 0 {
        if a[0] == b[0] {
            lemma_before_total(a.drop_first(), b.drop_first());
            if a.drop_first() == b.drop_first() {
                assert(a =~= seq![a[0]] + a.drop_first());
                assert(b =~= seq![b[0]] + b.drop_first());
            }
        }
    } else if a.len() == 0 && b.len() == 0 {
        assert(a =~= b);
    }
}

/// Returns whether one text comes before another.
pub fn before(a: &str, b: &str) -> (yes: bool)
    ensures
        yes == text_before(a@, b@),
{
    let x = chars_of(a);
    let y = chars_of(b);
    let mut i: usize = 0;
    assert(x@.skip(0) =~= x@);
    assert(y@.skip(0) =~= y@);
    while i < x.len() && i < y.len()
        invariant
            x@ == a@,
            y@ == b@,
            i <= x@.len(),
            i <= y@.len(),
            text_before(x@, y@) == text_before(x@.skip(i as int), y@.skip(i as int)),
        decreases x@.len() - i,
    {
        if x[i] != y[i] {
            return x[i] < y[i];
        }
        assert(x@.skip(i as int).drop_first() =~= x@.skip(i + 1));
        assert(y@.skip(i as int).drop_first() =~= y@.skip(i + 1));
        i += 1;
    }
    i < y.len()
}

// --- UTF-8 -------------------------------------------------------------------

/// `String::from_utf8` of std: the text these bytes spell, or `None` when they are not
/// UTF-8.
#[verifier::external_body]
pub(crate) fn text_from_utf8(bytes: Vec<u8>) -> (text: Option<String>)
    ensures
        text is Some <==> valid_utf8(bytes@),
        text matches Some(text) ==> text@ == decode_utf8(bytes@),
{
    String::from_utf8(bytes).ok()
}

// --- What the readers of text promise ----------------------------------------

/// The characters that are white space, by their code points.
pub proof fn law_white_space(c: char)
    ensures
        is_space(c) <==> {
            let n = c as u32;
            ||| n == 0x09 || n == 0x0a || n == 0x0b || n == 0x0c || n == 0x0d || n == 0x20
            ||| n == 0x85 || n == 0xa0 || n == 0x1680
            ||| 0x2000 <= n <= 0x200a
            ||| n == 0x2028 || n == 0x2029 || n == 0x202f || n == 0x205f || n == 0x3000
        },
        is_control(c) <==> {
            let n = c as u32;
            n < 0x20 || 0x7f <= n < 0xa0
        },
{
}

/// Trimming leaves a text that neither starts nor ends with white space as it is, and
/// takes away all white space around it.
pub proof fn law_trimming_leaves_the_middle(before: Seq<char>, middle: Seq<char>, after: Seq<char>)
    requires
        forall|i: int| 0 <= i < before.len() ==> is_space(#[trigger] before[i]),
        forall|i: int| 0 <= i < after.len() ==> is_space(#[trigger] after[i]),
        middle.len() > 0 ==> !is_space(middle[0]) && !is_space(middle.last()),
    ensures
        trim(before + middle + after) == middle,
{
    if middle.len() > 0 {
        lemma_trim_around(before, middle, after);
    } else {
        let all = before + after;
        assert(before + middle + after =~= all + middle);
        assert forall|i: int| 0 <= i < all.len() implies is_space(#[trigger] all[i]) by {
            if i >= before.len() {
                assert(all[i] == after[i - before.len()]);
            }
        }
        lemma_trim_start_around(all, middle);
        assert(trim_start(middle) == middle);
        assert(trim_end(middle) == middle);
    }
}

/// A run of one character before a text is dropped whole, and nothing else is.
pub proof fn law_run_before_is_dropped(run: Seq<char>, rest: Seq<char>, c: char)
    requires
        forall|i: int| 0 <= i < run.len() ==> #[trigger] run[i] == c,
        rest.len() > 0 ==> rest[0] != c,
    ensures
        drop_head(run + rest, c) == rest,
    decreases run.len(),
{
    if run.len() == 0 {
        assert(run + rest =~= rest);
    } else {
        assert((run + rest)[0] == run[0]);
        assert((run + rest).drop_first() =~= run.drop_first() + rest);
        law_run_before_is_dropped(run.drop_first(), rest, c);
    }
}

/// A run of one character after a text is dropped whole, and nothing else is.
pub proof fn law_run_after_is_dropped(rest: Seq<char>, run: Seq<char>, c: char)
    requires
        forall|i: int| 0 <= i < run.len() ==> #[trigger] run[i] == c,
        rest.len() > 0 ==> rest.last() != c,
    ensures
        drop_tail(rest + run, c) == rest,
    decreases run.len(),
{
    if run.len() == 0 {
        assert(rest + run =~= rest);
    } else {
        assert((rest + run).last() == run.last());
        assert((rest + run).drop_last() =~= rest + run.drop_last());
        law_run_after_is_dropped(rest, run.drop_last(), c);
    }
}

/// The case of an ASCII text: each letter is moved by 32 code points, and nothing else
/// changes.
pub proof fn law_ascii_case(t: Seq<char>, i: int)
    requires
        is_ascii_chars(t),
        0 <= i < t.len(),
    ensures
        lower(t).len() == t.len(),
        upper(t).len() == t.len(),
        lower(t)[i] as u32 == (if 65 <= t[i] as u32 <= 90 {
            t[i] as u32 + 32
        } else {
            t[i] as int
        }),
        upper(t)[i] as u32 == (if 97 <= t[i] as u32 <= 122 {
            t[i] as u32 - 32
        } else {
            t[i] as int
        }),
{
    let c = t[i];
    if 65 <= c as u32 <= 90 {
        assert((c as u8 + 32) as char as u32 == c as u32 + 32);
    }
    if 97 <= c as u32 <= 122 {
        assert((c as u8 - 32) as char as u32 == c as u32 - 32);
    }
}

/// Text outside ASCII has the case that Unicode gives it.
pub proof fn law_unicode_case(t: Seq<char>)
    requires
        !is_ascii_chars(t),
    ensures
        lower(t) == unicode_lower(t),
        upper(t) == unicode_upper(t),
{
}

/// Whether one text comes before another at this place: they agree before it, and there
/// the first one ends or has the lower character.
pub open spec fn differ_at(a: Seq<char>, b: Seq<char>, k: int) -> bool {
    &&& 0 <= k <= a.len()
    &&& k < b.len()
    &&& forall|i: int| 0 <= i < k ==> #[trigger] a[i] == b[i]
    &&& k == a.len() || a[k] < b[k]
}

/// Texts are in the order of a dictionary by code point: the first place where they
/// differ decides, and a text comes before every longer text that starts with it.
pub proof fn law_dictionary_order(a: Seq<char>, b: Seq<char>)
    ensures
        text_before(a, b) <==> exists|k: int| #[trigger] differ_at(a, b, k),
    decreases a.len(),
{
    if a.len() > 0 && b.len() > 0 && a[0] == b[0] {
        let x = a.drop_first();
        let y = b.drop_first();
        law_dictionary_order(x, y);
        if text_before(x, y) {
            let k = choose|k: int| #[trigger] differ_at(x, y, k);
            assert forall|i: int| 0 <= i < k + 1 implies #[trigger] a[i] == b[i] by {
                if i > 0 {
                    assert(x[i - 1] == y[i - 1]);
                }
            }
            assert(differ_at(a, b, k + 1));
        }
        if exists|k: int| #[trigger] differ_at(a, b, k) {
            let k = choose|k: int| #[trigger] differ_at(a, b, k);
            assert forall|i: int| 0 <= i < k - 1 implies #[trigger] x[i] == y[i] by {
                assert(a[i + 1] == b[i + 1]);
            }
            assert(differ_at(x, y, k - 1));
        }
    } else {
        if text_before(a, b) {
            assert(differ_at(a, b, 0));
        }
        if exists|k: int| #[trigger] differ_at(a, b, k) {
            let k = choose|k: int| #[trigger] differ_at(a, b, k);
            if k > 0 {
                assert(a[0] == b[0]);
            }
        }
    }
}

/// A part is in a text exactly where its characters are, one by one.
pub proof fn law_parts_are_found(text: Seq<char>, part: Seq<char>, at: int)
    ensures
        has_at(text, part, at) <==> 0 <= at && at + part.len() <= text.len() && forall|i: int|
            0 <= i < part.len() ==> #[trigger] part[i] == text[at + i],
        has_at(text, part, at) ==> has_part(text, part),
        has_part(text, part) ==> exists|k: int|
            0 <= k && k + part.len() <= text.len() && #[trigger] text.subrange(k, k + part.len()) == part,
        has_end(text, part) <==> exists|front: Seq<char>| text == #[trigger] (front + part),
{
    if 0 <= at && at + part.len() <= text.len() {
        let window = text.subrange(at, at + part.len());
        if forall|i: int| 0 <= i < part.len() ==> #[trigger] part[i] == text[at + i] {
            assert(window =~= part);
        }
        if window == part {
            assert forall|i: int| 0 <= i < part.len() implies #[trigger] part[i] == text[at + i] by {
                assert(window[i] == text[at + i]);
            }
        }
    }
    if has_part(text, part) {
        let k = choose|k: int| has_at(text, part, k);
        assert(text.subrange(k, k + part.len()) == part);
    }
    if has_end(text, part) {
        let front = text.take(text.len() - part.len());
        assert(text =~= front + part);
    }
    if exists|front: Seq<char>| text == #[trigger] (front + part) {
        let front = choose|front: Seq<char>| text == #[trigger] (front + part);
        assert(text.subrange(front.len() as int, text.len() as int) =~= part);
    }
}

/// The pieces of a text: a text without a separator is its one piece, and a separator
/// stands between the pieces before it and the pieces after it.
pub proof fn law_pieces(piece: Seq<char>, rest: Seq<char>, sep: char)
    requires
        !piece.contains(sep),
    ensures
        split(piece, sep) == seq![piece],
        split(piece.push(sep) + rest, sep) == seq![piece] + split(rest, sep),
        join(seq![piece], sep) == piece,
        join(seq![piece] + split(rest, sep), sep) == piece.push(sep) + rest,
{
    lemma_split_one(piece, sep);
    lemma_split_at(piece, rest, sep);
    lemma_split_nonempty(rest, sep);
    let all = seq![piece] + split(rest, sep);
    lemma_join_first(all, sep);
    assert(all.drop_first() =~= split(rest, sep));
    lemma_join_split(rest, sep);
}

/// One piece is its own text.
pub proof fn law_pieces_of_one(piece: Seq<char>, sep: char)
    ensures
        join(seq![piece], sep) == piece,
{
    assert(seq![piece].drop_last() =~= Seq::<Seq<char>>::empty());
    assert(join(seq![piece], sep) =~= piece);
}

/// A list of texts is seen text by text.
pub proof fn law_lists_of_text_are_seen_whole(
    texts: Seq<String>,
    borrowed: Seq<&str>,
    pieces: Seq<Vec<char>>,
    i: int,
)
    ensures
        texts_view(texts).len() == texts.len(),
        0 <= i < texts.len() ==> texts_view(texts)[i] == texts[i]@,
        strs_view(borrowed).len() == borrowed.len(),
        0 <= i < borrowed.len() ==> strs_view(borrowed)[i] == borrowed[i]@,
        chars_view(pieces).len() == pieces.len(),
        0 <= i < pieces.len() ==> chars_view(pieces)[i] == pieces[i]@,
{
}

/// A text has one piece exactly when it holds no separator, and three or more when it
/// holds two.
pub proof fn law_how_many_pieces(t: Seq<char>, sep: char, i: int, j: int)
    ensures
        split(t, sep).len() == 1 <==> !t.contains(sep),
        0 <= i < j < t.len() && t[i] == sep && t[j] == sep ==> split(t, sep).len() >= 3,
{
    lemma_split_nonempty(t, sep);
    if t.contains(sep) {
        let at = choose|at: int| 0 <= at < t.len() && t[at] == sep;
        let a = t.take(at);
        let b = t.skip(at + 1);
        assert(t =~= a.push(sep) + b);
        lemma_split_at(a, b, sep);
        lemma_split_nonempty(a, sep);
        lemma_split_nonempty(b, sep);
    } else {
        lemma_split_one(t, sep);
    }
    if 0 <= i < j < t.len() && t[i] == sep && t[j] == sep {
        let a = t.take(i);
        let b = t.subrange(i + 1, j);
        let c = t.skip(j + 1);
        assert(t =~= a.push(sep) + (b.push(sep) + c));
        lemma_split_at(a, b.push(sep) + c, sep);
        lemma_split_at(b, c, sep);
        lemma_split_nonempty(a, sep);
        lemma_split_nonempty(b, sep);
        lemma_split_nonempty(c, sep);
    }
}

/// Pieces are joined one after the other, with the separator between each two.
pub proof fn law_pieces_are_joined(pieces: Seq<Seq<char>>, piece: Seq<char>, sep: char)
    ensures
        join(Seq::<Seq<char>>::empty(), sep) == Seq::<char>::empty(),
        pieces.len() > 0 ==> join(pieces.push(piece), sep) == join(pieces, sep) + seq![sep] + piece,
{
    assert(pieces.push(piece).drop_last() =~= pieces);
    if pieces.len() > 0 {
        assert(join(pieces.push(piece), sep) =~= join(pieces, sep) + seq![sep] + piece);
    }
}

/// A text that may be missing is seen as it is, or as missing.
pub proof fn law_missing_text_is_seen(value: Option<String>)
    ensures
        value is None ==> option_view(value) is None,
        value matches Some(t) ==> option_view(value) == Some(t@),
{
}

} // verus!
