//! Splitting and trimming of text.
use vstd::prelude::*;
use vstd::std_specs::iter::IteratorSpec;

verus! {

/// `String::push` appends one character.
pub assume_specification[ String::push ](s: &mut String, c: char)
    ensures
        final(s)@ == old(s)@.push(c),
;

/// Whether a character has the Unicode property `White_Space`.
pub uninterp spec fn is_whitespace(c: char) -> bool;

/// `char::is_whitespace`: the result is a function of the character alone.
#[verifier::external_body]
fn char_is_whitespace(c: char) -> (r: bool)
    ensures
        r == is_whitespace(c),
{
    c.is_whitespace()
}

/// For each character of a text, whether it is white space.
pub open spec fn blanks(s: Seq<char>) -> Seq<bool> {
    Seq::new(s.len(), |i: int| is_whitespace(s[i]))
}

/// How many blanks open a text.
pub open spec fn leading(blank: Seq<bool>) -> nat
    decreases blank.len(),
{
    if blank.len() > 0 && blank[0] {
        1 + leading(blank.drop_first())
    } else {
        0
    }
}

/// How many blanks close a text.
pub open spec fn trailing(blank: Seq<bool>) -> nat
    decreases blank.len(),
{
    if blank.len() > 0 && blank.last() {
        1 + trailing(blank.drop_last())
    } else {
        0
    }
}

/// Where a text starts and ends once the blanks at both ends are left out. A
/// text of blanks alone starts and ends at its end.
pub open spec fn trim_bounds(blank: Seq<bool>) -> (int, int) {
    if leading(blank) + trailing(blank) >= blank.len() {
        (blank.len() as int, blank.len() as int)
    } else {
        (leading(blank) as int, blank.len() - trailing(blank))
    }
}

/// A text without the white space at its ends.
pub open spec fn trimmed(s: Seq<char>) -> Seq<char> {
    s.subrange(trim_bounds(blanks(s)).0, trim_bounds(blanks(s)).1)
}

/// The pieces of a text between the occurrences of a separator. There is
/// always a first piece; two separators in a row, and a separator at either
/// end, give an empty piece.
pub open spec fn split(s: Seq<char>, separator: char) -> Seq<Seq<char>>
    decreases s.len(),
{
    if s.len() == 0 {
        seq![Seq::empty()]
    } else if s.last() == separator {
        split(s.drop_last(), separator).push(Seq::empty())
    } else {
        split(s.drop_last(), separator).update(
            split(s.drop_last(), separator).len() - 1,
            split(s.drop_last(), separator).last().push(s.last()),
        )
    }
}

/// The blanks that open a text are counted from its start: the first `n`
/// flags are set and the next, if there is one, is not.
pub proof fn lemma_leading(blank: Seq<bool>, n: int)
    requires
        0 <= n <= blank.len(),
        forall|i: int| 0 <= i < n ==> blank[i],
        n < blank.len() ==> !blank[n],
    ensures
        leading(blank) == n,
    decreases n,
{
    if n > 0 {
        lemma_leading(blank.drop_first(), n - 1);
    }
}

/// The blanks that close a text are counted from its end.
pub proof fn lemma_trailing(blank: Seq<bool>, n: int)
    requires
        0 <= n <= blank.len(),
        forall|i: int| blank.len() - n <= i < blank.len() ==> blank[i],
        n < blank.len() ==> !blank[blank.len() - 1 - n],
    ensures
        trailing(blank) == n,
    decreases n,
{
    if n > 0 {
        lemma_trailing(blank.drop_last(), n - 1);
    }
}

/// The characters of a text.
pub fn chars_of(s: &str) -> (r: Vec<char>)
    ensures
        r@ == s@,
{
    let mut r: Vec<char> = Vec::new();
    for c in it: s.chars()
        invariant
            it.seq() == s@,
            r@ == s@.take(it.index()),
    {
        r.push(c);
        assert(r@ =~= s@.take(it.index() + 1));
    }
    assert(s@.take(s@.len() as int) =~= s@);
    r
}

/// The text made of the characters from `start` up to `end`.
pub fn text_of(chars: &Vec<char>, start: usize, end: usize) -> (r: String)
    requires
        start <= end <= chars@.len(),
    ensures
        r@ == chars@.subrange(start as int, end as int),
{
    let mut r = String::new();
    let mut i: usize = start;
    while i < end
        invariant
            start <= i <= end <= chars@.len(),
            r@ == chars@.subrange(start as int, i as int),
        decreases end - i,
    {
        r.push(chars[i]);
        assert(r@ =~= chars@.subrange(start as int, i + 1));
        i += 1;
    }
    r
}

/// Where a text starts and ends once the blanks at both ends are left out,
/// given for each character whether it is a blank.
pub fn find_trim_bounds(blank: &Vec<bool>) -> (r: (usize, usize))
    ensures
        (r.0 as int, r.1 as int) == trim_bounds(blank@),
        r.0 <= r.1 <= blank@.len(),
{
    let n = blank.len();
    let mut start: usize = 0;
    while start < n && blank[start]
        invariant
            start <= n,
            n == blank@.len(),
            forall|i: int| 0 <= i < start ==> blank@[i],
        decreases n - start,
    {
        start += 1;
    }
    proof {
        lemma_leading(blank@, start as int);
    }
    let mut end: usize = n;
    while end > 0 && blank[end - 1]
        invariant
            end <= n,
            n == blank@.len(),
            forall|i: int| end <= i < n ==> blank@[i],
        decreases end,
    {
        end -= 1;
    }
    proof {
        lemma_trailing(blank@, n - end);
    }
    if start >= end {
        (n, n)
    } else {
        (start, end)
    }
}

/// A text without the white space at its ends.
pub fn trim(s: &str) -> (r: String)
    ensures
        r@ == trimmed(s@),
{
    let chars = chars_of(s);
    let mut blank: Vec<bool> = Vec::new();
    let mut i: usize = 0;
    while i < chars.len()
        invariant
            i <= chars@.len(),
            blank@.len() == i,
            forall|m: int| 0 <= m < i ==> blank@[m] == is_whitespace(chars@[m]),
        decreases chars@.len() - i,
    {
        blank.push(char_is_whitespace(chars[i]));
        i += 1;
    }
    assert(blank@ =~= blanks(s@));
    let (start, end) = find_trim_bounds(&blank);
    text_of(&chars, start, end)
}

/// The views of a list of texts.
pub open spec fn texts(v: Seq<String>) -> Seq<Seq<char>> {
    Seq::new(v.len(), |i: int| v[i]@)
}

/// The pieces of a text between the occurrences of a separator.
pub fn split_text(s: &str, separator: char) -> (pieces: Vec<String>)
    ensures
        texts(pieces@) == split(s@, separator),
        pieces@.len() >= 1,
{
    let mut pieces: Vec<String> = Vec::new();
    let mut current = String::new();
    for c in it: s.chars()
        invariant
            it.seq() == s@,
            texts(pieces@).push(current@) == split(s@.take(it.index()), separator),
    {
        let ghost done = texts(pieces@);
        let ghost open = current@;
        proof {
            assert(s@.take(it.index() + 1).drop_last() =~= s@.take(it.index()));
            assert(s@.take(it.index() + 1).last() == c);
        }
        if c == separator {
            pieces.push(current);
            current = String::new();
            assert(texts(pieces@).push(current@) =~= done.push(open).push(Seq::empty()));
        } else {
            current.push(c);
            assert(texts(pieces@).push(current@) =~= done.push(open).update(
                done.len() as int,
                open.push(c),
            ));
        }
    }
    let ghost done = texts(pieces@);
    pieces.push(current);
    proof {
        assert(s@.take(s@.len() as int) =~= s@);
        assert(texts(pieces@) =~= done.push(current@));
    }
    pieces
}

/// A text without the occurrences of one character.
pub open spec fn without(s: Seq<char>, c: char) -> Seq<char>
    decreases s.len(),
{
    if s.len() == 0 {
        Seq::empty()
    } else if s.last() == c {
        without(s.drop_last(), c)
    } else {
        without(s.drop_last(), c).push(s.last())
    }
}

/// A text without the occurrences of one character.
pub fn remove_char(s: &str, c: char) -> (r: String)
    ensures
        r@ == without(s@, c),
{
    let mut r = String::new();
    for x in it: s.chars()
        invariant
            it.seq() == s@,
            r@ == without(s@.take(it.index()), c),
    {
        proof {
            assert(s@.take(it.index() + 1).drop_last() =~= s@.take(it.index()));
            assert(s@.take(it.index() + 1).last() == x);
        }
        if x != c {
            r.push(x);
        }
    }
    assert(s@.take(s@.len() as int) =~= s@);
    r
}

/// The text opens with the pattern.
pub open spec fn is_prefix(pattern: Seq<char>, s: Seq<char>) -> bool {
    pattern.len() <= s.len() && s.take(pattern.len() as int) == pattern
}

/// A text without the occurrences of a pattern, found from left to right,
/// none overlapping another. Without a pattern the text stays as it is.
pub open spec fn without_all(s: Seq<char>, pattern: Seq<char>) -> Seq<char>
    decreases s.len(),
{
    if pattern.len() == 0 || s.len() == 0 {
        s
    } else if is_prefix(pattern, s) {
        without_all(s.skip(pattern.len() as int), pattern)
    } else {
        seq![s[0]] + without_all(s.drop_first(), pattern)
    }
}

/// The pieces of a text between the occurrences of a pattern, found from left
/// to right, none overlapping another. Without a pattern the text is its one
/// piece.
pub open spec fn split_on(s: Seq<char>, pattern: Seq<char>) -> Seq<Seq<char>>
    decreases s.len(),
{
    if pattern.len() == 0 || s.len() == 0 {
        seq![s]
    } else if is_prefix(pattern, s) {
        seq![Seq::empty()] + split_on(s.skip(pattern.len() as int), pattern)
    } else {
        split_on(s.drop_first(), pattern).update(0, seq![s[0]] + split_on(s.drop_first(), pattern)[0])
    }
}

/// A split on a pattern gives at least one piece.
pub proof fn lemma_split_on_nonempty(s: Seq<char>, pattern: Seq<char>)
    ensures
        split_on(s, pattern).len() >= 1,
    decreases s.len(),
{
    if !(pattern.len() == 0 || s.len() == 0) {
        if is_prefix(pattern, s) {
            lemma_split_on_nonempty(s.skip(pattern.len() as int), pattern);
        } else {
            lemma_split_on_nonempty(s.drop_first(), pattern);
        }
    }
}

/// Whether the pattern stands in the text at a position.
pub fn starts_at(chars: &Vec<char>, pattern: &Vec<char>, at: usize) -> (r: bool)
    requires
        at <= chars@.len(),
    ensures
        r == is_prefix(pattern@, chars@.skip(at as int)),
{
    if pattern.len() > chars.len() - at {
        return false;
    }
    let mut i: usize = 0;
    while i < pattern.len()
        invariant
            i <= pattern@.len(),
            at + pattern.len() <= chars.len(),
            forall|m: int| 0 <= m < i ==> chars@[at + m] == pattern@[m],
        decreases pattern@.len() - i,
    {
        if chars[at + i] != pattern[i] {
            assert(chars@.skip(at as int).take(pattern@.len() as int)[i as int] != pattern@[i as int]);
            return false;
        }
        i += 1;
    }
    assert(chars@.skip(at as int).take(pattern@.len() as int) =~= pattern@);
    true
}

/// Whether a text opens with a pattern.
pub fn starts_with(s: &str, pattern: &str) -> (r: bool)
    ensures
        r == is_prefix(pattern@, s@),
{
    let chars = chars_of(s);
    let pattern = chars_of(pattern);
    assert(chars@.skip(0) =~= chars@);
    starts_at(&chars, &pattern, 0)
}

/// A text without the occurrences of a pattern.
pub fn remove_all(s: &str, pattern: &str) -> (r: String)
    ensures
        r@ == without_all(s@, pattern@),
{
    let chars = chars_of(s);
    let pattern = chars_of(pattern);
    if pattern.len() == 0 {
        assert(chars@.subrange(0, chars@.len() as int) =~= chars@);
        return text_of(&chars, 0, chars.len());
    }
    let mut r = String::new();
    let mut j: usize = 0;
    assert(chars@.skip(0) =~= chars@);
    while j < chars.len()
        invariant
            j <= chars@.len(),
            pattern@.len() > 0,
            without_all(chars@, pattern@) == r@ + without_all(chars@.skip(j as int), pattern@),
        decreases chars@.len() - j,
    {
        let ghost rest = chars@.skip(j as int);
        let ghost shown = r@;
        if starts_at(&chars, &pattern, j) {
            assert(rest.skip(pattern@.len() as int) =~= chars@.skip(j + pattern@.len()));
            j += pattern.len();
        } else {
            r.push(chars[j]);
            proof {
                assert(rest.drop_first() =~= chars@.skip(j + 1));
                assert(r@ + without_all(chars@.skip(j + 1), pattern@) =~= shown + (seq![rest[0]] + without_all(
                    rest.drop_first(),
                    pattern@,
                )));
            }
            j += 1;
        }
    }
    assert(r@ + without_all(chars@.skip(j as int), pattern@) =~= r@);
    r
}

/// The pieces already closed, the piece that is open, and what the rest of
/// the text will add: its first piece goes on the open piece.
pub open spec fn glued(done: Seq<Seq<char>>, open: Seq<char>, rest: Seq<Seq<char>>) -> Seq<Seq<char>> {
    done + seq![open + rest[0]] + rest.skip(1)
}

/// The pieces of a text between the occurrences of a pattern.
pub fn split_on_text(s: &str, pattern: &str) -> (pieces: Vec<String>)
    ensures
        texts(pieces@) == split_on(s@, pattern@),
        pieces@.len() >= 1,
{
    let chars = chars_of(s);
    let pattern = chars_of(pattern);
    let mut pieces: Vec<String> = Vec::new();
    if pattern.len() == 0 {
        assert(chars@.subrange(0, chars@.len() as int) =~= chars@);
        pieces.push(text_of(&chars, 0, chars.len()));
        assert(texts(pieces@) =~= seq![chars@]);
        return pieces;
    }
    let mut current = String::new();
    let mut j: usize = 0;
    proof {
        assert(chars@.skip(0) =~= chars@);
        lemma_split_on_nonempty(chars@, pattern@);
        assert(glued(texts(pieces@), current@, split_on(chars@, pattern@)) =~= split_on(chars@, pattern@));
    }
    while j < chars.len()
        invariant
            j <= chars@.len(),
            pattern@.len() > 0,
            split_on(chars@, pattern@) == glued(
                texts(pieces@),
                current@,
                split_on(chars@.skip(j as int), pattern@),
            ),
        decreases chars@.len() - j,
    {
        let ghost rest = chars@.skip(j as int);
        let ghost done = texts(pieces@);
        let ghost open = current@;
        if starts_at(&chars, &pattern, j) {
            proof {
                assert(rest.skip(pattern@.len() as int) =~= chars@.skip(j + pattern@.len()));
                lemma_split_on_nonempty(chars@.skip(j + pattern@.len()), pattern@);
            }
            pieces.push(current);
            current = String::new();
            proof {
                let later = split_on(chars@.skip(j + pattern@.len()), pattern@);
                assert(texts(pieces@) =~= done.push(open));
                assert(glued(texts(pieces@), current@, later) =~= glued(done, open, seq![Seq::empty()] + later));
            }
            j += pattern.len();
        } else {
            current.push(chars[j]);
            proof {
                assert(rest.drop_first() =~= chars@.skip(j + 1));
                lemma_split_on_nonempty(chars@.skip(j + 1), pattern@);
                let later = split_on(chars@.skip(j + 1), pattern@);
                assert(current@ + later[0] =~= open + (seq![rest[0]] + later[0]));
                assert(later.update(0, seq![rest[0]] + later[0]).skip(1) =~= later.skip(1));
                assert(glued(done, current@, later) =~= glued(
                    done,
                    open,
                    later.update(0, seq![rest[0]] + later[0]),
                ));
            }
            j += 1;
        }
    }
    let ghost done = texts(pieces@);
    pieces.push(current);
    proof {
        assert(chars@.skip(j as int) =~= Seq::<char>::empty());
        assert(texts(pieces@) =~= glued(done, current@, seq![Seq::<char>::empty()]));
    }
    pieces
}

} // verus!
