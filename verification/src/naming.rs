//! Names derived from the names of entity shapes and of their fields.
use vstd::prelude::*;
use vstd::std_specs::iter::IteratorSpec;
use vstd::string::{StrSliceExecFns, StringExecFns};

use convert_case::{Case, Casing};

verus! {

/// The plural of a name: a final `y` becomes `ies`, anything else gets an `s`.
pub open spec fn plural(name: Seq<char>) -> Seq<char> {
    if name.last() == 'y' {
        name.drop_last() + seq!['i', 'e', 's']
    } else {
        name + seq!['s']
    }
}

/// Forms the plural of a name that is not empty.
pub fn singular_to_plural(name: &str) -> (r: String)
    requires
        name@.len() > 0,
    ensures
        r@ == plural(name@),
{
    let n = name.unicode_len();
    if name.get_char(n - 1) == 'y' {
        let stem = name.substring_char(0, n - 1);
        let r = String::from_str(stem).concat("ies");
        proof {
            reveal_strlit("ies");
            assert(r@ =~= plural(name@));
        }
        r
    } else {
        let r = String::from_str(name).concat("s");
        proof {
            reveal_strlit("s");
            assert(r@ =~= plural(name@));
        }
        r
    }
}

/// Whether a character has the Unicode property `Uppercase`.
pub uninterp spec fn is_uppercase(c: char) -> bool;

/// The first character of a character's lowercase mapping.
pub uninterp spec fn lowercase_of(c: char) -> char;

/// What one character of a name adds to its snake-case form: an uppercase
/// character gives its lowercase, after an underscore unless it opens the
/// name; any other character gives itself.
pub open spec fn snake_case_of_char(first: bool, c: char, upper: bool, lower: char) -> Seq<char> {
    if upper {
        if first {
            seq![lower]
        } else {
            seq!['_', lower]
        }
    } else {
        seq![c]
    }
}

/// The snake-case form of a name in Pascal case.
pub open spec fn snake_case(name: Seq<char>) -> Seq<char>
    decreases name.len(),
{
    if name.len() == 0 {
        Seq::empty()
    } else {
        snake_case(name.drop_last()) + snake_case_of_char(
            name.len() == 1,
            name.last(),
            is_uppercase(name.last()),
            lowercase_of(name.last()),
        )
    }
}

/// `char::is_uppercase`: the result is a function of the character alone.
#[verifier::external_body]
fn char_is_uppercase(c: char) -> (r: bool)
    ensures
        r == is_uppercase(c),
{
    c.is_uppercase()
}

/// `char::to_lowercase`, of which the first character is taken: the mapping
/// is a function of the character alone and is never empty.
#[verifier::external_body]
fn char_to_lowercase(c: char) -> (r: char)
    ensures
        r == lowercase_of(c),
{
    c.to_lowercase().next().unwrap()
}

/// Appends to `out` what one character of a name adds to the name's
/// snake-case form, given whether the character is uppercase and what its
/// lowercase is.
pub fn push_snake_case(out: &mut String, first: bool, c: char, upper: bool, lower: char)
    ensures
        final(out)@ == old(out)@ + snake_case_of_char(first, c, upper, lower),
{
    if upper {
        if !first {
            out.push('_');
        }
        out.push(lower);
    } else {
        out.push(c);
    }
    assert(out@ =~= old(out)@ + snake_case_of_char(first, c, upper, lower));
}

/// Turns a name in Pascal case into snake case: `SomeName` gives `some_name`.
pub fn pascal_case_to_snake_case(name: &str) -> (r: String)
    ensures
        r@ == snake_case(name@),
{
    let mut r = String::new();
    let mut first = true;
    for c in it: name.chars()
        invariant
            it.seq() == name@,
            first == (it.index() == 0),
            r@ == snake_case(name@.take(it.index())),
    {
        proof {
            assert(name@.take(it.index() + 1).drop_last() =~= name@.take(it.index()));
            assert(name@.take(it.index() + 1).last() == c);
        }
        push_snake_case(&mut r, first, c, char_is_uppercase(c), char_to_lowercase(c));
        first = false;
    }
    assert(name@.take(name@.len() as int) =~= name@);
    r
}

/// The name of the collection that holds the entities of a shape.
pub open spec fn collection_name(name: Seq<char>) -> Seq<char> {
    seq!['_', '_'] + name + seq!['C', 'o', 'l', 'l', 'e', 'c', 't', 'i', 'o', 'n']
}

/// Names the collection that holds the entities of a shape.
pub fn format_collection_name(name: &str) -> (r: String)
    ensures
        r@ == collection_name(name@),
{
    let r = String::from_str("__").concat(name).concat("Collection");
    proof {
        reveal_strlit("__");
        reveal_strlit("Collection");
        assert(r@ =~= collection_name(name@));
    }
    r
}

/// What `convert_case` makes of a string when asked for snake case.
pub uninterp spec fn converted_to_snake(name: Seq<char>) -> Seq<char>;

/// `Casing::to_case` with `Case::Snake`: the result is a function of the
/// string alone.
#[verifier::external_body]
fn to_snake(name: &str) -> (r: String)
    ensures
        r@ == converted_to_snake(name@),
{
    name.to_case(Case::Snake)
}

/// The name of the world's field for a collection, from the snake-case form
/// of the shape's name.
pub open spec fn field_name(snake: Seq<char>) -> Seq<char> {
    seq!['_', '_'] + snake
}

/// Names the world's field for a collection, given the snake-case form of
/// the shape's name.
pub fn field_name_of(snake: &str) -> (r: String)
    ensures
        r@ == field_name(snake@),
{
    let r = String::from_str("__").concat(snake);
    proof {
        reveal_strlit("__");
        assert(r@ =~= field_name(snake@));
    }
    r
}

/// Names the world's field for the collection of a shape.
pub fn format_field_name(name: &str) -> (r: String)
    ensures
        r@ == field_name(converted_to_snake(name@)),
{
    let snake = to_snake(name);
    field_name_of(snake.as_str())
}

} // verus!
