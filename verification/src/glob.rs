//! Wildcard matching of names against patterns with `*`.
//!
//! A pattern is cut at its stars into parts.  A text matches where it begins
//! with the first part, ends with the last part, and holds the parts between
//! them one after the other, without overlap, behind the first part.  The
//! last part is only held against the end of the text: it may overlap what
//! the other parts matched.

use crate::text::{
    begins_with, chars_of, ends_with, find_from, has_prefix, has_suffix, lemma_split_len, occurs_at,
    part_views, same_text, split_on, split_text,
};
use vstd::prelude::*;

verus! {

/// The parts of a pattern between its stars.  A pattern with `n` stars has
/// `n + 1` parts, some of which may be empty.
pub open spec fn split_star(pattern: Seq<char>) -> Seq<Seq<char>> {
    split_on(pattern, '*')
}

/// Whether the non-empty ones among `parts` occur in `text` in order and
/// without overlap, the first of them at `from` or later.
pub open spec fn in_order(text: Seq<char>, parts: Seq<Seq<char>>, from: int) -> bool
    decreases parts.len(),
{
    if parts.len() == 0 {
        true
    } else if parts[0].len() == 0 {
        in_order(text, parts.drop_first(), from)
    } else {
        exists|at: int|
            from <= at && #[trigger] occurs_at(text, parts[0], at) && in_order(
                text,
                parts.drop_first(),
                at + parts[0].len(),
            )
    }
}

/// Whether `text` matches `pattern`.
pub open spec fn glob_matches(pattern: Seq<char>, text: Seq<char>) -> bool {
    if pattern == seq!['*'] {
        true
    } else if !pattern.contains('*') {
        text == pattern
    } else {
        let parts = split_star(pattern);
        &&& begins_with(text, parts.first())
        &&& ends_with(text, parts.last())
        &&& in_order(text, parts.subrange(1, parts.len() - 1), parts.first().len() as int)
    }
}

/// Parts that occur in order from a place on occur in order from any
/// earlier place on.
proof fn lemma_in_order_earlier(text: Seq<char>, parts: Seq<Seq<char>>, from: int, earlier: int)
    requires
        in_order(text, parts, from),
        earlier <= from,
    ensures
        in_order(text, parts, earlier),
    decreases parts.len(),
{
    if parts.len() > 0 {
        if parts[0].len() == 0 {
            lemma_in_order_earlier(text, parts.drop_first(), from, earlier);
        } else {
            let at = choose|at: int|
                from <= at && #[trigger] occurs_at(text, parts[0], at) && in_order(
                    text,
                    parts.drop_first(),
                    at + parts[0].len(),
                );
            assert(earlier <= at && occurs_at(text, parts[0], at));
        }
    }
}

/// Taking the leftmost place for the first part loses nothing.
proof fn lemma_leftmost_suffices(text: Seq<char>, parts: Seq<Seq<char>>, from: int, leftmost: int)
    requires
        parts.len() > 0,
        parts[0].len() > 0,
        from <= leftmost,
        occurs_at(text, parts[0], leftmost),
        forall|p: int| from <= p < leftmost ==> !occurs_at(text, parts[0], p),
    ensures
        in_order(text, parts, from) == in_order(text, parts.drop_first(), leftmost + parts[0].len()),
{
    if in_order(text, parts, from) {
        let at = choose|at: int|
            from <= at && #[trigger] occurs_at(text, parts[0], at) && in_order(
                text,
                parts.drop_first(),
                at + parts[0].len(),
            );
        assert(leftmost <= at);
        lemma_in_order_earlier(
            text,
            parts.drop_first(),
            at + parts[0].len(),
            leftmost + parts[0].len(),
        );
    }
}

/// Tells whether `text` matches the pattern: `*` alone matches every text, a
/// pattern without a star matches itself only, and any other pattern matches
/// as `glob_matches` says.
pub fn glob_match(pattern: &str, text: &str) -> (r: bool)
    ensures
        r == glob_matches(pattern@, text@),
{
    let stars = chars_of(pattern);
    let subject = chars_of(text);
    if stars.len() == 1 && stars[0] == '*' {
        assert(stars@ =~= seq!['*']);
        return true;
    }
    assert(stars@ != seq!['*']) by {
        if stars@ == seq!['*'] {
            assert(stars@.len() == 1 && stars@[0] == '*');
        }
    }
    let parts = split_text(&stars, '*');
    proof {
        lemma_split_len(stars@, '*');
    }
    if parts.len() < 2 {
        return same_text(&subject, &stars);
    }
    let ghost views = part_views(parts@);
    let count = parts.len();
    assert(views.first() == parts@[0]@);
    assert(views.last() == parts@[count - 1]@);
    if !has_prefix(&subject, &parts[0]) {
        return false;
    }
    if !has_suffix(&subject, &parts[count - 1]) {
        return false;
    }
    let ghost middle = views.subrange(1, count - 1);
    let mut pos: usize = parts[0].len();
    let mut i: usize = 1;
    assert(middle.subrange(0, middle.len() as int) =~= middle);
    while i < count - 1
        invariant
            1 <= i <= count - 1,
            count == parts.len(),
            views == part_views(parts@),
            views == split_star(stars@),
            stars@ == pattern@,
            subject@ == text@,
            stars@ != seq!['*'],
            stars@.contains('*'),
            begins_with(subject@, views.first()),
            ends_with(subject@, views.last()),
            views.first() == parts@[0]@,
            middle == views.subrange(1, count - 1),
            pos <= subject.len(),
            in_order(subject@, middle, parts@[0]@.len() as int) == in_order(
                subject@,
                middle.subrange(i - 1, middle.len() as int),
                pos as int,
            ),
        decreases count - i,
    {
        let ghost rest = middle.subrange(i - 1, middle.len() as int);
        let part = &parts[i];
        proof {
            assert(rest[0] == part@);
            assert(rest.drop_first() =~= middle.subrange(i as int, middle.len() as int));
        }
        if part.len() > 0 {
            match find_from(&subject, part, pos) {
                None => {
                    assert(!in_order(subject@, rest, pos as int)) by {
                        if in_order(subject@, rest, pos as int) {
                            let at = choose|at: int|
                                pos <= at && #[trigger] occurs_at(subject@, rest[0], at) && in_order(
                                    subject@,
                                    rest.drop_first(),
                                    at + rest[0].len(),
                                );
                            assert(occurs_at(subject@, part@, at));
                        }
                    }
                    return false;
                },
                Some(at) => {
                    proof {
                        lemma_leftmost_suffices(subject@, rest, pos as int, at as int);
                    }
                    pos = at + part.len();
                },
            }
        }
        i += 1;
    }
    assert(middle.subrange(middle.len() as int, middle.len() as int) =~= Seq::<Seq<char>>::empty());
    true
}

} // verus!
