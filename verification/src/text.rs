//! Searching in texts, character by character.

use vstd::prelude::*;

verus! {

broadcast use vstd::string::group_string_axioms;

/// Whether `needle` occurs in `text` starting at position `at`.
pub open spec fn occurs_at(text: Seq<char>, needle: Seq<char>, at: int) -> bool {
    &&& 0 <= at
    &&& at + needle.len() <= text.len()
    &&& text.subrange(at, at + needle.len()) == needle
}

/// Whether `needle` occurs in `text` at some position from `from` on.
pub open spec fn occurs_from(text: Seq<char>, needle: Seq<char>, from: int) -> bool {
    exists|at: int| from <= at && #[trigger] occurs_at(text, needle, at)
}

/// Whether `needle` occurs somewhere in `text`.
pub open spec fn occurs_in(text: Seq<char>, needle: Seq<char>) -> bool {
    occurs_from(text, needle, 0)
}

/// Whether `text` begins with `prefix`.
pub open spec fn begins_with(text: Seq<char>, prefix: Seq<char>) -> bool {
    occurs_at(text, prefix, 0)
}

/// Whether `text` ends with `suffix`.
pub open spec fn ends_with(text: Seq<char>, suffix: Seq<char>) -> bool {
    occurs_at(text, suffix, text.len() - suffix.len())
}

/// The characters of a string.
pub fn chars_of(text: &str) -> (chars: Vec<char>)
    ensures
        chars@ == text@,
{
    let mut chars: Vec<char> = Vec::new();
    for c in it: text.chars()
        invariant
            it.seq() == text@,
            chars@ == it.seq().subrange(0, it.index() as int),
    {
        chars.push(c);
        assert(chars@ =~= it.seq().subrange(0, it.index() + 1));
    }
    assert(chars@ =~= text@);
    chars
}

/// Tells whether `needle` occurs in `text` at `at`.
pub fn matches_at(text: &Vec<char>, needle: &Vec<char>, at: usize) -> (r: bool)
    ensures
        r == occurs_at(text@, needle@, at as int),
{
    if at > text.len() || needle.len() > text.len() - at {
        return false;
    }
    let mut i: usize = 0;
    while i < needle.len()
        invariant
            i <= needle.len(),
            at + needle.len() <= text.len(),
            forall|j: int| 0 <= j < i ==> text@[at + j] == needle@[j],
        decreases needle.len() - i,
    {
        if text[at + i] != needle[i] {
            assert(text@.subrange(at as int, at + needle.len())[i as int] != needle@[i as int]);
            return false;
        }
        i += 1;
    }
    assert(text@.subrange(at as int, at + needle.len()) =~= needle@);
    true
}

/// The first position from `from` on at which `needle` occurs in `text`.
pub fn find_from(text: &Vec<char>, needle: &Vec<char>, from: usize) -> (r: Option<usize>)
    ensures
        match r {
            Some(at) => from <= at && occurs_at(text@, needle@, at as int) && forall|p: int|
                from <= p < at ==> !occurs_at(text@, needle@, p),
            None => !occurs_from(text@, needle@, from as int),
        },
{
    if from > text.len() || needle.len() > text.len() - from {
        return None;
    }
    let last = text.len() - needle.len();
    let mut at: usize = from;
    loop
        invariant
            from <= at <= last,
            last == text.len() - needle.len(),
            forall|p: int| from <= p < at ==> !occurs_at(text@, needle@, p),
        decreases last - at,
    {
        if matches_at(text, needle, at) {
            return Some(at);
        }
        if at == last {
            return None;
        }
        at += 1;
    }
}

/// Tells whether `needle` occurs somewhere in `text`.
pub fn contains_text(text: &Vec<char>, needle: &Vec<char>) -> (r: bool)
    ensures
        r == occurs_in(text@, needle@),
{
    find_from(text, needle, 0).is_some()
}

/// Tells whether `text` begins with `prefix`.
pub fn has_prefix(text: &Vec<char>, prefix: &Vec<char>) -> (r: bool)
    ensures
        r == begins_with(text@, prefix@),
{
    matches_at(text, prefix, 0)
}

/// Tells whether `text` ends with `suffix`.
pub fn has_suffix(text: &Vec<char>, suffix: &Vec<char>) -> (r: bool)
    ensures
        r == ends_with(text@, suffix@),
{
    if suffix.len() > text.len() {
        return false;
    }
    matches_at(text, suffix, text.len() - suffix.len())
}

/// Tells whether two texts are the same.
pub fn same_text(first: &Vec<char>, second: &Vec<char>) -> (r: bool)
    ensures
        r == (first@ == second@),
{
    if first.len() != second.len() {
        return false;
    }
    let r = matches_at(first, second, 0);
    assert(first@.subrange(0, first@.len() as int) =~= first@);
    r
}

/// The parts of a text between the occurrences of a separator.  A text
/// with `n` separators has `n + 1` parts, some of which may be empty.
pub open spec fn split_on(text: Seq<char>, separator: char) -> Seq<Seq<char>>
    decreases text.len(),
{
    if text.len() == 0 {
        seq![Seq::empty()]
    } else {
        let before = split_on(text.drop_last(), separator);
        if text.last() == separator {
            before.push(Seq::empty())
        } else {
            before.drop_last().push(before.last().push(text.last()))
        }
    }
}

/// The texts of a list of parts.
pub open spec fn part_views(parts: Seq<Vec<char>>) -> Seq<Seq<char>> {
    Seq::new(parts.len(), |i: int| parts[i]@)
}

/// A text has one part more than it has separators, so at least one, and
/// two or more exactly when it has a separator.
pub proof fn lemma_split_len(text: Seq<char>, separator: char)
    ensures
        split_on(text, separator).len() >= 1,
        split_on(text, separator).len() >= 2 <==> text.contains(separator),
    decreases text.len(),
{
    if text.len() > 0 {
        let front = text.drop_last();
        lemma_split_len(front, separator);
        if text.last() == separator {
            assert(text[text.len() - 1] == separator);
        } else {
            if text.contains(separator) {
                let i = choose|i: int| 0 <= i < text.len() && text[i] == separator;
                assert(front[i] == separator);
            }
            if front.contains(separator) {
                let i = choose|i: int| 0 <= i < front.len() && front[i] == separator;
                assert(text[i] == separator);
            }
        }
    }
}

/// Cuts a text at each occurrence of a separator.
pub fn split_text(text: &Vec<char>, separator: char) -> (parts: Vec<Vec<char>>)
    ensures
        part_views(parts@) == split_on(text@, separator),
{
    let mut parts: Vec<Vec<char>> = Vec::new();
    let mut current: Vec<char> = Vec::new();
    let mut i: usize = 0;
    assert(text@.subrange(0, 0) =~= Seq::<char>::empty());
    assert(part_views(parts@).push(current@) =~= seq![Seq::<char>::empty()]);
    while i < text.len()
        invariant
            i <= text.len(),
            part_views(parts@).push(current@) == split_on(text@.subrange(0, i as int), separator),
        decreases text.len() - i,
    {
        let ghost before = split_on(text@.subrange(0, i as int), separator);
        let ghost head = text@.subrange(0, i + 1);
        proof {
            assert(head.drop_last() =~= text@.subrange(0, i as int));
            assert(head.last() == text@[i as int]);
            assert(before.last() == current@);
            assert(before.drop_last() =~= part_views(parts@));
        }
        let c = text[i];
        if c == separator {
            parts.push(current);
            current = Vec::new();
            assert(part_views(parts@).push(current@) =~= before.push(Seq::empty()));
        } else {
            current.push(c);
            assert(part_views(parts@).push(current@) =~= before.drop_last().push(
                before.last().push(c),
            ));
        }
        i += 1;
    }
    assert(text@.subrange(0, text@.len() as int) =~= text@);
    let ghost all = part_views(parts@).push(current@);
    parts.push(current);
    assert(part_views(parts@) =~= all);
    parts
}

/// Collects characters into a `String`, by `String::from_iter`.
#[verifier::external_body]
pub(crate) fn text_of(chars: &Vec<char>) -> (text: String)
    ensures
        text@ == chars@,
{
    chars.iter().collect()
}

/// A part of a text without the carriage return at its end, if it has one.
pub open spec fn without_return(part: Seq<char>) -> Seq<char> {
    if part.len() > 0 && part.last() == '\r' {
        part.drop_last()
    } else {
        part
    }
}

/// The lines of a text.  A line ends at a line feed, or at a carriage return
/// that a line feed follows; the last line need not end so, and what follows
/// the last line feed is a line only if it is not empty.
pub open spec fn lines_of(text: Seq<char>) -> Seq<Seq<char>> {
    let parts = split_on(text, '\n');
    let count = if parts.last().len() == 0 {
        parts.len() - 1
    } else {
        parts.len() as int
    };
    Seq::new(
        count as nat,
        |i: int|
            if i < parts.len() - 1 {
                without_return(parts[i])
            } else {
                parts[i]
            },
    )
}

/// The lines of a text.
pub fn split_lines(text: &Vec<char>) -> (lines: Vec<Vec<char>>)
    ensures
        part_views(lines@) == lines_of(text@),
{
    let mut parts = split_text(text, '\n');
    proof {
        lemma_split_len(text@, '\n');
    }
    let ghost all = part_views(parts@);
    let count = parts.len();
    if parts[count - 1].len() == 0 {
        parts.pop();
    }
    let kept = parts.len();
    let mut lines: Vec<Vec<char>> = Vec::new();
    let mut i: usize = 0;
    while i < kept
        invariant
            i <= kept,
            kept == parts.len(),
            kept <= count,
            all == split_on(text@, '\n'),
            all.len() == count,
            kept == if all.last().len() == 0 { count - 1 } else { count as int },
            forall|j: int| 0 <= j < kept ==> (#[trigger] parts@[j])@ == all[j],
            lines@.len() == i,
            forall|j: int| 0 <= j < i ==> (#[trigger] lines@[j])@ == lines_of(text@)[j],
        decreases kept - i,
    {
        let part = &parts[i];
        let mut line: Vec<char> = Vec::new();
        let keep = if i + 1 < count && part.len() > 0 && part[part.len() - 1] == '\r' {
            part.len() - 1
        } else {
            part.len()
        };
        let mut k: usize = 0;
        while k < keep
            invariant
                k <= keep <= part.len(),
                line@ == part@.subrange(0, k as int),
            decreases keep - k,
        {
            line.push(part[k]);
            assert(line@ =~= part@.subrange(0, k + 1));
            k += 1;
        }
        proof {
            assert(part@.subrange(0, part@.len() as int) =~= part@);
            if keep < part@.len() {
                assert(part@.subrange(0, keep as int) =~= part@.drop_last());
            }
        }
        lines.push(line);
        i += 1;
    }
    assert(part_views(lines@) =~= lines_of(text@));
    lines
}

/// A text without the occurrences of `key`, found from the left and not
/// overlapping.  An empty key occurs nowhere.
pub open spec fn without(text: Seq<char>, key: Seq<char>) -> Seq<char>
    decreases text.len(),
{
    if key.len() == 0 || text.len() < key.len() {
        text
    } else if occurs_at(text, key, 0) {
        without(text.subrange(key.len() as int, text.len() as int), key)
    } else {
        seq![text[0]] + without(text.subrange(1, text.len() as int), key)
    }
}

/// Removes the occurrences of `key` from a text.
pub fn remove_all(text: &Vec<char>, key: &Vec<char>) -> (rest: Vec<char>)
    ensures
        rest@ == without(text@, key@),
{
    let mut rest: Vec<char> = Vec::new();
    let mut i: usize = 0;
    assert(text@.subrange(0, text@.len() as int) =~= text@);
    while i < text.len()
        invariant
            i <= text.len(),
            rest@ + without(text@.subrange(i as int, text@.len() as int), key@) == without(text@, key@),
        decreases text.len() - i,
    {
        let ghost tail = text@.subrange(i as int, text@.len() as int);
        if key.len() == 0 || text.len() - i < key.len() {
            rest.push(text[i]);
            proof {
                let next = text@.subrange(i + 1, text@.len() as int);
                assert(without(tail, key@) == tail);
                assert(without(next, key@) == next);
                assert(tail =~= seq![text@[i as int]] + next);
                assert(rest@ + next =~= rest@.drop_last() + tail);
            }
            i += 1;
        } else if matches_at(text, key, i) {
            proof {
                assert(tail.subrange(0, key@.len() as int) =~= text@.subrange(
                    i as int,
                    i + key@.len(),
                ));
                assert(occurs_at(tail, key@, 0));
                assert(tail.subrange(key@.len() as int, tail.len() as int) =~= text@.subrange(
                    i + key@.len(),
                    text@.len() as int,
                ));
            }
            i += key.len();
        } else {
            rest.push(text[i]);
            proof {
                let next = text@.subrange(i + 1, text@.len() as int);
                assert(tail.subrange(0, key@.len() as int) =~= text@.subrange(
                    i as int,
                    i + key@.len(),
                ));
                assert(!occurs_at(tail, key@, 0));
                assert(tail.subrange(1, tail.len() as int) =~= next);
                assert(tail[0] == text@[i as int]);
                assert(rest@ + without(next, key@) =~= rest@.drop_last() + (seq![tail[0]] + without(
                    next,
                    key@,
                )));
            }
            i += 1;
        }
    }
    proof {
        assert(text@.subrange(text@.len() as int, text@.len() as int) =~= Seq::<char>::empty());
        assert(rest@ + Seq::<char>::empty() =~= rest@);
    }
    rest
}

/// A text without every `c` at its start.
pub open spec fn trimmed_start(text: Seq<char>, c: char) -> Seq<char>
    decreases text.len(),
{
    if text.len() > 0 && text[0] == c {
        trimmed_start(text.drop_first(), c)
    } else {
        text
    }
}

/// A text without every `c` at its end.
pub open spec fn trimmed_end(text: Seq<char>, c: char) -> Seq<char>
    decreases text.len(),
{
    if text.len() > 0 && text.last() == c {
        trimmed_end(text.drop_last(), c)
    } else {
        text
    }
}

/// A text without every `c` at its start and at its end.
pub open spec fn trimmed(text: Seq<char>, c: char) -> Seq<char> {
    trimmed_end(trimmed_start(text, c), c)
}

proof fn lemma_trimmed_start(text: Seq<char>, c: char, from: int)
    requires
        0 <= from <= text.len(),
        forall|i: int| 0 <= i < from ==> text[i] == c,
        from < text.len() ==> text[from] != c,
    ensures
        trimmed_start(text, c) == text.subrange(from, text.len() as int),
    decreases from,
{
    if from == 0 {
        assert(text.subrange(0, text.len() as int) =~= text);
    } else {
        lemma_trimmed_start(text.drop_first(), c, from - 1);
        assert(text.drop_first().subrange(from - 1, text.len() - 1) =~= text.subrange(
            from,
            text.len() as int,
        ));
    }
}

proof fn lemma_trimmed_end(text: Seq<char>, c: char, to: int)
    requires
        0 <= to <= text.len(),
        forall|i: int| to <= i < text.len() ==> text[i] == c,
        to > 0 ==> text[to - 1] != c,
    ensures
        trimmed_end(text, c) == text.subrange(0, to),
    decreases text.len() - to,
{
    if to == text.len() {
        assert(text.subrange(0, to) =~= text);
    } else {
        lemma_trimmed_end(text.drop_last(), c, to);
        assert(text.drop_last().subrange(0, to) =~= text.subrange(0, to));
    }
}

/// Takes every `c` away from the start and the end of a text.
pub fn trim_char(text: &Vec<char>, c: char) -> (inner: Vec<char>)
    ensures
        inner@ == trimmed(text@, c),
{
    let mut from: usize = 0;
    while from < text.len() && text[from] == c
        invariant
            from <= text.len(),
            forall|i: int| 0 <= i < from ==> text@[i] == c,
        decreases text.len() - from,
    {
        from += 1;
    }
    let mut to: usize = text.len();
    while to > from && text[to - 1] == c
        invariant
            from <= to <= text.len(),
            forall|i: int| to <= i < text@.len() ==> text@[i] == c,
        decreases to,
    {
        to -= 1;
    }
    let mut inner: Vec<char> = Vec::new();
    let mut k: usize = from;
    while k < to
        invariant
            from <= k <= to <= text.len(),
            inner@ == text@.subrange(from as int, k as int),
        decreases to - k,
    {
        inner.push(text[k]);
        assert(inner@ =~= text@.subrange(from as int, k + 1));
        k += 1;
    }
    proof {
        lemma_trimmed_start(text@, c, from as int);
        let tail = text@.subrange(from as int, text@.len() as int);
        assert forall|i: int| to - from <= i < tail.len() implies tail[i] == c by {
            assert(tail[i] == text@[i + from]);
        }
        if to > from {
            assert(tail[to - from - 1] == text@[to - 1]);
        }
        lemma_trimmed_end(tail, c, to - from);
        assert(tail.subrange(0, to - from) =~= text@.subrange(from as int, to as int));
    }
    inner
}

/// The value of a decimal digit.
pub open spec fn digit_value(c: char) -> Option<nat> {
    if '0' <= c <= '9' {
        Some((c as u32 - 48) as nat)
    } else {
        None
    }
}

/// The number that a run of decimal digits stands for; `None` where the
/// run is empty or holds anything else.
pub open spec fn digits_value(digits: Seq<char>) -> Option<nat>
    decreases digits.len(),
{
    if digits.len() == 0 {
        None
    } else {
        match digit_value(digits.last()) {
            None => None,
            Some(d) => if digits.len() == 1 {
                Some(d)
            } else {
                match digits_value(digits.drop_last()) {
                    None => None,
                    Some(before) => Some(before * 10 + d),
                }
            },
        }
    }
}

/// The number that a text stands for: decimal digits, behind a plus sign or
/// none, that make up a number of 64 bits.
pub open spec fn number_in(text: Seq<char>) -> Option<u64> {
    let digits = if text.len() > 0 && text[0] == '+' {
        text.subrange(1, text.len() as int)
    } else {
        text
    };
    match digits_value(digits) {
        Some(value) => if value <= u64::MAX {
            Some(value as u64)
        } else {
            None
        },
        None => None,
    }
}

/// The numbers that runs of digits stand for grow with the runs.
proof fn lemma_digits_grow(digits: Seq<char>, upto: int)
    requires
        0 < upto <= digits.len(),
        digits_value(digits) is Some,
    ensures
        digits_value(digits.subrange(0, upto)) is Some,
        digits_value(digits.subrange(0, upto)).unwrap() <= digits_value(digits).unwrap(),
    decreases digits.len() - upto,
{
    if upto == digits.len() {
        assert(digits.subrange(0, upto) =~= digits);
    } else {
        assert(digits.len() > 1);
        lemma_digits_grow(digits.drop_last(), upto);
        assert(digits.drop_last().subrange(0, upto) =~= digits.subrange(0, upto));
    }
}

/// A run of digits stands for no number where a part of it at the start
/// stands for none.
proof fn lemma_digits_fail(digits: Seq<char>, upto: int)
    requires
        0 < upto <= digits.len(),
        digits_value(digits.subrange(0, upto)) is None,
    ensures
        digits_value(digits) is None,
    decreases digits.len() - upto,
{
    if upto == digits.len() {
        assert(digits.subrange(0, upto) =~= digits);
    } else {
        assert(digits.drop_last().subrange(0, upto) =~= digits.subrange(0, upto));
        lemma_digits_fail(digits.drop_last(), upto);
    }
}

/// Reads a number of 64 bits.
pub fn parse_number(text: &Vec<char>) -> (r: Option<u64>)
    ensures
        r == number_in(text@),
{
    let start: usize = if text.len() > 0 && text[0] == '+' {
        1
    } else {
        0
    };
    let ghost digits = text@.subrange(start as int, text@.len() as int);
    proof {
        if start == 0 {
            assert(digits =~= text@);
        }
    }
    if start == text.len() {
        return None;
    }
    let mut value: u64 = 0;
    let mut i: usize = start;
    while i < text.len()
        invariant
            start <= i <= text.len(),
            start < text.len(),
            start == (if text@.len() > 0 && text@[0] == '+' {
                1int
            } else {
                0int
            }),
            digits == text@.subrange(start as int, text@.len() as int),
            i > start ==> digits_value(digits.subrange(0, i - start)) == Some(value as nat),
            i == start ==> value == 0,
        decreases text.len() - i,
    {
        let c = text[i];
        let ghost head = digits.subrange(0, i + 1 - start);
        proof {
            if start == 0 {
                assert(digits =~= text@);
            }
            assert(head.last() == c);
            assert(head.drop_last() =~= digits.subrange(0, i - start));
        }
        if c < '0' || c > '9' {
            proof {
                assert(digits_value(head) is None);
                lemma_digits_fail(digits, i + 1 - start);
            }
            return None;
        }
        let d = (c as u32 - 48) as u64;
        if value > (u64::MAX - d) / 10 {
            proof {
                assert(digits_value(head) == Some((value * 10 + d) as nat));
                if digits_value(digits) is Some {
                    lemma_digits_grow(digits, i + 1 - start);
                }
            }
            return None;
        }
        value = value * 10 + d;
        i += 1;
    }
    proof {
        assert(digits.subrange(0, digits.len() as int) =~= digits);
    }
    Some(value)
}

} // verus!
