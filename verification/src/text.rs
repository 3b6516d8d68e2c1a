//! Text as sequences of characters.

use vstd::prelude::*;

verus! {

/// `String::push`: the character goes behind the others.
pub assume_specification[ String::push ](s: &mut String, c: char)
    ensures
        final(s)@ == old(s)@.push(c),
;

/// The characters of a string.
pub fn chars_of(s: &str) -> (r: Vec<char>)
    ensures
        r@ == s@,
{
    let mut r: Vec<char> = Vec::new();
    for c in it: s.chars()
        invariant
            it.seq() == s@,
            r@ == s@.take(it.index() as int),
    {
        r.push(c);
        assert(r@ =~= s@.take(it.index() + 1));
    }
    assert(s@.take(s@.len() as int) =~= s@);
    r
}

/// The string of some characters.
pub fn string_of(chars: &Vec<char>) -> (r: String)
    ensures
        r@ == chars@,
{
    let mut r: String = String::new();
    let mut i: usize = 0;
    assert(r@ =~= chars@.take(0));
    while i < chars.len()
        invariant
            i <= chars.len(),
            r@ == chars@.take(i as int),
        decreases chars.len() - i,
    {
        r.push(chars[i]);
        i = i + 1;
        assert(r@ =~= chars@.take(i as int));
    }
    assert(chars@.take(chars.len() as int) =~= chars@);
    r
}

/// Append characters.
pub fn extend(out: &mut Vec<char>, more: &Vec<char>)
    ensures
        final(out)@ == old(out)@ + more@,
{
    let mut i: usize = 0;
    assert(out@ =~= old(out)@ + more@.take(0));
    while i < more.len()
        invariant
            i <= more.len(),
            out@ == old(out)@ + more@.take(i as int),
        decreases more.len() - i,
    {
        out.push(more[i]);
        i = i + 1;
        assert(out@ =~= old(out)@ + more@.take(i as int));
    }
    assert(more@.take(more.len() as int) =~= more@);
}

/// Whether two texts are the same.
pub fn same_text(a: &Vec<char>, b: &Vec<char>) -> (r: bool)
    ensures
        r == (a@ == b@),
{
    if a.len() != b.len() {
        return false;
    }
    let mut i: usize = 0;
    while i < a.len()
        invariant
            i <= a.len(),
            a.len() == b.len(),
            forall|j: int| 0 <= j < i ==> a@[j] == b@[j],
        decreases a.len() - i,
    {
        if a[i] != b[i] {
            return false;
        }
        i = i + 1;
    }
    assert(a@ =~= b@);
    true
}

/// A stretch of some characters.
pub fn slice_of(s: &Vec<char>, from: usize, to: usize) -> (r: Vec<char>)
    requires
        from <= to <= s@.len(),
    ensures
        r@ == s@.subrange(from as int, to as int),
{
    let mut r: Vec<char> = Vec::new();
    let mut i: usize = from;
    while i < to
        invariant
            from <= i <= to <= s@.len(),
            r@ == s@.subrange(from as int, i as int),
        decreases to - i,
    {
        r.push(s[i]);
        i = i + 1;
        assert(r@ =~= s@.subrange(from as int, i as int));
    }
    r
}

// ---------------------------------------------------------------------------
//  Blanks
// ---------------------------------------------------------------------------

/// Whether a character is white space.
pub open spec fn is_blank_spec(c: char) -> bool {
    ||| '\u{9}' <= c <= '\u{d}'
    ||| c == ' '
    ||| c == '\u{85}'
    ||| c == '\u{a0}'
    ||| c == '\u{1680}'
    ||| '\u{2000}' <= c <= '\u{200a}'
    ||| c == '\u{2028}'
    ||| c == '\u{2029}'
    ||| c == '\u{202f}'
    ||| c == '\u{205f}'
    ||| c == '\u{3000}'
}

#[verifier::when_used_as_spec(is_blank_spec)]
pub fn is_blank(c: char) -> (r: bool)
    ensures
        r == is_blank_spec(c),
{
    ('\u{9}' <= c && c <= '\u{d}') || c == ' ' || c == '\u{85}' || c == '\u{a0}' || c == '\u{1680}'
        || ('\u{2000}' <= c && c <= '\u{200a}') || c == '\u{2028}' || c == '\u{2029}' || c
        == '\u{202f}' || c == '\u{205f}' || c == '\u{3000}'
}

/// Text without the white space at its start.
pub open spec fn trim_start(s: Seq<char>) -> Seq<char>
    decreases s.len(),
{
    if s.len() > 0 && is_blank(s[0]) {
        trim_start(s.skip(1))
    } else {
        s
    }
}

/// Text without the white space at its end.
pub open spec fn trim_end(s: Seq<char>) -> Seq<char>
    decreases s.len(),
{
    if s.len() > 0 && is_blank(s.last()) {
        trim_end(s.drop_last())
    } else {
        s
    }
}

/// Text without the white space at either end.
pub open spec fn trimmed(s: Seq<char>) -> Seq<char> {
    trim_end(trim_start(s))
}

proof fn lemma_trim_start(s: Seq<char>, from: int)
    requires
        0 <= from <= s.len(),
        forall|j: int| 0 <= j < from ==> is_blank(#[trigger] s[j]),
        from < s.len() ==> !is_blank(s[from]),
    ensures
        trim_start(s) == s.skip(from),
    decreases from,
{
    if from > 0 {
        let rest = s.skip(1);
        assert(is_blank(s[0]));
        assert forall|j: int| 0 <= j < from - 1 implies is_blank(#[trigger] rest[j]) by {
            assert(rest[j] == s[j + 1]);
        }
        lemma_trim_start(rest, from - 1);
        assert(rest.skip(from - 1) =~= s.skip(from));
    } else {
        assert(s.skip(0) =~= s);
    }
}

proof fn lemma_trim_end(s: Seq<char>, to: int)
    requires
        0 <= to <= s.len(),
        forall|j: int| to <= j < s.len() ==> is_blank(#[trigger] s[j]),
        to > 0 ==> !is_blank(s[to - 1]),
    ensures
        trim_end(s) == s.take(to),
    decreases s.len() - to,
{
    if to < s.len() {
        assert(is_blank(s[s.len() - 1]));
        lemma_trim_end(s.drop_last(), to);
        assert(s.drop_last().take(to) =~= s.take(to));
    } else {
        assert(s.take(to) =~= s);
    }
}

/// Text without the white space at either end.
pub fn trim(s: &Vec<char>) -> (r: Vec<char>)
    ensures
        r@ == trimmed(s@),
{
    let mut from: usize = 0;
    while from < s.len() && is_blank(s[from])
        invariant
            from <= s.len(),
            forall|j: int| 0 <= j < from ==> is_blank(#[trigger] s@[j]),
        decreases s.len() - from,
    {
        from = from + 1;
    }
    let mut to: usize = s.len();
    while to > from && is_blank(s[to - 1])
        invariant
            from <= to <= s.len(),
            forall|j: int| to <= j < s.len() ==> is_blank(#[trigger] s@[j]),
        decreases to,
    {
        to = to - 1;
    }
    proof {
        lemma_trim_start(s@, from as int);
        let rest = s@.skip(from as int);
        assert forall|j: int| to - from <= j < rest.len() implies is_blank(#[trigger] rest[j]) by {
            assert(rest[j] == s@[j + from]);
        }
        lemma_trim_end(rest, to - from);
        assert(rest.take(to - from) =~= s@.subrange(from as int, to as int));
    }
    slice_of(s, from, to)
}

// ---------------------------------------------------------------------------
//  Splitting
// ---------------------------------------------------------------------------

/// Where a character first occurs; the length of the text if it does not.
pub open spec fn first_of(s: Seq<char>, c: char) -> int
    decreases s.len(),
{
    if s.len() == 0 || s[0] == c {
        0
    } else {
        1 + first_of(s.skip(1), c)
    }
}

pub proof fn lemma_first_of(s: Seq<char>, c: char, at: int)
    requires
        0 <= at <= s.len(),
        forall|j: int| 0 <= j < at ==> #[trigger] s[j] != c,
        at < s.len() ==> s[at] == c,
    ensures
        first_of(s, c) == at,
    decreases at,
{
    if at > 0 {
        let rest = s.skip(1);
        assert(s[0] != c);
        assert forall|j: int| 0 <= j < at - 1 implies #[trigger] rest[j] != c by {
            assert(rest[j] == s[j + 1]);
        }
        lemma_first_of(rest, c, at - 1);
    }
}

pub proof fn lemma_first_of_range(s: Seq<char>, c: char)
    ensures
        0 <= first_of(s, c) <= s.len(),
        first_of(s, c) < s.len() ==> s[first_of(s, c)] == c,
        forall|j: int| 0 <= j < first_of(s, c) ==> #[trigger] s[j] != c,
    decreases s.len(),
{
    if s.len() > 0 && s[0] != c {
        let rest = s.skip(1);
        lemma_first_of_range(rest, c);
        assert forall|j: int| 0 <= j < first_of(s, c) implies #[trigger] s[j] != c by {
            if j > 0 {
                assert(s[j] == rest[j - 1]);
            }
        }
    }
}

/// Where a character first occurs from a place on.
pub fn find_from(s: &Vec<char>, c: char, from: usize) -> (r: usize)
    requires
        from <= s@.len(),
    ensures
        from <= r <= s@.len(),
        r == from + first_of(s@.skip(from as int), c),
{
    let mut r: usize = from;
    while r < s.len() && s[r] != c
        invariant
            from <= r <= s@.len(),
            forall|j: int| from <= j < r ==> #[trigger] s@[j] != c,
        decreases s.len() - r,
    {
        r = r + 1;
    }
    proof {
        let rest = s@.skip(from as int);
        assert forall|j: int| 0 <= j < r - from implies #[trigger] rest[j] != c by {
            assert(rest[j] == s@[j + from]);
        }
        lemma_first_of(rest, c, r - from);
    }
    r
}

/// The parts of a text between the occurrences of a character; always at least
/// one.
pub open spec fn parts(s: Seq<char>, c: char) -> Seq<Seq<char>>
    decreases s.len(),
    via parts_decreases
{
    let at = first_of(s, c);
    if at >= s.len() {
        seq![s]
    } else {
        seq![s.take(at)] + parts(s.skip(at + 1), c)
    }
}

#[via_fn]
proof fn parts_decreases(s: Seq<char>, c: char) {
    lemma_first_of_range(s, c);
}

/// Texts by value.
pub open spec fn texts(v: Seq<Vec<char>>) -> Seq<Seq<char>> {
    v.map_values(|t: Vec<char>| t@)
}

/// The parts of a text between the occurrences of a character.
pub fn split(s: &Vec<char>, c: char) -> (r: Vec<Vec<char>>)
    ensures
        texts(r@) == parts(s@, c),
{
    let mut r: Vec<Vec<char>> = Vec::new();
    let mut from: usize = 0;
    assert(s@.skip(0) =~= s@);
    assert(texts(r@) + parts(s@, c) =~= parts(s@, c));
    loop
        invariant
            from <= s@.len(),
            parts(s@, c) == texts(r@) + parts(s@.skip(from as int), c),
        decreases s@.len() - from,
    {
        let ghost rest = s@.skip(from as int);
        let ghost before = texts(r@);
        let at: usize = find_from(s, c, from);
        r.push(slice_of(s, from, at));
        assert(texts(r@) =~= before.push(s@.subrange(from as int, at as int)));
        if at >= s.len() {
            assert(s@.subrange(from as int, at as int) =~= rest);
            assert(texts(r@) =~= parts(s@, c));
            return r;
        }
        proof {
            assert(rest.take(at - from) =~= s@.subrange(from as int, at as int));
            assert(rest.skip(at - from + 1) =~= s@.skip(at + 1));
            assert(texts(r@) + parts(s@.skip(at + 1), c) =~= before + parts(rest, c));
        }
        from = at + 1;
    }
}

/// A line without the carriage return at its end.
pub open spec fn without_return(s: Seq<char>) -> Seq<char> {
    if s.len() > 0 && s.last() == '\r' {
        s.drop_last()
    } else {
        s
    }
}

/// The lines of a text.  A line ends in a line feed, with or without a carriage
/// return before it; the last one need not.
pub open spec fn lines(s: Seq<char>) -> Seq<Seq<char>>
    decreases s.len(),
    via lines_decreases
{
    let at = first_of(s, '\n');
    if s.len() == 0 {
        Seq::empty()
    } else if at >= s.len() {
        seq![s]
    } else {
        seq![without_return(s.take(at))] + lines(s.skip(at + 1))
    }
}

#[via_fn]
proof fn lines_decreases(s: Seq<char>) {
    lemma_first_of_range(s, '\n');
}

/// The lines of a text.
pub fn split_lines(s: &Vec<char>) -> (r: Vec<Vec<char>>)
    ensures
        texts(r@) == lines(s@),
{
    let mut r: Vec<Vec<char>> = Vec::new();
    let mut from: usize = 0;
    assert(s@.skip(0) =~= s@);
    assert(texts(r@) + lines(s@) =~= lines(s@));
    while from < s.len()
        invariant
            from <= s@.len(),
            lines(s@) == texts(r@) + lines(s@.skip(from as int)),
        decreases s@.len() - from,
    {
        let ghost rest = s@.skip(from as int);
        let ghost before = texts(r@);
        let at: usize = find_from(s, '\n', from);
        if at >= s.len() {
            r.push(slice_of(s, from, at));
            assert(s@.subrange(from as int, at as int) =~= rest);
            assert(texts(r@) =~= before.push(rest));
            assert(s@.skip(at as int) =~= Seq::empty());
            assert(texts(r@) + lines(s@.skip(at as int)) =~= before + lines(rest));
            from = at;
        } else {
            let to: usize = if at > from && s[at - 1] == '\r' {
                at - 1
            } else {
                at
            };
            r.push(slice_of(s, from, to));
            proof {
                let line = rest.take(at - from);
                assert(line =~= s@.subrange(from as int, at as int));
                assert(without_return(line) =~= s@.subrange(from as int, to as int));
                assert(texts(r@) =~= before.push(without_return(line)));
                assert(rest.skip(at - from + 1) =~= s@.skip(at + 1));
                assert(texts(r@) + lines(s@.skip(at + 1)) =~= before + lines(rest));
            }
            from = at + 1;
        }
    }
    assert(s@.skip(from as int) =~= Seq::empty());
    assert(texts(r@) + lines(s@.skip(from as int)) =~= texts(r@));
    r
}

} // verus!
