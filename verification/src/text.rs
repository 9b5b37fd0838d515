//! Text primitives over sequences of characters: white space, trimming and
//! splitting at the first occurrence of a separator.
use vstd::prelude::*;

verus! {

/// Whether `c` has the Unicode property `White_Space`.
pub open spec fn whitespace(c: char) -> bool {
    ||| '\u{9}' <= c <= '\u{D}'
    ||| c == ' '
    ||| c == '\u{85}'
    ||| c == '\u{A0}'
    ||| c == '\u{1680}'
    ||| '\u{2000}' <= c <= '\u{200A}'
    ||| c == '\u{2028}'
    ||| c == '\u{2029}'
    ||| c == '\u{202F}'
    ||| c == '\u{205F}'
    ||| c == '\u{3000}'
}

/// Whether `s` holds nothing but white space.
pub open spec fn blank(s: Seq<char>) -> bool {
    forall|i: int| 0 <= i < s.len() ==> whitespace(#[trigger] s[i])
}

/// `s` without its leading white space.
pub open spec fn trim_start(s: Seq<char>) -> Seq<char>
    decreases s.len(),
{
    if s.len() > 0 && whitespace(s[0]) {
        trim_start(s.skip(1))
    } else {
        s
    }
}

/// `s` without its trailing white space.
pub open spec fn trim_end(s: Seq<char>) -> Seq<char>
    decreases s.len(),
{
    if s.len() > 0 && whitespace(s.last()) {
        trim_end(s.drop_last())
    } else {
        s
    }
}

/// `s` without its leading and trailing white space.
pub open spec fn trim(s: Seq<char>) -> Seq<char> {
    trim_end(trim_start(s))
}

/// The number of characters of `s` that stand before the first `c`; the
/// length of `s` when it holds no `c`.
pub open spec fn position(s: Seq<char>, c: char) -> nat
    decreases s.len(),
{
    if s.len() == 0 || s[0] == c {
        0
    } else {
        1 + position(s.skip(1), c)
    }
}

/// The parts of `s` before and after the first `sep`, or `None` when `s`
/// holds no `sep`.
pub open spec fn split_once(s: Seq<char>, sep: char) -> Option<(Seq<char>, Seq<char>)> {
    let at = position(s, sep);
    if at < s.len() {
        Some((s.take(at as int), s.skip(at as int + 1)))
    } else {
        None
    }
}

/// `position(s, c)` is the one index `at` such that no `c` stands before it
/// and either `s` ends there or `s[at]` is `c`.
pub proof fn lemma_position(s: Seq<char>, c: char, at: int)
    requires
        0 <= at <= s.len(),
        forall|i: int| 0 <= i < at ==> s[i] != c,
        at < s.len() ==> s[at] == c,
    ensures
        position(s, c) == at,
    decreases s.len(),
{
    if at > 0 {
        assert(s[0] != c);
        let rest = s.skip(1);
        assert forall|i: int| 0 <= i < at - 1 implies rest[i] != c by {
            assert(rest[i] == s[i + 1]);
        }
        lemma_position(rest, c, at - 1);
    }
}

/// Leading white space does not change what is left after trimming the
/// start.
proof fn lemma_trim_start_skips(lead: Seq<char>, rest: Seq<char>)
    requires
        blank(lead),
    ensures
        trim_start(lead + rest) == trim_start(rest),
    decreases lead.len(),
{
    if lead.len() > 0 {
        assert((lead + rest)[0] == lead[0]);
        assert((lead + rest).skip(1) == lead.skip(1) + rest);
        lemma_trim_start_skips(lead.skip(1), rest);
    } else {
        assert(lead + rest == rest);
    }
}

/// Trailing white space does not change what is left after trimming the
/// end.
proof fn lemma_trim_end_skips(rest: Seq<char>, trail: Seq<char>)
    requires
        blank(trail),
    ensures
        trim_end(rest + trail) == trim_end(rest),
    decreases trail.len(),
{
    if trail.len() > 0 {
        assert((rest + trail).last() == trail.last());
        assert((rest + trail).drop_last() == rest + trail.drop_last());
        lemma_trim_end_skips(rest, trail.drop_last());
    } else {
        assert(rest + trail == rest);
    }
}

/// Trimming takes off exactly the white space around a text that neither
/// begins nor ends with white space.
pub proof fn lemma_trim_padded(lead: Seq<char>, core: Seq<char>, trail: Seq<char>)
    requires
        blank(lead),
        blank(trail),
        core.len() > 0 ==> !whitespace(core[0]) && !whitespace(core.last()),
    ensures
        trim(lead + core + trail) == core,
{
    assert(lead + core + trail == lead + (core + trail));
    lemma_trim_start_skips(lead, core + trail);
    if core.len() > 0 {
        assert((core + trail)[0] == core[0]);
        lemma_trim_end_skips(core, trail);
    } else {
        assert(core + trail == trail + core);
        lemma_trim_start_skips(trail, core);
    }
}

/// Whether `c` is white space.
pub fn is_whitespace(c: char) -> (r: bool)
    ensures
        r == whitespace(c),
{
    ('\u{9}' <= c && c <= '\u{D}') || c == ' ' || c == '\u{85}' || c == '\u{A0}' || c
        == '\u{1680}' || ('\u{2000}' <= c && c <= '\u{200A}') || c == '\u{2028}' || c
        == '\u{2029}' || c == '\u{202F}' || c == '\u{205F}' || c == '\u{3000}'
}

/// The index of the first `sep` in `chars`, if there is one.
pub fn find(chars: &[char], sep: char) -> (found: Option<usize>)
    ensures
        found == (if position(chars@, sep) < chars@.len() {
            Some(position(chars@, sep) as usize)
        } else {
            None
        }),
{
    let mut at: usize = 0;
    while at < chars.len()
        invariant
            at <= chars.len(),
            forall|i: int| 0 <= i < at ==> chars@[i] != sep,
        decreases chars.len() - at,
    {
        if chars[at] == sep {
            proof {
                lemma_position(chars@, sep, at as int);
            }
            return Some(at);
        }
        at = at + 1;
    }
    proof {
        lemma_position(chars@, sep, at as int);
    }
    None
}

/// The bounds of `chars` without its leading and trailing white space:
/// `chars[start..end]` is the trimmed text, and `start` counts the leading
/// white space.
pub fn trim_bounds(chars: &[char]) -> (bounds: (usize, usize))
    ensures
        bounds.0 <= bounds.1 <= chars@.len(),
        bounds.0 == chars@.len() - trim_start(chars@).len(),
        chars@.subrange(bounds.0 as int, bounds.1 as int) == trim(chars@),
{
    let mut start: usize = 0;
    assert(chars@.skip(0) == chars@);
    while start < chars.len() && is_whitespace(chars[start])
        invariant
            start <= chars.len(),
            trim_start(chars@) == trim_start(chars@.skip(start as int)),
        decreases chars.len() - start,
    {
        assert(chars@.skip(start as int).skip(1) == chars@.skip(start as int + 1));
        start = start + 1;
    }
    let mut end: usize = chars.len();
    assert(chars@.skip(start as int) == chars@.subrange(start as int, end as int));
    assert(trim_start(chars@) == chars@.skip(start as int));
    while start < end && is_whitespace(chars[end - 1])
        invariant
            start <= end <= chars.len(),
            trim(chars@) == trim_end(chars@.subrange(start as int, end as int)),
        decreases end - start,
    {
        assert(chars@.subrange(start as int, end as int).drop_last() == chars@.subrange(
            start as int,
            end as int - 1,
        ));
        end = end - 1;
    }
    (start, end)
}

} // verus!
