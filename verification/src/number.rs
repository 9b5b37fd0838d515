//! The grammar of number literals.
//!
//! A number literal is a text that Rust reads as a 64-bit float:
//!
//! ```text
//! Number   ::= Sign? ( Special | Decimal )
//! Special  ::= 'inf' | 'infinity' | 'nan'          (in either case, letter by letter)
//! Decimal  ::= Mantissa Exponent?
//! Mantissa ::= Digit+ | Digit+ '.' Digit* | Digit* '.' Digit+
//! Exponent ::= ( 'e' | 'E' ) Sign? Digit+
//! Sign     ::= '+' | '-'
//! Digit    ::= '0' ... '9'
//! ```
//!
//! This module decides membership. It does not compute the value: rounding a
//! decimal text to the nearest float is the business of the float parser.
use vstd::prelude::*;

verus! {

/// `Digit`.
pub open spec fn digit(c: char) -> bool {
    '0' <= c <= '9'
}

/// `Sign`.
pub open spec fn sign(c: char) -> bool {
    c == '+' || c == '-'
}

/// `Digit*`: every character of `s` is a digit.
pub open spec fn digits(s: Seq<char>) -> bool {
    forall|i: int| 0 <= i < s.len() ==> digit(#[trigger] s[i])
}

/// Whether `s` spells a word, each letter in its small or its capital form.
pub open spec fn spells(s: Seq<char>, small: Seq<char>, capital: Seq<char>) -> bool {
    &&& s.len() == small.len()
    &&& forall|i: int| 0 <= i < s.len() ==> #[trigger] s[i] == small[i] || s[i] == capital[i]
}

/// `Special`.
pub open spec fn special(s: Seq<char>) -> bool {
    ||| spells(s, seq!['i', 'n', 'f'], seq!['I', 'N', 'F'])
    ||| spells(
        s,
        seq!['i', 'n', 'f', 'i', 'n', 'i', 't', 'y'],
        seq!['I', 'N', 'F', 'I', 'N', 'I', 'T', 'Y'],
    )
    ||| spells(s, seq!['n', 'a', 'n'], seq!['N', 'A', 'N'])
}

/// `Mantissa`: digits with at most one point among them, and at least one
/// digit.
pub open spec fn mantissa(s: Seq<char>) -> bool {
    ||| s.len() > 0 && digits(s)
    ||| exists|k: int|
        #![trigger s.take(k)]
        {
            &&& 0 <= k < s.len()
            &&& s[k] == '.'
            &&& s.len() > 1
            &&& digits(s.take(k))
            &&& digits(s.skip(k + 1))
        }
}

/// `Exponent`.
pub open spec fn exponent(s: Seq<char>) -> bool {
    &&& s.len() >= 2
    &&& s[0] == 'e' || s[0] == 'E'
    &&& if sign(s[1]) {
        s.len() > 2 && digits(s.skip(2))
    } else {
        digits(s.skip(1))
    }
}

/// `Decimal`.
pub open spec fn decimal(s: Seq<char>) -> bool {
    exists|k: int|
        #![trigger s.take(k)]
        {
            &&& 0 <= k <= s.len()
            &&& mantissa(s.take(k))
            &&& k == s.len() || exponent(s.skip(k))
        }
}

/// `Number`: the texts that are number literals.
pub open spec fn number(s: Seq<char>) -> bool {
    let body = if s.len() > 0 && sign(s[0]) {
        s.skip(1)
    } else {
        s
    };
    special(body) || decimal(body)
}

/// The characters that number literals are made of.
pub open spec fn literal_char(c: char) -> bool {
    digit(c) || sign(c) || c == '.' || 'a' <= c <= 'z' || 'A' <= c <= 'Z'
}

/// A number literal is not empty and holds nothing but digits, signs, points
/// and letters: no white space and no comma.
pub proof fn lemma_number_chars(s: Seq<char>)
    requires
        number(s),
    ensures
        s.len() > 0,
        forall|i: int| 0 <= i < s.len() ==> literal_char(#[trigger] s[i]),
{
    let body = if s.len() > 0 && sign(s[0]) {
        s.skip(1)
    } else {
        s
    };
    lemma_body_chars(body);
    assert forall|i: int| 0 <= i < s.len() implies literal_char(#[trigger] s[i]) by {
        if body.len() < s.len() {
            if i > 0 {
                assert(body[i - 1] == s[i]);
            }
        }
    }
}

/// The same for a literal without its sign.
proof fn lemma_body_chars(s: Seq<char>)
    requires
        special(s) || decimal(s),
    ensures
        s.len() > 0,
        forall|i: int| 0 <= i < s.len() ==> literal_char(#[trigger] s[i]),
{
    if special(s) {
        assert forall|i: int| 0 <= i < s.len() implies literal_char(#[trigger] s[i]) by {
            let inf = seq!['i', 'n', 'f'];
            let infinity = seq!['i', 'n', 'f', 'i', 'n', 'i', 't', 'y'];
            let nan = seq!['n', 'a', 'n'];
            let word = if spells(s, inf, seq!['I', 'N', 'F']) {
                inf
            } else if spells(s, nan, seq!['N', 'A', 'N']) {
                nan
            } else {
                infinity
            };
            assert(i == 0 || i == 1 || i == 2 || i == 3 || i == 4 || i == 5 || i == 6 || i == 7);
            assert('a' <= word[i] <= 'z');
        }
    } else {
        let k = choose|k: int|
            #![trigger s.take(k)]
            {
                &&& 0 <= k <= s.len()
                &&& mantissa(s.take(k))
                &&& k == s.len() || exponent(s.skip(k))
            };
        let m = s.take(k);
        let tail = s.skip(k);
        assert forall|i: int| 0 <= i < k implies literal_char(#[trigger] s[i]) by {
            assert(m[i] == s[i]);
            if !(m.len() > 0 && digits(m)) {
                let j = choose|j: int|
                    #![trigger m.take(j)]
                    {
                        &&& 0 <= j < m.len()
                        &&& m[j] == '.'
                        &&& m.len() > 1
                        &&& digits(m.take(j))
                        &&& digits(m.skip(j + 1))
                    };
                if i < j {
                    assert(m.take(j)[i] == m[i]);
                } else if i > j {
                    assert(m.skip(j + 1)[i - j - 1] == m[i]);
                }
            }
        }
        assert forall|i: int| k <= i < s.len() implies literal_char(#[trigger] s[i]) by {
            assert(tail[i - k] == s[i]);
            if i - k >= 2 {
                assert(tail.skip(2)[i - k - 2] == tail[i - k]);
            }
            if i - k >= 1 {
                assert(tail.skip(1)[i - k - 1] == tail[i - k]);
            }
        }
    }
}

/// Every character of `s` from `from` up to `to` is a digit.
pub open spec fn digit_run(s: Seq<char>, from: int, to: int) -> bool {
    forall|i: int| from <= i < to ==> digit(#[trigger] s[i])
}

/// Where the leading run of digits ends, and the run behind a point after
/// it, fixes where a mantissa can end: a decimal text has its mantissa end
/// at `b`, and nowhere else.
proof fn lemma_mantissa_end(s: Seq<char>, k: int, a: int, b: int)
    requires
        0 <= k <= s.len(),
        mantissa(s.take(k)),
        k == s.len() || exponent(s.skip(k)),
        0 <= a <= s.len(),
        digit_run(s, 0, a),
        a < s.len() ==> !digit(s[a]),
        if a < s.len() && s[a] == '.' {
            &&& a + 1 <= b <= s.len()
            &&& digit_run(s, a + 1, b)
            &&& b < s.len() ==> !digit(s[b])
        } else {
            b == a
        },
    ensures
        k == b,
        a < s.len() && s[a] == '.' ==> b - 1 > 0,
        b > 0,
{
    let m = s.take(k);
    if k < s.len() {
        assert(s.skip(k)[0] == s[k]);
        assert(!digit(s[k]) && s[k] != '.');
    }
    if m.len() > 0 && digits(m) {
        assert forall|i: int| 0 <= i < k implies digit(s[i]) by {
            assert(m[i] == s[i]);
        }
        if a < k {
            assert(digit(s[a]));
        }
        if k < a {
            assert(digit(s[k]));
        }
        assert(a == k);
    } else {
        let j = choose|j: int|
            #![trigger m.take(j)]
            {
                &&& 0 <= j < m.len()
                &&& m[j] == '.'
                &&& m.len() > 1
                &&& digits(m.take(j))
                &&& digits(m.skip(j + 1))
            };
        assert(m[j] == s[j]);
        assert forall|i: int| 0 <= i < j implies digit(s[i]) by {
            assert(m.take(j)[i] == s[i]);
        }
        if a < j {
            assert(digit(s[a]));
        }
        if j < a {
            assert(digit(s[j]));
        }
        assert(a == j);
        assert forall|i: int| j + 1 <= i < k implies digit(s[i]) by {
            assert(m.skip(j + 1)[i - j - 1] == s[i]);
        }
        if b < k {
            assert(digit(s[b]));
        }
        if k < b {
            assert(digit(s[k]));
        }
        assert(b == k);
    }
}

/// Whether `c` is a digit.
pub fn is_digit(c: char) -> (r: bool)
    ensures
        r == digit(c),
{
    '0' <= c && c <= '9'
}

/// Whether `c` is a sign.
pub fn is_sign(c: char) -> (r: bool)
    ensures
        r == sign(c),
{
    c == '+' || c == '-'
}

/// The end of the run of digits that starts at `from`.
fn skip_digits(chars: &[char], from: usize) -> (to: usize)
    requires
        from <= chars@.len(),
    ensures
        from <= to <= chars@.len(),
        digit_run(chars@, from as int, to as int),
        to < chars@.len() ==> !digit(chars@[to as int]),
{
    let mut to: usize = from;
    while to < chars.len() && is_digit(chars[to])
        invariant
            from <= to <= chars@.len(),
            digit_run(chars@, from as int, to as int),
        decreases chars.len() - to,
    {
        to = to + 1;
    }
    to
}

/// Whether `chars` spells the word given in small and in capital letters.
fn spells_word(chars: &[char], small: &[char], capital: &[char]) -> (r: bool)
    requires
        small@.len() == capital@.len(),
    ensures
        r == spells(chars@, small@, capital@),
{
    if chars.len() != small.len() {
        return false;
    }
    let mut at: usize = 0;
    while at < chars.len()
        invariant
            at <= chars@.len(),
            chars@.len() == small@.len(),
            small@.len() == capital@.len(),
            forall|i: int| 0 <= i < at ==> #[trigger] chars@[i] == small@[i] || chars@[i] == capital@[i],
        decreases chars.len() - at,
    {
        if chars[at] != small[at] && chars[at] != capital[at] {
            return false;
        }
        at = at + 1;
    }
    true
}

/// Whether `chars` is one of the words for infinity or for not-a-number.
pub fn is_special(chars: &[char]) -> (r: bool)
    ensures
        r == special(chars@),
{
    let inf_small: [char; 3] = ['i', 'n', 'f'];
    let inf_capital: [char; 3] = ['I', 'N', 'F'];
    let infinity_small: [char; 8] = ['i', 'n', 'f', 'i', 'n', 'i', 't', 'y'];
    let infinity_capital: [char; 8] = ['I', 'N', 'F', 'I', 'N', 'I', 'T', 'Y'];
    let nan_small: [char; 3] = ['n', 'a', 'n'];
    let nan_capital: [char; 3] = ['N', 'A', 'N'];
    assert(inf_small@ == seq!['i', 'n', 'f']);
    assert(inf_capital@ == seq!['I', 'N', 'F']);
    assert(infinity_small@ == seq!['i', 'n', 'f', 'i', 'n', 'i', 't', 'y']);
    assert(infinity_capital@ == seq!['I', 'N', 'F', 'I', 'N', 'I', 'T', 'Y']);
    assert(nan_small@ == seq!['n', 'a', 'n']);
    assert(nan_capital@ == seq!['N', 'A', 'N']);
    spells_word(chars, inf_small.as_slice(), inf_capital.as_slice()) || spells_word(
        chars,
        infinity_small.as_slice(),
        infinity_capital.as_slice(),
    ) || spells_word(chars, nan_small.as_slice(), nan_capital.as_slice())
}

/// Whether `chars` is a decimal text: a mantissa, and an exponent or none.
pub fn is_decimal(chars: &[char]) -> (r: bool)
    ensures
        r == decimal(chars@),
{
    let ghost s = chars@;
    let n: usize = chars.len();
    let a: usize = skip_digits(chars, 0);
    let point: bool = a < n && chars[a] == '.';
    let b: usize = if point {
        skip_digits(chars, a + 1)
    } else {
        a
    };
    let count: usize = if point {
        b - 1
    } else {
        b
    };
    if count == 0 {
        proof {
            assert forall|k: int| 0 <= k <= s.len() && mantissa(#[trigger] s.take(k)) implies !(k
                == s.len() || exponent(s.skip(k))) by {
                if k == s.len() || exponent(s.skip(k)) {
                    lemma_mantissa_end(s, k, a as int, b as int);
                }
            }
        }
        return false;
    }
    proof {
        let m = s.take(b as int);
        if point {
            assert(m[a as int] == '.');
            assert(digits(m.take(a as int)));
            assert(digits(m.skip(a as int + 1)));
            assert(mantissa(m));
        } else {
            assert(digits(m));
            assert(mantissa(m));
        }
    }
    if b == n {
        return true;
    }
    let ghost tail = s.skip(b as int);
    assert(tail[0] == s[b as int]);
    if chars[b] != 'e' && chars[b] != 'E' {
        proof {
            assert forall|k: int| 0 <= k <= s.len() && mantissa(#[trigger] s.take(k)) implies !(k
                == s.len() || exponent(s.skip(k))) by {
                if k == s.len() || exponent(s.skip(k)) {
                    lemma_mantissa_end(s, k, a as int, b as int);
                }
            }
        }
        return false;
    }
    let signed: bool = b + 1 < n && is_sign(chars[b + 1]);
    let c: usize = if signed {
        b + 2
    } else {
        b + 1
    };
    let d: usize = skip_digits(chars, c);
    let r: bool = d == n && d > c;
    proof {
        if b + 1 < n {
            assert(tail[1] == s[b as int + 1]);
        }
        let rest = s.skip(c as int);
        assert(rest == if signed {
            tail.skip(2)
        } else {
            tail.skip(1)
        });
        if r {
            assert(digits(rest));
            assert(exponent(tail));
        } else {
            if exponent(tail) {
                assert(digits(rest));
                if d < n {
                    assert(rest[d - c] == s[d as int]);
                }
            }
            assert(!exponent(tail));
            assert forall|k: int| 0 <= k <= s.len() && mantissa(#[trigger] s.take(k)) implies !(k
                == s.len() || exponent(s.skip(k))) by {
                if k == s.len() || exponent(s.skip(k)) {
                    lemma_mantissa_end(s, k, a as int, b as int);
                }
            }
        }
    }
    r
}

/// Whether `chars` is a number literal.
pub fn is_number(chars: &[char]) -> (r: bool)
    ensures
        r == number(chars@),
{
    let body: &[char] = if chars.len() > 0 && is_sign(chars[0]) {
        vstd::slice::slice_subrange(chars, 1, chars.len())
    } else {
        chars
    };
    is_special(body) || is_decimal(body)
}

} // verus!
