//! Small string-building helpers shared by the other modules, with their
//! character-level specifications.

use vstd::prelude::*;

verus! {

/// The ASCII digit for `d` (0..=9).
pub open spec fn digit_char(d: int) -> char {
    (48 + d) as char
}

/// The decimal rendering of `n`, most significant digit first, no leading zeros.
pub open spec fn decimal(n: nat) -> Seq<char>
    decreases n,
{
    if n < 10 {
        seq![digit_char(n as int)]
    } else {
        decimal(n / 10).push(digit_char((n % 10) as int))
    }
}

/// The upper-case hexadecimal digit for `d` (0..=15).
pub open spec fn hex_digit(d: int) -> char {
    if d < 10 {
        (48 + d) as char
    } else {
        (55 + d) as char
    }
}

/// Appends one character to a `String`.
/// Trusted: calls `String::push`, which std documents as appending the given
/// `char` to the end of the string; the contract says exactly that.
#[verifier::external_body]
pub(crate) fn push_char(s: &mut String, c: char)
    ensures
        final(s)@ == old(s)@.push(c),
{
    s.push(c);
}

/// Appends the decimal rendering of `n` to `s`.
pub fn push_decimal(s: &mut String, n: u32)
    ensures
        final(s)@ == old(s)@ + decimal(n as nat),
    decreases n,
{
    if n >= 10 {
        push_decimal(s, n / 10);
    }
    let d: u8 = (n % 10) as u8;
    push_char(s, (48u8 + d) as char);
    proof {
        assert(final(s)@ =~= old(s)@ + decimal(n as nat));
    }
}


/// Unicode `White_Space` code points (the set that `char::is_whitespace`
/// and `str::trim` use).
pub open spec fn spec_is_whitespace(c: char) -> bool {
    let u = c as int;
    ||| 0x09 <= u <= 0x0D
    ||| u == 0x20
    ||| u == 0x85
    ||| u == 0xA0
    ||| u == 0x1680
    ||| 0x2000 <= u <= 0x200A
    ||| u == 0x2028
    ||| u == 0x2029
    ||| u == 0x202F
    ||| u == 0x205F
    ||| u == 0x3000
}

/// `s` without its leading and trailing whitespace.
pub open spec fn trimmed(s: Seq<char>) -> Seq<char>
    decreases s.len(),
{
    if s.len() > 0 && spec_is_whitespace(s[0]) {
        trimmed(s.drop_first())
    } else if s.len() > 0 && spec_is_whitespace(s.last()) {
        trimmed(s.drop_last())
    } else {
        s
    }
}

/// Whether `c` is a Unicode white-space character.
pub fn is_whitespace(c: char) -> (b: bool)
    ensures
        b == spec_is_whitespace(c),
{
    let u = c as u32;
    (0x09 <= u && u <= 0x0D) || u == 0x20 || u == 0x85 || u == 0xA0 || u == 0x1680 || (0x2000
        <= u && u <= 0x200A) || u == 0x2028 || u == 0x2029 || u == 0x202F || u == 0x205F || u
        == 0x3000
}

proof fn lemma_trim_leading(s: Seq<char>, i: int)
    requires
        0 <= i <= s.len(),
        forall|k: int| 0 <= k < i ==> spec_is_whitespace(#[trigger] s[k]),
    ensures
        trimmed(s) == trimmed(s.skip(i)),
    decreases i,
{
    if i > 0 {
        lemma_trim_leading(s, i - 1);
        assert(s.skip(i - 1).drop_first() =~= s.skip(i));
        assert(s.skip(i - 1)[0] == s[i - 1]);
    } else {
        assert(s.skip(0) =~= s);
    }
}

proof fn lemma_trim_trailing(s: Seq<char>, e: int)
    requires
        1 <= e <= s.len(),
        !spec_is_whitespace(s[0]),
        forall|k: int| e <= k < s.len() ==> spec_is_whitespace(#[trigger] s[k]),
    ensures
        trimmed(s) == trimmed(s.take(e)),
    decreases s.len() - e,
{
    if e < s.len() {
        lemma_trim_trailing(s, e + 1);
        let t = s.take(e + 1);
        assert(t.drop_last() =~= s.take(e));
        assert(t[0] == s[0]);
        assert(t.last() == s[e]);
    } else {
        assert(s.take(e) =~= s);
    }
}

/// `s` with leading and trailing whitespace removed.
pub fn trim(s: &str) -> (r: String)
    ensures
        r@ == trimmed(s@),
{
    let n = s.unicode_len();
    let mut start: usize = 0;
    while start < n && is_whitespace(s.get_char(start))
        invariant
            n == s@.len(),
            start <= n,
            forall|k: int| 0 <= k < start ==> spec_is_whitespace(#[trigger] s@[k]),
        decreases n - start,
    {
        start = start + 1;
    }
    proof {
        lemma_trim_leading(s@, start as int);
    }
    if start == n {
        proof {
            assert(s@.skip(n as int).len() == 0);
        }
        return String::new();
    }
    let mut end: usize = n;
    while end > start + 1 && is_whitespace(s.get_char(end - 1))
        invariant
            n == s@.len(),
            start < end <= n,
            forall|k: int| end <= k < n ==> spec_is_whitespace(#[trigger] s@[k]),
        decreases end,
    {
        end = end - 1;
    }
    let ghost t = s@.skip(start as int);
    proof {
        assert forall|k: int| end - start <= k < t.len() implies spec_is_whitespace(#[trigger] t[k]) by {
            assert(t[k] == s@[start + k]);
        }
        lemma_trim_trailing(t, end - start);
        let u = t.take(end - start);
        assert(u =~= s@.subrange(start as int, end as int));
        assert(u[0] == s@[start as int]);
        assert(u.last() == s@[end - 1]);
    }
    String::from_str(s.substring_char(start, end))
}


/// A trimmed string neither starts nor ends with whitespace, and trimming it
/// again changes nothing.
pub proof fn law_trimmed(s: Seq<char>)
    ensures
        trimmed(s).len() > 0 ==> !spec_is_whitespace(trimmed(s)[0]) && !spec_is_whitespace(
            trimmed(s).last(),
        ),
        trimmed(trimmed(s)) == trimmed(s),
    decreases s.len(),
{
    if s.len() > 0 && spec_is_whitespace(s[0]) {
        law_trimmed(s.drop_first());
    } else if s.len() > 0 && spec_is_whitespace(s.last()) {
        law_trimmed(s.drop_last());
    }
}


proof fn lemma_trimmed_bounds(s: Seq<char>) -> (ab: (int, int))
    ensures
        0 <= ab.0 <= ab.1 <= s.len(),
        trimmed(s) == s.subrange(ab.0, ab.1),
        forall|k: int| 0 <= k < ab.0 ==> spec_is_whitespace(#[trigger] s[k]),
        forall|k: int| ab.1 <= k < s.len() ==> spec_is_whitespace(#[trigger] s[k]),
        ab.0 < ab.1 ==> !spec_is_whitespace(s[ab.0]) && !spec_is_whitespace(s[ab.1 - 1]),
        ab.0 == ab.1 ==> forall|k: int| 0 <= k < s.len() ==> spec_is_whitespace(#[trigger] s[k]),
    decreases s.len(),
{
    if s.len() > 0 && spec_is_whitespace(s[0]) {
        let t = s.drop_first();
        let (a, b) = lemma_trimmed_bounds(t);
        assert(t.subrange(a, b) =~= s.subrange(a + 1, b + 1));
        assert forall|k: int| 0 <= k < a + 1 implies spec_is_whitespace(#[trigger] s[k]) by {
            if k > 0 {
                assert(s[k] == t[k - 1]);
            }
        }
        assert forall|k: int| b + 1 <= k < s.len() implies spec_is_whitespace(#[trigger] s[k]) by {
            assert(s[k] == t[k - 1]);
        }
        if a == b {
            assert forall|k: int| 0 <= k < s.len() implies spec_is_whitespace(#[trigger] s[k]) by {
                if k > 0 {
                    assert(s[k] == t[k - 1]);
                }
            }
        }
        (a + 1, b + 1)
    } else if s.len() > 0 && spec_is_whitespace(s.last()) {
        let t = s.drop_last();
        let (a, b) = lemma_trimmed_bounds(t);
        assert(t.subrange(a, b) =~= s.subrange(a, b));
        assert forall|k: int| 0 <= k < a implies spec_is_whitespace(#[trigger] s[k]) by {
            assert(s[k] == t[k]);
        }
        assert forall|k: int| b <= k < s.len() implies spec_is_whitespace(#[trigger] s[k]) by {
            if k < s.len() - 1 {
                assert(s[k] == t[k]);
            }
        }
        if a == b {
            assert forall|k: int| 0 <= k < s.len() implies spec_is_whitespace(#[trigger] s[k]) by {
                if k < s.len() - 1 {
                    assert(s[k] == t[k]);
                }
            }
        }
        (a, b)
    } else {
        assert(s.subrange(0, s.len() as int) =~= s);
        (0, s.len() as int)
    }
}

/// Trimming removes exactly the whitespace at both ends: the result is the
/// part of `s` between its first and its last non-whitespace character, and
/// it is empty exactly when `s` is all whitespace.
pub proof fn law_trim_shape(s: Seq<char>)
    ensures
        exists|a: int, b: int|
            0 <= a <= b <= s.len() && trimmed(s) == #[trigger] s.subrange(a, b) && (forall|k: int|
                0 <= k < a ==> spec_is_whitespace(#[trigger] s[k])) && (forall|k: int|
                b <= k < s.len() ==> spec_is_whitespace(#[trigger] s[k])) && (a < b
                ==> !spec_is_whitespace(s[a]) && !spec_is_whitespace(s[b - 1])),
        trimmed(s).len() == 0 <==> forall|k: int| 0 <= k < s.len() ==> spec_is_whitespace(#[trigger] s[k]),
{
    let (a, b) = lemma_trimmed_bounds(s);
    assert(s.subrange(a, b).len() == b - a);
    if a < b {
        assert(!spec_is_whitespace(s[a]));
    }
}

/// Space, tab, line feed and carriage return are whitespace; no visible
/// ASCII character ('!' to '~') is.
pub proof fn law_whitespace_class(c: char)
    ensures
        spec_is_whitespace(' ') && spec_is_whitespace('\t') && spec_is_whitespace('\n')
            && spec_is_whitespace('\r'),
        '!' <= c <= '~' ==> !spec_is_whitespace(c),
{
}

} // verus!
