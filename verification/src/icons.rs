//! The app-icon `data:` URL shown next to a bound key: standard base64
//! (RFC 4648, with `=` padding) of the rendered PNG, and the name of the
//! icon file that a macOS bundle declares.

use vstd::prelude::*;
use crate::text::{push_char, trim, trimmed};

verus! {

/// The base64 alphabet: `A-Z`, `a-z`, `0-9`, `+`, `/` for the values 0..=63.
pub open spec fn b64_char(v: int) -> char {
    if v < 26 {
        (65 + v) as char
    } else if v < 52 {
        (97 + v - 26) as char
    } else if v < 62 {
        (48 + v - 52) as char
    } else if v == 62 {
        '+'
    } else {
        '/'
    }
}

/// The four characters that encode a group of `k` (1..=3) bytes `b0 b1 b2`
/// (missing bytes given as 0), padded with `=`.
pub open spec fn b64_group(b0: int, b1: int, b2: int, k: int) -> Seq<char> {
    seq![
        b64_char(b0 / 4),
        b64_char((b0 % 4) * 16 + b1 / 16),
        if k > 1 { b64_char((b1 % 16) * 4 + b2 / 64) } else { '=' },
        if k > 2 { b64_char(b2 % 64) } else { '=' },
    ]
}

/// Standard base64 of `d`: each group of three bytes becomes four
/// characters; a final group of one or two bytes is padded with `=`.
pub open spec fn spec_base64(d: Seq<u8>) -> Seq<char>
    decreases d.len(),
{
    if d.len() == 0 {
        seq![]
    } else if d.len() <= 3 {
        b64_group(
            d[0] as int,
            if d.len() > 1 { d[1] as int } else { 0 },
            if d.len() > 2 { d[2] as int } else { 0 },
            d.len() as int,
        )
    } else {
        b64_group(d[0] as int, d[1] as int, d[2] as int, 3) + spec_base64(d.skip(3))
    }
}

/// The length of the base64 of `d` is four characters per started group of
/// three bytes.
pub proof fn lemma_base64_len(d: Seq<u8>)
    ensures
        spec_base64(d).len() == 4 * ((d.len() + 2) / 3),
    decreases d.len(),
{
    if d.len() > 3 {
        lemma_base64_len(d.skip(3));
    }
}

/// The value (0..=63) of a base64 alphabet character.
pub open spec fn b64_value(c: char) -> int {
    let u = c as int;
    if 65 <= u <= 90 {
        u - 65
    } else if 97 <= u <= 122 {
        u - 97 + 26
    } else if 48 <= u <= 57 {
        u - 48 + 52
    } else if c == '+' {
        62
    } else {
        63
    }
}

proof fn lemma_b64_char(v: int)
    requires
        0 <= v < 64,
    ensures
        b64_value(b64_char(v)) == v,
        b64_char(v) != '=',
{
}

/// The bytes encoded by one group of four characters.
proof fn lemma_b64_group_decodes(b0: int, b1: int, b2: int, k: int)
    requires
        0 <= b0 < 256,
        0 <= b1 < 256,
        0 <= b2 < 256,
        1 <= k <= 3,
        k < 2 ==> b1 == 0,
        k < 3 ==> b2 == 0,
    ensures
        ({
            let g = b64_group(b0, b1, b2, k);
            &&& b0 == b64_value(g[0]) * 4 + b64_value(g[1]) / 16
            &&& k > 1 ==> b1 == (b64_value(g[1]) % 16) * 16 + b64_value(g[2]) / 4
            &&& k > 2 ==> b2 == (b64_value(g[2]) % 4) * 64 + b64_value(g[3])
            &&& (g[2] == '=') == (k == 1)
            &&& (g[3] == '=') == (k < 3)
        }),
{
    lemma_b64_char(b0 / 4);
    lemma_b64_char((b0 % 4) * 16 + b1 / 16);
    lemma_b64_char((b1 % 16) * 4 + b2 / 64);
    lemma_b64_char(b2 % 64);
}

/// Base64 loses nothing: different byte strings have different encodings.
pub proof fn law_base64_injective(a: Seq<u8>, b: Seq<u8>)
    ensures
        spec_base64(a) == spec_base64(b) ==> a == b,
    decreases a.len(),
{
    if spec_base64(a) == spec_base64(b) {
        let e = spec_base64(a);
        lemma_base64_len(a);
        lemma_base64_len(b);
        if a.len() == 0 || b.len() == 0 {
            assert(a.len() == 0 && b.len() == 0);
            assert(a =~= b);
        } else {
            let ka: int = if a.len() >= 3 { 3 } else { a.len() as int };
            let kb: int = if b.len() >= 3 { 3 } else { b.len() as int };
            let a1: int = if a.len() > 1 { a[1] as int } else { 0 };
            let a2: int = if a.len() > 2 { a[2] as int } else { 0 };
            let b1: int = if b.len() > 1 { b[1] as int } else { 0 };
            let b2: int = if b.len() > 2 { b[2] as int } else { 0 };
            let ga = b64_group(a[0] as int, a1, a2, ka);
            let gb = b64_group(b[0] as int, b1, b2, kb);
            lemma_b64_group_decodes(a[0] as int, a1, a2, ka);
            lemma_b64_group_decodes(b[0] as int, b1, b2, kb);
            if a.len() > 3 {
                assert(e == ga + spec_base64(a.skip(3)));
            } else {
                assert(e == ga);
            }
            if b.len() > 3 {
                assert(e == gb + spec_base64(b.skip(3)));
            } else {
                assert(e == gb);
            }
            assert(ga[0] == e[0] && ga[1] == e[1] && ga[2] == e[2] && ga[3] == e[3]);
            assert(gb[0] == e[0] && gb[1] == e[1] && gb[2] == e[2] && gb[3] == e[3]);
            assert(ka == kb);
            assert(a[0] == b[0]);
            if a.len() > 3 && b.len() > 3 {
                assert(spec_base64(a.skip(3)) =~= e.skip(4));
                assert(spec_base64(b.skip(3)) =~= e.skip(4));
                law_base64_injective(a.skip(3), b.skip(3));
                assert(a =~= seq![a[0], a[1], a[2]] + a.skip(3));
                assert(b =~= seq![b[0], b[1], b[2]] + b.skip(3));
            } else {
                assert(a.len() == b.len());
                assert(a =~= b);
            }
        }
    }
}

fn b64_char_of(v: u8) -> (c: char)
    requires
        v < 64,
    ensures
        c == b64_char(v as int),
{
    if v < 26 {
        (65u8 + v) as char
    } else if v < 52 {
        (97u8 + v - 26) as char
    } else if v < 62 {
        (48u8 + v - 52) as char
    } else if v == 62 {
        '+'
    } else {
        '/'
    }
}

/// Standard base64 encoding of `data`.
pub fn base64(data: &[u8]) -> (s: String)
    ensures
        s@ == spec_base64(data@),
        s@.len() == 4 * ((data@.len() + 2) / 3),
{
    let n = data.len();
    let mut out = String::new();
    let mut i: usize = 0;
    proof {
        assert(data@.skip(0) =~= data@);
    }
    while i < n
        invariant
            n == data@.len(),
            i <= n,
            spec_base64(data@) == out@ + spec_base64(data@.skip(i as int)),
        decreases n - i,
    {
        let ghost rest = data@.skip(i as int);
        let k: usize = if n - i >= 3 {
            3
        } else {
            n - i
        };
        let b0 = data[i];
        let b1: u8 = if k > 1 {
            data[i + 1]
        } else {
            0
        };
        let b2: u8 = if k > 2 {
            data[i + 2]
        } else {
            0
        };
        let ghost prev = out@;
        push_char(&mut out, b64_char_of(b0 / 4));
        push_char(&mut out, b64_char_of((b0 % 4) * 16 + b1 / 16));
        if k > 1 {
            push_char(&mut out, b64_char_of((b1 % 16) * 4 + b2 / 64));
        } else {
            push_char(&mut out, '=');
        }
        if k > 2 {
            push_char(&mut out, b64_char_of(b2 % 64));
        } else {
            push_char(&mut out, '=');
        }
        proof {
            let g = b64_group(b0 as int, b1 as int, b2 as int, k as int);
            assert(out@ =~= prev + g);
            if n - i > 3 {
                assert(rest.skip(3) =~= data@.skip(i + 3));
                assert(spec_base64(rest) == g + spec_base64(rest.skip(3)));
                assert(prev + (g + spec_base64(rest.skip(3))) =~= out@ + spec_base64(rest.skip(3)));
            } else {
                assert(spec_base64(rest) == g);
                assert(data@.skip(i + k) =~= Seq::<u8>::empty());
            }
        }
        i = i + k;
    }
    proof {
        assert(data@.skip(n as int) =~= Seq::<u8>::empty());
        assert(out@ + Seq::<char>::empty() =~= out@);
        lemma_base64_len(data@);
    }
    out
}

/// Base64 works group by group: after a whole number of three-byte groups
/// the encoding of what follows is appended unchanged.
pub proof fn law_base64_concat(a: Seq<u8>, b: Seq<u8>)
    requires
        a.len() % 3 == 0,
    ensures
        spec_base64(a + b) == spec_base64(a) + spec_base64(b),
    decreases a.len(),
{
    if a.len() == 0 {
        assert(a + b =~= b);
        assert(spec_base64(a) + spec_base64(b) =~= spec_base64(b));
    } else if b.len() == 0 {
        assert(a + b =~= a);
        assert(spec_base64(a) + spec_base64(b) =~= spec_base64(a));
    } else {
        let ab = a + b;
        assert(ab[0] == a[0] && ab[1] == a[1] && ab[2] == a[2]);
        assert(ab.skip(3) =~= a.skip(3) + b);
        law_base64_concat(a.skip(3), b);
        let g = b64_group(a[0] as int, a[1] as int, a[2] as int, 3);
        if a.len() == 3 {
            assert(a.skip(3) + b =~= b);
            assert(spec_base64(a) == g);
        } else {
            assert(spec_base64(a) == g + spec_base64(a.skip(3)));
        }
        assert(spec_base64(ab) == g + spec_base64(ab.skip(3)));
        assert(g + (spec_base64(a.skip(3)) + spec_base64(b)) =~= (g + spec_base64(a.skip(3)))
            + spec_base64(b));
    }
}

/// The encoding of a single group: three bytes `b0 b1 b2` become the
/// alphabet characters of the 6-bit values `b0 / 4`, `(b0 % 4) * 16 + b1 / 16`,
/// `(b1 % 16) * 4 + b2 / 64`, `b2 % 64`, in that order; a final group of two
/// or one bytes is padded with one or two `=`.
pub proof fn law_base64_group(b0: u8, b1: u8, b2: u8)
    ensures
        spec_base64(seq![b0, b1, b2]) == seq![
            b64_char(b0 as int / 4),
            b64_char((b0 as int % 4) * 16 + b1 as int / 16),
            b64_char((b1 as int % 16) * 4 + b2 as int / 64),
            b64_char(b2 as int % 64),
        ],
        spec_base64(seq![b0, b1]) == seq![
            b64_char(b0 as int / 4),
            b64_char((b0 as int % 4) * 16 + b1 as int / 16),
            b64_char((b1 as int % 16) * 4),
            '=',
        ],
        spec_base64(seq![b0]) == seq![b64_char(b0 as int / 4), b64_char((b0 as int % 4) * 16), '=', '='],
{
}

/// The alphabet: 0..=25 are 'A'..='Z', 26..=51 are 'a'..='z', 52..=61 are
/// '0'..='9', then '+' and '/'; every value has its own character, and none
/// is the padding '='.
pub proof fn law_base64_alphabet(v: int, w: int)
    requires
        0 <= v < 64,
        0 <= w < 64,
    ensures
        'A' <= b64_char(v) <= 'Z' <==> v < 26,
        'a' <= b64_char(v) <= 'z' <==> 26 <= v < 52,
        '0' <= b64_char(v) <= '9' <==> 52 <= v < 62,
        b64_char(v) == '+' <==> v == 62,
        b64_char(v) == '/' <==> v == 63,
        b64_char(v) == b64_char(w) ==> v == w,
        b64_char(v) != '=',
{
    lemma_b64_char(v);
    lemma_b64_char(w);
}

/// Decoding the first four characters gives back the first three bytes, in
/// order.
pub proof fn law_base64_first_group_decodes(d: Seq<u8>)
    requires
        d.len() >= 3,
    ensures
        ({
            let e = spec_base64(d);
            &&& d[0] == b64_value(e[0]) * 4 + b64_value(e[1]) / 16
            &&& d[1] == (b64_value(e[1]) % 16) * 16 + b64_value(e[2]) / 4
            &&& d[2] == (b64_value(e[2]) % 4) * 64 + b64_value(e[3])
        }),
{
    let g = b64_group(d[0] as int, d[1] as int, d[2] as int, 3);
    lemma_b64_group_decodes(d[0] as int, d[1] as int, d[2] as int, 3);
    if d.len() > 3 {
        assert(spec_base64(d) == g + spec_base64(d.skip(3)));
    } else {
        assert(spec_base64(d) == g);
    }
    assert(spec_base64(d)[0] == g[0] && spec_base64(d)[1] == g[1] && spec_base64(d)[2] == g[2]
        && spec_base64(d)[3] == g[3]);
}

/// The `data:` URL of a PNG image.
pub open spec fn png_data_url(png: Seq<u8>) -> Seq<char> {
    "data:image/png;base64,"@ + spec_base64(png)
}

/// The app icon as a PNG `data:` URL, given the rendered PNG bytes; `None`
/// when no icon could be rendered.
pub fn app_icon_data_url(png: Option<Vec<u8>>) -> (r: Option<String>)
    ensures
        png is None ==> r is None,
        png matches Some(bytes) ==> (r matches Some(u) && u@ == png_data_url(bytes@)),
{
    match png {
        None => None,
        Some(bytes) => {
            let mut url = String::from_str("data:image/png;base64,");
            let encoded = base64(bytes.as_slice());
            url.append(encoded.as_str());
            Some(url)
        },
    }
}

/// The suffix of an icon file name.
pub open spec fn icns_suffix() -> Seq<char> {
    seq!['.', 'i', 'c', 'n', 's']
}

pub open spec fn ends_with_icns(s: Seq<char>) -> bool {
    s.len() >= 5 && s.subrange(s.len() - 5, s.len() as int) == icns_suffix()
}

/// The icon file a bundle declares (its `CFBundleIconFile`), as the file
/// name to look up in `Contents/Resources`: surrounding whitespace removed and
/// `.icns` appended when missing; `None` when the declaration is blank.
pub open spec fn spec_icns_file_name(declared: Seq<char>) -> Option<Seq<char>> {
    let t = trimmed(declared);
    if t.len() == 0 {
        None
    } else if ends_with_icns(t) {
        Some(t)
    } else {
        Some(t + icns_suffix())
    }
}

/// A blank declaration names no file; otherwise the name is the declaration
/// trimmed, followed by ".icns" unless it already ends so, and it always ends
/// with ".icns".
pub proof fn law_icns_file_name(declared: Seq<char>)
    ensures
        spec_icns_file_name(declared) is None <==> trimmed(declared).len() == 0,
        spec_icns_file_name(declared) matches Some(n) ==> {
            let t = trimmed(declared);
            let sfx = seq!['.', 'i', 'c', 'n', 's'];
            &&& n.len() >= 5
            &&& n.subrange(n.len() - 5, n.len() as int) == sfx
            &&& n == t || n == t + sfx
            &&& (t.len() >= 5 && t.subrange(t.len() - 5, t.len() as int) == sfx) ==> n == t
        },
{
    let t = trimmed(declared);
    if t.len() > 0 && !ends_with_icns(t) {
        let n = t + icns_suffix();
        assert(n.subrange(n.len() - 5, n.len() as int) =~= icns_suffix());
    }
}

fn has_icns_suffix(s: &str) -> (b: bool)
    ensures
        b == ends_with_icns(s@),
{
    let n = s.unicode_len();
    if n < 5 {
        return false;
    }
    let b = s.get_char(n - 5) == '.' && s.get_char(n - 4) == 'i' && s.get_char(n - 3) == 'c'
        && s.get_char(n - 2) == 'n' && s.get_char(n - 1) == 's';
    proof {
        let t = s@.subrange(n - 5, n as int);
        if b {
            assert(t =~= icns_suffix());
        } else {
            assert(t[0] != '.' || t[1] != 'i' || t[2] != 'c' || t[3] != 'n' || t[4] != 's');
        }
    }
    b
}

/// The icon file name declared by a bundle (the output of reading its
/// `CFBundleIconFile`).
pub fn icns_file_name(declared: &str) -> (r: Option<String>)
    ensures
        r matches Some(s) ==> spec_icns_file_name(declared@) == Some(s@),
        r is None ==> spec_icns_file_name(declared@) is None,
{
    let mut name = trim(declared);
    if name.unicode_len() == 0 {
        return None;
    }
    if !has_icns_suffix(name.as_str()) {
        name.append(".icns");
        proof {
            reveal_strlit(".icns");
            assert(".icns"@ =~= icns_suffix());
        }
    }
    Some(name)
}

} // verus!
