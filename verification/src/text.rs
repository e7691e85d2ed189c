//! Byte- and character-level string utilities: the lexicographic order used
//! for stable key ordering, string equality, and substring search.

use vstd::prelude::*;
use vstd::string::*;
use vstd::utf8::{encode_utf8, encode_utf8_decode_utf8};

verus! {

/// Strict lexicographic order on byte sequences: `a` comes before `b`.
pub open spec fn lex_lt(a: Seq<u8>, b: Seq<u8>) -> bool
    decreases a.len(),
{
    if b.len() == 0 {
        false
    } else if a.len() == 0 {
        true
    } else if a[0] < b[0] {
        true
    } else if a[0] > b[0] {
        false
    } else {
        lex_lt(a.drop_first(), b.drop_first())
    }
}

/// Strict lexicographic order on keys, by their UTF-8 encodings.  This is
/// the order `Ord` on Rust strings uses, and the order tracked keys are
/// listed in.
pub open spec fn key_lt(a: Seq<char>, b: Seq<char>) -> bool {
    lex_lt(encode_utf8(a), encode_utf8(b))
}

pub proof fn lemma_lex_lt_irrefl(a: Seq<u8>)
    ensures
        !lex_lt(a, a),
    decreases a.len(),
{
    if a.len() > 0 {
        lemma_lex_lt_irrefl(a.drop_first());
    }
}

pub proof fn lemma_lex_lt_trans(a: Seq<u8>, b: Seq<u8>, c: Seq<u8>)
    requires
        lex_lt(a, b),
        lex_lt(b, c),
    ensures
        lex_lt(a, c),
    decreases a.len(),
{
    if a.len() > 0 && b.len() > 0 && c.len() > 0 && a[0] == b[0] && b[0] == c[0] {
        lemma_lex_lt_trans(a.drop_first(), b.drop_first(), c.drop_first());
    }
}

/// The order is total: two byte sequences that are not ordered either way
/// are equal.
pub proof fn lemma_lex_lt_connected(a: Seq<u8>, b: Seq<u8>)
    requires
        !lex_lt(a, b),
        !lex_lt(b, a),
    ensures
        a =~= b,
    decreases a.len(),
{
    if a.len() > 0 && b.len() > 0 {
        lemma_lex_lt_connected(a.drop_first(), b.drop_first());
        assert(a =~= seq![a[0]] + a.drop_first());
        assert(b =~= seq![b[0]] + b.drop_first());
    }
}

/// UTF-8 encoding is injective, so equal encodings mean equal strings.
pub proof fn lemma_encode_injective(a: Seq<char>, b: Seq<char>)
    requires
        encode_utf8(a) == encode_utf8(b),
    ensures
        a == b,
{
    encode_utf8_decode_utf8(a);
    encode_utf8_decode_utf8(b);
}

/// Keys that are not ordered either way are equal.
pub proof fn lemma_key_lt_connected(a: Seq<char>, b: Seq<char>)
    requires
        !key_lt(a, b),
        !key_lt(b, a),
    ensures
        a == b,
{
    lemma_lex_lt_connected(encode_utf8(a), encode_utf8(b));
    lemma_encode_injective(a, b);
}

/// Dropping a shared prefix does not change how two byte sequences compare.
proof fn lemma_lex_lt_skip_prefix(a: Seq<u8>, b: Seq<u8>, i: int)
    requires
        0 <= i <= a.len(),
        i <= b.len(),
        a.subrange(0, i) =~= b.subrange(0, i),
    ensures
        lex_lt(a, b) == lex_lt(a.skip(i), b.skip(i)),
    decreases i,
{
    if i > 0 {
        assert(a[0] == b[0]) by {
            assert(a.subrange(0, i)[0] == b.subrange(0, i)[0]);
        }
        assert(a.drop_first().subrange(0, i - 1) =~= b.drop_first().subrange(0, i - 1)) by {
            assert forall|k: int| 0 <= k < i - 1 implies a.drop_first()[k] == b.drop_first()[k] by {
                assert(a.subrange(0, i)[k + 1] == b.subrange(0, i)[k + 1]);
            }
        }
        lemma_lex_lt_skip_prefix(a.drop_first(), b.drop_first(), i - 1);
        assert(a.drop_first().skip(i - 1) =~= a.skip(i));
        assert(b.drop_first().skip(i - 1) =~= b.skip(i));
        if b.len() == 0 {
        } else if a.len() == 0 {
        } else {
            assert(lex_lt(a, b) == lex_lt(a.drop_first(), b.drop_first()));
        }
    } else {
        assert(a.skip(0) =~= a);
        assert(b.skip(0) =~= b);
    }
}

/// Compares two byte slices in lexicographic order.
pub fn bytes_lt(a: &[u8], b: &[u8]) -> (r: bool)
    ensures
        r == lex_lt(a@, b@),
{
    let alen: usize = a.len();
    let blen: usize = b.len();
    let n: usize = if alen < blen {
        alen
    } else {
        blen
    };
    let mut i: usize = 0;
    while i < n
        invariant
            0 <= i <= n,
            n == if alen < blen {
                alen
            } else {
                blen
            },
            alen == a@.len(),
            blen == b@.len(),
            a@.subrange(0, i as int) =~= b@.subrange(0, i as int),
        decreases n - i,
    {
        let x = a[i];
        let y = b[i];
        if x < y {
            proof {
                lemma_lex_lt_skip_prefix(a@, b@, i as int);
            }
            return true;
        }
        if x > y {
            proof {
                lemma_lex_lt_skip_prefix(a@, b@, i as int);
            }
            return false;
        }
        proof {
            assert(a@.subrange(0, i + 1 as int) =~= b@.subrange(0, i + 1 as int));
        }
        i = i + 1;
    }
    proof {
        lemma_lex_lt_skip_prefix(a@, b@, n as int);
    }
    alen < blen
}

/// Tests two byte slices for equality.
pub fn bytes_eq(a: &[u8], b: &[u8]) -> (r: bool)
    ensures
        r == (a@ == b@),
{
    if a.len() != b.len() {
        return false;
    }
    let n: usize = a.len();
    let mut i: usize = 0;
    while i < n
        invariant
            0 <= i <= n,
            n == a@.len(),
            n == b@.len(),
            a@.subrange(0, i as int) =~= b@.subrange(0, i as int),
        decreases n - i,
    {
        if a[i] != b[i] {
            return false;
        }
        proof {
            assert(a@.subrange(0, i + 1 as int) =~= b@.subrange(0, i + 1 as int));
        }
        i = i + 1;
    }
    proof {
        assert(a@.subrange(0, n as int) =~= a@);
        assert(b@.subrange(0, n as int) =~= b@);
    }
    true
}

/// Compares two strings in the lexicographic order of their UTF-8 bytes.
pub fn str_lt(a: &str, b: &str) -> (r: bool)
    ensures
        r == key_lt(a@, b@),
{
    bytes_lt(a.as_bytes(), b.as_bytes())
}

/// Tests two strings for equality.
pub fn str_eq(a: &str, b: &str) -> (r: bool)
    ensures
        r == (a@ == b@),
{
    let r = bytes_eq(a.as_bytes(), b.as_bytes());
    proof {
        if a.spec_bytes() == b.spec_bytes() {
            lemma_encode_injective(a@, b@);
        }
    }
    r
}

/// `needle` occurs as a contiguous run inside `hay`.
pub open spec fn contains_seq(hay: Seq<u8>, needle: Seq<u8>) -> bool {
    exists|i: int|
        0 <= i && i + needle.len() <= hay.len() && #[trigger] hay.subrange(
            i,
            i + needle.len() as int,
        ) =~= needle
}

/// Naive substring search over byte slices.
pub fn contains_bytes(hay: &[u8], needle: &[u8]) -> (r: bool)
    ensures
        r == contains_seq(hay@, needle@),
{
    let m: usize = needle.len();
    let n: usize = hay.len();
    if m > n {
        return false;
    }
    let mut i: usize = 0;
    while i <= n - m
        invariant
            0 <= i <= n - m + 1,
            m <= n,
            m == needle@.len(),
            n == hay@.len(),
            forall|j: int|
                0 <= j < i ==> #[trigger] hay@.subrange(j, j + needle@.len() as int) !~= needle@,
        decreases n - m + 1 - i,
    {
        let mut k: usize = 0;
        let mut matched: bool = true;
        while k < m
            invariant
                0 <= k <= m,
                m == needle@.len(),
                n == hay@.len(),
                i + m <= n,
                matched == (hay@.subrange(i as int, i + k as int) =~= needle@.subrange(
                    0,
                    k as int,
                )),
            decreases m - k,
        {
            if hay[i + k] != needle[k] {
                matched = false;
                proof {
                    assert(hay@.subrange(i as int, i + k + 1 as int)[k as int] != needle@.subrange(
                        0,
                        k + 1 as int,
                    )[k as int]);
                }
                k = m;
            } else {
                proof {
                    if matched {
                        assert(hay@.subrange(i as int, i + k + 1 as int) =~= hay@.subrange(
                            i as int,
                            i + k as int,
                        ).push(hay@[i + k]));
                        assert(needle@.subrange(0, k + 1 as int) =~= needle@.subrange(
                            0,
                            k as int,
                        ).push(needle@[k as int]));
                    } else {
                        let w = choose|w: int|
                            0 <= w < k && hay@.subrange(i as int, i + k as int)[w]
                                != needle@.subrange(0, k as int)[w];
                        assert(hay@.subrange(i as int, i + k + 1 as int)[w] != needle@.subrange(
                            0,
                            k + 1 as int,
                        )[w]);
                    }
                }
                k = k + 1;
            }
        }
        if matched {
            proof {
                assert(needle@.subrange(0, m as int) =~= needle@);
            }
            return true;
        }
        i = i + 1;
    }
    false
}

/// Case-insensitive comparison of ASCII letters: lower-cases one byte.
pub open spec fn lower_byte(b: u8) -> u8 {
    if 65 <= b && b <= 90 {
        (b + 32) as u8
    } else {
        b
    }
}

/// Equality of byte sequences up to ASCII letter case.
pub open spec fn eq_ignore_case(a: Seq<u8>, b: Seq<u8>) -> bool {
    a.len() == b.len() && (forall|i: int|
        0 <= i < a.len() ==> lower_byte(a[i]) == lower_byte(b[i]))
}

/// Tests two byte slices for equality, ignoring ASCII letter case.
pub fn bytes_eq_ignore_case(a: &[u8], b: &[u8]) -> (r: bool)
    ensures
        r == eq_ignore_case(a@, b@),
{
    if a.len() != b.len() {
        return false;
    }
    let n: usize = a.len();
    let mut i: usize = 0;
    while i < n
        invariant
            0 <= i <= n,
            n == a@.len(),
            n == b@.len(),
            forall|j: int| 0 <= j < i ==> lower_byte(a@[j]) == lower_byte(b@[j]),
        decreases n - i,
    {
        let x = a[i];
        let y = b[i];
        let xl: u8 = if 65 <= x && x <= 90 {
            x + 32
        } else {
            x
        };
        let yl: u8 = if 65 <= y && y <= 90 {
            y + 32
        } else {
            y
        };
        if xl != yl {
            return false;
        }
        i = i + 1;
    }
    true
}

/// HTTP optional whitespace: space or horizontal tab.
pub open spec fn is_ows(c: char) -> bool {
    c == ' ' || c == '\t'
}

/// `s` without its leading optional whitespace.
pub open spec fn trim_front(s: Seq<char>) -> Seq<char>
    decreases s.len(),
{
    if s.len() > 0 && is_ows(s.first()) {
        trim_front(s.drop_first())
    } else {
        s
    }
}

/// `s` without its trailing optional whitespace.
pub open spec fn trim_back(s: Seq<char>) -> Seq<char>
    decreases s.len(),
{
    if s.len() > 0 && is_ows(s.last()) {
        trim_back(s.drop_last())
    } else {
        s
    }
}

/// `s` without leading and trailing optional whitespace.
pub open spec fn trim_ows(s: Seq<char>) -> Seq<char> {
    trim_back(trim_front(s))
}

/// `[i, j)` bounds one element of a comma-separated list: it reaches
/// from one boundary to the next and holds no comma itself.
pub open spec fn is_list_element(h: Seq<char>, i: int, j: int) -> bool {
    &&& 0 <= i <= j <= h.len()
    &&& i == 0 || h[i - 1] == ','
    &&& j == h.len() || h[j] == ','
    &&& forall|k: int| i <= k < j ==> h[k] != ','
}

/// Some element of the comma-separated list `h`, trimmed of optional
/// whitespace, is exactly `etag`.
pub open spec fn etag_list_matches(h: Seq<char>, etag: Seq<char>) -> bool {
    exists|i: int, j: int|
        is_list_element(h, i, j) && trim_ows(#[trigger] h.subrange(i, j)) == etag
}

proof fn lemma_trim_front_at(s: Seq<char>, k: int)
    requires
        0 <= k <= s.len(),
        forall|m: int| 0 <= m < k ==> is_ows(s[m]),
        k == s.len() || !is_ows(s[k]),
    ensures
        trim_front(s) =~= s.skip(k),
    decreases k,
{
    if k == 0 {
        assert(s.skip(0) =~= s);
    } else {
        lemma_trim_front_at(s.drop_first(), k - 1);
        assert(s.drop_first().skip(k - 1) =~= s.skip(k));
    }
}

proof fn lemma_trim_back_at(s: Seq<char>, k: int)
    requires
        0 <= k <= s.len(),
        forall|m: int| k <= m < s.len() ==> is_ows(s[m]),
        k == 0 || !is_ows(s[k - 1]),
    ensures
        trim_back(s) =~= s.take(k),
    decreases s.len(),
{
    if k == s.len() {
        assert(s.take(k) =~= s);
    } else {
        lemma_trim_back_at(s.drop_last(), k);
        assert(s.drop_last().take(k) =~= s.take(k));
    }
}

/// Two elements of the list with the same right boundary have the same
/// left boundary.
proof fn lemma_element_start_unique(h: Seq<char>, i: int, i2: int, j: int)
    requires
        is_list_element(h, i, j),
        is_list_element(h, i2, j),
    ensures
        i == i2,
{
    if i < i2 {
        assert(h[i2 - 1] == ',');
        assert(h[i2 - 1] != ',');
    }
    if i2 < i {
        assert(h[i - 1] == ',');
        assert(h[i - 1] != ',');
    }
}

/// Whether `c` is HTTP optional whitespace.
fn is_ows_char(c: char) -> (r: bool)
    ensures
        r == is_ows(c),
{
    c == ' ' || c == '\t'
}

/// Whether the element `[i, j)` of `header`, trimmed, equals `etag`.
fn element_matches(header: &str, i: usize, j: usize, etag: &str) -> (r: bool)
    requires
        i <= j,
        j <= header@.len(),
    ensures
        r == (trim_ows(header@.subrange(i as int, j as int)) == etag@),
{
    let mut a: usize = i;
    while a < j && is_ows_char(header.get_char(a))
        invariant
            i <= a <= j,
            j <= header@.len(),
            forall|m: int| i <= m < a ==> is_ows(header@[m]),
        decreases j - a,
    {
        a = a + 1;
    }
    let mut b: usize = j;
    while b > a && is_ows_char(header.get_char(b - 1))
        invariant
            a <= b <= j,
            j <= header@.len(),
            forall|m: int| b <= m < j ==> is_ows(header@[m]),
        decreases b,
    {
        b = b - 1;
    }
    proof {
        let sub = header@.subrange(i as int, j as int);
        assert forall|m: int| 0 <= m < a - i implies is_ows(sub[m]) by {
            assert(sub[m] == header@[i + m]);
        }
        if a < j {
            assert(sub[a - i] == header@[a as int]);
        }
        lemma_trim_front_at(sub, a - i);
        let fronted = sub.skip(a - i);
        assert(fronted =~= header@.subrange(a as int, j as int));
        assert forall|m: int| b - a <= m < fronted.len() implies is_ows(fronted[m]) by {
            assert(fronted[m] == header@[a + m]);
        }
        if b > a {
            assert(fronted[b - a - 1] == header@[b - 1]);
        }
        lemma_trim_back_at(fronted, b - a);
        assert(fronted.take(b - a) =~= header@.subrange(a as int, b as int));
        assert(trim_ows(sub) == header@.subrange(a as int, b as int));
    }
    let ghost trimmed = header@.subrange(a as int, b as int);
    let m = etag.unicode_len();
    if b - a != m {
        proof {
            assert(trimmed.len() != etag@.len());
        }
        return false;
    }
    let mut t: usize = 0;
    while t < m
        invariant
            0 <= t <= m,
            i <= a <= b <= header@.len(),
            b - a == m,
            m == etag@.len(),
            trimmed == header@.subrange(a as int, b as int),
            trim_ows(header@.subrange(i as int, j as int)) == trimmed,
            forall|k: int| 0 <= k < t ==> header@[a + k] == etag@[k],
        decreases m - t,
    {
        if header.get_char(a + t) != etag.get_char(t) {
            proof {
                assert(trimmed[t as int] == header@[a + t]);
            }
            return false;
        }
        t = t + 1;
    }
    proof {
        assert(trimmed =~= etag@);
    }
    true
}

/// Whether any element of a comma-separated tag list, trimmed of
/// optional whitespace, is exactly `etag`.  This is how a conditional
/// request's tag list is matched against the tag of a cached resource.
pub fn etag_header_matches(header: &str, etag: &str) -> (r: bool)
    ensures
        r == etag_list_matches(header@, etag@),
{
    let n = header.unicode_len();
    let mut start: usize = 0;
    let mut pos: usize = 0;
    while pos < n
        invariant
            0 <= start <= pos <= n,
            n == header@.len(),
            start == 0 || header@[start - 1] == ',',
            forall|k: int| start <= k < pos ==> header@[k] != ',',
            forall|i: int, j: int|
                #[trigger] is_list_element(header@, i, j) && j < pos ==> trim_ows(
                    header@.subrange(i, j),
                ) != etag@,
        decreases n - pos,
    {
        if header.get_char(pos) == ',' {
            if element_matches(header, start, pos, etag) {
                proof {
                    assert(is_list_element(header@, start as int, pos as int));
                }
                return true;
            }
            proof {
                assert forall|i: int, j: int|
                    #[trigger] is_list_element(header@, i, j) && j < pos + 1 implies trim_ows(
                    header@.subrange(i, j),
                ) != etag@ by {
                    if j == pos {
                        assert(is_list_element(header@, start as int, pos as int));
                        lemma_element_start_unique(header@, i, start as int, j);
                    }
                }
            }
            start = pos + 1;
        } else {
            proof {
                assert forall|i: int, j: int|
                    #[trigger] is_list_element(header@, i, j) && j < pos + 1 implies trim_ows(
                    header@.subrange(i, j),
                ) != etag@ by {
                    if j == pos {
                        assert(header@[j] == ',');
                    }
                }
            }
        }
        pos = pos + 1;
    }
    let r = element_matches(header, start, n, etag);
    proof {
        if r {
            assert(is_list_element(header@, start as int, n as int));
        } else {
            assert forall|i: int, j: int|
                #[trigger] is_list_element(header@, i, j) implies trim_ows(header@.subrange(i, j))
                != etag@ by {
                if j == n {
                    assert(is_list_element(header@, start as int, n as int));
                    lemma_element_start_unique(header@, i, start as int, j);
                }
            }
        }
    }
    r
}

/// The decimal digit character for `d`.
pub open spec fn digit_char(d: int) -> char {
    if d == 0 {
        '0'
    } else if d == 1 {
        '1'
    } else if d == 2 {
        '2'
    } else if d == 3 {
        '3'
    } else if d == 4 {
        '4'
    } else if d == 5 {
        '5'
    } else if d == 6 {
        '6'
    } else if d == 7 {
        '7'
    } else if d == 8 {
        '8'
    } else {
        '9'
    }
}

/// The decimal digits of `n`, most significant first.
pub open spec fn dec_digits(n: int) -> Seq<char>
    decreases n,
{
    if n < 10 {
        seq![digit_char(n)]
    } else {
        dec_digits(n / 10).push(digit_char(n % 10))
    }
}

/// One decimal digit as a string.
fn digit_str(d: u16) -> (r: &'static str)
    requires
        d < 10,
    ensures
        r@ =~= seq![digit_char(d as int)],
{
    proof {
        reveal_strlit("0");
        reveal_strlit("1");
        reveal_strlit("2");
        reveal_strlit("3");
        reveal_strlit("4");
        reveal_strlit("5");
        reveal_strlit("6");
        reveal_strlit("7");
        reveal_strlit("8");
        reveal_strlit("9");
    }
    match d {
        0 => "0",
        1 => "1",
        2 => "2",
        3 => "3",
        4 => "4",
        5 => "5",
        6 => "6",
        7 => "7",
        8 => "8",
        _ => "9",
    }
}

/// Formats a port number in decimal.
pub fn u16_to_dec(n: u16) -> (r: String)
    ensures
        r@ == dec_digits(n as int),
    decreases n,
{
    if n < 10 {
        let d = digit_str(n);
        let r = d.to_owned();
        proof {
            assert(r@ =~= dec_digits(n as int));
        }
        r
    } else {
        let mut r = u16_to_dec(n / 10);
        r.append(digit_str(n % 10));
        proof {
            assert(r@ =~= dec_digits(n as int));
        }
        r
    }
}

/// Formats a host address (hostname and port) for printing.  An IPv6
/// address literal is bracketed, so the port separator stays
/// unambiguous; whether the hostname is one is the caller's
/// determination.
pub fn format_host(hostname: &str, port: u16, ipv6_literal: bool) -> (r: String)
    ensures
        ipv6_literal ==> r@ == "["@ + hostname@ + "]:"@ + dec_digits(port as int),
        !ipv6_literal ==> r@ == hostname@ + ":"@ + dec_digits(port as int),
{
    let port_str = u16_to_dec(port);
    if ipv6_literal {
        let mut out = String::from_str("[");
        out.append(hostname);
        out.append("]:");
        out.append(port_str.as_str());
        out
    } else {
        let mut out = hostname.to_owned();
        out.append(":");
        out.append(port_str.as_str());
        out
    }
}

/// Wraps a value in the ANSI escape codes for the highlight color used on
/// startup banners.
pub fn string_colored(value: &str) -> (r: String)
    ensures
        r@ == "\x1b[1;38;5;153m"@ + value@ + "\x1b[0m"@,
{
    let mut out = String::from_str("\x1b[1;38;5;153m");
    out.append(value);
    out.append("\x1b[0m");
    out
}

} // verus!
