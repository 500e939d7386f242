//! Namespace normalisation, property IRIs and the textual encodings they use.

use vstd::prelude::*;
use vstd::utf8::{decode_utf8, encode_utf8, encode_utf8_decode_utf8};
use std::hash::BuildHasher;

verus! {

/// Whether `c` has the Unicode `White_Space` property (PropList.txt): U+0009 to U+000D,
/// U+0020, U+0085, U+00A0, U+1680, U+2000 to U+200A, U+2028, U+2029, U+202F, U+205F, U+3000.
pub open spec fn unicode_white_space(c: char) -> bool {
    let u = c as u32;
    ||| 0x09 <= u <= 0x0D
    ||| u == 0x20
    ||| u == 0x85
    ||| u == 0xA0
    ||| u == 0x1680
    ||| 0x2000 <= u <= 0x200A
    ||| u == 0x2028
    ||| u == 0x2029
    ||| u == 0x202F
    ||| u == 0x205F
    ||| u == 0x3000
}

/// Whether `c` has the Unicode `White_Space` property, as `char::is_whitespace` reports it.
fn is_whitespace(c: char) -> (r: bool)
    ensures
        r == unicode_white_space(c),
{
    let u: u32 = c as u32;
    (0x09 <= u && u <= 0x0D) || u == 0x20 || u == 0x85 || u == 0xA0 || u == 0x1680 || (0x2000
        <= u && u <= 0x200A) || u == 0x2028 || u == 0x2029 || u == 0x202F || u == 0x205F || u
        == 0x3000
}

/// Calls `String::push`, which appends one character.
#[verifier::external_body]
pub(crate) fn push_char(s: &mut String, c: char)
    ensures
        final(s)@ == old(s)@.push(c),
{
    s.push(c)
}

/// `s` without its leading whitespace.
pub open spec fn trim_start_ws(s: Seq<char>) -> Seq<char>
    decreases s.len(),
{
    if s.len() > 0 && unicode_white_space(s[0]) {
        trim_start_ws(s.drop_first())
    } else {
        s
    }
}

/// `s` without its trailing whitespace.
pub open spec fn trim_end_ws(s: Seq<char>) -> Seq<char>
    decreases s.len(),
{
    if s.len() > 0 && unicode_white_space(s.last()) {
        trim_end_ws(s.drop_last())
    } else {
        s
    }
}

/// `s` without leading and trailing whitespace (what `str::trim` gives).
pub open spec fn trim_ws(s: Seq<char>) -> Seq<char> {
    trim_end_ws(trim_start_ws(s))
}

/// `s` without any trailing run of `c` (what `str::trim_end_matches(c)` gives).
pub open spec fn strip_trailing(s: Seq<char>, c: char) -> Seq<char>
    decreases s.len(),
{
    if s.len() > 0 && s.last() == c {
        strip_trailing(s.drop_last(), c)
    } else {
        s
    }
}

/// The namespace used when none is given or the given one is blank.
pub open spec fn default_namespace() -> Seq<char> {
    "https://purl.org/wiser/json2rdf/model#"@
}

/// The part of `s` before its first `c`; all of `s` when `c` does not occur in it.
pub open spec fn before_first(s: Seq<char>, c: char) -> Seq<char>
    decreases s.len(),
{
    if s.len() == 0 {
        s
    } else if s[0] == c {
        Seq::empty()
    } else {
        seq![s[0]] + before_first(s.drop_first(), c)
    }
}

/// A namespace in its normal form: trimmed, with trailing `/` and then trailing `#`
/// removed, any fragment that is left (from the first `#` on) cut off, and one `#`
/// appended; a blank namespace becomes the default one.
pub open spec fn normalized_namespace(ns: Seq<char>) -> Seq<char> {
    let t = trim_ws(ns);
    if t.len() == 0 {
        default_namespace()
    } else {
        before_first(strip_trailing(strip_trailing(t, '/'), '#'), '#').push('#')
    }
}

proof fn lemma_trim_start_step(s: Seq<char>, lo: int)
    requires
        0 <= lo < s.len(),
        unicode_white_space(s[lo]),
    ensures
        trim_start_ws(s.subrange(lo, s.len() as int)) == trim_start_ws(
            s.subrange(lo + 1, s.len() as int),
        ),
{
    assert(s.subrange(lo, s.len() as int).drop_first() =~= s.subrange(lo + 1, s.len() as int));
}

proof fn lemma_trim_end_step(s: Seq<char>, lo: int, hi: int)
    requires
        0 <= lo < hi <= s.len(),
        unicode_white_space(s[hi - 1]),
    ensures
        trim_end_ws(s.subrange(lo, hi)) == trim_end_ws(s.subrange(lo, hi - 1)),
{
    assert(s.subrange(lo, hi).drop_last() =~= s.subrange(lo, hi - 1));
}

proof fn lemma_strip_step(s: Seq<char>, lo: int, hi: int, c: char)
    requires
        0 <= lo < hi <= s.len(),
        s[hi - 1] == c,
    ensures
        strip_trailing(s.subrange(lo, hi), c) == strip_trailing(s.subrange(lo, hi - 1), c),
{
    assert(s.subrange(lo, hi).drop_last() =~= s.subrange(lo, hi - 1));
}

/// The end index of `s[lo..hi]` once trailing characters equal to `c` are removed.
pub(crate) fn strip_end_index(s: &str, lo: usize, hi: usize, c: char) -> (end: usize)
    requires
        lo <= hi <= s@.len(),
    ensures
        lo <= end <= hi,
        s@.subrange(lo as int, end as int) == strip_trailing(s@.subrange(lo as int, hi as int), c),
{
    let mut end: usize = hi;
    while end > lo && s.get_char(end - 1) == c
        invariant
            lo <= end <= hi <= s@.len(),
            strip_trailing(s@.subrange(lo as int, hi as int), c) == strip_trailing(
                s@.subrange(lo as int, end as int),
                c,
            ),
        decreases end,
    {
        proof {
            lemma_strip_step(s@, lo as int, end as int, c);
        }
        end = end - 1;
    }
    proof {
        let sub = s@.subrange(lo as int, end as int);
        if sub.len() > 0 {
            assert(sub.last() == s@[end - 1]);
        }
    }
    end
}

proof fn lemma_before_first_step(s: Seq<char>, lo: int, i: int, hi: int, c: char)
    requires
        0 <= lo <= i < hi <= s.len(),
        s[i] != c,
        before_first(s.subrange(lo, hi), c) == s.subrange(lo, i) + before_first(s.subrange(i, hi), c),
    ensures
        before_first(s.subrange(lo, hi), c) == s.subrange(lo, i + 1) + before_first(
            s.subrange(i + 1, hi),
            c,
        ),
{
    let sub = s.subrange(i, hi);
    assert(sub[0] == s[i]);
    assert(sub.drop_first() =~= s.subrange(i + 1, hi));
    assert(s.subrange(lo, i) + seq![s[i]] =~= s.subrange(lo, i + 1));
    assert(s.subrange(lo, i) + (seq![s[i]] + before_first(s.subrange(i + 1, hi), c)) =~= s.subrange(
        lo,
        i + 1,
    ) + before_first(s.subrange(i + 1, hi), c));
}

/// The index of the first `c` in `s[lo..hi]`, or `hi` when there is none; `s[lo..]` up to
/// that index is the part of `s[lo..hi]` before its first `c`.
pub(crate) fn first_index_of(s: &str, lo: usize, hi: usize, c: char) -> (cut: usize)
    requires
        lo <= hi <= s@.len(),
    ensures
        lo <= cut <= hi,
        s@.subrange(lo as int, cut as int) == before_first(s@.subrange(lo as int, hi as int), c),
{
    let mut cut: usize = lo;
    proof {
        assert(s@.subrange(lo as int, lo as int) + before_first(s@.subrange(lo as int, hi as int), c)
            =~= before_first(s@.subrange(lo as int, hi as int), c));
    }
    while cut < hi && s.get_char(cut) != c
        invariant
            lo <= cut <= hi <= s@.len(),
            before_first(s@.subrange(lo as int, hi as int), c) == s@.subrange(lo as int, cut as int)
                + before_first(s@.subrange(cut as int, hi as int), c),
        decreases hi - cut,
    {
        proof {
            lemma_before_first_step(s@, lo as int, cut as int, hi as int, c);
        }
        cut = cut + 1;
    }
    proof {
        let rest = s@.subrange(cut as int, hi as int);
        if cut < hi {
            assert(rest[0] == s@[cut as int]);
        }
        assert(before_first(rest, c) =~= Seq::<char>::empty());
        assert(s@.subrange(lo as int, cut as int) + Seq::<char>::empty() =~= s@.subrange(
            lo as int,
            cut as int,
        ));
    }
    cut
}

/// Normalises a namespace IRI so that it ends with exactly one `#`.
pub fn normalize_namespace(ns: &str) -> (r: String)
    ensures
        r@ == normalized_namespace(ns@),
{
    let n: usize = ns.unicode_len();
    let mut lo: usize = 0;
    proof {
        assert(ns@.subrange(0, n as int) =~= ns@);
    }
    while lo < n && is_whitespace(ns.get_char(lo))
        invariant
            lo <= n,
            n == ns@.len(),
            trim_start_ws(ns@) == trim_start_ws(ns@.subrange(lo as int, n as int)),
        decreases n - lo,
    {
        proof {
            lemma_trim_start_step(ns@, lo as int);
        }
        lo = lo + 1;
    }
    proof {
        let sub = ns@.subrange(lo as int, n as int);
        if sub.len() > 0 {
            assert(sub[0] == ns@[lo as int]);
        }
    }
    let mut hi: usize = n;
    while hi > lo && is_whitespace(ns.get_char(hi - 1))
        invariant
            lo <= hi <= n,
            n == ns@.len(),
            trim_ws(ns@) == trim_end_ws(ns@.subrange(lo as int, hi as int)),
        decreases hi,
    {
        proof {
            lemma_trim_end_step(ns@, lo as int, hi as int);
        }
        hi = hi - 1;
    }
    proof {
        let sub = ns@.subrange(lo as int, hi as int);
        if sub.len() > 0 {
            assert(sub.last() == ns@[hi - 1]);
        }
        assert(trim_ws(ns@) == sub);
    }
    if lo == hi {
        return String::from_str("https://purl.org/wiser/json2rdf/model#");
    }
    let end_slash: usize = strip_end_index(ns, lo, hi, '/');
    let end: usize = strip_end_index(ns, lo, end_slash, '#');
    let cut: usize = first_index_of(ns, lo, end, '#');
    let mut r = String::from_str(ns.substring_char(lo, cut));
    push_char(&mut r, '#');
    r
}

/// Whether `b` is left as it is by percent-encoding: an ASCII letter or digit, or one of `-` `.` `_` `~`.
pub open spec fn is_unreserved_byte(b: u8) -> bool {
    ||| 48 <= b <= 57
    ||| 65 <= b <= 90
    ||| 97 <= b <= 122
    ||| b == 45
    ||| b == 46
    ||| b == 95
    ||| b == 126
}

/// The upper-case hexadecimal digit for `d < 16`.
pub open spec fn upper_hex_digit(d: u8) -> char {
    if d < 10 {
        (d + 48) as char
    } else {
        (d + 55) as char
    }
}

/// The encoding of one byte: the byte itself when unreserved, else `%` and two upper-case hex digits.
pub open spec fn percent_encode_byte(b: u8) -> Seq<char> {
    if is_unreserved_byte(b) {
        seq![b as char]
    } else {
        seq!['%', upper_hex_digit(b / 16), upper_hex_digit(b % 16)]
    }
}

/// Percent-encoding of a byte sequence, byte by byte.
pub open spec fn percent_encode(bytes: Seq<u8>) -> Seq<char>
    decreases bytes.len(),
{
    if bytes.len() == 0 {
        Seq::empty()
    } else {
        percent_encode_byte(bytes[0]) + percent_encode(bytes.drop_first())
    }
}

/// Percent-encoding of the UTF-8 bytes of `s`.
pub open spec fn url_encoded(s: Seq<char>) -> Seq<char> {
    percent_encode(encode_utf8(s))
}

/// The value of the hexadecimal digit `c` (either case); 0 for any other character.
pub open spec fn hex_value(c: char) -> nat {
    if '0' <= c <= '9' {
        (c as nat - 48) as nat
    } else if 'A' <= c <= 'F' {
        (c as nat - 55) as nat
    } else if 'a' <= c <= 'f' {
        (c as nat - 87) as nat
    } else {
        0
    }
}

/// Percent-decoding: each `%` followed by two characters stands for the byte the two
/// hexadecimal digits give, any other character for its own code (taken as a byte).
pub open spec fn percent_decode(s: Seq<char>) -> Seq<u8>
    decreases s.len(),
{
    if s.len() == 0 {
        Seq::empty()
    } else if s[0] == '%' && s.len() >= 3 {
        seq![(hex_value(s[1]) * 16 + hex_value(s[2])) as u8] + percent_decode(s.skip(3))
    } else {
        seq![s[0] as u8] + percent_decode(s.drop_first())
    }
}

/// Whether `c` may stand in a percent-encoded text: an unreserved ASCII character or `%`.
pub open spec fn is_url_safe_char(c: char) -> bool {
    c == '%' || (c as u32) < 256 && is_unreserved_byte(c as u32 as u8)
}

proof fn lemma_percent_decode_encode(bytes: Seq<u8>)
    ensures
        percent_decode(percent_encode(bytes)) == bytes,
        forall|i: int|
            0 <= i < percent_encode(bytes).len() ==> #[trigger] is_url_safe_char(
                percent_encode(bytes)[i],
            ),
    decreases bytes.len(),
{
    if bytes.len() > 0 {
        let b = bytes[0];
        let rest = bytes.drop_first();
        let head = percent_encode_byte(b);
        let e = percent_encode(bytes);
        lemma_percent_decode_encode(rest);
        assert(e == head + percent_encode(rest));
        if is_unreserved_byte(b) {
            assert(e[0] == b as char);
            assert(e.drop_first() =~= percent_encode(rest));
            assert((b as char) as u8 == b);
            assert(seq![b] + rest =~= bytes);
        } else {
            let hi: u8 = b / 16;
            let lo: u8 = b % 16;
            assert(hex_value(upper_hex_digit(hi)) == hi);
            assert(hex_value(upper_hex_digit(lo)) == lo);
            assert(e[0] == '%');
            assert(e[1] == upper_hex_digit(hi));
            assert(e[2] == upper_hex_digit(lo));
            assert(e.skip(3) =~= percent_encode(rest));
            assert((hi * 16 + lo) as u8 == b);
            assert(seq![b] + rest =~= bytes);
        }
        assert forall|i: int| 0 <= i < e.len() implies #[trigger] is_url_safe_char(e[i]) by {
            if i >= head.len() {
                assert(e[i] == percent_encode(rest)[i - head.len()]);
            } else if is_unreserved_byte(b) {
                assert(e[i] == b as char);
                assert((b as char) as u32 as u8 == b);
            } else if i > 0 {
                let d: u8 = if i == 1 { b / 16 } else { b % 16 };
                assert(e[i] == upper_hex_digit(d));
                assert(d < 16);
            }
        }
    }
}

/// Percent-encoding is undone by percent-decoding and UTF-8 decoding, and writes only
/// unreserved ASCII characters and `%`.
pub proof fn lemma_url_encoded_decodes(s: Seq<char>)
    ensures
        decode_utf8(percent_decode(url_encoded(s))) == s,
        forall|i: int| 0 <= i < url_encoded(s).len() ==> #[trigger] is_url_safe_char(url_encoded(s)[i]),
{
    lemma_percent_decode_encode(encode_utf8(s));
    encode_utf8_decode_utf8(s);
}

/// Calls `urlencoding::encode`, which percent-encodes every UTF-8 byte of `data` except
/// ASCII letters and digits and `-` `.` `_` `~`, writing `%` and two upper-case hex digits.
#[verifier::external_body]
fn url_encode(data: &str) -> (r: String)
    ensures
        r@ == url_encoded(data@),
{
    urlencoding::encode(data).into_owned()
}

/// The IRI of a JSON property: the normalised namespace without its trailing `#`s,
/// then `#`, then the percent-encoded property name.
pub open spec fn property_uri(ns: Seq<char>, name: Seq<char>) -> Seq<char> {
    strip_trailing(normalized_namespace(ns), '#').push('#') + url_encoded(name)
}

/// `ns` without its trailing `#`s, followed by one `#`.
pub(crate) fn with_hash_separator(ns: &str) -> (r: String)
    ensures
        r@ == strip_trailing(ns@, '#').push('#'),
{
    let len: usize = ns.unicode_len();
    let end: usize = strip_end_index(ns, 0, len, '#');
    proof {
        assert(ns@.subrange(0, len as int) =~= ns@);
    }
    let mut r = String::from_str(ns.substring_char(0, end));
    push_char(&mut r, '#');
    r
}

/// Builds the IRI of the property `property_name` within `namespace`.
pub fn create_property_uri(namespace: &str, property_name: &str) -> (r: String)
    ensures
        r@ == property_uri(namespace@, property_name@),
{
    let normalized = normalize_namespace(namespace);
    let mut r = with_hash_separator(normalized.as_str());
    let encoded = url_encode(property_name);
    r.append(encoded.as_str());
    r
}

/// The lower-case hexadecimal digit for `d < 16`.
pub open spec fn lower_hex_digit(d: nat) -> char {
    if d < 10 {
        (d + 48) as char
    } else {
        (d + 87) as char
    }
}

/// Lower-case hexadecimal numeral of `n`, without leading zeros (what `{:x}` prints).
pub open spec fn lower_hex(n: nat) -> Seq<char>
    decreases n,
{
    if n < 16 {
        seq![lower_hex_digit(n)]
    } else {
        lower_hex(n / 16).push(lower_hex_digit(n % 16))
    }
}

/// The decimal digit for `d < 10`.
pub open spec fn decimal_digit(d: nat) -> char {
    (d + 48) as char
}

/// Decimal numeral of `n`, without leading zeros (what `{}` prints).
pub open spec fn decimal(n: nat) -> Seq<char>
    decreases n,
{
    if n < 10 {
        seq![decimal_digit(n)]
    } else {
        decimal(n / 10).push(decimal_digit(n % 10))
    }
}

/// The number a string of decimal digits stands for, read in base 10.
pub open spec fn decimal_value(s: Seq<char>) -> nat
    decreases s.len(),
{
    if s.len() == 0 {
        0
    } else {
        decimal_value(s.drop_last()) * 10 + ((s.last() as nat - 48) as nat)
    }
}

proof fn lemma_decimal_digit(d: nat)
    requires
        d < 10,
    ensures
        decimal_digit(d) as nat == d + 48,
        '0' <= decimal_digit(d) <= '9',
{
    let c = decimal_digit(d);
    assert(c as u32 == d + 48);
    assert(c as int == d + 48);
}

/// The decimal numeral of `n` is made of the digits `0` to `9`, is not empty, and reads
/// back to `n`: different numbers get different numerals.
pub proof fn lemma_decimal_reads_back(n: nat)
    ensures
        decimal(n).len() > 0,
        forall|i: int| 0 <= i < decimal(n).len() ==> '0' <= #[trigger] decimal(n)[i] <= '9',
        decimal_value(decimal(n)) == n,
    decreases n,
{
    lemma_decimal_digit(n % 10);
    if n < 10 {
        assert(decimal(n) == seq![decimal_digit(n)]);
        assert(decimal(n).drop_last() =~= Seq::<char>::empty());
        assert(decimal_value(Seq::<char>::empty()) == 0);
        assert(n % 10 == n);
        assert(decimal(n).last() == decimal_digit(n));
        assert(decimal_value(decimal(n)) == decimal_value(decimal(n).drop_last()) * 10 + ((
        decimal(n).last() as nat - 48) as nat));
    } else {
        lemma_decimal_reads_back(n / 10);
        let d = decimal(n);
        assert(d.drop_last() =~= decimal(n / 10));
        assert(d.last() == decimal_digit(n % 10));
        assert((n / 10) * 10 + n % 10 == n) by (nonlinear_arith);
        assert(decimal_value(d) == decimal_value(d.drop_last()) * 10 + ((d.last() as nat - 48) as nat));
        assert forall|i: int| 0 <= i < d.len() implies '0' <= #[trigger] d[i] <= '9' by {
            if i < d.len() - 1 {
                assert(d[i] == decimal(n / 10)[i]);
            }
        }
    }
}

/// Different numbers have different decimal numerals.
pub proof fn lemma_decimal_injective(a: nat, b: nat)
    requires
        a != b,
    ensures
        decimal(a) != decimal(b),
{
    lemma_decimal_reads_back(a);
    lemma_decimal_reads_back(b);
}

/// Appends the lower-case hexadecimal numeral of `n` to `out`.
pub(crate) fn push_lower_hex(out: &mut String, n: u64)
    ensures
        final(out)@ == old(out)@ + lower_hex(n as nat),
    decreases n,
{
    if n >= 16 {
        push_lower_hex(out, n / 16);
    }
    let d: u8 = (n % 16) as u8;
    let c: char = if d < 10 {
        (d + 48) as char
    } else {
        (d + 87) as char
    };
    push_char(out, c);
}

/// Appends the decimal numeral of `n` to `out`.
pub(crate) fn push_decimal(out: &mut String, n: u64)
    ensures
        final(out)@ == old(out)@ + decimal(n as nat),
    decreases n,
{
    if n >= 10 {
        push_decimal(out, n / 10);
    }
    let d: u8 = (n % 10) as u8;
    push_char(out, (d + 48) as char);
}

/// The 64-bit digest that `std`'s `DefaultHasher` computes for the string `s`.
pub uninterp spec fn default_hasher_digest(s: Seq<char>) -> u64;

/// Calls `BuildHasher::hash_one` with a default-keyed `DefaultHasher` (as `DefaultHasher::new`,
/// `Hash::hash` and `Hasher::finish` do in turn); the contract names the digest.
#[verifier::external_body]
fn default_hash(input: &str) -> (h: u64)
    ensures
        h == default_hasher_digest(input@),
{
    std::hash::BuildHasherDefault::<std::hash::DefaultHasher>::default().hash_one(input)
}

/// A stable identifier for `input`: the lower-case hexadecimal digest of `DefaultHasher`.
pub fn compute_stable_hash(input: &str) -> (r: String)
    ensures
        r@ == lower_hex(default_hasher_digest(input@) as nat),
{
    let h: u64 = default_hash(input);
    let mut r = String::new();
    push_lower_hex(&mut r, h);
    r
}

proof fn lemma_strip_trailing(s: Seq<char>, c: char)
    ensures
        strip_trailing(s, c).len() <= s.len(),
        strip_trailing(s, c) == s.take(strip_trailing(s, c).len() as int),
        strip_trailing(s, c).len() > 0 ==> strip_trailing(s, c).last() != c,
        strip_trailing(strip_trailing(s, c), c) == strip_trailing(s, c),
    decreases s.len(),
{
    if s.len() > 0 && s.last() == c {
        lemma_strip_trailing(s.drop_last(), c);
        let r = strip_trailing(s.drop_last(), c);
        assert(s.drop_last().take(r.len() as int) =~= s.take(r.len() as int));
    } else {
        assert(s.take(s.len() as int) =~= s);
    }
}

proof fn lemma_trim_start(s: Seq<char>)
    ensures
        trim_start_ws(s).len() <= s.len(),
        trim_start_ws(s) == s.skip(s.len() - trim_start_ws(s).len()),
        trim_start_ws(s).len() > 0 ==> !unicode_white_space(trim_start_ws(s)[0]),
    decreases s.len(),
{
    if s.len() > 0 && unicode_white_space(s[0]) {
        lemma_trim_start(s.drop_first());
        let r = trim_start_ws(s.drop_first());
        assert(s.drop_first().skip(s.drop_first().len() - r.len()) =~= s.skip(s.len() - r.len()));
    } else {
        assert(s.skip(0) =~= s);
    }
}

proof fn lemma_trim_end(s: Seq<char>)
    ensures
        trim_end_ws(s).len() <= s.len(),
        trim_end_ws(s) == s.take(trim_end_ws(s).len() as int),
        trim_end_ws(s).len() > 0 ==> !unicode_white_space(trim_end_ws(s).last()),
    decreases s.len(),
{
    if s.len() > 0 && unicode_white_space(s.last()) {
        lemma_trim_end(s.drop_last());
        let r = trim_end_ws(s.drop_last());
        assert(s.drop_last().take(r.len() as int) =~= s.take(r.len() as int));
    } else {
        assert(s.take(s.len() as int) =~= s);
    }
}

/// A trimmed sequence that is not empty starts and ends with a character that is not whitespace.
proof fn lemma_trim_ends(s: Seq<char>)
    ensures
        trim_ws(s).len() > 0 ==> !unicode_white_space(trim_ws(s)[0]) && !unicode_white_space(
            trim_ws(s).last(),
        ),
{
    let t = trim_start_ws(s);
    lemma_trim_start(s);
    lemma_trim_end(t);
    let r = trim_end_ws(t);
    if r.len() > 0 {
        assert(r[0] == t[0]);
    }
}

/// Trimming leaves a sequence alone whose ends are not whitespace.
proof fn lemma_trim_fixed(s: Seq<char>)
    requires
        s.len() > 0,
        !unicode_white_space(s[0]),
        !unicode_white_space(s.last()),
    ensures
        trim_ws(s) == s,
{
}

proof fn lemma_before_first(s: Seq<char>, c: char)
    ensures
        before_first(s, c).len() <= s.len(),
        before_first(s, c) == s.take(before_first(s, c).len() as int),
        forall|i: int| 0 <= i < before_first(s, c).len() ==> #[trigger] before_first(s, c)[i] != c,
        (forall|i: int| 0 <= i < s.len() ==> #[trigger] s[i] != c) ==> before_first(s, c) == s,
    decreases s.len(),
{
    if s.len() > 0 && s[0] != c {
        let rest = s.drop_first();
        lemma_before_first(rest, c);
        let r = before_first(rest, c);
        assert(seq![s[0]] + r =~= s.take(r.len() + 1int)) by {
            assert(r =~= rest.take(r.len() as int));
        }
        assert forall|i: int| 0 <= i < before_first(s, c).len() implies #[trigger] before_first(
            s,
            c,
        )[i] != c by {
            if i > 0 {
                assert(before_first(s, c)[i] == r[i - 1]);
            }
        }
        if forall|i: int| 0 <= i < s.len() ==> #[trigger] s[i] != c {
            assert forall|i: int| 0 <= i < rest.len() implies #[trigger] rest[i] != c by {
                assert(rest[i] == s[i + 1]);
            }
            assert(seq![s[0]] + rest =~= s);
        }
    } else if s.len() > 0 {
        assert(s[0] == c);
    } else {
        assert(s.take(0) =~= s);
    }
}

/// A normalised namespace is not empty, does not start with whitespace, ends with `#`
/// and holds no other `#`, and is its own part before the trailing `#`s followed by one `#`.
proof fn lemma_normalized_shape(ns: Seq<char>)
    ensures
        normalized_namespace(ns).len() > 0,
        normalized_namespace(ns).last() == '#',
        forall|i: int|
            0 <= i < normalized_namespace(ns).len() - 1 ==> #[trigger] normalized_namespace(ns)[i]
                != '#',
        !unicode_white_space(normalized_namespace(ns)[0]),
        strip_trailing(normalized_namespace(ns), '#').push('#') == normalized_namespace(ns),
{
    let n = normalized_namespace(ns);
    let t = trim_ws(ns);
    let b = n.drop_last();
    if t.len() == 0 {
        reveal_strlit("https://purl.org/wiser/json2rdf/model#");
        assert(b =~= "https://purl.org/wiser/json2rdf/model"@) by {
            reveal_strlit("https://purl.org/wiser/json2rdf/model");
        }
        reveal_strlit("https://purl.org/wiser/json2rdf/model");
        assert forall|i: int| 0 <= i < n.len() - 1 implies #[trigger] n[i] != '#' by {
            assert(n[i] == b[i]);
        }
    } else {
        lemma_trim_ends(ns);
        let a = strip_trailing(t, '/');
        let a2 = strip_trailing(a, '#');
        lemma_strip_trailing(t, '/');
        lemma_strip_trailing(a, '#');
        lemma_before_first(a2, '#');
        assert(n.drop_last() =~= before_first(a2, '#'));
        if b.len() > 0 {
            assert(b[0] == a2[0]);
            assert(a2[0] == a[0]);
            assert(a[0] == t[0]);
            assert(n[0] == b[0]);
        }
        assert forall|i: int| 0 <= i < n.len() - 1 implies #[trigger] n[i] != '#' by {
            assert(n[i] == b[i]);
        }
    }
    assert(b.push('#') =~= n);
    assert(n.drop_last() =~= b);
    assert(strip_trailing(n, '#') == strip_trailing(b, '#'));
    if b.len() > 0 {
        assert(b.last() == n[n.len() - 2]);
    }
    assert(strip_trailing(b, '#') == b);
}

/// Normalising a normalised namespace changes nothing.
pub proof fn lemma_normalize_idempotent(ns: Seq<char>)
    ensures
        normalized_namespace(normalized_namespace(ns)) == normalized_namespace(ns),
{
    let n = normalized_namespace(ns);
    lemma_normalized_shape(ns);
    assert(!unicode_white_space('#'));
    lemma_trim_fixed(n);
    assert(strip_trailing(n, '/') == n);
    let b = strip_trailing(n, '#');
    assert(b =~= n.drop_last());
    assert forall|i: int| 0 <= i < b.len() implies #[trigger] b[i] != '#' by {
        assert(b[i] == n[i]);
    }
    lemma_before_first(b, '#');
}

/// A normalised namespace holds exactly one `#`, its last character: a namespace that
/// already has a fragment is not given a second one.
pub proof fn lemma_normalized_single_hash(ns: Seq<char>)
    ensures
        normalized_namespace(ns).last() == '#',
        forall|i: int|
            0 <= i < normalized_namespace(ns).len() - 1 ==> #[trigger] normalized_namespace(ns)[i]
                != '#',
{
    lemma_normalized_shape(ns);
}

/// The normal form keeps the characters of the namespace: when the trimmed namespace is
/// not blank, the normal form without its final `#` is a prefix of it; and a trimmed
/// namespace with no `#` that does not end with `/` only gains a final `#`.
pub proof fn lemma_normalized_keeps_characters(ns: Seq<char>)
    ensures
        trim_ws(ns).len() > 0 ==> normalized_namespace(ns).len() - 1 <= trim_ws(ns).len()
            && normalized_namespace(ns).drop_last() == trim_ws(ns).take(
            normalized_namespace(ns).len() - 1,
        ),
        trim_ws(ns).len() > 0 && trim_ws(ns).last() != '/' && (forall|i: int|
            0 <= i < trim_ws(ns).len() ==> #[trigger] trim_ws(ns)[i] != '#')
            ==> normalized_namespace(ns) == trim_ws(ns).push('#'),
{
    let t = trim_ws(ns);
    if t.len() > 0 {
        let a = strip_trailing(t, '/');
        let a2 = strip_trailing(a, '#');
        let b = before_first(a2, '#');
        lemma_strip_trailing(t, '/');
        lemma_strip_trailing(a, '#');
        lemma_before_first(a2, '#');
        let n = normalized_namespace(ns);
        assert(n.drop_last() =~= b);
        assert(b =~= t.take(b.len() as int)) by {
            assert forall|i: int| 0 <= i < b.len() implies b[i] == t.take(b.len() as int)[i] by {
                assert(b[i] == a2.take(b.len() as int)[i]);
                assert(a2[i] == a.take(a2.len() as int)[i]);
                assert(a[i] == t.take(a.len() as int)[i]);
            }
        }
        if t.last() != '/' && (forall|i: int| 0 <= i < t.len() ==> #[trigger] t[i] != '#') {
            assert(a == t);
            assert(t.last() != '#');
            assert(a2 == a);
            assert(b == a2);
            assert(n =~= t.push('#'));
        }
    }
}

/// Whether every character of `w` is whitespace.
pub open spec fn all_white_space(w: Seq<char>) -> bool {
    forall|i: int| 0 <= i < w.len() ==> #[trigger] unicode_white_space(w[i])
}

proof fn lemma_trim_start_prefix(w: Seq<char>, x: Seq<char>)
    requires
        all_white_space(w),
    ensures
        trim_start_ws(w + x) == trim_start_ws(x),
    decreases w.len(),
{
    if w.len() > 0 {
        assert((w + x)[0] == w[0]);
        assert((w + x).drop_first() =~= w.drop_first() + x);
        assert forall|i: int| 0 <= i < w.drop_first().len() implies #[trigger] unicode_white_space(
            w.drop_first()[i],
        ) by {
            assert(w.drop_first()[i] == w[i + 1]);
        }
        lemma_trim_start_prefix(w.drop_first(), x);
    } else {
        assert(w + x =~= x);
    }
}

proof fn lemma_trim_end_suffix(x: Seq<char>, w: Seq<char>)
    requires
        all_white_space(w),
    ensures
        trim_end_ws(x + w) == trim_end_ws(x),
    decreases w.len(),
{
    if w.len() > 0 {
        assert((x + w).last() == w.last());
        assert((x + w).drop_last() =~= x + w.drop_last());
        assert forall|i: int| 0 <= i < w.drop_last().len() implies #[trigger] unicode_white_space(
            w.drop_last()[i],
        ) by {
            assert(w.drop_last()[i] == w[i]);
        }
        lemma_trim_end_suffix(x, w.drop_last());
    } else {
        assert(x + w =~= x);
    }
}

proof fn lemma_trim_suffix(x: Seq<char>, w: Seq<char>)
    requires
        all_white_space(w),
    ensures
        trim_end_ws(trim_start_ws(x + w)) == trim_end_ws(trim_start_ws(x)),
    decreases x.len(),
{
    if x.len() == 0 {
        assert(x + w =~= Seq::<char>::empty() + w);
        lemma_trim_start_prefix(w, Seq::<char>::empty());
        assert(w + Seq::<char>::empty() =~= w);
    } else if unicode_white_space(x[0]) {
        assert((x + w)[0] == x[0]);
        assert((x + w).drop_first() =~= x.drop_first() + w);
        lemma_trim_suffix(x.drop_first(), w);
    } else {
        assert((x + w)[0] == x[0]);
        lemma_trim_end_suffix(x, w);
    }
}

/// Whitespace around a namespace does not change its normal form.
pub proof fn lemma_normalize_ignores_surrounding_whitespace(
    w1: Seq<char>,
    ns: Seq<char>,
    w2: Seq<char>,
)
    requires
        all_white_space(w1),
        all_white_space(w2),
    ensures
        normalized_namespace(w1 + ns + w2) == normalized_namespace(ns),
{
    assert(w1 + ns + w2 =~= w1 + (ns + w2));
    lemma_trim_start_prefix(w1, ns + w2);
    lemma_trim_suffix(ns, w2);
}

/// A property IRI is the normalised namespace followed by the percent-encoded property name.
pub proof fn lemma_property_uri_in_namespace(ns: Seq<char>, name: Seq<char>)
    ensures
        property_uri(ns, name) == normalized_namespace(ns) + url_encoded(name),
{
    lemma_normalized_shape(ns);
}

/// The property name is given back by percent- and UTF-8 decoding the part of its IRI after
/// the normalised namespace, and that part holds only unreserved ASCII characters and `%`.
pub proof fn lemma_property_uri_decodes(ns: Seq<char>, name: Seq<char>)
    ensures
        property_uri(ns, name).take(normalized_namespace(ns).len() as int) == normalized_namespace(ns),
        decode_utf8(
            percent_decode(property_uri(ns, name).skip(normalized_namespace(ns).len() as int)),
        ) == name,
        forall|i: int|
            normalized_namespace(ns).len() <= i < property_uri(ns, name).len()
                ==> #[trigger] is_url_safe_char(property_uri(ns, name)[i]),
{
    let n = normalized_namespace(ns);
    let u = property_uri(ns, name);
    lemma_property_uri_in_namespace(ns, name);
    lemma_url_encoded_decodes(name);
    assert(u.take(n.len() as int) =~= n);
    assert(u.skip(n.len() as int) =~= url_encoded(name));
    assert forall|i: int| n.len() <= i < u.len() implies #[trigger] is_url_safe_char(u[i]) by {
        assert(u[i] == url_encoded(name)[i - n.len()]);
    }
}

/// Distinct property names give distinct property IRIs within one namespace: two JSON keys
/// never share a predicate.
pub proof fn lemma_property_uri_injective(ns: Seq<char>, name1: Seq<char>, name2: Seq<char>)
    requires
        name1 != name2,
    ensures
        property_uri(ns, name1) != property_uri(ns, name2),
{
    lemma_property_uri_decodes(ns, name1);
    lemma_property_uri_decodes(ns, name2);
}

/// A normalised namespace ends with `#`, which the part before its trailing `#`s and one
/// `#` give back.
pub proof fn lemma_normalized_separator(ns: Seq<char>)
    ensures
        normalized_namespace(ns).last() == '#',
        strip_trailing(normalized_namespace(ns), '#').push('#') == normalized_namespace(ns),
{
    lemma_normalized_shape(ns);
}

} // verus!
