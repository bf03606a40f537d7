//! Character-level helpers: building strings, whitespace trimming, ASCII case,
//! decimal rendering of integers and UTF-16 conversion.

use vstd::prelude::*;

verus! {

/// `String::push` appends one character.
pub assume_specification[ String::push ](s: &mut String, ch: char)
    ensures
        final(s)@ == old(s)@.push(ch),
;

/// `char::from_u32` accepts exactly the Unicode scalar values.
pub assume_specification[ core::char::from_u32 ](i: u32) -> (r: Option<char>)
    ensures
        is_scalar_value(i as int) ==> r == Some(i as char),
        !is_scalar_value(i as int) ==> r is None,
;

/// A Unicode scalar value: a code point that is not a surrogate.
pub open spec fn is_scalar_value(v: int) -> bool {
    (0 <= v < 0xD800) || (0xE000 <= v < 0x110000)
}

/// The character sequences of a list of strings.
pub open spec fn string_views(v: Seq<String>) -> Seq<Seq<char>> {
    v.map_values(|s: String| s@)
}

/// The views of strings are as many as the strings.
pub proof fn lemma_string_views_len(v: Seq<String>)
    ensures
        string_views(v).len() == v.len(),
{
}

/// Pushing a string adds its view.
pub proof fn lemma_string_views_push(v: Seq<String>, s: String)
    ensures
        string_views(v.push(s)) == string_views(v).push(s@),
{
    assert(string_views(v.push(s)) =~= string_views(v).push(s@));
}

/// The characters of `s`, in order.
pub fn chars_of(s: &str) -> (v: Vec<char>)
    ensures
        v@ == s@,
{
    let mut v: Vec<char> = Vec::new();
    for c in it: s.chars()
        invariant
            it.seq() == s@,
            v@ == it.seq().take(it.index()),
    {
        proof {
            assert(it.seq().take(it.index() + 1) =~= v@.push(c));
        }
        v.push(c);
    }
    proof {
        assert(v@ =~= s@);
    }
    v
}

/// A string holding exactly the characters `chars`.
pub fn string_from_chars(chars: &[char]) -> (s: String)
    ensures
        s@ == chars@,
{
    let mut s = String::new();
    let mut i: usize = 0;
    while i < chars.len()
        invariant
            i <= chars@.len(),
            s@ == chars@.take(i as int),
        decreases chars@.len() - i,
    {
        s.push(chars[i]);
        i += 1;
        proof {
            assert(s@ =~= chars@.take(i as int));
        }
    }
    proof {
        assert(chars@.take(i as int) =~= chars@);
    }
    s
}

/// Whether `a` and `b` hold the same characters.
pub fn chars_equal(a: &[char], b: &[char]) -> (r: bool)
    ensures
        r == (a@ == b@),
{
    if a.len() != b.len() {
        return false;
    }
    let mut i: usize = 0;
    while i < a.len()
        invariant
            a@.len() == b@.len(),
            i <= a@.len(),
            forall|k: int| 0 <= k < i ==> a@[k] == b@[k],
        decreases a@.len() - i,
    {
        if a[i] != b[i] {
            return false;
        }
        i += 1;
    }
    proof {
        assert(a@ =~= b@);
    }
    true
}

/// Whether `v` holds the characters of `s`.
pub fn chars_equal_str(v: &[char], s: &str) -> (r: bool)
    ensures
        r == (v@ == s@),
{
    let other = chars_of(s);
    chars_equal(v, other.as_slice())
}

/// `prefix` is a prefix of `s`.
pub open spec fn is_prefix_of(prefix: Seq<char>, s: Seq<char>) -> bool {
    prefix.len() <= s.len() && s.take(prefix.len() as int) == prefix
}

/// Whether `s` starts with `prefix`.
pub fn starts_with(s: &[char], prefix: &[char]) -> (r: bool)
    ensures
        r == is_prefix_of(prefix@, s@),
{
    if prefix.len() > s.len() {
        return false;
    }
    let mut i: usize = 0;
    while i < prefix.len()
        invariant
            prefix@.len() <= s@.len(),
            i <= prefix@.len(),
            forall|k: int| 0 <= k < i ==> s@[k] == prefix@[k],
        decreases prefix@.len() - i,
    {
        if s[i] != prefix[i] {
            proof {
                assert(s@.take(prefix@.len() as int)[i as int] != prefix@[i as int]);
            }
            return false;
        }
        i += 1;
    }
    proof {
        assert(s@.take(prefix@.len() as int) =~= prefix@);
    }
    true
}

/// Two names match when they are equal or one begins with the other.
pub open spec fn names_close_spec(left: Seq<char>, right: Seq<char>) -> bool {
    left == right || is_prefix_of(right, left) || is_prefix_of(left, right)
}

/// Whether one name equals or extends the other.
pub fn names_close(left: &[char], right: &[char]) -> (r: bool)
    ensures
        r == names_close_spec(left@, right@),
{
    chars_equal(left, right) || starts_with(left, right) || starts_with(right, left)
}

/// The characters that Unicode marks `White_Space`.
pub open spec fn is_whitespace(c: char) -> bool {
    let v = c as u32;
    (0x09 <= v <= 0x0D) || v == 0x20 || v == 0x85 || v == 0xA0 || v == 0x1680 || (0x2000 <= v
        <= 0x200A) || v == 0x2028 || v == 0x2029 || v == 0x202F || v == 0x205F || v == 0x3000
}

/// Whether `c` is Unicode white space.
pub fn char_is_whitespace(c: char) -> (r: bool)
    ensures
        r == is_whitespace(c),
{
    let v = c as u32;
    (0x09 <= v && v <= 0x0D) || v == 0x20 || v == 0x85 || v == 0xA0 || v == 0x1680 || (0x2000 <= v
        && v <= 0x200A) || v == 0x2028 || v == 0x2029 || v == 0x202F || v == 0x205F || v == 0x3000
}

/// `s` without leading white space.
pub open spec fn trim_start(s: Seq<char>) -> Seq<char>
    decreases s.len(),
{
    if s.len() > 0 && is_whitespace(s[0]) {
        trim_start(s.drop_first())
    } else {
        s
    }
}

/// `s` without trailing white space.
pub open spec fn trim_end(s: Seq<char>) -> Seq<char>
    decreases s.len(),
{
    if s.len() > 0 && is_whitespace(s.last()) {
        trim_end(s.drop_last())
    } else {
        s
    }
}

/// `s` without leading or trailing white space.
pub open spec fn trim(s: Seq<char>) -> Seq<char> {
    trim_end(trim_start(s))
}

proof fn lemma_trim_start_skip(s: Seq<char>, i: int)
    requires
        0 <= i <= s.len(),
        forall|k: int| 0 <= k < i ==> is_whitespace(#[trigger] s[k]),
        i == s.len() || !is_whitespace(s[i]),
    ensures
        trim_start(s) == s.skip(i),
    decreases i,
{
    if i == 0 {
        assert(s.skip(0) =~= s);
    } else {
        assert forall|k: int| 0 <= k < i - 1 implies is_whitespace(#[trigger] s.drop_first()[k]) by {
            assert(s.drop_first()[k] == s[k + 1]);
        }
        lemma_trim_start_skip(s.drop_first(), i - 1);
        assert(s.drop_first().skip(i - 1) =~= s.skip(i));
    }
}

proof fn lemma_trim_end_take(s: Seq<char>, j: int)
    requires
        0 <= j <= s.len(),
        forall|k: int| j <= k < s.len() ==> is_whitespace(#[trigger] s[k]),
        j == 0 || !is_whitespace(s[j - 1]),
    ensures
        trim_end(s) == s.take(j),
    decreases s.len() - j,
{
    if j == s.len() {
        assert(s.take(j) =~= s);
    } else {
        assert forall|k: int| j <= k < s.len() - 1 implies is_whitespace(
            #[trigger] s.drop_last()[k],
        ) by {
            assert(s.drop_last()[k] == s[k]);
        }
        lemma_trim_end_take(s.drop_last(), j);
        assert(s.drop_last().take(j) =~= s.take(j));
    }
}

/// The characters of `s` without leading or trailing white space.
pub fn trim_chars(s: &[char]) -> (r: Vec<char>)
    ensures
        r@ == trim(s@),
{
    let mut i: usize = 0;
    while i < s.len() && char_is_whitespace(s[i])
        invariant
            i <= s@.len(),
            forall|k: int| 0 <= k < i ==> is_whitespace(#[trigger] s@[k]),
        decreases s@.len() - i,
    {
        i += 1;
    }
    proof {
        lemma_trim_start_skip(s@, i as int);
    }
    let ghost rest = s@.skip(i as int);
    let mut j: usize = s.len();
    while j > i && char_is_whitespace(s[j - 1])
        invariant
            i <= j <= s@.len(),
            rest == s@.skip(i as int),
            forall|k: int| j <= k < s@.len() ==> is_whitespace(#[trigger] s@[k]),
        decreases j,
    {
        j -= 1;
    }
    proof {
        assert forall|k: int| j - i <= k < rest.len() implies is_whitespace(#[trigger] rest[k]) by {
            assert(rest[k] == s@[k + i]);
        }
        if j > i {
            assert(rest[j - i - 1] == s@[j - 1]);
        }
        lemma_trim_end_take(rest, j - i);
    }
    let mut r: Vec<char> = Vec::new();
    let mut k: usize = i;
    while k < j
        invariant
            i <= k <= j <= s@.len(),
            r@ == s@.subrange(i as int, k as int),
        decreases j - k,
    {
        r.push(s[k]);
        k += 1;
        proof {
            assert(r@ =~= s@.subrange(i as int, k as int));
        }
    }
    proof {
        assert(rest.take(j - i) =~= s@.subrange(i as int, j as int));
    }
    r
}

/// `c` with ASCII upper-case letters mapped to lower case.
pub open spec fn ascii_lower(c: char) -> char {
    if 'A' <= c <= 'Z' {
        ((c as u32) + 32) as char
    } else {
        c
    }
}

/// `c` with ASCII lower-case letters mapped to upper case.
pub open spec fn ascii_upper(c: char) -> char {
    if 'a' <= c <= 'z' {
        ((c as u32) - 32) as char
    } else {
        c
    }
}

/// The lower-case ASCII form of a character.
pub fn to_ascii_lower(c: char) -> (r: char)
    ensures
        r == ascii_lower(c),
{
    if 'A' <= c && c <= 'Z' {
        let v = (c as u8) + 32;
        v as char
    } else {
        c
    }
}

/// The upper-case ASCII form of a character.
pub fn to_ascii_upper(c: char) -> (r: char)
    ensures
        r == ascii_upper(c),
{
    if 'a' <= c && c <= 'z' {
        let v = (c as u8) - 32;
        v as char
    } else {
        c
    }
}

/// `s` with every ASCII letter in lower case.
pub fn lower_chars(s: &[char]) -> (r: Vec<char>)
    ensures
        r@ == s@.map_values(|c: char| ascii_lower(c)),
{
    let mut r: Vec<char> = Vec::new();
    let mut i: usize = 0;
    while i < s.len()
        invariant
            i <= s@.len(),
            r@ == s@.take(i as int).map_values(|c: char| ascii_lower(c)),
        decreases s@.len() - i,
    {
        r.push(to_ascii_lower(s[i]));
        i += 1;
        proof {
            assert(r@ =~= s@.take(i as int).map_values(|c: char| ascii_lower(c)));
        }
    }
    proof {
        assert(s@.take(i as int) =~= s@);
    }
    r
}

/// `s` with every ASCII letter in upper case.
pub fn upper_chars(s: &[char]) -> (r: Vec<char>)
    ensures
        r@ == s@.map_values(|c: char| ascii_upper(c)),
{
    let mut r: Vec<char> = Vec::new();
    let mut i: usize = 0;
    while i < s.len()
        invariant
            i <= s@.len(),
            r@ == s@.take(i as int).map_values(|c: char| ascii_upper(c)),
        decreases s@.len() - i,
    {
        r.push(to_ascii_upper(s[i]));
        i += 1;
        proof {
            assert(r@ =~= s@.take(i as int).map_values(|c: char| ascii_upper(c)));
        }
    }
    proof {
        assert(s@.take(i as int) =~= s@);
    }
    r
}

/// The decimal digit character for `d < 10`.
pub open spec fn digit_char(d: nat) -> char {
    ((('0' as u32) as nat + d) as u32) as char
}

/// The decimal representation of `n`, without leading zeros.
pub open spec fn nat_text(n: nat) -> Seq<char>
    decreases n,
{
    if n < 10 {
        seq![digit_char(n)]
    } else {
        nat_text(n / 10).push(digit_char(n % 10))
    }
}

/// The decimal representation of `v`, with a leading `-` when negative.
pub open spec fn int_text(v: int) -> Seq<char> {
    if v < 0 {
        seq!['-'] + nat_text((-v) as nat)
    } else {
        nat_text(v as nat)
    }
}

/// The decimal digit for `d`.
pub fn digit(d: u64) -> (c: char)
    requires
        d < 10,
    ensures
        c == digit_char(d as nat),
{
    let b = (d as u8) + 48;
    b as char
}

/// The decimal digits of `n`.
pub fn u64_text(n: u64) -> (r: Vec<char>)
    ensures
        r@ == nat_text(n as nat),
    decreases n,
{
    if n < 10 {
        let mut r: Vec<char> = Vec::new();
        r.push(digit(n));
        proof {
            assert(r@ =~= seq![digit_char(n as nat)]);
        }
        r
    } else {
        let mut r = u64_text(n / 10);
        r.push(digit(n % 10));
        r
    }
}

/// The decimal text of `v`, signed.
pub fn i64_text(v: i64) -> (r: Vec<char>)
    ensures
        r@ == int_text(v as int),
{
    if v < 0 {
        let magnitude: u64 = (0i128 - (v as i128)) as u64;
        let digits = u64_text(magnitude);
        let mut r: Vec<char> = Vec::new();
        r.push('-');
        let mut i: usize = 0;
        while i < digits.len()
            invariant
                i <= digits@.len(),
                r@ == seq!['-'] + digits@.take(i as int),
            decreases digits@.len() - i,
        {
            r.push(digits[i]);
            i += 1;
            proof {
                assert(r@ =~= seq!['-'] + digits@.take(i as int));
            }
        }
        proof {
            assert(digits@.take(i as int) =~= digits@);
        }
        r
    } else {
        u64_text(v as u64)
    }
}

/// The decimal text of `v` as a string.
pub fn i64_to_string(v: i64) -> (s: String)
    ensures
        s@ == int_text(v as int),
{
    let chars = i64_text(v);
    string_from_chars(chars.as_slice())
}

/// The character that a UTF-16 surrogate pair encodes.
pub open spec fn surrogate_pair_value(high: u16, low: u16) -> int {
    0x10000 + (high - 0xD800) * 0x400 + (low - 0xDC00)
}

/// The characters that the UTF-16 code units `w` encode; `None` when a
/// surrogate is unpaired.
pub open spec fn utf16_decode(w: Seq<u16>) -> Option<Seq<char>>
    decreases w.len(),
{
    if w.len() == 0 {
        Some(Seq::empty())
    } else if !(0xD800 <= w[0] <= 0xDFFF) {
        match utf16_decode(w.drop_first()) {
            Some(r) => Some(seq![(w[0] as u32) as char] + r),
            None => None,
        }
    } else if w[0] <= 0xDBFF && w.len() >= 2 && 0xDC00 <= w[1] <= 0xDFFF {
        match utf16_decode(w.subrange(2, w.len() as int)) {
            Some(r) => Some(seq![(surrogate_pair_value(w[0], w[1]) as u32) as char] + r),
            None => None,
        }
    } else {
        None
    }
}

spec fn prepend_decoded(acc: Seq<char>, rest: Option<Seq<char>>) -> Option<Seq<char>> {
    match rest {
        Some(r) => Some(acc + r),
        None => None,
    }
}

/// A scalar value as a character.
fn scalar_char(v: u32) -> (c: char)
    requires
        is_scalar_value(v as int),
    ensures
        c == v as char,
{
    match core::char::from_u32(v) {
        Some(c) => c,
        None => '\0',
    }
}

/// Decode UTF-16 code units, failing on an unpaired surrogate.
pub fn decode_utf16(w: &[u16]) -> (r: Option<Vec<char>>)
    ensures
        match r {
            Some(v) => utf16_decode(w@) == Some(v@),
            None => utf16_decode(w@) is None,
        },
{
    let mut acc: Vec<char> = Vec::new();
    let mut i: usize = 0;
    proof {
        assert(w@.skip(0) =~= w@);
        assert(Seq::<char>::empty() + utf16_decode(w@).unwrap_or(Seq::empty()) =~= utf16_decode(
            w@,
        ).unwrap_or(Seq::empty()));
    }
    while i < w.len()
        invariant
            i <= w@.len(),
            utf16_decode(w@) == prepend_decoded(acc@, utf16_decode(w@.skip(i as int))),
        decreases w@.len() - i,
    {
        let unit = w[i];
        let ghost rest = w@.skip(i as int);
        let ghost before = acc@;
        if unit < 0xD800 || unit > 0xDFFF {
            acc.push(scalar_char(unit as u32));
            proof {
                assert(rest.drop_first() =~= w@.skip(i + 1));
                let tail = utf16_decode(w@.skip(i + 1));
                if tail is Some {
                    assert(acc@ + tail.unwrap() =~= before + (seq![(unit as u32) as char]
                        + tail.unwrap()));
                }
            }
            i += 1;
        } else if unit <= 0xDBFF && i + 1 < w.len() && 0xDC00 <= w[i + 1] && w[i + 1] <= 0xDFFF {
            let low = w[i + 1];
            let v: u32 = 0x10000 + ((unit as u32) - 0xD800) * 0x400 + ((low as u32) - 0xDC00);
            acc.push(scalar_char(v));
            proof {
                assert(rest.subrange(2, rest.len() as int) =~= w@.skip(i + 2));
                let tail = utf16_decode(w@.skip(i + 2));
                if tail is Some {
                    assert(acc@ + tail.unwrap() =~= before + (seq![(v as u32) as char]
                        + tail.unwrap()));
                }
            }
            i += 2;
        } else {
            return None;
        }
    }
    proof {
        assert(w@.skip(i as int) =~= Seq::<u16>::empty());
        assert(acc@ + Seq::<char>::empty() =~= acc@);
    }
    Some(acc)
}

/// The UTF-16 code units of one character.
pub open spec fn utf16_units(c: char) -> Seq<u16> {
    let v = c as u32;
    if v < 0x10000 {
        seq![v as u16]
    } else {
        seq![(0xD800 + (v - 0x10000) / 0x400) as u16, (0xDC00 + (v - 0x10000) % 0x400) as u16]
    }
}

/// The bytes of one UTF-16 code unit, low byte first.
pub open spec fn unit_le_bytes(u: u16) -> Seq<u8> {
    seq![(u % 256) as u8, (u / 256) as u8]
}

/// The UTF-16LE bytes of one character.
pub open spec fn char_utf16le(c: char) -> Seq<u8> {
    let units = utf16_units(c);
    if units.len() == 1 {
        unit_le_bytes(units[0])
    } else {
        unit_le_bytes(units[0]) + unit_le_bytes(units[1])
    }
}

/// The UTF-16LE encoding of `s`.
pub open spec fn utf16le(s: Seq<char>) -> Seq<u8>
    decreases s.len(),
{
    if s.len() == 0 {
        Seq::empty()
    } else {
        utf16le(s.drop_last()) + char_utf16le(s.last())
    }
}

/// Encode characters as UTF-16, low byte first.
pub fn encode_utf16le(s: &[char]) -> (r: Vec<u8>)
    ensures
        r@ == utf16le(s@),
{
    let mut r: Vec<u8> = Vec::new();
    let mut i: usize = 0;
    while i < s.len()
        invariant
            i <= s@.len(),
            r@ == utf16le(s@.take(i as int)),
        decreases s@.len() - i,
    {
        let v = s[i] as u32;
        proof {
            vstd::utf8::char_is_scalar(s@[i as int]);
        }
        let ghost before = r@;
        if v < 0x10000 {
            r.push((v % 256) as u8);
            r.push((v / 256) as u8);
        } else {
            assert(v <= 0x10FFFF);
            let high = 0xD800 + (v - 0x10000) / 0x400;
            let low = 0xDC00 + (v - 0x10000) % 0x400;
            assert(high < 0xDC00 && low < 0xE000);
            let ghost units = utf16_units(s@[i as int]);
            assert(units[0] == high as u16 && units[1] == low as u16);
            r.push((high % 256) as u8);
            r.push((high / 256) as u8);
            r.push((low % 256) as u8);
            r.push((low / 256) as u8);
        }
        proof {
            assert(s@.take(i + 1).drop_last() =~= s@.take(i as int));
            assert(s@.take(i + 1).last() == s@[i as int]);
            assert(r@ =~= before + char_utf16le(s@[i as int]));
        }
        i += 1;
    }
    proof {
        assert(s@.take(i as int) =~= s@);
    }
    r
}

/// The first `count` little-endian 16-bit words of `b`.
pub open spec fn words_le(b: Seq<u8>, count: nat) -> Seq<u16> {
    Seq::new(count, |i: int| (b[2 * i] as int + 256 * b[2 * i + 1] as int) as u16)
}

/// The words of `w` before the first zero word.
pub open spec fn until_nul(w: Seq<u16>) -> Seq<u16>
    decreases w.len(),
{
    if w.len() == 0 || w[0] == 0 {
        Seq::empty()
    } else {
        seq![w[0]] + until_nul(w.drop_first())
    }
}

proof fn lemma_until_nul_take(w: Seq<u16>, i: int)
    requires
        0 <= i <= w.len(),
        forall|k: int| 0 <= k < i ==> #[trigger] w[k] != 0,
        i == w.len() || w[i] == 0,
    ensures
        until_nul(w) == w.take(i),
    decreases i,
{
    if i == 0 {
        assert(w.take(0) =~= Seq::<u16>::empty());
    } else {
        assert forall|k: int| 0 <= k < i - 1 implies #[trigger] w.drop_first()[k] != 0 by {
            assert(w.drop_first()[k] == w[k + 1]);
        }
        lemma_until_nul_take(w.drop_first(), i - 1);
        assert(seq![w[0]] + w.drop_first().take(i - 1) =~= w.take(i));
    }
}

/// The name stored as NUL-terminated UTF-16LE in `2 * count` bytes at `start`:
/// its characters, or nothing when the words are not valid UTF-16.
pub open spec fn utf16_field(b: Seq<u8>, start: int, count: nat) -> Option<Seq<char>> {
    utf16_decode(until_nul(words_le(b.subrange(start, start + 2 * count), count)))
}

/// Decode the NUL-terminated UTF-16LE name in `2 * count` bytes at `start`.
pub fn decode_utf16_field(b: &[u8], start: usize, count: usize) -> (r: Option<Vec<char>>)
    requires
        start + 2 * count <= b@.len(),
    ensures
        match r {
            Some(v) => utf16_field(b@, start as int, count as nat) == Some(v@),
            None => utf16_field(b@, start as int, count as nat) is None,
        },
{
    let ghost field = b@.subrange(start as int, start + 2 * count);
    let ghost words = words_le(field, count as nat);
    let mut acc: Vec<u16> = Vec::new();
    let mut i: usize = 0;
    let len = b.len();
    while i < count
        invariant
            i <= count,
            len == b@.len(),
            start + 2 * count <= b@.len(),
            field == b@.subrange(start as int, start + 2 * count),
            words == words_le(field, count as nat),
            acc@ == words.take(i as int),
            forall|k: int| 0 <= k < i ==> #[trigger] words[k] != 0,
        ensures
            i == count || words[i as int] == 0,
        decreases count - i,
    {
        let lo = b[start + 2 * i];
        let hi = b[start + 2 * i + 1];
        let word: u16 = (lo as u16) + 256 * (hi as u16);
        proof {
            assert(field[2 * i as int] == lo && field[2 * i + 1] == hi);
            assert(words[i as int] == word);
        }
        if word == 0 {
            break;
        }
        acc.push(word);
        i += 1;
        proof {
            assert(acc@ =~= words.take(i as int));
        }
    }
    proof {
        lemma_until_nul_take(words, i as int);
    }
    decode_utf16(acc.as_slice())
}

/// Append the characters of `s` to `out`.
pub fn push_str(out: &mut Vec<char>, s: &str)
    ensures
        final(out)@ == old(out)@ + s@,
{
    let chars = chars_of(s);
    push_chars(out, chars.as_slice());
}

/// Append `more` to `out`.
pub fn push_chars(out: &mut Vec<char>, more: &[char])
    ensures
        final(out)@ == old(out)@ + more@,
{
    let ghost start = out@;
    let mut i: usize = 0;
    while i < more.len()
        invariant
            i <= more@.len(),
            out@ == start + more@.take(i as int),
        decreases more@.len() - i,
    {
        out.push(more[i]);
        i += 1;
        proof {
            assert(out@ =~= start + more@.take(i as int));
        }
    }
    proof {
        assert(more@.take(i as int) =~= more@);
    }
}

/// The UTF-8 bytes of one character.
pub open spec fn char_utf8(c: char) -> Seq<u8> {
    let v = c as u32;
    if v < 0x80 {
        seq![v as u8]
    } else if v < 0x800 {
        seq![(0xC0 + v / 64) as u8, (0x80 + v % 64) as u8]
    } else if v < 0x10000 {
        seq![(0xE0 + v / 4096) as u8, (0x80 + (v / 64) % 64) as u8, (0x80 + v % 64) as u8]
    } else {
        seq![
            (0xF0 + v / 262144) as u8,
            (0x80 + (v / 4096) % 64) as u8,
            (0x80 + (v / 64) % 64) as u8,
            (0x80 + v % 64) as u8,
        ]
    }
}

/// The UTF-8 encoding of `s`.
pub open spec fn utf8(s: Seq<char>) -> Seq<u8>
    decreases s.len(),
{
    if s.len() == 0 {
        Seq::empty()
    } else {
        utf8(s.drop_last()) + char_utf8(s.last())
    }
}

/// Append the UTF-8 bytes of `c` to `out`.
pub fn push_utf8(out: &mut Vec<u8>, c: char)
    ensures
        final(out)@ == old(out)@ + char_utf8(c),
{
    let v = c as u32;
    proof {
        vstd::utf8::char_is_scalar(c);
    }
    let ghost start = out@;
    if v < 0x80 {
        out.push(v as u8);
    } else if v < 0x800 {
        out.push((0xC0 + v / 64) as u8);
        out.push((0x80 + v % 64) as u8);
    } else if v < 0x10000 {
        out.push((0xE0 + v / 4096) as u8);
        out.push((0x80 + (v / 64) % 64) as u8);
        out.push((0x80 + v % 64) as u8);
    } else {
        out.push((0xF0 + v / 262144) as u8);
        out.push((0x80 + (v / 4096) % 64) as u8);
        out.push((0x80 + (v / 64) % 64) as u8);
        out.push((0x80 + v % 64) as u8);
    }
    proof {
        assert(out@ =~= start + char_utf8(c));
    }
}

/// The UTF-8 bytes of `s`.
pub fn utf8_bytes(s: &str) -> (r: Vec<u8>)
    ensures
        r@ == utf8(s@),
{
    let chars = chars_of(s);
    let mut r: Vec<u8> = Vec::new();
    let mut i: usize = 0;
    while i < chars.len()
        invariant
            i <= chars@.len(),
            chars@ == s@,
            r@ == utf8(chars@.take(i as int)),
        decreases chars@.len() - i,
    {
        proof {
            assert(chars@.take(i + 1).drop_last() =~= chars@.take(i as int));
        }
        push_utf8(&mut r, chars[i]);
        i += 1;
    }
    proof {
        assert(chars@.take(i as int) =~= s@);
    }
    r
}


/// Append the decimal digits of `n` to `out`.
pub fn push_nat(out: &mut Vec<char>, n: u64)
    ensures
        final(out)@ == old(out)@ + nat_text(n as nat),
{
    let digits = u64_text(n);
    push_chars(out, digits.as_slice());
}


/// The UTF-8 encoding of `chars`.
pub fn utf8_of(chars: &[char]) -> (r: Vec<u8>)
    ensures
        r@ == utf8(chars@),
{
    let mut r: Vec<u8> = Vec::new();
    let mut i: usize = 0;
    while i < chars.len()
        invariant
            i <= chars@.len(),
            r@ == utf8(chars@.take(i as int)),
        decreases chars@.len() - i,
    {
        proof {
            assert(chars@.take(i + 1).drop_last() =~= chars@.take(i as int));
        }
        push_utf8(&mut r, chars[i]);
        i += 1;
    }
    proof {
        assert(chars@.take(i as int) =~= chars@);
    }
    r
}


/// The UTF-16 code units of `s`, in order.
pub open spec fn utf16_units_of(s: Seq<char>) -> Seq<u16>
    decreases s.len(),
{
    if s.len() == 0 {
        Seq::empty()
    } else {
        utf16_units_of(s.drop_last()) + utf16_units(s.last())
    }
}

proof fn lemma_char_units(c: char)
    ensures
        utf16_units(c).len() == 1 || utf16_units(c).len() == 2,
        c != '\0' ==> forall|k: int| 0 <= k < utf16_units(c).len() ==> #[trigger] utf16_units(c)[k] != 0,
        char_utf16le(c).len() == 2 * utf16_units(c).len(),
        forall|k: int|
            0 <= k < utf16_units(c).len() ==> char_utf16le(c)[2 * k] as int + 256 * char_utf16le(c)[2
                * k + 1] as int == #[trigger] utf16_units(c)[k] as int,
{
    vstd::utf8::char_is_scalar(c);
    let v = c as u32;
    if v < 0x10000 {
        assert(utf16_units(c)[0] == v as u16);
    } else {
        assert(utf16_units(c)[0] == (0xD800 + (v - 0x10000) / 0x400) as u16);
        assert(utf16_units(c)[1] == (0xDC00 + (v - 0x10000) % 0x400) as u16);
    }
}

proof fn lemma_units_of_bytes(s: Seq<char>)
    ensures
        utf16le(s).len() == 2 * utf16_units_of(s).len(),
        forall|i: int|
            0 <= i < utf16_units_of(s).len() ==> utf16le(s)[2 * i] as int + 256 * utf16le(s)[2 * i
                + 1] as int == #[trigger] utf16_units_of(s)[i] as int,
    decreases s.len(),
{
    if s.len() > 0 {
        let t = s.drop_last();
        let c = s.last();
        lemma_units_of_bytes(t);
        lemma_char_units(c);
        let n = utf16_units_of(t).len();
        assert forall|i: int| 0 <= i < utf16_units_of(s).len() implies utf16le(s)[2 * i] as int + 256
            * utf16le(s)[2 * i + 1] as int == #[trigger] utf16_units_of(s)[i] as int by {
            if i < n {
                assert(utf16_units_of(s)[i] == utf16_units_of(t)[i]);
                assert(utf16le(s)[2 * i] == utf16le(t)[2 * i]);
                assert(utf16le(s)[2 * i + 1] == utf16le(t)[2 * i + 1]);
            } else {
                let k = i - n;
                assert(utf16_units_of(s)[i] == utf16_units(c)[k]);
                assert(utf16le(s)[2 * i] == char_utf16le(c)[2 * k]);
                assert(utf16le(s)[2 * i + 1] == char_utf16le(c)[2 * k + 1]);
            }
        }
    }
}

proof fn lemma_units_of_front(s: Seq<char>)
    requires
        s.len() > 0,
    ensures
        utf16_units_of(s) == utf16_units(s[0]) + utf16_units_of(s.drop_first()),
    decreases s.len(),
{
    if s.len() == 1 {
        assert(s.drop_last() =~= Seq::<char>::empty());
        assert(s.drop_first() =~= Seq::<char>::empty());
        assert(utf16_units_of(s) =~= utf16_units(s[0]));
        assert(utf16_units(s[0]) + Seq::<u16>::empty() =~= utf16_units(s[0]));
    } else {
        lemma_units_of_front(s.drop_last());
        assert(s.drop_last().drop_first() =~= s.drop_first().drop_last());
        assert(s.drop_first().last() == s.last());
        assert(s.drop_last()[0] == s[0]);
        assert(utf16_units_of(s) =~= utf16_units(s[0]) + utf16_units_of(s.drop_first()));
    }
}

proof fn lemma_decode_units(s: Seq<char>)
    ensures
        utf16_decode(utf16_units_of(s)) == Some(s),
    decreases s.len(),
{
    if s.len() == 0 {
    } else {
        let c = s[0];
        let rest = s.drop_first();
        lemma_units_of_front(s);
        lemma_decode_units(rest);
        let w = utf16_units_of(s);
        let v = c as u32;
        vstd::utf8::char_is_scalar(c);
        vstd::utf8::char_u32_cast(c, v);
        if v < 0x10000 {
            assert(w[0] == v as u16);
            assert(w.drop_first() =~= utf16_units_of(rest));
            assert(((w[0] as u32) as char) == c);
            assert(seq![c] + rest =~= s);
        } else {
            let hi = (0xD800 + (v - 0x10000) / 0x400) as u16;
            let lo = (0xDC00 + (v - 0x10000) % 0x400) as u16;
            assert(w[0] == hi && w[1] == lo);
            assert(w.subrange(2, w.len() as int) =~= utf16_units_of(rest));
            assert(surrogate_pair_value(hi, lo) == v);
            assert(((surrogate_pair_value(hi, lo) as u32) as char) == c);
            assert(seq![c] + rest =~= s);
        }
    }
}

proof fn lemma_units_nonzero(s: Seq<char>)
    requires
        forall|i: int| 0 <= i < s.len() ==> s[i] != '\0',
    ensures
        forall|k: int| 0 <= k < utf16_units_of(s).len() ==> #[trigger] utf16_units_of(s)[k] != 0,
    decreases s.len(),
{
    if s.len() > 0 {
        let t = s.drop_last();
        lemma_units_nonzero(t);
        lemma_char_units(s.last());
        let n = utf16_units_of(t).len();
        assert forall|k: int| 0 <= k < utf16_units_of(s).len() implies #[trigger] utf16_units_of(s)[k]
            != 0 by {
            if k < n {
                assert(utf16_units_of(s)[k] == utf16_units_of(t)[k]);
            } else {
                assert(utf16_units_of(s)[k] == utf16_units(s.last())[k - n]);
            }
        }
    }
}

/// A name written as UTF-16LE into a field of `2 * count` bytes, followed by
/// a zero word when it does not fill the field, reads back as the name: the
/// encoding that the metadata search looks for is the one that slot names
/// are decoded from.
pub proof fn utf16_names_read_back(name: Seq<char>, field: Seq<u8>, count: nat)
    requires
        forall|i: int| 0 <= i < name.len() ==> name[i] != '\0',
        field.len() == 2 * count,
        utf16le(name).len() <= field.len(),
        field.take(utf16le(name).len() as int) == utf16le(name),
        utf16le(name).len() < field.len() ==> field[utf16le(name).len() as int] == 0 && field[(
        utf16le(name).len() + 1) as int] == 0,
    ensures
        utf16_field(field, 0, count) == Some(name),
{
    lemma_units_of_bytes(name);
    lemma_units_nonzero(name);
    lemma_decode_units(name);
    let units = utf16_units_of(name);
    let n = units.len();
    let e = utf16le(name);
    assert(field.subrange(0, (2 * count) as int) =~= field);
    let words = words_le(field, count);
    assert forall|i: int| 0 <= i < n implies #[trigger] words[i] == units[i] by {
        assert(field[2 * i] == e[2 * i] && field[2 * i + 1] == e[2 * i + 1]);
    }
    assert forall|k: int| 0 <= k < n implies #[trigger] words[k] != 0 by {
        assert(words[k] == units[k]);
    }
    if n < count {
        assert(words[n as int] == 0);
    }
    lemma_until_nul_take(words, n as int);
    assert(words.take(n as int) =~= units);
}

} // verus!
