//! Text as sequences of characters: numbers in and out, splitting, trimming.
use vstd::prelude::*;

verus! {

/// `String::push` appends one character to the end of the string.
pub assume_specification[ String::push ](s: &mut String, c: char)
    ensures
        final(s)@ == old(s)@.push(c),
;

/// The character of a decimal digit.
pub open spec fn digit(d: nat) -> char {
    (48 + d) as char
}

/// A number in decimal, without leading zeros.
pub open spec fn decimal(n: nat) -> Seq<char>
    decreases n,
{
    if n < 10 {
        seq![digit(n)]
    } else {
        decimal(n / 10).push(digit(n % 10))
    }
}

/// The character of a hexadecimal digit, in lower case.
pub open spec fn hex_digit(d: nat) -> char {
    if d < 10 {
        (48 + d) as char
    } else {
        (87 + d) as char
    }
}

/// Bytes in hexadecimal, two lower-case digits each.
pub open spec fn hex_of(bytes: Seq<u8>) -> Seq<char>
    decreases bytes.len(),
{
    if bytes.len() == 0 {
        Seq::empty()
    } else {
        hex_of(bytes.drop_last()).push(hex_digit((bytes.last() / 16) as nat)).push(
            hex_digit((bytes.last() % 16) as nat),
        )
    }
}

pub fn push_decimal(out: &mut String, n: u64)
    ensures
        final(out)@ == old(out)@ + decimal(n as nat),
    decreases n,
{
    if n >= 10 {
        push_decimal(out, n / 10);
    }
    let d: u8 = 48 + (n % 10) as u8;
    out.push(d as char);
    assert(out@ == old(out)@ + decimal(n as nat));
}

/// `n` in decimal.
pub fn decimal_string(n: u64) -> (r: String)
    ensures
        r@ == decimal(n as nat),
{
    let mut out = String::new();
    push_decimal(&mut out, n);
    out
}

/// Bytes in hexadecimal, two lower-case digits each.
pub fn hex(bytes: &[u8]) -> (r: String)
    ensures
        r@ == hex_of(bytes@),
{
    let mut out = String::new();
    for i in 0..bytes.len()
        invariant
            out@ == hex_of(bytes@.take(i as int)),
    {
        let b: u8 = bytes[i];
        let hi: u8 = b / 16;
        let lo: u8 = b % 16;
        out.push(if hi < 10 { (48 + hi) as char } else { (87 + hi) as char });
        out.push(if lo < 10 { (48 + lo) as char } else { (87 + lo) as char });
        assert(bytes@.take(i + 1).drop_last() =~= bytes@.take(i as int));
    }
    assert(bytes@.take(bytes@.len() as int) =~= bytes@);
    out
}

/// The characters of a string.
pub fn chars_of(s: &str) -> (r: Vec<char>)
    ensures
        r@ == s@,
{
    let mut out: Vec<char> = Vec::new();
    for c in it: s.chars()
        invariant
            it.seq() == s@,
            out@ == s@.take(it.index()),
    {
        out.push(c);
        assert(s@.take(it.index() + 1) =~= s@.take(it.index()).push(c));
    }
    assert(s@.take(s@.len() as int) =~= s@);
    out
}

pub fn push_chars(out: &mut String, chars: &[char])
    ensures
        final(out)@ == old(out)@ + chars@,
{
    for i in 0..chars.len()
        invariant
            out@ == old(out)@ + chars@.take(i as int),
    {
        out.push(chars[i]);
        assert(chars@.take(i + 1) =~= chars@.take(i as int).push(chars@[i as int]));
    }
    assert(chars@.take(chars@.len() as int) =~= chars@);
}

/// The string of the given characters.
pub fn string_of(chars: &[char]) -> (r: String)
    ensures
        r@ == chars@,
{
    let mut out = String::new();
    push_chars(&mut out, chars);
    assert(out@ =~= chars@);
    out
}

/// `core::str::from_utf8` gives the string that the bytes encode, and nothing
/// where they are not UTF-8.
#[verifier::external_body]
pub(crate) fn utf8(bytes: &[u8]) -> (r: Option<&str>)
    ensures
        r is Some <==> vstd::utf8::valid_utf8(bytes@),
        r matches Some(s) ==> vstd::utf8::encode_utf8(s@) == bytes@,
{
    core::str::from_utf8(bytes).ok()
}

/// A string literal that spells the text: what `{:?}` prints of a `str`.
pub uninterp spec fn quoted(s: Seq<char>) -> Seq<char>;

/// Whether a text holds printable ASCII alone, and no quote and no backslash.
pub open spec fn is_plain(s: Seq<char>) -> bool {
    forall|i: int|
        0 <= i < s.len() ==> 0x20 <= (#[trigger] s[i]) as u32 <= 0x7e && s[i] != '"' && s[i]
            != '\'' && s[i] != '\\'
}

/// `<str as Debug>::fmt`, whose output is a function of the text, and for text
/// without anything to escape is the text between double quotes. How it escapes
/// what is not such text is not stated.
#[verifier::external_body]
pub(crate) fn quote(s: &str) -> (r: String)
    ensures
        r@ == quoted(s@),
        is_plain(s@) ==> r@ == "\""@ + s@ + "\""@,
{
    format!("{:?}", s)
}

/// Control characters: the general category Cc.
pub open spec fn is_control(c: char) -> bool {
    c as u32 <= 0x1f || 0x7f <= c as u32 <= 0x9f
}

pub open spec fn has_no_control(s: Seq<char>) -> bool {
    forall|i: int| 0 <= i < s.len() ==> !is_control(#[trigger] s[i])
}

pub(crate) fn no_control(s: &str) -> (r: bool)
    ensures
        r == has_no_control(s@),
{
    let chars = chars_of(s);
    for i in 0..chars.len()
        invariant
            chars@ == s@,
            forall|j: int| 0 <= j < i ==> !is_control(#[trigger] s@[j]),
    {
        let u: u32 = chars[i] as u32;
        if u <= 0x1f || (0x7f <= u && u <= 0x9f) {
            assert(is_control(s@[i as int]));
            return false;
        }
    }
    true
}

pub open spec fn is_digit(c: char) -> bool {
    '0' <= c <= '9'
}

pub open spec fn all_digits(s: Seq<char>) -> bool {
    forall|i: int| 0 <= i < s.len() ==> is_digit(#[trigger] s[i])
}

/// The value of a run of decimal digits.
pub open spec fn digits_value(s: Seq<char>) -> nat
    decreases s.len(),
{
    if s.len() == 0 {
        0
    } else {
        digits_value(s.drop_last()) * 10 + (s.last() as nat - 48) as nat
    }
}

/// A number: at least one digit and nothing else.
pub open spec fn digits(s: Seq<char>) -> Option<nat> {
    if s.len() > 0 && all_digits(s) {
        Some(digits_value(s))
    } else {
        None
    }
}

pub open spec fn at_most(n: Option<nat>, max: nat) -> Option<nat> {
    match n {
        Some(v) => if v <= max {
            Some(v)
        } else {
            None
        },
        None => None,
    }
}

/// An unsigned number no greater than `max`: digits, with an optional plus
/// sign in front.
pub open spec fn unsigned(s: Seq<char>, max: nat) -> Option<nat> {
    if s.len() > 0 && s[0] == '+' {
        at_most(digits(s.skip(1)), max)
    } else {
        at_most(digits(s), max)
    }
}

/// A signed 32-bit number: digits, with an optional sign in front.
pub open spec fn signed(s: Seq<char>) -> Option<int> {
    if s.len() > 0 && s[0] == '-' {
        match at_most(digits(s.skip(1)), 0x8000_0000) {
            Some(v) => Some(-(v as int)),
            None => None,
        }
    } else {
        match unsigned(s, 0x7fff_ffff) {
            Some(v) => Some(v as int),
            None => None,
        }
    }
}

proof fn lemma_digits_value_grows(s: Seq<char>, n: int)
    requires
        0 <= n <= s.len(),
    ensures
        digits_value(s.take(n)) <= digits_value(s),
    decreases s.len() - n,
{
    if n < s.len() {
        lemma_digits_value_grows(s, n + 1);
        assert(s.take(n + 1).drop_last() =~= s.take(n));
    } else {
        assert(s.take(n) =~= s);
    }
}

/// The number that the characters from `from` on spell, if it is one and no
/// greater than `max`.
fn parse_digits(s: &[char], from: usize, max: u64) -> (r: Option<u64>)
    requires
        from <= s@.len(),
    ensures
        match at_most(digits(s@.skip(from as int)), max as nat) {
            Some(v) => r == Some(v as u64) && v <= u64::MAX,
            None => r is None,
        },
{
    let ghost t = s@.skip(from as int);
    if from == s.len() {
        return None;
    }
    let mut acc: u64 = 0;
    let mut i: usize = from;
    while i < s.len()
        invariant
            from <= i <= s@.len(),
            t == s@.skip(from as int),
            all_digits(t.take(i - from)),
            acc == digits_value(t.take(i - from)),
            acc <= max,
        decreases s@.len() - i,
    {
        let c: char = s[i];
        assert(c == t[i - from]);
        if !(c >= '0' && c <= '9') {
            return None;
        }
        let d: u64 = c as u64 - 48;
        assert(t.take(i + 1 - from).drop_last() =~= t.take(i - from));
        assert(digits_value(t.take(i + 1 - from)) == acc * 10 + d);
        let next: u128 = acc as u128 * 10 + d as u128;
        if next > max as u128 {
            proof {
                lemma_digits_value_grows(t, i + 1 - from);
            }
            return None;
        }
        acc = next as u64;
        i = i + 1;
    }
    assert(t.take(s@.len() - from) =~= t);
    Some(acc)
}

/// The unsigned number no greater than `max` that the characters spell.
pub fn parse_unsigned(s: &[char], max: u64) -> (r: Option<u64>)
    ensures
        match unsigned(s@, max as nat) {
            Some(v) => r == Some(v as u64) && v <= u64::MAX,
            None => r is None,
        },
{
    assert(s@.skip(0) =~= s@);
    if s.len() > 0 && s[0] == '+' {
        parse_digits(s, 1, max)
    } else {
        parse_digits(s, 0, max)
    }
}

/// The signed 32-bit number that the characters spell.
pub fn parse_signed(s: &[char]) -> (r: Option<i32>)
    ensures
        match signed(s@) {
            Some(v) => r == Some(v as i32) && i32::MIN <= v <= i32::MAX,
            None => r is None,
        },
{
    if s.len() > 0 && s[0] == '-' {
        match parse_digits(s, 1, 0x8000_0000) {
            Some(v) => Some((0 - v as i64) as i32),
            None => None,
        }
    } else {
        match parse_unsigned(s, 0x7fff_ffff) {
            Some(v) => Some(v as i32),
            None => None,
        }
    }
}

/// The pieces between the occurrences of `sep`, empty ones included.
pub open spec fn split_by(s: Seq<char>, sep: char) -> Seq<Seq<char>>
    decreases s.len(),
{
    if s.len() == 0 {
        seq![Seq::empty()]
    } else {
        let before = split_by(s.drop_last(), sep);
        if s.last() == sep {
            before.push(Seq::empty())
        } else {
            before.drop_last().push(before.last().push(s.last()))
        }
    }
}

/// The views of a list of character vectors.
pub open spec fn char_views(parts: Seq<Vec<char>>) -> Seq<Seq<char>> {
    Seq::new(parts.len(), |i: int| parts[i]@)
}

pub proof fn lemma_split_nonempty(s: Seq<char>, sep: char)
    ensures
        split_by(s, sep).len() > 0,
    decreases s.len(),
{
    if s.len() > 0 {
        lemma_split_nonempty(s.drop_last(), sep);
    }
}

/// The pieces between the occurrences of `sep`, empty ones included.
pub fn split(s: &[char], sep: char) -> (r: Vec<Vec<char>>)
    ensures
        char_views(r@) == split_by(s@, sep),
        r@.len() > 0,
{
    let mut out: Vec<Vec<char>> = Vec::new();
    let mut cur: Vec<char> = Vec::new();
    assert(char_views(out@).push(cur@) =~= split_by(s@.take(0), sep));
    for i in 0..s.len()
        invariant
            char_views(out@).push(cur@) == split_by(s@.take(i as int), sep),
    {
        let ghost before = split_by(s@.take(i as int), sep);
        let ghost out0 = char_views(out@);
        assert(s@.take(i + 1).drop_last() =~= s@.take(i as int));
        assert(before.drop_last() =~= out0);
        assert(before.last() == cur@);
        if s[i] == sep {
            let ghost done = cur@;
            out.push(cur);
            cur = Vec::new();
            assert(char_views(out@) =~= out0.push(done));
            assert(char_views(out@) =~= before);
        } else {
            cur.push(s[i]);
        }
        assert(char_views(out@).push(cur@) =~= split_by(s@.take(i + 1), sep));
    }
    let ghost out0 = char_views(out@);
    let ghost done = cur@;
    out.push(cur);
    assert(char_views(out@) =~= out0.push(done));
    assert(s@.take(s@.len() as int) =~= s@);
    out
}

/// Whether `i` is where `c` comes first.
pub open spec fn first_at(s: Seq<char>, c: char, i: int) -> bool {
    &&& 0 <= i < s.len()
    &&& s[i] == c
    &&& forall|j: int| 0 <= j < i ==> s[j] != c
}

/// What stands before and behind the first `sep`.
pub open spec fn parted(s: Seq<char>, sep: char) -> Option<(Seq<char>, Seq<char>)> {
    if exists|i: int| first_at(s, sep, i) {
        let i = choose|i: int| first_at(s, sep, i);
        Some((s.take(i), s.skip(i + 1)))
    } else {
        None
    }
}

/// What stands before and behind the first `sep`.
pub fn split_once(s: &[char], sep: char) -> (r: Option<(Vec<char>, Vec<char>)>)
    ensures
        match parted(s@, sep) {
            Some((a, b)) => r matches Some(p) && p.0@ == a && p.1@ == b,
            None => r is None,
        },
{
    for i in 0..s.len()
        invariant
            forall|j: int| 0 <= j < i ==> s@[j] != sep,
    {
        if s[i] == sep {
            assert(first_at(s@, sep, i as int));
            proof {
                let c = choose|c: int| first_at(s@, sep, c);
                assert(c == i);
            }
            let a = vstd::slice::slice_to_vec(vstd::slice::slice_subrange(s, 0, i));
            let b = vstd::slice::slice_to_vec(vstd::slice::slice_subrange(s, i + 1, s.len()));
            assert(a@ =~= s@.take(i as int));
            assert(b@ =~= s@.skip(i + 1));
            return Some((a, b));
        }
    }
    None
}

/// What follows a prefix.
pub open spec fn stripped(s: Seq<char>, prefix: Seq<char>) -> Option<Seq<char>> {
    if prefix.len() <= s.len() && s.take(prefix.len() as int) == prefix {
        Some(s.skip(prefix.len() as int))
    } else {
        None
    }
}

/// What follows a prefix.
pub fn strip_prefix(s: &[char], prefix: &str) -> (r: Option<Vec<char>>)
    ensures
        match stripped(s@, prefix@) {
            Some(t) => r is Some && r->0@ == t,
            None => r is None,
        },
{
    let p = chars_of(prefix);
    if p.len() > s.len() {
        return None;
    }
    for i in 0..p.len()
        invariant
            p@ == prefix@,
            p@.len() <= s@.len(),
            forall|j: int| 0 <= j < i ==> s@[j] == p@[j],
    {
        if s[i] != p[i] {
            assert(s@.take(p@.len() as int)[i as int] != p@[i as int]);
            return None;
        }
    }
    assert(s@.take(p@.len() as int) =~= p@);
    let t = vstd::slice::slice_to_vec(vstd::slice::slice_subrange(s, p.len(), s.len()));
    assert(t@ =~= s@.skip(p@.len() as int));
    Some(t)
}

/// The characters with the White_Space property.
pub open spec fn is_space(c: char) -> bool {
    ||| 0x9 <= c as u32 <= 0xd
    ||| c as u32 == 0x20
    ||| c as u32 == 0x85
    ||| c as u32 == 0xa0
    ||| c as u32 == 0x1680
    ||| 0x2000 <= c as u32 <= 0x200a
    ||| c as u32 == 0x2028
    ||| c as u32 == 0x2029
    ||| c as u32 == 0x202f
    ||| c as u32 == 0x205f
    ||| c as u32 == 0x3000
}

pub fn is_whitespace(c: char) -> (r: bool)
    ensures
        r == is_space(c),
{
    let u: u32 = c as u32;
    (0x9 <= u && u <= 0xd) || u == 0x20 || u == 0x85 || u == 0xa0 || u == 0x1680 || (0x2000 <= u
        && u <= 0x200a) || u == 0x2028 || u == 0x2029 || u == 0x202f || u == 0x205f || u == 0x3000
}

/// The text without the white space in front.
pub open spec fn trimmed_start(s: Seq<char>) -> Seq<char>
    decreases s.len(),
{
    if s.len() > 0 && is_space(s[0]) {
        trimmed_start(s.skip(1))
    } else {
        s
    }
}

/// The text without the white space behind.
pub open spec fn trimmed_end(s: Seq<char>) -> Seq<char>
    decreases s.len(),
{
    if s.len() > 0 && is_space(s.last()) {
        trimmed_end(s.drop_last())
    } else {
        s
    }
}

/// The text without the white space at either end.
pub open spec fn trimmed(s: Seq<char>) -> Seq<char> {
    trimmed_end(trimmed_start(s))
}

/// The text without the white space at either end.
pub fn trim(s: &[char]) -> (r: Vec<char>)
    ensures
        r@ == trimmed(s@),
{
    let n = s.len();
    let mut a: usize = 0;
    assert(s@.skip(0) =~= s@);
    while a < n && is_whitespace(s[a])
        invariant
            a <= n,
            n == s@.len(),
            trimmed_start(s@) == trimmed_start(s@.skip(a as int)),
        decreases n - a,
    {
        assert(s@.skip(a as int).skip(1) =~= s@.skip(a + 1));
        a = a + 1;
    }
    let ghost t = s@.skip(a as int);
    assert(trimmed_start(s@) == t);
    let mut b: usize = n;
    assert(s@.subrange(a as int, n as int) =~= t);
    while a < b && is_whitespace(s[b - 1])
        invariant
            a <= b <= n,
            n == s@.len(),
            trimmed_end(t) == trimmed_end(s@.subrange(a as int, b as int)),
        decreases b,
    {
        assert(s@.subrange(a as int, b as int).drop_last() =~= s@.subrange(a as int, b - 1));
        b = b - 1;
    }
    vstd::slice::slice_to_vec(vstd::slice::slice_subrange(s, a, b))
}

/// The number of bytes that a character takes in UTF-8.
pub open spec fn char_width(c: char) -> nat {
    if c as u32 <= 0x7f {
        1
    } else if c as u32 <= 0x7ff {
        2
    } else if c as u32 <= 0xffff {
        3
    } else {
        4
    }
}

/// The number of bytes that a text takes in UTF-8.
pub open spec fn byte_len(s: Seq<char>) -> nat
    decreases s.len(),
{
    if s.len() == 0 {
        0
    } else {
        char_width(s[0]) + byte_len(s.skip(1))
    }
}

/// Whether the characters from `k` on take `n` bytes.
pub open spec fn is_tail(s: Seq<char>, n: nat, k: int) -> bool {
    0 <= k <= s.len() && byte_len(s.skip(k)) == n
}

/// The last `n` bytes of a text, where they are whole characters.
pub open spec fn last_bytes(s: Seq<char>, n: nat) -> Option<Seq<char>> {
    if exists|k: int| is_tail(s, n, k) {
        Some(s.skip(choose|k: int| is_tail(s, n, k)))
    } else {
        None
    }
}

proof fn lemma_tails_differ(s: Seq<char>, a: int, b: int)
    requires
        0 <= a < b <= s.len(),
    ensures
        byte_len(s.skip(b)) < byte_len(s.skip(a)),
    decreases b - a,
{
    assert(s.skip(a).skip(1) =~= s.skip(a + 1));
    assert(s.skip(a)[0] == s[a]);
    if a + 1 < b {
        lemma_tails_differ(s, a + 1, b);
    }
}

/// The last `n` bytes of a text, where they are whole characters. `Err` where
/// the text has no more than `n` bytes.
pub fn tail_bytes(s: &[char], n: u64) -> (r: Result<Option<Vec<char>>, ()>)
    requires
        n <= 0xffff,
    ensures
        byte_len(s@) <= n ==> r is Err,
        byte_len(s@) > n ==> match last_bytes(s@, n as nat) {
            Some(t) => r matches Ok(Some(v)) && v@ == t,
            None => r matches Ok(None),
        },
{
    let mut k: usize = s.len();
    let mut width: u64 = 0;
    let mut found: Option<usize> = None;
    assert(s@.skip(s@.len() as int) =~= Seq::empty());
    if n == 0 {
        found = Some(k);
        assert(is_tail(s@, 0, k as int));
    }
    while k > 0 && width <= n
        invariant
            k <= s@.len(),
            n <= 0xffff,
            width == byte_len(s@.skip(k as int)),
            width <= n + 4,
            match found {
                Some(f) => k <= f <= s@.len() && is_tail(s@, n as nat, f as int),
                None => forall|j: int| k <= j <= s@.len() ==> !is_tail(s@, n as nat, j),
            },
        decreases k,
    {
        let c: char = s[k - 1];
        assert(s@.skip(k - 1).skip(1) =~= s@.skip(k as int));
        assert(s@.skip(k - 1)[0] == c);
        let u: u32 = c as u32;
        let w: u64 = if u <= 0x7f {
            1
        } else if u <= 0x7ff {
            2
        } else if u <= 0xffff {
            3
        } else {
            4
        };
        width = width + w;
        k = k - 1;
        if width == n {
            found = Some(k);
            assert(is_tail(s@, n as nat, k as int));
        }
    }
    assert(s@.skip(0) =~= s@);
    if width <= n {
        return Err(());
    }
    proof {
        if k > 0 {
            lemma_tails_differ(s@, 0, k as int);
        }
        assert forall|j: int| 0 <= j < k implies !is_tail(s@, n as nat, j) by {
            lemma_tails_differ(s@, j, k as int);
        }
    }
    match found {
        Some(f) => {
            proof {
                let c = choose|c: int| is_tail(s@, n as nat, c);
                if c < f {
                    lemma_tails_differ(s@, c, f as int);
                } else if f < c {
                    lemma_tails_differ(s@, f as int, c);
                }
                assert(c == f);
            }
            let t = vstd::slice::slice_to_vec(vstd::slice::slice_subrange(s, f, s.len()));
            assert(t@ =~= s@.skip(f as int));
            Ok(Some(t))
        },
        None => Ok(None),
    }
}

/// Whether characters spell a text.
pub fn spells(s: &[char], t: &str) -> (r: bool)
    ensures
        r == (s@ == t@),
{
    let chars = chars_of(t);
    if s.len() != chars.len() {
        return false;
    }
    for i in 0..s.len()
        invariant
            chars@ == t@,
            s@.len() == chars@.len(),
            forall|j: int| 0 <= j < i ==> s@[j] == t@[j],
    {
        if s[i] != chars[i] {
            return false;
        }
    }
    assert(s@ =~= t@);
    true
}

/// A copy of a text.
pub fn copied(s: &str) -> (r: String)
    ensures
        r@ == s@,
{
    string_of(chars_of(s).as_slice())
}

/// The characters of a text up to the first white space, white space in front
/// left out.
pub open spec fn first_word(s: Seq<char>) -> Seq<char> {
    until_space(trimmed_start(s))
}

/// The characters up to the first white space.
pub open spec fn until_space(s: Seq<char>) -> Seq<char>
    decreases s.len(),
{
    if s.len() == 0 || is_space(s[0]) {
        Seq::empty()
    } else {
        seq![s[0]] + until_space(s.skip(1))
    }
}

proof fn lemma_until_space(s: Seq<char>, n: int)
    requires
        0 <= n <= s.len(),
        forall|j: int| 0 <= j < n ==> !is_space(#[trigger] s[j]),
        n == s.len() || is_space(s[n]),
    ensures
        until_space(s) == s.take(n),
    decreases s.len(),
{
    if n > 0 {
        let t = s.skip(1);
        assert forall|j: int| 0 <= j < n - 1 implies !is_space(#[trigger] t[j]) by {
            assert(t[j] == s[j + 1]);
        }
        assert(!is_space(s[0]));
        lemma_until_space(t, n - 1);
        assert(seq![s[0]] + t.take(n - 1) =~= s.take(n));
    } else {
        assert(s.take(0) =~= Seq::empty());
    }
}

/// The text without the white space in front.
pub fn trim_start(s: &[char]) -> (r: Vec<char>)
    ensures
        r@ == trimmed_start(s@),
{
    let mut a: usize = 0;
    assert(s@.skip(0) =~= s@);
    while a < s.len() && is_whitespace(s[a])
        invariant
            a <= s@.len(),
            trimmed_start(s@) == trimmed_start(s@.skip(a as int)),
        decreases s@.len() - a,
    {
        assert(s@.skip(a as int).skip(1) =~= s@.skip(a + 1));
        a = a + 1;
    }
    let t = vstd::slice::slice_to_vec(vstd::slice::slice_subrange(s, a, s.len()));
    assert(t@ =~= s@.skip(a as int));
    t
}

/// The first word of a text.
pub fn word(s: &[char]) -> (r: Vec<char>)
    ensures
        r@ == first_word(s@),
{
    let t = trim_start(s);
    let mut n: usize = 0;
    while n < t.len() && !is_whitespace(t[n])
        invariant
            n <= t@.len(),
            forall|j: int| 0 <= j < n ==> !is_space(#[trigger] t@[j]),
        decreases t@.len() - n,
    {
        n = n + 1;
    }
    proof {
        lemma_until_space(t@, n as int);
    }
    let w = vstd::slice::slice_to_vec(vstd::slice::slice_subrange(t.as_slice(), 0, n));
    assert(w@ =~= t@.take(n as int));
    w
}

} // verus!
