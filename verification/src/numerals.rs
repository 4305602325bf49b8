//! What reading, trimming and taking text apart promise, on the text itself.
use vstd::prelude::*;

use crate::text;

verus! {

// ---- numbers ----

/// A run of zeros.
pub open spec fn zeros(k: nat) -> Seq<char> {
    Seq::new(k, |i: int| '0')
}

/// The numeral of a number: leading zeros, if any, and the number in decimal.
pub open spec fn numeral(k: nat, n: nat) -> Seq<char> {
    zeros(k) + text::decimal(n)
}

pub proof fn lemma_decimal(n: nat)
    ensures
        text::decimal(n).len() > 0,
        text::all_digits(text::decimal(n)),
        text::digits_value(text::decimal(n)) == n,
    decreases n,
{
    let s = text::decimal(n);
    if n < 10 {
        assert(s.drop_last() =~= Seq::<char>::empty());
        assert(text::digits_value(s.drop_last()) == 0);
        assert(s.last() as nat == 48 + n);
        assert(text::is_digit(s[0]));
    } else {
        lemma_decimal(n / 10);
        let before = text::decimal(n / 10);
        assert(s.drop_last() =~= before);
        assert(s.last() as nat == 48 + n % 10);
        assert forall|i: int| 0 <= i < s.len() implies text::is_digit(#[trigger] s[i]) by {
            if i < before.len() {
                assert(s[i] == before[i]);
            }
        }
        assert((n / 10) * 10 + n % 10 == n);
    }
}

pub proof fn lemma_numeral(k: nat, n: nat)
    ensures
        numeral(k, n).len() > 0,
        text::all_digits(numeral(k, n)),
        text::digits_value(numeral(k, n)) == n,
    decreases text::decimal(n).len(),
{
    lemma_decimal(n);
    let d = text::decimal(n);
    lemma_leading_zeros(k, d);
    assert forall|i: int| 0 <= i < numeral(k, n).len() implies text::is_digit(
        #[trigger] numeral(k, n)[i],
    ) by {
        if i >= k {
            assert(numeral(k, n)[i] == d[i - k]);
        }
    }
}

proof fn lemma_leading_zeros(k: nat, s: Seq<char>)
    ensures
        text::digits_value(zeros(k) + s) == text::digits_value(s),
    decreases k + s.len(),
{
    let all = zeros(k) + s;
    if s.len() > 0 {
        assert(all.drop_last() =~= zeros(k) + s.drop_last());
        lemma_leading_zeros(k, s.drop_last());
    } else if k > 0 {
        assert(all.drop_last() =~= zeros((k - 1) as nat) + s);
        lemma_leading_zeros((k - 1) as nat, s);
        assert(all.last() == '0');
    } else {
        assert(all =~= s);
    }
}

/// Every run of digits is a numeral of its value.
proof fn lemma_digits_are_numerals(s: Seq<char>) -> (k: nat)
    requires
        s.len() > 0,
        text::all_digits(s),
    ensures
        s == numeral(k, text::digits_value(s)),
    decreases s.len(),
{
    let before = s.drop_last();
    let d = (s.last() as nat - 48) as nat;
    assert(text::is_digit(s[s.len() - 1]));
    assert(d < 10);
    assert(s.last() == text::digit(d));
    if before.len() == 0 {
        assert(text::digits_value(before) == 0);
        assert(s =~= numeral(0, d));
        0
    } else {
        assert forall|i: int| 0 <= i < before.len() implies text::is_digit(#[trigger] before[i]) by {
            assert(text::is_digit(s[i]));
        }
        let k = lemma_digits_are_numerals(before);
        let v = text::digits_value(before);
        if v == 0 {
            assert(before =~= zeros(k + 1));
            assert(s =~= numeral(k + 1, d));
            k + 1
        } else {
            let w = v * 10 + d;
            assert(w / 10 == v && w % 10 == d);
            assert(text::decimal(w) == text::decimal(v).push(text::digit(d)));
            assert(s =~= before.push(s.last()));
            assert(numeral(k, w) =~= numeral(k, v).push(text::digit(d)));
            k
        }
    }
}

/// An unsigned number is read from its numeral, with or without leading zeros
/// and a plus sign, wherever it is not too great.
pub proof fn law_unsigned_numbers_read_as_written(k: nat, n: nat, max: nat)
    ensures
        text::unsigned(numeral(k, n), max) == if n <= max {
            Some(n)
        } else {
            None
        },
        text::unsigned(seq!['+'] + numeral(k, n), max) == if n <= max {
            Some(n)
        } else {
            None
        },
{
    lemma_numeral(k, n);
    let s = numeral(k, n);
    assert(text::is_digit(s[0]));
    assert((seq!['+'] + s).skip(1) =~= s);
}

/// What is read as an unsigned number is its numeral, with or without leading
/// zeros and a plus sign, and nothing else is.
pub proof fn law_only_numerals_are_unsigned_numbers(s: Seq<char>, max: nat) -> (k: nat)
    ensures
        text::unsigned(s, max) matches Some(n) ==> n <= max && (s == numeral(k, n) || s == seq!['+']
            + numeral(k, n)),
{
    match text::unsigned(s, max) {
        Some(n) => {
            if s[0] == '+' {
                assert(s =~= seq!['+'] + s.skip(1));
                lemma_digits_are_numerals(s.skip(1))
            } else {
                lemma_digits_are_numerals(s)
            }
        },
        None => 0,
    }
}

/// A signed number is read from its numeral, with or without leading zeros and a
/// sign, wherever it has 32 bits.
pub proof fn law_signed_numbers_read_as_written(k: nat, n: nat)
    ensures
        text::signed(numeral(k, n)) == if n <= i32::MAX {
            Some(n as int)
        } else {
            None
        },
        text::signed(seq!['+'] + numeral(k, n)) == if n <= i32::MAX {
            Some(n as int)
        } else {
            None
        },
        text::signed(seq!['-'] + numeral(k, n)) == if -n >= i32::MIN {
            Some(-n)
        } else {
            None
        },
{
    lemma_numeral(k, n);
    let s = numeral(k, n);
    assert(text::is_digit(s[0]));
    assert((seq!['+'] + s).skip(1) =~= s);
    assert((seq!['-'] + s).skip(1) =~= s);
}

/// What is read as a signed number is its numeral, with or without leading zeros
/// and a sign, and nothing else is.
pub proof fn law_only_numerals_are_signed_numbers(s: Seq<char>) -> (k: nat)
    ensures
        text::signed(s) matches Some(n) ==> {
            &&& i32::MIN <= n <= i32::MAX
            &&& n >= 0 && (s == numeral(k, n as nat) || s == seq!['+'] + numeral(k, n as nat)) || n
                <= 0 && s == seq!['-'] + numeral(k, (-n) as nat)
        },
{
    match text::signed(s) {
        Some(n) => {
            if s[0] == '-' {
                assert(s =~= seq!['-'] + s.skip(1));
                lemma_digits_are_numerals(s.skip(1))
            } else {
                law_only_numerals_are_unsigned_numbers(s, 0x7fff_ffff)
            }
        },
        None => 0,
    }
}

/// Two numbers are written alike only if they are the same, and the digits are
/// those that they are: every digit in front of the last counts ten times as
/// much as the next.
pub proof fn law_decimals_count_in_tens(n: nat, d: nat)
    requires
        d < 10,
    ensures
        text::decimal(d) == seq![(('0' as u32 + d) as u32) as char],
        n > 0 ==> text::decimal(n * 10 + d) == text::decimal(n) + text::decimal(d),
{
    assert(('0' as u32 + d) as u32 == (48 + d) as u32);
    let w = n * 10 + d;
    if n > 0 {
        assert(w / 10 == n && w % 10 == d);
        assert(text::decimal(w) =~= text::decimal(n) + text::decimal(d));
    }
}

pub proof fn law_numbers_are_written_apart(a: nat, b: nat)
    ensures
        text::decimal(a) == text::decimal(b) <==> a == b,
{
    lemma_decimal(a);
    lemma_decimal(b);
}

// ---- white space ----

pub open spec fn all_space(s: Seq<char>) -> bool {
    forall|i: int| 0 <= i < s.len() ==> text::is_space(#[trigger] s[i])
}

/// Whether a text neither starts nor ends with white space.
pub open spec fn is_tight(s: Seq<char>) -> bool {
    s.len() > 0 ==> !text::is_space(s[0]) && !text::is_space(s.last())
}

/// Of ASCII the blanks are white space, and nothing that is printed is.
pub proof fn law_blanks_are_white_space(c: char)
    requires
        c as u32 <= 0x7f,
    ensures
        text::is_space(c) <==> c == ' ' || c == '\t' || c == '\n' || c == '\r' || c as u32 == 0xb
            || c as u32 == 0xc,
{
}

pub proof fn lemma_start_skips(pre: Seq<char>, s: Seq<char>)
    requires
        all_space(pre),
        s.len() > 0 ==> !text::is_space(s[0]),
    ensures
        text::trimmed_start(pre + s) == s,
    decreases pre.len(),
{
    let all = pre + s;
    if pre.len() > 0 {
        assert(text::is_space(pre[0]));
        assert(all[0] == pre[0]);
        assert(all.skip(1) =~= pre.skip(1) + s);
        lemma_start_skips(pre.skip(1), s);
    } else {
        assert(all =~= s);
    }
}

pub proof fn lemma_end_skips(s: Seq<char>, post: Seq<char>)
    requires
        all_space(post),
        s.len() > 0 ==> !text::is_space(s.last()),
    ensures
        text::trimmed_end(s + post) == s,
    decreases post.len(),
{
    let all = s + post;
    if post.len() > 0 {
        assert(text::is_space(post[post.len() - 1]));
        assert(all.last() == post.last());
        assert(all.drop_last() =~= s + post.drop_last());
        lemma_end_skips(s, post.drop_last());
    } else {
        assert(all =~= s);
    }
}

/// Trimming takes the white space at either end, all of it, and nothing else.
pub proof fn law_trimming_takes_the_ends(pre: Seq<char>, s: Seq<char>, post: Seq<char>)
    requires
        all_space(pre),
        all_space(post),
        is_tight(s),
    ensures
        text::trimmed(pre + s + post) == s,
{
    if s.len() > 0 {
        assert(pre + s + post =~= pre + (s + post));
        assert((s + post)[0] == s[0]);
        lemma_start_skips(pre, s + post);
        lemma_end_skips(s, post);
    } else {
        let none = Seq::<char>::empty();
        assert(pre + s + post =~= (pre + post) + none);
        assert forall|i: int| 0 <= i < (pre + post).len() implies text::is_space(
            #[trigger] (pre + post)[i],
        ) by {
            if i < pre.len() {
                assert(text::is_space(pre[i]));
            } else {
                assert(text::is_space(post[i - pre.len()]));
            }
        }
        lemma_start_skips(pre + post, none);
        assert(text::trimmed_end(none) == none);
        assert(s =~= none);
    }
}

pub proof fn lemma_start_parts(s: Seq<char>) -> (n: int)
    ensures
        0 <= n <= s.len(),
        all_space(s.take(n)),
        text::trimmed_start(s) == s.skip(n),
        n < s.len() ==> !text::is_space(s[n]),
    decreases s.len(),
{
    if s.len() > 0 && text::is_space(s[0]) {
        let n = lemma_start_parts(s.skip(1));
        assert forall|i: int| 0 <= i < n + 1 implies text::is_space(#[trigger] s.take(n + 1)[i]) by {
            if i > 0 {
                assert(s.skip(1).take(n)[i - 1] == s[i]);
            }
        }
        assert(s.skip(1).skip(n) =~= s.skip(n + 1));
        n + 1
    } else {
        assert(s.skip(0) =~= s);
        0
    }
}

proof fn lemma_end_parts(s: Seq<char>) -> (n: int)
    ensures
        0 <= n <= s.len(),
        all_space(s.skip(n)),
        text::trimmed_end(s) == s.take(n),
        n > 0 ==> !text::is_space(s[n - 1]),
    decreases s.len(),
{
    if s.len() > 0 && text::is_space(s.last()) {
        let n = lemma_end_parts(s.drop_last());
        assert forall|i: int| 0 <= i < s.len() - n implies text::is_space(#[trigger] s.skip(n)[i]) by {
            if i < s.len() - n - 1 {
                assert(s.drop_last().skip(n)[i] == s[n + i]);
            }
        }
        assert(s.drop_last().take(n) =~= s.take(n));
        n
    } else {
        assert(s.take(s.len() as int) =~= s);
        s.len() as int
    }
}

/// Every text is what trimming leaves, between white space.
pub proof fn law_trimmed_text_is_tight(s: Seq<char>) -> (r: (Seq<char>, Seq<char>))
    ensures
        all_space(r.0),
        all_space(r.1),
        s == r.0 + text::trimmed(s) + r.1,
        is_tight(text::trimmed(s)),
{
    let a = lemma_start_parts(s);
    let mid = s.skip(a);
    let b = lemma_end_parts(mid);
    let t = mid.take(b);
    if b > 0 {
        assert(t[0] == s[a]);
        assert(t.last() == mid[b - 1]);
    }
    assert(s =~= s.take(a) + t + mid.skip(b));
    (s.take(a), mid.skip(b))
}

// ---- taking text apart ----

/// Parting at a separator gives what stands before the first one and all that
/// follows it; a text without one is not parted.
pub proof fn law_parting_is_at_the_first(a: Seq<char>, b: Seq<char>, sep: char)
    requires
        !a.contains(sep),
    ensures
        text::parted(a + seq![sep] + b, sep) == Some((a, b)),
        text::parted(a, sep) is None,
{
    let s = a + seq![sep] + b;
    assert forall|j: int| 0 <= j < a.len() implies s[j] != sep by {
        assert(a.contains(a[j]));
    }
    assert(text::first_at(s, sep, a.len() as int));
    let c = choose|c: int| text::first_at(s, sep, c);
    assert(c == a.len());
    assert(s.take(c) =~= a);
    assert(s.skip(c + 1) =~= b);
    if exists|i: int| text::first_at(a, sep, i) {
        let i = choose|i: int| text::first_at(a, sep, i);
        assert(a.contains(a[i]));
    }
}

/// What follows a prefix is found, and nothing where the prefix is not there.
pub proof fn law_prefixes_are_stripped(s: Seq<char>, prefix: Seq<char>, rest: Seq<char>)
    ensures
        text::stripped(s, prefix) == Some(rest) <==> s == prefix + rest,
{
    if s == prefix + rest {
        assert(s.take(prefix.len() as int) =~= prefix);
        assert(s.skip(prefix.len() as int) =~= rest);
    }
    if text::stripped(s, prefix) == Some(rest) {
        assert(s =~= prefix + rest);
    }
}

/// The parts of a text, with the separator between them.
pub open spec fn joined(parts: Seq<Seq<char>>, sep: char) -> Seq<char>
    decreases parts.len(),
{
    if parts.len() == 0 {
        Seq::empty()
    } else if parts.len() == 1 {
        parts[0]
    } else {
        joined(parts.drop_last(), sep) + seq![sep] + parts.last()
    }
}

pub open spec fn none_has(parts: Seq<Seq<char>>, sep: char) -> bool {
    forall|i: int| 0 <= i < parts.len() ==> !(#[trigger] parts[i]).contains(sep)
}

pub proof fn lemma_split_last(a: Seq<char>, b: Seq<char>, sep: char)
    requires
        !b.contains(sep),
    ensures
        text::split_by(a + seq![sep] + b, sep) == text::split_by(a, sep).push(b),
    decreases b.len(),
{
    let s = a + seq![sep] + b;
    text::lemma_split_nonempty(a, sep);
    if b.len() == 0 {
        assert(s.drop_last() =~= a);
        assert(s.last() == sep);
        assert(b =~= Seq::empty());
    } else {
        let c = b.drop_last();
        assert(!c.contains(sep)) by {
            if c.contains(sep) {
                let i = c.index_of(sep);
                assert(b[i] == sep);
            }
        }
        lemma_split_last(a, c, sep);
        assert(s.drop_last() =~= a + seq![sep] + c);
        assert(s.last() == b.last());
        assert(b.last() != sep) by {
            assert(b.contains(b[b.len() - 1]));
        }
        let before = text::split_by(a, sep).push(c);
        assert(before.drop_last() =~= text::split_by(a, sep));
        assert(c.push(b.last()) =~= b);
    }
}

pub proof fn lemma_split_one(s: Seq<char>, sep: char)
    requires
        !s.contains(sep),
    ensures
        text::split_by(s, sep) == seq![s],
    decreases s.len(),
{
    if s.len() > 0 {
        let c = s.drop_last();
        assert(!c.contains(sep)) by {
            if c.contains(sep) {
                let i = c.index_of(sep);
                assert(s[i] == sep);
            }
        }
        assert(s.contains(s[s.len() - 1]));
        lemma_split_one(c, sep);
        assert(c.push(s.last()) =~= s);
        assert(text::split_by(s, sep) =~= seq![s]);
    } else {
        assert(s =~= Seq::empty());
        assert(text::split_by(s, sep) =~= seq![s]);
    }
}

/// Splitting gives back what was joined.
pub proof fn law_splitting_undoes_joining(parts: Seq<Seq<char>>, sep: char)
    requires
        parts.len() > 0,
        none_has(parts, sep),
    ensures
        text::split_by(joined(parts, sep), sep) == parts,
    decreases parts.len(),
{
    assert(!parts[parts.len() - 1].contains(sep));
    if parts.len() == 1 {
        lemma_split_one(parts[0], sep);
        assert(parts =~= seq![parts[0]]);
    } else {
        let before = parts.drop_last();
        assert forall|i: int| 0 <= i < before.len() implies !(#[trigger] before[i]).contains(sep) by {
            assert(!parts[i].contains(sep));
        }
        law_splitting_undoes_joining(before, sep);
        lemma_split_last(joined(before, sep), parts.last(), sep);
        assert(before.push(parts.last()) =~= parts);
    }
}

/// The pieces of a text, joined, are the text, and none holds the separator.
pub proof fn law_pieces_join_to_the_text(s: Seq<char>, sep: char)
    ensures
        text::split_by(s, sep).len() > 0,
        none_has(text::split_by(s, sep), sep),
        joined(text::split_by(s, sep), sep) == s,
    decreases s.len(),
{
    let parts = text::split_by(s, sep);
    if s.len() == 0 {
        assert(parts[0] =~= Seq::empty());
        assert(s =~= parts[0]);
    } else {
        let before = text::split_by(s.drop_last(), sep);
        law_pieces_join_to_the_text(s.drop_last(), sep);
        if s.last() == sep {
            assert(parts.drop_last() =~= before);
            assert(parts.last() =~= Seq::empty());
            assert(joined(parts, sep) =~= s);
            assert forall|i: int| 0 <= i < parts.len() implies !(#[trigger] parts[i]).contains(sep) by {
                if i < before.len() {
                    assert(parts[i] == before[i]);
                }
            }
        } else {
            let last = before.last().push(s.last());
            assert(parts.drop_last() =~= before.drop_last());
            assert(parts.last() == last);
            assert(!last.contains(sep)) by {
                if last.contains(sep) {
                    let i = last.index_of(sep);
                    assert(!before[before.len() - 1].contains(sep));
                    assert(i < before.last().len());
                    assert(before.last()[i] == sep);
                }
            }
            assert forall|i: int| 0 <= i < parts.len() implies !(#[trigger] parts[i]).contains(sep) by {
                if i < before.len() - 1 {
                    assert(parts[i] == before[i]);
                }
            }
            assert(s =~= s.drop_last().push(s.last()));
            assert(joined(parts, sep) =~= s);
        }
    }
}

} // verus!
