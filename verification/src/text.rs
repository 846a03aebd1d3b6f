//! Text helpers over character sequences: trimming, splitting, joining and
//! decimal numbers. Every function is stated over the `Seq<char>` view of its
//! arguments.

use vstd::prelude::*;
use vstd::string::*;

verus! {

/// Whether `c` is white space, that is, has the Unicode property `White_Space`.
pub open spec fn is_whitespace(c: char) -> bool {
    let u = c as u32;
    ||| 0x09 <= u <= 0x0D
    ||| u == 0x20
    ||| u == 0x85
    ||| u == 0xA0
    ||| u == 0x1680
    ||| 0x2000 <= u <= 0x200A
    ||| u == 0x2028
    ||| u == 0x2029
    ||| u == 0x202F
    ||| u == 0x205F
    ||| u == 0x3000
}

/// Number of white-space characters at the front of `s`.
pub open spec fn leading_whitespace(s: Seq<char>) -> nat
    decreases s.len(),
{
    if s.len() > 0 && is_whitespace(s[0]) {
        1 + leading_whitespace(s.drop_first())
    } else {
        0
    }
}

/// Number of white-space characters at the back of `s`.
pub open spec fn trailing_whitespace(s: Seq<char>) -> nat
    decreases s.len(),
{
    if s.len() > 0 && is_whitespace(s.last()) {
        1 + trailing_whitespace(s.drop_last())
    } else {
        0
    }
}

/// `s` without its leading and trailing white space.
pub open spec fn trimmed(s: Seq<char>) -> Seq<char> {
    let rest = s.skip(leading_whitespace(s) as int);
    rest.take(rest.len() - trailing_whitespace(rest))
}

/// Whether `s` is blank: empty, or white space only.
pub open spec fn is_blank(s: Seq<char>) -> bool {
    forall|i: int| 0 <= i < s.len() ==> is_whitespace(#[trigger] s[i])
}

/// The leading white space of `s` ends at `a` when everything before `a` is
/// white space and the character at `a`, if there is one, is not.
pub proof fn lemma_leading_whitespace(s: Seq<char>, a: int)
    requires
        0 <= a <= s.len(),
        forall|j: int| 0 <= j < a ==> is_whitespace(#[trigger] s[j]),
        a == s.len() || !is_whitespace(s[a]),
    ensures
        leading_whitespace(s) == a,
    decreases a,
{
    if a > 0 {
        let rest = s.drop_first();
        assert forall|j: int| 0 <= j < a - 1 implies is_whitespace(#[trigger] rest[j]) by {
            assert(rest[j] == s[j + 1]);
        }
        lemma_leading_whitespace(rest, a - 1);
    }
}

/// The trailing white space of `s` starts at `b` when everything from `b` on
/// is white space and the character before `b`, if there is one, is not.
pub proof fn lemma_trailing_whitespace(s: Seq<char>, b: int)
    requires
        0 <= b <= s.len(),
        forall|j: int| b <= j < s.len() ==> is_whitespace(#[trigger] s[j]),
        b == 0 || !is_whitespace(s[b - 1]),
    ensures
        trailing_whitespace(s) == s.len() - b,
    decreases s.len() - b,
{
    if b < s.len() {
        let rest = s.drop_last();
        assert forall|j: int| b <= j < rest.len() implies is_whitespace(#[trigger] rest[j]) by {
            assert(rest[j] == s[j]);
        }
        lemma_trailing_whitespace(rest, b);
    }
}

/// The leading white space is white space, and what follows it is not.
pub proof fn lemma_leading_whitespace_bounds(s: Seq<char>)
    ensures
        leading_whitespace(s) <= s.len(),
        forall|j: int| 0 <= j < leading_whitespace(s) ==> is_whitespace(#[trigger] s[j]),
        leading_whitespace(s) < s.len() ==> !is_whitespace(s[leading_whitespace(s) as int]),
    decreases s.len(),
{
    if s.len() > 0 && is_whitespace(s[0]) {
        let rest = s.drop_first();
        lemma_leading_whitespace_bounds(rest);
        assert forall|j: int| 0 <= j < leading_whitespace(s) implies is_whitespace(
            #[trigger] s[j],
        ) by {
            if j > 0 {
                assert(s[j] == rest[j - 1]);
            }
        }
        if leading_whitespace(s) < s.len() {
            assert(s[leading_whitespace(s) as int] == rest[leading_whitespace(rest) as int]);
        }
    }
}

/// The trailing white space is white space, and what precedes it is not.
pub proof fn lemma_trailing_whitespace_bounds(s: Seq<char>)
    ensures
        trailing_whitespace(s) <= s.len(),
        forall|j: int|
            s.len() - trailing_whitespace(s) <= j < s.len() ==> is_whitespace(#[trigger] s[j]),
        trailing_whitespace(s) < s.len() ==> !is_whitespace(
            s[s.len() - trailing_whitespace(s) - 1],
        ),
    decreases s.len(),
{
    if s.len() > 0 && is_whitespace(s.last()) {
        let rest = s.drop_last();
        lemma_trailing_whitespace_bounds(rest);
        assert forall|j: int|
            s.len() - trailing_whitespace(s) <= j < s.len() implies is_whitespace(
            #[trigger] s[j],
        ) by {
            if j < s.len() - 1 {
                assert(s[j] == rest[j]);
            }
        }
        if trailing_whitespace(s) < s.len() {
            assert(s[s.len() - trailing_whitespace(s) - 1] == rest[rest.len()
                - trailing_whitespace(rest) - 1]);
        }
    }
}

/// A trimmed sequence neither starts nor ends with white space, and it is
/// empty exactly when the sequence was blank.
pub proof fn lemma_trimmed_ends(s: Seq<char>)
    ensures
        trimmed(s).len() <= s.len(),
        trimmed(s).len() > 0 ==> !is_whitespace(trimmed(s).first()) && !is_whitespace(
            trimmed(s).last(),
        ),
        trimmed(s).len() == 0 <==> is_blank(s),
{
    let a = leading_whitespace(s) as int;
    lemma_leading_whitespace_bounds(s);
    let rest = s.skip(a);
    lemma_trailing_whitespace_bounds(rest);
    let t = trailing_whitespace(rest) as int;
    if rest.len() > 0 {
        assert(rest[0] == s[a]);
        if t == rest.len() {
            assert(is_whitespace(rest[0]));
        }
        assert(trimmed(s).len() > 0);
        assert(trimmed(s).first() == rest[0]);
        assert(trimmed(s).last() == rest[rest.len() - t - 1]);
        assert(!is_blank(s));
    } else {
        assert(is_blank(s));
    }
}

/// Trimming what is trimmed changes nothing.
pub proof fn lemma_trimmed_idempotent(s: Seq<char>)
    ensures
        trimmed(trimmed(s)) == trimmed(s),
{
    let t = trimmed(s);
    lemma_trimmed_ends(s);
    if t.len() > 0 {
        lemma_leading_whitespace(t, 0);
        assert(t.skip(0) =~= t);
        lemma_trailing_whitespace(t, t.len() as int);
        assert(t.take(t.len() as int) =~= t);
    } else {
        assert(t.skip(0) =~= t);
        assert(trimmed(t) =~= t);
    }
}

/// Whether `c` is white space.
pub fn char_is_whitespace(c: char) -> (r: bool)
    ensures
        r == is_whitespace(c),
{
    let u: u32 = c as u32;
    (0x09 <= u && u <= 0x0D) || u == 0x20 || u == 0x85 || u == 0xA0 || u == 0x1680 || (0x2000 <= u
        && u <= 0x200A) || u == 0x2028 || u == 0x2029 || u == 0x202F || u == 0x205F || u == 0x3000
}

/// The characters of `s`, in order.
pub fn chars_of(s: &str) -> (v: Vec<char>)
    ensures
        v@ == s@,
{
    let mut v: Vec<char> = Vec::new();
    for c in it: s.chars()
        invariant
            it.seq() == s@,
            v@ == s@.take(it.index() as int),
    {
        v.push(c);
    }
    v
}

/// Whether two strings hold the same characters.
pub fn str_eq(a: &str, b: &str) -> (r: bool)
    ensures
        r == (a@ == b@),
{
    let x = a.as_bytes();
    let y = b.as_bytes();
    if x.len() != y.len() {
        return false;
    }
    let mut i: usize = 0;
    while i < x.len()
        invariant
            x@.len() == y@.len(),
            i <= x@.len(),
            forall|j: int| 0 <= j < i ==> x@[j] == y@[j],
            x@ == a.spec_bytes(),
            y@ == b.spec_bytes(),
        decreases x@.len() - i,
    {
        if x[i] != y[i] {
            return false;
        }
        i += 1;
    }
    proof {
        assert(x@ =~= y@);
        vstd::utf8::encode_utf8_decode_utf8(a@);
        vstd::utf8::encode_utf8_decode_utf8(b@);
    }
    true
}

/// `s` without its leading and trailing white space.
pub fn trim(s: &str) -> (r: &str)
    ensures
        r@ == trimmed(s@),
{
    let chars = chars_of(s);
    let n = chars.len();
    let mut a: usize = 0;
    while a < n && char_is_whitespace(chars[a])
        invariant
            a <= n,
            n == chars@.len(),
            forall|j: int| 0 <= j < a ==> is_whitespace(#[trigger] chars@[j]),
        decreases n - a,
    {
        a += 1;
    }
    let mut b: usize = n;
    while b > a && char_is_whitespace(chars[b - 1])
        invariant
            a <= b <= n,
            n == chars@.len(),
            forall|j: int| b <= j < n ==> is_whitespace(#[trigger] chars@[j]),
        decreases b,
    {
        b -= 1;
    }
    proof {
        lemma_leading_whitespace(s@, a as int);
        let rest = s@.skip(a as int);
        assert forall|j: int| b - a <= j < rest.len() implies is_whitespace(#[trigger] rest[j]) by {
            assert(rest[j] == s@[j + a]);
        }
        if b > a {
            assert(rest[b - a - 1] == s@[b - 1]);
        }
        lemma_trailing_whitespace(rest, b - a);
        assert(rest.take(b - a) =~= s@.subrange(a as int, b as int));
    }
    s.substring_char(a, b)
}

/// Index of the first `c` in `s`, or the length of `s` where there is none.
pub open spec fn first_index_of(s: Seq<char>, c: char) -> int
    decreases s.len(),
{
    if s.len() == 0 || s[0] == c {
        0
    } else {
        1 + first_index_of(s.drop_first(), c)
    }
}

/// The pieces of `s` that lie between the occurrences of `sep`. There is
/// always at least one piece; a piece may be empty.
pub open spec fn split(s: Seq<char>, sep: char) -> Seq<Seq<char>>
    decreases s.len(),
{
    let i = first_index_of(s, sep);
    if 0 <= i < s.len() {
        seq![s.take(i)] + split(s.skip(i + 1), sep)
    } else {
        seq![s]
    }
}

/// The first `c` of `s` is at `k` when it is not found before `k` and `k` is
/// the end of `s` or holds `c`.
pub proof fn lemma_first_index_of(s: Seq<char>, c: char, k: int)
    requires
        0 <= k <= s.len(),
        forall|j: int| 0 <= j < k ==> #[trigger] s[j] != c,
        k == s.len() || s[k] == c,
    ensures
        first_index_of(s, c) == k,
    decreases k,
{
    if k > 0 {
        let rest = s.drop_first();
        assert forall|j: int| 0 <= j < k - 1 implies #[trigger] rest[j] != c by {
            assert(rest[j] == s[j + 1]);
        }
        lemma_first_index_of(rest, c, k - 1);
    }
}

/// The pieces of `s` that lie between the occurrences of `sep`.
pub fn split_on(s: &str, sep: char) -> (r: Vec<String>)
    ensures
        r.deep_view() == split(s@, sep),
{
    let chars = chars_of(s);
    let n = chars.len();
    let mut out: Vec<String> = Vec::new();
    let mut start: usize = 0;
    let mut i: usize = 0;
    assert(s@.skip(0) =~= s@);
    while i < n
        invariant
            start <= i <= n,
            n == s@.len(),
            chars@ == s@,
            forall|j: int| start <= j < i ==> #[trigger] s@[j] != sep,
            split(s@, sep) == out.deep_view() + split(s@.skip(start as int), sep),
        decreases n - i,
    {
        if chars[i] == sep {
            let piece = s.substring_char(start, i).to_owned();
            proof {
                let rest = s@.skip(start as int);
                assert forall|j: int| 0 <= j < i - start implies #[trigger] rest[j] != sep by {
                    assert(rest[j] == s@[j + start]);
                }
                lemma_first_index_of(rest, sep, i - start);
                assert(rest.take(i - start) =~= s@.subrange(start as int, i as int));
                assert(rest.skip(i - start + 1) =~= s@.skip(i + 1));
                assert(out.deep_view().push(piece@) =~= out.deep_view() + seq![piece@]);
            }
            let ghost before = out.deep_view();
            out.push(piece);
            assert(out.deep_view() =~= before.push(piece@));
            start = i + 1;
        }
        i += 1;
    }
    let piece = s.substring_char(start, n).to_owned();
    proof {
        let rest = s@.skip(start as int);
        assert forall|j: int| 0 <= j < n - start implies #[trigger] rest[j] != sep by {
            assert(rest[j] == s@[j + start]);
        }
        lemma_first_index_of(rest, sep, n - start);
        assert(rest =~= s@.subrange(start as int, n as int));
    }
    let ghost before = out.deep_view();
    out.push(piece);
    assert(out.deep_view() =~= before.push(piece@));
    out
}

/// Number of characters at the front of `s` that are not white space.
pub open spec fn leading_word(s: Seq<char>) -> nat
    decreases s.len(),
{
    if s.len() > 0 && !is_whitespace(s[0]) {
        1 + leading_word(s.drop_first())
    } else {
        0
    }
}

/// The first word of `s` ends at `b` when nothing before `b` is white space
/// and `b` is the end of `s` or holds white space.
pub proof fn lemma_leading_word(s: Seq<char>, b: int)
    requires
        0 <= b <= s.len(),
        forall|j: int| 0 <= j < b ==> !is_whitespace(#[trigger] s[j]),
        b == s.len() || is_whitespace(s[b]),
    ensures
        leading_word(s) == b,
    decreases b,
{
    if b > 0 {
        let rest = s.drop_first();
        assert forall|j: int| 0 <= j < b - 1 implies !is_whitespace(#[trigger] rest[j]) by {
            assert(rest[j] == s[j + 1]);
        }
        lemma_leading_word(rest, b - 1);
    }
}

/// The first word is no longer than the sequence.
pub proof fn lemma_leading_word_bound(s: Seq<char>)
    ensures
        leading_word(s) <= s.len(),
    decreases s.len(),
{
    if s.len() > 0 && !is_whitespace(s[0]) {
        lemma_leading_word_bound(s.drop_first());
    }
}

/// The maximal runs of characters of `s` that hold no white space, in order.
pub open spec fn words(s: Seq<char>) -> Seq<Seq<char>>
    decreases s.len(),
    via words_decreases
{
    let rest = s.skip(leading_whitespace(s) as int);
    let n = leading_word(rest) as int;
    if n > 0 {
        seq![rest.take(n)] + words(rest.skip(n))
    } else {
        Seq::empty()
    }
}

#[via_fn]
proof fn words_decreases(s: Seq<char>) {
    lemma_leading_whitespace_bounds(s);
    lemma_leading_word_bound(s.skip(leading_whitespace(s) as int));
}

/// The words of `s`: its maximal runs of characters that are not white space.
pub fn split_words(s: &str) -> (r: Vec<String>)
    ensures
        r.deep_view() == words(s@),
{
    let chars = chars_of(s);
    let n = chars.len();
    let mut out: Vec<String> = Vec::new();
    let mut i: usize = 0;
    assert(s@.skip(0) =~= s@);
    while i < n
        invariant
            i <= n,
            n == s@.len(),
            chars@ == s@,
            words(s@) == out.deep_view() + words(s@.skip(i as int)),
        decreases n - i,
    {
        let mut a: usize = i;
        while a < n && char_is_whitespace(chars[a])
            invariant
                i <= a <= n,
                n == chars@.len(),
                forall|j: int| i <= j < a ==> is_whitespace(#[trigger] chars@[j]),
            decreases n - a,
        {
            a += 1;
        }
        let mut b: usize = a;
        while b < n && !char_is_whitespace(chars[b])
            invariant
                a <= b <= n,
                n == chars@.len(),
                forall|j: int| a <= j < b ==> !is_whitespace(#[trigger] chars@[j]),
            decreases n - b,
        {
            b += 1;
        }
        proof {
            let from = s@.skip(i as int);
            assert forall|j: int| 0 <= j < a - i implies is_whitespace(#[trigger] from[j]) by {
                assert(from[j] == s@[j + i]);
            }
            lemma_leading_whitespace(from, a - i);
            let rest = from.skip(a - i);
            assert(rest =~= s@.skip(a as int));
            assert forall|j: int| 0 <= j < b - a implies !is_whitespace(#[trigger] rest[j]) by {
                assert(rest[j] == s@[j + a]);
            }
            lemma_leading_word(rest, b - a);
            assert(rest.take(b - a) =~= s@.subrange(a as int, b as int));
            assert(rest.skip(b - a) =~= s@.skip(b as int));
        }
        if b > a {
            let piece = s.substring_char(a, b).to_owned();
            let ghost before = out.deep_view();
            out.push(piece);
            assert(out.deep_view() =~= before + seq![piece@]);
        } else {
            assert(words(s@.skip(b as int)) =~= Seq::<Seq<char>>::empty());
        }
        i = b;
    }
    assert(words(s@.skip(n as int)) =~= Seq::<Seq<char>>::empty());
    out
}

/// The parts in order, with `sep` between each two neighbours.
pub open spec fn joined(parts: Seq<Seq<char>>, sep: Seq<char>) -> Seq<char>
    decreases parts.len(),
{
    if parts.len() == 0 {
        Seq::empty()
    } else if parts.len() == 1 {
        parts[0]
    } else {
        joined(parts.drop_last(), sep) + sep + parts.last()
    }
}

/// The parts in order, with `sep` between each two neighbours.
pub fn join(parts: &Vec<String>, sep: &str) -> (r: String)
    ensures
        r@ == joined(parts.deep_view(), sep@),
{
    let mut out = String::new();
    let mut i: usize = 0;
    while i < parts.len()
        invariant
            i <= parts.len(),
            out@ == joined(parts.deep_view().take(i as int), sep@),
        decreases parts.len() - i,
    {
        proof {
            let next = parts.deep_view().take(i + 1);
            assert(next.drop_last() =~= parts.deep_view().take(i as int));
            assert(next.last() == parts[i as int]@);
        }
        if i > 0 {
            out.append(sep);
        }
        out.append(parts[i].as_str());
        i += 1;
    }
    assert(parts.deep_view().take(parts.len() as int) =~= parts.deep_view());
    out
}

/// Whether `c` is one of the ten decimal digits.
pub open spec fn is_digit(c: char) -> bool {
    '0' <= c <= '9'
}

/// Whether `s` is made of decimal digits only.
pub open spec fn all_digits(s: Seq<char>) -> bool {
    forall|i: int| 0 <= i < s.len() ==> is_digit(#[trigger] s[i])
}

/// The number that the decimal digits `s` write, the empty sequence writing 0.
pub open spec fn digits_value(s: Seq<char>) -> nat
    decreases s.len(),
{
    if s.len() == 0 {
        0
    } else {
        (digits_value(s.drop_last()) * 10 + (s.last() as u32 - '0' as u32)) as nat
    }
}

/// The number that `s` writes in decimal, if it writes one that fits 32 bits:
/// an optional `+`, then at least one digit and nothing else.
pub open spec fn parsed_u32(s: Seq<char>) -> Option<u32> {
    if s.len() > 0 && s[0] == '+' {
        parsed_digits(s.drop_first())
    } else {
        parsed_digits(s)
    }
}

/// The number that the digits `s` write, if there is at least one digit,
/// nothing else, and the number fits 32 bits.
pub open spec fn parsed_digits(s: Seq<char>) -> Option<u32> {
    if s.len() > 0 && all_digits(s) && digits_value(s) <= u32::MAX {
        Some(digits_value(s) as u32)
    } else {
        None
    }
}

/// A prefix of a digit sequence writes no greater a number than the whole.
pub proof fn lemma_digits_value_prefix(s: Seq<char>, k: int)
    requires
        0 <= k <= s.len(),
        all_digits(s),
    ensures
        digits_value(s.take(k)) <= digits_value(s),
    decreases s.len() - k,
{
    if k < s.len() {
        let next = s.take(k + 1);
        assert(next.drop_last() =~= s.take(k));
        assert(next.last() == s[k]);
        assert(is_digit(s[k]));
        lemma_digits_value_prefix(s, k + 1);
    } else {
        assert(s.take(k) =~= s);
    }
}

/// The number that `s` writes in decimal, if it writes one that fits 32 bits.
pub fn parse_u32(s: &str) -> (r: Option<u32>)
    ensures
        r == parsed_u32(s@),
{
    let chars = chars_of(s);
    let n = chars.len();
    let first: usize = if n > 0 && chars[0] == '+' {
        1
    } else {
        0
    };
    if first == n {
        return None;
    }
    let ghost digits = s@.skip(first as int);
    assert(first == 1 ==> digits =~= s@.drop_first());
    assert(first == 0 ==> digits =~= s@);
    let mut value: u64 = 0;
    let mut i: usize = first;
    assert(digits.take(0) =~= Seq::<char>::empty());
    while i < n
        invariant
            first <= i <= n,
            n == s@.len(),
            chars@ == s@,
            digits == s@.skip(first as int),
            digits.len() > 0,
            parsed_u32(s@) == parsed_digits(digits),
            all_digits(digits.take(i - first)),
            value == digits_value(digits.take(i - first)),
            value <= u32::MAX,
        decreases n - i,
    {
        let c = chars[i];
        let ghost next = digits.take(i - first + 1);
        proof {
            assert(next.drop_last() =~= digits.take(i - first));
            assert(next.last() == c);
        }
        if !('0' <= c && c <= '9') {
            assert(!is_digit(digits[i - first]));
            return None;
        }
        let d: u64 = (c as u32 - '0' as u32) as u64;
        value = value * 10 + d;
        assert(all_digits(next)) by {
            assert forall|j: int| 0 <= j < next.len() implies is_digit(#[trigger] next[j]) by {
                if j < next.len() - 1 {
                    assert(next[j] == digits.take(i - first)[j]);
                }
            }
        }
        if value > 0xFFFF_FFFF {
            proof {
                if all_digits(digits) {
                    lemma_digits_value_prefix(digits, i - first + 1);
                }
            }
            return None;
        }
        i += 1;
    }
    assert(digits.take(n - first) =~= digits);
    Some(value as u32)
}

/// The character that writes the digit `d`.
pub open spec fn digit_char(d: nat) -> char {
    if d == 0 {
        '0'
    } else if d == 1 {
        '1'
    } else if d == 2 {
        '2'
    } else if d == 3 {
        '3'
    } else if d == 4 {
        '4'
    } else if d == 5 {
        '5'
    } else if d == 6 {
        '6'
    } else if d == 7 {
        '7'
    } else if d == 8 {
        '8'
    } else {
        '9'
    }
}

/// `n` written in decimal, without sign or leading zeros.
pub open spec fn decimal(n: nat) -> Seq<char>
    decreases n,
{
    if n < 10 {
        seq![digit_char(n)]
    } else {
        decimal(n / 10).push(digit_char(n % 10))
    }
}

/// The one-character string that writes the digit `d`.
pub fn digit_str(d: u32) -> (r: &'static str)
    requires
        d < 10,
    ensures
        r@ == seq![digit_char(d as nat)],
{
    proof {
        reveal_strlit("0");
        reveal_strlit("1");
        reveal_strlit("2");
        reveal_strlit("3");
        reveal_strlit("4");
        reveal_strlit("5");
        reveal_strlit("6");
        reveal_strlit("7");
        reveal_strlit("8");
        reveal_strlit("9");
    }
    let r = if d == 0 {
        "0"
    } else if d == 1 {
        "1"
    } else if d == 2 {
        "2"
    } else if d == 3 {
        "3"
    } else if d == 4 {
        "4"
    } else if d == 5 {
        "5"
    } else if d == 6 {
        "6"
    } else if d == 7 {
        "7"
    } else if d == 8 {
        "8"
    } else {
        "9"
    };
    assert(r@ =~= seq![digit_char(d as nat)]);
    r
}

/// `n` written in decimal, without sign or leading zeros.
pub fn u64_to_string(n: u64) -> (r: String)
    ensures
        r@ == decimal(n as nat),
    decreases n,
{
    if n < 10 {
        String::from_str(digit_str(n as u32))
    } else {
        let mut head = u64_to_string(n / 10);
        head.append(digit_str((n % 10) as u32));
        assert(head@ =~= decimal((n / 10) as nat).push(digit_char((n % 10) as nat)));
        head
    }
}

/// `n` written in decimal, without sign or leading zeros.
pub fn u32_to_string(n: u32) -> (r: String)
    ensures
        r@ == decimal(n as nat),
{
    u64_to_string(n as u64)
}

/// What the debug format writes for a text: the text between double quotes,
/// its quotes, backslashes and control characters escaped.
pub uninterp spec fn debug_text(s: Seq<char>) -> Seq<char>;

/// The debug format of `str`, as `{:?}` writes it: a function of the text
/// alone.
#[verifier::external_body]
pub(crate) fn debug_string(s: &str) -> (r: String)
    ensures
        r@ == debug_text(s@),
{
    format!("{:?}", s)
}

/// The character of a digit is a digit, and stands that far from `'0'`.
pub proof fn lemma_digit_char(d: nat)
    requires
        d < 10,
    ensures
        is_digit(digit_char(d)),
        digit_char(d) as u32 - '0' as u32 == d,
{
}

/// A number written in decimal is made of digits and writes that number.
pub proof fn lemma_decimal_digits(n: nat)
    ensures
        decimal(n).len() > 0,
        all_digits(decimal(n)),
        digits_value(decimal(n)) == n,
    decreases n,
{
    if n < 10 {
        let s = decimal(n);
        assert(s.drop_last() =~= Seq::<char>::empty());
        assert(s.last() == digit_char(n));
        lemma_digit_char(n);
        assert(digits_value(s.drop_last()) == 0);
        assert(digits_value(s) == n);
    } else {
        lemma_decimal_digits(n / 10);
        let s = decimal(n);
        assert(s.drop_last() =~= decimal(n / 10));
        assert(s.last() == digit_char(n % 10));
        lemma_digit_char(n % 10);
        assert(digits_value(s) == (n / 10) * 10 + n % 10);
        assert forall|i: int| 0 <= i < s.len() implies is_digit(#[trigger] s[i]) by {
            if i < s.len() - 1 {
                assert(s[i] == decimal(n / 10)[i]);
            }
        }
    }
}

/// Reading back a number that was written in decimal gives the number.
pub proof fn lemma_parse_decimal(n: u32)
    ensures
        parsed_u32(decimal(n as nat)) == Some(n),
{
    lemma_decimal_digits(n as nat);
    assert(decimal(n as nat)[0] != '+') by {
        assert(is_digit(decimal(n as nat)[0]));
    }
}

/// Splitting gives at least one piece.
pub proof fn lemma_split_nonempty(s: Seq<char>, sep: char)
    ensures
        split(s, sep).len() >= 1,
    decreases s.len(),
{
    let i = first_index_of(s, sep);
    if 0 <= i < s.len() {
        lemma_split_nonempty(s.skip(i + 1), sep);
    }
}

/// Whether the character `c` does not occur in `s`.
pub open spec fn free_of(s: Seq<char>, c: char) -> bool {
    forall|i: int| 0 <= i < s.len() ==> #[trigger] s[i] != c
}

/// Whether `s` is a word: not empty, and without white space.
pub open spec fn is_word(s: Seq<char>) -> bool {
    s.len() > 0 && forall|i: int| 0 <= i < s.len() ==> !is_whitespace(#[trigger] s[i])
}

/// A text without the separator is split into itself.
pub proof fn lemma_split_whole(s: Seq<char>, sep: char)
    requires
        free_of(s, sep),
    ensures
        split(s, sep) == seq![s],
{
    lemma_first_index_of(s, sep, s.len() as int);
}

/// A text that is free of the separator, followed by the separator and
/// more, is split into that text and the pieces of what follows.
pub proof fn lemma_split_first(head: Seq<char>, rest: Seq<char>, sep: char)
    requires
        free_of(head, sep),
    ensures
        split(head + seq![sep] + rest, sep) == seq![head] + split(rest, sep),
{
    let s = head + seq![sep] + rest;
    assert forall|j: int| 0 <= j < head.len() implies #[trigger] s[j] != sep by {
        assert(s[j] == head[j]);
    }
    assert(s[head.len() as int] == sep);
    lemma_first_index_of(s, sep, head.len() as int);
    assert(s.take(head.len() as int) =~= head);
    assert(s.skip(head.len() as int + 1) =~= rest);
}

/// A text that neither starts nor ends with white space is trimmed.
pub proof fn lemma_trimmed_fixed(s: Seq<char>)
    requires
        s.len() > 0 ==> !is_whitespace(s.first()) && !is_whitespace(s.last()),
    ensures
        trimmed(s) == s,
{
    lemma_leading_whitespace(s, 0);
    assert(s.skip(0) =~= s);
    lemma_trailing_whitespace(s, s.len() as int);
    assert(s.take(s.len() as int) =~= s);
}

/// Parts joined with a separator between them start with the first part,
/// and the rest joined follows the first separator.
pub proof fn lemma_joined_first(parts: Seq<Seq<char>>, sep: Seq<char>)
    requires
        parts.len() >= 2,
    ensures
        joined(parts, sep) == parts[0] + sep + joined(parts.drop_first(), sep),
    decreases parts.len(),
{
    let head = parts.drop_last();
    let tail = parts.drop_first();
    if parts.len() == 2 {
        assert(head.len() == 1 && tail.len() == 1);
        assert(joined(head, sep) == parts[0]);
        assert(joined(tail, sep) == parts[1]);
        assert(parts.last() == parts[1]);
    } else {
        lemma_joined_first(head, sep);
        assert(head.drop_first() =~= tail.drop_last());
        assert(head[0] == parts[0]);
        assert(tail.last() == parts.last());
        assert(joined(parts, sep) =~= parts[0] + sep + (joined(tail.drop_last(), sep) + sep
            + tail.last()));
    }
}

/// Parts that are free of a character, joined by a separator that is free
/// of it, are free of it.
pub proof fn lemma_joined_free_of(parts: Seq<Seq<char>>, sep: Seq<char>, c: char)
    requires
        free_of(sep, c),
        forall|i: int| 0 <= i < parts.len() ==> free_of(#[trigger] parts[i], c),
    ensures
        free_of(joined(parts, sep), c),
    decreases parts.len(),
{
    if parts.len() >= 2 {
        let head = parts.drop_last();
        assert forall|i: int| 0 <= i < head.len() implies free_of(#[trigger] head[i], c) by {
            assert(head[i] == parts[i]);
        }
        lemma_joined_free_of(head, sep, c);
        let a = joined(head, sep);
        let s = joined(parts, sep);
        assert(free_of(parts.last(), c));
        assert forall|i: int| 0 <= i < s.len() implies #[trigger] s[i] != c by {
            if i < a.len() {
                assert(s[i] == a[i]);
            } else if i < a.len() + sep.len() {
                assert(s[i] == sep[i - a.len()]);
            } else {
                assert(s[i] == parts.last()[i - a.len() - sep.len()]);
            }
        }
    } else if parts.len() == 1 {
        assert(free_of(parts[0], c));
    }
}

/// Words joined by single spaces are read back as those words.
pub proof fn lemma_words_of_joined(parts: Seq<Seq<char>>)
    requires
        forall|i: int| 0 <= i < parts.len() ==> is_word(#[trigger] parts[i]),
    ensures
        words(joined(parts, seq![' '])) == parts,
        parts.len() > 0 ==> joined(parts, seq![' ']).len() > 0 && !is_whitespace(
            joined(parts, seq![' '])[0],
        ),
    decreases parts.len(),
{
    let sep = seq![' '];
    let s = joined(parts, sep);
    if parts.len() == 0 {
        assert(s.skip(0) =~= s);
        assert(words(s) =~= parts);
    } else if parts.len() == 1 {
        assert(is_word(parts[0]));
        lemma_leading_whitespace(s, 0);
        assert(s.skip(0) =~= s);
        lemma_leading_word(s, s.len() as int);
        assert(s.take(s.len() as int) =~= s);
        let after = s.skip(s.len() as int);
        assert(after.len() == 0);
        assert(after.skip(0) =~= after);
        assert(words(after) =~= Seq::<Seq<char>>::empty());
        assert(words(s) =~= parts);
    } else {
        let first = parts[0];
        let tail = parts.drop_first();
        assert(is_word(first));
        assert forall|i: int| 0 <= i < tail.len() implies is_word(#[trigger] tail[i]) by {
            assert(tail[i] == parts[i + 1]);
        }
        lemma_words_of_joined(tail);
        lemma_joined_first(parts, sep);
        let r = joined(tail, sep);
        assert(s == first + sep + r);
        assert forall|j: int| 0 <= j < first.len() implies !is_whitespace(#[trigger] s[j]) by {
            assert(s[j] == first[j]);
        }
        assert(s[first.len() as int] == ' ');
        lemma_leading_whitespace(s, 0);
        assert(s.skip(0) =~= s);
        lemma_leading_word(s, first.len() as int);
        assert(s.take(first.len() as int) =~= first);
        let u = s.skip(first.len() as int);
        assert(u =~= sep + r);
        assert(u[0] == ' ');
        assert(u[1] == r[0]);
        lemma_leading_whitespace(u, 1);
        assert(u.skip(1) =~= r);
        lemma_leading_whitespace(r, 0);
        assert(r.skip(0) =~= r);
        assert(words(u) == words(r));
        assert(words(s) =~= seq![first] + words(u));
        assert(seq![first] + tail =~= parts);
        assert(s[0] == first[0]);
    }
}

} // verus!
