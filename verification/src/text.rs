//! Plain text helpers: blank trimming, decimal numbers and the byte order of
//! strings.
use vstd::prelude::*;
use vstd::string::*;
use vstd::utf8::*;

verus! {

/// The Unicode `White_Space` property.
pub open spec fn white_space(c: char) -> bool {
    let u = c as u32;
    ||| 0x9 <= u <= 0xd
    ||| u == 0x20
    ||| u == 0x85
    ||| u == 0xa0
    ||| u == 0x1680
    ||| 0x2000 <= u <= 0x200a
    ||| u == 0x2028
    ||| u == 0x2029
    ||| u == 0x202f
    ||| u == 0x205f
    ||| u == 0x3000
}

/// Whether `c` has the Unicode `White_Space` property.
pub fn is_white_space(c: char) -> (blank: bool)
    ensures
        blank == white_space(c),
{
    let u: u32 = c as u32;
    (0x9 <= u && u <= 0xd) || u == 0x20 || u == 0x85 || u == 0xa0 || u == 0x1680 || (0x2000 <= u
        && u <= 0x200a) || u == 0x2028 || u == 0x2029 || u == 0x202f || u == 0x205f || u == 0x3000
}

/// `s` without its leading white space.
pub open spec fn trim_start(s: Seq<char>) -> Seq<char>
    decreases s.len(),
{
    if s.len() > 0 && white_space(s[0]) {
        trim_start(s.drop_first())
    } else {
        s
    }
}

/// `s` without its trailing white space.
pub open spec fn trim_end(s: Seq<char>) -> Seq<char>
    decreases s.len(),
{
    if s.len() > 0 && white_space(s.last()) {
        trim_end(s.drop_last())
    } else {
        s
    }
}

/// `s` without the white space at either end.
pub open spec fn trimmed(s: Seq<char>) -> Seq<char> {
    trim_end(trim_start(s))
}

/// `i` and `j` delimit the text of `s` once blanks at both ends are gone.
pub open spec fn core_span(s: Seq<char>, i: int, j: int) -> bool {
    &&& 0 <= i <= j <= s.len()
    &&& forall|k: int| 0 <= k < i ==> white_space(#[trigger] s[k])
    &&& forall|k: int| j <= k < s.len() ==> white_space(#[trigger] s[k])
    &&& i < j ==> !white_space(s[i]) && !white_space(s[j - 1])
}

proof fn lemma_trim_start(s: Seq<char>, i: int)
    requires
        0 <= i <= s.len(),
        forall|k: int| 0 <= k < i ==> white_space(#[trigger] s[k]),
        i < s.len() ==> !white_space(s[i]),
    ensures
        trim_start(s) == s.skip(i),
    decreases i,
{
    if i > 0 {
        assert(white_space(s[0]));
        assert(s.drop_first().skip(i - 1) == s.skip(i));
        assert forall|k: int| 0 <= k < i - 1 implies white_space(#[trigger] s.drop_first()[k]) by {
            assert(white_space(s[k + 1]));
        }
        lemma_trim_start(s.drop_first(), i - 1);
    } else {
        assert(s.skip(0) == s);
    }
}

proof fn lemma_trim_end(s: Seq<char>, j: int)
    requires
        0 <= j <= s.len(),
        forall|k: int| j <= k < s.len() ==> white_space(#[trigger] s[k]),
        0 < j ==> !white_space(s[j - 1]),
    ensures
        trim_end(s) == s.take(j),
    decreases s.len() - j,
{
    if j < s.len() {
        assert(white_space(s.last()));
        assert(s.drop_last().take(j) == s.take(j));
        lemma_trim_end(s.drop_last(), j);
    } else {
        assert(s.take(j) == s);
    }
}

/// Trimming keeps exactly the text between the first and the last character
/// that is not blank.
pub proof fn law_trimmed_is_the_core(s: Seq<char>, i: int, j: int)
    requires
        0 <= i <= j <= s.len(),
        forall|k: int| 0 <= k < i ==> white_space(#[trigger] s[k]),
        forall|k: int| j <= k < s.len() ==> white_space(#[trigger] s[k]),
        i < j ==> !white_space(s[i]) && !white_space(s[j - 1]),
    ensures
        trimmed(s) == s.subrange(i, j),
{
    if i < j {
        lemma_trim_start(s, i);
        let t = s.skip(i);
        assert forall|k: int| j - i <= k < t.len() implies white_space(#[trigger] t[k]) by {
            assert(white_space(s[k + i]));
        }
        lemma_trim_end(t, j - i);
        assert(t.take(j - i) == s.subrange(i, j));
    } else {
        assert forall|k: int| 0 <= k < s.len() implies white_space(#[trigger] s[k]) by {}
        lemma_trim_start(s, s.len() as int);
        assert(s.skip(s.len() as int) == s.subrange(i, j));
    }
}

proof fn lemma_trim_start_ends(s: Seq<char>)
    ensures
        trim_start(s).len() > 0 ==> !white_space(trim_start(s)[0]),
    decreases s.len(),
{
    if s.len() > 0 && white_space(s[0]) {
        lemma_trim_start_ends(s.drop_first());
    }
}

proof fn lemma_trim_end_ends(s: Seq<char>)
    ensures
        trim_end(s).len() <= s.len(),
        trim_end(s) == s.take(trim_end(s).len() as int),
        trim_end(s).len() > 0 ==> !white_space(trim_end(s).last()),
    decreases s.len(),
{
    if s.len() > 0 && white_space(s.last()) {
        lemma_trim_end_ends(s.drop_last());
        let n = trim_end(s).len() as int;
        assert(s.drop_last().take(n) == s.take(n));
    } else {
        assert(s.take(s.len() as int) == s);
    }
}

/// Trimmed text neither starts nor ends with a blank, and trimming it again
/// changes nothing.
pub proof fn law_trimming_is_idempotent(s: Seq<char>)
    ensures
        trimmed(trimmed(s)) == trimmed(s),
        trimmed(s).len() > 0 ==> !white_space(trimmed(s)[0]) && !white_space(trimmed(s).last()),
{
    lemma_trim_start_ends(s);
    lemma_trim_end_ends(trim_start(s));
    let t = trimmed(s);
    if t.len() > 0 {
        assert(t[0] == trim_start(s)[0]);
    }
    law_trimmed_is_the_core(t, 0, t.len() as int);
    assert(t.subrange(0, t.len() as int) == t);
}

/// `raw` without the white space at either end, and how many characters `raw`
/// holds.
pub fn trim(raw: &str) -> (out: (&str, usize))
    ensures
        out.0@ == trimmed(raw@),
        out.1 == raw@.len(),
{
    let count: usize = raw.unicode_len();
    let mut first: usize = count;
    let mut end: usize = count;
    let mut at: usize = 0;
    for c in it: raw.chars()
        invariant
            it.seq() == raw@,
            count == raw@.len(),
            at == it.index(),
            0 <= at <= count,
            forall|k: int| 0 <= k < first && k < at ==> white_space(#[trigger] raw@[k]),
            first == count || (first < at && !white_space(raw@[first as int])),
            first == count ==> end == count,
            first < count ==> {
                &&& first < end <= at
                &&& !white_space(raw@[end - 1])
                &&& forall|k: int| end <= k < at ==> white_space(#[trigger] raw@[k])
            },
    {
        if !is_white_space(c) {
            if first == count {
                first = at;
            }
            end = at + 1;
        }
        at = at + 1;
    }
    proof {
        assert(core_span(raw@, first as int, end as int));
        law_trimmed_is_the_core(raw@, first as int, end as int);
    }
    (raw.substring_char(first, end), count)
}

/// How many bytes the UTF-8 form of `s` takes.
pub open spec fn utf8_len(s: Seq<char>) -> nat {
    encode_utf8(s).len()
}

/// A character takes at most four bytes.
pub proof fn lemma_utf8_len_bound(s: Seq<char>)
    ensures
        utf8_len(s) <= 4 * s.len(),
    decreases s.len(),
{
    if s.len() > 0 {
        lemma_utf8_len_bound(s.drop_first());
    }
}

/// How many bytes `s` takes.
pub fn byte_length(s: &str) -> (len: usize)
    ensures
        len == utf8_len(s@),
        len == encode_utf8(s@).len(),
{
    s.as_bytes().len()
}

/// Strict lexicographic order of byte strings.
pub open spec fn bytes_before(a: Seq<u8>, b: Seq<u8>) -> bool
    decreases a.len(),
{
    if b.len() == 0 {
        false
    } else if a.len() == 0 {
        true
    } else {
        a[0] < b[0] || (a[0] == b[0] && bytes_before(a.drop_first(), b.drop_first()))
    }
}

/// The order of strings: lexicographic by the bytes of their UTF-8 form.
pub open spec fn text_before(a: Seq<char>, b: Seq<char>) -> bool {
    bytes_before(encode_utf8(a), encode_utf8(b))
}

proof fn lemma_bytes_irreflexive(a: Seq<u8>)
    ensures
        !bytes_before(a, a),
    decreases a.len(),
{
    if a.len() > 0 {
        lemma_bytes_irreflexive(a.drop_first());
    }
}

proof fn lemma_bytes_transitive(a: Seq<u8>, b: Seq<u8>, c: Seq<u8>)
    requires
        bytes_before(a, b),
        bytes_before(b, c),
    ensures
        bytes_before(a, c),
    decreases a.len(),
{
    if a.len() > 0 && a[0] == b[0] && b[0] == c[0] {
        lemma_bytes_transitive(a.drop_first(), b.drop_first(), c.drop_first());
    }
}

proof fn lemma_bytes_total(a: Seq<u8>, b: Seq<u8>)
    ensures
        bytes_before(a, b) || bytes_before(b, a) || a == b,
    decreases a.len(),
{
    if a.len() > 0 && b.len() > 0 && a[0] == b[0] {
        lemma_bytes_total(a.drop_first(), b.drop_first());
        if a.drop_first() == b.drop_first() {
            assert(a == seq![a[0]] + a.drop_first());
            assert(b == seq![b[0]] + b.drop_first());
        }
    } else if a.len() == 0 && b.len() == 0 {
        assert(a == b);
    }
}

/// The order of strings is a strict total order.
pub proof fn law_text_order_is_strict_and_total(a: Seq<char>, b: Seq<char>, c: Seq<char>)
    ensures
        !text_before(a, a),
        text_before(a, b) && text_before(b, c) ==> text_before(a, c),
        text_before(a, b) || text_before(b, a) || a == b,
{
    lemma_bytes_irreflexive(encode_utf8(a));
    if text_before(a, b) && text_before(b, c) {
        lemma_bytes_transitive(encode_utf8(a), encode_utf8(b), encode_utf8(c));
    }
    lemma_bytes_total(encode_utf8(a), encode_utf8(b));
    encode_utf8_decode_utf8(a);
    encode_utf8_decode_utf8(b);
}

/// Whether `a` sorts before `b`.
pub fn sorts_before(a: &str, b: &str) -> (before: bool)
    ensures
        before == text_before(a@, b@),
{
    let left = a.as_bytes();
    let right = b.as_bytes();
    let mut i: usize = 0;
    proof {
        assert(left@.skip(0) == left@);
        assert(right@.skip(0) == right@);
    }
    while i < left.len() && i < right.len() && left[i] == right[i]
        invariant
            left@ == encode_utf8(a@),
            right@ == encode_utf8(b@),
            i <= left@.len(),
            i <= right@.len(),
            text_before(a@, b@) == bytes_before(left@.skip(i as int), right@.skip(i as int)),
        decreases left@.len() - i,
    {
        proof {
            assert(left@.skip(i as int).drop_first() == left@.skip(i + 1));
            assert(right@.skip(i as int).drop_first() == right@.skip(i + 1));
        }
        i = i + 1;
    }
    if i >= right.len() {
        false
    } else if i >= left.len() {
        true
    } else {
        left[i] < right[i]
    }
}

/// The decimal digit for `d`.
pub open spec fn digit(d: nat) -> char {
    (('0' as u32) + d) as char
}

/// `n` in decimal, without leading zeros.
pub open spec fn decimal(n: nat) -> Seq<char>
    decreases n,
{
    if n < 10 {
        seq![digit(n)]
    } else {
        decimal(n / 10).push(digit(n % 10))
    }
}

fn digit_text(d: usize) -> (text: &'static str)
    requires
        d < 10,
    ensures
        text@ == seq![digit(d as nat)],
{
    proof {
        reveal_strlit("0");
        reveal_strlit("1");
        reveal_strlit("2");
        reveal_strlit("3");
        reveal_strlit("4");
        reveal_strlit("5");
        reveal_strlit("6");
        reveal_strlit("7");
        reveal_strlit("8");
        reveal_strlit("9");
    }
    match d {
        0 => "0",
        1 => "1",
        2 => "2",
        3 => "3",
        4 => "4",
        5 => "5",
        6 => "6",
        7 => "7",
        8 => "8",
        _ => "9",
    }
}

/// `n` in decimal.
pub fn decimal_text(n: usize) -> (text: String)
    ensures
        text@ == decimal(n as nat),
    decreases n,
{
    if n < 10 {
        digit_text(n).to_owned()
    } else {
        let mut text = decimal_text(n / 10);
        text.append(digit_text(n % 10));
        text
    }
}

/// The value of `s` read as decimal digits.
pub open spec fn digits_value(s: Seq<char>) -> nat
    decreases s.len(),
{
    if s.len() == 0 {
        0
    } else {
        digits_value(s.drop_last()) * 10 + (s.last() as u32 - '0' as u32) as nat
    }
}

/// Every character of `s` is an ASCII digit.
pub open spec fn all_digits(s: Seq<char>) -> bool {
    forall|i: int| 0 <= i < s.len() ==> '0' <= #[trigger] s[i] <= '9'
}

/// The part of `s` after an optional plus sign.
pub open spec fn after_plus(s: Seq<char>) -> Seq<char> {
    if s.len() > 0 && s[0] == '+' {
        s.drop_first()
    } else {
        s
    }
}

/// The unsigned number that `s` writes: an optional plus sign, then one or
/// more digits, with a value of at most `max`.
pub open spec fn unsigned_value(s: Seq<char>, max: nat) -> Option<nat> {
    let digits = after_plus(s);
    if digits.len() > 0 && all_digits(digits) && digits_value(digits) <= max {
        Some(digits_value(digits))
    } else {
        None
    }
}

proof fn lemma_digits_grow(s: Seq<char>, n: int)
    requires
        0 <= n <= s.len(),
        all_digits(s),
    ensures
        digits_value(s.take(n)) <= digits_value(s),
    decreases s.len() - n,
{
    if n < s.len() {
        lemma_digits_grow(s, n + 1);
        assert(s.take(n + 1).drop_last() == s.take(n));
    } else {
        assert(s.take(n) == s);
    }
}

/// Reads an unsigned decimal number of at most `max`.
pub fn parse_unsigned(s: &str, max: u64) -> (value: Option<u64>)
    ensures
        match value {
            Some(v) => unsigned_value(s@, max as nat) == Some(v as nat),
            None => unsigned_value(s@, max as nat) is None,
        },
{
    let ghost digits = after_plus(s@);
    let mut total: u64 = 0;
    let mut any: bool = false;
    let ghost mut seen: int = 0;
    let mut first: bool = true;
    for c in it: s.chars()
        invariant
            it.seq() == s@,
            digits == after_plus(s@),
            first == (it.index() == 0),
            first ==> seen == 0,
            !first ==> seen == it.index() - (s@.len() - digits.len()),
            0 <= seen <= digits.len(),
            any == (seen > 0),
            total <= max,
            total == digits_value(digits.take(seen)),
            forall|k: int| 0 <= k < seen ==> '0' <= #[trigger] digits[k] <= '9',
    {
        if first && c == '+' {
            first = false;
        } else {
            first = false;
            proof {
                assert(digits[seen] == c);
            }
            if c < '0' || '9' < c {
                return None;
            }
            let d: u64 = (c as u32 - '0' as u32) as u64;
            proof {
                assert(digits.take(seen + 1).drop_last() == digits.take(seen));
                assert(digits.take(seen + 1).last() == c);
                if all_digits(digits) {
                    lemma_digits_grow(digits, seen + 1);
                }
            }
            if total > max / 10 || d > max - total * 10 {
                return None;
            }
            total = total * 10 + d;
            any = true;
            proof {
                seen = seen + 1;
            }
        }
    }
    proof {
        assert(digits.take(digits.len() as int) == digits);
    }
    if any {
        Some(total)
    } else {
        None
    }
}

/// Whether `s` holds exactly the characters of `word`.
pub fn same_text(s: &str, word: &str) -> (same: bool)
    ensures
        same == (s@ == word@),
{
    s.to_owned() == word.to_owned()
}

/// The boolean that `s` writes.
pub open spec fn bool_value(s: Seq<char>) -> Option<bool> {
    if s == "true"@ {
        Some(true)
    } else if s == "false"@ {
        Some(false)
    } else {
        None
    }
}

/// Reads `true` or `false`.
pub fn parse_bool(s: &str) -> (value: Option<bool>)
    ensures
        value == bool_value(s@),
        value == Some(true) <==> s@ == "true"@,
        value == Some(false) <==> s@ == "false"@,
{
    proof {
        reveal_strlit("true");
        reveal_strlit("false");
        assert("true"@.len() != "false"@.len());
    }
    if same_text(s, "true") {
        Some(true)
    } else if same_text(s, "false") {
        Some(false)
    } else {
        None
    }
}

/// Blanks around a text make no difference to what trimming leaves of it.
pub proof fn law_blanks_around_a_text_do_not_matter(s: Seq<char>, t: Seq<char>, u: Seq<char>)
    requires
        s.len() > 0,
        !white_space(s[0]),
        !white_space(s[s.len() - 1]),
        forall|k: int| 0 <= k < t.len() ==> white_space(#[trigger] t[k]),
        forall|k: int| 0 <= k < u.len() ==> white_space(#[trigger] u[k]),
    ensures
        trimmed(t + s + u) == s,
        trimmed(t) == Seq::<char>::empty(),
{
    let all = t + s + u;
    let i = t.len() as int;
    let j = i + s.len();
    assert forall|k: int| 0 <= k < i implies white_space(#[trigger] all[k]) by {
        assert(all[k] == t[k]);
    }
    assert forall|k: int| j <= k < all.len() implies white_space(#[trigger] all[k]) by {
        assert(all[k] == u[k - j]);
    }
    law_trimmed_is_the_core(all, i, j);
    assert(all.subrange(i, j) == s);
    law_trimmed_is_the_core(t, i, i);
    assert(t.subrange(i, i) == Seq::<char>::empty());
}

/// A text takes the bytes of its UTF-8 form.
pub proof fn law_a_text_takes_its_utf8_bytes(s: Seq<char>)
    ensures
        utf8_len(s) == encode_utf8(s).len(),
{
}

/// Texts order by the first byte in which they differ, and one that runs out
/// there comes first.
pub proof fn law_texts_order_by_their_first_difference(a: Seq<char>, b: Seq<char>, k: int)
    requires
        0 <= k <= encode_utf8(a).len(),
        k <= encode_utf8(b).len(),
        forall|i: int| 0 <= i < k ==> #[trigger] encode_utf8(a)[i] == encode_utf8(b)[i],
    ensures
        k == encode_utf8(b).len() ==> !text_before(a, b),
        k == encode_utf8(a).len() && k < encode_utf8(b).len() ==> text_before(a, b),
        k < encode_utf8(a).len() && k < encode_utf8(b).len() && encode_utf8(a)[k] != encode_utf8(
            b,
        )[k] ==> text_before(a, b) == (encode_utf8(a)[k] < encode_utf8(b)[k]),
{
    lemma_first_difference(encode_utf8(a), encode_utf8(b), k);
}

proof fn lemma_first_difference(a: Seq<u8>, b: Seq<u8>, k: int)
    requires
        0 <= k <= a.len(),
        k <= b.len(),
        forall|i: int| 0 <= i < k ==> #[trigger] a[i] == b[i],
    ensures
        bytes_before(a, b) == bytes_before(a.skip(k), b.skip(k)),
    decreases k,
{
    if k > 0 {
        assert(a[0] == b[0]);
        let x = a.drop_first();
        let y = b.drop_first();
        assert forall|i: int| 0 <= i < k - 1 implies #[trigger] x[i] == y[i] by {
            assert(a[i + 1] == b[i + 1]);
        }
        lemma_first_difference(x, y, k - 1);
        assert(x.skip(k - 1) == a.skip(k));
        assert(y.skip(k - 1) == b.skip(k));
    } else {
        assert(a.skip(0) == a);
        assert(b.skip(0) == b);
    }
}

/// Decimal notation is positional: one more digit behind a number is ten times
/// the number and the digit.
pub proof fn law_decimal_is_positional(n: nat, d: nat)
    requires
        d < 10,
    ensures
        decimal(d) == seq![('0' as u32 + d) as char],
        n > 0 ==> decimal(n * 10 + d) == decimal(n).push(('0' as u32 + d) as char),
{
    if n > 0 {
        assert((n * 10 + d) / 10 == n);
        assert((n * 10 + d) % 10 == d);
    }
}

proof fn lemma_decimal_digits(n: nat)
    ensures
        decimal(n).len() > 0,
        all_digits(decimal(n)),
        digits_value(decimal(n)) == n,
    decreases n,
{
    if n < 10 {
        let s = decimal(n);
        assert(s.drop_last() =~= Seq::<char>::empty());
        reveal_with_fuel(digits_value, 2);
    } else {
        lemma_decimal_digits(n / 10);
        let s = decimal(n);
        assert(s.drop_last() == decimal(n / 10));
        assert forall|i: int| 0 <= i < s.len() implies '0' <= #[trigger] s[i] <= '9' by {
            if i < s.len() - 1 {
                assert(s[i] == decimal(n / 10)[i]);
            }
        }
    }
}

/// What is written in decimal reads back as itself, with or without a plus
/// sign, unless it is too large.
pub proof fn law_decimal_reads_back(n: nat, max: nat)
    ensures
        n <= max ==> unsigned_value(decimal(n), max) == Some(n),
        n <= max ==> unsigned_value(seq!['+'] + decimal(n), max) == Some(n),
        n > max ==> unsigned_value(decimal(n), max) is None,
{
    lemma_decimal_digits(n);
    assert('0' <= decimal(n)[0]);
    assert((seq!['+'] + decimal(n)).drop_first() == decimal(n));
}

proof fn lemma_digits_push(s: Seq<char>, c: char)
    ensures
        digits_value(s.push(c)) == digits_value(s) * 10 + (c as u32 - '0' as u32) as nat,
        all_digits(s.push(c)) <==> all_digits(s) && '0' <= c <= '9',
{
    assert(s.push(c).drop_last() == s);
    let t = s.push(c);
    if all_digits(t) {
        assert forall|i: int| 0 <= i < s.len() implies '0' <= #[trigger] s[i] <= '9' by {
            assert(t[i] == s[i]);
        }
        assert(t[s.len() as int] == c);
    }
}

/// A number is read digit by digit. Nothing and a lone sign are no number, a
/// first digit is its own value, each further one adds itself to ten times
/// what was read, and anything else, or a value that is too large, spoils the
/// whole.
pub proof fn law_numbers_are_read_digit_by_digit(s: Seq<char>, c: char, max: nat)
    ensures
        unsigned_value(Seq::empty(), max) is None,
        unsigned_value(seq!['+'], max) is None,
        s == Seq::<char>::empty() || s == seq!['+'] ==> unsigned_value(s.push(c), max) == if '0'
            <= c <= '9' && c as u32 - '0' as u32 <= max {
            Some((c as u32 - '0' as u32) as nat)
        } else {
            None
        },
        s.len() > 0 && s != seq!['+'] ==> unsigned_value(s.push(c), max) == match unsigned_value(
            s,
            max,
        ) {
            Some(n) => if '0' <= c <= '9' && n * 10 + (c as u32 - '0' as u32) <= max {
                Some((n * 10 + (c as u32 - '0' as u32)) as nat)
            } else {
                None
            },
            None => None,
        },
{
    assert(seq!['+'].drop_first() =~= Seq::<char>::empty());
    let t = s.push(c);
    if s.len() == 0 {
        assert(s =~= Seq::<char>::empty());
        if c == '+' {
            assert(t =~= seq!['+']);
        } else {
            lemma_digits_push(s, c);
        }
    } else {
        if s[0] == '+' {
            assert(t.drop_first() == s.drop_first().push(c));
            if s.len() == 1 {
                assert(s =~= seq!['+']);
            }
        }
        lemma_digits_push(after_plus(s), c);
    }
}

/// Of all texts, `true` and `false` alone are booleans.
pub proof fn law_two_words_are_booleans(s: Seq<char>)
    ensures
        bool_value(s) == Some(true) <==> s == "true"@,
        bool_value(s) == Some(false) <==> s == "false"@,
{
    reveal_strlit("true");
    reveal_strlit("false");
    assert("true"@.len() != "false"@.len());
}

} // verus!
