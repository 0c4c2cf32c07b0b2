//! Decimal numbers and whitespace-separated words as used in `.vox` dictionaries.

use vstd::prelude::*;

verus! {

/// Appends one character (`String::push`).
#[verifier::external_body]
pub(crate) fn push_char(s: &mut String, c: char)
    ensures
        final(s)@ == old(s)@.push(c),
{
    s.push(c);
}

/// The characters of a string.
pub fn chars_of(s: &str) -> (v: Vec<char>)
    ensures
        v@ == s@,
{
    let mut v: Vec<char> = Vec::new();
    for c in it: s.chars()
        invariant
            it.seq() == s@,
            v@ == it.seq().take(it.index() as int),
    {
        assert(it.seq().take(it.index() + 1) == it.seq().take(it.index() as int).push(c));
        v.push(c);
    }
    assert(s@.take(s@.len() as int) == s@);
    v
}

/// A string of the given characters.
pub fn string_of(cs: &[char]) -> (s: String)
    ensures
        s@ == cs@,
{
    let mut s = String::new();
    let mut i: usize = 0;
    while i < cs.len()
        invariant
            i <= cs.len(),
            s@ == cs@.subrange(0, i as int),
        decreases cs.len() - i,
    {
        push_char(&mut s, cs[i]);
        assert(cs@.subrange(0, i + 1) == cs@.subrange(0, i as int).push(cs@[i as int]));
        i = i + 1;
    }
    assert(cs@.subrange(0, cs.len() as int) == cs@);
    s
}

pub open spec fn is_digit(c: char) -> bool {
    '0' <= c <= '9'
}

pub open spec fn digit_value(c: char) -> int {
    c as int - '0' as int
}

pub open spec fn digit_char(d: int) -> char {
    (d + '0' as int) as char
}

/// The decimal digits of `n`, most significant first, no leading zeros.
pub open spec fn decimal_digits(n: nat) -> Seq<char>
    decreases n,
{
    if n < 10 {
        seq![digit_char(n as int)]
    } else {
        decimal_digits(n / 10).push(digit_char((n % 10) as int))
    }
}

/// How `{}` formats an integer: an optional `-` and the decimal digits.
pub open spec fn decimal(v: int) -> Seq<char> {
    if v < 0 {
        seq!['-'] + decimal_digits((-v) as nat)
    } else {
        decimal_digits(v as nat)
    }
}

pub open spec fn all_digits(s: Seq<char>) -> bool {
    forall|i: int| 0 <= i < s.len() ==> is_digit(#[trigger] s[i])
}

/// The number written by a string of decimal digits.
pub open spec fn digits_value(s: Seq<char>) -> nat
    decreases s.len(),
{
    if s.len() == 0 {
        0
    } else {
        digits_value(s.drop_last()) * 10 + digit_value(s.last()) as nat
    }
}

/// `str::parse` of an integer type ranging over `lo..=hi`: an optional sign
/// (`-` only for signed types) followed by at least one decimal digit.
pub open spec fn parse_int(s: Seq<char>, lo: int, hi: int) -> Option<int> {
    if s.len() > 0 && s[0] == '-' && lo < 0 {
        let d = s.drop_first();
        if d.len() > 0 && all_digits(d) && -digits_value(d) >= lo {
            Some(-digits_value(d))
        } else {
            None
        }
    } else if s.len() > 0 && s[0] == '+' {
        let d = s.drop_first();
        if d.len() > 0 && all_digits(d) && digits_value(d) <= hi {
            Some(digits_value(d) as int)
        } else {
            None
        }
    } else if s.len() > 0 && all_digits(s) && digits_value(s) <= hi {
        Some(digits_value(s) as int)
    } else {
        None
    }
}

pub open spec fn parse_i32(s: Seq<char>) -> Option<int> {
    parse_int(s, i32::MIN as int, i32::MAX as int)
}

pub open spec fn parse_u8(s: Seq<char>) -> Option<int> {
    parse_int(s, 0, 255)
}

pub proof fn lemma_decimal_digits(n: nat)
    ensures
        decimal_digits(n).len() > 0,
        all_digits(decimal_digits(n)),
        decimal_digits(n)[0] != '-' && decimal_digits(n)[0] != '+',
        digits_value(decimal_digits(n)) == n,
    decreases n,
{
    lemma_digit_char((n % 10) as int);
    if n >= 10 {
        lemma_decimal_digits(n / 10);
        let d = decimal_digits(n / 10);
        assert(decimal_digits(n).drop_last() == d);
        assert(decimal_digits(n)[0] == d[0]);
        assert(digits_value(decimal_digits(n)) == digits_value(d) * 10 + n % 10);
        assert((n / 10) * 10 + n % 10 == n);
    } else {
        assert(decimal_digits(n).drop_last() =~= Seq::<char>::empty());
        assert(digits_value(Seq::<char>::empty()) == 0);
        assert(digits_value(decimal_digits(n).drop_last()) == 0);
        assert(decimal_digits(n).last() == digit_char(n as int));
    }
}

pub proof fn lemma_digit_char(d: int)
    requires
        0 <= d < 10,
    ensures
        is_digit(digit_char(d)),
        digit_value(digit_char(d)) == d,
{
    let c = digit_char(d);
    assert(c as int == d + 48) by {
        let x = (d + 48) as u32;
        vstd::utf8::char_u32_cast(c, x);
    }
}

/// Formatting an integer and parsing it back gives the integer.
pub proof fn lemma_parse_decimal(v: int, lo: int, hi: int)
    requires
        lo <= v <= hi,
        lo <= 0,
    ensures
        parse_int(decimal(v), lo, hi) == Some(v),
{
    if v < 0 {
        lemma_decimal_digits((-v) as nat);
        let d = decimal_digits((-v) as nat);
        assert(decimal(v).drop_first() == d);
    } else {
        lemma_decimal_digits(v as nat);
    }
}

/// Append the decimal digits of `n`.
pub fn push_digits(out: &mut Vec<char>, n: u64)
    ensures
        final(out)@ == old(out)@ + decimal_digits(n as nat),
    decreases n,
{
    if n >= 10 {
        push_digits(out, n / 10);
    }
    out.push(digit_to_char(n % 10));
}

fn digit_to_char(d: u64) -> (c: char)
    requires
        d < 10,
    ensures
        c == digit_char(d as int),
        is_digit(c),
        digit_value(c) == d,
{
    if d == 0 {
        '0'
    } else if d == 1 {
        '1'
    } else if d == 2 {
        '2'
    } else if d == 3 {
        '3'
    } else if d == 4 {
        '4'
    } else if d == 5 {
        '5'
    } else if d == 6 {
        '6'
    } else if d == 7 {
        '7'
    } else if d == 8 {
        '8'
    } else {
        '9'
    }
}

/// `{}` of an integer.
pub fn decimal_string(v: i64) -> (s: String)
    ensures
        s@ == decimal(v as int),
{
    let mut cs: Vec<char> = Vec::new();
    if v < 0 {
        cs.push('-');
        let mag: u64 = (-(v + 1)) as u64 + 1;
        push_digits(&mut cs, mag);
    } else {
        push_digits(&mut cs, v as u64);
    }
    proof {
        if v < 0 {
            assert(cs@ == seq!['-'] + decimal_digits((-v) as nat));
        } else {
            assert(cs@ == Seq::<char>::empty() + decimal_digits(v as nat));
            assert(Seq::<char>::empty() + decimal_digits(v as nat) == decimal_digits(v as nat));
        }
    }
    string_of(cs.as_slice())
}

fn char_digit(c: char) -> (r: Option<i64>)
    ensures
        r is Some <==> is_digit(c),
        r matches Some(d) ==> d == digit_value(c) && 0 <= d < 10,
{
    if '0' <= c && c <= '9' {
        Some(c as i64 - '0' as i64)
    } else {
        None
    }
}

proof fn lemma_digits_value_prefix(s: Seq<char>, a: int, j: int)
    requires
        0 <= a <= j <= s.len(),
        all_digits(s.subrange(a, s.len() as int)),
    ensures
        digits_value(s.subrange(a, j)) <= digits_value(s.subrange(a, s.len() as int)),
    decreases s.len() - j,
{
    if j < s.len() {
        lemma_digits_value_prefix(s, a, j + 1);
        assert(s.subrange(a, j + 1).drop_last() == s.subrange(a, j));
        assert(is_digit(s.subrange(a, s.len() as int)[j - a]));
    }
}

/// `str::parse` of an integer type ranging over `lo..=hi`.
pub fn parse_int_chars(s: &[char], lo: i64, hi: i64) -> (r: Option<i64>)
    requires
        -0x1_0000_0000 <= lo <= 0 <= hi <= 0x1_0000_0000,
    ensures
        r matches Some(v) ==> parse_int(s@, lo as int, hi as int) == Some(v as int),
        r is None ==> parse_int(s@, lo as int, hi as int) is None,
{
    if s.len() == 0 {
        return None;
    }
    let neg = s[0] == '-' && lo < 0;
    let start: usize = if neg || s[0] == '+' {
        1
    } else {
        0
    };
    if start == s.len() {
        return None;
    }
    let limit: i64 = if neg {
        -lo
    } else {
        hi
    };
    let ghost d = s@.subrange(start as int, s@.len() as int);
    let mut acc: i64 = 0;
    let mut i: usize = start;
    while i < s.len()
        invariant
            start <= i <= s.len(),
            start < s.len(),
            s.len() > 0,
            neg == (s@[0] == '-' && lo < 0),
            start == (if neg || s@[0] == '+' {
                1usize
            } else {
                0usize
            }),
            limit == (if neg {
                -lo
            } else {
                hi as int
            }),
            -0x1_0000_0000 <= lo <= 0 <= hi <= 0x1_0000_0000,
            0 <= acc <= limit,
            0 <= limit <= 0x1_0000_0000,
            d == s@.subrange(start as int, s@.len() as int),
            all_digits(s@.subrange(start as int, i as int)),
            acc == digits_value(s@.subrange(start as int, i as int)),
        decreases s.len() - i,
    {
        let ghost pre = s@.subrange(start as int, i as int);
        assert(s@.subrange(start as int, i + 1).drop_last() == pre);
        match char_digit(s[i]) {
            None => {
                proof {
                    assert(!is_digit(d[i - start]));
                    if start == 0 {
                        assert(d == s@);
                    } else {
                        assert(d =~= s@.drop_first());
                    }
                }
                return None;
            },
            Some(k) => {
                let next = acc * 10 + k;
                if next > limit {
                    proof {
                        assert(s@.subrange(start as int, i + 1).last() == s@[i as int]);
                        if all_digits(d) {
                            lemma_digits_value_prefix(s@, start as int, i + 1);
                        }
                        if start == 0 {
                            assert(d == s@);
                        } else {
                            assert(d =~= s@.drop_first());
                        }
                    }
                    return None;
                }
                acc = next;
                proof {
                    assert(s@.subrange(start as int, i + 1).last() == s@[i as int]);
                }
            },
        }
        i = i + 1;
    }
    proof {
        assert(s@.subrange(start as int, i as int) == d);
        if start == 0 {
            assert(d == s@);
        } else {
            assert(d =~= s@.drop_first());
        }
    }
    if neg {
        Some(-acc)
    } else {
        Some(acc)
    }
}

/// `char::is_whitespace`: the Unicode `White_Space` characters.
pub open spec fn is_ws(c: char) -> bool {
    ||| '\t' <= c <= '\r'
    ||| c == ' '
    ||| c == '\u{85}'
    ||| c == '\u{a0}'
    ||| c == '\u{1680}'
    ||| '\u{2000}' <= c <= '\u{200a}'
    ||| c == '\u{2028}'
    ||| c == '\u{2029}'
    ||| c == '\u{202f}'
    ||| c == '\u{205f}'
    ||| c == '\u{3000}'
}

pub fn is_whitespace(c: char) -> (b: bool)
    ensures
        b == is_ws(c),
{
    ('\t' <= c && c <= '\r') || c == ' ' || c == '\u{85}' || c == '\u{a0}' || c == '\u{1680}' || (
    '\u{2000}' <= c && c <= '\u{200a}') || c == '\u{2028}' || c == '\u{2029}' || c == '\u{202f}'
        || c == '\u{205f}' || c == '\u{3000}'
}

/// End of the word starting at `i`: the next whitespace or the end.
pub open spec fn word_end(s: Seq<char>, i: int) -> int
    decreases s.len() - i,
{
    if i < 0 || i >= s.len() || is_ws(s[i]) {
        i
    } else {
        word_end(s, i + 1)
    }
}

pub proof fn lemma_word_end(s: Seq<char>, i: int)
    requires
        0 <= i <= s.len(),
    ensures
        i <= word_end(s, i) <= s.len(),
        forall|k: int| i <= k < word_end(s, i) ==> !is_ws(#[trigger] s[k]),
        word_end(s, i) < s.len() ==> is_ws(s[word_end(s, i)]),
    decreases s.len() - i,
{
    if i < s.len() && !is_ws(s[i]) {
        lemma_word_end(s, i + 1);
    }
}

/// The maximal runs of non-whitespace characters from position `i` on
/// (`str::split_whitespace`).
pub open spec fn words_from(s: Seq<char>, i: int) -> Seq<Seq<char>>
    decreases s.len() - i,
{
    if i < 0 || i >= s.len() {
        Seq::empty()
    } else if is_ws(s[i]) {
        words_from(s, i + 1)
    } else {
        let e = word_end(s, i);
        proof {
            lemma_word_end(s, i);
            lemma_word_end(s, i + 1);
        }
        seq![s.subrange(i, e)] + words_from(s, e)
    }
}

pub open spec fn words(s: Seq<char>) -> Seq<Seq<char>> {
    words_from(s, 0)
}

/// `str::split_whitespace`.
pub fn split_words(s: &[char]) -> (v: Vec<Vec<char>>)
    ensures
        v@.len() == words(s@).len(),
        forall|k: int| 0 <= k < v@.len() ==> #[trigger] v@[k]@ == words(s@)[k],
{
    let mut out: Vec<Vec<char>> = Vec::new();
    let ghost mut done: Seq<Seq<char>> = Seq::empty();
    let mut i: usize = 0;
    while i < s.len()
        invariant
            i <= s.len(),
            out@.len() == done.len(),
            forall|k: int| 0 <= k < out@.len() ==> #[trigger] out@[k]@ == done[k],
            done + words_from(s@, i as int) == words(s@),
        decreases s.len() - i,
    {
        if is_whitespace(s[i]) {
            i = i + 1;
        } else {
            proof {
                lemma_word_end(s@, i as int);
            }
            let mut j = i;
            let mut w: Vec<char> = Vec::new();
            while j < s.len() && !is_whitespace(s[j])
                invariant
                    i <= j <= word_end(s@, i as int),
                    word_end(s@, i as int) <= s.len(),
                    j < word_end(s@, i as int) || word_end(s@, i as int) == s.len() || is_ws(s@[j as int]),
                    forall|k: int| i <= k < word_end(s@, i as int) ==> !is_ws(#[trigger] s@[k]),
                    word_end(s@, i as int) < s.len() ==> is_ws(s@[word_end(s@, i as int)]),
                    w@ == s@.subrange(i as int, j as int),
                decreases s.len() - j,
            {
                w.push(s[j]);
                assert(s@.subrange(i as int, j + 1) == s@.subrange(i as int, j as int).push(s@[j as int]));
                j = j + 1;
            }
            proof {
                let e = word_end(s@, i as int);
                assert(j == e);
                assert(words_from(s@, i as int) == seq![s@.subrange(i as int, e)] + words_from(s@, e));
                assert((done + seq![s@.subrange(i as int, e)]) + words_from(s@, e) == done + (seq![
                    s@.subrange(i as int, e),
                ] + words_from(s@, e)));
                done = done.push(s@.subrange(i as int, e));
            }
            out.push(w);
            i = j;
        }
    }
    proof {
        assert(words_from(s@, i as int) == Seq::<Seq<char>>::empty());
        assert(done + Seq::<Seq<char>>::empty() == done);
    }
    out
}

/// Whether two strings hold the same characters.
pub fn same_text(a: &str, b: &str) -> (r: bool)
    ensures
        r == (a@ == b@),
{
    let x = chars_of(a);
    let y = chars_of(b);
    if x.len() != y.len() {
        return false;
    }
    let mut i: usize = 0;
    while i < x.len()
        invariant
            i <= x.len(),
            x.len() == y.len(),
            x@ == a@,
            y@ == b@,
            forall|k: int| 0 <= k < i ==> x@[k] == y@[k],
        decreases x.len() - i,
    {
        if x[i] != y[i] {
            assert(x@[i as int] != y@[i as int]);
            return false;
        }
        i = i + 1;
    }
    assert(x@ =~= y@);
    true
}

/// A formatted integer is a non-empty run without whitespace.
pub proof fn lemma_decimal_no_ws(v: int)
    ensures
        decimal(v).len() > 0,
        forall|k: int| 0 <= k < decimal(v).len() ==> !is_ws(#[trigger] decimal(v)[k]),
{
    let n: nat = if v < 0 { (-v) as nat } else { v as nat };
    lemma_decimal_digits(n);
    let d = decimal_digits(n);
    assert forall|k: int| 0 <= k < d.len() implies !is_ws(#[trigger] d[k]) by {
        assert(is_digit(d[k]));
    }
    if v < 0 {
        assert forall|k: int| 0 <= k < decimal(v).len() implies !is_ws(#[trigger] decimal(v)[k]) by {
            if k > 0 {
                assert(decimal(v)[k] == d[k - 1]);
            }
        }
    }
}

/// The word starting at `i` ends at `e` when `s[i..e]` has no whitespace
/// and `e` is the end or whitespace.
pub proof fn lemma_word_end_at(s: Seq<char>, i: int, e: int)
    requires
        0 <= i <= e <= s.len(),
        forall|k: int| i <= k < e ==> !is_ws(#[trigger] s[k]),
        e == s.len() || is_ws(s[e]),
    ensures
        word_end(s, i) == e,
    decreases e - i,
{
    if i < e {
        lemma_word_end_at(s, i + 1, e);
    }
}

/// Three formatted integers separated by single spaces split into those three words.
pub proof fn lemma_words3(a: int, b: int, c: int)
    ensures
        words(decimal(a) + seq![' '] + decimal(b) + seq![' '] + decimal(c)) == seq![
            decimal(a),
            decimal(b),
            decimal(c),
        ],
{
    lemma_decimal_no_ws(a);
    lemma_decimal_no_ws(b);
    lemma_decimal_no_ws(c);
    let da = decimal(a);
    let db = decimal(b);
    let dc = decimal(c);
    let s = da + seq![' '] + db + seq![' '] + dc;
    let e1 = da.len() as int;
    let s2 = e1 + 1;
    let e2 = s2 + db.len();
    let s3 = e2 + 1;
    let e3 = s3 + dc.len();
    assert(e3 == s.len());
    assert forall|k: int| 0 <= k < e1 implies !is_ws(#[trigger] s[k]) by {
        assert(s[k] == da[k]);
    }
    assert(s[e1] == ' ');
    lemma_word_end_at(s, 0, e1);
    assert forall|k: int| s2 <= k < e2 implies !is_ws(#[trigger] s[k]) by {
        assert(s[k] == db[k - s2]);
    }
    assert(s[e2] == ' ');
    lemma_word_end_at(s, s2, e2);
    assert forall|k: int| s3 <= k < e3 implies !is_ws(#[trigger] s[k]) by {
        assert(s[k] == dc[k - s3]);
    }
    lemma_word_end_at(s, s3, e3);
    assert(!is_ws(s[0]));
    assert(!is_ws(s[s2]));
    assert(!is_ws(s[s3]));
    assert(s.subrange(0, e1) =~= da);
    assert(s.subrange(s2, e2) =~= db);
    assert(s.subrange(s3, e3) =~= dc);
    assert(words_from(s, e3) == Seq::<Seq<char>>::empty());
    assert(words_from(s, s3) == seq![dc] + words_from(s, e3));
    assert(words_from(s, e2) == words_from(s, s3));
    assert(words_from(s, s2) == seq![db] + words_from(s, e2));
    assert(words_from(s, e1) == words_from(s, s2));
    assert(words_from(s, 0) == seq![da] + words_from(s, e1));
    assert(seq![da] + (seq![db] + (seq![dc] + Seq::<Seq<char>>::empty())) =~= seq![da, db, dc]);
}

} // verus!
