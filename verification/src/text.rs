//! Text as sequences of characters: whitespace, trimming, substitution,
//! ordering and decimal numbers, each with an executable counterpart.

use vstd::prelude::*;

verus! {

/// `String::push` appends one character.
pub assume_specification[ String::push ](s: &mut String, c: char)
    ensures
        final(s)@ == old(s)@.push(c),
;

/// The characters of `s`, in order.
pub fn chars_of(s: &str) -> (v: Vec<char>)
    ensures
        v@ == s@,
{
    let mut v: Vec<char> = Vec::new();
    for c in it: s.chars()
        invariant
            it.seq() == s@,
            v@ == it.seq().take(it.index()),
    {
        v.push(c);
    }
    assert(v@ == s@);
    v
}

/// The string made of the characters `v[from..to]`.
pub fn string_of_range(v: &Vec<char>, from: usize, to: usize) -> (s: String)
    requires
        from <= to <= v.len(),
    ensures
        s@ == v@.subrange(from as int, to as int),
{
    let mut s = String::new();
    let mut i: usize = from;
    while i < to
        invariant
            from <= i <= to <= v.len(),
            s@ == v@.subrange(from as int, i as int),
        decreases to - i,
    {
        s.push(v[i]);
        i += 1;
    }
    s
}

/// The string made of the characters of `v`.
pub fn string_of(v: &Vec<char>) -> (s: String)
    ensures
        s@ == v@,
{
    let s = string_of_range(v, 0, v.len());
    assert(v@.subrange(0, v@.len() as int) == v@);
    s
}

/// Whether two strings hold the same characters.
pub fn str_eq(a: &str, b: &str) -> (r: bool)
    ensures
        r == (a@ == b@),
{
    let x = chars_of(a);
    let y = chars_of(b);
    if x.len() != y.len() {
        return false;
    }
    let mut i: usize = 0;
    while i < x.len()
        invariant
            i <= x.len(),
            x.len() == y.len(),
            x@ == a@,
            y@ == b@,
            forall|j: int| 0 <= j < i ==> x@[j] == y@[j],
        decreases x.len() - i,
    {
        if x[i] != y[i] {
            return false;
        }
        i += 1;
    }
    assert(x@ =~= y@);
    true
}

/// A character is its code point: the cast to `u32` loses nothing.
pub proof fn lemma_char_code(c: char)
    ensures
        (c as u32) <= 0x10FFFF,
        (c as u32) as char == c,
        c as int == (c as u32) as int,
{
}

/// Unicode `White_Space`: what `str::trim` and its kin strip.
pub open spec fn is_space(c: char) -> bool {
    let n = c as u32;
    ||| 0x09 <= n <= 0x0D
    ||| n == 0x20
    ||| n == 0x85
    ||| n == 0xA0
    ||| n == 0x1680
    ||| 0x2000 <= n <= 0x200A
    ||| n == 0x2028
    ||| n == 0x2029
    ||| n == 0x202F
    ||| n == 0x205F
    ||| n == 0x3000
}

/// Whether `c` is whitespace.
pub fn char_is_space(c: char) -> (r: bool)
    ensures
        r == is_space(c),
{
    let n: u32 = c as u32;
    (0x09 <= n && n <= 0x0D) || n == 0x20 || n == 0x85 || n == 0xA0 || n == 0x1680 || (0x2000 <= n
        && n <= 0x200A) || n == 0x2028 || n == 0x2029 || n == 0x202F || n == 0x205F || n == 0x3000
}

/// `s` without its leading whitespace.
pub open spec fn trim_start(s: Seq<char>) -> Seq<char>
    decreases s.len(),
{
    if s.len() > 0 && is_space(s[0]) {
        trim_start(s.skip(1))
    } else {
        s
    }
}

/// `s` without its trailing whitespace.
pub open spec fn trim_end(s: Seq<char>) -> Seq<char>
    decreases s.len(),
{
    if s.len() > 0 && is_space(s.last()) {
        trim_end(s.drop_last())
    } else {
        s
    }
}

/// `s` without leading and trailing whitespace.
pub open spec fn trim(s: Seq<char>) -> Seq<char> {
    trim_end(trim_start(s))
}

/// The index of the first character of `v[from..to]` that is no whitespace,
/// or `to`.
pub fn skip_spaces(v: &Vec<char>, from: usize, to: usize) -> (i: usize)
    requires
        from <= to <= v.len(),
    ensures
        from <= i <= to,
        trim_start(v@.subrange(from as int, to as int)) == v@.subrange(i as int, to as int),
{
    let mut i: usize = from;
    while i < to && char_is_space(v[i])
        invariant
            from <= i <= to <= v.len(),
            trim_start(v@.subrange(from as int, to as int)) == trim_start(
                v@.subrange(i as int, to as int),
            ),
        decreases to - i,
    {
        assert(v@.subrange(i as int, to as int).skip(1) == v@.subrange(i + 1, to as int));
        i += 1;
    }
    i
}

/// The end of `v[from..to]` once its trailing whitespace is dropped.
pub fn drop_spaces(v: &Vec<char>, from: usize, to: usize) -> (j: usize)
    requires
        from <= to <= v.len(),
    ensures
        from <= j <= to,
        trim_end(v@.subrange(from as int, to as int)) == v@.subrange(from as int, j as int),
{
    let mut j: usize = to;
    while j > from && char_is_space(v[j - 1])
        invariant
            from <= j <= to <= v.len(),
            trim_end(v@.subrange(from as int, to as int)) == trim_end(
                v@.subrange(from as int, j as int),
            ),
        decreases j - from,
    {
        assert(v@.subrange(from as int, j as int).drop_last() == v@.subrange(
            from as int,
            j - 1,
        ));
        j -= 1;
    }
    j
}

/// `str::trim_start` on a string.
pub fn str_trim_start(s: &str) -> (r: String)
    ensures
        r@ == trim_start(s@),
{
    let v = chars_of(s);
    let i = skip_spaces(&v, 0, v.len());
    assert(v@.subrange(0, v@.len() as int) == v@);
    string_of_range(&v, i, v.len())
}

/// `str::trim_end` on a string.
pub fn str_trim_end(s: &str) -> (r: String)
    ensures
        r@ == trim_end(s@),
{
    let v = chars_of(s);
    let j = drop_spaces(&v, 0, v.len());
    assert(v@.subrange(0, v@.len() as int) == v@);
    string_of_range(&v, 0, j)
}

/// `str::trim` on a string.
pub fn str_trim(s: &str) -> (r: String)
    ensures
        r@ == trim(s@),
{
    let v = chars_of(s);
    let i = skip_spaces(&v, 0, v.len());
    let j = drop_spaces(&v, i, v.len());
    assert(v@.subrange(0, v@.len() as int) == v@);
    string_of_range(&v, i, j)
}

/// Whether `s` begins with `p`.
pub open spec fn has_prefix(s: Seq<char>, p: Seq<char>) -> bool {
    p.len() <= s.len() && s.take(p.len() as int) == p
}

/// `to`, then each character of `s` followed by `to`: what replacing the
/// empty pattern gives.
pub open spec fn interleave(s: Seq<char>, to: Seq<char>) -> Seq<char>
    decreases s.len(),
{
    if s.len() == 0 {
        to
    } else {
        to + seq![s[0]] + interleave(s.skip(1), to)
    }
}

/// `s` with every occurrence of `pat` replaced by `to`, scanning from the
/// left and never overlapping, as `str::replace` does.
pub open spec fn replace_all(s: Seq<char>, pat: Seq<char>, to: Seq<char>) -> Seq<char>
    decreases s.len(),
{
    if pat.len() == 0 {
        interleave(s, to)
    } else if s.len() == 0 {
        s
    } else if has_prefix(s, pat) {
        to + replace_all(s.skip(pat.len() as int), pat, to)
    } else {
        seq![s[0]] + replace_all(s.skip(1), pat, to)
    }
}

/// Whether `pat` occurs in `s` at index `at`.
fn occurs_at(s: &Vec<char>, at: usize, pat: &Vec<char>) -> (r: bool)
    requires
        at <= s.len(),
    ensures
        r == has_prefix(s@.skip(at as int), pat@),
{
    if pat.len() > s.len() - at {
        return false;
    }
    let mut k: usize = 0;
    while k < pat.len()
        invariant
            k <= pat.len(),
            at + pat.len() <= s.len(),
            forall|j: int| 0 <= j < k ==> s@[at + j] == pat@[j],
        decreases pat.len() - k,
    {
        if s[at + k] != pat[k] {
            assert(s@.skip(at as int).take(pat@.len() as int)[k as int] != pat@[k as int]);
            return false;
        }
        k += 1;
    }
    assert(s@.skip(at as int).take(pat@.len() as int) =~= pat@);
    true
}

/// Appends `items[from..to]` to `out`.
pub fn push_range(out: &mut Vec<char>, items: &Vec<char>, from: usize, to: usize)
    requires
        from <= to <= items.len(),
    ensures
        final(out)@ == old(out)@ + items@.subrange(from as int, to as int),
{
    let mut k: usize = from;
    while k < to
        invariant
            from <= k <= to <= items.len(),
            out@ == old(out)@ + items@.subrange(from as int, k as int),
        decreases to - k,
    {
        out.push(items[k]);
        k += 1;
    }
}

/// Appends `items` to `out`.
pub fn push_all(out: &mut Vec<char>, items: &Vec<char>)
    ensures
        final(out)@ == old(out)@ + items@,
{
    push_range(out, items, 0, items.len());
    assert(items@.subrange(0, items@.len() as int) == items@);
}

/// `str::replace` on character vectors.
pub fn replace_chars(s: &Vec<char>, pat: &Vec<char>, to: &Vec<char>) -> (r: Vec<char>)
    ensures
        r@ == replace_all(s@, pat@, to@),
{
    let mut out: Vec<char> = Vec::new();
    let mut i: usize = 0;
    assert(s@.skip(0) == s@);
    if pat.len() == 0 {
        push_all(&mut out, to);
        proof {
            lemma_interleave_starts(s@, to@);
        }
        while i < s.len()
            invariant
                i <= s.len(),
                interleave(s@, to@) == out@ + interleave(s@.skip(i as int), to@).skip(
                    to@.len() as int,
                ),
            decreases s.len() - i,
        {
            let ghost rest = s@.skip(i as int);
            assert(rest.skip(1) == s@.skip(i + 1));
            assert(interleave(rest, to@) == to@ + seq![rest[0]] + interleave(rest.skip(1), to@));
            assert(interleave(rest, to@).skip(to@.len() as int) =~= seq![rest[0]] + to@
                + interleave(rest.skip(1), to@).skip(to@.len() as int)) by {
                lemma_interleave_starts(rest.skip(1), to@);
            }
            out.push(s[i]);
            push_all(&mut out, to);
            i += 1;
        }
        assert(interleave(s@.skip(i as int), to@).skip(to@.len() as int) =~= Seq::<char>::empty());
        return out;
    }
    while i < s.len()
        invariant
            i <= s.len(),
            pat.len() > 0,
            replace_all(s@, pat@, to@) == out@ + replace_all(s@.skip(i as int), pat@, to@),
        decreases s.len() - i,
    {
        let ghost rest = s@.skip(i as int);
        if occurs_at(s, i, pat) {
            assert(rest.skip(pat@.len() as int) == s@.skip(i + pat@.len()));
            push_all(&mut out, to);
            i += pat.len();
        } else {
            assert(rest.skip(1) == s@.skip(i + 1));
            out.push(s[i]);
            i += 1;
        }
    }
    out
}

proof fn lemma_interleave_starts(s: Seq<char>, to: Seq<char>)
    ensures
        has_prefix(interleave(s, to), to),
        interleave(s, to) == to + interleave(s, to).skip(to.len() as int),
{
    if s.len() == 0 {
        assert(interleave(s, to).take(to.len() as int) == to);
    } else {
        let tail = seq![s[0]] + interleave(s.skip(1), to);
        assert(interleave(s, to) == to + tail);
        assert((to + tail).take(to.len() as int) == to);
        assert((to + tail).skip(to.len() as int) == tail);
    }
    assert(interleave(s, to) =~= to + interleave(s, to).skip(to.len() as int));
}

/// `str::replace` on strings.
pub fn str_replace(s: &str, pat: &str, to: &str) -> (r: String)
    ensures
        r@ == replace_all(s@, pat@, to@),
{
    let out = replace_chars(&chars_of(s), &chars_of(pat), &chars_of(to));
    string_of(&out)
}

/// An ASCII capital letter becomes its small letter; other characters stay.
pub open spec fn lower_char(c: char) -> char {
    if 0x41 <= (c as u32) <= 0x5A {
        ((c as u32) + 32) as char
    } else {
        c
    }
}

/// `s` with its ASCII capital letters made small.
pub open spec fn lower(s: Seq<char>) -> Seq<char> {
    Seq::new(s.len(), |i: int| lower_char(s[i]))
}

/// Whether `s`, with its ASCII capital letters made small, is `word`.
pub fn lower_is(s: &str, word: &str) -> (r: bool)
    ensures
        r == (lower(s@) == word@),
{
    let x = chars_of(s);
    let y = chars_of(word);
    if x.len() != y.len() {
        assert(lower(x@).len() != y@.len());
        return false;
    }
    let mut i: usize = 0;
    while i < x.len()
        invariant
            i <= x.len(),
            x.len() == y.len(),
            x@ == s@,
            y@ == word@,
            forall|j: int| 0 <= j < i ==> lower_char(x@[j]) == y@[j],
        decreases x.len() - i,
    {
        let n: u32 = x[i] as u32;
        let m: u32 = if 0x41 <= n && n <= 0x5A {
            n + 32
        } else {
            n
        };
        proof {
            lemma_char_code(x@[i as int]);
            lemma_char_code(y@[i as int]);
            lemma_char_code(lower_char(x@[i as int]));
        }
        assert(m == lower_char(x@[i as int]) as u32);
        if m != y[i] as u32 {
            assert(lower(x@)[i as int] != y@[i as int]);
            return false;
        }
        assert(lower_char(x@[i as int]) == y@[i as int]);
        i += 1;
    }
    assert(lower(x@) =~= y@);
    true
}

/// Strict lexicographic order by code point, the order of `str`.
pub open spec fn text_lt(a: Seq<char>, b: Seq<char>) -> bool
    decreases a.len(),
{
    if b.len() == 0 {
        false
    } else if a.len() == 0 {
        true
    } else if a[0] != b[0] {
        (a[0] as u32) < (b[0] as u32)
    } else {
        text_lt(a.skip(1), b.skip(1))
    }
}

/// No text comes before a text that comes before it.
pub proof fn lemma_text_lt_asymmetric(a: Seq<char>, b: Seq<char>)
    ensures
        !(text_lt(a, b) && text_lt(b, a)),
    decreases a.len(),
{
    if a.len() > 0 && b.len() > 0 && a[0] == b[0] {
        lemma_text_lt_asymmetric(a.skip(1), b.skip(1));
    }
}

/// What comes before a text comes before all that the text comes before.
pub proof fn lemma_text_lt_transitive(a: Seq<char>, b: Seq<char>, c: Seq<char>)
    requires
        text_lt(a, b),
        text_lt(b, c),
    ensures
        text_lt(a, c),
    decreases a.len(),
{
    if a.len() > 0 && a[0] == b[0] && b[0] == c[0] {
        lemma_text_lt_transitive(a.skip(1), b.skip(1), c.skip(1));
    }
}

/// Of two different texts one comes before the other.
pub proof fn lemma_text_lt_total(a: Seq<char>, b: Seq<char>)
    ensures
        text_lt(a, b) || text_lt(b, a) || a == b,
    decreases a.len(),
{
    if a.len() > 0 && b.len() > 0 {
        lemma_char_code(a[0]);
        lemma_char_code(b[0]);
        if a[0] == b[0] {
            lemma_text_lt_total(a.skip(1), b.skip(1));
            if a.skip(1) == b.skip(1) {
                assert(a =~= seq![a[0]] + a.skip(1));
                assert(b =~= seq![b[0]] + b.skip(1));
            }
        }
    } else if a.len() == 0 && b.len() == 0 {
        assert(a =~= b);
    }
}

/// Whether `a` comes strictly before `b` in the order of `str`.
pub fn str_lt(a: &str, b: &str) -> (r: bool)
    ensures
        r == text_lt(a@, b@),
{
    let x = chars_of(a);
    let y = chars_of(b);
    let mut i: usize = 0;
    assert(x@.skip(0) == x@ && y@.skip(0) == y@);
    while i < x.len() && i < y.len()
        invariant
            i <= x.len(),
            i <= y.len(),
            x@ == a@,
            y@ == b@,
            text_lt(x@, y@) == text_lt(x@.skip(i as int), y@.skip(i as int)),
        decreases x.len() - i,
    {
        assert(x@.skip(i as int)[0] == x@[i as int] && y@.skip(i as int)[0] == y@[i as int]);
        if x[i] != y[i] {
            proof {
                lemma_char_code(x@[i as int]);
                lemma_char_code(y@[i as int]);
            }
            return x[i] < y[i];
        }
        assert(x@.skip(i as int).skip(1) == x@.skip(i + 1));
        assert(y@.skip(i as int).skip(1) == y@.skip(i + 1));
        i += 1;
    }
    i < y.len()
}

/// Whether `c` is a decimal digit.
pub open spec fn is_digit(c: char) -> bool {
    '0' <= c <= '9'
}

/// The number that the digit `c` stands for.
pub open spec fn digit_value(c: char) -> nat {
    ((c as u32) - ('0' as u32)) as nat
}

/// Whether `s` holds decimal digits only.
pub open spec fn all_digits(s: Seq<char>) -> bool {
    forall|i: int| 0 <= i < s.len() ==> is_digit(#[trigger] s[i])
}

/// The number that the decimal digits `s` write.
pub open spec fn decimal_value(s: Seq<char>) -> nat
    decreases s.len(),
{
    if s.len() == 0 {
        0
    } else {
        decimal_value(s.drop_last()) * 10 + digit_value(s.last())
    }
}

/// The digits of an unsigned literal: an optional `+`, then the rest.
pub open spec fn unsigned_digits(s: Seq<char>) -> Seq<char> {
    if s.len() > 0 && s[0] == '+' {
        s.skip(1)
    } else {
        s
    }
}

/// The value of an unsigned decimal literal: an optional `+` and at least
/// one digit, nothing else.
pub open spec fn parse_unsigned(s: Seq<char>) -> Option<nat> {
    let d = unsigned_digits(s);
    if d.len() > 0 && all_digits(d) {
        Some(decimal_value(d))
    } else {
        None
    }
}

/// The value of a signed decimal literal: an optional `+` or `-` and at
/// least one digit, nothing else.
pub open spec fn parse_signed(s: Seq<char>) -> Option<int> {
    if s.len() > 0 && s[0] == '-' {
        let d = s.skip(1);
        if d.len() > 0 && all_digits(d) {
            Some(-(decimal_value(d) as int))
        } else {
            None
        }
    } else {
        match parse_unsigned(s) {
            Some(n) => Some(n as int),
            None => None,
        }
    }
}

/// What `usize::from_str` makes of `s`.
pub open spec fn usize_of(s: Seq<char>) -> Option<usize> {
    match parse_unsigned(s) {
        Some(n) => if n <= usize::MAX {
            Some(n as usize)
        } else {
            None
        },
        None => None,
    }
}

/// What `isize::from_str` makes of `s`.
pub open spec fn isize_of(s: Seq<char>) -> Option<isize> {
    match parse_signed(s) {
        Some(n) => if isize::MIN <= n <= isize::MAX {
            Some(n as isize)
        } else {
            None
        },
        None => None,
    }
}

proof fn lemma_decimal_prefix(s: Seq<char>, k: int)
    requires
        0 <= k <= s.len(),
    ensures
        decimal_value(s.take(k)) <= decimal_value(s),
    decreases s.len() - k,
{
    if k == s.len() {
        assert(s.take(k) == s);
    } else {
        lemma_decimal_prefix(s.drop_last(), k);
        assert(s.drop_last().take(k) == s.take(k));
    }
}

/// The value of the digits `v[from..]`, where there is at least one, all
/// are digits, and the value fits.
fn digits_to_usize(v: &Vec<char>, from: usize) -> (r: Option<usize>)
    requires
        from <= v.len(),
    ensures
        ({
            let d = v@.skip(from as int);
            r == if d.len() > 0 && all_digits(d) && decimal_value(d) <= usize::MAX {
                Some(decimal_value(d) as usize)
            } else {
                None::<usize>
            }
        }),
{
    let ghost d = v@.skip(from as int);
    if from == v.len() {
        return None;
    }
    let mut acc: usize = 0;
    let mut i: usize = from;
    while i < v.len()
        invariant
            from <= i <= v.len(),
            d == v@.skip(from as int),
            all_digits(d.take(i - from)),
            acc == decimal_value(d.take(i - from)),
        decreases v.len() - i,
    {
        let c = v[i];
        let ghost next = d.take(i - from + 1);
        assert(next.drop_last() == d.take(i - from));
        assert(next.last() == c);
        if !('0' <= c && c <= '9') {
            assert(!is_digit(d[i - from]));
            return None;
        }
        let digit: usize = (c as u32 - '0' as u32) as usize;
        proof {
            lemma_decimal_prefix(d, i - from + 1);
        }
        let scaled = match acc.checked_mul(10) {
            Some(x) => x,
            None => {
                return None;
            },
        };
        acc = match scaled.checked_add(digit) {
            Some(x) => x,
            None => {
                return None;
            },
        };
        assert forall|j: int| 0 <= j < next.len() implies is_digit(#[trigger] next[j]) by {
            if j < next.len() - 1 {
                assert(next[j] == d.take(i - from)[j]);
            }
        }
        i += 1;
    }
    assert(d.take(i - from) == d);
    Some(acc)
}

/// `usize::from_str`.
pub fn parse_usize(s: &str) -> (r: Option<usize>)
    ensures
        r == usize_of(s@),
{
    let v = chars_of(s);
    let from: usize = if v.len() > 0 && v[0] == '+' {
        1
    } else {
        0
    };
    assert(v@.skip(0) == v@);
    digits_to_usize(&v, from)
}

/// `isize::from_str`.
pub fn parse_isize(s: &str) -> (r: Option<isize>)
    ensures
        r == isize_of(s@),
{
    let v = chars_of(s);
    assert(v@.skip(0) == v@);
    if v.len() > 0 && v[0] == '-' {
        match digits_to_usize(&v, 1) {
            Some(m) => {
                if m <= isize::MAX as usize {
                    Some(-(m as isize))
                } else if m - 1 == isize::MAX as usize {
                    Some(isize::MIN)
                } else {
                    None
                }
            },
            None => None,
        }
    } else {
        let from: usize = if v.len() > 0 && v[0] == '+' {
            1
        } else {
            0
        };
        match digits_to_usize(&v, from) {
            Some(m) => {
                if m <= isize::MAX as usize {
                    Some(m as isize)
                } else {
                    None
                }
            },
            None => None,
        }
    }
}

/// Whether `keys` is in strictly rising order.
pub open spec fn strictly_sorted(keys: Seq<Seq<char>>) -> bool {
    forall|i: int, j: int| 0 <= i < j < keys.len() ==> text_lt(#[trigger] keys[i], #[trigger] keys[j])
}

/// Whether `keys` lists exactly the members of `dom`, in rising order.
pub open spec fn is_sorted_listing(keys: Seq<Seq<char>>, dom: Set<Seq<char>>) -> bool {
    &&& strictly_sorted(keys)
    &&& forall|k: Seq<char>| dom.contains(k) <==> keys.contains(k)
}

/// The members of the finite set `dom` in rising order.
pub open spec fn sorted_keys(dom: Set<Seq<char>>) -> Seq<Seq<char>> {
    choose|keys: Seq<Seq<char>>| is_sorted_listing(keys, dom)
}

/// A set has at most one sorted listing.
pub proof fn lemma_sorted_listing_unique(a: Seq<Seq<char>>, b: Seq<Seq<char>>, dom: Set<Seq<char>>)
    requires
        is_sorted_listing(a, dom),
        is_sorted_listing(b, dom),
    ensures
        a == b,
    decreases a.len(),
{
    if a.len() == 0 {
        if b.len() > 0 {
            assert(b.contains(b[0]));
            assert(a.contains(b[0]));
        }
        assert(a =~= b);
    } else {
        assert(a.contains(a[0]));
        assert(b.contains(a[0]));
        let j = choose|j: int| 0 <= j < b.len() && b[j] == a[0];
        assert(b.contains(b[0]));
        assert(a.contains(b[0]));
        let i = choose|i: int| 0 <= i < a.len() && a[i] == b[0];
        if j > 0 && i > 0 {
            assert(text_lt(b[0], b[j]));
            assert(text_lt(a[0], a[i]));
            lemma_text_lt_asymmetric(a[0], b[0]);
        }
        assert(a[0] == b[0]);
        let first = a[0];
        let rest = dom.remove(first);
        assert forall|k: Seq<char>| rest.contains(k) <==> a.skip(1).contains(k) by {
            if rest.contains(k) {
                assert(a.contains(k));
                let n = choose|n: int| 0 <= n < a.len() && a[n] == k;
                assert(a.skip(1)[n - 1] == k);
            }
            if a.skip(1).contains(k) {
                let n = choose|n: int| 0 <= n < a.skip(1).len() && a.skip(1)[n] == k;
                assert(a[n + 1] == k);
                assert(a.contains(k));
                assert(text_lt(a[0], a[n + 1]));
                lemma_text_lt_asymmetric(a[0], a[0]);
            }
        }
        assert forall|k: Seq<char>| rest.contains(k) <==> b.skip(1).contains(k) by {
            if rest.contains(k) {
                assert(b.contains(k));
                let n = choose|n: int| 0 <= n < b.len() && b[n] == k;
                assert(b.skip(1)[n - 1] == k);
            }
            if b.skip(1).contains(k) {
                let n = choose|n: int| 0 <= n < b.skip(1).len() && b.skip(1)[n] == k;
                assert(b[n + 1] == k);
                assert(b.contains(k));
                assert(text_lt(b[0], b[n + 1]));
                lemma_text_lt_asymmetric(b[0], b[0]);
            }
        }
        assert(strictly_sorted(a.skip(1))) by {
            assert forall|x: int, y: int| 0 <= x < y < a.skip(1).len() implies text_lt(
                #[trigger] a.skip(1)[x],
                #[trigger] a.skip(1)[y],
            ) by {
                assert(text_lt(a[x + 1], a[y + 1]));
            }
        }
        assert(strictly_sorted(b.skip(1))) by {
            assert forall|x: int, y: int| 0 <= x < y < b.skip(1).len() implies text_lt(
                #[trigger] b.skip(1)[x],
                #[trigger] b.skip(1)[y],
            ) by {
                assert(text_lt(b[x + 1], b[y + 1]));
            }
        }
        lemma_sorted_listing_unique(a.skip(1), b.skip(1), rest);
        assert(a =~= seq![a[0]] + a.skip(1));
        assert(b =~= seq![b[0]] + b.skip(1));
    }
}

/// A sorted listing of a set is the sorted listing of that set.
pub proof fn lemma_sorted_keys_is(keys: Seq<Seq<char>>, dom: Set<Seq<char>>)
    requires
        is_sorted_listing(keys, dom),
    ensures
        sorted_keys(dom) == keys,
{
    lemma_sorted_listing_unique(sorted_keys(dom), keys, dom);
}

/// How many of the leading keys of `keys` come before `x`.
pub open spec fn place_of(keys: Seq<Seq<char>>, x: Seq<char>) -> int
    decreases keys.len(),
{
    if keys.len() > 0 && text_lt(keys[0], x) {
        1 + place_of(keys.skip(1), x)
    } else {
        0
    }
}

proof fn lemma_place_of(keys: Seq<Seq<char>>, x: Seq<char>)
    requires
        strictly_sorted(keys),
        !keys.contains(x),
    ensures
        0 <= place_of(keys, x) <= keys.len(),
        forall|j: int| 0 <= j < place_of(keys, x) ==> text_lt(#[trigger] keys[j], x),
        forall|j: int| place_of(keys, x) <= j < keys.len() ==> text_lt(x, #[trigger] keys[j]),
    decreases keys.len(),
{
    if keys.len() > 0 {
        let rest = keys.skip(1);
        assert forall|i: int, j: int| 0 <= i < j < rest.len() implies text_lt(
            #[trigger] rest[i],
            #[trigger] rest[j],
        ) by {
            assert(text_lt(keys[i + 1], keys[j + 1]));
        }
        assert(!rest.contains(x)) by {
            if rest.contains(x) {
                let n = choose|n: int| 0 <= n < rest.len() && rest[n] == x;
                assert(keys[n + 1] == x);
            }
        }
        if text_lt(keys[0], x) {
            lemma_place_of(rest, x);
            let p = place_of(keys, x);
            assert forall|j: int| 0 <= j < p implies text_lt(#[trigger] keys[j], x) by {
                if j > 0 {
                    assert(keys[j] == rest[j - 1]);
                }
            }
            assert forall|j: int| p <= j < keys.len() implies text_lt(x, #[trigger] keys[j]) by {
                assert(keys[j] == rest[j - 1]);
            }
        } else {
            lemma_text_lt_total(keys[0], x);
            assert(keys[0] != x);
            assert forall|j: int| 0 <= j < keys.len() implies text_lt(x, #[trigger] keys[j]) by {
                if j > 0 {
                    assert(text_lt(keys[0], keys[j]));
                    lemma_text_lt_transitive(x, keys[0], keys[j]);
                }
            }
        }
    }
}

/// A finite set has a sorted listing, and `sorted_keys` is it.
pub proof fn lemma_sorted_keys_lists(dom: Set<Seq<char>>)
    requires
        dom.finite(),
    ensures
        is_sorted_listing(sorted_keys(dom), dom),
    decreases dom.len(),
{
    if dom.len() == 0 {
        dom.lemma_len0_is_empty();
        assert(is_sorted_listing(Seq::<Seq<char>>::empty(), dom));
    } else {
        let x = dom.choose();
        let rest = dom.remove(x);
        lemma_sorted_keys_lists(rest);
        let keys = sorted_keys(rest);
        assert(!keys.contains(x));
        lemma_place_of(keys, x);
        let p = place_of(keys, x);
        let all = keys.insert(p, x);
        assert forall|i: int, j: int| 0 <= i < j < all.len() implies text_lt(
            #[trigger] all[i],
            #[trigger] all[j],
        ) by {
            if j < p {
                assert(text_lt(keys[i], keys[j]));
            } else if j == p {
                assert(text_lt(keys[i], x));
            } else if i < p {
                assert(text_lt(keys[i], keys[j - 1]));
            } else if i == p {
                assert(text_lt(x, keys[j - 1]));
            } else {
                assert(text_lt(keys[i - 1], keys[j - 1]));
            }
        }
        assert forall|k: Seq<char>| dom.contains(k) <==> all.contains(k) by {
            if dom.contains(k) {
                if k == x {
                    assert(all[p] == k);
                } else {
                    assert(rest.contains(k));
                    assert(keys.contains(k));
                    let n = choose|n: int| 0 <= n < keys.len() && keys[n] == k;
                    if n < p {
                        assert(all[n] == k);
                    } else {
                        assert(all[n + 1] == k);
                    }
                }
            }
            if all.contains(k) {
                let n = choose|n: int| 0 <= n < all.len() && all[n] == k;
                if n < p {
                    assert(keys[n] == k);
                    assert(keys.contains(k));
                } else if n > p {
                    assert(keys[n - 1] == k);
                    assert(keys.contains(k));
                }
            }
        }
        assert(is_sorted_listing(all, dom));
    }
}

} // verus!
