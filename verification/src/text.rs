use vstd::prelude::*;
use vstd::utf8::{char_is_scalar, encode_scalar, encode_utf8};

verus! {

/// Appends one character to a string (`String::push`).
///
/// Trusted: `String::push` appends the given char to the end of the string;
/// the contract says exactly that over the strings' character views.
#[verifier::external_body]
pub(crate) fn push_char(s: &mut String, c: char)
    ensures
        final(s)@ == old(s)@.push(c),
{
    s.push(c);
}

/// The characters of `s`, in order.
pub fn chars_of(s: &str) -> (res: Vec<char>)
    ensures
        res@ == s@,
{
    let mut res: Vec<char> = Vec::new();
    for c in it: s.chars()
        invariant
            res@ == it.seq().take(it.index() as int),
    {
        res.push(c);
    }
    res
}


/// A string holding exactly the characters `chars[start..end]`.
pub fn string_from_range(chars: &Vec<char>, start: usize, end: usize) -> (res: String)
    requires
        start <= end <= chars.len(),
    ensures
        res@ == chars@.subrange(start as int, end as int),
{
    let mut res = String::new();
    let mut i = start;
    while i < end
        invariant
            start <= i <= end <= chars.len(),
            res@ == chars@.subrange(start as int, i as int),
        decreases end - i,
    {
        push_char(&mut res, chars[i]);
        i = i + 1;
        assert(res@ =~= chars@.subrange(start as int, i as int));
    }
    res
}

/// A string holding exactly the characters of `chars`.
pub fn string_from_chars(chars: &Vec<char>) -> (res: String)
    ensures
        res@ == chars@,
{
    let res = string_from_range(chars, 0, chars.len());
    assert(chars@.subrange(0, chars@.len() as int) =~= chars@);
    res
}

/// Whether two character sequences are equal.
pub fn chars_eq(a: &[char], b: &[char]) -> (res: bool)
    ensures
        res == (a@ == b@),
{
    if a.len() != b.len() {
        return false;
    }
    let mut i: usize = 0;
    while i < a.len()
        invariant
            a@.len() == b@.len(),
            i <= a@.len(),
            forall|j: int| 0 <= j < i ==> a@[j] == b@[j],
        decreases a.len() - i,
    {
        if a[i] != b[i] {
            return false;
        }
        i = i + 1;
    }
    assert(a@ =~= b@);
    true
}

/// The decimal digits of `n`, most significant first, without leading zeros
/// (zero is the single digit `0`).
pub open spec fn decimal(n: nat) -> Seq<char>
    decreases n,
{
    if n < 10 {
        seq![digit_char(n)]
    } else {
        decimal(n / 10).push(digit_char(n % 10))
    }
}

/// The number that a text of decimal digits reads as.
pub open spec fn digits_value(s: Seq<char>) -> int
    decreases s.len(),
{
    if s.len() == 0 {
        0
    } else {
        digits_value(s.drop_last()) * 10 + ((s.last() as int) - ('0' as int))
    }
}

proof fn lemma_digit_char_value(d: nat)
    requires
        d < 10,
    ensures
        '0' <= digit_char(d) <= '9',
        (digit_char(d) as int) - ('0' as int) == d,
{
}

/// The decimal form of `n` is made of digits only, reads back as `n`, and
/// starts with `0` only when it is `0` itself.
pub proof fn lemma_decimal_reads_back(n: nat)
    ensures
        decimal(n).len() >= 1,
        forall|i: int| 0 <= i < decimal(n).len() ==> '0' <= #[trigger] decimal(n)[i] <= '9',
        digits_value(decimal(n)) == n,
        decimal(n)[0] == '0' <==> n == 0,
    decreases n,
{
    lemma_digit_char_value(n % 10);
    if n >= 10 {
        lemma_decimal_reads_back(n / 10);
        let d = decimal(n);
        assert(d.last() == digit_char(n % 10));
        assert(n == (n / 10) * 10 + n % 10);
        assert(d.drop_last() =~= decimal(n / 10));
        assert(d[0] == decimal(n / 10)[0]);
        assert forall|i: int| 0 <= i < d.len() implies '0' <= #[trigger] d[i] <= '9' by {
            if i < d.len() - 1 {
                assert(d[i] == decimal(n / 10)[i]);
            }
        }
        assert(digits_value(d) == digits_value(decimal(n / 10)) * 10 + (n % 10));
    } else {
        assert(decimal(n).drop_last() =~= Seq::<char>::empty());
        assert(digits_value(decimal(n).drop_last()) == 0);
        assert(decimal(n).last() == digit_char(n));
    }
}

/// The character of the decimal digit `d` (for `d < 10`).
pub open spec fn digit_char(d: nat) -> char {
    if d == 0 { '0' }
    else if d == 1 { '1' }
    else if d == 2 { '2' }
    else if d == 3 { '3' }
    else if d == 4 { '4' }
    else if d == 5 { '5' }
    else if d == 6 { '6' }
    else if d == 7 { '7' }
    else if d == 8 { '8' }
    else { '9' }
}

fn digit_to_char(d: usize) -> (c: char)
    requires
        d < 10,
    ensures
        c == digit_char(d as nat),
{
    if d == 0 { '0' }
    else if d == 1 { '1' }
    else if d == 2 { '2' }
    else if d == 3 { '3' }
    else if d == 4 { '4' }
    else if d == 5 { '5' }
    else if d == 6 { '6' }
    else if d == 7 { '7' }
    else if d == 8 { '8' }
    else { '9' }
}

/// Appends the decimal form of `n` to `s`.
pub fn push_decimal(s: &mut String, n: usize)
    ensures
        final(s)@ == old(s)@ + decimal(n as nat),
    decreases n,
{
    if n >= 10 {
        push_decimal(s, n / 10);
    }
    push_char(s, digit_to_char(n % 10));
    proof {
        if n >= 10 {
            assert(old(s)@ + decimal(n as nat) =~= old(s)@ + decimal((n / 10) as nat) + seq![digit_char((n % 10) as nat)]);
        } else {
            assert(n % 10 == n);
            assert(old(s)@ + decimal(n as nat) =~= old(s)@.push(digit_char(n as nat)));
        }
    }
}


/// The index of the first `'.'` in `s`, or `s.len()` when there is none.
pub open spec fn first_dot(s: Seq<char>) -> nat
    decreases s.len(),
{
    if s.len() == 0 {
        0
    } else if s[0] == '.' {
        0
    } else {
        1 + first_dot(s.drop_first())
    }
}

/// `s` without its leading zeros, keeping at least one character.
pub open spec fn strip_leading_zeros(s: Seq<char>) -> Seq<char>
    decreases s.len(),
{
    if s.len() > 1 && s[0] == '0' {
        strip_leading_zeros(s.drop_first())
    } else {
        s
    }
}

/// `s` without its trailing zeros.
pub open spec fn strip_trailing_zeros(s: Seq<char>) -> Seq<char>
    decreases s.len(),
{
    if s.len() > 0 && s.last() == '0' {
        strip_trailing_zeros(s.drop_last())
    } else {
        s
    }
}

/// How a number literal is printed: its decimal value with no superfluous
/// zeros and always with a fractional part (`"042"` prints as `42.0`,
/// `"1.50"` as `1.5`).
///
/// A literal of at most fifteen significant digits whose value is below
/// 2^1024 reads the same as the shortest decimal text of the nearest double;
/// that agreement is not proved here (no floating point is), only compared on
/// examples. Longer literals print all their digits, where a double would
/// round them: `123456789012345678` prints as `123456789012345678.0`, not as
/// the double's `123456789012345680.0`.
pub open spec fn number_text(lexeme: Seq<char>) -> Seq<char> {
    let dot = first_dot(lexeme) as int;
    let int_part = strip_leading_zeros(lexeme.take(dot));
    let frac = if dot < lexeme.len() {
        strip_trailing_zeros(lexeme.skip(dot + 1))
    } else {
        Seq::<char>::empty()
    };
    if frac.len() == 0 {
        int_part + seq!['.', '0']
    } else {
        int_part + seq!['.'] + frac
    }
}

proof fn lemma_first_dot(s: Seq<char>)
    ensures
        first_dot(s) <= s.len(),
        forall|j: int| 0 <= j < first_dot(s) ==> s[j] != '.',
        first_dot(s) < s.len() ==> s[first_dot(s) as int] == '.',
    decreases s.len(),
{
    if s.len() > 0 && s[0] != '.' {
        lemma_first_dot(s.drop_first());
        assert forall|j: int| 0 <= j < first_dot(s) implies s[j] != '.' by {
            if j > 0 {
                assert(s[j] == s.drop_first()[j - 1]);
            }
        }
    }
}

proof fn lemma_strip_leading(s: Seq<char>, i: int)
    requires
        0 <= i < s.len(),
        forall|j: int| 0 <= j < i ==> s[j] == '0',
        i == s.len() - 1 || s[i] != '0',
    ensures
        strip_leading_zeros(s) == s.skip(i),
    decreases i,
{
    if i > 0 {
        assert(s.drop_first().skip(i - 1) =~= s.skip(i));
        lemma_strip_leading(s.drop_first(), i - 1);
    } else {
        assert(s.skip(0) =~= s);
    }
}

proof fn lemma_strip_trailing(s: Seq<char>, k: int)
    requires
        0 <= k <= s.len(),
        forall|j: int| k <= j < s.len() ==> s[j] == '0',
        k == 0 || s[k - 1] != '0',
    ensures
        strip_trailing_zeros(s) == s.take(k),
    decreases s.len() - k,
{
    if k < s.len() {
        assert(s.drop_last().take(k) =~= s.take(k));
        lemma_strip_trailing(s.drop_last(), k);
    } else {
        assert(s.take(k) =~= s);
    }
}

/// Appends `chars[start..end]` to `s`.
pub fn push_range(s: &mut String, chars: &Vec<char>, start: usize, end: usize)
    requires
        start <= end <= chars.len(),
    ensures
        final(s)@ == old(s)@ + chars@.subrange(start as int, end as int),
{
    let mut i = start;
    while i < end
        invariant
            start <= i <= end <= chars.len(),
            s@ == old(s)@ + chars@.subrange(start as int, i as int),
        decreases end - i,
    {
        push_char(s, chars[i]);
        i = i + 1;
        assert(s@ =~= old(s)@ + chars@.subrange(start as int, i as int));
    }
}

/// Appends the printed form of the number literal `lexeme` to `s`.
pub fn push_number_text(s: &mut String, lexeme: &Vec<char>)
    ensures
        final(s)@ == old(s)@ + number_text(lexeme@),
{
    let ghost lx = lexeme@;
    let n = lexeme.len();
    // the integer part ends at the first '.'
    let mut dot: usize = 0;
    while dot < n && lexeme[dot] != '.'
        invariant
            n == lexeme.len(),
            lx == lexeme@,
            dot <= n,
            forall|j: int| 0 <= j < dot ==> lx[j] != '.',
        decreases n - dot,
    {
        dot = dot + 1;
    }
    proof {
        lemma_first_dot(lx);
        if first_dot(lx) < dot {
            assert(lx[first_dot(lx) as int] == '.');
        }
        if dot < first_dot(lx) {
            assert(lx[dot as int] != '.');
        }
        assert(first_dot(lx) == dot);
    }
    // leading zeros of the integer part, keeping one digit
    let mut i: usize = 0;
    while dot > 0 && i < dot - 1 && lexeme[i] == '0'
        invariant
            n == lexeme.len(),
            lx == lexeme@,
            dot <= n,
            dot > 0 ==> i < dot,
            dot == 0 ==> i == 0,
            forall|j: int| 0 <= j < i ==> lx[j] == '0',
        decreases dot - i,
    {
        i = i + 1;
    }
    let ghost int_part = lx.take(dot as int);
    proof {
        if dot > 0 {
            lemma_strip_leading(int_part, i as int);
            assert(int_part.skip(i as int) =~= lx.subrange(i as int, dot as int));
        } else {
            assert(int_part.len() == 0);
            assert(int_part =~= lx.subrange(0, 0));
        }
    }
    // trailing zeros of the fractional part
    let frac_start: usize = if dot < n { dot + 1 } else { n };
    let mut k: usize = n;
    while k > frac_start && lexeme[k - 1] == '0'
        invariant
            n == lexeme.len(),
            lx == lexeme@,
            frac_start <= k <= n,
            forall|j: int| k <= j < n ==> lx[j] == '0',
        decreases k,
    {
        k = k - 1;
    }
    let ghost frac_all = lx.skip(frac_start as int);
    proof {
        lemma_strip_trailing(frac_all, k - frac_start);
        assert(frac_all.take(k - frac_start) =~= lx.subrange(frac_start as int, k as int));
        if dot >= n {
            assert(frac_all.len() == 0);
        }
    }
    push_range(s, lexeme, i, dot);
    if k == frac_start {
        push_char(s, '.');
        push_char(s, '0');
    } else {
        push_char(s, '.');
        push_range(s, lexeme, frac_start, k);
    }
    assert(s@ =~= old(s)@ + number_text(lx));
}


/// The number of bytes of the UTF-8 encoding of `s`.
pub open spec fn utf8_len(s: Seq<char>) -> nat {
    encode_utf8(s).len()
}

/// Every character takes between one and four bytes.
pub proof fn lemma_scalar_width(c: char)
    ensures
        1 <= encode_scalar(c as u32).len() <= 4,
{
}

/// UTF-8 encoding distributes over concatenation.
pub proof fn lemma_utf8_concat(a: Seq<char>, b: Seq<char>)
    ensures
        encode_utf8(a + b) == encode_utf8(a) + encode_utf8(b),
    decreases a.len(),
{
    if a.len() == 0 {
        assert(a + b =~= b);
        assert(encode_utf8(a) + encode_utf8(b) =~= encode_utf8(b));
    } else {
        assert((a + b).drop_first() =~= a.drop_first() + b);
        lemma_utf8_concat(a.drop_first(), b);
        assert((a + b)[0] == a[0]);
        assert(encode_utf8(a + b) =~= encode_utf8(a) + encode_utf8(b));
    }
}

/// A text takes at least as many bytes as it has characters, and a part of a
/// text takes no more bytes than the whole.
pub proof fn lemma_utf8_len_bounds(s: Seq<char>, i: int, j: int)
    requires
        0 <= i <= j <= s.len(),
    ensures
        s.len() <= utf8_len(s),
        j - i <= utf8_len(s.subrange(i, j)) <= utf8_len(s),
    decreases s.len(),
{
    lemma_utf8_len_at_least(s);
    lemma_utf8_len_at_least(s.subrange(i, j));
    assert(s =~= s.subrange(0, i) + s.subrange(i, j) + s.subrange(j, s.len() as int));
    lemma_utf8_concat(s.subrange(0, i) + s.subrange(i, j), s.subrange(j, s.len() as int));
    lemma_utf8_concat(s.subrange(0, i), s.subrange(i, j));
}

proof fn lemma_utf8_len_at_least(s: Seq<char>)
    ensures
        s.len() <= utf8_len(s),
    decreases s.len(),
{
    if s.len() > 0 {
        lemma_utf8_len_at_least(s.drop_first());
        lemma_scalar_width(s[0]);
    }
}

/// A single character is encoded as its scalar's encoding.
pub proof fn lemma_utf8_single(c: char)
    ensures
        encode_utf8(seq![c]) == encode_scalar(c as u32),
{
    let s = seq![c];
    assert(s.drop_first() =~= Seq::<char>::empty());
    assert(encode_utf8(s.drop_first()) =~= Seq::<u8>::empty());
    assert(encode_utf8(s) =~= encode_scalar(c as u32));
}

/// The number of bytes that `c` takes in UTF-8 (`char::len_utf8`).
pub fn utf8_width(c: char) -> (w: usize)
    ensures
        w == encode_scalar(c as u32).len(),
{
    proof {
        char_is_scalar(c);
    }
    let u = c as u32;
    if u < 0x80 {
        1
    } else if u < 0x800 {
        2
    } else if u < 0x10000 {
        3
    } else {
        4
    }
}

/// The number of bytes that `chars[start..end]` takes in UTF-8.
pub fn utf8_len_of_range(chars: &Vec<char>, start: usize, end: usize) -> (n: usize)
    requires
        start <= end <= chars.len(),
        utf8_len(chars@) <= usize::MAX,
    ensures
        n == utf8_len(chars@.subrange(start as int, end as int)),
{
    let mut n: usize = 0;
    let mut i = start;
    while i < end
        invariant
            start <= i <= end <= chars.len(),
            utf8_len(chars@) <= usize::MAX,
            n == utf8_len(chars@.subrange(start as int, i as int)),
        decreases end - i,
    {
        let ghost before = chars@.subrange(start as int, i as int);
        proof {
            lemma_utf8_concat(before, seq![chars@[i as int]]);
            assert(chars@.subrange(start as int, i + 1) =~= before + seq![chars@[i as int]]);
            lemma_utf8_len_bounds(chars@, start as int, i + 1);
            lemma_utf8_single(chars@[i as int]);
        }
        n = n + utf8_width(chars[i]);
        i = i + 1;
    }
    n
}

} // verus!
