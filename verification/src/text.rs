//! Text helpers shared by the modules: decimal numbers, ASCII case, character sequences.
use vstd::prelude::*;

verus! {

/// The ASCII digit for `d` (`d < 10`).
pub open spec fn digit_char(d: nat) -> char {
    if d == 0 { '0' }
    else if d == 1 { '1' }
    else if d == 2 { '2' }
    else if d == 3 { '3' }
    else if d == 4 { '4' }
    else if d == 5 { '5' }
    else if d == 6 { '6' }
    else if d == 7 { '7' }
    else if d == 8 { '8' }
    else { '9' }
}

/// Decimal digits of `n`, most significant first, no leading zeros (`"0"` for zero).
pub open spec fn dec(n: nat) -> Seq<char>
    decreases n,
{
    if n < 10 {
        seq![digit_char(n)]
    } else {
        dec(n / 10).push(digit_char(n % 10))
    }
}

/// Whether `c` is an ASCII decimal digit.
pub open spec fn is_digit(c: char) -> bool {
    '0' <= c && c <= '9'
}

/// Numeric value of an ASCII digit.
pub open spec fn digit_val(c: char) -> nat {
    (c as int - '0' as int) as nat
}

/// Value of a sequence of decimal digits (most significant first).
pub open spec fn digits_val(s: Seq<char>) -> nat
    decreases s.len(),
{
    if s.len() == 0 {
        0
    } else {
        digits_val(s.drop_last()) * 10 + digit_val(s.last())
    }
}

/// Whether every character of `s` is an ASCII digit.
pub open spec fn all_digits(s: Seq<char>) -> bool {
    forall|i: int| 0 <= i < s.len() ==> is_digit(#[trigger] s[i])
}

/// What `str::parse::<u64>` gives: an optional leading `+`, then at least one digit, only digits,
/// value at most `max`.
pub open spec fn parse_uint(s: Seq<char>, max: nat) -> Option<nat> {
    let body = if s.len() > 0 && s[0] == '+' { s.drop_first() } else { s };
    if body.len() > 0 && all_digits(body) && digits_val(body) <= max {
        Some(digits_val(body))
    } else {
        None
    }
}

/// ASCII upper case of one character.
pub open spec fn upper(c: char) -> char {
    if 'a' <= c && c <= 'z' { ((c as int) - 32) as char } else { c }
}

/// ASCII upper case of a sequence.
pub open spec fn upper_seq(s: Seq<char>) -> Seq<char> {
    Seq::new(s.len(), |i: int| upper(s[i]))
}

/// ASCII lower case of one character.
pub open spec fn lower(c: char) -> char {
    if 'A' <= c && c <= 'Z' { ((c as int) + 32) as char } else { c }
}

/// Whether `s` begins with `p`.
pub open spec fn starts_with(s: Seq<char>, p: Seq<char>) -> bool {
    p.len() <= s.len() && s.subrange(0, p.len() as int) == p
}

/// Whether `s` ends with `p`.
pub open spec fn ends_with(s: Seq<char>, p: Seq<char>) -> bool {
    p.len() <= s.len() && s.subrange(s.len() - p.len(), s.len() as int) == p
}

/// Whether `p` occurs in `s` at index `i`.
pub open spec fn occurs_at(s: Seq<char>, p: Seq<char>, i: int) -> bool {
    0 <= i && i + p.len() <= s.len() && s.subrange(i, i + p.len()) == p
}

/// Whether `p` occurs anywhere in `s`.
pub open spec fn contains(s: Seq<char>, p: Seq<char>) -> bool {
    exists|i: int| occurs_at(s, p, i)
}

/// Index of the first occurrence of `p` in `s`.
pub open spec fn first_index(s: Seq<char>, p: Seq<char>) -> Option<int> {
    if contains(s, p) {
        Some(choose|i: int| occurs_at(s, p, i) && forall|j: int| 0 <= j < i ==> !occurs_at(s, p, j))
    } else {
        None
    }
}

/// Appends one character (`String::push`).
#[verifier::external_body]
pub(crate) fn push_char(s: &mut String, c: char)
    ensures
        final(s)@ == old(s)@.push(c),
{
    s.push(c)
}

/// The characters of `s`.
pub fn chars_of(s: &str) -> (v: Vec<char>)
    ensures
        v@ == s@,
{
    let n = s.unicode_len();
    let mut v: Vec<char> = Vec::new();
    let mut i: usize = 0;
    while i < n
        invariant
            n == s@.len(),
            i <= n,
            v@ == s@.subrange(0, i as int),
        decreases n - i,
    {
        let c = s.get_char(i);
        v.push(c);
        i = i + 1;
        assert(v@ =~= s@.subrange(0, i as int));
    }
    assert(v@ =~= s@);
    v
}

/// A string made of the characters `v[from..to]`.
pub fn string_of(v: &[char], from: usize, to: usize) -> (s: String)
    requires
        from <= to <= v@.len(),
    ensures
        s@ == v@.subrange(from as int, to as int),
{
    let mut s = String::new();
    let mut i = from;
    while i < to
        invariant
            from <= i <= to <= v@.len(),
            s@ == v@.subrange(from as int, i as int),
        decreases to - i,
    {
        push_char(&mut s, v[i]);
        i = i + 1;
        assert(s@ =~= v@.subrange(from as int, i as int));
    }
    s
}

/// Appends a string slice.
pub fn push_str(s: &mut String, t: &str)
    ensures
        final(s)@ == old(s)@ + t@,
{
    s.append(t);
}

/// The ASCII digit for `d`.
fn digit_of(d: u64) -> (c: char)
    requires
        d < 10,
    ensures
        c == digit_char(d as nat),
{
    match d {
        0 => '0',
        1 => '1',
        2 => '2',
        3 => '3',
        4 => '4',
        5 => '5',
        6 => '6',
        7 => '7',
        8 => '8',
        _ => '9',
    }
}

/// Appends the decimal text of `n`.
pub fn push_dec(s: &mut String, n: u64)
    ensures
        final(s)@ == old(s)@ + dec(n as nat),
    decreases n,
{
    if n >= 10 {
        push_dec(s, n / 10);
    }
    push_char(s, digit_of(n % 10));
    assert(s@ =~= old(s)@ + dec(n as nat));
}

/// Whether the character sequences `a[from..]` begin with `p`.
pub fn starts_with_at(a: &[char], from: usize, p: &[char]) -> (b: bool)
    requires
        from <= a@.len(),
    ensures
        b == occurs_at(a@, p@, from as int),
{
    if p.len() > a.len() - from {
        return false;
    }
    let alen = a.len();
    let mut i: usize = 0;
    while i < p.len()
        invariant
            alen == a@.len(),
            from + p@.len() <= a@.len(),
            i <= p@.len(),
            forall|j: int| 0 <= j < i ==> a@[from + j] == p@[j],
        decreases p@.len() - i,
    {
        let k: usize = from + i;
        if a[k] != p[i] {
            assert(a@.subrange(from as int, from + p@.len())[i as int] != p@[i as int]);
            return false;
        }
        i = i + 1;
    }
    assert(a@.subrange(from as int, from + p@.len()) =~= p@);
    true
}

/// Whether `p` occurs in `a`.
pub fn contains_chars(a: &[char], p: &[char]) -> (b: bool)
    ensures
        b == contains(a@, p@),
{
    match find_chars(a, p) {
        Some(_) => true,
        None => false,
    }
}

/// Index of the first occurrence of `p` in `a`.
pub fn find_chars(a: &[char], p: &[char]) -> (r: Option<usize>)
    ensures
        r matches Some(i) ==> occurs_at(a@, p@, i as int) && forall|j: int|
            0 <= j < i ==> !occurs_at(a@, p@, j),
        r is None <==> !contains(a@, p@),
        r matches Some(i) ==> first_index(a@, p@) == Some(i as int),
{
    if p.len() > a.len() {
        assert(!contains(a@, p@));
        return None;
    }
    let mut i: usize = 0;
    if p.len() == 0 {
        assert(a@.subrange(0, 0) =~= p@);
        assert(occurs_at(a@, p@, 0));
        proof {
            let k = choose|k: int| occurs_at(a@, p@, k) && forall|j: int| 0 <= j < k ==> !occurs_at(a@, p@, j);
            if k > 0 {
                assert(a@.subrange(0, 0) =~= p@);
            }
        }
        return Some(0);
    }
    let alen = a.len();
    let last: usize = alen - p.len();
    while i <= last
        invariant
            alen == a@.len(),
            p@.len() > 0,
            p@.len() <= a@.len(),
            last == a@.len() - p@.len(),
            i <= last + 1,
            forall|j: int| 0 <= j < i ==> !occurs_at(a@, p@, j),
        decreases last + 1 - i,
    {
        if starts_with_at(a, i, p) {
            proof {
                let k = choose|k: int| occurs_at(a@, p@, k) && forall|j: int| 0 <= j < k ==> !occurs_at(a@, p@, j);
                assert(occurs_at(a@, p@, k));
                if k < i {
                } else if k > i {
                }
            }
            return Some(i);
        }
        i = i + 1;
    }
    assert forall|j: int| occurs_at(a@, p@, j) implies false by {
        assert(j < i);
    }
    None
}

/// ASCII upper case of one character (`char::to_ascii_uppercase`).
pub fn upper_char(c: char) -> (r: char)
    ensures
        r == upper(c),
{
    if 'a' <= c && c <= 'z' {
        let n = c as u32 - 32;
        char_of(n)
    } else {
        c
    }
}

/// ASCII lower case of one character (`char::to_ascii_lowercase`).
pub fn lower_char(c: char) -> (r: char)
    ensures
        r == lower(c),
{
    if 'A' <= c && c <= 'Z' {
        let n = c as u32 + 32;
        char_of(n)
    } else {
        c
    }
}

/// The character with an ASCII code point.
fn char_of(n: u32) -> (c: char)
    requires
        n < 128,
    ensures
        c as int == n as int,
{
    let b: u8 = n as u8;
    b as char
}

/// ASCII upper case of a sequence.
pub fn upper_chars(a: &[char]) -> (r: Vec<char>)
    ensures
        r@ == upper_seq(a@),
{
    let mut r: Vec<char> = Vec::new();
    let mut i: usize = 0;
    while i < a.len()
        invariant
            i <= a@.len(),
            r@ =~= upper_seq(a@.subrange(0, i as int)),
        decreases a@.len() - i,
    {
        let c = upper_char(a[i]);
        r.push(c);
        i = i + 1;
        assert(r@ =~= upper_seq(a@.subrange(0, i as int)));
    }
    assert(a@.subrange(0, a@.len() as int) =~= a@);
    r
}

/// `str::parse::<u64>` restricted to values at most `max`.
pub fn parse_uint_chars(s: &[char], from: usize, to: usize, max: u64) -> (r: Option<u64>)
    requires
        from <= to <= s@.len(),
    ensures
        r matches Some(v) ==> parse_uint(s@.subrange(from as int, to as int), max as nat) == Some(v as nat),
        r is None ==> parse_uint(s@.subrange(from as int, to as int), max as nat) is None,
{
    let ghost t = s@.subrange(from as int, to as int);
    let mut start = from;
    if start < to && s[start] == '+' {
        start = start + 1;
    }
    let ghost body = s@.subrange(start as int, to as int);
    assert(body =~= (if t.len() > 0 && t[0] == '+' { t.drop_first() } else { t }));
    if start == to {
        return None;
    }
    let mut v: u64 = 0;
    let mut i = start;
    while i < to
        invariant
            start <= i <= to <= s@.len(),
            start < to,
            body == s@.subrange(start as int, to as int),
            t == s@.subrange(from as int, to as int),
            body == (if t.len() > 0 && t[0] == '+' { t.drop_first() } else { t }),
            all_digits(s@.subrange(start as int, i as int)),
            v as nat == digits_val(s@.subrange(start as int, i as int)),
            v <= max,
        decreases to - i,
    {
        let c = s[i];
        let ghost pre = s@.subrange(start as int, i as int);
        let ghost next = s@.subrange(start as int, i + 1);
        assert(next.drop_last() =~= pre);
        if !('0' <= c && c <= '9') {
            assert(!all_digits(body)) by {
                assert(body[i - start] == c);
            }
            return None;
        }
        let d = (c as u32 - '0' as u32) as u64;
        assert(digits_val(next) == digits_val(pre) * 10 + d);
        if d > max || v > (max - d) / 10 {
            proof {
                lemma_digits_val_grows(s@.subrange(start as int, to as int), (i + 1 - start) as int);
                assert(s@.subrange(start as int, to as int).subrange(0, i + 1 - start) =~= next);
            }
            return None;
        }
        v = v * 10 + d;
        i = i + 1;
        assert(all_digits(s@.subrange(start as int, i as int))) by {
            assert forall|k: int| 0 <= k < next.len() implies is_digit(#[trigger] next[k]) by {
                if k < pre.len() {
                    assert(next[k] == pre[k]);
                }
            }
        }
    }
    Some(v)
}

/// A longer digit sequence never has a smaller value than its prefix.
pub proof fn lemma_digits_val_grows(s: Seq<char>, k: int)
    requires
        0 <= k <= s.len(),
    ensures
        digits_val(s.subrange(0, k)) <= digits_val(s),
    decreases s.len() - k,
{
    if k < s.len() {
        lemma_digits_val_grows(s.drop_last(), k);
        assert(s.drop_last().subrange(0, k) =~= s.subrange(0, k));
    } else {
        assert(s.subrange(0, k) =~= s);
    }
}

/// `a / d` rounded to the nearest integer, halves up.
pub open spec fn round_div(a: nat, d: nat) -> nat {
    a / d + (if (a % d) * 2 >= d { 1nat } else { 0nat })
}

/// Absolute value of an `i64` as a natural number.
pub open spec fn abs_nat(v: i64) -> nat {
    if v < 0 { (-(v as int)) as nat } else { v as nat }
}

/// `v / unit` rounded, with a leading `-` for a negative `v`.
pub open spec fn signed_round_text(v: i64, unit: nat) -> Seq<char> {
    let q = round_div(abs_nat(v), unit);
    if v < 0 { seq!['-'] + dec(q) } else { dec(q) }
}

/// `v / unit` with two decimals, rounded, with a leading `-` for a negative `v`.
pub open spec fn signed_hundredths_text(v: i64, unit: nat) -> Seq<char> {
    let q = round_div(abs_nat(v), unit / 100);
    let frac = q % 100;
    let body = dec(q / 100) + seq!['.'] + (if frac < 10 { seq!['0'] + dec(frac) } else { dec(frac) });
    if v < 0 { seq!['-'] + body } else { body }
}

/// Appends `v / unit` rounded to an integer (see [`signed_round_text`]).
pub fn push_signed_round(s: &mut String, v: i64, unit: u64)
    requires
        unit >= 1,
    ensures
        final(s)@ == old(s)@ + signed_round_text(v, unit as nat),
{
    let a: u64 = if v < 0 { (0i128 - v as i128) as u64 } else { v as u64 };
    assert(a as nat == abs_nat(v));
    let r = a % unit;
    let q: u64 = a / unit;
    let up: u64 = if r as u128 * 2 >= unit as u128 { 1 } else { 0 };
    assert(q + up <= u64::MAX) by (nonlinear_arith)
        requires
            unit >= 1,
            q == a / unit,
            up <= 1,
            up == 1 ==> unit >= 2 || r * 2 >= unit,
            r == a % unit,
    {
        if unit == 1 {
            assert(r == 0);
        }
    }
    let qq = q + up;
    if v < 0 {
        push_char(s, '-');
    }
    push_dec(s, qq);
    proof {
        assert(qq as nat == round_div(abs_nat(v), unit as nat));
    }
    assert(s@ =~= old(s)@ + signed_round_text(v, unit as nat));
}

/// Appends `v / unit` with two decimals (see [`signed_hundredths_text`]).
pub fn push_signed_hundredths(s: &mut String, v: i64, unit: u64)
    requires
        unit >= 100,
    ensures
        final(s)@ == old(s)@ + signed_hundredths_text(v, unit as nat),
{
    let a: u64 = if v < 0 { (0i128 - v as i128) as u64 } else { v as u64 };
    assert(a as nat == abs_nat(v));
    let u = unit / 100;
    let r = a % u;
    let q: u64 = a / u;
    let up: u64 = if r as u128 * 2 >= u as u128 { 1 } else { 0 };
    assert(q + up <= u64::MAX) by (nonlinear_arith)
        requires
            u >= 1,
            q == a / u,
            up <= 1,
            up == 1 ==> u >= 2 || r * 2 >= u,
            r == a % u,
    {
        if u == 1 {
            assert(r == 0);
        }
    }
    let qq = q + up;
    assert(qq as nat == round_div(abs_nat(v), (unit / 100) as nat));
    if v < 0 {
        push_char(s, '-');
    }
    push_dec(s, qq / 100);
    push_char(s, '.');
    let frac = qq % 100;
    if frac < 10 {
        push_char(s, '0');
    }
    push_dec(s, frac);
    assert(s@ =~= old(s)@ + signed_hundredths_text(v, unit as nat));
}

/// The text `t` as a `String`.
pub fn owned(t: &str) -> (s: String)
    ensures
        s@ == t@,
{
    let mut s = String::new();
    push_str(&mut s, t);
    proof {
        reveal_strlit("");
    }
    assert(s@ =~= t@);
    s
}

/// `x / (10 · tenth)` with one decimal, rounded, halves up.
pub open spec fn one_decimal(x: nat, tenth: nat) -> Seq<char> {
    let t = round_div(x, tenth);
    dec(t / 10) + seq!['.'] + dec(t % 10)
}

/// `x / (100 · hundredth)` with two decimals, rounded, halves up.
pub open spec fn two_decimals(x: nat, hundredth: nat) -> Seq<char> {
    let t = round_div(x, hundredth);
    let f = t % 100;
    dec(t / 100) + seq!['.'] + (if f < 10 { seq!['0'] + dec(f) } else { dec(f) })
}

/// `n` spaces.
pub open spec fn spaces(n: nat) -> Seq<char> {
    Seq::new(n, |i: int| ' ')
}

/// `t` right-aligned in `w` columns.
pub open spec fn pad_left(t: Seq<char>, w: nat) -> Seq<char> {
    if t.len() < w { spaces((w - t.len()) as nat) + t } else { t }
}

/// `t` left-aligned in `w` columns.
pub open spec fn pad_right(t: Seq<char>, w: nat) -> Seq<char> {
    if t.len() < w { t + spaces((w - t.len()) as nat) } else { t }
}

/// Appends [`one_decimal`].
pub fn push_one_decimal(s: &mut String, x: u64, tenth: u64)
    requires
        tenth >= 2,
    ensures
        final(s)@ == old(s)@ + one_decimal(x as nat, tenth as nat),
{
    let q = x / tenth;
    let r = x % tenth;
    assert(q * 2 <= x) by (nonlinear_arith)
        requires
            q == x / tenth,
            tenth >= 2,
    ;
    let t: u64 = if r >= tenth - r { q + 1 } else { q };
    assert(t as nat == round_div(x as nat, tenth as nat));
    push_dec(s, t / 10);
    push_char(s, '.');
    push_dec(s, t % 10);
    assert(s@ =~= old(s)@ + one_decimal(x as nat, tenth as nat));
}

/// Appends [`two_decimals`].
pub fn push_two_decimals(s: &mut String, x: u64, hundredth: u64)
    requires
        hundredth >= 2,
    ensures
        final(s)@ == old(s)@ + two_decimals(x as nat, hundredth as nat),
{
    let q = x / hundredth;
    let r = x % hundredth;
    assert(q * 2 <= x) by (nonlinear_arith)
        requires
            q == x / hundredth,
            hundredth >= 2,
    ;
    let t: u64 = if r >= hundredth - r { q + 1 } else { q };
    assert(t as nat == round_div(x as nat, hundredth as nat));
    push_dec(s, t / 100);
    push_char(s, '.');
    let f = t % 100;
    if f < 10 {
        push_char(s, '0');
    }
    push_dec(s, f);
    assert(s@ =~= old(s)@ + two_decimals(x as nat, hundredth as nat));
}

/// Appends `n` spaces.
pub fn push_spaces(s: &mut String, n: usize)
    ensures
        final(s)@ == old(s)@ + spaces(n as nat),
{
    let mut i: usize = 0;
    while i < n
        invariant
            i <= n,
            s@ == old(s)@ + spaces(i as nat),
        decreases n - i,
    {
        push_char(s, ' ');
        assert(old(s)@ + spaces((i + 1) as nat) =~= (old(s)@ + spaces(i as nat)).push(' '));
        i = i + 1;
    }
}

/// Appends `t` right-aligned in `w` columns.
pub fn push_pad_left(s: &mut String, t: &str, w: usize)
    ensures
        final(s)@ == old(s)@ + pad_left(t@, w as nat),
{
    let n = t.unicode_len();
    if n < w {
        push_spaces(s, w - n);
    }
    push_str(s, t);
    assert(s@ =~= old(s)@ + pad_left(t@, w as nat));
}

/// Appends `t` left-aligned in `w` columns.
pub fn push_pad_right(s: &mut String, t: &str, w: usize)
    ensures
        final(s)@ == old(s)@ + pad_right(t@, w as nat),
{
    let n = t.unicode_len();
    push_str(s, t);
    if n < w {
        push_spaces(s, w - n);
    }
    assert(s@ =~= old(s)@ + pad_right(t@, w as nat));
}

} // verus!
