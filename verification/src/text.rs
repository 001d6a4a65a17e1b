//! Character-level helpers shared by the parsers and the naming rules:
//! decimal writing, Unicode white space and control characters, trimming,
//! and the conversions between `String` and sequences of characters.
use vstd::prelude::*;

verus! {

broadcast use vstd::string::group_string_axioms;

/// Appends one character to a `String` (std's `String::push`).
#[verifier::external_body]
pub(crate) fn push_char(s: &mut String, c: char)
    ensures
        final(s)@ == old(s)@.push(c),
{
    s.push(c);
}

/// Compares two string slices (std's `==` on `str`).
#[verifier::external_body]
pub(crate) fn str_eq(a: &str, b: &str) -> (r: bool)
    ensures
        r == (a@ == b@),
{
    a == b
}

/// What std's `str::to_lowercase` returns for a string: each character is
/// replaced by its Unicode lowercase mapping.
pub uninterp spec fn lowercase(s: Seq<char>) -> Seq<char>;

/// Lowercase of one ASCII character (Unicode maps `A`..=`Z` to `a`..=`z`
/// and leaves every other ASCII character unchanged).
pub open spec fn ascii_lower(c: char) -> char {
    if 'A' <= c && c <= 'Z' {
        ((c as u32) + 32) as char
    } else {
        c
    }
}

pub open spec fn all_ascii(s: Seq<char>) -> bool {
    forall|i: int| 0 <= i < s.len() ==> (s[i] as u32) < 128
}

/// std's `str::to_lowercase`. Beyond naming its result, the contract only
/// records what Unicode's lowercase mapping does on ASCII text.
#[verifier::external_body]
pub(crate) fn to_lowercase(s: &str) -> (r: String)
    ensures
        r@ == lowercase(s@),
        all_ascii(s@) ==> r@ == s@.map_values(|c: char| ascii_lower(c)),
{
    s.to_lowercase()
}

/// The characters of a string, in order.
pub fn chars_of(s: &str) -> (r: Vec<char>)
    ensures
        r@ == s@,
{
    let mut r: Vec<char> = Vec::new();
    for c in it: s.chars()
        invariant
            r@ == it.seq().take(it.index() as int),
            it.seq() == s@,
    {
        r.push(c);
    }
    r
}

/// A `String` holding the given characters.
pub fn string_of(cs: &[char]) -> (r: String)
    ensures
        r@ == cs@,
{
    let mut r = String::new();
    let mut i: usize = 0;
    while i < cs.len()
        invariant
            i <= cs.len(),
            r@ == cs@.take(i as int),
        decreases cs.len() - i,
    {
        push_char(&mut r, cs[i]);
        i = i + 1;
        assert(cs@.take(i as int) =~= cs@.take((i - 1) as int).push(cs@[i - 1]));
    }
    assert(cs@.take(i as int) =~= cs@);
    r
}

// ---------- character classes ----------

pub open spec fn is_digit(c: char) -> bool {
    '0' <= c && c <= '9'
}

pub open spec fn digit_value(c: char) -> nat {
    ((c as u32) - ('0' as u32)) as nat
}

/// The Unicode `White_Space` property, which std's `char::is_whitespace`
/// and `str::trim` go by.
pub open spec fn white_space(c: char) -> bool {
    let u = c as u32;
    (0x09 <= u && u <= 0x0d) || u == 0x20 || u == 0x85 || u == 0xa0 || u == 0x1680 || (0x2000
        <= u && u <= 0x200a) || u == 0x2028 || u == 0x2029 || u == 0x202f || u == 0x205f || u
        == 0x3000
}

/// The Unicode general category `Cc`, which std's `char::is_control` goes by.
pub open spec fn control(c: char) -> bool {
    let u = c as u32;
    u <= 0x1f || (0x7f <= u && u <= 0x9f)
}

pub fn is_ascii_digit(c: char) -> (r: bool)
    ensures
        r == is_digit(c),
{
    '0' <= c && c <= '9'
}

pub fn is_white_space(c: char) -> (r: bool)
    ensures
        r == white_space(c),
{
    let u = c as u32;
    (0x09 <= u && u <= 0x0d) || u == 0x20 || u == 0x85 || u == 0xa0 || u == 0x1680 || (0x2000
        <= u && u <= 0x200a) || u == 0x2028 || u == 0x2029 || u == 0x202f || u == 0x205f || u
        == 0x3000
}

pub fn is_control(c: char) -> (r: bool)
    ensures
        r == control(c),
{
    let u = c as u32;
    u <= 0x1f || (0x7f <= u && u <= 0x9f)
}

pub open spec fn all_digits(s: Seq<char>) -> bool {
    forall|i: int| 0 <= i < s.len() ==> is_digit(#[trigger] s[i])
}

pub fn all_ascii_digits(s: &[char]) -> (r: bool)
    ensures
        r == all_digits(s@),
{
    let mut i: usize = 0;
    while i < s.len()
        invariant
            i <= s.len(),
            all_digits(s@.take(i as int)),
        decreases s.len() - i,
    {
        if !is_ascii_digit(s[i]) {
            return false;
        }
        i = i + 1;
        assert(all_digits(s@.take(i as int))) by {
            assert forall|j: int| 0 <= j < i implies is_digit(#[trigger] s@.take(i as int)[j]) by {
                if j < i - 1 {
                    assert(s@.take(i as int)[j] == s@.take((i - 1) as int)[j]);
                }
            }
        }
    }
    assert(s@.take(i as int) =~= s@);
    true
}

// ---------- trimming ----------

/// `s` without its leading white space.
pub open spec fn trim_start(s: Seq<char>) -> Seq<char>
    decreases s.len(),
{
    if s.len() > 0 && white_space(s[0]) {
        trim_start(s.drop_first())
    } else {
        s
    }
}

/// `s` without its trailing white space.
pub open spec fn trim_end(s: Seq<char>) -> Seq<char>
    decreases s.len(),
{
    if s.len() > 0 && white_space(s.last()) {
        trim_end(s.drop_last())
    } else {
        s
    }
}

/// std's `str::trim`: leading and trailing `White_Space` removed.
pub open spec fn trim(s: Seq<char>) -> Seq<char> {
    trim_end(trim_start(s))
}

proof fn lemma_trim_start_skip(s: Seq<char>, i: int)
    requires
        0 <= i <= s.len(),
        forall|j: int| 0 <= j < i ==> white_space(#[trigger] s[j]),
    ensures
        trim_start(s) == trim_start(s.skip(i)),
    decreases i,
{
    if i > 0 {
        assert(s.skip(i) =~= s.drop_first().skip(i - 1));
        assert forall|j: int| 0 <= j < i - 1 implies white_space(#[trigger] s.drop_first()[j]) by {
            assert(s.drop_first()[j] == s[j + 1]);
        }
        lemma_trim_start_skip(s.drop_first(), i - 1);
    } else {
        assert(s.skip(0) =~= s);
    }
}

proof fn lemma_trim_end_take(s: Seq<char>, i: int)
    requires
        0 <= i <= s.len(),
        forall|j: int| i <= j < s.len() ==> white_space(#[trigger] s[j]),
    ensures
        trim_end(s) == trim_end(s.take(i)),
    decreases s.len() - i,
{
    if i < s.len() {
        assert(s.take(i) =~= s.drop_last().take(i));
        assert forall|j: int| i <= j < s.len() - 1 implies white_space(#[trigger] s.drop_last()[j]) by {
            assert(s.drop_last()[j] == s[j]);
        }
        lemma_trim_end_take(s.drop_last(), i);
    } else {
        assert(s.take(i) =~= s);
    }
}

/// std's `str::trim`, on characters.
pub fn trim_chars(s: &[char]) -> (r: Vec<char>)
    ensures
        r@ == trim(s@),
{
    let mut a: usize = 0;
    while a < s.len() && is_white_space(s[a])
        invariant
            a <= s.len(),
            forall|j: int| 0 <= j < a ==> white_space(#[trigger] s@[j]),
        decreases s.len() - a,
    {
        a = a + 1;
    }
    proof {
        lemma_trim_start_skip(s@, a as int);
    }
    let mut b: usize = s.len();
    while b > a && is_white_space(s[b - 1])
        invariant
            a <= b <= s.len(),
            forall|j: int| b <= j < s.len() ==> white_space(#[trigger] s@[j]),
        decreases b,
    {
        b = b - 1;
    }
    let ghost mid = s@.skip(a as int);
    proof {
        assert(!(a < s.len() && white_space(s@[a as int])));
        assert(trim_start(mid) == mid);
        assert forall|j: int| b - a <= j < mid.len() implies white_space(#[trigger] mid[j]) by {
            assert(mid[j] == s@[j + a]);
        }
        lemma_trim_end_take(mid, b - a);
        let t = mid.take(b - a);
        if t.len() > 0 {
            assert(t.last() == s@[b - 1]);
        }
        assert(trim_end(t) == t);
    }
    let mut r: Vec<char> = Vec::new();
    let mut i: usize = a;
    while i < b
        invariant
            a <= i <= b <= s.len(),
            r@ == s@.subrange(a as int, i as int),
        decreases b - i,
    {
        r.push(s[i]);
        i = i + 1;
        assert(r@ =~= s@.subrange(a as int, i as int));
    }
    assert(r@ =~= mid.take(b - a));
    r
}

/// Whether `c` is trimmed by `trim_end_marks`: a dot, or also a space.
pub open spec fn end_mark(c: char, spaces_too: bool) -> bool {
    c == '.' || (spaces_too && c == ' ')
}

/// std's `trim_end_matches('.')` (`spaces_too` false) or
/// `trim_end_matches(['.', ' '])` (`spaces_too` true).
pub open spec fn trim_end_marks(s: Seq<char>, spaces_too: bool) -> Seq<char>
    decreases s.len(),
{
    if s.len() > 0 && end_mark(s.last(), spaces_too) {
        trim_end_marks(s.drop_last(), spaces_too)
    } else {
        s
    }
}

proof fn lemma_trim_end_marks_take(s: Seq<char>, i: int, spaces_too: bool)
    requires
        0 <= i <= s.len(),
        forall|j: int| i <= j < s.len() ==> end_mark(#[trigger] s[j], spaces_too),
    ensures
        trim_end_marks(s, spaces_too) == trim_end_marks(s.take(i), spaces_too),
    decreases s.len() - i,
{
    if i < s.len() {
        assert(s.take(i) =~= s.drop_last().take(i));
        assert forall|j: int| i <= j < s.len() - 1 implies end_mark(
            #[trigger] s.drop_last()[j],
            spaces_too,
        ) by {
            assert(s.drop_last()[j] == s[j]);
        }
        lemma_trim_end_marks_take(s.drop_last(), i, spaces_too);
    } else {
        assert(s.take(i) =~= s);
    }
}

/// `trim_end_marks`, on characters.
pub fn trim_end_dots(s: &[char], spaces_too: bool) -> (r: Vec<char>)
    ensures
        r@ == trim_end_marks(s@, spaces_too),
{
    let mut b: usize = s.len();
    while b > 0 && (s[b - 1] == '.' || (spaces_too && s[b - 1] == ' '))
        invariant
            b <= s.len(),
            forall|j: int| b <= j < s.len() ==> end_mark(#[trigger] s@[j], spaces_too),
        decreases b,
    {
        b = b - 1;
    }
    proof {
        lemma_trim_end_marks_take(s@, b as int, spaces_too);
        let t = s@.take(b as int);
        if t.len() > 0 {
            assert(t.last() == s@[b - 1]);
        }
        assert(trim_end_marks(t, spaces_too) == t);
    }
    let mut r: Vec<char> = Vec::new();
    let mut i: usize = 0;
    while i < b
        invariant
            i <= b <= s.len(),
            r@ == s@.take(i as int),
        decreases b - i,
    {
        r.push(s[i]);
        i = i + 1;
        assert(r@ =~= s@.take(i as int));
    }
    r
}

// ---------- decimal writing ----------

pub open spec fn digit_char(d: nat) -> char {
    if d == 0 {
        '0'
    } else if d == 1 {
        '1'
    } else if d == 2 {
        '2'
    } else if d == 3 {
        '3'
    } else if d == 4 {
        '4'
    } else if d == 5 {
        '5'
    } else if d == 6 {
        '6'
    } else if d == 7 {
        '7'
    } else if d == 8 {
        '8'
    } else {
        '9'
    }
}

/// The decimal writing of `n` (what `to_string` gives for an unsigned integer).
pub open spec fn dec(n: nat) -> Seq<char>
    decreases n,
{
    if n < 10 {
        seq![digit_char(n)]
    } else {
        dec(n / 10).push(digit_char(n % 10))
    }
}

/// `{:02}`: the decimal writing, padded with a zero to two characters.
pub open spec fn dec2(n: nat) -> Seq<char> {
    if n < 10 {
        seq!['0', digit_char(n)]
    } else {
        dec(n)
    }
}

/// The decimal writing of a signed integer.
pub open spec fn idec(i: int) -> Seq<char> {
    if i < 0 {
        seq!['-'] + dec((-i) as nat)
    } else {
        dec(i as nat)
    }
}

/// The number that a string of decimal digits stands for.
pub open spec fn digits_value(s: Seq<char>) -> nat
    decreases s.len(),
{
    if s.len() == 0 {
        0
    } else {
        digits_value(s.drop_last()) * 10 + digit_value(s.last())
    }
}

pub proof fn lemma_digit_char(d: nat)
    requires
        d < 10,
    ensures
        is_digit(digit_char(d)),
        digit_value(digit_char(d)) == d,
{
}

pub proof fn lemma_dec_digits(n: nat)
    ensures
        all_digits(dec(n)),
        dec(n).len() >= 1,
        digits_value(dec(n)) == n,
    decreases n,
{
    if n < 10 {
        lemma_digit_char(n);
        assert(dec(n).drop_last() =~= Seq::<char>::empty());
        assert(digits_value(Seq::<char>::empty()) == 0);
        assert(dec(n).last() == digit_char(n));
    } else {
        lemma_dec_digits(n / 10);
        lemma_digit_char(n % 10);
        let s = dec(n);
        assert(s.drop_last() =~= dec(n / 10));
        assert(s.last() == digit_char(n % 10));
        assert(digits_value(s) == digits_value(dec(n / 10)) * 10 + digit_value(digit_char(n % 10)));
        assert(n == (n / 10) * 10 + n % 10);
        assert forall|i: int| 0 <= i < s.len() implies is_digit(#[trigger] s[i]) by {
            if i < s.len() - 1 {
                assert(s[i] == dec(n / 10)[i]);
            }
        }
    }
}

/// Distinct numbers are written differently.
pub proof fn lemma_dec_injective(a: nat, b: nat)
    requires
        dec(a) == dec(b),
    ensures
        a == b,
{
    lemma_dec_digits(a);
    lemma_dec_digits(b);
}

fn digit(d: u64) -> (c: char)
    requires
        d < 10,
    ensures
        c == digit_char(d as nat),
{
    if d == 0 {
        '0'
    } else if d == 1 {
        '1'
    } else if d == 2 {
        '2'
    } else if d == 3 {
        '3'
    } else if d == 4 {
        '4'
    } else if d == 5 {
        '5'
    } else if d == 6 {
        '6'
    } else if d == 7 {
        '7'
    } else if d == 8 {
        '8'
    } else {
        '9'
    }
}

/// The decimal writing of `n`.
pub fn dec_chars(n: u64) -> (r: Vec<char>)
    ensures
        r@ == dec(n as nat),
{
    let mut q = n;
    let mut acc: Vec<char> = Vec::new();
    while q >= 10
        invariant
            dec(n as nat) == dec(q as nat) + acc@,
        decreases q,
    {
        let c = digit(q % 10);
        let ghost old_acc = acc@;
        let ghost old_q = q;
        acc.insert(0, c);
        q = q / 10;
        assert(dec(old_q as nat) == dec(q as nat).push(c));
        assert(dec(q as nat) + acc@ =~= dec(q as nat).push(c) + old_acc);
    }
    let c = digit(q);
    let ghost old_acc = acc@;
    acc.insert(0, c);
    assert(acc@ =~= seq![c] + old_acc);
    acc
}

/// `{:02}` of `n`.
pub fn dec2_chars(n: u64) -> (r: Vec<char>)
    ensures
        r@ == dec2(n as nat),
{
    if n < 10 {
        let mut r: Vec<char> = Vec::new();
        r.push('0');
        r.push(digit(n));
        assert(r@ =~= seq!['0', digit_char(n as nat)]);
        r
    } else {
        dec_chars(n)
    }
}

/// The decimal writing of a signed integer.
pub fn idec_chars(i: i64) -> (r: Vec<char>)
    ensures
        r@ == idec(i as int),
{
    if i < 0 {
        let m: u64 = if i == i64::MIN {
            9223372036854775808u64
        } else {
            (-i) as u64
        };
        let d = dec_chars(m);
        let mut r: Vec<char> = Vec::new();
        r.push('-');
        let mut k: usize = 0;
        while k < d.len()
            invariant
                k <= d.len(),
                r@ == seq!['-'] + d@.take(k as int),
            decreases d.len() - k,
        {
            r.push(d[k]);
            k = k + 1;
            assert(r@ =~= seq!['-'] + d@.take(k as int));
        }
        assert(d@.take(k as int) =~= d@);
        r
    } else {
        dec_chars(i as u64)
    }
}

/// Appends characters at the end of a vector.
pub fn append_chars(v: &mut Vec<char>, s: &[char])
    ensures
        final(v)@ == old(v)@ + s@,
{
    let mut i: usize = 0;
    while i < s.len()
        invariant
            i <= s.len(),
            v@ == old(v)@ + s@.take(i as int),
        decreases s.len() - i,
    {
        v.push(s[i]);
        i = i + 1;
        assert(v@ =~= old(v)@ + s@.take(i as int));
    }
    assert(s@.take(i as int) =~= s@);
}

} // verus!
