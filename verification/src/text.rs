//! Verified text helpers: trimming surrounding whitespace and parsing a
//! decimal number, the two interpretations a bookmark value goes through.

use vstd::prelude::*;

verus! {

/// Whether `c` is a whitespace character (the Unicode `White_Space`
/// code points).
pub open spec fn is_space_char(c: char) -> bool {
    let u = c as u32;
    ||| 0x09 <= u <= 0x0D
    ||| u == 0x20
    ||| u == 0x85
    ||| u == 0xA0
    ||| u == 0x1680
    ||| 0x2000 <= u <= 0x200A
    ||| u == 0x2028
    ||| u == 0x2029
    ||| u == 0x202F
    ||| u == 0x205F
    ||| u == 0x3000
}

/// Runtime test for [`is_space_char`].
fn is_space(c: char) -> (r: bool)
    ensures
        r == is_space_char(c),
{
    let u = c as u32;
    (0x09 <= u && u <= 0x0D) || u == 0x20 || u == 0x85 || u == 0xA0 || u == 0x1680 || (0x2000
        <= u && u <= 0x200A) || u == 0x2028 || u == 0x2029 || u == 0x202F || u == 0x205F || u
        == 0x3000
}

/// `s` without its leading whitespace.
pub open spec fn trim_front_spec(s: Seq<char>) -> Seq<char>
    decreases s.len(),
{
    if s.len() > 0 && is_space_char(s[0]) {
        trim_front_spec(s.drop_first())
    } else {
        s
    }
}

/// `s` without its trailing whitespace.
pub open spec fn trim_back_spec(s: Seq<char>) -> Seq<char>
    decreases s.len(),
{
    if s.len() > 0 && is_space_char(s.last()) {
        trim_back_spec(s.drop_last())
    } else {
        s
    }
}

/// `s` without its leading and trailing whitespace.
pub open spec fn trim_spec(s: Seq<char>) -> Seq<char> {
    trim_back_spec(trim_front_spec(s))
}

/// Dropping leading whitespace is the same as slicing at the first index
/// that does not hold whitespace.
proof fn lemma_trim_front_is_subrange(s: Seq<char>, i: int)
    requires
        0 <= i <= s.len(),
        forall|k: int| 0 <= k < i ==> is_space_char(#[trigger] s[k]),
        i == s.len() || !is_space_char(s[i]),
    ensures
        trim_front_spec(s) == s.subrange(i, s.len() as int),
    decreases i,
{
    if i == 0 {
        assert(trim_front_spec(s) == s);
        assert(s.subrange(0, s.len() as int) =~= s);
    } else {
        assert(is_space_char(s[0]));
        let t = s.drop_first();
        assert(forall|k: int| 0 <= k < i - 1 ==> is_space_char(#[trigger] t[k]));
        lemma_trim_front_is_subrange(t, i - 1);
        assert(t.subrange(i - 1, t.len() as int) =~= s.subrange(i, s.len() as int));
    }
}

/// Dropping trailing whitespace is the same as slicing at one past the
/// last index that does not hold whitespace.
proof fn lemma_trim_back_is_subrange(s: Seq<char>, j: int)
    requires
        0 <= j <= s.len(),
        forall|k: int| j <= k < s.len() ==> is_space_char(#[trigger] s[k]),
        j == 0 || !is_space_char(s[j - 1]),
    ensures
        trim_back_spec(s) == s.subrange(0, j),
    decreases s.len() - j,
{
    if j == s.len() {
        if s.len() > 0 && is_space_char(s.last()) {
            assert(!is_space_char(s[j - 1]));
            assert(false);
        }
        assert(s.subrange(0, j) =~= s);
    } else {
        assert(is_space_char(s.last()));
        let t = s.drop_last();
        assert(forall|k: int| j <= k < t.len() ==> is_space_char(#[trigger] t[k]));
        lemma_trim_back_is_subrange(t, j);
        assert(t.subrange(0, j) =~= s.subrange(0, j));
    }
}

/// A string of nothing but whitespace trims to the empty string.
pub proof fn lemma_trim_all_space_is_empty(s: Seq<char>)
    requires
        forall|k: int| 0 <= k < s.len() ==> is_space_char(#[trigger] s[k]),
    ensures
        trim_spec(s).len() == 0,
{
    lemma_trim_front_is_subrange(s, s.len() as int);
    assert(trim_front_spec(s) =~= Seq::<char>::empty());
}

/// Return `s` with leading and trailing whitespace removed.
pub fn trim_str(s: &str) -> (r: String)
    ensures
        r@ == trim_spec(s@),
{
    let n = s.unicode_len();
    let mut i: usize = 0;
    while i < n && is_space(s.get_char(i))
        invariant
            n == s@.len(),
            0 <= i <= n,
            forall|k: int| 0 <= k < i ==> is_space_char(#[trigger] s@[k]),
        decreases n - i,
    {
        i = i + 1;
    }
    proof {
        lemma_trim_front_is_subrange(s@, i as int);
    }
    if i == n {
        proof {
            assert(trim_front_spec(s@) =~= Seq::<char>::empty());
            assert(trim_spec(s@) =~= Seq::<char>::empty());
        }
        return String::new();
    }
    let mut j: usize = n;
    while j > i && is_space(s.get_char(j - 1))
        invariant
            n == s@.len(),
            0 <= i <= j <= n,
            forall|k: int| j <= k < n ==> is_space_char(#[trigger] s@[k]),
        decreases j,
    {
        j = j - 1;
    }
    let r = s.substring_char(i, j);
    proof {
        let front = s@.subrange(i as int, n as int);
        assert(forall|k: int| j - i <= k < front.len() ==> is_space_char(#[trigger] front[k]));
        if j > i {
            assert(!is_space_char(front[j - i - 1]));
        }
        lemma_trim_back_is_subrange(front, j - i);
        assert(front.subrange(0, j - i) =~= s@.subrange(i as int, j as int));
    }
    String::from_str(r)
}

/// Whether `c` is a decimal digit.
pub open spec fn is_digit_char(c: char) -> bool {
    ('0' as u32) <= (c as u32) <= ('9' as u32)
}

/// The value of the digit `c`, and zero for anything else.
pub open spec fn digit_val(c: char) -> nat {
    if is_digit_char(c) {
        (c as u32 - '0' as u32) as nat
    } else {
        0
    }
}

/// The number written by the digit string `s` (most significant digit
/// first).
pub open spec fn digits_val(s: Seq<char>) -> nat
    decreases s.len(),
{
    if s.len() == 0 {
        0
    } else {
        digits_val(s.drop_last()) * 10 + digit_val(s.last())
    }
}

/// Whether every character of `s` is a decimal digit.
pub open spec fn all_digits(s: Seq<char>) -> bool {
    forall|k: int| 0 <= k < s.len() ==> is_digit_char(#[trigger] s[k])
}

/// What parsing `s` as a decimal `u32` yields: the written number when
/// `s` is one or more digits and the value fits, nothing otherwise.
pub open spec fn parse_u32_spec(s: Seq<char>) -> Option<u32> {
    if s.len() > 0 && all_digits(s) && digits_val(s) <= u32::MAX {
        Some(digits_val(s) as u32)
    } else {
        None
    }
}

/// A longer digit string never writes a smaller number.
proof fn lemma_digits_val_prefix_monotonic(s: Seq<char>, i: int)
    requires
        0 <= i <= s.len(),
    ensures
        digits_val(s.subrange(0, i)) <= digits_val(s),
    decreases s.len() - i,
{
    if i == s.len() {
        assert(s.subrange(0, i) =~= s);
    } else {
        let t = s.subrange(0, i + 1);
        assert(t.drop_last() =~= s.subrange(0, i));
        assert(digits_val(s.subrange(0, i)) <= digits_val(t));
        lemma_digits_val_prefix_monotonic(s, i + 1);
    }
}

/// Parse `s` as a decimal `u32`: one or more digits, no sign, no other
/// characters, rejecting values beyond `u32::MAX`.
pub fn parse_u32(s: &str) -> (r: Option<u32>)
    ensures
        r == parse_u32_spec(s@),
{
    let n = s.unicode_len();
    if n == 0 {
        return None;
    }
    let mut acc: u32 = 0;
    let mut i: usize = 0;
    while i < n
        invariant
            n == s@.len(),
            0 <= i <= n,
            all_digits(s@.subrange(0, i as int)),
            acc == digits_val(s@.subrange(0, i as int)),
        decreases n - i,
    {
        let c = s.get_char(i);
        let u = c as u32;
        if u < '0' as u32 || u > '9' as u32 {
            assert(!is_digit_char(s@[i as int]));
            return None;
        }
        let d = u - '0' as u32;
        let wide: u64 = acc as u64 * 10 + d as u64;
        proof {
            let t = s@.subrange(0, i + 1);
            assert(t.drop_last() =~= s@.subrange(0, i as int));
            assert(digits_val(t) == acc * 10 + d);
        }
        if wide > u32::MAX as u64 {
            proof {
                lemma_digits_val_prefix_monotonic(s@, i + 1);
            }
            return None;
        }
        acc = wide as u32;
        i = i + 1;
    }
    proof {
        assert(s@.subrange(0, n as int) =~= s@);
    }
    Some(acc)
}

/// The digit character writing `d`, for `d` under ten.
pub open spec fn digit_char(d: nat) -> char {
    if d == 0 {
        '0'
    } else if d == 1 {
        '1'
    } else if d == 2 {
        '2'
    } else if d == 3 {
        '3'
    } else if d == 4 {
        '4'
    } else if d == 5 {
        '5'
    } else if d == 6 {
        '6'
    } else if d == 7 {
        '7'
    } else if d == 8 {
        '8'
    } else {
        '9'
    }
}

/// How `v` is written in decimal, most significant digit first and
/// without leading zeros.
pub open spec fn decimal_seq(v: nat) -> Seq<char>
    decreases v,
{
    if v < 10 {
        seq![digit_char(v)]
    } else {
        decimal_seq(v / 10).push(digit_char(v % 10))
    }
}

/// The decimal writing of a number reads back as that number.
pub proof fn lemma_decimal_parses_back(v: nat)
    requires
        v <= u32::MAX,
    ensures
        parse_u32_spec(decimal_seq(v)) == Some(v as u32),
{
    lemma_decimal_seq_value(v);
    assert(decimal_seq(v).len() > 0);
}

/// The decimal writing of `v` is all digits and writes `v`.
proof fn lemma_decimal_seq_value(v: nat)
    ensures
        decimal_seq(v).len() > 0,
        all_digits(decimal_seq(v)),
        digits_val(decimal_seq(v)) == v,
    decreases v,
{
    if v < 10 {
        let s = decimal_seq(v);
        assert(s.len() == 1);
        assert(s.last() == digit_char(v));
        assert(s.drop_last() =~= Seq::<char>::empty());
        assert(digits_val(s.drop_last()) == 0);
        assert(digits_val(s) == digit_val(digit_char(v)));
    } else {
        lemma_decimal_seq_value(v / 10);
        let s = decimal_seq(v);
        let front = decimal_seq(v / 10);
        assert(s.drop_last() =~= front);
        assert(s.last() == digit_char(v % 10));
        assert(digits_val(s) == digits_val(front) * 10 + digit_val(digit_char(v % 10)));
        assert(v / 10 * 10 + v % 10 == v) by {
            vstd::arithmetic::div_mod::lemma_fundamental_div_mod(v as int, 10);
        }
        assert(forall|k: int| 0 <= k < s.len() - 1 ==> #[trigger] s[k] == front[k]);
    }
}

/// A string of digits carries no whitespace, so trimming leaves it
/// alone.
pub proof fn lemma_digits_survive_trim(s: Seq<char>)
    requires
        s.len() > 0,
        all_digits(s),
    ensures
        trim_spec(s) == s,
{
    assert(!is_space_char(s[0]));
    assert(!is_space_char(s.last()));
}

/// The digit string standing for `d`, for `d` under ten.
fn digit_str(d: u32) -> (r: &'static str)
    requires
        d < 10,
    ensures
        r@ == seq![digit_char(d as nat)],
{
    proof {
        reveal_strlit("0");
        reveal_strlit("1");
        reveal_strlit("2");
        reveal_strlit("3");
        reveal_strlit("4");
        reveal_strlit("5");
        reveal_strlit("6");
        reveal_strlit("7");
        reveal_strlit("8");
        reveal_strlit("9");
    }
    let r = match d {
        0 => "0",
        1 => "1",
        2 => "2",
        3 => "3",
        4 => "4",
        5 => "5",
        6 => "6",
        7 => "7",
        8 => "8",
        _ => "9",
    };
    proof {
        assert(r@ =~= seq![digit_char(d as nat)]);
    }
    r
}

/// Write `v` in decimal, most significant digit first and without
/// leading zeros.
pub fn u32_decimal(v: u32) -> (r: String)
    ensures
        r@ == decimal_seq(v as nat),
    decreases v,
{
    if v < 10 {
        String::from_str(digit_str(v))
    } else {
        let mut r = u32_decimal(v / 10);
        r.append(digit_str(v % 10));
        proof {
            assert(decimal_seq((v / 10) as nat) + seq![digit_char((v % 10) as nat)]
                =~= decimal_seq((v / 10) as nat).push(digit_char((v % 10) as nat)));
        }
        r
    }
}

} // verus!
