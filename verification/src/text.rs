//! Character and decimal-number utilities shared by the version grammar,
//! the shebang parser and the listing formatter.

use vstd::prelude::*;

verus! {

/// The ten ASCII decimal digits.
pub open spec fn is_digit_char(c: char) -> bool {
    c == '0' || c == '1' || c == '2' || c == '3' || c == '4' || c == '5' || c == '6' || c == '7'
        || c == '8' || c == '9'
}

/// Numeric value of a decimal digit (meaningful only on digit characters).
pub open spec fn digit_val(c: char) -> nat {
    if c == '0' {
        0
    } else if c == '1' {
        1
    } else if c == '2' {
        2
    } else if c == '3' {
        3
    } else if c == '4' {
        4
    } else if c == '5' {
        5
    } else if c == '6' {
        6
    } else if c == '7' {
        7
    } else if c == '8' {
        8
    } else {
        9
    }
}

/// The digit character for a value below ten.
pub open spec fn digit_char(d: nat) -> char {
    if d == 0 {
        '0'
    } else if d == 1 {
        '1'
    } else if d == 2 {
        '2'
    } else if d == 3 {
        '3'
    } else if d == 4 {
        '4'
    } else if d == 5 {
        '5'
    } else if d == 6 {
        '6'
    } else if d == 7 {
        '7'
    } else if d == 8 {
        '8'
    } else {
        '9'
    }
}

pub open spec fn all_digits(s: Seq<char>) -> bool {
    forall|i: int| 0 <= i < s.len() ==> is_digit_char(#[trigger] s[i])
}

/// The number denoted by a digit string, most significant digit first.
pub open spec fn seq_val(s: Seq<char>) -> nat
    decreases s.len(),
{
    if s.len() == 0 {
        0
    } else {
        seq_val(s.drop_last()) * 10 + digit_val(s.last())
    }
}

/// The canonical decimal digit string of a number (no leading zeros).
pub open spec fn digits_of(n: nat) -> Seq<char>
    decreases n,
{
    if n < 10 {
        seq![digit_char(n)]
    } else {
        digits_of(n / 10).push(digit_char(n % 10))
    }
}

/// A digit string with no leading zero, denoting a value that fits in `u64`.
pub open spec fn is_canonical_number(s: Seq<char>) -> bool {
    &&& s.len() > 0
    &&& all_digits(s)
    &&& (s.len() > 1 ==> s[0] != '0')
    &&& seq_val(s) <= u64::MAX
}

pub proof fn lemma_digit_char_val(d: nat)
    requires
        d < 10,
    ensures
        is_digit_char(digit_char(d)),
        digit_val(digit_char(d)) == d,
{
}

pub proof fn lemma_digit_val_char(c: char)
    requires
        is_digit_char(c),
    ensures
        digit_val(c) < 10,
        digit_char(digit_val(c)) == c,
{
}

/// A digit string's value never shrinks when more digits follow.
pub proof fn lemma_seq_val_prefix(s: Seq<char>, k: int)
    requires
        0 <= k <= s.len(),
    ensures
        seq_val(s.subrange(0, k)) <= seq_val(s),
    decreases s.len() - k,
{
    if k < s.len() {
        lemma_seq_val_prefix(s.drop_last(), k);
        assert(s.drop_last().subrange(0, k) =~= s.subrange(0, k));
    } else {
        assert(s.subrange(0, k) =~= s);
    }
}

/// `digits_of` yields only digits, at least one, with no leading zero.
pub proof fn lemma_digits_of_canonical(n: nat)
    ensures
        digits_of(n).len() >= 1,
        all_digits(digits_of(n)),
        n >= 1 ==> digits_of(n)[0] != '0',
        n == 0 ==> digits_of(n) =~= seq!['0'],
    decreases n,
{
    if n < 10 {
        lemma_digit_char_val(n);
    } else {
        lemma_digits_of_canonical(n / 10);
        lemma_digit_char_val(n % 10);
    }
}

/// A nonempty digit string without a leading zero denotes at least one,
/// and at least ten from two digits on.
pub proof fn lemma_seq_val_lower_bound(s: Seq<char>)
    requires
        s.len() >= 1,
        all_digits(s),
        s[0] != '0',
    ensures
        seq_val(s) >= 1,
        s.len() >= 2 ==> seq_val(s) >= 10,
    decreases s.len(),
{
    if s.len() == 1 {
        assert(s.last() == s[0]);
    } else {
        lemma_seq_val_lower_bound(s.drop_last());
    }
}

/// Formatting the value of a canonical digit string gives the string back.
pub proof fn lemma_digits_of_seq_val(s: Seq<char>)
    requires
        s.len() >= 1,
        all_digits(s),
        s.len() > 1 ==> s[0] != '0',
    ensures
        digits_of(seq_val(s)) =~= s,
    decreases s.len(),
{
    if s.len() == 1 {
        lemma_digit_val_char(s[0]);
        assert(s.last() == s[0]);
        assert(s.drop_last() =~= Seq::<char>::empty());
        assert(seq_val(s.drop_last()) == 0);
        assert(seq_val(s) == digit_val(s[0]));
    } else {
        let p = s.drop_last();
        let d = digit_val(s.last());
        lemma_digit_val_char(s.last());
        lemma_seq_val_lower_bound(p);
        lemma_digits_of_seq_val(p);
        let v = seq_val(s);
        assert(v == seq_val(p) * 10 + d);
        assert(v / 10 == seq_val(p) && v % 10 == d) by (nonlinear_arith)
            requires
                v == seq_val(p) * 10 + d,
                d < 10,
        ;
        assert(v >= 10);
        assert(digits_of(v) =~= digits_of(seq_val(p)).push(digit_char(d)));
    }
}

/// ASCII whitespace, the only whitespace this library recognizes.
pub open spec fn is_space_char(c: char) -> bool {
    c == ' ' || c == '\t' || c == '\r' || c == '\n'
}

/// Index of the first occurrence of `c` in `s`, or `s.len()` if absent.
pub open spec fn first_index_of(s: Seq<char>, c: char) -> int
    decreases s.len(),
{
    if s.len() == 0 {
        0
    } else if s[0] == c {
        0
    } else {
        1 + first_index_of(s.subrange(1, s.len() as int), c)
    }
}

pub proof fn lemma_first_index_of(s: Seq<char>, c: char)
    ensures
        0 <= first_index_of(s, c) <= s.len(),
        first_index_of(s, c) < s.len() ==> s[first_index_of(s, c)] == c,
        forall|i: int| 0 <= i < first_index_of(s, c) ==> #[trigger] s[i] != c,
    decreases s.len(),
{
    if s.len() > 0 && s[0] != c {
        let sub = s.subrange(1, s.len() as int);
        lemma_first_index_of(sub, c);
        assert forall|i: int| 0 <= i < first_index_of(s, c) implies #[trigger] s[i] != c by {
            if i >= 1 {
                assert(sub[i - 1] == s[i]);
            }
        }
    }
}

pub proof fn lemma_first_index_of_at(s: Seq<char>, c: char, i: int)
    requires
        0 <= i <= s.len(),
        forall|j: int| 0 <= j < i ==> #[trigger] s[j] != c,
        i < s.len() ==> s[i] == c,
    ensures
        first_index_of(s, c) == i,
{
    lemma_first_index_of(s, c);
}

/// Index of the first non-space character of `s`, or `s.len()` if all spaces.
pub open spec fn first_non_space(s: Seq<char>) -> int
    decreases s.len(),
{
    if s.len() == 0 {
        0
    } else if !is_space_char(s[0]) {
        0
    } else {
        1 + first_non_space(s.subrange(1, s.len() as int))
    }
}

pub proof fn lemma_first_non_space(s: Seq<char>)
    ensures
        0 <= first_non_space(s) <= s.len(),
        first_non_space(s) < s.len() ==> !is_space_char(s[first_non_space(s)]),
        forall|i: int| 0 <= i < first_non_space(s) ==> is_space_char(#[trigger] s[i]),
    decreases s.len(),
{
    if s.len() > 0 && is_space_char(s[0]) {
        let sub = s.subrange(1, s.len() as int);
        lemma_first_non_space(sub);
        assert forall|i: int| 0 <= i < first_non_space(s) implies is_space_char(
            #[trigger] s[i],
        ) by {
            if i >= 1 {
                assert(sub[i - 1] == s[i]);
            }
        }
    }
}

pub proof fn lemma_first_non_space_at(s: Seq<char>, i: int)
    requires
        0 <= i <= s.len(),
        forall|j: int| 0 <= j < i ==> is_space_char(#[trigger] s[j]),
        i < s.len() ==> !is_space_char(s[i]),
    ensures
        first_non_space(s) == i,
{
    lemma_first_non_space(s);
}

/// Index of the first space character of `s`, or `s.len()` if none.
pub open spec fn first_space(s: Seq<char>) -> int
    decreases s.len(),
{
    if s.len() == 0 {
        0
    } else if is_space_char(s[0]) {
        0
    } else {
        1 + first_space(s.subrange(1, s.len() as int))
    }
}

pub proof fn lemma_first_space(s: Seq<char>)
    ensures
        0 <= first_space(s) <= s.len(),
        first_space(s) < s.len() ==> is_space_char(s[first_space(s)]),
        forall|i: int| 0 <= i < first_space(s) ==> !is_space_char(#[trigger] s[i]),
    decreases s.len(),
{
    if s.len() > 0 && !is_space_char(s[0]) {
        let sub = s.subrange(1, s.len() as int);
        lemma_first_space(sub);
        assert forall|i: int| 0 <= i < first_space(s) implies !is_space_char(
            #[trigger] s[i],
        ) by {
            if i >= 1 {
                assert(sub[i - 1] == s[i]);
            }
        }
    }
}

pub proof fn lemma_first_space_at(s: Seq<char>, i: int)
    requires
        0 <= i <= s.len(),
        forall|j: int| 0 <= j < i ==> !is_space_char(#[trigger] s[j]),
        i < s.len() ==> is_space_char(s[i]),
    ensures
        first_space(s) == i,
{
    lemma_first_space(s);
}

/// End of `s` once trailing spaces are dropped: the index just past the
/// last non-space character, or zero if all of `s` is spaces.
pub open spec fn end_trim(s: Seq<char>) -> int
    decreases s.len(),
{
    if s.len() == 0 {
        0
    } else if is_space_char(s.last()) {
        end_trim(s.drop_last())
    } else {
        s.len() as int
    }
}

pub proof fn lemma_end_trim(s: Seq<char>)
    ensures
        0 <= end_trim(s) <= s.len(),
        end_trim(s) > 0 ==> !is_space_char(s[end_trim(s) - 1]),
        forall|i: int| end_trim(s) <= i < s.len() ==> is_space_char(#[trigger] s[i]),
    decreases s.len(),
{
    if s.len() > 0 && is_space_char(s.last()) {
        lemma_end_trim(s.drop_last());
        assert forall|i: int| end_trim(s) <= i < s.len() implies is_space_char(
            #[trigger] s[i],
        ) by {
            if i < s.len() - 1 {
                assert(s.drop_last()[i] == s[i]);
            } else {
                assert(s[i] == s.last());
            }
        }
    }
}

pub proof fn lemma_end_trim_at(s: Seq<char>, e: int)
    requires
        0 <= e <= s.len(),
        forall|i: int| e <= i < s.len() ==> is_space_char(#[trigger] s[i]),
        e > 0 ==> !is_space_char(s[e - 1]),
    ensures
        end_trim(s) == e,
{
    lemma_end_trim(s);
}

/// `s` with leading and trailing whitespace removed.
pub open spec fn trim_spec(s: Seq<char>) -> Seq<char> {
    let a = first_non_space(s);
    let e = end_trim(s);
    if a < e {
        s.subrange(a, e)
    } else {
        Seq::empty()
    }
}

/// The whitespace-separated words of `s`, in order.
pub open spec fn words(s: Seq<char>) -> Seq<Seq<char>>
    decreases s.len(),
    via words_decreases
{
    if s.len() == 0 {
        Seq::empty()
    } else if is_space_char(s[0]) {
        words(s.subrange(1, s.len() as int))
    } else {
        seq![s.subrange(0, first_space(s))] + words(
            s.subrange(first_space(s), s.len() as int),
        )
    }
}

#[via_fn]
proof fn words_decreases(s: Seq<char>) {
    if s.len() > 0 && !is_space_char(s[0]) {
        lemma_first_space(s);
    }
}

pub fn is_digit(c: char) -> (r: bool)
    ensures
        r == is_digit_char(c),
{
    c == '0' || c == '1' || c == '2' || c == '3' || c == '4' || c == '5' || c == '6' || c == '7'
        || c == '8' || c == '9'
}

pub fn digit_value(c: char) -> (r: u64)
    requires
        is_digit_char(c),
    ensures
        r == digit_val(c),
        r < 10,
{
    if c == '0' {
        0
    } else if c == '1' {
        1
    } else if c == '2' {
        2
    } else if c == '3' {
        3
    } else if c == '4' {
        4
    } else if c == '5' {
        5
    } else if c == '6' {
        6
    } else if c == '7' {
        7
    } else if c == '8' {
        8
    } else {
        9
    }
}

fn digit_str(d: u64) -> (r: &'static str)
    requires
        d < 10,
    ensures
        r@ =~= seq![digit_char(d as nat)],
{
    proof {
        reveal_strlit("0");
        reveal_strlit("1");
        reveal_strlit("2");
        reveal_strlit("3");
        reveal_strlit("4");
        reveal_strlit("5");
        reveal_strlit("6");
        reveal_strlit("7");
        reveal_strlit("8");
        reveal_strlit("9");
    }
    if d == 0 {
        "0"
    } else if d == 1 {
        "1"
    } else if d == 2 {
        "2"
    } else if d == 3 {
        "3"
    } else if d == 4 {
        "4"
    } else if d == 5 {
        "5"
    } else if d == 6 {
        "6"
    } else if d == 7 {
        "7"
    } else if d == 8 {
        "8"
    } else {
        "9"
    }
}

pub fn is_space(c: char) -> (r: bool)
    ensures
        r == is_space_char(c),
{
    c == ' ' || c == '\t' || c == '\r' || c == '\n'
}

/// Strips leading and trailing whitespace.
pub fn trim(s: &str) -> (r: &str)
    ensures
        r@ == trim_spec(s@),
{
    let n = s.unicode_len();
    let mut a: usize = 0;
    while a < n && is_space(s.get_char(a))
        invariant
            0 <= a <= n == s@.len(),
            forall|j: int| 0 <= j < a ==> is_space_char(#[trigger] s@[j]),
        decreases n - a,
    {
        a = a + 1;
    }
    proof {
        lemma_first_non_space_at(s@, a as int);
    }
    let mut e: usize = n;
    while e > 0 && is_space(s.get_char(e - 1))
        invariant
            0 <= e <= n == s@.len(),
            forall|i: int| e <= i < n ==> is_space_char(#[trigger] s@[i]),
        decreases e,
    {
        e = e - 1;
    }
    proof {
        lemma_end_trim_at(s@, e as int);
    }
    if a < e {
        s.substring_char(a, e)
    } else {
        let r = s.substring_char(0, 0);
        proof {
            assert(r@ =~= Seq::<char>::empty());
        }
        r
    }
}

/// Reads the decimal number written in `s` between `from` and `to`;
/// `None` when it does not fit in a `u64`.
pub fn parse_u64_in(s: &str, from: usize, to: usize) -> (r: Option<u64>)
    requires
        from <= to <= s@.len(),
        all_digits(s@.subrange(from as int, to as int)),
    ensures
        match r {
            Some(v) => v == seq_val(s@.subrange(from as int, to as int)),
            None => seq_val(s@.subrange(from as int, to as int)) > u64::MAX,
        },
{
    let ghost sub = s@.subrange(from as int, to as int);
    let mut v: u64 = 0;
    let mut i: usize = from;
    while i < to
        invariant
            from <= i <= to <= s@.len(),
            sub == s@.subrange(from as int, to as int),
            all_digits(sub),
            v == seq_val(s@.subrange(from as int, i as int)),
        decreases to - i,
    {
        let c = s.get_char(i);
        proof {
            assert(sub[i - from] == c);
        }
        let d = digit_value(c);
        let limit = (u64::MAX - d) / 10;
        proof {
            let m = u64::MAX as int - d as int;
            vstd::arithmetic::div_mod::lemma_fundamental_div_mod(m, 10);
            vstd::arithmetic::div_mod::lemma_mod_bound(m, 10);
        }
        if v > limit {
            proof {
                let ext = s@.subrange(from as int, i as int + 1);
                assert(ext.drop_last() =~= s@.subrange(from as int, i as int));
                assert(ext.last() == c);
                assert(seq_val(ext) == v * 10 + digit_val(c));
                assert(ext =~= sub.subrange(0, i - from + 1));
                lemma_seq_val_prefix(sub, i - from + 1);
            }
            return None;
        }
        proof {
            let ext = s@.subrange(from as int, i as int + 1);
            assert(ext.drop_last() =~= s@.subrange(from as int, i as int));
            assert(ext.last() == c);
        }
        v = v * 10 + d;
        i = i + 1;
    }
    proof {
        assert(s@.subrange(from as int, i as int) =~= sub);
    }
    Some(v)
}

/// Whether every character of `s` between `from` and `to` is a digit.
pub fn all_digits_in(s: &str, from: usize, to: usize) -> (r: bool)
    requires
        from <= to <= s@.len(),
    ensures
        r == all_digits(s@.subrange(from as int, to as int)),
{
    let ghost sub = s@.subrange(from as int, to as int);
    let mut i: usize = from;
    while i < to
        invariant
            from <= i <= to <= s@.len(),
            sub == s@.subrange(from as int, to as int),
            forall|j: int| 0 <= j < i - from ==> is_digit_char(#[trigger] sub[j]),
        decreases to - i,
    {
        let c = s.get_char(i);
        proof {
            assert(sub[i - from] == c);
        }
        if !is_digit(c) {
            return false;
        }
        i = i + 1;
    }
    true
}

/// Character-wise string equality.
pub fn str_eq(a: &str, b: &str) -> (r: bool)
    ensures
        r == (a@ == b@),
{
    let na = a.unicode_len();
    let nb = b.unicode_len();
    if na != nb {
        return false;
    }
    let mut i: usize = 0;
    while i < na
        invariant
            0 <= i <= na == a@.len(),
            na == b@.len(),
            forall|j: int| 0 <= j < i ==> #[trigger] a@[j] == b@[j],
        decreases na - i,
    {
        if a.get_char(i) != b.get_char(i) {
            return false;
        }
        i = i + 1;
    }
    proof {
        assert(a@ =~= b@);
    }
    true
}

/// Whether `p` is a prefix of `s`, character by character.
pub fn str_starts_with(s: &str, p: &str) -> (r: bool)
    ensures
        r == p@.is_prefix_of(s@),
{
    let ns = s.unicode_len();
    let np = p.unicode_len();
    if np > ns {
        return false;
    }
    let mut i: usize = 0;
    while i < np
        invariant
            0 <= i <= np == p@.len(),
            np <= ns == s@.len(),
            forall|j: int| 0 <= j < i ==> #[trigger] s@[j] == p@[j],
        decreases np - i,
    {
        if s.get_char(i) != p.get_char(i) {
            proof {
                assert(s@.subrange(0, p@.len() as int)[i as int] != p@[i as int]);
            }
            return false;
        }
        i = i + 1;
    }
    proof {
        assert(s@.subrange(0, p@.len() as int) =~= p@);
    }
    true
}

/// Splits `s` on runs of whitespace, dropping empty pieces.
pub fn split_ws(s: &str) -> (r: Vec<String>)
    ensures
        r@.map_values(|w: String| w@) == words(s@),
{
    let n = s.unicode_len();
    let mut out: Vec<String> = Vec::new();
    let mut i: usize = 0;
    proof {
        assert(s@.subrange(0, n as int) =~= s@);
        assert(out@.map_values(|w: String| w@) =~~= Seq::<Seq<char>>::empty());
    }
    while i < n
        invariant
            0 <= i <= n == s@.len(),
            words(s@) == out@.map_values(|w: String| w@) + words(
                s@.subrange(i as int, n as int),
            ),
        decreases n - i,
    {
        let c = s.get_char(i);
        if is_space(c) {
            proof {
                let rest = s@.subrange(i as int, n as int);
                assert(rest[0] == c);
                assert(rest.subrange(1, rest.len() as int) =~= s@.subrange(
                    i as int + 1,
                    n as int,
                ));
            }
            i = i + 1;
        } else {
            let mut j: usize = i;
            while j < n && !is_space(s.get_char(j))
                invariant
                    i <= j <= n == s@.len(),
                    forall|k: int| i <= k < j ==> !is_space_char(#[trigger] s@[k]),
                decreases n - j,
            {
                j = j + 1;
            }
            let word = s.substring_char(i, j).to_owned();
            proof {
                let rest = s@.subrange(i as int, n as int);
                lemma_first_space_at(rest, j - i);
                assert(rest.subrange(0, j - i) =~= s@.subrange(i as int, j as int));
                assert(rest.subrange(j - i, rest.len() as int) =~= s@.subrange(
                    j as int,
                    n as int,
                ));
                assert(words(rest) =~~= seq![word@] + words(s@.subrange(j as int, n as int)));
                let f = |w: String| w@;
                assert(out@.push(word).map_values(f) =~~= out@.map_values(f) + seq![word@]);
            }
            out.push(word);
            i = j;
        }
    }
    proof {
        assert(s@.subrange(i as int, n as int) =~= Seq::<char>::empty());
        assert(words(s@) =~~= out@.map_values(|w: String| w@));
    }
    out
}

/// Canonical decimal rendering of a number.
pub fn format_u64(v: u64) -> (r: String)
    ensures
        r@ == digits_of(v as nat),
    decreases v,
{
    if v < 10 {
        digit_str(v).to_owned()
    } else {
        let mut s = format_u64(v / 10);
        s.append(digit_str(v % 10));
        proof {
            assert(digits_of((v / 10) as nat) + seq![digit_char((v % 10) as nat)] =~= digits_of(
                v as nat,
            ));
        }
        s
    }
}

} // verus!
