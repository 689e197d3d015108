//! Character-sequence utilities: searching, splitting, copying.
//!
//! All parsing in this crate works over `Vec<char>` / `&[char]`, whose view is
//! the same `Seq<char>` that a `String`'s view gives, so contracts connect
//! directly to the strings the callers hold.

use vstd::prelude::*;
use vstd::std_specs::iter::IteratorSpec;

verus! {

/// Index of the first occurrence of `c` in `s`, if any.
pub open spec fn find_char(s: Seq<char>, c: char) -> Option<int>
    decreases s.len(),
{
    if s.len() == 0 {
        None
    } else if s[0] == c {
        Some(0int)
    } else {
        match find_char(s.drop_first(), c) {
            Some(i) => Some(i + 1),
            None => None,
        }
    }
}

/// `find_char` returns the least index holding `c`, or `None` when `c` is absent.
pub proof fn lemma_find_char(s: Seq<char>, c: char)
    ensures
        match find_char(s, c) {
            Some(i) => 0 <= i < s.len() && s[i] == c && (forall|j: int| 0 <= j < i ==> s[j] != c),
            None => forall|j: int| 0 <= j < s.len() ==> s[j] != c,
        },
    decreases s.len(),
{
    if s.len() > 0 && s[0] != c {
        let t = s.drop_first();
        lemma_find_char(t, c);
        assert(forall|j: int| 0 <= j < t.len() ==> t[j] == s[j + 1]);
        match find_char(t, c) {
            Some(i) => {
                assert(find_char(s, c) == Some(i + 1));
                assert(s[i + 1] == t[i]);
                assert forall|j: int| 0 <= j < i + 1 implies s[j] != c by {
                    if j > 0 {
                        assert(t[j - 1] != c);
                    }
                }
            },
            None => {
                assert forall|j: int| 0 <= j < s.len() implies s[j] != c by {
                    if j > 0 {
                        assert(t[j - 1] != c);
                    }
                }
            },
        }
    }
}

/// Split at the first occurrence of `c`: the part before it, and, when `c`
/// occurs, the part after it.
pub open spec fn split_first_at(s: Seq<char>, c: char) -> (Seq<char>, Option<Seq<char>>) {
    match find_char(s, c) {
        Some(i) => (s.take(i), Some(s.skip(i + 1))),
        None => (s, None),
    }
}

/// Copy `v[a..b]` into a fresh vector.
pub fn copy_range<T: Copy>(v: &[T], a: usize, b: usize) -> (r: Vec<T>)
    requires
        a <= b <= v@.len(),
    ensures
        r@ == v@.subrange(a as int, b as int),
{
    let mut r: Vec<T> = Vec::new();
    let mut i: usize = a;
    while i < b
        invariant
            a <= i <= b <= v@.len(),
            r@ == v@.subrange(a as int, i as int),
        decreases b - i,
    {
        r.push(v[i]);
        assert(v@.subrange(a as int, i + 1) =~= v@.subrange(a as int, i as int).push(v@[i as int]));
        i = i + 1;
    }
    r
}

/// First index of `c` in `v`, scanning forward.
pub fn find_char_in(v: &[char], c: char) -> (r: Option<usize>)
    ensures
        match r {
            Some(i) => find_char(v@, c) == Some(i as int),
            None => find_char(v@, c) is None,
        },
{
    let n = v.len();
    let mut i: usize = 0;
    while i < n
        invariant
            0 <= i <= n == v@.len(),
            forall|j: int| 0 <= j < i ==> v@[j] != c,
        decreases n - i,
    {
        if v[i] == c {
            proof {
                lemma_find_char(v@, c);
                match find_char(v@, c) {
                    Some(i0) => {
                        if i0 < i as int {
                            assert(v@[i0] != c);
                        } else if i0 > i as int {
                            assert(v@[i as int] != c);
                        }
                    },
                    None => {
                        assert(v@[i as int] != c);
                    },
                }
            }
            return Some(i);
        }
        i = i + 1;
    }
    proof {
        lemma_find_char(v@, c);
        match find_char(v@, c) {
            Some(i0) => {
                assert(v@[i0] != c);
            },
            None => {},
        }
    }
    None
}

/// Whether `v` holds `c` anywhere.
pub fn contains_char(v: &[char], c: char) -> (r: bool)
    ensures
        r == v@.contains(c),
{
    proof {
        lemma_find_char(v@, c);
    }
    match find_char_in(v, c) {
        Some(i) => {
            assert(v@[i as int] == c);
            true
        },
        None => {
            assert(forall|j: int| 0 <= j < v@.len() ==> v@[j] != c);
            false
        },
    }
}

/// Element-wise equality of two character slices.
pub fn chars_eq(a: &[char], b: &[char]) -> (r: bool)
    ensures
        r == (a@ == b@),
{
    if a.len() != b.len() {
        assert(a@ != b@);
        return false;
    }
    let n = a.len();
    let mut i: usize = 0;
    while i < n
        invariant
            0 <= i <= n == a@.len() == b@.len(),
            forall|j: int| 0 <= j < i ==> a@[j] == b@[j],
        decreases n - i,
    {
        if a[i] != b[i] {
            assert(a@ != b@);
            return false;
        }
        i = i + 1;
    }
    assert(a@ =~= b@);
    true
}

/// Decimal digit characters.
pub open spec fn is_dec_digit(c: char) -> bool {
    '0' <= c && c <= '9'
}

/// Numeric value of a decimal digit character.
pub open spec fn char_digit(c: char) -> int {
    c as int - '0' as int
}

/// The digit character for a value below ten.
pub open spec fn digit_char(d: int) -> char {
    if d == 0 {
        '0'
    } else if d == 1 {
        '1'
    } else if d == 2 {
        '2'
    } else if d == 3 {
        '3'
    } else if d == 4 {
        '4'
    } else if d == 5 {
        '5'
    } else if d == 6 {
        '6'
    } else if d == 7 {
        '7'
    } else if d == 8 {
        '8'
    } else {
        '9'
    }
}

/// The shortest decimal rendering of a non-negative number.
pub open spec fn dec_str(n: int) -> Seq<char>
    decreases n,
{
    if n < 10 {
        seq![digit_char(n)]
    } else {
        dec_str(n / 10).push(digit_char(n % 10))
    }
}

pub open spec fn all_digits(s: Seq<char>) -> bool {
    forall|i: int| 0 <= i < s.len() ==> is_dec_digit(s[i])
}

/// Value of a digit string, most significant digit first.
pub open spec fn dec_val(s: Seq<char>) -> int
    decreases s.len(),
{
    if s.len() == 0 {
        0
    } else {
        dec_val(s.drop_last()) * 10 + char_digit(s.last())
    }
}

/// Parsing a decimal string into `u32`: defined exactly on non-empty
/// all-digit strings whose value fits.
pub open spec fn parse_u32(s: Seq<char>) -> Option<u32> {
    if s.len() > 0 && all_digits(s) && dec_val(s) <= u32::MAX {
        Some(dec_val(s) as u32)
    } else {
        None
    }
}

/// Parsing with the store's lenient fallback: anything unparsable counts as 0.
pub open spec fn parse_u32_or_zero(s: Seq<char>) -> u32 {
    match parse_u32(s) {
        Some(v) => v,
        None => 0,
    }
}

/// `dec_str` yields digits only, at least one of them.
pub proof fn lemma_dec_str_digits(n: int)
    requires
        n >= 0,
    ensures
        dec_str(n).len() >= 1,
        all_digits(dec_str(n)),
    decreases n,
{
    if n < 10 {
        assert(is_dec_digit(digit_char(n)));
    } else {
        lemma_dec_str_digits(n / 10);
        let s = dec_str(n);
        assert(is_dec_digit(digit_char(n % 10)));
        assert(forall|i: int| 0 <= i < s.len() - 1 ==> s[i] == dec_str(n / 10)[i]);
    }
}

/// Rendering then evaluating a number gives the number back.
pub proof fn lemma_dec_val_of_dec_str(n: int)
    requires
        n >= 0,
    ensures
        dec_val(dec_str(n)) == n,
    decreases n,
{
    if n < 10 {
        let s = seq![digit_char(n)];
        assert(dec_str(n) == s);
        assert(s.drop_last() =~= Seq::<char>::empty());
        assert(dec_val(Seq::<char>::empty()) == 0);
        assert(dec_val(s) == char_digit(s.last()));
        assert(char_digit(digit_char(n)) == n);
    } else {
        lemma_dec_val_of_dec_str(n / 10);
        let s = dec_str(n);
        assert(s.drop_last() == dec_str(n / 10));
        assert(char_digit(digit_char(n % 10)) == n % 10);
    }
}

pub proof fn lemma_dec_val_nonneg(s: Seq<char>)
    requires
        all_digits(s),
    ensures
        dec_val(s) >= 0,
    decreases s.len(),
{
    if s.len() > 0 {
        assert(all_digits(s.drop_last()));
        lemma_dec_val_nonneg(s.drop_last());
        assert(char_digit(s.last()) >= 0);
    }
}

/// A digit string is worth at least any of its prefixes.
pub proof fn lemma_dec_val_prefix(s: Seq<char>, i: int)
    requires
        all_digits(s),
        0 <= i <= s.len(),
    ensures
        dec_val(s.take(i)) <= dec_val(s),
    decreases s.len() - i,
{
    if i < s.len() {
        lemma_dec_val_prefix(s, i + 1);
        let t = s.take(i + 1);
        assert(t.drop_last() =~= s.take(i));
        assert(all_digits(s.take(i)));
        lemma_dec_val_nonneg(s.take(i));
        assert(dec_val(t) == dec_val(s.take(i)) * 10 + char_digit(t.last()));
        assert(char_digit(t.last()) >= 0);
    } else {
        assert(s.take(i) =~= s);
    }
}

/// The digit character for a value below ten, executable form.
pub fn digit_char_exec(d: u32) -> (c: char)
    requires
        d < 10,
    ensures
        c == digit_char(d as int),
{
    match d {
        0 => '0',
        1 => '1',
        2 => '2',
        3 => '3',
        4 => '4',
        5 => '5',
        6 => '6',
        7 => '7',
        8 => '8',
        _ => '9',
    }
}

/// Decimal digits of `n`, most significant first.
pub fn u32_digits(n: u32) -> (r: Vec<char>)
    ensures
        r@ == dec_str(n as int),
    decreases n,
{
    if n < 10 {
        let mut r: Vec<char> = Vec::new();
        r.push(digit_char_exec(n));
        assert(r@ =~= seq![digit_char(n as int)]);
        r
    } else {
        let mut r = u32_digits(n / 10);
        r.push(digit_char_exec(n % 10));
        r
    }
}

/// Parse a decimal `u32`, exactly as `parse_u32` says.
pub fn parse_u32_chars(v: &[char]) -> (r: Option<u32>)
    ensures
        r == parse_u32(v@),
{
    let n = v.len();
    if n == 0 {
        return None;
    }
    let mut acc: u32 = 0;
    let mut i: usize = 0;
    while i < n
        invariant
            0 < n == v@.len(),
            0 <= i <= n,
            all_digits(v@.take(i as int)),
            acc == dec_val(v@.take(i as int)),
        decreases n - i,
    {
        let c = v[i];
        if !('0' <= c && c <= '9') {
            assert(!is_dec_digit(v@[i as int]));
            return None;
        }
        let d: u32 = (c as u32) - ('0' as u32);
        assert(d == char_digit(v@[i as int]) && d < 10);
        if acc > (u32::MAX - d) / 10 {
            proof {
                let t = v@.take(i + 1);
                assert(t.drop_last() =~= v@.take(i as int));
                assert(all_digits(t));
                assert(dec_val(t) == acc * 10 + d);
                assert(acc * 10 + d > u32::MAX) by (nonlinear_arith)
                    requires
                        acc > (u32::MAX - d) / 10 && d < 10,
                {}
                if all_digits(v@) {
                    lemma_dec_val_prefix(v@, i + 1);
                }
            }
            return None;
        }
        proof {
            let t = v@.take(i + 1);
            assert(t.drop_last() =~= v@.take(i as int));
            assert(t.last() == v@[i as int]);
        }
        acc = acc * 10 + d;
        i = i + 1;
    }
    assert(v@.take(n as int) =~= v@);
    Some(acc)
}

/// `sep` occurs in `s` at position `i`.
pub open spec fn match_at(s: Seq<char>, sep: Seq<char>, i: int) -> bool {
    0 <= i && i + sep.len() <= s.len() && s.subrange(i, i + sep.len()) == sep
}

/// Index of the first occurrence of `sep` in `s`, if any.
pub open spec fn find_sub(s: Seq<char>, sep: Seq<char>) -> Option<int>
    decreases s.len(),
{
    if s.len() < sep.len() {
        None
    } else if s.take(sep.len() as int) == sep {
        Some(0int)
    } else if s.len() == 0 {
        None
    } else {
        match find_sub(s.drop_first(), sep) {
            Some(i) => Some(i + 1),
            None => None,
        }
    }
}

/// `find_sub` returns the least position where `sep` occurs, or `None` when
/// it occurs nowhere.
pub proof fn lemma_find_sub(s: Seq<char>, sep: Seq<char>)
    ensures
        match find_sub(s, sep) {
            Some(i) => match_at(s, sep, i) && (forall|j: int| 0 <= j < i ==> !match_at(s, sep, j)),
            None => forall|j: int| !match_at(s, sep, j),
        },
    decreases s.len(),
{
    if s.len() < sep.len() {
        assert forall|j: int| !match_at(s, sep, j) by {
            if 0 <= j {
                assert(j + sep.len() > s.len());
            }
        }
    } else if s.take(sep.len() as int) == sep {
        assert(s.subrange(0, sep.len() as int) == s.take(sep.len() as int));
    } else if s.len() == 0 {
        assert(s.take(sep.len() as int) =~= sep);
    } else {
        let t = s.drop_first();
        lemma_find_sub(t, sep);
        assert forall|j: int| 0 <= j && j + sep.len() <= t.len() implies #[trigger] t.subrange(
            j,
            j + sep.len(),
        ) =~= s.subrange(j + 1, j + 1 + sep.len()) by {
            let a = t.subrange(j, j + sep.len() as int);
            let b = s.subrange(j + 1, j + 1 + sep.len() as int);
            assert forall|k: int| 0 <= k < sep.len() implies a[k] == b[k] by {
                assert(a[k] == t[j + k]);
                assert(t[j + k] == s[j + k + 1]);
            }
        }
        assert(!match_at(s, sep, 0)) by {
            assert(s.subrange(0, sep.len() as int) == s.take(sep.len() as int));
        }
        match find_sub(t, sep) {
            Some(i) => {
                assert(match_at(t, sep, i));
                assert(match_at(s, sep, i + 1));
                assert forall|j: int| 0 <= j < i + 1 implies !match_at(s, sep, j) by {
                    if j > 0 {
                        assert(!match_at(t, sep, j - 1));
                    }
                }
            },
            None => {
                assert forall|j: int| !match_at(s, sep, j) by {
                    if j > 0 {
                        assert(!match_at(t, sep, j - 1));
                    }
                }
            },
        }
    }
}

/// Split `s` on every occurrence of `sep`, keeping empty parts, as the
/// standard `split` of a string does.
pub open spec fn split_on(s: Seq<char>, sep: Seq<char>) -> Seq<Seq<char>>
    decreases s.len(),
    when sep.len() > 0
    via split_on_decreases
{
    match find_sub(s, sep) {
        None => seq![s],
        Some(i) => seq![s.take(i)] + split_on(s.skip(i + sep.len()), sep),
    }
}

#[via_fn]
proof fn split_on_decreases(s: Seq<char>, sep: Seq<char>) {
    lemma_find_sub(s, sep);
}

/// First occurrence of `sep` in `v`, scanning forward.
pub fn find_sub_in(v: &[char], sep: &[char]) -> (r: Option<usize>)
    requires
        sep@.len() > 0,
    ensures
        match r {
            Some(i) => find_sub(v@, sep@) == Some(i as int),
            None => find_sub(v@, sep@) is None,
        },
{
    let n = v.len();
    let m = sep.len();
    if n < m {
        proof {
            lemma_find_sub(v@, sep@);
            if let Some(i0) = find_sub(v@, sep@) {
                assert(match_at(v@, sep@, i0));
            }
        }
        return None;
    }
    let mut i: usize = 0;
    while i <= n - m
        invariant
            0 < m == sep@.len() <= n == v@.len(),
            0 <= i <= n - m + 1,
            forall|j: int| 0 <= j < i ==> !match_at(v@, sep@, j),
        decreases n - i,
    {
        let window = copy_range(v, i, i + m);
        if chars_eq(window.as_slice(), sep) {
            proof {
                assert(match_at(v@, sep@, i as int));
                lemma_find_sub(v@, sep@);
                match find_sub(v@, sep@) {
                    Some(i0) => {
                        if i0 < i as int {
                            assert(!match_at(v@, sep@, i0));
                        } else if i0 > i as int {
                            assert(!match_at(v@, sep@, i as int));
                        }
                    },
                    None => {
                        assert(!match_at(v@, sep@, i as int));
                    },
                }
            }
            return Some(i);
        }
        proof {
            assert(v@.subrange(i as int, i + m) != sep@);
        }
        i = i + 1;
    }
    proof {
        lemma_find_sub(v@, sep@);
        if let Some(i0) = find_sub(v@, sep@) {
            assert(match_at(v@, sep@, i0));
            assert(i0 + m <= n);
            assert(!match_at(v@, sep@, i0));
        }
    }
    None
}

/// Split `v` on every occurrence of `sep`, keeping empty parts.
pub fn split_on_chars(v: &[char], sep: &[char]) -> (r: Vec<Vec<char>>)
    requires
        sep@.len() > 0,
    ensures
        r@.map_values(|p: Vec<char>| p@) == split_on(v@, sep@),
    decreases v@.len(),
{
    match find_sub_in(v, sep) {
        None => {
            let part = copy_range(v, 0, v.len());
            let mut r: Vec<Vec<char>> = Vec::new();
            r.push(part);
            assert(v@.subrange(0, v@.len() as int) =~= v@);
            assert(r@.map_values(|p: Vec<char>| p@) =~= seq![v@]);
            r
        },
        Some(i) => {
            proof {
                lemma_find_sub(v@, sep@);
                assert(match_at(v@, sep@, i as int));
                assert(i as int + sep@.len() <= v@.len());
            }
            let vlen = v.len();
            let head = copy_range(v, 0, i);
            let tail = copy_range(v, i + sep.len(), vlen);
            assert(tail@ == v@.skip(i + sep@.len() as int));
            let mut r = split_on_chars(tail.as_slice(), sep);
            r.insert(0, head);
            proof {
                let f = |p: Vec<char>| p@;
                let rest = split_on(v@.skip(i + sep@.len() as int), sep@);
                assert(r@.map_values(f) =~= seq![v@.take(i as int)] + rest);
            }
            r
        },
    }
}

/// A split yields at least one part.
pub proof fn lemma_split_on_nonempty(s: Seq<char>, sep: Seq<char>)
    requires
        sep.len() > 0,
    ensures
        split_on(s, sep).len() >= 1,
{
    lemma_find_sub(s, sep);
    match find_sub(s, sep) {
        None => {},
        Some(i) => {},
    }
}

/// Searching for a one-character separator is searching for the character.
pub proof fn lemma_find_sub_single(s: Seq<char>, c: char)
    ensures
        find_sub(s, seq![c]) == find_char(s, c),
{
    lemma_find_sub(s, seq![c]);
    lemma_find_char(s, c);
    assert forall|i: int| #[trigger] match_at(s, seq![c], i) <==> 0 <= i < s.len() && s[i]
        == c by {
        if 0 <= i < s.len() {
            if s[i] == c {
                assert(s.subrange(i, i + 1) =~= seq![c]);
            }
            if match_at(s, seq![c], i) {
                assert(s.subrange(i, i + 1)[0] == s[i]);
            }
        }
    }
    match (find_sub(s, seq![c]), find_char(s, c)) {
        (Some(i), Some(j)) => {
            assert(match_at(s, seq![c], i));
            assert(s[j] == c);
            if i < j {
                assert(s[i] != c);
            } else if j < i {
                assert(!match_at(s, seq![c], j));
            }
        },
        (Some(i), None) => {
            assert(s[i] != c);
        },
        (None, Some(j)) => {
            assert(!match_at(s, seq![c], j));
        },
        (None, None) => {},
    }
}

/// Splitting on a one-character separator distributes over concatenation at
/// an occurrence of that character.
pub proof fn lemma_split_on_char_concat(a: Seq<char>, b: Seq<char>, c: char)
    ensures
        split_on(a + seq![c] + b, seq![c]) == split_on(a, seq![c]) + split_on(b, seq![c]),
    decreases a.len(),
{
    let sep = seq![c];
    let s = a + seq![c] + b;
    lemma_find_sub_single(s, c);
    lemma_find_sub_single(a, c);
    lemma_find_char(s, c);
    lemma_find_char(a, c);
    match find_char(a, c) {
        None => {
            // the first occurrence in the whole text is the joining character
            assert(s[a.len() as int] == c);
            assert forall|j: int| 0 <= j < a.len() implies s[j] != c by {
                assert(s[j] == a[j]);
            }
            match find_char(s, c) {
                Some(i) => {
                    if i < a.len() {
                        assert(s[i] != c);
                    } else if i > a.len() {
                        assert(s[a.len() as int] != c);
                    }
                    assert(i == a.len());
                    assert(s.take(i) =~= a);
                    assert(s.skip(i + 1) =~= b);
                    assert(split_on(s, sep) == seq![a] + split_on(b, sep));
                    assert(split_on(a, sep) == seq![a]);
                    assert(seq![a] + split_on(b, sep) =~= split_on(a, sep) + split_on(b, sep));
                },
                None => {
                    assert(s[a.len() as int] != c);
                },
            }
        },
        Some(i) => {
            assert(a[i] == c);
            assert(s[i] == a[i]);
            assert forall|j: int| 0 <= j < i implies s[j] != c by {
                assert(s[j] == a[j]);
            }
            match find_char(s, c) {
                Some(i2) => {
                    if i2 < i {
                        assert(s[i2] != c);
                    } else if i2 > i {
                        assert(s[i] != c);
                    }
                    assert(i2 == i);
                    assert(s.take(i) =~= a.take(i));
                    assert(s.skip(i + 1) =~= a.skip(i + 1) + seq![c] + b);
                    lemma_split_on_char_concat(a.skip(i + 1), b, c);
                    assert(split_on(s, sep) == seq![a.take(i)] + (split_on(a.skip(i + 1), sep)
                        + split_on(b, sep)));
                    assert(split_on(a, sep) == seq![a.take(i)] + split_on(a.skip(i + 1), sep));
                    assert(seq![a.take(i)] + (split_on(a.skip(i + 1), sep) + split_on(b, sep))
                        =~= (seq![a.take(i)] + split_on(a.skip(i + 1), sep)) + split_on(b, sep));
                },
                None => {
                    assert(s[i] != c);
                },
            }
        },
    }
}

/// Trimming a non-empty digit string changes nothing.
pub proof fn lemma_trim_digits(s: Seq<char>)
    requires
        s.len() > 0,
        all_digits(s),
    ensures
        trim_spec(s) == s,
{
    assert(is_dec_digit(s[0]) && !is_space(s[0]));
    assert(is_dec_digit(s.last()) && !is_space(s.last()));
    assert(first_non_space(s) == 0);
    assert(last_non_space_end(s) == s.len());
    assert(s.subrange(0, s.len() as int) =~= s);
}

/// The characters this crate treats as trimmable whitespace.
pub open spec fn is_space(c: char) -> bool {
    c == ' ' || c == '\t' || c == '\r' || c == '\n'
}

/// `s` without leading or trailing whitespace.
pub open spec fn trim_spec(s: Seq<char>) -> Seq<char> {
    let a = first_non_space(s);
    let b = last_non_space_end(s);
    if a < b {
        s.subrange(a, b)
    } else {
        Seq::empty()
    }
}

/// Index of the first non-space character, or `s.len()` if all are spaces.
pub open spec fn first_non_space(s: Seq<char>) -> int
    decreases s.len(),
{
    if s.len() == 0 {
        0
    } else if !is_space(s[0]) {
        0
    } else {
        1 + first_non_space(s.drop_first())
    }
}

/// One past the last non-space character, or 0 if all are spaces.
pub open spec fn last_non_space_end(s: Seq<char>) -> int
    decreases s.len(),
{
    if s.len() == 0 {
        0
    } else if !is_space(s.last()) {
        s.len() as int
    } else {
        last_non_space_end(s.drop_last())
    }
}

pub proof fn lemma_first_non_space(s: Seq<char>)
    ensures
        0 <= first_non_space(s) <= s.len(),
        forall|j: int| 0 <= j < first_non_space(s) ==> is_space(s[j]),
        first_non_space(s) < s.len() ==> !is_space(s[first_non_space(s)]),
    decreases s.len(),
{
    if s.len() > 0 && is_space(s[0]) {
        let t = s.drop_first();
        lemma_first_non_space(t);
        assert(forall|j: int| 0 <= j < t.len() ==> t[j] == s[j + 1]);
        assert forall|j: int| 0 <= j < first_non_space(s) implies is_space(s[j]) by {
            if j > 0 {
                assert(is_space(t[j - 1]));
            }
        }
    }
}

pub proof fn lemma_last_non_space_end(s: Seq<char>)
    ensures
        0 <= last_non_space_end(s) <= s.len(),
        forall|j: int| last_non_space_end(s) <= j < s.len() ==> is_space(s[j]),
        last_non_space_end(s) > 0 ==> !is_space(s[last_non_space_end(s) - 1]),
    decreases s.len(),
{
    if s.len() > 0 && is_space(s.last()) {
        let t = s.drop_last();
        lemma_last_non_space_end(t);
        assert(forall|j: int| 0 <= j < t.len() ==> t[j] == s[j]);
    }
}

/// Trim leading and trailing whitespace.
pub fn trim_chars(v: &[char]) -> (r: Vec<char>)
    ensures
        r@ == trim_spec(v@),
{
    proof {
        lemma_first_non_space(v@);
        lemma_last_non_space_end(v@);
    }
    let n = v.len();
    let mut a: usize = 0;
    while a < n && (v[a] == ' ' || v[a] == '\t' || v[a] == '\r' || v[a] == '\n')
        invariant
            0 <= a <= n == v@.len(),
            forall|j: int| 0 <= j < a ==> is_space(v@[j]),
        decreases n - a,
    {
        a = a + 1;
    }
    proof {
        lemma_first_non_space(v@);
        let fa = first_non_space(v@);
        if fa < a as int {
            assert(is_space(v@[fa]));
        }
        if fa > a as int {
            assert(is_space(v@[a as int]));
        }
        assert(fa == a as int);
    }
    let mut b: usize = n;
    while b > a && (v[b - 1] == ' ' || v[b - 1] == '\t' || v[b - 1] == '\r' || v[b - 1] == '\n')
        invariant
            0 <= a <= b <= n == v@.len(),
            forall|j: int| b <= j < n ==> is_space(v@[j]),
            forall|j: int| 0 <= j < a ==> is_space(v@[j]),
        decreases b,
    {
        b = b - 1;
    }
    proof {
        lemma_last_non_space_end(v@);
        let lb = last_non_space_end(v@);
        if (b as int) > a as int {
            // loop stopped on a non-space at b - 1
            if lb < b as int {
                assert(is_space(v@[b - 1]));
            }
            if lb > b as int {
                assert(is_space(v@[lb - 1]));
            }
            assert(lb == b as int);
        } else {
            // everything from a on is a space, and everything before a is too
            assert(forall|j: int| 0 <= j < v@.len() ==> is_space(v@[j]));
            if lb > 0 {
                assert(is_space(v@[lb - 1]));
            }
            assert(lb <= a as int);
            assert(trim_spec(v@) =~= Seq::<char>::empty());
        }
    }
    copy_range(v, a, b)
}

/// `v` without the prefix `p`, when `v` starts with `p`.
pub fn strip_prefix_chars(v: &[char], p: &[char]) -> (r: Option<Vec<char>>)
    ensures
        match r {
            Some(rest) => v@.len() >= p@.len() && v@.take(p@.len() as int) == p@ && rest@ == v@.skip(
                p@.len() as int,
            ),
            None => !(v@.len() >= p@.len() && v@.take(p@.len() as int) == p@),
        },
{
    if v.len() < p.len() {
        return None;
    }
    let head = copy_range(v, 0, p.len());
    if chars_eq(head.as_slice(), p) {
        assert(v@.subrange(0, p@.len() as int) == v@.take(p@.len() as int));
        Some(copy_range(v, p.len(), v.len()))
    } else {
        assert(v@.subrange(0, p@.len() as int) == v@.take(p@.len() as int));
        None
    }
}

/// Relies on alloc::string::String::push: appends one character.
pub assume_specification[ String::push ](s: &mut String, c: char)
    ensures
        final (s)@ == old(s)@.push(c),
;

/// Build a string out of a character slice.
pub fn string_of(v: &[char]) -> (r: String)
    ensures
        r@ == v@,
{
    let n = v.len();
    let mut r = String::new();
    let mut i: usize = 0;
    while i < n
        invariant
            0 <= i <= n == v@.len(),
            r@ == v@.take(i as int),
        decreases n - i,
    {
        r.push(v[i]);
        assert(v@.take(i + 1) =~= v@.take(i as int).push(v@[i as int]));
        i = i + 1;
    }
    assert(v@.take(n as int) =~= v@);
    r
}

/// Collect a string's characters into a vector.
pub fn chars_of(s: &str) -> (r: Vec<char>)
    ensures
        r@ == s@,
{
    broadcast use vstd::string::axiom_spec_iter;
    broadcast use vstd::string::next_postcondition;

    let mut it = s.chars();
    let mut r: Vec<char> = Vec::new();
    loop
        invariant
            it.obeys_prophetic_iter_laws(),
            it.decrease() is Some,
            r@ + vstd::std_specs::iter::IteratorSpec::remaining(&it) == s@,
        ensures
            r@ == s@,
        decreases it.decrease()->0,
    {
        match it.next() {
            Some(c) => {
                r.push(c);
            },
            None => {
                assert(r@ =~= s@);
                break ;
            },
        }
    }
    r
}

} // verus!
