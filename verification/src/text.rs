//! Verified string utilities: lexicographic three-way comparison of
//! character sequences (the order of the airport catalog), ASCII
//! case-insensitive equality (used by the country filter), and decimal
//! number parsing (used by the runway-length filter parser).

use vstd::prelude::*;

verus! {

/// Lexicographic three-way comparison of two character sequences:
/// -1 if a sorts before b, 0 if they are equal, 1 if a sorts after b.
pub open spec fn spec_str_cmp(a: Seq<char>, b: Seq<char>) -> int
    decreases a.len(),
{
    if a.len() == 0 && b.len() == 0 {
        0
    } else if a.len() == 0 {
        -1
    } else if b.len() == 0 {
        1
    } else if a[0] < b[0] {
        -1
    } else if b[0] < a[0] {
        1
    } else {
        spec_str_cmp(a.skip(1), b.skip(1))
    }
}

/// Strict lexicographic order on character sequences.
pub open spec fn spec_str_lt(a: Seq<char>, b: Seq<char>) -> bool {
    spec_str_cmp(a, b) == -1
}

pub proof fn lemma_str_cmp_range(a: Seq<char>, b: Seq<char>)
    ensures
        -1 <= spec_str_cmp(a, b) <= 1,
    decreases a.len(),
{
    if a.len() != 0 && b.len() != 0 && !(a[0] < b[0]) && !(b[0] < a[0]) {
        lemma_str_cmp_range(a.skip(1), b.skip(1));
    }
}

/// The comparison returns 0 exactly on equal sequences.
pub proof fn lemma_str_cmp_eq(a: Seq<char>, b: Seq<char>)
    ensures
        spec_str_cmp(a, b) == 0 <==> a == b,
    decreases a.len(),
{
    if a.len() == 0 && b.len() == 0 {
        assert(a =~= b);
    } else if a.len() != 0 && b.len() != 0 && !(a[0] < b[0]) && !(b[0] < a[0]) {
        lemma_str_cmp_eq(a.skip(1), b.skip(1));
        if spec_str_cmp(a, b) == 0 {
            assert(a[0] == b[0]);
            assert(a.skip(1) == b.skip(1));
            assert(a.len() == b.len());
            assert forall|i: int| 0 <= i < a.len() implies a[i] == b[i] by {
                if i >= 1 {
                    assert(a[i] == a.skip(1)[i - 1]);
                    assert(b[i] == b.skip(1)[i - 1]);
                }
            }
            assert(a =~= b);
        } else {
            if a == b {
                assert(a.skip(1) == b.skip(1));
            }
        }
    } else {
        if a == b {
            assert(a.len() == b.len());
        }
    }
}

/// The comparison is antisymmetric: swapping the arguments negates it.
pub proof fn lemma_str_cmp_antisym(a: Seq<char>, b: Seq<char>)
    ensures
        spec_str_cmp(a, b) == -spec_str_cmp(b, a),
    decreases a.len(),
{
    if a.len() != 0 && b.len() != 0 && !(a[0] < b[0]) && !(b[0] < a[0]) {
        lemma_str_cmp_antisym(a.skip(1), b.skip(1));
    }
}

/// The strict order is transitive.
pub proof fn lemma_str_lt_trans(a: Seq<char>, b: Seq<char>, c: Seq<char>)
    requires
        spec_str_lt(a, b),
        spec_str_lt(b, c),
    ensures
        spec_str_lt(a, c),
    decreases a.len(),
{
    if a.len() == 0 {
        assert(b.len() != 0);
        assert(c.len() != 0);
    } else {
        assert(b.len() != 0);
        assert(c.len() != 0);
        if a[0] < b[0] {
            if b[0] < c[0] {
            } else {
                assert(!(c[0] < b[0]));
                assert(a[0] < c[0]);
            }
        } else {
            assert(!(b[0] < a[0]));
            assert(a[0] == b[0]);
            if b[0] < c[0] {
            } else {
                assert(b[0] == c[0]);
                lemma_str_lt_trans(a.skip(1), b.skip(1), c.skip(1));
            }
        }
    }
}

/// The lax order is total: of any two sequences, one sorts no later
/// than the other.
pub proof fn lemma_str_le_total(a: Seq<char>, b: Seq<char>)
    ensures
        spec_str_cmp(a, b) <= 0 || spec_str_cmp(b, a) <= 0,
{
    lemma_str_cmp_range(a, b);
    lemma_str_cmp_antisym(a, b);
}

/// The lax order is transitive.
pub proof fn lemma_str_le_trans(a: Seq<char>, b: Seq<char>, c: Seq<char>)
    requires
        spec_str_cmp(a, b) <= 0,
        spec_str_cmp(b, c) <= 0,
    ensures
        spec_str_cmp(a, c) <= 0,
{
    lemma_str_cmp_range(a, b);
    lemma_str_cmp_range(b, c);
    lemma_str_cmp_eq(a, b);
    lemma_str_cmp_eq(b, c);
    if spec_str_cmp(a, b) == 0 {
    } else if spec_str_cmp(b, c) == 0 {
    } else {
        lemma_str_lt_trans(a, b, c);
    }
}

/// Three-way comparison of the suffixes of two strings starting at i.
fn str_cmp_from(a: &str, b: &str, i: usize, alen: usize, blen: usize) -> (r: i8)
    requires
        alen == a@.len(),
        blen == b@.len(),
        i <= alen,
        i <= blen,
    ensures
        r as int == spec_str_cmp(a@.skip(i as int), b@.skip(i as int)),
    decreases alen - i,
{
    proof {
        assert(a@.skip(i as int).len() == alen - i);
        assert(b@.skip(i as int).len() == blen - i);
    }
    if i == alen && i == blen {
        0
    } else if i == alen {
        -1
    } else if i == blen {
        1
    } else {
        let ca = a.get_char(i);
        let cb = b.get_char(i);
        proof {
            assert(a@.skip(i as int)[0] == a@[i as int]);
            assert(b@.skip(i as int)[0] == b@[i as int]);
        }
        if ca < cb {
            -1
        } else if cb < ca {
            1
        } else {
            proof {
                assert(a@.skip(i as int).skip(1) =~= a@.skip(i as int + 1));
                assert(b@.skip(i as int).skip(1) =~= b@.skip(i as int + 1));
            }
            str_cmp_from(a, b, i + 1, alen, blen)
        }
    }
}

/// Lexicographic three-way comparison of two strings.
pub fn str_cmp(a: &str, b: &str) -> (r: i8)
    ensures
        r as int == spec_str_cmp(a@, b@),
        r == 0 <==> a@ == b@,
    {
    let alen = a.unicode_len();
    let blen = b.unicode_len();
    proof {
        assert(a@.skip(0) =~= a@);
        assert(b@.skip(0) =~= b@);
        lemma_str_cmp_eq(a@, b@);
    }
    str_cmp_from(a, b, 0, alen, blen)
}

/// Equality of two strings, as equality of their character sequences.
pub fn str_eq(a: &str, b: &str) -> (r: bool)
    ensures
        r == (a@ == b@),
{
    str_cmp(a, b) == 0
}

/// A character folded to lower case when it is an ASCII capital letter,
/// as a code point.
pub open spec fn spec_fold_case(c: char) -> u32 {
    if 'A' <= c <= 'Z' {
        (c as u32 + 32) as u32
    } else {
        c as u32
    }
}

/// ASCII case-insensitive equality of two character sequences.
pub open spec fn spec_eq_ignore_case(a: Seq<char>, b: Seq<char>) -> bool {
    a.len() == b.len() && forall|i: int|
        0 <= i < a.len() ==> spec_fold_case(a[i]) == spec_fold_case(b[i])
}

fn fold_case(c: char) -> (r: u32)
    ensures
        r == spec_fold_case(c),
{
    if 'A' <= c && c <= 'Z' {
        c as u32 + 32
    } else {
        c as u32
    }
}

/// ASCII case-insensitive equality of two strings: equal length, and
/// equal characters once ASCII capital letters are folded to lower case.
pub fn eq_ignore_ascii_case(a: &str, b: &str) -> (r: bool)
    ensures
        r == spec_eq_ignore_case(a@, b@),
{
    let alen = a.unicode_len();
    let blen = b.unicode_len();
    if alen != blen {
        return false;
    }
    let mut i: usize = 0;
    while i < alen
        invariant
            i <= alen,
            alen == a@.len(),
            alen == b@.len(),
            forall|j: int| 0 <= j < i ==> spec_fold_case(a@[j]) == spec_fold_case(b@[j]),
        decreases alen - i,
    {
        let ca = a.get_char(i);
        let cb = b.get_char(i);
        if fold_case(ca) != fold_case(cb) {
            return false;
        }
        i = i + 1;
    }
    true
}

/// Whether every character of a sequence is an ASCII decimal digit.
pub open spec fn spec_all_digits(s: Seq<char>) -> bool {
    forall|i: int| 0 <= i < s.len() ==> '0' <= #[trigger] s[i] <= '9'
}

/// The numeric value of a digit character.
pub open spec fn spec_digit_val(c: char) -> int {
    c as u32 - '0' as u32
}

/// The value of a sequence of decimal digits, most significant first.
pub open spec fn spec_digits_val(s: Seq<char>) -> int
    decreases s.len(),
{
    if s.len() == 0 {
        0
    } else {
        spec_digits_val(s.drop_last()) * 10 + spec_digit_val(s.last())
    }
}

pub proof fn lemma_digits_val_nonneg(s: Seq<char>)
    requires
        spec_all_digits(s),
    ensures
        spec_digits_val(s) >= 0,
    decreases s.len(),
{
    if s.len() > 0 {
        assert(spec_all_digits(s.drop_last()));
        lemma_digits_val_nonneg(s.drop_last());
    }
}

/// Appending digits never decreases the value of a digit string.
pub proof fn lemma_digits_val_monotone(s: Seq<char>, n: int)
    requires
        spec_all_digits(s),
        0 <= n <= s.len(),
    ensures
        spec_digits_val(s.take(n)) <= spec_digits_val(s),
    decreases s.len() - n,
{
    if n < s.len() {
        lemma_digits_val_monotone(s, n + 1);
        let t = s.take(n + 1);
        assert(spec_all_digits(t));
        assert(t.drop_last() =~= s.take(n));
        assert(t.last() == s[n]);
        lemma_digits_val_nonneg(s.take(n));
        assert(spec_digits_val(s.take(n)) * 10 >= spec_digits_val(s.take(n)))
            by (nonlinear_arith)
            requires spec_digits_val(s.take(n)) >= 0;
    } else {
        assert(s.take(n) =~= s);
    }
}

/// Parse the suffix of a string starting at `from` as a decimal number.
/// Returns the value exactly when the suffix is a nonempty string of
/// digits whose value fits in u32.
pub fn parse_u32_from(s: &str, from: usize) -> (r: Option<u32>)
    requires
        from <= s@.len(),
    ensures
        match r {
            Some(v) => {
                &&& s@.len() > from
                &&& spec_all_digits(s@.skip(from as int))
                &&& v as int == spec_digits_val(s@.skip(from as int))
            },
            None => s@.len() == from || !spec_all_digits(s@.skip(from as int))
                || spec_digits_val(s@.skip(from as int)) > u32::MAX,
        },
{
    let len = s.unicode_len();
    if from == len {
        return None;
    }
    let ghost digits = s@.skip(from as int);
    let mut i: usize = from;
    let mut acc: u32 = 0;
    while i < len
        invariant
            from <= i <= len,
            len == s@.len(),
            from < len,
            digits == s@.skip(from as int),
            spec_all_digits(digits.take(i - from)),
            acc as int == spec_digits_val(digits.take(i - from)),
        decreases len - i,
    {
        let c = s.get_char(i);
        if c < '0' || c > '9' {
            proof {
                assert(digits[i - from] == s@[i as int]);
            }
            return None;
        }
        let d = c as u32 - 48;
        proof {
            assert(('0' as u32) == 48);
            assert(digits.take(i - from + 1).drop_last() =~= digits.take(i - from));
            assert(digits.take(i - from + 1).last() == s@[i as int]);
            assert(spec_all_digits(digits.take(i - from + 1)));
        }
        if acc > (u32::MAX - d) / 10 {
            proof {
                assert(spec_digits_val(digits.take(i - from + 1))
                    == acc as int * 10 + d);
                let q = ((u32::MAX - d) as int) / 10;
                assert(10 * q <= u32::MAX - d < 10 * (q + 1));
                assert(acc as int * 10 + d > u32::MAX as int);
                if spec_all_digits(digits) {
                    lemma_digits_val_monotone(digits, i - from + 1);
                }
            }
            return None;
        }
        acc = acc * 10 + d;
        i = i + 1;
    }
    proof {
        assert(digits.take(len - from) =~= digits);
    }
    Some(acc)
}

} // verus!
