//! Canonical decimal form of a lexed numeric run.
//!
//! A numeric token's accumulated run is a sequence of alphanumeric characters
//! and dots.  The run is accepted when it is a plain decimal literal — ASCII
//! digits, optionally one dot followed by digits — and is then normalised to
//! the form in which the value is rendered: no leading zeros on the integer
//! part (except a single `0`), no trailing zeros on the fraction, and no dot
//! when the fraction is empty.  Any other run is a lexing failure.

use vstd::prelude::*;

use crate::chars::is_digit;

verus! {

/// Every character of `s` is an ASCII decimal digit.
pub open spec fn all_digits(s: Seq<char>) -> bool {
    forall|i: int| 0 <= i < s.len() ==> is_digit(#[trigger] s[i])
}

/// Drops leading `0` characters, always keeping at least one character.
pub open spec fn strip_leading_zeros(s: Seq<char>) -> Seq<char>
    decreases s.len(),
{
    if s.len() > 1 && s[0] == '0' {
        strip_leading_zeros(s.skip(1))
    } else {
        s
    }
}

/// Drops trailing `0` characters, possibly leaving nothing.
pub open spec fn strip_trailing_zeros(s: Seq<char>) -> Seq<char>
    decreases s.len(),
{
    if s.len() > 0 && s[s.len() - 1] == '0' {
        strip_trailing_zeros(s.drop_last())
    } else {
        s
    }
}

/// Length of the prefix of `s` before its first dot (all of `s` if none).
pub open spec fn int_part_len(s: Seq<char>) -> int
    decreases s.len(),
{
    if s.len() > 0 && s[0] != '.' {
        1 + int_part_len(s.skip(1))
    } else {
        0
    }
}

/// The canonical decimal form of a numeric run, or `None` when the run is not
/// a plain decimal literal.
pub open spec fn canon_number(s: Seq<char>) -> Option<Seq<char>> {
    let k = int_part_len(s);
    if k >= s.len() {
        if s.len() > 0 && all_digits(s) {
            Some(strip_leading_zeros(s))
        } else {
            None
        }
    } else {
        let ip = s.take(k);
        let fp = s.skip(k + 1);
        if k > 0 && all_digits(ip) && all_digits(fp) {
            let f = strip_trailing_zeros(fp);
            if f.len() == 0 {
                Some(strip_leading_zeros(ip))
            } else {
                Some(strip_leading_zeros(ip) + seq!['.'] + f)
            }
        } else {
            None
        }
    }
}

/// `s` already is a canonical decimal.
pub open spec fn is_canon_number(s: Seq<char>) -> bool {
    canon_number(s) == Some(s)
}

proof fn lemma_strip_leading_zeros_props(s: Seq<char>)
    requires
        s.len() > 0,
        all_digits(s),
    ensures
        strip_leading_zeros(s).len() > 0,
        all_digits(strip_leading_zeros(s)),
        strip_leading_zeros(s).len() > 1 ==> strip_leading_zeros(s)[0] != '0',
        strip_leading_zeros(s)[0] != '.',
        forall|i: int|
            0 <= i < strip_leading_zeros(s).len() ==> #[trigger] strip_leading_zeros(s)[i] != '.',
    decreases s.len(),
{
    if s.len() > 1 && s[0] == '0' {
        lemma_strip_leading_zeros_props(s.skip(1));
    } else {
        assert(is_digit(s[0]));
    }
}

proof fn lemma_strip_trailing_zeros_props(s: Seq<char>)
    requires
        all_digits(s),
    ensures
        all_digits(strip_trailing_zeros(s)),
        strip_trailing_zeros(s).len() > 0 ==> strip_trailing_zeros(s)[strip_trailing_zeros(
            s,
        ).len() - 1] != '0',
        strip_trailing_zeros(s).len() <= s.len(),
    decreases s.len(),
{
    if s.len() > 0 && s[s.len() - 1] == '0' {
        lemma_strip_trailing_zeros_props(s.drop_last());
    }
}

/// When already canonical, stripping does nothing.
proof fn lemma_strip_leading_zeros_id(s: Seq<char>)
    requires
        s.len() > 0,
        s.len() > 1 ==> s[0] != '0',
    ensures
        strip_leading_zeros(s) == s,
{
}

proof fn lemma_strip_trailing_zeros_id(s: Seq<char>)
    requires
        s.len() > 0 ==> s[s.len() - 1] != '0',
    ensures
        strip_trailing_zeros(s) == s,
{
}

/// The first dot of `digits + "." + rest` stands right after `digits`.
proof fn lemma_int_part_len_concat(a: Seq<char>, b: Seq<char>)
    requires
        forall|i: int| 0 <= i < a.len() ==> #[trigger] a[i] != '.',
        b.len() > 0 && b[0] == '.',
    ensures
        int_part_len(a + b) == a.len(),
    decreases a.len(),
{
    if a.len() == 0 {
        assert(a + b =~= b);
    } else {
        assert((a + b)[0] == a[0]);
        assert((a + b).skip(1) =~= a.skip(1) + b);
        lemma_int_part_len_concat(a.skip(1), b);
    }
}

/// With no dot anywhere, the integer part is the whole run.
proof fn lemma_int_part_len_all(s: Seq<char>)
    requires
        forall|i: int| 0 <= i < s.len() ==> #[trigger] s[i] != '.',
    ensures
        int_part_len(s) == s.len(),
    decreases s.len(),
{
    if s.len() > 0 {
        lemma_int_part_len_all(s.skip(1));
    }
}

/// The canonical form is a fixed point: normalising it again changes nothing.
pub proof fn lemma_canon_number_idempotent(s: Seq<char>, c: Seq<char>)
    requires
        canon_number(s) == Some(c),
    ensures
        canon_number(c) == Some(c),
{
    let k = int_part_len(s);
    if k >= s.len() {
        lemma_strip_leading_zeros_props(s);
        let r = strip_leading_zeros(s);
        lemma_int_part_len_all(r);
        lemma_strip_leading_zeros_id(r);
    } else {
        let ip = s.take(k);
        let fp = s.skip(k + 1);
        lemma_strip_leading_zeros_props(ip);
        lemma_strip_trailing_zeros_props(fp);
        let ip2 = strip_leading_zeros(ip);
        let f = strip_trailing_zeros(fp);
        if f.len() == 0 {
            lemma_int_part_len_all(ip2);
            lemma_strip_leading_zeros_id(ip2);
        } else {
            let c2 = ip2 + seq!['.'] + f;
            assert(c2 =~= ip2 + (seq!['.'] + f));
            lemma_int_part_len_concat(ip2, seq!['.'] + f);
            assert(int_part_len(c2) == ip2.len());
            assert(c2.take(ip2.len() as int) =~= ip2);
            assert(c2.skip(ip2.len() as int + 1) =~= f);
            lemma_strip_leading_zeros_id(ip2);
            lemma_strip_trailing_zeros_id(f);
        }
    }
}

/// A canonical decimal starts with a digit and holds only digits and dots —
/// exactly the shape the lexer's numeric accumulation accepts.
pub proof fn lemma_canon_number_shape(s: Seq<char>, c: Seq<char>)
    requires
        canon_number(s) == Some(c),
    ensures
        c.len() > 0,
        is_digit(c[0]),
        forall|i: int| 0 <= i < c.len() ==> is_digit(#[trigger] c[i]) || c[i] == '.',
{
    let k = int_part_len(s);
    if k >= s.len() {
        lemma_strip_leading_zeros_props(s);
    } else {
        let ip = s.take(k);
        let fp = s.skip(k + 1);
        lemma_strip_leading_zeros_props(ip);
        lemma_strip_trailing_zeros_props(fp);
        let ip2 = strip_leading_zeros(ip);
        let f = strip_trailing_zeros(fp);
        if f.len() > 0 {
            assert(c =~= ip2 + seq!['.'] + f);
            assert(forall|i: int|
                0 <= i < f.len() ==> is_digit(#[trigger] f[i]) || f[i] == '.') by {
                assert(forall|i: int| 0 <= i < f.len() ==> is_digit(#[trigger] f[i]));
            }
        }
    }
}

/// Normalises a numeric run, in executable code.
#[verifier::loop_isolation(false)]
#[verifier::rlimit(60)]
pub fn canon_number_exec(run: &Vec<char>) -> (r: Option<Vec<char>>)
    ensures
        match r {
            Some(c) => canon_number(run@) == Some(c@),
            None => canon_number(run@) is None,
        },
{
    let n = run.len();
    // Find the first dot.
    let mut k: usize = 0;
    while k < n && run[k] != '.'
        invariant
            n == run@.len(),
            k <= n,
            forall|i: int| 0 <= i < k ==> #[trigger] run@[i] != '.',
        decreases n - k,
    {
        k = k + 1;
    }
    proof {
        if k == n {
            lemma_int_part_len_all(run@);
        } else {
            assert(run@ =~= run@.take(k as int) + run@.skip(k as int));
            assert(run@.skip(k as int)[0] == '.');
            lemma_int_part_len_concat(run@.take(k as int), run@.skip(k as int));
        }
        assert(int_part_len(run@) == k);
    }
    // Check that the integer part is digits.
    let mut i: usize = 0;
    while i < k
        invariant
            k <= n,
            n == run@.len(),
            forall|j: int| 0 <= j < i ==> is_digit(#[trigger] run@[j]),
        decreases k - i,
    {
        let c = run[i];
        if !('0' <= c && c <= '9') {
            proof {
                assert(!is_digit(run@[i as int]));
                if k == n {
                    assert(!all_digits(run@));
                } else {
                    assert(run@.take(k as int)[i as int] == run@[i as int]);
                    assert(!all_digits(run@.take(k as int)));
                }
            }
            return None;
        }
        i = i + 1;
    }
    if k == 0 && k < n {
        // The run starts with a dot: not a decimal literal.
        return None;
    }
    if k == n && n == 0 {
        return None;
    }
    // Check that the fraction part is digits.
    if k < n {
        let mut j: usize = k + 1;
        while j < n
            invariant
                k < n,
                n == run@.len(),
                forall|m: int| k + 1 <= m < j ==> is_digit(#[trigger] run@[m]),
                j >= k + 1,
            decreases n - j,
        {
            let c = run[j];
            if !('0' <= c && c <= '9') {
                proof {
                    assert(run@.skip(k + 1)[j - k - 1] == run@[j as int]);
                    assert(!all_digits(run@.skip(k + 1)));
                }
                return None;
            }
            j = j + 1;
        }
        proof {
            assert(forall|m: int|
                0 <= m < run@.skip(k + 1).len() ==> is_digit(#[trigger] run@.skip(k + 1)[m]));
        }
    }
    proof {
        if k == n {
            assert(forall|j: int| 0 <= j < n ==> is_digit(#[trigger] run@[j]));
            assert(all_digits(run@));
        } else {
            assert(forall|j: int| 0 <= j < k ==> run@.take(k as int)[j] == run@[j]);
            assert(all_digits(run@.take(k as int)));
        }
    }
    // Integer part without leading zeros.
    proof {
        assert(run@.take(k as int).skip(0) =~= run@.take(k as int));
    }
    let mut a: usize = 0;
    while a + 1 < k && run[a] == '0'
        invariant
            k <= n,
            n == run@.len(),
            a < k || (a == 0 && k == 0),
            strip_leading_zeros(run@.take(k as int)) == strip_leading_zeros(
                run@.take(k as int).skip(a as int),
            ),
        decreases k - a,
    {
        proof {
            let ip = run@.take(k as int);
            let cur = ip.skip(a as int);
            assert(cur.len() > 1);
            assert(cur[0] == '0');
            assert(cur.skip(1) =~= ip.skip(a + 1));
        }
        a = a + 1;
    }
    let mut out: Vec<char> = Vec::new();
    let mut i2: usize = a;
    while i2 < k
        invariant
            a <= i2 <= k,
            k <= n,
            n == run@.len(),
            out@ =~= run@.take(k as int).skip(a as int).take(i2 - a),
        decreases k - i2,
    {
        out.push(run[i2]);
        i2 = i2 + 1;
    }
    proof {
        let ip = run@.take(k as int);
        assert(out@ =~= ip.skip(a as int));
        lemma_strip_leading_zeros_id(ip.skip(a as int));
        assert(out@ == strip_leading_zeros(ip));
    }
    if k == n {
        proof {
            assert(run@.take(k as int) =~= run@);
        }
        return Some(out);
    }
    // Fraction part without trailing zeros.
    proof {
        assert(run@.skip(k + 1).take(n - k - 1) =~= run@.skip(k + 1));
    }
    let mut b: usize = n;
    while b > k + 1 && run[b - 1] == '0'
        invariant
            k < n,
            n == run@.len(),
            k + 1 <= b <= n,
            strip_trailing_zeros(run@.skip(k + 1)) == strip_trailing_zeros(
                run@.skip(k + 1).take(b - k - 1),
            ),
        decreases b,
    {
        proof {
            let fp = run@.skip(k + 1);
            let cur = fp.take(b - k - 1);
            assert(cur.len() > 0);
            assert(cur[cur.len() - 1] == run@[b - 1]);
            assert(cur.drop_last() =~= fp.take(b - 1 - k - 1));
        }
        b = b - 1;
    }
    proof {
        let fp = run@.skip(k + 1);
        let cur = fp.take(b - k - 1);
        if cur.len() > 0 {
            assert(cur[cur.len() - 1] == run@[b - 1]);
        }
        lemma_strip_trailing_zeros_id(cur);
        assert(strip_trailing_zeros(fp) == cur);
    }
    if b == k + 1 {
        // Empty fraction after stripping: render the integer part alone.
        proof {
            assert(run@.skip(k + 1).take(b - k - 1).len() == 0);
        }
        return Some(out);
    }
    out.push('.');
    let ghost mid = out@;
    let mut j2: usize = k + 1;
    while j2 < b
        invariant
            k + 1 <= j2 <= b <= n,
            n == run@.len(),
            out@ =~= mid + run@.skip(k + 1).take(j2 - k - 1),
        decreases b - j2,
    {
        out.push(run[j2]);
        j2 = j2 + 1;
    }
    proof {
        let ip = run@.take(k as int);
        let fp = run@.skip(k + 1);
        let f = strip_trailing_zeros(fp);
        assert(out@ =~= strip_leading_zeros(ip) + seq!['.'] + f);
    }
    Some(out)
}

} // verus!
