//! String helpers: a "human" comparison that orders embedded digit runs
//! numerically, word capitalization, and grapheme-aware truncation.

use unicode_segmentation::UnicodeSegmentation;
use vstd::prelude::*;

verus! {

use core::cmp::Ordering;
use vstd::std_specs::iter::IteratorSpec;

/// A decimal digit in the ASCII range.
pub open spec fn spec_is_digit(c: char) -> bool {
    48 <= c as u32 <= 57
}

/// Length of the maximal digit-run prefix of `s`.
pub open spec fn digit_run_len(s: Seq<char>) -> nat
    decreases s.len(),
{
    if s.len() == 0 || !spec_is_digit(s[0]) {
        0
    } else {
        1 + digit_run_len(s.skip(1))
    }
}

/// Number of leading '0' characters of `s`.
pub open spec fn zeros_len(s: Seq<char>) -> nat
    decreases s.len(),
{
    if s.len() == 0 || s[0] != '0' {
        0
    } else {
        1 + zeros_len(s.skip(1))
    }
}

/// Numeric value of a digit sequence, by Horner's rule over the last digit.
pub open spec fn digits_val(s: Seq<char>) -> int
    decreases s.len(),
{
    if s.len() == 0 {
        0
    } else {
        digits_val(s.take(s.len() - 1)) * 10 + (s[s.len() - 1] as u32 - 48)
    }
}

/// Every character of `s` is an ASCII digit.
pub open spec fn all_digits(s: Seq<char>) -> bool {
    forall|i: int| 0 <= i < s.len() ==> spec_is_digit(#[trigger] s[i])
}

/// The ordering that `human_compare` realizes, over character sequences.
///
/// Characters compare by code point, except that maximal runs of ASCII
/// digits compare as whole numerals: first by numeric value, then (for
/// equal values written differently) the run with more leading zeros
/// comes first.  A missing suffix compares below any longer one.
///
/// Two corners deliberately differ from comparators that walk digit runs
/// character by character (such as `human_sort::compare`): a run always
/// compares as one unbounded numeral even when the runs share a digit
/// prefix (`"1a"` sorts before `"12"`, since 1 < 12), and equal numeric
/// values written with different numbers of leading zeros tie-break by
/// run length rather than by a fallback pass over the whole strings.
/// Both choices keep the relation a total order, which the sorted tree
/// relies on; plain names order identically either way.
pub open spec fn spec_human_cmp(a: Seq<char>, b: Seq<char>) -> Ordering
    decreases a.len() + b.len(),
        via spec_human_cmp_decreases
{
    if a.len() == 0 && b.len() == 0 {
        Ordering::Equal
    } else if a.len() == 0 {
        Ordering::Less
    } else if b.len() == 0 {
        Ordering::Greater
    } else if spec_is_digit(a[0]) && spec_is_digit(b[0]) {
        let ra = digit_run_len(a);
        let rb = digit_run_len(b);
        let va = digits_val(a.take(ra as int));
        let vb = digits_val(b.take(rb as int));
        if va < vb {
            Ordering::Less
        } else if va > vb {
            Ordering::Greater
        } else if ra > rb {
            Ordering::Less
        } else if ra < rb {
            Ordering::Greater
        } else {
            spec_human_cmp(a.skip(ra as int), b.skip(rb as int))
        }
    } else if a[0] == b[0] {
        spec_human_cmp(a.skip(1), b.skip(1))
    } else if (a[0] as u32) < (b[0] as u32) {
        Ordering::Less
    } else {
        Ordering::Greater
    }
}

/// A digit run is never longer than the sequence it prefixes.
pub proof fn lemma_digit_run_len_le(s: Seq<char>)
    ensures
        digit_run_len(s) <= s.len(),
    decreases s.len(),
{
    if s.len() > 0 && spec_is_digit(s[0]) {
        lemma_digit_run_len_le(s.skip(1));
    }
}

/// Every character inside the digit run is a digit.
pub proof fn lemma_digit_run_digits(s: Seq<char>)
    ensures
        forall|m: int| 0 <= m < digit_run_len(s) ==> spec_is_digit(#[trigger] s[m]),
    decreases s.len(),
{
    if s.len() > 0 && spec_is_digit(s[0]) {
        lemma_digit_run_digits(s.skip(1));
        lemma_digit_run_len_le(s);
        assert forall|m: int| 1 <= m < digit_run_len(s) implies spec_is_digit(#[trigger] s[m]) by {
            assert(spec_is_digit(s.skip(1)[m - 1]));
            assert(s[m] == s.skip(1)[m - 1]);
        }
    }
}

#[via_fn]
proof fn spec_human_cmp_decreases(a: Seq<char>, b: Seq<char>) {
    lemma_digit_run_len_le(a);
    lemma_digit_run_len_le(b);
}

/// The full comparison: names that both begin with `-` swap operands, so
/// that labels looking like negative numbers order by signed magnitude.
pub open spec fn spec_human_compare(a: Seq<char>, b: Seq<char>) -> Ordering {
    if a.len() > 0 && b.len() > 0 && a[0] == '-' && b[0] == '-' {
        spec_human_cmp(b, a)
    } else {
        spec_human_cmp(a, b)
    }
}

/// Collects the characters of a string slice.
pub fn chars_of(s: &str) -> (v: Vec<char>)
    ensures
        v@ == s@,
{
    broadcast use vstd::string::next_postcondition;
    broadcast use vstd::string::axiom_spec_iter;

    let mut it = s.chars();
    let mut v: Vec<char> = Vec::new();
    loop
        invariant
            it.obeys_prophetic_iter_laws(),
            v@ + it.remaining() == s@,
            it.decrease() is Some,
        ensures
            v@ == s@,
        decreases it.decrease()->0,
    {
        match it.next() {
            Some(c) => v.push(c),
            None => {
                proof {
                    assert(v@ =~= s@);
                }
                break ;
            },
        }
    }
    v
}

/// Exec test for an ASCII digit.
pub fn is_digit_char(c: char) -> (b: bool)
    ensures
        b == spec_is_digit(c),
{
    c >= '0' && c <= '9'
}

/// Distinct characters have distinct code points.
pub proof fn lemma_char_neq(c: char, d: char)
    requires
        c != d,
    ensures
        c as u32 != d as u32,
{
    vstd::utf8::char_u32_cast(c, c as u32);
    vstd::utf8::char_u32_cast(d, d as u32);
}

/// Powers of ten.
pub open spec fn pow10(n: nat) -> int
    decreases n,
{
    if n == 0 {
        1
    } else {
        10 * pow10((n - 1) as nat)
    }
}

pub proof fn lemma_pow10_pos(n: nat)
    ensures
        pow10(n) >= 1,
    decreases n,
{
    if n > 0 {
        lemma_pow10_pos((n - 1) as nat);
    }
}

pub proof fn lemma_pow10_mono(m: nat, n: nat)
    requires
        m <= n,
    ensures
        pow10(m) <= pow10(n),
    decreases n,
{
    if m < n {
        lemma_pow10_mono(m, (n - 1) as nat);
        lemma_pow10_pos((n - 1) as nat);
    }
}

/// The value of a digit sequence is bounded by the power of ten of its length.
pub proof fn lemma_digits_val_bound(s: Seq<char>)
    requires
        all_digits(s),
    ensures
        0 <= digits_val(s) < pow10(s.len()),
    decreases s.len(),
{
    if s.len() > 0 {
        assert(all_digits(s.take(s.len() - 1)));
        lemma_digits_val_bound(s.take(s.len() - 1));
    }
}

/// Horner's rule read from the head instead of the tail.
pub proof fn lemma_digits_val_head(s: Seq<char>)
    requires
        s.len() > 0,
    ensures
        digits_val(s) == (s[0] as u32 - 48) * pow10((s.len() - 1) as nat) + digits_val(s.skip(1)),
    decreases s.len(),
{
    if s.len() == 1 {
        assert(s.take(0) =~= Seq::<char>::empty());
        assert(s.skip(1) =~= Seq::<char>::empty());
    } else {
        let l = s.len() as int;
        let p = s.take(l - 1);
        lemma_digits_val_head(p);
        assert(p.skip(1) =~= s.skip(1).take(l - 2));
        assert(s.skip(1).take(l - 2) == s.skip(1).take(s.skip(1).len() - 1));
        assert(s.skip(1)[s.skip(1).len() - 1] == s[l - 1]);
        assert(digits_val(s.skip(1)) == digits_val(s.skip(1).take(l - 2)) * 10 + (s[l - 1] as u32
            - 48));
        assert(p[0] == s[0]);
        assert((s[0] as u32 - 48) * pow10((l - 2) as nat) * 10 == (s[0] as u32 - 48) * pow10(
            (l - 1) as nat,
        )) by (nonlinear_arith)
            requires
                pow10((l - 1) as nat) == 10 * pow10((l - 2) as nat),
        ;
    }
}

/// Leading zeros do not change the value of a digit sequence.
pub proof fn lemma_val_zero_prefix(s: Seq<char>)
    requires
        all_digits(s),
    ensures
        zeros_len(s) <= s.len(),
        digits_val(s) == digits_val(s.skip(zeros_len(s) as int)),
        zeros_len(s) < s.len() ==> s.skip(zeros_len(s) as int)[0] != '0',
    decreases s.len(),
{
    if s.len() == 0 || s[0] != '0' {
        assert(s.skip(0) =~= s);
    } else {
        lemma_digits_val_head(s);
        lemma_pow10_pos((s.len() - 1) as nat);
        assert(all_digits(s.skip(1)));
        lemma_val_zero_prefix(s.skip(1));
        let z = zeros_len(s) as int;
        assert(z == 1 + zeros_len(s.skip(1)));
        assert(s.skip(1).skip(z - 1) =~= s.skip(z));
        assert((s[0] as u32 - 48) == 0);
        assert((s[0] as u32 - 48) * pow10((s.len() - 1) as nat) == 0) by (nonlinear_arith)
            requires
                (s[0] as u32 - 48) == 0,
        ;
        assert(digits_val(s) == digits_val(s.skip(1)));
        assert(digits_val(s.skip(1)) == digits_val(s.skip(1).skip(z - 1)));
    }
}

/// A digit sequence without a leading zero reaches the power of ten below it.
pub proof fn lemma_val_ge_pow(s: Seq<char>)
    requires
        all_digits(s),
        s.len() > 0,
        s[0] != '0',
    ensures
        digits_val(s) >= pow10((s.len() - 1) as nat),
{
    lemma_digits_val_head(s);
    assert(all_digits(s.skip(1)));
    lemma_digits_val_bound(s.skip(1));
    lemma_pow10_pos((s.len() - 1) as nat);
    let d = s[0] as u32 - 48;
    let p = pow10((s.len() - 1) as nat);
    lemma_char_neq(s[0], '0');
    assert(d >= 1);
    assert(d * p >= p) by (nonlinear_arith)
        requires
            d >= 1,
            p >= 1,
    ;
}

/// Among equal-length digit sequences, the first differing digit decides
/// the numeric comparison.
pub proof fn lemma_eqlen_lt(s: Seq<char>, t: Seq<char>, k: int)
    requires
        all_digits(s),
        all_digits(t),
        s.len() == t.len(),
        0 <= k < s.len(),
        s.take(k) == t.take(k),
        (s[k] as u32) < (t[k] as u32),
    ensures
        digits_val(s) < digits_val(t),
    decreases k,
{
    let l = s.len() as int;
    lemma_digits_val_head(s);
    lemma_digits_val_head(t);
    assert(all_digits(s.skip(1)));
    assert(all_digits(t.skip(1)));
    if k == 0 {
        lemma_digits_val_bound(s.skip(1));
        lemma_digits_val_bound(t.skip(1));
        lemma_pow10_pos((l - 1) as nat);
        let p = pow10((l - 1) as nat);
        let ds = s[0] as u32 - 48;
        let dt = t[0] as u32 - 48;
        assert(ds + 1 <= dt);
        assert(ds * p + p <= dt * p) by (nonlinear_arith)
            requires
                ds + 1 <= dt,
                p >= 1,
        ;
    } else {
        assert(s.take(k)[0] == s[0] && t.take(k)[0] == t[0]);
        assert(s[0] == t[0]);
        assert(s.skip(1).take(k - 1) =~= s.take(k).skip(1));
        assert(t.skip(1).take(k - 1) =~= t.take(k).skip(1));
        assert(s.skip(1).take(k - 1) == t.skip(1).take(k - 1));
        assert(s.skip(1)[k - 1] == s[k] && t.skip(1)[k - 1] == t[k]);
        lemma_eqlen_lt(s.skip(1), t.skip(1), k - 1);
    }
}

/// Characterization of `digit_run_len` by its boundary.
pub proof fn lemma_digit_run_len_is(s: Seq<char>, k: int)
    requires
        0 <= k <= s.len(),
        forall|m: int| 0 <= m < k ==> spec_is_digit(#[trigger] s[m]),
        k < s.len() ==> !spec_is_digit(s[k]),
    ensures
        digit_run_len(s) == k,
    decreases k,
{
    if k == 0 {
    } else {
        assert(forall|m: int|
            0 <= m < k - 1 ==> spec_is_digit(#[trigger] s.skip(1)[m]) == spec_is_digit(s[m + 1]));
        lemma_digit_run_len_is(s.skip(1), k - 1);
    }
}

/// Characterization of `zeros_len` by its boundary.
pub proof fn lemma_zeros_len_is(s: Seq<char>, k: int)
    requires
        0 <= k <= s.len(),
        forall|m: int| 0 <= m < k ==> #[trigger] s[m] == '0',
        k < s.len() ==> s[k] != '0',
    ensures
        zeros_len(s) == k,
    decreases k,
{
    if k == 0 {
    } else {
        assert(forall|m: int| 0 <= m < k - 1 ==> #[trigger] s.skip(1)[m] == s[m + 1]);
        lemma_zeros_len_is(s.skip(1), k - 1);
    }
}

/// Length of the digit run of `v` that starts at `start`.
fn run_len_from(v: &Vec<char>, start: usize) -> (n: usize)
    requires
        start <= v@.len(),
    ensures
        start + n <= v@.len(),
        digit_run_len(v@.skip(start as int)) == n,
        forall|m: int| start <= m < start + n ==> spec_is_digit(#[trigger] v@[m]),
{
    let mut k = start;
    loop
        invariant
            start <= k <= v@.len(),
            forall|m: int| start <= m < k ==> spec_is_digit(#[trigger] v@[m]),
        ensures
            start <= k <= v@.len(),
            forall|m: int| start <= m < k ==> spec_is_digit(#[trigger] v@[m]),
            k < v@.len() ==> !spec_is_digit(v@[k as int]),
        decreases v@.len() - k,
    {
        if k == v.len() {
            break ;
        }
        if !is_digit_char(v[k]) {
            break ;
        }
        k = k + 1;
    }
    proof {
        let s = v@.skip(start as int);
        assert(forall|m: int| 0 <= m < k - start ==> #[trigger] s[m] == v@[start + m]);
        lemma_digit_run_len_is(s, k as int - start as int);
    }
    k - start
}

/// Number of leading '0' characters of `v`.
fn zeros_from(v: &Vec<char>) -> (n: usize)
    ensures
        n <= v@.len(),
        zeros_len(v@) == n,
    {
    let mut k: usize = 0;
    loop
        invariant
            k <= v@.len(),
            forall|m: int| 0 <= m < k ==> #[trigger] v@[m] == '0',
        ensures
            k <= v@.len(),
            forall|m: int| 0 <= m < k ==> #[trigger] v@[m] == '0',
            k < v@.len() ==> v@[k as int] != '0',
        decreases v@.len() - k,
    {
        if k == v.len() {
            break ;
        }
        if v[k] != '0' {
            break ;
        }
        k = k + 1;
    }
    proof {
        lemma_zeros_len_is(v@, k as int);
    }
    k
}

/// Copy of `v[start..end]`.
pub fn subvec(v: &Vec<char>, start: usize, end: usize) -> (r: Vec<char>)
    requires
        start <= end <= v@.len(),
    ensures
        r@ == v@.subrange(start as int, end as int),
{
    let mut r: Vec<char> = Vec::new();
    let mut k = start;
    while k < end
        invariant
            start <= k <= end <= v@.len(),
            r@ == v@.subrange(start as int, k as int),
        decreases end - k,
    {
        r.push(v[k]);
        proof {
            assert(r@ =~= v@.subrange(start as int, k + 1));
        }
        k = k + 1;
    }
    r
}

/// Compare two all-digit sequences by numeric value.
fn cmp_digit_vals(a: &Vec<char>, b: &Vec<char>) -> (r: Ordering)
    requires
        all_digits(a@),
        all_digits(b@),
    ensures
        (r == Ordering::Less <==> digits_val(a@) < digits_val(b@)),
        (r == Ordering::Greater <==> digits_val(a@) > digits_val(b@)),
        (r == Ordering::Equal <==> digits_val(a@) == digits_val(b@)),
{
    proof {
        lemma_val_zero_prefix(a@);
        lemma_val_zero_prefix(b@);
    }
    let za = zeros_from(a);
    let zb = zeros_from(b);
    let ghost sa = a@.skip(za as int);
    let ghost sb = b@.skip(zb as int);
    proof {
        assert(all_digits(sa));
        assert(all_digits(sb));
    }
    let la = a.len() - za;
    let lb = b.len() - zb;
    if la < lb {
        proof {
            lemma_digits_val_bound(sa);
            lemma_val_ge_pow(sb);
            lemma_pow10_mono(la as nat, (lb - 1) as nat);
        }
        Ordering::Less
    } else if lb < la {
        proof {
            lemma_digits_val_bound(sb);
            lemma_val_ge_pow(sa);
            lemma_pow10_mono(lb as nat, (la - 1) as nat);
        }
        Ordering::Greater
    } else {
        let mut i: usize = 0;
        loop
            invariant
                0 <= i <= la,
                la == lb,
                za + la == a@.len(),
                zb + lb == b@.len(),
                za + la <= usize::MAX,
                zb + lb <= usize::MAX,
                sa == a@.skip(za as int),
                sb == b@.skip(zb as int),
                all_digits(sa),
                all_digits(sb),
                forall|m: int| 0 <= m < i ==> #[trigger] sa[m] == sb[m],
            ensures
                0 <= i <= la,
                forall|m: int| 0 <= m < i ==> #[trigger] sa[m] == sb[m],
                i < la ==> sa[i as int] != sb[i as int],
            decreases la - i,
        {
            if i == la {
                break ;
            }
            if a[za + i] != b[zb + i] {
                proof {
                    assert(sa[i as int] == a@[za + i]);
                    assert(sb[i as int] == b@[zb + i]);
                }
                break ;
            }
            proof {
                assert(sa[i as int] == a@[za + i]);
                assert(sb[i as int] == b@[zb + i]);
            }
            i = i + 1;
        }
        if i == la {
            proof {
                assert(sa =~= sb);
            }
            Ordering::Equal
        } else {
            let ca = a[za + i];
            let cb = b[zb + i];
            proof {
                assert(ca == sa[i as int]);
                assert(cb == sb[i as int]);
                lemma_char_neq(ca, cb);
                assert(sa.take(i as int) =~= sb.take(i as int));
            }
            if (ca as u32) < (cb as u32) {
                proof {
                    lemma_eqlen_lt(sa, sb, i as int);
                }
                Ordering::Less
            } else {
                proof {
                    lemma_eqlen_lt(sb, sa, i as int);
                }
                Ordering::Greater
            }
        }
    }
}

/// Compare two character vectors in the human order.
fn cmp_chars(x: &Vec<char>, y: &Vec<char>) -> (r: Ordering)
    ensures
        r == spec_human_cmp(x@, y@),
{
    let mut i: usize = 0;
    let mut j: usize = 0;
    proof {
        assert(x@.skip(0) =~= x@);
        assert(y@.skip(0) =~= y@);
    }
    loop
        invariant
            0 <= i <= x@.len(),
            0 <= j <= y@.len(),
            spec_human_cmp(x@, y@) == spec_human_cmp(x@.skip(i as int), y@.skip(j as int)),
        decreases x@.len() - i + y@.len() - j,
    {
        let ghost sx = x@.skip(i as int);
        let ghost sy = y@.skip(j as int);
        if i == x.len() && j == y.len() {
            return Ordering::Equal;
        }
        if i == x.len() {
            return Ordering::Less;
        }
        if j == y.len() {
            return Ordering::Greater;
        }
        let cx = x[i];
        let cy = y[j];
        proof {
            assert(sx[0] == cx);
            assert(sy[0] == cy);
        }
        if is_digit_char(cx) && is_digit_char(cy) {
            let ra = run_len_from(x, i);
            let rb = run_len_from(y, j);
            let sub_a = subvec(x, i, i + ra);
            let sub_b = subvec(y, j, j + rb);
            proof {
                assert(digit_run_len(sx) == ra);
                assert(digit_run_len(sy) == rb);
                assert(sub_a@ =~= sx.take(ra as int));
                assert(sub_b@ =~= sy.take(rb as int));
                assert(all_digits(sub_a@));
                assert(all_digits(sub_b@));
            }
            let c = cmp_digit_vals(&sub_a, &sub_b);
            match c {
                Ordering::Less => {
                    return Ordering::Less;
                },
                Ordering::Greater => {
                    return Ordering::Greater;
                },
                Ordering::Equal => {
                    if ra > rb {
                        return Ordering::Less;
                    } else if rb > ra {
                        return Ordering::Greater;
                    } else {
                        proof {
                            assert(x@.skip(i + ra) =~= sx.skip(ra as int));
                            assert(y@.skip(j + rb) =~= sy.skip(rb as int));
                        }
                        i = i + ra;
                        j = j + rb;
                    }
                },
            }
        } else if cx == cy {
            proof {
                assert(x@.skip(i + 1) =~= sx.skip(1));
                assert(y@.skip(j + 1) =~= sy.skip(1));
            }
            i = i + 1;
            j = j + 1;
        } else {
            proof {
                lemma_char_neq(cx, cy);
            }
            if (cx as u32) < (cy as u32) {
                return Ordering::Less;
            } else {
                return Ordering::Greater;
            }
        }
    }
}

/// Compare two names in the human order: digit runs order numerically, and
/// names that both look like negative numbers order by signed magnitude.
pub fn human_compare(a: &str, b: &str) -> (r: Ordering)
    ensures
        r == spec_human_compare(a@, b@),
{
    let av = chars_of(a);
    let bv = chars_of(b);
    if av.len() > 0 && bv.len() > 0 {
        let na = av[0] == '-';
        let nb = bv[0] == '-';
        if na && nb {
            cmp_chars(&bv, &av)
        } else {
            cmp_chars(&av, &bv)
        }
    } else {
        cmp_chars(&av, &bv)
    }
}

} // verus!

verus! {

/// The opposite of an ordering.
pub open spec fn flip(o: Ordering) -> Ordering {
    match o {
        Ordering::Less => Ordering::Greater,
        Ordering::Equal => Ordering::Equal,
        Ordering::Greater => Ordering::Less,
    }
}

/// Swapping the operands of `spec_human_cmp` flips the result.
pub proof fn lemma_human_cmp_antisym(a: Seq<char>, b: Seq<char>)
    ensures
        spec_human_cmp(b, a) == flip(spec_human_cmp(a, b)),
    decreases a.len() + b.len(),
{
    lemma_digit_run_len_le(a);
    lemma_digit_run_len_le(b);
    if a.len() == 0 || b.len() == 0 {
    } else if spec_is_digit(a[0]) && spec_is_digit(b[0]) {
        let ra = digit_run_len(a);
        let rb = digit_run_len(b);
        let va = digits_val(a.take(ra as int));
        let vb = digits_val(b.take(rb as int));
        if va == vb && ra == rb {
            lemma_human_cmp_antisym(a.skip(ra as int), b.skip(rb as int));
        }
    } else if a[0] == b[0] {
        lemma_human_cmp_antisym(a.skip(1), b.skip(1));
    } else {
        lemma_char_neq(a[0], b[0]);
    }
}

/// Two equal-length digit sequences with the same value are identical.
pub proof fn lemma_eqlen_eq(s: Seq<char>, t: Seq<char>)
    requires
        all_digits(s),
        all_digits(t),
        s.len() == t.len(),
        digits_val(s) == digits_val(t),
    ensures
        s == t,
    decreases s.len(),
{
    if s.len() == 0 {
        assert(s =~= t);
    } else {
        let l = s.len() as int;
        lemma_digits_val_head(s);
        lemma_digits_val_head(t);
        assert(all_digits(s.skip(1)));
        assert(all_digits(t.skip(1)));
        lemma_digits_val_bound(s.skip(1));
        lemma_digits_val_bound(t.skip(1));
        let p = pow10((l - 1) as nat);
        lemma_pow10_pos((l - 1) as nat);
        let ds = s[0] as u32 - 48;
        let dt = t[0] as u32 - 48;
        if ds < dt {
            assert(ds * p + p <= dt * p) by (nonlinear_arith)
                requires
                    ds + 1 <= dt,
                    p >= 1,
            ;
            assert(false);
        } else if dt < ds {
            assert(dt * p + p <= ds * p) by (nonlinear_arith)
                requires
                    dt + 1 <= ds,
                    p >= 1,
            ;
            assert(false);
        } else {
            vstd::utf8::char_u32_cast(s[0], s[0] as u32);
            vstd::utf8::char_u32_cast(t[0], t[0] as u32);
            assert(s[0] == t[0]);
            lemma_eqlen_eq(s.skip(1), t.skip(1));
            assert(s =~= seq![s[0]] + s.skip(1));
            assert(t =~= seq![t[0]] + t.skip(1));
        }
    }
}

/// `spec_human_cmp` reports `Equal` exactly on identical sequences.
pub proof fn lemma_human_cmp_eq(a: Seq<char>, b: Seq<char>)
    ensures
        (spec_human_cmp(a, b) == Ordering::Equal) <==> a == b,
    decreases a.len() + b.len(),
{
    lemma_digit_run_len_le(a);
    lemma_digit_run_len_le(b);
    if a.len() == 0 && b.len() == 0 {
        assert(a =~= b);
    } else if a.len() == 0 || b.len() == 0 {
    } else if spec_is_digit(a[0]) && spec_is_digit(b[0]) {
        let ra = digit_run_len(a);
        let rb = digit_run_len(b);
        let ta = a.take(ra as int);
        let tb = b.take(rb as int);
        let va = digits_val(ta);
        let vb = digits_val(tb);
        if va == vb && ra == rb {
            lemma_human_cmp_eq(a.skip(ra as int), b.skip(rb as int));
            if spec_human_cmp(a, b) == Ordering::Equal {
                lemma_digit_run_digits(a);
                lemma_digit_run_digits(b);
                assert(forall|m: int| 0 <= m < ra ==> #[trigger] ta[m] == a[m]);
                assert(forall|m: int| 0 <= m < rb ==> #[trigger] tb[m] == b[m]);
                lemma_eqlen_eq(ta, tb);
                assert(a =~= ta + a.skip(ra as int));
                assert(b =~= tb + b.skip(rb as int));
            }
            if a == b {
                assert(a.skip(ra as int) == b.skip(rb as int));
            }
        } else {
            if a == b {
                assert(ra == rb) by {
                    assert(a.skip(0) =~= a);
                    assert(b.skip(0) =~= b);
                };
                assert(false);
            }
        }
    } else if a[0] == b[0] {
        lemma_human_cmp_eq(a.skip(1), b.skip(1));
        if spec_human_cmp(a, b) == Ordering::Equal {
            assert(a =~= seq![a[0]] + a.skip(1));
            assert(b =~= seq![b[0]] + b.skip(1));
        }
        if a == b {
            assert(a.skip(1) == b.skip(1));
        }
    } else {
        lemma_char_neq(a[0], b[0]);
    }
}

} // verus!
verus! {

/// Transitivity of the strict human order.
pub proof fn lemma_human_cmp_trans(a: Seq<char>, b: Seq<char>, c: Seq<char>)
    requires
        spec_human_cmp(a, b) == Ordering::Less,
        spec_human_cmp(b, c) == Ordering::Less,
    ensures
        spec_human_cmp(a, c) == Ordering::Less,
    decreases a.len() + b.len() + c.len(),
{
    lemma_digit_run_len_le(a);
    lemma_digit_run_len_le(b);
    lemma_digit_run_len_le(c);
    if b.len() == 0 {
        assert(false);
    } else if c.len() == 0 {
        assert(false);
    } else if a.len() == 0 {
    } else {
        let da = spec_is_digit(a[0]);
        let db = spec_is_digit(b[0]);
        let dc = spec_is_digit(c[0]);
        if da && db && dc {
            let ra = digit_run_len(a);
            let rb = digit_run_len(b);
            let rc = digit_run_len(c);
            let va = digits_val(a.take(ra as int));
            let vb = digits_val(b.take(rb as int));
            let vc = digits_val(c.take(rc as int));
            if va == vb && ra == rb && va == vc && ra == rc {
                lemma_human_cmp_trans(a.skip(ra as int), b.skip(rb as int), c.skip(rc as int));
            }
        } else if da && db && !dc {
            // cmp(b, c) is decided at the heads, so c starts above the digits.
            lemma_char_neq(b[0], c[0]);
            if a[0] == c[0] {
                assert(false);
            }
        } else if da && !db {
            // cmp(a, b) is decided at the heads: b starts above the digits,
            // so cmp(b, c) cannot be Less when c starts with a digit, and
            // otherwise c starts above b.
            lemma_char_neq(a[0], b[0]);
            assert((b[0] as u32) > 57);
            if dc {
                lemma_char_neq(b[0], c[0]);
                assert(false);
            } else {
                if b[0] == c[0] {
                    if a[0] == c[0] {
                        assert(false);
                    }
                } else {
                    lemma_char_neq(b[0], c[0]);
                    if a[0] == c[0] {
                        assert(false);
                    }
                }
            }
        } else if !da && db {
            // cmp(a, b) is decided at the heads: a starts below the digits.
            lemma_char_neq(a[0], b[0]);
            assert((a[0] as u32) < 48);
            if dc {
                if a[0] == c[0] {
                    assert(false);
                }
            } else {
                lemma_char_neq(b[0], c[0]);
                assert((c[0] as u32) > 57);
                if a[0] == c[0] {
                    assert(false);
                }
            }
        } else {
            // Neither a nor b starts with a digit.
            if a[0] == b[0] {
                if b[0] == c[0] {
                    if dc {
                        assert(false);
                    }
                    lemma_human_cmp_trans(a.skip(1), b.skip(1), c.skip(1));
                } else {
                    lemma_char_neq(b[0], c[0]);
                    if a[0] == c[0] {
                        assert(false);
                    }
                }
            } else {
                lemma_char_neq(a[0], b[0]);
                if b[0] == c[0] {
                    if a[0] == c[0] {
                        assert(false);
                    }
                } else {
                    lemma_char_neq(b[0], c[0]);
                    if a[0] == c[0] {
                        assert(false);
                    }
                }
            }
        }
    }
}

} // verus!
verus! {

/// Whether a name takes part in the negative-number swap.
pub open spec fn spec_neg_name(a: Seq<char>) -> bool {
    a.len() > 0 && a[0] == '-'
}

/// Swapping the operands of `spec_human_compare` flips the result.
pub proof fn lemma_human_compare_antisym(a: Seq<char>, b: Seq<char>)
    ensures
        spec_human_compare(b, a) == flip(spec_human_compare(a, b)),
{
    if spec_neg_name(a) && spec_neg_name(b) {
        lemma_human_cmp_antisym(b, a);
    } else {
        lemma_human_cmp_antisym(a, b);
    }
}

/// `spec_human_compare` reports `Equal` exactly on identical sequences.
pub proof fn lemma_human_compare_eq(a: Seq<char>, b: Seq<char>)
    ensures
        (spec_human_compare(a, b) == Ordering::Equal) <==> a == b,
{
    if spec_neg_name(a) && spec_neg_name(b) {
        lemma_human_cmp_eq(b, a);
    } else {
        lemma_human_cmp_eq(a, b);
    }
}

/// Transitivity of the strict order of `spec_human_compare`.
pub proof fn lemma_human_compare_trans(a: Seq<char>, b: Seq<char>, c: Seq<char>)
    requires
        spec_human_compare(a, b) == Ordering::Less,
        spec_human_compare(b, c) == Ordering::Less,
    ensures
        spec_human_compare(a, c) == Ordering::Less,
{
    let na = spec_neg_name(a);
    let nb = spec_neg_name(b);
    let nc = spec_neg_name(c);
    if na && nb && nc {
        lemma_human_cmp_trans(c, b, a);
    } else if na && nb && !nc {
        // b is negative and compares below c, so c starts above '-'.
        if c.len() == 0 {
            assert(false);
        }
        if spec_is_digit(b[0]) && spec_is_digit(c[0]) {
            assert(false);
        }
        if b[0] != c[0] {
            lemma_char_neq(b[0], c[0]);
        }
        assert((c[0] as u32) > 45);
        lemma_char_neq(a[0], c[0]);
    } else if na && !nb && nc {
        // a below b puts b above '-'; b below the negative c puts b below '-'.
        if b.len() == 0 || c.len() == 0 {
            assert(false);
        }
        if spec_is_digit(a[0]) && spec_is_digit(b[0]) {
            assert(false);
        }
        if a[0] != b[0] {
            lemma_char_neq(a[0], b[0]);
        }
        if spec_is_digit(b[0]) && spec_is_digit(c[0]) {
            assert(false);
        }
        if b[0] != c[0] {
            lemma_char_neq(b[0], c[0]);
        }
        assert(false);
    } else if na && !nb && !nc {
        if b.len() == 0 || c.len() == 0 {
            assert(false);
        }
        if spec_is_digit(a[0]) && spec_is_digit(b[0]) {
            assert(false);
        }
        if a[0] != b[0] {
            lemma_char_neq(a[0], b[0]);
        }
        assert((b[0] as u32) > 45);
        // Whatever decided cmp(b, c), the head of c stays above '-'.
        if spec_is_digit(b[0]) && spec_is_digit(c[0]) {
            assert((c[0] as u32) >= 48);
        } else if b[0] == c[0] {
        } else {
            lemma_char_neq(b[0], c[0]);
        }
        assert((c[0] as u32) > 45);
        lemma_char_neq(a[0], c[0]);
    } else if !na && nb && nc {
        // a compares below the negative b, so a starts below '-', and the
        // negative c starts with '-' itself.
        if b.len() == 0 {
            assert(false);
        }
        if a.len() == 0 {
        } else {
            if spec_is_digit(a[0]) && spec_is_digit(b[0]) {
                assert(false);
            }
            if a[0] != b[0] {
                lemma_char_neq(a[0], b[0]);
            }
            assert((a[0] as u32) < 45);
            lemma_char_neq(a[0], c[0]);
        }
    } else if !na && nb && !nc {
        if b.len() == 0 || c.len() == 0 {
            assert(false);
        }
        if a.len() == 0 {
        } else {
            if spec_is_digit(a[0]) && spec_is_digit(b[0]) {
                assert(false);
            }
            if a[0] != b[0] {
                lemma_char_neq(a[0], b[0]);
            }
            assert((a[0] as u32) < 45);
            if spec_is_digit(b[0]) && spec_is_digit(c[0]) {
                assert(false);
            }
            if b[0] != c[0] {
                lemma_char_neq(b[0], c[0]);
            }
            assert((c[0] as u32) > 45);
            lemma_char_neq(a[0], c[0]);
        }
    } else if !na && !nb && nc {
        if b.len() == 0 || c.len() == 0 {
            assert(false);
        }
        if spec_is_digit(b[0]) && spec_is_digit(c[0]) {
            assert(false);
        }
        if b[0] != c[0] {
            lemma_char_neq(b[0], c[0]);
        }
        assert((b[0] as u32) < 45);
        if a.len() == 0 {
        } else {
            if spec_is_digit(a[0]) && spec_is_digit(b[0]) {
                assert(false);
            }
            if a[0] != b[0] {
                lemma_char_neq(a[0], b[0]);
            }
            assert((a[0] as u32) < 45);
            lemma_char_neq(a[0], c[0]);
        }
    } else {
        lemma_human_cmp_trans(a, b, c);
    }
}

} // verus!
verus! {

/// Concatenation of a sequence of character sequences.
pub open spec fn concat_seqs(ss: Seq<Seq<char>>) -> Seq<char>
    decreases ss.len(),
{
    if ss.len() == 0 {
        Seq::empty()
    } else {
        ss[0] + concat_seqs(ss.skip(1))
    }
}

/// Concatenation grows one piece at a time from the left.
pub proof fn lemma_concat_take_step(ss: Seq<Seq<char>>, i: int)
    requires
        0 <= i < ss.len(),
    ensures
        concat_seqs(ss.take(i + 1)) == concat_seqs(ss.take(i)) + ss[i],
    decreases i,
{
    if i == 0 {
        assert(ss.take(1).skip(1) =~= Seq::<Seq<char>>::empty());
        assert(ss.take(0) =~= Seq::<Seq<char>>::empty());
        assert(ss.take(1)[0] == ss[0]);
        assert(concat_seqs(ss.take(1)) =~= concat_seqs(ss.take(0)) + ss[0]);
    } else {
        lemma_concat_take_step(ss.skip(1), i - 1);
        assert(ss.skip(1).take(i) =~= ss.take(i + 1).skip(1));
        assert(ss.skip(1).take(i - 1) =~= ss.take(i).skip(1));
        assert(ss.skip(1)[i - 1] == ss[i]);
        assert(ss.take(i + 1)[0] == ss[0]);
        assert(ss.take(i)[0] == ss[0]);
        assert(concat_seqs(ss.take(i + 1)) == ss[0] + concat_seqs(ss.take(i + 1).skip(1)));
        assert(concat_seqs(ss.take(i)) == ss[0] + concat_seqs(ss.take(i).skip(1)));
        assert((ss[0] + concat_seqs(ss.skip(1).take(i - 1))) + ss[i] =~= ss[0] + (concat_seqs(
            ss.skip(1).take(i - 1),
        ) + ss[i]));
    }
}

/// What `unicode_segmentation` returns for the word bounds of a string.
pub uninterp spec fn word_bounds_of(s: Seq<char>) -> Seq<Seq<char>>;

/// What `unicode_segmentation` returns for the extended grapheme clusters
/// of a string.
pub uninterp spec fn graphemes_of(s: Seq<char>) -> Seq<Seq<char>>;

/// What `str::to_lowercase` returns.
pub uninterp spec fn lower_of(s: Seq<char>) -> Seq<char>;

/// What `str::to_uppercase` returns.
pub uninterp spec fn upper_of(s: Seq<char>) -> Seq<char>;

/// Relies on `unicode_segmentation::UnicodeSegmentation::split_word_bounds`:
/// the returned substrings concatenate back to the original string.
#[verifier::external_body]
fn split_word_bounds(s: &str) -> (r: Vec<String>)
    ensures
        r.deep_view() == word_bounds_of(s.view()),
        concat_seqs(r.deep_view()) == s.view(),
{
    s.split_word_bounds().map(|w| w.to_string()).collect()
}

/// Relies on `unicode_segmentation::UnicodeSegmentation::graphemes` (with
/// extended grapheme clusters): the returned substrings concatenate back to
/// the original string.
#[verifier::external_body]
fn grapheme_clusters(s: &str) -> (r: Vec<String>)
    ensures
        r.deep_view() == graphemes_of(s.view()),
        concat_seqs(r.deep_view()) == s.view(),
{
    s.graphemes(true).map(|g| g.to_string()).collect()
}

/// Relies on `str::to_lowercase`: the result is a function of the
/// characters alone, and lowercasing an empty string yields an empty string.
#[verifier::external_body]
pub(crate) fn to_lowercase(s: &str) -> (r: String)
    ensures
        r.view() == lower_of(s.view()),
        s.view().len() == 0 ==> r.view().len() == 0,
{
    s.to_lowercase()
}

/// Relies on `str::to_uppercase`: the result is a function of the
/// characters alone, and uppercasing an empty string yields an empty string.
#[verifier::external_body]
fn to_uppercase(s: &str) -> (r: String)
    ensures
        r.view() == upper_of(s.view()),
        s.view().len() == 0 ==> r.view().len() == 0,
{
    s.to_uppercase()
}

/// Relies on `String::from_iter` over a character vector: the resulting
/// string holds exactly those characters.
#[verifier::external_body]
pub(crate) fn string_from_chars(v: &Vec<char>) -> (r: String)
    ensures
        r.view() == v.view(),
{
    v.iter().collect()
}

/// One word with its first grapheme cluster uppercased and the rest of the
/// word lowercased.
pub open spec fn spec_capitalize_word(w: Seq<char>) -> Seq<char> {
    let gs = graphemes_of(w);
    if gs.len() == 0 {
        Seq::empty()
    } else {
        upper_of(gs[0]) + lower_of(concat_seqs(gs.skip(1)))
    }
}

/// Each word of `s` capitalized, concatenated back together.
pub open spec fn spec_capitalize_words(s: Seq<char>) -> Seq<char> {
    concat_seqs(word_bounds_of(s).map(|i: int, w: Seq<char>| spec_capitalize_word(w)))
}

/// Capitalize every word of `s`: the first grapheme cluster of each word is
/// uppercased, the rest lowercased.
pub fn capitalize_words(s: &str) -> (r: String)
    ensures
        r@ == spec_capitalize_words(s@),
{
    let words = split_word_bounds(s);
    let ghost caps = word_bounds_of(s@).map(|i: int, w: Seq<char>| spec_capitalize_word(w));
    let mut out = String::new();
    let mut i: usize = 0;
    proof {
        assert(caps.take(0) =~= Seq::<Seq<char>>::empty());
    }
    while i < words.len()
        invariant
            0 <= i <= words.len(),
            words.deep_view() == word_bounds_of(s@),
            caps == word_bounds_of(s@).map(|i: int, w: Seq<char>| spec_capitalize_word(w)),
            out@ == concat_seqs(caps.take(i as int)),
        decreases words.len() - i,
    {
        let word: &String = &words[i];
        proof {
            assert(word@ == words.deep_view()[i as int]);
        }
        let gs = grapheme_clusters(word.as_str());
        if gs.len() > 0 {
            let first = to_uppercase(gs[0].as_str());
            out.append(first.as_str());
            let mut rest = String::new();
            let mut j: usize = 1;
            proof {
                assert(graphemes_of(word@).skip(1).take(0) =~= Seq::<Seq<char>>::empty());
            }
            while j < gs.len()
                invariant
                    1 <= j <= gs.len(),
                    gs.deep_view() == graphemes_of(word@),
                    rest@ == concat_seqs(graphemes_of(word@).skip(1).take(j - 1)),
                decreases gs.len() - j,
            {
                proof {
                    assert(gs[j as int]@ == gs.deep_view()[j as int]);
                    assert(graphemes_of(word@).skip(1)[j - 1] == graphemes_of(word@)[j as int]);
                    lemma_concat_take_step(graphemes_of(word@).skip(1), j - 1);
                }
                rest.append(gs[j].as_str());
                j = j + 1;
            }
            proof {
                let tail = graphemes_of(word@).skip(1);
                assert(tail.take(gs.len() - 1) =~= tail);
            }
            let lowered = to_lowercase(rest.as_str());
            out.append(lowered.as_str());
        }
        proof {
            assert(caps[i as int] == spec_capitalize_word(word@));
            lemma_concat_take_step(caps, i as int);
        }
        i = i + 1;
    }
    proof {
        assert(caps.take(words@.len() as int) =~= caps);
    }
    out
}

/// The ellipsis marker appended by `ellipsis`.
pub open spec fn spec_ellipsis_mark() -> Seq<char> {
    seq!['\u{2026}']
}

/// Grapheme-aware truncation: a string with more grapheme clusters than the
/// (at least 2) limit is cut and marked with a trailing ellipsis character.
pub open spec fn spec_ellipsis(s: Seq<char>, max_length: int) -> Seq<char> {
    let maxl = if max_length < 2 {
        2
    } else {
        max_length
    };
    let gs = graphemes_of(s);
    if gs.len() > maxl {
        concat_seqs(gs.take(maxl - 1)) + spec_ellipsis_mark()
    } else {
        s
    }
}

/// Truncate `s` to at most `max_length` grapheme clusters, replacing the cut
/// tail with an ellipsis character.
pub fn ellipsis(s: &str, max_length: usize) -> (r: String)
    ensures
        r@ == spec_ellipsis(s@, max_length as int),
{
    let maxl = if max_length < 2 {
        2
    } else {
        max_length
    };
    let gs = grapheme_clusters(s);
    if gs.len() > maxl {
        let mut out = String::new();
        let mut i: usize = 0;
        proof {
            assert(graphemes_of(s@).take(0) =~= Seq::<Seq<char>>::empty());
        }
        while i < maxl - 1
            invariant
                2 <= maxl,
                0 <= i <= maxl - 1,
                maxl - 1 < gs@.len(),
                gs.deep_view() == graphemes_of(s@),
                out@ == concat_seqs(graphemes_of(s@).take(i as int)),
            decreases maxl - 1 - i,
        {
            proof {
                assert(gs[i as int]@ == gs.deep_view()[i as int]);
                lemma_concat_take_step(graphemes_of(s@), i as int);
            }
            out.append(gs[i].as_str());
            i = i + 1;
        }
        let mark = ellipsis_mark();
        out.append(mark.as_str());
        out
    } else {
        s.to_owned()
    }
}

/// The ellipsis character as a string.
fn ellipsis_mark() -> (r: String)
    ensures
        r@ == spec_ellipsis_mark(),
{
    proof {
        reveal_strlit("\u{2026}");
    }
    let m = "\u{2026}";
    proof {
        assert(m@ =~= spec_ellipsis_mark());
    }
    m.to_owned()
}

} // verus!
