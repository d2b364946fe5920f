//! Plain-text utilities used by the document parser and the tree store:
//! whitespace trimming, line splitting, substring search, and the few
//! path-name computations the synchronizer needs.

use vstd::prelude::*;

verus! {

use crate::str_ext::{chars_of, string_from_chars};

/// What `char::is_whitespace` returns.
pub uninterp spec fn white_of(c: char) -> bool;

/// Relies on `char::is_whitespace`: the ASCII space, tab, line feed and
/// carriage return count as whitespace, and no printable ASCII character
/// does.
#[verifier::external_body]
fn char_is_whitespace(c: char) -> (b: bool)
    ensures
        b == white_of(c),
        c == ' ' || c == '\t' || c == '\n' || c == '\r' ==> b,
        33 <= c as u32 <= 126 ==> !b,
{
    c.is_whitespace()
}

/// Number of leading whitespace characters.
pub open spec fn lead_ws(s: Seq<char>) -> nat
    decreases s.len(),
{
    if s.len() == 0 || !white_of(s[0]) {
        0
    } else {
        1 + lead_ws(s.skip(1))
    }
}

/// Number of trailing whitespace characters.
pub open spec fn trail_ws(s: Seq<char>) -> nat
    decreases s.len(),
{
    if s.len() == 0 || !white_of(s.last()) {
        0
    } else {
        1 + trail_ws(s.drop_last())
    }
}

/// `s` with leading and trailing whitespace removed.
pub open spec fn spec_trim(s: Seq<char>) -> Seq<char> {
    if lead_ws(s) == s.len() {
        Seq::empty()
    } else {
        s.subrange(lead_ws(s) as int, s.len() - trail_ws(s))
    }
}

/// Characterization of `lead_ws` by its boundary.
pub proof fn lemma_lead_ws_is(s: Seq<char>, k: int)
    requires
        0 <= k <= s.len(),
        forall|m: int| 0 <= m < k ==> white_of(#[trigger] s[m]),
        k < s.len() ==> !white_of(s[k]),
    ensures
        lead_ws(s) == k,
    decreases k,
{
    if k > 0 {
        assert(forall|m: int| 0 <= m < k - 1 ==> #[trigger] s.skip(1)[m] == s[m + 1]);
        lemma_lead_ws_is(s.skip(1), k - 1);
    }
}

/// Characterization of `trail_ws` by its boundary.
pub proof fn lemma_trail_ws_is(s: Seq<char>, k: int)
    requires
        0 <= k <= s.len(),
        forall|m: int| s.len() - k <= m < s.len() ==> white_of(#[trigger] s[m]),
        k < s.len() ==> !white_of(s[s.len() - k - 1]),
    ensures
        trail_ws(s) == k,
    decreases k,
{
    if k > 0 {
        assert(s.last() == s[s.len() - 1]);
        assert(forall|m: int|
            0 <= m < s.len() - 1 ==> #[trigger] s.drop_last()[m] == s[m]);
        lemma_trail_ws_is(s.drop_last(), k - 1);
    }
}

/// Remove leading and trailing whitespace.
pub fn trim_chars(v: &Vec<char>) -> (r: Vec<char>)
    ensures
        r@ == spec_trim(v@),
{
    let n = v.len();
    let mut lo: usize = 0;
    loop
        invariant
            0 <= lo <= n,
            n == v@.len(),
            forall|m: int| 0 <= m < lo ==> white_of(#[trigger] v@[m]),
        ensures
            0 <= lo <= n,
            n == v@.len(),
            forall|m: int| 0 <= m < lo ==> white_of(#[trigger] v@[m]),
            lo < n ==> !white_of(v@[lo as int]),
        decreases n - lo,
    {
        if lo == n {
            break ;
        }
        if !char_is_whitespace(v[lo]) {
            break ;
        }
        lo = lo + 1;
    }
    if lo == n {
        proof {
            lemma_lead_ws_is(v@, lo as int);
        }
        Vec::new()
    } else {
        let mut hi: usize = n;
        loop
            invariant
                lo < hi <= n,
                n == v@.len(),
                lo < n,
                !white_of(v@[lo as int]),
                forall|m: int| hi <= m < n ==> white_of(#[trigger] v@[m]),
            ensures
                lo < hi <= n,
                forall|m: int| hi <= m < n ==> white_of(#[trigger] v@[m]),
                !white_of(v@[hi - 1]),
            decreases hi,
        {
            if !char_is_whitespace(v[hi - 1]) {
                break ;
            }
            hi = hi - 1;
        }
        proof {
            lemma_lead_ws_is(v@, lo as int);
            lemma_trail_ws_is(v@, n - hi);
        }
        let mut r: Vec<char> = Vec::new();
        let mut k = lo;
        while k < hi
            invariant
                lo <= k <= hi <= v@.len(),
                r@ == v@.subrange(lo as int, k as int),
            decreases hi - k,
        {
            r.push(v[k]);
            proof {
                assert(r@ =~= v@.subrange(lo as int, k + 1));
            }
            k = k + 1;
        }
        r
    }
}

/// Remove leading and trailing whitespace of a string.
pub fn trim_str(s: &str) -> (r: String)
    ensures
        r@ == spec_trim(s@),
{
    let v = chars_of(s);
    let t = trim_chars(&v);
    string_from_chars(&t)
}

/// Index of the first occurrence of `c` in `s`.
pub open spec fn find_char(s: Seq<char>, c: char) -> Option<int>
    decreases s.len(),
{
    if s.len() == 0 {
        None
    } else if s[0] == c {
        Some(0)
    } else {
        match find_char(s.skip(1), c) {
            Some(i) => Some(i + 1),
            None => None,
        }
    }
}

/// Characterization of `find_char` when an occurrence exists.
pub proof fn lemma_find_char_is(s: Seq<char>, c: char, k: int)
    requires
        0 <= k < s.len(),
        forall|m: int| 0 <= m < k ==> #[trigger] s[m] != c,
        s[k] == c,
    ensures
        find_char(s, c) == Some(k),
    decreases k,
{
    if k > 0 {
        assert(forall|m: int| 0 <= m < k - 1 ==> #[trigger] s.skip(1)[m] == s[m + 1]);
        lemma_find_char_is(s.skip(1), c, k - 1);
    }
}

/// Characterization of `find_char` when no occurrence exists.
pub proof fn lemma_find_char_none(s: Seq<char>, c: char)
    requires
        forall|m: int| 0 <= m < s.len() ==> #[trigger] s[m] != c,
    ensures
        find_char(s, c) == None::<int>,
    decreases s.len(),
{
    if s.len() > 0 {
        assert(forall|m: int| 0 <= m < s.len() - 1 ==> #[trigger] s.skip(1)[m] == s[m + 1]);
        lemma_find_char_none(s.skip(1), c);
    }
}

/// Find the first occurrence of `c` in `v`, from `start` on.
pub fn find_char_from(v: &Vec<char>, c: char, start: usize) -> (r: Option<usize>)
    requires
        start <= v@.len(),
    ensures
        match r {
            Some(i) => start <= i < v@.len() && find_char(v@.skip(start as int), c) == Some(
                i - start,
            ),
            None => find_char(v@.skip(start as int), c) == None::<int>,
        },
{
    let mut k = start;
    loop
        invariant
            start <= k <= v@.len(),
            forall|m: int| start <= m < k ==> #[trigger] v@[m] != c,
        ensures
            start <= k <= v@.len(),
            forall|m: int| start <= m < k ==> #[trigger] v@[m] != c,
            k < v@.len() ==> v@[k as int] == c,
        decreases v@.len() - k,
    {
        if k == v.len() {
            break ;
        }
        if v[k] == c {
            break ;
        }
        k = k + 1;
    }
    let ghost s = v@.skip(start as int);
    if k == v.len() {
        proof {
            assert(forall|m: int| 0 <= m < s.len() ==> #[trigger] s[m] == v@[start + m]);
            lemma_find_char_none(s, c);
        }
        None
    } else {
        proof {
            assert(forall|m: int| 0 <= m < s.len() ==> #[trigger] s[m] == v@[start + m]);
            lemma_find_char_is(s, c, k - start);
        }
        Some(k)
    }
}

/// `s` with every space replaced by an underscore.
pub open spec fn spec_underscored(s: Seq<char>) -> Seq<char> {
    s.map(|i: int, c: char| if c == ' ' { '_' } else { c })
}

/// Replace every space with an underscore.
pub fn underscored(v: &Vec<char>) -> (r: Vec<char>)
    ensures
        r@ == spec_underscored(v@),
{
    let mut r: Vec<char> = Vec::new();
    let mut k: usize = 0;
    while k < v.len()
        invariant
            0 <= k <= v@.len(),
            r@.len() == k,
            forall|m: int| 0 <= m < k ==> #[trigger] r@[m] == (if v@[m] == ' ' { '_' } else { v@[m] }),
        decreases v@.len() - k,
    {
        if v[k] == ' ' {
            r.push('_');
        } else {
            r.push(v[k]);
        }
        k = k + 1;
    }
    proof {
        assert(r@ =~= spec_underscored(v@));
    }
    r
}

/// `p` is a prefix of `s`.
pub open spec fn spec_starts_with(s: Seq<char>, p: Seq<char>) -> bool {
    s.len() >= p.len() && s.take(p.len() as int) == p
}

/// `p` is a suffix of `s`.
pub open spec fn spec_ends_with(s: Seq<char>, p: Seq<char>) -> bool {
    s.len() >= p.len() && s.skip(s.len() - p.len()) == p
}

/// Whether `v` begins with the characters of `p`.
pub fn starts_with_chars(v: &Vec<char>, p: &Vec<char>) -> (b: bool)
    ensures
        b == spec_starts_with(v@, p@),
{
    if v.len() < p.len() {
        return false;
    }
    let mut k: usize = 0;
    while k < p.len()
        invariant
            0 <= k <= p@.len() <= v@.len(),
            forall|m: int| 0 <= m < k ==> #[trigger] v@[m] == p@[m],
        decreases p@.len() - k,
    {
        if v[k] != p[k] {
            proof {
                assert(v@.take(p@.len() as int)[k as int] == v@[k as int]);
            }
            return false;
        }
        k = k + 1;
    }
    proof {
        assert(v@.take(p@.len() as int) =~= p@);
    }
    true
}

/// Whether `v` ends with the characters of `p`.
pub fn ends_with_chars(v: &Vec<char>, p: &Vec<char>) -> (b: bool)
    ensures
        b == spec_ends_with(v@, p@),
{
    if v.len() < p.len() {
        return false;
    }
    let off = v.len() - p.len();
    let mut k: usize = 0;
    while k < p.len()
        invariant
            0 <= k <= p@.len() <= v@.len(),
            off == v@.len() - p@.len(),
            v@.len() <= usize::MAX,
            forall|m: int| 0 <= m < k ==> #[trigger] v@[off + m] == p@[m],
        decreases p@.len() - k,
    {
        if v[off + k] != p[k] {
            proof {
                assert(v@.skip(off as int)[k as int] == v@[off + k]);
            }
            return false;
        }
        k = k + 1;
    }
    proof {
        assert forall|m: int| 0 <= m < p@.len() implies v@.skip(off as int)[m] == p@[m] by {
            assert(v@.skip(off as int)[m] == v@[off + m]);
        }
        assert(v@.skip(off as int) =~= p@);
    }
    true
}

} // verus!
verus! {

use crate::str_ext::subvec;

/// A line with one trailing carriage return removed.
pub open spec fn strip_cr(l: Seq<char>) -> Seq<char> {
    if l.len() > 0 && l.last() == '\r' {
        l.drop_last()
    } else {
        l
    }
}

/// `find_char` finds a real occurrence, before which the character is absent.
pub proof fn lemma_find_char_props(s: Seq<char>, c: char)
    ensures
        match find_char(s, c) {
            Some(i) => 0 <= i < s.len() && s[i] == c && forall|m: int|
                0 <= m < i ==> #[trigger] s[m] != c,
            None => forall|m: int| 0 <= m < s.len() ==> #[trigger] s[m] != c,
        },
    decreases s.len(),
{
    if s.len() > 0 && s[0] != c {
        lemma_find_char_props(s.skip(1), c);
        match find_char(s.skip(1), c) {
            Some(i) => {
                assert(s[i + 1] == s.skip(1)[i]);
                assert forall|m: int| 0 <= m < i + 1 implies #[trigger] s[m] != c by {
                    if m > 0 {
                        assert(s.skip(1)[m - 1] == s[m]);
                    }
                }
            },
            None => {
                assert forall|m: int| 0 <= m < s.len() implies #[trigger] s[m] != c by {
                    if m > 0 {
                        assert(s.skip(1)[m - 1] == s[m]);
                    }
                }
            },
        }
    }
}

/// The lines of `s`: split at each line feed, with a carriage return
/// stripped from the end of every line that a line feed terminated.
pub open spec fn spec_lines(s: Seq<char>) -> Seq<Seq<char>>
    decreases s.len(),
        via spec_lines_decreases
{
    if s.len() == 0 {
        Seq::empty()
    } else {
        match find_char(s, '\n') {
            Some(i) => seq![strip_cr(s.take(i))] + spec_lines(s.skip(i + 1)),
            None => seq![s],
        }
    }
}

#[via_fn]
proof fn spec_lines_decreases(s: Seq<char>) {
    lemma_find_char_props(s, '\n');
}

/// Split `v` into its lines.
pub fn lines_of(v: &Vec<char>) -> (r: Vec<Vec<char>>)
    ensures
        r.deep_view() == spec_lines(v@),
{
    let mut r: Vec<Vec<char>> = Vec::new();
    let mut pos: usize = 0;
    proof {
        assert(v@.skip(0) =~= v@);
    }
    loop
        invariant
            0 <= pos <= v@.len(),
            r.deep_view() + spec_lines(v@.skip(pos as int)) == spec_lines(v@),
        ensures
            r.deep_view() == spec_lines(v@),
        decreases v@.len() - pos,
    {
        let ghost rem = v@.skip(pos as int);
        if pos == v.len() {
            proof {
                assert(r.deep_view() =~= spec_lines(v@));
            }
            break ;
        }
        match find_char_from(v, '\n', pos) {
            Some(i) => {
                let mut seg = subvec(v, pos, i);
                if seg.len() > 0 && seg[seg.len() - 1] == '\r' {
                    seg.pop();
                }
                proof {
                    assert(rem.take(i - pos) =~= v@.subrange(pos as int, i as int));
                    assert(seg@ =~= strip_cr(rem.take(i - pos)));
                    assert(rem.skip(i - pos + 1) =~= v@.skip(i + 1));
                }
                let ghost old_r = r.deep_view();
                r.push(seg);
                proof {
                    assert(r.deep_view() =~~= old_r + seq![strip_cr(rem.take(i - pos))]);
                    assert(old_r + (seq![strip_cr(rem.take(i - pos))] + spec_lines(
                        v@.skip(i + 1),
                    )) =~= (old_r + seq![strip_cr(rem.take(i - pos))]) + spec_lines(v@.skip(i + 1)));
                }
                pos = i + 1;
            },
            None => {
                let seg = subvec(v, pos, v.len());
                proof {
                    assert(seg@ =~= rem);
                }
                let ghost old_r = r.deep_view();
                r.push(seg);
                proof {
                    assert(r.deep_view() =~~= old_r + seq![rem]);
                    assert(r.deep_view() =~~= spec_lines(v@));
                }
                return r;
            },
        }
    }
    r
}

} // verus!
verus! {

/// Index of the last occurrence of `c` in `s`.
pub open spec fn find_last_char(s: Seq<char>, c: char) -> Option<int>
    decreases s.len(),
{
    if s.len() == 0 {
        None
    } else if s.last() == c {
        Some(s.len() - 1)
    } else {
        find_last_char(s.drop_last(), c)
    }
}

/// Characterization of `find_last_char` when an occurrence exists.
pub proof fn lemma_find_last_char_is(s: Seq<char>, c: char, k: int)
    requires
        0 <= k < s.len(),
        forall|m: int| k < m < s.len() ==> #[trigger] s[m] != c,
        s[k] == c,
    ensures
        find_last_char(s, c) == Some(k),
    decreases s.len(),
{
    if k < s.len() - 1 {
        assert(forall|m: int| 0 <= m < s.len() - 1 ==> #[trigger] s.drop_last()[m] == s[m]);
        lemma_find_last_char_is(s.drop_last(), c, k);
    }
}

/// Characterization of `find_last_char` when no occurrence exists.
pub proof fn lemma_find_last_char_none(s: Seq<char>, c: char)
    requires
        forall|m: int| 0 <= m < s.len() ==> #[trigger] s[m] != c,
    ensures
        find_last_char(s, c) == None::<int>,
    decreases s.len(),
{
    if s.len() > 0 {
        assert(forall|m: int| 0 <= m < s.len() - 1 ==> #[trigger] s.drop_last()[m] == s[m]);
        lemma_find_last_char_none(s.drop_last(), c);
    }
}

/// Find the last occurrence of `c` in `v`.
pub fn rfind_char(v: &Vec<char>, c: char) -> (r: Option<usize>)
    ensures
        match r {
            Some(i) => i < v@.len() && find_last_char(v@, c) == Some(i as int),
            None => find_last_char(v@, c) == None::<int>,
        },
{
    let mut k = v.len();
    loop
        invariant
            0 <= k <= v@.len(),
            forall|m: int| k <= m < v@.len() ==> #[trigger] v@[m] != c,
        ensures
            0 <= k <= v@.len(),
            forall|m: int| k <= m < v@.len() ==> #[trigger] v@[m] != c,
            k > 0 ==> v@[k - 1] == c,
        decreases k,
    {
        if k == 0 {
            break ;
        }
        if v[k - 1] == c {
            break ;
        }
        k = k - 1;
    }
    if k == 0 {
        proof {
            lemma_find_last_char_none(v@, c);
        }
        None
    } else {
        proof {
            lemma_find_last_char_is(v@, c, k - 1);
        }
        Some(k - 1)
    }
}

/// The file-name part of a path: everything after the last separator.
pub open spec fn spec_file_name(p: Seq<char>) -> Seq<char> {
    match find_last_char(p, '/') {
        Some(i) => p.skip(i + 1),
        None => p,
    }
}

/// The stem of a path's file name: the part before the final dot, except
/// that a dot in the leading position does not count.
pub open spec fn spec_file_stem(p: Seq<char>) -> Seq<char> {
    let n = spec_file_name(p);
    match find_last_char(n, '.') {
        Some(i) => if i > 0 {
            n.take(i)
        } else {
            n
        },
        None => n,
    }
}

/// Compute the stem of a path's file name.
pub fn file_stem(p: &str) -> (r: String)
    ensures
        r@ == spec_file_stem(p@),
{
    let v = chars_of(p);
    let name = match rfind_char(&v, '/') {
        Some(i) => subvec(&v, i + 1, v.len()),
        None => subvec(&v, 0, v.len()),
    };
    proof {
        assert(v@.subrange(0, v@.len() as int) =~= v@);
        assert(name@ =~= spec_file_name(p@));
    }
    let stem = match rfind_char(&name, '.') {
        Some(i) => {
            if i > 0 {
                subvec(&name, 0, i)
            } else {
                subvec(&name, 0, name.len())
            }
        },
        None => subvec(&name, 0, name.len()),
    };
    proof {
        assert(name@.subrange(0, name@.len() as int) =~= name@);
    }
    string_from_chars(&stem)
}

/// The code point of `c`, with ASCII capitals folded to lower case.
pub open spec fn lower_code(c: char) -> u32 {
    if 65 <= c as u32 <= 90 {
        (c as u32 + 32) as u32
    } else {
        c as u32
    }
}

/// `s` ends with `p` up to ASCII case.
pub open spec fn spec_ends_with_ignore_case(s: Seq<char>, p: Seq<char>) -> bool {
    s.len() >= p.len() && forall|m: int|
        0 <= m < p.len() ==> lower_code(#[trigger] s[s.len() - p.len() + m]) == lower_code(p[m])
}

/// A recognized setup-export name: it ends in `.htm` or `.html`, in any
/// letter case.
pub open spec fn spec_is_html_name(s: Seq<char>) -> bool {
    spec_ends_with_ignore_case(s, ".htm"@) || spec_ends_with_ignore_case(s, ".html"@)
}

/// Whether `v` ends with the characters of `p`, ignoring ASCII case.
fn ends_with_ignore_case(v: &Vec<char>, p: &Vec<char>) -> (b: bool)
    ensures
        b == spec_ends_with_ignore_case(v@, p@),
{
    if v.len() < p.len() {
        return false;
    }
    let off = v.len() - p.len();
    let mut k: usize = 0;
    while k < p.len()
        invariant
            0 <= k <= p@.len() <= v@.len(),
            off == v@.len() - p@.len(),
            v@.len() <= usize::MAX,
            forall|m: int| 0 <= m < k ==> lower_code(#[trigger] v@[off + m]) == lower_code(p@[m]),
        decreases p@.len() - k,
    {
        let cv = v[off + k] as u32;
        let cp = p[k] as u32;
        let lv = if cv >= 65 && cv <= 90 {
            cv + 32
        } else {
            cv
        };
        let lp = if cp >= 65 && cp <= 90 {
            cp + 32
        } else {
            cp
        };
        if lv != lp {
            return false;
        }
        k = k + 1;
    }
    true
}

/// Check if a file name is a recognized HTML setup export.
pub fn is_html(file_name: Option<&str>) -> (b: bool)
    ensures
        b == match file_name {
            Some(s) => spec_is_html_name(s@),
            None => false,
        },
{
    match file_name {
        Some(s) => {
            let v = chars_of(s);
            proof {
                reveal_strlit(".htm");
                reveal_strlit(".html");
            }
            let p1 = chars_of(".htm");
            let p2 = chars_of(".html");
            let r1 = ends_with_ignore_case(&v, &p1);
            let r2 = ends_with_ignore_case(&v, &p2);
            r1 || r2
        },
        None => false,
    }
}

/// First index at which `pat` occurs as a sub-sequence of `s`.
pub open spec fn find_sub(s: Seq<char>, pat: Seq<char>) -> Option<int>
    decreases s.len(),
{
    if pat.len() == 0 {
        Some(0)
    } else if s.len() < pat.len() {
        None
    } else if s.take(pat.len() as int) == pat {
        Some(0)
    } else {
        match find_sub(s.skip(1), pat) {
            Some(i) => Some(i + 1),
            None => None,
        }
    }
}

/// A subrange of a suffix is a subrange of the whole sequence.
pub proof fn lemma_skip_subrange(s: Seq<char>, n: int, a: int, b: int)
    requires
        0 <= n <= s.len(),
        0 <= a <= b <= s.len() - n,
    ensures
        s.skip(n).subrange(a, b) == s.subrange(n + a, n + b),
{
    assert(s.skip(n).subrange(a, b) =~= s.subrange(n + a, n + b));
}

/// Characterization of `find_sub` when a match exists.
pub proof fn lemma_find_sub_is(s: Seq<char>, pat: Seq<char>, k: int)
    requires
        0 <= k <= s.len() - pat.len(),
        forall|m: int| 0 <= m < k ==> #[trigger] s.subrange(m, m + pat.len()) != pat,
        s.subrange(k, k + pat.len()) == pat,
    ensures
        find_sub(s, pat) == Some(k),
    decreases k,
{
    if pat.len() == 0 {
        if k > 0 {
            assert(s.subrange(0, 0 + pat.len() as int) != pat);
            assert(s.subrange(0, 0) =~= pat);
            assert(false);
        }
    } else if k == 0 {
        assert(s.take(pat.len() as int) =~= s.subrange(0, pat.len() as int));
    } else {
        assert(s.subrange(0, 0 + pat.len() as int) != pat);
        assert(s.take(pat.len() as int) =~= s.subrange(0, 0 + pat.len() as int));
        assert forall|m: int| 0 <= m < k - 1 implies #[trigger] s.skip(1).subrange(
            m,
            m + pat.len(),
        ) != pat by {
            lemma_skip_subrange(s, 1, m, m + pat.len() as int);
            assert(s.subrange(m + 1, (m + 1) + pat.len() as int) != pat);
        }
        lemma_skip_subrange(s, 1, k - 1, k - 1 + pat.len() as int);
        lemma_find_sub_is(s.skip(1), pat, k - 1);
    }
}

/// Characterization of `find_sub` when no match exists.
pub proof fn lemma_find_sub_none(s: Seq<char>, pat: Seq<char>)
    requires
        forall|m: int| 0 <= m <= s.len() - pat.len() ==> #[trigger] s.subrange(m, m + pat.len())
            != pat,
    ensures
        find_sub(s, pat) == None::<int>,
    decreases s.len(),
{
    if pat.len() == 0 {
        assert(s.subrange(0, 0 + pat.len() as int) != pat);
        assert(s.subrange(0, 0) =~= pat);
        assert(false);
    } else if s.len() >= pat.len() {
        assert(s.subrange(0, 0 + pat.len() as int) != pat);
        assert(s.take(pat.len() as int) =~= s.subrange(0, 0 + pat.len() as int));
        assert forall|m: int| 0 <= m <= s.skip(1).len() - pat.len() implies #[trigger] s.skip(
            1,
        ).subrange(m, m + pat.len()) != pat by {
            lemma_skip_subrange(s, 1, m, m + pat.len() as int);
            assert(s.subrange(m + 1, (m + 1) + pat.len() as int) != pat);
        }
        lemma_find_sub_none(s.skip(1), pat);
    }
}

/// Find the first occurrence of `pat` in `v`.
pub fn find_sub_in(v: &Vec<char>, pat: &Vec<char>) -> (r: Option<usize>)
    requires
        pat@.len() > 0,
    ensures
        match r {
            Some(i) => i + pat@.len() <= v@.len() && find_sub(v@, pat@) == Some(i as int),
            None => find_sub(v@, pat@) == None::<int>,
        },
{
    if v.len() < pat.len() {
        proof {
            lemma_find_sub_none(v@, pat@);
        }
        return None;
    }
    let last_start = v.len() - pat.len();
    let mut k: usize = 0;
    loop
        invariant
            0 <= k <= last_start + 1,
            last_start == v@.len() - pat@.len(),
            v@.len() <= usize::MAX,
            pat@.len() > 0,
            forall|m: int| 0 <= m < k ==> #[trigger] v@.subrange(m, m + pat@.len()) != pat@,
        ensures
            0 <= k <= last_start + 1,
            forall|m: int| 0 <= m < k ==> #[trigger] v@.subrange(m, m + pat@.len()) != pat@,
            k <= last_start ==> v@.subrange(k as int, k + pat@.len()) == pat@,
        decreases last_start + 1 - k,
    {
        if k > last_start {
            break ;
        }
        let mut j: usize = 0;
        let mut matched = true;
        while j < pat.len()
            invariant
                0 <= j <= pat@.len(),
                k + pat@.len() <= v@.len(),
                v@.len() <= usize::MAX,
                matched == (forall|m: int| 0 <= m < j ==> #[trigger] v@[k + m] == pat@[m]),
            decreases pat@.len() - j,
        {
            if v[k + j] != pat[j] {
                matched = false;
                proof {
                    assert(v@[k + j] != pat@[j as int]);
                }
                j = pat.len();
            } else {
                j = j + 1;
            }
        }
        if matched {
            proof {
                assert forall|x: int| 0 <= x < pat@.len() implies v@.subrange(
                    k as int,
                    k + pat@.len(),
                )[x] == pat@[x] by {
                    assert(v@[k + x] == pat@[x]);
                }
                assert(v@.subrange(k as int, k + pat@.len()) =~= pat@);
            }
            break ;
        } else {
            proof {
                let ghost sub = v@.subrange(k as int, k + pat@.len());
                assert(exists|m: int| 0 <= m < pat@.len() && v@[k + m] != pat@[m]);
                let m = choose|m: int| 0 <= m < pat@.len() && v@[k + m] != pat@[m];
                assert(sub[m] == v@[k + m]);
                assert(sub != pat@);
            }
            k = k + 1;
        }
    }
    if k > last_start {
        proof {
            lemma_find_sub_none(v@, pat@);
        }
        None
    } else {
        proof {
            lemma_find_sub_is(v@, pat@, k as int);
        }
        Some(k)
    }
}

} // verus!
verus! {

/// Compare two string slices for character equality.
pub fn str_eq(a: &str, b: &str) -> (r: bool)
    ensures
        r == (a@ == b@),
{
    let va = chars_of(a);
    let vb = chars_of(b);
    chars_eq(&va, &vb)
}

/// Compare two character vectors for equality.
pub fn chars_eq(a: &Vec<char>, b: &Vec<char>) -> (r: bool)
    ensures
        r == (a@ == b@),
{
    if a.len() != b.len() {
        return false;
    }
    let mut k: usize = 0;
    while k < a.len()
        invariant
            0 <= k <= a@.len(),
            a@.len() == b@.len(),
            forall|m: int| 0 <= m < k ==> #[trigger] a@[m] == b@[m],
        decreases a@.len() - k,
    {
        if a[k] != b[k] {
            return false;
        }
        k = k + 1;
    }
    proof {
        assert(a@ =~= b@);
    }
    true
}

} // verus!
