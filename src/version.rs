use std::cmp::Ordering;
use vstd::prelude::*;

verus! {

pub open spec fn is_digit(c: char) -> bool {
    '0' <= c && c <= '9'
}

/// Length of the maximal run at the start of `s` of digits (`d`) or of non-digits.
pub open spec fn run_len(s: Seq<char>, d: bool) -> nat
    decreases s.len(),
{
    if s.len() > 0 && is_digit(s[0]) == d {
        1 + run_len(s.drop_first(), d)
    } else {
        0
    }
}

pub open spec fn strip_zeros(s: Seq<char>) -> Seq<char>
    decreases s.len(),
{
    if s.len() > 0 && s[0] == '0' {
        strip_zeros(s.drop_first())
    } else {
        s
    }
}

/// Lexicographic order by character code; a proper prefix comes first.
pub open spec fn cmp_lex(a: Seq<char>, b: Seq<char>) -> Ordering
    decreases a.len(),
{
    if a.len() == 0 && b.len() == 0 {
        Ordering::Equal
    } else if a.len() == 0 {
        Ordering::Less
    } else if b.len() == 0 {
        Ordering::Greater
    } else if (a[0] as u32) < (b[0] as u32) {
        Ordering::Less
    } else if (a[0] as u32) > (b[0] as u32) {
        Ordering::Greater
    } else {
        cmp_lex(a.drop_first(), b.drop_first())
    }
}

/// Numeric order of two digit runs: without leading zeros, the longer is larger,
/// and equal lengths compare digit by digit.
pub open spec fn cmp_digits(a: Seq<char>, b: Seq<char>) -> Ordering {
    let x = strip_zeros(a);
    let y = strip_zeros(b);
    if x.len() < y.len() {
        Ordering::Less
    } else if x.len() > y.len() {
        Ordering::Greater
    } else {
        cmp_lex(x, y)
    }
}

/// The alternating-run order: runs compared in turn, digit runs numerically and
/// other runs by character code; a digit run ranks above a non-digit run, and a
/// run ranks above no run.
pub open spec fn cmp_runs(a: Seq<char>, b: Seq<char>) -> Ordering
    decreases a.len() + b.len(),
{
    if a.len() == 0 && b.len() == 0 {
        Ordering::Equal
    } else if a.len() == 0 {
        Ordering::Less
    } else if b.len() == 0 {
        Ordering::Greater
    } else if is_digit(a[0]) != is_digit(b[0]) {
        if is_digit(a[0]) {
            Ordering::Greater
        } else {
            Ordering::Less
        }
    } else {
        let d = is_digit(a[0]);
        let ka = run_len(a, d) as int;
        let kb = run_len(b, d) as int;
        let c = if d {
            cmp_digits(a.take(ka), b.take(kb))
        } else {
            cmp_lex(a.take(ka), b.take(kb))
        };
        if c != Ordering::Equal {
            c
        } else if ka >= 1 && kb >= 1 && ka <= a.len() && kb <= b.len() {
            cmp_runs(a.skip(ka), b.skip(kb))
        } else {
            Ordering::Equal
        }
    }
}

/// An epoch, a version and a release.
pub struct VersionTriple {
    pub epoch: u64,
    pub pkgver: String,
    pub pkgrel: String,
}

/// Epoch first, numerically; then the version; then the release.
pub open spec fn cmp_triple(a: (u64, Seq<char>, Seq<char>), b: (u64, Seq<char>, Seq<char>)) -> Ordering {
    if a.0 < b.0 {
        Ordering::Less
    } else if a.0 > b.0 {
        Ordering::Greater
    } else if cmp_runs(a.1, b.1) != Ordering::Equal {
        cmp_runs(a.1, b.1)
    } else {
        cmp_runs(a.2, b.2)
    }
}

fn to_chars(s: &str) -> (r: Vec<char>)
    ensures
        r@ == s@,
{
    let n = s.unicode_len();
    let mut r: Vec<char> = Vec::new();
    let mut i: usize = 0;
    while i < n
        invariant
            n == s@.len(),
            i <= n,
            r@ == s@.take(i as int),
        decreases n - i,
    {
        r.push(s.get_char(i));
        assert(r@ =~= s@.take(i + 1));
        i = i + 1;
    }
    assert(s@.take(n as int) =~= s@);
    r
}

fn char_is_digit(c: char) -> (r: bool)
    ensures
        r == is_digit(c),
{
    '0' <= c && c <= '9'
}

proof fn lemma_sub_first(v: Seq<char>, i: int, k: int)
    requires
        0 <= i < k <= v.len(),
    ensures
        v.subrange(i, k).drop_first() == v.subrange(i + 1, k),
        v.subrange(i, k)[0] == v[i],
{
    assert(v.subrange(i, k).drop_first() =~= v.subrange(i + 1, k));
}

/// End of the run that starts at `i`.
fn run_end(v: &Vec<char>, i: usize, d: bool) -> (k: usize)
    requires
        i <= v@.len(),
    ensures
        i <= k <= v@.len(),
        k - i == run_len(v@.subrange(i as int, v@.len() as int), d),
{
    let n = v.len();
    let mut k: usize = i;
    while k < n && char_is_digit(v[k]) == d
        invariant
            n == v@.len(),
            i <= k <= n,
            run_len(v@.subrange(i as int, n as int), d) == (k - i) + run_len(
                v@.subrange(k as int, n as int),
                d,
            ),
        decreases n - k,
    {
        proof {
            lemma_sub_first(v@, k as int, n as int);
        }
        k = k + 1;
    }
    proof {
        if k < n {
            lemma_sub_first(v@, k as int, n as int);
        }
    }
    k
}

fn cmp_lex_exec(v: &Vec<char>, i: usize, k: usize, w: &Vec<char>, j: usize, l: usize) -> (r: Ordering)
    requires
        i <= k <= v@.len(),
        j <= l <= w@.len(),
    ensures
        r == cmp_lex(v@.subrange(i as int, k as int), w@.subrange(j as int, l as int)),
{
    let mut a = i;
    let mut b = j;
    while a < k && b < l
        invariant
            i <= a <= k <= v@.len(),
            j <= b <= l <= w@.len(),
            cmp_lex(v@.subrange(i as int, k as int), w@.subrange(j as int, l as int)) == cmp_lex(
                v@.subrange(a as int, k as int),
                w@.subrange(b as int, l as int),
            ),
        decreases k - a,
    {
        proof {
            lemma_sub_first(v@, a as int, k as int);
            lemma_sub_first(w@, b as int, l as int);
        }
        if (v[a] as u32) < (w[b] as u32) {
            return Ordering::Less;
        }
        if (v[a] as u32) > (w[b] as u32) {
            return Ordering::Greater;
        }
        a = a + 1;
        b = b + 1;
    }
    if a == k && b == l {
        Ordering::Equal
    } else if a == k {
        Ordering::Less
    } else {
        Ordering::Greater
    }
}

fn skip_zeros(v: &Vec<char>, i: usize, k: usize) -> (r: usize)
    requires
        i <= k <= v@.len(),
    ensures
        i <= r <= k,
        strip_zeros(v@.subrange(i as int, k as int)) == v@.subrange(r as int, k as int),
{
    let mut a = i;
    while a < k && v[a] == '0'
        invariant
            i <= a <= k <= v@.len(),
            strip_zeros(v@.subrange(i as int, k as int)) == strip_zeros(v@.subrange(a as int, k as int)),
        decreases k - a,
    {
        proof {
            lemma_sub_first(v@, a as int, k as int);
        }
        a = a + 1;
    }
    proof {
        if a < k {
            lemma_sub_first(v@, a as int, k as int);
        }
    }
    a
}

fn cmp_digits_exec(v: &Vec<char>, i: usize, k: usize, w: &Vec<char>, j: usize, l: usize) -> (r: Ordering)
    requires
        i <= k <= v@.len(),
        j <= l <= w@.len(),
    ensures
        r == cmp_digits(v@.subrange(i as int, k as int), w@.subrange(j as int, l as int)),
{
    let a = skip_zeros(v, i, k);
    let b = skip_zeros(w, j, l);
    if k - a < l - b {
        Ordering::Less
    } else if k - a > l - b {
        Ordering::Greater
    } else {
        cmp_lex_exec(v, a, k, w, b, l)
    }
}

/// Compares two version strings run by run.
pub fn compare_runs(a: &str, b: &str) -> (r: Ordering)
    ensures
        r == cmp_runs(a@, b@),
{
    let v = to_chars(a);
    let w = to_chars(b);
    let n = v.len();
    let m = w.len();
    let mut i: usize = 0;
    let mut j: usize = 0;
    assert(v@.subrange(0, n as int) =~= v@);
    assert(w@.subrange(0, m as int) =~= w@);
    while i < n && j < m
        invariant
            n == v@.len(),
            m == w@.len(),
            i <= n,
            j <= m,
            cmp_runs(a@, b@) == cmp_runs(v@.subrange(i as int, n as int), w@.subrange(j as int, m as int)),
            v@ == a@,
            w@ == b@,
        decreases n - i,
    {
        let ghost x = v@.subrange(i as int, n as int);
        let ghost y = w@.subrange(j as int, m as int);
        let da = char_is_digit(v[i]);
        let db = char_is_digit(w[j]);
        proof {
            lemma_sub_first(v@, i as int, n as int);
            lemma_sub_first(w@, j as int, m as int);
        }
        if da != db {
            return if da {
                Ordering::Greater
            } else {
                Ordering::Less
            };
        }
        let ka = run_end(&v, i, da);
        let kb = run_end(&w, j, da);
        proof {
            assert(x.take(ka - i) =~= v@.subrange(i as int, ka as int));
            assert(y.take(kb - j) =~= w@.subrange(j as int, kb as int));
            assert(x.skip(ka - i) =~= v@.subrange(ka as int, n as int));
            assert(y.skip(kb - j) =~= w@.subrange(kb as int, m as int));
        }
        let c = if da {
            cmp_digits_exec(&v, i, ka, &w, j, kb)
        } else {
            cmp_lex_exec(&v, i, ka, &w, j, kb)
        };
        proof {
            assert(run_len(x, da) >= 1);
            assert(run_len(y, da) >= 1);
            assert(cmp_runs(x, y) == if c != Ordering::Equal {
                c
            } else {
                cmp_runs(x.skip(ka - i), y.skip(kb - j))
            });
        }
        match c {
            Ordering::Equal => {},
            _ => {
                return c;
            },
        }
        i = ka;
        j = kb;
    }
    if i == n && j == m {
        Ordering::Equal
    } else if i == n {
        Ordering::Less
    } else {
        Ordering::Greater
    }
}

impl VersionTriple {
    pub open spec fn view_triple(&self) -> (u64, Seq<char>, Seq<char>) {
        (self.epoch, self.pkgver@, self.pkgrel@)
    }

    /// Orders two versions: epoch, then version, then release.
    pub fn compare(&self, other: &VersionTriple) -> (r: Ordering)
        ensures
            r == cmp_triple(self.view_triple(), other.view_triple()),
    {
        if self.epoch < other.epoch {
            Ordering::Less
        } else if self.epoch > other.epoch {
            Ordering::Greater
        } else {
            let c = compare_runs(self.pkgver.as_str(), other.pkgver.as_str());
            match c {
                Ordering::Equal => compare_runs(self.pkgrel.as_str(), other.pkgrel.as_str()),
                _ => c,
            }
        }
    }
}

} // verus!
