use vstd::prelude::*;

verus! {

/// Compression applied on top of the `.pkg.tar` archive.
#[derive(Debug, Clone, Copy, PartialEq, Eq, Structural)]
pub enum Compression {
    Zst,
    Xz,
    Gz,
    Bz2,
    Tar,
}

/// The complete suffix of an artifact file compressed with `c`.
pub open spec fn suffix_of(c: Compression) -> Seq<char> {
    match c {
        Compression::Zst => seq!['.', 'p', 'k', 'g', '.', 't', 'a', 'r', '.', 'z', 's', 't'],
        Compression::Xz => seq!['.', 'p', 'k', 'g', '.', 't', 'a', 'r', '.', 'x', 'z'],
        Compression::Gz => seq!['.', 'p', 'k', 'g', '.', 't', 'a', 'r', '.', 'g', 'z'],
        Compression::Bz2 => seq!['.', 'p', 'k', 'g', '.', 't', 'a', 'r', '.', 'b', 'z', '2'],
        Compression::Tar => seq!['.', 'p', 'k', 'g', '.', 't', 'a', 'r'],
    }
}

pub open spec fn ends_with(s: Seq<char>, t: Seq<char>) -> bool {
    t.len() <= s.len() && s.subrange(s.len() - t.len(), s.len() as int) == t
}

/// The compression whose suffix ends `f`, tried in declaration order.
pub open spec fn compression_of(f: Seq<char>) -> Option<Compression> {
    if ends_with(f, suffix_of(Compression::Zst)) {
        Some(Compression::Zst)
    } else if ends_with(f, suffix_of(Compression::Xz)) {
        Some(Compression::Xz)
    } else if ends_with(f, suffix_of(Compression::Gz)) {
        Some(Compression::Gz)
    } else if ends_with(f, suffix_of(Compression::Bz2)) {
        Some(Compression::Bz2)
    } else if ends_with(f, suffix_of(Compression::Tar)) {
        Some(Compression::Tar)
    } else {
        None
    }
}

/// Index of the last occurrence of `c` in `s`, or -1.
pub open spec fn last_index_of(s: Seq<char>, c: char) -> int
    decreases s.len(),
{
    if s.len() == 0 {
        -1
    } else if s.last() == c {
        s.len() - 1
    } else {
        last_index_of(s.drop_last(), c)
    }
}

pub open spec fn lacks(s: Seq<char>, c: char) -> bool {
    forall|i: int| 0 <= i < s.len() ==> s[i] != c
}

/// The identity of one artifact file: `name-[epoch:]pkgver-pkgrel-arch.pkg.tar[.ext]`.
#[derive(Debug, Clone, PartialEq, Eq)]
pub struct PackageFileName {
    pub pkgname: String,
    pub epoch: Option<String>,
    pub pkgver: String,
    pub pkgrel: String,
    pub arch: String,
    pub compression: Compression,
}

pub struct FileNameView {
    pub pkgname: Seq<char>,
    pub epoch: Option<Seq<char>>,
    pub pkgver: Seq<char>,
    pub pkgrel: Seq<char>,
    pub arch: Seq<char>,
    pub compression: Compression,
}

impl View for PackageFileName {
    type V = FileNameView;

    open spec fn view(&self) -> FileNameView {
        FileNameView {
            pkgname: self.pkgname@,
            epoch: match self.epoch {
                Some(e) => Some(e@),
                None => None,
            },
            pkgver: self.pkgver@,
            pkgrel: self.pkgrel@,
            arch: self.arch@,
            compression: self.compression,
        }
    }
}

impl PackageFileName {
    /// A copy with the same fields.
    pub fn duplicate(&self) -> (r: PackageFileName)
        ensures
            r@ == self@,
    {
        PackageFileName {
            pkgname: self.pkgname.clone(),
            epoch: match &self.epoch {
                Some(e) => Some(e.clone()),
                None => None,
            },
            pkgver: self.pkgver.clone(),
            pkgrel: self.pkgrel.clone(),
            arch: self.arch.clone(),
            compression: self.compression,
        }
    }
}

/// A record that renders to a file name from which it can be read back.
pub open spec fn well_formed(r: FileNameView) -> bool {
    &&& r.pkgname.len() > 0
    &&& r.pkgver.len() > 0
    &&& r.pkgrel.len() > 0
    &&& r.arch.len() > 0
    &&& lacks(r.pkgver, '-') && lacks(r.pkgver, ':')
    &&& lacks(r.pkgrel, '-')
    &&& lacks(r.arch, '-')
    &&& match r.epoch {
        Some(e) => e.len() > 0 && lacks(e, '-'),
        None => true,
    }
}

/// The version field: `pkgver`, preceded by `epoch:` where there is an epoch.
pub open spec fn version_text(epoch: Option<Seq<char>>, pkgver: Seq<char>) -> Seq<char> {
    match epoch {
        Some(e) => e + seq![':'] + pkgver,
        None => pkgver,
    }
}

/// The file name without its suffix.
pub open spec fn render_stem(r: FileNameView) -> Seq<char> {
    r.pkgname + seq!['-'] + version_text(r.epoch, r.pkgver) + seq!['-'] + r.pkgrel + seq!['-']
        + r.arch
}

pub open spec fn render_spec(r: FileNameView) -> Seq<char> {
    render_stem(r) + suffix_of(r.compression)
}

/// Splits `s` at its last `c`: what comes before and what comes after.
pub open spec fn split_last(s: Seq<char>, c: char) -> (Seq<char>, Seq<char>) {
    let k = last_index_of(s, c);
    (s.subrange(0, k), s.subrange(k + 1, s.len() as int))
}

/// Reading a file name: the suffix, then three fields split off from the right.
pub open spec fn parse_spec(f: Seq<char>) -> Option<FileNameView> {
    match compression_of(f) {
        None => None,
        Some(c) => {
            let stem = f.subrange(0, f.len() - suffix_of(c).len());
            let (rest1, arch) = split_last(stem, '-');
            let (rest2, pkgrel) = split_last(rest1, '-');
            let (pkgname, version) = split_last(rest2, '-');
            let k = last_index_of(version, ':');
            let epoch = if k >= 0 {
                Some(version.subrange(0, k))
            } else {
                None
            };
            let pkgver = version.subrange(k + 1, version.len() as int);
            let r = FileNameView { pkgname, epoch, pkgver, pkgrel, arch, compression: c };
            if last_index_of(stem, '-') >= 0 && last_index_of(rest1, '-') >= 0 && last_index_of(
                rest2,
                '-',
            ) >= 0 && well_formed(r) {
                Some(r)
            } else {
                None
            }
        },
    }
}


proof fn lemma_last_index(s: Seq<char>, c: char)
    ensures
        -1 <= last_index_of(s, c) < s.len(),
        last_index_of(s, c) >= 0 ==> s[last_index_of(s, c)] == c,
        lacks(s.subrange(last_index_of(s, c) + 1, s.len() as int), c),
    decreases s.len(),
{
    if s.len() > 0 && s.last() != c {
        lemma_last_index(s.drop_last(), c);
        let k = last_index_of(s, c);
        assert(s.subrange(k + 1, s.len() as int) == s.drop_last().subrange(k + 1, s.len() - 1).push(s.last()));
    }
}

proof fn lemma_last_index_split(a: Seq<char>, b: Seq<char>, c: char)
    requires
        lacks(b, c),
    ensures
        last_index_of(a + seq![c] + b, c) == a.len(),
    decreases b.len(),
{
    let s = a + seq![c] + b;
    if b.len() == 0 {
        assert(s.last() == c);
    } else {
        assert(s.last() == b.last());
        assert(s.drop_last() == a + seq![c] + b.drop_last());
        lemma_last_index_split(a, b.drop_last(), c);
    }
}

proof fn lemma_last_index_absent(s: Seq<char>, c: char)
    requires
        lacks(s, c),
    ensures
        last_index_of(s, c) == -1,
    decreases s.len(),
{
    if s.len() > 0 {
        lemma_last_index_absent(s.drop_last(), c);
    }
}

proof fn lemma_suffix_unique(x: Seq<char>, c: Compression, d: Compression)
    requires
        ends_with(x + suffix_of(c), suffix_of(d)),
    ensures
        c == d,
{
    let f = x + suffix_of(c);
    let n = f.len() as int;
    let sc = suffix_of(c);
    let sd = suffix_of(d);
    assert(f[n - 1] == sc[sc.len() - 1]);
    assert(f[n - 1] == sd[sd.len() - 1]) by {
        assert(f.subrange(n - sd.len(), n)[sd.len() - 1] == f[n - 1]);
    }
    assert(f[n - 2] == sc[sc.len() - 2]);
    assert(f[n - 2] == sd[sd.len() - 2]) by {
        assert(f.subrange(n - sd.len(), n)[sd.len() - 2] == f[n - 2]);
    }
}

proof fn lemma_compression_of_render(x: Seq<char>, c: Compression)
    ensures
        compression_of(x + suffix_of(c)) == Some(c),
{
    let f = x + suffix_of(c);
    assert(f.subrange(f.len() - suffix_of(c).len(), f.len() as int) == suffix_of(c));
    assert(ends_with(f, suffix_of(c)));
    if ends_with(f, suffix_of(Compression::Zst)) {
        lemma_suffix_unique(x, c, Compression::Zst);
    }
    if ends_with(f, suffix_of(Compression::Xz)) {
        lemma_suffix_unique(x, c, Compression::Xz);
    }
    if ends_with(f, suffix_of(Compression::Gz)) {
        lemma_suffix_unique(x, c, Compression::Gz);
    }
    if ends_with(f, suffix_of(Compression::Bz2)) {
        lemma_suffix_unique(x, c, Compression::Bz2);
    }
}

/// Reading back a rendered well-formed record gives the record.
pub proof fn lemma_parse_render(r: FileNameView)
    requires
        well_formed(r),
    ensures
        parse_spec(render_spec(r)) == Some(r),
{
    let f = render_spec(r);
    let stem = render_stem(r);
    lemma_compression_of_render(stem, r.compression);
    assert(f.subrange(0, f.len() - suffix_of(r.compression).len()) == stem);
    let version = version_text(r.epoch, r.pkgver);
    let rest2 = r.pkgname + seq!['-'] + version;
    let rest1 = rest2 + seq!['-'] + r.pkgrel;
    assert(stem == rest1 + seq!['-'] + r.arch);
    lemma_last_index_split(rest1, r.arch, '-');
    assert(stem.subrange(0, rest1.len() as int) == rest1);
    assert(stem.subrange(rest1.len() as int + 1, stem.len() as int) == r.arch);
    lemma_last_index_split(rest2, r.pkgrel, '-');
    assert(rest1.subrange(0, rest2.len() as int) == rest2);
    assert(rest1.subrange(rest2.len() as int + 1, rest1.len() as int) == r.pkgrel);
    assert(lacks(version, '-')) by {
        match r.epoch {
            Some(e) => {
                assert forall|i: int| 0 <= i < version.len() implies version[i] != '-' by {
                    if i < e.len() {
                        assert(version[i] == e[i]);
                    } else if i > e.len() {
                        assert(version[i] == r.pkgver[i - e.len() - 1]);
                    }
                }
            },
            None => {},
        }
    }
    lemma_last_index_split(r.pkgname, version, '-');
    assert(rest2.subrange(0, r.pkgname.len() as int) == r.pkgname);
    assert(rest2.subrange(r.pkgname.len() as int + 1, rest2.len() as int) == version);
    match r.epoch {
        Some(e) => {
            lemma_last_index_split(e, r.pkgver, ':');
            assert(version.subrange(0, e.len() as int) == e);
            assert(version.subrange(e.len() as int + 1, version.len() as int) == r.pkgver);
        },
        None => {
            lemma_last_index_absent(r.pkgver, ':');
            assert(version.subrange(0, version.len() as int) == version);
        },
    }
}

proof fn lemma_split_join(s: Seq<char>, c: char)
    requires
        last_index_of(s, c) >= 0,
    ensures
        s =~= split_last(s, c).0 + seq![c] + split_last(s, c).1,
{
    lemma_last_index(s, c);
}

proof fn lemma_version_join(version: Seq<char>)
    ensures
        ({
            let k = last_index_of(version, ':');
            let epoch = if k >= 0 {
                Some(version.subrange(0, k))
            } else {
                None
            };
            version_text(epoch, version.subrange(k + 1, version.len() as int)) == version
        }),
{
    lemma_last_index(version, ':');
    let k = last_index_of(version, ':');
    if k >= 0 {
        assert(version =~= version.subrange(0, k) + seq![':'] + version.subrange(
            k + 1,
            version.len() as int,
        ));
    } else {
        assert(version.subrange(0, version.len() as int) =~= version);
    }
}

/// Rendering a record that was read from a file name gives that file name back.
pub proof fn lemma_render_parse(f: Seq<char>)
    requires
        parse_spec(f) is Some,
    ensures
        render_spec(parse_spec(f)->0) == f,
        well_formed(parse_spec(f)->0),
{
    let r = parse_spec(f)->0;
    let c = r.compression;
    let stem = f.subrange(0, f.len() - suffix_of(c).len());
    let (rest1, arch) = split_last(stem, '-');
    let (rest2, pkgrel) = split_last(rest1, '-');
    let (pkgname, version) = split_last(rest2, '-');
    lemma_split_join(stem, '-');
    lemma_split_join(rest1, '-');
    lemma_split_join(rest2, '-');
    lemma_version_join(version);
    assert(render_stem(r) =~= stem);
    assert(f =~= stem + suffix_of(c));
}

/// The file name could not be read as an artifact file name.
#[derive(Debug, Clone, PartialEq, Eq)]
pub struct UnrecognizedFilename {
    pub file_name: String,
}

fn suffix_str(c: Compression) -> (r: &'static str)
    ensures
        r@ == suffix_of(c),
{
    match c {
        Compression::Zst => {
            proof {
                reveal_strlit(".pkg.tar.zst");
            }
            ".pkg.tar.zst"
        },
        Compression::Xz => {
            proof {
                reveal_strlit(".pkg.tar.xz");
            }
            ".pkg.tar.xz"
        },
        Compression::Gz => {
            proof {
                reveal_strlit(".pkg.tar.gz");
            }
            ".pkg.tar.gz"
        },
        Compression::Bz2 => {
            proof {
                reveal_strlit(".pkg.tar.bz2");
            }
            ".pkg.tar.bz2"
        },
        Compression::Tar => {
            proof {
                reveal_strlit(".pkg.tar");
            }
            ".pkg.tar"
        },
    }
}

/// The file name of the artifact that `r` describes.
pub fn render(r: &PackageFileName) -> (s: String)
    ensures
        s@ == render_spec(r@),
{
    let mut s = r.pkgname.clone();
    proof {
        reveal_strlit("-");
        reveal_strlit(":");
    }
    s.append("-");
    match &r.epoch {
        Some(e) => {
            s.append(e.as_str());
            s.append(":");
        },
        None => {},
    }
    s.append(r.pkgver.as_str());
    s.append("-");
    s.append(r.pkgrel.as_str());
    s.append("-");
    s.append(r.arch.as_str());
    s.append(suffix_str(r.compression));
    proof {
        let v = r@;
        assert(s@ =~= render_spec(v));
    }
    s
}

fn ends_with_str(f: &str, n: usize, t: &str) -> (r: bool)
    requires
        n == f@.len(),
    ensures
        r == ends_with(f@, t@),
{
    let m = t.unicode_len();
    if m > n {
        return false;
    }
    let mut i: usize = 0;
    while i < m
        invariant
            m == t@.len(),
            n == f@.len(),
            m <= n,
            i <= m,
            forall|j: int| 0 <= j < i ==> f@[n - m + j] == t@[j],
        decreases m - i,
    {
        if f.get_char(n - m + i) != t.get_char(i) {
            assert(f@.subrange(n - m, n as int)[i as int] != t@[i as int]);
            return false;
        }
        i = i + 1;
    }
    assert(f@.subrange(n - m, n as int) =~= t@);
    true
}

fn last_index(s: &str, c: char) -> (r: Option<usize>)
    ensures
        match r {
            Some(k) => k as int == last_index_of(s@, c),
            None => last_index_of(s@, c) == -1,
        },
{
    let n = s.unicode_len();
    let mut i: usize = n;
    assert(s@.subrange(0, n as int) =~= s@);
    while i > 0
        invariant
            i <= n == s@.len(),
            last_index_of(s@, c) == last_index_of(s@.subrange(0, i as int), c),
        decreases i,
    {
        let sub = Ghost(s@.subrange(0, i as int));
        if s.get_char(i - 1) == c {
            assert(sub@.last() == c);
            return Some(i - 1);
        }
        assert(sub@.drop_last() =~= s@.subrange(0, i - 1));
        i = i - 1;
    }
    None
}

fn has_char(s: &str, c: char) -> (r: bool)
    ensures
        r == !lacks(s@, c),
{
    let n = s.unicode_len();
    let mut i: usize = 0;
    while i < n
        invariant
            n == s@.len(),
            i <= n,
            forall|j: int| 0 <= j < i ==> s@[j] != c,
        decreases n - i,
    {
        if s.get_char(i) == c {
            return true;
        }
        i = i + 1;
    }
    false
}

fn detect_compression(f: &str, n: usize) -> (r: Option<Compression>)
    requires
        n == f@.len(),
    ensures
        r == compression_of(f@),
{
    if ends_with_str(f, n, suffix_str(Compression::Zst)) {
        Some(Compression::Zst)
    } else if ends_with_str(f, n, suffix_str(Compression::Xz)) {
        Some(Compression::Xz)
    } else if ends_with_str(f, n, suffix_str(Compression::Gz)) {
        Some(Compression::Gz)
    } else if ends_with_str(f, n, suffix_str(Compression::Bz2)) {
        Some(Compression::Bz2)
    } else if ends_with_str(f, n, suffix_str(Compression::Tar)) {
        Some(Compression::Tar)
    } else {
        None
    }
}

/// Reads an artifact file name; fails where its suffix is unknown or its fields are missing.
pub fn parse(f: &str) -> (r: Result<PackageFileName, UnrecognizedFilename>)
    ensures
        match r {
            Ok(p) => parse_spec(f@) == Some(p@),
            Err(e) => parse_spec(f@) is None && e.file_name@ == f@,
        },
{
    let n = f.unicode_len();
    let c = match detect_compression(f, n) {
        Some(c) => c,
        None => {
            return Err(UnrecognizedFilename { file_name: String::from_str(f) });
        },
    };
    let stem = f.substring_char(0, n - suffix_str(c).unicode_len());
    let k1 = match last_index(stem, '-') {
        Some(k) => k,
        None => {
            return Err(UnrecognizedFilename { file_name: String::from_str(f) });
        },
    };
    proof {
        lemma_last_index(stem@, '-');
    }
    let rest1 = stem.substring_char(0, k1);
    let arch = stem.substring_char(k1 + 1, stem.unicode_len());
    let k2 = match last_index(rest1, '-') {
        Some(k) => k,
        None => {
            return Err(UnrecognizedFilename { file_name: String::from_str(f) });
        },
    };
    proof {
        lemma_last_index(rest1@, '-');
    }
    let rest2 = rest1.substring_char(0, k2);
    let pkgrel = rest1.substring_char(k2 + 1, rest1.unicode_len());
    let k3 = match last_index(rest2, '-') {
        Some(k) => k,
        None => {
            return Err(UnrecognizedFilename { file_name: String::from_str(f) });
        },
    };
    proof {
        lemma_last_index(rest2@, '-');
    }
    let pkgname = rest2.substring_char(0, k3);
    let version = rest2.substring_char(k3 + 1, rest2.unicode_len());
    let vlen = version.unicode_len();
    proof {
        lemma_last_index(version@, ':');
    }
    let (epoch, pkgver) = match last_index(version, ':') {
        Some(k) => (Some(String::from_str(version.substring_char(0, k))), version.substring_char(k + 1, vlen)),
        None => (None, version),
    };
    proof {
        assert(stem@ == f@.subrange(0, f@.len() - suffix_of(c).len()));
        assert(split_last(stem@, '-') == (rest1@, arch@));
        assert(split_last(rest1@, '-') == (rest2@, pkgrel@));
        assert(split_last(rest2@, '-') == (pkgname@, version@));
        if last_index_of(version@, ':') < 0 {
            assert(version@.subrange(0, version@.len() as int) =~= version@);
        }
    }
    let epoch_ok = match &epoch {
        Some(e) => e.unicode_len() > 0 && !has_char(e.as_str(), '-'),
        None => true,
    };
    if pkgname.unicode_len() == 0 || pkgver.unicode_len() == 0 || pkgrel.unicode_len() == 0
        || arch.unicode_len() == 0 || has_char(pkgver, '-') || has_char(pkgver, ':') || has_char(
        pkgrel,
        '-',
    ) || has_char(arch, '-') || !epoch_ok {
        return Err(UnrecognizedFilename { file_name: String::from_str(f) });
    }
    let p = PackageFileName {
        pkgname: String::from_str(pkgname),
        epoch,
        pkgver: String::from_str(pkgver),
        pkgrel: String::from_str(pkgrel),
        arch: String::from_str(arch),
        compression: c,
    };
    Ok(p)
}

} // verus!
