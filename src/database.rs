use crate::build_order::{depends_within, graph_view, is_build_order, plan_build_order};
use crate::file_name::{Compression, FileNameView, PackageFileName};
use crate::index::{index_contents, index_get, index_insert, index_new, index_remove, NameIndex};
use vstd::prelude::*;

verus! {

pub open spec fn strings_view(v: Seq<String>) -> Seq<Seq<char>> {
    v.map_values(|s: String| s@)
}

/// The build metadata of one build unit.
#[derive(Debug, Clone)]
pub struct SrcInfo {
    pub pkgbase: String,
    pub pkgnames: Vec<String>,
    pub depends: Vec<String>,
    pub epoch: Option<String>,
    pub pkgver: String,
    pub pkgrel: String,
    pub arch: Vec<String>,
}

pub struct SrcInfoView {
    pub pkgbase: Seq<char>,
    pub pkgnames: Seq<Seq<char>>,
    pub depends: Seq<Seq<char>>,
    pub epoch: Option<Seq<char>>,
    pub pkgver: Seq<char>,
    pub pkgrel: Seq<char>,
    pub arch: Seq<Seq<char>>,
}

impl View for SrcInfo {
    type V = SrcInfoView;

    open spec fn view(&self) -> SrcInfoView {
        SrcInfoView {
            pkgbase: self.pkgbase@,
            pkgnames: strings_view(self.pkgnames@),
            depends: strings_view(self.depends@),
            epoch: match self.epoch {
                Some(e) => Some(e@),
                None => None,
            },
            pkgver: self.pkgver@,
            pkgrel: self.pkgrel@,
            arch: strings_view(self.arch@),
        }
    }
}

/// One build unit of the database: its metadata and the directory it is built in.
#[derive(Debug, Clone)]
pub struct BaseEntry {
    pub info: SrcInfo,
    pub directory: String,
}

pub struct BaseEntryView {
    pub info: SrcInfoView,
    pub directory: Seq<char>,
}

impl View for BaseEntry {
    type V = BaseEntryView;

    open spec fn view(&self) -> BaseEntryView {
        BaseEntryView { info: self.info@, directory: self.directory@ }
    }
}

/// A second build unit claims a package name that another one already produces.
#[derive(Debug, Clone, PartialEq, Eq)]
pub struct DuplicatePkgName {
    pub name: String,
    pub existing_base: String,
    pub new_base: String,
}

/// The units that no build order can place: each depends on another of them.
#[derive(Debug, Clone, PartialEq, Eq)]
pub struct CycleError {
    pub members: Vec<usize>,
}

/// `order` lists each unit position once, and each unit after every unit it depends on.
pub open spec fn db_build_order(db: Seq<BaseEntryView>, order: Seq<usize>) -> bool {
    &&& order.len() == db.len()
    &&& order.no_duplicates()
    &&& forall|k: int| 0 <= k < order.len() ==> order[k] < db.len()
    &&& forall|x: usize| x < db.len() ==> #[trigger] order.contains(x)
    &&& forall|a: int, j: int|
        0 <= a < order.len() && 0 <= j < db.len() && #[trigger] depends_on(db, order[a] as int, j)
            ==> order.take(a).contains(j as usize)
}

/// A non-empty set of unit positions each of which depends on another of them.
pub open spec fn db_blocked(db: Seq<BaseEntryView>, members: Seq<usize>) -> bool {
    &&& members.len() > 0
    &&& members.no_duplicates()
    &&& forall|k: int| 0 <= k < members.len() ==> members[k] < db.len()
    &&& forall|k: int| 0 <= k < members.len() ==> #[trigger] depends_among(db, members[k], members)
}

/// Unit `x` depends on one of the units `members`.
pub open spec fn depends_among(db: Seq<BaseEntryView>, x: usize, members: Seq<usize>) -> bool {
    exists|j: int|
        0 <= j < db.len() && members.contains(j as usize) && #[trigger] depends_on(db, x as int, j)
}

/// The build units in order of first insertion.
#[derive(Debug)]
pub struct Database {
    entries: Vec<BaseEntry>,
    positions: NameIndex,
    names: NameIndex,
}

pub open spec fn entries_view(v: Seq<BaseEntry>) -> Seq<BaseEntryView> {
    v.map_values(|e: BaseEntry| e@)
}

/// Position of the unit named `base`, or -1.
pub open spec fn find_base(db: Seq<BaseEntryView>, base: Seq<char>) -> int
    decreases db.len(),
{
    if db.len() == 0 {
        -1
    } else if db.last().info.pkgbase == base {
        db.len() - 1
    } else {
        find_base(db.drop_last(), base)
    }
}

pub open spec fn names_disjoint(a: Seq<Seq<char>>, b: Seq<Seq<char>>) -> bool {
    forall|n: Seq<char>| !(#[trigger] a.contains(n) && b.contains(n))
}

/// Unit names are unique, each unit produces a non-empty set of names, and no name
/// is produced by two units.
pub open spec fn db_wf(db: Seq<BaseEntryView>) -> bool {
    &&& forall|i: int, j: int|
        0 <= i < j < db.len() ==> db[i].info.pkgbase != db[j].info.pkgbase
    &&& forall|i: int|
        0 <= i < db.len() ==> db[i].info.pkgnames.len() > 0
            && db[i].info.pkgnames.no_duplicates()
    &&& forall|i: int, j: int|
        0 <= i < db.len() && 0 <= j < db.len() && i != j ==> names_disjoint(
            db[i].info.pkgnames,
            db[j].info.pkgnames,
        )
}

/// Some name of `info` is already produced by a different unit.
pub open spec fn conflicts(db: Seq<BaseEntryView>, info: SrcInfoView) -> bool {
    exists|i: int, n: Seq<char>|
        0 <= i < db.len() && db[i].info.pkgbase != info.pkgbase && #[trigger] db[i].info.pkgnames.contains(n)
            && info.pkgnames.contains(n)
}

/// Inserting a unit: a known unit is replaced in place, a new one goes last.
pub open spec fn insert_spec(db: Seq<BaseEntryView>, e: BaseEntryView) -> Seq<BaseEntryView> {
    let k = find_base(db, e.info.pkgbase);
    if k >= 0 {
        db.update(k, e)
    } else {
        db.push(e)
    }
}

proof fn lemma_find_base(db: Seq<BaseEntryView>, base: Seq<char>)
    ensures
        -1 <= find_base(db, base) < db.len(),
        find_base(db, base) >= 0 ==> db[find_base(db, base)].info.pkgbase == base,
        find_base(db, base) < 0 ==> forall|i: int| 0 <= i < db.len() ==> db[i].info.pkgbase != base,
    decreases db.len(),
{
    if db.len() > 0 {
        lemma_find_base(db.drop_last(), base);
        assert forall|i: int| 0 <= i < db.len() - 1 implies db[i] == db.drop_last()[i] by {}
    }
}

fn contains_string(v: &Vec<String>, s: &String) -> (r: bool)
    ensures
        r == strings_view(v@).contains(s@),
{
    let mut i: usize = 0;
    while i < v.len()
        invariant
            i <= v@.len(),
            forall|j: int| 0 <= j < i ==> v@[j]@ != s@,
        decreases v@.len() - i,
    {
        if v[i] == *s {
            assert(strings_view(v@)[i as int] == s@);
            return true;
        }
        i = i + 1;
    }
    false
}

/// The artifact a unit would produce for one of its names and one of its architectures.
pub open spec fn desired_file(info: SrcInfoView, name: Seq<char>, arch: Seq<char>) -> FileNameView {
    FileNameView {
        pkgname: name,
        epoch: info.epoch,
        pkgver: info.pkgver,
        pkgrel: info.pkgrel,
        arch,
        compression: Compression::Zst,
    }
}

/// The artifacts for one name, over the first `j` architectures.
pub open spec fn arch_files(info: SrcInfoView, name: Seq<char>, j: int) -> Seq<FileNameView> {
    info.arch.take(j).map_values(|a: Seq<char>| desired_file(info, name, a))
}

/// The artifacts of a unit for its first `k` names, each over every architecture.
pub open spec fn name_files(info: SrcInfoView, k: int) -> Seq<FileNameView>
    decreases k,
{
    if k <= 0 {
        Seq::empty()
    } else {
        name_files(info, k - 1) + arch_files(info, info.pkgnames[k - 1], info.arch.len() as int)
    }
}

/// The artifacts of the first `i` units, in database order.
pub open spec fn db_files(db: Seq<BaseEntryView>, i: int) -> Seq<FileNameView>
    decreases i,
{
    if i <= 0 {
        Seq::empty()
    } else {
        db_files(db, i - 1) + name_files(db[i - 1].info, db[i - 1].info.pkgnames.len() as int)
    }
}

/// Every artifact the database says should exist: by unit, then name, then architecture.
pub open spec fn desired_spec(db: Seq<BaseEntryView>) -> Seq<FileNameView> {
    db_files(db, db.len() as int)
}

pub open spec fn files_view(v: Seq<PackageFileName>) -> Seq<FileNameView> {
    v.map_values(|p: PackageFileName| p@)
}

/// Unit `i` depends on unit `j`: one of its dependencies is a name that `j` produces.
pub open spec fn depends_on(db: Seq<BaseEntryView>, i: int, j: int) -> bool {
    i != j && exists|d: Seq<char>|
        db[i].info.depends.contains(d) && #[trigger] db[j].info.pkgnames.contains(d)
}

fn clone_option(o: &Option<String>) -> (r: Option<String>)
    ensures
        match (o, r) {
            (Some(a), Some(b)) => a@ == b@,
            (None, None) => true,
            _ => false,
        },
{
    match o {
        Some(s) => Some(s.clone()),
        None => None,
    }
}

fn any_common(a: &Vec<String>, b: &Vec<String>) -> (r: bool)
    ensures
        r == exists|d: Seq<char>| strings_view(a@).contains(d) && #[trigger] strings_view(b@).contains(d),
{
    let mut i: usize = 0;
    while i < a.len()
        invariant
            i <= a@.len(),
            forall|k: int| 0 <= k < i ==> !strings_view(b@).contains(#[trigger] a@[k]@),
        decreases a@.len() - i,
    {
        if contains_string(b, &a[i]) {
            assert(strings_view(a@)[i as int] == a@[i as int]@);
            return true;
        }
        i = i + 1;
    }
    proof {
        assert forall|d: Seq<char>| !(strings_view(a@).contains(d) && #[trigger] strings_view(b@).contains(d)) by {
            if strings_view(a@).contains(d) {
                let k = choose|k: int| 0 <= k < a@.len() && strings_view(a@)[k] == d;
                assert(!strings_view(b@).contains(a@[k]@));
            }
        }
    }
    false
}

impl View for Database {
    type V = Seq<BaseEntryView>;

    closed spec fn view(&self) -> Seq<BaseEntryView> {
        entries_view(self.entries@)
    }
}

impl Database {
    pub open spec fn wf(&self) -> bool {
        db_wf(self@) && self.index_ok() && self.names_ok()
    }

    /// The package-name index maps each produced name to the position of the unit
    /// that produces it, and nothing else.
    pub closed spec fn names_ok(&self) -> bool {
        &&& forall|nm: Seq<char>|
            #[trigger] index_contents(self.names).contains_key(nm) ==> index_contents(self.names)[nm]
                < self@.len() && self@[index_contents(self.names)[nm] as int].info.pkgnames.contains(nm)
        &&& forall|i: int, nm: Seq<char>|
            0 <= i < self@.len() && #[trigger] self@[i].info.pkgnames.contains(nm)
                ==> index_contents(self.names).contains_key(nm)
    }

    /// The name index maps each unit name to that unit's position, and nothing else.
    pub closed spec fn index_ok(&self) -> bool {
        &&& forall|b: Seq<char>|
            #[trigger] index_contents(self.positions).contains_key(b) ==> index_contents(
                self.positions,
            )[b] < self@.len() && self@[index_contents(self.positions)[b] as int].info.pkgbase == b
        &&& forall|i: int|
            0 <= i < self@.len() ==> index_contents(self.positions).contains_key(
                #[trigger] self@[i].info.pkgbase,
            )
    }

    /// An empty database.
    pub fn new() -> (r: Database)
        ensures
            r.wf(),
            r@ == Seq::<BaseEntryView>::empty(),
    {
        let r = Database { entries: Vec::new(), positions: index_new(), names: index_new() };
        assert(r@ =~= Seq::<BaseEntryView>::empty());
        r
    }

    fn unbind_names(&mut self, j: usize)
        requires
            j < old(self)@.len(),
        ensures
            final(self).entries == old(self).entries,
            final(self).positions == old(self).positions,
            forall|nm: Seq<char>|
                #[trigger] index_contents(final(self).names).contains_key(nm) == (index_contents(
                    old(self).names,
                ).contains_key(nm) && !old(self)@[j as int].info.pkgnames.contains(nm)),
            forall|nm: Seq<char>|
                #[trigger] index_contents(final(self).names).contains_key(nm) ==> index_contents(
                    final(self).names,
                )[nm] == index_contents(old(self).names)[nm],
    {
        let ghost start = index_contents(self.names);
        let ghost names = self@[j as int].info.pkgnames;
        let mut t: usize = 0;
        assert(names.take(0) =~= Seq::<Seq<char>>::empty());
        while t < self.entries[j].info.pkgnames.len()
            invariant
                self.entries == old(self).entries,
                self.positions == old(self).positions,
                j < self@.len(),
                names == self@[j as int].info.pkgnames,
                start == index_contents(old(self).names),
                t <= names.len(),
                forall|nm: Seq<char>|
                    #[trigger] index_contents(self.names).contains_key(nm) == (start.contains_key(nm)
                        && !names.take(t as int).contains(nm)),
                forall|nm: Seq<char>|
                    #[trigger] index_contents(self.names).contains_key(nm) ==> index_contents(
                        self.names,
                    )[nm] == start[nm],
            decreases names.len() - t,
        {
            assert(names[t as int] == self.entries@[j as int].info.pkgnames@[t as int]@);
            index_remove(&mut self.names, self.entries[j].info.pkgnames[t].as_str());
            proof {
                let next = names.take(t + 1);
                assert(next =~= names.take(t as int).push(names[t as int]));
                assert forall|nm: Seq<char>| #[trigger] next.contains(nm) == (names.take(t as int).contains(nm) || nm == names[t as int]) by {
                    if next.contains(nm) && nm != names[t as int] {
                        let k = choose|k: int| 0 <= k < next.len() && next[k] == nm;
                        assert(names.take(t as int)[k] == nm);
                    }
                    if names.take(t as int).contains(nm) {
                        let k = choose|k: int| 0 <= k < t && names.take(t as int)[k] == nm;
                        assert(next[k] == nm);
                    }
                    if nm == names[t as int] {
                        assert(next[t as int] == nm);
                    }
                }
            }
            t = t + 1;
        }
        assert(names.take(names.len() as int) =~= names);
    }

    fn bind_names(&mut self, j: usize)
        requires
            j < old(self)@.len(),
        ensures
            final(self).entries == old(self).entries,
            final(self).positions == old(self).positions,
            forall|nm: Seq<char>|
                #[trigger] index_contents(final(self).names).contains_key(nm) == (index_contents(
                    old(self).names,
                ).contains_key(nm) || old(self)@[j as int].info.pkgnames.contains(nm)),
            forall|nm: Seq<char>|
                #[trigger] index_contents(final(self).names).contains_key(nm) ==> index_contents(
                    final(self).names,
                )[nm] == if old(self)@[j as int].info.pkgnames.contains(nm) {
                    j
                } else {
                    index_contents(old(self).names)[nm]
                },
    {
        let ghost start = index_contents(self.names);
        let ghost names = self@[j as int].info.pkgnames;
        let mut t: usize = 0;
        assert(names.take(0) =~= Seq::<Seq<char>>::empty());
        while t < self.entries[j].info.pkgnames.len()
            invariant
                self.entries == old(self).entries,
                self.positions == old(self).positions,
                j < self@.len(),
                names == self@[j as int].info.pkgnames,
                start == index_contents(old(self).names),
                t <= names.len(),
                forall|nm: Seq<char>|
                    #[trigger] index_contents(self.names).contains_key(nm) == (start.contains_key(nm)
                        || names.take(t as int).contains(nm)),
                forall|nm: Seq<char>|
                    #[trigger] index_contents(self.names).contains_key(nm) ==> index_contents(
                        self.names,
                    )[nm] == if names.take(t as int).contains(nm) {
                        j
                    } else {
                        start[nm]
                    },
            decreases names.len() - t,
        {
            assert(names[t as int] == self.entries@[j as int].info.pkgnames@[t as int]@);
            let key = self.entries[j].info.pkgnames[t].clone();
            index_insert(&mut self.names, key, j);
            proof {
                let next = names.take(t + 1);
                assert(next =~= names.take(t as int).push(names[t as int]));
                assert forall|nm: Seq<char>| #[trigger] next.contains(nm) == (names.take(t as int).contains(nm) || nm == names[t as int]) by {
                    if next.contains(nm) && nm != names[t as int] {
                        let k = choose|k: int| 0 <= k < next.len() && next[k] == nm;
                        assert(names.take(t as int)[k] == nm);
                    }
                    if names.take(t as int).contains(nm) {
                        let k = choose|k: int| 0 <= k < t && names.take(t as int)[k] == nm;
                        assert(next[k] == nm);
                    }
                    if nm == names[t as int] {
                        assert(next[t as int] == nm);
                    }
                }
            }
            t = t + 1;
        }
        assert(names.take(names.len() as int) =~= names);
    }

    /// Adds a unit's metadata and directory. A name that another unit already
    /// produces rejects the whole insertion and leaves the database as it was.
    pub fn insert(&mut self, info: SrcInfo, directory: String) -> (r: Result<(), DuplicatePkgName>)
        requires
            old(self).wf(),
            info@.pkgnames.len() > 0,
            info@.pkgnames.no_duplicates(),
        ensures
            final(self).wf(),
            r is Err <==> conflicts(old(self)@, info@),
            match r {
                Ok(()) => final(self)@ == insert_spec(
                    old(self)@,
                    BaseEntryView { info: info@, directory: directory@ },
                ),
                Err(e) => {
                    &&& final(self)@ == old(self)@
                    &&& e.new_base@ == info@.pkgbase
                    &&& info@.pkgnames.contains(e.name@)
                    &&& exists|i: int|
                        0 <= i < old(self)@.len() && old(self)@[i].info.pkgbase == e.existing_base@
                            && old(self)@[i].info.pkgbase != info@.pkgbase
                            && old(self)@[i].info.pkgnames.contains(e.name@)
                },
            },
    {
        let n = self.entries.len();
        let mut k: usize = 0;
        while k < info.pkgnames.len()
            invariant
                self.wf(),
                n == self@.len(),
                k <= info@.pkgnames.len(),
                forall|i: int, m: int|
                    0 <= i < n && 0 <= m < k && self@[i].info.pkgbase != info@.pkgbase
                        ==> !self@[i].info.pkgnames.contains(info@.pkgnames[m]),
            decreases info@.pkgnames.len() - k,
        {
            let found = index_get(&self.names, info.pkgnames[k].as_str());
            let ghost nm = info@.pkgnames[k as int];
            assert(nm == info.pkgnames@[k as int]@);
            if let Some(i) = found {
                if self.entries[i].info.pkgbase != info.pkgbase {
                    let err = DuplicatePkgName {
                        name: info.pkgnames[k].clone(),
                        existing_base: self.entries[i].info.pkgbase.clone(),
                        new_base: info.pkgbase.clone(),
                    };
                    proof {
                        assert(info@.pkgnames.contains(err.name@));
                        assert(self@[i as int].info.pkgnames.contains(err.name@));
                    }
                    return Err(err);
                }
            }
            proof {
                assert forall|i2: int|
                    0 <= i2 < n && self@[i2].info.pkgbase != info@.pkgbase implies !self@[i2].info.pkgnames.contains(nm) by {
                    if self@[i2].info.pkgnames.contains(nm) {
                        let i0 = index_contents(self.names)[nm] as int;
                        assert(self@[i0].info.pkgnames.contains(nm));
                        if i0 != i2 {
                            assert(names_disjoint(self@[i0].info.pkgnames, self@[i2].info.pkgnames));
                        }
                    }
                }
            }
            k = k + 1;
        }
        proof {
            if conflicts(self@, info@) {
                let (i, nm) = choose|i: int, nm: Seq<char>|
                    0 <= i < self@.len() && self@[i].info.pkgbase != info@.pkgbase
                        && #[trigger] self@[i].info.pkgnames.contains(nm)
                        && info@.pkgnames.contains(nm);
                let m = info@.pkgnames.index_of(nm);
                assert(!self@[i].info.pkgnames.contains(info@.pkgnames[m]));
            }
        }
        let ghost old_db = self@;
        assert(old_db == old(self)@);
        let entry = BaseEntry { info, directory };
        let ghost old_index = self.positions;
        let found = index_get(&self.positions, entry.info.pkgbase.as_str());
        proof {
            lemma_find_base(old_db, entry@.info.pkgbase);
        }
        if let Some(j) = found {
            let ghost ev = entry@;
            assert(old_db[j as int].info.pkgbase == ev.info.pkgbase);
            assert(find_base(old_db, ev.info.pkgbase) == j as int);
            assert(ev.info.pkgnames.len() > 0 && ev.info.pkgnames.no_duplicates());
            let ghost before = index_contents(self.names);
            self.unbind_names(j);
            let ghost removed = index_contents(self.names);
            self.entries.set(j, entry);
            assert(self@ =~= old_db.update(j as int, ev));
            self.bind_names(j);
            proof {
                let fin = index_contents(self.names);
                assert forall|nm: Seq<char>| #[trigger] fin.contains_key(nm) implies fin[nm] < self@.len()
                    && self@[fin[nm] as int].info.pkgnames.contains(nm) by {
                    if !ev.info.pkgnames.contains(nm) {
                        assert(removed.contains_key(nm));
                        assert(before.contains_key(nm));
                        let i0 = before[nm] as int;
                        assert(old_db[i0].info.pkgnames.contains(nm));
                        assert(i0 != j as int);
                    }
                }
                assert forall|i: int, nm: Seq<char>|
                    0 <= i < self@.len() && #[trigger] self@[i].info.pkgnames.contains(nm) implies fin.contains_key(nm) by {
                    if i != j as int {
                        assert(old_db[i].info.pkgnames.contains(nm));
                        assert(before.contains_key(nm));
                        assert(names_disjoint(old_db[i].info.pkgnames, old_db[j as int].info.pkgnames));
                    }
                }
            }
            proof {
                assert forall|a: int, b: int|
                    0 <= a < b < self@.len() implies self@[a].info.pkgbase
                    != self@[b].info.pkgbase by {
                    if a == j {
                        assert(old_db[b].info.pkgbase != old_db[a].info.pkgbase);
                    } else if b == j {
                        assert(old_db[b].info.pkgbase != old_db[a].info.pkgbase);
                    }
                }
                assert forall|a: int, b: int|
                    0 <= a < self@.len() && 0 <= b < self@.len() && a != b implies names_disjoint(
                    self@[a].info.pkgnames,
                    self@[b].info.pkgnames,
                ) by {
                    if a == j {
                        assert(old_db[b].info.pkgbase != ev.info.pkgbase);
                        assert forall|nm: Seq<char>| !(#[trigger] self@[a].info.pkgnames.contains(nm) && self@[b].info.pkgnames.contains(nm)) by {
                            if self@[b].info.pkgnames.contains(nm) && ev.info.pkgnames.contains(nm) {
                                assert(old_db[b].info.pkgnames.contains(nm));
                                assert(conflicts(old_db, ev.info));
                            }
                        }
                    } else if b == j {
                        assert(old_db[a].info.pkgbase != ev.info.pkgbase);
                        assert forall|nm: Seq<char>| !(#[trigger] self@[a].info.pkgnames.contains(nm) && self@[b].info.pkgnames.contains(nm)) by {
                            if self@[a].info.pkgnames.contains(nm) && ev.info.pkgnames.contains(nm) {
                                assert(old_db[a].info.pkgnames.contains(nm));
                                assert(conflicts(old_db, ev.info));
                            }
                        }
                    }
                }
            }
            assert(self.positions == old_index);
            return Ok(());
        }
        proof {
            lemma_find_base(old_db, entry@.info.pkgbase);
        }
        let ghost ev = entry@;
        let key = entry.info.pkgbase.clone();
        self.entries.push(entry);
        assert(self@ =~= old_db.push(ev));
        index_insert(&mut self.positions, key, n);
        let ghost before = index_contents(self.names);
        self.bind_names(n);
        proof {
            let fin = index_contents(self.names);
            assert forall|nm: Seq<char>| #[trigger] fin.contains_key(nm) implies fin[nm] < self@.len()
                && self@[fin[nm] as int].info.pkgnames.contains(nm) by {
                if !ev.info.pkgnames.contains(nm) {
                    assert(before.contains_key(nm));
                    let i0 = before[nm] as int;
                    assert(old_db[i0].info.pkgnames.contains(nm));
                }
            }
            assert forall|i: int, nm: Seq<char>|
                0 <= i < self@.len() && #[trigger] self@[i].info.pkgnames.contains(nm) implies fin.contains_key(nm) by {
                if i < n {
                    assert(old_db[i].info.pkgnames.contains(nm));
                    assert(before.contains_key(nm));
                }
            }
        }
        proof {
            let m = index_contents(self.positions);
            assert forall|b: Seq<char>| #[trigger] m.contains_key(b) implies m[b] < self@.len() && self@[m[b] as int].info.pkgbase == b by {
                if b != ev.info.pkgbase {
                    assert(index_contents(old_index).contains_key(b));
                }
            }
            assert forall|i: int| 0 <= i < self@.len() implies m.contains_key(#[trigger] self@[i].info.pkgbase) by {
                if i < n {
                    assert(index_contents(old_index).contains_key(old_db[i].info.pkgbase));
                }
            }
        }
        proof {
            let j = n as int;
            assert forall|a: int, b: int|
                0 <= a < self@.len() && 0 <= b < self@.len() && a != b implies names_disjoint(
                self@[a].info.pkgnames,
                self@[b].info.pkgnames,
            ) by {
                if a == j {
                    assert forall|nm: Seq<char>| !(#[trigger] self@[a].info.pkgnames.contains(nm) && self@[b].info.pkgnames.contains(nm)) by {
                        if self@[b].info.pkgnames.contains(nm) && ev.info.pkgnames.contains(nm) {
                            assert(conflicts(old_db, ev.info));
                        }
                    }
                } else if b == j {
                    assert forall|nm: Seq<char>| !(#[trigger] self@[a].info.pkgnames.contains(nm) && self@[b].info.pkgnames.contains(nm)) by {
                        if self@[a].info.pkgnames.contains(nm) && ev.info.pkgnames.contains(nm) {
                            assert(conflicts(old_db, ev.info));
                        }
                    }
                }
            }
        }
        Ok(())
    }

    proof fn lemma_common_depends(&self, i: int, j: int, common: bool)
        requires
            0 <= i < self@.len(),
            0 <= j < self@.len(),
            common == exists|d: Seq<char>|
                strings_view(self.entries@[i].info.depends@).contains(d)
                    && #[trigger] strings_view(self.entries@[j].info.pkgnames@).contains(d),
        ensures
            depends_on(self@, i, j) == (i != j && common),
    {
        assert(self@[i].info.depends == strings_view(self.entries@[i].info.depends@));
        assert(self@[j].info.pkgnames == strings_view(self.entries@[j].info.pkgnames@));
        if common && i != j {
            let d = choose|d: Seq<char>|
                strings_view(self.entries@[i].info.depends@).contains(d)
                    && #[trigger] strings_view(self.entries@[j].info.pkgnames@).contains(d);
            assert(self@[j].info.pkgnames.contains(d));
        }
        if depends_on(self@, i, j) {
            let d = choose|d: Seq<char>|
                self@[i].info.depends.contains(d) && #[trigger] self@[j].info.pkgnames.contains(d);
            assert(strings_view(self.entries@[j].info.pkgnames@).contains(d));
        }
    }

    /// The artifacts that should exist, by unit in insertion order, then by name,
    /// then by architecture; each compressed with zstd.
    pub fn package_file_base_names(&self) -> (r: Vec<PackageFileName>)
        ensures
            files_view(r@) == desired_spec(self@),
    {
        let mut out: Vec<PackageFileName> = Vec::new();
        let mut i: usize = 0;
        let ghost db = self@;
        while i < self.entries.len()
            invariant
                db == self@,
                i <= db.len(),
                files_view(out@) == db_files(db, i as int),
            decreases db.len() - i,
        {
            let info = &self.entries[i].info;
            let ghost iv = info@;
            assert(iv == db[i as int].info);
            let mut k: usize = 0;
            while k < info.pkgnames.len()
                invariant
                    db == self@,
                    i < db.len(),
                    iv == info@,
                    k <= iv.pkgnames.len(),
                    files_view(out@) == db_files(db, i as int) + name_files(iv, k as int),
                decreases iv.pkgnames.len() - k,
            {
                let mut j: usize = 0;
                let ghost name = iv.pkgnames[k as int];
                let ghost before = files_view(out@);
                assert(arch_files(iv, name, 0) =~= Seq::<FileNameView>::empty());
                assert(before + arch_files(iv, name, 0) =~= before);
                while j < info.arch.len()
                    invariant
                        iv == info@,
                        k < iv.pkgnames.len(),
                        name == iv.pkgnames[k as int],
                        j <= iv.arch.len(),
                        files_view(out@) == before + arch_files(iv, name, j as int),
                    decreases iv.arch.len() - j,
                {
                    let f = PackageFileName {
                        pkgname: info.pkgnames[k].clone(),
                        epoch: clone_option(&info.epoch),
                        pkgver: info.pkgver.clone(),
                        pkgrel: info.pkgrel.clone(),
                        arch: info.arch[j].clone(),
                        compression: Compression::Zst,
                    };
                    let ghost prev = out@;
                    out.push(f);
                    proof {
                        assert(f@ == desired_file(iv, name, iv.arch[j as int]));
                        assert(files_view(out@) =~= files_view(prev).push(f@));
                        assert(arch_files(iv, name, j + 1) =~= arch_files(iv, name, j as int).push(f@));
                    }
                    j = j + 1;
                }
                proof {
                    assert(iv.arch.take(iv.arch.len() as int) =~= iv.arch);
                    assert(name_files(iv, k + 1) == name_files(iv, k as int) + arch_files(iv, name, iv.arch.len() as int));
                    assert(files_view(out@) =~= db_files(db, i as int) + name_files(iv, k + 1));
                }
                k = k + 1;
            }
            i = i + 1;
        }
        out
    }

    /// The dependency graph over unit positions: row `i` lists, in increasing
    /// order, the other units that produce a name unit `i` depends on.
    /// Dependencies that no unit produces are left out.
    pub fn dependencies(&self) -> (r: Vec<Vec<usize>>)
        ensures
            r@.len() == self@.len(),
            forall|i: int, e: int| 0 <= i < r@.len() && 0 <= e < r@[i]@.len() ==> r@[i]@[e] < self@.len(),
            forall|i: int, j: int|
                0 <= i < self@.len() && 0 <= j < self@.len() ==> (r@[i]@.contains(j as usize)
                    <==> depends_on(self@, i, j)),
    {
        let n = self.entries.len();
        let mut g: Vec<Vec<usize>> = Vec::new();
        let mut i: usize = 0;
        while i < n
            invariant
                n == self@.len(),
                i <= n,
                g@.len() == i,
                forall|a: int, e: int| 0 <= a < i && 0 <= e < g@[a]@.len() ==> g@[a]@[e] < n,
                forall|a: int, j: int|
                    0 <= a < i && 0 <= j < n ==> (g@[a]@.contains(j as usize) <==> depends_on(self@, a, j)),
            decreases n - i,
        {
            let mut row: Vec<usize> = Vec::new();
            let mut j: usize = 0;
            while j < n
                invariant
                    n == self@.len(),
                    i < n,
                    j <= n,
                    forall|e: int| 0 <= e < row@.len() ==> row@[e] < j,
                    forall|b: int| 0 <= b < n ==> (row@.contains(b as usize) <==> (b < j && depends_on(self@, i as int, b))),
                decreases n - j,
            {
                let ghost prev = row@;
                let common = any_common(&self.entries[i].info.depends, &self.entries[j].info.pkgnames);
                proof {
                    self.lemma_common_depends(i as int, j as int, common);
                }
                if i != j && common {
                    row.push(j);
                }
                proof {
                    assert forall|b: int| 0 <= b < n implies (row@.contains(b as usize) <==> (b < j + 1 && depends_on(self@, i as int, b))) by {
                        if b == j as int {
                            if row@.len() > prev.len() {
                                assert(row@[prev.len() as int] == j);
                            } else {
                                assert(!prev.contains(j));
                            }
                        } else {
                            if row@.contains(b as usize) {
                                let e = choose|e: int| 0 <= e < row@.len() && row@[e] == b as usize;
                                if e < prev.len() {
                                    assert(prev[e] == b as usize);
                                }
                            }
                            if prev.contains(b as usize) {
                                let e = choose|e: int| 0 <= e < prev.len() && prev[e] == b as usize;
                                assert(row@[e] == b as usize);
                            }
                        }
                    }
                }
                j = j + 1;
            }
            g.push(row);
            proof {
                assert(g@[i as int]@ == row@);
            }
            i = i + 1;
        }
        g
    }

    /// A build order over unit positions: each unit after the units it depends on.
    /// Fails, returning no order, where some units can never be built.
    pub fn build_order(&self) -> (r: Result<Vec<usize>, CycleError>)
        ensures
            match r {
                Ok(order) => db_build_order(self@, order@),
                Err(e) => db_blocked(self@, e.members@),
            },
    {
        let g = self.dependencies();
        let ghost gv = graph_view(g@);
        proof {
            assert forall|i: int, e: int| 0 <= i < gv.len() && 0 <= e < gv[i].len() implies gv[i][e] < gv.len() by {
                assert(gv[i] == g@[i]@);
            }
        }
        match plan_build_order(&g) {
            Ok(order) => {
                proof {
                    assert(gv.len() == self@.len());
                    assert(is_build_order(gv, order@));
                    assert forall|a: int, j: int|
                        0 <= a < order@.len() && 0 <= j < self@.len() && #[trigger] depends_on(self@, order@[a] as int, j)
                        implies order@.take(a).contains(j as usize) by {
                        let x = order@[a] as int;
                        assert(gv[x] == g@[x]@);
                        assert(gv[x].contains(j as usize));
                        let e = choose|e: int| 0 <= e < gv[x].len() && gv[x][e] == j as usize;
                        assert(order@.take(a).contains(gv[x][e]));
                    }
                }
                Ok(order)
            },
            Err(members) => {
                proof {
                    assert forall|k: int| 0 <= k < members@.len() implies #[trigger] depends_among(
                        self@,
                        members@[k],
                        members@,
                    ) by {
                        let x = members@[k];
                        assert(depends_within(gv, x, members@));
                        let e = choose|e: int| 0 <= e < gv[x as int].len() && members@.contains(#[trigger] gv[x as int][e]);
                        let j = gv[x as int][e] as int;
                        assert(gv[x as int] == g@[x as int]@);
                        assert(gv[x as int].contains(j as usize));
                        assert(depends_on(self@, x as int, j));
                    }
                    assert(gv.len() == self@.len());
                }
                Err(CycleError { members })
            },
        }
    }

    /// The unit that produces `name`, if any.
    pub fn name_to_base(&self, name: &String) -> (r: Option<&String>)
        requires
            self.wf(),
        ensures
            match r {
                Some(b) => exists|i: int|
                    0 <= i < self@.len() && self@[i].info.pkgbase == b@
                        && #[trigger] self@[i].info.pkgnames.contains(name@),
                None => forall|i: int|
                    0 <= i < self@.len() ==> !#[trigger] self@[i].info.pkgnames.contains(name@),
            },
    {
        match index_get(&self.names, name.as_str()) {
            Some(i) => Some(&self.entries[i].info.pkgbase),
            None => None,
        }
    }

    fn position_of(&self, base: &String) -> (r: Option<usize>)
        requires
            self.wf(),
        ensures
            match r {
                Some(i) => i < self@.len() && self@[i as int].info.pkgbase == base@,
                None => forall|i: int| 0 <= i < self@.len() ==> self@[i].info.pkgbase != base@,
            },
    {
        index_get(&self.positions, base.as_str())
    }

    /// The names that unit `base` produces, in declared order.
    pub fn base_to_name(&self, base: &String) -> (r: Option<&Vec<String>>)
        requires
            self.wf(),
        ensures
            match r {
                Some(v) => find_base(self@, base@) >= 0 && strings_view(v@) == self@[find_base(self@, base@)].info.pkgnames,
                None => find_base(self@, base@) < 0,
            },
    {
        proof {
            lemma_find_base(self@, base@);
        }
        match self.position_of(base) {
            Some(i) => {
                assert(find_base(self@, base@) == i as int);
                Some(&self.entries[i].info.pkgnames)
            },
            None => None,
        }
    }

    /// The metadata of unit `base`.
    pub fn infos(&self, base: &String) -> (r: Option<&SrcInfo>)
        requires
            self.wf(),
        ensures
            match r {
                Some(v) => find_base(self@, base@) >= 0 && v@ == self@[find_base(self@, base@)].info,
                None => find_base(self@, base@) < 0,
            },
    {
        proof {
            lemma_find_base(self@, base@);
        }
        match self.position_of(base) {
            Some(i) => {
                assert(find_base(self@, base@) == i as int);
                Some(&self.entries[i].info)
            },
            None => None,
        }
    }

    /// The directory that unit `base` is built in.
    pub fn build_directories(&self, base: &String) -> (r: Option<&String>)
        requires
            self.wf(),
        ensures
            match r {
                Some(v) => find_base(self@, base@) >= 0 && v@ == self@[find_base(self@, base@)].directory,
                None => find_base(self@, base@) < 0,
            },
    {
        proof {
            lemma_find_base(self@, base@);
        }
        match self.position_of(base) {
            Some(i) => {
                assert(find_base(self@, base@) == i as int);
                Some(&self.entries[i].directory)
            },
            None => None,
        }
    }

    /// The units in insertion order.
    pub fn entries(&self) -> (r: &Vec<BaseEntry>)
        ensures
            entries_view(r@) == self@,
    {
        &self.entries
    }
}

/// Two different units of a well-formed database never produce a common name.
pub proof fn lemma_names_disjoint(db: &Database, i: int, j: int, name: Seq<char>)
    requires
        db.wf(),
        0 <= i < db@.len(),
        0 <= j < db@.len(),
        db@[i].info.pkgbase != db@[j].info.pkgbase,
    ensures
        !(db@[i].info.pkgnames.contains(name) && db@[j].info.pkgnames.contains(name)),
{
    assert(names_disjoint(db@[i].info.pkgnames, db@[j].info.pkgnames));
}

} // verus!
