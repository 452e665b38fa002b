use crate::database::strings_view;
use crate::file_name::{render, render_spec, FileNameView, PackageFileName};
use vstd::prelude::*;

verus! {

/// A desired artifact whose file is missing: its file name and its identity.
#[derive(Debug, Clone)]
pub struct OutdatedEntry {
    pub file_name: String,
    pub package: PackageFileName,
}

impl View for OutdatedEntry {
    type V = (Seq<char>, FileNameView);

    open spec fn view(&self) -> (Seq<char>, FileNameView) {
        (self.file_name@, self.package@)
    }
}

pub open spec fn outdated_view(v: Seq<OutdatedEntry>) -> Seq<(Seq<char>, FileNameView)> {
    v.map_values(|e: OutdatedEntry| e@)
}

/// The desired artifacts whose exact file name is not among `present`, in order.
pub open spec fn outdated_spec(desired: Seq<FileNameView>, present: Seq<Seq<char>>) -> Seq<
    (Seq<char>, FileNameView),
>
    decreases desired.len(),
{
    if desired.len() == 0 {
        Seq::empty()
    } else {
        let prev = outdated_spec(desired.drop_last(), present);
        let d = desired.last();
        if present.contains(render_spec(d)) {
            prev
        } else {
            prev.push((render_spec(d), d))
        }
    }
}

fn contains_name(present: &Vec<String>, f: &String) -> (r: bool)
    ensures
        r == strings_view(present@).contains(f@),
{
    let mut i: usize = 0;
    while i < present.len()
        invariant
            i <= present@.len(),
            forall|j: int| 0 <= j < i ==> present@[j]@ != f@,
        decreases present@.len() - i,
    {
        if present[i] == *f {
            assert(strings_view(present@)[i as int] == f@);
            return true;
        }
        i = i + 1;
    }
    false
}

/// Lists each desired artifact whose file name is not exactly one of `present`.
/// Files in `present` that match nothing desired are ignored.
pub fn outdated_packages(desired: &Vec<PackageFileName>, present: &Vec<String>) -> (r: Vec<
    OutdatedEntry,
>)
    ensures
        outdated_view(r@) == outdated_spec(
            desired@.map_values(|p: PackageFileName| p@),
            strings_view(present@),
        ),
{
    let ghost dv = desired@.map_values(|p: PackageFileName| p@);
    let ghost pv = strings_view(present@);
    let mut out: Vec<OutdatedEntry> = Vec::new();
    let mut i: usize = 0;
    assert(dv.take(0) =~= Seq::<FileNameView>::empty());
    while i < desired.len()
        invariant
            dv == desired@.map_values(|p: PackageFileName| p@),
            pv == strings_view(present@),
            i <= desired@.len(),
            outdated_view(out@) == outdated_spec(dv.take(i as int), pv),
        decreases desired@.len() - i,
    {
        let name = render(&desired[i]);
        assert(dv.take(i + 1).drop_last() =~= dv.take(i as int));
        assert(dv.take(i + 1).last() == desired@[i as int]@);
        if !contains_name(present, &name) {
            let ghost prev = out@;
            out.push(OutdatedEntry { file_name: name, package: desired[i].duplicate() });
            assert(outdated_view(out@) =~= outdated_view(prev).push(out@[prev.len() as int]@));
        }
        i = i + 1;
    }
    assert(dv.take(desired@.len() as int) =~= dv);
    out
}

/// Each reported entry is a desired artifact whose file name is absent, reported
/// under that file name; each desired artifact whose file name is absent is
/// reported; and where the desired artifacts are distinct, none is reported twice.
pub proof fn lemma_outdated_sound_complete(desired: Seq<FileNameView>, present: Seq<Seq<char>>)
    ensures
        forall|k: int|
            #![trigger outdated_spec(desired, present)[k]]
            0 <= k < outdated_spec(desired, present).len() ==> {
                let e = outdated_spec(desired, present)[k];
                &&& !present.contains(e.0)
                &&& e.0 == render_spec(e.1)
                &&& desired.contains(e.1)
            },
        forall|x: FileNameView|
            desired.contains(x) && !present.contains(render_spec(x)) ==> #[trigger] outdated_spec(
                desired,
                present,
            ).contains((render_spec(x), x)),
        desired.no_duplicates() ==> outdated_spec(desired, present).no_duplicates(),
    decreases desired.len(),
{
    if desired.len() > 0 {
        let rest = desired.drop_last();
        let d = desired.last();
        lemma_outdated_sound_complete(rest, present);
        let prev = outdated_spec(rest, present);
        let r = outdated_spec(desired, present);
        assert forall|k: int|
            #![trigger r[k]]
            0 <= k < r.len() implies {
            let e = r[k];
            &&& !present.contains(e.0)
            &&& e.0 == render_spec(e.1)
            &&& desired.contains(e.1)
        } by {
            if k < prev.len() {
                assert(r[k] == prev[k]);
                let e = prev[k];
                let m = choose|m: int| 0 <= m < rest.len() && rest[m] == e.1;
                assert(desired[m] == e.1);
            } else {
                assert(desired[desired.len() - 1] == d);
            }
        }
        assert forall|x: FileNameView|
            desired.contains(x) && !present.contains(render_spec(x)) implies #[trigger] r.contains(
            (render_spec(x), x),
        ) by {
            let m = choose|m: int| 0 <= m < desired.len() && desired[m] == x;
            if m < rest.len() {
                assert(rest[m] == x);
                assert(prev.contains((render_spec(x), x)));
                let k = choose|k: int| 0 <= k < prev.len() && prev[k] == (render_spec(x), x);
                assert(r[k] == prev[k]);
            } else {
                assert(r[prev.len() as int] == (render_spec(x), x));
            }
        }
        if desired.no_duplicates() {
            assert(rest.no_duplicates());
            if !present.contains(render_spec(d)) {
                assert forall|k: int| 0 <= k < prev.len() implies prev[k] != (render_spec(d), d) by {
                    let e = prev[k];
                    let m = choose|m: int| 0 <= m < rest.len() && rest[m] == e.1;
                    assert(desired[m] == rest[m]);
                    assert(desired[desired.len() - 1] == d);
                }
                assert forall|a: int, b: int| 0 <= a < b < r.len() implies r[a] != r[b] by {
                    if b == prev.len() {
                        assert(r[a] == prev[a]);
                    } else {
                        assert(r[a] == prev[a] && r[b] == prev[b]);
                    }
                }
            }
        }
    }
}

/// Adding files whose names no desired artifact renders to leaves the result unchanged.
pub proof fn lemma_outdated_ignores_extra(
    desired: Seq<FileNameView>,
    present: Seq<Seq<char>>,
    extra: Seq<Seq<char>>,
)
    requires
        forall|x: FileNameView| desired.contains(x) ==> !extra.contains(#[trigger] render_spec(x)),
    ensures
        outdated_spec(desired, present + extra) == outdated_spec(desired, present),
    decreases desired.len(),
{
    if desired.len() > 0 {
        let rest = desired.drop_last();
        let d = desired.last();
        assert forall|x: FileNameView| rest.contains(x) implies !extra.contains(#[trigger] render_spec(x)) by {
            let m = choose|m: int| 0 <= m < rest.len() && rest[m] == x;
            assert(desired[m] == x);
        }
        lemma_outdated_ignores_extra(rest, present, extra);
        assert(desired.contains(d)) by {
            assert(desired[desired.len() - 1] == d);
        }
        let f = render_spec(d);
        assert(!extra.contains(f));
        if (present + extra).contains(f) {
            let m = choose|m: int| 0 <= m < (present + extra).len() && (present + extra)[m] == f;
            if m >= present.len() {
                assert(extra[m - present.len()] == f);
            }
            assert(present[m] == f);
        }
        if present.contains(f) {
            let m = choose|m: int| 0 <= m < present.len() && present[m] == f;
            assert((present + extra)[m] == f);
        }
    }
}

} // verus!
