use vstd::prelude::*;

verus! {

/// Where a member's packages are registered: one repository file or several.
#[derive(Debug, Clone)]
pub enum Repository<P> {
    Single(P),
    Multiple(Vec<P>),
}

impl<P> Repository<P> {
    /// The repository files, in order.
    pub open spec fn paths(&self) -> Seq<P> {
        match self {
            Repository::Single(p) => seq![*p],
            Repository::Multiple(v) => v@,
        }
    }

    /// The repository files of `self` followed by those of `other`.
    pub fn concat(self, other: Self) -> (r: Self)
        ensures
            r is Multiple,
            r.paths() == self.paths() + other.paths(),
    {
        let ghost left_paths = self.paths();
        let ghost right_paths = other.paths();
        let mut result = match self {
            Repository::Single(left) => {
                let mut v = Vec::new();
                v.push(left);
                v
            },
            Repository::Multiple(left) => left,
        };
        assert(result@ =~= left_paths);
        match other {
            Repository::Single(right) => {
                result.push(right);
            },
            Repository::Multiple(right) => {
                let mut right = right;
                result.append(&mut right);
            },
        }
        let r = Repository::Multiple(result);
        assert(r.paths() =~= left_paths + right_paths);
        r
    }
}

impl Repository<String> {
    /// The same repository files, borrowed.
    pub fn as_path(&self) -> (r: Repository<&str>)
        ensures
            r.paths().len() == self.paths().len(),
            forall|i: int| 0 <= i < r.paths().len() ==> r.paths()[i]@ == #[trigger] self.paths()[i]@,
            (r is Single) == (self is Single),
    {
        match self {
            Repository::Single(path) => Repository::Single(path.as_str()),
            Repository::Multiple(paths) => {
                let mut out: Vec<&str> = Vec::new();
                let mut i: usize = 0;
                while i < paths.len()
                    invariant
                        i <= paths@.len(),
                        out@.len() == i,
                        forall|k: int| 0 <= k < i ==> out@[k]@ == #[trigger] paths@[k]@,
                    decreases paths@.len() - i,
                {
                    out.push(paths[i].as_str());
                    i = i + 1;
                }
                Repository::Multiple(out)
            },
        }
    }
}

/// The repositories of both sides; one side alone where the other has none.
pub fn concat_repository_options<P>(left: Option<Repository<P>>, right: Option<Repository<P>>) -> (r:
    Option<Repository<P>>)
    ensures
        match (left, right) {
            (None, None) => r is None,
            (None, Some(b)) => r == Some(b),
            (Some(a), None) => r == Some(a),
            (Some(a), Some(b)) => r is Some && r->0 is Multiple && r->0.paths() == a.paths()
                + b.paths(),
        },
{
    match (left, right) {
        (None, None) => None,
        (None, right) => right,
        (left, None) => left,
        (Some(left), Some(right)) => Some(left.concat(right)),
    }
}

} // verus!
