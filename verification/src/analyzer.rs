use vstd::prelude::*;

use crate::error::Error;
use crate::paths::{
    file_name, file_name_spec, join, sort_strings, strings_sorted, views,
};

verus! {

/// A detected case of redundant directory nesting.
#[derive(Debug, Clone)]
pub struct NestingCandidate {
    /// The parent directory (e.g. `/home/app`), canonical and absolute.
    pub parent: String,
    /// The redundant child directory (e.g. `/home/app/app`).
    pub nested: String,
    /// Items inside the nested directory that would be moved up.
    pub children: Vec<String>,
}

impl NestingCandidate {
    /// The nested directory carries the parent's own final name component.
    pub open spec fn wf(&self) -> bool {
        &&& file_name_spec(self.parent@) is Some
        &&& self.nested@ == self.parent@ + seq!['/'] + file_name_spec(self.parent@).unwrap()
    }
}

/// The paths the children of `nested` get when each listed name is joined
/// onto it.
pub open spec fn joined_children(nested: Seq<char>, names: Seq<Seq<char>>) -> Seq<Seq<char>> {
    Seq::new(names.len(), |i: int| nested + seq!['/'] + names[i])
}

/// Decide whether `root` exhibits the self-named-child nesting pattern.
///
/// `root` is the canonical path of the directory under analysis, and
/// `nested_listing` the names of the immediate entries of
/// `root/<name-of-root>` — or `None` when that path is not a directory.
/// Listing the filesystem is the caller's part; the decision, the join
/// of each name below the nested directory and the sorted snapshot of
/// children are made here.
///
/// Absence of the pattern is a normal outcome: the result is then an
/// empty list, not an error. The one failure is a `root` with no final
/// name component (such as the filesystem root).
pub fn detect_nesting(root: &String, nested_listing: &Option<Vec<String>>) -> (r: Result<
    Vec<NestingCandidate>,
    Error,
>)
    ensures
        match r {
            Ok(cs) => {
                &&& file_name_spec(root@) is Some
                &&& (nested_listing is None ==> cs@.len() == 0)
                &&& (nested_listing matches Some(names) ==> {
                    &&& cs@.len() == 1
                    &&& cs@[0].wf()
                    &&& cs@[0].parent@ == root@
                    &&& cs@[0].nested@ == root@ + seq!['/'] + file_name_spec(root@).unwrap()
                    &&& strings_sorted(cs@[0].children@)
                    &&& views(cs@[0].children@).to_multiset() == joined_children(
                        cs@[0].nested@,
                        views(names@),
                    ).to_multiset()
                })
            },
            Err(e) => file_name_spec(root@) is None && e is Other,
        },
{
    let name = match file_name(root) {
        Some(n) => n,
        None => {
            return Err(Error::Other(String::from_str("cannot determine directory name")));
        },
    };
    let nested = join(root, &name);
    match nested_listing {
        None => Ok(Vec::new()),
        Some(names) => {
            let mut joined: Vec<String> = Vec::new();
            let mut i: usize = 0;
            while i < names.len()
                invariant
                    i <= names@.len(),
                    joined@.len() == i,
                    forall|j: int|
                        0 <= j < i ==> joined@[j]@ == nested@ + seq!['/'] + names@[j]@,
                    nested@ == root@ + seq!['/'] + name@,
                decreases names@.len() - i,
            {
                let p = join(&nested, &names[i]);
                joined.push(p);
                i += 1;
            }
            proof {
                assert(views(joined@) =~= joined_children(nested@, views(names@)));
            }
            let children = sort_strings(joined);
            let candidate = NestingCandidate { parent: root.clone(), nested, children };
            let mut out: Vec<NestingCandidate> = Vec::new();
            out.push(candidate);
            Ok(out)
        },
    }
}

} // verus!
