use vstd::prelude::*;

use crate::analyzer::NestingCandidate;
use crate::error::Error;
use crate::paths::{file_name, file_name_spec, join, views};
use crate::scanner::{collision_views, collisions_spec, detect_collisions};

verus! {

/// Result of planning or applying a flatten operation.
#[derive(Debug)]
pub struct MoveResult {
    /// Items to move (or moved) from nested -> parent, in child order.
    pub moved: Vec<MoveRecord>,
}

/// A single item relocation.
#[derive(Debug, Clone)]
pub struct MoveRecord {
    pub from: String,
    pub to: String,
}

/// The `(from, to)` pairs of a move list.
pub open spec fn record_views(s: Seq<MoveRecord>) -> Seq<(Seq<char>, Seq<char>)> {
    s.map_values(|m: MoveRecord| (m.from@, m.to@))
}

/// The relocations a flatten performs: each child goes to the parent
/// under its own name, in child order; a child whose destination is the
/// nested directory itself is skipped. `None` when some child has no
/// final name component.
pub open spec fn plan_spec(
    parent: Seq<char>,
    nested: Seq<char>,
    children: Seq<Seq<char>>,
) -> Option<Seq<(Seq<char>, Seq<char>)>>
    decreases children.len(),
{
    if children.len() == 0 {
        Some(Seq::empty())
    } else {
        match plan_spec(parent, nested, children.drop_last()) {
            None => None,
            Some(rest) => match file_name_spec(children.last()) {
                None => None,
                Some(n) => {
                    let dest = parent + seq!['/'] + n;
                    if dest == nested {
                        Some(rest)
                    } else {
                        Some(rest.push((children.last(), dest)))
                    }
                },
            },
        }
    }
}

/// A child without a name component makes the whole plan fail.
proof fn lemma_plan_none(parent: Seq<char>, nested: Seq<char>, children: Seq<Seq<char>>, i: int)
    requires
        0 <= i < children.len(),
        file_name_spec(children[i]) is None,
    ensures
        plan_spec(parent, nested, children) is None,
    decreases children.len(),
{
    if i < children.len() - 1 {
        lemma_plan_none(parent, nested, children.drop_last(), i);
    }
}

/// Plan the flatten of `candidate`, refusing it when any collision
/// exists. `parent_entries` holds the names currently present in the
/// parent directory; the risk scan is re-run against it here, so a stale
/// report cannot be passed in.
///
/// Collision is all-or-nothing for the batch: with any collision the
/// result is a `Collision` error carrying the first conflicting existing
/// path, and no move is planned. Otherwise the result lists one move per
/// child, in the candidate's sorted order, skipping only a child whose
/// destination would be the nested directory itself. Nothing here
/// touches the filesystem: the caller performs the renames of the
/// returned plan (or, for a dry run, only reports them), so a dry run
/// and an apply are planned identically.
pub fn flatten(candidate: &NestingCandidate, parent_entries: &Vec<String>) -> (r: Result<
    MoveResult,
    Error,
>)
    ensures
        ({
            let cols = collisions_spec(
                candidate.parent@,
                candidate.nested@,
                views(parent_entries@),
                views(candidate.children@),
            );
            let plan = plan_spec(candidate.parent@, candidate.nested@, views(candidate.children@));
            &&& (cols.len() > 0 ==> (r matches Err(e) && (e matches Error::Collision { existing }
                && existing@ == cols[0].1)))
            &&& (cols.len() == 0 ==> match r {
                Ok(mr) => plan is Some && record_views(mr.moved@) == plan.unwrap(),
                Err(e) => plan is None && e is Other,
            })
        }),
{
    let ghost children = views(candidate.children@);
    let collisions = detect_collisions(candidate, parent_entries);
    if collisions.len() > 0 {
        let existing = collisions[0].existing.clone();
        proof {
            assert(collision_views(collisions@)[0].1 == existing@);
        }
        return Err(Error::Collision { existing });
    }
    let mut moved: Vec<MoveRecord> = Vec::new();
    let mut i: usize = 0;
    proof {
        assert(collision_views(collisions@).len() == 0);
        assert(children.take(0) =~= Seq::<Seq<char>>::empty());
        assert(record_views(moved@) =~= Seq::<(Seq<char>, Seq<char>)>::empty());
    }
    while i < candidate.children.len()
        invariant
            i <= children.len(),
            children == views(candidate.children@),
            collisions_spec(
                candidate.parent@,
                candidate.nested@,
                views(parent_entries@),
                children,
            ).len() == 0,
            plan_spec(candidate.parent@, candidate.nested@, children.take(i as int)) matches Some(
                p,
            ) && record_views(moved@) == p,
        decreases children.len() - i,
    {
        let child = &candidate.children[i];
        proof {
            assert(children.take(i + 1).drop_last() =~= children.take(i as int));
            assert(children.take(i + 1).last() == child@);
        }
        let name = match file_name(child) {
            Some(n) => n,
            None => {
                proof {
                    lemma_plan_none(candidate.parent@, candidate.nested@, children, i as int);
                }
                return Err(Error::Other(String::from_str("no file name for a child path")));
            },
        };
        let dest = join(&candidate.parent, &name);
        if !dest.eq(&candidate.nested) {
            let ghost pre = moved@;
            moved.push(MoveRecord { from: child.clone(), to: dest });
            proof {
                assert(record_views(moved@) =~= record_views(pre).push(
                    (child@, candidate.parent@ + seq!['/'] + name@),
                ));
            }
        }
        i += 1;
    }
    proof {
        assert(children.take(children.len() as int) =~= children);
    }
    Ok(MoveResult { moved })
}

/// When every child has a name and none would land on the nested
/// directory itself, the plan moves every child: one record per child,
/// each to the parent under the child's own name.
pub proof fn lemma_plan_full_length(parent: Seq<char>, nested: Seq<char>, children: Seq<Seq<char>>)
    requires
        forall|i: int|
            0 <= i < children.len() ==> file_name_spec(#[trigger] children[i]) is Some && parent
                + seq!['/'] + file_name_spec(children[i]).unwrap() != nested,
    ensures
        plan_spec(parent, nested, children) matches Some(p) && p.len() == children.len()
            && forall|i: int|
            0 <= i < children.len() ==> #[trigger] p[i] == (
                children[i],
                parent + seq!['/'] + file_name_spec(children[i]).unwrap(),
            ),
    decreases children.len(),
{
    if children.len() > 0 {
        assert(children[children.len() - 1] == children.last());
        lemma_plan_full_length(parent, nested, children.drop_last());
    }
}

} // verus!
