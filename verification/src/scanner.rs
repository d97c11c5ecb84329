use vstd::prelude::*;

use crate::analyzer::NestingCandidate;
use crate::paths::{file_name, file_name_spec, is_path_prefix, join, path_starts_with, views};

verus! {

/// Potential risks discovered by scanning a nesting candidate before moving.
#[derive(Debug, Clone)]
pub struct ScanReport {
    /// Entries at the destination that would collide with moved items.
    pub collisions: Vec<Collision>,
    /// Symlinks that might break after flattening.
    pub symlink_risks: Vec<SymlinkRisk>,
}

#[derive(Debug, Clone)]
pub struct Collision {
    /// The source path inside the nested directory.
    pub source: String,
    /// The conflicting path that already exists in the parent.
    pub existing: String,
}

#[derive(Debug, Clone)]
pub struct SymlinkRisk {
    /// The symlink path.
    pub link: String,
    /// Where it currently points.
    pub target: String,
    /// Whether the target lives inside the nested directory being moved.
    pub target_inside_nested: bool,
}

/// The `(source, existing)` pairs of a collision list.
pub open spec fn collision_views(s: Seq<Collision>) -> Seq<(Seq<char>, Seq<char>)> {
    s.map_values(|c: Collision| (c.source@, c.existing@))
}

/// The collisions a flatten of `children` into `parent` would meet, given
/// the names already present in `parent`: one per child whose destination
/// name is taken, in child order. The nested directory's own destination
/// is expected to exist and is never a collision.
pub open spec fn collisions_spec(
    parent: Seq<char>,
    nested: Seq<char>,
    entries: Seq<Seq<char>>,
    children: Seq<Seq<char>>,
) -> Seq<(Seq<char>, Seq<char>)>
    decreases children.len(),
{
    if children.len() == 0 {
        Seq::empty()
    } else {
        let rest = collisions_spec(parent, nested, entries, children.drop_last());
        let c = children.last();
        match file_name_spec(c) {
            None => rest,
            Some(n) => {
                let dest = parent + seq!['/'] + n;
                if dest == nested {
                    rest
                } else if entries.contains(n) {
                    rest.push((c, dest))
                } else {
                    rest
                }
            },
        }
    }
}

/// Whether `name` occurs among the entry names `entries`.
fn contains_name(entries: &Vec<String>, name: &String) -> (r: bool)
    ensures
        r == views(entries@).contains(name@),
{
    let mut i: usize = 0;
    while i < entries.len()
        invariant
            i <= entries@.len(),
            forall|j: int| 0 <= j < i ==> views(entries@)[j] != name@,
        decreases entries@.len() - i,
    {
        if entries[i].eq(name) {
            proof {
                assert(views(entries@)[i as int] == name@);
            }
            return true;
        }
        i += 1;
    }
    false
}

/// Check whether any child in the nested dir would collide with an
/// existing entry in the parent directory; `parent_entries` holds the
/// names currently present in the parent.
pub fn detect_collisions(candidate: &NestingCandidate, parent_entries: &Vec<String>) -> (r: Vec<
    Collision,
>)
    ensures
        collision_views(r@) == collisions_spec(
            candidate.parent@,
            candidate.nested@,
            views(parent_entries@),
            views(candidate.children@),
        ),
{
    let ghost children = views(candidate.children@);
    let mut collisions: Vec<Collision> = Vec::new();
    let mut i: usize = 0;
    proof {
        assert(collision_views(collisions@) =~= collisions_spec(
            candidate.parent@,
            candidate.nested@,
            views(parent_entries@),
            children.take(0),
        ));
    }
    while i < candidate.children.len()
        invariant
            i <= children.len(),
            children == views(candidate.children@),
            collision_views(collisions@) == collisions_spec(
                candidate.parent@,
                candidate.nested@,
                views(parent_entries@),
                children.take(i as int),
            ),
        decreases children.len() - i,
    {
        let child = &candidate.children[i];
        proof {
            assert(children.take(i + 1).drop_last() =~= children.take(i as int));
            assert(children.take(i + 1).last() == child@);
        }
        match file_name(child) {
            None => {},
            Some(name) => {
                let dest = join(&candidate.parent, &name);
                if !dest.eq(&candidate.nested) && contains_name(parent_entries, &name) {
                    let ghost pre = collisions@;
                    collisions.push(Collision { source: child.clone(), existing: dest });
                    proof {
                        assert(collision_views(collisions@) =~= collision_views(pre).push(
                            (child@, candidate.parent@ + seq!['/'] + name@),
                        ));
                    }
                }
            },
        }
        i += 1;
    }
    proof {
        assert(children.take(children.len() as int) =~= children);
    }
    collisions
}

/// Classify the symlinks found under the nested directory: `links` holds
/// each symlink's path with its link value, as the caller's walk of the
/// subtree found them. Every link is reported; the classification says
/// whether its target lies inside the nested subtree.
pub fn detect_symlink_risks(candidate: &NestingCandidate, links: &Vec<(String, String)>) -> (r:
    Vec<SymlinkRisk>)
    ensures
        r@.len() == links@.len(),
        forall|i: int|
            0 <= i < links@.len() ==> {
                &&& #[trigger] r@[i].link@ == links@[i].0@
                &&& r@[i].target@ == links@[i].1@
                &&& r@[i].target_inside_nested == is_path_prefix(links@[i].1@, candidate.nested@)
            },
{
    let mut risks: Vec<SymlinkRisk> = Vec::new();
    let mut i: usize = 0;
    while i < links.len()
        invariant
            i <= links@.len(),
            risks@.len() == i,
            forall|j: int|
                0 <= j < i ==> {
                    &&& #[trigger] risks@[j].link@ == links@[j].0@
                    &&& risks@[j].target@ == links@[j].1@
                    &&& risks@[j].target_inside_nested == is_path_prefix(
                        links@[j].1@,
                        candidate.nested@,
                    )
                },
        decreases links@.len() - i,
    {
        let target_inside = path_starts_with(&links[i].1, &candidate.nested);
        risks.push(
            SymlinkRisk {
                link: links[i].0.clone(),
                target: links[i].1.clone(),
                target_inside_nested: target_inside,
            },
        );
        i += 1;
    }
    risks
}

/// Scan a nesting candidate for potential risks before applying a move.
/// `parent_entries` holds the names present in the parent directory and
/// `links` the symlinks found under the nested subtree; the caller reads
/// both from the filesystem. Never fails: risk discovery degrades
/// gracefully rather than blocking reporting.
pub fn scan(candidate: &NestingCandidate, parent_entries: &Vec<String>, links: &Vec<
    (String, String),
>) -> (r: ScanReport)
    ensures
        collision_views(r.collisions@) == collisions_spec(
            candidate.parent@,
            candidate.nested@,
            views(parent_entries@),
            views(candidate.children@),
        ),
        r.symlink_risks@.len() == links@.len(),
        forall|i: int|
            0 <= i < links@.len() ==> {
                &&& #[trigger] r.symlink_risks@[i].link@ == links@[i].0@
                &&& r.symlink_risks@[i].target@ == links@[i].1@
                &&& r.symlink_risks@[i].target_inside_nested == is_path_prefix(
                    links@[i].1@,
                    candidate.nested@,
                )
            },
{
    let collisions = detect_collisions(candidate, parent_entries);
    let symlink_risks = detect_symlink_risks(candidate, links);
    ScanReport { collisions, symlink_risks }
}

impl ScanReport {
    /// Returns `true` if the scan found no blocking issues: only
    /// collisions block, symlink risks are advisory.
    pub fn is_safe(&self) -> (r: bool)
        ensures
            r == (self.collisions@.len() == 0),
    {
        self.collisions.len() == 0
    }
}

/// A child whose destination name is taken, and whose destination is not
/// the nested directory itself, is always reported as a collision.
pub proof fn lemma_collision_reported(
    parent: Seq<char>,
    nested: Seq<char>,
    entries: Seq<Seq<char>>,
    children: Seq<Seq<char>>,
    i: int,
)
    requires
        0 <= i < children.len(),
        file_name_spec(children[i]) is Some,
        parent + seq!['/'] + file_name_spec(children[i]).unwrap() != nested,
        entries.contains(file_name_spec(children[i]).unwrap()),
    ensures
        collisions_spec(parent, nested, entries, children).contains(
            (children[i], parent + seq!['/'] + file_name_spec(children[i]).unwrap()),
        ),
    decreases children.len(),
{
    let n = file_name_spec(children[i]).unwrap();
    let pair = (children[i], parent + seq!['/'] + n);
    let whole = collisions_spec(parent, nested, entries, children);
    let rest = collisions_spec(parent, nested, entries, children.drop_last());
    if i == children.len() - 1 {
        assert(whole == rest.push(pair));
        assert(whole[rest.len() as int] == pair);
        assert(whole.contains(pair));
    } else {
        lemma_collision_reported(parent, nested, entries, children.drop_last(), i);
        let k = choose|k: int| 0 <= k < rest.len() && rest[k] == pair;
        assert(whole[k] == pair);
        assert(whole.contains(pair));
    }
}

/// When no child's name occurs among the parent's entries, the scan
/// reports no collision; in particular an empty parent gives none.
pub proof fn lemma_disjoint_names_no_collisions(
    parent: Seq<char>,
    nested: Seq<char>,
    entries: Seq<Seq<char>>,
    children: Seq<Seq<char>>,
)
    requires
        forall|i: int|
            0 <= i < children.len() && file_name_spec(#[trigger] children[i]) is Some
                ==> !entries.contains(file_name_spec(children[i]).unwrap()),
    ensures
        collisions_spec(parent, nested, entries, children) == Seq::<(Seq<char>, Seq<char>)>::empty(),
    decreases children.len(),
{
    if children.len() > 0 {
        assert(children[children.len() - 1] == children.last());
        lemma_disjoint_names_no_collisions(parent, nested, entries, children.drop_last());
    }
}

/// An empty parent directory never collides with anything.
pub proof fn lemma_empty_parent_no_collisions(
    parent: Seq<char>,
    nested: Seq<char>,
    children: Seq<Seq<char>>,
)
    ensures
        collisions_spec(parent, nested, Seq::empty(), children) == Seq::<
            (Seq<char>, Seq<char>),
        >::empty(),
{
    lemma_disjoint_names_no_collisions(parent, nested, Seq::empty(), children);
}

} // verus!
