//! Breadcrumb navigation: one link for the root and one for each segment of
//! the path, each pointing at the prefix that ends in that segment.

use crate::path::{join, names, normal_components, sanitize_path};
use vstd::prelude::*;

verus! {

/// The link and the label of each breadcrumb.
pub open spec fn crumb_views(v: Seq<(String, String)>) -> Seq<(Seq<char>, Seq<char>)> {
    Seq::new(v.len(), |i: int| (v[i].0@, v[i].1@))
}

/// The trail for a path with the components `comps`: the root crumb, then for
/// each component the prefix that ends in it, labelled with the component.
pub open spec fn breadcrumb_trail(comps: Seq<Seq<char>>) -> Seq<(Seq<char>, Seq<char>)> {
    Seq::new(
        comps.len() + 1,
        |i: int|
            if i == 0 {
                (seq!['/'], seq!['r', 'o', 'o', 't'])
            } else {
                (join(comps.take(i)), comps[i - 1])
            },
    )
}

/// The breadcrumbs of `path`, which is sanitized first: `("/", "root")`, then
/// one crumb for each normal component, left to right.
pub fn breadcrumbs(path: &str) -> (trail: Vec<(String, String)>)
    ensures
        crumb_views(trail@) == breadcrumb_trail(normal_components(path@)),
        trail@.len() == 1 + normal_components(path@).len(),
{
    let sanitized = sanitize_path(path);
    let segs = sanitized.components();
    let ghost comps = normal_components(path@);
    let mut trail: Vec<(String, String)> = Vec::new();
    proof {
        reveal_strlit("/");
        reveal_strlit("root");
    }
    trail.push((String::from_str("/"), String::from_str("root")));
    let mut acc = String::new();
    let n: usize = segs.len();
    let mut i: usize = 0;
    assert("/"@ =~= seq!['/']);
    assert("root"@ =~= seq!['r', 'o', 'o', 't']);
    while i < n
        invariant
            i <= n,
            n == segs@.len(),
            names(segs@) == comps,
            acc@ == join(comps.take(i as int)),
            trail@.len() == i + 1,
            forall|k: int|
                0 <= k <= i ==> (#[trigger] trail@[k]).0@ == breadcrumb_trail(comps)[k].0
                    && trail@[k].1@ == breadcrumb_trail(comps)[k].1,
            "/"@ == seq!['/'],
        decreases n - i,
    {
        let ghost next = comps.take(i + 1);
        proof {
            assert(next.drop_last() =~= comps.take(i as int));
            assert(next.last() == segs@[i as int]@);
        }
        if i > 0 {
            acc.append("/");
        }
        acc.append(segs[i].as_str());
        assert(acc@ =~= join(next));
        trail.push((acc.clone(), segs[i].clone()));
        i += 1;
    }
    assert(crumb_views(trail@) =~= breadcrumb_trail(comps));
    trail
}

} // verus!
