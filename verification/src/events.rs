use vstd::prelude::*;

verus! {

/// A filesystem change notification, reduced to what the watch loop reacts
/// to: something was created, something's contents were modified, or
/// anything else (removals, renames, metadata, access).
#[derive(Clone, Copy, PartialEq, Eq, Structural, Debug)]
pub enum FsEventKind {
    Created,
    Modified,
    Other,
}

/// Only creations and content modifications are acted on.
pub open spec fn relevant_kind(k: FsEventKind) -> bool {
    k is Created || k is Modified
}

/// Whether the path's final component is the watched input file name.
pub open spec fn is_target_path(p: Seq<Seq<char>>, name: Seq<char>) -> bool {
    p.len() > 0 && p.last() == name
}

/// Whether the path's final component equals the given file name.
fn path_matches(p: &Vec<String>, name: &String) -> (r: bool)
    ensures
        r == is_target_path(p.deep_view(), name@),
{
    if p.len() == 0 {
        return false;
    }
    let r = p[p.len() - 1] == *name;
    proof {
        assert(p.deep_view().last() == p@[p@.len() - 1]@);
    }
    r
}

/// A copy of a path, component by component.
fn copy_path(p: &Vec<String>) -> (r: Vec<String>)
    ensures
        r.deep_view() == p.deep_view(),
{
    let n = p.len();
    let mut r: Vec<String> = Vec::new();
    let mut i: usize = 0;
    while i < n
        invariant
            i <= n,
            n == p@.len(),
            r@.len() == i,
            forall|m: int| 0 <= m < i ==> r@[m] == p@[m],
        decreases n - i,
    {
        r.push(p[i].clone());
        i += 1;
    }
    proof {
        assert(r.deep_view() =~= p.deep_view());
    }
    r
}

/// The watch loop's decision for one event: the paths to reload, namely
/// every path of the event whose final component is the input file name, in
/// the event's order — and none at all when the event is not a creation or
/// a content modification.
pub fn paths_to_process(kind: FsEventKind, paths: &Vec<Vec<String>>, input_name: &String) -> (r:
    Vec<Vec<String>>)
    ensures
        r.deep_view() == if relevant_kind(kind) {
            paths.deep_view().filter(|p: Seq<Seq<char>>| is_target_path(p, input_name@))
        } else {
            Seq::<Seq<Seq<char>>>::empty()
        },
{
    let ghost pred = |p: Seq<Seq<char>>| is_target_path(p, input_name@);
    let mut r: Vec<Vec<String>> = Vec::new();
    proof {
        assert(r.deep_view() =~= Seq::<Seq<Seq<char>>>::empty());
    }
    match kind {
        FsEventKind::Created | FsEventKind::Modified => {},
        FsEventKind::Other => {
            return r;
        },
    }
    let n = paths.len();
    let mut i: usize = 0;
    proof {
        reveal_with_fuel(Seq::<Seq<Seq<char>>>::filter, 2);
        assert(paths.deep_view().take(0) =~= Seq::<Seq<Seq<char>>>::empty());
        assert(r.deep_view() =~= paths.deep_view().take(0).filter(pred));
    }
    while i < n
        invariant
            i <= n,
            n == paths@.len(),
            pred == (|p: Seq<Seq<char>>| is_target_path(p, input_name@)),
            r.deep_view() == paths.deep_view().take(i as int).filter(pred),
        decreases n - i,
    {
        let ghost pre = r.deep_view();
        let ghost pv = paths.deep_view();
        if path_matches(&paths[i], input_name) {
            r.push(copy_path(&paths[i]));
        }
        proof {
            reveal_with_fuel(Seq::<Seq<Seq<char>>>::filter, 2);
            let x = pv[i as int];
            assert(x == paths@[i as int].deep_view());
            assert(pv.take(i + 1) =~= pv.take(i as int) + seq![x]);
            Seq::<Seq<Seq<char>>>::filter_distributes_over_add(pv.take(i as int), seq![x], pred);
            assert(seq![x].drop_last() =~= Seq::<Seq<Seq<char>>>::empty());
            if pred(x) {
                assert(seq![x].filter(pred) =~= seq![x]);
                assert(r.deep_view() =~= pre + seq![x]);
            } else {
                assert(seq![x].filter(pred) =~= Seq::<Seq<Seq<char>>>::empty());
                assert(r.deep_view() =~= pre + seq![x].filter(pred));
            }
        }
        i += 1;
    }
    proof {
        assert(paths.deep_view().take(n as int) =~= paths.deep_view());
    }
    r
}

} // verus!
