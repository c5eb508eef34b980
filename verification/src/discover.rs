use vstd::prelude::*;

verus! {

/// One entry of a directory walk, in the order the walk yields it: the
/// path, split into its components from the walk root, and whether the
/// entry is a plain file.
pub struct WalkEntry {
    pub path: Vec<String>,
    pub is_file: bool,
}

/// The mathematical shape of a walk entry.
pub struct WalkEntryV {
    pub path: Seq<Seq<char>>,
    pub is_file: bool,
}

impl View for WalkEntry {
    type V = WalkEntryV;

    open spec fn view(&self) -> WalkEntryV {
        WalkEntryV { path: self.path.deep_view(), is_file: self.is_file }
    }
}

/// The views of a sequence of walk entries.
pub open spec fn entry_views(s: Seq<WalkEntry>) -> Seq<WalkEntryV> {
    s.map_values(|e: WalkEntry| e@)
}

/// Whether the entry is a plain file whose final path component equals the
/// target file name.
pub open spec fn is_match(e: WalkEntryV, target: Seq<char>) -> bool {
    e.is_file && e.path.len() > 0 && e.path.last() == target
}

/// Whether a path lies strictly beneath a directory.
pub open spec fn under(p: Seq<Seq<char>>, d: Seq<Seq<char>>) -> bool {
    d.is_prefix_of(p) && p.len() > d.len()
}

/// One walk step outside any pruned directory: a matching file is reported
/// and its directory becomes the pruned one; anything else clears the
/// pruned directory.
pub open spec fn step_fresh(e: WalkEntryV, target: Seq<char>) -> (Option<Seq<Seq<char>>>, bool) {
    if is_match(e, target) {
        (Some(e.path.drop_last()), true)
    } else {
        (None, false)
    }
}

/// One walk step: an entry still beneath the pruned directory is passed
/// over; the first entry outside it is handled afresh.
pub open spec fn step_spec(skip: Option<Seq<Seq<char>>>, e: WalkEntryV, target: Seq<char>) -> (
    Option<Seq<Seq<char>>>,
    bool,
) {
    match skip {
        Some(d) => if under(e.path, d) {
            (Some(d), false)
        } else {
            step_fresh(e, target)
        },
        None => step_fresh(e, target),
    }
}

/// The paths reported by a walk that starts in the given pruning state and
/// sees the entries in order.
pub open spec fn discover_from(
    skip: Option<Seq<Seq<char>>>,
    entries: Seq<WalkEntryV>,
    target: Seq<char>,
) -> Seq<Seq<Seq<char>>>
    decreases entries.len(),
{
    if entries.len() == 0 {
        Seq::<Seq<Seq<char>>>::empty()
    } else {
        let st = step_spec(skip, entries[0], target);
        (if st.1 {
            seq![entries[0].path]
        } else {
            Seq::<Seq<Seq<char>>>::empty()
        }) + discover_from(st.0, entries.drop_first(), target)
    }
}

/// The paths a fresh walk over the entries reports.
pub open spec fn spec_discover(entries: Seq<WalkEntryV>, target: Seq<char>) -> Seq<Seq<Seq<char>>> {
    discover_from(None, entries, target)
}

/// Every reported path is the path of some entry.
proof fn lemma_discover_paths(
    skip: Option<Seq<Seq<char>>>,
    entries: Seq<WalkEntryV>,
    target: Seq<char>,
    p: Seq<Seq<char>>,
)
    requires
        discover_from(skip, entries, target).contains(p),
    ensures
        exists|k: int| 0 <= k < entries.len() && entries[k].path == p,
    decreases entries.len(),
{
    let st = step_spec(skip, entries[0], target);
    let head: Seq<Seq<Seq<char>>> = if st.1 {
        seq![entries[0].path]
    } else {
        Seq::<Seq<Seq<char>>>::empty()
    };
    let rest = discover_from(st.0, entries.drop_first(), target);
    let whole = head + rest;
    let n = choose|n: int| 0 <= n < whole.len() && whole[n] == p;
    if n < head.len() {
        assert(entries[0].path == p);
    } else {
        assert(rest[n - head.len()] == p);
        assert(rest.contains(p));
        lemma_discover_paths(st.0, entries.drop_first(), target, p);
        let k = choose|k: int|
            0 <= k < entries.drop_first().len() && entries.drop_first()[k].path == p;
        assert(entries[k + 1].path == p);
    }
}

/// While every entry up to and including the `j`-th stays beneath the
/// pruned directory, the `j`-th entry's path is not reported, provided no
/// other entry carries that path.
proof fn lemma_skip_covers(
    d: Seq<Seq<char>>,
    entries: Seq<WalkEntryV>,
    target: Seq<char>,
    j: int,
)
    requires
        0 <= j < entries.len(),
        forall|k: int| 0 <= k <= j ==> under(#[trigger] entries[k].path, d),
        forall|k: int|
            0 <= k < entries.len() && #[trigger] entries[k].path == entries[j].path ==> k == j,
    ensures
        !discover_from(Some(d), entries, target).contains(entries[j].path),
    decreases entries.len(),
{
    assert(under(entries[0].path, d));
    let st = step_spec(Some(d), entries[0], target);
    assert(st == (Some(d), false));
    let rest = discover_from(Some(d), entries.drop_first(), target);
    assert(discover_from(Some(d), entries, target) =~= rest);
    let tail = entries.drop_first();
    assert(forall|k: int| 0 <= k < tail.len() ==> #[trigger] tail[k] == entries[k + 1]);
    if j == 0 {
        if rest.contains(entries[0].path) {
            lemma_discover_paths(Some(d), tail, target, entries[0].path);
            let k = choose|k: int| 0 <= k < tail.len() && tail[k].path == entries[0].path;
            assert(entries[k + 1].path == entries[0].path);
        }
    } else {
        lemma_skip_covers(d, tail, target, j - 1);
        assert(tail[j - 1].path == entries[j].path);
    }
}

/// A directory above another is above everything beneath the lower one.
proof fn lemma_under_trans(p: Seq<Seq<char>>, mid: Seq<Seq<char>>, d: Seq<Seq<char>>)
    requires
        under(p, mid),
        d.is_prefix_of(mid),
    ensures
        under(p, d),
{
    assert(d =~= p.subrange(0, d.len() as int)) by {
        assert(forall|m: int| 0 <= m < d.len() ==> d[m] == mid.subrange(0, d.len() as int)[m]);
        assert(forall|m: int| 0 <= m < mid.len() ==> mid[m] == p.subrange(0, mid.len() as int)[m]);
    }
}

/// Beneath a matched file's directory, every proper prefix of the file's
/// path is above the entries that stay in that directory.
proof fn lemma_prefix_of_parent(path: Seq<Seq<char>>, d: Seq<Seq<char>>)
    requires
        under(path, d),
        path.len() > 0,
    ensures
        d.is_prefix_of(path.drop_last()),
{
    let parent = path.drop_last();
    assert(d =~= parent.subrange(0, d.len() as int)) by {
        assert(forall|m: int| 0 <= m < d.len() ==> d[m] == path.subrange(0, d.len() as int)[m]);
        assert(forall|m: int| 0 <= m < parent.len() ==> parent[m] == path[m]);
    }
}

/// Pruning: once an entry matches the target name in some directory, no
/// later entry that stays beneath that directory is reported, whatever the
/// walk state beforehand — provided the later entry's path occurs only once
/// in the walk.
pub proof fn lemma_discover_prunes(
    skip: Option<Seq<Seq<char>>>,
    entries: Seq<WalkEntryV>,
    target: Seq<char>,
    i: int,
    j: int,
)
    requires
        0 <= i < j < entries.len(),
        is_match(entries[i], target),
        forall|k: int|
            i < k <= j ==> under(#[trigger] entries[k].path, entries[i].path.drop_last()),
        forall|k: int|
            0 <= k < entries.len() && #[trigger] entries[k].path == entries[j].path ==> k == j,
    ensures
        !discover_from(skip, entries, target).contains(entries[j].path),
    decreases entries.len(),
{
    let parent = entries[i].path.drop_last();
    let st = step_spec(skip, entries[0], target);
    let head: Seq<Seq<Seq<char>>> = if st.1 {
        seq![entries[0].path]
    } else {
        Seq::<Seq<Seq<char>>>::empty()
    };
    let tail = entries.drop_first();
    let rest = discover_from(st.0, tail, target);
    assert(discover_from(skip, entries, target) == head + rest);
    assert(forall|k: int| 0 <= k < tail.len() ==> #[trigger] tail[k] == entries[k + 1]);
    assert(entries[0].path != entries[j].path);
    if i == 0 {
        let covered = skip matches Some(d) && under(entries[0].path, d);
        if covered {
            let d = skip->Some_0;
            assert(st == (Some(d), false));
            lemma_prefix_of_parent(entries[0].path, d);
            assert forall|k: int| 0 <= k <= j - 1 implies under(#[trigger] tail[k].path, d) by {
                assert(tail[k] == entries[k + 1]);
                assert(under(entries[k + 1].path, parent));
                lemma_under_trans(entries[k + 1].path, parent, d);
            }
            lemma_skip_covers(d, tail, target, j - 1);
            assert(tail[j - 1].path == entries[j].path);
        } else {
            assert(st == (Some(parent), true));
            assert forall|k: int| 0 <= k <= j - 1 implies under(#[trigger] tail[k].path, parent) by {
                assert(tail[k] == entries[k + 1]);
            }
            lemma_skip_covers(parent, tail, target, j - 1);
            assert(tail[j - 1].path == entries[j].path);
        }
    } else {
        lemma_discover_prunes(st.0, tail, target, i - 1, j - 1);
        assert(tail[j - 1].path == entries[j].path);
    }
    if (head + rest).contains(entries[j].path) {
        let n = choose|n: int|
            0 <= n < (head + rest).len() && (head + rest)[n] == entries[j].path;
        if n < head.len() {
            assert(head[n] == entries[0].path);
        } else {
            assert(rest[n - head.len()] == entries[j].path);
            assert(rest.contains(entries[j].path));
        }
    }
}

/// The walk state the watcher of a directory walk carries: the directory
/// currently pruned, when a match was just found in it.
pub struct DiscoverState {
    skip: Option<Vec<String>>,
}

impl View for DiscoverState {
    type V = Option<Seq<Seq<char>>>;

    closed spec fn view(&self) -> Option<Seq<Seq<char>>> {
        match self.skip {
            Some(ref d) => Some(d.deep_view()),
            None => None,
        }
    }
}

/// Whether the path's components lie strictly beneath the directory's.
fn is_under(p: &Vec<String>, d: &Vec<String>) -> (r: bool)
    ensures
        r == under(p.deep_view(), d.deep_view()),
{
    if d.len() >= p.len() {
        proof {
            assert(!under(p.deep_view(), d.deep_view()));
        }
        return false;
    }
    let n = d.len();
    let mut i: usize = 0;
    while i < n
        invariant
            i <= n,
            n == d@.len() < p@.len(),
            forall|m: int| 0 <= m < i ==> d.deep_view()[m] == p.deep_view()[m],
        decreases n - i,
    {
        if !(d[i] == p[i]) {
            proof {
                assert(d.deep_view()[i as int] != p.deep_view()[i as int]);
                assert(!d.deep_view().is_prefix_of(p.deep_view())) by {
                    if d.deep_view().is_prefix_of(p.deep_view()) {
                        assert(d.deep_view() =~= p.deep_view().subrange(0, n as int));
                        assert(d.deep_view()[i as int] == p.deep_view()[i as int]);
                    }
                }
            }
            return false;
        }
        i += 1;
    }
    proof {
        assert(d.deep_view() =~= p.deep_view().subrange(0, n as int));
    }
    true
}

/// A copy of a path, component by component.
fn clone_path(p: &Vec<String>) -> (r: Vec<String>)
    ensures
        r.deep_view() == p.deep_view(),
        r@.len() == p@.len(),
{
    let n = p.len();
    let mut r: Vec<String> = Vec::new();
    let mut i: usize = 0;
    while i < n
        invariant
            i <= n,
            n == p@.len(),
            r@.len() == i,
            forall|m: int| 0 <= m < i ==> r@[m] == p@[m],
        decreases n - i,
    {
        r.push(p[i].clone());
        i += 1;
    }
    proof {
        assert(r.deep_view() =~= p.deep_view());
    }
    r
}

/// The parent directory of a path: all components but the last.
fn path_parent(p: &Vec<String>) -> (r: Vec<String>)
    requires
        p@.len() > 0,
    ensures
        r.deep_view() == p.deep_view().drop_last(),
{
    let n = p.len();
    let mut r: Vec<String> = Vec::new();
    let mut i: usize = 0;
    while i < n - 1
        invariant
            i <= n - 1,
            0 < n == p@.len(),
            r@.len() == i,
            forall|m: int| 0 <= m < i ==> r@[m] == p@[m],
        decreases n - i,
    {
        r.push(p[i].clone());
        i += 1;
    }
    proof {
        assert(r.deep_view() =~= p.deep_view().drop_last());
    }
    r
}

impl DiscoverState {
    /// A fresh walk state: nothing pruned yet.
    pub fn new() -> (r: DiscoverState)
        ensures
            r@ is None,
    {
        DiscoverState { skip: None }
    }

    /// Feeds the next walk entry. Returns true exactly when the entry is a
    /// newly found matching file, whose directory is pruned from there on;
    /// the caller may then skip the rest of that directory, which this state
    /// ignores either way.
    pub fn step(&mut self, e: &WalkEntry, target: &String) -> (matched: bool)
        ensures
            final(self)@ == step_spec(old(self)@, e@, target@).0,
            matched == step_spec(old(self)@, e@, target@).1,
    {
        let covered = match &self.skip {
            Some(d) => is_under(&e.path, d),
            None => false,
        };
        if covered {
            return false;
        }
        if e.is_file && e.path.len() > 0 && e.path[e.path.len() - 1] == *target {
            proof {
                assert(e@.path.last() == target@);
                assert(is_match(e@, target@));
            }
            self.skip = Some(path_parent(&e.path));
            true
        } else {
            proof {
                assert(!is_match(e@, target@));
            }
            self.skip = None;
            false
        }
    }
}

/// Runs a whole walk over the entries, in order, and returns the reported
/// paths: the matching files, at most one per directory branch while the
/// walk stays inside it.
pub fn discover(entries: &Vec<WalkEntry>, target: &String) -> (r: Vec<Vec<String>>)
    ensures
        r.deep_view() == spec_discover(entry_views(entries@), target@),
{
    let ghost evs = entry_views(entries@);
    let mut st = DiscoverState::new();
    let mut r: Vec<Vec<String>> = Vec::new();
    let n = entries.len();
    let mut i: usize = 0;
    proof {
        assert(r.deep_view() =~= Seq::<Seq<Seq<char>>>::empty());
        assert(evs.skip(0) =~= evs);
    }
    while i < n
        invariant
            i <= n,
            n == entries@.len(),
            evs == entry_views(entries@),
            evs.len() == n,
            spec_discover(evs, target@) == r.deep_view() + discover_from(
                st@,
                evs.skip(i as int),
                target@,
            ),
        decreases n - i,
    {
        let ghost pre_r = r.deep_view();
        let ghost pre_st = st@;
        let matched = st.step(&entries[i], target);
        if matched {
            r.push(clone_path(&entries[i].path));
        }
        proof {
            let seg = evs.skip(i as int);
            assert(seg[0] == evs[i as int]);
            assert(seg.drop_first() =~= evs.skip(i + 1));
            assert(evs[i as int] == entries@[i as int]@);
            if matched {
                assert(r.deep_view() =~= pre_r.push(entries@[i as int]@.path));
                assert(r.deep_view() + discover_from(st@, evs.skip(i + 1), target@) =~= pre_r + (
                seq![evs[i as int].path] + discover_from(st@, evs.skip(i + 1), target@)));
            } else {
                assert(r.deep_view() + discover_from(st@, evs.skip(i + 1), target@) =~= pre_r + (
                Seq::<Seq<Seq<char>>>::empty() + discover_from(st@, evs.skip(i + 1), target@)));
            }
        }
        i += 1;
    }
    proof {
        assert(evs.skip(n as int) =~= Seq::<WalkEntryV>::empty());
        assert(r.deep_view() + Seq::<Seq<Seq<char>>>::empty() =~= r.deep_view());
    }
    r
}

} // verus!
