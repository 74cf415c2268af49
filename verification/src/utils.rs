use vstd::prelude::*;

verus! {

/// A dependency graph in the mathematical model: each node, by its name,
/// maps to the names of its dependencies, in the order they are listed.
pub type DepGraph = spec_fn(Seq<char>) -> Seq<Seq<char>>;

/// The names held by a sequence of strings.
pub open spec fn names(v: Seq<String>) -> Seq<Seq<char>> {
    v.map_values(|s: String| s@)
}

/// `f` is a dependency function that computes `g`: whatever it returns for a
/// name is the list `g` gives that name.
pub open spec fn computes<F: Fn(&String) -> Vec<String>>(f: F, g: DepGraph) -> bool {
    forall|n: &String, r: Vec<String>| #[trigger] call_ensures(f, (n,), r) ==> names(r@) == g(n@)
}

/// Every dependency of a node of `u` is again in `u`.
pub open spec fn closed_under(u: Set<Seq<char>>, g: DepGraph) -> bool {
    forall|a: Seq<char>, j: int| u.contains(a) && 0 <= j < g(a).len() ==> #[trigger] u.contains(
        g(a)[j],
    )
}

/// The nodes reachable from `roots` lie in some finite set: the search ends.
pub open spec fn finitely_reachable(roots: Seq<Seq<char>>, g: DepGraph) -> bool {
    exists|u: Set<Seq<char>>|
        u.finite() && closed_under(u, g) && forall|i: int|
            0 <= i < roots.len() ==> #[trigger] u.contains(roots[i])
}

/// Each node of `w` depends on the next one.
pub open spec fn is_walk(w: Seq<Seq<char>>, g: DepGraph) -> bool {
    forall|i: int| 0 <= i < w.len() - 1 ==> #[trigger] g(w[i]).contains(w[i + 1])
}

/// `w` is a walk that starts at one of `roots` and ends at `x`.
pub open spec fn is_walk_to(w: Seq<Seq<char>>, roots: Seq<Seq<char>>, x: Seq<char>, g: DepGraph) -> bool {
    &&& w.len() >= 1
    &&& roots.contains(w[0])
    &&& w.last() == x
    &&& is_walk(w, g)
}

/// `x` is one of `roots` or a dependency, direct or not, of one of them.
pub open spec fn reaches(roots: Seq<Seq<char>>, x: Seq<char>, g: DepGraph) -> bool {
    exists|w: Seq<Seq<char>>| #[trigger] is_walk_to(w, roots, x, g)
}

/// `order` lists, each once, every node reachable from `roots` and nothing
/// else, and every node comes after all of its dependencies.
pub open spec fn is_topological_order(
    order: Seq<Seq<char>>,
    roots: Seq<Seq<char>>,
    g: DepGraph,
) -> bool {
    &&& order.no_duplicates()
    &&& forall|i: int| 0 <= i < roots.len() ==> #[trigger] order.contains(roots[i])
    &&& forall|i: int| 0 <= i < order.len() ==> #[trigger] reaches(roots, order[i], g)
    &&& forall|i: int, j: int|
        0 <= i < order.len() && 0 <= j < g(order[i]).len() ==> #[trigger] order.take(i).contains(
            g(order[i])[j],
        )
}

/// `c` is a closed walk that passes through no node twice: its first node is
/// its last, and each node depends on the next one.
pub open spec fn is_cycle(c: Seq<Seq<char>>, g: DepGraph) -> bool {
    &&& c.len() >= 2
    &&& c[0] == c.last()
    &&& is_walk(c, g)
    &&& c.drop_last().no_duplicates()
}

/// The depth-first visit of `node`, with the finished nodes `ord` and the
/// path `pth` of nodes being visited, outermost first: `Ok` with the
/// finished nodes after it, or `Err` with the cycle met, from the first
/// place on the path of the node met again to that node. `n` bounds the
/// depth of the visit; with enough of it, more gives the same outcome.
pub open spec fn visit(g: DepGraph, n: nat, node: Seq<char>, ord: Seq<Seq<char>>, pth: Seq<Seq<char>>) -> Result<
    Seq<Seq<char>>,
    Seq<Seq<char>>,
>
    decreases n, 0nat,
{
    if ord.contains(node) {
        Ok(ord)
    } else {
        match pth.index_of_first(node) {
            Some(k) => Err(pth.subrange(k, pth.len() as int).push(node)),
            None => if n == 0 {
                Ok(ord)
            } else {
                visit_deps(g, (n - 1) as nat, node, 0, ord, pth.push(node))
            },
        }
    }
}

/// The visit of the dependencies of `node` from the `i`-th on, in the order
/// listed, then `node` finished.
pub open spec fn visit_deps(
    g: DepGraph,
    n: nat,
    node: Seq<char>,
    i: nat,
    ord: Seq<Seq<char>>,
    pth: Seq<Seq<char>>,
) -> Result<Seq<Seq<char>>, Seq<Seq<char>>>
    decreases n, (g(node).len() + 1 - i) as nat,
{
    if i >= g(node).len() {
        Ok(ord.push(node))
    } else {
        match visit(g, n, g(node)[i as int], ord, pth) {
            Ok(o) => visit_deps(g, n, node, i + 1, o, pth),
            Err(c) => Err(c),
        }
    }
}

/// The visits of `roots` from the `i`-th on, in order.
pub open spec fn visit_roots(g: DepGraph, n: nat, roots: Seq<Seq<char>>, i: nat, ord: Seq<Seq<char>>) -> Result<
    Seq<Seq<char>>,
    Seq<Seq<char>>,
>
    decreases roots.len() - i,
{
    if i >= roots.len() {
        Ok(ord)
    } else {
        match visit(g, n, roots[i as int], ord, Seq::empty()) {
            Ok(o) => visit_roots(g, n, roots, i + 1, o),
            Err(c) => Err(c),
        }
    }
}

/// The outcome of the depth-first search from `roots` with depth bound `n`.
pub open spec fn dfs_outcome(g: DepGraph, n: nat, roots: Seq<Seq<char>>) -> Result<Seq<Seq<char>>, Seq<Seq<char>>> {
    visit_roots(g, n, roots, 0, Seq::empty())
}

/// A result of the sort in the mathematical model.
pub open spec fn sort_outcome(res: Result<Vec<String>, TopologicalSortError<String>>) -> Result<
    Seq<Seq<char>>,
    Seq<Seq<char>>,
> {
    match res {
        Ok(order) => Ok(names(order@)),
        Err(TopologicalSortError::DependencyCycle { cycle }) => Err(names(cycle@)),
    }
}

/// A path of distinct nodes of `u` that misses a node of `u` is shorter
/// than `u` is large.
proof fn lemma_path_room(u: Set<Seq<char>>, pth: Seq<Seq<char>>, x: Seq<char>)
    requires
        u.finite(),
        pth.no_duplicates(),
        forall|i: int| 0 <= i < pth.len() ==> #[trigger] u.contains(pth[i]),
        u.contains(x),
        !pth.contains(x),
    ensures
        pth.len() < u.len(),
{
    pth.unique_seq_to_set();
    let s = pth.to_set().insert(x);
    assert(s.subset_of(u)) by {
        assert forall|a: Seq<char>| s.contains(a) implies u.contains(a) by {
            if a != x {
                let k = choose|k: int| 0 <= k < pth.len() && pth[k] == a;
                assert(u.contains(pth[k]));
            }
        }
    }
    vstd::set_lib::lemma_len_subset(s, u);
}

/// Some cycle of `g` can be reached from `roots`.
pub open spec fn has_reachable_cycle(roots: Seq<Seq<char>>, g: DepGraph) -> bool {
    exists|c: Seq<Seq<char>>| #[trigger] is_cycle(c, g) && reaches(roots, c[0], g)
}

/// Why no order can be given.
#[derive(Debug, PartialEq, Eq)]
pub enum TopologicalSortError<N> {
    DependencyCycle { cycle: Vec<N> },
}

impl TopologicalSortError<String> {
    /// The error's text: the cycle's names joined by arrows.
    pub fn message(&self) -> (r: String)
        ensures
            match self {
                TopologicalSortError::DependencyCycle { cycle } => r@ == "Dependency cycle detected: "@
                    + crate::text::joined(names(cycle@), " -> "@),
            },
    {
        match self {
            TopologicalSortError::DependencyCycle { cycle } => {
                let mut r = String::from_str("Dependency cycle detected: ");
                let body = crate::text::join(cycle, " -> ");
                r.append(body.as_str());
                r
            },
        }
    }
}

// ---------------------------------------------------------------------------
// The search's own bookkeeping.
// ---------------------------------------------------------------------------
/// The nodes the search has entered: those finished and those on the path.
pub open spec fn seen_set(ord: Seq<Seq<char>>, pth: Seq<Seq<char>>) -> Set<Seq<char>> {
    ord.to_set().union(pth.to_set())
}

/// Every dependency function that computes some graph gives the nodes of `s`
/// the same dependencies as `g` does.
pub open spec fn agrees_on<F: Fn(&String) -> Vec<String>>(
    f: F,
    g: DepGraph,
    s: Set<Seq<char>>,
) -> bool {
    forall|h: DepGraph| #[trigger]
        computes(f, h) ==> forall|a: Seq<char>| #[trigger] s.contains(a) ==> h(a) == g(a)
}

/// A walk from `roots` to `x` all of whose nodes lie in `s`.
pub open spec fn walk_in(
    w: Seq<Seq<char>>,
    roots: Seq<Seq<char>>,
    x: Seq<char>,
    g: DepGraph,
    s: Set<Seq<char>>,
) -> bool {
    &&& is_walk_to(w, roots, x, g)
    &&& forall|i: int| 0 <= i < w.len() ==> #[trigger] s.contains(w[i])
}

pub open spec fn reaches_in(
    roots: Seq<Seq<char>>,
    x: Seq<char>,
    g: DepGraph,
    s: Set<Seq<char>>,
) -> bool {
    exists|w: Seq<Seq<char>>| #[trigger] walk_in(w, roots, x, g, s)
}

/// What holds of the finished list `ord` and the path `pth` between steps of
/// the depth-first search.
pub open spec fn search_inv<F: Fn(&String) -> Vec<String>>(
    f: F,
    ord: Seq<Seq<char>>,
    pth: Seq<Seq<char>>,
    g: DepGraph,
    u: Set<Seq<char>>,
    roots: Seq<Seq<char>>,
) -> bool {
    &&& ord.no_duplicates()
    &&& pth.no_duplicates()
    &&& forall|i: int, j: int|
        0 <= i < ord.len() && 0 <= j < pth.len() ==> #[trigger] ord[i] != #[trigger] pth[j]
    &&& forall|i: int| 0 <= i < ord.len() ==> #[trigger] u.contains(ord[i])
    &&& forall|i: int| 0 <= i < pth.len() ==> #[trigger] u.contains(pth[i])
    &&& forall|i: int, j: int|
        0 <= i < ord.len() && 0 <= j < g(ord[i]).len() ==> #[trigger] ord.take(i).contains(
            g(ord[i])[j],
        )
    &&& forall|i: int|
        0 <= i < ord.len() ==> #[trigger] reaches_in(roots, ord[i], g, seen_set(ord, pth))
    &&& is_walk(pth, g)
    &&& pth.len() > 0 ==> roots.contains(pth[0])
    &&& agrees_on(f, g, seen_set(ord, pth))
}

pub open spec fn cycle_found<F: Fn(&String) -> Vec<String>>(
    f: F,
    c: Seq<Seq<char>>,
    g: DepGraph,
    roots: Seq<Seq<char>>,
    s: Set<Seq<char>>,
) -> bool {
    &&& is_cycle(c, g)
    &&& forall|i: int| 0 <= i < c.len() ==> #[trigger] s.contains(c[i])
    &&& reaches_in(roots, c[0], g, s)
    &&& agrees_on(f, g, s)
}

pub proof fn lemma_names_push(v: Seq<String>, x: String)
    ensures
        names(v.push(x)) == names(v).push(x@),
{
    assert(names(v.push(x)) =~= names(v).push(x@));
}

pub proof fn lemma_names_drop_last(v: Seq<String>)
    requires
        v.len() > 0,
    ensures
        names(v.drop_last()) == names(v).drop_last(),
{
    assert(names(v.drop_last()) =~= names(v).drop_last());
}

pub proof fn lemma_reaches_in_mono(
    roots: Seq<Seq<char>>,
    x: Seq<char>,
    g: DepGraph,
    s: Set<Seq<char>>,
    t: Set<Seq<char>>,
)
    requires
        reaches_in(roots, x, g, s),
        s.subset_of(t),
    ensures
        reaches_in(roots, x, g, t),
{
    let w = choose|w: Seq<Seq<char>>| #[trigger] walk_in(w, roots, x, g, s);
    assert(walk_in(w, roots, x, g, t));
}

/// A walk whose nodes all lie where two graphs agree is a walk of both.
proof fn lemma_reaches_transfer<F: Fn(&String) -> Vec<String>>(
    f: F,
    roots: Seq<Seq<char>>,
    x: Seq<char>,
    g: DepGraph,
    h: DepGraph,
    s: Set<Seq<char>>,
)
    requires
        reaches_in(roots, x, g, s),
        agrees_on(f, g, s),
        computes(f, h),
    ensures
        reaches(roots, x, h),
{
    let w = choose|w: Seq<Seq<char>>| #[trigger] walk_in(w, roots, x, g, s);
    assert forall|i: int| 0 <= i < w.len() - 1 implies #[trigger] h(w[i]).contains(w[i + 1]) by {
        assert(s.contains(w[i]));
        assert(g(w[i]).contains(w[i + 1]));
    }
    assert(is_walk_to(w, roots, x, h));
}

/// Removing from `u` a node of `u` that `a` lacks and `b` holds shrinks what
/// is left of `u`.
pub proof fn lemma_measure_drops(u: Set<Seq<char>>, a: Set<Seq<char>>, b: Set<Seq<char>>, x: Seq<char>)
    requires
        u.finite(),
        a.subset_of(b),
        u.contains(x),
        !a.contains(x),
        b.contains(x),
    ensures
        u.difference(b).len() < u.difference(a).len(),
{
    vstd::set_lib::lemma_len_subset(u.difference(b), u.difference(a).remove(x));
    assert(u.difference(a).contains(x));
}

/// A copy of `v`.
pub fn clone_strings(v: &Vec<String>) -> (r: Vec<String>)
    ensures
        names(r@) == names(v@),
        r@.len() == v@.len(),
{
    let mut r: Vec<String> = Vec::new();
    let mut i: usize = 0;
    while i < v.len()
        invariant
            i <= v@.len(),
            r@.len() == i,
            forall|j: int| 0 <= j < i ==> #[trigger] r@[j]@ == v@[j]@,
        decreases v@.len() - i,
    {
        let s = v[i].clone();
        r.push(s);
        i += 1;
    }
    assert(names(r@) =~= names(v@));
    r
}

/// Whether `v` holds a string with the characters of `x`.
pub fn contains_name(v: &Vec<String>, x: &str) -> (r: bool)
    ensures
        r == names(v@).contains(x@),
{
    let mut i: usize = 0;
    while i < v.len()
        invariant
            i <= v@.len(),
            forall|j: int| 0 <= j < i ==> #[trigger] v@[j]@ != x@,
        decreases v@.len() - i,
    {
        if crate::text::str_eq(v[i].as_str(), x) {
            assert(names(v@)[i as int] == x@);
            return true;
        }
        i += 1;
    }
    assert forall|j: int| 0 <= j < names(v@).len() implies names(v@)[j] != x@ by {
        assert(names(v@)[j] == v@[j]@);
    }
    false
}

/// The first index of `x` in `v`, compared by contents.
pub(crate) fn position_of(v: &Vec<String>, x: &String) -> (r: Option<usize>)
    ensures
        match r {
            Some(i) => i < v@.len() && v@[i as int]@ == x@ && forall|j: int|
                0 <= j < i ==> #[trigger] v@[j]@ != x@,
            None => forall|j: int| 0 <= j < v@.len() ==> #[trigger] v@[j]@ != x@,
        },
{
    let mut i: usize = 0;
    while i < v.len()
        invariant
            i <= v@.len(),
            forall|j: int| 0 <= j < i ==> #[trigger] v@[j]@ != x@,
        decreases v@.len() - i,
    {
        if v[i] == *x {
            return Some(i);
        }
        i += 1;
    }
    None
}

pub proof fn lemma_prefix_contains(a: Seq<Seq<char>>, b: Seq<Seq<char>>, x: Seq<char>)
    requires
        b.len() <= a.len(),
        a.take(b.len() as int) == b,
        b.contains(x),
    ensures
        a.contains(x),
{
    let k = choose|k: int| 0 <= k < b.len() && b[k] == x;
    assert(a.take(b.len() as int)[k] == b[k]);
    assert(a[k] == x);
}

pub proof fn lemma_to_set_push(s: Seq<Seq<char>>, x: Seq<char>)
    ensures
        s.push(x).to_set() == s.to_set().insert(x),
{
    let t = s.push(x);
    assert forall|a: Seq<char>| t.to_set().contains(a) implies s.to_set().insert(x).contains(a) by {
        let k = choose|k: int| 0 <= k < t.len() && t[k] == a;
        if k < s.len() {
            assert(s[k] == a);
        }
    }
    assert forall|a: Seq<char>| s.to_set().insert(x).contains(a) implies t.to_set().contains(a) by {
        if a == x {
            assert(t[s.len() as int] == x);
        } else {
            let k = choose|k: int| 0 <= k < s.len() && s[k] == a;
            assert(t[k] == a);
        }
    }
    assert(t.to_set() =~= s.to_set().insert(x));
}

proof fn lemma_names_index(v: Seq<String>, i: int)
    requires
        0 <= i < v.len(),
    ensures
        names(v)[i] == v[i]@,
        names(v).len() == v.len(),
{
}

/// A result of one visit in the mathematical model.
pub open spec fn visit_outcome(res: Result<(), TopologicalSortError<String>>, ord: Seq<Seq<char>>) -> Result<
    Seq<Seq<char>>,
    Seq<Seq<char>>,
> {
    match res {
        Ok(()) => Ok(ord),
        Err(TopologicalSortError::DependencyCycle { cycle }) => Err(names(cycle@)),
    }
}

/// Visits `node` and, before it, everything it depends on, appending each
/// node to `order` once all of its dependencies are there; `path` holds the
/// nodes being visited, outermost first.
fn dfs<F: Fn(&String) -> Vec<String>>(
    node: String,
    get_dependencies: &F,
    order: &mut Vec<String>,
    path: &mut Vec<String>,
    Ghost(g): Ghost<DepGraph>,
    Ghost(u): Ghost<Set<Seq<char>>>,
    Ghost(roots): Ghost<Seq<Seq<char>>>,
) -> (res: Result<(), TopologicalSortError<String>>)
    requires
        forall|n: &String| call_requires(*get_dependencies, (n,)),
        computes(*get_dependencies, g),
        u.finite(),
        closed_under(u, g),
        u.contains(node@),
        search_inv(*get_dependencies, names(old(order)@), names(old(path)@), g, u, roots),
        old(path)@.len() == 0 ==> roots.contains(node@),
        old(path)@.len() > 0 ==> g(names(old(path)@).last()).contains(node@),
    ensures
        search_inv(*get_dependencies, names(final(order)@), names(final(path)@), g, u, roots),
        seen_set(names(old(order)@), names(old(path)@)).subset_of(
            seen_set(names(final(order)@), names(final(path)@)),
        ),
        match res {
            Ok(()) => {
                &&& names(final(path)@) == names(old(path)@)
                &&& names(final(order)@).take(old(order)@.len() as int) == names(old(order)@)
                &&& old(order)@.len() <= final(order)@.len()
                &&& names(final(order)@).contains(node@)
            },
            Err(TopologicalSortError::DependencyCycle { cycle }) => cycle_found(
                *get_dependencies,
                names(cycle@),
                g,
                roots,
                seen_set(names(final(order)@), names(final(path)@)),
            ),
        },
        forall|h: DepGraph, n: nat|
            computes(*get_dependencies, h) && n + old(path)@.len() >= u.len() ==> #[trigger] visit(
                h,
                n,
                node@,
                names(old(order)@),
                names(old(path)@),
            ) == visit_outcome(res, names(final(order)@)),
    decreases u.difference(seen_set(names(old(order)@), names(old(path)@))).len(),
{
    let ghost f = *get_dependencies;
    let ghost ord0 = names(order@);
    let ghost pth0 = names(path@);
    let ghost seen0 = seen_set(ord0, pth0);
    match position_of(order, &node) {
        Some(k) => {
            proof {
                lemma_names_index(order@, k as int);
                assert(ord0.contains(node@));
            }
            return Ok(());
        },
        None => {},
    }
    proof {
        assert(!ord0.contains(node@)) by {
            if ord0.contains(node@) {
                let k = choose|k: int| 0 <= k < ord0.len() && ord0[k] == node@;
                lemma_names_index(order@, k);
            }
        }
    }
    match position_of(path, &node) {
        Some(start_idx) => {
            let mut cycle: Vec<String> = Vec::new();
            let mut k: usize = start_idx;
            while k < path.len()
                invariant
                    start_idx <= k <= path@.len(),
                    cycle@.len() == k - start_idx,
                    forall|j: int| 0 <= j < cycle@.len() ==> #[trigger] cycle@[j] == path@[start_idx + j],
                decreases path@.len() - k,
            {
                cycle.push(path[k].clone());
                k += 1;
            }
            cycle.push(node);
            proof {
                let c = names(cycle@);
                let p = names(path@);
                let s = p.len() - start_idx;
                assert(c.len() == s + 1);
                assert forall|j: int| 0 <= j < s implies #[trigger] c[j] == p[start_idx + j] by {}
                assert(c[s] == node@);
                assert(c[0] == node@);
                assert forall|i: int| 0 <= i < c.len() - 1 implies #[trigger] g(c[i]).contains(
                    c[i + 1],
                ) by {
                    if i + 1 < s {
                        assert(g(p[start_idx + i]).contains(p[start_idx + i + 1]));
                    } else {
                        assert(p.last() == p[start_idx + i]);
                    }
                }
                assert forall|i: int, j: int|
                    0 <= i < c.drop_last().len() && 0 <= j < c.drop_last().len() && i != j
                    implies c.drop_last()[i] != c.drop_last()[j] by {
                    assert(c.drop_last()[i] == p[start_idx + i]);
                    assert(c.drop_last()[j] == p[start_idx + j]);
                }
                assert forall|i: int| 0 <= i < c.len() implies #[trigger] seen0.contains(c[i]) by {
                    if i < s {
                        assert(p.to_set().contains(p[start_idx + i]));
                    } else {
                        assert(p.to_set().contains(p[start_idx as int]));
                    }
                }
                let w = p.take(start_idx + 1);
                assert(p.to_set().contains(p[0]));
                assert forall|i: int| 0 <= i < w.len() implies #[trigger] seen0.contains(w[i]) by {
                    assert(p.to_set().contains(p[i]));
                }
                assert forall|i: int| 0 <= i < w.len() - 1 implies #[trigger] g(w[i]).contains(
                    w[i + 1],
                ) by {
                    assert(g(p[i]).contains(p[i + 1]));
                }
                assert(walk_in(w, roots, c[0], g, seen0));
                // The search meets the node again at its first place on the path.
                p.index_of_first_ensures(node@);
                assert(p[start_idx as int] == node@);
                let fst = p.index_of_first(node@)->0;
                if fst < start_idx {
                    assert(path@[fst]@ != node@);
                }
                assert(fst == start_idx);
                assert(c =~= p.subrange(start_idx as int, p.len() as int).push(node@));
            }
            return Err(TopologicalSortError::DependencyCycle { cycle });
        },
        None => {},
    }
    proof {
        assert(pth0.index_of_first(node@) is None) by {
            pth0.index_of_first_ensures(node@);
            if pth0.index_of_first(node@) is Some {
                let k = pth0.index_of_first(node@)->0;
                lemma_names_index(path@, k);
            }
        }
        assert(!pth0.contains(node@)) by {
            if pth0.contains(node@) {
                let k = choose|k: int| 0 <= k < pth0.len() && pth0[k] == node@;
                lemma_names_index(path@, k);
            }
        }
        lemma_path_room(u, pth0, node@);
    }
    let deps = get_dependencies(&node);
    proof {
        assert(call_ensures(f, (&node,), deps));
        assert(names(deps@) == g(node@));
    }
    let ghost pre_push = path@;
    path.push(node.clone());
    let ghost pth1 = names(path@);
    proof {
        lemma_names_push(pre_push, node);
        assert(pth1 == pth0.push(node@));
        let seen1 = seen_set(ord0, pth1);
        lemma_to_set_push(pth0, node@);
        assert(seen1 =~= seen0.insert(node@));
        assert forall|h: DepGraph| #[trigger] computes(f, h) implies forall|a: Seq<char>| #[trigger]
            seen1.contains(a) ==> h(a) == g(a) by {
            assert forall|a: Seq<char>| #[trigger] seen1.contains(a) implies h(a) == g(a) by {
                if a == node@ {
                    assert(call_ensures(f, (&node,), deps));
                } else {
                    assert(seen0.contains(a));
                }
            }
        }
        assert forall|i: int| 0 <= i < ord0.len() implies #[trigger] reaches_in(
            roots,
            ord0[i],
            g,
            seen1,
        ) by {
            lemma_reaches_in_mono(roots, ord0[i], g, seen0, seen1);
        }
        assert forall|i: int, j: int|
            0 <= i < ord0.len() && 0 <= j < pth1.len() implies #[trigger] ord0[i] != #[trigger] pth1[j] by {
            if j == pth0.len() {
                assert(order@[i]@ != node@);
            }
        }
        assert forall|i: int| 0 <= i < pth1.len() - 1 implies #[trigger] g(pth1[i]).contains(
            pth1[i + 1],
        ) by {
            if i + 1 < pth0.len() {
                assert(g(pth0[i]).contains(pth0[i + 1]));
            }
        }
        assert forall|i: int, j: int|
            0 <= i < pth1.len() && 0 <= j < pth1.len() && i != j implies pth1[i] != pth1[j] by {
            if i == pth0.len() {
                assert(path@[j]@ != node@);
            } else if j == pth0.len() {
                assert(pre_push[i]@ != node@);
            }
        }
        if pth0.len() > 0 {
            assert(pth1[0] == pth0[0]);
        }
        assert(search_inv(f, ord0, pth1, g, u, roots));
        lemma_measure_drops(u, seen0, seen1, node@);
    }
    proof {
        assert forall|h: DepGraph| #[trigger] computes(f, h) implies h(node@) == names(deps@) by {
            assert(call_ensures(f, (&node,), deps));
        }
    }
    let mut i: usize = 0;
    while i < deps.len()
        invariant
            forall|n: &String| call_requires(f, (n,)),
            f == *get_dependencies,
            computes(f, g),
            u.finite(),
            closed_under(u, g),
            u.contains(node@),
            names(deps@) == g(node@),
            ord0 == names(old(order)@),
            pth0 == names(old(path)@),
            seen0 == seen_set(ord0, pth0),
            i <= deps@.len(),
            names(path@) == pth1,
            pth1 == pth0.push(node@),
            search_inv(f, names(order@), names(path@), g, u, roots),
            order@.len() >= ord0.len(),
            names(order@).take(ord0.len() as int) == ord0,
            seen_set(ord0, pth1).subset_of(seen_set(names(order@), names(path@))),
            seen0.subset_of(seen_set(ord0, pth1)),
            seen0.insert(node@) == seen_set(ord0, pth1),
            !seen0.contains(node@),
            forall|j: int| 0 <= j < i ==> #[trigger] names(order@).contains(g(node@)[j]),
            forall|h: DepGraph| #[trigger] computes(f, h) ==> h(node@) == names(deps@),
            !ord0.contains(node@),
            pth0.index_of_first(node@) is None,
            pth0.len() < u.len(),
            forall|h: DepGraph, m: nat|
                computes(f, h) && m + pth1.len() >= u.len() ==> #[trigger] visit_deps(h, m, node@, 0, ord0, pth1)
                    == visit_deps(h, m, node@, i as nat, names(order@), pth1),
        decreases deps@.len() - i,
    {
        let dep = deps[i].clone();
        let ghost ord_before = names(order@);
        let ghost seen_before = seen_set(names(order@), names(path@));
        proof {
            assert(names(deps@)[i as int] == dep@);
            assert(g(node@).contains(dep@));
            assert(u.contains(g(node@)[i as int]));
            assert(seen0.subset_of(seen_before)) by {
                assert forall|a: Seq<char>| seen0.contains(a) implies seen_before.contains(a) by {
                    assert(seen_set(ord0, pth1).contains(a));
                }
            }
            assert(pth1.to_set().contains(node@)) by {
                assert(pth1[pth0.len() as int] == node@);
            }
            assert(seen_set(ord0, pth1).contains(node@));
            assert(seen_before.contains(node@));
            lemma_measure_drops(u, seen0, seen_before, node@);
            assert(u.difference(seen_before).len() < u.difference(seen0).len());
            assert(pth1.last() == node@);
        }
        match dfs(dep, get_dependencies, order, path, Ghost(g), Ghost(u), Ghost(roots)) {
            Ok(()) => {},
            Err(e) => {
                proof {
                    let fin = seen_set(names(order@), names(path@));
                    assert forall|a: Seq<char>| seen0.contains(a) implies fin.contains(a) by {
                        assert(seen_before.contains(a));
                    }
                    let out = visit_outcome(Err(e), names(order@));
                    assert forall|h: DepGraph, n: nat|
                        computes(f, h) && n + pth0.len() >= u.len() implies #[trigger] visit(h, n, node@, ord0, pth0)
                        == out by {
                        let m = (n - 1) as nat;
                        assert(visit(h, m, dep@, ord_before, pth1) == out);
                        assert(h(node@)[i as int] == dep@);
                        assert(visit_deps(h, m, node@, i as nat, ord_before, pth1) == out);
                        assert(visit_deps(h, m, node@, 0, ord0, pth1) == out);
                    }
                }
                return Err(e);
            },
        }
        proof {
            let ord_after = names(order@);
            assert forall|h: DepGraph, m: nat|
                computes(f, h) && m + pth1.len() >= u.len() implies #[trigger] visit_deps(h, m, node@, 0, ord0, pth1)
                == visit_deps(h, m, node@, (i + 1) as nat, ord_after, pth1) by {
                assert(visit(h, m, dep@, ord_before, pth1) == Ok::<Seq<Seq<char>>, Seq<Seq<char>>>(ord_after));
                assert(h(node@)[i as int] == dep@);
                assert(visit_deps(h, m, node@, i as nat, ord_before, pth1) == visit_deps(
                    h,
                    m,
                    node@,
                    (i + 1) as nat,
                    ord_after,
                    pth1,
                ));
            }
            assert forall|j: int| 0 <= j < i + 1 implies #[trigger] ord_after.contains(
                g(node@)[j],
            ) by {
                if j < i {
                    assert(ord_before.contains(g(node@)[j]));
                    lemma_prefix_contains(ord_after, ord_before, g(node@)[j]);
                }
            }
            assert(ord_after.take(ord0.len() as int) =~= ord0) by {
                assert forall|k: int| 0 <= k < ord0.len() implies ord_after[k] == ord0[k] by {
                    assert(ord_after.take(ord_before.len() as int)[k] == ord_before[k]);
                    assert(ord_before.take(ord0.len() as int)[k] == ord0[k]);
                }
            }
        }
        i += 1;
    }
    let ghost ord2 = names(order@);
    let ghost pre_pop = path@;
    path.pop();
    let ghost ord_pre = order@;
    order.push(node);
    proof {
        lemma_names_drop_last(pre_pop);
        assert(names(path@) =~= pth0);
        lemma_names_push(ord_pre, node);
        let ord3 = names(order@);
        assert(ord3 == ord2.push(node@));
        let seen2 = seen_set(ord2, pth1);
        let seen3 = seen_set(ord3, pth0);
        assert(seen3 =~= seen2) by {
            lemma_to_set_push(pth0, node@);
            assert(pth1.to_set().contains(node@));
            assert forall|a: Seq<char>| seen2.contains(a) implies seen3.contains(a) by {
                if pth1.to_set().contains(a) {
                    let k = choose|k: int| 0 <= k < pth1.len() && pth1[k] == a;
                    if k < pth0.len() {
                        assert(pth0[k] == a);
                    } else {
                        assert(ord3[ord2.len() as int] == a);
                    }
                } else {
                    let k = choose|k: int| 0 <= k < ord2.len() && ord2[k] == a;
                    assert(ord3[k] == a);
                }
            }
            assert forall|a: Seq<char>| seen3.contains(a) implies seen2.contains(a) by {
                if ord3.to_set().contains(a) {
                    let k = choose|k: int| 0 <= k < ord3.len() && ord3[k] == a;
                    if k < ord2.len() {
                        assert(ord2[k] == a);
                    } else {
                        assert(pth1[pth0.len() as int] == a);
                    }
                } else {
                    let k = choose|k: int| 0 <= k < pth0.len() && pth0[k] == a;
                    assert(pth1[k] == a);
                }
            }
        }
        // node was on the path, so it is not among the finished nodes
        assert(!ord2.contains(node@)) by {
            if ord2.contains(node@) {
                let k = choose|k: int| 0 <= k < ord2.len() && ord2[k] == node@;
                assert(ord2[k] != pth1[pth0.len() as int]);
            }
        }
        assert forall|i: int, j: int|
            0 <= i < ord3.len() && 0 <= j < ord3.len() && i != j implies ord3[i] != ord3[j] by {
            if i == ord2.len() {
                assert(ord3[j] == ord2[j]);
            } else if j == ord2.len() {
                assert(ord3[i] == ord2[i]);
            }
        }
        assert forall|i: int, j: int|
            0 <= i < ord3.len() && 0 <= j < pth0.len() implies #[trigger] ord3[i] != #[trigger] pth0[j] by {
            assert(pth1[j] == pth0[j]);
            if i == ord2.len() {
                assert(pth1[pth0.len() as int] == node@);
            } else {
                assert(ord2[i] != pth1[j]);
            }
        }
        assert forall|i: int| 0 <= i < ord3.len() implies #[trigger] u.contains(ord3[i]) by {
            if i < ord2.len() {
                assert(u.contains(ord2[i]));
            }
        }
        assert forall|i: int, j: int|
            0 <= i < ord3.len() && 0 <= j < g(ord3[i]).len() implies #[trigger] ord3.take(
                i,
            ).contains(g(ord3[i])[j]) by {
            if i < ord2.len() {
                assert(ord3.take(i) =~= ord2.take(i));
                assert(ord2.take(i).contains(g(ord2[i])[j]));
            } else {
                assert(ord3.take(i) =~= ord2);
                assert(ord2.contains(g(node@)[j]));
            }
        }
        // the walk along the path, then to node, reaches node
        let w = pth1;
        assert forall|k: int| 0 <= k < w.len() implies #[trigger] seen3.contains(w[k]) by {
            assert(pth1.to_set().contains(w[k]));
        }
        if pth0.len() == 0 {
            assert(w[0] == node@);
        } else {
            assert(w[0] == pth0[0]);
        }
        assert forall|k: int| 0 <= k < w.len() - 1 implies #[trigger] g(w[k]).contains(w[k + 1]) by {
            if k + 1 < pth0.len() {
                assert(g(pth0[k]).contains(pth0[k + 1]));
            } else {
                assert(pth0.last() == w[k]);
            }
        }
        assert(walk_in(w, roots, node@, g, seen3));
        assert forall|i: int| 0 <= i < ord3.len() implies #[trigger] reaches_in(
            roots,
            ord3[i],
            g,
            seen3,
        ) by {
            if i < ord2.len() {
                assert(reaches_in(roots, ord2[i], g, seen2));
            } else {
                assert(ord3[i] == node@);
            }
        }
        assert(search_inv(f, ord3, pth0, g, u, roots));
        assert(ord3.take(ord0.len() as int) =~= ord0) by {
            assert forall|k: int| 0 <= k < ord0.len() implies ord3[k] == ord0[k] by {
                assert(ord2.take(ord0.len() as int)[k] == ord0[k]);
            }
        }
        assert(ord3[ord2.len() as int] == node@);
        assert forall|h: DepGraph, n: nat|
            computes(f, h) && n + pth0.len() >= u.len() implies #[trigger] visit(h, n, node@, ord0, pth0)
            == Ok::<Seq<Seq<char>>, Seq<Seq<char>>>(ord3) by {
            let m = (n - 1) as nat;
            assert(h(node@) == names(deps@));
            assert(visit_deps(h, m, node@, 0, ord0, pth1) == visit_deps(h, m, node@, i as nat, ord2, pth1));
        }
    }
    Ok(())
}

/// `ord`, then the entries of `s` not met before, in the order of `s`.
pub open spec fn append_new(ord: Seq<Seq<char>>, s: Seq<Seq<char>>) -> Seq<Seq<char>>
    decreases s.len(),
{
    if s.len() == 0 {
        ord
    } else {
        append_new(if ord.contains(s[0]) { ord } else { ord.push(s[0]) }, s.drop_first())
    }
}

proof fn lemma_visit_roots_no_edges(g: DepGraph, n: nat, roots: Seq<Seq<char>>, i: nat, ord: Seq<Seq<char>>)
    requires
        n >= 1,
        i <= roots.len(),
        forall|a: Seq<char>| #[trigger] g(a).len() == 0,
    ensures
        visit_roots(g, n, roots, i, ord) == Ok::<Seq<Seq<char>>, Seq<Seq<char>>>(append_new(ord, roots.skip(i as int))),
    decreases roots.len() - i,
{
    if i < roots.len() {
        let node = roots[i as int];
        let next = if ord.contains(node) { ord } else { ord.push(node) };
        assert(Seq::<Seq<char>>::empty().index_of_first(node) is None) by {
            Seq::<Seq<char>>::empty().index_of_first_ensures(node);
        }
        assert(g(node).len() == 0);
        assert(visit(g, n, node, ord, Seq::empty()) == Ok::<Seq<Seq<char>>, Seq<Seq<char>>>(next));
        lemma_visit_roots_no_edges(g, n, roots, i + 1, next);
        assert(roots.skip(i as int)[0] == node);
        assert(roots.skip(i as int).drop_first() =~= roots.skip(i + 1int));
    } else {
        assert(roots.skip(i as int) =~= Seq::<Seq<char>>::empty());
    }
}

/// With no dependencies anywhere, the search gives the nodes themselves,
/// each once, in the order first met.
pub proof fn lemma_no_edges_keeps_input_order(g: DepGraph, n: nat, roots: Seq<Seq<char>>)
    requires
        n >= 1,
        forall|a: Seq<char>| #[trigger] g(a).len() == 0,
    ensures
        dfs_outcome(g, n, roots) == Ok::<Seq<Seq<char>>, Seq<Seq<char>>>(append_new(Seq::empty(), roots)),
{
    lemma_visit_roots_no_edges(g, n, roots, 0, Seq::empty());
    assert(roots.skip(0) =~= roots);
}

/// From depth bound `b` on, the depth-first search from `roots` gives `out`.
pub open spec fn settles_at(g: DepGraph, roots: Seq<Seq<char>>, b: nat, out: Result<Seq<Seq<char>>, Seq<Seq<char>>>) -> bool {
    forall|n: nat| n >= b ==> #[trigger] dfs_outcome(g, n, roots) == out
}

/// Where nothing depends on anything, the sort gives its input with each
/// node kept once, at its first place: whatever the search settles on is
/// that.
pub proof fn lemma_sort_without_dependencies(
    g: DepGraph,
    roots: Seq<Seq<char>>,
    b: nat,
    out: Result<Seq<Seq<char>>, Seq<Seq<char>>>,
)
    requires
        forall|a: Seq<char>| #[trigger] g(a).len() == 0,
        settles_at(g, roots, b, out),
    ensures
        out == Ok::<Seq<Seq<char>>, Seq<Seq<char>>>(append_new(Seq::empty(), roots)),
{
    let n: nat = if b >= 1 { b } else { 1 };
    assert(dfs_outcome(g, n, roots) == out);
    lemma_no_edges_keeps_input_order(g, n, roots);
}

/// Orders `nodes` and everything they depend on, directly or not, so that
/// each node comes after its dependencies, visiting the nodes in the order
/// given and each node's dependencies in the order `get_dependencies` lists
/// them. Fails with the first cycle met, closed by its first node.
pub fn topological_sort<F: Fn(&String) -> Vec<String>>(
    nodes: Vec<String>,
    get_dependencies: F,
) -> (res: Result<Vec<String>, TopologicalSortError<String>>)
    requires
        forall|n: &String| call_requires(get_dependencies, (n,)),
        exists|g: DepGraph| computes(get_dependencies, g) && finitely_reachable(names(nodes@), g),
    ensures
        forall|g: DepGraph| #[trigger]
            computes(get_dependencies, g) ==> match res {
                Ok(order) => is_topological_order(names(order@), names(nodes@), g),
                Err(TopologicalSortError::DependencyCycle { cycle }) => {
                    &&& is_cycle(names(cycle@), g)
                    &&& reaches(names(nodes@), names(cycle@)[0], g)
                },
            },
        forall|g: DepGraph| #[trigger]
            computes(get_dependencies, g) ==> (res is Ok <==> !has_reachable_cycle(names(nodes@), g)),
        forall|g: DepGraph| #[trigger]
            computes(get_dependencies, g) ==> exists|b: nat| #[trigger] settles_at(g, names(nodes@), b, sort_outcome(res)),
{
    let ghost g = choose|g: DepGraph|
        computes(get_dependencies, g) && finitely_reachable(names(nodes@), g);
    let ghost roots = names(nodes@);
    let ghost u = choose|u: Set<Seq<char>>|
        u.finite() && closed_under(u, g) && forall|i: int|
            0 <= i < roots.len() ==> #[trigger] u.contains(roots[i]);
    let mut order: Vec<String> = Vec::new();
    let mut path: Vec<String> = Vec::new();
    proof {
        assert(names(order@) =~= Seq::<Seq<char>>::empty());
        assert(names(path@) =~= Seq::<Seq<char>>::empty());
        let e = Seq::<Seq<char>>::empty();
        assert(seen_set(e, e) =~= Set::<Seq<char>>::empty());
        assert forall|h: DepGraph| #[trigger] computes(get_dependencies, h) implies forall|
            a: Seq<char>,
        | #[trigger] seen_set(e, e).contains(a) ==> h(a) == g(a) by {}
        assert(search_inv(get_dependencies, e, e, g, u, roots));
    }
    let mut i: usize = 0;
    while i < nodes.len()
        invariant
            forall|n: &String| call_requires(get_dependencies, (n,)),
            computes(get_dependencies, g),
            u.finite(),
            closed_under(u, g),
            roots == names(nodes@),
            forall|k: int| 0 <= k < roots.len() ==> #[trigger] u.contains(roots[k]),
            i <= nodes@.len(),
            names(path@) == Seq::<Seq<char>>::empty(),
            search_inv(get_dependencies, names(order@), names(path@), g, u, roots),
            forall|k: int| 0 <= k < i ==> #[trigger] names(order@).contains(roots[k]),
            forall|h: DepGraph, n: nat|
                computes(get_dependencies, h) && n >= u.len() ==> #[trigger] visit_roots(h, n, roots, 0, Seq::empty())
                    == visit_roots(h, n, roots, i as nat, names(order@)),
        decreases nodes@.len() - i,
    {
        let node = nodes[i].clone();
        let ghost ord_before = names(order@);
        proof {
            assert(roots[i as int] == node@);
        }
        if position_of(&order, &node).is_none() {
            proof {
                assert(u.contains(roots[i as int]));
                assert(roots.contains(node@));
            }
            match dfs(node, &get_dependencies, &mut order, &mut path, Ghost(g), Ghost(u), Ghost(roots)) {
                Ok(()) => {},
                Err(e) => {
                    proof {
                        let out = sort_outcome(Err(e));
                        assert(visit_outcome(Err(e), names(order@)) == out);
                        assert forall|h: DepGraph| #[trigger] computes(get_dependencies, h) implies exists|b: nat| #[trigger]
                            settles_at(h, roots, b, out) by {
                            assert forall|n: nat| n >= u.len() implies #[trigger] dfs_outcome(h, n, roots) == out by {
                                assert(visit(h, n, roots[i as int], ord_before, Seq::empty()) == out);
                                assert(visit_roots(h, n, roots, i as nat, ord_before) == out);
                            }
                            assert(settles_at(h, roots, u.len(), out));
                        }
                        let TopologicalSortError::DependencyCycle { cycle } = e;
                        let c = names(cycle@);
                        let s = seen_set(names(order@), names(path@));
                        assert forall|h: DepGraph| #[trigger] computes(get_dependencies, h) implies {
                            &&& is_cycle(c, h)
                            &&& reaches(roots, c[0], h)
                        } by {
                            lemma_reaches_transfer(get_dependencies, roots, c[0], g, h, s);
                            assert forall|k: int| 0 <= k < c.len() - 1 implies #[trigger] h(
                                c[k],
                            ).contains(c[k + 1]) by {
                                assert(s.contains(c[k]));
                                assert(g(c[k]).contains(c[k + 1]));
                            }
                        }
                    }
                    return Err(e);
                },
            }
        } else {
            proof {
                let k = choose|k: int| 0 <= k < order@.len() && order@[k]@ == node@;
                lemma_names_index(order@, k);
            }
        }
        proof {
            let ord_after = names(order@);
            assert forall|h: DepGraph, n: nat|
                computes(get_dependencies, h) && n >= u.len() implies #[trigger] visit_roots(h, n, roots, 0, Seq::empty())
                == visit_roots(h, n, roots, (i + 1) as nat, ord_after) by {
                if ord_before.contains(roots[i as int]) {
                    assert(ord_after == ord_before);
                }
                assert(visit(h, n, roots[i as int], ord_before, Seq::empty()) == Ok::<Seq<Seq<char>>, Seq<Seq<char>>>(
                    ord_after,
                ));
            }
            assert forall|k: int| 0 <= k < i + 1 implies #[trigger] ord_after.contains(roots[k]) by {
                if k < i {
                    assert(ord_before.contains(roots[k]));
                    if ord_after != ord_before {
                        lemma_prefix_contains(ord_after, ord_before, roots[k]);
                    }
                }
            }
        }
        i += 1;
    }
    proof {
        let ord = names(order@);
        let s = seen_set(ord, names(path@));
        assert forall|h: DepGraph| #[trigger] computes(get_dependencies, h) implies is_topological_order(
            ord,
            roots,
            h,
        ) && !has_reachable_cycle(roots, h) && exists|b: nat| #[trigger] settles_at(
            h,
            roots,
            b,
            Ok::<Seq<Seq<char>>, Seq<Seq<char>>>(ord),
        ) by {
            assert forall|k: int| 0 <= k < ord.len() implies #[trigger] reaches(roots, ord[k], h) by {
                lemma_reaches_transfer(get_dependencies, roots, ord[k], g, h, s);
            }
            assert forall|k: int, j: int|
                0 <= k < ord.len() && 0 <= j < h(ord[k]).len() implies #[trigger] ord.take(
                    k,
                ).contains(h(ord[k])[j]) by {
                assert(ord.to_set().contains(ord[k]));
                assert(s.contains(ord[k]));
                assert(h(ord[k]) == g(ord[k]));
            }
            assert(is_topological_order(ord, roots, h));
            let out = Ok::<Seq<Seq<char>>, Seq<Seq<char>>>(ord);
            assert forall|n: nat| n >= u.len() implies #[trigger] dfs_outcome(h, n, roots) == out by {
                assert(visit_roots(h, n, roots, i as nat, ord) == out);
            }
            assert(settles_at(h, roots, u.len(), out));
            assert forall|c: Seq<Seq<char>>| !(#[trigger] is_cycle(c, h) && reaches(roots, c[0], h)) by {
                if is_cycle(c, h) && reaches(roots, c[0], h) {
                    lemma_cycle_excludes_order(ord, roots, h, c);
                }
            }
        }
    }
    Ok(order)
}

/// A dependency of the node at position `i` of a topological order is
/// listed before it.
proof fn lemma_dep_listed_before(order: Seq<Seq<char>>, roots: Seq<Seq<char>>, g: DepGraph, i: int, b: Seq<char>) -> (k: int)
    requires
        is_topological_order(order, roots, g),
        0 <= i < order.len(),
        g(order[i]).contains(b),
    ensures
        0 <= k < i,
        order[k] == b,
{
    let j = choose|j: int| 0 <= j < g(order[i]).len() && #[trigger] g(order[i])[j] == b;
    assert(order.take(i).contains(g(order[i])[j]));
    let k = choose|k: int| 0 <= k < order.take(i).len() && #[trigger] order.take(i)[k] == b;
    k
}

/// Every node of a walk from one of the roots is listed in a topological
/// order of them.
proof fn lemma_walk_listed(order: Seq<Seq<char>>, roots: Seq<Seq<char>>, g: DepGraph, w: Seq<Seq<char>>, n: int) -> (k: int)
    requires
        is_topological_order(order, roots, g),
        w.len() >= 1,
        roots.contains(w[0]),
        is_walk(w, g),
        0 <= n < w.len(),
    ensures
        0 <= k < order.len(),
        order[k] == w[n],
    decreases n,
{
    if n == 0 {
        let r = choose|r: int| 0 <= r < roots.len() && #[trigger] roots[r] == w[0];
        assert(order.contains(roots[r]));
        choose|k: int| 0 <= k < order.len() && #[trigger] order[k] == w[0]
    } else {
        let p = lemma_walk_listed(order, roots, g, w, n - 1);
        let i = n - 1;
        assert(g(w[i]).contains(w[i + 1]));
        lemma_dep_listed_before(order, roots, g, p, w[n])
    }
}

/// Going `k` steps along a cycle from the node at position `p0` of a
/// topological order lands at least `k` positions earlier.
proof fn lemma_cycle_descends(order: Seq<Seq<char>>, roots: Seq<Seq<char>>, g: DepGraph, c: Seq<Seq<char>>, p0: int, k: int) -> (p: int)
    requires
        is_topological_order(order, roots, g),
        is_cycle(c, g),
        0 <= p0 < order.len(),
        order[p0] == c[0],
        0 <= k < c.len(),
    ensures
        0 <= p < order.len(),
        order[p] == c[k],
        p <= p0 - k,
    decreases k,
{
    if k == 0 {
        p0
    } else {
        let q = lemma_cycle_descends(order, roots, g, c, p0, k - 1);
        let i = k - 1;
        assert(g(c[i]).contains(c[i + 1]));
        lemma_dep_listed_before(order, roots, g, q, c[k])
    }
}

/// A cycle reachable from the roots leaves them no topological order: the
/// two outcomes of ordering a dependency graph exclude each other.
pub proof fn lemma_cycle_excludes_order(order: Seq<Seq<char>>, roots: Seq<Seq<char>>, g: DepGraph, c: Seq<Seq<char>>)
    requires
        is_cycle(c, g),
        reaches(roots, c[0], g),
    ensures
        !is_topological_order(order, roots, g),
{
    if is_topological_order(order, roots, g) {
        let w = choose|w: Seq<Seq<char>>| #[trigger] is_walk_to(w, roots, c[0], g);
        let p0 = lemma_walk_listed(order, roots, g, w, w.len() - 1);
        let p = lemma_cycle_descends(order, roots, g, c, p0, c.len() - 1);
        assert(order[p] == order[p0]);
        assert(p < p0);
    }
}

} // verus!
