use vstd::prelude::*;

use crate::config::TaskMap;
use crate::store::Store;
use crate::text::chars_of;
use crate::utils::{is_topological_order, names};

verus! {

/// The execution flow graph pane.
pub struct FlowGraph<'a> {
    pub store: &'a Store<'a>,
}

/// The bytes `c` takes in UTF-8.
pub open spec fn utf8_width(c: char) -> nat {
    if (c as u32) < 0x80 {
        1
    } else if (c as u32) < 0x800 {
        2
    } else if (c as u32) < 0x10000 {
        3
    } else {
        4
    }
}

/// The bytes `s` takes in UTF-8.
pub open spec fn utf8_len(s: Seq<char>) -> nat
    decreases s.len(),
{
    if s.len() == 0 {
        0
    } else {
        utf8_len(s.drop_last()) + utf8_width(s.last())
    }
}

/// The level recorded for `d` among the first `j` names: that of the last
/// of them named `d` that got one, else 0.
pub open spec fn recorded_level(order: Seq<Seq<char>>, levels: Seq<Option<nat>>, d: Seq<char>, j: nat) -> nat
    decreases j,
{
    if j == 0 || j > levels.len() || j > order.len() {
        0
    } else if order[j - 1] == d && levels[j - 1] is Some {
        levels[j - 1]->0
    } else {
        recorded_level(order, levels, d, (j - 1) as nat)
    }
}

/// The highest recorded level among the first `k` dependencies `deps`.
pub open spec fn max_recorded(order: Seq<Seq<char>>, levels: Seq<Option<nat>>, deps: Seq<Seq<char>>, k: nat) -> nat
    decreases k,
{
    if k == 0 || k > deps.len() {
        0
    } else {
        let a = max_recorded(order, levels, deps, (k - 1) as nat);
        let b = recorded_level(order, levels, deps[k - 1], levels.len());
        if b > a { b } else { a }
    }
}

/// The columns of the first `n` names of `order`: a name that is not a task
/// gets none; a task with no dependencies is in column 0; any other task is
/// one column right of the furthest of its dependencies met before it.
pub open spec fn levels_upto(m: TaskMap, order: Seq<Seq<char>>, n: nat) -> Seq<Option<nat>>
    decreases n,
{
    if n == 0 || n > order.len() {
        Seq::empty()
    } else {
        let prior = levels_upto(m, order, (n - 1) as nat);
        let a = order[n - 1];
        let lv: Option<nat> = if !m.key_seq().contains(a) {
            None
        } else if m.dep_graph()(a).len() == 0 {
            Some(0)
        } else {
            Some(max_recorded(order, prior, m.dep_graph()(a), m.dep_graph()(a).len()) + 1)
        };
        prior.push(lv)
    }
}

/// The highest column of the first `n` entries of `levels`, 0 if none.
pub open spec fn max_level_of(levels: Seq<Option<nat>>, n: nat) -> nat
    decreases n,
{
    if n == 0 || n > levels.len() {
        0
    } else {
        let a = max_level_of(levels, (n - 1) as nat);
        match levels[n - 1] {
            Some(l) => if l > a { l } else { a },
            None => a,
        }
    }
}

/// The names of column `c`, in order.
pub open spec fn column_spec(order: Seq<Seq<char>>, levels: Seq<Option<nat>>, c: nat, n: nat) -> Seq<Seq<char>>
    decreases n,
{
    if n == 0 || n > levels.len() || n > order.len() {
        Seq::empty()
    } else {
        let prior = column_spec(order, levels, c, (n - 1) as nat);
        if levels[n - 1] == Some(c) { prior.push(order[n - 1]) } else { prior }
    }
}

/// The width of a column: its widest name in brackets, 0 if it is empty.
pub open spec fn column_width(col: Seq<Seq<char>>, n: nat) -> nat
    decreases n,
{
    if n == 0 || n > col.len() {
        0
    } else {
        let a = column_width(col, (n - 1) as nat);
        let w = utf8_len(col[n - 1]) + 2;
        if w > a { w } else { a }
    }
}

/// Which node of a column of `k` nodes stands in row `r` of the three rows:
/// one node sits in the middle row; two take the top and bottom rows; with
/// three or more, node `i` goes to row `2i/(k-1)`, a later node over an
/// earlier one.
pub open spec fn node_in_row(k: nat, r: nat) -> Option<nat> {
    if k == 1 {
        if r == 1 { Some(0) } else { None }
    } else if k == 2 {
        if r == 0 { Some(0) } else if r == 2 { Some(1) } else { None }
    } else if k >= 3 {
        if r == 0 {
            Some(((k - 2) / 2) as nat)
        } else if r == 1 {
            Some((k - 2) as nat)
        } else if r == 2 {
            Some((k - 1) as nat)
        } else {
            None
        }
    } else {
        None
    }
}

/// The arrow drawn in row `r` between a column of `k1` nodes and the next
/// one, of `k2` nodes.
pub open spec fn connector_spec(k1: nat, k2: nat, r: nat) -> Seq<char> {
    if k1 == 1 && k2 == 1 {
        if r == 1 { " ──► "@ } else { "        "@ }
    } else if k1 > 1 && k2 == 1 {
        if r == 0 {
            " ─┐   "@
        } else if r == 1 {
            "  ├► "@
        } else if r == 2 {
            " ─┘   "@
        } else {
            "        "@
        }
    } else if k1 == 1 && k2 > 1 {
        if r == 0 {
            "  ┌► "@
        } else if r == 1 {
            "  ─┤   "@
        } else if r == 2 {
            "  └► "@
        } else {
            "        "@
        }
    } else {
        " ──► "@
    }
}

/// A piece of a row of the graph.
#[derive(Debug, PartialEq, Eq)]
pub enum FlowPiece {
    /// A task's name, drawn in brackets in its status's colour, then `pad` spaces.
    Node { name: String, pad: usize },
    /// An empty cell `width` spaces wide.
    Blank { width: usize },
    /// An arrow between two columns.
    Connector(&'static str),
}

/// Names and counts small enough that no width or column overflows.
pub open spec fn within_limits(order: Seq<Seq<char>>) -> bool {
    &&& order.len() <= usize::MAX / 8
    &&& forall|i: int| 0 <= i < order.len() ==> (#[trigger] order[i]).len() <= usize::MAX / 8
}

/// The bytes `s` takes in UTF-8.
pub fn utf8_len_of(s: &str) -> (n: usize)
    requires
        s@.len() <= usize::MAX / 8,
    ensures
        n == utf8_len(s@),
        n <= 4 * s@.len(),
{
    let cs = chars_of(s);
    let mut n: usize = 0;
    let mut i: usize = 0;
    while i < cs.len()
        invariant
            cs@ == s@,
            s@.len() <= usize::MAX / 8,
            i <= cs@.len(),
            n == utf8_len(cs@.take(i as int)),
            n <= 4 * i,
        decreases cs@.len() - i,
    {
        let c = cs[i];
        let w: usize = if (c as u32) < 0x80 {
            1
        } else if (c as u32) < 0x800 {
            2
        } else if (c as u32) < 0x10000 {
            3
        } else {
            4
        };
        proof {
            assert(cs@.take(i + 1).drop_last() =~= cs@.take(i as int));
            assert(cs@.take(i + 1).last() == c);
        }
        n = n + w;
        i += 1;
    }
    proof {
        assert(cs@.take(cs@.len() as int) =~= cs@);
    }
    n
}

proof fn lemma_recorded_bound(order: Seq<Seq<char>>, levels: Seq<Option<nat>>, d: Seq<char>, j: nat)
    requires
        forall|k: int| 0 <= k < levels.len() ==> (#[trigger] levels[k] matches Some(l) ==> l <= k + 1),
    ensures
        recorded_level(order, levels, d, j) <= j,
    decreases j,
{
    if j > 0 && j <= levels.len() && j <= order.len() {
        lemma_recorded_bound(order, levels, d, (j - 1) as nat);
    }
}

proof fn lemma_max_recorded_bound(order: Seq<Seq<char>>, levels: Seq<Option<nat>>, deps: Seq<Seq<char>>, k: nat)
    requires
        forall|q: int| 0 <= q < levels.len() ==> (#[trigger] levels[q] matches Some(l) ==> l <= q + 1),
    ensures
        max_recorded(order, levels, deps, k) <= levels.len(),
    decreases k,
{
    if k > 0 && k <= deps.len() {
        lemma_max_recorded_bound(order, levels, deps, (k - 1) as nat);
        lemma_recorded_bound(order, levels, deps[k - 1], levels.len());
    }
}

/// The levels as mathematical values.
pub open spec fn level_views(v: Seq<Option<usize>>) -> Seq<Option<nat>> {
    v.map_values(|o: Option<usize>| match o {
        Some(l) => Some(l as nat),
        None => None,
    })
}

/// The column of each name of `order`, as `levels_upto` gives it.
pub fn compute_levels(m: &TaskMap, order: &[String]) -> (r: Vec<Option<usize>>)
    requires
        order@.len() <= usize::MAX / 8,
    ensures
        level_views(r@) == levels_upto(*m, names(order@), order@.len() as nat),
        r@.len() == order@.len(),
        forall|k: int| 0 <= k < r@.len() ==> (#[trigger] r@[k] matches Some(l) ==> l <= k + 1),
{
    let ghost o = names(order@);
    let mut levels: Vec<Option<usize>> = Vec::new();
    let mut i: usize = 0;
    while i < order.len()
        invariant
            o == names(order@),
            order@.len() <= usize::MAX / 8,
            i <= order@.len(),
            levels@.len() == i,
            level_views(levels@) == levels_upto(*m, o, i as nat),
            forall|k: int| 0 <= k < levels@.len() ==> (#[trigger] levels@[k] matches Some(l) ==> l <= k + 1),
        decreases order@.len() - i,
    {
        let name = order[i].as_str();
        let ghost prior = level_views(levels@);
        let ghost a = o[i as int];
        proof {
            assert(a == name@);
            assert forall|k: int| 0 <= k < prior.len() implies (#[trigger] prior[k] matches Some(l) ==> l <= k + 1) by {
                assert(prior[k] == match levels@[k] { Some(l) => Some(l as nat), None => None::<nat> });
            }
        }
        let lv: Option<usize> = if !m.contains_key(name) {
            None
        } else {
            let deps = m.deps_of(name);
            if deps.len() == 0 {
                Some(0)
            } else {
                // the furthest column among the dependencies met so far
                let mut best: usize = 0;
                let mut q: usize = 0;
                while q < deps.len()
                    invariant
                        q <= deps@.len(),
                        names(deps@) == m.dep_graph()(a),
                        prior == level_views(levels@),
                        prior.len() == i,
                        i <= usize::MAX / 8,
                        i < order@.len(),
                        o == names(order@),
                        forall|k: int| 0 <= k < prior.len() ==> (#[trigger] prior[k] matches Some(l) ==> l <= k + 1),
                        best == max_recorded(o, prior, m.dep_graph()(a), q as nat),
                        best <= i,
                    decreases deps@.len() - q,
                {
                    // the level recorded for this dependency: the last earlier name equal to it
                    let dep = deps[q].as_str();
                    let mut found: usize = 0;
                    let mut j: usize = i;
                    proof {
                        assert(names(deps@)[q as int] == dep@);
                    }
                    while j > 0
                        invariant_except_break
                            found == 0,
                        invariant
                            j <= i,
                            prior == level_views(levels@),
                            prior.len() == i,
                            o == names(order@),
                            i <= order@.len(),
                            recorded_level(o, prior, dep@, i as nat) == recorded_level(o, prior, dep@, j as nat),
                        ensures
                            found == recorded_level(o, prior, dep@, i as nat),
                        decreases j,
                    {
                        let hit = crate::text::str_eq(order[j - 1].as_str(), dep);
                        if hit {
                            match levels[j - 1] {
                                Some(l) => {
                                    found = l;
                                    proof {
                                        assert(o[j - 1] == dep@);
                                        assert(prior[j - 1] == Some(l as nat));
                                    }
                                    break;
                                },
                                None => {},
                            }
                        }
                        proof {
                            assert(o[j - 1] == order@[j - 1]@);
                            if hit {
                                assert(prior[j - 1] is None);
                            }
                        }
                        j -= 1;
                    }
                    proof {
                        lemma_recorded_bound(o, prior, dep@, i as nat);
                        assert(m.dep_graph()(a)[q as int] == dep@);
                    }
                    if found > best {
                        best = found;
                    }
                    q += 1;
                }
                Some(best + 1)
            }
        };
        levels.push(lv);
        proof {
            assert(level_views(levels@) =~= prior.push(match lv { Some(l) => Some(l as nat), None => None }));
        }
        i += 1;
    }
    levels
}

/// The columns of the graph, left to right, and the width of each.
pub struct FlowLayout {
    pub columns: Vec<Vec<String>>,
    pub widths: Vec<usize>,
}

/// `v` as mathematical values.
pub open spec fn nat_views(v: Seq<usize>) -> Seq<nat> {
    v.map_values(|x: usize| x as nat)
}

/// The arrow in row `r` between columns of `k1` and `k2` nodes.
pub fn connector(k1: usize, k2: usize, r: usize) -> (t: &'static str)
    ensures
        t@ == connector_spec(k1 as nat, k2 as nat, r as nat),
{
    if k1 == 1 && k2 == 1 {
        if r == 1 { " ──► " } else { "        " }
    } else if k1 > 1 && k2 == 1 {
        if r == 0 {
            " ─┐   "
        } else if r == 1 {
            "  ├► "
        } else if r == 2 {
            " ─┘   "
        } else {
            "        "
        }
    } else if k1 == 1 && k2 > 1 {
        if r == 0 {
            "  ┌► "
        } else if r == 1 {
            "  ─┤   "
        } else if r == 2 {
            "  └► "
        } else {
            "        "
        }
    } else {
        " ──► "
    }
}

/// Which node of a column of `k` stands in row `r`.
pub fn pick_node(k: usize, r: usize) -> (p: Option<usize>)
    ensures
        match p {
            Some(i) => node_in_row(k as nat, r as nat) == Some(i as nat) && i < k,
            None => node_in_row(k as nat, r as nat) is None,
        },
{
    if k == 1 {
        if r == 1 { Some(0) } else { None }
    } else if k == 2 {
        if r == 0 { Some(0) } else if r == 2 { Some(1) } else { None }
    } else if k >= 3 {
        if r == 0 {
            Some((k - 2) / 2)
        } else if r == 1 {
            Some(k - 2)
        } else if r == 2 {
            Some(k - 1)
        } else {
            None
        }
    } else {
        None
    }
}

/// The columns of the tasks of `order` and the width of each column.
pub fn flow_layout(m: &TaskMap, order: &[String]) -> (r: FlowLayout)
    requires
        within_limits(names(order@)),
    ensures
        ({
            let o = names(order@);
            let lv = levels_upto(*m, o, o.len());
            let mx = max_level_of(lv, lv.len());
            &&& r.columns@.len() == mx + 1
            &&& r.columns@.len() <= o.len() + 1
            &&& r.widths@.len() == mx + 1
            &&& forall|c: int| 0 <= c <= mx ==> names((#[trigger] r.columns@[c])@) == column_spec(o, lv, c as nat, lv.len())
            &&& forall|c: int| 0 <= c <= mx ==> (#[trigger] r.widths@[c]) as nat == column_width(
                column_spec(o, lv, c as nat, lv.len()),
                column_spec(o, lv, c as nat, lv.len()).len(),
            )
        }),
        forall|k: int|
            0 <= k < order@.len() ==> (#[trigger] levels_upto(*m, names(order@), order@.len() as nat)[k] matches Some(
                l,
            ) ==> l < r.columns@.len() && names(r.columns@[l as int]@).contains(order@[k]@)),
{
    let ghost o = names(order@);
    let levels = compute_levels(m, order);
    let ghost lv = level_views(levels@);
    let n = levels.len();
    // the highest column
    let mut max_level: usize = 0;
    let mut i: usize = 0;
    while i < n
        invariant
            n == levels@.len(),
            lv == level_views(levels@),
            lv.len() == n,
            n <= usize::MAX / 8,
            i <= n,
            max_level as nat == max_level_of(lv, i as nat),
            max_level <= i,
            forall|k: int| 0 <= k < levels@.len() ==> (#[trigger] levels@[k] matches Some(l) ==> l <= k + 1),
        decreases n - i,
    {
        proof {
            assert(lv[i as int] == match levels@[i as int] { Some(l) => Some(l as nat), None => None::<nat> });
        }
        match levels[i] {
            Some(l) => {
                if l > max_level {
                    max_level = l;
                }
            },
            None => {},
        }
        i += 1;
    }
    let mut columns: Vec<Vec<String>> = Vec::new();
    let mut widths: Vec<usize> = Vec::new();
    let mut c: usize = 0;
    while c <= max_level
        invariant
            n == levels@.len(),
            lv == level_views(levels@),
            lv == levels_upto(*m, o, o.len()),
            o == names(order@),
            within_limits(o),
            lv.len() == n,
            n == o.len(),
            max_level as nat == max_level_of(lv, n as nat),
            max_level <= n,
            n <= usize::MAX / 8,
            c <= max_level + 1,
            columns@.len() == c,
            widths@.len() == c,
            forall|q: int| 0 <= q < c ==> names((#[trigger] columns@[q])@) == column_spec(o, lv, q as nat, n as nat),
            forall|q: int| 0 <= q < c ==> (#[trigger] widths@[q]) as nat == column_width(
                column_spec(o, lv, q as nat, n as nat),
                column_spec(o, lv, q as nat, n as nat).len(),
            ),
        decreases max_level + 1 - c,
    {
        let mut col: Vec<String> = Vec::new();
        let mut k: usize = 0;
        while k < n
            invariant
                n == levels@.len(),
                lv == level_views(levels@),
                lv.len() == n,
                n == o.len(),
                o == names(order@),
                k <= n,
                names(col@) == column_spec(o, lv, c as nat, k as nat),
                col@.len() <= k,
                forall|x: int| 0 <= x < names(col@).len() ==> o.contains(#[trigger] names(col@)[x]),
            decreases n - k,
        {
            proof {
                assert(lv[k as int] == match levels@[k as int] { Some(l) => Some(l as nat), None => None::<nat> });
            }
            let hit = match levels[k] {
                Some(l) => l == c,
                None => false,
            };
            if hit {
                let ghost c0 = col@;
                col.push(order[k].clone());
                proof {
                    crate::utils::lemma_names_push(c0, col@.last());
                    assert(o[k as int] == order@[k as int]@);
                    assert forall|x: int| 0 <= x < names(col@).len() implies o.contains(#[trigger] names(col@)[x]) by {
                        if x < c0.len() {
                            assert(names(col@)[x] == names(c0)[x]);
                        } else {
                            assert(names(col@)[x] == o[k as int]);
                        }
                    }
                }
            }
            k += 1;
        }
        // the widest name of the column, in brackets
        let ghost cs = names(col@);
        let mut width: usize = 0;
        let mut q: usize = 0;
        while q < col.len()
            invariant
                cs == names(col@),
                within_limits(o),
                col@.len() <= n,
                n == o.len(),
                forall|x: int| 0 <= x < cs.len() ==> o.contains(#[trigger] cs[x]),
                q <= col@.len(),
                width as nat == column_width(cs, q as nat),
                width <= usize::MAX / 2 + 2,
            decreases col@.len() - q,
        {
            proof {
                assert(o.contains(cs[q as int]));
                let x = choose|x: int| 0 <= x < o.len() && o[x] == cs[q as int];
                assert(o[x].len() <= usize::MAX / 8);
                assert(cs[q as int] == col@[q as int]@);
            }
            let w = utf8_len_of(col[q].as_str()) + 2;
            if w > width {
                width = w;
            }
            q += 1;
        }
        columns.push(col);
        widths.push(width);
        proof {
            assert(columns@[c as int] == col);
        }
        c += 1;
    }
    proof {
        lemma_every_task_has_a_column(*m, o);
        assert forall|k: int| 0 <= k < order@.len() implies (#[trigger] levels_upto(
            *m,
            names(order@),
            order@.len() as nat,
        )[k] matches Some(l) ==> l < columns@.len() && names(columns@[l as int]@).contains(order@[k]@)) by {
            assert(o[k] == order@[k]@);
        }
    }
    FlowLayout { columns, widths }
}

/// The names of each column.
pub open spec fn column_views(columns: Seq<Vec<String>>) -> Seq<Seq<Seq<char>>> {
    columns.map_values(|v: Vec<String>| names(v@))
}

/// `p` draws row `r` of a column with names `col`, `width` wide.
pub open spec fn cell_ok(p: FlowPiece, col: Seq<Seq<char>>, width: nat, r: nat) -> bool {
    match node_in_row(col.len(), r) {
        Some(i) => p matches FlowPiece::Node { name, pad } && name@ == col[i as int] && pad == (if utf8_len(
            col[i as int],
        ) + 2 < width {
            width - (utf8_len(col[i as int]) + 2)
        } else {
            0
        }),
        None => p matches FlowPiece::Blank { width: w } && w == width,
    }
}

/// `row` is row `r` of the graph: each column's cell, with the arrow to the
/// next column after all but the last.
pub open spec fn row_ok(row: Seq<FlowPiece>, cols: Seq<Seq<Seq<char>>>, widths: Seq<nat>, r: nat) -> bool {
    &&& row.len() == 2 * cols.len() - 1
    &&& forall|c: int| 0 <= c < cols.len() ==> #[trigger] cell_ok(row[2 * c], cols[c], widths[c], r)
    &&& forall|c: int|
        0 <= c < cols.len() - 1 ==> (#[trigger] row[2 * c + 1] matches FlowPiece::Connector(t) && t@
            == connector_spec(cols[c].len(), cols[c + 1].len(), r))
}

/// The three rows of the graph for a layout.
pub fn graph_rows(layout: &FlowLayout) -> (rows: Vec<Vec<FlowPiece>>)
    requires
        layout.columns@.len() >= 1,
        layout.columns@.len() == layout.widths@.len(),
        layout.columns@.len() < usize::MAX / 2,
        forall|c: int, i: int|
            0 <= c < layout.columns@.len() && 0 <= i < layout.columns@[c]@.len() ==> (
            #[trigger] layout.columns@[c]@[i])@.len() <= usize::MAX / 8,
    ensures
        rows@.len() == 3,
        forall|r: int| 0 <= r < 3 ==> row_ok(
            (#[trigger] rows@[r])@,
            column_views(layout.columns@),
            nat_views(layout.widths@),
            r as nat,
        ),
{
    let ghost cols = column_views(layout.columns@);
    let ghost ws = nat_views(layout.widths@);
    let ncol = layout.columns.len();
    let mut rows: Vec<Vec<FlowPiece>> = Vec::new();
    let mut r: usize = 0;
    while r < 3
        invariant
            cols == column_views(layout.columns@),
            ws == nat_views(layout.widths@),
            ncol == layout.columns@.len(),
            ncol >= 1,
            ncol == layout.widths@.len(),
            ncol < usize::MAX / 2,
            forall|c: int, i: int|
                0 <= c < layout.columns@.len() && 0 <= i < layout.columns@[c]@.len() ==> (
                #[trigger] layout.columns@[c]@[i])@.len() <= usize::MAX / 8,
            r <= 3,
            rows@.len() == r,
            forall|q: int| 0 <= q < r ==> row_ok((#[trigger] rows@[q])@, cols, ws, q as nat),
        decreases 3 - r,
    {
        let mut row: Vec<FlowPiece> = Vec::new();
        let mut c: usize = 0;
        while c < ncol
            invariant
                cols == column_views(layout.columns@),
                ws == nat_views(layout.widths@),
                ncol == layout.columns@.len(),
                ncol == layout.widths@.len(),
                ncol < usize::MAX / 2,
                forall|c2: int, i: int|
                    0 <= c2 < layout.columns@.len() && 0 <= i < layout.columns@[c2]@.len() ==> (
                    #[trigger] layout.columns@[c2]@[i])@.len() <= usize::MAX / 8,
                c <= ncol,
                row@.len() == if c == 0 { 0 } else { 2 * c - 1 },
                forall|q: int| 0 <= q < c ==> #[trigger] cell_ok(row@[2 * q], cols[q], ws[q], r as nat),
                forall|q: int|
                    0 <= q < c - 1 ==> (#[trigger] row@[2 * q + 1] matches FlowPiece::Connector(t) && t@
                        == connector_spec(cols[q].len(), cols[q + 1].len(), r as nat)),
            decreases ncol - c,
        {
            let col = &layout.columns[c];
            let width = layout.widths[c];
            proof {
                assert(cols[c as int] == names(col@));
                assert(ws[c as int] == width as nat);
            }
            if c > 0 {
                let prev = &layout.columns[c - 1];
                let t = connector(prev.len(), col.len(), r);
                let ghost row0 = row@;
                row.push(FlowPiece::Connector(t));
                proof {
                    assert(cols[c - 1] == names(prev@));
                    assert forall|q: int| 0 <= q < c implies #[trigger] cell_ok(row@[2 * q], cols[q], ws[q], r as nat) by {
                        assert(row@[2 * q] == row0[2 * q]);
                    }
                    assert forall|q: int|
                        0 <= q < c implies (#[trigger] row@[2 * q + 1] matches FlowPiece::Connector(t) && t@
                            == connector_spec(cols[q].len(), cols[q + 1].len(), r as nat)) by {
                        if q < c - 1 {
                            assert(row@[2 * q + 1] == row0[2 * q + 1]);
                        }
                    }
                }
            }
            let piece = match pick_node(col.len(), r) {
                Some(i) => {
                    let name = col[i].clone();
                    proof {
                        assert(layout.columns@[c as int]@[i as int]@.len() <= usize::MAX / 8);
                    }
                    let w = utf8_len_of(name.as_str()) + 2;
                    let pad = if w < width { width - w } else { 0 };
                    FlowPiece::Node { name, pad }
                },
                None => FlowPiece::Blank { width },
            };
            let ghost row1 = row@;
            row.push(piece);
            proof {
                assert(cell_ok(piece, cols[c as int], ws[c as int], r as nat));
                assert forall|q: int| 0 <= q < c + 1 implies #[trigger] cell_ok(row@[2 * q], cols[q], ws[q], r as nat) by {
                    if q < c {
                        assert(row@[2 * q] == row1[2 * q]);
                    }
                }
                assert forall|q: int|
                    0 <= q < c implies (#[trigger] row@[2 * q + 1] matches FlowPiece::Connector(t) && t@
                        == connector_spec(cols[q].len(), cols[q + 1].len(), r as nat)) by {
                    assert(row@[2 * q + 1] == row1[2 * q + 1]);
                }
            }
            c += 1;
        }
        rows.push(row);
        proof {
            assert(rows@[r as int] == row);
        }
        r += 1;
    }
    rows
}

impl<'a> FlowGraph<'a> {
    /// The three rows of the graph of the runner's tasks, in execution order.
    pub fn rows(&self) -> (rows: Vec<Vec<FlowPiece>>)
        requires
            within_limits(self.store.runner.order_seq()),
        ensures
            rows@.len() == 3,
            ({
                let o = self.store.runner.order_seq();
                let lv = levels_upto(self.store.runner.task_map(), o, o.len());
                let mx = max_level_of(lv, lv.len());
                let cols = Seq::new((mx + 1) as nat, |c: int| column_spec(o, lv, c as nat, lv.len()));
                let ws = Seq::new((mx + 1) as nat, |c: int| column_width(cols[c], cols[c].len()));
                forall|r: int| 0 <= r < 3 ==> row_ok((#[trigger] rows@[r])@, cols, ws, r as nat)
            }),
    {
        let runner = self.store.runner;
        let order = runner.execution_order();
        let layout = flow_layout(runner.tasks(), order);
        proof {
            let o = names(order@);
            let lv = levels_upto(runner.task_map(), o, o.len());
            assert forall|c: int, i: int|
                0 <= c < layout.columns@.len() && 0 <= i < layout.columns@[c]@.len() implies (
                #[trigger] layout.columns@[c]@[i])@.len() <= usize::MAX / 8 by {
                lemma_column_members(o, lv, c as nat, lv.len());
                let cs = names(layout.columns@[c]@);
                assert(cs[i] == layout.columns@[c]@[i]@);
                assert(o.contains(cs[i]));
            }
            assert(lv.len() == o.len()) by {
                lemma_levels_len(runner.task_map(), o, o.len());
            }
        }
        let rows = graph_rows(&layout);
        proof {
            let o = names(order@);
            let lv = levels_upto(runner.task_map(), o, o.len());
            let mx = max_level_of(lv, lv.len());
            let cols = Seq::new((mx + 1) as nat, |c: int| column_spec(o, lv, c as nat, lv.len()));
            let ws = Seq::new((mx + 1) as nat, |c: int| column_width(cols[c], cols[c].len()));
            assert(column_views(layout.columns@) =~= cols);
            assert(nat_views(layout.widths@) =~= ws);
        }
        rows
    }
}

proof fn lemma_levels_len(m: TaskMap, o: Seq<Seq<char>>, n: nat)
    requires
        n <= o.len(),
    ensures
        levels_upto(m, o, n).len() == n,
    decreases n,
{
    if n > 0 {
        lemma_levels_len(m, o, (n - 1) as nat);
    }
}

proof fn lemma_column_members(o: Seq<Seq<char>>, lv: Seq<Option<nat>>, c: nat, n: nat)
    ensures
        forall|x: int| 0 <= x < column_spec(o, lv, c, n).len() ==> o.contains(#[trigger] column_spec(o, lv, c, n)[x]),
    decreases n,
{
    if n > 0 && n <= lv.len() && n <= o.len() {
        lemma_column_members(o, lv, c, (n - 1) as nat);
        let prior = column_spec(o, lv, c, (n - 1) as nat);
        let cur = column_spec(o, lv, c, n);
        assert forall|x: int| 0 <= x < cur.len() implies o.contains(#[trigger] cur[x]) by {
            if x < prior.len() {
                assert(cur[x] == prior[x]);
                assert(o.contains(prior[x]));
            } else {
                assert(cur[x] == o[n - 1]);
            }
        }
    }
}

/// The value of a recorded column: the column, or 0 for none.
pub open spec fn column_value(l: Option<nat>) -> nat {
    match l {
        Some(c) => c,
        None => 0,
    }
}

/// The column of `d` under `lv`, read at its first place in `order`; 0 where
/// it stands nowhere or has no column.
pub open spec fn column_at(order: Seq<Seq<char>>, lv: Seq<Option<nat>>, d: Seq<char>) -> nat {
    match order.index_of_first(d) {
        Some(q) => column_value(lv[q]),
        None => 0,
    }
}

/// The column rule at position `k`: a name that is not a task gets no
/// column; a task with no dependencies is in column 0; any other task is one
/// column right of its deepest dependency.
pub open spec fn column_rule(m: TaskMap, order: Seq<Seq<char>>, lv: Seq<Option<nat>>, k: int) -> bool {
    let a = order[k];
    let deps = m.dep_graph()(a);
    if !m.key_seq().contains(a) {
        lv[k] is None
    } else if deps.len() == 0 {
        lv[k] == Some(0nat)
    } else {
        &&& lv[k] matches Some(l) && (forall|j: int|
            0 <= j < deps.len() ==> #[trigger] column_at(order, lv, deps[j]) + 1 <= l)
        &&& lv[k] matches Some(l) && (exists|j: int|
            0 <= j < deps.len() && #[trigger] column_at(order, lv, deps[j]) + 1 == l)
    }
}

proof fn lemma_levels_prefix(m: TaskMap, o: Seq<Seq<char>>, n: nat, big: nat)
    requires
        n <= big <= o.len(),
    ensures
        levels_upto(m, o, big).take(n as int) == levels_upto(m, o, n),
    decreases big,
{
    lemma_levels_len(m, o, big);
    lemma_levels_len(m, o, n);
    if n < big {
        lemma_levels_prefix(m, o, n, (big - 1) as nat);
        lemma_levels_len(m, o, (big - 1) as nat);
        assert(levels_upto(m, o, big).take(n as int) =~= levels_upto(m, o, (big - 1) as nat).take(n as int));
    } else {
        assert(levels_upto(m, o, big).take(n as int) =~= levels_upto(m, o, big));
    }
}

proof fn lemma_recorded_is_column(order: Seq<Seq<char>>, prior: Seq<Option<nat>>, d: Seq<char>, q: int, j: nat)
    requires
        order.no_duplicates(),
        0 <= q < order.len(),
        order[q] == d,
        j <= prior.len() <= order.len(),
    ensures
        recorded_level(order, prior, d, j) == (if q < j { column_value(prior[q]) } else { 0 }),
    decreases j,
{
    if j > 0 {
        if order[j - 1] == d {
            assert(j - 1 == q);
            if prior[q] is None {
                lemma_recorded_is_column(order, prior, d, q, (j - 1) as nat);
            }
        } else {
            lemma_recorded_is_column(order, prior, d, q, (j - 1) as nat);
        }
    }
}

proof fn lemma_max_recorded_is_max(order: Seq<Seq<char>>, prior: Seq<Option<nat>>, deps: Seq<Seq<char>>, k: nat)
    requires
        k <= deps.len(),
    ensures
        forall|j: int| 0 <= j < k ==> #[trigger] recorded_level(order, prior, deps[j], prior.len()) <= max_recorded(
            order,
            prior,
            deps,
            k,
        ),
        k > 0 ==> exists|j: int|
            0 <= j < k && #[trigger] recorded_level(order, prior, deps[j], prior.len()) == max_recorded(
                order,
                prior,
                deps,
                k,
            ),
    decreases k,
{
    if k > 0 {
        lemma_max_recorded_is_max(order, prior, deps, (k - 1) as nat);
        let b = recorded_level(order, prior, deps[k - 1], prior.len());
        assert(recorded_level(order, prior, deps[(k - 1) as int], prior.len()) == b);
    }
}

/// The columns of the graph follow the column rule at every position of an
/// execution order: a task with no dependencies is in column 0, any other
/// one column right of its deepest dependency, a name that is no task in
/// none.
pub proof fn lemma_column_law(m: TaskMap, order: Seq<Seq<char>>)
    requires
        is_topological_order(order, m.key_seq(), m.dep_graph()),
    ensures
        forall|k: int| 0 <= k < order.len() ==> #[trigger] column_rule(m, order, levels_upto(m, order, order.len()), k),
{
    let n = order.len();
    let lv = levels_upto(m, order, n);
    lemma_levels_len(m, order, n);
    assert forall|k: int| 0 <= k < order.len() implies #[trigger] column_rule(m, order, lv, k) by {
        lemma_levels_prefix(m, order, (k + 1) as nat, n);
        lemma_levels_prefix(m, order, k as nat, n);
        lemma_levels_len(m, order, k as nat);
        let prior = levels_upto(m, order, k as nat);
        assert(lv[k] == levels_upto(m, order, (k + 1) as nat)[k]);
        assert(prior =~= lv.take(k));
        let a = order[k];
        let deps = m.dep_graph()(a);
        assert(levels_upto(m, order, (k + 1) as nat) == prior.push(
            if !m.key_seq().contains(a) {
                None
            } else if deps.len() == 0 {
                Some(0nat)
            } else {
                Some(max_recorded(order, prior, deps, deps.len()) + 1)
            },
        ));
        if m.key_seq().contains(a) && deps.len() > 0 {
            let top = max_recorded(order, prior, deps, deps.len());
            lemma_max_recorded_is_max(order, prior, deps, deps.len());
            assert forall|j: int| 0 <= j < deps.len() implies #[trigger] recorded_level(order, prior, deps[j], prior.len())
                == column_at(order, lv, deps[j]) by {
                let d = deps[j];
                assert(order.take(k).contains(d));
                let q = choose|q: int| 0 <= q < order.take(k).len() && order.take(k)[q] == d;
                assert(order[q] == d);
                lemma_recorded_is_column(order, prior, d, q, prior.len());
                order.index_of_first_ensures(d);
                let f = order.index_of_first(d)->0;
                assert(f == q);
                assert(prior[q] == lv[q]);
            }
            assert(lv[k] == Some(top + 1));
            assert forall|j: int| 0 <= j < deps.len() implies #[trigger] column_at(order, lv, deps[j]) + 1 <= top + 1 by {
                assert(recorded_level(order, prior, deps[j], prior.len()) <= top);
            }
            let j0 = choose|j: int|
                0 <= j < deps.len() && #[trigger] recorded_level(order, prior, deps[j], prior.len()) == top;
            assert(column_at(order, lv, deps[j0]) + 1 == top + 1);
        }
    }
}

proof fn lemma_max_level_bounds(levels: Seq<Option<nat>>, n: nat, k: int)
    requires
        0 <= k < n <= levels.len(),
    ensures
        levels[k] matches Some(l) ==> l <= max_level_of(levels, n),
    decreases n,
{
    if k < n - 1 {
        lemma_max_level_bounds(levels, (n - 1) as nat, k);
    }
}

proof fn lemma_column_holds(o: Seq<Seq<char>>, levels: Seq<Option<nat>>, n: nat, k: int)
    requires
        0 <= k < n,
        n <= levels.len(),
        n <= o.len(),
    ensures
        levels[k] matches Some(c) ==> column_spec(o, levels, c, n).contains(o[k]),
    decreases n,
{
    if let Some(c) = levels[k] {
        if k < n - 1 {
            lemma_column_holds(o, levels, (n - 1) as nat, k);
            let prior = column_spec(o, levels, c, (n - 1) as nat);
            let q = choose|q: int| 0 <= q < prior.len() && prior[q] == o[k];
            if levels[n - 1] == Some(c) {
                assert(prior.push(o[n - 1])[q] == o[k]);
            }
        } else {
            let prior = column_spec(o, levels, c, (n - 1) as nat);
            assert(prior.push(o[n - 1])[prior.len() as int] == o[k]);
        }
    }
}

/// Every name of the order that gets a column is drawn: its column is within
/// the graph (the graph has a column for each level up to the highest one
/// any name gets) and holds it.
pub proof fn lemma_every_task_has_a_column(m: TaskMap, o: Seq<Seq<char>>)
    ensures
        ({
            let lv = levels_upto(m, o, o.len());
            forall|k: int|
                0 <= k < o.len() ==> (#[trigger] lv[k] matches Some(l) ==> l <= max_level_of(lv, lv.len())
                    && column_spec(o, lv, l, lv.len()).contains(o[k]))
        }),
{
    let lv = levels_upto(m, o, o.len());
    lemma_levels_len(m, o, o.len());
    assert forall|k: int| 0 <= k < o.len() implies (#[trigger] lv[k] matches Some(l) ==> l <= max_level_of(
        lv,
        lv.len(),
    ) && column_spec(o, lv, l, lv.len()).contains(o[k])) by {
        lemma_max_level_bounds(lv, lv.len(), k);
        lemma_column_holds(o, lv, lv.len(), k);
    }
}

} // verus!
