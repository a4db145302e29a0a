//! Process trees: rendering a tree as indented text, and building the tree
//! of a process's descendants from a process table.
use vstd::prelude::*;
use crate::text::{decimal, push_decimal, string_push};
use crate::strop::count_char;
use crate::numparse::lemma_decimal_digits;

verus! {

/// A process and, below it, the processes it started.
pub struct ProcessTree {
    pub pid: u64,
    pub children: Vec<ProcessTree>,
}

/// Four spaces per level, for `tab` levels (none when `tab` is not positive).
pub open spec fn indent(tab: int) -> Seq<char>
    decreases tab,
{
    if tab <= 0 {
        Seq::empty()
    } else {
        indent(tab - 1) + seq![' ', ' ', ' ', ' ']
    }
}

/// The text of `t` at depth `tab`: its pid on a line indented by `tab`
/// levels, then the text of each child one level deeper.
pub open spec fn tree_text(t: ProcessTree, tab: int) -> Seq<char>
    decreases t, t.children@.len() + 1,
{
    indent(tab) + decimal(t.pid as nat) + seq!['\n'] + children_text(t, 0, tab + 1)
}

/// The texts of the children of `t` from the `k`-th on, at depth `tab`.
pub open spec fn children_text(t: ProcessTree, k: int, tab: int) -> Seq<char>
    decreases t, t.children@.len() - k,
{
    if k < 0 || k >= t.children@.len() {
        Seq::empty()
    } else {
        tree_text(t.children@[k], tab) + children_text(t, k + 1, tab)
    }
}

/// Rendering `t` never needs a depth beyond `room` more levels: every node
/// with children stands at least one level above the limit.
pub open spec fn fits_depth(t: ProcessTree, room: int) -> bool
    decreases t,
{
    t.children@.len() > 0 ==> {
        &&& room >= 1
        &&& forall|k: int|
            0 <= k < t.children@.len() ==> fits_depth(#[trigger] t.children@[k], room - 1)
    }
}

/// The number of processes in `t`.
pub open spec fn node_count(t: ProcessTree) -> nat
    decreases t, t.children@.len() + 1,
{
    1 + children_count(t, 0)
}

/// The number of processes below the children of `t` from the `k`-th on,
/// those children included.
pub open spec fn children_count(t: ProcessTree, k: int) -> nat
    decreases t, t.children@.len() - k,
{
    if k < 0 || k >= t.children@.len() {
        0
    } else {
        node_count(t.children@[k]) + children_count(t, k + 1)
    }
}

/// Counting a character in two texts put together adds the counts.
proof fn lemma_count_char_concat(a: Seq<char>, b: Seq<char>, c: char)
    ensures
        count_char(a + b, c) == count_char(a, c) + count_char(b, c),
    decreases a.len(),
{
    if a.len() > 0 {
        lemma_count_char_concat(a.drop_first(), b, c);
        assert((a + b).drop_first() =~= a.drop_first() + b);
        assert((a + b)[0] == a[0]);
    } else {
        assert(a + b =~= b);
    }
}

/// A text without `c` counts no `c`.
proof fn lemma_count_char_absent(s: Seq<char>, c: char)
    requires
        forall|i: int| 0 <= i < s.len() ==> s[i] != c,
    ensures
        count_char(s, c) == 0,
    decreases s.len(),
{
    if s.len() > 0 {
        assert forall|i: int| 0 <= i < s.drop_first().len() implies s.drop_first()[i] != c by {
            assert(s.drop_first()[i] == s[i + 1]);
        }
        lemma_count_char_absent(s.drop_first(), c);
    }
}

/// The line of one process holds exactly one line feed, at its end.
proof fn lemma_pid_line(pid: u64, tab: int)
    ensures
        count_char(indent(tab) + decimal(pid as nat) + seq!['\n'], '\n') == 1,
{
    let head = indent(tab) + decimal(pid as nat);
    lemma_decimal_digits(pid as nat);
    lemma_indent_blank(tab);
    assert forall|i: int| 0 <= i < head.len() implies head[i] != '\n' by {
        if i >= indent(tab).len() {
            let d = decimal(pid as nat);
            assert(head[i] == d[i - indent(tab).len()]);
            assert('0' <= d[i - indent(tab).len()] <= '9');
        }
    }
    lemma_count_char_absent(head, '\n');
    lemma_count_char_concat(head, seq!['\n'], '\n');
    assert(seq!['\n'].drop_first() =~= Seq::<char>::empty());
    assert(count_char(Seq::<char>::empty(), '\n') == 0);
    assert(count_char(seq!['\n'], '\n') == 1);
}

/// Indentation is spaces only.
proof fn lemma_indent_blank(tab: int)
    ensures
        forall|i: int| 0 <= i < indent(tab).len() ==> indent(tab)[i] == ' ',
    decreases tab,
{
    if tab > 0 {
        lemma_indent_blank(tab - 1);
        assert forall|i: int| 0 <= i < indent(tab).len() implies indent(tab)[i] == ' ' by {
            if i < indent(tab - 1).len() {
                assert(indent(tab)[i] == indent(tab - 1)[i]);
            }
        }
    }
}

/// The text of `t` has one line per process below and including `t`.
proof fn lemma_tree_text_count(t: ProcessTree, tab: int)
    ensures
        count_char(tree_text(t, tab), '\n') == node_count(t),
    decreases t, t.children@.len() + 1,
{
    lemma_children_text_count(t, 0, tab + 1);
    lemma_pid_line(t.pid, tab);
    lemma_count_char_concat(
        indent(tab) + decimal(t.pid as nat) + seq!['\n'],
        children_text(t, 0, tab + 1),
        '\n',
    );
}

/// The texts of the children of `t` from the `k`-th on have one line per
/// process below and including them.
proof fn lemma_children_text_count(t: ProcessTree, k: int, tab: int)
    ensures
        count_char(children_text(t, k, tab), '\n') == children_count(t, k),
    decreases t, t.children@.len() - k,
{
    if k < 0 || k >= t.children@.len() {
    } else {
        lemma_tree_text_count(t.children@[k], tab);
        lemma_children_text_count(t, k + 1, tab);
        lemma_count_char_concat(tree_text(t.children@[k], tab), children_text(t, k + 1, tab), '\n');
    }
}

/// The text of a process tree has one line per process, at any depth.
pub proof fn lemma_tree_text_lines(t: ProcessTree, tab: int)
    ensures
        count_char(tree_text(t, tab), '\n') == node_count(t),
{
    lemma_tree_text_count(t, tab);
}

impl ProcessTree {
    /// A process without children.
    pub fn new(pid: u64) -> (r: Self)
        ensures
            r.pid == pid,
            r.children@.len() == 0,
    {
        ProcessTree { pid, children: Vec::new() }
    }

    /// The tree as text: one line per process, its pid indented by four
    /// spaces per level, starting at level `tab`.
    pub fn to_string(&self, tab: i32) -> (r: String)
        requires
            fits_depth(*self, i32::MAX - tab),
        ensures
            r@ == tree_text(*self, tab as int),
        decreases self,
    {
        let mut rets = String::new();
        let mut idx: i32 = 0;
        while idx < tab
            invariant
                0 <= idx,
                tab >= 0 ==> idx <= tab,
                tab < 0 ==> idx == 0,
                rets@ == indent(idx as int),
            decreases tab - idx,
        {
            string_push(&mut rets, ' ');
            string_push(&mut rets, ' ');
            string_push(&mut rets, ' ');
            string_push(&mut rets, ' ');
            idx = idx + 1;
            assert(rets@ =~= indent(idx as int));
        }
        assert(rets@ == indent(tab as int)) by {
            if tab <= 0 {
                assert(indent(tab as int) == Seq::<char>::empty());
                assert(indent(0) == Seq::<char>::empty());
            }
        }
        push_decimal(&mut rets, self.pid);
        string_push(&mut rets, '\n');
        let ghost head = rets@;
        let mut cidx: usize = 0;
        while cidx < self.children.len()
            invariant
                cidx <= self.children@.len(),
                fits_depth(*self, i32::MAX - tab),
                self.children@.len() > 0 ==> tab < i32::MAX,
                rets@ + children_text(*self, cidx as int, tab + 1) == head + children_text(
                    *self,
                    0,
                    tab + 1,
                ),
            decreases self.children@.len() - cidx,
        {
            let ghost before = rets@;
            let child_text = self.children[cidx].to_string(tab + 1);
            let cs = child_text.as_str();
            let mut j: usize = 0;
            let cv = crate::text::chars_of(cs);
            while j < cv.len()
                invariant
                    j <= cv@.len(),
                    rets@ == before + cv@.take(j as int),
                decreases cv@.len() - j,
            {
                string_push(&mut rets, cv[j]);
                j = j + 1;
                assert(rets@ =~= before + cv@.take(j as int));
            }
            assert(cv@.take(j as int) == cv@);
            assert(rets@ + children_text(*self, cidx + 1, tab + 1) =~= before + children_text(
                *self,
                cidx as int,
                tab + 1,
            ));
            cidx = cidx + 1;
        }
        assert(head =~= indent(tab as int) + decimal(self.pid as nat) + seq!['\n']);
        rets
    }
}

// ------------------------------------------------------- building the tree

/// A process table: each entry is a pid and the pid of its parent, if any.
pub type ProcessTable = Vec<(u64, Option<u64>)>;

/// The pids whose parent is `p`, in table order.
pub open spec fn children_of(table: Seq<(u64, Option<u64>)>, p: u64) -> Seq<u64>
    decreases table.len(),
{
    if table.len() == 0 {
        Seq::empty()
    } else {
        let rest = children_of(table.drop_last(), p);
        if table.last().1 == Some(p) {
            rest.push(table.last().0)
        } else {
            rest
        }
    }
}

/// Whether the `i`-th pid of a breadth-first order already came earlier.
pub open spec fn seen_before(pids: Seq<u64>, i: int) -> bool {
    pids.take(i).contains(pids[i])
}

/// Breadth-first expansion, one queued node per step. `pids` is the queue in
/// order; `ranges[i]` gives, for each node already visited, where its
/// children start in the queue and how many there are. A pid is expanded
/// only where it first occurs; later occurrences stay leaves.
pub open spec fn bfs_steps(
    table: Seq<(u64, Option<u64>)>,
    pids: Seq<u64>,
    ranges: Seq<(int, int)>,
    fuel: nat,
) -> (Seq<u64>, Seq<(int, int)>)
    decreases fuel,
{
    let i = ranges.len() as int;
    if fuel == 0 || i >= pids.len() {
        (pids, ranges)
    } else if seen_before(pids, i) {
        bfs_steps(table, pids, ranges.push((pids.len() as int, 0)), (fuel - 1) as nat)
    } else {
        let cs = children_of(table, pids[i]);
        bfs_steps(
            table,
            pids + cs,
            ranges.push((pids.len() as int, cs.len() as int)),
            (fuel - 1) as nat,
        )
    }
}

/// A step count that the expansion never reaches: each of the at most
/// `table.len() + 1` distinct pids adds at most `table.len()` nodes.
pub open spec fn bfs_bound(table: Seq<(u64, Option<u64>)>) -> nat {
    1 + (table.len() + 1) * table.len()
}

/// The breadth-first order of the descendants of `root` in `table`, with the
/// child range of every node.
pub open spec fn process_bfs(table: Seq<(u64, Option<u64>)>, root: u64) -> (
    Seq<u64>,
    Seq<(int, int)>,
) {
    bfs_steps(table, seq![root], Seq::empty(), bfs_bound(table))
}

/// `t` is the tree of node `i` of the breadth-first order: its pid, and as
/// children the trees of the nodes in its child range, in order.
pub open spec fn tree_matches(t: ProcessTree, pids: Seq<u64>, ranges: Seq<(int, int)>, i: int) -> bool
    decreases t,
{
    &&& 0 <= i < pids.len()
    &&& i < ranges.len()
    &&& t.pid == pids[i]
    &&& t.children@.len() == ranges[i].1
    &&& forall|k: int|
        0 <= k < t.children@.len() ==> tree_matches(
            #[trigger] t.children@[k],
            pids,
            ranges,
            ranges[i].0 + k,
        )
}

/// Node `i` of a breadth-first order was expanded as it should be: at the
/// first occurrence of its pid, its child range holds exactly the pids whose
/// parent it is, in table order; at a later occurrence the range is empty.
pub open spec fn node_expanded(
    table: Seq<(u64, Option<u64>)>,
    pids: Seq<u64>,
    ranges: Seq<(int, int)>,
    i: int,
) -> bool {
    let start = ranges[i].0;
    let count = ranges[i].1;
    if seen_before(pids, i) {
        count == 0
    } else {
        &&& 0 <= start
        &&& 0 <= count
        &&& start + count <= pids.len()
        &&& pids.subrange(start, start + count) == children_of(table, pids[i])
    }
}

/// Each expansion step keeps the nodes already expanded right, expands the
/// next one right, and only appends to the order.
proof fn lemma_bfs_steps_shape(
    table: Seq<(u64, Option<u64>)>,
    pids: Seq<u64>,
    ranges: Seq<(int, int)>,
    fuel: nat,
)
    requires
        ranges.len() <= pids.len(),
        forall|i: int| 0 <= i < ranges.len() ==> node_expanded(table, pids, ranges, i),
    ensures
        ({
            let (p2, r2) = bfs_steps(table, pids, ranges, fuel);
            &&& r2.len() <= p2.len()
            &&& pids.len() <= p2.len()
            &&& p2.take(pids.len() as int) == pids
            &&& forall|i: int| 0 <= i < r2.len() ==> node_expanded(table, p2, r2, i)
        }),
    decreases fuel,
{
    let i = ranges.len() as int;
    if fuel == 0 || i >= pids.len() {
        assert(pids.take(pids.len() as int) =~= pids);
    } else if seen_before(pids, i) {
        let r1 = ranges.push((pids.len() as int, 0));
        assert forall|j: int| 0 <= j < r1.len() implies node_expanded(table, pids, r1, j) by {
            if j < i {
                assert(r1[j] == ranges[j]);
                assert(node_expanded(table, pids, ranges, j));
            }
        }
        lemma_bfs_steps_shape(table, pids, r1, (fuel - 1) as nat);
    } else {
        let cs = children_of(table, pids[i]);
        let p1 = pids + cs;
        let r1 = ranges.push((pids.len() as int, cs.len() as int));
        assert forall|j: int| 0 <= j < r1.len() implies node_expanded(table, p1, r1, j) by {
            assert(p1.take(j) =~= pids.take(j));
            assert(p1[j] == pids[j]);
            if j < i {
                assert(r1[j] == ranges[j]);
                assert(node_expanded(table, pids, ranges, j));
                if !seen_before(pids, j) {
                    let st = ranges[j].0;
                    let n = ranges[j].1;
                    assert(p1.subrange(st, st + n) =~= pids.subrange(st, st + n));
                }
            } else {
                assert(p1.subrange(pids.len() as int, (pids.len() + cs.len()) as int) =~= cs);
            }
        }
        lemma_bfs_steps_shape(table, p1, r1, (fuel - 1) as nat);
        let p2 = bfs_steps(table, p1, r1, (fuel - 1) as nat).0;
        assert(p2.take(pids.len() as int) =~= p1.take(p1.len() as int).take(pids.len() as int));
        assert(p1.take(pids.len() as int) =~= pids);
    }
}

/// The breadth-first order of the descendants of `root` starts at `root`,
/// and every node in it is expanded right: at the first occurrence of a pid
/// its children are exactly the pids whose parent it is, in table order,
/// and a pid met again is left without children.
pub proof fn lemma_process_bfs_shape(table: Seq<(u64, Option<u64>)>, root: u64)
    ensures
        process_bfs(table, root).0.len() >= 1,
        process_bfs(table, root).0[0] == root,
        forall|i: int|
            0 <= i < process_bfs(table, root).1.len() ==> node_expanded(
                table,
                process_bfs(table, root).0,
                process_bfs(table, root).1,
                i,
            ),
{
    lemma_bfs_steps_shape(table, seq![root], Seq::empty(), bfs_bound(table));
    let p2 = process_bfs(table, root).0;
    assert(p2.take(1)[0] == p2[0]);
}

/// No more than `table.len()` pids have a given parent.
proof fn lemma_children_of_len(table: Seq<(u64, Option<u64>)>, p: u64)
    ensures
        children_of(table, p).len() <= table.len(),
    decreases table.len(),
{
    if table.len() > 0 {
        lemma_children_of_len(table.drop_last(), p);
    }
}

/// Every child pid is the pid of some table entry.
proof fn lemma_children_of_in_table(table: Seq<(u64, Option<u64>)>, p: u64, k: int)
    requires
        0 <= k < children_of(table, p).len(),
    ensures
        table.map_values(|e: (u64, Option<u64>)| e.0).contains(children_of(table, p)[k]),
    decreases table.len(),
{
    let rest = children_of(table.drop_last(), p);
    let keys = table.map_values(|e: (u64, Option<u64>)| e.0);
    if k < rest.len() {
        lemma_children_of_in_table(table.drop_last(), p, k);
        let kr = table.drop_last().map_values(|e: (u64, Option<u64>)| e.0);
        let j = choose|j: int| 0 <= j < kr.len() && kr[j] == rest[k];
        assert(keys[j] == kr[j]);
    } else {
        assert(keys[table.len() - 1] == table.last().0);
    }
}

/// The set of a sequence with one more element.
proof fn lemma_push_to_set(s: Seq<u64>, a: u64)
    ensures
        s.push(a).to_set() == s.to_set().insert(a),
{
    assert forall|x: u64| s.push(a).to_set().contains(x) implies s.to_set().insert(a).contains(x) by {
        let m = choose|m: int| 0 <= m < s.push(a).len() && s.push(a)[m] == x;
        if m < s.len() {
            assert(s[m] == x);
        }
    }
    assert forall|x: u64| s.to_set().insert(a).contains(x) implies s.push(a).to_set().contains(x) by {
        if x == a {
            assert(s.push(a)[s.len() as int] == a);
        } else {
            let m = choose|m: int| 0 <= m < s.len() && s[m] == x;
            assert(s.push(a)[m] == x);
        }
    }
    assert(s.push(a).to_set() =~= s.to_set().insert(a));
}

/// The pids whose parent is `p`, in table order.
fn children_in(table: &ProcessTable, p: u64) -> (r: Vec<u64>)
    ensures
        r@ == children_of(table@, p),
{
    let mut r: Vec<u64> = Vec::new();
    let mut k: usize = 0;
    while k < table.len()
        invariant
            k <= table@.len(),
            r@ == children_of(table@.take(k as int), p),
        decreases table@.len() - k,
    {
        assert(table@.take(k + 1).drop_last() == table@.take(k as int));
        if table[k].1 == Some(p) {
            r.push(table[k].0);
        }
        k = k + 1;
    }
    assert(table@.take(k as int) == table@);
    r
}

/// Whether `pids[i]` occurs before index `i`.
fn occurs_before(pids: &Vec<u64>, i: usize) -> (r: bool)
    requires
        i < pids@.len(),
    ensures
        r == seen_before(pids@, i as int),
{
    let mut j: usize = 0;
    while j < i
        invariant
            j <= i < pids@.len(),
            forall|m: int| 0 <= m < j ==> pids@[m] != pids@[i as int],
        decreases i - j,
    {
        if pids[j] == pids[i] {
            assert(pids@.take(i as int)[j as int] == pids@[i as int]);
            return true;
        }
        j = j + 1;
    }
    assert forall|m: int| 0 <= m < pids@.take(i as int).len() implies pids@.take(i as int)[m]
        != pids@[i as int] by {}
    false
}

/// Builds the subtree of node `i` from the breadth-first order and its ranges.
fn build_subtree(
    pids: &Vec<u64>,
    ranges: &Vec<(usize, usize)>,
    granges: Ghost<Seq<(int, int)>>,
    i: usize,
) -> (r: ProcessTree)
    requires
        ranges@.len() == pids@.len(),
        granges@.len() == pids@.len(),
        i < pids@.len(),
        forall|j: int|
            0 <= j < pids@.len() ==> {
                &&& (#[trigger] ranges@[j]).0 == granges@[j].0
                &&& ranges@[j].1 == granges@[j].1
                &&& j < ranges@[j].0
                &&& ranges@[j].0 + ranges@[j].1 <= pids@.len()
            },
    ensures
        tree_matches(r, pids@, granges@, i as int),
    decreases pids@.len() - i,
{
    let (first, count) = ranges[i];
    let len = pids.len();
    let mut children: Vec<ProcessTree> = Vec::new();
    let mut k: usize = 0;
    while k < count
        invariant
            k <= count,
            first == ranges@[i as int].0,
            count == ranges@[i as int].1,
            ranges@.len() == pids@.len(),
            granges@.len() == pids@.len(),
            i < pids@.len(),
            i < first,
            first + count <= pids@.len(),
            len == pids@.len(),
            forall|j: int|
                0 <= j < pids@.len() ==> {
                    &&& (#[trigger] ranges@[j]).0 == granges@[j].0
                    &&& ranges@[j].1 == granges@[j].1
                    &&& j < ranges@[j].0
                    &&& ranges@[j].0 + ranges@[j].1 <= pids@.len()
                },
            children@.len() == k,
            forall|m: int|
                0 <= m < k ==> tree_matches(
                    #[trigger] children@[m],
                    pids@,
                    granges@,
                    granges@[i as int].0 + m,
                ),
        decreases count - k,
    {
        let c = build_subtree(pids, ranges, granges, first + k);
        children.push(c);
        k = k + 1;
    }
    let r = ProcessTree { pid: pids[i], children };
    assert(forall|m: int|
        0 <= m < r.children@.len() ==> tree_matches(
            #[trigger] r.children@[m],
            pids@,
            granges@,
            granges@[i as int].0 + m,
        ));
    r
}

/// The tree of `pid` and its descendants in `table`, expanded breadth-first;
/// a pid met again below is listed but not expanded a second time.
pub fn children_tree_from_table(pid: u64, table: &ProcessTable) -> (r: ProcessTree)
    ensures
        r.pid == pid,
        process_bfs(table@, pid).1.len() == process_bfs(table@, pid).0.len(),
        tree_matches(r, process_bfs(table@, pid).0, process_bfs(table@, pid).1, 0),
{
    let ghost keys = seq![pid] + table@.map_values(|e: (u64, Option<u64>)| e.0);
    let ghost universe = keys.to_set();
    let ghost t = table@.len();
    let ghost bound = bfs_bound(table@);
    let mut pids: Vec<u64> = Vec::new();
    pids.push(pid);
    let mut ranges: Vec<(usize, usize)> = Vec::new();
    let ghost mut granges: Seq<(int, int)> = Seq::empty();
    proof {
        keys.lemma_cardinality_of_set();
        assert(keys.contains(pid)) by {
            assert(keys[0] == pid);
        }
        assert(pids@.take(0).to_set() =~= Set::<u64>::empty());
    }
    let mut i: usize = 0;
    while i < pids.len()
        invariant
            i <= pids@.len(),
            1 <= pids@.len(),
            ranges@.len() == i,
            granges.len() == i,
            keys == seq![pid] + table@.map_values(|e: (u64, Option<u64>)| e.0),
            universe == keys.to_set(),
            universe.len() <= t + 1,
            t == table@.len(),
            bound == bfs_bound(table@),
            process_bfs(table@, pid) == bfs_steps(table@, pids@, granges, (bound - i) as nat),
            forall|j: int| 0 <= j < pids@.len() ==> universe.contains(#[trigger] pids@[j]),
            pids@.len() <= 1 + pids@.take(i as int).to_set().len() * t,
            i <= bound,
            forall|j: int|
                0 <= j < i ==> {
                    &&& (#[trigger] ranges@[j]).0 == granges[j].0
                    &&& ranges@[j].1 == granges[j].1
                    &&& j < ranges@[j].0
                    &&& ranges@[j].0 + ranges@[j].1 <= pids@.len()
                },
        decreases bound - i,
    {
        let ghost before = pids@;
        let ghost seen = pids@.take(i as int).to_set();
        proof {
            vstd::set_lib::lemma_len_subset(seen, universe);
            assert(seen.subset_of(universe)) by {
                assert forall|x: u64| seen.contains(x) implies universe.contains(x) by {
                    let pre = pids@.take(i as int);
                    let m = choose|m: int| 0 <= m < pre.len() && pre[m] == x;
                    assert(pids@[m] == x);
                }
            }
            vstd::set_lib::lemma_len_subset(seen, universe);
        }
        if occurs_before(&pids, i) {
            ranges.push((pids.len(), 0));
            proof {
                granges = granges.push((pids@.len() as int, 0));
                assert(pids@.take(i + 1) == pids@.take(i as int).push(pids@[i as int]));
                lemma_push_to_set(pids@.take(i as int), pids@[i as int]);
                assert(seen.insert(pids@[i as int]) =~= seen);
            }
        } else {
            let cs = children_in(table, pids[i]);
            let n = pids.len();
            let mut k: usize = 0;
            while k < cs.len()
                invariant
                    k <= cs@.len(),
                    pids@ == before + cs@.take(k as int),
                    n == before.len(),
                decreases cs@.len() - k,
            {
                pids.push(cs[k]);
                k = k + 1;
                assert(pids@ =~= before + cs@.take(k as int));
            }
            assert(cs@.take(k as int) == cs@);
            ranges.push((n, cs.len()));
            proof {
                granges = granges.push((n as int, cs@.len() as int));
                lemma_children_of_len(table@, before[i as int]);
                assert(pids@.take(i as int) == before.take(i as int));
                assert(pids@.take(i + 1) == before.take(i as int).push(before[i as int]));
                lemma_push_to_set(before.take(i as int), before[i as int]);
                assert(!seen.contains(before[i as int]));
                assert(seen.insert(before[i as int]).len() == seen.len() + 1);
                assert((seen.len() + 1) * t == seen.len() * t + t) by (nonlinear_arith);
                assert forall|j: int| 0 <= j < pids@.len() implies universe.contains(
                    #[trigger] pids@[j],
                ) by {
                    if j >= before.len() {
                        lemma_children_of_in_table(table@, before[i as int], j - before.len());
                        let ks = table@.map_values(|e: (u64, Option<u64>)| e.0);
                        let m = choose|m: int| 0 <= m < ks.len() && ks[m] == pids@[j];
                        assert(keys[m + 1] == ks[m]);
                    } else {
                        assert(pids@[j] == before[j]);
                    }
                }
            }
        }
        proof {
            let nxt = pids@.take(i + 1);
            assert(nxt.to_set().len() <= t + 1) by {
                assert(nxt.to_set().subset_of(universe)) by {
                    assert forall|x: u64| nxt.to_set().contains(x) implies universe.contains(x) by {
                        let m = choose|m: int| 0 <= m < nxt.len() && nxt[m] == x;
                        assert(pids@[m] == x);
                    }
                }
                vstd::set_lib::lemma_len_subset(nxt.to_set(), universe);
            }
            let s1 = pids@.take(i + 1).to_set().len();
            assert(s1 * t <= (t + 1) * t) by (nonlinear_arith)
                requires
                    s1 <= t + 1,
            ;
        }
        i = i + 1;
    }
    let r = build_subtree(&pids, &ranges, Ghost(granges), 0);
    proof {
        lemma_process_bfs_shape(table@, pid);
    }
    r
}

// ------------------------------------------------------ processes by name

/// Whether `needle` occurs in `hay` as a run of consecutive bytes (the empty
/// needle occurs everywhere).
pub open spec fn bytes_contain(hay: Seq<u8>, needle: Seq<u8>) -> bool {
    exists|i: int| 0 <= i <= hay.len() - needle.len() && #[trigger] hay.subrange(i, i + needle.len()) == needle
}

/// The pids of the processes whose name contains `name`, in table order.
pub open spec fn pids_named(procs: Seq<(u64, Seq<u8>)>, name: Seq<u8>) -> Seq<u64>
    decreases procs.len(),
{
    if procs.len() == 0 {
        Seq::empty()
    } else {
        let rest = pids_named(procs.drop_last(), name);
        if bytes_contain(procs.last().1, name) {
            rest.push(procs.last().0)
        } else {
            rest
        }
    }
}

/// Whether `needle` occurs in `hay` at index `i`.
fn occurs_at(hay: &[u8], needle: &[u8], i: usize) -> (r: bool)
    requires
        i + needle@.len() <= hay@.len(),
    ensures
        r == (hay@.subrange(i as int, i + needle@.len()) == needle@),
{
    let hl = hay.len();
    let mut k: usize = 0;
    while k < needle.len()
        invariant
            k <= needle@.len(),
            hl == hay@.len(),
            i + needle@.len() <= hay@.len(),
            forall|m: int| 0 <= m < k ==> hay@[i + m] == needle@[m],
        decreases needle@.len() - k,
    {
        if hay[i + k] != needle[k] {
            assert(hay@.subrange(i as int, i + needle@.len())[k as int] != needle@[k as int]);
            return false;
        }
        k = k + 1;
    }
    assert(hay@.subrange(i as int, i + needle@.len()) =~= needle@);
    true
}

/// Whether `needle` occurs anywhere in `hay`.
fn contains_bytes(hay: &[u8], needle: &[u8]) -> (r: bool)
    ensures
        r == bytes_contain(hay@, needle@),
{
    if needle.len() > hay.len() {
        return false;
    }
    let last = hay.len() - needle.len();
    let mut i: usize = 0;
    while i <= last
        invariant
            last == hay@.len() - needle@.len(),
            forall|j: int| 0 <= j < i ==> #[trigger] hay@.subrange(j, j + needle@.len()) != needle@,
        decreases last + 1 - i,
    {
        if occurs_at(hay, needle, i) {
            return true;
        }
        if i == last {
            return false;
        }
        i = i + 1;
    }
    false
}

/// The pids of the processes whose name (as bytes) contains `name`.
pub fn pids_with_name(procs: &Vec<(u64, Vec<u8>)>, name: &[u8]) -> (r: Vec<u64>)
    ensures
        r@ == pids_named(procs@.map_values(|e: (u64, Vec<u8>)| (e.0, e.1@)), name@),
{
    let ghost table = procs@.map_values(|e: (u64, Vec<u8>)| (e.0, e.1@));
    let mut r: Vec<u64> = Vec::new();
    let mut k: usize = 0;
    while k < procs.len()
        invariant
            k <= procs@.len(),
            table == procs@.map_values(|e: (u64, Vec<u8>)| (e.0, e.1@)),
            r@ == pids_named(table.take(k as int), name@),
        decreases procs@.len() - k,
    {
        assert(table.take(k + 1).drop_last() == table.take(k as int));
        assert(table.take(k + 1).last() == (procs@[k as int].0, procs@[k as int].1@));
        if contains_bytes(procs[k].1.as_slice(), name) {
            r.push(procs[k].0);
        }
        k = k + 1;
    }
    assert(table.take(k as int) == table);
    r
}

// ------------------------------------------------------ executable's folder

/// Why a process query failed.
#[derive(Clone, Copy, Debug, PartialEq, Eq, Structural)]
pub enum ProcOpError {
    /// The executable's path has no parent directory.
    NoParent,
}

/// The folder of the executable at path `ename`: its parent path.
pub fn exec_dir_of(ename: &str) -> (r: Result<String, ProcOpError>)
    ensures
        match crate::fileop::path_parent(ename@) {
            Some(p) => r matches Ok(d) && d@ == p,
            None => r == Err::<String, ProcOpError>(ProcOpError::NoParent),
        },
{
    match crate::fileop::std_path_parent(ename) {
        Some(p) => Ok(p),
        None => Err(ProcOpError::NoParent),
    }
}

} // verus!
