use vstd::prelude::*;
use crate::Error;

verus! {

// ---------------------------------------------------------------------------
// The ancestor relation, as a pure function of the parent table.
// ---------------------------------------------------------------------------

/// `t` lies on the parent chain of `x` (including `x` itself), within `fuel`
/// upward steps.
pub open spec fn in_chain(par: Seq<Option<usize>>, x: usize, t: usize, fuel: nat) -> bool
    decreases fuel,
{
    x == t || (fuel > 0 && x < par.len() && match par[x as int] {
        Some(q) => in_chain(par, q, t, (fuel - 1) as nat),
        None => false,
    })
}

/// `t` is `x` itself or an ancestor of `x`: some number of upward steps from
/// `x` arrives at `t`.
pub open spec fn reaches(par: Seq<Option<usize>>, x: usize, t: usize) -> bool {
    exists|f: nat| in_chain(par, x, t, f)
}

/// The parent chain of `x` ends at a parentless node within `fuel` steps.
pub open spec fn chain_ends(par: Seq<Option<usize>>, x: usize, fuel: nat) -> bool
    decreases fuel,
{
    x < par.len() && match par[x as int] {
        None => true,
        Some(q) => fuel > 0 && chain_ends(par, q, (fuel - 1) as nat),
    }
}

/// One upward step preserves the ancestor relation.
pub proof fn lemma_reaches_fold(par: Seq<Option<usize>>, x: usize, q: usize, t: usize)
    requires
        x < par.len(),
        par[x as int] == Some(q),
        reaches(par, q, t),
    ensures
        reaches(par, x, t),
{
    let f = choose|f: nat| in_chain(par, q, t, f);
    assert(in_chain(par, x, t, f + 1));
}

/// An ancestor of `x` other than `x` itself is an ancestor of `x`'s parent.
pub proof fn lemma_reaches_unfold(par: Seq<Option<usize>>, x: usize, t: usize)
    requires
        reaches(par, x, t),
        x != t,
    ensures
        x < par.len(),
        par[x as int] is Some,
        reaches(par, par[x as int]->Some_0, t),
{
    let f = choose|f: nat| in_chain(par, x, t, f);
    assert(in_chain(par, par[x as int]->Some_0, t, (f - 1) as nat));
}

/// Chains that end in `c` never step out of `c`, so they are insensitive to
/// what `c`'s own parent entry holds.
proof fn lemma_chain_retarget(
    par1: Seq<Option<usize>>,
    par2: Seq<Option<usize>>,
    x: usize,
    c: usize,
    f: nat,
)
    requires
        par1.len() == par2.len(),
        forall|i: int| 0 <= i < par1.len() && i != c ==> par1[i] == par2[i],
        in_chain(par1, x, c, f),
    ensures
        in_chain(par2, x, c, f),
    decreases f,
{
    if x != c {
        lemma_chain_retarget(par1, par2, par1[x as int]->Some_0, c, (f - 1) as nat);
    }
}

/// `reaches(_, _, c)` is insensitive to `c`'s own parent entry.
pub proof fn lemma_reaches_retarget(
    par1: Seq<Option<usize>>,
    par2: Seq<Option<usize>>,
    x: usize,
    c: usize,
)
    requires
        par1.len() == par2.len(),
        forall|i: int| 0 <= i < par1.len() && i != c ==> par1[i] == par2[i],
    ensures
        reaches(par1, x, c) == reaches(par2, x, c),
{
    if reaches(par1, x, c) {
        let f = choose|f: nat| in_chain(par1, x, c, f);
        lemma_chain_retarget(par1, par2, x, c, f);
    }
    if reaches(par2, x, c) {
        let f = choose|f: nat| in_chain(par2, x, c, f);
        lemma_chain_retarget(par2, par1, x, c, f);
    }
}

// ---------------------------------------------------------------------------
// The depth labelling: the witness that the parent table stays a forest.
// ---------------------------------------------------------------------------

/// Node `i`'s label is one more than its parent's, and zero when it has no
/// parent. Such a labelling can exist only when the parent table is acyclic.
pub open spec fn depth_step(par: Seq<Option<usize>>, d: Seq<int>, i: int) -> bool {
    &&& d[i] >= 0
    &&& match par[i] {
        Some(p) => p < par.len() && d[i] == d[p as int] + 1,
        None => d[i] == 0,
    }
}

pub open spec fn depth_wf(par: Seq<Option<usize>>, d: Seq<int>) -> bool {
    &&& d.len() == par.len()
    &&& forall|i: int| 0 <= i < par.len() ==> #[trigger] depth_step(par, d, i)
}

/// Walking up from `x` to an ancestor `t` descends in depth, and needs at
/// most `d[x] - d[t]` steps.
pub proof fn lemma_chain_depth(par: Seq<Option<usize>>, d: Seq<int>, x: usize, t: usize, f: nat)
    requires
        depth_wf(par, d),
        x < par.len(),
        in_chain(par, x, t, f),
    ensures
        t < par.len(),
        d[t as int] <= d[x as int],
        in_chain(par, x, t, (d[x as int] - d[t as int]) as nat),
    decreases f,
{
    if x != t {
        assert(depth_step(par, d, x as int));
        let q = par[x as int]->Some_0;
        lemma_chain_depth(par, d, q, t, (f - 1) as nat);
    }
}

/// Under a depth labelling the ancestor relation is antisymmetric: two nodes
/// that are each an ancestor of the other are the same node — the parent
/// table holds no cycle.
pub proof fn lemma_reaches_antisymmetric(par: Seq<Option<usize>>, d: Seq<int>, x: usize, t: usize)
    requires
        depth_wf(par, d),
        x < par.len(),
        t < par.len(),
        reaches(par, x, t),
        reaches(par, t, x),
    ensures
        x == t,
{
    let f1 = choose|f: nat| in_chain(par, x, t, f);
    let f2 = choose|f: nat| in_chain(par, t, x, f);
    lemma_chain_depth(par, d, x, t, f1);
    lemma_chain_depth(par, d, t, x, f2);
    assert(d[x as int] == d[t as int]);
    assert(in_chain(par, x, t, 0));
}

/// Under a depth labelling every parent chain ends, at a parentless node, in
/// finitely many steps.
pub proof fn lemma_chain_terminates(par: Seq<Option<usize>>, d: Seq<int>, x: usize)
    requires
        depth_wf(par, d),
        x < par.len(),
    ensures
        chain_ends(par, x, d[x as int] as nat),
    decreases d[x as int],
{
    assert(depth_step(par, d, x as int));
    match par[x as int] {
        None => {},
        Some(q) => {
            assert(depth_step(par, d, q as int));
            lemma_chain_terminates(par, d, q);
            assert(d[q as int] == d[x as int] - 1);
        },
    }
}

/// The relabelling after `c`'s parent entry is rewritten: every node whose
/// chain runs through `c` is shifted by the change in `c`'s own depth.
pub open spec fn shift_of(d: Seq<int>, c: usize, np: Option<usize>) -> int {
    match np {
        Some(p) => d[p as int] + 1 - d[c as int],
        None => 0 - d[c as int],
    }
}

pub open spec fn reparent_depth(
    par: Seq<Option<usize>>,
    d: Seq<int>,
    c: usize,
    np: Option<usize>,
) -> Seq<int> {
    Seq::new(
        d.len(),
        |x: int| if reaches(par, x as usize, c) {
            d[x] + shift_of(d, c, np)
        } else {
            d[x]
        },
    )
}

/// Rewriting `c`'s parent entry to a node that `c` is not an ancestor of (or
/// to nothing) keeps the table a forest: the shifted labelling is a depth
/// labelling of the new table.
pub proof fn lemma_reparent_depth(
    par: Seq<Option<usize>>,
    d: Seq<int>,
    c: usize,
    np: Option<usize>,
)
    requires
        depth_wf(par, d),
        par.len() <= usize::MAX,
        c < par.len(),
        match np {
            Some(p) => p < par.len() && !reaches(par, p, c),
            None => true,
        },
    ensures
        depth_wf(par.update(c as int, np), reparent_depth(par, d, c, np)),
{
    let par2 = par.update(c as int, np);
    let d2 = reparent_depth(par, d, c, np);
    let s = shift_of(d, c, np);
    assert(in_chain(par, c, c, 0));
    assert(reaches(par, c, c));
    match np {
        Some(p) => {
            assert(depth_step(par, d, p as int));
        },
        None => {},
    }
    assert forall|i: int| 0 <= i < par2.len() implies #[trigger] depth_step(par2, d2, i) by {
        let iu = i as usize;
        assert(depth_step(par, d, i));
        if reaches(par, iu, c) {
            let f = choose|f: nat| in_chain(par, iu, c, f);
            lemma_chain_depth(par, d, iu, c, f);
            assert(d[c as int] <= d[i]);
        }
        if i == c {
            match np {
                Some(p) => {
                    assert(depth_step(par, d, p as int));
                    assert(!reaches(par, p, c));
                    assert(d2[p as int] == d[p as int]);
                    assert(d2[i] == d[p as int] + 1);
                },
                None => {
                    assert(d2[i] == 0);
                },
            }
        } else {
            match par[i] {
                Some(q) => {
                    if reaches(par, iu, c) {
                        lemma_reaches_unfold(par, iu, c);
                        assert(reaches(par, q, c));
                        let fq = choose|f: nat| in_chain(par, q, c, f);
                        lemma_chain_depth(par, d, q, c, fq);
                        assert(depth_step(par, d, q as int));
                        assert(d2[i] == d[i] + s && d2[q as int] == d[q as int] + s);
                    } else {
                        if reaches(par, q, c) {
                            lemma_reaches_fold(par, iu, q, c);
                            assert(false);
                        }
                        assert(d2[i] == d[i] && d2[q as int] == d[q as int]);
                    }
                },
                None => {
                    if reaches(par, iu, c) {
                        lemma_reaches_unfold(par, iu, c);
                        assert(false);
                    }
                    assert(d2[i] == d[i]);
                },
            }
        }
    }
}

// ---------------------------------------------------------------------------
// Structural well-formedness of the parent and children tables.
// ---------------------------------------------------------------------------

pub open spec fn parent_entry_ok(par: Seq<Option<usize>>, ch: Seq<Seq<usize>>, i: int) -> bool {
    match par[i] {
        Some(p) => p < par.len() && ch[p as int].contains(i as usize),
        None => true,
    }
}

pub open spec fn child_entry_ok(par: Seq<Option<usize>>, ch: Seq<Seq<usize>>, i: int, k: int) -> bool {
    &&& ch[i][k] < par.len()
    &&& par[ch[i][k] as int] == Some(i as usize)
}

/// Parent and children tables describe the same edges: a node's parent lists
/// it as a child, every listed child points back at the listing node, no list
/// repeats a node, and the root (node 0) has no parent.
pub open spec fn links_wf(par: Seq<Option<usize>>, ch: Seq<Seq<usize>>) -> bool {
    &&& ch.len() == par.len()
    &&& par.len() >= 1
    &&& par[0] is None
    &&& forall|i: int| 0 <= i < par.len() ==> #[trigger] parent_entry_ok(par, ch, i)
    &&& forall|i: int, k: int|
        0 <= i < par.len() && 0 <= k < ch[i].len() ==> #[trigger] child_entry_ok(par, ch, i, k)
    &&& forall|i: int| 0 <= i < par.len() ==> (#[trigger] ch[i]).no_duplicates()
}

// ---------------------------------------------------------------------------
// Spec-level transitions of the structural operations.
// ---------------------------------------------------------------------------

/// The children tables after `c` is unlinked from its current parent's list
/// (no change when it has no parent).
pub open spec fn detach_children(
    ch: Seq<Seq<usize>>,
    par: Seq<Option<usize>>,
    c: usize,
) -> Seq<Seq<usize>> {
    match par[c as int] {
        Some(q) => ch.update(q as int, ch[q as int].remove(ch[q as int].index_of(c))),
        None => ch,
    }
}

/// The children tables after `c` is detached and then linked as the new last
/// child of `p`.
pub open spec fn append_child_children(
    ch: Seq<Seq<usize>>,
    par: Seq<Option<usize>>,
    p: usize,
    c: usize,
) -> Seq<Seq<usize>> {
    let ch1 = detach_children(ch, par, c);
    ch1.update(p as int, ch1[p as int].push(c))
}

/// The children tables after `c` is detached and then linked immediately
/// before `r` under `p`.
pub open spec fn insert_before_children(
    ch: Seq<Seq<usize>>,
    par: Seq<Option<usize>>,
    p: usize,
    c: usize,
    r: usize,
) -> Seq<Seq<usize>> {
    let ch1 = detach_children(ch, par, c);
    ch1.update(p as int, ch1[p as int].insert(ch1[p as int].index_of(r), c))
}

// ---------------------------------------------------------------------------
// The relationship table.
// ---------------------------------------------------------------------------

/// A namespace declaration as stored at an element: interned prefix and URI.
#[derive(Clone, Copy, PartialEq, Eq, Structural)]
pub struct NsBinding {
    pub prefix: usize,
    pub uri: usize,
}

/// The per-handle relationship table: parent, ordered children, attribute
/// set and namespace declarations of every node, kept apart from the node
/// payloads so that structural edits never touch stored content. This is the
/// only place where structure is mutated.
pub struct Connections {
    parent: Vec<Option<usize>>,
    children: Vec<Vec<usize>>,
    attrs: Vec<Vec<usize>>,
    decls: Vec<Vec<NsBinding>>,
    depth: Ghost<Seq<int>>,
}


/// The depth labelling a well-formed table carries: a parented node sits one
/// step deeper than its parent, a parentless node at depth zero.
pub proof fn lemma_wf_depth_at(c: &Connections, x: usize)
    requires
        c.wf(),
        x < c.len(),
    ensures
        c.depth_view()[x as int] >= 0,
        match c.parent_view()[x as int] {
            Some(q) => q < c.len() && c.depth_view()[x as int] == c.depth_view()[q as int] + 1,
            None => c.depth_view()[x as int] == 0,
        },
{
    assert(depth_step(c.parent_view(), c.depth_view(), x as int));
}

/// Order preservation: appending three detached nodes `c1`, `c2`, `c3` under
/// `p` (whose child list starts empty) lists them as `[c1, c2, c3]`, and then
/// inserting a detached `c4` before `c2` yields `[c1, c4, c2, c3]`. The
/// `append_child` and `insert_before` operations step the tables by exactly
/// these transitions.
pub proof fn lemma_order_preservation(
    par: Seq<Option<usize>>,
    ch: Seq<Seq<usize>>,
    p: usize,
    c1: usize,
    c2: usize,
    c3: usize,
    c4: usize,
)
    requires
        p < par.len(),
        ch.len() == par.len(),
        c1 < par.len() && c2 < par.len() && c3 < par.len() && c4 < par.len(),
        par[c1 as int] is None && par[c2 as int] is None && par[c3 as int] is None && par[c4 as int] is None,
        c1 != p && c2 != p && c3 != p && c4 != p,
        c1 != c2 && c1 != c3 && c2 != c3 && c4 != c1 && c4 != c2 && c4 != c3,
        ch[p as int] == Seq::<usize>::empty(),
    ensures
        ({
            let par1 = par.update(c1 as int, Some(p));
            let ch1 = append_child_children(ch, par, p, c1);
            let par2 = par1.update(c2 as int, Some(p));
            let ch2 = append_child_children(ch1, par1, p, c2);
            let par3 = par2.update(c3 as int, Some(p));
            let ch3 = append_child_children(ch2, par2, p, c3);
            let ch4 = insert_before_children(ch3, par3, p, c4, c2);
            ch3[p as int] == seq![c1, c2, c3] && ch4[p as int] == seq![c1, c4, c2, c3]
        }),
{
    let par1 = par.update(c1 as int, Some(p));
    let ch1 = append_child_children(ch, par, p, c1);
    let par2 = par1.update(c2 as int, Some(p));
    let ch2 = append_child_children(ch1, par1, p, c2);
    let par3 = par2.update(c3 as int, Some(p));
    let ch3 = append_child_children(ch2, par2, p, c3);
    let ch4 = insert_before_children(ch3, par3, p, c4, c2);
    assert(par1[c2 as int] is None);
    assert(par2[c3 as int] is None);
    assert(par3[c4 as int] is None);
    assert(ch1[p as int] =~= seq![c1]);
    assert(ch2[p as int] =~= seq![c1, c2]);
    assert(ch3[p as int] =~= seq![c1, c2, c3]);
    let row = ch3[p as int];
    let io = row.index_of(c2);
    assert(row[1] == c2);
    assert(row[io] == c2);
    assert(io == 1) by {
        if io == 0 {
            assert(row[0] == c1);
        }
        if io == 2 {
            assert(row[2] == c3);
        }
    }
    assert(ch4[p as int] == row.insert(1, c4));
    row.insert_ensures(1, c4);
    assert(ch4[p as int] =~= seq![c1, c4, c2, c3]);
}

/// Detach/reattach: removing `c` from under `p1` and appending it under a
/// different parent `p2` leaves `c` a child of `p2`, at the end of `p2`'s
/// list, and absent from `p1`'s children. The `remove_child` and
/// `append_child` operations step the tables by exactly these transitions.
pub proof fn lemma_detach_reattach(
    par: Seq<Option<usize>>,
    ch: Seq<Seq<usize>>,
    p1: usize,
    p2: usize,
    c: usize,
)
    requires
        links_wf(par, ch),
        c < par.len(),
        p1 < par.len(),
        p2 < par.len(),
        p1 != p2,
        par[c as int] == Some(p1),
    ensures
        ({
            let par1 = par.update(c as int, None::<usize>);
            let ch1 = detach_children(ch, par, c);
            let par2 = par1.update(c as int, Some(p2));
            let ch2 = append_child_children(ch1, par1, p2, c);
            &&& par2[c as int] == Some(p2)
            &&& !ch1[p1 as int].contains(c)
            &&& !ch2[p1 as int].contains(c)
            &&& ch2[p2 as int] == ch1[p2 as int].push(c)
        }),
{
    let par1 = par.update(c as int, None::<usize>);
    let ch1 = detach_children(ch, par, c);
    let par2 = par1.update(c as int, Some(p2));
    let ch2 = append_child_children(ch1, par1, p2, c);
    let row = ch[p1 as int];
    assert(parent_entry_ok(par, ch, c as int));
    assert(row.contains(c));
    let io = row.index_of(c);
    assert(row[io] == c);
    assert(row.no_duplicates());
    row.remove_ensures(io);
    let row1 = row.remove(io);
    assert(ch1[p1 as int] == row1);
    assert(!row1.contains(c)) by {
        if row1.contains(c) {
            let j = choose|j: int| 0 <= j < row1.len() && row1[j] == c;
            if j < io {
                assert(row[j] == c);
            } else {
                assert(row[j + 1] == c);
            }
        }
    }
    assert(par1[c as int] is None);
    assert(ch2[p1 as int] == ch1[p1 as int]);
    assert(ch2[p2 as int] == ch1[p2 as int].push(c));
}

/// The four per-node tables of a well-formed `Connections` have one row per
/// node each.
pub proof fn lemma_wf_lens(c: &Connections)
    requires
        c.wf(),
    ensures
        c.parent_view().len() == c.len(),
        c.children_view().len() == c.len(),
        c.attrs_view().len() == c.len(),
        c.decls_view().len() == c.len(),
{
}

/// The root, node 0, never has a parent.
pub proof fn lemma_wf_root_parentless(c: &Connections)
    requires
        c.wf(),
    ensures
        c.parent_view()[0] is None,
{
}

/// A node's recorded parent is itself a node of the table.
pub proof fn lemma_wf_parent_in_range(c: &Connections, x: usize)
    requires
        c.wf(),
        x < c.len(),
        c.parent_view()[x as int] is Some,
    ensures
        c.parent_view()[x as int]->Some_0 < c.len(),
{
    assert(parent_entry_ok(c.parent_view(), c.children_view(), x as int));
}

/// In a well-formed table every parent chain ends, at a parentless node, in
/// finitely many steps: the links can never form a cycle.
pub proof fn lemma_wf_chain_terminates(c: &Connections, x: usize)
    requires
        c.wf(),
        x < c.len(),
    ensures
        exists|f: nat| chain_ends(c.parent_view(), x, f),
{
    lemma_chain_terminates(c.parent_view(), c.depth_view(), x);
}

/// In a well-formed table the ancestor relation is antisymmetric: no two
/// distinct nodes are ancestors of one another.
pub proof fn lemma_wf_no_cycle(c: &Connections, x: usize, t: usize)
    requires
        c.wf(),
        x < c.len(),
        t < c.len(),
        reaches(c.parent_view(), x, t),
        reaches(c.parent_view(), t, x),
    ensures
        x == t,
{
    lemma_reaches_antisymmetric(c.parent_view(), c.depth_view(), x, t);
}

/// Find the position of `c` in `row`.
fn position_of(row: &Vec<usize>, c: usize) -> (k: usize)
    requires
        row@.contains(c),
    ensures
        k < row@.len(),
        row@[k as int] == c,
        forall|j: int| 0 <= j < k ==> row@[j] != c,
{
    let n = row.len();
    let mut k: usize = 0;
    while k < n
        invariant
            k <= n,
            n == row@.len(),
            row@.contains(c),
            forall|j: int| 0 <= j < k ==> row@[j] != c,
        decreases n - k,
    {
        if row[k] == c {
            return k;
        }
        k += 1;
    }
    proof {
        let w = choose|w: int| 0 <= w < row@.len() && row@[w] == c;
        assert(false);
    }
    0
}

impl Connections {
    pub closed spec fn parent_view(&self) -> Seq<Option<usize>> {
        self.parent@
    }

    pub closed spec fn children_view(&self) -> Seq<Seq<usize>> {
        self.children@.map_values(|v: Vec<usize>| v@)
    }

    pub closed spec fn attrs_view(&self) -> Seq<Seq<usize>> {
        self.attrs@.map_values(|v: Vec<usize>| v@)
    }

    pub closed spec fn decls_view(&self) -> Seq<Seq<NsBinding>> {
        self.decls@.map_values(|v: Vec<NsBinding>| v@)
    }

    pub closed spec fn depth_view(&self) -> Seq<int> {
        self.depth@
    }

    pub open spec fn len(&self) -> nat {
        self.parent_view().len()
    }

    pub closed spec fn wf(&self) -> bool {
        &&& links_wf(self.parent@, self.children_view())
        &&& depth_wf(self.parent@, self.depth@)
        &&& self.attrs@.len() == self.parent@.len()
        &&& self.decls@.len() == self.parent@.len()
    }

    /// A fresh table holding only the root's (empty) record.
    pub fn new() -> (r: Connections)
        ensures
            r.wf(),
            r.len() == 1,
            r.parent_view() =~= seq![None::<usize>],
            r.children_view() =~= seq![Seq::<usize>::empty()],
            r.attrs_view() =~= seq![Seq::<usize>::empty()],
            r.decls_view() =~= seq![Seq::<NsBinding>::empty()],
    {
        let mut parent: Vec<Option<usize>> = Vec::new();
        parent.push(None);
        let mut children: Vec<Vec<usize>> = Vec::new();
        children.push(Vec::new());
        let mut attrs: Vec<Vec<usize>> = Vec::new();
        attrs.push(Vec::new());
        let mut decls: Vec<Vec<NsBinding>> = Vec::new();
        decls.push(Vec::new());
        let ghost d0: Seq<int> = seq![0int];
        let r = Connections { parent, children, attrs, decls, depth: Ghost(d0) };
        proof {
            assert(r.children_view() =~= seq![Seq::<usize>::empty()]);
            assert(r.attrs_view() =~= seq![Seq::<usize>::empty()]);
            assert(r.decls_view() =~= seq![Seq::<NsBinding>::empty()]);
            assert forall|i: int| 0 <= i < 1 implies #[trigger] parent_entry_ok(
                r.parent@,
                r.children_view(),
                i,
            ) by {}
            assert forall|i: int| 0 <= i < 1 implies #[trigger] depth_step(r.parent@, r.depth@, i) by {}
        }
        r
    }

    /// Give a freshly created node its (empty) record.
    pub fn register_node(&mut self)
        requires
            old(self).wf(),
        ensures
            final(self).wf(),
            final(self).parent_view() == old(self).parent_view().push(None),
            final(self).children_view() == old(self).children_view().push(Seq::empty()),
            final(self).attrs_view() == old(self).attrs_view().push(Seq::empty()),
            final(self).decls_view() == old(self).decls_view().push(Seq::empty()),
    {
        self.parent.push(None);
        self.children.push(Vec::new());
        self.attrs.push(Vec::new());
        self.decls.push(Vec::new());
        proof {
            self.depth@ = self.depth@.push(0);
            assert(self.children_view() =~= old(self).children_view().push(Seq::empty()));
            assert(self.attrs_view() =~= old(self).attrs_view().push(Seq::empty()));
            assert(self.decls_view() =~= old(self).decls_view().push(Seq::empty()));
            let par2 = self.parent@;
            let ch2 = self.children_view();
            let n = old(self).parent@.len() as int;
            assert forall|i: int| 0 <= i < par2.len() implies #[trigger] parent_entry_ok(par2, ch2, i) by {
                if i < n {
                    assert(parent_entry_ok(old(self).parent@, old(self).children_view(), i));
                    match par2[i] {
                        Some(p) => {
                            assert(old(self).children_view()[p as int].contains(i as usize));
                            assert(ch2[p as int] == old(self).children_view()[p as int]);
                        },
                        None => {},
                    }
                }
            }
            assert forall|i: int, k: int|
                0 <= i < par2.len() && 0 <= k < ch2[i].len() implies #[trigger] child_entry_ok(
                par2,
                ch2,
                i,
                k,
            ) by {
                if i < n {
                    assert(child_entry_ok(old(self).parent@, old(self).children_view(), i, k));
                }
            }
            assert forall|i: int| 0 <= i < par2.len() implies (#[trigger] ch2[i]).no_duplicates() by {
                if i < n {
                    assert(old(self).children_view()[i].no_duplicates());
                    assert(ch2[i] == old(self).children_view()[i]);
                }
            }
            assert forall|i: int| 0 <= i < par2.len() implies #[trigger] depth_step(
                par2,
                self.depth@,
                i,
            ) by {
                if i < n {
                    assert(depth_step(old(self).parent@, old(self).depth@, i));
                }
            }
        }
    }

    pub fn parent_of(&self, x: usize) -> (r: Option<usize>)
        requires
            x < self.len(),
        ensures
            r == self.parent_view()[x as int],
    {
        self.parent[x]
    }

    /// Unlink `c` from its current parent, if it has one. Only the link table
    /// changes: `c`'s own subtree, attributes and declarations stay as they are.
    fn detach(&mut self, c: usize)
        requires
            old(self).wf(),
            c < old(self).len(),
        ensures
            final(self).wf(),
            final(self).len() == old(self).len(),
            final(self).parent_view() == old(self).parent_view().update(c as int, None::<usize>),
            final(self).children_view() == detach_children(
                old(self).children_view(),
                old(self).parent_view(),
                c,
            ),
            final(self).attrs_view() == old(self).attrs_view(),
            final(self).decls_view() == old(self).decls_view(),
    {
        let po = self.parent[c];
        match po {
            None => {
                proof {
                    assert(self.parent@ =~= self.parent@.update(c as int, None::<usize>));
                }
            },
            Some(q) => {
                let nlen = self.parent.len();
                let ghost par0 = self.parent@;
                let ghost ch0 = self.children_view();
                let ghost d0 = self.depth@;
                proof {
                    assert(par0.len() == nlen);
                    assert(parent_entry_ok(par0, ch0, c as int));
                    assert(ch0[q as int].contains(c));
                }
                let k = position_of(&self.children[q], c);
                proof {
                    assert(ch0[q as int][k as int] == c);
                    assert(ch0[q as int].no_duplicates());
                    let io = ch0[q as int].index_of(c);
                    assert(ch0[q as int][io] == c);
                    assert(io == k as int);
                    ch0[q as int].remove_ensures(k as int);
                }
                self.children[q].remove(k);
                self.parent[c] = None;
                proof {
                    self.depth@ = reparent_depth(par0, d0, c, None);
                    lemma_reparent_depth(par0, d0, c, None);
                    let par1 = self.parent@;
                    let ch1 = self.children_view();
                    let row0 = ch0[q as int];
                    let row1 = row0.remove(k as int);
                    assert(ch1 =~= ch0.update(q as int, row1));
                    assert(par1 == par0.update(c as int, None::<usize>));
                    assert(c != 0) by {
                        assert(par0[0] is None);
                    }
                    // the removed slot held the only occurrence of c
                    assert(forall|j: int| 0 <= j < row1.len() ==> row1[j] == (if j < k {
                        row0[j]
                    } else {
                        row0[j + 1]
                    }));
                    assert(forall|j: int| 0 <= j < row1.len() ==> row1[j] != c);
                    assert forall|i: int| 0 <= i < par1.len() implies #[trigger] parent_entry_ok(
                        par1,
                        ch1,
                        i,
                    ) by {
                        if i != c {
                            assert(parent_entry_ok(par0, ch0, i));
                            match par1[i] {
                                Some(p) => {
                                    assert(ch0[p as int].contains(i as usize));
                                    if p == q {
                                        let j = choose|j: int|
                                            0 <= j < row0.len() && row0[j] == i as usize;
                                        assert(j != k);
                                        if j < k {
                                            assert(row1[j] == i as usize);
                                        } else {
                                            assert(row1[j - 1] == i as usize);
                                        }
                                    } else {
                                        assert(ch1[p as int] == ch0[p as int]);
                                    }
                                },
                                None => {},
                            }
                        }
                    }
                    assert forall|i: int, kk: int|
                        0 <= i < par1.len() && 0 <= kk < ch1[i].len() implies #[trigger] child_entry_ok(
                        par1,
                        ch1,
                        i,
                        kk,
                    ) by {
                        if i == q {
                            let j0: int = if kk < k { kk } else { kk + 1 };
                            assert(ch1[i][kk] == row0[j0]);
                            assert(child_entry_ok(par0, ch0, i, j0));
                            assert(row0[j0] != c);
                        } else {
                            assert(ch1[i] == ch0[i]);
                            assert(child_entry_ok(par0, ch0, i, kk));
                            let v = ch0[i][kk];
                            assert(v != c) by {
                                if v == c {
                                    assert(par0[c as int] == Some(i as usize));
                                }
                            }
                        }
                    }
                    assert forall|i: int| 0 <= i < par1.len() implies (
                    #[trigger] ch1[i]).no_duplicates() by {
                        if i == q {
                            assert forall|a: int, b: int|
                                0 <= a < b < row1.len() implies row1[a] != row1[b] by {
                                let a0: int = if a < k { a } else { a + 1 };
                                let b0: int = if b < k { b } else { b + 1 };
                                assert(row1[a] == row0[a0] && row1[b] == row0[b0]);
                                assert(a0 < b0);
                                assert(row0.no_duplicates());
                            }
                            assert(row1.no_duplicates());
                        } else {
                            assert(ch1[i] == ch0[i]);
                            assert(ch0[i].no_duplicates());
                        }
                    }
                    assert(ch1 =~= detach_children(ch0, par0, c));
                }
            },
        }
    }

    /// Link the (currently parentless) node `c` as a child of `p`, at position
    /// `k` of `p`'s child list.
    fn attach_at(&mut self, p: usize, c: usize, k: usize)
        requires
            old(self).wf(),
            p < old(self).len(),
            c < old(self).len(),
            old(self).parent_view()[c as int] is None,
            c != 0,
            !reaches(old(self).parent_view(), p, c),
            k <= old(self).children_view()[p as int].len(),
        ensures
            final(self).wf(),
            final(self).len() == old(self).len(),
            final(self).parent_view() == old(self).parent_view().update(c as int, Some(p)),
            final(self).children_view() == old(self).children_view().update(
                p as int,
                old(self).children_view()[p as int].insert(k as int, c),
            ),
            final(self).attrs_view() == old(self).attrs_view(),
            final(self).decls_view() == old(self).decls_view(),
    {
        let nlen = self.parent.len();
        let ghost par0 = self.parent@;
        let ghost ch0 = self.children_view();
        let ghost d0 = self.depth@;
        proof {
            assert(par0.len() == nlen);
        }
        self.children[p].insert(k, c);
        self.parent[c] = Some(p);
        proof {
            self.depth@ = reparent_depth(par0, d0, c, Some(p));
            lemma_reparent_depth(par0, d0, c, Some(p));
            let par1 = self.parent@;
            let ch1 = self.children_view();
            let row0 = ch0[p as int];
            let row1 = row0.insert(k as int, c);
            row0.insert_ensures(k as int, c);
            assert(ch1 =~= ch0.update(p as int, row1));
            assert(par1 == par0.update(c as int, Some(p)));
            // c stands in no list while it has no parent
            assert forall|i: int, kk: int|
                0 <= i < par0.len() && 0 <= kk < ch0[i].len() implies ch0[i][kk] != c by {
                assert(child_entry_ok(par0, ch0, i, kk));
            }
            assert(forall|j: int| 0 <= j < row1.len() ==> row1[j] == (if j < k {
                row0[j]
            } else if j == k {
                c
            } else {
                row0[j - 1]
            }));
            assert forall|i: int| 0 <= i < par1.len() implies #[trigger] parent_entry_ok(
                par1,
                ch1,
                i,
            ) by {
                if i == c {
                    assert(row1[k as int] == c);
                    assert(ch1[p as int].contains(c));
                } else {
                    assert(parent_entry_ok(par0, ch0, i));
                    match par1[i] {
                        Some(pp) => {
                            assert(ch0[pp as int].contains(i as usize));
                            if pp == p {
                                let j = choose|j: int|
                                    0 <= j < row0.len() && row0[j] == i as usize;
                                if j < k {
                                    assert(row1[j] == i as usize);
                                } else {
                                    assert(row1[j + 1] == i as usize);
                                }
                                assert(ch1[pp as int].contains(i as usize));
                            } else {
                                assert(ch1[pp as int] == ch0[pp as int]);
                            }
                        },
                        None => {},
                    }
                }
            }
            assert forall|i: int, kk: int|
                0 <= i < par1.len() && 0 <= kk < ch1[i].len() implies #[trigger] child_entry_ok(
                par1,
                ch1,
                i,
                kk,
            ) by {
                if i == p {
                    if kk == k {
                        assert(ch1[i][kk] == c);
                    } else {
                        let j0: int = if kk < k { kk } else { kk - 1 };
                        assert(ch1[i][kk] == row0[j0]);
                        assert(child_entry_ok(par0, ch0, i, j0));
                        assert(row0[j0] != c);
                    }
                } else {
                    assert(ch1[i] == ch0[i]);
                    assert(child_entry_ok(par0, ch0, i, kk));
                    assert(ch0[i][kk] != c);
                }
            }
            assert forall|i: int| 0 <= i < par1.len() implies (#[trigger] ch1[i]).no_duplicates() by {
                if i == p {
                    assert forall|a: int, b: int|
                        0 <= a < b < row1.len() implies row1[a] != row1[b] by {
                        if a == k {
                            assert(row1[a] == c && row1[b] == row0[b - 1]);
                        } else if b == k {
                            assert(row1[b] == c && row1[a] == row0[a]);
                        } else {
                            let a0: int = if a < k { a } else { a - 1 };
                            let b0: int = if b < k { b } else { b - 1 };
                            assert(row1[a] == row0[a0] && row1[b] == row0[b0]);
                            assert(a0 < b0);
                            assert(row0.no_duplicates());
                        }
                    }
                    assert(row1.no_duplicates());
                } else {
                    assert(ch1[i] == ch0[i]);
                    assert(ch0[i].no_duplicates());
                }
            }
        }
    }

    /// Detach `c` from wherever it stands and relink it as the last child of
    /// `p`. Fails, changing nothing, when `c` is the root or is `p` itself or
    /// an ancestor of `p` (a cycle would form). On failure or success, every
    /// other link is untouched.
    pub fn append_child(&mut self, p: usize, c: usize) -> (r: Result<(), Error>)
        requires
            old(self).wf(),
            p < old(self).len(),
            c < old(self).len(),
        ensures
            final(self).wf(),
            final(self).len() == old(self).len(),
            final(self).attrs_view() == old(self).attrs_view(),
            final(self).decls_view() == old(self).decls_view(),
            match r {
                Ok(()) => {
                    &&& c != 0
                    &&& !reaches(old(self).parent_view(), p, c)
                    &&& final(self).parent_view() == old(self).parent_view().update(
                        c as int,
                        Some(p),
                    )
                    &&& final(self).children_view() == append_child_children(
                        old(self).children_view(),
                        old(self).parent_view(),
                        p,
                        c,
                    )
                },
                Err(e) => {
                    &&& e == Error::StructuralViolation
                    &&& (c == 0 || reaches(old(self).parent_view(), p, c))
                    &&& final(self).parent_view() == old(self).parent_view()
                    &&& final(self).children_view() == old(self).children_view()
                },
            },
    {
        if c == 0 {
            return Err(Error::StructuralViolation);
        }
        if self.reaches_upward(p, c) {
            return Err(Error::StructuralViolation);
        }
        let ghost par0 = self.parent@;
        let ghost ch0 = self.children_view();
        self.detach(c);
        proof {
            lemma_reaches_retarget(par0, self.parent@, p, c);
        }
        let row_len = self.children[p].len();
        self.attach_at(p, c, row_len);
        proof {
            let ch1 = detach_children(ch0, par0, c);
            assert(ch1[p as int].insert(ch1[p as int].len() as int, c) =~= ch1[p as int].push(c));
        }
        Ok(())
    }

    /// Detach `c` and relink it immediately before the node `r` under `p`.
    /// Fails, changing nothing, when `c` is the root, when a cycle would
    /// form, when `r` is not currently a child of `p`, or when `r` is `c`
    /// itself.
    pub fn insert_before(&mut self, p: usize, c: usize, r: usize) -> (res: Result<(), Error>)
        requires
            old(self).wf(),
            p < old(self).len(),
            c < old(self).len(),
            r < old(self).len(),
        ensures
            final(self).wf(),
            final(self).len() == old(self).len(),
            final(self).attrs_view() == old(self).attrs_view(),
            final(self).decls_view() == old(self).decls_view(),
            match res {
                Ok(()) => {
                    &&& c != 0
                    &&& r != c
                    &&& !reaches(old(self).parent_view(), p, c)
                    &&& old(self).parent_view()[r as int] == Some(p)
                    &&& final(self).parent_view() == old(self).parent_view().update(
                        c as int,
                        Some(p),
                    )
                    &&& final(self).children_view() == insert_before_children(
                        old(self).children_view(),
                        old(self).parent_view(),
                        p,
                        c,
                        r,
                    )
                },
                Err(e) => {
                    &&& e == Error::StructuralViolation
                    &&& (c == 0 || r == c || reaches(old(self).parent_view(), p, c) || old(
                        self,
                    ).parent_view()[r as int] != Some(p))
                    &&& final(self).parent_view() == old(self).parent_view()
                    &&& final(self).children_view() == old(self).children_view()
                },
            },
    {
        if c == 0 || r == c {
            return Err(Error::StructuralViolation);
        }
        match self.parent[r] {
            Some(pp) => {
                if pp != p {
                    return Err(Error::StructuralViolation);
                }
            },
            None => {
                return Err(Error::StructuralViolation);
            },
        }
        if self.reaches_upward(p, c) {
            return Err(Error::StructuralViolation);
        }
        let ghost par0 = self.parent@;
        let ghost ch0 = self.children_view();
        self.detach(c);
        proof {
            lemma_reaches_retarget(par0, self.parent@, p, c);
        }
        let ghost ch1 = detach_children(ch0, par0, c);
        proof {
            // r is still a child of p after the detach, since r != c
            assert(parent_entry_ok(self.parent@, self.children_view(), r as int));
            assert(self.parent@[r as int] == Some(p));
            assert(self.children_view()[p as int].contains(r));
        }
        // find r's position in p's current child list
        let k = position_of(&self.children[p], r);
        proof {
            let row = self.children_view()[p as int];
            assert(row[k as int] == r);
            assert(row.no_duplicates());
            let io = row.index_of(r);
            assert(row[io] == r);
            assert(io == k as int);
        }
        let ghost mid = *self;
        self.attach_at(p, c, k);
        proof {
            assert(mid.children_view() == ch1);
            assert(self.children_view() =~= insert_before_children(ch0, par0, p, c, r));
        }
        Ok(())
    }

    /// Unlink `c` from under `p`: `c`'s parent becomes none and it leaves
    /// `p`'s child list; `c`'s own subtree is untouched. Fails, changing
    /// nothing, when `c` is not currently a child of `p`.
    pub fn remove_child(&mut self, p: usize, c: usize) -> (r: Result<(), Error>)
        requires
            old(self).wf(),
            p < old(self).len(),
            c < old(self).len(),
        ensures
            final(self).wf(),
            final(self).len() == old(self).len(),
            final(self).attrs_view() == old(self).attrs_view(),
            final(self).decls_view() == old(self).decls_view(),
            match r {
                Ok(()) => {
                    &&& old(self).parent_view()[c as int] == Some(p)
                    &&& final(self).parent_view() == old(self).parent_view().update(
                        c as int,
                        None::<usize>,
                    )
                    &&& final(self).children_view() == detach_children(
                        old(self).children_view(),
                        old(self).parent_view(),
                        c,
                    )
                },
                Err(e) => {
                    &&& e == Error::StructuralViolation
                    &&& old(self).parent_view()[c as int] != Some(p)
                    &&& final(self).parent_view() == old(self).parent_view()
                    &&& final(self).children_view() == old(self).children_view()
                },
            },
    {
        match self.parent[c] {
            Some(pp) => {
                if pp != p {
                    return Err(Error::StructuralViolation);
                }
            },
            None => {
                return Err(Error::StructuralViolation);
            },
        }
        self.detach(c);
        Ok(())
    }

    pub fn num_children(&self, x: usize) -> (r: usize)
        requires
            self.wf(),
            x < self.len(),
        ensures
            r == self.children_view()[x as int].len(),
    {
        self.children[x].len()
    }

    pub fn child_at(&self, x: usize, k: usize) -> (r: usize)
        requires
            self.wf(),
            x < self.len(),
            k < self.children_view()[x as int].len(),
        ensures
            r == self.children_view()[x as int][k as int],
    {
        self.children[x][k]
    }

    pub fn num_attrs(&self, x: usize) -> (r: usize)
        requires
            self.wf(),
            x < self.len(),
        ensures
            r == self.attrs_view()[x as int].len(),
    {
        self.attrs[x].len()
    }

    pub fn attr_at(&self, x: usize, k: usize) -> (r: usize)
        requires
            self.wf(),
            x < self.len(),
            k < self.attrs_view()[x as int].len(),
        ensures
            r == self.attrs_view()[x as int][k as int],
    {
        self.attrs[x][k]
    }

    /// Register a freshly created attribute node on an element.
    pub fn push_attr(&mut self, x: usize, a: usize)
        requires
            old(self).wf(),
            x < old(self).len(),
        ensures
            final(self).wf(),
            final(self).len() == old(self).len(),
            final(self).parent_view() == old(self).parent_view(),
            final(self).children_view() == old(self).children_view(),
            final(self).decls_view() == old(self).decls_view(),
            final(self).attrs_view() == old(self).attrs_view().update(
                x as int,
                old(self).attrs_view()[x as int].push(a),
            ),
    {
        self.attrs[x].push(a);
        proof {
            assert(self.attrs_view() =~= old(self).attrs_view().update(
                x as int,
                old(self).attrs_view()[x as int].push(a),
            ));
        }
    }

    pub fn num_decls(&self, x: usize) -> (r: usize)
        requires
            self.wf(),
            x < self.len(),
        ensures
            r == self.decls_view()[x as int].len(),
    {
        self.decls[x].len()
    }

    pub fn decl_at(&self, x: usize, k: usize) -> (r: NsBinding)
        requires
            self.wf(),
            x < self.len(),
            k < self.decls_view()[x as int].len(),
        ensures
            r == self.decls_view()[x as int][k as int],
    {
        self.decls[x][k]
    }

    /// Record a namespace declaration on an element.
    pub fn push_decl(&mut self, x: usize, b: NsBinding)
        requires
            old(self).wf(),
            x < old(self).len(),
        ensures
            final(self).wf(),
            final(self).len() == old(self).len(),
            final(self).parent_view() == old(self).parent_view(),
            final(self).children_view() == old(self).children_view(),
            final(self).attrs_view() == old(self).attrs_view(),
            final(self).decls_view() == old(self).decls_view().update(
                x as int,
                old(self).decls_view()[x as int].push(b),
            ),
    {
        self.decls[x].push(b);
        proof {
            assert(self.decls_view() =~= old(self).decls_view().update(
                x as int,
                old(self).decls_view()[x as int].push(b),
            ));
        }
    }

    /// Replace one namespace declaration of an element in place.
    pub fn set_decl(&mut self, x: usize, k: usize, b: NsBinding)
        requires
            old(self).wf(),
            x < old(self).len(),
            k < old(self).decls_view()[x as int].len(),
        ensures
            final(self).wf(),
            final(self).len() == old(self).len(),
            final(self).parent_view() == old(self).parent_view(),
            final(self).children_view() == old(self).children_view(),
            final(self).attrs_view() == old(self).attrs_view(),
            final(self).decls_view() == old(self).decls_view().update(
                x as int,
                old(self).decls_view()[x as int].update(k as int, b),
            ),
    {
        self.decls[x][k] = b;
        proof {
            assert(self.decls_view() =~= old(self).decls_view().update(
                x as int,
                old(self).decls_view()[x as int].update(k as int, b),
            ));
        }
    }

    /// Whether `t` is `x` itself or one of `x`'s ancestors, decided by
    /// walking the parent chain upward from `x`.
    pub fn reaches_upward(&self, x: usize, t: usize) -> (r: bool)
        requires
            self.wf(),
            x < self.len(),
        ensures
            r == reaches(self.parent_view(), x, t),
    {
        let ghost par = self.parent@;
        let mut cur = x;
        loop
            invariant
                self.wf(),
                par == self.parent@,
                cur < self.len(),
                reaches(par, x, t) == reaches(par, cur, t),
            decreases self.depth@[cur as int],
        {
            if cur == t {
                proof {
                    assert(in_chain(par, cur, t, 0));
                }
                return true;
            }
            proof {
                assert(depth_step(par, self.depth@, cur as int));
            }
            match self.parent[cur] {
                Some(q) => {
                    proof {
                        assert(depth_step(par, self.depth@, q as int));
                        if reaches(par, cur, t) {
                            lemma_reaches_unfold(par, cur, t);
                        }
                        if reaches(par, q, t) {
                            lemma_reaches_fold(par, cur, q, t);
                        }
                    }
                    cur = q;
                },
                None => {
                    proof {
                        if reaches(par, cur, t) {
                            lemma_reaches_unfold(par, cur, t);
                        }
                    }
                    return false;
                },
            }
        }
    }
}

} // verus!
