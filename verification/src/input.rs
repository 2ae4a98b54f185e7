use std::collections::HashMap;
use std::collections::VecDeque;
use crate::file_buffer::FileBuffer;
use vstd::prelude::*;

verus! {

#[verifier::external_type_specification]
#[verifier::external_body]
pub struct ExIoError(std::io::Error);

/// A command that a key sequence can be bound to. It acts on the mode `M` the keys were
/// read in and on the file buffer, and may fail with an I/O error. Users of the library
/// supply the implementations; each says through `runs` what its calls may do.
pub trait Command<M> {
    /// A call may take the mode from `m0` to `m1` and the buffer's lines from `b0` to `b1`,
    /// returning `r`. An implementation that states nothing allows any such step.
    open spec fn runs(&self, m0: M, b0: Seq<Seq<char>>, m1: M, b1: Seq<Seq<char>>, r: Result<(), std::io::Error>) -> bool {
        true
    }

    /// Runs the command on `mode` and `buf`.
    fn call(&self, mode: &mut M, buf: &mut FileBuffer) -> (r: Result<(), std::io::Error>)
        ensures
            self.runs(*old(mode), old(buf)@, *final(mode), final(buf)@, r),
    ;
}

/// `ms` and `bs` are the modes and the buffers' lines that running the commands `cs` one
/// after the other passes through, each command succeeding: command `i` takes `ms[i]`
/// and `bs[i]` to `ms[i + 1]` and `bs[i + 1]`.
pub open spec fn is_run<M, C: Command<M>>(cs: Seq<C>, ms: Seq<M>, bs: Seq<Seq<Seq<char>>>) -> bool {
    &&& ms.len() == cs.len() + 1
    &&& bs.len() == cs.len() + 1
    &&& forall|i: int| 0 <= i < cs.len() ==> #[trigger] cs[i].runs(ms[i], bs[i], ms[i + 1], bs[i + 1], Ok(()))
}

/// Running the commands `cs` one after the other, each succeeding, may take the mode from
/// `m0` to `m1` and the buffer's lines from `b0` to `b1`.
pub open spec fn runs_in_order<M, C: Command<M>>(
    cs: Seq<C>,
    m0: M,
    b0: Seq<Seq<char>>,
    m1: M,
    b1: Seq<Seq<char>>,
) -> bool {
    exists|ms: Seq<M>, bs: Seq<Seq<Seq<char>>>|
        #[trigger] is_run(cs, ms, bs) && ms[0] == m0 && bs[0] == b0 && ms.last() == m1 && bs.last() == b1
}

/// Running the commands `cs` in order, stopping at the first that fails, may take the
/// mode from `m0` to `m1` and the buffer's lines from `b0` to `b1` and give `r`: `Ok`
/// where all succeeded, or the error of the first that failed, after those before it
/// succeeded and with no later one run.
pub open spec fn run_outcome<M, C: Command<M>>(
    cs: Seq<C>,
    m0: M,
    b0: Seq<Seq<char>>,
    m1: M,
    b1: Seq<Seq<char>>,
    r: Result<(), std::io::Error>,
) -> bool {
    match r {
        Ok(()) => runs_in_order(cs, m0, b0, m1, b1),
        Err(e) => exists|k: int, mm: M, bb: Seq<Seq<char>>|
            0 <= k < cs.len() && #[trigger] runs_in_order(cs.take(k), m0, b0, mm, bb) && cs[k].runs(
                mm,
                bb,
                m1,
                b1,
                Err(e),
            ),
    }
}

/// The outcome of reading a key sequence against a set of bindings.
pub enum ParseState<S, F> {
    /// No binding starts with the keys read.
    Failed(F),
    /// The keys read are the start of a binding, but bind nothing themselves.
    Unfinished,
    /// The keys read are bound.
    Success(S),
}

/// True when `p` is a prefix of `keys` (the empty sequence and `keys` itself included).
pub open spec fn is_prefix(p: Seq<u32>, keys: Seq<u32>) -> bool {
    p.len() <= keys.len() && keys.subrange(0, p.len() as int) == p
}

/// True when some key extends the node `p` of the trie `m` to another node.
pub open spec fn has_children<C>(m: Map<Seq<u32>, Seq<C>>, p: Seq<u32>) -> bool {
    exists|k: u32| m.dom().contains(#[trigger] p.push(k))
}

/// The trie with a bindings-free node added for every prefix of `keys` that lacks one.
pub open spec fn with_path<C>(m: Map<Seq<u32>, Seq<C>>, keys: Seq<u32>) -> Map<Seq<u32>, Seq<C>> {
    Map::new(
        |p: Seq<u32>| m.dom().contains(p) || is_prefix(p, keys),
        |p: Seq<u32>|
            if m.dom().contains(p) {
                m[p]
            } else {
                Seq::empty()
            },
    )
}

/// The trie after `c` is bound, last, to `keys`.
pub open spec fn add_binding<C>(m: Map<Seq<u32>, Seq<C>>, keys: Seq<u32>, c: C) -> Map<Seq<u32>, Seq<C>> {
    let m2 = with_path(m, keys);
    m2.insert(keys, m2[keys].push(c))
}

/// The trie after the first command bound to `keys` is dropped, where `keys` is non-empty,
/// has a node and binds something; the trie itself otherwise. Nodes are never dropped.
pub open spec fn remove_binding<C>(m: Map<Seq<u32>, Seq<C>>, keys: Seq<u32>) -> Map<Seq<u32>, Seq<C>> {
    if keys.len() > 0 && m.dom().contains(keys) && m[keys].len() > 0 {
        m.insert(keys, m[keys].drop_first())
    } else {
        m
    }
}

/// What reading `keys` against the trie `m` gives.
pub open spec fn lookup<C>(m: Map<Seq<u32>, Seq<C>>, keys: Seq<u32>) -> ParseState<Seq<C>, ()> {
    if !m.dom().contains(keys) {
        ParseState::Failed(())
    } else if m[keys].len() == 0 && !has_children(m, keys) {
        ParseState::Failed(())
    } else if m[keys].len() == 0 {
        ParseState::Unfinished
    } else {
        ParseState::Success(m[keys])
    }
}

/// The trie with nothing bound: its root alone.
pub open spec fn empty_trie<C>() -> Map<Seq<u32>, Seq<C>> {
    Map::empty().insert(Seq::empty(), Seq::empty())
}

/// A key sequence together with the command bound to it.
pub struct Parser<C> {
    keys: Vec<u32>,
    command: C,
}

impl<C> Parser<C> {
    /// The keys this parser binds.
    pub closed spec fn bound_keys(&self) -> Seq<u32> {
        self.keys@
    }

    /// The command this parser binds.
    pub closed spec fn bound_command(&self) -> C {
        self.command
    }

    /// A parser binding `c` to `ks`; `None` where `ks` is empty.
    pub fn new(ks: Vec<u32>, c: C) -> (r: Option<Parser<C>>)
        ensures
            match r {
                Some(p) => ks@.len() > 0 && p.bound_keys() == ks@ && p.bound_command() == c,
                None => ks@.len() == 0,
            },
    {
        if 0 < ks.len() {
            Some(Parser { keys: ks, command: c })
        } else {
            None
        }
    }
}

/// The trie after each parser of `ps`, in order, binds its command.
pub open spec fn add_bindings<C>(m: Map<Seq<u32>, Seq<C>>, ps: Seq<Parser<C>>) -> Map<Seq<u32>, Seq<C>>
    decreases ps.len(),
{
    if ps.len() == 0 {
        m
    } else {
        add_binding(add_bindings(m, ps.drop_last()), ps.last().bound_keys(), ps.last().bound_command())
    }
}

/// Binding `c` to `keys` makes `keys` bound, with `c` last among the commands there.
pub proof fn law_lookup_after_add<C>(m: Map<Seq<u32>, Seq<C>>, keys: Seq<u32>, c: C)
    ensures
        lookup(add_binding(m, keys, c), keys) == ParseState::<Seq<C>, ()>::Success(
            with_path(m, keys)[keys].push(c),
        ),
{
    assert(is_prefix(keys, keys)) by {
        assert(keys.subrange(0, keys.len() as int) =~= keys);
    }
}

/// After `c` is bound to `keys`, each proper prefix of `keys` that binds nothing itself
/// reads as unfinished.
pub proof fn law_prefix_unfinished<C>(m: Map<Seq<u32>, Seq<C>>, keys: Seq<u32>, c: C, n: int)
    requires
        0 <= n < keys.len(),
        m.dom().contains(keys.subrange(0, n)) ==> m[keys.subrange(0, n)].len() == 0,
    ensures
        lookup(add_binding(m, keys, c), keys.subrange(0, n)) is Unfinished,
{
    let p = keys.subrange(0, n);
    let m2 = add_binding(m, keys, c);
    assert(is_prefix(p, keys));
    assert(p != keys);
    let q = p.push(keys[n]);
    assert(q =~= keys.subrange(0, n + 1));
    assert(is_prefix(q, keys)) by {
        assert(keys.subrange(0, q.len() as int) =~= q);
    }
    assert(m2.dom().contains(q));
    assert(has_children(m2, p));
}

/// Binding `c` to `keys` changes the reading of no key sequence that is not a prefix of
/// `keys`.
pub proof fn law_add_keeps_other_lookups<C>(m: Map<Seq<u32>, Seq<C>>, keys: Seq<u32>, c: C, q: Seq<u32>)
    requires
        !is_prefix(q, keys),
    ensures
        lookup(add_binding(m, keys, c), q) == lookup(m, q),
{
    let m2 = add_binding(m, keys, c);
    assert(q != keys) by {
        if q == keys {
            assert(keys.subrange(0, keys.len() as int) =~= keys);
        }
    }
    assert(has_children(m2, q) == has_children(m, q)) by {
        if has_children(m2, q) {
            let k = choose|k: u32| m2.dom().contains(#[trigger] q.push(k));
            if is_prefix(q.push(k), keys) {
                let qk = q.push(k);
                assert(keys.subrange(0, qk.len() as int) == qk);
                assert(keys.subrange(0, q.len() as int) =~= qk.subrange(0, q.len() as int));
                assert(qk.subrange(0, q.len() as int) =~= q);
                assert(is_prefix(q, keys));
            }
            if q.push(k) == keys {
                assert(keys.subrange(0, q.len() as int) =~= q);
                assert(is_prefix(q, keys));
            }
            assert(with_path(m, keys).dom().contains(q.push(k)));
            assert(m.dom().contains(q.push(k)));
        }
        if has_children(m, q) {
            let k = choose|k: u32| m.dom().contains(#[trigger] q.push(k));
            assert(m2.dom().contains(q.push(k)));
        }
    }
}

/// Binding `c` to `keys` gives a node to each prefix of `keys` (and keeps every node),
/// puts `c` after the commands already bound at `keys`, and leaves the commands bound at
/// every other key sequence, the proper prefixes of `keys` among them, as they were.
pub proof fn law_add_binding<C>(m: Map<Seq<u32>, Seq<C>>, keys: Seq<u32>, c: C, p: Seq<u32>)
    ensures
        add_binding(m, keys, c).dom().contains(p) <==> (m.dom().contains(p) || is_prefix(p, keys)),
        p != keys && m.dom().contains(p) ==> add_binding(m, keys, c)[p] == m[p],
        p != keys && !m.dom().contains(p) && is_prefix(p, keys) ==> add_binding(m, keys, c)[p].len() == 0,
        m.dom().contains(keys) ==> add_binding(m, keys, c)[keys] == m[keys].push(c),
        !m.dom().contains(keys) ==> add_binding(m, keys, c)[keys] == seq![c],
{
    assert(is_prefix(keys, keys)) by {
        assert(keys.subrange(0, keys.len() as int) =~= keys);
    }
    assert(Seq::<C>::empty().push(c) =~= seq![c]);
}

/// A key sequence bound to something before another binding is added stays bound to the
/// same commands, whether or not it is a prefix of the new keys.
pub proof fn law_add_keeps_bound_lookups<C>(m: Map<Seq<u32>, Seq<C>>, keys: Seq<u32>, c: C, p: Seq<u32>)
    requires
        p != keys,
        m.dom().contains(p),
        m[p].len() > 0,
    ensures
        lookup(add_binding(m, keys, c), p) == lookup(m, p),
        lookup(m, p) == ParseState::<Seq<C>, ()>::Success(m[p]),
{
    law_add_binding(m, keys, c, p);
}

/// Dropping the binding of `keys` keeps every node, drops exactly the first command bound
/// at `keys` where `keys` is non-empty and bound, whatever is bound below it, and leaves
/// every other key sequence as it was.
pub proof fn law_remove_binding<C>(m: Map<Seq<u32>, Seq<C>>, keys: Seq<u32>, p: Seq<u32>)
    ensures
        remove_binding(m, keys).dom() == m.dom(),
        p != keys && m.dom().contains(p) ==> remove_binding(m, keys)[p] == m[p],
        keys.len() > 0 && m.dom().contains(keys) && m[keys].len() > 0 ==> remove_binding(m, keys)[keys]
            == m[keys].subrange(1, m[keys].len() as int),
        keys.len() == 0 || !m.dom().contains(keys) || m[keys].len() == 0 ==> remove_binding(m, keys) == m,
{
    if keys.len() > 0 && m.dom().contains(keys) && m[keys].len() > 0 {
        assert(remove_binding(m, keys).dom() =~= m.dom());
    }
}

/// Adding a list of bindings adds each in turn: the list with one more parser is the list,
/// then that parser's binding.
pub proof fn law_add_bindings_push<C>(m: Map<Seq<u32>, Seq<C>>, ps: Seq<Parser<C>>, p: Parser<C>)
    ensures
        add_bindings(m, ps.push(p)) == add_binding(add_bindings(m, ps), p.bound_keys(), p.bound_command()),
{
    assert(ps.push(p).drop_last() =~= ps);
}

/// After a list of bindings is added, the keys of each parser lead to a node where its
/// command is bound, and what was bound before stays bound.
pub proof fn law_add_bindings_binds_all<C>(m: Map<Seq<u32>, Seq<C>>, ps: Seq<Parser<C>>)
    ensures
        forall|i: int|
            0 <= i < ps.len() ==> add_bindings(m, ps).dom().contains(#[trigger] ps[i].bound_keys())
                && add_bindings(m, ps)[ps[i].bound_keys()].contains(ps[i].bound_command()),
        forall|q: Seq<u32>, c: C|
            m.dom().contains(q) && #[trigger] m[q].contains(c) ==> add_bindings(m, ps).dom().contains(q)
                && add_bindings(m, ps)[q].contains(c),
    decreases ps.len(),
{
    if ps.len() > 0 {
        let front = ps.drop_last();
        let last = ps.last();
        let a = add_bindings(m, front);
        law_add_bindings_binds_all(m, front);
        let keys = last.bound_keys();
        let c = last.bound_command();
        assert(add_bindings(m, ps) == add_binding(a, keys, c));
        assert forall|q: Seq<u32>, d: C| a.dom().contains(q) && #[trigger] a[q].contains(d) implies add_binding(
            a,
            keys,
            c,
        ).dom().contains(q) && add_binding(a, keys, c)[q].contains(d) by {
            law_add_binding(a, keys, c, q);
            if q == keys {
                let t = choose|t: int| 0 <= t < a[q].len() && a[q][t] == d;
                assert(a[q].push(c)[t] == d);
            }
        }
        law_add_binding(a, keys, c, keys);
        assert(add_binding(a, keys, c)[keys].last() == c);
        assert(add_binding(a, keys, c)[keys].contains(c));
        assert forall|i: int| 0 <= i < ps.len() implies add_bindings(m, ps).dom().contains(
            #[trigger] ps[i].bound_keys(),
        ) && add_bindings(m, ps)[ps[i].bound_keys()].contains(ps[i].bound_command()) by {
            if i < ps.len() - 1 {
                assert(front[i] == ps[i]);
                assert(a.dom().contains(front[i].bound_keys()) && a[front[i].bound_keys()].contains(front[i].bound_command()));
            }
        }
        assert forall|q: Seq<u32>, d: C| m.dom().contains(q) && #[trigger] m[q].contains(d) implies add_bindings(
            m,
            ps,
        ).dom().contains(q) && add_bindings(m, ps)[q].contains(d) by {
            assert(a.dom().contains(q) && a[q].contains(d));
        }
    }
}

/// Commands bound to the same keys come out first in, first out: dropping the first after
/// binding one more is binding it after dropping the first.
pub proof fn law_bindings_fifo<C>(m: Map<Seq<u32>, Seq<C>>, keys: Seq<u32>, c: C)
    requires
        keys.len() > 0,
        m.dom().contains(keys),
        m[keys].len() > 0,
    ensures
        remove_binding(add_binding(m, keys, c), keys) == add_binding(remove_binding(m, keys), keys, c),
{
    let lhs = remove_binding(add_binding(m, keys, c), keys);
    let rhs = add_binding(remove_binding(m, keys), keys, c);
    assert(m[keys].push(c).drop_first() =~= m[keys].drop_first().push(c));
    assert(lhs =~= rhs);
}

/// One line of a printed trie: its indentation depth, the key that leads to the node (none
/// for the node printing starts from), and how many commands are bound at the node.
pub struct TreeLine {
    pub depth: usize,
    pub key: Option<u32>,
    pub commands: usize,
}

/// The line printed for the node at `p` of `m` when printing starts at depth `depth`: the
/// root's line has no key; a node `n` keys below it is indented `depth + n - 1`.
pub open spec fn tree_line<C>(m: Map<Seq<u32>, Seq<C>>, p: Seq<u32>, depth: int) -> TreeLine {
    TreeLine {
        depth: (if p.len() == 0 {
            depth
        } else {
            depth + p.len() - 1
        }) as usize,
        key: if p.len() == 0 {
            None
        } else {
            Some(p.last())
        },
        commands: m[p].len() as usize,
    }
}

/// The lines printed for the nodes `ps`, in order.
pub open spec fn tree_lines<C>(m: Map<Seq<u32>, Seq<C>>, ps: Seq<Seq<u32>>, depth: int) -> Seq<TreeLine> {
    ps.map_values(|p: Seq<u32>| tree_line(m, p, depth))
}

/// The line printed for a node gives the number of commands bound there, the key that
/// leads to it (none for the root) and its depth below the root, from `depth`.
pub proof fn law_tree_line<C>(m: Map<Seq<u32>, Seq<C>>, p: Seq<u32>, depth: int)
    requires
        m[p].len() <= usize::MAX,
        0 <= depth,
        depth + p.len() <= usize::MAX,
    ensures
        tree_line(m, p, depth).commands == m[p].len(),
        p.len() == 0 ==> tree_line(m, p, depth).key is None && tree_line(m, p, depth).depth == depth,
        p.len() > 0 ==> tree_line(m, p, depth).key == Some(p[p.len() - 1]) && tree_line(m, p, depth).depth
            == depth + p.len() - 1,
{
}

/// `ps` lists the nodes of `m` at and below `root` depth first: `root` first, every such
/// node once, each after its parent, and the nodes below any node right after it.
pub open spec fn is_preorder<C>(ps: Seq<Seq<u32>>, root: Seq<u32>, m: Map<Seq<u32>, Seq<C>>) -> bool {
    &&& ps.len() > 0
    &&& ps[0] == root
    &&& ps.no_duplicates()
    &&& forall|q: Seq<u32>| #[trigger] ps.contains(q) <==> (m.dom().contains(q) && is_prefix(root, q))
    &&& forall|j: int| 0 < j < ps.len() ==> ps.subrange(0, j).contains(#[trigger] ps[j].drop_last())
    &&& forall|i: int, j: int, l: int|
        #![trigger ps[i], ps[j], ps[l]]
        0 <= i < j < l < ps.len() && is_prefix(ps[i], ps[l]) ==> is_prefix(ps[i], ps[j])
}

/// `ps` lists `root` and, depth first, the nodes below `root` reached through the keys
/// `done`.
spec fn is_partial_preorder<C>(ps: Seq<Seq<u32>>, root: Seq<u32>, m: Map<Seq<u32>, Seq<C>>, done: Seq<u32>) -> bool {
    &&& ps.len() > 0
    &&& ps[0] == root
    &&& ps.no_duplicates()
    &&& forall|q: Seq<u32>|
        #[trigger] ps.contains(q) <==> (m.dom().contains(q) && is_prefix(root, q) && (q == root || done.contains(
            q[root.len() as int],
        )))
    &&& forall|j: int| 0 < j < ps.len() ==> ps.subrange(0, j).contains(#[trigger] ps[j].drop_last())
    &&& forall|i: int, j: int, l: int|
        #![trigger ps[i], ps[j], ps[l]]
        0 <= i < j < l < ps.len() && is_prefix(ps[i], ps[l]) ==> is_prefix(ps[i], ps[j])
}

/// The nodes below `root.push(k)` are those below `root` whose next key is `k`.
proof fn lemma_prefix_push(root: Seq<u32>, k: u32, q: Seq<u32>)
    ensures
        is_prefix(root.push(k), q) <==> (is_prefix(root, q) && q.len() > root.len() && q[root.len() as int] == k),
{
    if is_prefix(root.push(k), q) {
        assert(q.subrange(0, root.len() as int) =~= q.subrange(0, root.len() + 1int).subrange(0, root.len() as int));
        assert(root.push(k).subrange(0, root.len() as int) =~= root);
        assert(q[root.len() as int] == q.subrange(0, root.len() + 1int)[root.len() as int]);
    }
    if is_prefix(root, q) && q.len() > root.len() && q[root.len() as int] == k {
        assert(q.subrange(0, root.len() + 1int) =~= root.push(k));
    }
}

/// A block listing the nodes below a new child, depth first, extends a partial listing.
proof fn lemma_append_block<C>(
    ps: Seq<Seq<u32>>,
    root: Seq<u32>,
    m: Map<Seq<u32>, Seq<C>>,
    done: Seq<u32>,
    k: u32,
    block: Seq<Seq<u32>>,
)
    requires
        is_partial_preorder(ps, root, m, done),
        !done.contains(k),
        is_preorder(block, root.push(k), m),
    ensures
        is_partial_preorder(ps + block, root, m, done.push(k)),
{
    let all = ps + block;
    let n = ps.len() as int;
    let child = root.push(k);
    assert forall|t: int| 0 <= t < block.len() implies #[trigger] is_prefix(child, block[t]) by {
        assert(block.contains(block[t]));
    }
    // Members of `ps` other than `root` continue `root` with a key of `done`.
    assert forall|t: int| 0 < t < n implies {
        &&& is_prefix(root, #[trigger] ps[t])
        &&& ps[t] != root
        &&& done.contains(ps[t][root.len() as int])
    } by {
        assert(ps.contains(ps[t]));
        assert(ps[0] == root);
    }
    assert forall|t: int| 0 <= t < block.len() implies {
        &&& is_prefix(root, #[trigger] block[t])
        &&& block[t].len() > root.len()
        &&& block[t][root.len() as int] == k
    } by {
        lemma_prefix_push(root, k, block[t]);
    }
    // Distinct.
    assert forall|a: int, b: int| 0 <= a < all.len() && 0 <= b < all.len() && a != b implies all[a]
        != all[b] by {
        if a < n && b < n {
        } else if a >= n && b >= n {
            assert(all[a] == block[a - n]);
            assert(all[b] == block[b - n]);
        } else {
            let (x, y) = if a < n { (a, b) } else { (b, a) };
            assert(all[y] == block[y - n]);
            if x == 0 {
                assert(all[y].len() > root.len());
            } else {
                assert(done.contains(ps[x][root.len() as int]));
            }
        }
    }
    // Membership.
    assert forall|q: Seq<u32>| #[trigger] all.contains(q) <==> (m.dom().contains(q) && is_prefix(root, q) && (q
        == root || done.push(k).contains(q[root.len() as int]))) by {
        lemma_prefix_push(root, k, q);
        if all.contains(q) {
            let t = choose|t: int| 0 <= t < all.len() && all[t] == q;
            if t < n {
                assert(ps.contains(q));
                if q != root {
                    let di = choose|di: int| 0 <= di < done.len() && done[di] == q[root.len() as int];
                    assert(done.push(k)[di] == done[di]);
                }
            } else {
                assert(block[t - n] == q);
                assert(block.contains(q));
                assert(done.push(k)[done.len() as int] == k);
            }
        }
        if m.dom().contains(q) && is_prefix(root, q) && (q == root || done.push(k).contains(q[root.len() as int])) {
            if q == root || done.contains(q[root.len() as int]) {
                assert(ps.contains(q));
                let t = choose|t: int| 0 <= t < n && ps[t] == q;
                assert(all[t] == q);
            } else {
                let di = choose|di: int| 0 <= di < done.len() + 1 && done.push(k)[di] == q[root.len() as int];
                if di < done.len() {
                    assert(done[di] == done.push(k)[di]);
                }
                assert(q[root.len() as int] == k);
                assert(q.len() > root.len()) by {
                    if q.len() == root.len() {
                        assert(q =~= root);
                    }
                }
                assert(is_prefix(child, q));
                assert(block.contains(q));
                let t = choose|t: int| 0 <= t < block.len() && block[t] == q;
                assert(all[t + n] == q);
            }
        }
    }
    // Parents come first.
    assert forall|j: int| 0 < j < all.len() implies all.subrange(0, j).contains(#[trigger] all[j].drop_last()) by {
        if j < n {
            assert(all.subrange(0, j) =~= ps.subrange(0, j));
            assert(all[j] == ps[j]);
        } else if j == n {
            assert(all[j] == block[0]);
            assert(block[0].drop_last() =~= root);
            assert(all.subrange(0, j)[0] == root);
        } else {
            assert(all[j] == block[j - n]);
            assert(block.subrange(0, j - n).contains(block[j - n].drop_last()));
            let t = choose|t: int| 0 <= t < j - n && #[trigger] block.subrange(0, j - n)[t] == block[j - n].drop_last();
            assert(all.subrange(0, j)[t + n] == block[t]);
        }
    }
    // Each node's descendants follow it without a gap.
    assert forall|i: int, j: int, l: int|
        #![trigger all[i], all[j], all[l]]
        0 <= i < j < l < all.len() && is_prefix(all[i], all[l]) implies is_prefix(all[i], all[j]) by {
        if l < n {
            assert(all[i] == ps[i] && all[j] == ps[j] && all[l] == ps[l]);
        } else if i >= n {
            assert(all[i] == block[i - n] && all[j] == block[j - n] && all[l] == block[l - n]);
        } else {
            assert(all[l] == block[l - n]);
            if i == 0 {
                assert(all[i] == root);
                if j < n {
                    assert(all[j] == ps[j]);
                    if j > 0 {
                        assert(is_prefix(root, ps[j]));
                    } else {
                        assert(root.subrange(0, root.len() as int) =~= root);
                    }
                } else {
                    assert(all[j] == block[j - n]);
                }
            } else {
                // A node below another child cannot have a node below `child` below it.
                assert(all[i] == ps[i]);
                let x = ps[i];
                assert(is_prefix(root, x) && x != root);
                assert(x.len() > root.len()) by {
                    if x.len() == root.len() {
                        assert(x =~= root);
                    }
                }
                assert(block[l - n][root.len() as int] == k);
                assert(x[root.len() as int] == block[l - n][root.len() as int]) by {
                    assert(block[l - n].subrange(0, x.len() as int) == x);
                    assert(block[l - n].subrange(0, x.len() as int)[root.len() as int] == block[l - n][root.len() as int]);
                }
                assert(false);
            }
        }
    }
}

/// One more key of `keys` adds at most one node, for the longer prefix.
proof fn lemma_with_path_step<C>(m: Map<Seq<u32>, Seq<C>>, keys: Seq<u32>, i: int)
    requires
        0 <= i < keys.len(),
    ensures
        ({
            let before = with_path(m, keys.subrange(0, i));
            let q = keys.subrange(0, i + 1);
            with_path(m, q) == if before.dom().contains(q) {
                before
            } else {
                before.insert(q, Seq::empty())
            }
        }),
{
    let before = with_path(m, keys.subrange(0, i));
    let q = keys.subrange(0, i + 1);
    assert forall|p: Seq<u32>| is_prefix(p, q) <==> (is_prefix(p, keys.subrange(0, i)) || p == q) by {
        if is_prefix(p, q) && p.len() <= i {
            assert(keys.subrange(0, i).subrange(0, p.len() as int) =~= q.subrange(0, p.len() as int));
        }
        if is_prefix(p, keys.subrange(0, i)) {
            assert(keys.subrange(0, i).subrange(0, p.len() as int) =~= q.subrange(0, p.len() as int));
        }
        if is_prefix(p, q) && p.len() == i + 1 {
            assert(q.subrange(0, p.len() as int) =~= q);
        }
        if p == q {
            assert(q.subrange(0, p.len() as int) =~= q);
        }
    }
    if before.dom().contains(q) {
        assert(with_path(m, q) =~= before);
    } else {
        assert(with_path(m, q) =~= before.insert(q, Seq::empty()));
    }
}

struct Node<C> {
    commands: VecDeque<C>,
    children: HashMap<u32, usize>,
}

/// A trie from key sequences to the commands bound to them, in the order they were bound.
/// The nodes are held in a vector; node 0 is the root, and each node records its children
/// by key. `paths` gives the key sequence that leads to each node, `parents` its parent.
pub struct ParserTree<C> {
    nodes: Vec<Node<C>>,
    paths: Ghost<Seq<Seq<u32>>>,
    parents: Ghost<Seq<int>>,
}

impl<C> ParserTree<C> {
    /// The nodes form a tree rooted at node 0 whose edges agree with `paths`.
    pub closed spec fn wf(&self) -> bool {
        let n = self.nodes.len() as int;
        &&& n >= 1
        &&& self.paths@.len() == n
        &&& self.parents@.len() == n
        &&& self.paths@[0] == Seq::<u32>::empty()
        &&& forall|i: int, j: int|
            0 <= i < n && 0 <= j < n && i != j ==> #[trigger] self.paths@[i] != #[trigger] self.paths@[j]
        &&& forall|i: int, k: u32|
            0 <= i < n && #[trigger] self.nodes@[i].children@.contains_key(k) ==> {
                let j = self.nodes@[i].children@[k] as int;
                &&& 0 < j < n
                &&& i < j
                &&& self.paths@[j] == self.paths@[i].push(k)
            }
        &&& forall|j: int|
            0 < j < n ==> {
                let i = #[trigger] self.parents@[j];
                &&& 0 <= i < n
                &&& self.paths@[j].len() > 0
                &&& self.paths@[i] == self.paths@[j].drop_last()
                &&& self.nodes@[i].children@.contains_key(self.paths@[j].last())
                &&& self.nodes@[i].children@[self.paths@[j].last()] == j
            }
    }

    spec fn has_path(&self, p: Seq<u32>) -> bool {
        exists|j: int| 0 <= j < self.nodes.len() && self.paths@[j] == p
    }

    spec fn index_of(&self, p: Seq<u32>) -> int {
        choose|j: int| 0 <= j < self.nodes.len() && self.paths@[j] == p
    }

    proof fn lemma_view_node(&self, j: int)
        requires
            self.wf(),
            0 <= j < self.nodes.len(),
        ensures
            self@.dom().contains(self.paths@[j]),
            self@[self.paths@[j]] == self.nodes@[j].commands@,
    {
        assert(self.has_path(self.paths@[j]));
        let i = self.index_of(self.paths@[j]);
        assert(self.paths@[i] == self.paths@[j]);
    }

    /// Node `j` has a child by `k` exactly when the trie has a node at its path extended by `k`.
    proof fn lemma_child(&self, j: int, k: u32)
        requires
            self.wf(),
            0 <= j < self.nodes.len(),
        ensures
            self.nodes@[j].children@.contains_key(k) <==> self@.dom().contains(self.paths@[j].push(k)),
    {
        if self.nodes@[j].children@.contains_key(k) {
            self.lemma_view_node(self.nodes@[j].children@[k] as int);
        }
        if self@.dom().contains(self.paths@[j].push(k)) {
            let c = self.index_of(self.paths@[j].push(k));
            assert(self.paths@[c] == self.paths@[j].push(k));
            assert(c != 0) by {
                assert(self.paths@[c].len() > 0);
            }
            let i = self.parents@[c];
            assert(self.paths@[c].drop_last() =~= self.paths@[j]);
            assert(self.paths@[c].last() == k);
            assert(i == j);
        }
    }

    /// A trie with its root alone, binding nothing.
    pub fn new() -> (t: ParserTree<C>)
        ensures
            t.wf(),
            t@ == empty_trie::<C>(),
    {
        let mut nodes: Vec<Node<C>> = Vec::new();
        nodes.push(Node { commands: VecDeque::new(), children: HashMap::new() });
        let ghost paths: Seq<Seq<u32>> = seq![Seq::<u32>::empty()];
        let ghost parents: Seq<int> = seq![0int];
        let t = ParserTree { nodes, paths: Ghost(paths), parents: Ghost(parents) };
        proof {
            t.lemma_view_node(0);
            assert forall|p: Seq<u32>| t@.dom().contains(p) <==> empty_trie::<C>().dom().contains(p) by {
                if t@.dom().contains(p) {
                    let j = t.index_of(p);
                    assert(j == 0);
                }
            }
            assert(t@ =~= empty_trie::<C>());
        }
        t
    }

    /// Follows `keys` from the root: the commands bound to them, or whether they lead
    /// anywhere further.
    pub fn get_commands_at(&self, keys: &[u32]) -> (r: ParseState<&VecDeque<C>, ()>)
        requires
            self.wf(),
        ensures
            match r {
                ParseState::Success(cmds) => lookup(self@, keys@) == ParseState::<Seq<C>, ()>::Success(cmds@),
                ParseState::Unfinished => lookup(self@, keys@) is Unfinished,
                ParseState::Failed(_) => lookup(self@, keys@) is Failed,
            },
    {
        let mut cur: usize = 0;
        let mut i: usize = 0;
        while i < keys.len()
            invariant
                self.wf(),
                i <= keys@.len(),
                cur < self.nodes.len(),
                self.paths@[cur as int] == keys@.subrange(0, i as int),
            decreases keys@.len() - i,
        {
            let k = keys[i];
            proof {
                assert(keys@.subrange(0, i as int).push(k) =~= keys@.subrange(0, i + 1));
                self.lemma_child(cur as int, k);
            }
            match self.nodes[cur].children.get(&k) {
                None => {
                    proof {
                        if self@.dom().contains(keys@) {
                            self.lemma_prefix_closed(keys@, i + 1);
                        }
                    }
                    return ParseState::Failed(());
                },
                Some(next) => {
                    cur = *next;
                },
            }
            i = i + 1;
        }
        proof {
            assert(keys@.subrange(0, i as int) =~= keys@);
            self.lemma_view_node(cur as int);
            self.lemma_children_len(cur as int);
        }
        let node = &self.nodes[cur];
        if node.commands.len() == 0 && node.children.len() == 0 {
            ParseState::Failed(())
        } else if node.commands.len() == 0 {
            ParseState::Unfinished
        } else {
            ParseState::Success(&node.commands)
        }
    }

    /// Binds the parser's command, after any already bound, to its keys, adding a node
    /// for each prefix of the keys that lacks one.
    pub fn add(&mut self, parser: Parser<C>)
        requires
            old(self).wf(),
        ensures
            final(self).wf(),
            final(self)@ == add_binding(old(self)@, parser.bound_keys(), parser.bound_command()),
    {
        let Parser { keys, command } = parser;
        let ghost m0 = self@;
        let mut cur: usize = 0;
        let mut i: usize = 0;
        proof {
            self.lemma_view_node(0);
            assert(keys@.subrange(0, 0) =~= Seq::<u32>::empty());
            assert forall|p: Seq<u32>| is_prefix(p, Seq::<u32>::empty()) implies m0.dom().contains(p) by {
                assert(p =~= Seq::<u32>::empty());
            }
            assert(with_path(m0, keys@.subrange(0, 0)) =~= m0);
        }
        while i < keys.len()
            invariant
                self.wf(),
                i <= keys@.len(),
                cur < self.nodes.len(),
                self.paths@[cur as int] == keys@.subrange(0, i as int),
                self@ == with_path(m0, keys@.subrange(0, i as int)),
            decreases keys@.len() - i,
        {
            let k = keys[i];
            let ghost q = keys@.subrange(0, i + 1);
            proof {
                assert(keys@.subrange(0, i as int).push(k) =~= q);
                self.lemma_child(cur as int, k);
                lemma_with_path_step(m0, keys@, i as int);
            }
            let found = match self.nodes[cur].children.get(&k) {
                Some(next) => Some(*next),
                None => None,
            };
            match found {
                Some(next) => {
                    cur = next;
                },
                None => {
                    let n = self.nodes.len();
                    self.push_child(cur, k);
                    cur = n;
                },
            }
            i = i + 1;
        }
        proof {
            assert(keys@.subrange(0, i as int) =~= keys@);
            self.lemma_view_node(cur as int);
        }
        let ghost before = *self;
        self.nodes[cur].commands.push_back(command);
        proof {
            self.lemma_commands_update(before, cur as int);
        }
    }

    /// Adds, as node `cur`'s child by `k`, a new node that binds nothing.
    fn push_child(&mut self, cur: usize, k: u32)
        requires
            old(self).wf(),
            cur < old(self).nodes.len(),
            !old(self).nodes@[cur as int].children@.contains_key(k),
        ensures
            final(self).wf(),
            final(self).nodes.len() == old(self).nodes.len() + 1,
            final(self).paths@[old(self).nodes.len() as int] == old(self).paths@[cur as int].push(k),
            final(self)@ == old(self)@.insert(old(self).paths@[cur as int].push(k), Seq::empty()),
    {
        let ghost pre = *self;
        let ghost q = self.paths@[cur as int].push(k);
        let n = self.nodes.len();
        proof {
            self.lemma_child(cur as int, k);
            assert forall|j: int| 0 <= j < n implies self.paths@[j] != q by {
                if self.paths@[j] == q {
                    self.lemma_view_node(j);
                }
            }
        }
        self.nodes.push(Node { commands: VecDeque::new(), children: HashMap::new() });
        proof {
            self.paths@ = self.paths@.push(q);
            self.parents@ = self.parents@.push(cur as int);
        }
        self.nodes[cur].children.insert(k, n);
        proof {
            let nn = n as int;
            assert forall|j: int| 0 <= j < nn implies #[trigger] self.nodes@[j].commands@ == pre.nodes@[j].commands@ by {}
            assert forall|i: int, k2: u32|
                0 <= i < nn + 1 && #[trigger] self.nodes@[i].children@.contains_key(k2) implies {
                    let j = self.nodes@[i].children@[k2] as int;
                    &&& 0 < j < nn + 1
                    &&& i < j
                    &&& self.paths@[j] == self.paths@[i].push(k2)
                } by {
                if i == cur && k2 != k {
                    assert(pre.nodes@[i].children@.contains_key(k2));
                }
            }
            assert forall|j: int| 0 < j < nn + 1 implies {
                let i = #[trigger] self.parents@[j];
                &&& 0 <= i < nn + 1
                &&& self.paths@[j].len() > 0
                &&& self.paths@[i] == self.paths@[j].drop_last()
                &&& self.nodes@[i].children@.contains_key(self.paths@[j].last())
                &&& self.nodes@[i].children@[self.paths@[j].last()] == j
            } by {
                if j == nn {
                    assert(q.drop_last() =~= pre.paths@[cur as int]);
                } else {
                    let i = pre.parents@[j];
                    if i == cur {
                        assert(pre.nodes@[i].children@.contains_key(pre.paths@[j].last()));
                    }
                }
            }
            assert(self.wf());
            assert forall|p: Seq<u32>|
                #[trigger] self@.dom().contains(p) <==> pre@.insert(q, Seq::empty()).dom().contains(p) by {
                if self@.dom().contains(p) {
                    let j = self.index_of(p);
                    if j < nn {
                        pre.lemma_view_node(j);
                    }
                }
                if pre@.dom().contains(p) {
                    let j = pre.index_of(p);
                    self.lemma_view_node(j);
                }
                if p == q {
                    self.lemma_view_node(nn);
                }
            }
            assert forall|p: Seq<u32>| #[trigger] self@.dom().contains(p) implies self@[p]
                == pre@.insert(q, Seq::empty())[p] by {
                let j = self.index_of(p);
                self.lemma_view_node(j);
                if j < nn {
                    pre.lemma_view_node(j);
                }
            }
            assert(self@ =~= pre@.insert(q, Seq::empty()));
        }
    }

    /// After node `j`'s commands alone change, the trie changes at the path of `j` alone.
    proof fn lemma_commands_update(&self, pre: Self, j: int)
        requires
            pre.wf(),
            0 <= j < pre.nodes.len(),
            self.nodes.len() == pre.nodes.len(),
            self.paths == pre.paths,
            self.parents == pre.parents,
            forall|i: int| 0 <= i < self.nodes.len() ==> #[trigger] self.nodes@[i].children == pre.nodes@[i].children,
            forall|i: int| 0 <= i < self.nodes.len() && i != j ==> #[trigger] self.nodes@[i].commands == pre.nodes@[i].commands,
        ensures
            self.wf(),
            self@ == pre@.insert(pre.paths@[j], self.nodes@[j].commands@),
    {
        assert(self.wf());
        let q = pre.paths@[j];
        assert forall|p: Seq<u32>|
            #[trigger] self@.dom().contains(p) <==> pre@.insert(q, self.nodes@[j].commands@).dom().contains(p) by {
            if self@.dom().contains(p) {
                let i = self.index_of(p);
                pre.lemma_view_node(i);
            }
            if pre@.dom().contains(p) {
                let i = pre.index_of(p);
                self.lemma_view_node(i);
            }
            if p == q {
                self.lemma_view_node(j);
            }
        }
        assert forall|p: Seq<u32>| #[trigger] self@.dom().contains(p) implies self@[p]
            == pre@.insert(q, self.nodes@[j].commands@)[p] by {
            let i = self.index_of(p);
            self.lemma_view_node(i);
            pre.lemma_view_node(i);
        }
        assert(self@ =~= pre@.insert(q, self.nodes@[j].commands@));
    }

    /// Drops the first command bound to `keys`, where the keys are non-empty, lead to a
    /// node and something is bound there. Nodes are never dropped.
    pub fn remove(&mut self, keys: &Vec<u32>)
        requires
            old(self).wf(),
        ensures
            final(self).wf(),
            final(self)@ == remove_binding(old(self)@, keys@),
    {
        let mut cur: usize = 0;
        let mut i: usize = 0;
        while i < keys.len()
            invariant
                self.wf(),
                i <= keys@.len(),
                cur < self.nodes.len(),
                self.paths@[cur as int] == keys@.subrange(0, i as int),
                self@ == old(self)@,
                keys@.len() > 0 ==> i < keys@.len(),
            decreases keys@.len() - i,
        {
            let k = keys[i];
            proof {
                assert(keys@.subrange(0, i as int).push(k) =~= keys@.subrange(0, i + 1));
                self.lemma_child(cur as int, k);
            }
            let found = match self.nodes[cur].children.get(&k) {
                Some(next) => Some(*next),
                None => None,
            };
            match found {
                None => {
                    proof {
                        if self@.dom().contains(keys@) {
                            self.lemma_prefix_closed(keys@, i + 1);
                        }
                    }
                    return;
                },
                Some(next) => {
                    proof {
                        self.lemma_view_node(next as int);
                        self.lemma_children_len(next as int);
                    }
                    if self.nodes[next].commands.len() == 0 && self.nodes[next].children.len() == 0 {
                        // A node with nothing bound and no children: nothing to drop, here
                        // or below it.
                        proof {
                            if i + 1 < keys@.len() && self@.dom().contains(keys@) {
                                self.lemma_prefix_closed(keys@, i + 2);
                                assert(keys@.subrange(0, i + 2) =~= keys@.subrange(0, i + 1).push(keys@[i + 1]));
                            }
                            if i + 1 == keys@.len() {
                                assert(keys@.subrange(0, i + 1) =~= keys@);
                            }
                        }
                        return;
                    } else if keys.len() - 1 == i {
                        proof {
                            assert(keys@.subrange(0, i + 1) =~= keys@);
                        }
                        let ghost before = *self;
                        let _ = self.nodes[next].commands.pop_front();
                        proof {
                            self.lemma_commands_update(before, next as int);
                            assert(self@ =~= remove_binding(old(self)@, keys@));
                        }
                        return;
                    } else {
                        cur = next;
                    }
                },
            }
            i = i + 1;
        }
    }

    /// True when something is bound at the root.
    pub fn is_finished(&self) -> (r: bool)
        requires
            self.wf(),
        ensures
            r == (self@[Seq::empty()].len() != 0),
    {
        proof {
            self.lemma_view_node(0);
        }
        self.nodes[0].commands.len() != 0
    }

    /// True when nothing is bound at the root and it has no children.
    pub fn is_empty(&self) -> (r: bool)
        requires
            self.wf(),
        ensures
            r == (self@[Seq::empty()].len() == 0 && !has_children(self@, Seq::empty())),
    {
        proof {
            self.lemma_view_node(0);
            self.lemma_children_len(0);
        }
        self.nodes[0].commands.len() == 0 && self.nodes[0].children.len() == 0
    }

    /// Binds `c`, after any already bound, at the root.
    pub fn add_command(&mut self, c: C)
        requires
            old(self).wf(),
        ensures
            final(self).wf(),
            final(self)@ == old(self)@.insert(Seq::empty(), old(self)@[Seq::empty()].push(c)),
    {
        proof {
            self.lemma_view_node(0);
        }
        let ghost before = *self;
        self.nodes[0].commands.push_back(c);
        proof {
            self.lemma_commands_update(before, 0);
        }
    }

    /// Adds the parsers' bindings one after the other, in order.
    pub fn add_all(&mut self, parsers: Vec<Parser<C>>)
        requires
            old(self).wf(),
        ensures
            final(self).wf(),
            final(self)@ == add_bindings(old(self)@, parsers@),
    {
        let ghost m0 = self@;
        let ghost all = parsers@;
        let mut rest = parsers;
        let total: usize = rest.len();
        let mut done: usize = 0;
        proof {
            assert(all.subrange(0, 0) =~= Seq::<Parser<C>>::empty());
            assert(rest@ =~= all.subrange(0, all.len() as int));
        }
        while 0 < rest.len()
            invariant
                self.wf(),
                done <= all.len(),
                all.len() == total,
                rest@ == all.subrange(done as int, all.len() as int),
                self@ == add_bindings(m0, all.subrange(0, done as int)),
            decreases rest@.len(),
        {
            assert(rest@.len() == all.len() - done);
            let p = rest.remove(0);
            proof {
                assert(p == all[done as int]);
                assert(all.subrange(0, done + 1).drop_last() =~= all.subrange(0, done as int));
            }
            self.add(p);
            done = done + 1;
            proof {
                assert(rest@ =~= all.subrange(done as int, all.len() as int));
            }
        }
        proof {
            assert(all.subrange(0, done as int) =~= all);
        }
    }

    /// The trie always has its root, and every prefix of a key sequence that leads to a
    /// node leads to a node too.
    pub proof fn lemma_trie_shape(&self)
        requires
            self.wf(),
        ensures
            self@.dom().contains(Seq::empty()),
            forall|p: Seq<u32>, n: int|
                #![trigger self@.dom().contains(p), p.subrange(0, n)]
                self@.dom().contains(p) && 0 <= n <= p.len() ==> self@.dom().contains(p.subrange(0, n)),
    {
        self.lemma_view_node(0);
        assert forall|p: Seq<u32>, n: int| self@.dom().contains(p) && 0 <= n <= p.len() implies self@.dom().contains(
            p.subrange(0, n),
        ) by {
            self.lemma_prefix_closed(p, n);
        }
    }

    /// A binding added for keys that led nowhere, then removed, leaves those keys reading
    /// as failed again.
    pub proof fn law_remove_undoes_fresh_add(&self, keys: Seq<u32>, c: C)
        requires
            self.wf(),
            keys.len() > 0,
            !self@.dom().contains(keys),
        ensures
            lookup(self@, keys) is Failed,
            lookup(remove_binding(add_binding(self@, keys, c), keys), keys) is Failed,
    {
        let m = self@;
        let m2 = add_binding(m, keys, c);
        let m3 = remove_binding(m2, keys);
        assert(is_prefix(keys, keys)) by {
            assert(keys.subrange(0, keys.len() as int) =~= keys);
        }
        assert(m3[keys] =~= Seq::<C>::empty());
        if has_children(m3, keys) {
            let k = choose|k: u32| m3.dom().contains(#[trigger] keys.push(k));
            if m.dom().contains(keys.push(k)) {
                self.lemma_prefix_closed(keys.push(k), keys.len() as int);
                assert(keys.push(k).subrange(0, keys.len() as int) =~= keys);
            }
            assert(!is_prefix(keys.push(k), keys));
        }
    }

    /// The lines that print the trie depth first from its root, as a tree indented from
    /// `depth`: the root's line first, then for each child of a node, in the order its
    /// children are stored, the child's line and the lines below it.
    pub fn print_children(&self, depth: usize) -> (r: Vec<TreeLine>)
        requires
            self.wf(),
            forall|q: Seq<u32>| #[trigger] self@.dom().contains(q) ==> depth + q.len() <= usize::MAX,
        ensures
            exists|ps: Seq<Seq<u32>>|
                {
                    &&& is_preorder(ps, Seq::empty(), self@)
                    &&& r@ == tree_lines(self@, ps, depth as int)
                    &&& r@.len() == ps.len()
                    &&& forall|i: int| 0 <= i < ps.len() ==> #[trigger] r@[i].commands == self@[ps[i]].len()
                },
    {
        let mut out: Vec<TreeLine> = Vec::new();
        let ps = self.lines_below(0, depth, depth, None, &mut out, Ghost(depth as int));
        proof {
            assert(out@ =~= tree_lines(self@, ps@, depth as int));
            assert forall|i: int| 0 <= i < ps@.len() implies #[trigger] out@[i].commands == self@[ps@[i]].len() by {
                assert(ps@.contains(ps@[i]));
                self.lemma_count_fits(ps@[i]);
                law_tree_line(self@, ps@[i], depth as int);
            }
        }
        out
    }

    /// The number of commands bound at a node fits in a `usize`.
    proof fn lemma_count_fits(&self, p: Seq<u32>)
        requires
            self.wf(),
            self@.dom().contains(p),
        ensures
            self@[p].len() <= usize::MAX,
    {
        let j = self.index_of(p);
        self.lemma_view_node(j);
        assert(self.nodes@[j].commands@.len() == self.nodes@[j].commands.len());
    }

    /// Appends the lines of node `j` and, depth first, of the nodes below it; hands back the
    /// nodes' paths in the order their lines come.
    fn lines_below(
        &self,
        j: usize,
        depth: usize,
        indent: usize,
        key: Option<u32>,
        out: &mut Vec<TreeLine>,
        Ghost(d0): Ghost<int>,
    ) -> (ps: Ghost<Seq<Seq<u32>>>)
        requires
            self.wf(),
            j < self.nodes.len(),
            depth == d0 + self.paths@[j as int].len(),
            indent == tree_line(self@, self.paths@[j as int], d0).depth,
            key == tree_line(self@, self.paths@[j as int], d0).key,
            forall|q: Seq<u32>| #[trigger] self@.dom().contains(q) ==> d0 + q.len() <= usize::MAX,
        ensures
            is_preorder(ps@, self.paths@[j as int], self@),
            final(out)@ == old(out)@ + tree_lines(self@, ps@, d0),
        decreases self.nodes.len() - j,
    {
        let ghost m = self@;
        let ghost root = self.paths@[j as int];
        proof {
            self.lemma_view_node(j as int);
        }
        out.push(TreeLine { depth: indent, key, commands: self.nodes[j].commands.len() });
        let ghost mut ps: Seq<Seq<u32>> = seq![root];
        let ghost out0 = old(out)@;
        let children = &self.nodes[j].children;
        let ghost keys_all = vstd::std_specs::iter::IteratorSpec::remaining(
            &vstd::std_specs::hash::spec_keys_iter(children),
        ).unref();
        proof {
            broadcast use vstd::std_specs::hash::axiom_spec_keys_iter;

            assert(out@ =~= out0 + tree_lines(m, ps, d0));
            assert forall|q: Seq<u32>| #[trigger] ps.contains(q) <==> (m.dom().contains(q) && is_prefix(root, q) && (q
                == root || keys_all.take(0).contains(q[root.len() as int]))) by {
                if q == root {
                    assert(ps[0] == q);
                    assert(root.subrange(0, root.len() as int) =~= root);
                }
                if ps.contains(q) {
                    let t = choose|t: int| 0 <= t < ps.len() && ps[t] == q;
                    assert(t == 0);
                }
            }
            assert(is_partial_preorder(ps, root, m, keys_all.take(0)));
        }
        for k in iter: children.keys()
            invariant
                self.wf(),
                j < self.nodes.len(),
                m == self@,
                root == self.paths@[j as int],
                depth == d0 + root.len(),
                forall|q: Seq<u32>| #[trigger] self@.dom().contains(q) ==> d0 + q.len() <= usize::MAX,
                iter.seq().unref() == keys_all,
                iter.index() <= keys_all.len(),
                keys_all.no_duplicates(),
                children == &self.nodes@[j as int].children,
                keys_all.to_set() == children@.dom(),
                is_partial_preorder(ps, root, m, keys_all.take(iter.index() as int)),
                out@ == out0 + tree_lines(m, ps, d0),
        {
            let ghost idx = iter.index();
            let key_here: u32 = *k;
            proof {
                assert(keys_all[idx] == key_here);
                assert(keys_all.to_set().contains(key_here));
                self.lemma_child(j as int, key_here);
            }
            let c: usize = match children.get(k) {
                Some(c) => *c,
                None => 0,
            };
            proof {
                self.lemma_view_node(c as int);
                assert(self.paths@[c as int] == root.push(key_here));
                assert(m.dom().contains(root.push(key_here)));
                assert(d0 + root.push(key_here).len() <= usize::MAX);
                assert(!keys_all.take(idx).contains(key_here)) by {
                    if keys_all.take(idx).contains(key_here) {
                        let t = choose|t: int| 0 <= t < idx && keys_all.take(idx)[t] == key_here;
                        assert(keys_all[t] == keys_all[idx]);
                    }
                }
            }
            let child_ps = self.lines_below(c, depth + 1, depth, Some(key_here), out, Ghost(d0));
            proof {
                lemma_append_block(ps, root, m, keys_all.take(idx), key_here, child_ps@);
                assert(keys_all.take(idx).push(key_here) =~= keys_all.take(idx + 1));
                assert(tree_lines(m, ps + child_ps@, d0) =~= tree_lines(m, ps, d0) + tree_lines(m, child_ps@, d0));
                ps = ps + child_ps@;
            }
        }
        proof {
            assert(keys_all.take(keys_all.len() as int) =~= keys_all);
            assert forall|q: Seq<u32>| #[trigger] ps.contains(q) <==> (m.dom().contains(q) && is_prefix(root, q)) by {
                if m.dom().contains(q) && is_prefix(root, q) && q != root {
                    assert(q.len() > root.len()) by {
                        if q.len() == root.len() {
                            assert(q =~= root);
                        }
                    }
                    let kq = q[root.len() as int];
                    self.lemma_prefix_closed(q, root.len() + 1int);
                    assert(q.subrange(0, root.len() + 1int) =~= root.push(kq));
                    self.lemma_child(j as int, kq);
                    assert(keys_all.to_set().contains(kq));
                    assert(keys_all.contains(kq));
                }
            }
        }
        Ghost(ps)
    }

    /// Node `j` has some child exactly when its path has children in the trie.
    proof fn lemma_children_len(&self, j: int)
        requires
            self.wf(),
            0 <= j < self.nodes.len(),
        ensures
            self.nodes@[j].children@.len() == 0 <==> !has_children(self@, self.paths@[j]),
    {
        let m = self.nodes@[j].children@;
        assert(m.dom().finite());
        if m.len() == 0 {
            assert(m.dom() =~= Set::<u32>::empty());
            if has_children(self@, self.paths@[j]) {
                let k = choose|k: u32| self@.dom().contains(#[trigger] self.paths@[j].push(k));
                self.lemma_child(j, k);
                assert(m.dom().contains(k));
            }
        } else {
            let k = m.dom().choose();
            assert(m.dom().contains(k));
            self.lemma_child(j, k);
            assert(self@.dom().contains(self.paths@[j].push(k)));
        }
    }

    /// Every prefix of a path of the trie is a path of the trie.
    proof fn lemma_prefix_closed(&self, p: Seq<u32>, n: int)
        requires
            self.wf(),
            self@.dom().contains(p),
            0 <= n <= p.len(),
        ensures
            self@.dom().contains(p.subrange(0, n)),
        decreases p.len() - n,
    {
        if n < p.len() {
            let c = self.index_of(p);
            assert(self.paths@[c] == p);
            assert(c != 0);
            let i = self.parents@[c];
            self.lemma_view_node(i);
            assert(self.paths@[i] == p.drop_last());
            self.lemma_prefix_closed(p.drop_last(), n);
            assert(p.drop_last().subrange(0, n) =~= p.subrange(0, n));
        } else {
            assert(p.subrange(0, n) =~= p);
        }
    }
}

impl<C> View for ParserTree<C> {
    type V = Map<Seq<u32>, Seq<C>>;

    /// Each key sequence that leads to a node, mapped to the commands bound there.
    closed spec fn view(&self) -> Map<Seq<u32>, Seq<C>> {
        Map::new(
            |p: Seq<u32>| self.has_path(p),
            |p: Seq<u32>| self.nodes@[self.index_of(p)].commands@,
        )
    }
}


/// Reads keys one at a time and, on request, runs the commands they are bound to.
pub struct InputParser<C> {
    input_buf: Vec<u32>,
    parser: ParserTree<C>,
}

impl<C> InputParser<C> {
    /// The trie of bindings is well formed.
    pub closed spec fn wf(&self) -> bool {
        self.parser.wf()
    }

    /// The keys read since the last reset, oldest first.
    pub closed spec fn pending(&self) -> Seq<u32> {
        self.input_buf@
    }

    /// The trie of bindings.
    pub closed spec fn bindings(&self) -> Map<Seq<u32>, Seq<C>> {
        self.parser@
    }

    /// A parser with no keys read and the bindings of `parsers`, in order.
    pub fn new(parsers: Vec<Parser<C>>) -> (r: InputParser<C>)
        ensures
            r.wf(),
            r.pending() == Seq::<u32>::empty(),
            r.bindings() == add_bindings(empty_trie::<C>(), parsers@),
    {
        let mut parser_tree = ParserTree::new();
        parser_tree.add_all(parsers);
        InputParser { input_buf: Vec::new(), parser: parser_tree }
    }

    /// Adds the bindings of `parsers`, in order.
    pub fn add_all(&mut self, parsers: Vec<Parser<C>>)
        requires
            old(self).wf(),
        ensures
            final(self).wf(),
            final(self).pending() == old(self).pending(),
            final(self).bindings() == add_bindings(old(self).bindings(), parsers@),
    {
        self.parser.add_all(parsers)
    }

    /// Reads `key`.
    pub fn accept(&mut self, key: u32)
        ensures
            final(self).wf() == old(self).wf(),
            final(self).pending() == old(self).pending().push(key),
            final(self).bindings() == old(self).bindings(),
    {
        self.input_buf.push(key);
    }

    /// Reads `keys`, in order.
    pub fn accept_all(&mut self, keys: Vec<u32>)
        ensures
            final(self).wf() == old(self).wf(),
            final(self).pending() == old(self).pending() + keys@,
            final(self).bindings() == old(self).bindings(),
    {
        let mut i: usize = 0;
        while i < keys.len()
            invariant
                i <= keys@.len(),
                self.wf() == old(self).wf(),
                self.pending() == old(self).pending() + keys@.subrange(0, i as int),
                self.bindings() == old(self).bindings(),
            decreases keys@.len() - i,
        {
            self.accept(keys[i]);
            i = i + 1;
            proof {
                assert(old(self).pending() + keys@.subrange(0, i as int) =~= old(self).pending()
                    + keys@.subrange(0, i - 1).push(keys@[i - 1]));
            }
        }
        proof {
            assert(keys@.subrange(0, i as int) =~= keys@);
        }
    }

    /// Looks `keys` up. Where they are bound, runs the commands bound to them in order on
    /// `mode` and `buf`, stopping at the first that fails, and forgets the keys read once
    /// all have run. Where they lead nowhere, forgets the keys read and hands them back.
    pub fn lookup_with<M>(&mut self, mode: &mut M, buf: &mut FileBuffer, keys: &[u32]) -> (r: Result<
        ParseState<(), Vec<u32>>,
        std::io::Error,
    >) where C: Command<M>
        requires
            old(self).wf(),
        ensures
            final(self).wf(),
            final(self).bindings() == old(self).bindings(),
            match r {
                Ok(ParseState::Success(())) => {
                    &&& lookup(old(self).bindings(), keys@) is Success
                    &&& run_outcome(old(self).bindings()[keys@], *old(mode), old(buf)@, *final(mode), final(buf)@, Ok(()))
                    &&& final(self).pending() == Seq::<u32>::empty()
                },
                Ok(ParseState::Unfinished) => {
                    &&& lookup(old(self).bindings(), keys@) is Unfinished
                    &&& *final(mode) == *old(mode)
                    &&& final(buf)@ == old(buf)@
                    &&& final(self).pending() == old(self).pending()
                },
                Ok(ParseState::Failed(read)) => {
                    &&& lookup(old(self).bindings(), keys@) is Failed
                    &&& *final(mode) == *old(mode)
                    &&& final(buf)@ == old(buf)@
                    &&& read@ == old(self).pending()
                    &&& final(self).pending() == Seq::<u32>::empty()
                },
                Err(e) => {
                    &&& lookup(old(self).bindings(), keys@) is Success
                    &&& run_outcome(old(self).bindings()[keys@], *old(mode), old(buf)@, *final(mode), final(buf)@, Err(e))
                    &&& final(self).pending() == old(self).pending()
                },
            },
    {
        let result = self.parser.get_commands_at(keys);
        match result {
            ParseState::Failed(()) => Ok(ParseState::Failed(self.reset())),
            ParseState::Unfinished => Ok(ParseState::Unfinished),
            ParseState::Success(commands) => {
                let ghost cs = commands@;
                let ghost m0 = *mode;
                let ghost b0 = buf@;
                let ghost mut ms: Seq<M> = seq![m0];
                let ghost mut bs: Seq<Seq<Seq<char>>> = seq![b0];
                proof {
                    assert(is_run(cs.take(0), ms, bs));
                }
                let mut i: usize = 0;
                while i < commands.len()
                    invariant
                        i <= commands@.len(),
                        cs == commands@,
                        cs == old(self).bindings()[keys@],
                        m0 == *old(mode),
                        b0 == old(buf)@,
                        self.wf(),
                        self.bindings() == old(self).bindings(),
                        self.pending() == old(self).pending(),
                        lookup(old(self).bindings(), keys@) is Success,
                        is_run(cs.take(i as int), ms, bs),
                        ms[0] == m0,
                        bs[0] == b0,
                        ms.last() == *mode,
                        bs.last() == buf@,
                    decreases commands@.len() - i,
                {
                    let cmd = &commands[i];
                    proof {
                        assert(*cmd == cs[i as int]);
                    }
                    let res = cmd.call(mode, buf);
                    match res {
                        Ok(u) => {
                            proof {
                                assert(res == Ok::<(), std::io::Error>(u));
                                assert(u == ());
                                let ms2 = ms.push(*mode);
                                let bs2 = bs.push(buf@);
                                let next = cs.take(i + 1);
                                assert forall|j: int| 0 <= j < next.len() implies #[trigger] next[j].runs(
                                    ms2[j],
                                    bs2[j],
                                    ms2[j + 1],
                                    bs2[j + 1],
                                    Ok(()),
                                ) by {
                                    if j < i {
                                        assert(cs.take(i as int)[j] == next[j]);
                                        assert(cs.take(i as int)[j].runs(ms[j], bs[j], ms[j + 1], bs[j + 1], Ok(())));
                                    }
                                }
                                assert(is_run(next, ms2, bs2));
                                ms = ms2;
                                bs = bs2;
                            }
                        },
                        Err(e) => {
                            proof {
                                assert(runs_in_order(cs.take(i as int), m0, b0, ms.last(), bs.last()));
                                assert(run_outcome(cs, m0, b0, *mode, buf@, Err(e)));
                            }
                            return Err(e);
                        },
                    }
                    i = i + 1;
                }
                proof {
                    assert(cs.take(i as int) =~= cs);
                    assert(runs_in_order(cs, m0, b0, *mode, buf@));
                }
                self.reset();
                Ok(ParseState::Success(()))
            },
        }
    }

    /// Looks up the keys read since the last reset, as `lookup_with` does.
    pub fn lookup<M>(&mut self, mode: &mut M, buf: &mut FileBuffer) -> (r: Result<
        ParseState<(), Vec<u32>>,
        std::io::Error,
    >) where C: Command<M>
        requires
            old(self).wf(),
        ensures
            final(self).wf(),
            final(self).bindings() == old(self).bindings(),
            match r {
                Ok(ParseState::Success(())) => {
                    &&& lookup(old(self).bindings(), old(self).pending()) is Success
                    &&& run_outcome(old(self).bindings()[old(self).pending()], *old(mode), old(buf)@, *final(mode), final(buf)@, Ok(()))
                    &&& final(self).pending() == Seq::<u32>::empty()
                },
                Ok(ParseState::Unfinished) => {
                    &&& lookup(old(self).bindings(), old(self).pending()) is Unfinished
                    &&& *final(mode) == *old(mode)
                    &&& final(buf)@ == old(buf)@
                    &&& final(self).pending() == old(self).pending()
                },
                Ok(ParseState::Failed(read)) => {
                    &&& lookup(old(self).bindings(), old(self).pending()) is Failed
                    &&& *final(mode) == *old(mode)
                    &&& final(buf)@ == old(buf)@
                    &&& read@ == old(self).pending()
                    &&& final(self).pending() == Seq::<u32>::empty()
                },
                Err(e) => {
                    &&& lookup(old(self).bindings(), old(self).pending()) is Success
                    &&& run_outcome(old(self).bindings()[old(self).pending()], *old(mode), old(buf)@, *final(mode), final(buf)@, Err(e))
                    &&& final(self).pending() == old(self).pending()
                },
            },
    {
        let keys = self.input_buf.clone();
        self.lookup_with(mode, buf, keys.as_slice())
    }

    /// Drops the first command bound to `keys`, as `ParserTree::remove` does.
    pub fn remove(&mut self, keys: &Vec<u32>)
        requires
            old(self).wf(),
        ensures
            final(self).wf(),
            final(self).pending() == old(self).pending(),
            final(self).bindings() == remove_binding(old(self).bindings(), keys@),
    {
        self.parser.remove(keys)
    }

    /// The keys read since the last reset.
    pub fn pending_keys(&self) -> (r: &Vec<u32>)
        ensures
            r@ == self.pending(),
    {
        &self.input_buf
    }

    /// Forgets the keys read, handing them back.
    pub fn reset(&mut self) -> (r: Vec<u32>)
        ensures
            r@ == old(self).pending(),
            final(self).wf() == old(self).wf(),
            final(self).pending() == Seq::<u32>::empty(),
            final(self).bindings() == old(self).bindings(),
    {
        let r = self.input_buf.clone();
        self.input_buf.clear();
        r
    }
}

} // verus!
