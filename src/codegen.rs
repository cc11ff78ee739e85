//! Generation: a buffer field for each variable, in order of identity, and an
//! initialization shader that assigns the variables in dependency order.
use crate::deps::{chain, walk, lemma_chain_in_range, lemma_chain_none_after, on_cycle};
use crate::graph::{add_edge, add_node, graph_edge_order, graph_edges, graph_node_order, graph_nodes, new_graph, push_new, toposort, toposort_order, topological};
use crate::literal::{literal_i32, parse_i32};
use crate::parser::{DefinitionKind, Expr};
use crate::program::{Buffer, BufferField, BufferFields, Program};
use crate::project::{Index, Project};
use crate::text::{decimal, push_char, push_chars, push_decimal, push_signed_decimal, push_str, signed_decimal};
use vstd::prelude::*;

verus! {

/// The variables among the first `n` definitions, in order.
pub open spec fn variables(p: &Project, n: int) -> Seq<usize>
    decreases n,
{
    if n <= 0 {
        Seq::empty()
    } else {
        variables(p, n - 1) + if p.defs@[n - 1].kind == DefinitionKind::Variable {
            seq![(n - 1) as usize]
        } else {
            Seq::empty()
        }
    }
}

/// `<module dot path>:<variable name>`.
pub open spec fn field_key(p: &Project, j: int) -> Seq<char> {
    p.dot_paths@[p.def_file(j)]@ + seq![':'] + p.defs@[j].name@
}

/// Field `i` of `vars` has four bytes at offset `4 * i`.
pub open spec fn layout(p: &Project, vars: Seq<usize>) -> Map<Seq<char>, BufferField>
    decreases vars.len(),
{
    if vars.len() == 0 {
        Map::empty()
    } else {
        layout(p, vars.drop_last()).insert(
            field_key(p, vars.last() as int),
            BufferField { size: 4, offset: (4 * (vars.len() - 1)) as u32 },
        )
    }
}

/// Definition `v` depends on definition `t`: following references from `v` reaches `t`.
pub open spec fn depends_on(p: &Project, b: Seq<Option<usize>>, v: int, t: int) -> bool {
    exists|i: nat| 1 <= i <= p.defs@.len() && chain(b, v, i) == Some(t)
}

/// The value of constant `t`: its literal, or that of the constant it names.
pub open spec fn const_value(p: &Project, b: Seq<Option<usize>>, t: int, fuel: nat) -> Option<i32>
    decreases fuel,
{
    if fuel == 0 {
        None
    } else {
        match p.defs@[t].value {
            Expr::Literal(l) => literal_i32(l.cleaned@),
            Expr::Reference(_) => match b[t] {
                Some(u) => const_value(p, b, u as int, (fuel - 1) as nat),
                None => None,
            },
        }
    }
}

pub open spec fn i32_text(v: i32) -> Seq<char> {
    seq!['i', '3', '2', '('] + signed_decimal(v as int) + seq![')']
}

pub open spec fn slot_text(id: u64) -> Seq<char> {
    seq!['b', '.', 'v'] + decimal(id as nat)
}

/// The shader expression of the value of definition `j`.
pub open spec fn value_text(p: &Project, b: Seq<Option<usize>>, j: int) -> Option<Seq<char>> {
    match p.defs@[j].value {
        Expr::Literal(l) => match literal_i32(l.cleaned@) {
            Some(v) => Some(i32_text(v)),
            None => None,
        },
        Expr::Reference(_) => match b[j] {
            Some(t) => if p.defs@[t as int].kind == DefinitionKind::Variable {
                Some(slot_text(p.defs@[t as int].id))
            } else {
                match const_value(p, b, t as int, p.defs@.len()) {
                    Some(v) => Some(i32_text(v)),
                    None => None,
                }
            },
            None => None,
        },
    }
}

/// `v<id>: i32, ` for each variable.
pub open spec fn fields_text(p: &Project, vars: Seq<usize>) -> Seq<char>
    decreases vars.len(),
{
    if vars.len() == 0 {
        Seq::empty()
    } else {
        fields_text(p, vars.drop_last()) + seq!['v'] + decimal(p.defs@[vars.last() as int].id as nat)
            + seq![':', ' ', 'i', '3', '2', ',', ' ']
    }
}

/// `b.v<id> = <value>; ` for each variable of `order`.
pub open spec fn assignments_text(p: &Project, b: Seq<Option<usize>>, order: Seq<u64>) -> Seq<char>
    decreases order.len(),
{
    if order.len() == 0 {
        Seq::empty()
    } else {
        let j = order.last() as int;
        assignments_text(p, b, order.drop_last()) + slot_text(p.defs@[j].id) + seq![' ', '=', ' ']
            + value_text(p, b, j)->Some_0 + seq![';', ' ']
    }
}

pub open spec fn shader_text(p: &Project, b: Seq<Option<usize>>, order: Seq<u64>) -> Seq<char> {
    "struct Buffer { "@ + fields_text(p, variables(p, p.defs@.len() as int))
        + "} @group(0) @binding(0) var<storage, read_write> b: Buffer; @compute @workgroup_size(1, 1, 1) fn main() { "@
        + assignments_text(p, b, order) + seq!['}']
}

/// `order` lists each variable once, each after the variables it depends on.
pub open spec fn init_order(p: &Project, b: Seq<Option<usize>>, order: Seq<u64>) -> bool {
    &&& order.no_duplicates()
    &&& forall|i: int| 0 <= i < order.len() ==> #[trigger] order[i] < p.defs@.len() && p.defs@[order[i] as int].kind == DefinitionKind::Variable
    &&& forall|v: int| 0 <= v < p.defs@.len() && #[trigger] p.defs@[v].kind == DefinitionKind::Variable ==> order.contains(v as u64)
    &&& forall|v: int, t: int| #![trigger depends_on(p, b, v, t)] 0 <= v < p.defs@.len() && 0 <= t < p.defs@.len()
        && p.defs@[v].kind == DefinitionKind::Variable && p.defs@[t].kind == DefinitionKind::Variable
        && depends_on(p, b, v, t) ==> exists|i: int, k: int| 0 <= i < k < order.len() && order[i] == t as u64 && order[k] == v as u64
}

fn push_i32_text(s: &mut String, v: i32)
    ensures
        final(s)@ == old(s)@ + i32_text(v),
{
    let ghost start = s@;
    push_char(s, 'i');
    push_char(s, '3');
    push_char(s, '2');
    push_char(s, '(');
    push_signed_decimal(s, v);
    push_char(s, ')');
    assert(s@ =~= start + i32_text(v));
}

fn push_slot(s: &mut String, id: u64)
    ensures
        final(s)@ == old(s)@ + slot_text(id),
{
    let ghost start = s@;
    push_char(s, 'b');
    push_char(s, '.');
    push_char(s, 'v');
    push_decimal(s, id as u128);
    assert(s@ =~= start + slot_text(id));
}

/// The value of constant `t`, following the constants it names.
pub fn constant_value(p: &Project, idx: &Index, t: usize) -> (r: Option<i32>)
    requires
        p.arena_ok(),
        p.index_ok(*idx),
        t < p.defs@.len(),
    ensures
        r == const_value(p, idx.bindings@, t as int, p.defs@.len()),
{
    let n = p.defs.len();
    let mut cur = t;
    let mut fuel = n;
    while fuel > 0
        invariant
            p.index_ok(*idx),
            n == p.defs@.len(),
            cur < n,
            fuel <= n,
            const_value(p, idx.bindings@, t as int, n as nat) == const_value(p, idx.bindings@, cur as int, fuel as nat),
        decreases fuel,
    {
        match &p.defs[cur].value {
            Expr::Literal(l) => {
                return parse_i32(&l.cleaned);
            },
            Expr::Reference(_) => {
                match idx.bindings[cur] {
                    Some(u) => {
                        cur = u;
                        fuel = fuel - 1;
                    },
                    None => {
                        return None;
                    },
                }
            },
        }
    }
    None
}

/// Appends the shader expression of the value of definition `j`; fails when it has none.
fn push_value(s: &mut String, p: &Project, idx: &Index, j: usize) -> (ok: bool)
    requires
        p.arena_ok(),
        p.index_ok(*idx),
        j < p.defs@.len(),
    ensures
        ok == value_text(p, idx.bindings@, j as int) is Some,
        ok ==> final(s)@ == old(s)@ + value_text(p, idx.bindings@, j as int)->Some_0,
{
    match &p.defs[j].value {
        Expr::Literal(l) => match parse_i32(&l.cleaned) {
            Some(v) => {
                push_i32_text(s, v);
                true
            },
            None => false,
        },
        Expr::Reference(_) => match idx.bindings[j] {
            Some(t) => {
                if p.defs[t].kind == DefinitionKind::Variable {
                    push_slot(s, p.defs[t].id);
                    true
                } else {
                    match constant_value(p, idx, t) {
                        Some(v) => {
                            push_i32_text(s, v);
                            true
                        },
                        None => false,
                    }
                }
            },
            None => false,
        },
    }
}

proof fn lemma_variables(p: &Project, n: int)
    requires
        0 <= n <= p.defs@.len(),
        p.defs@.len() <= usize::MAX,
    ensures
        forall|k: int| 0 <= k < variables(p, n).len() ==> #[trigger] variables(p, n)[k] < n
            && p.defs@[variables(p, n)[k] as int].kind == DefinitionKind::Variable,
        forall|v: int| 0 <= v < n && #[trigger] p.defs@[v].kind == DefinitionKind::Variable ==> variables(p, n).contains(v as usize),
        variables(p, n).len() <= n,
        variables(p, n).no_duplicates(),
    decreases n,
{
    if n > 0 {
        lemma_variables(p, n - 1);
        let prev = variables(p, n - 1);
        let cur = variables(p, n);
        assert forall|k: int| 0 <= k < cur.len() implies #[trigger] cur[k] < n
            && p.defs@[cur[k] as int].kind == DefinitionKind::Variable by {
            if k < prev.len() {
                assert(cur[k] == prev[k]);
            }
        }
        assert forall|v: int| 0 <= v < n && #[trigger] p.defs@[v].kind == DefinitionKind::Variable implies cur.contains(v as usize) by {
            if v < n - 1 {
                let k = choose|k: int| 0 <= k < prev.len() && prev[k] == v as usize;
                assert(cur[k] == prev[k]);
            } else {
                assert(cur[cur.len() - 1] == v as usize);
            }
        }
        assert forall|a: int, b: int| 0 <= a < b < cur.len() implies cur[a] != cur[b] by {
            if b < prev.len() {
                assert(cur[a] == prev[a] && cur[b] == prev[b]);
            } else if a < prev.len() {
                assert(cur[a] == prev[a]);
                assert(prev[a] < n - 1);
                assert(cur[b] == (n - 1) as usize);
            }
        }
    }
}


/// The variables, in order.
fn variable_list(p: &Project) -> (vars: Vec<usize>)
    ensures
        vars@ == variables(p, p.defs@.len() as int),
{
    let n = p.defs.len();
    let mut vars: Vec<usize> = Vec::new();
    let mut j: usize = 0;
    while j < n
        invariant
            n == p.defs@.len(),
            j <= n,
            vars@ == variables(p, j as int),
        decreases n - j,
    {
        if p.defs[j].kind == DefinitionKind::Variable {
            vars.push(j);
        }
        j = j + 1;
        assert(vars@ =~= variables(p, j as int));
    }
    vars
}

/// The key of the field of definition `v`.
fn key_of(p: &Project, v: usize) -> (key: String)
    requires
        p.arena_ok(),
        v < p.defs@.len(),
    ensures
        key@ == field_key(p, v as int),
{
    assert(p.defs@[v as int] == p.defs@[v as int]);
    let f = p.defs[v].name_span.file;
    let mut key: Vec<char> = Vec::new();
    let dot = &p.dot_paths[f];
    let mut c: usize = 0;
    while c < dot.len()
        invariant
            c <= dot@.len(),
            key@ == dot@.take(c as int),
        decreases dot.len() - c,
    {
        key.push(dot[c]);
        c = c + 1;
        assert(dot@.take(c as int) =~= dot@.take(c - 1).push(dot@[c - 1]));
    }
    assert(dot@.take(c as int) =~= dot@);
    key.push(':');
    let ghost with_colon = key@;
    let name = &p.defs[v].name;
    let mut c: usize = 0;
    while c < name.len()
        invariant
            c <= name@.len(),
            key@ == with_colon + name@.take(c as int),
        decreases name.len() - c,
    {
        key.push(name[c]);
        c = c + 1;
        assert(name@.take(c as int) =~= name@.take(c - 1).push(name@[c - 1]));
    }
    assert(name@.take(c as int) =~= name@);
    assert(key@ =~= field_key(p, v as int));
    crate::text::string_of(&key)
}

/// A field of four bytes for each variable, one after the other.
fn buffer_layout(p: &Project, vars: &Vec<usize>) -> (fields: BufferFields)
    requires
        p.arena_ok(),
        vars@.len() <= 0x3fff_ffff,
        forall|k: int| 0 <= k < vars@.len() ==> #[trigger] vars@[k] < p.defs@.len(),
    ensures
        fields.wf(),
        fields@ == layout(p, vars@),
{
    let mut fields = BufferFields::new();
    let mut i: usize = 0;
    while i < vars.len()
        invariant
            p.arena_ok(),
            vars@.len() <= 0x3fff_ffff,
            forall|k: int| 0 <= k < vars@.len() ==> #[trigger] vars@[k] < p.defs@.len(),
            i <= vars@.len(),
            fields.wf(),
            fields@ == layout(p, vars@.take(i as int)),
        decreases vars.len() - i,
    {
        let key = key_of(p, vars[i]);
        fields.insert(key, BufferField { size: 4, offset: (4 * i) as u32 });
        i = i + 1;
        assert(vars@.take(i as int).drop_last() =~= vars@.take(i - 1));
    }
    assert(vars@.take(i as int) =~= vars@);
    fields
}

/// Appends `v<id>: i32, ` for each variable.
fn push_fields(s: &mut String, p: &Project, vars: &Vec<usize>)
    requires
        forall|k: int| 0 <= k < vars@.len() ==> #[trigger] vars@[k] < p.defs@.len(),
    ensures
        final(s)@ == old(s)@ + fields_text(p, vars@),
{
    let ghost head = s@;
    let mut i: usize = 0;
    while i < vars.len()
        invariant
            forall|k: int| 0 <= k < vars@.len() ==> #[trigger] vars@[k] < p.defs@.len(),
            i <= vars@.len(),
            s@ == head + fields_text(p, vars@.take(i as int)),
        decreases vars.len() - i,
    {
        let v = vars[i];
        push_char(s, 'v');
        push_decimal(s, p.defs[v].id as u128);
        push_char(s, ':');
        push_char(s, ' ');
        push_char(s, 'i');
        push_char(s, '3');
        push_char(s, '2');
        push_char(s, ',');
        push_char(s, ' ');
        i = i + 1;
        assert(vars@.take(i as int).drop_last() =~= vars@.take(i - 1));
        assert(s@ =~= head + fields_text(p, vars@.take(i as int)));
    }
    assert(vars@.take(i as int) =~= vars@);
}

/// An edge from a variable to a variable that depends on it.
pub open spec fn edge_ok(p: &Project, b: Seq<Option<usize>>, e: (u64, u64)) -> bool {
    &&& e.0 < p.defs@.len()
    &&& e.1 < p.defs@.len()
    &&& p.defs@[e.0 as int].kind == DefinitionKind::Variable
    &&& p.defs@[e.1 as int].kind == DefinitionKind::Variable
    &&& depends_on(p, b, e.1 as int, e.0 as int)
}

/// The graph is that of the dependencies between variables: its nodes are the variables,
/// and each edge goes from a variable to one that depends on it.
pub open spec fn graph_ok(p: &Project, b: Seq<Option<usize>>, nodes: Set<u64>, edges: Set<(u64, u64)>) -> bool {
    &&& forall|v: int| 0 <= v < p.defs@.len() && #[trigger] p.defs@[v].kind == DefinitionKind::Variable ==> nodes.contains(v as u64)
    &&& forall|x: u64| #[trigger] nodes.contains(x) ==> x < p.defs@.len() && p.defs@[x as int].kind == DefinitionKind::Variable
    &&& forall|e: (u64, u64)| #[trigger] edges.contains(e) ==> edge_ok(p, b, e)
    &&& forall|v: int, t: int| #![trigger depends_on(p, b, v, t)] 0 <= v < p.defs@.len() && 0 <= t < p.defs@.len()
        && p.defs@[v].kind == DefinitionKind::Variable && p.defs@[t].kind == DefinitionKind::Variable
        && depends_on(p, b, v, t) ==> edges.contains((t as u64, v as u64))
}

/// Adds the edges from the variables that `v` depends on to `v`.
/// The node and edge orders after adding the edge from `a` to `b`.
pub open spec fn with_edge(nodes: Seq<u64>, edges: Seq<(u64, u64)>, a: u64, b: u64) -> (Seq<u64>, Seq<(u64, u64)>) {
    (
        if edges.contains((a, b)) {
            nodes
        } else {
            push_new(push_new(nodes, a), b)
        },
        push_new(edges, (a, b)),
    )
}

/// The node and edge orders after adding, for each of `deps` in turn that is a variable, the
/// edge from it to `v`.
pub open spec fn with_dependencies(p: &Project, v: int, deps: Seq<usize>, nodes: Seq<u64>, edges: Seq<(u64, u64)>) -> (Seq<u64>, Seq<(u64, u64)>)
    decreases deps.len(),
{
    if deps.len() == 0 {
        (nodes, edges)
    } else {
        let before = with_dependencies(p, v, deps.drop_last(), nodes, edges);
        let t = deps.last();
        if p.defs@[t as int].kind == DefinitionKind::Variable {
            with_edge(before.0, before.1, t as u64, v as u64)
        } else {
            before
        }
    }
}

/// How many references are followed from `v`, from `k` on, before none is left (at most `n`).
pub open spec fn dependency_count(b: Seq<Option<usize>>, v: int, n: nat, k: nat) -> nat
    decreases n - k,
{
    if k < n && chain(b, v, k + 1) is Some {
        dependency_count(b, v, n, k + 1)
    } else {
        k
    }
}

/// The definitions reached from `v` by following references, in order.
pub open spec fn dependency_list(b: Seq<Option<usize>>, v: int, n: nat) -> Seq<usize> {
    Seq::new(dependency_count(b, v, n, 0), |i: int| chain(b, v, (i + 1) as nat)->Some_0 as usize)
}

/// The node and edge orders of the dependency graph built for `vars`, in order: each
/// variable, then the edges from the variables it depends on.
pub open spec fn graph_of(p: &Project, b: Seq<Option<usize>>, vars: Seq<usize>) -> (Seq<u64>, Seq<(u64, u64)>)
    decreases vars.len(),
{
    if vars.len() == 0 {
        (Seq::empty(), Seq::empty())
    } else {
        let before = graph_of(p, b, vars.drop_last());
        let v = vars.last();
        with_dependencies(p, v as int, dependency_list(b, v as int, p.defs@.len()), push_new(before.0, v as u64), before.1)
    }
}

/// The order in which the variables are initialized: the topological sort of their graph.
pub open spec fn init_sequence(p: &Project, b: Seq<Option<usize>>) -> Seq<u64> {
    let g = graph_of(p, b, variables(p, p.defs@.len() as int));
    toposort_order(g.0, g.1)
}

proof fn lemma_dependency_list(b: Seq<Option<usize>>, v: int, n: nat, deps: Seq<usize>, k: nat)
    requires
        deps.len() <= n,
        k <= deps.len(),
        forall|d: int| #![trigger deps[d]] 0 <= d < deps.len() ==> chain(b, v, (d + 1) as nat) == Some(deps[d] as int),
        deps.len() == n || chain(b, v, (deps.len() + 1) as nat) is None,
    ensures
        dependency_count(b, v, n, k) == deps.len(),
    decreases deps.len() - k,
{
    if k < deps.len() {
        assert(chain(b, v, k + 1) == Some(deps[k as int] as int));
        lemma_dependency_list(b, v, n, deps, k + 1);
    }
}

fn add_dependencies(p: &Project, idx: &Index, g: &mut petgraph::graphmap::DiGraphMap<u64, ()>, v: usize, deps: &Vec<usize>)
    requires
        p.arena_ok(),
        p.index_ok(*idx),
        v < p.defs@.len(),
        p.defs@[v as int].kind == DefinitionKind::Variable,
        deps@.len() <= p.defs@.len(),
        forall|d: int| #![trigger deps@[d]] 0 <= d < deps@.len() ==> chain(idx.bindings@, v as int, (d + 1) as nat) == Some(deps@[d] as int),
        deps@.len() == p.defs@.len() || chain(idx.bindings@, v as int, (deps@.len() + 1) as nat) is None,
        forall|x: u64| #[trigger] graph_nodes(*old(g)).contains(x) ==> x < p.defs@.len() && p.defs@[x as int].kind == DefinitionKind::Variable,
        forall|e: (u64, u64)| #[trigger] graph_edges(*old(g)).contains(e) ==> edge_ok(p, idx.bindings@, e),
    ensures
        forall|x: u64| #[trigger] graph_nodes(*old(g)).contains(x) ==> graph_nodes(*final(g)).contains(x),
        forall|x: u64| #[trigger] graph_nodes(*final(g)).contains(x) ==> x < p.defs@.len() && p.defs@[x as int].kind == DefinitionKind::Variable,
        forall|e: (u64, u64)| #[trigger] graph_edges(*final(g)).contains(e) ==> edge_ok(p, idx.bindings@, e),
        forall|e: (u64, u64)| #[trigger] graph_edges(*old(g)).contains(e) ==> graph_edges(*final(g)).contains(e),
        forall|t: int| 0 <= t < p.defs@.len() && p.defs@[t].kind == DefinitionKind::Variable && depends_on(p, idx.bindings@, v as int, t)
            ==> #[trigger] graph_edges(*final(g)).contains((t as u64, v as u64)),
        (graph_node_order(*final(g)), graph_edge_order(*final(g))) == with_dependencies(p, v as int, deps@, graph_node_order(*old(g)), graph_edge_order(*old(g))),
{
    let ghost b = idx.bindings@;
    let ghost n = p.defs@.len();
    let ghost g0 = *g;
    let mut k: usize = 0;
    assert(deps@.take(0).len() == 0);
    while k < deps.len()
        invariant
            p.index_ok(*idx),
            b == idx.bindings@,
            n == p.defs@.len(),
            v < n,
            p.defs@[v as int].kind == DefinitionKind::Variable,
            k <= deps@.len(),
            forall|d: int| #![trigger deps@[d]] 0 <= d < deps@.len() ==> chain(b, v as int, (d + 1) as nat) == Some(deps@[d] as int),
            deps@.len() <= n,
            forall|x: u64| #[trigger] graph_nodes(*old(g)).contains(x) ==> graph_nodes(*g).contains(x),
            forall|x: u64| #[trigger] graph_nodes(*g).contains(x) ==> x < n && p.defs@[x as int].kind == DefinitionKind::Variable,
            forall|e: (u64, u64)| #[trigger] graph_edges(*g).contains(e) ==> edge_ok(p, b, e),
            forall|e: (u64, u64)| #[trigger] graph_edges(*old(g)).contains(e) ==> graph_edges(*g).contains(e),
            forall|d: int| 0 <= d < k && p.defs@[deps@[d] as int].kind == DefinitionKind::Variable ==> graph_edges(*g).contains((#[trigger] deps@[d] as u64, v as u64)),
            g0 == *old(g),
            (graph_node_order(*g), graph_edge_order(*g)) == with_dependencies(p, v as int, deps@.take(k as int), graph_node_order(g0), graph_edge_order(g0)),
        decreases deps.len() - k,
    {
        let t = deps[k];
        assert(deps@.take(k + 1).drop_last() =~= deps@.take(k as int));
        assert(deps@.take(k + 1).last() == t);
        proof {
            lemma_chain_in_range(b, v as int, (k + 1) as nat);
            assert(depends_on(p, b, v as int, t as int));
        }
        if p.defs[t].kind == DefinitionKind::Variable {
            add_edge(g, t as u64, v as u64);
        }
        k = k + 1;
    }
    proof {
        assert(deps@.take(k as int) =~= deps@);
        assert forall|t: int| 0 <= t < n && p.defs@[t].kind == DefinitionKind::Variable && depends_on(p, b, v as int, t)
            implies #[trigger] graph_edges(*g).contains((t as u64, v as u64)) by {
            let s = choose|s: nat| 1 <= s <= n && chain(b, v as int, s) == Some(t);
            if s > deps@.len() {
                lemma_chain_none_after(b, v as int, (deps@.len() + 1) as nat, s);
            }
            assert(deps@[s - 1] == t as usize);
        }
    }
}

/// The dependency graph of the variables; `None` when a variable depends on itself.
#[verifier::rlimit(100)]
fn dependency_graph(p: &Project, idx: &Index, vars: &Vec<usize>) -> (r: Option<petgraph::graphmap::DiGraphMap<u64, ()>>)
    requires
        p.arena_ok(),
        p.index_ok(*idx),
        vars@ == variables(p, p.defs@.len() as int),
        p.defs@.len() <= usize::MAX,
    ensures
        match r {
            Some(g) => graph_ok(p, idx.bindings@, graph_nodes(g), graph_edges(g))
                && (forall|v: int| 0 <= v < p.defs@.len() && #[trigger] p.defs@[v].kind == DefinitionKind::Variable ==> !on_cycle(idx.bindings@, v))
                && (graph_node_order(g), graph_edge_order(g)) == graph_of(p, idx.bindings@, vars@),
            None => exists|v: int| 0 <= v < p.defs@.len() && #[trigger] p.defs@[v].kind == DefinitionKind::Variable && on_cycle(idx.bindings@, v),
        },
{
    let ghost b = idx.bindings@;
    let ghost n = p.defs@.len();
    proof {
        lemma_variables(p, n as int);
    }
    let mut g = new_graph();
    let mut i: usize = 0;
    assert(graph_of(p, b, vars@.take(0)) == (Seq::<u64>::empty(), Seq::<(u64, u64)>::empty()));
    while i < vars.len()
        invariant
            p.arena_ok(),
            p.index_ok(*idx),
            b == idx.bindings@,
            n == p.defs@.len(),
            vars@ == variables(p, n as int),
            forall|k: int| 0 <= k < vars@.len() ==> #[trigger] vars@[k] < n && p.defs@[vars@[k] as int].kind == DefinitionKind::Variable,
            forall|v: int| 0 <= v < n && #[trigger] p.defs@[v].kind == DefinitionKind::Variable ==> vars@.contains(v as usize),
            i <= vars@.len(),
            forall|k: int| 0 <= k < i ==> graph_nodes(g).contains(#[trigger] vars@[k] as u64),
            forall|x: u64| #[trigger] graph_nodes(g).contains(x) ==> x < n && p.defs@[x as int].kind == DefinitionKind::Variable,
            forall|e: (u64, u64)| #[trigger] graph_edges(g).contains(e) ==> edge_ok(p, b, e),
            forall|k: int, t: int| 0 <= k < i && 0 <= t < n && p.defs@[t].kind == DefinitionKind::Variable && depends_on(p, b, vars@[k] as int, t)
                ==> #[trigger] graph_edges(g).contains((t as u64, vars@[k] as u64)),
            forall|k: int| 0 <= k < i ==> !on_cycle(b, #[trigger] vars@[k] as int),
            (graph_node_order(g), graph_edge_order(g)) == graph_of(p, b, vars@.take(i as int)),
        decreases vars.len() - i,
    {
        let v = vars[i];
        assert(vars@.take(i + 1).drop_last() =~= vars@.take(i as int));
        assert(vars@.take(i + 1).last() == v);
        let ghost before = g;
        add_node(&mut g, v as u64);
        let deps = match walk(&p.defs, &idx.bindings, v) {
            Ok(deps) => deps,
            Err(_) => {
                assert(p.defs@[v as int].kind == DefinitionKind::Variable);
                return None;
            },
        };
        let ghost mid = g;
        add_dependencies(p, idx, &mut g, v, &deps);
        proof {
            lemma_dependency_list(b, v as int, n as nat, deps@, 0);
            assert(deps@ =~= dependency_list(b, v as int, n as nat));
            assert forall|k: int| 0 <= k < i + 1 implies graph_nodes(g).contains(#[trigger] vars@[k] as u64) by {
                if k < i {
                    assert(graph_nodes(before).contains(vars@[k] as u64));
                    assert(graph_nodes(mid).contains(vars@[k] as u64));
                } else {
                    assert(graph_nodes(mid).contains(v as u64));
                }
            }
            assert forall|k: int, t: int| 0 <= k < i + 1 && 0 <= t < n && p.defs@[t].kind == DefinitionKind::Variable && depends_on(p, b, vars@[k] as int, t)
                implies #[trigger] graph_edges(g).contains((t as u64, vars@[k] as u64)) by {
                if k < i {
                    assert(graph_edges(before).contains((t as u64, vars@[k] as u64)));
                    assert(graph_edges(mid).contains((t as u64, vars@[k] as u64)));
                }
            }
        }
        i = i + 1;
    }
    proof {
        assert(vars@.take(i as int) =~= vars@);
        assert forall|v: int| 0 <= v < n && #[trigger] p.defs@[v].kind == DefinitionKind::Variable implies graph_nodes(g).contains(v as u64) by {
            let k = choose|k: int| 0 <= k < vars@.len() && vars@[k] == v as usize;
            assert(graph_nodes(g).contains(vars@[k] as u64));
        }
        assert forall|v: int, t: int| #![trigger depends_on(p, b, v, t)] 0 <= v < n && 0 <= t < n
            && p.defs@[v].kind == DefinitionKind::Variable && p.defs@[t].kind == DefinitionKind::Variable
            && depends_on(p, b, v, t) implies graph_edges(g).contains((t as u64, v as u64)) by {
            let k = choose|k: int| 0 <= k < vars@.len() && vars@[k] == v as usize;
            assert(graph_edges(g).contains((t as u64, vars@[k] as u64)));
        }
        assert forall|v: int| 0 <= v < n && #[trigger] p.defs@[v].kind == DefinitionKind::Variable implies !on_cycle(b, v) by {
            let k = choose|k: int| 0 <= k < vars@.len() && vars@[k] == v as usize;
            assert(!on_cycle(b, vars@[k] as int));
        }
    }
    Some(g)
}

/// Appends `b.v<id> = <value>; ` for each variable of `order`; fails when a value cannot be
/// written.
fn push_assignments(s: &mut String, p: &Project, idx: &Index, order: &Vec<u64>) -> (ok: bool)
    requires
        p.arena_ok(),
        p.index_ok(*idx),
        forall|i: int| 0 <= i < order@.len() ==> #[trigger] order@[i] < p.defs@.len(),
    ensures
        ok ==> final(s)@ == old(s)@ + assignments_text(p, idx.bindings@, order@),
        ok ==> forall|i: int| 0 <= i < order@.len() ==> value_text(p, idx.bindings@, #[trigger] order@[i] as int) is Some,
        !ok ==> exists|i: int| 0 <= i < order@.len() && value_text(p, idx.bindings@, #[trigger] order@[i] as int) is None,
{
    let ghost head = s@;
    let mut i: usize = 0;
    while i < order.len()
        invariant
            p.arena_ok(),
            p.index_ok(*idx),
            forall|i: int| 0 <= i < order@.len() ==> #[trigger] order@[i] < p.defs@.len(),
            i <= order@.len(),
            s@ == head + assignments_text(p, idx.bindings@, order@.take(i as int)),
            forall|k: int| 0 <= k < i ==> value_text(p, idx.bindings@, #[trigger] order@[k] as int) is Some,
        decreases order.len() - i,
    {
        let j = order[i] as usize;
        push_slot(s, p.defs[j].id);
        push_char(s, ' ');
        push_char(s, '=');
        push_char(s, ' ');
        if !push_value(s, p, idx, j) {
            return false;
        }
        push_char(s, ';');
        push_char(s, ' ');
        i = i + 1;
        assert(order@.take(i as int).drop_last() =~= order@.take(i - 1));
        assert(s@ =~= head + assignments_text(p, idx.bindings@, order@.take(i as int)));
    }
    assert(order@.take(i as int) =~= order@);
    true
}

/// The order in which the variables are initialized, from the dependency graph; `None` when
/// no order satisfies the dependencies.
#[verifier::rlimit(100)]
fn initialization_order(p: &Project, idx: &Index, g: &petgraph::graphmap::DiGraphMap<u64, ()>) -> (r: Option<Vec<u64>>)
    requires
        p.arena_ok(),
        p.index_ok(*idx),
        graph_ok(p, idx.bindings@, graph_nodes(*g), graph_edges(*g)),
        (graph_node_order(*g), graph_edge_order(*g)) == graph_of(p, idx.bindings@, variables(p, p.defs@.len() as int)),
    ensures
        match r {
            Some(order) => {
                &&& init_order(p, idx.bindings@, order@)
                &&& order@ == init_sequence(p, idx.bindings@)
            },
            None => forall|o: Seq<u64>| !init_order(p, idx.bindings@, o),
        },
{
    let ghost b = idx.bindings@;
    let ghost n = p.defs@.len();
    let order = match toposort(g) {
        Ok(order) => order,
        Err(_) => {
            proof {
                assert forall|o: Seq<u64>| !init_order(p, b, o) by {
                    if init_order(p, b, o) {
                        assert(o.to_set() =~= graph_nodes(*g)) by {
                            assert forall|x: u64| o.to_set().contains(x) <==> graph_nodes(*g).contains(x) by {
                                if graph_nodes(*g).contains(x) {
                                    assert(p.defs@[x as int].kind == DefinitionKind::Variable);
                                    assert(o.contains(x as int as u64));
                                }
                                if o.to_set().contains(x) {
                                    let k = choose|k: int| 0 <= k < o.len() && o[k] == x;
                                    assert(o[k] < n);
                                    assert(p.defs@[x as int].kind == DefinitionKind::Variable);
                                    assert(graph_nodes(*g).contains(x as int as u64));
                                }
                            }
                        }
                        assert forall|a: u64, c: u64| #[trigger] graph_edges(*g).contains((a, c)) implies exists|i: int, j: int|
                            0 <= i < j < o.len() && o[i] == a && o[j] == c by {
                            assert(depends_on(p, b, c as int, a as int));
                        }
                        assert(topological(o, graph_nodes(*g), graph_edges(*g)));
                    }
                }
            }
            return None;
        },
    };
    proof {
        assert forall|i: int| 0 <= i < order@.len() implies #[trigger] order@[i] < p.defs@.len() by {
            assert(order@.to_set().contains(order@[i]));
            assert(graph_nodes(*g).contains(order@[i]));
        }
    }
    proof {
        assert(init_order(p, b, order@)) by {
            assert forall|i: int| 0 <= i < order@.len() implies #[trigger] order@[i] < p.defs@.len() && p.defs@[order@[i] as int].kind == DefinitionKind::Variable by {
                assert(order@.to_set().contains(order@[i]));
                assert(graph_nodes(*g).contains(order@[i]));
            }
            assert forall|v: int| 0 <= v < p.defs@.len() && #[trigger] p.defs@[v].kind == DefinitionKind::Variable implies order@.contains(v as u64) by {
                assert(graph_nodes(*g).contains(v as u64));
                assert(order@.to_set().contains(v as u64));
            }
            assert forall|v: int, t: int| #![trigger depends_on(p, b, v, t)] 0 <= v < p.defs@.len() && 0 <= t < p.defs@.len()
                && p.defs@[v].kind == DefinitionKind::Variable && p.defs@[t].kind == DefinitionKind::Variable
                && depends_on(p, b, v, t) implies exists|i: int, k: int| 0 <= i < k < order@.len() && order@[i] == t as u64 && order@[k] == v as u64 by {
                assert(graph_edges(*g).contains((t as u64, v as u64)));
            }
        }
    }
    Some(order)
}

/// No program can be generated: the buffer would not fit in `u32` bytes, a variable depends
/// on itself or has a value that cannot be written, or no order satisfies the dependencies.
pub open spec fn generation_fails(p: &Project, b: Seq<Option<usize>>) -> bool {
    ||| variables(p, p.defs@.len() as int).len() > 0x3fff_ffff
    ||| exists|v: int| 0 <= v < p.defs@.len() && #[trigger] p.defs@[v].kind == DefinitionKind::Variable && (on_cycle(b, v) || value_text(p, b, v) is None)
    ||| forall|order: Seq<u64>| !init_order(p, b, order)
}

/// Builds the program of a project: one four-byte field per variable, in order of identity,
/// and a shader that declares them and assigns each its value after the variables it depends
/// on. Fails when the buffer would not fit in `u32` bytes, when a variable depends on itself
/// or has a value that cannot be written, or when no order can satisfy the dependencies.
#[verifier::rlimit(100)]
pub fn transpile(p: &Project, idx: &Index) -> (r: Option<Program>)
    requires
        p.arena_ok(),
        p.index_ok(*idx),
    ensures
        match r {
            Some(prog) => {
                let vars = variables(p, p.defs@.len() as int);
                &&& prog.buffer.size == 4 * vars.len()
                &&& prog.buffer.fields.wf()
                &&& prog.buffer.fields@ == layout(p, vars)
                &&& init_order(p, idx.bindings@, init_sequence(p, idx.bindings@))
                &&& prog.init_shader@ == shader_text(p, idx.bindings@, init_sequence(p, idx.bindings@))
            },
            None => generation_fails(p, idx.bindings@),
        },
        r is None <==> generation_fails(p, idx.bindings@),
{
    let n = p.defs.len();
    let ghost b = idx.bindings@;
    proof {
        lemma_variables(p, n as int);
    }
    let vars = variable_list(p);
    if vars.len() > 0x3fff_ffff {
        return None;
    }
    let fields = buffer_layout(p, &vars);
    let size = (4 * vars.len()) as u32;
    let mut shader = String::new();
    push_str(&mut shader, "struct Buffer { ");
    push_fields(&mut shader, p, &vars);
    push_str(&mut shader, "} @group(0) @binding(0) var<storage, read_write> b: Buffer; @compute @workgroup_size(1, 1, 1) fn main() { ");
    let ghost head = shader@;
    let g = match dependency_graph(p, idx, &vars) {
        Some(g) => g,
        None => {
            return None;
        },
    };
    assert(vars@ == variables(p, p.defs@.len() as int));
    assert((graph_node_order(g), graph_edge_order(g)) == graph_of(p, idx.bindings@, vars@));
    let order = match initialization_order(p, idx, &g) {
        Some(order) => order,
        None => {
            return None;
        },
    };
    if !push_assignments(&mut shader, p, idx, &order) {
        proof {
            let i = choose|i: int| 0 <= i < order@.len() && value_text(p, b, #[trigger] order@[i] as int) is None;
            let v = order@[i] as int;
            assert(p.defs@[v].kind == DefinitionKind::Variable);
        }
        return None;
    }
    push_char(&mut shader, '}');
    proof {
        assert(shader@ =~= shader_text(p, b, order@));
        assert(order@ == init_sequence(p, b));
        assert(!generation_fails(p, b)) by {
            assert forall|v: int| 0 <= v < p.defs@.len() && #[trigger] p.defs@[v].kind == DefinitionKind::Variable implies !(on_cycle(b, v) || value_text(p, b, v) is None) by {
                assert(order@.contains(v as u64));
                let k = choose|k: int| 0 <= k < order@.len() && order@[k] == v as u64;
                assert(value_text(p, b, order@[k] as int) is Some);
            }
        }
    }
    Some(Program { buffer: Buffer { size, fields }, init_shader: shader })
}

} // verus!
