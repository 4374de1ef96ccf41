//! Step parameter space iteration.
//!
//! A step's parameter space is a tree: leaves hold one parameter's values
//! (or chunks of them), a product node combines its children's values in
//! every combination (the rightmost child moving fastest), and an
//! association node pairs its children's values index by index.
//! Values are computed on demand from the index, so huge ranges are never
//! materialized.

use vstd::prelude::*;
use crate::chunks::{
    adaptive_chunk, adaptive_cut, adaptive_end, ceil_div, consecutive_segments, ints_of, lemma_consecutive_segments_tile,
    lemma_tiles_bounds, list_segments, pairs_of, static_chunks, ChunkPlan, ChunkSource,
};
use crate::error::ModelError;
use crate::job::{definition_entries, definitions_list, RangeConstraint, ResolvedChunks, StepParameterSpace, TaskParamRange, TaskParameter};
use crate::range_expr::{in_domain, range_text, runs_values, IntRun, RangeExpr};
use crate::text::{append_i64, append_usize, char_is_whitespace, char_string, i64_text, int_text, is_whitespace, nat_text, push_char, str_chars};
use crate::types::{
    float_bits_non_finite, value_eq, value_view_eq, FloatValue, ParamValue, TaskParameterSet, TaskParameterType,
    TaskParameterValue, ValueView, FLOAT_SIGN_BIT,
};

verus! {

/// A parameter set as a map from names to typed values.
pub type ParamMap = Map<Seq<char>, (TaskParameterType, ValueView)>;

/// The model of a parameter space tree.
pub enum SpaceNode {
    /// The space of no parameters: one empty parameter set.
    Zero,
    /// One parameter with its values.
    Plain { name: Seq<char>, ty: TaskParameterType, values: Seq<ValueView> },
    /// A chunked integer parameter with its chunks.
    Chunks { name: Seq<char>, chunks: Seq<Seq<IntRun>>, contiguous: bool },
    /// A chunked integer parameter whose chunks are cut as iteration goes.
    Adaptive { name: Seq<char>, values: Seq<int>, contiguous: bool },
    /// Every combination of the children's values.
    Product { children: Seq<SpaceNode>, len: int },
    /// The children's values index by index.
    Assoc { children: Seq<SpaceNode>, len: int },
}

/// Number of parameter sets of a node (for an adaptive node, the number
/// of its values).
pub open spec fn node_len(n: SpaceNode) -> int {
    match n {
        SpaceNode::Zero => 1,
        SpaceNode::Plain { values, .. } => values.len() as int,
        SpaceNode::Chunks { chunks, .. } => chunks.len() as int,
        SpaceNode::Adaptive { values, .. } => values.len() as int,
        SpaceNode::Product { len, .. } => len,
        SpaceNode::Assoc { len, .. } => len,
    }
}

/// Whether the tree holds an adaptive chunk parameter.
pub open spec fn has_adaptive(n: SpaceNode) -> bool
    decreases n,
{
    match n {
        SpaceNode::Adaptive { .. } => true,
        SpaceNode::Product { children, .. } => any_adaptive(children),
        SpaceNode::Assoc { children, .. } => any_adaptive(children),
        _ => false,
    }
}

pub open spec fn any_adaptive(ns: Seq<SpaceNode>) -> bool
    decreases ns,
{
    if ns.len() == 0 {
        false
    } else {
        any_adaptive(ns.drop_last()) || has_adaptive(ns.last())
    }
}

/// The product of the children's lengths.
pub open spec fn prod_len(ns: Seq<SpaceNode>) -> int
    decreases ns.len(),
{
    if ns.len() == 0 {
        1
    } else {
        prod_len(ns.drop_last()) * node_len(ns.last())
    }
}

/// The parameter set at index `i` of a node.
pub open spec fn node_get(n: SpaceNode, i: int) -> ParamMap
    decreases n,
{
    match n {
        SpaceNode::Zero => Map::empty(),
        SpaceNode::Plain { name, ty, values } => map![name => (ty, values[i])],
        SpaceNode::Chunks { name, chunks, contiguous } =>
            map![name => (TaskParameterType::ChunkInt, ValueView::Range(chunks[i], contiguous))],
        SpaceNode::Adaptive { .. } => Map::empty(),
        SpaceNode::Product { children, .. } => prod_get(children, i),
        SpaceNode::Assoc { children, .. } => assoc_get(children, i),
    }
}

/// Index `i` of a product: the last child takes `i % len`, the others
/// `i / len`; on a name that occurs twice, the earlier child's value wins.
pub open spec fn prod_get(ns: Seq<SpaceNode>, i: int) -> ParamMap
    decreases ns,
{
    if ns.len() == 0 {
        Map::empty()
    } else {
        let l = node_len(ns.last());
        node_get(ns.last(), i % l).union_prefer_right(prod_get(ns.drop_last(), i / l))
    }
}

/// Index `i` of an association: every child at index `i`; on a name that
/// occurs twice, the later child's value wins.
pub open spec fn assoc_get(ns: Seq<SpaceNode>, i: int) -> ParamMap
    decreases ns,
{
    if ns.len() == 0 {
        Map::empty()
    } else {
        assoc_get(ns.drop_last(), i).union_prefer_right(node_get(ns.last(), i))
    }
}

/// Structural validity: the stored length of a product or association
/// without an adaptive parameter is that of its children.
pub open spec fn node_wf(n: SpaceNode) -> bool
    decreases n,
{
    match n {
        SpaceNode::Product { children, len } => {
            &&& children.len() >= 1
            &&& len >= 0
            &&& nodes_wf(children)
            &&& !has_adaptive(n) ==> len == prod_len(children)
        },
        SpaceNode::Assoc { children, len } => {
            &&& children.len() >= 1
            &&& len >= 0
            &&& nodes_wf(children)
            &&& !has_adaptive(n) ==> forall|j: int| 0 <= j < children.len() ==> node_len(#[trigger] children[j]) == len
        },
        _ => true,
    }
}

pub open spec fn nodes_wf(ns: Seq<SpaceNode>) -> bool
    decreases ns,
{
    if ns.len() == 0 {
        true
    } else {
        nodes_wf(ns.drop_last()) && node_wf(ns.last())
    }
}

pub proof fn lemma_nodes_wf(ns: Seq<SpaceNode>)
    ensures
        nodes_wf(ns) <==> forall|j: int| 0 <= j < ns.len() ==> node_wf(#[trigger] ns[j]),
    decreases ns.len(),
{
    if ns.len() > 0 {
        lemma_nodes_wf(ns.drop_last());
        if nodes_wf(ns) {
            assert forall|j: int| 0 <= j < ns.len() implies node_wf(#[trigger] ns[j]) by {
                if j < ns.len() - 1 {
                    assert(ns.drop_last()[j] == ns[j]);
                }
            }
        }
        if forall|j: int| 0 <= j < ns.len() ==> node_wf(#[trigger] ns[j]) {
            assert forall|j: int| 0 <= j < ns.drop_last().len() implies node_wf(#[trigger] ns.drop_last()[j]) by {
                assert(ns.drop_last()[j] == ns[j]);
            }
            assert(node_wf(ns[ns.len() - 1]));
        }
    }
}

pub proof fn lemma_any_adaptive(ns: Seq<SpaceNode>)
    ensures
        any_adaptive(ns) <==> exists|j: int| 0 <= j < ns.len() && has_adaptive(#[trigger] ns[j]),
    decreases ns.len(),
{
    if ns.len() > 0 {
        lemma_any_adaptive(ns.drop_last());
        if any_adaptive(ns.drop_last()) {
            let j = choose|j: int| 0 <= j < ns.drop_last().len() && has_adaptive(#[trigger] ns.drop_last()[j]);
            assert(ns[j] == ns.drop_last()[j]);
        }
        if exists|j: int| 0 <= j < ns.len() && has_adaptive(#[trigger] ns[j]) {
            let j = choose|j: int| 0 <= j < ns.len() && has_adaptive(#[trigger] ns[j]);
            if j < ns.len() - 1 {
                assert(ns.drop_last()[j] == ns[j]);
            }
        }
    }
}

pub proof fn lemma_union_assoc(a: ParamMap, b: ParamMap, c: ParamMap)
    ensures
        a.union_prefer_right(b).union_prefer_right(c) == a.union_prefer_right(b.union_prefer_right(c)),
{
    assert(a.union_prefer_right(b).union_prefer_right(c) =~= a.union_prefer_right(b.union_prefer_right(c)));
}

proof fn lemma_div_step(idx: int, p: int, l: int)
    requires
        0 <= idx < p * l,
        p >= 0,
        l >= 0,
    ensures
        l > 0,
        0 <= idx % l < l,
        0 <= idx / l < p,
{
    assert(l != 0) by {
        if l == 0 {
            assert(p * l == 0) by (nonlinear_arith)
                requires
                    l == 0,
            ;
        }
    }
    assert(idx == l * (idx / l) + idx % l) by {
        vstd::arithmetic::div_mod::lemma_fundamental_div_mod(idx, l);
    }
    assert(0 <= idx % l < l) by {
        vstd::arithmetic::div_mod::lemma_mod_bound(idx, l);
    }
    assert(idx / l >= 0) by {
        vstd::arithmetic::div_mod::lemma_div_pos_is_pos(idx, l);
    }
    assert(idx / l < p) by (nonlinear_arith)
        requires
            idx == l * (idx / l) + idx % l,
            idx < p * l,
            idx % l >= 0,
            l > 0,
    ;
}

// ---------------------------------------------------------------------
// The executable tree.

/// A node of the parameter space tree.
enum Node {
    Zero,
    List { name: String, param_type: TaskParameterType, values: Vec<ParamValue> },
    Range { name: String, range: RangeExpr },
    Chunks { name: String, plan: ChunkPlan },
    Adaptive { name: String, source: ChunkSource, contiguous: bool },
    Product { children: Vec<Node>, length: usize },
    Assoc { children: Vec<Node>, length: usize },
}

pub open spec fn int_views(v: Seq<int>) -> Seq<ValueView> {
    v.map_values(|x: int| ValueView::Int(x as i64))
}

spec fn value_views(v: Seq<ParamValue>) -> Seq<ValueView> {
    v.map_values(|x: ParamValue| x@)
}

spec fn view_node(n: Node) -> SpaceNode
    decreases n,
{
    match n {
        Node::Zero => SpaceNode::Zero,
        Node::List { name, param_type, values } =>
            SpaceNode::Plain { name: name@, ty: param_type, values: value_views(values@) },
        Node::Range { name, range } =>
            SpaceNode::Plain { name: name@, ty: TaskParameterType::Int, values: int_views(range.values()) },
        Node::Chunks { name, plan } =>
            SpaceNode::Chunks { name: name@, chunks: plan.chunks(), contiguous: plan.is_contiguous() },
        Node::Adaptive { name, source, contiguous } =>
            SpaceNode::Adaptive { name: name@, values: source.values(), contiguous },
        Node::Product { children, length } =>
            SpaceNode::Product { children: view_nodes(children@), len: length as int },
        Node::Assoc { children, length } =>
            SpaceNode::Assoc { children: view_nodes(children@), len: length as int },
    }
}

spec fn view_nodes(ns: Seq<Node>) -> Seq<SpaceNode>
    decreases ns,
{
    if ns.len() == 0 {
        Seq::empty()
    } else {
        view_nodes(ns.drop_last()).push(view_node(ns.last()))
    }
}

/// Validity of the executable tree: its parts are well formed and its
/// model is.
spec fn exec_wf(n: Node) -> bool
    decreases n,
{
    &&& node_wf(view_node(n))
    &&& match n {
        Node::List { values, .. } => forall|k: int| 0 <= k < values@.len() ==> (#[trigger] values@[k]).wf(),
        Node::Range { range, .. } => range.wf() && range.values().len() <= usize::MAX,
        Node::Chunks { plan, .. } => plan.wf(),
        Node::Adaptive { source, .. } => source.wf(),
        Node::Product { children, .. } => exec_all_wf(children@),
        Node::Assoc { children, .. } => exec_all_wf(children@),
        Node::Zero => true,
    }
}

spec fn exec_all_wf(ns: Seq<Node>) -> bool
    decreases ns,
{
    if ns.len() == 0 {
        true
    } else {
        exec_all_wf(ns.drop_last()) && exec_wf(ns.last())
    }
}

proof fn lemma_view_nodes(ns: Seq<Node>)
    ensures
        view_nodes(ns).len() == ns.len(),
        forall|j: int| 0 <= j < ns.len() ==> #[trigger] view_nodes(ns)[j] == view_node(ns[j]),
        exec_all_wf(ns) <==> forall|j: int| 0 <= j < ns.len() ==> exec_wf(#[trigger] ns[j]),
    decreases ns.len(),
{
    if ns.len() > 0 {
        lemma_view_nodes(ns.drop_last());
        assert forall|j: int| 0 <= j < ns.len() implies #[trigger] view_nodes(ns)[j] == view_node(ns[j]) by {
            if j < ns.len() - 1 {
                assert(ns.drop_last()[j] == ns[j]);
            }
        }
        if exec_all_wf(ns) {
            assert forall|j: int| 0 <= j < ns.len() implies exec_wf(#[trigger] ns[j]) by {
                if j < ns.len() - 1 {
                    assert(ns.drop_last()[j] == ns[j]);
                }
            }
        }
        if forall|j: int| 0 <= j < ns.len() ==> exec_wf(#[trigger] ns[j]) {
            assert forall|j: int| 0 <= j < ns.drop_last().len() implies exec_wf(#[trigger] ns.drop_last()[j]) by {
                assert(ns.drop_last()[j] == ns[j]);
            }
            assert(exec_wf(ns[ns.len() - 1]));
        }
    }
}

proof fn lemma_prod_len_take(ns: Seq<SpaceNode>, j: int)
    requires
        0 <= j < ns.len(),
    ensures
        prod_len(ns.take(j + 1)) == prod_len(ns.take(j)) * node_len(ns[j]),
{
    assert(ns.take(j + 1).drop_last() =~= ns.take(j));
}

proof fn lemma_prod_len_nonneg(ns: Seq<SpaceNode>)
    requires
        forall|j: int| 0 <= j < ns.len() ==> node_len(#[trigger] ns[j]) >= 0,
    ensures
        prod_len(ns) >= 0,
    decreases ns.len(),
{
    if ns.len() > 0 {
        assert forall|j: int| 0 <= j < ns.drop_last().len() implies node_len(#[trigger] ns.drop_last()[j]) >= 0 by {
            assert(ns.drop_last()[j] == ns[j]);
        }
        lemma_prod_len_nonneg(ns.drop_last());
        assert(node_len(ns[ns.len() - 1]) >= 0);
        assert(prod_len(ns.drop_last()) * node_len(ns.last()) >= 0) by (nonlinear_arith)
            requires
                prod_len(ns.drop_last()) >= 0,
                node_len(ns.last()) >= 0,
        ;
    }
}

proof fn lemma_node_len_nonneg(n: SpaceNode)
    requires
        node_wf(n),
    ensures
        node_len(n) >= 0,
{
}

impl Node {
    /// The parameter set at index `i`, added to `result`.
    fn get_into(&self, i: usize, result: &mut TaskParameterSet)
        requires
            exec_wf(*self),
            !has_adaptive(view_node(*self)),
            i < node_len(view_node(*self)),
            old(result).wf(),
        ensures
            final(result).wf(),
            final(result)@ == old(result)@.union_prefer_right(node_get(view_node(*self), i as int)),
        decreases *self,
    {
        let ghost before = result@;
        match self {
            Node::Zero => {
                proof {
                    assert(result@.union_prefer_right(Map::empty()) =~= result@);
                }
            },
            Node::List { name, param_type, values } => {
                let v = values[i].copy();
                result.insert(name.clone(), TaskParameterValue { param_type: *param_type, value: v });
                proof {
                    assert(value_views(values@)[i as int] == values@[i as int]@);
                    assert(result@ =~= before.union_prefer_right(node_get(view_node(*self), i as int)));
                }
            },
            Node::Range { name, range } => {
                let x = range.get(i as u64).unwrap();
                result.insert(name.clone(), TaskParameterValue { param_type: TaskParameterType::Int, value: ParamValue::Int(x) });
                proof {
                    assert(int_views(range.values())[i as int] == ValueView::Int(x));
                    assert(result@ =~= before.union_prefer_right(node_get(view_node(*self), i as int)));
                }
            },
            Node::Chunks { name, plan } => {
                let r = plan.chunk(i);
                result.insert(name.clone(), TaskParameterValue { param_type: TaskParameterType::ChunkInt, value: ParamValue::RangeExpr(r) });
                proof {
                    assert(result@ =~= before.union_prefer_right(node_get(view_node(*self), i as int)));
                }
            },
            Node::Adaptive { .. } => {
                assert(false);
            },
            Node::Product { children, length } => {
                let ghost ns = view_nodes(children@);
                proof {
                    lemma_view_nodes(children@);
                    lemma_nodes_wf(ns);
                    lemma_any_adaptive(ns);
                    assert(ns.take(ns.len() as int) =~= ns);
                }
                let mut idx: usize = i;
                let mut j: usize = children.len();
                while j > 0
                    invariant
                        *self == (Node::Product { children: *children, length: *length }),
                        exec_all_wf(children@),
                        ns == view_nodes(children@),
                        ns.len() == children@.len(),
                        forall|q: int| 0 <= q < ns.len() ==> #[trigger] ns[q] == view_node(children@[q]),
                        forall|q: int| 0 <= q < ns.len() ==> exec_wf(#[trigger] children@[q]),
                        forall|q: int| 0 <= q < ns.len() ==> node_wf(#[trigger] ns[q]),
                        forall|q: int| 0 <= q < ns.len() ==> !has_adaptive(#[trigger] ns[q]),
                        0 <= j <= ns.len(),
                        idx < prod_len(ns.take(j as int)),
                        result.wf(),
                        result@.union_prefer_right(prod_get(ns.take(j as int), idx as int))
                            == before.union_prefer_right(prod_get(ns, i as int)),
                    decreases j,
                {
                    let child = &children[j - 1];
                    let ghost jj = j - 1;
                    proof {
                        lemma_prod_len_take(ns, jj as int);
                        lemma_node_len_nonneg(ns[jj as int]);
                        assert forall|q: int| 0 <= q < ns.take(jj as int).len() implies node_len(#[trigger] ns.take(jj as int)[q]) >= 0 by {
                            lemma_node_len_nonneg(ns[q]);
                        }
                        lemma_prod_len_nonneg(ns.take(jj as int));
                        lemma_div_step(idx as int, prod_len(ns.take(jj as int)), node_len(ns[jj as int]));
                    }
                    let l = child.len();
                    let ghost rest = prod_get(ns.take(jj as int), (idx / l) as int);
                    proof {
                        assert(ns.take(jj as int + 1).drop_last() =~= ns.take(jj as int));
                        assert(ns.take(jj as int + 1).last() == ns[jj as int]);
                        let g = node_get(ns[jj as int], (idx % l) as int);
                        assert(prod_get(ns.take(jj as int + 1), idx as int) == g.union_prefer_right(rest));
                        lemma_union_assoc(result@, g, rest);
                    }
                    proof {
                        assert((*self)->Product_children == *children);
                        assert(decreases_to!(*self => (*self)->Product_children));
                        assert(decreases_to!(*children => children@));
                        assert(decreases_to!(children@ => children@[jj as int]));
                    }
                    child.get_into(idx % l, result);
                    idx = idx / l;
                    j = j - 1;
                }
                proof {
                    assert(prod_get(ns.take(0), idx as int) =~= Map::empty());
                    assert(result@.union_prefer_right(Map::empty()) =~= result@);
                }
            },
            Node::Assoc { children, length } => {
                let ghost ns = view_nodes(children@);
                proof {
                    lemma_view_nodes(children@);
                    lemma_nodes_wf(ns);
                    lemma_any_adaptive(ns);
                    assert(before.union_prefer_right(assoc_get(ns.take(0), i as int)) =~= before);
                }
                let mut j: usize = 0;
                while j < children.len()
                    invariant
                        *self == (Node::Assoc { children: *children, length: *length }),
                        exec_all_wf(children@),
                        ns == view_nodes(children@),
                        ns.len() == children@.len(),
                        forall|q: int| 0 <= q < ns.len() ==> #[trigger] ns[q] == view_node(children@[q]),
                        forall|q: int| 0 <= q < ns.len() ==> exec_wf(#[trigger] children@[q]),
                        forall|q: int| 0 <= q < ns.len() ==> !has_adaptive(#[trigger] ns[q]),
                        forall|q: int| 0 <= q < ns.len() ==> node_len(#[trigger] ns[q]) == *length,
                        i < *length,
                        0 <= j <= ns.len(),
                        result.wf(),
                        result@ == before.union_prefer_right(assoc_get(ns.take(j as int), i as int)),
                    decreases ns.len() - j,
                {
                    let child = &children[j];
                    proof {
                        assert(ns.take(j as int + 1).drop_last() =~= ns.take(j as int));
                        assert(ns.take(j as int + 1).last() == ns[j as int]);
                        lemma_union_assoc(before, assoc_get(ns.take(j as int), i as int), node_get(ns[j as int], i as int));
                    }
                    proof {
                        assert((*self)->Assoc_children == *children);
                        assert(decreases_to!(*self => (*self)->Assoc_children));
                        assert(decreases_to!(*children => children@));
                        assert(decreases_to!(children@ => children@[j as int]));
                    }
                    child.get_into(i, result);
                    j = j + 1;
                }
                proof {
                    assert(ns.take(j as int) =~= ns);
                }
            },
        }
    }

    /// Number of parameter sets (not for adaptive trees).
    fn len(&self) -> (n: usize)
        requires
            exec_wf(*self),
            !(*self is Adaptive),
        ensures
            n == node_len(view_node(*self)),
    {
        match self {
            Node::Zero => 1,
            Node::List { values, .. } => values.len(),
            Node::Range { range, .. } => range.len(),
            Node::Chunks { plan, .. } => plan.len(),
            Node::Adaptive { .. } => 0,
            Node::Product { length, .. } => *length,
            Node::Assoc { length, .. } => *length,
        }
    }
}

// ---------------------------------------------------------------------
// Building the tree from the parameter definitions.

/// The integers of a resolved integer range.
pub open spec fn range_ints(r: TaskParamRange<i64>) -> Seq<int> {
    match r {
        TaskParamRange::List(v) => ints_of(v@),
        TaskParamRange::RangeExpr(e) => e.values(),
    }
}

/// The most values a static chunk holds: the override when one is given,
/// else the configured count, and at least one.
pub open spec fn static_size(c: ResolvedChunks, ovr: Option<usize>) -> int {
    let n: int = match ovr {
        Some(o) => o as int,
        None => c.default_task_count as int,
    };
    if n < 1 { 1 } else { n }
}

pub open spec fn is_contiguous(c: ResolvedChunks) -> bool {
    c.range_constraint == RangeConstraint::Contiguous
}

/// The leaf of a chunked integer parameter: adaptive when it is the
/// adaptive parameter, a parameter with no values when its range is
/// empty, else its static chunks.
pub open spec fn chunk_leaf(name: Seq<char>, r: TaskParamRange<i64>, c: ResolvedChunks, adaptive: Option<Seq<char>>, ovr: Option<usize>) -> SpaceNode {
    let v = range_ints(r);
    if adaptive == Some(name) {
        SpaceNode::Adaptive { name, values: v, contiguous: is_contiguous(c) }
    } else if v.len() == 0 {
        SpaceNode::Plain { name, ty: TaskParameterType::ChunkInt, values: Seq::empty() }
    } else {
        SpaceNode::Chunks { name, chunks: static_chunks(v, static_size(c, ovr), is_contiguous(c)), contiguous: is_contiguous(c) }
    }
}

/// A float value with negative zero made positive.
pub open spec fn float_view(f: FloatValue) -> ValueView {
    ValueView::Float(if f.bits == FLOAT_SIGN_BIT { 0 } else { f.bits }, f.text@)
}

pub open spec fn string_views(v: Seq<String>) -> Seq<ValueView> {
    v.map_values(|x: String| ValueView::Str(x@))
}

/// The leaf of a parameter. Path values are held as strings.
pub open spec fn leaf_of(name: Seq<char>, p: TaskParameter, adaptive: Option<Seq<char>>, ovr: Option<usize>) -> SpaceNode {
    match p {
        TaskParameter::Int { range, chunks } => match chunks {
            Some(c) => chunk_leaf(name, range, c, adaptive, ovr),
            None => SpaceNode::Plain { name, ty: TaskParameterType::Int, values: int_views(range_ints(range)) },
        },
        TaskParameter::Float { range } =>
            SpaceNode::Plain { name, ty: TaskParameterType::Float, values: range@.map_values(|f: FloatValue| float_view(f)) },
        TaskParameter::String { range } =>
            SpaceNode::Plain { name, ty: TaskParameterType::String, values: string_views(range@) },
        TaskParameter::Path { range } =>
            SpaceNode::Plain { name, ty: TaskParameterType::Path, values: string_views(range@) },
        TaskParameter::ChunkInt { range, chunks } => chunk_leaf(name, range, chunks, adaptive, ovr),
    }
}

/// The initial chunk size of a parameter that chunks adaptively: a
/// chunked integer parameter with a positive target runtime.
pub open spec fn adaptive_of(p: TaskParameter) -> Option<int> {
    match p {
        TaskParameter::ChunkInt { chunks, .. } => match chunks.target_runtime_seconds {
            Some(t) => if t > 0 {
                Some(if chunks.default_task_count < 1 { 1int } else { chunks.default_task_count as int })
            } else {
                None
            },
            None => None,
        },
        _ => None,
    }
}

/// The first parameter, in definition order, that chunks adaptively, with
/// its initial chunk size.
pub open spec fn find_adaptive(entries: Seq<(String, TaskParameter)>) -> Option<(Seq<char>, int)>
    decreases entries.len(),
{
    if entries.len() == 0 {
        None
    } else {
        match adaptive_of(entries[0].1) {
            Some(d) => Some((entries[0].0@, d)),
            None => find_adaptive(entries.drop_first()),
        }
    }
}

/// The adaptive parameter: none when a chunk size override is given.
pub open spec fn adaptive_choice(entries: Seq<(String, TaskParameter)>, ovr: Option<usize>) -> Option<(Seq<char>, int)> {
    if ovr is Some {
        None
    } else {
        find_adaptive(entries)
    }
}

pub open spec fn adaptive_name(entries: Seq<(String, TaskParameter)>, ovr: Option<usize>) -> Option<Seq<char>> {
    match adaptive_choice(entries, ovr) {
        Some(x) => Some(x.0),
        None => None,
    }
}

pub open spec fn initial_size(entries: Seq<(String, TaskParameter)>, ovr: Option<usize>) -> int {
    match adaptive_choice(entries, ovr) {
        Some(x) => x.1,
        None => 1,
    }
}

/// The length of a node with the adaptive chunk size `dtc`: an adaptive
/// node counts as many chunks as `dtc`-sized pieces of its values.
pub open spec fn len_at(n: SpaceNode, dtc: int) -> int {
    match n {
        SpaceNode::Adaptive { values, .. } => ceil_div(values.len() as int, dtc),
        _ => node_len(n),
    }
}

/// The product of the lengths, `None` when a partial product (from the
/// first child on) exceeds `usize::MAX`.
pub open spec fn checked_prod(ns: Seq<SpaceNode>, dtc: int) -> Option<int>
    decreases ns.len(),
{
    if ns.len() == 0 {
        Some(1)
    } else {
        match checked_prod(ns.drop_last(), dtc) {
            None => None,
            Some(p) => if p * len_at(ns.last(), dtc) > usize::MAX { None } else { Some(p * len_at(ns.last(), dtc)) },
        }
    }
}

pub open spec fn msg_overflow() -> Seq<char> {
    "Total parameter space size overflow: the product of parameter dimensions is too large."@
}

pub open spec fn msg_unknown(name: Seq<char>) -> Seq<char> {
    "Unknown parameter '"@ + name + "' in combination expression"@
}

pub open spec fn msg_end() -> Seq<char> {
    "Unexpected end of combination expression"@
}

pub open spec fn msg_paren() -> Seq<char> {
    "Missing closing parenthesis in combination"@
}

pub open spec fn msg_mismatch(a: int, b: int) -> Seq<char> {
    "Associative combination: all members must have the same number of values, got "@ + nat_text(a as nat) + " and "@ + nat_text(b as nat)
}

pub open spec fn msg_one_term() -> Seq<char> {
    "Association expression must have more than one term."@
}

pub open spec fn msg_unexpected(tok: Seq<char>) -> Seq<char> {
    "Unexpected token '"@ + tok + "' in combination expression"@
}

/// A product of the parsed terms; a single term stands alone.
pub open spec fn mk_product(ns: Seq<SpaceNode>, dtc: int) -> Result<SpaceNode, Seq<char>> {
    if ns.len() == 1 {
        Ok(ns[0])
    } else {
        match checked_prod(ns, dtc) {
            None => Err(msg_overflow()),
            Some(p) => Ok(SpaceNode::Product { children: ns, len: p }),
        }
    }
}

/// The first member from `j` on whose length differs from `l`.
pub open spec fn first_mismatch(ns: Seq<SpaceNode>, l: int, dtc: int, j: int) -> Option<int>
    decreases ns.len() - j,
{
    if j >= ns.len() {
        None
    } else if len_at(ns[j], dtc) != l {
        Some(j)
    } else {
        first_mismatch(ns, l, dtc, j + 1)
    }
}

/// An association of the parsed terms: all of the first term's length,
/// and more than one.
pub open spec fn mk_assoc(ns: Seq<SpaceNode>, dtc: int) -> Result<SpaceNode, Seq<char>> {
    let l = len_at(ns[0], dtc);
    match first_mismatch(ns, l, dtc, 1) {
        Some(j) => Err(msg_mismatch(l, len_at(ns[j], dtc))),
        None => if ns.len() == 1 {
            Err(msg_one_term())
        } else {
            Ok(SpaceNode::Assoc { children: ns, len: l })
        },
    }
}

/// The position of the definition named `name`, or -1.
pub open spec fn find_def(entries: Seq<(String, TaskParameter)>, name: Seq<char>) -> int
    decreases entries.len(),
{
    if entries.len() == 0 {
        -1
    } else if entries.last().0@ == name {
        entries.len() - 1
    } else {
        find_def(entries.drop_last(), name)
    }
}

/// The leaf of the parameter named `name`.
pub open spec fn leaf_for(entries: Seq<(String, TaskParameter)>, name: Seq<char>, ad: Option<Seq<char>>, ovr: Option<usize>) -> Result<SpaceNode, Seq<char>> {
    let k = find_def(entries, name);
    if k < 0 {
        Err(msg_unknown(name))
    } else {
        Ok(leaf_of(name, entries[k].1, ad, ovr))
    }
}

/// A parse result: the node and the position after it, or an error message.
pub type Parsed = Result<(SpaceNode, int), Seq<char>>;

/// `product := element ('*' element)*`
pub open spec fn parse_product(t: Seq<Seq<char>>, pos: int, entries: Seq<(String, TaskParameter)>, ad: Option<Seq<char>>, ovr: Option<usize>, dtc: int) -> Parsed
    decreases t.len() - pos, 2int,
{
    if pos < 0 || pos > t.len() {
        Err(Seq::empty())
    } else {
        match parse_element(t, pos, entries, ad, ovr, dtc) {
            Err(e) => Err(e),
            Ok((n, p)) => if p <= pos || p > t.len() {
                Err(Seq::empty())
            } else {
                product_rest(t, p, seq![n], entries, ad, ovr, dtc)
            },
        }
    }
}

pub open spec fn product_rest(t: Seq<Seq<char>>, pos: int, acc: Seq<SpaceNode>, entries: Seq<(String, TaskParameter)>, ad: Option<Seq<char>>, ovr: Option<usize>, dtc: int) -> Parsed
    decreases t.len() - pos, 0int,
{
    if pos < 0 || pos > t.len() {
        Err(Seq::empty())
    } else if pos < t.len() && t[pos] == seq!['*'] {
        match parse_element(t, pos + 1, entries, ad, ovr, dtc) {
            Err(e) => Err(e),
            Ok((n, p)) => if p <= pos + 1 || p > t.len() {
                Err(Seq::empty())
            } else {
                product_rest(t, p, acc.push(n), entries, ad, ovr, dtc)
            },
        }
    } else {
        match mk_product(acc, dtc) {
            Err(e) => Err(e),
            Ok(n) => Ok((n, pos)),
        }
    }
}

/// `element := '(' product (',' product)* ')' | name`
pub open spec fn parse_element(t: Seq<Seq<char>>, pos: int, entries: Seq<(String, TaskParameter)>, ad: Option<Seq<char>>, ovr: Option<usize>, dtc: int) -> Parsed
    decreases t.len() - pos, 1int,
{
    if pos < 0 || pos >= t.len() {
        Err(msg_end())
    } else if t[pos] == seq!['('] {
        match parse_product(t, pos + 1, entries, ad, ovr, dtc) {
            Err(e) => Err(e),
            Ok((n, p)) => if p <= pos + 1 || p > t.len() {
                Err(Seq::empty())
            } else {
                assoc_rest(t, p, seq![n], entries, ad, ovr, dtc)
            },
        }
    } else {
        match leaf_for(entries, t[pos], ad, ovr) {
            Err(e) => Err(e),
            Ok(n) => Ok((n, pos + 1)),
        }
    }
}

pub open spec fn assoc_rest(t: Seq<Seq<char>>, pos: int, acc: Seq<SpaceNode>, entries: Seq<(String, TaskParameter)>, ad: Option<Seq<char>>, ovr: Option<usize>, dtc: int) -> Parsed
    decreases t.len() - pos, 0int,
{
    if pos < 0 || pos > t.len() {
        Err(Seq::empty())
    } else if pos < t.len() && t[pos] == seq![','] {
        match parse_product(t, pos + 1, entries, ad, ovr, dtc) {
            Err(e) => Err(e),
            Ok((n, p)) => if p <= pos + 1 || p > t.len() {
                Err(Seq::empty())
            } else {
                assoc_rest(t, p, acc.push(n), entries, ad, ovr, dtc)
            },
        }
    } else if pos >= t.len() || t[pos] != seq![')'] {
        Err(msg_paren())
    } else {
        match mk_assoc(acc, dtc) {
            Err(e) => Err(e),
            Ok(n) => Ok((n, pos + 1)),
        }
    }
}

// Tokens of a combination expression.

pub open spec fn is_op_char(c: char) -> bool {
    c == '*' || c == '(' || c == ')' || c == ','
}

pub open spec fn flush(toks: Seq<Seq<char>>, cur: Seq<char>) -> Seq<Seq<char>> {
    if cur.len() > 0 { toks.push(cur) } else { toks }
}

/// The tokens completed so far and the name being read.
pub open spec fn tok_scan(s: Seq<char>) -> (Seq<Seq<char>>, Seq<char>)
    decreases s.len(),
{
    if s.len() == 0 {
        (Seq::empty(), Seq::empty())
    } else {
        let (t, cur) = tok_scan(s.drop_last());
        let c = s.last();
        if is_op_char(c) {
            (flush(t, cur).push(seq![c]), Seq::empty())
        } else if char_is_whitespace(c) {
            (flush(t, cur), Seq::empty())
        } else {
            (t, cur.push(c))
        }
    }
}

/// The tokens of a combination expression: each of `*`, `(`, `)`, `,` is a
/// token; other characters form names, which whitespace ends.
pub open spec fn tokens_of(s: Seq<char>) -> Seq<Seq<char>> {
    flush(tok_scan(s).0, tok_scan(s).1)
}

/// The tree of a step's parameter space, or the message of the error that
/// building it meets. No parameters give the empty space; no combination
/// (or `*`) gives the product of all parameters in definition order.
pub open spec fn build_space(entries: Seq<(String, TaskParameter)>, combination: Option<Seq<char>>, ovr: Option<usize>) -> Result<SpaceNode, Seq<char>> {
    if entries.len() == 0 {
        Ok(SpaceNode::Zero)
    } else {
        let ad = adaptive_name(entries, ovr);
        let dtc = initial_size(entries, ovr);
        let toks = tokens_of(match combination { Some(c) => c, None => seq!['*'] });
        if toks == seq![seq!['*']] {
            mk_product(entries.map_values(|e: (String, TaskParameter)| leaf_of(e.0@, e.1, ad, ovr)), dtc)
        } else {
            match parse_product(toks, 0, entries, ad, ovr, dtc) {
                Err(e) => Err(e),
                Ok((n, p)) => if p < toks.len() { Err(msg_unexpected(toks[p])) } else { Ok(n) },
            }
        }
    }
}

/// What a resolved parameter must satisfy: a chunked list's values lie in
/// the range expression domain, a range expression's length fits `usize`,
/// and floats are finite.
pub open spec fn param_valid(p: TaskParameter) -> bool {
    match p {
        TaskParameter::Int { range, chunks } => range_valid(range, chunks is Some),
        TaskParameter::ChunkInt { range, .. } => range_valid(range, true),
        TaskParameter::Float { range } => floats_finite(range@),
        _ => true,
    }
}

/// Every float is finite.
pub open spec fn floats_finite(v: Seq<FloatValue>) -> bool {
    forall|k: int| 0 <= k < v.len() ==> !float_bits_non_finite(#[trigger] v[k].bits)
}

pub open spec fn range_valid(r: TaskParamRange<i64>, chunked: bool) -> bool {
    match r {
        TaskParamRange::RangeExpr(e) => e.values().len() <= usize::MAX,
        TaskParamRange::List(v) => chunked ==> ints_in_domain(v@),
    }
}

/// Every value lies in the range expression domain.
pub open spec fn ints_in_domain(v: Seq<i64>) -> bool {
    forall|k: int| 0 <= k < v.len() ==> in_domain(#[trigger] v[k] as int)
}

/// Definitions with distinct names and valid parameters.
pub open spec fn entries_valid(entries: Seq<(String, TaskParameter)>) -> bool {
    &&& forall|i: int, j: int| 0 <= i < j < entries.len() ==> entries[i].0@ != entries[j].0@
    &&& forall|k: int| 0 <= k < entries.len() ==> param_valid(#[trigger] entries[k].1)
}

// ---------------------------------------------------------------------
// Executable construction.

pub open spec fn strings_view(v: Seq<String>) -> Seq<Seq<char>> {
    v.map_values(|x: String| x@)
}

/// Splits a combination expression into tokens: each of `*`, `(`, `)`,
/// `,` is a token; other characters form names, which whitespace ends.
pub fn tokenize(expr: &str) -> (toks: Vec<String>)
    ensures
        strings_view(toks@) == tokens_of(expr@),
{
    let chars = str_chars(expr);
    let mut tokens: Vec<String> = Vec::new();
    let mut current = String::new();
    let mut k: usize = 0;
    while k < chars.len()
        invariant
            chars@ == expr@,
            0 <= k <= chars@.len(),
            (strings_view(tokens@), current@) == tok_scan(expr@.take(k as int)),
        decreases chars@.len() - k,
    {
        let c = chars[k];
        proof {
            assert(expr@.take(k as int + 1).drop_last() =~= expr@.take(k as int));
            assert(expr@.take(k as int + 1).last() == c);
        }
        if c == '*' || c == '(' || c == ')' || c == ',' {
            if !current.as_str().is_empty() {
                let ghost before = tokens@;
                tokens.push(current);
                current = String::new();
                proof {
                    assert(strings_view(tokens@) =~= strings_view(before).push(tok_scan(expr@.take(k as int)).1));
                }
            }
            let ghost before2 = tokens@;
            tokens.push(char_string(c));
            proof {
                assert(strings_view(tokens@) =~= strings_view(before2).push(seq![c]));
                assert(current@ =~= Seq::<char>::empty());
            }
        } else if is_whitespace(c) {
            if !current.as_str().is_empty() {
                let ghost before = tokens@;
                tokens.push(current);
                current = String::new();
                proof {
                    assert(strings_view(tokens@) =~= strings_view(before).push(tok_scan(expr@.take(k as int)).1));
                }
            }
            proof {
                assert(current@ =~= Seq::<char>::empty());
            }
        } else {
            push_char(&mut current, c);
        }
        proof {
            assert((strings_view(tokens@), current@) == tok_scan(expr@.take(k as int + 1)));
        }
        k = k + 1;
    }
    proof {
        assert(expr@.take(k as int) =~= expr@);
    }
    if !current.as_str().is_empty() {
        let ghost before = tokens@;
        tokens.push(current);
        proof {
            assert(strings_view(tokens@) =~= strings_view(before).push(tok_scan(expr@).1));
        }
    }
    tokens
}

/// Whether the token is the one character `c`.
fn is_token(t: &String, c: char) -> (b: bool)
    ensures
        b == (t@ == seq![c]),
{
    let cs = str_chars(t.as_str());
    if cs.len() == 1 && cs[0] == c {
        proof {
            assert(t@ =~= seq![c]);
        }
        true
    } else {
        proof {
            if t@ == seq![c] {
                assert(cs@[0] == c);
            }
        }
        false
    }
}

fn int_values(v: &Vec<i64>) -> (r: Vec<ParamValue>)
    ensures
        value_views(r@) == int_views(ints_of(v@)),
        forall|k: int| 0 <= k < r@.len() ==> (#[trigger] r@[k]).wf(),
{
    let mut r: Vec<ParamValue> = Vec::new();
    let mut k: usize = 0;
    while k < v.len()
        invariant
            0 <= k <= v@.len(),
            value_views(r@) == int_views(ints_of(v@)).take(k as int),
            forall|q: int| 0 <= q < r@.len() ==> (#[trigger] r@[q]).wf(),
        decreases v@.len() - k,
    {
        let ghost prev = r@;
        r.push(ParamValue::Int(v[k]));
        proof {
            assert(r@ == prev.push(ParamValue::Int(v@[k as int])));
            assert(value_views(r@) =~= value_views(prev).push(ValueView::Int(v@[k as int])));
            assert(value_views(r@) =~= int_views(ints_of(v@)).take(k as int + 1));
        }
        k = k + 1;
    }
    proof {
        assert(int_views(ints_of(v@)).take(k as int) =~= int_views(ints_of(v@)));
    }
    r
}

fn float_values(v: &Vec<FloatValue>) -> (r: Vec<ParamValue>)
    ensures
        value_views(r@) == v@.map_values(|f: FloatValue| float_view(f)),
        forall|k: int| 0 <= k < r@.len() ==> (#[trigger] r@[k]).wf(),
{
    let mut r: Vec<ParamValue> = Vec::new();
    let mut k: usize = 0;
    while k < v.len()
        invariant
            0 <= k <= v@.len(),
            value_views(r@) == v@.map_values(|f: FloatValue| float_view(f)).take(k as int),
            forall|q: int| 0 <= q < r@.len() ==> (#[trigger] r@[q]).wf(),
        decreases v@.len() - k,
    {
        let f = &v[k];
        let bits = if f.bits == FLOAT_SIGN_BIT { 0 } else { f.bits };
        let ghost prev = r@;
        let x = ParamValue::Float(FloatValue { bits, text: f.text.clone() });
        r.push(x);
        proof {
            assert(r@ == prev.push(x));
            assert(value_views(r@) =~= value_views(prev).push(x@));
            assert(value_views(r@) =~= v@.map_values(|f: FloatValue| float_view(f)).take(k as int + 1));
        }
        k = k + 1;
    }
    proof {
        assert(v@.map_values(|f: FloatValue| float_view(f)).take(k as int) =~= v@.map_values(|f: FloatValue| float_view(f)));
    }
    r
}

fn string_values(v: &Vec<String>) -> (r: Vec<ParamValue>)
    ensures
        value_views(r@) == string_views(v@),
        forall|k: int| 0 <= k < r@.len() ==> (#[trigger] r@[k]).wf(),
{
    let mut r: Vec<ParamValue> = Vec::new();
    let mut k: usize = 0;
    while k < v.len()
        invariant
            0 <= k <= v@.len(),
            value_views(r@) == string_views(v@).take(k as int),
            forall|q: int| 0 <= q < r@.len() ==> (#[trigger] r@[q]).wf(),
        decreases v@.len() - k,
    {
        let ghost prev = r@;
        let x = ParamValue::String(v[k].clone());
        r.push(x);
        proof {
            assert(r@ == prev.push(x));
            assert(value_views(r@) =~= value_views(prev).push(x@));
            assert(value_views(r@) =~= string_views(v@).take(k as int + 1));
        }
        k = k + 1;
    }
    proof {
        assert(string_views(v@).take(k as int) =~= string_views(v@));
    }
    r
}

fn copy_ints(v: &Vec<i64>) -> (r: Vec<i64>)
    ensures
        r@ == v@,
{
    let mut r: Vec<i64> = Vec::new();
    let mut k: usize = 0;
    while k < v.len()
        invariant
            0 <= k <= v@.len(),
            r@ == v@.take(k as int),
        decreases v@.len() - k,
    {
        r.push(v[k]);
        proof {
            assert(r@ =~= v@.take(k as int + 1));
        }
        k = k + 1;
    }
    proof {
        assert(v@.take(k as int) =~= v@);
    }
    r
}

fn chunk_source(r: &TaskParamRange<i64>) -> (src: ChunkSource)
    requires
        range_valid(*r, true),
    ensures
        src.wf(),
        src.values() == range_ints(*r),
{
    match r {
        TaskParamRange::List(v) => {
            let c = copy_ints(v);
            let n = c.len();
            let src = ChunkSource::List(c);
            proof {
                assert(src.values().len() == n);
                assert forall|k: int| 0 <= k < src.values().len() implies in_domain(#[trigger] src.values()[k]) by {
                    assert(src.values()[k] == v@[k] as int);
                }
            }
            src
        },
        TaskParamRange::RangeExpr(e) => {
            e.valid();
            proof {
                crate::range_expr::lemma_runs_values_in_domain(e.runs());
            }
            ChunkSource::Range(e.copy())
        },
    }
}

fn make_chunk_leaf(name: &String, r: &TaskParamRange<i64>, c: &ResolvedChunks, ad: &Option<String>, ovr: Option<usize>) -> (n: Node)
    requires
        range_valid(*r, true),
    ensures
        exec_wf(n),
        view_node(n) == chunk_leaf(name@, *r, *c, opt_view(*ad), ovr),
        *ad is None ==> !has_adaptive(view_node(n)),
{
    let contiguous = match c.range_constraint {
        RangeConstraint::Contiguous => true,
        RangeConstraint::Noncontiguous => false,
    };
    let is_adaptive = match ad {
        Some(a) => *a == *name,
        None => false,
    };
    let src = chunk_source(r);
    if is_adaptive {
        return Node::Adaptive { name: name.clone(), source: src, contiguous };
    }
    let total = src.len();
    if total == 0 {
        let n = Node::List { name: name.clone(), param_type: TaskParameterType::ChunkInt, values: Vec::new() };
        proof {
            assert(value_views(Seq::<ParamValue>::empty()) =~= Seq::<ValueView>::empty());
        }
        return n;
    }
    let n0 = match ovr {
        Some(o) => o,
        None => c.default_task_count,
    };
    let size = if n0 < 1 { 1 } else { n0 };
    let plan = ChunkPlan::new(src, size, contiguous);
    Node::Chunks { name: name.clone(), plan }
}

pub open spec fn opt_view(o: Option<String>) -> Option<Seq<char>> {
    match o {
        Some(s) => Some(s@),
        None => None,
    }
}

/// The leaf node of a parameter.
fn make_leaf(name: &String, p: &TaskParameter, ad: &Option<String>, ovr: Option<usize>) -> (n: Node)
    requires
        param_valid(*p),
    ensures
        exec_wf(n),
        view_node(n) == leaf_of(name@, *p, opt_view(*ad), ovr),
        *ad is None ==> !has_adaptive(view_node(n)),
{
    match p {
        TaskParameter::Int { range, chunks } => match chunks {
            Some(c) => make_chunk_leaf(name, range, c, ad, ovr),
            None => match range {
                TaskParamRange::List(v) => Node::List { name: name.clone(), param_type: TaskParameterType::Int, values: int_values(v) },
                TaskParamRange::RangeExpr(e) => {
                    e.valid();
                    Node::Range { name: name.clone(), range: e.copy() }
                },
            },
        },
        TaskParameter::Float { range } => Node::List { name: name.clone(), param_type: TaskParameterType::Float, values: float_values(range) },
        TaskParameter::String { range } => Node::List { name: name.clone(), param_type: TaskParameterType::String, values: string_values(range) },
        TaskParameter::Path { range } => Node::List { name: name.clone(), param_type: TaskParameterType::Path, values: string_values(range) },
        TaskParameter::ChunkInt { range, chunks } => make_chunk_leaf(name, range, chunks, ad, ovr),
    }
}

proof fn lemma_checked_prod_prefix(ns: Seq<SpaceNode>, dtc: int, m: int)
    requires
        0 <= m <= ns.len(),
        checked_prod(ns.take(m), dtc) is None,
    ensures
        checked_prod(ns, dtc) is None,
    decreases ns.len() - m,
{
    if m < ns.len() {
        assert(ns.take(m + 1).drop_last() =~= ns.take(m));
        lemma_checked_prod_prefix(ns, dtc, m + 1);
    } else {
        assert(ns.take(m) =~= ns);
    }
}

proof fn lemma_checked_prod_plain(ns: Seq<SpaceNode>, dtc: int)
    requires
        !any_adaptive(ns),
        checked_prod(ns, dtc) is Some,
    ensures
        checked_prod(ns, dtc) == Some(prod_len(ns)),
    decreases ns.len(),
{
    if ns.len() > 0 {
        assert(!has_adaptive(ns.last()));
        assert(len_at(ns.last(), dtc) == node_len(ns.last()));
        lemma_checked_prod_plain(ns.drop_last(), dtc);
    }
}

spec fn node_result_ok(r: Result<Node, String>, s: Result<SpaceNode, Seq<char>>) -> bool {
    match (r, s) {
        (Ok(n), Ok(sn)) => view_node(n) == sn && exec_wf(n),
        (Err(m), Err(sm)) => m@ == sm,
        _ => false,
    }
}

spec fn parsed_ok(r: Result<(Node, usize), String>, s: Parsed) -> bool {
    match (r, s) {
        (Ok((n, p)), Ok((sn, sp))) => view_node(n) == sn && p == sp && exec_wf(n),
        (Err(m), Err(sm)) => m@ == sm,
        _ => false,
    }
}

proof fn lemma_view_nodes_push(ns: Seq<Node>, n: Node)
    ensures
        view_nodes(ns.push(n)) == view_nodes(ns).push(view_node(n)),
{
    assert(ns.push(n).drop_last() =~= ns);
}

impl Node {
    /// The length of the node with adaptive chunk size `dtc`.
    fn len_at(&self, dtc: usize) -> (n: usize)
        requires
            exec_wf(*self),
            dtc >= 1,
        ensures
            n == len_at(view_node(*self), dtc as int),
    {
        match self {
            Node::Adaptive { source, .. } => {
                let l = source.len();
                if l == 0 {
                    proof {
                        assert(0int / (dtc as int) == 0 && 0int % (dtc as int) == 0) by (nonlinear_arith)
                            requires
                                dtc >= 1,
                        ;
                    }
                    0
                } else if l % dtc != 0 {
                    proof {
                        assert(l >= 1);
                        assert(dtc >= 2);
                        assert(l / dtc < l) by (nonlinear_arith)
                            requires
                                dtc >= 2,
                                l >= 1,
                        {
                            vstd::arithmetic::div_mod::lemma_div_decreases(l as int, dtc as int);
                        }
                    }
                    l / dtc + 1
                } else {
                    l / dtc
                }
            },
            _ => self.len(),
        }
    }
}

/// The product of the children's lengths, `None` on overflow.
fn checked_product_len(children: &Vec<Node>, dtc: usize) -> (r: Option<usize>)
    requires
        forall|j: int| 0 <= j < children@.len() ==> exec_wf(#[trigger] children@[j]),
        dtc >= 1,
    ensures
        match r {
            Some(p) => checked_prod(view_nodes(children@), dtc as int) == Some(p as int),
            None => checked_prod(view_nodes(children@), dtc as int) is None,
        },
{
    let ghost ns = view_nodes(children@);
    proof {
        lemma_view_nodes(children@);
        assert(ns.take(0) =~= Seq::<SpaceNode>::empty());
    }
    let mut acc: usize = 1;
    let mut j: usize = 0;
    while j < children.len()
        invariant
            forall|q: int| 0 <= q < children@.len() ==> exec_wf(#[trigger] children@[q]),
            ns == view_nodes(children@),
            ns.len() == children@.len(),
            forall|q: int| 0 <= q < ns.len() ==> #[trigger] ns[q] == view_node(children@[q]),
            dtc >= 1,
            0 <= j <= ns.len(),
            checked_prod(ns.take(j as int), dtc as int) == Some(acc as int),
        decreases ns.len() - j,
    {
        let l = children[j].len_at(dtc);
        proof {
            assert(ns.take(j as int + 1).drop_last() =~= ns.take(j as int));
            assert(ns.take(j as int + 1).last() == ns[j as int]);
        }
        match acc.checked_mul(l) {
            None => {
                proof {
                    lemma_checked_prod_prefix(ns, dtc as int, j as int + 1);
                }
                return None;
            },
            Some(p) => {
                acc = p;
            },
        }
        j = j + 1;
    }
    proof {
        assert(ns.take(j as int) =~= ns);
    }
    Some(acc)
}

fn make_product(children: Vec<Node>, dtc: usize) -> (r: Result<Node, String>)
    requires
        children@.len() >= 1,
        forall|j: int| 0 <= j < children@.len() ==> exec_wf(#[trigger] children@[j]),
        dtc >= 1,
    ensures
        node_result_ok(r, mk_product(view_nodes(children@), dtc as int)),
        r matches Ok(n) ==> (!any_adaptive(view_nodes(children@)) ==> !has_adaptive(view_node(n))),
{
    let ghost ns = view_nodes(children@);
    proof {
        lemma_view_nodes(children@);
    }
    if children.len() == 1 {
        let mut children = children;
        let ghost before = children@;
        let n = children.pop().unwrap();
        proof {
            assert(before[0] == n);
            lemma_any_adaptive(ns);
        }
        return Ok(n);
    }
    match checked_product_len(&children, dtc) {
        None => {
            let mut m = String::new();
            m.append("Total parameter space size overflow: the product of parameter dimensions is too large.");
            proof {
                assert(m@ =~= msg_overflow());
            }
            Err(m)
        },
        Some(p) => {
            let n = Node::Product { children, length: p };
            proof {
                lemma_nodes_wf(ns);
                lemma_any_adaptive(ns);
                if !any_adaptive(ns) {
                    lemma_checked_prod_plain(ns, dtc as int);
                }
                assert(exec_all_wf(children@));
            }
            Ok(n)
        },
    }
}

fn mismatch_message(a: usize, b: usize) -> (m: String)
    ensures
        m@ == msg_mismatch(a as int, b as int),
{
    let mut m = String::new();
    m.append("Associative combination: all members must have the same number of values, got ");
    append_usize(&mut m, a);
    m.append(" and ");
    append_usize(&mut m, b);
    proof {
        assert(m@ =~= msg_mismatch(a as int, b as int));
    }
    m
}

fn make_assoc(children: Vec<Node>, dtc: usize) -> (r: Result<Node, String>)
    requires
        children@.len() >= 1,
        forall|j: int| 0 <= j < children@.len() ==> exec_wf(#[trigger] children@[j]),
        dtc >= 1,
    ensures
        node_result_ok(r, mk_assoc(view_nodes(children@), dtc as int)),
        r matches Ok(n) ==> (!any_adaptive(view_nodes(children@)) ==> !has_adaptive(view_node(n))),
{
    let ghost ns = view_nodes(children@);
    proof {
        lemma_view_nodes(children@);
    }
    let l = children[0].len_at(dtc);
    let mut j: usize = 1;
    while j < children.len()
        invariant
            forall|q: int| 0 <= q < children@.len() ==> exec_wf(#[trigger] children@[q]),
            ns == view_nodes(children@),
            ns.len() == children@.len(),
            forall|q: int| 0 <= q < ns.len() ==> #[trigger] ns[q] == view_node(children@[q]),
            dtc >= 1,
            1 <= j <= ns.len(),
            l == len_at(ns[0], dtc as int),
            first_mismatch(ns, l as int, dtc as int, 1) == first_mismatch(ns, l as int, dtc as int, j as int),
            forall|q: int| 1 <= q < j ==> len_at(#[trigger] ns[q], dtc as int) == l,
        decreases ns.len() - j,
    {
        let lj = children[j].len_at(dtc);
        if lj != l {
            return Err(mismatch_message(l, lj));
        }
        j = j + 1;
    }
    if children.len() == 1 {
        let mut m = String::new();
        m.append("Association expression must have more than one term.");
        proof {
            assert(m@ =~= msg_one_term());
        }
        return Err(m);
    }
    let n = Node::Assoc { children, length: l };
    proof {
        lemma_nodes_wf(ns);
        lemma_any_adaptive(ns);
        assert(exec_all_wf(children@));
        if !any_adaptive(ns) {
            assert forall|q: int| 0 <= q < ns.len() implies node_len(#[trigger] ns[q]) == l by {
                assert(!has_adaptive(ns[q]));
                assert(ns[q] !is Adaptive);
            }
        }
    }
    Ok(n)
}

/// The position of the definition named `name`.
fn find_definition(defs: &Vec<(String, TaskParameter)>, name: &String) -> (r: Option<usize>)
    ensures
        match r {
            Some(k) => find_def(defs@, name@) == k as int && k < defs@.len(),
            None => find_def(defs@, name@) < 0,
        },
{
    let mut j: usize = defs.len();
    proof {
        assert(defs@.take(j as int) =~= defs@);
    }
    while j > 0
        invariant
            0 <= j <= defs@.len(),
            find_def(defs@, name@) == find_def(defs@.take(j as int), name@),
        decreases j,
    {
        proof {
            assert(defs@.take(j as int).drop_last() =~= defs@.take(j as int - 1));
            assert(defs@.take(j as int).last() == defs@[j as int - 1]);
        }
        if defs[j - 1].0 == *name {
            return Some(j - 1);
        }
        j = j - 1;
    }
    None
}

/// `product := element ('*' element)*`, from `pos`.
fn parse_product_exec(toks: &Vec<String>, pos: usize, defs: &Vec<(String, TaskParameter)>, ad: &Option<String>, ovr: Option<usize>, dtc: usize) -> (r: Result<(Node, usize), String>)
    requires
        pos <= toks@.len(),
        entries_valid(defs@),
        dtc >= 1,
    ensures
        parsed_ok(r, parse_product(strings_view(toks@), pos as int, defs@, opt_view(*ad), ovr, dtc as int)),
        r matches Ok((_, p)) ==> pos < p <= toks@.len(),
        r matches Ok((n, _)) ==> (*ad is None ==> !has_adaptive(view_node(n))),
    decreases toks@.len() - pos, 2int,
{
    let ghost t = strings_view(toks@);
    let ghost goal = parse_product(t, pos as int, defs@, opt_view(*ad), ovr, dtc as int);
    let (first, p0) = match parse_element_exec(toks, pos, defs, ad, ovr, dtc) {
        Err(e) => return Err(e),
        Ok(x) => x,
    };
    let mut p: usize = p0;
    let mut acc: Vec<Node> = Vec::new();
    acc.push(first);
    proof {
        assert(acc@ == seq![first]);
        lemma_view_nodes_push(Seq::empty(), first);
        assert(Seq::<Node>::empty().push(first) =~= seq![first]);
        assert(view_nodes(Seq::<Node>::empty()) =~= Seq::<SpaceNode>::empty());
        assert(view_nodes(acc@) =~= seq![view_node(first)]);
    }
    loop
        invariant
            entries_valid(defs@),
            dtc >= 1,
            t == strings_view(toks@),
            pos < p <= toks@.len(),
            acc@.len() >= 1,
            forall|j: int| 0 <= j < acc@.len() ==> exec_wf(#[trigger] acc@[j]),
            *ad is None ==> forall|j: int| 0 <= j < acc@.len() ==> !has_adaptive(view_node(#[trigger] acc@[j])),
            goal == parse_product(t, pos as int, defs@, opt_view(*ad), ovr, dtc as int),
            product_rest(t, p as int, view_nodes(acc@), defs@, opt_view(*ad), ovr, dtc as int) == goal,
        ensures
            pos < p <= toks@.len(),
            acc@.len() >= 1,
            forall|j: int| 0 <= j < acc@.len() ==> exec_wf(#[trigger] acc@[j]),
            *ad is None ==> forall|j: int| 0 <= j < acc@.len() ==> !has_adaptive(view_node(#[trigger] acc@[j])),
            goal == parse_product(t, pos as int, defs@, opt_view(*ad), ovr, dtc as int),
            product_rest(t, p as int, view_nodes(acc@), defs@, opt_view(*ad), ovr, dtc as int) == goal,
            p >= toks@.len() || t[p as int] != seq!['*'],
        decreases toks@.len() - p,
    {
        if p >= toks.len() {
            break;
        }
        proof {
            assert(t[p as int] == toks@[p as int]@);
        }
        if !is_token(&toks[p], '*') {
            break;
        }
        let sub = parse_element_exec(toks, p + 1, defs, ad, ovr, dtc);
        match sub {
            Err(e) => return Err(e),
            Ok((n, p2)) => {
                proof {
                    lemma_view_nodes_push(acc@, n);
                }
                acc.push(n);
                p = p2;
            },
        }
    }
    proof {
        if p < toks.len() {
            assert(t[p as int] == toks@[p as int]@);
        }
    }
    proof {
        lemma_view_nodes(acc@);
        lemma_any_adaptive(view_nodes(acc@));
    }
    match make_product(acc, dtc) {
        Err(e) => Err(e),
        Ok(n) => Ok((n, p)),
    }
}

/// `element := '(' product (',' product)* ')' | name`, from `pos`.
fn parse_element_exec(toks: &Vec<String>, pos: usize, defs: &Vec<(String, TaskParameter)>, ad: &Option<String>, ovr: Option<usize>, dtc: usize) -> (r: Result<(Node, usize), String>)
    requires
        pos <= toks@.len(),
        entries_valid(defs@),
        dtc >= 1,
    ensures
        parsed_ok(r, parse_element(strings_view(toks@), pos as int, defs@, opt_view(*ad), ovr, dtc as int)),
        r matches Ok((_, p)) ==> pos < p <= toks@.len(),
        r matches Ok((n, _)) ==> (*ad is None ==> !has_adaptive(view_node(n))),
    decreases toks@.len() - pos, 1int,
{
    let ghost t = strings_view(toks@);
    let ghost goal = parse_element(t, pos as int, defs@, opt_view(*ad), ovr, dtc as int);
    if pos >= toks.len() {
        let mut m = String::new();
        m.append("Unexpected end of combination expression");
        proof {
            assert(m@ =~= msg_end());
        }
        return Err(m);
    }
    proof {
        assert(t[pos as int] == toks@[pos as int]@);
    }
    if is_token(&toks[pos], '(') {
        let (first, p0) = match parse_product_exec(toks, pos + 1, defs, ad, ovr, dtc) {
            Err(e) => return Err(e),
            Ok(x) => x,
        };
        let mut p: usize = p0;
        let mut acc: Vec<Node> = Vec::new();
        acc.push(first);
        proof {
            lemma_view_nodes_push(Seq::empty(), first);
            assert(Seq::<Node>::empty().push(first) =~= seq![first]);
            assert(view_nodes(Seq::<Node>::empty()) =~= Seq::<SpaceNode>::empty());
            assert(view_nodes(acc@) =~= seq![view_node(first)]);
        }
        loop
            invariant
                entries_valid(defs@),
                dtc >= 1,
                t == strings_view(toks@),
                pos < p <= toks@.len(),
                acc@.len() >= 1,
                forall|j: int| 0 <= j < acc@.len() ==> exec_wf(#[trigger] acc@[j]),
                *ad is None ==> forall|j: int| 0 <= j < acc@.len() ==> !has_adaptive(view_node(#[trigger] acc@[j])),
            *ad is None ==> forall|j: int| 0 <= j < acc@.len() ==> !has_adaptive(view_node(#[trigger] acc@[j])),
                goal == parse_element(t, pos as int, defs@, opt_view(*ad), ovr, dtc as int),
                assoc_rest(t, p as int, view_nodes(acc@), defs@, opt_view(*ad), ovr, dtc as int) == goal,
            ensures
                pos < p <= toks@.len(),
                acc@.len() >= 1,
                forall|j: int| 0 <= j < acc@.len() ==> exec_wf(#[trigger] acc@[j]),
                *ad is None ==> forall|j: int| 0 <= j < acc@.len() ==> !has_adaptive(view_node(#[trigger] acc@[j])),
            *ad is None ==> forall|j: int| 0 <= j < acc@.len() ==> !has_adaptive(view_node(#[trigger] acc@[j])),
                goal == parse_element(t, pos as int, defs@, opt_view(*ad), ovr, dtc as int),
                assoc_rest(t, p as int, view_nodes(acc@), defs@, opt_view(*ad), ovr, dtc as int) == goal,
                p >= toks@.len() || t[p as int] != seq![','],
            decreases toks@.len() - p,
        {
            if p >= toks.len() {
                break;
            }
            proof {
                assert(t[p as int] == toks@[p as int]@);
            }
            if !is_token(&toks[p], ',') {
                break;
            }
            match parse_product_exec(toks, p + 1, defs, ad, ovr, dtc) {
                Err(e) => return Err(e),
                Ok((n, p2)) => {
                    proof {
                        lemma_view_nodes_push(acc@, n);
                    }
                    acc.push(n);
                    p = p2;
                },
            }
        }
        proof {
            if p < toks.len() {
                assert(t[p as int] == toks@[p as int]@);
            }
        }
        if p >= toks.len() || !is_token(&toks[p], ')') {
            let mut m = String::new();
            m.append("Missing closing parenthesis in combination");
            proof {
                assert(m@ =~= msg_paren());
            }
            return Err(m);
        }
        proof {
            lemma_view_nodes(acc@);
            lemma_any_adaptive(view_nodes(acc@));
        }
        match make_assoc(acc, dtc) {
            Err(e) => Err(e),
            Ok(n) => Ok((n, p + 1)),
        }
    } else {
        let name = &toks[pos];
        match find_definition(defs, name) {
            None => {
                let mut m = String::new();
                m.append("Unknown parameter '");
                m.append(name.as_str());
                m.append("' in combination expression");
                proof {
                    assert(m@ =~= msg_unknown(name@));
                }
                Err(m)
            },
            Some(k) => {
                proof {
                    assert(param_valid(defs@[k as int].1));
                }
                let n = make_leaf(name, &defs[k].1, ad, ovr);
                Ok((n, pos + 1))
            },
        }
    }
}

// ---------------------------------------------------------------------
// Iteration with an adaptive chunk parameter.
//
// With an adaptive parameter, iteration is a walk with state: a subtree
// without the adaptive parameter steps through its indices; the adaptive
// parameter cuts its next chunk with the chunk size in force; a product
// advances its fastest child first (a child holding the adaptive parameter
// is faster than the others, and otherwise the rightmost is fastest),
// restarting a child that is done and carrying to the next; an association
// advances all its children together.

/// The iteration state of a node.
pub enum CursorView {
    /// The next index of a subtree without an adaptive parameter.
    At(int),
    /// The position of the next adaptive chunk.
    Cut(int),
    /// A product: whether it has started, its children's states, and the
    /// parameter set each child gave last.
    Prod { started: bool, subs: Seq<CursorView>, current: Seq<ParamMap> },
    /// An association: its children's states.
    Assoc { subs: Seq<CursorView> },
}

/// The state of a node before its first step.
pub open spec fn cursor_reset(n: SpaceNode) -> CursorView
    decreases n,
{
    if !has_adaptive(n) {
        CursorView::At(0)
    } else {
        match n {
            SpaceNode::Adaptive { .. } => CursorView::Cut(0),
            SpaceNode::Product { children, .. } => CursorView::Prod {
                started: false,
                subs: cursor_resets(children),
                current: Seq::new(children.len(), |j: int| Map::<Seq<char>, (TaskParameterType, ValueView)>::empty()),
            },
            SpaceNode::Assoc { children, .. } => CursorView::Assoc { subs: cursor_resets(children) },
            _ => CursorView::At(0),
        }
    }
}

pub open spec fn cursor_resets(ns: Seq<SpaceNode>) -> Seq<CursorView>
    decreases ns,
{
    if ns.len() == 0 {
        Seq::empty()
    } else {
        cursor_resets(ns.drop_last()).push(cursor_reset(ns.last()))
    }
}

/// The positions of the children with (`adaptive`) or without an adaptive
/// parameter, from the last to the first.
pub open spec fn rev_positions(ns: Seq<SpaceNode>, adaptive: bool) -> Seq<int>
    decreases ns.len(),
{
    if ns.len() == 0 {
        Seq::empty()
    } else if has_adaptive(ns.last()) == adaptive {
        seq![ns.len() - 1] + rev_positions(ns.drop_last(), adaptive)
    } else {
        rev_positions(ns.drop_last(), adaptive)
    }
}

/// The order in which a product advances its children, fastest first.
pub open spec fn carry_order(ns: Seq<SpaceNode>) -> Seq<int> {
    rev_positions(ns, true) + rev_positions(ns, false)
}

/// The union of the parameter sets, a later one winning on a shared name.
pub open spec fn union_all(ms: Seq<ParamMap>) -> ParamMap
    decreases ms.len(),
{
    if ms.len() == 0 {
        Map::empty()
    } else {
        union_all(ms.drop_last()).union_prefer_right(ms.last())
    }
}

pub open spec fn size_floor(dtc: int) -> int {
    if dtc < 1 { 1 } else { dtc }
}

/// One step of a node from state `c` with adaptive chunk size `dtc`: the
/// parameter set it gives (`None` when it is done) and its next state.
pub open spec fn cursor_next(n: SpaceNode, c: CursorView, dtc: int) -> (Option<ParamMap>, CursorView)
    decreases n, 0int,
{
    if !has_adaptive(n) {
        match c {
            CursorView::At(k) => if 0 <= k < node_len(n) {
                (Some(node_get(n, k)), CursorView::At(k + 1))
            } else {
                (None, c)
            },
            _ => (None, c),
        }
    } else {
        match n {
            SpaceNode::Adaptive { name, values, contiguous } => match c {
                CursorView::Cut(k) => if 0 <= k < values.len() {
                    (
                        Some(map![name => (TaskParameterType::ChunkInt, ValueView::Range(adaptive_chunk(values, k, size_floor(dtc), contiguous), contiguous))]),
                        CursorView::Cut(adaptive_end(values, k, size_floor(dtc), contiguous)),
                    )
                } else {
                    (None, c)
                },
                _ => (None, c),
            },
            SpaceNode::Product { children, .. } => match c {
                CursorView::Prod { started, subs, current } => if subs.len() != children.len() || current.len() != children.len() {
                    (None, c)
                } else if !started {
                    let (ok, s2, c2) = init_step(children, subs, current, 0, dtc);
                    (if ok { Some(union_all(c2)) } else { None }, CursorView::Prod { started: true, subs: s2, current: c2 })
                } else {
                    let (outcome, s2, c2) = carry_step(children, subs, current, carry_order(children), 0, dtc);
                    (if outcome == 0 { Some(union_all(c2)) } else { None }, CursorView::Prod { started: true, subs: s2, current: c2 })
                },
                _ => (None, c),
            },
            SpaceNode::Assoc { children, .. } => match c {
                CursorView::Assoc { subs } => if subs.len() != children.len() {
                    (None, c)
                } else {
                    let (r, s2) = assoc_step(children, subs, 0, Map::empty(), dtc);
                    (r, CursorView::Assoc { subs: s2 })
                },
                _ => (None, c),
            },
            _ => (None, c),
        }
    }
}

/// A product's first step: each child, in order, gives its first set;
/// fails at the first child that gives none.
pub open spec fn init_step(ns: Seq<SpaceNode>, subs: Seq<CursorView>, cur: Seq<ParamMap>, j: int, dtc: int) -> (bool, Seq<CursorView>, Seq<ParamMap>)
    decreases ns, ns.len() - j,
{
    if j < 0 || j >= ns.len() || subs.len() != ns.len() {
        (true, subs, cur)
    } else {
        let (r, s1) = cursor_next(ns[j], subs[j], dtc);
        match r {
            None => (false, subs.update(j, s1), cur),
            Some(m) => init_step(ns, subs.update(j, s1), cur.update(j, m), j + 1, dtc),
        }
    }
}

/// A product's later step, from position `p` of the carry order: the
/// child there advances; when it is done it restarts and the carry moves
/// on. The outcome is 0 when some child advanced, 1 when every child
/// restarted (the product is done), 2 when a restarted child gives nothing.
pub open spec fn carry_step(ns: Seq<SpaceNode>, subs: Seq<CursorView>, cur: Seq<ParamMap>, ord: Seq<int>, p: int, dtc: int) -> (int, Seq<CursorView>, Seq<ParamMap>)
    decreases ns, ord.len() - p,
{
    if p < 0 || p >= ord.len() {
        (1, subs, cur)
    } else {
        let j = ord[p];
        if j < 0 || j >= ns.len() || subs.len() != ns.len() {
            (2, subs, cur)
        } else {
            let (r, s1) = cursor_next(ns[j], subs[j], dtc);
            match r {
                Some(m) => (0, subs.update(j, s1), cur.update(j, m)),
                None => {
                    let (r2, s3) = cursor_next(ns[j], cursor_reset(ns[j]), dtc);
                    match r2 {
                        None => (2, subs.update(j, s3), cur),
                        Some(m2) => carry_step(ns, subs.update(j, s3), cur.update(j, m2), ord, p + 1, dtc),
                    }
                },
            }
        }
    }
}

/// An association's step: each child, in order, steps; the sets are
/// joined, and the association is done when a child is.
pub open spec fn assoc_step(ns: Seq<SpaceNode>, subs: Seq<CursorView>, j: int, acc: ParamMap, dtc: int) -> (Option<ParamMap>, Seq<CursorView>)
    decreases ns, ns.len() - j,
{
    if j < 0 || j >= ns.len() || subs.len() != ns.len() {
        (Some(acc), subs)
    } else {
        let (r, s1) = cursor_next(ns[j], subs[j], dtc);
        match r {
            None => (None, subs.update(j, s1)),
            Some(m) => assoc_step(ns, subs.update(j, s1), j + 1, acc.union_prefer_right(m), dtc),
        }
    }
}

/// The iteration state of a node.
enum Cursor {
    At(usize),
    Cut(usize),
    Prod { started: bool, subs: Vec<Cursor>, current: Vec<TaskParameterSet> },
    Assoc { subs: Vec<Cursor> },
}

spec fn set_views(v: Seq<TaskParameterSet>) -> Seq<ParamMap> {
    v.map_values(|x: TaskParameterSet| x@)
}

spec fn view_cursor(c: Cursor) -> CursorView
    decreases c,
{
    match c {
        Cursor::At(k) => CursorView::At(k as int),
        Cursor::Cut(k) => CursorView::Cut(k as int),
        Cursor::Prod { started, subs, current } =>
            CursorView::Prod { started, subs: view_cursors(subs@), current: set_views(current@) },
        Cursor::Assoc { subs } => CursorView::Assoc { subs: view_cursors(subs@) },
    }
}

spec fn view_cursors(cs: Seq<Cursor>) -> Seq<CursorView>
    decreases cs,
{
    if cs.len() == 0 {
        Seq::empty()
    } else {
        view_cursors(cs.drop_last()).push(view_cursor(cs.last()))
    }
}

/// Validity of a state: every parameter set it holds is well formed.
spec fn cursor_ok(c: Cursor) -> bool
    decreases c,
{
    match c {
        Cursor::Prod { subs, current, .. } =>
            cursors_ok(subs@) && forall|j: int| 0 <= j < current@.len() ==> (#[trigger] current@[j]).wf(),
        Cursor::Assoc { subs } => cursors_ok(subs@),
        _ => true,
    }
}

spec fn cursors_ok(cs: Seq<Cursor>) -> bool
    decreases cs,
{
    if cs.len() == 0 {
        true
    } else {
        cursors_ok(cs.drop_last()) && cursor_ok(cs.last())
    }
}

proof fn lemma_view_cursors(cs: Seq<Cursor>)
    ensures
        view_cursors(cs).len() == cs.len(),
        forall|j: int| 0 <= j < cs.len() ==> #[trigger] view_cursors(cs)[j] == view_cursor(cs[j]),
        cursors_ok(cs) <==> forall|j: int| 0 <= j < cs.len() ==> cursor_ok(#[trigger] cs[j]),
    decreases cs.len(),
{
    if cs.len() > 0 {
        lemma_view_cursors(cs.drop_last());
        assert forall|j: int| 0 <= j < cs.len() implies #[trigger] view_cursors(cs)[j] == view_cursor(cs[j]) by {
            if j < cs.len() - 1 {
                assert(cs.drop_last()[j] == cs[j]);
            }
        }
        if cursors_ok(cs) {
            assert forall|j: int| 0 <= j < cs.len() implies cursor_ok(#[trigger] cs[j]) by {
                if j < cs.len() - 1 {
                    assert(cs.drop_last()[j] == cs[j]);
                }
            }
        }
        if forall|j: int| 0 <= j < cs.len() ==> cursor_ok(#[trigger] cs[j]) {
            assert forall|j: int| 0 <= j < cs.drop_last().len() implies cursor_ok(#[trigger] cs.drop_last()[j]) by {
                assert(cs.drop_last()[j] == cs[j]);
            }
            assert(cursor_ok(cs[cs.len() - 1]));
        }
    }
}

/// Views of a list of states after one is replaced.
proof fn lemma_view_cursors_update(cs: Seq<Cursor>, j: int, x: Cursor)
    requires
        0 <= j < cs.len(),
    ensures
        view_cursors(cs.update(j, x)) == view_cursors(cs).update(j, view_cursor(x)),
        cursors_ok(cs) && cursor_ok(x) ==> cursors_ok(cs.update(j, x)),
{
    lemma_view_cursors(cs);
    lemma_view_cursors(cs.update(j, x));
    assert(view_cursors(cs.update(j, x)) =~= view_cursors(cs).update(j, view_cursor(x)));
}

proof fn lemma_union_all_push(ms: Seq<ParamMap>, m: ParamMap)
    ensures
        union_all(ms.push(m)) == union_all(ms).union_prefer_right(m),
{
    assert(ms.push(m).drop_last() =~= ms);
}

/// The union of the sets, a later one winning on a shared name.
fn union_sets(sets: &Vec<TaskParameterSet>) -> (r: TaskParameterSet)
    requires
        forall|j: int| 0 <= j < sets@.len() ==> (#[trigger] sets@[j]).wf(),
    ensures
        r.wf(),
        r@ == union_all(set_views(sets@)),
{
    let mut r = TaskParameterSet::new();
    let mut j: usize = 0;
    proof {
        assert(set_views(sets@).take(0) =~= Seq::<ParamMap>::empty());
    }
    while j < sets.len()
        invariant
            forall|q: int| 0 <= q < sets@.len() ==> (#[trigger] sets@[q]).wf(),
            0 <= j <= sets@.len(),
            r.wf(),
            r@ == union_all(set_views(sets@).take(j as int)),
        decreases sets@.len() - j,
    {
        r.extend_from(&sets[j]);
        proof {
            assert(set_views(sets@).take(j as int + 1) =~= set_views(sets@).take(j as int).push(sets@[j as int]@));
            lemma_union_all_push(set_views(sets@).take(j as int), sets@[j as int]@);
        }
        j = j + 1;
    }
    proof {
        assert(set_views(sets@).take(j as int) =~= set_views(sets@));
    }
    r
}

/// Replaces the state at `j`.
fn put_cursor(subs: &mut Vec<Cursor>, j: usize, x: Cursor) -> (old_x: Cursor)
    requires
        j < old(subs)@.len(),
    ensures
        final(subs)@ == old(subs)@.update(j as int, x),
        old_x == old(subs)@[j as int],
{
    let y = subs.remove(j);
    subs.insert(j, x);
    proof {
        assert(subs@ =~= old(subs)@.update(j as int, x));
    }
    y
}

pub open spec fn opt_set_view(r: Option<TaskParameterSet>) -> Option<ParamMap> {
    match r {
        Some(s) => Some(s@),
        None => None,
    }
}

impl Node {
    /// Whether the tree holds an adaptive chunk parameter.
    fn contains_adaptive(&self) -> (b: bool)
        ensures
            b == has_adaptive(view_node(*self)),
        decreases *self,
    {
        match self {
            Node::Adaptive { .. } => true,
            Node::Product { children, .. } => contains_adaptive_in(children, Ghost(*self)),
            Node::Assoc { children, .. } => contains_adaptive_in(children, Ghost(*self)),
            _ => false,
        }
    }

}

fn contains_adaptive_in(children: &Vec<Node>, Ghost(parent): Ghost<Node>) -> (b: bool)
    requires
        decreases_to!(parent => *children),
    ensures
        b == any_adaptive(view_nodes(children@)),
    decreases parent, 0int,
{
    let ghost ns = view_nodes(children@);
    proof {
        lemma_view_nodes(children@);
        lemma_any_adaptive(ns);
    }
    let mut j: usize = 0;
    while j < children.len()
        invariant
            decreases_to!(parent => *children),
            ns == view_nodes(children@),
            ns.len() == children@.len(),
            forall|q: int| 0 <= q < ns.len() ==> #[trigger] ns[q] == view_node(children@[q]),
            0 <= j <= ns.len(),
            forall|q: int| 0 <= q < j ==> !has_adaptive(#[trigger] ns[q]),
            any_adaptive(ns) <==> exists|q: int| 0 <= q < ns.len() && has_adaptive(#[trigger] ns[q]),
        decreases ns.len() - j,
    {
        proof {
            assert(decreases_to!(*children => children@));
            assert(decreases_to!(children@ => children@[j as int]));
        }
        if children[j].contains_adaptive() {
            proof {
                assert(has_adaptive(ns[j as int]));
            }
            return true;
        }
        j = j + 1;
    }
    false
}

proof fn lemma_cursor_resets(ns: Seq<SpaceNode>)
    ensures
        cursor_resets(ns).len() == ns.len(),
        forall|j: int| 0 <= j < ns.len() ==> #[trigger] cursor_resets(ns)[j] == cursor_reset(ns[j]),
    decreases ns.len(),
{
    if ns.len() > 0 {
        lemma_cursor_resets(ns.drop_last());
        assert forall|j: int| 0 <= j < ns.len() implies #[trigger] cursor_resets(ns)[j] == cursor_reset(ns[j]) by {
            if j < ns.len() - 1 {
                assert(ns.drop_last()[j] == ns[j]);
            }
        }
    }
}

impl Node {
    /// The state of the node before its first step.
    fn reset(&self) -> (c: Cursor)
        requires
            exec_wf(*self),
        ensures
            view_cursor(c) == cursor_reset(view_node(*self)),
            cursor_ok(c),
        decreases *self, 1int,
    {
        if !self.contains_adaptive() {
            return Cursor::At(0);
        }
        match self {
            Node::Adaptive { .. } => Cursor::Cut(0),
            Node::Product { children, .. } => {
                proof {
                    assert((*self)->Product_children == *children);
                    assert(decreases_to!(*self => (*self)->Product_children));
                    lemma_view_nodes(children@);
                }
                let subs = reset_all(children, Ghost(*self));
                let mut current: Vec<TaskParameterSet> = Vec::new();
                let mut j: usize = 0;
                while j < children.len()
                    invariant
                        0 <= j <= children@.len(),
                        current@.len() == j,
                        forall|q: int| 0 <= q < j ==> (#[trigger] current@[q]).wf() && current@[q]@ == Map::<Seq<char>, (TaskParameterType, ValueView)>::empty(),
                    decreases children@.len() - j,
                {
                    current.push(TaskParameterSet::new());
                    j = j + 1;
                }
                proof {
                    assert(set_views(current@) =~= Seq::new(view_nodes(children@).len(), |j: int| Map::<Seq<char>, (TaskParameterType, ValueView)>::empty()));
                }
                Cursor::Prod { started: false, subs, current }
            },
            Node::Assoc { children, .. } => {
                proof {
                    assert((*self)->Assoc_children == *children);
                    assert(decreases_to!(*self => (*self)->Assoc_children));
                }
                let subs = reset_all(children, Ghost(*self));
                Cursor::Assoc { subs }
            },
            _ => Cursor::At(0),
        }
    }
}

fn reset_all(children: &Vec<Node>, Ghost(parent): Ghost<Node>) -> (r: Vec<Cursor>)
    requires
        decreases_to!(parent => *children),
        exec_all_wf(children@),
    ensures
        view_cursors(r@) == cursor_resets(view_nodes(children@)),
        cursors_ok(r@),
    decreases parent, 0int,
{
    let ghost ns = view_nodes(children@);
    proof {
        lemma_view_nodes(children@);
        lemma_cursor_resets(ns);
    }
    let mut r: Vec<Cursor> = Vec::new();
    let mut j: usize = 0;
    while j < children.len()
        invariant
            decreases_to!(parent => *children),
            ns == view_nodes(children@),
            ns.len() == children@.len(),
            forall|q: int| 0 <= q < ns.len() ==> #[trigger] ns[q] == view_node(children@[q]),
            forall|q: int| 0 <= q < ns.len() ==> exec_wf(#[trigger] children@[q]),
            cursor_resets(ns).len() == ns.len(),
            forall|q: int| 0 <= q < ns.len() ==> #[trigger] cursor_resets(ns)[q] == cursor_reset(ns[q]),
            0 <= j <= ns.len(),
            view_cursors(r@) == cursor_resets(ns).take(j as int),
            cursors_ok(r@),
        decreases ns.len() - j,
    {
        proof {
            assert(decreases_to!(*children => children@));
            assert(decreases_to!(children@ => children@[j as int]));
        }
        let c = children[j].reset();
        let ghost prev = r@;
        r.push(c);
        proof {
            assert(r@.drop_last() =~= prev);
            assert(view_cursors(r@) =~= cursor_resets(ns).take(j as int + 1));
        }
        j = j + 1;
    }
    proof {
        assert(cursor_resets(ns).take(j as int) =~= cursor_resets(ns));
    }
    r
}

proof fn lemma_rev_positions(ns: Seq<SpaceNode>, a: bool)
    ensures
        forall|q: int| 0 <= q < rev_positions(ns, a).len() ==> 0 <= #[trigger] rev_positions(ns, a)[q] < ns.len(),
    decreases ns.len(),
{
    if ns.len() > 0 {
        lemma_rev_positions(ns.drop_last(), a);
        let rest = rev_positions(ns.drop_last(), a);
        if has_adaptive(ns.last()) == a {
            assert forall|q: int| 0 <= q < rev_positions(ns, a).len() implies 0 <= #[trigger] rev_positions(ns, a)[q] < ns.len() by {
                if q > 0 {
                    assert(rev_positions(ns, a)[q] == rest[q - 1]);
                }
            }
        }
    }
}

fn positions_exec(children: &Vec<Node>, a: bool) -> (r: Vec<usize>)
    ensures
        r@.map_values(|x: usize| x as int) == rev_positions(view_nodes(children@), a),
{
    let ghost ns = view_nodes(children@);
    proof {
        lemma_view_nodes(children@);
        assert(ns.take(ns.len() as int) =~= ns);
    }
    let mut r: Vec<usize> = Vec::new();
    let mut k: usize = children.len();
    while k > 0
        invariant
            ns == view_nodes(children@),
            ns.len() == children@.len(),
            forall|q: int| 0 <= q < ns.len() ==> #[trigger] ns[q] == view_node(children@[q]),
            0 <= k <= ns.len(),
            r@.map_values(|x: usize| x as int) + rev_positions(ns.take(k as int), a) == rev_positions(ns, a),
        decreases k,
    {
        proof {
            assert(ns.take(k as int).drop_last() =~= ns.take(k as int - 1));
            assert(ns.take(k as int).last() == ns[k as int - 1]);
        }
        let ghost prev = r@;
        if children[k - 1].contains_adaptive() == a {
            r.push(k - 1);
            proof {
                assert(r@.map_values(|x: usize| x as int) =~= prev.map_values(|x: usize| x as int).push(k as int - 1));
                assert(r@.map_values(|x: usize| x as int) + rev_positions(ns.take(k as int - 1), a) =~= prev.map_values(|x: usize| x as int) + rev_positions(ns.take(k as int), a));
            }
        }
        k = k - 1;
    }
    proof {
        assert(rev_positions(ns.take(0), a) =~= Seq::<int>::empty());
        assert(r@.map_values(|x: usize| x as int) + Seq::<int>::empty() =~= r@.map_values(|x: usize| x as int));
    }
    r
}

fn carry_order_exec(children: &Vec<Node>) -> (r: Vec<usize>)
    ensures
        r@.map_values(|x: usize| x as int) == carry_order(view_nodes(children@)),
        forall|q: int| 0 <= q < r@.len() ==> #[trigger] r@[q] < children@.len(),
{
    let mut a = positions_exec(children, true);
    let mut b = positions_exec(children, false);
    let ghost av = a@;
    let ghost bv = b@;
    a.append(&mut b);
    proof {
        lemma_view_nodes(children@);
        assert(a@ == av + bv);
        assert(a@.map_values(|x: usize| x as int) =~= av.map_values(|x: usize| x as int) + bv.map_values(|x: usize| x as int));
        lemma_rev_positions(view_nodes(children@), true);
        lemma_rev_positions(view_nodes(children@), false);
        assert forall|q: int| 0 <= q < a@.len() implies #[trigger] a@[q] < children@.len() by {
            assert(a@.map_values(|x: usize| x as int)[q] == a@[q] as int);
            assert(carry_order(view_nodes(children@))[q] == a@[q] as int);
        }
    }
    a
}

/// The result a product's step has in the model.
spec fn product_next(ns: Seq<SpaceNode>, started: bool, sv: Seq<CursorView>, cv: Seq<ParamMap>, dtc: int) -> (Option<ParamMap>, CursorView) {
    if sv.len() != ns.len() || cv.len() != ns.len() {
        (None, CursorView::Prod { started, subs: sv, current: cv })
    } else if !started {
        let (ok, s2, c2) = init_step(ns, sv, cv, 0, dtc);
        (if ok { Some(union_all(c2)) } else { None }, CursorView::Prod { started: true, subs: s2, current: c2 })
    } else {
        let (outcome, s2, c2) = carry_step(ns, sv, cv, carry_order(ns), 0, dtc);
        (if outcome == 0 { Some(union_all(c2)) } else { None }, CursorView::Prod { started: true, subs: s2, current: c2 })
    }
}

/// The result an association's step has in the model.
spec fn assoc_next(ns: Seq<SpaceNode>, sv: Seq<CursorView>, dtc: int) -> (Option<ParamMap>, CursorView) {
    if sv.len() != ns.len() {
        (None, CursorView::Assoc { subs: sv })
    } else {
        let (r, s2) = assoc_step(ns, sv, 0, Map::empty(), dtc);
        (r, CursorView::Assoc { subs: s2 })
    }
}

proof fn lemma_set_views_update(v: Seq<TaskParameterSet>, j: int, x: TaskParameterSet)
    requires
        0 <= j < v.len(),
    ensures
        set_views(v.update(j, x)) == set_views(v).update(j, x@),
{
    assert(set_views(v.update(j, x)) =~= set_views(v).update(j, x@));
}

impl Node {
    /// One step of the node from state `c`.
    fn step(&self, c: Cursor, dtc: usize) -> (r: (Option<TaskParameterSet>, Cursor))
        requires
            exec_wf(*self),
            cursor_ok(c),
        ensures
            cursor_ok(r.1),
            r.0 matches Some(s) ==> s.wf(),
            (opt_set_view(r.0), view_cursor(r.1)) == cursor_next(view_node(*self), view_cursor(c), dtc as int),
        decreases *self, 1int,
    {
        if !self.contains_adaptive() {
            match c {
                Cursor::At(k) => {
                    if k < self.len() {
                        let mut s = TaskParameterSet::new();
                        self.get_into(k, &mut s);
                        proof {
                            assert(Map::<Seq<char>, (TaskParameterType, ValueView)>::empty().union_prefer_right(node_get(view_node(*self), k as int))
                                =~= node_get(view_node(*self), k as int));
                        }
                        return (Some(s), Cursor::At(k + 1));
                    } else {
                        return (None, Cursor::At(k));
                    }
                },
                other => {
                    return (None, other);
                },
            }
        }
        match self {
            Node::Adaptive { name, source, contiguous } => match c {
                Cursor::Cut(k) => {
                    if k < source.len() {
                        let size: usize = if dtc < 1 { 1 } else { dtc };
                        let (range, e) = adaptive_cut(source, k, size, *contiguous);
                        let mut s = TaskParameterSet::new();
                        s.insert(name.clone(), TaskParameterValue { param_type: TaskParameterType::ChunkInt, value: ParamValue::RangeExpr(range) });
                        proof {
                            assert(s@ =~= map![name@ => (TaskParameterType::ChunkInt, ValueView::Range(adaptive_chunk(source.values(), k as int, size_floor(dtc as int), *contiguous), *contiguous))]);
                        }
                        (Some(s), Cursor::Cut(e))
                    } else {
                        (None, Cursor::Cut(k))
                    }
                },
                other => (None, other),
            },
            Node::Product { children, length } => match c {
                Cursor::Prod { started, subs, current } => {
                    proof {
                        assert((*self)->Product_children == *children);
                        assert(decreases_to!(*self => (*self)->Product_children));
                    }
                    product_step(children, started, subs, current, dtc, Ghost(*self))
                },
                other => (None, other),
            },
            Node::Assoc { children, length } => match c {
                Cursor::Assoc { subs } => {
                    proof {
                        assert((*self)->Assoc_children == *children);
                        assert(decreases_to!(*self => (*self)->Assoc_children));
                    }
                    assoc_step_exec(children, subs, dtc, Ghost(*self))
                },
                other => (None, other),
            },
            _ => (None, c),
        }
    }
}

fn product_step(children: &Vec<Node>, started: bool, subs_in: Vec<Cursor>, current_in: Vec<TaskParameterSet>, dtc: usize, Ghost(parent): Ghost<Node>) -> (r: (Option<TaskParameterSet>, Cursor))
    requires
        decreases_to!(parent => *children),
        exec_all_wf(children@),
        cursors_ok(subs_in@),
        forall|j: int| 0 <= j < current_in@.len() ==> (#[trigger] current_in@[j]).wf(),
    ensures
        cursor_ok(r.1),
        r.0 matches Some(s) ==> s.wf(),
        (opt_set_view(r.0), view_cursor(r.1)) == product_next(view_nodes(children@), started, view_cursors(subs_in@), set_views(current_in@), dtc as int),
    decreases parent, 0int,
{
    let ghost ns = view_nodes(children@);
    proof {
        lemma_view_nodes(children@);
        lemma_view_cursors(subs_in@);
    }
    let ghost sv_entry = view_cursors(subs_in@);
    let ghost cv_entry = set_views(current_in@);
    let mut subs = subs_in;
    let mut current = current_in;
    if subs.len() != children.len() || current.len() != children.len() {
        return (None, Cursor::Prod { started, subs, current });
    }
    if !started {
        let ghost goal = init_step(ns, view_cursors(subs@), set_views(current@), 0, dtc as int);
        let mut j: usize = 0;
        while j < children.len()
            invariant
                decreases_to!(parent => *children),
                ns == view_nodes(children@),
                ns.len() == children@.len(),
                forall|q: int| 0 <= q < ns.len() ==> #[trigger] ns[q] == view_node(children@[q]),
                forall|q: int| 0 <= q < ns.len() ==> exec_wf(#[trigger] children@[q]),
                subs@.len() == ns.len(),
                current@.len() == ns.len(),
                cursors_ok(subs@),
                forall|q: int| 0 <= q < current@.len() ==> (#[trigger] current@[q]).wf(),
                0 <= j <= ns.len(),
                init_step(ns, view_cursors(subs@), set_views(current@), j as int, dtc as int) == goal,
                goal == init_step(ns, sv_entry, cv_entry, 0, dtc as int),
                sv_entry == view_cursors(subs_in@),
                cv_entry == set_views(current_in@),
                sv_entry.len() == ns.len(),
                cv_entry.len() == ns.len(),
                !started,
            decreases ns.len() - j,
        {
            proof {
                assert(decreases_to!(*children => children@));
                assert(decreases_to!(children@ => children@[j as int]));
                lemma_view_cursors(subs@);
            }
            let ghost s_before = subs@;
            let sub = put_cursor(&mut subs, j, Cursor::At(0));
            let (r, s1) = children[j].step(sub, dtc);
            put_cursor(&mut subs, j, s1);
            proof {
                assert(subs@ =~= s_before.update(j as int, s1));
                lemma_view_cursors_update(s_before, j as int, s1);
            }
            match r {
                None => {
                    return (None, Cursor::Prod { started: true, subs, current });
                },
                Some(m) => {
                    let ghost cprev = current@;
                    current.set(j, m);
                    proof {
                        lemma_set_views_update(cprev, j as int, m);
                    }
                },
            }
            j = j + 1;
        }
        let u = union_sets(&current);
        return (Some(u), Cursor::Prod { started: true, subs, current });
    }
    let order = carry_order_exec(children);
    let ghost ord = carry_order(ns);
    let ghost goal = carry_step(ns, view_cursors(subs@), set_views(current@), ord, 0, dtc as int);
    let mut p: usize = 0;
    while p < order.len()
        invariant
            decreases_to!(parent => *children),
            ns == view_nodes(children@),
            ns.len() == children@.len(),
            forall|q: int| 0 <= q < ns.len() ==> #[trigger] ns[q] == view_node(children@[q]),
            forall|q: int| 0 <= q < ns.len() ==> exec_wf(#[trigger] children@[q]),
            order@.map_values(|x: usize| x as int) == ord,
            forall|q: int| 0 <= q < order@.len() ==> #[trigger] order@[q] < children@.len(),
            subs@.len() == ns.len(),
            current@.len() == ns.len(),
            cursors_ok(subs@),
            forall|q: int| 0 <= q < current@.len() ==> (#[trigger] current@[q]).wf(),
            0 <= p <= order@.len(),
            carry_step(ns, view_cursors(subs@), set_views(current@), ord, p as int, dtc as int) == goal,
            ord == carry_order(ns),
            goal == carry_step(ns, sv_entry, cv_entry, carry_order(ns), 0, dtc as int),
            sv_entry == view_cursors(subs_in@),
            cv_entry == set_views(current_in@),
            sv_entry.len() == ns.len(),
            cv_entry.len() == ns.len(),
            started,
        decreases order@.len() - p,
    {
        let j = order[p];
        proof {
            assert(ord[p as int] == j as int);
            assert(decreases_to!(*children => children@));
            assert(decreases_to!(children@ => children@[j as int]));
            lemma_view_cursors(subs@);
        }
        let ghost s_before = subs@;
        let sub = put_cursor(&mut subs, j, Cursor::At(0));
        let (r, s1) = children[j].step(sub, dtc);
        match r {
            Some(m) => {
                put_cursor(&mut subs, j, s1);
                proof {
                    assert(subs@ =~= s_before.update(j as int, s1));
                    lemma_view_cursors_update(s_before, j as int, s1);
                }
                let ghost cprev = current@;
                current.set(j, m);
                proof {
                    lemma_set_views_update(cprev, j as int, m);
                }
                let u = union_sets(&current);
                return (Some(u), Cursor::Prod { started: true, subs, current });
            },
            None => {
                let fresh = children[j].reset();
                let (r2, s3) = children[j].step(fresh, dtc);
                put_cursor(&mut subs, j, s3);
                proof {
                    assert(subs@ =~= s_before.update(j as int, s3));
                    lemma_view_cursors_update(s_before, j as int, s3);
                }
                match r2 {
                    None => {
                        return (None, Cursor::Prod { started: true, subs, current });
                    },
                    Some(m2) => {
                        let ghost cprev = current@;
                        current.set(j, m2);
                        proof {
                            lemma_set_views_update(cprev, j as int, m2);
                        }
                    },
                }
            },
        }
        p = p + 1;
    }
    (None, Cursor::Prod { started: true, subs, current })
}

fn assoc_step_exec(children: &Vec<Node>, subs_in: Vec<Cursor>, dtc: usize, Ghost(parent): Ghost<Node>) -> (r: (Option<TaskParameterSet>, Cursor))
    requires
        decreases_to!(parent => *children),
        exec_all_wf(children@),
        cursors_ok(subs_in@),
    ensures
        cursor_ok(r.1),
        r.0 matches Some(s) ==> s.wf(),
        (opt_set_view(r.0), view_cursor(r.1)) == assoc_next(view_nodes(children@), view_cursors(subs_in@), dtc as int),
    decreases parent, 0int,
{
    let ghost ns = view_nodes(children@);
    proof {
        lemma_view_nodes(children@);
        lemma_view_cursors(subs_in@);
    }
    let mut subs = subs_in;
    if subs.len() != children.len() {
        return (None, Cursor::Assoc { subs });
    }
    let ghost sv_entry = view_cursors(subs@);
    let ghost goal = assoc_step(ns, view_cursors(subs@), 0, Map::empty(), dtc as int);
    let mut acc = TaskParameterSet::new();
    let mut j: usize = 0;
    while j < children.len()
        invariant
            decreases_to!(parent => *children),
            ns == view_nodes(children@),
            ns.len() == children@.len(),
            forall|q: int| 0 <= q < ns.len() ==> #[trigger] ns[q] == view_node(children@[q]),
            forall|q: int| 0 <= q < ns.len() ==> exec_wf(#[trigger] children@[q]),
            subs@.len() == ns.len(),
            cursors_ok(subs@),
            acc.wf(),
            0 <= j <= ns.len(),
            assoc_step(ns, view_cursors(subs@), j as int, acc@, dtc as int) == goal,
            goal == assoc_step(ns, sv_entry, 0, Map::empty(), dtc as int),
            sv_entry == view_cursors(subs_in@),
        decreases ns.len() - j,
    {
        proof {
            assert(decreases_to!(*children => children@));
            assert(decreases_to!(children@ => children@[j as int]));
            lemma_view_cursors(subs@);
        }
        let ghost s_before = subs@;
        let sub = put_cursor(&mut subs, j, Cursor::At(0));
        let (r, s1) = children[j].step(sub, dtc);
        put_cursor(&mut subs, j, s1);
        proof {
            assert(subs@ =~= s_before.update(j as int, s1));
            lemma_view_cursors_update(s_before, j as int, s1);
        }
        match r {
            None => {
                return (None, Cursor::Assoc { subs });
            },
            Some(m) => {
                acc.extend_from(&m);
            },
        }
        j = j + 1;
    }
    (Some(acc), Cursor::Assoc { subs })
}

/// The adaptive parameter and its initial chunk size.
fn choose_adaptive(defs: &Vec<(String, TaskParameter)>, ovr: Option<usize>) -> (r: Option<(String, usize)>)
    ensures
        match r {
            Some((n, d)) => adaptive_choice(defs@, ovr) == Some((n@, d as int)),
            None => adaptive_choice(defs@, ovr) is None,
        },
{
    if ovr.is_some() {
        return None;
    }
    let mut j: usize = 0;
    proof {
        assert(defs@.skip(0) =~= defs@);
    }
    while j < defs.len()
        invariant
            ovr is None,
            0 <= j <= defs@.len(),
            find_adaptive(defs@) == find_adaptive(defs@.skip(j as int)),
        decreases defs@.len() - j,
    {
        proof {
            assert(defs@.skip(j as int)[0] == defs@[j as int]);
            assert(defs@.skip(j as int).drop_first() =~= defs@.skip(j as int + 1));
        }
        match &defs[j].1 {
            TaskParameter::ChunkInt { chunks, .. } => {
                match chunks.target_runtime_seconds {
                    Some(t) => {
                        if t > 0 {
                            let d = if chunks.default_task_count < 1 { 1 } else { chunks.default_task_count };
                            return Some((defs[j].0.clone(), d));
                        }
                    },
                    None => {},
                }
            },
            _ => {},
        }
        j = j + 1;
    }
    proof {
        assert(defs@.skip(j as int).len() == 0);
    }
    None
}

/// Builds the tree of a parameter space.
fn build_tree(defs: &Vec<(String, TaskParameter)>, combination: &Option<String>, ovr: Option<usize>, ad: &Option<String>, dtc: usize) -> (r: Result<Node, String>)
    requires
        entries_valid(defs@),
        dtc >= 1,
        opt_view(*ad) == adaptive_name(defs@, ovr),
        dtc == initial_size(defs@, ovr),
    ensures
        node_result_ok(r, build_space(defs@, opt_view(*combination), ovr)),
        r matches Ok(n) ==> (*ad is None ==> !has_adaptive(view_node(n))),
{
    if defs.len() == 0 {
        return Ok(Node::Zero);
    }
    let toks = match combination {
        Some(c) => tokenize(c.as_str()),
        None => tokenize("*"),
    };
    proof {
        reveal_strlit("*");
        assert("*"@ =~= seq!['*']);
    }
    let ghost t = strings_view(toks@);
    let default_product = toks.len() == 1 && is_token(&toks[0], '*');
    proof {
        if toks@.len() == 1 {
            assert(t[0] == toks@[0]@);
        }
        assert(default_product <==> t == seq![seq!['*']]) by {
            if t == seq![seq!['*']] {
                assert(t.len() == 1);
                assert(toks@[0]@ == seq!['*']);
            }
            if default_product {
                assert(t =~= seq![seq!['*']]);
            }
        }
    }
    if default_product {
        let mut leaves: Vec<Node> = Vec::new();
        let mut j: usize = 0;
        while j < defs.len()
            invariant
                entries_valid(defs@),
                opt_view(*ad) == adaptive_name(defs@, ovr),
                0 <= j <= defs@.len(),
                view_nodes(leaves@) == defs@.take(j as int).map_values(|e: (String, TaskParameter)| leaf_of(e.0@, e.1, opt_view(*ad), ovr)),
                leaves@.len() == j,
                forall|q: int| 0 <= q < leaves@.len() ==> exec_wf(#[trigger] leaves@[q]),
                *ad is None ==> forall|q: int| 0 <= q < leaves@.len() ==> !has_adaptive(view_node(#[trigger] leaves@[q])),
            decreases defs@.len() - j,
        {
            proof {
                assert(param_valid(defs@[j as int].1));
            }
            let leaf = make_leaf(&defs[j].0, &defs[j].1, ad, ovr);
            proof {
                lemma_view_nodes_push(leaves@, leaf);
            }
            leaves.push(leaf);
            proof {
                assert(defs@.take(j as int + 1).map_values(|e: (String, TaskParameter)| leaf_of(e.0@, e.1, opt_view(*ad), ovr))
                    =~= defs@.take(j as int).map_values(|e: (String, TaskParameter)| leaf_of(e.0@, e.1, opt_view(*ad), ovr)).push(leaf_of(defs@[j as int].0@, defs@[j as int].1, opt_view(*ad), ovr)));
            }
            j = j + 1;
        }
        proof {
            assert(defs@.take(j as int) =~= defs@);
            lemma_view_nodes(leaves@);
            lemma_any_adaptive(view_nodes(leaves@));
        }
        return make_product(leaves, dtc);
    }
    match parse_product_exec(&toks, 0, defs, ad, ovr, dtc) {
        Err(e) => Err(e),
        Ok((n, p)) => {
            if p < toks.len() {
                let mut m = String::new();
                m.append("Unexpected token '");
                m.append(toks[p].as_str());
                m.append("' in combination expression");
                proof {
                    assert(t[p as int] == toks@[p as int]@);
                    assert(m@ =~= msg_unexpected(t[p as int]));
                }
                Err(m)
            } else {
                Ok(n)
            }
        },
    }
}

pub open spec fn names_of(defs: Seq<(String, TaskParameter)>) -> Seq<Seq<char>> {
    defs.map_values(|e: (String, TaskParameter)| e.0@)
}

/// Lazy iterator over a resolved step parameter space.
pub struct StepParameterSpaceIterator {
    root: Node,
    names: Vec<String>,
    current_index: usize,
    adaptive: bool,
    chunk_size: Option<usize>,
    cursor: Cursor,
    chunks_param_name: Option<String>,
}

impl StepParameterSpaceIterator {
    #[verifier::type_invariant]
    spec fn inv(&self) -> bool {
        &&& exec_wf(self.root)
        &&& cursor_ok(self.cursor)
        &&& (self.adaptive <==> self.chunk_size is Some)
        &&& (self.adaptive <==> self.chunks_param_name is Some)
        &&& !self.adaptive ==> !has_adaptive(view_node(self.root))
        &&& strings_view(self.names@).no_duplicates()
    }

    /// The tree of the space.
    pub closed spec fn space(&self) -> SpaceNode {
        view_node(self.root)
    }

    /// The names of the parameters, in definition order.
    pub closed spec fn name_list(&self) -> Seq<Seq<char>> {
        strings_view(self.names@)
    }

    /// The index of the next parameter set (without adaptive chunking).
    pub closed spec fn index(&self) -> int {
        self.current_index as int
    }

    /// Whether adaptive chunking is on.
    pub closed spec fn adaptive_on(&self) -> bool {
        self.adaptive
    }

    /// The adaptive chunk size in force.
    pub closed spec fn chunk_size(&self) -> Option<usize> {
        self.chunk_size
    }

    /// The iteration state (with adaptive chunking).
    pub closed spec fn state(&self) -> CursorView {
        view_cursor(self.cursor)
    }

    /// The name of the adaptive chunk parameter.
    pub closed spec fn chunk_param(&self) -> Option<Seq<char>> {
        opt_view(self.chunks_param_name)
    }

    /// What a freshly built iterator is for the given definitions.
    pub open spec fn built_from(&self, defs: Seq<(String, TaskParameter)>, combination: Option<Seq<char>>, ovr: Option<usize>) -> bool {
        &&& build_space(defs, combination, ovr) == Ok::<SpaceNode, Seq<char>>(self.space())
        &&& self.name_list() == names_of(defs)
        &&& self.index() == 0
        &&& self.adaptive_on() == (adaptive_choice(defs, ovr) is Some)
        &&& self.chunk_param() == adaptive_name(defs, ovr)
        &&& (self.adaptive_on() ==> (self.chunk_size() matches Some(d) && d as int == initial_size(defs, ovr)))
        &&& (!self.adaptive_on() ==> self.chunk_size() is None)
        &&& (self.adaptive_on() ==> self.state() == cursor_reset(self.space()))
    }

    /// The outcome of building from the given definitions: the iterator,
    /// or the error with the message that building meets.
    pub open spec fn build_outcome(r: Result<StepParameterSpaceIterator, ModelError>, defs: Seq<(String, TaskParameter)>, combination: Option<Seq<char>>, ovr: Option<usize>) -> bool {
        match build_space(defs, combination, ovr) {
            Ok(_) => r matches Ok(it) && it.built_from(defs, combination, ovr),
            Err(m) => r matches Err(ModelError::DecodeValidation(e)) && e@ == m,
        }
    }

    /// Builds the iterator from the parameter definitions (in definition
    /// order), the combination expression, and an optional chunk size
    /// override (which turns adaptive chunking off and sets the size of
    /// every static chunk).
    pub fn from_definitions(defs: Vec<(String, TaskParameter)>, combination: Option<String>, chunk_override: Option<usize>) -> (r: Result<StepParameterSpaceIterator, ModelError>)
        requires
            entries_valid(defs@),
        ensures
            Self::build_outcome(r, defs@, opt_view(combination), chunk_override),
    {
        let mut names: Vec<String> = Vec::new();
        let mut j: usize = 0;
        while j < defs.len()
            invariant
                0 <= j <= defs@.len(),
                strings_view(names@) == names_of(defs@).take(j as int),
            decreases defs@.len() - j,
        {
            let ghost prev = names@;
            let nm = defs[j].0.clone();
            proof {
                assert(nm@ == defs@[j as int].0@);
            }
            names.push(nm);
            proof {
                assert(strings_view(names@) =~= strings_view(prev).push(nm@));
                assert(strings_view(names@) =~= names_of(defs@).take(j as int + 1));
            }
            j = j + 1;
        }
        proof {
            assert(names_of(defs@).take(j as int) =~= names_of(defs@));
        }
        let choice = choose_adaptive(&defs, chunk_override);
        let (ad, dtc): (Option<String>, usize) = match choice {
            Some((n, d)) => (Some(n), d),
            None => (None, 1),
        };
        proof {
            if ad is Some {
                assert(dtc >= 1) by {
                    assert(find_adaptive(defs@) is Some);
                    lemma_find_adaptive_size(defs@);
                }
            }
        }
        match build_tree(&defs, &combination, chunk_override, &ad, dtc) {
            Err(m) => Err(ModelError::DecodeValidation(m)),
            Ok(root) => {
                let adaptive = ad.is_some();
                let chunk_size = if adaptive { Some(dtc) } else { None };
                let cursor = if adaptive { root.reset() } else { Cursor::At(0) };
                Ok(StepParameterSpaceIterator {
                    root,
                    names,
                    current_index: 0,
                    adaptive,
                    chunk_size,
                    cursor,
                    chunks_param_name: ad,
                })
            },
        }
    }
}

fn range_is_valid(r: &TaskParamRange<i64>, chunked: bool) -> (b: bool)
    ensures
        b == range_valid(*r, chunked),
{
    match r {
        TaskParamRange::RangeExpr(e) => e.len_u64() <= usize::MAX as u64,
        TaskParamRange::List(v) => {
            if !chunked {
                return true;
            }
            let mut k: usize = 0;
            while k < v.len()
                invariant
                    chunked,
                    *r == TaskParamRange::List(*v),
                    0 <= k <= v@.len(),
                    forall|q: int| 0 <= q < k ==> in_domain(#[trigger] v@[q] as int),
                decreases v@.len() - k,
            {
                let x = v[k];
                if !(-crate::range_expr::MAX_RANGE_VALUE_MAGNITUDE < x && x < crate::range_expr::MAX_RANGE_VALUE_MAGNITUDE) {
                    proof {
                        assert(!in_domain(v@[k as int] as int));
                        assert(!ints_in_domain(v@));
                    }
                    return false;
                }
                k = k + 1;
            }
            true
        },
    }
}

fn param_is_valid(p: &TaskParameter) -> (b: bool)
    ensures
        b == param_valid(*p),
{
    match p {
        TaskParameter::Int { range, chunks } => range_is_valid(range, chunks.is_some()),
        TaskParameter::ChunkInt { range, .. } => range_is_valid(range, true),
        TaskParameter::Float { range } => {
            let mut k: usize = 0;
            while k < range.len()
                invariant
                    *p == (TaskParameter::Float { range: *range }),
                    0 <= k <= range@.len(),
                    forall|q: int| 0 <= q < k ==> !float_bits_non_finite(#[trigger] range@[q].bits),
                decreases range@.len() - k,
            {
                if (range[k].bits & crate::types::FLOAT_EXPONENT_MASK) == crate::types::FLOAT_EXPONENT_MASK {
                    proof {
                        assert(float_bits_non_finite(range@[k as int].bits));
                        assert(!floats_finite(range@));
                    }
                    return false;
                }
                k = k + 1;
            }
            true
        },
        _ => true,
    }
}

/// Whether the definitions have distinct names and valid parameters.
pub fn definitions_valid(defs: &Vec<(String, TaskParameter)>) -> (b: bool)
    ensures
        b == entries_valid(defs@),
{
    let mut i: usize = 0;
    while i < defs.len()
        invariant
            0 <= i <= defs@.len(),
            forall|a: int, c: int| 0 <= a < c < defs@.len() && a < i ==> defs@[a].0@ != defs@[c].0@,
            forall|k: int| 0 <= k < i ==> param_valid(#[trigger] defs@[k].1),
        decreases defs@.len() - i,
    {
        if !param_is_valid(&defs[i].1) {
            return false;
        }
        let mut j: usize = i + 1;
        while j < defs.len()
            invariant
                i < defs@.len(),
                i + 1 <= j <= defs@.len(),
                forall|c: int| i < c < j ==> defs@[i as int].0@ != defs@[c].0@,
            decreases defs@.len() - j,
        {
            if defs[i].0 == defs[j].0 {
                return false;
            }
            j = j + 1;
        }
        i = i + 1;
    }
    true
}

/// One step of iteration without adaptive chunking, from index `idx` of
/// `space`: the set at that index and the next index, or nothing past
/// the end.
pub open spec fn plain_step(space: SpaceNode, idx: int) -> (Option<ParamMap>, int) {
    if 0 <= idx < node_len(space) {
        (Some(node_get(space, idx)), idx + 1)
    } else {
        (None, idx)
    }
}

/// The results of `k` steps of iteration without adaptive chunking, from
/// index `idx` of `space`.
pub open spec fn plain_run(space: SpaceNode, idx: int, k: nat) -> Seq<Option<ParamMap>>
    decreases k,
{
    if k == 0 {
        Seq::empty()
    } else {
        let (r, j) = plain_step(space, idx);
        seq![r] + plain_run(space, j, (k - 1) as nat)
    }
}

/// Law: without adaptive chunking, iteration from index `idx` gives, step
/// by step, the sets that random access gives at `idx`, `idx + 1`, ..., and
/// nothing once the end is passed.
pub proof fn law_iteration_matches_random_access(space: SpaceNode, idx: int, k: nat)
    requires
        idx >= 0,
    ensures
        plain_run(space, idx, k).len() == k,
        forall|i: int| 0 <= i < k ==> #[trigger] plain_run(space, idx, k)[i] == (if idx + i < node_len(space) {
            Some(node_get(space, idx + i))
        } else {
            None
        }),
    decreases k,
{
    if k > 0 {
        let (r, j) = plain_step(space, idx);
        law_iteration_matches_random_access(space, j, (k - 1) as nat);
        let rest = plain_run(space, j, (k - 1) as nat);
        assert forall|i: int| 0 <= i < k implies #[trigger] plain_run(space, idx, k)[i] == (if idx + i < node_len(space) {
            Some(node_get(space, idx + i))
        } else {
            None
        }) by {
            if i > 0 {
                assert(plain_run(space, idx, k)[i] == rest[i - 1]);
                if idx >= node_len(space) {
                    assert(j == idx);
                }
            }
        }
    }
}

impl StepParameterSpaceIterator {
    /// Builds the iterator over a resolved parameter space.
    pub fn new(space: &StepParameterSpace) -> (r: Result<StepParameterSpaceIterator, ModelError>)
        requires
            entries_valid(definition_entries(space.task_parameter_definitions)),
        ensures
            Self::build_outcome(r, definition_entries(space.task_parameter_definitions), opt_view(space.combination), None),
    {
        Self::new_with_chunk_override(space, None)
    }

    /// Builds the iterator with an explicit chunk size override: with
    /// `Some(n)`, adaptive chunking is off and every static chunk holds at
    /// most `n` values (at least one).
    pub fn new_with_chunk_override(space: &StepParameterSpace, override_count: Option<usize>) -> (r: Result<StepParameterSpaceIterator, ModelError>)
        requires
            entries_valid(definition_entries(space.task_parameter_definitions)),
        ensures
            Self::build_outcome(r, definition_entries(space.task_parameter_definitions), opt_view(space.combination), override_count),
    {
        let defs = definitions_list(&space.task_parameter_definitions);
        let comb = match &space.combination {
            Some(c) => Some(c.clone()),
            None => None,
        };
        Self::from_definitions(defs, comb, override_count)
    }

    /// Builds the iterator when the definitions are valid; `None` when they
    /// are not (names repeat, a chunked value lies outside the range
    /// expression domain, a range is too long, or a float is not finite).
    pub fn new_checked(space: &StepParameterSpace, override_count: Option<usize>) -> (r: Option<Result<StepParameterSpaceIterator, ModelError>>)
        ensures
            r is None <==> !entries_valid(definition_entries(space.task_parameter_definitions)),
            r matches Some(x) ==> Self::build_outcome(x, definition_entries(space.task_parameter_definitions), opt_view(space.combination), override_count),
    {
        let defs = definitions_list(&space.task_parameter_definitions);
        if !definitions_valid(&defs) {
            return None;
        }
        let comb = match &space.combination {
            Some(c) => Some(c.clone()),
            None => None,
        };
        Some(Self::from_definitions(defs, comb, override_count))
    }

    /// The names of the parameters, in definition order.
    pub fn names(&self) -> (r: &Vec<String>)
        ensures
            strings_view(r@) == self.name_list(),
    {
        &self.names
    }

    /// Number of parameter sets; 0 with adaptive chunking, whose count is
    /// not known in advance.
    pub fn len(&self) -> (n: usize)
        ensures
            n == if self.adaptive_on() { 0 } else { node_len(self.space()) },
    {
        proof {
            use_type_invariant(self);
        }
        if self.adaptive {
            0
        } else {
            self.root.len()
        }
    }

    /// Whether the space has no parameter sets (never with adaptive
    /// chunking).
    pub fn is_empty(&self) -> (b: bool)
        ensures
            b == (!self.adaptive_on() && node_len(self.space()) == 0),
    {
        proof {
            use_type_invariant(self);
        }
        if self.adaptive {
            false
        } else {
            self.root.len() == 0
        }
    }

    /// The parameter set at `index`; `None` out of bounds or with adaptive
    /// chunking. Where the parameter names are distinct and all used and the
    /// leaves are unchunked, the set passes `validate_containment`.
    pub fn get(&self, index: usize) -> (r: Option<TaskParameterSet>)
        ensures
            r is None <==> (self.adaptive_on() || index >= node_len(self.space())),
            r matches Some(s) ==> s@ == node_get(self.space(), index as int) && s.wf(),
            r matches Some(s) ==> (leaves_ok(self.space()) && distinct_keys(self.space())
                && node_keys(self.space()) == self.name_list().to_set()
                ==> containment(self.space(), self.name_list(), s@, s.items()) is Ok),
    {
        proof {
            use_type_invariant(self);
        }
        if self.adaptive {
            return None;
        }
        if index >= self.root.len() {
            return None;
        }
        let mut result = TaskParameterSet::new();
        self.root.get_into(index, &mut result);
        proof {
            assert(Map::<Seq<char>, (TaskParameterType, ValueView)>::empty().union_prefer_right(node_get(self.space(), index as int))
                =~= node_get(self.space(), index as int));
            if leaves_ok(self.space()) && distinct_keys(self.space())
                && node_keys(self.space()) == self.name_list().to_set() {
                law_random_access_sets_are_contained(self.space(), self.name_list(), index as int, result.items());
            }
        }
        Some(result)
    }

    /// The next parameter set: with adaptive chunking, one step of the tree
    /// with the chunk size in force; otherwise the set at the current index.
    pub fn next(&mut self) -> (r: Option<TaskParameterSet>)
        ensures
            final(self).space() == old(self).space(),
            final(self).name_list() == old(self).name_list(),
            final(self).adaptive_on() == old(self).adaptive_on(),
            final(self).chunk_size() == old(self).chunk_size(),
            final(self).chunk_param() == old(self).chunk_param(),
            r matches Some(s) ==> s.wf(),
            old(self).adaptive_on() ==> {
                &&& (opt_set_view(r), final(self).state()) == cursor_next(old(self).space(), old(self).state(), old(self).chunk_size().unwrap() as int)
                &&& final(self).index() == old(self).index()
            },
            !old(self).adaptive_on() ==> (opt_set_view(r), final(self).index()) == plain_step(old(self).space(), old(self).index()),
            !old(self).adaptive_on() ==> {
                &&& final(self).state() == old(self).state()
                &&& if old(self).index() < node_len(old(self).space()) {
                    &&& r matches Some(s) && s@ == node_get(old(self).space(), old(self).index())
                    &&& final(self).index() == old(self).index() + 1
                } else {
                    &&& r is None
                    &&& final(self).index() == old(self).index()
                }
            },
    {
        proof {
            use_type_invariant(&*self);
        }
        if self.adaptive {
            let dtc = match self.chunk_size {
                Some(d) => d,
                None => 1,
            };
            let mut c = Cursor::At(0);
            std::mem::swap(&mut c, &mut self.cursor);
            let (r, c2) = self.root.step(c, dtc);
            self.cursor = c2;
            r
        } else {
            let n = self.root.len();
            let item = self.get(self.current_index);
            if item.is_some() {
                self.current_index = self.current_index + 1;
            }
            item
        }
    }

    /// The number of remaining parameter sets: exact without adaptive
    /// chunking, unknown with it.
    pub fn size_hint(&self) -> (r: (usize, Option<usize>))
        ensures
            self.adaptive_on() ==> r == (0usize, None::<usize>),
            !self.adaptive_on() ==> {
                let rem = if self.index() < node_len(self.space()) { node_len(self.space()) - self.index() } else { 0 };
                r.0 == rem && r.1 == Some(r.0)
            },
    {
        proof {
            use_type_invariant(self);
        }
        if self.adaptive {
            (0, None)
        } else {
            let n = self.root.len();
            let rem = if self.current_index < n { n - self.current_index } else { 0 };
            (rem, Some(rem))
        }
    }

    /// Whether adaptive chunking is on.
    pub fn chunks_adaptive(&self) -> (b: bool)
        ensures
            b == self.adaptive_on(),
    {
        self.adaptive
    }

    /// The name of the adaptive chunk parameter, if any.
    pub fn chunks_parameter_name(&self) -> (r: Option<&str>)
        ensures
            match r {
                Some(s) => self.chunk_param() == Some(s@),
                None => self.chunk_param() is None,
            },
    {
        match &self.chunks_param_name {
            Some(s) => Some(s.as_str()),
            None => None,
        }
    }

    /// The adaptive chunk size in force, if adaptive chunking is on.
    pub fn chunks_default_task_count(&self) -> (r: Option<usize>)
        ensures
            r == self.chunk_size(),
    {
        self.chunk_size
    }

    /// Sets the adaptive chunk size; it applies from the next chunk on.
    /// Without adaptive chunking nothing changes.
    pub fn set_chunks_default_task_count(&mut self, value: usize)
        ensures
            final(self).chunk_size() == if old(self).adaptive_on() { Some(value) } else { None },
            final(self).space() == old(self).space(),
            final(self).name_list() == old(self).name_list(),
            final(self).adaptive_on() == old(self).adaptive_on(),
            final(self).chunk_param() == old(self).chunk_param(),
            final(self).state() == old(self).state(),
            final(self).index() == old(self).index(),
    {
        proof {
            use_type_invariant(&*self);
        }
        if self.adaptive {
            self.chunk_size = Some(value);
        }
    }
}

proof fn lemma_find_adaptive_size(defs: Seq<(String, TaskParameter)>)
    ensures
        find_adaptive(defs) matches Some((_, d)) ==> d >= 1,
    decreases defs.len(),
{
    if defs.len() > 0 {
        lemma_find_adaptive_size(defs.drop_first());
    }
}

// ---------------------------------------------------------------------
// Containment of a parameter set in the space.

/// The text a value displays as.
pub open spec fn value_text(v: ValueView) -> Seq<char> {
    match v {
        ValueView::Int(i) => int_text(i as int),
        ValueView::Float(_, t) => t,
        ValueView::Str(s) => s,
        ValueView::Path(s) => s,
        ValueView::Range(runs, c) => range_text(runs, c),
    }
}

pub open spec fn msg_not_found(name: Seq<char>) -> Seq<char> {
    "Parameter '"@ + name + "' not found in the provided parameters."@
}

pub open spec fn msg_not_in_range(name: Seq<char>, v: ValueView) -> Seq<char> {
    "Parameter '"@ + name + "' value '"@ + value_text(v) + "' is not in the parameter space range."@
}

pub open spec fn msg_not_subset(name: Seq<char>, runs: Seq<IntRun>, c: bool) -> Seq<char> {
    "Parameter '"@ + name + "' value '"@ + range_text(runs, c) + "' is not a subset of the range in the parameter space."@
}

pub open spec fn msg_not_chunk(name: Seq<char>, runs: Seq<IntRun>, c: bool) -> Seq<char> {
    "Parameter '"@ + name + "' value '"@ + range_text(runs, c) + "' is not a valid chunk in the parameter space."@
}

/// Whether `x` is one of the integer values.
pub open spec fn int_member(values: Seq<ValueView>, x: int) -> bool {
    exists|j: int| 0 <= j < values.len() && values[j] == ValueView::Int(x as i64)
}

/// Whether some value equals `v`.
pub open spec fn any_equal(values: Seq<ValueView>, v: ValueView) -> bool {
    exists|j: int| 0 <= j < values.len() && value_view_eq(#[trigger] values[j], v)
}

/// Whether every integer of the runs is one of the values.
pub open spec fn runs_within_values(runs: Seq<IntRun>, values: Seq<ValueView>) -> bool {
    forall|q: int| 0 <= q < runs_values(runs).len() ==> int_member(values, #[trigger] runs_values(runs)[q])
}

/// Whether every integer of the runs is one of the integers.
pub open spec fn runs_within_ints(runs: Seq<IntRun>, values: Seq<int>) -> bool {
    forall|q: int| 0 <= q < runs_values(runs).len() ==> values.contains(#[trigger] runs_values(runs)[q])
}

/// The names a node's parameter sets hold (an adaptive parameter's name
/// is not among them: random access does not reach it).
pub open spec fn node_keys(n: SpaceNode) -> Set<Seq<char>>
    decreases n,
{
    match n {
        SpaceNode::Plain { name, .. } => set![name],
        SpaceNode::Chunks { name, .. } => set![name],
        SpaceNode::Product { children, .. } => keys_union(children),
        SpaceNode::Assoc { children, .. } => keys_union(children),
        _ => Set::empty(),
    }
}

pub open spec fn keys_union(ns: Seq<SpaceNode>) -> Set<Seq<char>>
    decreases ns,
{
    if ns.len() == 0 {
        Set::empty()
    } else {
        keys_union(ns.drop_last()).union(node_keys(ns.last()))
    }
}

/// Whether `b` holds every name of the row `a`, each with an equal value:
/// the row is matched on its own names only.
pub open spec fn row_matches(a: ParamMap, b: ParamMap) -> bool {
    forall|k: Seq<char>| #[trigger] a.contains_key(k) ==> b.contains_key(k) && value_view_eq(a[k].1, b[k].1)
}

pub type ParamItems = Seq<(Seq<char>, (TaskParameterType, ValueView))>;

/// `name=value` for each entry whose name is among `keys`, in order.
pub open spec fn key_value_texts(items: ParamItems, keys: Set<Seq<char>>) -> Seq<Seq<char>>
    decreases items.len(),
{
    if items.len() == 0 {
        Seq::empty()
    } else {
        let pre = key_value_texts(items.drop_last(), keys);
        let (k, v) = items.last();
        if keys.contains(k) { pre.push(k + "="@ + value_text(v.1)) } else { pre }
    }
}

/// The texts joined by `, `.
pub open spec fn join_comma(parts: Seq<Seq<char>>) -> Seq<char>
    decreases parts.len(),
{
    if parts.len() == 0 {
        Seq::empty()
    } else if parts.len() == 1 {
        parts[0]
    } else {
        join_comma(parts.drop_last()) + ", "@ + parts.last()
    }
}

pub open spec fn msg_assoc(items: ParamItems, keys: Set<Seq<char>>) -> Seq<char> {
    "The values {"@ + join_comma(key_value_texts(items, keys))
        + "}, of an association expression in the combination expression, do not appear in the parameter space."@
}

/// Whether the parameter set (given as a map and as its entries) lies in
/// the node, or the message that says why not.
pub open spec fn node_contains(n: SpaceNode, params: ParamMap, items: ParamItems) -> Result<(), Seq<char>>
    decreases n,
{
    match n {
        SpaceNode::Zero => Ok(()),
        SpaceNode::Plain { name, ty, values } => if !params.contains_key(name) {
            Err(msg_not_found(name))
        } else {
            let v = params[name].1;
            if ty == TaskParameterType::ChunkInt {
                match v {
                    ValueView::Range(runs, c) => if runs_within_values(runs, values) { Ok(()) } else { Err(msg_not_subset(name, runs, c)) },
                    _ => Err(msg_not_in_range(name, v)),
                }
            } else if any_equal(values, v) {
                Ok(())
            } else {
                Err(msg_not_in_range(name, v))
            }
        },
        SpaceNode::Chunks { name, chunks, .. } => if !params.contains_key(name) {
            Err(msg_not_found(name))
        } else {
            let v = params[name].1;
            match v {
                ValueView::Range(runs, c) => if exists|i: int| 0 <= i < chunks.len() && #[trigger] chunks[i] == runs {
                    Ok(())
                } else {
                    Err(msg_not_chunk(name, runs, c))
                },
                _ => Err(msg_not_in_range(name, v)),
            }
        },
        SpaceNode::Adaptive { name, values, .. } => if !params.contains_key(name) {
            Err(msg_not_found(name))
        } else {
            let v = params[name].1;
            match v {
                ValueView::Range(runs, c) => if runs_within_ints(runs, values) { Ok(()) } else { Err(msg_not_subset(name, runs, c)) },
                _ => Err(msg_not_in_range(name, v)),
            }
        },
        SpaceNode::Product { children, .. } => seq_contains(children, params, items),
        SpaceNode::Assoc { children, len } =>
            if !has_adaptive(n) && exists|i: int| 0 <= i < len && row_matches(#[trigger] assoc_get(children, i), params) {
                Ok(())
            } else {
                Err(msg_assoc(items, node_keys(n)))
            },
    }
}

/// Containment in each child in turn; the first failure.
pub open spec fn seq_contains(ns: Seq<SpaceNode>, params: ParamMap, items: ParamItems) -> Result<(), Seq<char>>
    decreases ns,
{
    if ns.len() == 0 {
        Ok(())
    } else {
        match seq_contains(ns.drop_last(), params, items) {
            Err(e) => Err(e),
            Ok(_) => node_contains(ns.last(), params, items),
        }
    }
}

/// Lexicographic order of texts by character.
pub open spec fn text_le(a: Seq<char>, b: Seq<char>) -> bool
    decreases a.len(),
{
    if a.len() == 0 {
        true
    } else if b.len() == 0 {
        false
    } else if a[0] != b[0] {
        (a[0] as int) < (b[0] as int)
    } else {
        text_le(a.drop_first(), b.drop_first())
    }
}

/// `x` inserted into `s` before the first element it does not exceed.
pub open spec fn insert_sorted(s: Seq<Seq<char>>, x: Seq<char>) -> Seq<Seq<char>>
    decreases s.len(),
{
    if s.len() == 0 {
        seq![x]
    } else if text_le(x, s[0]) {
        seq![x] + s
    } else {
        seq![s[0]] + insert_sorted(s.drop_first(), x)
    }
}

/// The texts in increasing order.
pub open spec fn sort_texts(s: Seq<Seq<char>>) -> Seq<Seq<char>>
    decreases s.len(),
{
    if s.len() == 0 {
        Seq::empty()
    } else {
        insert_sorted(sort_texts(s.drop_last()), s.last())
    }
}

/// What `format!("{:?}", names)` gives for a list of names.
pub uninterp spec fn debug_names(names: Seq<Seq<char>>) -> Seq<char>;

/// `Debug` formatting of a list of strings (`["a", "b"]`, each string
/// quoted and escaped as `str`'s `Debug` does).
#[verifier::external_body]
fn debug_list(names: &Vec<String>) -> (s: String)
    ensures
        s@ == debug_names(strings_view(names@)),
{
    format!("{:?}", names)
}

pub open spec fn msg_names(keys: Seq<Seq<char>>, names: Seq<Seq<char>>) -> Seq<char> {
    "Task parameter names "@ + debug_names(sort_texts(keys)) + " do not match the parameter space names "@
        + debug_names(sort_texts(names)) + "."@
}

/// Whether the parameter set lies in the space: its names must be the
/// space's, and its values must lie in the tree.
pub open spec fn containment(space: SpaceNode, names: Seq<Seq<char>>, params: ParamMap, items: ParamItems) -> Result<(), Seq<char>> {
    if params.dom() != names.to_set() {
        Err(msg_names(items.map_values(|e: (Seq<char>, (TaskParameterType, ValueView))| e.0), names))
    } else {
        node_contains(space, params, items)
    }
}

/// Whether every plain leaf holds values each equal to itself (no NaN) and
/// is unchunked unless it is empty, and no leaf chunks adaptively.
pub open spec fn leaves_ok(n: SpaceNode) -> bool
    decreases n,
{
    match n {
        SpaceNode::Plain { ty, values, .. } => (ty != TaskParameterType::ChunkInt || values.len() == 0)
            && forall|j: int| 0 <= j < values.len() ==> value_view_eq(#[trigger] values[j], values[j]),
        SpaceNode::Adaptive { .. } => false,
        SpaceNode::Product { children, .. } => all_leaves_ok(children),
        SpaceNode::Assoc { children, .. } => all_leaves_ok(children),
        _ => true,
    }
}

pub open spec fn all_leaves_ok(ns: Seq<SpaceNode>) -> bool
    decreases ns,
{
    if ns.len() == 0 {
        true
    } else {
        all_leaves_ok(ns.drop_last()) && leaves_ok(ns.last())
    }
}

/// Whether no two children of a product or association share a name,
/// throughout the tree.
pub open spec fn distinct_keys(n: SpaceNode) -> bool
    decreases n,
{
    match n {
        SpaceNode::Product { children, .. } => keys_disjoint(children),
        SpaceNode::Assoc { children, .. } => keys_disjoint(children),
        _ => true,
    }
}

pub open spec fn keys_disjoint(ns: Seq<SpaceNode>) -> bool
    decreases ns,
{
    if ns.len() == 0 {
        true
    } else {
        &&& keys_disjoint(ns.drop_last())
        &&& distinct_keys(ns.last())
        &&& keys_union(ns.drop_last()).disjoint(node_keys(ns.last()))
    }
}

/// Whether `params` holds the entries of `m` at every name of `keys`.
pub open spec fn agrees_on(params: ParamMap, m: ParamMap, keys: Set<Seq<char>>) -> bool {
    forall|k: Seq<char>| #[trigger] keys.contains(k) ==> params.contains_key(k) && m.contains_key(k) && params[k] == m[k]
}

/// Whether every value of a parameter set equals itself.
pub open spec fn values_reflexive(m: ParamMap) -> bool {
    forall|k: Seq<char>| #[trigger] m.contains_key(k) ==> value_view_eq(m[k].1, m[k].1)
}

proof fn lemma_index_split(i: int, p: int, l: int)
    requires
        0 <= i < p * l,
        p >= 0,
        l >= 0,
    ensures
        l > 0,
        p > 0,
        0 <= i % l < l,
        0 <= i / l < p,
{
    assert(l > 0 && p > 0) by (nonlinear_arith)
        requires
            0 <= i < p * l,
            p >= 0,
            l >= 0;
    assert(0 <= i / l < p) by (nonlinear_arith)
        requires
            0 <= i < p * l,
            l > 0;
}

proof fn lemma_wf_prod_len_nonneg(ns: Seq<SpaceNode>)
    requires
        nodes_wf(ns),
    ensures
        prod_len(ns) >= 0,
    decreases ns.len(),
{
    if ns.len() > 0 {
        lemma_wf_prod_len_nonneg(ns.drop_last());
        lemma_node_len_nonneg(ns.last());
        assert(prod_len(ns.drop_last()) * node_len(ns.last()) >= 0) by (nonlinear_arith)
            requires
                prod_len(ns.drop_last()) >= 0,
                node_len(ns.last()) >= 0;
    }
}

/// The set at an index of a node holds exactly the node's names, and its
/// values equal themselves when the leaves' values do.
proof fn lemma_get_facts(n: SpaceNode, i: int)
    requires
        node_wf(n),
        !has_adaptive(n),
        0 <= i < node_len(n),
    ensures
        node_get(n, i).dom() == node_keys(n),
        leaves_ok(n) ==> values_reflexive(node_get(n, i)),
    decreases n, 0int,
{
    match n {
        SpaceNode::Product { children, len } => {
            lemma_prod_get_facts(children, i);
        },
        SpaceNode::Assoc { children, len } => {
            lemma_assoc_get_facts(children, i, len);
        },
        SpaceNode::Plain { name, ty, values } => {
            assert(node_get(n, i).dom() =~= node_keys(n));
            if leaves_ok(n) {
                assert(value_view_eq(values[i], values[i]));
            }
        },
        SpaceNode::Chunks { .. } => {
            assert(node_get(n, i).dom() =~= node_keys(n));
        },
        SpaceNode::Zero => {
            assert(node_get(n, i).dom() =~= node_keys(n));
        },
        SpaceNode::Adaptive { .. } => {},
    }
}

proof fn lemma_prod_get_facts(ns: Seq<SpaceNode>, i: int)
    requires
        nodes_wf(ns),
        !any_adaptive(ns),
        0 <= i < prod_len(ns),
    ensures
        prod_get(ns, i).dom() == keys_union(ns),
        all_leaves_ok(ns) ==> values_reflexive(prod_get(ns, i)),
    decreases ns, 1int,
{
    if ns.len() > 0 {
        let pre = ns.drop_last();
        let last = ns.last();
        let l = node_len(last);
        lemma_wf_prod_len_nonneg(pre);
        lemma_node_len_nonneg(last);
        lemma_index_split(i, prod_len(pre), l);
        lemma_prod_get_facts(pre, i / l);
        lemma_get_facts(last, i % l);
        assert(prod_get(ns, i).dom() =~= keys_union(ns));
    } else {
        assert(prod_get(ns, i).dom() =~= keys_union(ns));
    }
}

proof fn lemma_assoc_get_facts(ns: Seq<SpaceNode>, i: int, len: int)
    requires
        nodes_wf(ns),
        !any_adaptive(ns),
        forall|j: int| 0 <= j < ns.len() ==> node_len(#[trigger] ns[j]) == len,
        0 <= i < len,
    ensures
        assoc_get(ns, i).dom() == keys_union(ns),
        all_leaves_ok(ns) ==> values_reflexive(assoc_get(ns, i)),
    decreases ns, 1int,
{
    if ns.len() > 0 {
        let pre = ns.drop_last();
        let last = ns.last();
        assert forall|j: int| 0 <= j < pre.len() implies node_len(#[trigger] pre[j]) == len by {
            assert(pre[j] == ns[j]);
        }
        assert(node_len(ns[ns.len() - 1]) == len);
        lemma_assoc_get_facts(pre, i, len);
        lemma_get_facts(last, i);
        assert(assoc_get(ns, i).dom() =~= keys_union(ns));
    } else {
        assert(assoc_get(ns, i).dom() =~= keys_union(ns));
    }
}

/// A node contains any parameter set that agrees, at the node's names,
/// with one of the node's own sets.
proof fn lemma_contains_local(n: SpaceNode, i: int, params: ParamMap, items: ParamItems)
    requires
        node_wf(n),
        leaves_ok(n),
        distinct_keys(n),
        !has_adaptive(n),
        0 <= i < node_len(n),
        agrees_on(params, node_get(n, i), node_keys(n)),
    ensures
        node_contains(n, params, items) is Ok,
    decreases n, 0int,
{
    match n {
        SpaceNode::Plain { name, ty, values } => {
            assert(node_keys(n).contains(name));
            assert(params[name] == (ty, values[i]));
            assert(value_view_eq(values[i], values[i]));
        },
        SpaceNode::Chunks { name, chunks, contiguous } => {
            assert(node_keys(n).contains(name));
            assert(params[name].1 == ValueView::Range(chunks[i], contiguous));
            assert(chunks[i] == chunks[i]);
        },
        SpaceNode::Product { children, len } => {
            lemma_seq_contains(children, i, params, items);
        },
        SpaceNode::Assoc { children, len } => {
            lemma_get_facts(n, i);
            let row = assoc_get(children, i);
            assert(row == node_get(n, i));
            assert forall|k: Seq<char>| #[trigger] row.contains_key(k) implies
                params.contains_key(k) && value_view_eq(row[k].1, params[k].1) by {
                assert(node_keys(n).contains(k));
            }
            assert(row_matches(assoc_get(children, i), params));
        },
        _ => {},
    }
}

proof fn lemma_seq_contains(ns: Seq<SpaceNode>, i: int, params: ParamMap, items: ParamItems)
    requires
        nodes_wf(ns),
        all_leaves_ok(ns),
        keys_disjoint(ns),
        !any_adaptive(ns),
        0 <= i < prod_len(ns),
        agrees_on(params, prod_get(ns, i), keys_union(ns)),
    ensures
        seq_contains(ns, params, items) is Ok,
    decreases ns, 1int,
{
    if ns.len() > 0 {
        let pre = ns.drop_last();
        let last = ns.last();
        let l = node_len(last);
        lemma_wf_prod_len_nonneg(pre);
        lemma_node_len_nonneg(last);
        lemma_index_split(i, prod_len(pre), l);
        lemma_prod_get_facts(pre, i / l);
        lemma_get_facts(last, i % l);
        let m = prod_get(ns, i);
        let mp = prod_get(pre, i / l);
        let ml = node_get(last, i % l);
        assert(m == ml.union_prefer_right(mp));
        assert forall|k: Seq<char>| #[trigger] keys_union(pre).contains(k) implies
            params.contains_key(k) && mp.contains_key(k) && params[k] == mp[k] by {
            assert(keys_union(ns).contains(k));
        }
        lemma_seq_contains(pre, i / l, params, items);
        assert forall|k: Seq<char>| #[trigger] node_keys(last).contains(k) implies
            params.contains_key(k) && ml.contains_key(k) && params[k] == ml[k] by {
            assert(keys_union(ns).contains(k));
            assert(!keys_union(pre).contains(k));
            assert(!mp.contains_key(k));
        }
        lemma_contains_local(last, i % l, params, items);
    }
}

/// Law: without adaptive chunking, every parameter set that random access
/// gives lies in the space, for spaces whose names are those of the
/// space's tree, whose products and associations share no names among
/// their children, and whose plain values equal themselves.
pub proof fn law_random_access_sets_are_contained(space: SpaceNode, names: Seq<Seq<char>>, i: int, items: ParamItems)
    requires
        node_wf(space),
        !has_adaptive(space),
        leaves_ok(space),
        distinct_keys(space),
        node_keys(space) == names.to_set(),
        0 <= i < node_len(space),
    ensures
        containment(space, names, node_get(space, i), items) is Ok,
{
    lemma_get_facts(space, i);
    let m = node_get(space, i);
    assert forall|k: Seq<char>| #[trigger] node_keys(space).contains(k) implies
        m.contains_key(k) && m.contains_key(k) && m[k] == m[k] by {}
    lemma_contains_local(space, i, m, items);
}

/// Law: in the product of two parameters, the second varies fastest: set
/// `i` takes the first's value at `i / |b|` and the second's at `i % |b|`;
/// in their association, set `i` takes each one's value at `i`.
pub proof fn law_two_parameter_spaces(
    x: Seq<char>, tx: TaskParameterType, a: Seq<ValueView>,
    y: Seq<char>, ty: TaskParameterType, b: Seq<ValueView>,
    len: int, i: int,
)
    requires
        x != y,
        b.len() > 0,
        0 <= i < a.len() * b.len(),
    ensures
        node_get(SpaceNode::Product { children: seq![SpaceNode::Plain { name: x, ty: tx, values: a },
            SpaceNode::Plain { name: y, ty: ty, values: b }], len }, i)
            == map![x => (tx, a[i / (b.len() as int)]), y => (ty, b[i % (b.len() as int)])],
        i < a.len() && i < b.len() ==> node_get(SpaceNode::Assoc { children: seq![SpaceNode::Plain { name: x, ty: tx, values: a },
            SpaceNode::Plain { name: y, ty: ty, values: b }], len }, i)
            == map![x => (tx, a[i]), y => (ty, b[i])],
{
    let pa = SpaceNode::Plain { name: x, ty: tx, values: a };
    let pb = SpaceNode::Plain { name: y, ty: ty, values: b };
    let ns = seq![pa, pb];
    assert(ns.drop_last() =~= seq![pa]);
    assert(seq![pa].drop_last() =~= Seq::<SpaceNode>::empty());
    let l = b.len() as int;
    assert(i / l < a.len()) by (nonlinear_arith)
        requires 0 <= i < a.len() * b.len(), l == b.len(), l > 0;
    assert(0 <= i / l) by (nonlinear_arith)
        requires 0 <= i, l > 0;
    let j = i / l;
    assert(j % (a.len() as int) == j) by {
        vstd::arithmetic::div_mod::lemma_small_mod(j as nat, a.len());
    }
    assert(0 <= i % l < l);
    let e = Seq::<SpaceNode>::empty();
    assert(prod_get(e, j / (a.len() as int)) == Map::<Seq<char>, (TaskParameterType, ValueView)>::empty());
    assert(node_get(pa, j) == map![x => (tx, a[j])]);
    assert(prod_get(seq![pa], j) == node_get(pa, j % (a.len() as int)).union_prefer_right(prod_get(e, j / (a.len() as int))));
    assert(prod_get(seq![pa], j) =~= map![x => (tx, a[j])]);
    assert(prod_get(ns, i) == node_get(pb, i % l).union_prefer_right(prod_get(seq![pa], j)));
    assert(node_get(pb, i % l) == map![y => (ty, b[i % l])]);
    assert(prod_get(ns, i) =~= map![x => (tx, a[j]), y => (ty, b[i % l])]);
    if i < a.len() && i < b.len() {
        assert(assoc_get(e, i) == Map::<Seq<char>, (TaskParameterType, ValueView)>::empty());
        assert(seq![pa].last() == pa);
        assert(assoc_get(seq![pa], i) == assoc_get(e, i).union_prefer_right(node_get(pa, i)));
        assert(node_get(pa, i) == map![x => (tx, a[i])]);
        assert(assoc_get(seq![pa], i) =~= map![x => (tx, a[i])]);
        assert(assoc_get(ns, i) == assoc_get(seq![pa], i).union_prefer_right(node_get(pb, i)));
        assert(node_get(pb, i) == map![y => (ty, b[i])]);
        assert(assoc_get(ns, i) =~= map![x => (tx, a[i]), y => (ty, b[i])]);
    }
}

fn value_display(v: &ParamValue) -> (s: String)
    ensures
        s@ == value_text(v@),
{
    match v {
        ParamValue::Int(i) => i64_text(*i),
        ParamValue::Float(f) => f.text.clone(),
        ParamValue::String(x) => x.clone(),
        ParamValue::Path(x) => x.clone(),
        ParamValue::RangeExpr(r) => r.to_text(),
    }
}

fn param_message(name: &String, middle: &str, value_text_s: &String, tail: &str) -> (m: String)
    ensures
        m@ == "Parameter '"@ + name@ + middle@ + value_text_s@ + tail@,
{
    let mut m = String::new();
    m.append("Parameter '");
    m.append(name.as_str());
    m.append(middle);
    m.append(value_text_s.as_str());
    m.append(tail);
    proof {
        assert(m@ =~= "Parameter '"@ + name@ + middle@ + value_text_s@ + tail@);
    }
    m
}

fn not_found_message(name: &String) -> (m: String)
    ensures
        m@ == msg_not_found(name@),
{
    let mut m = String::new();
    m.append("Parameter '");
    m.append(name.as_str());
    m.append("' not found in the provided parameters.");
    proof {
        assert(m@ =~= msg_not_found(name@));
    }
    m
}

fn not_in_range_message(name: &String, v: &ParamValue) -> (m: String)
    ensures
        m@ == msg_not_in_range(name@, v@),
{
    let t = value_display(v);
    let m = param_message(name, "' value '", &t, "' is not in the parameter space range.");
    proof {
        assert(m@ =~= msg_not_in_range(name@, v@));
    }
    m
}

/// Whether `x` is one of the values, as an integer value.
fn has_int(values: &Vec<ParamValue>, x: i64) -> (b: bool)
    ensures
        b == int_member(value_views(values@), x as int),
{
    let mut j: usize = 0;
    while j < values.len()
        invariant
            0 <= j <= values@.len(),
            forall|q: int| 0 <= q < j ==> value_views(values@)[q] != ValueView::Int(x),
        decreases values@.len() - j,
    {
        match &values[j] {
            ParamValue::Int(i) => {
                if *i == x {
                    proof {
                        assert(value_views(values@)[j as int] == ValueView::Int(x));
                    }
                    return true;
                }
            },
            _ => {},
        }
        j = j + 1;
    }
    false
}

/// Whether `x` is one of the source's values.
fn source_has(src: &ChunkSource, x: i64) -> (b: bool)
    requires
        src.wf(),
    ensures
        b == src.values().contains(x as int),
{
    let n = src.len();
    let mut k: usize = 0;
    while k < n
        invariant
            src.wf(),
            n == src.values().len(),
            0 <= k <= n,
            forall|q: int| 0 <= q < k ==> src.values()[q] != x as int,
        decreases n - k,
    {
        if src.at(k) == x {
            return true;
        }
        k = k + 1;
    }
    false
}

fn row_within(a: &TaskParameterSet, b: &TaskParameterSet) -> (r: bool)
    requires
        a.wf(),
        b.wf(),
    ensures
        r == row_matches(a@, b@),
{
    proof {
        a.lemma_items();
        b.lemma_items();
    }
    let n = a.entry_count();
    let mut i: usize = 0;
    while i < n
        invariant
            a.wf(),
            b.wf(),
            n == a.items().len(),
            a@.len() == a.items().len(),
            0 <= i <= n,
            forall|q: int| 0 <= q < i ==> b@.contains_key(#[trigger] a.items()[q].0) && value_view_eq(a.items()[q].1.1, b@[a.items()[q].0].1),
        decreases n - i,
    {
        proof {
            a.lemma_items();
            b.lemma_items();
        }
        let (k, v) = a.entry_at(i);
        match b.get(k.as_str()) {
            None => {
                proof {
                    assert(a@.contains_key(a.items()[i as int].0));
                }
                return false;
            },
            Some(bv) => {
                if !value_eq(&v.value, &bv.value) {
                    proof {
                        assert(a@.contains_key(a.items()[i as int].0));
                        assert(a@[a.items()[i as int].0] == a.items()[i as int].1);
                    }
                    return false;
                }
            },
        }
        i = i + 1;
    }
    proof {
        a.lemma_items();
        assert forall|k: Seq<char>| #[trigger] a@.contains_key(k) implies b@.contains_key(k) && value_view_eq(a@[k].1, b@[k].1) by {
            let q = choose|q: int| 0 <= q < a.items().len() && a.items()[q].0 == k;
            assert(b@.contains_key(a.items()[q].0));
        }
    }
    true
}

proof fn lemma_keys_union(ns: Seq<SpaceNode>, k: Seq<char>)
    ensures
        keys_union(ns).contains(k) <==> exists|j: int| 0 <= j < ns.len() && node_keys(#[trigger] ns[j]).contains(k),
    decreases ns.len(),
{
    if ns.len() > 0 {
        lemma_keys_union(ns.drop_last(), k);
        if keys_union(ns.drop_last()).contains(k) {
            let j = choose|j: int| 0 <= j < ns.drop_last().len() && node_keys(#[trigger] ns.drop_last()[j]).contains(k);
            assert(ns[j] == ns.drop_last()[j]);
        }
        if exists|j: int| 0 <= j < ns.len() && node_keys(#[trigger] ns[j]).contains(k) {
            let j = choose|j: int| 0 <= j < ns.len() && node_keys(#[trigger] ns[j]).contains(k);
            if j < ns.len() - 1 {
                assert(ns.drop_last()[j] == ns[j]);
            }
        }
    }
}

impl Node {
    /// Whether the node's parameter sets hold the name.
    fn has_key(&self, name: &String) -> (b: bool)
        ensures
            b == node_keys(view_node(*self)).contains(name@),
        decreases *self,
    {
        match self {
            Node::List { name: n, .. } => *n == *name,
            Node::Range { name: n, .. } => *n == *name,
            Node::Chunks { name: n, .. } => *n == *name,
            Node::Product { children, length } => {
                let ghost ns = view_nodes(children@);
                proof {
                    lemma_view_nodes(children@);
                    lemma_keys_union(ns, name@);
                }
                let mut j: usize = 0;
                while j < children.len()
                    invariant
                        *self == (Node::Product { children: *children, length: *length }),
                        ns == view_nodes(children@),
                        ns.len() == children@.len(),
                        forall|q: int| 0 <= q < ns.len() ==> #[trigger] ns[q] == view_node(children@[q]),
                        0 <= j <= ns.len(),
                        forall|q: int| 0 <= q < j ==> !node_keys(#[trigger] ns[q]).contains(name@),
                        keys_union(ns).contains(name@) <==> exists|q: int| 0 <= q < ns.len() && node_keys(#[trigger] ns[q]).contains(name@),
                    decreases ns.len() - j,
                {
                    proof {
                        assert((*self)->Product_children == *children);
                        assert(decreases_to!(*self => (*self)->Product_children));
                        assert(decreases_to!(*children => children@));
                        assert(decreases_to!(children@ => children@[j as int]));
                    }
                    if children[j].has_key(name) {
                        proof {
                            assert(node_keys(ns[j as int]).contains(name@));
                        }
                        return true;
                    }
                    j = j + 1;
                }
                false
            },
            Node::Assoc { children, length } => {
                let ghost ns = view_nodes(children@);
                proof {
                    lemma_view_nodes(children@);
                    lemma_keys_union(ns, name@);
                }
                let mut j: usize = 0;
                while j < children.len()
                    invariant
                        *self == (Node::Assoc { children: *children, length: *length }),
                        ns == view_nodes(children@),
                        ns.len() == children@.len(),
                        forall|q: int| 0 <= q < ns.len() ==> #[trigger] ns[q] == view_node(children@[q]),
                        0 <= j <= ns.len(),
                        forall|q: int| 0 <= q < j ==> !node_keys(#[trigger] ns[q]).contains(name@),
                        keys_union(ns).contains(name@) <==> exists|q: int| 0 <= q < ns.len() && node_keys(#[trigger] ns[q]).contains(name@),
                    decreases ns.len() - j,
                {
                    proof {
                        assert((*self)->Assoc_children == *children);
                        assert(decreases_to!(*self => (*self)->Assoc_children));
                        assert(decreases_to!(*children => children@));
                        assert(decreases_to!(children@ => children@[j as int]));
                    }
                    if children[j].has_key(name) {
                        proof {
                            assert(node_keys(ns[j as int]).contains(name@));
                        }
                        return true;
                    }
                    j = j + 1;
                }
                false
            },
            _ => false,
        }
    }

    /// The report of an association whose values do not appear.
    fn assoc_message(&self, params: &TaskParameterSet) -> (m: String)
        ensures
            m@ == msg_assoc(params.items(), node_keys(view_node(*self))),
    {
        let keys = Ghost(node_keys(view_node(*self)));
        let mut parts: Vec<String> = Vec::new();
        let n = params.entry_count();
        let mut i: usize = 0;
        while i < n
            invariant
                n == params.items().len(),
                keys@ == node_keys(view_node(*self)),
                0 <= i <= n,
                strings_view(parts@) == key_value_texts(params.items().take(i as int), keys@),
            decreases n - i,
        {
            let (k, v) = params.entry_at(i);
            proof {
                assert(params.items().take(i as int + 1).drop_last() =~= params.items().take(i as int));
                assert(params.items().take(i as int + 1).last() == params.items()[i as int]);
            }
            if self.has_key(k) {
                let mut t = String::new();
                t.append(k.as_str());
                t.append("=");
                let vt = value_display(&v.value);
                t.append(vt.as_str());
                let ghost prev = parts@;
                parts.push(t);
                proof {
                    assert(strings_view(parts@) =~= strings_view(prev).push(t@));
                    assert(t@ =~= k@ + "="@ + value_text(v.value@));
                }
            }
            i = i + 1;
        }
        proof {
            assert(params.items().take(i as int) =~= params.items());
        }
        let mut m = String::new();
        m.append("The values {");
        let mut j: usize = 0;
        let ghost head = m@;
        while j < parts.len()
            invariant
                0 <= j <= parts@.len(),
                m@ == head + join_comma(strings_view(parts@).take(j as int)),
            decreases parts@.len() - j,
        {
            if j > 0 {
                m.append(", ");
            }
            m.append(parts[j].as_str());
            proof {
                let sv = strings_view(parts@);
                assert(sv.take(j as int + 1).drop_last() =~= sv.take(j as int));
                assert(sv.take(j as int + 1).last() == parts@[j as int]@);
                if j == 0 {
                    assert(sv.take(1) =~= seq![parts@[0]@]);
                }
                assert(m@ =~= head + join_comma(sv.take(j as int + 1)));
            }
            j = j + 1;
        }
        m.append("}, of an association expression in the combination expression, do not appear in the parameter space.");
        proof {
            assert(strings_view(parts@).take(j as int) =~= strings_view(parts@));
            assert(m@ =~= msg_assoc(params.items(), node_keys(view_node(*self))));
        }
        m
    }
}

spec fn check_ok(r: Result<(), String>, s: Result<(), Seq<char>>) -> bool {
    match (r, s) {
        (Ok(_), Ok(_)) => true,
        (Err(m), Err(sm)) => m@ == sm,
        _ => false,
    }
}

proof fn lemma_int_views_member(values: Seq<int>, v: ValueView)
    requires
        forall|k: int| 0 <= k < values.len() ==> in_domain(#[trigger] values[k]),
    ensures
        any_equal(int_views(values), v) <==> (v matches ValueView::Int(i) && values.contains(i as int)),
{
    if any_equal(int_views(values), v) {
        let j = choose|j: int| 0 <= j < int_views(values).len() && value_view_eq(#[trigger] int_views(values)[j], v);
        assert(int_views(values)[j] == ValueView::Int(values[j] as i64));
        assert(in_domain(values[j]));
        assert((values[j] as i64) as int == values[j]);
    }
    match v {
        ValueView::Int(i) => {
            if values.contains(i as int) {
                let j = choose|j: int| 0 <= j < values.len() && values[j] == i as int;
                assert(int_views(values)[j] == ValueView::Int(values[j] as i64));
                assert(value_view_eq(int_views(values)[j], v));
            }
        },
        _ => {},
    }
}

impl Node {
    /// Whether the parameter set lies in the node, or why not.
    fn check(&self, params: &TaskParameterSet) -> (r: Result<(), String>)
        requires
            exec_wf(*self),
            params.wf(),
        ensures
            check_ok(r, node_contains(view_node(*self), params@, params.items())),
        decreases *self,
    {
        match self {
            Node::Zero => {
                proof {
                    assert(node_contains(view_node(*self), params@, params.items()) is Ok);
                }
                Ok(())
            },
            Node::List { name, param_type, values } => {
                let v = match params.get(name.as_str()) {
                    None => return Err(not_found_message(name)),
                    Some(v) => v,
                };
                if *param_type == TaskParameterType::ChunkInt {
                    match &v.value {
                        ParamValue::RangeExpr(r) => {
                            r.valid();
                            let xs = r.to_vec();
                            let mut q: usize = 0;
                            while q < xs.len()
                                invariant
                                    *self == (Node::List { name: *name, param_type: *param_type, values: *values }),
                                    *param_type == TaskParameterType::ChunkInt,
                                    params@.contains_key(name@),
                                    params@[name@].1 == ValueView::Range(r.runs(), r.contiguous_display()),
                                    xs@.map_values(|x: i64| x as int) == runs_values(r.runs()),
                                    0 <= q <= xs@.len(),
                                    forall|t: int| 0 <= t < q ==> int_member(value_views(values@), #[trigger] runs_values(r.runs())[t]),
                                decreases xs@.len() - q,
                            {
                                proof {
                                    assert(xs@.map_values(|x: i64| x as int)[q as int] == xs@[q as int] as int);
                                }
                                if !has_int(values, xs[q]) {
                                    let t = r.to_text();
                                    let m = param_message(name, "' value '", &t, "' is not a subset of the range in the parameter space.");
                                    proof {
                                        assert(!runs_within_values(r.runs(), value_views(values@)));
                                        assert(m@ =~= msg_not_subset(name@, r.runs(), r.contiguous_display()));
                                    }
                                    return Err(m);
                                }
                                q = q + 1;
                            }
                            proof {
                                assert(runs_within_values(r.runs(), value_views(values@)));
                                assert(node_contains(view_node(*self), params@, params.items()) is Ok);
                            }
                            Ok(())
                        },
                        other => {
                            proof {
                                assert(node_contains(view_node(*self), params@, params.items()) is Err);
                            }
                            Err(not_in_range_message(name, &v.value))
                        },
                    }
                } else {
                    let mut j: usize = 0;
                    while j < values.len()
                        invariant
                            *self == (Node::List { name: *name, param_type: *param_type, values: *values }),
                            *param_type != TaskParameterType::ChunkInt,
                            params@.contains_key(name@),
                            params@[name@].1 == v.value@,
                            0 <= j <= values@.len(),
                            forall|q: int| 0 <= q < j ==> !value_view_eq(#[trigger] value_views(values@)[q], v.value@),
                        decreases values@.len() - j,
                    {
                        if value_eq(&values[j], &v.value) {
                            proof {
                                assert(value_view_eq(value_views(values@)[j as int], v.value@));
                            }
                            return Ok(());
                        }
                        j = j + 1;
                    }
                    proof {
                        assert(node_contains(view_node(*self), params@, params.items()) is Err);
                    }
                    Err(not_in_range_message(name, &v.value))
                }
            },
            Node::Range { name, range } => {
                let v = match params.get(name.as_str()) {
                    None => return Err(not_found_message(name)),
                    Some(v) => v,
                };
                range.valid();
                proof {
                    crate::range_expr::lemma_runs_values_in_domain(range.runs());
                    lemma_int_views_member(range.values(), v.value@);
                }
                match &v.value {
                    ParamValue::Int(i) => {
                        proof {
                            assert(v.value@ == ValueView::Int(*i));
                            assert(range.values().contains(*i as int) == any_equal(int_views(range.values()), v.value@));
                        }
                        if range.contains(*i) {
                            proof {
                                assert(node_contains(view_node(*self), params@, params.items()) is Ok);
                            }
                            Ok(())
                        } else {
                            proof {
                                assert(node_contains(view_node(*self), params@, params.items()) is Err);
                            }
                            Err(not_in_range_message(name, &v.value))
                        }
                    },
                    _ => {
                        proof {
                            assert(node_contains(view_node(*self), params@, params.items()) is Err);
                        }
                        Err(not_in_range_message(name, &v.value))
                    },
                }
            },
            Node::Chunks { name, plan } => {
                let v = match params.get(name.as_str()) {
                    None => return Err(not_found_message(name)),
                    Some(v) => v,
                };
                match &v.value {
                    ParamValue::RangeExpr(r) => {
                        let n = plan.len();
                        let mut i: usize = 0;
                        while i < n
                            invariant
                                *self == (Node::Chunks { name: *name, plan: *plan }),
                                params@.contains_key(name@),
                                params@[name@].1 == ValueView::Range(r.runs(), r.contiguous_display()),
                                plan.wf(),
                                n == plan.chunks().len(),
                                0 <= i <= n,
                                forall|q: int| 0 <= q < i ==> #[trigger] plan.chunks()[q] != r.runs(),
                            decreases n - i,
                        {
                            let c = plan.chunk(i);
                            if c.same_value(r) {
                                proof {
                                    assert(plan.chunks()[i as int] == r.runs());
                                    let sn = view_node(*self);
                                    assert(sn == SpaceNode::Chunks { name: name@, chunks: plan.chunks(), contiguous: plan.is_contiguous() });
                                    assert(sn->Chunks_chunks[i as int] == r.runs());
                                    assert(node_contains(sn, params@, params.items()) is Ok);
                                }
                                return Ok(());
                            }
                            i = i + 1;
                        }
                        r.valid();
                        let t = r.to_text();
                        let m = param_message(name, "' value '", &t, "' is not a valid chunk in the parameter space.");
                        proof {
                            assert(m@ =~= msg_not_chunk(name@, r.runs(), r.contiguous_display()));
                            assert(node_contains(view_node(*self), params@, params.items()) is Err);
                        }
                        Err(m)
                    },
                    _ => {
                        proof {
                            assert(node_contains(view_node(*self), params@, params.items()) is Err);
                        }
                        Err(not_in_range_message(name, &v.value))
                    },
                }
            },
            Node::Adaptive { name, source, .. } => {
                let v = match params.get(name.as_str()) {
                    None => return Err(not_found_message(name)),
                    Some(v) => v,
                };
                match &v.value {
                    ParamValue::RangeExpr(r) => {
                        r.valid();
                        let xs = r.to_vec();
                        let mut q: usize = 0;
                        while q < xs.len()
                            invariant
                                params@.contains_key(name@),
                                params@[name@].1 == ValueView::Range(r.runs(), r.contiguous_display()),
                                view_node(*self) == (SpaceNode::Adaptive { name: name@, values: source.values(), contiguous: view_node(*self)->Adaptive_contiguous }),
                                source.wf(),
                                xs@.map_values(|x: i64| x as int) == runs_values(r.runs()),
                                0 <= q <= xs@.len(),
                                forall|t: int| 0 <= t < q ==> source.values().contains(#[trigger] runs_values(r.runs())[t]),
                            decreases xs@.len() - q,
                        {
                            proof {
                                assert(xs@.map_values(|x: i64| x as int)[q as int] == xs@[q as int] as int);
                            }
                            if !source_has(source, xs[q]) {
                                let t = r.to_text();
                                let m = param_message(name, "' value '", &t, "' is not a subset of the range in the parameter space.");
                                proof {
                                    assert(!runs_within_ints(r.runs(), source.values()));
                                    assert(m@ =~= msg_not_subset(name@, r.runs(), r.contiguous_display()));
                                }
                                return Err(m);
                            }
                            q = q + 1;
                        }
                        proof {
                            assert(runs_within_ints(r.runs(), source.values()));
                            assert(node_contains(view_node(*self), params@, params.items()) is Ok);
                        }
                        Ok(())
                    },
                    _ => {
                        proof {
                            assert(node_contains(view_node(*self), params@, params.items()) is Err);
                        }
                        Err(not_in_range_message(name, &v.value))
                    },
                }
            },
            Node::Product { children, length } => {
                let ghost ns = view_nodes(children@);
                proof {
                    lemma_view_nodes(children@);
                    assert(ns.take(0) =~= Seq::<SpaceNode>::empty());
                }
                let mut j: usize = 0;
                while j < children.len()
                    invariant
                        *self == (Node::Product { children: *children, length: *length }),
                        params.wf(),
                        ns == view_nodes(children@),
                        ns.len() == children@.len(),
                        forall|q: int| 0 <= q < ns.len() ==> #[trigger] ns[q] == view_node(children@[q]),
                        forall|q: int| 0 <= q < ns.len() ==> exec_wf(#[trigger] children@[q]),
                        0 <= j <= ns.len(),
                        seq_contains(ns.take(j as int), params@, params.items()) is Ok,
                    decreases ns.len() - j,
                {
                    proof {
                        assert((*self)->Product_children == *children);
                        assert(decreases_to!(*self => (*self)->Product_children));
                        assert(decreases_to!(*children => children@));
                        assert(decreases_to!(children@ => children@[j as int]));
                        assert(ns.take(j as int + 1).drop_last() =~= ns.take(j as int));
                        assert(ns.take(j as int + 1).last() == ns[j as int]);
                    }
                    match children[j].check(params) {
                        Err(e) => {
                            proof {
                                lemma_seq_contains_prefix_err(ns, params@, params.items(), j as int + 1);
                            }
                            return Err(e);
                        },
                        Ok(_) => {},
                    }
                    j = j + 1;
                }
                proof {
                    assert(ns.take(j as int) =~= ns);
                    assert(node_contains(view_node(*self), params@, params.items()) is Ok);
                }
                Ok(())
            },
            Node::Assoc { children, length } => {
                if self.contains_adaptive() {
                    proof {
                        assert(node_contains(view_node(*self), params@, params.items()) is Err);
                    }
                    return Err(self.assoc_message(params));
                }
                let ghost sn = view_node(*self);
                let mut i: usize = 0;
                while i < *length
                    invariant
                        exec_wf(*self),
                        *self == (Node::Assoc { children: *children, length: *length }),
                        sn == view_node(*self),
                        !has_adaptive(sn),
                        params.wf(),
                        0 <= i <= *length,
                        forall|q: int| 0 <= q < i ==> !row_matches(#[trigger] assoc_get(view_nodes(children@), q), params@),
                    decreases *length - i,
                {
                    let mut candidate = TaskParameterSet::new();
                    self.get_into(i, &mut candidate);
                    proof {
                        assert(Map::<Seq<char>, (TaskParameterType, ValueView)>::empty().union_prefer_right(node_get(sn, i as int))
                            =~= node_get(sn, i as int));
                    }
                    if row_within(&candidate, params) {
                        proof {
                            assert(row_matches(assoc_get(view_nodes(children@), i as int), params@));
                        }
                        return Ok(());
                    }
                    i = i + 1;
                }
                proof {
                    assert(!(exists|q: int| 0 <= q < *length && row_matches(#[trigger] assoc_get(view_nodes(children@), q), params@)));
                    assert(sn == SpaceNode::Assoc { children: view_nodes(children@), len: *length as int });
                    assert(!has_adaptive(sn));
                    assert(node_contains(sn, params@, params.items()) == Err::<(), Seq<char>>(msg_assoc(params.items(), node_keys(sn))));
                }
                Err(self.assoc_message(params))
            },
        }
    }
}

proof fn lemma_seq_contains_prefix_err(ns: Seq<SpaceNode>, params: ParamMap, items: ParamItems, m: int)
    requires
        0 <= m <= ns.len(),
        seq_contains(ns.take(m), params, items) is Err,
    ensures
        seq_contains(ns, params, items) == seq_contains(ns.take(m), params, items),
    decreases ns.len() - m,
{
    if m < ns.len() {
        assert(ns.take(m + 1).drop_last() =~= ns.take(m));
        lemma_seq_contains_prefix_err(ns, params, items, m + 1);
    } else {
        assert(ns.take(m) =~= ns);
    }
}

/// Whether `a` comes before or equals `b` in character order.
fn text_le_exec(a: &String, b: &String) -> (r: bool)
    ensures
        r == text_le(a@, b@),
{
    let ac = str_chars(a.as_str());
    let bc = str_chars(b.as_str());
    let mut i: usize = 0;
    proof {
        assert(a@.skip(0) =~= a@);
        assert(b@.skip(0) =~= b@);
    }
    while i < ac.len()
        invariant
            ac@ == a@,
            bc@ == b@,
            0 <= i <= ac@.len(),
            i <= bc@.len(),
            text_le(a@, b@) == text_le(a@.skip(i as int), b@.skip(i as int)),
        decreases ac@.len() - i,
    {
        proof {
            assert(a@.skip(i as int).drop_first() =~= a@.skip(i as int + 1));
        }
        if i >= bc.len() {
            return false;
        }
        proof {
            assert(b@.skip(i as int).drop_first() =~= b@.skip(i as int + 1));
            assert(a@.skip(i as int)[0] == ac@[i as int]);
            assert(b@.skip(i as int)[0] == bc@[i as int]);
        }
        if ac[i] != bc[i] {
            return ac[i] < bc[i];
        }
        i = i + 1;
    }
    proof {
        assert(a@.skip(i as int).len() == 0);
    }
    true
}

proof fn lemma_insert_sorted(s: Seq<Seq<char>>, x: Seq<char>, p: int)
    requires
        0 <= p <= s.len(),
        forall|q: int| 0 <= q < p ==> !text_le(x, #[trigger] s[q]),
        p < s.len() ==> text_le(x, s[p]),
    ensures
        insert_sorted(s, x) == s.take(p) + seq![x] + s.skip(p),
    decreases s.len(),
{
    if s.len() == 0 {
        assert(s.take(p) + seq![x] + s.skip(p) =~= seq![x]);
    } else if p == 0 {
        assert(s.take(0) + seq![x] + s.skip(0) =~= seq![x] + s);
    } else {
        assert(!text_le(x, s[0]));
        let t = s.drop_first();
        assert forall|q: int| 0 <= q < p - 1 implies !text_le(x, #[trigger] t[q]) by {
            assert(t[q] == s[q + 1]);
        }
        if p - 1 < t.len() {
            assert(t[p - 1] == s[p]);
        }
        lemma_insert_sorted(t, x, p - 1);
        assert(seq![s[0]] + (t.take(p - 1) + seq![x] + t.skip(p - 1)) =~= s.take(p) + seq![x] + s.skip(p));
    }
}

/// The names in character order.
fn sorted_names(v: &Vec<String>) -> (r: Vec<String>)
    ensures
        strings_view(r@) == sort_texts(strings_view(v@)),
{
    let mut sorted: Vec<String> = Vec::new();
    let mut i: usize = 0;
    proof {
        assert(strings_view(v@).take(0) =~= Seq::<Seq<char>>::empty());
        assert(strings_view(sorted@) =~= Seq::<Seq<char>>::empty());
    }
    while i < v.len()
        invariant
            0 <= i <= v@.len(),
            strings_view(sorted@) == sort_texts(strings_view(v@).take(i as int)),
        decreases v@.len() - i,
    {
        let x = v[i].clone();
        let mut p: usize = 0;
        while p < sorted.len()
            invariant
                0 <= p <= sorted@.len(),
                forall|q: int| 0 <= q < p ==> !text_le(x@, #[trigger] strings_view(sorted@)[q]),
            ensures
                0 <= p <= sorted@.len(),
                forall|q: int| 0 <= q < p ==> !text_le(x@, #[trigger] strings_view(sorted@)[q]),
                p < sorted@.len() ==> text_le(x@, strings_view(sorted@)[p as int]),
            decreases sorted@.len() - p,
        {
            if text_le_exec(&x, &sorted[p]) {
                break;
            }
            p = p + 1;
        }
        let ghost before = strings_view(sorted@);
        proof {
            lemma_insert_sorted(before, x@, p as int);
            assert(strings_view(v@).take(i as int + 1).drop_last() =~= strings_view(v@).take(i as int));
            assert(strings_view(v@).take(i as int + 1).last() == x@);
        }
        let ghost pre_sorted = sorted@;
        sorted.insert(p, x);
        proof {
            assert(strings_view(sorted@) =~= before.take(p as int) + seq![x@] + before.skip(p as int));
        }
        i = i + 1;
    }
    proof {
        assert(strings_view(v@).take(i as int) =~= strings_view(v@));
    }
    sorted
}

impl StepParameterSpaceIterator {
    /// Whether the parameter set lies in this space (see
    /// `validate_containment`).
    pub fn contains(&self, params: &TaskParameterSet) -> (b: bool)
        ensures
            b == (containment(self.space(), self.name_list(), params@, params.items()) is Ok),
    {
        self.validate_containment(params).is_ok()
    }

    /// Whether the parameter set lies in this space: its names must be the
    /// space's, and its values must lie in the tree; otherwise the message
    /// that says why not.
    pub fn validate_containment(&self, params: &TaskParameterSet) -> (r: Result<(), String>)
        ensures
            check_result(r, containment(self.space(), self.name_list(), params@, params.items())),
    {
        proof {
            use_type_invariant(self);
        }
        params.valid();
        proof {
            params.lemma_items();
        }
        let ghost names = self.name_list();
        proof {
            names.unique_seq_to_set();
            vstd::seq_lib::seq_to_set_is_finite(names);
        }
        let mut all_present = params.len() == self.names.len();
        let mut j: usize = 0;
        while j < self.names.len() && all_present
            invariant
                params.wf(),
                names == strings_view(self.names@),
                0 <= j <= self.names@.len(),
                all_present ==> forall|q: int| 0 <= q < j ==> params@.contains_key(#[trigger] names[q]),
                all_present ==> params@.len() == names.len(),
                !all_present ==> params@.dom() != names.to_set(),
                names.no_duplicates(),
            decreases self.names@.len() - j,
        {
            if !params.contains_key(self.names[j].as_str()) {
                proof {
                    assert(names.to_set().contains(names[j as int]));
                }
                all_present = false;
            }
            j = j + 1;
        }
        if !all_present {
            let n = params.entry_count();
            let mut keys: Vec<String> = Vec::new();
            let mut i: usize = 0;
            while i < n
                invariant
                    n == params.items().len(),
                    0 <= i <= n,
                    strings_view(keys@) == params.items().map_values(|e: (Seq<char>, (TaskParameterType, ValueView))| e.0).take(i as int),
                decreases n - i,
            {
                let (k, _) = params.entry_at(i);
                let ghost prev = keys@;
                keys.push(k.clone());
                proof {
                    assert(strings_view(keys@) =~= strings_view(prev).push(k@));
                    assert(params.items().map_values(|e: (Seq<char>, (TaskParameterType, ValueView))| e.0).take(i as int + 1)
                        =~= params.items().map_values(|e: (Seq<char>, (TaskParameterType, ValueView))| e.0).take(i as int).push(params.items()[i as int].0));
                }
                i = i + 1;
            }
            proof {
                assert(params.items().map_values(|e: (Seq<char>, (TaskParameterType, ValueView))| e.0).take(i as int)
                    =~= params.items().map_values(|e: (Seq<char>, (TaskParameterType, ValueView))| e.0));
            }
            let sorted_keys = sorted_names(&keys);
            let sorted_space = sorted_names(&self.names);
            let mut m = String::new();
            m.append("Task parameter names ");
            let a = debug_list(&sorted_keys);
            m.append(a.as_str());
            m.append(" do not match the parameter space names ");
            let b = debug_list(&sorted_space);
            m.append(b.as_str());
            m.append(".");
            proof {
                assert(m@ =~= msg_names(params.items().map_values(|e: (Seq<char>, (TaskParameterType, ValueView))| e.0), names));
            }
            return Err(m);
        }
        proof {
            assert(names.to_set().subset_of(params@.dom())) by {
                assert forall|k: Seq<char>| names.to_set().contains(k) implies params@.dom().contains(k) by {
                    let q = choose|q: int| 0 <= q < names.len() && names[q] == k;
                }
            }
            names.unique_seq_to_set();
            vstd::seq_lib::seq_to_set_is_finite(names);
            vstd::set_lib::lemma_subset_equality(names.to_set(), params@.dom());
        }
        self.root.check(params)
    }
}

pub open spec fn check_result(r: Result<(), String>, s: Result<(), Seq<char>>) -> bool {
    match (r, s) {
        (Ok(_), Ok(_)) => true,
        (Err(m), Err(sm)) => m@ == sm,
        _ => false,
    }
}

// ---------------------------------------------------------------------
// Compact text of a list of integers.

/// The text of one run of consecutive values: `a` or `a-b`.
pub open spec fn segment_text(v: Seq<int>, seg: (int, int)) -> Seq<char> {
    if seg.1 == 1 {
        int_text(v[seg.0])
    } else {
        int_text(v[seg.0]) + seq!['-'] + int_text(v[seg.0 + seg.1 - 1])
    }
}

pub open spec fn segments_text(v: Seq<int>, segs: Seq<(int, int)>) -> Seq<char>
    decreases segs.len(),
{
    if segs.len() == 0 {
        Seq::empty()
    } else if segs.len() == 1 {
        segment_text(v, segs[0])
    } else {
        segments_text(v, segs.drop_last()) + seq![','] + segment_text(v, segs.last())
    }
}

/// The runs of consecutive values, each as `a` or `a-b`, joined by commas.
pub open spec fn compress_text(values: Seq<i64>) -> Seq<char> {
    segments_text(ints_of(values), consecutive_segments(ints_of(values)))
}

/// Compresses a list of integers into a compact range expression text,
/// e.g. `[1, 2, 3, 5, 7, 8, 9]` into `1-3,5,7-9`.
pub fn compress_range_expr(values: &[i64]) -> (s: String)
    ensures
        s@ == compress_text(values@),
{
    let segs = list_segments(values);
    let ghost v = ints_of(values@);
    let ghost sv = pairs_of(segs@);
    proof {
        lemma_consecutive_segments_tile(v);
        lemma_tiles_bounds(v, sv, true);
    }
    let mut out = String::new();
    let mut j: usize = 0;
    while j < segs.len()
        invariant
            sv == pairs_of(segs@),
            sv == consecutive_segments(v),
            v == ints_of(values@),
            forall|q: int| 0 <= q < sv.len() ==> 0 <= (#[trigger] sv[q]).0 && sv[q].0 + sv[q].1 <= v.len(),
            forall|q: int| 0 <= q < sv.len() ==> (#[trigger] sv[q]).1 >= 1,
            0 <= j <= sv.len(),
            out@ == segments_text(v, sv.take(j as int)),
        decreases sv.len() - j,
    {
        let (o, l) = segs[j];
        proof {
            assert(sv[j as int] == (o as int, l as int));
            assert(sv.take(j as int + 1).drop_last() =~= sv.take(j as int));
            assert(sv.take(j as int + 1).last() == sv[j as int]);
        }
        if j > 0 {
            push_char(&mut out, ',');
        }
        append_i64(&mut out, values[o]);
        if l > 1 {
            push_char(&mut out, '-');
            append_i64(&mut out, values[o + l - 1]);
        }
        proof {
            if j == 0 {
                assert(sv.take(1) =~= seq![sv[0]]);
            }
            assert(out@ =~= segments_text(v, sv.take(j as int + 1)));
        }
        j = j + 1;
    }
    proof {
        assert(sv.take(j as int) =~= sv);
    }
    out
}

} // verus!
