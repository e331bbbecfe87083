use vstd::prelude::*;
use vstd::string::StringExecFns;
use crate::assoc::{kv_get, kv_insert, lemma_insert_get};
use crate::datamodel::{Datamodel, NodeTypeV, PropertyType, props_view};
use crate::doc::{Doc, DocVal, DocValue, DocV, doc_append};
use crate::graph::{CachedGraph, GraphView, derefs, strings_view};
use crate::node::{Node, NodeCategory};
use crate::text::str_eq;

verus! {

broadcast use vstd::std_specs::vec::group_vec_axioms;

/// Whether a child appears once (`ToOne`) or as a list (`ToMany`) in its
/// parent's document.
#[derive(Clone, Copy, Debug, PartialEq, Eq, Structural)]
pub enum Correlation {
    ToOne,
    ToMany,
}

/// Options of the denormalizer.
#[derive(Debug)]
pub struct Options {
    pub datamodel: Datamodel,
    pub case_to_file_paths: Vec<Vec<String>>,
    pub file_labels: Vec<String>,
    pub index_file_extensions: Vec<String>,
    pub possible_associated_entites: Vec<String>,
}

impl Options {
    /// Options over `datamodel` with every list empty.
    pub fn active_defaults(datamodel: Datamodel) -> (r: Options)
        ensures
            r.datamodel == datamodel,
            r.case_to_file_paths@.len() == 0,
            r.file_labels@.len() == 0,
            r.index_file_extensions@.len() == 0,
            r.possible_associated_entites@.len() == 0,
    {
        Options {
            datamodel,
            case_to_file_paths: Vec::new(),
            file_labels: Vec::new(),
            index_file_extensions: Vec::new(),
            possible_associated_entites: Vec::new(),
        }
    }

    /// Options over `datamodel` with every list empty.
    pub fn legacy_defaults(datamodel: Datamodel) -> (r: Options)
        ensures
            r.datamodel == datamodel,
            r.case_to_file_paths@.len() == 0,
            r.file_labels@.len() == 0,
            r.index_file_extensions@.len() == 0,
            r.possible_associated_entites@.len() == 0,
    {
        Options {
            datamodel,
            case_to_file_paths: Vec::new(),
            file_labels: Vec::new(),
            index_file_extensions: Vec::new(),
            possible_associated_entites: Vec::new(),
        }
    }
}

/// A denormalizer: options and a graph to build documents from.
pub trait Builder {
    /// The options that `options` returns.
    spec fn options_view(&self) -> Options;

    fn options(&self) -> (r: &Options)
        ensures
            *r == self.options_view(),
    ;

    fn graph(&self) -> &CachedGraph;

    /// The document of a node tree (see [`denormalize_tree`]).
    fn denormalize_tree(&self, tree: &NodeTree) -> (r: Doc)
        requires
            tree_typed(self.options_view().datamodel, tree@),
        ensures
            r@ == denorm(self.options_view().datamodel, tree@),
    {
        denormalize_tree(self.options(), self.graph(), tree)
    }

    /// The base document of a node (see [`get_base_doc`]).
    fn get_base_doc(&self, node: &Node) -> (r: Doc)
        requires
            self.options_view().datamodel.type_of(node.label@) is Some,
        ensures
            r@ == base_doc(self.options_view().datamodel.type_of(node.label@)->Some_0, *node),
    {
        get_base_doc(self.options(), node)
    }

    /// Whether `key` is left out of the base document of `node`.
    fn is_prop_hidden(&self, node: &Node, key: &str) -> (r: bool)
        ensures
            r == prop_hidden(node.label@, key@),
    {
        is_prop_hidden(node, key)
    }
}

/// A denormalizer over a graph with the active options.
pub struct ActiveBuilder<'a> {
    pub graph: &'a CachedGraph,
    pub options: &'a Options,
}

impl<'a> ActiveBuilder<'a> {
    pub fn new(options: &'a Options, graph: &'a CachedGraph) -> (r: ActiveBuilder<'a>)
        ensures
            r.options == options,
            r.graph == graph,
    {
        ActiveBuilder { options, graph }
    }
}

impl<'b> Builder for ActiveBuilder<'b> {
    open spec fn options_view(&self) -> Options {
        *self.options
    }

    fn options(&self) -> (r: &Options) {
        self.options
    }

    fn graph(&self) -> &CachedGraph {
        self.graph
    }
}

/// A denormalizer over a graph with the legacy options.
pub struct LegacyBuilder<'a> {
    pub graph: &'a CachedGraph,
    pub options: &'a Options,
}

impl<'a> LegacyBuilder<'a> {
    pub fn new(options: &'a Options, graph: &'a CachedGraph) -> (r: LegacyBuilder<'a>)
        ensures
            r.options == options,
            r.graph == graph,
    {
        LegacyBuilder { options, graph }
    }
}

impl<'b> Builder for LegacyBuilder<'b> {
    open spec fn options_view(&self) -> Options {
        *self.options
    }

    fn options(&self) -> (r: &Options) {
        self.options
    }

    fn graph(&self) -> &CachedGraph {
        self.graph
    }
}

/// A type tree: which labels to visit from a node, under which output
/// title, and with which correlation, e.g. a case tree
///
/// case
///  |___ sample
///  |      |___ portion
///  |              |___ analyte
///  |                      ...
///  |___ annotation
#[derive(Debug)]
pub struct TypeTree {
    pub label: String,
    pub title: String,
    pub correlation: Correlation,
    pub children: Vec<TypeTree>,
}

/// The mathematical value of a [`TypeTree`].
#[verifier::ext_equal]
pub ghost struct TypeTreeV {
    pub label: Seq<char>,
    pub title: Seq<char>,
    pub correlation: Correlation,
    pub children: Seq<TypeTreeV>,
}

impl TypeTree {
    pub open spec fn view(&self) -> TypeTreeV
        decreases self,
    {
        TypeTreeV {
            label: self.label@,
            title: self.title@,
            correlation: self.correlation,
            children: Seq::new(
                self.children@.len(),
                |i: int|
                    if 0 <= i < self.children@.len() {
                        self.children@[i].view()
                    } else {
                        arbitrary()
                    },
            ),
        }
    }

    /// A type tree with no children.
    pub fn new(label: &str, title: &str, correlation: Correlation) -> (r: TypeTree)
        ensures
            r@ == (TypeTreeV { label: label@, title: title@, correlation, children: Seq::empty() }),
    {
        let r = TypeTree {
            label: String::from_str(label),
            title: String::from_str(title),
            correlation,
            children: Vec::new(),
        };
        assert(r@.children =~= Seq::<TypeTreeV>::empty());
        r
    }

    /// This tree with `child` appended to its children.
    pub fn child(self, child: TypeTree) -> (r: TypeTree)
        ensures
            r@ == (TypeTreeV { children: self@.children.push(child@), ..self@ }),
    {
        let ghost before = self@;
        let ghost cv = child@;
        let mut t = self;
        t.children.push(child);
        assert(t@.children =~= before.children.push(cv));
        t
    }
}

/// A leaf of a type tree.
pub open spec fn leaf(label: Seq<char>, title: Seq<char>, correlation: Correlation) -> TypeTreeV {
    TypeTreeV { label, title, correlation, children: Seq::empty() }
}

/// A type tree with the given children.
pub open spec fn branch(
    label: Seq<char>,
    title: Seq<char>,
    correlation: Correlation,
    children: Seq<TypeTreeV>,
) -> TypeTreeV {
    TypeTreeV { label, title, correlation, children }
}

/// The sample-rooted traversal.
pub open spec fn sample_tree_spec() -> TypeTreeV {
    branch(
        "sample"@,
        "samples"@,
        Correlation::ToMany,
        seq![
            leaf("annotation"@, "annotations"@, Correlation::ToMany),
            leaf("aliquot"@, "aliquots"@, Correlation::ToMany),
            branch(
                "portion"@,
                "portions"@,
                Correlation::ToMany,
                seq![
                    leaf("annotation"@, "annotations"@, Correlation::ToMany),
                    branch(
                        "analyte"@,
                        "analytes"@,
                        Correlation::ToMany,
                        seq![
                            leaf("annotation"@, "annotations"@, Correlation::ToMany),
                            branch(
                                "aliquot"@,
                                "aliquot"@,
                                Correlation::ToMany,
                                seq![leaf("annotation"@, "annotations"@, Correlation::ToMany)],
                            ),
                            leaf("center"@, "center"@, Correlation::ToOne),
                        ],
                    ),
                    branch(
                        "slide"@,
                        "slides"@,
                        Correlation::ToMany,
                        seq![leaf("annotation"@, "annotations"@, Correlation::ToMany)],
                    ),
                ],
            ),
        ],
    )
}

/// The file-rooted traversal.
pub open spec fn file_tree_spec() -> TypeTreeV {
    branch(
        "file"@,
        "files"@,
        Correlation::ToMany,
        seq![
            leaf("annotation"@, "annotations"@, Correlation::ToOne),
            leaf("archive"@, "archive"@, Correlation::ToOne),
            leaf("center"@, "center"@, Correlation::ToOne),
            leaf("data_format"@, "data_format"@, Correlation::ToOne),
            branch(
                "data_subtype"@,
                "data_type"@,
                Correlation::ToOne,
                seq![leaf("data_type"@, "data_category"@, Correlation::ToOne)],
            ),
            leaf("experimental_strategy"@, "experimental_strategy"@, Correlation::ToOne),
            leaf("case"@, "cases"@, Correlation::ToMany),
            leaf("platform"@, "platform"@, Correlation::ToOne),
            leaf("tag"@, "tags"@, Correlation::ToMany),
            leaf("file"@, "metadata_files"@, Correlation::ToMany),
        ],
    )
}

/// The case-rooted traversal.
pub open spec fn case_tree_spec() -> TypeTreeV {
    let sample = sample_tree_spec();
    branch(
        "case"@,
        "cases"@,
        Correlation::ToMany,
        seq![
            sample,
            leaf("annotation"@, "annotations"@, Correlation::ToMany),
            leaf("project"@, "project"@, Correlation::ToOne),
            branch(
                "program"@,
                "program"@,
                Correlation::ToOne,
                seq![leaf("program"@, "program"@, Correlation::ToOne)],
            ),
            leaf("file"@, "files"@, Correlation::ToMany),
            leaf("tissue_source_site"@, "tissue_source_site"@, Correlation::ToOne),
            TypeTreeV { children: sample.children.push(file_tree_spec()), ..sample },
            leaf("demographic"@, "demographic"@, Correlation::ToOne),
            leaf("exposure"@, "exposures"@, Correlation::ToMany),
            branch(
                "diagnosis"@,
                "diagnoses"@,
                Correlation::ToMany,
                seq![leaf("treatment"@, "treatments"@, Correlation::ToMany)],
            ),
            leaf("family_history"@, "family_history"@, Correlation::ToMany),
        ],
    )
}

/// A leaf type tree.
fn leaf_tree(label: &str, title: &str, correlation: Correlation) -> (r: TypeTree)
    ensures
        r@ == leaf(label@, title@, correlation),
{
    let r = TypeTree::new(label, title, correlation);
    assert(r@ =~= leaf(label@, title@, correlation));
    r
}

/// A type tree over `label` whose children are `a` alone.
fn tree1(label: &str, title: &str, correlation: Correlation, a: TypeTree) -> (r: TypeTree)
    ensures
        r@ == branch(label@, title@, correlation, seq![a@]),
{
    let ghost av = a@;
    let r = TypeTree::new(label, title, correlation).child(a);
    assert(r@.children =~= seq![av]);
    r
}

/// The sample-rooted type tree.
pub fn sample_type_tree() -> (r: TypeTree)
    ensures
        r@ == sample_tree_spec(),
{
    let aliquot = tree1(
        "aliquot",
        "aliquot",
        Correlation::ToMany,
        leaf_tree("annotation", "annotations", Correlation::ToMany),
    );
    let ghost aliquot_v = aliquot@;
    let analyte = TypeTree::new("analyte", "analytes", Correlation::ToMany).child(
        leaf_tree("annotation", "annotations", Correlation::ToMany),
    ).child(aliquot).child(leaf_tree("center", "center", Correlation::ToOne));
    assert(analyte@.children =~= seq![
        leaf("annotation"@, "annotations"@, Correlation::ToMany),
        aliquot_v,
        leaf("center"@, "center"@, Correlation::ToOne),
    ]);
    let ghost analyte_v = analyte@;
    let slide = tree1(
        "slide",
        "slides",
        Correlation::ToMany,
        leaf_tree("annotation", "annotations", Correlation::ToMany),
    );
    let ghost slide_v = slide@;
    let portion = TypeTree::new("portion", "portions", Correlation::ToMany).child(
        leaf_tree("annotation", "annotations", Correlation::ToMany),
    ).child(analyte).child(slide);
    assert(portion@.children =~= seq![
        leaf("annotation"@, "annotations"@, Correlation::ToMany),
        analyte_v,
        slide_v,
    ]);
    let ghost portion_v = portion@;
    let r = TypeTree::new("sample", "samples", Correlation::ToMany).child(
        leaf_tree("annotation", "annotations", Correlation::ToMany),
    ).child(leaf_tree("aliquot", "aliquots", Correlation::ToMany)).child(portion);
    assert(r@.children =~= seq![
        leaf("annotation"@, "annotations"@, Correlation::ToMany),
        leaf("aliquot"@, "aliquots"@, Correlation::ToMany),
        portion_v,
    ]);
    r
}

/// The file-rooted type tree.
pub fn file_type_tree() -> (r: TypeTree)
    ensures
        r@ == file_tree_spec(),
{
    let subtype = tree1(
        "data_subtype",
        "data_type",
        Correlation::ToOne,
        leaf_tree("data_type", "data_category", Correlation::ToOne),
    );
    let ghost subtype_v = subtype@;
    let r = TypeTree::new("file", "files", Correlation::ToMany).child(
        leaf_tree("annotation", "annotations", Correlation::ToOne),
    ).child(leaf_tree("archive", "archive", Correlation::ToOne)).child(
        leaf_tree("center", "center", Correlation::ToOne),
    ).child(leaf_tree("data_format", "data_format", Correlation::ToOne)).child(subtype).child(
        leaf_tree("experimental_strategy", "experimental_strategy", Correlation::ToOne),
    ).child(leaf_tree("case", "cases", Correlation::ToMany)).child(
        leaf_tree("platform", "platform", Correlation::ToOne),
    ).child(leaf_tree("tag", "tags", Correlation::ToMany)).child(
        leaf_tree("file", "metadata_files", Correlation::ToMany),
    );
    assert(r@.children =~= seq![
        leaf("annotation"@, "annotations"@, Correlation::ToOne),
        leaf("archive"@, "archive"@, Correlation::ToOne),
        leaf("center"@, "center"@, Correlation::ToOne),
        leaf("data_format"@, "data_format"@, Correlation::ToOne),
        subtype_v,
        leaf("experimental_strategy"@, "experimental_strategy"@, Correlation::ToOne),
        leaf("case"@, "cases"@, Correlation::ToMany),
        leaf("platform"@, "platform"@, Correlation::ToOne),
        leaf("tag"@, "tags"@, Correlation::ToMany),
        leaf("file"@, "metadata_files"@, Correlation::ToMany),
    ]);
    r
}

/// The case-rooted type tree.
pub fn case_type_tree() -> (r: TypeTree)
    ensures
        r@ == case_tree_spec(),
{
    let program = tree1(
        "program",
        "program",
        Correlation::ToOne,
        leaf_tree("program", "program", Correlation::ToOne),
    );
    let ghost program_v = program@;
    let sample_files = sample_type_tree().child(file_type_tree());
    let ghost sample_files_v = sample_files@;
    let diagnosis = tree1(
        "diagnosis",
        "diagnoses",
        Correlation::ToMany,
        leaf_tree("treatment", "treatments", Correlation::ToMany),
    );
    let ghost diagnosis_v = diagnosis@;
    let r = TypeTree::new("case", "cases", Correlation::ToMany).child(sample_type_tree()).child(
        leaf_tree("annotation", "annotations", Correlation::ToMany),
    ).child(leaf_tree("project", "project", Correlation::ToOne)).child(program).child(
        leaf_tree("file", "files", Correlation::ToMany),
    ).child(leaf_tree("tissue_source_site", "tissue_source_site", Correlation::ToOne)).child(
        sample_files,
    ).child(leaf_tree("demographic", "demographic", Correlation::ToOne)).child(
        leaf_tree("exposure", "exposures", Correlation::ToMany),
    ).child(diagnosis).child(leaf_tree("family_history", "family_history", Correlation::ToMany));
    assert(r@.children =~= seq![
        sample_tree_spec(),
        leaf("annotation"@, "annotations"@, Correlation::ToMany),
        leaf("project"@, "project"@, Correlation::ToOne),
        program_v,
        leaf("file"@, "files"@, Correlation::ToMany),
        leaf("tissue_source_site"@, "tissue_source_site"@, Correlation::ToOne),
        sample_files_v,
        leaf("demographic"@, "demographic"@, Correlation::ToOne),
        leaf("exposure"@, "exposures"@, Correlation::ToMany),
        diagnosis_v,
        leaf("family_history"@, "family_history"@, Correlation::ToMany),
    ]);
    r
}

/// A node tree: the instances reached by walking a type tree over the
/// graph, e.g. a case tree
///
/// case1
///  |___ sample1
///  |      |___ portion1
///  |              |___ analyte1
///  |___ annotation1
#[derive(Debug)]
pub struct NodeTree<'a> {
    pub node: &'a Node,
    pub title: String,
    pub correlation: Correlation,
    pub children: Vec<NodeTree<'a>>,
}

/// The mathematical value of a [`NodeTree`].
#[verifier::ext_equal]
pub ghost struct NodeTreeV {
    pub node: Node,
    pub title: Seq<char>,
    pub correlation: Correlation,
    pub children: Seq<NodeTreeV>,
}

pub open spec fn node_trees_view<'a>(s: Seq<NodeTree<'a>>) -> Seq<NodeTreeV> {
    s.map_values(|t: NodeTree<'a>| t@)
}

impl<'a> NodeTree<'a> {
    pub open spec fn view(&self) -> NodeTreeV
        decreases self,
    {
        NodeTreeV {
            node: *self.node,
            title: self.title@,
            correlation: self.correlation,
            children: Seq::new(
                self.children@.len(),
                |i: int|
                    if 0 <= i < self.children@.len() {
                        self.children@[i].view()
                    } else {
                        arbitrary()
                    },
            ),
        }
    }
}

/// The node tree that `NodeTree::construct` builds for `node` from `tt`.
pub open spec fn construct_spec(g: GraphView, tt: TypeTreeV, node: Node) -> NodeTreeV
    decreases tt, tt.children.len() + 1,
{
    NodeTreeV {
        node,
        title: tt.title,
        correlation: tt.correlation,
        children: construct_children(g, tt, node, tt.children.len()),
    }
}

/// The subtrees for the first `k` child types of `tt`: for each child type
/// in order, one subtree per neighbor of `node` with that label, in the
/// graph's neighbor order.
pub open spec fn construct_children(g: GraphView, tt: TypeTreeV, node: Node, k: nat) -> Seq<
    NodeTreeV,
>
    decreases tt, k,
{
    if k == 0 || k > tt.children.len() {
        Seq::empty()
    } else {
        let ct = tt.children[k - 1];
        let nbs = g.neighbors_labeled(node.id@, seq![ct.label]);
        construct_children(g, tt, node, (k - 1) as nat) + nbs.map_values(
            |n: Node| construct_spec(g, ct, n),
        )
    }
}

/// The nodes of `t` in pre-order.
pub open spec fn flatten_spec(t: NodeTreeV) -> Seq<Node>
    decreases t, t.children.len() + 1,
{
    flatten_fold(t, t.children.len())
}

/// `t`'s node followed by the nodes of its first `k` subtrees.
pub open spec fn flatten_fold(t: NodeTreeV, k: nat) -> Seq<Node>
    decreases t, k,
{
    if k == 0 || k > t.children.len() {
        seq![t.node]
    } else {
        flatten_fold(t, (k - 1) as nat) + flatten_spec(t.children[k - 1])
    }
}

impl<'a> NodeTree<'a> {
    /// A node tree with no children.
    pub fn new(node: &'a Node, title: &str, correlation: Correlation) -> (r: NodeTree<'a>)
        ensures
            r@ == (NodeTreeV { node: *node, title: title@, correlation, children: Seq::empty() }),
    {
        let r = NodeTree { node, title: String::from_str(title), correlation, children: Vec::new() };
        assert(r@.children =~= Seq::<NodeTreeV>::empty());
        r
    }

    /// This tree with `child` appended to its children.
    pub fn child(self, child: NodeTree<'a>) -> (r: NodeTree<'a>)
        ensures
            r@ == (NodeTreeV { children: self@.children.push(child@), ..self@ }),
    {
        let ghost before = self@;
        let ghost cv = child@;
        let mut t = self;
        t.children.push(child);
        assert(t@.children =~= before.children.push(cv));
        t
    }

    /// Instantiates `type_tree` at `node`: for each child type, in order, a
    /// subtree for each neighbor of `node` with that child type's label.
    pub fn construct(graph: &'a CachedGraph, type_tree: &TypeTree, node: &'a Node) -> (r: NodeTree<
        'a,
    >)
        requires
            graph.wf(),
        ensures
            r@ == construct_spec(graph.view(), type_tree@, *node),
        decreases type_tree,
    {
        let ghost g = graph.view();
        let ghost tt = type_tree@;
        let mut children: Vec<NodeTree<'a>> = Vec::new();
        let mut ci: usize = 0;
        while ci < type_tree.children.len()
            invariant
                graph.wf(),
                g == graph.view(),
                tt == type_tree@,
                ci <= type_tree.children@.len(),
                node_trees_view(children@) == construct_children(g, tt, *node, ci as nat),
            decreases type_tree.children@.len() - ci,
        {
            let ct = &type_tree.children[ci];
            assert(tt.children[ci as int] == ct@);
            let mut labels: Vec<String> = Vec::new();
            labels.push(ct.label.clone());
            assert(strings_view(labels@) =~= seq![ct@.label]);
            let nbs = graph.neighbors_labeled(&node.id, &labels);
            let ghost before = node_trees_view(children@);
            let ghost nv = derefs(nbs@);
            let mut k: usize = 0;
            while k < nbs.len()
                invariant
                    graph.wf(),
                    g == graph.view(),
                    tt == type_tree@,
                    ci < type_tree.children@.len(),
                    *ct == type_tree.children@[ci as int],
                    nv == derefs(nbs@),
                    k <= nbs@.len(),
                    node_trees_view(children@) == before + nv.take(k as int).map_values(
                        |n: Node| construct_spec(g, ct@, n),
                    ),
                decreases nbs@.len() - k,
            {
                proof {
                    vstd::std_specs::vec::axiom_vec_index_decreases(type_tree.children, ci as int);
                    assert(decreases_to!(*type_tree => type_tree.children));
                }
                let sub = NodeTree::construct(graph, ct, nbs[k]);
                let ghost old_children = node_trees_view(children@);
                children.push(sub);
                assert(node_trees_view(children@) =~= old_children.push(sub@));
                assert(nv.take(k + 1) =~= nv.take(k as int).push(nv[k as int]));
                assert(nv.take(k + 1).map_values(|n: Node| construct_spec(g, ct@, n)) =~= nv.take(
                    k as int,
                ).map_values(|n: Node| construct_spec(g, ct@, n)).push(construct_spec(g, ct@, nv[k as int])));
                k = k + 1;
            }
            assert(nv.take(nv.len() as int) =~= nv);
            ci = ci + 1;
        }
        let r = NodeTree { node, title: type_tree.title.clone(), correlation: type_tree.correlation, children };
        assert(r@.children =~= construct_children(g, tt, *node, tt.children.len()));
        r
    }

    /// The nodes of the tree in pre-order.
    pub fn flatten(&self) -> (r: Vec<&'a Node>)
        ensures
            derefs(r@) == flatten_spec(self@),
        decreases self,
    {
        let ghost t = self@;
        let mut nodes: Vec<&'a Node> = Vec::new();
        nodes.push(self.node);
        assert(derefs(nodes@) =~= flatten_fold(t, 0));
        let mut i: usize = 0;
        while i < self.children.len()
            invariant
                t == self@,
                i <= self.children@.len(),
                derefs(nodes@) == flatten_fold(t, i as nat),
            decreases self.children@.len() - i,
        {
            proof {
                vstd::std_specs::vec::axiom_vec_index_decreases(self.children, i as int);
                assert(decreases_to!(*self => self.children));
            }
            let mut sub = self.children[i].flatten();
            assert(t.children[i as int] == self.children@[i as int]@);
            let ghost before = derefs(nodes@);
            let ghost sv = derefs(sub@);
            nodes.append(&mut sub);
            assert(derefs(nodes@) =~= before + sv);
            i = i + 1;
        }
        nodes
    }
}

/// Whether `key` is left out of the base document of a node labeled
/// `label`: `project_id` is shown on projects only.
pub open spec fn prop_hidden(label: Seq<char>, key: Seq<char>) -> bool {
    key == "project_id"@ && label != "project"@
}

/// The key under which a node's id is written: `analysis_id` for the
/// Analysis category, else the label followed by `_id`.
pub open spec fn identity_key(label: Seq<char>, category: NodeCategory) -> Seq<char> {
    if category == NodeCategory::Analysis {
        "analysis_id"@
    } else {
        label + "_id"@
    }
}

/// The visible declared properties of `node`, each set to its value in
/// `node.props` or to null.
pub open spec fn props_doc(props: Seq<(Seq<char>, PropertyType)>, node: Node) -> DocV
    decreases props.len(),
{
    if props.len() == 0 {
        Seq::empty()
    } else {
        let acc = props_doc(props.drop_last(), node);
        let key = props.last().0;
        if prop_hidden(node.label@, key) {
            acc
        } else {
            kv_insert(
                acc,
                key,
                match kv_get(node.props@, key) {
                    Some(v) => v,
                    None => DocVal::Null,
                },
            )
        }
    }
}

/// The base document of `node`, whose type is `t`.
pub open spec fn base_doc(t: NodeTypeV, node: Node) -> DocV {
    kv_insert(props_doc(t.props, node), identity_key(node.label@, t.category), DocVal::Text(node.id@))
}

/// Every node of the tree has a type in `dm`.
pub open spec fn tree_typed(dm: Datamodel, t: NodeTreeV) -> bool
    decreases t,
{
    &&& dm.type_of(t.node.label@) is Some
    &&& forall|i: int| 0 <= i < t.children.len() ==> tree_typed(dm, #[trigger] t.children[i])
}

/// The document of `t` folded over its first `k` subtrees: the base
/// document, then each subtree's document under its title, appended to a
/// list for `ToMany` and set for `ToOne`.
pub open spec fn denorm_fold(dm: Datamodel, t: NodeTreeV, k: nat) -> DocV
    decreases t, k,
{
    if k == 0 || k > t.children.len() {
        base_doc(dm.type_of(t.node.label@)->Some_0, t.node)
    } else {
        let acc = denorm_fold(dm, t, (k - 1) as nat);
        let c = t.children[k - 1];
        let sub = denorm_fold(dm, c, c.children.len());
        if c.correlation == Correlation::ToMany {
            doc_append(acc, c.title, sub)
        } else {
            kv_insert(acc, c.title, DocVal::Nested(sub))
        }
    }
}

/// The document that `denormalize_tree` produces for `t`.
pub open spec fn denorm(dm: Datamodel, t: NodeTreeV) -> DocV {
    denorm_fold(dm, t, t.children.len())
}

/// A hidden key is never set by the properties of a base document.
proof fn lemma_props_doc_hidden(props: Seq<(Seq<char>, PropertyType)>, node: Node, k: Seq<char>)
    requires
        prop_hidden(node.label@, k),
    ensures
        kv_get(props_doc(props, node), k) is None,
    decreases props.len(),
{
    if props.len() > 0 {
        lemma_props_doc_hidden(props.drop_last(), node, k);
        let acc = props_doc(props.drop_last(), node);
        let key = props.last().0;
        if !prop_hidden(node.label@, key) {
            lemma_insert_get(acc, key, match kv_get(node.props@, key) {
                Some(v) => v,
                None => DocVal::Null,
            }, k);
        }
    }
}

/// The base document holds the node's id under its identity key.
pub proof fn lemma_base_doc_identity(t: NodeTypeV, node: Node)
    ensures
        kv_get(base_doc(t, node), identity_key(node.label@, t.category)) == Some(
            DocVal::Text(node.id@),
        ),
{
    lemma_insert_get(
        props_doc(t.props, node),
        identity_key(node.label@, t.category),
        DocVal::Text(node.id@),
        identity_key(node.label@, t.category),
    );
}

/// A denormalized document holds the root node's id under its identity key,
/// where no subtree of the root is titled with that key.
pub proof fn lemma_denorm_identity(dm: Datamodel, t: NodeTreeV)
    requires
        tree_typed(dm, t),
        forall|i: int|
            0 <= i < t.children.len() ==> #[trigger] t.children[i].title != identity_key(
                t.node.label@,
                dm.type_of(t.node.label@)->Some_0.category,
            ),
    ensures
        kv_get(denorm(dm, t), identity_key(t.node.label@, dm.type_of(t.node.label@)->Some_0.category))
            == Some(DocVal::Text(t.node.id@)),
{
    lemma_denorm_identity_fold(dm, t, t.children.len());
}

proof fn lemma_denorm_identity_fold(dm: Datamodel, t: NodeTreeV, k: nat)
    requires
        tree_typed(dm, t),
        k <= t.children.len(),
        forall|i: int|
            0 <= i < t.children.len() ==> #[trigger] t.children[i].title != identity_key(
                t.node.label@,
                dm.type_of(t.node.label@)->Some_0.category,
            ),
    ensures
        kv_get(denorm_fold(dm, t, k), identity_key(t.node.label@, dm.type_of(t.node.label@)->Some_0.category))
            == Some(DocVal::Text(t.node.id@)),
    decreases k,
{
    let key = identity_key(t.node.label@, dm.type_of(t.node.label@)->Some_0.category);
    if k == 0 {
        lemma_base_doc_identity(dm.type_of(t.node.label@)->Some_0, t.node);
    } else {
        lemma_denorm_identity_fold(dm, t, (k - 1) as nat);
        let acc = denorm_fold(dm, t, (k - 1) as nat);
        let c = t.children[k - 1];
        let sub = denorm_fold(dm, c, c.children.len());
        if c.correlation == Correlation::ToMany {
            match kv_get(acc, c.title) {
                Some(DocVal::List(l)) => {
                    lemma_insert_get(acc, c.title, DocVal::List(l.push(sub)), key);
                },
                _ => {
                    lemma_insert_get(acc, c.title, DocVal::List(seq![sub]), key);
                },
            }
        } else {
            lemma_insert_get(acc, c.title, DocVal::Nested(sub), key);
        }
    }
}

/// `project_id` is in a node's base document exactly when the node is a
/// project (a project whose type is not of the Analysis category).
pub proof fn lemma_base_doc_visibility(t: NodeTypeV, node: Node)
    requires
        node.label@ == "project"@ ==> t.category != NodeCategory::Analysis,
    ensures
        (kv_get(base_doc(t, node), "project_id"@) is Some) <==> node.label@ == "project"@,
{
    let label = node.label@;
    let key = identity_key(label, t.category);
    let pd = props_doc(t.props, node);
    reveal_strlit("project_id");
    reveal_strlit("project");
    reveal_strlit("analysis_id");
    reveal_strlit("_id");
    lemma_insert_get(pd, key, DocVal::Text(node.id@), "project_id"@);
    if label == "project"@ {
        assert(key =~= "project_id"@);
    } else {
        lemma_props_doc_hidden(t.props, node, "project_id"@);
        if t.category == NodeCategory::Analysis {
            assert(key[0] != "project_id"@[0]);
        } else if key == "project_id"@ {
            assert(label =~= key.subrange(0, label.len() as int));
            assert(key.len() == label.len() + 3);
            assert(label.len() == 7);
            assert("project_id"@.subrange(0, 7) =~= "project"@);
            assert(label =~= "project"@);
        }
    }
}

/// Whether `key` is left out of the base document of `node`.
pub fn is_prop_hidden(node: &Node, key: &str) -> (r: bool)
    ensures
        r == prop_hidden(node.label@, key@),
{
    str_eq(key, "project_id") && !str_eq(node.label.as_str(), "project")
}

/// The base document without the identity key: each declared property of
/// the node's type that is not hidden, set to the node's value or null.
pub fn get_base_doc_without_id(options: &Options, node: &Node) -> (r: Doc)
    requires
        options.datamodel.type_of(node.label@) is Some,
    ensures
        r@ == props_doc(options.datamodel.type_of(node.label@)->Some_0.props, *node),
{
    let t = match options.datamodel.get(node.label.as_str()) {
        Some(t) => t,
        None => {
            assert(false);
            return Doc::new();
        },
    };
    let ghost props = t@.props;
    let mut doc = Doc::new();
    let mut i: usize = 0;
    while i < t.props.len()
        invariant
            props == t@.props,
            props == props_view(t.props@),
            i <= t.props@.len(),
            doc@ == props_doc(props.take(i as int), *node),
        decreases t.props@.len() - i,
    {
        let key = &t.props[i].0;
        assert(props.take(i + 1).drop_last() =~= props.take(i as int));
        assert(props.take(i + 1).last().0 == key@);
        if !is_prop_hidden(node, key.as_str()) {
            let value = match node.props.get(key.as_str()) {
                Some(v) => v.copy(),
                None => DocValue::Null,
            };
            doc.insert(key.clone(), value);
        }
        i = i + 1;
    }
    assert(props.take(props.len() as int) =~= props);
    doc
}

/// The base document of a node: its visible properties, then its id under
/// the identity key.
pub fn get_base_doc(options: &Options, node: &Node) -> (r: Doc)
    requires
        options.datamodel.type_of(node.label@) is Some,
    ensures
        r@ == base_doc(options.datamodel.type_of(node.label@)->Some_0, *node),
{
    let t = match options.datamodel.get(node.label.as_str()) {
        Some(t) => t,
        None => {
            assert(false);
            return Doc::new();
        },
    };
    let id_key = if t.category == NodeCategory::Analysis {
        String::from_str("analysis_id")
    } else {
        node.label.clone().concat("_id")
    };
    let mut doc = get_base_doc_without_id(options, node);
    doc.insert(id_key, DocValue::Text(node.id.clone()));
    doc
}

/// The document of a node tree: the base document of its node, with each
/// subtree's document under the subtree's title, collected in a list for
/// `ToMany` subtrees and set for `ToOne` ones.
pub fn denormalize_tree(options: &Options, graph: &CachedGraph, tree: &NodeTree) -> (r: Doc)
    requires
        tree_typed(options.datamodel, tree@),
    ensures
        r@ == denorm(options.datamodel, tree@),
    decreases tree,
{
    let ghost t = tree@;
    let ghost dm = options.datamodel;
    let mut doc = get_base_doc(options, tree.node);
    let mut i: usize = 0;
    while i < tree.children.len()
        invariant
            t == tree@,
            dm == options.datamodel,
            tree_typed(dm, t),
            i <= tree.children@.len(),
            doc@ == denorm_fold(dm, t, i as nat),
        decreases tree.children@.len() - i,
    {
        let c = &tree.children[i];
        assert(t.children[i as int] == c@);
        assert(tree_typed(dm, t.children[i as int]));
        proof {
            vstd::std_specs::vec::axiom_vec_index_decreases(tree.children, i as int);
            assert(decreases_to!(*tree => tree.children));
        }
        let sub = denormalize_tree(options, graph, c);
        match c.correlation {
            Correlation::ToMany => {
                doc.append_to_list(c.title.clone(), sub);
            },
            Correlation::ToOne => {
                doc.insert(c.title.clone(), DocValue::Nested(sub));
            },
        }
        i = i + 1;
    }
    doc
}

} // verus!
