use vstd::prelude::*;
use vstd::string::StringExecFns;
use crate::edge::EdgeType;
use crate::errors::{EBError, EBResult};
use crate::node::{NodeCategory, NodeType, category_of_name};
use crate::text::str_eq;
use crate::graph::{label_in, strings_view};
use crate::assoc::{find_key, kv_get, kv_insert, lemma_find_key, lemma_find_key_prefix, lemma_insert_get};

verus! {

/// The value type of a node property.
#[derive(Clone, Copy, Debug, PartialEq, Eq, Structural)]
pub enum PropertyType {
    Integer,
    Decimal,
    String,
    Boolean,
}

/// The mathematical value of an [`EdgeType`].
pub ghost struct EdgeTypeV {
    pub src_label: Seq<char>,
    pub dst_label: Seq<char>,
    pub label: Seq<char>,
    pub name: Seq<char>,
    pub backref: Seq<char>,
}

/// The mathematical value of a [`NodeType`].
pub ghost struct NodeTypeV {
    pub label: Seq<char>,
    pub props: Seq<(Seq<char>, PropertyType)>,
    pub category: NodeCategory,
    pub links: Seq<EdgeTypeV>,
    pub backrefs: Seq<EdgeTypeV>,
}

impl EdgeType {
    pub open spec fn view(&self) -> EdgeTypeV {
        EdgeTypeV {
            src_label: self.src_label@,
            dst_label: self.dst_label@,
            label: self.label@,
            name: self.name@,
            backref: self.backref@,
        }
    }
}

pub open spec fn edge_types_view(s: Seq<EdgeType>) -> Seq<EdgeTypeV> {
    s.map_values(|e: EdgeType| e@)
}

pub open spec fn props_view(s: Seq<(String, PropertyType)>) -> Seq<(Seq<char>, PropertyType)> {
    s.map_values(|p: (String, PropertyType)| (p.0@, p.1))
}

impl EdgeType {
    /// The backref that mirrors this forward edge type.
    pub fn mirrored(&self) -> (r: EdgeType)
        ensures
            r@ == mirror(self@),
    {
        EdgeType {
            src_label: self.dst_label.clone(),
            dst_label: self.src_label.clone(),
            label: self.label.clone(),
            name: self.backref.clone(),
            backref: self.name.clone(),
        }
    }
}

impl NodeType {
    pub open spec fn view(&self) -> NodeTypeV {
        NodeTypeV {
            label: self.label@,
            props: props_view(self.props@),
            category: self.category,
            links: edge_types_view(self.links@),
            backrefs: edge_types_view(self.backrefs@),
        }
    }
}

/// The node types of a data model, keyed by label.
#[derive(Debug)]
pub struct Datamodel {
    pub node_types: Vec<NodeType>,
}

pub open spec fn node_types_view(s: Seq<NodeType>) -> Seq<NodeTypeV> {
    s.map_values(|t: NodeType| t@)
}

/// Position of the node type labeled `label`, or -1.
pub open spec fn type_pos(types: Seq<NodeTypeV>, label: Seq<char>) -> int
    decreases types.len(),
{
    if types.len() == 0 {
        -1
    } else {
        let i = type_pos(types.drop_last(), label);
        if i >= 0 {
            i
        } else if types.last().label == label {
            types.len() - 1
        } else {
            -1
        }
    }
}

/// `type_pos` finds the first type under `label`.
pub proof fn lemma_type_pos(types: Seq<NodeTypeV>, label: Seq<char>)
    ensures
        -1 <= type_pos(types, label) < types.len(),
        type_pos(types, label) >= 0 ==> types[type_pos(types, label)].label == label,
        forall|j: int|
            0 <= j < types.len() && (type_pos(types, label) < 0 || j < type_pos(types, label))
                ==> types[j].label != label,
    decreases types.len(),
{
    if types.len() > 0 {
        let p = types.drop_last();
        lemma_type_pos(p, label);
        assert forall|j: int|
            0 <= j < types.len() && (type_pos(types, label) < 0 || j < type_pos(types, label))
            implies types[j].label != label by {
            if j < types.len() - 1 {
                assert(types[j] == p[j]);
            }
        }
    }
}

impl Datamodel {
    pub open spec fn view(&self) -> Seq<NodeTypeV> {
        node_types_view(self.node_types@)
    }

    /// Labels appear once each and every link joins two node types.
    pub open spec fn wf(&self) -> bool {
        labels_unique(self@) && links_resolve(self@)
    }

    /// The node type labeled `label`.
    pub open spec fn type_of(&self, label: Seq<char>) -> Option<NodeTypeV> {
        let i = type_pos(self@, label);
        if i >= 0 {
            Some(self@[i])
        } else {
            None
        }
    }

    /// The data model of the given node types: labels must appear once each
    /// and every link must point to one of the types. Each type then
    /// receives, after its own backrefs, the mirror of every link that
    /// points to it.
    pub fn from_node_types(types: Vec<NodeType>) -> (r: EBResult<Datamodel>)
        ensures
            match r {
                Ok(dm) => model_of(node_types_view(types@)) == Some(dm@) && dm.wf(),
                Err(e) => model_of(node_types_view(types@)) is None && e is BuildError,
            },
    {
        let ghost ts = node_types_view(types@);
        let mut dm = Datamodel { node_types: types };
        let n = dm.node_types.len();
        let mut i: usize = 0;
        while i < n
            invariant
                ts == dm@,
                ts == node_types_view(types@),
                n == ts.len(),
                i <= n,
                forall|x: int, y: int| 0 <= x < y < i ==> ts[x].label != ts[y].label,
            decreases n - i,
        {
            let mut j: usize = 0;
            while j < i
                invariant
                    ts == dm@,
                    ts == node_types_view(types@),
                    n == ts.len(),
                    i < n,
                    j <= i,
                    forall|x: int, y: int| 0 <= x < y < i ==> ts[x].label != ts[y].label,
                    forall|x: int| 0 <= x < j ==> ts[x].label != ts[i as int].label,
                decreases i - j,
            {
                assert(ts[j as int].label == dm.node_types@[j as int].label@);
                assert(ts[i as int].label == dm.node_types@[i as int].label@);
                if str_eq(dm.node_types[j].label.as_str(), dm.node_types[i].label.as_str()) {
                    assert(!labels_unique(ts));
                    return Err(
                        EBError::BuildError(
                            String::from_str("duplicate node type: ").concat(
                                dm.node_types[i].label.as_str(),
                            ),
                        ),
                    );
                }
                j = j + 1;
            }
            i = i + 1;
        }
        let mut a: usize = 0;
        while a < n
            invariant
                ts == dm@,
                ts == node_types_view(types@),
                n == ts.len(),
                a <= n,
                labels_unique(ts),
                forall|x: int, k: int|
                    0 <= x < a && 0 <= k < ts[x].links.len() ==> link_resolves(
                        ts,
                        #[trigger] ts[x].links[k],
                    ),
            decreases n - a,
        {
            let nl = dm.node_types[a].links.len();
            let mut k: usize = 0;
            while k < nl
                invariant
                    ts == dm@,
                    ts == node_types_view(types@),
                    n == ts.len(),
                    a < n,
                    nl == ts[a as int].links.len(),
                    k <= nl,
                    labels_unique(ts),
                    forall|x: int, k2: int|
                        0 <= x < a && 0 <= k2 < ts[x].links.len() ==> link_resolves(
                            ts,
                            #[trigger] ts[x].links[k2],
                        ),
                    forall|k2: int|
                        0 <= k2 < k ==> link_resolves(ts, #[trigger] ts[a as int].links[k2]),
                decreases nl - k,
            {
                assert(ts[a as int].links[k as int] == dm.node_types@[a as int].links@[k as int]@);
                if dm.get(dm.node_types[a].links[k].src_label.as_str()).is_none() {
                    assert(!link_resolves(ts, ts[a as int].links[k as int]));
                    assert(!links_resolve(ts));
                    return Err(
                        EBError::BuildError(
                            String::from_str("link from unknown node type: ").concat(
                                dm.node_types[a].links[k].src_label.as_str(),
                            ),
                        ),
                    );
                }
                if dm.get(dm.node_types[a].links[k].dst_label.as_str()).is_none() {
                    assert(!link_resolves(ts, ts[a as int].links[k as int]));
                    assert(!links_resolve(ts));
                    return Err(
                        EBError::BuildError(
                            String::from_str("link to unknown node type: ").concat(
                                dm.node_types[a].links[k].dst_label.as_str(),
                            ),
                        ),
                    );
                }
                k = k + 1;
            }
            a = a + 1;
        }
        assert(links_resolve(ts));
        let mut extras: Vec<Vec<EdgeType>> = Vec::new();
        let mut b: usize = 0;
        while b < n
            invariant
                ts == dm@,
                ts == node_types_view(types@),
                labels_unique(ts),
                links_resolve(ts),
                n == ts.len(),
                b <= n,
                extras@.len() == b,
                forall|x: int|
                    0 <= x < b ==> edge_types_view(#[trigger] extras@[x]@) == backrefs_for(
                        ts,
                        ts[x].label,
                    ),
            decreases n - b,
        {
            let ghost bl = ts[b as int].label;
            let mut extra: Vec<EdgeType> = Vec::new();
            let mut a2: usize = 0;
            assert(ts.take(0) =~= Seq::<NodeTypeV>::empty());
            assert(edge_types_view(extra@) =~= Seq::empty());
            while a2 < n
                invariant
                    ts == dm@,
                    n == ts.len(),
                    b < n,
                    bl == ts[b as int].label,
                    a2 <= n,
                    edge_types_view(extra@) == backrefs_for(ts.take(a2 as int), bl),
                decreases n - a2,
            {
                let ghost links = ts[a2 as int].links;
                let ghost before = edge_types_view(extra@);
                let nl = dm.node_types[a2].links.len();
                let mut k: usize = 0;
                assert(links.take(0) =~= Seq::<EdgeTypeV>::empty());
                assert(before + mirrored_toward(links.take(0), bl) =~= before);
                while k < nl
                    invariant
                        ts == dm@,
                        n == ts.len(),
                        b < n,
                        a2 < n,
                        bl == ts[b as int].label,
                        links == ts[a2 as int].links,
                        nl == links.len(),
                        k <= nl,
                        edge_types_view(extra@) == before + mirrored_toward(links.take(k as int), bl),
                    decreases nl - k,
                {
                    let l = &dm.node_types[a2].links[k];
                    assert(links[k as int] == l@);
                    assert(links.take(k + 1).drop_last() =~= links.take(k as int));
                    assert(links.take(k + 1).last() == l@);
                    assert(bl == dm.node_types@[b as int].label@);
                    if str_eq(l.dst_label.as_str(), dm.node_types[b].label.as_str()) {
                        let m = l.mirrored();
                        let ghost e0 = edge_types_view(extra@);
                        extra.push(m);
                        assert(edge_types_view(extra@) =~= e0.push(mirror(l@)));
                        assert(before + mirrored_toward(links.take(k + 1), bl) =~= (before
                            + mirrored_toward(links.take(k as int), bl)).push(mirror(l@)));
                    }
                    k = k + 1;
                }
                assert(links.take(nl as int) =~= links);
                assert(ts.take(a2 + 1).drop_last() =~= ts.take(a2 as int));
                assert(ts.take(a2 + 1).last() == ts[a2 as int]);
                a2 = a2 + 1;
            }
            assert(ts.take(n as int) =~= ts);
            extras.push(extra);
            b = b + 1;
        }
        let mut b2: usize = 0;
        while b2 < n
            invariant
                ts == node_types_view(types@),
                n == ts.len(),
                n == dm.node_types@.len(),
                n == extras@.len(),
                labels_unique(ts),
                links_resolve(ts),
                b2 <= n,
                forall|x: int| 0 <= x < b2 ==> #[trigger] dm@[x] == with_backrefs(ts)[x],
                forall|x: int| b2 <= x < n ==> #[trigger] dm@[x] == ts[x],
                forall|x: int|
                    b2 <= x < n ==> edge_types_view(#[trigger] extras@[x]@) == backrefs_for(
                        ts,
                        ts[x].label,
                    ),
            decreases n - b2,
        {
            let mut t = NodeType {
                label: String::new(),
                props: Vec::new(),
                category: NodeCategory::Other,
                links: Vec::new(),
                backrefs: Vec::new(),
            };
            let ghost nt0 = dm.node_types@;
            let ghost d0 = dm@;
            assert(dm@[b2 as int] == ts[b2 as int]);
            dm.node_types.set_and_swap(b2, &mut t);
            let mut extra: Vec<EdgeType> = Vec::new();
            extras.set_and_swap(b2, &mut extra);
            let ghost tv = t@;
            let ghost ev = edge_types_view(extra@);
            assert(tv == ts[b2 as int]);
            t.backrefs.append(&mut extra);
            assert(t@.backrefs =~= tv.backrefs + ev);
            assert(t@ == with_backrefs(ts)[b2 as int]);
            dm.node_types.set_and_swap(b2, &mut t);
            assert(dm@[b2 as int] == with_backrefs(ts)[b2 as int]);
            assert forall|x: int| 0 <= x < n && x != b2 implies #[trigger] dm@[x] == d0[x] by {
                assert(dm.node_types@[x] == nt0[x]);
                assert(dm@[x] == dm.node_types@[x]@);
                assert(d0[x] == nt0[x]@);
            }
            assert forall|x: int| 0 <= x < b2 + 1 implies #[trigger] dm@[x] == with_backrefs(ts)[x] by {
                if x < b2 {
                    assert(dm@[x] == d0[x]);
                }
            }
            assert forall|x: int| b2 + 1 <= x < n implies #[trigger] dm@[x] == ts[x] by {
                assert(dm@[x] == d0[x]);
            }
            b2 = b2 + 1;
        }
        assert(dm@ =~= with_backrefs(ts));
        proof {
            lemma_model_well_formed(ts);
        }
        Ok(dm)
    }

    /// The node type labeled `label`.
    pub fn get(&self, label: &str) -> (r: Option<&NodeType>)
        ensures
            match r {
                Some(t) => self.type_of(label@) == Some(t@),
                None => self.type_of(label@) is None,
            },
    {
        let ghost v = self@;
        let mut i: usize = 0;
        while i < self.node_types.len()
            invariant
                v == self@,
                i <= self.node_types@.len(),
                type_pos(v.take(i as int), label@) == -1,
            decreases self.node_types@.len() - i,
        {
            assert(v.take(i + 1).drop_last() =~= v.take(i as int));
            if str_eq(self.node_types[i].label.as_str(), label) {
                assert(type_pos(v.take(i + 1), label@) == i);
                proof {
                    lemma_type_pos_prefix(v, i + 1, label@);
                }
                return Some(&self.node_types[i]);
            }
            i = i + 1;
        }
        assert(v.take(v.len() as int) =~= v);
        None
    }
}

/// A first match stays the first match when types are appended.
proof fn lemma_type_pos_prefix(types: Seq<NodeTypeV>, n: int, label: Seq<char>)
    requires
        0 <= n <= types.len(),
        type_pos(types.take(n), label) >= 0,
    ensures
        type_pos(types, label) == type_pos(types.take(n), label),
    decreases types.len() - n,
{
    if n < types.len() {
        assert(types.take(n + 1).drop_last() =~= types.take(n));
        lemma_type_pos_prefix(types, n + 1, label);
    } else {
        assert(types.take(n) =~= types);
    }
}

/// The property type that a lower-case schema type string names.
pub open spec fn property_type_of(t: Seq<char>) -> Option<PropertyType> {
    if t == "bool"@ || t == "boolean"@ {
        Some(PropertyType::Boolean)
    } else if t == "datetime"@ || t == "enum"@ || t == "string"@ {
        Some(PropertyType::String)
    } else if t == "float"@ || t == "integer"@ || t == "number"@ {
        Some(PropertyType::Decimal)
    } else {
        None
    }
}

/// The lower-case form of `s`, as std's `str::to_lowercase` gives it.
pub uninterp spec fn lower_of(s: Seq<char>) -> Seq<char>;

/// Relies on std's `str::to_lowercase`: the result depends on the
/// characters alone.
#[verifier::external_body]
fn to_lowercase(s: &str) -> (r: String)
    ensures
        r@ == lower_of(s@),
{
    s.to_lowercase()
}

impl PropertyType {
    /// The property type that a lower-case schema type string names;
    /// `datetime` and `enum` are strings. Any other string fails.
    pub fn parse_lowered(lowered: &str) -> (r: EBResult<PropertyType>)
        ensures
            match r {
                Ok(p) => property_type_of(lowered@) == Some(p),
                Err(e) => property_type_of(lowered@) is None && e is BuildError,
            },
    {
        if str_eq(lowered, "bool") || str_eq(lowered, "boolean") {
            Ok(PropertyType::Boolean)
        } else if str_eq(lowered, "datetime") || str_eq(lowered, "enum") || str_eq(
            lowered,
            "string",
        ) {
            Ok(PropertyType::String)
        } else if str_eq(lowered, "float") || str_eq(lowered, "integer") || str_eq(
            lowered,
            "number",
        ) {
            Ok(PropertyType::Decimal)
        } else {
            Err(EBError::BuildError(String::from_str("unknown type: ").concat(lowered)))
        }
    }

    /// The property type that a schema type string names, case-insensitively.
    pub fn parse(type_str: &str) -> (r: EBResult<PropertyType>)
        ensures
            match r {
                Ok(p) => property_type_of(lower_of(type_str@)) == Some(p),
                Err(e) => property_type_of(lower_of(type_str@)) is None && e is BuildError,
            },
    {
        let lowered = to_lowercase(type_str);
        PropertyType::parse_lowered(lowered.as_str())
    }
}

/// `datetime` and `enum` both name the string type; a type string outside
/// the known ones names none, and fails the build.
pub proof fn lemma_property_type_strings(t: Seq<char>)
    ensures
        property_type_of("datetime"@) == Some(PropertyType::String),
        property_type_of("enum"@) == Some(PropertyType::String),
        t != "bool"@ && t != "boolean"@ && t != "datetime"@ && t != "enum"@ && t != "string"@ && t
            != "float"@ && t != "integer"@ && t != "number"@ ==> property_type_of(t) is None,
{
    reveal_strlit("bool");
    reveal_strlit("boolean");
    reveal_strlit("datetime");
    reveal_strlit("enum");
    assert("datetime"@[0] != "bool"@[0]);
    assert("datetime"@[0] != "boolean"@[0]);
    assert("enum"@[0] != "bool"@[0]);
    assert("enum"@[0] != "boolean"@[0]);
}

/// Node type labels appear once each.
pub open spec fn labels_unique(ts: Seq<NodeTypeV>) -> bool {
    forall|i: int, j: int| 0 <= i < j < ts.len() ==> ts[i].label != ts[j].label
}

/// The source and the destination of every link are node types.
pub open spec fn links_resolve(ts: Seq<NodeTypeV>) -> bool {
    forall|a: int, k: int|
        0 <= a < ts.len() && 0 <= k < ts[a].links.len() ==> link_resolves(ts, #[trigger] ts[a].links[k])
}

/// Both ends of `l` are node types of `ts`.
pub open spec fn link_resolves(ts: Seq<NodeTypeV>, l: EdgeTypeV) -> bool {
    type_pos(ts, l.src_label) >= 0 && type_pos(ts, l.dst_label) >= 0
}

/// The backref that mirrors a forward edge type.
pub open spec fn mirror(l: EdgeTypeV) -> EdgeTypeV {
    EdgeTypeV {
        src_label: l.dst_label,
        dst_label: l.src_label,
        label: l.label,
        name: l.backref,
        backref: l.name,
    }
}

/// The mirrors of the links of `links` that point to `b`, in order.
pub open spec fn mirrored_toward(links: Seq<EdgeTypeV>, b: Seq<char>) -> Seq<EdgeTypeV>
    decreases links.len(),
{
    if links.len() == 0 {
        Seq::empty()
    } else if links.last().dst_label == b {
        mirrored_toward(links.drop_last(), b).push(mirror(links.last()))
    } else {
        mirrored_toward(links.drop_last(), b)
    }
}

/// The backrefs that node type `b` receives from the links of `ts`, in
/// type order, then link order.
pub open spec fn backrefs_for(ts: Seq<NodeTypeV>, b: Seq<char>) -> Seq<EdgeTypeV>
    decreases ts.len(),
{
    if ts.len() == 0 {
        Seq::empty()
    } else {
        backrefs_for(ts.drop_last(), b) + mirrored_toward(ts.last().links, b)
    }
}

/// The node types of `ts`, each with the backrefs it receives appended.
pub open spec fn with_backrefs(ts: Seq<NodeTypeV>) -> Seq<NodeTypeV> {
    ts.map_values(
        |t: NodeTypeV| NodeTypeV { backrefs: t.backrefs + backrefs_for(ts, t.label), ..t },
    )
}

/// The node types that the resolved schemas describe, in order.
pub open spec fn node_types_spec(ss: Seq<SchemaV>) -> Option<Seq<NodeTypeV>>
    decreases ss.len(),
{
    if ss.len() == 0 {
        Some(Seq::empty())
    } else {
        match (node_types_spec(ss.drop_last()), node_type_spec(ss.last())) {
            (Some(acc), Some(t)) => Some(acc.push(t)),
            _ => None,
        }
    }
}

/// The data model that `Datamodel::from_node_types` builds from `ts`.
pub open spec fn model_of(ts: Seq<NodeTypeV>) -> Option<Seq<NodeTypeV>> {
    if labels_unique(ts) && links_resolve(ts) {
        Some(with_backrefs(ts))
    } else {
        None
    }
}

proof fn lemma_mirrored_toward_contains(links: Seq<EdgeTypeV>, b: Seq<char>, k: int)
    requires
        0 <= k < links.len(),
        links[k].dst_label == b,
    ensures
        mirrored_toward(links, b).contains(mirror(links[k])),
    decreases links.len(),
{
    if k < links.len() - 1 {
        assert(links.drop_last()[k] == links[k]);
        lemma_mirrored_toward_contains(links.drop_last(), b, k);
        let m = mirrored_toward(links.drop_last(), b);
        let x = choose|x: int| 0 <= x < m.len() && m[x] == mirror(links[k]);
        if links.last().dst_label == b {
            assert(m.push(mirror(links.last()))[x] == m[x]);
        }
    } else {
        assert(mirrored_toward(links, b).last() == mirror(links[k]));
    }
}

proof fn lemma_backrefs_for_contains(ts: Seq<NodeTypeV>, b: Seq<char>, a: int, k: int)
    requires
        0 <= a < ts.len(),
        0 <= k < ts[a].links.len(),
        ts[a].links[k].dst_label == b,
    ensures
        backrefs_for(ts, b).contains(mirror(ts[a].links[k])),
    decreases ts.len(),
{
    let p = backrefs_for(ts.drop_last(), b);
    let q = mirrored_toward(ts.last().links, b);
    if a < ts.len() - 1 {
        assert(ts.drop_last()[a] == ts[a]);
        lemma_backrefs_for_contains(ts.drop_last(), b, a, k);
        let x = choose|x: int| 0 <= x < p.len() && p[x] == mirror(ts[a].links[k]);
        assert((p + q)[x] == p[x]);
    } else {
        lemma_mirrored_toward_contains(ts.last().links, b, k);
        let x = choose|x: int| 0 <= x < q.len() && q[x] == mirror(ts[a].links[k]);
        assert((p + q)[p.len() + x] == q[x]);
    }
}

/// Positions by label agree between two sequences of node types whose
/// labels agree.
proof fn lemma_type_pos_same_labels(ts: Seq<NodeTypeV>, us: Seq<NodeTypeV>, label: Seq<char>)
    requires
        ts.len() == us.len(),
        forall|i: int| 0 <= i < ts.len() ==> #[trigger] ts[i].label == us[i].label,
    ensures
        type_pos(ts, label) == type_pos(us, label),
    decreases ts.len(),
{
    if ts.len() > 0 {
        assert forall|i: int| 0 <= i < ts.len() - 1 implies #[trigger] ts.drop_last()[i].label
            == us.drop_last()[i].label by {
            assert(ts.drop_last()[i] == ts[i]);
            assert(us.drop_last()[i] == us[i]);
        }
        lemma_type_pos_same_labels(ts.drop_last(), us.drop_last(), label);
    }
}

/// A built data model keeps its labels unique and its links resolving.
pub proof fn lemma_model_well_formed(ts: Seq<NodeTypeV>)
    requires
        model_of(ts) is Some,
    ensures
        labels_unique(model_of(ts)->Some_0),
        links_resolve(model_of(ts)->Some_0),
{
    let m = with_backrefs(ts);
    assert forall|i: int| 0 <= i < ts.len() implies #[trigger] ts[i].label == m[i].label by {}
    assert forall|a: int, k: int| 0 <= a < m.len() && 0 <= k < m[a].links.len() implies link_resolves(
        m,
        #[trigger] m[a].links[k],
    ) by {
        assert(m[a].links[k] == ts[a].links[k]);
        assert(link_resolves(ts, ts[a].links[k]));
        lemma_type_pos_same_labels(ts, m, ts[a].links[k].src_label);
        lemma_type_pos_same_labels(ts, m, ts[a].links[k].dst_label);
    }
    assert forall|i: int, j: int| 0 <= i < j < m.len() implies m[i].label != m[j].label by {
        assert(m[i].label == ts[i].label);
        assert(m[j].label == ts[j].label);
    }
}

/// Backref symmetry: for each forward edge type `(A, B, n, b, l)` of the
/// data model, node type `B` carries the backref `(B, A, b, n, l)`.
pub proof fn lemma_backref_symmetry(ts: Seq<NodeTypeV>, a: int, k: int)
    requires
        model_of(ts) is Some,
        0 <= a < ts.len(),
        0 <= k < ts[a].links.len(),
    ensures
        ({
            let m = model_of(ts)->Some_0;
            let l = m[a].links[k];
            let b = type_pos(m, l.dst_label);
            &&& b >= 0
            &&& m[b].label == l.dst_label
            &&& m[b].backrefs.contains(mirror(l))
        }),
{
    let m = with_backrefs(ts);
    let l = ts[a].links[k];
    assert(m[a].links[k] == l);
    let bl = l.dst_label;
    let b = type_pos(ts, bl);
    assert(link_resolves(ts, ts[a].links[k]));
    assert(b >= 0);
    lemma_type_pos(ts, bl);
    assert forall|i: int| 0 <= i < m.len() implies #[trigger] m[i].label == ts[i].label by {}
    lemma_type_pos(m, bl);
    assert(type_pos(m, bl) == b) by {
        let c = type_pos(m, bl);
        if c < 0 {
            assert(m[b].label == bl);
        } else if c < b {
            assert(ts[c].label != bl);
        } else if b < c {
            assert(m[b].label == bl);
        }
    }
    lemma_backrefs_for_contains(ts, bl, a, k);
    let br = backrefs_for(ts, bl);
    let x = choose|x: int| 0 <= x < br.len() && br[x] == mirror(l);
    assert(m[b].backrefs == ts[b].backrefs + br);
    assert(m[b].backrefs[ts[b].backrefs.len() + x] == mirror(l));
}

/// A node of a resolved schema: a key, an optional scalar value, and
/// ordered children.
#[derive(Debug)]
pub struct SchemaNode {
    pub key: String,
    pub value: Option<String>,
    pub children: Vec<SchemaNode>,
}

/// The mathematical value of a [`SchemaNode`].
#[verifier::ext_equal]
pub ghost struct SchemaV {
    pub key: Seq<char>,
    pub value: Option<Seq<char>>,
    pub children: Seq<SchemaV>,
}

pub open spec fn opt_view(o: Option<String>) -> Option<Seq<char>> {
    match o {
        Some(s) => Some(s@),
        None => None,
    }
}

/// The children of a schema node, each under its key.
pub open spec fn child_entries(cs: Seq<SchemaV>) -> Seq<(Seq<char>, SchemaV)> {
    cs.map_values(|c: SchemaV| (c.key, c))
}

impl SchemaV {
    /// The first child under `key`.
    pub open spec fn child(self, key: Seq<char>) -> Option<SchemaV> {
        kv_get(child_entries(self.children), key)
    }

    /// The value of the first child under `key`.
    pub open spec fn kv(self, key: Seq<char>) -> Option<Seq<char>> {
        match self.child(key) {
            Some(c) => c.value,
            None => None,
        }
    }
}

pub open spec fn schemas_view(s: Seq<SchemaNode>) -> Seq<SchemaV> {
    s.map_values(|c: SchemaNode| c@)
}

/// The edge type that a leaf link entry describes, from `src`.
pub open spec fn edge_type_spec(s: SchemaV, src: Seq<char>) -> Option<EdgeTypeV> {
    match (s.kv("target_type"@), s.kv("backref"@), s.kv("name"@), s.kv("label"@)) {
        (Some(dst), Some(backref), Some(name), Some(label)) => Some(
            EdgeTypeV { src_label: src, dst_label: dst, label, name, backref },
        ),
        _ => None,
    }
}

/// The edge types of a sequence of leaf links, in order.
pub open spec fn links_types(ls: Seq<SchemaV>, src: Seq<char>) -> Option<Seq<EdgeTypeV>>
    decreases ls.len(),
{
    if ls.len() == 0 {
        Some(Seq::empty())
    } else {
        match (links_types(ls.drop_last(), src), edge_type_spec(ls.last(), src)) {
            (Some(acc), Some(t)) => Some(acc.push(t)),
            _ => None,
        }
    }
}

/// The edge types of one entry of `links`: a subgroup's leaf links, or the
/// entry itself as a leaf link.
pub open spec fn entry_types(e: SchemaV, src: Seq<char>) -> Option<Seq<EdgeTypeV>> {
    match e.child("subgroup"@) {
        Some(sg) => links_types(sg.children, src),
        None => match edge_type_spec(e, src) {
            Some(t) => Some(seq![t]),
            None => None,
        },
    }
}

/// The edge types of the entries of `links`, flattened in order.
pub open spec fn entries_types(es: Seq<SchemaV>, src: Seq<char>) -> Option<Seq<EdgeTypeV>>
    decreases es.len(),
{
    if es.len() == 0 {
        Some(Seq::empty())
    } else {
        match (entries_types(es.drop_last(), src), entry_types(es.last(), src)) {
            (Some(acc), Some(ts)) => Some(acc + ts),
            _ => None,
        }
    }
}

/// The forward edge types that a schema declares, from `src`.
pub open spec fn edge_types_spec(s: SchemaV, src: Seq<char>) -> Option<Seq<EdgeTypeV>> {
    match s.child("links"@) {
        None => Some(Seq::empty()),
        Some(l) => entries_types(l.children, src),
    }
}

/// The type of a property: the one its `type` string names, or String when
/// it gives none.
pub open spec fn prop_type_spec(p: SchemaV) -> Option<PropertyType> {
    match p.kv("type"@) {
        Some(t) => property_type_of(lower_of(t)),
        None => Some(PropertyType::String),
    }
}

/// The types of the properties `ps` whose names are not among `names`.
pub open spec fn props_fold(ps: Seq<SchemaV>, names: Seq<Seq<char>>) -> Option<
    Seq<(Seq<char>, PropertyType)>,
>
    decreases ps.len(),
{
    if ps.len() == 0 {
        Some(Seq::empty())
    } else {
        match props_fold(ps.drop_last(), names) {
            None => None,
            Some(acc) => {
                let p = ps.last();
                if names.contains(p.key) {
                    Some(acc)
                } else {
                    match prop_type_spec(p) {
                        None => None,
                        Some(t) => Some(kv_insert(acc, p.key, t)),
                    }
                }
            },
        }
    }
}

/// The names of edge types.
pub open spec fn link_names(links: Seq<EdgeTypeV>) -> Seq<Seq<char>> {
    links.map_values(|l: EdgeTypeV| l.name)
}

/// The property types that a schema declares, leaving out link names.
pub open spec fn node_properties_spec(s: SchemaV, links: Seq<EdgeTypeV>) -> Option<
    Seq<(Seq<char>, PropertyType)>,
> {
    match s.child("properties"@) {
        None => None,
        Some(pn) => props_fold(pn.children, link_names(links)),
    }
}

/// The node type that a resolved schema describes, before backrefs are
/// attached.
pub open spec fn node_type_spec(s: SchemaV) -> Option<NodeTypeV> {
    match (s.kv("id"@), s.kv("category"@)) {
        (Some(label), Some(category)) => match edge_types_spec(s, label) {
            None => None,
            Some(links) => match node_properties_spec(s, links) {
                None => None,
                Some(props) => Some(
                    NodeTypeV {
                        label,
                        props,
                        category: category_of_name(category),
                        links,
                        backrefs: Seq::empty(),
                    },
                ),
            },
        },
        _ => None,
    }
}

/// Once a prefix of the schemas fails, the whole fails.
pub proof fn lemma_node_types_prefix(ss: Seq<SchemaV>, n: int)
    requires
        0 <= n <= ss.len(),
        node_types_spec(ss.take(n)) is None,
    ensures
        node_types_spec(ss) is None,
    decreases ss.len() - n,
{
    if n < ss.len() {
        assert(ss.take(n + 1).drop_last() =~= ss.take(n));
        lemma_node_types_prefix(ss, n + 1);
    } else {
        assert(ss.take(n) =~= ss);
    }
}

/// Once a prefix of the links fails, the whole fails.
proof fn lemma_links_types_prefix(ls: Seq<SchemaV>, src: Seq<char>, n: int)
    requires
        0 <= n <= ls.len(),
        links_types(ls.take(n), src) is None,
    ensures
        links_types(ls, src) is None,
    decreases ls.len() - n,
{
    if n < ls.len() {
        assert(ls.take(n + 1).drop_last() =~= ls.take(n));
        lemma_links_types_prefix(ls, src, n + 1);
    } else {
        assert(ls.take(n) =~= ls);
    }
}

/// Once a prefix of the entries fails, the whole fails.
proof fn lemma_entries_types_prefix(es: Seq<SchemaV>, src: Seq<char>, n: int)
    requires
        0 <= n <= es.len(),
        entries_types(es.take(n), src) is None,
    ensures
        entries_types(es, src) is None,
    decreases es.len() - n,
{
    if n < es.len() {
        assert(es.take(n + 1).drop_last() =~= es.take(n));
        lemma_entries_types_prefix(es, src, n + 1);
    } else {
        assert(es.take(n) =~= es);
    }
}

/// Once a prefix of the properties fails, the whole fails.
proof fn lemma_props_fold_prefix(ps: Seq<SchemaV>, names: Seq<Seq<char>>, n: int)
    requires
        0 <= n <= ps.len(),
        props_fold(ps.take(n), names) is None,
    ensures
        props_fold(ps, names) is None,
    decreases ps.len() - n,
{
    if n < ps.len() {
        assert(ps.take(n + 1).drop_last() =~= ps.take(n));
        lemma_props_fold_prefix(ps, names, n + 1);
    } else {
        assert(ps.take(n) =~= ps);
    }
}

/// Every declared property whose name is not a link name gets a type.
pub proof fn lemma_property_totality(ps: Seq<SchemaV>, names: Seq<Seq<char>>, i: int)
    requires
        props_fold(ps, names) is Some,
        0 <= i < ps.len(),
        !names.contains(ps[i].key),
    ensures
        kv_get(props_fold(ps, names)->Some_0, ps[i].key) is Some,
    decreases ps.len(),
{
    let p = ps.last();
    let acc = props_fold(ps.drop_last(), names)->Some_0;
    if i < ps.len() - 1 {
        assert(ps.drop_last()[i] == ps[i]);
        lemma_property_totality(ps.drop_last(), names, i);
        if !names.contains(p.key) {
            lemma_insert_get(acc, p.key, prop_type_spec(p)->Some_0, ps[i].key);
        }
    } else {
        lemma_insert_get(acc, p.key, prop_type_spec(p)->Some_0, p.key);
    }
}

/// Every property that a schema declares, other than those named like one
/// of its links, gets a type in the node type built from it.
pub proof fn lemma_node_type_props_total(s: SchemaV, i: int)
    requires
        node_type_spec(s) is Some,
        s.child("properties"@) is Some,
        0 <= i < s.child("properties"@)->Some_0.children.len(),
        !link_names(node_type_spec(s)->Some_0.links).contains(
            s.child("properties"@)->Some_0.children[i].key,
        ),
    ensures
        kv_get(
            node_type_spec(s)->Some_0.props,
            s.child("properties"@)->Some_0.children[i].key,
        ) is Some,
{
    let pn = s.child("properties"@)->Some_0;
    lemma_property_totality(pn.children, link_names(node_type_spec(s)->Some_0.links), i);
}

/// Set `key` to `t` in a list of property types, in place if the name is
/// there, else at the end.
fn insert_prop(v: &mut Vec<(String, PropertyType)>, key: String, t: PropertyType)
    ensures
        props_view(final(v)@) == kv_insert(props_view(old(v)@), key@, t),
{
    let ghost d = props_view(v@);
    let mut i: usize = 0;
    while i < v.len()
        invariant
            d == props_view(v@),
            v@ == old(v)@,
            i <= v@.len(),
            find_key(d.take(i as int), key@) == -1,
        decreases v@.len() - i,
    {
        assert(d.take(i + 1).drop_last() =~= d.take(i as int));
        assert(d[i as int] == (v@[i as int].0@, v@[i as int].1));
        if str_eq(v[i].0.as_str(), key.as_str()) {
            assert(find_key(d.take(i + 1), key@) == i);
            proof {
                lemma_find_key_prefix(d, i + 1, key@);
            }
            let ghost kv = key@;
            v.set(i, (key, t));
            assert(props_view(v@) =~= kv_insert(d, kv, t));
            return;
        }
        i = i + 1;
    }
    assert(d.take(d.len() as int) =~= d);
    let ghost kv = key@;
    v.push((key, t));
    assert(props_view(v@) =~= kv_insert(d, kv, t));
}

/// The names of the given edge types.
fn names_of(links: &Vec<EdgeType>) -> (r: Vec<String>)
    ensures
        strings_view(r@) == link_names(edge_types_view(links@)),
{
    let mut names: Vec<String> = Vec::new();
    let mut i: usize = 0;
    while i < links.len()
        invariant
            i <= links@.len(),
            strings_view(names@) =~= link_names(edge_types_view(links@)).take(i as int),
        decreases links@.len() - i,
    {
        let ghost before = strings_view(names@);
        names.push(links[i].name.clone());
        assert(strings_view(names@) =~= before.push(links@[i as int].name@));
        assert(link_names(edge_types_view(links@))[i as int] == links@[i as int].name@);
        assert(link_names(edge_types_view(links@)).take(i + 1) =~= link_names(
            edge_types_view(links@),
        ).take(i as int).push(links@[i as int].name@));
        i = i + 1;
    }
    assert(link_names(edge_types_view(links@)).take(links@.len() as int) =~= link_names(
        edge_types_view(links@),
    ));
    names
}

impl SchemaNode {
    pub open spec fn view(&self) -> SchemaV
        decreases self,
    {
        SchemaV {
            key: self.key@,
            value: opt_view(self.value),
            children: Seq::new(
                self.children@.len(),
                |i: int|
                    if 0 <= i < self.children@.len() {
                        self.children@[i].view()
                    } else {
                        arbitrary()
                    },
            ),
        }
    }

    /// A schema node with no value and no children.
    pub fn new(key: String) -> (r: SchemaNode)
        ensures
            r@ == (SchemaV { key: key@, value: None, children: Seq::empty() }),
    {
        let r = SchemaNode { key, value: None, children: Vec::new() };
        assert(r@.children =~= Seq::<SchemaV>::empty());
        r
    }

    /// The first child under `key`.
    pub fn get(&self, key: &str) -> (r: Option<&SchemaNode>)
        ensures
            match r {
                Some(c) => self@.child(key@) == Some(c@),
                None => self@.child(key@) is None,
            },
    {
        let ghost d = child_entries(self@.children);
        let mut i: usize = 0;
        while i < self.children.len()
            invariant
                d == child_entries(self@.children),
                d.len() == self.children@.len(),
                i <= self.children@.len(),
                find_key(d.take(i as int), key@) == -1,
            decreases self.children@.len() - i,
        {
            assert(d.take(i + 1).drop_last() =~= d.take(i as int));
            assert(d[i as int] == (self.children@[i as int]@.key, self.children@[i as int]@));
            if str_eq(self.children[i].key.as_str(), key) {
                proof {
                    lemma_find_key_prefix(d, i + 1, key@);
                }
                return Some(&self.children[i]);
            }
            i = i + 1;
        }
        assert(d.take(d.len() as int) =~= d);
        None
    }

    /// The value of the first child under `key`.
    pub fn get_kv(&self, key: &str) -> (r: Option<String>)
        ensures
            opt_view(r) == self@.kv(key@),
    {
        match self.get(key) {
            Some(c) => match &c.value {
                Some(v) => Some(v.clone()),
                None => None,
            },
            None => None,
        }
    }

    /// The edge type that this leaf link entry describes, from `src_label`.
    pub fn edge_type(&self, src_label: &String) -> (r: EBResult<EdgeType>)
        ensures
            match r {
                Ok(t) => edge_type_spec(self@, src_label@) == Some(t@),
                Err(e) => edge_type_spec(self@, src_label@) is None && e is BuildError,
            },
    {
        let dst_label = match self.get_kv("target_type") {
            Some(v) => v,
            None => {
                return Err(EBError::BuildError(String::from_str("link missing target_type")));
            },
        };
        let backref = match self.get_kv("backref") {
            Some(v) => v,
            None => {
                return Err(EBError::BuildError(String::from_str("link missing backref")));
            },
        };
        let name = match self.get_kv("name") {
            Some(v) => v,
            None => {
                return Err(EBError::BuildError(String::from_str("link missing name")));
            },
        };
        let label = match self.get_kv("label") {
            Some(v) => v,
            None => {
                return Err(EBError::BuildError(String::from_str("link missing label")));
            },
        };
        Ok(EdgeType { src_label: src_label.clone(), dst_label, backref, name, label })
    }

    /// The types of the properties declared under `properties`, leaving out
    /// those named like one of `links`. A property without a `type` is a
    /// string.
    pub fn node_properties(&self, links: &Vec<EdgeType>) -> (r: EBResult<Vec<(String, PropertyType)>>)
        ensures
            match r {
                Ok(v) => node_properties_spec(self@, edge_types_view(links@)) == Some(
                    props_view(v@),
                ),
                Err(e) => node_properties_spec(self@, edge_types_view(links@)) is None
                    && e is BuildError,
            },
    {
        let props_node = match self.get("properties") {
            Some(p) => p,
            None => {
                return Err(EBError::BuildError(String::from_str("missing properties")));
            },
        };
        let names = names_of(links);
        let ghost nv = strings_view(names@);
        let ghost ps = props_node@.children;
        let mut props: Vec<(String, PropertyType)> = Vec::new();
        assert(ps.take(0) =~= Seq::<SchemaV>::empty());
        assert(props_view(props@) =~= Seq::empty());
        let mut i: usize = 0;
        while i < props_node.children.len()
            invariant
                ps == props_node@.children,
                nv == strings_view(names@),
                nv == link_names(edge_types_view(links@)),
                self@.child("properties"@) == Some(props_node@),
                i <= props_node.children@.len(),
                props_fold(ps.take(i as int), nv) == Some(props_view(props@)),
            decreases props_node.children@.len() - i,
        {
            let p = &props_node.children[i];
            assert(ps[i as int] == p@);
            assert(ps.take(i + 1).drop_last() =~= ps.take(i as int));
            assert(ps.take(i + 1).last() == p@);
            if !label_in(&names, &p.key) {
                let t = match p.get_kv("type") {
                    Some(type_str) => match PropertyType::parse(type_str.as_str()) {
                        Ok(t) => t,
                        Err(e) => {
                            proof {
                                lemma_props_fold_prefix(ps, nv, i + 1);
                            }
                            return Err(e);
                        },
                    },
                    None => PropertyType::String,
                };
                insert_prop(&mut props, p.key.clone(), t);
            }
            i = i + 1;
        }
        assert(ps.take(ps.len() as int) =~= ps);
        Ok(props)
    }

    /// The node type that this resolved schema describes: its `id` as label,
    /// its `category`, its links and its property types. Backrefs are
    /// attached by the data model.
    pub fn node_type(&self) -> (r: EBResult<NodeType>)
        ensures
            match r {
                Ok(t) => node_type_spec(self@) == Some(t@),
                Err(e) => node_type_spec(self@) is None && e is BuildError,
            },
    {
        let label = match self.get_kv("id") {
            Some(v) => v,
            None => {
                return Err(EBError::BuildError(String::from_str("missing label")));
            },
        };
        let category_str = match self.get_kv("category") {
            Some(v) => v,
            None => {
                return Err(EBError::BuildError(String::from_str("missing category")));
            },
        };
        let links = match self.edge_types(&label) {
            Ok(l) => l,
            Err(e) => {
                return Err(e);
            },
        };
        let props = match self.node_properties(&links) {
            Ok(p) => p,
            Err(e) => {
                return Err(e);
            },
        };
        let category = NodeCategory::from_name(category_str.as_str());
        let r = NodeType { label, props, category, links, backrefs: Vec::new() };
        assert(edge_types_view(r.backrefs@) =~= Seq::empty());
        Ok(r)
    }

    /// The forward edge types that this schema declares under `links`, from
    /// `src_label`: leaf links and the leaf links of subgroups, in document
    /// order.
    pub fn edge_types(&self, src_label: &String) -> (r: EBResult<Vec<EdgeType>>)
        ensures
            match r {
                Ok(v) => edge_types_spec(self@, src_label@) == Some(edge_types_view(v@)),
                Err(e) => edge_types_spec(self@, src_label@) is None && e is BuildError,
            },
    {
        let mut edges: Vec<EdgeType> = Vec::new();
        let links = match self.get("links") {
            Some(l) => l,
            None => {
                assert(edge_types_view(edges@) =~= Seq::empty());
                return Ok(edges);
            },
        };
        let ghost es = links@.children;
        let ghost src = src_label@;
        assert(es.take(0) =~= Seq::<SchemaV>::empty());
        assert(edge_types_view(edges@) =~= Seq::empty());
        let mut i: usize = 0;
        while i < links.children.len()
            invariant
                es == links@.children,
                src == src_label@,
                self@.child("links"@) == Some(links@),
                i <= links.children@.len(),
                entries_types(es.take(i as int), src) == Some(edge_types_view(edges@)),
            decreases links.children@.len() - i,
        {
            let entry = &links.children[i];
            assert(es[i as int] == entry@);
            assert(es.take(i + 1).drop_last() =~= es.take(i as int));
            assert(es.take(i + 1).last() == entry@);
            let ghost before = edge_types_view(edges@);
            match entry.get("subgroup") {
                Some(sg) => {
                    let ghost ls = sg@.children;
                    assert(ls.take(0) =~= Seq::<SchemaV>::empty());
                    assert(before + Seq::<EdgeTypeV>::empty() =~= before);
                    let mut j: usize = 0;
                    while j < sg.children.len()
                        invariant
                            ls == sg@.children,
                            src == src_label@,
                            es == links@.children,
                            self@.child("links"@) == Some(links@),
                            i < links.children@.len(),
                            es.take(i + 1).drop_last() == es.take(i as int),
                            es.take(i + 1).last() == entry@,
                            entry@.child("subgroup"@) == Some(sg@),
                            entries_types(es.take(i as int), src) == Some(before),
                            j <= sg.children@.len(),
                            links_types(ls.take(j as int), src) is Some,
                            edge_types_view(edges@) == before + links_types(ls.take(j as int), src)->Some_0,
                        decreases sg.children@.len() - j,
                    {
                        let link = &sg.children[j];
                        assert(ls[j as int] == link@);
                        assert(ls.take(j + 1).drop_last() =~= ls.take(j as int));
                        assert(ls.take(j + 1).last() == link@);
                        match link.edge_type(src_label) {
                            Ok(t) => {
                                let ghost tv = t@;
                                let ghost b2 = edge_types_view(edges@);
                                edges.push(t);
                                assert(edge_types_view(edges@) =~= b2.push(tv));
                                assert(before + links_types(ls.take(j + 1), src)->Some_0 =~= (before
                                    + links_types(ls.take(j as int), src)->Some_0).push(tv));
                            },
                            Err(e) => {
                                proof {
                                    lemma_links_types_prefix(ls, src, j + 1);
                                    assert(entry_types(entry@, src) is None);
                                    assert(entries_types(es.take(i + 1), src) is None);
                                    lemma_entries_types_prefix(es, src, i + 1);
                                }
                                return Err(e);
                            },
                        }
                        j = j + 1;
                    }
                    assert(ls.take(ls.len() as int) =~= ls);
                },
                None => {
                    match entry.edge_type(src_label) {
                        Ok(t) => {
                            let ghost tv = t@;
                            edges.push(t);
                            assert(edge_types_view(edges@) =~= before + seq![tv]);
                        },
                        Err(e) => {
                            proof {
                                assert(entry_types(entry@, src) is None);
                                assert(entries_types(es.take(i + 1), src) is None);
                                lemma_entries_types_prefix(es, src, i + 1);
                            }
                            return Err(e);
                        },
                    }
                },
            }
            i = i + 1;
        }
        assert(es.take(es.len() as int) =~= es);
        Ok(edges)
    }
}

} // verus!
