use vstd::prelude::*;
use vstd::string::StringExecFns;
use crate::datamodel::{Datamodel, NodeTypeV, SchemaNode, SchemaV, lemma_node_types_prefix, model_of, node_types_spec, schemas_view};
use crate::errors::{EBError, EBResult};
use crate::graph::strings_view;
use crate::text::{chars_of, str_eq, string_from_chars};
use vstd::string::StrSliceExecFns;

verus! {

broadcast use vstd::std_specs::vec::group_vec_axioms;

/// Longest chain of nested `$ref`s that is followed.
pub const MAX_REF_DEPTH: usize = 64;

/// A parsed structured document, as the dictionary's YAML sources give it.
/// Mapping entries keep their document order.
#[derive(Debug)]
pub enum YamlValue {
    Real(String),
    Integer(i64),
    Str(String),
    Boolean(bool),
    Array(Vec<YamlValue>),
    Hash(Vec<(YamlValue, YamlValue)>),
    Alias(usize),
    Null,
    BadValue,
}

/// The value under the first string key `key` of a mapping.
pub open spec fn yaml_get(y: YamlValue, key: Seq<char>) -> Option<YamlValue> {
    match y {
        YamlValue::Hash(es) => yaml_get_in(es@, key, 0),
        _ => None,
    }
}

/// The value under the first string key `key` among `es[i..]`.
pub open spec fn yaml_get_in(es: Seq<(YamlValue, YamlValue)>, key: Seq<char>, i: int) -> Option<YamlValue>
    decreases es.len() - i,
{
    if i < 0 || i >= es.len() {
        None
    } else if es[i].0 is Str && es[i].0->Str_0@ == key {
        Some(es[i].1)
    } else {
        yaml_get_in(es, key, i + 1)
    }
}

/// The first position at or after `i` where `#/` starts, or -1.
pub open spec fn hash_slash_from(s: Seq<char>, i: int) -> int
    decreases s.len() - i,
{
    if i < 0 || i + 1 >= s.len() {
        -1
    } else if s[i] == '#' && s[i + 1] == '/' {
        i
    } else {
        hash_slash_from(s, i + 1)
    }
}

/// The first position at or after `i` that holds `c`, or `s.len()`.
pub open spec fn first_from(s: Seq<char>, c: char, i: int) -> int
    decreases s.len() - i,
{
    if i < 0 || i >= s.len() {
        s.len() as int
    } else if s[i] == c {
        i
    } else {
        first_from(s, c, i + 1)
    }
}

/// The characters of `s` before its first `c` (all of `s` without one).
pub open spec fn before_char(s: Seq<char>, c: char) -> Seq<char> {
    s.take(first_from(s, c, 0))
}

/// `s` split at each `c`.
pub open spec fn split_on(s: Seq<char>, c: char) -> Seq<Seq<char>>
    decreases s.len(),
{
    if s.len() == 0 {
        seq![Seq::empty()]
    } else {
        let f = split_on(s.drop_last(), c);
        if s.last() == c {
            f.push(Seq::empty())
        } else {
            f.update(f.len() - 1, f.last().push(s.last()))
        }
    }
}

/// The node reached from `y` along the mapping keys `segs`.
pub open spec fn follow(y: YamlValue, segs: Seq<Seq<char>>) -> Option<YamlValue>
    decreases segs.len(),
{
    if segs.len() == 0 {
        Some(y)
    } else {
        match yaml_get(y, segs[0]) {
            Some(z) => follow(z, segs.drop_first()),
            None => None,
        }
    }
}

/// Where a reference is resolved: every schema by id, the schema that holds
/// the current node, and the references being followed.
pub ghost struct RefCtx {
    pub schemas: Seq<(Seq<char>, YamlValue)>,
    pub doc_id: Seq<char>,
    pub doc: YamlValue,
    pub visited: Seq<(Seq<char>, Seq<char>)>,
}

/// The schema with id `id`.
pub open spec fn schema_by_id(schemas: Seq<(Seq<char>, YamlValue)>, id: Seq<char>, i: int) -> Option<YamlValue>
    decreases schemas.len() - i,
{
    if i < 0 || i >= schemas.len() {
        None
    } else if schemas[i].0 == id {
        Some(schemas[i].1)
    } else {
        schema_by_id(schemas, id, i + 1)
    }
}

/// The target of a `$ref` pointer `<file>#/<path>`: the id of the schema
/// it lies in (the part of `file` before its first `.`, or the current
/// schema for an empty file), that schema, the path, and the node there.
pub open spec fn deref_spec(c: RefCtx, ptr: Seq<char>) -> Option<(Seq<char>, YamlValue, Seq<char>, YamlValue)> {
    let i = hash_slash_from(ptr, 0);
    if i < 0 {
        None
    } else {
        let id = before_char(ptr.take(i), '.');
        let path = ptr.skip(i + 2);
        let tdoc = if id.len() == 0 {
            Some(c.doc)
        } else {
            schema_by_id(c.schemas, id, 0)
        };
        let tid = if id.len() == 0 {
            c.doc_id
        } else {
            id
        };
        match tdoc {
            None => None,
            Some(d) => match follow(d, split_on(path, '/')) {
                None => None,
                Some(t) => Some((tid, d, path, t)),
            },
        }
    }
}

/// The schema node that resolves `y` under `key`: a mapping gives a child
/// per entry, with the children of each `$ref` target spliced in its place;
/// a list gives a child per item under the same key; a string is the
/// value; any other scalar gives neither.
pub open spec fn resolve_spec(c: RefCtx, key: Seq<char>, y: YamlValue, fuel: nat) -> Option<SchemaV>
    decreases fuel, y, 0nat,
{
    match y {
        YamlValue::Hash(es) => match resolve_entries(c, key, es@, fuel, es@.len()) {
            Some(cs) => Some(SchemaV { key, value: None, children: cs }),
            None => None,
        },
        YamlValue::Array(items) => match resolve_items(c, key, items@, fuel, items@.len()) {
            Some(cs) => Some(SchemaV { key, value: None, children: cs }),
            None => None,
        },
        YamlValue::Str(s) => Some(SchemaV { key, value: Some(s@), children: Seq::empty() }),
        _ => Some(SchemaV { key, value: None, children: Seq::empty() }),
    }
}

/// The children that the first `k` entries of a mapping resolve to.
pub open spec fn resolve_entries(
    c: RefCtx,
    key: Seq<char>,
    es: Seq<(YamlValue, YamlValue)>,
    fuel: nat,
    k: nat,
) -> Option<Seq<SchemaV>>
    decreases fuel, es, k,
{
    if k == 0 || k > es.len() {
        Some(Seq::empty())
    } else {
        match resolve_entries(c, key, es, fuel, (k - 1) as nat) {
            None => None,
            Some(acc) => {
                let e = es[k - 1];
                match e.0 {
                    YamlValue::Str(ck) => if ck@ == "$ref"@ {
                        match e.1 {
                            YamlValue::Str(p) => match deref_spec(c, p@) {
                                None => None,
                                Some((tid, tdoc, path, target)) => if fuel == 0
                                    || c.visited.contains((tid, path)) {
                                    None
                                } else {
                                    let c2 = RefCtx {
                                        doc_id: tid,
                                        doc: tdoc,
                                        visited: c.visited.push((tid, path)),
                                        ..c
                                    };
                                    match resolve_spec(c2, key, target, (fuel - 1) as nat) {
                                        Some(n) => Some(acc + n.children),
                                        None => None,
                                    }
                                },
                            },
                            _ => None,
                        }
                    } else {
                        match resolve_spec(c, ck@, e.1, fuel) {
                            Some(n) => Some(acc.push(n)),
                            None => None,
                        }
                    },
                    _ => None,
                }
            },
        }
    }
}

/// The children that the first `k` items of a list resolve to.
pub open spec fn resolve_items(c: RefCtx, key: Seq<char>, items: Seq<YamlValue>, fuel: nat, k: nat) -> Option<
    Seq<SchemaV>,
>
    decreases fuel, items, k,
{
    if k == 0 || k > items.len() {
        Some(Seq::empty())
    } else {
        match resolve_items(c, key, items, fuel, (k - 1) as nat) {
            None => None,
            Some(acc) => match resolve_spec(c, key, items[k - 1], fuel) {
                Some(n) => Some(acc.push(n)),
                None => None,
            },
        }
    }
}

/// The schemas by id, as seen by the resolution rules.
pub open spec fn schemas_by_id(s: Seq<(String, YamlValue)>) -> Seq<(Seq<char>, YamlValue)> {
    s.map_values(|p: (String, YamlValue)| (p.0@, p.1))
}

/// The references being followed, as seen by the resolution rules.
pub open spec fn visited_view(s: Seq<(String, String)>) -> Seq<(Seq<char>, Seq<char>)> {
    s.map_values(|p: (String, String)| (p.0@, p.1@))
}

/// Every schema of the dictionary, by id, for resolving references.
pub struct Resolver {
    pub schemas: Vec<(String, YamlValue)>,
}

/// The value under the first string key `key` of a mapping.
pub fn yaml_lookup<'a>(y: &'a YamlValue, key: &str) -> (r: Option<&'a YamlValue>)
    ensures
        match r {
            Some(v) => yaml_get(*y, key@) == Some(*v),
            None => yaml_get(*y, key@) is None,
        },
{
    match y {
        YamlValue::Hash(es) => {
            let mut i: usize = 0;
            while i < es.len()
                invariant
                    *y == YamlValue::Hash(*es),
                    i <= es@.len(),
                    yaml_get_in(es@, key@, 0) == yaml_get_in(es@, key@, i as int),
                decreases es@.len() - i,
            {
                match &es[i].0 {
                    YamlValue::Str(k) => {
                        if str_eq(k.as_str(), key) {
                            return Some(&es[i].1);
                        }
                    },
                    _ => {},
                }
                i = i + 1;
            }
            None
        },
        _ => None,
    }
}

/// The string under key `key` of a mapping.
pub fn yaml_str(yaml: &YamlValue, key: &str) -> (r: EBResult<String>)
    ensures
        match r {
            Ok(s) => yaml_get(*yaml, key@) matches Some(YamlValue::Str(v)) && v@ == s@,
            Err(e) => !(yaml_get(*yaml, key@) matches Some(YamlValue::Str(_))) && e is BuildError,
        },
{
    match yaml_lookup(yaml, key) {
        Some(YamlValue::Str(s)) => Ok(s.clone()),
        _ => Err(
            EBError::BuildError(String::from_str("unable to read string under key: ").concat(key)),
        ),
    }
}

/// Position of the first `#/` in `s`.
fn hash_slash_index(s: &Vec<char>) -> (r: Option<usize>)
    ensures
        match r {
            Some(i) => hash_slash_from(s@, 0) == i as int && i + 1 < s@.len(),
            None => hash_slash_from(s@, 0) == -1,
        },
{
    let mut i: usize = 0;
    while i < s.len() && i + 1 < s.len()
        invariant
            i <= s@.len(),
            hash_slash_from(s@, 0) == hash_slash_from(s@, i as int),
        decreases s@.len() - i,
    {
        if s[i] == '#' && s[i + 1] == '/' {
            return Some(i);
        }
        i = i + 1;
    }
    None
}

/// The characters of `s` from `from` to `to`.
fn sub_chars(s: &Vec<char>, from: usize, to: usize) -> (r: Vec<char>)
    requires
        from <= to <= s@.len(),
    ensures
        r@ == s@.subrange(from as int, to as int),
{
    let mut out: Vec<char> = Vec::new();
    let mut i: usize = from;
    while i < to
        invariant
            from <= i <= to <= s@.len(),
            out@ == s@.subrange(from as int, i as int),
        decreases to - i,
    {
        out.push(s[i]);
        i = i + 1;
        assert(out@ =~= s@.subrange(from as int, i as int));
    }
    out
}

/// The characters of `s` before its first `c`.
fn chars_before(s: &Vec<char>, c: char) -> (r: Vec<char>)
    ensures
        r@ == before_char(s@, c),
{
    let mut i: usize = 0;
    while i < s.len()
        invariant
            i <= s@.len(),
            first_from(s@, c, 0) == first_from(s@, c, i as int),
        decreases s@.len() - i,
    {
        if s[i] == c {
            return sub_chars(s, 0, i);
        }
        i = i + 1;
    }
    sub_chars(s, 0, s.len())
}

/// `s` split at each `c`.
fn split_chars(s: &Vec<char>, c: char) -> (r: Vec<String>)
    ensures
        strings_view(r@) == split_on(s@, c),
{
    let mut parts: Vec<String> = Vec::new();
    let mut cur: Vec<char> = Vec::new();
    let mut i: usize = 0;
    assert(s@.take(0) =~= Seq::<char>::empty());
    assert(strings_view(parts@).push(cur@) =~= split_on(s@.take(0), c));
    while i < s.len()
        invariant
            i <= s@.len(),
            strings_view(parts@).push(cur@) == split_on(s@.take(i as int), c),
        decreases s@.len() - i,
    {
        let ch = s[i];
        assert(s@.take(i + 1).drop_last() =~= s@.take(i as int));
        let ghost f = split_on(s@.take(i as int), c);
        if ch == c {
            let piece = string_from_chars(&cur);
            parts.push(piece);
            cur = Vec::new();
            assert(strings_view(parts@).push(cur@) =~= f.push(Seq::empty()));
        } else {
            let ghost pv = strings_view(parts@);
            cur.push(ch);
            assert(pv.push(cur@) =~= f.update(f.len() - 1, f.last().push(ch)));
        }
        i = i + 1;
    }
    assert(s@.take(s@.len() as int) =~= s@);
    let last = string_from_chars(&cur);
    let ghost pv = strings_view(parts@);
    parts.push(last);
    assert(strings_view(parts@) =~= pv.push(cur@));
    parts
}

/// The node reached from `y` along the mapping keys `segs`.
fn follow_path<'a>(y: &'a YamlValue, segs: &Vec<String>) -> (r: Option<&'a YamlValue>)
    ensures
        match r {
            Some(t) => follow(*y, strings_view(segs@)) == Some(*t),
            None => follow(*y, strings_view(segs@)) is None,
        },
{
    let ghost sv = strings_view(segs@);
    let mut cur: &'a YamlValue = y;
    let mut i: usize = 0;
    assert(sv.skip(0) =~= sv);
    while i < segs.len()
        invariant
            sv == strings_view(segs@),
            i <= segs@.len(),
            follow(*y, sv) == follow(*cur, sv.skip(i as int)),
        decreases segs@.len() - i,
    {
        assert(sv.skip(i as int)[0] == segs@[i as int]@);
        assert(sv.skip(i as int).drop_first() =~= sv.skip(i + 1));
        match yaml_lookup(cur, segs[i].as_str()) {
            Some(z) => {
                cur = z;
            },
            None => {
                return None;
            },
        }
        i = i + 1;
    }
    assert(sv.skip(i as int) =~= Seq::<Seq<char>>::empty());
    Some(cur)
}

/// Whether `(id, path)` is among the references being followed.
fn visited_has(visited: &Vec<(String, String)>, id: &String, path: &String) -> (r: bool)
    ensures
        r == visited_view(visited@).contains((id@, path@)),
{
    let ghost vv = visited_view(visited@);
    let mut i: usize = 0;
    while i < visited.len()
        invariant
            vv == visited_view(visited@),
            i <= visited@.len(),
            forall|x: int| 0 <= x < i ==> vv[x] != (id@, path@),
        decreases visited@.len() - i,
    {
        if str_eq(visited[i].0.as_str(), id.as_str()) && str_eq(
            visited[i].1.as_str(),
            path.as_str(),
        ) {
            assert(vv[i as int] == (id@, path@));
            return true;
        }
        i = i + 1;
    }
    false
}

/// Once a prefix of a mapping fails to resolve, longer prefixes fail.
proof fn lemma_entries_none(c: RefCtx, key: Seq<char>, es: Seq<(YamlValue, YamlValue)>, fuel: nat, k: nat, k2: nat)
    requires
        k <= k2 <= es.len(),
        resolve_entries(c, key, es, fuel, k) is None,
    ensures
        resolve_entries(c, key, es, fuel, k2) is None,
    decreases k2 - k,
{
    if k2 > k {
        lemma_entries_none(c, key, es, fuel, k, (k2 - 1) as nat);
    }
}

/// Once a prefix of a list fails to resolve, longer prefixes fail.
proof fn lemma_items_none(c: RefCtx, key: Seq<char>, items: Seq<YamlValue>, fuel: nat, k: nat, k2: nat)
    requires
        k <= k2 <= items.len(),
        resolve_items(c, key, items, fuel, k) is None,
    ensures
        resolve_items(c, key, items, fuel, k2) is None,
    decreases k2 - k,
{
    if k2 > k {
        lemma_items_none(c, key, items, fuel, k, (k2 - 1) as nat);
    }
}

impl Resolver {
    /// The resolution context of a node of schema `doc`, with id `doc_id`.
    pub open spec fn ctx(&self, doc_id: Seq<char>, doc: YamlValue, visited: Seq<(String, String)>) -> RefCtx {
        RefCtx {
            schemas: schemas_by_id(self.schemas@),
            doc_id,
            doc,
            visited: visited_view(visited),
        }
    }

    /// The schema node that resolves `y` under `key`, met in schema `doc`
    /// (with id `doc_id`) while following the references in `visited`.
    fn resolve_in(
        &self,
        doc_id: &String,
        doc: &YamlValue,
        visited: &mut Vec<(String, String)>,
        key: &String,
        y: &YamlValue,
        fuel: usize,
    ) -> (r: EBResult<SchemaNode>)
        ensures
            final(visited)@ == old(visited)@,
            match r {
                Ok(n) => resolve_spec(self.ctx(doc_id@, *doc, old(visited)@), key@, *y, fuel as nat)
                    == Some(n@),
                Err(e) => resolve_spec(
                    self.ctx(doc_id@, *doc, old(visited)@),
                    key@,
                    *y,
                    fuel as nat,
                ) is None && e is BuildError,
            },
        decreases fuel, y, 0nat,
    {
        let ghost c = self.ctx(doc_id@, *doc, visited@);
        match y {
            YamlValue::Hash(es) => {
                let mut children: Vec<SchemaNode> = Vec::new();
                let mut k: usize = 0;
                assert(schemas_view(children@) =~= Seq::empty());
                while k < es.len()
                    invariant
                        *y == YamlValue::Hash(*es),
                        visited@ == old(visited)@,
                        c == self.ctx(doc_id@, *doc, visited@),
                        k <= es@.len(),
                        resolve_entries(c, key@, es@, fuel as nat, k as nat) == Some(
                            schemas_view(children@),
                        ),
                    decreases es@.len() - k,
                {
                    let ek = &es[k].0;
                    let ev = &es[k].1;
                    let ghost acc = schemas_view(children@);
                    match ek {
                        YamlValue::Str(ck) => {
                            if str_eq(ck.as_str(), "$ref") {
                                match ev {
                                    YamlValue::Str(p) => {
                                        let (tid, tdoc, path, target) = match self.dereference(
                                            doc_id,
                                            doc,
                                            p,
                                        ) {
                                            Ok(x) => x,
                                            Err(e) => {
                                                proof {
                                                    lemma_entries_none(c, key@, es@, fuel as nat, (k + 1) as nat, es@.len());
                                                }
                                                return Err(e);
                                            },
                                        };
                                        if fuel == 0 || visited_has(visited, &tid, &path) {
                                            proof {
                                                lemma_entries_none(c, key@, es@, fuel as nat, (k + 1) as nat, es@.len());
                                            }
                                            return Err(
                                                EBError::BuildError(
                                                    String::from_str("cyclic or too deep $ref: ").concat(
                                                        p.as_str(),
                                                    ),
                                                ),
                                            );
                                        }
                                        let ghost v0 = visited@;
                                        visited.push((tid.clone(), path.clone()));
                                        assert(visited_view(visited@) =~= visited_view(v0).push(
                                            (tid@, path@),
                                        ));
                                        let sub = self.resolve_in(&tid, tdoc, visited, key, target, fuel - 1);
                                        let _ = visited.pop();
                                        assert(visited@ =~= v0);
                                        match sub {
                                            Ok(n) => {
                                                let ghost nv = n@;
                                                let mut cs = n.children;
                                                assert(nv.children =~= schemas_view(cs@));
                                                children.append(&mut cs);
                                                assert(schemas_view(children@) =~= acc + nv.children);
                                            },
                                            Err(e) => {
                                                proof {
                                                    lemma_entries_none(c, key@, es@, fuel as nat, (k + 1) as nat, es@.len());
                                                }
                                                return Err(e);
                                            },
                                        }
                                    },
                                    _ => {
                                        proof {
                                            lemma_entries_none(c, key@, es@, fuel as nat, (k + 1) as nat, es@.len());
                                        }
                                        return Err(
                                            EBError::BuildError(String::from_str("$ref is not a string")),
                                        );
                                    },
                                }
                            } else {
                                proof {
                                    vstd::std_specs::vec::axiom_vec_index_decreases(*es, k as int);
                                    assert(decreases_to!(*y => y->Hash_0));
                                }
                                match self.resolve_in(doc_id, doc, visited, ck, ev, fuel) {
                                    Ok(n) => {
                                        children.push(n);
                                        assert(schemas_view(children@) =~= acc.push(n@));
                                    },
                                    Err(e) => {
                                        proof {
                                            lemma_entries_none(c, key@, es@, fuel as nat, (k + 1) as nat, es@.len());
                                        }
                                        return Err(e);
                                    },
                                }
                            }
                        },
                        _ => {
                            proof {
                                lemma_entries_none(c, key@, es@, fuel as nat, (k + 1) as nat, es@.len());
                            }
                            return Err(
                                EBError::BuildError(String::from_str("mapping key is not a string")),
                            );
                        },
                    }
                    k = k + 1;
                }
                let r = SchemaNode { key: key.clone(), value: None, children };
                assert(r@.children =~= schemas_view(r.children@));
                Ok(r)
            },
            YamlValue::Array(items) => {
                let mut children: Vec<SchemaNode> = Vec::new();
                let mut k: usize = 0;
                assert(schemas_view(children@) =~= Seq::empty());
                while k < items.len()
                    invariant
                        *y == YamlValue::Array(*items),
                        visited@ == old(visited)@,
                        c == self.ctx(doc_id@, *doc, visited@),
                        k <= items@.len(),
                        resolve_items(c, key@, items@, fuel as nat, k as nat) == Some(
                            schemas_view(children@),
                        ),
                    decreases items@.len() - k,
                {
                    let ghost acc = schemas_view(children@);
                    proof {
                        vstd::std_specs::vec::axiom_vec_index_decreases(*items, k as int);
                        assert(decreases_to!(*y => y->Array_0));
                    }
                    match self.resolve_in(doc_id, doc, visited, key, &items[k], fuel) {
                        Ok(n) => {
                            children.push(n);
                            assert(schemas_view(children@) =~= acc.push(n@));
                        },
                        Err(e) => {
                            proof {
                                lemma_items_none(c, key@, items@, fuel as nat, (k + 1) as nat, items@.len());
                            }
                            return Err(e);
                        },
                    }
                    k = k + 1;
                }
                let r = SchemaNode { key: key.clone(), value: None, children };
                assert(r@.children =~= schemas_view(r.children@));
                Ok(r)
            },
            YamlValue::Str(s) => {
                let r = SchemaNode { key: key.clone(), value: Some(s.clone()), children: Vec::new() };
                assert(r@.children =~= Seq::<SchemaV>::empty());
                Ok(r)
            },
            _ => {
                let r = SchemaNode::new(key.clone());
                Ok(r)
            },
        }
    }

    /// Position of the schema with id `id`.
    fn schema_index(&self, id: &str) -> (r: Option<usize>)
        ensures
            match r {
                Some(i) => i < self.schemas@.len() && schema_by_id(
                    schemas_by_id(self.schemas@),
                    id@,
                    0,
                ) == Some(self.schemas@[i as int].1),
                None => schema_by_id(schemas_by_id(self.schemas@), id@, 0) is None,
            },
    {
        let ghost sv = schemas_by_id(self.schemas@);
        let mut i: usize = 0;
        while i < self.schemas.len()
            invariant
                sv == schemas_by_id(self.schemas@),
                i <= self.schemas@.len(),
                schema_by_id(sv, id@, 0) == schema_by_id(sv, id@, i as int),
            decreases self.schemas@.len() - i,
        {
            assert(sv[i as int] == (self.schemas@[i as int].0@, self.schemas@[i as int].1));
            if str_eq(self.schemas[i].0.as_str(), id) {
                return Some(i);
            }
            i = i + 1;
        }
        None
    }

    /// The target of the `$ref` pointer `ptr` met in schema `doc`.
    fn dereference<'a>(&'a self, doc_id: &String, doc: &'a YamlValue, ptr: &String) -> (r: EBResult<
        (String, &'a YamlValue, String, &'a YamlValue),
    >)
        ensures
            match r {
                Ok((tid, d, path, t)) => deref_spec(
                    self.ctx(doc_id@, *doc, Seq::empty()),
                    ptr@,
                ) == Some((tid@, *d, path@, *t)),
                Err(e) => deref_spec(self.ctx(doc_id@, *doc, Seq::empty()), ptr@) is None
                    && e is BuildError,
            },
    {
        let cs = chars_of(ptr.as_str());
        let i = match hash_slash_index(&cs) {
            Some(i) => i,
            None => {
                return Err(
                    EBError::BuildError(String::from_str("malformed $ref: ").concat(ptr.as_str())),
                );
            },
        };
        let n = cs.len();
        let file = sub_chars(&cs, 0, i);
        let path_chars = sub_chars(&cs, i + 2, n);
        assert(path_chars@ =~= cs@.skip(i + 2));
        assert(file@ =~= cs@.take(i as int));
        let id_chars = chars_before(&file, '.');
        let path = string_from_chars(&path_chars);
        let segs = split_chars(&path_chars, '/');
        if id_chars.len() == 0 {
            match follow_path(doc, &segs) {
                Some(t) => Ok((doc_id.clone(), doc, path, t)),
                None => Err(
                    EBError::BuildError(String::from_str("missing $ref target: ").concat(ptr.as_str())),
                ),
            }
        } else {
            let id = string_from_chars(&id_chars);
            match self.schema_index(id.as_str()) {
                Some(k) => {
                    let d = &self.schemas[k].1;
                    match follow_path(d, &segs) {
                        Some(t) => Ok((id, d, path, t)),
                        None => Err(
                            EBError::BuildError(
                                String::from_str("missing $ref target: ").concat(ptr.as_str()),
                            ),
                        ),
                    }
                },
                None => Err(
                    EBError::BuildError(String::from_str("missing schema: ").concat(id.as_str())),
                ),
            }
        }
    }
}

#[verifier::external_type_specification]
#[verifier::external_body]
pub struct ExOutsideYaml(yaml_rust::Yaml);

#[verifier::external_type_specification]
#[verifier::external_body]
pub struct ExScanError(yaml_rust::ScanError);

/// The documents that yaml-rust reads from `source`, in the library's form.
pub uninterp spec fn yaml_documents(source: Seq<char>) -> Option<Seq<YamlValue>>;

/// Converts one of yaml-rust's document trees into the library's, node for
/// node.
#[verifier::external_body]
fn from_outside_yaml(y: yaml_rust::Yaml) -> YamlValue {
    match y {
        yaml_rust::Yaml::Real(s) => YamlValue::Real(s),
        yaml_rust::Yaml::Integer(i) => YamlValue::Integer(i),
        yaml_rust::Yaml::String(s) => YamlValue::Str(s),
        yaml_rust::Yaml::Boolean(b) => YamlValue::Boolean(b),
        yaml_rust::Yaml::Array(a) => YamlValue::Array(a.into_iter().map(from_outside_yaml).collect()),
        yaml_rust::Yaml::Hash(h) => YamlValue::Hash(
            h.into_iter().map(|(k, v)| (from_outside_yaml(k), from_outside_yaml(v))).collect(),
        ),
        yaml_rust::Yaml::Alias(n) => YamlValue::Alias(n),
        yaml_rust::Yaml::Null => YamlValue::Null,
        yaml_rust::Yaml::BadValue => YamlValue::BadValue,
    }
}

/// Relies on yaml-rust's `YamlLoader::load_from_str`: the documents of
/// `source` in order, mapping entries in document order, or a scan error;
/// the outcome depends on the text alone.
#[verifier::external_body]
fn load_yaml_documents(source: &str) -> (r: Result<Vec<YamlValue>, yaml_rust::ScanError>)
    ensures
        match r {
            Ok(d) => yaml_documents(source@) == Some(d@),
            Err(_) => yaml_documents(source@) is None,
        },
{
    match yaml_rust::YamlLoader::load_from_str(source) {
        Ok(docs) => Ok(docs.into_iter().map(from_outside_yaml).collect()),
        Err(e) => Err(e),
    }
}

/// The schemas of `docs` under their `id` strings.
pub open spec fn schema_ids(docs: Seq<YamlValue>) -> Option<Seq<(Seq<char>, YamlValue)>>
    decreases docs.len(),
{
    if docs.len() == 0 {
        Some(Seq::empty())
    } else {
        match (schema_ids(docs.drop_last()), yaml_get(docs.last(), "id"@)) {
            (Some(acc), Some(YamlValue::Str(s))) => Some(acc.push((s@, docs.last()))),
            _ => None,
        }
    }
}

/// A schema whose id begins with an underscore is abstract: it is only
/// referred to.
pub open spec fn is_abstract(id: Seq<char>) -> bool {
    id.len() > 0 && id[0] == '_'
}

/// The first `k` concrete schemas of `sch`, resolved under the key `root`.
pub open spec fn resolved_all(sch: Seq<(Seq<char>, YamlValue)>, k: nat) -> Option<Seq<SchemaV>>
    decreases k,
{
    if k == 0 || k > sch.len() {
        Some(Seq::empty())
    } else {
        match resolved_all(sch, (k - 1) as nat) {
            None => None,
            Some(acc) => {
                let id = sch[k - 1].0;
                let d = sch[k - 1].1;
                if is_abstract(id) {
                    Some(acc)
                } else {
                    let c = RefCtx { schemas: sch, doc_id: id, doc: d, visited: Seq::empty() };
                    match resolve_spec(c, "root"@, d, MAX_REF_DEPTH as nat) {
                        Some(n) => Some(acc.push(n)),
                        None => None,
                    }
                }
            },
        }
    }
}

/// The data model that a dictionary's parsed schemas describe.
pub open spec fn model_from_yaml(docs: Seq<YamlValue>) -> Option<Seq<NodeTypeV>> {
    match schema_ids(docs) {
        None => None,
        Some(sch) => match resolved_all(sch, sch.len()) {
            None => None,
            Some(rs) => match node_types_spec(rs) {
                None => None,
                Some(ts) => model_of(ts),
            },
        },
    }
}

/// The first document of each source, where each has one.
pub open spec fn first_documents(sources: Seq<Seq<char>>) -> Option<Seq<YamlValue>>
    decreases sources.len(),
{
    if sources.len() == 0 {
        Some(Seq::empty())
    } else {
        match (first_documents(sources.drop_last()), yaml_documents(sources.last())) {
            (Some(acc), Some(ds)) => if ds.len() > 0 {
                Some(acc.push(ds[0]))
            } else {
                None
            },
            _ => None,
        }
    }
}

proof fn lemma_schema_ids_prefix(docs: Seq<YamlValue>, n: int)
    requires
        0 <= n <= docs.len(),
        schema_ids(docs.take(n)) is None,
    ensures
        schema_ids(docs) is None,
    decreases docs.len() - n,
{
    if n < docs.len() {
        assert(docs.take(n + 1).drop_last() =~= docs.take(n));
        lemma_schema_ids_prefix(docs, n + 1);
    } else {
        assert(docs.take(n) =~= docs);
    }
}

proof fn lemma_resolved_all_none(sch: Seq<(Seq<char>, YamlValue)>, k: nat, k2: nat)
    requires
        k <= k2 <= sch.len(),
        resolved_all(sch, k) is None,
    ensures
        resolved_all(sch, k2) is None,
    decreases k2 - k,
{
    if k2 > k {
        lemma_resolved_all_none(sch, k, (k2 - 1) as nat);
    }
}

proof fn lemma_first_documents_prefix(sources: Seq<Seq<char>>, n: int)
    requires
        0 <= n <= sources.len(),
        first_documents(sources.take(n)) is None,
    ensures
        first_documents(sources) is None,
    decreases sources.len() - n,
{
    if n < sources.len() {
        assert(sources.take(n + 1).drop_last() =~= sources.take(n));
        lemma_first_documents_prefix(sources, n + 1);
    } else {
        assert(sources.take(n) =~= sources);
    }
}

/// The first document of a structured source.
pub fn load_yaml(source: &str) -> (r: EBResult<YamlValue>)
    ensures
        match r {
            Ok(y) => yaml_documents(source@) matches Some(ds) && ds.len() > 0 && ds[0] == y,
            Err(e) => !(yaml_documents(source@) matches Some(ds) && ds.len() > 0) && e is ParseError,
        },
{
    match load_yaml_documents(source) {
        Ok(mut ds) => {
            if ds.len() == 0 {
                Err(EBError::ParseError(String::from_str("no document in source")))
            } else {
                Ok(ds.swap_remove(0))
            }
        },
        Err(_) => Err(EBError::ParseError(String::from_str("unparsable source"))),
    }
}

impl Resolver {
    /// A resolver over the given schemas, each under its `id` string.
    pub fn new(docs: Vec<YamlValue>) -> (r: EBResult<Resolver>)
        ensures
            match r {
                Ok(res) => schema_ids(docs@) == Some(schemas_by_id(res.schemas@)),
                Err(e) => schema_ids(docs@) is None && e is BuildError,
            },
    {
        let ghost ds = docs@;
        let mut pending = docs;
        let n = pending.len();
        let mut schemas: Vec<(String, YamlValue)> = Vec::new();
        let mut i: usize = 0;
        assert(ds.take(0) =~= Seq::<YamlValue>::empty());
        assert(schemas_by_id(schemas@) =~= Seq::empty());
        while i < n
            invariant
                ds == docs@,
                n == ds.len(),
                pending@.len() == n,
                i <= n,
                forall|t: int| i <= t < n ==> pending@[t] == ds[t],
                schema_ids(ds.take(i as int)) == Some(schemas_by_id(schemas@)),
            decreases n - i,
        {
            let mut doc = YamlValue::Null;
            pending.set_and_swap(i, &mut doc);
            assert(doc == ds[i as int]);
            assert(ds.take(i + 1).drop_last() =~= ds.take(i as int));
            assert(ds.take(i + 1).last() == doc);
            let id = match yaml_str(&doc, "id") {
                Ok(id) => id,
                Err(e) => {
                    proof {
                        lemma_schema_ids_prefix(ds, i + 1);
                    }
                    return Err(e);
                },
            };
            let ghost before = schemas_by_id(schemas@);
            let ghost dv = doc;
            let ghost idv = id@;
            schemas.push((id, doc));
            assert(schemas_by_id(schemas@) =~= before.push((idv, dv)));
            i = i + 1;
        }
        assert(ds.take(n as int) =~= ds);
        Ok(Resolver { schemas })
    }

    /// The schema node that resolves the schema `schema`, whose id is
    /// `doc_id`, under `key`.
    pub fn resolve(&self, key: &String, doc_id: &String, schema: &YamlValue) -> (r: EBResult<SchemaNode>)
        ensures
            match r {
                Ok(n) => resolve_spec(
                    self.ctx(doc_id@, *schema, Seq::empty()),
                    key@,
                    *schema,
                    MAX_REF_DEPTH as nat,
                ) == Some(n@),
                Err(e) => resolve_spec(
                    self.ctx(doc_id@, *schema, Seq::empty()),
                    key@,
                    *schema,
                    MAX_REF_DEPTH as nat,
                ) is None && e is BuildError,
            },
    {
        let mut visited: Vec<(String, String)> = Vec::new();
        assert(visited_view(visited@) =~= visited_view(Seq::empty()));
        self.resolve_in(doc_id, schema, &mut visited, key, schema, MAX_REF_DEPTH)
    }
}

impl Datamodel {
    /// The data model of the given resolved schemas.
    pub fn from_schemas(resolved: &Vec<SchemaNode>) -> (r: EBResult<Datamodel>)
        ensures
            match r {
                Ok(dm) => node_types_spec(schemas_view(resolved@)) matches Some(ts) && model_of(ts)
                    == Some(dm@),
                Err(e) => (node_types_spec(schemas_view(resolved@)) is None || model_of(
                    node_types_spec(schemas_view(resolved@))->Some_0,
                ) is None) && e is BuildError,
            },
    {
        let ghost ss = schemas_view(resolved@);
        let mut types: Vec<crate::node::NodeType> = Vec::new();
        let mut i: usize = 0;
        assert(ss.take(0) =~= Seq::<SchemaV>::empty());
        assert(crate::datamodel::node_types_view(types@) =~= Seq::empty());
        while i < resolved.len()
            invariant
                ss == schemas_view(resolved@),
                i <= resolved@.len(),
                node_types_spec(ss.take(i as int)) == Some(crate::datamodel::node_types_view(types@)),
            decreases resolved@.len() - i,
        {
            assert(ss.take(i + 1).drop_last() =~= ss.take(i as int));
            assert(ss.take(i + 1).last() == resolved@[i as int]@);
            match resolved[i].node_type() {
                Ok(t) => {
                    let ghost before = crate::datamodel::node_types_view(types@);
                    let ghost tv = t@;
                    types.push(t);
                    assert(crate::datamodel::node_types_view(types@) =~= before.push(tv));
                },
                Err(e) => {
                    proof {
                        lemma_node_types_prefix(ss, i + 1);
                    }
                    return Err(e);
                },
            }
            i = i + 1;
        }
        assert(ss.take(ss.len() as int) =~= ss);
        Datamodel::from_node_types(types)
    }

    /// The data model that a dictionary's parsed schemas describe: every
    /// schema is indexed by its `id`, each concrete one (whose id does not
    /// begin with an underscore) is resolved, and the node types built from
    /// them.
    pub fn from_yaml(docs: Vec<YamlValue>) -> (r: EBResult<Datamodel>)
        ensures
            match r {
                Ok(dm) => model_from_yaml(docs@) == Some(dm@),
                Err(e) => model_from_yaml(docs@) is None && e is BuildError,
            },
    {
        let resolver = match Resolver::new(docs) {
            Ok(r) => r,
            Err(e) => {
                return Err(e);
            },
        };
        let ghost sch = schemas_by_id(resolver.schemas@);
        let root = String::from_str("root");
        let mut resolved: Vec<SchemaNode> = Vec::new();
        let mut i: usize = 0;
        assert(schemas_view(resolved@) =~= Seq::empty());
        while i < resolver.schemas.len()
            invariant
                sch == schemas_by_id(resolver.schemas@),
                schema_ids(docs@) == Some(sch),
                root@ == "root"@,
                i <= resolver.schemas@.len(),
                resolved_all(sch, i as nat) == Some(schemas_view(resolved@)),
            decreases resolver.schemas@.len() - i,
        {
            let id = &resolver.schemas[i].0;
            let doc = &resolver.schemas[i].1;
            assert(sch[i as int] == (id@, *doc));
            assert(visited_view(Seq::<(String, String)>::empty()) =~= Seq::empty());
            assert(resolver.ctx(id@, *doc, Seq::empty()) == RefCtx {
                schemas: sch,
                doc_id: id@,
                doc: *doc,
                visited: Seq::empty(),
            });
            let abstract_id = if id.as_str().unicode_len() > 0 {
                id.as_str().get_char(0) == '_'
            } else {
                false
            };
            if !abstract_id {
                match resolver.resolve(&root, id, doc) {
                    Ok(n) => {
                        let ghost before = schemas_view(resolved@);
                        let ghost nv = n@;
                        resolved.push(n);
                        assert(schemas_view(resolved@) =~= before.push(nv));
                    },
                    Err(e) => {
                        proof {
                            lemma_resolved_all_none(sch, (i + 1) as nat, sch.len());
                        }
                        return Err(e);
                    },
                }
            }
            i = i + 1;
        }
        Datamodel::from_schemas(&resolved)
    }

    /// The data model that a dictionary's schema sources describe. A source
    /// that does not parse, or holds no document, fails with a parse error.
    pub fn new(schemas: &Vec<String>) -> (r: EBResult<Datamodel>)
        ensures
            match r {
                Ok(dm) => first_documents(strings_view(schemas@)) matches Some(docs)
                    && model_from_yaml(docs) == Some(dm@),
                Err(e) => (first_documents(strings_view(schemas@)) is None && e is ParseError) || (
                first_documents(strings_view(schemas@)) matches Some(docs) && model_from_yaml(docs)
                    is None && e is BuildError),
            },
    {
        let ghost sv = strings_view(schemas@);
        let mut docs: Vec<YamlValue> = Vec::new();
        let mut i: usize = 0;
        assert(sv.take(0) =~= Seq::<Seq<char>>::empty());
        while i < schemas.len()
            invariant
                sv == strings_view(schemas@),
                i <= schemas@.len(),
                first_documents(sv.take(i as int)) == Some(docs@),
            decreases schemas@.len() - i,
        {
            assert(sv.take(i + 1).drop_last() =~= sv.take(i as int));
            assert(sv.take(i + 1).last() == schemas@[i as int]@);
            match load_yaml_documents(schemas[i].as_str()) {
                Ok(mut ds) => {
                    if ds.len() == 0 {
                        proof {
                            lemma_first_documents_prefix(sv, i + 1);
                        }
                        return Err(EBError::ParseError(String::from_str("empty dictionary source")));
                    }
                    let first = ds.swap_remove(0);
                    docs.push(first);
                },
                Err(_) => {
                    proof {
                        lemma_first_documents_prefix(sv, i + 1);
                    }
                    return Err(EBError::ParseError(String::from_str("unparsable dictionary source")));
                },
            }
            i = i + 1;
        }
        assert(sv.take(sv.len() as int) =~= sv);
        Datamodel::from_yaml(docs)
    }
}

} // verus!
