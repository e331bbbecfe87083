use vstd::prelude::*;
use crate::text::str_eq;
use crate::assoc::{find_key, kv_get, kv_insert, lemma_find_key, lemma_find_key_prefix};

verus! {

broadcast use vstd::std_specs::vec::group_vec_axioms;

#[verifier::external_type_specification]
#[verifier::external_body]
pub struct ExJsonValue(serde_json::Value);

/// Relies on serde_json's derived `Clone` for `Value`: a deep copy, equal to
/// the value copied.
pub assume_specification[ <serde_json::Value as Clone>::clone ](v: &serde_json::Value) -> (r:
    serde_json::Value)
    ensures
        r == *v,
;

/// A value stored under a key of a [`Doc`].
#[derive(Debug)]
pub enum DocValue {
    /// An explicit null, distinct from an absent key.
    Null,
    /// A scalar or composite value as loaded from the source.
    Json(serde_json::Value),
    /// A string written by the library itself (an identifier).
    Text(String),
    /// A nested document.
    Nested(Doc),
    /// An ordered list of nested documents.
    List(Vec<Doc>),
}

/// An ordered mapping from string keys to values: the output shape of
/// denormalization. Entries keep their insertion order.
#[derive(Debug)]
pub struct Doc {
    pub entries: Vec<(String, DocValue)>,
}

/// The mathematical value of a [`DocValue`].
pub ghost enum DocVal {
    Null,
    Json(serde_json::Value),
    Text(Seq<char>),
    Nested(Seq<(Seq<char>, DocVal)>),
    List(Seq<Seq<(Seq<char>, DocVal)>>),
}

/// The mathematical value of a [`Doc`]: its entries in order.
pub type DocV = Seq<(Seq<char>, DocVal)>;

impl DocValue {
    pub open spec fn view(&self) -> DocVal
        decreases self,
    {
        match self {
            DocValue::Null => DocVal::Null,
            DocValue::Json(v) => DocVal::Json(*v),
            DocValue::Text(s) => DocVal::Text(s@),
            DocValue::Nested(d) => DocVal::Nested(d.view()),
            DocValue::List(ds) => DocVal::List(docs_view(ds@)),
        }
    }
}

/// The values of a sequence of documents.
pub open spec fn docs_view(ds: Seq<Doc>) -> Seq<DocV>
    decreases ds,
{
    Seq::new(
        ds.len(),
        |i: int|
            if 0 <= i < ds.len() {
                ds[i].view()
            } else {
                arbitrary()
            },
    )
}

impl Doc {
    pub open spec fn view(&self) -> DocV
        decreases self,
    {
        Seq::new(
            self.entries@.len(),
            |i: int|
                if 0 <= i < self.entries@.len() {
                    (self.entries@[i].0@, self.entries@[i].1.view())
                } else {
                    arbitrary()
                },
        )
    }
}

/// `d` with `sub` appended to the list under `k`; a key that holds no list
/// is set to a list of `sub` alone.
pub open spec fn doc_append(d: DocV, k: Seq<char>, sub: DocV) -> DocV {
    match kv_get(d, k) {
        Some(DocVal::List(l)) => kv_insert(d, k, DocVal::List(l.push(sub))),
        _ => kv_insert(d, k, DocVal::List(seq![sub])),
    }
}

impl DocValue {
    /// A deep copy.
    pub fn copy(&self) -> (r: DocValue)
        ensures
            r@ == self@,
        decreases self,
    {
        match self {
            DocValue::Null => DocValue::Null,
            DocValue::Json(v) => DocValue::Json(v.clone()),
            DocValue::Text(s) => DocValue::Text(s.clone()),
            DocValue::Nested(d) => DocValue::Nested(d.copy()),
            DocValue::List(ds) => {
                let mut out: Vec<Doc> = Vec::new();
                let mut i: usize = 0;
                while i < ds.len()
                    invariant
                        *self is List,
                        self->List_0 == *ds,
                        i <= ds@.len(),
                        out@.len() == i,
                        forall|j: int| 0 <= j < i ==> out@[j]@ == ds@[j]@,
                    decreases ds@.len() - i,
                {
                    proof {
                        vstd::std_specs::vec::axiom_vec_index_decreases(*ds, i as int);
                        assert(decreases_to!(*self => self->List_0));
                    }
                    out.push(ds[i].copy());
                    i = i + 1;
                }
                assert(docs_view(out@) =~= docs_view(ds@));
                DocValue::List(out)
            },
        }
    }
}

/// The list value of `l`, which holds one document whose value is `sv`.
fn list_of_one(l: Vec<Doc>, Ghost(sv): Ghost<DocV>) -> (r: DocValue)
    requires
        l@.len() == 1,
        l@[0]@ == sv,
    ensures
        r@ == DocVal::List(seq![sv]),
{
    assert(docs_view(l@) =~= seq![sv]);
    DocValue::List(l)
}

impl Doc {
    /// An empty document.
    pub fn new() -> (r: Doc)
        ensures
            r@ == Seq::<(Seq<char>, DocVal)>::empty(),
    {
        let r = Doc { entries: Vec::new() };
        assert(r@ =~= Seq::<(Seq<char>, DocVal)>::empty());
        r
    }

    /// Number of entries.
    pub fn len(&self) -> (r: usize)
        ensures
            r == self@.len(),
    {
        self.entries.len()
    }

    /// A deep copy.
    pub fn copy(&self) -> (r: Doc)
        ensures
            r@ == self@,
        decreases self,
    {
        let mut out: Vec<(String, DocValue)> = Vec::new();
        let mut i: usize = 0;
        while i < self.entries.len()
            invariant
                i <= self.entries@.len(),
                out@.len() == i,
                forall|j: int|
                    0 <= j < i ==> out@[j].0@ == self.entries@[j].0@ && out@[j].1@
                        == self.entries@[j].1@,
            decreases self.entries@.len() - i,
        {
            let k = self.entries[i].0.clone();
            let v = self.entries[i].1.copy();
            out.push((k, v));
            i = i + 1;
        }
        let r = Doc { entries: out };
        assert(r@ =~= self@);
        r
    }

    /// Position of the first entry under `key`.
    pub fn position(&self, key: &str) -> (r: Option<usize>)
        ensures
            match r {
                Some(i) => i < self@.len() && find_key(self@, key@) == i as int,
                None => find_key(self@, key@) == -1,
            },
    {
        let mut i: usize = 0;
        while i < self.entries.len()
            invariant
                i <= self.entries@.len(),
                find_key(self@.take(i as int), key@) == -1,
            decreases self.entries@.len() - i,
        {
            assert(self@.take(i + 1).drop_last() =~= self@.take(i as int));
            if str_eq(self.entries[i].0.as_str(), key) {
                proof {
                    lemma_find_key_prefix(self@, i + 1, key@);
                }
                assert(self@.len() == self.entries@.len());
                return Some(i);
            }
            i = i + 1;
        }
        assert(self@.take(self@.len() as int) =~= self@);
        None
    }

    /// The value under `key`.
    pub fn get(&self, key: &str) -> (r: Option<&DocValue>)
        ensures
            match r {
                Some(v) => kv_get(self@, key@) == Some(v@),
                None => kv_get(self@, key@) == None::<DocVal>,
            },
    {
        match self.position(key) {
            Some(i) => {
                assert(self@[i as int].1 == self.entries@[i as int].1@);
                Some(&self.entries[i].1)
            },
            None => None,
        }
    }

    /// Whether some entry is under `key`.
    pub fn contains_key(&self, key: &str) -> (r: bool)
        ensures
            r == (kv_get(self@, key@) is Some),
    {
        self.position(key).is_some()
    }

    /// Set `key` to `value`, in place if the key is there, else at the end.
    pub fn insert(&mut self, key: String, value: DocValue)
        ensures
            final(self)@ == kv_insert(old(self)@, key@, value@),
    {
        match self.position(key.as_str()) {
            Some(i) => {
                let ghost kv = key@;
                let ghost vv = value@;
                let mut entry = (key, value);
                self.entries.set_and_swap(i, &mut entry);
                assert(self@ =~= kv_insert(old(self)@, kv, vv));
            },
            None => {
                self.entries.push((key, value));
                assert(self@ =~= kv_insert(old(self)@, key@, value@));
            },
        }
    }

    /// Append `sub` to the list under `key`; a key that holds no list is set
    /// to a list of `sub` alone.
    pub fn append_to_list(&mut self, key: String, sub: Doc)
        ensures
            final(self)@ == doc_append(old(self)@, key@, sub@),
    {
        match self.position(key.as_str()) {
            Some(i) => {
                let ghost kv = key@;
                let ghost sv = sub@;
                let mut entry = (key, DocValue::Null);
                self.entries.set_and_swap(i, &mut entry);
                let (k, old_value) = entry;
                proof {
                    lemma_find_key(old(self)@, kv);
                    assert(old(self)@[i as int] == (k@, old_value@));
                }
                let ghost expected = match old_value@ {
                    DocVal::List(l) => DocVal::List(l.push(sv)),
                    _ => DocVal::List(seq![sv]),
                };
                let value = match old_value {
                    DocValue::List(mut l) => {
                        let ghost old_l = l@;
                        l.push(sub);
                        assert(docs_view(l@) =~= docs_view(old_l).push(sv));
                        DocValue::List(l)
                    },
                    _ => {
                        let mut l: Vec<Doc> = Vec::new();
                        l.push(sub);
                        list_of_one(l, Ghost(sv))
                    },
                };
                assert(value@ == expected);
                let mut entry2 = (k, value);
                self.entries.set_and_swap(i, &mut entry2);
                assert(self@ =~= doc_append(old(self)@, kv, sv));
            },
            None => {
                let ghost sv = sub@;
                let mut l: Vec<Doc> = Vec::new();
                l.push(sub);
                let nv = list_of_one(l, Ghost(sv));
                self.entries.push((key, nv));
                assert(self@ =~= doc_append(old(self)@, key@, sv));
            },
        }
    }
}

} // verus!
