use vstd::prelude::*;
use vstd::string::StringExecFns;
use crypto::digest::Digest;
use crate::text::{chars_of, string_from_chars};

verus! {

/// Longest table name that is used as it stands.
pub const MAX_NAIVE_LEN: usize = 40;

/// Longest abbreviation kept of each part of a hashed table name.
pub const PART_LEN: usize = 10;

/// An edge instance: its label and the ids of its two endpoints.
#[derive(Clone, Debug)]
pub struct Edge {
    pub label: String,
    pub src_id: String,
    pub dst_id: String,
}

/// A directed edge type between two node types.
#[derive(Clone, Debug)]
pub struct EdgeType {
    pub src_label: String,
    pub dst_label: String,
    pub label: String,
    pub name: String,
    pub backref: String,
}

impl Edge {
    pub fn new(label: String, src_id: String, dst_id: String) -> (r: Edge)
        ensures
            r.label == label,
            r.src_id == src_id,
            r.dst_id == dst_id,
    {
        Edge { label, src_id, dst_id }
    }

    /// A copy of the edge.
    pub fn copy(&self) -> (r: Edge)
        ensures
            r == *self,
    {
        Edge {
            label: self.label.clone(),
            src_id: self.src_id.clone(),
            dst_id: self.dst_id.clone(),
        }
    }
}

/// `s` without its underscores.
pub open spec fn strip_underscores(s: Seq<char>) -> Seq<char>
    decreases s.len(),
{
    if s.len() == 0 {
        s
    } else if s.last() == '_' {
        strip_underscores(s.drop_last())
    } else {
        strip_underscores(s.drop_last()).push(s.last())
    }
}

/// Number of characters after the last underscore of `s`.
pub open spec fn fragment_run(s: Seq<char>) -> nat
    decreases s.len(),
{
    if s.len() == 0 {
        0
    } else if s.last() == '_' {
        0
    } else {
        fragment_run(s.drop_last()) + 1
    }
}

/// The first two characters of each underscore-separated fragment of `s`,
/// concatenated.
pub open spec fn fragment_initials(s: Seq<char>) -> Seq<char>
    decreases s.len(),
{
    if s.len() == 0 {
        s
    } else if s.last() == '_' {
        fragment_initials(s.drop_last())
    } else if fragment_run(s.drop_last()) < 2 {
        fragment_initials(s.drop_last()).push(s.last())
    } else {
        fragment_initials(s.drop_last())
    }
}

/// At most the first `k` characters of `s`.
pub open spec fn prefix_of(s: Seq<char>, k: nat) -> Seq<char> {
    if s.len() <= k {
        s
    } else {
        s.take(k as int)
    }
}

/// Lower-case hexadecimal digit of a value below sixteen.
pub open spec fn hex_digit(n: u8) -> char {
    if n < 10 {
        (('0' as u8) + n) as char
    } else {
        (('a' as u8) + (n - 10)) as char
    }
}

/// Two lower-case hexadecimal digits for each byte of `b`.
pub open spec fn hex_of(b: Seq<u8>) -> Seq<char>
    decreases b.len(),
{
    if b.len() == 0 {
        Seq::empty()
    } else {
        hex_of(b.drop_last()).push(hex_digit(b.last() / 16)).push(hex_digit(b.last() % 16))
    }
}

/// `"edge_"` followed by the three parts without underscores.
pub open spec fn naive_tablename(src: Seq<char>, label: Seq<char>, dst: Seq<char>) -> Seq<char> {
    "edge_"@ + strip_underscores(src) + strip_underscores(label) + strip_underscores(dst)
}

/// The shortened name: `"edge_"`, eight hex digits of the digest's first
/// four bytes, `"_"`, and the abbreviated parts.
pub open spec fn hashed_tablename(
    src: Seq<char>,
    label: Seq<char>,
    dst: Seq<char>,
    digest: Seq<u8>,
) -> Seq<char> {
    "edge_"@ + hex_of(digest.take(4)) + "_"@ + prefix_of(fragment_initials(src), 10)
        + prefix_of(fragment_initials(label), 10) + prefix_of(fragment_initials(dst), 10)
}

/// The MD5 digest of the UTF-8 bytes of `text`.
pub uninterp spec fn md5_of(text: Seq<char>) -> Seq<u8>;

/// The relational table name of an edge type.
pub open spec fn edge_tablename(src: Seq<char>, label: Seq<char>, dst: Seq<char>) -> Seq<char> {
    let naive = naive_tablename(src, label, dst);
    if naive.len() <= 40 {
        naive
    } else {
        hashed_tablename(src, label, dst, md5_of(naive))
    }
}

/// A naive name of at most forty characters is the table name; from
/// forty-one characters on, the shortened form built from its digest is.
pub proof fn lemma_tablename_threshold(src: Seq<char>, label: Seq<char>, dst: Seq<char>)
    ensures
        naive_tablename(src, label, dst).len() <= 40 ==> edge_tablename(src, label, dst)
            == naive_tablename(src, label, dst),
        naive_tablename(src, label, dst).len() >= 41 ==> edge_tablename(src, label, dst)
            == hashed_tablename(src, label, dst, md5_of(naive_tablename(src, label, dst))),
{
}

/// Relies on rust-crypto's `Md5` (`Digest::input`, `Digest::result`): a
/// sixteen-byte digest of the text's UTF-8 bytes.
#[verifier::external_body]
fn md5_digest(text: &str) -> (r: Vec<u8>)
    ensures
        r@ == md5_of(text@),
        r@.len() == 16,
{
    let mut digest = [0u8; 16];
    let mut hasher = crypto::md5::Md5::new();
    hasher.input(text.as_bytes());
    hasher.result(&mut digest);
    digest.to_vec()
}

/// `s` without its underscores.
pub fn strip_underscores_of(s: &str) -> (r: String)
    ensures
        r@ == strip_underscores(s@),
{
    let cs = chars_of(s);
    let mut out: Vec<char> = Vec::new();
    let mut i: usize = 0;
    while i < cs.len()
        invariant
            cs@ == s@,
            i <= cs@.len(),
            out@ == strip_underscores(s@.take(i as int)),
        decreases cs@.len() - i,
    {
        let c = cs[i];
        assert(s@.take(i + 1).drop_last() =~= s@.take(i as int));
        if c != '_' {
            out.push(c);
        }
        i = i + 1;
    }
    assert(s@.take(cs@.len() as int) =~= s@);
    string_from_chars(&out)
}

/// At most the first `k` characters of `s`.
pub fn prefix(s: String, k: usize) -> (r: String)
    ensures
        r@ == prefix_of(s@, k as nat),
{
    let cs = chars_of(s.as_str());
    if cs.len() <= k {
        s
    } else {
        let mut out: Vec<char> = Vec::new();
        let mut i: usize = 0;
        while i < k
            invariant
                cs@ == s@,
                k < cs@.len(),
                i <= k,
                out@ == s@.take(i as int),
            decreases k - i,
        {
            out.push(cs[i]);
            i = i + 1;
            assert(out@ =~= s@.take(i as int));
        }
        string_from_chars(&out)
    }
}

/// The first two characters of each underscore-separated fragment of `s`.
pub fn fragment_initials_of(s: &str) -> (r: String)
    ensures
        r@ == fragment_initials(s@),
{
    let cs = chars_of(s);
    let mut out: Vec<char> = Vec::new();
    let mut run: usize = 0;
    let mut i: usize = 0;
    while i < cs.len()
        invariant
            cs@ == s@,
            i <= cs@.len(),
            out@ == fragment_initials(s@.take(i as int)),
            run as nat == fragment_run(s@.take(i as int)),
            run <= i,
        decreases cs@.len() - i,
    {
        let c = cs[i];
        assert(s@.take(i + 1).drop_last() =~= s@.take(i as int));
        if c == '_' {
            run = 0;
        } else {
            if run < 2 {
                out.push(c);
            }
            run = run + 1;
        }
        i = i + 1;
    }
    assert(s@.take(cs@.len() as int) =~= s@);
    string_from_chars(&out)
}

/// Lower-case hexadecimal digit of a value below sixteen.
pub fn hex_digit_of(n: u8) -> (r: char)
    requires
        n < 16,
    ensures
        r == hex_digit(n),
{
    if n < 10 {
        (('0' as u8) + n) as char
    } else {
        (('a' as u8) + (n - 10)) as char
    }
}

/// Two lower-case hexadecimal digits for each byte of `b`.
pub fn hex_string(b: &[u8]) -> (r: String)
    ensures
        r@ == hex_of(b@),
{
    let mut out: Vec<char> = Vec::new();
    let mut i: usize = 0;
    while i < b.len()
        invariant
            i <= b@.len(),
            out@ == hex_of(b@.take(i as int)),
        decreases b@.len() - i,
    {
        let x = b[i];
        assert(b@.take(i + 1).drop_last() =~= b@.take(i as int));
        out.push(hex_digit_of(x / 16));
        out.push(hex_digit_of(x % 16));
        i = i + 1;
    }
    assert(b@.take(b@.len() as int) =~= b@);
    string_from_chars(&out)
}

impl EdgeType {
    /// `"edge_"` followed by the source label, the edge label and the
    /// destination label, each without underscores.
    pub fn naive_tablename(&self) -> (r: String)
        ensures
            r@ == naive_tablename(self.src_label@, self.label@, self.dst_label@),
    {
        let name = String::from_str("edge_");
        let name = name.concat(strip_underscores_of(self.src_label.as_str()).as_str());
        let name = name.concat(strip_underscores_of(self.label.as_str()).as_str());
        let name = name.concat(strip_underscores_of(self.dst_label.as_str()).as_str());
        name
    }

    /// The shortened table name built from `digest`, the MD5 digest of the
    /// naive name.
    pub fn hashed_tablename(&self, digest: &[u8]) -> (r: String)
        requires
            digest@.len() >= 4,
        ensures
            r@ == hashed_tablename(self.src_label@, self.label@, self.dst_label@, digest@),
    {
        let head = slice_take(digest, 4);
        let name = String::from_str("edge_");
        let name = name.concat(hex_string(head.as_slice()).as_str());
        let name = name.concat("_");
        let name = name.concat(
            prefix(fragment_initials_of(self.src_label.as_str()), PART_LEN).as_str(),
        );
        let name = name.concat(prefix(fragment_initials_of(self.label.as_str()), PART_LEN).as_str());
        let name = name.concat(
            prefix(fragment_initials_of(self.dst_label.as_str()), PART_LEN).as_str(),
        );
        name
    }

    /// Generate a name for the edge table.
    ///
    /// Table names are limited in length, so a long name is shortened: the
    /// first eight hex digits of a hash of the full name keep names apart,
    /// followed by the first two characters of each word of each part, ten
    /// characters at most per part.
    pub fn get_tablename(&self) -> (r: String)
        ensures
            r@ == edge_tablename(self.src_label@, self.label@, self.dst_label@),
    {
        let naive = self.naive_tablename();
        let n = naive.as_str().unicode_len();
        if n <= MAX_NAIVE_LEN {
            naive
        } else {
            let digest = md5_digest(naive.as_str());
            self.hashed_tablename(digest.as_slice())
        }
    }
}

/// The first `k` bytes of `b`.
fn slice_take(b: &[u8], k: usize) -> (r: Vec<u8>)
    requires
        k <= b@.len(),
    ensures
        r@ == b@.take(k as int),
{
    let mut out: Vec<u8> = Vec::new();
    let mut i: usize = 0;
    while i < k
        invariant
            k <= b@.len(),
            i <= k,
            out@ == b@.take(i as int),
        decreases k - i,
    {
        out.push(b[i]);
        i = i + 1;
        assert(out@ =~= b@.take(i as int));
    }
    out
}

} // verus!
