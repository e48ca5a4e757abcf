//! Edge identity: how an edge's end points and optional name become the
//! record that the graph stores and the string key under which it is found.

use vstd::prelude::*;
use vstd::string::*;

verus! {

/// The name under which an edge without a name is filed.
pub const DEFAULT_EDGE_NAME: &'static str = "\x00";

/// The identifier that stands for "no parent" in a compound graph.
pub const GRAPH_NODE: &'static str = "\x00";

/// Separates the parts of an edge key.
pub const EDGE_KEY_DELIM: &'static str = "\x01";

/// `DEFAULT_EDGE_NAME` and `GRAPH_NODE` as a sequence of characters.
pub open spec fn sentinel() -> Seq<char> {
    seq!['\x00']
}

/// `EDGE_KEY_DELIM` as a sequence of characters.
pub open spec fn delim() -> Seq<char> {
    seq!['\x01']
}

/// Identifiers and edge names supplied by callers must keep clear of the two
/// reserved characters, so that they can neither be mistaken for the
/// sentinel nor blur the boundaries inside an edge key.
pub open spec fn legal_id(s: Seq<char>) -> bool {
    !s.contains('\x00') && !s.contains('\x01')
}

/// Whether an optional name is legal: none is, and one that keeps clear of
/// the reserved characters.
pub open spec fn legal_name(name: Option<Seq<char>>) -> bool {
    match name {
        Some(n) => legal_id(n),
        None => true,
    }
}

/// Lexicographic order on strings, character by character by code point; a
/// proper prefix comes first.
pub open spec fn str_lt(a: Seq<char>, b: Seq<char>) -> bool
    decreases a.len(),
{
    if b.len() == 0 {
        false
    } else if a.len() == 0 {
        true
    } else if a[0] != b[0] {
        (a[0] as int) < (b[0] as int)
    } else {
        str_lt(a.drop_first(), b.drop_first())
    }
}

/// An edge as the graph stores it. In an undirected graph `v` is never
/// greater than `w`.
#[derive(Debug)]
pub struct Edge {
    pub v: String,
    pub w: String,
    pub name: Option<String>,
}

/// The mathematical content of an `Edge`.
pub struct EdgeView {
    pub v: Seq<char>,
    pub w: Seq<char>,
    pub name: Option<Seq<char>>,
}

/// The content of an optional name.
pub open spec fn name_view(name: Option<String>) -> Option<Seq<char>> {
    match name {
        Some(n) => Some(n@),
        None => None,
    }
}

impl View for Edge {
    type V = EdgeView;

    open spec fn view(&self) -> EdgeView {
        EdgeView { v: self.v@, w: self.w@, name: name_view(self.name) }
    }
}

impl Clone for Edge {
    fn clone(&self) -> (r: Self)
        ensures
            r == *self,
    {
        Edge { v: self.v.clone(), w: self.w.clone(), name: clone_name(&self.name) }
    }
}

/// A copy of an optional name.
pub fn clone_name(name: &Option<String>) -> (r: Option<String>)
    ensures
        r == *name,
{
    match name {
        Some(n) => Some(n.clone()),
        None => None,
    }
}

/// The end points in stored order: as given in a directed graph, the lesser
/// first in an undirected one.
pub open spec fn canonical_ends(directed: bool, v: Seq<char>, w: Seq<char>) -> (
    Seq<char>,
    Seq<char>,
) {
    if !directed && str_lt(w, v) {
        (w, v)
    } else {
        (v, w)
    }
}

/// The name under which an edge is filed: its own, or the sentinel.
pub open spec fn filed_name(name: Option<Seq<char>>) -> Seq<char> {
    match name {
        Some(n) => n,
        None => sentinel(),
    }
}

/// The key of the edge between `v` and `w` with the given name.
pub open spec fn edge_key(directed: bool, v: Seq<char>, w: Seq<char>, name: Option<Seq<char>>) -> Seq<
    char,
> {
    let ends = canonical_ends(directed, v, w);
    ends.0 + delim() + ends.1 + delim() + filed_name(name)
}

/// The record of the edge between `v` and `w` with the given name.
pub open spec fn edge_record(
    directed: bool,
    v: Seq<char>,
    w: Seq<char>,
    name: Option<Seq<char>>,
) -> EdgeView {
    let ends = canonical_ends(directed, v, w);
    EdgeView { v: ends.0, w: ends.1, name }
}

/// A record is canonical when storing it again gives the same record.
pub open spec fn is_canonical(directed: bool, rec: EdgeView) -> bool {
    directed || !str_lt(rec.w, rec.v)
}

/// `<` on `String`: std orders strings lexicographically by their bytes,
/// which is the order of their characters' code points.
#[verifier::external_body]
fn string_lt(a: &String, b: &String) -> (r: bool)
    ensures
        r == str_lt(a@, b@),
{
    a < b
}

/// `str::contains` with a `char` pattern: whether the character occurs.
#[verifier::external_body]
fn has_char(s: &String, c: char) -> (r: bool)
    ensures
        r == s@.contains(c),
{
    s.contains(c)
}

/// Whether an identifier keeps clear of the reserved characters.
pub fn is_legal_id(s: &String) -> (r: bool)
    ensures
        r == legal_id(s@),
{
    !has_char(s, '\x00') && !has_char(s, '\x01')
}

/// Whether an optional edge name keeps clear of the reserved characters.
pub fn is_legal_name(name: &Option<String>) -> (r: bool)
    ensures
        r == legal_name(name_view(*name)),
{
    match name {
        Some(n) => is_legal_id(n),
        None => true,
    }
}

/// The sentinel contains a reserved character, so no legal identifier equals
/// it.
pub proof fn lemma_legal_not_sentinel(s: Seq<char>)
    requires
        legal_id(s),
    ensures
        s != sentinel(),
{
    if s == sentinel() {
        assert(s[0] == '\x00');
        assert(s.contains('\x00'));
    }
}

/// Of two different strings exactly one is less than the other, and no
/// string is less than itself.
pub proof fn lemma_str_lt_total(a: Seq<char>, b: Seq<char>)
    ensures
        !(str_lt(a, b) && str_lt(b, a)),
        a != b ==> str_lt(a, b) || str_lt(b, a),
        a == b ==> !str_lt(a, b),
    decreases a.len(),
{
    if a.len() > 0 && b.len() > 0 && a[0] == b[0] {
        lemma_str_lt_total(a.drop_first(), b.drop_first());
        if a.drop_first() == b.drop_first() {
            assert(a =~= seq![a[0]] + a.drop_first());
            assert(b =~= seq![b[0]] + b.drop_first());
        }
    } else if a.len() == 0 && b.len() == 0 {
        assert(a =~= b);
    } else if a.len() > 0 && b.len() > 0 {
        assert(a[0] as int != b[0] as int);
    }
}

/// In an undirected graph the two orders of the end points name the same
/// edge: same key, same record.
pub proof fn lemma_undirected_symmetric(v: Seq<char>, w: Seq<char>, name: Option<Seq<char>>)
    ensures
        edge_key(false, v, w, name) == edge_key(false, w, v, name),
        edge_record(false, v, w, name) == edge_record(false, w, v, name),
{
    lemma_str_lt_total(v, w);
}

/// Stored records are canonical, and storing one again changes nothing.
pub proof fn lemma_record_canonical(
    directed: bool,
    v: Seq<char>,
    w: Seq<char>,
    name: Option<Seq<char>>,
)
    ensures
        is_canonical(directed, edge_record(directed, v, w, name)),
        ({
            let rec = edge_record(directed, v, w, name);
            &&& edge_record(directed, rec.v, rec.w, rec.name) == rec
            &&& edge_key(directed, rec.v, rec.w, rec.name) == edge_key(directed, v, w, name)
        }),
{
    lemma_str_lt_total(v, w);
}

/// A string is cut at its first delimiter in one way only.
pub proof fn lemma_split(a: Seq<char>, r: Seq<char>, a2: Seq<char>, r2: Seq<char>)
    requires
        a + delim() + r == a2 + delim() + r2,
        !a.contains('\x01'),
        !a2.contains('\x01'),
    ensures
        a == a2,
        r == r2,
{
    let s = a + delim() + r;
    let s2 = a2 + delim() + r2;
    if a.len() < a2.len() {
        assert(s[a.len() as int] == '\x01');
        assert(s2[a.len() as int] == a2[a.len() as int]);
        assert(a2.contains(a2[a.len() as int]));
    }
    if a2.len() < a.len() {
        assert(s2[a2.len() as int] == '\x01');
        assert(s[a2.len() as int] == a[a2.len() as int]);
        assert(a.contains(a[a2.len() as int]));
    }
    assert forall|i: int| 0 <= i < a.len() implies a[i] == a2[i] by {
        assert(s[i] == a[i]);
        assert(s2[i] == a2[i]);
    }
    assert(a =~= a2);
    assert(s.len() == s2.len());
    assert forall|i: int| 0 <= i < r.len() implies r[i] == r2[i] by {
        assert(s[a.len() + 1 + i] == r[i]);
        assert(s2[a.len() + 1 + i] == r2[i]);
    }
    assert(r =~= r2);
}

/// Two edges between legal identifiers that share a key have the same end
/// points in stored order and are filed under the same name.
pub proof fn lemma_key_parts(
    directed: bool,
    v: Seq<char>,
    w: Seq<char>,
    name: Option<Seq<char>>,
    v2: Seq<char>,
    w2: Seq<char>,
    name2: Option<Seq<char>>,
)
    requires
        edge_key(directed, v, w, name) == edge_key(directed, v2, w2, name2),
        legal_id(v),
        legal_id(w),
        legal_id(v2),
        legal_id(w2),
    ensures
        canonical_ends(directed, v, w) == canonical_ends(directed, v2, w2),
        filed_name(name) == filed_name(name2),
{
    let e = canonical_ends(directed, v, w);
    let e2 = canonical_ends(directed, v2, w2);
    let r = e.1 + delim() + filed_name(name);
    let r2 = e2.1 + delim() + filed_name(name2);
    assert(edge_key(directed, v, w, name) =~= e.0 + delim() + r);
    assert(edge_key(directed, v2, w2, name2) =~= e2.0 + delim() + r2);
    lemma_split(e.0, r, e2.0, r2);
    lemma_split(e.1, filed_name(name), e2.1, filed_name(name2));
}

/// The canonical key of an edge: the end points in stored order and the
/// name, or the sentinel for an edge without one, joined by the delimiter.
pub fn edge_args_to_id(is_directed: &bool, v_: &String, w_: &String, name: &Option<String>) -> (r:
    String)
    ensures
        r@ == edge_key(*is_directed, v_@, w_@, name_view(*name)),
{
    let swap = !*is_directed && string_lt(w_, v_);
    let first = if swap { w_ } else { v_ };
    let second = if swap { v_ } else { w_ };
    proof {
        reveal_strlit("\x01");
        reveal_strlit("\x00");
        assert("\x01"@ =~= delim());
        assert("\x00"@ =~= sentinel());
    }
    let mut key = first.clone();
    key.append(EDGE_KEY_DELIM);
    key.append(second.as_str());
    key.append(EDGE_KEY_DELIM);
    match name {
        Some(n) => key.append(n.as_str()),
        None => key.append(DEFAULT_EDGE_NAME),
    }
    key
}

/// The record under which the edge is stored.
pub fn edge_args_to_obj(is_directed: &bool, v_: &String, w_: &String, name: &Option<String>) -> (r:
    Edge)
    ensures
        r@ == edge_record(*is_directed, v_@, w_@, name_view(*name)),
{
    let swap = !*is_directed && string_lt(w_, v_);
    let first = if swap { w_ } else { v_ };
    let second = if swap { v_ } else { w_ };
    Edge { v: first.clone(), w: second.clone(), name: clone_name(name) }
}

/// The canonical key of a stored record.
pub fn edge_obj_to_id(is_directed: &bool, edge: &Edge) -> (r: String)
    ensures
        r@ == edge_key(*is_directed, edge@.v, edge@.w, edge@.name),
{
    edge_args_to_id(is_directed, &edge.v, &edge.w, &edge.name)
}

} // verus!
