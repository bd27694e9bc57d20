//! Codec between flat translation keys and hierarchical catalog documents.
//!
//! A translation key is one string: each structural path segment preceded by
//! `.`, then one space, then the leaf content. Segments are non-empty and hold
//! neither `.` nor a space; the content after the first space is arbitrary.
//! Encoding splits keys along that convention and builds a document tree;
//! decoding walks a tree and rebuilds the keys. The two directions are mutual
//! inverses on documents that encoding produces.
use vstd::prelude::*;
use vstd::string::*;

use crate::strmap::{
    alist_has_key, alist_map, alist_unique, lemma_alist_has_key_insert, lemma_alist_insert_fresh,
    lemma_alist_map_concat, pairs_view, strs_view, StrMap,
};

verus! {

broadcast use {
    vstd::seq::axiom_seq_index_decreases,
    vstd::std_specs::vec::axiom_vec_decreases_to_view,
    vstd::std_specs::vec::axiom_vec_index_decreases,
};

/// The separator written before the leaf content.
pub open spec fn sp() -> Seq<char> {
    seq![' ']
}

/// The separator written before each structural segment.
pub open spec fn dot() -> Seq<char> {
    seq!['.']
}

/// A structural path segment: non-empty, holding neither separator.
pub open spec fn valid_seg(s: Seq<char>) -> bool {
    s.len() > 0 && !s.contains('.') && !s.contains(' ')
}

/// Every segment of the path is a structural segment.
pub open spec fn valid_path(segs: Seq<Seq<char>>) -> bool {
    forall|i: int| 0 <= i < segs.len() ==> valid_seg(#[trigger] segs[i])
}

/// The prefix of a key: each segment preceded by a dot.
pub open spec fn join_segs(segs: Seq<Seq<char>>) -> Seq<char>
    decreases segs.len(),
{
    if segs.len() == 0 {
        Seq::empty()
    } else {
        dot() + segs.first() + join_segs(segs.drop_first())
    }
}

/// The flat key that addresses a leaf: the joined path, a space, the content.
pub open spec fn key_of(segs: Seq<Seq<char>>, content: Seq<char>) -> Seq<char> {
    join_segs(segs) + sp() + content
}

/// The least position at or after `from` holding `c`, or the length if none.
pub open spec fn find_from(p: Seq<char>, c: char, from: int) -> int
    decreases p.len() - from,
{
    if from < 0 || from >= p.len() {
        p.len() as int
    } else if p[from] == c {
        from
    } else {
        find_from(p, c, from + 1)
    }
}

pub proof fn lemma_find_from(p: Seq<char>, c: char, from: int)
    requires
        0 <= from <= p.len(),
    ensures
        from <= find_from(p, c, from) <= p.len(),
        find_from(p, c, from) < p.len() ==> p[find_from(p, c, from)] == c,
        forall|i: int| from <= i < find_from(p, c, from) ==> p[i] != c,
    decreases p.len() - from,
{
    if from < p.len() && p[from] != c {
        lemma_find_from(p, c, from + 1);
    }
}

/// Splitting a prefix back into its segments, reading from position `i`:
/// a dot, then a segment up to the next dot, repeated to the end.
pub open spec fn split_prefix_at(p: Seq<char>, i: int) -> Option<Seq<Seq<char>>>
    decreases p.len() - i,
    via split_prefix_at_dec
{
    if i < 0 || i >= p.len() {
        Some(Seq::empty())
    } else if p[i] != '.' {
        None
    } else {
        let end = find_from(p, '.', i + 1);
        let seg = p.subrange(i + 1, end);
        if seg.len() == 0 || seg.contains(' ') {
            None
        } else {
            match split_prefix_at(p, end) {
                Some(rest) => Some(seq![seg] + rest),
                None => None,
            }
        }
    }
}

#[via_fn]
proof fn split_prefix_at_dec(p: Seq<char>, i: int) {
    if 0 <= i < p.len() {
        lemma_find_from(p, '.', i + 1);
    }
}

/// A parsed key: its structural segments and its content, or nothing when the
/// string does not follow the key convention.
pub open spec fn parse_key(k: Seq<char>) -> Option<(Seq<Seq<char>>, Seq<char>)> {
    let si = find_from(k, ' ', 0);
    if si >= k.len() {
        None
    } else {
        match split_prefix_at(k.subrange(0, si), 0) {
            Some(segs) => Some((segs, k.subrange(si + 1, k.len() as int))),
            None => None,
        }
    }
}

/// Splitting is sound: the segments it returns are structural and join back
/// to exactly the text that was split.
pub proof fn lemma_split_sound(p: Seq<char>, i: int)
    requires
        0 <= i <= p.len(),
        split_prefix_at(p, i) is Some,
    ensures
        valid_path(split_prefix_at(p, i)->Some_0),
        join_segs(split_prefix_at(p, i)->Some_0) == p.subrange(i, p.len() as int),
    decreases p.len() - i,
{
    let segs = split_prefix_at(p, i)->Some_0;
    if i >= p.len() {
        assert(segs =~= Seq::<Seq<char>>::empty());
        assert(join_segs(segs) =~= p.subrange(i, p.len() as int));
    } else {
        let end = find_from(p, '.', i + 1);
        lemma_find_from(p, '.', i + 1);
        let seg = p.subrange(i + 1, end);
        let rest = split_prefix_at(p, end)->Some_0;
        lemma_split_sound(p, end);
        assert(!seg.contains('.')) by {
            assert forall|j: int| 0 <= j < seg.len() implies seg[j] != '.' by {
                assert(seg[j] == p[i + 1 + j]);
            }
            if seg.contains('.') {
                let j = choose|j: int| 0 <= j < seg.len() && seg[j] == '.';
            }
        }
        assert(valid_seg(seg));
        assert(segs == seq![seg] + rest);
        assert(segs.first() == seg);
        assert(segs.drop_first() =~= rest);
        assert forall|j: int| 0 <= j < segs.len() implies valid_seg(#[trigger] segs[j]) by {
            if j > 0 {
                assert(segs[j] == rest[j - 1]);
            }
        }
        assert(join_segs(segs) == dot() + seg + join_segs(rest));
        assert(join_segs(rest) == p.subrange(end, p.len() as int));
        assert(join_segs(segs) =~= p.subrange(i, p.len() as int));
    }
}

/// Parsing is sound: segments are structural and the parts rebuild the key.
pub proof fn lemma_parse_sound(k: Seq<char>)
    requires
        parse_key(k) is Some,
    ensures
        valid_path(parse_key(k)->Some_0.0),
        key_of(parse_key(k)->Some_0.0, parse_key(k)->Some_0.1) == k,
{
    let si = find_from(k, ' ', 0);
    lemma_find_from(k, ' ', 0);
    let p = k.subrange(0, si);
    lemma_split_sound(p, 0);
    let segs = parse_key(k)->Some_0.0;
    let content = parse_key(k)->Some_0.1;
    assert(join_segs(segs) == p.subrange(0, p.len() as int));
    assert(join_segs(segs) =~= p);
    assert(key_of(segs, content) =~= k);
}


/// Why encoding or decoding a catalog failed.
#[derive(Clone, Copy, Debug, PartialEq, Eq, Structural)]
pub enum CodecError {
    /// An incoming key does not follow the key convention.
    MalformedKey,
    /// Two keys address conflicting shapes at the same path.
    PathConflict,
    /// The document holds a value that is neither a mapping nor a string.
    NonLeafScalar,
}

/// A catalog document: a tree whose inner nodes are insertion-ordered
/// mappings and whose leaves are translated strings. `Scalar` stands for any
/// other value a catalog file may hold (a number, a boolean, a null, a list),
/// which no translation key can address.
#[derive(Debug, PartialEq, Eq)]
pub enum Doc {
    Leaf(String),
    Node(Vec<(String, Doc)>),
    Scalar,
}

/// The mathematical shape of a document, over character sequences.
pub enum GDoc {
    Leaf(Seq<char>),
    Node(Seq<(Seq<char>, GDoc)>),
    Scalar,
}

/// The shape behind a document value.
pub open spec fn dv(d: Doc) -> GDoc
    decreases d, 0int,
{
    match d {
        Doc::Leaf(s) => GDoc::Leaf(s@),
        Doc::Scalar => GDoc::Scalar,
        Doc::Node(kids) => GDoc::Node(dv_kids(kids@, 0)),
    }
}

/// The shapes behind the children of a document node, from position `i` on.
pub open spec fn dv_kids(kids: Seq<(String, Doc)>, i: int) -> Seq<(Seq<char>, GDoc)>
    decreases kids, kids.len() - i,
{
    if i < 0 || i >= kids.len() {
        Seq::empty()
    } else {
        seq![(kids[i].0@, dv(kids[i].1))] + dv_kids(kids, i + 1)
    }
}

/// The document holds only mappings and string leaves.
pub open spec fn no_scalar(g: GDoc) -> bool
    decreases g, 0int,
{
    match g {
        GDoc::Leaf(_) => true,
        GDoc::Scalar => false,
        GDoc::Node(kids) => no_scalar_kids(kids, 0),
    }
}

pub open spec fn no_scalar_kids(kids: Seq<(Seq<char>, GDoc)>, i: int) -> bool
    decreases kids, kids.len() - i,
{
    if i < 0 || i >= kids.len() {
        true
    } else {
        no_scalar(kids[i].1) && no_scalar_kids(kids, i + 1)
    }
}

/// Child entries re-addressed from the parent: a dot and the child's own name
/// go in front of each key.
pub open spec fn prefixed(k: Seq<char>, es: Seq<(Seq<char>, Seq<char>)>) -> Seq<
    (Seq<char>, Seq<char>),
> {
    es.map_values(|e: (Seq<char>, Seq<char>)| (dot() + k + e.0, e.1))
}

/// The flat entries a document describes, one per leaf, in walk order. This
/// is the decode direction of the codec.
pub open spec fn entries_of(g: GDoc) -> Seq<(Seq<char>, Seq<char>)>
    decreases g, 0int, 0int,
{
    match g {
        GDoc::Node(kids) => entries_of_kids(kids, 0),
        _ => Seq::empty(),
    }
}

pub open spec fn entries_of_kids(kids: Seq<(Seq<char>, GDoc)>, i: int) -> Seq<
    (Seq<char>, Seq<char>),
>
    decreases kids, kids.len() - i, 1int,
{
    if i < 0 || i >= kids.len() {
        Seq::empty()
    } else {
        kid_entries(kids[i]) + entries_of_kids(kids, i + 1)
    }
}

/// The flat entries one named child contributes to its parent.
pub open spec fn kid_entries(kid: (Seq<char>, GDoc)) -> Seq<(Seq<char>, Seq<char>)>
    decreases kid, 0int, 0int,
{
    match kid.1 {
        GDoc::Leaf(v) => seq![(sp() + kid.0, v)],
        GDoc::Node(_) => prefixed(kid.0, entries_of(kid.1)),
        GDoc::Scalar => Seq::empty(),
    }
}

/// The chain of single-child mappings that carries one new leaf down a path.
pub open spec fn make_node(path: Seq<Seq<char>>, v: Seq<char>) -> GDoc
    decreases path.len(),
{
    if path.len() == 0 {
        GDoc::Leaf(v)
    } else {
        GDoc::Node(seq![(path.first(), make_node(path.drop_first(), v))])
    }
}

/// The first position at or after `i` whose child bears the name `k`.
pub open spec fn kid_index(kids: Seq<(Seq<char>, GDoc)>, k: Seq<char>, i: int) -> Option<int>
    decreases kids.len() - i,
{
    if i < 0 || i >= kids.len() {
        None
    } else if kids[i].0 == k {
        Some(i)
    } else {
        kid_index(kids, k, i + 1)
    }
}

pub proof fn lemma_kid_index(kids: Seq<(Seq<char>, GDoc)>, k: Seq<char>, i: int)
    requires
        0 <= i <= kids.len(),
    ensures
        match kid_index(kids, k, i) {
            Some(j) => i <= j < kids.len() && kids[j].0 == k,
            None => forall|t: int| i <= t < kids.len() ==> kids[t].0 != k,
        },
    decreases kids.len() - i,
{
    if i < kids.len() && kids[i].0 != k {
        lemma_kid_index(kids, k, i + 1);
    }
}

/// Inserting one new leaf along `path` (segments, then the content name).
/// Walks existing mappings, creates missing ones, and refuses a path that
/// meets an occupied name or a non-mapping node.
pub open spec fn spec_insert(g: GDoc, path: Seq<Seq<char>>, v: Seq<char>) -> Option<GDoc>
    decreases path.len(),
{
    match g {
        GDoc::Node(kids) => {
            if path.len() == 0 {
                None
            } else {
                match kid_index(kids, path.first(), 0) {
                    None => Some(
                        GDoc::Node(kids.push((path.first(), make_node(path.drop_first(), v)))),
                    ),
                    Some(j) => {
                        if path.len() == 1 {
                            None
                        } else {
                            match kids[j].1 {
                                GDoc::Node(_) => match spec_insert(
                                    kids[j].1,
                                    path.drop_first(),
                                    v,
                                ) {
                                    Some(g2) => Some(
                                        GDoc::Node(kids.update(j, (path.first(), g2))),
                                    ),
                                    None => None,
                                },
                                _ => None,
                            }
                        }
                    },
                }
            }
        },
        _ => None,
    }
}

/// Encoding a list of entries from position `i` on, into the tree built so
/// far: parse each key, insert each leaf, stop at the first failure.
pub open spec fn spec_encode_from(
    entries: Seq<(Seq<char>, Seq<char>)>,
    i: int,
    g: GDoc,
) -> Result<GDoc, CodecError>
    decreases entries.len() - i,
{
    if i < 0 || i >= entries.len() {
        Ok(g)
    } else {
        match parse_key(entries[i].0) {
            None => Err(CodecError::MalformedKey),
            Some(pc) => match spec_insert(g, pc.0.push(pc.1), entries[i].1) {
                None => Err(CodecError::PathConflict),
                Some(g2) => spec_encode_from(entries, i + 1, g2),
            },
        }
    }
}

/// The document tree a list of entries encodes to, or the first failure.
pub open spec fn spec_encode(entries: Seq<(Seq<char>, Seq<char>)>) -> Result<GDoc, CodecError> {
    spec_encode_from(entries, 0, GDoc::Node(Seq::empty()))
}


/// Children equal from position `i` on contribute equal entries.
proof fn lemma_entries_congruent(a: Seq<(Seq<char>, GDoc)>, b: Seq<(Seq<char>, GDoc)>, i: int)
    requires
        a.len() == b.len(),
        forall|t: int| i <= t < a.len() ==> a[t] == b[t],
    ensures
        entries_of_kids(a, i) == entries_of_kids(b, i),
        no_scalar_kids(a, i) == no_scalar_kids(b, i),
    decreases a.len() - i,
{
    if 0 <= i < a.len() {
        lemma_entries_congruent(a, b, i + 1);
    }
}

/// A child appended at the end appends its entries at the end.
proof fn lemma_entries_push(kids: Seq<(Seq<char>, GDoc)>, x: (Seq<char>, GDoc), i: int)
    requires
        0 <= i <= kids.len(),
    ensures
        entries_of_kids(kids.push(x), i) == entries_of_kids(kids, i) + kid_entries(x),
        no_scalar_kids(kids.push(x), i) == (no_scalar_kids(kids, i) && no_scalar(x.1)),
    decreases kids.len() - i,
{
    let ks = kids.push(x);
    if i == kids.len() {
        assert(ks[i] == x);
        assert(entries_of_kids(ks, i) == kid_entries(x) + entries_of_kids(ks, i + 1));
        assert(entries_of_kids(ks, i + 1) =~= Seq::<(Seq<char>, Seq<char>)>::empty());
        assert(entries_of_kids(ks, i) =~= entries_of_kids(kids, i) + kid_entries(x));
        assert(no_scalar_kids(ks, i + 1));
        assert(no_scalar_kids(ks, i) == no_scalar(x.1));
    } else {
        lemma_entries_push(kids, x, i + 1);
        assert(ks[i] == kids[i]);
        assert(entries_of_kids(ks, i) =~= entries_of_kids(kids, i) + kid_entries(x));
    }
}

/// The chain built for one new leaf contributes exactly the one entry whose
/// key joins the whole path.
proof fn lemma_chain_entries(path: Seq<Seq<char>>, v: Seq<char>)
    requires
        path.len() >= 1,
    ensures
        kid_entries((path.first(), make_node(path.drop_first(), v))) == seq![
            (key_of(path.drop_last(), path.last()), v),
        ],
        no_scalar(make_node(path.drop_first(), v)),
    decreases path.len(),
{
    let rest = path.drop_first();
    if path.len() == 1 {
        assert(make_node(rest, v) == GDoc::Leaf(v));
        assert(path.drop_last() =~= Seq::<Seq<char>>::empty());
        assert(key_of(path.drop_last(), path.last()) =~= sp() + path.first());
        assert(kid_entries((path.first(), GDoc::Leaf(v))) == seq![(sp() + path.first(), v)]);
        assert(seq![(sp() + path.first(), v)] =~= seq![
            (key_of(path.drop_last(), path.last()), v),
        ]);
    } else {
        lemma_chain_entries(rest, v);
        let sub = make_node(rest, v);
        let subsub = make_node(rest.drop_first(), v);
        assert(sub == GDoc::Node(seq![(rest.first(), subsub)]));
        let inner = seq![(rest.first(), subsub)];
        assert(entries_of_kids(inner, 1) =~= Seq::<(Seq<char>, Seq<char>)>::empty());
        assert(entries_of(sub) =~= kid_entries((rest.first(), subsub)));
        assert(entries_of(sub) == seq![(key_of(rest.drop_last(), rest.last()), v)]);
        assert(no_scalar_kids(inner, 1));
        assert(no_scalar(sub));
        let skey = key_of(rest.drop_last(), rest.last());
        assert(kid_entries((path.first(), sub)) == prefixed(path.first(), entries_of(sub)));
        assert(prefixed(path.first(), seq![(skey, v)]) =~= seq![
            (dot() + path.first() + skey, v),
        ]);
        assert(path.drop_last().drop_first() =~= rest.drop_last());
        assert(path.drop_last().len() >= 1);
        assert(path.drop_last().first() == path.first());
        assert(join_segs(path.drop_last()) == dot() + path.first() + join_segs(rest.drop_last()));
        assert(path.last() == rest.last());
        assert(dot() + path.first() + skey =~= key_of(path.drop_last(), path.last()));
    }
}

/// Re-addressing from the parent distributes over inserting one entry.
proof fn lemma_prefixed_insert(
    k: Seq<char>,
    es: Seq<(Seq<char>, Seq<char>)>,
    q: int,
    e: (Seq<char>, Seq<char>),
)
    requires
        0 <= q <= es.len(),
    ensures
        prefixed(k, es.insert(q, e)) == prefixed(k, es).insert(q, (dot() + k + e.0, e.1)),
{
    assert(prefixed(k, es.insert(q, e)) =~= prefixed(k, es).insert(q, (dot() + k + e.0, e.1)));
}

/// Inserting into the middle part of a concatenation inserts into the whole.
proof fn lemma_concat_insert(
    a: Seq<(Seq<char>, Seq<char>)>,
    b: Seq<(Seq<char>, Seq<char>)>,
    c: Seq<(Seq<char>, Seq<char>)>,
    q: int,
    e: (Seq<char>, Seq<char>),
)
    requires
        0 <= q <= b.len(),
    ensures
        a + b.insert(q, e) + c == (a + b + c).insert(a.len() + q, e),
{
    assert(a + b.insert(q, e) + c =~= (a + b + c).insert(a.len() + q, e));
}

/// Replacing the child at position `j` replaces its entries in place and
/// leaves the others where they stood.
proof fn lemma_entries_update_seg(
    kids: Seq<(Seq<char>, GDoc)>,
    j: int,
    x: (Seq<char>, GDoc),
    i: int,
)
    requires
        0 <= i <= j < kids.len(),
    ensures
        exists|pre: Seq<(Seq<char>, Seq<char>)>|
            entries_of_kids(kids, i) == pre + kid_entries(kids[j]) + entries_of_kids(kids, j + 1)
                && entries_of_kids(kids.update(j, x), i) == pre + kid_entries(x)
                + entries_of_kids(kids, j + 1),
    decreases j - i,
{
    let ks = kids.update(j, x);
    if i == j {
        lemma_entries_congruent(kids, ks, j + 1);
        let pre = Seq::<(Seq<char>, Seq<char>)>::empty();
        assert(ks[j] == x);
        assert(entries_of_kids(kids, i) =~= pre + kid_entries(kids[j]) + entries_of_kids(
            kids,
            j + 1,
        ));
        assert(entries_of_kids(ks, i) =~= pre + kid_entries(x) + entries_of_kids(kids, j + 1));
    } else {
        lemma_entries_update_seg(kids, j, x, i + 1);
        let pre0 = choose|pre: Seq<(Seq<char>, Seq<char>)>|
            entries_of_kids(kids, i + 1) == pre + kid_entries(kids[j]) + entries_of_kids(
                kids,
                j + 1,
            ) && entries_of_kids(kids.update(j, x), i + 1) == pre + kid_entries(x)
                + entries_of_kids(kids, j + 1);
        let pre = kid_entries(kids[i]) + pre0;
        assert(ks[i] == kids[i]);
        assert(entries_of_kids(kids, i) =~= pre + kid_entries(kids[j]) + entries_of_kids(
            kids,
            j + 1,
        ));
        assert(entries_of_kids(ks, i) =~= pre + kid_entries(x) + entries_of_kids(kids, j + 1));
    }
}

/// Preserving scalar-freedom when one child is replaced by a scalar-free one.
proof fn lemma_no_scalar_update(kids: Seq<(Seq<char>, GDoc)>, j: int, x: (Seq<char>, GDoc), i: int)
    requires
        0 <= i <= kids.len(),
        0 <= j < kids.len(),
        no_scalar_kids(kids, i),
        no_scalar(x.1),
    ensures
        no_scalar_kids(kids.update(j, x), i),
    decreases kids.len() - i,
{
    if i < kids.len() {
        lemma_no_scalar_update(kids, j, x, i + 1);
        if i != j {
            assert(kids.update(j, x)[i] == kids[i]);
        }
    }
}

/// Every child of a scalar-free node list is scalar-free.
proof fn lemma_no_scalar_at(kids: Seq<(Seq<char>, GDoc)>, j: int, i: int)
    requires
        0 <= i <= j < kids.len(),
        no_scalar_kids(kids, i),
    ensures
        no_scalar(kids[j].1),
    decreases j - i,
{
    if i < j {
        lemma_no_scalar_at(kids, j, i + 1);
    }
}

/// A successful insert adds exactly one entry, keyed by the joined path, at
/// some position, and keeps the document free of scalars.
pub proof fn lemma_insert_entries(g: GDoc, path: Seq<Seq<char>>, v: Seq<char>, g2: GDoc)
    requires
        spec_insert(g, path, v) == Some(g2),
        path.len() >= 1,
    ensures
        g2 is Node,
        no_scalar(g) ==> no_scalar(g2),
        exists|p: int|
            0 <= p <= entries_of(g).len() && entries_of(g2) == entries_of(g).insert(
                p,
                (key_of(path.drop_last(), path.last()), v),
            ),
    decreases path.len(),
{
    let kids = g->Node_0;
    let key = key_of(path.drop_last(), path.last());
    lemma_kid_index(kids, path.first(), 0);
    match kid_index(kids, path.first(), 0) {
        None => {
            let newkid = (path.first(), make_node(path.drop_first(), v));
            lemma_chain_entries(path, v);
            lemma_entries_push(kids, newkid, 0);
            let p = entries_of(g).len() as int;
            assert(entries_of(g2) == entries_of(g) + seq![(key, v)]);
            assert(entries_of(g2) =~= entries_of(g).insert(p, (key, v)));
        },
        Some(j) => {
            let sub = kids[j].1;
            let sub2 = spec_insert(sub, path.drop_first(), v)->Some_0;
            let x = (path.first(), sub2);
            lemma_insert_entries(sub, path.drop_first(), v, sub2);
            let subkey = key_of(path.drop_first().drop_last(), path.drop_first().last());
            let q = choose|q: int|
                0 <= q <= entries_of(sub).len() && entries_of(sub2) == entries_of(sub).insert(
                    q,
                    (subkey, v),
                );
            lemma_entries_update_seg(kids, j, x, 0);
            let pre = choose|pre: Seq<(Seq<char>, Seq<char>)>|
                entries_of_kids(kids, 0) == pre + kid_entries(kids[j]) + entries_of_kids(
                    kids,
                    j + 1,
                ) && entries_of_kids(kids.update(j, x), 0) == pre + kid_entries(x)
                    + entries_of_kids(kids, j + 1);
            let suf = entries_of_kids(kids, j + 1);
            assert(kid_entries(kids[j]) == prefixed(path.first(), entries_of(sub)));
            assert(kid_entries(x) == prefixed(path.first(), entries_of(sub2)));
            lemma_prefixed_insert(path.first(), entries_of(sub), q, (subkey, v));
            let key2 = dot() + path.first() + subkey;
            assert(key2 =~= key) by {
                assert(path.drop_last().len() >= 1);
                assert(path.drop_last().first() == path.first());
                assert(path.drop_last().drop_first() =~= path.drop_first().drop_last());
                assert(join_segs(path.drop_last()) == dot() + path.first() + join_segs(
                    path.drop_first().drop_last(),
                ));
                assert(path.last() == path.drop_first().last());
            }
            lemma_concat_insert(pre, prefixed(path.first(), entries_of(sub)), suf, q, (key, v));
            let p = pre.len() + q;
            assert(entries_of(g2) == (pre + prefixed(path.first(), entries_of(sub)) + suf).insert(
                p,
                (key, v),
            ));
            assert(entries_of(g) == pre + prefixed(path.first(), entries_of(sub)) + suf);
            assert(0 <= p <= entries_of(g).len()) by {
                assert(entries_of(g).len() == pre.len() + prefixed(
                    path.first(),
                    entries_of(sub),
                ).len() + suf.len());
            }
            if no_scalar(g) {
                assert(no_scalar_kids(kids, 0));
                lemma_no_scalar_at(kids, j, 0);
                lemma_no_scalar_update(kids, j, x, 0);
            }
        },
    }
}


/// Folding the remaining entries into a tree: on success, the tree's map
/// grows by exactly the remaining bindings.
proof fn lemma_encode_from(entries: Seq<(Seq<char>, Seq<char>)>, i: int, g: GDoc)
    requires
        0 <= i <= entries.len(),
        forall|a: int, b: int| i <= a < b < entries.len() ==> entries[a].0 != entries[b].0,
        forall|a: int|
            i <= a < entries.len() ==> !alist_has_key(entries_of(g), #[trigger] entries[a].0),
        g is Node,
    ensures
        match spec_encode_from(entries, i, g) {
            Ok(g2) => {
                &&& g2 is Node
                &&& (no_scalar(g) ==> no_scalar(g2))
                &&& alist_map(entries_of(g2)) == alist_map(entries_of(g)).union_prefer_right(
                    alist_map(entries.skip(i)),
                )
                &&& (alist_unique(entries_of(g)) ==> alist_unique(entries_of(g2)))
            },
            Err(_) => true,
        },
    decreases entries.len() - i,
{
    if i == entries.len() {
        assert(entries.skip(i) =~= Seq::<(Seq<char>, Seq<char>)>::empty());
        assert(alist_map(entries_of(g)).union_prefer_right(
            Map::<Seq<char>, Seq<char>>::empty(),
        ) =~= alist_map(entries_of(g)));
    } else {
        match parse_key(entries[i].0) {
            None => {},
            Some(pc) => {
                let path = pc.0.push(pc.1);
                match spec_insert(g, path, entries[i].1) {
                    None => {},
                    Some(gm) => {
                        lemma_parse_sound(entries[i].0);
                        assert(path.drop_last() =~= pc.0);
                        assert(path.last() == pc.1);
                        let key = key_of(path.drop_last(), path.last());
                        assert(key == entries[i].0);
                        lemma_insert_entries(g, path, entries[i].1, gm);
                        let p = choose|p: int|
                            0 <= p <= entries_of(g).len() && entries_of(gm) == entries_of(
                                g,
                            ).insert(p, (key, entries[i].1));
                        lemma_alist_insert_fresh(entries_of(g), p, (key, entries[i].1));
                        assert forall|a: int| i + 1 <= a < entries.len() implies !alist_has_key(
                            entries_of(gm),
                            #[trigger] entries[a].0,
                        ) by {
                            lemma_alist_has_key_insert(
                                entries_of(g),
                                p,
                                (key, entries[i].1),
                                entries[a].0,
                            );
                        }
                        lemma_encode_from(entries, i + 1, gm);
                        match spec_encode_from(entries, i + 1, gm) {
                            Ok(g2) => {
                                let m = alist_map(entries_of(g));
                                let b = alist_map(entries.skip(i + 1));
                                assert(entries.skip(i) =~= seq![entries[i]] + entries.skip(i + 1));
                                lemma_alist_map_concat(seq![entries[i]], entries.skip(i + 1));
                                assert(alist_map(seq![entries[i]]) =~= Map::<
                                    Seq<char>,
                                    Seq<char>,
                                >::empty().insert(key, entries[i].1)) by {
                                    let one = seq![entries[i]];
                                    assert(one.drop_last().len() == 0);
                                    assert(alist_map(one.drop_last()) == Map::<
                                        Seq<char>,
                                        Seq<char>,
                                    >::empty());
                                    assert(one.last() == entries[i]);
                                    assert(alist_map(one) == alist_map(one.drop_last()).insert(
                                        entries[i].0,
                                        entries[i].1,
                                    ));
                                    assert(entries[i].0 == key);
                                }
                                assert(alist_map(entries_of(g2)) == m.insert(
                                    key,
                                    entries[i].1,
                                ).union_prefer_right(b));
                                assert(m.insert(key, entries[i].1).union_prefer_right(b)
                                    =~= m.union_prefer_right(
                                    Map::<Seq<char>, Seq<char>>::empty().insert(
                                        key,
                                        entries[i].1,
                                    ).union_prefer_right(b),
                                ));
                            },
                            Err(_) => {},
                        }
                    },
                }
            },
        }
    }
}

/// The round-trip law: a document built by encoding a duplicate-free list of
/// entries is free of scalars and decodes back to exactly the map of those
/// entries.
pub proof fn lemma_round_trip(entries: Seq<(Seq<char>, Seq<char>)>, g: GDoc)
    requires
        alist_unique(entries),
        spec_encode(entries) == Ok::<GDoc, CodecError>(g),
    ensures
        g is Node,
        no_scalar(g),
        alist_map(entries_of(g)) == alist_map(entries),
{
    let g0 = GDoc::Node(Seq::<(Seq<char>, GDoc)>::empty());
    assert(entries_of(g0) =~= Seq::<(Seq<char>, Seq<char>)>::empty());
    lemma_encode_from(entries, 0, g0);
    assert(entries.skip(0) =~= entries);
    assert(no_scalar_kids(Seq::<(Seq<char>, GDoc)>::empty(), 0));
    assert(alist_map(Seq::<(Seq<char>, Seq<char>)>::empty()).union_prefer_right(
        alist_map(entries),
    ) =~= alist_map(entries));
}


/// The children shapes, indexed: one per child, in order.
pub proof fn lemma_dv_kids_index(kids: Seq<(String, Doc)>, i: int)
    requires
        0 <= i <= kids.len(),
    ensures
        dv_kids(kids, i).len() == kids.len() - i,
        forall|t: int|
            i <= t < kids.len() ==> dv_kids(kids, i)[t - i] == (#[trigger] kids[t].0@, dv(
                kids[t].1,
            )),
    decreases kids.len() - i,
{
    if i < kids.len() {
        lemma_dv_kids_index(kids, i + 1);
    }
}

/// A node list whose children are each scalar-free is scalar-free.
proof fn lemma_no_scalar_all(kids: Seq<(Seq<char>, GDoc)>, i: int)
    requires
        0 <= i <= kids.len(),
        forall|t: int| i <= t < kids.len() ==> no_scalar(#[trigger] kids[t].1),
    ensures
        no_scalar_kids(kids, i),
    decreases kids.len() - i,
{
    if i < kids.len() {
        lemma_no_scalar_all(kids, i + 1);
    }
}

/// The least position at or after `from` holding `c`, or the length if none.
pub(crate) fn find_char(s: &str, c: char, from: usize) -> (r: usize)
    requires
        from <= s@.len(),
    ensures
        r as int == find_from(s@, c, from as int),
{
    let n = s.unicode_len();
    let mut i: usize = from;
    while i < n
        invariant
            i <= n,
            n == s@.len(),
            find_from(s@, c, from as int) == find_from(s@, c, i as int),
        decreases n - i,
    {
        if s.get_char(i) == c {
            return i;
        }
        i = i + 1;
    }
    n
}

/// Splits a flat key into its structural segments and its content, or
/// nothing when the key does not follow the key convention.
pub fn split_key(k: &String) -> (r: Option<(Vec<String>, String)>)
    ensures
        match r {
            Some(sc) => parse_key(k@) == Some((strs_view(sc.0@), sc.1@)) && sc.0@.len()
                < usize::MAX,
            None => parse_key(k@) is None,
        },
{
    let s = k.as_str();
    let n = s.unicode_len();
    let si = find_char(s, ' ', 0);
    proof {
        lemma_find_from(k@, ' ', 0);
    }
    if si >= n {
        return None;
    }
    let prefix = s.substring_char(0, si);
    let content = s.substring_char(si + 1, n);
    let pn = prefix.unicode_len();
    let mut segs: Vec<String> = Vec::new();
    let mut i: usize = 0;
    while i < pn
        invariant
            pn == prefix@.len(),
            prefix@ == k@.subrange(0, si as int),
            si as int == find_from(k@, ' ', 0),
            si < k@.len(),
            i <= pn,
            segs@.len() * 2 <= i,
            match split_prefix_at(prefix@, 0) {
                Some(all) => split_prefix_at(prefix@, i as int) is Some && all == strs_view(segs@)
                    + split_prefix_at(prefix@, i as int)->Some_0,
                None => split_prefix_at(prefix@, i as int) is None,
            },
        decreases pn - i,
    {
        if prefix.get_char(i) != '.' {
            return None;
        }
        let end = find_char(prefix, '.', i + 1);
        proof {
            lemma_find_from(prefix@, '.', i as int + 1);
        }
        if end == i + 1 {
            return None;
        }
        let seg = prefix.substring_char(i + 1, end);
        proof {
            assert(!seg@.contains(' ')) by {
                lemma_find_from(k@, ' ', 0);
                assert forall|t: int| 0 <= t < seg@.len() implies seg@[t] != ' ' by {
                    assert(seg@[t] == prefix@[i + 1 + t]);
                    assert(prefix@[i + 1 + t] == k@[i + 1 + t]);
                }
                if seg@.contains(' ') {
                    let t = choose|t: int| 0 <= t < seg@.len() && seg@[t] == ' ';
                }
            }
            let rest = split_prefix_at(prefix@, i as int);
            assert(rest is Some ==> rest->Some_0 == seq![seg@] + split_prefix_at(
                prefix@,
                end as int,
            )->Some_0 && split_prefix_at(prefix@, end as int) is Some);
        }
        let seg_owned = seg.to_owned();
        segs.push(seg_owned);
        proof {
            assert(strs_view(segs@) =~= strs_view(segs@.drop_last()) + seq![seg@]);
            match split_prefix_at(prefix@, 0) {
                Some(all) => {
                    assert(all =~= strs_view(segs@) + split_prefix_at(
                        prefix@,
                        end as int,
                    )->Some_0);
                },
                None => {},
            }
        }
        i = end;
    }
    proof {
        assert(split_prefix_at(prefix@, i as int) == Some(Seq::<Seq<char>>::empty()));
        match split_prefix_at(prefix@, 0) {
            Some(all) => {
                assert(all =~= strs_view(segs@));
            },
            None => {
                assert(false);
            },
        }
        assert(content@ == k@.subrange(si as int + 1, k@.len() as int));
    }
    Some((segs, content.to_owned()))
}


/// The full path a split key describes: the segments, then the content name.
pub open spec fn full_path(segs: Seq<String>, content: String) -> Seq<Seq<char>> {
    strs_view(segs).push(content@)
}

/// Builds the chain of single-child mappings for one new leaf, from path
/// position `pi` on.
fn make_doc(segs: &Vec<String>, pi: usize, content: &String, v: &String) -> (r: Doc)
    requires
        pi <= segs@.len() + 1,
        segs@.len() < usize::MAX,
    ensures
        dv(r) == make_node(full_path(segs@, *content).skip(pi as int), v@),
    decreases segs@.len() + 1 - pi,
{
    let ghost path = full_path(segs@, *content);
    if pi > segs.len() {
        proof {
            assert(path.skip(pi as int) =~= Seq::<Seq<char>>::empty());
        }
        Doc::Leaf(v.clone())
    } else {
        let name = if pi < segs.len() {
            segs[pi].clone()
        } else {
            content.clone()
        };
        let ghost gname = name@;
        let sub = make_doc(segs, pi + 1, content, v);
        let ghost gsub = dv(sub);
        let kid_vec = vec![(name, sub)];
        let r = Doc::Node(kid_vec);
        proof {
            let rem = path.skip(pi as int);
            assert(rem.len() >= 1);
            assert(rem.first() == path[pi as int]);
            assert(rem.drop_first() =~= path.skip(pi as int + 1));
            lemma_dv_kids_index(kid_vec@, 0);
            assert(dv_kids(kid_vec@, 0) =~= seq![(gname, gsub)]);
            assert(gname == path[pi as int]);
            assert(make_node(rem, v@) == GDoc::Node(
                seq![(rem.first(), make_node(rem.drop_first(), v@))],
            ));
        }
        r
    }
}

/// The first child bearing this name, if one does.
fn kids_find(kids: &Vec<(String, Doc)>, name: &String) -> (r: Option<usize>)
    ensures
        match r {
            Some(j) => j < kids@.len() && kid_index(dv_kids(kids@, 0), name@, 0) == Some(j as int),
            None => kid_index(dv_kids(kids@, 0), name@, 0) is None,
        },
{
    proof {
        lemma_dv_kids_index(kids@, 0);
    }
    let ghost g = dv_kids(kids@, 0);
    let n = kids.len();
    let mut i: usize = 0;
    while i < n
        invariant
            n == kids@.len(),
            i <= n,
            g == dv_kids(kids@, 0),
            g.len() == n,
            forall|t: int| 0 <= t < g.len() ==> g[t].0 == #[trigger] kids@[t].0@,
            kid_index(g, name@, 0) == kid_index(g, name@, i as int),
        decreases n - i,
    {
        if kids[i].0 == *name {
            return Some(i);
        }
        i = i + 1;
    }
    None
}

/// Inserts one new leaf into the document, walking the path from position
/// `pi` on; reports a conflict where the path meets an occupied name or a
/// non-mapping node.
fn doc_insert(d: Doc, segs: &Vec<String>, pi: usize, content: &String, v: &String) -> (r: Result<
    Doc,
    CodecError,
>)
    requires
        pi <= segs@.len(),
        segs@.len() < usize::MAX,
    ensures
        match r {
            Ok(d2) => spec_insert(dv(d), full_path(segs@, *content).skip(pi as int), v@) == Some(
                dv(d2),
            ),
            Err(e) => e == CodecError::PathConflict && spec_insert(
                dv(d),
                full_path(segs@, *content).skip(pi as int),
                v@,
            ) is None,
        },
    decreases segs@.len() - pi,
{
    let ghost d0 = d;
    let ghost path = full_path(segs@, *content);
    let ghost rem = path.skip(pi as int);
    proof {
        assert(rem.len() >= 1);
        assert(rem.first() == path[pi as int]);
        assert(rem.drop_first() =~= path.skip(pi as int + 1));
    }
    match d {
        Doc::Node(mut kids) => {
            let ghost kids0 = kids@;
            let ghost gkids = dv_kids(kids0, 0);
            proof {
                lemma_dv_kids_index(kids0, 0);
                assert(dv(d0) == GDoc::Node(gkids));
            }
            let name: &String = if pi < segs.len() {
                &segs[pi]
            } else {
                content
            };
            proof {
                assert(name@ == rem.first());
            }
            match kids_find(&kids, name) {
                None => {
                    let cname = name.clone();
                    proof {
                        assert(cname@ == name@);
                    }
                    let sub = make_doc(segs, pi + 1, content, v);
                    let ghost newkid = (name@, dv(sub));
                    kids.push((cname, sub));
                    proof {
                        lemma_dv_kids_index(kids@, 0);
                        assert(kids@.len() == kids0.len() + 1);
                        assert forall|t: int| 0 <= t < kids@.len() implies #[trigger] dv_kids(
                            kids@,
                            0,
                        )[t] == gkids.push(newkid)[t] by {
                            assert(dv_kids(kids@, 0)[t] == (kids@[t].0@, dv(kids@[t].1)));
                            if t < kids0.len() {
                                assert(kids@[t] == kids0[t]);
                                assert(gkids[t] == (kids0[t].0@, dv(kids0[t].1)));
                            } else {
                                assert(kids@[t].0@ == name@ && dv(kids@[t].1) == newkid.1);
                            }
                        }
                        assert(dv_kids(kids@, 0) =~= gkids.push(newkid));
                        assert(make_node(rem.drop_first(), v@) == newkid.1);
                    }
                    Ok(Doc::Node(kids))
                },
                Some(j) => {
                    if pi == segs.len() {
                        proof {
                            assert(rem.len() == 1);
                        }
                        Err(CodecError::PathConflict)
                    } else {
                        proof {
                            lemma_kid_index(gkids, rem.first(), 0);
                        }
                        let kid = kids.remove(j);
                        let (kname, sub) = kid;
                        let ghost gsub = dv(sub);
                        proof {
                            assert(gkids[j as int] == (kname@, gsub));
                        }
                        match sub {
                            Doc::Node(_) => {
                                match doc_insert(sub, segs, pi + 1, content, v) {
                                    Ok(sub2) => {
                                        let ghost gsub2 = dv(sub2);
                                        let ghost gkname = kname@;
                                        kids.insert(j, (kname, sub2));
                                        proof {
                                            lemma_dv_kids_index(kids@, 0);
                                            assert(kids@.len() == kids0.len());
                                            assert forall|t: int|
                                                0 <= t < kids@.len() implies #[trigger] dv_kids(
                                                kids@,
                                                0,
                                            )[t] == gkids.update(
                                                j as int,
                                                (rem.first(), gsub2),
                                            )[t] by {
                                                assert(dv_kids(kids@, 0)[t] == (
                                                    kids@[t].0@,
                                                    dv(kids@[t].1),
                                                ));
                                                if t < j {
                                                    assert(kids@[t] == kids0[t]);
                                                    assert(gkids[t] == (
                                                        kids0[t].0@,
                                                        dv(kids0[t].1),
                                                    ));
                                                } else if t > j {
                                                    assert(kids@[t] == kids0.remove(j as int)[t
                                                        - 1]);
                                                    assert(kids0.remove(j as int)[t - 1]
                                                        == kids0[t]);
                                                    assert(gkids[t] == (
                                                        kids0[t].0@,
                                                        dv(kids0[t].1),
                                                    ));
                                                } else {
                                                    assert(kids@[t].0@ == gkname && dv(kids@[t].1)
                                                        == gsub2);
                                                    assert(gkname == gkids[j as int].0);
                                                    assert(gkids[j as int].0 == rem.first());
                                                }
                                            }
                                            assert(dv_kids(kids@, 0) =~= gkids.update(
                                                j as int,
                                                (rem.first(), gsub2),
                                            ));
                                        }
                                        Ok(Doc::Node(kids))
                                    },
                                    Err(e) => Err(e),
                                }
                            },
                            _ => Err(CodecError::PathConflict),
                        }
                    }
                },
            }
        },
        _ => Err(CodecError::PathConflict),
    }
}


/// Encodes a flat translation map into a catalog document, key by key, in
/// the map's own order. The result is exactly what the encoding model
/// describes; on success the document is a scalar-free mapping whose decoded
/// entries give back the input map.
pub fn encode(m: &StrMap) -> (r: Result<Doc, CodecError>)
    requires
        m.wf(),
    ensures
        match r {
            Ok(d) => spec_encode(m.entries()) == Ok::<GDoc, CodecError>(dv(d)) && dv(d) is Node
                && no_scalar(dv(d)) && alist_map(entries_of(dv(d))) == m@,
            Err(e) => spec_encode(m.entries()) == Err::<GDoc, CodecError>(e),
        },
{
    let mut doc = Doc::Node(Vec::new());
    proof {
        assert(dv_kids(Seq::<(String, Doc)>::empty(), 0) =~= Seq::<(Seq<char>, GDoc)>::empty());
        assert(dv(doc) == GDoc::Node(Seq::<(Seq<char>, GDoc)>::empty()));
    }
    let n = m.pairs.len();
    let mut idx: usize = 0;
    while idx < n
        invariant
            m.wf(),
            n == m.pairs@.len(),
            idx <= n,
            dv(doc) is Node,
            spec_encode(m.entries()) == spec_encode_from(m.entries(), idx as int, dv(doc)),
        decreases n - idx,
    {
        let k = &m.pairs[idx].0;
        let v = &m.pairs[idx].1;
        proof {
            assert(m.entries()[idx as int] == (k@, v@));
        }
        match split_key(k) {
            None => {
                return Err(CodecError::MalformedKey);
            },
            Some((segs, content)) => {
                let ghost path = full_path(segs@, content);
                proof {
                    assert(path.skip(0) =~= path);
                }
                match doc_insert(doc, &segs, 0, &content, v) {
                    Ok(d2) => {
                        proof {
                            lemma_insert_entries(dv(doc), path, v@, dv(d2));
                        }
                        doc = d2;
                    },
                    Err(e) => {
                        return Err(e);
                    },
                }
            },
        }
        idx = idx + 1;
    }
    proof {
        lemma_round_trip(m.entries(), dv(doc));
    }
    Ok(doc)
}

/// Decodes the children of one mapping node into flat entries, in walk
/// order, each child's key re-addressed from this node.
fn decode_kids(kids: &Vec<(String, Doc)>) -> (r: Result<Vec<(String, String)>, CodecError>)
    ensures
        match r {
            Ok(v) => no_scalar_kids(dv_kids(kids@, 0), 0) && pairs_view(v@) == entries_of_kids(
                dv_kids(kids@, 0),
                0,
            ),
            Err(e) => e == CodecError::NonLeafScalar && !no_scalar_kids(dv_kids(kids@, 0), 0),
        },
    decreases kids,
{
    let ghost g = dv_kids(kids@, 0);
    proof {
        lemma_dv_kids_index(kids@, 0);
    }
    let mut out: Vec<(String, String)> = Vec::new();
    let n = kids.len();
    let mut j: usize = 0;
    while j < n
        invariant
            n == kids@.len(),
            j <= n,
            g == dv_kids(kids@, 0),
            g.len() == n,
            forall|t: int| 0 <= t < n ==> g[t] == (#[trigger] kids@[t].0@, dv(kids@[t].1)),
            forall|t: int| 0 <= t < j ==> no_scalar(#[trigger] g[t].1),
            pairs_view(out@) + entries_of_kids(g, j as int) == entries_of_kids(g, 0),
        decreases n - j,
    {
        let ghost out0 = out@;
        let name = &kids[j].0;
        match &kids[j].1 {
            Doc::Leaf(s) => {
                let mut nk = " ".to_owned();
                nk.append(name.as_str());
                let ghost gnk = nk@;
                out.push((nk, s.clone()));
                proof {
                    reveal_strlit(" ");
                    assert(gnk =~= sp() + name@);
                    assert(kid_entries(g[j as int]) =~= seq![(sp() + name@, s@)]);
                    assert(pairs_view(out@) =~= pairs_view(out0) + kid_entries(g[j as int]));
                    assert(pairs_view(out@) + entries_of_kids(g, j as int + 1) =~= entries_of_kids(
                        g,
                        0,
                    ));
                }
            },
            Doc::Node(subkids) => {
                match decode_kids(subkids) {
                    Err(e) => {
                        proof {
                            if no_scalar_kids(g, 0) {
                                lemma_no_scalar_at(g, j as int, 0);
                            }
                        }
                        return Err(e);
                    },
                    Ok(sub) => {
                        proof {
                            assert(g[j as int] == (kids@[j as int].0@, dv(kids@[j as int].1)));
                            assert(kids@[j as int].1 == Doc::Node(*subkids));
                            assert(g[j as int].1 == GDoc::Node(dv_kids(subkids@, 0)));
                            assert(kid_entries(g[j as int]) == prefixed(
                                name@,
                                pairs_view(sub@),
                            ));
                        }
                        let sn = sub.len();
                        let mut t: usize = 0;
                        while t < sn
                            invariant
                                sn == sub@.len(),
                                t <= sn,
                                pairs_view(out@) =~= pairs_view(out0) + prefixed(
                                    name@,
                                    pairs_view(sub@).take(t as int),
                                ),
                            decreases sn - t,
                        {
                            let ghost outp = out@;
                            let sk = &sub[t].0;
                            let sv = &sub[t].1;
                            let mut nk = ".".to_owned();
                            nk.append(name.as_str());
                            nk.append(sk.as_str());
                            let ghost gnk = nk@;
                            out.push((nk, sv.clone()));
                            proof {
                                reveal_strlit(".");
                                assert(gnk =~= dot() + name@ + sk@);
                                assert(pairs_view(out@) =~= pairs_view(outp) + seq![
                                    (dot() + name@ + sk@, sv@),
                                ]);
                                assert(prefixed(name@, pairs_view(sub@).take(t as int + 1))
                                    =~= prefixed(name@, pairs_view(sub@).take(t as int)) + seq![
                                    (dot() + name@ + sk@, sv@),
                                ]);
                            }
                            t = t + 1;
                        }
                        proof {
                            assert(pairs_view(sub@).take(sn as int) =~= pairs_view(sub@));
                            assert(pairs_view(out@) =~= pairs_view(out0) + kid_entries(
                                g[j as int],
                            ));
                            assert(pairs_view(out@) + entries_of_kids(g, j as int + 1)
                                =~= entries_of_kids(g, 0));
                        }
                    },
                }
            },
            Doc::Scalar => {
                proof {
                    assert(g[j as int] == (kids@[j as int].0@, dv(kids@[j as int].1)));
                    assert(g[j as int].1 == GDoc::Scalar);
                    if no_scalar_kids(g, 0) {
                        lemma_no_scalar_at(g, j as int, 0);
                    }
                }
                return Err(CodecError::NonLeafScalar);
            },
        }
        j = j + 1;
    }
    proof {
        lemma_no_scalar_all(g, 0);
        assert(entries_of_kids(g, n as int) =~= Seq::<(Seq<char>, Seq<char>)>::empty());
        assert(pairs_view(out@) =~= entries_of_kids(g, 0));
    }
    Ok(out)
}

/// Decodes a catalog document into its flat translation map: one entry per
/// leaf, keyed by the leaf's path. Fails when the document is anything but
/// mappings of mappings and string leaves.
pub fn decode(d: &Doc) -> (r: Result<StrMap, CodecError>)
    ensures
        match r {
            Ok(m) => m.wf() && dv(*d) is Node && no_scalar(dv(*d)) && m@ == alist_map(
                entries_of(dv(*d)),
            ),
            Err(e) => e == CodecError::NonLeafScalar && !(dv(*d) is Node && no_scalar(dv(*d))),
        },
{
    match d {
        Doc::Node(kids) => {
            match decode_kids(kids) {
                Ok(entries) => {
                    let ghost es = pairs_view(entries@);
                    let mut m = StrMap::new();
                    proof {
                        assert(es.take(0) =~= Seq::<(Seq<char>, Seq<char>)>::empty());
                    }
                    let n = entries.len();
                    let mut i: usize = 0;
                    while i < n
                        invariant
                            n == entries@.len(),
                            es == pairs_view(entries@),
                            i <= n,
                            m.wf(),
                            m@ == alist_map(es.take(i as int)),
                        decreases n - i,
                    {
                        m.insert(entries[i].0.clone(), entries[i].1.clone());
                        proof {
                            assert(es.take(i as int + 1).drop_last() =~= es.take(i as int));
                            assert(es.take(i as int + 1).last() == (
                                entries@[i as int].0@,
                                entries@[i as int].1@,
                            ));
                        }
                        i = i + 1;
                    }
                    proof {
                        assert(es.take(n as int) =~= es);
                    }
                    Ok(m)
                },
                Err(e) => Err(e),
            }
        },
        _ => Err(CodecError::NonLeafScalar),
    }
}


/// The prefix of a structural path holds no space, and starts with a dot
/// exactly when the path is non-empty.
proof fn lemma_join_chars(segs: Seq<Seq<char>>)
    requires
        valid_path(segs),
    ensures
        !join_segs(segs).contains(' '),
        segs.len() > 0 ==> join_segs(segs).len() > 0 && join_segs(segs)[0] == '.',
    decreases segs.len(),
{
    if segs.len() > 0 {
        assert(valid_path(segs.drop_first())) by {
            assert(forall|i: int|
                0 <= i < segs.drop_first().len() ==> #[trigger] segs.drop_first()[i] == segs[i
                    + 1]);
        }
        lemma_join_chars(segs.drop_first());
        let j = join_segs(segs);
        assert(valid_seg(segs.first()));
        if j.contains(' ') {
            let t = choose|t: int| 0 <= t < j.len() && j[t] == ' ';
            if t == 0 {
            } else if t < 1 + segs.first().len() {
                assert(segs.first()[t - 1] == ' ');
                assert(segs.first().contains(' '));
            } else {
                assert(join_segs(segs.drop_first())[t - 1 - segs.first().len()] == ' ');
                assert(join_segs(segs.drop_first()).contains(' '));
            }
        }
    } else {
        assert(join_segs(segs) =~= Seq::<char>::empty());
    }
}

/// Splitting inverts joining: a prefix standing at position `i` of a larger
/// text splits back into exactly the segments that were joined.
proof fn lemma_split_join(p: Seq<char>, i: int, segs: Seq<Seq<char>>)
    requires
        valid_path(segs),
        0 <= i <= p.len(),
        p.subrange(i, p.len() as int) == join_segs(segs),
    ensures
        split_prefix_at(p, i) == Some(segs),
    decreases segs.len(),
{
    let rest = p.subrange(i, p.len() as int);
    if segs.len() == 0 {
        assert(rest.len() == 0);
        assert(i == p.len());
        assert(split_prefix_at(p, i) == Some(Seq::<Seq<char>>::empty()));
        assert(segs =~= Seq::<Seq<char>>::empty());
    } else {
        let s0 = segs.first();
        let tail = segs.drop_first();
        assert(valid_path(tail)) by {
            assert(forall|t: int| 0 <= t < tail.len() ==> #[trigger] tail[t] == segs[t + 1]);
        }
        assert(valid_seg(s0));
        lemma_join_chars(tail);
        assert(rest == dot() + s0 + join_segs(tail));
        assert(p[i] == '.') by {
            assert(rest[0] == '.');
        }
        let sl = s0.len() as int;
        lemma_find_from(p, '.', i + 1);
        let end = find_from(p, '.', i + 1);
        assert forall|t: int| i + 1 <= t < i + 1 + sl implies p[t] != '.' by {
            assert(rest[t - i] == s0[t - i - 1]);
            if p[t] == '.' {
                assert(s0.contains('.'));
            }
        }
        assert(end == i + 1 + sl) by {
            if i + 1 + sl < p.len() {
                assert(rest[1 + sl] == join_segs(tail)[0]);
                if tail.len() == 0 {
                    assert(rest.len() == 1 + sl);
                    assert(false);
                }
                assert(p[i + 1 + sl] == '.');
                if end < i + 1 + sl {
                    assert(p[end] != '.');
                }
                if end > i + 1 + sl {
                    assert(p[i + 1 + sl] != '.');
                }
            } else {
                assert(p.len() == i + 1 + sl);
                assert(end <= p.len());
                if end < i + 1 + sl {
                    assert(p[end] != '.');
                }
            }
        }
        let seg = p.subrange(i + 1, end);
        assert(seg =~= s0) by {
            assert(forall|t: int| 0 <= t < sl ==> seg[t] == #[trigger] rest[t + 1]);
            assert(forall|t: int| 0 <= t < sl ==> rest[t + 1] == #[trigger] s0[t]);
        }
        assert(seg.len() > 0 && !seg.contains(' '));
        assert(p.subrange(end, p.len() as int) =~= join_segs(tail)) by {
            assert(forall|t: int|
                0 <= t < p.len() - end ==> #[trigger] p.subrange(end, p.len() as int)[t] == rest[t
                    + 1 + sl]);
        }
        lemma_split_join(p, end, tail);
        assert(seq![seg] + tail =~= segs);
    }
}

/// Parsing inverts joining: a key built from structural segments and a
/// content splits back into exactly those parts. Together with
/// `lemma_parse_sound` this is the cross-component contract between the
/// scanner's key minting and the codec: the rule that joins a prefix and a
/// content into one flat key is the exact inverse of the rule that takes a
/// catalog's key apart.
pub proof fn lemma_parse_complete(segs: Seq<Seq<char>>, content: Seq<char>)
    requires
        valid_path(segs),
    ensures
        parse_key(key_of(segs, content)) == Some((segs, content)),
{
    let k = key_of(segs, content);
    let j = join_segs(segs);
    let jl = j.len() as int;
    lemma_join_chars(segs);
    lemma_find_from(k, ' ', 0);
    let si = find_from(k, ' ', 0);
    assert(k[jl] == ' ') by {
        assert(k[jl] == sp()[0]);
    }
    assert(si == jl) by {
        if si < jl {
            assert(k[si] == j[si]);
            assert(j.contains(' '));
        }
        if si > jl {
            assert(k[jl] != ' ');
        }
    }
    let p = k.subrange(0, jl);
    assert(p =~= j);
    assert(p.subrange(0, p.len() as int) =~= j);
    lemma_split_join(p, 0, segs);
    assert(k.subrange(jl + 1, k.len() as int) =~= content);
}


/// One path reaches into the other: a leaf in one place and a mapping in the
/// same place cannot both stand.
pub open spec fn paths_conflict(a: Seq<Seq<char>>, b: Seq<Seq<char>>) -> bool {
    a.is_prefix_of(b) || b.is_prefix_of(a)
}

/// The leaf paths of a document: one per leaf, each the child names walked
/// from the root down to it.
pub open spec fn leaf_paths(g: GDoc) -> Set<Seq<Seq<char>>>
    decreases g, 0int, 0int,
{
    match g {
        GDoc::Node(kids) => leaf_paths_kids(kids, 0),
        _ => Set::empty(),
    }
}

pub open spec fn leaf_paths_kids(kids: Seq<(Seq<char>, GDoc)>, i: int) -> Set<Seq<Seq<char>>>
    decreases kids, kids.len() - i, 1int,
{
    if i < 0 || i >= kids.len() {
        Set::empty()
    } else {
        kid_leaf_paths(kids[i]).union(leaf_paths_kids(kids, i + 1))
    }
}

/// The leaf paths one named child contributes to its parent.
pub open spec fn kid_leaf_paths(kid: (Seq<char>, GDoc)) -> Set<Seq<Seq<char>>>
    decreases kid, 0int, 0int,
{
    match kid.1 {
        GDoc::Leaf(_) => Set::empty().insert(seq![kid.0]),
        GDoc::Node(_) => leaf_paths(kid.1).map(|p: Seq<Seq<char>>| seq![kid.0] + p),
        GDoc::Scalar => Set::empty(),
    }
}

/// A document the encoder can have built: child names are unique in each
/// mapping, no scalars stand anywhere, and no mapping below the root is
/// empty.
pub open spec fn tree_ok(g: GDoc) -> bool
    decreases g, 0int, 0int,
{
    match g {
        GDoc::Leaf(_) => true,
        GDoc::Scalar => false,
        GDoc::Node(kids) => {
            &&& (forall|a: int, b: int|
                0 <= a < b < kids.len() ==> (#[trigger] kids[a].0) != (#[trigger] kids[b].0))
            &&& tree_ok_kids(kids, 0)
        },
    }
}

pub open spec fn tree_ok_kids(kids: Seq<(Seq<char>, GDoc)>, i: int) -> bool
    decreases kids, kids.len() - i, 1int,
{
    if i < 0 || i >= kids.len() {
        true
    } else {
        tree_ok(kids[i].1) && (kids[i].1 is Node ==> kids[i].1->Node_0.len() > 0) && tree_ok_kids(
            kids,
            i + 1,
        )
    }
}

/// What it means for a path to stand among a node's leaf paths: some child
/// bears its first name and carries the rest.
proof fn lemma_leaf_paths_member(kids: Seq<(Seq<char>, GDoc)>, i: int, p: Seq<Seq<char>>)
    requires
        0 <= i <= kids.len(),
    ensures
        leaf_paths_kids(kids, i).contains(p) <==> exists|t: int|
            i <= t < kids.len() && #[trigger] kid_leaf_paths(kids[t]).contains(p),
    decreases kids.len() - i,
{
    if i < kids.len() {
        lemma_leaf_paths_member(kids, i + 1, p);
        if kid_leaf_paths(kids[i]).contains(p) {
            assert(i <= i < kids.len() && kid_leaf_paths(kids[i]).contains(p));
        }
    }
}

/// Every member of a child's contribution starts with the child's name, is
/// non-empty, and reduces to a member of the child's own paths.
proof fn lemma_kid_leaf_paths(kid: (Seq<char>, GDoc), p: Seq<Seq<char>>)
    requires
        kid_leaf_paths(kid).contains(p),
    ensures
        p.len() >= 1,
        p[0] == kid.0,
        kid.1 is Leaf ==> p =~= seq![kid.0],
        kid.1 is Node ==> p.len() >= 2 && leaf_paths(kid.1).contains(p.drop_first()),
{
    match kid.1 {
        GDoc::Leaf(_) => {
            assert(p == seq![kid.0]);
        },
        GDoc::Node(_) => {
            let q = choose|q: Seq<Seq<char>>|
                leaf_paths(kid.1).contains(q) && p == seq![kid.0] + q;
            assert(q.len() >= 1) by {
                lemma_leaf_paths_nonempty_members(kid.1);
            }
            assert(p.drop_first() =~= q);
        },
        GDoc::Scalar => {},
    }
}

/// Every leaf path of a document is a non-empty path.
proof fn lemma_leaf_paths_nonempty_members(g: GDoc)
    ensures
        forall|p: Seq<Seq<char>>| #[trigger] leaf_paths(g).contains(p) ==> p.len() >= 1,
    decreases g, 0int, 0int,
{
    match g {
        GDoc::Node(kids) => {
            assert forall|p: Seq<Seq<char>>| #[trigger] leaf_paths(g).contains(p) implies p.len()
                >= 1 by {
                lemma_leaf_paths_member(kids, 0, p);
                let t = choose|t: int|
                    0 <= t < kids.len() && #[trigger] kid_leaf_paths(kids[t]).contains(p);
                match kids[t].1 {
                    GDoc::Leaf(_) => {
                        assert(p == seq![kids[t].0]);
                    },
                    GDoc::Node(_) => {
                        let q = choose|q: Seq<Seq<char>>|
                            leaf_paths(kids[t].1).contains(q) && p == seq![kids[t].0] + q;
                    },
                    GDoc::Scalar => {},
                }
            }
        },
        _ => {},
    }
}

/// A well-built mapping with a child holds a leaf somewhere beneath it.
proof fn lemma_leaf_paths_nonempty(g: GDoc)
    requires
        tree_ok(g),
        g is Node,
        g->Node_0.len() > 0,
    ensures
        exists|p: Seq<Seq<char>>| #[trigger] leaf_paths(g).contains(p),
    decreases g, 0int, 0int,
{
    let kids = g->Node_0;
    lemma_tree_ok_at(kids, 0, 0);
    match kids[0].1 {
        GDoc::Leaf(_) => {
            assert(kid_leaf_paths(kids[0]).contains(seq![kids[0].0]));
            lemma_leaf_paths_member(kids, 0, seq![kids[0].0]);
            assert(leaf_paths(g).contains(seq![kids[0].0]));
        },
        GDoc::Node(_) => {
            lemma_leaf_paths_nonempty(kids[0].1);
            let q = choose|q: Seq<Seq<char>>| #[trigger] leaf_paths(kids[0].1).contains(q);
            assert(kid_leaf_paths(kids[0]).contains(seq![kids[0].0] + q)) by {
                assert(leaf_paths(kids[0].1).map(
                    |p: Seq<Seq<char>>| seq![kids[0].0] + p,
                ).contains(seq![kids[0].0] + q));
            }
            lemma_leaf_paths_member(kids, 0, seq![kids[0].0] + q);
            assert(leaf_paths(g).contains(seq![kids[0].0] + q));
        },
        GDoc::Scalar => {},
    }
}

/// Every child of a well-built node list is itself well-built, and a mapping
/// child is non-empty.
proof fn lemma_tree_ok_at(kids: Seq<(Seq<char>, GDoc)>, i: int, j: int)
    requires
        0 <= i <= j < kids.len(),
        tree_ok_kids(kids, i),
    ensures
        tree_ok(kids[j].1),
        kids[j].1 is Node ==> kids[j].1->Node_0.len() > 0,
    decreases j - i,
{
    if i < j {
        lemma_tree_ok_at(kids, i + 1, j);
    }
}


/// Two paths under one name conflict exactly when their remainders do.
proof fn lemma_conflict_shift(x: Seq<char>, a: Seq<Seq<char>>, b: Seq<Seq<char>>)
    ensures
        paths_conflict(seq![x] + a, seq![x] + b) == paths_conflict(a, b),
{
    let xa = seq![x] + a;
    let xb = seq![x] + b;
    if a.is_prefix_of(b) {
        assert(xa =~= xb.subrange(0, xa.len() as int));
    }
    if b.is_prefix_of(a) {
        assert(xb =~= xa.subrange(0, xb.len() as int));
    }
    if xa.is_prefix_of(xb) {
        assert forall|t: int| 0 <= t < a.len() implies a[t] == b[t] by {
            assert(xa[t + 1] == xb.subrange(0, xa.len() as int)[t + 1]);
            assert(xb.subrange(0, xa.len() as int)[t + 1] == xb[t + 1]);
            assert(a[t] == xa[t + 1]);
            assert(b[t] == xb[t + 1]);
        }
        assert(a =~= b.subrange(0, a.len() as int));
    }
    if xb.is_prefix_of(xa) {
        assert forall|t: int| 0 <= t < b.len() implies b[t] == a[t] by {
            assert(xb[t + 1] == xa.subrange(0, xb.len() as int)[t + 1]);
            assert(xa.subrange(0, xb.len() as int)[t + 1] == xa[t + 1]);
            assert(a[t] == xa[t + 1]);
            assert(b[t] == xb[t + 1]);
        }
        assert(b =~= a.subrange(0, b.len() as int));
    }
}

/// The chain built for one new leaf contributes exactly that one path.
proof fn lemma_chain_paths(path: Seq<Seq<char>>, v: Seq<char>)
    requires
        path.len() >= 1,
    ensures
        kid_leaf_paths((path.first(), make_node(path.drop_first(), v))) =~= Set::empty().insert(
            path,
        ),
        tree_ok(make_node(path.drop_first(), v)),
        make_node(path.drop_first(), v) is Node ==> make_node(
            path.drop_first(),
            v,
        )->Node_0.len() > 0,
    decreases path.len(),
{
    let rest = path.drop_first();
    if path.len() == 1 {
        assert(make_node(rest, v) == GDoc::Leaf(v));
        assert(path =~= seq![path.first()]);
        assert(kid_leaf_paths((path.first(), GDoc::Leaf(v))) =~= Set::empty().insert(path));
    } else {
        lemma_chain_paths(rest, v);
        let sub = make_node(rest, v);
        let inner = seq![(rest.first(), make_node(rest.drop_first(), v))];
        assert(sub == GDoc::Node(inner));
        assert(tree_ok_kids(inner, 1));
        assert(tree_ok_kids(inner, 0));
        assert(tree_ok(sub));
        assert(leaf_paths(sub) =~= Set::empty().insert(rest)) by {
            assert forall|p: Seq<Seq<char>>| #[trigger] leaf_paths(sub).contains(p) implies p
                == rest by {
                lemma_leaf_paths_member(inner, 0, p);
                assert(kid_leaf_paths(inner[0]).contains(p));
            }
            lemma_leaf_paths_member(inner, 0, rest);
        }
        assert(kid_leaf_paths((path.first(), sub)) =~= Set::empty().insert(path)) by {
            assert forall|p: Seq<Seq<char>>|
                kid_leaf_paths((path.first(), sub)).contains(p) implies p == path by {
                let q = choose|q: Seq<Seq<char>>|
                    leaf_paths(sub).contains(q) && p == seq![path.first()] + q;
                assert(q == rest);
                assert(seq![path.first()] + rest =~= path);
            }
            assert(leaf_paths(sub).contains(rest));
            assert(seq![path.first()] + rest =~= path);
            assert(leaf_paths(sub).map(
                |q: Seq<Seq<char>>| seq![path.first()] + q,
            ).contains(seq![path.first()] + rest));
        }
    }
}

/// Appending or replacing one child leaves the other children's soundness in
/// place.
proof fn lemma_tree_ok_kids_all(kids: Seq<(Seq<char>, GDoc)>, i: int)
    requires
        0 <= i <= kids.len(),
        forall|t: int|
            i <= t < kids.len() ==> tree_ok(#[trigger] kids[t].1) && (kids[t].1 is Node
                ==> kids[t].1->Node_0.len() > 0),
    ensures
        tree_ok_kids(kids, i),
    decreases kids.len() - i,
{
    if i < kids.len() {
        lemma_tree_ok_kids_all(kids, i + 1);
    }
}

/// A successful insert of a fresh, unconflicted path adds exactly that leaf
/// path; a refused insert pins an existing path the new one runs through.
/// This is the exact shape of a path conflict.
pub proof fn lemma_insert_paths(g: GDoc, path: Seq<Seq<char>>, v: Seq<char>)
    requires
        tree_ok(g),
        g is Node,
        path.len() >= 1,
    ensures
        spec_insert(g, path, v) is None <==> exists|p: Seq<Seq<char>>|
            #[trigger] leaf_paths(g).contains(p) && paths_conflict(p, path),
        spec_insert(g, path, v) matches Some(g2) ==> tree_ok(g2) && g2 is Node
            && g2->Node_0.len() > 0 && leaf_paths(g2) == leaf_paths(g).insert(path),
    decreases path.len(),
{
    let kids = g->Node_0;
    lemma_kid_index(kids, path.first(), 0);
    lemma_leaf_paths_nonempty_members(g);
    match kid_index(kids, path.first(), 0) {
        None => {
            let newkid = (path.first(), make_node(path.drop_first(), v));
            lemma_chain_paths(path, v);
            let kids2 = kids.push(newkid);
            let g2 = GDoc::Node(kids2);
            assert(spec_insert(g, path, v) == Some(g2));
            assert forall|p: Seq<Seq<char>>|
                #[trigger] leaf_paths(g).contains(p) implies !paths_conflict(p, path) by {
                if paths_conflict(p, path) {
                    assert(p.len() >= 1);
                    assert(p[0] == path.first()) by {
                        if p.is_prefix_of(path) {
                            assert(p[0] == path.subrange(0, p.len() as int)[0]);
                        } else {
                            assert(path[0] == p.subrange(0, path.len() as int)[0]);
                        }
                    }
                    lemma_leaf_paths_member(kids, 0, p);
                    let t = choose|t: int|
                        0 <= t < kids.len() && #[trigger] kid_leaf_paths(kids[t]).contains(p);
                    lemma_kid_leaf_paths(kids[t], p);
                    assert(kids[t].0 == path.first());
                }
            }
            assert(tree_ok(g2)) by {
                assert forall|a: int, b: int| 0 <= a < b < kids2.len() implies (
                #[trigger] kids2[a].0) != (#[trigger] kids2[b].0) by {
                    assert(kids2[a] == kids[a]);
                    if b < kids.len() {
                        assert(kids2[b] == kids[b]);
                    } else {
                        assert(kids2[b].0 == path.first());
                        assert(kids[a].0 != path.first());
                    }
                }
                assert forall|t: int|
                    0 <= t < kids2.len() implies tree_ok(#[trigger] kids2[t].1) && (kids2[t].1
                    is Node ==> kids2[t].1->Node_0.len() > 0) by {
                    if t < kids.len() {
                        assert(kids2[t] == kids[t]);
                        lemma_tree_ok_at(kids, 0, t);
                    }
                }
                lemma_tree_ok_kids_all(kids2, 0);
            }
            assert(leaf_paths(g2) =~= leaf_paths(g).insert(path)) by {
                assert forall|p: Seq<Seq<char>>|
                    #[trigger] leaf_paths(g2).contains(p) implies leaf_paths(g).insert(
                    path,
                ).contains(p) by {
                    lemma_leaf_paths_member(kids2, 0, p);
                    let t = choose|t: int|
                        0 <= t < kids2.len() && #[trigger] kid_leaf_paths(kids2[t]).contains(p);
                    if t < kids.len() {
                        assert(kids2[t] == kids[t]);
                        lemma_leaf_paths_member(kids, 0, p);
                    } else {
                        assert(p == path);
                    }
                }
                assert forall|p: Seq<Seq<char>>|
                    leaf_paths(g).insert(path).contains(p) implies #[trigger] leaf_paths(
                    g2,
                ).contains(p) by {
                    if p == path {
                        assert(kid_leaf_paths(kids2[kids.len() as int]).contains(p));
                        lemma_leaf_paths_member(kids2, 0, p);
                    } else {
                        lemma_leaf_paths_member(kids, 0, p);
                        let t = choose|t: int|
                            0 <= t < kids.len() && #[trigger] kid_leaf_paths(kids[t]).contains(p);
                        assert(kids2[t] == kids[t]);
                        lemma_leaf_paths_member(kids2, 0, p);
                    }
                }
            }
        },
        Some(j) => {
            lemma_tree_ok_at(kids, 0, j);
            let sub = kids[j].1;
            assert(kids[j].0 == path.first());
            if path.len() == 1 {
                assert(spec_insert(g, path, v) is None);
                match sub {
                    GDoc::Leaf(_) => {
                        let p = seq![path.first()];
                        assert(kid_leaf_paths(kids[j]).contains(p));
                        lemma_leaf_paths_member(kids, 0, p);
                        assert(p =~= path);
                        assert(leaf_paths(g).contains(p) && paths_conflict(p, path));
                    },
                    GDoc::Node(_) => {
                        lemma_leaf_paths_nonempty(sub);
                        let q = choose|q: Seq<Seq<char>>| #[trigger] leaf_paths(sub).contains(q);
                        let p = seq![path.first()] + q;
                        assert(kid_leaf_paths(kids[j]).contains(p)) by {
                            assert(leaf_paths(sub).map(
                                |r: Seq<Seq<char>>| seq![path.first()] + r,
                            ).contains(seq![path.first()] + q));
                        }
                        lemma_leaf_paths_member(kids, 0, p);
                        assert(path.is_prefix_of(p)) by {
                            assert(path =~= p.subrange(0, 1));
                        }
                        assert(leaf_paths(g).contains(p) && paths_conflict(path, p));
                        assert(paths_conflict(p, path));
                    },
                    GDoc::Scalar => {},
                }
            } else {
                let rest = path.drop_first();
                assert(path =~= seq![path.first()] + rest);
                match sub {
                    GDoc::Leaf(_) => {
                        let p = seq![path.first()];
                        assert(kid_leaf_paths(kids[j]).contains(p));
                        lemma_leaf_paths_member(kids, 0, p);
                        assert(p.is_prefix_of(path)) by {
                            assert(p =~= path.subrange(0, 1));
                        }
                        assert(leaf_paths(g).contains(p) && paths_conflict(p, path));
                        assert(spec_insert(g, path, v) is None);
                    },
                    GDoc::Node(_) => {
                        lemma_insert_paths(sub, rest, v);
                        match spec_insert(sub, rest, v) {
                            None => {
                                assert(spec_insert(g, path, v) is None);
                                let q = choose|q: Seq<Seq<char>>|
                                    #[trigger] leaf_paths(sub).contains(q) && paths_conflict(
                                        q,
                                        rest,
                                    );
                                let p = seq![path.first()] + q;
                                assert(kid_leaf_paths(kids[j]).contains(p)) by {
                                    assert(leaf_paths(sub).map(
                                        |r: Seq<Seq<char>>| seq![path.first()] + r,
                                    ).contains(seq![path.first()] + q));
                                }
                                lemma_leaf_paths_member(kids, 0, p);
                                lemma_conflict_shift(path.first(), q, rest);
                                assert(leaf_paths(g).contains(p) && paths_conflict(p, path));
                            },
                            Some(sub2) => {
                                let x = (path.first(), sub2);
                                let kids2 = kids.update(j, x);
                                let g2 = GDoc::Node(kids2);
                                assert(spec_insert(g, path, v) == Some(g2));
                                assert forall|p: Seq<Seq<char>>|
                                    #[trigger] leaf_paths(g).contains(p) implies !paths_conflict(
                                    p,
                                    path,
                                ) by {
                                    if paths_conflict(p, path) {
                                        assert(p.len() >= 1);
                                        assert(p[0] == path.first()) by {
                                            if p.is_prefix_of(path) {
                                                assert(p[0] == path.subrange(
                                                    0,
                                                    p.len() as int,
                                                )[0]);
                                            } else {
                                                assert(path[0] == p.subrange(
                                                    0,
                                                    path.len() as int,
                                                )[0]);
                                            }
                                        }
                                        lemma_leaf_paths_member(kids, 0, p);
                                        let t = choose|t: int|
                                            0 <= t < kids.len() && #[trigger] kid_leaf_paths(
                                                kids[t],
                                            ).contains(p);
                                        lemma_kid_leaf_paths(kids[t], p);
                                        assert(kids[t].0 == kids[j].0);
                                        assert(t == j) by {
                                            if t < j {
                                                assert(kids[t].0 != kids[j].0);
                                            }
                                            if t > j {
                                                assert(kids[j].0 != kids[t].0);
                                            }
                                        }
                                        let q = p.drop_first();
                                        assert(leaf_paths(sub).contains(q));
                                        assert(p =~= seq![path.first()] + q);
                                        lemma_conflict_shift(path.first(), q, rest);
                                        assert(paths_conflict(q, rest));
                                    }
                                }
                                assert(tree_ok(g2)) by {
                                    assert forall|a: int, b: int|
                                        0 <= a < b < kids2.len() implies (#[trigger] kids2[a].0)
                                        != (#[trigger] kids2[b].0) by {
                                        assert(kids2[a].0 == kids[a].0);
                                        assert(kids2[b].0 == kids[b].0);
                                    }
                                    assert forall|t: int|
                                        0 <= t < kids2.len() implies tree_ok(
                                        #[trigger] kids2[t].1,
                                    ) && (kids2[t].1 is Node ==> kids2[t].1->Node_0.len()
                                        > 0) by {
                                        if t != j {
                                            assert(kids2[t] == kids[t]);
                                            lemma_tree_ok_at(kids, 0, t);
                                        } else {
                                            assert(kids2[t].1 == sub2);
                                        }
                                    }
                                    lemma_tree_ok_kids_all(kids2, 0);
                                }
                                assert(leaf_paths(g2) =~= leaf_paths(g).insert(path)) by {
                                    assert forall|p: Seq<Seq<char>>|
                                        #[trigger] leaf_paths(g2).contains(p) implies leaf_paths(
                                        g,
                                    ).insert(path).contains(p) by {
                                        lemma_leaf_paths_member(kids2, 0, p);
                                        let t = choose|t: int|
                                            0 <= t < kids2.len() && #[trigger] kid_leaf_paths(
                                                kids2[t],
                                            ).contains(p);
                                        if t != j {
                                            assert(kids2[t] == kids[t]);
                                            lemma_leaf_paths_member(kids, 0, p);
                                        } else {
                                            lemma_kid_leaf_paths(kids2[t], p);
                                            let q = p.drop_first();
                                            assert(leaf_paths(sub2).contains(q));
                                            assert(leaf_paths(sub).insert(rest).contains(q));
                                            if q == rest {
                                                assert(p =~= path);
                                            } else {
                                                assert(leaf_paths(sub).contains(q));
                                                assert(kid_leaf_paths(kids[j]).contains(p)) by {
                                                    assert(p =~= seq![path.first()] + q);
                                                    assert(leaf_paths(sub).map(
                                                        |r: Seq<Seq<char>>| seq![path.first()] + r,
                                                    ).contains(seq![path.first()] + q));
                                                }
                                                lemma_leaf_paths_member(kids, 0, p);
                                            }
                                        }
                                    }
                                    assert forall|p: Seq<Seq<char>>|
                                        leaf_paths(g).insert(path).contains(
                                            p,
                                        ) implies #[trigger] leaf_paths(g2).contains(p) by {
                                        if p == path {
                                            assert(leaf_paths(sub2).contains(rest));
                                            assert(kid_leaf_paths(kids2[j as int]).contains(p)) by {
                                                assert(leaf_paths(sub2).map(
                                                    |r: Seq<Seq<char>>| seq![path.first()] + r,
                                                ).contains(seq![path.first()] + rest));
                                                assert(p =~= seq![path.first()] + rest);
                                            }
                                            lemma_leaf_paths_member(kids2, 0, p);
                                        } else {
                                            lemma_leaf_paths_member(kids, 0, p);
                                            let t = choose|t: int|
                                                0 <= t < kids.len() && #[trigger] kid_leaf_paths(
                                                    kids[t],
                                                ).contains(p);
                                            if t != j {
                                                assert(kids2[t] == kids[t]);
                                                lemma_leaf_paths_member(kids2, 0, p);
                                            } else {
                                                lemma_kid_leaf_paths(kids[t], p);
                                                let q = p.drop_first();
                                                assert(leaf_paths(sub).contains(q));
                                                assert(leaf_paths(sub2).contains(q));
                                                assert(kid_leaf_paths(kids2[j as int]).contains(
                                                    p,
                                                )) by {
                                                    assert(p =~= seq![path.first()] + q);
                                                    assert(leaf_paths(sub2).map(
                                                        |r: Seq<Seq<char>>| seq![path.first()] + r,
                                                    ).contains(seq![path.first()] + q));
                                                }
                                                lemma_leaf_paths_member(kids2, 0, p);
                                            }
                                        }
                                    }
                                }
                            },
                        }
                    },
                    GDoc::Scalar => {},
                }
            }
        },
    }
}


/// The path a parseable key addresses: its segments, then its content.
pub open spec fn key_path(k: Seq<char>) -> Seq<Seq<char>> {
    parse_key(k)->Some_0.0.push(parse_key(k)->Some_0.1)
}

/// Encoding the remaining entries into a well-built tree succeeds exactly
/// when every remaining key parses, none of their paths runs through a leaf
/// path already in the tree, and no two of their paths run through each
/// other.
proof fn lemma_encode_refusal_from(entries: Seq<(Seq<char>, Seq<char>)>, i: int, g: GDoc)
    requires
        0 <= i <= entries.len(),
        tree_ok(g),
        g is Node,
    ensures
        spec_encode_from(entries, i, g) is Ok <==> ((forall|j: int|
            i <= j < entries.len() ==> (#[trigger] parse_key(entries[j].0)) is Some) && (forall|
            j: int,
            p: Seq<Seq<char>>,
        |
            i <= j < entries.len() && #[trigger] leaf_paths(g).contains(p) ==> !paths_conflict(
                p,
                #[trigger] key_path(entries[j].0),
            )) && (forall|t: int, j: int|
            i <= t < j < entries.len() ==> !paths_conflict(
                #[trigger] key_path(entries[t].0),
                #[trigger] key_path(entries[j].0),
            ))),
    decreases entries.len() - i,
{
    if i < entries.len() {
        match parse_key(entries[i].0) {
            None => {
                assert(spec_encode_from(entries, i, g) is Err);
            },
            Some(pc) => {
                let path = pc.0.push(pc.1);
                assert(path == key_path(entries[i].0));
                assert(path.len() >= 1);
                lemma_insert_paths(g, path, entries[i].1);
                match spec_insert(g, path, entries[i].1) {
                    None => {
                        assert(spec_encode_from(entries, i, g) is Err);
                        let p = choose|p: Seq<Seq<char>>|
                            #[trigger] leaf_paths(g).contains(p) && paths_conflict(p, path);
                        assert(leaf_paths(g).contains(p) && !!paths_conflict(
                            p,
                            key_path(entries[i].0),
                        ));
                    },
                    Some(g2) => {
                        lemma_encode_refusal_from(entries, i + 1, g2);
                        assert(leaf_paths(g2) == leaf_paths(g).insert(path));
                        let lhs = spec_encode_from(entries, i, g) is Ok;
                        assert(lhs == (spec_encode_from(entries, i + 1, g2) is Ok));
                        if spec_encode_from(entries, i + 1, g2) is Ok {
                            assert forall|j: int, p: Seq<Seq<char>>|
                                i <= j < entries.len() && #[trigger] leaf_paths(g).contains(
                                    p,
                                ) implies !paths_conflict(p, #[trigger] key_path(entries[j].0)) by {
                                if j > i {
                                    assert(leaf_paths(g2).contains(p));
                                }
                            }
                            assert forall|t: int, j: int|
                                i <= t < j < entries.len() implies !paths_conflict(
                                #[trigger] key_path(entries[t].0),
                                #[trigger] key_path(entries[j].0),
                            ) by {
                                if t == i {
                                    assert(leaf_paths(g2).contains(path));
                                    assert(!paths_conflict(path, key_path(entries[j].0)));
                                }
                            }
                        }
                        if !(spec_encode_from(entries, i + 1, g2) is Ok) {
                            if (forall|j: int|
                                i <= j < entries.len() ==> (#[trigger] parse_key(entries[j].0))
                                    is Some) && (forall|j: int, p: Seq<Seq<char>>|
                                i <= j < entries.len() && #[trigger] leaf_paths(g).contains(p)
                                    ==> !paths_conflict(p, #[trigger] key_path(entries[j].0)))
                                && (forall|t: int, j: int|
                                i <= t < j < entries.len() ==> !paths_conflict(
                                    #[trigger] key_path(entries[t].0),
                                    #[trigger] key_path(entries[j].0),
                                )) {
                                assert forall|j: int, p: Seq<Seq<char>>|
                                    i + 1 <= j < entries.len() && #[trigger] leaf_paths(
                                        g2,
                                    ).contains(p) implies !paths_conflict(
                                    p,
                                    #[trigger] key_path(entries[j].0),
                                ) by {
                                    if p == path {
                                        assert(!paths_conflict(
                                            key_path(entries[i].0),
                                            key_path(entries[j].0),
                                        ));
                                    } else {
                                        assert(leaf_paths(g).contains(p));
                                    }
                                }
                                assert(spec_encode_from(entries, i + 1, g2) is Ok);
                            }
                        }
                    },
                }
            },
        }
    }
}

/// The refusal law of the codec: encoding a list of entries succeeds exactly
/// when every key follows the key convention and no two keys address paths
/// that run through one another — one treating as a mapping what the other
/// treats as a leaf, or both binding the very same path.
pub proof fn lemma_encode_refusal(entries: Seq<(Seq<char>, Seq<char>)>)
    ensures
        spec_encode(entries) is Ok <==> ((forall|j: int|
            0 <= j < entries.len() ==> (#[trigger] parse_key(entries[j].0)) is Some) && (forall|
            t: int,
            j: int,
        |
            0 <= t < j < entries.len() ==> !paths_conflict(
                #[trigger] key_path(entries[t].0),
                #[trigger] key_path(entries[j].0),
            ))),
{
    let g0 = GDoc::Node(Seq::<(Seq<char>, GDoc)>::empty());
    assert(tree_ok_kids(Seq::<(Seq<char>, GDoc)>::empty(), 0));
    assert(tree_ok(g0));
    assert(leaf_paths(g0) =~= Set::<Seq<Seq<char>>>::empty()) by {
        assert forall|p: Seq<Seq<char>>| !(#[trigger] leaf_paths(g0).contains(p)) by {
            lemma_leaf_paths_member(Seq::<(Seq<char>, GDoc)>::empty(), 0, p);
        }
    }
    lemma_encode_refusal_from(entries, 0, g0);
}

/// Every key is flat: it parses, and its structural path is empty.
pub open spec fn all_flat(entries: Seq<(Seq<char>, Seq<char>)>) -> bool {
    forall|i: int|
        0 <= i < entries.len() ==> (#[trigger] parse_key(entries[i].0)) is Some && parse_key(
            entries[i].0,
        )->Some_0.0.len() == 0
}

/// Success is owed on flat catalogs: a duplicate-free list of keys with no
/// structural prefix always encodes, so a catalog minted from prefix-free
/// translate calls is never refused.
pub proof fn lemma_encode_flat(entries: Seq<(Seq<char>, Seq<char>)>)
    requires
        alist_unique(entries),
        all_flat(entries),
    ensures
        spec_encode(entries) is Ok,
{
    lemma_encode_refusal(entries);
    assert forall|t: int, j: int| 0 <= t < j < entries.len() implies !paths_conflict(
        #[trigger] key_path(entries[t].0),
        #[trigger] key_path(entries[j].0),
    ) by {
        let a = key_path(entries[t].0);
        let b = key_path(entries[j].0);
        assert(a.len() == 1 && b.len() == 1);
        if paths_conflict(a, b) {
            assert(a =~= b);
            lemma_parse_sound(entries[t].0);
            lemma_parse_sound(entries[j].0);
            assert(a.last() == parse_key(entries[t].0)->Some_0.1);
            assert(b.last() == parse_key(entries[j].0)->Some_0.1);
            assert(entries[t].0 =~= entries[j].0) by {
                assert(join_segs(parse_key(entries[t].0)->Some_0.0) =~= join_segs(
                    parse_key(entries[j].0)->Some_0.0,
                ));
            }
        }
    }
}

} // verus!
