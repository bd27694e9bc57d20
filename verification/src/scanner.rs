//! Source scanner: finds translation call-sites in a tokenized source file.
//!
//! The scanner reads a generic token stream (identifiers, punctuation,
//! literals and nested groups) and recognizes two macro-call shapes anywhere
//! in it, at any nesting depth: an initialization call `init!("dir")` naming
//! the catalog directory, and a translate call `tr!("content", ...)` or
//! `tr!([".prefix"] "content", ...)` minting one translation key. The key is
//! the prefix (empty when absent), a space, and the content, exactly the flat
//! key convention of the codec.
use vstd::prelude::*;
use vstd::string::*;

use crate::codec::sp;
use crate::strmap::{str_eq, StrSet};

verus! {

broadcast use {
    vstd::seq::axiom_seq_index_decreases,
    vstd::seq::axiom_seq_subrange_decreases,
    vstd::std_specs::vec::axiom_vec_decreases_to_view,
    vstd::std_specs::vec::axiom_vec_index_decreases,
};

/// A source position: one-based line, zero-based column.
#[derive(Clone, Copy, Debug, PartialEq, Eq, Structural)]
pub struct Pos {
    pub line: usize,
    pub col: usize,
}

/// One token of a source file, as a generic lexer hands it out. String
/// literals carry their unescaped text; any other literal is kept only as a
/// position. Groups carry whatever stands between their delimiters.
#[derive(Debug, PartialEq, Eq)]
pub enum Token {
    Group(Vec<Token>, Pos),
    Ident(String, Pos),
    Punct(char, Pos),
    StrLit(String, Pos),
    OtherLit(Pos),
}

/// What went wrong while scanning.
#[derive(Clone, Copy, Debug, PartialEq, Eq, Structural)]
pub enum ScanErrorKind {
    /// A second initialization call was found.
    DuplicateInit,
    /// A translate-call prefix does not start with the path separator.
    MalformedPrefix,
    /// A recognized call is missing a required string-literal argument.
    MalformedCall,
}

/// A scan failure, with the position of the offending token when one exists.
#[derive(Clone, Copy, Debug, PartialEq, Eq)]
pub struct ScanError {
    pub kind: ScanErrorKind,
    pub pos: Option<Pos>,
}

/// The position a token carries.
pub open spec fn tok_pos(t: Token) -> Pos {
    match t {
        Token::Group(_, p) => p,
        Token::Ident(_, p) => p,
        Token::Punct(_, p) => p,
        Token::StrLit(_, p) => p,
        Token::OtherLit(p) => p,
    }
}

/// The running state of a scan: the keys minted so far and the catalog
/// directory, once an initialization call has named one.
pub type ScanModel = (Set<Seq<char>>, Option<Seq<char>>);

pub open spec fn is_bang(t: Token) -> bool {
    match t {
        Token::Punct(c, _) => c == '!',
        _ => false,
    }
}

/// The prefix text must name a path: it starts with the separator.
pub open spec fn starts_with_dot(v: Seq<char>) -> bool {
    v.len() > 0 && v[0] == '.'
}

/// Reading the one argument of an initialization call: a string literal
/// naming the catalog directory, rejected when one was already named.
pub open spec fn spec_scan_init(args: Seq<Token>, st: ScanModel) -> Result<ScanModel, ScanError> {
    if args.len() == 0 {
        Err(ScanError { kind: ScanErrorKind::MalformedCall, pos: None })
    } else {
        match args[0] {
            Token::StrLit(v, p) => {
                if st.1 is Some {
                    Err(ScanError { kind: ScanErrorKind::DuplicateInit, pos: Some(p) })
                } else {
                    Ok((st.0, Some(v@)))
                }
            },
            Token::OtherLit(p) => {
                if st.1 is Some {
                    Err(ScanError { kind: ScanErrorKind::DuplicateInit, pos: Some(p) })
                } else {
                    Err(ScanError { kind: ScanErrorKind::MalformedCall, pos: Some(p) })
                }
            },
            t => Err(ScanError { kind: ScanErrorKind::MalformedCall, pos: Some(tok_pos(t)) }),
        }
    }
}

/// Reading the content argument of a translate call at position `i`, under an
/// already-read prefix: the minted key is the prefix, a space, the content.
pub open spec fn spec_scan_tr_content(args: Seq<Token>, i: int, prefix: Seq<char>) -> Result<
    Seq<char>,
    ScanError,
> {
    if i >= args.len() {
        Err(ScanError { kind: ScanErrorKind::MalformedCall, pos: None })
    } else {
        match args[i] {
            Token::StrLit(v, _) => Ok(prefix + sp() + v@),
            t => Err(ScanError { kind: ScanErrorKind::MalformedCall, pos: Some(tok_pos(t)) }),
        }
    }
}

/// Reading the arguments of a translate call: an optional bracketed prefix
/// (a string literal that must start with the separator), then the content.
pub open spec fn spec_scan_tr(args: Seq<Token>) -> Result<Seq<char>, ScanError> {
    if args.len() > 0 && args[0] is Group {
        let inner = args[0]->Group_0@;
        if inner.len() == 0 {
            Err(ScanError { kind: ScanErrorKind::MalformedCall, pos: None })
        } else {
            match inner[0] {
                Token::StrLit(v, p) => {
                    if !starts_with_dot(v@) {
                        Err(ScanError { kind: ScanErrorKind::MalformedPrefix, pos: Some(p) })
                    } else {
                        spec_scan_tr_content(args, 1, v@)
                    }
                },
                t => Err(ScanError { kind: ScanErrorKind::MalformedCall, pos: Some(tok_pos(t)) }),
            }
        }
    } else {
        spec_scan_tr_content(args, 0, Seq::empty())
    }
}

/// One scan pass over a token stream: descend into every group, recognize
/// `init!` and `tr!` calls by an identifier, a bang and a group, and carry
/// the state through; stop at the first failure.
pub open spec fn spec_scan(ts: Seq<Token>, st: ScanModel) -> Result<ScanModel, ScanError>
    decreases ts,
{
    if ts.len() == 0 {
        Ok(st)
    } else {
        match ts[0] {
            Token::Group(inner, _) => match spec_scan(inner@, st) {
                Ok(st2) => spec_scan(ts.skip(1), st2),
                Err(e) => Err(e),
            },
            Token::Ident(id, _) => {
                if ts.len() >= 2 && is_bang(ts[1]) {
                    if ts.len() >= 3 && ts[2] is Group && id@ == "init"@ {
                        match spec_scan_init(ts[2]->Group_0@, st) {
                            Ok(st2) => spec_scan(ts.skip(3), st2),
                            Err(e) => Err(e),
                        }
                    } else if ts.len() >= 3 && ts[2] is Group && id@ == "tr"@ {
                        match spec_scan_tr(ts[2]->Group_0@) {
                            Ok(key) => spec_scan(ts.skip(3), (st.0.insert(key), st.1)),
                            Err(e) => Err(e),
                        }
                    } else {
                        spec_scan(ts.skip(2), st)
                    }
                } else {
                    spec_scan(ts.skip(1), st)
                }
            },
            _ => spec_scan(ts.skip(1), st),
        }
    }
}


/// The view of an optional directory string.
pub open spec fn opt_view(o: Option<String>) -> Option<Seq<char>> {
    match o {
        Some(s) => Some(s@),
        None => None,
    }
}

/// The running state of a scan over a set of source files.
#[derive(Debug)]
pub struct ScanState {
    pub keys: StrSet,
    pub dir: Option<String>,
}

impl ScanState {
    /// The model this state carries.
    pub open spec fn view(&self) -> ScanModel {
        (self.keys@, opt_view(self.dir))
    }

    pub open spec fn wf(&self) -> bool {
        self.keys.wf()
    }

    pub fn new() -> (r: ScanState)
        ensures
            r.wf(),
            r@ == (Set::<Seq<char>>::empty(), Option::<Seq<char>>::None),
    {
        ScanState { keys: StrSet::new(), dir: None }
    }
}

/// Reads the one argument of an initialization call.
fn scan_init(args: &Vec<Token>, st: ScanState) -> (r: Result<ScanState, ScanError>)
    requires
        st.wf(),
    ensures
        match r {
            Ok(st2) => st2.wf() && spec_scan_init(args@, st@) == Ok::<ScanModel, ScanError>(st2@),
            Err(e) => spec_scan_init(args@, st@) == Err::<ScanModel, ScanError>(e),
        },
{
    if args.len() == 0 {
        return Err(ScanError { kind: ScanErrorKind::MalformedCall, pos: None });
    }
    match &args[0] {
        Token::StrLit(v, p) => {
            if st.dir.is_some() {
                Err(ScanError { kind: ScanErrorKind::DuplicateInit, pos: Some(*p) })
            } else {
                Ok(ScanState { keys: st.keys, dir: Some(v.clone()) })
            }
        },
        Token::OtherLit(p) => {
            if st.dir.is_some() {
                Err(ScanError { kind: ScanErrorKind::DuplicateInit, pos: Some(*p) })
            } else {
                Err(ScanError { kind: ScanErrorKind::MalformedCall, pos: Some(*p) })
            }
        },
        t => Err(ScanError { kind: ScanErrorKind::MalformedCall, pos: Some(tok_pos_exec(t)) }),
    }
}

/// The position a token carries.
fn tok_pos_exec(t: &Token) -> (r: Pos)
    ensures
        r == tok_pos(*t),
{
    match t {
        Token::Group(_, p) => *p,
        Token::Ident(_, p) => *p,
        Token::Punct(_, p) => *p,
        Token::StrLit(_, p) => *p,
        Token::OtherLit(p) => *p,
    }
}

/// Reads the content argument of a translate call and mints the key.
fn scan_tr_content(args: &Vec<Token>, i: usize, prefix: String) -> (r: Result<String, ScanError>)
    requires
        i <= args@.len(),
    ensures
        match r {
            Ok(key) => spec_scan_tr_content(args@, i as int, prefix@) == Ok::<Seq<char>, ScanError>(
                key@,
            ),
            Err(e) => spec_scan_tr_content(args@, i as int, prefix@) == Err::<Seq<char>, ScanError>(
                e,
            ),
        },
{
    if i >= args.len() {
        return Err(ScanError { kind: ScanErrorKind::MalformedCall, pos: None });
    }
    match &args[i] {
        Token::StrLit(v, _) => {
            let mut key = prefix;
            key.append(" ");
            key.append(v.as_str());
            proof {
                reveal_strlit(" ");
                assert(key@ =~= prefix@ + sp() + v@);
            }
            Ok(key)
        },
        t => Err(ScanError { kind: ScanErrorKind::MalformedCall, pos: Some(tok_pos_exec(t)) }),
    }
}

/// Reads the arguments of a translate call and mints the key.
fn scan_tr(args: &Vec<Token>) -> (r: Result<String, ScanError>)
    ensures
        match r {
            Ok(key) => spec_scan_tr(args@) == Ok::<Seq<char>, ScanError>(key@),
            Err(e) => spec_scan_tr(args@) == Err::<Seq<char>, ScanError>(e),
        },
{
    if args.len() > 0 {
        let is_group = match &args[0] {
            Token::Group(_, _) => true,
            _ => false,
        };
        if is_group {
            match &args[0] {
                Token::Group(inner, _) => {
                    if inner.len() == 0 {
                        return Err(ScanError { kind: ScanErrorKind::MalformedCall, pos: None });
                    }
                    match &inner[0] {
                        Token::StrLit(v, p) => {
                            let starts = if v.as_str().unicode_len() == 0 {
                                false
                            } else {
                                v.as_str().get_char(0) == '.'
                            };
                            if !starts {
                                return Err(
                                    ScanError {
                                        kind: ScanErrorKind::MalformedPrefix,
                                        pos: Some(*p),
                                    },
                                );
                            }
                            scan_tr_content(args, 1, v.clone())
                        },
                        t => Err(
                            ScanError {
                                kind: ScanErrorKind::MalformedCall,
                                pos: Some(tok_pos_exec(t)),
                            },
                        ),
                    }
                },
                _ => Err(ScanError { kind: ScanErrorKind::MalformedCall, pos: None }),
            }
        } else {
            scan_tr_content(args, 0, String::new())
        }
    } else {
        scan_tr_content(args, 0, String::new())
    }
}

/// Scans one token stream, carrying the state through: descends into every
/// group, recognizes `init!` and `tr!` calls at any depth, and stops at the
/// first failure. The result is exactly what the scan model describes.
#[verifier::loop_isolation(false)]
pub fn scan_tokens(ts: &Vec<Token>, st: ScanState) -> (r: Result<ScanState, ScanError>)
    requires
        st.wf(),
    ensures
        match r {
            Ok(st2) => st2.wf() && spec_scan(ts@, st@) == Ok::<ScanModel, ScanError>(st2@),
            Err(e) => spec_scan(ts@, st@) == Err::<ScanModel, ScanError>(e),
        },
    decreases ts,
{
    let ghost st0 = st@;
    let mut cur = st;
    let n = ts.len();
    let mut i: usize = 0;
    proof {
        assert(ts@.skip(0) =~= ts@);
    }
    while i < n
        invariant
            n == ts@.len(),
            i <= n,
            cur.wf(),
            spec_scan(ts@, st0) == spec_scan(ts@.skip(i as int), cur@),
        decreases n - i,
    {
        let ghost rem = ts@.skip(i as int);
        let ghost cur0 = cur@;
        proof {
            assert(rem.len() == n - i);
            assert(rem[0] == ts@[i as int]);
        }
        match &ts[i] {
            Token::Group(inner, _) => {
                proof {
                    assert(rem[0] is Group && rem[0]->Group_0 == *inner);
                }
                match scan_tokens(inner, cur) {
                    Ok(st2) => {
                        cur = st2;
                    },
                    Err(e) => {
                        proof {
                            assert(spec_scan(inner@, cur0) == Err::<ScanModel, ScanError>(e));
                            assert(spec_scan(rem, cur0) == Err::<ScanModel, ScanError>(e));
                        }
                        return Err(e);
                    },
                }
                proof {
                    assert(rem.skip(1) =~= ts@.skip(i as int + 1));
                    assert(spec_scan(rem, cur0) == spec_scan(ts@.skip(i as int + 1), cur@));
                }
                i = i + 1;
            },
            Token::Ident(id, _) => {
                proof {
                    assert(rem[0] is Ident && rem[0]->Ident_0 == *id);
                }
                let has_bang = if i + 1 < n {
                    match &ts[i + 1] {
                        Token::Punct(c, _) => *c == '!',
                        _ => false,
                    }
                } else {
                    false
                };
                proof {
                    if i + 1 < n {
                        assert(rem[1] == ts@[i as int + 1]);
                    }
                    assert(has_bang == (rem.len() >= 2 && is_bang(rem[1])));
                }
                if has_bang && i + 2 < n {
                    proof {
                        assert(rem[2] == ts@[i as int + 2]);
                    }
                    let next_group = match &ts[i + 2] {
                        Token::Group(_, _) => true,
                        _ => false,
                    };
                    let is_init = next_group && str_eq(id.as_str(), "init");
                    let is_tr = !is_init && next_group && str_eq(id.as_str(), "tr");
                    if is_init {
                        match &ts[i + 2] {
                            Token::Group(args, _) => {
                                proof {
                                    assert(rem[2]->Group_0 == *args);
                                }
                                match scan_init(args, cur) {
                                    Ok(st2) => {
                                        cur = st2;
                                        proof {
                                            assert(spec_scan(rem, cur0) == spec_scan(
                                                rem.skip(3),
                                                cur@,
                                            ));
                                        }
                                    },
                                    Err(e) => {
                                        proof {
                                            assert(spec_scan(rem, cur0) == Err::<
                                                ScanModel,
                                                ScanError,
                                            >(e));
                                        }
                                        return Err(e);
                                    },
                                }
                            },
                            _ => {
                                proof {
                                    assert(false);
                                }
                            },
                        }
                        proof {
                            assert(rem.skip(3) =~= ts@.skip(i as int + 3));
                        }
                        i = i + 3;
                    } else if is_tr {
                        match &ts[i + 2] {
                            Token::Group(args, _) => {
                                proof {
                                    assert(rem[2]->Group_0 == *args);
                                }
                                match scan_tr(args) {
                                    Ok(key) => {
                                        cur.keys.insert(key);
                                        proof {
                                            assert(cur@ == (cur0.0.insert(key@), cur0.1));
                                            assert(spec_scan(rem, cur0) == spec_scan(
                                                rem.skip(3),
                                                cur@,
                                            ));
                                        }
                                    },
                                    Err(e) => {
                                        proof {
                                            assert(spec_scan(rem, cur0) == Err::<
                                                ScanModel,
                                                ScanError,
                                            >(e));
                                        }
                                        return Err(e);
                                    },
                                }
                            },
                            _ => {
                                proof {
                                    assert(false);
                                }
                            },
                        }
                        proof {
                            assert(rem.skip(3) =~= ts@.skip(i as int + 3));
                        }
                        i = i + 3;
                    } else {
                        proof {
                            assert(spec_scan(rem, cur0) == spec_scan(rem.skip(2), cur0));
                            assert(rem.skip(2) =~= ts@.skip(i as int + 2));
                        }
                        i = i + 2;
                    }
                } else if has_bang {
                    proof {
                        assert(rem.len() == 2);
                        assert(spec_scan(rem, cur0) == spec_scan(rem.skip(2), cur0));
                        assert(rem.skip(2) =~= ts@.skip(n as int));
                    }
                    i = n;
                } else {
                    proof {
                        assert(spec_scan(rem, cur0) == spec_scan(rem.skip(1), cur0));
                        assert(rem.skip(1) =~= ts@.skip(i as int + 1));
                    }
                    i = i + 1;
                }
            },
            _ => {
                proof {
                    assert(spec_scan(rem, cur0) == spec_scan(rem.skip(1), cur0));
                    assert(rem.skip(1) =~= ts@.skip(i as int + 1));
                }
                i = i + 1;
            },
        }
    }
    proof {
        assert(ts@.skip(i as int).len() == 0);
        assert(spec_scan(ts@.skip(i as int), cur@) == Ok::<ScanModel, ScanError>(cur@));
    }
    Ok(cur)
}


/// With a directory already named, a scan that succeeds leaves it unchanged:
/// nothing ever unsets or replaces the catalog directory.
pub proof fn lemma_scan_keeps_dir(ts: Seq<Token>, st: ScanModel)
    requires
        st.1 is Some,
        spec_scan(ts, st) is Ok,
    ensures
        spec_scan(ts, st)->Ok_0.1 == st.1,
    decreases ts,
{
    if ts.len() > 0 {
        match ts[0] {
            Token::Group(inner, _) => {
                lemma_scan_keeps_dir(inner@, st);
                lemma_scan_keeps_dir(ts.skip(1), spec_scan(inner@, st)->Ok_0);
            },
            Token::Ident(id, _) => {
                if ts.len() >= 2 && is_bang(ts[1]) {
                    if ts.len() >= 3 && ts[2] is Group && id@ == "init"@ {
                        assert(spec_scan_init(ts[2]->Group_0@, st) is Err);
                    } else if ts.len() >= 3 && ts[2] is Group && id@ == "tr"@ {
                        match spec_scan_tr(ts[2]->Group_0@) {
                            Ok(key) => {
                                lemma_scan_keeps_dir(ts.skip(3), (st.0.insert(key), st.1));
                            },
                            Err(_) => {},
                        }
                    } else {
                        lemma_scan_keeps_dir(ts.skip(2), st);
                    }
                } else {
                    lemma_scan_keeps_dir(ts.skip(1), st);
                }
            },
            _ => {
                lemma_scan_keeps_dir(ts.skip(1), st);
            },
        }
    }
}

/// A stream that scans cleanly from a fresh state behaves, from a state whose
/// directory is already named, in exactly one of two ways: if the stream
/// names a directory anywhere, the scan stops with a duplicate-initialization
/// error; if it names none, the scan succeeds and the directory stands.
pub proof fn lemma_scan_after_init(ts: Seq<Token>, a: ScanModel, b: ScanModel)
    requires
        a.1 is None,
        b.1 is Some,
        spec_scan(ts, a) is Ok,
    ensures
        spec_scan(ts, a)->Ok_0.1 is Some ==> spec_scan(ts, b) is Err && spec_scan(
            ts,
            b,
        )->Err_0.kind == ScanErrorKind::DuplicateInit,
        spec_scan(ts, a)->Ok_0.1 is None ==> spec_scan(ts, b) is Ok && spec_scan(
            ts,
            b,
        )->Ok_0.1 == b.1,
    decreases ts,
{
    if ts.len() > 0 {
        match ts[0] {
            Token::Group(inner, _) => {
                let sa = spec_scan(inner@, a)->Ok_0;
                lemma_scan_after_init(inner@, a, b);
                if sa.1 is Some {
                    lemma_scan_keeps_dir(ts.skip(1), sa);
                } else {
                    let sb = spec_scan(inner@, b)->Ok_0;
                    lemma_scan_after_init(ts.skip(1), sa, sb);
                }
            },
            Token::Ident(id, _) => {
                if ts.len() >= 2 && is_bang(ts[1]) {
                    if ts.len() >= 3 && ts[2] is Group && id@ == "init"@ {
                        let args = ts[2]->Group_0@;
                        assert(spec_scan_init(args, a) is Ok);
                        assert(args[0] is StrLit);
                        assert(spec_scan_init(args, b) is Err && spec_scan_init(
                            args,
                            b,
                        )->Err_0.kind == ScanErrorKind::DuplicateInit);
                        let sa = spec_scan_init(args, a)->Ok_0;
                        lemma_scan_keeps_dir(ts.skip(3), sa);
                    } else if ts.len() >= 3 && ts[2] is Group && id@ == "tr"@ {
                        match spec_scan_tr(ts[2]->Group_0@) {
                            Ok(key) => {
                                lemma_scan_after_init(
                                    ts.skip(3),
                                    (a.0.insert(key), a.1),
                                    (b.0.insert(key), b.1),
                                );
                            },
                            Err(_) => {},
                        }
                    } else {
                        lemma_scan_after_init(ts.skip(2), a, b);
                    }
                } else {
                    lemma_scan_after_init(ts.skip(1), a, b);
                }
            },
            _ => {
                lemma_scan_after_init(ts.skip(1), a, b);
            },
        }
    }
}

/// Duplicate-initialization detection across a file set: when one scanned
/// file has named the catalog directory and another file, scanned on its own,
/// would name one too, the run that scans them in sequence stops at the
/// second file with a duplicate-initialization error, so no directory is ever
/// reported out of such a run.
pub proof fn lemma_duplicate_init(ts1: Seq<Token>, ts2: Seq<Token>, keys: Set<Seq<char>>)
    requires
        spec_scan(ts1, (keys, Option::<Seq<char>>::None)) is Ok,
        spec_scan(ts1, (keys, Option::<Seq<char>>::None))->Ok_0.1 is Some,
        spec_scan(ts2, (spec_scan(ts1, (keys, Option::<Seq<char>>::None))->Ok_0.0, Option::<
            Seq<char>,
        >::None)) is Ok,
        spec_scan(ts2, (spec_scan(ts1, (keys, Option::<Seq<char>>::None))->Ok_0.0, Option::<
            Seq<char>,
        >::None))->Ok_0.1 is Some,
    ensures
        spec_scan(ts2, spec_scan(ts1, (keys, Option::<Seq<char>>::None))->Ok_0) is Err,
        spec_scan(ts2, spec_scan(ts1, (keys, Option::<Seq<char>>::None))->Ok_0)->Err_0.kind
            == ScanErrorKind::DuplicateInit,
{
    let r1 = spec_scan(ts1, (keys, Option::<Seq<char>>::None))->Ok_0;
    lemma_scan_after_init(ts2, (r1.0, Option::<Seq<char>>::None), r1);
}

/// Key minting is injective in the content: under one prefix, distinct
/// contents mint distinct keys, and the key carries the content byte-for-byte
/// after the space.
pub proof fn lemma_minted_key_exact(prefix: Seq<char>, c1: Seq<char>, c2: Seq<char>)
    ensures
        (prefix + sp() + c1 == prefix + sp() + c2) <==> c1 == c2,
        (prefix + sp() + c1).skip(prefix.len() as int + 1) == c1,
{
    assert((prefix + sp() + c1).skip(prefix.len() as int + 1) =~= c1);
    if prefix + sp() + c1 == prefix + sp() + c2 {
        assert((prefix + sp() + c2).skip(prefix.len() as int + 1) =~= c2);
        assert(c1 == c2);
    }
}

/// The keys a file of prefix-free translate calls yields, one per content.
pub open spec fn minted_keys(contents: Set<Seq<char>>) -> Set<Seq<char>> {
    contents.map(|c: Seq<char>| Seq::<char>::empty() + sp() + c)
}

/// Scanner completeness over contents: a set of distinct translate-call
/// contents, minted without prefixes, yields exactly one key per content.
pub proof fn lemma_minted_keys_size(contents: Set<Seq<char>>)
    requires
        contents.finite(),
    ensures
        minted_keys(contents).finite(),
        minted_keys(contents).len() == contents.len(),
{
    let f = |c: Seq<char>| Seq::<char>::empty() + sp() + c;
    assert forall|c1: Seq<char>, c2: Seq<char>|
        contents.contains(c1) && contents.contains(c2) && #[trigger] f(c1) == #[trigger] f(
            c2,
        ) implies c1 == c2 by {
        lemma_minted_key_exact(Seq::<char>::empty(), c1, c2);
    }
    assert(vstd::relations::injective_on(f, contents));
    vstd::set_lib::lemma_map_size(contents, contents.map(f), f);
}


/// The translation keys a token stream mints: one per recognized translate
/// call, at any depth, in a scan that runs to the end.
pub open spec fn scan_keys(ts: Seq<Token>) -> Set<Seq<char>>
    decreases ts,
{
    if ts.len() == 0 {
        Set::empty()
    } else {
        match ts[0] {
            Token::Group(inner, _) => scan_keys(inner@).union(scan_keys(ts.skip(1))),
            Token::Ident(id, _) => {
                if ts.len() >= 2 && is_bang(ts[1]) {
                    if ts.len() >= 3 && ts[2] is Group && id@ == "init"@ {
                        scan_keys(ts.skip(3))
                    } else if ts.len() >= 3 && ts[2] is Group && id@ == "tr"@ {
                        match spec_scan_tr(ts[2]->Group_0@) {
                            Ok(key) => scan_keys(ts.skip(3)).insert(key),
                            Err(_) => scan_keys(ts.skip(3)),
                        }
                    } else {
                        scan_keys(ts.skip(2))
                    }
                } else {
                    scan_keys(ts.skip(1))
                }
            },
            _ => scan_keys(ts.skip(1)),
        }
    }
}

/// Scanner completeness: a scan that runs to the end yields exactly the keys
/// it started with plus the keys the stream mints, whatever the state it
/// started from. One key is minted per recognized translate call, its prefix
/// and content preserved character for character.
pub proof fn lemma_scan_keys(ts: Seq<Token>, st: ScanModel)
    requires
        spec_scan(ts, st) is Ok,
    ensures
        spec_scan(ts, st)->Ok_0.0 == st.0.union(scan_keys(ts)),
    decreases ts,
{
    if ts.len() == 0 {
        assert(st.0.union(Set::<Seq<char>>::empty()) =~= st.0);
    } else {
        match ts[0] {
            Token::Group(inner, _) => {
                let mid = spec_scan(inner@, st)->Ok_0;
                lemma_scan_keys(inner@, st);
                lemma_scan_keys(ts.skip(1), mid);
                assert(st.0.union(scan_keys(inner@)).union(scan_keys(ts.skip(1)))
                    =~= st.0.union(scan_keys(ts)));
            },
            Token::Ident(id, _) => {
                if ts.len() >= 2 && is_bang(ts[1]) {
                    if ts.len() >= 3 && ts[2] is Group && id@ == "init"@ {
                        let mid = spec_scan_init(ts[2]->Group_0@, st)->Ok_0;
                        lemma_scan_keys(ts.skip(3), mid);
                        assert(mid.0 == st.0);
                    } else if ts.len() >= 3 && ts[2] is Group && id@ == "tr"@ {
                        match spec_scan_tr(ts[2]->Group_0@) {
                            Ok(key) => {
                                lemma_scan_keys(ts.skip(3), (st.0.insert(key), st.1));
                                assert(st.0.insert(key).union(scan_keys(ts.skip(3)))
                                    =~= st.0.union(scan_keys(ts.skip(3)).insert(key)));
                            },
                            Err(_) => {},
                        }
                    } else {
                        lemma_scan_keys(ts.skip(2), st);
                    }
                } else {
                    lemma_scan_keys(ts.skip(1), st);
                }
            },
            _ => {
                lemma_scan_keys(ts.skip(1), st);
            },
        }
    }
}

} // verus!
