//! Catalog synchronizer: reconciles a catalog against the key set a code
//! base uses.
//!
//! An update pass diffs the extracted keys against one decoded catalog:
//! keys never translated are added with the placeholder marker, translations
//! no longer referenced are reported and, when removal is asked for, dropped.
//! A write is owed only when something was added or removed. A generate pass
//! builds a fresh catalog holding every key, each mapped to the placeholder.
use vstd::prelude::*;
use vstd::string::*;

use crate::strmap::{strs_view, StrMap, StrSet};

verus! {

/// The placeholder text standing in for a missing human translation.
pub open spec fn todo_view() -> Seq<char> {
    "[TODO]"@
}

/// The placeholder text standing in for a missing human translation.
pub fn todo_marker() -> (r: String)
    ensures
        r@ == todo_view(),
{
    String::from_str("[TODO]")
}

/// The catalog an update pass leaves behind: every extracted key is bound,
/// existing translations are kept, missing ones carry the placeholder, and
/// unreferenced ones survive only when removal is off.
pub open spec fn spec_update_map(
    k: Set<Seq<char>>,
    c: Map<Seq<char>, Seq<char>>,
    rm: bool,
) -> Map<Seq<char>, Seq<char>> {
    Map::new(
        |key: Seq<char>| k.contains(key) || (!rm && c.dom().contains(key)),
        |key: Seq<char>|
            if c.dom().contains(key) {
                c[key]
            } else {
                todo_view()
            },
    )
}

/// Whether an update pass must write: something was missing, or removal is on
/// and something was unused.
pub open spec fn spec_write_needed(
    k: Set<Seq<char>>,
    c: Map<Seq<char>, Seq<char>>,
    rm: bool,
) -> bool {
    k.difference(c.dom()) != Set::<Seq<char>>::empty() || (rm && c.dom().difference(k) != Set::<
        Seq<char>,
    >::empty())
}

/// What one update pass found and built.
pub struct UpdateOutcome {
    /// The reconciled catalog, to be written when a write is owed.
    pub merged: StrMap,
    /// The keys the source uses that the catalog does not hold.
    pub missing: StrSet,
    /// The keys the catalog holds that the source no longer uses.
    pub unused: StrSet,
    /// Whether the reconciled catalog differs from the one read.
    pub write_needed: bool,
}

/// Diffs the extracted key set against one decoded catalog and builds the
/// reconciled catalog.
pub fn update_catalog(keys: &StrSet, catalog: &StrMap, rm_unused: bool) -> (r: UpdateOutcome)
    requires
        keys.wf(),
        catalog.wf(),
    ensures
        r.merged.wf(),
        r.missing.wf(),
        r.unused.wf(),
        r.missing@ == keys@.difference(catalog@.dom()),
        r.unused@ == catalog@.dom().difference(keys@),
        r.merged@ == spec_update_map(keys@, catalog@, rm_unused),
        r.write_needed == spec_write_needed(keys@, catalog@, rm_unused),
{
    let mut missing = StrSet::new();
    let kn = keys.elems.len();
    let mut i: usize = 0;
    while i < kn
        invariant
            keys.wf(),
            catalog.wf(),
            kn == keys.seq().len(),
            i <= kn,
            missing.wf(),
            forall|x: Seq<char>|
                #[trigger] missing@.contains(x) <==> exists|t: int|
                    0 <= t < i && keys.seq()[t] == x && !catalog@.dom().contains(x),
        decreases kn - i,
    {
        let k = &keys.elems[i];
        if !catalog.contains_key(k) {
            missing.insert(k.clone());
        }
        proof {
            assert(keys.seq()[i as int] == k@);
            assert forall|x: Seq<char>| #[trigger] missing@.contains(x) implies exists|t: int|
                0 <= t < i + 1 && keys.seq()[t] == x && !catalog@.dom().contains(x) by {
                if x != k@ || catalog@.dom().contains(x) {
                    let t = choose|t: int|
                        0 <= t < i && keys.seq()[t] == x && !catalog@.dom().contains(x);
                    assert(0 <= t < i + 1 && keys.seq()[t] == x);
                }
            }
        }
        i = i + 1;
    }
    proof {
        assert(missing@ =~= keys@.difference(catalog@.dom())) by {
            assert forall|x: Seq<char>|
                keys@.contains(x) && !catalog@.dom().contains(x) implies missing@.contains(x) by {
                let t = choose|t: int| 0 <= t < keys.seq().len() && keys.seq()[t] == x;
            }
        }
    }
    let mut unused = StrSet::new();
    let cn = catalog.pairs.len();
    let mut j: usize = 0;
    while j < cn
        invariant
            keys.wf(),
            catalog.wf(),
            cn == catalog.entries().len(),
            j <= cn,
            unused.wf(),
            forall|x: Seq<char>|
                #[trigger] unused@.contains(x) <==> exists|t: int|
                    0 <= t < j && catalog.entries()[t].0 == x && !keys@.contains(x),
        decreases cn - j,
    {
        let k = &catalog.pairs[j].0;
        if !keys.contains(k) {
            unused.insert(k.clone());
        }
        proof {
            assert(catalog.entries()[j as int].0 == k@);
            assert forall|x: Seq<char>| #[trigger] unused@.contains(x) implies exists|t: int|
                0 <= t < j + 1 && catalog.entries()[t].0 == x && !keys@.contains(x) by {
                if x != k@ || keys@.contains(x) {
                    let t = choose|t: int|
                        0 <= t < j && catalog.entries()[t].0 == x && !keys@.contains(x);
                    assert(0 <= t < j + 1 && catalog.entries()[t].0 == x);
                }
            }
        }
        j = j + 1;
    }
    proof {
        crate::strmap::lemma_alist_map_dom(catalog.entries());
        assert(unused@ =~= catalog@.dom().difference(keys@)) by {
            assert forall|x: Seq<char>|
                catalog@.dom().contains(x) && !keys@.contains(x) implies unused@.contains(x) by {
                let t = choose|t: int|
                    0 <= t < catalog.entries().len() && catalog.entries()[t].0 == x;
            }
        }
    }
    let mut merged = StrMap::new();
    let mut j2: usize = 0;
    while j2 < cn
        invariant
            keys.wf(),
            catalog.wf(),
            cn == catalog.entries().len(),
            j2 <= cn,
            merged.wf(),
            forall|x: Seq<char>|
                #[trigger] merged@.dom().contains(x) <==> exists|t: int|
                    0 <= t < j2 && catalog.entries()[t].0 == x && (keys@.contains(x) || !rm_unused),
            forall|x: Seq<char>|
                #[trigger] merged@.dom().contains(x) ==> catalog@.dom().contains(x) && merged@[x]
                    == catalog@[x],
        decreases cn - j2,
    {
        let k = &catalog.pairs[j2].0;
        let v = &catalog.pairs[j2].1;
        proof {
            assert(catalog.entries()[j2 as int] == (k@, v@));
            crate::strmap::lemma_alist_map_at(catalog.entries(), j2 as int);
        }
        let ghost merged0 = merged@;
        if !rm_unused || keys.contains(k) {
            merged.insert(k.clone(), v.clone());
        }
        proof {
            assert(catalog@.dom().contains(k@) && catalog@[k@] == v@);
            assert forall|x: Seq<char>| #[trigger] merged@.dom().contains(
                x,
            ) implies catalog@.dom().contains(x) && merged@[x] == catalog@[x] by {
                if x == k@ {
                    assert(merged@.dom().contains(k@) ==> merged@[k@] == v@);
                } else {
                    assert(merged0.dom().contains(x));
                    assert(merged@[x] == merged0[x]);
                }
            }
            assert forall|x: Seq<char>| #[trigger] merged@.dom().contains(x) implies exists|t: int|
                0 <= t < j2 + 1 && catalog.entries()[t].0 == x && (keys@.contains(x)
                    || !rm_unused) by {
                if x != k@ || !(keys@.contains(x) || !rm_unused) {
                    let t = choose|t: int|
                        0 <= t < j2 && catalog.entries()[t].0 == x && (keys@.contains(x)
                            || !rm_unused);
                    assert(0 <= t < j2 + 1 && catalog.entries()[t].0 == x);
                }
            }
        }
        j2 = j2 + 1;
    }
    let mut i2: usize = 0;
    while i2 < kn
        invariant
            keys.wf(),
            catalog.wf(),
            kn == keys.seq().len(),
            i2 <= kn,
            merged.wf(),
            forall|x: Seq<char>|
                #[trigger] merged@.dom().contains(x) <==> (catalog@.dom().contains(x) && (
                keys@.contains(x) || !rm_unused)) || exists|t: int|
                    0 <= t < i2 && keys.seq()[t] == x && !catalog@.dom().contains(x),
            forall|x: Seq<char>|
                merged@.dom().contains(x) ==> #[trigger] merged@[x] == (if catalog@.dom().contains(
                    x,
                ) {
                    catalog@[x]
                } else {
                    todo_view()
                }),
        decreases kn - i2,
    {
        let k = &keys.elems[i2];
        proof {
            assert(keys.seq()[i2 as int] == k@);
        }
        if !catalog.contains_key(k) {
            merged.insert(k.clone(), todo_marker());
        }
        proof {
            assert forall|x: Seq<char>| #[trigger] merged@.dom().contains(x) implies (
            catalog@.dom().contains(x) && (keys@.contains(x) || !rm_unused)) || exists|t: int|
                0 <= t < i2 + 1 && keys.seq()[t] == x && !catalog@.dom().contains(x) by {
                if !(catalog@.dom().contains(x) && (keys@.contains(x) || !rm_unused)) && (x != k@
                    || catalog@.dom().contains(x)) {
                    let t = choose|t: int|
                        0 <= t < i2 && keys.seq()[t] == x && !catalog@.dom().contains(x);
                    assert(0 <= t < i2 + 1 && keys.seq()[t] == x);
                }
            }
        }
        i2 = i2 + 1;
    }
    proof {
        assert(merged@ =~= spec_update_map(keys@, catalog@, rm_unused)) by {
            assert forall|x: Seq<char>|
                spec_update_map(keys@, catalog@, rm_unused).dom().contains(
                    x,
                ) implies merged@.dom().contains(x) by {
                if keys@.contains(x) && !catalog@.dom().contains(x) {
                    let t = choose|t: int| 0 <= t < keys.seq().len() && keys.seq()[t] == x;
                }
            }
        }
    }
    let any_missing = missing.len() > 0;
    let any_unused = unused.len() > 0;
    proof {
        if missing.seq().len() > 0 {
            assert(missing@.contains(missing.seq()[0]));
            assert(!Set::<Seq<char>>::empty().contains(missing.seq()[0]));
        } else {
            assert(missing@ =~= Set::<Seq<char>>::empty());
        }
        if unused.seq().len() > 0 {
            assert(unused@.contains(unused.seq()[0]));
            assert(!Set::<Seq<char>>::empty().contains(unused.seq()[0]));
        } else {
            assert(unused@ =~= Set::<Seq<char>>::empty());
        }
        assert(any_missing == (missing@ != Set::<Seq<char>>::empty()));
        assert(any_unused == (unused@ != Set::<Seq<char>>::empty()));
    }
    let write_needed = any_missing || (rm_unused && any_unused);
    UpdateOutcome { merged, missing, unused, write_needed }
}

/// Update idempotence: a second pass over a reconciled catalog, with the same
/// keys and the same removal choice, finds nothing to add and nothing it
/// would remove, so no second write is owed.
pub proof fn lemma_update_idempotent(k: Set<Seq<char>>, c: Map<Seq<char>, Seq<char>>, rm: bool)
    ensures
        k.difference(spec_update_map(k, c, rm).dom()) == Set::<Seq<char>>::empty(),
        rm ==> spec_update_map(k, c, rm).dom().difference(k) == Set::<Seq<char>>::empty(),
        !spec_write_needed(k, spec_update_map(k, c, rm), rm),
        spec_update_map(k, spec_update_map(k, c, rm), rm) == spec_update_map(k, c, rm),
{
    let m = spec_update_map(k, c, rm);
    assert(k.difference(m.dom()) =~= Set::<Seq<char>>::empty());
    if rm {
        assert(m.dom().difference(k) =~= Set::<Seq<char>>::empty());
    }
    assert(spec_update_map(k, m, rm) =~= m);
}

/// A fresh catalog for a new locale: every extracted key, each bound to the
/// placeholder marker.
pub fn fresh_catalog(keys: &StrSet) -> (r: StrMap)
    requires
        keys.wf(),
    ensures
        r.wf(),
        r@ == Map::new(|x: Seq<char>| keys@.contains(x), |x: Seq<char>| todo_view()),
{
    let mut m = StrMap::new();
    let kn = keys.elems.len();
    let mut i: usize = 0;
    while i < kn
        invariant
            keys.wf(),
            kn == keys.seq().len(),
            i <= kn,
            m.wf(),
            forall|x: Seq<char>|
                #[trigger] m@.dom().contains(x) <==> exists|t: int|
                    0 <= t < i && keys.seq()[t] == x,
            forall|x: Seq<char>| m@.dom().contains(x) ==> #[trigger] m@[x] == todo_view(),
        decreases kn - i,
    {
        let k = &keys.elems[i];
        proof {
            assert(keys.seq()[i as int] == k@);
        }
        m.insert(k.clone(), todo_marker());
        proof {
            assert forall|x: Seq<char>| #[trigger] m@.dom().contains(x) implies exists|t: int|
                0 <= t < i + 1 && keys.seq()[t] == x by {
                if x != k@ {
                    let t = choose|t: int| 0 <= t < i && keys.seq()[t] == x;
                    assert(0 <= t < i + 1 && keys.seq()[t] == x);
                }
            }
        }
        i = i + 1;
    }
    proof {
        assert(m@ =~= Map::new(|x: Seq<char>| keys@.contains(x), |x: Seq<char>| todo_view())) by {
            assert forall|x: Seq<char>| keys@.contains(x) implies m@.dom().contains(x) by {
                let t = choose|t: int| 0 <= t < keys.seq().len() && keys.seq()[t] == x;
            }
        }
    }
    m
}


/// A requested locale whose tag is not well-formed; the generate pass stops
/// at the first one and plans nothing.
#[derive(Debug)]
pub struct InvalidLocaleTag {
    pub locale: String,
}

/// What a generate pass will do: one fresh catalog per locale whose file does
/// not exist yet, and a skip notice for each locale whose file already does,
/// which is never overwritten.
#[derive(Debug)]
pub struct GenPlan {
    pub writes: Vec<(String, StrMap)>,
    pub skipped: Vec<String>,
}

/// The catalog file name of a normalized tag.
pub open spec fn json_name(tag: Seq<char>) -> Seq<char> {
    tag + ".json"@
}

/// The file names of the planned writes.
pub open spec fn write_names(ws: Seq<(String, StrMap)>) -> Seq<Seq<char>> {
    ws.map_values(|p: (String, StrMap)| p.0@)
}

/// The file names a generate pass writes and skips, read from position `i`
/// on, or the position of the first locale whose tag is not well-formed.
pub open spec fn spec_gen_names(ls: Seq<Seq<char>>, existing: Set<Seq<char>>, i: int) -> Result<
    (Seq<Seq<char>>, Seq<Seq<char>>),
    int,
>
    decreases ls.len() - i,
{
    if i < 0 || i >= ls.len() {
        Ok((Seq::empty(), Seq::empty()))
    } else {
        match crate::locale::norm_tag(ls[i]) {
            None => Err(i),
            Some(t) => match spec_gen_names(ls, existing, i + 1) {
                Err(j) => Err(j),
                Ok(rest) => {
                    if existing.contains(json_name(t.0)) {
                        Ok((rest.0, seq![json_name(t.0)] + rest.1))
                    } else {
                        Ok((seq![json_name(t.0)] + rest.0, rest.1))
                    }
                },
            },
        }
    }
}

/// A failed plan points at a requested locale: the position of the first
/// ill-formed tag at or after `i`.
proof fn lemma_gen_err(ls: Seq<Seq<char>>, existing: Set<Seq<char>>, i: int)
    requires
        0 <= i,
        spec_gen_names(ls, existing, i) is Err,
    ensures
        i <= spec_gen_names(ls, existing, i)->Err_0 < ls.len(),
        crate::locale::norm_tag(ls[spec_gen_names(ls, existing, i)->Err_0]) is None,
    decreases ls.len() - i,
{
    if i < ls.len() && crate::locale::norm_tag(ls[i]) is Some {
        lemma_gen_err(ls, existing, i + 1);
    }
}

/// Plans a generate pass: normalizes each requested locale, skips each whose
/// catalog file already exists among the given names, and plans a fresh
/// catalog of every extracted key for the rest. Fails on the first locale
/// whose tag is not well-formed, and then plans nothing.
#[verifier::loop_isolation(false)]
pub fn generate_plan(keys: &StrSet, locales: &Vec<String>, existing: &StrSet) -> (r: Result<
    GenPlan,
    InvalidLocaleTag,
>)
    requires
        keys.wf(),
        existing.wf(),
    ensures
        match r {
            Ok(plan) => {
                &&& spec_gen_names(strs_view(locales@), existing@, 0) == Ok::<
                    (Seq<Seq<char>>, Seq<Seq<char>>),
                    int,
                >((write_names(plan.writes@), strs_view(plan.skipped@)))
                &&& forall|t: int|
                    0 <= t < plan.writes@.len() ==> (#[trigger] plan.writes@[t].1).wf()
                        && plan.writes@[t].1@ == Map::new(
                        |x: Seq<char>| keys@.contains(x),
                        |x: Seq<char>| todo_view(),
                    )
            },
            Err(e) => {
                &&& spec_gen_names(strs_view(locales@), existing@, 0) is Err
                &&& e.locale@ == locales@[spec_gen_names(strs_view(locales@), existing@, 0)->Err_0]@
            },
        },
{
    let ghost ls = strs_view(locales@);
    let mut writes: Vec<(String, StrMap)> = Vec::new();
    let mut skipped: Vec<String> = Vec::new();
    let n = locales.len();
    let mut i: usize = 0;
    proof {
        assert(write_names(writes@) =~= Seq::<Seq<char>>::empty());
        assert(strs_view(skipped@) =~= Seq::<Seq<char>>::empty());
        match spec_gen_names(ls, existing@, 0) {
            Ok(full) => {
                assert(full.0 =~= write_names(writes@) + full.0);
                assert(full.1 =~= strs_view(skipped@) + full.1);
            },
            Err(_) => {
                lemma_gen_err(ls, existing@, 0);
            },
        }
    }
    while i < n
        invariant
            i <= n,
            forall|t: int|
                0 <= t < writes@.len() ==> (#[trigger] writes@[t].1).wf() && writes@[t].1@
                    == Map::new(|x: Seq<char>| keys@.contains(x), |x: Seq<char>| todo_view()),
            match spec_gen_names(ls, existing@, 0) {
                Ok(full) => spec_gen_names(ls, existing@, i as int) is Ok && full.0 == write_names(
                    writes@,
                ) + spec_gen_names(ls, existing@, i as int)->Ok_0.0 && full.1 == strs_view(skipped@)
                    + spec_gen_names(ls, existing@, i as int)->Ok_0.1,
                Err(j) => spec_gen_names(ls, existing@, i as int) == Err::<
                    (Seq<Seq<char>>, Seq<Seq<char>>),
                    int,
                >(j) && i <= j,
            },
        decreases n - i,
    {
        proof {
            assert(ls[i as int] == locales@[i as int]@);
        }
        match crate::locale::normalize_tag(locales[i].as_str()) {
            None => {
                proof {
                    assert(spec_gen_names(ls, existing@, i as int) == Err::<
                        (Seq<Seq<char>>, Seq<Seq<char>>),
                        int,
                    >(i as int));
                }
                return Err(InvalidLocaleTag { locale: locales[i].clone() });
            },
            Some(t) => {
                let ghost parts = t.parts();
                let ghost w0 = writes@;
                let ghost s0 = skipped@;
                let mut name = t.full;
                name.append(".json");
                proof {
                    reveal_strlit(".json");
                    assert(name@ =~= json_name(parts.0));
                }
                if existing.contains(&name) {
                    skipped.push(name);
                    proof {
                        assert(strs_view(skipped@) =~= strs_view(s0) + seq![json_name(parts.0)]);
                    }
                } else {
                    writes.push((name, fresh_catalog(keys)));
                    proof {
                        assert(write_names(writes@) =~= write_names(w0) + seq![
                            json_name(parts.0),
                        ]);
                    }
                }
                proof {
                    match spec_gen_names(ls, existing@, 0) {
                        Ok(full) => {
                            assert(spec_gen_names(ls, existing@, i as int) is Ok);
                            assert(spec_gen_names(ls, existing@, i as int + 1) is Ok);
                            let rest = spec_gen_names(ls, existing@, i as int + 1)->Ok_0;
                            if existing@.contains(json_name(parts.0)) {
                                assert(full.1 =~= strs_view(skipped@) + rest.1);
                                assert(full.0 =~= write_names(writes@) + rest.0);
                            } else {
                                assert(full.0 =~= write_names(writes@) + rest.0);
                                assert(full.1 =~= strs_view(skipped@) + rest.1);
                            }
                        },
                        Err(_) => {
                            lemma_gen_err(ls, existing@, i as int + 1);
                        },
                    }
                }
                i = i + 1;
            },
        }
    }
    proof {
        match spec_gen_names(ls, existing@, 0) {
            Ok(full) => {
                assert(full.0 =~= write_names(writes@));
                assert(full.1 =~= strs_view(skipped@));
            },
            Err(j) => {
                assert(spec_gen_names(ls, existing@, n as int) is Ok);
                assert(false);
            },
        }
    }
    Ok(GenPlan { writes, skipped })
}


/// Whether a catalog entry still carries the placeholder: consumers treat
/// such an entry as untranslated when judging a catalog complete.
pub fn is_untranslated(text: &String) -> (r: bool)
    ensures
        r == (text@ == todo_view()),
{
    let marker = todo_marker();
    *text == marker
}

} // verus!
