//! Locale tags, catalog file names, and the fallback resolver.
//!
//! A catalog file is named `<normalized-tag>.json`; a sidecar `config.json`
//! may name a preferred fallback tag per primary language. Discovered
//! catalogs are grouped by primary language; a requested locale resolves to
//! the variant with the requested region, else to the configured fallback
//! tag's region, else to the lexicographically smallest named region, else to
//! the sole region-less variant.
use vstd::prelude::*;
use vstd::string::*;

use crate::codec::{
    find_char, find_from, key_of, lemma_find_from, lemma_parse_sound, parse_key, split_prefix_at,
};
use crate::scanner::opt_view;
use crate::strmap::{str_eq, strs_view, StrMap};

verus! {

/// What the locale-tag normalizer returns for a string: the normalized full
/// tag, its primary-language subtag and its region subtag, or nothing when
/// the string is not a well-formed tag.
pub uninterp spec fn norm_tag(s: Seq<char>) -> Option<(Seq<char>, Seq<char>, Option<Seq<char>>)>;

/// A normalized locale tag: the full tag text, the primary-language subtag,
/// and the region subtag when the tag names one.
pub struct LocaleTag {
    pub full: String,
    pub primary: String,
    pub region: Option<String>,
}

impl LocaleTag {
    /// The parts this tag carries.
    pub open spec fn parts(&self) -> (Seq<char>, Seq<char>, Option<Seq<char>>) {
        (self.full@, self.primary@, opt_view(self.region))
    }
}

/// Relies on oxilangtag's `LanguageTag::parse_and_normalize`, which parses a
/// tag against RFC 5646 and case-normalizes it, and on its accessors
/// `as_str`, `primary_language` and `region`, which read the normalized text
/// and subtags back; the outcome depends on the input characters alone.
#[verifier::external_body]
pub(crate) fn normalize_tag(s: &str) -> (r: Option<LocaleTag>)
    ensures
        match r {
            Some(t) => norm_tag(s@) == Some(t.parts()),
            None => norm_tag(s@) is None,
        },
{
    match oxilangtag::LanguageTag::parse_and_normalize(s) {
        Ok(tag) => Some(
            LocaleTag {
                full: tag.as_str().to_string(),
                primary: tag.primary_language().to_string(),
                region: tag.region().map(|r| r.to_string()),
            },
        ),
        Err(_) => None,
    }
}

/// The stem of a file named `<stem>.json` where the stem holds no dot;
/// nothing for any other name.
pub open spec fn catalog_stem(n: Seq<char>) -> Option<Seq<char>> {
    let d = find_from(n, '.', 0);
    if d < n.len() && n.skip(d) == ".json"@ {
        Some(n.take(d))
    } else {
        None
    }
}

/// What one file in the catalog directory is.
pub enum FileKind {
    /// The sidecar fallback configuration, named `config.json`.
    Config,
    /// A catalog of one locale, named by its normalized tag.
    Catalog(LocaleTag),
    /// Anything else; the scan passes it by.
    Other,
}

/// Classifies one file name found in the catalog directory: the sidecar
/// configuration, a catalog named `<tag>.json` for a well-formed tag, or
/// neither.
pub fn classify_file_name(name: &str) -> (r: FileKind)
    ensures
        match r {
            FileKind::Config => name@ == "config.json"@,
            FileKind::Catalog(t) => name@ != "config.json"@ && catalog_stem(name@) is Some
                && norm_tag(catalog_stem(name@)->Some_0) == Some(t.parts()),
            FileKind::Other => name@ != "config.json"@ && (catalog_stem(name@) is None || norm_tag(
                catalog_stem(name@)->Some_0,
            ) is None),
        },
{
    if str_eq(name, "config.json") {
        return FileKind::Config;
    }
    let n = name.unicode_len();
    let d = find_char(name, '.', 0);
    proof {
        lemma_find_from(name@, '.', 0);
    }
    if d >= n {
        return FileKind::Other;
    }
    let suffix = name.substring_char(d, n);
    if !str_eq(suffix, ".json") {
        return FileKind::Other;
    }
    let stem = name.substring_char(0, d);
    proof {
        assert(name@.skip(d as int) =~= suffix@);
        assert(name@.take(d as int) =~= stem@);
    }
    match normalize_tag(stem) {
        Some(t) => FileKind::Catalog(t),
        None => FileKind::Other,
    }
}

/// One discovered catalog variant of a primary language: its region (none
/// for a region-less tag), its full normalized tag, and its translations.
pub struct Variant {
    pub region: Option<String>,
    pub tag: String,
    pub translations: StrMap,
}

/// The variants of one primary language, in discovery order.
pub struct LangGroup {
    pub primary: String,
    pub variants: Vec<Variant>,
}

/// All discovered variants, grouped by primary language.
pub struct LocaleModel {
    pub groups: Vec<LangGroup>,
}

impl LocaleModel {
    pub fn new() -> (r: LocaleModel)
        ensures
            r.groups@.len() == 0,
    {
        LocaleModel { groups: Vec::new() }
    }
}

/// The first group of this primary language, at or after position `i`.
pub open spec fn group_index(groups: Seq<LangGroup>, primary: Seq<char>, i: int) -> Option<int>
    decreases groups.len() - i,
{
    if i < 0 || i >= groups.len() {
        None
    } else if groups[i].primary@ == primary {
        Some(i)
    } else {
        group_index(groups, primary, i + 1)
    }
}

/// The first variant of this region, at or after position `i`.
pub open spec fn variant_index(vs: Seq<Variant>, region: Option<Seq<char>>, i: int) -> Option<int>
    decreases vs.len() - i,
{
    if i < 0 || i >= vs.len() {
        None
    } else if opt_view(vs[i].region) == region {
        Some(i)
    } else {
        variant_index(vs, region, i + 1)
    }
}

/// Strict lexicographic order on character sequences, by code point.
pub open spec fn lex_lt(a: Seq<char>, b: Seq<char>) -> bool
    decreases a.len(),
{
    b.len() > 0 && (a.len() == 0 || (a[0] as int) < (b[0] as int) || (a[0] == b[0] && lex_lt(
        a.drop_first(),
        b.drop_first(),
    )))
}

/// The variant bearing the lexicographically smallest named region at or
/// after position `i`; the earliest one when regions repeat.
pub open spec fn min_region_index(vs: Seq<Variant>, i: int) -> Option<int>
    decreases vs.len() - i,
{
    if i < 0 || i >= vs.len() {
        None
    } else {
        let rest = min_region_index(vs, i + 1);
        match vs[i].region {
            None => rest,
            Some(r) => match rest {
                None => Some(i),
                Some(j) => {
                    if vs[j].region is Some && lex_lt(vs[j].region->0@, r@) {
                        Some(j)
                    } else {
                        Some(i)
                    }
                },
            },
        }
    }
}

/// The resolution rule over one primary language's variants: the exact
/// region first, then the configured fallback tag's region, then the
/// smallest named region, then the sole region-less variant.
pub open spec fn spec_resolve(
    vs: Seq<Variant>,
    requested: Option<Seq<char>>,
    fallback: Option<Option<Seq<char>>>,
) -> Option<int> {
    if variant_index(vs, requested, 0) is Some {
        variant_index(vs, requested, 0)
    } else if fallback is Some && variant_index(vs, fallback->0, 0) is Some {
        variant_index(vs, fallback->0, 0)
    } else if min_region_index(vs, 0) is Some {
        min_region_index(vs, 0)
    } else {
        variant_index(vs, None, 0)
    }
}

proof fn lemma_group_index(groups: Seq<LangGroup>, primary: Seq<char>, i: int)
    requires
        0 <= i <= groups.len(),
    ensures
        match group_index(groups, primary, i) {
            Some(j) => i <= j < groups.len() && groups[j].primary@ == primary,
            None => forall|t: int| i <= t < groups.len() ==> groups[t].primary@ != primary,
        },
    decreases groups.len() - i,
{
    if i < groups.len() && groups[i].primary@ != primary {
        lemma_group_index(groups, primary, i + 1);
    }
}

proof fn lemma_variant_index(vs: Seq<Variant>, region: Option<Seq<char>>, i: int)
    requires
        0 <= i <= vs.len(),
    ensures
        match variant_index(vs, region, i) {
            Some(j) => i <= j < vs.len() && opt_view(vs[j].region) == region,
            None => forall|t: int| i <= t < vs.len() ==> opt_view(vs[t].region) != region,
        },
    decreases vs.len() - i,
{
    if i < vs.len() && opt_view(vs[i].region) != region {
        lemma_variant_index(vs, region, i + 1);
    }
}

proof fn lemma_min_region_index(vs: Seq<Variant>, i: int)
    requires
        0 <= i <= vs.len(),
    ensures
        match min_region_index(vs, i) {
            Some(j) => i <= j < vs.len() && vs[j].region is Some,
            None => forall|t: int| i <= t < vs.len() ==> vs[t].region is None,
        },
    decreases vs.len() - i,
{
    if i < vs.len() {
        lemma_min_region_index(vs, i + 1);
    }
}

/// Strict lexicographic order on two strings, by code point.
pub fn str_lt(a: &str, b: &str) -> (r: bool)
    ensures
        r == lex_lt(a@, b@),
{
    let na = a.unicode_len();
    let nb = b.unicode_len();
    let mut i: usize = 0;
    proof {
        assert(a@.skip(0) =~= a@);
        assert(b@.skip(0) =~= b@);
    }
    while i < na && i < nb
        invariant
            na == a@.len(),
            nb == b@.len(),
            i <= na,
            i <= nb,
            lex_lt(a@, b@) == lex_lt(a@.skip(i as int), b@.skip(i as int)),
        decreases na - i,
    {
        let ca = a.get_char(i);
        let cb = b.get_char(i);
        proof {
            assert(a@.skip(i as int)[0] == ca);
            assert(b@.skip(i as int)[0] == cb);
            assert(a@.skip(i as int).drop_first() =~= a@.skip(i as int + 1));
            assert(b@.skip(i as int).drop_first() =~= b@.skip(i as int + 1));
        }
        if (ca as u32) < (cb as u32) {
            return true;
        }
        if ca != cb {
            return false;
        }
        i = i + 1;
    }
    proof {
        assert(a@.skip(i as int).len() == na - i);
        assert(b@.skip(i as int).len() == nb - i);
    }
    na < nb
}


/// The first group of this primary language.
fn find_group(groups: &Vec<LangGroup>, primary: &String) -> (r: Option<usize>)
    ensures
        match r {
            Some(j) => j < groups@.len() && group_index(groups@, primary@, 0) == Some(j as int),
            None => group_index(groups@, primary@, 0) is None,
        },
{
    let n = groups.len();
    let mut i: usize = 0;
    while i < n
        invariant
            n == groups@.len(),
            i <= n,
            group_index(groups@, primary@, 0) == group_index(groups@, primary@, i as int),
        decreases n - i,
    {
        if str_eq(groups[i].primary.as_str(), primary.as_str()) {
            return Some(i);
        }
        i = i + 1;
    }
    None
}

/// Whether two optional regions name the same region.
fn region_eq(a: &Option<String>, b: &Option<String>) -> (r: bool)
    ensures
        r == (opt_view(*a) == opt_view(*b)),
{
    match (a, b) {
        (Some(x), Some(y)) => str_eq(x.as_str(), y.as_str()),
        (None, None) => true,
        _ => {
            proof {
                assert(opt_view(*a) != opt_view(*b));
            }
            false
        },
    }
}

/// The first variant of this region.
fn find_variant(vs: &Vec<Variant>, region: &Option<String>) -> (r: Option<usize>)
    ensures
        match r {
            Some(j) => j < vs@.len() && variant_index(vs@, opt_view(*region), 0) == Some(j as int),
            None => variant_index(vs@, opt_view(*region), 0) is None,
        },
{
    let n = vs.len();
    let mut i: usize = 0;
    while i < n
        invariant
            n == vs@.len(),
            i <= n,
            variant_index(vs@, opt_view(*region), 0) == variant_index(
                vs@,
                opt_view(*region),
                i as int,
            ),
        decreases n - i,
    {
        if region_eq(&vs[i].region, region) {
            return Some(i);
        }
        i = i + 1;
    }
    None
}

/// The variant bearing the lexicographically smallest named region.
fn find_min_region(vs: &Vec<Variant>) -> (r: Option<usize>)
    ensures
        match r {
            Some(j) => j < vs@.len() && min_region_index(vs@, 0) == Some(j as int),
            None => min_region_index(vs@, 0) is None,
        },
{
    let n = vs.len();
    let mut best: Option<usize> = None;
    let mut i: usize = n;
    while i > 0
        invariant
            n == vs@.len(),
            i <= n,
            match best {
                Some(j) => j < n && min_region_index(vs@, i as int) == Some(j as int),
                None => min_region_index(vs@, i as int) is None,
            },
        decreases i,
    {
        i = i - 1;
        match &vs[i].region {
            None => {},
            Some(r) => {
                let take_rest = match best {
                    Some(j) => match &vs[j].region {
                        Some(rj) => str_lt(rj.as_str(), r.as_str()),
                        None => false,
                    },
                    None => false,
                };
                proof {
                    lemma_min_region_index(vs@, i as int + 1);
                }
                if !take_rest {
                    best = Some(i);
                }
            },
        }
    }
    best
}

/// Resolves a requested region among one primary language's variants: the
/// exact region first, then the configured fallback tag's region, then the
/// smallest named region, then the sole region-less variant. Yields nothing
/// only when the group holds no variants at all.
pub fn resolve_variant(
    vs: &Vec<Variant>,
    requested: &Option<String>,
    fallback: &Option<Option<String>>,
) -> (r: Option<usize>)
    ensures
        match r {
            Some(j) => j < vs@.len() && spec_resolve(
                vs@,
                opt_view(*requested),
                spec_fallback_view(*fallback),
            ) == Some(j as int),
            None => spec_resolve(vs@, opt_view(*requested), spec_fallback_view(*fallback)) is None,
        },
        r is None ==> vs@.len() == 0,
{
    proof {
        lemma_variant_index(vs@, opt_view(*requested), 0);
        lemma_min_region_index(vs@, 0);
        lemma_variant_index(vs@, None, 0);
    }
    if let Some(j) = find_variant(vs, requested) {
        return Some(j);
    }
    if let Some(fb) = fallback {
        proof {
            lemma_variant_index(vs@, opt_view(*fb), 0);
        }
        if let Some(j) = find_variant(vs, fb) {
            return Some(j);
        }
    }
    if let Some(j) = find_min_region(vs) {
        return Some(j);
    }
    if let Some(j) = find_variant(vs, &None) {
        return Some(j);
    }
    proof {
        if vs@.len() > 0 {
            assert(vs@[0].region is None);
            assert(opt_view(vs@[0].region) == Option::<Seq<char>>::None);
        }
    }
    None
}

/// The view of an optional fallback region.
pub open spec fn spec_fallback_view(fb: Option<Option<String>>) -> Option<Option<Seq<char>>> {
    match fb {
        Some(region) => Some(opt_view(region)),
        None => None,
    }
}

/// The fallback region the configuration names for a primary language: the
/// region of the configured tag, when the entry exists and is well-formed.
pub open spec fn spec_fallback(cfg: Map<Seq<char>, Seq<char>>, primary: Seq<char>) -> Option<
    Option<Seq<char>>,
> {
    if cfg.dom().contains(primary) {
        match norm_tag(cfg[primary]) {
            Some(t) => Some(t.2),
            None => None,
        }
    } else {
        None
    }
}

/// Reads the fallback region for a primary language out of the sidecar
/// configuration.
pub fn fallback_region(config: &StrMap, primary: &String) -> (r: Option<Option<String>>)
    requires
        config.wf(),
    ensures
        spec_fallback_view(r) == spec_fallback(config@, primary@),
{
    match config.get(primary) {
        Some(tag) => match normalize_tag(tag.as_str()) {
            Some(t) => Some(t.region),
            None => None,
        },
        None => None,
    }
}

/// Resolves a runtime-requested locale string against the discovered model
/// and the fallback configuration: the group of the tag's primary language,
/// then the variant its region resolves to. Yields nothing when the string is
/// not a well-formed tag or its primary language has no variants.
pub fn lookup_locale(model: &LocaleModel, config: &StrMap, tag: &str) -> (r: Option<(usize, usize)>)
    requires
        config.wf(),
    ensures
        match norm_tag(tag@) {
            None => r is None,
            Some(t) => match group_index(model.groups@, t.1, 0) {
                None => r is None,
                Some(gi) => match spec_resolve(
                    model.groups@[gi].variants@,
                    t.2,
                    spec_fallback(config@, t.1),
                ) {
                    None => r is None,
                    Some(vi) => r == Some((gi as usize, vi as usize)),
                },
            },
        },
        match r {
            Some(p) => p.0 < model.groups@.len() && p.1 < model.groups@[p.0 as int].variants@.len(),
            None => true,
        },
{
    let parsed = match normalize_tag(tag) {
        Some(t) => t,
        None => {
            return None;
        },
    };
    let gi = match find_group(&model.groups, &parsed.primary) {
        Some(gi) => gi,
        None => {
            return None;
        },
    };
    let fb = fallback_region(config, &parsed.primary);
    match resolve_variant(&model.groups[gi].variants, &parsed.region, &fb) {
        Some(vi) => Some((gi, vi)),
        None => None,
    }
}

/// Adds one discovered catalog to the model: a new group for a first-seen
/// primary language, a new variant for a first-seen region, and a replacement
/// of the variant when the same primary language and region come again.
pub fn model_insert(
    model: &mut LocaleModel,
    primary: String,
    region: Option<String>,
    tag: String,
    translations: StrMap,
)
    ensures
        match group_index(old(model).groups@, primary@, 0) {
            None => {
                &&& final(model).groups@.len() == old(model).groups@.len() + 1
                &&& final(model).groups@.drop_last() == old(model).groups@
                &&& final(model).groups@.last().primary@ == primary@
                &&& final(model).groups@.last().variants@.len() == 1
                &&& is_variant_of(
                    final(model).groups@.last().variants@[0],
                    opt_view(region),
                    tag@,
                    translations,
                )
            },
            Some(gi) => {
                &&& final(model).groups@.len() == old(model).groups@.len()
                &&& (forall|t: int|
                    0 <= t < old(model).groups@.len() && t != gi ==> final(model).groups@[t] == old(
                        model,
                    ).groups@[t])
                &&& final(model).groups@[gi].primary == old(model).groups@[gi].primary
                &&& {
                    let ovs = old(model).groups@[gi].variants@;
                    let nvs = final(model).groups@[gi].variants@;
                    match variant_index(ovs, opt_view(region), 0) {
                        None => nvs.len() == ovs.len() + 1 && nvs.drop_last() == ovs
                            && is_variant_of(nvs.last(), opt_view(region), tag@, translations),
                        Some(vi) => nvs.len() == ovs.len() && (forall|t: int|
                            0 <= t < ovs.len() && t != vi ==> nvs[t] == ovs[t]) && is_variant_of(
                            nvs[vi],
                            opt_view(region),
                            tag@,
                            translations,
                        ),
                    }
                }
            },
        },
{
    let ghost g0 = model.groups@;
    proof {
        lemma_group_index(g0, primary@, 0);
    }
    match find_group(&model.groups, &primary) {
        None => {
            let mut vs: Vec<Variant> = Vec::new();
            vs.push(Variant { region, tag, translations });
            model.groups.push(LangGroup { primary, variants: vs });
            proof {
                assert(model.groups@.drop_last() =~= g0);
            }
        },
        Some(gi) => {
            let ghost ovs = g0[gi as int].variants@;
            proof {
                lemma_variant_index(ovs, opt_view(region), 0);
            }
            let mut group = model.groups.remove(gi);
            match find_variant(&group.variants, &region) {
                None => {
                    group.variants.push(Variant { region, tag, translations });
                    proof {
                        assert(group.variants@.drop_last() =~= ovs);
                    }
                },
                Some(vi) => {
                    group.variants.remove(vi);
                    group.variants.insert(vi, Variant { region, tag, translations });
                    proof {
                        assert forall|t: int|
                            0 <= t < ovs.len() && t != vi implies group.variants@[t] == ovs[t] by {
                            if t > vi {
                                assert(group.variants@[t] == ovs.remove(vi as int)[t - 1]);
                            }
                        }
                    }
                },
            }
            model.groups.insert(gi, group);
            proof {
                assert forall|t: int|
                    0 <= t < g0.len() && t != gi implies model.groups@[t] == g0[t] by {
                    if t > gi {
                        assert(model.groups@[t] == g0.remove(gi as int)[t - 1]);
                    }
                }
            }
        },
    }
}

/// The variant holds exactly these parts.
pub open spec fn is_variant_of(
    v: Variant,
    region: Option<Seq<char>>,
    tag: Seq<char>,
    translations: StrMap,
) -> bool {
    opt_view(v.region) == region && v.tag@ == tag && v.translations == translations
}


/// The flat key under which the sidecar configuration binds the fallback tag
/// of one primary language.
pub open spec fn cfg_key(primary: Seq<char>) -> Seq<char> {
    ".fallback "@ + primary
}

/// A fallback-configuration key parses to the one segment `fallback` and the
/// primary language as content.
pub proof fn lemma_cfg_key_parse(primary: Seq<char>)
    ensures
        parse_key(cfg_key(primary)) == Some((seq!["fallback"@], primary)),
{
    reveal_strlit(".fallback ");
    reveal_strlit("fallback");
    let k = cfg_key(primary);
    let h = ".fallback "@;
    assert(h.len() == 10);
    assert(k.len() == 10 + primary.len());
    lemma_find_from(k, ' ', 0);
    assert forall|t: int| 0 <= t < 9 implies k[t] != ' ' by {
        assert(k[t] == h[t]);
    }
    assert(k[9] == h[9] && h[9] == ' ');
    let si = find_from(k, ' ', 0);
    assert(si == 9) by {
        if si < 9 {
            assert(k[si] == ' ');
        }
        if si > 9 {
            assert(k[9] != ' ');
        }
    }
    let p = k.subrange(0, 9);
    assert forall|t: int| 0 <= t < 9 implies p[t] == h[t] by {
        assert(p[t] == k[t]);
    }
    assert(p[0] == '.');
    lemma_find_from(p, '.', 1);
    let end = find_from(p, '.', 1);
    assert(end == 9) by {
        if end < 9 {
            assert(p[end] == '.');
            assert(h[end] != '.');
        }
    }
    let seg = p.subrange(1, 9);
    assert(seg =~= "fallback"@) by {
        assert forall|t: int| 0 <= t < 8 implies seg[t] == "fallback"@[t] by {
            assert(seg[t] == h[1 + t]);
        }
    }
    assert(seg.len() == 8);
    assert(!seg.contains(' ')) by {
        if seg.contains(' ') {
            let t = choose|t: int| 0 <= t < seg.len() && seg[t] == ' ';
            assert(seg[t] == h[1 + t]);
        }
    }
    assert(split_prefix_at(p, 9) == Some(Seq::<Seq<char>>::empty()));
    assert(split_prefix_at(p, 0) == Some(seq![seg] + Seq::<Seq<char>>::empty()));
    assert(seq![seg] + Seq::<Seq<char>>::empty() =~= seq!["fallback"@]);
    assert(k.subrange(10, k.len() as int) =~= primary);
}

/// The fallback mapping a decoded sidecar configuration describes: one entry
/// per primary language bound under the `fallback` node.
pub open spec fn spec_config(m: Map<Seq<char>, Seq<char>>) -> Map<Seq<char>, Seq<char>> {
    Map::new(|p: Seq<char>| m.dom().contains(cfg_key(p)), |p: Seq<char>| m[cfg_key(p)])
}

/// Reads the per-primary-language fallback tags out of a decoded sidecar
/// configuration: the entries under the `fallback` node, keyed by primary
/// language; anything else in the file is passed by.
pub fn config_from_map(m: &StrMap) -> (r: StrMap)
    requires
        m.wf(),
    ensures
        r.wf(),
        r@ == spec_config(m@),
{
    let mut cfg = StrMap::new();
    let n = m.pairs.len();
    let mut i: usize = 0;
    while i < n
        invariant
            m.wf(),
            n == m.entries().len(),
            i <= n,
            cfg.wf(),
            forall|p: Seq<char>|
                #[trigger] cfg@.dom().contains(p) <==> exists|t: int|
                    0 <= t < i && m.entries()[t].0 == cfg_key(p),
            forall|p: Seq<char>|
                cfg@.dom().contains(p) ==> m@.dom().contains(cfg_key(p)) && #[trigger] cfg@[p]
                    == m@[cfg_key(p)],
        decreases n - i,
    {
        let k = &m.pairs[i].0;
        let v = &m.pairs[i].1;
        let ghost cfg0 = cfg@;
        proof {
            assert(m.entries()[i as int] == (k@, v@));
            crate::strmap::lemma_alist_map_dom(m.entries());
            crate::strmap::lemma_alist_map_at(m.entries(), i as int);
        }
        match crate::codec::split_key(k) {
            Some((segs, content)) => {
                if segs.len() == 1 && str_eq(segs[0].as_str(), "fallback") {
                    proof {
                        lemma_parse_sound(k@);
                        assert(strs_view(segs@) =~= seq!["fallback"@]);
                        lemma_cfg_key_parse(content@);
                        assert(k@ =~= cfg_key(content@)) by {
                            assert(k@ == key_of(strs_view(segs@), content@));
                            assert(cfg_key(content@) == key_of(seq!["fallback"@], content@)) by {
                                lemma_parse_sound(cfg_key(content@));
                            }
                        }
                    }
                    let ghost pc = content@;
                    cfg.insert(content, v.clone());
                    proof {
                        assert forall|p: Seq<char>| #[trigger] cfg@.dom().contains(p)
                            <==> exists|t: int|
                            0 <= t < i + 1 && m.entries()[t].0 == cfg_key(p) by {
                            if cfg@.dom().contains(p) {
                                if p == pc {
                                    assert(m.entries()[i as int].0 == cfg_key(p));
                                } else {
                                    assert(cfg0.dom().contains(p));
                                    let t = choose|t: int|
                                        0 <= t < i && m.entries()[t].0 == cfg_key(p);
                                    assert(0 <= t < i + 1 && m.entries()[t].0 == cfg_key(p));
                                }
                            }
                            if exists|t: int| 0 <= t < i + 1 && m.entries()[t].0 == cfg_key(p) {
                                let t = choose|t: int|
                                    0 <= t < i + 1 && m.entries()[t].0 == cfg_key(p);
                                if t < i {
                                    assert(cfg0.dom().contains(p));
                                } else {
                                    assert(cfg_key(p) == cfg_key(pc));
                                    assert(p =~= pc) by {
                                        reveal_strlit(".fallback ");
                                        assert(".fallback "@.len() == 10);
                                        assert forall|u: int| 0 <= u < p.len() implies p[u] == pc[u]
                                        by {
                                            assert(cfg_key(p)[10 + u] == p[u]);
                                            assert(cfg_key(pc)[10 + u] == pc[u]);
                                        }
                                        assert(p.len() == pc.len()) by {
                                            assert(cfg_key(p).len() == 10 + p.len());
                                        }
                                    }
                                }
                            }
                        }
                        assert forall|p: Seq<char>|
                            cfg@.dom().contains(p) implies m@.dom().contains(cfg_key(p))
                            && #[trigger] cfg@[p] == m@[cfg_key(p)] by {
                            if p == pc {
                                assert(cfg@[pc] == v@);
                                assert(m@[cfg_key(pc)] == v@);
                            } else {
                                assert(cfg0.dom().contains(p));
                                assert(cfg@[p] == cfg0[p]);
                            }
                        }
                    }
                } else {
                    proof {
                        lemma_parse_sound(k@);
                        assert forall|p: Seq<char>| m.entries()[i as int].0 != cfg_key(p) by {
                            lemma_cfg_key_parse(p);
                            if k@ == cfg_key(p) {
                                assert(strs_view(segs@) == seq!["fallback"@]);
                                assert(segs@.len() == 1);
                                assert(segs@[0]@ == "fallback"@);
                            }
                        }
                        assert forall|p: Seq<char>| #[trigger] cfg@.dom().contains(p)
                            <==> exists|t: int|
                            0 <= t < i + 1 && m.entries()[t].0 == cfg_key(p) by {
                            if cfg@.dom().contains(p) {
                                let t = choose|t: int| 0 <= t < i && m.entries()[t].0 == cfg_key(p);
                                assert(0 <= t < i + 1 && m.entries()[t].0 == cfg_key(p));
                            }
                            if exists|t: int| 0 <= t < i + 1 && m.entries()[t].0 == cfg_key(p) {
                                let t = choose|t: int|
                                    0 <= t < i + 1 && m.entries()[t].0 == cfg_key(p);
                                assert(t < i);
                            }
                        }
                    }
                }
            },
            None => {
                proof {
                    assert forall|p: Seq<char>| m.entries()[i as int].0 != cfg_key(p) by {
                        lemma_cfg_key_parse(p);
                    }
                    assert forall|p: Seq<char>| #[trigger] cfg@.dom().contains(p)
                        <==> exists|t: int|
                        0 <= t < i + 1 && m.entries()[t].0 == cfg_key(p) by {
                        if cfg@.dom().contains(p) {
                            let t = choose|t: int| 0 <= t < i && m.entries()[t].0 == cfg_key(p);
                            assert(0 <= t < i + 1 && m.entries()[t].0 == cfg_key(p));
                        }
                        if exists|t: int| 0 <= t < i + 1 && m.entries()[t].0 == cfg_key(p) {
                            let t = choose|t: int|
                                0 <= t < i + 1 && m.entries()[t].0 == cfg_key(p);
                            assert(t < i);
                        }
                    }
                }
            },
        }
        i = i + 1;
    }
    proof {
        crate::strmap::lemma_alist_map_dom(m.entries());
        assert(cfg@ =~= spec_config(m@)) by {
            assert forall|p: Seq<char>| m@.dom().contains(cfg_key(p)) implies cfg@.dom().contains(
                p,
            ) by {
                let t = choose|t: int| 0 <= t < m.entries().len() && m.entries()[t].0 == cfg_key(p);
            }
        }
    }
    cfg
}


/// A group holds at most one variant per region.
pub open spec fn group_wf(g: LangGroup) -> bool {
    forall|a: int, b: int|
        0 <= a < b < g.variants@.len() ==> opt_view(#[trigger] g.variants@[a].region) != opt_view(
            #[trigger] g.variants@[b].region,
        )
}

/// The model holds at most one group per primary language, each well-formed.
pub open spec fn model_wf(m: LocaleModel) -> bool {
    &&& forall|a: int, b: int|
        0 <= a < b < m.groups@.len() ==> (#[trigger] m.groups@[a].primary)@ != (
        #[trigger] m.groups@[b].primary)@
    &&& forall|t: int| 0 <= t < m.groups@.len() ==> group_wf(#[trigger] m.groups@[t])
}

/// Inserting a discovered catalog keeps the model well-formed: one group per
/// primary language, one variant per region.
pub proof fn lemma_model_insert_wf(
    before: LocaleModel,
    after: LocaleModel,
    primary: String,
    region: Option<String>,
    tag: String,
    translations: StrMap,
)
    requires
        model_wf(before),
        match group_index(before.groups@, primary@, 0) {
            None => {
                &&& after.groups@.len() == before.groups@.len() + 1
                &&& after.groups@.drop_last() == before.groups@
                &&& after.groups@.last().primary@ == primary@
                &&& after.groups@.last().variants@.len() == 1
            },
            Some(gi) => {
                &&& after.groups@.len() == before.groups@.len()
                &&& (forall|t: int|
                    0 <= t < before.groups@.len() && t != gi ==> after.groups@[t]
                        == before.groups@[t])
                &&& after.groups@[gi].primary == before.groups@[gi].primary
                &&& {
                    let ovs = before.groups@[gi].variants@;
                    let nvs = after.groups@[gi].variants@;
                    match variant_index(ovs, opt_view(region), 0) {
                        None => nvs.len() == ovs.len() + 1 && nvs.drop_last() == ovs
                            && is_variant_of(nvs.last(), opt_view(region), tag@, translations),
                        Some(vi) => nvs.len() == ovs.len() && (forall|t: int|
                            0 <= t < ovs.len() && t != vi ==> nvs[t] == ovs[t]) && is_variant_of(
                            nvs[vi],
                            opt_view(region),
                            tag@,
                            translations,
                        ),
                    }
                }
            },
        },
    ensures
        model_wf(after),
{
    lemma_group_index(before.groups@, primary@, 0);
    match group_index(before.groups@, primary@, 0) {
        None => {
            assert forall|a: int, b: int| 0 <= a < b < after.groups@.len() implies (
            #[trigger] after.groups@[a].primary)@ != (#[trigger] after.groups@[b].primary)@ by {
                if b < after.groups@.len() - 1 {
                    assert(after.groups@[a] == before.groups@[a]);
                    assert(after.groups@[b] == before.groups@[b]);
                } else {
                    assert(after.groups@[a] == before.groups@[a]);
                    assert(after.groups@[b].primary@ == primary@);
                }
            }
            assert forall|t: int| 0 <= t < after.groups@.len() implies group_wf(
                #[trigger] after.groups@[t],
            ) by {
                if t < after.groups@.len() - 1 {
                    assert(after.groups@[t] == before.groups@[t]);
                }
            }
        },
        Some(gi) => {
            lemma_variant_index(before.groups@[gi].variants@, opt_view(region), 0);
            assert forall|a: int, b: int| 0 <= a < b < after.groups@.len() implies (
            #[trigger] after.groups@[a].primary)@ != (#[trigger] after.groups@[b].primary)@ by {
                assert(after.groups@[a].primary == before.groups@[a].primary);
                assert(after.groups@[b].primary == before.groups@[b].primary);
            }
            assert forall|t: int| 0 <= t < after.groups@.len() implies group_wf(
                #[trigger] after.groups@[t],
            ) by {
                if t != gi {
                    assert(after.groups@[t] == before.groups@[t]);
                } else {
                    let ovs = before.groups@[gi].variants@;
                    let nvs = after.groups@[gi].variants@;
                    match variant_index(ovs, opt_view(region), 0) {
                        None => {
                            assert forall|a: int, b: int| 0 <= a < b < nvs.len() implies opt_view(
                                #[trigger] nvs[a].region,
                            ) != opt_view(#[trigger] nvs[b].region) by {
                                assert(nvs[a] == ovs[a]);
                                if b < nvs.len() - 1 {
                                    assert(nvs[b] == ovs[b]);
                                } else {
                                    assert(opt_view(nvs[b].region) == opt_view(region));
                                }
                            }
                        },
                        Some(vi) => {
                            assert(opt_view(ovs[vi].region) == opt_view(region));
                            assert forall|a: int, b: int| 0 <= a < b < nvs.len() implies opt_view(
                                #[trigger] nvs[a].region,
                            ) != opt_view(#[trigger] nvs[b].region) by {
                                if a != vi {
                                    assert(nvs[a] == ovs[a]);
                                }
                                if b != vi {
                                    assert(nvs[b] == ovs[b]);
                                }
                                if a == vi {
                                    assert(opt_view(nvs[a].region) == opt_view(ovs[a].region));
                                }
                                if b == vi {
                                    assert(opt_view(nvs[b].region) == opt_view(ovs[b].region));
                                }
                            }
                        },
                    }
                }
            }
        },
    }
}


/// The lexicographic order is total: two sequences are ordered one way, the
/// other way, or equal.
pub proof fn lemma_lex_total(a: Seq<char>, b: Seq<char>)
    ensures
        lex_lt(a, b) || lex_lt(b, a) || a == b,
    decreases a.len(),
{
    if a.len() == 0 && b.len() == 0 {
        assert(a =~= b);
    } else if a.len() > 0 && b.len() > 0 {
        if a[0] == b[0] {
            lemma_lex_total(a.drop_first(), b.drop_first());
            if a.drop_first() == b.drop_first() {
                assert(a.len() == b.len()) by {
                    assert(a.drop_first().len() == b.drop_first().len());
                }
                assert forall|t: int| 0 <= t < a.len() implies a[t] == b[t] by {
                    if t > 0 {
                        assert(a[t] == a.drop_first()[t - 1]);
                        assert(b[t] == b.drop_first()[t - 1]);
                    }
                }
                assert(a =~= b);
            }
        }
    }
}

/// The default rule really is a minimum: the variant the rule picks bears a
/// named region that no other variant's named region precedes, so the choice
/// does not depend on the order in which catalogs were discovered.
pub proof fn lemma_min_region_least(vs: Seq<Variant>, i: int)
    requires
        0 <= i <= vs.len(),
    ensures
        match min_region_index(vs, i) {
            Some(j) => i <= j < vs.len() && vs[j].region is Some && forall|t: int|
                i <= t < vs.len() && (#[trigger] vs[t].region) is Some ==> !lex_lt(
                    vs[t].region->0@,
                    vs[j].region->0@,
                ),
            None => forall|t: int| i <= t < vs.len() ==> (#[trigger] vs[t].region) is None,
        },
    decreases vs.len() - i,
{
    if i < vs.len() {
        lemma_min_region_least(vs, i + 1);
        let rest = min_region_index(vs, i + 1);
        match vs[i].region {
            None => {},
            Some(r) => {
                match rest {
                    None => {
                        assert forall|t: int|
                            i <= t < vs.len() && (#[trigger] vs[t].region) is Some implies !lex_lt(
                            vs[t].region->0@,
                            r@,
                        ) by {
                            if t == i {
                                lemma_lex_irrefl(r@);
                            }
                        }
                    },
                    Some(j) => {
                        let jr = vs[j].region->0@;
                        lemma_lex_total(jr, r@);
                        if lex_lt(jr, r@) {
                            assert forall|t: int|
                                i <= t < vs.len() && (#[trigger] vs[t].region) is Some implies !lex_lt(
                                vs[t].region->0@,
                                jr,
                            ) by {
                                if t == i && lex_lt(r@, jr) {
                                    lemma_lex_lt_trans(r@, jr, r@);
                                    lemma_lex_irrefl(r@);
                                }
                            }
                        } else {
                            assert forall|t: int|
                                i <= t < vs.len() && (#[trigger] vs[t].region) is Some implies !lex_lt(
                                vs[t].region->0@,
                                r@,
                            ) by {
                                if t == i {
                                    lemma_lex_irrefl(r@);
                                } else if lex_lt(vs[t].region->0@, r@) {
                                    if jr == r@ {
                                        assert(!lex_lt(vs[t].region->0@, jr));
                                    } else {
                                        lemma_lex_lt_trans(vs[t].region->0@, r@, jr);
                                    }
                                }
                            }
                        }
                    },
                }
            },
        }
    }
}

/// Nothing precedes itself in the lexicographic order.
pub proof fn lemma_lex_irrefl(a: Seq<char>)
    ensures
        !lex_lt(a, a),
    decreases a.len(),
{
    if a.len() > 0 {
        lemma_lex_irrefl(a.drop_first());
    }
}

/// The lexicographic order is transitive.
pub proof fn lemma_lex_lt_trans(a: Seq<char>, b: Seq<char>, c: Seq<char>)
    requires
        lex_lt(a, b),
        lex_lt(b, c),
    ensures
        lex_lt(a, c),
    decreases a.len(),
{
    if a.len() > 0 && a[0] == b[0] && b[0] == c[0] {
        lemma_lex_lt_trans(a.drop_first(), b.drop_first(), c.drop_first());
    }
}

} // verus!
