use r18::strmap::{StrMap, StrSet};
use r18::sync::{fresh_catalog, generate_plan, update_catalog};

fn smap(pairs: &[(&str, &str)]) -> StrMap {
    let mut m = StrMap::new();
    for (k, v) in pairs {
        m.insert(k.to_string(), v.to_string());
    }
    m
}

fn sset(elems: &[&str]) -> StrSet {
    let mut s = StrSet::new();
    for e in elems {
        s.insert(e.to_string());
    }
    s
}

#[test]
fn update_adds_missing_keys() {
    let catalog = smap(&[(" Hello, {}", "你好，{}")]);
    let keys = sset(&[" Hello, {}", " Bye, {}"]);
    let out = update_catalog(&keys, &catalog, false);

    assert_eq!(out.missing.elems, vec![" Bye, {}".to_string()]);
    assert_eq!(out.unused.len(), 0);
    assert!(out.write_needed);
    assert_eq!(out.merged.len(), 2);
    assert_eq!(out.merged.get(&" Hello, {}".to_string()).unwrap(), "你好，{}");
    assert_eq!(out.merged.get(&" Bye, {}".to_string()).unwrap(), "[TODO]");
}

#[test]
fn update_removes_unused_keys() {
    let catalog = smap(&[(" Hello, {}", "你好，{}"), (" Old, {}", "旧")]);
    let keys = sset(&[" Hello, {}"]);
    let out = update_catalog(&keys, &catalog, true);

    assert_eq!(out.unused.len(), 1);
    assert_eq!(out.unused.elems, vec![" Old, {}".to_string()]);
    assert_eq!(out.missing.len(), 0);
    assert!(out.write_needed);
    assert_eq!(out.merged.len(), 1);
    assert_eq!(out.merged.get(&" Hello, {}".to_string()).unwrap(), "你好，{}");
    assert!(out.merged.get(&" Old, {}".to_string()).is_none());
}

#[test]
fn update_keeps_unused_without_removal() {
    let catalog = smap(&[(" Hello, {}", "你好，{}"), (" Old, {}", "旧")]);
    let keys = sset(&[" Hello, {}"]);
    let out = update_catalog(&keys, &catalog, false);

    assert_eq!(out.unused.len(), 1);
    assert_eq!(out.missing.len(), 0);
    assert!(!out.write_needed);
    assert_eq!(out.merged.len(), 2);
    assert_eq!(out.merged.get(&" Old, {}".to_string()).unwrap(), "旧");
}

#[test]
fn update_twice_needs_no_second_write() {
    let catalog = smap(&[(" Hello, {}", "你好，{}"), (" Old, {}", "旧")]);
    let keys = sset(&[" Hello, {}", " Bye, {}"]);
    for rm in [false, true] {
        let first = update_catalog(&keys, &catalog, rm);
        assert!(first.write_needed);
        let second = update_catalog(&keys, &first.merged, rm);
        assert_eq!(second.missing.len(), 0);
        if rm {
            assert_eq!(second.unused.len(), 0);
        }
        assert!(!second.write_needed);
        assert_eq!(second.merged.len(), first.merged.len());
    }
}

#[test]
fn fresh_catalog_marks_everything() {
    let keys = sset(&[" Hello, {}", ".menu Open"]);
    let m = fresh_catalog(&keys);
    assert_eq!(m.len(), 2);
    assert_eq!(m.get(&" Hello, {}".to_string()).unwrap(), "[TODO]");
    assert_eq!(m.get(&".menu Open".to_string()).unwrap(), "[TODO]");
}

#[test]
fn generate_skips_existing_catalog() {
    let keys = sset(&[" Hello, {}"]);
    let locales = vec!["zh-CN".to_string(), "fr".to_string()];
    let existing = sset(&["zh-CN.json"]);
    let plan = generate_plan(&keys, &locales, &existing).unwrap();

    assert_eq!(plan.skipped, vec!["zh-CN.json".to_string()]);
    assert_eq!(plan.writes.len(), 1);
    assert_eq!(plan.writes[0].0, "fr.json");
    assert_eq!(plan.writes[0].1.get(&" Hello, {}".to_string()).unwrap(), "[TODO]");
}

#[test]
fn generate_normalizes_locale_names() {
    let keys = sset(&[" Hello, {}"]);
    let locales = vec!["zh-cn".to_string()];
    let existing = sset(&[]);
    let plan = generate_plan(&keys, &locales, &existing).unwrap();
    assert_eq!(plan.writes[0].0, "zh-CN.json");
}

#[test]
fn generate_rejects_invalid_locale() {
    let keys = sset(&[" Hello, {}"]);
    let locales = vec!["zh-CN".to_string(), "not a tag".to_string()];
    let existing = sset(&[]);
    let err = generate_plan(&keys, &locales, &existing).unwrap_err();
    assert_eq!(err.locale, "not a tag");
}

#[test]
fn placeholder_marks_untranslated_entries() {
    let keys = sset(&[" Hello, {}"]);
    let catalog = smap(&[(" Hello, {}", "你好，{}")]);
    let out = update_catalog(&sset(&[" Hello, {}", " Bye, {}"]), &catalog, false);
    assert!(r18::sync::is_untranslated(out.merged.get(&" Bye, {}".to_string()).unwrap()));
    assert!(!r18::sync::is_untranslated(out.merged.get(&" Hello, {}".to_string()).unwrap()));
    let fresh = fresh_catalog(&keys);
    assert!(r18::sync::is_untranslated(fresh.get(&" Hello, {}".to_string()).unwrap()));
}
