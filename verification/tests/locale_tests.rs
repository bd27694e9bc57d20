use r18::args::{Args, Command, InnerArgs, SelfCommand};
use r18::codec::{decode, Doc};
use r18::locale::{classify_file_name, config_from_map, lookup_locale, FileKind, LocaleModel};
use r18::strmap::{StrMap, StrSet};
use r18::translator::{translate, Locale};

fn smap(pairs: &[(&str, &str)]) -> StrMap {
    let mut m = StrMap::new();
    for (k, v) in pairs {
        m.insert(k.to_string(), v.to_string());
    }
    m
}

fn insert_variant(model: &mut LocaleModel, primary: &str, region: Option<&str>, tag: &str) {
    r18::locale::model_insert(
        model,
        primary.to_string(),
        region.map(|r| r.to_string()),
        tag.to_string(),
        smap(&[(" Hello, {}", tag)]),
    );
}

fn resolved_tag<'a>(model: &'a LocaleModel, config: &StrMap, tag: &str) -> Option<&'a str> {
    lookup_locale(model, config, tag).map(|(gi, vi)| model.groups[gi].variants[vi].tag.as_str())
}

#[test]
fn fallback_resolution_rules() {
    let mut model = LocaleModel::new();
    insert_variant(&mut model, "zh", Some("CN"), "zh-CN");
    insert_variant(&mut model, "zh", Some("TW"), "zh-TW");

    let no_config = StrMap::new();
    // no fallback entry: the alphabetically smallest region wins
    assert_eq!(resolved_tag(&model, &no_config, "zh"), Some("zh-CN"));
    // an exact region always wins
    assert_eq!(resolved_tag(&model, &no_config, "zh-TW"), Some("zh-TW"));
    // a configured fallback redirects the region-less request
    let config = smap(&[("zh", "zh-TW")]);
    assert_eq!(resolved_tag(&model, &config, "zh"), Some("zh-TW"));
    // an unknown primary language resolves to nothing
    assert_eq!(resolved_tag(&model, &no_config, "fr"), None);
    // an ill-formed tag resolves to nothing
    assert_eq!(resolved_tag(&model, &no_config, "not a tag"), None);
}

#[test]
fn fallback_to_region_less_variant() {
    let mut model = LocaleModel::new();
    insert_variant(&mut model, "de", None, "de");
    let no_config = StrMap::new();
    assert_eq!(resolved_tag(&model, &no_config, "de-AT"), Some("de"));
    // a named region still beats the region-less variant
    insert_variant(&mut model, "de", Some("CH"), "de-CH");
    assert_eq!(resolved_tag(&model, &no_config, "de-AT"), Some("de-CH"));
    // the exact region-less request finds the region-less variant
    assert_eq!(resolved_tag(&model, &no_config, "de"), Some("de"));
}

#[test]
fn replacing_a_variant_keeps_one_per_region() {
    let mut model = LocaleModel::new();
    insert_variant(&mut model, "zh", Some("CN"), "zh-CN");
    insert_variant(&mut model, "zh", Some("CN"), "zh-CN");
    assert_eq!(model.groups.len(), 1);
    assert_eq!(model.groups[0].variants.len(), 1);
}

#[test]
fn classify_catalog_file_names() {
    match classify_file_name("config.json") {
        FileKind::Config => {}
        _ => panic!("config.json must classify as the sidecar configuration"),
    }
    match classify_file_name("zh-cn.json") {
        FileKind::Catalog(t) => {
            assert_eq!(t.full, "zh-CN");
            assert_eq!(t.primary, "zh");
            assert_eq!(t.region.as_deref(), Some("CN"));
        }
        _ => panic!("zh-cn.json must classify as a catalog"),
    }
    match classify_file_name("notes.txt") {
        FileKind::Other => {}
        _ => panic!("notes.txt is no catalog"),
    }
    match classify_file_name("a.b.json") {
        FileKind::Other => {}
        _ => panic!("two dots make no catalog name"),
    }
    match classify_file_name("zh-CN.json.bak") {
        FileKind::Other => {}
        _ => panic!("a trailing suffix makes no catalog name"),
    }
}

#[test]
fn config_read_from_document() {
    let doc = Doc::Node(vec![(
        "fallback".to_string(),
        Doc::Node(vec![
            ("zh".to_string(), Doc::Leaf("zh-TW".to_string())),
            ("de".to_string(), Doc::Leaf("de-CH".to_string())),
        ]),
    )]);
    let flat = decode(&doc).unwrap();
    let cfg = config_from_map(&flat);
    assert_eq!(cfg.len(), 2);
    assert_eq!(cfg.get(&"zh".to_string()).unwrap(), "zh-TW");
    assert_eq!(cfg.get(&"de".to_string()).unwrap(), "de-CH");
}

#[test]
fn translate_with_and_without_locale() {
    let locale = Locale {
        name: "zh-CN".to_string(),
        translations: smap(&[
            (" Hello, {}", "你好，{}"),
            (
                ".pua Hello, {}",
                "要到年底了，我希望你能加把劲，你看隔壁组的 {}，39度羊都是在办公室打地铺的",
            ),
            (" Debug: {}", "调试：{}"),
        ]),
    };
    assert_eq!(translate(Some(&locale), "", "Hello, {}"), "你好，{}");
    assert_eq!(
        translate(Some(&locale), ".pua", "Hello, {}"),
        "要到年底了，我希望你能加把劲，你看隔壁组的 {}，39度羊都是在办公室打地铺的"
    );
    assert_eq!(translate(Some(&locale), "", "Debug: {}"), "调试：{}");
    // an untranslated key passes the content through
    assert_eq!(translate(Some(&locale), "", "Bye, {}"), "Bye, {}");
    // no locale set: everything passes through
    assert_eq!(translate(None, ".pua", "Hello, {}"), "Hello, {}");
}

#[test]
fn inner_args_unwraps_the_subcommand() {
    let args = Args {
        command: SelfCommand::R18(InnerArgs {
            command: Command::Update { rm_unused: true },
            root: "./".to_string(),
        }),
    };
    let inner = args.inner_args();
    assert_eq!(inner.root, "./");
    match inner.command {
        Command::Update { rm_unused } => assert!(rm_unused),
        _ => panic!("the update command must survive unwrapping"),
    }
}
