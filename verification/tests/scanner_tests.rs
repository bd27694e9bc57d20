use proc_macro2::TokenTree;
use r18::scanner::{scan_tokens, Pos, ScanErrorKind, ScanState, Token};

fn pos_of(lc: proc_macro2::LineColumn) -> Pos {
    Pos { line: lc.line, col: lc.column }
}

fn convert_stream(ts: proc_macro2::TokenStream) -> Vec<Token> {
    let mut out = Vec::new();
    for tt in ts {
        match tt {
            TokenTree::Group(g) => {
                let p = pos_of(g.span_open().start());
                out.push(Token::Group(convert_stream(g.stream()), p));
            }
            TokenTree::Ident(id) => {
                let p = pos_of(id.span().start());
                out.push(Token::Ident(id.to_string(), p));
            }
            TokenTree::Punct(pu) => {
                let p = pos_of(pu.span().start());
                out.push(Token::Punct(pu.as_char(), p));
            }
            TokenTree::Literal(l) => {
                let p = pos_of(l.span().start());
                let one = proc_macro2::TokenStream::from(TokenTree::Literal(l));
                match syn::parse2::<syn::LitStr>(one) {
                    Ok(s) => out.push(Token::StrLit(s.value(), p)),
                    Err(_) => out.push(Token::OtherLit(p)),
                }
            }
        }
    }
    out
}

use syn::__private::ToTokens;

fn tokens_of(source: &str) -> Vec<Token> {
    let file = syn::parse_file(source).unwrap();
    convert_stream(file.into_token_stream())
}

fn scan_source(source: &str) -> Result<ScanState, r18::scanner::ScanError> {
    scan_tokens(&tokens_of(source), ScanState::new())
}

#[test]
fn test_extract_inner() {
    let source = r#"
r18::init!("tr");

fn main() {
    let name = "ho-229";

    println!("{}", r18::tr!("Hello, {}", name));
    println!("{}", r18::tr!([".pua"] "Hello, {}", name));
    let _ = r18::tr!("Debug: {}", format!("{:?}", name));
}
"#;
    let st = scan_source(source).unwrap();
    println!("contents: {:#?}", st.keys.elems);
    println!("locale: {}", st.dir.as_deref().unwrap_or(""));
    assert_eq!(st.dir.as_deref(), Some("tr"));
    assert!(st.keys.elems.contains(&" Hello, {}".to_string()));
    assert!(st.keys.elems.contains(&".pua Hello, {}".to_string()));
    assert!(st.keys.elems.contains(&" Debug: {}".to_string()));
}

#[test]
fn scanner_completeness_distinct_contents() {
    let source = r#"
fn main() {
    let a = tr!("Hello, {}", 1);
    let b = tr!("Bye, {}");
    let c = { tr!("Nested. deep, {}") };
    let d = tr!("Hello, {}");
}
"#;
    let st = scan_source(source).unwrap();
    assert_eq!(st.keys.len(), 3);
    assert!(st.keys.elems.contains(&" Hello, {}".to_string()));
    assert!(st.keys.elems.contains(&" Bye, {}".to_string()));
    assert!(st.keys.elems.contains(&" Nested. deep, {}".to_string()));
    assert!(st.dir.is_none());
}

#[test]
fn duplicate_init_in_one_file() {
    let source = r#"
r18::init!("tr");
fn main() {
    r18::init!("other");
}
"#;
    let e = scan_source(source).unwrap_err();
    assert_eq!(e.kind, ScanErrorKind::DuplicateInit);
}

#[test]
fn duplicate_init_across_files() {
    let first = tokens_of(r#"r18::init!("tr");"#);
    let second = tokens_of(r#"r18::init!("tr2");"#);
    let st1 = scan_tokens(&first, ScanState::new()).unwrap();
    assert_eq!(st1.dir.as_deref(), Some("tr"));
    let e = scan_tokens(&second, st1).unwrap_err();
    assert_eq!(e.kind, ScanErrorKind::DuplicateInit);
}

#[test]
fn malformed_prefix_is_rejected() {
    let source = r#"
fn main() {
    let a = tr!(["pua"] "Hello");
}
"#;
    let e = scan_source(source).unwrap_err();
    assert_eq!(e.kind, ScanErrorKind::MalformedPrefix);
    assert!(e.pos.is_some());
}

#[test]
fn malformed_call_is_rejected() {
    let e = scan_source("fn main() { tr!(42); }").unwrap_err();
    assert_eq!(e.kind, ScanErrorKind::MalformedCall);
    let e2 = scan_source("fn main() { tr!(); }").unwrap_err();
    assert_eq!(e2.kind, ScanErrorKind::MalformedCall);
    let e3 = scan_source(r#"fn main() { init!(name); }"#).unwrap_err();
    assert_eq!(e3.kind, ScanErrorKind::MalformedCall);
}

#[test]
fn non_call_uses_are_ignored() {
    let source = r#"
fn tr() -> i32 { 0 }
fn main() {
    let a = tr();
    let b = "tr!";
    let init = 3;
}
"#;
    let st = scan_source(source).unwrap();
    assert_eq!(st.keys.len(), 0);
    assert!(st.dir.is_none());
}
