use cursor_api::tokens::{
    load_tokens, merge_tokens, normalize, parse_list_line, parse_token_line, parse_token_list,
    parse_tokens, render_token_list, TokenInfo,
};

fn info(token: &str, checksum: &str, alias: Option<&str>) -> TokenInfo {
    TokenInfo {
        token: token.to_owned(),
        checksum: checksum.to_owned(),
        alias: alias.map(|a| a.to_owned()),
    }
}

fn fresh(n: usize) -> Vec<String> {
    (0..n).map(|i| format!("fresh{}", i)).collect()
}

#[test]
fn lines_of_the_token_file() {
    assert_eq!(parse_token_line("  tok  "), Some(("tok".to_owned(), None)));
    assert_eq!(
        parse_token_line("me::tok"),
        Some(("tok".to_owned(), Some("me".to_owned())))
    );
    assert_eq!(parse_token_line("a::b::c"), None);
    assert_eq!(parse_token_line("# comment"), None);
    assert_eq!(parse_token_line("   "), None);
}

#[test]
fn lines_of_the_list_file() {
    assert_eq!(parse_list_line("tok,sum"), Some(info("tok", "sum", None)));
    assert_eq!(parse_list_line("me::tok,sum"), Some(info("tok", "sum", Some("me"))));
    assert_eq!(parse_list_line("tok"), None);
    assert_eq!(parse_list_line("tok,sum,more"), None);
    assert_eq!(parse_list_line("a::b::c,sum"), None);
    assert_eq!(parse_list_line("#tok,sum"), None);
}

#[test]
fn files_are_normalized() {
    assert_eq!(normalize("a\r\nb\nc\r"), "a\nb\nc\r");
    assert_eq!(
        parse_tokens("a\r\n\r\n# c\r\nx::b\r\n"),
        vec![("a".to_owned(), None), ("b".to_owned(), Some("x".to_owned()))]
    );
}

#[test]
fn last_line_of_a_token_counts() {
    assert_eq!(
        parse_token_list("a,1\nb,2\nx::a,3\n"),
        vec![info("a", "3", Some("x")), info("b", "2", None)]
    );
}

#[test]
fn known_tokens_keep_their_checksum() {
    let list = vec![info("a", "1", None), info("b", "2", Some("old"))];
    let entries = vec![
        ("b".to_owned(), Some("new".to_owned())),
        ("c".to_owned(), None),
        ("c".to_owned(), Some("twice".to_owned())),
    ];
    assert_eq!(
        merge_tokens(list, &entries, &fresh(3)),
        vec![
            info("a", "1", None),
            info("b", "2", Some("new")),
            info("c", "fresh1", Some("twice")),
        ]
    );
}

#[test]
fn list_is_written_and_read_back() {
    let list = vec![info("a", "1", None), info("b", "2", Some("me"))];
    let text = render_token_list(&list);
    assert_eq!(text, "a,1\nme::b,2");
    assert_eq!(parse_token_list(&text), list);
    assert_eq!(render_token_list(&vec![]), "");
    let list = vec![info("b:1", "2\r3", Some("me:you")), info("c", "4", None)];
    assert_eq!(parse_token_list(&render_token_list(&list)), list);
}

#[test]
fn tokens_are_loaded() {
    let loaded = load_tokens(Some("a\r\nme::b"), Some("a,1"), &fresh(2));
    assert_eq!(loaded.token_file, Some("a\nme::b".to_owned()));
    assert_eq!(loaded.token_list_file, "a,1\nme::b,fresh1");
    assert_eq!(
        loaded.token_infos,
        vec![info("a", "1", None), info("b", "fresh1", Some("me"))]
    );
    let loaded = load_tokens(None, None, &fresh(0));
    assert_eq!(loaded.token_file, None);
    assert_eq!(loaded.token_list_file, "");
    assert!(loaded.token_infos.is_empty());
}
