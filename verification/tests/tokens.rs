use cargo_arc::analyze::tokens::{token_paths, Token};

fn ident(name: &str, line: usize) -> Token {
    Token::Ident { name: name.to_string(), line }
}

fn colon(joint: bool) -> Token {
    Token::Punct { ch: ':', joint }
}

#[test]
fn paths_are_runs_of_identifiers_joined_by_double_colons() {
    let tokens = vec![
        ident("crate", 1),
        colon(true),
        colon(false),
        ident("vocab", 1),
        colon(true),
        colon(false),
        ident("LIMIT", 1),
        Token::Punct { ch: '>', joint: false },
        Token::Literal,
        ident("done", 2),
    ];
    let paths = token_paths(&tokens);
    assert_eq!(paths, vec![("crate::vocab::LIMIT".to_string(), 1), ("done".to_string(), 2)]);
}

#[test]
fn groups_are_read_inside_and_lifetimes_skipped() {
    let tokens = vec![
        Token::Punct { ch: '\'', joint: true },
        ident("a", 1),
        Token::Group(vec![ident("build", 3), Token::Punct { ch: ',', joint: false }, ident("Config", 3)]),
        ident("x", 4),
        colon(false),
        colon(false),
        ident("y", 4),
    ];
    let paths = token_paths(&tokens);
    assert_eq!(
        paths,
        vec![
            ("build".to_string(), 3),
            ("Config".to_string(), 3),
            ("x".to_string(), 4),
            ("y".to_string(), 4),
        ]
    );
}
