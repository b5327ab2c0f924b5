use q3::{parse_query, Q3Ast};
use q3::parser::{parse_any, parse_id};

fn roundtrip(input: &str) -> String {
    parse_query(input)
        .unwrap()
        .iter()
        .map(|t| t.source_text())
        .collect::<Vec<String>>()
        .join("")
}

#[test]
fn parse_id_accepts_a_reference() {
    let (token, used) = parse_id("#{test1}").unwrap();
    assert_eq!(token, Q3Ast::Id("test1".into()));
    assert_eq!(used, 8);
}

#[test]
fn parse_id_rejects_spaces_and_open_ends() {
    assert!(parse_id("#{ test1 }").is_none());
    assert!(parse_id("#{test1").is_none());
    assert!(parse_id("#{}").is_none());
    assert!(parse_id("plain").is_none());
}

#[test]
fn parse_any_takes_the_greedy_literal() {
    let (token, used) = parse_any("lorem ipsum dolor #{id1} sit");
    assert_eq!(token, Q3Ast::Other("lorem ipsum dolor ".into()));
    assert_eq!(used, 18);

    let (token, _used) = parse_any("lorem ipsum dolor sit");
    assert_eq!(token, Q3Ast::Other("lorem ipsum dolor sit".into()));

    let (token, _used) = parse_any("lorem ipsum dolor #{id1 sit");
    assert_eq!(token, Q3Ast::Other("lorem ipsum dolor #{id1 sit".into()));

    let (token, _used) = parse_any("#{lorem ipsum dolor #{id1 sit");
    assert_eq!(token, Q3Ast::Other("#{lorem ipsum dolor #{id1 sit".into()));
}

#[test]
fn parse_query_splits_literals_and_references() {
    assert_eq!(
        parse_query("lorem ipsum dolor #{id1} sit").unwrap(),
        vec![
            Q3Ast::Other("lorem ipsum dolor ".into()),
            Q3Ast::Id("id1".into()),
            Q3Ast::Other(" sit".into()),
        ]
    );
}

#[test]
fn parse_query_keeps_malformed_placeholders_literal() {
    assert_eq!(
        parse_query("a #{id1 b").unwrap(),
        vec![Q3Ast::Other("a #{id1 b".into())]
    );
    assert_eq!(
        parse_query("lorem ipsum dolor #{id1 sit").unwrap(),
        vec![Q3Ast::Other("lorem ipsum dolor #{id1 sit".into())]
    );
}

#[test]
fn parse_query_mixes_broken_and_good_references() {
    assert_eq!(
        parse_query("#{id1} lorem ipsum #{ dolor #{id2} sit").unwrap(),
        vec![
            Q3Ast::Id("id1".into()),
            Q3Ast::Other(" lorem ipsum #{ dolor ".into()),
            Q3Ast::Id("id2".into()),
            Q3Ast::Other(" sit".into()),
        ]
    );
}

#[test]
fn parse_query_handles_edges() {
    assert_eq!(parse_query("").unwrap(), vec![]);
    assert_eq!(
        parse_query("#{a}#{b}").unwrap(),
        vec![Q3Ast::Id("a".into()), Q3Ast::Id("b".into())]
    );
    assert_eq!(
        parse_query("#{").unwrap(),
        vec![Q3Ast::Other("#{".into())]
    );
}

#[test]
fn parse_round_trips_every_sample() {
    for input in [
        "",
        "plain text",
        "#{a}#{b}",
        "a #{id1 b",
        "#{id1} lorem ipsum #{ dolor #{id2} sit",
        "trailing #{x}",
        "#{x} leading",
        "#{}",
        "#{ }",
        "tab\tand #{id}",
    ] {
        assert_eq!(roundtrip(input), input);
    }
}

#[test]
fn token_texts_render_without_delimiters() {
    assert_eq!(Q3Ast::Id("name".to_string()).to_text(), "name");
    assert_eq!(Q3Ast::Other("text".to_string()).to_text(), "text");
    assert_eq!(Q3Ast::Id("name".to_string()).source_text(), "#{name}");
}
