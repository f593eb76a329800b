use tagger::entry::Img;
use tagger::search::{
    can_fast_filter_on, fast_filter, filter_to_expr, filter_to_string, parse,
    tokenize, Expr, Token,
};
use tagger::tag::Tag;

fn show_token(t: &Token) -> String {
    match t {
        Token::Tag(s) => format!("T({})", s),
        Token::Not => String::from("-"),
        Token::Or => String::from(","),
        Token::LParen => String::from("("),
        Token::RParen => String::from(")"),
    }
}

fn show_tokens(ts: &Vec<Token>) -> Vec<String> {
    ts.iter().map(show_token).collect()
}

fn show_expr(e: &Expr) -> String {
    match e {
        Expr::Tag(t) => format!("{}", t),
        Expr::Not(b) => format!("!{}", show_expr(b)),
        Expr::Or(v) => format!("or[{}]", v.iter().map(show_expr).collect::<Vec<_>>().join(" ")),
        Expr::And(v) => format!("and[{}]", v.iter().map(show_expr).collect::<Vec<_>>().join(" ")),
    }
}

fn tags() -> Vec<Tag> {
    vec![
        Tag { name: String::from("sea"), idx: 0, refs: 3 },
        Tag { name: String::from("sky"), idx: 1, refs: 2 },
        Tag { name: String::from("Casey"), idx: 2, refs: 1 },
    ]
}

fn img(idx: usize, tags: Option<Vec<u32>>) -> Img {
    Img {
        idx,
        path: format!("/d/{}.png", idx),
        name: format!("{}.png", idx),
        extension: String::from("png"),
        tags,
    }
}

fn images() -> Vec<Img> {
    vec![
        img(0, Some(vec![0, 1])),
        img(1, Some(vec![0])),
        img(2, None),
        img(3, Some(vec![2, 0])),
        img(4, Some(vec![1])),
    ]
}

fn parsed(s: &str) -> Result<String, String> {
    match tokenize(String::from(s)) {
        None => Err(String::from("no tokens")),
        Some(t) => parse(t, &tags()).map(|e| show_expr(&e)),
    }
}

#[test]
fn tokens_of_search_text() {
    let t = tokenize(String::from("a -b,(c)")).unwrap();
    assert_eq!(show_tokens(&t), vec!["T(a)", "-", "T(b)", ",", "(", "T(c)", ")"]);
}

#[test]
fn tokens_split_on_operators() {
    let t = tokenize(String::from("sea-sky  x_1")).unwrap();
    assert_eq!(show_tokens(&t), vec!["T(sea)", "-", "T(sky)", "T(x_1)"]);
}

#[test]
fn blank_text_has_no_tokens() {
    assert!(tokenize(String::from("")).is_none());
    assert!(tokenize(String::from("   ")).is_none());
}

#[test]
fn parse_tags_by_position() {
    assert_eq!(parsed("sea"), Ok(String::from("0")));
    assert_eq!(parsed("sea sky"), Ok(String::from("and[0 1]")));
    assert_eq!(parsed("-sky"), Ok(String::from("!1")));
    assert_eq!(parsed("sea,sky"), Ok(String::from("or[0 1]")));
    assert_eq!(parsed("Casey (sea, -sky)"), Ok(String::from("and[2 or[0 !1]]")));
}

#[test]
fn parse_stops_at_closing_paren() {
    assert_eq!(parsed("sea ) sky"), Ok(String::from("0")));
}

#[test]
fn parse_errors() {
    assert_eq!(parsed("(sea"), Err(String::from("Could not parse. Invalid parens.")));
    assert_eq!(parsed("dog"), Err(String::from("No tag of name dog exists.")));
    assert_eq!(parsed("-"), Err(String::from("Invalid search expression. Could not parse.")));
    assert_eq!(parsed(")"), Err(String::from("Invalid search expression. Could not parse.")));
    assert_eq!(parsed("sea,"), Err(String::from("Invalid search expression. Could not parse.")));
}

#[test]
fn fast_filter_shapes() {
    assert!(can_fast_filter_on(&Expr::Tag(0)));
    assert!(can_fast_filter_on(&Expr::Not(Box::new(Expr::Tag(1)))));
    assert!(!can_fast_filter_on(&Expr::Or(vec![Expr::Tag(0), Expr::Tag(1)])));
    assert!(can_fast_filter_on(&Expr::And(vec![Expr::Tag(0), Expr::Not(Box::new(Expr::Tag(1)))])));
    assert!(!can_fast_filter_on(&Expr::And(vec![Expr::Tag(0), Expr::Or(vec![Expr::Tag(1)])])));
    assert!(!can_fast_filter_on(&Expr::Not(Box::new(Expr::Not(Box::new(Expr::Tag(1)))))));
    assert!(!can_fast_filter_on(&Expr::And(vec![Expr::And(vec![Expr::Tag(1)])])));
}

#[test]
fn fast_filter_results() {
    let imgs = images();
    assert_eq!(fast_filter(None, None, &imgs), vec![0, 1, 2, 3, 4]);
    assert_eq!(fast_filter(None, Some(vec![0]), &imgs), vec![0, 1, 3]);
    assert_eq!(fast_filter(Some(vec![1]), None, &imgs), vec![1, 2, 3]);
    assert_eq!(fast_filter(Some(vec![1]), Some(vec![0]), &imgs), vec![1, 3]);
    assert_eq!(fast_filter(None, Some(vec![0, 2]), &imgs), vec![3]);
}

#[test]
fn filter_by_expression() {
    let imgs = images();
    assert_eq!(filter_to_expr(Expr::Tag(1), &imgs), vec![0, 4]);
    assert_eq!(filter_to_expr(Expr::Not(Box::new(Expr::Tag(0))), &imgs), vec![2, 4]);
    let e = Expr::And(vec![Expr::Tag(0), Expr::Not(Box::new(Expr::Tag(2)))]);
    assert_eq!(filter_to_expr(e, &imgs), vec![0, 1]);
}

#[test]
fn search_for_all_tags_and_exclusions() {
    let imgs = images();
    let t = tags();
    assert_eq!(filter_to_string(String::from("sea"), &t, &imgs), Ok(vec![0, 1, 3]));
    assert_eq!(filter_to_string(String::from("sea -sky"), &t, &imgs), Ok(vec![1, 3]));
    assert_eq!(filter_to_string(String::from("-sky"), &t, &imgs), Ok(vec![1, 2, 3]));
    assert_eq!(filter_to_string(String::from("Casey sea"), &t, &imgs), Ok(vec![3]));
    assert_eq!(filter_to_string(String::from("sea Casey"), &t, &imgs), Ok(vec![3]));
}

#[test]
fn empty_search_gives_every_image() {
    let imgs = images();
    assert_eq!(filter_to_string(String::from(""), &tags(), &imgs), Ok(vec![0, 1, 2, 3, 4]));
    assert_eq!(filter_to_string(String::from("  "), &tags(), &imgs), Ok(vec![0, 1, 2, 3, 4]));
}

#[test]
fn search_with_unknown_tag_fails() {
    assert_eq!(
        filter_to_string(String::from("sea dog"), &tags(), &images()),
        Err(String::from("No tag of name dog exists."))
    );
}

#[test]
fn general_searches() {
    let imgs = images();
    let t = tags();
    assert_eq!(filter_to_string(String::from("sea,sky"), &t, &imgs), Ok(vec![0, 1, 3, 4]));
    assert_eq!(filter_to_string(String::from("(sea,sky) -Casey"), &t, &imgs), Ok(vec![0, 1, 4]));
    assert_eq!(filter_to_string(String::from("-(sea)"), &t, &imgs), Ok(vec![2, 4]));
    assert_eq!(filter_to_string(String::from("Casey,-sea"), &t, &imgs), Ok(vec![2, 3, 4]));
}

#[test]
fn filter_by_nested_expression() {
    let imgs = images();
    let e = Expr::Or(vec![
        Expr::Tag(2),
        Expr::And(vec![Expr::Tag(1), Expr::Not(Box::new(Expr::Tag(0)))]),
    ]);
    assert_eq!(filter_to_expr(e, &imgs), vec![3, 4]);
    assert_eq!(filter_to_expr(Expr::Or(vec![]), &imgs), Vec::<usize>::new());
    assert_eq!(filter_to_expr(Expr::And(vec![Expr::And(vec![])]), &imgs), vec![0, 1, 2, 3, 4]);
}
