use misc_conf::apache::Apache;
use misc_conf::ast::Directive;
use misc_conf::cpath::{token, CPathBuf, CPathError, Filter, Item, Op, Token};
use misc_conf::lexer::{line_column, line_column2, unescape_chars, Literal};
use misc_conf::utils::replace_slice;

fn apache(text: &str) -> Directive<Apache> {
    let dirs = Directive::<Apache>::parse(text.as_bytes()).unwrap();
    misc_conf::ast::Config::new(String::from("q.conf"), dirs).root
}

#[test]
fn path_with_condition_on_child_argument() {
    let root = apache("<VirtualHost *:80>\nServerName a.example\nPort 80\n</VirtualHost>\n<VirtualHost *:81>\nServerName b.example\nPort 81\n</VirtualHost>\n");
    let res = root.cpath_query(&CPathBuf::parse("VirtualHost[ServerName=b.example]/Port").unwrap());
    assert_eq!(res.len(), 1);
    assert_eq!(res[0].args[0], "81");
    let res = root.cpath_query(&CPathBuf::parse("VirtualHost[servername~^a]").unwrap());
    assert_eq!(res.len(), 1);
    assert_eq!(res[0].args[0], "*:80");
}

#[test]
fn path_with_child_and_name_conditions() {
    let root = apache("<A>\nB 1\n</A>\n<A>\nC 2\n</A>\n<AB>\nB 3\n</AB>\n");
    let res = root.cpath_query(&CPathBuf::parse("A[/B]").unwrap());
    assert_eq!(res.len(), 2);
    assert_eq!(res[0].children.as_ref().unwrap()[0].args[0], "1");
    assert_eq!(res[1].children.as_ref().unwrap()[0].args[0], "3");
    let res = root.cpath_query(&CPathBuf::parse("A[^A$]").unwrap());
    assert_eq!(res.len(), 2);
}

#[test]
fn path_filters_are_regular_expressions() {
    let root = apache("Alpha 1\nBeta 2\nAlphabet 3\n");
    let res = root.cpath_query(&CPathBuf::parse("^Alpha$").unwrap());
    assert_eq!(res.len(), 1);
    let res = root.cpath_query(&CPathBuf::parse("Alpha").unwrap());
    assert_eq!(res.len(), 2);
}

#[test]
fn path_parse_shapes() {
    let p = CPathBuf::parse("//a/b[c]").unwrap();
    assert_eq!(p.0.len(), 3);
    assert!(p.0[0].filter.any_level());
    assert!(matches!(*p.0[1].filter, Filter::Re(ref r) if r.as_str() == "a"));
    assert!(p.0[1].cond.is_none());
    assert!(p.0[2].cond.is_some());
    assert_eq!(CPathBuf::parse("").unwrap().0.len(), 0);
}

#[test]
fn path_errors() {
    assert!(matches!(CPathBuf::parse("a]"), Err(CPathError::Syntax(1))));
    assert!(matches!(CPathBuf::parse("a("), Err(CPathError::BadRegex)));
}

#[test]
fn query_tokens() {
    let s: Vec<char> = "//x[=~]".chars().collect();
    let (t, e) = token(&s, 0).unwrap();
    assert_eq!(t, Token::DoubleSlash);
    let (t, e) = token(&s, e).unwrap();
    assert!(matches!(t, Token::Literal(ref l) if l.raw == "x"));
    let (t, e) = token(&s, e).unwrap();
    assert_eq!(t, Token::LeftBracket);
    let (t, e) = token(&s, e).unwrap();
    assert_eq!(t, Token::Operator(Op::Equal));
    let (t, e) = token(&s, e).unwrap();
    assert_eq!(t, Token::Operator(Op::Match));
    let (t, e) = token(&s, e).unwrap();
    assert_eq!(t, Token::RightBracket);
    let (t, _) = token(&s, e).unwrap();
    assert_eq!(t, Token::Eof);
}

#[test]
fn patterns_match_like_regex() {
    let root = apache("xxabcx 1
ac 2
ABC 3
");
    let res = root.cpath_query(&CPathBuf::parse("a.c").unwrap());
    assert_eq!(res.len(), 1);
    assert_eq!(res[0].name, "xxabcx");
    assert!(matches!(CPathBuf::parse("x[a(]"), Err(CPathError::BadRegex)));
}

#[test]
fn exact_and_any_filters() {
    let root = apache("<Outer>
Inner 1
</Outer>
Other 2
");
    let eq = CPathBuf(vec![Item { filter: Box::new(Filter::Eq(String::from("outer"))), cond: None }]);
    let res = root.cpath_query(&eq);
    assert_eq!(res.len(), 1);
    assert_eq!(res[0].name, "Outer");
    let any = CPathBuf(vec![
        Item { filter: Box::new(Filter::Any), cond: None },
        Item { filter: Box::new(Filter::Any), cond: None },
    ]);
    let res = root.cpath_query(&any);
    assert_eq!(res.len(), 1);
    assert_eq!(res[0].name, "Inner");
}

#[test]
fn peek_skips_any_level_markers() {
    let p = CPathBuf::parse("//a/b").unwrap();
    let (first, rest, any) = p.peek().unwrap();
    assert!(matches!(*first.filter, Filter::Re(ref r) if r.as_str() == "a"));
    assert_eq!(rest.len(), 1);
    assert!(any);
    let q = CPathBuf::parse("a").unwrap();
    let (_, rest, any) = q.peek().unwrap();
    assert!(rest.is_empty());
    assert!(!any);
    assert!(CPathBuf::parse("//").unwrap().peek().is_none());
}

#[test]
fn unescape_double_quoted() {
    let raw: Vec<char> = "a\\\\b\\\"c".chars().collect();
    let v: String = unescape_chars(&raw, b'"').into_iter().collect();
    assert_eq!(v, "a\\b\"c");
    let mut back = String::new();
    for c in v.chars() {
        if c == '\\' || c == '"' {
            back.push('\\');
        }
        back.push(c);
    }
    assert_eq!(back, "a\\\\b\\\"c");
}

#[test]
fn unescape_single_quoted_and_bare() {
    let lit = Literal { raw: String::from("it\\'s \\\\ \\\"x\\\""), quote: b'\'' };
    assert_eq!(lit.unescape(), "it's \\ \\\"x\\\"");
    let bare = Literal { raw: String::from("abc\\\ndef"), quote: 0 };
    assert_eq!(bare.unescape(), "abc\ndef");
}

#[test]
fn replace_slice_is_left_to_right() {
    let s: Vec<char> = "ababa".chars().collect();
    let r = replace_slice(&s, &['a', 'b'], &['x']);
    assert_eq!(r, vec!['x', 'x', 'a']);
    let r = replace_slice(&s, &['a', 'b', 'a'], &[]);
    assert_eq!(r, vec!['b', 'a']);
}

#[test]
fn line_and_column() {
    let data = b"ab\ncd";
    assert_eq!(line_column(data, 0), (1, 0));
    assert_eq!(line_column(data, 2), (1, 2));
    assert_eq!(line_column(data, 4), (2, 1));
    assert_eq!(line_column(data, 9), (3, 0));
    assert_eq!(line_column2(data, &data[3..]), Some(((2, 0), 3)));
    assert_eq!(line_column2(data, b"zz"), None);
}
