use misc_conf::apache::lexer::{tokenizer, Token};
use misc_conf::apache::Apache;
use misc_conf::ast::{Config, Directive, ParseError};
use misc_conf::cpath::CPathBuf;

fn parse(text: &str) -> Config<Apache> {
    let dirs = Directive::<Apache>::parse(text.as_bytes()).unwrap();
    Config::new(String::from("test.conf"), dirs)
}

const STRING_CONF: &str = "# strings in every form\n\
ServerName \"www.example.com\"\n\
<Files \"\\.ht*\">\n\
    Require all denied\n\
</Files>\n\
MultiLineString abc\\\n\
def\n\
SingleQuoted 'it\\'s'\n";

const VHOSTS_CONF: &str = "<VirtualHost *:80>\n\
    ServerAdmin webmaster@dummy-host.example.com\n\
    DocumentRoot \"/www/docs/dummy-host.example.com\"\n\
    ServerName dummy-host.example.com\n\
</VirtualHost>\n\
\n\
<VirtualHost *:80>\n\
    ServerAdmin webmaster@dummy-host2.example.com\n\
    DocumentRoot \"/www/docs/dummy-host2.example.com\"\n\
    ServerName dummy-host2.example.com\n\
</VirtualHost>\n";

#[test]
fn apache_parse_all() {
    for text in [STRING_CONF, VHOSTS_CONF, "", "\n\n# only a comment\n"] {
        assert!(Directive::<Apache>::parse(text.as_bytes()).is_ok());
    }
}

#[test]
fn verify_result() {
    let cfg = parse(STRING_CONF);
    let files = cfg.root.query("files");
    assert_eq!(files.len(), 1);
    assert_eq!(files[0].args[0], "\\.ht*");
    assert_eq!(cfg.root.query("MultiLineString")[0].args[0], "abc\ndef");
}

#[test]
fn apache_include() {
    let mut cfg = parse("Include sub/runtime.conf\nServerRoot \"/etc/apache2\"\n");
    let req = cfg.next_include().unwrap();
    assert_eq!(req.pattern.as_deref(), Some("sub/runtime.conf"));
    assert!(!req.optional);
    let sub = Directive::<Apache>::parse(b"DefaultRuntimeDir ${APACHE_RUN_DIR}\n").unwrap();
    cfg.splice_include(sub);
    assert!(cfg.next_include().is_none());
    println!("{:#?}", cfg.root_directives().len());
    assert_eq!(cfg.root_directives()[0].name, "DefaultRuntimeDir");
}

#[test]
fn string() {
    let cfg = parse(STRING_CONF);
    let res = cfg.root.query("Files");
    assert!(res[0].args[0] == "\\.ht*");
    assert_eq!(cfg.root.query("SingleQuoted")[0].args[0], "it's");
    assert_eq!(cfg.root.query("ServerName")[0].args[0], "www.example.com");
}

#[test]
fn cpath() {
    let cfg = parse(VHOSTS_CONF);
    let res = cfg.root.cpath_query(&CPathBuf::parse("//ServerAdmin").unwrap());
    assert_eq!(res.len(), 2);
    assert_eq!(res[0].args[0], "webmaster@dummy-host.example.com");
    assert_eq!(res[1].args[0], "webmaster@dummy-host2.example.com");
}

#[test]
fn name_path_query_ignores_case() {
    let cfg = parse("Foo bar\n");
    let upper = cfg.root.query("Foo");
    assert_eq!(upper.len(), 1);
    assert_eq!(upper[0].args, vec![String::from("bar")]);
    let lower = cfg.root.query("foo");
    assert_eq!(lower.len(), 1);
    assert!(lower[0] == upper[0]);
    assert!(cfg.root.query("Fo").is_empty());
}

#[test]
fn nested_name_path() {
    let cfg = parse("<VirtualHost *:80>\n  <Directory /var/www>\n    Options None\n  </Directory>\n</VirtualHost>\n");
    let res = cfg.root.query("virtualhost/directory/options");
    assert_eq!(res.len(), 1);
    assert_eq!(res[0].args[0], "None");
    assert!(cfg.root.query("virtualhost/options").is_empty());
}

#[test]
fn line_continuation_collapses() {
    let cfg = parse("Msg one\\\ntwo three\n");
    let d = &cfg.root.query("Msg")[0];
    assert_eq!(d.args, vec![String::from("one\ntwo"), String::from("three")]);
}

#[test]
fn apache_statement_and_empty_block_differ() {
    let cfg = parse("<Foo>\n</Foo>\nFoo\n");
    let dirs = cfg.root_directives();
    assert_eq!(dirs.len(), 2);
    assert_eq!(dirs[0].children.as_ref().map(|c| c.len()), Some(0));
    assert!(dirs[1].children.is_none());
    assert!(dirs[0] != dirs[1]);
}

#[test]
fn apache_parsing_twice_gives_equal_trees() {
    let a = Directive::<Apache>::parse(VHOSTS_CONF.as_bytes()).unwrap();
    let b = Directive::<Apache>::parse(VHOSTS_CONF.as_bytes()).unwrap();
    assert!(a == b);
}

#[test]
fn close_tag_in_other_case() {
    let cfg = parse("<ifmodule mod_ssl.c>\nListen 443\n</IfModule>\n");
    assert_eq!(cfg.root_directives()[0].name, "ifmodule");
    assert_eq!(cfg.root.query("IfModule/Listen")[0].args[0], "443");
}

#[test]
fn mismatched_close_tag_fails() {
    let r = Directive::<Apache>::parse(b"<Foo>\nBar\n</Baz>\n");
    assert!(matches!(r, Err(ParseError::Syntax(_))));
}

#[test]
fn unterminated_quote_fails_at_its_start() {
    let r = Directive::<Apache>::parse(b"Foo \"bar\n");
    assert_eq!(r, Err(ParseError::Syntax(4)));
}

#[test]
fn invalid_utf8_is_rejected() {
    let r = Directive::<Apache>::parse(&[b'F', 0xff, b'\n']);
    assert_eq!(r, Err(ParseError::InvalidUtf8));
}

#[test]
fn if_version_keeps_its_operator() {
    let cfg = parse("<IfVersion >= 2.4>\nRequire all granted\n</IfVersion>\n");
    let d = &cfg.root_directives()[0];
    assert_eq!(d.args, vec![String::from(">="), String::from("2.4")]);
    assert_eq!(d.children.as_ref().unwrap()[0].name, "Require");
}

#[test]
fn comments_are_dropped() {
    let cfg = parse("# one\nA b # trailing\n# two\n");
    let dirs = cfg.root_directives();
    assert_eq!(dirs.len(), 1);
    assert_eq!(dirs[0].name, "A");
    assert_eq!(dirs[0].args, vec![String::from("b")]);
}

#[test]
fn optional_inclusion_of_missing_file_adds_nothing() {
    let mut cfg = parse("A 1\nIncludeOptional \"missing.conf\"\nB 2\n");
    let req = cfg.next_include().unwrap();
    assert!(req.optional);
    assert_eq!(req.pattern.as_deref(), Some("missing.conf"));
    cfg.splice_include(Vec::new());
    assert!(cfg.next_include().is_none());
    let names: Vec<&str> = cfg.root_directives().iter().map(|d| d.name.as_str()).collect();
    assert_eq!(names, vec!["A", "B"]);
}

#[test]
fn inclusion_without_argument_has_no_pattern() {
    let cfg = parse("Include\n");
    let req = cfg.next_include().unwrap();
    assert_eq!(req.pattern, None);
}

#[test]
fn tokens_of_a_tag() {
    let s: Vec<char> = "</Foo \"a b\">".chars().collect();
    let (t, e) = tokenizer(&s, 0).unwrap();
    assert_eq!(t, Token::CloseTag);
    let (t, e) = tokenizer(&s, e).unwrap();
    assert_eq!(t.raw_string(), Some("Foo"));
    let (t, e) = tokenizer(&s, e).unwrap();
    assert_eq!(t.unescape(), Some(String::from("a b")));
    let (t, e) = tokenizer(&s, e).unwrap();
    assert_eq!(t, Token::EndTag);
    let (t, _) = tokenizer(&s, e).unwrap();
    assert_eq!(t, Token::Eof);
    assert_eq!(Token::OpenTag.ident(), None);
}

#[test]
fn apache_nesting_is_bounded() {
    let nest = |n: usize| {
        let mut text = String::new();
        for _ in 0..n {
            text.push_str("<A>\n");
        }
        for _ in 0..n {
            text.push_str("</A>\n");
        }
        text
    };
    assert!(Directive::<Apache>::parse(nest(100).as_bytes()).is_ok());
    assert!(matches!(
        Directive::<Apache>::parse(nest(101).as_bytes()),
        Err(ParseError::Syntax(_))
    ));
}
