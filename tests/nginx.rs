use misc_conf::ast::{Config, Directive, ParseError};
use misc_conf::cpath::CPathBuf;
use misc_conf::nginx::lexer::{tokenizer, Token};
use misc_conf::nginx::Nginx;

fn parse(text: &str) -> Config<Nginx> {
    let dirs = Directive::<Nginx>::parse(text.as_bytes()).unwrap();
    Config::new(String::from("test.conf"), dirs)
}

const FEW_LOCATIONS: &str = "http {\n\
    server {\n\
        listen 80;\n\
        location / {\n\
            add_header X-Frame-Options DENY;\n\
        }\n\
        location /static {\n\
            add_header Cache-Control \"max-age=3600\";\n\
        }\n\
    }\n\
}\n";

const LUA_CONF: &str = "http {\n\
    lua_shared_dict ocsp_response_cache 5M;\n\
    init_by_lua_block {\n\
        local t = { a = 1 }\n\
        if t then ngx.log(ngx.ERR, \"}\") end\n\
    }\n\
    server { listen 443; }\n\
}\n";

#[test]
fn nginx_parse_all() {
    for text in [FEW_LOCATIONS, LUA_CONF, "", "# only a comment\n"] {
        assert!(Directive::<Nginx>::parse(text.as_bytes()).is_ok());
    }
}

#[test]
fn verify() {
    let conf = parse(FEW_LOCATIONS);
    let res = conf.root.query("http/server/location/add_header");
    println!("{res:#?}");
    assert_eq!(res.len(), 2);
    assert_eq!(res[0].args, vec![String::from("X-Frame-Options"), String::from("DENY")]);
    assert_eq!(res[1].args[1], "max-age=3600");
}

#[test]
fn nginx_include() {
    let mut conf = parse("events { worker_connections 1024; }\nhttp {\n    include mime.types;\n    server { listen 80; }\n}\n");
    let req = conf.next_include().unwrap();
    assert_eq!(req.pattern.as_deref(), Some("mime.types"));
    assert!(!req.optional);
    let sub = Directive::<Nginx>::parse(b"types {\n    text/html html;\n}\n").unwrap();
    conf.splice_include(sub);
    assert!(conf.next_include().is_none());
    let conf2 = parse("events { worker_connections 1024; }\nhttp {\n    types { text/html html; }\n    server { listen 80; }\n}\n");
    assert_eq!(conf.root, conf2.root);
}

#[test]
fn lua() {
    let conf = parse(LUA_CONF);
    let d = conf.root.query("http/lua_shared_dict").pop().unwrap();
    assert_eq!(d.name, "lua_shared_dict");
    assert_eq!(d.args[0], "ocsp_response_cache");
    assert_eq!(d.args[1], "5M");
}

#[test]
fn lua_block_is_skipped() {
    let conf = parse(LUA_CONF);
    let http = &conf.root_directives()[0];
    let names: Vec<&str> = http.children.as_ref().unwrap().iter().map(|d| d.name.as_str()).collect();
    assert_eq!(names, vec!["lua_shared_dict", "init_by_lua_block", "server"]);
    let lua = &http.children.as_ref().unwrap()[1];
    assert!(lua.children.is_none());
    assert_eq!(conf.root.query("http/server/listen")[0].args[0], "443");
}

#[test]
fn glob_inclusion_gives_flat_list() {
    let mut conf = parse("include \"sub/*.conf\";\n");
    let req = conf.next_include().unwrap();
    assert_eq!(req.pattern.as_deref(), Some("sub/*.conf"));
    let mut found = Directive::<Nginx>::parse(b"user www;\n").unwrap();
    found.extend(Directive::<Nginx>::parse(b"worker_processes 4;\n").unwrap());
    conf.splice_include(found);
    assert!(conf.next_include().is_none());
    let dirs = conf.root_directives();
    assert_eq!(dirs.len(), 2);
    assert_eq!(dirs[0].name, "user");
    assert_eq!(dirs[1].name, "worker_processes");
}

#[test]
fn comments_become_directives() {
    let conf = parse("# first\n# second\nuser www;\n# third\nworker_processes 4;\n");
    let dirs = conf.root_directives();
    assert_eq!(dirs.len(), 5);
    assert!(dirs[0].is_comment && dirs[1].is_comment);
    assert_eq!(dirs[0].name, " first");
    assert!(dirs[0].newline);
    assert!(!dirs[1].newline);
    assert!(dirs[2].newline);
    assert!(dirs[3].newline);
    assert!(dirs[4].newline);
}

#[test]
fn nginx_statement_and_empty_block_differ() {
    let conf = parse("a;\na {}\n");
    let dirs = conf.root_directives();
    assert!(dirs[0].children.is_none());
    assert_eq!(dirs[1].children.as_ref().map(|c| c.len()), Some(0));
    assert!(!dirs[1].newline);
}

#[test]
fn any_level_finds_every_depth() {
    let conf = parse("Name a;\nx {\n  y {\n    Name b;\n  }\n}\n");
    let res = conf.root.cpath_query(&CPathBuf::parse("//Name").unwrap());
    assert_eq!(res.len(), 2);
    assert_eq!(res[0].args[0], "a");
    assert_eq!(res[1].args[0], "b");
}

#[test]
fn nginx_parsing_twice_gives_equal_trees() {
    let a = Directive::<Nginx>::parse(LUA_CONF.as_bytes()).unwrap();
    let b = Directive::<Nginx>::parse(LUA_CONF.as_bytes()).unwrap();
    assert!(a == b);
}

#[test]
fn unclosed_block_fails() {
    let r = Directive::<Nginx>::parse(b"http {\n  server {\n}\n");
    assert_eq!(r, Err(ParseError::Syntax(0)));
}

#[test]
fn stray_token_after_arguments_fails() {
    let r = Directive::<Nginx>::parse(b"a b }\n");
    assert_eq!(r, Err(ParseError::Syntax(5)));
}

#[test]
fn quoted_value_is_unescaped() {
    let conf = parse("return 200 \"say \\\"hi\\\"\";\n");
    assert_eq!(conf.root.query("return")[0].args[1], "say \"hi\"");
}

#[test]
fn nginx_tokens() {
    let s: Vec<char> = "  a{#c\n;}".chars().collect();
    let (t, e) = tokenizer(&s, 0).unwrap();
    assert_eq!(t.ident(), Some("a"));
    assert_eq!(t.literal().map(|l| l.quote), Some(0));
    let (t, e) = tokenizer(&s, e).unwrap();
    assert_eq!(t, Token::BlockStart);
    let (t, e) = tokenizer(&s, e).unwrap();
    assert!(matches!(t, Token::Comment(ref l) if l.raw == "c"));
    assert_eq!(t.raw_string(), None);
    let (t, e) = tokenizer(&s, e).unwrap();
    assert_eq!(t, Token::Semicolon);
    let (t, e) = tokenizer(&s, e).unwrap();
    assert_eq!(t, Token::BlockEnd);
    let (t, _) = tokenizer(&s, e).unwrap();
    assert_eq!(t, Token::Eof);
}

#[test]
fn nginx_nesting_is_bounded() {
    let nest = |n: usize| {
        let mut text = String::new();
        for _ in 0..n {
            text.push_str("a {\n");
        }
        for _ in 0..n {
            text.push_str("}\n");
        }
        text
    };
    assert!(Directive::<Nginx>::parse(nest(100).as_bytes()).is_ok());
    assert!(matches!(
        Directive::<Nginx>::parse(nest(101).as_bytes()),
        Err(ParseError::Syntax(_))
    ));
}

#[test]
fn nginx_invalid_utf8_is_rejected() {
    assert_eq!(Directive::<Nginx>::parse(&[0xc3, 0x28]), Err(ParseError::InvalidUtf8));
}
