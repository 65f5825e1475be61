use dataset_local::cli::{parse_line, parse_options, Input, Options};

fn line(s: &str) -> Input {
    let chars: Vec<char> = s.chars().collect();
    parse_line(&chars)
}

fn v(s: &str) -> Vec<char> {
    s.chars().collect()
}

fn options(list: &[&str]) -> Option<Options> {
    let args: Vec<String> = list.iter().map(|s| s.to_string()).collect();
    parse_options("u".to_string(), "p".to_string(), &args)
}

#[test]
fn blank_lines() {
    assert_eq!(line(""), Input::Blank);
    assert_eq!(line(" \t\u{a0}\u{3000}\r"), Input::Blank);
}

#[test]
fn commands() {
    assert_eq!(line("get k"), Input::Get { key: v("k") });
    assert_eq!(line("  GeT   a b  "), Input::Get { key: v("a b") });
    assert_eq!(line("set k v w "), Input::Put { key: v("k"), value: v("v w") });
    assert_eq!(line("set k"), Input::Put { key: v("k"), value: v("") });
    assert_eq!(line("set k  v"), Input::Put { key: v("k"), value: v(" v") });
    assert_eq!(line("DEL \u{e9}"), Input::Del { key: v("\u{e9}") });
    assert_eq!(line("help me"), Input::Help);
    assert_eq!(line("quit"), Input::Quit);
    assert_eq!(line("Exit"), Input::Quit);
}

#[test]
fn setex() {
    assert_eq!(line("setex k 10 v w"), Input::SetEx { key: v("k"), ttl_ms: 10, value: v("v w") });
    assert_eq!(line("setex k +7"), Input::SetEx { key: v("k"), ttl_ms: 7, value: v("") });
    assert_eq!(
        line("setex k 4294967295 v"),
        Input::SetEx { key: v("k"), ttl_ms: u32::MAX, value: v("v") }
    );
    assert_eq!(line("setex k 4294967296 v"), Input::BadSetEx);
    assert_eq!(line("setex k"), Input::BadSetEx);
    assert_eq!(line("setex k  5 v"), Input::BadSetEx);
    assert_eq!(line("setex k \u{663} v"), Input::BadSetEx);
}

#[test]
fn lines_without_a_key() {
    assert_eq!(line("GET"), Input::Incomplete(v("GET")));
    assert_eq!(line("set  "), Input::Incomplete(v("set")));
    assert_eq!(line("del"), Input::Incomplete(v("del")));
    assert_eq!(line("setex"), Input::Unknown(v("setex")));
}

#[test]
fn unknown_commands() {
    assert_eq!(line("Foo bar"), Input::Unknown(v("foo")));
    assert_eq!(line("get\tk"), Input::Unknown(v("get\tk")));
    assert_eq!(line("\u{c9}T\u{c9}"), Input::Unknown(v("\u{c9}t\u{c9}")));
}

#[test]
fn shell_arguments() {
    let o = options(&[]).unwrap();
    assert_eq!((&o.addr[..], &o.user[..], &o.pass[..]), ("127.0.0.1:8383", "u", "p"));
    let o = options(&["--user", "a", "--addr", "h:1", "--pass", "b"]).unwrap();
    assert_eq!((&o.addr[..], &o.user[..], &o.pass[..]), ("h:1", "a", "b"));
    let o = options(&["h:2", "--user"]).unwrap();
    assert_eq!((&o.addr[..], &o.user[..], &o.pass[..]), ("h:2", "", "p"));
    let o = options(&["--pass"]).unwrap();
    assert_eq!(&o.pass[..], "");
    let o = options(&["h:3", "--addr"]).unwrap();
    assert_eq!(&o.addr[..], "h:3");
    assert!(options(&["--user", "--help"]).is_some());
    assert!(options(&["h:4", "-h"]).is_none());
}
