use sshmark::args::{Args, Command};
use sshmark::bookmark::EmbeddedNul;
use sshmark::bookmarks::Bookmarks;
use sshmark::control::{confirms, login_command, overwrite_prompt, run, Failure, Outcome};

fn owned(v: &[&str]) -> Vec<String> {
    v.iter().map(|s| s.to_string()).collect()
}

fn cstr(s: &str) -> Vec<u8> {
    let mut b = s.as_bytes().to_vec();
    b.push(0);
    b
}

fn add(key: &str, val: &str, ssh_args: Option<&str>) -> Args {
    Args {
        command: Some(Command::Add {
            key: key.to_string(),
            val: val.to_string(),
            ssh_args: ssh_args.map(|s| s.to_string()),
        }),
        key: None,
    }
}

fn connect(key: &str) -> Args {
    Args { command: None, key: Some(key.to_string()) }
}

#[test]
fn parse_args() {
    let args = add("foo", "bar@192.168.2.1", Some(r#""-i ~/.ssh/foo""#));
    let mut store = Bookmarks::new();
    assert!(overwrite_prompt(&store, &args).is_none());
    assert!(matches!(run(&mut store, args, None), Ok(Outcome::Save)));
    let e = store.get("foo").unwrap();
    assert_eq!(e.addr, "bar@192.168.2.1");
    assert_eq!(e.args, Some(owned(&["\"-i", "~/.ssh/foo\""])));
}

#[test]
fn add_over_existing_key_declined() {
    let mut store = Bookmarks::new();
    store.insert("k", "old@host", None);
    let args = add("k", "new@host", Some("-v"));
    let prompt = overwrite_prompt(&store, &args).unwrap();
    assert_eq!(
        prompt,
        "A bookmark named \"k\" already exists. Overwrite it?\n(addr: old@host)\n[y/n]: "
    );
    assert!(matches!(run(&mut store, args, Some("n\n")), Ok(Outcome::Unchanged)));
    assert_eq!(store.get("k").unwrap().addr, "old@host");
    assert_eq!(store.get("k").unwrap().args, None);
}

#[test]
fn add_over_existing_key_with_empty_reply() {
    let mut store = Bookmarks::new();
    store.insert("k", "old@host", None);
    assert!(matches!(run(&mut store, add("k", "new@host", None), Some("\n")), Ok(Outcome::Unchanged)));
    assert!(matches!(run(&mut store, add("k", "new@host", None), None), Ok(Outcome::Unchanged)));
    assert!(matches!(run(&mut store, add("k", "new@host", None), Some("yes\n")), Ok(Outcome::Unchanged)));
    assert_eq!(store.get("k").unwrap().addr, "old@host");
}

#[test]
fn add_over_existing_key_confirmed() {
    let mut store = Bookmarks::new();
    store.insert("k", "old@host", None);
    assert!(matches!(run(&mut store, add("k", "new@host", Some("-v")), Some("Y\n")), Ok(Outcome::Save)));
    assert_eq!(store.get("k").unwrap().addr, "new@host");
    assert_eq!(store.get("k").unwrap().args, Some(owned(&["-v"])));
}

#[test]
fn confirms_only_y() {
    assert!(confirms("y\n"));
    assert!(confirms("Y\n"));
    assert!(!confirms("y"));
    assert!(!confirms("n\n"));
    assert!(!confirms(""));
    assert!(!confirms("yy\n"));
}

#[test]
fn list_prints_the_listing() {
    let mut store = Bookmarks::new();
    store.insert("ab", "u@h", None);
    match run(&mut store, Args { command: Some(Command::List), key: None }, None) {
        Ok(Outcome::Print(t)) => assert_eq!(t, "ab -> (addr: u@h)"),
        other => panic!("{:?}", other),
    }
}

#[test]
fn rm_missing_key_fails() {
    let mut store = Bookmarks::new();
    let args = Args { command: Some(Command::Rm { key: "gone".to_string() }), key: None };
    match run(&mut store, args, None) {
        Err(Failure::NotFound(k)) => assert_eq!(k, "gone"),
        other => panic!("{:?}", other),
    }
}

#[test]
fn rm_present_key_saves() {
    let mut store = Bookmarks::new();
    store.insert("k", "u@h", None);
    let args = Args { command: Some(Command::Rm { key: "k".to_string() }), key: None };
    assert!(matches!(run(&mut store, args, None), Ok(Outcome::Save)));
    assert!(store.get("k").is_none());
}

#[test]
fn connect_gives_login_command() {
    let mut store = Bookmarks::new();
    store.insert("db", "bob@10.0.0.9", Some("-p 2222"));
    match run(&mut store, connect("db"), None) {
        Ok(Outcome::Exec(v)) => {
            assert_eq!(v, vec![cstr("ssh"), cstr("-p"), cstr("2222"), cstr("bob@10.0.0.9")])
        }
        other => panic!("{:?}", other),
    }
    assert!(store.get("db").is_none());
}

#[test]
fn connect_missing_key_fails() {
    let mut store = Bookmarks::new();
    match run(&mut store, connect("nope"), None) {
        Err(Failure::NotFound(k)) => assert_eq!(k, "nope"),
        other => panic!("{:?}", other),
    }
}

#[test]
fn connect_with_nul_fails() {
    let mut store = Bookmarks::new();
    store.insert("bad", "u\0@h", None);
    match run(&mut store, connect("bad"), None) {
        Err(Failure::EmbeddedNul(e)) => assert_eq!(e, EmbeddedNul { index: 0 }),
        other => panic!("{:?}", other),
    }
}

#[test]
fn login_command_prefixes_client_name() {
    assert_eq!(login_command(vec![]), vec![cstr("ssh")]);
    assert_eq!(login_command(vec![cstr("a")]), vec![cstr("ssh"), cstr("a")]);
}
