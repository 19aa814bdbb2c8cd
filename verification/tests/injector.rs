use unlock_all::injector::{echo, input, last_session, name_matches, Input, GAME, PAYLOAD};

#[test]
fn names_match_without_case_and_padding() {
    assert!(name_matches("h1z1.EXE\0\0\0", GAME));
    assert!(name_matches("H1Z1.exe", GAME));
    assert!(!name_matches("H1Z1.exe.bak", GAME));
    assert!(!name_matches("\0H1Z1.exe", GAME));
    assert!(name_matches("UNLOCK_ALL.dll", PAYLOAD));
}

#[test]
fn the_last_session_follows_the_last_mark() {
    let log = "old\n---- unlock-all attached, base 0x1\nfirst\n---- unlock-all attached, base 0x2\nsecond\n";
    assert_eq!(last_session(log), ", base 0x2\nsecond\n");
    assert_eq!(last_session("no mark here"), "no mark here");
    assert_eq!(last_session("---- unlock-all attached"), "");
    assert_eq!(log.rsplit("---- unlock-all attached").next().unwrap(), ", base 0x2\nsecond\n");
}

#[test]
fn port_lines_are_echoed() {
    assert_eq!(echo("log hooked IsOwned").as_deref(), Some("  hooked IsOwned"));
    assert_eq!(echo("."), None);
    assert_eq!(echo("pong").as_deref(), Some("> pong"));
    assert_eq!(echo("log").as_deref(), Some("> log"));
}

#[test]
fn typed_lines() {
    assert!(matches!(input("   "), Input::Skip));
    assert!(matches!(input(" quit "), Input::Quit));
    assert!(matches!(input("exit"), Input::Quit));
    match input("  run held  ") {
        Input::Send(s) => assert_eq!(s, "run held\n"),
        _ => panic!("not sent"),
    }
}
