//! The shell grammar and the display truncation helper.
use justact_ledger::Cmd;
use justact_ledger::UpdateCmd;
use justact_ledger::command::trucated;

#[test]
fn parse_say_takes_rest_of_line() {
    assert_eq!(
        Cmd::parse("say alice hello"),
        Some(Cmd::Update(UpdateCmd::Say { sayer: "alice".to_string(), payload: "hello".to_string() }))
    );
    assert_eq!(
        Cmd::parse("say alice hello there world"),
        Some(Cmd::Update(UpdateCmd::Say {
            sayer: "alice".to_string(),
            payload: "hello there world".to_string(),
        }))
    );
    assert_eq!(Cmd::parse("say alice"), None);
    assert_eq!(Cmd::parse("say"), None);
}

#[test]
fn parse_agree() {
    assert_eq!(
        Cmd::parse("agree 0 10"),
        Some(Cmd::Update(UpdateCmd::Agree { on_idx: 0, at: 10 }))
    );
    assert_eq!(Cmd::parse("agree 0"), None);
    assert_eq!(Cmd::parse("agree x 10"), None);
    assert_eq!(Cmd::parse("agree 0 ten"), None);
    assert_eq!(Cmd::parse("agree 0 10 20"), None);
    assert_eq!(Cmd::parse("agree 99999999999999999999999 1"), None);
}

#[test]
fn parse_enact() {
    assert_eq!(
        Cmd::parse("enact carol 0 1 2"),
        Some(Cmd::Update(UpdateCmd::Enact {
            actor: "carol".to_string(),
            basis: 0,
            justification: vec![1, 2],
        }))
    );
    assert_eq!(
        Cmd::parse("enact carol 3"),
        Some(Cmd::Update(UpdateCmd::Enact {
            actor: "carol".to_string(),
            basis: 3,
            justification: vec![],
        }))
    );
    assert_eq!(Cmd::parse("enact carol"), None);
    assert_eq!(Cmd::parse("enact carol x"), None);
    assert_eq!(Cmd::parse("enact carol 0 1 y"), None);
    assert_eq!(Cmd::parse("enact carol 0  1"), None);
}

#[test]
fn parse_now() {
    assert_eq!(Cmd::parse("now 5"), Some(Cmd::Update(UpdateCmd::Now { now: 5 })));
    assert_eq!(Cmd::parse("now 5 "), Some(Cmd::Update(UpdateCmd::Now { now: 5 })));
    assert_eq!(Cmd::parse("now 5 x"), None);
    assert_eq!(Cmd::parse("now five"), None);
    assert_eq!(Cmd::parse("now"), None);
}

#[test]
fn parse_keywords() {
    assert_eq!(Cmd::parse("inspect"), Some(Cmd::Inspect));
    assert_eq!(Cmd::parse("quit"), Some(Cmd::Quit));
    assert_eq!(Cmd::parse("dump"), Some(Cmd::Dump));
    assert_eq!(Cmd::parse("show"), Some(Cmd::Show));
    assert_eq!(Cmd::parse(""), None);
    assert_eq!(Cmd::parse("frobnicate 1 2"), None);
}

#[test]
fn trucated_cuts_at_forty_characters() {
    let short = "short payload";
    assert_eq!(trucated(short), [short, ""]);
    let exact: String = "x".repeat(40);
    assert_eq!(trucated(&exact), [exact.as_str(), ""]);
    let long: String = "y".repeat(41);
    let cut: String = "y".repeat(40);
    assert_eq!(trucated(&long), [cut.as_str(), "..."]);
}
