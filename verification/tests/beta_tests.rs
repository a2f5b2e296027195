use psm::args::Dispatch;
use psm::args_beta::{argument_parser, createDoc, get_arg_by_order};

fn words(ws: &[&str]) -> Vec<String> {
    ws.iter().map(|w| w.to_string()).collect()
}

fn reply(d: Dispatch) -> Result<String, String> {
    match d {
        Dispatch::Reply(r) => r,
        _ => panic!("expected a reply"),
    }
}

#[test]
fn beta_parser_keeps_whole_table() {
    let (m, master) = argument_parser(words(&["psm", "version"])).unwrap();
    assert_eq!(master, "version");
    assert_eq!(m.len(), 8);
    assert!(m.get("version").unwrap().isActive());
    assert!(!m.get("init").unwrap().isActive());
    assert_eq!(m.get("version").unwrap().get_order(), 1);
}

#[test]
fn beta_parser_passes_over_unknown_words() {
    let (m, master) = argument_parser(words(&["psm", "bogus", "name", "mail", "other", "key", "k"])).unwrap();
    assert_eq!(master, "bogus");
    assert_eq!(m.get("name").unwrap().get_value(), "mail");
    assert_eq!(m.get("key").unwrap().get_value(), "k");
    assert_eq!(m.get("name").unwrap().get_order(), 1);
    assert_eq!(m.get("key").unwrap().get_order(), 2);
    assert_eq!(get_arg_by_order(&m, 2), Some("key".to_string()));
    assert_eq!(get_arg_by_order(&m, 3), None);
}

#[test]
fn beta_calls() {
    let (m, _) = argument_parser(words(&["psm", "get", "name", "mail"])).unwrap();
    assert_eq!(reply(m.get("get").unwrap().call(&m)), Ok("3.0.1".to_string()));
    assert_eq!(reply(m.get("version").unwrap().call(&m)), Ok("3.0.5".to_string()));
    assert_eq!(reply(m.get("name").unwrap().call(&m)), Ok("mail".to_string()));
    assert!(matches!(m.get("create").unwrap().call(&m), Dispatch::Create));
    assert!(matches!(m.get("init").unwrap().call(&m), Dispatch::Init));
    assert!(matches!(m.get("remove").unwrap().call(&m), Dispatch::Remove));
}

#[test]
fn beta_doc_and_validate() {
    let (m, _) = argument_parser(words(&["psm", "remove", "all"])).unwrap();
    let doc = createDoc(&m);
    assert!(doc.starts_with("\ninit\t\tTo initilize the password environment\nversion\t\t"));
    assert_eq!(doc.matches('\n').count(), 8);
    assert!(m.get("remove").unwrap().validate_value(vec!["all"]).is_ok());
    assert!(m.get("remove").unwrap().validate_value(vec!["name"]).is_err());
}
