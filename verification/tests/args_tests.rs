use psm::args::{argument_parser, createDoc, get_arg_by_order, process_args, banner_text, ArgMap, Dispatch, VERSION};

fn words(ws: &[&str]) -> Vec<String> {
    ws.iter().map(|w| w.to_string()).collect()
}

fn parse(ws: &[&str]) -> (ArgMap, String) {
    argument_parser(words(ws)).expect("the command line parses")
}

#[test]
fn parser_marks_given_arguments() {
    let (m, master) = parse(&["psm", "init"]);
    assert_eq!(master, "init");
    assert_eq!(m.len(), 1);
    let init = m.get("init").unwrap();
    assert!(init.isActive());
    assert_eq!(init.get_order(), 1);
    assert_eq!(init.get_priority(), 1);
    assert_eq!(init.get_value(), "TMP");
    assert_eq!(init.get_desc(), "To initilize the password environment");
    assert!(m.get("create").is_none());
}

#[test]
fn parser_reads_values_and_links() {
    let (m, master) = parse(&[
        "psm", "create", "name", "mail", "password", "hunter2", "description", "work mail", "key", "K",
    ]);
    assert_eq!(master, "create");
    assert_eq!(m.len(), 5);
    assert_eq!(m.get("name").unwrap().get_value(), "mail");
    assert_eq!(m.get("password").unwrap().get_value(), "hunter2");
    assert_eq!(m.get("description").unwrap().get_value(), "work mail");
    assert_eq!(m.get("key").unwrap().get_value(), "K");
    assert_eq!(m.get("create").unwrap().get_value(), "TMP");
    // `create` takes no value: the next word is read as an argument and
    // becomes the `next` of `create`.
    assert_eq!(m.get("create").unwrap().get_next(), "name");
    assert_eq!(m.get("name").unwrap().get_next(), "");
    assert_eq!(m.get("create").unwrap().get_order(), 1);
    assert_eq!(m.get("name").unwrap().get_order(), 2);
    assert_eq!(m.get("password").unwrap().get_order(), 3);
    assert_eq!(m.get("description").unwrap().get_order(), 4);
    assert_eq!(m.get("key").unwrap().get_order(), 5);
}

#[test]
fn parser_refuses_unknown_argument() {
    match argument_parser(words(&["psm", "frobnicate"])) {
        Err(e) => assert_eq!(e, "Please provide valid arguents"),
        Ok(_) => panic!("an unknown argument must be refused"),
    }
    match argument_parser(words(&["psm", "init", "bogus"])) {
        Err(e) => assert_eq!(e, "Please provide valid arguents"),
        Ok(_) => panic!("an unknown argument must be refused"),
    }
}

#[test]
fn parser_keeps_second_get_declaration() {
    // `get` is declared twice; the second declaration takes no value.
    let (m, _) = parse(&["psm", "get", "name", "mail", "key", "K"]);
    let get = m.get("get").unwrap();
    assert_eq!(get.get_desc(), "get the password by name");
    assert_eq!(get.get_value(), "TMP");
    assert_eq!(m.get("name").unwrap().get_value(), "mail");
}

#[test]
fn parser_repeated_argument_takes_last_number() {
    let (m, _) = parse(&["psm", "init", "init"]);
    let init = m.get("init").unwrap();
    assert_eq!(init.get_order(), 2);
    assert_eq!(init.get_next(), "init");
    assert_eq!(get_arg_by_order(&m, 1), None);
    assert_eq!(get_arg_by_order(&m, 2), Some("init".to_string()));
}

#[test]
fn arguments_found_by_order() {
    let (m, _) = parse(&["psm", "remove", "all", "name", "x"]);
    assert_eq!(get_arg_by_order(&m, 1), Some("remove".to_string()));
    assert_eq!(get_arg_by_order(&m, 2), Some("name".to_string()));
    assert_eq!(get_arg_by_order(&m, 3), None);
    assert_eq!(get_arg_by_order(&m, 0), None);
}

#[test]
fn doc_lists_each_argument() {
    let (m, _) = parse(&["psm", "version"]);
    assert_eq!(createDoc(&m), "\nversion\t\tprint the program's version");
    let (m, _) = parse(&["psm", "name", "n", "key", "k"]);
    assert_eq!(
        createDoc(&m),
        "\nname\t\tset a name for password [text]\nkey\t\tset key to encrypt the passwords [text]"
    );
}

#[test]
fn validate_value_accepts_listed_values() {
    let (m, _) = parse(&["psm", "remove", "all"]);
    let remove = m.get("remove").unwrap();
    assert!(remove.validate_value(vec!["name", "all", "date"]).is_ok());
    assert_eq!(
        remove.validate_value(vec!["name", "date"]),
        Err("Can't validate the command mode!".to_string())
    );
}

fn reply(d: Dispatch) -> Result<String, String> {
    match d {
        Dispatch::Reply(r) => r,
        _ => panic!("expected a reply"),
    }
}

#[test]
fn process_runs_version() {
    let (m, master) = parse(&["psm", "version"]);
    assert_eq!(reply(process_args(&m, &master)), Ok(format!("Version {}", VERSION)));
    assert_eq!(reply(process_args(&m, &master)), Ok("Version 3.0.5".to_string()));
}

#[test]
fn process_without_command_is_refused() {
    let (m, master) = parse(&["psm", "name", "n"]);
    assert_eq!(
        reply(process_args(&m, &master)),
        Err("Please provide a valid argument".to_string())
    );
}

#[test]
fn process_dispatches_store_commands() {
    let (m, master) = parse(&["psm", "init"]);
    assert!(matches!(process_args(&m, &master), Dispatch::Init));
    let (m, master) = parse(&["psm", "get", "name", "n", "key", "k"]);
    assert!(matches!(process_args(&m, &master), Dispatch::Get));
    let (m, master) = parse(&["psm", "remove", "all"]);
    assert!(matches!(process_args(&m, &master), Dispatch::Remove));
    let (m, master) = parse(&["psm", "create", "name", "n"]);
    assert!(matches!(process_args(&m, &master), Dispatch::Create));
}

#[test]
fn call_returns_values() {
    let (m, _) = parse(&["psm", "create", "name", "mail", "password", "pw", "description", "d", "key", "k"]);
    assert_eq!(reply(m.get("name").unwrap().call(&m)), Ok("mail".to_string()));
    assert_eq!(reply(m.get("password").unwrap().call(&m)), Ok("pw".to_string()));
    assert_eq!(reply(m.get("description").unwrap().call(&m)), Ok("d".to_string()));
    assert_eq!(reply(m.get("key").unwrap().call(&m)), Ok("k".to_string()));
    // `create` was followed by `name`.
    assert_eq!(reply(m.get("create").unwrap().call_next(&m)), Ok("mail".to_string()));
}

#[test]
fn call_without_callback() {
    let (m, _) = parse(&["psm", "all"]);
    assert_eq!(
        reply(m.get("all").unwrap().call(&m)),
        Err("There is not any callback like this".to_string())
    );
}

#[test]
fn banner_shows_version() {
    let text = banner_text("3.0.5");
    assert!(text.starts_with("psm password manager version 3.0.5\nUsage: psm [OPTIONS...] \n\n  create"));
    assert!(text.ends_with("  key - set key for password\n"));
}

#[test]
fn parsed_priorities_follow_declarations() {
    let (m, _) = parse(&["psm", "create", "name", "n", "password", "p", "description", "d", "key", "k"]);
    for (k, prio) in [("create", 1), ("name", 0), ("password", 0), ("description", 0), ("key", 0)] {
        assert_eq!(m.get(k).unwrap().get_priority(), prio, "{k}");
    }
    let (m, _) = parse(&["psm", "remove", "all", "version", "get"]);
    for k in ["remove", "version", "get"] {
        assert_eq!(m.get(k).unwrap().get_priority(), 1, "{k}");
    }
}

#[test]
fn value_arguments_reply_with_their_value() {
    let (m, _) = parse(&["psm", "create", "name", "n", "password", "p", "description", "d", "key", "k"]);
    for (k, v) in [("name", "n"), ("password", "p"), ("description", "d"), ("key", "k")] {
        match m.get(k).unwrap().call(&m) {
            Dispatch::Reply(Ok(s)) => assert_eq!(s, v),
            _ => panic!("{k} should reply with its value"),
        }
    }
}

#[test]
fn orders_follow_argument_places() {
    let (m, _) = parse(&["psm", "create", "name", "n", "password", "p", "key", "k"]);
    assert_eq!(get_arg_by_order(&m, 1), Some("create".to_string()));
    assert_eq!(get_arg_by_order(&m, 2), Some("name".to_string()));
    assert_eq!(get_arg_by_order(&m, 3), Some("password".to_string()));
    assert_eq!(get_arg_by_order(&m, 4), Some("key".to_string()));
    assert_eq!(get_arg_by_order(&m, 0), None);
    assert_eq!(get_arg_by_order(&m, 5), None);
}

#[test]
fn cloned_argument_keeps_its_fields() {
    let (m, _) = parse(&["psm", "create", "name", "n", "password", "p"]);
    let a = m.get("name").unwrap().clone();
    assert_eq!(a.get_key(), "name");
    assert_eq!(a.get_value(), "n");
    assert_eq!(a.get_order(), 2);
    assert!(a.isActive());
    assert_eq!(a.get_priority(), 0);
}
