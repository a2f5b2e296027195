use aes_gcm::aead::{Aead, KeyInit};
use aes_gcm::Aes256Gcm;
use base64::prelude::BASE64_STANDARD;
use base64::Engine;
use psm::args::{argument_parser, ArgMap};
use psm::commands::{
    add_new_password_result, byte_list, create_callback, create_finish, generate_random_key, get_callback, init_callback, init_finish,
    init_plan, new_password, remove_finish, seal_password, remove_origin_callback, show_password, CreatePlan, InitIo, InitPlan, RemovePlan,
};
use psm::password::Password;
use psm::store::{entry_contents, validate_user_key, AddIo, EntryRead, MetaFile};

fn table(ws: &[&str]) -> ArgMap {
    argument_parser(ws.iter().map(|w| w.to_string()).collect()).unwrap().0
}

fn fresh_store() -> InitPlan {
    init_callback(false).expect("no store yet")
}

#[test]
fn random_key_has_32_bytes() {
    assert_eq!(generate_random_key().len(), 32);
}

#[test]
fn init_refuses_existing_store() {
    match init_callback(true) {
        Err(e) => assert_eq!(
            e,
            "You already have the origin, please remove the old one if you want to use this command\nNotice: you can remove the origin by using 'psm remove all'"
        ),
        Ok(_) => panic!("an existing store must be refused"),
    }
}

#[test]
fn init_key_is_accepted() {
    let plan = fresh_store();
    assert_eq!(plan.key.len(), 44);
    assert_eq!(BASE64_STANDARD.decode(&plan.key).unwrap().len(), 32);
    assert_eq!(validate_user_key(&plan.key, &MetaFile::Text(plan.meta.clone())), Ok(()));
    let done = init_finish(&plan, &InitIo::Done);
    assert_eq!(done.printed, vec![String::new()]);
    assert_eq!(
        done.result,
        Ok(format!("Sucsessfully generated the origin :D\nThis is your new key: {}\n", plan.key))
    );
    let failed = init_finish(&plan, &InitIo::DirFailed);
    assert!(failed.printed.is_empty());
    assert_eq!(failed.result, Err("Can't make the origin folder".to_string()));
    assert_eq!(
        init_finish(&plan, &InitIo::MetaCreateFailed).result,
        Err("Can't create the metadata file for origin".to_string())
    );
    assert_eq!(
        init_finish(&plan, &InitIo::MetaWriteFailed).result,
        Err("Can't add data to the origin's metadata file".to_string())
    );
}

fn create_for(plan: &InitPlan, name: &str, password: &str, desc: &str) -> (Vec<String>, Password) {
    let m = table(&["psm", "create", "name", name, "password", password, "description", desc, "key", &plan.key]);
    match create_callback(&m, true, &MetaFile::Text(plan.meta.clone())) {
        Some(CreatePlan::Store { printed, password }) => (printed, password),
        _ => panic!("create must seal the password"),
    }
}

#[test]
fn create_then_get_shows_password() {
    let plan = fresh_store();
    let (printed, p) = create_for(&plan, "mail", "hunter2", "work mail");
    assert_eq!(
        printed,
        vec![
            "Creating password with this information:\nName: mail\nPassword: hunter2\ndescription: work mail\nkey: ****"
                .to_string(),
            "This is the generated password bytes: [104, 117, 110, 116, 101, 114, 50]".to_string(),
        ]
    );
    assert_eq!(p.name, "mail");
    assert_eq!(p.description, "work mail");
    assert_eq!(p.date, "2024");
    assert!(p.is_enc());
    // 12 nonce bytes, 7 ciphertext bytes and a 16-byte tag, in Base64.
    assert_eq!(BASE64_STANDARD.decode(&p.value).unwrap().len(), 12 + 7 + 16);
    assert_eq!(create_finish(&p, &AddIo::Written), Ok("your password has been sucsessfully created".to_string()));

    let (data, meta) = entry_contents(&p);
    let read = EntryRead::Found { data, meta };
    let g = table(&["psm", "get", "name", "mail", "key", &plan.key]);
    let out = get_callback(&g, &MetaFile::Text(plan.meta.clone()), &read).expect("get runs");
    assert_eq!(out.printed, vec!["name: mail\ndescription: work mail\ndate: 2024\npassword: hunter2".to_string()]);
    assert_eq!(out.result, Ok(String::new()));
}

#[test]
fn record_with_any_date_reads_back() {
    let key = [9u8; 32];
    let key_text = BASE64_STANDARD.encode(key);
    let p = new_password("bank", "pa55 wörd", "31.12.1999", "savings", &key);
    let (data, meta) = entry_contents(&p);
    let shown = show_password("bank", &key_text, &EntryRead::Found { data, meta });
    assert_eq!(
        shown,
        Some(Ok("name: bank\ndescription: savings\ndate: 31.12.1999\npassword: pa55 wörd".to_string()))
    );
}

#[test]
fn same_password_seals_differently() {
    let plan = fresh_store();
    let (_, a) = create_for(&plan, "a", "same", "d");
    let (_, b) = create_for(&plan, "a", "same", "d");
    assert_ne!(a.value, b.value);
}

#[test]
fn create_reports_write_failure() {
    let plan = fresh_store();
    let (_, p) = create_for(&plan, "mail", "pw", "d");
    assert_eq!(
        create_finish(&p, &AddIo::DirFailed),
        Err("Can't create new password cause: Add Password: [!] Can't find the password folder".to_string())
    );
    assert_eq!(
        create_finish(&p, &AddIo::MetaWriteFailed),
        Err("Can't create new password cause: Add Password: Can't write to the file meta".to_string())
    );
}

fn finished(plan: Option<CreatePlan>) -> (Vec<String>, Result<String, String>) {
    match plan {
        Some(CreatePlan::Finished(o)) => (o.printed, o.result),
        _ => panic!("expected the command to end"),
    }
}

#[test]
fn create_refusals() {
    let plan = fresh_store();
    let m = table(&["psm", "create", "name", "n", "password", "p", "description", "d", "key", &plan.key]);
    let (printed, r) = finished(create_callback(&m, false, &MetaFile::Text(plan.meta.clone())));
    assert!(printed.is_empty());
    assert_eq!(r, Err("Please first initialize the program with 'psm init'".to_string()));

    let (printed, r) = finished(create_callback(&m, true, &MetaFile::Text("0".repeat(32))));
    assert_eq!(printed.len(), 1);
    assert_eq!(
        r,
        Err("Can't validate your key, because Your key is not same as what you made before. please give the original key"
            .to_string())
    );

    // A 44-character key that is no Base64 fails when it is decoded.
    let bad_key = "!".repeat(44);
    let m = table(&["psm", "create", "name", "n", "password", "p", "description", "d", "key", &bad_key]);
    let hash = psm::store::get_hash(&bad_key);
    let (printed, r) = finished(create_callback(&m, true, &MetaFile::Text(hash)));
    assert_eq!(printed.len(), 1);
    assert_eq!(r, Err("Can't read the key, cause Invalid symbol 33, offset 0.".to_string()));
}

#[test]
fn create_stops_without_dependencies() {
    // The program stops on a missing `description`, `key` or
    // `password` argument.
    let m = table(&["psm", "create", "name", "n", "password", "p"]);
    assert!(create_callback(&m, true, &MetaFile::Missing).is_none());
    let m = table(&["psm", "create", "name", "n", "description", "d", "key", "k"]);
    assert!(create_callback(&m, true, &MetaFile::Missing).is_none());
}

#[test]
fn get_with_other_key_is_refused() {
    let plan = fresh_store();
    let other = fresh_store();
    let (_, p) = create_for(&plan, "mail", "hunter2", "d");
    let (data, meta) = entry_contents(&p);
    let read = EntryRead::Found { data, meta };
    let g = table(&["psm", "get", "name", "mail", "key", &other.key]);
    let out = get_callback(&g, &MetaFile::Text(plan.meta.clone()), &read).unwrap();
    assert_eq!(
        out.result,
        Err("Key: Your key is not same as what you made before. please give the original key".to_string())
    );
    // Without the key check, opening with the other key fails authentication.
    match show_password("mail", &other.key, &read) {
        Some(Err(e)) => assert_eq!(e, "Encryption: aead::Error"),
        _ => panic!("a wrong key must not open the record"),
    }
}

#[test]
fn get_errors() {
    let plan = fresh_store();
    let g = table(&["psm", "get", "name", "mail", "key", &plan.key]);
    let out = get_callback(&g, &MetaFile::Text(plan.meta.clone()), &EntryRead::NotFound).unwrap();
    assert_eq!(out.result, Err("Print: File: Can't find any password with that name.".to_string()));
    // Without a key argument the program stops.
    let g = table(&["psm", "get", "name", "mail"]);
    assert!(get_callback(&g, &MetaFile::Missing, &EntryRead::NotFound).is_none());
}

#[test]
fn show_with_bad_key_text() {
    let read = EntryRead::Found { data: "AAAA".to_string(), meta: "d\nt".to_string() };
    match show_password("mail", "!!!!", &read) {
        Some(Err(e)) => assert_eq!(e, "[!] Can't parse the key cause Invalid symbol 33, offset 0.. Please provide a valid key"),
        _ => panic!("a key that is no Base64 is an error"),
    }
}

#[test]
fn show_stops_on_malformed_record() {
    let plan = fresh_store();
    // Value shorter than a nonce.
    let read = EntryRead::Found { data: "AAAA".to_string(), meta: "d\nt".to_string() };
    assert!(show_password("mail", &plan.key, &read).is_none());
    // Value that is no Base64.
    let read = EntryRead::Found { data: "!".to_string(), meta: "d\nt".to_string() };
    assert!(show_password("mail", &plan.key, &read).is_none());
}

#[test]
fn show_stops_on_non_utf8_password() {
    let plan = fresh_store();
    let key = BASE64_STANDARD.decode(&plan.key).unwrap();
    let cipher = Aes256Gcm::new(aes_gcm::Key::<Aes256Gcm>::from_slice(&key));
    let nonce = [7u8; 12];
    let sealed = cipher.encrypt(aes_gcm::Nonce::from_slice(&nonce), &[0xffu8, 0xfe][..]).unwrap();
    let mut p = Password::new("n".to_string(), "d".to_string(), "t".to_string());
    p.set_value(sealed, &nonce);
    let (data, meta) = entry_contents(&p);
    assert!(show_password("n", &plan.key, &EntryRead::Found { data, meta }).is_none());
}

#[test]
fn new_password_seals_under_key() {
    let key = generate_random_key();
    let p = new_password("n", "secret", "today", "desc", &key);
    assert_eq!(p.date, "today");
    let raw = BASE64_STANDARD.decode(&p.value).unwrap();
    let cipher = Aes256Gcm::new(aes_gcm::Key::<Aes256Gcm>::from_slice(&key));
    let opened = cipher.decrypt(aes_gcm::Nonce::from_slice(&raw[..12]), &raw[12..]).unwrap();
    assert_eq!(opened, b"secret".to_vec());
    assert_eq!(raw.len(), 12 + "secret".len() + 16);
}

#[test]
fn seal_password_with_given_nonce() {
    let key = [7u8; 32];
    let nonce = [3u8; 12];
    let p = seal_password("n", "secret", "today", "desc", &key, &nonce);
    assert_eq!(p.name, "n");
    assert_eq!(p.description, "desc");
    assert_eq!(p.date, "today");
    assert!(p.is_enc);
    let cipher = Aes256Gcm::new(aes_gcm::Key::<Aes256Gcm>::from_slice(&key));
    let sealed = cipher.encrypt(aes_gcm::Nonce::from_slice(&nonce), b"secret".as_ref()).unwrap();
    let mut raw = nonce.to_vec();
    raw.extend_from_slice(&sealed);
    assert_eq!(p.value, BASE64_STANDARD.encode(&raw));
    assert_eq!(raw.len(), 12 + 6 + 16);
    // The same nonce gives the same record.
    assert_eq!(seal_password("n", "secret", "today", "desc", &key, &nonce).value, p.value);
}

#[test]
fn init_plan_for_given_key() {
    let key = [1u8; 32];
    let plan = init_plan(&key);
    assert_eq!(plan.key, BASE64_STANDARD.encode(key));
    assert_eq!(plan.key, "AQEBAQEBAQEBAQEBAQEBAQEBAQEBAQEBAQEBAQEBAQE=");
    assert_eq!(plan.meta, psm::store::get_hash(&plan.key));
    assert_eq!(plan.meta.len(), 32);
    assert_eq!(validate_user_key(&plan.key, &MetaFile::Text(plan.meta.clone())), Ok(()));
}

#[test]
fn remove_plans() {
    let m = table(&["psm", "remove", "all"]);
    let plan = remove_origin_callback(&m).unwrap();
    assert!(matches!(plan, RemovePlan::Origin));
    assert_eq!(remove_finish(&plan, true), Ok("Successfully removed the origin environment".to_string()));
    assert_eq!(remove_finish(&plan, false), Err("There was a problem when removing your origin".to_string()));

    let m = table(&["psm", "remove", "mail", "name", "mail"]);
    let plan = remove_origin_callback(&m).unwrap();
    match &plan {
        RemovePlan::Password { name, label } => {
            assert_eq!(name, "mail");
            assert_eq!(label, "mail");
        },
        _ => panic!("expected a record to remove"),
    }
    assert_eq!(remove_finish(&plan, true), Ok("Successfully removed your mail password".to_string()));
    assert_eq!(remove_finish(&plan, false), Err("There is a problem when removing your password".to_string()));

    // Without a name the program stops.
    let m = table(&["psm", "remove", "x"]);
    assert!(remove_origin_callback(&m).is_none());
}

#[test]
fn byte_lists() {
    assert_eq!(byte_list(&[]), "[]");
    assert_eq!(byte_list(&[0]), "[0]");
    assert_eq!(byte_list(&[104, 105, 255]), format!("{:?}", [104u8, 105, 255]));
}

#[test]
fn add_reply_quotes_value_as_debug_output() {
    let mut p = Password::default();
    p.value = "QUJD+/==".to_string();
    assert_eq!(
        add_new_password_result(&p, &AddIo::Written),
        Ok("Successfully Encrypted your password: \"QUJD+/==\"".to_string())
    );
    p.value = "a\"b\\c\nd".to_string();
    assert_eq!(
        add_new_password_result(&p, &AddIo::Written),
        Ok("Successfully Encrypted your password: \"a\\\"b\\\\c\\nd\"".to_string())
    );
    assert_eq!(
        add_new_password_result(&p, &AddIo::DirFailed),
        Err("Add Password: [!] Can't find the password folder".to_string())
    );
}
