use psm::password::Password;
use psm::store::{
    after_first_line_of, entry_contents, first_line_of, get_hash, origin_add_result, origin_show, validate_user_key,
    AddIo, EntryRead, MetaFile,
};

#[test]
fn it_works() {
    let sample: String = String::from("This is the text\nThis is the new line");
    let l_data = sample.split("\n").collect::<Vec<&str>>();
    assert_eq!(first_line_of(&sample), l_data[0]);
    assert_eq!(first_line_of(&after_first_line_of(&sample)), l_data[1]);
}

#[test]
fn lines_of_text() {
    assert_eq!(first_line_of("abc"), "abc");
    assert_eq!(after_first_line_of("abc"), "");
    assert_eq!(first_line_of("\nabc"), "");
    assert_eq!(after_first_line_of("a\nb\nc"), "b\nc");
    assert_eq!(first_line_of("ä\nö"), "ä");
}

fn record(value: &str, desc: &str, date: &str) -> Password {
    let mut p = Password::new("mail".to_string(), desc.to_string(), date.to_string());
    p.value = value.to_string();
    p
}

#[test]
fn entry_files_read_back() {
    let p = record("c2VhbGVk", "work mail", "2024");
    let (data, meta) = entry_contents(&p);
    assert_eq!(data, "c2VhbGVk");
    assert_eq!(meta, "work mail\n2024");
    let read = EntryRead::Found { data, meta };
    let q = origin_show("mail", &read).unwrap().unwrap();
    assert_eq!(q.name, "mail");
    assert_eq!(q.value, "c2VhbGVk");
    assert_eq!(q.description, "work mail");
    assert_eq!(q.date, "2024");
    assert!(!q.is_enc());
}

#[test]
fn entry_read_errors() {
    match origin_show("mail", &EntryRead::NotFound) {
        Some(Err(e)) => assert_eq!(e, "Can't find any password with that name."),
        _ => panic!("a missing record is an error"),
    }
    match origin_show("mail", &EntryRead::Failed("No such file or directory (os error 2)".to_string())) {
        Some(Err(e)) => assert_eq!(e, "No such file or directory (os error 2)"),
        _ => panic!("a failed read is an error"),
    }
    let no_date = EntryRead::Found { data: "v".to_string(), meta: "only a description".to_string() };
    assert!(origin_show("mail", &no_date).is_none());
}

#[test]
fn entry_with_extra_lines() {
    let read = EntryRead::Found { data: "v1\nv2".to_string(), meta: "d\nt\nrest".to_string() };
    let q = origin_show("n", &read).unwrap().unwrap();
    assert_eq!(q.value, "v1");
    assert_eq!(q.description, "d");
    assert_eq!(q.date, "t");
}

#[test]
fn write_outcomes() {
    assert_eq!(origin_add_result(&AddIo::Written), Ok(()));
    assert_eq!(origin_add_result(&AddIo::DirFailed), Err("[!] Can't find the password folder".to_string()));
    assert_eq!(origin_add_result(&AddIo::DataCreateFailed), Err("Can't make data file_data".to_string()));
    assert_eq!(origin_add_result(&AddIo::DataWriteFailed), Err("Can't write to the file_data".to_string()));
    assert_eq!(origin_add_result(&AddIo::MetaCreateFailed), Err("Can't make meta)) file".to_string()));
    assert_eq!(origin_add_result(&AddIo::MetaWriteFailed), Err("Can't write to the file meta".to_string()));
}

#[test]
fn key_digest_is_md5_hex() {
    assert_eq!(get_hash("abc"), "900150983cd24fb0d6963f7d28e17f72");
    assert_eq!(get_hash(""), "d41d8cd98f00b204e9800998ecf8427e");
    assert_eq!(get_hash("abc"), format!("{:x}", md5::compute("abc")));
}

#[test]
fn key_check() {
    let key = "A".repeat(44);
    let hash = get_hash(&key);
    assert_eq!(validate_user_key(&key, &MetaFile::Text(hash.clone())), Ok(()));
    assert_eq!(validate_user_key("short", &MetaFile::Text(hash.clone())), Err("The key is not valid!".to_string()));
    assert_eq!(
        validate_user_key(&key, &MetaFile::Unreadable),
        Err("There is a problem in origin structure, please do the `psm --init` again".to_string())
    );
    let mismatch = Err("Your key is not same as what you made before. please give the original key".to_string());
    assert_eq!(validate_user_key(&key, &MetaFile::Missing), mismatch);
    assert_eq!(validate_user_key(&key, &MetaFile::Text("0".repeat(32))), mismatch);
}
