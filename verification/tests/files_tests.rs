use recall::files::{get_hash, last_line, normalize_filename, stage_update, unstage, StagedFile};
use recall::parser::Goalset;
use recall::strutil::{chars_to_string, str_eq, u128_decimal};

#[test]
fn normalize_adds_prefix() {
    assert_eq!(normalize_filename(String::from("a.txt")), "./a.txt");
    assert_eq!(normalize_filename(String::from("./a.txt")), "./a.txt");
    assert_eq!(normalize_filename(String::from("")), "./");
    assert_eq!(normalize_filename(String::from(".")), "./.");
    assert_eq!(normalize_filename(String::from("/abs/p")), ".//abs/p");
}

#[test]
fn sha256_known_vector() {
    let hash = get_hash(&b"abc".to_vec());
    assert_eq!(
        hash,
        "ba7816bf8f01cfea414140de5dae2223b00361a396177a9cb410ff61f20015ad"
    );
    assert_eq!(hash.len(), 64);
}

#[test]
fn sha256_empty_input() {
    let hash = get_hash(&Vec::new());
    assert_eq!(
        hash,
        "e3b0c44298fc1c149afbf4c8996fb92427ae41e4649b934ca495991b7852b855"
    );
}

fn staged(name: &str, hash: &str) -> StagedFile {
    StagedFile {
        filename: String::from(name),
        hash: String::from(hash),
    }
}

#[test]
fn unstage_removes_first_match() {
    let list = vec![staged("./a", "1"), staged("./b", "2"), staged("./a", "3")];
    let out = unstage(list, vec![String::from("./a")]);
    assert_eq!(out.len(), 2);
    assert_eq!(out[0].filename, "./b");
    assert_eq!(out[1].filename, "./a");
    assert_eq!(out[1].hash, "3");
}

#[test]
fn unstage_missing_name_is_noop() {
    let list = vec![staged("./a", "1")];
    let out = unstage(list, vec![String::from("./zzz")]);
    assert_eq!(out.len(), 1);
    assert_eq!(out[0].filename, "./a");
}

#[test]
fn stage_update_appends_new_file() {
    let out = stage_update(Vec::new(), &String::from("./a"), &String::from("h1"));
    assert_eq!(out.len(), 1);
    assert_eq!(out[0].filename, "./a");
    assert_eq!(out[0].hash, "h1");
}

#[test]
fn stage_update_refreshes_hash() {
    let list = vec![staged("./a", "old")];
    let out = stage_update(list, &String::from("./a"), &String::from("new"));
    assert_eq!(out.len(), 1);
    assert_eq!(out[0].hash, "new");
}

#[test]
fn stage_update_skips_unchanged() {
    // an entry already holding the file's current hash is left alone and
    // nothing is appended
    let list = vec![staged("./a", "same")];
    let out = stage_update(list, &String::from("./b"), &String::from("same"));
    assert_eq!(out.len(), 1);
    assert_eq!(out[0].filename, "./a");
    assert_eq!(out[0].hash, "same");
}

#[test]
fn goalset_holds_fields() {
    let g = Goalset::new(
        String::from("ship it"),
        String::from("2024-01-01"),
        String::from("abc123"),
    );
    assert_eq!(g.goals, "ship it");
    assert_eq!(g.date, "2024-01-01");
    assert_eq!(g.commit, "abc123");
}

#[test]
fn string_helpers() {
    assert!(str_eq("hello", "hello"));
    assert!(!str_eq("hello", "hellp"));
    assert!(!str_eq("hello", "hell"));
    assert!(str_eq("", ""));
    let digits = u128_decimal(1234567890);
    assert_eq!(chars_to_string(&digits), "1234567890");
    let zero = u128_decimal(0);
    assert_eq!(chars_to_string(&zero), "0");
}

#[test]
fn last_line_of_history() {
    assert_eq!(last_line("abc123\ndef456\n"), Some(String::from("def456")));
    assert_eq!(last_line("abc123\ndef456"), Some(String::from("def456")));
    assert_eq!(last_line("onlyone"), Some(String::from("onlyone")));
    assert_eq!(last_line("a\n\n"), Some(String::from("")));
    assert_eq!(last_line(""), None);
}
