use reestr::resolve::resolve;
use reestr::resolve::ResolveError;
use reestr::resolve::RootKey;

#[test]
fn all_root_names_parse() {
    let cases = [
        ("HKEY_LOCAL_MACHINE\\SOFTWARE", RootKey::LocalMachine, "SOFTWARE"),
        ("HKEY_USERS\\S-1-5-18", RootKey::Users, "S-1-5-18"),
        ("HKEY_CURRENT_USER\\Environment", RootKey::CurrentUser, "Environment"),
        ("HKEY_CLASSES_ROOT\\.txt", RootKey::ClassesRoot, ".txt"),
        ("HKEY_CURRENT_CONFIG\\System", RootKey::CurrentConfig, "System"),
    ];
    for (path, root, sub) in cases {
        let r = resolve(path).unwrap();
        assert_eq!(r.0, root);
        assert_eq!(r.1, sub);
    }
}

#[test]
fn deep_sub_path_is_kept_whole() {
    let r = resolve("HKEY_LOCAL_MACHINE\\SOFTWARE\\Microsoft\\Windows NT\\CurrentVersion").unwrap();
    assert_eq!(r.0, RootKey::LocalMachine);
    assert_eq!(r.1, "SOFTWARE\\Microsoft\\Windows NT\\CurrentVersion");
}

#[test]
fn root_alone_is_empty_branch_path() {
    assert_eq!(resolve("HKEY_LOCAL_MACHINE"), Err(ResolveError::EmptyBranchPath));
}

#[test]
fn root_with_trailing_backslash_is_empty_branch_path() {
    assert_eq!(resolve("HKEY_USERS\\"), Err(ResolveError::EmptyBranchPath));
}

#[test]
fn unknown_root_is_invalid() {
    assert_eq!(resolve("NOT_A_ROOT\\Foo"), Err(ResolveError::InvalidRoot));
}

#[test]
fn empty_path_is_invalid() {
    assert_eq!(resolve(""), Err(ResolveError::InvalidRoot));
}

#[test]
fn root_matching_is_case_sensitive() {
    assert_eq!(resolve("hkey_local_machine\\SOFTWARE"), Err(ResolveError::InvalidRoot));
}

#[test]
fn leading_backslash_is_invalid() {
    assert_eq!(resolve("\\HKEY_USERS\\X"), Err(ResolveError::InvalidRoot));
}

#[test]
fn sub_path_of_one_backslash_is_not_empty() {
    let r = resolve("HKEY_USERS\\\\").unwrap();
    assert_eq!(r.0, RootKey::Users);
    assert_eq!(r.1, "\\");
}

#[test]
fn root_name_with_extra_text_is_invalid() {
    assert_eq!(resolve("HKEY_LOCAL_MACHINEX\\SOFTWARE"), Err(ResolveError::InvalidRoot));
}
