use awsctx::creds::Credentials;
use awsctx::ctx::CTXError;

const SAMPLE: &str = "[bar]\n\
aws_access_key_id=YYYYYYYYYYY\n\
aws_secret_access_key=YYYYYYYYYYY\n\
aws_session_token=YYYYYYYYYYYYYYYYYYYYYYYYYYYYYYYYYYYYYYYYYYYY\n\
\n\
[foo]\n\
aws_access_key_id=XXXXXXXXXXX\n\
aws_secret_access_key=XXXXXXXXXXX\n\
aws_session_token=XXXXXXXXXXXXXXXXXXXXXXXXXXXXXXXXXXXXXXXXXXXX\n\
\n\
[default]\n\
aws_access_key_id=XXXXXXXXXXX\n\
aws_secret_access_key=XXXXXXXXXXX\n\
aws_session_token=XXXXXXXXXXXXXXXXXXXXXXXXXXXXXXXXXXXXXXXXXXXX\n";

const SAMPLE_WITHOUT_DEFAULT: &str = "[bar]\n\
aws_access_key_id=YYYYYYYYYYY\n\
aws_secret_access_key=YYYYYYYYYYY\n\
aws_session_token=YYYYYYYYYYYYYYYYYYYYYYYYYYYYYYYYYYYYYYYYYYYY\n\
\n\
[foo]\n\
aws_access_key_id=XXXXXXXXXXX\n\
aws_secret_access_key=XXXXXXXXXXX\n\
aws_session_token=XXXXXXXXXXXXXXXXXXXXXXXXXXXXXXXXXXXXXXXXXXXX\n";

#[test]
fn test_load_credentials_resolves_active_profile() {
    let creds = Credentials::load_credentials(SAMPLE).unwrap();
    let active = creds.get_default_profile().unwrap();
    assert_eq!(active.name, "foo");
    assert!(active.default);
}

#[test]
fn test_load_credentials_without_default_has_no_active_profile() {
    let creds = Credentials::load_credentials(SAMPLE_WITHOUT_DEFAULT).unwrap();
    match creds.get_default_profile() {
        Err(CTXError::NoActiveContext) => {}
        other => panic!("expected NoActiveContext, got {:?}", other.is_ok()),
    }
}

#[test]
fn test_load_credentials_no_headers_is_broken() {
    match Credentials::load_credentials("aws_access_key_id=XXXX\n") {
        Err(CTXError::CredentialsIsBroken) => {}
        _ => panic!("expected CredentialsIsBroken"),
    }
}

#[test]
fn test_load_credentials_empty_text_is_broken() {
    match Credentials::load_credentials("") {
        Err(CTXError::CredentialsIsBroken) => {}
        _ => panic!("expected CredentialsIsBroken"),
    }
}

#[test]
fn test_load_credentials_row_without_equals_is_broken() {
    match Credentials::load_credentials("[a]\nnonsense\n") {
        Err(CTXError::CredentialsIsBroken) => {}
        _ => panic!("expected CredentialsIsBroken"),
    }
}

#[test]
fn test_header_with_bracket_inside_is_not_a_header() {
    // `[a]b]` ends with `]` but holds another `]` inside, so it is not a
    // header; having no `=` either, it breaks the row grammar.
    match Credentials::load_credentials("[a]b]\nk=v\n") {
        Err(CTXError::CredentialsIsBroken) => {}
        _ => panic!("expected CredentialsIsBroken"),
    }
}

#[test]
fn test_get_profile_returns_items() {
    let creds = Credentials::load_credentials(SAMPLE).unwrap();
    let p = creds.get_profile("bar").unwrap();
    assert_eq!(p.name, "bar");
    assert!(!p.default);
    assert_eq!(p.items.len(), 3);
    assert_eq!(p.items[0].key, "aws_access_key_id");
    assert_eq!(p.items[0].value, "YYYYYYYYYYY");
    assert_eq!(p.items[1].key, "aws_secret_access_key");
    assert_eq!(p.items[2].key, "aws_session_token");
}

#[test]
fn test_get_profile_unknown_name_fails() {
    let creds = Credentials::load_credentials(SAMPLE).unwrap();
    match creds.get_profile("unknown") {
        Err(CTXError::NoSuchProfile { profile }) => assert_eq!(profile, "unknown"),
        _ => panic!("expected NoSuchProfile"),
    }
}

#[test]
fn test_set_default_profile_switches_active() {
    let mut creds = Credentials::load_credentials(SAMPLE).unwrap();
    let p = creds.set_default_profile("bar").unwrap();
    assert_eq!(p.name, "bar");
    assert!(p.default);
    assert_eq!(creds.get_default_profile().unwrap().name, "bar");
}

#[test]
fn test_set_default_profile_unknown_name_leaves_store_unchanged() {
    let mut creds = Credentials::load_credentials(SAMPLE).unwrap();
    match creds.set_default_profile("unknown") {
        Err(CTXError::NoSuchProfile { profile }) => assert_eq!(profile, "unknown"),
        _ => panic!("expected NoSuchProfile"),
    }
    // the active profile is exactly what it was
    assert_eq!(creds.get_default_profile().unwrap().name, "foo");
}

#[test]
fn test_list_profiles_sorted_with_active_flag() {
    let creds = Credentials::load_credentials(SAMPLE).unwrap();
    let profiles = creds.list_profiles();
    assert_eq!(profiles.len(), 2);
    assert_eq!(profiles[0].name, "bar");
    assert!(!profiles[0].default);
    assert_eq!(profiles[1].name, "foo");
    assert!(profiles[1].default);
}

#[test]
fn test_dump_credentials_exact_text() {
    let creds = Credentials::load_credentials("[b]\nk=2\n[a]\nk=1\n").unwrap();
    assert_eq!(creds.dump_credentials(), "[a]\nk=1\n\n[b]\nk=2\n");
}

#[test]
fn test_dump_credentials_appends_default_section() {
    let mut creds = Credentials::load_credentials("[b]\nk=2\n[a]\nk=1\n").unwrap();
    creds.set_default_profile("b").unwrap();
    assert_eq!(
        creds.dump_credentials(),
        "[a]\nk=1\n\n[b]\nk=2\n\n[default]\nk=2\n"
    );
}

#[test]
fn test_dump_credentials_reproduces_sorted_file_byte_for_byte() {
    // the fixtures are already in sorted order, so dumping what was
    // loaded gives back the very same bytes
    let creds = Credentials::load_credentials(SAMPLE).unwrap();
    assert_eq!(creds.dump_credentials(), SAMPLE);
    let creds = Credentials::load_credentials(SAMPLE_WITHOUT_DEFAULT).unwrap();
    assert_eq!(creds.dump_credentials(), SAMPLE_WITHOUT_DEFAULT);
}

#[test]
fn test_round_trip_preserves_profiles_and_active_name() {
    let creds = Credentials::load_credentials(SAMPLE).unwrap();
    let text = creds.dump_credentials();
    let again = Credentials::load_credentials(&text).unwrap();
    assert_eq!(again.get_default_profile().unwrap().name, "foo");
    let a = creds.list_profiles();
    let b = again.list_profiles();
    assert_eq!(a.len(), b.len());
    for (x, y) in a.iter().zip(b.iter()) {
        assert_eq!(x.name, y.name);
        assert_eq!(x.default, y.default);
        assert_eq!(x.items.len(), y.items.len());
        for (i, j) in x.items.iter().zip(y.items.iter()) {
            assert_eq!(i.key, j.key);
            assert_eq!(i.value, j.value);
        }
    }
}

#[test]
fn test_round_trip_without_active_profile() {
    let creds = Credentials::load_credentials(SAMPLE_WITHOUT_DEFAULT).unwrap();
    let text = creds.dump_credentials();
    let again = Credentials::load_credentials(&text).unwrap();
    assert!(again.get_default_profile().is_err());
    assert_eq!(again.list_profiles().len(), 2);
}

#[test]
fn test_single_section_without_default_lists_inactive() {
    let creds = Credentials::load_credentials("[solo]\nk=v\n").unwrap();
    let profiles = creds.list_profiles();
    assert_eq!(profiles.len(), 1);
    assert_eq!(profiles[0].name, "solo");
    assert!(!profiles[0].default);
    match creds.get_default_profile() {
        Err(CTXError::NoActiveContext) => {}
        _ => panic!("expected NoActiveContext"),
    }
}

#[test]
fn test_ambiguous_default_resolves_first_matching_name() {
    // `b` and `c` hold identical rows; the structural match resolves the
    // first name in sorted order.
    let text = "[c]\nk=v\n[b]\nk=v\n[default]\nk=v\n";
    let creds = Credentials::load_credentials(text).unwrap();
    assert_eq!(creds.get_default_profile().unwrap().name, "b");
}

#[test]
fn test_duplicate_key_last_occurrence_wins() {
    let creds = Credentials::load_credentials("[a]\nk=1\nk=2\n").unwrap();
    let p = creds.get_profile("a").unwrap();
    assert_eq!(p.items.len(), 1);
    assert_eq!(p.items[0].key, "k");
    assert_eq!(p.items[0].value, "2");
}

#[test]
fn test_duplicate_section_last_occurrence_wins() {
    let creds = Credentials::load_credentials("[a]\nk=1\n[a]\nx=9\n").unwrap();
    let p = creds.get_profile("a").unwrap();
    assert_eq!(p.items.len(), 1);
    assert_eq!(p.items[0].key, "x");
    assert_eq!(p.items[0].value, "9");
}

#[test]
fn test_rows_before_first_header_are_ignored() {
    let creds = Credentials::load_credentials("k=0\n[a]\nk=1\n").unwrap();
    let profiles = creds.list_profiles();
    assert_eq!(profiles.len(), 1);
    assert_eq!(profiles[0].name, "a");
    assert_eq!(profiles[0].items.len(), 1);
    assert_eq!(profiles[0].items[0].value, "1");
}

#[test]
fn test_value_may_contain_equals_sign() {
    let creds = Credentials::load_credentials("[a]\nk=v=w\n").unwrap();
    let p = creds.get_profile("a").unwrap();
    assert_eq!(p.items[0].key, "k");
    assert_eq!(p.items[0].value, "v=w");
}

#[test]
fn test_load_credentials_accepts_crlf_line_endings() {
    let creds = Credentials::load_credentials("[a]\r\nk=v\r\n\r\n[b]\r\nk=w\r\n").unwrap();
    let a = creds.get_profile("a").unwrap();
    assert_eq!(a.items[0].key, "k");
    assert_eq!(a.items[0].value, "v");
    assert_eq!(creds.get_profile("b").unwrap().items[0].value, "w");
}

#[test]
fn test_load_credentials_strips_one_carriage_return_only() {
    let creds = Credentials::load_credentials("[a]\nk=v\r\r\n").unwrap();
    let p = creds.get_profile("a").unwrap();
    assert_eq!(p.items[0].value, "v\r");
}
