use awsctx::configs::{AuthCommand, Configs};
use awsctx::creds::Credentials;
use awsctx::ctx::{confirm_selection, get_active_context, list_contexts, use_context, CTXError};
use awsctx::view::{show_context, show_contexts};

const SAMPLE: &str = "[foo]\nk=X\n\n[bar]\nk=Y\n\n[default]\nk=X\n";

fn configs_with(entries: Vec<(&str, &str)>) -> Configs {
    Configs {
        auth_commands: entries
            .into_iter()
            .map(|(p, s)| AuthCommand {
                profile: p.to_string(),
                script: s.to_string(),
            })
            .collect(),
    }
}

#[test]
fn test_list_contexts_sorted_with_active_flag() {
    let creds = Credentials::load_credentials(SAMPLE).unwrap();
    let contexts = list_contexts(&creds);
    assert_eq!(contexts.len(), 2);
    assert_eq!(contexts[0].name, "bar");
    assert!(!contexts[0].active);
    assert_eq!(contexts[1].name, "foo");
    assert!(contexts[1].active);
}

#[test]
fn test_get_active_context_returns_matching_profile() {
    let creds = Credentials::load_credentials(SAMPLE).unwrap();
    let c = get_active_context(&creds).unwrap();
    assert_eq!(c.name, "foo");
    assert!(c.active);
}

#[test]
fn test_get_active_context_fails_without_default() {
    let creds = Credentials::load_credentials("[solo]\nk=v\n").unwrap();
    match get_active_context(&creds) {
        Err(CTXError::NoActiveContext) => {}
        _ => panic!("expected NoActiveContext"),
    }
}

#[test]
fn test_use_context_switches_and_dump_reflects_it() {
    let mut creds = Credentials::load_credentials(SAMPLE).unwrap();
    let c = use_context(&mut creds, "bar").unwrap();
    assert_eq!(c.name, "bar");
    assert!(c.active);
    let text = creds.dump_credentials();
    // the final `default` section carries bar's rows, with no blank
    // line after the last section
    assert!(text.ends_with("[default]\nk=Y\n"));
    assert!(!text.ends_with("\n\n"));
    let again = Credentials::load_credentials(&text).unwrap();
    assert_eq!(again.get_default_profile().unwrap().name, "bar");
}

#[test]
fn test_use_context_unknown_profile_fails() {
    let mut creds = Credentials::load_credentials(SAMPLE).unwrap();
    match use_context(&mut creds, "nope") {
        Err(CTXError::NoSuchProfile { profile }) => assert_eq!(profile, "nope"),
        _ => panic!("expected NoSuchProfile"),
    }
}

#[test]
fn test_confirm_selection_some_hands_the_name_on() {
    assert_eq!(confirm_selection(Some("bar".to_string())).unwrap(), "bar");
}

#[test]
fn test_confirm_selection_none_is_no_context_selected() {
    match confirm_selection(None) {
        Err(CTXError::NoContextIsSelected) => {}
        _ => panic!("expected NoContextIsSelected"),
    }
}

#[test]
fn test_resolve_auth_command_prefers_specific_entry() {
    let configs = configs_with(vec![
        ("__default", "fallback {{profile}}"),
        ("foo", "login {{profile}}"),
    ]);
    assert_eq!(configs.resolve_auth_command("foo").unwrap(), "login {{profile}}");
}

#[test]
fn test_resolve_auth_command_falls_back_to_wildcard() {
    let configs = configs_with(vec![("__default", "fallback {{profile}}")]);
    assert_eq!(
        configs.resolve_auth_command("baz").unwrap(),
        "fallback {{profile}}"
    );
}

#[test]
fn test_resolve_auth_command_without_any_entry_fails() {
    let configs = configs_with(vec![("foo", "login {{profile}}")]);
    match configs.resolve_auth_command("baz") {
        Err(CTXError::NoAuthConfiguration { profile }) => assert_eq!(profile, "baz"),
        _ => panic!("expected NoAuthConfiguration"),
    }
}

#[test]
fn test_build_auth_script_substitutes_profile_via_wildcard() {
    let configs = configs_with(vec![("__default", "aws sso login --profile {{profile}}")]);
    assert_eq!(
        configs.build_auth_script("baz").unwrap(),
        "aws sso login --profile baz"
    );
}

#[test]
fn test_build_auth_script_invalid_template_fails() {
    let configs = configs_with(vec![("foo", "{{#if}}")]);
    match configs.build_auth_script("foo") {
        Err(CTXError::InvalidConfigurations { message }) => {
            assert_eq!(message, "failed to render the auth script of profile foo");
        }
        _ => panic!("expected InvalidConfigurations"),
    }
}

#[test]
fn test_default_configs_hold_a_wildcard_entry() {
    let configs = Configs::default();
    assert_eq!(configs.auth_commands.len(), 1);
    assert_eq!(configs.auth_commands[0].profile, "__default");
    let script = configs.resolve_auth_command("anything").unwrap();
    assert!(script.contains("aws configure --profile {{profile}}"));
}

#[test]
fn test_error_messages() {
    let e = CTXError::NoSuchProfile {
        profile: "foo".to_string(),
    };
    assert_eq!(e.message(), "no such profile: foo");
    assert_eq!(CTXError::NoActiveContext.message(), "no active context");
    let e = CTXError::InvalidConfigurations {
        message: "bad".to_string(),
    };
    assert_eq!(e.message(), "invalid configurations: bad");
}

#[test]
fn test_show_contexts_marks_the_active_profile() {
    let creds = Credentials::load_credentials(SAMPLE).unwrap();
    let lines = show_contexts(&list_contexts(&creds));
    assert_eq!(lines, vec!["  bar".to_string(), "* foo".to_string()]);
}

#[test]
fn test_show_context_is_the_bare_name() {
    let creds = Credentials::load_credentials(SAMPLE).unwrap();
    let c = get_active_context(&creds).unwrap();
    assert_eq!(show_context(&c), "foo");
}
