use slipmesh::nftables::config::{validate, NftablesConfig};
use slipmesh::nftables::ruleset::{all_present, arguments, declared_tables, goes_on, runs, Run};
use slipmesh::nftables::template::{referenced_placeholders, substitute, unknown_placeholders};
use slipmesh::nftables::watchdog::{next_action, Action, Event};

#[test]
fn validate_accepts_known_placeholders() {
    let cfg = NftablesConfig {
        ruleset: "oifname \"{{ defaultroute_interface_ipv4 }}\"".to_string(),
    };
    assert!(validate(&cfg).is_ok());
}

#[test]
fn validate_rejects_an_unknown_placeholder() {
    let cfg = NftablesConfig { ruleset: "oifname \"{{ typo_placeholder }}\"".to_string() };
    assert!(validate(&cfg).is_err());
    assert_eq!(validate(&cfg).unwrap_err().names, vec!["typo_placeholder"]);
}

#[test]
fn validate_accepts_a_ruleset_with_no_placeholders_at_all() {
    let cfg = NftablesConfig { ruleset: "table inet x {}".to_string() };
    assert!(validate(&cfg).is_ok());
}

#[test]
fn declared_tables_finds_every_table_header() {
    let ruleset = "table inet talos_filter {\n    chain forward { }\n}\ntable ip talos_nat {\n    chain postrouting { }\n}\n";
    assert_eq!(
        declared_tables(ruleset),
        vec![
            ("inet".to_string(), "talos_filter".to_string()),
            ("ip".to_string(), "talos_nat".to_string()),
        ]
    );
}

#[test]
fn declared_tables_ignores_commented_lines() {
    let ruleset = "# table ip6 not_real {\ntable ip6 talos_nat6 {\n";
    assert_eq!(declared_tables(ruleset), vec![("ip6".to_string(), "talos_nat6".to_string())]);
}

#[test]
fn declared_tables_handles_indentation() {
    let ruleset = "    table inet talos_filter {\n";
    assert_eq!(declared_tables(ruleset), vec![("inet".to_string(), "talos_filter".to_string())]);
}

#[test]
fn declared_tables_empty_ruleset_finds_nothing() {
    assert_eq!(declared_tables(""), Vec::<(String, String)>::new());
}

#[test]
fn a_table_is_present_once_the_kernel_lists_it() {
    let ruleset = "table inet a {\n}\ntable ip b {\n}\n";
    assert!(all_present(ruleset, "table inet a\ntable ip b\ntable ip6 c\n"));
    assert!(!all_present(ruleset, "table inet a\n"));
    assert!(all_present("", ""));
}

#[test]
fn referenced_placeholders_finds_every_token() {
    let s = "a {{ defaultroute_interface_ipv4 }} b {{defaultroute_interface_ipv6}} c";
    let mut found: Vec<String> = referenced_placeholders(s).into_iter().collect();
    found.sort();
    assert_eq!(
        found,
        vec![
            "defaultroute_interface_ipv4".to_string(),
            "defaultroute_interface_ipv6".to_string(),
        ]
    );
}

#[test]
fn referenced_placeholders_empty_text_finds_nothing() {
    assert!(referenced_placeholders("no placeholders here").is_empty());
}

#[test]
fn unknown_placeholders_flags_a_typo() {
    assert_eq!(
        unknown_placeholders("{{ defaultroute_interfac_ipv4 }}"),
        vec!["defaultroute_interfac_ipv4".to_string()]
    );
}

#[test]
fn unknown_placeholders_accepts_known_names() {
    assert!(unknown_placeholders(
        "{{ defaultroute_interface_ipv4 }} {{ defaultroute_interface_ipv6 }}"
    )
    .is_empty());
}

#[test]
fn substitute_replaces_a_known_placeholder_regardless_of_inner_whitespace() {
    let values = vec![("defaultroute_interface_ipv4".to_string(), "eth0".to_string())];
    assert_eq!(
        substitute("oifname \"{{defaultroute_interface_ipv4}}\"", &values),
        "oifname \"eth0\""
    );
    assert_eq!(
        substitute("oifname \"{{   defaultroute_interface_ipv4   }}\"", &values),
        "oifname \"eth0\""
    );
}

#[test]
fn substitute_leaves_unresolved_placeholders_untouched() {
    let values = vec![];
    assert_eq!(
        substitute("{{ defaultroute_interface_ipv6 }}", &values),
        "{{ defaultroute_interface_ipv6 }}"
    );
}

#[test]
fn substitute_is_a_no_op_without_placeholders() {
    let values = vec![];
    assert_eq!(substitute("table inet x {}", &values), "table inet x {}");
}

#[test]
fn only_missing_tables_have_the_ruleset_applied_again() {
    assert_eq!(next_action(Event::Applied), Action::Spawn);
    assert_eq!(next_action(Event::Spawned), Action::ReadLine);
    assert_eq!(next_action(Event::Line), Action::Check);
    assert_eq!(next_action(Event::Checked(true)), Action::ReadLine);
    assert_eq!(next_action(Event::Checked(false)), Action::Reapply);
    assert_eq!(next_action(Event::CheckFailed), Action::ReadLine);
    assert_eq!(next_action(Event::Reapplied), Action::ReadLine);
}

#[test]
fn a_monitor_that_ends_is_started_again() {
    assert_eq!(next_action(Event::Ended), Action::Reap);
    assert_eq!(next_action(Event::Reaped), Action::Spawn);
    assert_eq!(next_action(Event::SpawnFailed), Action::Wait(5));
    assert_eq!(next_action(Event::Waited), Action::Spawn);
}

#[test]
fn a_filled_ruleset_refers_to_nothing_and_stays_as_it_is() {
    let values = vec![
        ("defaultroute_interface_ipv4".to_string(), "eth0".to_string()),
        ("defaultroute_interface_ipv6".to_string(), "eth1".to_string()),
    ];
    let ruleset = "a {{ defaultroute_interface_ipv4 }} b {{defaultroute_interface_ipv6}} {c}";
    let filled = substitute(ruleset, &values);
    assert_eq!(filled, "a eth0 b eth1 {c}");
    assert!(referenced_placeholders(&filled).is_empty());
    assert_eq!(substitute(&filled, &values), filled);
}

#[test]
fn a_ruleset_is_applied_by_deleting_its_tables_and_loading_it() {
    let ruleset = "table inet a {\n}\n# table ip no {\ntable ip b {\n}\n";
    let steps = runs(ruleset);
    assert_eq!(
        steps,
        vec![
            Run::Delete("inet".to_string(), "a".to_string()),
            Run::Delete("ip".to_string(), "b".to_string()),
            Run::Load(ruleset.to_string()),
        ]
    );
    assert_eq!(arguments(&steps[0]), ["delete", "table", "inet", "a"]);
    assert_eq!(arguments(&steps[2]), ["-f", "-"]);
    assert!(goes_on(&steps[0], false) && goes_on(&steps[2], true) && !goes_on(&steps[2], false));
    assert_eq!(runs(""), vec![Run::Load(String::new())]);
}
