use slipmesh::taloscfg::amend::{add_entry, add_item, fill_key, remove_item, set_field};
use slipmesh::taloscfg::document::{
    blank_key, cut_up, documents, patch_document, remove_key, spans, splice, split, strip_meta,
    DocumentError, Node, Patch, Syntax, Token,
};
use slipmesh::taloscfg::emit::{append_to_mapping, append_to_sequence, quote, EmitError};
use slipmesh::taloscfg::locate::Step;
use slipmesh::taloscfg::merge::merge_document;
use slipmesh::taloscfg::segments::{
    foreign_segments, is_owned, owned_segment, render_file, split as split_segments,
};
use slipmesh::taloscfg::weight::{weigh, LIMIT};
use slipmesh::value::{copy, same, Value};
use yaml_serde::Value as Yaml;

fn key(k: &str) -> Step {
    Step::Key(k.to_string())
}

fn text(s: &str) -> Value {
    Value::Text(s.to_string())
}

fn number(n: u64) -> Value {
    Value::Number(n.to_string())
}

fn mapping(entries: Vec<(&str, Value)>) -> Value {
    Value::Mapping(entries.into_iter().map(|(k, v)| (text(k), v)).collect())
}

fn entries(v: Vec<(&str, Value)>) -> Vec<(String, Value)> {
    v.into_iter().map(|(k, v)| (k.to_string(), v)).collect()
}

/// YAML text as plain data.
fn yaml(s: &str) -> Value {
    plain(yaml_serde::from_str(s).unwrap())
}

fn plain(v: Yaml) -> Value {
    match v {
        Yaml::Null => Value::Null,
        Yaml::Bool(b) => Value::Bool(b),
        Yaml::Number(n) => Value::Number(n.to_string()),
        Yaml::String(s) => Value::Text(s),
        Yaml::Sequence(items) => Value::Sequence(items.into_iter().map(plain).collect()),
        Yaml::Mapping(m) => {
            Value::Mapping(m.into_iter().map(|(k, v)| (plain(k), plain(v))).collect())
        }
        Yaml::Tagged(t) => {
            Value::Tagged(t.tag.to_string().split_off(1), Box::new(plain(t.value)))
        }
    }
}

fn rejoin(raw: &str) -> String {
    spans(raw).unwrap().into_iter().map(|span| &raw[span]).collect()
}

#[test]
fn spans_of_a_single_document_file_cover_all_of_it() {
    let raw = "machine:\n    install:\n        disk: /dev/vda\n";
    assert_eq!(spans(raw).unwrap(), vec![0..raw.len()]);
}

#[test]
fn spans_of_an_empty_file_are_none() {
    assert!(spans("").unwrap().is_empty());
}

#[test]
fn spans_of_a_three_document_file_are_contiguous_and_rebuild_it() {
    let raw = "a: 1\n---\nb: 2\n---\nc: 3\n";
    let found = spans(raw).unwrap();
    assert_eq!(found.len(), 3, "{found:?}");
    assert_eq!(found[0].start, 0);
    assert_eq!(found[0].end, found[1].start);
    assert_eq!(found[1].end, found[2].start);
    assert_eq!(found[2].end, raw.len());
    assert_eq!(rejoin(raw), raw);
}

#[test]
fn offsets_count_bytes_not_characters() {
    let raw = "a: \u{e9}\u{20ac}\u{1f600}\n---\nb: 2\n";
    let found = spans(raw).unwrap();
    assert_eq!(found.len(), 2);
    assert_eq!(rejoin(raw), raw);
    assert_eq!(splice(raw, found[1].clone(), "---\nc\n"), "a: \u{e9}\u{20ac}\u{1f600}\n---\nc\n");
}

#[test]
fn a_marker_inside_a_block_scalar_is_not_a_boundary() {
    let raw = "\
apiVersion: v1alpha1
kind: ExtensionServiceConfig
name: nftables
configFiles:
    - content: |
        table inet talos_filter {
            # ---
            chain input { type filter hook input priority 0; }
        }
      mountPath: /etc/nftables.conf
";
    assert_eq!(spans(raw).unwrap(), vec![0..raw.len()]);
}

#[test]
fn a_directive_does_not_start_a_second_document() {
    let raw = "%YAML 1.2\n---\nmachine:\n    install:\n        disk: /dev/vda\n";
    assert_eq!(spans(raw).unwrap(), vec![0..raw.len()]);
}

#[test]
fn splicing_replaces_exactly_the_span() {
    let raw = "a: 1\n---\nb: 2\n---\nc: 3\n";
    let span = spans(raw).unwrap()[1].clone();
    assert_eq!(splice(raw, span, "---\nb: 20\n"), "a: 1\n---\nb: 20\n---\nc: 3\n");
}

#[test]
fn patching_the_middle_document_leaves_its_neighbours_byte_for_byte() {
    let raw = "a: 1 # first\n---\nb: 2\n---\nc: 3 # third\n";
    let span = spans(raw).unwrap()[1].clone();
    let out = patch_document(raw, span, &vec![Patch::Remove(vec![key("b")])]).unwrap();
    assert!(out.starts_with("a: 1 # first\n---\n"), "{out:?}");
    assert!(out.ends_with("---\nc: 3 # third\n"), "{out:?}");
    assert!(!out.contains("b: 2"), "{out:?}");
}

#[test]
fn patching_the_first_document_leaves_the_rest_byte_for_byte() {
    let raw = "a: 1\nkeep: me\n---\nb: 2 # second\n";
    let span = spans(raw).unwrap()[0].clone();
    let out = patch_document(raw, span, &vec![Patch::Remove(vec![key("a")])]).unwrap();
    assert!(out.ends_with("---\nb: 2 # second\n"), "{out:?}");
    assert!(out.contains("keep: me"), "{out:?}");
    assert!(!out.contains("a: 1"), "{out:?}");
}

#[test]
fn a_patch_that_cannot_be_applied_is_refused() {
    let raw = "a: 1\n";
    let absent = vec![Patch::Remove(vec![key("b")])];
    assert_eq!(patch_document(raw, 0..raw.len(), &absent), Err(DocumentError::NotPatched));
    assert_eq!(patch_document(raw, 0..raw.len(), &vec![]), Err(DocumentError::NotPatched));
    let added = vec![Patch::Add(vec![], entries(vec![("c", number(3))]))];
    let out = patch_document(raw, 0..raw.len(), &added).unwrap();
    assert!(same(&yaml(&out), &yaml("a: 1\nc: 3\n")), "{out:?}");
}

#[test]
fn crlf_survives_a_splice() {
    let raw = "a: 1\r\nkeep: me\r\n---\r\nb: 2\r\n";
    let span = spans(raw).unwrap()[0].clone();
    let out = patch_document(raw, span, &vec![Patch::Remove(vec![key("a")])]).unwrap();
    assert!(out.contains("keep: me\r\n"), "line endings rewritten: {out:?}");
    assert!(out.ends_with("b: 2\r\n"), "{out:?}");
}

#[test]
fn stripping_meta_written_first_leaves_no_blank_line() {
    let document = "slipmesh:\n    kind: patch\napiVersion: v1alpha1\nkind: KubeletConfig\n";
    assert_eq!(
        strip_meta(document).unwrap(),
        "apiVersion: v1alpha1\nkind: KubeletConfig\n"
    );
}

#[test]
fn stripping_meta_written_last_keeps_a_trailing_comment() {
    let document =
        "apiVersion: v1alpha1\nkind: KubeletConfig\nslipmesh:\n    kind: patch\n# why\n";
    let out = strip_meta(document).unwrap();
    assert!(out.contains("# why"), "{out:?}");
    assert!(!out.contains("slipmesh:"), "{out:?}");
}

#[test]
fn a_comment_indented_inside_the_meta_block_goes_with_it() {
    let document = "apiVersion: v1alpha1\nkind: KubeletConfig\nslipmesh:\n    kind: patch\n    # meta note\n";
    assert_eq!(
        strip_meta(document).unwrap(),
        "apiVersion: v1alpha1\nkind: KubeletConfig\n"
    );
}

#[test]
fn removing_a_block_keeps_the_comment_that_introduces_the_next_one() {
    let document = "a: 1\npools:\n  - name: x\n    port: 1\n\n# where traffic bypasses the mesh\nbypass: []\n";
    assert_eq!(
        remove_key(document, "pools").unwrap(),
        "a: 1\n\n# where traffic bypasses the mesh\nbypass: []\n"
    );
}

#[test]
fn removing_the_last_block_leaves_the_rest_as_it_was() {
    let document = "a: 1  # kept\nruleset: |\n  table inet t {}\n";
    assert_eq!(remove_key(document, "ruleset").unwrap(), "a: 1  # kept\n");
}

#[test]
fn blanking_a_key_keeps_every_other_line_where_it_was() {
    let document = "slipmesh:\n  kind: network\ncluster:\n  bgp_as: 1\n";
    let blanked = blank_key(document, "slipmesh").unwrap();
    assert_eq!(blanked, "\n\ncluster:\n  bgp_as: 1\n");
}

#[test]
fn stripping_meta_that_is_not_there_changes_nothing() {
    let document = "apiVersion: v1alpha1\nkind: KubeletConfig\n";
    assert_eq!(strip_meta(document).unwrap(), document);
    assert_eq!(strip_meta("a: [1"), Err(DocumentError::NotYaml));
}

#[test]
fn each_document_comes_with_the_span_it_was_cut_from() {
    let raw = "a: 1\n---\n# b's note\nb: 2\n";
    let found = documents(raw).unwrap();
    let spans_found: Vec<_> = found.iter().map(|(span, _)| span.clone()).collect();
    assert_eq!(spans_found, spans(raw).unwrap());
    assert_eq!(found[1].1, "# b's note\nb: 2");
}

#[test]
fn a_document_with_nothing_in_it_is_not_one() {
    let raw = "a: 1\n---\n";
    assert_eq!(documents(raw).unwrap().len(), 1);
}

#[test]
fn document_splits_multi_document_file_preserving_order() {
    let raw = "machine:\n    install:\n        disk: /dev/vda\n---\napiVersion: v1alpha1\nkind: ExtensionServiceConfig\nname: awg\nconfigFiles: []\n";
    let segments = split(raw).unwrap();
    assert_eq!(segments.len(), 2);
    assert!(segments[0].starts_with("machine:"));
    assert!(segments[1].starts_with("apiVersion:"));
}

#[test]
fn document_split_of_empty_file_is_empty() {
    assert!(split("").unwrap().is_empty());
}

#[test]
fn a_document_terminator_is_not_content() {
    let raw = "machine:\n    install:\n        disk: /dev/vda\n...\n";
    let segments = split(raw).unwrap();
    assert_eq!(segments, vec!["machine:\n    install:\n        disk: /dev/vda".to_string()]);
}

#[test]
fn a_marker_line_with_trailing_spaces_leaves_no_blank_line() {
    let raw = "# note\n---   \nmachine: x\n";
    let segments = split(raw).unwrap();
    assert_eq!(segments, vec!["# note\nmachine: x".to_string()]);
}

#[test]
fn a_comment_written_beside_a_marker_survives_it() {
    let raw = "# note\n--- # why this document exists\nmachine: x\n";
    let segments = split(raw).unwrap();
    assert_eq!(
        segments,
        vec!["# note\n# why this document exists\nmachine: x".to_string()]
    );
}

#[test]
fn a_file_of_only_comments_is_kept_whole() {
    let raw = "# a note someone left, and nothing else\n";
    let segments = split(raw).unwrap();
    assert_eq!(segments, vec!["# a note someone left, and nothing else".to_string()]);
}

#[test]
fn a_marker_after_leading_comments_is_still_stripped() {
    let raw = "# hand-written, keep me\n---\nmachine:\n    install:\n        disk: /dev/vda\n";
    let segments = split(raw).unwrap();
    assert_eq!(segments.len(), 1);
    assert_eq!(
        segments[0],
        "# hand-written, keep me\nmachine:\n    install:\n        disk: /dev/vda"
    );
}

#[test]
fn a_comment_then_a_marker_and_nothing_else_leaves_no_empty_document() {
    let raw = "# just a note\n---\n";
    let segments = split(raw).unwrap();
    assert_eq!(segments, vec!["# just a note".to_string()]);
}

#[test]
fn crlf_inside_a_segment_survives() {
    let raw = "machine:\r\n    install:\r\n        disk: /dev/vda\r\n";
    let segments = split(raw).unwrap();
    assert!(
        segments[0].contains("\r\n"),
        "line endings were rewritten: {:?}",
        segments[0]
    );
}

#[test]
fn invalid_yaml_is_refused_rather_than_split() {
    let raw = "machine:\n  install:\n   disk: [unterminated\n";
    assert!(split(raw).is_err());
    assert_eq!(spans(raw), Err(DocumentError::NotYaml));
}

#[test]
fn a_comment_before_the_first_document_is_kept_with_it() {
    let raw = "# hand-written, do not lose me\nmachine:\n    install:\n        disk: /dev/vda\n";
    let segments = split(raw).unwrap();
    assert_eq!(segments.len(), 1);
    assert!(segments[0].starts_with("# hand-written"));
}

fn token(kind: &str, start: usize, end: usize) -> Token {
    Token { kind: kind.to_string(), start, end }
}

#[test]
fn cuts_follow_from_how_the_file_is_read() {
    let raw = "a: 1\n---\nb: 2\n";
    let node = |start: usize, end: usize, children: Vec<Token>| Node {
        token: token("document", start, end),
        children,
    };
    let syntax = Syntax {
        has_error: false,
        nodes: vec![
            node(0, 4, vec![]),
            node(5, 13, vec![token("---", 5, 8), token("block_node", 9, 13)]),
        ],
    };
    let cuts = cut_up(raw, &syntax).unwrap();
    assert_eq!(cuts.starts, vec![0, 5]);
    assert_eq!(cuts.markers, vec![(5, 9)]);
    let backwards = Syntax {
        has_error: false,
        nodes: vec![node(0, 4, vec![]), node(9, 13, vec![]), node(5, 8, vec![])],
    };
    assert_eq!(cut_up(raw, &backwards), Err(DocumentError::NotYaml));
    let broken = Syntax { has_error: true, nodes: vec![] };
    assert_eq!(cut_up(raw, &broken), Err(DocumentError::NotYaml));
}

// What is added to a document.

#[test]
fn a_scalar_joins_a_mapping_that_is_a_sequence_item() {
    let source = "nodes:\n    - name: node-a\n      node_id: 10.62.0.1\n    - name: node-b\n      node_id: 10.62.0.2\n";
    let out = append_to_mapping(
        source,
        &vec![key("nodes"), Step::Index(0)],
        &entries(vec![("mesh_private_key", text("S0VZ"))]),
    )
    .unwrap();
    assert_eq!(
        out,
        "nodes:\n    - name: node-a\n      node_id: 10.62.0.1\n      mesh_private_key: S0VZ\n    - name: node-b\n      node_id: 10.62.0.2\n"
    );
}

#[test]
fn a_mapping_nests_at_the_next_multiple_of_four() {
    let source = "mesh:\n    links:\n        - pair:\n            - node-a\n            - node-b\n          port: 51820\n";
    let obfuscation = mapping(vec![("jc", number(4)), ("jmin", number(81))]);
    let out = append_to_mapping(
        source,
        &vec![key("mesh"), key("links"), Step::Index(0)],
        &entries(vec![("obfuscation", obfuscation)]),
    )
    .unwrap();
    assert_eq!(
        out,
        "mesh:\n    links:\n        - pair:\n            - node-a\n            - node-b\n          port: 51820\n          obfuscation:\n            jc: 4\n            jmin: 81\n"
    );
}

#[test]
fn fields_join_a_nested_mapping_beside_the_ones_there() {
    let source =
        "links:\n    - port: 51820\n      obfuscation:\n        jc: 9\n    - port: 51821\n";
    let out = append_to_mapping(
        source,
        &vec![key("links"), Step::Index(0), key("obfuscation")],
        &entries(vec![("jmin", number(81)), ("jmax", number(408))]),
    )
    .unwrap();
    assert_eq!(
        out,
        "links:\n    - port: 51820\n      obfuscation:\n        jc: 9\n        jmin: 81\n        jmax: 408\n    - port: 51821\n"
    );
}

#[test]
fn an_entry_goes_in_front_of_the_comments_that_end_the_mapping() {
    let source = "slipmesh:\n    kind: roadwarriors\nname: plain\nclients: []\n# a closing note\n";
    let out = append_to_mapping(source, &vec![], &entries(vec![("private_key", text("S0VZ"))]))
        .unwrap();
    assert_eq!(
        out,
        "slipmesh:\n    kind: roadwarriors\nname: plain\nclients: []\nprivate_key: S0VZ\n# a closing note\n"
    );
}

#[test]
fn a_flow_mapping_stays_flow() {
    let source = "nodes:\n  - {name: node-a, node_id: \"10.62.0.1\"}\n";
    let out = append_to_mapping(
        source,
        &vec![key("nodes"), Step::Index(0)],
        &entries(vec![("mesh_private_key", text("S0VZ"))]),
    )
    .unwrap();
    assert_eq!(out.lines().count(), 2, "{out}");
    let value: Yaml = yaml_serde::from_str(&out).unwrap();
    assert_eq!(value["nodes"][0]["mesh_private_key"], "S0VZ");
    assert_eq!(value["nodes"][0]["node_id"], "10.62.0.1");
}

fn client() -> Value {
    mapping(vec![
        ("name", text("dave")),
        ("public_key", text("RERE")),
        ("allowed_ips", Value::Sequence(vec![text("198.51.100.99/32")])),
    ])
}

#[test]
fn a_mapping_item_puts_its_list_two_past_its_keys() {
    let source = "clients:\n    - name: carol\n      public_key: Q0ND\n      allowed_ips:\n        - 203.0.113.22/32\nplain: true\n";
    let out = append_to_sequence(source, &vec![key("clients")], &client()).unwrap();
    assert_eq!(
        out,
        "clients:\n    - name: carol\n      public_key: Q0ND\n      allowed_ips:\n        - 203.0.113.22/32\n    - name: dave\n      public_key: RERE\n      allowed_ips:\n        - 198.51.100.99/32\nplain: true\n"
    );
}

#[test]
fn an_empty_flow_sequence_becomes_a_block_one() {
    let source = "name: plain\nclients: []\nplain: true\n";
    let out = append_to_sequence(source, &vec![key("clients")], &client()).unwrap();
    assert_eq!(
        out,
        "name: plain\nclients:\n    - name: dave\n      public_key: RERE\n      allowed_ips:\n        - 198.51.100.99/32\nplain: true\n"
    );
}

#[test]
fn a_sequence_item_that_is_a_sequence_nests_two_past_its_dash() {
    let source = "lists:\n    - - a\n      - b\n";
    let item = Value::Sequence(vec![text("c"), text("d")]);
    let out = append_to_sequence(source, &vec![key("lists")], &item).unwrap();
    assert_eq!(out, "lists:\n    - - a\n      - b\n    - - c\n      - d\n");
}

/// How a scalar is written as the value of a key.
fn scalar(v: Value) -> String {
    let out = append_to_mapping("a: 1\n", &vec![], &entries(vec![("k", v)])).unwrap();
    out.strip_prefix("a: 1\nk: ").unwrap().strip_suffix('\n').unwrap().to_string()
}

#[test]
fn a_string_is_plain_where_it_reads_back_as_itself() {
    for plain in ["phone", "node-a", "S0VZ+/x=", "198.51.100.2/32", "2001:db8::2/128"] {
        assert_eq!(scalar(text(plain)), plain);
    }
}

#[test]
fn a_string_that_looks_like_another_type_is_double_quoted() {
    for (string, written) in [
        ("51821", "\"51821\""),
        ("yes", "\"yes\""),
        ("on", "\"on\""),
        ("y", "\"y\""),
        ("null", "\"null\""),
        ("1e3", "\"1e3\""),
        ("", "\"\""),
    ] {
        assert_eq!(scalar(text(string)), written, "{string}");
    }
}

#[test]
fn a_string_plain_syntax_cannot_carry_is_single_quoted() {
    assert_eq!(scalar(text("a: b")), "'a: b'");
    assert_eq!(scalar(text("it's #1")), "'it''s #1'");
    assert_eq!(scalar(text(" padded")), "' padded'");
}

#[test]
fn a_string_with_a_line_break_is_double_quoted_with_escapes() {
    assert_eq!(scalar(text("one\ntwo \"x\"")), "\"one\\ntwo \\\"x\\\"\"");
    assert_eq!(scalar(text("a\u{1}\u{9f}\\")), "\"a\\u0001\\u009F\\\\\"");
}

#[test]
fn numbers_and_bools_are_written_as_they_are() {
    assert_eq!(scalar(number(4)), "4");
    assert_eq!(scalar(number(2249923740)), "2249923740");
    assert_eq!(scalar(Value::Bool(true)), "true");
    assert_eq!(scalar(Value::Null), "null");
    assert_eq!(scalar(Value::Sequence(vec![])), "[]");
    assert_eq!(scalar(Value::Mapping(vec![])), "{}");
}

#[test]
fn how_a_string_is_quoted_follows_from_what_it_reads_as() {
    let read_as = |v: Value| Some(mapping(vec![("k", v)]));
    assert_eq!(quote("x", &Some(text("x")), &read_as(text("x"))), "x");
    assert_eq!(quote("x", &Some(number(1)), &read_as(text("x"))), "\"x\"");
    assert_eq!(quote("x", &Some(text("x")), &read_as(text("y"))), "'x'");
    assert_eq!(quote("x", &None, &None), "'x'");
    assert_eq!(quote("x\u{7f}", &None, &None), "\"x\\u007F\"");
}

#[test]
fn what_cannot_take_an_addition_says_why() {
    let one = || entries(vec![("k", number(1))]);
    assert_eq!(append_to_mapping("a: [1", &vec![], &one()), Err(EmitError::NotYaml));
    assert_eq!(append_to_mapping("a: 1\n", &vec![key("b")], &one()), Err(EmitError::NotFound));
    assert_eq!(append_to_mapping("a:\n", &vec![key("a")], &one()), Err(EmitError::Empty));
    assert_eq!(append_to_mapping("a: 1\n", &vec![key("a")], &one()), Err(EmitError::WrongKind));
    let odd = Value::Mapping(vec![(number(1), number(2))]);
    assert_eq!(
        append_to_mapping("a: 1\n", &vec![], &entries(vec![("k", odd)])),
        Err(EmitError::KeyNotText)
    );
    assert_eq!(
        append_to_sequence("a: [1]\n", &vec![key("a")], &number(2)),
        Err(EmitError::WrongKind)
    );
}

#[test]
fn a_tagged_node_takes_no_addition() {
    let one = || entries(vec![("k", number(1))]);
    for tagged in [
        "a: !x {b: 1}\n",
        "a: !x\n  b: 1\n",
        "a: &y !x {b: 1}\n",
        "a: &y # note\n  b: 1\n",
    ] {
        assert_eq!(
            append_to_mapping(tagged, &vec![key("a")], &one()),
            Err(EmitError::WrongKind),
            "{tagged}"
        );
        let patch = vec![Patch::Add(vec![key("a")], one())];
        assert_eq!(
            patch_document(tagged, 0..tagged.len(), &patch),
            Err(DocumentError::NotPatched),
            "{tagged}"
        );
    }
    assert_eq!(
        append_to_mapping("a: &y {b: 1} # !x\n", &vec![key("a")], &one()).unwrap(),
        "a: &y { b: 1, k: 1 } # !x\n"
    );
}

// Merging.

fn merged(base: &str, overlay: &str) -> Value {
    merge_document(yaml(base), &yaml(overlay))
}

fn keys(v: &Value) -> Vec<String> {
    match v {
        Value::Mapping(entries) => entries
            .iter()
            .map(|(k, _)| match k {
                Value::Text(s) => s.clone(),
                other => panic!("{other:?}"),
            })
            .collect(),
        other => panic!("{other:?}"),
    }
}

#[test]
fn the_later_scalar_wins() {
    assert_eq!(merged("a: 1", "a: 2"), yaml("a: 2"));
}

#[test]
fn mappings_merge_recursively() {
    assert_eq!(
        merged("extraArgs: {rotate: 'true', level: '2'}", "extraArgs: {level: '4'}"),
        yaml("extraArgs: {rotate: 'true', level: '4'}")
    );
}

#[test]
fn the_base_key_order_is_kept_and_new_keys_are_appended() {
    assert_eq!(keys(&merged("a: 1\nb: 2\nc: 3", "new: 0\nb: 20")), ["a", "b", "c", "new"]);
}

#[test]
fn a_sequence_is_replaced_not_concatenated() {
    assert_eq!(merged("list: [x, y]", "list: [z]"), yaml("list: [z]"));
}

#[test]
fn an_explicit_null_deletes_the_key_and_keeps_the_rest_in_order() {
    assert_eq!(keys(&merged("a: 1\nb: 2\nc: 3\nd: 4", "a: null")), ["b", "c", "d"]);
}

#[test]
fn a_null_for_a_key_the_base_lacks_adds_nothing() {
    assert_eq!(merged("a: 1", "b: null"), yaml("a: 1"));
}

#[test]
fn a_key_absent_from_the_overlay_is_inherited() {
    assert_eq!(merged("a: 1\nb: {c: 2}", "a: 5"), yaml("a: 5\nb: {c: 2}"));
}

#[test]
fn a_mapping_over_a_scalar_replaces_it_without_its_nulls() {
    assert_eq!(merged("a: 1", "a: {b: 2, c: null}"), yaml("a: {b: 2}"));
}

#[test]
fn a_delete_directive_on_the_overlay_replaces_the_result() {
    let overlay = "apiVersion: v1alpha1\nkind: KubeletConfig\n$patch: delete";
    assert_eq!(
        merged("apiVersion: v1alpha1\nkind: KubeletConfig\nextraArgs: {a: b}", overlay),
        yaml(overlay)
    );
}

#[test]
fn a_document_over_a_delete_directive_replaces_it() {
    let overlay = "apiVersion: v1alpha1\nkind: KubeletConfig\nextraArgs: {a: b}";
    assert_eq!(
        merged("apiVersion: v1alpha1\nkind: KubeletConfig\n$patch: delete", overlay),
        yaml(overlay)
    );
}

#[test]
fn a_nested_patch_key_is_an_ordinary_key() {
    assert_eq!(
        merged(
            "machine: {install: {disk: /dev/vda}}",
            "machine: {install: {$patch: delete}}"
        ),
        yaml("machine: {install: {disk: /dev/vda, $patch: delete}}")
    );
}

#[test]
fn a_copy_is_the_same_and_a_change_is_not() {
    let v = yaml("a: [1, {b: c}]\nd: null");
    assert!(same(&v, &copy(&v)));
    assert!(!same(&v, &yaml("a: [1, {b: d}]\nd: null")));
    assert!(!same(&v, &yaml("d: null\na: [1, {b: c}]")));
}

// Segments.

#[test]
fn identifies_extensionserviceconfig_awg_segment_as_owned() {
    let segment = "apiVersion: v1alpha1\nkind: ExtensionServiceConfig\nname: awg\nconfigFiles: []";
    assert!(is_owned(segment));
}

#[test]
fn identifies_extensionserviceconfig_unrelated_name_as_foreign() {
    let segment = "apiVersion: v1alpha1\nkind: ExtensionServiceConfig\nname: some-other-service\nconfigFiles: []";
    assert!(!is_owned(segment));
}

#[test]
fn identifies_segment_without_kind_as_foreign() {
    assert!(!is_owned("machine:\n    install:\n        disk: /dev/vda"));
}

#[test]
fn segments_splits_multi_document_file_preserving_order() {
    let raw = "machine:\n    install:\n        disk: /dev/vda\n---\napiVersion: v1alpha1\nkind: ExtensionServiceConfig\nname: awg\nconfigFiles: []\n";
    let segments = split_segments(raw);
    assert_eq!(segments.len(), 2);
    assert!(segments[0].starts_with("machine:"));
    assert!(segments[1].starts_with("apiVersion:"));
}

#[test]
fn segments_split_of_empty_file_is_empty() {
    assert!(split_segments("").is_empty());
    assert_eq!(split_segments("---\na\n---\n\n---\nb"), vec!["a", "b"]);
}

#[test]
fn foreign_segments_excludes_owned_and_preserves_order() {
    let raw = "machine:\n    install:\n        disk: /dev/vda\n---\napiVersion: v1alpha1\nkind: ExtensionServiceConfig\nname: awg\nconfigFiles: []\n---\napiVersion: v1alpha1\nkind: ExtensionServiceConfig\nname: router\nconfigFiles: []\n";
    let foreign = foreign_segments(raw);
    assert_eq!(foreign.len(), 1);
    assert!(foreign[0].starts_with("machine:"));
}

#[test]
fn foreign_segments_of_file_with_no_foreign_content_is_empty() {
    let raw = "apiVersion: v1alpha1\nkind: ExtensionServiceConfig\nname: awg\nconfigFiles: []\n";
    assert!(foreign_segments(raw).is_empty());
}

#[test]
fn foreign_segment_round_trips_byte_for_byte() {
    let disk_segment = "machine:\n    install:\n        disk: /dev/vda";
    let raw = format!("{disk_segment}\n");
    let foreign = foreign_segments(&raw);
    assert_eq!(foreign, vec![disk_segment.to_string()]);
}

#[test]
fn render_file_puts_foreign_first_then_owned_separated_by_doc_marker() {
    let foreign = vec!["machine:\n    install:\n        disk: /dev/vda".to_string()];
    let owned = vec![
        "apiVersion: v1alpha1\nkind: ExtensionServiceConfig\nname: awg\nconfigFiles: []".to_string(),
    ];
    let out = render_file(&foreign, &owned);
    assert_eq!(
        out,
        "machine:\n    install:\n        disk: /dev/vda\n---\napiVersion: v1alpha1\nkind: ExtensionServiceConfig\nname: awg\nconfigFiles: []\n"
    );
    assert_eq!(split_segments(&out), vec![foreign[0].clone(), owned[0].clone()]);
}

#[test]
fn owned_segment_finds_the_named_segment() {
    let raw = "apiVersion: v1alpha1\nkind: ExtensionServiceConfig\nname: awg\nconfigFiles: []\n---\napiVersion: v1alpha1\nkind: ExtensionServiceConfig\nname: router\nconfigFiles: [x]\n";
    let found = owned_segment(raw, "router").unwrap();
    assert!(found.contains("configFiles: [x]"));
}

#[test]
fn owned_segment_returns_none_when_absent() {
    let raw = "machine:\n    install:\n        disk: /dev/vda\n";
    assert!(owned_segment(raw, "awg").is_none());
}

#[test]
fn render_file_from_scratch_has_only_owned_segments() {
    let owned = vec![
        "apiVersion: v1alpha1\nkind: ExtensionServiceConfig\nname: router\nconfigFiles: []"
            .to_string(),
    ];
    let out = render_file(&vec![], &owned);
    assert_eq!(
        out,
        "apiVersion: v1alpha1\nkind: ExtensionServiceConfig\nname: router\nconfigFiles: []\n"
    );
}

#[test]
fn what_is_foreign_survives_a_regeneration() {
    let raw = "---\n# mine\nmachine:\n    install:\n        disk: /dev/vda\n---\napiVersion: v1alpha1\nkind: ExtensionServiceConfig\nname: awg\nold: 1\n---\nkind: KubeletConfig\n";
    let kept = foreign_segments(raw);
    assert_eq!(kept.len(), 2);
    let owned = vec![
        "apiVersion: v1alpha1\nkind: ExtensionServiceConfig\nname: awg\nnew: 1".to_string(),
    ];
    let rebuilt = render_file(&kept, &owned);
    assert_eq!(foreign_segments(&rebuilt), kept);
    assert_eq!(owned_segment(&rebuilt, "awg").as_ref(), Some(&owned[0]));
    // A segment that ends in a marker is not kept whole.
    let kept = foreign_segments("a: 1\n---");
    assert_ne!(foreign_segments(&render_file(&kept, &owned)), kept);
}

#[test]
fn an_anchored_document_is_left_alone() {
    let one = || entries(vec![("k", number(1))]);
    for anchored in ["&p {a: 1}\n", "&p\na: 1\n", "&p # note\na: 1\n", "*p\n"] {
        let patch = vec![Patch::Add(vec![], one())];
        assert_eq!(
            patch_document(anchored, 0..anchored.len(), &patch),
            Err(DocumentError::NotPatched),
            "{anchored}"
        );
    }
    assert_eq!(append_to_mapping("&p {a: 1}\n", &vec![], &one()), Err(EmitError::WrongKind));
    assert_eq!(
        add_entry("&p {a: 1}\n", &vec![], "k", &number(1)).unwrap(),
        "&p {a: 1, k: 1}\n"
    );
    let listed = "clients: &c # people\n  - a\n";
    assert_eq!(
        append_to_sequence(listed, &vec![key("clients")], &text("b")),
        Err(EmitError::WrongKind)
    );
    assert_eq!(add_item(listed, &vec![key("clients")], &text("b")), Err(EmitError::WrongKind));
}

#[test]
fn a_field_is_written_behind_a_key_without_a_value() {
    let set = |source: &str| set_field(source, &vec![], "k", &text("v")).unwrap();
    assert_eq!(set("a: 1\nk:\nb: 2\n"), "a: 1\nk: v\nb: 2\n");
    assert_eq!(set("a: 1\nk: # why\nb: 2\n"), "a: 1\nk: v # why\nb: 2\n");
    assert_eq!(set("k: ~\n"), "k: v\n");
    assert_eq!(set("k: null # why\n"), "k: v # why\n");
    assert_eq!(set("k:"), "k: v");
    assert_eq!(set("{a: 1, k: }\n"), "{a: 1, k: \"v\" }\n");
    assert_eq!(set("{a: 1, k: null}\n"), "{a: 1, k: \"v\"}\n");
    assert_eq!(set("a: 1 # one\n# end\n"), "a: 1 # one\nk: v\n# end\n");
    assert_eq!(set("{a: 'x' , b: [1,2]}\n"), "{a: 'x' , b: [1,2], k: \"v\"}\n");
    assert_eq!(set("{\n  a: 1\n}\n"), "{\n  a: 1\n, k: \"v\"}\n");
    assert_eq!(
        set_field("k: taken\n", &vec![], "k", &text("v")),
        Err(EmitError::WrongKind)
    );
    assert_eq!(set_field("a: [1", &vec![], "k", &text("v")), Err(EmitError::NotYaml));
}

#[test]
fn a_collection_goes_below_a_key_without_a_value() {
    let fields = mapping(vec![("jc", number(4)), ("jmin", number(81))]);
    let fill = |source: &str| {
        fill_key(source, &vec![key("l"), Step::Index(0), key("o")], &fields).unwrap()
    };
    assert_eq!(
        fill("l:\n  - p: 1\n    o: # none yet\n    q: 2\n"),
        "l:\n  - p: 1\n    o: # none yet\n        jc: 4\n        jmin: 81\n    q: 2\n"
    );
    assert_eq!(
        fill("l:\n  - o: ~\n    q: 2\n"),
        "l:\n  - o:\n        jc: 4\n        jmin: 81\n    q: 2\n"
    );
    assert_eq!(fill("l: [{o: }]\n"), "l: [{o: {jc: 4, jmin: 81} }]\n");
}

#[test]
fn an_item_joins_a_list_in_its_own_style() {
    let item = || mapping(vec![("name", text("a")), ("i", Value::Sequence(vec![text("x")]))]);
    let add = |source: &str| add_item(source, &vec![key("l")], &item()).unwrap();
    assert_eq!(add("l: [{name: b}]\nz: 1\n"), "l: [{name: b}, {name: \"a\", i: [\"x\"]}]\nz: 1\n");
    assert_eq!(add("l: [ {name: b}, ]\n"), "l: [ {name: b}, {name: \"a\", i: [\"x\"]} ]\n");
    assert_eq!(
        add("l: [\n  {name: b}\n]\n"),
        "l: [\n  {name: b}\n, {name: \"a\", i: [\"x\"]}]\n"
    );
    assert_eq!(add("l: [] # none\nz: 1\n"), "l: # none\n    - name: a\n      i:\n        - x\nz: 1\n");
    assert_eq!(add("l:\nz: 1\n"), "l:\n    - name: a\n      i:\n        - x\nz: 1\n");
    assert_eq!(
        add("l:\n  - name: b # the first\nz: 1\n"),
        "l:\n  - name: b # the first\n  - name: a\n    i:\n        - x\nz: 1\n"
    );
}

#[test]
fn an_item_is_cut_out_and_nothing_else() {
    let cut = |source: &str, i: usize| remove_item(source, &vec![key("l")], i).unwrap();
    assert_eq!(cut("l: [a, b, c] # three\n", 0), "l: [b, c] # three\n");
    assert_eq!(cut("l: [a, b, c] # three\n", 1), "l: [a, c] # three\n");
    assert_eq!(cut("l: [a, b, c] # three\n", 2), "l: [a, b] # three\n");
    assert_eq!(cut("l: [a]\n", 0), "l: []\n");
    assert_eq!(cut("l: [\n  a,\n  b\n]\n", 0), "l: [\n  b\n]\n");
    assert_eq!(cut("l: [\n  a,\n  b\n]\n", 1), "l: [\n  a\n]\n");
    assert_eq!(
        cut("l:\n  - n: a # mine\n    x: 1\n  # about b\n  - n: b\nz: 1\n", 0),
        "l:\n  # about b\n  - n: b\nz: 1\n"
    );
    assert_eq!(cut("l:\n  -\n    n: a\n  - n: b\nz: 1\n", 0), "l:\n  - n: b\nz: 1\n");
    assert_eq!(cut("l:\n- a\n- b", 1), "l:\n- a\n");
    assert_eq!(remove_item("l: [a]\n", &vec![key("l")], 1), None);
    assert_eq!(remove_item("l: 1\n", &vec![key("l")], 0), None);
}

#[test]
fn only_a_mapping_takes_entries() {
    let one = || entries(vec![("k", number(1))]);
    for document in ["a: \u{a0}\n", "a: 1\n", "a: [1]\n", "a:\n  - 1\n", "a: |\n  x\n", "a:\n"] {
        let patch = vec![Patch::Add(vec![key("a")], one())];
        assert_eq!(
            patch_document(document, 0..document.len(), &patch),
            Err(DocumentError::NotPatched),
            "{document}"
        );
    }
    for (document, added) in [
        ("a:\n  b: 1\n", "a:\n  b: 1\n  k: 1\n  l: 2\n"),
        ("a: {b: 1}\n", "a: { b: 1, k: 1, l: 2 }\n"),
        ("a: {b: &x [1], c: *x}\n", "a: { b: [1], c: [1], k: 1, l: 2 }\n"),
    ] {
        let both = entries(vec![("k", number(1)), ("l", number(2))]);
        let patch = vec![Patch::Add(vec![key("a")], both)];
        assert_eq!(patch_document(document, 0..document.len(), &patch).unwrap(), added);
    }
    let twice = entries(vec![("k", number(1)), ("k", number(2))]);
    let patch = vec![Patch::Add(vec![key("a")], twice)];
    let document = "a: {b: 1}\n";
    assert_eq!(
        patch_document(document, 0..document.len(), &patch),
        Err(DocumentError::NotPatched)
    );
}

#[test]
fn a_value_weighs_more_than_it_is_written_as() {
    let v = Value::Mapping(vec![(text("ab"), Value::Sequence(vec![number(1), text("c")]))]);
    // The mapping, a key of two characters, the list, and two items of one character each.
    assert_eq!(weigh(&v, 64), 64 + 3 * 72 + 72 + 2 * 80 + 2 * 80);
    assert_eq!(weigh(&text("abc"), LIMIT / 2), LIMIT);
    assert_eq!(weigh(&v, u64::MAX), LIMIT);
}

#[test]
fn a_file_of_no_segments_has_none() {
    assert_eq!(foreign_segments(&render_file(&vec![], &vec![])), Vec::<String>::new());
}
