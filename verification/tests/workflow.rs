use kbdi::codec::{Error, InputList};
use kbdi::config::LangKeyboards;
use kbdi::keyboard::{
    enable, find_by_product_code, install_sequence, remove_invalid_kbids, InstallMode,
    KeyboardRecord,
};
use kbdi::{
    clean, disable_empty_languages, enable_language, enabled_input_methods, enabled_keyboards,
    enabled_languages, query_language, resolved_language_tags,
};

fn record(product_code: &str, regkey_id: &str) -> KeyboardRecord {
    KeyboardRecord {
        product_code: product_code.to_string(),
        regkey_id: regkey_id.to_string(),
        layout_dll: "kbdfoo01.dll".to_string(),
        layout_name: "Skolt Sami (Norway)".to_string(),
    }
}

fn lang(tag: &str, methods: &[&str]) -> LangKeyboards {
    LangKeyboards {
        tag: tag.to_string(),
        methods: methods.iter().map(|s| s.to_string()).collect(),
    }
}

fn strings(v: &[&str]) -> Vec<String> {
    v.iter().map(|s| s.to_string()).collect()
}

#[test]
fn enable_appends_only_under_the_requested_tag() {
    let records = vec![record("{42c3de12-28e8-4d92-8c3e-e0e9b9b3d6f3}", "a0000401")];
    let langs = strings(&["en-AU"]);
    let keyboards = vec![lang("en-AU", &["0c09:00000409"])];
    let plan = enable(
        "sma-Latn-NO",
        "{42c3de12-28e8-4d92-8c3e-e0e9b9b3d6f3}",
        0x2000,
        &records,
        &langs,
        &keyboards,
    )
    .unwrap();
    assert_eq!(plan.descriptor.as_str(), "2000:a0000401");
    let tags: Vec<&str> = plan.languages.iter().map(|s| s.as_str()).collect();
    assert_eq!(tags, vec!["en-AU", "sma-Latn-NO"]);
    assert_eq!(plan.keyboards.len(), 2);
    assert_eq!(plan.keyboards[0].tag.as_str(), "en-AU");
    assert_eq!(plan.keyboards[0].methods, strings(&["0c09:00000409"]));
    assert_eq!(plan.keyboards[1].tag.as_str(), "sma-Latn-NO");
    assert_eq!(plan.keyboards[1].methods, strings(&["2000:a0000401"]));
}

#[test]
fn enable_appends_to_an_existing_language_list() {
    let records = vec![record("{guid-1}", "a0000401")];
    let langs = strings(&["en-AU"]);
    let keyboards = vec![lang("en-AU", &["0c09:00000409"])];
    let plan = enable("en-AU", "{guid-1}", 0x0c09, &records, &langs, &keyboards).unwrap();
    assert_eq!(plan.languages, strings(&["en-AU"]));
    assert_eq!(plan.keyboards.len(), 1);
    assert_eq!(
        plan.keyboards[0].methods,
        strings(&["0c09:00000409", "0c09:a0000401"])
    );
}

#[test]
fn enable_does_not_duplicate_an_existing_descriptor() {
    let records = vec![record("{guid-1}", "00000409")];
    let langs = strings(&["en-AU"]);
    let keyboards = vec![lang("en-AU", &["0c09:00000409"])];
    let plan = enable("en-AU", "{guid-1}", 0x0c09, &records, &langs, &keyboards).unwrap();
    assert_eq!(plan.keyboards[0].methods, strings(&["0c09:00000409"]));
}

#[test]
fn enable_fails_on_unknown_product_code() {
    let records = vec![record("{guid-1}", "a0000401")];
    let r = enable("en-AU", "{other}", 0x0c09, &records, &strings(&[]), &vec![]);
    assert!(matches!(r, Err(Error::NotFound)));
}

#[test]
fn enable_fails_on_malformed_record_id() {
    let records = vec![record("{guid-1}", "nothex!!")];
    let r = enable("en-AU", "{guid-1}", 0x0c09, &records, &strings(&[]), &vec![]);
    assert!(matches!(r, Err(Error::FormatError)));
}

#[test]
fn find_by_product_code_returns_first_match() {
    let records = vec![record("{a}", "00000001"), record("{b}", "00000002")];
    assert_eq!(find_by_product_code(&records, "{b}"), Some(1));
    assert_eq!(find_by_product_code(&records, "{c}"), None);
}

#[test]
fn install_sequence_resets_first_resolvable_then_adds() {
    let keyboards = vec![
        lang("en-AU", &["0c09:00000409"]),
        lang("x-unresolved", &["whatever"]),
        lang("sma-Latn-NO", &["2000:a0000401"]),
    ];
    let resolvable = vec![true, false, true];
    let steps = install_sequence(&keyboards, &resolvable).unwrap();
    assert_eq!(steps.len(), 2);
    assert_eq!(steps[0].mode, InstallMode::Reset);
    assert_eq!(steps[0].mode.flag(), 256);
    assert_eq!(steps[0].list.to_wire_string().as_str(), "0c09:00000409");
    assert_eq!(steps[1].mode, InstallMode::Additive);
    assert_eq!(steps[1].mode.flag(), 0);
    assert_eq!(steps[1].list.to_wire_string().as_str(), "2000:a0000401");
}

#[test]
fn install_sequence_fails_on_malformed_resolvable_language() {
    let keyboards = vec![lang("en-AU", &["bogus"])];
    let r = install_sequence(&keyboards, &vec![true]);
    assert!(matches!(r, Err(Error::FormatError)));
}

#[test]
fn cleanup_retention_rule() {
    // Custom-prefix id: kept although not installed. Non-custom and not
    // installed: dropped. Installed: kept.
    let installed = strings(&["a0000001"]);
    let enabled = InputList::try_from_strings(&strings(&[
        "0c09:a1234567",
        "0c09:b0000099",
        "0c09:a0000001",
    ]))
    .unwrap();
    let kept = remove_invalid_kbids(&installed, &enabled);
    let ids: Vec<u32> = kept.items().iter().map(|i| i.tip_id).collect();
    assert_eq!(ids, vec![0xa1234567, 0xa0000001]);
}

#[test]
fn cleanup_keeps_order_and_duplicates_never_reappear() {
    let installed = strings(&["00000409"]);
    let enabled = InputList::try_from_strings(&strings(&[
        "0c09:00000409",
        "2000:b0000001",
        "0c09:00000409",
    ]))
    .unwrap();
    let kept = remove_invalid_kbids(&installed, &enabled);
    assert_eq!(kept.items().len(), 1);
    assert_eq!(kept.items()[0].tip_id, 0x409);
}

#[test]
fn clean_drops_items_and_empty_languages() {
    let installed = strings(&["a0000001"]);
    let keyboards = vec![
        lang("en-AU", &["0c09:b0000099"]),
        lang("sma-Latn-NO", &["2000:a0000001"]),
    ];
    let plan = clean(&installed, &keyboards).unwrap();
    assert_eq!(plan.install_list.items().len(), 1);
    assert_eq!(plan.install_list.items()[0].tip_id, 0xa0000001);
    assert_eq!(plan.languages, strings(&["sma-Latn-NO"]));
}

#[test]
fn clean_fails_on_malformed_stored_descriptor() {
    let keyboards = vec![lang("en-AU", &["garbage"])];
    assert!(matches!(clean(&strings(&[]), &keyboards), Err(Error::FormatError)));
}

#[test]
fn enable_language_appends_new_tag() {
    let langs = strings(&["en-AU"]);
    assert_eq!(enable_language(&langs, "sma-Latn-NO"), strings(&["en-AU", "sma-Latn-NO"]));
}

#[test]
fn enable_language_is_idempotent_up_to_case() {
    let langs = strings(&["en-AU"]);
    assert_eq!(enable_language(&langs, "en-AU"), langs);
    assert_eq!(enable_language(&langs, "EN-au"), langs);
}

#[test]
fn enabled_languages_splits_wire_reply() {
    let tags = enabled_languages("en-AU;sma-Latn-NO");
    assert_eq!(tags, strings(&["en-AU", "sma-Latn-NO"]));
    assert_eq!(enabled_languages(""), Vec::<String>::new());
    assert_eq!(enabled_languages("en-AU;"), strings(&["en-AU"]));
    assert_eq!(enabled_languages(";;en-AU"), strings(&["en-AU"]));
}

#[test]
fn enabled_keyboards_pairs_tags_with_decoded_methods() {
    let langs = strings(&["en-AU", "sma-Latn-NO"]);
    let raw = strings(&["0c09:00000409;0c09:a0000401", ""]);
    let kbs = enabled_keyboards(&langs, &raw);
    assert_eq!(kbs.len(), 2);
    assert_eq!(kbs[0].tag.as_str(), "en-AU");
    assert_eq!(kbs[0].methods, strings(&["0c09:00000409", "0c09:a0000401"]));
    assert_eq!(kbs[1].methods, Vec::<String>::new());
}

#[test]
fn query_language_formats_each_outcome() {
    assert_eq!(
        query_language("xx-YY", None, None).as_str(),
        "xx-YY: Unsupported tag.\n"
    );
    assert_eq!(
        query_language("en-AU", Some("English (Australia)\n"), Some(0x0c09)).as_str(),
        "English (Australia)\nLCID:          0x00000c09"
    );
    assert_eq!(
        query_language("vro-Latn", Some("Voro\n"), None).as_str(),
        "Voro\nLCID:          undefined"
    );
}

#[test]
fn disable_empty_languages_keeps_only_configured_tags() {
    let keyboards = vec![
        lang("en-AU", &["0c09:00000409"]),
        lang("x-empty", &[]),
        lang("sma-Latn-NO", &["2000:a0000401"]),
    ];
    assert_eq!(
        disable_empty_languages(&keyboards),
        strings(&["en-AU", "sma-Latn-NO"])
    );
}

#[test]
fn enabled_input_methods_flattens_and_deduplicates() {
    let per = vec![
        strings(&["0c09:00000409", "0c09:a0000401"]),
        strings(&["0c09:00000409"]),
    ];
    let l = enabled_input_methods(&per).unwrap();
    assert_eq!(l.items().len(), 2);
    assert!(matches!(
        enabled_input_methods(&vec![strings(&["oops"])]),
        Err(Error::FormatError)
    ));
}

#[test]
fn resolved_language_tags_keeps_recognised_tags_in_order() {
    let resolved = vec![
        Some("en-AU".to_string()),
        None,
        Some("sma-Latn-NO".to_string()),
    ];
    assert_eq!(
        resolved_language_tags(&resolved),
        strings(&["en-AU", "sma-Latn-NO"])
    );
}
