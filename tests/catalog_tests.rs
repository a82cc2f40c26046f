use opvm::apply::{get_modify_time, judge_launch, launch_outcome, select_to_apply, InvokeError};
use opvm::order::CatalogOrder;
use opvm::scrape::{download_page_url, resolve_versions, stream_url, AddIssue, Scraper};

fn strs(items: &[&str]) -> Vec<String> {
    items.iter().map(|s| s.to_string()).collect()
}

fn catalog() -> Scraper {
    Scraper {
        mc_vers: strs(&["1.20.4", "1.16.5", "1.8.9"]),
        all_opt_vers: strs(&[
            "1.20.4_HD_U_I7",
            "1.20.4_HD_U_I6",
            "1.16.5_HD_U_G8",
            "1.16.5_HD_U_G7",
            "1.16.5_HD_U_G6",
            "1.16.50_X",
        ]),
    }
}

#[test]
fn opt_versions_of_a_minecraft_version() {
    let c = catalog();
    assert_eq!(
        c.get_opt_vers("1.16.5"),
        strs(&["1.16.5_HD_U_G8", "1.16.5_HD_U_G7", "1.16.5_HD_U_G6"])
    );
    assert!(c.get_opt_vers("1.8.9").is_empty());
    assert!(c.test_mc_ver(&"1.8.9".to_string()));
    assert!(!c.test_mc_ver(&"1.8".to_string()));
    assert!(c.test_opt_ver(&"1.20.4_HD_U_I6".to_string()));
    assert!(!c.test_opt_ver(&"1.20.4".to_string()));
}

#[test]
fn resolve_selectors() {
    let c = catalog();
    let r = resolve_versions(
        &c,
        &strs(&["1.16.5[2~]", "1.20.4", "1.16.5_HD_U_G8", "1.16.5[3/x/9]", "2.0[1]", "nope", "1.8.9"]),
    );
    assert_eq!(
        r.to_download,
        strs(&["1.16.5_HD_U_G7", "1.16.5_HD_U_G6", "1.20.4_HD_U_I7", "1.16.5_HD_U_G8"])
    );
    assert_eq!(
        r.issues,
        vec![
            AddIssue::BadIndex("1.16.5".to_string(), "x".to_string(), "Syntax error".to_string()),
            AddIssue::BadIndex(
                "1.16.5".to_string(),
                "9".to_string(),
                "Range should between 1~3".to_string()
            ),
            AddIssue::NoSuchMcVer("2.0".to_string()),
            AddIssue::NoSuchOptVer("nope".to_string()),
            AddIssue::NoSuchOptVer("1.8.9".to_string()),
        ]
    );
}

#[test]
fn empty_index_names_first_variant() {
    let r = resolve_versions(&catalog(), &strs(&["1.20.4[]"]));
    assert_eq!(r.to_download, strs(&["1.20.4_HD_U_I7"]));
    assert!(r.issues.is_empty());
}

#[test]
fn catalog_from_page() {
    let c = Scraper::from_page(
        &strs(&["Minecraft 1.20.4", "Minecraft 1.16.5", "Minecraft 1.20.4"]),
        &strs(&[
            "downloadx?f=OptiFine_1.20.4_HD_U_I7.jar",
            "http://example/notes.html",
            "downloadx?f=preview_OptiFine_1.20.4_HD_U_I8_pre1.jar",
            "downloadx?f=OptiFine_1.20.4_HD_U_I7.jar",
        ]),
    );
    assert_eq!(c.mc_vers, strs(&["1.20.4", "1.16.5"]));
    assert_eq!(c.all_opt_vers, strs(&["1.20.4_HD_U_I7", "1.20.4_HD_U_I8_pre1"]));
    assert_eq!(c.get_mc_vers(), &strs(&["1.20.4", "1.16.5"]));
    assert_eq!(c.get_all_opt_vers().len(), 2);
}

#[test]
fn select_stored_version_by_index() {
    let order = CatalogOrder::new(strs(&["1.16.5_HD_U_G8", "1.16.5_HD_U_G7", "1.20.4_HD_U_I7"]));
    let stored = strs(&["1.16.5_HD_U_G7", "1.16.5_HD_U_G8", "1.20.4_HD_U_I7"]);
    let pick = |v: &str| select_to_apply(&v.to_string(), &stored, &order);
    assert_eq!(pick("1.16.5[1]"), Some("1.16.5_HD_U_G8".to_string()));
    assert_eq!(pick("1.16.5[2]"), Some("1.16.5_HD_U_G7".to_string()));
    assert_eq!(pick("1.16.5[]"), Some("1.16.5_HD_U_G8".to_string()));
    assert_eq!(pick("1.16.5[3]"), None);
    assert_eq!(pick("1.16.5[1~2]"), None);
    assert_eq!(pick("1.16.5[1/2]"), None);
    assert_eq!(pick("1.12.2[1]"), None);
    assert_eq!(pick("I7"), Some("1.20.4_HD_U_I7".to_string()));
    assert_eq!(pick("1.16"), Some("1.16.5_HD_U_G7".to_string()));
    assert_eq!(pick("zzz"), None);
}

#[test]
fn launch_verdicts() {
    let t = |x: &str| Some(x.to_string());
    assert_eq!(judge_launch(&t("a"), &t("a"), true), Err(InvokeError::UserCancel));
    assert_eq!(judge_launch(&t("a"), &None, true), Err(InvokeError::UserCancel));
    assert_eq!(judge_launch(&t("a"), &t("b"), true), Ok(()));
    assert_eq!(judge_launch(&None, &t("b"), false), Err(InvokeError::ExitFail));
    assert_eq!(judge_launch(&None, &None, true), Ok(()));
}

#[test]
fn last_used_time_from_profile() {
    let before = r#"{"profiles": {"OptiFine": {"name": "OptiFine", "lastUsed": "2024-01-01T00:00:00Z"}}}"#;
    let after = r#"{"profiles": {"OptiFine": {"name": "OptiFine", "lastUsed" : "2024-02-01T00:00:00Z"}}}"#;
    assert_eq!(get_modify_time(before), Some("2024-01-01T00:00:00Z".to_string()));
    assert_eq!(get_modify_time("{}"), None);
    assert_eq!(launch_outcome(before, after, true), Ok(()));
    assert_eq!(launch_outcome(before, before, true), Err(InvokeError::UserCancel));
    assert_eq!(launch_outcome(before, after, false), Err(InvokeError::ExitFail));
}

#[test]
fn download_addresses() {
    assert_eq!(
        download_page_url("1.16.5_HD_U_G8"),
        "https://optifine.net/adloadx?f=OptiFine_1.16.5_HD_U_G8.jar"
    );
    assert_eq!(
        download_page_url("1.20.4_HD_U_I8_pre1"),
        "https://optifine.net/adloadx?f=preview_OptiFine_1.20.4_HD_U_I8_pre1.jar"
    );
    assert_eq!(stream_url("downloadx?f=a.jar&x=1"), "https://optifine.net/downloadx?f=a.jar&x=1");
}
