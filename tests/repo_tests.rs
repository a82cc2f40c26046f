use opvm::repo::{looks_like_mc_dir, config_java, config_mc_dir, config_repo, gather_2delete_files, sync_vec_to_db, transpose, ConfigEdit};

fn strs(items: &[&str]) -> Vec<String> {
    items.iter().map(|s| s.to_string()).collect()
}

fn sorted(mut v: Vec<String>) -> Vec<String> {
    v.sort();
    v
}

#[test]
fn config_edits() {
    assert_eq!(
        config_mc_dir(&"/home/u/.minecraft".to_string()),
        ConfigEdit::Insert("mc_dir".to_string(), "/home/u/.minecraft".to_string())
    );
    assert_eq!(config_mc_dir(&String::new()), ConfigEdit::Remove("mc_dir".to_string()));
    assert_eq!(
        config_java(&"java".to_string()),
        ConfigEdit::Insert("java_path".to_string(), "java".to_string())
    );
    assert_eq!(config_java(&String::new()), ConfigEdit::Remove("java_path".to_string()));
    assert_eq!(
        config_repo(&"repo".to_string()),
        ConfigEdit::Insert("repo_dir".to_string(), "repo".to_string())
    );
    assert_eq!(config_repo(&String::new()), ConfigEdit::Remove("repo_dir".to_string()));
}

#[test]
fn sync_plan_is_the_two_differences() {
    let plan = sync_vec_to_db(&strs(&["a", "b", "c"]), &strs(&["b", "d", "d", "e"]));
    assert_eq!(sorted(plan.to_remove), strs(&["a", "c"]));
    assert_eq!(sorted(plan.to_insert), strs(&["d", "e"]));
    let plan = sync_vec_to_db(&strs(&["a"]), &strs(&["a"]));
    assert!(plan.to_remove.is_empty() && plan.to_insert.is_empty());
}

#[test]
fn gather_matches_any_pattern_once() {
    let files = strs(&["1.16.5_HD_U_G8", "1.20.4_HD_U_I7", "1.16.5_HD_U_G7", "custom"]);
    let got = gather_2delete_files(files.clone(), &strs(&["1.16.5", "G8"]));
    assert_eq!(sorted(got), strs(&["1.16.5_HD_U_G7", "1.16.5_HD_U_G8"]));
    let all = gather_2delete_files(files.clone(), &strs(&[""]));
    assert_eq!(all.len(), 4);
    assert!(gather_2delete_files(files.clone(), &strs(&[])).is_empty());
    assert!(gather_2delete_files(files, &strs(&["zzz"])).is_empty());
}

#[test]
fn transpose_rows_to_columns() {
    let m = vec![vec![1, 2, 3], vec![4, 5, 6], vec![7]];
    assert_eq!(transpose(&m), vec![vec![1, 4, 7], vec![2, 5], vec![3, 6]]);
    let m = vec![vec!["a".to_string()]];
    assert_eq!(transpose(&m), vec![vec!["a".to_string()]]);
}

#[test]
fn tally_counts_outcomes() {
    assert_eq!(opvm::repo::tally(&vec![true, false, true, true]), (3, 1));
    assert_eq!(opvm::repo::tally(&vec![]), (0, 0));
    assert_eq!(opvm::repo::tally(&vec![false, false]), (0, 2));
}

#[test]
fn minecraft_directory_shape() {
    let subs = strs(&["saves", "mods", "versions", "resourcepacks"]);
    assert!(looks_like_mc_dir(&".minecraft".to_string(), &subs));
    assert!(!looks_like_mc_dir(&"minecraft".to_string(), &subs));
    assert!(!looks_like_mc_dir(&".minecraft".to_string(), &strs(&["saves", "versions"])));
}
