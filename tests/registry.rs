use boom::cache::{
    get_bang, get_redirects, init_list, insert_bang, load_redirects, replace_list, set_redirects,
    update_redirect, Redirect, Registry, RegistryError,
};

fn entry(short_name: &str, trigger: &str, url_template: &str) -> Redirect {
    Redirect {
        short_name: short_name.to_string(),
        trigger: trigger.to_string(),
        url_template: url_template.to_string(),
    }
}

fn triggers(reg: &Registry) -> Vec<String> {
    get_redirects(reg).iter().map(|r| r.trigger.clone()).collect()
}

#[test]
fn second_init_without_overwrite_fails_and_changes_nothing() {
    let mut reg = Registry::new();
    assert_eq!(init_list(&mut reg, vec![entry("A", "a", "https://a/{{{s}}}")], false), Ok(()));
    assert_eq!(
        init_list(&mut reg, vec![entry("B", "b", "https://b/{{{s}}}")], false),
        Err(RegistryError::AlreadyInitialized)
    );
    assert_eq!(triggers(&reg), vec!["a".to_string()]);
}

#[test]
fn init_with_overwrite_appends() {
    let mut reg = Registry::new();
    init_list(&mut reg, vec![entry("A", "a", "u1")], false).unwrap();
    init_list(&mut reg, vec![entry("B", "b", "u2")], true).unwrap();
    assert_eq!(triggers(&reg), vec!["a".to_string(), "b".to_string()]);
}

#[test]
fn empty_init_does_not_lock_the_registry() {
    let mut reg = Registry::new();
    init_list(&mut reg, vec![], false).unwrap();
    assert_eq!(init_list(&mut reg, vec![entry("A", "a", "u")], false), Ok(()));
}

#[test]
fn upsert_existing_trigger_keeps_length() {
    let mut reg = Registry::new();
    update_redirect(&mut reg, &entry("A", "a", "old"));
    update_redirect(&mut reg, &entry("B", "b", "u"));
    assert_eq!(get_redirects(&reg).len(), 2);
    update_redirect(&mut reg, &entry("A2", "a", "new"));
    assert_eq!(get_redirects(&reg).len(), 2);
    assert_eq!(get_bang(&reg, "a"), Some(0));
    assert_eq!(get_redirects(&reg)[0].url_template, "new");
    assert_eq!(get_redirects(&reg)[0].short_name, "A2");
}

#[test]
fn upsert_new_trigger_appends_and_indexes() {
    let mut reg = Registry::new();
    update_redirect(&mut reg, &entry("A", "a", "u"));
    assert_eq!(get_bang(&reg, "c"), None);
    update_redirect(&mut reg, &entry("C", "c", "w"));
    assert_eq!(get_redirects(&reg).len(), 2);
    assert_eq!(get_bang(&reg, "c"), Some(1));
    assert_eq!(get_redirects(&reg)[1].trigger, "c");
}

#[test]
fn insert_bang_sets_and_moves_an_index_entry() {
    let mut reg = Registry::new();
    init_list(&mut reg, vec![entry("A", "a", "u"), entry("B", "b", "v")], false).unwrap();
    assert_eq!(get_bang(&reg, "c"), None);
    insert_bang(&mut reg, "c".to_string(), 0);
    assert_eq!(get_bang(&reg, "c"), Some(0));
    insert_bang(&mut reg, "c".to_string(), 1);
    assert_eq!(get_bang(&reg, "c"), Some(1));
    assert_eq!(get_bang(&reg, "A"), None);
}

#[test]
fn set_redirects_replaces_the_list() {
    let mut reg = Registry::new();
    init_list(&mut reg, vec![entry("A", "a", "u")], false).unwrap();
    insert_bang(&mut reg, "a".to_string(), 0);
    set_redirects(&mut reg, vec![entry("X", "x", "y"), entry("Z", "z", "w")]);
    assert_eq!(triggers(&reg), vec!["x".to_string(), "z".to_string()]);
    assert_eq!(get_bang(&reg, "a"), Some(0));
}

#[test]
fn load_without_overwrite_indexes_each_trigger_at_its_last_entry() {
    let mut reg = Registry::new();
    let bangs = vec![
        entry("A", "a", "1"),
        entry("B", "b", "2"),
        entry("A again", "a", "3"),
    ];
    assert_eq!(load_redirects(&mut reg, bangs, false), Ok(()));
    assert_eq!(get_redirects(&reg).len(), 3);
    assert_eq!(get_bang(&reg, "a"), Some(2));
    assert_eq!(get_bang(&reg, "b"), Some(1));
    assert_eq!(
        load_redirects(&mut reg, vec![entry("C", "c", "4")], false),
        Err(RegistryError::AlreadyInitialized)
    );
    assert_eq!(get_redirects(&reg).len(), 3);
}

#[test]
fn load_with_overwrite_upserts_each() {
    let mut reg = Registry::new();
    load_redirects(&mut reg, vec![entry("A", "a", "1")], false).unwrap();
    let bangs = vec![entry("B", "b", "2"), entry("A", "a", "3")];
    assert_eq!(load_redirects(&mut reg, bangs, true), Ok(()));
    assert_eq!(triggers(&reg), vec!["a".to_string(), "b".to_string()]);
    assert_eq!(get_redirects(&reg)[0].url_template, "3");
    assert_eq!(get_bang(&reg, "b"), Some(1));
}

#[test]
fn duplicate_copies_every_field() {
    let r = entry("S", "t", "u");
    let d = r.duplicate();
    assert_eq!((d.short_name, d.trigger, d.url_template), ("S".to_string(), "t".to_string(), "u".to_string()));
}

#[test]
fn init_list_indexes_the_appended_triggers() {
    let mut reg = Registry::new();
    init_list(&mut reg, vec![entry("A", "a", "1"), entry("B", "b", "2"), entry("A2", "a", "3")], false).unwrap();
    assert_eq!(get_bang(&reg, "a"), Some(2));
    assert_eq!(get_bang(&reg, "b"), Some(1));
    init_list(&mut reg, vec![entry("C", "c", "4"), entry("B2", "b", "5")], true).unwrap();
    assert_eq!(get_bang(&reg, "c"), Some(3));
    assert_eq!(get_bang(&reg, "b"), Some(4));
    assert_eq!(get_bang(&reg, "a"), Some(2));
}

#[test]
fn refused_init_leaves_index_alone() {
    let mut reg = Registry::new();
    init_list(&mut reg, vec![entry("A", "a", "1")], false).unwrap();
    assert!(init_list(&mut reg, vec![entry("B", "b", "2")], false).is_err());
    assert_eq!(get_bang(&reg, "b"), None);
    assert_eq!(get_bang(&reg, "a"), Some(0));
}

#[test]
fn replace_list_rebuilds_the_index() {
    let mut reg = Registry::new();
    init_list(&mut reg, vec![entry("A", "a", "1"), entry("B", "b", "2")], false).unwrap();
    replace_list(&mut reg, vec![entry("Z", "z", "9")]);
    assert_eq!(triggers(&reg), vec!["z".to_string()]);
    assert_eq!(get_bang(&reg, "z"), Some(0));
    assert_eq!(get_bang(&reg, "a"), None);
    assert_eq!(get_bang(&reg, "b"), None);
}
