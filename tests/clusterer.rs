use battle_net_api::model::{BattleNetApiClient, RealmInfo};

fn realm(slug: &str, connected: &[&str]) -> RealmInfo {
    RealmInfo {
        name: slug.to_uppercase(),
        slug: slug.to_string(),
        connected_realms: connected.iter().map(|s| s.to_string()).collect(),
    }
}

fn groups(v: &[&[&str]]) -> Vec<Vec<String>> {
    v.iter().map(|g| g.iter().map(|s| s.to_string()).collect()).collect()
}

#[test]
fn same_order_members_form_one_group() {
    let realms = vec![realm("a", &["a", "b"]), realm("b", &["a", "b"])];
    let out = BattleNetApiClient::process_connected_realms(&realms);
    assert_eq!(out, groups(&[&["a", "b"]]));
}

#[test]
fn differing_member_order_leaves_two_groups() {
    let realms = vec![realm("a", &["a", "b"]), realm("b", &["b", "a"])];
    let out = BattleNetApiClient::process_connected_realms(&realms);
    assert_eq!(out, groups(&[&["a", "b"], &["b", "a"]]));
}

#[test]
fn groups_come_out_sorted_by_first_slug() {
    let realms = vec![
        realm("zul", &["zul"]),
        realm("kel", &["kel", "zag"]),
        realm("aman", &["aman"]),
        realm("zag", &["kel", "zag"]),
    ];
    let out = BattleNetApiClient::process_connected_realms(&realms);
    assert_eq!(out, groups(&[&["aman"], &["kel", "zag"], &["zul"]]));
}

#[test]
fn no_realms_no_groups() {
    let out = BattleNetApiClient::process_connected_realms(&vec![]);
    assert!(out.is_empty());
}

#[test]
fn equal_first_slugs_keep_input_order() {
    // The sort is stable: of two groups led by the same slug, the earlier stays first.
    let realms = vec![
        realm("x", &["x", "y", "z"]),
        realm("y", &["x", "z", "y"]),
        realm("z", &["x", "y", "z"]),
    ];
    let out = BattleNetApiClient::process_connected_realms(&realms);
    assert_eq!(out, groups(&[&["x", "y", "z"], &["x", "z", "y"], &["x", "y", "z"]]));
}

#[test]
fn byte_order_decides_between_prefixes() {
    let realms = vec![realm("ab", &["ab"]), realm("a", &["a"]), realm("B", &["B"])];
    let out = BattleNetApiClient::process_connected_realms(&realms);
    assert_eq!(out, groups(&[&["B"], &["a"], &["ab"]]));
}

#[test]
fn every_group_once_when_members_agree() {
    let realms = vec![
        realm("c", &["c", "d"]),
        realm("a", &["a"]),
        realm("d", &["c", "d"]),
        realm("a2", &["a2", "a3"]),
        realm("a3", &["a2", "a3"]),
    ];
    let out = BattleNetApiClient::process_connected_realms(&realms);
    assert_eq!(out, groups(&[&["a"], &["a2", "a3"], &["c", "d"]]));
    for r in &realms {
        assert_eq!(out.iter().filter(|g| **g == r.connected_realms).count(), 1);
    }
}

#[test]
fn single_realm_with_empty_list_is_one_empty_group() {
    let realms = vec![realm("lone", &[])];
    let out = BattleNetApiClient::process_connected_realms(&realms);
    assert_eq!(out, vec![Vec::<String>::new()]);
}
