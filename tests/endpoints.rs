use battle_net_api::endpoints::decimal_string;
use battle_net_api::model::BattleNetApiClient;

#[test]
fn realm_status_url_carries_the_token() {
    let c = BattleNetApiClient::new("tok123");
    assert_eq!(c.realm_status_url(), "https://us.api.battle.net/wow/realm/status?locale=en_US&apikey=tok123");
}

#[test]
fn auction_data_url_names_the_realm() {
    let c = BattleNetApiClient::new("tok");
    assert_eq!(
        c.auction_data_url("argent-dawn"),
        "https://us.api.battle.net/wow/auction/data/argent-dawn?locale=en_US&apikey=tok"
    );
}

#[test]
fn item_url_names_the_item() {
    let c = BattleNetApiClient::new("tok");
    assert_eq!(c.item_url(0), "https://us.api.battle.net/wow/item/0?locale=en_US&apikey=tok");
    assert_eq!(c.item_url(124105), "https://us.api.battle.net/wow/item/124105?locale=en_US&apikey=tok");
}

#[test]
fn decimal_digits() {
    assert_eq!(decimal_string(0), "0");
    assert_eq!(decimal_string(9), "9");
    assert_eq!(decimal_string(10), "10");
    assert_eq!(decimal_string(1000007), "1000007");
    assert_eq!(decimal_string(u64::MAX), u64::MAX.to_string());
}
