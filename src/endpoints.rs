//! The URLs of the three endpoints.
use vstd::prelude::*;
use vstd::string::StringExecFns;
use crate::model::BattleNetApiClient;

verus! {

pub const REALM_STATUS_ENDPOINT: &'static str = "https://us.api.battle.net/wow/realm/status";

pub const AUCTION_DATA_ENDPOINT: &'static str = "https://us.api.battle.net/wow/auction/data/";

pub const ITEM_ENDPOINT: &'static str = "https://us.api.battle.net/wow/item/";

/// The query that every request carries, up to the credential.
pub const QUERY_PREFIX: &'static str = "?locale=en_US&apikey=";

/// The decimal digit `d`.
pub open spec fn digit_char(d: nat) -> char {
    seq!['0', '1', '2', '3', '4', '5', '6', '7', '8', '9'][d as int]
}

/// `n` in decimal, with no leading zeros.
pub open spec fn decimal(n: nat) -> Seq<char>
    decreases n,
{
    if n < 10 {
        seq![digit_char(n)]
    } else {
        decimal(n / 10).push(digit_char(n % 10))
    }
}

pub open spec fn realm_status_url(token: Seq<char>) -> Seq<char> {
    REALM_STATUS_ENDPOINT@ + QUERY_PREFIX@ + token
}

pub open spec fn auction_data_url(slug: Seq<char>, token: Seq<char>) -> Seq<char> {
    AUCTION_DATA_ENDPOINT@ + slug + QUERY_PREFIX@ + token
}

pub open spec fn item_url(id: nat, token: Seq<char>) -> Seq<char> {
    ITEM_ENDPOINT@ + decimal(id) + QUERY_PREFIX@ + token
}

fn digit_str(d: u64) -> (r: &'static str)
    requires
        d < 10,
    ensures
        r@ == seq![digit_char(d as nat)],
{
    proof {
        reveal_strlit("0");
        reveal_strlit("1");
        reveal_strlit("2");
        reveal_strlit("3");
        reveal_strlit("4");
        reveal_strlit("5");
        reveal_strlit("6");
        reveal_strlit("7");
        reveal_strlit("8");
        reveal_strlit("9");
    }
    if d == 0 {
        "0"
    } else if d == 1 {
        "1"
    } else if d == 2 {
        "2"
    } else if d == 3 {
        "3"
    } else if d == 4 {
        "4"
    } else if d == 5 {
        "5"
    } else if d == 6 {
        "6"
    } else if d == 7 {
        "7"
    } else if d == 8 {
        "8"
    } else {
        "9"
    }
}

/// `n` written in decimal.
pub fn decimal_string(n: u64) -> (r: String)
    ensures
        r@ == decimal(n as nat),
    decreases n,
{
    if n < 10 {
        digit_str(n).to_owned()
    } else {
        let mut s = decimal_string(n / 10);
        s.append(digit_str(n % 10));
        s
    }
}

impl BattleNetApiClient {
    /// The realm status URL.
    pub fn realm_status_url(&self) -> (r: String)
        ensures
            r@ == realm_status_url(self.token@),
    {
        let mut s = REALM_STATUS_ENDPOINT.to_owned();
        s.append(QUERY_PREFIX);
        s.append(self.token.as_str());
        s
    }

    /// The auction status URL of the realm `realm_slug`.
    pub fn auction_data_url(&self, realm_slug: &str) -> (r: String)
        ensures
            r@ == auction_data_url(realm_slug@, self.token@),
    {
        let mut s = AUCTION_DATA_ENDPOINT.to_owned();
        s.append(realm_slug);
        s.append(QUERY_PREFIX);
        s.append(self.token.as_str());
        s
    }

    /// The URL of the item `id`.
    pub fn item_url(&self, id: u64) -> (r: String)
        ensures
            r@ == item_url(id as nat, self.token@),
    {
        let mut s = ITEM_ENDPOINT.to_owned();
        let digits = decimal_string(id);
        s.append(digits.as_str());
        s.append(QUERY_PREFIX);
        s.append(self.token.as_str());
        s
    }
}

} // verus!
